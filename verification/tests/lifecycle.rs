use flash_messages::message::Message;
use flash_messages::session::SessionMap;
use flash_messages::store::{LoadError, SessionMessageStore};

fn msg(level: &str, text: &str) -> Message {
    Message::new(String::from(level), String::from(text))
}

fn flash_key() -> String {
    String::from("_flash")
}

#[test]
fn store_then_load_round_trip() {
    let store = SessionMessageStore::default();
    let mut session = SessionMap::new();
    let queued = vec![msg("info", "Saved"), msg("warning", "Low disk space")];
    store.store(&queued, &mut session).unwrap();
    let loaded = store.load(&session).unwrap();
    assert_eq!(loaded.len(), 2);
    assert_eq!(loaded[0].level, "info");
    assert_eq!(loaded[0].text, "Saved");
    assert_eq!(loaded[1].level, "warning");
    assert_eq!(loaded[1].text, "Low disk space");
}

#[test]
fn load_from_fresh_session_is_empty() {
    let store = SessionMessageStore::default();
    let session = SessionMap::new();
    let loaded = store.load(&session).unwrap();
    assert!(loaded.is_empty());
}

#[test]
fn load_does_not_clear_the_slot() {
    let store = SessionMessageStore::default();
    let mut session = SessionMap::new();
    store.store(&vec![msg("info", "Saved")], &mut session).unwrap();
    let first = store.load(&session).unwrap();
    let second = store.load(&session).unwrap();
    assert_eq!(first.len(), 1);
    assert_eq!(second.len(), 1);
    assert_eq!(second[0].text, "Saved");
}

#[test]
fn store_empty_removes_the_slot() {
    let store = SessionMessageStore::default();
    let mut session = SessionMap::new();
    store.store(&vec![msg("info", "Saved")], &mut session).unwrap();
    assert!(session.contains_key(&flash_key()));
    store.store(&Vec::new(), &mut session).unwrap();
    assert!(!session.contains_key(&flash_key()));
    assert!(session.get(&flash_key()).is_none());
    let loaded = store.load(&session).unwrap();
    assert!(loaded.is_empty());
}

#[test]
fn store_is_idempotent() {
    let store = SessionMessageStore::default();
    let queued = vec![msg("error", "It broke"), msg("info", "But only a little")];

    let mut once = SessionMap::new();
    store.store(&queued, &mut once).unwrap();

    let mut twice = SessionMap::new();
    store.store(&queued, &mut twice).unwrap();
    store.store(&queued, &mut twice).unwrap();

    assert_eq!(once.get(&flash_key()), twice.get(&flash_key()));

    let empty: Vec<Message> = Vec::new();
    let mut removed_once = SessionMap::new();
    store.store(&queued, &mut removed_once).unwrap();
    store.store(&empty, &mut removed_once).unwrap();
    let mut removed_twice = SessionMap::new();
    store.store(&queued, &mut removed_twice).unwrap();
    store.store(&empty, &mut removed_twice).unwrap();
    store.store(&empty, &mut removed_twice).unwrap();
    assert_eq!(removed_once.contains_key(&flash_key()), false);
    assert_eq!(removed_twice.contains_key(&flash_key()), false);
}

#[test]
fn default_key_is_flash() {
    let store = SessionMessageStore::default();
    let mut session = SessionMap::new();
    store.store(&vec![msg("info", "Saved")], &mut session).unwrap();
    assert!(session.contains_key(&flash_key()));
}

#[test]
fn custom_key_does_not_interfere_with_default() {
    let default_store = SessionMessageStore::default();
    let custom_store = SessionMessageStore::new(String::from("custom"));
    let mut session = SessionMap::new();

    default_store.store(&vec![msg("info", "Default slot")], &mut session).unwrap();
    custom_store.store(&vec![msg("info", "Custom slot")], &mut session).unwrap();
    assert!(session.contains_key(&flash_key()));
    assert!(session.contains_key(&String::from("custom")));

    let from_default = default_store.load(&session).unwrap();
    let from_custom = custom_store.load(&session).unwrap();
    assert_eq!(from_default[0].text, "Default slot");
    assert_eq!(from_custom[0].text, "Custom slot");

    default_store.store(&Vec::new(), &mut session).unwrap();
    assert!(!session.contains_key(&flash_key()));
    assert!(session.contains_key(&String::from("custom")));
    assert_eq!(custom_store.load(&session).unwrap()[0].text, "Custom slot");
}

#[test]
fn undecodable_slot_is_a_load_error() {
    let store = SessionMessageStore::default();
    let mut session = SessionMap::new();
    session.insert(flash_key(), vec!['h', 'e', 'l', 'l', 'o']);
    let result = store.load(&session);
    assert!(matches!(result, Err(LoadError::GenericError(_))));
    if let Err(LoadError::GenericError(context)) = result {
        assert!(!context.is_empty());
    }
}

#[test]
fn truncated_slot_is_a_load_error() {
    let store = SessionMessageStore::default();
    let mut session = SessionMap::new();
    session.insert(flash_key(), "4:info5:Sav".chars().collect());
    assert!(store.load(&session).is_err());
}

#[test]
fn scenario_store_load_clear() {
    let store = SessionMessageStore::default();
    let mut session = SessionMap::new();

    store.store(&vec![msg("info", "Saved")], &mut session).unwrap();
    let slot: Vec<char> = session.get(&flash_key()).unwrap().clone();
    assert_eq!(slot, "4:info5:Saved".chars().collect::<Vec<char>>());

    let loaded = store.load(&session).unwrap();
    assert_eq!(loaded.len(), 1);
    assert_eq!(loaded[0].level, "info");
    assert_eq!(loaded[0].text, "Saved");

    store.store(&Vec::new(), &mut session).unwrap();
    assert!(!session.contains_key(&flash_key()));
    assert!(store.load(&session).unwrap().is_empty());
}
