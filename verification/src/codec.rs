//! The slot encoding: a sequence of messages as one character string.
//!
//! Each message is written as its two fields in order, each field
//! length-prefixed: the field's length in decimal, a `:`, then the field's
//! characters verbatim. One message with level `info` and text `Saved`
//! becomes `4:info5:Saved`; messages follow each other without separators.
//!
//! The encoding is proved unambiguous: a string is the encoding of at most
//! one message sequence, and [`decode_messages`] recovers exactly that
//! sequence, answering `None` on every other string.

use crate::message::{msg_views, Message, MessageView};
use vstd::arithmetic::div_mod::{lemma_fundamental_div_mod, lemma_fundamental_div_mod_converse};
use vstd::prelude::*;
use vstd::string::StrSliceExecFns;

verus! {

/// Relies on std's `String::push`: it appends the given character to the
/// end of the string. vstd gives this method no specification of its own.
pub assume_specification[ String::push ](s: &mut String, c: char)
    ensures
        final(s)@ == old(s)@.push(c),
;

/// The digit character for `n` (meaningful for `n < 10`).
pub open spec fn digit_char(n: nat) -> char {
    if n == 0 {
        '0'
    } else if n == 1 {
        '1'
    } else if n == 2 {
        '2'
    } else if n == 3 {
        '3'
    } else if n == 4 {
        '4'
    } else if n == 5 {
        '5'
    } else if n == 6 {
        '6'
    } else if n == 7 {
        '7'
    } else if n == 8 {
        '8'
    } else {
        '9'
    }
}

/// Whether `c` is a decimal digit.
pub open spec fn is_digit(c: char) -> bool {
    c == '0' || c == '1' || c == '2' || c == '3' || c == '4' || c == '5' || c == '6' || c == '7'
        || c == '8' || c == '9'
}

/// The numeric value of the digit `c` (meaningful when `is_digit(c)`).
pub open spec fn digit_val(c: char) -> nat {
    if c == '0' {
        0
    } else if c == '1' {
        1
    } else if c == '2' {
        2
    } else if c == '3' {
        3
    } else if c == '4' {
        4
    } else if c == '5' {
        5
    } else if c == '6' {
        6
    } else if c == '7' {
        7
    } else if c == '8' {
        8
    } else {
        9
    }
}

/// The decimal digits of `n`, most significant first, without leading zeros.
pub open spec fn spec_digits(n: nat) -> Seq<char>
    decreases n,
{
    if n < 10 {
        seq![digit_char(n)]
    } else {
        spec_digits(n / 10).push(digit_char(n % 10))
    }
}

/// The numeric value of a digit string, most significant digit first.
pub open spec fn seq_val(d: Seq<char>) -> nat
    decreases d.len(),
{
    if d.len() == 0 {
        0
    } else {
        seq_val(d.drop_last()) * 10 + digit_val(d.last())
    }
}

/// One length-prefixed field: the decimal length, a `:`, the characters.
pub open spec fn enc_str(s: Seq<char>) -> Seq<char> {
    spec_digits(s.len()) + seq![':'] + s
}

/// One encoded message: its level field, then its text field.
pub open spec fn enc_msg(m: MessageView) -> Seq<char> {
    enc_str(m.level) + enc_str(m.text)
}

/// A whole encoded message sequence: the messages one after the other.
pub open spec fn enc_msgs(ms: Seq<MessageView>) -> Seq<char>
    decreases ms.len(),
{
    if ms.len() == 0 {
        Seq::empty()
    } else {
        enc_msg(ms.first()) + enc_msgs(ms.drop_first())
    }
}

/// The digits of `n` are decimal digits, at least one of them, and the
/// first is `'0'` only when `n` is zero itself.
pub proof fn lemma_digits_shape(n: nat)
    ensures
        spec_digits(n).len() >= 1,
        forall|i: int| 0 <= i < spec_digits(n).len() ==> is_digit(#[trigger] spec_digits(n)[i]),
        spec_digits(n)[0] == '0' ==> n == 0 && spec_digits(n).len() == 1,
    decreases n,
{
    if n >= 10 {
        lemma_digits_shape(n / 10);
        assert(spec_digits(n)[0] == spec_digits(n / 10)[0]);
    }
}

/// The value of the digits of `n` is `n` again.
pub proof fn lemma_digits_val(n: nat)
    ensures
        seq_val(spec_digits(n)) == n,
    decreases n,
{
    if n < 10 {
        assert(seq_val(Seq::<char>::empty()) == 0);
        assert(spec_digits(n).drop_last() =~= Seq::<char>::empty());
        assert(spec_digits(n).last() == digit_char(n));
        assert(digit_val(digit_char(n)) == n);
    } else {
        lemma_digits_val(n / 10);
        let d = spec_digits(n / 10);
        assert(d.push(digit_char(n % 10)).drop_last() =~= d);
        assert(d.push(digit_char(n % 10)).last() == digit_char(n % 10));
        assert(digit_val(digit_char(n % 10)) == n % 10);
        assert(n / 10 * 10 + n % 10 == n) by {
            lemma_fundamental_div_mod_converse(n as int, 10, n as int / 10, n as int % 10);
        };
    }
}

/// A nonempty digit string that does not start with `'0'` values at least 1.
pub proof fn lemma_val_positive(d: Seq<char>)
    requires
        d.len() >= 1,
        forall|i: int| 0 <= i < d.len() ==> is_digit(#[trigger] d[i]),
        d[0] != '0',
    ensures
        seq_val(d) >= 1,
    decreases d.len(),
{
    if d.len() == 1 {
        assert(d.drop_last() =~= Seq::<char>::empty());
    } else {
        lemma_val_positive(d.drop_last());
    }
}

/// A digit string in canonical form (nonempty, a leading `'0'` only when it
/// stands alone) is exactly the digit string of its value.
pub proof fn lemma_canonical(d: Seq<char>)
    requires
        d.len() >= 1,
        forall|i: int| 0 <= i < d.len() ==> is_digit(#[trigger] d[i]),
        d[0] == '0' ==> d.len() == 1,
    ensures
        d == spec_digits(seq_val(d)),
    decreases d.len(),
{
    if d.len() == 1 {
        assert(seq_val(Seq::<char>::empty()) == 0);
        assert(d.drop_last() =~= Seq::<char>::empty());
        assert(d.last() == d[0]);
        assert(seq_val(d) == digit_val(d[0]));
        assert(d =~= spec_digits(seq_val(d)));
    } else {
        let dl = d.drop_last();
        assert(dl[0] == d[0]);
        lemma_canonical(dl);
        lemma_val_positive(dl);
        let v = seq_val(d);
        assert(v == seq_val(dl) * 10 + digit_val(d.last()));
        assert(v >= 10);
        assert(v / 10 == seq_val(dl) && v % 10 == digit_val(d.last())) by {
            lemma_fundamental_div_mod_converse(
                v as int,
                10,
                seq_val(dl) as int,
                digit_val(d.last()) as int,
            );
        };
        assert(d =~= dl.push(d.last()));
    }
}

/// In a string of the shape `digits : rest`, the digit run before the
/// first `:` and what follows it are determined by the whole string.
pub proof fn lemma_digit_run(a1: Seq<char>, b1: Seq<char>, a2: Seq<char>, b2: Seq<char>)
    requires
        a1 + seq![':'] + b1 == a2 + seq![':'] + b2,
        forall|i: int| 0 <= i < a1.len() ==> is_digit(#[trigger] a1[i]),
        forall|i: int| 0 <= i < a2.len() ==> is_digit(#[trigger] a2[i]),
    ensures
        a1 == a2,
        b1 == b2,
{
    let s1 = a1 + seq![':'] + b1;
    let s2 = a2 + seq![':'] + b2;
    assert(s1[a1.len() as int] == ':');
    assert(s2[a2.len() as int] == ':');
    if a1.len() < a2.len() {
        assert(is_digit(s2[a1.len() as int]));
        assert(false);
    }
    if a2.len() < a1.len() {
        assert(is_digit(s1[a2.len() as int]));
        assert(false);
    }
    assert(s1.len() == a1.len() + 1 + b1.len());
    assert(s2.len() == a2.len() + 1 + b2.len());
    assert(b1.len() == b2.len());
    assert(a1 =~= a2) by {
        assert(forall|i: int| 0 <= i < a1.len() ==> s1[i] == a1[i] && s2[i] == a2[i]);
    };
    assert(b1 =~= b2) by {
        assert(forall|i: int|
            0 <= i < b1.len() ==> s1[i + a1.len() + 1] == b1[i] && s2[i + a2.len() + 1] == b2[i]);
    };
}

/// A length-prefixed field determines itself and what follows it.
pub proof fn lemma_enc_str_deterministic(x: Seq<char>, r1: Seq<char>, y: Seq<char>, r2: Seq<char>)
    requires
        enc_str(x) + r1 == enc_str(y) + r2,
    ensures
        x == y,
        r1 == r2,
{
    lemma_digits_shape(x.len());
    lemma_digits_shape(y.len());
    assert(enc_str(x) + r1 =~= spec_digits(x.len()) + seq![':'] + (x + r1));
    assert(enc_str(y) + r2 =~= spec_digits(y.len()) + seq![':'] + (y + r2));
    lemma_digit_run(spec_digits(x.len()), x + r1, spec_digits(y.len()), y + r2);
    lemma_digits_val(x.len());
    lemma_digits_val(y.len());
    assert(x.len() == y.len());
    assert(x =~= (x + r1).take(x.len() as int));
    assert(y =~= (y + r2).take(y.len() as int));
    assert(r1 =~= (x + r1).skip(x.len() as int));
    assert(r2 =~= (y + r2).skip(y.len() as int));
}

/// An encoded message determines itself and what follows it.
pub proof fn lemma_enc_msg_deterministic(a: MessageView, r1: Seq<char>, b: MessageView, r2: Seq<char>)
    requires
        enc_msg(a) + r1 == enc_msg(b) + r2,
    ensures
        a == b,
        r1 == r2,
{
    assert(enc_msg(a) + r1 =~= enc_str(a.level) + (enc_str(a.text) + r1));
    assert(enc_msg(b) + r2 =~= enc_str(b.level) + (enc_str(b.text) + r2));
    lemma_enc_str_deterministic(a.level, enc_str(a.text) + r1, b.level, enc_str(b.text) + r2);
    lemma_enc_str_deterministic(a.text, r1, b.text, r2);
    assert(a =~= b);
}

/// Only the empty message sequence encodes to the empty string, and every
/// encoded message contributes at least one character.
pub proof fn lemma_enc_msgs_len(ms: Seq<MessageView>)
    ensures
        ms.len() == 0 <==> enc_msgs(ms).len() == 0,
{
    if ms.len() != 0 {
        lemma_digits_shape(ms.first().level.len());
        assert(enc_msgs(ms).len() >= enc_msg(ms.first()).len());
    }
}

/// Appending one message appends its encoding.
pub proof fn lemma_enc_msgs_push(ms: Seq<MessageView>, m: MessageView)
    ensures
        enc_msgs(ms.push(m)) == enc_msgs(ms) + enc_msg(m),
    decreases ms.len(),
{
    if ms.len() == 0 {
        assert(ms.push(m).first() == m);
        assert(ms.push(m).drop_first() =~= Seq::<MessageView>::empty());
        assert(enc_msgs(Seq::<MessageView>::empty()) == Seq::<char>::empty());
        assert(enc_msgs(ms.push(m)) =~= enc_msgs(ms) + enc_msg(m));
    } else {
        assert(ms.push(m).first() == ms.first());
        assert(ms.push(m).drop_first() =~= ms.drop_first().push(m));
        lemma_enc_msgs_push(ms.drop_first(), m);
        assert(enc_msgs(ms.push(m)) =~= enc_msgs(ms) + enc_msg(m));
    }
}

/// If an encoded sequence begins with the encoding of `pre`, then the
/// sequence begins with `pre`, and the rest of the string encodes the rest.
pub proof fn lemma_enc_msgs_prefix(ms: Seq<MessageView>, pre: Seq<MessageView>, tail: Seq<char>)
    requires
        enc_msgs(ms) == enc_msgs(pre) + tail,
    ensures
        exists|suf: Seq<MessageView>| ms == pre + suf && tail == enc_msgs(suf),
    decreases pre.len(),
{
    if pre.len() == 0 {
        assert(enc_msgs(pre) == Seq::<char>::empty());
        assert(tail =~= enc_msgs(ms));
        assert(ms =~= pre + ms);
        assert(ms == pre + ms && tail == enc_msgs(ms));
    } else {
        lemma_enc_msgs_len(pre);
        lemma_enc_msgs_len(ms);
        assert(ms.len() != 0);
        assert(enc_msg(ms.first()) + enc_msgs(ms.drop_first()) =~= enc_msg(pre.first()) + (
        enc_msgs(pre.drop_first()) + tail));
        lemma_enc_msg_deterministic(
            ms.first(),
            enc_msgs(ms.drop_first()),
            pre.first(),
            enc_msgs(pre.drop_first()) + tail,
        );
        lemma_enc_msgs_prefix(ms.drop_first(), pre.drop_first(), tail);
        let suf = choose|suf: Seq<MessageView>|
            ms.drop_first() == pre.drop_first() + suf && tail == enc_msgs(suf);
        assert(ms.len() == 1 + ms.drop_first().len());
        assert forall|i: int| 0 <= i < ms.len() implies ms[i] == (pre + suf)[i] by {
            if i > 0 {
                assert(ms[i] == ms.drop_first()[i - 1]);
                assert(ms.drop_first()[i - 1] == (pre.drop_first() + suf)[i - 1]);
                if i < pre.len() {
                    assert((pre.drop_first() + suf)[i - 1] == pre.drop_first()[i - 1]);
                    assert(pre.drop_first()[i - 1] == pre[i]);
                } else {
                    assert((pre.drop_first() + suf)[i - 1] == suf[i - pre.len()]);
                }
            }
        };
        assert(ms =~= pre + suf);
        assert(ms == pre + suf && tail == enc_msgs(suf));
    }
}

/// No two message sequences share an encoding.
pub proof fn lemma_enc_msgs_injective(a: Seq<MessageView>, b: Seq<MessageView>)
    requires
        enc_msgs(a) == enc_msgs(b),
    ensures
        a == b,
{
    assert(enc_msgs(b) =~= enc_msgs(a) + Seq::<char>::empty());
    lemma_enc_msgs_prefix(b, a, Seq::empty());
    let suf = choose|suf: Seq<MessageView>| b == a + suf && Seq::<char>::empty() == enc_msgs(suf);
    lemma_enc_msgs_len(suf);
    assert(b =~= a);
}

/// The message sequence a string encodes, if there is one.
pub open spec fn spec_decode(s: Seq<char>) -> Option<Seq<MessageView>> {
    if exists|ms: Seq<MessageView>| s == enc_msgs(ms) {
        Some(choose|ms: Seq<MessageView>| s == enc_msgs(ms))
    } else {
        None
    }
}

/// Decoding inverts encoding: the round trip returns the messages unchanged.
pub proof fn lemma_decode_encode(ms: Seq<MessageView>)
    ensures
        spec_decode(enc_msgs(ms)) == Some(ms),
{
    assert(enc_msgs(ms) == enc_msgs(ms));
    let picked = choose|m2: Seq<MessageView>| enc_msgs(ms) == enc_msgs(m2);
    lemma_enc_msgs_injective(picked, ms);
}

/// The digit character for `d` (`d < 10`).
fn digit_to_char(d: usize) -> (c: char)
    requires
        d < 10,
    ensures
        c == digit_char(d as nat),
{
    if d == 0 {
        '0'
    } else if d == 1 {
        '1'
    } else if d == 2 {
        '2'
    } else if d == 3 {
        '3'
    } else if d == 4 {
        '4'
    } else if d == 5 {
        '5'
    } else if d == 6 {
        '6'
    } else if d == 7 {
        '7'
    } else if d == 8 {
        '8'
    } else {
        '9'
    }
}

/// Appends the decimal digits of `n` to `out`.
fn push_digits(out: &mut Vec<char>, n: usize)
    ensures
        final(out)@ == old(out)@ + spec_digits(n as nat),
    decreases n,
{
    if n < 10 {
        out.push(digit_to_char(n));
        assert(old(out)@ + spec_digits(n as nat) =~= old(out)@.push(digit_char(n as nat)));
    } else {
        push_digits(out, n / 10);
        out.push(digit_to_char(n % 10));
        assert(old(out)@ + spec_digits(n as nat) =~= (old(out)@ + spec_digits(n as nat / 10)).push(
        digit_char(n as nat % 10)));
    }
}

/// Appends the length-prefixed encoding of `s` to `out`.
fn push_field(out: &mut Vec<char>, s: &str)
    ensures
        final(out)@ == old(out)@ + enc_str(s@),
{
    let n = s.unicode_len();
    push_digits(out, n);
    out.push(':');
    assert(out@ =~= old(out)@ + spec_digits(n as nat) + seq![':'] + s@.take(0));
    let mut i: usize = 0;
    while i < n
        invariant
            n == s@.len(),
            i <= n,
            out@ == old(out)@ + spec_digits(n as nat) + seq![':'] + s@.take(i as int),
        decreases n - i,
    {
        out.push(s.get_char(i));
        assert(s@.take(i + 1) =~= s@.take(i as int).push(s@[i as int]));
        assert(out@ =~= old(out)@ + spec_digits(n as nat) + seq![':'] + s@.take(i + 1));
        i += 1;
    }
    assert(s@.take(n as int) =~= s@);
    assert(out@ =~= old(out)@ + enc_str(s@));
}

/// Encodes a message sequence for the session slot.
pub fn encode_messages(messages: &Vec<Message>) -> (r: Vec<char>)
    ensures
        r@ == enc_msgs(msg_views(messages@)),
{
    let mut out: Vec<char> = Vec::new();
    assert(messages@.take(0) =~= Seq::<Message>::empty());
    assert(msg_views(Seq::<Message>::empty()) =~= Seq::<MessageView>::empty());
    let mut k: usize = 0;
    while k < messages.len()
        invariant
            k <= messages@.len(),
            out@ == enc_msgs(msg_views(messages@.take(k as int))),
        decreases messages@.len() - k,
    {
        let m = &messages[k];
        push_field(&mut out, m.level.as_str());
        push_field(&mut out, m.text.as_str());
        proof {
            let pre = msg_views(messages@.take(k as int));
            lemma_enc_msgs_push(pre, messages@[k as int]@);
            assert(msg_views(messages@.take(k + 1)) =~= pre.push(messages@[k as int]@));
            assert(enc_msg(messages@[k as int]@) =~= enc_str(m.level@) + enc_str(m.text@));
            assert(out@ =~= enc_msgs(msg_views(messages@.take(k + 1))));
        }
        k += 1;
    }
    assert(messages@.take(messages@.len() as int) =~= messages@);
    out
}

/// The value of a prefix of a digit string is at most the whole value.
pub proof fn lemma_prefix_val_le(d: Seq<char>, k: int)
    requires
        0 <= k <= d.len(),
        forall|i: int| 0 <= i < d.len() ==> is_digit(#[trigger] d[i]),
    ensures
        seq_val(d.take(k)) <= seq_val(d),
    decreases d.len() - k,
{
    if k < d.len() {
        lemma_prefix_val_le(d, k + 1);
        assert(d.take(k + 1).drop_last() =~= d.take(k));
        assert(seq_val(d.take(k + 1)) == seq_val(d.take(k)) * 10 + digit_val(d[k]));
    } else {
        assert(d.take(k) =~= d);
    }
}

/// Whether `c` is a decimal digit, decided at run time.
fn char_is_digit(c: char) -> (b: bool)
    ensures
        b == is_digit(c),
{
    match c {
        '0' => true,
        '1' => true,
        '2' => true,
        '3' => true,
        '4' => true,
        '5' => true,
        '6' => true,
        '7' => true,
        '8' => true,
        '9' => true,
        _ => false,
    }
}

/// The numeric value of the digit `c`.
fn char_digit_value(c: char) -> (d: usize)
    requires
        is_digit(c),
    ensures
        d == digit_val(c),
        d < 10,
{
    match c {
        '0' => 0,
        '1' => 1,
        '2' => 2,
        '3' => 3,
        '4' => 4,
        '5' => 5,
        '6' => 6,
        '7' => 7,
        '8' => 8,
        _ => 9,
    }
}

/// When a field encoding starts at position `i` of `s` and the characters
/// at `i..j` are digits, that run lies within the encoding's length prefix,
/// and its value is bounded by the encoded field's length.
proof fn lemma_run_in_prefix(s: Seq<char>, i: int, j: int, x: Seq<char>)
    requires
        0 <= i <= j <= s.len(),
        enc_str(x).is_prefix_of(s.skip(i)),
        forall|t: int| i <= t < j ==> is_digit(#[trigger] s[t]),
    ensures
        j - i <= spec_digits(x.len()).len(),
        s.subrange(i, j) == spec_digits(x.len()).take(j - i),
        seq_val(s.subrange(i, j)) <= x.len(),
        i + spec_digits(x.len()).len() + 1 + x.len() <= s.len(),
        s[i + spec_digits(x.len()).len()] == ':',
        j - i < spec_digits(x.len()).len() ==> j < s.len() && is_digit(s[j]),
        j - i == spec_digits(x.len()).len() ==> seq_val(s.subrange(i, j)) == x.len(),
{
    let d = spec_digits(x.len());
    let tail = s.skip(i);
    let e = enc_str(x);
    lemma_digits_shape(x.len());
    lemma_digits_val(x.len());
    assert(e.len() == d.len() + 1 + x.len());
    assert(e =~= tail.subrange(0, e.len() as int));
    assert(forall|t: int| 0 <= t < e.len() ==> e[t] == tail[t]);
    assert(forall|t: int| 0 <= t < tail.len() ==> tail[t] == s[i + t]);
    assert(forall|t: int| 0 <= t < d.len() ==> e[t] == d[t]);
    assert(e[d.len() as int] == ':');
    assert(s[i + d.len()] == ':');
    if j - i > d.len() {
        assert(is_digit(s[i + d.len()]));
        assert(false);
    }
    assert(s.subrange(i, j) =~= d.take(j - i)) by {
        assert(forall|t: int| 0 <= t < j - i ==> s.subrange(i, j)[t] == s[i + t]);
        assert(forall|t: int| 0 <= t < j - i ==> s[i + t] == e[t] && e[t] == d[t]);
    };
    lemma_prefix_val_le(d, j - i);
    if j - i < d.len() {
        assert(is_digit(d[j - i]));
        assert(s[j] == d[j - i]);
    }
    if j - i == d.len() {
        assert(d.take(j - i) =~= d);
    }
}

/// Reads one length-prefixed field starting at position `i` of `s`.
///
/// `Some((t, j))` means the characters `i..j` are exactly the encoding of
/// `t`; `None` means no field encoding starts at `i` at all.
fn parse_field(s: &Vec<char>, i: usize) -> (r: Option<(String, usize)>)
    requires
        i <= s@.len(),
    ensures
        match r {
            Some(p) => i < p.1 <= s@.len() && s@.subrange(i as int, p.1 as int) == enc_str(p.0@),
            None => forall|x: Seq<char>|
                #![trigger enc_str(x)]
                !enc_str(x).is_prefix_of(s@.skip(i as int)),
        },
{
    let n = s.len();
    let mut j = i;
    let mut acc: usize = 0;
    assert(s@.subrange(i as int, i as int) =~= Seq::<char>::empty());
    while j < n && char_is_digit(s[j])
        invariant
            i <= j <= n,
            n == s@.len(),
            forall|t: int| i <= t < j ==> is_digit(#[trigger] s@[t]),
            acc == seq_val(s@.subrange(i as int, j as int)),
            acc <= n,
        decreases n - j,
    {
        let d = char_digit_value(s[j]);
        proof {
            lemma_fundamental_div_mod(n as int, 10);
        }
        if acc > n / 10 {
            proof {
                assert forall|x: Seq<char>|
                    #![trigger enc_str(x)]
                    !enc_str(x).is_prefix_of(s@.skip(i as int)) by {
                    if enc_str(x).is_prefix_of(s@.skip(i as int)) {
                        lemma_run_in_prefix(s@, i as int, j + 1, x);
                        assert(s@.subrange(i as int, j + 1).drop_last() =~= s@.subrange(
                            i as int,
                            j as int,
                        ));
                        assert(s@.subrange(i as int, j + 1).last() == s@[j as int]);
                        assert(seq_val(s@.subrange(i as int, j + 1)) == acc * 10 + d);
                        assert(false);
                    }
                };
            }
            return None;
        }
        let acc2 = acc * 10;
        if d > n || acc2 > n - d {
            proof {
                assert forall|x: Seq<char>|
                    #![trigger enc_str(x)]
                    !enc_str(x).is_prefix_of(s@.skip(i as int)) by {
                    if enc_str(x).is_prefix_of(s@.skip(i as int)) {
                        lemma_run_in_prefix(s@, i as int, j + 1, x);
                        assert(s@.subrange(i as int, j + 1).drop_last() =~= s@.subrange(
                            i as int,
                            j as int,
                        ));
                        assert(s@.subrange(i as int, j + 1).last() == s@[j as int]);
                        assert(seq_val(s@.subrange(i as int, j + 1)) == acc * 10 + d);
                        assert(false);
                    }
                };
            }
            return None;
        }
        proof {
            assert(s@.subrange(i as int, j + 1).drop_last() =~= s@.subrange(i as int, j as int));
            assert(s@.subrange(i as int, j + 1).last() == s@[j as int]);
        }
        acc = acc2 + d;
        j += 1;
    }
    if j == i || j == n {
        proof {
            assert forall|x: Seq<char>|
                #![trigger enc_str(x)]
                !enc_str(x).is_prefix_of(s@.skip(i as int)) by {
                if enc_str(x).is_prefix_of(s@.skip(i as int)) {
                    lemma_run_in_prefix(s@, i as int, j as int, x);
                    lemma_digits_shape(x.len());
                    if j - i < spec_digits(x.len()).len() {
                        assert(j < n && is_digit(s@[j as int]));
                        assert(false);
                    }
                    assert(i + spec_digits(x.len()).len() < n);
                    assert(false);
                }
            };
        }
        return None;
    }
    if s[j] != ':' {
        proof {
            assert forall|x: Seq<char>|
                #![trigger enc_str(x)]
                !enc_str(x).is_prefix_of(s@.skip(i as int)) by {
                if enc_str(x).is_prefix_of(s@.skip(i as int)) {
                    lemma_run_in_prefix(s@, i as int, j as int, x);
                    if j - i < spec_digits(x.len()).len() {
                        assert(is_digit(s@[j as int]));
                        assert(false);
                    }
                    assert(s@[i + spec_digits(x.len()).len()] == ':');
                    assert(false);
                }
            };
        }
        return None;
    }
    if s[i] == '0' && j > i + 1 {
        proof {
            assert forall|x: Seq<char>|
                #![trigger enc_str(x)]
                !enc_str(x).is_prefix_of(s@.skip(i as int)) by {
                if enc_str(x).is_prefix_of(s@.skip(i as int)) {
                    lemma_run_in_prefix(s@, i as int, j as int, x);
                    lemma_digits_shape(x.len());
                    if j - i < spec_digits(x.len()).len() {
                        assert(is_digit(s@[j as int]));
                        assert(false);
                    }
                    assert(s@.subrange(i as int, j as int) == spec_digits(x.len()).take(j - i));
                    assert(spec_digits(x.len()).take(j - i) =~= spec_digits(x.len()));
                    assert(spec_digits(x.len())[0] == s@[i as int]);
                    assert(false);
                }
            };
        }
        return None;
    }
    let body_start = j + 1;
    if acc > n - body_start {
        proof {
            assert forall|x: Seq<char>|
                #![trigger enc_str(x)]
                !enc_str(x).is_prefix_of(s@.skip(i as int)) by {
                if enc_str(x).is_prefix_of(s@.skip(i as int)) {
                    lemma_run_in_prefix(s@, i as int, j as int, x);
                    if j - i < spec_digits(x.len()).len() {
                        assert(is_digit(s@[j as int]));
                        assert(false);
                    }
                    assert(acc == x.len());
                    assert(i + spec_digits(x.len()).len() + 1 + x.len() <= n);
                    assert(false);
                }
            };
        }
        return None;
    }
    let end = body_start + acc;
    let mut t = String::new();
    let mut k = body_start;
    assert(s@.subrange(body_start as int, body_start as int) =~= Seq::<char>::empty());
    while k < end
        invariant
            body_start <= k <= end,
            end <= n,
            n == s@.len(),
            t@ == s@.subrange(body_start as int, k as int),
        decreases end - k,
    {
        t.push(s[k]);
        proof {
            assert(s@.subrange(body_start as int, k + 1) =~= s@.subrange(
                body_start as int,
                k as int,
            ).push(s@[k as int]));
        }
        k += 1;
    }
    proof {
        let run = s@.subrange(i as int, j as int);
        assert(run[0] == s@[i as int]);
        lemma_canonical(run);
        assert(run == spec_digits(acc as nat));
        assert(t@.len() == acc);
        assert(s@.subrange(i as int, end as int) =~= run + seq![':'] + t@) by {
            assert(forall|u: int|
                0 <= u < end - i ==> s@.subrange(i as int, end as int)[u] == s@[i + u]);
            assert(forall|u: int| 0 <= u < j - i ==> run[u] == s@[i + u]);
            assert(forall|u: int| 0 <= u < acc ==> t@[u] == s@[body_start + u]);
        };
        assert(s@.subrange(i as int, end as int) == enc_str(t@));
    }
    Some((t, end))
}

/// Decodes a session slot back into the messages it holds.
///
/// `Some` returns the unique message sequence whose encoding the slot
/// holds; `None` says the slot holds no encoding at all.
pub fn decode_messages(s: &Vec<char>) -> (r: Option<Vec<Message>>)
    ensures
        match r {
            Some(v) => s@ == enc_msgs(msg_views(v@)) && spec_decode(s@) == Some(msg_views(v@)),
            None => spec_decode(s@) is None,
        },
{
    let n = s.len();
    let mut out: Vec<Message> = Vec::new();
    assert(msg_views(out@) =~= Seq::<MessageView>::empty());
    assert(s@.subrange(0, 0) =~= Seq::<char>::empty());
    let mut i: usize = 0;
    while i < n
        invariant
            i <= n,
            n == s@.len(),
            s@.subrange(0, i as int) == enc_msgs(msg_views(out@)),
        decreases n - i,
    {
        let ghost pre = msg_views(out@);
        let first = parse_field(s, i);
        match first {
            None => {
                proof {
                    no_encoding_from_failed_field(s@, pre, i as int);
                }
                return None;
            },
            Some(lp) => {
                let (level, j) = lp;
                let second = parse_field(s, j);
                match second {
                    None => {
                        proof {
                            no_encoding_from_failed_second_field(s@, pre, i as int, j as int, level@);
                        }
                        return None;
                    },
                    Some(tp) => {
                        let (text, j2) = tp;
                        let ghost lv = level@;
                        let ghost tv = text@;
                        out.push(Message { level, text });
                        proof {
                            let mv = MessageView { level: lv, text: tv };
                            lemma_enc_msgs_push(pre, mv);
                            assert(msg_views(out@) =~= pre.push(mv));
                            assert(s@.subrange(0, j2 as int) =~= s@.subrange(0, i as int)
                                + s@.subrange(i as int, j as int) + s@.subrange(
                                j as int,
                                j2 as int,
                            ));
                            assert(enc_msg(mv) =~= enc_str(lv) + enc_str(tv));
                            assert(s@.subrange(0, j2 as int) =~= enc_msgs(pre) + enc_msg(mv));
                            assert(s@.subrange(0, j2 as int) == enc_msgs(msg_views(out@)));
                        }
                        i = j2;
                    },
                }
            },
        }
    }
    proof {
        assert(s@.subrange(0, n as int) =~= s@);
        lemma_decode_encode(msg_views(out@));
    }
    Some(out)
}

/// No full encoding can continue at a position where no field encoding
/// starts: the string then encodes no message sequence at all.
proof fn no_encoding_from_failed_field(s: Seq<char>, pre: Seq<MessageView>, i: int)
    requires
        0 <= i < s.len(),
        s.subrange(0, i) == enc_msgs(pre),
        forall|x: Seq<char>| #![trigger enc_str(x)] !enc_str(x).is_prefix_of(s.skip(i)),
    ensures
        spec_decode(s) is None,
{
    assert forall|ms: Seq<MessageView>| s != enc_msgs(ms) by {
        if s == enc_msgs(ms) {
            assert(s =~= s.subrange(0, i) + s.skip(i));
            lemma_enc_msgs_prefix(ms, pre, s.skip(i));
            let suf = choose|suf: Seq<MessageView>| ms == pre + suf && s.skip(i) == enc_msgs(suf);
            lemma_enc_msgs_len(suf);
            assert(s.skip(i).len() > 0);
            assert(suf.len() > 0);
            let m0 = suf.first();
            assert(enc_msgs(suf) =~= enc_str(m0.level) + (enc_str(m0.text) + enc_msgs(
            suf.drop_first())));
            assert(enc_str(m0.level) =~= s.skip(i).subrange(0, enc_str(m0.level).len() as int));
            assert(enc_str(m0.level).is_prefix_of(s.skip(i)));
            assert(false);
        }
    };
}

/// No full encoding survives a first field after which no second field
/// encoding starts: the string then encodes no message sequence at all.
proof fn no_encoding_from_failed_second_field(
    s: Seq<char>,
    pre: Seq<MessageView>,
    i: int,
    j: int,
    level: Seq<char>,
)
    requires
        0 <= i < j <= s.len(),
        s.subrange(0, i) == enc_msgs(pre),
        s.subrange(i, j) == enc_str(level),
        forall|x: Seq<char>| #![trigger enc_str(x)] !enc_str(x).is_prefix_of(s.skip(j)),
    ensures
        spec_decode(s) is None,
{
    assert forall|ms: Seq<MessageView>| s != enc_msgs(ms) by {
        if s == enc_msgs(ms) {
            assert(s =~= s.subrange(0, i) + s.skip(i));
            lemma_enc_msgs_prefix(ms, pre, s.skip(i));
            let suf = choose|suf: Seq<MessageView>| ms == pre + suf && s.skip(i) == enc_msgs(suf);
            lemma_enc_msgs_len(suf);
            assert(s.skip(i).len() > 0);
            assert(suf.len() > 0);
            let m0 = suf.first();
            let rest0 = enc_str(m0.text) + enc_msgs(suf.drop_first());
            assert(enc_msgs(suf) =~= enc_str(m0.level) + rest0);
            assert(s.skip(i) =~= s.subrange(i, j) + s.skip(j));
            assert(enc_str(m0.level) + rest0 == enc_str(level) + s.skip(j));
            lemma_enc_str_deterministic(m0.level, rest0, level, s.skip(j));
            assert(enc_str(m0.text) =~= s.skip(j).subrange(0, enc_str(m0.text).len() as int));
            assert(enc_str(m0.text).is_prefix_of(s.skip(j)));
            assert(false);
        }
    };
}

} // verus!
