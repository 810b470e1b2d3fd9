use vstd::prelude::*;

use crate::buffer::{buffer_bytes, bytes_of, empty_buffer, push_ascii, Buffer, MAX_ENCODE_SIZE};
use crate::decimal::{
    all_digits, canonical, digits, is_digit, lemma_digits_canonical, lemma_digits_len,
    lemma_digits_of_value, lemma_value_of_digits, pow10, push_decimal, value,
};
use crate::message::{Body, Message, Mode};

verus! {

const ZERO_BYTE: u8 = 48;

const NINE_BYTE: u8 = 57;

/// The encoded form of a message does not fit in a buffer.
#[derive(PartialEq, Eq, Structural, Debug, Clone, Copy)]
pub enum EncodeError {
    CapacityExceeded,
}

/// Why a text or a received packet is not a message.
#[derive(PartialEq, Eq, Structural, Debug, Clone, Copy)]
pub enum DecodeError {
    /// No message encoding starts the text.
    Malformed,
    /// The radio reported more bytes than it handed over.
    ShortPacket,
    /// The packet holds more bytes than a buffer can.
    Oversized,
    /// The packet holds a byte outside ASCII.
    NotAscii,
}

/// `{"header":{"id":`
pub open spec fn head_text() -> Seq<u8> {
    seq![123u8, 34, 104, 101, 97, 100, 101, 114, 34, 58, 123, 34, 105, 100, 34, 58]
}

/// `,"version":`
pub open spec fn version_text() -> Seq<u8> {
    seq![44u8, 34, 118, 101, 114, 115, 105, 111, 110, 34, 58]
}

/// `},"body":`
pub open spec fn body_field_text() -> Seq<u8> {
    seq![125u8, 44, 34, 98, 111, 100, 121, 34, 58]
}

/// `}`
pub open spec fn close_text() -> Seq<u8> {
    seq![125u8]
}

/// `{"Gas":`
pub open spec fn gas_text() -> Seq<u8> {
    seq![123u8, 34, 71, 97, 115, 34, 58]
}

/// `{"Rotation":`
pub open spec fn rotation_text() -> Seq<u8> {
    seq![123u8, 34, 82, 111, 116, 97, 116, 105, 111, 110, 34, 58]
}

/// `{"Mode":`
pub open spec fn mode_field_text() -> Seq<u8> {
    seq![123u8, 34, 77, 111, 100, 101, 34, 58]
}

/// `"Heartbeat"`
pub open spec fn heartbeat_text() -> Seq<u8> {
    seq![34u8, 72, 101, 97, 114, 116, 98, 101, 97, 116, 34]
}

/// `"Off"`, `"Manual"` or `"Rth"`.
pub open spec fn mode_text(m: Mode) -> Seq<u8> {
    match m {
        Mode::Off => seq![34u8, 79, 102, 102, 34],
        Mode::Manual => seq![34u8, 77, 97, 110, 117, 97, 108, 34],
        Mode::Rth => seq![34u8, 82, 116, 104, 34],
    }
}

/// The text that opens the encoding of a body, naming its variant.
pub open spec fn body_tag(b: Body) -> Seq<u8> {
    match b {
        Body::Gas(_) => gas_text(),
        Body::Rotation(_) => rotation_text(),
        Body::Mode(_) => mode_field_text(),
        Body::Heartbeat => heartbeat_text(),
    }
}

/// The text that follows the tag of a body.
pub open spec fn body_rest(b: Body) -> Seq<u8> {
    match b {
        Body::Gas(v) => digits(v as nat) + close_text(),
        Body::Rotation(v) => digits(v as nat) + close_text(),
        Body::Mode(m) => mode_text(m) + close_text(),
        Body::Heartbeat => Seq::<u8>::empty(),
    }
}

/// A body as JSON: a unit variant is its quoted name, any other variant an
/// object with one field named after it.
pub open spec fn body_text(b: Body) -> Seq<u8> {
    body_tag(b) + body_rest(b)
}

/// A message as compact JSON:
/// `{"header":{"id":<id>,"version":<version>},"body":<body>}`.
pub open spec fn encoding(m: Message) -> Seq<u8> {
    head_text() + (digits(m.header.id as nat) + (version_text() + (digits(
        m.header.version as nat,
    ) + (body_field_text() + (body_text(m.body) + close_text())))))
}

/// `t` stands in `s` from position `p` on.
pub open spec fn at(s: Seq<u8>, p: int, t: Seq<u8>) -> bool {
    0 <= p && p + t.len() <= s.len() && s.subrange(p, p + t.len()) == t
}

/// The decimal text of `v` stands in `s` from `p` on, and no digit follows it.
pub open spec fn number_at(s: Seq<u8>, p: int, v: nat) -> bool {
    let e = p + digits(v).len();
    at(s, p, digits(v)) && (e == s.len() || !is_digit(s[e]))
}

/// `s` starts with the encoding of `m`.
pub open spec fn starts_with_message(s: Seq<u8>, m: Message) -> bool {
    at(s, 0, encoding(m))
}

/// What decoding `s` gives: the message whose encoding starts `s`, with the
/// length of that encoding, if there is one.
pub open spec fn decoded(s: Seq<u8>) -> Option<(Message, nat)> {
    if exists|m: Message| starts_with_message(s, m) {
        let m = choose|m: Message| starts_with_message(s, m);
        Some((m, encoding(m).len()))
    } else {
        None
    }
}

pub open spec fn is_ascii(s: Seq<u8>) -> bool {
    forall|i: int| 0 <= i < s.len() ==> #[trigger] s[i] < 128
}

pub proof fn lemma_at_concat(s: Seq<u8>, p: int, a: Seq<u8>, b: Seq<u8>)
    ensures
        at(s, p, a + b) <==> (at(s, p, a) && at(s, p + a.len(), b)),
{
    if at(s, p, a) && at(s, p + a.len(), b) {
        assert(s.subrange(p, p + (a + b).len()) =~= a + b) by {
            assert forall|i: int| 0 <= i < (a + b).len() implies s.subrange(
                p,
                p + (a + b).len(),
            )[i] == (a + b)[i] by {
                if i < a.len() {
                    assert(s.subrange(p, p + a.len())[i] == a[i]);
                } else {
                    assert(s.subrange(p + a.len(), p + a.len() + b.len())[i - a.len()] == b[i
                        - a.len()]);
                }
            }
        }
    }
    if at(s, p, a + b) {
        assert(s.subrange(p, p + a.len()) =~= a) by {
            assert forall|i: int| 0 <= i < a.len() implies s.subrange(p, p + a.len())[i]
                == a[i] by {
                assert(s.subrange(p, p + (a + b).len())[i] == (a + b)[i]);
            }
        }
        assert(s.subrange(p + a.len(), p + a.len() + b.len()) =~= b) by {
            assert forall|i: int| 0 <= i < b.len() implies s.subrange(
                p + a.len(),
                p + a.len() + b.len(),
            )[i] == b[i] by {
                assert(s.subrange(p, p + (a + b).len())[a.len() + i] == (a + b)[a.len() + i]);
            }
        }
    }
}

proof fn lemma_at_index(s: Seq<u8>, p: int, t: Seq<u8>, i: int)
    requires
        at(s, p, t),
        0 <= i < t.len(),
    ensures
        s[p + i] == t[i],
{
    assert(s.subrange(p, p + t.len())[i] == t[i]);
}

proof fn lemma_value_prefix(d: Seq<u8>, k: int)
    requires
        0 <= k <= d.len(),
        all_digits(d),
    ensures
        value(d.take(k)) <= value(d),
    decreases d.len(),
{
    if k < d.len() {
        let p = d.drop_last();
        assert(all_digits(p)) by {
            assert forall|i: int| 0 <= i < p.len() implies is_digit(#[trigger] p[i]) by {
                assert(p[i] == d[i]);
            }
        }
        lemma_value_prefix(p, k);
        assert(p.take(k) =~= d.take(k));
    } else {
        assert(d.take(k) =~= d);
    }
}

/// A run of digits from `p` to `i`, against the decimal text of `v` there.
proof fn lemma_run(s: Seq<u8>, p: int, i: int, v: nat)
    requires
        0 <= p <= i <= s.len(),
        all_digits(s.subrange(p, i)),
        number_at(s, p, v),
    ensures
        i - p <= digits(v).len(),
        s.subrange(p, i) == digits(v).take(i - p),
        (i == s.len() || !is_digit(s[i])) ==> s.subrange(p, i) == digits(v),
{
    let d = digits(v);
    lemma_digits_canonical(v);
    if i - p > d.len() {
        assert(s.subrange(p, i)[d.len() as int] == s[p + d.len()]);
    }
    assert(s.subrange(p, i) =~= d.take(i - p)) by {
        assert forall|j: int| 0 <= j < i - p implies s.subrange(p, i)[j] == d.take(i - p)[j] by {
            lemma_at_index(s, p, d, j);
        }
    }
    if (i == s.len() || !is_digit(s[i])) && i - p < d.len() {
        lemma_at_index(s, p, d, i - p);
        assert(is_digit(d[i - p]));
    }
    if i - p == d.len() {
        assert(d.take(i - p) =~= d);
    }
}

pub proof fn lemma_number_unique(s: Seq<u8>, p: int, a: nat, b: nat)
    requires
        number_at(s, p, a),
        number_at(s, p, b),
    ensures
        a == b,
{
    let i = p + digits(a).len();
    lemma_digits_canonical(a);
    assert(s.subrange(p, i) == digits(a));
    lemma_run(s, p, i, b);
    lemma_value_of_digits(a);
    lemma_value_of_digits(b);
}


/// Whether `t` stands in `s` from position `p` on.
fn matches_at(s: &[u8], p: usize, t: &Vec<u8>) -> (r: bool)
    ensures
        r == at(s@, p as int, t@),
{
    if p > s.len() || t.len() > s.len() - p {
        return false;
    }
    let n: usize = s.len();
    let mut j: usize = 0;
    while j < t.len()
        invariant
            n == s@.len(),
            p + t@.len() <= s@.len(),
            j <= t@.len(),
            forall|k: int| 0 <= k < j ==> s@[p + k] == t@[k],
        decreases t@.len() - j,
    {
        if s[p + j] != t[j] {
            proof {
                if at(s@, p as int, t@) {
                    lemma_at_index(s@, p as int, t@, j as int);
                }
            }
            return false;
        }
        j += 1;
    }
    assert(s@.subrange(p as int, p + t@.len()) =~= t@);
    true
}

/// Reads the canonical decimal number at most `max` that starts at `p`.
fn parse_number(s: &[u8], p: usize, max: u32) -> (r: Option<(u32, usize)>)
    requires
        p <= s@.len(),
    ensures
        r matches Some((v, e)) ==> v <= max && number_at(s@, p as int, v as nat) && e == p
            + digits(v as nat).len(),
        r is None ==> forall|v: nat| v <= max ==> !number_at(s@, p as int, v),
{
    let mut i: usize = p;
    let mut acc: u64 = 0;
    while i < s.len() && ZERO_BYTE <= s[i] && s[i] <= NINE_BYTE
        invariant
            p <= i <= s@.len(),
            all_digits(s@.subrange(p as int, i as int)),
            acc == value(s@.subrange(p as int, i as int)),
            acc <= max,
        decreases s@.len() - i,
    {
        let ghost before = s@.subrange(p as int, i as int);
        acc = acc * 10 + (s[i] - ZERO_BYTE) as u64;
        i += 1;
        proof {
            let now = s@.subrange(p as int, i as int);
            assert(now.drop_last() =~= before);
            assert(all_digits(now)) by {
                assert forall|k: int| 0 <= k < now.len() implies is_digit(#[trigger] now[k]) by {
                    if k < before.len() {
                        assert(now[k] == before[k]);
                    }
                }
            }
        }
        if acc > max as u64 {
            proof {
                assert forall|v: nat| v <= max implies !number_at(s@, p as int, v) by {
                    if number_at(s@, p as int, v) {
                        lemma_run(s@, p as int, i as int, v);
                        lemma_digits_canonical(v);
                        lemma_value_prefix(digits(v), i - p);
                        lemma_value_of_digits(v);
                    }
                }
            }
            return None;
        }
    }
    let ghost run = s@.subrange(p as int, i as int);
    if i == p || (i - p > 1 && s[p] == ZERO_BYTE) {
        proof {
            assert forall|v: nat| v <= max implies !number_at(s@, p as int, v) by {
                if number_at(s@, p as int, v) {
                    lemma_run(s@, p as int, i as int, v);
                    lemma_digits_canonical(v);
                    if i == p {
                        lemma_at_index(s@, p as int, digits(v), 0);
                    } else {
                        assert(run[0] == s@[p as int]);
                    }
                }
            }
        }
        return None;
    }
    proof {
        assert(run[0] == s@[p as int]);
        assert(canonical(run));
        lemma_digits_of_value(run);
        assert(s@.subrange(p as int, p + digits(acc as nat).len()) == digits(acc as nat));
    }
    Some((acc as u32, i))
}


fn head_bytes() -> (r: Vec<u8>)
    ensures
        r@ == head_text(),
{
    vec![123u8, 34, 104, 101, 97, 100, 101, 114, 34, 58, 123, 34, 105, 100, 34, 58]
}

fn version_bytes() -> (r: Vec<u8>)
    ensures
        r@ == version_text(),
{
    vec![44u8, 34, 118, 101, 114, 115, 105, 111, 110, 34, 58]
}

fn body_field_bytes() -> (r: Vec<u8>)
    ensures
        r@ == body_field_text(),
{
    vec![125u8, 44, 34, 98, 111, 100, 121, 34, 58]
}

fn close_bytes() -> (r: Vec<u8>)
    ensures
        r@ == close_text(),
{
    vec![125u8]
}

fn tag_bytes(b: Body) -> (r: Vec<u8>)
    ensures
        r@ == body_tag(b),
{
    match b {
        Body::Gas(_) => vec![123u8, 34, 71, 97, 115, 34, 58],
        Body::Rotation(_) => vec![123u8, 34, 82, 111, 116, 97, 116, 105, 111, 110, 34, 58],
        Body::Mode(_) => vec![123u8, 34, 77, 111, 100, 101, 34, 58],
        Body::Heartbeat => vec![34u8, 72, 101, 97, 114, 116, 98, 101, 97, 116, 34],
    }
}

fn mode_bytes(m: Mode) -> (r: Vec<u8>)
    ensures
        r@ == mode_text(m),
{
    match m {
        Mode::Off => vec![34u8, 79, 102, 102, 34],
        Mode::Manual => vec![34u8, 77, 97, 110, 117, 97, 108, 34],
        Mode::Rth => vec![34u8, 82, 116, 104, 34],
    }
}

/// Which variant a body is.
pub open spec fn variant(b: Body) -> int {
    match b {
        Body::Gas(_) => 0,
        Body::Rotation(_) => 1,
        Body::Mode(_) => 2,
        Body::Heartbeat => 3,
    }
}

proof fn lemma_tags_distinct(s: Seq<u8>, p: int, a: Body, b: Body)
    requires
        at(s, p, body_tag(a)),
        at(s, p, body_tag(b)),
    ensures
        variant(a) == variant(b),
{
    lemma_at_index(s, p, body_tag(a), 0);
    lemma_at_index(s, p, body_tag(b), 0);
    if !(a is Heartbeat) && !(b is Heartbeat) {
        lemma_at_index(s, p, body_tag(a), 2);
        lemma_at_index(s, p, body_tag(b), 2);
    }
}

proof fn lemma_modes_distinct(s: Seq<u8>, p: int, a: Mode, b: Mode)
    requires
        at(s, p, mode_text(a)),
        at(s, p, mode_text(b)),
    ensures
        a == b,
{
    lemma_at_index(s, p, mode_text(a), 1);
    lemma_at_index(s, p, mode_text(b), 1);
}

proof fn lemma_number_then_close(s: Seq<u8>, p: int, v: nat)
    requires
        at(s, p, digits(v) + close_text()),
    ensures
        number_at(s, p, v),
{
    lemma_at_concat(s, p, digits(v), close_text());
    lemma_at_index(s, p + digits(v).len(), close_text(), 0);
}

pub proof fn lemma_body_unique(s: Seq<u8>, p: int, a: Body, b: Body)
    requires
        at(s, p, body_text(a)),
        at(s, p, body_text(b)),
    ensures
        a == b,
{
    lemma_at_concat(s, p, body_tag(a), body_rest(a));
    lemma_at_concat(s, p, body_tag(b), body_rest(b));
    lemma_tags_distinct(s, p, a, b);
    let q = p + body_tag(a).len();
    match a {
        Body::Gas(x) => {
            let y = b->Gas_0;
            lemma_number_then_close(s, q, x as nat);
            lemma_number_then_close(s, q, y as nat);
            lemma_number_unique(s, q, x as nat, y as nat);
        },
        Body::Rotation(x) => {
            let y = b->Rotation_0;
            lemma_number_then_close(s, q, x as nat);
            lemma_number_then_close(s, q, y as nat);
            lemma_number_unique(s, q, x as nat, y as nat);
        },
        Body::Mode(x) => {
            let y = b->Mode_0;
            lemma_at_concat(s, q, mode_text(x), close_text());
            lemma_at_concat(s, q, mode_text(y), close_text());
            lemma_modes_distinct(s, q, x, y);
        },
        Body::Heartbeat => {},
    }
}

fn parse_mode(s: &[u8], p: usize) -> (r: Option<Mode>)
    ensures
        r matches Some(m) ==> at(s@, p as int, mode_text(m)),
        r is None ==> forall|m: Mode| !at(s@, p as int, #[trigger] mode_text(m)),
{
    if matches_at(s, p, &mode_bytes(Mode::Off)) {
        Some(Mode::Off)
    } else if matches_at(s, p, &mode_bytes(Mode::Manual)) {
        Some(Mode::Manual)
    } else if matches_at(s, p, &mode_bytes(Mode::Rth)) {
        Some(Mode::Rth)
    } else {
        proof {
            assert forall|m: Mode| !at(s@, p as int, #[trigger] mode_text(m)) by {
                match m {
                    Mode::Off => {},
                    Mode::Manual => {},
                    Mode::Rth => {},
                }
            }
        }
        None
    }
}

/// Reads a level from 0 to 255 and the closing brace after it.
fn parse_level(s: &[u8], p: usize) -> (r: Option<(u8, usize)>)
    requires
        p <= s@.len(),
    ensures
        r matches Some((v, e)) ==> at(s@, p as int, digits(v as nat) + close_text()) && e == p
            + digits(v as nat).len() + 1,
        r is None ==> forall|v: u8| !at(s@, p as int, #[trigger] digits(v as nat) + close_text()),
{
    match parse_number(s, p, 255) {
        Some((v, e)) => {
            if matches_at(s, e, &close_bytes()) {
                let n: usize = s.len();
                assert(e + 1 <= n);
                proof {
                    lemma_at_concat(s@, p as int, digits(v as nat), close_text());
                }
                Some((v as u8, e + 1))
            } else {
                proof {
                    assert forall|w: u8| !at(s@, p as int, #[trigger] digits(w as nat) + close_text()) by {
                        if at(s@, p as int, digits(w as nat) + close_text()) {
                            lemma_number_then_close(s@, p as int, w as nat);
                            lemma_number_unique(s@, p as int, v as nat, w as nat);
                            lemma_at_concat(s@, p as int, digits(w as nat), close_text());
                        }
                    }
                }
                None
            }
        },
        None => {
            proof {
                assert forall|w: u8| !at(s@, p as int, #[trigger] digits(w as nat) + close_text()) by {
                    if at(s@, p as int, digits(w as nat) + close_text()) {
                        lemma_number_then_close(s@, p as int, w as nat);
                    }
                }
            }
            None
        },
    }
}


fn parse_body(s: &[u8], p: usize) -> (r: Option<(Body, usize)>)
    requires
        p <= s@.len(),
    ensures
        r matches Some((b, e)) ==> at(s@, p as int, body_text(b)) && e == p + body_text(b).len(),
        r is None ==> forall|b: Body| !at(s@, p as int, #[trigger] body_text(b)),
{
    let n: usize = s.len();
    let mut found: Option<(Body, usize)> = None;
    if matches_at(s, p, &tag_bytes(Body::Heartbeat)) {
        assert(body_text(Body::Heartbeat) =~= heartbeat_text());
        found = Some((Body::Heartbeat, p + 11));
    } else if matches_at(s, p, &tag_bytes(Body::Gas(0))) {
        if let Some((v, e)) = parse_level(s, p + 7) {
            proof {
                lemma_at_concat(s@, p as int, gas_text(), digits(v as nat) + close_text());
            }
            found = Some((Body::Gas(v), e));
        }
    } else if matches_at(s, p, &tag_bytes(Body::Rotation(0))) {
        if let Some((v, e)) = parse_level(s, p + 12) {
            proof {
                lemma_at_concat(s@, p as int, rotation_text(), digits(v as nat) + close_text());
            }
            found = Some((Body::Rotation(v), e));
        }
    } else if matches_at(s, p, &tag_bytes(Body::Mode(Mode::Off))) {
        if let Some(m) = parse_mode(s, p + 8) {
            let q = p + 8 + mode_bytes(m).len();
            if matches_at(s, q, &close_bytes()) {
                assert(q + 1 <= n);
                proof {
                    lemma_at_concat(s@, p + 8, mode_text(m), close_text());
                    lemma_at_concat(s@, p as int, mode_field_text(), mode_text(m) + close_text());
                }
                found = Some((Body::Mode(m), q + 1));
            }
        }
    }
    proof {
        if found is None {
            assert forall|b: Body| !at(s@, p as int, #[trigger] body_text(b)) by {
                if at(s@, p as int, body_text(b)) {
                    lemma_at_concat(s@, p as int, body_tag(b), body_rest(b));
                    let q = p + body_tag(b).len();
                    match b {
                        Body::Gas(v) => {
                            lemma_tags_distinct(s@, p as int, b, Body::Heartbeat);
                            assert(!at(s@, q, digits(v as nat) + close_text()));
                        },
                        Body::Rotation(v) => {
                            if at(s@, p as int, heartbeat_text()) {
                                lemma_tags_distinct(s@, p as int, b, Body::Heartbeat);
                            }
                            if at(s@, p as int, gas_text()) {
                                lemma_tags_distinct(s@, p as int, b, Body::Gas(0));
                            }
                            assert(!at(s@, q, digits(v as nat) + close_text()));
                        },
                        Body::Mode(m) => {
                            if at(s@, p as int, heartbeat_text()) {
                                lemma_tags_distinct(s@, p as int, b, Body::Heartbeat);
                            }
                            if at(s@, p as int, gas_text()) {
                                lemma_tags_distinct(s@, p as int, b, Body::Gas(0));
                            }
                            if at(s@, p as int, rotation_text()) {
                                lemma_tags_distinct(s@, p as int, b, Body::Rotation(0));
                            }
                            lemma_at_concat(s@, q, mode_text(m), close_text());
                        },
                        Body::Heartbeat => {},
                    }
                }
            }
        }
    }
    found
}


/// The pieces of the encoding of `m`, each where it stands in `s`.
pub open spec fn message_parts(s: Seq<u8>, m: Message) -> bool {
    let p1: int = 16;
    let p2 = p1 + digits(m.header.id as nat).len();
    let p3 = p2 + 11;
    let p4 = p3 + digits(m.header.version as nat).len();
    let p5 = p4 + 9;
    let p6 = p5 + body_text(m.body).len();
    &&& at(s, 0, head_text())
    &&& number_at(s, p1, m.header.id as nat)
    &&& at(s, p2, version_text())
    &&& number_at(s, p3, m.header.version as nat)
    &&& at(s, p4, body_field_text())
    &&& at(s, p5, body_text(m.body))
    &&& at(s, p6, close_text())
}

proof fn lemma_message_parts(s: Seq<u8>, m: Message)
    ensures
        starts_with_message(s, m) <==> message_parts(s, m),
{
    let d1 = digits(m.header.id as nat);
    let d2 = digits(m.header.version as nat);
    let bt = body_text(m.body);
    let p1: int = 16;
    let p2 = p1 + d1.len();
    let p3 = p2 + 11;
    let p4 = p3 + d2.len();
    let p5 = p4 + 9;
    let p6 = p5 + bt.len();
    let t6 = bt + close_text();
    let t5 = body_field_text() + t6;
    let t4 = d2 + t5;
    let t3 = version_text() + t4;
    let t2 = d1 + t3;
    lemma_at_concat(s, 0, head_text(), t2);
    lemma_at_concat(s, p1, d1, t3);
    lemma_at_concat(s, p2, version_text(), t4);
    lemma_at_concat(s, p3, d2, t5);
    lemma_at_concat(s, p4, body_field_text(), t6);
    lemma_at_concat(s, p5, bt, close_text());
    if at(s, p2, version_text()) {
        lemma_at_index(s, p2, version_text(), 0);
    }
    if at(s, p4, body_field_text()) {
        lemma_at_index(s, p4, body_field_text(), 0);
    }
}

/// No text starts with the encodings of two different messages.
pub proof fn lemma_message_unique(s: Seq<u8>, a: Message, b: Message)
    requires
        starts_with_message(s, a),
        starts_with_message(s, b),
    ensures
        a == b,
{
    lemma_message_parts(s, a);
    lemma_message_parts(s, b);
    lemma_number_unique(s, 16, a.header.id as nat, b.header.id as nat);
    let p3 = (16 + digits(a.header.id as nat).len() + 11) as int;
    lemma_number_unique(s, p3, a.header.version as nat, b.header.version as nat);
    let p5 = p3 + digits(a.header.version as nat).len() + 9;
    lemma_body_unique(s, p5, a.body, b.body);
}

/// Reads the message whose encoding starts `s`.
fn parse_message(s: &[u8]) -> (r: Option<(Message, usize)>)
    ensures
        r matches Some((m, n)) ==> starts_with_message(s@, m) && n == encoding(m).len(),
        r is None ==> forall|m: Message| !#[trigger] starts_with_message(s@, m),
{
    let n: usize = s.len();
    if !matches_at(s, 0, &head_bytes()) {
        proof {
            assert forall|m: Message| !#[trigger] starts_with_message(s@, m) by {
                lemma_message_parts(s@, m);
            }
        }
        return None;
    }
    let (id, p2) = match parse_number(s, 16, u32::MAX) {
        Some(x) => x,
        None => {
            proof {
                assert forall|m: Message| !#[trigger] starts_with_message(s@, m) by {
                    lemma_message_parts(s@, m);
                }
            }
            return None;
        },
    };
    if !matches_at(s, p2, &version_bytes()) {
        proof {
            assert forall|m: Message| !#[trigger] starts_with_message(s@, m) by {
                lemma_message_parts(s@, m);
                if starts_with_message(s@, m) {
                    lemma_number_unique(s@, 16, id as nat, m.header.id as nat);
                }
            }
        }
        return None;
    }
    let p3 = p2 + 11;
    let (version, p4) = match parse_number(s, p3, 65535) {
        Some(x) => x,
        None => {
            proof {
                assert forall|m: Message| !#[trigger] starts_with_message(s@, m) by {
                    lemma_message_parts(s@, m);
                    if starts_with_message(s@, m) {
                        lemma_number_unique(s@, 16, id as nat, m.header.id as nat);
                    }
                }
            }
            return None;
        },
    };
    if !matches_at(s, p4, &body_field_bytes()) {
        proof {
            assert forall|m: Message| !#[trigger] starts_with_message(s@, m) by {
                lemma_message_parts(s@, m);
                if starts_with_message(s@, m) {
                    lemma_number_unique(s@, 16, id as nat, m.header.id as nat);
                    lemma_number_unique(s@, p3 as int, version as nat, m.header.version as nat);
                }
            }
        }
        return None;
    }
    let p5 = p4 + 9;
    let (body, p6) = match parse_body(s, p5) {
        Some(x) => x,
        None => {
            proof {
                assert forall|m: Message| !#[trigger] starts_with_message(s@, m) by {
                    lemma_message_parts(s@, m);
                    if starts_with_message(s@, m) {
                        lemma_number_unique(s@, 16, id as nat, m.header.id as nat);
                        lemma_number_unique(s@, p3 as int, version as nat, m.header.version as nat);
                    }
                }
            }
            return None;
        },
    };
    if !matches_at(s, p6, &close_bytes()) {
        proof {
            assert forall|m: Message| !#[trigger] starts_with_message(s@, m) by {
                lemma_message_parts(s@, m);
                if starts_with_message(s@, m) {
                    lemma_number_unique(s@, 16, id as nat, m.header.id as nat);
                    lemma_number_unique(s@, p3 as int, version as nat, m.header.version as nat);
                    lemma_body_unique(s@, p5 as int, body, m.body);
                }
            }
        }
        return None;
    }
    assert(p6 + 1 <= n);
    let m = Message { header: crate::message::Header { id, version: version as u16 }, body };
    proof {
        lemma_message_parts(s@, m);
    }
    Some((m, p6 + 1))
}


fn push_all(out: &mut Vec<u8>, t: &Vec<u8>)
    ensures
        final(out)@ == old(out)@ + t@,
{
    let mut j: usize = 0;
    while j < t.len()
        invariant
            j <= t@.len(),
            out@ == old(out)@ + t@.take(j as int),
        decreases t@.len() - j,
    {
        out.push(t[j]);
        j += 1;
        assert(t@.take(j as int) =~= t@.take(j - 1).push(t@[j - 1]));
        assert(out@ =~= old(out)@ + t@.take(j as int));
    }
    assert(t@.take(j as int) =~= t@);
}

fn push_body(out: &mut Vec<u8>, b: Body)
    ensures
        final(out)@ == old(out)@ + body_text(b),
{
    let ghost start = out@;
    push_all(out, &tag_bytes(b));
    match b {
        Body::Gas(v) => {
            push_decimal(out, v as u32);
            push_all(out, &close_bytes());
        },
        Body::Rotation(v) => {
            push_decimal(out, v as u32);
            push_all(out, &close_bytes());
        },
        Body::Mode(m) => {
            push_all(out, &mode_bytes(m));
            push_all(out, &close_bytes());
        },
        Body::Heartbeat => {},
    }
    assert(out@ =~= start + body_text(b));
}

/// The encoding of `m`, as bytes.
fn encoding_bytes(m: &Message) -> (r: Vec<u8>)
    ensures
        r@ == encoding(*m),
{
    let mut out = head_bytes();
    push_decimal(&mut out, m.header.id);
    push_all(&mut out, &version_bytes());
    push_decimal(&mut out, m.header.version as u32);
    push_all(&mut out, &body_field_bytes());
    push_body(&mut out, m.body);
    push_all(&mut out, &close_bytes());
    assert(out@ =~= encoding(*m));
    out
}

proof fn lemma_ascii_concat(a: Seq<u8>, b: Seq<u8>)
    requires
        is_ascii(a),
        is_ascii(b),
    ensures
        is_ascii(a + b),
{
    assert forall|i: int| 0 <= i < (a + b).len() implies #[trigger] (a + b)[i] < 128 by {
        if i < a.len() {
            assert((a + b)[i] == a[i]);
        } else {
            assert((a + b)[i] == b[i - a.len()]);
        }
    }
}

proof fn lemma_digits_ascii(n: nat)
    ensures
        is_ascii(digits(n)),
{
    lemma_digits_canonical(n);
    assert forall|i: int| 0 <= i < digits(n).len() implies #[trigger] digits(n)[i] < 128 by {
        assert(is_digit(digits(n)[i]));
    }
}

/// Every byte of an encoding is ASCII.
pub proof fn lemma_encoding_ascii(m: Message)
    ensures
        is_ascii(encoding(m)),
{
    assert(is_ascii(head_text()));
    assert(is_ascii(version_text()));
    assert(is_ascii(body_field_text()));
    assert(is_ascii(close_text()));
    assert(is_ascii(body_tag(m.body)));
    lemma_digits_ascii(m.header.id as nat);
    lemma_digits_ascii(m.header.version as nat);
    match m.body {
        Body::Gas(v) => {
            lemma_digits_ascii(v as nat);
            lemma_ascii_concat(digits(v as nat), close_text());
        },
        Body::Rotation(v) => {
            lemma_digits_ascii(v as nat);
            lemma_ascii_concat(digits(v as nat), close_text());
        },
        Body::Mode(x) => {
            assert(is_ascii(mode_text(x)));
            lemma_ascii_concat(mode_text(x), close_text());
        },
        Body::Heartbeat => {},
    }
    lemma_ascii_concat(body_tag(m.body), body_rest(m.body));
    let t6 = body_text(m.body) + close_text();
    lemma_ascii_concat(body_text(m.body), close_text());
    lemma_ascii_concat(body_field_text(), t6);
    let t4 = digits(m.header.version as nat) + (body_field_text() + t6);
    lemma_ascii_concat(digits(m.header.version as nat), body_field_text() + t6);
    lemma_ascii_concat(version_text(), t4);
    lemma_ascii_concat(digits(m.header.id as nat), version_text() + t4);
    lemma_ascii_concat(head_text(), digits(m.header.id as nat) + (version_text() + t4));
}

/// The longest message the schema can produce fits in a buffer: no encoding
/// is longer than 69 bytes.
pub proof fn lemma_encoding_fits(m: Message)
    ensures
        encoding(m).len() <= 69,
        encoding(m).len() <= MAX_ENCODE_SIZE,
{
    reveal_with_fuel(pow10, 11);
    assert(pow10(10) == 10000000000);
    assert(pow10(5) == 100000);
    assert(pow10(3) == 1000);
    lemma_digits_len(m.header.id as nat, 10);
    lemma_digits_len(m.header.version as nat, 5);
    match m.body {
        Body::Gas(v) => lemma_digits_len(v as nat, 3),
        Body::Rotation(v) => lemma_digits_len(v as nat, 3),
        Body::Mode(_) => {},
        Body::Heartbeat => {},
    }
}

/// Decoding the encoding of a message, followed by any bytes, gives that
/// message back together with the length of its encoding.
pub proof fn lemma_round_trip(m: Message, rest: Seq<u8>)
    ensures
        decoded(encoding(m) + rest) == Some((m, encoding(m).len())),
{
    let s = encoding(m) + rest;
    assert(s.subrange(0, encoding(m).len() as int) =~= encoding(m));
    assert(starts_with_message(s, m));
    let c = choose|c: Message| starts_with_message(s, c);
    lemma_message_unique(s, m, c);
}

/// Equal encodings come from equal messages, and the encoding of a message is
/// a function of the message alone.
pub proof fn lemma_encoding_injective(a: Message, b: Message)
    ensures
        encoding(a) == encoding(b) <==> a == b,
{
    if encoding(a) == encoding(b) {
        lemma_round_trip(a, Seq::<u8>::empty());
        lemma_round_trip(b, Seq::<u8>::empty());
        assert(encoding(a) + Seq::<u8>::empty() =~= encoding(a));
        assert(encoding(b) + Seq::<u8>::empty() =~= encoding(b));
    }
}

impl Message {
    /// Writes this message as compact JSON into a buffer; fails only where the
    /// text would not fit.
    pub fn encode(&self) -> (r: Result<Buffer, EncodeError>)
        ensures
            r is Ok <==> encoding(*self).len() <= MAX_ENCODE_SIZE,
            r matches Ok(b) ==> buffer_bytes(b) == encoding(*self),
            r matches Err(e) ==> e == EncodeError::CapacityExceeded,
    {
        let bytes = encoding_bytes(self);
        proof {
            lemma_encoding_ascii(*self);
            lemma_encoding_fits(*self);
        }
        let mut buf = empty_buffer();
        let mut i: usize = 0;
        while i < bytes.len()
            invariant
                i <= bytes@.len(),
                bytes@ == encoding(*self),
                is_ascii(bytes@),
                buffer_bytes(buf) == bytes@.take(i as int),
            decreases bytes@.len() - i,
        {
            match push_ascii(&mut buf, bytes[i]) {
                Ok(()) => {},
                Err(()) => {
                    return Err(EncodeError::CapacityExceeded);
                },
            }
            i += 1;
            assert(bytes@.take(i as int) =~= bytes@.take(i - 1).push(bytes@[i - 1]));
        }
        assert(bytes@.take(i as int) =~= bytes@);
        Ok(buf)
    }

    /// Reads the message that starts the text in `data`, with the number of
    /// bytes its encoding takes.
    pub fn decode(data: Buffer) -> (r: Result<(Message, usize), DecodeError>)
        ensures
            r matches Ok((m, n)) ==> decoded(buffer_bytes(data)) == Some((m, n as nat)),
            r matches Err(e) ==> e == DecodeError::Malformed && decoded(buffer_bytes(data))
                is None,
            r is Ok <==> decoded(buffer_bytes(data)) is Some,
    {
        let s = bytes_of(&data);
        match parse_message(s) {
            Some((m, n)) => {
                proof {
                    let c = choose|c: Message| starts_with_message(s@, c);
                    lemma_message_unique(s@, m, c);
                }
                Ok((m, n))
            },
            None => Err(DecodeError::Malformed),
        }
    }
}

/// What decoding a received packet gives: its first `size` bytes are read as
/// text, which must hold only ASCII and fit in a buffer.
pub open spec fn packet_decoded(bytes: Seq<u8>, size: nat) -> Result<(Message, nat), DecodeError> {
    if size > bytes.len() {
        Err(DecodeError::ShortPacket)
    } else if size > MAX_ENCODE_SIZE {
        Err(DecodeError::Oversized)
    } else if !is_ascii(bytes.take(size as int)) {
        Err(DecodeError::NotAscii)
    } else {
        match decoded(bytes.take(size as int)) {
            Some(x) => Ok(x),
            None => Err(DecodeError::Malformed),
        }
    }
}

/// Decodes the first `size` bytes of a received packet, each byte read as one
/// character.
pub fn decode_packet(bytes: &[u8], size: usize) -> (r: Result<(Message, usize), DecodeError>)
    ensures
        r matches Ok((m, n)) ==> packet_decoded(bytes@, size as nat) == Ok::<
            (Message, nat),
            DecodeError,
        >((m, n as nat)),
        r matches Err(e) ==> packet_decoded(bytes@, size as nat) == Err::<(Message, nat), DecodeError>(e),
{
    if size > bytes.len() {
        return Err(DecodeError::ShortPacket);
    }
    if size > MAX_ENCODE_SIZE {
        return Err(DecodeError::Oversized);
    }
    let mut buf = empty_buffer();
    let mut i: usize = 0;
    while i < size
        invariant
            i <= size <= bytes@.len(),
            size <= MAX_ENCODE_SIZE,
            buffer_bytes(buf) == bytes@.take(i as int),
            is_ascii(bytes@.take(i as int)),
        decreases size - i,
    {
        let c = bytes[i];
        if c >= 128 {
            proof {
                assert(bytes@.take(size as int)[i as int] == c);
            }
            return Err(DecodeError::NotAscii);
        }
        let pushed = push_ascii(&mut buf, c);
        i += 1;
        proof {
            assert(bytes@.take(i as int) =~= bytes@.take(i - 1).push(c));
            assert(is_ascii(bytes@.take(i as int))) by {
                assert forall|k: int| 0 <= k < i implies #[trigger] bytes@.take(i as int)[k] < 128 by {
                    if k < i - 1 {
                        assert(bytes@.take(i as int)[k] == bytes@.take(i - 1)[k]);
                    }
                }
            }
        }
    }
    Message::decode(buf)
}

} // verus!
