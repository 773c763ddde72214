//! The line protocol: `SET <key> <value> <ttl-ms>` and `GET <key>`.
use vstd::prelude::*;
use vstd::utf8::valid_utf8;
use bytes::Bytes;
use crate::buffers::{bytes_as_slice, bytes_content, bytes_slice};
use crate::text::{
    digits_value, is_digit, is_printable_ascii, lemma_ascii_word, lemma_space, lemma_word, next_word,
    no_white_space, parse_u128, parse_unsigned, utf8_accepts, words, words_from,
};
use vstd::utf8::valid_utf8_concat;
use crate::storage::{expiry, read_at, EntryView};

verus! {

/// An error that the engine answers a request with.
pub struct EngineRequestError {
    pub details: String,
}

impl EngineRequestError {
    /// The error as a human-readable message: `Application Error: <details>`.
    pub fn message(&self) -> (m: String)
        ensures
            m@ == "Application Error: "@ + self.details@,
    {
        let mut m = "Application Error: ".to_owned();
        m.append(self.details.as_str());
        m
    }
}

/// A parsed command line.
pub enum Request {
    SetKey(SetRequest),
    Get(GetRequest),
    Invalid(InvalidRequest),
}

/// `SET <key> <value> <ttl>`: the key and value share the command's storage.
pub struct SetRequest {
    pub key: Bytes,
    pub value: Bytes,
    pub ttl: u128,
}

/// `GET <key>`.
pub struct GetRequest {
    pub key: Bytes,
}

/// A line that is not a valid command, and why.
pub struct InvalidRequest {
    pub reason: String,
}

/// A request as plain values.
pub enum RequestView {
    SetKey { key: Seq<u8>, value: Seq<u8>, ttl: u128 },
    Get { key: Seq<u8> },
    Invalid { reason: Seq<char> },
}

impl View for Request {
    type V = RequestView;

    open spec fn view(&self) -> RequestView {
        match self {
            Request::SetKey(r) => RequestView::SetKey {
                key: bytes_content(r.key),
                value: bytes_content(r.value),
                ttl: r.ttl,
            },
            Request::Get(r) => RequestView::Get { key: bytes_content(r.key) },
            Request::Invalid(r) => RequestView::Invalid { reason: r.reason@ },
        }
    }
}

/// The bytes of the command word `GET`.
pub open spec fn get_word() -> Seq<u8> {
    seq![0x47u8, 0x45u8, 0x54u8]
}

/// The bytes of the command word `SET`.
pub open spec fn set_word() -> Seq<u8> {
    seq![0x53u8, 0x45u8, 0x54u8]
}

/// The bytes of the `i`-th word of `s`.
pub open spec fn word(s: Seq<u8>, i: int) -> Seq<u8> {
    s.subrange(words(s)[i].0, words(s)[i].1)
}

/// What a command line means. The text must be UTF-8; it is split on Unicode
/// whitespace; the first word is the command, words after those it needs are ignored.
pub open spec fn parse_request(s: Seq<u8>) -> RequestView {
    if !valid_utf8(s) {
        RequestView::Invalid { reason: "Invalid UTF-8"@ }
    } else if words(s).len() == 0 {
        RequestView::Invalid { reason: "Empty request"@ }
    } else if word(s, 0) == get_word() {
        if words(s).len() >= 2 {
            RequestView::Get { key: word(s, 1) }
        } else {
            RequestView::Invalid { reason: "Missing key for GET"@ }
        }
    } else if word(s, 0) == set_word() {
        if words(s).len() >= 4 {
            match parse_unsigned(word(s, 3), u128::MAX as nat) {
                Some(ttl) => RequestView::SetKey { key: word(s, 1), value: word(s, 2), ttl: ttl as u128 },
                None => RequestView::Invalid { reason: "Invalid TTL"@ },
            }
        } else {
            RequestView::Invalid { reason: "Missing arguments for SET"@ }
        }
    } else {
        RequestView::Invalid { reason: "Invalid command"@ }
    }
}

/// Whether bytes `a..b` of `s` are the three bytes `c0 c1 c2`.
fn range_is_word(s: &[u8], a: usize, b: usize, c0: u8, c1: u8, c2: u8) -> (r: bool)
    requires
        a <= b <= s@.len(),
    ensures
        r == (s@.subrange(a as int, b as int) == seq![c0, c1, c2]),
{
    if b - a != 3 {
        assert(s@.subrange(a as int, b as int).len() != 3);
        return false;
    }
    let r = s[a] == c0 && s[a + 1] == c1 && s[a + 2] == c2;
    let ghost w = s@.subrange(a as int, b as int);
    assert(w[0] == s@[a as int] && w[1] == s@[a + 1] && w[2] == s@[a + 2]);
    if r {
        assert(w =~= seq![c0, c1, c2]);
    } else {
        assert(seq![c0, c1, c2][0] == c0 && seq![c0, c1, c2][1] == c1 && seq![c0, c1, c2][2] == c2);
    }
    r
}

fn invalid(reason: &str) -> (r: Request)
    ensures
        r@ == (RequestView::Invalid { reason: reason@ }),
{
    Request::Invalid(InvalidRequest { reason: reason.to_owned() })
}

impl Request {
    /// Parses one command line. Key and value are handles into `req`, not copies.
    pub fn parse(req: &Bytes) -> (r: Request)
        ensures
            r@ == parse_request(bytes_content(*req)),
    {
        let s = bytes_as_slice(req);
        let ghost sv = s@;
        if !utf8_accepts(s) {
            return invalid("Invalid UTF-8");
        }
        assert(sv.skip(0) =~= sv);
        let (a0, b0) = match next_word(s, 0) {
            None => {
                return invalid("Empty request");
            },
            Some(w) => w,
        };
        let ghost w0 = words(sv);
        assert(w0[0] == (a0 as int, b0 as int));
        if range_is_word(s, a0, b0, 0x47, 0x45, 0x54) {
            match next_word(s, b0) {
                Some((a1, b1)) => {
                    assert(w0[1] == (a1 as int, b1 as int));
                    Request::Get(GetRequest { key: bytes_slice(req, a1, b1) })
                },
                None => {
                    assert(w0.len() == 1);
                    invalid("Missing key for GET")
                },
            }
        } else if range_is_word(s, a0, b0, 0x53, 0x45, 0x54) {
            let w1 = next_word(s, b0);
            let (a1, b1) = match w1 {
                Some(w) => w,
                None => {
                    assert(w0.len() == 1);
                    return invalid("Missing arguments for SET");
                },
            };
            let (a2, b2) = match next_word(s, b1) {
                Some(w) => w,
                None => {
                    assert(w0.len() == 2);
                    return invalid("Missing arguments for SET");
                },
            };
            let (a3, b3) = match next_word(s, b2) {
                Some(w) => w,
                None => {
                    assert(w0.len() == 3);
                    return invalid("Missing arguments for SET");
                },
            };
            assert(w0[1] == (a1 as int, b1 as int));
            assert(w0[2] == (a2 as int, b2 as int));
            assert(w0[3] == (a3 as int, b3 as int));
            match parse_u128(s, a3, b3) {
                Some(ttl) => Request::SetKey(
                    SetRequest {
                        key: bytes_slice(req, a1, b1),
                        value: bytes_slice(req, a2, b2),
                        ttl,
                    },
                ),
                None => invalid("Invalid TTL"),
            }
        } else {
            invalid("Invalid command")
        }
    }
}

/// A word a command can carry: UTF-8 with at least one scalar and no whitespace.
pub open spec fn is_word(w: Seq<u8>) -> bool {
    w.len() > 0 && valid_utf8(w) && no_white_space(w)
}

/// A TTL written in decimal.
pub open spec fn is_decimal(d: Seq<u8>) -> bool {
    d.len() > 0 && forall|i: int| 0 <= i < d.len() ==> is_digit(#[trigger] d[i])
}

/// The line `SET <key> <value> <ttl>`, single spaces between.
pub open spec fn set_line(key: Seq<u8>, value: Seq<u8>, ttl: Seq<u8>) -> Seq<u8> {
    set_word() + seq![0x20u8] + key + seq![0x20u8] + value + seq![0x20u8] + ttl
}

/// The line `GET <key>`.
pub open spec fn get_line(key: Seq<u8>) -> Seq<u8> {
    get_word() + seq![0x20u8] + key
}

proof fn lemma_ascii_parts(d: Seq<u8>)
    requires
        forall|i: int| 0 <= i < d.len() ==> is_digit(#[trigger] d[i]),
    ensures
        valid_utf8(get_word()),
        no_white_space(get_word()),
        valid_utf8(set_word()),
        no_white_space(set_word()),
        valid_utf8(seq![0x20u8]),
        valid_utf8(d),
        no_white_space(d),
{
    lemma_ascii_word(get_word());
    lemma_ascii_word(set_word());
    assert forall|i: int| 0 <= i < d.len() implies is_printable_ascii(#[trigger] d[i]) by {
        assert(is_digit(d[i]));
    }
    lemma_ascii_word(d);
    let sp = seq![0x20u8];
    assert((0x20u8 & 0x7fu8) == 0x20u8) by (bit_vector);
    assert(sp.subrange(1, 1) =~= Seq::<u8>::empty());
    assert(valid_utf8(sp.subrange(1, 1)));
}

proof fn lemma_set_line_valid(key: Seq<u8>, value: Seq<u8>, ttl: Seq<u8>)
    requires
        valid_utf8(key),
        valid_utf8(value),
        is_decimal(ttl),
    ensures
        valid_utf8(set_line(key, value, ttl)),
{
    let sp = seq![0x20u8];
    lemma_ascii_parts(ttl);
    let tail3 = sp + ttl;
    let tail2 = sp + value + tail3;
    let tail1 = sp + key + tail2;
    valid_utf8_concat(sp, ttl);
    valid_utf8_concat(value, tail3);
    valid_utf8_concat(sp, value + tail3);
    assert(sp + (value + tail3) =~= tail2);
    valid_utf8_concat(key, tail2);
    valid_utf8_concat(sp, key + tail2);
    assert(sp + (key + tail2) =~= tail1);
    valid_utf8_concat(set_word(), tail1);
    assert(set_line(key, value, ttl) =~= set_word() + tail1);
}

proof fn lemma_set_line_words(key: Seq<u8>, value: Seq<u8>, ttl: Seq<u8>)
    requires
        is_word(key),
        is_word(value),
        is_decimal(ttl),
    ensures
        ({
            let kl = key.len() as int;
            let vl = value.len() as int;
            let n = set_line(key, value, ttl).len() as int;
            words(set_line(key, value, ttl)) == seq![
                (0int, 3int),
                (4, 4 + kl),
                (5 + kl, 5 + kl + vl),
                (6 + kl + vl, n),
            ]
        }),
{
    let s = set_line(key, value, ttl);
    let kl = key.len() as int;
    let vl = value.len() as int;
    let dl = ttl.len() as int;
    lemma_ascii_parts(ttl);
    let n = s.len() as int;
    assert(n == 6 + kl + vl + dl);
    assert(s.subrange(0, 3) =~= set_word());
    assert(s.subrange(4, 4 + kl) =~= key);
    assert(s.subrange(5 + kl, 5 + kl + vl) =~= value);
    assert(s.subrange(6 + kl + vl, n) =~= ttl);
    assert(s[3] == 0x20u8);
    assert(s[4 + kl] == 0x20u8);
    assert(s[5 + kl + vl] == 0x20u8);
    lemma_space(s, 3);
    lemma_space(s, 4 + kl);
    lemma_space(s, 5 + kl + vl);
    lemma_word(s, 6 + kl + vl, n);
    assert(words_from(s, n, None) == Seq::<(int, int)>::empty());
    lemma_word(s, 5 + kl, 5 + kl + vl);
    lemma_word(s, 4, 4 + kl);
    lemma_word(s, 0, 3);
    assert(words(s) =~= seq![(0int, 3int), (4, 4 + kl), (5 + kl, 5 + kl + vl), (6 + kl + vl, n)]);
}

/// The protocol's `SET` line, as a client writes it, reads back as that command:
/// the key and value come back byte for byte, the TTL as the number written.
pub proof fn law_set_line_parses(key: Seq<u8>, value: Seq<u8>, ttl: Seq<u8>)
    requires
        is_word(key),
        is_word(value),
        is_decimal(ttl),
        digits_value(ttl) <= u128::MAX,
    ensures
        parse_request(set_line(key, value, ttl)) == (RequestView::SetKey {
            key,
            value,
            ttl: digits_value(ttl) as u128,
        }),
{
    let s = set_line(key, value, ttl);
    let kl = key.len() as int;
    let vl = value.len() as int;
    let n = s.len() as int;
    lemma_set_line_valid(key, value, ttl);
    lemma_set_line_words(key, value, ttl);
    assert(word(s, 0) =~= set_word());
    assert(word(s, 0) != get_word()) by {
        assert(word(s, 0)[0] != get_word()[0]);
    }
    assert(word(s, 1) =~= key);
    assert(word(s, 2) =~= value);
    assert(word(s, 3) =~= ttl);
    assert(ttl[0] != 0x2bu8) by {
        assert(is_digit(ttl[0]));
    }
    assert(parse_unsigned(ttl, u128::MAX as nat) == Some(digits_value(ttl)));
}

/// The protocol's `GET` line reads back as that command, with the key byte for byte.
pub proof fn law_get_line_parses(key: Seq<u8>)
    requires
        is_word(key),
    ensures
        parse_request(get_line(key)) == (RequestView::Get { key }),
{
    let sp = seq![0x20u8];
    let s = get_line(key);
    let kl = key.len() as int;
    lemma_ascii_parts(Seq::<u8>::empty());
    valid_utf8_concat(sp, key);
    valid_utf8_concat(get_word(), sp + key);
    assert(s =~= get_word() + (sp + key));
    assert(valid_utf8(s));
    let n = s.len() as int;
    assert(s.subrange(0, 3) =~= get_word());
    assert(s.subrange(4, n) =~= key);
    assert(s[3] == 0x20u8);
    lemma_space(s, 3);
    lemma_word(s, 0, 3);
    lemma_word(s, 4, n);
    assert(words_from(s, n, None) == Seq::<(int, int)>::empty());
    let w = words(s);
    assert(w =~= seq![(0int, 3int), (4, n)]);
    assert(word(s, 0) == get_word());
    assert(word(s, 1) == key);
}

/// Over the protocol: after `SET <key> <value> <ttl>` is carried out at `now`, a
/// `GET <key>` made up to `ttl` milliseconds later reads back `<value>`, and one made
/// after that finds nothing.
pub proof fn law_get_after_set(
    m: Map<Seq<u8>, EntryView>,
    key: Seq<u8>,
    value: Seq<u8>,
    ttl: Seq<u8>,
    now: u128,
    later: u128,
)
    requires
        is_word(key),
        is_word(value),
        is_decimal(ttl),
        now + digits_value(ttl) <= u128::MAX,
    ensures
        match (parse_request(set_line(key, value, ttl)), parse_request(get_line(key))) {
            (RequestView::SetKey { key: k, value: v, ttl: t }, RequestView::Get { key: g }) => read_at(
                m.insert(k, EntryView { value: v, ttl: expiry(now, t) }),
                g,
                later,
            ) == (if later <= now + digits_value(ttl) {
                Some(value)
            } else {
                None
            }),
            _ => false,
        },
{
    law_set_line_parses(key, value, ttl);
    law_get_line_parses(key);
}

} // verus!
