//! Text handling shared by the protocol and the configuration parser: UTF-8
//! checking, Unicode whitespace, splitting on whitespace and decimal numbers.
use vstd::prelude::*;
use vstd::utf8::*;

verus! {

broadcast use vstd::seq::group_seq_axioms;

/// The Unicode `White_Space` property, which `char::is_whitespace` tests.
pub open spec fn is_white_space(c: u32) -> bool {
    ||| 0x09 <= c <= 0x0d
    ||| c == 0x20
    ||| c == 0x85
    ||| c == 0xa0
    ||| c == 0x1680
    ||| 0x2000 <= c <= 0x200a
    ||| c == 0x2028
    ||| c == 0x2029
    ||| c == 0x202f
    ||| c == 0x205f
    ||| c == 0x3000
}

/// Whether a character is whitespace, as `char::is_whitespace` decides.
pub fn char_is_white_space(c: char) -> (r: bool)
    ensures
        r == is_white_space(c as u32),
{
    scalar_is_white_space(c as u32)
}

/// `std::str::from_utf8` accepts a byte slice exactly when it is well-formed UTF-8
/// (no overlong forms, no surrogates, nothing above U+10FFFF, no truncated scalar),
/// which is what `valid_utf8` states; this reports whether it accepted the slice.
#[verifier::external_body]
pub(crate) fn utf8_accepts(bytes: &[u8]) -> (ok: bool)
    ensures
        ok == valid_utf8(bytes@),
{
    std::str::from_utf8(bytes).is_ok()
}

/// The scalar value encoded at byte position `i`.
pub open spec fn scalar_at(s: Seq<u8>, i: int) -> u32 {
    decode_first_scalar(s.skip(i))
}

/// The number of bytes of the scalar encoded at byte position `i`.
pub open spec fn scalar_len(s: Seq<u8>, i: int) -> int {
    length_of_first_scalar(s.skip(i))
}

/// Whether the scalar at byte position `i` is whitespace.
pub open spec fn white_space_at(s: Seq<u8>, i: int) -> bool {
    is_white_space(scalar_at(s, i))
}

/// The byte position after the scalar at `i` (never past the end).
pub open spec fn next_scalar(s: Seq<u8>, i: int) -> int {
    if i + scalar_len(s, i) <= s.len() {
        i + scalar_len(s, i)
    } else {
        s.len() as int
    }
}

/// The whitespace-separated words of `s` from byte position `i` on, as byte ranges
/// `(start, end)`; `start` is where the word being read began, if one is.
/// This is what `str::split_whitespace` yields, located in the bytes.
pub open spec fn words_from(s: Seq<u8>, i: int, start: Option<int>) -> Seq<(int, int)>
    decreases s.len() - i,
{
    if i >= s.len() || i < 0 {
        match start {
            Some(a) => seq![(a, s.len() as int)],
            None => Seq::empty(),
        }
    } else if white_space_at(s, i) {
        let rest = words_from(s, next_scalar(s, i), None);
        match start {
            Some(a) => seq![(a, i)] + rest,
            None => rest,
        }
    } else {
        words_from(
            s,
            next_scalar(s, i),
            match start {
                Some(a) => Some(a),
                None => Some(i),
            },
        )
    }
}

/// The whitespace-separated words of `s`, as byte ranges.
pub open spec fn words(s: Seq<u8>) -> Seq<(int, int)> {
    words_from(s, 0, None)
}

proof fn lemma_step(s: Seq<u8>, i: int)
    requires
        0 <= i < s.len(),
        valid_utf8(s.skip(i)),
    ensures
        1 <= scalar_len(s, i),
        i + scalar_len(s, i) <= s.len(),
        next_scalar(s, i) == i + scalar_len(s, i),
        valid_utf8(s.skip(i + scalar_len(s, i))),
{
    let x = s.skip(i);
    assert(x.len() > 0);
    assert(valid_first_scalar(x));
    assert(pop_first_scalar(x) =~= s.skip(i + scalar_len(s, i)));
}

/// Decodes the scalar at byte position `i`: its value and its length in bytes.
pub fn decode_scalar(s: &[u8], i: usize) -> (r: (u32, usize))
    requires
        i < s@.len(),
        valid_utf8(s@.skip(i as int)),
    ensures
        r.0 == scalar_at(s@, i as int),
        r.1 == scalar_len(s@, i as int),
        1 <= r.1,
        i + r.1 <= s@.len(),
        valid_utf8(s@.skip(i + r.1)),
{
    proof {
        lemma_step(s@, i as int);
    }
    let ghost x = s@.skip(i as int);
    assert(valid_first_scalar(x));
    let b0 = s[i];
    assert(b0 == x[0]);
    if b0 <= 0x7f {
        ((b0 & 0x7f) as u32, 1)
    } else if 0xc0 <= b0 && b0 <= 0xdf {
        let b1 = s[i + 1];
        assert(b1 == x[1]);
        ((((b0 & 0x1f) as u32) << 6) | ((b1 & 0x3f) as u32), 2)
    } else if 0xe0 <= b0 && b0 <= 0xef {
        let b1 = s[i + 1];
        let b2 = s[i + 2];
        assert(b1 == x[1] && b2 == x[2]);
        (
            (((b0 & 0x0f) as u32) << 12) | (((b1 & 0x3f) as u32) << 6) | ((b2 & 0x3f) as u32),
            3,
        )
    } else {
        let b1 = s[i + 1];
        let b2 = s[i + 2];
        let b3 = s[i + 3];
        assert(b1 == x[1] && b2 == x[2] && b3 == x[3]);
        (
            (((b0 & 0x07) as u32) << 18) | (((b1 & 0x3f) as u32) << 12) | (((b2 & 0x3f) as u32)
                << 6) | ((b3 & 0x3f) as u32),
            4,
        )
    }
}

/// Whether a scalar value is whitespace.
pub fn scalar_is_white_space(u: u32) -> (r: bool)
    ensures
        r == is_white_space(u),
{
    (0x09 <= u && u <= 0x0d) || u == 0x20 || u == 0x85 || u == 0xa0 || u == 0x1680 || (0x2000
        <= u && u <= 0x200a) || u == 0x2028 || u == 0x2029 || u == 0x202f || u == 0x205f || u
        == 0x3000
}

/// Finds the first whitespace-separated word at or after byte position `from`.
/// On `Some((a, b))` the word is bytes `a..b`, and the words after it are those
/// found from `b` on.
pub fn next_word(s: &[u8], from: usize) -> (r: Option<(usize, usize)>)
    requires
        from <= s@.len(),
        valid_utf8(s@.skip(from as int)),
    ensures
        match r {
            None => words_from(s@, from as int, None) == Seq::<(int, int)>::empty(),
            Some((a, b)) => {
                &&& from <= a < b <= s@.len()
                &&& valid_utf8(s@.skip(b as int))
                &&& words_from(s@, from as int, None) == seq![(a as int, b as int)]
                    + words_from(s@, b as int, None)
            },
        },
{
    let n = s.len();
    let mut i = from;
    while i < n
        invariant
            from <= i <= n,
            n == s@.len(),
            valid_utf8(s@.skip(i as int)),
            words_from(s@, from as int, None) == words_from(s@, i as int, None),
        ensures
            from <= i <= n,
            valid_utf8(s@.skip(i as int)),
            words_from(s@, from as int, None) == words_from(s@, i as int, None),
            i < n ==> !white_space_at(s@, i as int),
        decreases n - i,
    {
        let (c, len) = decode_scalar(s, i);
        if !scalar_is_white_space(c) {
            break;
        }
        proof {
            lemma_step(s@, i as int);
        }
        i = i + len;
    }
    if i >= n {
        return None;
    }
    let a = i;
    let (_c0, len0) = decode_scalar(s, i);
    proof {
        lemma_step(s@, i as int);
        assert(words_from(s@, a as int, None) == words_from(
            s@,
            next_scalar(s@, a as int),
            Some(a as int),
        ));
    }
    i = i + len0;
    while i < n
        invariant
            from <= a < i <= n,
            n == s@.len(),
            words_from(s@, from as int, None) == words_from(s@, a as int, None),
            valid_utf8(s@.skip(i as int)),
            words_from(s@, a as int, None) == words_from(s@, i as int, Some(a as int)),
        decreases n - i,
    {
        let (c, len) = decode_scalar(s, i);
        if scalar_is_white_space(c) {
            proof {
                lemma_step(s@, i as int);
                assert(words_from(s@, i as int, None) == words_from(
                    s@,
                    next_scalar(s@, i as int),
                    None,
                ));
                assert(words_from(s@, i as int, Some(a as int)) == seq![(a as int, i as int)]
                    + words_from(s@, next_scalar(s@, i as int), None));
            }
            return Some((a, i));
        }
        proof {
            lemma_step(s@, i as int);
        }
        i = i + len;
    }
    assert(words_from(s@, i as int, None) == Seq::<(int, int)>::empty());
    assert(words_from(s@, i as int, Some(a as int)) == seq![(a as int, n as int)]);
    Some((a, i))
}

/// An ASCII decimal digit.
pub open spec fn is_digit(b: u8) -> bool {
    0x30 <= b <= 0x39
}

/// The number that a string of ASCII decimal digits denotes.
pub open spec fn digits_value(d: Seq<u8>) -> nat
    decreases d.len(),
{
    if d.len() == 0 {
        0
    } else {
        digits_value(d.drop_last()) * 10 + (d.last() - 0x30) as nat
    }
}

/// The digits of an unsigned number written with an optional leading `+`.
pub open spec fn unsigned_digits(s: Seq<u8>) -> Seq<u8> {
    if s.len() > 0 && s[0] == 0x2b {
        s.drop_first()
    } else {
        s
    }
}

/// What `str::parse` gives for an unsigned integer type whose largest value is
/// `max`: an optional `+`, then one or more ASCII digits, and a value that fits.
/// Anything else (no digits, a sign `-`, spaces, other characters, overflow) is an error.
pub open spec fn parse_unsigned(s: Seq<u8>, max: nat) -> Option<nat> {
    let d = unsigned_digits(s);
    if d.len() > 0 && (forall|i: int| 0 <= i < d.len() ==> is_digit(#[trigger] d[i]))
        && digits_value(d) <= max {
        Some(digits_value(d))
    } else {
        None
    }
}

proof fn lemma_digits_value_prefix(d: Seq<u8>, k: int)
    requires
        0 <= k <= d.len(),
        forall|i: int| 0 <= i < d.len() ==> is_digit(#[trigger] d[i]),
    ensures
        digits_value(d.subrange(0, k)) <= digits_value(d),
    decreases d.len(),
{
    if k < d.len() {
        let p = d.drop_last();
        assert forall|i: int| 0 <= i < p.len() implies is_digit(#[trigger] p[i]) by {
            assert(p[i] == d[i]);
        }
        lemma_digits_value_prefix(p, k);
        assert(p.subrange(0, k) =~= d.subrange(0, k));
    } else {
        assert(d.subrange(0, k) =~= d);
    }
}

/// Reads the unsigned decimal number in bytes `start..end` of `s`, as `str::parse::<u128>`
/// does.
pub fn parse_u128(s: &[u8], start: usize, end: usize) -> (r: Option<u128>)
    requires
        start <= end <= s@.len(),
    ensures
        r == (match parse_unsigned(s@.subrange(start as int, end as int), u128::MAX as nat) {
            Some(v) => Some(v as u128),
            None => None,
        }),
{
    let ghost t = s@.subrange(start as int, end as int);
    let ghost d = unsigned_digits(t);
    let mut p = start;
    if p < end && s[p] == 0x2b {
        p = p + 1;
    }
    assert(d =~= s@.subrange(p as int, end as int));
    if p == end {
        return None;
    }
    let mut v: u128 = 0;
    let mut i = p;
    while i < end
        invariant
            p <= i <= end <= s@.len(),
            d == s@.subrange(p as int, end as int),
            d == unsigned_digits(s@.subrange(start as int, end as int)),
            forall|j: int| 0 <= j < i - p ==> is_digit(#[trigger] d[j]),
            v as nat == digits_value(d.subrange(0, i - p)),
        decreases end - i,
    {
        let b = s[i];
        assert(b == d[i - p]);
        if !(0x30 <= b && b <= 0x39) {
            assert(!is_digit(d[i - p]));
            return None;
        }
        let ghost q = d.subrange(0, i - p + 1);
        proof {
            assert(q.drop_last() =~= d.subrange(0, i - p));
            assert(q.last() == b);
            assert(digits_value(q) == digits_value(q.drop_last()) * 10 + (q.last() - 0x30) as nat);
        }
        match v.checked_mul(10) {
            None => {
                proof {
                    if forall|j: int| 0 <= j < d.len() ==> is_digit(#[trigger] d[j]) {
                        lemma_digits_value_prefix(d, i - p + 1);
                    }
                }
                return None;
            },
            Some(m) => match m.checked_add((b - 0x30) as u128) {
                None => {
                    proof {
                        if forall|j: int| 0 <= j < d.len() ==> is_digit(#[trigger] d[j]) {
                            lemma_digits_value_prefix(d, i - p + 1);
                        }
                    }
                    return None;
                },
                Some(w) => {
                    v = w;
                },
            },
        }
        i = i + 1;
    }
    assert(d.subrange(0, i - p) =~= d);
    Some(v)
}

/// No scalar of `w` is whitespace (and `w` is made of whole scalars).
pub open spec fn no_white_space(w: Seq<u8>) -> bool
    decreases w.len(),
{
    w.len() == 0 || (valid_first_scalar(w) && length_of_first_scalar(w) <= w.len()
        && !is_white_space(decode_first_scalar(w)) && no_white_space(
        w.subrange(length_of_first_scalar(w), w.len() as int),
    ))
}

proof fn lemma_first_scalar_of_prefix(x: Seq<u8>, y: Seq<u8>)
    requires
        valid_first_scalar(x),
        length_of_first_scalar(x) <= x.len() <= y.len(),
        forall|j: int| 0 <= j < x.len() ==> x[j] == y[j],
    ensures
        valid_first_scalar(y),
        decode_first_scalar(y) == decode_first_scalar(x),
        length_of_first_scalar(y) == length_of_first_scalar(x),
{
    assert(x[0] == y[0]);
    if x.len() > 1 {
        assert(x[1] == y[1]);
    }
    if x.len() > 2 {
        assert(x[2] == y[2]);
    }
    if x.len() > 3 {
        assert(x[3] == y[3]);
    }
}

proof fn lemma_word_rest(s: Seq<u8>, a: int, i: int, b: int)
    requires
        0 <= a < i <= b <= s.len(),
        no_white_space(s.subrange(i, b)),
        b == s.len() || white_space_at(s, b),
    ensures
        words_from(s, i, Some(a)) == seq![(a, b)] + words_from(s, b, None),
    decreases b - i,
{
    if i == b {
        if b == s.len() {
            assert(words_from(s, b, None) == Seq::<(int, int)>::empty());
            assert(seq![(a, b)] + Seq::<(int, int)>::empty() =~= seq![(a, b)]);
        } else {
            assert(words_from(s, b, None) == words_from(s, next_scalar(s, b), None));
        }
    } else {
        let w = s.subrange(i, b);
        let len = length_of_first_scalar(w);
        lemma_first_scalar_of_prefix(w, s.skip(i));
        assert(scalar_len(s, i) == len);
        assert(!white_space_at(s, i));
        assert(next_scalar(s, i) == i + len);
        assert(w.subrange(len, w.len() as int) =~= s.subrange(i + len, b));
        lemma_word_rest(s, a, i + len, b);
    }
}

/// A run of non-whitespace scalars from `a` to `b`, ended by whitespace or the end,
/// is the next word.
pub proof fn lemma_word(s: Seq<u8>, a: int, b: int)
    requires
        0 <= a < b <= s.len(),
        no_white_space(s.subrange(a, b)),
        b == s.len() || white_space_at(s, b),
    ensures
        words_from(s, a, None) == seq![(a, b)] + words_from(s, b, None),
{
    let w = s.subrange(a, b);
    let len = length_of_first_scalar(w);
    lemma_first_scalar_of_prefix(w, s.skip(a));
    assert(next_scalar(s, a) == a + len);
    assert(words_from(s, a, None) == words_from(s, a + len, Some(a)));
    assert(w.subrange(len, w.len() as int) =~= s.subrange(a + len, b));
    lemma_word_rest(s, a, a + len, b);
}

/// A space is whitespace, one byte long.
pub proof fn lemma_space(s: Seq<u8>, i: int)
    requires
        0 <= i < s.len(),
        s[i] == 0x20,
    ensures
        white_space_at(s, i),
        next_scalar(s, i) == i + 1,
        words_from(s, i, None) == words_from(s, i + 1, None),
{
    let x = s.skip(i);
    assert(x[0] == 0x20u8);
    assert((0x20u8 & 0x7fu8) == 0x20u8) by (bit_vector);
}

/// Printable ASCII other than the space: one byte per scalar, none of them whitespace.
pub open spec fn is_printable_ascii(b: u8) -> bool {
    0x21 <= b <= 0x7e
}

pub proof fn lemma_ascii_word(w: Seq<u8>)
    requires
        forall|j: int| 0 <= j < w.len() ==> is_printable_ascii(#[trigger] w[j]),
    ensures
        valid_utf8(w),
        no_white_space(w),
    decreases w.len(),
{
    if w.len() > 0 {
        let b = w[0];
        assert(is_printable_ascii(b));
        assert(b <= 0x7f ==> (b & 0x7fu8) == b) by (bit_vector);
        let rest = w.subrange(1, w.len() as int);
        assert forall|j: int| 0 <= j < rest.len() implies is_printable_ascii(#[trigger] rest[j]) by {
            assert(rest[j] == w[j + 1]);
        }
        lemma_ascii_word(rest);
        assert(pop_first_scalar(w) =~= rest);
    }
}

} // verus!
