//! The `KEY=VALUE` configuration file and the settings read from it.
use vstd::prelude::*;
use vstd::utf8::encode_utf8;
use crate::text::{char_is_white_space, is_white_space, parse_u128, parse_unsigned};

verus! {

broadcast use vstd::string::group_string_axioms;

/// Whether a character is whitespace (`char::is_whitespace`).
pub open spec fn ws(c: char) -> bool {
    is_white_space(c as u32)
}

/// `str::trim_start`: drops the leading whitespace.
pub open spec fn trim_start(s: Seq<char>) -> Seq<char>
    decreases s.len(),
{
    if s.len() > 0 && ws(s[0]) {
        trim_start(s.drop_first())
    } else {
        s
    }
}

/// `str::trim_end`: drops the trailing whitespace.
pub open spec fn trim_end(s: Seq<char>) -> Seq<char>
    decreases s.len(),
{
    if s.len() > 0 && ws(s.last()) {
        trim_end(s.drop_last())
    } else {
        s
    }
}

/// `str::trim`: drops leading and trailing whitespace.
pub open spec fn trim(s: Seq<char>) -> Seq<char> {
    trim_end(trim_start(s))
}

/// Whether `i` is the position of the only `=` in `line`.
pub open spec fn single_equals_at(line: Seq<char>, i: int) -> bool {
    &&& 0 <= i < line.len()
    &&& line[i] == '='
    &&& forall|j: int| 0 <= j < line.len() && j != i ==> line[j] != '='
}

/// What a configuration line means: with exactly one `=`, the trimmed text on each
/// side of it is a key and its value; any other line is skipped.
pub open spec fn parse_line_spec(line: Seq<char>) -> Option<(Seq<char>, Seq<char>)> {
    if exists|i: int| single_equals_at(line, i) {
        let i = choose|i: int| single_equals_at(line, i);
        Some((trim(line.take(i)), trim(line.skip(i + 1))))
    } else {
        None
    }
}

proof fn lemma_trim_start(s: Seq<char>, a: int)
    requires
        0 <= a <= s.len(),
        forall|i: int| 0 <= i < a ==> ws(#[trigger] s[i]),
        a == s.len() || !ws(s[a]),
    ensures
        trim_start(s) == s.skip(a),
    decreases a,
{
    if a == 0 {
        assert(s.skip(0) =~= s);
    } else {
        let t = s.drop_first();
        assert forall|i: int| 0 <= i < a - 1 implies ws(#[trigger] t[i]) by {
            assert(t[i] == s[i + 1]);
        }
        if a - 1 < t.len() {
            assert(t[a - 1] == s[a]);
        }
        lemma_trim_start(t, a - 1);
        assert(t.skip(a - 1) =~= s.skip(a));
    }
}

proof fn lemma_trim_end(s: Seq<char>, b: int)
    requires
        0 <= b <= s.len(),
        forall|i: int| b <= i < s.len() ==> ws(#[trigger] s[i]),
        b == 0 || !ws(s[b - 1]),
    ensures
        trim_end(s) == s.take(b),
    decreases s.len() - b,
{
    if b == s.len() {
        assert(s.take(b) =~= s);
    } else {
        let t = s.drop_last();
        assert forall|i: int| b <= i < t.len() implies ws(#[trigger] t[i]) by {
            assert(t[i] == s[i]);
        }
        if b > 0 {
            assert(t[b - 1] == s[b - 1]);
        }
        lemma_trim_end(t, b);
        assert(t.take(b) =~= s.take(b));
    }
}

/// The characters of a string.
pub fn chars_of(s: &str) -> (v: Vec<char>)
    ensures
        v@ == s@,
{
    let mut v: Vec<char> = Vec::new();
    for c in it: s.chars()
        invariant
            it.seq() == s@,
            v@ == it.seq().take(it.index() as int),
    {
        v.push(c);
        assert(v@ =~= it.seq().take(it.index() + 1));
    }
    assert(v@ =~= s@);
    v
}

/// The bounds of `s[from..to]` with whitespace trimmed from both ends.
fn trim_bounds(s: &Vec<char>, from: usize, to: usize) -> (r: (usize, usize))
    requires
        from <= to <= s@.len(),
    ensures
        from <= r.0 <= r.1 <= to,
        trim(s@.subrange(from as int, to as int)) == s@.subrange(r.0 as int, r.1 as int),
{
    let ghost t = s@.subrange(from as int, to as int);
    let mut a = from;
    while a < to
        invariant
            from <= a <= to <= s@.len(),
            t == s@.subrange(from as int, to as int),
            forall|i: int| 0 <= i < a - from ==> ws(#[trigger] t[i]),
        ensures
            from <= a <= to,
            forall|i: int| 0 <= i < a - from ==> ws(#[trigger] t[i]),
            a < to ==> !ws(t[a - from]),
        decreases to - a,
    {
        if !char_is_white_space(s[a]) {
            assert(t[a - from] == s@[a as int]);
            break;
        }
        assert(t[a - from] == s@[a as int]);
        a = a + 1;
    }
    proof {
        lemma_trim_start(t, a - from);
    }
    let ghost u = t.skip(a - from);
    assert(u =~= s@.subrange(a as int, to as int));
    let mut b = to;
    while b > a
        invariant
            a <= b <= to <= s@.len(),
            u == s@.subrange(a as int, to as int),
            forall|i: int| b - a <= i < u.len() ==> ws(#[trigger] u[i]),
        ensures
            a <= b <= to,
            forall|i: int| b - a <= i < u.len() ==> ws(#[trigger] u[i]),
            b > a ==> !ws(u[b - a - 1]),
        decreases b - a,
    {
        if !char_is_white_space(s[b - 1]) {
            assert(u[b - a - 1] == s@[b - 1]);
            break;
        }
        assert(u[b - a - 1] == s@[b - 1]);
        b = b - 1;
    }
    proof {
        lemma_trim_end(u, b - a);
        assert(u.take(b - a) =~= s@.subrange(a as int, b as int));
    }
    (a, b)
}

/// Reads one configuration line: `Some((key, value))` when it holds exactly one
/// `=`, with whitespace trimmed from both sides; `None` otherwise.
pub fn parse_line(line: &str) -> (r: Option<(String, String)>)
    ensures
        match r {
            Some((k, v)) => parse_line_spec(line@) == Some((k@, v@)),
            None => parse_line_spec(line@) is None,
        },
{
    let s = chars_of(line);
    let n = s.len();
    let mut count: usize = 0;
    let mut pos: usize = 0;
    let mut i: usize = 0;
    while i < n
        invariant
            n == s@.len(),
            s@ == line@,
            i <= n,
            count <= 2,
            count == 0 ==> forall|j: int| 0 <= j < i ==> s@[j] != '=',
            count == 1 ==> pos < i && s@[pos as int] == '=' && forall|j: int|
                0 <= j < i && j != pos ==> s@[j] != '=',
            count == 2 ==> pos < i && s@[pos as int] == '=' && exists|j: int|
                0 <= j < i && j != pos && s@[j] == '=',
        decreases n - i,
    {
        if s[i] == '=' {
            if count == 0 {
                pos = i;
                count = 1;
            } else if count == 1 {
                count = 2;
                assert(s@[i as int] == '=');
            }
        }
        i = i + 1;
    }
    if count != 1 {
        proof {
            if count == 2 {
                let j = choose|j: int| 0 <= j < n && j != pos && s@[j] == '=';
                assert forall|k: int| !single_equals_at(line@, k) by {
                    if single_equals_at(line@, k) {
                        if k != pos {
                            assert(line@[pos as int] != '=');
                        } else {
                            assert(line@[j] != '=');
                        }
                    }
                }
            }
        }
        return None;
    }
    assert(single_equals_at(line@, pos as int));
    let ghost chosen = choose|k: int| single_equals_at(line@, k);
    assert(chosen == pos) by {
        if chosen != pos {
            assert(line@[pos as int] != '=');
        }
    }
    let (ka, kb) = trim_bounds(&s, 0, pos);
    let (va, vb) = trim_bounds(&s, pos + 1, n);
    assert(s@.subrange(0, pos as int) =~= line@.take(pos as int));
    assert(s@.subrange(pos + 1, n as int) =~= line@.skip(pos + 1));
    let key = line.substring_char(ka, kb).to_owned();
    let value = line.substring_char(va, vb).to_owned();
    Some((key, value))
}

/// Where the first newline of `s` is, or -1 when there is none.
pub open spec fn newline_index(s: Seq<char>) -> int
    decreases s.len(),
{
    if s.len() == 0 {
        -1
    } else if s[0] == '\n' {
        0
    } else {
        let r = newline_index(s.drop_first());
        if r < 0 {
            -1
        } else {
            r + 1
        }
    }
}

/// A line without the carriage return before its newline.
pub open spec fn strip_cr(line: Seq<char>) -> Seq<char> {
    if line.len() > 0 && line.last() == '\r' {
        line.drop_last()
    } else {
        line
    }
}

/// `str::lines`: the text cut at each `\n` (a `\r` before it goes too); a final
/// line ending is optional and makes no empty line after it.
pub open spec fn lines(s: Seq<char>) -> Seq<Seq<char>>
    decreases s.len(),
{
    if s.len() == 0 {
        Seq::empty()
    } else {
        let i = newline_index(s);
        if i < 0 || i >= s.len() {
            seq![s]
        } else {
            seq![strip_cr(s.take(i))] + lines(s.skip(i + 1))
        }
    }
}

/// The settings that a sequence of lines defines: each valid line sets its key,
/// a later line for the same key wins, and other lines are skipped.
pub open spec fn settings(ls: Seq<Seq<char>>) -> Map<Seq<char>, Seq<char>>
    decreases ls.len(),
{
    if ls.len() == 0 {
        Map::empty()
    } else {
        let m = settings(ls.drop_last());
        match parse_line_spec(ls.last()) {
            Some((k, v)) => m.insert(k, v),
            None => m,
        }
    }
}

/// The settings of a configuration text.
pub open spec fn config_settings(text: Seq<char>) -> Map<Seq<char>, Seq<char>> {
    settings(lines(text))
}

proof fn lemma_newline_index(t: Seq<char>, k: int)
    requires
        0 <= k <= t.len(),
        forall|j: int| 0 <= j < k ==> t[j] != '\n',
        k == t.len() || t[k] == '\n',
    ensures
        newline_index(t) == (if k == t.len() {
            -1
        } else {
            k
        }),
    decreases k,
{
    if t.len() == 0 {
    } else if k == 0 {
    } else {
        let u = t.drop_first();
        assert forall|j: int| 0 <= j < k - 1 implies u[j] != '\n' by {
            assert(u[j] == t[j + 1]);
        }
        if k < t.len() {
            assert(u[k - 1] == t[k]);
        }
        assert(t[0] != '\n');
        lemma_newline_index(u, k - 1);
    }
}

/// A valid line sets its key to its value, whatever came before: the last line for
/// a key wins.
pub proof fn law_last_line_wins(
    before: Seq<Seq<char>>,
    line: Seq<char>,
    key: Seq<char>,
    value: Seq<char>,
)
    requires
        parse_line_spec(line) == Some((key, value)),
    ensures
        settings(before.push(line)).contains_key(key),
        settings(before.push(line))[key] == value,
{
    assert(before.push(line).drop_last() =~= before);
}

/// A line that is not `KEY=VALUE` changes nothing.
pub proof fn law_invalid_line_skipped(before: Seq<Seq<char>>, line: Seq<char>)
    requires
        parse_line_spec(line) is None,
    ensures
        settings(before.push(line)) == settings(before),
{
    assert(before.push(line).drop_last() =~= before);
}

/// Whether the line `l` sets `key`.
pub open spec fn line_sets(l: Seq<char>, key: Seq<char>) -> bool {
    parse_line_spec(l) matches Some((k, _)) && k == key
}

/// Whether some line of `ls` sets `key`.
pub open spec fn sets_key(ls: Seq<Seq<char>>, key: Seq<char>) -> bool {
    exists|i: int| 0 <= i < ls.len() && #[trigger] line_sets(ls[i], key)
}

proof fn lemma_newline_index_bounds(x: Seq<char>)
    ensures
        newline_index(x) == -1 ==> forall|j: int| 0 <= j < x.len() ==> x[j] != '\n',
        newline_index(x) != -1 ==> {
            &&& 0 <= newline_index(x) < x.len()
            &&& x[newline_index(x)] == '\n'
            &&& forall|j: int| 0 <= j < newline_index(x) ==> x[j] != '\n'
        },
    decreases x.len(),
{
    if x.len() > 0 && x[0] != '\n' {
        let u = x.drop_first();
        lemma_newline_index_bounds(u);
        assert forall|j: int| 0 < j < x.len() implies x[j] == u[j - 1] by {}
    }
}

/// A text cut after a newline: its lines are those up to and including that
/// newline, then those after it.
proof fn lemma_lines_split(x: Seq<char>, y: Seq<char>)
    ensures
        lines(x + seq!['\n'] + y) == lines(x + seq!['\n']) + lines(y),
    decreases x.len(),
{
    let nl = seq!['\n'];
    let s = x + nl + y;
    let xn = x + nl;
    lemma_newline_index_bounds(x);
    let i = newline_index(x);
    if i == -1 {
        let k = x.len() as int;
        assert forall|j: int| 0 <= j < k implies s[j] != '\n' by {
            assert(s[j] == x[j]);
        }
        assert forall|j: int| 0 <= j < k implies xn[j] != '\n' by {
            assert(xn[j] == x[j]);
        }
        lemma_newline_index(s, k);
        lemma_newline_index(xn, k);
        assert(s.take(k) =~= x);
        assert(xn.take(k) =~= x);
        assert(s.skip(k + 1) =~= y);
        assert(xn.skip(k + 1) =~= Seq::<char>::empty());
        assert(lines(Seq::<char>::empty()) == Seq::<Seq<char>>::empty());
        assert(lines(xn) =~= seq![strip_cr(x)]);
    } else {
        assert forall|j: int| 0 <= j < i implies s[j] != '\n' by {
            assert(s[j] == x[j]);
        }
        assert forall|j: int| 0 <= j < i implies xn[j] != '\n' by {
            assert(xn[j] == x[j]);
        }
        assert(s[i] == x[i] && xn[i] == x[i]);
        lemma_newline_index(s, i);
        lemma_newline_index(xn, i);
        let rest = x.skip(i + 1);
        assert(s.take(i) =~= x.take(i));
        assert(xn.take(i) =~= x.take(i));
        assert(s.skip(i + 1) =~= rest + nl + y);
        assert(xn.skip(i + 1) =~= rest + nl);
        lemma_lines_split(rest, y);
        assert(lines(s) =~= lines(xn) + lines(y));
    }
}

proof fn lemma_settings_untouched(ls1: Seq<Seq<char>>, ls2: Seq<Seq<char>>, key: Seq<char>)
    requires
        !sets_key(ls2, key),
    ensures
        settings(ls1 + ls2).contains_key(key) == settings(ls1).contains_key(key),
        settings(ls1).contains_key(key) ==> settings(ls1 + ls2)[key] == settings(ls1)[key],
    decreases ls2.len(),
{
    if ls2.len() == 0 {
        assert(ls1 + ls2 =~= ls1);
    } else {
        let init = ls2.drop_last();
        assert(!sets_key(init, key)) by {
            if sets_key(init, key) {
                let i = choose|i: int| 0 <= i < init.len() && #[trigger] line_sets(init[i], key);
                assert(line_sets(ls2[i], key));
            }
        }
        assert(!line_sets(ls2.last(), key)) by {
            if line_sets(ls2.last(), key) {
                assert(line_sets(ls2[ls2.len() - 1], key));
            }
        }
        lemma_settings_untouched(ls1, init, key);
        assert((ls1 + ls2).drop_last() =~= ls1 + init);
        assert((ls1 + ls2).last() == ls2.last());
    }
}

/// Every line of a configuration text counts, wherever it stands: a `KEY=VALUE`
/// line between two newlines sets its key to its value unless a line after it
/// sets that key again, whatever comes before it (blank lines included).
pub proof fn law_every_line_counts(
    before: Seq<char>,
    line: Seq<char>,
    after: Seq<char>,
    key: Seq<char>,
    value: Seq<char>,
)
    requires
        forall|j: int| 0 <= j < line.len() ==> line[j] != '\n',
        parse_line_spec(strip_cr(line)) == Some((key, value)),
        !sets_key(lines(after), key),
    ensures
        config_settings(before + seq!['\n'] + line + seq!['\n'] + after).contains_key(key),
        config_settings(before + seq!['\n'] + line + seq!['\n'] + after)[key] == value,
{
    let nl = seq!['\n'];
    let text = before + nl + line + nl + after;
    let tail = line + nl + after;
    assert(text =~= before + nl + tail);
    lemma_lines_split(before, tail);
    lemma_lines_split(line, after);
    let ln = line + nl;
    let k = line.len() as int;
    assert forall|j: int| 0 <= j < k implies ln[j] != '\n' by {
        assert(ln[j] == line[j]);
    }
    lemma_newline_index(ln, k);
    assert(ln.take(k) =~= line);
    assert(ln.skip(k + 1) =~= Seq::<char>::empty());
    assert(lines(Seq::<char>::empty()) == Seq::<Seq<char>>::empty());
    assert(lines(ln) =~= seq![strip_cr(line)]);
    let head = lines(before + nl).push(strip_cr(line));
    assert(lines(text) =~= head + lines(after));
    assert(head.drop_last() =~= lines(before + nl));
    lemma_settings_untouched(head, lines(after), key);
}

/// Key/value pairs with distinct keys, and the map they stand for.
spec fn entries_model(e: Seq<(String, String)>, m: Map<Seq<char>, Seq<char>>) -> bool {
    &&& forall|i: int|
        0 <= i < e.len() ==> #[trigger] m.contains_key(e[i].0@) && m[e[i].0@] == e[i].1@
    &&& forall|k: Seq<char>| #[trigger]
        m.contains_key(k) ==> exists|i: int| 0 <= i < e.len() && #[trigger] e[i].0@ == k
    &&& forall|i: int, j: int|
        0 <= i < e.len() && 0 <= j < e.len() && i != j ==> #[trigger] e[i].0@ != #[trigger] e[j].0@
}

fn find_key(e: &Vec<(String, String)>, key: &String) -> (r: Option<usize>)
    ensures
        match r {
            Some(i) => i < e@.len() && e@[i as int].0@ == key@,
            None => forall|i: int| 0 <= i < e@.len() ==> #[trigger] e@[i].0@ != key@,
        },
{
    let n = e.len();
    let mut i: usize = 0;
    while i < n
        invariant
            n == e@.len(),
            i <= n,
            forall|j: int| 0 <= j < i ==> #[trigger] e@[j].0@ != key@,
        decreases n - i,
    {
        if e[i].0 == *key {
            return Some(i);
        }
        i = i + 1;
    }
    None
}

fn put(e: &mut Vec<(String, String)>, Ghost(m): Ghost<Map<Seq<char>, Seq<char>>>, key: String, value: String)
    requires
        entries_model(old(e)@, m),
    ensures
        entries_model(final(e)@, m.insert(key@, value@)),
{
    let ghost k = key@;
    let ghost v = value@;
    let ghost m1 = m.insert(k, v);
    let ghost e0 = e@;
    match find_key(e, &key) {
        Some(i) => {
            e.set(i, (key, value));
            proof {
                assert forall|x: int| 0 <= x < e@.len() implies #[trigger] m1.contains_key(e@[x].0@)
                    && m1[e@[x].0@] == e@[x].1@ by {
                    if x != i {
                        assert(e@[x] == e0[x]);
                        assert(e0[x].0@ != e0[i as int].0@);
                    }
                }
                assert forall|kk: Seq<char>| #[trigger] m1.contains_key(kk) implies exists|x: int|
                    0 <= x < e@.len() && #[trigger] e@[x].0@ == kk by {
                    if kk == k {
                        assert(e@[i as int].0@ == kk);
                    } else {
                        let x = choose|x: int| 0 <= x < e0.len() && #[trigger] e0[x].0@ == kk;
                        assert(e@[x] == e0[x]);
                    }
                }
                assert forall|x: int, y: int|
                    0 <= x < e@.len() && 0 <= y < e@.len() && x != y implies #[trigger] e@[x].0@
                    != #[trigger] e@[y].0@ by {
                    if x != i && y != i {
                        assert(e@[x] == e0[x] && e@[y] == e0[y]);
                    } else if x == i {
                        assert(e@[y] == e0[y]);
                        assert(e0[y].0@ != e0[i as int].0@);
                    } else {
                        assert(e@[x] == e0[x]);
                        assert(e0[x].0@ != e0[i as int].0@);
                    }
                }
            }
        },
        None => {
            e.push((key, value));
            proof {
                let n = e0.len() as int;
                assert forall|x: int| 0 <= x < e@.len() implies #[trigger] m1.contains_key(e@[x].0@)
                    && m1[e@[x].0@] == e@[x].1@ by {
                    if x < n {
                        assert(e@[x] == e0[x]);
                    }
                }
                assert forall|kk: Seq<char>| #[trigger] m1.contains_key(kk) implies exists|x: int|
                    0 <= x < e@.len() && #[trigger] e@[x].0@ == kk by {
                    if kk == k {
                        assert(e@[n].0@ == kk);
                    } else {
                        let x = choose|x: int| 0 <= x < e0.len() && #[trigger] e0[x].0@ == kk;
                        assert(e@[x] == e0[x]);
                    }
                }
                assert forall|x: int, y: int|
                    0 <= x < e@.len() && 0 <= y < e@.len() && x != y implies #[trigger] e@[x].0@
                    != #[trigger] e@[y].0@ by {
                    if x < n && y < n {
                        assert(e@[x] == e0[x] && e@[y] == e0[y]);
                    } else if x == n {
                        assert(e@[y] == e0[y]);
                    } else {
                        assert(e@[x] == e0[x]);
                    }
                }
            }
        },
    }
}

/// The settings read from a configuration file.
pub struct Config {
    entries: Vec<(String, String)>,
    settings: Ghost<Map<Seq<char>, Seq<char>>>,
}

/// Where the server listens: borrowed from the configuration.
pub struct ServerConfig<'a> {
    pub port: &'a String,
    pub host: &'a String,
}

/// How the cache is sharded.
pub struct StorageConfig {
    pub shard_count: usize,
}

impl View for Config {
    type V = Map<Seq<char>, Seq<char>>;

    closed spec fn view(&self) -> Map<Seq<char>, Seq<char>> {
        self.settings@
    }
}

/// The shard count that the `SHARD_COUNT` setting gives, if it is a `usize`.
pub open spec fn shard_count_of(m: Map<Seq<char>, Seq<char>>) -> Option<nat> {
    if m.contains_key("SHARD_COUNT"@) {
        parse_unsigned(encode_utf8(m["SHARD_COUNT"@]), usize::MAX as nat)
    } else {
        None
    }
}

impl Config {
    #[verifier::type_invariant]
    spec fn consistent(&self) -> bool {
        entries_model(self.entries@, self.settings@)
    }

    /// Reads the settings out of a configuration text: one `KEY=VALUE` per line.
    pub fn from_contents(contents: &str) -> (c: Config)
        ensures
            c@ == config_settings(contents@),
    {
        let s = chars_of(contents);
        let n = s.len();
        let mut entries: Vec<(String, String)> = Vec::new();
        let ghost mut done: Seq<Seq<char>> = Seq::empty();
        let mut p: usize = 0;
        assert(s@.skip(0) =~= s@);
        while p < n
            invariant
                n == s@.len(),
                s@ == contents@,
                p <= n,
                lines(s@) == done + lines(s@.skip(p as int)),
                entries_model(entries@, settings(done)),
            decreases n - p,
        {
            let ghost t = s@.skip(p as int);
            let mut i = p;
            while i < n
                invariant
                    p <= i <= n,
                    n == s@.len(),
                    t == s@.skip(p as int),
                    forall|j: int| 0 <= j < i - p ==> t[j] != '\n',
                ensures
                    p <= i <= n,
                    forall|j: int| 0 <= j < i - p ==> t[j] != '\n',
                    i < n ==> t[i - p] == '\n',
                decreases n - i,
            {
                if s[i] == '\n' {
                    assert(t[i - p] == s@[i as int]);
                    break;
                }
                assert(t[i - p] == s@[i as int]);
                i = i + 1;
            }
            proof {
                lemma_newline_index(t, i - p);
            }
            let mut e = i;
            if i < n && e > p && s[e - 1] == '\r' {
                e = e - 1;
            }
            let ghost line = if i < n {
                strip_cr(t.take(i - p))
            } else {
                t
            };
            assert(line =~= s@.subrange(p as int, e as int));
            let text = contents.substring_char(p, e);
            let ghost before = done;
            match parse_line(text) {
                Some((k, v)) => {
                    put(&mut entries, Ghost(settings(done)), k, v);
                },
                None => {},
            }
            proof {
                done = done.push(line);
                assert(done.drop_last() =~= before);
                if i < n {
                    assert(t.skip(i - p + 1) =~= s@.skip(i + 1));
                    assert(lines(t) == seq![line] + lines(s@.skip(i + 1)));
                    assert(lines(s@) =~= done + lines(s@.skip(i + 1)));
                } else {
                    assert(lines(t) == seq![line]);
                    assert(s@.skip(n as int) =~= Seq::<char>::empty());
                    assert(lines(s@) =~= done + lines(s@.skip(n as int)));
                }
            }
            p = if i < n {
                i + 1
            } else {
                n
            };
        }
        assert(s@.skip(n as int) =~= Seq::<char>::empty());
        assert(done =~= lines(s@));
        Config { entries, settings: Ghost(settings(done)) }
    }

    /// The value set for `key`, if any.
    pub fn get(&self, key: &String) -> (r: Option<&String>)
        ensures
            match r {
                Some(v) => self@.contains_key(key@) && v@ == self@[key@],
                None => !self@.contains_key(key@),
            },
    {
        proof {
            use_type_invariant(self);
        }
        match find_key(&self.entries, key) {
            Some(i) => {
                assert(self@.contains_key(self.entries@[i as int].0@));
                Some(&self.entries[i].1)
            },
            None => {
                proof {
                    if self@.contains_key(key@) {
                        let x = choose|x: int|
                            0 <= x < self.entries@.len() && #[trigger] self.entries@[x].0@ == key@;
                    }
                }
                None
            },
        }
    }

    /// Where to listen: the `PORT` and `HOST` settings, when both are there.
    pub fn get_server_cfg<'a>(&'a self) -> (r: Option<ServerConfig<'a>>)
        ensures
            match r {
                Some(c) => {
                    &&& self@.contains_key("PORT"@)
                    &&& self@.contains_key("HOST"@)
                    &&& c.port@ == self@["PORT"@]
                    &&& c.host@ == self@["HOST"@]
                },
                None => !(self@.contains_key("PORT"@) && self@.contains_key("HOST"@)),
            },
    {
        let port = self.get(&"PORT".to_owned())?;
        let host = self.get(&"HOST".to_owned())?;
        Some(ServerConfig { port, host })
    }

    /// How many shards to use: the `SHARD_COUNT` setting, when it is there and reads
    /// as a `usize`.
    pub fn get_storage_cfg(&self) -> (r: Option<StorageConfig>)
        ensures
            match r {
                Some(c) => shard_count_of(self@) == Some(c.shard_count as nat),
                None => shard_count_of(self@) is None,
            },
    {
        let value = self.get(&"SHARD_COUNT".to_owned())?;
        let bytes = value.as_str().as_bytes();
        match parse_u128(bytes, 0, bytes.len()) {
            Some(v) => {
                assert(bytes@.subrange(0, bytes@.len() as int) =~= bytes@);
                if v <= usize::MAX as u128 {
                    Some(StorageConfig { shard_count: v as usize })
                } else {
                    None
                }
            },
            None => {
                assert(bytes@.subrange(0, bytes@.len() as int) =~= bytes@);
                None
            },
        }
    }
}

} // verus!
