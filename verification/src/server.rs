//! Cutting the bytes a client sends into command lines.
use vstd::prelude::*;
use bytes::{Bytes, BytesMut};
use crate::buffers::{
    bytes_as_slice, bytes_content, bytes_mut_as_slice, bytes_mut_content, bytes_mut_freeze,
    bytes_mut_split_to, bytes_slice,
};

verus! {

/// What the front of a connection's read buffer holds.
pub enum Frame {
    /// No complete line yet: the buffer is left as it was.
    Incomplete,
    /// A line with nothing on it, now consumed.
    Blank,
    /// A command line, now consumed, without its line ending.
    Command(Bytes),
}

/// Whether `i` is the position of the first newline in `s`.
pub open spec fn first_newline(s: Seq<u8>, i: int) -> bool {
    &&& 0 <= i < s.len()
    &&& s[i] == 0x0a
    &&& forall|j: int| 0 <= j < i ==> s[j] != 0x0a
}

/// Whether `s` holds a newline.
pub open spec fn has_newline(s: Seq<u8>) -> bool {
    exists|i: int| 0 <= i < s.len() && s[i] == 0x0a
}

/// A line without its line ending: one trailing carriage return is dropped too.
pub open spec fn line_body(line: Seq<u8>) -> Seq<u8> {
    if line.len() > 0 && line.last() == 0x0d {
        line.drop_last()
    } else {
        line
    }
}

/// The commands a connection's bytes hold, and what is left after the last newline:
/// each complete line in order, without its line ending, blank lines skipped.
pub open spec fn drain(s: Seq<u8>) -> (Seq<Seq<u8>>, Seq<u8>)
    decreases s.len(),
{
    if exists|i: int| first_newline(s, i) {
        let i = choose|i: int| first_newline(s, i);
        let body = line_body(s.take(i));
        let rest = drain(s.skip(i + 1));
        (
            if body.len() > 0 {
                seq![body] + rest.0
            } else {
                rest.0
            },
            rest.1,
        )
    } else {
        (Seq::empty(), s)
    }
}

/// The bytes of all the reads of a connection, one after another.
pub open spec fn joined(chunks: Seq<Seq<u8>>) -> Seq<u8>
    decreases chunks.len(),
{
    if chunks.len() == 0 {
        Seq::empty()
    } else {
        joined(chunks.drop_last()) + chunks.last()
    }
}

/// The commands a connection yields when each read is appended to what the
/// previous ones left and the buffer is then drained, and what is left at the end.
pub open spec fn drain_reads(chunks: Seq<Seq<u8>>) -> (Seq<Seq<u8>>, Seq<u8>)
    decreases chunks.len(),
{
    if chunks.len() == 0 {
        (Seq::empty(), Seq::empty())
    } else {
        let before = drain_reads(chunks.drop_last());
        let now = drain(before.1 + chunks.last());
        (before.0 + now.0, now.1)
    }
}

proof fn lemma_first_newline_unique(s: Seq<u8>, i: int, j: int)
    requires
        first_newline(s, i),
        first_newline(s, j),
    ensures
        i == j,
{
    if i < j {
        assert(s[i] != 0x0a);
    } else if j < i {
        assert(s[j] != 0x0a);
    }
}

proof fn lemma_first_newline_exists(s: Seq<u8>, j: int)
    requires
        0 <= j < s.len(),
        s[j] == 0x0a,
    ensures
        exists|i: int| first_newline(s, i),
    decreases j,
{
    if forall|k: int| 0 <= k < j ==> s[k] != 0x0a {
        assert(first_newline(s, j));
    } else {
        let k = choose|k: int| 0 <= k < j && s[k] == 0x0a;
        lemma_first_newline_exists(s, k);
    }
}

/// Draining the first line: the step that `next_frame` takes.
proof fn lemma_drain_step(s: Seq<u8>, i: int)
    requires
        first_newline(s, i),
    ensures
        drain(s).0 == (if line_body(s.take(i)).len() > 0 {
            seq![line_body(s.take(i))] + drain(s.skip(i + 1)).0
        } else {
            drain(s.skip(i + 1)).0
        }),
        drain(s).1 == drain(s.skip(i + 1)).1,
{
    let c = choose|k: int| first_newline(s, k);
    lemma_first_newline_unique(s, i, c);
}

/// However a client's bytes are cut into reads, the commands come out the same:
/// reading `a` and then `b` yields what reading `a + b` at once yields.
pub proof fn law_reads_split_anywhere(a: Seq<u8>, b: Seq<u8>)
    ensures
        drain(a + b).0 == drain(a).0 + drain(drain(a).1 + b).0,
        drain(a + b).1 == drain(drain(a).1 + b).1,
    decreases a.len(),
{
    if exists|i: int| first_newline(a, i) {
        let i = choose|i: int| first_newline(a, i);
        let ab = a + b;
        assert(first_newline(ab, i)) by {
            assert(ab[i] == a[i]);
            assert forall|j: int| 0 <= j < i implies ab[j] != 0x0a by {
                assert(ab[j] == a[j]);
            }
        }
        lemma_drain_step(a, i);
        lemma_drain_step(ab, i);
        assert(ab.take(i) =~= a.take(i));
        let rest = a.skip(i + 1);
        assert(ab.skip(i + 1) =~= rest + b);
        law_reads_split_anywhere(rest, b);
        let body = line_body(a.take(i));
        if body.len() > 0 {
            assert(seq![body] + drain(rest).0 + drain(drain(rest).1 + b).0 =~= seq![body] + (
            drain(rest).0 + drain(drain(rest).1 + b).0));
        }
    } else {
        assert forall|j: int| 0 <= j < a.len() implies a[j] != 0x0a by {
            if a[j] == 0x0a {
                lemma_first_newline_exists(a, j);
            }
        }
        assert(drain(a).0 + drain(a + b).0 =~= drain(a + b).0);
    }
}

/// A connection yields exactly the commands of all its bytes, in order, and keeps
/// exactly what follows its last newline, whatever the sizes of its reads.
pub proof fn law_reads_yield_every_line(chunks: Seq<Seq<u8>>)
    ensures
        drain_reads(chunks) == drain(joined(chunks)),
    decreases chunks.len(),
{
    if chunks.len() == 0 {
        assert(joined(chunks) =~= Seq::<u8>::empty());
        assert(!exists|i: int| first_newline(Seq::<u8>::empty(), i));
    } else {
        let init = chunks.drop_last();
        law_reads_yield_every_line(init);
        law_reads_split_anywhere(joined(init), chunks.last());
    }
}

/// Takes the first line out of a connection's read buffer, if a whole one is there.
pub fn next_frame(buf: &mut BytesMut) -> (f: Frame)
    ensures
        ({
            let s = bytes_mut_content(*old(buf));
            match f {
                Frame::Incomplete => !has_newline(s) && bytes_mut_content(*final(buf)) == s,
                Frame::Blank => exists|i: int|
                    #[trigger] first_newline(s, i) && bytes_mut_content(*final(buf)) == s.skip(i + 1)
                        && line_body(s.take(i)).len() == 0,
                Frame::Command(c) => exists|i: int|
                    #[trigger] first_newline(s, i) && bytes_mut_content(*final(buf)) == s.skip(i + 1)
                        && line_body(s.take(i)).len() > 0 && bytes_content(c) == line_body(s.take(i)),
            }
        }),
        ({
            let s = bytes_mut_content(*old(buf));
            let rest = bytes_mut_content(*final(buf));
            match f {
                Frame::Incomplete => drain(s) == (Seq::<Seq<u8>>::empty(), s),
                Frame::Blank => drain(s) == drain(rest),
                Frame::Command(c) => drain(s).0 == seq![bytes_content(c)] + drain(rest).0 && drain(s).1
                    == drain(rest).1,
            }
        }),
{
    let ghost s = bytes_mut_content(*buf);
    let data = bytes_mut_as_slice(buf);
    let n = data.len();
    let mut i: usize = 0;
    while i < n
        invariant
            n == data@.len(),
            data@ == s,
            i <= n,
            forall|j: int| 0 <= j < i ==> s[j] != 0x0a,
        ensures
            i <= n,
            forall|j: int| 0 <= j < i ==> s[j] != 0x0a,
            i < n ==> s[i as int] == 0x0a,
        decreases n - i,
    {
        if data[i] == 0x0a {
            break;
        }
        i = i + 1;
    }
    if i == n {
        assert(!has_newline(s));
        assert(!exists|k: int| first_newline(s, k));
        return Frame::Incomplete;
    }
    assert(first_newline(s, i as int));
    proof {
        lemma_drain_step(s, i as int);
    }
    let head = bytes_mut_split_to(buf, i + 1);
    let line = bytes_mut_freeze(head);
    let body = bytes_as_slice(&line);
    let mut len = i;
    if len > 0 && body[len - 1] == 0x0d {
        len = len - 1;
    }
    assert(s.subrange(0, i + 1).subrange(0, i as int) =~= s.take(i as int));
    assert(line_body(s.take(i as int)) =~= bytes_content(line).subrange(0, len as int));
    assert(bytes_mut_content(*buf) =~= s.skip(i + 1));
    if len == 0 {
        Frame::Blank
    } else {
        Frame::Command(bytes_slice(&line, 0, len))
    }
}

} // verus!
