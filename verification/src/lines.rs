//! Cutting a file's bytes into lines.

use vstd::prelude::*;

verus! {

/// The byte that ends a line.
pub const LINE_FEED: u8 = 0x0a;

/// The lines of `bytes`, in order. A line runs up to and including a line
/// feed; what follows the last line feed, if anything, is a line of its own.
///
/// Read byte by byte: a byte opens a new line when it is the first byte or
/// follows a line feed, and otherwise extends the line before it.
pub open spec fn lines_of(bytes: Seq<u8>) -> Seq<Seq<u8>>
    decreases bytes.len(),
{
    if bytes.len() == 0 {
        Seq::empty()
    } else {
        let before = lines_of(bytes.drop_last());
        if bytes.len() == 1 || bytes[bytes.len() - 2] == LINE_FEED {
            before.push(seq![bytes.last()])
        } else {
            before.update(before.len() - 1, before.last().push(bytes.last()))
        }
    }
}

/// `line` is a whole line: it is not empty and holds no line feed but,
/// possibly, as its last byte.
pub open spec fn is_line(line: Seq<u8>) -> bool {
    &&& line.len() > 0
    &&& forall|i: int| 0 <= i < line.len() - 1 ==> line[i] != LINE_FEED
}

/// `at` is where a line of `bytes` starts, or the end of `bytes`.
pub open spec fn is_line_start(bytes: Seq<u8>, at: int) -> bool {
    &&& 0 <= at <= bytes.len()
    &&& (at == 0 || at == bytes.len() || bytes[at - 1] == LINE_FEED)
}

/// The lines of `bytes` are its bytes and nothing else: put end to end they
/// give `bytes` back, each is a whole line, and each but the last ends in a
/// line feed. So none is empty, and a last line without a line feed is
/// a line like the others.
pub proof fn lemma_lines_partition(bytes: Seq<u8>)
    ensures
        lines_of(bytes).flatten() == bytes,
        bytes.len() > 0 ==> lines_of(bytes).len() > 0 && lines_of(bytes).last().len() > 0
            && lines_of(bytes).last().last() == bytes.last(),
        forall|i: int| 0 <= i < lines_of(bytes).len() ==> is_line(#[trigger] lines_of(bytes)[i]),
        forall|i: int|
            0 <= i < lines_of(bytes).len() - 1 ==> (#[trigger] lines_of(bytes)[i]).last()
                == LINE_FEED,
    decreases bytes.len(),
{
    if bytes.len() == 0 {
        assert(lines_of(bytes).flatten() =~= bytes);
    } else {
        let shorter = bytes.drop_last();
        let before = lines_of(shorter);
        let byte = bytes.last();
        lemma_lines_partition(shorter);
        assert(shorter.push(byte) =~= bytes);
        if bytes.len() == 1 || bytes[bytes.len() - 2] == LINE_FEED {
            let after = before.push(seq![byte]);
            before.lemma_flatten_push(seq![byte]);
            assert(after.flatten() =~= bytes);
            assert forall|i: int| 0 <= i < after.len() - 1 implies (#[trigger] after[i]).last()
                == LINE_FEED by {
                if i == before.len() - 1 {
                    assert(shorter.last() == bytes[bytes.len() - 2]);
                } else {
                    assert(after[i] == before[i]);
                }
            }
            assert forall|i: int| 0 <= i < after.len() implies is_line(#[trigger] after[i]) by {
                if i < before.len() {
                    assert(after[i] == before[i]);
                }
            }
        } else {
            let open = before.last();
            let after = before.update(before.len() - 1, open.push(byte));
            assert(shorter.last() == bytes[bytes.len() - 2]);
            assert(before =~= before.drop_last().push(open));
            assert(after =~= before.drop_last().push(open.push(byte)));
            before.drop_last().lemma_flatten_push(open);
            before.drop_last().lemma_flatten_push(open.push(byte));
            assert(after.flatten() =~= bytes);
            assert(is_line(before[before.len() - 1]));
            assert forall|i: int| 0 <= i < after.len() implies is_line(#[trigger] after[i]) by {
                if i < before.len() - 1 {
                    assert(after[i] == before[i]);
                }
            }
            assert forall|i: int| 0 <= i < after.len() - 1 implies (#[trigger] after[i]).last()
                == LINE_FEED by {
                assert(after[i] == before[i]);
            }
        }
    }
}

/// Opening a line at a line start: the first byte of the new line is a line
/// of its own after the lines before it.
pub proof fn lemma_line_opens(bytes: Seq<u8>, start: int)
    requires
        is_line_start(bytes, start),
        start < bytes.len(),
    ensures
        lines_of(bytes.take(start + 1)) == lines_of(bytes.take(start)).push(
            bytes.subrange(start, start + 1),
        ),
{
    let upto = bytes.take(start + 1);
    assert(upto.drop_last() =~= bytes.take(start));
    assert(bytes.subrange(start, start + 1) =~= seq![upto.last()]);
}

/// Extending an open line: a byte that follows anything but a line feed
/// joins the last line.
pub proof fn lemma_line_extends(bytes: Seq<u8>, done: Seq<Seq<u8>>, start: int, end: int)
    requires
        0 <= start < end < bytes.len(),
        bytes[end - 1] != LINE_FEED,
        lines_of(bytes.take(end)) == done.push(bytes.subrange(start, end)),
    ensures
        lines_of(bytes.take(end + 1)) == done.push(bytes.subrange(start, end + 1)),
{
    let upto = bytes.take(end + 1);
    assert(upto.drop_last() =~= bytes.take(end));
    let before = lines_of(upto.drop_last());
    assert(before.last() == bytes.subrange(start, end));
    assert(before.last().push(upto.last()) =~= bytes.subrange(start, end + 1));
    assert(before.update(before.len() - 1, bytes.subrange(start, end + 1)) =~= done.push(
        bytes.subrange(start, end + 1),
    ));
}

/// Finds where the line that starts at `start` ends: one past the first line
/// feed at or after `start`, or the end of `bytes` where no line feed follows.
pub fn line_end(bytes: &[u8], start: usize) -> (end: usize)
    ensures
        end <= bytes@.len(),
        start >= bytes@.len() ==> end == bytes@.len(),
        start < bytes@.len() ==> {
            &&& start < end
            &&& is_line(bytes@.subrange(start as int, end as int))
            &&& (end == bytes@.len() || bytes@[end - 1] == LINE_FEED)
        },
        is_line_start(bytes@, start as int) && start < bytes@.len() ==> lines_of(
            bytes@.take(end as int),
        ) == lines_of(bytes@.take(start as int)).push(bytes@.subrange(start as int, end as int)),
{
    let n: usize = bytes.len();
    if start >= n {
        return n;
    }
    let mut end: usize = start + 1;
    proof {
        if is_line_start(bytes@, start as int) {
            lemma_line_opens(bytes@, start as int);
        }
    }
    while end < n && bytes[end - 1] != LINE_FEED
        invariant
            n == bytes@.len(),
            start < end <= n,
            forall|i: int| start <= i < end - 1 ==> bytes@[i] != LINE_FEED,
            is_line_start(bytes@, start as int) ==> lines_of(bytes@.take(end as int)) == lines_of(
                bytes@.take(start as int),
            ).push(bytes@.subrange(start as int, end as int)),
        decreases n - end,
    {
        proof {
            if is_line_start(bytes@, start as int) {
                lemma_line_extends(
                    bytes@,
                    lines_of(bytes@.take(start as int)),
                    start as int,
                    end as int,
                );
            }
        }
        end += 1;
    }
    end
}

} // verus!
