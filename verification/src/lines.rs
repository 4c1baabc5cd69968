//! Splitting byte buffers into lines (on `\n`, as `slice::split` does: a
//! trailing newline yields a final empty line) and joining them back.
use vstd::prelude::*;

verus! {

pub open spec fn newline() -> u8 {
    10u8
}

/// The lines of `b`, split on `\n`. Always at least one line.
pub open spec fn split_lines(b: Seq<u8>) -> Seq<Seq<u8>>
    decreases b.len(),
{
    if b.len() == 0 {
        seq![Seq::<u8>::empty()]
    } else {
        let prev = split_lines(b.drop_last());
        if b.last() == newline() {
            prev.push(Seq::<u8>::empty())
        } else {
            prev.update(prev.len() - 1, prev.last().push(b.last()))
        }
    }
}

/// `ls[0] + "\n" + ls[1] + ... + ls[n-1]`.
pub open spec fn join_lines(ls: Seq<Seq<u8>>) -> Seq<u8>
    decreases ls.len(),
{
    if ls.len() == 0 {
        Seq::empty()
    } else if ls.len() == 1 {
        ls[0]
    } else {
        join_lines(ls.drop_last()) + seq![newline()] + ls.last()
    }
}

pub proof fn lemma_split_lines_nonempty(b: Seq<u8>)
    ensures
        split_lines(b).len() >= 1,
    decreases b.len(),
{
    if b.len() > 0 {
        lemma_split_lines_nonempty(b.drop_last());
    }
}

/// There is at most one more line than there are bytes.
pub proof fn lemma_split_lines_len(b: Seq<u8>)
    ensures
        split_lines(b).len() <= b.len() + 1,
    decreases b.len(),
{
    if b.len() > 0 {
        lemma_split_lines_len(b.drop_last());
        lemma_split_lines_nonempty(b.drop_last());
    } else {
        assert(split_lines(b).len() == 1);
    }
}

/// No line contains a newline.
pub proof fn lemma_split_lines_no_newline(b: Seq<u8>)
    ensures
        forall|i: int, j: int|
            0 <= i < split_lines(b).len() && 0 <= j < split_lines(b)[i].len() ==> split_lines(b)[i][j]
                != newline(),
    decreases b.len(),
{
    lemma_split_lines_nonempty(b);
    if b.len() > 0 {
        lemma_split_lines_no_newline(b.drop_last());
        lemma_split_lines_nonempty(b.drop_last());
    }
}

/// Joining the lines gives back the buffer.
pub proof fn lemma_join_split(b: Seq<u8>)
    ensures
        join_lines(split_lines(b)) == b,
    decreases b.len(),
{
    lemma_split_lines_nonempty(b);
    if b.len() > 0 {
        let prev = split_lines(b.drop_last());
        lemma_join_split(b.drop_last());
        lemma_split_lines_nonempty(b.drop_last());
        if b.last() == newline() {
            let cur = prev.push(Seq::<u8>::empty());
            assert(cur.drop_last() =~= prev);
            assert(join_lines(cur) == join_lines(prev) + seq![newline()] + Seq::<u8>::empty());
            assert(b =~= b.drop_last() + seq![newline()]);
        } else {
            let cur = prev.update(prev.len() - 1, prev.last().push(b.last()));
            if prev.len() == 1 {
                assert(b =~= b.drop_last().push(b.last()));
            } else {
                assert(cur.drop_last() =~= prev.drop_last());
                assert(join_lines(prev) == join_lines(prev.drop_last()) + seq![newline()] + prev.last());
                assert(b =~= b.drop_last().push(b.last()));
                assert(join_lines(cur) =~= join_lines(prev) + seq![b.last()]);
            }
        }
    }
}

/// Start and end offsets of every line of `b`, in order; line `k` is
/// `b[r[k].0 .. r[k].1]`.
pub fn line_bounds(b: &[u8]) -> (r: Vec<(usize, usize)>)
    ensures
        r@.len() == split_lines(b@).len(),
        forall|k: int|
            0 <= k < r@.len() ==> r@[k].0 <= r@[k].1 <= b@.len() && b@.subrange(
                #[trigger] r@[k].0 as int,
                r@[k].1 as int,
            ) == split_lines(b@)[k],
        forall|k: int| 0 <= k < r@.len() - 1 ==> (#[trigger] r@[k]).1 < b@.len() && b@[r@[k].1 as int] == newline(),
        r@.len() >= 1,
        r@[r@.len() - 1].1 == b@.len(),
{
    let mut r: Vec<(usize, usize)> = Vec::new();
    let mut start: usize = 0;
    let mut i: usize = 0;
    proof {
        assert(b@.take(0) =~= Seq::<u8>::empty());
    }
    while i < b.len()
        invariant
            0 <= start <= i <= b@.len(),
            split_lines(b@.take(i as int)).len() == r@.len() + 1,
            forall|k: int|
                0 <= k < r@.len() ==> r@[k].0 <= r@[k].1 < i && b@.subrange(
                    #[trigger] r@[k].0 as int,
                    r@[k].1 as int,
                ) == split_lines(b@.take(i as int))[k],
            forall|k: int| 0 <= k < r@.len() ==> (#[trigger] r@[k]).1 < i && b@[r@[k].1 as int] == newline(),
            b@.subrange(start as int, i as int) == split_lines(b@.take(i as int))[r@.len() as int],
        decreases b@.len() - i,
    {
        let ghost prev = split_lines(b@.take(i as int));
        assert(b@.take(i + 1).drop_last() =~= b@.take(i as int));
        assert(b@.take(i + 1).last() == b@[i as int]);
        if b[i] == 10u8 {
            r.push((start, i));
            start = i + 1;
            assert(b@.subrange(start as int, (i + 1) as int) =~= Seq::<u8>::empty());
        } else {
            assert(b@.subrange(start as int, (i + 1) as int) =~= b@.subrange(start as int, i as int).push(
                b@[i as int],
            ));
        }
        i = i + 1;
    }
    r.push((start, i));
    assert(b@.take(b@.len() as int) =~= b@);
    r
}

} // verus!
