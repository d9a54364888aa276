//! The cells of a partition nest at one level, as slices of `lab`.
use vstd::prelude::*;

verus! {

/// Length of the cell that starts a `ptn` slice: one more than the number of
/// leading entries above `level`.
pub open spec fn run_len(ptn: Seq<usize>, level: usize) -> nat
    decreases ptn.len(),
{
    if ptn.len() == 0 {
        1
    } else if ptn[0] > level {
        1 + run_len(ptn.drop_first(), level)
    } else {
        1
    }
}

/// The cells of `lab` at `level`: maximal runs whose `ptn` entries are above
/// `level`, each closed by an entry at most `level`.
pub open spec fn spec_chunks(lab: Seq<usize>, ptn: Seq<usize>, level: usize) -> Seq<Seq<usize>>
    decreases lab.len(),
{
    if lab.len() == 0 {
        seq![]
    } else {
        let l = run_len(ptn, level);
        if l > lab.len() || l == 0 {
            seq![]
        } else {
            seq![lab.take(l as int)] + spec_chunks(lab.skip(l as int), ptn.skip(l as int), level)
        }
    }
}

/// A `ptn` slice whose last entry closes a cell at `level`, as the last entry
/// of every partition nest does.
pub open spec fn closes_at(ptn: Seq<usize>, level: usize) -> bool {
    ptn.len() > 0 ==> ptn.last() <= level
}

pub proof fn lemma_run_len(ptn: Seq<usize>, level: usize)
    requires
        closes_at(ptn, level),
        ptn.len() > 0,
    ensures
        1 <= run_len(ptn, level) <= ptn.len(),
        ptn[run_len(ptn, level) - 1] <= level,
        forall|k: int| 0 <= k < run_len(ptn, level) - 1 ==> ptn[k] > level,
        closes_at(ptn.skip(run_len(ptn, level) as int), level),
    decreases ptn.len(),
{
    if ptn[0] > level {
        lemma_run_len(ptn.drop_first(), level);
        assert forall|k: int| 0 <= k < run_len(ptn, level) - 1 implies ptn[k] > level by {
            if k > 0 {
                assert(ptn[k] == ptn.drop_first()[k - 1]);
            }
        }
        assert(ptn.skip(run_len(ptn, level) as int) =~= ptn.drop_first().skip(
            run_len(ptn.drop_first(), level) as int,
        ));
    }
}

/// The cells at `level` from a cell start `i` on: the first one is
/// `lab[i ..= e]`, where `e` is the first position from `i` on whose `ptn`
/// entry is at most `level`, and the cells from `e + 1` on follow it.
pub proof fn lemma_chunks_step(lab: Seq<usize>, ptn: Seq<usize>, level: usize, i: int, e: int)
    requires
        lab.len() == ptn.len(),
        0 <= i <= e < ptn.len(),
        ptn[e] <= level,
        forall|k: int| i <= k < e ==> #[trigger] ptn[k] > level,
    ensures
        spec_chunks(lab.skip(i), ptn.skip(i), level) == seq![lab.subrange(i, e + 1)] + spec_chunks(
            lab.skip(e + 1),
            ptn.skip(e + 1),
            level,
        ),
{
    let p = ptn.skip(i);
    assert forall|k: int| 0 <= k < e - i implies p[k] > level by {
        assert(p[k] == ptn[i + k]);
    }
    lemma_run_len_stop(p, level, e - i);
    assert(lab.skip(i).take(e - i + 1) =~= lab.subrange(i, e + 1));
    assert(lab.skip(i).skip(e - i + 1) =~= lab.skip(e + 1));
    assert(p.skip(e - i + 1) =~= ptn.skip(e + 1));
}

/// The cells at `level` are non-empty and, put one after the other, give
/// back the labels.
pub proof fn lemma_chunks_cover(lab: Seq<usize>, ptn: Seq<usize>, level: usize)
    requires
        lab.len() == ptn.len(),
        closes_at(ptn, level),
    ensures
        forall|t: int| 0 <= t < spec_chunks(lab, ptn, level).len() ==> #[trigger] spec_chunks(lab, ptn, level)[t].len()
            > 0,
        spec_chunks(lab, ptn, level).flatten() == lab,
    decreases lab.len(),
{
    let c = spec_chunks(lab, ptn, level);
    if lab.len() == 0 {
        assert(c.flatten() =~= lab);
    } else {
        lemma_run_len(ptn, level);
        let l = run_len(ptn, level) as int;
        lemma_chunks_cover(lab.skip(l), ptn.skip(l), level);
        let rest = spec_chunks(lab.skip(l), ptn.skip(l), level);
        assert(c == seq![lab.take(l)] + rest);
        assert(c.drop_first() =~= rest);
        assert(c.flatten() == c.first() + c.drop_first().flatten());
        assert(lab.take(l) + lab.skip(l) =~= lab);
        assert forall|t: int| 0 <= t < c.len() implies #[trigger] c[t].len() > 0 by {
            if t > 0 {
                assert(c[t] == rest[t - 1]);
            }
        }
    }
}

/// The cells of a partition nest at one level, one by one; iterators are
/// lazy and do nothing unless consumed.
#[must_use]
pub struct PartitionNestChunkBy<'a> {
    lab_slice: &'a [usize],
    ptn_slice: &'a [usize],
    level: usize,
}

impl<'a> PartitionNestChunkBy<'a> {
    /// The `lab` entries not yet returned.
    pub closed spec fn lab(self) -> Seq<usize> {
        self.lab_slice@
    }

    /// The `ptn` entries not yet passed.
    pub closed spec fn ptn(self) -> Seq<usize> {
        self.ptn_slice@
    }

    /// The level of the partition.
    pub closed spec fn level(self) -> usize {
        self.level
    }

    /// The cells not yet returned.
    pub open spec fn remaining(self) -> Seq<Seq<usize>> {
        spec_chunks(self.lab(), self.ptn(), self.level())
    }

    /// The cells of `lab_slice` at `level`.
    pub fn new(lab_slice: &'a [usize], ptn_slice: &'a [usize], level: usize) -> (r: Self)
        ensures
            r.lab() == lab_slice@,
            r.ptn() == ptn_slice@,
            r.level() == level,
    {
        Self { lab_slice, ptn_slice, level }
    }

    /// The next cell.
    pub fn next(&mut self) -> (r: Option<&'a [usize]>)
        requires
            old(self).lab().len() == old(self).ptn().len(),
            closes_at(old(self).ptn(), old(self).level()),
        ensures
            final(self).lab().len() == final(self).ptn().len(),
            closes_at(final(self).ptn(), final(self).level()),
            final(self).level() == old(self).level(),
            old(self).remaining().len() == 0 <==> r is None,
            r is None ==> final(self).remaining() == old(self).remaining(),
            r matches Some(c) ==> c@ == old(self).remaining()[0] && final(self).remaining()
                == old(self).remaining().drop_first(),
    {
        if self.lab_slice.len() == 0 {
            None
        } else {
            proof {
                lemma_run_len(self.ptn_slice@, self.level);
            }
            let mut len: usize = 1;
            let mut i: usize = 0;
            let ghost ptn = self.ptn_slice@;
            while i < self.ptn_slice.len()
                invariant
                    ptn == self.ptn_slice@,
                    ptn.len() > 0,
                    i <= ptn.len(),
                    len == i + 1,
                    forall|k: int| 0 <= k < i ==> ptn[k] > self.level,
                    i < run_len(ptn, self.level),
                    run_len(ptn, self.level) <= ptn.len(),
                ensures
                    len == run_len(ptn, self.level),
                decreases ptn.len() - i,
            {
                if self.ptn_slice[i] > self.level {
                    proof {
                        lemma_run_len_ge(ptn, self.level, i as int + 1);
                    }
                    len = len + 1;
                    i = i + 1;
                } else {
                    proof {
                        lemma_run_len_stop(ptn, self.level, i as int);
                    }
                    break;
                }
            }
            let ghost lab = self.lab_slice@;
            let ghost l = run_len(ptn, self.level);
            assert(len == l);
            assert(spec_chunks(lab, ptn, self.level) == seq![lab.take(l as int)] + spec_chunks(
                lab.skip(l as int),
                ptn.skip(l as int),
                self.level,
            ));
            let (lab_head, lab_tail) = self.lab_slice.split_at(len);
            self.lab_slice = lab_tail;
            let (_ptn_head, ptn_tail) = self.ptn_slice.split_at(len);
            self.ptn_slice = ptn_tail;
            assert(lab_head@ =~= lab.take(l as int));
            assert(self.lab_slice@ =~= lab.skip(l as int));
            assert(self.ptn_slice@ =~= ptn.skip(l as int));
            assert(self.remaining() =~= old(self).remaining().drop_first());
            Some(lab_head)
        }
    }
}

proof fn lemma_run_len_ge(ptn: Seq<usize>, level: usize, i: int)
    requires
        0 <= i <= ptn.len(),
        forall|k: int| 0 <= k < i ==> ptn[k] > level,
    ensures
        run_len(ptn, level) >= i + 1,
    decreases i,
{
    if i > 0 {
        lemma_run_len_ge(ptn.drop_first(), level, i - 1);
    }
}

proof fn lemma_run_len_stop(ptn: Seq<usize>, level: usize, i: int)
    requires
        0 <= i < ptn.len(),
        forall|k: int| 0 <= k < i ==> ptn[k] > level,
        ptn[i] <= level,
    ensures
        run_len(ptn, level) == i + 1,
    decreases i,
{
    if i > 0 {
        lemma_run_len_stop(ptn.drop_first(), level, i - 1);
    }
}

} // verus!
