//! How much memory the segments make up.
use vstd::prelude::*;
use vstd::set_lib;
use crate::segwalk;
use crate::state;
use crate::state::Seg;

verus! {

/// The addresses in the first `n` segments.
spec fn covered(segs: Seq<Seg>, n: int) -> Set<int>
    decreases n,
{
    if n <= 0 {
        Set::empty()
    } else {
        covered(segs, n - 1).union(
            set_lib::set_int_range(segs[n - 1].base, segs[n - 1].base + segs[n - 1].size),
        )
    }
}

proof fn lemma_covered(segs: Seq<Seg>, n: int)
    requires
        0 <= n <= segs.len(),
        forall|i: int|
            0 <= i < segs.len() ==> 0 <= (#[trigger] segs[i]).base && 0 <= segs[i].size
                && segs[i].base + segs[i].size <= usize::MAX,
        forall|i: int, j: int|
            0 <= i < j < segs.len() ==> state::segs_apart(#[trigger] segs[i], #[trigger] segs[j]),
    ensures
        covered(segs, n).finite(),
        covered(segs, n).len() == state::total(segs, n),
        forall|x: int| #[trigger]
            covered(segs, n).contains(x) ==> exists|i: int|
                0 <= i < n && segwalk::in_seg(#[trigger] segs[i], x),
    decreases n,
{
    if n > 0 {
        let g = segs[n - 1];
        let r = set_lib::set_int_range(g.base, g.base + g.size);
        lemma_covered(segs, n - 1);
        set_lib::lemma_int_range(g.base, g.base + g.size);
        assert(covered(segs, n - 1).disjoint(r)) by {
            assert forall|x: int| covered(segs, n - 1).contains(x) && r.contains(x) implies false by {
                let i = choose|i: int| 0 <= i < n - 1 && segwalk::in_seg(#[trigger] segs[i], x);
                assert(state::segs_apart(segs[i], segs[n - 1]));
            }
        }
        set_lib::lemma_set_disjoint_lens(covered(segs, n - 1), r);
        assert forall|x: int| #[trigger] covered(segs, n).contains(x) implies exists|i: int|
            0 <= i < n && segwalk::in_seg(#[trigger] segs[i], x) by {
            if r.contains(x) {
                assert(segwalk::in_seg(segs[n - 1], x));
            } else {
                assert(covered(segs, n - 1).contains(x));
                let i = choose|i: int| 0 <= i < n - 1 && segwalk::in_seg(#[trigger] segs[i], x);
                assert(segwalk::in_seg(segs[i], x));
            }
        }
    }
}

/// Segments that do not overlap are together no larger than memory.
pub proof fn lemma_total_bound(segs: Seq<Seg>)
    requires
        forall|i: int|
            0 <= i < segs.len() ==> 0 <= (#[trigger] segs[i]).base && 0 <= segs[i].size
                && segs[i].base + segs[i].size <= usize::MAX,
        forall|i: int, j: int|
            0 <= i < j < segs.len() ==> state::segs_apart(#[trigger] segs[i], #[trigger] segs[j]),
    ensures
        0 <= state::total(segs, segs.len() as int) <= usize::MAX,
{
    let n = segs.len() as int;
    lemma_covered(segs, n);
    let all = set_lib::set_int_range(0, usize::MAX as int);
    set_lib::lemma_int_range(0, usize::MAX as int);
    assert(covered(segs, n).subset_of(all)) by {
        assert forall|x: int| #[trigger] covered(segs, n).contains(x) implies all.contains(x) by {
            let i = choose|i: int| 0 <= i < n && segwalk::in_seg(#[trigger] segs[i], x);
            assert(segs[i].base <= x);
        }
    }
    set_lib::lemma_len_subset(covered(segs, n), all);
}

/// One segment has another size.
pub proof fn lemma_total_update(segs: Seq<Seg>, segs2: Seq<Seg>, n: int, j: int)
    requires
        0 <= n <= segs.len(),
        segs2.len() == segs.len(),
        0 <= j < segs.len(),
        forall|i: int| 0 <= i < segs.len() && i != j ==> (#[trigger] segs2[i]).size == segs[i].size,
    ensures
        state::total(segs2, n) == state::total(segs, n) + if j < n {
            segs2[j].size - segs[j].size
        } else {
            0
        },
    decreases n,
{
    if n > 0 {
        lemma_total_update(segs, segs2, n - 1, j);
    }
}

/// There is one more segment in front.
pub proof fn lemma_total_front(g: Seg, segs: Seq<Seg>, n: int)
    requires
        0 <= n <= segs.len(),
    ensures
        state::total(seq![g] + segs, n + 1) == g.size + state::total(segs, n),
    decreases n,
{
    let s2 = seq![g] + segs;
    if n > 0 {
        lemma_total_front(g, segs, n - 1);
        assert(s2[n] == segs[n - 1]);
    } else {
        assert(state::total(s2, 0) == 0);
        assert(s2[0] == g);
        assert(state::total(s2, 1) == state::total(s2, 0) + s2[0].size);
    }
}

/// One more segment behind does not matter to those in front.
pub proof fn lemma_total_prefix(segs: Seq<Seg>, segs2: Seq<Seg>, n: int)
    requires
        0 <= n <= segs.len(),
        n <= segs2.len(),
        forall|i: int| 0 <= i < n ==> (#[trigger] segs2[i]).size == segs[i].size,
    ensures
        state::total(segs2, n) == state::total(segs, n),
    decreases n,
{
    if n > 0 {
        lemma_total_prefix(segs, segs2, n - 1);
    }
}

} // verus!
