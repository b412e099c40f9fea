//! Circular doubly linked lists in the columns of managed memory.
use vstd::prelude::*;

verus! {

/// The nodes of `n` are linked to a circle, in this order.
pub open spec fn ring(n: Seq<int>, nexts: Map<int, usize>, prevs: Map<int, usize>) -> bool {
    &&& forall|j: int|
        0 <= j < n.len() ==> #[trigger] nexts[n[j]] == if j + 1 < n.len() {
            n[j + 1]
        } else {
            n[0]
        }
    &&& forall|j: int|
        0 <= j < n.len() ==> #[trigger] prevs[n[j]] == if j > 0 {
            n[j - 1]
        } else {
            n[n.len() - 1]
        }
}

/// Links of nodes outside a circle do not matter to it.
pub proof fn lemma_ring_frame(
    n: Seq<int>,
    nexts: Map<int, usize>,
    prevs: Map<int, usize>,
    nexts2: Map<int, usize>,
    prevs2: Map<int, usize>,
)
    requires
        ring(n, nexts, prevs),
        forall|j: int| 0 <= j < n.len() ==> nexts2[#[trigger] n[j]] == nexts[n[j]],
        forall|j: int| 0 <= j < n.len() ==> prevs2[#[trigger] n[j]] == prevs[n[j]],
    ensures
        ring(n, nexts2, prevs2),
{
}

/// Puts `c` behind the last node of a circle.
pub proof fn lemma_ring_push(n: Seq<int>, c: usize, nexts: Map<int, usize>, prevs: Map<int, usize>)
    requires
        n.len() > 0,
        n.len() > 1 ==> ring(n, nexts, prevs),
        n.no_duplicates(),
        !n.contains(c as int),
        forall|j: int| 0 <= j < n.len() ==> 0 <= #[trigger] n[j] <= usize::MAX,
    ensures
        n.push(c as int).no_duplicates(),
        ring(
            n.push(c as int),
            nexts.insert(n.last(), c).insert(c as int, n[0] as usize),
            prevs.insert(n[0], c).insert(c as int, n.last() as usize),
        ),
{
    let m = n.push(c as int);
    let nx = nexts.insert(n.last(), c).insert(c as int, n[0] as usize);
    let pv = prevs.insert(n[0], c).insert(c as int, n.last() as usize);
    assert forall|j: int| 0 <= j < m.len() implies #[trigger] nx[m[j]] == if j + 1 < m.len() {
        m[j + 1]
    } else {
        m[0]
    } by {
        if j < n.len() {
            assert(n.contains(n[j]));
            if j < n.len() - 1 {
                assert(nexts[n[j]] == n[j + 1]);
            }
        }
    }
    assert forall|j: int| 0 <= j < m.len() implies #[trigger] pv[m[j]] == if j > 0 {
        m[j - 1]
    } else {
        m[m.len() - 1]
    } by {
        if j < n.len() {
            assert(n.contains(n[j]));
            if j > 0 {
                assert(prevs[n[j]] == n[j - 1]);
            }
        }
    }
}

/// Takes node `j` out of a circle of two or more.
pub proof fn lemma_ring_remove(n: Seq<int>, j: int, nexts: Map<int, usize>, prevs: Map<int, usize>)
    requires
        ring(n, nexts, prevs),
        n.no_duplicates(),
        n.len() > 1,
        0 <= j < n.len(),
    ensures
        ring(
            n.remove(j),
            nexts.insert(prevs[n[j]] as int, nexts[n[j]]),
            prevs.insert(nexts[n[j]] as int, prevs[n[j]]),
        ),
        n.remove(j).no_duplicates(),
        !n.remove(j).contains(n[j]),
{
    let m = n.remove(j);
    let f = prevs[n[j]];
    let b = nexts[n[j]];
    let nx = nexts.insert(f as int, b);
    let pv = prevs.insert(b as int, f);
    assert forall|i: int| 0 <= i < m.len() implies #[trigger] nx[m[i]] == if i + 1 < m.len() {
        m[i + 1]
    } else {
        m[0]
    } by {
        let o = if i < j { i } else { i + 1 };
        assert(m[i] == n[o]);
        assert(nexts[n[o]] == if o + 1 < n.len() { n[o + 1] } else { n[0] });
    }
    assert forall|i: int| 0 <= i < m.len() implies #[trigger] pv[m[i]] == if i > 0 {
        m[i - 1]
    } else {
        m[m.len() - 1]
    } by {
        let o = if i < j { i } else { i + 1 };
        assert(m[i] == n[o]);
        assert(prevs[n[o]] == if o > 0 { n[o - 1] } else { n[n.len() - 1] });
    }
}

/// The address that `k` links lead to from `b`.
pub open spec fn nth(links: Map<int, usize>, b: int, k: int) -> int
    decreases k,
{
    if k <= 0 {
        b
    } else {
        links[nth(links, b, k - 1)] as int
    }
}

/// Links lead from `b` to `p`.
pub open spec fn reaches(links: Map<int, usize>, b: int, p: int) -> bool {
    exists|k: int| 0 <= k && #[trigger] nth(links, b, k) == p
}

/// Links lead from `b` back to it.
pub open spec fn closes(links: Map<int, usize>, b: int) -> bool {
    exists|k: int| 1 <= k && #[trigger] nth(links, b, k) == b
}

/// A walk that comes back after `n` steps has seen all that there is to see.
pub proof fn lemma_seen(links: Map<int, usize>, b: int, n: int, k: int) -> (i: int)
    requires
        1 <= n,
        nth(links, b, n) == b,
        0 <= k,
    ensures
        0 <= i < n,
        nth(links, b, i) == nth(links, b, k),
    decreases k,
{
    if k == 0 {
        0
    } else {
        let j = lemma_seen(links, b, n, k - 1);
        assert(nth(links, b, j + 1) == nth(links, b, k));
        if j + 1 == n {
            0
        } else {
            j + 1
        }
    }
}

/// After the same address twice, a walk sees nothing new.
proof fn lemma_caught(links: Map<int, usize>, b: int, h: int, k: int, m: int) -> (i: int)
    requires
        0 <= h < k <= m,
        nth(links, b, h) == nth(links, b, k),
    ensures
        h <= i < k,
        nth(links, b, i) == nth(links, b, m),
    decreases m,
{
    if m == k {
        h
    } else {
        let j = lemma_caught(links, b, h, k, m - 1);
        assert(nth(links, b, j + 1) == nth(links, b, m));
        if j + 1 == k {
            h
        } else {
            j + 1
        }
    }
}

/// A walk that comes back sees no address twice on its way.
pub proof fn lemma_once(links: Map<int, usize>, b: int, h: int, k: int)
    requires
        closes(links, b),
        0 <= h < k,
        forall|i: int| 1 <= i <= k ==> #[trigger] nth(links, b, i) != b,
    ensures
        nth(links, b, h) != nth(links, b, k),
{
    if nth(links, b, h) == nth(links, b, k) {
        let n = choose|n: int| 1 <= n && #[trigger] nth(links, b, n) == b;
        let i = lemma_caught(links, b, h, k, n);
        if i == 0 {
            assert(h == 0);
            assert(nth(links, b, k) == b);
        }
    }
}

/// A circle comes back both ways, and no link leads out of it.
pub proof fn lemma_ring_closes(n: Seq<int>, nexts: Map<int, usize>, prevs: Map<int, usize>)
    requires
        ring(n, nexts, prevs),
        n.len() > 0,
    ensures
        closes(nexts, n[0]),
        closes(prevs, n[0]),
        forall|p: int| #[trigger] reaches(nexts, n[0], p) <==> n.contains(p),
        forall|p: int| #[trigger] reaches(prevs, n[0], p) <==> n.contains(p),
{
    let z = n.len() as int;
    lemma_ring_nexts(n, nexts, prevs, z);
    lemma_ring_prevs(n, nexts, prevs, z);
    assert(nth(nexts, n[0], z) == n[0]);
    assert(nth(prevs, n[0], z) == n[0]);
    assert forall|p: int| #[trigger] reaches(nexts, n[0], p) <==> n.contains(p) by {
        if reaches(nexts, n[0], p) {
            let k = choose|k: int| 0 <= k && #[trigger] nth(nexts, n[0], k) == p;
            let i = lemma_seen(nexts, n[0], z, k);
            lemma_ring_nexts(n, nexts, prevs, i);
        }
        if n.contains(p) {
            let i = choose|i: int| 0 <= i < n.len() && n[i] == p;
            lemma_ring_nexts(n, nexts, prevs, i);
        }
    }
    assert forall|p: int| #[trigger] reaches(prevs, n[0], p) <==> n.contains(p) by {
        if reaches(prevs, n[0], p) {
            let k = choose|k: int| 0 <= k && #[trigger] nth(prevs, n[0], k) == p;
            let i = lemma_seen(prevs, n[0], z, k);
            lemma_ring_prevs(n, nexts, prevs, i);
        }
        if n.contains(p) {
            let i = choose|i: int| 0 <= i < n.len() && n[i] == p;
            let k = if i == 0 { 0 } else { z - i };
            lemma_ring_prevs(n, nexts, prevs, k);
        }
    }
}

/// The node that is `k` steps ahead.
proof fn lemma_ring_nexts(n: Seq<int>, nexts: Map<int, usize>, prevs: Map<int, usize>, k: int)
    requires
        ring(n, nexts, prevs),
        0 <= k <= n.len(),
        n.len() > 0,
    ensures
        nth(nexts, n[0], k) == if k < n.len() {
            n[k]
        } else {
            n[0]
        },
    decreases k,
{
    if k > 0 {
        lemma_ring_nexts(n, nexts, prevs, k - 1);
        assert(nexts[n[k - 1]] == if k < n.len() { n[k] } else { n[0] });
    }
}

/// The node that is `k` steps back.
proof fn lemma_ring_prevs(n: Seq<int>, nexts: Map<int, usize>, prevs: Map<int, usize>, k: int)
    requires
        ring(n, nexts, prevs),
        0 <= k <= n.len(),
        n.len() > 0,
    ensures
        nth(prevs, n[0], k) == if k == 0 {
            n[0]
        } else {
            n[n.len() - k]
        },
    decreases k,
{
    if k > 0 {
        lemma_ring_prevs(n, nexts, prevs, k - 1);
        let e = if k == 1 { 0 } else { n.len() - k + 1 };
        assert(prevs[n[e]] == if e > 0 { n[e - 1] } else { n[n.len() - 1] });
    }
}

} // verus!
