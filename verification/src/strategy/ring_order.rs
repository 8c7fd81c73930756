//! Successor tables that form one single cycle, and the two reshaping moves
//! of the cycle surgeon that keep them so.
use vstd::prelude::*;

use crate::strategy::cycle_surgeon::{ring_segment, ring_walk};

verus! {

/// `ord` lists distinct cells in the order `f` visits them, around and back
/// to the first: `f` maps each listed cell to the next one.
pub open spec fn cyc(f: Seq<usize>, ord: Seq<int>) -> bool {
    &&& ord.len() > 0
    &&& ord.no_duplicates()
    &&& forall|i: int| 0 <= i < ord.len() ==> 0 <= #[trigger] ord[i] < f.len()
    &&& forall|i: int| 0 <= i < ord.len() ==> f[#[trigger] ord[i]] == ord[(i + 1) % (ord.len() as int)]
}

/// `ord` lists every cell of the table exactly once, in cycle order.
pub open spec fn cycle_order(f: Seq<usize>, ord: Seq<int>) -> bool {
    &&& cyc(f, ord)
    &&& ord.len() == f.len()
    &&& forall|u: int| 0 <= u < f.len() ==> #[trigger] ord.contains(u)
}

/// The table is one single cycle through all cells.
pub open spec fn single_ring(f: Seq<usize>) -> bool {
    exists|ord: Seq<int>| #[trigger] cycle_order(f, ord)
}

/// `ord` started at position `r`.
pub open spec fn rotated(ord: Seq<int>, r: int) -> Seq<int> {
    Seq::new(ord.len(), |i: int| ord[(i + r) % (ord.len() as int)])
}

proof fn lemma_mod_shift(i: int, r: int, m: int)
    requires
        m > 0,
        0 <= i,
        0 <= r,
    ensures
        ((i + r) % m + 1) % m == ((i + 1) % m + r) % m,
        0 <= (i + r) % m < m,
{
    vstd::arithmetic::div_mod::lemma_add_mod_noop_right(1, i + r, m);
    vstd::arithmetic::div_mod::lemma_add_mod_noop_right(r, i + 1, m);
    vstd::arithmetic::div_mod::lemma_mod_bound(i + r, m);
    assert(1 + (i + r) == r + (i + 1));
}

/// Positions of distinct cells differ, and positions map injectively under
/// a shift.
proof fn lemma_shift_injective(i: int, j: int, r: int, m: int)
    requires
        m > 0,
        0 <= i < m,
        0 <= j < m,
        0 <= r,
        (i + r) % m == (j + r) % m,
    ensures
        i == j,
{
    vstd::arithmetic::div_mod::lemma_fundamental_div_mod(i + r, m);
    vstd::arithmetic::div_mod::lemma_fundamental_div_mod(j + r, m);
    let qi = (i + r) / m;
    let qj = (j + r) / m;
    assert(i - j == m * (qi - qj)) by (nonlinear_arith)
        requires
            i + r == m * qi + (i + r) % m,
            j + r == m * qj + (j + r) % m,
            (i + r) % m == (j + r) % m,
    ;
    if qi > qj {
        assert(m * (qi - qj) >= m) by (nonlinear_arith)
            requires
                qi - qj >= 1,
                m > 0,
        ;
    } else if qi < qj {
        assert(m * (qj - qi) >= m) by (nonlinear_arith)
            requires
                qj - qi >= 1,
                m > 0,
        ;
        assert(m * (qi - qj) == -(m * (qj - qi))) by (nonlinear_arith);
    }
}

/// A cycle listing may start at any of its positions.
pub proof fn lemma_rotate(f: Seq<usize>, ord: Seq<int>, r: int)
    requires
        cyc(f, ord),
        0 <= r < ord.len(),
    ensures
        cyc(f, rotated(ord, r)),
        rotated(ord, r)[0] == ord[r],
        rotated(ord, r).len() == ord.len(),
        forall|u: int| #[trigger] rotated(ord, r).contains(u) <==> ord.contains(u),
{
    let m = ord.len() as int;
    let o2 = rotated(ord, r);
    vstd::arithmetic::div_mod::lemma_small_mod(r as nat, m as nat);
    assert forall|i: int| 0 <= i < m implies 0 <= #[trigger] o2[i] < f.len() && f[o2[i]] == o2[(i + 1)
        % m] by {
        lemma_mod_shift(i, r, m);
        vstd::arithmetic::div_mod::lemma_mod_bound(i + 1, m);
        let k = (i + r) % m;
        assert(f[ord[k]] == ord[(k + 1) % m]);
    }
    assert forall|i: int, j: int| 0 <= i < j < m implies o2[i] != o2[j] by {
        vstd::arithmetic::div_mod::lemma_mod_bound(i + r, m);
        vstd::arithmetic::div_mod::lemma_mod_bound(j + r, m);
        if o2[i] == o2[j] {
            assert(ord[(i + r) % m] == ord[(j + r) % m]);
            lemma_shift_injective(i, j, r, m);
        }
    }
    assert forall|u: int| #[trigger] o2.contains(u) <==> ord.contains(u) by {
        if ord.contains(u) {
            let k = choose|k: int| 0 <= k < m && ord[k] == u;
            let i = (k - r + m) % m;
            vstd::arithmetic::div_mod::lemma_mod_bound(k - r + m, m);
            vstd::arithmetic::div_mod::lemma_add_mod_noop(k - r + m, r, m);
            vstd::arithmetic::div_mod::lemma_mod_twice(k - r + m, m);
            vstd::arithmetic::div_mod::lemma_small_mod(r as nat, m as nat);
            assert((k + m) % m == k) by {
                vstd::arithmetic::div_mod::lemma_mod_add_multiples_vanish(k, m);
                vstd::arithmetic::div_mod::lemma_small_mod(k as nat, m as nat);
            }
            assert((i + r) % m == ((k - r + m) % m + r % m) % m);
            assert(o2[i] == u);
        }
        if o2.contains(u) {
            let i = choose|i: int| 0 <= i < m && o2[i] == u;
            vstd::arithmetic::div_mod::lemma_mod_bound(i + r, m);
            assert(ord[(i + r) % m] == u);
        }
    }
    assert(o2[0] == ord[r]);
}

/// In a cycle listing, the cell after position `i` is the successor.
proof fn lemma_cyc_succ(f: Seq<usize>, ord: Seq<int>, i: int)
    requires
        cyc(f, ord),
        0 <= i < ord.len() - 1,
    ensures
        f[ord[i]] == ord[i + 1],
{
    vstd::arithmetic::div_mod::lemma_small_mod((i + 1) as nat, ord.len());
}

/// In a cycle listing, the last cell leads back to the first.
proof fn lemma_cyc_last(f: Seq<usize>, ord: Seq<int>)
    requires
        cyc(f, ord),
    ensures
        f[ord[ord.len() - 1]] == ord[0],
{
    vstd::arithmetic::div_mod::lemma_mod_self_0(ord.len() as int);
}

/// Walking the table from the first listed cell follows the listing.
proof fn lemma_cyc_walk(f: Seq<usize>, ord: Seq<int>, k: int)
    requires
        cyc(f, ord),
        0 <= k < ord.len(),
    ensures
        ring_walk(f, ord[0], k as nat) == ord[k],
    decreases k,
{
    if k > 0 {
        lemma_cyc_walk(f, ord, k - 1);
        lemma_cyc_succ(f, ord, k - 1);
    }
}

/// Two listed cells with the same successor are the same cell.
proof fn lemma_cyc_pred_unique(f: Seq<usize>, ord: Seq<int>, i: int, j: int)
    requires
        cyc(f, ord),
        0 <= i < ord.len(),
        0 <= j < ord.len(),
        f[ord[i]] == f[ord[j]],
    ensures
        i == j,
{
    let m = ord.len() as int;
    vstd::arithmetic::div_mod::lemma_mod_bound(i + 1, m);
    vstd::arithmetic::div_mod::lemma_mod_bound(j + 1, m);
    assert(ord[(i + 1) % m] == ord[(j + 1) % m]);
    if (i + 1) % m != (j + 1) % m {
        assert(ord.no_duplicates());
    }
    lemma_shift_injective(i, j, 1, m);
}

/// Position of a listed cell.
proof fn lemma_index_of(ord: Seq<int>, u: int) -> (k: int)
    requires
        ord.contains(u),
    ensures
        0 <= k < ord.len(),
        ord[k] == u,
{
    choose|k: int| 0 <= k < ord.len() && ord[k] == u
}

/// Taking `x` out of a single cycle: the other cells, from `x`'s successor
/// round to its predecessor, form a cycle once `p` leads to `q`.
proof fn lemma_drop_cell(next: Seq<usize>, f: Seq<usize>, x: int, p: int, q: int) -> (s: Seq<int>)
    requires
        single_ring(next),
        0 <= x < next.len(),
        0 <= p < next.len(),
        next[p] == x,
        next[x] == q,
        p != x,
        q != x,
        p != q,
        f.len() == next.len(),
        f[p] == q,
        forall|u: int| 0 <= u < next.len() && u != p && u != x ==> #[trigger] f[u] == next[u],
    ensures
        cyc(f, s),
        s.len() == next.len() - 1,
        !s.contains(x),
        forall|u: int| 0 <= u < next.len() && u != x ==> #[trigger] s.contains(u),
{
    let n = next.len() as int;
    let ord = choose|ord: Seq<int>| #[trigger] cycle_order(next, ord);
    let ix = lemma_index_of(ord, x);
    lemma_rotate(next, ord, ix);
    let o1 = rotated(ord, ix);
    lemma_cyc_succ(next, o1, 0);
    lemma_cyc_last(next, o1);
    assert(ord.contains(p));
    assert(o1.contains(p));
    let ip = lemma_index_of(o1, p);
    lemma_cyc_pred_unique(next, o1, ip, n - 1);
    let s = o1.drop_first();
    let m = n - 1;
    assert(m >= 2) by {
        if m < 2 {
            assert(o1[1] == o1[n - 1]);
        }
    }
    assert forall|i: int| 0 <= i < m implies 0 <= #[trigger] s[i] < f.len() && f[s[i]] == s[(i + 1)
        % m] by {
        assert(o1[0] != o1[i + 1]);
        if i < m - 1 {
            vstd::arithmetic::div_mod::lemma_small_mod((i + 1) as nat, m as nat);
            lemma_cyc_succ(next, o1, i + 1);
            assert(o1[i + 1] != o1[n - 1]);
        } else {
            vstd::arithmetic::div_mod::lemma_mod_self_0(m);
        }
    }
    assert forall|i: int, j: int| 0 <= i < j < m implies s[i] != s[j] by {
        assert(o1[i + 1] != o1[j + 1]);
    }
    assert(!s.contains(x)) by {
        if s.contains(x) {
            let k = lemma_index_of(s, x);
            assert(o1[k + 1] == o1[0]);
        }
    }
    assert forall|u: int| 0 <= u < n && u != x implies #[trigger] s.contains(u) by {
        assert(ord.contains(u));
        assert(o1.contains(u));
        let k = lemma_index_of(o1, u);
        assert(k != 0);
        assert(s[k - 1] == u);
    }
    s
}

/// Splicing cell `x` out from between `p` and `q` and into the edge
/// `a → b` keeps a single cycle a single cycle.
#[verifier::spinoff_prover]
pub proof fn lemma_relocate_single(next: Seq<usize>, x: int, a: int, b: int, p: int, q: int)
    requires
        single_ring(next),
        0 <= x < next.len(),
        0 <= a < next.len(),
        0 <= p < next.len(),
        0 <= b < next.len(),
        next[a] == b,
        next[p] == x,
        next[x] == q,
        x != a,
        x != b,
        p != q,
        p != x,
        q != x,
    ensures
        single_ring(next.update(p, q as usize).update(a, x as usize).update(x, b as usize)),
{
    let n = next.len() as int;
    let n2 = next.update(p, q as usize).update(a, x as usize).update(x, b as usize);
    let f = n2.update(a, b as usize);
    assert(a != p) by {
        if a == p {
            assert(b == x);
        }
    }
    let s = lemma_drop_cell(next, f, x, p, q);
    let m = n - 1;
    assert(s.contains(b));
    assert(s.contains(a));
    let ib = lemma_index_of(s, b);
    lemma_rotate(f, s, ib);
    let t = rotated(s, ib);
    lemma_cyc_last(f, t);
    assert(t.contains(a));
    let ia = lemma_index_of(t, a);
    lemma_cyc_pred_unique(f, t, ia, m - 1);
    assert(!t.contains(x));
    let o2 = t.push(x);
    assert forall|i: int| 0 <= i < n implies 0 <= #[trigger] o2[i] < n2.len() && n2[o2[i]] == o2[(i + 1)
        % n] by {
        if i < m - 1 {
            vstd::arithmetic::div_mod::lemma_small_mod((i + 1) as nat, n as nat);
            lemma_cyc_succ(f, t, i);
            assert(t[i] != t[m - 1]);
            assert(t.contains(t[i]));
        } else if i == m - 1 {
            vstd::arithmetic::div_mod::lemma_small_mod((i + 1) as nat, n as nat);
        } else {
            vstd::arithmetic::div_mod::lemma_mod_self_0(n);
        }
    }
    assert forall|i: int, j: int| 0 <= i < j < n implies o2[i] != o2[j] by {
        if j == m {
            assert(t.contains(o2[i]));
        } else {
            assert(t[i] != t[j]);
        }
    }
    assert forall|u: int| 0 <= u < n2.len() implies #[trigger] o2.contains(u) by {
        if u == x {
            assert(o2[m] == x);
        } else {
            assert(s.contains(u));
            assert(t.contains(u));
            let j = lemma_index_of(t, u);
            assert(o2[j] == u);
        }
    }
    assert(cycle_order(n2, o2));
}

/// One step and then `j` more is `j + 1` steps.
proof fn lemma_walk_shift(next: Seq<usize>, a: int, j: nat)
    ensures
        ring_walk(next, next[a] as int, j) == ring_walk(next, a, (j + 1) as nat),
    decreases j,
{
    if j == 0 {
        assert(ring_walk(next, a, 1) == next[ring_walk(next, a, 0)] as int);
    } else {
        lemma_walk_shift(next, a, (j - 1) as nat);
        assert(ring_walk(next, next[a] as int, j) == next[ring_walk(
            next,
            next[a] as int,
            (j - 1) as nat,
        )] as int);
        assert(ring_walk(next, a, (j + 1) as nat) == next[ring_walk(next, a, j)] as int);
    }
}

/// The cells after `a` in a single cycle are listed in order right after `a`.
proof fn lemma_walk_listing(next: Seq<usize>, o1: Seq<int>, k: int)
    requires
        cyc(next, o1),
        1 <= k < o1.len(),
    ensures
        ring_walk(next, next[o1[0]] as int, (k - 1) as nat) == o1[k],
{
    lemma_walk_shift(next, o1[0], (k - 1) as nat);
    lemma_cyc_walk(next, o1, k);
}

/// A single cycle listed from `a`: the segment `b … c` comes right after
/// `a`, followed by `d`, and does not wrap around to `a`.
proof fn lemma_twoopt_listing(next: Seq<usize>, a: int, b: int, c: int, d: int, seg: Seq<usize>) -> (o1: Seq<int>)
    requires
        single_ring(next),
        0 <= a < next.len(),
        next[a] == b,
        next[c] == d,
        d != a,
        1 <= seg.len(),
        seg == ring_segment(next, b, seg.len()),
        seg.last() == c,
        forall|j: int| 0 <= j < seg.len() ==> #[trigger] seg[j] != a,
    ensures
        cycle_order(next, o1),
        o1[0] == a,
        seg.len() <= next.len() - 2,
        forall|j: int| 0 <= j < seg.len() ==> #[trigger] seg[j] as int == o1[j + 1],
        o1[seg.len() as int + 1] == d,
{
    let n = next.len() as int;
    let m = seg.len() as int;
    let ord = choose|ord: Seq<int>| #[trigger] cycle_order(next, ord);
    let ia = lemma_index_of(ord, a);
    lemma_rotate(next, ord, ia);
    let o1 = rotated(ord, ia);
    assert forall|j: int| 0 <= j < m && j + 1 < n implies #[trigger] seg[j] as int == o1[j + 1] by {
        lemma_walk_listing(next, o1, j + 1);
    }
    assert(m <= n - 2) by {
        if m > n - 1 {
            lemma_walk_shift(next, a, (n - 1) as nat);
            lemma_cyc_walk(next, o1, n - 1);
            lemma_cyc_last(next, o1);
            assert(seg[n - 1] as int == a);
        }
        if m == n - 1 {
            lemma_cyc_last(next, o1);
            assert(seg[m - 1] as int == o1[m]);
        }
    }
    lemma_cyc_succ(next, o1, m);
    assert(seg[m - 1] as int == o1[m]);
    assert forall|u: int| 0 <= u < next.len() implies #[trigger] o1.contains(u) by {
        assert(ord.contains(u));
    }
    o1
}

/// The listing of the 2-opt result: `a`, the segment backwards, then the
/// rest as before.
pub open spec fn twoopt_listing(o1: Seq<int>, seg: Seq<usize>) -> Seq<int> {
    Seq::new(
        o1.len(),
        |i: int|
            if i == 0 {
                o1[0]
            } else if i <= seg.len() {
                seg[seg.len() as int - i] as int
            } else {
                o1[i]
            },
    )
}

/// The 2-opt move on `a → b` and `c → d` (reconnecting `a → c`, `b → d`
/// and reversing the segment `b … c` between them) keeps a single cycle a
/// single cycle.
pub proof fn lemma_twoopt_single(
    next: Seq<usize>,
    n2: Seq<usize>,
    a: int,
    b: int,
    c: int,
    d: int,
    seg: Seq<usize>,
)
    requires
        single_ring(next),
        next.len() <= usize::MAX,
        0 <= a < next.len(),
        next[a] == b,
        next[c] == d,
        d != a,
        1 <= seg.len(),
        seg == ring_segment(next, b, seg.len()),
        seg.last() == c,
        forall|j: int| 0 <= j < seg.len() ==> #[trigger] seg[j] != a,
        n2.len() == next.len(),
        n2[a] == c,
        n2[seg[0] as int] == d,
        forall|i: int| 1 <= i < seg.len() ==> n2[#[trigger] seg[i] as int] == seg[i - 1],
        forall|u: int|
            0 <= u < next.len() && u != a && !(exists|k: int|
                0 <= k < seg.len() && #[trigger] seg[k] == u as usize) ==> #[trigger] n2[u] == next[u],
    ensures
        single_ring(n2),
{
    let o1 = lemma_twoopt_listing(next, a, b, c, d, seg);
    let o2 = twoopt_listing(o1, seg);
    lemma_twoopt_steps(next, n2, o1, seg, d);
    lemma_twoopt_perm(next, o1, seg);
    assert(cycle_order(n2, o2));
}

/// Each cell of the 2-opt listing leads to the next one in the new table.
#[verifier::spinoff_prover]
proof fn lemma_twoopt_steps(next: Seq<usize>, n2: Seq<usize>, o1: Seq<int>, seg: Seq<usize>, d: int)
    requires
        cycle_order(next, o1),
        next.len() <= usize::MAX,
        1 <= seg.len() <= next.len() - 2,
        forall|j: int| 0 <= j < seg.len() ==> #[trigger] seg[j] as int == o1[j + 1],
        o1[seg.len() as int + 1] == d,
        n2.len() == next.len(),
        n2[o1[0]] == seg[seg.len() as int - 1],
        n2[seg[0] as int] == d,
        forall|i: int| 1 <= i < seg.len() ==> n2[#[trigger] seg[i] as int] == seg[i - 1],
        forall|u: int|
            0 <= u < next.len() && u != o1[0] && !(exists|k: int|
                0 <= k < seg.len() && #[trigger] seg[k] == u as usize) ==> #[trigger] n2[u] == next[u],
    ensures
        forall|i: int|
            0 <= i < next.len() ==> 0 <= #[trigger] twoopt_listing(o1, seg)[i] < n2.len() && n2[twoopt_listing(
                o1,
                seg,
            )[i]] == twoopt_listing(o1, seg)[(i + 1) % (next.len() as int)],
{
    let n = next.len() as int;
    let m = seg.len() as int;
    let o2 = twoopt_listing(o1, seg);
    assert forall|i: int| 0 <= i < n implies 0 <= #[trigger] o2[i] < n2.len() && n2[o2[i]] == o2[(i + 1)
        % n] by {
        if i < n - 1 {
            vstd::arithmetic::div_mod::lemma_small_mod((i + 1) as nat, n as nat);
        } else {
            vstd::arithmetic::div_mod::lemma_mod_self_0(n);
        }
        if i == 0 {
        } else if i < m {
            assert(n2[seg[m - i] as int] == seg[m - i - 1]);
        } else if i == m {
        } else {
            let u = o1[i];
            assert(u != o1[0]);
            assert(!(exists|k: int| 0 <= k < m && #[trigger] seg[k] == u as usize)) by {
                if exists|k: int| 0 <= k < m && #[trigger] seg[k] == u as usize {
                    let k = choose|k: int| 0 <= k < m && #[trigger] seg[k] == u as usize;
                    assert(o1[k + 1] == o1[i]);
                }
            }
            if i < n - 1 {
                lemma_cyc_succ(next, o1, i);
            } else {
                lemma_cyc_last(next, o1);
            }
        }
    }
}

/// The 2-opt listing holds the same cells as before, each once.
#[verifier::spinoff_prover]
proof fn lemma_twoopt_perm(next: Seq<usize>, o1: Seq<int>, seg: Seq<usize>)
    requires
        cycle_order(next, o1),
        1 <= seg.len() <= next.len() - 2,
        forall|j: int| 0 <= j < seg.len() ==> #[trigger] seg[j] as int == o1[j + 1],
    ensures
        twoopt_listing(o1, seg).len() == next.len(),
        twoopt_listing(o1, seg).no_duplicates(),
        twoopt_listing(o1, seg).len() > 0,
        forall|u: int| 0 <= u < next.len() ==> #[trigger] twoopt_listing(o1, seg).contains(u),
{
    let n = next.len() as int;
    let m = seg.len() as int;
    let o2 = twoopt_listing(o1, seg);
    assert forall|i: int| 0 <= i < n implies #[trigger] o2[i] == o1[if 1 <= i <= m {
        m - i + 1
    } else {
        i
    }] by {}
    assert forall|i: int, j: int| 0 <= i < j < n implies o2[i] != o2[j] by {
        let pi = if 1 <= i <= m {
            m - i + 1
        } else {
            i
        };
        let pj = if 1 <= j <= m {
            m - j + 1
        } else {
            j
        };
        assert(o2[i] == o1[pi]);
        assert(o2[j] == o1[pj]);
        assert(pi != pj);
        assert(o1[pi] != o1[pj]);
    }
    assert forall|u: int| 0 <= u < n implies #[trigger] o2.contains(u) by {
        assert(o1.contains(u));
        let k = lemma_index_of(o1, u);
        if 1 <= k <= m {
            assert(o2[m - k + 1] == o1[k]);
        } else {
            assert(o2[k] == u);
        }
    }
}

} // verus!
