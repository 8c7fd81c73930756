//! The topology of evolved (NEAT) networks: nodes and the links between
//! them, without the weights. Evolution may add a link only where it keeps
//! the network feed-forward; a genome compiles only when it is.
use vstd::prelude::*;

use crate::nn::{NodeGene, NodeKind};

verus! {

/// A connection gene as the topology sees it: its innovation number, its
/// two end nodes (by id) and whether it is enabled.
#[derive(Debug, Clone, Copy, PartialEq, Eq, Structural)]
pub struct Link {
    pub innovation: u32,
    pub from: u32,
    pub to: u32,
    pub enabled: bool,
}

/// An enabled link leads from node `a` to node `b`.
pub open spec fn edge(links: Seq<Link>, a: u32, b: u32) -> bool {
    exists|i: int|
        0 <= i < links.len() && (#[trigger] links[i]).enabled && links[i].from == a && links[i].to == b
}

/// `p` is a walk along enabled links.
pub open spec fn is_path(links: Seq<Link>, p: Seq<u32>) -> bool {
    &&& p.len() >= 1
    &&& forall|i: int, j: int|
        0 <= i && j == i + 1 && j < p.len() ==> #[trigger] edge(links, p[i], p[j])
}

/// Node `b` can be reached from node `a` along enabled links (every node
/// reaches itself).
pub open spec fn reaches(links: Seq<Link>, a: u32, b: u32) -> bool {
    exists|p: Seq<u32>| #[trigger] is_path(links, p) && p[0] == a && p.last() == b
}

/// Number of links whose target is not in `s`.
pub open spec fn unseen(links: Seq<Link>, s: Seq<u32>) -> nat
    decreases links.len(),
{
    if links.len() == 0 {
        0
    } else {
        unseen(links.drop_last(), s) + if s.contains(links.last().to) {
            0nat
        } else {
            1nat
        }
    }
}

proof fn lemma_unseen_push(links: Seq<Link>, s: Seq<u32>, x: u32, i: int)
    ensures
        unseen(links, s.push(x)) <= unseen(links, s),
        !s.contains(x) && 0 <= i < links.len() && links[i].to == x ==> unseen(links, s.push(x))
            < unseen(links, s),
    decreases links.len(),
{
    if links.len() > 0 {
        let rest = links.drop_last();
        lemma_unseen_push(rest, s, x, i);
        let y = links.last().to;
        assert(s.push(x).contains(y) <==> (y == x || s.contains(y))) by {
            if s.contains(y) {
                let k = choose|k: int| 0 <= k < s.len() && s[k] == y;
                assert(s.push(x)[k] == y);
            }
            if y == x {
                assert(s.push(x)[s.len() as int] == y);
            }
        }
        if !s.contains(x) && 0 <= i < links.len() && links[i].to == x && i < rest.len() {
            assert(rest[i] == links[i]);
        }
    }
}

pub(crate) proof fn lemma_reaches_self(links: Seq<Link>, a: u32)
    ensures
        reaches(links, a, a),
{
    let p = seq![a];
    assert(is_path(links, p));
}

pub(crate) proof fn lemma_reaches_step(links: Seq<Link>, a: u32, x: u32, y: u32)
    requires
        reaches(links, a, x),
        edge(links, x, y),
    ensures
        reaches(links, a, y),
{
    let p = choose|p: Seq<u32>| #[trigger] is_path(links, p) && p[0] == a && p.last() == x;
    let q = p.push(y);
    assert forall|i: int, j: int| 0 <= i && j == i + 1 && j < q.len() implies #[trigger] edge(
        links,
        q[i],
        q[j],
    ) by {
        if j < p.len() {
            assert(q[i] == p[i] && q[j] == p[j]);
            assert(edge(links, p[i], p[j]));
        } else {
            assert(q[i] == x && q[j] == y);
        }
    }
    assert(is_path(links, q) && q[0] == a && q.last() == y);
}

/// A set closed under enabled links holds the end of every walk that
/// starts in it.
proof fn lemma_closed_walk(links: Seq<Link>, s: Seq<u32>, p: Seq<u32>)
    requires
        is_path(links, p),
        s.contains(p[0]),
        forall|i: int|
            0 <= i < links.len() && (#[trigger] links[i]).enabled && s.contains(links[i].from)
                ==> s.contains(links[i].to),
    ensures
        s.contains(p.last()),
    decreases p.len(),
{
    if p.len() > 1 {
        let q = p.drop_last();
        assert forall|i: int, j: int| 0 <= i && j == i + 1 && j < q.len() implies #[trigger] edge(
            links,
            q[i],
            q[j],
        ) by {
            assert(q[i] == p[i] && q[j] == p[j]);
            assert(edge(links, p[i], p[j]));
        }
        lemma_closed_walk(links, s, q);
        let a = p.len() - 2;
        let b = p.len() - 1;
        assert(edge(links, p[a], p[b]));
        let k = choose|k: int|
            0 <= k < links.len() && (#[trigger] links[k]).enabled && links[k].from == p[a]
                && links[k].to == p[b];
        assert(q.last() == p[a]);
    }
}

fn contains_id(v: &Vec<u32>, x: u32) -> (r: bool)
    ensures
        r == v@.contains(x),
{
    let mut i: usize = 0;
    while i < v.len()
        invariant
            0 <= i <= v@.len(),
            forall|k: int| 0 <= k < i ==> v@[k] != x,
        decreases v@.len() - i,
    {
        if v[i] == x {
            return true;
        }
        i += 1;
    }
    false
}

/// Would adding a link `from → to` close a cycle among the enabled links?
/// Exactly when `from == to` or `to` already reaches `from`.
pub fn creates_cycle(links: &[Link], from: u32, to: u32) -> (r: bool)
    ensures
        r == (from == to || reaches(links@, to, from)),
{
    if from == to {
        return true;
    }
    let mut stack: Vec<u32> = Vec::new();
    stack.push(to);
    let mut seen: Vec<u32> = Vec::new();
    seen.push(to);
    proof {
        lemma_reaches_self(links@, to);
        assert(seen@[0] == to);
    }
    while stack.len() > 0
        invariant
            from != to,
            seen@.contains(to),
            forall|x: u32| #[trigger] seen@.contains(x) ==> reaches(links@, to, x),
            forall|x: u32| #[trigger] stack@.contains(x) ==> seen@.contains(x),
            forall|x: u32| #[trigger] seen@.contains(x) && !stack@.contains(x) ==> x != from,
            forall|i: int|
                0 <= i < links@.len() && (#[trigger] links@[i]).enabled && seen@.contains(
                    links@[i].from,
                ) && !stack@.contains(links@[i].from) ==> seen@.contains(links@[i].to),
        decreases unseen(links@, seen@), stack@.len(),
    {
        let ghost stack_before = stack@;
        let node = stack.pop().unwrap();
        let ghost stack0 = stack@;
        let ghost seen0 = seen@;
        proof {
            assert(stack_before == stack0.push(node));
            assert(stack_before[stack0.len() as int] == node);
            assert forall|x: u32| #[trigger] stack0.contains(x) implies stack_before.contains(x) by {
                let k = choose|k: int| 0 <= k < stack0.len() && stack0[k] == x;
                assert(stack_before[k] == x);
            }
            assert(stack_before.contains(node));
        }
        if node == from {
            return true;
        }
        let mut ci: usize = 0;
        while ci < links.len()
            invariant
                from != to,
                node != from,
                seen0.contains(node),
                forall|x: u32| #[trigger] stack0.contains(x) ==> stack_before.contains(x),
                forall|x: u32| #[trigger] stack0.contains(x) ==> stack@.contains(x),
                seen@.contains(to),
                forall|x: u32| #[trigger] seen0.contains(x) ==> seen@.contains(x),
                forall|x: u32| #[trigger] seen@.contains(x) ==> reaches(links@, to, x),
                forall|x: u32| #[trigger] stack@.contains(x) ==> seen@.contains(x),
                forall|x: u32|
                    #[trigger] stack@.contains(x) ==> stack0.contains(x) || !seen0.contains(x),
                forall|x: u32| #[trigger] seen@.contains(x) && !stack@.contains(x) ==> x != from,
                forall|x: u32| #[trigger] seen@.contains(x) && !seen0.contains(x) ==> stack@.contains(x),
                forall|i: int|
                    0 <= i < links@.len() && (#[trigger] links@[i]).enabled && seen0.contains(
                        links@[i].from,
                    ) && !stack_before.contains(links@[i].from) ==> seen0.contains(links@[i].to),
                forall|i: int|
                    0 <= i < ci && (#[trigger] links@[i]).enabled && links@[i].from == node
                        ==> seen@.contains(links@[i].to),
                (seen@ == seen0 && stack@ == stack0) || unseen(links@, seen@) < unseen(
                    links@,
                    seen0,
                ),
                unseen(links@, seen@) <= unseen(links@, seen0),
                0 <= ci <= links@.len(),
            decreases links@.len() - ci,
        {
            let c = links[ci];
            if c.enabled && c.from == node && !contains_id(&seen, c.to) {
                let ghost s1 = seen@;
                let ghost t1 = stack@;
                proof {
                    lemma_unseen_push(links@, s1, c.to, ci as int);
                    assert(edge(links@, node, c.to));
                    lemma_reaches_step(links@, to, node, c.to);
                }
                seen.push(c.to);
                stack.push(c.to);
                proof {
                    assert forall|x: u32| #[trigger] seen@.contains(x) <==> (x == c.to || s1.contains(x)) by {
                        if s1.contains(x) {
                            let k = choose|k: int| 0 <= k < s1.len() && s1[k] == x;
                            assert(seen@[k] == x);
                        }
                        if x == c.to {
                            assert(seen@[s1.len() as int] == x);
                        }
                        if seen@.contains(x) && x != c.to {
                            let k = choose|k: int| 0 <= k < seen@.len() && seen@[k] == x;
                            assert(k < s1.len());
                            assert(s1[k] == x);
                        }
                    }
                    assert forall|x: u32| #[trigger] stack@.contains(x) <==> (x == c.to || t1.contains(x)) by {
                        if t1.contains(x) {
                            let k = choose|k: int| 0 <= k < t1.len() && t1[k] == x;
                            assert(stack@[k] == x);
                        }
                        if x == c.to {
                            assert(stack@[t1.len() as int] == x);
                        }
                        if stack@.contains(x) && x != c.to {
                            let k = choose|k: int| 0 <= k < stack@.len() && stack@[k] == x;
                            assert(k < t1.len());
                            assert(t1[k] == x);
                        }
                    }
                }
            }
            ci += 1;
        }
        proof {
            assert forall|i: int|
                0 <= i < links@.len() && (#[trigger] links@[i]).enabled && seen@.contains(
                    links@[i].from,
                ) && !stack@.contains(links@[i].from) implies seen@.contains(links@[i].to) by {
                let f = links@[i].from;
                if f != node {
                    assert(seen0.contains(f));
                    if stack_before.contains(f) {
                        let k = choose|k: int| 0 <= k < stack_before.len() && stack_before[k] == f;
                        assert(k < stack0.len());
                        assert(stack0[k] == f);
                        assert(stack0.contains(f));
                    }
                }
            }
        }
    }
    proof {
        if reaches(links@, to, from) {
            let p = choose|p: Seq<u32>| #[trigger] is_path(links@, p) && p[0] == to && p.last() == from;
            assert forall|i: int|
                0 <= i < links@.len() && (#[trigger] links@[i]).enabled && seen@.contains(links@[i].from)
                    implies seen@.contains(links@[i].to) by {
                assert(!stack@.contains(links@[i].from));
            }
            lemma_closed_walk(links@, seen@, p);
            assert(!stack@.contains(from));
        }
    }
    false
}

/// Node ids are distinct.
pub open spec fn ids_distinct(nodes: Seq<NodeGene>) -> bool {
    forall|a: int, b: int| 0 <= a < b < nodes.len() ==> (#[trigger] nodes[a]).id != (#[trigger] nodes[b]).id
}

/// `rank` orders the nodes so that every enabled link into a node comes
/// from a node (with the link's source id) of lower rank.
#[verifier::opaque]
pub open spec fn ranked(nodes: Seq<NodeGene>, links: Seq<Link>, rank: Seq<nat>) -> bool {
    &&& rank.len() == nodes.len()
    &&& forall|t: int, i: int|
        0 <= t < nodes.len() && 0 <= i < links.len() && (#[trigger] links[i]).enabled && links[i].to
            == (#[trigger] nodes[t]).id ==> exists|s: int|
            0 <= s < nodes.len() && (#[trigger] nodes[s]).id == links[i].from && rank[s] < rank[t]
}

/// The network can be evaluated node by node: there is an order in which
/// every enabled link into a node comes from an earlier node. (A link into
/// a node from an id that is no node rules this out; links into ids that
/// are no node are ignored.)
pub open spec fn feeds_forward(nodes: Seq<NodeGene>, links: Seq<Link>) -> bool {
    exists|rank: Seq<nat>| #[trigger] ranked(nodes, links, rank)
}

/// Enabled links among positions `lo..hi` into node id `target` whose
/// source is not in `done`.
#[verifier::opaque]
spec fn pending(links: Seq<Link>, lo: int, hi: int, target: u32, done: Set<u32>) -> nat
    decreases hi - lo,
{
    if hi <= lo {
        0
    } else {
        pending(links, lo, hi - 1, target, done) + if counts(links[hi - 1], target, done) {
            1nat
        } else {
            0nat
        }
    }
}

/// An enabled link into `target` from a source not in `done`.
spec fn counts(l: Link, target: u32, done: Set<u32>) -> bool {
    l.enabled && l.to == target && !done.contains(l.from)
}

spec fn ind(b: bool) -> nat {
    if b {
        1
    } else {
        0
    }
}

proof fn lemma_pending_empty(links: Seq<Link>, lo: int, target: u32, done: Set<u32>)
    ensures
        pending(links, lo, lo, target, done) == 0,
{
    reveal(pending);
}

proof fn lemma_pending_back(links: Seq<Link>, lo: int, hi: int, target: u32, done: Set<u32>)
    requires
        lo <= hi,
    ensures
        pending(links, lo, hi + 1, target, done) == pending(links, lo, hi, target, done) + ind(
            counts(links[hi], target, done),
        ),
{
    reveal(pending);
}

proof fn lemma_pending_front(links: Seq<Link>, lo: int, hi: int, target: u32, done: Set<u32>)
    requires
        lo < hi,
    ensures
        pending(links, lo, hi, target, done) == pending(links, lo + 1, hi, target, done) + ind(
            counts(links[lo], target, done),
        ),
    decreases hi - lo,
{
    reveal_with_fuel(pending, 2);
    if lo + 1 < hi {
        lemma_pending_front(links, lo, hi - 1, target, done);
    }
}

proof fn lemma_pending_bound(links: Seq<Link>, lo: int, hi: int, target: u32, done: Set<u32>)
    requires
        lo <= hi,
    ensures
        pending(links, lo, hi, target, done) <= hi - lo,
    decreases hi - lo,
{
    reveal(pending);
    if lo < hi {
        lemma_pending_bound(links, lo, hi - 1, target, done);
    }
}

/// Nothing pending: every enabled link into `target` in the range has its
/// source in `done`, and conversely.
proof fn lemma_pending_zero(links: Seq<Link>, lo: int, hi: int, target: u32, done: Set<u32>)
    requires
        lo <= hi,
    ensures
        pending(links, lo, hi, target, done) == 0 <==> forall|j: int|
            lo <= j < hi && (#[trigger] links[j]).enabled && links[j].to == target ==> done.contains(
                links[j].from,
            ),
    decreases hi - lo,
{
    reveal(pending);
    if lo < hi {
        lemma_pending_zero(links, lo, hi - 1, target, done);
    }
}

/// Moving the split point of a partly released count past link `ci`: the
/// count drops by one exactly when that link leads from the released node
/// into `target`.
proof fn lemma_release_step(
    links: Seq<Link>,
    ci: int,
    target: u32,
    done0: Set<u32>,
    released: u32,
)
    requires
        0 <= ci < links.len(),
        !done0.contains(released),
    ensures
        pending(links, 0, ci + 1, target, done0.insert(released)) + pending(
            links,
            ci + 1,
            links.len() as int,
            target,
            done0,
        ) + ind(links[ci].enabled && links[ci].from == released && links[ci].to == target) == pending(
            links,
            0,
            ci,
            target,
            done0.insert(released),
        ) + pending(links, ci, links.len() as int, target, done0),
{
    lemma_pending_back(links, 0, ci, target, done0.insert(released));
    lemma_pending_front(links, ci, links.len() as int, target, done0);
}

/// Ids of the nodes at the first `head` queue positions.
spec fn done_ids(nodes: Seq<NodeGene>, q: Seq<usize>, head: int) -> Set<u32> {
    Set::new(|x: u32| exists|j: int| 0 <= j < head && nodes[q[j] as int].id == x)
}

/// `deg` counts, per node, the enabled incoming links whose source is not
/// in `done`.
spec fn deg_ok(nodes: Seq<NodeGene>, links: Seq<Link>, deg: Seq<usize>, done: Set<u32>) -> bool {
    &&& deg.len() == nodes.len()
    &&& forall|k: int|
        0 <= k < nodes.len() ==> #[trigger] deg[k] == pending(
            links,
            0,
            links.len() as int,
            nodes[k].id,
            done,
        )
}

/// The queue holds distinct node positions, exactly those whose count is
/// zero.
spec fn queue_ok(n: int, deg: Seq<usize>, q: Seq<usize>) -> bool {
    &&& q.no_duplicates()
    &&& forall|p: int| 0 <= p < q.len() ==> #[trigger] q[p] < n
    &&& forall|k: usize| k < n ==> (#[trigger] q.contains(k) <==> deg[k as int] == 0)
}

/// Every queued node's enabled incoming links come from nodes queued
/// before it.
#[verifier::opaque]
pub open spec fn queue_ordered(nodes: Seq<NodeGene>, links: Seq<Link>, q: Seq<usize>) -> bool {
    forall|p: int, i: int|
        0 <= p < q.len() && 0 <= i < links.len() && (#[trigger] links[i]).enabled && links[i].to
            == nodes[#[trigger] q[p] as int].id ==> exists|p2: int|
            0 <= p2 < p && nodes[q[p2] as int].id == links[i].from
}

/// The earlier queued source of an enabled link into a queued node.
proof fn lemma_ordered_source(nodes: Seq<NodeGene>, links: Seq<Link>, q: Seq<usize>, p: int, i: int) -> (p2: int)
    requires
        queue_ordered(nodes, links, q),
        0 <= p < q.len(),
        0 <= i < links.len(),
        links[i].enabled,
        links[i].to == nodes[q[p] as int].id,
    ensures
        0 <= p2 < p,
        nodes[q[p2] as int].id == links[i].from,
{
    reveal(queue_ordered);
    choose|p2: int| 0 <= p2 < p && nodes[q[p2] as int].id == links[i].from
}

/// Appending a node whose enabled incoming links all come from queued
/// nodes keeps the queue ordered.
proof fn lemma_ordered_push(nodes: Seq<NodeGene>, links: Seq<Link>, q: Seq<usize>, k: usize)
    requires
        queue_ordered(nodes, links, q),
        forall|i: int|
            0 <= i < links.len() && (#[trigger] links[i]).enabled && links[i].to == nodes[k as int].id
                ==> exists|p2: int| 0 <= p2 < q.len() && nodes[q[p2] as int].id == links[i].from,
    ensures
        queue_ordered(nodes, links, q.push(k)),
{
    reveal(queue_ordered);
    let q2 = q.push(k);
    assert forall|p: int, i: int|
        0 <= p < q2.len() && 0 <= i < links.len() && (#[trigger] links[i]).enabled && links[i].to
            == nodes[#[trigger] q2[p] as int].id implies exists|p2: int|
        0 <= p2 < p && nodes[q2[p2] as int].id == links[i].from by {
        if p < q.len() {
            assert(q2[p] == q[p]);
            let p2 = choose|p2: int| 0 <= p2 < p && nodes[q[p2] as int].id == links[i].from;
            assert(q2[p2] == q[p2]);
        } else {
            let p2 = choose|p2: int| 0 <= p2 < q.len() && nodes[q[p2] as int].id == links[i].from;
            assert(q2[p2] == q[p2]);
        }
    }
}

/// Nodes without enabled incoming links, in any order, form an ordered
/// queue.
proof fn lemma_ordered_sources(nodes: Seq<NodeGene>, links: Seq<Link>, q: Seq<usize>)
    requires
        forall|p: int, i: int|
            0 <= p < q.len() && 0 <= i < links.len() && (#[trigger] links[i]).enabled ==> links[i].to
                != nodes[#[trigger] q[p] as int].id,
    ensures
        queue_ordered(nodes, links, q),
{
    reveal(queue_ordered);
}

proof fn lemma_distinct_ids(nodes: Seq<NodeGene>, a: int, b: int)
    requires
        ids_distinct(nodes),
        0 <= a < nodes.len(),
        0 <= b < nodes.len(),
        a != b,
    ensures
        nodes[a].id != nodes[b].id,
{
    if a < b {
        assert(nodes[a].id != nodes[b].id);
    } else {
        assert(nodes[b].id != nodes[a].id);
    }
}

/// A duplicate-free sequence of positions below `n` has at most `n`
/// entries, and exactly `n` when it holds every position.
proof fn lemma_positions(s: Seq<usize>, n: nat)
    requires
        n <= usize::MAX + 1,
        s.no_duplicates(),
        forall|i: int| 0 <= i < s.len() ==> s[i] < n,
    ensures
        s.len() <= n,
        s.len() == n <==> forall|k: usize| k < n ==> #[trigger] s.contains(k),
    decreases n,
{
    if n == 0 {
        if s.len() > 0 {
            assert(s[0] < n);
        }
    } else {
        let top = (n - 1) as usize;
        if s.contains(top) {
            let j = choose|j: int| 0 <= j < s.len() && s[j] == top;
            let r = s.remove(j);
            assert forall|i: int| 0 <= i < r.len() implies r[i] < (n - 1) as nat by {
                if i < j {
                    assert(r[i] == s[i]);
                } else {
                    assert(r[i] == s[i + 1]);
                }
            }
            assert forall|a: int, b: int| 0 <= a < r.len() && 0 <= b < r.len() && a != b implies r[a]
                != r[b] by {
                let a2 = if a < j {
                    a
                } else {
                    a + 1
                };
                let b2 = if b < j {
                    b
                } else {
                    b + 1
                };
                assert(r[a] == s[a2] && r[b] == s[b2]);
            }
            lemma_positions(r, (n - 1) as nat);
            assert forall|k: usize| k < n && #[trigger] s.contains(k) && k != top implies r.contains(k) by {
                let i = choose|i: int| 0 <= i < s.len() && s[i] == k;
                if i < j {
                    assert(r[i] == k);
                } else {
                    assert(i != j);
                    assert(r[i - 1] == k);
                }
            }
            assert forall|k: usize| k < n - 1 && #[trigger] r.contains(k) implies s.contains(k) by {
                let i = choose|i: int| 0 <= i < r.len() && r[i] == k;
                if i < j {
                    assert(s[i] == k);
                } else {
                    assert(s[i + 1] == k);
                }
            }
            if s.len() == n {
                assert forall|k: usize| k < n implies #[trigger] s.contains(k) by {
                    if k != top {
                        assert(r.contains(k));
                    }
                }
            }
            if forall|k: usize| k < n ==> #[trigger] s.contains(k) {
                assert forall|k: usize| k < n - 1 implies #[trigger] r.contains(k) by {
                    assert(s.contains(k));
                }
            }
        } else {
            if s.len() > 0 {
                let r = s.drop_last();
                assert forall|i: int| 0 <= i < r.len() implies r[i] < (n - 1) as nat by {
                    assert(r[i] == s[i]);
                    assert(s[i] != top);
                }
                assert forall|a: int, b: int| 0 <= a < r.len() && 0 <= b < r.len() && a != b implies r[a]
                    != r[b] by {
                    assert(r[a] == s[a] && r[b] == s[b]);
                }
                lemma_positions(r, (n - 1) as nat);
                if r.len() == n - 1 {
                    let last = s.last();
                    assert(last != top);
                    assert(r.contains(last));
                    let i = choose|i: int| 0 <= i < r.len() && r[i] == last;
                    assert(s[i] == s[s.len() - 1]);
                }
            }
            assert(!(forall|k: usize| k < n ==> #[trigger] s.contains(k)));
        }
    }
}

/// Position of the node with id `id`.
fn position_of(nodes: &[NodeGene], id: u32) -> (r: Option<usize>)
    ensures
        r matches Some(t) ==> t < nodes@.len() && nodes@[t as int].id == id,
        r is None ==> forall|t: int| 0 <= t < nodes@.len() ==> (#[trigger] nodes@[t]).id != id,
{
    let mut i: usize = 0;
    while i < nodes.len()
        invariant
            0 <= i <= nodes@.len(),
            forall|t: int| 0 <= t < i ==> (#[trigger] nodes@[t]).id != id,
        decreases nodes@.len() - i,
    {
        if nodes[i].id == id {
            return Some(i);
        }
        i += 1;
    }
    None
}

/// Per node, the number of enabled links into it.
fn count_incoming(nodes: &[NodeGene], links: &[Link]) -> (deg: Vec<usize>)
    requires
        ids_distinct(nodes@),
    ensures
        deg_ok(nodes@, links@, deg@, Set::empty()),
{
    let n = nodes.len();
    let ghost none = Set::<u32>::empty();
    let mut deg: Vec<usize> = Vec::new();
    let mut t: usize = 0;
    while t < n
        invariant
            n == nodes@.len(),
            0 <= t <= n,
            deg@.len() == t,
            forall|k: int| 0 <= k < t ==> #[trigger] deg@[k] == 0,
        decreases n - t,
    {
        deg.push(0);
        t += 1;
    }
    proof {
        assert forall|k: int| 0 <= k < n implies #[trigger] deg@[k] == pending(
            links@,
            0,
            0,
            nodes@[k].id,
            none,
        ) by {
            lemma_pending_empty(links@, 0, nodes@[k].id, none);
        }
    }
    let mut ci: usize = 0;
    while ci < links.len()
        invariant
            ids_distinct(nodes@),
            none == Set::<u32>::empty(),
            n == nodes@.len(),
            deg@.len() == n,
            0 <= ci <= links@.len(),
            forall|k: int|
                0 <= k < n ==> #[trigger] deg@[k] == pending(links@, 0, ci as int, nodes@[k].id, none),
        decreases links@.len() - ci,
    {
        let c = links[ci];
        let ghost before = deg@;
        let mut hit: Option<usize> = None;
        if c.enabled {
            hit = position_of(nodes, c.to);
        }
        match hit {
            Some(k) => {
                proof {
                    lemma_pending_bound(links@, 0, ci as int, nodes@[k as int].id, none);
                }
                let d = deg[k];
                deg.set(k, d + 1);
            },
            None => {},
        }
        proof {
            assert forall|k: int| 0 <= k < n implies #[trigger] deg@[k] == pending(
                links@,
                0,
                ci + 1,
                nodes@[k].id,
                none,
            ) by {
                assert(before[k] == pending(links@, 0, ci as int, nodes@[k].id, none));
                lemma_pending_back(links@, 0, ci as int, nodes@[k].id, none);
                assert(links@[ci as int] == c);
                match hit {
                    Some(kk) => {
                        assert(c.enabled && nodes@[kk as int].id == c.to);
                        if kk as int != k {
                            lemma_distinct_ids(nodes@, k, kk as int);
                            assert(deg@[k] == before[k]);
                            assert(!counts(c, nodes@[k].id, none));
                        } else {
                            assert(deg@[k] == before[k] + 1);
                            assert(counts(c, nodes@[k].id, none));
                        }
                    },
                    None => {
                        assert(deg@[k] == before[k]);
                        assert(!counts(c, nodes@[k].id, none));
                    },
                }
            }
        }
        ci += 1;
    }
    deg
}

/// The positions whose count is zero, in increasing order.
fn zero_positions(nodes: &[NodeGene], links: &[Link], deg: &Vec<usize>) -> (q: Vec<usize>)
    requires
        deg_ok(nodes@, links@, deg@, Set::empty()),
    ensures
        queue_ok(nodes@.len() as int, deg@, q@),
        queue_ordered(nodes@, links@, q@),
{
    let n = deg.len();
    let ghost none = Set::<u32>::empty();
    let mut q: Vec<usize> = Vec::new();
    let mut t: usize = 0;
    while t < n
        invariant
            n == deg@.len(),
            deg_ok(nodes@, links@, deg@, none),
            0 <= t <= n,
            q@.no_duplicates(),
            forall|p: int| 0 <= p < q@.len() ==> #[trigger] q@[p] < t,
            forall|k: usize| k < n ==> (#[trigger] q@.contains(k) <==> (k < t && deg@[k as int] == 0)),
            forall|p: int| 0 <= p < q@.len() ==> deg@[#[trigger] q@[p] as int] == 0,
        decreases n - t,
    {
        if deg[t] == 0 {
            let ghost q0 = q@;
            q.push(t);
            proof {
                assert forall|k: usize| k < n implies (#[trigger] q@.contains(k) <==> (k < t + 1 && deg@[k as int]
                    == 0)) by {
                    if k == t {
                        assert(q@[q0.len() as int] == t);
                    }
                    if q@.contains(k) && k != t {
                        let p = choose|p: int| 0 <= p < q@.len() && q@[p] == k;
                        assert(q0[p] == k);
                    }
                    if q0.contains(k) {
                        let p = choose|p: int| 0 <= p < q0.len() && q0[p] == k;
                        assert(q@[p] == k);
                    }
                }
            }
        }
        t += 1;
    }
    proof {
        assert forall|p: int, i: int|
            0 <= p < q@.len() && 0 <= i < links@.len() && (#[trigger] links@[i]).enabled implies links@[i].to
                != nodes@[#[trigger] q@[p] as int].id by {
            let k = q@[p] as int;
            assert(deg@[k] == 0);
            lemma_pending_zero(links@, 0, links@.len() as int, nodes@[k].id, none);
        }
        lemma_ordered_sources(nodes@, links@, q@);
    }
    q
}

/// Take the node at queue position `head`: its enabled outgoing links no
/// longer count, and nodes whose count drops to zero join the queue.
fn release(nodes: &[NodeGene], links: &[Link], deg: &mut Vec<usize>, queue: &mut Vec<usize>, head: usize)
    requires
        ids_distinct(nodes@),
        head < old(queue)@.len(),
        deg_ok(nodes@, links@, old(deg)@, done_ids(nodes@, old(queue)@, head as int)),
        queue_ok(nodes@.len() as int, old(deg)@, old(queue)@),
        queue_ordered(nodes@, links@, old(queue)@),
    ensures
        deg_ok(nodes@, links@, final(deg)@, done_ids(nodes@, final(queue)@, head + 1)),
        queue_ok(nodes@.len() as int, final(deg)@, final(queue)@),
        queue_ordered(nodes@, links@, final(queue)@),
        final(queue)@.len() >= old(queue)@.len(),
        final(queue)@.subrange(0, old(queue)@.len() as int) == old(queue)@,
{
    let n = nodes.len();
    let nd = queue[head];
    let nd_id = nodes[nd].id;
    let ghost q0 = queue@;
    let ghost done0 = done_ids(nodes@, q0, head as int);
    let ghost done1 = done_ids(nodes@, q0, head + 1);
    proof {
        assert(done1 =~= done0.insert(nd_id)) by {
            assert(nodes@[q0[head as int] as int].id == nd_id);
        }
        assert(!done0.contains(nd_id)) by {
            if done0.contains(nd_id) {
                let j = choose|j: int| 0 <= j < head && nodes@[q0[j] as int].id == nd_id;
                assert(q0[j] != q0[head as int]);
                lemma_distinct_ids(nodes@, q0[j] as int, nd as int);
            }
        }
        assert forall|k: int| 0 <= k < n implies #[trigger] deg@[k] == pending(
            links@,
            0,
            0,
            nodes@[k].id,
            done1,
        ) + pending(links@, 0, links@.len() as int, nodes@[k].id, done0) by {
            lemma_pending_empty(links@, 0, nodes@[k].id, done1);
        }
    }
    let mut ci: usize = 0;
    while ci < links.len()
        invariant
            ids_distinct(nodes@),
            n == nodes@.len(),
            deg@.len() == n,
            head < q0.len(),
            nd < n,
            nodes@[nd as int].id == nd_id,
            done1 == done0.insert(nd_id),
            !done0.contains(nd_id),
            done1 == done_ids(nodes@, q0, head + 1),
            queue@.len() >= q0.len(),
            queue@.subrange(0, q0.len() as int) == q0,
            queue_ok(n as int, deg@, queue@),
            queue_ordered(nodes@, links@, queue@),
            forall|k: int|
                0 <= k < n ==> #[trigger] deg@[k] == pending(links@, 0, ci as int, nodes@[k].id, done1)
                    + pending(links@, ci as int, links@.len() as int, nodes@[k].id, done0),
            0 <= ci <= links@.len(),
        decreases links@.len() - ci,
    {
        let c = links[ci];
        let ghost before = deg@;
        let ghost qb = queue@;
        let mut hit: Option<usize> = None;
        if c.enabled && c.from == nd_id {
            hit = position_of(nodes, c.to);
        }
        proof {
            assert forall|k: int| 0 <= k < n implies #[trigger] before[k] == pending(
                links@,
                0,
                ci + 1,
                nodes@[k].id,
                done1,
            ) + pending(links@, ci + 1, links@.len() as int, nodes@[k].id, done0) + ind(
                c.enabled && c.from == nd_id && c.to == nodes@[k].id,
            ) by {
                lemma_release_step(links@, ci as int, nodes@[k].id, done0, nd_id);
            }
        }
        match hit {
            Some(k) => {
                assert(before[k as int] >= 1);
                let d = deg[k];
                deg.set(k, d - 1);
                if d - 1 == 0 {
                    proof {
                        lemma_pending_zero(links@, 0, ci + 1, nodes@[k as int].id, done1);
                        lemma_pending_zero(links@, ci + 1, links@.len() as int, nodes@[k as int].id, done0);
                        assert(!qb.contains(k));
                    }
                    proof {
                        assert forall|i: int|
                            0 <= i < links@.len() && (#[trigger] links@[i]).enabled && links@[i].to
                                == nodes@[k as int].id implies exists|p2: int|
                            0 <= p2 < qb.len() && nodes@[qb[p2] as int].id == links@[i].from by {
                            if i >= ci + 1 {
                                assert(done0.contains(links@[i].from));
                            }
                            assert(done1.contains(links@[i].from));
                            let p2 = choose|p2: int| 0 <= p2 < head + 1 && nodes@[q0[p2] as int].id == links@[i].from;
                            assert(qb.subrange(0, q0.len() as int)[p2] == q0[p2]);
                            assert(qb[p2] == q0[p2]);
                        }
                        lemma_ordered_push(nodes@, links@, qb, k);
                    }
                    queue.push(k);
                }
            },
            None => {},
        }
        proof {
            assert forall|k: int| 0 <= k < n implies #[trigger] deg@[k] == pending(
                links@,
                0,
                ci + 1,
                nodes@[k].id,
                done1,
            ) + pending(links@, ci + 1, links@.len() as int, nodes@[k].id, done0) by {
                if let Some(kk) = hit {
                    if kk != k {
                        lemma_distinct_ids(nodes@, k, kk as int);
                    }
                }
            }
            broadcast use vstd::seq_lib::lemma_seq_contains_after_push;
            assert forall|x: usize| x < n implies (#[trigger] queue@.contains(x) <==> deg@[x as int] == 0) by {
                assert(qb.contains(x) <==> before[x as int] == 0);
                match hit {
                    Some(kk) => {
                        if x != kk {
                            assert(deg@[x as int] == before[x as int]);
                            assert(queue@ == qb || queue@ == qb.push(kk));
                        } else {
                            assert(before[x as int] >= 1);
                            assert(queue@ == qb.push(kk) <==> deg@[x as int] == 0);
                        }
                    },
                    None => {
                        assert(queue@ == qb);
                        assert(deg@ == before);
                    },
                }
            }
            assert(queue@.subrange(0, q0.len() as int) =~= q0) by {
                assert forall|j: int| 0 <= j < q0.len() implies queue@[j] == q0[j] by {
                    assert(qb.subrange(0, q0.len() as int)[j] == q0[j]);
                }
            }
        }
        ci += 1;
    }
    proof {
        assert(done_ids(nodes@, queue@, head + 1) =~= done1) by {
            assert forall|j: int| 0 <= j < head + 1 implies queue@[j] == q0[j] by {
                assert(queue@.subrange(0, q0.len() as int)[j] == q0[j]);
            }
            assert forall|x: u32| done_ids(nodes@, queue@, head + 1).contains(x) <==> done1.contains(x) by {
                if done_ids(nodes@, queue@, head + 1).contains(x) {
                    let j = choose|j: int| 0 <= j < head + 1 && nodes@[queue@[j] as int].id == x;
                    assert(queue@[j] == q0[j]);
                }
                if done1.contains(x) {
                    let j = choose|j: int| 0 <= j < head + 1 && nodes@[q0[j] as int].id == x;
                    assert(queue@[j] == q0[j]);
                }
            }
        }
        assert forall|k: int| 0 <= k < n implies #[trigger] deg@[k] == pending(
            links@,
            0,
            links@.len() as int,
            nodes@[k].id,
            done1,
        ) by {
            lemma_pending_empty(links@, links@.len() as int, nodes@[k].id, done0);
        }
    }
}

/// A finite ranking has a largest rank.
proof fn lemma_max_rank(rank: Seq<nat>) -> (m: nat)
    ensures
        forall|t: int| 0 <= t < rank.len() ==> #[trigger] rank[t] <= m,
    decreases rank.len(),
{
    if rank.len() == 0 {
        0
    } else {
        let m0 = lemma_max_rank(rank.drop_last());
        let m = if rank.last() > m0 {
            rank.last()
        } else {
            m0
        };
        assert forall|t: int| 0 <= t < rank.len() implies #[trigger] rank[t] <= m by {
            if t < rank.len() - 1 {
                assert(rank.drop_last()[t] == rank[t]);
            }
        }
        m
    }
}

/// Once the queue has been worked off, a ranking puts every node of rank
/// at most `r` in it.
proof fn lemma_all_queued(
    nodes: Seq<NodeGene>,
    links: Seq<Link>,
    rank: Seq<nat>,
    q: Seq<usize>,
    deg: Seq<usize>,
    r: nat,
)
    requires
        ranked(nodes, links, rank),
        nodes.len() <= usize::MAX,
        queue_ok(nodes.len() as int, deg, q),
        deg_ok(nodes, links, deg, done_ids(nodes, q, q.len() as int)),
    ensures
        forall|t: usize| t < nodes.len() && rank[t as int] <= r ==> #[trigger] q.contains(t),
    decreases r,
{
    if r > 0 {
        lemma_all_queued(nodes, links, rank, q, deg, (r - 1) as nat);
    }
    let done = done_ids(nodes, q, q.len() as int);
    assert forall|t: usize| t < nodes.len() && rank[t as int] <= r implies #[trigger] q.contains(t) by {
        if r == 0 || rank[t as int] == r {
            lemma_rank_step(nodes, links, rank, q, t as int);
            lemma_pending_zero(links, 0, links.len() as int, nodes[t as int].id, done);
            assert(deg[t as int] == 0);
        }
    }
}

/// When every lower-ranked node is queued, every enabled link into `t`
/// comes from a queued node.
proof fn lemma_rank_step(nodes: Seq<NodeGene>, links: Seq<Link>, rank: Seq<nat>, q: Seq<usize>, t: int)
    requires
        ranked(nodes, links, rank),
        0 <= t < nodes.len(),
        nodes.len() <= usize::MAX,
        forall|s: usize| s < nodes.len() && rank[s as int] < rank[t] ==> #[trigger] q.contains(s),
    ensures
        forall|j: int|
            0 <= j < links.len() && (#[trigger] links[j]).enabled && links[j].to == nodes[t].id
                ==> done_ids(nodes, q, q.len() as int).contains(links[j].from),
{
    assert forall|j: int|
        0 <= j < links.len() && (#[trigger] links[j]).enabled && links[j].to == nodes[t].id implies done_ids(
        nodes,
        q,
        q.len() as int,
    ).contains(links[j].from) by {
        let s = lemma_ranked_source(nodes, links, rank, t, j);
        let su = s as usize;
        assert(rank[su as int] < rank[t]);
        assert(q.contains(su));
        let p = choose|p: int| 0 <= p < q.len() && q[p] == su;
        assert(nodes[q[p] as int].id == links[j].from);
    }
}

pub(crate) proof fn lemma_ranked_len(nodes: Seq<NodeGene>, links: Seq<Link>, rank: Seq<nat>)
    requires
        ranked(nodes, links, rank),
    ensures
        rank.len() == nodes.len(),
{
    reveal(ranked);
}

/// The lower-ranked source of an enabled link into node `t`.
pub(crate) proof fn lemma_ranked_source(nodes: Seq<NodeGene>, links: Seq<Link>, rank: Seq<nat>, t: int, j: int) -> (s: int)
    requires
        ranked(nodes, links, rank),
        0 <= t < nodes.len(),
        0 <= j < links.len(),
        links[j].enabled,
        links[j].to == nodes[t].id,
    ensures
        0 <= s < nodes.len(),
        nodes[s].id == links[j].from,
        rank[s] < rank[t],
{
    reveal(ranked);
    choose|s: int| 0 <= s < nodes.len() && (#[trigger] nodes[s]).id == links[j].from && rank[s] < rank[t]
}

/// A fully worked-off queue that holds every node gives a ranking: the
/// queue positions.
proof fn lemma_queue_ranks(nodes: Seq<NodeGene>, links: Seq<Link>, q: Seq<usize>)
    requires
        nodes.len() <= usize::MAX,
        q.no_duplicates(),
        q.len() == nodes.len(),
        forall|p: int| 0 <= p < q.len() ==> #[trigger] q[p] < nodes.len(),
        forall|k: usize| k < nodes.len() ==> #[trigger] q.contains(k),
        queue_ordered(nodes, links, q),
    ensures
        feeds_forward(nodes, links),
{
    let n = nodes.len();
    let rank = Seq::new(n, |t: int| choose|p: nat| p < q.len() && q[p as int] as int == t);
    assert forall|t: int| 0 <= t < n implies q[(#[trigger] rank[t]) as int] as int == t && rank[t] < q.len() by {
        assert(q.contains(t as usize));
        let p = choose|p: int| 0 <= p < q.len() && q[p] == t as usize;
        assert(q[(p as nat) as int] as int == t);
    }
    assert forall|t: int, i: int|
        0 <= t < nodes.len() && 0 <= i < links.len() && (#[trigger] links[i]).enabled && links[i].to
            == (#[trigger] nodes[t]).id implies exists|s: int|
        0 <= s < nodes.len() && (#[trigger] nodes[s]).id == links[i].from && rank[s] < rank[t] by {
        let p = rank[t] as int;
        assert(q[p] as int == t);
        assert(links[i].to == nodes[q[p] as int].id);
        let p2 = lemma_ordered_source(nodes, links, q, p, i);
        let s = q[p2] as int;
        assert(0 <= s < n);
        assert(q[rank[s] as int] as int == s);
        assert(q[rank[s] as int] == q[p2]);
        assert(rank[s] as int == p2);
    }
    reveal(ranked);
    assert(ranked(nodes, links, rank));
}

/// Whether the enabled links let the network be evaluated node by node
/// (Kahn's algorithm: repeatedly take a node all of whose incoming links
/// come from taken nodes).
pub fn is_feed_forward(nodes: &[NodeGene], links: &[Link]) -> (r: bool)
    requires
        ids_distinct(nodes@),
    ensures
        r == feeds_forward(nodes@, links@),
{
    match evaluation_order(nodes, links) {
        Some(_) => true,
        None => false,
    }
}

/// `order` lists every node position once, and every enabled link into a
/// node comes from a node listed before it: an order in which the network
/// can be evaluated.
pub open spec fn evaluation_order_ok(nodes: Seq<NodeGene>, links: Seq<Link>, order: Seq<usize>) -> bool {
    &&& order.len() == nodes.len()
    &&& order.no_duplicates()
    &&& forall|p: int| 0 <= p < order.len() ==> #[trigger] order[p] < nodes.len()
    &&& queue_ordered(nodes, links, order)
}

/// The order in which a compiled network evaluates its nodes (Kahn's
/// algorithm on the enabled links), or `None` when the links are not
/// feed-forward.
pub fn evaluation_order(nodes: &[NodeGene], links: &[Link]) -> (r: Option<Vec<usize>>)
    requires
        ids_distinct(nodes@),
    ensures
        r is Some <==> feeds_forward(nodes@, links@),
        r matches Some(order) ==> evaluation_order_ok(nodes@, links@, order@),
{
    let n = nodes.len();
    let mut deg = count_incoming(nodes, links);
    let mut queue = zero_positions(nodes, links, &deg);
    proof {
        assert(done_ids(nodes@, queue@, 0) =~= Set::<u32>::empty());
        lemma_positions(queue@, n as nat);
    }
    let mut head: usize = 0;
    while head < queue.len()
        invariant
            ids_distinct(nodes@),
            n == nodes@.len(),
            0 <= head <= queue@.len(),
            queue@.len() <= n,
            deg_ok(nodes@, links@, deg@, done_ids(nodes@, queue@, head as int)),
            queue_ok(n as int, deg@, queue@),
            queue_ordered(nodes@, links@, queue@),
        decreases n - head,
    {
        release(nodes, links, &mut deg, &mut queue, head);
        head += 1;
        proof {
            lemma_positions(queue@, n as nat);
        }
    }
    let ok = queue.len() == n;
    proof {
        lemma_positions(queue@, n as nat);
        if ok {
            lemma_queue_ranks(nodes@, links@, queue@);
        } else if feeds_forward(nodes@, links@) {
            let rank = choose|rank: Seq<nat>| #[trigger] ranked(nodes@, links@, rank);
            lemma_ranked_len(nodes@, links@, rank);
            let m = lemma_max_rank(rank);
            lemma_all_queued(nodes@, links@, rank, queue@, deg@, m);
            assert forall|k: usize| k < n implies #[trigger] queue@.contains(k) by {
                assert(rank[k as int] <= m);
            }
        }
    }
    if ok {
        Some(queue)
    } else {
        None
    }
}

/// The nodes of the smallest network: the inputs with ids `0..inputs`, the
/// bias node with id `inputs`, then the outputs; each node's id is its
/// position.
pub open spec fn minimal_nodes(inputs: nat, outputs: nat) -> Seq<NodeGene> {
    Seq::new(
        inputs + 1 + outputs,
        |k: int|
            NodeGene {
                id: k as u32,
                kind: if k < inputs {
                    NodeKind::Input
                } else if k == inputs {
                    NodeKind::Bias
                } else {
                    NodeKind::Output
                },
            },
    )
}

/// The links of the smallest network: from every input and the bias node
/// (in id order) to every output (in id order), all enabled, numbered in
/// that order.
pub open spec fn minimal_links(inputs: nat, outputs: nat) -> Seq<Link> {
    Seq::new(
        (inputs + 1) * outputs,
        |k: int|
            Link {
                innovation: k as u32,
                from: (k / outputs as int) as u32,
                to: (inputs + 1 + k % outputs as int) as u32,
                enabled: true,
            },
    )
}

/// The topology of the smallest network of a trainer's run: every input
/// and the bias node linked to every output.
pub fn minimal_topology(inputs: usize, outputs: usize) -> (r: (Vec<NodeGene>, Vec<Link>))
    requires
        inputs + 1 + outputs <= u32::MAX,
        (inputs + 1) * outputs <= u32::MAX,
    ensures
        r.0@ == minimal_nodes(inputs as nat, outputs as nat),
        r.1@ == minimal_links(inputs as nat, outputs as nat),
{
    let n = inputs + 1 + outputs;
    let mut nodes: Vec<NodeGene> = Vec::new();
    let mut k: usize = 0;
    while k < n
        invariant
            n == inputs + 1 + outputs,
            n <= u32::MAX,
            0 <= k <= n,
            nodes@ == minimal_nodes(inputs as nat, outputs as nat).subrange(0, k as int),
        decreases n - k,
    {
        let kind = if k < inputs {
            NodeKind::Input
        } else if k == inputs {
            NodeKind::Bias
        } else {
            NodeKind::Output
        };
        nodes.push(NodeGene { id: k as u32, kind });
        proof {
            assert(nodes@ =~= minimal_nodes(inputs as nat, outputs as nat).subrange(0, k + 1));
        }
        k += 1;
    }
    let mut links: Vec<Link> = Vec::new();
    let mut src: usize = 0;
    let mut innovation: u32 = 0;
    while src <= inputs
        invariant
            inputs + 1 + outputs <= u32::MAX,
            (inputs + 1) * outputs <= u32::MAX,
            0 <= src <= inputs + 1,
            innovation == src * outputs,
            links@ == minimal_links(inputs as nat, outputs as nat).subrange(0, src * outputs),
        decreases inputs + 1 - src,
    {
        proof {
            assert(src * outputs + outputs == (src + 1) * outputs) by (nonlinear_arith);
            assert((src + 1) * outputs <= (inputs + 1) * outputs) by (nonlinear_arith)
                requires
                    src + 1 <= inputs + 1,
            ;
        }
        let mut o: usize = 0;
        while o < outputs
            invariant
                inputs + 1 + outputs <= u32::MAX,
                (inputs + 1) * outputs <= u32::MAX,
                0 <= src <= inputs,
                0 <= o <= outputs,
                (src + 1) * outputs <= (inputs + 1) * outputs,
                src * outputs + outputs == (src + 1) * outputs,
                innovation == src * outputs + o,
                links@ == minimal_links(inputs as nat, outputs as nat).subrange(0, src * outputs + o),
            decreases outputs - o,
        {
            proof {
                let kk = src * outputs + o;
                vstd::arithmetic::div_mod::lemma_fundamental_div_mod_converse(
                    kk,
                    outputs as int,
                    src as int,
                    o as int,
                );
            }
            links.push(
                Link {
                    innovation,
                    from: src as u32,
                    to: (inputs + 1 + o) as u32,
                    enabled: true,
                },
            );
            proof {
                assert(links@ =~= minimal_links(inputs as nat, outputs as nat).subrange(
                    0,
                    src * outputs + o + 1,
                ));
            }
            innovation = innovation + 1;
            o += 1;
        }
        src += 1;
    }
    proof {
        assert(links@ =~= minimal_links(inputs as nat, outputs as nat));
        assert(nodes@ =~= minimal_nodes(inputs as nat, outputs as nat));
    }
    (nodes, links)
}

} // verus!
