//! The structural mutations of evolved networks: adding a link between two
//! chosen nodes, and splitting a link by a new hidden node. The choices
//! (which ends, which link) are made by the trainer and handed in; both
//! operations keep a feed-forward network feed-forward.
use vstd::prelude::*;

use crate::innovation::{Innovations, InnovationsView};
use crate::neat::{
    creates_cycle, edge, feeds_forward, ids_distinct, is_feed_forward, lemma_ranked_len, minimal_links,
    minimal_nodes,
    lemma_ranked_source, lemma_reaches_self, lemma_reaches_step, ranked, reaches, Link,
};
use crate::nn::{NodeGene, NodeKind};

verus! {

/// The number a link between `from` and `to` gets: the recorded one, or the
/// next free number.
pub open spec fn link_number(v: InnovationsView, from: u32, to: u32) -> u32 {
    if v.conn.contains_key((from, to)) {
        v.conn[(from, to)]
    } else {
        v.next_conn
    }
}

/// The innovations after a link between `from` and `to` was numbered.
pub open spec fn after_numbering(v: InnovationsView, from: u32, to: u32) -> InnovationsView {
    if v.conn.contains_key((from, to)) {
        v
    } else {
        InnovationsView {
            conn: v.conn.insert((from, to), v.next_conn),
            next_conn: (v.next_conn + 1) as u32,
            ..v
        }
    }
}

/// Some link, enabled or not, already leads from `from` to `to`.
pub open spec fn has_link(links: Seq<Link>, from: u32, to: u32) -> bool {
    exists|i: int| 0 <= i < links.len() && (#[trigger] links[i]).from == from && links[i].to == to
}

/// Some node has the id `id`.
pub open spec fn is_node(nodes: Seq<NodeGene>, id: u32) -> bool {
    exists|s: int| 0 <= s < nodes.len() && (#[trigger] nodes[s]).id == id
}

/// Every node id and every link end lies below `bound`.
pub open spec fn ids_below(nodes: Seq<NodeGene>, links: Seq<Link>, bound: u32) -> bool {
    &&& forall|s: int| 0 <= s < nodes.len() ==> (#[trigger] nodes[s]).id < bound
    &&& forall|i: int| 0 <= i < links.len() ==> (#[trigger] links[i]).from < bound && links[i].to < bound
}

/// Every link starts and ends at a node.
pub open spec fn ends_on_nodes(nodes: Seq<NodeGene>, links: Seq<Link>) -> bool {
    forall|i: int|
        0 <= i < links.len() ==> is_node(nodes, (#[trigger] links[i]).from) && is_node(nodes, links[i].to)
}

/// A genome the structural mutations keep well formed: distinct node ids,
/// every id below the next fresh one, links between nodes, and
/// feed-forward.
pub open spec fn genome_ok(nodes: Seq<NodeGene>, links: Seq<Link>, next_node: u32) -> bool {
    &&& ids_distinct(nodes)
    &&& ids_below(nodes, links, next_node)
    &&& ends_on_nodes(nodes, links)
    &&& feeds_forward(nodes, links)
}

/// A node stays a node when another is appended.
proof fn lemma_is_node_push(nodes: Seq<NodeGene>, n: NodeGene, id: u32)
    requires
        is_node(nodes, id),
    ensures
        is_node(nodes.push(n), id),
{
    let s = choose|s: int| 0 <= s < nodes.len() && (#[trigger] nodes[s]).id == id;
    assert(nodes.push(n)[s] == nodes[s]);
}

/// Add an enabled link `from → to`, unless a link between the two already
/// exists (enabled or not) or the new link would close a cycle. A new link
/// is numbered by the innovations. Returns whether the link was added.
pub fn add_link(
    nodes: &[NodeGene],
    links: &mut Vec<Link>,
    innov: &mut Innovations,
    from: u32,
    to: u32,
) -> (added: bool)
    requires
        old(innov).wf(),
        !old(innov)@.conn.contains_key((from, to)) ==> old(innov)@.next_conn < u32::MAX,
    ensures
        final(innov).wf(),
        added == (!has_link(old(links)@, from, to) && !(from == to || reaches(old(links)@, to, from))),
        added ==> final(links)@ == old(links)@.push(
            Link { innovation: link_number(old(innov)@, from, to), from, to, enabled: true },
        ),
        added ==> final(innov)@ == after_numbering(old(innov)@, from, to),
        !added ==> final(links)@ == old(links)@ && final(innov)@ == old(innov)@,
        feeds_forward(nodes@, old(links)@) && is_node(nodes@, from) ==> feeds_forward(
            nodes@,
            final(links)@,
        ),
        final(innov)@.next_node == old(innov)@.next_node,
        genome_ok(nodes@, old(links)@, old(innov)@.next_node) && is_node(nodes@, from) && is_node(
            nodes@,
            to,
        ) ==> genome_ok(nodes@, final(links)@, final(innov)@.next_node),
{
    let mut i: usize = 0;
    while i < links.len()
        invariant
            0 <= i <= links@.len(),
            links@ == old(links)@,
            innov@ == old(innov)@,
            innov.wf(),
            forall|j: int| 0 <= j < i ==> !((#[trigger] links@[j]).from == from && links@[j].to == to),
        decreases links@.len() - i,
    {
        if links[i].from == from && links[i].to == to {
            return false;
        }
        i += 1;
    }
    if creates_cycle(links.as_slice(), from, to) {
        return false;
    }
    let ghost before = links@;
    let innovation = innov.conn_innovation(from, to);
    links.push(Link { innovation, from, to, enabled: true });
    proof {
        if feeds_forward(nodes@, before) && is_node(nodes@, from) {
            lemma_add_keeps_forward(nodes@, before, from, to, innovation);
        }
        if genome_ok(nodes@, before, old(innov)@.next_node) && is_node(nodes@, from) && is_node(
            nodes@,
            to,
        ) {
            let s1 = choose|s: int| 0 <= s < nodes@.len() && (#[trigger] nodes@[s]).id == from;
            let s2 = choose|s: int| 0 <= s < nodes@.len() && (#[trigger] nodes@[s]).id == to;
            assert(nodes@[s1].id < old(innov)@.next_node && nodes@[s2].id < old(innov)@.next_node);
            assert forall|i: int| 0 <= i < links@.len() implies is_node(nodes@, (#[trigger] links@[i]).from)
                && is_node(nodes@, links@[i].to) by {
                if i < before.len() {
                    assert(links@[i] == before[i]);
                }
            }
            assert forall|i: int| 0 <= i < links@.len() implies (#[trigger] links@[i]).from
                < old(innov)@.next_node && links@[i].to < old(innov)@.next_node by {
                if i < before.len() {
                    assert(links@[i] == before[i]);
                }
            }
        }
    }
    true
}

/// A link from a node to a node that cannot reach it keeps the network
/// feed-forward: the nodes reachable from the target move up past the
/// source.
proof fn lemma_add_keeps_forward(nodes: Seq<NodeGene>, links: Seq<Link>, from: u32, to: u32, n: u32)
    requires
        feeds_forward(nodes, links),
        is_node(nodes, from),
        !(from == to || reaches(links, to, from)),
    ensures
        feeds_forward(nodes, links.push(Link { innovation: n, from, to, enabled: true })),
{
    let rank = choose|rank: Seq<nat>| #[trigger] ranked(nodes, links, rank);
    lemma_ranked_len(nodes, links, rank);
    let s0 = choose|s: int| 0 <= s < nodes.len() && (#[trigger] nodes[s]).id == from;
    let m: nat = rank[s0] + 1;
    let r2 = Seq::new(
        nodes.len(),
        |s: int|
            if reaches(links, to, nodes[s].id) {
                rank[s] + m
            } else {
                rank[s]
            },
    );
    let ext = links.push(Link { innovation: n, from, to, enabled: true });
    assert forall|t: int, i: int|
        0 <= t < nodes.len() && 0 <= i < ext.len() && (#[trigger] ext[i]).enabled && ext[i].to
            == (#[trigger] nodes[t]).id implies exists|s: int|
        0 <= s < nodes.len() && (#[trigger] nodes[s]).id == ext[i].from && r2[s] < r2[t] by {
        if i < links.len() {
            assert(ext[i] == links[i]);
            let s = lemma_ranked_source(nodes, links, rank, t, i);
            if reaches(links, to, nodes[s].id) {
                assert(edge(links, nodes[s].id, nodes[t].id));
                lemma_reaches_step(links, to, nodes[s].id, nodes[t].id);
            }
            assert(r2[s] < r2[t]);
        } else {
            lemma_reaches_self(links, to);
            assert(reaches(links, to, nodes[t].id));
            assert(r2[s0] < r2[t]);
        }
    }
    reveal(ranked);
    assert(ranked(nodes, ext, r2));
}

/// The links and innovations after the link at `idx` is split by the node
/// `new_id`: the link is disabled, and links from its source to the new
/// node and from the new node to its target are appended, numbered in that
/// order.
pub open spec fn split_result(links: Seq<Link>, idx: int, new_id: u32, v: InnovationsView) -> (
    Seq<Link>,
    InnovationsView,
) {
    let l = links[idx];
    let v1 = after_numbering(v, l.from, new_id);
    let first = Link { innovation: link_number(v, l.from, new_id), from: l.from, to: new_id, enabled: true };
    let second = Link { innovation: link_number(v1, new_id, l.to), from: new_id, to: l.to, enabled: true };
    (
        links.update(idx, Link { enabled: false, ..l }).push(first).push(second),
        after_numbering(v1, new_id, l.to),
    )
}

/// Split the enabled link at `idx` by a new hidden node with a fresh id:
/// the link is disabled and replaced by two links through the new node.
/// Returns the new node's id.
pub fn split_link(
    nodes: &mut Vec<NodeGene>,
    links: &mut Vec<Link>,
    innov: &mut Innovations,
    idx: usize,
) -> (new_id: u32)
    requires
        old(innov).wf(),
        idx < old(links)@.len(),
        old(links)@[idx as int].enabled,
        old(innov)@.next_node < u32::MAX,
        old(innov)@.next_conn < u32::MAX - 1,
    ensures
        final(innov).wf(),
        new_id == old(innov)@.next_node,
        final(nodes)@ == old(nodes)@.push(NodeGene { id: new_id, kind: NodeKind::Hidden }),
        final(links)@ == split_result(
            old(links)@,
            idx as int,
            new_id,
            InnovationsView { next_node: (new_id + 1) as u32, ..old(innov)@ },
        ).0,
        final(innov)@ == split_result(
            old(links)@,
            idx as int,
            new_id,
            InnovationsView { next_node: (new_id + 1) as u32, ..old(innov)@ },
        ).1,
        feeds_forward(old(nodes)@, old(links)@) && ids_distinct(old(nodes)@) && is_node(
            old(nodes)@,
            old(links)@[idx as int].from,
        ) && ids_below(old(nodes)@, old(links)@, new_id) ==> feeds_forward(final(nodes)@, final(links)@),
        genome_ok(old(nodes)@, old(links)@, old(innov)@.next_node) ==> genome_ok(
            final(nodes)@,
            final(links)@,
            final(innov)@.next_node,
        ),
{
    let l = links[idx];
    links.set(idx, Link { enabled: false, ..l });
    let new_id = innov.new_node();
    nodes.push(NodeGene { id: new_id, kind: NodeKind::Hidden });
    let i1 = innov.conn_innovation(l.from, new_id);
    let i2 = innov.conn_innovation(new_id, l.to);
    links.push(Link { innovation: i1, from: l.from, to: new_id, enabled: true });
    links.push(Link { innovation: i2, from: new_id, to: l.to, enabled: true });
    proof {
        let v = InnovationsView { next_node: (new_id + 1) as u32, ..old(innov)@ };
        assert(links@ =~= split_result(old(links)@, idx as int, new_id, v).0);
        assert(links@ =~= split_links(old(links)@, idx as int, new_id, i1, i2)) by {
            reveal(split_links);
        }
        if feeds_forward(old(nodes)@, old(links)@) && ids_distinct(old(nodes)@) && is_node(
            old(nodes)@,
            l.from,
        ) && ids_below(old(nodes)@, old(links)@, new_id) {
            lemma_split_keeps_forward(old(nodes)@, old(links)@, idx as int, new_id, i1, i2);
        }
        if genome_ok(old(nodes)@, old(links)@, old(innov)@.next_node) {
            assert(is_node(old(nodes)@, l.from) && is_node(old(nodes)@, l.to));
            lemma_split_keeps_genome(old(nodes)@, old(links)@, idx as int, new_id, i1, i2);
        }
    }
    new_id
}

/// Splitting a link by a node with a fresh id keeps the ids distinct and
/// below the next fresh id, and every link between nodes.
proof fn lemma_split_keeps_genome(
    nodes: Seq<NodeGene>,
    links: Seq<Link>,
    idx: int,
    new_id: u32,
    i1: u32,
    i2: u32,
)
    requires
        0 <= idx < links.len(),
        new_id < u32::MAX,
        ids_distinct(nodes),
        ids_below(nodes, links, new_id),
        ends_on_nodes(nodes, links),
    ensures
        ids_distinct(nodes.push(NodeGene { id: new_id, kind: NodeKind::Hidden })),
        ids_below(
            nodes.push(NodeGene { id: new_id, kind: NodeKind::Hidden }),
            split_links(links, idx, new_id, i1, i2),
            (new_id + 1) as u32,
        ),
        ends_on_nodes(
            nodes.push(NodeGene { id: new_id, kind: NodeKind::Hidden }),
            split_links(links, idx, new_id, i1, i2),
        ),
{
    reveal(split_links);
    let nn = NodeGene { id: new_id, kind: NodeKind::Hidden };
    let nodes2 = nodes.push(nn);
    let links2 = split_links(links, idx, new_id, i1, i2);
    let l = links[idx];
    assert forall|a: int, b: int| 0 <= a < b < nodes2.len() implies (#[trigger] nodes2[a]).id != (
    #[trigger] nodes2[b]).id by {
        assert(nodes2[a] == nodes[a]);
        if b < nodes.len() {
            assert(nodes2[b] == nodes[b]);
        }
    }
    assert forall|s: int| 0 <= s < nodes2.len() implies (#[trigger] nodes2[s]).id < new_id + 1 by {
        if s < nodes.len() {
            assert(nodes2[s] == nodes[s]);
        }
    }
    assert(nodes2[nodes.len() as int] == nn);
    assert(is_node(nodes2, new_id));
    assert(is_node(nodes, l.from) && is_node(nodes, l.to));
    lemma_is_node_push(nodes, nn, l.from);
    lemma_is_node_push(nodes, nn, l.to);
    assert forall|i: int| 0 <= i < links2.len() implies (#[trigger] links2[i]).from < new_id + 1
        && links2[i].to < new_id + 1 && is_node(nodes2, links2[i].from) && is_node(nodes2, links2[i].to) by {
        if i < links.len() {
            assert(links[i].from < new_id && links[i].to < new_id);
            assert(is_node(nodes, links[i].from) && is_node(nodes, links[i].to));
            lemma_is_node_push(nodes, nn, links[i].from);
            lemma_is_node_push(nodes, nn, links[i].to);
            if i == idx {
                assert(links2[i].from == l.from && links2[i].to == l.to);
            } else {
                assert(links2[i] == links[i]);
            }
        }
    }
}

/// The links after splitting the link at `idx` by the node `new_id`.
#[verifier::opaque]
spec fn split_links(links: Seq<Link>, idx: int, new_id: u32, i1: u32, i2: u32) -> Seq<Link> {
    links.update(idx, Link { enabled: false, ..links[idx] }).push(
        Link { innovation: i1, from: links[idx].from, to: new_id, enabled: true },
    ).push(Link { innovation: i2, from: new_id, to: links[idx].to, enabled: true })
}

/// The doubled ranks, with the new node just above the split link's source.
#[verifier::opaque]
spec fn split_ranks(rank: Seq<nat>, s0: int) -> Seq<nat> {
    Seq::new(
        rank.len() + 1,
        |s: int|
            if s < rank.len() {
                2 * rank[s]
            } else {
                2 * rank[s0] + 1
            },
    )
}

/// One enabled link into a node after the split has a lower-ranked source.
proof fn lemma_split_source(
    nodes: Seq<NodeGene>,
    links: Seq<Link>,
    idx: int,
    new_id: u32,
    i1: u32,
    i2: u32,
    rank: Seq<nat>,
    s0: int,
    t: int,
    i: int,
) -> (s: int)
    requires
        ranked(nodes, links, rank),
        rank.len() == nodes.len(),
        ids_distinct(nodes),
        0 <= idx < links.len(),
        links[idx].enabled,
        0 <= s0 < nodes.len(),
        nodes[s0].id == links[idx].from,
        ids_below(nodes, links, new_id),
        0 <= t <= nodes.len(),
        0 <= i < links.len() + 2,
        split_links(links, idx, new_id, i1, i2)[i].enabled,
        split_links(links, idx, new_id, i1, i2)[i].to == nodes.push(
            NodeGene { id: new_id, kind: NodeKind::Hidden },
        )[t].id,
    ensures
        0 <= s <= nodes.len(),
        nodes.push(NodeGene { id: new_id, kind: NodeKind::Hidden })[s].id == split_links(
            links,
            idx,
            new_id,
            i1,
            i2,
        )[i].from,
        split_ranks(rank, s0)[s] < split_ranks(rank, s0)[t],
{
    reveal(split_links);
    reveal(split_ranks);
    let n = nodes.len() as int;
    let nodes2 = nodes.push(NodeGene { id: new_id, kind: NodeKind::Hidden });
    let links2 = split_links(links, idx, new_id, i1, i2);
    let r2 = split_ranks(rank, s0);
    if i < links.len() {
        assert(i != idx);
        assert(links2[i] == links[i]);
        if t == n {
            assert(links[i].to < new_id);
        }
        assert(nodes2[t] == nodes[t]);
        let s = lemma_ranked_source(nodes, links, rank, t, i);
        assert(nodes2[s] == nodes[s]);
        s
    } else if i == links.len() {
        if t < n {
            assert(nodes2[t] == nodes[t]);
            assert(nodes[t].id < new_id);
        }
        assert(nodes2[s0] == nodes[s0]);
        s0
    } else {
        if t == n {
            assert(links[idx].to < new_id);
        }
        assert(nodes2[t] == nodes[t]);
        let s = lemma_ranked_source(nodes, links, rank, t, idx);
        if s != s0 {
            if s < s0 {
                assert(nodes[s].id != nodes[s0].id);
            } else {
                assert(nodes[s0].id != nodes[s].id);
            }
        }
        n
    }
}

/// A ranking is what [`ranked`] spells out.
proof fn lemma_ranked_intro(nodes: Seq<NodeGene>, links: Seq<Link>, rank: Seq<nat>)
    requires
        rank.len() == nodes.len(),
        forall|t: int, i: int|
            0 <= t < nodes.len() && 0 <= i < links.len() && (#[trigger] links[i]).enabled && links[i].to
                == (#[trigger] nodes[t]).id ==> exists|s: int|
                0 <= s < nodes.len() && (#[trigger] nodes[s]).id == links[i].from && rank[s] < rank[t],
    ensures
        ranked(nodes, links, rank),
{
    reveal(ranked);
}

/// The split links and ranks have one more entry each (two more links).
proof fn lemma_split_lens(links: Seq<Link>, idx: int, new_id: u32, i1: u32, i2: u32, rank: Seq<nat>, s0: int)
    requires
        0 <= idx < links.len(),
    ensures
        split_links(links, idx, new_id, i1, i2).len() == links.len() + 2,
        split_ranks(rank, s0).len() == rank.len() + 1,
{
    reveal(split_links);
    reveal(split_ranks);
}

/// Splitting a link keeps the network feed-forward: the old ranks doubled,
/// and the new node just above the link's source.
proof fn lemma_split_keeps_forward(
    nodes: Seq<NodeGene>,
    links: Seq<Link>,
    idx: int,
    new_id: u32,
    i1: u32,
    i2: u32,
)
    requires
        feeds_forward(nodes, links),
        ids_distinct(nodes),
        0 <= idx < links.len(),
        links[idx].enabled,
        is_node(nodes, links[idx].from),
        ids_below(nodes, links, new_id),
    ensures
        feeds_forward(
            nodes.push(NodeGene { id: new_id, kind: NodeKind::Hidden }),
            split_links(links, idx, new_id, i1, i2),
        ),
{
    let rank = choose|rank: Seq<nat>| #[trigger] ranked(nodes, links, rank);
    lemma_ranked_len(nodes, links, rank);
    let s0 = choose|s: int| 0 <= s < nodes.len() && (#[trigger] nodes[s]).id == links[idx].from;
    let nodes2 = nodes.push(NodeGene { id: new_id, kind: NodeKind::Hidden });
    let links2 = split_links(links, idx, new_id, i1, i2);
    let r2 = split_ranks(rank, s0);
    lemma_split_lens(links, idx, new_id, i1, i2, rank, s0);
    assert forall|t: int, i: int|
        0 <= t < nodes2.len() && 0 <= i < links2.len() && (#[trigger] links2[i]).enabled && links2[i].to
            == (#[trigger] nodes2[t]).id implies exists|s: int|
        0 <= s < nodes2.len() && (#[trigger] nodes2[s]).id == links2[i].from && r2[s] < r2[t] by {
        let s = lemma_split_source(nodes, links, idx, new_id, i1, i2, rank, s0, t, i);
        assert(nodes2[s].id == links2[i].from);
    }
    lemma_ranked_intro(nodes2, links2, r2);
}

/// The gene of `b` that a lookup by innovation number `n` finds: the last
/// one with that number.
pub open spec fn gene_by_number(b: Seq<Link>, n: u32) -> Option<Link>
    decreases b.len(),
{
    if b.len() == 0 {
        None
    } else if b.last().innovation == n {
        Some(b.last())
    } else {
        gene_by_number(b.drop_last(), n)
    }
}

/// The child's copy of the fitter parent's gene `ca`: a gene that the other
/// parent shares (by number) and that is disabled in either parent is
/// disabled when the draw `disable` says so; otherwise it keeps its state.
pub open spec fn inherited(ca: Link, b: Seq<Link>, disable: bool) -> Link {
    match gene_by_number(b, ca.innovation) {
        Some(cb) => Link { enabled: !((!ca.enabled || !cb.enabled) && disable), ..ca },
        None => ca,
    }
}

/// The child's genes: one per gene of the fitter parent `a`, in order.
pub open spec fn child_links(a: Seq<Link>, b: Seq<Link>, disable: Seq<bool>) -> Seq<Link> {
    Seq::new(a.len(), |k: int| inherited(a[k], b, disable[k]))
}

/// The kind of the first node with id `id`.
pub open spec fn kind_in(nodes: Seq<NodeGene>, id: u32) -> Option<NodeKind>
    decreases nodes.len(),
{
    if nodes.len() == 0 {
        None
    } else if nodes[0].id == id {
        Some(nodes[0].kind)
    } else {
        kind_in(nodes.drop_first(), id)
    }
}

/// The input, bias and output nodes, in order.
pub open spec fn non_hidden(nodes: Seq<NodeGene>) -> Seq<NodeGene>
    decreases nodes.len(),
{
    if nodes.len() == 0 {
        nodes
    } else if nodes.last().kind != NodeKind::Hidden {
        non_hidden(nodes.drop_last()).push(nodes.last())
    } else {
        non_hidden(nodes.drop_last())
    }
}

/// `nodes` with a node of id `id` appended if none has it yet; its kind is
/// taken from parent `a`, else from parent `b`, else hidden.
pub open spec fn with_node(nodes: Seq<NodeGene>, id: u32, a: Seq<NodeGene>, b: Seq<NodeGene>) -> Seq<NodeGene> {
    if is_node(nodes, id) {
        nodes
    } else {
        let kind = match kind_in(a, id) {
            Some(k) => k,
            None => match kind_in(b, id) {
                Some(k) => k,
                None => NodeKind::Hidden,
            },
        };
        nodes.push(NodeGene { id, kind })
    }
}

/// `base` with the ends of every link (source first) added as nodes.
pub open spec fn collect_nodes(base: Seq<NodeGene>, links: Seq<Link>, a: Seq<NodeGene>, b: Seq<NodeGene>) -> Seq<NodeGene>
    decreases links.len(),
{
    if links.len() == 0 {
        base
    } else {
        let prev = collect_nodes(base, links.drop_last(), a, b);
        with_node(with_node(prev, links.last().from, a, b), links.last().to, a, b)
    }
}

/// The child of the fitter parent `a` and parent `b` with the draws
/// `disable`: `a`'s genes aligned with `b`'s by number, `a`'s fixed nodes
/// and every node the genes touch; or `a` itself where that child is not
/// feed-forward.
pub open spec fn crossover_child(
    a_nodes: Seq<NodeGene>,
    a_links: Seq<Link>,
    b_nodes: Seq<NodeGene>,
    b_links: Seq<Link>,
    disable: Seq<bool>,
) -> (Seq<NodeGene>, Seq<Link>) {
    let links = child_links(a_links, b_links, disable);
    let nodes = collect_nodes(non_hidden(a_nodes), links, a_nodes, b_nodes);
    if feeds_forward(nodes, links) {
        (nodes, links)
    } else {
        (a_nodes, a_links)
    }
}

/// A copy of a slice.
fn copy_of<T: Copy>(s: &[T]) -> (r: Vec<T>)
    ensures
        r@ == s@,
{
    let mut r: Vec<T> = Vec::new();
    let mut i: usize = 0;
    while i < s.len()
        invariant
            0 <= i <= s@.len(),
            r@ =~= s@.subrange(0, i as int),
        decreases s@.len() - i,
    {
        r.push(s[i]);
        i += 1;
    }
    r
}

/// The last gene of `b` with number `n`.
fn find_gene(b: &[Link], n: u32) -> (r: Option<Link>)
    ensures
        r == gene_by_number(b@, n),
{
    let mut found: Option<Link> = None;
    let mut j: usize = 0;
    while j < b.len()
        invariant
            0 <= j <= b@.len(),
            found == gene_by_number(b@.subrange(0, j as int), n),
        decreases b@.len() - j,
    {
        proof {
            assert(b@.subrange(0, j + 1).drop_last() =~= b@.subrange(0, j as int));
        }
        if b[j].innovation == n {
            found = Some(b[j]);
        }
        j += 1;
    }
    proof {
        assert(b@.subrange(0, b@.len() as int) =~= b@);
    }
    found
}

/// The kind of the first node with id `id`.
fn find_kind(nodes: &[NodeGene], id: u32) -> (r: Option<NodeKind>)
    ensures
        r == kind_in(nodes@, id),
{
    proof {
        assert(nodes@.subrange(0, nodes@.len() as int) =~= nodes@);
    }
    let mut i: usize = 0;
    while i < nodes.len()
        invariant
            0 <= i <= nodes@.len(),
            kind_in(nodes@, id) == kind_in(nodes@.subrange(i as int, nodes@.len() as int), id),
        decreases nodes@.len() - i,
    {
        proof {
            let rest = nodes@.subrange(i as int, nodes@.len() as int);
            assert(rest.drop_first() =~= nodes@.subrange(i + 1, nodes@.len() as int));
            assert(rest[0] == nodes@[i as int]);
        }
        if nodes[i].id == id {
            return Some(nodes[i].kind);
        }
        i += 1;
    }
    None
}

/// Append a node of id `id` unless one has it (see [`with_node`]).
fn add_node(nodes: &mut Vec<NodeGene>, id: u32, a: &[NodeGene], b: &[NodeGene])
    ensures
        final(nodes)@ == with_node(old(nodes)@, id, a@, b@),
{
    let mut i: usize = 0;
    while i < nodes.len()
        invariant
            0 <= i <= nodes@.len(),
            nodes@ == old(nodes)@,
            forall|k: int| 0 <= k < i ==> (#[trigger] nodes@[k]).id != id,
        decreases nodes@.len() - i,
    {
        if nodes[i].id == id {
            return;
        }
        i += 1;
    }
    let kind = match find_kind(a, id) {
        Some(k) => k,
        None => match find_kind(b, id) {
            Some(k) => k,
            None => NodeKind::Hidden,
        },
    };
    nodes.push(NodeGene { id, kind });
}

/// Every node of `non_hidden(nodes)` has the id of a node of `nodes`, and
/// distinct ids stay distinct.
proof fn lemma_non_hidden_distinct(nodes: Seq<NodeGene>)
    requires
        ids_distinct(nodes),
    ensures
        ids_distinct(non_hidden(nodes)),
        forall|x: int|
            0 <= x < non_hidden(nodes).len() ==> is_node(nodes, (#[trigger] non_hidden(nodes)[x]).id),
    decreases nodes.len(),
{
    if nodes.len() > 0 {
        let p = nodes.drop_last();
        assert forall|a: int, b: int| 0 <= a < b < p.len() implies (#[trigger] p[a]).id != (
        #[trigger] p[b]).id by {
            assert(p[a] == nodes[a] && p[b] == nodes[b]);
        }
        lemma_non_hidden_distinct(p);
        let q = non_hidden(p);
        if nodes.last().kind != NodeKind::Hidden {
            let r = q.push(nodes.last());
            assert forall|x: int| 0 <= x < q.len() implies (#[trigger] q[x]).id != nodes.last().id by {
                assert(is_node(p, q[x].id));
                let s = choose|s: int| 0 <= s < p.len() && (#[trigger] p[s]).id == q[x].id;
                assert(nodes[s] == p[s]);
                assert(nodes[s].id != nodes[nodes.len() - 1].id);
            }
            assert forall|a: int, b: int| 0 <= a < b < r.len() implies (#[trigger] r[a]).id != (
            #[trigger] r[b]).id by {
                if b < q.len() {
                    assert(r[a] == q[a] && r[b] == q[b]);
                } else {
                    assert(r[a] == q[a]);
                }
            }
            assert forall|x: int| 0 <= x < r.len() implies is_node(nodes, (#[trigger] r[x]).id) by {
                if x < q.len() {
                    assert(r[x] == q[x]);
                    assert(is_node(p, q[x].id));
                    let s = choose|s: int| 0 <= s < p.len() && (#[trigger] p[s]).id == q[x].id;
                    assert(nodes[s] == p[s]);
                } else {
                    assert(nodes[nodes.len() - 1].id == r[x].id);
                }
            }
        } else {
            assert forall|x: int| 0 <= x < q.len() implies is_node(nodes, (#[trigger] q[x]).id) by {
                assert(is_node(p, q[x].id));
                let s = choose|s: int| 0 <= s < p.len() && (#[trigger] p[s]).id == q[x].id;
                assert(nodes[s] == p[s]);
            }
        }
    }
}

/// Adding a node only under a new id keeps the ids distinct.
proof fn lemma_with_node_distinct(nodes: Seq<NodeGene>, id: u32, a: Seq<NodeGene>, b: Seq<NodeGene>)
    requires
        ids_distinct(nodes),
    ensures
        ids_distinct(with_node(nodes, id, a, b)),
{
    if !is_node(nodes, id) {
        let r = with_node(nodes, id, a, b);
        assert forall|i: int, j: int| 0 <= i < j < r.len() implies (#[trigger] r[i]).id != (
        #[trigger] r[j]).id by {
            if j < nodes.len() {
                assert(r[i] == nodes[i] && r[j] == nodes[j]);
            } else {
                assert(r[i] == nodes[i]);
            }
        }
    }
}

/// Crossover aligned by innovation number, on the topology: the fitter
/// parent `a` passes on its genes, each disabled as [`inherited`] says with
/// its draw in `disable`; the child has `a`'s input, bias and output nodes
/// and every node its genes touch. Where that child is not feed-forward,
/// the child is `a`.
pub fn crossover(
    a_nodes: &[NodeGene],
    a_links: &[Link],
    b_nodes: &[NodeGene],
    b_links: &[Link],
    disable: &[bool],
) -> (child: (Vec<NodeGene>, Vec<Link>))
    requires
        disable@.len() == a_links@.len(),
        ids_distinct(a_nodes@),
    ensures
        (child.0@, child.1@) == crossover_child(a_nodes@, a_links@, b_nodes@, b_links@, disable@),
        feeds_forward(a_nodes@, a_links@) ==> feeds_forward(child.0@, child.1@),
{
    let mut links: Vec<Link> = Vec::new();
    let mut k: usize = 0;
    while k < a_links.len()
        invariant
            0 <= k <= a_links@.len(),
            disable@.len() == a_links@.len(),
            links@ =~= child_links(a_links@, b_links@, disable@).subrange(0, k as int),
        decreases a_links@.len() - k,
    {
        let ca = a_links[k];
        let gene = match find_gene(b_links, ca.innovation) {
            Some(cb) => Link { enabled: !((!ca.enabled || !cb.enabled) && disable[k]), ..ca },
            None => ca,
        };
        links.push(gene);
        k += 1;
    }
    let ghost all_links = child_links(a_links@, b_links@, disable@);
    let mut nodes: Vec<NodeGene> = Vec::new();
    let mut i: usize = 0;
    while i < a_nodes.len()
        invariant
            0 <= i <= a_nodes@.len(),
            nodes@ == non_hidden(a_nodes@.subrange(0, i as int)),
        decreases a_nodes@.len() - i,
    {
        proof {
            assert(a_nodes@.subrange(0, i + 1).drop_last() =~= a_nodes@.subrange(0, i as int));
        }
        if a_nodes[i].kind != NodeKind::Hidden {
            nodes.push(a_nodes[i]);
        }
        i += 1;
    }
    proof {
        assert(a_nodes@.subrange(0, a_nodes@.len() as int) =~= a_nodes@);
        lemma_non_hidden_distinct(a_nodes@);
    }
    let ghost base = nodes@;
    let mut j: usize = 0;
    while j < links.len()
        invariant
            0 <= j <= links@.len(),
            links@ == all_links,
            nodes@ == collect_nodes(base, links@.subrange(0, j as int), a_nodes@, b_nodes@),
            ids_distinct(nodes@),
        decreases links@.len() - j,
    {
        proof {
            assert(links@.subrange(0, j + 1).drop_last() =~= links@.subrange(0, j as int));
        }
        let l = links[j];
        proof {
            lemma_with_node_distinct(nodes@, l.from, a_nodes@, b_nodes@);
            lemma_with_node_distinct(with_node(nodes@, l.from, a_nodes@, b_nodes@), l.to, a_nodes@, b_nodes@);
        }
        add_node(&mut nodes, l.from, a_nodes, b_nodes);
        add_node(&mut nodes, l.to, a_nodes, b_nodes);
        j += 1;
    }
    proof {
        assert(links@.subrange(0, links@.len() as int) =~= links@);
    }
    if is_feed_forward(nodes.as_slice(), links.as_slice()) {
        (nodes, links)
    } else {
        (copy_of(a_nodes), copy_of(a_links))
    }
}

/// The ids of the nodes a new link may start at: every node but the
/// outputs, in node order.
pub open spec fn link_sources(nodes: Seq<NodeGene>) -> Seq<u32>
    decreases nodes.len(),
{
    if nodes.len() == 0 {
        Seq::empty()
    } else if nodes.last().kind != NodeKind::Output {
        link_sources(nodes.drop_last()).push(nodes.last().id)
    } else {
        link_sources(nodes.drop_last())
    }
}

/// The ids of the nodes a new link may end at: the hidden and output
/// nodes, in node order.
pub open spec fn link_targets(nodes: Seq<NodeGene>) -> Seq<u32>
    decreases nodes.len(),
{
    if nodes.len() == 0 {
        Seq::empty()
    } else if nodes.last().kind == NodeKind::Hidden || nodes.last().kind == NodeKind::Output {
        link_targets(nodes.drop_last()).push(nodes.last().id)
    } else {
        link_targets(nodes.drop_last())
    }
}

/// The positions of the enabled links, in order: the links a new node may
/// split.
pub open spec fn enabled_positions(links: Seq<Link>) -> Seq<usize>
    decreases links.len(),
{
    if links.len() == 0 {
        Seq::empty()
    } else if links.last().enabled {
        enabled_positions(links.drop_last()).push((links.len() - 1) as usize)
    } else {
        enabled_positions(links.drop_last())
    }
}

/// The candidate ends for the add-link mutation: the sources and the
/// targets it picks from. Each is the id of a node.
pub fn link_ends(nodes: &[NodeGene]) -> (ends: (Vec<u32>, Vec<u32>))
    ensures
        ends.0@ == link_sources(nodes@),
        ends.1@ == link_targets(nodes@),
        forall|i: int| 0 <= i < ends.0@.len() ==> is_node(nodes@, #[trigger] ends.0@[i]),
        forall|i: int| 0 <= i < ends.1@.len() ==> is_node(nodes@, #[trigger] ends.1@[i]),
{
    let mut sources: Vec<u32> = Vec::new();
    let mut targets: Vec<u32> = Vec::new();
    let mut i: usize = 0;
    while i < nodes.len()
        invariant
            0 <= i <= nodes@.len(),
            sources@ == link_sources(nodes@.subrange(0, i as int)),
            targets@ == link_targets(nodes@.subrange(0, i as int)),
            forall|k: int| 0 <= k < sources@.len() ==> is_node(nodes@, #[trigger] sources@[k]),
            forall|k: int| 0 <= k < targets@.len() ==> is_node(nodes@, #[trigger] targets@[k]),
        decreases nodes@.len() - i,
    {
        proof {
            assert(nodes@.subrange(0, i + 1).drop_last() =~= nodes@.subrange(0, i as int));
            assert(nodes@[i as int].id == nodes@[i as int].id);
        }
        let nd = nodes[i];
        if nd.kind != NodeKind::Output {
            sources.push(nd.id);
        }
        if nd.kind == NodeKind::Hidden || nd.kind == NodeKind::Output {
            targets.push(nd.id);
        }
        proof {
            assert(is_node(nodes@, nd.id));
        }
        i += 1;
    }
    proof {
        assert(nodes@.subrange(0, nodes@.len() as int) =~= nodes@);
    }
    (sources, targets)
}

/// The positions of the enabled links, the candidates of the add-node
/// mutation. Each names an enabled link.
pub fn enabled_links(links: &[Link]) -> (r: Vec<usize>)
    ensures
        r@ == enabled_positions(links@),
        forall|i: int| 0 <= i < r@.len() ==> (#[trigger] r@[i]) < links@.len() && links@[r@[i] as int].enabled,
{
    let mut r: Vec<usize> = Vec::new();
    let mut i: usize = 0;
    while i < links.len()
        invariant
            0 <= i <= links@.len(),
            r@ == enabled_positions(links@.subrange(0, i as int)),
            forall|k: int| 0 <= k < r@.len() ==> (#[trigger] r@[k]) < i && links@[r@[k] as int].enabled,
        decreases links@.len() - i,
    {
        proof {
            assert(links@.subrange(0, i + 1).drop_last() =~= links@.subrange(0, i as int));
        }
        if links[i].enabled {
            r.push(i);
        }
        i += 1;
    }
    proof {
        assert(links@.subrange(0, links@.len() as int) =~= links@);
    }
    r
}

/// A link of the smallest network starts at an input or the bias node.
proof fn lemma_minimal_source(k: int, inputs: int, outputs: int)
    requires
        0 <= inputs,
        0 < outputs,
        0 <= k < (inputs + 1) * outputs,
    ensures
        0 <= k / outputs <= inputs,
        0 <= k % outputs < outputs,
{
    vstd::arithmetic::div_mod::lemma_fundamental_div_mod(k, outputs);
    vstd::arithmetic::div_mod::lemma_mod_pos_bound(k, outputs);
    let q = k / outputs;
    let r = k % outputs;
    assert(0 <= q <= inputs) by (nonlinear_arith)
        requires
            k == outputs * q + r,
            0 <= r < outputs,
            0 <= k < (inputs + 1) * outputs,
            0 < outputs,
    ;
}

/// The smallest network is a well-formed genome whose next fresh node id
/// is its node count: the mutations can start from it.
pub proof fn lemma_minimal_genome_ok(inputs: nat, outputs: nat)
    requires
        inputs + 1 + outputs <= u32::MAX,
        (inputs + 1) * outputs <= u32::MAX,
    ensures
        genome_ok(minimal_nodes(inputs, outputs), minimal_links(inputs, outputs), (inputs + 1 + outputs) as u32),
{
    let nodes = minimal_nodes(inputs, outputs);
    let links = minimal_links(inputs, outputs);
    let n = inputs + 1 + outputs;
    assert forall|i: int| 0 <= i < links.len() implies (#[trigger] links[i]).from < n && links[i].to < n
        && is_node(nodes, links[i].from) && is_node(nodes, links[i].to) && links[i].from as int == i
        / outputs as int && links[i].to as int == inputs + 1 + i % outputs as int by {
        if outputs == 0 {
            assert((inputs + 1) * outputs == 0) by (nonlinear_arith)
                requires
                    outputs == 0,
            ;
        }
        lemma_minimal_source(i, inputs as int, outputs as int);
        let f = i / outputs as int;
        let t = inputs + 1 + i % outputs as int;
        assert(nodes[f].id == f as u32);
        assert(nodes[t].id == t as u32);
    }
    let rank = Seq::new(n, |k: int| if k <= inputs { 0nat } else { 1nat });
    if outputs == 0 {
        assert((inputs + 1) * outputs == 0) by (nonlinear_arith)
            requires
                outputs == 0,
        ;
    }
    assert forall|t: int, i: int|
        0 <= t < nodes.len() && 0 <= i < links.len() && (#[trigger] links[i]).enabled && links[i].to
            == (#[trigger] nodes[t]).id implies exists|s: int|
        0 <= s < nodes.len() && (#[trigger] nodes[s]).id == links[i].from && rank[s] < rank[t] by {
        let s = links[i].from as int;
        assert(links[i].from < n && links[i].to < n);
        assert(links[i].from as int == i / outputs as int);
        assert(links[i].to as int == inputs + 1 + i % outputs as int);
        lemma_minimal_source(i, inputs as int, outputs as int);
        assert(nodes[s].id == links[i].from);
        assert(nodes[t].id == t as u32);
        assert(t as u32 == links[i].to);
        assert(t == links[i].to as int);
        assert(rank[s] == 0nat);
        assert(rank[t] == 1nat);
    }
    lemma_ranked_intro(nodes, links, rank);
}

} // verus!
