//! Innovation numbers of evolved networks: the number a link between two
//! nodes gets, the same across the population, and fresh node ids.
use vstd::prelude::*;

use crate::neat::Link;
use crate::nn::NodeGene;

verus! {

/// The innovation number of each link pair, as recorded link by link (a
/// later link of the same pair wins).
pub open spec fn links_map(links: Seq<Link>) -> Map<(u32, u32), u32>
    decreases links.len(),
{
    if links.len() == 0 {
        Map::empty()
    } else {
        links_map(links.drop_last()).insert((links.last().from, links.last().to), links.last().innovation)
    }
}

/// One more than the highest innovation number (0 without links).
pub open spec fn next_innovation(links: Seq<Link>) -> u32
    decreases links.len(),
{
    if links.len() == 0 {
        0
    } else {
        let rest = next_innovation(links.drop_last());
        if links.last().innovation + 1 > rest {
            (links.last().innovation + 1) as u32
        } else {
            rest
        }
    }
}

/// One more than the highest node id (0 without nodes).
pub open spec fn next_node_id(nodes: Seq<NodeGene>) -> u32
    decreases nodes.len(),
{
    if nodes.len() == 0 {
        0
    } else {
        let rest = next_node_id(nodes.drop_last());
        if nodes.last().id + 1 > rest {
            (nodes.last().id + 1) as u32
        } else {
            rest
        }
    }
}

/// Some row of the table is for pair `k`.
#[verifier::opaque]
spec fn has_row(t: Seq<(u32, u32, u32)>, k: (u32, u32)) -> bool {
    exists|i: int| 0 <= i < t.len() && ((#[trigger] t[i]).0, t[i].1) == k
}

/// Innovation numbers handed out during evolution: the same structural
/// change (a link between the same two nodes) gets the same number across
/// the population, a new one the next free number; new nodes get fresh ids.
pub struct Innovations {
    /// Rows `(from, to, innovation)`, one per pair.
    conn: Vec<(u32, u32, u32)>,
    next_conn: u32,
    next_node: u32,
    numbers: Ghost<Map<(u32, u32), u32>>,
}

pub ghost struct InnovationsView {
    pub conn: Map<(u32, u32), u32>,
    pub next_conn: u32,
    pub next_node: u32,
}

impl View for Innovations {
    type V = InnovationsView;

    closed spec fn view(&self) -> InnovationsView {
        InnovationsView { conn: self.numbers@, next_conn: self.next_conn, next_node: self.next_node }
    }
}

impl Innovations {
    /// The rows hold each pair once and are the recorded numbers; every
    /// number is below the next free one.
    pub closed spec fn wf(&self) -> bool {
        &&& forall|a: int, b: int|
            0 <= a < b < self.conn@.len() ==> ((#[trigger] self.conn@[a]).0, self.conn@[a].1) != (
            (#[trigger] self.conn@[b]).0, self.conn@[b].1)
        &&& forall|i: int|
            0 <= i < self.conn@.len() ==> self.numbers@.contains_key(
                ((#[trigger] self.conn@[i]).0, self.conn@[i].1),
            ) && self.numbers@[(self.conn@[i].0, self.conn@[i].1)] == self.conn@[i].2
        &&& forall|k: (u32, u32)| #[trigger] self.numbers@.contains_key(k) ==> has_row(self.conn@, k)
        &&& forall|k: (u32, u32)| #[trigger] self.numbers@.contains_key(k) ==> self.numbers@[k] < self.next_conn
    }

    /// Every number in use is below the next free one, so a new pair never
    /// gets a number that is already in use.
    pub proof fn lemma_numbers_below_next(&self)
        requires
            self.wf(),
        ensures
            forall|k: (u32, u32)| #[trigger] self@.conn.contains_key(k) ==> self@.conn[k] < self@.next_conn,
    {
    }

    /// The row of a pair, if it has one.
    fn find(&self, from: u32, to: u32) -> (r: Option<usize>)
        requires
            self.wf(),
        ensures
            r matches Some(i) ==> i < self.conn@.len() && self.conn@[i as int].0 == from
                && self.conn@[i as int].1 == to,
            r is None <==> !self@.conn.contains_key((from, to)),
    {
        let mut i: usize = 0;
        while i < self.conn.len()
            invariant
                self.wf(),
                0 <= i <= self.conn@.len(),
                forall|j: int| 0 <= j < i ==> ((#[trigger] self.conn@[j]).0, self.conn@[j].1) != (from, to),
            decreases self.conn@.len() - i,
        {
            if self.conn[i].0 == from && self.conn[i].1 == to {
                assert(self@.conn.contains_key((self.conn@[i as int].0, self.conn@[i as int].1)));
                return Some(i);
            }
            i += 1;
        }
        proof {
            reveal(has_row);
        }
        None
    }

    /// Record `innovation` for the pair, replacing an earlier number.
    fn set(&mut self, from: u32, to: u32, innovation: u32)
        requires
            old(self).wf(),
            innovation < old(self).next_conn,
        ensures
            final(self).wf(),
            final(self)@ == (InnovationsView {
                conn: old(self)@.conn.insert((from, to), innovation),
                ..old(self)@
            }),
    {
        let ghost m = self.numbers@.insert((from, to), innovation);
        match self.find(from, to) {
            Some(i) => {
                let ghost t0 = self.conn@;
                self.conn.set(i, (from, to, innovation));
                self.numbers = Ghost(m);
                proof {
                    assert forall|j: int| 0 <= j < self.conn@.len() implies self.numbers@.contains_key(
                        ((#[trigger] self.conn@[j]).0, self.conn@[j].1),
                    ) && self.numbers@[(self.conn@[j].0, self.conn@[j].1)] == self.conn@[j].2 by {
                        if j != i {
                            assert(self.conn@[j] == t0[j]);
                            if j < i {
                                assert((t0[j].0, t0[j].1) != (t0[i as int].0, t0[i as int].1));
                            } else {
                                assert((t0[i as int].0, t0[i as int].1) != (t0[j].0, t0[j].1));
                            }
                        }
                    }
                    assert forall|k: (u32, u32)| #[trigger] self.numbers@.contains_key(k) implies has_row(
                        self.conn@,
                        k,
                    ) by {
                        reveal(has_row);
                        if k != (from, to) {
                            assert(old(self).numbers@.contains_key(k));
                            assert(has_row(t0, k));
                            let j = choose|j: int| 0 <= j < t0.len() && ((#[trigger] t0[j]).0, t0[j].1) == k;
                            assert(self.conn@[j] == t0[j]);
                        } else {
                            assert(self.conn@[i as int].0 == from && self.conn@[i as int].1 == to);
                        }
                    }
                }
            },
            None => {
                let ghost t0 = self.conn@;
                self.conn.push((from, to, innovation));
                self.numbers = Ghost(m);
                proof {
                    let last = t0.len() as int;
                    assert(self.conn@[last] == (from, to, innovation));
                    assert forall|a: int, b: int|
                        0 <= a < b < self.conn@.len() implies ((#[trigger] self.conn@[a]).0, self.conn@[a].1)
                        != ((#[trigger] self.conn@[b]).0, self.conn@[b].1) by {
                        assert(self.conn@[a] == t0[a]);
                        if b < last {
                            assert(self.conn@[b] == t0[b]);
                        } else {
                            assert(old(self).numbers@.contains_key((t0[a].0, t0[a].1)));
                        }
                    }
                    assert forall|j: int| 0 <= j < self.conn@.len() implies self.numbers@.contains_key(
                        ((#[trigger] self.conn@[j]).0, self.conn@[j].1),
                    ) && self.numbers@[(self.conn@[j].0, self.conn@[j].1)] == self.conn@[j].2 by {
                        if j < last {
                            assert(self.conn@[j] == t0[j]);
                            assert(old(self).numbers@.contains_key((t0[j].0, t0[j].1)));
                        }
                    }
                    assert forall|k: (u32, u32)| #[trigger] self.numbers@.contains_key(k) implies has_row(
                        self.conn@,
                        k,
                    ) by {
                        reveal(has_row);
                        if k != (from, to) {
                            assert(old(self).numbers@.contains_key(k));
                            assert(has_row(t0, k));
                            let j = choose|j: int| 0 <= j < t0.len() && ((#[trigger] t0[j]).0, t0[j].1) == k;
                            assert(self.conn@[j] == t0[j]);
                        } else {
                            assert(self.conn@[last].0 == from && self.conn@[last].1 == to);
                        }
                    }
                }
            },
        }
    }

    /// Numbers as found in a starting genome: each link pair keeps its
    /// number (the last link of a pair wins), the next number follows the
    /// highest, and the next node id follows the highest node id.
    pub fn from_minimal(nodes: &[NodeGene], links: &[Link]) -> (inn: Innovations)
        requires
            forall|i: int| 0 <= i < links@.len() ==> (#[trigger] links@[i]).innovation < u32::MAX,
            forall|i: int| 0 <= i < nodes@.len() ==> (#[trigger] nodes@[i]).id < u32::MAX,
        ensures
            inn.wf(),
            inn@.conn == links_map(links@),
            inn@.next_conn == next_innovation(links@),
            inn@.next_node == next_node_id(nodes@),
    {
        let mut inn = Innovations {
            conn: Vec::new(),
            next_conn: 0,
            next_node: 0,
            numbers: Ghost(Map::empty()),
        };
        proof {
            assert(inn@.conn =~= links_map(links@.subrange(0, 0)));
        }
        let mut i: usize = 0;
        while i < links.len()
            invariant
                0 <= i <= links@.len(),
                forall|j: int| 0 <= j < links@.len() ==> (#[trigger] links@[j]).innovation < u32::MAX,
                inn.wf(),
                inn@.conn == links_map(links@.subrange(0, i as int)),
                inn@.next_conn == next_innovation(links@.subrange(0, i as int)),
                inn@.next_node == 0,
            decreases links@.len() - i,
        {
            let c = links[i];
            proof {
                assert(links@.subrange(0, i + 1).drop_last() =~= links@.subrange(0, i as int));
                assert(links@.subrange(0, i + 1).last() == c);
            }
            if c.innovation + 1 > inn.next_conn {
                inn.next_conn = c.innovation + 1;
            }
            inn.set(c.from, c.to, c.innovation);
            i += 1;
        }
        proof {
            assert(links@.subrange(0, links@.len() as int) =~= links@);
        }
        let mut j: usize = 0;
        proof {
            assert(nodes@.subrange(0, 0) =~= Seq::<NodeGene>::empty());
        }
        while j < nodes.len()
            invariant
                0 <= j <= nodes@.len(),
                forall|k: int| 0 <= k < nodes@.len() ==> (#[trigger] nodes@[k]).id < u32::MAX,
                inn.wf(),
                inn@.conn == links_map(links@),
                inn@.next_conn == next_innovation(links@),
                inn@.next_node == next_node_id(nodes@.subrange(0, j as int)),
            decreases nodes@.len() - j,
        {
            let id = nodes[j].id;
            proof {
                assert(nodes@.subrange(0, j + 1).drop_last() =~= nodes@.subrange(0, j as int));
                assert(nodes@.subrange(0, j + 1).last() == nodes@[j as int]);
            }
            if id + 1 > inn.next_node {
                inn.next_node = id + 1;
            }
            j += 1;
        }
        proof {
            assert(nodes@.subrange(0, nodes@.len() as int) =~= nodes@);
        }
        inn
    }

    /// The number of a link between `from` and `to`: the recorded one, or
    /// the next free number, which is then recorded.
    pub fn conn_innovation(&mut self, from: u32, to: u32) -> (n: u32)
        requires
            old(self).wf(),
            !old(self)@.conn.contains_key((from, to)) ==> old(self)@.next_conn < u32::MAX,
        ensures
            final(self).wf(),
            old(self)@.conn.contains_key((from, to)) ==> n == old(self)@.conn[(from, to)] && final(self)@
                == old(self)@,
            !old(self)@.conn.contains_key((from, to)) ==> n == old(self)@.next_conn && final(self)@ == (
            InnovationsView {
                conn: old(self)@.conn.insert((from, to), n),
                next_conn: (old(self)@.next_conn + 1) as u32,
                ..old(self)@
            }),
    {
        match self.find(from, to) {
            Some(i) => {
                proof {
                    assert(self@.conn.contains_key((self.conn@[i as int].0, self.conn@[i as int].1)));
                }
                self.conn[i].2
            },
            None => {
                let n = self.next_conn;
                self.next_conn = n + 1;
                self.set(from, to, n);
                n
            },
        }
    }

    /// A fresh node id.
    pub fn new_node(&mut self) -> (id: u32)
        requires
            old(self).wf(),
            old(self)@.next_node < u32::MAX,
        ensures
            final(self).wf(),
            id == old(self)@.next_node,
            final(self)@ == (InnovationsView { next_node: (id + 1) as u32, ..old(self)@ }),
    {
        let id = self.next_node;
        self.next_node = id + 1;
        id
    }
}


} // verus!
