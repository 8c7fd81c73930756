use hexsnake::innovation::Innovations;
use hexsnake::mutation::{add_link, crossover, enabled_links, link_ends, split_link};
use hexsnake::neat::{evaluation_order, is_feed_forward, minimal_topology, Link};
use hexsnake::nn::{NodeGene, NodeKind};

fn link(innovation: u32, from: u32, to: u32, enabled: bool) -> Link {
    Link { innovation, from, to, enabled }
}

fn node(id: u32, kind: NodeKind) -> NodeGene {
    NodeGene { id, kind }
}

/// Inputs 0, 1, bias 2, output 3; every non-output node feeds the output.
fn minimal() -> (Vec<NodeGene>, Vec<Link>) {
    let nodes = vec![
        node(0, NodeKind::Input),
        node(1, NodeKind::Input),
        node(2, NodeKind::Bias),
        node(3, NodeKind::Output),
    ];
    let links = vec![link(0, 0, 3, true), link(1, 1, 3, true), link(2, 2, 3, true)];
    (nodes, links)
}

#[test]
fn split_link_inserts_a_hidden_node() {
    let (mut nodes, mut links) = minimal();
    let mut innov = Innovations::from_minimal(&nodes, &links);
    let id = split_link(&mut nodes, &mut links, &mut innov, 0);
    assert_eq!(id, 4);
    assert_eq!(nodes.last(), Some(&node(4, NodeKind::Hidden)));
    assert!(!links[0].enabled, "the split link is disabled");
    assert_eq!(links[3], link(3, 0, 4, true));
    assert_eq!(links[4], link(4, 4, 3, true));
    assert_eq!(links.len(), 5);
    assert!(is_feed_forward(&nodes, &links));
}

#[test]
fn add_link_refuses_duplicates_and_cycles() {
    let (mut nodes, mut links) = minimal();
    let mut innov = Innovations::from_minimal(&nodes, &links);
    let hidden = split_link(&mut nodes, &mut links, &mut innov, 0);
    // A link that already exists, even disabled, is not added again.
    assert!(!add_link(&nodes, &mut links, &mut innov, 0, 3));
    assert!(!add_link(&nodes, &mut links, &mut innov, 0, hidden));
    // A back edge from the output to the hidden node would close a cycle.
    assert!(!add_link(&nodes, &mut links, &mut innov, 3, hidden));
    // A self loop is a cycle too.
    assert!(!add_link(&nodes, &mut links, &mut innov, hidden, hidden));
    assert_eq!(links.len(), 5);
    // A fresh forward link gets the next innovation number.
    assert!(add_link(&nodes, &mut links, &mut innov, 1, hidden));
    assert_eq!(links[5], link(5, 1, hidden, true));
    assert!(is_feed_forward(&nodes, &links));
}

#[test]
fn the_same_link_gets_the_same_number_in_two_genomes() {
    let (mut nodes_a, mut links_a) = minimal();
    let (nodes_b, mut links_b) = minimal();
    let mut innov = Innovations::from_minimal(&nodes_a, &links_a);
    let hidden = split_link(&mut nodes_a, &mut links_a, &mut innov, 1);
    assert!(add_link(&nodes_a, &mut links_a, &mut innov, 0, hidden));
    // The other genome adds a link between the same two ids.
    assert!(add_link(&nodes_b, &mut links_b, &mut innov, 0, hidden));
    assert_eq!(links_a.last().unwrap().innovation, links_b.last().unwrap().innovation);
}

#[test]
fn structural_mutations_keep_network_feed_forward() {
    let (mut nodes, mut links) = minimal();
    let mut innov = Innovations::from_minimal(&nodes, &links);
    for round in 0..40usize {
        let enabled: Vec<usize> = (0..links.len()).filter(|&i| links[i].enabled).collect();
        let idx = enabled[(round * 7) % enabled.len()];
        split_link(&mut nodes, &mut links, &mut innov, idx);
        let from = nodes[(round * 5) % nodes.len()].id;
        let to = nodes[(round * 3 + 1) % nodes.len()].id;
        if nodes.iter().any(|n| n.id == to && n.kind != NodeKind::Input && n.kind != NodeKind::Bias)
            && nodes.iter().any(|n| n.id == from && n.kind != NodeKind::Output)
        {
            add_link(&nodes, &mut links, &mut innov, from, to);
        }
        assert!(is_feed_forward(&nodes, &links), "round {round}");
    }
    assert_eq!(nodes.len(), 44, "every split adds a node");
}

fn parents() -> (Vec<NodeGene>, Vec<Link>, Vec<NodeGene>, Vec<Link>) {
    let a_nodes = vec![
        node(0, NodeKind::Input),
        node(1, NodeKind::Input),
        node(2, NodeKind::Bias),
        node(3, NodeKind::Output),
        node(4, NodeKind::Hidden),
        node(6, NodeKind::Hidden),
    ];
    let a_links = vec![link(3, 0, 4, true), link(4, 4, 3, true), link(0, 0, 3, false), link(1, 1, 3, true)];
    let b_nodes = vec![
        node(0, NodeKind::Input),
        node(1, NodeKind::Input),
        node(2, NodeKind::Bias),
        node(3, NodeKind::Output),
        node(5, NodeKind::Hidden),
    ];
    let b_links = vec![link(0, 0, 3, true), link(1, 1, 3, true), link(7, 1, 5, true)];
    (a_nodes, a_links, b_nodes, b_links)
}

#[test]
fn crossover_takes_genes_of_the_fitter_parent() {
    let (a_nodes, a_links, b_nodes, b_links) = parents();
    let (nodes, links) = crossover(&a_nodes, &a_links, &b_nodes, &b_links, &[true, true, true, true]);
    // Genes come from `a` in order; the one disabled in `a` stays disabled
    // when its draw says so; `b`'s extra gene is not inherited.
    assert_eq!(links, vec![link(3, 0, 4, true), link(4, 4, 3, true), link(0, 0, 3, false), link(1, 1, 3, true)]);
    // Fixed nodes of `a`, then the hidden node the genes touch; the
    // untouched hidden node 6 is dropped.
    assert_eq!(
        nodes,
        vec![
            node(0, NodeKind::Input),
            node(1, NodeKind::Input),
            node(2, NodeKind::Bias),
            node(3, NodeKind::Output),
            node(4, NodeKind::Hidden),
        ]
    );
}

#[test]
fn crossover_may_re_enable_a_shared_gene() {
    let (a_nodes, a_links, b_nodes, b_links) = parents();
    let (_, links) = crossover(&a_nodes, &a_links, &b_nodes, &b_links, &[true, true, false, true]);
    assert_eq!(links[2], link(0, 0, 3, true));
    // Genes enabled in both parents stay enabled whatever the draw.
    let (_, links) = crossover(&a_nodes, &a_links, &b_nodes, &b_links, &[true, true, true, true]);
    assert!(links[3].enabled);
}

#[test]
fn crossover_falls_back_to_the_fitter_parent_on_a_cycle() {
    let a_nodes = vec![node(0, NodeKind::Input), node(3, NodeKind::Output), node(4, NodeKind::Hidden)];
    let a_links = vec![link(0, 0, 4, true), link(1, 4, 3, true), link(2, 3, 4, false)];
    let b_links = vec![link(2, 3, 4, true)];
    let (nodes, links) = crossover(&a_nodes, &a_links, &a_nodes, &b_links, &[false, false, false]);
    assert_eq!(nodes, a_nodes);
    assert_eq!(links, a_links);
    // Kept disabled, the child is feed-forward and is the crossover itself.
    let (_, links) = crossover(&a_nodes, &a_links, &a_nodes, &b_links, &[false, false, true]);
    assert!(!links[2].enabled);
}

#[test]
fn candidate_ends_and_links() {
    let (mut nodes, mut links) = minimal();
    let mut innov = Innovations::from_minimal(&nodes, &links);
    split_link(&mut nodes, &mut links, &mut innov, 1);
    let (sources, targets) = link_ends(&nodes);
    assert_eq!(sources, vec![0, 1, 2, 4], "every node but the output");
    assert_eq!(targets, vec![3, 4], "hidden and output nodes");
    assert_eq!(enabled_links(&links), vec![0, 2, 3, 4], "the split link is disabled");
}

#[test]
fn picking_from_the_candidates_keeps_the_network_feed_forward() {
    let (mut nodes, mut links) = minimal();
    let mut innov = Innovations::from_minimal(&nodes, &links);
    for round in 0..30usize {
        let enabled = enabled_links(&links);
        split_link(&mut nodes, &mut links, &mut innov, enabled[(round * 11) % enabled.len()]);
        let (sources, targets) = link_ends(&nodes);
        let from = sources[(round * 7) % sources.len()];
        let to = targets[(round * 5 + 3) % targets.len()];
        add_link(&nodes, &mut links, &mut innov, from, to);
        assert!(is_feed_forward(&nodes, &links), "round {round}");
    }
}

#[test]
fn minimal_topology_links_inputs_and_bias_to_outputs() {
    let (nodes, links) = minimal_topology(2, 2);
    assert_eq!(
        nodes,
        vec![
            node(0, NodeKind::Input),
            node(1, NodeKind::Input),
            node(2, NodeKind::Bias),
            node(3, NodeKind::Output),
            node(4, NodeKind::Output),
        ]
    );
    assert_eq!(
        links,
        vec![
            link(0, 0, 3, true),
            link(1, 0, 4, true),
            link(2, 1, 3, true),
            link(3, 1, 4, true),
            link(4, 2, 3, true),
            link(5, 2, 4, true),
        ]
    );
}

#[test]
fn evaluation_order_puts_sources_first() {
    let (mut nodes, mut links) = minimal();
    let mut innov = Innovations::from_minimal(&nodes, &links);
    split_link(&mut nodes, &mut links, &mut innov, 0);
    let order = evaluation_order(&nodes, &links).expect("feed-forward");
    assert_eq!(order.len(), nodes.len());
    let pos = |id: u32| order.iter().position(|&k| nodes[k].id == id).unwrap();
    for l in links.iter().filter(|l| l.enabled) {
        assert!(pos(l.from) < pos(l.to), "{} before {}", l.from, l.to);
    }
    // A cycle has no evaluation order.
    let cyclic = vec![link(0, 3, 4, true), link(1, 4, 3, true)];
    assert!(evaluation_order(&nodes, &cyclic).is_none());
}

#[test]
fn mutating_the_smallest_network_keeps_it_evaluable() {
    let (mut nodes, mut links) = minimal_topology(20, 6);
    let start = nodes.len();
    let mut innov = Innovations::from_minimal(&nodes, &links);
    for round in 0..200usize {
        let (sources, targets) = link_ends(&nodes);
        let from = sources[(round * 13) % sources.len()];
        let to = targets[(round * 7 + 1) % targets.len()];
        add_link(&nodes, &mut links, &mut innov, from, to);
        let enabled = enabled_links(&links);
        split_link(&mut nodes, &mut links, &mut innov, enabled[(round * 17) % enabled.len()]);
        let order = evaluation_order(&nodes, &links).expect("still feed-forward");
        assert_eq!(order.len(), nodes.len());
    }
    assert!(nodes.len() > start, "add-node mutations should have grown the network");
}
