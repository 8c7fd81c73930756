use hexsnake::innovation::Innovations;
use hexsnake::neat::{creates_cycle, is_feed_forward, Link};
use hexsnake::nn::{NodeGene, NodeKind};

fn link(innovation: u32, from: u32, to: u32, enabled: bool) -> Link {
    Link { innovation, from, to, enabled }
}

fn node(id: u32, kind: NodeKind) -> NodeGene {
    NodeGene { id, kind }
}

/// Inputs 0, 1, bias 2, output 3, hidden 4: 0 → 4 → 3, 1 → 3, 2 → 3.
fn small() -> (Vec<NodeGene>, Vec<Link>) {
    let nodes = vec![
        node(0, NodeKind::Input),
        node(1, NodeKind::Input),
        node(2, NodeKind::Bias),
        node(3, NodeKind::Output),
        node(4, NodeKind::Hidden),
    ];
    let links = vec![
        link(0, 0, 4, true),
        link(1, 4, 3, true),
        link(2, 1, 3, true),
        link(3, 2, 3, true),
        link(4, 0, 3, false),
    ];
    (nodes, links)
}

#[test]
fn cycle_detection_follows_enabled_links() {
    let (_, links) = small();
    // 3 → 0 would close 0 → 4 → 3 → 0.
    assert!(creates_cycle(&links, 3, 0));
    assert!(creates_cycle(&links, 4, 0));
    // A self-loop always closes a cycle.
    assert!(creates_cycle(&links, 4, 4));
    // 1 → 4 keeps the network acyclic.
    assert!(!creates_cycle(&links, 1, 4));
    // Disabled links do not count.
    let only_disabled = vec![link(0, 0, 3, false)];
    assert!(!creates_cycle(&only_disabled, 3, 0));
}

#[test]
fn feed_forward_networks_are_recognised() {
    let (nodes, mut links) = small();
    assert!(is_feed_forward(&nodes, &links));
    // Enabling a back link 3 → 4 creates the cycle 4 → 3 → 4.
    links.push(link(5, 3, 4, true));
    assert!(!is_feed_forward(&nodes, &links));
    // Disabled, it is ignored.
    links[5].enabled = false;
    assert!(is_feed_forward(&nodes, &links));
    // A link into a node from an id that is no node blocks that node.
    links.push(link(6, 99, 3, true));
    assert!(!is_feed_forward(&nodes, &links));
}

#[test]
fn innovation_numbers_are_shared_and_fresh() {
    let (nodes, links) = small();
    let mut inn = Innovations::from_minimal(&nodes, &links);
    // Known pair: its number.
    assert_eq!(inn.conn_innovation(4, 3), 1);
    // New pairs: the next free numbers, in turn; asked again, the same.
    assert_eq!(inn.conn_innovation(1, 4), 5);
    assert_eq!(inn.conn_innovation(2, 4), 6);
    assert_eq!(inn.conn_innovation(1, 4), 5);
    // Node ids continue after the highest.
    assert_eq!(inn.new_node(), 5);
    assert_eq!(inn.new_node(), 6);
}

#[test]
fn cycle_detection_blocks_back_edges() {
    // 0(input) -> 8(hidden) -> 2(output); adding 2 -> 8 would cycle.
    let _nodes = vec![
        node(0, NodeKind::Input),
        node(1, NodeKind::Bias),
        node(2, NodeKind::Output),
        node(8, NodeKind::Hidden),
    ];
    let links = vec![link(0, 0, 8, true), link(1, 8, 2, true)];
    assert!(creates_cycle(&links, 2, 8), "back edge must be rejected");
    assert!(!creates_cycle(&links, 0, 2), "forward edge is fine");
}
