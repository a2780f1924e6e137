use kanpig::record::VariantRecord;
use kanpig::vargraph::{GraphError, Variants};
use petgraph::graph::NodeIndex;

fn insertion(start: u64, end: u64, inserted: &str) -> VariantRecord {
    let mut alternate = vec![b'A'];
    alternate.extend_from_slice(inserted.as_bytes());
    VariantRecord {
        chrom: "chr1".to_string(),
        start,
        end,
        reference: vec![b'A'],
        alternate,
        filtered: false,
    }
}

fn has_edge(v: &Variants, a: usize, b: usize) -> bool {
    v.graph.contains_edge(NodeIndex::new(a), NodeIndex::new(b))
}

#[test]
fn edges_join_the_variants_that_do_not_overlap() {
    // A = [10, 15), C = [12, 18), B = [20, 25), in the order of their positions
    let records = vec![
        insertion(10, 15, "ACGTACGT"),
        insertion(12, 18, "ACGTACGT"),
        insertion(20, 25, "ACGTACGT"),
    ];
    let v = Variants::new(records, 2).unwrap();
    assert_eq!(v.graph.node_count(), 5);
    assert_eq!(v.node_indices, vec![0, 1, 2, 3, 4]);
    let (src, a, c, b, snk) = (0, 1, 2, 3, 4);
    let expected = vec![
        (src, a), (src, c), (src, b), (src, snk),
        (a, b), (a, snk), (c, b), (c, snk), (b, snk),
    ];
    for x in 0..5 {
        for y in 0..5 {
            assert_eq!(has_edge(&v, x, y), expected.contains(&(x, y)), "edge {} -> {}", x, y);
        }
    }
    assert_eq!(v.graph.edge_count(), expected.len());
}

#[test]
fn no_graph_from_no_variants() {
    let r = Variants::new(vec![], 4);
    assert_eq!(r.err(), Some(GraphError::EmptyWindow));
}

#[test]
fn no_graph_for_a_word_length_out_of_range() {
    let r = Variants::new(vec![insertion(10, 11, "ACGT")], 0);
    assert_eq!(r.err(), Some(GraphError::KmerOutOfRange));
    let r = Variants::new(vec![insertion(10, 11, "ACGT")], 16);
    assert_eq!(r.err(), Some(GraphError::KmerOutOfRange));
    // an empty window is reported first
    let r = Variants::new(vec![], 0);
    assert_eq!(r.err(), Some(GraphError::EmptyWindow));
}

#[test]
fn no_graph_for_more_variants_than_nodes() {
    let mut records = Vec::new();
    for i in 0..65535u64 {
        records.push(insertion(i, i + 1, "AC"));
    }
    let r = Variants::new(records, 1);
    assert_eq!(r.err(), Some(GraphError::WindowTooLarge));
}

#[test]
fn each_error_has_its_message() {
    assert_eq!(GraphError::EmptyWindow.message(), "Cannot create a graph from no variants");
    assert_ne!(GraphError::KmerOutOfRange.message(), GraphError::EmptyWindow.message());
    assert_ne!(GraphError::WindowTooLarge.message(), GraphError::EmptyWindow.message());
    assert_ne!(GraphError::WindowTooLarge.message(), GraphError::KmerOutOfRange.message());
}

#[test]
fn the_nodes_are_the_anchors_and_the_variants_in_their_order() {
    let records = vec![insertion(10, 15, "CGT"), insertion(30, 31, "TTTT")];
    let v = Variants::new(records, 1).unwrap();
    let node = |i: usize| v.graph.node_weight(NodeIndex::new(i)).unwrap();
    assert_eq!(node(0).name, "src");
    assert_eq!((node(0).start, node(0).end, node(0).size), (0, 0, 0));
    assert_eq!(node(0).kfeat, vec![0, 0, 0, 0]);
    assert!(node(0).entry.is_none());
    assert_eq!(node(1).name, "");
    assert_eq!((node(1).start, node(1).end, node(1).size), (10, 15, 3));
    assert_eq!(node(1).kfeat, vec![0, 1, 1, 1]);
    assert_eq!(node(1).entry.as_ref().unwrap().alternate, b"ACGT".to_vec());
    assert_eq!((node(2).start, node(2).end, node(2).size), (30, 31, 4));
    assert_eq!(node(2).kfeat, vec![0, 0, 0, 4]);
    assert_eq!(node(3).name, "snk");
    assert_eq!((node(3).start, node(3).end, node(3).size), (0, 0, 0));
    assert_eq!(node(3).kfeat, vec![0, 0, 0, 0]);
    assert!(node(3).entry.is_none());
}

#[test]
fn the_region_of_a_graph_spans_its_variants() {
    let records = vec![insertion(40, 45, "CGT"), insertion(10, 90, "CGT"), insertion(50, 60, "CGT")];
    let v = Variants::new(records, 1).unwrap();
    assert_eq!(v.chrom, "chr1");
    assert_eq!(v.start, 10);
    assert_eq!(v.end, 90);
}

#[test]
fn every_edge_leads_to_a_later_node() {
    let records = vec![
        insertion(10, 15, "ACGT"),
        insertion(12, 13, "ACGT"),
        insertion(14, 30, "ACGT"),
        insertion(20, 25, "ACGT"),
        insertion(40, 41, "ACGT"),
    ];
    let v = Variants::new(records, 2).unwrap();
    for edge in v.graph.raw_edges() {
        assert!(edge.source().index() < edge.target().index());
    }
    assert!(!petgraph::algo::is_cyclic_directed(&v.graph));
    // the source reaches every node and every node reaches the sink
    for i in 1..6 {
        assert!(has_edge(&v, 0, i));
        assert!(has_edge(&v, i, 6));
    }
    assert!(has_edge(&v, 0, 6));
    // overlapping variants have no edge in either direction
    assert!(!has_edge(&v, 1, 2));
    assert!(!has_edge(&v, 2, 1));
    assert!(!has_edge(&v, 1, 3));
    assert!(!has_edge(&v, 3, 4));
    assert!(has_edge(&v, 2, 3));
    assert!(has_edge(&v, 1, 4));
}

#[test]
fn a_variant_node_takes_its_values_from_the_record() {
    let node = kanpig::vargraph::VarNode::new(insertion(7, 9, "GG"), 1);
    assert_eq!((node.start, node.end, node.size), (7, 9, 2));
    assert_eq!(node.kfeat, vec![0, 0, 2, 0]);
    assert_eq!(node.name, "");
    assert!(node.entry.is_some());
    let anchor = kanpig::vargraph::VarNode::new_anchor("src", 2);
    assert_eq!(anchor.name, "src");
    assert_eq!((anchor.start, anchor.end, anchor.size), (0, 0, 0));
    assert_eq!(anchor.kfeat, vec![0u64; 16]);
    assert!(anchor.entry.is_none());
}

#[test]
fn the_edges_are_added_pair_by_pair_in_the_order_of_the_handles() {
    let records = vec![insertion(10, 15, "ACGT"), insertion(12, 18, "ACGT"), insertion(20, 25, "ACGT")];
    let v = Variants::new(records, 2).unwrap();
    let added: Vec<(usize, usize)> =
        v.graph.raw_edges().iter().map(|e| (e.source().index(), e.target().index())).collect();
    assert_eq!(
        added,
        vec![(0, 1), (0, 2), (0, 3), (0, 4), (1, 3), (1, 4), (2, 3), (2, 4), (3, 4)]
    );
}

#[test]
fn no_pair_of_nodes_has_more_than_one_edge() {
    let records = vec![
        insertion(10, 15, "ACGT"),
        insertion(12, 13, "ACGT"),
        insertion(14, 30, "ACGT"),
        insertion(20, 25, "ACGT"),
        insertion(40, 41, "ACGT"),
        insertion(40, 41, "ACGT"),
    ];
    let v = Variants::new(records, 2).unwrap();
    let n = v.graph.node_count();
    assert_eq!(n, 8);
    let mut seen = Vec::new();
    for edge in v.graph.raw_edges() {
        let pair = (edge.source().index(), edge.target().index());
        assert!(!seen.contains(&pair), "the edge {:?} is there twice", pair);
        seen.push(pair);
    }
    assert!(v.graph.edge_count() <= n * (n - 1) / 2);
    // a window of one variant has the three edges src-1, src-snk and 1-snk
    let one = Variants::new(vec![insertion(10, 15, "ACGT")], 2).unwrap();
    assert_eq!(one.graph.edge_count(), 3);
    assert!(has_edge(&one, 0, 2));
}
