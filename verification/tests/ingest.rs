use march::index::ItemIndex;
use march::model::{END, START};
use march::{Chain, Item};

fn words(text: &str) -> Vec<String> {
    text.split_whitespace().map(|w| w.to_string()).collect()
}

#[test]
fn new_chain_holds_only_the_markers() {
    let chain: Chain<&str> = Chain::new();
    assert_eq!(chain.start, START);
    assert_eq!(chain.end, END);
    assert_eq!(chain.start, 0);
    assert_eq!(chain.end, 1);
    assert_eq!(chain.node_count(), 2);
    assert_eq!(chain.graph.node_count(), 2);
    assert_eq!(chain.graph.edge_count(), 0);
    assert!(matches!(chain.item(chain.start), Item::Start));
    assert!(matches!(chain.item(chain.end), Item::End));
    assert!(chain.edges_from(chain.start).is_empty());
    assert!(chain.edges_from(chain.end).is_empty());
}

#[test]
fn item_from_wraps_a_value() {
    let item: Item<u8> = Item::from(3);
    assert!(item == Item::Data(3));
    assert_eq!(item.data(), Some(&3));
    assert_eq!(Item::<u8>::Start.data(), None);
    assert_eq!(Item::<u8>::End.data(), None);
    assert!(Item::<u8>::Start != Item::<u8>::End);
    assert!(Item::Data(1u8) != Item::Data(2u8));
}

#[test]
fn ensure_node_twice_gives_the_same_node() {
    let mut chain: Chain<String> = Chain::new();
    let first = chain.ensure_node("x".to_string());
    let again = chain.ensure_node("x".to_string());
    assert_eq!(first, 2);
    assert_eq!(first, again);
    assert_eq!(chain.node_count(), 3);
    assert_eq!(chain.graph.node_count(), 3);
    assert!(*chain.item(first) == Item::Data("x".to_string()));
    let other = chain.ensure_node("y".to_string());
    assert_eq!(other, 3);
    assert_eq!(chain.node_count(), 4);
    assert_eq!(chain.ensure_node("x".to_string()), first);
    assert_eq!(chain.graph.edge_count(), 0);
}

#[test]
fn bump_edge_creates_then_increments() {
    let mut chain: Chain<&str> = Chain::new();
    let a = chain.ensure_node("a");
    let b = chain.ensure_node("b");
    assert_eq!(chain.weight(a, b), 0);
    chain.bump_edge(a, b);
    assert_eq!(chain.weight(a, b), 1);
    assert_eq!(chain.weight(b, a), 0);
    chain.bump_edge(a, b);
    chain.bump_edge(a, b);
    assert_eq!(chain.weight(a, b), 3);
    assert_eq!(chain.graph.edge_count(), 1);
    assert_eq!(chain.edges_from(a), vec![(b, 3)]);
    chain.bump_edge(a, a);
    assert_eq!(chain.edges_from(a), vec![(b, 3), (a, 1)]);
    assert_eq!(chain.graph.edge_count(), 2);
}

#[test]
fn feeding_a_pair_n_times_gives_weight_n() {
    let mut chain: Chain<&str> = Chain::new();
    for _ in 0..5 {
        chain.feed(vec!["a", "b"]);
    }
    let a = chain.ensure_node("a");
    let b = chain.ensure_node("b");
    assert_eq!(chain.node_count(), 4);
    assert_eq!(chain.weight(a, b), 5);
    assert_eq!(chain.weight(chain.start, a), 5);
    assert_eq!(chain.weight(b, chain.end), 5);
    assert_eq!(chain.weight(b, a), 0);
    assert_eq!(chain.weight(chain.start, chain.end), 0);
    assert_eq!(chain.graph.edge_count(), 3);
}

#[test]
fn feeding_nothing_changes_nothing() {
    let mut chain: Chain<&str> = Chain::new();
    chain.feed(vec![]);
    assert_eq!(chain.graph.node_count(), 2);
    assert_eq!(chain.graph.edge_count(), 0);
    assert_eq!(chain.weight(chain.start, chain.end), 0);
    chain.feed(vec!["a", "b", "a"]);
    let nodes = chain.graph.node_count();
    let edges = chain.graph.edge_count();
    let row = chain.edges_from(2);
    chain.feed(vec![]);
    assert_eq!(chain.graph.node_count(), nodes);
    assert_eq!(chain.graph.edge_count(), edges);
    assert_eq!(chain.edges_from(2), row);
}

#[test]
fn a_single_value_makes_no_loop() {
    let mut chain: Chain<&str> = Chain::new();
    chain.feed(vec!["solo"]);
    let node = chain.ensure_node("solo");
    assert_eq!(node, 2);
    assert_eq!(chain.edges_from(chain.start), vec![(node, 1)]);
    assert_eq!(chain.edges_from(node), vec![(chain.end, 1)]);
    assert_eq!(chain.weight(node, node), 0);
    assert!(chain.edges_from(chain.end).is_empty());
}

#[test]
fn a_repeated_value_loops_on_its_node() {
    let mut chain: Chain<u32> = Chain::new();
    chain.feed(vec![9, 9, 9]);
    let node = chain.ensure_node(9);
    assert_eq!(chain.node_count(), 3);
    assert_eq!(chain.edges_from(chain.start), vec![(node, 1)]);
    assert_eq!(chain.edges_from(node), vec![(node, 2), (chain.end, 1)]);
}

#[test]
fn edges_come_in_the_order_first_seen() {
    let mut chain: Chain<&str> = Chain::new();
    chain.feed(vec!["a", "b"]);
    chain.feed(vec!["a", "c"]);
    chain.feed(vec!["a", "d"]);
    chain.feed(vec!["a", "c"]);
    let a = chain.ensure_node("a");
    let b = chain.ensure_node("b");
    let c = chain.ensure_node("c");
    let d = chain.ensure_node("d");
    assert_eq!((a, b, c, d), (2, 3, 4, 5));
    assert_eq!(chain.edges_from(a), vec![(b, 1), (c, 2), (d, 1)]);
    assert_eq!(chain.edges_from(chain.start), vec![(a, 4)]);
}

#[test]
fn feeds_share_nodes_and_add_up() {
    let mut chain: Chain<String> = Chain::new();
    chain.feed(words("one two three"));
    chain.feed(words("two three four"));
    let two = chain.ensure_node("two".to_string());
    let three = chain.ensure_node("three".to_string());
    let four = chain.ensure_node("four".to_string());
    assert_eq!(chain.node_count(), 6);
    assert_eq!(chain.weight(two, three), 2);
    assert_eq!(chain.weight(three, chain.end), 1);
    assert_eq!(chain.weight(three, four), 1);
    assert_eq!(chain.weight(chain.start, two), 1);
}

#[test]
fn the_sentence_gives_the_two_ways_out() {
    let mut chain: Chain<String> = Chain::new();
    chain.feed(words(&"The quick brown fox jumped over the lazy dog".to_lowercase()));
    let the = chain.ensure_node("the".to_string());
    let quick = chain.ensure_node("quick".to_string());
    let lazy = chain.ensure_node("lazy".to_string());
    let dog = chain.ensure_node("dog".to_string());
    assert_eq!(chain.node_count(), 10);
    assert_eq!(chain.edges_from(the), vec![(quick, 1), (lazy, 1)]);
    assert_eq!(chain.edges_from(chain.start), vec![(the, 1)]);
    assert_eq!(chain.edges_from(dog), vec![(chain.end, 1)]);
    assert_eq!(chain.graph.edge_count(), 10);
}

#[test]
fn the_index_finds_what_it_holds() {
    let mut index: ItemIndex<&str> = ItemIndex::new();
    assert_eq!(index.len(), 2);
    assert_eq!(index.find(&"a"), None);
    assert_eq!(index.insert("a"), 2);
    assert_eq!(index.insert("b"), 3);
    assert_eq!(index.find(&"a"), Some(2));
    assert_eq!(index.find(&"b"), Some(3));
    assert_eq!(index.find(&"c"), None);
    assert_eq!(index.len(), 4);
    assert!(matches!(index.item(0), Item::Start));
    assert!(matches!(index.item(1), Item::End));
    assert!(*index.item(3) == Item::Data("b"));
}

#[test]
fn a_pair_fed_n_times_has_four_nodes_and_three_edges() {
    let mut chain: Chain<&str> = Chain::new();
    for n in 1..=7u32 {
        chain.feed(vec!["a", "b"]);
        assert_eq!(chain.node_count(), 4);
        assert_eq!(chain.graph.edge_count(), 3);
        assert_eq!(chain.edges_from(0), vec![(2, n)]);
        assert_eq!(chain.edges_from(2), vec![(3, n)]);
        assert_eq!(chain.edges_from(3), vec![(1, n)]);
        assert!(chain.edges_from(1).is_empty());
    }
}

#[test]
fn equal_feeds_give_equal_chains() {
    let mut one: Chain<&str> = Chain::new();
    let mut two: Chain<&str> = Chain::new();
    let feeds = vec![vec!["a", "b", "a"], vec![], vec!["c", "a"], vec!["b", "b"]];
    for feed in &feeds {
        one.feed(feed.clone());
        let _ = one.generate();
        two.feed(feed.clone());
    }
    assert_eq!(one.node_count(), two.node_count());
    assert_eq!(one.graph.edge_count(), two.graph.edge_count());
    for node in 0..one.node_count() {
        assert!(one.item(node) == two.item(node));
        assert_eq!(one.edges_from(node), two.edges_from(node));
    }
}
