use march::graph::edges_from;
use march::walk::weights_of;
use march::{Chain, RandomWalk};
use rand::rngs::StdRng;
use rand::SeedableRng;

fn sentence() -> Vec<String> {
    "the quick brown fox jumped over the lazy dog".split_whitespace().map(|w| w.to_string()).collect()
}

#[test]
fn nothing_fed_generates_nothing() {
    let chain: Chain<&str> = Chain::new();
    assert!(chain.generate().is_empty());
    assert!(chain.generate_with(StdRng::seed_from_u64(1)).is_empty());
    let mut walk = chain.generate_iter();
    assert_eq!(walk.next(), None);
    assert_eq!(walk.next(), None);
    assert!(walk.take(4).is_empty());
}

#[test]
fn a_single_value_comes_back() {
    let mut chain: Chain<&str> = Chain::new();
    chain.feed(vec!["a"]);
    for seed in 0..50 {
        assert_eq!(chain.generate_with(StdRng::seed_from_u64(seed)), vec![&"a"]);
    }
    for _ in 0..20 {
        assert_eq!(chain.generate(), vec![&"a"]);
    }
}

#[test]
fn a_straight_line_comes_back_whole() {
    let mut chain: Chain<u32> = Chain::new();
    chain.feed(vec![1, 2, 3, 4]);
    assert_eq!(chain.generate(), vec![&1, &2, &3, &4]);
    assert_eq!(chain.generate_with(StdRng::seed_from_u64(3)), vec![&1, &2, &3, &4]);
}

#[test]
fn the_same_seed_gives_the_same_walk() {
    let mut chain: Chain<String> = Chain::new();
    chain.feed(sentence());
    chain.feed("the lazy fox jumped over the quick dog".split_whitespace().map(|w| w.to_string()).collect());
    for seed in 0..20 {
        let one = chain.generate_with(StdRng::seed_from_u64(seed));
        let two = chain.generate_with(StdRng::seed_from_u64(seed));
        assert_eq!(one, two);
        assert!(!one.is_empty());
    }
}

#[test]
fn the_sentence_walks_to_its_end() {
    let mut chain: Chain<String> = Chain::new();
    let fed = sentence();
    chain.feed(fed.clone());
    for seed in 0..30 {
        let out = chain.generate_with(StdRng::seed_from_u64(seed));
        assert_eq!(out.first().map(|w| w.as_str()), Some("the"));
        assert_eq!(out.last().map(|w| w.as_str()), Some("dog"));
        for pair in out.windows(2) {
            let follows = fed.windows(2).any(|p| &p[0] == pair[0] && &p[1] == pair[1]);
            assert!(follows);
        }
    }
}

#[test]
fn take_hands_out_at_most_k() {
    let mut chain: Chain<u8> = Chain::new();
    chain.feed(vec![7, 7, 7, 7, 7, 7, 7, 7]);
    for seed in 0..20 {
        let mut walk = chain.generate_iter_with(StdRng::seed_from_u64(seed));
        let out = walk.take(3);
        assert!(out.len() <= 3);
        assert!(out.iter().all(|v| **v == 7));
    }
    let mut walk = chain.generate_iter();
    assert!(walk.take(0).is_empty());
    let mut line: Chain<u8> = Chain::new();
    line.feed(vec![1, 2, 3, 4, 5]);
    let mut walk = line.generate_iter();
    assert_eq!(walk.take(2), vec![&1, &2]);
    assert_eq!(walk.take(2), vec![&3, &4]);
    assert_eq!(walk.take(2), vec![&5]);
    assert!(walk.take(2).is_empty());
}

#[test]
fn a_lazy_walk_stays_over() {
    let mut chain: Chain<&str> = Chain::new();
    chain.feed(vec!["a", "b"]);
    let mut walk = chain.generate_iter();
    assert_eq!(walk.next(), Some(&"a"));
    assert_eq!(walk.next(), Some(&"b"));
    assert_eq!(walk.next(), None);
    assert_eq!(walk.next(), None);
}

#[test]
fn a_dead_end_stops_the_walk() {
    let mut chain: Chain<&str> = Chain::new();
    let a = chain.ensure_node("a");
    let b = chain.ensure_node("b");
    chain.bump_edge(chain.start, a);
    chain.bump_edge(a, b);
    assert_eq!(chain.generate(), vec![&"a", &"b"]);
    let mut walk = chain.generate_iter();
    assert_eq!(walk.take(5), vec![&"a", &"b"]);
    assert_eq!(walk.next(), None);
}

#[test]
fn a_walker_steps_along_the_edges() {
    let mut chain: Chain<&str> = Chain::new();
    chain.feed(vec!["a", "b"]);
    let mut walker = RandomWalk::with_rng(chain.start, StdRng::seed_from_u64(5));
    assert_eq!(walker.position(), chain.start);
    assert_eq!(walker.next(&chain.graph), Some(2));
    assert_eq!(walker.position(), 2);
    assert_eq!(walker.next(&chain.graph), Some(3));
    assert_eq!(walker.next(&chain.graph), Some(chain.end));
    assert_eq!(walker.next(&chain.graph), None);
    assert_eq!(walker.position(), chain.end);
    let mut fresh = RandomWalk::new(3);
    assert_eq!(fresh.position(), 3);
    assert_eq!(fresh.next(&chain.graph), Some(chain.end));
}

#[test]
fn advance_follows_the_chosen_edge() {
    let mut walker = RandomWalk::with_rng(0, StdRng::seed_from_u64(0));
    let edges = vec![(4, 1), (9, 2), (6, 3)];
    assert_eq!(walker.advance(&edges, 1), 9);
    assert_eq!(walker.position(), 9);
    assert_eq!(walker.advance(&edges, 2), 6);
    assert_eq!(walker.position(), 6);
}

#[test]
fn weights_follow_their_edges() {
    assert_eq!(weights_of(&vec![(4, 1), (9, 2), (6, 3)]), vec![1, 2, 3]);
    assert!(weights_of(&vec![]).is_empty());
}

#[test]
fn heavy_edges_are_drawn_more_often() {
    let mut chain: Chain<&str> = Chain::new();
    for _ in 0..9 {
        chain.feed(vec!["often"]);
    }
    chain.feed(vec!["rarely"]);
    let mut often = 0;
    for seed in 0..200 {
        let out = chain.generate_with(StdRng::seed_from_u64(seed));
        assert_eq!(out.len(), 1);
        if *out[0] == "often" {
            often += 1;
        }
    }
    assert!(often > 140);
    assert!(often < 200);
}

#[test]
fn the_graph_rows_read_oldest_first() {
    let mut chain: Chain<&str> = Chain::new();
    chain.feed(vec!["a"]);
    chain.feed(vec!["b"]);
    chain.feed(vec!["c"]);
    assert_eq!(edges_from(&chain.graph, chain.start), vec![(2, 1), (3, 1), (4, 1)]);
}

#[test]
fn a_walker_draws_from_the_generator_it_was_given() {
    let mut chain: Chain<u32> = Chain::new();
    chain.feed(vec![1, 2, 3, 1, 3, 2, 1, 1, 2, 2, 3, 3]);
    chain.feed(vec![3, 2, 1]);
    let mut differ = false;
    for seed in 0..20 {
        let mut walker = RandomWalk::with_rng(chain.start, StdRng::seed_from_u64(seed));
        let mut nodes = Vec::new();
        while let Some(node) = walker.next(&chain.graph) {
            if node == chain.end {
                break;
            }
            nodes.push(node);
        }
        let values: Vec<u32> = nodes.iter().filter_map(|n| chain.item(*n).data().copied()).collect();
        let lazy: Vec<u32> = chain
            .generate_iter_with(StdRng::seed_from_u64(seed))
            .take(usize::MAX)
            .into_iter()
            .copied()
            .collect();
        let eager: Vec<u32> = chain.generate_with(StdRng::seed_from_u64(seed)).into_iter().copied().collect();
        assert_eq!(values, lazy);
        assert_eq!(values, eager);
        let other: Vec<u32> =
            chain.generate_with(StdRng::seed_from_u64(seed + 1000)).into_iter().copied().collect();
        if other != eager {
            differ = true;
        }
    }
    assert!(differ);
}

#[test]
fn a_walk_does_not_leave_the_end() {
    let mut chain: Chain<&str> = Chain::new();
    chain.feed(vec!["a"]);
    let a = chain.ensure_node("a");
    chain.bump_edge(chain.end, a);
    let mut walk = chain.generate_iter();
    assert_eq!(walk.next(), Some(&"a"));
    assert_eq!(walk.next(), None);
    assert_eq!(walk.next(), None);
    assert_eq!(chain.generate(), vec![&"a"]);
}
