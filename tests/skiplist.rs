use rand::seq::SliceRandom;
use rand::Rng;
use skiplist::level::List;
use skiplist::node::{InsertPosition, Node, Segment};
use skiplist::skiplist::{height_from_flips, random_height, Skiplist, DEFAULT_MAX_LEVEL};

#[derive(Copy, Clone, Debug, PartialEq)]
struct Order {
    id: u32,
}

impl Order {
    pub fn new(id: u32) -> Self {
        Order { id }
    }
}

fn forward<V: Clone>(s: &Skiplist<V>) -> Vec<V> {
    s.iterate_forward().into_iter().cloned().collect()
}

fn backward<V: Clone>(s: &Skiplist<V>) -> Vec<V> {
    s.iterate_backward().into_iter().cloned().collect()
}

#[test]
fn test_skiplist() {
    let mut rng = rand::thread_rng();
    let _y: f64 = rng.gen();
    let mut nums: Vec<u32> = (1..200).collect();
    nums.shuffle(&mut rng);

    let mut skiplist = Skiplist::new();
    for i in nums {
        skiplist.insert(i as u64, Order::new(i));
    }
    skiplist.insert(9999, Order::new(9999));
    println!("tower level {}, node size:{}", 6, skiplist.level_len(1));
}

#[test]
fn scenario_insert_find_remove() {
    let mut s = Skiplist::new();
    for (k, v) in [(5u64, "e"), (1, "a"), (9, "i"), (3, "c")] {
        s.insert(k, v);
    }
    assert_eq!(forward(&s), vec!["a", "c", "e", "i"]);
    assert_eq!(s.peek(&9), Some(&"i"));
    s.remove(&1);
    assert_eq!(forward(&s), vec!["c", "e", "i"]);
    assert_eq!(s.peek(&1), None);
}

#[test]
fn scenario_thousand_keys_thin_out() {
    let mut s = Skiplist::new();
    for k in 0..1000u64 {
        s.insert(k, k);
    }
    assert_eq!(s.level_len(0), 1000);
    // Each level keeps about half of the one below; the bounds are wide.
    assert!(s.level_len(1) >= 350 && s.level_len(1) <= 650);
    assert!(s.level_len(2) >= 150 && s.level_len(2) <= 350);
    assert!(s.level_len(3) >= 50 && s.level_len(3) <= 200);
    for l in 1..s.max_level() {
        assert!(s.level_len(l) <= s.level_len(l - 1));
    }
}

#[test]
fn forward_is_ascending_and_backward_is_its_reverse() {
    let mut s = Skiplist::new();
    let keys = [42u64, 7, 19, 3, 88, 0, 61, 25];
    for k in keys {
        s.insert(k, k * 10);
    }
    let f = forward(&s);
    assert_eq!(f, vec![0, 30, 70, 190, 250, 420, 610, 880]);
    let mut b = backward(&s);
    b.reverse();
    assert_eq!(b, f);
    assert_eq!(s.keys(), vec![0, 3, 7, 19, 25, 42, 61, 88]);
}

#[test]
fn towers_are_monotonic() {
    let mut s = Skiplist::new();
    for k in 0..300u64 {
        s.insert((k * 7919) % 1000, k);
    }
    for l in 1..s.max_level() {
        assert!(s.level_len(l) <= s.level_len(l - 1));
    }
}

#[test]
fn round_trip_until_overwritten_or_removed() {
    let mut s = Skiplist::new();
    s.insert(10, "ten");
    s.insert(20, "twenty");
    assert_eq!(s.peek(&10), Some(&"ten"));
    s.insert(30, "thirty");
    s.remove(&20);
    assert_eq!(s.peek(&10), Some(&"ten"));
    s.insert(10, "TEN");
    assert_eq!(s.peek(&10), Some(&"TEN"));
    s.remove(&10);
    assert_eq!(s.peek(&10), None);
}

#[test]
fn overwrite_keeps_one_entry() {
    let mut s = Skiplist::new();
    s.insert_with_height(4, "v1", 3);
    s.insert_with_height(4, "v2", 7);
    assert_eq!(s.peek(&4), Some(&"v2"));
    assert_eq!(forward(&s), vec!["v2"]);
    assert_eq!(s.level_len(0), 1);
    assert_eq!(s.level_len(1), 1);
    assert_eq!(s.level_len(2), 1);
    assert_eq!(s.level_len(3), 0);
}

#[test]
fn removal_clears_every_level() {
    let mut s = Skiplist::new();
    s.insert_with_height(1, 'a', 1);
    s.insert_with_height(2, 'b', 5);
    s.insert_with_height(3, 'c', 2);
    s.remove(&2);
    assert_eq!(s.peek(&2), None);
    assert_eq!(forward(&s), vec!['a', 'c']);
    assert_eq!(backward(&s), vec!['c', 'a']);
    assert_eq!(s.level_len(0), 2);
    assert_eq!(s.level_len(1), 1);
    for l in 2..s.max_level() {
        assert_eq!(s.level_len(l), 0);
    }
}

#[test]
fn removing_absent_key_changes_nothing() {
    let mut s = Skiplist::new();
    for k in [8u64, 2, 6] {
        s.insert(k, k + 100);
    }
    let before_f = forward(&s);
    let before_b = backward(&s);
    s.remove(&5);
    s.remove(&1000);
    assert_eq!(forward(&s), before_f);
    assert_eq!(backward(&s), before_b);
}

#[test]
fn empty_list() {
    let mut s: Skiplist<u32> = Skiplist::new();
    assert_eq!(s.max_level(), DEFAULT_MAX_LEVEL);
    assert_eq!(s.peek(&0), None);
    assert!(forward(&s).is_empty());
    assert!(backward(&s).is_empty());
    assert_eq!(s.next(), None);
    s.remove(&3);
    assert_eq!(s.level_len(0), 0);
}

#[test]
fn zero_levels_is_rejected() {
    assert!(Skiplist::<u8>::with_max_level(0).is_none());
    let s = Skiplist::<u8>::with_max_level(1).unwrap();
    assert_eq!(s.max_level(), 1);
}

#[test]
fn single_level_list() {
    let mut s = Skiplist::with_max_level(1).unwrap();
    for k in [3u64, 1, 2] {
        s.insert(k, k);
    }
    assert_eq!(forward(&s), vec![1, 2, 3]);
    assert_eq!(s.level_len(0), 3);
}

#[test]
fn height_is_clamped() {
    let mut s = Skiplist::with_max_level(4).unwrap();
    s.insert_with_height(1, (), 0);
    assert_eq!((s.level_len(0), s.level_len(1)), (1, 0));
    s.insert_with_height(2, (), 100);
    assert_eq!(s.level_len(3), 1);
    assert_eq!(s.level_len(2), 1);
    assert_eq!(s.level_len(0), 2);
}

#[test]
fn extreme_keys() {
    let mut s = Skiplist::new();
    s.insert(u64::MAX, "max");
    s.insert(0, "zero");
    s.insert(u64::MAX / 2, "mid");
    assert_eq!(forward(&s), vec!["zero", "mid", "max"]);
    assert_eq!(s.peek(&u64::MAX), Some(&"max"));
}

#[test]
fn cursor_walks_then_restarts() {
    let mut s = Skiplist::new();
    for k in [2u64, 1, 3] {
        s.insert(k, k * 11);
    }
    assert_eq!(s.next(), Some(&11));
    assert_eq!(s.next(), Some(&22));
    assert_eq!(s.next(), Some(&33));
    assert_eq!(s.next(), None);
    assert_eq!(s.next(), Some(&11));
    s.insert(4, 44);
    assert_eq!(s.next(), Some(&11));
}

#[test]
fn random_height_in_range() {
    for _ in 0..200 {
        let h = random_height(5);
        assert!(h >= 1 && h <= 5);
    }
    assert_eq!(random_height(1), 1);
}

#[test]
fn list_insert_find_pop() {
    let mut nodes: Vec<Node<&str>> = Vec::new();
    let mut l = List::new(0);
    l.insert(&mut nodes, 5, Some("e"));
    l.insert(&mut nodes, 1, Some("a"));
    l.insert(&mut nodes, 9, Some("i"));
    l.insert(&mut nodes, 5, Some("E"));
    assert_eq!(l.len, 3);
    assert_eq!(l.to_debug(&nodes), vec![1, 5, 9]);
    assert_eq!(l.to_debug_reverse(&nodes), vec![9, 5, 1]);

    let p = l.find(&nodes, 5, None).unwrap();
    let x = p.position.unwrap();
    assert!(p.is_right);
    assert_eq!(nodes[x].score, 5);
    assert_eq!(nodes[x].get(), Some(&"E"));

    let p = l.find(&nodes, 7, None).unwrap();
    let x = p.position.unwrap();
    if p.is_right {
        assert_eq!(nodes[x].score, 5);
    } else {
        assert_eq!(nodes[x].score, 9);
    }
    let p = l.find(&nodes, 0, Some(x)).unwrap();
    assert!(!p.is_right);
    assert_eq!(nodes[p.position.unwrap()].score, 1);

    assert_eq!(l.pop(&mut nodes), Some(1));
    assert_eq!(l.to_debug(&nodes), vec![5, 9]);
    let p = l.find(&nodes, 9, None).unwrap();
    l.remove(&mut nodes, p);
    assert_eq!(l.to_debug(&nodes), vec![5]);
    assert_eq!(l.pop(&mut nodes), Some(5));
    assert_eq!(l.pop(&mut nodes), None);
    assert!(l.find(&nodes, 3, None).is_none());
}

#[test]
fn list_insert_with_position() {
    let mut nodes: Vec<Node<u8>> = Vec::new();
    let mut l = List::new(2);
    let a = l.insert_with_position(&mut nodes, 10, None, None);
    assert_eq!(a, 0);
    let p = l.find(&nodes, 20, None);
    let b = l.insert_with_position(&mut nodes, 20, None, p);
    let p = l.find(&nodes, 15, Some(b));
    l.insert_with_position(&mut nodes, 15, Some(7), p);
    assert_eq!(l.to_debug(&nodes), vec![10, 15, 20]);
    assert_eq!(nodes[2].level, 2);
    assert_eq!(nodes[2].get(), Some(&7));
}

#[test]
fn node_and_position_constructors() {
    let n = Node::new(3, Some("x"));
    assert_eq!(n.score, 3);
    assert_eq!(n.get(), Some(&"x"));
    assert!(n.prev.is_none() && n.next.is_none());
    assert!(n.tower_above.is_none() && n.tower_below.is_none());
    let e: Node<u8> = Node::new(4, None);
    assert_eq!(e.get(), None);
    let p = InsertPosition::new(Some(2), false);
    assert_eq!((p.position, p.is_right, p.level), (Some(2), false, 0));
    let seg = Segment { id: 9 };
    assert_eq!(seg.id, 9);
}

#[test]
fn churn_reuses_removed_slots_correctly() {
    let mut s = Skiplist::new();
    for round in 0..5u64 {
        for k in 0..100u64 {
            s.insert(k, k + round);
        }
        for k in (0..100u64).filter(|k| k % 3 != 0) {
            s.remove(&k);
        }
        let expected: Vec<u64> = (0..100u64).filter(|k| k % 3 == 0).map(|k| k + round).collect();
        assert_eq!(forward(&s), expected);
        for k in (0..100u64).filter(|k| k % 3 == 0) {
            s.remove(&k);
        }
        assert!(forward(&s).is_empty());
        for l in 0..s.max_level() {
            assert_eq!(s.level_len(l), 0);
        }
    }
    s.insert(7, 70);
    assert_eq!(s.peek(&7), Some(&70));
}

#[test]
fn height_counts_leading_false_flips() {
    assert_eq!(height_from_flips(&vec![true, false, false], 4), 1);
    assert_eq!(height_from_flips(&vec![false, true, false], 4), 2);
    assert_eq!(height_from_flips(&vec![false, false, true], 4), 3);
    assert_eq!(height_from_flips(&vec![false, false, false], 4), 4);
    assert_eq!(height_from_flips(&vec![false, false, false, false, false], 3), 3);
    assert_eq!(height_from_flips(&vec![], 1), 1);
}

#[test]
fn insert_with_flips_places_the_tower() {
    let mut s = Skiplist::with_max_level(4).unwrap();
    s.insert_with_flips(10, "a", &vec![false, false, true]);
    assert_eq!(
        (s.level_len(0), s.level_len(1), s.level_len(2), s.level_len(3)),
        (1, 1, 1, 0)
    );
    s.insert_with_flips(20, "b", &vec![true, false, false]);
    assert_eq!((s.level_len(0), s.level_len(1)), (2, 1));
    s.insert_with_flips(10, "c", &vec![false, false, false]);
    assert_eq!(
        (s.level_len(0), s.level_len(1), s.level_len(2), s.level_len(3)),
        (2, 1, 1, 0)
    );
    assert_eq!(s.peek(&10), Some(&"c"));
}

#[test]
fn removing_absent_key_keeps_every_level() {
    let mut s = Skiplist::new();
    s.insert_with_height(1, 'a', 3);
    s.insert_with_height(5, 'b', 1);
    s.insert_with_height(9, 'c', 2);
    let before: Vec<usize> = (0..s.max_level()).map(|l| s.level_len(l)).collect();
    s.remove(&4);
    let after: Vec<usize> = (0..s.max_level()).map(|l| s.level_len(l)).collect();
    assert_eq!(before, after);
    assert_eq!(after[..3].to_vec(), vec![3, 2, 1]);
}
