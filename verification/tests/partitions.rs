use mini_haskell::rlex::automata::minimize::pop_set;
use mini_haskell::rlex::partition_refinement::{Element, Part, Partitions, SetIdx};

fn sorted_sets(p: &Partitions) -> Vec<Vec<u32>> {
    let mut sets: Vec<Vec<u32>> = p.sets().into_iter().map(|mut s| {
        s.sort();
        s
    }).collect();
    sets.sort();
    sets
}

#[test]
fn new_partition_is_one_set() {
    let p = Partitions::new(5);
    assert_eq!(p.set_count(), 1);
    assert_eq!(p.sets(), vec![vec![0, 1, 2, 3, 4]]);
    assert_eq!(p.parent_set_of(Element(3)), SetIdx(0));
    assert_eq!(p.set_iter(SetIdx(0)), vec![0, 1, 2, 3, 4]);
    assert_eq!(SetIdx(7).unwrap(), 7);
}

#[test]
fn refine_splits_by_the_pivot() {
    let mut p = Partitions::new(8);
    let formed = p.refine_with(&vec![1, 3, 5]);
    assert_eq!(sorted_sets(&p), vec![vec![0, 2, 4, 6, 7], vec![1, 3, 5]]);
    // the smaller piece keeps the number of the set, the larger gets the new one
    assert_eq!(formed, vec![SetIdx(1)]);
    assert_eq!(p.parent_set_of(Element(3)), SetIdx(0));
    assert_eq!(p.parent_set_of(Element(6)), SetIdx(1));
    let formed = p.refine_with(&vec![0, 1, 2]);
    assert_eq!(sorted_sets(&p), vec![vec![0, 2], vec![1], vec![3, 5], vec![4, 6, 7]]);
    assert_eq!(formed.len(), 2);
    assert_eq!(p.parent_set_of(Element(1)), SetIdx(0));
    assert_eq!(p.parent_set_of(Element(0)), SetIdx(1));
    let pairs = p.refine_pairs(&vec![4]);
    assert_eq!(pairs, vec![(p.parent_set_of(Element(4)).0, 4)]);
    assert_eq!(p.parent_set_of(Element(6)), SetIdx(4));
    assert_eq!(p.parent_set_of(Element(0)), p.parent_set_of(Element(2)));
    assert_ne!(p.parent_set_of(Element(0)), p.parent_set_of(Element(4)));
}

#[test]
fn a_set_inside_the_pivot_is_not_split() {
    let mut p = Partitions::new(4);
    let _ = p.refine_with(&vec![2, 3]);
    let count = p.set_count();
    let formed = p.refine_with(&vec![2, 3]);
    assert!(formed.is_empty());
    assert_eq!(p.set_count(), count);
    let formed = p.refine_with(&vec![0, 1, 2, 3]);
    assert!(formed.is_empty());
    assert_eq!(sorted_sets(&p), vec![vec![0, 1], vec![2, 3]]);
    let formed = p.refine_with(&Vec::new());
    assert!(formed.is_empty());
}

#[test]
fn simplify_and_promote() {
    let mut p = Partitions::new(6);
    let _ = p.refine_with(&vec![4, 5]);
    let _ = p.refine_with(&vec![0]);
    p.simplify();
    assert_eq!(p.set_count(), 3);
    let s = p.parent_set_of(Element(5));
    p.promote_to_head(s);
    assert_eq!(p.parent_set_of(Element(5)), SetIdx(0));
    assert_eq!(p.parent_set_of(Element(4)), SetIdx(0));
    assert_eq!(sorted_sets(&p), vec![vec![0], vec![1, 2, 3], vec![4, 5]]);
}

#[test]
fn parts_are_stretches() {
    let part = Part { start: 2, end: 5 };
    assert_eq!(part.len(), 3);
    assert_eq!(part.as_range(), (2, 5));
    assert!(!part.is_empty());
    assert!(Part { start: 4, end: 4 }.is_empty());
    assert!(Part { start: 3, end: 4 }.is_subset_of(&part));
    assert!(!Part { start: 1, end: 4 }.is_subset_of(&part));
    let mut p = Partitions::new(6);
    let _ = p.refine_with(&vec![3, 4, 5]);
    let mut all = Part { start: 0, end: 6 };
    let first = all.pop_set_according_to(&p);
    let second = all.pop_set_according_to(&p);
    assert!(all.is_empty());
    assert_ne!(first, second);
}

#[test]
fn a_partition_is_written_set_by_set() {
    let mut p = Partitions::new(5);
    assert_eq!(p.dump(), "[0 1 2 3 4]\n");
    let _ = p.refine_with(&vec![1, 3]);
    let text = p.dump();
    let mut sets: Vec<Vec<u32>> = text
        .trim_end()
        .trim_start_matches('[')
        .trim_end_matches(']')
        .split("] [")
        .map(|s| {
            let mut v: Vec<u32> = s.split(' ').map(|x| x.parse().unwrap()).collect();
            v.sort();
            v
        })
        .collect();
    sets.sort();
    assert_eq!(sets, vec![vec![0, 2, 4], vec![1, 3]]);
    assert_eq!(Partitions::new(0).dump(), "\n");
}

#[test]
fn simplify_keeps_the_order_of_the_sets() {
    let mut p = Partitions::new(7);
    let _ = p.refine_with(&vec![5, 6]);
    let _ = p.refine_with(&vec![0, 1]);
    let before: Vec<u32> = (0..7).map(|e| p.parent_set_of(Element(e)).0).collect();
    let places: Vec<u32> = (0..7).map(|e| p.position_of(Element(e))).collect();
    p.simplify();
    let after: Vec<u32> = (0..7).map(|e| p.parent_set_of(Element(e)).0).collect();
    for a in 0..7 {
        for b in 0..7 {
            assert_eq!(before[a] < before[b], after[a] < after[b]);
        }
    }
    let places_after: Vec<u32> = (0..7).map(|e| p.position_of(Element(e))).collect();
    assert_eq!(places, places_after);
}

#[test]
fn a_new_partition_holds_the_numbers_in_order() {
    let p = Partitions::new(4);
    assert_eq!(p.part(SetIdx(0)), Part { start: 0, end: 4 });
    for e in 0..4 {
        assert_eq!(p.position_of(Element(e)), e);
    }
    assert_eq!(p.set_iter(SetIdx(0)), vec![0, 1, 2, 3]);
}

#[test]
fn the_next_splitter_is_the_first_set_of_the_first_stretch() {
    let mut p = Partitions::new(6);
    let _ = p.refine_with(&vec![3, 4, 5]);
    let mut waiting = vec![Part { start: 2, end: 2 }, Part { start: 0, end: 6 }];
    let mut head = 0;
    let first = pop_set(&mut waiting, &mut head, &p).unwrap();
    let first_part = p.part(first);
    assert_eq!(first, p.parent_set_of(Element(p.set_iter(first)[0])));
    assert_eq!(first_part.start, 0);
    assert_eq!(head, 1);
    assert_eq!(waiting, vec![Part { start: 2, end: 2 }, Part { start: first_part.end, end: 6 }]);
    let second = pop_set(&mut waiting, &mut head, &p).unwrap();
    assert_ne!(first, second);
    assert_eq!(head, 2);
    assert_eq!(pop_set(&mut waiting, &mut head, &p), None);
    assert_eq!(head, 2);
}
