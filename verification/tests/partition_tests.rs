use sketchbook::partition::update_pmap;
use std::collections::HashMap;

fn fresh() -> HashMap<u64, Vec<Vec<u64>>> {
    let mut pmap = HashMap::new();
    pmap.insert(1, vec![vec![1]]);
    pmap
}

#[test]
fn partition_counts_match_the_sequence() {
    let expected = [1usize, 1, 2, 3, 5, 7, 11, 15, 22, 30, 42, 56];
    let mut pmap = fresh();
    for n in 1..12u64 {
        update_pmap(&mut pmap, n);
        assert_eq!(pmap[&n].len(), expected[n as usize]);
    }
}

#[test]
fn partitions_of_five_are_listed() {
    let mut pmap = fresh();
    update_pmap(&mut pmap, 5);
    let mut got = pmap[&5].clone();
    got.sort();
    let mut want = vec![
        vec![5],
        vec![1, 4],
        vec![1, 1, 3],
        vec![2, 3],
        vec![1, 2, 2],
        vec![1, 1, 1, 2],
        vec![1, 1, 1, 1, 1],
    ];
    want.sort();
    assert_eq!(got, want);
    for p in &pmap[&5] {
        assert!(p.windows(2).all(|w| w[0] <= w[1]));
        assert_eq!(p.iter().sum::<u64>(), 5);
    }
}

#[test]
fn existing_entries_are_kept() {
    let mut pmap = HashMap::new();
    pmap.insert(2, vec![vec![2], vec![1, 1]]);
    update_pmap(&mut pmap, 4);
    assert_eq!(pmap[&2], vec![vec![2], vec![1, 1]]);
    assert_eq!(pmap[&4].len(), 5);
    assert!(pmap.contains_key(&1) && pmap.contains_key(&3));
}

#[test]
fn partition_of_zero_is_the_zero_list() {
    let mut pmap = HashMap::new();
    update_pmap(&mut pmap, 0);
    assert_eq!(pmap[&0], vec![vec![0]]);
}

#[test]
fn update_fills_in_every_smaller_number() {
    let mut pmap: HashMap<u64, Vec<Vec<u64>>> = HashMap::new();
    update_pmap(&mut pmap, 6);
    let mut keys: Vec<u64> = pmap.keys().copied().collect();
    keys.sort();
    assert_eq!(keys, vec![1, 2, 3, 4, 5, 6]);
    update_pmap(&mut pmap, 0);
    assert_eq!(pmap.len(), 7);
    assert_eq!(pmap[&0], vec![vec![0]]);
}

#[test]
fn an_entry_for_zero_is_left_alone() {
    let mut pmap: HashMap<u64, Vec<Vec<u64>>> = HashMap::new();
    pmap.insert(0, vec![vec![]]);
    update_pmap(&mut pmap, 4);
    assert_eq!(pmap[&0], vec![Vec::<u64>::new()]);
    assert_eq!(pmap[&4].len(), 5);
}
