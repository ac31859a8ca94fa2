use sketchbook::necklace::{necklaces, pow_u32, rotate_right, seq_incr, seq_value, shift_to_minimum};

#[test]
fn necklace_counts_from_the_challenge() {
    assert_eq!(necklaces(3, 4), 24);
    assert_eq!(necklaces(2, 12), 352);
    assert_eq!(necklaces(3, 7), 315);
    assert_eq!(necklaces(9, 4), 1665);
    assert_eq!(necklaces(21, 3), 3101);
    assert_eq!(necklaces(99, 2), 4950);
}

#[test]
fn necklace_small_cases() {
    assert_eq!(necklaces(0, 3), 0);
    assert_eq!(necklaces(1, 5), 1);
    assert_eq!(necklaces(5, 1), 5);
    assert_eq!(necklaces(2, 4), 6);
}

#[test]
fn seq_value_reads_base_k() {
    assert_eq!(seq_value(&vec![1, 2, 3], 10), 123);
    assert_eq!(seq_value(&vec![1, 0, 1, 1], 2), 11);
    assert_eq!(seq_value(&vec![], 7), 0);
    assert_eq!(seq_value(&vec![2, 1], 0), 1);
}

#[test]
fn pow_values() {
    assert_eq!(pow_u32(3, 4), 81);
    assert_eq!(pow_u32(0, 0), 1);
    assert_eq!(pow_u32(2, 31), 1 << 31);
}

#[test]
fn rotate_right_moves_the_tail_to_the_front() {
    let mut v = vec![1, 2, 3, 4];
    rotate_right(&mut v, 1);
    assert_eq!(v, vec![4, 1, 2, 3]);
    rotate_right(&mut v, 3);
    assert_eq!(v, vec![1, 2, 3, 4]);
    rotate_right(&mut v, 4);
    assert_eq!(v, vec![1, 2, 3, 4]);
    let mut e: Vec<u32> = vec![];
    rotate_right(&mut e, 0);
    assert!(e.is_empty());
}

#[test]
fn shift_to_minimum_picks_least_rotation() {
    assert_eq!(shift_to_minimum(&vec![2, 0, 1], 3), vec![0, 1, 2]);
    assert_eq!(shift_to_minimum(&vec![1, 0, 1, 0], 2), vec![0, 1, 0, 1]);
    assert_eq!(shift_to_minimum(&vec![], 2), Vec::<u32>::new());
    // every rotation of a necklace has the same least rotation
    let base = vec![1, 2, 0, 2, 1];
    let least = shift_to_minimum(&base, 3);
    let mut r = base.clone();
    for _ in 0..5 {
        r.rotate_right(1);
        assert_eq!(shift_to_minimum(&r, 3), least);
    }
    // necklaces that are not rotations of each other have different ones
    assert_ne!(shift_to_minimum(&vec![0, 0, 1, 1], 2), shift_to_minimum(&vec![0, 1, 0, 1], 2));
}

#[test]
fn seq_incr_counts_with_carry() {
    let mut s = vec![0, 2, 2];
    seq_incr(&mut s, 2, 3);
    assert_eq!(s, vec![1, 0, 0]);
    seq_incr(&mut s, 2, 3);
    assert_eq!(s, vec![1, 0, 1]);
    let mut top = vec![2, 2];
    seq_incr(&mut top, 1, 3);
    assert_eq!(top, vec![3, 0]);
    let mut mid = vec![0, 0, 0];
    seq_incr(&mut mid, 1, 2);
    assert_eq!(mid, vec![0, 1, 0]);
}

#[test]
fn seq_incr_visits_numbers_in_order() {
    let mut s = vec![0u32; 3];
    for i in 0..26u32 {
        assert_eq!(seq_value(&s, 3), i);
        seq_incr(&mut s, 2, 3);
    }
}

#[test]
fn seq_value_orders_words_like_a_dictionary() {
    let words = [vec![0u32, 2, 2], vec![1, 0, 0], vec![1, 0, 1], vec![2, 1, 0]];
    for i in 0..words.len() {
        for j in 0..words.len() {
            let (a, b) = (&words[i], &words[j]);
            assert_eq!(seq_value(a, 3) < seq_value(b, 3), a < b);
            assert_eq!(seq_value(a, 3) == seq_value(b, 3), a == b);
        }
    }
}

#[test]
fn every_rotation_has_the_same_least_rotation() {
    let s = vec![2u32, 0, 1, 0];
    let least = shift_to_minimum(&s, 3);
    assert_eq!(least, vec![0, 1, 0, 2]);
    for j in 0..9 {
        let mut t = s.clone();
        t.rotate_left(j % s.len());
        assert_eq!(shift_to_minimum(&t, 3), least);
        let mut u = s.clone();
        u.rotate_right(j % s.len());
        assert_eq!(shift_to_minimum(&u, 3), least);
    }
    assert_eq!(shift_to_minimum(&least, 3), least);
}
