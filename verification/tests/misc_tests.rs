use sketchbook::acquaint::{count_links, Person};
use sketchbook::battle::{apply_damage, damage_color, obstacle_color, reset_obstacles, soldier_color};
use sketchbook::gridsum::summed_area;
use sketchbook::rogue::{next_position, Cell, GridMap, Player};
use sketchbook::tree::{print_leaf, Leaf};

#[test]
fn tree_values_depth_first() {
    let l0 = Leaf { val: 0, left: None, right: None };
    let l1 = Leaf { val: 1, left: None, right: None };
    let l2 = Leaf { val: 2, left: Some(&l0), right: Some(&l1) };
    assert_eq!(print_leaf(&l2), vec![2, 0, 1]);
    let l3 = Leaf { val: -7, left: None, right: Some(&l2) };
    assert_eq!(print_leaf(&l3), vec![-7, 2, 0, 1]);
}

#[test]
fn summed_area_small_grid() {
    let grid = vec![1, 2, 3, 4, 5, 6];
    let sums = summed_area(&grid, 3, 2);
    assert_eq!(sums, vec![1, 3, 6, 5, 12, 21]);
    assert_eq!(*sums.last().unwrap(), grid.iter().sum::<usize>());
    assert!(summed_area(&vec![], 0, 5).is_empty());
}

#[test]
fn links_are_counted_for_both_people() {
    let knows = vec![vec![], vec![true], vec![false, true], vec![true, true, false]];
    let counts = count_links(&knows);
    assert_eq!(counts, vec![2, 3, 1, 2]);
    let total: usize = counts.iter().sum();
    assert_eq!(total, 2 * 4);
    assert_eq!(Person { ind: 3 } == Person { ind: 3 }, true);
    assert_eq!(Person { ind: 3 } == Person { ind: 4 }, false);
}

#[test]
fn map_put_get_move() {
    let mut map = GridMap::new(4, 3);
    assert_eq!(map.cells.len(), 12);
    let p = Player::default();
    assert_eq!(p.symbol, '♘');
    map.put(p, 1, 2);
    assert_eq!(map.get(1, 2).large_object, Some(p));
    map.move_object(1, 2, 2, 2);
    assert_eq!(map.get(1, 2).large_object, None);
    assert_eq!(map.get(2, 2).glyph(), '♘');
    map.move_object(2, 2, 2, 2);
    assert_eq!(map.get(2, 2).glyph(), '♘');
    assert_eq!(Cell::default().glyph(), '.');
}

#[test]
fn map_print_shows_the_player() {
    let mut map = GridMap::new(3, 2);
    map.put(Player { symbol: '@' }, 0, 1);
    let text: String = map.print().into_iter().collect();
    assert_eq!(text, "\n...\n@..\n\n");
}

#[test]
fn moves_stay_on_the_map() {
    assert_eq!(next_position(0, 0, true, false, true, false, 80, 30), (0, 0));
    assert_eq!(next_position(5, 5, true, false, false, true, 80, 30), (4, 6));
    assert_eq!(next_position(79, 29, false, true, false, true, 80, 30), (79, 29));
    assert_eq!(next_position(3, 3, true, true, true, true, 80, 30), (3, 3));
}

#[test]
fn battle_colours() {
    assert_eq!(obstacle_color(2000), (62, 3, 1));
    assert_eq!(obstacle_color(20000), (255, 39, 19));
    assert_eq!(damage_color(0), None);
    assert_eq!(damage_color(800), Some((255, 255, 0)));
    assert_eq!(damage_color(120), Some((255, 120, 0)));
    assert_eq!(soldier_color(20), (20, 210, 20));
    assert_eq!(soldier_color(300), (20, 210, 255));
}

#[test]
fn damage_wears_obstacles_down() {
    let mut obstacles = vec![2000u16, 100, 5, 7];
    apply_damage(&mut obstacles, &vec![1500, 150, 0]);
    assert_eq!(obstacles, vec![500, 0, 5, 7]);
}

#[test]
fn barriers_at_reset() {
    let (w, h) = (640usize, 480usize);
    let obstacles = reset_obstacles(w, h);
    assert_eq!(obstacles.len(), w * h);
    assert_eq!(obstacles[50 * w], 2000);
    assert_eq!(obstacles[73 * w + 59], 2000);
    assert_eq!(obstacles[74 * w], 0);
    assert_eq!(obstacles[49 * w], 0);
    assert_eq!(obstacles[223 * w + 309], 2000);
    let count = obstacles.iter().filter(|&&o| o == 2000).count();
    assert!(count > 0 && count <= 10 * 24 * 60);
}

#[test]
fn moving_to_the_same_place_does_nothing_even_off_the_map() {
    let mut map = GridMap::new(2, 2);
    map.put(Player { symbol: '@' }, 1, 1);
    let before = map.cells.clone();
    map.move_object(7, 9, 7, 9);
    map.move_object(1, 1, 1, 1);
    assert_eq!(map.cells, before);
}
