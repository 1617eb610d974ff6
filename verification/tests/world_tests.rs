use gameoflight::{cartesean_to_index, index_to_cartesean, Tile, World};

#[test]
fn test_i2c_1() {
    assert_eq!(Some((5, 0)), index_to_cartesean((20, 1), 5))
}

#[test]
fn test_c2i_1() {
    assert_eq!(Some(7), cartesean_to_index((3, 5), (1, 2)))
}

#[test]
fn debug_world_deser() {
    // This is a glider.  Run with --nocapture.
    let tiles = vec![
        false, false, false, false, false,
        false, false,  true, false, false,
        false, false, false,  true, false,
        false,  true,  true,  true, false,
        false, false, false, false, false
    ];

    println!("{}", World::from_bools((5, 5), tiles).unwrap().to_string());
}

#[test]
fn tile_equality_ignores_last_update() {
    let a = Tile { live: true, last_update: 3, data: 7 };
    let b = Tile { live: true, last_update: 9, data: 7 };
    let c = Tile { live: false, last_update: 3, data: 7 };
    assert!(a == b);
    assert!(a != c);
}

#[test]
fn from_bools_rejects_wrong_length() {
    let r = World::from_bools((2, 2), vec![true, false, true]);
    assert_eq!(r.unwrap_err(), "len doesn't match dims");
}

#[test]
fn from_bools_keeps_states_in_row_major_order() {
    let w = World::from_bools((3, 2), vec![true, false, false, false, true, true]).unwrap();
    assert_eq!(w.dims(), (3, 2));
    let lives: Vec<bool> = w.cells().iter().map(|t| t.live).collect();
    assert_eq!(lives, vec![true, false, false, false, true, true]);
    assert!(w.cells().iter().all(|t| t.last_update == 0 && t.data == 0));
    assert!(w.cell_at((1, 1)).unwrap().live);
    assert!(!w.cell_at((1, 0)).unwrap().live);
}

#[test]
fn new_world_is_dead_and_blank() {
    let w = World::new((4, 3));
    assert_eq!(w.dims(), (4, 3));
    assert_eq!(w.cells().len(), 12);
    assert!(w.cells().iter().all(|t| !t.live && t.last_update == 0 && t.data == 0));
}

#[test]
fn tile_constructors() {
    let e = Tile::new_empty();
    assert!(!e.live && e.last_update == 0 && e.data == 0);
    let l = Tile::new_empty_live();
    assert!(l.live && l.last_update == 0 && l.data == 0);
    assert!(Tile::new_with_state(true).live);
    assert!(!Tile::new_with_state(false).live);
}

#[test]
fn cell_at_off_grid_is_none() {
    let w = World::new((3, 2));
    assert!(w.cell_at((3, 0)).is_none());
    assert!(w.cell_at((0, 2)).is_none());
    assert!(w.cell_at((2, 1)).is_some());
}

#[test]
fn cell_at_mut_writes_into_the_world() {
    let mut w = World::new((3, 3));
    {
        let t = w.cell_at_mut((2, 1)).unwrap();
        t.live = true;
        t.data = 42;
    }
    assert_eq!(w.cells()[5].data, 42);
    assert!(w.cells()[5].live);
    assert!(w.cell_at_mut((3, 3)).is_none());
}

#[test]
fn set_tile_liveness_reads_back() {
    let mut w = World::new((3, 3));
    w.set_tile_liveness((1, 2), true);
    assert!(w.cell_at((1, 2)).unwrap().live);
    assert_eq!(w.cells().iter().filter(|t| t.live).count(), 1);
    w.set_tile_liveness((1, 2), false);
    assert!(!w.cell_at((1, 2)).unwrap().live);
    // Off the grid nothing changes.
    w.set_tile_liveness((5, 5), true);
    assert_eq!(w.cells().iter().filter(|t| t.live).count(), 0);
}

#[test]
fn index_conversions_round_trip() {
    for i in 0..12 {
        let p = index_to_cartesean((4, 3), i).unwrap();
        assert_eq!(cartesean_to_index((4, 3), p), Some(i));
    }
    assert_eq!(index_to_cartesean((4, 3), 12), None);
    assert_eq!(cartesean_to_index((4, 3), (4, 0)), None);
    assert_eq!(cartesean_to_index((4, 3), (0, 3)), None);
    assert_eq!(index_to_cartesean((0, 3), 0), None);
}

fn lives(w: &World) -> Vec<bool> {
    w.cells().iter().map(|t| t.live).collect()
}

#[test]
fn blinker_oscillates() {
    let horizontal = vec![
        false, false, false, false, false,
        false, false, false, false, false,
        false, true, true, true, false,
        false, false, false, false, false,
        false, false, false, false, false,
    ];
    let vertical = vec![
        false, false, false, false, false,
        false, false, true, false, false,
        false, false, true, false, false,
        false, false, true, false, false,
        false, false, false, false, false,
    ];
    let w0 = World::from_bools((5, 5), horizontal.clone()).unwrap();
    let w1 = w0.step();
    assert_eq!(lives(&w1), vertical);
    let w2 = w1.step();
    assert_eq!(lives(&w2), horizontal);
    // The centre never changed, the ends changed at tick 1 and 2.
    assert_eq!(w2.cell_at((2, 2)).unwrap().last_update, 0);
    assert_eq!(w1.cell_at((2, 1)).unwrap().last_update, 1);
    assert_eq!(w2.cell_at((2, 1)).unwrap().last_update, 2);
}

#[test]
fn block_is_still_and_edges_do_not_wrap() {
    // A block in the corner: the grid does not wrap around.
    let tiles = vec![
        true, true, false,
        true, true, false,
        false, false, false,
    ];
    let w = World::from_bools((3, 3), tiles.clone()).unwrap();
    assert_eq!(lives(&w.step()), tiles);
}

#[test]
fn dead_world_stays_dead() {
    let w = World::new((6, 4));
    let s = w.step().step();
    assert!(s.cells().iter().all(|t| !t.live));
}

#[test]
fn newborn_takes_colour_chosen_by_tick() {
    // Three live neighbours above the centre, coloured 10, 20, 30 in the
    // order in which neighbours are visited.
    let mut w = World::from_bools((3, 3), vec![true, true, true, false, false, false, false, false, false]).unwrap();
    w.cell_at_mut((0, 0)).unwrap().data = 10;
    w.cell_at_mut((1, 0)).unwrap().data = 20;
    w.cell_at_mut((2, 0)).unwrap().data = 30;
    let s = w.step();
    let centre = s.cell_at((1, 1)).unwrap();
    assert!(centre.live);
    // Tick 1 picks the neighbour at index 1 % 3.
    assert_eq!(centre.data, 20);
    assert_eq!(centre.last_update, 1);
    // A tile that dies keeps its colour.
    assert!(!s.cell_at((0, 0)).unwrap().live);
    assert_eq!(s.cell_at((0, 0)).unwrap().data, 10);
    // The middle of the top row survives with two neighbours and keeps its colour.
    assert!(s.cell_at((1, 0)).unwrap().live);
    assert_eq!(s.cell_at((1, 0)).unwrap().data, 20);
}

#[test]
fn world_draws_as_text() {
    let w = World::from_bools((3, 2), vec![true, false, false, false, true, true]).unwrap();
    assert_eq!(w.to_string(), "===\n#  \n ##\n===");
    let empty = World::new((0, 0));
    assert_eq!(empty.to_string(), "\n");
}

#[test]
fn clone_keeps_everything() {
    let w = World::from_bools((2, 2), vec![true, false, false, true]).unwrap().step();
    let c = w.clone();
    assert_eq!(c.dims(), w.dims());
    assert_eq!(c.cells(), w.cells());
    assert_eq!(c.to_string(), w.to_string());
}

#[test]
fn any_sequence_of_changes_keeps_the_grid() {
    let mut w = World::from_bools((4, 3), vec![true; 12]).unwrap();
    w.set_tile_liveness((3, 2), false);
    w = w.step();
    w.cell_at_mut((0, 0)).unwrap().live = true;
    w.set_tile_liveness((9, 9), true);
    w = w.step().step();
    assert_eq!(w.dims(), (4, 3));
    assert_eq!(w.cells().len(), 12);
}
