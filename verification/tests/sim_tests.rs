use gameoflight::{file_to_world, MsgRunForTicks, MsgSetTileState, StateFileError, World, WorldSim};

fn lives(w: &World) -> Vec<bool> {
    w.cells().iter().map(|t| t.live).collect()
}

#[test]
fn run_for_ticks_steps_the_world() {
    let blinker = vec![false, false, false, true, true, true, false, false, false];
    let w = World::from_bools((3, 3), blinker.clone()).unwrap();
    let mut sim = WorldSim::with_world(String::from("world"), w);
    assert_eq!(sim.name(), "world");
    let r = sim.handle_run_for_ticks(MsgRunForTicks::new(1));
    assert_eq!(lives(r.world()), vec![false, true, false, false, true, false, false, true, false]);
    let r2 = sim.handle_run_for_ticks(MsgRunForTicks::new(3));
    // Four steps in all: back to the start.
    assert_eq!(lives(r2.world()), blinker);
    assert_eq!(MsgRunForTicks::new(7).ticks(), 7);
}

#[test]
fn run_for_zero_ticks_changes_nothing() {
    let mut sim = WorldSim::new(String::from("w"), (4, 4));
    let r = sim.handle_run_for_ticks(MsgRunForTicks::new(0));
    assert_eq!(lives(r.world()), vec![false; 16]);
}

#[test]
fn set_tile_state_sets_one_tile() {
    let mut sim = WorldSim::new(String::from("w"), (3, 2));
    let r = sim.handle_set_tile_state(MsgSetTileState((2, 1), true));
    assert_eq!(lives(r.world()), vec![false, false, false, false, false, true]);
    let r2 = sim.handle_set_tile_state(MsgSetTileState((3, 1), true));
    assert_eq!(lives(r2.world()), vec![false, false, false, false, false, true]);
}

#[test]
fn state_file_is_read() {
    let text = b"abc\n# .\n.x \nzz";
    let w = file_to_world(text).unwrap();
    assert_eq!(w.dims(), (3, 2));
    assert_eq!(lives(&w), vec![true, false, false, false, true, false]);
}

#[test]
fn state_file_drops_incomplete_row() {
    let text = b"ab\n####\n#";
    let w = file_to_world(text).unwrap();
    assert_eq!(w.dims(), (2, 2));
    assert_eq!(lives(&w), vec![true, true, true, true]);
}

#[test]
fn state_file_without_line_end_is_refused() {
    assert_eq!(file_to_world(b"###").unwrap_err(), StateFileError::NoLineEnd);
    assert_eq!(file_to_world(b"").unwrap_err(), StateFileError::NoLineEnd);
}
