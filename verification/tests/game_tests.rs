use std::sync::Arc;

use futures::Stream;
use gameoflight::{
    cell_diffs, handle_message, invoice_msatoshi, invoice_notice, EditWindow, GameState, InvoiceRequest,
    NetMessage, Session, SubmitTilesMessage, TileState, User, World,
};

fn live_positions(w: &World) -> Vec<(usize, usize)> {
    let (width, _) = w.dims();
    w.cells()
        .iter()
        .enumerate()
        .filter(|(_, t)| t.live)
        .map(|(i, _)| (i % width, i / width))
        .collect()
}

fn text_of(m: &NetMessage) -> String {
    match m {
        NetMessage::Alert(t) => format!("alert:{}", t),
        NetMessage::Log(t) => format!("log:{}", t),
        NetMessage::Invoice(l, b) => format!("invoice:{}:{}", l, b),
        NetMessage::InvoicePaid(l) => format!("paid:{}", l),
        _ => String::from("other"),
    }
}

#[test]
fn new_game_has_an_r_pentomino() {
    let gs = GameState::new(World::new((128, 128)));
    assert_eq!(live_positions(&gs.world), vec![(65, 64), (66, 64), (64, 65), (65, 65), (65, 66)]);
    assert!(gs.sessions.is_empty());
    assert!(gs.pending_updates.is_empty());
}

#[test]
fn r_pentomino_off_the_grid_is_clipped() {
    let gs = GameState::new(World::new((66, 66)));
    assert_eq!(live_positions(&gs.world), vec![(65, 64), (64, 65), (65, 65)]);
}

#[test]
fn log_messages_are_acknowledged() {
    let mut gs = GameState::new(World::new((8, 8)));
    let (reply, ir) = handle_message(3, NetMessage::new_log_msg("hello"), &mut gs);
    assert_eq!(text_of(&reply), "log:ok");
    assert!(ir.is_none());
    assert!(gs.pending_updates.is_empty());
}

#[test]
fn other_messages_are_refused() {
    let mut gs = GameState::new(World::new((8, 8)));
    let (reply, ir) = handle_message(3, NetMessage::RequestEditWindow, &mut gs);
    assert_eq!(text_of(&reply), "alert:lol you can't send that, noob");
    assert!(ir.is_none());
    let w = EditWindow { xpos: 0, ypos: 0, width: 1, height: 1 };
    let (reply2, _) = handle_message(3, NetMessage::UpdateEditWindow(w), &mut gs);
    assert_eq!(text_of(&reply2), "alert:lol you can't send that, noob");
}

fn two_updates() -> Vec<TileState> {
    vec![TileState { x: 1, y: 1, live: true }, TileState { x: 2, y: 1, live: true }]
}

#[test]
fn submitted_tiles_wait_for_an_invoice() {
    let mut gs = GameState::new(World::new((8, 8)));
    let before = live_positions(&gs.world);
    let (reply, ir) = handle_message(5, NetMessage::SubmitTiles(SubmitTilesMessage { updates: two_updates() }), &mut gs);
    assert_eq!(text_of(&reply), "log:creating invoice...");
    let ir = ir.unwrap();
    assert_eq!(ir.dest, 5);
    assert_eq!(ir.sat, 20);
    assert_eq!(ir.label.len(), 23);
    assert!(ir.label.starts_with("conway-"));
    assert!(ir.label[7..].chars().all(|c| "1234567890abcdef".contains(c)));
    assert_eq!(ir.desc, format!("payment to set liveness of 2 tiles (update label: {})", ir.label));
    // Nothing changes in the world until it is paid.
    assert_eq!(live_positions(&gs.world), before);
    assert_eq!(gs.pending_updates.len(), 1);
    assert_eq!(gs.pending_updates[0].label, ir.label);
    assert_eq!(gs.pending_updates[0].session, 5);
}

#[test]
fn submit_with_a_given_label() {
    let mut gs = GameState::new(World::new((8, 8)));
    let (reply, ir) = gs.submit_tiles(9, SubmitTilesMessage { updates: vec![TileState { x: 0, y: 0, live: true }; 12] }, String::from("conway-0123456789abcdef"));
    assert_eq!(text_of(&reply), "log:creating invoice...");
    assert_eq!(ir.sat, 120);
    assert_eq!(ir.label, "conway-0123456789abcdef");
    assert_eq!(ir.desc, "payment to set liveness of 12 tiles (update label: conway-0123456789abcdef)");
    // Filing again under the same label replaces the entry.
    let _ = gs.submit_tiles(4, SubmitTilesMessage { updates: vec![] }, String::from("conway-0123456789abcdef"));
    assert_eq!(gs.pending_updates.len(), 1);
    assert_eq!(gs.pending_updates[0].session, 4);
}

#[test]
fn paying_applies_the_tiles_once() {
    let mut gs = GameState::new(World::new((8, 8)));
    let (_, ir) = handle_message(5, NetMessage::SubmitTiles(SubmitTilesMessage { updates: two_updates() }), &mut gs);
    let label = ir.unwrap().label;
    let r = gs.settle_invoice(&label).unwrap();
    assert_eq!(r.0, 5);
    assert_eq!(text_of(&r.1), format!("paid:{}", label));
    let live = live_positions(&gs.world);
    assert!(live.contains(&(1, 1)) && live.contains(&(2, 1)));
    assert!(gs.pending_updates.is_empty());
    // A second payment under the same label finds nothing to do.
    assert!(gs.settle_invoice(&label).is_none());
    assert_eq!(live_positions(&gs.world), live);
}

#[test]
fn unknown_label_changes_nothing() {
    let mut gs = GameState::new(World::new((8, 8)));
    let before = live_positions(&gs.world);
    assert!(gs.settle_invoice(&String::from("conway-ffffffffffffffff")).is_none());
    assert_eq!(live_positions(&gs.world), before);
}

#[test]
fn updates_apply_in_order() {
    let w = World::new((4, 4));
    let chgs = vec![
        TileState { x: 1, y: 1, live: true },
        TileState { x: 1, y: 1, live: false },
        TileState { x: 3, y: 0, live: true },
        TileState { x: 9, y: 9, live: true },
    ];
    let nw = gameoflight::apply_changes_to_world(&w, chgs);
    assert_eq!(live_positions(&nw), vec![(3, 0)]);
}

#[test]
fn a_game_step_reports_the_changed_tiles() {
    let mut gs = GameState::new(World::new((128, 128)));
    let before = gs.world.clone();
    let msg = gs.step_world();
    let after = gs.world.clone();
    match msg {
        NetMessage::UpdateCells(diffs) => {
            assert!(!diffs.is_empty());
            for d in &diffs {
                let (x, y) = d.pos;
                let prev = before.cell_at((x, y)).unwrap();
                let cur = after.cell_at((x, y)).unwrap();
                assert!(prev != cur);
                assert!(*cur == d.state);
            }
            let changed = before.cells().iter().zip(after.cells().iter()).filter(|(p, c)| p != c).count();
            assert_eq!(changed, diffs.len());
        }
        _ => panic!("expected cell updates"),
    }
}

#[test]
fn no_change_no_diffs() {
    let w = World::from_bools((2, 2), vec![true, false, true, true]).unwrap();
    assert!(cell_diffs(&w, &w).is_empty());
    let mut w2 = w.clone();
    w2.set_tile_liveness((1, 0), true);
    let d = cell_diffs(&w, &w2);
    assert_eq!(d.len(), 1);
    assert_eq!(d[0].pos, (1, 0));
    assert!(d[0].state.live);
}

#[test]
fn world_state_message_carries_the_world() {
    let w = Arc::new(World::new((2, 2)));
    match NetMessage::new_world_state_message(w.clone()) {
        NetMessage::NewWorldState(m) => assert!(Arc::ptr_eq(&m.world, &w)),
        _ => panic!("expected a world state"),
    }
    assert_eq!(text_of(&NetMessage::new_alert_msg("x")), "alert:x");
}

#[test]
fn invoice_notices() {
    let ir = InvoiceRequest::new(2, 30, String::from("conway-aa"), String::from("d"));
    let ok = invoice_notice(&ir, Ok(String::from("lnbc1")));
    assert_eq!(text_of(&ok), "invoice:conway-aa:lnbc1");
    let err = invoice_notice(&ir, Err(String::from("no \"route\"")));
    assert_eq!(
        text_of(&err),
        "alert:Could not create invoice, try refreshing the page.\nError:\n\"no \\\"route\\\"\""
    );
    assert_eq!(invoice_msatoshi(&ir), 30000);
}

#[test]
fn users_keep_their_camera() {
    let mut u = User::new(4, "tok");
    assert_eq!(u.pos(), None);
    u.set_pos((3, -2));
    assert_eq!(u.pos(), Some((3, -2)));
    u.clear_pos();
    assert_eq!(u.pos(), None);
}

#[test]
fn sessions_queue_messages() {
    let (s, r) = Session::new(11);
    assert_eq!(s.id(), 11);
    let s2 = s.clone();
    assert!(s == s2);
    assert!(s != Session::new(12).0);
    s.queue_message(NetMessage::new_log_msg("one"));
    s2.queue_message(NetMessage::new_alert_msg("two"));
    drop(s);
    drop(s2);
    let got: Vec<String> = r.wait().map(|m| text_of(&m.unwrap())).collect();
    assert_eq!(got, vec![String::from("log:one"), String::from("alert:two")]);
}

#[test]
fn labels_follow_the_draws() {
    let draws: Vec<u32> = (0..16).collect();
    assert_eq!(gameoflight::label_from_draws(&draws), "conway-1234567890abcdef");
    let draws2: Vec<u32> = vec![17, 0xffff_ffff, 32, 5, 21, 0, 0, 0, 0, 0, 0, 0, 0, 0, 0, 1];
    assert_eq!(gameoflight::label_from_draws(&draws2), "conway-2f16611111111112");
}

#[test]
fn two_submissions_get_different_labels() {
    let mut gs = GameState::new(World::new((8, 8)));
    let (_, a) = handle_message(1, NetMessage::SubmitTiles(SubmitTilesMessage { updates: two_updates() }), &mut gs);
    let (_, b) = handle_message(2, NetMessage::SubmitTiles(SubmitTilesMessage { updates: two_updates() }), &mut gs);
    let (a, b) = (a.unwrap(), b.unwrap());
    assert_ne!(a.label, b.label);
    assert_eq!(gs.pending_updates.len(), 2);
}

#[test]
fn descriptions_count_in_decimal() {
    let mut gs = GameState::new(World::new((8, 8)));
    let (_, ir) = gs.submit_tiles(1, SubmitTilesMessage { updates: vec![TileState { x: 0, y: 0, live: true }; 105] }, String::from("l"));
    assert_eq!(ir.desc, "payment to set liveness of 105 tiles (update label: l)");
    assert_eq!(ir.sat, 1050);
    let (_, ir0) = gs.submit_tiles(1, SubmitTilesMessage { updates: vec![] }, String::from("m"));
    assert_eq!(ir0.desc, "payment to set liveness of 0 tiles (update label: m)");
    assert_eq!(ir0.sat, 0);
}

#[test]
fn game_loop_runs_the_world_step_by_step() {
    let mut gs = GameState::new(World::new((128, 128)));
    let mut expected = gs.world.as_ref().clone();
    for _ in 0..3 {
        let prev = expected.clone();
        expected = expected.step();
        match gs.step_world() {
            NetMessage::UpdateCells(diffs) => assert_eq!(diffs.len(), cell_diffs(&prev, &expected).len()),
            _ => panic!("expected cell updates"),
        }
        assert_eq!(gs.world.cells(), expected.cells());
        assert_eq!(gs.world.tick(), expected.tick());
    }
    assert_eq!(gs.world.tick(), 3);
    assert!(gs.sessions.is_empty() && gs.pending_updates.is_empty());
}
