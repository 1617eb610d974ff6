use std::collections::HashMap;
use std::sync::Arc;

use rand::rngs::OsRng;
use rand::RngCore;
use vstd::prelude::*;

use crate::invoiceloop::InvoiceRequest;
use crate::messages::{is_alert, is_log, NetMessage, SubmitTilesMessage, TileState, UpdateCellsMessage};
use crate::session::Session;
use crate::sim::{lemma_steps_keep_shape, steps_view};
use crate::world::{index_to_cartesean, step_view, tiles_match, World, WorldView};

verus! {

#[verifier::external_type_specification]
#[verifier::external_body]
pub struct ExRandError(rand::Error);

/// Calls `RngCore::try_fill_bytes` on `rand::rngs::OsRng` over a buffer of
/// `n` bytes, which asks the operating system's generator for them and hands
/// back the error it reports instead of panicking. On success the buffer has
/// `n` bytes; nothing is claimed of their values.
#[verifier::external_body]
fn os_random_bytes(n: usize) -> (r: Result<Vec<u8>, rand::Error>)
    ensures
        r matches Ok(v) ==> v@.len() == n,
{
    let mut buf = vec![0u8; n];
    match OsRng.try_fill_bytes(&mut buf) {
        Ok(()) => Ok(buf),
        Err(e) => Err(e),
    }
}

/// The decimal digit `d` as a character.
pub open spec fn digit_char(d: nat) -> char {
    "0123456789"@[d as int]
}

/// `n` written in decimal, without sign or leading zeros.
pub open spec fn decimal(n: nat) -> Seq<char>
    decreases n,
{
    if n < 10 {
        seq![digit_char(n)]
    } else {
        decimal(n / 10).push(digit_char(n % 10))
    }
}

/// The value of a decimal digit character.
pub open spec fn digit_value(c: char) -> int {
    c as int - '0' as int
}

/// The number that the decimal numeral `s` denotes, read left to right.
pub open spec fn parse_decimal(s: Seq<char>) -> int
    decreases s.len(),
{
    if s.len() == 0 {
        0
    } else {
        parse_decimal(s.drop_last()) * 10 + digit_value(s.last())
    }
}

proof fn lemma_digit_char_value(d: nat)
    requires
        d < 10,
    ensures
        digit_value(digit_char(d)) == d,
        '0' <= digit_char(d) <= '9',
{
    reveal_strlit("0123456789");
    if d == 0 {
    } else if d == 1 {
    } else if d == 2 {
    } else if d == 3 {
    } else if d == 4 {
    } else if d == 5 {
    } else if d == 6 {
    } else if d == 7 {
    } else if d == 8 {
    } else {
    }
}

/// `decimal(n)` is the base-ten numeral of `n`: each of its characters is a
/// digit from `0` to `9`, reading it back gives `n`, and it starts with `0`
/// only for `n == 0`, which is the one-character numeral `0`.
pub proof fn lemma_decimal_is_numeral(n: nat)
    ensures
        decimal(n).len() >= 1,
        forall|i: int| 0 <= i < decimal(n).len() ==> '0' <= #[trigger] decimal(n)[i] <= '9',
        parse_decimal(decimal(n)) == n,
        decimal(n)[0] == '0' <==> n == 0,
        n == 0 ==> decimal(n) == seq!['0'],
    decreases n,
{
    reveal_strlit("0123456789");
    lemma_digit_char_value(n % 10);
    if n < 10 {
        lemma_digit_char_value(n);
        assert(decimal(n) =~= seq![digit_char(n)]);
        assert(decimal(n).drop_last() =~= Seq::<char>::empty());
        assert(parse_decimal(decimal(n)) == parse_decimal(Seq::<char>::empty()) * 10 + digit_value(
            digit_char(n),
        ));
        if n == 0 {
            assert(digit_char(0) == '0');
        }
    } else {
        lemma_decimal_is_numeral(n / 10);
        let pre = decimal(n / 10);
        assert(decimal(n).drop_last() =~= pre);
        assert(decimal(n)[0] == pre[0]);
        assert(parse_decimal(decimal(n)) == parse_decimal(pre) * 10 + digit_value(digit_char(n % 10)));
        assert((n / 10) * 10 + n % 10 == n) by (nonlinear_arith);
        assert forall|i: int| 0 <= i < decimal(n).len() implies '0' <= #[trigger] decimal(n)[i] <= '9' by {
            if i < pre.len() {
                assert(decimal(n)[i] == pre[i]);
            }
        }
    }
}

/// `n` in decimal digits, as `decimal` describes.
fn decimal_string(n: usize) -> (s: String)
    ensures
        s@ == decimal(n as nat),
    decreases n,
{
    proof {
        reveal_strlit("0123456789");
    }
    let digits = "0123456789";
    if n < 10 {
        let s = String::from_str(digits.substring_char(n, n + 1));
        assert(s@ =~= decimal(n as nat));
        s
    } else {
        let mut s = decimal_string(n / 10);
        let d = n % 10;
        s.append(digits.substring_char(d, d + 1));
        assert(s@ =~= decimal(n as nat));
        s
    }
}

/// Part of the world a player may edit.
#[derive(Clone, Debug)]
pub struct EditWindow {
    pub xpos: usize,
    pub ypos: usize,
    pub width: usize,
    pub height: usize,
}

/// Tiles a player asked for and has yet to pay for, under the label of
/// their invoice.
#[derive(Clone, Debug)]
pub struct PendingUpdate {
    pub label: String,
    pub session: u64,
    pub updates: Vec<TileState>,
}

/// The state of the game server.
pub struct GameState {
    pub sessions: HashMap<u64, Session>,
    pub world: Arc<World>,
    pub pending_updates: Vec<PendingUpdate>,
}

/// Entry `i` of `p` is labelled `l`.
pub open spec fn has_label(p: Seq<PendingUpdate>, l: Seq<char>, i: int) -> bool {
    0 <= i < p.len() && p[i].label@ == l
}

/// No two pending updates share a label.
pub open spec fn labels_unique(p: Seq<PendingUpdate>) -> bool {
    forall|i: int, j: int| 0 <= i < p.len() && 0 <= j < p.len() && i != j ==> p[i].label@ != p[j].label@
}

/// The pending updates as a map from label to the session that asked and the
/// tiles it asked for.
pub open spec fn pending_map(p: Seq<PendingUpdate>) -> Map<Seq<char>, (u64, Seq<TileState>)> {
    Map::new(
        |l: Seq<char>| exists|i: int| has_label(p, l, i),
        |l: Seq<char>|
            {
                let i = choose|i: int| has_label(p, l, i);
                (p[i].session, p[i].updates@)
            },
    )
}

pub(crate) proof fn lemma_pending_lookup(p: Seq<PendingUpdate>, i: int)
    requires
        labels_unique(p),
        0 <= i < p.len(),
    ensures
        pending_map(p).dom().contains(p[i].label@),
        pending_map(p)[p[i].label@] == (p[i].session, p[i].updates@),
{
    assert(has_label(p, p[i].label@, i));
    let j = choose|j: int| has_label(p, p[i].label@, j);
    assert(j == i);
}

proof fn lemma_pending_absent(p: Seq<PendingUpdate>, l: Seq<char>)
    requires
        forall|i: int| 0 <= i < p.len() ==> p[i].label@ != l,
    ensures
        !pending_map(p).dom().contains(l),
{
}

proof fn lemma_pending_push(p: Seq<PendingUpdate>, e: PendingUpdate)
    requires
        labels_unique(p),
        !pending_map(p).dom().contains(e.label@),
    ensures
        labels_unique(p.push(e)),
        pending_map(p.push(e)) == pending_map(p).insert(e.label@, (e.session, e.updates@)),
{
    let q = p.push(e);
    assert forall|i: int| 0 <= i < p.len() implies p[i].label@ != e.label@ by {
        if p[i].label@ == e.label@ {
            assert(has_label(p, e.label@, i));
        }
    }
    assert(labels_unique(q));
    let m = pending_map(p).insert(e.label@, (e.session, e.updates@));
    assert forall|l: Seq<char>| pending_map(q).dom().contains(l) <==> m.dom().contains(l) by {
        if m.dom().contains(l) && l != e.label@ {
            let i = choose|i: int| has_label(p, l, i);
            assert(has_label(q, l, i));
        }
        if pending_map(q).dom().contains(l) && l != e.label@ {
            let i = choose|i: int| has_label(q, l, i);
            assert(has_label(p, l, i));
        }
        if l == e.label@ {
            assert(has_label(q, l, p.len() as int));
        }
    }
    assert forall|l: Seq<char>| #[trigger] m.dom().contains(l) implies pending_map(q)[l] == m[l] by {
        if l == e.label@ {
            lemma_pending_lookup(q, p.len() as int);
        } else {
            let i = choose|i: int| has_label(p, l, i);
            lemma_pending_lookup(p, i);
            lemma_pending_lookup(q, i);
        }
    }
    assert(pending_map(q) =~= m);
}

proof fn lemma_pending_replace(p: Seq<PendingUpdate>, k: int, e: PendingUpdate)
    requires
        labels_unique(p),
        0 <= k < p.len(),
        p[k].label@ == e.label@,
    ensures
        labels_unique(p.update(k, e)),
        pending_map(p.update(k, e)) == pending_map(p).insert(e.label@, (e.session, e.updates@)),
{
    let q = p.update(k, e);
    assert(labels_unique(q));
    let m = pending_map(p).insert(e.label@, (e.session, e.updates@));
    lemma_pending_lookup(p, k);
    assert forall|l: Seq<char>| pending_map(q).dom().contains(l) <==> m.dom().contains(l) by {
        if m.dom().contains(l) {
            let i = choose|i: int| has_label(p, l, i);
            assert(has_label(q, l, i));
        }
        if pending_map(q).dom().contains(l) {
            let i = choose|i: int| has_label(q, l, i);
            assert(has_label(p, l, i));
        }
    }
    assert forall|l: Seq<char>| #[trigger] m.dom().contains(l) implies pending_map(q)[l] == m[l] by {
        if l == e.label@ {
            lemma_pending_lookup(q, k);
        } else {
            let i = choose|i: int| has_label(p, l, i);
            lemma_pending_lookup(p, i);
            lemma_pending_lookup(q, i);
        }
    }
    assert(pending_map(q) =~= m);
}

pub(crate) proof fn lemma_pending_remove(p: Seq<PendingUpdate>, k: int)
    requires
        labels_unique(p),
        0 <= k < p.len(),
    ensures
        labels_unique(p.remove(k)),
        pending_map(p.remove(k)) == pending_map(p).remove(p[k].label@),
{
    let q = p.remove(k);
    let l0 = p[k].label@;
    assert forall|i: int, j: int| 0 <= i < q.len() && 0 <= j < q.len() && i != j implies q[i].label@
        != q[j].label@ by {
        let pi = if i < k { i } else { i + 1 };
        let pj = if j < k { j } else { j + 1 };
        assert(q[i] == p[pi]);
        assert(q[j] == p[pj]);
    }
    let m = pending_map(p).remove(l0);
    assert forall|l: Seq<char>| pending_map(q).dom().contains(l) <==> m.dom().contains(l) by {
        if m.dom().contains(l) {
            let i = choose|i: int| has_label(p, l, i);
            assert(i != k);
            let qi = if i < k { i } else { i - 1 };
            assert(q[qi] == p[i]);
            assert(has_label(q, l, qi));
        }
        if pending_map(q).dom().contains(l) {
            let i = choose|i: int| has_label(q, l, i);
            let pi = if i < k { i } else { i + 1 };
            assert(q[i] == p[pi]);
            assert(has_label(p, l, pi));
            assert(pi != k);
        }
    }
    assert forall|l: Seq<char>| #[trigger] m.dom().contains(l) implies pending_map(q)[l] == m[l] by {
        let i = choose|i: int| has_label(p, l, i);
        assert(i != k);
        let qi = if i < k { i } else { i - 1 };
        assert(q[qi] == p[i]);
        lemma_pending_lookup(p, i);
        lemma_pending_lookup(q, qi);
    }
    assert(pending_map(q) =~= m);
}

/// What a game state holds: the world, the updates waiting for payment, and
/// the connected sessions.
pub struct GameStateView {
    pub world: WorldView,
    pub pending: Map<Seq<char>, (u64, Seq<TileState>)>,
    pub sessions: Map<u64, Session>,
}

impl View for GameState {
    type V = GameStateView;

    open spec fn view(&self) -> GameStateView {
        GameStateView {
            world: self.world@,
            pending: pending_map(self.pending_updates@),
            sessions: self.sessions@,
        }
    }
}

/// The game after session `sid` has filed `ups` under the label `l`.
pub open spec fn submit_view(g: GameStateView, sid: u64, ups: Seq<TileState>, l: Seq<char>) -> GameStateView {
    GameStateView { pending: g.pending.insert(l, (sid, ups)), ..g }
}

/// The game after the invoice labelled `l` was paid: the tiles filed under
/// `l`, if any, are applied to the world and no longer pending.
pub open spec fn settle_view(g: GameStateView, l: Seq<char>) -> GameStateView {
    if g.pending.dom().contains(l) {
        GameStateView {
            world: apply_tile_states(g.world, g.pending[l].1),
            pending: g.pending.remove(l),
            ..g
        }
    } else {
        g
    }
}

/// The game one world step later; nothing else changes.
pub open spec fn game_step_view(g: GameStateView) -> GameStateView {
    GameStateView { world: step_view(g.world), ..g }
}

/// The game `k` world steps later.
pub open spec fn game_steps_view(g: GameStateView, k: nat) -> GameStateView
    decreases k,
{
    if k == 0 {
        g
    } else {
        game_step_view(game_steps_view(g, (k - 1) as nat))
    }
}

/// The cells of an R-pentomino, relative to its corner:
/// ```text
///  ##
/// ##
///  #
/// ```
pub open spec fn rpentomino_offsets() -> Seq<(usize, usize)> {
    seq![(1, 0), (2, 0), (0, 1), (1, 1), (1, 2)]
}

/// The world after the tiles at `pos` plus each of `offs`, in order, have
/// been made live.
pub open spec fn make_live_at(v: WorldView, pos: (usize, usize), offs: Seq<(usize, usize)>) -> WorldView
    decreases offs.len(),
{
    if offs.len() == 0 {
        v
    } else {
        make_live_at(v, pos, offs.drop_last()).with_liveness(
            ((pos.0 + offs.last().0) as usize, (pos.1 + offs.last().1) as usize),
            true,
        )
    }
}

/// The world after each of `chgs`, in order, has set the liveness of its
/// tile.
pub open spec fn apply_tile_states(v: WorldView, chgs: Seq<TileState>) -> WorldView
    decreases chgs.len(),
{
    if chgs.len() == 0 {
        v
    } else {
        apply_tile_states(v, chgs.drop_last()).with_liveness(
            (chgs.last().x, chgs.last().y),
            chgs.last().live,
        )
    }
}

pub proof fn lemma_make_live_keeps_shape(v: WorldView, pos: (usize, usize), offs: Seq<(usize, usize)>)
    requires
        v.wf(),
    ensures
        make_live_at(v, pos, offs).wf(),
        make_live_at(v, pos, offs).dims == v.dims,
        make_live_at(v, pos, offs).tick == v.tick,
    decreases offs.len(),
{
    if offs.len() > 0 {
        lemma_make_live_keeps_shape(v, pos, offs.drop_last());
        crate::world::lemma_with_liveness_keeps_shape(
            make_live_at(v, pos, offs.drop_last()),
            ((pos.0 + offs.last().0) as usize, (pos.1 + offs.last().1) as usize),
            true,
        );
    }
}

/// Setting tiles keeps the grid's shape and its tick.
pub proof fn lemma_apply_keeps_shape(v: WorldView, chgs: Seq<TileState>)
    requires
        v.wf(),
    ensures
        apply_tile_states(v, chgs).wf(),
        apply_tile_states(v, chgs).dims == v.dims,
        apply_tile_states(v, chgs).tick == v.tick,
    decreases chgs.len(),
{
    if chgs.len() > 0 {
        lemma_apply_keeps_shape(v, chgs.drop_last());
        crate::world::lemma_with_liveness_keeps_shape(
            apply_tile_states(v, chgs.drop_last()),
            (chgs.last().x, chgs.last().y),
            chgs.last().live,
        );
    }
}

/// The position that the tile state `c` names.
pub open spec fn state_pos(c: TileState) -> (usize, usize) {
    (c.x, c.y)
}

/// After a list of tile states is applied, the tile at each position on the
/// grid has the liveness of the last entry that names it, whatever its
/// liveness before; a tile that no entry names keeps its liveness. Colour
/// and tick of last change are kept everywhere, and the grid does not
/// change shape.
pub proof fn lemma_apply_tile_states_result(v: WorldView, chgs: Seq<TileState>, pos: (usize, usize))
    requires
        v.wf(),
        pos.0 < v.dims.0,
        pos.1 < v.dims.1,
    ensures
        v.tile_at(pos) is Some,
        apply_tile_states(v, chgs).tile_at(pos) is Some,
        apply_tile_states(v, chgs).tile_at(pos)->Some_0.data == v.tile_at(pos)->Some_0.data,
        apply_tile_states(v, chgs).tile_at(pos)->Some_0.last_update == v.tile_at(pos)->Some_0.last_update,
        (forall|k: int| 0 <= k < chgs.len() ==> state_pos(#[trigger] chgs[k]) != pos) ==> apply_tile_states(
            v,
            chgs,
        ).tile_at(pos)->Some_0.live == v.tile_at(pos)->Some_0.live,
        forall|k: int|
            0 <= k < chgs.len() && state_pos(#[trigger] chgs[k]) == pos && (forall|j: int|
                k < j < chgs.len() ==> state_pos(chgs[j]) != pos) ==> apply_tile_states(v, chgs).tile_at(
                pos,
            )->Some_0.live == chgs[k].live,
    decreases chgs.len(),
{
    crate::world::lemma_liveness_read_after_write(v, pos, true, pos);
    lemma_apply_keeps_shape(v, chgs);
    if chgs.len() > 0 {
        let pre = chgs.drop_last();
        let c = chgs.last();
        let u = apply_tile_states(v, pre);
        lemma_apply_tile_states_result(v, pre, pos);
        lemma_apply_keeps_shape(v, pre);
        crate::world::lemma_liveness_read_after_write(u, state_pos(c), c.live, pos);
        if state_pos(c) == pos {
            crate::world::lemma_liveness_read_after_write(u, pos, c.live, pos);
        } else {
            assert forall|k: int| 0 <= k < chgs.len() && state_pos(#[trigger] chgs[k]) == pos && (forall|j: int|
                k < j < chgs.len() ==> state_pos(chgs[j]) != pos) implies apply_tile_states(v, chgs).tile_at(
                pos,
            )->Some_0.live == chgs[k].live by {
                assert(k < chgs.len() - 1);
                assert(pre[k] == chgs[k]);
                assert forall|j: int| k < j < pre.len() implies state_pos(pre[j]) != pos by {
                    assert(pre[j] == chgs[j]);
                }
            }
            if forall|k: int| 0 <= k < chgs.len() ==> state_pos(#[trigger] chgs[k]) != pos {
                assert forall|k: int| 0 <= k < pre.len() implies state_pos(#[trigger] pre[k]) != pos by {
                    assert(pre[k] == chgs[k]);
                }
            }
        }
    }
}

/// Makes an R-pentomino with its corner at `pos`; tiles that fall off the
/// grid are skipped.
fn make_rpentomino(pos: (usize, usize), w: &mut World)
    requires
        pos.0 + 2 <= usize::MAX,
        pos.1 + 2 <= usize::MAX,
    ensures
        final(w)@ == make_live_at(old(w)@, pos, rpentomino_offsets()),
{
    let set: Vec<(usize, usize)> = vec![(1, 0), (2, 0), (0, 1), (1, 1), (1, 2)];
    assert(set@ == rpentomino_offsets());
    let mut k: usize = 0;
    while k < set.len()
        invariant
            set@ == rpentomino_offsets(),
            k <= set@.len(),
            pos.0 + 2 <= usize::MAX,
            pos.1 + 2 <= usize::MAX,
            w@ == make_live_at(old(w)@, pos, set@.take(k as int)),
        decreases set@.len() - k,
    {
        let p = set[k];
        w.set_tile_liveness((pos.0 + p.0, pos.1 + p.1), true);
        k = k + 1;
        assert(set@.take(k as int).drop_last() == set@.take(k - 1));
    }
    assert(set@.take(set@.len() as int) == set@);
}

/// A copy of `world` after each of `chgs`, in order, has set the liveness of
/// its tile.
pub fn apply_changes_to_world(world: &World, chgs: Vec<TileState>) -> (r: World)
    ensures
        r@ == apply_tile_states(world@, chgs@),
{
    let mut nw = world.clone();
    let n = chgs.len();
    let mut i: usize = 0;
    while i < n
        invariant
            n == chgs@.len(),
            i <= n,
            nw@ == apply_tile_states(world@, chgs@.take(i as int)),
        decreases n - i,
    {
        let chg = chgs[i];
        nw.set_tile_liveness((chg.x, chg.y), chg.live);
        i = i + 1;
        assert(chgs@.take(i as int).drop_last() == chgs@.take(i - 1));
    }
    assert(chgs@.take(n as int) == chgs@);
    nw
}

const LABEL_LEN: usize = 16;

const LABEL_CHARS: &'static str = "1234567890abcdef";

const LABEL_PREFIX: &'static str = "conway-";

/// `s` has the shape of an invoice label: `conway-` and sixteen lower-case
/// hexadecimal digits.
pub open spec fn is_label(s: Seq<char>) -> bool {
    &&& s.len() == 23
    &&& s.subrange(0, 7) == "conway-"@
    &&& forall|i: int| 7 <= i < 23 ==> "1234567890abcdef"@.contains(#[trigger] s[i])
}

/// The label that sixteen random draws give: `conway-`, then for each draw
/// the hexadecimal digit it picks, the draw modulo 16 indexing
/// `1234567890abcdef`.
pub open spec fn label_text(draws: Seq<u32>) -> Seq<char> {
    "conway-"@ + Seq::new(16, |k: int| "1234567890abcdef"@[(draws[k] % 16) as int])
}

/// Every label that draws give has the shape of a label.
pub proof fn lemma_label_shape(draws: Seq<u32>)
    requires
        draws.len() == 16,
    ensures
        is_label(label_text(draws)),
{
    reveal_strlit("conway-");
    reveal_strlit("1234567890abcdef");
    let l = label_text(draws);
    assert(l.subrange(0, 7) =~= "conway-"@);
    assert forall|i: int| 7 <= i < 23 implies "1234567890abcdef"@.contains(#[trigger] l[i]) by {
        assert(l[i] == "1234567890abcdef"@[(draws[i - 7] % 16) as int]);
    }
}

/// Two sets of draws give the same label exactly when every pair of draws
/// picks the same digit: a label tells which digits were drawn.
pub proof fn lemma_label_determines_digits(a: Seq<u32>, b: Seq<u32>)
    requires
        a.len() == 16,
        b.len() == 16,
    ensures
        label_text(a) == label_text(b) <==> forall|k: int| 0 <= k < 16 ==> #[trigger] (a[k] % 16) == b[k]
            % 16,
{
    reveal_strlit("conway-");
    reveal_strlit("1234567890abcdef");
    let s = "1234567890abcdef"@;
    if label_text(a) == label_text(b) {
        assert forall|k: int| 0 <= k < 16 implies #[trigger] (a[k] % 16) == b[k] % 16 by {
            assert(label_text(a)[7 + k] == label_text(b)[7 + k]);
            assert(s[(a[k] % 16) as int] == s[(b[k] % 16) as int]);
        }
    }
    if forall|k: int| 0 <= k < 16 ==> #[trigger] (a[k] % 16) == b[k] % 16 {
        assert(label_text(a) =~= label_text(b));
    }
}

/// The invoice label that the sixteen `draws` give.
pub fn label_from_draws(draws: &Vec<u32>) -> (r: String)
    requires
        draws@.len() == 16,
    ensures
        r@ == label_text(draws@),
{
    proof {
        reveal_strlit("conway-");
        reveal_strlit("1234567890abcdef");
    }
    let tmp = LABEL_CHARS;
    let n = tmp.unicode_len();
    let mut buf = String::new();
    buf.append(LABEL_PREFIX);
    let mut k: usize = 0;
    while k < LABEL_LEN
        invariant
            tmp@ == "1234567890abcdef"@,
            n == 16,
            draws@.len() == 16,
            k <= LABEL_LEN,
            buf@ == label_text(draws@).take(7 + k),
        decreases LABEL_LEN - k,
    {
        proof {
            reveal_strlit("conway-");
            reveal_strlit("1234567890abcdef");
        }
        let idx = (draws[k] as usize) % n;
        let c = tmp.substring_char(idx, idx + 1);
        buf.append(c);
        k = k + 1;
        assert(buf@ =~= label_text(draws@).take(7 + k));
    }
    assert(label_text(draws@).take(23) =~= label_text(draws@));
    buf
}

/// The random source could not be read.
struct RandomSourceError;

/// Sixteen numbers from 64 bytes, four bytes each, least significant first.
fn draws_from_bytes(bytes: &Vec<u8>) -> (r: Vec<u32>)
    requires
        bytes@.len() == 64,
    ensures
        r@.len() == 16,
        forall|k: int|
            0 <= k < 16 ==> #[trigger] r@[k] == bytes@[4 * k] + 256 * bytes@[4 * k + 1] + 65536
                * bytes@[4 * k + 2] + 16777216 * bytes@[4 * k + 3],
{
    let mut out: Vec<u32> = Vec::new();
    let mut k: usize = 0;
    while k < 16
        invariant
            bytes@.len() == 64,
            k <= 16,
            out@.len() == k,
            forall|j: int|
                0 <= j < k ==> #[trigger] out@[j] == bytes@[4 * j] + 256 * bytes@[4 * j + 1] + 65536
                    * bytes@[4 * j + 2] + 16777216 * bytes@[4 * j + 3],
        decreases 16 - k,
    {
        let b0 = bytes[4 * k] as u32;
        let b1 = bytes[4 * k + 1] as u32;
        let b2 = bytes[4 * k + 2] as u32;
        let b3 = bytes[4 * k + 3] as u32;
        out.push(b0 + 256 * b1 + 65536 * b2 + 16777216 * b3);
        k = k + 1;
    }
    out
}

/// A fresh invoice label from sixteen random draws, or an error where the
/// operating system gives no randomness.
fn random_label() -> (r: Result<String, RandomSourceError>)
    ensures
        r matches Ok(l) ==> exists|d: Seq<u32>| d.len() == 16 && l@ == #[trigger] label_text(d),
{
    match os_random_bytes(64) {
        Ok(bytes) => {
            let draws = draws_from_bytes(&bytes);
            let l = label_from_draws(&draws);
            assert(draws@.len() == 16 && l@ == label_text(draws@));
            Ok(l)
        },
        Err(_) => Err(RandomSourceError),
    }
}

/// The description of the invoice for `cnt` tiles under `label`.
pub open spec fn invoice_description(cnt: nat, label: Seq<char>) -> Seq<char> {
    "payment to set liveness of "@ + decimal(cnt) + " tiles (update label: "@ + label + ")"@
}

/// Adds `e` to the pending updates, in place of one with the same label.
fn insert_pending(p: &mut Vec<PendingUpdate>, e: PendingUpdate)
    requires
        labels_unique(old(p)@),
    ensures
        labels_unique(final(p)@),
        pending_map(final(p)@) == pending_map(old(p)@).insert(e.label@, (e.session, e.updates@)),
{
    let n = p.len();
    let mut i: usize = 0;
    while i < n
        invariant
            n == p@.len(),
            p@ == old(p)@,
            labels_unique(p@),
            i <= n,
            forall|j: int| 0 <= j < i ==> p@[j].label@ != e.label@,
        decreases n - i,
    {
        if p[i].label == e.label {
            proof {
                lemma_pending_replace(p@, i as int, e);
            }
            p.set(i, e);
            return;
        }
        i = i + 1;
    }
    proof {
        lemma_pending_absent(p@, e.label@);
        lemma_pending_push(p@, e);
    }
    p.push(e);
}

impl GameState {
    /// No two pending updates share a label.
    pub open spec fn wf(&self) -> bool {
        labels_unique(self.pending_updates@)
    }

    /// A game with no sessions and no pending updates, whose world is `w`
    /// with an R-pentomino at (64, 64).
    pub fn new(w: World) -> (g: GameState)
        ensures
            g.wf(),
            g@.world == make_live_at(w@, (64, 64), rpentomino_offsets()),
            g@.pending == Map::<Seq<char>, (u64, Seq<TileState>)>::empty(),
            g@.sessions == Map::<u64, Session>::empty(),
    {
        let mut w = w;
        make_rpentomino((64, 64), &mut w);
        let g = GameState { sessions: HashMap::new(), world: Arc::new(w), pending_updates: Vec::new() };
        assert(g@.pending =~= Map::<Seq<char>, (u64, Seq<TileState>)>::empty());
        g
    }
}

impl GameState {
    /// Files `stm`'s tiles under `label` for session `sid` and prepares the
    /// invoice for them, at ten satoshis a tile.
    pub fn submit_tiles(&mut self, sid: u64, stm: SubmitTilesMessage, label: String) -> (r: (
        NetMessage,
        InvoiceRequest,
    ))
        requires
            old(self).wf(),
            stm.updates@.len() * 10 <= i64::MAX,
        ensures
            final(self).wf(),
            final(self)@ == submit_view(old(self)@, sid, stm.updates@, label@),
            final(self).world == old(self).world,
            final(self).sessions == old(self).sessions,
            is_log(r.0, "creating invoice..."@),
            r.1.dest == sid,
            r.1.sat == stm.updates@.len() * 10,
            r.1.label@ == label@,
            r.1.desc@ == invoice_description(stm.updates@.len(), label@),
    {
        proof {
            reveal_strlit("payment to set liveness of ");
            reveal_strlit(" tiles (update label: ");
            reveal_strlit(")");
        }
        insert_pending(
            &mut self.pending_updates,
            PendingUpdate { label: label.clone(), session: sid, updates: stm.updates.clone() },
        );
        let cnt = stm.updates.len();
        let mut desc = String::new();
        desc.append("payment to set liveness of ");
        desc.append(decimal_string(cnt).as_str());
        desc.append(" tiles (update label: ");
        desc.append(label.as_str());
        desc.append(")");
        assert(desc@ =~= invoice_description(cnt as nat, label@));
        let ir = InvoiceRequest::new(sid, cnt as i64 * 10, label, desc);
        (NetMessage::new_log_msg("creating invoice..."), ir)
    }
}

/// The message for the `i`-th cell of `cur`: its position and its state.
pub open spec fn cell_update(cur: WorldView, i: int) -> UpdateCellsMessage {
    UpdateCellsMessage {
        pos: ((i % (cur.dims.0 as int)) as usize, (i / (cur.dims.0 as int)) as usize),
        state: cur.cells[i],
    }
}

/// Messages for the cells among the first `n` that differ between `prev`
/// and `cur` (liveness or colour), in index order.
pub open spec fn cell_diffs_upto(prev: WorldView, cur: WorldView, n: nat) -> Seq<UpdateCellsMessage>
    decreases n,
{
    if n == 0 {
        Seq::empty()
    } else {
        let rest = cell_diffs_upto(prev, cur, (n - 1) as nat);
        if tiles_match(prev.cells[n - 1], cur.cells[n - 1]) {
            rest
        } else {
            rest.push(cell_update(cur, n - 1))
        }
    }
}

/// Messages for every cell that differs between `prev` and `cur`.
pub open spec fn cell_diffs_view(prev: WorldView, cur: WorldView) -> Seq<UpdateCellsMessage> {
    cell_diffs_upto(prev, cur, prev.cells.len())
}

/// The changes from `prev` to `current`, one message per tile whose
/// liveness or colour differs, in index order.
pub fn cell_diffs(prev: &World, current: &World) -> (r: Vec<UpdateCellsMessage>)
    requires
        prev@.dims == current@.dims,
    ensures
        r@ == cell_diffs_view(prev@, current@),
{
    let pc = prev.cells();
    let cc = current.cells();
    let dims = current.dims();
    let n = pc.len();
    let mut out: Vec<UpdateCellsMessage> = Vec::new();
    let mut i: usize = 0;
    while i < n
        invariant
            prev@.wf(),
            current@.wf(),
            prev@.dims == current@.dims,
            dims == current@.dims,
            pc@ == prev@.cells,
            cc@ == current@.cells,
            n == pc@.len(),
            i <= n,
            out@ == cell_diffs_upto(prev@, current@, i as nat),
        decreases n - i,
    {
        if pc[i] != cc[i] {
            let pos = index_to_cartesean(dims, i).unwrap();
            out.push(UpdateCellsMessage { pos: pos, state: cc[i] });
        }
        i = i + 1;
    }
    out
}

impl GameState {
    /// Runs the world one step and hands back the message that tells every
    /// player which tiles changed.
    pub fn step_world(&mut self) -> (m: NetMessage)
        requires
            old(self).wf(),
            old(self)@.world.tick < u64::MAX,
        ensures
            final(self).wf(),
            final(self)@ == game_step_view(old(self)@),
            final(self).pending_updates == old(self).pending_updates,
            final(self).sessions == old(self).sessions,
            m matches NetMessage::UpdateCells(d) && d@ == cell_diffs_view(
                old(self)@.world,
                final(self)@.world,
            ),
    {
        let next = self.world.step();
        let diffs = cell_diffs(&self.world, &next);
        self.world = Arc::new(next);
        NetMessage::UpdateCells(diffs)
    }
}

/// Answers a message from session `sid`: a log line is acknowledged, tiles
/// are filed under a fresh random label with an invoice request to send (or,
/// where no randomness can be had, refused with an alert and not filed), and
/// anything else is refused with an alert.
pub fn handle_message(sid: u64, msg: NetMessage, gs: &mut GameState) -> (r: (NetMessage, Option<InvoiceRequest>))
    requires
        old(gs).wf(),
        msg matches NetMessage::SubmitTiles(stm) ==> stm.updates@.len() * 10 <= i64::MAX,
    ensures
        final(gs).wf(),
        final(gs).world == old(gs).world,
        final(gs).sessions == old(gs).sessions,
        match msg {
            NetMessage::Log(_) => {
                &&& is_log(r.0, "ok"@)
                &&& r.1 is None
                &&& final(gs)@ == old(gs)@
            },
            NetMessage::SubmitTiles(stm) => match r.1 {
                Some(ir) => {
                    &&& is_log(r.0, "creating invoice..."@)
                    &&& exists|d: Seq<u32>| d.len() == 16 && ir.label@ == #[trigger] label_text(d)
                    &&& is_label(ir.label@)
                    &&& ir.dest == sid
                    &&& ir.sat == stm.updates@.len() * 10
                    &&& ir.desc@ == invoice_description(stm.updates@.len(), ir.label@)
                    &&& final(gs)@ == submit_view(old(gs)@, sid, stm.updates@, ir.label@)
                },
                None => {
                    &&& is_alert(r.0, "could not draw an invoice label, try again"@)
                    &&& final(gs)@ == old(gs)@
                },
            },
            _ => {
                &&& is_alert(r.0, "lol you can't send that, noob"@)
                &&& r.1 is None
                &&& final(gs)@ == old(gs)@
            },
        },
{
    match msg {
        NetMessage::Log(_m) => (NetMessage::new_log_msg("ok"), None),
        NetMessage::SubmitTiles(stm) => match random_label() {
            Ok(label) => {
                proof {
                    let d = choose|d: Seq<u32>| d.len() == 16 && label@ == #[trigger] label_text(d);
                    lemma_label_shape(d);
                }
                let (reply, ir) = gs.submit_tiles(sid, stm, label);
                (reply, Some(ir))
            },
            Err(_) => (NetMessage::new_alert_msg("could not draw an invoice label, try again"), None),
        },
        _ => (NetMessage::new_alert_msg("lol you can't send that, noob"), None),
    }
}

/// Tiles filed under a label wait under it, for the session that filed them,
/// and the world does not change until they are paid for. Paying for tiles
/// filed under a label that was not pending applies exactly those tiles, in
/// order, and leaves the pending updates as they were before the tiles were
/// filed; paying under that label again changes nothing.
pub proof fn lemma_submit_then_settle(g: GameStateView, sid: u64, ups: Seq<TileState>, l: Seq<char>)
    requires
        !g.pending.dom().contains(l),
    ensures
        submit_view(g, sid, ups, l).pending.dom().contains(l),
        submit_view(g, sid, ups, l).pending[l] == (sid, ups),
        submit_view(g, sid, ups, l).world == g.world,
        settle_view(submit_view(g, sid, ups, l), l) == (GameStateView {
            world: apply_tile_states(g.world, ups),
            ..g
        }),
        settle_view(settle_view(submit_view(g, sid, ups, l), l), l) == settle_view(
            submit_view(g, sid, ups, l),
            l,
        ),
{
    assert(g.pending.insert(l, (sid, ups)).remove(l) =~= g.pending);
}

/// A world compared with itself gives no changes.
pub proof fn lemma_no_diffs_without_change(v: WorldView, n: nat)
    ensures
        cell_diffs_upto(v, v, n).len() == 0,
    decreases n,
{
    if n > 0 {
        lemma_no_diffs_without_change(v, (n - 1) as nat);
    }
}

/// The changes list every tile among the first `n` whose liveness or colour
/// differs, with its new state at its position, and nothing else.
pub proof fn lemma_cell_diffs_exact(prev: WorldView, cur: WorldView, n: nat)
    requires
        n <= prev.cells.len(),
        prev.cells.len() == cur.cells.len(),
    ensures
        forall|i: int|
            0 <= i < n && !tiles_match(prev.cells[i], cur.cells[i]) ==> cell_diffs_upto(
                prev,
                cur,
                n,
            ).contains(#[trigger] cell_update(cur, i)),
        forall|k: int|
            0 <= k < cell_diffs_upto(prev, cur, n).len() ==> exists|i: int|
                0 <= i < n && !tiles_match(prev.cells[i], cur.cells[i]) && #[trigger] cell_diffs_upto(
                    prev,
                    cur,
                    n,
                )[k] == cell_update(cur, i),
    decreases n,
{
    if n > 0 {
        let m = (n - 1) as nat;
        lemma_cell_diffs_exact(prev, cur, m);
        let rest = cell_diffs_upto(prev, cur, m);
        let all = cell_diffs_upto(prev, cur, n);
        assert forall|i: int|
            0 <= i < n && !tiles_match(prev.cells[i], cur.cells[i]) implies all.contains(
            #[trigger] cell_update(cur, i)) by {
            if i < m {
                let k = choose|k: int| 0 <= k < rest.len() && rest[k] == cell_update(cur, i);
                assert(all[k] == rest[k]);
            } else {
                assert(all[all.len() - 1] == cell_update(cur, i));
            }
        }
        assert forall|k: int| 0 <= k < all.len() implies exists|i: int|
            0 <= i < n && !tiles_match(prev.cells[i], cur.cells[i]) && #[trigger] all[k] == cell_update(
                cur,
                i,
            ) by {
            if k < rest.len() {
                assert(all[k] == rest[k]);
                let i = choose|i: int|
                    0 <= i < m && !tiles_match(prev.cells[i], cur.cells[i]) && rest[k] == cell_update(
                        cur,
                        i,
                    );
                assert(0 <= i < n);
            } else {
                assert(all[k] == cell_update(cur, m as int));
            }
        }
    }
}

/// Running the game loop `k` times from a game `g` leaves the world `k`
/// steps on, with the sessions and pending updates untouched; the `j`-th run
/// reports exactly the tiles that differ between the worlds after `j - 1`
/// and after `j` steps. With the tick far enough from its limit, the world
/// keeps its size, one tile per position, and its tick advances by `k`.
pub proof fn lemma_game_loop(g: GameStateView, k: nat)
    ensures
        game_steps_view(g, k) == (GameStateView { world: steps_view(g.world, k), ..g }),
        forall|j: nat|
            1 <= j <= k ==> cell_diffs_view(
                #[trigger] game_steps_view(g, (j - 1) as nat).world,
                game_step_view(game_steps_view(g, (j - 1) as nat)).world,
            ) == cell_diffs_view(steps_view(g.world, (j - 1) as nat), steps_view(g.world, j)),
        g.world.wf() && g.world.tick + k <= u64::MAX ==> {
            &&& game_steps_view(g, k).world.wf()
            &&& game_steps_view(g, k).world.dims == g.world.dims
            &&& game_steps_view(g, k).world.tick == g.world.tick + k
        },
    decreases k,
{
    if k > 0 {
        lemma_game_loop(g, (k - 1) as nat);
        assert forall|j: nat|
            1 <= j <= k implies cell_diffs_view(
            #[trigger] game_steps_view(g, (j - 1) as nat).world,
            game_step_view(game_steps_view(g, (j - 1) as nat)).world,
        ) == cell_diffs_view(steps_view(g.world, (j - 1) as nat), steps_view(g.world, j)) by {
            lemma_game_loop(g, (j - 1) as nat);
        }
    }
    if g.world.tick + k <= u64::MAX {
        lemma_steps_keep_shape(g.world, k);
    }
}

} // verus!
