use std::sync::Arc;

use vstd::prelude::*;

use crate::gameloop::EditWindow;
use crate::world::{Tile, World};

verus! {

/// What the game server and its players send each other.
#[derive(Clone, Debug)]
pub enum NetMessage {
    Alert(String),
    Log(String),
    NewWorldState(NewWorldStateMessage),
    UpdateCells(Vec<UpdateCellsMessage>),
    RequestEditWindow,
    UpdateEditWindow(EditWindow),
    SubmitTiles(SubmitTilesMessage),
    /// An invoice: its label, then its payment request.
    Invoice(String, String),
    /// The label of an invoice that was paid.
    InvoicePaid(String),
}

/// The whole world, sent to a player who joins.
#[derive(Clone, Debug)]
pub struct NewWorldStateMessage {
    pub world: Arc<World>,
}

/// One tile that changed, and where.
#[derive(Clone, Copy, Debug)]
pub struct UpdateCellsMessage {
    pub pos: (usize, usize),
    pub state: Tile,
}

/// Tiles a player wants to set, paid for by invoice.
#[derive(Clone, Debug)]
pub struct SubmitTilesMessage {
    pub updates: Vec<TileState>,
}

/// The liveness a player asks for at one position.
#[derive(Copy, Clone, Debug)]
pub struct TileState {
    pub x: usize,
    pub y: usize,
    pub live: bool,
}

/// `m` is an alert that reads `txt`.
pub open spec fn is_alert(m: NetMessage, txt: Seq<char>) -> bool {
    m matches NetMessage::Alert(t) && t@ == txt
}

/// `m` is a log line that reads `txt`.
pub open spec fn is_log(m: NetMessage, txt: Seq<char>) -> bool {
    m matches NetMessage::Log(t) && t@ == txt
}

impl NetMessage {
    pub fn new_alert_msg(txt: &str) -> (m: NetMessage)
        ensures
            is_alert(m, txt@),
    {
        NetMessage::Alert(String::from_str(txt))
    }

    pub fn new_log_msg(txt: &str) -> (m: NetMessage)
        ensures
            is_log(m, txt@),
    {
        NetMessage::Log(String::from_str(txt))
    }

    pub fn new_world_state_message(w: Arc<World>) -> (m: NetMessage)
        ensures
            m == NetMessage::NewWorldState(NewWorldStateMessage { world: w }),
    {
        NetMessage::NewWorldState(NewWorldStateMessage { world: w })
    }
}

} // verus!
