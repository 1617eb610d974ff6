//! The game-of-life simulation behind "Game of Light" and the logic of its
//! pay-per-tile game server.

pub mod gameloop;
pub mod invoiceloop;
pub mod messages;
pub mod payloop;
pub mod session;
pub mod sim;
pub mod statefile;
pub mod world;

pub use gameloop::{
    apply_changes_to_world, cell_diffs, handle_message, label_from_draws, EditWindow, GameState, PendingUpdate,
};
pub use invoiceloop::{invoice_msatoshi, invoice_notice, InvoiceRequest};
pub use messages::{NetMessage, NewWorldStateMessage, SubmitTilesMessage, TileState, UpdateCellsMessage};
pub use session::{Session, User};
pub use sim::{MsgRunForTicks, MsgSetTileState, WorldResponse, WorldSim};
pub use statefile::{file_to_world, StateFileError};
pub use world::{cartesean_to_index, index_to_cartesean, Tile, World};
