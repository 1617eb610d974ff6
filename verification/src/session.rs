use tokio_channel::mpsc::{Receiver, UnboundedSender};
use vstd::prelude::*;
use vstd::std_specs::cmp::PartialEqSpecImpl;

use crate::messages::NetMessage;

verus! {

#[verifier::external_type_specification]
#[verifier::external_body]
#[verifier::reject_recursive_types(T)]
pub struct ExUnboundedSender<T>(UnboundedSender<T>);

#[verifier::external_type_specification]
#[verifier::external_body]
#[verifier::reject_recursive_types(T)]
pub struct ExReceiver<T>(Receiver<T>);

/// `tokio_channel::mpsc::unbounded` opens a new channel and hands back its
/// sending and receiving halves. Nothing is claimed of them: they are opaque.
pub assume_specification<T>[ tokio_channel::mpsc::unbounded::<T> ]() -> (r: (
    UnboundedSender<T>,
    Receiver<T>,
));

/// `UnboundedSender::clone` hands back another sending half of the same
/// channel. Nothing is claimed of it: it is opaque.
pub assume_specification<T>[ <UnboundedSender<T> as Clone>::clone ](
    s: &UnboundedSender<T>,
) -> (r: UnboundedSender<T>);

/// Calls `UnboundedSender::unbounded_send`, which queues `msg` for the
/// receiving half, or hands it back in an error where that half is gone; the
/// error is dropped here. Nothing is claimed: whether the message was queued
/// depends on the other half. The call panics only when the channel already
/// holds its maximum number of messages, which this contract does not exclude.
#[verifier::external_body]
fn send_unbounded<T>(queue: &UnboundedSender<T>, msg: T) {
    let _ = queue.unbounded_send(msg);
}

/// What a user holds: its number, its token and where its camera is.
pub struct UserView {
    pub id: u32,
    pub token: Seq<char>,
    pub camera_pos: Option<(i32, i32)>,
}

/// A player account.
#[derive(Clone, Debug, Hash)]
pub struct User {
    id: u32,
    token: String,
    camera_pos: Option<(i32, i32)>,
}

impl View for User {
    type V = UserView;

    closed spec fn view(&self) -> UserView {
        UserView { id: self.id, token: self.token@, camera_pos: self.camera_pos }
    }
}

impl User {
    /// A user with no camera position yet.
    pub fn new(id: u32, token: &str) -> (u: User)
        ensures
            u@ == (UserView { id, token: token@, camera_pos: None }),
    {
        User { id: id, token: String::from_str(token), camera_pos: None }
    }

    pub fn set_pos(&mut self, pos: (i32, i32))
        ensures
            final(self)@ == (UserView { camera_pos: Some(pos), ..old(self)@ }),
    {
        self.camera_pos = Some(pos)
    }

    pub fn clear_pos(&mut self)
        ensures
            final(self)@ == (UserView { camera_pos: None, ..old(self)@ }),
    {
        self.camera_pos = None
    }

    pub fn pos(&self) -> (r: Option<(i32, i32)>)
        ensures
            r == self@.camera_pos,
    {
        self.camera_pos
    }
}

/// A connected player: its session number and the queue of messages that
/// go out to it.
#[derive(Clone)]
pub struct Session {
    id: u64,
    outqueue: UnboundedSender<NetMessage>,
}

impl PartialEq for Session {
    fn eq(&self, o: &Self) -> (r: bool) {
        self.id == o.id
    }
}

impl PartialEqSpecImpl for Session {
    open spec fn obeys_eq_spec() -> bool {
        true
    }

    open spec fn eq_spec(&self, other: &Session) -> bool {
        self.spec_id() == other.spec_id()
    }
}

impl Session {
    pub closed spec fn spec_id(&self) -> u64 {
        self.id
    }

    /// A session numbered `id`, and the receiving end of its outgoing queue.
    pub fn new(id: u64) -> (r: (Session, Receiver<NetMessage>))
        ensures
            r.0.spec_id() == id,
    {
        let (s, r) = tokio_channel::mpsc::unbounded();
        let session = Session { id: id, outqueue: s };
        (session, r)
    }

    /// Queues `m` to be sent to the player.
    pub fn queue_message(&self, m: NetMessage) {
        send_unbounded(&self.outqueue, m);
    }

    pub fn id(&self) -> (r: u64)
        ensures
            r == self.spec_id(),
    {
        self.id
    }
}

} // verus!
