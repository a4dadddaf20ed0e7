use vstd::prelude::*;

verus! {

/// An event the broker broadcasts to the members of one room.
#[derive(Debug, Clone)]
pub enum BrokerMsg {
    /// A new member with this name has joined the room.
    Join(String),
    /// The member with this name has left the room.
    Left(String),
    /// A round has started; the payload tells this member its own view of it.
    Started(Start),
    /// A start was requested but the room is below the minimum player count.
    NotEnoughPlayers,
}

/// Returned to a client that successfully created or joined a room.
#[derive(Debug, Clone)]
pub struct Connected {
    pub room_id: String,
    pub players: Vec<String>,
}

/// The user-facing ways in which creating or joining a room can fail.
#[derive(Debug, Clone, PartialEq, Eq, Structural)]
pub enum JoinErr {
    NoSuchRoom,
    UsernameTaken,
    FailedToCreateRoom,
}

/// One member's view of a started round: its own assignment (absent exactly
/// for the spy) and the name of the member who acts first.
#[derive(Debug, Clone)]
pub struct Start {
    pub assignment: Option<Assignment>,
    pub first: String,
}

/// The location shared by all non-spy members, and this member's cover role.
#[derive(Debug, Clone)]
pub struct Assignment {
    pub location: String,
    pub role: String,
}

/// A request to enter a room: join the named room, or create a fresh one
/// when no room id is given.
#[derive(Debug, Clone)]
pub struct Join {
    pub room: Option<String>,
    pub name: String,
}

/// A command on an existing room; neither expects a direct reply.
#[derive(Debug, Clone)]
pub enum RoomMsg {
    Leave { room: String, name: String },
    Start { room: String },
}

/// One command in the broker's mailbox. A `Join` carries the channel handle
/// under which the new member's outbound channel is to be registered.
#[derive(Debug, Clone)]
pub enum ClientMsg {
    Join(Join, u64),
    Room(RoomMsg),
}

impl BrokerMsg {
    /// Whether this event announces that a member named `n` joined.
    pub open spec fn is_join(self, n: Seq<char>) -> bool {
        self matches BrokerMsg::Join(s) && s@ == n
    }

    /// Whether this event announces that a member named `n` left.
    pub open spec fn is_left(self, n: Seq<char>) -> bool {
        self matches BrokerMsg::Left(s) && s@ == n
    }

    /// Whether this event reports a started round whose first player is
    /// named `first`, carrying no assignment (the spy's view).
    pub open spec fn is_spy_start(self, first: Seq<char>) -> bool {
        self matches BrokerMsg::Started(st) && st.first@ == first && st.assignment is None
    }
}

} // verus!
