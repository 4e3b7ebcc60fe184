//! The messages exchanged with clients, and the kinds of change that a
//! reconciliation pass reports.
use vstd::prelude::*;

verus! {

/// A message from a client. Both kinds are accepted and need no action.
#[derive(Debug, Clone, Copy, PartialEq, Eq)]
pub enum ClientMessage {
    Ping,
    RequestRefresh,
}

/// A change notification sent to every connected client.
#[derive(Debug, Clone, PartialEq, Eq)]
pub enum ServerMessage {
    /// Fetch the whole state again.
    Reload,
    /// Reply to a keepalive.
    Pong,
    /// A new document is tracked.
    FileAdded { name: String },
    /// A tracked document changed its key.
    FileRenamed { old_name: String, new_name: String },
    /// A tracked document is gone.
    FileRemoved { name: String },
}

/// One entry of the list of tracked documents handed to clients.
#[derive(Debug, Clone)]
pub struct ApiFile {
    path: String,
}

impl ApiFile {
    pub closed spec fn spec_path(&self) -> Seq<char> {
        self.path@
    }

    pub fn new(path: String) -> (r: ApiFile)
        ensures
            r.spec_path() == path@,
    {
        ApiFile { path }
    }

    pub fn path(&self) -> (r: &String)
        ensures
            r@ == self.spec_path(),
    {
        &self.path
    }
}

/// What a reconciliation pass found, before it becomes a message.
#[derive(Debug, Clone, PartialEq, Eq)]
pub enum FileChangeType {
    Renamed { old_name: String, new_name: String },
    Removed { name: String },
    Other,
}

/// The message that announces `change`.
pub open spec fn message_for(change: FileChangeType, msg: ServerMessage) -> bool {
    match change {
        FileChangeType::Renamed { old_name, new_name } => match msg {
            ServerMessage::FileRenamed { old_name: o, new_name: n } => o@ == old_name@ && n@
                == new_name@,
            _ => false,
        },
        FileChangeType::Removed { name } => match msg {
            ServerMessage::FileRemoved { name: n } => n@ == name@,
            _ => false,
        },
        FileChangeType::Other => msg is Reload,
    }
}

/// The message that announces `change_type`: a rename or a removal is named,
/// anything else asks clients to reload.
pub fn change_message(change_type: FileChangeType) -> (r: ServerMessage)
    ensures
        message_for(change_type, r),
{
    match change_type {
        FileChangeType::Renamed { old_name, new_name } => ServerMessage::FileRenamed {
            old_name,
            new_name,
        },
        FileChangeType::Removed { name } => ServerMessage::FileRemoved { name },
        FileChangeType::Other => ServerMessage::Reload,
    }
}

} // verus!
