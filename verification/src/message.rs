//! Where a cross-module message came from and where one is sent: the plain
//! decision vocabulary of the messaging layer. Transport itself is an
//! external collaborator's concern.

use vstd::prelude::*;

use crate::codec::EntityId;

verus! {

/// Where a message came from.
pub enum Source {
    /// The runtime itself.
    Runtime,
    /// The corresponding serverside module.
    Server,
    /// The corresponding clientside module, sent by this user.
    Client { user_id: String },
    /// Another module on this side.
    Local(EntityId),
}

impl Source {
    /// Is this message from the runtime?
    pub fn runtime(self) -> (r: bool)
        ensures
            r == (self is Runtime),
    {
        matches!(self, Source::Runtime)
    }

    /// The user that sent this message, if any.
    pub fn client_user_id(self) -> (r: Option<String>)
        ensures
            (r is Some) <==> (self is Client),
            self matches Source::Client { user_id } ==> (r matches Some(u) && u == user_id),
    {
        if let Source::Client { user_id } = self {
            Some(user_id)
        } else {
            None
        }
    }

    /// The module on this side that sent this message, if any.
    pub fn local(self) -> (r: Option<EntityId>)
        ensures
            (r is Some) <==> (self is Local),
            self matches Source::Local(id) ==> r == Some(id),
    {
        match self {
            Source::Local(id) => Some(id),
            _ => None,
        }
    }

    /// Reconstructs a source from what an incoming message's envelope
    /// carries, in the order the flags are checked: the runtime flag first,
    /// then a local module, then the server flag, then a client user.
    /// `None` when the envelope names no source at all.
    pub fn from_parts(
        from_runtime: bool,
        local: Option<EntityId>,
        from_server: bool,
        client_user_id: Option<String>,
    ) -> (r: Option<Source>)
        ensures
            from_runtime ==> r == Some(Source::Runtime),
            (!from_runtime && local is Some) ==> r == Some(Source::Local(local->0)),
            (!from_runtime && local is None && from_server) ==> r == Some(Source::Server),
            (!from_runtime && local is None && !from_server) ==> match client_user_id {
                Some(u) => r == Some(Source::Client { user_id: u }),
                None => r is None,
            },
    {
        if from_runtime {
            return Some(Source::Runtime);
        }
        if let Some(module) = local {
            return Some(Source::Local(module));
        }
        if from_server {
            return Some(Source::Server);
        }
        if let Some(user_id) = client_user_id {
            return Some(Source::Client { user_id });
        }
        None
    }
}

/// The target of an outgoing message.
pub enum Target {
    /// Every other module on this side.
    LocalBroadcast,
    /// One module on this side.
    Local(EntityId),
    /// The server, without delivery guarantee.
    ServerUnreliable,
    /// The server, with delivery guaranteed.
    ServerReliable,
    /// Every client, without delivery guarantee.
    ClientBroadcastUnreliable,
    /// Every client, with delivery guaranteed.
    ClientBroadcastReliable,
    /// One client's modules, without delivery guarantee.
    ClientTargetedUnreliable(String),
    /// One client's modules, with delivery guaranteed.
    ClientTargetedReliable(String),
}

impl Target {
    /// Is this target on this side of the network?
    pub fn is_local(&self) -> (r: bool)
        ensures
            r == (*self is LocalBroadcast || *self is Local),
    {
        matches!(self, Target::LocalBroadcast | Target::Local(_))
    }
}

} // verus!
