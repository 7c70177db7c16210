use vstd::prelude::*;

verus! {

/// Why a connected-peers check cannot be answered.
#[derive(Clone, Copy, Debug, PartialEq, Eq, Structural)]
pub enum CheckConnectedPeersError {
    /// The node runner was dropped; no check can be made.
    NodeRunnerDropped,
}

/// Why a circuit relay client request fails.
#[derive(Clone, Copy, Debug, PartialEq, Eq, Structural)]
pub enum CircuitRelayClientError {
    /// The node was expected to be a circuit relay server, yet it is
    /// only a client.
    ExpectedServer,
    /// The memory address could not be retrieved; the networking side
    /// was torn down.
    FailedToRetrieveMemoryAddress,
}

/// The node's peer-data synchronization flag. The embedding shares one
/// handler between tasks; here the flag is the handler's own state, and
/// each operation says exactly what it reads or writes.
#[derive(Clone, Copy, Debug, PartialEq, Eq, Structural)]
pub struct NodeSynchronizationStatusHandler {
    pub syncing: bool,
}

impl NodeSynchronizationStatusHandler {
    /// A fresh handler: not synchronizing.
    pub fn new() -> (r: NodeSynchronizationStatusHandler)
        ensures
            !r.syncing,
    {
        NodeSynchronizationStatusHandler { syncing: false }
    }

    /// Sets the sync status.
    pub fn toggle_on(&mut self)
        ensures
            final(self).syncing,
    {
        self.syncing = true;
    }

    /// Unsets the sync status.
    pub fn toggle_off(&mut self)
        ensures
            !final(self).syncing,
    {
        self.syncing = false;
    }

    /// The current node synchronization status.
    pub fn status(&self) -> (r: bool)
        ensures
            r == self.syncing,
    {
        self.syncing
    }
}

/// The network node facade. Its request methods are channel plumbing
/// around the swarm and live with the embedding; what remains here is
/// the synchronization status it owns.
pub struct Node {
    pub sync_status: NodeSynchronizationStatusHandler,
}

impl Node {
    pub fn new() -> (r: Node)
        ensures
            !r.sync_status.syncing,
    {
        Node { sync_status: NodeSynchronizationStatusHandler::new() }
    }

    /// The node's synchronization status handler.
    pub fn sync_status_handler(&self) -> (r: NodeSynchronizationStatusHandler)
        ensures
            r == self.sync_status,
    {
        self.sync_status
    }
}

} // verus!
