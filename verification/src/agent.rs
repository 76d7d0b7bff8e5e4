//! The change-notification agent: a stateless component attached at points
//! in the tree where collision-affecting changes happen outside the normal
//! initialization pass. On demand it produces a single change event
//! carrying the node whose subtree changed; the host's event transport
//! delivers it to the cache's handler.

use vstd::prelude::*;

use crate::path::NodePath;

verus! {

/// A typed event emitter with no internal state.
pub struct FloorAgent;

impl FloorAgent {
    pub fn new() -> (a: FloorAgent) {
        FloorAgent
    }

    /// The payload of one change notification: the explicitly supplied
    /// target if there is one, otherwise the agent's structural parent.
    /// An agent at the root with no explicit target has no parent to name.
    pub fn notify(&self, agent_path: &NodePath, target: Option<NodePath>) -> (r: NodePath)
        requires
            target is Some || agent_path@.len() > 0,
        ensures
            target matches Some(t) ==> r@ == t@,
            target is None ==> r@ == agent_path@.drop_last(),
    {
        match target {
            Some(t) => t,
            None => {
                let p = agent_path.parent();
                p.unwrap()
            },
        }
    }

    /// The fixed type label external code uses for manual discrimination.
    pub fn get_class(&self) -> (r: &'static str)
        ensures
            r@ == "FloorAgent"@,
    {
        "FloorAgent"
    }
}

} // verus!
