//! Whose turn it is among the subscribed clients.

use vstd::prelude::*;
use crate::node::NodeId;

verus! {

/// The subscribed clients, in order, and the index of the one playing.
pub struct TurnHandler {
    nodes: Vec<NodeId>,
    current_turn: usize,
}

impl TurnHandler {
    pub closed spec fn players(&self) -> Seq<NodeId> {
        self.nodes@
    }

    pub closed spec fn turn(&self) -> nat {
        self.current_turn as nat
    }

    /// The turn points at a player, or nobody plays.
    pub open spec fn wf(&self) -> bool {
        self.turn() < self.players().len() || (self.players().len() == 0 && self.turn() == 0)
    }

    pub fn new() -> (r: Self)
        ensures
            r.wf(),
            r.players() == Seq::<NodeId>::empty(),
            r.turn() == 0,
    {
        TurnHandler { nodes: Vec::new(), current_turn: 0 }
    }

    /// The player whose turn it is.
    pub fn current_turn(&self) -> (r: NodeId)
        requires
            self.wf(),
            self.players().len() > 0,
        ensures
            r == self.players()[self.turn() as int],
    {
        self.nodes[self.current_turn]
    }

    /// Passes the turn to the next player, round the table.
    pub fn yield_turn(&mut self)
        requires
            old(self).wf(),
            old(self).players().len() > 0,
        ensures
            final(self).wf(),
            final(self).players() == old(self).players(),
            final(self).turn() == (old(self).turn() + 1) % old(self).players().len(),
    {
        let n = self.nodes.len();
        self.current_turn = (self.current_turn + 1) % n;
    }

    /// Adds a player at the end of the table.
    pub fn subscribe(&mut self, node: NodeId)
        requires
            old(self).wf(),
        ensures
            final(self).wf(),
            final(self).players() == old(self).players().push(node),
            final(self).turn() == old(self).turn(),
    {
        self.nodes.push(node);
    }

    /// Removes every seat of `node`; the turn goes back to the first player
    /// when it would point past the table.
    pub fn unsubscribe(&mut self, node: NodeId)
        requires
            old(self).wf(),
        ensures
            final(self).wf(),
            final(self).players() == old(self).players().filter(|x: NodeId| x != node),
            final(self).turn() == (if old(self).turn() < final(self).players().len() { old(self).turn() } else { 0 }),
    {
        let ghost all = self.nodes@;
        let mut kept: Vec<NodeId> = Vec::new();
        let mut i: usize = 0;
        while i < self.nodes.len()
            invariant
                all == self.nodes@,
                i <= all.len(),
                kept@ == all.subrange(0, i as int).filter(|x: NodeId| x != node),
            decreases all.len() - i,
        {
            if self.nodes[i] != node {
                kept.push(self.nodes[i]);
            }
            proof {
                reveal(Seq::filter);
                assert(all.subrange(0, i + 1).drop_last() =~= all.subrange(0, i as int));
            }
            i = i + 1;
        }
        proof {
            assert(all.subrange(0, i as int) =~= all);
        }
        self.nodes = kept;
        if self.current_turn >= self.nodes.len() {
            self.current_turn = 0;
        }
    }
}

} // verus!
