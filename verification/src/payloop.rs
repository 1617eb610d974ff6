use std::sync::Arc;

use vstd::prelude::*;

use crate::gameloop::{
    apply_changes_to_world, has_label, lemma_pending_lookup, lemma_pending_remove, settle_view,
    GameState,
};
use crate::messages::NetMessage;

verus! {

impl GameState {
    /// Settles the invoice labelled `label`: where updates wait under it,
    /// they are applied to the world, dropped from the pending ones, and the
    /// session that asked for them is named with its notice. An unknown label
    /// changes nothing.
    pub fn settle_invoice(&mut self, label: &String) -> (r: Option<(u64, NetMessage)>)
        requires
            old(self).wf(),
        ensures
            final(self).wf(),
            final(self).sessions == old(self).sessions,
            final(self)@ == settle_view(old(self)@, label@),
            if old(self)@.pending.dom().contains(label@) {
                r matches Some((s, NetMessage::InvoicePaid(l))) && s == old(self)@.pending[label@].0 && l@
                    == label@
            } else {
                r is None
            },
    {
        let n = self.pending_updates.len();
        let mut i: usize = 0;
        while i < n
            invariant
                n == self.pending_updates@.len(),
                old(self).wf(),
                self.pending_updates == old(self).pending_updates,
                self.world == old(self).world,
                self.sessions == old(self).sessions,
                i <= n,
                forall|j: int| 0 <= j < i ==> self.pending_updates@[j].label@ != label@,
            decreases n - i,
        {
            if self.pending_updates[i].label == *label {
                proof {
                    lemma_pending_lookup(self.pending_updates@, i as int);
                    lemma_pending_remove(self.pending_updates@, i as int);
                }
                let entry = self.pending_updates.remove(i);
                let nw = apply_changes_to_world(&self.world, entry.updates);
                self.world = Arc::new(nw);
                let nm = NetMessage::InvoicePaid(label.clone());
                return Some((entry.session, nm));
            }
            i = i + 1;
        }
        proof {
            assert forall|j: int| !has_label(self.pending_updates@, label@, j) by {}
        }
        None
    }
}

} // verus!
