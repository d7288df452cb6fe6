use crate::container::error::WmError;
use crate::container::laws::law_set_focused_descendant_gives_focus;
use crate::container::model::{reaches, spec_has_focus, spec_set_focused_descendant};
use crate::container::tree::ContainerTree;
use crate::pending_sync::{PendingSync, PendingSyncView};
use vstd::prelude::*;

verus! {

/// The first container (by handle) in the tree under `root` (or `root`
/// itself) with identifier `id`.
pub open spec fn container_with_id(v: Seq<crate::container::model::NodeView>, root: int, id: u128) -> Option<int> {
    if exists|h: int| 0 <= h < v.len() && v[h].id == id && reaches(v, h, root) {
        Some(
            choose|h: int|
                0 <= h < v.len() && v[h].id == id && reaches(v, h, root) && forall|j: int|
                    0 <= j < h ==> !(v[j].id == id && reaches(v, j, root)),
        )
    } else {
        None
    }
}

impl ContainerTree {
    /// The container in the tree under `root` (or `root` itself) with the
    /// given identifier; the first by handle, should two share it.
    pub fn container_by_id(&self, root: usize, id: u128) -> (r: Option<usize>)
        requires
            self.wf(),
            root < self@.len(),
        ensures
            match r {
                Some(h) => container_with_id(self@, root as int, id) == Some(h as int) && h
                    < self@.len(),
                None => container_with_id(self@, root as int, id) is None,
            },
    {
        let ghost v = self@;
        let len = self.len();
        let mut h: usize = 0;
        while h < len
            invariant
                self.wf(),
                v == self@,
                len == v.len(),
                root < len,
                h <= len,
                forall|j: int| 0 <= j < h ==> !(v[j].id == id && reaches(v, j, root as int)),
            decreases len - h,
        {
            if self.id(h) == id && self.is_ancestor_or_self(root, h) {
                proof {
                    let k = h as int;
                    let c = choose|c: int|
                        0 <= c < v.len() && v[c].id == id && reaches(v, c, root as int) && forall|
                            j: int,
                        | 0 <= j < c ==> !(v[j].id == id && reaches(v, j, root as int));
                    assert(c == k) by {
                        if c > k {
                            assert(!(v[k].id == id && reaches(v, k, root as int)));
                        }
                    }
                }
                return Some(h);
            }
            h = h + 1;
        }
        None
    }

    /// Focuses the container with the given identifier: it becomes the
    /// focused descendant of each of its ancestors (so that it has focus),
    /// and a focus change and a cursor jump are queued.
    ///
    /// Fails, changing nothing, where no container under `root` has the
    /// identifier.
    pub fn focus_container_by_id(
        &mut self,
        root: usize,
        container_id: u128,
        pending_sync: &mut PendingSync,
    ) -> (r: Result<(), WmError>)
        requires
            old(self).wf(),
            root < old(self)@.len(),
        ensures
            final(self).wf(),
            match container_with_id(old(self)@, root as int, container_id) {
                Some(h) => r == Ok::<(), WmError>(()) && final(self)@ == spec_set_focused_descendant(
                    old(self)@,
                    h,
                    None,
                ) && spec_has_focus(final(self)@, h, None) && final(pending_sync)@ == (PendingSyncView {
                    needs_focus_update: true,
                    needs_cursor_jump: true,
                    ..old(pending_sync)@
                }),
                None => r == Err::<(), WmError>(WmError::NoContainerWithId) && final(self)@ == old(
                    self,
                )@ && *final(pending_sync) == *old(pending_sync),
            },
    {
        let focus_target = match self.container_by_id(root, container_id) {
            Some(h) => h,
            None => {
                return Err(WmError::NoContainerWithId);
            },
        };
        proof {
            self.lemma_wf();
            law_set_focused_descendant_gives_focus(self@, focus_target as int, None);
        }
        // Set focus to the target container.
        self.set_focused_descendant(focus_target, None);
        pending_sync.queue_focus_change().queue_cursor_jump();
        Ok(())
    }
}

} // verus!
