use std::collections::VecDeque;
use vstd::prelude::*;

use crate::container::error::WmError;
use crate::container::laws::law_set_focused_descendant_gives_focus;
use crate::container::model::{
    ancestor, attach_ranks, detach_fails, is_split_kind, lca_depth, lemma_ancestor_none,
    lemma_ancestor_step, lemma_attach_wf, lemma_child_facts, lemma_flatten_wf, lemma_parent_facts,
    lemma_reaches_unfold, lemma_remove_child_wf, lemma_wrap_wf, links_ok, min_first_pos,
    parent_is_sole_split, parent_of, ranked, reaches, spec_attach, spec_detach, spec_flatten,
    spec_lca, spec_remove_child, spec_wrap, tree_wf, with_children, with_focus, with_parent,
    wrap_allowed, wrap_ranks, ContainerKind, NodeView, focus_path_upto, lemma_focus_path_complete,
    lemma_focus_change_wf, lemma_ancestor_distinct, lemma_ancestor_rank, spec_set_focused_descendant,
    spec_has_focus, on_focus_path, lemma_ancestor_in_range_tree, is_end, before_end, first_in_parent,
    tiling_only, flatten_each, spec_flatten_child_splits, lemma_tiling_only,
    lemma_children_reorder_wf, is_tiling_kind, is_direction_kind,
    is_child_toward, child_toward, first_ancestors,
    spec_shift_focus, spec_shift_child, spec_move_to_lca, spec_move_container_within_tree,
    flatten_under_each_rev, lemma_reaches_rank, lemma_reaches_fewer_parents, lemma_detach_parents,
    lemma_lca_self, lemma_no_child_toward_self, lemma_child_toward, focus_index_in_parent,
    spec_move_across, spec_relocate,
};
use crate::vec_deque_ext::{
    lemma_shift_contains, lemma_shift_front, lemma_shift_no_dup, spec_shift_to_index, VecDequeExt,
};
use crate::ids::new_container_id;
use crate::seq_util::{
    copy_deque, deque_from_vec, deque_position, first_pos, insert_copy, keep_only_exec,
    lemma_first_pos, remove_all, splice, without, without_all_exec,
};
use crate::vec_deque_ext::clamp_index;

verus! {

/// The smallest position in `list` of one of `targets`.
fn min_position(list: &VecDeque<usize>, targets: &Vec<usize>) -> (m: usize)
    requires
        targets@.len() > 0,
        forall|i: int| 0 <= i < targets@.len() ==> list@.contains(#[trigger] targets@[i]),
    ensures
        m == min_first_pos(list@, targets@),
        m < list@.len(),
{
    let m0 = match deque_position(list, targets[0]) {
        Some(m) => m,
        None => {
            proof {
                assert(list@.contains(targets@[0]));
            }
            return 0;
        },
    };
    proof {
        lemma_first_pos(list@, targets@[0]);
        assert(targets@.take(1).len() == 1);
    }
    let mut m = m0;
    let len = targets.len();
    let mut j: usize = 1;
    while j < len
        invariant
            len == targets@.len(),
            1 <= j <= len,
            forall|i: int| 0 <= i < targets@.len() ==> list@.contains(#[trigger] targets@[i]),
            m == min_first_pos(list@, targets@.take(j as int)),
            m < list@.len(),
        decreases len - j,
    {
        let here = match deque_position(list, targets[j]) {
            Some(h) => h,
            None => {
                proof {
                    assert(list@.contains(targets@[j as int]));
                }
                return 0;
            },
        };
        proof {
            lemma_first_pos(list@, targets@[j as int]);
            assert(targets@.take(j + 1).drop_last() =~= targets@.take(j as int));
            assert(targets@.take(j + 1).last() == targets@[j as int]);
        }
        if here < m {
            m = here;
        }
        j = j + 1;
    }
    assert(targets@.take(len as int) =~= targets@);
    m
}

/// One container of the tree, addressed by its handle (its position in the
/// tree's arena).
pub struct ContainerNode {
    id: u128,
    kind: ContainerKind,
    parent: Option<usize>,
    children: VecDeque<usize>,
    child_focus_order: VecDeque<usize>,
}

impl View for ContainerNode {
    type V = NodeView;

    closed spec fn view(&self) -> NodeView {
        NodeView {
            id: self.id,
            kind: self.kind,
            parent: self.parent,
            children: self.children@,
            focus: self.child_focus_order@,
        }
    }
}

/// The container tree of the window manager: the root container, its
/// monitors, their workspaces, and the split containers and windows in
/// them, together with every detached container. Containers are addressed
/// by handle.
pub struct ContainerTree {
    nodes: Vec<ContainerNode>,
    ranks: Ghost<Seq<nat>>,
}

impl View for ContainerTree {
    type V = Seq<NodeView>;

    closed spec fn view(&self) -> Seq<NodeView> {
        Seq::new(self.nodes@.len(), |i: int| self.nodes@[i]@)
    }
}

impl ContainerTree {
    /// The tree is well formed: its links agree and following parents
    /// always ends.
    pub closed spec fn wf(&self) -> bool {
        links_ok(self@) && ranked(self@, self.ranks@)
    }

    /// A well-formed tree is a well-formed model.
    pub proof fn lemma_wf(&self)
        requires
            self.wf(),
        ensures
            tree_wf(self@),
    {
    }

    /// A tree holding only a root container.
    pub fn new() -> (t: ContainerTree)
        ensures
            t.wf(),
            t@.len() == 1,
            t@[0].kind is Root,
            t@[0].parent is None,
            t@[0].children.len() == 0,
            t@[0].focus.len() == 0,
    {
        let root = ContainerNode {
            id: new_container_id(),
            kind: ContainerKind::Root,
            parent: None,
            children: VecDeque::new(),
            child_focus_order: VecDeque::new(),
        };
        let mut nodes = Vec::new();
        nodes.push(root);
        let ghost r0: Seq<nat> = seq![0nat];
        let t = ContainerTree { nodes, ranks: Ghost(r0) };
        assert(t@[0] == t.nodes@[0]@);
        assert(t.nodes@.len() == t.nodes.len());
        t
    }

    /// The number of containers, attached or not.
    pub fn len(&self) -> (r: usize)
        ensures
            r == self@.len(),
    {
        self.nodes.len()
    }

    /// Adds a detached container of the given kind and returns its handle.
    pub fn add_container(&mut self, kind: ContainerKind) -> (h: usize)
        requires
            old(self).wf(),
            old(self)@.len() < usize::MAX,
        ensures
            final(self).wf(),
            h == old(self)@.len(),
            final(self)@.len() == old(self)@.len() + 1,
            forall|i: int| 0 <= i < h ==> #[trigger] final(self)@[i] == old(self)@[i],
            final(self)@[h as int].kind == kind,
            final(self)@[h as int].parent is None,
            final(self)@[h as int].children.len() == 0,
            final(self)@[h as int].focus.len() == 0,
    {
        let ghost old_view = self@;
        let h = self.nodes.len();
        let node = ContainerNode {
            id: new_container_id(),
            kind,
            parent: None,
            children: VecDeque::new(),
            child_focus_order: VecDeque::new(),
        };
        self.nodes.push(node);
        self.ranks = Ghost(self.ranks@.push(0nat));
        assert(self.nodes@.len() == self.nodes.len());
        assert forall|i: int| 0 <= i < h implies #[trigger] self@[i] == old_view[i] by {
            assert(self.nodes@[i] == old(self).nodes@[i]);
        }
        assert(self@[h as int] == self.nodes@[h as int]@);
        proof {
            let v = self@;
            assert forall|p: int, x: usize|
                0 <= p < v.len() && #[trigger] v[p].children.contains(x) implies v[p].focus.contains(
                x,
            ) by {
                if p < h {
                    assert(old_view[p].children.contains(x));
                }
            }
            assert forall|i: int| 0 <= i < v.len() && #[trigger] v[i].parent is Some implies {
                let p = v[i].parent->0 as int;
                0 <= p < v.len() && v[p].children.contains(i as usize)
            } by {
                assert(old_view[i].parent is Some);
            }
            assert forall|i: int|
                0 <= i < v.len() && #[trigger] v[i].parent is Some implies self.ranks@[v[i].parent->0 as int] < self.ranks@[i] by {
                assert(old_view[i].parent is Some);
            }
        }
        h
    }

    /// The identifier of a container.
    pub fn id(&self, h: usize) -> (r: u128)
        requires
            h < self@.len(),
        ensures
            r == self@[h as int].id,
    {
        self.nodes[h].id
    }

    /// The kind of a container.
    pub fn kind(&self, h: usize) -> (r: &ContainerKind)
        requires
            h < self@.len(),
        ensures
            *r == self@[h as int].kind,
    {
        &self.nodes[h].kind
    }

    /// The parent of a container.
    pub fn parent(&self, h: usize) -> (r: Option<usize>)
        requires
            h < self@.len(),
        ensures
            r == self@[h as int].parent,
    {
        self.nodes[h].parent
    }

    /// Whether a container has no parent.
    pub fn is_detached(&self, h: usize) -> (r: bool)
        requires
            h < self@.len(),
        ensures
            r == (self@[h as int].parent is None),
    {
        self.nodes[h].parent.is_none()
    }

    /// The children of a container, in layout order.
    pub fn children(&self, h: usize) -> (r: &VecDeque<usize>)
        requires
            h < self@.len(),
        ensures
            r@ == self@[h as int].children,
    {
        &self.nodes[h].children
    }

    /// The children of a container, most recently focused first.
    pub fn child_focus_order(&self, h: usize) -> (r: &VecDeque<usize>)
        requires
            h < self@.len(),
        ensures
            r@ == self@[h as int].focus,
    {
        &self.nodes[h].child_focus_order
    }

    /// The number of children of a container.
    pub fn child_count(&self, h: usize) -> (r: usize)
        requires
            h < self@.len(),
        ensures
            r == self@[h as int].children.len(),
    {
        self.nodes[h].children.len()
    }

    // -----------------------------------------------------------------------
    // Field updates that do not by themselves keep the tree well formed.
    // -----------------------------------------------------------------------
    fn set_parent(&mut self, h: usize, p: Option<usize>)
        requires
            h < old(self)@.len(),
        ensures
            final(self)@ == old(self)@.update(h as int, with_parent(old(self)@[h as int], p)),
            final(self).ranks == old(self).ranks,
    {
        self.nodes[h].parent = p;
        assert(self@ =~= old(self)@.update(h as int, with_parent(old(self)@[h as int], p)));
    }

    fn set_children(&mut self, h: usize, c: VecDeque<usize>)
        requires
            h < old(self)@.len(),
        ensures
            final(self)@ == old(self)@.update(h as int, with_children(old(self)@[h as int], c@)),
            final(self).ranks == old(self).ranks,
    {
        self.nodes[h].children = c;
        assert(self@ =~= old(self)@.update(h as int, with_children(old(self)@[h as int], c@)));
    }

    fn set_focus(&mut self, h: usize, f: VecDeque<usize>)
        requires
            h < old(self)@.len(),
        ensures
            final(self)@ == old(self)@.update(h as int, with_focus(old(self)@[h as int], f@)),
            final(self).ranks == old(self).ranks,
    {
        self.nodes[h].child_focus_order = f;
        assert(self@ =~= old(self)@.update(h as int, with_focus(old(self)@[h as int], f@)));
    }

    // -----------------------------------------------------------------------
    // Ancestry
    // -----------------------------------------------------------------------
    /// Whether `a` is `x` or one of its ancestors.
    pub fn is_ancestor_or_self(&self, a: usize, x: usize) -> (r: bool)
        requires
            self.wf(),
            a < self@.len(),
            x < self@.len(),
        ensures
            r == reaches(self@, x as int, a as int),
    {
        let mut cur = x;
        proof {
            lemma_reaches_unfold(self@, x as int, a as int);
        }
        loop
            invariant
                self.wf(),
                cur < self@.len(),
                reaches(self@, x as int, a as int) == reaches(self@, cur as int, a as int),
            decreases self.ranks@[cur as int],
        {
            proof {
                lemma_reaches_unfold(self@, cur as int, a as int);
            }
            if cur == a {
                return true;
            }
            match self.nodes[cur].parent {
                Some(p) => {
                    assert(self@[cur as int].parent == Some(p));
                    cur = p;
                },
                None => {
                    return false;
                },
            }
        }
    }

    // -----------------------------------------------------------------------
    // Attaching
    // -----------------------------------------------------------------------
    /// Inserts a child container at the specified index (clamped to the
    /// number of children), or at the end; it goes last in the parent's
    /// focus order.
    ///
    /// Fails, changing nothing, when the child already has a parent. A
    /// detached child must not be attached inside its own subtree.
    pub fn attach_container(&mut self, child: usize, target_parent: usize, target_index: Option<
        usize,
    >) -> (r: Result<(), WmError>)
        requires
            old(self).wf(),
            child < old(self)@.len(),
            target_parent < old(self)@.len(),
            old(self)@[child as int].parent is None ==> !reaches(
                old(self)@,
                target_parent as int,
                child as int,
            ),
        ensures
            final(self).wf(),
            match r {
                Ok(()) => old(self)@[child as int].parent is None && final(self)@ == spec_attach(
                    old(self)@,
                    child as int,
                    target_parent as int,
                    target_index,
                ) && final(self)@[child as int].parent == Some(target_parent),
                Err(e) => e == WmError::AlreadyAttached && old(self)@[child as int].parent is Some
                    && final(self)@ == old(self)@,
            },
    {
        if self.nodes[child].parent.is_some() {
            return Err(WmError::AlreadyAttached);
        }
        assert(child != target_parent) by {
            assert(ancestor(self@, target_parent as int, 0) == Some(target_parent as int));
        }
        let ghost v = self@;
        let ghost r = self.ranks@;
        let mut kids = copy_deque(&self.nodes[target_parent].children);
        match target_index {
            Some(i) => {
                let len = kids.len();
                let i = if i > len {
                    len
                } else {
                    i
                };
                kids.insert(i, child);
            },
            None => {
                kids.push_back(child);
            },
        }
        let mut focus = copy_deque(&self.nodes[target_parent].child_focus_order);
        focus.push_back(child);
        self.set_children(target_parent, kids);
        self.set_focus(target_parent, focus);
        self.set_parent(child, Some(target_parent));
        proof {
            let w = self@;
            let tp = target_parent as int;
            let c = child as int;
            let pn = v[tp];
            let expected_kids = match target_index {
                Some(i) => pn.children.insert(
                    clamp_index(i as int, pn.children.len() as int),
                    c as usize,
                ),
                None => pn.children.push(c as usize),
            };
            assert(w =~= spec_attach(v, c, tp, target_index));
            lemma_attach_wf(v, r, c, tp, target_index);
            self.ranks@ = attach_ranks(v, r, c, tp);
        }
        Ok(())
    }

    // -----------------------------------------------------------------------
    // Flattening
    // -----------------------------------------------------------------------
    /// Removes a split container from the tree and moves its children into
    /// the parent container, at the split's position; its focus order goes
    /// into the parent's at the split's focus position.
    ///
    /// Fails, changing nothing, when the split container has no parent.
    pub fn flatten_split_container(&mut self, split_container: usize) -> (r: Result<(), WmError>)
        requires
            old(self).wf(),
            split_container < old(self)@.len(),
        ensures
            final(self).wf(),
            match r {
                Ok(()) => old(self)@[split_container as int].parent is Some && final(self)@
                    == spec_flatten(old(self)@, split_container as int),
                Err(e) => e == WmError::NoParent && old(self)@[split_container as int].parent is None
                    && final(self)@ == old(self)@,
            },
    {
        let s = split_container;
        let g = match self.nodes[s].parent {
            Some(g) => g,
            None => {
                return Err(WmError::NoParent);
            },
        };
        let ghost v = self@;
        let ghost r = self.ranks@;
        proof {
            assert(v[s as int].parent == Some(g));
            lemma_parent_facts(v, r, s as int);
            assert(v[g as int].focus.contains(s));
        }
        let i = match deque_position(&self.nodes[g].children, s) {
            Some(i) => i,
            None => {
                proof {
                    assert(false);
                }
                return Err(WmError::NoParent);
            },
        };
        let fi = match deque_position(&self.nodes[g].child_focus_order, s) {
            Some(fi) => fi,
            None => {
                proof {
                    assert(false);
                }
                return Err(WmError::NoParent);
            },
        };
        proof {
            lemma_first_pos(v[g as int].children, s);
            lemma_first_pos(v[g as int].focus, s);
        }
        let glen = self.nodes[g].children.len();
        assert(i < glen);
        let split_kids = copy_deque(&self.nodes[s].children);
        let kids = splice(&self.nodes[g].children, i, i + 1, &split_kids);
        let joined = splice(&self.nodes[g].child_focus_order, fi, fi, &self.nodes[s].child_focus_order);
        let focus = remove_all(&joined, s);
        self.set_children(g, kids);
        self.set_focus(g, focus);
        let ghost v1 = self@;
        let ghost sk = v[s as int].children;
        proof {
            assert forall|y: usize| #[trigger] sk.contains(y) implies 0 <= y < v.len() && v[y as int].parent == Some(s) && y != g && y != s by {
                lemma_child_facts(v, r, s as int, y);
                lemma_parent_facts(v, r, s as int);
            }
        }
        let n = split_kids.len();
        let mut k: usize = 0;
        while k < n
            invariant
                n == sk.len(),
                split_kids@ == sk,
                k <= n,
                sk.no_duplicates(),
                v1.len() == v.len(),
                v.len() <= usize::MAX,
                forall|y: usize| #[trigger] sk.contains(y) ==> 0 <= y < v.len() && y != g && y != s,
                self.ranks@ == r,
                self@ == Seq::new(
                    v1.len(),
                    |x: int|
                        if sk.take(k as int).contains(x as usize) {
                            with_parent(v1[x], Some(g))
                        } else {
                            v1[x]
                        },
                ),
            decreases n - k,
        {
            let y = split_kids[k];
            assert(sk.contains(y));
            proof {
                assert(!sk.take(k as int).contains(y)) by {
                    if sk.take(k as int).contains(y) {
                        let prev = sk.take(k as int);
                        let m = choose|m: int| 0 <= m < prev.len() && prev[m] == y;
                        assert(sk[m] == sk[k as int]);
                    }
                }
            }
            self.set_parent(y, Some(g));
            proof {
                let next = sk.take(k + 1);
                let prev = sk.take(k as int);
                assert forall|z: usize| #[trigger] next.contains(z) <==> (prev.contains(z) || z == y) by {
                    if next.contains(z) {
                        let m = choose|m: int| 0 <= m < next.len() && next[m] == z;
                        if m < k {
                            assert(prev[m] == z);
                        }
                    }
                    if prev.contains(z) {
                        let m = choose|m: int| 0 <= m < prev.len() && prev[m] == z;
                        assert(next[m] == z);
                    }
                    if z == y {
                        assert(next[k as int] == z);
                    }
                }
            }
            k = k + 1;
            proof {
                let next = sk.take(k as int);
                assert forall|x: int| 0 <= x < v1.len() implies #[trigger] self@[x] == (if next.contains(x as usize) {
                    with_parent(v1[x], Some(g))
                } else {
                    v1[x]
                }) by {
                    if x == y as int {
                    } else {
                        assert(x as usize != y);
                    }
                }
            }
            assert(self@ =~= Seq::new(
                v1.len(),
                |x: int|
                    if sk.take(k as int).contains(x as usize) {
                        with_parent(v1[x], Some(g))
                    } else {
                        v1[x]
                    },
            ));
        }
        self.set_parent(s, None);
        self.set_children(s, VecDeque::new());
        proof {
            assert(sk.take(n as int) =~= sk);
            assert(self@ =~= spec_flatten(v, s as int)) by {
                let w = spec_flatten(v, s as int);
                assert forall|x: int| 0 <= x < v.len() implies self@[x] == w[x] by {
                    if x != g && x != s && !sk.contains(x as usize) {
                    }
                }
            }
            lemma_flatten_wf(v, r, s as int);
        }
        Ok(())
    }

    // -----------------------------------------------------------------------
    // Detaching
    // -----------------------------------------------------------------------
    fn remove_child(&mut self, p: usize, c: usize)
        requires
            old(self).wf(),
            c < old(self)@.len(),
            old(self)@[c as int].parent == Some(p),
        ensures
            final(self).wf(),
            final(self)@ == spec_remove_child(old(self)@, p as int, c as int),
    {
        let ghost v = self@;
        proof {
            lemma_parent_facts(v, self.ranks@, c as int);
        }
        let kids = remove_all(&self.nodes[p].children, c);
        let focus = remove_all(&self.nodes[p].child_focus_order, c);
        self.set_children(p, kids);
        self.set_focus(p, focus);
        self.set_parent(c, None);
        proof {
            assert(self@ =~= spec_remove_child(v, p as int, c as int));
            lemma_remove_child_wf(v, self.ranks@, p as int, c as int);
        }
    }

    /// Removes a container from the tree.
    ///
    /// When the container is the only child of a split container, that split
    /// container is flattened first, so that no empty split container
    /// remains. Fails, changing nothing, when the container has no parent,
    /// or when that split container has no parent.
    pub fn detach_container(&mut self, child_to_remove: usize) -> (r: Result<(), WmError>)
        requires
            old(self).wf(),
            child_to_remove < old(self)@.len(),
        ensures
            final(self).wf(),
            match r {
                Ok(()) => !detach_fails(old(self)@, child_to_remove as int) && final(self)@
                    == spec_detach(old(self)@, child_to_remove as int)
                    && final(self)@[child_to_remove as int].parent is None,
                Err(e) => e == WmError::NoParent && detach_fails(old(self)@, child_to_remove as int)
                    && final(self)@ == old(self)@,
            },
    {
        let c = child_to_remove;
        let ghost v = self@;
        let ghost r = self.ranks@;
        // Flatten the parent split container if it'll be empty after removing
        // the child.
        if let Some(p) = self.nodes[c].parent {
            let is_split = match &self.nodes[p].kind {
                ContainerKind::Split(_) => true,
                _ => false,
            };
            proof {
                lemma_parent_facts(v, r, c as int);
            }
            if is_split && self.nodes[p].children.len() == 1 {
                self.flatten_split_container(p)?;
            }
        }
        let ghost v1 = self@;
        proof {
            if parent_is_sole_split(v, c as int) {
                assert(v1 == spec_flatten(v, v[c as int].parent->0 as int));
            } else {
                assert(v1 == v);
            }
        }
        let p = match self.nodes[c].parent {
            Some(p) => p,
            None => {
                proof {
                    if parent_is_sole_split(v, c as int) {
                        let s = v[c as int].parent->0 as int;
                        lemma_parent_facts(v, r, c as int);
                        assert(v[s].children.contains(c));
                        assert(v[s].children[0] == c);
                        lemma_first_pos(v[v[s].parent->0 as int].children, s as usize);
                        assert(v1[c as int].parent is Some);
                    }
                }
                return Err(WmError::NoParent);
            },
        };
        proof {
            if parent_is_sole_split(v, c as int) {
                let s = v[c as int].parent->0 as int;
                assert(v[s].children.contains(c)) by {
                    lemma_parent_facts(v, r, c as int);
                }
                assert(v[s].children[0] == c);
                assert(v1[c as int].parent == Some(v[s].parent->0));
            }
        }
        self.remove_child(p, c);
        proof {
            lemma_detach_parents(v, r, c as int);
        }
        Ok(())
    }

    // -----------------------------------------------------------------------
    // Lowest common ancestor
    // -----------------------------------------------------------------------
    /// Gets the lowest container in the tree that has both `container_a` and
    /// `container_b` as descendants (either may be that container itself).
    pub fn lowest_common_ancestor(&self, container_a: usize, container_b: usize) -> (r: Option<
        usize,
    >)
        requires
            self.wf(),
            container_a < self@.len(),
            container_b < self@.len(),
        ensures
            match r {
                Some(x) => spec_lca(self@, container_a as int, container_b as int) == Some(x as int),
                None => spec_lca(self@, container_a as int, container_b as int) is None,
            },
            r matches Some(x) ==> x < self@.len(),
    {
        let ghost v = self@;
        let ghost a = container_a as int;
        let ghost b = container_b as int;
        let mut cur = container_a;
        let ghost mut k: nat = 0;
        // Traverse upwards from container A.
        loop
            invariant
                self.wf(),
                v == self@,
                cur < v.len(),
                container_b < v.len(),
                a == container_a as int,
                b == container_b as int,
                ancestor(v, a, k) == Some(cur as int),
                forall|j: nat|
                    j < k ==> !(#[trigger] ancestor(v, a, j) matches Some(y) && reaches(v, b, y)),
            decreases self.ranks@[cur as int],
        {
            if self.is_ancestor_or_self(cur, container_b) {
                proof {
                    assert(lca_depth(v, a, b, k));
                    let c = choose|c: nat| lca_depth(v, a, b, c);
                    assert(c == k) by {
                        if c < k {
                            assert(!(ancestor(v, a, c) matches Some(y) && reaches(v, b, y)));
                        } else if c > k {
                            assert(!(ancestor(v, a, k) matches Some(y) && reaches(v, b, y)));
                        }
                    }
                }
                return Some(cur);
            }
            proof {
                lemma_ancestor_step(v, a, k);
            }
            match self.nodes[cur].parent {
                Some(p) => {
                    assert(v[cur as int].parent == Some(p));
                    proof {
                        lemma_parent_facts(v, self.ranks@, cur as int);
                        k = k + 1;
                    }
                    cur = p;
                },
                None => {
                    proof {
                        assert(ancestor(v, a, k + 1) is None);
                        assert(!reaches(v, b, cur as int));
                        assert forall|c: nat| !lca_depth(v, a, b, c) by {
                            if c > k {
                                lemma_ancestor_none(v, a, k + 1, c);
                            } else if c == k {
                            } else {
                                assert(!(ancestor(v, a, c) matches Some(y) && reaches(v, b, y)));
                            }
                        }
                    }
                    return None;
                },
            }
        }
    }

    // -----------------------------------------------------------------------
    // Wrapping
    // -----------------------------------------------------------------------
    /// Wraps `target_children`, children of `target_parent`, in the detached,
    /// childless `split_container`: it takes the place of the first of them
    /// in the parent's children and focus order, and they become its
    /// children in the given order, keeping their relative focus order.
    ///
    /// Fails, changing nothing, when no target children are given.
    pub fn wrap_in_split_container(
        &mut self,
        split_container: usize,
        target_parent: usize,
        target_children: &Vec<usize>,
    ) -> (r: Result<(), WmError>)
        requires
            old(self).wf(),
            wrap_allowed(old(self)@, split_container as int, target_parent as int, target_children@),
        ensures
            final(self).wf(),
            match r {
                Ok(()) => target_children@.len() > 0 && final(self)@ == spec_wrap(
                    old(self)@,
                    split_container as int,
                    target_parent as int,
                    target_children@,
                ),
                Err(e) => e == WmError::NoTargets && target_children@.len() == 0 && final(self)@
                    == old(self)@,
            },
    {
        if target_children.len() == 0 {
            return Err(WmError::NoTargets);
        }
        let ghost v = self@;
        let ghost r = self.ranks@;
        let ghost targets = target_children@;
        let n = split_container;
        let tp = target_parent;
        proof {
            assert forall|i: int| 0 <= i < targets.len() implies v[tp as int].children.contains(
                #[trigger] targets[i],
            ) && v[tp as int].focus.contains(targets[i]) by {
                lemma_parent_facts(v, r, targets[i] as int);
            }
        }
        let starting_index = min_position(&self.nodes[tp].children, target_children);
        let kids1 = insert_copy(&self.nodes[tp].children, starting_index, n);
        let starting_focus_index = min_position(&self.nodes[tp].child_focus_order, target_children);
        let focus1 = insert_copy(&self.nodes[tp].child_focus_order, starting_focus_index, n);
        let sorted_focus_ids = keep_only_exec(&focus1, target_children);
        let tp_kids = without_all_exec(&kids1, target_children);
        let tp_focus = without_all_exec(&focus1, target_children);
        self.set_children(tp, tp_kids);
        self.set_focus(tp, tp_focus);
        self.set_parent(n, Some(tp));
        self.set_children(n, deque_from_vec(target_children));
        self.set_focus(n, sorted_focus_ids);
        let ghost v1 = self@;
        let len = target_children.len();
        let mut k: usize = 0;
        while k < len
            invariant
                len == targets.len(),
                target_children@ == targets,
                k <= len,
                v1.len() == v.len(),
                v.len() <= usize::MAX,
                wrap_allowed(v, n as int, tp as int, targets),
                self.ranks@ == r,
                self@ == Seq::new(
                    v1.len(),
                    |x: int|
                        if targets.take(k as int).contains(x as usize) {
                            with_parent(v1[x], Some(n))
                        } else {
                            v1[x]
                        },
                ),
            decreases len - k,
        {
            let t = target_children[k];
            assert((targets[k as int] as int) < v.len());
            self.set_parent(t, Some(n));
            proof {
                let next = targets.take(k + 1);
                let prev = targets.take(k as int);
                assert(!prev.contains(t)) by {
                    if prev.contains(t) {
                        let m = choose|m: int| 0 <= m < prev.len() && prev[m] == t;
                        assert(targets[m] == targets[k as int]);
                    }
                }
                assert forall|z: usize| #[trigger] next.contains(z) <==> (prev.contains(z) || z == t) by {
                    if next.contains(z) {
                        let m = choose|m: int| 0 <= m < next.len() && next[m] == z;
                        if m < k {
                            assert(prev[m] == z);
                        }
                    }
                    if prev.contains(z) {
                        let m = choose|m: int| 0 <= m < prev.len() && prev[m] == z;
                        assert(next[m] == z);
                    }
                    if z == t {
                        assert(next[k as int] == z);
                    }
                }
                assert forall|x: int| 0 <= x < v1.len() implies #[trigger] self@[x] == (if next.contains(x as usize) {
                    with_parent(v1[x], Some(n))
                } else {
                    v1[x]
                }) by {
                    if x != t as int {
                        assert(x as usize != t);
                    }
                }
            }
            k = k + 1;
            assert(self@ =~= Seq::new(
                v1.len(),
                |x: int|
                    if targets.take(k as int).contains(x as usize) {
                        with_parent(v1[x], Some(n))
                    } else {
                        v1[x]
                    },
            ));
        }
        proof {
            assert(targets.take(len as int) =~= targets);
            let w = spec_wrap(v, n as int, tp as int, targets);
            assert(!targets.contains(n)) by {
                if targets.contains(n) {
                    let i = choose|i: int| 0 <= i < targets.len() && targets[i] == n;
                    assert(v[targets[i] as int].parent == Some(tp));
                }
            }
            assert(!targets.contains(tp)) by {
                if targets.contains(tp) {
                    let i = choose|i: int| 0 <= i < targets.len() && targets[i] == tp;
                    assert(v[targets[i] as int].parent == Some(tp));
                    lemma_parent_facts(v, r, tp as int);
                }
            }
            assert forall|x: int| 0 <= x < v.len() implies self@[x] == w[x] by {}
            assert(self@ =~= w);
            lemma_wrap_wf(v, r, n as int, tp as int, targets);
            self.ranks@ = wrap_ranks(r, n as int, tp as int);
        }
        Ok(())
    }

    // -----------------------------------------------------------------------
    // Focus
    // -----------------------------------------------------------------------
    /// Moves `x` to position `index` of `p`'s focus order.
    fn shift_focus(&mut self, p: usize, index: usize, x: usize)
        requires
            old(self).wf(),
            p < old(self)@.len(),
        ensures
            final(self).wf(),
            final(self)@ == old(self)@.update(
                p as int,
                with_focus(
                    old(self)@[p as int],
                    spec_shift_to_index(old(self)@[p as int].focus, index as int, x),
                ),
            ),
    {
        broadcast use vstd::laws_eq::group_laws_eq;

        let ghost v = self@;
        let mut focus = copy_deque(&self.nodes[p].child_focus_order);
        focus.shift_to_index(index, x);
        self.set_focus(p, focus);
        proof {
            assert forall|y: usize| #[trigger] focus@.contains(y) <==> v[p as int].focus.contains(y) by {
                lemma_shift_contains(v[p as int].focus, index as int, x, y);
            }
            lemma_focus_change_wf(v, self.ranks@, p as int, focus@);
        }
    }

    /// Sets a container as the focused descendant of each of its ancestors,
    /// up to and including `end_ancestor` (or up to the root): each moves
    /// the child on the path to the container to the front of its focus
    /// order, so that the container has focus up to `end_ancestor`.
    pub fn set_focused_descendant(&mut self, focused_descendant: usize, end_ancestor: Option<usize>)
        requires
            old(self).wf(),
            focused_descendant < old(self)@.len(),
        ensures
            final(self).wf(),
            final(self)@ == spec_set_focused_descendant(
                old(self)@,
                focused_descendant as int,
                end_ancestor,
            ),
            spec_has_focus(final(self)@, focused_descendant as int, end_ancestor),
    {
        let ghost v = self@;
        let ghost r = self.ranks@;
        proof {
            self.lemma_wf();
            law_set_focused_descendant_gives_focus(v, focused_descendant as int, end_ancestor);
        }
        let ghost c = focused_descendant as int;
        let mut target = focused_descendant;
        let ghost mut m: nat = 0;
        proof {
            assert(self@ =~= focus_path_upto(v, c, end_ancestor, 0));
        }
        // Traverse upwards, setting the container as the last focused.
        loop
            invariant
                self.wf(),
                self@.len() == v.len(),
                v == old(self)@,
                c == focused_descendant as int,
                links_ok(v),
                ranked(v, r),
                0 <= c < v.len(),
                target < v.len(),
                ancestor(v, c, m) == Some(target as int),
                forall|j: nat| 1 <= j <= m ==> !#[trigger] is_end(v, c, end_ancestor, j),
                self@ == focus_path_upto(v, c, end_ancestor, m),
                spec_has_focus(spec_set_focused_descendant(v, c, end_ancestor), c, end_ancestor),
            decreases r[target as int],
        {
            proof {
                lemma_ancestor_step(v, c, m);
                assert(self@[target as int].parent == v[target as int].parent);
            }
            match self.nodes[target].parent {
                None => {
                    proof {
                        assert(ancestor(v, c, m + 1) is None);
                        lemma_focus_path_complete(v, r, c, end_ancestor, m);
                    }
                    return;
                },
                Some(p) => {
                    let ghost before = self@;
                    proof {
                        assert(ancestor(v, c, m + 1) == Some(p as int));
                        lemma_ancestor_in_range_tree(v, r, c, m + 1);
                        assert(before[p as int] == v[p as int]) by {
                            if exists|k: nat| 1 <= k <= m && ancestor(v, c, k) == Some(p as int) {
                                let k = choose|k: nat| 1 <= k <= m && ancestor(v, c, k) == Some(p as int);
                                lemma_ancestor_distinct(v, r, c, k, m + 1);
                            }
                        }
                    }
                    self.shift_focus(p, 0, target);
                    proof {
                        let up = focus_path_upto(v, c, end_ancestor, m + 1);
                        let prev = focus_path_upto(v, c, end_ancestor, m);
                        assert forall|x: int| 0 <= x < v.len() implies #[trigger] self@[x] == up[x] by {
                            if x == p as int {
                                assert(ancestor(v, c, m + 1) == Some(x));
                                let k = choose|k: nat| 1 <= k <= m + 1 && ancestor(v, c, k) == Some(x);
                                if k != m + 1 {
                                    lemma_ancestor_distinct(v, r, c, k, m + 1);
                                }
                            } else {
                                assert(self@[x] == prev[x]);
                                if exists|k: nat| 1 <= k <= m + 1 && ancestor(v, c, k) == Some(x) {
                                    let k = choose|k: nat| 1 <= k <= m + 1 && ancestor(v, c, k) == Some(x);
                                    assert(k <= m);
                                    let k2 = choose|k: nat| 1 <= k <= m && ancestor(v, c, k) == Some(x);
                                    if k != k2 {
                                        lemma_ancestor_distinct(v, r, c, k, k2);
                                    }
                                } else {
                                    assert(!exists|k: nat| 1 <= k <= m && ancestor(v, c, k) == Some(x));
                                }
                            }
                        }
                        assert(self@ =~= up);
                        assert(v[target as int].parent == Some(p));
                        lemma_parent_facts(v, r, target as int);
                    }
                    if end_ancestor == Some(p) {
                        proof {
                            assert(is_end(v, c, end_ancestor, m + 1));
                            lemma_focus_path_complete(v, r, c, end_ancestor, m + 1);
                        }
                        return;
                    }
                    target = p;
                    proof {
                        m = m + 1;
                    }
                },
            }
        }
    }

    /// Whether a container is the focused descendant of each of its
    /// ancestors up to (not including) `end_ancestor`, or up to the root.
    pub fn has_focus(&self, container: usize, end_ancestor: Option<usize>) -> (r: bool)
        requires
            self.wf(),
            container < self@.len(),
        ensures
            r == spec_has_focus(self@, container as int, end_ancestor),
    {
        let ghost v = self@;
        let ghost c = container as int;
        let mut x = container;
        let ghost mut k: nat = 0;
        loop
            invariant
                self.wf(),
                v == self@,
                c == container as int,
                0 <= c < v.len(),
                x < v.len(),
                ancestor(v, c, k) == Some(x as int),
                forall|j: nat| j < k ==> !#[trigger] is_end(v, c, end_ancestor, j),
                forall|j: nat|
                    j < k ==> #[trigger] ancestor(v, c, j) is Some && first_in_parent(
                        v,
                        ancestor(v, c, j)->0,
                    ),
            decreases self.ranks@[x as int],
        {
            proof {
                lemma_ancestor_step(v, c, k);
            }
            if end_ancestor == Some(x) {
                proof {
                    assert(is_end(v, c, end_ancestor, k));
                    assert forall|j: nat|
                        #[trigger] ancestor(v, c, j) is Some && before_end(v, c, end_ancestor, j)
                            implies first_in_parent(v, ancestor(v, c, j)->0) by {
                        if j >= k {
                            assert(!is_end(v, c, end_ancestor, k));
                        }
                    }
                }
                return true;
            }
            match self.nodes[x].parent {
                None => {
                    proof {
                        assert(first_in_parent(v, x as int));
                        assert forall|j: nat|
                            #[trigger] ancestor(v, c, j) is Some && before_end(v, c, end_ancestor, j)
                                implies first_in_parent(v, ancestor(v, c, j)->0) by {
                            if j > k {
                                lemma_ancestor_none(v, c, k + 1, j);
                            }
                        }
                    }
                    return true;
                },
                Some(p) => {
                    proof {
                        assert(v[x as int].parent == Some(p));
                        lemma_parent_facts(v, self.ranks@, x as int);
                        assert(v[p as int].focus.contains(x));
                    }
                    let pos = deque_position(&self.nodes[p].child_focus_order, x);
                    let is_first = match pos {
                        Some(i) => i == 0,
                        None => false,
                    };
                    if !is_first {
                        proof {
                            assert(!first_in_parent(v, x as int));
                            assert(before_end(v, c, end_ancestor, k)) by {
                                assert(!is_end(v, c, end_ancestor, k));
                            }
                        }
                        return false;
                    }
                    x = p;
                    proof {
                        k = k + 1;
                    }
                },
            }
        }
    }

    /// Replaces `p`'s children by a reordering of them.
    pub(crate) fn reorder_children(&mut self, p: usize, kids: VecDeque<usize>)
        requires
            old(self).wf(),
            p < old(self)@.len(),
            kids@.no_duplicates(),
            forall|y: usize| #[trigger] kids@.contains(y) <==> old(self)@[p as int].children.contains(y),
        ensures
            final(self).wf(),
            final(self)@ == old(self)@.update(p as int, with_children(old(self)@[p as int], kids@)),
    {
        let ghost v = self@;
        let ghost k = kids@;
        self.set_children(p, kids);
        proof {
            lemma_children_reorder_wf(v, self.ranks@, p as int, k);
        }
    }

    /// Moves `x` to position `index` of `p`'s children.
    fn shift_child(&mut self, p: usize, index: usize, x: usize)
        requires
            old(self).wf(),
            p < old(self)@.len(),
        ensures
            final(self).wf(),
            final(self)@ == spec_shift_child(old(self)@, p as int, index as int, x),
    {
        broadcast use vstd::laws_eq::group_laws_eq;

        let ghost v = self@;
        let mut kids = copy_deque(&self.nodes[p].children);
        kids.shift_to_index(index, x);
        self.set_children(p, kids);
        proof {
            assert forall|y: usize| #[trigger] kids@.contains(y) <==> v[p as int].children.contains(y) by {
                lemma_shift_contains(v[p as int].children, index as int, x, y);
            }
            lemma_shift_no_dup(v[p as int].children, index as int, x);
            lemma_children_reorder_wf(v, self.ranks@, p as int, kids@);
        }
    }

    /// The children of `p` that are tiling containers, in order.
    pub fn tiling_children(&self, p: usize) -> (r: Vec<usize>)
        requires
            self.wf(),
            p < self@.len(),
        ensures
            r@ == tiling_only(self@, self@[p as int].children),
    {
        let ghost v = self@;
        let kids = &self.nodes[p].children;
        let mut r: Vec<usize> = Vec::new();
        let len = kids.len();
        let mut i: usize = 0;
        while i < len
            invariant
                self.wf(),
                v == self@,
                p < v.len(),
                kids@ == v[p as int].children,
                len == kids@.len(),
                i <= len,
                r@ == tiling_only(v, kids@.take(i as int)),
            decreases len - i,
        {
            assert(kids@.take(i + 1).drop_last() =~= kids@.take(i as int));
            let y = kids[i];
            proof {
                assert(v[p as int].children.contains(y));
                lemma_child_facts(v, self.ranks@, p as int, y);
            }
            let is_tiling = match &self.nodes[y].kind {
                ContainerKind::Split(_) => true,
                ContainerKind::TilingWindow => true,
                _ => false,
            };
            if is_tiling {
                r.push(y);
            }
            i = i + 1;
        }
        assert(kids@.take(len as int) =~= kids@);
        r
    }

    /// Flattens any redundant split containers at the top level of the given
    /// parent container: where the parent (a workspace or split container)
    /// has a single tiling child and it is a split container, that child is
    /// flattened; otherwise each split child that has a single child is
    /// flattened.
    pub fn flatten_child_split_containers(&mut self, parent: usize)
        requires
            old(self).wf(),
            parent < old(self)@.len(),
        ensures
            final(self).wf(),
            final(self)@ == spec_flatten_child_splits(old(self)@, parent as int),
            final(self)@.len() == old(self)@.len(),
    {
        let ghost v = self@;
        let ghost r = self.ranks@;
        let is_direction = match &self.nodes[parent].kind {
            ContainerKind::Split(_) => true,
            ContainerKind::Workspace(_) => true,
            _ => false,
        };
        if !is_direction {
            return;
        }
        let tiling = self.tiling_children(parent);
        proof {
            lemma_tiling_only(v, v[parent as int].children);
            assert forall|j: int| 0 <= j < tiling@.len() implies (#[trigger] tiling@[j] as int) < v.len() && v[tiling@[j] as int].parent == Some(parent) by {
                assert(tiling@.contains(tiling@[j]));
                lemma_child_facts(v, r, parent as int, tiling@[j]);
            }
        }
        if tiling.len() == 1 {
            let s = tiling[0];
            let is_split = match &self.nodes[s].kind {
                ContainerKind::Split(_) => true,
                _ => false,
            };
            if is_split {
                match self.flatten_split_container(s) {
                    Ok(()) => {},
                    Err(_) => {
                        proof {
                            assert(false);
                        }
                    },
                }
            }
            return;
        }
        let len = tiling.len();
        let mut i: usize = 0;
        while i < len
            invariant
                self.wf(),
                self@.len() == v.len(),
                links_ok(v),
                parent < v.len(),
                len == tiling@.len(),
                i <= len,
                tiling@.no_duplicates(),
                forall|j: int| 0 <= j < tiling@.len() ==> (#[trigger] tiling@[j] as int) < v.len(),
                forall|j: int| i <= j < tiling@.len() ==> self@[#[trigger] tiling@[j] as int].parent == Some(parent),
                self@ == flatten_each(v, tiling@.take(i as int)),
            decreases len - i,
        {
            let s = tiling[i];
            let ghost w = self@;
            let ghost wr = self.ranks@;
            proof {
                assert(tiling@.take(i + 1).drop_last() =~= tiling@.take(i as int));
                assert(tiling@.take(i + 1).last() == s);
                assert(w[s as int].parent == Some(parent));
            }
            let is_split = match &self.nodes[s].kind {
                ContainerKind::Split(_) => true,
                _ => false,
            };
            if is_split && self.nodes[s].children.len() == 1 {
                match self.flatten_split_container(s) {
                    Ok(()) => {},
                    Err(_) => {
                        proof {
                            assert(false);
                        }
                    },
                }
                proof {
                    assert forall|j: int| i + 1 <= j < tiling@.len() implies self@[#[trigger] tiling@[j] as int].parent == Some(parent) by {
                        let x = tiling@[j];
                        assert(x != s) by {
                            assert(tiling@[i as int] == s);
                        }
                        assert(w[x as int].parent == Some(parent));
                        lemma_parent_facts(w, wr, x as int);
                        lemma_parent_facts(w, wr, s as int);
                        assert(!w[s as int].children.contains(x)) by {
                            if w[s as int].children.contains(x) {
                                lemma_child_facts(w, wr, s as int, x);
                            }
                        }
                    }
                }
            }
            i = i + 1;
        }
        assert(tiling@.take(len as int) =~= tiling@);
    }

    // -----------------------------------------------------------------------
    // Moving within the tree
    // -----------------------------------------------------------------------
    /// The position of `x` in its parent's child focus order (0 for a
    /// container without parent).
    pub fn focus_index(&self, x: usize) -> (r: usize)
        requires
            self.wf(),
            x < self@.len(),
        ensures
            r == focus_index_in_parent(self@, x as int),
    {
        match self.nodes[x].parent {
            None => 0,
            Some(p) => {
                proof {
                    assert(self@[x as int].parent == Some(p));
                    lemma_parent_facts(self@, self.ranks@, x as int);
                    lemma_first_pos(self@[p as int].focus, x);
                }
                match deque_position(&self.nodes[p].child_focus_order, x) {
                    Some(i) => i,
                    None => 0,
                }
            },
        }
    }

    /// The ancestor of `x` (or `x` itself) whose parent is `a`.
    pub fn child_toward(&self, x: usize, a: usize) -> (r: Option<usize>)
        requires
            self.wf(),
            x < self@.len(),
        ensures
            match r {
                Some(y) => child_toward(self@, x as int, a as int) == Some(y as int),
                None => child_toward(self@, x as int, a as int) is None,
            },
    {
        let ghost v = self@;
        let ghost xi = x as int;
        let ghost ai = a as int;
        let mut cur = x;
        let ghost mut k: nat = 0;
        loop
            invariant
                self.wf(),
                v == self@,
                cur < v.len(),
                xi == x as int,
                ai == a as int,
                ancestor(v, xi, k) == Some(cur as int),
                forall|j: nat|
                    j < k ==> !(#[trigger] ancestor(v, xi, j) matches Some(y) && v[y].parent
                        == Some(a)),
            decreases self.ranks@[cur as int],
        {
            proof {
                lemma_ancestor_step(v, xi, k);
            }
            match self.nodes[cur].parent {
                Some(p) => {
                    assert(v[cur as int].parent == Some(p));
                    if p == a {
                        proof {
                            assert(is_child_toward(v, xi, ai, k));
                            let c = choose|c: nat| is_child_toward(v, xi, ai, c);
                            assert(c == k) by {
                                if c < k {
                                    assert(!(ancestor(v, xi, c) matches Some(y) && v[y].parent
                                        == Some(a)));
                                } else if c > k {
                                    assert(!(ancestor(v, xi, k) matches Some(y) && v[y].parent
                                        == Some(a)));
                                }
                            }
                        }
                        return Some(cur);
                    }
                    proof {
                        lemma_parent_facts(v, self.ranks@, cur as int);
                        k = k + 1;
                    }
                    cur = p;
                },
                None => {
                    proof {
                        assert forall|c: nat| !is_child_toward(v, xi, ai, c) by {
                            if c > k {
                                lemma_ancestor_none(v, xi, k + 1, c);
                            } else if c < k {
                                assert(!(ancestor(v, xi, c) matches Some(y) && v[y].parent
                                    == Some(a)));
                            }
                        }
                    }
                    return None;
                },
            }
        }
    }

    /// The parent, grandparent and great-grandparent of `c`, as far as they
    /// exist, parent first.
    pub fn first_ancestors(&self, c: usize) -> (r: Vec<usize>)
        requires
            self.wf(),
            c < self@.len(),
        ensures
            r@ == first_ancestors(self@, c as int),
            forall|j: int| 0 <= j < r@.len() ==> (#[trigger] r@[j] as int) < self@.len(),
    {
        let ghost v = self@;
        let ghost ci = c as int;
        proof {
            lemma_ancestor_step(v, ci, 0);
            lemma_ancestor_step(v, ci, 1);
            lemma_ancestor_step(v, ci, 2);
        }
        let mut r: Vec<usize> = Vec::new();
        let p1 = match self.nodes[c].parent {
            Some(p) => p,
            None => {
                assert(r@ =~= first_ancestors(v, ci));
                return r;
            },
        };
        proof {
            lemma_parent_facts(v, self.ranks@, ci);
        }
        r.push(p1);
        let p2 = match self.nodes[p1].parent {
            Some(p) => p,
            None => {
                assert(r@ =~= first_ancestors(v, ci));
                return r;
            },
        };
        proof {
            lemma_parent_facts(v, self.ranks@, p1 as int);
        }
        r.push(p2);
        let p3 = match self.nodes[p2].parent {
            Some(p) => p,
            None => {
                assert(r@ =~= first_ancestors(v, ci));
                return r;
            },
        };
        proof {
            lemma_parent_facts(v, self.ranks@, p2 as int);
        }
        r.push(p3);
        assert(r@ =~= first_ancestors(v, ci));
        r
    }

    /// Moves a container to its ancestor `lowest_common_ancestor` (the
    /// common ancestor of the container and its new parent), at
    /// `target_index`: the container is detached, attached there, and takes
    /// the focus position that its ancestor under the common ancestor had.
    /// Returns whether the moved container has focus afterwards.
    ///
    /// Fails, changing nothing, when the common ancestor is not a strict
    /// ancestor of the container, or when detaching fails.
    pub fn move_to_lowest_common_ancestor(
        &mut self,
        container_to_move: usize,
        lowest_common_ancestor: usize,
        target_index: usize,
    ) -> (r: Result<bool, WmError>)
        requires
            old(self).wf(),
            container_to_move < old(self)@.len(),
            lowest_common_ancestor < old(self)@.len(),
        ensures
            final(self).wf(),
            match r {
                Ok(focused) => spec_move_to_lca(
                    old(self)@,
                    container_to_move as int,
                    lowest_common_ancestor as int,
                    target_index,
                ) == Ok::<(Seq<NodeView>, bool), WmError>((final(self)@, focused)),
                Err(e) => spec_move_to_lca(
                    old(self)@,
                    container_to_move as int,
                    lowest_common_ancestor as int,
                    target_index,
                ) == Err::<(Seq<NodeView>, bool), WmError>(e) && final(self)@ == old(self)@,
            },
    {
        let c = container_to_move;
        let lca = lowest_common_ancestor;
        let ghost v = self@;
        let ghost r0 = self.ranks@;
        // Keep the focus index of the container's ancestor in the common
        // ancestor's child focus order.
        let anc = match self.child_toward(c, lca) {
            Some(a) => a,
            None => {
                return Err(WmError::NoAncestorUnderCommon);
            },
        };
        proof {
            lemma_child_toward(v, r0, c as int, lca as int);
        }
        let former_focus_index = self.focus_index(anc);
        match self.detach_container(c) {
            Ok(()) => {},
            Err(e) => {
                return Err(e);
            },
        }
        proof {
            lemma_detach_parents(v, r0, c as int);
            let v1 = self@;
            if reaches(v1, lca as int, c as int) {
                lemma_reaches_fewer_parents(v, v1, lca as int, c as int);
                lemma_reaches_rank(v, r0, lca as int, c as int);
            }
        }
        match self.attach_container(c, lca, Some(target_index)) {
            Ok(()) => {},
            Err(e) => {
                proof {
                    assert(false);
                }
                return Err(e);
            },
        }
        self.shift_focus(lca, former_focus_index, c);
        let focused = self.has_focus(c, None);
        Ok(focused)
    }

    /// Moves a container to a new location in the tree: it is detached from
    /// its current parent and attached to `target_parent` at `target_index`.
    /// Returns whether the moved container has focus afterwards.
    ///
    /// Where the container already is a child of the target parent, it is
    /// only shifted to the target index. Where the target parent is the
    /// lowest common ancestor of the two, see
    /// `move_to_lowest_common_ancestor`. Otherwise the container becomes the
    /// focused descendant of the target subtree when its own subtree was
    /// focused more recently, and redundant split containers under its
    /// former parent, grandparent and great-grandparent are flattened.
    ///
    /// Fails, changing nothing, when the two have no common ancestor, when
    /// the container has no parent, when the target lies inside the
    /// container's subtree, or when detaching fails.
    pub fn move_container_within_tree(
        &mut self,
        container_to_move: usize,
        target_parent: usize,
        target_index: usize,
    ) -> (r: Result<bool, WmError>)
        requires
            old(self).wf(),
            container_to_move < old(self)@.len(),
            target_parent < old(self)@.len(),
        ensures
            final(self).wf(),
            match r {
                Ok(focused) => spec_move_container_within_tree(
                    old(self)@,
                    container_to_move as int,
                    target_parent as int,
                    target_index,
                ) == Ok::<(Seq<NodeView>, bool), WmError>((final(self)@, focused)),
                Err(e) => spec_move_container_within_tree(
                    old(self)@,
                    container_to_move as int,
                    target_parent as int,
                    target_index,
                ) == Err::<(Seq<NodeView>, bool), WmError>(e) && final(self)@ == old(self)@,
            },
    {
        let c = container_to_move;
        let tp = target_parent;
        let ghost v = self@;
        let ghost r0 = self.ranks@;
        // The parent, grandparent, and great-grandparent.
        let ancestors = self.first_ancestors(c);
        let lca = match self.lowest_common_ancestor(c, tp) {
            Some(l) => l,
            None => {
                return Err(WmError::NoCommonAncestor);
            },
        };
        let p = match self.nodes[c].parent {
            Some(p) => p,
            None => {
                return Err(WmError::NoParent);
            },
        };
        assert(v[c as int].parent == Some(p));
        // Already a child of the target parent: shift it to the target index.
        if p == tp {
            self.shift_child(tp, target_index, c);
            let focused = self.has_focus(c, None);
            return Ok(focused);
        }
        // The target parent is the common ancestor.
        if tp == lca {
            return self.move_to_lowest_common_ancestor(c, lca, target_index);
        }
        self.move_across(c, tp, lca, target_index, &ancestors)
    }

    /// `move_container_within_tree` where the target parent is neither the
    /// container's parent nor the common ancestor `lca` of the two.
    fn move_across(
        &mut self,
        c: usize,
        tp: usize,
        lca: usize,
        target_index: usize,
        ancestors: &Vec<usize>,
    ) -> (r: Result<bool, WmError>)
        requires
            old(self).wf(),
            c < old(self)@.len(),
            tp < old(self)@.len(),
            lca < old(self)@.len(),
            spec_lca(old(self)@, c as int, tp as int) == Some(lca as int),
            forall|j: int|
                0 <= j < ancestors@.len() ==> (#[trigger] ancestors@[j] as int) < old(self)@.len(),
        ensures
            final(self).wf(),
            match r {
                Ok(focused) => spec_move_across(
                    old(self)@,
                    c as int,
                    tp as int,
                    lca as int,
                    target_index,
                    ancestors@,
                ) == Ok::<(Seq<NodeView>, bool), WmError>((final(self)@, focused)),
                Err(e) => spec_move_across(
                    old(self)@,
                    c as int,
                    tp as int,
                    lca as int,
                    target_index,
                    ancestors@,
                ) == Err::<(Seq<NodeView>, bool), WmError>(e) && final(self)@ == old(self)@,
            },
    {
        let ghost v = self@;
        let ghost r0 = self.ranks@;
        proof {
            if reaches(v, tp as int, c as int) {
                lemma_lca_self(v, c as int, tp as int);
                lemma_no_child_toward_self(v, r0, c as int);
            }
        }
        // The ancestors of the container and of the target parent that are
        // children of the common ancestor.
        let c_anc = match self.child_toward(c, lca) {
            Some(a) => a,
            None => {
                return Err(WmError::NoAncestorUnderCommon);
            },
        };
        let tp_anc = match self.child_toward(tp, lca) {
            Some(a) => a,
            None => {
                return Err(WmError::NoAncestorUnderCommon);
            },
        };
        proof {
            lemma_child_toward(v, r0, c as int, lca as int);
            lemma_child_toward(v, r0, tp as int, lca as int);
        }
        // Whether the container is the focused descendant of its subtree
        // under the common ancestor, and whether that subtree was focused
        // more recently than the target's.
        let is_focused_descendant = c == c_anc || self.has_focus(c, Some(c_anc));
        let former_focus_index = self.focus_index(c_anc);
        let is_subtree_focused = former_focus_index < self.focus_index(tp_anc);
        self.relocate(
            c,
            tp,
            lca,
            tp_anc,
            is_focused_descendant && is_subtree_focused,
            former_focus_index,
            is_subtree_focused,
            target_index,
            ancestors,
        )
    }

    /// Detaches `c`, attaches it to `tp` at `target_index`, makes it the
    /// focused descendant of `tp`'s subtree under `lca` (rooted at `tp_anc`)
    /// where `focus_subtree` holds, moves `tp_anc` to position `focus_index`
    /// of `lca`'s focus order where `take_place` holds, and flattens
    /// redundant split containers under each of `ancestors`, last first.
    fn relocate(
        &mut self,
        c: usize,
        tp: usize,
        lca: usize,
        tp_anc: usize,
        take_place: bool,
        focus_index: usize,
        focus_subtree: bool,
        target_index: usize,
        ancestors: &Vec<usize>,
    ) -> (r: Result<bool, WmError>)
        requires
            old(self).wf(),
            c < old(self)@.len(),
            tp < old(self)@.len(),
            lca < old(self)@.len(),
            !reaches(old(self)@, tp as int, c as int),
            forall|j: int|
                0 <= j < ancestors@.len() ==> (#[trigger] ancestors@[j] as int) < old(self)@.len(),
        ensures
            final(self).wf(),
            match r {
                Ok(focused) => spec_relocate(
                    old(self)@,
                    c as int,
                    tp as int,
                    lca as int,
                    tp_anc as int,
                    take_place,
                    focus_index as int,
                    focus_subtree,
                    target_index,
                    ancestors@,
                ) == Ok::<(Seq<NodeView>, bool), WmError>((final(self)@, focused)),
                Err(e) => spec_relocate(
                    old(self)@,
                    c as int,
                    tp as int,
                    lca as int,
                    tp_anc as int,
                    take_place,
                    focus_index as int,
                    focus_subtree,
                    target_index,
                    ancestors@,
                ) == Err::<(Seq<NodeView>, bool), WmError>(e) && final(self)@ == old(self)@,
            },
    {
        let ghost v = self@;
        let ghost r0 = self.ranks@;
        match self.detach_container(c) {
            Ok(()) => {},
            Err(e) => {
                return Err(e);
            },
        }
        proof {
            lemma_detach_parents(v, r0, c as int);
            let v1 = self@;
            if reaches(v1, tp as int, c as int) {
                lemma_reaches_fewer_parents(v, v1, tp as int, c as int);
            }
        }
        match self.attach_container(c, tp, Some(target_index)) {
            Ok(()) => {},
            Err(e) => {
                proof {
                    assert(false);
                }
                return Err(e);
            },
        }
        // The container becomes the focused descendant in the target subtree
        // where its own subtree was focused more recently.
        if focus_subtree {
            self.set_focused_descendant(c, Some(tp_anc));
        }
        // Where the focused descendant moved to the target subtree, the
        // target's ancestor takes the moved container's former place in the
        // common ancestor's focus order.
        if take_place {
            self.shift_focus(lca, focus_index, tp_anc);
        }
        // After moving, flatten any redundant split containers.
        self.flatten_under_ancestors(ancestors);
        let focused = self.has_focus(c, None);
        Ok(focused)
    }

    /// Flattens redundant split containers under each of `ancestors`, last
    /// first.
    fn flatten_under_ancestors(&mut self, ancestors: &Vec<usize>)
        requires
            old(self).wf(),
            forall|j: int|
                0 <= j < ancestors@.len() ==> (#[trigger] ancestors@[j] as int) < old(self)@.len(),
        ensures
            final(self).wf(),
            final(self)@ == flatten_under_each_rev(old(self)@, ancestors@),
            final(self)@.len() == old(self)@.len(),
    {
        let ghost v = self@;
        let mut i = ancestors.len();
        assert(ancestors@.take(i as int) =~= ancestors@);
        while i > 0
            invariant
                self.wf(),
                self@.len() == v.len(),
                i <= ancestors@.len(),
                forall|j: int|
                    0 <= j < ancestors@.len() ==> (#[trigger] ancestors@[j] as int) < v.len(),
                flatten_under_each_rev(self@, ancestors@.take(i as int)) == flatten_under_each_rev(
                    v,
                    ancestors@,
                ),
            decreases i,
        {
            let a = ancestors[i - 1];
            self.flatten_child_split_containers(a);
            proof {
                let t = ancestors@.take(i as int);
                assert(t.drop_last() =~= ancestors@.take(i - 1));
                assert(t.last() == a);
            }
            i = i - 1;
        }
        proof {
            assert(ancestors@.take(ancestors@.len() as int) =~= ancestors@);
        }
    }
}

impl Default for ContainerTree {
    /// A tree holding only a root container.
    fn default() -> (t: Self)
        ensures
            t.wf(),
            t@.len() == 1,
            t@[0].kind is Root,
            t@[0].parent is None,
            t@[0].children.len() == 0,
            t@[0].focus.len() == 0,
    {
        ContainerTree::new()
    }
}

} // verus!
