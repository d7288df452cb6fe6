use crate::monitor::NativeMonitorProperties;
use crate::seq_util::{
    first_pos, keep_only, lemma_concat3_contains, lemma_concat3_no_dup, lemma_first_pos,
    lemma_insert_contains, lemma_insert_no_dup, lemma_keep_only_contains, lemma_take_skip_contains,
    lemma_take_skip_no_dup, lemma_take_skip_same_contains, lemma_without_all_contains,
    lemma_without_all_no_dup, lemma_without_contains, without, without_all,
};
use crate::vec_deque_ext::{clamp_index, spec_shift_to_index};
use vstd::prelude::*;

verus! {

/// The direction in which a container lays out its tiling children.
#[derive(PartialEq, Eq, Structural, Clone, Copy, Debug)]
pub enum TilingDirection {
    Horizontal,
    Vertical,
}

/// What a container in the tree is.
#[derive(Debug, Clone, PartialEq, Eq)]
pub enum ContainerKind {
    Root,
    Monitor(NativeMonitorProperties),
    Workspace(TilingDirection),
    Split(TilingDirection),
    TilingWindow,
    NonTilingWindow,
}

/// The mathematical model of one container: its identity, kind, parent
/// handle, children (in layout order) and child focus order (most recently
/// focused first).
pub struct NodeView {
    pub id: u128,
    pub kind: ContainerKind,
    pub parent: Option<usize>,
    pub children: Seq<usize>,
    pub focus: Seq<usize>,
}

/// Split containers.
pub open spec fn is_split_kind(k: ContainerKind) -> bool {
    k is Split
}

/// Tiling containers: split containers and tiling windows.
pub open spec fn is_tiling_kind(k: ContainerKind) -> bool {
    k is Split || k is TilingWindow
}

/// Direction containers: workspaces and split containers.
pub open spec fn is_direction_kind(k: ContainerKind) -> bool {
    k is Split || k is Workspace
}

/// `n` with parent `p`.
pub open spec fn with_parent(n: NodeView, p: Option<usize>) -> NodeView {
    NodeView { id: n.id, kind: n.kind, parent: p, children: n.children, focus: n.focus }
}

/// `n` with children `c`.
pub open spec fn with_children(n: NodeView, c: Seq<usize>) -> NodeView {
    NodeView { id: n.id, kind: n.kind, parent: n.parent, children: c, focus: n.focus }
}

/// `n` with focus order `f`.
pub open spec fn with_focus(n: NodeView, f: Seq<usize>) -> NodeView {
    NodeView { id: n.id, kind: n.kind, parent: n.parent, children: n.children, focus: f }
}

/// The links of the tree agree: a container's parent lists it among its
/// children, each child names its parent, no child is listed twice, every
/// child is in the child focus order, and every handle is in range.
pub open spec fn links_ok(v: Seq<NodeView>) -> bool {
    &&& v.len() <= usize::MAX
    &&& forall|i: int|
        0 <= i < v.len() && #[trigger] v[i].parent is Some ==> {
            let p = v[i].parent->0 as int;
            0 <= p < v.len() && v[p].children.contains(i as usize)
        }
    &&& forall|p: int, k: int|
        0 <= p < v.len() && 0 <= k < v[p].children.len() ==> {
            let c = #[trigger] v[p].children[k];
            (c as int) < v.len() && v[c as int].parent == Some(p as usize)
        }
    &&& forall|p: int| 0 <= p < v.len() ==> (#[trigger] v[p].children).no_duplicates()
    &&& forall|p: int, x: usize|
        0 <= p < v.len() && #[trigger] v[p].children.contains(x) ==> v[p].focus.contains(x)
    &&& forall|p: int, k: int|
        0 <= p < v.len() && 0 <= k < v[p].focus.len() ==> (#[trigger] v[p].focus[k] as int)
            < v.len()
}

/// `r` ranks the containers so that a parent always ranks below its
/// children: following parents always ends.
pub open spec fn ranked(v: Seq<NodeView>, r: Seq<nat>) -> bool {
    &&& r.len() == v.len()
    &&& forall|i: int|
        0 <= i < v.len() && #[trigger] v[i].parent is Some ==> r[v[i].parent->0 as int] < r[i]
}

/// A well-formed container tree (a forest: detached containers are roots).
pub open spec fn tree_wf(v: Seq<NodeView>) -> bool {
    links_ok(v) && exists|r: Seq<nat>| ranked(v, r)
}

/// The `k`-th ancestor of `x` (`x` itself for `k == 0`).
pub open spec fn ancestor(v: Seq<NodeView>, x: int, k: nat) -> Option<int>
    decreases k,
{
    if k == 0 {
        Some(x)
    } else if 0 <= x < v.len() {
        match v[x].parent {
            Some(p) => ancestor(v, p as int, (k - 1) as nat),
            None => None,
        }
    } else {
        None
    }
}

/// The parent of `x` as an optional index.
pub open spec fn parent_of(v: Seq<NodeView>, x: Option<int>) -> Option<int> {
    match x {
        Some(y) => if 0 <= y < v.len() {
            match v[y].parent {
                Some(p) => Some(p as int),
                None => None,
            }
        } else {
            None
        },
        None => None,
    }
}

/// `a` is `x` or one of its ancestors.
pub open spec fn reaches(v: Seq<NodeView>, x: int, a: int) -> bool {
    exists|k: nat| ancestor(v, x, k) == Some(a)
}

/// The position of `k`, at which `a` has an ancestor that `b` reaches, is
/// the lowest such.
pub open spec fn lca_depth(v: Seq<NodeView>, a: int, b: int, k: nat) -> bool {
    &&& ancestor(v, a, k) matches Some(y) && reaches(v, b, y)
    &&& forall|j: nat|
        j < k ==> !(#[trigger] ancestor(v, a, j) matches Some(y) && reaches(v, b, y))
}

/// The lowest container in the tree that has both `a` and `b` as
/// descendants (or is one of them).
pub open spec fn spec_lca(v: Seq<NodeView>, a: int, b: int) -> Option<int> {
    if exists|k: nat| lca_depth(v, a, b, k) {
        ancestor(v, a, choose|k: nat| lca_depth(v, a, b, k))
    } else {
        None
    }
}

/// Position of a container in its parent's focus order (0 without parent).
pub open spec fn focus_index_in_parent(v: Seq<NodeView>, x: int) -> int {
    match v[x].parent {
        Some(p) => first_pos(v[p as int].focus, x as usize),
        None => 0,
    }
}

// ---------------------------------------------------------------------------
// Attaching
// ---------------------------------------------------------------------------
/// The tree after attaching the detached container `c` to `p` at `index`
/// (clamped to the number of children), or at the end: `c` goes last in
/// `p`'s focus order and names `p` as its parent.
pub open spec fn spec_attach(v: Seq<NodeView>, c: int, p: int, index: Option<usize>) -> Seq<
    NodeView,
> {
    let pn = v[p];
    let kids = match index {
        Some(i) => pn.children.insert(clamp_index(i as int, pn.children.len() as int), c as usize),
        None => pn.children.push(c as usize),
    };
    let v1 = v.update(p, with_focus(with_children(pn, kids), pn.focus.push(c as usize)));
    v1.update(c, with_parent(v1[c], Some(p as usize)))
}

// ---------------------------------------------------------------------------
// Flattening
// ---------------------------------------------------------------------------
/// The tree after moving the children of split container `s` into its
/// parent `g` at the split's position, the split's focus order into `g`'s at
/// the split's focus position, and removing the split from `g`; the split
/// ends without parent and without children.
pub open spec fn spec_flatten(v: Seq<NodeView>, s: int) -> Seq<NodeView> {
    let g = v[s].parent->0 as int;
    let gn = v[g];
    let sn = v[s];
    let i = first_pos(gn.children, s as usize);
    let fi = first_pos(gn.focus, s as usize);
    let kids = gn.children.take(i) + sn.children + gn.children.skip(i + 1);
    let focus = without(gn.focus.take(fi) + sn.focus + gn.focus.skip(fi), s as usize);
    Seq::new(
        v.len(),
        |x: int|
            if x == g {
                with_focus(with_children(gn, kids), focus)
            } else if x == s {
                with_children(with_parent(sn, None), Seq::empty())
            } else if sn.children.contains(x as usize) {
                with_parent(v[x], Some(g as usize))
            } else {
                v[x]
            },
    )
}

// ---------------------------------------------------------------------------
// Detaching
// ---------------------------------------------------------------------------
/// Whether `c`'s parent is a split container that `c` would leave empty.
pub open spec fn parent_is_sole_split(v: Seq<NodeView>, c: int) -> bool {
    v[c].parent matches Some(p) && is_split_kind(v[p as int].kind) && v[p as int].children.len()
        == 1
}

/// Detaching fails when `c` has no parent, or when its parent is a split
/// container that would be left empty and has no parent itself.
pub open spec fn detach_fails(v: Seq<NodeView>, c: int) -> bool {
    ||| v[c].parent is None
    ||| (parent_is_sole_split(v, c) && v[v[c].parent->0 as int].parent is None)
}

/// The tree after removing `c` from its parent `p`'s children and focus
/// order and clearing its parent.
pub open spec fn spec_remove_child(v: Seq<NodeView>, p: int, c: int) -> Seq<NodeView> {
    let pn = v[p];
    let v1 = v.update(
        p,
        with_focus(
            with_children(pn, without(pn.children, c as usize)),
            without(pn.focus, c as usize),
        ),
    );
    v1.update(c, with_parent(v1[c], None))
}

/// The tree after detaching `c`: a split parent that `c` would leave empty
/// is flattened first, then `c` leaves its (possibly new) parent.
pub open spec fn spec_detach(v: Seq<NodeView>, c: int) -> Seq<NodeView> {
    let v1 = if parent_is_sole_split(v, c) {
        spec_flatten(v, v[c].parent->0 as int)
    } else {
        v
    };
    spec_remove_child(v1, v1[c].parent->0 as int, c)
}

// ---------------------------------------------------------------------------
// Wrapping
// ---------------------------------------------------------------------------
/// The smallest position that one of `targets` has in `s`.
pub open spec fn min_first_pos(s: Seq<usize>, targets: Seq<usize>) -> int
    decreases targets.len(),
{
    if targets.len() <= 1 {
        first_pos(s, targets[0])
    } else {
        let rest = min_first_pos(s, targets.drop_last());
        let here = first_pos(s, targets.last());
        if here < rest {
            here
        } else {
            rest
        }
    }
}

/// The tree after wrapping `targets`, children of `tp`, in the detached,
/// childless split `n`: `n` takes the place of the first of them in `tp`'s
/// children and focus order, they leave `tp` and become `n`'s children in
/// the given order, and `n`'s focus order is theirs as it stood in `tp`.
pub open spec fn spec_wrap(v: Seq<NodeView>, n: int, tp: int, targets: Seq<usize>) -> Seq<
    NodeView,
> {
    let tn = v[tp];
    let kids1 = tn.children.insert(min_first_pos(tn.children, targets), n as usize);
    let focus1 = tn.focus.insert(min_first_pos(tn.focus, targets), n as usize);
    Seq::new(
        v.len(),
        |x: int|
            if x == tp {
                with_focus(
                    with_children(tn, without_all(kids1, targets)),
                    without_all(focus1, targets),
                )
            } else if x == n {
                with_focus(
                    with_children(with_parent(v[n], Some(tp as usize)), targets),
                    keep_only(focus1, targets),
                )
            } else if targets.contains(x as usize) {
                with_parent(v[x], Some(n as usize))
            } else {
                v[x]
            },
    )
}

// ---------------------------------------------------------------------------
// Focus
// ---------------------------------------------------------------------------
/// The `k`-th ancestor of `c` is one whose focus order
/// `set_focused_descendant(c, end)` updates: it exists, `k >= 1`, and no
/// ancestor strictly between it and `c` is `end`.
pub open spec fn on_focus_path(v: Seq<NodeView>, c: int, end: Option<usize>, k: nat) -> bool {
    &&& k >= 1
    &&& ancestor(v, c, k) is Some
    &&& forall|j: nat| 1 <= j < k ==> !#[trigger] is_end(v, c, end, j)
}

/// The `i`-th ancestor of `c` is `end`.
pub open spec fn is_end(v: Seq<NodeView>, c: int, end: Option<usize>, i: nat) -> bool {
    ancestor(v, c, i) matches Some(a) && end == Some(a as usize)
}

/// None of the first `k + 1` containers from `c` upwards (`c` included) is
/// `end`.
pub open spec fn before_end(v: Seq<NodeView>, c: int, end: Option<usize>, k: nat) -> bool {
    forall|i: nat| i <= k ==> !#[trigger] is_end(v, c, end, i)
}

/// `x` comes first in its parent's focus order (or has no parent).
pub open spec fn first_in_parent(v: Seq<NodeView>, x: int) -> bool {
    v[x].parent matches Some(p) ==> first_pos(v[p as int].focus, x as usize) == 0
}

/// The tree after making `c` the focused descendant of each of its
/// ancestors up to (and including) `end`, or up to the root: each such
/// ancestor moves the child on the path to `c` to the front of its focus
/// order.
pub open spec fn spec_set_focused_descendant(v: Seq<NodeView>, c: int, end: Option<usize>) -> Seq<
    NodeView,
> {
    Seq::new(
        v.len(),
        |x: int|
            if exists|k: nat| on_focus_path(v, c, end, k) && ancestor(v, c, k) == Some(x) {
                let k = choose|k: nat| on_focus_path(v, c, end, k) && ancestor(v, c, k) == Some(x);
                with_focus(
                    v[x],
                    spec_shift_to_index(v[x].focus, 0, ancestor(v, c, (k - 1) as nat)->0 as usize),
                )
            } else {
                v[x]
            },
    )
}

/// Whether `c` is the focused descendant of each of its ancestors up to (not
/// including) `end`, or up to the root: every container on that path comes
/// first in its parent's focus order.
pub open spec fn spec_has_focus(v: Seq<NodeView>, c: int, end: Option<usize>) -> bool {
    forall|k: nat|
        #[trigger] ancestor(v, c, k) is Some && before_end(v, c, end, k) ==> first_in_parent(
            v,
            ancestor(v, c, k)->0,
        )
}

} // verus!

verus! {

// ---------------------------------------------------------------------------
// Facts about ancestors
// ---------------------------------------------------------------------------
/// One more step up is the parent of the `k`-th ancestor.
pub proof fn lemma_ancestor_step(v: Seq<NodeView>, x: int, k: nat)
    ensures
        ancestor(v, x, k + 1) == parent_of(v, ancestor(v, x, k)),
    decreases k,
{
    reveal_with_fuel(ancestor, 2);
    if k > 0 && 0 <= x < v.len() {
        if let Some(p) = v[x].parent {
            lemma_ancestor_step(v, p as int, (k - 1) as nat);
        }
    }
}

/// Once there is no ancestor, there is none further up.
pub proof fn lemma_ancestor_none(v: Seq<NodeView>, x: int, k: nat, j: nat)
    requires
        ancestor(v, x, k) is None,
        k <= j,
    ensures
        ancestor(v, x, j) is None,
    decreases j - k,
{
    if k < j {
        lemma_ancestor_step(v, x, k);
        lemma_ancestor_none(v, x, k + 1, j);
    }
}

/// Ranks fall strictly along the ancestors of a container.
pub proof fn lemma_ancestor_rank(v: Seq<NodeView>, r: Seq<nat>, x: int, j: nat, k: nat)
    requires
        links_ok(v),
        ranked(v, r),
        0 <= x < v.len(),
        j < k,
        ancestor(v, x, k) is Some,
    ensures
        ancestor(v, x, j) is Some,
        0 <= ancestor(v, x, j)->0 < v.len(),
        0 <= ancestor(v, x, k)->0 < v.len(),
        r[ancestor(v, x, k)->0] < r[ancestor(v, x, j)->0],
    decreases k,
{
    lemma_ancestor_in_range(v, r, x, k);
    if j + 1 == k {
        lemma_ancestor_step(v, x, j);
        if ancestor(v, x, j) is None {
        }
    } else {
        lemma_ancestor_step(v, x, (k - 1) as nat);
        if ancestor(v, x, (k - 1) as nat) is None {
        }
        lemma_ancestor_rank(v, r, x, j, (k - 1) as nat);
    }
}

/// Ancestors of a container in range are in range.
pub proof fn lemma_ancestor_in_range(v: Seq<NodeView>, r: Seq<nat>, x: int, k: nat)
    requires
        links_ok(v),
        0 <= x < v.len(),
        ancestor(v, x, k) is Some,
    ensures
        0 <= ancestor(v, x, k)->0 < v.len(),
    decreases k,
{
    if k > 0 {
        let p = v[x].parent->0 as int;
        lemma_ancestor_in_range(v, r, p, (k - 1) as nat);
    }
}

/// `a` is reached from `x` either as `x` itself or from `x`'s parent.
pub proof fn lemma_reaches_unfold(v: Seq<NodeView>, x: int, a: int)
    requires
        0 <= x < v.len(),
    ensures
        reaches(v, x, a) <==> (x == a || (v[x].parent matches Some(p) && reaches(v, p as int, a))),
{
    if reaches(v, x, a) && x != a {
        let k = choose|k: nat| ancestor(v, x, k) == Some(a);
        assert(k != 0);
        let p = v[x].parent->0;
        assert(ancestor(v, p as int, (k - 1) as nat) == Some(a));
    }
    if x != a && v[x].parent is Some {
        let p = v[x].parent->0;
        if reaches(v, p as int, a) {
            let k = choose|k: nat| ancestor(v, p as int, k) == Some(a);
            assert(ancestor(v, x, k + 1) == Some(a));
        }
    }
    if x == a {
        assert(ancestor(v, x, 0) == Some(a));
    }
}

/// A tree whose parents are those of another tree or none reaches no
/// container that the other does not.
pub proof fn lemma_ancestor_fewer_parents(v: Seq<NodeView>, w: Seq<NodeView>, x: int, k: nat)
    requires
        w.len() == v.len(),
        forall|i: int| 0 <= i < v.len() ==> #[trigger] w[i].parent == v[i].parent || w[i].parent is None,
        ancestor(w, x, k) is Some,
    ensures
        ancestor(v, x, k) == ancestor(w, x, k),
    decreases k,
{
    if k > 0 {
        let p = w[x].parent->0;
        lemma_ancestor_fewer_parents(v, w, p as int, (k - 1) as nat);
    }
}

} // verus!

verus! {

/// Ranks after attaching `c` to `tp`: `c`'s subtree moves above `tp`.
pub open spec fn attach_ranks(v: Seq<NodeView>, r: Seq<nat>, c: int, tp: int) -> Seq<nat> {
    let bump: nat = if r[tp] + 1 > r[c] {
        (r[tp] + 1 - r[c]) as nat
    } else {
        0
    };
    Seq::new(
        r.len(),
        |x: int|
            if reaches(v, x, c) {
                r[x] + bump
            } else {
                r[x]
            },
    )
}

/// Attaching a detached container outside its own subtree keeps the tree
/// well formed.
pub proof fn lemma_attach_wf(v: Seq<NodeView>, r: Seq<nat>, c: int, tp: int, target_index: Option<usize>)
    requires
        links_ok(v),
        ranked(v, r),
        0 <= c < v.len(),
        0 <= tp < v.len(),
        v[c].parent is None,
        !reaches(v, tp, c),
    ensures
        links_ok(spec_attach(v, c, tp, target_index)),
        ranked(spec_attach(v, c, tp, target_index), attach_ranks(v, r, c, tp)),
{
    let w = spec_attach(v, c, tp, target_index);
    let child = c as usize;
    assert(c != tp) by {
        assert(ancestor(v, tp, 0) == Some(tp));
    }
    let pn = v[tp];
    let expected_kids = match target_index {
        Some(i) => pn.children.insert(clamp_index(i as int, pn.children.len() as int), c as usize),
        None => pn.children.push(c as usize),
    };
    assert(w[tp].children == expected_kids);
    assert(w[tp].focus == pn.focus.push(child));
    assert(w[c].parent == Some(tp as usize));
    assert forall|x: int| 0 <= x < v.len() && x != c && x != tp implies #[trigger] w[x] == v[x] by {}
    assert(w[c].children == v[c].children && w[c].focus == v[c].focus);
    assert(w[tp].parent == v[tp].parent);
            // The child is in no list of children, since it has no parent.
            assert forall|p: int| 0 <= p < v.len() implies !(#[trigger] v[p].children).contains(
                child,
            ) by {
                if v[p].children.contains(child) {
                    let k = choose|k: int| 0 <= k < v[p].children.len() && v[p].children[k] == child;
                    assert(v[v[p].children[k] as int].parent == Some(p as usize));
                }
            }
            assert(expected_kids.contains(child)) by {
                match target_index {
                    Some(i) => {
                        let j = clamp_index(i as int, pn.children.len() as int);
                        assert(expected_kids[j] == child);
                    },
                    None => {
                        assert(expected_kids[pn.children.len() as int] == child);
                    },
                }
            }
            assert forall|y: usize| #[trigger] expected_kids.contains(y) implies y == child
                || pn.children.contains(y) by {
                if expected_kids.contains(y) {
                    let k = choose|k: int| 0 <= k < expected_kids.len() && expected_kids[k] == y;
                    match target_index {
                        Some(i) => {
                            let j = clamp_index(i as int, pn.children.len() as int);
                            if k < j {
                                assert(pn.children[k] == y);
                            } else if k > j {
                                assert(pn.children[k - 1] == y);
                            }
                        },
                        None => {
                            if k < pn.children.len() {
                                assert(pn.children[k] == y);
                            }
                        },
                    }
                }
            }
            assert forall|y: usize| #[trigger] pn.children.contains(y) implies expected_kids.contains(y)
                by {
                if pn.children.contains(y) {
                    let k = choose|k: int| 0 <= k < pn.children.len() && pn.children[k] == y;
                    match target_index {
                        Some(i) => {
                            let j = clamp_index(i as int, pn.children.len() as int);
                            if k < j {
                                assert(expected_kids[k] == y);
                            } else {
                                assert(expected_kids[k + 1] == y);
                            }
                        },
                        None => {
                            assert(expected_kids[k] == y);
                        },
                    }
                }
            }
            // Links.
            assert forall|i: int| 0 <= i < w.len() && #[trigger] w[i].parent is Some implies {
                let p = w[i].parent->0 as int;
                0 <= p < w.len() && w[p].children.contains(i as usize)
            } by {
                if i != c && i != tp {
                    assert(v[i].parent is Some);
                    let p = v[i].parent->0 as int;
                    assert(v[p].children.contains(i as usize));
                } else if i == tp {
                    assert(v[i].parent is Some);
                    let p = v[i].parent->0 as int;
                    assert(v[p].children.contains(i as usize));
                }
            }
            assert forall|p: int, k: int| 0 <= p < w.len() && 0 <= k < w[p].children.len() implies {
                let x = #[trigger] w[p].children[k];
                (x as int) < w.len() && w[x as int].parent == Some(p as usize)
            } by {
                let x = w[p].children[k];
                if p == tp {
                    assert(expected_kids.contains(x));
                    if x != child {
                        assert(pn.children.contains(x));
                        let m = choose|m: int| 0 <= m < pn.children.len() && pn.children[m] == x;
                        assert(v[pn.children[m] as int].parent == Some(tp as usize));
                    }
                } else {
                    assert(v[p].children[k] == x);
                    assert(x != child) by {
                        assert(v[p].children.contains(x));
                    }
                }
            }
            assert forall|p: int| 0 <= p < w.len() implies (#[trigger] w[p].children).no_duplicates() by {
                if p == tp {
                    assert(v[tp].children.no_duplicates());
                    assert forall|a: int, b: int|
                        0 <= a < expected_kids.len() && 0 <= b < expected_kids.len() && a != b
                            implies expected_kids[a] != expected_kids[b] by {
                        match target_index {
                            Some(i) => {
                                let j = clamp_index(i as int, pn.children.len() as int);
                                if a == j {
                                    assert(expected_kids[b] == pn.children[if b < j {
                                        b
                                    } else {
                                        b - 1
                                    }]);
                                } else if b == j {
                                    assert(expected_kids[a] == pn.children[if a < j {
                                        a
                                    } else {
                                        a - 1
                                    }]);
                                } else {
                                    assert(expected_kids[a] == pn.children[if a < j {
                                        a
                                    } else {
                                        a - 1
                                    }]);
                                    assert(expected_kids[b] == pn.children[if b < j {
                                        b
                                    } else {
                                        b - 1
                                    }]);
                                }
                            },
                            None => {
                                if a == pn.children.len() {
                                    assert(expected_kids[b] == pn.children[b]);
                                } else if b == pn.children.len() {
                                    assert(expected_kids[a] == pn.children[a]);
                                }
                            },
                        }
                    }
                }
            }
            assert forall|p: int, x: usize|
                0 <= p < w.len() && #[trigger] w[p].children.contains(x) implies w[p].focus.contains(
                x,
            ) by {
                if p == tp {
                    if x == child {
                        assert(w[p].focus[pn.focus.len() as int] == x);
                    } else {
                        assert(pn.children.contains(x));
                        assert(pn.focus.contains(x));
                        let m = choose|m: int| 0 <= m < pn.focus.len() && pn.focus[m] == x;
                        assert(w[p].focus[m] == x);
                    }
                } else {
                    assert(v[p].children.contains(x));
                }
            }
            assert forall|p: int, k: int| 0 <= p < w.len() && 0 <= k < w[p].focus.len() implies (
            #[trigger] w[p].focus[k] as int) < w.len() by {
                if p == tp && k < pn.focus.len() {
                    assert(w[p].focus[k] == pn.focus[k]);
                } else if p != tp {
                    assert(w[p].focus[k] == v[p].focus[k]);
                }
            }
            // Ranks: the child's subtree moves above the target's rank.
            assert(reaches(v, c, c)) by {
                assert(ancestor(v, c, 0) == Some(c));
            }
            assert forall|i: int| 0 <= i < w.len() && #[trigger] w[i].parent is Some implies attach_ranks(v, r, c, tp)[w[i].parent->0 as int] < attach_ranks(v, r, c, tp)[i] by {
                if i == c {
                } else {
                    assert(v[i].parent is Some);
                    let p = v[i].parent->0 as int;
                    lemma_reaches_unfold(v, i, c);
                    assert(r[p] < r[i]);
                }
            }
}

} // verus!

verus! {

/// A container's children all rank above it, and it is in none of its own
/// children's lists.
pub proof fn lemma_child_facts(v: Seq<NodeView>, r: Seq<nat>, p: int, y: usize)
    requires
        links_ok(v),
        ranked(v, r),
        0 <= p < v.len(),
        v[p].children.contains(y),
    ensures
        0 <= y < v.len(),
        v[y as int].parent == Some(p as usize),
        r[p] < r[y as int],
{
    let k = choose|k: int| 0 <= k < v[p].children.len() && v[p].children[k] == y;
    assert(v[v[p].children[k] as int].parent == Some(p as usize));
}

/// A container is among the children of whatever container it names as its
/// parent.
pub proof fn lemma_parent_facts(v: Seq<NodeView>, r: Seq<nat>, x: int)
    requires
        links_ok(v),
        ranked(v, r),
        0 <= x < v.len(),
        v[x].parent is Some,
    ensures
        0 <= v[x].parent->0 < v.len(),
        v[v[x].parent->0 as int].children.contains(x as usize),
        r[v[x].parent->0 as int] < r[x],
{
}

/// Flattening a split container that has a parent keeps the tree well
/// formed.
pub proof fn lemma_flatten_wf(v: Seq<NodeView>, r: Seq<nat>, s: int)
    requires
        links_ok(v),
        ranked(v, r),
        0 <= s < v.len(),
        v[s].parent is Some,
    ensures
        links_ok(spec_flatten(v, s)),
        ranked(spec_flatten(v, s), r),
{
    let w = spec_flatten(v, s);
    let g = v[s].parent->0 as int;
    let gn = v[g];
    let sn = v[s];
    lemma_parent_facts(v, r, s);
    let i = first_pos(gn.children, s as usize);
    let fi = first_pos(gn.focus, s as usize);
    lemma_first_pos(gn.children, s as usize);
    assert(gn.focus.contains(s as usize));
    lemma_first_pos(gn.focus, s as usize);
    let kids = gn.children.take(i) + sn.children + gn.children.skip(i + 1);
    let cat = gn.focus.take(fi) + sn.focus + gn.focus.skip(fi);
    let focus = without(cat, s as usize);
    assert(w[g].children == kids && w[g].focus == focus && w[g].parent == gn.parent);
    lemma_without_contains(cat, s as usize);
    lemma_take_skip_no_dup(gn.children, i);
    // Children of the split rank above it and are not in the parent's list.
    assert forall|y: usize| #[trigger] sn.children.contains(y) implies 0 <= y < v.len() && v[y as int].parent == Some(s as usize) && r[s] < r[y as int] && y as int != g && y as int != s && !gn.children.contains(y) by {
        lemma_child_facts(v, r, s, y);
        if gn.children.contains(y) {
            lemma_child_facts(v, r, g, y);
        }
    }
    assert forall|y: usize| #[trigger] kids.contains(y) <==> ((gn.children.contains(y) && y != s as usize) || sn.children.contains(y)) by {
        lemma_concat3_contains(gn.children.take(i), sn.children, gn.children.skip(i + 1), y);
        lemma_take_skip_contains(gn.children, i, y);
    }
    assert forall|y: usize| #[trigger] cat.contains(y) <==> (gn.focus.contains(y) || sn.focus.contains(y)) by {
        lemma_concat3_contains(gn.focus.take(fi), sn.focus, gn.focus.skip(fi), y);
        lemma_take_skip_same_contains(gn.focus, fi, y);
    }
    // Parent links.
    assert forall|x: int| 0 <= x < w.len() && #[trigger] w[x].parent is Some implies {
        let p = w[x].parent->0 as int;
        0 <= p < w.len() && w[p].children.contains(x as usize)
    } by {
        if x == g {
            lemma_parent_facts(v, r, g);
            let p = gn.parent->0 as int;
            if sn.children.contains(p as usize) {
                lemma_child_facts(v, r, s, p as usize);
            }
        } else if sn.children.contains(x as usize) {
        } else {
            lemma_parent_facts(v, r, x);
            let p = v[x].parent->0 as int;
            if p == s {
            } else if p == g {
                assert(gn.children.contains(x as usize));
            } else if sn.children.contains(p as usize) {
            }
        }
    }
    // Child links.
    assert forall|p: int, k: int| 0 <= p < w.len() && 0 <= k < w[p].children.len() implies {
        let y = #[trigger] w[p].children[k];
        (y as int) < w.len() && w[y as int].parent == Some(p as usize)
    } by {
        let y = w[p].children[k];
        assert(w[p].children.contains(y));
        if p == g {
            assert(kids.contains(y));
            if sn.children.contains(y) {
            } else {
                lemma_child_facts(v, r, g, y);
            }
        } else if p == s {
        } else {
            assert(w[p].children == v[p].children);
            lemma_child_facts(v, r, p, y);
            if sn.children.contains(y) {
                lemma_child_facts(v, r, s, y);
            }
            if sn.children.contains(p as usize) {
                lemma_child_facts(v, r, s, p as usize);
            }
        }
    }
    // No duplicates.
    assert forall|p: int| 0 <= p < w.len() implies (#[trigger] w[p].children).no_duplicates() by {
        if p == g {
            assert forall|y: usize| gn.children.take(i).contains(y) implies !sn.children.contains(y) && !gn.children.skip(i + 1).contains(y) by {
                lemma_take_skip_contains(gn.children, i, y);
            }
            assert forall|y: usize| sn.children.contains(y) implies !gn.children.skip(i + 1).contains(y) by {
                lemma_take_skip_contains(gn.children, i, y);
            }
            lemma_concat3_no_dup(gn.children.take(i), sn.children, gn.children.skip(i + 1));
        } else if p == s {
            assert(w[p].children.len() == 0);
        } else {
            assert(w[p].children == v[p].children);
        }
    }
    // Children are in the focus order.
    assert forall|p: int, x: usize| 0 <= p < w.len() && #[trigger] w[p].children.contains(x) implies w[p].focus.contains(x) by {
        if p == g {
            assert(kids.contains(x));
            if sn.children.contains(x) {
                assert(sn.focus.contains(x));
            } else {
                assert(gn.focus.contains(x));
            }
            assert(cat.contains(x));
        } else if p == s {
            assert(w[p].children.len() == 0);
        } else {
            assert(w[p].children == v[p].children && w[p].focus == v[p].focus);
        }
    }
    // Focus entries are handles.
    assert forall|p: int, k: int| 0 <= p < w.len() && 0 <= k < w[p].focus.len() implies (#[trigger] w[p].focus[k] as int) < w.len() by {
        if p == g {
            let y = focus[k];
            assert(focus.contains(y));
            assert(cat.contains(y));
            if gn.focus.contains(y) {
                let m = choose|m: int| 0 <= m < gn.focus.len() && gn.focus[m] == y;
                assert(v[g].focus[m] == y);
            } else {
                let m = choose|m: int| 0 <= m < sn.focus.len() && sn.focus[m] == y;
                assert(v[s].focus[m] == y);
            }
        } else {
            assert(w[p].focus == v[p].focus);
        }
    }
    // Ranks.
    assert forall|x: int| 0 <= x < w.len() && #[trigger] w[x].parent is Some implies r[w[x].parent->0 as int] < r[x] by {
        if sn.children.contains(x as usize) {
        } else if x != s {
            assert(v[x].parent is Some);
        }
    }
}

} // verus!

verus! {

/// Removing a container from its parent keeps the tree well formed.
pub proof fn lemma_remove_child_wf(v: Seq<NodeView>, r: Seq<nat>, p: int, c: int)
    requires
        links_ok(v),
        ranked(v, r),
        0 <= c < v.len(),
        0 <= p < v.len(),
        v[c].parent == Some(p as usize),
    ensures
        links_ok(spec_remove_child(v, p, c)),
        ranked(spec_remove_child(v, p, c), r),
{
    let w = spec_remove_child(v, p, c);
    lemma_parent_facts(v, r, c);
    let pn = v[p];
    lemma_without_contains(pn.children, c as usize);
    lemma_without_contains(pn.focus, c as usize);
    assert(c != p);
    assert(w[p].children == without(pn.children, c as usize));
    assert(w[p].focus == without(pn.focus, c as usize));
    assert(w[c].parent is None);
    assert forall|x: int| 0 <= x < w.len() && #[trigger] w[x].parent is Some implies {
        let q = w[x].parent->0 as int;
        0 <= q < w.len() && w[q].children.contains(x as usize)
    } by {
        lemma_parent_facts(v, r, x);
    }
    assert forall|q: int, k: int| 0 <= q < w.len() && 0 <= k < w[q].children.len() implies {
        let y = #[trigger] w[q].children[k];
        (y as int) < w.len() && w[y as int].parent == Some(q as usize)
    } by {
        let y = w[q].children[k];
        assert(w[q].children.contains(y));
        if q == p {
            assert(pn.children.contains(y));
        }
        lemma_child_facts(v, r, q, y);
        if y == c as usize {
            assert(q == p);
        }
    }
    assert forall|q: int| 0 <= q < w.len() implies (#[trigger] w[q].children).no_duplicates() by {
        if q == p {
            crate::seq_util::lemma_without_no_dup(pn.children, c as usize);
        }
    }
    assert forall|q: int, x: usize| 0 <= q < w.len() && #[trigger] w[q].children.contains(x) implies w[q].focus.contains(x) by {
        if q == p {
            assert(pn.children.contains(x));
        }
    }
    assert forall|q: int, k: int| 0 <= q < w.len() && 0 <= k < w[q].focus.len() implies (#[trigger] w[q].focus[k] as int) < w.len() by {
        if q == p {
            let y = w[q].focus[k];
            assert(w[q].focus.contains(y));
            let m = choose|m: int| 0 <= m < pn.focus.len() && pn.focus[m] == y;
            assert(v[p].focus[m] == y);
        }
    }
    assert forall|x: int| 0 <= x < w.len() && #[trigger] w[x].parent is Some implies r[w[x].parent->0 as int] < r[x] by {
        assert(v[x].parent is Some);
    }
}

} // verus!

verus! {

/// The preconditions of wrapping: `n` is a detached, childless container
/// other than `tp`, and `targets` are distinct children of `tp`.
pub open spec fn wrap_allowed(v: Seq<NodeView>, n: int, tp: int, targets: Seq<usize>) -> bool {
    &&& 0 <= n < v.len()
    &&& 0 <= tp < v.len()
    &&& n != tp
    &&& v[n].parent is None
    &&& v[n].children.len() == 0
    &&& targets.no_duplicates()
    &&& forall|i: int|
        0 <= i < targets.len() ==> (#[trigger] targets[i] as int) < v.len() && v[targets[i] as int].parent
            == Some(tp as usize)
}

/// Ranks after wrapping: everything doubles, and the new split goes just
/// above its parent.
pub open spec fn wrap_ranks(r: Seq<nat>, n: int, tp: int) -> Seq<nat> {
    Seq::new(r.len(), |x: int| if x == n { 2 * r[tp] + 1 } else { 2 * r[x] })
}

/// The smallest position of one of `targets` in `s` is the position of one of
/// them, where all of them occur.
pub proof fn lemma_min_first_pos(s: Seq<usize>, targets: Seq<usize>)
    requires
        targets.len() > 0,
        forall|i: int| 0 <= i < targets.len() ==> s.contains(#[trigger] targets[i]),
    ensures
        0 <= min_first_pos(s, targets) < s.len(),
    decreases targets.len(),
{
    lemma_first_pos(s, targets.last());
    lemma_first_pos(s, targets[0]);
    if targets.len() > 1 {
        lemma_min_first_pos(s, targets.drop_last());
    }
}

/// Wrapping children in a new split container keeps the tree well formed.
pub proof fn lemma_wrap_wf(v: Seq<NodeView>, r: Seq<nat>, n: int, tp: int, targets: Seq<usize>)
    requires
        links_ok(v),
        ranked(v, r),
        wrap_allowed(v, n, tp, targets),
        targets.len() > 0,
    ensures
        links_ok(spec_wrap(v, n, tp, targets)),
        ranked(spec_wrap(v, n, tp, targets), wrap_ranks(r, n, tp)),
{
    let w = spec_wrap(v, n, tp, targets);
    let tn = v[tp];
    assert forall|y: usize| #[trigger] targets.contains(y) implies 0 <= y < v.len() && v[y as int].parent == Some(tp as usize) && tn.children.contains(y) && r[tp] < r[y as int] && y as int != n && y as int != tp by {
        let i = choose|i: int| 0 <= i < targets.len() && targets[i] == y;
        assert((targets[i] as int) < v.len() && v[targets[i] as int].parent == Some(tp as usize));
        lemma_parent_facts(v, r, y as int);
    }
    assert forall|i: int| 0 <= i < targets.len() implies tn.children.contains(#[trigger] targets[i]) && tn.focus.contains(targets[i]) by {
        assert(targets.contains(targets[i]));
    }
    lemma_min_first_pos(tn.children, targets);
    lemma_min_first_pos(tn.focus, targets);
    let kids1 = tn.children.insert(min_first_pos(tn.children, targets), n as usize);
    let focus1 = tn.focus.insert(min_first_pos(tn.focus, targets), n as usize);
    assert(!tn.children.contains(n as usize)) by {
        if tn.children.contains(n as usize) {
            lemma_child_facts(v, r, tp, n as usize);
        }
    }
    // Nothing names `n` as its parent.
    assert forall|x: int| 0 <= x < v.len() implies v[x].parent != Some(n as usize) by {
        if v[x].parent == Some(n as usize) {
            lemma_parent_facts(v, r, x);
        }
    }
    assert forall|y: usize| #[trigger] kids1.contains(y) <==> (tn.children.contains(y) || y == n as usize) by {
        lemma_insert_contains(tn.children, min_first_pos(tn.children, targets), n as usize, y);
    }
    assert forall|y: usize| #[trigger] focus1.contains(y) <==> (tn.focus.contains(y) || y == n as usize) by {
        lemma_insert_contains(tn.focus, min_first_pos(tn.focus, targets), n as usize, y);
    }
    lemma_without_all_contains(kids1, targets);
    lemma_without_all_contains(focus1, targets);
    lemma_keep_only_contains(focus1, targets);
    assert(w[tp].children == without_all(kids1, targets));
    assert(w[tp].focus == without_all(focus1, targets));
    assert(w[tp].parent == tn.parent);
    assert(w[n].children == targets && w[n].focus == keep_only(focus1, targets) && w[n].parent == Some(tp as usize));
    // Parent links.
    assert forall|x: int| 0 <= x < w.len() && #[trigger] w[x].parent is Some implies {
        let p = w[x].parent->0 as int;
        0 <= p < w.len() && w[p].children.contains(x as usize)
    } by {
        if x == n {
            assert(kids1.contains(n as usize));
            assert(!targets.contains(n as usize));
        } else if targets.contains(x as usize) {
        } else {
            lemma_parent_facts(v, r, x);
            let p = v[x].parent->0 as int;
            if p == tp {
                assert(tn.children.contains(x as usize));
            } else if targets.contains(p as usize) {
            }
            if x == tp {
                if targets.contains(p as usize) {
                    assert(r[tp] < r[p]);
                }
            }
        }
    }
    // Child links.
    assert forall|p: int, k: int| 0 <= p < w.len() && 0 <= k < w[p].children.len() implies {
        let y = #[trigger] w[p].children[k];
        (y as int) < w.len() && w[y as int].parent == Some(p as usize)
    } by {
        let y = w[p].children[k];
        assert(w[p].children.contains(y));
        if p == tp {
            if y != n as usize {
                lemma_child_facts(v, r, tp, y);
            }
        } else if p == n {
            assert(targets.contains(y));
        } else {
            assert(w[p].children == v[p].children);
            lemma_child_facts(v, r, p, y);
            if targets.contains(y) {
                assert(v[y as int].parent == Some(tp as usize));
            }
        }
    }
    // No duplicates.
    assert forall|p: int| 0 <= p < w.len() implies (#[trigger] w[p].children).no_duplicates() by {
        if p == tp {
            lemma_insert_no_dup(tn.children, min_first_pos(tn.children, targets), n as usize);
            lemma_without_all_no_dup(kids1, targets);
        } else if p == n {
        } else {
            assert(w[p].children == v[p].children);
        }
    }
    // Children are in the focus order.
    assert forall|p: int, x: usize| 0 <= p < w.len() && #[trigger] w[p].children.contains(x) implies w[p].focus.contains(x) by {
        if p == tp {
            if x != n as usize {
                assert(tn.focus.contains(x));
            }
        } else if p == n {
            assert(tn.focus.contains(x));
        } else {
            assert(w[p].children == v[p].children && w[p].focus == v[p].focus);
        }
    }
    // Focus entries are handles.
    assert forall|p: int, k: int| 0 <= p < w.len() && 0 <= k < w[p].focus.len() implies (#[trigger] w[p].focus[k] as int) < w.len() by {
        if p == tp || p == n {
            let y = w[p].focus[k];
            assert(w[p].focus.contains(y));
            assert(focus1.contains(y));
            if y != n as usize {
                let m = choose|m: int| 0 <= m < tn.focus.len() && tn.focus[m] == y;
                assert(v[tp].focus[m] == y);
            }
        } else {
            assert(w[p].focus == v[p].focus);
        }
    }
    // Ranks.
    let r2 = wrap_ranks(r, n, tp);
    assert forall|x: int| 0 <= x < w.len() && #[trigger] w[x].parent is Some implies r2[w[x].parent->0 as int] < r2[x] by {
        if x == n {
        } else if targets.contains(x as usize) {
        } else {
            lemma_parent_facts(v, r, x);
        }
    }
}

} // verus!

verus! {

/// Replacing a container's focus order by one with the same elements keeps
/// the tree well formed.
pub proof fn lemma_focus_change_wf(v: Seq<NodeView>, r: Seq<nat>, p: int, f: Seq<usize>)
    requires
        links_ok(v),
        ranked(v, r),
        0 <= p < v.len(),
        forall|y: usize| #[trigger] f.contains(y) <==> v[p].focus.contains(y),
    ensures
        links_ok(v.update(p, with_focus(v[p], f))),
        ranked(v.update(p, with_focus(v[p], f)), r),
{
    let w = v.update(p, with_focus(v[p], f));
    assert forall|q: int, k: int| 0 <= q < w.len() && 0 <= k < w[q].focus.len() implies (#[trigger] w[q].focus[k] as int) < w.len() by {
        if q == p {
            let y = f[k];
            assert(f.contains(y));
            let m = choose|m: int| 0 <= m < v[p].focus.len() && v[p].focus[m] == y;
            assert(v[p].focus[m] == y);
        }
    }
    assert forall|i: int| 0 <= i < w.len() && #[trigger] w[i].parent is Some implies {
        let q = w[i].parent->0 as int;
        0 <= q < w.len() && w[q].children.contains(i as usize)
    } by {
        assert(v[i].parent is Some);
    }
    assert forall|q: int, x: usize| 0 <= q < w.len() && #[trigger] w[q].children.contains(x) implies w[q].focus.contains(x) by {
        assert(v[q].children.contains(x));
    }
    assert forall|i: int| 0 <= i < w.len() && #[trigger] w[i].parent is Some implies r[w[i].parent->0 as int] < r[i] by {
        assert(v[i].parent is Some);
    }
}

/// Ancestors at different distances are different containers.
pub proof fn lemma_ancestor_distinct(v: Seq<NodeView>, r: Seq<nat>, c: int, j: nat, k: nat)
    requires
        links_ok(v),
        ranked(v, r),
        0 <= c < v.len(),
        j != k,
        ancestor(v, c, j) is Some,
        ancestor(v, c, k) is Some,
    ensures
        ancestor(v, c, j) != ancestor(v, c, k),
{
    if j < k {
        lemma_ancestor_rank(v, r, c, j, k);
    } else {
        lemma_ancestor_rank(v, r, c, k, j);
    }
}

/// The tree after `set_focused_descendant(c, end)` has updated the first `m`
/// ancestors of `c`.
pub open spec fn focus_path_upto(v: Seq<NodeView>, c: int, end: Option<usize>, m: nat) -> Seq<
    NodeView,
> {
    Seq::new(
        v.len(),
        |x: int|
            if exists|k: nat| 1 <= k <= m && ancestor(v, c, k) == Some(x) {
                let k = choose|k: nat| 1 <= k <= m && ancestor(v, c, k) == Some(x);
                with_focus(
                    v[x],
                    spec_shift_to_index(v[x].focus, 0, ancestor(v, c, (k - 1) as nat)->0 as usize),
                )
            } else {
                v[x]
            },
    )
}

/// Once the walk has stopped, at the root or at `end`, the updated ancestors
/// are exactly those on the focus path.
pub proof fn lemma_focus_path_complete(
    v: Seq<NodeView>,
    r: Seq<nat>,
    c: int,
    end: Option<usize>,
    m: nat,
)
    requires
        links_ok(v),
        ranked(v, r),
        0 <= c < v.len(),
        ancestor(v, c, m) is Some,
        forall|j: nat| 1 <= j < m ==> !#[trigger] is_end(v, c, end, j),
        ancestor(v, c, m + 1) is None || (m >= 1 && is_end(v, c, end, m)),
    ensures
        focus_path_upto(v, c, end, m) == spec_set_focused_descendant(v, c, end),
{
    let a = focus_path_upto(v, c, end, m);
    let b = spec_set_focused_descendant(v, c, end);
    assert forall|x: int| 0 <= x < v.len() implies a[x] == b[x] by {
        let in_a = exists|k: nat| 1 <= k <= m && ancestor(v, c, k) == Some(x);
        let in_b = exists|k: nat| on_focus_path(v, c, end, k) && ancestor(v, c, k) == Some(x);
        if in_a {
            let ka = choose|k: nat| 1 <= k <= m && ancestor(v, c, k) == Some(x);
            assert(on_focus_path(v, c, end, ka)) by {
                assert forall|j: nat| 1 <= j < ka implies !#[trigger] is_end(v, c, end, j) by {
                    if j < m {
                    } else {
                        assert(false);
                    }
                }
            }
            let kb = choose|k: nat| on_focus_path(v, c, end, k) && ancestor(v, c, k) == Some(x);
            if ka != kb {
                lemma_ancestor_distinct(v, r, c, ka, kb);
            }
        }
        if in_b {
            let kb = choose|k: nat| on_focus_path(v, c, end, k) && ancestor(v, c, k) == Some(x);
            assert(kb <= m) by {
                if kb > m {
                    if ancestor(v, c, m + 1) is None {
                        lemma_ancestor_none(v, c, m + 1, kb);
                    } else {
                        assert(!is_end(v, c, end, m));
                    }
                }
            }
            assert(in_a);
        }
    }
    assert(a =~= b);
}

} // verus!

verus! {

/// Ancestors of a container in range are in range (for a ranked tree).
pub proof fn lemma_ancestor_in_range_tree(v: Seq<NodeView>, r: Seq<nat>, x: int, k: nat)
    requires
        links_ok(v),
        0 <= x < v.len(),
        ancestor(v, x, k) is Some,
    ensures
        0 <= ancestor(v, x, k)->0 < v.len(),
{
    lemma_ancestor_in_range(v, r, x, k);
}

} // verus!

verus! {

// ---------------------------------------------------------------------------
// Flattening redundant split containers
// ---------------------------------------------------------------------------
/// The containers of `s` that are tiling containers, in order.
pub open spec fn tiling_only(v: Seq<NodeView>, s: Seq<usize>) -> Seq<usize>
    decreases s.len(),
{
    if s.len() == 0 {
        s
    } else if is_tiling_kind(v[s.last() as int].kind) {
        tiling_only(v, s.drop_last()).push(s.last())
    } else {
        tiling_only(v, s.drop_last())
    }
}

/// The tree after flattening, in order, each of `splits` that is a split
/// container with exactly one child at its turn.
pub open spec fn flatten_each(v: Seq<NodeView>, splits: Seq<usize>) -> Seq<NodeView>
    decreases splits.len(),
{
    if splits.len() == 0 {
        v
    } else {
        let v1 = flatten_each(v, splits.drop_last());
        let s = splits.last() as int;
        if is_split_kind(v1[s].kind) && v1[s].children.len() == 1 {
            spec_flatten(v1, s)
        } else {
            v1
        }
    }
}

/// The tree after flattening redundant split containers among the children
/// of the direction container `p`: a sole tiling child that is a split
/// container is flattened into `p`; otherwise each split child that has a
/// single child is flattened.
pub open spec fn spec_flatten_child_splits(v: Seq<NodeView>, p: int) -> Seq<NodeView> {
    if !is_direction_kind(v[p].kind) {
        v
    } else {
        let tiling = tiling_only(v, v[p].children);
        if tiling.len() == 1 {
            if is_split_kind(v[tiling[0] as int].kind) {
                spec_flatten(v, tiling[0] as int)
            } else {
                v
            }
        } else {
            flatten_each(v, tiling)
        }
    }
}

/// The tree after flattening redundant split containers under each of
/// `parents`, last first.
pub open spec fn flatten_under_each_rev(v: Seq<NodeView>, parents: Seq<usize>) -> Seq<NodeView>
    decreases parents.len(),
{
    if parents.len() == 0 {
        v
    } else {
        flatten_under_each_rev(
            spec_flatten_child_splits(v, parents.last() as int),
            parents.drop_last(),
        )
    }
}

// ---------------------------------------------------------------------------
// Moving within the tree
// ---------------------------------------------------------------------------
/// `x`'s `k`-th ancestor is the first, from `x` upwards, whose parent is
/// `a`.
pub open spec fn is_child_toward(v: Seq<NodeView>, x: int, a: int, k: nat) -> bool {
    &&& ancestor(v, x, k) matches Some(y) && v[y].parent == Some(a as usize)
    &&& forall|j: nat|
        j < k ==> !(#[trigger] ancestor(v, x, j) matches Some(y) && v[y].parent == Some(
            a as usize,
        ))
}

/// The ancestor of `x` (or `x` itself) that is a child of `a`.
pub open spec fn child_toward(v: Seq<NodeView>, x: int, a: int) -> Option<int> {
    if exists|k: nat| is_child_toward(v, x, a, k) {
        ancestor(v, x, choose|k: nat| is_child_toward(v, x, a, k))
    } else {
        None
    }
}

/// The first (up to) three ancestors of `c`, parent first.
pub open spec fn first_ancestors(v: Seq<NodeView>, c: int) -> Seq<usize> {
    let a1 = ancestor(v, c, 1);
    let a2 = ancestor(v, c, 2);
    let a3 = ancestor(v, c, 3);
    if a1 is None {
        seq![]
    } else if a2 is None {
        seq![a1->0 as usize]
    } else if a3 is None {
        seq![a1->0 as usize, a2->0 as usize]
    } else {
        seq![a1->0 as usize, a2->0 as usize, a3->0 as usize]
    }
}

/// The tree after moving `x` to position `index` of `p`'s focus order.
pub open spec fn spec_shift_focus(v: Seq<NodeView>, p: int, index: int, x: usize) -> Seq<NodeView> {
    v.update(p, with_focus(v[p], spec_shift_to_index(v[p].focus, index, x)))
}

/// The tree after moving `x` to position `index` of `p`'s children.
pub open spec fn spec_shift_child(v: Seq<NodeView>, p: int, index: int, x: usize) -> Seq<NodeView> {
    v.update(p, with_children(v[p], spec_shift_to_index(v[p].children, index, x)))
}

/// Moving `c` to the common ancestor `lca`, which is `c`'s new parent: `c`
/// is detached and attached at `index`, and takes the focus position that
/// its ancestor under `lca` had.
pub open spec fn spec_move_to_lca(v: Seq<NodeView>, c: int, lca: int, index: usize) -> Result<
    (Seq<NodeView>, bool),
    crate::container::error::WmError,
> {
    match child_toward(v, c, lca) {
        None => Err(crate::container::error::WmError::NoAncestorUnderCommon),
        Some(anc) => {
            let former_focus_index = focus_index_in_parent(v, anc);
            if detach_fails(v, c) {
                Err(crate::container::error::WmError::NoParent)
            } else {
                let v1 = spec_detach(v, c);
                let v2 = spec_attach(v1, c, lca, Some(index));
                let v3 = spec_shift_focus(v2, lca, former_focus_index, c as usize);
                Ok((v3, spec_has_focus(v3, c, None)))
            }
        },
    }
}

/// The tree after `move_container_within_tree(c, tp, index)`, and whether
/// the moved container has focus afterwards; or the error.
pub open spec fn spec_move_container_within_tree(
    v: Seq<NodeView>,
    c: int,
    tp: int,
    index: usize,
) -> Result<(Seq<NodeView>, bool), crate::container::error::WmError> {
    let ancestors = first_ancestors(v, c);
    match spec_lca(v, c, tp) {
        None => Err(crate::container::error::WmError::NoCommonAncestor),
        Some(lca) => {
            if v[c].parent is None {
                Err(crate::container::error::WmError::NoParent)
            } else if v[c].parent == Some(tp as usize) {
                let v1 = spec_shift_child(v, tp, index as int, c as usize);
                Ok((v1, spec_has_focus(v1, c, None)))
            } else if tp == lca {
                spec_move_to_lca(v, c, lca, index)
            } else {
                spec_move_across(v, c, tp, lca, index, ancestors)
            }
        },
    }
}

/// Moving `c` under `tp` where neither is the common ancestor `lca` of the
/// two: `c` is detached and attached at `index`; where its subtree under
/// `lca` was focused more recently than `tp`'s, it becomes the focused
/// descendant of `tp`'s subtree, and where it also was the focused
/// descendant of its own subtree, `tp`'s subtree takes its subtree's place
/// in `lca`'s focus order; last, redundant split containers are flattened
/// under each of `ancestors`, last first.
pub open spec fn spec_move_across(
    v: Seq<NodeView>,
    c: int,
    tp: int,
    lca: int,
    index: usize,
    ancestors: Seq<usize>,
) -> Result<(Seq<NodeView>, bool), crate::container::error::WmError> {
    match (child_toward(v, c, lca), child_toward(v, tp, lca)) {
        (Some(c_anc), Some(tp_anc)) => {
            let is_focused_descendant = c == c_anc || spec_has_focus(v, c, Some(c_anc as usize));
            let former_focus_index = focus_index_in_parent(v, c_anc);
            let is_subtree_focused = former_focus_index < focus_index_in_parent(v, tp_anc);
            spec_relocate(
                v,
                c,
                tp,
                lca,
                tp_anc,
                is_focused_descendant && is_subtree_focused,
                former_focus_index,
                is_subtree_focused,
                index,
                ancestors,
            )
        },
        _ => Err(crate::container::error::WmError::NoAncestorUnderCommon),
    }
}

/// The tree after detaching `c`, attaching it to `tp` at `index`, making it
/// the focused descendant of `tp`'s subtree under `lca` (whose root is
/// `tp_anc`) where `focus_subtree` holds, moving `tp_anc` to position
/// `focus_index` of `lca`'s focus order where `take_place` holds, and
/// flattening redundant split containers under each of `ancestors`, last
/// first; with whether `c` then has focus. Or the error of the detach.
pub open spec fn spec_relocate(
    v: Seq<NodeView>,
    c: int,
    tp: int,
    lca: int,
    tp_anc: int,
    take_place: bool,
    focus_index: int,
    focus_subtree: bool,
    index: usize,
    ancestors: Seq<usize>,
) -> Result<(Seq<NodeView>, bool), crate::container::error::WmError> {
    if detach_fails(v, c) {
        Err(crate::container::error::WmError::NoParent)
    } else {
        let v1 = spec_detach(v, c);
        let v2 = spec_attach(v1, c, tp, Some(index));
        let v3 = if focus_subtree {
            spec_set_focused_descendant(v2, c, Some(tp_anc as usize))
        } else {
            v2
        };
        let v4 = if take_place {
            spec_shift_focus(v3, lca, focus_index, tp_anc as usize)
        } else {
            v3
        };
        let v5 = flatten_under_each_rev(v4, ancestors);
        Ok((v5, spec_has_focus(v5, c, None)))
    }
}

} // verus!

verus! {

/// Replacing a container's children by a reordering of them keeps the tree
/// well formed.
pub proof fn lemma_children_reorder_wf(v: Seq<NodeView>, r: Seq<nat>, p: int, c: Seq<usize>)
    requires
        links_ok(v),
        ranked(v, r),
        0 <= p < v.len(),
        c.no_duplicates(),
        forall|y: usize| #[trigger] c.contains(y) <==> v[p].children.contains(y),
    ensures
        links_ok(v.update(p, with_children(v[p], c))),
        ranked(v.update(p, with_children(v[p], c)), r),
{
    let w = v.update(p, with_children(v[p], c));
    assert forall|i: int| 0 <= i < w.len() && #[trigger] w[i].parent is Some implies {
        let q = w[i].parent->0 as int;
        0 <= q < w.len() && w[q].children.contains(i as usize)
    } by {
        lemma_parent_facts(v, r, i);
    }
    assert forall|q: int, k: int| 0 <= q < w.len() && 0 <= k < w[q].children.len() implies {
        let y = #[trigger] w[q].children[k];
        (y as int) < w.len() && w[y as int].parent == Some(q as usize)
    } by {
        let y = w[q].children[k];
        assert(w[q].children.contains(y));
        lemma_child_facts(v, r, q, y);
    }
    assert forall|q: int, x: usize| 0 <= q < w.len() && #[trigger] w[q].children.contains(x) implies w[q].focus.contains(x) by {
        assert(v[q].children.contains(x));
    }
    assert forall|i: int| 0 <= i < w.len() && #[trigger] w[i].parent is Some implies r[w[i].parent->0 as int] < r[i] by {
        assert(v[i].parent is Some);
    }
}

/// The tiling containers among `s` are some of `s`, without duplicates where
/// `s` has none.
pub proof fn lemma_tiling_only(v: Seq<NodeView>, s: Seq<usize>)
    ensures
        forall|y: usize| #[trigger] tiling_only(v, s).contains(y) ==> s.contains(y),
        s.no_duplicates() ==> tiling_only(v, s).no_duplicates(),
    decreases s.len(),
{
    if s.len() > 0 {
        let d = s.drop_last();
        lemma_tiling_only(v, d);
        let t = tiling_only(v, d);
        assert forall|y: usize| #[trigger] tiling_only(v, s).contains(y) implies s.contains(y) by {
            let w = tiling_only(v, s);
            let m = choose|m: int| 0 <= m < w.len() && w[m] == y;
            if is_tiling_kind(v[s.last() as int].kind) && m == t.len() {
                assert(s[s.len() - 1] == y);
            } else {
                assert(t[m] == y);
                assert(t.contains(y));
                let k = choose|k: int| 0 <= k < d.len() && d[k] == y;
                assert(s[k] == y);
            }
        }
        if s.no_duplicates() {
            assert(d.no_duplicates());
            if is_tiling_kind(v[s.last() as int].kind) {
                assert(!t.contains(s.last())) by {
                    if t.contains(s.last()) {
                        assert(d.contains(s.last()));
                        let k = choose|k: int| 0 <= k < d.len() && d[k] == s.last();
                        assert(s[k] == s[s.len() - 1]);
                    }
                }
                let w = t.push(s.last());
                assert forall|a: int, b: int| 0 <= a < w.len() && 0 <= b < w.len() && a != b implies w[a] != w[b] by {
                    if a == t.len() as int {
                        assert(t.contains(w[b]));
                    } else if b == t.len() as int {
                        assert(t.contains(w[a]));
                    }
                }
            }
        }
    }
}

} // verus!

verus! {

/// An ancestor never ranks above its descendant.
pub proof fn lemma_reaches_rank(v: Seq<NodeView>, r: Seq<nat>, x: int, a: int)
    requires
        links_ok(v),
        ranked(v, r),
        0 <= x < v.len(),
        reaches(v, x, a),
    ensures
        0 <= a < v.len(),
        r[a] <= r[x],
{
    let k = choose|k: nat| ancestor(v, x, k) == Some(a);
    if k > 0 {
        lemma_ancestor_rank(v, r, x, 0, k);
    }
}

/// Reaching in a tree whose parents are those of another tree or none implies
/// reaching in the other.
pub proof fn lemma_reaches_fewer_parents(v: Seq<NodeView>, w: Seq<NodeView>, x: int, a: int)
    requires
        w.len() == v.len(),
        forall|i: int| 0 <= i < v.len() ==> #[trigger] w[i].parent == v[i].parent || w[i].parent is None,
        reaches(w, x, a),
    ensures
        reaches(v, x, a),
{
    let k = choose|k: nat| ancestor(w, x, k) == Some(a);
    lemma_ancestor_fewer_parents(v, w, x, k);
}

/// Detaching only clears parents.
pub proof fn lemma_detach_parents(v: Seq<NodeView>, r: Seq<nat>, c: int)
    requires
        links_ok(v),
        ranked(v, r),
        0 <= c < v.len(),
        !detach_fails(v, c),
    ensures
        spec_detach(v, c).len() == v.len(),
        forall|i: int|
            0 <= i < v.len() ==> #[trigger] spec_detach(v, c)[i].parent == v[i].parent || spec_detach(
                v,
                c,
            )[i].parent is None,
        spec_detach(v, c)[c].parent is None,
{
    let w = spec_detach(v, c);
    lemma_parent_facts(v, r, c);
    if parent_is_sole_split(v, c) {
        let s = v[c].parent->0 as int;
        let v1 = spec_flatten(v, s);
        assert(v[s].children.contains(c as usize));
        assert(v[s].children[0] == c as usize) by {
            let k = choose|k: int| 0 <= k < v[s].children.len() && v[s].children[k] == c as usize;
        }
        assert forall|y: usize| #[trigger] v[s].children.contains(y) implies y == c as usize by {
            let k = choose|k: int| 0 <= k < v[s].children.len() && v[s].children[k] == y;
        }
        lemma_flatten_wf(v, r, s);
        assert(v1[c].parent == v[s].parent);
        lemma_parent_facts(v1, r, c);
        assert forall|i: int| 0 <= i < v.len() implies #[trigger] w[i].parent == v[i].parent || w[i].parent is None by {
            if i != c && i != s {
                assert(v1[i].parent == v[i].parent);
            }
        }
    } else {
        assert forall|i: int| 0 <= i < v.len() implies #[trigger] w[i].parent == v[i].parent || w[i].parent is None by {}
    }
}

/// Where `a` reaches `b`, `a` is its own lowest common ancestor with `b`.
pub proof fn lemma_lca_self(v: Seq<NodeView>, a: int, b: int)
    requires
        reaches(v, b, a),
    ensures
        spec_lca(v, a, b) == Some(a),
{
    assert(ancestor(v, a, 0) == Some(a));
    assert(lca_depth(v, a, b, 0));
    let k = choose|k: nat| lca_depth(v, a, b, k);
    assert(k == 0) by {
        if k > 0 {
            assert(!(ancestor(v, a, 0) matches Some(y) && reaches(v, b, y)));
        }
    }
}

/// No ancestor of `x` is a child of `x`.
pub proof fn lemma_no_child_toward_self(v: Seq<NodeView>, r: Seq<nat>, x: int)
    requires
        links_ok(v),
        ranked(v, r),
        0 <= x < v.len(),
    ensures
        child_toward(v, x, x) is None,
{
    if exists|k: nat| is_child_toward(v, x, x, k) {
        let k = choose|k: nat| is_child_toward(v, x, x, k);
        let y = ancestor(v, x, k)->0;
        lemma_ancestor_in_range(v, r, x, k);
        if k > 0 {
            lemma_ancestor_rank(v, r, x, 0, k);
        }
        lemma_parent_facts(v, r, y);
    }
}

/// The ancestor of `x` under `a` is `x`'s ancestor, and `a` is the parent of
/// it, so `a` ranks below `x`.
pub proof fn lemma_child_toward(v: Seq<NodeView>, r: Seq<nat>, x: int, a: int)
    requires
        links_ok(v),
        ranked(v, r),
        0 <= x < v.len(),
        0 <= a < v.len(),
        child_toward(v, x, a) is Some,
    ensures
        0 <= child_toward(v, x, a)->0 < v.len(),
        v[child_toward(v, x, a)->0].parent == Some(a as usize),
        reaches(v, x, child_toward(v, x, a)->0),
        0 <= a < v.len(),
        r[a] < r[x],
        reaches(v, x, a),
{
    let k = choose|k: nat| is_child_toward(v, x, a, k);
    let y = ancestor(v, x, k)->0;
    lemma_ancestor_in_range(v, r, x, k);
    lemma_parent_facts(v, r, y);
    if k > 0 {
        lemma_ancestor_rank(v, r, x, 0, k);
    }
    lemma_ancestor_step(v, x, k);
    assert(ancestor(v, x, k + 1) == Some(a));
}

} // verus!
