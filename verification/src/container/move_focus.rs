use crate::container::laws::{
    law_lowest_common_ancestor, law_set_focused_descendant_gives_focus, lemma_ancestor_add,
    lemma_same_parents_ancestor,
};
use crate::container::model::{
    ancestor, attach_ranks, before_end, child_toward, detach_fails, first_ancestors,
    first_in_parent, flatten_each, flatten_under_each_rev, focus_index_in_parent,
    is_direction_kind, is_end, is_split_kind, lemma_ancestor_distinct, lemma_ancestor_in_range,
    lemma_ancestor_rank, lemma_ancestor_step, lemma_attach_wf, lemma_child_facts,
    lemma_child_toward, lemma_detach_parents, lemma_flatten_wf, lemma_focus_change_wf,
    lemma_lca_self, lemma_parent_facts, lemma_reaches_fewer_parents, lemma_reaches_rank,
    lemma_reaches_unfold, lemma_remove_child_wf, lemma_tiling_only, links_ok, on_focus_path,
    parent_is_sole_split, ranked, reaches, spec_attach, spec_detach, spec_flatten,
    spec_flatten_child_splits, spec_has_focus, spec_lca, spec_move_across,
    spec_move_container_within_tree, spec_move_to_lca, spec_relocate, spec_set_focused_descendant,
    spec_shift_child, spec_shift_focus, tiling_only, tree_wf, NodeView,
};
use crate::seq_util::{first_pos, lemma_first_pos_unique, without};
use crate::vec_deque_ext::{lemma_shift_contains, lemma_shift_front, spec_shift_to_index};
use vstd::prelude::*;

verus! {

/// Without an end, no container on the way up is the end.
proof fn lemma_no_end(v: Seq<NodeView>, x: int, k: nat)
    ensures
        before_end(v, x, None, k),
{
    assert forall|i: nat| i <= k implies !#[trigger] is_end(v, x, None, i) by {}
}

/// A container has focus up to the root exactly when it comes first in its
/// parent's focus order and its parent, if any, has focus up to the root.
pub proof fn lemma_focus_unfold(v: Seq<NodeView>, x: int)
    requires
        0 <= x < v.len(),
    ensures
        spec_has_focus(v, x, None) <==> (first_in_parent(v, x) && (v[x].parent matches Some(p)
            ==> spec_has_focus(v, p as int, None))),
{
    if spec_has_focus(v, x, None) {
        assert(ancestor(v, x, 0) == Some(x));
        lemma_no_end(v, x, 0);
        if let Some(p) = v[x].parent {
            assert forall|k: nat|
                #[trigger] ancestor(v, p as int, k) is Some && before_end(v, p as int, None, k)
                implies first_in_parent(v, ancestor(v, p as int, k)->0) by {
                assert(ancestor(v, x, k + 1) == ancestor(v, p as int, k));
                lemma_no_end(v, x, k + 1);
            }
        }
    }
    if first_in_parent(v, x) && (v[x].parent matches Some(p) ==> spec_has_focus(
        v,
        p as int,
        None,
    )) {
        assert forall|k: nat|
            #[trigger] ancestor(v, x, k) is Some && before_end(v, x, None, k) implies first_in_parent(
            v,
            ancestor(v, x, k)->0,
        ) by {
            if k > 0 {
                let p = v[x].parent->0;
                assert(ancestor(v, x, k) == ancestor(v, p as int, (k - 1) as nat));
                lemma_no_end(v, p as int, (k - 1) as nat);
            }
        }
    }
}

/// Focus up to the root passes to every ancestor.
pub proof fn lemma_focus_ancestor(v: Seq<NodeView>, x: int, k: nat)
    requires
        spec_has_focus(v, x, None),
        ancestor(v, x, k) is Some,
    ensures
        spec_has_focus(v, ancestor(v, x, k)->0, None),
{
    let a = ancestor(v, x, k)->0;
    assert forall|j: nat|
        #[trigger] ancestor(v, a, j) is Some && before_end(v, a, None, j) implies first_in_parent(
        v,
        ancestor(v, a, j)->0,
    ) by {
        lemma_ancestor_add(v, x, k, j);
        lemma_no_end(v, x, k + j);
    }
}

/// A tree that keeps the parents of all containers ranked no higher than
/// `x`, and the focus orders of all ranked lower, keeps `x`'s focus up to
/// the root.
pub proof fn lemma_focus_frame(v: Seq<NodeView>, w: Seq<NodeView>, r: Seq<nat>, x: int)
    requires
        links_ok(v),
        ranked(v, r),
        0 <= x < v.len(),
        w.len() == v.len(),
        spec_has_focus(v, x, None),
        forall|y: int| 0 <= y < v.len() && r[y] <= r[x] ==> #[trigger] w[y].parent == v[y].parent,
        forall|y: int| 0 <= y < v.len() && r[y] < r[x] ==> #[trigger] w[y].focus == v[y].focus,
    ensures
        spec_has_focus(w, x, None),
    decreases r[x],
{
    lemma_focus_unfold(v, x);
    lemma_focus_unfold(w, x);
    assert(w[x].parent == v[x].parent);
    if let Some(p) = v[x].parent {
        lemma_parent_facts(v, r, x);
        assert(w[p as int].focus == v[p as int].focus);
        lemma_focus_frame(v, w, r, p as int);
    }
}

/// Removing `y` from a sequence that does not start with it keeps the first
/// element first.
pub proof fn lemma_without_first(t: Seq<usize>, y: usize)
    requires
        t.len() > 0,
        t[0] != y,
    ensures
        without(t, y).len() > 0,
        without(t, y)[0] == t[0],
    decreases t.len(),
{
    let d = t.drop_last();
    if t.len() > 1 {
        lemma_without_first(d, y);
        assert(d[0] == t[0]);
    } else {
        assert(without(d, y).len() == 0);
    }
    if t.last() == y {
        assert(without(t, y) == without(d, y));
    } else {
        assert(without(t, y) == without(d, y).push(t.last()));
    }
}

/// A sequence that starts with `x` has `x` at its first position.
proof fn lemma_first_pos_zero(t: Seq<usize>, x: usize)
    requires
        t.len() > 0,
        t[0] == x,
    ensures
        first_pos(t, x) == 0,
{
    lemma_first_pos_unique(t, x, 0);
}

/// Flattening a split container that has a parent keeps every container's
/// focus up to the root.
pub proof fn lemma_flatten_keeps_focus(v: Seq<NodeView>, r: Seq<nat>, s: int, x: int)
    requires
        links_ok(v),
        ranked(v, r),
        0 <= s < v.len(),
        v[s].parent is Some,
        0 <= x < v.len(),
        spec_has_focus(v, x, None),
    ensures
        spec_has_focus(spec_flatten(v, s), x, None),
    decreases r[x],
{
    let w = spec_flatten(v, s);
    let g = v[s].parent->0 as int;
    let gn = v[g];
    let sn = v[s];
    lemma_parent_facts(v, r, s);
    lemma_focus_unfold(v, x);
    lemma_focus_unfold(w, x);
    let fi = first_pos(gn.focus, s as usize);
    let t = gn.focus.take(fi) + sn.focus + gn.focus.skip(fi);
    assert(w[g].focus == without(t, s as usize));
    if x == s {
        assert(w[x].parent is None);
    } else if sn.children.contains(x as usize) {
        lemma_child_facts(v, r, s, x as usize);
        assert(x != g);
        assert(w[x].parent == Some(g as usize));
        lemma_focus_unfold(v, s);
        assert(fi == 0);
        assert(sn.focus.len() > 0 && sn.focus[0] == x as usize) by {
            assert(first_pos(sn.focus, x as usize) == 0);
            assert(sn.focus.contains(x as usize));
            crate::seq_util::lemma_first_pos(sn.focus, x as usize);
        }
        assert(t[0] == x as usize);
        lemma_without_first(t, s as usize);
        lemma_first_pos_zero(w[g].focus, x as usize);
        lemma_flatten_keeps_focus(v, r, s, g);
    } else if x == g {
        if let Some(pg) = v[g].parent {
            lemma_parent_facts(v, r, g);
            if sn.children.contains(pg) {
                lemma_child_facts(v, r, s, pg);
            }
            assert(w[pg as int] == v[pg as int]);
            lemma_flatten_keeps_focus(v, r, s, pg as int);
        }
    } else {
        assert(w[x] == v[x]);
        if let Some(p) = v[x].parent {
            lemma_parent_facts(v, r, x);
            if p as int == g {
                assert(gn.focus.contains(x as usize));
                crate::seq_util::lemma_first_pos(gn.focus, x as usize);
                assert(gn.focus[0] == x as usize);
                crate::seq_util::lemma_first_pos(gn.focus, s as usize);
                assert(fi > 0);
                assert(t[0] == x as usize);
                lemma_without_first(t, s as usize);
                lemma_first_pos_zero(w[g].focus, x as usize);
            } else if p as int == s {
                assert(sn.children.contains(x as usize));
            } else {
                assert(w[p as int].focus == v[p as int].focus);
            }
            lemma_flatten_keeps_focus(v, r, s, p as int);
        }
    }
}

/// Flattening in turn each of `splits`, children of `p`, that is a split
/// container with a single child keeps the tree well formed, keeps `p`'s
/// other children under `p`, and keeps `x`'s focus up to the root.
proof fn lemma_flatten_each_keeps_focus(
    v: Seq<NodeView>,
    r: Seq<nat>,
    p: int,
    splits: Seq<usize>,
    x: int,
)
    requires
        links_ok(v),
        ranked(v, r),
        0 <= p < v.len(),
        splits.no_duplicates(),
        forall|j: int|
            0 <= j < splits.len() ==> (#[trigger] splits[j] as int) < v.len() && v[splits[j] as int].parent
                == Some(p as usize),
        0 <= x < v.len(),
        spec_has_focus(v, x, None),
    ensures
        flatten_each(v, splits).len() == v.len(),
        links_ok(flatten_each(v, splits)),
        ranked(flatten_each(v, splits), r),
        forall|y: int|
            0 <= y < v.len() && v[y].parent == Some(p as usize) && !splits.contains(y as usize)
                ==> #[trigger] flatten_each(v, splits)[y].parent == Some(p as usize),
        spec_has_focus(flatten_each(v, splits), x, None),
    decreases splits.len(),
{
    if splits.len() > 0 {
        let d = splits.drop_last();
        assert forall|j: int| 0 <= j < d.len() implies (#[trigger] d[j] as int) < v.len()
            && v[d[j] as int].parent == Some(p as usize) by {
            assert(d[j] == splits[j]);
        }
        lemma_flatten_each_keeps_focus(v, r, p, d, x);
        let w1 = flatten_each(v, d);
        let s = splits.last() as int;
        assert(splits[splits.len() - 1] == s as usize);
        assert(!d.contains(s as usize)) by {
            if d.contains(s as usize) {
                let k = choose|k: int| 0 <= k < d.len() && d[k] == s as usize;
                assert(splits[k] == splits[splits.len() - 1]);
            }
        }
        assert(w1[s].parent == Some(p as usize));
        assert forall|y: int|
            0 <= y < v.len() && v[y].parent == Some(p as usize) && !splits.contains(y as usize)
            implies !d.contains(y as usize) by {
            if d.contains(y as usize) {
                let k = choose|k: int| 0 <= k < d.len() && d[k] == y as usize;
                assert(splits[k] == y as usize);
            }
        }
        if is_split_kind(w1[s].kind) && w1[s].children.len() == 1 {
            lemma_flatten_wf(w1, r, s);
            lemma_flatten_keeps_focus(w1, r, s, x);
            let w = spec_flatten(w1, s);
            assert(flatten_each(v, splits) == w);
            lemma_parent_facts(w1, r, s);
            assert forall|y: int|
                0 <= y < v.len() && v[y].parent == Some(p as usize) && !splits.contains(y as usize)
                implies #[trigger] w[y].parent == Some(p as usize) by {
                assert(w1[y].parent == Some(p as usize));
                lemma_parent_facts(w1, r, y);
                assert(y != s) by {
                    assert(splits.contains(s as usize));
                }
                if w1[s].children.contains(y as usize) {
                    lemma_child_facts(w1, r, s, y as usize);
                }
            }
        }
    }
}

/// Flattening the redundant split containers under `p` keeps the tree well
/// formed and keeps `x`'s focus up to the root.
proof fn lemma_flatten_child_splits_keeps_focus(v: Seq<NodeView>, r: Seq<nat>, p: int, x: int)
    requires
        links_ok(v),
        ranked(v, r),
        0 <= p < v.len(),
        0 <= x < v.len(),
        spec_has_focus(v, x, None),
    ensures
        spec_flatten_child_splits(v, p).len() == v.len(),
        links_ok(spec_flatten_child_splits(v, p)),
        ranked(spec_flatten_child_splits(v, p), r),
        spec_has_focus(spec_flatten_child_splits(v, p), x, None),
{
    if is_direction_kind(v[p].kind) {
        let kids = v[p].children;
        let tiling = tiling_only(v, kids);
        lemma_tiling_only(v, kids);
        assert forall|j: int| 0 <= j < tiling.len() implies (#[trigger] tiling[j] as int) < v.len()
            && v[tiling[j] as int].parent == Some(p as usize) by {
            assert(tiling.contains(tiling[j]));
            lemma_child_facts(v, r, p, tiling[j]);
        }
        if tiling.len() == 1 {
            if is_split_kind(v[tiling[0] as int].kind) {
                let s = tiling[0] as int;
                lemma_flatten_wf(v, r, s);
                lemma_flatten_keeps_focus(v, r, s, x);
            }
        } else {
            lemma_flatten_each_keeps_focus(v, r, p, tiling, x);
        }
    }
}

/// Flattening the redundant split containers under each of `parents`, last
/// first, keeps the tree well formed and keeps `x`'s focus up to the root.
pub proof fn lemma_flatten_under_each_keeps_focus(
    v: Seq<NodeView>,
    r: Seq<nat>,
    parents: Seq<usize>,
    x: int,
)
    requires
        links_ok(v),
        ranked(v, r),
        forall|j: int| 0 <= j < parents.len() ==> (#[trigger] parents[j] as int) < v.len(),
        0 <= x < v.len(),
        spec_has_focus(v, x, None),
    ensures
        flatten_under_each_rev(v, parents).len() == v.len(),
        links_ok(flatten_under_each_rev(v, parents)),
        ranked(flatten_under_each_rev(v, parents), r),
        spec_has_focus(flatten_under_each_rev(v, parents), x, None),
    decreases parents.len(),
{
    if parents.len() > 0 {
        let a = parents.last() as int;
        assert(parents[parents.len() - 1] as int == a);
        lemma_flatten_child_splits_keeps_focus(v, r, a, x);
        let w1 = spec_flatten_child_splits(v, a);
        let d = parents.drop_last();
        assert forall|j: int| 0 <= j < d.len() implies (#[trigger] d[j] as int) < w1.len() by {
            assert(d[j] == parents[j]);
        }
        lemma_flatten_under_each_keeps_focus(w1, r, d, x);
    }
}

/// Detaching `c` changes the parent of no container but `c` and, where the
/// parent is a split container left empty, that parent; and the focus order
/// of no container but the parent and, in that case, the grandparent.
proof fn lemma_detach_frame(v: Seq<NodeView>, r: Seq<nat>, c: int)
    requires
        links_ok(v),
        ranked(v, r),
        0 <= c < v.len(),
        !detach_fails(v, c),
    ensures
        spec_detach(v, c).len() == v.len(),
        spec_detach(v, c)[c].parent is None,
        parent_is_sole_split(v, c) ==> forall|y: int|
            0 <= y < v.len() && y != c && y != v[c].parent->0 as int ==> #[trigger] spec_detach(
                v,
                c,
            )[y].parent == v[y].parent,
        parent_is_sole_split(v, c) ==> forall|y: int|
            0 <= y < v.len() && y != v[c].parent->0 as int && y != v[v[c].parent->0 as int].parent->0
                as int ==> #[trigger] spec_detach(v, c)[y].focus == v[y].focus,
        !parent_is_sole_split(v, c) ==> forall|y: int|
            0 <= y < v.len() && y != c ==> #[trigger] spec_detach(v, c)[y].parent == v[y].parent,
        !parent_is_sole_split(v, c) ==> forall|y: int|
            0 <= y < v.len() && y != v[c].parent->0 as int ==> #[trigger] spec_detach(v, c)[y].focus
                == v[y].focus,
{
    let w = spec_detach(v, c);
    let p = v[c].parent->0 as int;
    lemma_parent_facts(v, r, c);
    if parent_is_sole_split(v, c) {
        let v1 = spec_flatten(v, p);
        let g = v[p].parent->0 as int;
        assert(v[p].children[0] == c as usize) by {
            let k = choose|k: int| 0 <= k < v[p].children.len() && v[p].children[k] == c as usize;
        }
        assert forall|y: usize| #[trigger] v[p].children.contains(y) implies y == c as usize by {
            let k = choose|k: int| 0 <= k < v[p].children.len() && v[p].children[k] == y;
        }
        lemma_flatten_wf(v, r, p);
        lemma_parent_facts(v, r, p);
        assert(v1[c].parent == Some(g as usize));
        assert forall|y: int| 0 <= y < v.len() && y != c && y != p implies #[trigger] w[y].parent
            == v[y].parent by {
            assert(v1[y].parent == v[y].parent);
        }
        assert forall|y: int| 0 <= y < v.len() && y != p && y != g implies #[trigger] w[y].focus
            == v[y].focus by {
            assert(v1[y].focus == v[y].focus);
        }
    }
}

/// Where `x` reaches `a` from below and `only` is `a`'s only child, `x`
/// reaches `only`.
proof fn lemma_reaches_sole_child(v: Seq<NodeView>, r: Seq<nat>, x: int, a: int, only: usize)
    requires
        links_ok(v),
        ranked(v, r),
        0 <= x < v.len(),
        reaches(v, x, a),
        x != a,
        forall|y: usize| #[trigger] v[a].children.contains(y) ==> y == only,
    ensures
        reaches(v, x, only as int),
    decreases r[x],
{
    lemma_reaches_unfold(v, x, a);
    let px = v[x].parent->0 as int;
    lemma_parent_facts(v, r, x);
    if px == a {
        assert(x == only as int);
        assert(ancestor(v, x, 0) == Some(x));
    } else {
        lemma_reaches_sole_child(v, r, px, a, only);
        lemma_reaches_unfold(v, x, only as int);
    }
}

/// A tree that keeps the parents of everything `x` reaches has the same
/// ancestors of `x`.
proof fn lemma_chain_frame(v: Seq<NodeView>, w: Seq<NodeView>, x: int, j: nat)
    requires
        w.len() == v.len(),
        forall|y: int| #[trigger] reaches(v, x, y) ==> w[y].parent == v[y].parent,
    ensures
        ancestor(w, x, j) == ancestor(v, x, j),
    decreases j,
{
    if j > 0 && 0 <= x < v.len() {
        assert(ancestor(v, x, 0) == Some(x));
        assert(reaches(v, x, x));
        if let Some(p) = v[x].parent {
            assert forall|y: int| #[trigger] reaches(v, p as int, y) implies w[y].parent
                == v[y].parent by {
                lemma_reaches_unfold(v, x, y);
            }
            lemma_chain_frame(v, w, p as int, (j - 1) as nat);
        }
    }
}

/// A tree with the same parents and children and, for each container, a
/// focus order with the same elements is well formed with the same ranks.
proof fn lemma_focus_contents_wf(v: Seq<NodeView>, w: Seq<NodeView>, r: Seq<nat>)
    requires
        links_ok(v),
        ranked(v, r),
        w.len() == v.len(),
        forall|i: int|
            #![trigger w[i]]
            0 <= i < v.len() ==> w[i].parent == v[i].parent && w[i].children == v[i].children,
        forall|i: int, y: usize|
            #![trigger w[i].focus.contains(y)]
            #![trigger v[i].focus.contains(y)]
            0 <= i < v.len() ==> (w[i].focus.contains(y) <==> v[i].focus.contains(y)),
    ensures
        links_ok(w),
        ranked(w, r),
{
    assert forall|q: int, k: int| 0 <= q < w.len() && 0 <= k < w[q].focus.len() implies (
    #[trigger] w[q].focus[k] as int) < w.len() by {
        let y = w[q].focus[k];
        assert(w[q].focus.contains(y));
        let m = choose|m: int| 0 <= m < v[q].focus.len() && v[q].focus[m] == y;
        assert(v[q].focus[m] == y);
    }
    assert forall|i: int| 0 <= i < w.len() && #[trigger] w[i].parent is Some implies {
        let q = w[i].parent->0 as int;
        0 <= q < w.len() && w[q].children.contains(i as usize)
    } by {
        assert(w[i].parent == v[i].parent);
        assert(v[i].parent is Some);
        let q = v[i].parent->0 as int;
        assert(w[q].children == v[q].children);
    }
    assert forall|q: int, k: int| 0 <= q < w.len() && 0 <= k < w[q].children.len() implies {
        let c = #[trigger] w[q].children[k];
        (c as int) < w.len() && w[c as int].parent == Some(q as usize)
    } by {
        assert(w[q].children == v[q].children);
        let c = v[q].children[k];
        assert(w[c as int].parent == v[c as int].parent);
    }
    assert forall|q: int| 0 <= q < w.len() implies (#[trigger] w[q].children).no_duplicates() by {
        assert(w[q].children == v[q].children);
    }
    assert forall|q: int, x: usize| 0 <= q < w.len() && #[trigger] w[q].children.contains(x)
        implies w[q].focus.contains(x) by {
        assert(w[q].children == v[q].children);
    }
    assert forall|i: int| 0 <= i < w.len() && #[trigger] w[i].parent is Some implies r[w[i].parent->0
        as int] < r[i] by {
        assert(w[i].parent == v[i].parent);
    }
}

/// Detaching keeps the tree well formed with the same ranks.
proof fn lemma_detach_wf(v: Seq<NodeView>, r: Seq<nat>, c: int)
    requires
        links_ok(v),
        ranked(v, r),
        0 <= c < v.len(),
        !detach_fails(v, c),
    ensures
        links_ok(spec_detach(v, c)),
        ranked(spec_detach(v, c), r),
{
    let p = v[c].parent->0 as int;
    lemma_parent_facts(v, r, c);
    if parent_is_sole_split(v, c) {
        lemma_flatten_wf(v, r, p);
        let v1 = spec_flatten(v, p);
        assert(v[p].children.contains(c as usize));
        lemma_parent_facts(v, r, p);
        lemma_remove_child_wf(v1, r, v[p].parent->0 as int, c);
    } else {
        lemma_remove_child_wf(v, r, p, c);
    }
}

/// Detaching `c` from under `lca` and attaching it to `tp`, in another
/// subtree of `lca` rooted at `tp_anc`, keeps the tree well formed and keeps
/// `lca`'s focus up to the root; `c` then reaches `tp_anc` and next `lca`.
proof fn lemma_detach_attach_across(
    v: Seq<NodeView>,
    r: Seq<nat>,
    c: int,
    tp: int,
    lca: int,
    c_anc: int,
    tp_anc: int,
    index: usize,
) -> (m: nat)
    requires
        links_ok(v),
        ranked(v, r),
        0 <= c < v.len(),
        0 <= tp < v.len(),
        0 <= lca < v.len(),
        0 <= c_anc < v.len(),
        0 <= tp_anc < v.len(),
        !detach_fails(v, c),
        v[c].parent != Some(tp as usize),
        v[c_anc].parent == Some(lca as usize),
        v[tp_anc].parent == Some(lca as usize),
        c_anc != tp_anc,
        reaches(v, c, c_anc),
        reaches(v, tp, tp_anc),
        reaches(v, c, lca),
        !reaches(v, tp, c),
        r[lca] < r[c],
        r[lca] < r[tp],
        spec_has_focus(v, lca, None),
    ensures
        ({
            let v2 = spec_attach(spec_detach(v, c), c, tp, Some(index));
            &&& links_ok(v2)
            &&& ranked(v2, attach_ranks(spec_detach(v, c), r, c, tp))
            &&& spec_has_focus(v2, lca, None)
            &&& m >= 1
            &&& ancestor(v2, c, m) == Some(tp_anc)
            &&& ancestor(v2, c, m + 1) == Some(lca)
        }),
{
    let p = v[c].parent->0 as int;
    lemma_parent_facts(v, r, c);
    assert(c != tp) by {
        assert(ancestor(v, tp, 0) == Some(tp));
    }
    let v1 = spec_detach(v, c);
    lemma_detach_frame(v, r, c);
    lemma_detach_wf(v, r, c);
    lemma_detach_parents(v, r, c);
    assert(!reaches(v1, tp, c)) by {
        if reaches(v1, tp, c) {
            lemma_reaches_fewer_parents(v, v1, tp, c);
        }
    }
    let v2 = spec_attach(v1, c, tp, Some(index));
    lemma_attach_wf(v1, r, c, tp, Some(index));
    assert(c != lca);
    lemma_reaches_unfold(v, c, lca);
    assert(reaches(v, p, lca));
    lemma_reaches_rank(v, r, p, lca);
    let sole = parent_is_sole_split(v, c);
    let g = v[p].parent->0 as int;
    if sole {
        assert forall|y: usize| #[trigger] v[p].children.contains(y) implies y == c as usize by {
            let k = choose|k: int| 0 <= k < v[p].children.len() && v[p].children[k] == y;
            let k0 = choose|k: int| 0 <= k < v[p].children.len() && v[p].children[k] == c as usize;
        }
        assert(p != lca) by {
            if p == lca {
                lemma_parent_facts(v, r, tp_anc);
                lemma_parent_facts(v, r, c_anc);
            }
        }
        lemma_reaches_unfold(v, p, lca);
        lemma_parent_facts(v, r, p);
        lemma_reaches_rank(v, r, g, lca);
        assert(!reaches(v, tp, p)) by {
            if reaches(v, tp, p) {
                lemma_reaches_sole_child(v, r, tp, p, c as usize);
            }
        }
    }
    assert forall|y: int| 0 <= y < v.len() && r[y] <= r[lca] implies #[trigger] v2[y].parent
        == v[y].parent by {
        assert(y != c);
        assert(v1[y].parent == v[y].parent);
    }
    assert forall|y: int| 0 <= y < v.len() && r[y] < r[lca] implies #[trigger] v2[y].focus
        == v[y].focus by {
        assert(y != c && y != tp && y != p);
        assert(v1[y].focus == v[y].focus);
    }
    lemma_focus_frame(v, v2, r, lca);
    assert forall|y: int| #[trigger] reaches(v, tp, y) implies v2[y].parent == v[y].parent by {
        lemma_reaches_rank(v, r, tp, y);
        assert(y != c);
        assert(v1[y].parent == v[y].parent);
    }
    let jt = choose|j: nat| ancestor(v, tp, j) == Some(tp_anc);
    lemma_ancestor_step(v, tp, jt);
    lemma_chain_frame(v, v2, tp, jt);
    lemma_chain_frame(v, v2, tp, jt + 1);
    let m: nat = jt + 1;
    assert(ancestor(v2, c, m) == ancestor(v2, tp, jt));
    assert(ancestor(v2, c, m + 1) == ancestor(v2, tp, jt + 1));
    m
}

/// Making `c` the focused descendant up to `tp_anc`, then moving `tp_anc` to
/// the front of its parent `lca`'s focus order, keeps the tree well formed
/// and keeps `lca`'s focus up to the root.
proof fn lemma_focus_over_keeps_wf(
    u: Seq<NodeView>,
    r: Seq<nat>,
    c: int,
    lca: int,
    tp_anc: int,
    m: nat,
)
    requires
        links_ok(u),
        ranked(u, r),
        0 <= c < u.len(),
        m >= 1,
        ancestor(u, c, m) == Some(tp_anc),
        ancestor(u, c, m + 1) == Some(lca),
        spec_has_focus(u, lca, None),
    ensures
        ({
            let v3 = spec_set_focused_descendant(u, c, Some(tp_anc as usize));
            let v4 = spec_shift_focus(v3, lca, 0, tp_anc as usize);
            &&& links_ok(v3)
            &&& ranked(v3, r)
            &&& links_ok(v4)
            &&& ranked(v4, r)
            &&& spec_has_focus(v4, lca, None)
        }),
{
    let v3 = spec_set_focused_descendant(u, c, Some(tp_anc as usize));
    let v4 = spec_shift_focus(v3, lca, 0, tp_anc as usize);
    lemma_ancestor_rank(u, r, c, m, m + 1);
    assert forall|i: int| #![trigger v3[i]] 0 <= i < u.len() implies v3[i].parent == u[i].parent
        && v3[i].children == u[i].children by {}
    assert forall|i: int, y: usize|
        #![trigger v3[i].focus.contains(y)]
        #![trigger u[i].focus.contains(y)]
        0 <= i < u.len() implies (v3[i].focus.contains(y) <==> u[i].focus.contains(y)) by {
        if exists|k: nat| on_focus_path(u, c, Some(tp_anc as usize), k) && ancestor(u, c, k) == Some(i) {
            let k = choose|k: nat| on_focus_path(u, c, Some(tp_anc as usize), k) && ancestor(u, c, k) == Some(i);
            lemma_shift_contains(u[i].focus, 0, ancestor(u, c, (k - 1) as nat)->0 as usize, y);
        }
    }
    lemma_focus_contents_wf(u, v3, r);
    assert forall|y: usize| #[trigger] spec_shift_to_index(v3[lca].focus, 0, tp_anc as usize).contains(y)
        <==> v3[lca].focus.contains(y) by {
        lemma_shift_contains(v3[lca].focus, 0, tp_anc as usize, y);
    }
    lemma_focus_change_wf(v3, r, lca, spec_shift_to_index(v3[lca].focus, 0, tp_anc as usize));
    assert forall|i: int| 0 <= i < u.len() && r[i] <= r[lca] implies #[trigger] v4[i].parent == u[i].parent by {
        assert(v3[i].parent == u[i].parent);
    }
    assert forall|y: int| 0 <= y < u.len() && r[y] < r[lca] implies #[trigger] v4[y].focus
        == u[y].focus by {
        if exists|k: nat| on_focus_path(u, c, Some(tp_anc as usize), k) && ancestor(u, c, k) == Some(y) {
            let k = choose|k: nat| on_focus_path(u, c, Some(tp_anc as usize), k) && ancestor(u, c, k) == Some(y);
            if k > m {
                assert(is_end(u, c, Some(tp_anc as usize), m));
            } else if k < m {
                lemma_ancestor_rank(u, r, c, k, m);
            }
        }
    }
    lemma_focus_frame(u, v4, r, lca);
}

/// After `c` is made the focused descendant up to `tp_anc` and `tp_anc`
/// moves to the front of its parent `lca`'s focus order, `c` has focus up
/// to the root where `lca` had.
proof fn lemma_focus_over_gives_focus(
    u: Seq<NodeView>,
    r: Seq<nat>,
    c: int,
    lca: int,
    tp_anc: int,
    m: nat,
)
    requires
        links_ok(u),
        ranked(u, r),
        0 <= c < u.len(),
        m >= 1,
        ancestor(u, c, m) == Some(tp_anc),
        ancestor(u, c, m + 1) == Some(lca),
        links_ok(spec_set_focused_descendant(u, c, Some(tp_anc as usize))),
        spec_has_focus(
            spec_shift_focus(
                spec_set_focused_descendant(u, c, Some(tp_anc as usize)),
                lca,
                0,
                tp_anc as usize,
            ),
            lca,
            None,
        ),
    ensures
        spec_has_focus(
            spec_shift_focus(
                spec_set_focused_descendant(u, c, Some(tp_anc as usize)),
                lca,
                0,
                tp_anc as usize,
            ),
            c,
            None,
        ),
{
    let v3 = spec_set_focused_descendant(u, c, Some(tp_anc as usize));
    let v4 = spec_shift_focus(v3, lca, 0, tp_anc as usize);
    lemma_ancestor_rank(u, r, c, m, m + 1);
    assert(v4.len() == u.len());
    assert forall|i: int| 0 <= i < u.len() implies #[trigger] v3[i].parent == u[i].parent by {}
    assert forall|i: int| 0 <= i < u.len() implies #[trigger] v4[i].parent == u[i].parent by {
        assert(v3[i].parent == u[i].parent);
    }
    law_set_focused_descendant_gives_focus(u, c, Some(tp_anc as usize));
    assert forall|k: nat|
        #[trigger] ancestor(v4, c, k) is Some && before_end(v4, c, None, k) implies first_in_parent(
        v4,
        ancestor(v4, c, k)->0,
    ) by {
        lemma_same_parents_ancestor(u, v4, c, k);
        lemma_same_parents_ancestor(u, v3, c, k);
        if k > m {
            let d = (k - m - 1) as nat;
            lemma_ancestor_add(v4, c, m + 1, d);
            lemma_same_parents_ancestor(u, v4, c, m + 1);
            assert(m + 1 + d == k);
            lemma_no_end(v4, lca, d);
        } else if k == m {
            lemma_ancestor_step(u, c, m);
            lemma_ancestor_rank(u, r, c, m, m + 1);
            assert(u[tp_anc].parent == Some(lca as usize));
            assert(v3[tp_anc].parent == Some(lca as usize));
            assert(v3[lca].children.contains(tp_anc as usize));
            lemma_shift_front(v3[lca].focus, tp_anc as usize);
            lemma_first_pos_zero(v4[lca].focus, tp_anc as usize);
        } else {
            lemma_ancestor_rank(u, r, c, k, m);
            assert forall|i: nat| i <= k implies !#[trigger] is_end(v3, c, Some(tp_anc as usize), i) by {
                lemma_same_parents_ancestor(u, v3, c, i);
                if i < k {
                    lemma_ancestor_rank(u, r, c, i, k);
                }
                lemma_ancestor_distinct(u, r, c, i, m);
            }
            assert(first_in_parent(v3, ancestor(v3, c, k)->0));
            lemma_ancestor_step(u, c, k);
            lemma_ancestor_rank(u, r, c, k + 1, m + 1);
            lemma_ancestor_distinct(u, r, c, k + 1, m + 1);
            let y = ancestor(u, c, k)->0;
            if let Some(q) = u[y].parent {
                assert(ancestor(u, c, k + 1) == Some(q as int));
                assert(q as int != lca);
                assert(v4[q as int].focus == v3[q as int].focus);
            }
        }
    }
}

/// Relocating the container `c`, which has focus up to the root and whose
/// subtree under `lca` (rooted at `c_anc`) comes first in `lca`'s focus
/// order, into the other subtree of `lca` rooted at `tp_anc`, with that
/// subtree taking its place, leaves `c` with focus up to the root.
proof fn lemma_relocate_keeps_focus(
    v: Seq<NodeView>,
    r: Seq<nat>,
    c: int,
    tp: int,
    lca: int,
    c_anc: int,
    tp_anc: int,
    index: usize,
    ancestors: Seq<usize>,
)
    requires
        links_ok(v),
        ranked(v, r),
        0 <= c < v.len(),
        0 <= tp < v.len(),
        0 <= lca < v.len(),
        0 <= c_anc < v.len(),
        0 <= tp_anc < v.len(),
        !detach_fails(v, c),
        v[c].parent != Some(tp as usize),
        v[c_anc].parent == Some(lca as usize),
        v[tp_anc].parent == Some(lca as usize),
        c_anc != tp_anc,
        reaches(v, c, c_anc),
        reaches(v, tp, tp_anc),
        reaches(v, c, lca),
        !reaches(v, tp, c),
        r[lca] < r[c],
        r[lca] < r[tp],
        spec_has_focus(v, lca, None),
        forall|j: int| 0 <= j < ancestors.len() ==> (#[trigger] ancestors[j] as int) < v.len(),
    ensures
        spec_relocate(v, c, tp, lca, tp_anc, true, 0, true, index, ancestors) matches Ok((w, b)) ==> b
            && spec_has_focus(w, c, None),
{
    let m = lemma_detach_attach_across(v, r, c, tp, lca, c_anc, tp_anc, index);
    let v1 = spec_detach(v, c);
    lemma_detach_frame(v, r, c);
    let v2 = spec_attach(v1, c, tp, Some(index));
    let r2 = attach_ranks(v1, r, c, tp);
    lemma_focus_over_keeps_wf(v2, r2, c, lca, tp_anc, m);
    lemma_focus_over_gives_focus(v2, r2, c, lca, tp_anc, m);
    let v4 = spec_shift_focus(
        spec_set_focused_descendant(v2, c, Some(tp_anc as usize)),
        lca,
        0,
        tp_anc as usize,
    );
    assert(v4.len() == v.len());
    lemma_flatten_under_each_keeps_focus(v4, r2, ancestors, c);
}

/// Moving the container `c`, which has focus up to the root, to the common
/// ancestor `lca` of it and the target leaves it with focus up to the root.
proof fn lemma_move_to_lca_keeps_focus(
    v: Seq<NodeView>,
    r: Seq<nat>,
    c: int,
    lca: int,
    index: usize,
)
    requires
        links_ok(v),
        ranked(v, r),
        0 <= c < v.len(),
        0 <= lca < v.len(),
        v[c].parent is Some,
        v[c].parent != Some(lca as usize),
        reaches(v, c, lca),
        spec_has_focus(v, c, None),
    ensures
        spec_move_to_lca(v, c, lca, index) matches Ok((w, b)) ==> b && spec_has_focus(w, c, None),
{
    if child_toward(v, c, lca) is Some && !detach_fails(v, c) {
        let anc = child_toward(v, c, lca)->0;
        lemma_child_toward(v, r, c, lca);
        let ka = choose|k: nat| ancestor(v, c, k) == Some(anc);
        lemma_focus_ancestor(v, c, ka);
        lemma_focus_unfold(v, anc);
        assert(focus_index_in_parent(v, anc) == 0);
        let kl = choose|k: nat| ancestor(v, c, k) == Some(lca);
        lemma_focus_ancestor(v, c, kl);
        let p = v[c].parent->0 as int;
        lemma_parent_facts(v, r, c);
        let v1 = spec_detach(v, c);
        lemma_detach_frame(v, r, c);
        let v2 = spec_attach(v1, c, lca, Some(index));
        let v3 = spec_shift_focus(v2, lca, 0, c as usize);
        assert(c != lca);
        lemma_reaches_unfold(v, c, lca);
        lemma_reaches_rank(v, r, p, lca);
        let g = v[p].parent->0 as int;
        if parent_is_sole_split(v, c) {
            lemma_reaches_unfold(v, p, lca);
            lemma_parent_facts(v, r, p);
            lemma_reaches_rank(v, r, g, lca);
        }
        assert forall|y: int| 0 <= y < v.len() && r[y] <= r[lca] implies #[trigger] v3[y].parent
            == v[y].parent by {
            assert(y != c);
            assert(v1[y].parent == v[y].parent);
        }
        assert forall|y: int| 0 <= y < v.len() && r[y] < r[lca] implies #[trigger] v3[y].focus
            == v[y].focus by {
            assert(y != c && y != lca && y != p);
            assert(v1[y].focus == v[y].focus);
        }
        lemma_focus_frame(v, v3, r, lca);
        assert(v2[lca].focus.contains(c as usize)) by {
            assert(v2[lca].focus == v1[lca].focus.push(c as usize));
            assert(v2[lca].focus[v1[lca].focus.len() as int] == c as usize);
        }
        lemma_shift_front(v2[lca].focus, c as usize);
        lemma_first_pos_zero(v3[lca].focus, c as usize);
        lemma_focus_unfold(v3, c);
    }
}

/// Moving the container `c`, which has focus up to the root, under `tp` in
/// another subtree of their common ancestor `lca` leaves it with focus up
/// to the root.
proof fn lemma_move_across_keeps_focus(
    v: Seq<NodeView>,
    r: Seq<nat>,
    c: int,
    tp: int,
    lca: int,
    index: usize,
    ancestors: Seq<usize>,
)
    requires
        links_ok(v),
        ranked(v, r),
        0 <= c < v.len(),
        0 <= tp < v.len(),
        spec_lca(v, c, tp) == Some(lca),
        v[c].parent != Some(tp as usize),
        tp != lca,
        spec_has_focus(v, c, None),
        forall|j: int| 0 <= j < ancestors.len() ==> (#[trigger] ancestors[j] as int) < v.len(),
    ensures
        spec_move_across(v, c, tp, lca, index, ancestors) matches Ok((w, b)) ==> b
            && spec_has_focus(w, c, None),
{
    law_lowest_common_ancestor(v, c, tp);
    assert(reaches(v, c, lca) && reaches(v, tp, lca));
    lemma_reaches_rank(v, r, c, lca);
    if child_toward(v, c, lca) is Some && child_toward(v, tp, lca) is Some {
        let c_anc = child_toward(v, c, lca)->0;
        let tp_anc = child_toward(v, tp, lca)->0;
        lemma_child_toward(v, r, c, lca);
        lemma_child_toward(v, r, tp, lca);
        assert(!reaches(v, tp, c)) by {
            if reaches(v, tp, c) {
                lemma_lca_self(v, c, tp);
            }
        }
        assert(c_anc != tp_anc) by {
            if c_anc == tp_anc {
                assert(reaches(v, c, c_anc) && reaches(v, tp, c_anc));
                assert(reaches(v, lca, c_anc));
                lemma_reaches_rank(v, r, lca, c_anc);
                lemma_parent_facts(v, r, c_anc);
            }
        }
        let kc = choose|k: nat| ancestor(v, c, k) == Some(c_anc);
        lemma_focus_ancestor(v, c, kc);
        lemma_focus_unfold(v, c_anc);
        let lf = v[lca].focus;
        lemma_parent_facts(v, r, c_anc);
        lemma_parent_facts(v, r, tp_anc);
        assert(lf.contains(c_anc as usize) && lf.contains(tp_anc as usize));
        crate::seq_util::lemma_first_pos(lf, c_anc as usize);
        crate::seq_util::lemma_first_pos(lf, tp_anc as usize);
        assert(focus_index_in_parent(v, c_anc) == 0);
        assert(focus_index_in_parent(v, tp_anc) > 0);
        assert(spec_has_focus(v, c, Some(c_anc as usize))) by {
            assert forall|k: nat|
                #[trigger] ancestor(v, c, k) is Some && before_end(v, c, Some(c_anc as usize), k)
                implies first_in_parent(v, ancestor(v, c, k)->0) by {
                lemma_no_end(v, c, k);
            }
        }
        if !detach_fails(v, c) {
            lemma_relocate_keeps_focus(v, r, c, tp, lca, c_anc, tp_anc, index, ancestors);
        }
    }
}

/// Moving the focused container within the tree keeps it focused: where
/// `move_container_within_tree` succeeds on a container that comes first in
/// its parent's focus order at every level up to the root, it still does
/// afterwards, and the move reports it as focused. This holds whether the
/// container stays with its parent, moves up to the common ancestor of it
/// and the target, or moves into another subtree of that common ancestor
/// (which then takes the place of the container's former subtree in the
/// common ancestor's focus order).
pub proof fn law_move_keeps_focus(v: Seq<NodeView>, c: int, tp: int, index: usize)
    requires
        tree_wf(v),
        0 <= c < v.len(),
        0 <= tp < v.len(),
        spec_has_focus(v, c, None),
    ensures
        spec_move_container_within_tree(v, c, tp, index) matches Ok((w, focused)) ==> focused
            && spec_has_focus(w, c, None),
{
    let r = choose|r: Seq<nat>| ranked(v, r);
    let ancestors = first_ancestors(v, c);
    assert forall|j: int| 0 <= j < ancestors.len() implies (#[trigger] ancestors[j] as int) < v.len() by {
        if ancestor(v, c, 1) is Some {
            lemma_ancestor_in_range(v, r, c, 1);
        }
        if ancestor(v, c, 2) is Some {
            lemma_ancestor_in_range(v, r, c, 2);
        }
        if ancestor(v, c, 3) is Some {
            lemma_ancestor_in_range(v, r, c, 3);
        }
    }
    if let Some(lca) = spec_lca(v, c, tp) {
        law_lowest_common_ancestor(v, c, tp);
        assert(reaches(v, c, lca));
        lemma_reaches_rank(v, r, c, lca);
        if v[c].parent is Some {
            if v[c].parent == Some(tp as usize) {
                let w = spec_shift_child(v, tp, index as int, c as usize);
                assert forall|y: int| 0 <= y < v.len() && r[y] <= r[c] implies #[trigger] w[y].parent
                    == v[y].parent by {}
                assert forall|y: int| 0 <= y < v.len() && r[y] < r[c] implies #[trigger] w[y].focus
                    == v[y].focus by {}
                lemma_focus_frame(v, w, r, c);
            } else if tp == lca {
                lemma_move_to_lca_keeps_focus(v, r, c, lca, index);
            } else {
                lemma_move_across_keeps_focus(v, r, c, tp, lca, index, ancestors);
            }
        }
    }
}

} // verus!
