use crate::container::model::{
    ancestor, before_end, detach_fails, first_in_parent, is_end, is_split_kind, lca_depth,
    lemma_ancestor_distinct, lemma_ancestor_in_range, lemma_ancestor_rank, lemma_ancestor_step,
    lemma_parent_facts, lemma_reaches_rank,
    links_ok, on_focus_path, ranked, reaches, spec_attach, spec_detach, spec_has_focus, spec_lca,
    spec_move_container_within_tree, spec_set_focused_descendant, spec_shift_child, tree_wf,
    NodeView,
};
use crate::seq_util::{first_pos, lemma_first_pos, lemma_without_absent, lemma_without_single, without};
use crate::vec_deque_ext::{
    clamp_index, law_shift_to_index, lemma_shift_contains, lemma_shift_front, spec_shift_to_index,
};
use vstd::prelude::*;

verus! {

/// Going up `j` steps and then `k` more is going up `j + k` steps.
pub proof fn lemma_ancestor_add(v: Seq<NodeView>, x: int, j: nat, k: nat)
    ensures
        ancestor(v, x, j + k) == (match ancestor(v, x, j) {
            Some(y) => ancestor(v, y, k),
            None => None,
        }),
    decreases j,
{
    if j > 0 && 0 <= x < v.len() {
        if let Some(p) = v[x].parent {
            lemma_ancestor_add(v, p as int, (j - 1) as nat, k);
            assert((j - 1) as nat + k == (j + k - 1) as nat);
        }
    }
}

/// Where some ancestor of `a` (at `k` steps) is reached from `b`, there is
/// a lowest one.
proof fn lemma_lca_depth_exists(v: Seq<NodeView>, a: int, b: int, k: nat)
    requires
        ancestor(v, a, k) matches Some(y) && reaches(v, b, y),
    ensures
        exists|c: nat| lca_depth(v, a, b, c),
    decreases k,
{
    if exists|j: nat| j < k && (#[trigger] ancestor(v, a, j) matches Some(y) && reaches(v, b, y)) {
        let j = choose|j: nat| j < k && (#[trigger] ancestor(v, a, j) matches Some(y) && reaches(v, b, y));
        lemma_lca_depth_exists(v, a, b, j);
    } else {
        assert(lca_depth(v, a, b, k));
    }
}

/// The lowest common ancestor of two containers is one of the containers
/// or an ancestor of each, and every container that is (or is an ancestor
/// of) both is (or is an ancestor of) it. There is none exactly where the
/// two are in different trees.
pub proof fn law_lowest_common_ancestor(v: Seq<NodeView>, a: int, b: int)
    ensures
        match spec_lca(v, a, b) {
            Some(l) => reaches(v, a, l) && reaches(v, b, l) && forall|x: int|
                #![trigger reaches(v, a, x), reaches(v, b, x)]
                reaches(v, a, x) && reaches(v, b, x) ==> reaches(v, l, x),
            None => forall|x: int|
                #![trigger reaches(v, a, x), reaches(v, b, x)]
                !(reaches(v, a, x) && reaches(v, b, x)),
        },
{
    if exists|k: nat| lca_depth(v, a, b, k) {
        let kk = choose|k: nat| lca_depth(v, a, b, k);
        let l = ancestor(v, a, kk)->0;
        assert(ancestor(v, a, kk) == Some(l));
        assert(reaches(v, a, l));
        assert forall|x: int| #![trigger reaches(v, a, x), reaches(v, b, x)]
            reaches(v, a, x) && reaches(v, b, x) implies reaches(v, l, x) by {
            let j = choose|j: nat| ancestor(v, a, j) == Some(x);
            if j < kk {
                assert(ancestor(v, a, j) matches Some(y) && reaches(v, b, y));
            }
            let d = (j - kk) as nat;
            lemma_ancestor_add(v, a, kk, d);
            assert(kk + d == j);
            assert(ancestor(v, l, d) == Some(x));
        }
    } else {
        assert forall|x: int| #![trigger reaches(v, a, x), reaches(v, b, x)]
            !(reaches(v, a, x) && reaches(v, b, x)) by {
            if reaches(v, a, x) && reaches(v, b, x) {
                let j = choose|j: nat| ancestor(v, a, j) == Some(x);
                lemma_ancestor_depth_witness(v, a, b, j, x);
            }
        }
    }
}

/// Two containers that reach each other are the same container.
proof fn lemma_reaches_antisymmetric(v: Seq<NodeView>, r: Seq<nat>, x: int, y: int)
    requires
        links_ok(v),
        ranked(v, r),
        0 <= x < v.len(),
        reaches(v, x, y),
        reaches(v, y, x),
    ensures
        x == y,
{
    lemma_reaches_rank(v, r, x, y);
    lemma_reaches_rank(v, r, y, x);
    let k = choose|k: nat| ancestor(v, x, k) == Some(y);
    if k > 0 {
        lemma_ancestor_rank(v, r, x, 0, k);
    }
}

/// The lowest common ancestor does not depend on the order of the two
/// containers.
pub proof fn law_lowest_common_ancestor_symmetric(v: Seq<NodeView>, a: int, b: int)
    requires
        tree_wf(v),
        0 <= a < v.len(),
        0 <= b < v.len(),
    ensures
        spec_lca(v, a, b) == spec_lca(v, b, a),
{
    let r = choose|r: Seq<nat>| ranked(v, r);
    law_lowest_common_ancestor(v, a, b);
    law_lowest_common_ancestor(v, b, a);
    match (spec_lca(v, a, b), spec_lca(v, b, a)) {
        (Some(l1), Some(l2)) => {
            assert(reaches(v, a, l1) && reaches(v, b, l1));
            assert(reaches(v, b, l2) && reaches(v, a, l2));
            lemma_reaches_rank(v, r, a, l1);
            lemma_reaches_antisymmetric(v, r, l1, l2);
        },
        (Some(l1), None) => {
            assert(reaches(v, a, l1) && reaches(v, b, l1));
        },
        (None, Some(l2)) => {
            assert(reaches(v, b, l2) && reaches(v, a, l2));
        },
        (None, None) => {},
    }
}

proof fn lemma_ancestor_depth_witness(v: Seq<NodeView>, a: int, b: int, j: nat, x: int)
    requires
        ancestor(v, a, j) == Some(x),
        reaches(v, b, x),
    ensures
        exists|c: nat| lca_depth(v, a, b, c),
{
    lemma_lca_depth_exists(v, a, b, j);
}

/// A tree that differs from another only in focus orders has the same
/// ancestors.
pub proof fn lemma_same_parents_ancestor(v: Seq<NodeView>, w: Seq<NodeView>, x: int, k: nat)
    requires
        w.len() == v.len(),
        forall|i: int| 0 <= i < v.len() ==> #[trigger] w[i].parent == v[i].parent,
    ensures
        ancestor(w, x, k) == ancestor(v, x, k),
    decreases k,
{
    if k > 0 && 0 <= x < v.len() {
        if let Some(p) = v[x].parent {
            lemma_same_parents_ancestor(v, w, p as int, (k - 1) as nat);
        }
    }
}

/// After a container is made the focused descendant of its ancestors up to
/// `end` (or up to the root), it has focus up to `end`: each container on
/// the way comes first in its parent's focus order.
pub proof fn law_set_focused_descendant_gives_focus(v: Seq<NodeView>, c: int, end: Option<usize>)
    requires
        tree_wf(v),
        0 <= c < v.len(),
    ensures
        spec_has_focus(spec_set_focused_descendant(v, c, end), c, end),
{
    let r = choose|r: Seq<nat>| ranked(v, r);
    let w = spec_set_focused_descendant(v, c, end);
    assert forall|i: int| 0 <= i < v.len() implies #[trigger] w[i].parent == v[i].parent by {}
    assert forall|k: nat|
        #[trigger] ancestor(w, c, k) is Some && before_end(w, c, end, k) implies first_in_parent(
        w,
        ancestor(w, c, k)->0,
    ) by {
        lemma_same_parents_ancestor(v, w, c, k);
        lemma_same_parents_ancestor(v, w, c, k + 1);
        let x = ancestor(v, c, k)->0;
        lemma_ancestor_in_range(v, r, c, k);
        if let Some(p) = v[x].parent {
            lemma_parent_facts(v, r, x);
            lemma_ancestor_step(v, c, k);
            assert(ancestor(v, c, k + 1) == Some(p as int));
            assert forall|j: nat| 1 <= j < k + 1 implies !#[trigger] is_end(v, c, end, j) by {
                lemma_same_parents_ancestor(v, w, c, j);
                assert(!is_end(w, c, end, j));
            }
            assert(on_focus_path(v, c, end, k + 1));
            let kk = choose|kk: nat| on_focus_path(v, c, end, kk) && ancestor(v, c, kk) == Some(
                p as int,
            );
            if kk != k + 1 {
                lemma_ancestor_distinct(v, r, c, kk, k + 1);
            }
            assert(w[p as int].focus == spec_shift_to_index(v[p as int].focus, 0, x as usize));
            assert(v[p as int].focus.contains(x as usize));
            lemma_shift_front(v[p as int].focus, x as usize);
            let f = w[p as int].focus;
            lemma_first_pos(f, x as usize);
            assert(f.contains(x as usize)) by {
                assert(f[0] == x as usize);
            }
            assert(first_pos(f, x as usize) == 0) by {
                if first_pos(f, x as usize) > 0 {
                    assert(f[0] != x as usize);
                }
            }
        }
    }
}

/// Detaching a container just attached restores the tree, unless its new
/// parent is a split container that had no children (detaching then also
/// flattens that split container away).
pub proof fn law_detach_undoes_attach(v: Seq<NodeView>, c: int, p: int, index: Option<usize>)
    requires
        tree_wf(v),
        0 <= c < v.len(),
        0 <= p < v.len(),
        c != p,
        v[c].parent is None,
        !v[p].focus.contains(c as usize),
        !(is_split_kind(v[p].kind) && v[p].children.len() == 0),
    ensures
        !detach_fails(spec_attach(v, c, p, index), c),
        spec_detach(spec_attach(v, c, p, index), c) == v,
{
    let w = spec_attach(v, c, p, index);
    let pn = v[p];
    assert(!pn.children.contains(c as usize)) by {
        if pn.children.contains(c as usize) {
            let k = choose|k: int| 0 <= k < pn.children.len() && pn.children[k] == c as usize;
            assert(v[c].parent == Some(p as usize));
        }
    }
    let kids = w[p].children;
    match index {
        Some(i) => {
            let j = if i as int > pn.children.len() {
                pn.children.len() as int
            } else {
                i as int
            };
            assert(kids == pn.children.insert(j, c as usize));
            assert(kids.no_duplicates()) by {
                crate::seq_util::lemma_insert_no_dup(pn.children, j, c as usize);
            }
            lemma_without_single(kids, c as usize, j);
            assert(kids.remove(j) =~= pn.children);
        },
        None => {
            assert(kids == pn.children.push(c as usize));
            assert(kids.drop_last() =~= pn.children);
            lemma_without_absent(pn.children, c as usize);
        },
    }
    assert(without(kids, c as usize) == pn.children);
    let f = pn.focus.push(c as usize);
    assert(f.drop_last() =~= pn.focus);
    lemma_without_absent(pn.focus, c as usize);
    assert(without(f, c as usize) == pn.focus);
    let u = spec_detach(w, c);
    assert forall|i: int| 0 <= i < v.len() implies #[trigger] u[i] == v[i] by {}
    assert(u =~= v);
}

/// Moving a container to its own parent only shifts it among the parent's
/// children: it lands at the target index (the last position where the
/// index is past it), and nothing else in the tree changes.
pub proof fn law_move_within_same_parent(v: Seq<NodeView>, c: int, index: usize)
    requires
        tree_wf(v),
        0 <= c < v.len(),
        v[c].parent is Some,
    ensures
        ({
            let p = v[c].parent->0 as int;
            let kids = v[p].children;
            spec_move_container_within_tree(v, c, p, index) matches Ok((w, _)) && w
                == spec_shift_child(v, p, index as int, c as usize) && w[p].children.len()
                == kids.len() && w[p].children[clamp_index(index as int, kids.len() - 1)]
                == c as usize && forall|y: usize|
                #[trigger] w[p].children.contains(y) <==> kids.contains(y)
        }),
{
    let r = choose|r: Seq<nat>| ranked(v, r);
    let p = v[c].parent->0 as int;
    lemma_parent_facts(v, r, c);
    // The parent is the lowest common ancestor of the container and itself.
    lemma_ancestor_step(v, c, 0);
    assert(ancestor(v, c, 1) == Some(p));
    assert(reaches(v, c, p));
    assert(ancestor(v, p, 0) == Some(p));
    assert(reaches(v, p, p));
    law_lowest_common_ancestor(v, c, p);
    let l = spec_lca(v, c, p)->0;
    assert(reaches(v, c, l) && reaches(v, p, l));
    assert(reaches(v, l, p));
    lemma_reaches_rank(v, r, c, l);
    lemma_reaches_antisymmetric(v, r, l, p);
    assert(spec_lca(v, c, p) == Some(p));
    let kids = v[p].children;
    law_shift_to_index(kids, index as int, c as usize);
    assert forall|y: usize| #[trigger] spec_shift_to_index(kids, index as int, c as usize).contains(y)
        <==> kids.contains(y) by {
        lemma_shift_contains(kids, index as int, c as usize, y);
    }
}

} // verus!
