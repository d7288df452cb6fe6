use crate::container::model::{links_ok, with_children, ContainerKind, NodeView};
use crate::container::tree::ContainerTree;
use crate::seq_util::{deque_from_vec, first_pos, lemma_first_pos};
use vstd::prelude::*;

verus! {

/// The position of a monitor container: the left edge of its bounds, then
/// the top edge.
pub open spec fn monitor_position(n: NodeView) -> (int, int) {
    match n.kind {
        ContainerKind::Monitor(p) => (p.bounds.left as int, p.bounds.top as int),
        _ => (0, 0),
    }
}

/// Position `a` comes no later than `b`: left-to-right, then top-to-bottom.
pub open spec fn position_le(a: (int, int), b: (int, int)) -> bool {
    a.0 < b.0 || (a.0 == b.0 && a.1 <= b.1)
}

/// In the sorted order of the monitors `orig`, `a` comes before `b`: by
/// position, and where two positions are equal, in their order in `orig`.
pub open spec fn sorts_before(v: Seq<NodeView>, orig: Seq<usize>, a: usize, b: usize) -> bool {
    let pa = monitor_position(v[a as int]);
    let pb = monitor_position(v[b as int]);
    ||| pa.0 < pb.0
    ||| pa.0 == pb.0 && pa.1 < pb.1
    ||| pa.0 == pb.0 && pa.1 == pb.1 && first_pos(orig, a) < first_pos(orig, b)
}

/// `s` holds the containers of `orig`, each once, sorted left-to-right and
/// top-to-bottom, keeping the order of `orig` between equal positions.
pub open spec fn is_sorted_monitors(v: Seq<NodeView>, orig: Seq<usize>, s: Seq<usize>) -> bool {
    &&& s.len() == orig.len()
    &&& s.no_duplicates()
    &&& forall|y: usize| #[trigger] s.contains(y) <==> orig.contains(y)
    &&& forall|i: int, j: int|
        0 <= i < j < s.len() ==> #[trigger] sorts_before(v, orig, s[i], s[j])
}

/// Each child of `root` is a monitor.
pub open spec fn children_are_monitors(v: Seq<NodeView>, root: int) -> bool {
    forall|k: int|
        0 <= k < v[root].children.len() ==> (#[trigger] v[v[root].children[k] as int].kind) is Monitor
}

/// The containers of `s` that are monitors, in order.
pub open spec fn monitors_only(v: Seq<NodeView>, s: Seq<usize>) -> Seq<usize>
    decreases s.len(),
{
    if s.len() == 0 {
        s
    } else if v[s.last() as int].kind is Monitor {
        monitors_only(v, s.drop_last()).push(s.last())
    } else {
        monitors_only(v, s.drop_last())
    }
}

/// Sorted monitors go left-to-right by the left edge of their bounds, and
/// top-to-bottom by the top edge where the left edges are equal; the
/// monitors that the sorted order holds are those given.
pub proof fn law_sorted_monitors_by_bounds(v: Seq<NodeView>, orig: Seq<usize>, s: Seq<usize>)
    requires
        is_sorted_monitors(v, orig, s),
    ensures
        forall|y: usize| #[trigger] s.contains(y) <==> orig.contains(y),
        forall|i: int, j: int|
            0 <= i < j < s.len() ==> match (#[trigger] v[s[i] as int].kind, #[trigger] v[s[j] as int].kind) {
                (ContainerKind::Monitor(a), ContainerKind::Monitor(b)) => a.bounds.left < b.bounds.left
                    || (a.bounds.left == b.bounds.left && a.bounds.top <= b.bounds.top),
                _ => true,
            },
{
    assert forall|i: int, j: int| 0 <= i < j < s.len() implies match (
        #[trigger] v[s[i] as int].kind,
        #[trigger] v[s[j] as int].kind,
    ) {
        (ContainerKind::Monitor(a), ContainerKind::Monitor(b)) => a.bounds.left < b.bounds.left
            || (a.bounds.left == b.bounds.left && a.bounds.top <= b.bounds.top),
        _ => true,
    } by {
        assert(sorts_before(v, orig, s[i], s[j]));
    }
}

/// The sorted order of the monitors is unique: two orders that both sort
/// the same monitors are the same order.
pub proof fn law_sorted_monitors_unique(
    v: Seq<NodeView>,
    orig: Seq<usize>,
    s1: Seq<usize>,
    s2: Seq<usize>,
)
    requires
        is_sorted_monitors(v, orig, s1),
        is_sorted_monitors(v, orig, s2),
    ensures
        s1 == s2,
{
    if s1.len() > 0 {
        lemma_sorted_prefix_equal(v, orig, s1, s2, (s1.len() - 1) as nat);
    }
    assert(s1 =~= s2);
}

proof fn lemma_sorted_prefix_equal(
    v: Seq<NodeView>,
    orig: Seq<usize>,
    s1: Seq<usize>,
    s2: Seq<usize>,
    i: nat,
)
    requires
        is_sorted_monitors(v, orig, s1),
        is_sorted_monitors(v, orig, s2),
        i < s1.len(),
    ensures
        forall|j: int| 0 <= j <= i ==> s1[j] == s2[j],
    decreases i,
{
    if i > 0 {
        lemma_sorted_prefix_equal(v, orig, s1, s2, (i - 1) as nat);
    }
    let a = s1[i as int];
    let b = s2[i as int];
    if a != b {
        assert(s2.contains(b));
        assert(s1.contains(b));
        let j = choose|j: int| 0 <= j < s1.len() && s1[j] == b;
        assert(j > i) by {
            if j < i {
                assert(s2[j] == b);
            }
        }
        assert(sorts_before(v, orig, s1[i as int], s1[j]));
        assert(s1.contains(a));
        assert(s2.contains(a));
        let k = choose|k: int| 0 <= k < s2.len() && s2[k] == a;
        assert(k > i) by {
            if k < i {
                assert(s1[k] == a);
            }
        }
        assert(sorts_before(v, orig, s2[i as int], s2[k]));
    }
}

impl ContainerTree {
    /// The position of a monitor container.
    fn monitor_position(&self, h: usize) -> (r: (i32, i32))
        requires
            h < self@.len(),
        ensures
            (r.0 as int, r.1 as int) == monitor_position(self@[h as int]),
    {
        match self.kind(h) {
            ContainerKind::Monitor(p) => (p.bounds.left, p.bounds.top),
            _ => (0, 0),
        }
    }

    /// The children of `root` that are monitors, in order.
    pub fn monitors(&self, root: usize) -> (r: Vec<usize>)
        requires
            self.wf(),
            root < self@.len(),
        ensures
            r@ == monitors_only(self@, self@[root as int].children),
    {
        let ghost v = self@;
        proof {
            self.lemma_wf();
        }
        let len = self.child_count(root);
        let mut r: Vec<usize> = Vec::new();
        let mut i: usize = 0;
        while i < len
            invariant
                self.wf(),
                v == self@,
                links_ok(v),
                root < v.len(),
                len == v[root as int].children.len(),
                i <= len,
                r@ == monitors_only(v, v[root as int].children.take(i as int)),
            decreases len - i,
        {
            let ghost kids = v[root as int].children;
            assert(kids.take(i + 1).drop_last() =~= kids.take(i as int));
            let y = self.children(root)[i];
            assert(kids[i as int] == y);
            let is_monitor = match self.kind(y) {
                ContainerKind::Monitor(_) => true,
                _ => false,
            };
            if is_monitor {
                r.push(y);
            }
            i = i + 1;
        }
        assert(v[root as int].children.take(len as int) =~= v[root as int].children);
        r
    }

    /// Sorts the root container's monitors from left-to-right and
    /// top-to-bottom; monitors at the same position keep their order.
    pub fn sort_monitors(&mut self, root: usize)
        requires
            old(self).wf(),
            root < old(self)@.len(),
            children_are_monitors(old(self)@, root as int),
        ensures
            final(self).wf(),
            final(self)@ == old(self)@.update(
                root as int,
                with_children(old(self)@[root as int], final(self)@[root as int].children),
            ),
            is_sorted_monitors(
                old(self)@,
                old(self)@[root as int].children,
                final(self)@[root as int].children,
            ),
            forall|i: int, j: int|
                0 <= i < j < final(self)@[root as int].children.len() ==> match (
                    #[trigger] old(self)@[final(self)@[root as int].children[i] as int].kind,
                    #[trigger] old(self)@[final(self)@[root as int].children[j] as int].kind,
                ) {
                    (ContainerKind::Monitor(a), ContainerKind::Monitor(b)) => a.bounds.left
                        < b.bounds.left || (a.bounds.left == b.bounds.left && a.bounds.top
                        <= b.bounds.top),
                    _ => true,
                },
    {
        let ghost v = self@;
        proof {
            self.lemma_wf();
        }
        let ghost orig = v[root as int].children;
        let len = self.child_count(root);
        let mut s: Vec<usize> = Vec::new();
        let mut i: usize = 0;
        while i < len
            invariant
                self.wf(),
                v == self@,
                links_ok(v),
                root < v.len(),
                orig == v[root as int].children,
                len == orig.len(),
                i <= len,
                s@.len() == i,
                s@.no_duplicates(),
                forall|y: usize| #[trigger] s@.contains(y) <==> orig.take(i as int).contains(y),
                forall|a: int, b: int|
                    0 <= a < b < s@.len() ==> #[trigger] sorts_before(v, orig, s@[a], s@[b]),
            decreases len - i,
        {
            let e = self.children(root)[i];
            proof {
                assert(orig[i as int] == e);
                assert(orig.contains(e));
                assert((e as int) < v.len());
                lemma_first_pos(orig, e);
                assert(first_pos(orig, e) == i) by {
                    if first_pos(orig, e) < i {
                        assert(orig[first_pos(orig, e)] == orig[i as int]);
                    }
                }
            }
            let (ex, ey) = self.monitor_position(e);
            // The first position whose monitor comes after `e`'s position.
            let mut j: usize = 0;
            while j < s.len()
                invariant
                    self.wf(),
                    v == self@,
                    links_ok(v),
                    root < v.len(),
                    orig == v[root as int].children,
                    j <= s@.len(),
                    i < len,
                    len == orig.len(),
                    forall|y: usize| #[trigger] s@.contains(y) <==> orig.take(i as int).contains(y),
                    (ex as int, ey as int) == monitor_position(v[e as int]),
                    forall|k: int|
                        0 <= k < j ==> position_le(
                            monitor_position(v[#[trigger] s@[k] as int]),
                            monitor_position(v[e as int]),
                        ),
                ensures
                    j <= s@.len(),
                    forall|k: int|
                        0 <= k < j ==> position_le(
                            monitor_position(v[#[trigger] s@[k] as int]),
                            monitor_position(v[e as int]),
                        ),
                    j < s@.len() ==> !position_le(
                        monitor_position(v[s@[j as int] as int]),
                        monitor_position(v[e as int]),
                    ),
                decreases s@.len() - j,
            {
                let y = s[j];
                proof {
                    assert(s@.contains(y));
                    assert(orig.take(i as int).contains(y));
                    let m = choose|m: int| 0 <= m < i && orig.take(i as int)[m] == y;
                    assert(orig[m] == y);
                    assert(orig.contains(y));
                }
                let (x1, y1) = self.monitor_position(y);
                if !(x1 < ex || (x1 == ex && y1 <= ey)) {
                    break;
                }
                j = j + 1;
            }
            let ghost old_s = s@;
            s.insert(j, e);
            proof {
                let take_next = orig.take(i + 1);
                assert(take_next =~= orig.take(i as int).push(e));
                assert(!old_s.contains(e)) by {
                    if old_s.contains(e) {
                        assert(orig.take(i as int).contains(e));
                        let m = choose|m: int| 0 <= m < i && orig.take(i as int)[m] == e;
                        assert(orig[m] == orig[i as int]);
                    }
                }
                assert forall|y: usize| #[trigger] s@.contains(y) <==> take_next.contains(y) by {
                    if s@.contains(y) {
                        let m = choose|m: int| 0 <= m < s@.len() && s@[m] == y;
                        if m == j {
                            assert(take_next[i as int] == y);
                        } else {
                            if m < j {
                                assert(old_s[m] == y);
                            } else {
                                assert(old_s[m - 1] == y);
                            }
                            assert(old_s.contains(y));
                            assert(orig.take(i as int).contains(y));
                            let q = choose|q: int| 0 <= q < i && orig.take(i as int)[q] == y;
                            assert(take_next[q] == y);
                        }
                    }
                    if take_next.contains(y) && y != e {
                        assert(orig.take(i as int).contains(y)) by {
                            let m = choose|m: int| 0 <= m < take_next.len() && take_next[m] == y;
                            assert(m < i) by {
                                if m == i {
                                    assert(take_next[m] == e);
                                }
                            }
                            assert(orig.take(i as int)[m] == y);
                        }
                        assert(old_s.contains(y));
                        let m = choose|m: int| 0 <= m < old_s.len() && old_s[m] == y;
                        if m < j {
                            assert(s@[m] == y);
                        } else {
                            assert(s@[m + 1] == y);
                        }
                    }
                    if y == e {
                        assert(s@[j as int] == e);
                    }
                }
                // Every earlier element comes first in `orig`.
                assert forall|k: int| 0 <= k < old_s.len() implies first_pos(orig, #[trigger] old_s[k]) < i by {
                    let y = old_s[k];
                    assert(old_s.contains(y));
                    assert(orig.take(i as int).contains(y));
                    let m = choose|m: int| 0 <= m < i && orig.take(i as int)[m] == y;
                    lemma_first_pos(orig, y);
                    assert(orig[m] == y);
                }
                // The elements from `j` on come strictly after `e`'s position.
                if j < old_s.len() {
                    let pj = monitor_position(v[old_s[j as int] as int]);
                    let pe = monitor_position(v[e as int]);
                    assert(!position_le(pj, pe));
                    assert forall|k: int| j <= k < old_s.len() implies !position_le(
                        monitor_position(v[#[trigger] old_s[k] as int]),
                        pe,
                    ) by {
                        if k > j {
                            assert(sorts_before(v, orig, old_s[j as int], old_s[k]));
                        }
                    }
                }
                assert forall|a: int, b: int| 0 <= a < b < s@.len() implies #[trigger] sorts_before(
                    v,
                    orig,
                    s@[a],
                    s@[b],
                ) by {
                    if b < j {
                        assert(sorts_before(v, orig, old_s[a], old_s[b]));
                    } else if b == j {
                        assert(s@[a] == old_s[a]);
                        assert(position_le(monitor_position(v[old_s[a] as int]), monitor_position(v[e as int])));
                        assert(first_pos(orig, old_s[a]) < i);
                    } else if a < j {
                        assert(sorts_before(v, orig, old_s[a], old_s[b - 1]));
                    } else if a == j {
                        assert(s@[b] == old_s[b - 1]);
                        assert(!position_le(monitor_position(v[old_s[b - 1] as int]), monitor_position(v[e as int])));
                    } else {
                        assert(sorts_before(v, orig, old_s[a - 1], old_s[b - 1]));
                    }
                }
                assert forall|a: int, b: int| 0 <= a < b < s@.len() implies s@[a] != s@[b] by {
                    if a == j {
                        assert(old_s.contains(s@[b]));
                    } else if b == j {
                        assert(old_s.contains(s@[a]));
                    } else {
                        let a0 = if a < j { a } else { a - 1 };
                        let b0 = if b < j { b } else { b - 1 };
                        assert(s@[a] == old_s[a0]);
                        assert(s@[b] == old_s[b0]);
                    }
                }
            }
            i = i + 1;
        }
        proof {
            assert(orig.take(len as int) =~= orig);
        }
        let kids = deque_from_vec(&s);
        self.reorder_children(root, kids);
        proof {
            law_sorted_monitors_by_bounds(v, orig, s@);
        }
    }
}

} // verus!
