use std::collections::VecDeque;
use vstd::prelude::*;

verus! {

/// `s` with every occurrence of `x` removed, the rest in order.
pub open spec fn without(s: Seq<usize>, x: usize) -> Seq<usize>
    decreases s.len(),
{
    if s.len() == 0 {
        s
    } else if s.last() == x {
        without(s.drop_last(), x)
    } else {
        without(s.drop_last(), x).push(s.last())
    }
}

/// `s` keeping only the elements that `keep` holds of, in order.
pub open spec fn keep_only(s: Seq<usize>, keep: Seq<usize>) -> Seq<usize>
    decreases s.len(),
{
    if s.len() == 0 {
        s
    } else if keep.contains(s.last()) {
        keep_only(s.drop_last(), keep).push(s.last())
    } else {
        keep_only(s.drop_last(), keep)
    }
}

/// `s` without the elements that `drop` holds, the rest in order.
pub open spec fn without_all(s: Seq<usize>, drop: Seq<usize>) -> Seq<usize>
    decreases s.len(),
{
    if s.len() == 0 {
        s
    } else if drop.contains(s.last()) {
        without_all(s.drop_last(), drop)
    } else {
        without_all(s.drop_last(), drop).push(s.last())
    }
}

/// Position of the first occurrence of `x` in `s`, or 0 where it is absent.
pub open spec fn first_pos(s: Seq<usize>, x: usize) -> int {
    match s.index_of_first(x) {
        Some(i) => i,
        None => 0,
    }
}

/// `first_pos` is the first position of an element that occurs, else 0.
pub proof fn lemma_first_pos(s: Seq<usize>, x: usize)
    ensures
        s.contains(x) ==> 0 <= first_pos(s, x) < s.len() && s[first_pos(s, x)] == x && forall|
            j: int,
        | 0 <= j < first_pos(s, x) ==> s[j] != x,
        !s.contains(x) ==> first_pos(s, x) == 0,
{
    s.index_of_first_ensures(x);
}

/// In a sequence without duplicates, the position of an element is its
/// first position.
pub proof fn lemma_first_pos_unique(s: Seq<usize>, x: usize, i: int)
    requires
        0 <= i < s.len(),
        s[i] == x,
        forall|j: int| 0 <= j < i ==> s[j] != x,
    ensures
        first_pos(s, x) == i,
{
    s.index_of_first_ensures(x);
    assert(s.contains(x));
}

/// `without` keeps every other element and no more.
pub proof fn lemma_without_contains(s: Seq<usize>, x: usize)
    ensures
        forall|y: usize| #[trigger] without(s, x).contains(y) <==> (s.contains(y) && y != x),
        without(s, x).len() <= s.len(),
    decreases s.len(),
{
    if s.len() > 0 {
        lemma_without_contains(s.drop_last(), x);
        let r = without(s.drop_last(), x);
        assert forall|y: usize| #[trigger] without(s, x).contains(y) <==> (s.contains(y) && y != x) by {
            if s.contains(y) && y != x {
                let k = choose|k: int| 0 <= k < s.len() && s[k] == y;
                if k < s.len() - 1 {
                    assert(s.drop_last()[k] == y);
                    assert(s.drop_last().contains(y));
                    assert(r.contains(y));
                    let m = choose|m: int| 0 <= m < r.len() && r[m] == y;
                    if s.last() != x {
                        assert(r.push(s.last())[m] == y);
                    }
                } else {
                    assert(r.push(s.last())[r.len() as int] == y);
                }
            }
            if without(s, x).contains(y) {
                let w = without(s, x);
                let m = choose|m: int| 0 <= m < w.len() && w[m] == y;
                if s.last() != x && m == r.len() {
                    assert(s[s.len() - 1] == y);
                } else {
                    if s.last() != x {
                        assert(r[m] == y);
                    }
                    assert(r.contains(y));
                    assert(s.drop_last().contains(y));
                    let k = choose|k: int| 0 <= k < s.drop_last().len() && s.drop_last()[k] == y;
                    assert(s[k] == y);
                }
            }
        }
    }
}

/// Removing an element that does not occur changes nothing.
pub proof fn lemma_without_absent(s: Seq<usize>, x: usize)
    requires
        !s.contains(x),
    ensures
        without(s, x) == s,
    decreases s.len(),
{
    if s.len() > 0 {
        assert(!s.drop_last().contains(x)) by {
            if s.drop_last().contains(x) {
                let k = choose|k: int| 0 <= k < s.drop_last().len() && s.drop_last()[k] == x;
                assert(s[k] == x);
            }
        }
        lemma_without_absent(s.drop_last(), x);
        assert(s.last() != x) by {
            assert(s[s.len() - 1] == s.last());
        }
        assert(s.drop_last().push(s.last()) =~= s);
    }
}

/// Removing an element keeps a sequence free of duplicates.
pub proof fn lemma_without_no_dup(s: Seq<usize>, x: usize)
    requires
        s.no_duplicates(),
    ensures
        without(s, x).no_duplicates(),
    decreases s.len(),
{
    if s.len() > 0 {
        let d = s.drop_last();
        assert(d.no_duplicates());
        lemma_without_no_dup(d, x);
        lemma_without_contains(d, x);
        if s.last() != x {
            assert(!d.contains(s.last())) by {
                if d.contains(s.last()) {
                    let k = choose|k: int| 0 <= k < d.len() && d[k] == s.last();
                    assert(s[k] == s[s.len() - 1]);
                }
            }
            let r = without(d, x);
            assert(!r.contains(s.last()));
            assert forall|i: int, j: int|
                0 <= i < r.push(s.last()).len() && 0 <= j < r.push(s.last()).len() && i != j
                    implies r.push(s.last())[i] != r.push(s.last())[j] by {
                if i == r.len() as int {
                    assert(r[j] == r.push(s.last())[j]);
                } else if j == r.len() as int {
                    assert(r[i] == r.push(s.last())[i]);
                }
            }
        }
    }
}

/// Removing an element that occurs once, at `i`, is removing index `i`.
pub proof fn lemma_without_single(s: Seq<usize>, x: usize, i: int)
    requires
        s.no_duplicates(),
        0 <= i < s.len(),
        s[i] == x,
    ensures
        without(s, x) == s.remove(i),
    decreases s.len(),
{
    let d = s.drop_last();
    if i == s.len() - 1 {
        assert(!d.contains(x)) by {
            if d.contains(x) {
                let k = choose|k: int| 0 <= k < d.len() && d[k] == x;
                assert(s[k] == s[i]);
            }
        }
        lemma_without_absent(d, x);
        assert(s.remove(i) =~= d);
    } else {
        assert(d.no_duplicates());
        lemma_without_single(d, x, i);
        assert(s.last() != x) by {
            assert(s[s.len() - 1] != s[i]);
        }
        assert(d.remove(i).push(s.last()) =~= s.remove(i));
    }
}

/// `keep_only` keeps exactly the elements that `keep` holds.
pub proof fn lemma_keep_only_contains(s: Seq<usize>, keep: Seq<usize>)
    ensures
        forall|y: usize| #[trigger] keep_only(s, keep).contains(y) <==> (s.contains(y) && keep.contains(y)),
    decreases s.len(),
{
    if s.len() > 0 {
        lemma_keep_only_contains(s.drop_last(), keep);
        let r = keep_only(s.drop_last(), keep);
        assert forall|y: usize| #[trigger] keep_only(s, keep).contains(y) <==> (s.contains(y)
            && keep.contains(y)) by {
            if s.contains(y) && keep.contains(y) {
                let k = choose|k: int| 0 <= k < s.len() && s[k] == y;
                if k < s.len() - 1 {
                    assert(s.drop_last()[k] == y);
                    assert(r.contains(y));
                    let m = choose|m: int| 0 <= m < r.len() && r[m] == y;
                    if keep.contains(s.last()) {
                        assert(r.push(s.last())[m] == y);
                    }
                } else {
                    assert(r.push(s.last())[r.len() as int] == y);
                }
            }
            if keep_only(s, keep).contains(y) {
                let w = keep_only(s, keep);
                let m = choose|m: int| 0 <= m < w.len() && w[m] == y;
                if keep.contains(s.last()) && m == r.len() {
                    assert(s[s.len() - 1] == y);
                } else {
                    if keep.contains(s.last()) {
                        assert(r[m] == y);
                    }
                    assert(r.contains(y));
                    let k = choose|k: int| 0 <= k < s.drop_last().len() && s.drop_last()[k] == y;
                    assert(s[k] == y);
                }
            }
        }
    }
}

/// `without_all` keeps exactly the elements that `drop` does not hold.
pub proof fn lemma_without_all_contains(s: Seq<usize>, drop: Seq<usize>)
    ensures
        forall|y: usize| #[trigger] without_all(s, drop).contains(y) <==> (s.contains(y)
            && !drop.contains(y)),
    decreases s.len(),
{
    if s.len() > 0 {
        lemma_without_all_contains(s.drop_last(), drop);
        let r = without_all(s.drop_last(), drop);
        assert forall|y: usize| #[trigger] without_all(s, drop).contains(y) <==> (s.contains(y)
            && !drop.contains(y)) by {
            if s.contains(y) && !drop.contains(y) {
                let k = choose|k: int| 0 <= k < s.len() && s[k] == y;
                if k < s.len() - 1 {
                    assert(s.drop_last()[k] == y);
                    assert(r.contains(y));
                    let m = choose|m: int| 0 <= m < r.len() && r[m] == y;
                    if !drop.contains(s.last()) {
                        assert(r.push(s.last())[m] == y);
                    }
                } else {
                    assert(r.push(s.last())[r.len() as int] == y);
                }
            }
            if without_all(s, drop).contains(y) {
                let w = without_all(s, drop);
                let m = choose|m: int| 0 <= m < w.len() && w[m] == y;
                if !drop.contains(s.last()) && m == r.len() {
                    assert(s[s.len() - 1] == y);
                } else {
                    if !drop.contains(s.last()) {
                        assert(r[m] == y);
                    }
                    assert(r.contains(y));
                    let k = choose|k: int| 0 <= k < s.drop_last().len() && s.drop_last()[k] == y;
                    assert(s[k] == y);
                }
            }
        }
    }
}

/// A copy of `v` without any occurrence of `x` (`retain(|e| e != x)`).
pub fn remove_all(v: &VecDeque<usize>, x: usize) -> (r: VecDeque<usize>)
    ensures
        r@ == without(v@, x),
{
    let mut r: VecDeque<usize> = VecDeque::new();
    let len = v.len();
    let mut i: usize = 0;
    while i < len
        invariant
            len == v@.len(),
            i <= len,
            r@ == without(v@.take(i as int), x),
        decreases len - i,
    {
        assert(v@.take(i + 1).drop_last() =~= v@.take(i as int));
        let e = v[i];
        if e != x {
            r.push_back(e);
        }
        i = i + 1;
    }
    assert(v@.take(len as int) =~= v@);
    r
}

/// `v` without any occurrence of `x`.
pub fn remove_all_vec(v: &Vec<usize>, x: usize) -> (r: Vec<usize>)
    ensures
        r@ == without(v@, x),
{
    let mut r: Vec<usize> = Vec::new();
    let len = v.len();
    let mut i: usize = 0;
    while i < len
        invariant
            len == v@.len(),
            i <= len,
            r@ == without(v@.take(i as int), x),
        decreases len - i,
    {
        assert(v@.take(i + 1).drop_last() =~= v@.take(i as int));
        let e = v[i];
        if e != x {
            r.push(e);
        }
        i = i + 1;
    }
    assert(v@.take(len as int) =~= v@);
    r
}

/// A copy of `v`.
pub fn copy_deque(v: &VecDeque<usize>) -> (r: VecDeque<usize>)
    ensures
        r@ == v@,
{
    let mut r: VecDeque<usize> = VecDeque::new();
    let len = v.len();
    let mut i: usize = 0;
    while i < len
        invariant
            len == v@.len(),
            i <= len,
            r@ == v@.take(i as int),
        decreases len - i,
    {
        assert(v@.take(i + 1) =~= v@.take(i as int).push(v@[i as int]));
        r.push_back(v[i]);
        i = i + 1;
    }
    assert(v@.take(len as int) =~= v@);
    r
}

/// `a[..i]`, then `b`, then `a[j..]`.
pub fn splice(a: &VecDeque<usize>, i: usize, j: usize, b: &VecDeque<usize>) -> (r: VecDeque<usize>)
    requires
        i <= j <= a@.len(),
    ensures
        r@ == a@.take(i as int) + b@ + a@.skip(j as int),
{
    let mut r: VecDeque<usize> = VecDeque::new();
    let mut k: usize = 0;
    while k < i
        invariant
            i <= j <= a@.len(),
            k <= i,
            r@ == a@.take(k as int),
        decreases i - k,
    {
        assert(a@.take(k + 1) =~= a@.take(k as int).push(a@[k as int]));
        r.push_back(a[k]);
        k = k + 1;
    }
    let blen = b.len();
    let mut m: usize = 0;
    while m < blen
        invariant
            blen == b@.len(),
            m <= blen,
            r@ == a@.take(i as int) + b@.take(m as int),
        decreases blen - m,
    {
        assert(b@.take(m + 1) =~= b@.take(m as int).push(b@[m as int]));
        assert(a@.take(i as int) + b@.take(m + 1) =~= (a@.take(i as int) + b@.take(m as int)).push(b@[m as int]));
        r.push_back(b[m]);
        m = m + 1;
    }
    assert(b@.take(blen as int) =~= b@);
    let alen = a.len();
    let mut q: usize = j;
    while q < alen
        invariant
            alen == a@.len(),
            j <= q <= alen,
            r@ == a@.take(i as int) + b@ + a@.subrange(j as int, q as int),
        decreases alen - q,
    {
        assert(a@.subrange(j as int, q + 1) =~= a@.subrange(j as int, q as int).push(a@[q as int]));
        assert(a@.take(i as int) + b@ + a@.subrange(j as int, q + 1) =~= (a@.take(i as int) + b@
            + a@.subrange(j as int, q as int)).push(a@[q as int]));
        r.push_back(a[q]);
        q = q + 1;
    }
    assert(a@.subrange(j as int, alen as int) =~= a@.skip(j as int));
    r
}

/// The position of the first `x` in `v`, if any.
pub fn deque_position(v: &VecDeque<usize>, x: usize) -> (r: Option<usize>)
    ensures
        match r {
            Some(i) => v@.contains(x) && i == first_pos(v@, x),
            None => !v@.contains(x),
        },
{
    let len = v.len();
    let mut i: usize = 0;
    while i < len
        invariant
            len == v@.len(),
            i <= len,
            forall|j: int| 0 <= j < i ==> v@[j] != x,
        decreases len - i,
    {
        if v[i] == x {
            proof {
                lemma_first_pos_unique(v@, x, i as int);
            }
            return Some(i);
        }
        i = i + 1;
    }
    None
}

/// A copy of `v` keeping only the elements that `keep` holds, in order.
pub fn keep_only_exec(v: &VecDeque<usize>, keep: &Vec<usize>) -> (r: VecDeque<usize>)
    ensures
        r@ == keep_only(v@, keep@),
{
    let mut r: VecDeque<usize> = VecDeque::new();
    let len = v.len();
    let mut i: usize = 0;
    while i < len
        invariant
            len == v@.len(),
            i <= len,
            r@ == keep_only(v@.take(i as int), keep@),
        decreases len - i,
    {
        assert(v@.take(i + 1).drop_last() =~= v@.take(i as int));
        let e = v[i];
        if vec_contains(keep, e) {
            r.push_back(e);
        }
        i = i + 1;
    }
    assert(v@.take(len as int) =~= v@);
    r
}

/// A copy of `v` without the elements that `drop` holds, in order.
pub fn without_all_exec(v: &VecDeque<usize>, drop: &Vec<usize>) -> (r: VecDeque<usize>)
    ensures
        r@ == without_all(v@, drop@),
{
    let mut r: VecDeque<usize> = VecDeque::new();
    let len = v.len();
    let mut i: usize = 0;
    while i < len
        invariant
            len == v@.len(),
            i <= len,
            r@ == without_all(v@.take(i as int), drop@),
        decreases len - i,
    {
        assert(v@.take(i + 1).drop_last() =~= v@.take(i as int));
        let e = v[i];
        if !vec_contains(drop, e) {
            r.push_back(e);
        }
        i = i + 1;
    }
    assert(v@.take(len as int) =~= v@);
    r
}

/// Whether `v` holds `x`.
pub fn vec_contains(v: &Vec<usize>, x: usize) -> (r: bool)
    ensures
        r == v@.contains(x),
{
    let len = v.len();
    let mut i: usize = 0;
    while i < len
        invariant
            len == v@.len(),
            i <= len,
            forall|j: int| 0 <= j < i ==> v@[j] != x,
        decreases len - i,
    {
        if v[i] == x {
            return true;
        }
        i = i + 1;
    }
    false
}

} // verus!

verus! {

/// The elements of three sequences put together.
pub proof fn lemma_concat3_contains(a: Seq<usize>, b: Seq<usize>, c: Seq<usize>, y: usize)
    ensures
        (a + b + c).contains(y) <==> (a.contains(y) || b.contains(y) || c.contains(y)),
{
    let s = a + b + c;
    if s.contains(y) {
        let k = choose|k: int| 0 <= k < s.len() && s[k] == y;
        if k < a.len() {
            assert(a[k] == y);
        } else if k < a.len() + b.len() {
            assert(b[k - a.len()] == y);
        } else {
            assert(c[k - a.len() - b.len()] == y);
        }
    }
    if a.contains(y) {
        let k = choose|k: int| 0 <= k < a.len() && a[k] == y;
        assert(s[k] == y);
    }
    if b.contains(y) {
        let k = choose|k: int| 0 <= k < b.len() && b[k] == y;
        assert(s[a.len() + k] == y);
    }
    if c.contains(y) {
        let k = choose|k: int| 0 <= k < c.len() && c[k] == y;
        assert(s[a.len() + b.len() + k] == y);
    }
}

/// Splitting a sequence around position `i` keeps everything but `s[i]`
/// (and, where `s` has no duplicates, nothing equal to it).
pub proof fn lemma_take_skip_contains(s: Seq<usize>, i: int, y: usize)
    requires
        0 <= i < s.len(),
        s.no_duplicates(),
    ensures
        (s.take(i).contains(y) || s.skip(i + 1).contains(y)) <==> (s.contains(y) && y != s[i]),
{
    if s.take(i).contains(y) {
        let k = choose|k: int| 0 <= k < s.take(i).len() && s.take(i)[k] == y;
        assert(s[k] == y);
    }
    let t = s.skip(i + 1);
    if t.contains(y) {
        let k = choose|k: int| 0 <= k < t.len() && t[k] == y;
        assert(s[i + 1 + k] == y);
    }
    if s.contains(y) && y != s[i] {
        let k = choose|k: int| 0 <= k < s.len() && s[k] == y;
        if k < i {
            assert(s.take(i)[k] == y);
        } else {
            assert(k != i);
            assert(s.skip(i + 1)[k - i - 1] == y);
        }
    }
}

/// Splitting a sequence at `i` keeps all its elements.
pub proof fn lemma_take_skip_same_contains(s: Seq<usize>, i: int, y: usize)
    requires
        0 <= i <= s.len(),
    ensures
        (s.take(i).contains(y) || s.skip(i).contains(y)) <==> s.contains(y),
{
    assert(s.take(i) + s.skip(i) =~= s);
    if s.take(i).contains(y) {
        let k = choose|k: int| 0 <= k < s.take(i).len() && s.take(i)[k] == y;
        assert(s[k] == y);
    }
    if s.skip(i).contains(y) {
        let k = choose|k: int| 0 <= k < s.skip(i).len() && s.skip(i)[k] == y;
        assert(s[i + k] == y);
    }
    if s.contains(y) {
        let k = choose|k: int| 0 <= k < s.len() && s[k] == y;
        if k < i {
            assert(s.take(i)[k] == y);
        } else {
            assert(s.skip(i)[k - i] == y);
        }
    }
}

/// Three pairwise disjoint sequences without duplicates concatenate to one
/// without duplicates.
pub proof fn lemma_concat3_no_dup(a: Seq<usize>, b: Seq<usize>, c: Seq<usize>)
    requires
        a.no_duplicates(),
        b.no_duplicates(),
        c.no_duplicates(),
        forall|y: usize| a.contains(y) ==> !b.contains(y) && !c.contains(y),
        forall|y: usize| b.contains(y) ==> !c.contains(y),
    ensures
        (a + b + c).no_duplicates(),
{
    let s = a + b + c;
    assert forall|i: int, j: int| 0 <= i < s.len() && 0 <= j < s.len() && i != j implies s[i]
        != s[j] by {
        let la = a.len() as int;
        let lb = b.len() as int;
        if i < la && j < la {
        } else if i >= la + lb && j >= la + lb {
            assert(s[i] == c[i - la - lb] && s[j] == c[j - la - lb]);
        } else if la <= i < la + lb && la <= j < la + lb {
            assert(s[i] == b[i - la] && s[j] == b[j - la]);
        } else {
            let (x, y) = if i < j {
                (i, j)
            } else {
                (j, i)
            };
            if x < la {
                assert(a.contains(s[x]));
                if y < la + lb {
                    assert(b.contains(s[y])) by {
                        assert(b[y - la] == s[y]);
                    }
                } else {
                    assert(c.contains(s[y])) by {
                        assert(c[y - la - lb] == s[y]);
                    }
                }
            } else {
                assert(b.contains(s[x])) by {
                    assert(b[x - la] == s[x]);
                }
                assert(c.contains(s[y])) by {
                    assert(c[y - la - lb] == s[y]);
                }
            }
        }
    }
}

/// The parts of a sequence without duplicates before and after position
/// `i` have none either, and share no element.
pub proof fn lemma_take_skip_no_dup(s: Seq<usize>, i: int)
    requires
        0 <= i < s.len(),
        s.no_duplicates(),
    ensures
        s.take(i).no_duplicates(),
        s.skip(i + 1).no_duplicates(),
        forall|y: usize| s.take(i).contains(y) ==> !s.skip(i + 1).contains(y),
{
    assert forall|y: usize| s.take(i).contains(y) implies !s.skip(i + 1).contains(y) by {
        let k = choose|k: int| 0 <= k < s.take(i).len() && s.take(i)[k] == y;
        let t = s.skip(i + 1);
        if t.contains(y) {
            let m = choose|m: int| 0 <= m < t.len() && t[m] == y;
            assert(s[k] == s[i + 1 + m]);
        }
    }
    let t = s.skip(i + 1);
    assert forall|a: int, b: int| 0 <= a < t.len() && 0 <= b < t.len() && a != b implies t[a]
        != t[b] by {
        assert(t[a] == s[i + 1 + a]);
        assert(t[b] == s[i + 1 + b]);
    }
}

} // verus!

verus! {

/// Removing elements keeps a sequence free of duplicates.
pub proof fn lemma_without_all_no_dup(s: Seq<usize>, drop: Seq<usize>)
    requires
        s.no_duplicates(),
    ensures
        without_all(s, drop).no_duplicates(),
    decreases s.len(),
{
    if s.len() > 0 {
        let d = s.drop_last();
        assert(d.no_duplicates());
        lemma_without_all_no_dup(d, drop);
        lemma_without_all_contains(d, drop);
        if !drop.contains(s.last()) {
            assert(!d.contains(s.last())) by {
                if d.contains(s.last()) {
                    let k = choose|k: int| 0 <= k < d.len() && d[k] == s.last();
                    assert(s[k] == s[s.len() - 1]);
                }
            }
            let r = without_all(d, drop);
            assert(!r.contains(s.last()));
            assert forall|i: int, j: int|
                0 <= i < r.push(s.last()).len() && 0 <= j < r.push(s.last()).len() && i != j
                    implies r.push(s.last())[i] != r.push(s.last())[j] by {
                if i == r.len() as int {
                    assert(r[j] == r.push(s.last())[j]);
                } else if j == r.len() as int {
                    assert(r[i] == r.push(s.last())[i]);
                }
            }
        }
    }
}

/// The elements of a sequence after an insertion.
pub proof fn lemma_insert_contains(s: Seq<usize>, i: int, x: usize, y: usize)
    requires
        0 <= i <= s.len(),
    ensures
        s.insert(i, x).contains(y) <==> (s.contains(y) || y == x),
{
    let t = s.insert(i, x);
    s.insert_ensures(i, x);
    if t.contains(y) {
        let k = choose|k: int| 0 <= k < t.len() && t[k] == y;
        if k < i {
            assert(s[k] == y);
        } else if k > i {
            assert(s[k - 1] == y);
        }
    }
    if s.contains(y) {
        let k = choose|k: int| 0 <= k < s.len() && s[k] == y;
        if k < i {
            assert(t[k] == y);
        } else {
            assert(t[k + 1] == y);
        }
    }
    if y == x {
        assert(t[i] == y);
    }
}

/// Inserting an element that does not occur keeps a sequence free of
/// duplicates.
pub proof fn lemma_insert_no_dup(s: Seq<usize>, i: int, x: usize)
    requires
        0 <= i <= s.len(),
        s.no_duplicates(),
        !s.contains(x),
    ensures
        s.insert(i, x).no_duplicates(),
{
    let t = s.insert(i, x);
    s.insert_ensures(i, x);
    assert forall|a: int, b: int| 0 <= a < t.len() && 0 <= b < t.len() && a != b implies t[a]
        != t[b] by {
        let sa = if a < i {
            a
        } else {
            a - 1
        };
        let sb = if b < i {
            b
        } else {
            b - 1
        };
        if a == i {
            assert(t[b] == s[sb]);
        } else if b == i {
            assert(t[a] == s[sa]);
        } else {
            assert(t[a] == s[sa]);
            assert(t[b] == s[sb]);
        }
    }
}

/// A copy of `v` with `x` inserted at `i`.
pub fn insert_copy(v: &VecDeque<usize>, i: usize, x: usize) -> (r: VecDeque<usize>)
    requires
        i <= v@.len(),
    ensures
        r@ == v@.insert(i as int, x),
{
    let mut r = copy_deque(v);
    r.insert(i, x);
    r
}

/// A deque holding the elements of `v` in order.
pub fn deque_from_vec(v: &Vec<usize>) -> (r: VecDeque<usize>)
    ensures
        r@ == v@,
{
    let mut r: VecDeque<usize> = VecDeque::new();
    let len = v.len();
    let mut i: usize = 0;
    while i < len
        invariant
            len == v@.len(),
            i <= len,
            r@ == v@.take(i as int),
        decreases len - i,
    {
        assert(v@.take(i + 1) =~= v@.take(i as int).push(v@[i as int]));
        r.push_back(v[i]);
        i = i + 1;
    }
    assert(v@.take(len as int) =~= v@);
    r
}

} // verus!
