use std::collections::VecDeque;
use vstd::laws_eq::obeys_concrete_eq;
use vstd::prelude::*;

verus! {

/// The smaller of `target` and `len`: where an index past the end lands.
pub open spec fn clamp_index(target: int, len: int) -> int {
    if target > len {
        len
    } else {
        target
    }
}

/// The sequence after moving the first occurrence of `value` to
/// `target_index`; the sequence is unchanged when `value` does not occur.
///
/// The index is taken in the sequence after the removal, and is clamped to
/// its end.
pub open spec fn spec_shift_to_index<T>(s: Seq<T>, target_index: int, value: T) -> Seq<T> {
    match s.index_of_first(value) {
        Some(i) => {
            let rest = s.remove(i);
            rest.insert(clamp_index(target_index, rest.len() as int), value)
        },
        None => s,
    }
}

pub trait VecDequeExt<T: PartialEq>: View<V = Seq<T>> + Sized {
    /// Shifts a value to a specified index in a `VecDeque`.
    ///
    /// Does nothing if the value does not already exist in the `VecDeque`.
    /// Where `==` on `T` is plain equality, the result is exactly
    /// `spec_shift_to_index`.
    fn shift_to_index(&mut self, target_index: usize, item: T)
        ensures
            obeys_concrete_eq::<T>() ==> final(self)@ == spec_shift_to_index(
                old(self)@,
                target_index as int,
                item,
            ),
            final(self)@.len() == old(self)@.len(),
    ;
}

impl<T: PartialEq> VecDequeExt<T> for VecDeque<T> {
    fn shift_to_index(&mut self, target_index: usize, value: T) {
        let ghost s = self@;
        let len = self.len();
        let mut i: usize = 0;
        let mut found: Option<usize> = None;
        while i < len
            invariant_except_break
                found is None,
            invariant
                len == self@.len(),
                self@ == s,
                i <= len,
                obeys_concrete_eq::<T>() ==> forall|j: int| 0 <= j < i ==> s[j] != value,
            ensures
                found matches Some(k) ==> k < len && k == i,
                obeys_concrete_eq::<T>() ==> (found matches Some(k) ==> s[k as int] == value),
                found is None ==> i == len,
            decreases len - i,
        {
            let is_match = self[i] == value;
            proof {
                if obeys_concrete_eq::<T>() {
                    reveal(obeys_concrete_eq);
                    assert(is_match <==> s[i as int] == value);
                }
            }
            if is_match {
                found = Some(i);
                break;
            }
            i = i + 1;
        }
        proof {
            s.index_of_first_ensures(value);
        }
        if let Some(index) = found {
            let ghost seq_before = self@;
            self.remove(index);
            // Adjust for when the target index becomes out of bounds because of
            // the removal above.
            let new_len = self.len();
            let target = if target_index > new_len {
                new_len
            } else {
                target_index
            };
            self.insert(target, value);
            proof {
                if obeys_concrete_eq::<T>() {
                    let first = s.index_of_first(value);
                    assert(s.contains(value)) by {
                        assert(s[index as int] == value);
                    }
                    assert(first == Some(index as int));
                }
            }
        } else {
            proof {
                if obeys_concrete_eq::<T>() {
                    assert(!s.contains(value));
                }
            }
        }
    }
}

} // verus!

verus! {

/// Shifting keeps the same elements.
pub proof fn lemma_shift_contains<T>(s: Seq<T>, target_index: int, value: T, y: T)
    requires
        target_index >= 0,
    ensures
        spec_shift_to_index(s, target_index, value).contains(y) <==> s.contains(y),
        spec_shift_to_index(s, target_index, value).len() == s.len(),
{
    s.index_of_first_ensures(value);
    match s.index_of_first(value) {
        Some(i) => {
            let rest = s.remove(i);
            lemma_remove_insert_contains(s, i, clamp_index(target_index, rest.len() as int), value, y);
        },
        None => {},
    }
}

proof fn lemma_remove_insert_contains<T>(s: Seq<T>, i: int, j: int, value: T, y: T)
    requires
        0 <= i < s.len(),
        s[i] == value,
    ensures
        0 <= j <= s.len() - 1 ==> (s.remove(i).insert(j, value).contains(y) <==> s.contains(y)),
        0 <= j <= s.len() - 1 ==> s.remove(i).insert(j, value).len() == s.len(),
{
    if 0 <= j <= s.len() - 1 {
        let rest = s.remove(i);
        let t = rest.insert(j, value);
        rest.insert_ensures(j, value);
        if t.contains(y) {
            let k = choose|k: int| 0 <= k < t.len() && t[k] == y;
            if k == j {
                assert(s[i] == y);
            } else {
                let m = if k < j {
                    k
                } else {
                    k - 1
                };
                assert(rest[m] == y);
                if m < i {
                    assert(s[m] == y);
                } else {
                    assert(s[m + 1] == y);
                }
            }
        }
        if s.contains(y) {
            let k = choose|k: int| 0 <= k < s.len() && s[k] == y;
            if k == i {
                assert(t[j] == y);
            } else {
                let m = if k < i {
                    k
                } else {
                    k - 1
                };
                assert(rest[m] == y);
                if m < j {
                    assert(t[m] == y);
                } else {
                    assert(t[m + 1] == y);
                }
            }
        }
    }
}

/// Shifting moves a value that occurs to the target index, or to the last
/// position where the index is past it, keeping the length; shifting a
/// value that does not occur changes nothing.
pub proof fn law_shift_to_index<T>(s: Seq<T>, target_index: int, value: T)
    requires
        target_index >= 0,
    ensures
        spec_shift_to_index(s, target_index, value).len() == s.len(),
        s.contains(value) ==> spec_shift_to_index(s, target_index, value)[clamp_index(
            target_index,
            s.len() - 1,
        )] == value,
        !s.contains(value) ==> spec_shift_to_index(s, target_index, value) == s,
{
    s.index_of_first_ensures(value);
    match s.index_of_first(value) {
        Some(i) => {
            let rest = s.remove(i);
            rest.insert_ensures(clamp_index(target_index, rest.len() as int), value);
        },
        None => {},
    }
}

/// Shifting an element that occurs to the front puts it first.
pub proof fn lemma_shift_front<T>(s: Seq<T>, value: T)
    requires
        s.contains(value),
    ensures
        spec_shift_to_index(s, 0, value).len() > 0,
        spec_shift_to_index(s, 0, value)[0] == value,
{
    s.index_of_first_ensures(value);
    let i = s.index_of_first(value)->0;
    let rest = s.remove(i);
    rest.insert_ensures(0, value);
}

} // verus!

verus! {

/// Shifting keeps a sequence free of duplicates.
pub proof fn lemma_shift_no_dup(s: Seq<usize>, target_index: int, value: usize)
    requires
        target_index >= 0,
        s.no_duplicates(),
    ensures
        spec_shift_to_index(s, target_index, value).no_duplicates(),
{
    s.index_of_first_ensures(value);
    match s.index_of_first(value) {
        Some(i) => {
            let rest = s.remove(i);
            let j = clamp_index(target_index, rest.len() as int);
            let t = rest.insert(j, value);
            assert(rest.no_duplicates()) by {
                assert forall|a: int, b: int| 0 <= a < rest.len() && 0 <= b < rest.len() && a != b implies rest[a] != rest[b] by {
                    let sa = if a < i { a } else { a + 1 };
                    let sb = if b < i { b } else { b + 1 };
                    assert(rest[a] == s[sa] && rest[b] == s[sb]);
                }
            }
            assert(!rest.contains(value)) by {
                if rest.contains(value) {
                    let k = choose|k: int| 0 <= k < rest.len() && rest[k] == value;
                    let sk = if k < i { k } else { k + 1 };
                    assert(s[sk] == s[i]);
                }
            }
            crate::seq_util::lemma_insert_no_dup(rest, j, value);
        },
        None => {},
    }
}

} // verus!
