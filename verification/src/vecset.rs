//! A set stored in a vector, searched linearly.
use vstd::prelude::*;
use crate::robin::same_val;

verus! {

/// A set that is stored in a Vec
#[derive(Debug)]
pub struct VecSet<T> {
    v: Vec<T>,
}

impl<T> View for VecSet<T> {
    type V = Set<T>;

    closed spec fn view(&self) -> Set<T> {
        self.v@.to_set()
    }
}

impl<T: Eq> VecSet<T> {
    /// The vector holds no element twice, and `==` on `T` is equality.
    pub closed spec fn wf(&self) -> bool {
        &&& vstd::laws_eq::obeys_concrete_eq::<T>()
        &&& self.v@.no_duplicates()
    }

    /// The elements in the order they are stored.
    pub closed spec fn elements(&self) -> Seq<T> {
        self.v@
    }

    /// The set is finite.
    pub proof fn lemma_view_finite(&self)
        ensures
            self@.finite(),
    {
        vstd::seq_lib::seq_to_set_is_finite(self.v@);
    }

    /// Creates an empty set..
    pub fn new() -> (s: VecSet<T>)
        requires
            vstd::laws_eq::obeys_concrete_eq::<T>(),
        ensures
            s.wf(),
            s@ == Set::<T>::empty(),
            s@.finite(),
    {
        let s = VecSet { v: Vec::new() };
        assert(s.v@.to_set() =~= Set::<T>::empty());
        s
    }

    /// Returns the number of elements in the set.
    pub fn len(&self) -> (r: usize)
        requires
            self.wf(),
        ensures
            r == self@.len(),
    {
        proof {
            self.v@.unique_seq_to_set();
        }
        self.v.len()
    }

    /// Returns true if the set contains a value.
    pub fn contains(&self, value: &T) -> (r: bool)
        requires
            self.wf(),
        ensures
            r == self@.contains(*value),
    {
        let mut i: usize = 0;
        while i < self.v.len()
            invariant
                self.wf(),
                i <= self.v@.len(),
                forall|j: int| 0 <= j < i ==> self.v@[j] != *value,
            decreases self.v@.len() - i,
        {
            if same_val(&self.v[i], value) {
                proof {
                    assert(self.v@.contains(*value));
                }
                return true;
            }
            i += 1;
        }
        false
    }

    /// Adds a value to the set.
    ///
    /// If the set did not have this value present, `true` is returned.
    ///
    /// If the set did have this value present, `false` is returned.
    pub fn insert(&mut self, elem: T) -> (r: bool)
        requires
            old(self).wf(),
        ensures
            final(self).wf(),
            final(self)@ == old(self)@.insert(elem),
            final(self)@.finite(),
            r == !old(self)@.contains(elem),
            r ==> final(self).elements() == old(self).elements().push(elem),
            !r ==> final(self).elements() == old(self).elements(),
    {
        proof {
            vstd::seq_lib::seq_to_set_is_finite(self.v@);
        }
        if self.contains(&elem) {
            proof {
                assert(self@.insert(elem) =~= self@);
            }
            false
        } else {
            proof {
                self.v@.lemma_push_to_set_commute(elem);
            }
            self.v.push(elem);
            proof {
                assert forall|i: int, j: int| 0 <= i < self.v@.len() && 0 <= j < self.v@.len() && i != j implies self.v@[i] != self.v@[j] by {
                    if j == self.v@.len() - 1 {
                        assert(old(self).v@.contains(old(self).v@[i]));
                    }
                    if i == self.v@.len() - 1 {
                        assert(old(self).v@.contains(old(self).v@[j]));
                    }
                }
            }
            true
        }
    }

    /// Removes an element, and returns true if that element was present.
    pub fn remove(&mut self, value: &T) -> (r: bool)
        requires
            old(self).wf(),
        ensures
            final(self).wf(),
            final(self)@ == old(self)@.remove(*value),
            final(self)@.finite(),
            r == old(self)@.contains(*value),
            r ==> final(self).elements() == old(self).elements().update(
                old(self).elements().index_of(*value),
                old(self).elements().last(),
            ).drop_last(),
            !r ==> final(self).elements() == old(self).elements(),
    {
        proof {
            vstd::seq_lib::seq_to_set_is_finite(self.v@);
        }
        let mut i: usize = 0;
        while i < self.v.len()
            invariant
                self.wf(),
                self.v@ == old(self).v@,
                i <= self.v@.len(),
                forall|j: int| 0 <= j < i ==> self.v@[j] != *value,
            decreases self.v@.len() - i,
        {
            if same_val(&self.v[i], value) {
                let ghost s = self.v@;
                proof {
                    let c = s.index_of(*value);
                    assert(s[i as int] == *value);
                    assert(s.contains(*value));
                    if c != i as int {
                        assert(s[c] == s[i as int]);
                    }
                }
                self.v.swap_remove(i);
                proof {
                    let t = self.v@;
                    assert(t =~= s.update(i as int, s.last()).drop_last());
                    assert forall|a: int, b: int| 0 <= a < t.len() && 0 <= b < t.len() && a != b implies t[a] != t[b] by {
                        let pa = if a == i { s.len() - 1 } else { a };
                        let pb = if b == i { s.len() - 1 } else { b };
                        assert(t[a] == s[pa] && t[b] == s[pb]);
                    }
                    assert(t.to_set() =~= s.to_set().remove(*value)) by {
                        assert forall|x: T| t.to_set().contains(x) <==> s.to_set().remove(*value).contains(x) by {
                            if t.contains(x) {
                                let a = choose|a: int| 0 <= a < t.len() && t[a] == x;
                                let pa = if a == i { s.len() - 1 } else { a };
                                assert(s[pa] == x);
                                assert(s[i as int] != s[pa]);
                            }
                            if s.contains(x) && x != *value {
                                let a = choose|a: int| 0 <= a < s.len() && s[a] == x;
                                if a == s.len() - 1 {
                                    assert(t[i as int] == x);
                                } else {
                                    assert(a != i);
                                    assert(t[a] == x);
                                }
                            }
                        }
                    }
                }
                return true;
            }
            i += 1;
        }
        proof {
            assert(!self.v@.contains(*value));
            assert(self@.remove(*value) =~= self@);
        }
        false
    }
}

impl<T: Eq> VecSet<T> {
    /// The elements of the set, in the order they are stored.
    pub fn iter(&self) -> (r: Vec<&T>)
        requires
            self.wf(),
        ensures
            r@.len() == self.elements().len(),
            forall|i: int| 0 <= i < r@.len() ==> *r@[i] == self.elements()[i],
    {
        let mut r: Vec<&T> = Vec::new();
        let mut i: usize = 0;
        while i < self.v.len()
            invariant
                i <= self.v@.len(),
                r@.len() == i,
                forall|j: int| 0 <= j < i ==> *r@[j] == self.v@[j],
            decreases self.v@.len() - i,
        {
            r.push(&self.v[i]);
            i += 1;
        }
        r
    }
}

} // verus!
