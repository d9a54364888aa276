//! A dynamic map from `usize` to `usize` kept in a `Vec` rather than in a
//! `HashMap` or a `BTreeMap`.
use vstd::prelude::*;

verus! {

/// A dynamic associative array `usize -> usize` based on a `Vec`.
pub struct VecMap(pub Vec<Option<usize>>);

impl VecMap {
    /// The entries: a key maps to a value where the slot holds one.
    pub open spec fn entries(self) -> Seq<Option<usize>> {
        self.0@
    }

    /// The key `k` has a value.
    pub open spec fn has(self, k: int) -> bool {
        0 <= k < self.0@.len() && self.0@[k] is Some
    }

    /// The value of `k`, where there is one.
    pub open spec fn value(self, k: int) -> usize {
        self.0@[k]->Some_0
    }

    /// The value of `k`, or `None` past the end.
    pub open spec fn lookup(self, k: int) -> Option<usize> {
        if 0 <= k < self.0@.len() {
            self.0@[k]
        } else {
            None
        }
    }

    /// The empty map.
    pub fn new() -> (r: Self)
        ensures
            r.entries() == Seq::<Option<usize>>::empty(),
    {
        VecMap(Vec::new())
    }

    /// The value of `index`, which must be there.
    pub fn get(&self, index: usize) -> (r: usize)
        requires
            self.has(index as int),
        ensures
            r == self.value(index as int),
    {
        self.0[index].unwrap()
    }

    /// The value of `index`, if it has one.
    pub fn get_safely(&self, index: usize) -> (r: Option<usize>)
        ensures
            r == if index < self.0@.len() {
                self.0@[index as int]
            } else {
                None
            },
    {
        if index < self.0.len() {
            self.0[index]
        } else {
            None
        }
    }

    /// Sets the value of `index`, growing the vector with empty slots as
    /// needed.
    pub fn set(&mut self, index: usize, value: usize)
        requires
            index < usize::MAX,
        ensures
            final(self).0@.len() == if index < old(self).0@.len() {
                old(self).0@.len() as int
            } else {
                index + 1
            },
            forall|k: int|
                0 <= k < final(self).0@.len() ==> #[trigger] final(self).0@[k] == if k == index {
                    Some(value)
                } else if k < old(self).0@.len() {
                    old(self).0@[k]
                } else {
                    None
                },
            forall|k: int| #[trigger] final(self).lookup(k) == if k == index {
                Some(value)
            } else {
                old(self).lookup(k)
            },
    {
        while self.0.len() < index + 1
            invariant
                index < usize::MAX,
                old(self).0@.len() <= self.0@.len(),
                self.0@.len() <= if index < old(self).0@.len() {
                    old(self).0@.len() as int
                } else {
                    index + 1
                },
                forall|k: int|
                    0 <= k < self.0@.len() ==> #[trigger] self.0@[k] == if k < old(self).0@.len() {
                        old(self).0@[k]
                    } else {
                        None
                    },
            decreases index + 1 - self.0@.len(),
        {
            self.0.push(None);
        }
        self.0.set(index, Some(value));
    }

    /// Adds one to the value of `index`.
    pub fn increment(&mut self, index: usize)
        requires
            old(self).has(index as int),
            old(self).value(index as int) < usize::MAX,
        ensures
            final(self).0@ == old(self).0@.update(
                index as int,
                Some((old(self).value(index as int) + 1) as usize),
            ),
    {
        let v = self.0[index].unwrap();
        self.0.set(index, Some(v + 1));
    }
}

} // verus!
