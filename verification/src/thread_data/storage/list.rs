//! A list of entries, searched from the oldest.

use vstd::prelude::*;

use crate::thread_data::StorageBackend;

verus! {

/// An id with its data.
struct Entry<T> {
    id: u64,
    data: T,
}

/// The data of the first pair in `items` whose id is `id`.
pub open spec fn first_match<T>(items: Seq<(u64, T)>, id: u64) -> Option<T>
    decreases items.len(),
{
    if items.len() == 0 {
        None
    } else if items[0].0 == id {
        Some(items[0].1)
    } else {
        first_match(items.drop_first(), id)
    }
}

/// Appending a pair changes the first match of its id only where there was
/// none.
proof fn lemma_first_match_push<T>(items: Seq<(u64, T)>, item: (u64, T), id: u64)
    ensures
        first_match(items.push(item), id) == (if first_match(items, id) is Some {
            first_match(items, id)
        } else if item.0 == id {
            Some(item.1)
        } else {
            None
        }),
    decreases items.len(),
{
    let pushed = items.push(item);
    if items.len() > 0 {
        assert(pushed[0] == items[0]);
        assert(pushed.drop_first() =~= items.drop_first().push(item));
        lemma_first_match_push(items.drop_first(), item, id);
        if items[0].0 != id {
            assert(first_match(pushed, id) == first_match(pushed.drop_first(), id));
            assert(first_match(items, id) == first_match(items.drop_first(), id));
        }
    } else {
        assert(pushed[0] == item);
        assert(pushed.drop_first() =~= Seq::<(u64, T)>::empty());
        assert(first_match(Seq::<(u64, T)>::empty(), id) is None);
    }
}

/// A list of ids with their data; new pairs go to the end.
pub struct List<T> {
    entries: Vec<Entry<T>>,
}

impl<T> List<T> {
    /// The pairs, oldest first.
    pub closed spec fn items(&self) -> Seq<(u64, T)> {
        Seq::new(self.entries@.len(), |i: int| (self.entries@[i].id, self.entries@[i].data))
    }

    /// An empty list.
    pub fn new() -> (r: Self)
        ensures
            r.items() == Seq::<(u64, T)>::empty(),
            r.room() == usize::MAX as nat,
    {
        let r = Self { entries: Vec::new() };
        assert(r.items() =~= Seq::<(u64, T)>::empty());
        r
    }

    /// The data of the oldest pair for `id`.
    fn find(&self, id: u64) -> (r: Option<&T>)
        ensures
            match r {
                Some(v) => first_match(self.items(), id) == Some(*v),
                None => first_match(self.items(), id) is None,
            },
    {
        let n = self.entries.len();
        let mut i: usize = 0;
        proof {
            assert(self.items().subrange(0, n as int) =~= self.items());
        }
        while i < n
            invariant
                0 <= i <= n,
                n == self.entries@.len(),
                first_match(self.items(), id) == first_match(self.items().subrange(i as int, n as int), id),
            decreases n - i,
        {
            proof {
                assert(self.items().subrange(i as int, n as int).drop_first() =~= self.items().subrange(i + 1, n as int));
            }
            if self.entries[i].id == id {
                return Some(&self.entries[i].data);
            }
            i = i + 1;
        }
        None
    }

    /// Appends a pair for `id`.
    fn append(&mut self, id: u64, data: T)
        ensures
            final(self).items() == old(self).items().push((id, data)),
    {
        self.entries.push(Entry { id, data });
        proof {
            assert(self.items() =~= old(self).items().push((id, data)));
        }
    }
}

impl<T> Default for List<T> {
    fn default() -> (r: Self)
        ensures
            r.items() == Seq::<(u64, T)>::empty(),
    {
        Self::new()
    }
}

impl<T> StorageBackend<T> for List<T> {
    open spec fn contents(&self) -> Map<u64, T> {
        Map::new(|id: u64| first_match(self.items(), id) is Some, |id: u64| first_match(self.items(), id)->0)
    }

    open spec fn well_formed(&self) -> bool {
        true
    }

    open spec fn room(&self) -> nat {
        usize::MAX as nat
    }

    open spec fn takes_repeats(&self) -> bool {
        true
    }

    fn has_room(&self) -> (b: bool) {
        true
    }

    fn get(&self, id: u64) -> (r: Option<&T>) {
        self.find(id)
    }

    fn insert(&mut self, id: u64, data: T) -> (r: &T)
        ensures
            final(self).items() == old(self).items().push((id, data)),
    {
        self.append(id, data);
        proof {
            assert forall|k: u64| true implies first_match(self.items(), k) == (if first_match(old(self).items(), k) is Some {
                first_match(old(self).items(), k)
            } else if id == k {
                Some(data)
            } else {
                None
            }) by {
                lemma_first_match_push(old(self).items(), (id, data), k);
            }
            if old(self).contents().contains_key(id) {
                assert(self.contents() =~= old(self).contents());
            } else {
                assert(self.contents() =~= old(self).contents().insert(id, data));
            }
            assert(self.items().last() == (id, data));
        }
        let last = self.entries.len() - 1;
        &self.entries[last].data
    }
}

} // verus!
