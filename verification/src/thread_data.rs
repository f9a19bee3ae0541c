//! Data kept per thread: a storage that maps the id of a thread to the data
//! created for it, created at most once per id.

use vstd::prelude::*;

pub mod storage;

use storage::{List, Trie};

verus! {

/// A store of data by 64-bit id, into which data is added once per id and
/// never removed.
pub trait StorageBackend<T> {
    /// The data held for each id.
    spec fn contents(&self) -> Map<u64, T>;

    /// The storage is in a consistent state.
    spec fn well_formed(&self) -> bool;

    /// How many more ids the storage can take for sure.
    spec fn room(&self) -> nat;

    /// Whether an id that the storage already holds may be added again; the
    /// data held for it stays the first one.
    spec fn takes_repeats(&self) -> bool;

    /// Whether the storage can take one more id for sure.
    fn has_room(&self) -> (b: bool)
        requires
            self.well_formed(),
        ensures
            b == (self.room() > 0),
    ;

    /// The data held for `id`, if any.
    fn get(&self, id: u64) -> (r: Option<&T>)
        requires
            self.well_formed(),
        ensures
            match r {
                Some(v) => self.contents().contains_key(id) && *v == self.contents()[id],
                None => !self.contents().contains_key(id),
            },
    ;

    /// Adds `data` for `id` and returns the data as stored. An id the storage
    /// already holds is added again only where the storage takes repeats,
    /// and then the data held for it does not change.
    fn insert(&mut self, id: u64, data: T) -> (r: &T)
        requires
            old(self).well_formed(),
            old(self).room() > 0,
            old(self).contents().contains_key(id) ==> old(self).takes_repeats(),
        ensures
            final(self).well_formed(),
            final(self).contents() == (if old(self).contents().contains_key(id) {
                old(self).contents()
            } else {
                old(self).contents().insert(id, data)
            }),
            final(self).room() + 1 >= old(self).room(),
            *r == data,
    ;
}

/// `after` is `before` and `r` the data it holds for `id`, when it holds
/// some; otherwise `after` is `before` with `r` added for `id`. This is what
/// `get_or` does to the data stored.
pub open spec fn got_or_created<T>(before: Map<u64, T>, after: Map<u64, T>, id: u64, r: T) -> bool {
    if before.contains_key(id) {
        after == before && r == before[id]
    } else {
        after == before.insert(id, r)
    }
}

/// Data is created once per thread id: after `get_or` the storage holds the
/// data it handed out, and a second `get_or` for the same id hands out the
/// same data and changes nothing.
pub proof fn law_get_or_once<T>(
    first: Map<u64, T>,
    second: Map<u64, T>,
    third: Map<u64, T>,
    id: u64,
    r1: T,
    r2: T,
)
    requires
        got_or_created(first, second, id, r1),
        got_or_created(second, third, id, r2),
    ensures
        second.contains_key(id),
        second[id] == r1,
        r2 == r1,
        third == second,
{
}

/// Data per thread, held in a storage keyed by thread id.
pub struct ThreadDataStorage<S, T> {
    storage: S,
    _marker: core::marker::PhantomData<T>,
}

/// Data per thread, held in a trie.
pub type ThreadData<T> = ThreadDataStorage<Trie<T>, T>;

impl<S: StorageBackend<T>, T> ThreadDataStorage<S, T> {
    /// The data held for each thread id.
    pub closed spec fn contents(&self) -> Map<u64, T> {
        self.storage.contents()
    }

    /// The storage is in a consistent state.
    pub closed spec fn well_formed(&self) -> bool {
        self.storage.well_formed()
    }

    /// How many more threads the storage can take data for, for sure.
    pub closed spec fn room(&self) -> nat {
        self.storage.room()
    }

    /// Data per thread held in `storage`.
    pub fn new_storage(storage: S) -> (r: Self)
        ensures
            r.contents() == storage.contents(),
            r.well_formed() == storage.well_formed(),
            r.room() == storage.room(),
    {
        Self { storage, _marker: core::marker::PhantomData }
    }

    /// Whether the storage can take the data of one more thread for sure.
    pub fn has_room(&self) -> (b: bool)
        requires
            self.well_formed(),
        ensures
            b == (self.room() > 0),
    {
        self.storage.has_room()
    }

    /// The data stored for the thread with id `id`, if any.
    pub fn get(&self, id: u64) -> (r: Option<&T>)
        requires
            self.well_formed(),
        ensures
            match r {
                Some(v) => self.contents().contains_key(id) && *v == self.contents()[id],
                None => !self.contents().contains_key(id),
            },
    {
        self.storage.get(id)
    }

    /// The data stored for the thread with id `id`; when there is none yet,
    /// the data `create` returns is stored first.
    pub fn get_or<F: Fn() -> T>(&mut self, id: u64, create: F) -> (r: &T)
        requires
            old(self).well_formed(),
            !old(self).contents().contains_key(id) ==> old(self).room() > 0 && create.requires(()),
        ensures
            final(self).well_formed(),
            final(self).room() + 1 >= old(self).room(),
            old(self).contents().contains_key(id) ==> final(self).room() == old(self).room(),
            got_or_created(old(self).contents(), final(self).contents(), id, *r),
            !old(self).contents().contains_key(id) ==> create.ensures((), *r),
    {
        if self.storage.get(id).is_some() {
            return self.storage.get(id).unwrap();
        }
        let data = create();
        self.storage.insert(id, data)
    }
}

impl<T> ThreadDataStorage<Trie<T>, T> {
    /// Data per thread held in an empty trie.
    pub fn new() -> (r: Self)
        ensures
            r.well_formed(),
            r.contents() == Map::<u64, T>::empty(),
            r.room() >= 100_000_000,
    {
        Self::new_storage(Trie::new())
    }
}

impl<T> Default for ThreadDataStorage<Trie<T>, T> {
    fn default() -> (r: Self)
        ensures
            r.well_formed(),
            r.contents() == Map::<u64, T>::empty(),
            r.room() >= 100_000_000,
    {
        Self::new()
    }
}

impl<T> Default for ThreadDataStorage<List<T>, T> {
    fn default() -> (r: Self)
        ensures
            r.well_formed(),
            r.contents() == Map::<u64, T>::empty(),
            r.room() == usize::MAX as nat,
    {
        Self::new()
    }
}

impl<T> ThreadDataStorage<List<T>, T> {
    /// Data per thread held in an empty list.
    pub fn new() -> (r: Self)
        ensures
            r.well_formed(),
            r.contents() == Map::<u64, T>::empty(),
            r.room() == usize::MAX as nat,
    {
        Self::new_storage(List::new())
    }
}

} // verus!
