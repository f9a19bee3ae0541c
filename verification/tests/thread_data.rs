use nolock::thread_data::storage::trie::level::Level;
use nolock::thread_data::storage::trie::ptr::{CustomPtr, PtrTarget};
use nolock::thread_data::storage::{List, Trie};
use nolock::thread_data::{StorageBackend, ThreadData, ThreadDataStorage};

#[test]
fn thread_data_new() {
    ThreadData::<usize>::new();
}

#[test]
fn get_or_new_item() {
    let mut data = ThreadData::<usize>::new();

    let result = data.get_or(7, || 15);
    assert_eq!(15, *result);
}

#[test]
fn get_or_existing_item() {
    let mut data = ThreadData::<usize>::new();

    let result = data.get_or(7, || 15);
    assert_eq!(15, *result);

    let result = data.get_or(7, || 20);
    assert_eq!(15, *result);
}

#[test]
fn get_or_other_ids() {
    let mut data = ThreadData::<usize>::new();
    for number in 0..4usize {
        let result = data.get_or(number as u64 * 0x1000 + 3, || number);
        assert_eq!(number, *result);
    }
    for number in 0..4usize {
        assert_eq!(Some(&number), data.get(number as u64 * 0x1000 + 3));
    }
    assert_eq!(None, data.get(4 * 0x1000 + 3));
}

#[test]
fn list_backed_get_or() {
    let mut data = ThreadDataStorage::<List<u32>, u32>::new();
    assert_eq!(None, data.get(1));
    assert_eq!(5, *data.get_or(1, || 5));
    assert_eq!(5, *data.get_or(1, || 6));
    assert_eq!(Some(&5), data.get(1));
}

#[test]
fn new_storage() {
    List::<usize>::new();
}

#[test]
fn get_non_existent() {
    let storage = List::<usize>::new();
    assert_eq!(None, storage.get(0));
}

#[test]
fn list_insert_get() {
    let mut storage = List::<usize>::new();

    storage.insert(13, 123);
    assert_eq!(Some(&123), storage.get(13));
}

#[test]
fn list_insert_repeated_id() {
    let mut storage = List::<usize>::new();

    assert_eq!(1, *storage.insert(13, 1));
    assert_eq!(2, *storage.insert(13, 2));
    assert_eq!(Some(&1), storage.get(13));
}

#[test]
fn storage_has_room() {
    let data = ThreadDataStorage::<List<u32>, u32>::new();
    assert!(data.has_room());
    let data = ThreadData::<u32>::new();
    assert!(data.has_room());
}

#[test]
fn insert_get_other() {
    let mut storage = List::<usize>::new();

    storage.insert(13, 123);
    assert_eq!(None, storage.get(14));
}

#[test]
fn trie_new() {
    Trie::<usize>::new();
}

#[test]
fn get_empty() {
    let trie = Trie::<usize>::new();

    assert_eq!(None, trie.get(123));
    drop(trie);
}

#[test]
fn insert() {
    let mut trie = Trie::<usize>::new();

    let value = trie.insert(123, 13);
    assert_eq!(13, *value);
}

#[test]
fn trie_insert_get() {
    let mut trie = Trie::<usize>::new();

    let value = trie.insert(123, 13);
    assert_eq!(13, *value);

    let result = trie.get(123);
    assert_eq!(Some(&13), result);
}

#[test]
fn insert_get_colliding() {
    let mut trie = Trie::<usize>::new();

    assert_eq!(13, *trie.insert(0x1234, 13));
    assert_eq!(14, *trie.insert(0x1334, 14));
    assert_eq!(15, *trie.insert(0x1434, 15));

    assert_eq!(Some(&13), trie.get(0x1234));
    assert_eq!(Some(&14), trie.get(0x1334));
    assert_eq!(Some(&15), trie.get(0x1434));
}

#[test]
fn insert_get_deep_collisions() {
    let mut trie = Trie::<u64>::new();
    let keys: Vec<u64> = vec![0, 1 << 60, 1 << 61, 1 << 62, 1 << 63, 3 << 60, 7 << 60, 1, 8, 64];
    for (i, k) in keys.iter().enumerate() {
        assert_eq!(i as u64, *trie.insert(*k, i as u64));
    }
    for (i, k) in keys.iter().enumerate() {
        assert_eq!(Some(&(i as u64)), trie.get(*k));
    }
    assert_eq!(None, trie.get(2));
    assert_eq!(None, trie.get(15 << 60));
}

#[test]
fn level_new() {
    Level::new(0, 4, 0, 0);
}

#[test]
fn level() {
    assert_eq!(0x34, Level::index(0x1234, 0, 8));
    assert_eq!(0x12, Level::index(0x1234, 1, 8));

    assert_eq!(0x4, Level::index(0x1234, 0, 4));
    assert_eq!(0x3, Level::index(0x1234, 1, 4));
    assert_eq!(0x2, Level::index(0x1234, 2, 4));
    assert_eq!(0x1, Level::index(0x1234, 3, 4));
}

#[test]
fn level_accessors() {
    let level = Level::new(2, 3, 5, 9);
    assert_eq!(2, level.level());
    assert_eq!(3, level.key_size());
    assert_eq!(5, level.previous());
    assert_eq!(9, level.get_own_ptr());
    assert_eq!(2, level.max_chain());
    assert_eq!(8, level.entries.len());
    assert_eq!(PtrTarget::Level(9), level.entries[3].load());
}

#[test]
fn into_from_level() {
    let input = PtrTarget::Level(0x100);
    let raw_ptr: usize = input.into();
    assert_eq!(input, PtrTarget::from(raw_ptr));
}

#[test]
fn into_from_entry() {
    let input = PtrTarget::Entry(0x100);
    let raw_ptr: usize = input.into();
    assert_eq!(input, PtrTarget::from(raw_ptr));
}

#[test]
fn target_encoding() {
    let raw: usize = PtrTarget::Entry(5).into();
    assert_eq!(11, raw);
    let raw: usize = PtrTarget::Level(5).into();
    assert_eq!(10, raw);
    assert_eq!(PtrTarget::Entry(3), PtrTarget::from(7));
    assert_eq!(PtrTarget::Level(3), PtrTarget::from(6));
}

#[test]
fn custom_ptr_compare_exchange() {
    let mut ptr = CustomPtr::new_level(4);
    assert_eq!(PtrTarget::Level(4), ptr.load());
    assert_eq!(
        Err(PtrTarget::Level(4)),
        ptr.compare_exchange(PtrTarget::Entry(4), PtrTarget::Entry(1))
    );
    assert_eq!(PtrTarget::Level(4), ptr.load());
    assert_eq!(
        Ok(PtrTarget::Level(4)),
        ptr.compare_exchange(PtrTarget::Level(4), PtrTarget::Entry(1))
    );
    assert_eq!(PtrTarget::Entry(1), ptr.load());
    ptr.store(PtrTarget::Level(2));
    assert_eq!(PtrTarget::Level(2), ptr.load());
}
