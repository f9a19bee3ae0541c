//! A trie keyed by 64-bit ids. Each level reads three more bits of the key
//! to pick one of its eight buckets; a bucket holds a chain of at most two
//! entries, and the chain moves one level down when a third key arrives.
//! Levels and entries live in two arenas and point at each other by slot.

use vstd::prelude::*;
use vstd::arithmetic::power2::pow2;

pub mod entry;
pub mod level;
pub mod ptr;

use entry::Entry;
use level::Level;
use ptr::{CustomPtr, PtrTarget, MAX_SLOT};

use crate::thread_data::StorageBackend;

verus! {

/// The number of key bits read by each level.
pub const KEY_SIZE: usize = 3;

/// The deepest level: it reads the key bits 60 to 62, and no three distinct
/// keys agree on all bits below 63.
pub const MAX_DEPTH: usize = 20;

/// The low `3 * depth` bits of `key`: the bits that lead to a level of that
/// depth.
pub open spec fn low_bits(key: u64, depth: nat) -> nat {
    key as nat % pow2(3 * depth)
}

/// The bucket of `key` on a level of depth `depth`.
pub open spec fn bucket_of(key: u64, depth: nat) -> nat {
    level::key_bits(key, depth, 3)
}

/// The bits that lead one level deeper are those that lead to this level,
/// followed by the bucket of the key on it.
proof fn lemma_low_bits_step(key: u64, depth: nat)
    ensures
        pow2(3 * (depth + 1)) == pow2(3 * depth) * 8,
        low_bits(key, depth + 1) == low_bits(key, depth) + bucket_of(key, depth) * pow2(3 * depth),
        low_bits(key, depth) < pow2(3 * depth),
        bucket_of(key, depth) < 8,
{
    vstd::arithmetic::power2::lemma2_to64();
    vstd::arithmetic::power2::lemma_pow2_pos(3 * depth);
    vstd::arithmetic::power2::lemma_pow2_adds(3 * depth, 3);
    assert(3 * (depth + 1) == 3 * depth + 3) by (nonlinear_arith);
    vstd::arithmetic::div_mod::lemma_mod_breakdown(key as int, pow2(3 * depth) as int, 8);
    vstd::arithmetic::div_mod::lemma_mod_pos_bound(key as int, pow2(3 * depth) as int);
    vstd::arithmetic::div_mod::lemma_mod_pos_bound((key as nat / pow2(3 * depth)) as int, 8);
    assert(pow2(3 * depth) * ((key as nat / pow2(3 * depth)) % 8) == bucket_of(key, depth) * pow2(3 * depth)) by (nonlinear_arith)
        requires
            bucket_of(key, depth) == (key as nat / pow2(3 * depth)) % 8,
    ;
}

/// Reading the bits that lead one level deeper back: they split uniquely
/// into the bits of this level and the bucket.
proof fn lemma_low_bits_split(key: u64, depth: nat, prefix: nat, bucket: int)
    requires
        prefix < pow2(3 * depth),
        0 <= bucket < 8,
        low_bits(key, depth + 1) == prefix + bucket * pow2(3 * depth),
    ensures
        low_bits(key, depth) == prefix,
        bucket_of(key, depth) == bucket,
{
    lemma_low_bits_step(key, depth);
    let p = pow2(3 * depth) as int;
    let l = low_bits(key, depth) as int;
    let b = bucket_of(key, depth) as int;
    assert(b == bucket && l == prefix) by (nonlinear_arith)
        requires
            l + b * p == prefix + bucket * p,
            0 <= l < p,
            0 <= prefix < p,
            0 <= b,
            0 <= bucket,
    ;
}

/// Three distinct keys never agree on their low 63 bits: the deepest level
/// never fills a chain.
proof fn lemma_three_keys(a: u64, b: u64, c: u64)
    requires
        low_bits(a, (MAX_DEPTH + 1) as nat) == low_bits(b, (MAX_DEPTH + 1) as nat),
        low_bits(a, (MAX_DEPTH + 1) as nat) == low_bits(c, (MAX_DEPTH + 1) as nat),
    ensures
        a == b || a == c || b == c,
{
    vstd::arithmetic::power2::lemma2_to64_rest();
    assert(3 * ((MAX_DEPTH + 1) as nat) == 63);
    let m: u64 = 0x8000_0000_0000_0000;
    assert(a % m == b % m && a % m == c % m ==> a == b || a == c || b == c) by (bit_vector)
        requires
            m == 0x8000_0000_0000_0000u64,
    ;
}

/// A trie of 64-bit keys with data of type `T`.
pub struct Trie<T> {
    levels: Vec<Level>,
    nodes: Vec<Entry<T>>,
    /// For each level, the low key bits shared by every key below it.
    prefixes: Ghost<Seq<nat>>,
    /// For each level but the first, the bucket of the level above that
    /// points at it.
    slots: Ghost<Seq<int>>,
    /// For each entry, the level and bucket whose chain holds it.
    owners: Ghost<Seq<(int, int)>>,
    /// For each key held, its entry.
    keys: Ghost<Map<u64, int>>,
}

impl<T> Trie<T> {
    spec fn target(&self, li: int, b: int) -> PtrTarget {
        self.levels@[li].entries@[b].target()
    }

    spec fn link(&self, e: int) -> PtrTarget {
        self.nodes@[e].next.target()
    }

    spec fn key_at(&self, e: int) -> u64 {
        self.nodes@[e].key
    }

    spec fn depth(&self, li: int) -> nat {
        self.levels@[li].level as nat
    }

    spec fn prev(&self, li: int) -> int {
        self.levels@[li].previous as int
    }

    /// The level's own fields, and its place below the level above.
    spec fn level_ok(&self, li: int) -> bool {
        let l = self.levels@[li];
        &&& l.own == li
        &&& l.key_size == KEY_SIZE
        &&& l.entries@.len() == 8
        &&& l.level <= MAX_DEPTH
        &&& self.prefixes@[li] < pow2(3 * (l.level as nat))
        &&& li == 0 ==> l.level == 0 && self.prefixes@[li] == 0 && l.previous == 0
        &&& li > 0 ==> {
            let p = l.previous as int;
            &&& 0 <= p < li
            &&& l.level == self.levels@[p].level + 1
            &&& 0 <= self.slots@[li] < 8
            &&& self.target(p, self.slots@[li]) == PtrTarget::Level(li as usize)
            &&& self.prefixes@[li] == self.prefixes@[p] + self.slots@[li] * pow2(3 * self.depth(p))
        }
    }

    /// A bucket is empty (points at its own level), points at a level one
    /// deeper whose slot it is, or starts a chain of one or two entries that
    /// ends at its own level.
    spec fn bucket_ok(&self, li: int, b: int, detached: Set<int>) -> bool {
        match self.target(li, b) {
            PtrTarget::Level(x) => {
                &&& 0 <= x < self.levels@.len()
                &&& (x == li || (self.prev(x as int) == li && self.slots@[x as int] == b))
            },
            PtrTarget::Entry(e) => {
                &&& 0 <= e < self.nodes@.len()
                &&& !detached.contains(e as int)
                &&& self.owners@[e as int] == (li, b)
                &&& match self.link(e as int) {
                    PtrTarget::Level(x) => x == li,
                    PtrTarget::Entry(f) => {
                        &&& 0 <= f < self.nodes@.len()
                        &&& f != e
                        &&& !detached.contains(f as int)
                        &&& self.owners@[f as int] == (li, b)
                        &&& self.link(f as int) == PtrTarget::Level(li as usize)
                    },
                }
            },
        }
    }

    /// Entry `e` is on the chain of bucket `b` of level `li`.
    spec fn in_chain(&self, li: int, b: int, e: int) -> bool {
        ||| self.target(li, b) == PtrTarget::Entry(e as usize)
        ||| (self.target(li, b) matches PtrTarget::Entry(first) && self.link(first as int)
            == PtrTarget::Entry(e as usize))
    }

    /// An entry sits on the chain of its owner, whose path it follows.
    spec fn node_ok(&self, e: int) -> bool {
        let li = self.owners@[e].0;
        let b = self.owners@[e].1;
        &&& 0 <= li < self.levels@.len()
        &&& 0 <= b < 8
        &&& self.in_chain(li, b, e)
        &&& low_bits(self.key_at(e), self.depth(li)) == self.prefixes@[li]
        &&& bucket_of(self.key_at(e), self.depth(li)) == b
    }

    /// The trie is well formed but for the entries in `detached`, which sit
    /// on no chain.
    spec fn wf_except(&self, detached: Set<int>) -> bool {
        &&& 1 <= self.levels@.len() <= MAX_SLOT
        &&& self.nodes@.len() <= MAX_SLOT
        &&& self.prefixes@.len() == self.levels@.len()
        &&& self.slots@.len() == self.levels@.len()
        &&& self.owners@.len() == self.nodes@.len()
        &&& forall|li: int| 0 <= li < self.levels@.len() ==> #[trigger] self.level_ok(li)
        &&& forall|li: int, b: int|
            0 <= li < self.levels@.len() && 0 <= b < 8 ==> #[trigger] self.bucket_ok(li, b, detached)
        &&& forall|e: int|
            0 <= e < self.nodes@.len() && !detached.contains(e) ==> #[trigger] self.node_ok(e)
        &&& forall|e: int|
            0 <= e < self.nodes@.len() ==> self.keys@.contains_key(#[trigger] self.key_at(e))
                && self.keys@[self.key_at(e)] == e
        &&& forall|k: u64|
            #[trigger] self.keys@.contains_key(k) ==> 0 <= self.keys@[k] < self.nodes@.len()
                && self.key_at(self.keys@[k]) == k
    }

    /// The trie is well formed.
    pub closed spec fn wf(&self) -> bool {
        self.wf_except(Set::empty())
    }

    /// The data held for each key.
    pub closed spec fn view(&self) -> Map<u64, T> {
        Map::new(|k: u64| self.keys@.contains_key(k), |k: u64| self.nodes@[self.keys@[k]].data)
    }

    /// How many more entries the arenas take for sure: each needs one entry
    /// slot and at most `MAX_DEPTH` new levels.
    pub closed spec fn room_left(&self) -> nat {
        let by_nodes = MAX_SLOT - 1 - self.nodes@.len();
        let by_levels = (MAX_SLOT - 1 - self.levels@.len()) / (MAX_DEPTH + 1) as int;
        if by_nodes <= 0 || by_levels <= 0 {
            0
        } else if by_nodes <= by_levels {
            by_nodes as nat
        } else {
            by_levels as nat
        }
    }

    /// Level `a` lies on the path from the first level to level `l`.
    spec fn is_anc(&self, a: int, l: int) -> bool
        decreases l,
    {
        if a == l {
            true
        } else if 0 < l < self.levels@.len() && 0 <= self.prev(l) < l {
            self.is_anc(a, self.prev(l))
        } else {
            false
        }
    }

    /// The level below `a` on the path from `a` to `l`.
    spec fn child_toward(&self, a: int, l: int) -> int
        decreases l,
    {
        if 0 < l < self.levels@.len() && 0 <= self.prev(l) < l && self.prev(l) != a {
            self.child_toward(a, self.prev(l))
        } else {
            l
        }
    }

    /// The first level lies on the path to every level.
    proof fn lemma_root_is_anc(&self, d: Set<int>, l: int)
        requires
            self.wf_except(d),
            0 <= l < self.levels@.len(),
        ensures
            self.is_anc(0, l),
        decreases l,
    {
        assert(self.level_ok(l));
        if l > 0 {
            self.lemma_root_is_anc(d, self.prev(l));
        }
    }

    /// The path from `a` to `l` leaves `a` through a level one deeper, which
    /// is on the path to `l` too.
    proof fn lemma_child_toward(&self, d: Set<int>, a: int, l: int)
        requires
            self.wf_except(d),
            0 <= l < self.levels@.len(),
            self.is_anc(a, l),
            a != l,
        ensures
            0 < self.child_toward(a, l) < self.levels@.len(),
            self.prev(self.child_toward(a, l)) == a,
            self.is_anc(self.child_toward(a, l), l),
        decreases l,
    {
        assert(self.level_ok(l));
        if self.prev(l) != a {
            self.lemma_child_toward(d, a, self.prev(l));
        }
    }

    /// A key that follows the path to a level follows the path to each
    /// level above it.
    proof fn lemma_anc_low_bits(&self, d: Set<int>, key: u64, a: int, l: int)
        requires
            self.wf_except(d),
            0 <= l < self.levels@.len(),
            self.is_anc(a, l),
            low_bits(key, self.depth(l)) == self.prefixes@[l],
        ensures
            0 <= a < self.levels@.len(),
            low_bits(key, self.depth(a)) == self.prefixes@[a],
        decreases l,
    {
        if a != l {
            assert(self.level_ok(l));
            let p = self.prev(l);
            assert(self.level_ok(p));
            lemma_low_bits_split(key, self.depth(p), self.prefixes@[p], self.slots@[l]);
            self.lemma_anc_low_bits(d, key, a, p);
        }
    }

    /// On a level on the path to the owner of a key's entry, the bucket of
    /// the key starts the chain holding the entry, or points at the next
    /// level of the path.
    proof fn lemma_descend(&self, d: Set<int>, key: u64, li: int, e: int)
        requires
            self.wf_except(d),
            0 <= li < self.levels@.len(),
            0 <= e < self.nodes@.len(),
            !d.contains(e),
            self.key_at(e) == key,
            self.is_anc(li, self.owners@[e].0),
        ensures
            self.owners@[e].0 == li ==> self.owners@[e].1 == bucket_of(key, self.depth(li))
                && self.in_chain(li, self.owners@[e].1, e),
            self.owners@[e].0 != li ==> {
                let c = self.child_toward(li, self.owners@[e].0);
                &&& 0 < c < self.levels@.len()
                &&& self.target(li, bucket_of(key, self.depth(li)) as int) == PtrTarget::Level(c as usize)
                &&& c != li
                &&& self.is_anc(c, self.owners@[e].0)
            },
    {
        assert(self.node_ok(e));
        let lo = self.owners@[e].0;
        if lo != li {
            self.lemma_child_toward(d, li, lo);
            let c = self.child_toward(li, lo);
            self.lemma_anc_low_bits(d, key, c, lo);
            assert(self.level_ok(c));
            assert(self.level_ok(li));
            lemma_low_bits_split(key, self.depth(li), self.prefixes@[li], self.slots@[c]);
        }
    }

    /// The entries keep their keys and data, and the trie its keys.
    spec fn same_content(&self, other: &Self) -> bool {
        &&& self.nodes@.len() == other.nodes@.len()
        &&& forall|e: int|
            #![trigger self.nodes@[e]]
            0 <= e < self.nodes@.len() ==> self.nodes@[e].key == other.nodes@[e].key
                && self.nodes@[e].data == other.nodes@[e].data
        &&& self.keys@ == other.keys@
    }

    /// Keeping the content is transitive.
    proof fn lemma_same_content_trans(a: &Self, b: &Self, c: &Self)
        requires
            a.same_content(b),
            b.same_content(c),
        ensures
            a.same_content(c),
    {
        assert forall|e: int| #![trigger a.nodes@[e]] 0 <= e < a.nodes@.len() implies a.nodes@[e].key == c.nodes@[e].key
            && a.nodes@[e].data == c.nodes@[e].data by {
            assert(a.nodes@[e].key == b.nodes@[e].key && a.nodes@[e].data == b.nodes@[e].data);
            assert(b.nodes@[e].key == c.nodes@[e].key && b.nodes@[e].data == c.nodes@[e].data);
        }
    }

    /// Points the next pointer of a detached entry at `t`.
    fn set_next(&mut self, node: usize, t: PtrTarget, Ghost(d): Ghost<Set<int>>)
        requires
            old(self).wf_except(d),
            d.contains(node as int),
            0 <= node < old(self).nodes@.len(),
            t.slot() <= MAX_SLOT,
        ensures
            final(self).wf_except(d),
            final(self).same_content(&*old(self)),
            final(self).link(node as int) == t,
            forall|f: int| 0 <= f < final(self).nodes@.len() && f != node ==> #[trigger] final(self).link(f) == old(self).link(f),
            final(self).levels@ == old(self).levels@,
            final(self).owners@ == old(self).owners@,
            final(self).prefixes@ == old(self).prefixes@,
            final(self).slots@ == old(self).slots@,
    {
        self.nodes[node].next.store(t);
        proof {
            assert forall|li: int, b: int|
                0 <= li < self.levels@.len() && 0 <= b < 8 implies #[trigger] self.bucket_ok(li, b, d) by {
                assert(old(self).bucket_ok(li, b, d));
            }
            assert forall|e: int| 0 <= e < self.nodes@.len() && !d.contains(e) implies #[trigger] self.node_ok(e) by {
                assert(old(self).node_ok(e));
                let li = self.owners@[e].0;
                let b = self.owners@[e].1;
                assert(old(self).bucket_ok(li, b, d));
            }
            assert forall|li: int| 0 <= li < self.levels@.len() implies #[trigger] self.level_ok(li) by {
                assert(old(self).level_ok(li));
            }
            assert forall|e: int| 0 <= e < self.nodes@.len() implies self.keys@.contains_key(#[trigger] self.key_at(e))
                && self.keys@[self.key_at(e)] == e by {
                assert(old(self).key_at(e) == self.key_at(e));
            }
        }
    }

    /// Makes a detached entry, whose next pointer already points at level
    /// `li`, the only entry of the empty bucket `b` of `li`.
    fn attach_to_bucket(&mut self, li: usize, b: usize, node: usize, Ghost(d): Ghost<Set<int>>)
        requires
            old(self).wf_except(d),
            d.contains(node as int),
            0 <= node < old(self).nodes@.len(),
            0 <= li < old(self).levels@.len(),
            0 <= b < 8,
            old(self).target(li as int, b as int) == PtrTarget::Level(li),
            old(self).link(node as int) == PtrTarget::Level(li),
            bucket_of(old(self).key_at(node as int), old(self).depth(li as int)) == b,
            low_bits(old(self).key_at(node as int), old(self).depth(li as int)) == old(self).prefixes@[li as int],
        ensures
            final(self).wf_except(d.remove(node as int)),
            final(self).same_content(&*old(self)),
            final(self).levels@.len() == old(self).levels@.len(),
            forall|l: int| 0 <= l < final(self).levels@.len() ==> #[trigger] final(self).depth(l) == old(self).depth(l),
            final(self).prefixes@ == old(self).prefixes@,
            final(self).target(li as int, b as int) == PtrTarget::Entry(node),
            forall|l: int, c: int| 0 <= l < final(self).levels@.len() && 0 <= c < 8 && (l, c) != (li as int, b as int) ==> #[trigger] final(self).target(l, c) == old(self).target(l, c),
            forall|f: int| #[trigger] final(self).link(f) == old(self).link(f),
    {
        let ghost prev = *self;
        proof {
            assert(prev.level_ok(li as int));
        }
        self.levels[li].entries[b].store(PtrTarget::Entry(node));
        proof {
            self.owners@ = self.owners@.update(node as int, (li as int, b as int));
            let dn = d.remove(node as int);
            assert forall|l: int| 0 <= l < self.levels@.len() implies #[trigger] self.level_ok(l) by {
                assert(prev.level_ok(l));
                if l > 0 && self.prev(l) == li && self.slots@[l] == b {
                    assert(prev.target(li as int, b as int) == PtrTarget::Level(l as usize));
                }
            }
            assert forall|l: int, c: int|
                0 <= l < self.levels@.len() && 0 <= c < 8 implies #[trigger] self.bucket_ok(l, c, dn) by {
                assert(prev.bucket_ok(l, c, d));
            }
            assert forall|e: int| 0 <= e < self.nodes@.len() && !dn.contains(e) implies #[trigger] self.node_ok(e) by {
                if e != node {
                    assert(prev.node_ok(e));
                    let l = prev.owners@[e].0;
                    let c = prev.owners@[e].1;
                    assert(prev.bucket_ok(l, c, d));
                }
            }
            assert forall|e: int| 0 <= e < self.nodes@.len() implies self.keys@.contains_key(#[trigger] self.key_at(e))
                && self.keys@[self.key_at(e)] == e by {
                assert(prev.key_at(e) == self.key_at(e));
            }
        }
    }

    /// Links a detached entry, whose next pointer already points at level
    /// `li`, behind `last`, the end of the chain of bucket `b` of `li`.
    fn attach_behind(&mut self, li: usize, b: usize, last: usize, node: usize, Ghost(d): Ghost<Set<int>>)
        requires
            old(self).wf_except(d),
            d.contains(node as int),
            0 <= node < old(self).nodes@.len(),
            0 <= li < old(self).levels@.len(),
            0 <= b < 8,
            old(self).target(li as int, b as int) == PtrTarget::Entry(last),
            old(self).link(last as int) == PtrTarget::Level(li),
            old(self).link(node as int) == PtrTarget::Level(li),
            bucket_of(old(self).key_at(node as int), old(self).depth(li as int)) == b,
            low_bits(old(self).key_at(node as int), old(self).depth(li as int)) == old(self).prefixes@[li as int],
        ensures
            final(self).wf_except(d.remove(node as int)),
            final(self).same_content(&*old(self)),
            final(self).levels@ == old(self).levels@,
            final(self).prefixes@ == old(self).prefixes@,
            final(self).link(last as int) == PtrTarget::Entry(node),
            forall|f: int| 0 <= f < final(self).nodes@.len() && f != last ==> #[trigger] final(self).link(f) == old(self).link(f),
    {
        let ghost prev = *self;
        proof {
            assert(prev.bucket_ok(li as int, b as int, d));
        }
        self.nodes[last].next.store(PtrTarget::Entry(node));
        proof {
            self.owners@ = self.owners@.update(node as int, (li as int, b as int));
            let dn = d.remove(node as int);
            assert forall|l: int| 0 <= l < self.levels@.len() implies #[trigger] self.level_ok(l) by {
                assert(prev.level_ok(l));
            }
            assert forall|l: int, c: int|
                0 <= l < self.levels@.len() && 0 <= c < 8 implies #[trigger] self.bucket_ok(l, c, dn) by {
                assert(prev.bucket_ok(l, c, d));
            }
            assert forall|e: int| 0 <= e < self.nodes@.len() && !dn.contains(e) implies #[trigger] self.node_ok(e) by {
                if e != node {
                    assert(prev.node_ok(e));
                    let l = prev.owners@[e].0;
                    let c = prev.owners@[e].1;
                    assert(prev.bucket_ok(l, c, d));
                }
            }
            assert forall|e: int| 0 <= e < self.nodes@.len() implies self.keys@.contains_key(#[trigger] self.key_at(e))
                && self.keys@[self.key_at(e)] == e by {
                assert(prev.key_at(e) == self.key_at(e));
            }
        }
    }

    /// Every bucket of level `n` is empty.
    spec fn all_empty(&self, n: int) -> bool {
        forall|c: int| 0 <= c < 8 ==> #[trigger] self.target(n, c) == PtrTarget::Level(n as usize)
    }

    /// Every bucket of level `n` is empty or holds a single entry.
    spec fn all_single(&self, n: int) -> bool {
        forall|c: int|
            0 <= c < 8 ==> #[trigger] self.target(n, c) == PtrTarget::Level(n as usize) || (self.target(n, c) matches PtrTarget::Entry(x)
                && self.link(x as int) == PtrTarget::Level(n as usize))
    }

    /// Creates the level below bucket `b` of level `li` and points the bucket
    /// at it; the two entries of the bucket's chain are detached.
    fn create_next(&mut self, li: usize, b: usize, Ghost(d): Ghost<Set<int>>, Ghost(first): Ghost<int>, Ghost(second): Ghost<int>) -> (n: usize)
        requires
            old(self).wf_except(d),
            0 <= li < old(self).levels@.len(),
            0 <= b < 8,
            0 <= first < old(self).nodes@.len(),
            0 <= second < old(self).nodes@.len(),
            old(self).target(li as int, b as int) == PtrTarget::Entry(first as usize),
            old(self).link(first) == PtrTarget::Entry(second as usize),
            old(self).depth(li as int) < MAX_DEPTH,
            old(self).levels@.len() < MAX_SLOT,
        ensures
            final(self).wf_except(d.insert(first).insert(second)),
            final(self).same_content(&*old(self)),
            n == old(self).levels@.len(),
            final(self).levels@.len() == n + 1,
            final(self).depth(n as int) == old(self).depth(li as int) + 1,
            final(self).prefixes@[n as int] == old(self).prefixes@[li as int] + b * pow2(3 * old(self).depth(li as int)),
            final(self).all_empty(n as int),
            forall|l: int| 0 <= l < old(self).levels@.len() ==> #[trigger] final(self).depth(l) == old(self).depth(l)
                && final(self).prefixes@[l] == old(self).prefixes@[l],
            forall|f: int| 0 <= f < final(self).nodes@.len() ==> #[trigger] final(self).link(f) == old(self).link(f),
            final(self).owners@ == old(self).owners@,
    {
        let ghost prev = *self;
        proof {
            assert(prev.level_ok(li as int));
            assert(prev.bucket_ok(li as int, b as int, d));
        }
        let n = self.levels.len();
        let depth = self.levels[li].level;
        let level = Level::new(depth + 1, KEY_SIZE, li, n);
        let ghost new_level = level;
        self.levels.push(level);
        proof {
            vstd::arithmetic::power2::lemma2_to64();
            self.prefixes@ = self.prefixes@.push((self.prefixes@[li as int] + b * pow2(3 * (depth as nat))) as nat);
            self.slots@ = self.slots@.push(b as int);
        }
        self.levels[li].entries[b].store(PtrTarget::Level(n));
        proof {
            let d2 = d.insert(first).insert(second);
            let p = pow2(3 * (depth as nat));
            lemma_low_bits_step(0, depth as nat);
            assert(self.prefixes@[li as int] + b * p < pow2(3 * (depth as nat + 1))) by (nonlinear_arith)
                requires
                    self.prefixes@[li as int] < p,
                    0 <= b < 8,
                    pow2(3 * (depth as nat + 1)) == p * 8,
            ;
            assert forall|l: int| 0 <= l < self.levels@.len() implies #[trigger] self.level_ok(l) by {
                if l < n {
                    assert(prev.level_ok(l));
                    if l > 0 && self.prev(l) == li && self.slots@[l] == b {
                        assert(prev.target(li as int, b as int) == PtrTarget::Level(l as usize));
                    }
                }
            }
            assert(self.levels@[n as int] == new_level);
            assert(prev.owners@[first] == (li as int, b as int));
            assert(prev.owners@[second] == (li as int, b as int));
            assert forall|l: int, c: int|
                0 <= l < self.levels@.len() && 0 <= c < 8 implies #[trigger] self.bucket_ok(l, c, d2) by {
                if l < n {
                    assert(prev.bucket_ok(l, c, d));
                    assert(prev.level_ok(l));
                } else {
                    assert(new_level.entries@[c].target() == PtrTarget::Level(n));
                }
            }
            assert forall|e: int| 0 <= e < self.nodes@.len() && !d2.contains(e) implies #[trigger] self.node_ok(e) by {
                assert(prev.node_ok(e));
                let l = prev.owners@[e].0;
                let c = prev.owners@[e].1;
                assert(prev.bucket_ok(l, c, d));
                if (l, c) == (li as int, b as int) {
                    assert(e == first || e == second);
                }
            }
            assert forall|c: int| 0 <= c < 8 implies #[trigger] self.target(n as int, c) == PtrTarget::Level(n) by {
                assert(new_level.entries@[c].target() == PtrTarget::Level(n));
            }
            assert forall|e: int| 0 <= e < self.nodes@.len() implies self.keys@.contains_key(#[trigger] self.key_at(e))
                && self.keys@[self.key_at(e)] == e by {
                assert(prev.key_at(e) == self.key_at(e));
            }
        }
        n
    }

    /// Links the chain bucket `b` of level `li` held to the entry at its
    /// end. Only a chain of one entry is met here: the entry joins it.
    fn adjust_node_on_chain(&mut self, n: usize, b: usize, node: usize, chain: usize, chain_pos: usize, Ghost(d): Ghost<Set<int>>)
        requires
            old(self).wf_except(d),
            d.contains(node as int),
            0 <= node < old(self).nodes@.len(),
            0 <= n < old(self).levels@.len(),
            0 <= b < 8,
            chain_pos == 1,
            old(self).target(n as int, b as int) == PtrTarget::Entry(chain),
            old(self).link(chain as int) == PtrTarget::Level(n),
            old(self).link(node as int) == PtrTarget::Level(n),
            bucket_of(old(self).key_at(node as int), old(self).depth(n as int)) == b,
            low_bits(old(self).key_at(node as int), old(self).depth(n as int)) == old(self).prefixes@[n as int],
        ensures
            final(self).wf_except(d.remove(node as int)),
            final(self).same_content(&*old(self)),
            final(self).levels@ == old(self).levels@,
            final(self).prefixes@ == old(self).prefixes@,
    {
        proof {
            assert(self.level_ok(n as int));
            assert(self.bucket_ok(n as int, b as int, d));
        }
        if let PtrTarget::Level(_) = self.nodes[chain].next.load() {
            if chain_pos < self.levels[n].max_chain() {
                self.attach_behind(n, b, chain, node, Ghost(d));
            }
        }
    }

    /// Places a detached entry whose key leads to level `n`, all of whose
    /// buckets are empty or hold one entry, on the bucket of its key.
    fn adjust_node_on_level(&mut self, n: usize, node: usize, Ghost(d): Ghost<Set<int>>)
        requires
            old(self).wf_except(d),
            d.contains(node as int),
            0 <= node < old(self).nodes@.len(),
            0 <= n < old(self).levels@.len(),
            low_bits(old(self).key_at(node as int), old(self).depth(n as int)) == old(self).prefixes@[n as int],
            old(self).all_single(n as int),
        ensures
            final(self).wf_except(d.remove(node as int)),
            final(self).same_content(&*old(self)),
            final(self).levels@.len() == old(self).levels@.len(),
            forall|l: int| 0 <= l < old(self).levels@.len() ==> #[trigger] final(self).depth(l) == old(self).depth(l),
            final(self).prefixes@ == old(self).prefixes@,
            old(self).all_empty(n as int) ==> final(self).all_single(n as int),
    {
        let ghost prev = *self;
        proof {
            assert(self.level_ok(n as int));
        }
        self.set_next(node, PtrTarget::Level(n), Ghost(d));
        let key = self.nodes[node].key;
        let b = Level::index(key, self.levels[n].level, self.levels[n].key_size);
        proof {
            lemma_low_bits_step(key, self.depth(n as int));
            assert forall|c: int| 0 <= c < 8 implies #[trigger] self.target(n as int, c) == PtrTarget::Level(n) || (self.target(n as int, c) matches PtrTarget::Entry(x)
                && self.link(x as int) == PtrTarget::Level(n)) by {
                assert(prev.target(n as int, c) == self.target(n as int, c));
                assert(prev.bucket_ok(n as int, c, d));
            }
        }
        match self.levels[n].entries[b].load() {
            PtrTarget::Level(_) => {
                self.attach_to_bucket(n, b, node, Ghost(d));
                proof {
                    if prev.all_empty(n as int) {
                        assert forall|c: int| 0 <= c < 8 implies #[trigger] self.target(n as int, c) == PtrTarget::Level(n) || (self.target(n as int, c) matches PtrTarget::Entry(x)
                            && self.link(x as int) == PtrTarget::Level(n)) by {
                            assert(prev.target(n as int, c) == PtrTarget::Level(n));
                        }
                    }
                }
            },
            PtrTarget::Entry(first) => {
                proof {
                    assert(prev.target(n as int, b as int) == self.target(n as int, b as int));
                    assert(self.bucket_ok(n as int, b as int, d));
                }
                self.adjust_node_on_chain(n, b, node, first, 1, Ghost(d));
            },
        }
    }

    /// Places the detached chain that starts at `node` (one or two entries)
    /// on level `n`, the last entry first.
    fn adjust_chain_nodes(&mut self, n: usize, node: usize, Ghost(d): Ghost<Set<int>>)
        requires
            old(self).wf_except(d),
            d.contains(node as int),
            0 <= node < old(self).nodes@.len(),
            0 <= n < old(self).levels@.len(),
            low_bits(old(self).key_at(node as int), old(self).depth(n as int)) == old(self).prefixes@[n as int],
            match old(self).link(node as int) {
                PtrTarget::Entry(f) => {
                    &&& d.contains(f as int)
                    &&& f != node
                    &&& 0 <= f < old(self).nodes@.len()
                    &&& low_bits(old(self).key_at(f as int), old(self).depth(n as int)) == old(self).prefixes@[n as int]
                    &&& old(self).link(f as int) is Level
                    &&& old(self).all_empty(n as int)
                },
                PtrTarget::Level(_) => old(self).all_single(n as int),
            },
        ensures
            final(self).wf_except(
                match old(self).link(node as int) {
                    PtrTarget::Entry(f) => d.remove(node as int).remove(f as int),
                    PtrTarget::Level(_) => d.remove(node as int),
                },
            ),
            final(self).same_content(&*old(self)),
            final(self).levels@.len() == old(self).levels@.len(),
            forall|l: int| 0 <= l < old(self).levels@.len() ==> #[trigger] final(self).depth(l) == old(self).depth(l),
            final(self).prefixes@ == old(self).prefixes@,
            (old(self).link(node as int) is Level && old(self).all_empty(n as int)) ==> final(self).all_single(n as int),
        decreases
                (if old(self).link(node as int) is Entry { 1int } else { 0int }),
    {
        if let PtrTarget::Entry(next) = self.nodes[node].next.load() {
            self.adjust_chain_nodes(n, next, Ghost(d));
            self.adjust_node_on_level(n, node, Ghost(d.remove(next as int)));
            proof {
                assert(d.remove(next as int).remove(node as int) =~= d.remove(node as int).remove(next as int));
            }
        } else {
            self.adjust_node_on_level(n, node, Ghost(d));
        }
    }

    /// Creates the level below bucket `b` of level `li`, whose chain runs
    /// from `first` to `last`, and moves the chain's entries onto it.
    fn move_buckets_to_new_level(&mut self, li: usize, b: usize, first: usize, last: usize, Ghost(d): Ghost<Set<int>>) -> (n: usize)
        requires
            old(self).wf_except(d),
            0 <= li < old(self).levels@.len(),
            0 <= b < 8,
            old(self).target(li as int, b as int) == PtrTarget::Entry(first),
            old(self).link(first as int) == PtrTarget::Entry(last),
            old(self).depth(li as int) < MAX_DEPTH,
            old(self).levels@.len() < MAX_SLOT,
        ensures
            final(self).wf_except(d),
            final(self).same_content(&*old(self)),
            n == old(self).levels@.len(),
            final(self).levels@.len() == n + 1,
            final(self).depth(n as int) == old(self).depth(li as int) + 1,
            final(self).prefixes@[n as int] == old(self).prefixes@[li as int] + b * pow2(3 * old(self).depth(li as int)),
    {
        let ghost prev = *self;
        proof {
            assert(prev.bucket_ok(li as int, b as int, d));
            assert(prev.node_ok(first as int));
            assert(prev.node_ok(last as int));
            lemma_low_bits_step(prev.key_at(first as int), prev.depth(li as int));
            lemma_low_bits_step(prev.key_at(last as int), prev.depth(li as int));
        }
        let n = self.create_next(li, b, Ghost(d), Ghost(first as int), Ghost(last as int));
        let ghost d2 = d.insert(first as int).insert(last as int);
        let ghost s1 = *self;
        self.set_next(last, PtrTarget::Level(n), Ghost(d2));
        let ghost s2 = *self;
        proof {
            assert forall|c: int| 0 <= c < 8 implies #[trigger] s2.target(n as int, c) == PtrTarget::Level(n) by {
                assert(s1.target(n as int, c) == PtrTarget::Level(n));
            }
            assert(s2.link(first as int) == s1.link(first as int));
            assert(s2.key_at(first as int) == prev.key_at(first as int));
            assert(s2.key_at(last as int) == prev.key_at(last as int));
        }
        self.adjust_chain_nodes(n, first, Ghost(d2));
        proof {
            assert(d2.remove(first as int).remove(last as int) =~= d);
            assert(s1.depth(n as int) == s2.depth(n as int));
            Self::lemma_same_content_trans(&s2, &s1, &prev);
            Self::lemma_same_content_trans(&*self, &s2, &prev);
        }
        n
    }

    /// Adds the detached entry `e`, whose key leads to level `li` and falls
    /// in bucket `b`, to the chain that starts at `first`. A chain shorter
    /// than `max_chain` takes it at its end; a full chain moves to a new
    /// level below, which is returned for the entry to continue there.
    fn insert_chain(&mut self, first: usize, e: usize, li: usize, b: usize) -> (r: Option<usize>)
        requires
            old(self).wf_except(Set::empty().insert(e as int)),
            0 <= e < old(self).nodes@.len(),
            0 <= li < old(self).levels@.len(),
            0 <= b < 8,
            old(self).target(li as int, b as int) == PtrTarget::Entry(first),
            bucket_of(old(self).key_at(e as int), old(self).depth(li as int)) == b,
            low_bits(old(self).key_at(e as int), old(self).depth(li as int)) == old(self).prefixes@[li as int],
            old(self).levels@.len() < MAX_SLOT,
        ensures
            final(self).same_content(&*old(self)),
            r is None ==> final(self).wf() && final(self).levels@.len() == old(self).levels@.len(),
            r matches Some(n) ==> {
                &&& final(self).wf_except(Set::empty().insert(e as int))
                &&& 0 <= n < final(self).levels@.len()
                &&& final(self).depth(n as int) == old(self).depth(li as int) + 1
                &&& low_bits(final(self).key_at(e as int), final(self).depth(n as int)) == final(self).prefixes@[n as int]
                &&& final(self).levels@.len() == old(self).levels@.len() + 1
            },
    {
        let ghost d = Set::<int>::empty().insert(e as int);
        proof {
            assert(self.bucket_ok(li as int, b as int, d));
            assert(self.level_ok(li as int));
        }
        let mut current = first;
        let mut pos: usize = 1;
        loop
            invariant
                self.wf_except(d),
                *self == *old(self),
                d == Set::<int>::empty().insert(e as int),
                0 <= e < self.nodes@.len(),
                0 <= li < self.levels@.len(),
                0 <= b < 8,
                self.level_ok(li as int),
                self.target(li as int, b as int) == PtrTarget::Entry(first),
                bucket_of(self.key_at(e as int), self.depth(li as int)) == b,
                low_bits(self.key_at(e as int), self.depth(li as int)) == self.prefixes@[li as int],
                self.levels@.len() < MAX_SLOT,
                self.bucket_ok(li as int, b as int, d),
                0 <= current < self.nodes@.len(),
                pos == 1 ==> current == first,
                pos == 2 ==> self.link(first as int) == PtrTarget::Entry(current),
                1 <= pos <= 2,
            decreases 2 - pos,
        {
            match self.nodes[current].next.load() {
                PtrTarget::Level(_) => {
                    if pos >= self.levels[li].max_chain() {
                        let ghost prev = *self;
                        proof {
                            let d0 = prev.depth(li as int);
                            let k = prev.key_at(e as int);
                            let ka = prev.key_at(first as int);
                            let kb = prev.key_at(current as int);
                            assert(prev.node_ok(first as int));
                            assert(prev.node_ok(current as int));
                            lemma_low_bits_step(k, d0);
                            lemma_low_bits_step(ka, d0);
                            lemma_low_bits_step(kb, d0);
                            if d0 == MAX_DEPTH {
                                lemma_three_keys(k, ka, kb);
                                assert(prev.keys@[prev.key_at(first as int)] == first);
                                assert(prev.keys@[prev.key_at(current as int)] == current);
                                assert(prev.keys@[prev.key_at(e as int)] == e);
                            }
                        }
                        let n = self.move_buckets_to_new_level(li, b, first, current, Ghost(d));
                        proof {
                            lemma_low_bits_step(prev.key_at(e as int), prev.depth(li as int));
                            assert(self.key_at(e as int) == prev.key_at(e as int));
                        }
                        return Some(n);
                    } else {
                        let ghost s0 = *self;
                        self.set_next(e, PtrTarget::Level(li), Ghost(d));
                        let ghost s1 = *self;
                        self.attach_behind(li, b, current, e, Ghost(d));
                        proof {
                            assert(d.remove(e as int) =~= Set::empty());
                            Self::lemma_same_content_trans(&*self, &s1, &s0);
                        }
                        return None;
                    }
                },
                PtrTarget::Entry(next) => {
                    current = next;
                    pos = pos + 1;
                },
            }
        }
    }

    /// Adds the detached entry `e`, whose key leads to level `li`: down the
    /// levels its key leads to, into the first empty bucket or chain met.
    fn insert_level(&mut self, li: usize, e: usize)
        requires
            old(self).wf_except(Set::empty().insert(e as int)),
            0 <= e < old(self).nodes@.len(),
            0 <= li < old(self).levels@.len(),
            low_bits(old(self).key_at(e as int), old(self).depth(li as int)) == old(self).prefixes@[li as int],
            old(self).levels@.len() + (MAX_DEPTH - old(self).depth(li as int)) < MAX_SLOT,
        ensures
            final(self).wf(),
            final(self).same_content(&*old(self)),
            final(self).levels@.len() <= old(self).levels@.len() + (MAX_DEPTH - old(self).depth(li as int)),
    {
        let ghost d = Set::<int>::empty().insert(e as int);
        let ghost bound = old(self).levels@.len() + (MAX_DEPTH - old(self).depth(li as int));
        let key = self.nodes[e].key;
        let mut cur = li;
        loop
            invariant
                self.wf_except(d),
                d == Set::<int>::empty().insert(e as int),
                self.same_content(&*old(self)),
                0 <= e < self.nodes@.len(),
                key == self.key_at(e as int),
                0 <= cur < self.levels@.len(),
                low_bits(key, self.depth(cur as int)) == self.prefixes@[cur as int],
                self.levels@.len() + (MAX_DEPTH - self.depth(cur as int)) <= bound,
                bound == old(self).levels@.len() + (MAX_DEPTH - old(self).depth(li as int)),
                bound < MAX_SLOT,
            decreases MAX_DEPTH - self.depth(cur as int),
        {
            proof {
                assert(self.level_ok(cur as int));
                lemma_low_bits_step(key, self.depth(cur as int));
            }
            let b = Level::index(key, self.levels[cur].level, self.levels[cur].key_size);
            proof {
                assert(self.bucket_ok(cur as int, b as int, d));
            }
            match self.levels[cur].entries[b].load() {
                PtrTarget::Level(x) => {
                    if self.levels[x].level == self.levels[cur].level {
                        proof {
                            assert(x == cur) by {
                                if x != cur {
                                    assert(self.level_ok(x as int));
                                }
                            }
                        }
                        let ghost s0 = *self;
                        self.set_next(e, PtrTarget::Level(cur), Ghost(d));
                        let ghost s1 = *self;
                        self.attach_to_bucket(cur, b, e, Ghost(d));
                        proof {
                            assert(d.remove(e as int) =~= Set::empty());
                            Self::lemma_same_content_trans(&s1, &s0, &*old(self));
                            Self::lemma_same_content_trans(&*self, &s1, &*old(self));
                            assert(s0.depth(cur as int) <= MAX_DEPTH);
                        }
                        return;
                    }
                    proof {
                        assert(self.level_ok(x as int));
                    }
                    cur = x;
                },
                PtrTarget::Entry(first) => {
                    let ghost s0 = *self;
                    let r = self.insert_chain(first, e, cur, b);
                    proof {
                        Self::lemma_same_content_trans(&*self, &s0, &*old(self));
                    }
                    match r {
                        None => {
                            proof {
                                assert(s0.depth(cur as int) <= MAX_DEPTH);
                            }
                            return;
                        },
                        Some(n) => {
                            proof {
                                assert(self.level_ok(n as int));
                            }
                            cur = n;
                        },
                    }
                },
            }
        }
    }

    /// An empty trie.
    pub fn new() -> (r: Self)
        ensures
            r.wf(),
            r@ == Map::<u64, T>::empty(),
            r.room_left() >= 100_000_000,
    {
        let mut levels: Vec<Level> = Vec::new();
        levels.push(Level::new(0, KEY_SIZE, 0, 0));
        let ghost prefixes = seq![0nat];
        let ghost slots = seq![0int];
        let r = Trie {
            levels,
            nodes: Vec::new(),
            prefixes: Ghost(prefixes),
            slots: Ghost(slots),
            owners: Ghost(Seq::empty()),
            keys: Ghost(Map::empty()),
        };
        proof {
            vstd::arithmetic::power2::lemma2_to64();
            assert(r.level_ok(0));
            assert forall|li: int, b: int| 0 <= li < r.levels@.len() && 0 <= b < 8 implies #[trigger] r.bucket_ok(li, b, Set::empty()) by {
                assert(r.levels@[0].entries@[b].target() == PtrTarget::Level(0));
            }
            assert(r@ =~= Map::<u64, T>::empty());
        }
        r
    }

    /// Searches the chain that starts at entry `first` of bucket `b` of level
    /// `li` for `id`.
    fn get_chain(&self, first: usize, id: u64, li: usize, Ghost(b): Ghost<int>) -> (r: Option<&T>)
        requires
            self.wf(),
            0 <= li < self.levels@.len(),
            0 <= b < 8,
            self.target(li as int, b) == PtrTarget::Entry(first),
            self.keys@.contains_key(id) ==> self.in_chain(li as int, b, self.keys@[id]),
        ensures
            match r {
                Some(v) => self@.contains_key(id) && *v == self@[id],
                None => !self@.contains_key(id),
            },
    {
        proof {
            assert(self.bucket_ok(li as int, b, Set::empty()));
        }
        let mut current = first;
        let ghost mut pos: int = 0;
        loop
            invariant
                self.wf(),
                0 <= li < self.levels@.len(),
                0 <= b < 8,
                self.bucket_ok(li as int, b, Set::empty()),
                self.target(li as int, b) == PtrTarget::Entry(first),
                self.keys@.contains_key(id) ==> self.in_chain(li as int, b, self.keys@[id]),
                pos == 0 ==> current == first,
                pos == 1 ==> self.link(first as int) == PtrTarget::Entry(current) && self.key_at(first as int) != id,
                0 <= pos <= 1,
            decreases 1 - pos,
        {
            let entry = &self.nodes[current];
            if entry.key() == id {
                proof {
                    assert(self.key_at(current as int) == id);
                }
                return Some(entry.data());
            }
            match entry.next.load() {
                PtrTarget::Entry(next) => {
                    proof {
                        assert(pos == 0);
                        pos = 1;
                    }
                    current = next;
                },
                PtrTarget::Level(_) => {
                    return None;
                },
            }
        }
    }
}

impl<T> Default for Trie<T> {
    fn default() -> (r: Self)
        ensures
            r.wf(),
            r@ == Map::<u64, T>::empty(),
            r.room_left() >= 100_000_000,
    {
        Self::new()
    }
}

impl<T> StorageBackend<T> for Trie<T> {
    open spec fn contents(&self) -> Map<u64, T> {
        self@
    }

    open spec fn well_formed(&self) -> bool {
        self.wf()
    }

    open spec fn room(&self) -> nat {
        self.room_left()
    }

    open spec fn takes_repeats(&self) -> bool {
        false
    }

    fn has_room(&self) -> (b: bool) {
        self.nodes.len() + 1 < MAX_SLOT && self.levels.len() + (MAX_DEPTH + 2) <= MAX_SLOT
    }

    /// Adds `data` for `id`, which the trie does not hold yet, and returns
    /// the data as stored.
    fn insert(&mut self, id: u64, data: T) -> (r: &T)
    {
        let ghost prev = *self;
        let e = self.nodes.len();
        let entry = Entry::new(id, data, CustomPtr::new_level(0));
        self.nodes.push(entry);
        proof {
            self.owners@ = self.owners@.push((0int, 0int));
            self.keys@ = self.keys@.insert(id, e as int);
            let d = Set::<int>::empty().insert(e as int);
            assert forall|l: int| 0 <= l < self.levels@.len() implies #[trigger] self.level_ok(l) by {
                assert(prev.level_ok(l));
            }
            assert forall|l: int, c: int|
                0 <= l < self.levels@.len() && 0 <= c < 8 implies #[trigger] self.bucket_ok(l, c, d) by {
                assert(prev.bucket_ok(l, c, Set::empty()));
            }
            assert forall|x: int| 0 <= x < self.nodes@.len() && !d.contains(x) implies #[trigger] self.node_ok(x) by {
                assert(prev.node_ok(x));
                let l = prev.owners@[x].0;
                let c = prev.owners@[x].1;
                assert(prev.bucket_ok(l, c, Set::empty()));
            }
            assert forall|x: int| 0 <= x < self.nodes@.len() implies self.keys@.contains_key(#[trigger] self.key_at(x))
                && self.keys@[self.key_at(x)] == x by {
                if x < e {
                    assert(prev.key_at(x) == self.key_at(x));
                }
            }
            assert forall|k: u64| #[trigger] self.keys@.contains_key(k) implies 0 <= self.keys@[k] < self.nodes@.len()
                && self.key_at(self.keys@[k]) == k by {
                if k != id {
                    assert(prev.keys@.contains_key(k));
                }
            }
            assert(self.level_ok(0));
            vstd::arithmetic::power2::lemma2_to64();
            assert(low_bits(id, 0) == 0);
            assert(self.key_at(e as int) == id);
        }
        let ghost mid = *self;
        proof {
            assert(mid.depth(0) == 0);
        }
        self.insert_level(0, e);
        proof {
            let lb = MAX_SLOT - 1 - prev.levels@.len();
            let la = MAX_SLOT - 1 - self.levels@.len();
            assert(la >= lb - MAX_DEPTH);
            assert(la / 21 >= lb / 21 - 1) by (nonlinear_arith)
                requires
                    la >= lb - 20,
                    lb >= 21,
            ;
            assert(self.room_left() + 1 >= prev.room_left());
            assert(self.nodes@[e as int].data == mid.nodes@[e as int].data);
            assert(self@ =~= prev@.insert(id, data)) by {
                assert forall|k: u64| #[trigger] self@.contains_key(k) implies self@[k] == prev@.insert(id, data)[k] by {
                    if k != id {
                        let x = prev.keys@[k];
                        assert(mid.nodes@[x] == prev.nodes@[x]);
                        assert(self.nodes@[x].data == mid.nodes@[x].data);
                    }
                }
            }
        }
        &self.nodes[e].data
    }

    /// The data held for `id`, if any: the first level is searched first,
    /// then the chain or the deeper level its bucket points at.
    fn get(&self, id: u64) -> (r: Option<&T>)
    {
        let ghost d = Set::<int>::empty();
        let mut li: usize = 0;
        proof {
            vstd::arithmetic::power2::lemma2_to64();
            assert(self.level_ok(0));
            assert forall|e: int| 0 <= e < self.nodes@.len() && self.key_at(e) == id implies self.is_anc(0, #[trigger] self.owners@[e].0) by {
                assert(self.node_ok(e));
                self.lemma_root_is_anc(Set::empty(), self.owners@[e].0);
            }
        }
        loop
            invariant
                self.wf(),
                d == Set::<int>::empty(),
                0 <= li < self.levels@.len(),
                low_bits(id, self.depth(li as int)) == self.prefixes@[li as int],
                forall|e: int| 0 <= e < self.nodes@.len() && self.key_at(e) == id ==> self.is_anc(li as int, #[trigger] self.owners@[e].0),
            decreases self.levels@.len() - li,
        {
            let level = &self.levels[li];
            proof {
                assert(self.level_ok(li as int));
            }
            let b = Level::index(id, level.level, level.key_size);
            proof {
                lemma_low_bits_step(id, self.depth(li as int));
                assert(b == bucket_of(id, self.depth(li as int)));
                assert(self.bucket_ok(li as int, b as int, d));
            }
            match level.entries[b].load() {
                PtrTarget::Level(x) => {
                    if self.levels[x].level == level.level {
                        proof {
                            assert(x == li) by {
                                if x != li {
                                    assert(self.level_ok(x as int));
                                }
                            }
                            if self.keys@.contains_key(id) {
                                let e = self.keys@[id];
                                assert(self.key_at(e) == id);
                                assert(self.is_anc(li as int, self.owners@[e].0));
                                self.lemma_descend(d, id, li as int, e);
                                assert(self.node_ok(e));
                                assert(false);
                            }
                            assert(!self@.contains_key(id));
                        }
                        return None;
                    }
                    proof {
                        assert(self.level_ok(x as int));
                        lemma_low_bits_step(id, self.depth(li as int));
                        assert forall|e: int| 0 <= e < self.nodes@.len() && self.key_at(e) == id implies self.is_anc(x as int, #[trigger] self.owners@[e].0) by {
                            assert(self.is_anc(li as int, self.owners@[e].0));
                            self.lemma_descend(d, id, li as int, e);
                            assert(self.node_ok(e));
                        }
                    }
                    li = x;
                },
                PtrTarget::Entry(first) => {
                    proof {
                        if self.keys@.contains_key(id) {
                            let e = self.keys@[id];
                            self.lemma_descend(d, id, li as int, e);
                        }
                    }
                    return self.get_chain(first, id, li, Ghost(b as int));
                },
            }
        }
    }
}


} // verus!
