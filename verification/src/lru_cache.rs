use vstd::prelude::*;
use vstd::laws_cmp::obeys_cmp;
use vstd::std_specs::hash::obeys_key_model;
use std::collections::{BTreeMap, HashMap};
use std::hash::Hash;
use crate::order::{clone_is_exact, lemma_clone};

verus! {

/// `BTreeMap::first_key_value`, of which the key is kept: the least key of the map,
/// `None` where the map is empty.
#[verifier::external_body]
fn least_stamp<K>(stamps: &BTreeMap<usize, K>) -> (least: Option<usize>)
    ensures
        match least {
            Some(t) => stamps@.contains_key(t) && forall|u: usize|
                stamps@.contains_key(u) ==> t <= u,
            None => forall|u: usize| !stamps@.contains_key(u),
        },
{
    match stamps.first_key_value() {
        Some((t, _)) => Some(*t),
        None => None,
    }
}

/// What a key type must offer: hashing and ordering that the standard maps can rely
/// on, and exact clones.
pub open spec fn keyed<K: Clone + Hash + Ord>() -> bool {
    &&& obeys_key_model::<K>()
    &&& obeys_cmp::<K>()
    &&& clone_is_exact::<K>()
}

/// A cache of bounded size that, when full, gives up the entry that has gone unused
/// for the longest time.
#[derive(Debug)]
pub struct LRUCache<K, V> {
    data: HashMap<K, V>,
    cap: usize,
    len: usize,
    key_to_used: BTreeMap<K, usize>,
    keys_priory: BTreeMap<usize, K>,
    timer: usize,
}

/// `queue` holds, for each stamp in use, the key that carries it; every stamp lies
/// before `now`.
pub open spec fn stamps_agree<K>(stamps: Map<K, usize>, queue: Map<usize, K>, now: usize) -> bool {
    &&& forall|k: K| #[trigger]
        stamps.contains_key(k) ==> {
            &&& stamps[k] < now
            &&& queue.contains_key(stamps[k])
            &&& queue[stamps[k]] == k
        }
    &&& forall|t: usize| #[trigger]
        queue.contains_key(t) ==> {
            &&& stamps.contains_key(queue[t])
            &&& stamps[queue[t]] == t
        }
}

/// Stamping `key` with `now`, and giving up the stamp it had, keeps the books.
proof fn lemma_stamped<K>(
    stamps: Map<K, usize>,
    queue: Map<usize, K>,
    now: usize,
    key: K,
    stamps2: Map<K, usize>,
    queue2: Map<usize, K>,
)
    requires
        stamps_agree(stamps, queue, now),
        now < usize::MAX,
        stamps2 == stamps.insert(key, now),
        queue2 == if stamps.contains_key(key) {
            queue.remove(stamps[key]).insert(now, key)
        } else {
            queue.insert(now, key)
        },
    ensures
        stamps_agree(stamps2, queue2, (now + 1) as usize),
{
    assert forall|k: K| #[trigger] stamps2.contains_key(k) implies stamps2[k] < now + 1
        && queue2.contains_key(stamps2[k]) && queue2[stamps2[k]] == k by {
        if k != key {
            assert(stamps.contains_key(k));
            if stamps.contains_key(key) {
                assert(queue[stamps[key]] == key);
            }
        }
    }
    assert forall|t: usize| #[trigger] queue2.contains_key(t) implies stamps2.contains_key(queue2[t])
        && stamps2[queue2[t]] == t by {
        if t != now {
            assert(queue.contains_key(t));
            assert(stamps[queue[t]] == t);
        }
    }
}

/// Dropping a key together with its stamp keeps the books.
proof fn lemma_dropped<K>(
    stamps: Map<K, usize>,
    queue: Map<usize, K>,
    now: usize,
    key: K,
    stamps2: Map<K, usize>,
    queue2: Map<usize, K>,
)
    requires
        stamps_agree(stamps, queue, now),
        stamps.contains_key(key),
        stamps2 == stamps.remove(key),
        queue2 == queue.remove(stamps[key]),
    ensures
        stamps_agree(stamps2, queue2, now),
{
    assert forall|k: K| #[trigger] stamps2.contains_key(k) implies stamps2[k] < now
        && queue2.contains_key(stamps2[k]) && queue2[stamps2[k]] == k by {
        assert(stamps.contains_key(k));
        assert(queue[stamps[key]] == key);
    }
    assert forall|t: usize| #[trigger] queue2.contains_key(t) implies stamps2.contains_key(queue2[t])
        && stamps2[queue2[t]] == t by {
        assert(queue.contains_key(t));
        assert(stamps[queue[t]] == t);
    }
}

impl<K: Clone + Hash + Ord, V> View for LRUCache<K, V> {
    type V = Map<K, V>;

    /// The cached entries.
    closed spec fn view(&self) -> Map<K, V> {
        self.data@
    }
}

impl<K: Clone + Hash + Ord, V> LRUCache<K, V> {
    /// For each cached key, the reading of the clock when it was last used.
    pub closed spec fn stamps(self) -> Map<K, usize> {
        self.key_to_used@
    }

    /// The number of uses so far.
    pub closed spec fn clock(self) -> usize {
        self.timer
    }

    /// The most entries that the cache holds.
    pub closed spec fn capacity(self) -> usize {
        self.cap
    }

    /// `k` is the cached key that has gone unused for the longest time.
    pub open spec fn oldest(self, k: K) -> bool {
        &&& self.stamps().contains_key(k)
        &&& forall|j: K| #[trigger] self.stamps().contains_key(j) ==> self.stamps()[k] <= self.stamps()[j]
    }

    /// The books agree: every cached key has one stamp, no two keys share a stamp, all
    /// stamps lie in the past, and the cache is not over its capacity.
    pub closed spec fn well_formed(self) -> bool {
        &&& self.cap > 0
        &&& self.len == self.data@.len()
        &&& self.len <= self.cap
        &&& self.data@.dom() == self.key_to_used@.dom()
        &&& stamps_agree(self.key_to_used@, self.keys_priory@, self.timer)
    }

    /// What `well_formed` means for the view: stamps belong to the cached keys, differ
    /// from key to key, and the size is within the capacity.
    pub proof fn lemma_well_formed(self)
        requires
            self.well_formed(),
        ensures
            self.capacity() > 0,
            self@.dom().finite() ==> self@.len() <= self.capacity(),
            self.stamps().dom() == self@.dom(),
            forall|k: K| #[trigger] self.stamps().contains_key(k) ==> self.stamps()[k] < self.clock(),
            forall|j: K, k: K|
                self.stamps().contains_key(j) && self.stamps().contains_key(k) && j != k
                    ==> #[trigger] self.stamps()[j] != #[trigger] self.stamps()[k],
    {
        assert forall|j: K, k: K|
            self.stamps().contains_key(j) && self.stamps().contains_key(k) && j
                != k implies #[trigger] self.stamps()[j] != #[trigger] self.stamps()[k] by {
            assert(self.keys_priory@[self.stamps()[j]] == j);
            assert(self.keys_priory@[self.stamps()[k]] == k);
        }
    }

    /// An empty cache for at most `capacity` entries.
    pub fn new(capacity: usize) -> (cache: Self)
        requires
            capacity > 0,
        ensures
            cache.well_formed(),
            cache@ == Map::<K, V>::empty(),
            cache.capacity() == capacity,
            cache.clock() == 0,
    {
        Self {
            data: HashMap::new(),
            cap: capacity,
            len: 0,
            timer: 0,
            key_to_used: BTreeMap::new(),
            keys_priory: BTreeMap::new(),
        }
    }

    /// The value cached under `key`; the lookup counts as a use of the key.
    pub fn get(&mut self, key: &K) -> (found: Option<&V>)
        requires
            keyed::<K>(),
            old(self).well_formed(),
            old(self).clock() < usize::MAX,
        ensures
            final(self).well_formed(),
            final(self)@ == old(self)@,
            final(self).capacity() == old(self).capacity(),
            found == if old(self)@.contains_key(*key) {
                Some(&old(self)@[*key])
            } else {
                None
            },
            old(self)@.contains_key(*key) ==> final(self).stamps() == old(self).stamps().insert(
                *key,
                old(self).clock(),
            ) && final(self).clock() == old(self).clock() + 1,
            !old(self)@.contains_key(*key) ==> final(self).stamps() == old(self).stamps()
                && final(self).clock() == old(self).clock(),
    {
        broadcast use vstd::laws_cmp::group_laws_cmp;

        let ghost stamps = self.key_to_used@;
        let ghost queue = self.keys_priory@;
        let ghost now = self.timer;
        if let Some(v) = self.data.get(key) {
            let k1 = key.clone();
            let k2 = key.clone();
            proof {
                lemma_clone(*key, k1);
                lemma_clone(*key, k2);
                assert(stamps.contains_key(*key));
            }
            let time = self.key_to_used.insert(k1, self.timer).unwrap();
            self.keys_priory.remove(&time);
            self.keys_priory.insert(self.timer, k2);
            self.timer += 1;
            proof {
                lemma_stamped(stamps, queue, now, *key, self.key_to_used@, self.keys_priory@);
                assert(self.key_to_used@.dom() =~= stamps.dom());
            }
            return Some(v);
        }
        None
    }

    /// Caches `value` under `key` and counts that as a use of the key. A key that is
    /// already cached has its value replaced, and the old value is returned. A new key,
    /// where the cache is full, first drives out the key unused for the longest time.
    pub fn insert(&mut self, key: K, value: V) -> (prev: Option<V>)
        requires
            keyed::<K>(),
            old(self).well_formed(),
            old(self).clock() < usize::MAX,
        ensures
            final(self).well_formed(),
            final(self).capacity() == old(self).capacity(),
            final(self).clock() == old(self).clock() + 1,
            prev == if old(self)@.contains_key(key) {
                Some(old(self)@[key])
            } else {
                None
            },
            old(self)@.contains_key(key) || old(self)@.len() < old(self).capacity() ==> final(self)@
                == old(self)@.insert(key, value) && final(self).stamps() == old(
                self,
            ).stamps().insert(key, old(self).clock()),
            !old(self)@.contains_key(key) && old(self)@.len() >= old(self).capacity()
                ==> exists|victim: K|
                {
                    &&& #[trigger] old(self).oldest(victim)
                    &&& final(self)@ == old(self)@.remove(victim).insert(key, value)
                    &&& final(self).stamps() == old(self).stamps().remove(victim).insert(
                        key,
                        old(self).clock(),
                    )
                },
    {
        broadcast use vstd::laws_cmp::group_laws_cmp;

        let ghost cached = self.data@;
        let ghost stamps = self.key_to_used@;
        let ghost queue = self.keys_priory@;
        let ghost now = self.timer;
        let mut res = None;
        let k1 = key.clone();
        let k2 = key.clone();
        proof {
            lemma_clone(key, k1);
            lemma_clone(key, k2);
        }
        if self.data.contains_key(&key) {
            res = self.data.insert(k1, value);
            proof {
                assert(cached.insert(key, value).dom() =~= cached.dom());
            }
        } else {
            if self.len == self.cap {
                proof {
                    let some = cached.dom().choose();
                    assert(cached.dom().contains(some));
                    assert(stamps.contains_key(some));
                }
                let t = least_stamp(&self.keys_priory).unwrap();
                let k = self.keys_priory.remove(&t).unwrap();
                self.data.remove(&k);
                self.key_to_used.remove(&k);
                self.len -= 1;
                proof {
                    assert(stamps.contains_key(k) && stamps[k] == t);
                    assert forall|j: K| #[trigger] stamps.contains_key(j) implies stamps[k]
                        <= stamps[j] by {
                        assert(queue.contains_key(stamps[j]));
                    }
                    assert(old(self).oldest(k));
                    assert(self.data@.dom() =~= self.key_to_used@.dom());
                    lemma_dropped(stamps, queue, now, k, self.key_to_used@, self.keys_priory@);
                }
            }
            proof {
                assert(!self.data@.contains_key(key));
            }
            self.data.insert(k1, value);
            self.len += 1;
        }
        let ghost stamps2 = self.key_to_used@;
        let ghost queue2 = self.keys_priory@;

        if let Some(t) = self.key_to_used.insert(k2, self.timer) {
            self.keys_priory.remove(&t);
        }
        self.keys_priory.insert(self.timer, key);
        self.timer += 1;
        proof {
            lemma_stamped(stamps2, queue2, now, key, self.key_to_used@, self.keys_priory@);
            assert(self.data@.dom() =~= self.key_to_used@.dom());
        }
        res
    }
}

} // verus!
