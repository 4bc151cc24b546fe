//! The storage engine: the key space, with optional expiry evicted lazily on read.
use vstd::prelude::*;

verus! {

/// Nanoseconds in one second.
pub const NANOS_PER_SEC: u128 = 1_000_000_000;

/// What a key holds.
pub enum Value {
    StringValue(String),
}

/// One entry of the key space: its key, its value and when it expires, in
/// nanoseconds since the Unix epoch.
struct Item {
    key: String,
    value: Value,
    expires_at: Option<u128>,
}

/// The key space: entries with unique keys, read as a map from key to entry.
/// A vector holds them because vstd states `HashMap` lookups only for keys whose
/// hashing and equality it models, which `String` is not among.
pub struct StorageEngine {
    items: Vec<Item>,
}

/// The remaining lifetime of a key.
#[derive(Debug, PartialEq, Eq, Structural)]
pub enum TimeToLive {
    KeyDoesNotExist,
    DoesNotExpire,
    ExpiresInSeconds(u64),
}

/// An entry as the key space holds it: its text and its expiry instant.
pub struct StoredValue {
    pub value: Seq<char>,
    pub expires_at: Option<u128>,
}

pub open spec fn value_text(v: Value) -> Seq<char> {
    match v {
        Value::StringValue(s) => s@,
    }
}

spec fn entry_of(it: Item) -> StoredValue {
    StoredValue { value: value_text(it.value), expires_at: it.expires_at }
}

spec fn map_of(s: Seq<Item>) -> Map<Seq<char>, StoredValue>
    decreases s.len(),
{
    if s.len() == 0 {
        Map::empty()
    } else {
        map_of(s.drop_last()).insert(s.last().key@, entry_of(s.last()))
    }
}

spec fn keys_unique(s: Seq<Item>) -> bool {
    forall|i: int, j: int|
        0 <= i < s.len() && 0 <= j < s.len() && i != j ==> (#[trigger] s[i]).key@ != (#[trigger] s[j]).key@
}

/// An entry whose expiry instant lies strictly before `now` is expired.
pub open spec fn is_expired(e: StoredValue, now: u128) -> bool {
    e.expires_at matches Some(t) && t < now
}

/// The entry under `key` that a read at `now` sees: none if it is expired.
pub open spec fn live_entry(m: Map<Seq<char>, StoredValue>, key: Seq<char>, now: u128) -> Option<
    StoredValue,
> {
    if m.contains_key(key) && !is_expired(m[key], now) {
        Some(m[key])
    } else {
        None
    }
}

/// The key space after a read of `key` at `now`: an expired entry is evicted.
pub open spec fn after_read(m: Map<Seq<char>, StoredValue>, key: Seq<char>, now: u128) -> Map<
    Seq<char>,
    StoredValue,
> {
    if m.contains_key(key) && is_expired(m[key], now) {
        m.remove(key)
    } else {
        m
    }
}

/// The expiry instant of an entry set at `now` to live `ttl` seconds; an instant
/// past the largest one representable is held as the largest.
pub open spec fn expiry_for(now: u128, ttl: Option<u64>) -> Option<u128> {
    match ttl {
        Some(s) => Some(
            if now + s * NANOS_PER_SEC <= u128::MAX {
                (now + s * NANOS_PER_SEC) as u128
            } else {
                u128::MAX
            },
        ),
        None => None,
    }
}

/// Whole seconds from `now` until `t`, held to what a `u64` can count.
pub open spec fn seconds_until(t: u128, now: u128) -> u64 {
    if (t - now) / (NANOS_PER_SEC as int) <= u64::MAX {
        ((t - now) / (NANOS_PER_SEC as int)) as u64
    } else {
        u64::MAX
    }
}

/// What a read of the lifetime of `key` at `now` reports.
pub open spec fn ttl_of(m: Map<Seq<char>, StoredValue>, key: Seq<char>, now: u128) -> TimeToLive {
    match live_entry(m, key, now) {
        None => TimeToLive::KeyDoesNotExist,
        Some(e) => match e.expires_at {
            None => TimeToLive::DoesNotExpire,
            Some(t) => TimeToLive::ExpiresInSeconds(seconds_until(t, now)),
        },
    }
}

/// What `get` hands back for the live entry `e`: its text, or nothing.
pub open spec fn get_result(r: Result<Option<String>, String>, e: Option<StoredValue>) -> bool {
    match e {
        Some(e) => r matches Ok(Some(s)) && s@ == e.value,
        None => r matches Ok(None),
    }
}

proof fn lemma_map_of_absent(s: Seq<Item>, k: Seq<char>)
    requires
        forall|i: int| 0 <= i < s.len() ==> (#[trigger] s[i]).key@ != k,
    ensures
        !map_of(s).contains_key(k),
    decreases s.len(),
{
    if s.len() > 0 {
        assert(s.last().key@ != k);
        lemma_map_of_absent(s.drop_last(), k);
    }
}

proof fn lemma_unique_drop_last(s: Seq<Item>)
    requires
        keys_unique(s),
        s.len() > 0,
    ensures
        keys_unique(s.drop_last()),
        !map_of(s.drop_last()).contains_key(s.last().key@),
{
    let d = s.drop_last();
    assert forall|i: int, j: int|
        0 <= i < d.len() && 0 <= j < d.len() && i != j implies (#[trigger] d[i]).key@ != (
        #[trigger] d[j]).key@ by {
        assert(d[i] == s[i] && d[j] == s[j]);
    }
    assert forall|i: int| 0 <= i < d.len() implies (#[trigger] d[i]).key@ != s.last().key@ by {
        assert(d[i] == s[i]);
        assert(s.last() == s[s.len() - 1]);
    }
    lemma_map_of_absent(d, s.last().key@);
}

proof fn lemma_map_of_at(s: Seq<Item>, i: int)
    requires
        keys_unique(s),
        0 <= i < s.len(),
    ensures
        map_of(s).contains_key(s[i].key@),
        map_of(s)[s[i].key@] == entry_of(s[i]),
    decreases s.len(),
{
    if i < s.len() - 1 {
        lemma_unique_drop_last(s);
        assert(s.drop_last()[i] == s[i]);
        assert(s[i].key@ != s[s.len() - 1].key@);
        lemma_map_of_at(s.drop_last(), i);
    }
}

proof fn lemma_map_of_remove(s: Seq<Item>, i: int)
    requires
        keys_unique(s),
        0 <= i < s.len(),
    ensures
        keys_unique(s.remove(i)),
        map_of(s.remove(i)) =~= map_of(s).remove(s[i].key@),
    decreases s.len(),
{
    let r = s.remove(i);
    assert forall|a: int, b: int|
        0 <= a < r.len() && 0 <= b < r.len() && a != b implies (#[trigger] r[a]).key@ != (
        #[trigger] r[b]).key@ by {
        let a2 = if a < i { a } else { a + 1 };
        let b2 = if b < i { b } else { b + 1 };
        assert(r[a] == s[a2] && r[b] == s[b2]);
    }
    lemma_unique_drop_last(s);
    if i == s.len() - 1 {
        assert(r =~= s.drop_last());
    } else {
        let d = s.drop_last();
        lemma_map_of_remove(d, i);
        assert(r.drop_last() =~= d.remove(i));
        assert(r.last() == s.last());
        assert(s[i].key@ != s[s.len() - 1].key@);
    }
}

proof fn lemma_map_of_update(s: Seq<Item>, i: int, x: Item)
    requires
        keys_unique(s),
        0 <= i < s.len(),
        x.key@ == s[i].key@,
    ensures
        keys_unique(s.update(i, x)),
        map_of(s.update(i, x)) =~= map_of(s).insert(x.key@, entry_of(x)),
    decreases s.len(),
{
    let u = s.update(i, x);
    assert forall|a: int, b: int|
        0 <= a < u.len() && 0 <= b < u.len() && a != b implies (#[trigger] u[a]).key@ != (
        #[trigger] u[b]).key@ by {
        assert(u[a].key@ == s[a].key@ && u[b].key@ == s[b].key@);
    }
    if i == s.len() - 1 {
        assert(u.drop_last() =~= s.drop_last());
    } else {
        let d = s.drop_last();
        lemma_unique_drop_last(s);
        lemma_map_of_update(d, i, x);
        assert(u.drop_last() =~= d.update(i, x));
        assert(u.last() == s.last());
        assert(s[i].key@ != s[s.len() - 1].key@);
    }
}

/// Relies on std::time::SystemTime::now, read as nanoseconds since the Unix
/// epoch (zero for a clock set before it). Nothing is known of the value.
#[verifier::external_body]
pub(crate) fn clock_now() -> (r: u128) {
    match std::time::SystemTime::now().duration_since(std::time::UNIX_EPOCH) {
        Ok(d) => d.as_nanos(),
        Err(_) => 0,
    }
}

impl Value {
    /// The text of a string value.
    fn get_string(&self) -> (r: Result<String, String>)
        ensures
            r matches Ok(s) && s@ == value_text(*self),
    {
        match self {
            Value::StringValue(value) => Ok(value.clone()),
        }
    }
}

impl StorageEngine {
    /// The key space as a map from key to entry.
    pub closed spec fn view(&self) -> Map<Seq<char>, StoredValue> {
        map_of(self.items@)
    }

    /// Keys are unique.
    pub closed spec fn wf(&self) -> bool {
        keys_unique(self.items@)
    }

    /// An empty key space.
    pub fn new() -> (r: StorageEngine)
        ensures
            r.wf(),
            r.view() == Map::<Seq<char>, StoredValue>::empty(),
    {
        StorageEngine { items: Vec::new() }
    }

    /// The index of the entry under `key`, if there is one.
    fn find(&self, key: &String) -> (r: Option<usize>)
        requires
            self.wf(),
        ensures
            match r {
                Some(i) => i < self.items@.len() && self.items@[i as int].key@ == key@
                    && self.view().contains_key(key@) && self.view()[key@] == entry_of(
                    self.items@[i as int],
                ),
                None => !self.view().contains_key(key@),
            },
    {
        let mut i: usize = 0;
        while i < self.items.len()
            invariant
                i <= self.items@.len(),
                self.wf(),
                forall|j: int| 0 <= j < i ==> (#[trigger] self.items@[j]).key@ != key@,
            decreases self.items@.len() - i,
        {
            if self.items[i].key == *key {
                proof {
                    lemma_map_of_at(self.items@, i as int);
                }
                return Some(i);
            }
            i = i + 1;
        }
        proof {
            lemma_map_of_absent(self.items@, key@);
        }
        None
    }

    /// Looks `key` up at `now`, evicting its entry first if it has expired; gives
    /// the index of the live entry, if there is one.
    fn get_item(&mut self, key: &str, now: u128) -> (r: Option<usize>)
        requires
            old(self).wf(),
        ensures
            final(self).wf(),
            final(self).view() == after_read(old(self).view(), key@, now),
            match r {
                Some(i) => i < final(self).items@.len() && live_entry(old(self).view(), key@, now)
                    == Some(entry_of(final(self).items@[i as int])),
                None => live_entry(old(self).view(), key@, now) is None,
            },
    {
        let k = key.to_owned();
        match self.find(&k) {
            Some(i) => {
                let expired = match self.items[i].expires_at {
                    Some(t) => t < now,
                    None => false,
                };
                if expired {
                    proof {
                        lemma_map_of_remove(self.items@, i as int);
                    }
                    self.items.remove(i);
                    None
                } else {
                    Some(i)
                }
            },
            None => None,
        }
    }

    /// The text under `key` at `now`, after evicting it if it has expired.
    pub fn get_at(&mut self, key: &str, now: u128) -> (r: Result<Option<String>, String>)
        requires
            old(self).wf(),
        ensures
            final(self).wf(),
            final(self).view() == after_read(old(self).view(), key@, now),
            get_result(r, live_entry(old(self).view(), key@, now)),
    {
        match self.get_item(key, now) {
            Some(i) => {
                let v = self.items[i].value.get_string()?;
                Ok(Some(v))
            },
            None => Ok(None),
        }
    }

    /// The text under `key` now, after evicting it if it has expired.
    pub fn get(&mut self, key: &str) -> (r: Result<Option<String>, String>)
        requires
            old(self).wf(),
        ensures
            final(self).wf(),
            exists|now: u128|
                #[trigger] after_read(old(self).view(), key@, now) == final(self).view() && get_result(
                    r,
                    live_entry(old(self).view(), key@, now),
                ),
    {
        let now = clock_now();
        self.get_at(key, now)
    }

    /// Sets `key` to `value` at `now`, to expire after `expiry_seconds` if given,
    /// replacing any entry under it.
    pub fn set_at(&mut self, key: String, value: String, expiry_seconds: Option<u64>, now: u128) -> (r:
        Result<(), String>)
        requires
            old(self).wf(),
        ensures
            final(self).wf(),
            final(self).view() == old(self).view().insert(
                key@,
                (StoredValue { value: value@, expires_at: expiry_for(now, expiry_seconds) }),
            ),
            r is Ok,
    {
        let expires_at = match expiry_seconds {
            Some(s) => {
                let d: u128 = s as u128 * NANOS_PER_SEC;
                if now <= u128::MAX - d {
                    Some(now + d)
                } else {
                    Some(u128::MAX)
                }
            },
            None => None,
        };
        let ghost old_items = self.items@;
        match self.find(&key) {
            Some(i) => {
                let item = Item { key, value: Value::StringValue(value), expires_at };
                proof {
                    lemma_map_of_update(old_items, i as int, item);
                }
                self.items.set(i, item);
            },
            None => {
                let item = Item { key, value: Value::StringValue(value), expires_at };
                proof {
                    assert forall|j: int| 0 <= j < old_items.len() implies (#[trigger] old_items[j]).key@
                        != item.key@ by {
                        if old_items[j].key@ == item.key@ {
                            lemma_map_of_at(old_items, j);
                        }
                    }
                }
                self.items.push(item);
                proof {
                    assert(self.items@.drop_last() =~= old_items);
                    assert forall|a: int, b: int|
                        0 <= a < self.items@.len() && 0 <= b < self.items@.len() && a != b implies (
                        #[trigger] self.items@[a]).key@ != (#[trigger] self.items@[b]).key@ by {
                        if a < old_items.len() && b < old_items.len() {
                            assert(self.items@[a] == old_items[a] && self.items@[b] == old_items[b]);
                        } else if a < old_items.len() {
                            assert(self.items@[a] == old_items[a]);
                        } else {
                            assert(self.items@[b] == old_items[b]);
                        }
                    }
                }
            },
        }
        Ok(())
    }

    /// Sets `key` to `value` now, to expire after `expiry_seconds` if given,
    /// replacing any entry under it.
    pub fn set(&mut self, key: String, value: String, expiry_seconds: Option<u64>) -> (r: Result<(), String>)
        requires
            old(self).wf(),
        ensures
            final(self).wf(),
            exists|now: u128|
                final(self).view() == old(self).view().insert(
                    key@,
                    (StoredValue { value: value@, expires_at: #[trigger] expiry_for(now, expiry_seconds) }),
                ),
            r is Ok,
    {
        let now = clock_now();
        self.set_at(key, value, expiry_seconds, now)
    }

    /// Removes the entry under `key`, expired or not; tells whether there was one.
    pub fn remove(&mut self, key: &str) -> (r: bool)
        requires
            old(self).wf(),
        ensures
            final(self).wf(),
            final(self).view() == old(self).view().remove(key@),
            r == old(self).view().contains_key(key@),
    {
        let k = key.to_owned();
        match self.find(&k) {
            Some(i) => {
                proof {
                    lemma_map_of_remove(self.items@, i as int);
                }
                self.items.remove(i);
                true
            },
            None => {
                assert(self.view().remove(key@) =~= self.view());
                false
            },
        }
    }

    /// Whether an entry stands under `key`. Unlike the reads, this looks at the
    /// key space as it is: an entry that has expired but was not yet evicted counts.
    pub fn key_exists(&self, key: &str) -> (r: bool)
        requires
            self.wf(),
        ensures
            r == self.view().contains_key(key@),
    {
        let k = key.to_owned();
        self.find(&k).is_some()
    }

    /// The remaining lifetime of `key` at `now`, after evicting it if it has expired.
    pub fn time_to_live_at(&mut self, key: &str, now: u128) -> (r: TimeToLive)
        requires
            old(self).wf(),
        ensures
            final(self).wf(),
            final(self).view() == after_read(old(self).view(), key@, now),
            r == ttl_of(old(self).view(), key@, now),
    {
        match self.get_item(key, now) {
            None => TimeToLive::KeyDoesNotExist,
            Some(i) => match self.items[i].expires_at {
                None => TimeToLive::DoesNotExpire,
                Some(t) => {
                    let secs = (t - now) / NANOS_PER_SEC;
                    if secs <= u64::MAX as u128 {
                        TimeToLive::ExpiresInSeconds(secs as u64)
                    } else {
                        TimeToLive::ExpiresInSeconds(u64::MAX)
                    }
                },
            },
        }
    }

    /// The remaining lifetime of `key` now, after evicting it if it has expired.
    pub fn time_to_live(&mut self, key: &str) -> (r: TimeToLive)
        requires
            old(self).wf(),
        ensures
            final(self).wf(),
            exists|now: u128|
                #[trigger] after_read(old(self).view(), key@, now) == final(self).view() && r
                    == ttl_of(old(self).view(), key@, now),
    {
        let now = clock_now();
        self.time_to_live_at(key, now)
    }
}

} // verus!
