use vstd::prelude::*;
use vstd::hash_map::StringHashMap;
use crate::resp::{Frame, RedisValue};

verus! {

#[verifier::external_type_specification]
#[verifier::external_body]
pub struct ExInstant(std::time::Instant);

/// Relies on `Instant::now`: a reading of the monotonic clock.
#[verifier::external_body]
fn clock_start() -> (r: std::time::Instant) {
    std::time::Instant::now()
}

/// Relies on `Instant::elapsed`: the time since `origin` on the monotonic
/// clock.
#[verifier::external_body]
fn elapsed_since(origin: &std::time::Instant) -> (r: std::time::Duration) {
    origin.elapsed()
}

/// Relies on `Duration::as_millis`: the whole milliseconds of `d`.
#[verifier::external_body]
fn whole_millis(d: &std::time::Duration) -> (r: u128) {
    d.as_millis()
}

/// The content of a stored entry: times in milliseconds since the store
/// was made.
pub struct Entry {
    pub value: Frame,
    pub expiry: Option<int>,
    pub inserted_at: int,
}

/// An entry is still readable at `now` unless it has an expiry and more
/// than that many milliseconds have passed since it was written.
pub open spec fn live(e: Entry, now: int) -> bool {
    match e.expiry {
        Some(ms) => now - e.inserted_at <= ms,
        None => true,
    }
}

/// A stored value with its expiry.
pub struct DataValue {
    value: RedisValue,
    expiry: Option<u64>,
    inserted_at: u64,
}

impl View for DataValue {
    type V = Entry;

    closed spec fn view(&self) -> Entry {
        Entry {
            value: self.value@,
            expiry: match self.expiry {
                Some(ms) => Some(ms as int),
                None => None,
            },
            inserted_at: self.inserted_at as int,
        }
    }
}

impl DataValue {
    pub fn value(&self) -> (r: &RedisValue)
        ensures
            r@ == self@.value,
    {
        &self.value
    }
}

/// The key-value store. Expired entries stay until they are overwritten:
/// reads only decide whether an entry still counts.
pub struct Storage {
    data: StringHashMap<DataValue>,
    origin: std::time::Instant,
}

/// The store's content after writing `value` under `key` at `now`.
pub open spec fn stored(
    m: Map<Seq<char>, Entry>,
    key: Seq<char>,
    value: Frame,
    expiry: Option<int>,
    now: int,
) -> Map<Seq<char>, Entry> {
    m.insert(key, Entry { value, expiry, inserted_at: now })
}

/// An optional number of milliseconds as an integer.
pub open spec fn opt_ms(expiry: Option<u64>) -> Option<int> {
    match expiry {
        Some(ms) => Some(ms as int),
        None => None,
    }
}

/// What a read of `key` at `now` finds.
pub open spec fn lookup(m: Map<Seq<char>, Entry>, key: Seq<char>, now: int) -> Option<Entry> {
    if m.contains_key(key) && live(m[key], now) {
        Some(m[key])
    } else {
        None
    }
}

impl View for Storage {
    type V = Map<Seq<char>, Entry>;

    closed spec fn view(&self) -> Map<Seq<char>, Entry> {
        self.data@.map_values(|d: DataValue| d@)
    }
}

impl Storage {
    pub fn new() -> (r: Storage)
        ensures
            r@ == Map::<Seq<char>, Entry>::empty(),
    {
        let r = Storage { data: StringHashMap::new(), origin: clock_start() };
        assert(r@ =~= Map::<Seq<char>, Entry>::empty());
        r
    }

    /// Milliseconds on the store's clock.
    pub fn now(&self) -> (r: u64) {
        let ms = whole_millis(&elapsed_since(&self.origin));
        if ms > u64::MAX as u128 {
            u64::MAX
        } else {
            ms as u64
        }
    }

    /// The entry under `key` if it is still live at `now`.
    pub fn get_at(&self, key: &str, now: u64) -> (r: Option<&DataValue>)
        ensures
            match r {
                Some(d) => lookup(self@, key@, now as int) == Some(d@),
                None => lookup(self@, key@, now as int) is None,
            },
    {
        match self.data.get(key) {
            Some(d) => {
                if let Some(ms) = d.expiry {
                    if now > d.inserted_at && now - d.inserted_at > ms {
                        return None;
                    }
                }
                Some(d)
            },
            None => None,
        }
    }

    /// The entry under `key` if it is still live now.
    pub fn get(&self, key: String) -> (r: Option<&DataValue>)
        ensures
            r matches Some(d) ==> self@.contains_key(key@) && d@ == self@[key@],
            !self@.contains_key(key@) ==> r is None,
            self@.contains_key(key@) && self@[key@].expiry is None ==> r is Some,
            exists|now: int| lookup(self@, key@, now) == match r {
                Some(d) => Some(d@),
                None => None::<Entry>,
            },
    {
        let now = self.now();
        self.get_at(key.as_str(), now)
    }

    /// Writes `value` under `key` at `now`, replacing what was there.
    pub fn set_at(&mut self, key: String, value: RedisValue, expiry: Option<u64>, now: u64)
        ensures
            final(self)@ == stored(old(self)@, key@, value@, opt_ms(expiry), now as int),
    {
        let ghost k = key@;
        let ghost f = value@;
        self.data.insert(key, DataValue { value, expiry, inserted_at: now });
        assert(final(self)@ =~= stored(old(self)@, k, f, opt_ms(expiry), now as int));
    }

    /// Writes `value` under `key` now, replacing what was there.
    pub fn set(&mut self, key: String, value: RedisValue, expiry: Option<u64>)
        ensures
            exists|now: int| final(self)@ == stored(old(self)@, key@, value@, opt_ms(expiry), now),
    {
        let now = self.now();
        self.set_at(key, value, expiry, now);
    }
}

/// A value written with an expiry of `ms` milliseconds reads back as written
/// until `ms` milliseconds have passed, and is absent after that, with no
/// delete in between.
pub proof fn lemma_expiry(
    m: Map<Seq<char>, Entry>,
    key: Seq<char>,
    value: Frame,
    ms: u64,
    written: int,
    read: int,
)
    ensures
        lookup(stored(m, key, value, Some(ms as int), written), key, read) is Some <==> read
            - written <= ms,
        lookup(stored(m, key, value, Some(ms as int), written), key, read) matches Some(e)
            ==> e.value == value,
{
}

/// A value written with no expiry reads back as written at any time.
pub proof fn lemma_no_expiry(m: Map<Seq<char>, Entry>, key: Seq<char>, value: Frame, written: int, read: int)
    ensures
        lookup(stored(m, key, value, None, written), key, read) matches Some(e) && e.value == value,
{
}

} // verus!
