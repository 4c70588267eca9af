//! The key-value store: a mapping from string keys to string values with
//! optional absolute expiration timestamps, evaluated lazily on read, plus
//! the process-identity fields used for informational replies.
//!
//! The model of a store is a `Map` from key character sequences to
//! `EntryModel` values; `write_model` and `read_model` say exactly what a
//! write installs and what a read returns at a given clock reading.

use vstd::prelude::*;
use vstd::hash_map::StringHashMap;
use std::time::SystemTime;
use std::time::UNIX_EPOCH;

verus! {

/// Ghost model of one stored entry: the payload and the absolute
/// expiration timestamp in milliseconds since the epoch (zero meaning the
/// entry never expires).
#[verifier::ext_equal]
pub struct EntryModel {
    pub value: Seq<char>,
    pub expiration: u128,
}

/// The absolute expiration timestamp installed by a write: zero (never
/// expires) for a zero TTL, otherwise the write-time clock plus the TTL,
/// saturating at the type's maximum.
pub open spec fn expiry_of(ttl: u128, now: u64) -> u128 {
    if ttl == 0 {
        0
    } else if ttl + now <= u128::MAX {
        (ttl + now) as u128
    } else {
        u128::MAX
    }
}

/// Whether an entry is still alive at clock reading `now`.
pub open spec fn entry_live(e: EntryModel, now: u64) -> bool {
    e.expiration == 0 || now <= e.expiration
}

/// The store model after a write of `v` under `k` with relative TTL `ttl`
/// performed at clock reading `now`.
pub open spec fn write_model(
    m: Map<Seq<char>, EntryModel>,
    k: Seq<char>,
    v: Seq<char>,
    ttl: u128,
    now: u64,
) -> Map<Seq<char>, EntryModel> {
    m.insert(k, EntryModel { value: v, expiration: expiry_of(ttl, now) })
}

/// What a read of `k` returns at clock reading `now`: the stored value if
/// the key is present and alive, `None` otherwise (an expired entry is
/// filtered out, never returned).
pub open spec fn read_model(m: Map<Seq<char>, EntryModel>, k: Seq<char>, now: u64) -> Option<
    Seq<char>,
> {
    if m.contains_key(k) && entry_live(m[k], now) {
        Some(m[k].value)
    } else {
        None
    }
}

/// Whether `post` is `pre` after one write of `v` under `k` with TTL
/// `ttl` performed at some clock reading; what a write promises when the
/// clock is read inside the call.
pub open spec fn set_applied(
    pre: Map<Seq<char>, EntryModel>,
    post: Map<Seq<char>, EntryModel>,
    k: Seq<char>,
    v: Seq<char>,
    ttl: u128,
) -> bool {
    exists|now: u64| post == #[trigger] write_model(pre, k, v, ttl, now)
}

/// Whether `out` is what a read of `k` returns at some clock reading;
/// what a read promises when the clock is read inside the call.
pub open spec fn read_result(
    m: Map<Seq<char>, EntryModel>,
    k: Seq<char>,
    out: Option<Seq<char>>,
) -> bool {
    exists|now: u64| #[trigger] read_model(m, k, now) == out
}

/// A value stored with TTL zero is returned by a read at every later
/// clock reading: such an entry never expires.
pub proof fn lemma_never_expires(
    m: Map<Seq<char>, EntryModel>,
    k: Seq<char>,
    v: Seq<char>,
    now_set: u64,
    now_get: u64,
)
    ensures
        read_model(write_model(m, k, v, 0, now_set), k, now_get) == Some(v),
{
}

/// A value stored with a positive TTL is returned by reads up to and
/// including the moment the TTL has fully elapsed, and by none after it.
pub proof fn lemma_expiration_boundary(
    m: Map<Seq<char>, EntryModel>,
    k: Seq<char>,
    v: Seq<char>,
    ttl: u128,
    now_set: u64,
    now_get: u64,
)
    requires
        0 < ttl,
        ttl + now_set <= u128::MAX,
    ensures
        now_get <= now_set + ttl ==> read_model(write_model(m, k, v, ttl, now_set), k, now_get)
            == Some(v),
        now_get > now_set + ttl ==> read_model(write_model(m, k, v, ttl, now_set), k, now_get)
            is None,
{
}

/// One stored entry: the payload and its absolute expiration timestamp
/// (zero meaning the entry never expires).
pub struct MapValue {
    pub value: String,
    pub expiration: u128,
}

impl MapValue {
    pub fn new(v: String, e: u128) -> (r: Self)
        ensures
            r.value@ == v@,
            r.expiration == e,
    {
        MapValue { value: v, expiration: e }
    }
}

/// The key-value store shared by all connections, together with the
/// process-identity fields reported by informational commands.
pub struct Database {
    db: StringHashMap<MapValue>,
    master_host: String,
    current_port: u16,
}

/// Relies on std's `SystemTime::now` and `Duration::as_millis`: reads the
/// wall clock and converts it to whole milliseconds since the Unix epoch.
/// Nothing can be promised of the value; every caller states what holds
/// of each possible reading.
#[verifier::external_body]
fn now_millis() -> u64 {
    match SystemTime::now().duration_since(UNIX_EPOCH) {
        Ok(d) => d.as_millis() as u64,
        Err(_) => 0,
    }
}

impl View for Database {
    type V = Map<Seq<char>, EntryModel>;

    closed spec fn view(&self) -> Map<Seq<char>, EntryModel> {
        Map::new(
            |k: Seq<char>| self.db@.contains_key(k),
            |k: Seq<char>|
                EntryModel { value: self.db@[k].value@, expiration: self.db@[k].expiration },
        )
    }
}

impl Database {
    /// The configured master host; empty means this node is a master.
    pub closed spec fn spec_master_host(&self) -> Seq<char> {
        self.master_host@
    }

    /// The port this node listens on.
    pub closed spec fn spec_port(&self) -> u16 {
        self.current_port
    }

    /// Whether this node is a master (no master host configured).
    pub open spec fn is_master(&self) -> bool {
        self.spec_master_host().len() == 0
    }

    /// Creates an empty store for a node with the given master host
    /// (empty for a master) and listening port.
    pub fn new(host: String, port: u16) -> (r: Self)
        ensures
            r@ == Map::<Seq<char>, EntryModel>::empty(),
            r.spec_master_host() == host@,
            r.spec_port() == port,
    {
        let r = Database { db: StringHashMap::new(), master_host: host, current_port: port };
        proof {
            assert(r@ =~= Map::<Seq<char>, EntryModel>::empty());
        }
        r
    }

    /// Writes `value` under `key` with relative TTL `expiration` (zero
    /// meaning never expire), stamping the entry with the given clock
    /// reading. Returns the previously stored value if the key was
    /// present, whatever its liveness, and `None` for a fresh key.
    pub fn set_at(&mut self, key: &String, value: &String, expiration: u128, now: u64) -> (r:
        Option<String>)
        ensures
            final(self)@ == write_model(old(self)@, key@, value@, expiration, now),
            final(self).spec_master_host() == old(self).spec_master_host(),
            final(self).spec_port() == old(self).spec_port(),
            old(self)@.contains_key(key@) ==> (r matches Some(prev) && prev@ == old(
                self,
            )@[key@].value),
            !old(self)@.contains_key(key@) ==> r is None,
    {
        let ts: u128 = if expiration == 0 {
            0
        } else if expiration <= u128::MAX - (now as u128) {
            expiration + (now as u128)
        } else {
            u128::MAX
        };
        let prev = match self.db.get(key.as_str()) {
            Some(mv) => Some(mv.value.clone()),
            None => None,
        };
        self.db.insert(key.clone(), MapValue::new(value.clone(), ts));
        proof {
            assert(self@ =~= write_model(old(self)@, key@, value@, expiration, now));
        }
        prev
    }

    /// Writes `value` under `key` with relative TTL `expiration`, reading
    /// the clock at call time. Returns the previous value, `None` for a
    /// fresh key; a caller tells a fresh insert from an overwrite by this.
    pub fn set(&mut self, key: &String, value: &String, expiration: u128) -> (r: Option<String>)
        ensures
            set_applied(old(self)@, final(self)@, key@, value@, expiration),
            final(self)@.contains_key(key@),
            final(self)@[key@].value == value@,
            expiration == 0 ==> final(self)@[key@].expiration == 0,
            final(self).spec_master_host() == old(self).spec_master_host(),
            final(self).spec_port() == old(self).spec_port(),
            old(self)@.contains_key(key@) ==> (r matches Some(prev) && prev@ == old(
                self,
            )@[key@].value),
            !old(self)@.contains_key(key@) ==> r is None,
    {
        let now = now_millis();
        self.set_at(key, value, expiration, now)
    }

    /// Reads `key` as of the given clock reading: the stored value if the
    /// key is present and alive, `None` otherwise.
    pub fn get_at(&self, key: &String, now: u64) -> (r: Option<&String>)
        ensures
            match read_model(self@, key@, now) {
                Some(vv) => r matches Some(s) && s@ == vv,
                None => r is None,
            },
    {
        match self.db.get(key.as_str()) {
            Some(mv) => {
                if mv.expiration == 0 || (now as u128) <= mv.expiration {
                    Some(&mv.value)
                } else {
                    None
                }
            },
            None => None,
        }
    }

    /// Reads `key`, judging liveness against the clock at call time. A
    /// key that is absent, or present but expired, reads as `None`; an
    /// entry that never expires is always returned.
    pub fn get(&self, key: &String) -> (r: Option<&String>)
        ensures
            read_result(
                self@,
                key@,
                match r {
                    Some(s) => Some(s@),
                    None => None,
                },
            ),
            r matches Some(s) ==> self@.contains_key(key@) && s@ == self@[key@].value,
            !self@.contains_key(key@) ==> r is None,
            self@.contains_key(key@) && self@[key@].expiration == 0 ==> (r matches Some(s) && s@
                == self@[key@].value),
    {
        let now = now_millis();
        self.get_at(key, now)
    }

    /// The node's role line: `role:master` where no master host is
    /// configured, `role:slave` otherwise.
    pub fn host_info(&self) -> (r: Option<String>)
        ensures
            self.is_master() ==> (r matches Some(s) && s@ == "role:master"@),
            !self.is_master() ==> (r matches Some(s) && s@ == "role:slave"@),
    {
        if self.master_host.as_str().is_empty() {
            Some("role:master".to_owned())
        } else {
            Some("role:slave".to_owned())
        }
    }

    /// The port this node listens on.
    pub fn current_port_info(&self) -> (r: Option<u16>)
        ensures
            r == Some(self.spec_port()),
    {
        Some(self.current_port)
    }

    /// The fixed replication identifier line.
    pub fn repl_id(&self) -> (r: Option<String>)
        ensures
            r matches Some(s) && s@
                == "master_replid:8371b4fb1155b71f4a04d3e1bc3e18c4a990aeeb"@,
    {
        Some("master_replid:8371b4fb1155b71f4a04d3e1bc3e18c4a990aeeb".to_owned())
    }

    /// The replication offset line; always zero, as no write propagation
    /// is implemented.
    pub fn repl_offset(&self) -> (r: Option<String>)
        ensures
            r matches Some(s) && s@ == "master_repl_offset:0"@,
    {
        Some("master_repl_offset:0".to_owned())
    }
}

} // verus!
