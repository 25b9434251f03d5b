//! The storage engine: a mapping from key to value with optional expiry.
//!
//! Two tables are kept consistent: `store` maps a key to its entry, and
//! `expiry` maps a key to its absolute deadline in milliseconds, populated
//! only for entries with a time-to-live.  A key is dropped either lazily,
//! when a read finds its deadline passed, or actively, when the periodic
//! sweep runs.  Every mutation is specified against the ghost `StoreModel`,
//! with the clock reading passed in as a plain number, so each `*_at`
//! function is verified for every possible instant.

use vstd::prelude::*;
use vstd::string::StringExecFns;
use crate::resp::{RESP, RespModel};
use crate::set::{KeyExpiry, SetArgs, parse_set_arguments, spec_parse_set};
use crate::storage_result::{StorageError, StorageResult};
use crate::table::Table;
use crate::text::{ci_equal, join_spec, eq_ignore_case, join_with_spaces};

verus! {

/// The payload a key stores; only strings are supported.
#[derive(Debug, PartialEq)]
pub enum StorageValue {
    String(String),
}

/// Mathematical shadow of a stored entry.
pub struct EntryModel {
    pub value: Seq<char>,
    pub creation: u64,
    pub ttl: Option<u64>,
}

/// One stored entry: its payload, when it was written, and its optional
/// time-to-live in milliseconds.
#[derive(Debug)]
pub struct StorageData {
    pub value: StorageValue,
    pub creation_time: u64,
    pub expiry: Option<u64>,
}

impl View for StorageData {
    type V = EntryModel;

    open spec fn view(&self) -> EntryModel {
        EntryModel {
            value: match self.value {
                StorageValue::String(s) => s@,
            },
            creation: self.creation_time,
            ttl: self.expiry,
        }
    }
}

impl StorageData {
    /// Records a time-to-live on the entry.
    pub fn add_expiry(&mut self, expiry: u64)
        ensures
            final(self)@ == (EntryModel { ttl: Some(expiry), ..old(self)@ }),
    {
        self.expiry = Some(expiry);
    }
}

/// Equality for testing: the payload and the time-to-live count, the
/// creation instant does not.
impl PartialEq for StorageData {
    fn eq(&self, other: &Self) -> (r: bool) {
        let values_equal = match (&self.value, &other.value) {
            (StorageValue::String(a), StorageValue::String(b)) => *a == *b,
        };
        let expiry_equal = match (self.expiry, other.expiry) {
            (Some(x), Some(y)) => x == y,
            (None, None) => true,
            _ => false,
        };
        values_equal && expiry_equal
    }
}

impl vstd::std_specs::cmp::PartialEqSpecImpl for StorageData {
    open spec fn obeys_eq_spec() -> bool {
        true
    }

    open spec fn eq_spec(&self, other: &Self) -> bool {
        self@.value == other@.value && self@.ttl == other@.ttl
    }
}

/// Relies on `std::time::SystemTime::now` and `duration_since`: reads the
/// clock as milliseconds since the Unix epoch.  Nothing is promised of the
/// value; every caller is verified for every possible reading.
#[verifier::external_body]
pub(crate) fn now_millis() -> u64 {
    match std::time::SystemTime::now().duration_since(std::time::UNIX_EPOCH) {
        Ok(d) => d.as_millis() as u64,
        Err(_) => 0,
    }
}

/// A fresh entry holding `s`, created at the current instant, with no
/// time-to-live.
impl From<String> for StorageData {
    fn from(s: String) -> StorageData {
        StorageData {
            value: StorageValue::String(s),
            creation_time: now_millis(),
            expiry: None,
        }
    }
}

impl vstd::std_specs::convert::FromSpecImpl<String> for StorageData {
    open spec fn obeys_from_spec() -> bool {
        false
    }

    open spec fn from_spec(s: String) -> StorageData {
        StorageData { value: StorageValue::String(s), creation_time: 0, expiry: None }
    }
}

// ---------------------------------------------------------------------------
// The ghost model of the engine and its transitions.
// ---------------------------------------------------------------------------

/// Mathematical shadow of the whole engine.
pub struct StoreModel {
    pub store: Map<Seq<char>, EntryModel>,
    pub expiry: Map<Seq<char>, u64>,
    pub active_expiry: bool,
}

/// The entries of a table, seen through their views.
pub open spec fn entry_views(m: Map<Seq<char>, StorageData>) -> Map<Seq<char>, EntryModel> {
    Map::new(|k: Seq<char>| m.contains_key(k), |k: Seq<char>| m[k]@)
}

/// Clamps an integer into the u64 range.
pub open spec fn sat_u64(x: int) -> u64 {
    if x > 18446744073709551615 {
        18446744073709551615u64
    } else if x < 0 {
        0u64
    } else {
        x as u64
    }
}

/// A time-to-live in milliseconds; seconds saturate on conversion.
pub open spec fn ttl_millis(e: KeyExpiry) -> u64 {
    match e {
        KeyExpiry::EX(v) => sat_u64(v as int * 1000),
        KeyExpiry::PX(v) => v,
    }
}

/// The absolute deadline a time-to-live yields, saturating at the largest
/// representable instant.
pub open spec fn deadline_of(now: u64, ttl: u64) -> u64 {
    sat_u64(now as int + ttl as int)
}

/// The key's deadline exists and has passed.
pub open spec fn expired_at(m: StoreModel, k: Seq<char>, now: u64) -> bool {
    m.expiry.contains_key(k) && now >= m.expiry[k]
}

/// What a read at instant `now` leaves behind: an expired key is dropped
/// from both maps, anything else is untouched.
pub open spec fn spec_get_state(m: StoreModel, k: Seq<char>, now: u64) -> StoreModel {
    if expired_at(m, k, now) {
        StoreModel {
            store: m.store.remove(k),
            expiry: m.expiry.remove(k),
            active_expiry: m.active_expiry,
        }
    } else {
        m
    }
}

/// What a read at instant `now` returns.
pub open spec fn spec_get_value(m: StoreModel, k: Seq<char>, now: u64) -> Option<Seq<char>> {
    if expired_at(m, k, now) {
        None
    } else if m.store.contains_key(k) {
        Some(m.store[k].value)
    } else {
        None
    }
}

/// What a write at instant `now` leaves behind: the entry is replaced, and
/// the deadline is set from the new time-to-live or cleared when none is
/// given.
pub open spec fn spec_set_state(
    m: StoreModel,
    k: Seq<char>,
    v: Seq<char>,
    e: Option<KeyExpiry>,
    now: u64,
) -> StoreModel {
    match e {
        None => StoreModel {
            store: m.store.insert(k, EntryModel { value: v, creation: now, ttl: None }),
            expiry: m.expiry.remove(k),
            active_expiry: m.active_expiry,
        },
        Some(x) => StoreModel {
            store: m.store.insert(
                k,
                EntryModel { value: v, creation: now, ttl: Some(ttl_millis(x)) },
            ),
            expiry: m.expiry.insert(k, deadline_of(now, ttl_millis(x))),
            active_expiry: m.active_expiry,
        },
    }
}

/// The keys whose deadline lies strictly before `now`.
pub open spec fn expired_set(m: StoreModel, now: u64) -> Set<Seq<char>> {
    m.expiry.dom().filter(|k: Seq<char>| m.expiry[k] < now)
}

/// What the active sweep at instant `now` leaves behind: nothing when the
/// sweep is disabled, otherwise both maps shed every expired key.
pub open spec fn spec_expire_state(m: StoreModel, now: u64) -> StoreModel {
    if !m.active_expiry {
        m
    } else {
        StoreModel {
            store: m.store.remove_keys(expired_set(m, now)),
            expiry: m.expiry.remove_keys(expired_set(m, now)),
            active_expiry: m.active_expiry,
        }
    }
}

/// The reply is a syntax error quoting the given tokens.
pub open spec fn syntax_error_msg(r: StorageResult<RESP>, c: Seq<Seq<char>>) -> bool {
    &&& r matches Err(e)
    &&& e matches StorageError::CommandSyntaxError(s)
    &&& s@ == join_spec(c, " "@)
}

/// What a GET command does: wrong arity is a syntax error quoting the
/// command; otherwise the read happens at some instant, the store changes
/// as that read says, and the reply carries the value or null.
pub open spec fn get_command_post(
    pre: StoreModel,
    post: StoreModel,
    c: Seq<Seq<char>>,
    r: StorageResult<RESP>,
) -> bool {
    if c.len() != 2 {
        post == pre && syntax_error_msg(r, c)
    } else {
        exists|now: u64|
            #![auto]
            {
                &&& post == spec_get_state(pre, c[1], now)
                &&& match spec_get_value(pre, c[1], now) {
                    Some(vs) => r matches Ok(v) && v@ == RespModel::BulkString(vs),
                    None => r matches Ok(v) && v@ == RespModel::Null,
                }
            }
    }
}

/// What a SET command does: fewer than three tokens or a bad option tail
/// is a syntax error; otherwise the write happens at some instant and the
/// reply is OK.
pub open spec fn set_command_post(
    pre: StoreModel,
    post: StoreModel,
    c: Seq<Seq<char>>,
    r: StorageResult<RESP>,
) -> bool {
    if c.len() < 3 {
        post == pre && syntax_error_msg(r, c)
    } else {
        match spec_parse_set(c.skip(3)) {
            Some(args) => exists|now: u64|
                #![auto]
                {
                    &&& post == spec_set_state(pre, c[1], c[2], args.expiry, now)
                    &&& r matches Ok(v) && v@ == RespModel::SimpleString("OK"@)
                },
            None => post == pre && syntax_error_msg(r, c.skip(3)),
        }
    }
}

// ---------------------------------------------------------------------------
// The engine.
// ---------------------------------------------------------------------------

/// The key-value store.  The fields are open so that tests can inspect
/// them; the contracts all speak of the `StoreModel` view.
#[derive(Debug)]
pub struct Storage {
    pub store: Table<StorageData>,
    pub expiry: Table<u64>,
    pub active_expiry: bool,
}

impl View for Storage {
    type V = StoreModel;

    open spec fn view(&self) -> StoreModel {
        StoreModel {
            store: entry_views(self.store@),
            expiry: self.expiry@,
            active_expiry: self.active_expiry,
        }
    }
}

/// Appending one element extends the element set by it.
proof fn lemma_take_snoc_to_set<T>(s: Seq<T>, j: int)
    requires
        0 <= j < s.len(),
    ensures
        s.take(j + 1).to_set() == s.take(j).to_set().insert(s[j]),
{
    assert forall|x: T| s.take(j + 1).to_set().contains(x) implies s.take(j).to_set().insert(
        s[j],
    ).contains(x) by {
        let t = choose|t: int| 0 <= t < s.take(j + 1).len() && #[trigger] s.take(j + 1)[t] == x;
        if t < j {
            assert(s.take(j)[t] == x);
            assert(s.take(j).contains(x));
        } else {
            assert(x == s[j]);
        }
    }
    assert forall|x: T| s.take(j).to_set().insert(s[j]).contains(x) implies s.take(
        j + 1,
    ).to_set().contains(x) by {
        if s.take(j).to_set().contains(x) {
            let t = choose|t: int| 0 <= t < s.take(j).len() && #[trigger] s.take(j)[t] == x;
            assert(s.take(j + 1)[t] == x);
            assert(s.take(j + 1).contains(x));
        } else {
            assert(s.take(j + 1)[j] == s[j]);
            assert(s.take(j + 1).contains(s[j]));
        }
    }
    assert(s.take(j + 1).to_set() =~= s.take(j).to_set().insert(s[j]));
}

impl Storage {
    /// Both tables hold each key at most once.
    pub open spec fn wf(self) -> bool {
        self.store.wf() && self.expiry.wf()
    }

    /// An empty engine with the active sweep enabled.
    pub fn new() -> (r: Storage)
        ensures
            r.wf(),
            r@.store == Map::<Seq<char>, EntryModel>::empty(),
            r@.expiry == Map::<Seq<char>, u64>::empty(),
            r@.active_expiry == true,
    {
        let r = Storage { store: Table::new(), expiry: Table::new(), active_expiry: true };
        proof {
            assert(r@.store =~= Map::<Seq<char>, EntryModel>::empty());
        }
        r
    }

    /// Writes `value` under `key` as of instant `now`.  The write always
    /// succeeds and replaces whatever was there; a time-to-live in the
    /// options sets the deadline, and its absence clears any old one.
    pub fn set_at(&mut self, key: String, value: String, args: SetArgs, now: u64) -> (r:
        StorageResult<String>)
        requires
            old(self).wf(),
        ensures
            final(self).wf(),
            final(self)@ == spec_set_state(old(self)@, key@, value@, args.expiry, now),
            r matches Ok(s) && s@ == "OK"@,
    {
        let mut data = StorageData {
            value: StorageValue::String(value),
            creation_time: now,
            expiry: None,
        };
        match args.expiry {
            Some(e) => {
                let ttl: u64 = match e {
                    KeyExpiry::EX(v) => if v > 18446744073709551u64 {
                        u64::MAX
                    } else {
                        v * 1000
                    },
                    KeyExpiry::PX(v) => v,
                };
                proof {
                    assert(ttl == ttl_millis(e));
                }
                data.add_expiry(ttl);
                let deadline: u64 = if now > u64::MAX - ttl {
                    u64::MAX
                } else {
                    now + ttl
                };
                proof {
                    assert(deadline == deadline_of(now, ttl));
                }
                self.expiry.insert(key.clone(), deadline);
                self.store.insert(key, data);
                proof {
                    assert(self@.store =~= spec_set_state(
                        old(self)@,
                        key@,
                        value@,
                        args.expiry,
                        now,
                    ).store);
                    assert(self@ == spec_set_state(old(self)@, key@, value@, args.expiry, now));
                }
            },
            None => {
                self.expiry.remove(&key);
                self.store.insert(key, data);
                proof {
                    assert(self@.store =~= spec_set_state(
                        old(self)@,
                        key@,
                        value@,
                        args.expiry,
                        now,
                    ).store);
                    assert(self@ == spec_set_state(old(self)@, key@, value@, args.expiry, now));
                }
            },
        }
        Ok(String::from_str("OK"))
    }

    /// Writes `value` under `key` as of the current instant.
    pub fn set(&mut self, key: String, value: String, args: SetArgs) -> (r: StorageResult<String>)
        requires
            old(self).wf(),
        ensures
            final(self).wf(),
            r matches Ok(s) && s@ == "OK"@,
            exists|now: u64|
                final(self)@ == spec_set_state(old(self)@, key@, value@, args.expiry, now),
    {
        let now = now_millis();
        let r = self.set_at(key, value, args, now);
        r
    }

    /// Reads `key` as of instant `now`.  A key past its deadline is
    /// removed from both maps and reads as absent; otherwise the store is
    /// untouched and the current value, if any, is returned.
    pub fn get_at(&mut self, key: String, now: u64) -> (r: StorageResult<Option<String>>)
        requires
            old(self).wf(),
        ensures
            final(self).wf(),
            final(self)@ == spec_get_state(old(self)@, key@, now),
            match spec_get_value(old(self)@, key@, now) {
                Some(vs) => r matches Ok(o) && o matches Some(s) && s@ == vs,
                None => r matches Ok(o) && o is None,
            },
    {
        let mut is_expired = false;
        match self.expiry.get(&key) {
            Some(d) => {
                if now >= *d {
                    is_expired = true;
                }
            },
            None => {},
        }
        if is_expired {
            self.expiry.remove(&key);
            self.store.remove(&key);
            proof {
                assert(self@.store =~= spec_get_state(old(self)@, key@, now).store);
                assert(self@ == spec_get_state(old(self)@, key@, now));
            }
            return Ok(None);
        }
        match self.store.get(&key) {
            Some(data) => match &data.value {
                StorageValue::String(v) => Ok(Some(v.clone())),
            },
            None => Ok(None),
        }
    }

    /// Reads `key` as of the current instant.
    pub fn get(&mut self, key: String) -> (r: StorageResult<Option<String>>)
        requires
            old(self).wf(),
        ensures
            final(self).wf(),
            exists|now: u64|
                ({
                    &&& final(self)@ == spec_get_state(old(self)@, key@, now)
                    &&& match spec_get_value(old(self)@, key@, now) {
                        Some(vs) => r matches Ok(o) && o matches Some(s) && s@ == vs,
                        None => r matches Ok(o) && o is None,
                    }
                }),
    {
        let now = now_millis();
        let r = self.get_at(key, now);
        r
    }

    /// Turns the active sweep on or off.  Lazy, on-read expiry always
    /// applies regardless.
    pub fn set_active_expiry(&mut self, value: bool)
        ensures
            final(self)@ == (StoreModel { active_expiry: value, ..old(self)@ }),
            final(self).wf() == old(self).wf(),
    {
        self.active_expiry = value;
    }

    /// Sweeps every key whose deadline lies before instant `now` out of
    /// both maps; does nothing when the active sweep is disabled.
    pub fn expire_keys_at(&mut self, now: u64)
        requires
            old(self).wf(),
        ensures
            final(self).wf(),
            final(self)@ == spec_expire_state(old(self)@, now),
            old(self).active_expiry == false ==> *final(self) == *old(self),
    {
        if !self.active_expiry {
            return;
        }
        let ghost m = old(self)@;
        let n = self.expiry.len();
        let mut expired: Vec<String> = Vec::new();
        let mut i: usize = 0;
        while i < n
            invariant
                i <= n,
                *self == *old(self),
                old(self).wf(),
                n == old(self).expiry.key_seq().len(),
                m == old(self)@,
                forall|j: int|
                    0 <= j < expired.deep_view().len() ==> m.expiry.contains_key(
                        #[trigger] expired.deep_view()[j],
                    ) && m.expiry[expired.deep_view()[j]] < now,
                forall|t: int|
                    0 <= t < i && m.expiry.contains_key(
                        #[trigger] old(self).expiry.key_seq()[t],
                    ) && m.expiry[old(self).expiry.key_seq()[t]] < now
                        ==> expired.deep_view().contains(old(self).expiry.key_seq()[t]),
            decreases n - i,
        {
            let ghost dv_before = expired.deep_view();
            let entry = self.expiry.entry_at(i);
            if *entry.1 < now {
                expired.push(entry.0.clone());
                proof {
                    assert(expired.deep_view() =~= dv_before.push(
                        old(self).expiry.key_seq()[i as int],
                    ));
                    assert(expired.deep_view().contains(old(self).expiry.key_seq()[i as int])) by {
                        assert(expired.deep_view()[dv_before.len() as int] == old(
                            self,
                        ).expiry.key_seq()[i as int]);
                    }
                    assert(forall|j: int|
                        0 <= j < dv_before.len() ==> expired.deep_view()[j] == dv_before[j]);
                }
            }
            i = i + 1;
        }
        proof {
            let dv = expired.deep_view();
            old(self).expiry.lemma_entries();
            assert forall|k: Seq<char>| expired_set(m, now).contains(k) implies dv.to_set().contains(
                k,
            ) by {
                assert(m.expiry.contains_key(k) && m.expiry[k] < now);
                let t = choose|t: int|
                    0 <= t < old(self).expiry.key_seq().len() && old(self).expiry.key_seq()[t] == k;
                assert(dv.contains(k));
            }
            assert forall|k: Seq<char>| dv.to_set().contains(k) implies expired_set(m, now).contains(
                k,
            ) by {
                assert(dv.contains(k));
                let j = choose|j: int| 0 <= j < dv.len() && dv[j] == k;
            }
            assert(dv.to_set() =~= expired_set(m, now));
        }
        let mut j: usize = 0;
        while j < expired.len()
            invariant
                j <= expired@.len(),
                self.wf(),
                expired.deep_view().to_set() == expired_set(m, now),
                self.active_expiry == m.active_expiry,
                m.active_expiry == true,
                self@.store == m.store.remove_keys(expired.deep_view().take(j as int).to_set()),
                self@.expiry == m.expiry.remove_keys(expired.deep_view().take(j as int).to_set()),
            decreases expired@.len() - j,
        {
            let ghost dv = expired.deep_view();
            let ghost prev_store = self@.store;
            let ghost prev_exp = self@.expiry;
            self.store.remove(&expired[j]);
            self.expiry.remove(&expired[j]);
            proof {
                let k = dv[j as int];
                assert(dv[j as int] == expired@[j as int]@);
                assert(self@.store =~= prev_store.remove(k));
                assert(self@.expiry == prev_exp.remove(k));
                lemma_take_snoc_to_set(dv, j as int);
                assert(prev_store.remove(k) =~= m.store.remove_keys(
                    dv.take(j as int + 1).to_set(),
                ));
                assert(prev_exp.remove(k) =~= m.expiry.remove_keys(
                    dv.take(j as int + 1).to_set(),
                ));
            }
            j = j + 1;
        }
        proof {
            assert(expired.deep_view().take(expired.deep_view().len() as int)
                =~= expired.deep_view());
            assert(self@.store =~= spec_expire_state(m, now).store);
            assert(self@.expiry =~= spec_expire_state(m, now).expiry);
            assert(self@ == spec_expire_state(m, now));
        }
    }

    /// Replies PONG, whatever the arguments.
    pub fn command_ping(&self, _command: &Vec<String>) -> (r: StorageResult<RESP>)
        ensures
            r matches Ok(v) && v@ == RespModel::SimpleString("PONG"@),
    {
        Ok(RESP::SimpleString(String::from_str("PONG")))
    }

    /// Replies with the first argument as a bulk string.
    pub fn command_echo(&self, command: &Vec<String>) -> (r: StorageResult<RESP>)
        requires
            command@.len() >= 2,
        ensures
            r matches Ok(v) && v@ == RespModel::BulkString(command.deep_view()[1]),
    {
        proof {
            assert(command.deep_view()[1] == command@[1]@);
        }
        Ok(RESP::BulkString(command[1].clone()))
    }

    /// Reads the named key: the value as a bulk string, or null.
    pub fn command_get(&mut self, command: &Vec<String>) -> (r: StorageResult<RESP>)
        requires
            old(self).wf(),
        ensures
            final(self).wf(),
            get_command_post(old(self)@, final(self)@, command.deep_view(), r),
    {
        if command.len() != 2 {
            return Err(StorageError::CommandSyntaxError(join_with_spaces(command)));
        }
        let now = now_millis();
        let output = self.get_at(command[1].clone(), now);
        proof {
            assert(command.deep_view()[1] == command@[1]@);
            assert(command.deep_view().len() == command@.len());
        }
        match output {
            Ok(Some(v)) => Ok(RESP::BulkString(v)),
            Ok(None) => Ok(RESP::Null),
            Err(_) => Err(StorageError::CommandInternalError(join_with_spaces(command))),
        }
    }

    /// Writes the named key, parsing the option tail first.
    pub fn command_set(&mut self, command: &Vec<String>) -> (r: StorageResult<RESP>)
        requires
            old(self).wf(),
        ensures
            final(self).wf(),
            set_command_post(old(self)@, final(self)@, command.deep_view(), r),
    {
        if command.len() < 3 {
            return Err(StorageError::CommandSyntaxError(join_with_spaces(command)));
        }
        let key = command[1].clone();
        let value = command[2].clone();
        let mut tail: Vec<String> = Vec::new();
        let mut i: usize = 3;
        while i < command.len()
            invariant
                3 <= i <= command@.len(),
                command@.len() >= 3,
                tail.deep_view() == command.deep_view().subrange(3, i as int),
            decreases command@.len() - i,
        {
            let ghost dv_before = tail.deep_view();
            let ghost seq_before = tail@;
            tail.push(command[i].clone());
            proof {
                assert(command.deep_view()[i as int] == command@[i as int]@);
                assert forall|k: int| 0 <= k < tail.deep_view().len() implies tail.deep_view()[k]
                    == command.deep_view().subrange(3, i as int + 1)[k] by {
                    assert(tail.deep_view()[k] == tail@[k]@);
                    if k < dv_before.len() {
                        assert(tail@[k] == seq_before[k]);
                        assert(dv_before[k] == seq_before[k]@);
                    }
                }
                assert(dv_before == command.deep_view().subrange(3, i as int));
                assert(dv_before.len() == i - 3);
                assert(tail@.len() == seq_before.len() + 1);
                assert(tail.deep_view().len() == tail@.len());
                assert(tail.deep_view().len() == command.deep_view().subrange(
                    3,
                    i as int + 1,
                ).len());
                assert(tail.deep_view() =~= command.deep_view().subrange(3, i as int + 1));
            }
            i = i + 1;
        }
        proof {
            assert(command.deep_view().subrange(3, command.deep_view().len() as int)
                =~= command.deep_view().skip(3));
            assert(command.deep_view()[1] == command@[1]@);
            assert(command.deep_view()[2] == command@[2]@);
        }
        match parse_set_arguments(&tail) {
            Ok(args) => {
                let now = now_millis();
                let _ = self.set_at(key, value, args, now);
                Ok(RESP::SimpleString(String::from_str("OK")))
            },
            Err(e) => Err(e),
        }
    }

    /// Routes a tokenised command by its case-insensitive name.
    pub fn process_command(&mut self, command: &Vec<String>) -> (r: StorageResult<RESP>)
        requires
            old(self).wf(),
            command@.len() >= 1,
            ci_equal(command.deep_view()[0], "echo"@) ==> command@.len() >= 2,
        ensures
            final(self).wf(),
            ({
                let c = command.deep_view();
                if ci_equal(c[0], "ping"@) {
                    *final(self) == *old(self) && (r matches Ok(v) && v@ == RespModel::SimpleString(
                        "PONG"@,
                    ))
                } else if ci_equal(c[0], "echo"@) {
                    *final(self) == *old(self) && (r matches Ok(v) && v@ == RespModel::BulkString(
                        c[1],
                    ))
                } else if ci_equal(c[0], "get"@) {
                    get_command_post(old(self)@, final(self)@, c, r)
                } else if ci_equal(c[0], "set"@) {
                    set_command_post(old(self)@, final(self)@, c, r)
                } else {
                    *final(self) == *old(self) && (r matches Err(e)
                        && e matches StorageError::CommandNotAvailable(s) && s@ == c[0])
                }
            }),
    {
        proof {
            assert(command.deep_view()[0] == command@[0]@);
        }
        if eq_ignore_case(&command[0], "ping") {
            self.command_ping(command)
        } else if eq_ignore_case(&command[0], "echo") {
            self.command_echo(command)
        } else if eq_ignore_case(&command[0], "get") {
            self.command_get(command)
        } else if eq_ignore_case(&command[0], "set") {
            self.command_set(command)
        } else {
            Err(StorageError::CommandNotAvailable(command[0].clone()))
        }
    }

    /// Sweeps expired keys as of the current instant.
    pub fn expire_keys(&mut self)
        requires
            old(self).wf(),
        ensures
            final(self).wf(),
            exists|now: u64| final(self)@ == spec_expire_state(old(self)@, now),
            old(self).active_expiry == false ==> *final(self) == *old(self),
    {
        let now = now_millis();
        self.expire_keys_at(now);
    }
}


// ---------------------------------------------------------------------------
// Laws of the key lifecycle.
// ---------------------------------------------------------------------------

/// Reads are idempotent: while a key's deadline has not passed, a read
/// changes nothing, and a second read while it still has not passed
/// returns the same value.
pub proof fn lemma_get_idempotent(m: StoreModel, k: Seq<char>, now1: u64, now2: u64)
    requires
        !expired_at(m, k, now1),
        !expired_at(m, k, now2),
    ensures
        spec_get_state(m, k, now1) == m,
        spec_get_value(spec_get_state(m, k, now1), k, now2) == spec_get_value(m, k, now1),
{
}

/// A read never mutates the store except to drop an expired key from both
/// maps.
pub proof fn lemma_get_mutates_only_expired(m: StoreModel, k: Seq<char>, now: u64)
    ensures
        !expired_at(m, k, now) ==> spec_get_state(m, k, now) == m,
        expired_at(m, k, now) ==> spec_get_state(m, k, now) == (StoreModel {
            store: m.store.remove(k),
            expiry: m.expiry.remove(k),
            active_expiry: m.active_expiry,
        }),
{
}

/// Expiry is monotone through the lazy path: once a read has dropped a key
/// past its deadline, every later read before a new write finds nothing
/// and changes nothing.
pub proof fn lemma_expiry_monotonic_get(m: StoreModel, k: Seq<char>, now0: u64, now: u64)
    requires
        expired_at(m, k, now0),
    ensures
        spec_get_value(spec_get_state(m, k, now0), k, now) is None,
        spec_get_state(spec_get_state(m, k, now0), k, now) == spec_get_state(m, k, now0),
{
}

/// Expiry is monotone through the sweep: once the active sweep has dropped
/// a key past its deadline, every later read before a new write finds
/// nothing and changes nothing.
pub proof fn lemma_expiry_monotonic_sweep(m: StoreModel, k: Seq<char>, now0: u64, now: u64)
    requires
        m.active_expiry,
        m.expiry.contains_key(k),
        m.expiry[k] < now0,
    ensures
        spec_get_value(spec_expire_state(m, now0), k, now) is None,
        spec_get_state(spec_expire_state(m, now0), k, now) == spec_expire_state(m, now0),
{
    assert(expired_set(m, now0).contains(k));
}

/// A second write overwrites: after writing `v1` and then `v2` without a
/// time-to-live, every read finds `v2`, and no deadline from the first
/// write survives.
pub proof fn lemma_set_overwrites(
    m: StoreModel,
    k: Seq<char>,
    v1: Seq<char>,
    v2: Seq<char>,
    e1: Option<KeyExpiry>,
    now1: u64,
    now2: u64,
    now3: u64,
)
    ensures
        ({
            let m2 = spec_set_state(spec_set_state(m, k, v1, e1, now1), k, v2, None, now2);
            &&& spec_get_value(m2, k, now3) == Some(v2)
            &&& !m2.expiry.contains_key(k)
            &&& spec_get_state(m2, k, now3) == m2
        }),
{
}

/// The cross-map invariant of the engine: every recorded deadline belongs
/// to a stored entry with a time-to-live, and equals that entry's creation
/// instant plus its time-to-live, saturating at the largest instant.
pub open spec fn deadlines_consistent(m: StoreModel) -> bool {
    forall|k: Seq<char>|
        #[trigger] m.expiry.contains_key(k) ==> m.store.contains_key(k) && (m.store[k].ttl matches
        Some(t) && m.expiry[k] == sat_u64(m.store[k].creation as int + t as int))
}

/// A write preserves the cross-map invariant.
pub proof fn lemma_set_preserves_consistency(
    m: StoreModel,
    k: Seq<char>,
    v: Seq<char>,
    e: Option<KeyExpiry>,
    now: u64,
)
    requires
        deadlines_consistent(m),
    ensures
        deadlines_consistent(spec_set_state(m, k, v, e, now)),
{
}

/// A read preserves the cross-map invariant.
pub proof fn lemma_get_preserves_consistency(m: StoreModel, k: Seq<char>, now: u64)
    requires
        deadlines_consistent(m),
    ensures
        deadlines_consistent(spec_get_state(m, k, now)),
{
}

/// The sweep preserves the cross-map invariant.
pub proof fn lemma_expire_preserves_consistency(m: StoreModel, now: u64)
    requires
        deadlines_consistent(m),
    ensures
        deadlines_consistent(spec_expire_state(m, now)),
{
}

} // verus!
