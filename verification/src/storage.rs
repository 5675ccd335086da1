//! The storage engine: keyed strings with an optional time to live, lazy
//! expiry on reads and a sweep that removes what is due.
//!
//! Every operation that depends on the time exists in a form that takes the
//! moment as an argument and says exactly what it does; the form without
//! that argument reads the system clock and does the same for whatever the
//! clock said. What the operations do is stated over [`StorageView`].
use crate::clock::{deadline_of, system_time, Timestamp};
use crate::model::{
    found_text, lemma_sweep_consistent, reply, StorageDataView, StorageValueView, StorageView,
};
use crate::resp::{Value, RESP};
use crate::set::{parse_set_arguments, SetArgs};
use crate::storage_result::{StorageError, StorageErrorView, StorageResult};
use crate::text::{eq_ignore_case, join_words, texts};
use vstd::hash_map::StringHashMap;
use vstd::prelude::*;
use vstd::std_specs::cmp::PartialEqSpecImpl;
use vstd::std_specs::convert::FromSpecImpl;

verus! {

/// What a key holds.
#[derive(Debug, PartialEq)]
pub enum StorageValue {
    String(String),
}

impl View for StorageValue {
    type V = StorageValueView;

    open spec fn view(&self) -> StorageValueView {
        match self {
            StorageValue::String(text) => StorageValueView::String(text@),
        }
    }
}

/// One entry of the keyspace.
#[derive(Debug)]
pub struct StorageData {
    pub value: StorageValue,
    /// When the entry was written.
    pub created_at: Timestamp,
    /// From when on the entry is gone, if ever.
    pub expiry: Option<Timestamp>,
}

impl View for StorageData {
    type V = StorageDataView;

    open spec fn view(&self) -> StorageDataView {
        StorageDataView { value: self.value@, created_at: self.created_at, expiry: self.expiry }
    }
}

impl StorageData {
    /// An entry written at `created_at` that never expires.
    pub fn new(value: String, created_at: Timestamp) -> (r: Self)
        ensures
            r@ == (StorageDataView {
                value: StorageValueView::String(value@),
                created_at,
                expiry: None,
            }),
    {
        StorageData { value: StorageValue::String(value), created_at, expiry: None }
    }

    /// Lets the entry expire at `expiry`.
    pub fn add_expiry(&mut self, expiry: Timestamp)
        ensures
            final(self)@ == (StorageDataView { expiry: Some(expiry), ..old(self)@ }),
    {
        self.expiry = Some(expiry);
    }
}

impl From<String> for StorageData {
    /// An entry written now, by the system clock, that never expires.
    fn from(s: String) -> (r: StorageData)
        ensures
            r@.value == StorageValueView::String(s@),
            r@.expiry is None,
    {
        StorageData::new(s, system_time())
    }
}

impl FromSpecImpl<String> for StorageData {
    open spec fn obeys_from_spec() -> bool {
        false
    }

    open spec fn from_spec(s: String) -> StorageData {
        StorageData { value: StorageValue::String(s), created_at: arbitrary(), expiry: None }
    }
}

impl PartialEq for StorageData {
    /// Entries are equal if they hold the same value and expire at the same
    /// moment, whenever they were written.
    fn eq(&self, other: &Self) -> (r: bool) {
        let same_value = match (&self.value, &other.value) {
            (StorageValue::String(a), StorageValue::String(b)) => *a == *b,
        };
        let same_expiry = match (self.expiry, other.expiry) {
            (Some(a), Some(b)) => a == b,
            (None, None) => true,
            _ => false,
        };
        same_value && same_expiry
    }
}

impl PartialEqSpecImpl for StorageData {
    open spec fn obeys_eq_spec() -> bool {
        true
    }

    open spec fn eq_spec(&self, other: &StorageData) -> bool {
        self@.value == other@.value && self@.expiry == other@.expiry
    }
}

/// Whether `keys` names the keys of `index`, each of them once.
spec fn lists(keys: Seq<Seq<char>>, index: Map<Seq<char>, Timestamp>) -> bool {
    &&& forall|i: int| 0 <= i < keys.len() ==> index.contains_key(#[trigger] keys[i])
    &&& forall|key: Seq<char>| #[trigger]
        index.contains_key(key) ==> exists|i: int| 0 <= i < keys.len() && keys[i] == key
    &&& forall|i: int, j: int| 0 <= i < j < keys.len() ==> #[trigger] keys[i] != #[trigger] keys[j]
}

/// Takes `key` off `keys`.
fn forget(keys: &mut Vec<String>, key: &String, Ghost(index): Ghost<Map<Seq<char>, Timestamp>>)
    requires
        lists(texts(old(keys)@), index),
    ensures
        lists(texts(final(keys)@), index.remove(key@)),
{
    let mut i: usize = 0;
    while i < keys.len()
        invariant
            i <= keys.len(),
            keys@ == old(keys)@,
            lists(texts(keys@), index),
            forall|j: int| 0 <= j < i ==> keys[j]@ != key@,
        decreases keys.len() - i,
    {
        if keys[i] == *key {
            let ghost before = texts(keys@);
            keys.swap_remove(i);
            proof {
                let after = texts(keys@);
                let last = before.len() - 1;
                assert forall|j: int| 0 <= j < after.len() implies after[j] == (if j == i {
                    before[last]
                } else {
                    before[j]
                }) by {}
                assert forall|k: Seq<char>| #[trigger]
                    index.remove(key@).contains_key(k) implies exists|j: int|
                    0 <= j < after.len() && after[j] == k by {
                    let w = choose|w: int| 0 <= w < before.len() && before[w] == k;
                    if w == last {
                        assert(after[i as int] == k);
                    } else {
                        assert(after[w] == k);
                    }
                }
                assert forall|a: int, b: int| 0 <= a < b < after.len() implies #[trigger] after[a]
                    != #[trigger] after[b] by {
                    let from_a = if a == i { last } else { a };
                    let from_b = if b == i { last } else { b };
                    assert(after[a] == before[from_a]);
                    assert(after[b] == before[from_b]);
                    if from_a < from_b {
                        assert(before[from_a] != before[from_b]);
                    } else {
                        assert(before[from_b] != before[from_a]);
                    }
                }
                assert forall|j: int| 0 <= j < after.len() implies index.remove(
                    key@,
                ).contains_key(#[trigger] after[j]) by {
                    let from = if j == i { last } else { j };
                    assert(after[j] == before[from]);
                    assert(index.contains_key(before[from]));
                    if from < i {
                        assert(before[from] != before[i as int]);
                    } else {
                        assert(before[i as int] != before[from]);
                    }
                }
            }
            return ;
        }
        i = i + 1;
    }
    proof {
        let all = texts(keys@);
        assert(!index.contains_key(key@)) by {
            if index.contains_key(key@) {
                let w = choose|w: int| 0 <= w < all.len() && all[w] == key@;
                assert(keys[w]@ == key@);
            }
        }
        assert(index.remove(key@) =~= index);
    }
}

/// The keys of `index` that are due at `now` and stand among the first
/// `upto` of `keys`.
spec fn swept(keys: Seq<Seq<char>>, index: Map<Seq<char>, Timestamp>, now: Timestamp, upto: int) -> Set<
    Seq<char>,
> {
    Set::new(
        |key: Seq<char>|
            index.contains_key(key) && index[key] <= now && exists|j: int|
                0 <= j < upto && keys[j] == key,
    )
}

/// The first `upto` of `keys` without those that are due at `now`.
spec fn retained(
    keys: Seq<Seq<char>>,
    index: Map<Seq<char>, Timestamp>,
    now: Timestamp,
    upto: int,
) -> Seq<Seq<char>>
    decreases upto,
{
    if upto <= 0 {
        Seq::empty()
    } else if index[keys[upto - 1]] <= now {
        retained(keys, index, now, upto - 1)
    } else {
        retained(keys, index, now, upto - 1).push(keys[upto - 1])
    }
}

/// Whether `key` stands among the first `upto` of `keys` and is not due at
/// `now`.
spec fn stays(
    keys: Seq<Seq<char>>,
    index: Map<Seq<char>, Timestamp>,
    now: Timestamp,
    upto: int,
    key: Seq<char>,
) -> bool {
    exists|j: int| 0 <= j < upto && #[trigger] keys[j] == key && index[key] > now
}

proof fn lemma_retained_stays(
    keys: Seq<Seq<char>>,
    index: Map<Seq<char>, Timestamp>,
    now: Timestamp,
    upto: int,
    a: int,
)
    requires
        0 <= upto <= keys.len(),
        0 <= a < retained(keys, index, now, upto).len(),
    ensures
        stays(keys, index, now, upto, retained(keys, index, now, upto)[a]),
    decreases upto,
{
    let before = retained(keys, index, now, upto - 1);
    if a < before.len() {
        lemma_retained_stays(keys, index, now, upto - 1, a);
        let j = choose|j: int|
            0 <= j < upto - 1 && #[trigger] keys[j] == before[a] && index[before[a]] > now;
        assert(keys[j] == before[a]);
    } else {
        assert(keys[upto - 1] == retained(keys, index, now, upto)[a]);
    }
}

proof fn lemma_stays_retained(
    keys: Seq<Seq<char>>,
    index: Map<Seq<char>, Timestamp>,
    now: Timestamp,
    upto: int,
    j: int,
) -> (a: int)
    requires
        0 <= j < upto <= keys.len(),
        index[keys[j]] > now,
    ensures
        0 <= a < retained(keys, index, now, upto).len(),
        retained(keys, index, now, upto)[a] == keys[j],
    decreases upto,
{
    let before = retained(keys, index, now, upto - 1);
    if j < upto - 1 {
        lemma_stays_retained(keys, index, now, upto - 1, j)
    } else {
        before.len() as int
    }
}

proof fn lemma_retained_distinct(
    keys: Seq<Seq<char>>,
    index: Map<Seq<char>, Timestamp>,
    now: Timestamp,
    upto: int,
    a: int,
    b: int,
)
    requires
        lists(keys, index),
        0 <= upto <= keys.len(),
        0 <= a < b < retained(keys, index, now, upto).len(),
    ensures
        retained(keys, index, now, upto)[a] != retained(keys, index, now, upto)[b],
    decreases upto,
{
    let before = retained(keys, index, now, upto - 1);
    if b < before.len() {
        lemma_retained_distinct(keys, index, now, upto - 1, a, b);
    } else {
        lemma_retained_stays(keys, index, now, upto - 1, a);
        let j = choose|j: int|
            0 <= j < upto - 1 && #[trigger] keys[j] == before[a] && index[before[a]] > now;
        assert(keys[j] != keys[upto - 1]);
    }
}

/// What is left of a list of the index's keys after a sweep lists what is
/// left of the index.
proof fn lemma_sweep_lists(keys: Seq<Seq<char>>, index: Map<Seq<char>, Timestamp>, now: Timestamp)
    requires
        lists(keys, index),
    ensures
        swept(keys, index, now, keys.len() as int) == Set::new(
            |key: Seq<char>| index.contains_key(key) && index[key] <= now,
        ),
        lists(
            retained(keys, index, now, keys.len() as int),
            index.remove_keys(swept(keys, index, now, keys.len() as int)),
        ),
{
    let n = keys.len() as int;
    let due = Set::new(|key: Seq<char>| index.contains_key(key) && index[key] <= now);
    assert(swept(keys, index, now, n) =~= due);
    let left = index.remove_keys(due);
    let kept = retained(keys, index, now, n);
    assert forall|a: int| 0 <= a < kept.len() implies left.contains_key(#[trigger] kept[a]) by {
        lemma_retained_stays(keys, index, now, n, a);
        let j = choose|j: int| 0 <= j < n && #[trigger] keys[j] == kept[a] && index[kept[a]] > now;
        assert(index.contains_key(keys[j]));
    }
    assert forall|key: Seq<char>| #[trigger] left.contains_key(key) implies exists|a: int|
        0 <= a < kept.len() && kept[a] == key by {
        assert(index.contains_key(key));
        let j = choose|j: int| 0 <= j < n && keys[j] == key;
        let a = lemma_stays_retained(keys, index, now, n, j);
        assert(kept[a] == key);
    }
    assert forall|a: int, b: int| 0 <= a < b < kept.len() implies #[trigger] kept[a]
        != #[trigger] kept[b] by {
        lemma_retained_distinct(keys, index, now, n, a, b);
    }
}

/// What the engine holds.
struct State {
    /// The keyspace.
    store: StringHashMap<StorageData>,
    /// The expiry index.
    expiry: StringHashMap<Timestamp>,
    /// The keys of `expiry`, each once: what the sweep walks.
    expiring: Vec<String>,
    active_expiry: bool,
}

impl View for State {
    type V = StorageView;

    closed spec fn view(&self) -> StorageView {
        StorageView {
            store: self.store@.map_values(|data: StorageData| data@),
            expiry: self.expiry@,
            active_expiry: self.active_expiry,
        }
    }
}

impl State {
    /// The keyspace and the index go together, and the list of expiring keys
    /// matches the index.
    closed spec fn wf(&self) -> bool {
        self@.consistent() && lists(texts(self.expiring@), self.expiry@)
    }

    /// An empty state with the sweep switched on.
    fn new() -> (r: Self)
        ensures
            r.wf(),
            r@.store == Map::<Seq<char>, StorageDataView>::empty(),
            r@.expiry == Map::<Seq<char>, Timestamp>::empty(),
            r@.active_expiry,
    {
        let r = State {
            store: StringHashMap::new(),
            expiry: StringHashMap::new(),
            expiring: Vec::new(),
            active_expiry: true,
        };
        assert(r@.store =~= Map::<Seq<char>, StorageDataView>::empty());
        r
    }

    /// Switches the sweep on or off.
    fn set_active_expiry(&mut self, active: bool)
        requires
            old(self).wf(),
        ensures
            final(self).wf(),
            final(self)@ == (StorageView { active_expiry: active, ..old(self)@ }),
    {
        self.active_expiry = active;
    }

    /// Writes the entry of `key`, and enters the key in the index or takes
    /// it out.
    fn set_at(&mut self, key: String, value: String, args: SetArgs, now: Timestamp) -> (r:
        StorageResult<String>)
        requires
            old(self).wf(),
        ensures
            final(self).wf(),
            final(self)@ == old(self)@.after_set(key@, value@, args.expiry, now),
            r matches Ok(text) && text@ == "OK"@,
    {
        let mut data = StorageData::new(value, now);
        match args.expiry {
            Some(expiry) => {
                let at = deadline_of(now, expiry);
                data.add_expiry(at);
                if !self.expiry.contains_key(key.as_str()) {
                    let ghost before = texts(self.expiring@);
                    self.expiring.push(key.clone());
                    proof {
                        let after = texts(self.expiring@);
                        assert(after =~= before.push(key@));
                        assert forall|k: Seq<char>| #[trigger]
                            self.expiry@.insert(key@, at).contains_key(k) implies exists|i: int|
                            0 <= i < after.len() && after[i] == k by {
                            if k == key@ {
                                assert(after[before.len() as int] == k);
                            } else {
                                let w = choose|w: int| 0 <= w < before.len() && before[w] == k;
                                assert(after[w] == k);
                            }
                        }
                        assert(lists(after, self.expiry@.insert(key@, at)));
                    }
                } else {
                    proof {
                        let listed = texts(self.expiring@);
                        assert forall|k: Seq<char>| #[trigger]
                            self.expiry@.insert(key@, at).contains_key(k) implies exists|i: int|
                            0 <= i < listed.len() && listed[i] == k by {
                            assert(self.expiry@.contains_key(k));
                        }
                    }
                }
                self.expiry.insert(key.clone(), at);
            },
            None => {
                if self.expiry.contains_key(key.as_str()) {
                    self.expiry.remove(key.as_str());
                    forget(&mut self.expiring, &key, Ghost(old(self).expiry@));
                } else {
                    assert(self.expiry@.remove(key@) =~= self.expiry@);
                }
            },
        }
        self.store.insert(key, data);
        proof {
            let goal = old(self)@.after_set(key@, value@, args.expiry, now);
            assert(self@.store =~= goal.store);
            assert(self@.expiry =~= goal.expiry);
        }
        Ok("OK".to_string())
    }

    /// Looks `key` up in the index first, removes it everywhere if it is
    /// due, and reads its entry if not.
    fn get_at(&mut self, key: String, now: Timestamp) -> (r: StorageResult<Option<String>>)
        requires
            old(self).wf(),
        ensures
            final(self).wf(),
            final(self)@ == old(self)@.after_get(key@, now),
            r matches Ok(found) && found_text(found) == old(self)@.lookup(key@, now),
    {
        let due = match self.expiry.get(key.as_str()) {
            Some(at) => *at <= now,
            None => false,
        };
        if due {
            self.expiry.remove(key.as_str());
            self.store.remove(key.as_str());
            forget(&mut self.expiring, &key, Ghost(old(self).expiry@));
            proof {
                let goal = old(self)@.without(key@);
                assert(self@.store =~= goal.store);
                assert(self@.expiry =~= goal.expiry);
            }
            return Ok(None);
        }
        match self.store.get(key.as_str()) {
            Some(data) => match &data.value {
                StorageValue::String(text) => Ok(Some(text.clone())),
            },
            None => Ok(None),
        }
    }

    /// Walks the keys of the index, removes those that are due everywhere,
    /// and keeps a list of the others.
    fn expire_keys_at(&mut self, now: Timestamp)
        requires
            old(self).wf(),
        ensures
            final(self).wf(),
            final(self)@ == old(self)@.after_sweep(now),
    {
        if !self.active_expiry {
            return ;
        }
        let ghost index = self.expiry@;
        let ghost entries = self.store@;
        let ghost keys = texts(self.expiring@);
        let mut kept: Vec<String> = Vec::new();
        let mut i: usize = 0;
        assert(self.expiry@ =~= index.remove_keys(swept(keys, index, now, 0)));
        assert(self.store@ =~= entries.remove_keys(swept(keys, index, now, 0)));
        while i < self.expiring.len()
            invariant
                i <= self.expiring.len(),
                self.active_expiry,
                keys == texts(self.expiring@),
                lists(keys, index),
                self.expiry@ == index.remove_keys(swept(keys, index, now, i as int)),
                self.store@ == entries.remove_keys(swept(keys, index, now, i as int)),
                texts(kept@) == retained(keys, index, now, i as int),
            decreases self.expiring.len() - i,
        {
            let key = &self.expiring[i];
            assert(keys[i as int] == key@);
            assert(index.contains_key(keys[i as int]));
            let ghost gone = swept(keys, index, now, i as int);
            let ghost next = swept(keys, index, now, i + 1);
            assert(!gone.contains(key@)) by {
                if gone.contains(key@) {
                    let j = choose|j: int| 0 <= j < i && keys[j] == key@;
                    assert(keys[j] != keys[i as int]);
                }
            }
            let due = match self.expiry.get(key.as_str()) {
                Some(at) => *at <= now,
                None => false,
            };
            if due {
                self.expiry.remove(key.as_str());
                self.store.remove(key.as_str());
                proof {
                    assert(next =~= gone.insert(key@));
                    assert(self.expiry@ =~= index.remove_keys(next));
                    assert(self.store@ =~= entries.remove_keys(next));
                }
            } else {
                let ghost before = texts(kept@);
                kept.push(key.clone());
                proof {
                    assert(next =~= gone);
                    assert(texts(kept@) =~= before.push(key@));
                }
            }
            i = i + 1;
        }
        self.expiring = kept;
        proof {
            lemma_sweep_lists(keys, index, now);
            lemma_sweep_consistent(old(self)@, now);
            let goal = old(self)@.after_sweep(now);
            assert(swept(keys, index, now, keys.len() as int) =~= old(self)@.due(now));
            assert(self@.expiry =~= goal.expiry);
            assert(self@.store =~= goal.store);
        }
    }
}

/// The storage engine. Whatever is done to it, its keyspace and its expiry
/// index go together in the sense of [`StorageView::consistent`].
///
/// An operation that changes the state takes it out of the engine, changes
/// it, and puts it back; in between the engine holds an empty state. So the
/// engine is in order at every moment, also where a change does not come to
/// its end.
pub struct Storage {
    state: State,
}

impl View for Storage {
    type V = StorageView;

    closed spec fn view(&self) -> StorageView {
        self.state@
    }
}

impl Storage {
    #[verifier::type_invariant]
    spec fn inv(self) -> bool {
        self.state.wf()
    }

    /// An empty engine with the sweep switched on.
    pub fn new() -> (r: Self)
        ensures
            r@.consistent(),
            r@.store == Map::<Seq<char>, StorageDataView>::empty(),
            r@.expiry == Map::<Seq<char>, Timestamp>::empty(),
            r@.active_expiry,
    {
        Storage { state: State::new() }
    }

    /// Switches the sweep on or off.
    pub fn set_active_expiry(&mut self, active: bool)
        ensures
            final(self)@.consistent(),
            final(self)@ == (StorageView { active_expiry: active, ..old(self)@ }),
    {
        proof {
            use_type_invariant(&*self);
        }
        let mut state = State::new();
        std::mem::swap(&mut self.state, &mut state);
        state.set_active_expiry(active);
        std::mem::swap(&mut self.state, &mut state);
    }

    /// Sets `key` to `value` at the moment `now`.
    pub fn set_at(&mut self, key: String, value: String, args: SetArgs, now: Timestamp) -> (r:
        StorageResult<String>)
        ensures
            final(self)@.consistent(),
            final(self)@ == old(self)@.after_set(key@, value@, args.expiry, now),
            r matches Ok(text) && text@ == "OK"@,
    {
        proof {
            use_type_invariant(&*self);
        }
        let mut state = State::new();
        std::mem::swap(&mut self.state, &mut state);
        let r = state.set_at(key, value, args, now);
        std::mem::swap(&mut self.state, &mut state);
        r
    }

    /// Reads `key` at the moment `now`. A key that is due is removed from the
    /// keyspace and from the index, and reads as absent.
    pub fn get_at(&mut self, key: String, now: Timestamp) -> (r: StorageResult<Option<String>>)
        ensures
            final(self)@.consistent(),
            final(self)@ == old(self)@.after_get(key@, now),
            r matches Ok(found) && found_text(found) == old(self)@.lookup(key@, now),
    {
        proof {
            use_type_invariant(&*self);
        }
        let mut state = State::new();
        std::mem::swap(&mut self.state, &mut state);
        let r = state.get_at(key, now);
        std::mem::swap(&mut self.state, &mut state);
        r
    }

    /// Sweeps at the moment `now`: where the sweep is switched on, removes
    /// every key that is due from the keyspace and from the index.
    pub fn expire_keys_at(&mut self, now: Timestamp)
        ensures
            final(self)@.consistent(),
            final(self)@ == old(self)@.after_sweep(now),
    {
        proof {
            use_type_invariant(&*self);
        }
        let mut state = State::new();
        std::mem::swap(&mut self.state, &mut state);
        state.expire_keys_at(now);
        std::mem::swap(&mut self.state, &mut state);
    }

    /// Sets `key` to `value` at the moment that the system clock shows.
    pub fn set(&mut self, key: String, value: String, args: SetArgs) -> (r: StorageResult<String>)
        ensures
            final(self)@.consistent(),
            old(self)@.sets_to(key@, value@, args.expiry, final(self)@),
            r matches Ok(text) && text@ == "OK"@,
    {
        let now = system_time();
        let r = self.set_at(key, value, args, now);
        assert(old(self)@.after_set(key@, value@, args.expiry, now) == self@);
        r
    }

    /// Reads `key` at the moment that the system clock shows.
    pub fn get(&mut self, key: String) -> (r: StorageResult<Option<String>>)
        ensures
            final(self)@.consistent(),
            r matches Ok(found) && old(self)@.gets_to(key@, found_text(found), final(self)@),
    {
        let now = system_time();
        let r = self.get_at(key, now);
        assert(old(self)@.after_get(key@, now) == self@);
        r
    }

    /// Sweeps at the moment that the system clock shows.
    pub fn expire_keys(&mut self)
        ensures
            final(self)@.consistent(),
            old(self)@.sweeps_to(final(self)@),
    {
        let now = system_time();
        self.expire_keys_at(now);
        assert(old(self)@.after_sweep(now) == self@);
    }

    /// `PING`.
    pub fn command_ping(&self, _command: &Vec<String>) -> (r: StorageResult<RESP>)
        ensures
            reply(r) == Ok::<Value, StorageErrorView>(Value::SimpleString("PONG"@)),
    {
        Ok(RESP::SimpleString("PONG".to_string()))
    }

    /// `ECHO`.
    pub fn command_echo(&self, command: &Vec<String>) -> (r: StorageResult<RESP>)
        ensures
            reply(r) == self@.run_echo(texts(command@)),
    {
        if command.len() != 2 {
            return Err(StorageError::CommandSyntaxError(join_words(command)));
        }
        Ok(RESP::BulkString(command[1].clone()))
    }

    /// `GET` at the moment `now`.
    pub fn command_get(&mut self, command: &Vec<String>, now: Timestamp) -> (r: StorageResult<
        RESP,
    >)
        ensures
            final(self)@.consistent(),
            (reply(r), final(self)@) == old(self)@.run_get(texts(command@), now),
    {
        proof {
            use_type_invariant(&*self);
        }
        if command.len() != 2 {
            return Err(StorageError::CommandSyntaxError(join_words(command)));
        }
        let key = command[1].clone();
        match self.get_at(key, now) {
            Ok(Some(value)) => Ok(RESP::BulkString(value)),
            Ok(None) => Ok(RESP::Null),
            Err(e) => Err(e),
        }
    }

    /// `SET` at the moment `now`.
    pub fn command_set(&mut self, command: &Vec<String>, now: Timestamp) -> (r: StorageResult<
        RESP,
    >)
        ensures
            final(self)@.consistent(),
            (reply(r), final(self)@) == old(self)@.run_set(texts(command@), now),
    {
        proof {
            use_type_invariant(&*self);
        }
        if command.len() < 3 {
            return Err(StorageError::CommandSyntaxError(join_words(command)));
        }
        let key = command[1].clone();
        let value = command[2].clone();
        let mut options: Vec<String> = Vec::new();
        let mut i: usize = 3;
        while i < command.len()
            invariant
                3 <= i <= command.len(),
                texts(options@) == texts(command@).subrange(3, i as int),
            decreases command.len() - i,
        {
            let ghost before = texts(options@);
            options.push(command[i].clone());
            assert(texts(options@) =~= before.push(command[i as int]@));
            i = i + 1;
            assert(texts(options@) =~= texts(command@).subrange(3, i as int));
        }
        assert(texts(options@) =~= texts(command@).skip(3));
        let args = parse_set_arguments(&options)?;
        let _ = self.set_at(key, value, args, now);
        Ok(RESP::SimpleString("OK".to_string()))
    }

    /// Carries out `command` at the moment `now`.
    pub fn process_command_at(&mut self, command: &Vec<String>, now: Timestamp) -> (r:
        StorageResult<RESP>)
        ensures
            final(self)@.consistent(),
            (reply(r), final(self)@) == old(self)@.run(texts(command@), now),
    {
        proof {
            use_type_invariant(&*self);
        }
        if command.len() == 0 {
            return Err(StorageError::IncorrectRequest);
        }
        let name = command[0].as_str();
        if eq_ignore_case(name, "ping") {
            self.command_ping(command)
        } else if eq_ignore_case(name, "echo") {
            self.command_echo(command)
        } else if eq_ignore_case(name, "get") {
            self.command_get(command, now)
        } else if eq_ignore_case(name, "set") {
            self.command_set(command, now)
        } else {
            Err(StorageError::CommandNotAvailable(command[0].clone()))
        }
    }

    /// Carries out `command` at the moment that the system clock shows.
    pub fn process_command(&mut self, command: &Vec<String>) -> (r: StorageResult<RESP>)
        ensures
            final(self)@.consistent(),
            old(self)@.runs_to(texts(command@), reply(r), final(self)@),
    {
        let now = system_time();
        let r = self.process_command_at(command, now);
        assert(old(self)@.run(texts(command@), now) == (reply(r), self@));
        r
    }

    /// Does nothing but let the caller know that the keyspace and the index
    /// go together.
    pub fn in_order(&self)
        ensures
            self@.consistent(),
    {
        proof {
            use_type_invariant(self);
        }
    }

    /// How many keys the keyspace holds, those that are due and not yet
    /// removed included.
    pub fn len(&self) -> (n: usize)
        ensures
            n == self@.store.len(),
    {
        assert(self@.store.dom() =~= self.state.store@.dom());
        self.state.store.len()
    }

    /// How many keys the expiry index holds.
    pub fn expiry_len(&self) -> (n: usize)
        ensures
            n == self@.expiry.len(),
    {
        self.state.expiry.len()
    }

    /// Whether the sweep is switched on.
    pub fn active_expiry(&self) -> (active: bool)
        ensures
            active == self@.active_expiry,
    {
        self.state.active_expiry
    }

    /// The entry under `key` as it lies in the keyspace, due or not.
    pub fn entry(&self, key: &str) -> (r: Option<&StorageData>)
        ensures
            match r {
                Some(data) => self@.store.contains_key(key@) && self@.store[key@] == data@,
                None => !self@.store.contains_key(key@),
            },
    {
        self.state.store.get(key)
    }

    /// The moment from which `key` is gone, as the expiry index has it.
    pub fn expires_at(&self, key: &str) -> (r: Option<Timestamp>)
        ensures
            match r {
                Some(at) => self@.expiry.contains_key(key@) && self@.expiry[key@] == at,
                None => !self@.expiry.contains_key(key@),
            },
    {
        match self.state.expiry.get(key) {
            Some(at) => Some(*at),
            None => None,
        }
    }
}

} // verus!
