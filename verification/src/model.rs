//! The engine as mathematics: the keyspace and the expiry index as maps, and
//! what each operation makes of them at a given moment. The contracts of
//! [`crate::storage::Storage`] are stated over this model, and its laws are
//! proved here.
use crate::clock::{deadline, Timestamp};
use crate::resp::{crlf_at, Value, RESP};
use crate::round_trip::{has_terminator, reproducible, short};
use crate::set::{set_options, KeyExpiry};
use crate::storage_result::{StorageErrorView, StorageResult};
use crate::text::{joined, same_ignoring_case};
use vstd::prelude::*;
use vstd::utf8::{encode_utf8, is_ascii_chars};

verus! {

/// The mathematical content of a [`crate::storage::StorageValue`].
pub enum StorageValueView {
    String(Seq<char>),
}

/// The mathematical content of a [`crate::storage::StorageData`].
pub struct StorageDataView {
    pub value: StorageValueView,
    pub created_at: Timestamp,
    pub expiry: Option<Timestamp>,
}

/// The mathematical content of a [`crate::storage::Storage`]: the keyspace, the expiry
/// index, and whether the sweep is switched on.
pub struct StorageView {
    pub store: Map<Seq<char>, StorageDataView>,
    pub expiry: Map<Seq<char>, Timestamp>,
    pub active_expiry: bool,
}

impl StorageView {
    /// The keyspace and the expiry index go together: the index holds
    /// exactly the keys whose entry expires, each with its entry's moment.
    pub open spec fn consistent(self) -> bool {
        &&& self.store.dom().finite()
        &&& self.expiry.dom().finite()
        &&& forall|key: Seq<char>| #[trigger]
            self.expiry.contains_key(key) ==> self.store.contains_key(key) && self.store[key].expiry
                == Some(self.expiry[key])
        &&& forall|key: Seq<char>|
            self.store.contains_key(key) && (#[trigger] self.store[key]).expiry is Some
                ==> self.expiry.contains_key(key)
    }

    /// Whether `key` is due at `now`: the index holds it with a moment that
    /// is not later than `now`.
    pub open spec fn expired(self, key: Seq<char>, now: Timestamp) -> bool {
        self.expiry.contains_key(key) && self.expiry[key] <= now
    }

    /// The state without `key`.
    pub open spec fn without(self, key: Seq<char>) -> StorageView {
        StorageView {
            store: self.store.remove(key),
            expiry: self.expiry.remove(key),
            active_expiry: self.active_expiry,
        }
    }

    /// What a reader finds under `key` at `now`: nothing where the key is due
    /// or was never set, else the text it holds.
    pub open spec fn lookup(self, key: Seq<char>, now: Timestamp) -> Option<Seq<char>> {
        if self.expired(key, now) || !self.store.contains_key(key) {
            None
        } else {
            match self.store[key].value {
                StorageValueView::String(text) => Some(text),
            }
        }
    }

    /// The state after a read of `key` at `now`: without the key if it was
    /// due, else the same.
    pub open spec fn after_get(self, key: Seq<char>, now: Timestamp) -> StorageView {
        if self.expired(key, now) {
            self.without(key)
        } else {
            self
        }
    }

    /// The state after `key` was set to `value` at `now`. The entry is new
    /// whatever was there; it is in the index if and only if `expiry` was
    /// given.
    pub open spec fn after_set(
        self,
        key: Seq<char>,
        value: Seq<char>,
        expiry: Option<KeyExpiry>,
        now: Timestamp,
    ) -> StorageView {
        match expiry {
            Some(expiry) => StorageView {
                store: self.store.insert(
                    key,
                    StorageDataView {
                        value: StorageValueView::String(value),
                        created_at: now,
                        expiry: Some(deadline(now, expiry)),
                    },
                ),
                expiry: self.expiry.insert(key, deadline(now, expiry)),
                active_expiry: self.active_expiry,
            },
            None => StorageView {
                store: self.store.insert(
                    key,
                    StorageDataView {
                        value: StorageValueView::String(value),
                        created_at: now,
                        expiry: None,
                    },
                ),
                expiry: self.expiry.remove(key),
                active_expiry: self.active_expiry,
            },
        }
    }

    /// Whether every value in the keyspace is [`short`].
    pub open spec fn short_values(self) -> bool {
        forall|key: Seq<char>| #[trigger]
            self.store.contains_key(key) ==> match self.store[key].value {
                StorageValueView::String(text) => short(text),
            }
    }

    /// The keys that are due at `now`.
    pub open spec fn due(self, now: Timestamp) -> Set<Seq<char>> {
        Set::new(|key: Seq<char>| self.expired(key, now))
    }

    /// The state after a sweep at `now`: without the keys that are due if
    /// the sweep is switched on, else the same.
    pub open spec fn after_sweep(self, now: Timestamp) -> StorageView {
        if self.active_expiry {
            StorageView {
                store: self.store.remove_keys(self.due(now)),
                expiry: self.expiry.remove_keys(self.due(now)),
                active_expiry: true,
            }
        } else {
            self
        }
    }
}

/// The commands that the engine knows.
pub enum Command {
    PING,
    ECHO,
    GET,
    SET,
}

/// The command that `name` names, whatever the case of its letters.
pub open spec fn command_named(name: Seq<char>) -> Option<Command> {
    if same_ignoring_case(name, "ping"@) {
        Some(Command::PING)
    } else if same_ignoring_case(name, "echo"@) {
        Some(Command::ECHO)
    } else if same_ignoring_case(name, "get"@) {
        Some(Command::GET)
    } else if same_ignoring_case(name, "set"@) {
        Some(Command::SET)
    } else {
        None
    }
}

/// The content of what a read found.
pub open spec fn found_text(found: Option<String>) -> Option<Seq<char>> {
    match found {
        Some(text) => Some(text@),
        None => None,
    }
}

/// The content of a reply, or of the error in its place.
pub open spec fn reply(r: StorageResult<RESP>) -> Result<Value, StorageErrorView> {
    match r {
        Ok(value) => Ok(value@),
        Err(e) => Err(e@),
    }
}

impl StorageView {
    /// `ECHO text`: the text as a bulk string. Any other number of tokens
    /// is a syntax error that carries them all.
    pub open spec fn run_echo(self, command: Seq<Seq<char>>) -> Result<Value, StorageErrorView> {
        if command.len() != 2 {
            Err(StorageErrorView::CommandSyntaxError(joined(command)))
        } else {
            Ok(Value::BulkString(command[1]))
        }
    }

    /// `GET key` at `now`: what a reader finds as a bulk string, or `Null`,
    /// and the state after the read. Any other number of tokens is a syntax
    /// error that carries them all and leaves the state.
    pub open spec fn run_get(self, command: Seq<Seq<char>>, now: Timestamp) -> (
        Result<Value, StorageErrorView>,
        StorageView,
    ) {
        if command.len() != 2 {
            (Err(StorageErrorView::CommandSyntaxError(joined(command))), self)
        } else {
            (
                Ok(
                    match self.lookup(command[1], now) {
                        Some(text) => Value::BulkString(text),
                        None => Value::Null,
                    },
                ),
                self.after_get(command[1], now),
            )
        }
    }

    /// `SET key value` and options at `now`: the acknowledgement, and the
    /// state after the write. Fewer than three tokens are a syntax error that
    /// carries them all; options that are not understood are one that
    /// carries the option tokens. Both leave the state.
    pub open spec fn run_set(self, command: Seq<Seq<char>>, now: Timestamp) -> (
        Result<Value, StorageErrorView>,
        StorageView,
    ) {
        if command.len() < 3 {
            (Err(StorageErrorView::CommandSyntaxError(joined(command))), self)
        } else {
            match set_options(command.skip(3)) {
                Some(args) => (
                    Ok(Value::SimpleString("OK"@)),
                    self.after_set(command[1], command[2], args.expiry, now),
                ),
                None => (
                    Err(StorageErrorView::CommandSyntaxError(joined(command.skip(3)))),
                    self,
                ),
            }
        }
    }

    /// Whether `after` is the state after `key` was set to `value` at some
    /// moment.
    pub open spec fn sets_to(
        self,
        key: Seq<char>,
        value: Seq<char>,
        expiry: Option<KeyExpiry>,
        after: StorageView,
    ) -> bool {
        exists|now: Timestamp| #[trigger] self.after_set(key, value, expiry, now) == after
    }

    /// Whether `found` and `after` are what a read of `key` gives at some
    /// moment.
    pub open spec fn gets_to(self, key: Seq<char>, found: Option<Seq<char>>, after: StorageView) -> bool {
        exists|now: Timestamp|
            self.lookup(key, now) == found && #[trigger] self.after_get(key, now) == after
    }

    /// Whether `after` is the state after a sweep at some moment.
    pub open spec fn sweeps_to(self, after: StorageView) -> bool {
        exists|now: Timestamp| #[trigger] self.after_sweep(now) == after
    }

    /// Whether `reply` and `after` are what `command` gives at some moment.
    pub open spec fn runs_to(
        self,
        command: Seq<Seq<char>>,
        reply: Result<Value, StorageErrorView>,
        after: StorageView,
    ) -> bool {
        exists|now: Timestamp| #[trigger] self.run(command, now) == (reply, after)
    }

    /// The command `command` at `now`: the reply and the state afterwards.
    /// No tokens at all are an incorrect request; a first token that names no
    /// command is reported with that token. `PING` answers `PONG` whatever
    /// follows it.
    pub open spec fn run(self, command: Seq<Seq<char>>, now: Timestamp) -> (
        Result<Value, StorageErrorView>,
        StorageView,
    ) {
        if command.len() == 0 {
            (Err(StorageErrorView::IncorrectRequest), self)
        } else {
            match command_named(command[0]) {
                Some(Command::PING) => (Ok(Value::SimpleString("PONG"@)), self),
                Some(Command::ECHO) => (self.run_echo(command), self),
                Some(Command::GET) => self.run_get(command, now),
                Some(Command::SET) => self.run_set(command, now),
                None => (Err(StorageErrorView::CommandNotAvailable(command[0])), self),
            }
        }
    }
}

/// A write keeps the keyspace and the index together.
pub proof fn lemma_set_consistent(
    state: StorageView,
    key: Seq<char>,
    value: Seq<char>,
    expiry: Option<KeyExpiry>,
    now: Timestamp,
)
    requires
        state.consistent(),
    ensures
        state.after_set(key, value, expiry, now).consistent(),
{
    let after = state.after_set(key, value, expiry, now);
    assert(after.store.dom() =~= state.store.dom().insert(key));
    match expiry {
        Some(_) => {
            assert(after.expiry.dom() =~= state.expiry.dom().insert(key));
        },
        None => {
            assert(after.expiry.dom() =~= state.expiry.dom().remove(key));
        },
    }
}

/// A read keeps the keyspace and the index together.
pub proof fn lemma_get_consistent(state: StorageView, key: Seq<char>, now: Timestamp)
    requires
        state.consistent(),
    ensures
        state.after_get(key, now).consistent(),
{
    let after = state.after_get(key, now);
    if state.expired(key, now) {
        assert(after.store.dom() =~= state.store.dom().remove(key));
        assert(after.expiry.dom() =~= state.expiry.dom().remove(key));
    }
}

/// A key that was set without a time to live is read as its value at any
/// later moment.
pub proof fn lemma_set_without_expiry(
    state: StorageView,
    key: Seq<char>,
    value: Seq<char>,
    now: Timestamp,
    later: Timestamp,
)
    ensures
        state.after_set(key, value, None, now).lookup(key, later) == Some(value),
        state.after_set(key, value, None, now).after_get(key, later) == state.after_set(
            key,
            value,
            None,
            now,
        ),
{
}

/// A key that was set with a time to live is read as its value before its
/// deadline and leaves the state as it is; from the deadline on it is read
/// as absent, and that read removes it from the keyspace and from the index.
pub proof fn lemma_set_with_expiry(
    state: StorageView,
    key: Seq<char>,
    value: Seq<char>,
    expiry: KeyExpiry,
    now: Timestamp,
    later: Timestamp,
)
    ensures
        later < deadline(now, expiry) ==> {
            &&& state.after_set(key, value, Some(expiry), now).lookup(key, later) == Some(value)
            &&& state.after_set(key, value, Some(expiry), now).after_get(key, later)
                == state.after_set(key, value, Some(expiry), now)
        },
        later >= deadline(now, expiry) ==> {
            &&& state.after_set(key, value, Some(expiry), now).lookup(key, later) is None
            &&& !state.after_set(key, value, Some(expiry), now).after_get(
                key,
                later,
            ).store.contains_key(key)
            &&& !state.after_set(key, value, Some(expiry), now).after_get(
                key,
                later,
            ).expiry.contains_key(key)
        },
{
}

/// Whether a sweep has run or not makes no difference to what a read at the
/// same or a later moment finds.
pub proof fn lemma_sweep_unseen(
    state: StorageView,
    swept_at: Timestamp,
    key: Seq<char>,
    later: Timestamp,
)
    requires
        swept_at <= later,
    ensures
        state.after_sweep(swept_at).lookup(key, later) == state.lookup(key, later),
{
}

/// With the sweep switched off a sweep changes nothing: a key that is due
/// stays where it is. A read still finds nothing under it and removes it.
pub proof fn lemma_switched_off(state: StorageView, key: Seq<char>, now: Timestamp)
    requires
        !state.active_expiry,
        state.expired(key, now),
    ensures
        state.after_sweep(now) == state,
        state.after_sweep(now).lookup(key, now) is None,
        !state.after_sweep(now).after_get(key, now).store.contains_key(key),
        !state.after_sweep(now).after_get(key, now).expiry.contains_key(key),
{
}

/// A sweep keeps the keyspace and the index together.
pub proof fn lemma_sweep_consistent(state: StorageView, now: Timestamp)
    requires
        state.consistent(),
    ensures
        state.after_sweep(now).consistent(),
{
    let due = state.due(now);
    let after = state.after_sweep(now);
    if state.active_expiry {
        assert(after.store.dom() =~= state.store.dom().difference(due));
        assert(after.expiry.dom() =~= state.expiry.dom().difference(due));
        vstd::set::axiom_set_difference_finite(state.store.dom(), due);
        vstd::set::axiom_set_difference_finite(state.expiry.dom(), due);
        assert forall|key: Seq<char>| #[trigger] after.expiry.contains_key(key) implies
            after.store.contains_key(key) && after.store[key].expiry == Some(after.expiry[key]) by {
            assert(state.expiry.contains_key(key));
        }
        assert forall|key: Seq<char>|
            after.store.contains_key(key) && (#[trigger] after.store[key]).expiry is Some implies
            after.expiry.contains_key(key) by {
            assert(state.store.contains_key(key));
            assert(state.store[key].expiry is Some);
        }
    }
}

/// A text of ASCII characters without a carriage return holds no line
/// terminator.
pub proof fn lemma_plain_text(text: Seq<char>)
    requires
        is_ascii_chars(text),
        forall|i: int| 0 <= i < text.len() ==> text[i] != '\r',
    ensures
        !has_terminator(encode_utf8(text)),
{
    vstd::utf8::is_ascii_chars_encode_utf8(text);
    let bytes = encode_utf8(text);
    assert forall|i: int| !crlf_at(bytes, i) by {
        if 0 <= i < bytes.len() {
            assert(text[i] as u8 == bytes[i]);
        }
    }
}

/// With short values in the keyspace and short tokens in the command, the
/// values in the keyspace stay short, and the reply is one that the decoder
/// gives back from its serialization.
pub proof fn lemma_reply_reproducible(state: StorageView, command: Seq<Seq<char>>, now: Timestamp)
    requires
        state.short_values(),
        forall|i: int| 0 <= i < command.len() ==> short(#[trigger] command[i]),
    ensures
        state.run(command, now).1.short_values(),
        state.run(command, now).0 matches Ok(answer) ==> reproducible(answer),
{
    reveal_strlit("PONG");
    reveal_strlit("OK");
    lemma_plain_text("PONG"@);
    lemma_plain_text("OK"@);
    if command.len() >= 2 {
        assert(short(command[1]));
    }
    if command.len() >= 3 {
        assert(short(command[2]));
    }
}

} // verus!
