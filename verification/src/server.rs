//! The command dispatcher: from a decoded request to the reply.
use crate::clock::Timestamp;
use crate::model::{lemma_reply_reproducible, reply, StorageView};
use crate::resp::{
    bytes_to_resp, encoding, items_at, lemma_array_view, length_at, value_at, values, Value, RESP,
    TAG_ARRAY,
};
use crate::round_trip::{lemma_decoded_items_short, lemma_round_trip, short};
use crate::resp_result::RESPError;
use crate::storage::Storage;
use crate::storage_result::{StorageError, StorageErrorView, StorageResult};
use crate::text::texts;
use std::sync::{Arc, Mutex, MutexGuard};
use vstd::prelude::*;

verus! {

/// Why the server gave up on a request.
#[derive(Debug, PartialEq, Eq, Structural, Clone, Copy)]
pub enum ServerError {
    CommandError,
}

impl ServerError {
    /// Puts the error in words.
    pub fn message(&self) -> (r: String)
        ensures
            r@ == "Error while processing"@,
    {
        match self {
            ServerError::CommandError => "Error while processing".to_string(),
        }
    }
}

pub type ServerResult<T> = Result<T, ServerError>;

/// Whether every one of `items` is a bulk string.
pub open spec fn all_bulk_strings(items: Seq<Value>) -> bool {
    forall|i: int| 0 <= i < items.len() ==> #[trigger] items[i] is BulkString
}

/// The tokens of the command that `request` carries: the texts of its
/// elements, if it is an array and each element is a bulk string.
pub open spec fn command_of(request: Value) -> Option<Seq<Seq<char>>> {
    match request {
        Value::Array(items) => if all_bulk_strings(items) {
            Some(Seq::new(items.len(), |i: int| items[i]->BulkString_0))
        } else {
            None
        },
        _ => None,
    }
}

/// `std::sync::Mutex`, a value behind a lock. Nothing of it is seen from
/// here.
#[verifier::external_type_specification]
#[verifier::external_body]
#[verifier::reject_recursive_types(T)]
pub struct ExMutex<T: ?Sized>(Mutex<T>);

/// `std::sync::MutexGuard`, the exclusive access to what a `Mutex` holds.
/// Nothing of it is seen from here.
#[verifier::external_type_specification]
#[verifier::external_body]
#[verifier::reject_recursive_types(T)]
pub struct ExMutexGuard<'a, T: ?Sized + 'a>(MutexGuard<'a, T>);

/// `Mutex::lock`, with the error of a poisoned lock dropped. The contract
/// claims nothing of the result: the lock may or may not be had.
#[verifier::external_body]
fn lock<'a>(storage: &'a Mutex<Storage>) -> (r: Option<MutexGuard<'a, Storage>>) {
    storage.lock().ok()
}

/// `DerefMut::deref_mut` of a `MutexGuard`: the engine that the guard gives
/// access to. The contract claims nothing of it: what it holds is whatever
/// the last holder of the lock left.
#[verifier::external_body]
fn locked<'a, 'b>(guard: &'a mut MutexGuard<'b, Storage>) -> (r: &'a mut Storage) {
    &mut **guard
}

/// Reads the tokens of the command that `request` carries. A request that
/// is not an array of bulk strings is refused.
pub fn request_command(request: RESP) -> (r: StorageResult<Vec<String>>)
    ensures
        match r {
            Ok(command) => command_of(request@) == Some(texts(command@)),
            Err(e) => command_of(request@) is None && e@ == StorageErrorView::IncorrectRequest,
        },
{
    let elements = match request {
        RESP::Array(elements) => {
            proof {
                lemma_array_view(elements);
            }
            elements
        },
        _ => {
            return Err(StorageError::IncorrectRequest);
        },
    };
    let mut command: Vec<String> = Vec::new();
    let mut i: usize = 0;
    while i < elements.len()
        invariant
            i <= elements.len(),
            request@ == Value::Array(values(elements@)),
            command@.len() == i,
            forall|j: int|
                0 <= j < i ==> values(elements@)[j] == Value::BulkString(#[trigger] command[j]@),
        decreases elements.len() - i,
    {
        match &elements[i] {
            RESP::BulkString(text) => {
                command.push(text.clone());
            },
            _ => {
                assert(!(values(elements@)[i as int] is BulkString));
                return Err(StorageError::IncorrectRequest);
            },
        }
        i = i + 1;
    }
    proof {
        let items = values(elements@);
        assert forall|j: int| 0 <= j < items.len() implies #[trigger] items[j] is BulkString by {
            assert(items[j] == Value::BulkString(command[j]@));
        }
        assert(texts(command@) =~= Seq::new(items.len(), |j: int| items[j]->BulkString_0));
    }
    Ok(command)
}

/// Whether `reply` is what `command` gives at some moment on some state in
/// which the keyspace and the index go together.
pub open spec fn answers(command: Seq<Seq<char>>, reply: Result<Value, StorageErrorView>) -> bool {
    exists|state: StorageView, after: StorageView|
        state.consistent() && #[trigger] state.runs_to(command, reply, after)
}

/// Whether `reply` is what an engine behind a lock may give to `request`:
/// the refusal of a request that is not an array of bulk strings; else the
/// report that the lock was not had, or an answer to the command.
pub open spec fn served(request: Value, reply: Result<Value, StorageErrorView>) -> bool {
    match command_of(request) {
        None => reply == Err::<Value, StorageErrorView>(StorageErrorView::IncorrectRequest),
        Some(command) => reply == Err::<Value, StorageErrorView>(
            StorageErrorView::StorageUnavailable,
        ) || answers(command, reply),
    }
}

/// Carries out the command that `request` carries on the engine behind the
/// lock `storage`, at the moment that the system clock shows, and gives the
/// reply. The request is looked at first, and the lock is asked for only if
/// the request is in order.
///
/// What the engine holds when the lock is had is not known here, so the
/// contract speaks of some state; [`respond`] is the same with the engine in
/// hand, and says what becomes of it.
pub fn process_request(request: RESP, storage: Arc<Mutex<Storage>>) -> (r: StorageResult<RESP>)
    ensures
        served(request@, reply(r)),
{
    let command = request_command(request)?;
    match lock(&*storage) {
        Some(mut guard) => {
            let engine = locked(&mut guard);
            engine.in_order();
            let ghost before = engine@;
            let r = engine.process_command(&command);
            assert(before.consistent() && before.runs_to(texts(command@), reply(r), engine@));
            r
        },
        None => Err(StorageError::StorageUnavailable),
    }
}

/// Carries out the command that `request` carries and gives the reply.
///
/// `storage` is the exclusive access to the engine, or `None` where it could
/// not be had. A request that is not an array of bulk strings is refused
/// before the engine is looked at; then a missing engine is reported; then
/// the engine carries out the command at the moment that the system clock
/// shows.
pub fn respond(request: RESP, storage: Option<&mut Storage>) -> (r: StorageResult<RESP>)
    ensures
        match command_of(request@) {
            None => {
                &&& reply(r) == Err::<Value, StorageErrorView>(StorageErrorView::IncorrectRequest)
                &&& storage matches Some(engine) ==> final(engine)@ == engine@
            },
            Some(command) => match storage {
                None => reply(r) == Err::<Value, StorageErrorView>(
                    StorageErrorView::StorageUnavailable,
                ),
                Some(engine) => engine@.runs_to(command, reply(r), final(engine)@),
            },
        },
{
    let command = request_command(request)?;
    match storage {
        Some(engine) => engine.process_command(&command),
        None => Err(StorageError::StorageUnavailable),
    }
}

/// Why a chunk of bytes got no reply.
#[derive(Debug, PartialEq)]
pub enum ServeError {
    /// The chunk does not start with a value that the decoder reads.
    Protocol(RESPError),
    /// The request was read and not carried out.
    Storage(StorageError),
}

impl ServeError {
    /// Puts the error in words.
    pub fn message(&self) -> (r: String)
        ensures
            r@ == match self {
                ServeError::Protocol(e) => e.message_text(),
                ServeError::Storage(e) => e.message_text(),
            },
    {
        match self {
            ServeError::Protocol(e) => e.message(),
            ServeError::Storage(e) => e.message(),
        }
    }
}

/// From the bytes that a connection read to the bytes to write back: decodes
/// the request at the start of `chunk`, carries it out on the engine behind
/// the lock `storage`, and encodes the reply. What follows the request in
/// `chunk` is not looked at.
pub fn serve(chunk: &[u8], storage: Arc<Mutex<Storage>>) -> (r: Result<Vec<u8>, ServeError>)
    requires
        chunk@.len() + 2 <= usize::MAX,
    ensures
        match value_at(chunk@, 0).0 {
            Err(e) => r matches Err(ServeError::Protocol(protocol)) && protocol == e,
            Ok(request) => match r {
                Ok(bytes) => exists|answer: Value|
                    served(request, Ok(answer)) && bytes@ == #[trigger] encoding(answer),
                Err(ServeError::Storage(e)) => served(request, Err(e@)),
                Err(ServeError::Protocol(_)) => false,
            },
        },
{
    let mut index: usize = 0;
    let request = match bytes_to_resp(chunk, &mut index) {
        Ok(request) => request,
        Err(e) => {
            return Err(ServeError::Protocol(e));
        },
    };
    match process_request(request, storage) {
        Ok(answer) => {
            let bytes = answer.encode();
            assert(bytes@ == encoding(answer@));
            Ok(bytes)
        },
        Err(e) => Err(ServeError::Storage(e)),
    }
}

/// The tokens of a command that the decoder read are short.
pub proof fn lemma_decoded_command_short(buf: Seq<u8>, at: int)
    ensures
        value_at(buf, at).0 matches Ok(request) ==> (command_of(request) matches Some(command)
            ==> forall|i: int| 0 <= i < command.len() ==> short(#[trigger] command[i])),
{
    if 0 <= at < buf.len() && buf[at] == TAG_ARRAY {
        let (length, cursor) = length_at(buf, at + 1);
        if length is Ok && length->Ok_0 >= 0 {
            lemma_decoded_items_short(buf, cursor, length->Ok_0 as nat);
            if let Ok(items) = items_at(buf, cursor, length->Ok_0 as nat).0 {
                if let Some(command) = command_of(Value::Array(items)) {
                    assert forall|i: int| 0 <= i < command.len() implies short(
                        #[trigger] command[i],
                    ) by {
                        assert(items[i] is BulkString);
                    }
                }
            }
        }
    }
}

/// From the bytes of a request to the bytes of the reply and back: where the
/// values in the keyspace are short, a request that the decoder read and the
/// engine answered has an answer that the decoder gives back from its
/// serialization, to the last byte, and the values in the keyspace are short
/// afterwards.
pub proof fn lemma_reply_decodes(buf: Seq<u8>, state: StorageView, now: Timestamp)
    requires
        state.short_values(),
    ensures
        value_at(buf, 0).0 matches Ok(request) ==> (command_of(request) matches Some(command) ==> {
            &&& state.run(command, now).1.short_values()
            &&& state.run(command, now).0 matches Ok(answer) ==> value_at(encoding(answer), 0) == (
                Ok::<Value, RESPError>(answer),
                encoding(answer).len() as int,
            )
        }),
{
    lemma_decoded_command_short(buf, 0);
    if let Ok(request) = value_at(buf, 0).0 {
        if let Some(command) = command_of(request) {
            lemma_reply_reproducible(state, command, now);
            if let Ok(answer) = state.run(command, now).0 {
                lemma_round_trip(answer);
            }
        }
    }
}

} // verus!
