use respkv::resp::{bytes_to_resp, RESP};
use respkv::resp_result::RESPError;
use respkv::server::{process_request, request_command, respond, serve, ServeError};
use respkv::storage::Storage;
use respkv::storage_result::StorageError;
use std::sync::{Arc, Mutex};

#[test]
fn test_process_request_ping() {
    let request = RESP::Array(vec![RESP::BulkString(String::from("PING"))]);
    let output = process_request(request, Arc::new(Mutex::new(Storage::new()))).unwrap();
    assert_eq!(output, RESP::SimpleString(String::from("PONG")));
}

#[test]
fn test_process_request_echo() {
    let request = RESP::Array(vec![
        RESP::BulkString(String::from("ECHO")),
        RESP::BulkString(String::from("Hello World")),
    ]);
    let storage = Arc::new(Mutex::new(Storage::new()));
    let output = process_request(request, storage).unwrap();
    assert_eq!(output, RESP::BulkString(String::from("Hello World")));
}

#[test]
fn test_process_request_not_array() {
    let request = RESP::BulkString(String::from("PING"));
    let storage = Arc::new(Mutex::new(Storage::new()));
    let error = process_request(request, storage).unwrap_err();
    assert_eq!(error, StorageError::IncorrectRequest);
}

#[test]
fn test_process_request_not_bulkstrings() {
    let request = RESP::Array(vec![RESP::SimpleString(String::from("PING"))]);
    let storage = Arc::new(Mutex::new(Storage::new()));
    let error = process_request(request, storage).unwrap_err();
    assert_eq!(error, StorageError::IncorrectRequest);
}

#[test]
fn test_respond_other_shapes_are_refused() {
    let mut storage = Storage::new();
    let shapes = vec![
        RESP::Null,
        RESP::SimpleString(String::from("PING")),
        RESP::Array(vec![RESP::BulkString(String::from("PING")), RESP::Null]),
        RESP::Array(vec![
            RESP::BulkString(String::from("SET")),
            RESP::Array(vec![RESP::BulkString(String::from("k"))]),
            RESP::BulkString(String::from("v")),
        ]),
    ];
    for request in shapes {
        let error = respond(request, Some(&mut storage)).unwrap_err();
        assert_eq!(error, StorageError::IncorrectRequest);
    }
    assert_eq!(storage.len(), 0);
}

#[test]
fn test_process_request_without_a_command_name() {
    let storage = Arc::new(Mutex::new(Storage::new()));
    let error = process_request(RESP::Array(Vec::new()), storage).unwrap_err();
    assert_eq!(error, StorageError::IncorrectRequest);
}

#[test]
fn test_respond_storage_unavailable() {
    let request = RESP::Array(vec![RESP::BulkString(String::from("PING"))]);
    assert_eq!(respond(request, None), Err(StorageError::StorageUnavailable));
}

#[test]
fn test_respond_refuses_the_shape_before_it_misses_the_storage() {
    let request = RESP::BulkString(String::from("PING"));
    assert_eq!(respond(request, None), Err(StorageError::IncorrectRequest));
}

#[test]
fn test_respond_changes_the_engine_in_hand() {
    let mut storage = Storage::new();
    let request = RESP::Array(vec![
        RESP::BulkString(String::from("SET")),
        RESP::BulkString(String::from("k")),
        RESP::BulkString(String::from("v")),
    ]);
    assert_eq!(respond(request, Some(&mut storage)), Ok(RESP::SimpleString(String::from("OK"))));
    assert_eq!(storage.len(), 1);
    assert_eq!(storage.get_at(String::from("k"), 0), Ok(Some(String::from("v"))));
}

#[test]
fn test_process_request_unknown_command() {
    let request = RESP::Array(vec![RESP::BulkString(String::from("FLUSHALL"))]);
    let storage = Arc::new(Mutex::new(Storage::new()));
    let error = process_request(request, storage).unwrap_err();
    assert_eq!(error, StorageError::CommandNotAvailable(String::from("FLUSHALL")));
}

#[test]
fn test_process_request_shares_the_engine() {
    let storage = Arc::new(Mutex::new(Storage::new()));
    let request = RESP::Array(vec![
        RESP::BulkString(String::from("SET")),
        RESP::BulkString(String::from("k")),
        RESP::BulkString(String::from("v")),
    ]);
    process_request(request, storage.clone()).unwrap();
    assert_eq!(storage.lock().unwrap().len(), 1);
    let request = RESP::Array(vec![
        RESP::BulkString(String::from("GET")),
        RESP::BulkString(String::from("k")),
    ]);
    let output = process_request(request, storage.clone()).unwrap();
    assert_eq!(output, RESP::BulkString(String::from("v")));
}

fn answer(storage: &Arc<Mutex<Storage>>, request: &[u8]) -> Vec<u8> {
    serve(request, storage.clone()).unwrap()
}

#[test]
fn test_end_to_end_ping() {
    let storage = Arc::new(Mutex::new(Storage::new()));
    assert_eq!(answer(&storage, b"*1\r\n$4\r\nPING\r\n"), b"+PONG\r\n".to_vec());
}

#[test]
fn test_end_to_end_echo() {
    let storage = Arc::new(Mutex::new(Storage::new()));
    let reply = answer(&storage, b"*2\r\n$4\r\nECHO\r\n$5\r\nhello\r\n");
    assert_eq!(reply, b"$5\r\nhello\r\n".to_vec());
}

#[test]
fn test_end_to_end_set_then_get() {
    let storage = Arc::new(Mutex::new(Storage::new()));
    let reply = answer(&storage, b"*3\r\n$3\r\nSET\r\n$3\r\nfoo\r\n$3\r\nbar\r\n");
    assert_eq!(reply, b"+OK\r\n".to_vec());
    let reply = answer(&storage, b"*2\r\n$3\r\nGET\r\n$3\r\nfoo\r\n");
    assert_eq!(reply, b"$3\r\nbar\r\n".to_vec());
    let reply = answer(&storage, b"*2\r\n$3\r\nGET\r\n$3\r\nbaz\r\n");
    assert_eq!(reply, b"$-1\r\n".to_vec());
}

#[test]
fn test_end_to_end_replies_decode_again() {
    let storage = Arc::new(Mutex::new(Storage::new()));
    let requests: Vec<&[u8]> = vec![
        b"*1\r\n$4\r\nPING\r\n",
        b"*3\r\n$3\r\nSET\r\n$3\r\nfoo\r\n$8\r\nbar\r\nbaz\r\n",
        b"*2\r\n$3\r\nGET\r\n$3\r\nfoo\r\n",
        b"*2\r\n$3\r\nGET\r\n$4\r\nnone\r\n",
    ];
    let replies = vec![
        RESP::SimpleString(String::from("PONG")),
        RESP::SimpleString(String::from("OK")),
        RESP::BulkString(String::from("bar\r\nbaz")),
        RESP::Null,
    ];
    for (request, expected) in requests.into_iter().zip(replies) {
        let reply = answer(&storage, request);
        let mut index: usize = 0;
        assert_eq!(bytes_to_resp(&reply, &mut index), Ok(expected));
        assert_eq!(index, reply.len());
    }
}

#[test]
fn test_storage_error_messages() {
    assert_eq!(
        StorageError::IncorrectRequest.message(),
        "The client sent an incorrect request!"
    );
    assert_eq!(
        StorageError::StorageUnavailable.message(),
        "The storage is currently unavailable!"
    );
    assert_eq!(
        StorageError::CommandNotAvailable(String::from("DEL")).message(),
        "The requested command `DEL` is not available!"
    );
    assert_eq!(
        StorageError::CommandSyntaxError(String::from("GET a b")).message(),
        "Syntax error while processing `GET a b`!"
    );
    assert_eq!(respkv::server::ServerError::CommandError.message(), "Error while processing");
}

#[test]
fn test_serve_protocol_errors() {
    let storage = Arc::new(Mutex::new(Storage::new()));
    let cases: Vec<(&[u8], RESPError)> = vec![
        (b"", RESPError::OutOfBounds(0)),
        (b"PING\r\n", RESPError::Unknown),
        (b"*1\r\n$4\r\nPI", RESPError::OutOfBounds(10)),
        (b"*1\r\n$x\r\nPING\r\n", RESPError::ParseInt),
        (b"*-3\r\n", RESPError::IncorrectLength(-3)),
        (b"*1\r\n$2\r\n\xff\xfe\r\n", RESPError::FromUtf8),
    ];
    for (chunk, error) in cases {
        assert_eq!(serve(chunk, storage.clone()), Err(ServeError::Protocol(error)));
    }
}

#[test]
fn test_serve_storage_errors() {
    let storage = Arc::new(Mutex::new(Storage::new()));
    let cases: Vec<(&[u8], StorageError)> = vec![
        (b"+PING\r\n", StorageError::IncorrectRequest),
        (b"*0\r\n", StorageError::IncorrectRequest),
        (b"*1\r\n$3\r\nDEL\r\n", StorageError::CommandNotAvailable(String::from("DEL"))),
        (b"*1\r\n$3\r\nGET\r\n", StorageError::CommandSyntaxError(String::from("GET"))),
        (
            b"*4\r\n$3\r\nSET\r\n$1\r\nk\r\n$1\r\nv\r\n$2\r\nNX\r\n",
            StorageError::CommandSyntaxError(String::from("NX")),
        ),
    ];
    for (chunk, error) in cases {
        let failure = serve(chunk, storage.clone()).unwrap_err();
        assert_eq!(failure.message(), error.message());
        assert_eq!(failure, ServeError::Storage(error));
    }
    assert_eq!(storage.lock().unwrap().len(), 0);
}

#[test]
fn test_serve_reads_one_request_from_the_chunk() {
    let storage = Arc::new(Mutex::new(Storage::new()));
    let chunk = b"*1\r\n$4\r\nPING\r\n*3\r\n$3\r\nSET\r\n$1\r\nk\r\n$1\r\nv\r\n";
    assert_eq!(serve(chunk, storage.clone()), Ok(b"+PONG\r\n".to_vec()));
    assert_eq!(storage.lock().unwrap().len(), 0);
}

#[test]
fn test_serve_with_expiry() {
    let storage = Arc::new(Mutex::new(Storage::new()));
    let set = b"*5\r\n$3\r\nSET\r\n$1\r\nk\r\n$1\r\nv\r\n$2\r\nEX\r\n$4\r\n3600\r\n";
    assert_eq!(serve(set, storage.clone()), Ok(b"+OK\r\n".to_vec()));
    let get = b"*2\r\n$3\r\nGET\r\n$1\r\nk\r\n";
    assert_eq!(serve(get, storage.clone()), Ok(b"$1\r\nv\r\n".to_vec()));
    storage.lock().unwrap().expire_keys();
    assert_eq!(serve(get, storage.clone()), Ok(b"$1\r\nv\r\n".to_vec()));
    storage.lock().unwrap().expire_keys_at(u128::MAX);
    assert_eq!(serve(get, storage.clone()), Ok(b"$-1\r\n".to_vec()));
}

#[test]
fn test_request_command() {
    let request = RESP::Array(vec![
        RESP::BulkString(String::from("SET")),
        RESP::BulkString(String::from("a key")),
        RESP::BulkString(String::new()),
    ]);
    let command = request_command(request).unwrap();
    assert_eq!(command, vec![String::from("SET"), String::from("a key"), String::new()]);
    assert_eq!(request_command(RESP::Array(Vec::new())), Ok(Vec::new()));
    assert_eq!(request_command(RESP::Null), Err(StorageError::IncorrectRequest));
    let mixed = RESP::Array(vec![RESP::BulkString(String::from("GET")), RESP::Null]);
    assert_eq!(request_command(mixed), Err(StorageError::IncorrectRequest));
}
