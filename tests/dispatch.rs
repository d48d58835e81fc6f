use miniredis::command::execute;
use miniredis::connection::{protocol_error, Connection};
use miniredis::db::RedisDB;
use miniredis::decode::FrameParseError;
use miniredis::resp::{encode, RESP};

fn request(parts: &[&[u8]]) -> RESP {
    RESP::Arrays(Some(parts.iter().map(|p| RESP::BulkStrings(Some(p.to_vec()))).collect()))
}

fn run(db: &mut RedisDB, parts: &[&[u8]]) -> Vec<u8> {
    encode(&execute(db, request(parts)))
}

#[test]
fn get_set_del_flushall_command() {
    let mut db = RedisDB::new();
    assert_eq!(run(&mut db, &[b"GET", b"foo"]), b"$-1\r\n".to_vec());
    assert_eq!(run(&mut db, &[b"SET", b"foo", b"bar"]), b"+OK\r\n".to_vec());
    assert_eq!(run(&mut db, &[b"GET", b"foo"]), b"$3\r\nbar\r\n".to_vec());
    assert_eq!(run(&mut db, &[b"DEL", b"foo", b"nope"]), b":1\r\n".to_vec());
    assert_eq!(run(&mut db, &[b"SET", b"a", b"1"]), b"+OK\r\n".to_vec());
    assert_eq!(run(&mut db, &[b"FLUSHALL"]), b"+OK\r\n".to_vec());
    assert_eq!(run(&mut db, &[b"GET", b"a"]), b"$-1\r\n".to_vec());
    assert_eq!(run(&mut db, &[b"COMMAND", b"DOCS"]), b"+OK\r\n".to_vec());
    assert_eq!(run(&mut db, &[b"command"]), b"+OK\r\n".to_vec());
}

#[test]
fn command_names_ignore_case() {
    let mut db = RedisDB::new();
    assert_eq!(run(&mut db, &[b"sEt", b"k", b"v"]), b"+OK\r\n".to_vec());
    assert_eq!(run(&mut db, &[b"get", b"k"]), b"$1\r\nv\r\n".to_vec());
    assert_eq!(run(&mut db, &[b"Del", b"k"]), b":1\r\n".to_vec());
    assert_eq!(run(&mut db, &[b"flushALL"]), b"+OK\r\n".to_vec());
}

#[test]
fn del_with_repeated_and_absent_keys() {
    let mut db = RedisDB::new();
    run(&mut db, &[b"SET", b"a", b"1"]);
    run(&mut db, &[b"SET", b"b", b"2"]);
    assert_eq!(run(&mut db, &[b"DEL", b"a", b"a", b"b", b"c"]), b":2\r\n".to_vec());
    assert_eq!(run(&mut db, &[b"DEL", b"a"]), b":0\r\n".to_vec());
}

#[test]
fn binary_values_through_commands() {
    let mut db = RedisDB::new();
    run(&mut db, &[b"SET", b"\x00k", b"\x00\r\n\xff"]);
    assert_eq!(run(&mut db, &[b"GET", b"\x00k"]), b"$4\r\n\x00\r\n\xff\r\n".to_vec());
}

#[test]
fn arity_errors() {
    let mut db = RedisDB::new();
    assert_eq!(
        run(&mut db, &[b"GET"]),
        b"-ERR wrong number of arguments for 'get' command\r\n".to_vec()
    );
    assert_eq!(
        run(&mut db, &[b"GET", b"a", b"b"]),
        b"-ERR wrong number of arguments for 'get' command\r\n".to_vec()
    );
    assert_eq!(
        run(&mut db, &[b"SET", b"a"]),
        b"-ERR wrong number of arguments for 'set' command\r\n".to_vec()
    );
    assert_eq!(run(&mut db, &[b"SET", b"a", b"b", b"c"]), b"-ERR syntax error\r\n".to_vec());
    assert_eq!(
        run(&mut db, &[b"DEL"]),
        b"-ERR wrong number of arguments for 'del' command\r\n".to_vec()
    );
    assert_eq!(
        run(&mut db, &[b"FLUSHALL", b"ASYNC"]),
        b"-ERR wrong number of arguments for 'flushall' command\r\n".to_vec()
    );
    assert_eq!(run(&mut db, &[b"GET", b"a"]), b"$-1\r\n".to_vec());
}

#[test]
fn unknown_command_names_its_arguments() {
    let mut db = RedisDB::new();
    assert_eq!(
        run(&mut db, &[b"PING", b"a", b"b\r\n"]),
        b"-ERR unknown command `PING`, with args beginning with: 'a' 'b??' \r\n".to_vec()
    );
    assert_eq!(
        run(&mut db, &[b"h\xc3\xa9"]),
        b"-ERR unknown command `h??`, with args beginning with: \r\n".to_vec()
    );
}

#[test]
fn requests_that_are_not_arrays_of_bulk_strings() {
    let mut db = RedisDB::new();
    let expected = b"-ERR Protocol error: expected an array of bulk strings\r\n".to_vec();
    assert_eq!(encode(&execute(&mut db, RESP::SimpleStrings("GET".to_string()))), expected);
    assert_eq!(encode(&execute(&mut db, RESP::Arrays(None))), expected);
    assert_eq!(encode(&execute(&mut db, RESP::Arrays(Some(vec![])))), expected);
    let with_integer = RESP::Arrays(Some(vec![
        RESP::BulkStrings(Some(b"GET".to_vec())),
        RESP::Integers(1),
    ]));
    assert_eq!(encode(&execute(&mut db, with_integer)), expected);
    let with_nil = RESP::Arrays(Some(vec![
        RESP::BulkStrings(Some(b"SET".to_vec())),
        RESP::BulkStrings(None),
        RESP::BulkStrings(Some(b"v".to_vec())),
    ]));
    assert_eq!(encode(&execute(&mut db, with_nil)), expected);
}

/// Feeds `input` to a connection and answers every complete request.
fn serve(conn: &mut Connection, db: &mut RedisDB, input: &[u8]) -> Vec<u8> {
    conn.receive(input);
    let mut out = Vec::new();
    loop {
        match conn.next_frame() {
            Ok(frame) => out.extend(encode(&execute(db, frame))),
            Err(FrameParseError::IncomingError) => return out,
            Err(_) => {
                out.extend(encode(&protocol_error()));
                return out;
            }
        }
    }
}

#[test]
fn end_to_end_literal_bytes() {
    let mut conn = Connection::new();
    let mut db = RedisDB::new();
    assert_eq!(serve(&mut conn, &mut db, b"*2\r\n$3\r\nGET\r\n$3\r\nfoo\r\n"), b"$-1\r\n".to_vec());
    assert_eq!(
        serve(&mut conn, &mut db, b"*3\r\n$3\r\nSET\r\n$3\r\nfoo\r\n$3\r\nbar\r\n"),
        b"+OK\r\n".to_vec()
    );
    assert_eq!(serve(&mut conn, &mut db, b"*2\r\n$3\r\nGET\r\n$3\r\nfoo\r\n"), b"$3\r\nbar\r\n".to_vec());
    assert_eq!(serve(&mut conn, &mut db, b"*2\r\n$3\r\nDEL\r\n$3\r\nfoo\r\n"), b":1\r\n".to_vec());
    assert_eq!(serve(&mut conn, &mut db, b"*2\r\n$3\r\nGET\r\n$3\r\nfoo\r\n"), b"$-1\r\n".to_vec());
    assert_eq!(conn.pending(), 0);
}

#[test]
fn connection_keeps_partial_frames() {
    let mut conn = Connection::new();
    let mut db = RedisDB::new();
    let bytes = b"*3\r\n$3\r\nSET\r\n$1\r\nk\r\n$1\r\nv\r\n*2\r\n$3\r\nGET\r\n$1\r\nk\r\n";
    let mut out = Vec::new();
    for (i, b) in bytes.iter().enumerate() {
        let before = conn.pending();
        out.extend(serve(&mut conn, &mut db, &[*b]));
        if out.is_empty() {
            assert_eq!(conn.pending(), before + 1, "byte {}", i);
        }
    }
    assert_eq!(out, b"+OK\r\n$1\r\nv\r\n".to_vec());
    assert_eq!(conn.pending(), 0);
}

#[test]
fn connection_pipelined_requests_in_one_read() {
    let mut conn = Connection::new();
    let mut db = RedisDB::new();
    let out = serve(
        &mut conn,
        &mut db,
        b"*3\r\n$3\r\nSET\r\n$1\r\na\r\n$1\r\n1\r\n*2\r\n$3\r\nGET\r\n$1\r\na\r\n*2\r\n$3\r\nGET",
    );
    assert_eq!(out, b"+OK\r\n$1\r\n1\r\n".to_vec());
    assert_eq!(conn.pending(), 11);
}

#[test]
fn connection_reports_corrupt_stream() {
    let mut conn = Connection::new();
    let mut db = RedisDB::new();
    let out = serve(&mut conn, &mut db, b"GET foo\r\n");
    assert_eq!(out, b"-ERR Protocol error\r\n".to_vec());
    assert_eq!(conn.pending(), 9);
    let mut conn2 = Connection::new();
    conn2.receive(b"+\xff\r\n");
    assert_eq!(conn2.next_frame(), Err(FrameParseError::InvalidUtf8Error));
    assert_eq!(conn2.pending(), 4);
}
