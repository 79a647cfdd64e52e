//! Tests of the dispatcher over the keyspace store and replication state,
//! including the request-to-response scenarios end to end.
use miniredis::command::{execute_command, Command, CommandError};
use miniredis::protocol::{readnext_resp, Resp, RespEncoding};
use miniredis::server::{Info, Role, Store};

fn respond(bytes: &[u8], store: &mut Store, info: &mut Info, now: u64) -> Vec<u8> {
    let (req, used) = readnext_resp(bytes).unwrap();
    assert_eq!(used, bytes.len());
    let cmd = Command::from_resp(req).unwrap();
    let responses = execute_command(cmd, store, info, now).unwrap();
    let mut out = Vec::new();
    for r in responses {
        out.extend_from_slice(&r.encode());
    }
    out
}

#[test]
fn echo_scenario_end_to_end() {
    let mut store = Store::new();
    let mut info = Info::new(Role::Master);
    let out = respond(b"*2\r\n$4\r\nECHO\r\n$3\r\nhey\r\n", &mut store, &mut info, 0);
    assert_eq!(out, b"$3\r\nhey\r\n");
}

#[test]
fn ping_scenario_end_to_end() {
    let mut store = Store::new();
    let mut info = Info::new(Role::Master);
    let out = respond(b"*1\r\n$4\r\nPING\r\n", &mut store, &mut info, 0);
    assert_eq!(out, b"+PONG\r\n");
}

#[test]
fn set_px_then_get_scenario() {
    let mut store = Store::new();
    let mut info = Info::new(Role::Master);
    let out = respond(
        b"*5\r\n$3\r\nSET\r\n$3\r\nfoo\r\n$3\r\nbar\r\n$2\r\nPX\r\n$6\r\n100000\r\n",
        &mut store,
        &mut info,
        1_000,
    );
    assert_eq!(out, b"+OK\r\n");
    let out = respond(b"*2\r\n$3\r\nGET\r\n$3\r\nfoo\r\n", &mut store, &mut info, 1_000);
    assert_eq!(out, b"$3\r\nbar\r\n");
}

#[test]
fn set_then_get_returns_value() {
    let mut store = Store::new();
    let mut info = Info::new(Role::Master);
    respond(b"*3\r\n$3\r\nSET\r\n$1\r\nk\r\n$1\r\nv\r\n", &mut store, &mut info, 5);
    let out = respond(b"*2\r\n$3\r\nGET\r\n$1\r\nk\r\n", &mut store, &mut info, 5_000_000);
    assert_eq!(out, b"$1\r\nv\r\n");
}

#[test]
fn set_px_zero_is_already_expired() {
    let mut store = Store::new();
    let mut info = Info::new(Role::Master);
    respond(
        b"*5\r\n$3\r\nSET\r\n$1\r\nk\r\n$1\r\nv\r\n$2\r\nPX\r\n$1\r\n0\r\n",
        &mut store,
        &mut info,
        100,
    );
    let out = respond(b"*2\r\n$3\r\nGET\r\n$1\r\nk\r\n", &mut store, &mut info, 101);
    assert_eq!(out, b"$-1\r\n");
}

#[test]
fn get_absent_and_expired_keys_stay_null() {
    let mut store = Store::new();
    let mut info = Info::new(Role::Master);
    let out = respond(b"*2\r\n$3\r\nGET\r\n$4\r\nnope\r\n", &mut store, &mut info, 0);
    assert_eq!(out, b"$-1\r\n");
    respond(
        b"*5\r\n$3\r\nSET\r\n$1\r\nk\r\n$1\r\nv\r\n$2\r\nPX\r\n$2\r\n10\r\n",
        &mut store,
        &mut info,
        0,
    );
    let out = respond(b"*2\r\n$3\r\nGET\r\n$1\r\nk\r\n", &mut store, &mut info, 10);
    assert_eq!(out, b"$-1\r\n");
    let out = respond(b"*2\r\n$3\r\nGET\r\n$1\r\nk\r\n", &mut store, &mut info, 10);
    assert_eq!(out, b"$-1\r\n");
}

#[test]
fn store_get_evicts_expired_entry() {
    let mut store = Store::new();
    store.set(b"k", b"v", Some(10), 0);
    assert_eq!(store.get(b"k", 5), Some(b"v".to_vec()));
    assert_eq!(store.get(b"k", 10), None);
    // The entry is gone: even a read back at an early time finds nothing.
    assert_eq!(store.get(b"k", 0), None);
}

#[test]
fn store_set_overwrites() {
    let mut store = Store::new();
    store.set(b"k", b"old", None, 0);
    store.set(b"k", b"new", None, 1);
    assert_eq!(store.get(b"k", 2), Some(b"new".to_vec()));
}

#[test]
fn info_replication_block() {
    let mut store = Store::new();
    let mut info = Info::new(Role::Master);
    let out = respond(
        b"*2\r\n$4\r\nINFO\r\n$11\r\nREPLICATION\r\n",
        &mut store,
        &mut info,
        0,
    );
    let expected = b"$101\r\n# Replication\nrole:master\nmaster_replid:8371b4fb1155b71f4a04d3e1bc3e18c4a990aeeb\nmaster_repl_offset:0\r\n";
    assert_eq!(out, expected.to_vec());
}

#[test]
fn info_role_lines() {
    assert_eq!(Info::new(Role::Master).role(), b"role:master".to_vec());
    assert_eq!(Info::new(Role::Slave).role(), b"role:slave".to_vec());
    assert_eq!(
        Info::new(Role::Master).id(),
        b"8371b4fb1155b71f4a04d3e1bc3e18c4a990aeeb".to_vec()
    );
}

#[test]
fn replconf_is_acknowledged() {
    let mut store = Store::new();
    let mut info = Info::new(Role::Master);
    let out = respond(
        b"*3\r\n$8\r\nREPLCONF\r\n$4\r\ncapa\r\n$6\r\npsync2\r\n",
        &mut store,
        &mut info,
        0,
    );
    assert_eq!(out, b"+OK\r\n");
}

#[test]
fn psync_initial_query_yields_fullresync() {
    let mut store = Store::new();
    let mut info = Info::new(Role::Master);
    let out = respond(b"*3\r\n$5\r\nPSYNC\r\n$1\r\n?\r\n$2\r\n-1\r\n", &mut store, &mut info, 0);
    assert_eq!(
        out,
        b"+FULLRESYNC 8371b4fb1155b71f4a04d3e1bc3e18c4a990aeeb 0\r\n".to_vec()
    );
}

#[test]
fn psync_continuation_adopts_id_and_offset() {
    let mut store = Store::new();
    let mut info = Info::new(Role::Master);
    let out = respond(
        b"*3\r\n$5\r\nPSYNC\r\n$6\r\nabc123\r\n$2\r\n42\r\n",
        &mut store,
        &mut info,
        0,
    );
    assert_eq!(out, b"+REPLCONF ACK 42\r\n".to_vec());
    assert_eq!(info.master_replid, b"abc123".to_vec());
    assert_eq!(info.master_repl_offset, 42);
}

#[test]
fn psync_continuation_with_bad_offset_fails() {
    let mut store = Store::new();
    let mut info = Info::new(Role::Master);
    let cmd = Command::from_resp(Resp::Array(vec![
        Resp::Bulk(Some(b"PSYNC".to_vec())),
        Resp::Bulk(Some(b"abc123".to_vec())),
        Resp::Bulk(Some(b"notanumber".to_vec())),
    ]))
    .unwrap();
    let result = execute_command(cmd, &mut store, &mut info, 0);
    assert!(matches!(
        result.unwrap_err(),
        CommandError::InvalidArguments(_)
    ));
}

#[test]
fn empty_values_are_stored_and_served() {
    let mut store = Store::new();
    let mut info = Info::new(Role::Master);
    let out = respond(
        b"*3\r\n$3\r\nSET\r\n$1\r\nk\r\n$0\r\n\r\n",
        &mut store,
        &mut info,
        0,
    );
    assert_eq!(out, b"+OK\r\n");
    let out = respond(b"*2\r\n$3\r\nGET\r\n$1\r\nk\r\n", &mut store, &mut info, 0);
    assert_eq!(out, b"$0\r\n\r\n");
    let out = respond(b"*2\r\n$4\r\nECHO\r\n$0\r\n\r\n", &mut store, &mut info, 0);
    assert_eq!(out, b"$0\r\n\r\n");
}
