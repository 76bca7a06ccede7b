use ontio_contract_core::address::Address;
use ontio_contract_core::codec::{DecodeError, Sink, Source};
use ontio_contract_core::context::{get_tc, TestContext};
use ontio_contract_core::contractop;
use ontio_contract_core::contractop::Abort;
use ontio_contract_core::helloworld;
use ontio_contract_core::host::{Frame, Host, Program};
use ontio_contract_core::wasm_call_wasm;

fn addr(b: u8) -> Address {
    Address::from_slice(&[b; 20]).unwrap()
}

fn frame(caller: u8, entry: u8) -> Frame {
    Frame { caller: addr(caller), entry: addr(entry) }
}

fn call_input(action: &[u8], rest: &[u8]) -> Vec<u8> {
    let mut sink = Sink::new();
    sink.write_var_bytes(action);
    sink.write_raw(rest);
    sink.into_bytes()
}

fn add_input(a: u128, b: u128) -> Vec<u8> {
    let mut sink = Sink::new();
    sink.write_var_bytes(b"add");
    sink.write_u128(a);
    sink.write_u128(b);
    sink.into_bytes()
}

fn context_bytes(admin: u8, table: &[(&[u8], u8)]) -> Vec<u8> {
    let mut sink = Sink::new();
    sink.write_address(&addr(admin));
    sink.write_varuint(table.len() as u64);
    for (name, a) in table {
        sink.write_var_bytes(name);
        sink.write_address(&addr(*a));
    }
    sink.into_bytes()
}

#[test]
fn add_sums() {
    assert_eq!(helloworld::add(1, 2), 3);
    assert_eq!(helloworld::add(u128::MAX - 1, 1), u128::MAX);
}

#[test]
fn call_add_returns_three() {
    let mut host = Host::new();
    assert!(host.deploy(&addr(1), Program::HelloWorld));
    let out = host.call_contract(&frame(9, 9), &addr(1), &add_input(1, 2)).unwrap();
    let mut src = Source::new(out);
    assert_eq!(src.read_u128(), Ok(3));
    assert_eq!(src.remaining(), 0);
}

#[test]
fn call_add_overflow_aborts() {
    let mut host = Host::new();
    host.deploy(&addr(1), Program::HelloWorld);
    assert_eq!(host.call_contract(&frame(9, 9), &addr(1), &add_input(u128::MAX, 1)), None);
}

#[test]
fn call_missing_contract_fails() {
    let mut host = Host::new();
    host.deploy(&addr(1), Program::HelloWorld);
    assert_eq!(host.call_contract(&frame(9, 9), &addr(2), &add_input(1, 2)), None);
    assert_eq!(host.code_at(&addr(2)), None);
    assert_eq!(host.code_at(&addr(1)), Some(Program::HelloWorld));
}

#[test]
fn unknown_selector_aborts() {
    let mut host = Host::new();
    host.deploy(&addr(1), Program::HelloWorld);
    assert_eq!(host.call_contract(&frame(9, 9), &addr(1), &call_input(b"nope", &[])), None);
    assert_eq!(host.call_contract(&frame(9, 9), &addr(1), &[0xFE]), None);
}

#[test]
fn deploy_twice_is_refused() {
    let mut host = Host::new();
    assert!(host.deploy(&addr(1), Program::HelloWorld));
    assert!(!host.deploy(&addr(1), Program::Greeting));
    assert_eq!(host.code_at(&addr(1)), Some(Program::HelloWorld));
}

#[test]
fn frame_addresses() {
    let mut host = Host::new();
    host.deploy(&addr(1), Program::HelloWorld);
    let f = frame(7, 8);
    let me = host.call_contract(&f, &addr(1), &call_input(b"self_address", &[])).unwrap();
    assert_eq!(me, vec![1u8; 20]);
    let caller = host.call_contract(&f, &addr(1), &call_input(b"caller_address", &[])).unwrap();
    assert_eq!(caller, vec![7u8; 20]);
    let entry = host.call_contract(&f, &addr(1), &call_input(b"entry_address", &[])).unwrap();
    assert_eq!(entry, vec![8u8; 20]);
}

#[test]
fn storage_through_calls() {
    let mut host = Host::new();
    host.deploy(&addr(1), Program::HelloWorld);
    let f = frame(9, 9);
    let mut args = Sink::new();
    args.write_var_bytes(b"abc");
    args.write_var_bytes(b"123");
    let w = host.call_contract(&f, &addr(1), &call_input(b"storage_write", args.bytes()));
    assert_eq!(w, Some(Vec::new()));
    let mut key = Sink::new();
    key.write_var_bytes(b"abc");
    let r = host.call_contract(&f, &addr(1), &call_input(b"storage_read", key.bytes())).unwrap();
    let mut src = Source::new(r);
    assert_eq!(src.read_var_bytes(), Ok(b"123".to_vec()));
    assert_eq!(host.storage_read(&addr(1), b"abc"), Some(b"123".to_vec()));
    let d = host.call_contract(&f, &addr(1), &call_input(b"storage_delete", key.bytes()));
    assert_eq!(d, Some(Vec::new()));
    let r = host.call_contract(&f, &addr(1), &call_input(b"storage_read", key.bytes()));
    assert_eq!(r, Some(Vec::new()));
    assert_eq!(host.storage_read(&addr(1), b"abc"), None);
}

#[test]
fn storage_is_scoped_per_contract() {
    let mut host = Host::new();
    host.deploy(&addr(1), Program::HelloWorld);
    host.deploy(&addr(2), Program::HelloWorld);
    host.storage_write(&addr(1), b"k", b"v");
    assert_eq!(host.storage_read(&addr(1), b"k"), Some(b"v".to_vec()));
    assert_eq!(host.storage_read(&addr(2), b"k"), None);
}

#[test]
fn migration_keeps_storage_and_runs_new_code() {
    let mut host = Host::new();
    let me = addr(5);
    host.deploy(&me, Program::HelloWorld);
    let entry = addr(5);
    assert_eq!(contractop::invoke(&mut host, &me, &entry, &call_input(b"storage_write", &[])), Ok(Vec::new()));
    assert_eq!(contractop::invoke(&mut host, &me, &entry, &call_input(b"storage_write2", &[])), Ok(Vec::new()));
    assert_eq!(host.storage_read(&me, &[0x25]), Some(vec![0x97, 0x82, 0x13, 0, 0, 0, 0, 0]));
    assert_eq!(contractop::invoke(&mut host, &me, &entry, &call_input(b"test_migrate", &[])), Ok(Vec::new()));
    assert_eq!(host.code_at(&me), Some(Program::StorageProbe));
    assert_eq!(host.storage_read(&me, &[0x14]), Some(vec![0x33, 0x27, 0x03, 0, 0, 0, 0, 0]));
    let out = host.call_contract(&frame(1, 1), &me, &[]).unwrap();
    let mut src = Source::new(out);
    assert_eq!(src.read_u64(), Ok(0x32733));
}

#[test]
fn migration_without_seeded_storage_fails() {
    let mut host = Host::new();
    let me = addr(5);
    host.deploy(&me, Program::HelloWorld);
    let r = contractop::invoke(&mut host, &me, &addr(5), &call_input(b"test_migrate", &[]));
    assert_eq!(r, Err(Abort::CallFailed));
    assert_eq!(host.code_at(&me), Some(Program::StorageProbe));
}

#[test]
fn migrate_missing_contract_fails() {
    let mut host = Host::new();
    assert!(host.migrate(&addr(3), Program::Greeting).is_none());
    host.deploy(&addr(3), Program::HelloWorld);
    host.storage_write(&addr(3), b"k", b"v");
    let a = host.migrate(&addr(3), Program::Greeting).unwrap();
    assert!(a.same_as(&addr(3)));
    assert_eq!(host.storage_read(&addr(3), b"k"), Some(b"v".to_vec()));
}

#[test]
fn callwasm_forwards_through_name_table() {
    let mut host = Host::new();
    let me = addr(5);
    host.deploy(&me, Program::HelloWorld);
    host.deploy(&addr(6), Program::HelloWorld);
    let mut args = Sink::new();
    args.write_var_bytes(b"add");
    args.write_u128(1);
    args.write_u128(2);
    args.write_raw(&context_bytes(4, &[(b"jsvm.wasm", 7), (b"helloworld.wasm", 6)]));
    let out = contractop::invoke(&mut host, &me, &me, &call_input(b"test_callwasm", args.bytes())).unwrap();
    let mut src = Source::new(out);
    assert_eq!(src.read_u128(), Ok(3));
}

#[test]
fn callwasm_without_peer_fails() {
    let mut host = Host::new();
    let me = addr(5);
    host.deploy(&me, Program::HelloWorld);
    let mut args = Sink::new();
    args.write_var_bytes(b"add");
    args.write_u128(1);
    args.write_u128(2);
    args.write_raw(&context_bytes(4, &[(b"other.wasm", 6)]));
    let r = contractop::invoke(&mut host, &me, &me, &call_input(b"test_callwasm", args.bytes()));
    assert_eq!(r, Err(Abort::MissingPeer));
}

#[test]
fn calljsvm_to_absent_peer_fails() {
    let mut host = Host::new();
    let me = addr(5);
    host.deploy(&me, Program::HelloWorld);
    let mut args = Sink::new();
    args.write_var_bytes(b"evaluate");
    args.write_var_bytes(b"fib(3)");
    args.write_raw(&context_bytes(4, &[(b"jsvm.wasm", 7)]));
    let r = contractop::invoke(&mut host, &me, &me, &call_input(b"test_calljsvm", args.bytes()));
    assert_eq!(r, Err(Abort::CallFailed));
}

#[test]
fn contractop_errors() {
    let mut host = Host::new();
    let me = addr(5);
    host.deploy(&me, Program::HelloWorld);
    let r = contractop::invoke(&mut host, &me, &me, &call_input(b"fly", &[]));
    assert_eq!(r, Err(Abort::UnsupportedAction));
    let r = contractop::invoke(&mut host, &me, &me, &call_input(b"test_callwasm", &[1]));
    assert_eq!(r, Err(Abort::Decode(DecodeError::UnexpectedEof)));
    let r = contractop::invoke(&mut host, &me, &me, &[]);
    assert_eq!(r, Err(Abort::Decode(DecodeError::UnexpectedEof)));
}

#[test]
fn context_table_later_entry_wins() {
    let bytes = context_bytes(4, &[(b"a", 1), (b"b", 2), (b"a", 3)]);
    let mut src = Source::new(bytes);
    let tc = get_tc(&mut src).ok().unwrap();
    assert_eq!(src.remaining(), 0);
    assert!(tc.admin().same_as(&addr(4)));
    assert!(tc.lookup(b"a").unwrap().same_as(&addr(3)));
    assert!(tc.lookup(b"b").unwrap().same_as(&addr(2)));
    assert!(tc.lookup(b"c").is_none());
}

#[test]
fn context_short_table_fails() {
    let mut bytes = context_bytes(4, &[(b"a", 1)]);
    bytes.pop();
    let mut src = Source::new(bytes);
    assert_eq!(get_tc(&mut src).err(), Some(DecodeError::UnexpectedEof));
}

#[test]
fn create_and_call_greeting() {
    let mut host = Host::new();
    let me = addr(5);
    host.deploy(&me, Program::HelloWorld);
    let fresh = addr(8);
    let out = wasm_call_wasm::invoke(&mut host, &me, &me, &fresh, &call_input(b"create_contract", &[])).unwrap();
    assert_eq!(out, vec![8u8; 20]);
    let again = wasm_call_wasm::invoke(&mut host, &me, &me, &fresh, &call_input(b"create_contract", &[])).unwrap();
    assert_eq!(again, vec![0u8; 20]);
    let out = wasm_call_wasm::invoke(&mut host, &me, &me, &fresh, &call_input(b"call_wasm", &[8u8; 20])).unwrap();
    let mut src = Source::new(out);
    assert_eq!(src.read_var_bytes(), Ok(b"hello world".to_vec()));
}

#[test]
fn call_wasm_missing_gives_empty_text() {
    let mut host = Host::new();
    let me = addr(5);
    let text = wasm_call_wasm::call_wasm(&mut host, &me, &me, &addr(8));
    assert!(text.is_empty());
    let created = wasm_call_wasm::create_contract(&mut host, &addr(8));
    assert!(created.same_as(&addr(8)));
    assert_eq!(wasm_call_wasm::call_wasm(&mut host, &me, &me, &addr(8)), b"hello world".to_vec());
}

#[test]
fn context_encoding_round_trip() {
    let mut tc = TestContext::new(addr(4));
    tc.insert(b"helloworld.wasm", &addr(6));
    tc.insert(b"jsvm.wasm", &addr(7));
    let mut sink = Sink::new();
    tc.write_to(&mut sink);
    sink.write_byte(0xEE);
    let bytes = sink.into_bytes();
    assert_eq!(bytes[..bytes.len() - 1].to_vec(), context_bytes(4, &[(b"helloworld.wasm", 6), (b"jsvm.wasm", 7)]));
    let mut src = Source::new(bytes);
    let back = get_tc(&mut src).ok().unwrap();
    assert_eq!(src.remaining(), 1);
    assert!(back.admin().same_as(&addr(4)));
    assert!(back.lookup(b"jsvm.wasm").unwrap().same_as(&addr(7)));
    assert!(back.lookup(b"helloworld.wasm").unwrap().same_as(&addr(6)));
}
