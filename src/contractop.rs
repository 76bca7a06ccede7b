//! The `ContractOp` contract: seeds storage, migrates itself, and forwards
//! calls to peer contracts found through the caller's name table.
use vstd::prelude::*;

use crate::address::{copy_bytes, Address};
use crate::codec::{
    le_bytes, lemma_tail_tail, tail, u128_at, u64_at, var_bytes, var_bytes_at, DecodeError, Sink,
    Source,
};
use crate::context::{context_at, get_tc, table_lookup};
use crate::host::{
    is_selector, probe_run, run, sel, HostModel, Frame, Host, Program, KEY_MIGRATE_STORE, KEY_MIGRATE_STORE2,
    VAL_MIGRATE_STORE, VAL_MIGRATE_STORE2,
};

verus! {

/// Why an invocation stopped without a result.
#[derive(Debug, Clone, Copy, PartialEq, Eq, Structural)]
pub enum Abort {
    /// The input could not be decoded as the action expects.
    Decode(DecodeError),
    /// No action has this selector.
    UnsupportedAction,
    /// The name table has no entry for the peer the action needs.
    MissingPeer,
    /// The called contract is missing or aborted.
    CallFailed,
    /// The host refused to migrate the contract.
    MigrateFailed,
    /// A value read back differs from the one expected.
    Mismatch,
}

pub open spec fn res_bytes(r: Result<Vec<u8>, Abort>) -> Result<Seq<u8>, Abort> {
    match r {
        Ok(v) => Ok(v@),
        Err(e) => Err(e),
    }
}

/// Storing `val` as eight bytes under the one-byte key `key` of `me`.
pub open spec fn seed_run(h: HostModel, me: Seq<u8>, key: u8, val: u64) -> (
    HostModel,
    Result<Seq<u8>, Abort>,
) {
    (h.insert(me, (h[me].0, h[me].1.insert(seq![key], le_bytes(val as nat, 8)))), Ok(Seq::empty()))
}

/// Replacing the code of `me` by the storage probe, then calling it.
pub open spec fn migrate_run(h: HostModel, me: Seq<u8>, entry: Seq<u8>) -> (
    HostModel,
    Result<Seq<u8>, Abort>,
) {
    let h1 = h.insert(me, (Program::StorageProbe, h[me].1));
    match probe_run(h1[me].1) {
        None => (h1, Err(Abort::CallFailed)),
        Some(o) => match u64_at(o) {
            Err(e) => (h1, Err(Abort::Decode(e))),
            Ok((v, _)) => if v == VAL_MIGRATE_STORE2 {
                (h1, Ok(Seq::empty()))
            } else {
                (h1, Err(Abort::Mismatch))
            },
        },
    }
}

/// Reading the call context from `rest`, then calling the peer named `name`
/// with `payload`, as `me` within a transaction entered at `entry`.
pub open spec fn forward_run(
    h: HostModel,
    me: Seq<u8>,
    entry: Seq<u8>,
    rest: Seq<u8>,
    name: Seq<u8>,
    payload: Seq<u8>,
) -> (HostModel, Result<Seq<u8>, Abort>) {
    match context_at(rest) {
        Err(e) => (h, Err(Abort::Decode(e))),
        Ok(((_, es), _)) => match table_lookup(es, name, es.len()) {
            None => (h, Err(Abort::MissingPeer)),
            Some(peer) => if !h.contains_key(peer) {
                (h, Err(Abort::CallFailed))
            } else {
                let (st, out) = run(h[peer].0, peer, me, entry, h[peer].1, payload);
                let h2 = h.insert(peer, (h[peer].0, st));
                match out {
                    None => (h2, Err(Abort::CallFailed)),
                    Some(o) => (h2, Ok(o)),
                }
            },
        },
    }
}

/// Forwarding an action and two amounts read from `args` to the peer named
/// "helloworld.wasm".
pub open spec fn callwasm_run(h: HostModel, me: Seq<u8>, entry: Seq<u8>, args: Seq<u8>) -> (
    HostModel,
    Result<Seq<u8>, Abort>,
) {
    match var_bytes_at(args) {
        Err(e) => (h, Err(Abort::Decode(e))),
        Ok((act, k1)) => match u128_at(tail(args, k1), 16) {
            Err(e) => (h, Err(Abort::Decode(e))),
            Ok((x, _)) => match u128_at(tail(args, k1 + 16), 16) {
                Err(e) => (h, Err(Abort::Decode(e))),
                Ok((y, _)) => forward_run(
                    h,
                    me,
                    entry,
                    tail(args, k1 + 32),
                    sel("helloworld.wasm"),
                    var_bytes(act) + le_bytes(x as nat, 16) + le_bytes(y as nat, 16),
                ),
            },
        },
    }
}

/// Forwarding an action and a text read from `args` to the peer named
/// "jsvm.wasm".
pub open spec fn calljsvm_run(h: HostModel, me: Seq<u8>, entry: Seq<u8>, args: Seq<u8>) -> (
    HostModel,
    Result<Seq<u8>, Abort>,
) {
    match var_bytes_at(args) {
        Err(e) => (h, Err(Abort::Decode(e))),
        Ok((act, k1)) => match var_bytes_at(tail(args, k1)) {
            Err(e) => (h, Err(Abort::Decode(e))),
            Ok((text, k2)) => forward_run(
                h,
                me,
                entry,
                tail(args, k1 + k2),
                sel("jsvm.wasm"),
                var_bytes(act) + var_bytes(text),
            ),
        },
    }
}

/// What `invoke` leaves in the host and returns, for the contract at `me`
/// in a transaction entered at `entry`.
pub open spec fn op_run(h: HostModel, me: Seq<u8>, entry: Seq<u8>, input: Seq<u8>) -> (
    HostModel,
    Result<Seq<u8>, Abort>,
) {
    match var_bytes_at(input) {
        Err(e) => (h, Err(Abort::Decode(e))),
        Ok((a, k)) => {
            let args = tail(input, k);
            if a == sel("test_migrate") {
                migrate_run(h, me, entry)
            } else if a == sel("storage_write") {
                seed_run(h, me, KEY_MIGRATE_STORE, VAL_MIGRATE_STORE)
            } else if a == sel("storage_write2") {
                seed_run(h, me, KEY_MIGRATE_STORE2, VAL_MIGRATE_STORE2)
            } else if a == sel("test_callwasm") {
                callwasm_run(h, me, entry, args)
            } else if a == sel("test_calljsvm") {
                calljsvm_run(h, me, entry, args)
            } else {
                (h, Err(Abort::UnsupportedAction))
            }
        },
    }
}

/// Migration keeps a contract's address and storage: after the two probe
/// values are stored and the contract is migrated to the storage probe, both
/// keys read back as written, a call to the same address runs the probe, and
/// it returns the second value, which decodes back to that value.
pub proof fn lemma_migration_keeps_storage(
    h: HostModel,
    me: Seq<u8>,
    caller: Seq<u8>,
    entry: Seq<u8>,
    input: Seq<u8>,
)
    requires
        h.contains_key(me),
    ensures
        ({
            let h0 = seed_run(
                seed_run(h, me, KEY_MIGRATE_STORE, VAL_MIGRATE_STORE).0,
                me,
                KEY_MIGRATE_STORE2,
                VAL_MIGRATE_STORE2,
            ).0;
            let h1 = h0.insert(me, (Program::StorageProbe, h0[me].1));
            &&& h1[me].1 == h0[me].1
            &&& h1[me].1[seq![KEY_MIGRATE_STORE]] == le_bytes(VAL_MIGRATE_STORE as nat, 8)
            &&& h1[me].1[seq![KEY_MIGRATE_STORE2]] == le_bytes(VAL_MIGRATE_STORE2 as nat, 8)
            &&& run(h1[me].0, me, caller, entry, h1[me].1, input) == (
                h1[me].1,
                Some(le_bytes(VAL_MIGRATE_STORE2 as nat, 8)),
            )
            &&& migrate_run(h0, me, entry) == (h1, Ok::<Seq<u8>, Abort>(Seq::empty()))
        }),
{
    let k1 = seq![KEY_MIGRATE_STORE];
    let k2 = seq![KEY_MIGRATE_STORE2];
    assert(k1[0] != k2[0]);
    assert(k1 != k2);
    crate::codec::lemma_pow256_values();
    crate::codec::lemma_le_round_trip(VAL_MIGRATE_STORE as nat, 8);
    crate::codec::lemma_le_round_trip(VAL_MIGRATE_STORE2 as nat, 8);
    crate::codec::lemma_fixed_round_trip(0, 0, 0, VAL_MIGRATE_STORE2, 0, Seq::empty());
    assert(le_bytes(VAL_MIGRATE_STORE2 as nat, 8) + Seq::<u8>::empty() =~= le_bytes(
        VAL_MIGRATE_STORE2 as nat,
        8,
    ));
}

/// Reads the call context that follows in `source` and calls the peer that
/// it names `name` with `payload`.
fn forward(
    host: &mut Host,
    me: &Address,
    entry: &Address,
    source: &mut Source,
    name: &str,
    payload: &[u8],
) -> (r: Result<Vec<u8>, Abort>)
    requires
        old(host).wf(),
        old(source).wf(),
    ensures
        final(host).wf(),
        ({
            let (h, out) = forward_run(old(host)@, me@, entry@, old(source).rest(), sel(name), payload@);
            final(host)@ == h && res_bytes(r) == out
        }),
{
    let tc = match get_tc(source) {
        Ok(tc) => tc,
        Err(e) => return Err(Abort::Decode(e)),
    };
    let peer = match tc.lookup(name.as_bytes()) {
        Some(a) => a,
        None => return Err(Abort::MissingPeer),
    };
    let frame = Frame { caller: me.duplicate(), entry: entry.duplicate() };
    match host.call_contract(&frame, &peer, payload) {
        Some(out) => Ok(out),
        None => Err(Abort::CallFailed),
    }
}

/// Stores `val` under the one-byte key `key` of `me` and checks that it
/// reads back.
fn seed(host: &mut Host, me: &Address, key: u8, val: u64) -> (r: Result<Vec<u8>, Abort>)
    requires
        old(host).wf(),
        old(host)@.contains_key(me@),
    ensures
        final(host).wf(),
        ({
            let (h, out) = seed_run(old(host)@, me@, key, val);
            final(host)@ == h && res_bytes(r) == out
        }),
{
    let mut sink = Sink::new();
    sink.write_u64(val);
    let k: Vec<u8> = vec![key];
    assert(k@ =~= seq![key]);
    let bytes = sink.into_bytes();
    assert(bytes@ =~= le_bytes(val as nat, 8));
    host.storage_write(me, k.as_slice(), bytes.as_slice());
    let back = match host.storage_read(me, k.as_slice()) {
        Some(v) => v,
        None => return Err(Abort::Mismatch),
    };
    let ghost b = back@;
    let mut src = Source::new(back);
    proof {
        crate::codec::lemma_fixed_round_trip(0, 0, 0, val, 0, Seq::empty());
        assert(b =~= le_bytes(val as nat, 8) + Seq::empty());
    }
    match src.read_u64() {
        Ok(v) => if v == val {
            Ok(Vec::new())
        } else {
            Err(Abort::Mismatch)
        },
        Err(e) => Err(Abort::Decode(e)),
    }
}

/// Replaces the code of `me` by the storage probe, calls it, and checks the
/// value that it returns.
fn migrate_and_check(host: &mut Host, me: &Address, entry: &Address) -> (r: Result<Vec<u8>, Abort>)
    requires
        old(host).wf(),
        old(host)@.contains_key(me@),
    ensures
        final(host).wf(),
        ({
            let (h, out) = migrate_run(old(host)@, me@, entry@);
            final(host)@ == h && res_bytes(r) == out
        }),
{
    let address = match host.migrate(me, Program::StorageProbe) {
        Some(a) => a,
        None => return Err(Abort::MigrateFailed),
    };
    let ghost h1 = host@;
    let frame = Frame { caller: me.duplicate(), entry: entry.duplicate() };
    let empty: Vec<u8> = Vec::new();
    let resv = match host.call_contract(&frame, &address, empty.as_slice()) {
        Some(v) => v,
        None => {
            assert(host@ =~= h1);
            return Err(Abort::CallFailed);
        },
    };
    assert(host@ =~= h1);
    let mut src = Source::new(resv);
    match src.read_u64() {
        Ok(v) => if v == VAL_MIGRATE_STORE2 {
            Ok(Vec::new())
        } else {
            Err(Abort::Mismatch)
        },
        Err(e) => Err(Abort::Decode(e)),
    }
}

/// Reads an action and two amounts, then forwards them to the peer named
/// "helloworld.wasm" in the call context that follows.
fn call_wasm_peer(host: &mut Host, me: &Address, entry: &Address, source: &mut Source) -> (r:
    Result<Vec<u8>, Abort>)
    requires
        old(host).wf(),
        old(source).wf(),
    ensures
        final(host).wf(),
        ({
            let (h, out) = callwasm_run(old(host)@, me@, entry@, old(source).rest());
            final(host)@ == h && res_bytes(r) == out
        }),
{
    let ghost d = source.data();
    let ghost k = source.pos();
    let helloaction = match source.read_var_bytes() {
        Ok(b) => b,
        Err(e) => return Err(Abort::Decode(e)),
    };
    let ghost k1 = (source.pos() - k) as nat;
    proof {
        lemma_tail_tail(d, k, k1);
    }
    let x = match source.read_u128() {
        Ok(x) => x,
        Err(e) => return Err(Abort::Decode(e)),
    };
    proof {
        lemma_tail_tail(d, k, k1 + 16);
    }
    let y = match source.read_u128() {
        Ok(y) => y,
        Err(e) => return Err(Abort::Decode(e)),
    };
    proof {
        lemma_tail_tail(d, k, k1 + 32);
    }
    let mut isink = Sink::new();
    isink.write_var_bytes(helloaction.as_slice());
    isink.write_u128(x);
    isink.write_u128(y);
    assert(isink@ =~= var_bytes(helloaction@) + le_bytes(x as nat, 16) + le_bytes(y as nat, 16));
    forward(host, me, entry, source, "helloworld.wasm", isink.bytes())
}

/// Reads an action and a text, then forwards them to the peer named
/// "jsvm.wasm" in the call context that follows.
fn call_jsvm_peer(host: &mut Host, me: &Address, entry: &Address, source: &mut Source) -> (r:
    Result<Vec<u8>, Abort>)
    requires
        old(host).wf(),
        old(source).wf(),
    ensures
        final(host).wf(),
        ({
            let (h, out) = calljsvm_run(old(host)@, me@, entry@, old(source).rest());
            final(host)@ == h && res_bytes(r) == out
        }),
{
    let ghost d = source.data();
    let ghost k = source.pos();
    let helloaction = match source.read_var_bytes() {
        Ok(b) => b,
        Err(e) => return Err(Abort::Decode(e)),
    };
    let ghost k1 = (source.pos() - k) as nat;
    proof {
        lemma_tail_tail(d, k, k1);
    }
    let text = match source.read_var_bytes() {
        Ok(b) => b,
        Err(e) => return Err(Abort::Decode(e)),
    };
    let ghost k2 = (source.pos() - k - k1) as nat;
    proof {
        lemma_tail_tail(d, k, k1 + k2);
    }
    let mut isink = Sink::new();
    isink.write_var_bytes(helloaction.as_slice());
    isink.write_var_bytes(text.as_slice());
    assert(isink@ =~= var_bytes(helloaction@) + var_bytes(text@));
    forward(host, me, entry, source, "jsvm.wasm", isink.bytes())
}

/// Runs the `ContractOp` contract deployed at `me` on `input`, within `host`,
/// in a transaction entered at `entry`.
pub fn invoke(host: &mut Host, me: &Address, entry: &Address, input: &[u8]) -> (r: Result<
    Vec<u8>,
    Abort,
>)
    requires
        old(host).wf(),
        old(host)@.contains_key(me@),
    ensures
        final(host).wf(),
        ({
            let (h, out) = op_run(old(host)@, me@, entry@, input@);
            final(host)@ == h && res_bytes(r) == out
        }),
{
    let mut source = Source::new(copy_bytes(input));
    let action = match source.read_var_bytes() {
        Ok(a) => a,
        Err(e) => return Err(Abort::Decode(e)),
    };
    let ghost k = source.pos();
    let a = action.as_slice();
    if is_selector(a, "test_migrate") {
        migrate_and_check(host, me, entry)
    } else if is_selector(a, "storage_write") {
        seed(host, me, KEY_MIGRATE_STORE, VAL_MIGRATE_STORE)
    } else if is_selector(a, "storage_write2") {
        seed(host, me, KEY_MIGRATE_STORE2, VAL_MIGRATE_STORE2)
    } else if is_selector(a, "test_callwasm") {
        call_wasm_peer(host, me, entry, &mut source)
    } else if is_selector(a, "test_calljsvm") {
        call_jsvm_peer(host, me, entry, &mut source)
    } else {
        Err(Abort::UnsupportedAction)
    }
}

} // verus!
