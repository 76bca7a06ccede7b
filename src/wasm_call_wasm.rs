//! The `WasmCallWasm` contract: deploys a greeting contract and calls a
//! contract by address, handing back its text.
use vstd::prelude::*;

use crate::address::{copy_bytes, Address, ADDRESS_LEN};
use crate::codec::{raw_at, tail, var_bytes, var_bytes_at, Sink, Source};
use crate::contractop::{res_bytes, Abort};
use crate::host::{is_selector, run, sel, Frame, Host, HostModel, Program};

verus! {

/// The address of all zero bytes.
pub open spec fn zero_address() -> Seq<u8> {
    Seq::new(ADDRESS_LEN as nat, |i: int| 0u8)
}

/// Deploys the greeting contract at `fresh`, the address that the host
/// assigns to its code; the zero address where `fresh` is already taken.
pub fn create_contract(host: &mut Host, fresh: &Address) -> (r: Address)
    requires
        old(host).wf(),
    ensures
        final(host).wf(),
        !old(host)@.contains_key(fresh@) ==> r@ == fresh@ && final(host)@ == old(host)@.insert(
            fresh@,
            (Program::Greeting, Map::empty()),
        ),
        old(host)@.contains_key(fresh@) ==> r@ == zero_address() && final(host)@ == old(host)@,
{
    if host.deploy(fresh, Program::Greeting) {
        fresh.duplicate()
    } else {
        let z = Address::zero();
        assert(z@ =~= zero_address());
        z
    }
}

/// What calling `addr` with empty input gives, as text: empty where the call
/// fails.
pub open spec fn call_wasm_run(h: HostModel, me: Seq<u8>, entry: Seq<u8>, addr: Seq<u8>) -> (
    HostModel,
    Seq<u8>,
) {
    if !h.contains_key(addr) {
        (h, Seq::empty())
    } else {
        let (st, out) = run(h[addr].0, addr, me, entry, h[addr].1, Seq::empty());
        (
            h.insert(addr, (h[addr].0, st)),
            match out {
                Some(o) => o,
                None => Seq::empty(),
            },
        )
    }
}

/// Calls the contract at `addr` with empty input and returns its output.
pub fn call_wasm(host: &mut Host, me: &Address, entry: &Address, addr: &Address) -> (r: Vec<u8>)
    requires
        old(host).wf(),
    ensures
        final(host).wf(),
        ({
            let (h, out) = call_wasm_run(old(host)@, me@, entry@, addr@);
            final(host)@ == h && r@ == out
        }),
{
    let frame = Frame { caller: me.duplicate(), entry: entry.duplicate() };
    let empty: Vec<u8> = Vec::new();
    assert(empty@ =~= Seq::<u8>::empty());
    match host.call_contract(&frame, addr, empty.as_slice()) {
        Some(r) => r,
        None => Vec::new(),
    }
}

/// What `invoke` leaves in the host and returns for the contract at `me`,
/// where the host would assign `fresh` to newly created code.
pub open spec fn deployer_run(
    h: HostModel,
    me: Seq<u8>,
    entry: Seq<u8>,
    fresh: Seq<u8>,
    input: Seq<u8>,
) -> (HostModel, Result<Seq<u8>, Abort>) {
    match var_bytes_at(input) {
        Err(e) => (h, Err(Abort::Decode(e))),
        Ok((a, k)) => if a == sel("create_contract") {
            if h.contains_key(fresh) {
                (h, Ok(zero_address()))
            } else {
                (h.insert(fresh, (Program::Greeting, Map::empty())), Ok(fresh))
            }
        } else if a == sel("call_wasm") {
            match raw_at(tail(input, k), ADDRESS_LEN as nat) {
                Err(e) => (h, Err(Abort::Decode(e))),
                Ok((addr, _)) => {
                    let (h2, text) = call_wasm_run(h, me, entry, addr);
                    (h2, Ok(var_bytes(text)))
                },
            }
        } else {
            (h, Err(Abort::UnsupportedAction))
        },
    }
}

/// Runs the `WasmCallWasm` contract deployed at `me` on `input`, within
/// `host`, in a transaction entered at `entry`.
pub fn invoke(host: &mut Host, me: &Address, entry: &Address, fresh: &Address, input: &[u8]) -> (r:
    Result<Vec<u8>, Abort>)
    requires
        old(host).wf(),
    ensures
        final(host).wf(),
        ({
            let (h, out) = deployer_run(old(host)@, me@, entry@, fresh@, input@);
            final(host)@ == h && res_bytes(r) == out
        }),
{
    let mut source = Source::new(copy_bytes(input));
    let action = match source.read_var_bytes() {
        Ok(a) => a,
        Err(e) => return Err(Abort::Decode(e)),
    };
    let a = action.as_slice();
    if is_selector(a, "create_contract") {
        let mut sink = Sink::new();
        let created = create_contract(host, fresh);
        sink.write_address(&created);
        assert(sink@ =~= created@);
        Ok(sink.into_bytes())
    } else if is_selector(a, "call_wasm") {
        let addr = match source.read_address() {
            Ok(x) => x,
            Err(e) => return Err(Abort::Decode(e)),
        };
        let text = call_wasm(host, me, entry, &addr);
        let mut sink = Sink::new();
        sink.write_var_bytes(text.as_slice());
        assert(sink@ =~= var_bytes(text@));
        Ok(sink.into_bytes())
    } else {
        Err(Abort::UnsupportedAction)
    }
}

} // verus!
