//! The `HelloWorld` contract: arithmetic, frame addresses and storage access,
//! chosen by the selector at the front of its input.
use vstd::prelude::*;

use crate::address::{copy_bytes, Address};
use crate::codec::{
    lemma_fixed_round_trip, lemma_le_bytes_len, lemma_tail_tail, lemma_var_bytes_round_trip, le_bytes, tail, u128_at,
    var_bytes, var_bytes_at, DecodeError, Sink, Source,
};
use crate::host::{is_selector, run, sel, Frame, Host, Program};
use crate::storage::opt_bytes;

verus! {

/// The sum of two amounts.
pub fn add(a: u128, b: u128) -> (r: u128)
    requires
        a + b <= u128::MAX,
    ensures
        r == a + b,
{
    a + b
}

/// What a `HelloWorld` contract at `me` leaves in its storage and returns,
/// called by `caller` in a transaction entered at `entry`; `None` where it
/// aborts. Actions that need the chain itself (time, blocks, hashes,
/// witnesses, events) are not served by this host and abort.
pub open spec fn hello_run(
    me: Seq<u8>,
    caller: Seq<u8>,
    entry: Seq<u8>,
    st: Map<Seq<u8>, Seq<u8>>,
    input: Seq<u8>,
) -> (Map<Seq<u8>, Seq<u8>>, Option<Seq<u8>>) {
    match var_bytes_at(input) {
        Err(_) => (st, None),
        Ok((a, k)) => {
            let args = tail(input, k);
            if a == sel("add") {
                match u128_at(args, 16) {
                    Err(_) => (st, None),
                    Ok((x, k1)) => match u128_at(tail(args, k1), 16) {
                        Err(_) => (st, None),
                        Ok((y, _)) => if x + y <= u128::MAX {
                            (st, Some(le_bytes((x + y) as nat, 16)))
                        } else {
                            (st, None)
                        },
                    },
                }
            } else if a == sel("self_address") {
                (st, Some(me))
            } else if a == sel("caller_address") {
                (st, Some(caller))
            } else if a == sel("entry_address") {
                (st, Some(entry))
            } else if a == sel("storage_write") {
                match var_bytes_at(args) {
                    Err(_) => (st, None),
                    Ok((key, k1)) => match var_bytes_at(tail(args, k1)) {
                        Err(_) => (st, None),
                        Ok((v, _)) => (st.insert(key, v), Some(Seq::empty())),
                    },
                }
            } else if a == sel("storage_read") {
                match var_bytes_at(args) {
                    Err(_) => (st, None),
                    Ok((key, _)) => (
                        st,
                        Some(
                            if st.contains_key(key) {
                                var_bytes(st[key])
                            } else {
                                Seq::empty()
                            },
                        ),
                    ),
                }
            } else if a == sel("storage_delete") {
                match var_bytes_at(args) {
                    Err(_) => (st, None),
                    Ok((key, _)) => (st.remove(key), Some(Seq::empty())),
                }
            } else {
                (st, None)
            }
        },
    }
}

/// Calling a `HelloWorld` contract with the selector "add" and two encoded
/// amounts gives the encoding of their sum, which decodes back to the sum,
/// and leaves its storage as it was.
pub proof fn lemma_call_add(
    me: Seq<u8>,
    caller: Seq<u8>,
    entry: Seq<u8>,
    st: Map<Seq<u8>, Seq<u8>>,
    a: u128,
    b: u128,
)
    requires
        a + b <= u128::MAX,
    ensures
        run(
            Program::HelloWorld,
            me,
            caller,
            entry,
            st,
            var_bytes(sel("add")) + le_bytes(a as nat, 16) + le_bytes(b as nat, 16),
        ) == (st, Some(le_bytes((a + b) as nat, 16))),
        u128_at(le_bytes((a + b) as nat, 16), 16) == Ok::<(u128, nat), DecodeError>(
            ((a + b) as u128, 16),
        ),
{
    reveal_strlit("add");
    let name = sel("add");
    assert(vstd::utf8::is_ascii_chars("add"@));
    vstd::utf8::is_ascii_chars_encode_utf8("add"@);
    assert(name.len() == 3);
    let la = le_bytes(a as nat, 16);
    let lb = le_bytes(b as nat, 16);
    let input = var_bytes(name) + la + lb;
    lemma_var_bytes_round_trip(name, la + lb);
    assert(input =~= var_bytes(name) + (la + lb));
    let k = var_bytes(name).len();
    assert(tail(input, k) =~= la + lb);
    lemma_fixed_round_trip(0, 0, 0, 0, a, lb);
    lemma_fixed_round_trip(0, 0, 0, 0, b, Seq::empty());
    lemma_fixed_round_trip(0, 0, 0, 0, (a + b) as u128, Seq::empty());
    lemma_le_bytes_len(a as nat, 16);
    assert(tail(la + lb, 16) =~= lb + Seq::empty());
    assert(le_bytes((a + b) as nat, 16) + Seq::<u8>::empty() =~= le_bytes((a + b) as nat, 16));
}

/// Runs the `HelloWorld` contract deployed at `me` on `input`, within `host`.
pub fn invoke(host: &mut Host, frame: &Frame, me: &Address, input: &[u8]) -> (r: Option<Vec<u8>>)
    requires
        old(host).wf(),
        old(host)@.contains_key(me@),
    ensures
        final(host).wf(),
        ({
            let (st, out) = hello_run(me@, frame.caller@, frame.entry@, old(host)@[me@].1, input@);
            &&& opt_bytes(r) == out
            &&& final(host)@ == old(host)@.insert(me@, (old(host)@[me@].0, st))
        }),
{
    proof {
        assert(host@.insert(me@, host@[me@]) =~= host@);
    }
    let mut src = Source::new(copy_bytes(input));
    let action = match src.read_var_bytes() {
        Ok(a) => a,
        Err(_) => return None,
    };
    let ghost k = src.pos();
    let a = action.as_slice();
    if is_selector(a, "add") {
        let x = match src.read_u128() {
            Ok(x) => x,
            Err(_) => return None,
        };
        proof {
            lemma_tail_tail(input@, k, 16);
        }
        let y = match src.read_u128() {
            Ok(y) => y,
            Err(_) => return None,
        };
        if x > u128::MAX - y {
            return None;
        }
        let mut sink = Sink::new();
        sink.write_u128(crate::helloworld::add(x, y));
        assert(sink@ =~= le_bytes((x + y) as nat, 16));
        Some(sink.into_bytes())
    } else if is_selector(a, "self_address") {
        Some(copy_bytes(me.as_slice()))
    } else if is_selector(a, "caller_address") {
        Some(copy_bytes(frame.caller.as_slice()))
    } else if is_selector(a, "entry_address") {
        Some(copy_bytes(frame.entry.as_slice()))
    } else if is_selector(a, "storage_write") {
        let key = match src.read_var_bytes() {
            Ok(key) => key,
            Err(_) => return None,
        };
        let ghost k1 = (src.pos() - k) as nat;
        proof {
            lemma_tail_tail(input@, k, k1);
        }
        let val = match src.read_var_bytes() {
            Ok(v) => v,
            Err(_) => return None,
        };
        host.storage_write(me, key.as_slice(), val.as_slice());
        Some(Vec::new())
    } else if is_selector(a, "storage_read") {
        let key = match src.read_var_bytes() {
            Ok(key) => key,
            Err(_) => return None,
        };
        match host.storage_read(me, key.as_slice()) {
            Some(v) => {
                let mut sink = Sink::new();
                sink.write_var_bytes(v.as_slice());
                assert(sink@ =~= var_bytes(v@));
                Some(sink.into_bytes())
            },
            None => Some(Vec::new()),
        }
    } else if is_selector(a, "storage_delete") {
        let key = match src.read_var_bytes() {
            Ok(key) => key,
            Err(_) => return None,
        };
        host.storage_delete(me, key.as_slice());
        Some(Vec::new())
    } else {
        None
    }
}

} // verus!
