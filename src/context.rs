//! The call context that a caller hands to a contract: an administrator's
//! address and a table from logical names to the addresses of peer contracts.
use vstd::prelude::*;

use crate::address::{bytes_eq, Address, ADDRESS_LEN};
use crate::codec::{
    lemma_raw_round_trip, lemma_tail_tail, lemma_var_bytes_round_trip, lemma_varuint_round_trip,
    raw_at, tail, var_bytes, var_bytes_at, varuint_at, varuint_bytes, DecodeError, Sink, Source,
};

verus! {

/// `n` entries of (length-prefixed name, 20-byte address) at the front of `s`.
pub open spec fn entries_at(s: Seq<u8>, n: nat) -> Result<
    (Seq<(Seq<u8>, Seq<u8>)>, nat),
    DecodeError,
>
    decreases n,
{
    if n == 0 {
        Ok((Seq::empty(), 0))
    } else {
        match var_bytes_at(s) {
            Err(e) => Err(e),
            Ok((name, k1)) => match raw_at(tail(s, k1), ADDRESS_LEN as nat) {
                Err(e) => Err(e),
                Ok((a, k2)) => match entries_at(tail(s, k1 + k2), (n - 1) as nat) {
                    Err(e) => Err(e),
                    Ok((es, k3)) => Ok((seq![(name, a)] + es, k1 + k2 + k3)),
                },
            },
        }
    }
}

/// A call context at the front of `s`: the administrator's address, a count,
/// then that many table entries.
pub open spec fn context_at(s: Seq<u8>) -> Result<
    ((Seq<u8>, Seq<(Seq<u8>, Seq<u8>)>), nat),
    DecodeError,
> {
    match raw_at(s, ADDRESS_LEN as nat) {
        Err(e) => Err(e),
        Ok((admin, k0)) => match varuint_at(tail(s, k0)) {
            Err(e) => Err(e),
            Ok((n, k1)) => match entries_at(tail(s, k0 + k1), n as nat) {
                Err(e) => Err(e),
                Ok((es, k2)) => Ok(((admin, es), k0 + k1 + k2)),
            },
        },
    }
}

/// The address of the last entry named `name` among the first `n`: a later
/// entry replaces an earlier one of the same name.
pub open spec fn table_lookup(es: Seq<(Seq<u8>, Seq<u8>)>, name: Seq<u8>, n: nat) -> Option<
    Seq<u8>,
>
    decreases n,
{
    if n == 0 {
        None
    } else if es[n - 1].0 == name {
        Some(es[n - 1].1)
    } else {
        table_lookup(es, name, (n - 1) as nat)
    }
}

/// The encoding of table entries: each name with its length in front, then
/// its address.
pub open spec fn entries_bytes(es: Seq<(Seq<u8>, Seq<u8>)>) -> Seq<u8>
    decreases es.len(),
{
    if es.len() == 0 {
        Seq::empty()
    } else {
        var_bytes(es[0].0) + es[0].1 + entries_bytes(es.drop_first())
    }
}

/// The encoding of a call context: the administrator's address, the number
/// of entries, then the entries.
pub open spec fn context_bytes(m: (Seq<u8>, Seq<(Seq<u8>, Seq<u8>)>)) -> Seq<u8> {
    m.0 + varuint_bytes(m.1.len() as u64) + entries_bytes(m.1)
}

/// Every address is 20 bytes long and every name and the table fit a count.
pub open spec fn context_fits(m: (Seq<u8>, Seq<(Seq<u8>, Seq<u8>)>)) -> bool {
    &&& m.0.len() == ADDRESS_LEN
    &&& m.1.len() <= u64::MAX
    &&& forall|i: int|
        0 <= i < m.1.len() ==> #[trigger] m.1[i].1.len() == ADDRESS_LEN && m.1[i].0.len()
            <= u64::MAX
}

proof fn lemma_entries_bytes_push(es: Seq<(Seq<u8>, Seq<u8>)>, x: (Seq<u8>, Seq<u8>))
    ensures
        entries_bytes(es.push(x)) == entries_bytes(es) + (var_bytes(x.0) + x.1),
    decreases es.len(),
{
    if es.len() == 0 {
        let p = es.push(x);
        assert(p[0] == x);
        assert(p.drop_first() =~= Seq::<(Seq<u8>, Seq<u8>)>::empty());
        assert(entries_bytes(p.drop_first()) == Seq::<u8>::empty());
        assert(entries_bytes(p) == var_bytes(x.0) + x.1 + Seq::<u8>::empty());
        assert(entries_bytes(p) =~= entries_bytes(es) + (var_bytes(x.0) + x.1));
    } else {
        let p = es.push(x);
        let head = var_bytes(es[0].0) + es[0].1;
        lemma_entries_bytes_push(es.drop_first(), x);
        assert(p[0] == es[0]);
        assert(p.drop_first() =~= es.drop_first().push(x));
        assert(entries_bytes(p) == head + entries_bytes(p.drop_first()));
        assert(entries_bytes(es) == head + entries_bytes(es.drop_first()));
        assert(entries_bytes(p) =~= entries_bytes(es) + (var_bytes(x.0) + x.1));
    }
}

/// Table entries decode back from their encoding, followed by anything, and
/// consume exactly that encoding.
pub proof fn lemma_entries_round_trip(es: Seq<(Seq<u8>, Seq<u8>)>, rest: Seq<u8>)
    requires
        forall|i: int|
            0 <= i < es.len() ==> #[trigger] es[i].1.len() == ADDRESS_LEN && es[i].0.len()
                <= u64::MAX,
    ensures
        entries_at(entries_bytes(es) + rest, es.len()) == Ok::<
            (Seq<(Seq<u8>, Seq<u8>)>, nat),
            DecodeError,
        >((es, entries_bytes(es).len())),
    decreases es.len(),
{
    if es.len() == 0 {
        assert(es =~= Seq::<(Seq<u8>, Seq<u8>)>::empty());
        assert(entries_bytes(es) + rest =~= rest);
    } else {
        let (name, a) = es[0];
        assert(es[0].1.len() == ADDRESS_LEN);
        let tl = es.drop_first();
        assert forall|i: int| 0 <= i < tl.len() implies #[trigger] tl[i].1.len() == ADDRESS_LEN
            && tl[i].0.len() <= u64::MAX by {
            assert(tl[i] == es[i + 1]);
        }
        lemma_entries_round_trip(tl, rest);
        let s = entries_bytes(es) + rest;
        let after = a + (entries_bytes(tl) + rest);
        lemma_var_bytes_round_trip(name, after);
        assert(s =~= var_bytes(name) + after);
        let k1 = var_bytes(name).len();
        assert(tail(s, k1) =~= after);
        lemma_raw_round_trip(a, entries_bytes(tl) + rest);
        assert(tail(tail(s, k1), 20) =~= entries_bytes(tl) + rest);
        assert(tail(s, k1 + 20) =~= entries_bytes(tl) + rest);
        assert(seq![(name, a)] + tl =~= es);
        assert(entries_bytes(es) == var_bytes(name) + a + entries_bytes(tl));
        assert(entries_bytes(es).len() == k1 + 20 + entries_bytes(tl).len());
        assert(var_bytes_at(s) == Ok::<(Seq<u8>, nat), DecodeError>((name, k1)));
        assert(raw_at(tail(s, k1), ADDRESS_LEN as nat) == Ok::<(Seq<u8>, nat), DecodeError>(
            (a, 20),
        ));
        assert(entries_at(tail(s, k1 + 20), tl.len()) == Ok::<
            (Seq<(Seq<u8>, Seq<u8>)>, nat),
            DecodeError,
        >((tl, entries_bytes(tl).len())));
        assert(entries_at(s, es.len()) == Ok::<(Seq<(Seq<u8>, Seq<u8>)>, nat), DecodeError>(
            (seq![(name, a)] + tl, k1 + 20 + entries_bytes(tl).len()),
        ));
    }
}

/// A call context decodes back from its encoding, followed by anything, and
/// consumes exactly that encoding.
pub proof fn lemma_context_round_trip(m: (Seq<u8>, Seq<(Seq<u8>, Seq<u8>)>), rest: Seq<u8>)
    requires
        context_fits(m),
    ensures
        context_at(context_bytes(m) + rest) == Ok::<
            ((Seq<u8>, Seq<(Seq<u8>, Seq<u8>)>), nat),
            DecodeError,
        >((m, context_bytes(m).len())),
{
    let (admin, es) = m;
    let n = es.len() as u64;
    let s = context_bytes(m) + rest;
    let after = varuint_bytes(n) + (entries_bytes(es) + rest);
    lemma_raw_round_trip(admin, after);
    assert(s =~= admin + after);
    assert(tail(s, 20) =~= after);
    lemma_varuint_round_trip(n, entries_bytes(es) + rest);
    let k1 = varuint_bytes(n).len();
    assert(tail(s, 20 + k1) =~= entries_bytes(es) + rest);
    lemma_entries_round_trip(es, rest);
}

/// What a caller tells a contract about its surroundings.
pub struct TestContext {
    admin: Address,
    map: Vec<(Vec<u8>, Address)>,
}

impl View for TestContext {
    /// The administrator's address and the name table, in the order given.
    type V = (Seq<u8>, Seq<(Seq<u8>, Seq<u8>)>);

    closed spec fn view(&self) -> (Seq<u8>, Seq<(Seq<u8>, Seq<u8>)>) {
        (self.admin@, Seq::new(self.map@.len(), |i: int| (self.map@[i].0@, self.map@[i].1@)))
    }
}

impl TestContext {
    /// A context with administrator `admin` and an empty name table.
    pub fn new(admin: Address) -> (r: TestContext)
        ensures
            r@ == (admin@, Seq::<(Seq<u8>, Seq<u8>)>::empty()),
    {
        let r = TestContext { admin, map: Vec::new() };
        assert(r@.1 =~= Seq::<(Seq<u8>, Seq<u8>)>::empty());
        r
    }

    /// Adds the entry `name` for `a` at the end of the table.
    pub fn insert(&mut self, name: &[u8], a: &Address)
        ensures
            final(self)@ == (old(self)@.0, old(self)@.1.push((name@, a@))),
    {
        self.map.push((crate::address::copy_bytes(name), a.duplicate()));
        assert(self@.1 =~= old(self)@.1.push((name@, a@)));
    }

    /// Appends the encoding of this context, as `get_tc` reads it.
    pub fn write_to(&self, sink: &mut Sink)
        ensures
            final(sink)@ == old(sink)@ + context_bytes(self@),
            context_fits(self@),
    {
        sink.write_raw(self.admin.as_slice());
        sink.write_varuint(self.map.len() as u64);
        let ghost start = sink@;
        let mut i: usize = 0;
        while i < self.map.len()
            invariant
                i <= self.map@.len(),
                sink@ == start + entries_bytes(self@.1.take(i as int)),
                forall|j: int|
                    0 <= j < i ==> #[trigger] self@.1[j].1.len() == ADDRESS_LEN && self@.1[j].0.len()
                        <= u64::MAX,
            decreases self.map@.len() - i,
        {
            let entry = &self.map[i];
            let addr_bytes = entry.1.as_slice();
            proof {
                lemma_entries_bytes_push(self@.1.take(i as int), self@.1[i as int]);
                assert(self@.1.take(i as int).push(self@.1[i as int]) =~= self@.1.take(i + 1));
            }
            sink.write_var_bytes(entry.0.as_slice());
            sink.write_raw(addr_bytes);
            i = i + 1;
            assert(sink@ =~= start + entries_bytes(self@.1.take(i as int)));
        }
        assert(self@.1.take(i as int) =~= self@.1);
        assert(sink@ =~= old(sink)@ + context_bytes(self@));
    }

    pub fn admin(&self) -> (r: &Address)
        ensures
            r@ == self@.0,
    {
        &self.admin
    }

    /// The address that the table gives for `name`.
    pub fn lookup(&self, name: &[u8]) -> (r: Option<Address>)
        ensures
            opt_addr(r) == table_lookup(self@.1, name@, self@.1.len()),
    {
        let mut i: usize = self.map.len();
        while i > 0
            invariant
                i <= self.map@.len(),
                table_lookup(self@.1, name@, self@.1.len()) == table_lookup(
                    self@.1,
                    name@,
                    i as nat,
                ),
            decreases i,
        {
            if bytes_eq(self.map[i - 1].0.as_slice(), name) {
                return Some(self.map[i - 1].1.duplicate());
            }
            i = i - 1;
        }
        None
    }
}

pub open spec fn opt_addr(a: Option<Address>) -> Option<Seq<u8>> {
    match a {
        Some(x) => Some(x@),
        None => None,
    }
}

/// Reads a call context: the administrator's address, the number of table
/// entries, then each entry as a name and an address.
pub fn get_tc(source: &mut Source) -> (r: Result<TestContext, DecodeError>)
    requires
        old(source).wf(),
    ensures
        final(source).wf(),
        final(source).data() == old(source).data(),
        match context_at(old(source).rest()) {
            Ok((m, k)) => r is Ok && r->Ok_0@ == m && final(source).pos() == old(source).pos() + k,
            Err(e) => r == Err::<TestContext, DecodeError>(e),
        },
{
    let ghost d = source.data();
    let ghost s = source.rest();
    let ghost p0 = source.pos();
    let admin = match source.read_address() {
        Ok(a) => a,
        Err(e) => return Err(e),
    };
    let ghost k0 = (source.pos() - p0) as nat;
    proof {
        lemma_tail_tail(d, p0, k0);
    }
    let n = match source.read_varuint() {
        Ok(n) => n,
        Err(e) => return Err(e),
    };
    let ghost k1 = (source.pos() - p0 - k0) as nat;
    proof {
        lemma_tail_tail(d, p0, k0 + k1);
    }
    let ghost s0 = source.rest();
    let ghost c0 = source.pos();
    let mut map: Vec<(Vec<u8>, Address)> = Vec::new();
    let mut i: u64 = 0;
    while i < n
        invariant
            source.wf(),
            source.data() == d,
            d == old(source).data(),
            s == old(source).rest(),
            context_at(s) == match entries_at(s0, n as nat) {
                Err(e) => Err(e),
                Ok((es, k2)) => Ok::<((Seq<u8>, Seq<(Seq<u8>, Seq<u8>)>), nat), DecodeError>(
                    ((admin@, es), k0 + k1 + k2),
                ),
            },
            c0 == p0 + k0 + k1,
            p0 == old(source).pos(),
            c0 <= source.pos(),
            i <= n,
            s0 == tail(d, c0),
            entries_at(s0, n as nat) == match entries_at(source.rest(), (n - i) as nat) {
                Err(e) => Err(e),
                Ok((es, k)) => Ok::<(Seq<(Seq<u8>, Seq<u8>)>, nat), DecodeError>(
                    (
                        Seq::new(map@.len(), |j: int| (map@[j].0@, map@[j].1@)) + es,
                        ((source.pos() - c0) + k) as nat,
                    ),
                ),
            },
        decreases n - i,
    {
        let ghost r0 = source.rest();
        let ghost q0 = source.pos();
        let ghost before = Seq::new(map@.len(), |j: int| (map@[j].0@, map@[j].1@));
        let name = match source.read_var_bytes() {
            Ok(b) => b,
            Err(e) => return Err(e),
        };
        let ghost ka = (source.pos() - q0) as nat;
        proof {
            lemma_tail_tail(d, q0, ka);
        }
        let addr = match source.read_address() {
            Ok(a) => a,
            Err(e) => return Err(e),
        };
        let ghost kb = (source.pos() - q0 - ka) as nat;
        proof {
            lemma_tail_tail(d, q0, ka + kb);
        }
        let ghost ename = name@;
        let ghost eaddr = addr@;
        map.push((name, addr));
        i = i + 1;
        proof {
            let after = Seq::new(map@.len(), |j: int| (map@[j].0@, map@[j].1@));
            assert(after =~= before.push((ename, eaddr)));
            match entries_at(source.rest(), (n - i) as nat) {
                Err(e) => {},
                Ok((es, k)) => {
                    assert(before + (seq![(ename, eaddr)] + es) =~= after + es);
                },
            }
        }
    }
    let ghost fin = Seq::new(map@.len(), |j: int| (map@[j].0@, map@[j].1@));
    assert(fin + Seq::empty() =~= fin);
    let r = TestContext { admin, map };
    assert(r@.1 =~= fin);
    Ok(r)
}

} // verus!
