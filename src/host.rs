//! An in-memory host: deployed contracts with their storage namespaces, the
//! protocol by which one contract calls another, and in-place migration.
use vstd::prelude::*;
use vstd::string::StringSliceAdditionalSpecFns;

use crate::address::{bytes_eq, copy_bytes, Address};
use crate::codec::{le_value, Source};
use crate::storage::{opt_bytes, Storage};

verus! {

/// The bytes of an action selector.
pub open spec fn sel(s: &str) -> Seq<u8> {
    s.spec_bytes()
}

/// `a` is the selector named by the literal `s`.
pub fn is_selector(a: &[u8], s: &str) -> (r: bool)
    ensures
        r == (a@ == sel(s)),
{
    bytes_eq(a, s.as_bytes())
}

/// The key under which the first migration probe value is stored.
pub const KEY_MIGRATE_STORE: u8 = 0x25;

/// The value that the probe expects under `KEY_MIGRATE_STORE`.
pub const VAL_MIGRATE_STORE: u64 = 0x138297;

/// The key under which the second migration probe value is stored.
pub const KEY_MIGRATE_STORE2: u8 = 0x14;

/// The value that the probe expects under `KEY_MIGRATE_STORE2`, and returns.
pub const VAL_MIGRATE_STORE2: u64 = 0x32733;

/// The code units that the host can run.
#[derive(Debug, Clone, Copy, PartialEq, Eq, Structural)]
pub enum Program {
    /// Arithmetic, frame addresses and storage access, chosen by selector.
    HelloWorld,
    /// Checks the two migration probe keys and returns the second value.
    StorageProbe,
    /// Returns the text "hello world" whatever it is given.
    Greeting,
}

/// Who is calling: the direct caller and the outermost contract.
pub struct Frame {
    pub caller: Address,
    pub entry: Address,
}

/// The host's state: each deployed address to its code and its storage.
pub type HostModel = Map<Seq<u8>, (Program, Map<Seq<u8>, Seq<u8>>)>;

/// `st` holds under `key` exactly eight bytes that read as `v`.
pub open spec fn holds_u64(st: Map<Seq<u8>, Seq<u8>>, key: u8, v: u64) -> bool {
    &&& st.contains_key(seq![key])
    &&& st[seq![key]].len() == 8
    &&& le_value(st[seq![key]]) == v
}

/// What a `StorageProbe` contract returns over storage `st`.
pub open spec fn probe_run(st: Map<Seq<u8>, Seq<u8>>) -> Option<Seq<u8>> {
    if holds_u64(st, KEY_MIGRATE_STORE, VAL_MIGRATE_STORE) && holds_u64(
        st,
        KEY_MIGRATE_STORE2,
        VAL_MIGRATE_STORE2,
    ) {
        Some(st[seq![KEY_MIGRATE_STORE2]])
    } else {
        None
    }
}

/// What program `p` at `me` leaves in its storage and returns for `input`.
pub open spec fn run(
    p: Program,
    me: Seq<u8>,
    caller: Seq<u8>,
    entry: Seq<u8>,
    st: Map<Seq<u8>, Seq<u8>>,
    input: Seq<u8>,
) -> (Map<Seq<u8>, Seq<u8>>, Option<Seq<u8>>) {
    match p {
        Program::HelloWorld => crate::helloworld::hello_run(me, caller, entry, st, input),
        Program::StorageProbe => (st, probe_run(st)),
        Program::Greeting => (st, Some(sel("hello world"))),
    }
}

/// The first index at which `a` stands in `addrs`.
pub open spec fn index_in(addrs: Seq<Seq<u8>>, a: Seq<u8>) -> int {
    choose|i: int| 0 <= i < addrs.len() && addrs[i] == a
}

/// The deployed contracts, each with its address, code and storage.
pub struct Host {
    addrs: Vec<Address>,
    programs: Vec<Program>,
    stores: Vec<Storage>,
}

impl Host {
    closed spec fn addr_seq(&self) -> Seq<Seq<u8>> {
        Seq::new(self.addrs@.len(), |i: int| self.addrs@[i]@)
    }

    closed spec fn has(&self, a: Seq<u8>) -> bool {
        exists|i: int| 0 <= i < self.addrs@.len() && self.addr_seq()[i] == a
    }

    /// Each address names one contract, and each store is well formed.
    pub closed spec fn wf(&self) -> bool {
        &&& self.programs@.len() == self.addrs@.len()
        &&& self.stores@.len() == self.addrs@.len()
        &&& forall|i: int, j: int|
            0 <= i < self.addrs@.len() && 0 <= j < self.addrs@.len() && i != j
                ==> self.addr_seq()[i] != self.addr_seq()[j]
        &&& forall|i: int| 0 <= i < self.stores@.len() ==> #[trigger] self.stores@[i].wf()
    }
}

impl View for Host {
    /// Each deployed address to its code and its storage.
    type V = Map<Seq<u8>, (Program, Map<Seq<u8>, Seq<u8>>)>;

    closed spec fn view(&self) -> Map<Seq<u8>, (Program, Map<Seq<u8>, Seq<u8>>)> {
        Map::new(
            |a: Seq<u8>| self.has(a),
            |a: Seq<u8>|
                (
                    self.programs@[index_in(self.addr_seq(), a)],
                    self.stores@[index_in(self.addr_seq(), a)]@,
                ),
        )
    }
}

impl Host {
    /// `new` differs from `old` at most in the code and storage at index `i`.
    proof fn lemma_update_at(old: Host, new: Host, i: int)
        requires
            old.wf(),
            0 <= i < old.addrs@.len(),
            new.addr_seq() == old.addr_seq(),
            new.addrs@.len() == old.addrs@.len(),
            new.programs@.len() == old.programs@.len(),
            new.stores@.len() == old.stores@.len(),
            forall|j: int| 0 <= j < old.addrs@.len() && j != i ==> new.programs@[j] == old.programs@[j],
            forall|j: int| 0 <= j < old.addrs@.len() && j != i ==> new.stores@[j] == old.stores@[j],
            new.stores@[i].wf(),
        ensures
            new.wf(),
            new@ == old@.insert(old.addr_seq()[i], (new.programs@[i], new.stores@[i]@)),
    {
        let a = old.addr_seq()[i];
        assert(new.addr_seq()[i] == a);
        assert forall|x: Seq<u8>| #[trigger] new.has(x) == old.has(x) by {
            if new.has(x) {
                let j = choose|j: int| 0 <= j < new.addrs@.len() && new.addr_seq()[j] == x;
                assert(old.addr_seq()[j] == x);
            }
            if old.has(x) {
                let j = choose|j: int| 0 <= j < old.addrs@.len() && old.addr_seq()[j] == x;
                assert(new.addr_seq()[j] == x);
            }
        }
        assert(old.has(a));
        let c = index_in(old.addr_seq(), a);
        assert(0 <= c < old.addrs@.len() && old.addr_seq()[c] == a);
        assert(c == i);
        assert forall|x: Seq<u8>| x != a && old.has(x) implies index_in(old.addr_seq(), x) != i by {
            let j = index_in(old.addr_seq(), x);
            assert(0 <= j < old.addrs@.len() && old.addr_seq()[j] == x);
        }
        assert forall|j: int| 0 <= j < new.stores@.len() implies #[trigger] new.stores@[j].wf() by {
            if j != i {
                assert(old.stores@[j].wf());
            }
        }
        assert(new@ =~= old@.insert(a, (new.programs@[i], new.stores@[i]@)));
    }

    pub fn new() -> (r: Host)
        ensures
            r.wf(),
            r@ == Map::<Seq<u8>, (Program, Map<Seq<u8>, Seq<u8>>)>::empty(),
    {
        let r = Host { addrs: Vec::new(), programs: Vec::new(), stores: Vec::new() };
        assert(r@ =~= Map::<Seq<u8>, (Program, Map<Seq<u8>, Seq<u8>>)>::empty());
        r
    }

    /// The index of the contract at `a`, if one is deployed there.
    fn find(&self, a: &Address) -> (r: Option<usize>)
        requires
            self.wf(),
        ensures
            match r {
                Some(i) => i < self.addrs@.len() && self.addr_seq()[i as int] == a@ && index_in(
                    self.addr_seq(),
                    a@,
                ) == i,
                None => !self.has(a@),
            },
    {
        let mut i: usize = 0;
        while i < self.addrs.len()
            invariant
                self.wf(),
                i <= self.addrs@.len(),
                forall|j: int| 0 <= j < i ==> self.addr_seq()[j] != a@,
            decreases self.addrs@.len() - i,
        {
            if self.addrs[i].same_as(a) {
                assert(self.addr_seq()[i as int] == a@);
                let ghost c = index_in(self.addr_seq(), a@);
                assert(0 <= c < self.addrs@.len() && self.addr_seq()[c] == a@);
                return Some(i);
            }
            i = i + 1;
        }
        None
    }

    /// Deploys `program` at `a` with empty storage; `false`, and no change,
    /// where `a` is taken.
    pub fn deploy(&mut self, a: &Address, program: Program) -> (r: bool)
        requires
            old(self).wf(),
        ensures
            final(self).wf(),
            r == !old(self)@.contains_key(a@),
            r ==> final(self)@ == old(self)@.insert(a@, (program, Map::empty())),
            !r ==> final(self)@ == old(self)@,
    {
        match self.find(a) {
            Some(_) => false,
            None => {
                let ghost old_addrs = self.addr_seq();
                let ghost before = *self;
                self.addrs.push(a.duplicate());
                self.programs.push(program);
                self.stores.push(Storage::new());
                assert(self.addr_seq() =~= old_addrs.push(a@));
                assert forall|x: Seq<u8>| x != a@ && before.has(x) implies index_in(
                    self.addr_seq(),
                    x,
                ) == index_in(old_addrs, x) by {
                    let j = index_in(old_addrs, x);
                    let j2 = index_in(self.addr_seq(), x);
                    assert(0 <= j < old_addrs.len() && old_addrs[j] == x);
                    assert(self.addr_seq()[j] == x);
                    assert(0 <= j2 < self.addr_seq().len() && self.addr_seq()[j2] == x);
                }
                assert forall|x: Seq<u8>| x != a@ implies self.has(x) == before.has(x) by {
                    if self.has(x) {
                        let j = choose|j: int| 0 <= j < self.addrs@.len() && self.addr_seq()[j] == x;
                        assert(old_addrs[j] == x);
                    }
                    if before.has(x) {
                        let j = choose|j: int| 0 <= j < before.addrs@.len() && old_addrs[j] == x;
                        assert(self.addr_seq()[j] == x);
                    }
                }
                let ghost n = old_addrs.len() as int;
                assert(self.addr_seq()[n] == a@);
                assert(self.has(a@));
                assert(index_in(self.addr_seq(), a@) == n);
                assert(self@ =~= old(self)@.insert(a@, (program, Map::empty())));
                true
            },
        }
    }

    /// The code deployed at `a`, if any.
    pub fn code_at(&self, a: &Address) -> (r: Option<Program>)
        requires
            self.wf(),
        ensures
            match r {
                Some(p) => self@.contains_key(a@) && self@[a@].0 == p,
                None => !self@.contains_key(a@),
            },
    {
        match self.find(a) {
            Some(i) => Some(self.programs[i]),
            None => None,
        }
    }

    /// Reads `key` in the storage of the contract at `a`; `None` where the
    /// key, or the contract, is absent.
    pub fn storage_read(&self, a: &Address, key: &[u8]) -> (r: Option<Vec<u8>>)
        requires
            self.wf(),
        ensures
            match r {
                Some(v) => self@.contains_key(a@) && self@[a@].1.contains_key(key@) && v@
                    == self@[a@].1[key@],
                None => !self@.contains_key(a@) || !self@[a@].1.contains_key(key@),
            },
    {
        match self.find(a) {
            Some(i) => {
                assert(self.stores@[i as int].wf());
                self.stores[i].read(key)
            },
            None => None,
        }
    }

    /// Writes `key` in the storage of the contract at `a`; no change where
    /// no contract is deployed there.
    pub fn storage_write(&mut self, a: &Address, key: &[u8], value: &[u8])
        requires
            old(self).wf(),
        ensures
            final(self).wf(),
            old(self)@.contains_key(a@) ==> final(self)@ == old(self)@.insert(
                a@,
                (old(self)@[a@].0, old(self)@[a@].1.insert(key@, value@)),
            ),
            !old(self)@.contains_key(a@) ==> final(self)@ == old(self)@,
    {
        match self.find(a) {
            Some(i) => {
                let ghost before = *self;
                assert(self.stores@[i as int].wf());
                self.stores[i].write(key, value);
                proof {
                    Host::lemma_update_at(before, *self, i as int);
                }
            },
            None => {},
        }
    }

    /// Deletes `key` from the storage of the contract at `a`; no change where
    /// no contract is deployed there.
    pub fn storage_delete(&mut self, a: &Address, key: &[u8])
        requires
            old(self).wf(),
        ensures
            final(self).wf(),
            old(self)@.contains_key(a@) ==> final(self)@ == old(self)@.insert(
                a@,
                (old(self)@[a@].0, old(self)@[a@].1.remove(key@)),
            ),
            !old(self)@.contains_key(a@) ==> final(self)@ == old(self)@,
    {
        match self.find(a) {
            Some(i) => {
                let ghost before = *self;
                assert(self.stores@[i as int].wf());
                self.stores[i].delete(key);
                proof {
                    Host::lemma_update_at(before, *self, i as int);
                }
            },
            None => {},
        }
    }

    proof fn lemma_view_at(h: Host, i: int)
        requires
            h.wf(),
            0 <= i < h.addrs@.len(),
        ensures
            h@.contains_key(h.addr_seq()[i]),
            h@[h.addr_seq()[i]] == (h.programs@[i], h.stores@[i]@),
            h@.insert(h.addr_seq()[i], (h.programs@[i], h.stores@[i]@)) == h@,
    {
        let a = h.addr_seq()[i];
        assert(h.has(a));
        let c = index_in(h.addr_seq(), a);
        assert(0 <= c < h.addrs@.len() && h.addr_seq()[c] == a);
        assert(h@.insert(a, (h.programs@[i], h.stores@[i]@)) =~= h@);
    }

    /// Runs the `StorageProbe` contract at index `i`.
    fn run_probe(&self, i: usize) -> (r: Option<Vec<u8>>)
        requires
            self.wf(),
            i < self.addrs@.len(),
        ensures
            opt_bytes(r) == probe_run(self.stores@[i as int]@),
    {
        assert(self.stores@[i as int].wf());
        let st = &self.stores[i];
        let k1: Vec<u8> = vec![KEY_MIGRATE_STORE];
        let k2: Vec<u8> = vec![KEY_MIGRATE_STORE2];
        assert(k1@ =~= seq![KEY_MIGRATE_STORE]);
        assert(k2@ =~= seq![KEY_MIGRATE_STORE2]);
        let v1 = match st.read(k1.as_slice()) {
            Some(v) => v,
            None => return None,
        };
        let v2 = match st.read(k2.as_slice()) {
            Some(v) => v,
            None => return None,
        };
        if v1.len() != 8 || v2.len() != 8 {
            return None;
        }
        let ghost s1 = v1@;
        let ghost s2 = v2@;
        let mut src1 = Source::new(v1);
        let x1 = match src1.read_u64() {
            Ok(x) => x,
            Err(_) => return None,
        };
        let mut src2 = Source::new(v2);
        let x2 = match src2.read_u64() {
            Ok(x) => x,
            Err(_) => return None,
        };
        proof {
            assert(s1.take(8) =~= s1);
            assert(s2.take(8) =~= s2);
            crate::codec::lemma_le_value_bound(s1);
            crate::codec::lemma_le_value_bound(s2);
            crate::codec::lemma_pow256_values();
        }
        if x1 != VAL_MIGRATE_STORE || x2 != VAL_MIGRATE_STORE2 {
            return None;
        }
        Some(src2.into_data())
    }

    /// Calls the contract at `target` with `input`: runs its code in a new
    /// frame and hands back its output. `None` where no contract is deployed
    /// at `target`, or where the callee aborts.
    pub fn call_contract(&mut self, frame: &Frame, target: &Address, input: &[u8]) -> (r: Option<
        Vec<u8>,
    >)
        requires
            old(self).wf(),
        ensures
            final(self).wf(),
            !old(self)@.contains_key(target@) ==> r is None && final(self)@ == old(self)@,
            old(self)@.contains_key(target@) ==> ({
                let (p, st) = old(self)@[target@];
                let (st2, out) = run(p, target@, frame.caller@, frame.entry@, st, input@);
                &&& opt_bytes(r) == out
                &&& final(self)@ == old(self)@.insert(target@, (p, st2))
            }),
    {
        match self.find(target) {
            None => None,
            Some(i) => {
                proof {
                    Host::lemma_view_at(*self, i as int);
                    assert(self@.insert(target@, self@[target@]) =~= self@);
                }
                match self.programs[i] {
                    Program::HelloWorld => crate::helloworld::invoke(self, frame, target, input),
                    Program::StorageProbe => self.run_probe(i),
                    Program::Greeting => {
                        let out = copy_bytes("hello world".as_bytes());
                        Some(out)
                    },
                }
            },
        }
    }

    /// Replaces the code of the contract at `a` by `program`, keeping its
    /// address and its storage; `None`, and no change, where nothing is
    /// deployed at `a`.
    pub fn migrate(&mut self, a: &Address, program: Program) -> (r: Option<Address>)
        requires
            old(self).wf(),
        ensures
            final(self).wf(),
            old(self)@.contains_key(a@) ==> r is Some && r->Some_0@ == a@ && final(self)@ == old(
                self,
            )@.insert(a@, (program, old(self)@[a@].1)),
            !old(self)@.contains_key(a@) ==> r is None && final(self)@ == old(self)@,
    {
        match self.find(a) {
            Some(i) => {
                let ghost before = *self;
                assert(self.stores@[i as int].wf());
                self.programs.set(i, program);
                proof {
                    Host::lemma_update_at(before, *self, i as int);
                }
                Some(a.duplicate())
            },
            None => None,
        }
    }
}

} // verus!
