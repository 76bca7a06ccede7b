//! A contract's persistent key-value store: byte keys to byte values, where a
//! key that was never written, or was deleted, is absent.
use vstd::prelude::*;

use crate::address::{bytes_eq, copy_bytes};

verus! {

/// The value of the last entry among the first `n` whose key is `k`.
pub open spec fn lookup(
    ks: Seq<Seq<u8>>,
    vs: Seq<Option<Seq<u8>>>,
    k: Seq<u8>,
    n: nat,
) -> Option<Seq<u8>>
    decreases n,
{
    if n == 0 {
        None
    } else if ks[n - 1] == k {
        vs[n - 1]
    } else {
        lookup(ks, vs, k, (n - 1) as nat)
    }
}

pub open spec fn keys_unique(ks: Seq<Seq<u8>>) -> bool {
    forall|i: int, j: int| 0 <= i < ks.len() && 0 <= j < ks.len() && i != j ==> ks[i] != ks[j]
}

proof fn lemma_lookup_absent(ks: Seq<Seq<u8>>, vs: Seq<Option<Seq<u8>>>, k: Seq<u8>, n: nat)
    requires
        n <= ks.len(),
        forall|j: int| 0 <= j < n ==> ks[j] != k,
    ensures
        lookup(ks, vs, k, n) is None,
    decreases n,
{
    if n > 0 {
        lemma_lookup_absent(ks, vs, k, (n - 1) as nat);
    }
}

proof fn lemma_lookup_at(ks: Seq<Seq<u8>>, vs: Seq<Option<Seq<u8>>>, i: int, n: nat)
    requires
        n <= ks.len(),
        0 <= i < n,
        keys_unique(ks),
    ensures
        lookup(ks, vs, ks[i], n) == vs[i],
    decreases n,
{
    if i < n - 1 {
        lemma_lookup_at(ks, vs, i, (n - 1) as nat);
    }
}

proof fn lemma_lookup_agree(
    ks: Seq<Seq<u8>>,
    vs: Seq<Option<Seq<u8>>>,
    ks2: Seq<Seq<u8>>,
    vs2: Seq<Option<Seq<u8>>>,
    k: Seq<u8>,
    n: nat,
)
    requires
        n <= ks.len(),
        n <= ks2.len(),
        n <= vs.len(),
        n <= vs2.len(),
        forall|j: int| 0 <= j < n ==> ks[j] == ks2[j] && vs[j] == vs2[j],
    ensures
        lookup(ks, vs, k, n) == lookup(ks2, vs2, k, n),
    decreases n,
{
    if n > 0 {
        lemma_lookup_agree(ks, vs, ks2, vs2, k, (n - 1) as nat);
    }
}

proof fn lemma_lookup_update(
    ks: Seq<Seq<u8>>,
    vs: Seq<Option<Seq<u8>>>,
    i: int,
    x: Option<Seq<u8>>,
    k: Seq<u8>,
    n: nat,
)
    requires
        n <= ks.len(),
        n <= vs.len(),
        0 <= i < n,
        keys_unique(ks),
    ensures
        lookup(ks, vs.update(i, x), k, n) == if k == ks[i] {
            x
        } else {
            lookup(ks, vs, k, n)
        },
    decreases n,
{
    if i < n - 1 {
        lemma_lookup_update(ks, vs, i, x, k, (n - 1) as nat);
        assert(ks[n - 1] != ks[i]);
    } else {
        lemma_lookup_agree(ks, vs.update(i, x), ks, vs, k, (n - 1) as nat);
    }
}

pub open spec fn opt_bytes(x: Option<Vec<u8>>) -> Option<Seq<u8>> {
    match x {
        Some(v) => Some(v@),
        None => None,
    }
}

/// A byte-keyed store of byte values.
pub struct Storage {
    keys: Vec<Vec<u8>>,
    vals: Vec<Option<Vec<u8>>>,
}

impl Storage {
    closed spec fn key_seq(&self) -> Seq<Seq<u8>> {
        Seq::new(self.keys@.len(), |i: int| self.keys@[i]@)
    }

    closed spec fn val_seq(&self) -> Seq<Option<Seq<u8>>> {
        Seq::new(self.vals@.len(), |i: int| opt_bytes(self.vals@[i]))
    }

    /// Each key has one entry.
    pub closed spec fn wf(&self) -> bool {
        &&& self.keys@.len() == self.vals@.len()
        &&& keys_unique(self.key_seq())
    }

    closed spec fn get(&self, k: Seq<u8>) -> Option<Seq<u8>> {
        lookup(self.key_seq(), self.val_seq(), k, self.keys@.len() as nat)
    }
}

impl View for Storage {
    type V = Map<Seq<u8>, Seq<u8>>;

    closed spec fn view(&self) -> Map<Seq<u8>, Seq<u8>> {
        Map::new(|k: Seq<u8>| self.get(k) is Some, |k: Seq<u8>| self.get(k)->Some_0)
    }
}

impl Storage {
    /// An empty store.
    pub fn new() -> (r: Storage)
        ensures
            r.wf(),
            r@ == Map::<Seq<u8>, Seq<u8>>::empty(),
    {
        let r = Storage { keys: Vec::new(), vals: Vec::new() };
        assert(r@ =~= Map::<Seq<u8>, Seq<u8>>::empty());
        r
    }

    /// The index of the entry for `key`, if there is one.
    fn find(&self, key: &[u8]) -> (r: Option<usize>)
        ensures
            match r {
                Some(i) => i < self.keys@.len() && self.key_seq()[i as int] == key@,
                None => forall|j: int| 0 <= j < self.keys@.len() ==> self.key_seq()[j] != key@,
            },
    {
        let mut i: usize = 0;
        while i < self.keys.len()
            invariant
                i <= self.keys@.len(),
                forall|j: int| 0 <= j < i ==> self.key_seq()[j] != key@,
            decreases self.keys@.len() - i,
        {
            if bytes_eq(self.keys[i].as_slice(), key) {
                return Some(i);
            }
            i = i + 1;
        }
        None
    }

    /// The value last written under `key`, or `None` if it was never
    /// written or has been deleted since.
    pub fn read(&self, key: &[u8]) -> (r: Option<Vec<u8>>)
        requires
            self.wf(),
        ensures
            match r {
                Some(v) => self@.contains_key(key@) && v@ == self@[key@],
                None => !self@.contains_key(key@),
            },
    {
        match self.find(key) {
            Some(i) => {
                proof {
                    lemma_lookup_at(self.key_seq(), self.val_seq(), i as int, self.keys@.len() as nat);
                }
                match &self.vals[i] {
                    Some(v) => Some(copy_bytes(v.as_slice())),
                    None => None,
                }
            },
            None => {
                proof {
                    lemma_lookup_absent(self.key_seq(), self.val_seq(), key@, self.keys@.len() as nat);
                }
                None
            },
        }
    }

    /// Sets the entry at `i` to `x`, leaving every other key as it was.
    fn set_at(&mut self, i: usize, x: Option<Vec<u8>>)
        requires
            old(self).wf(),
            i < old(self).keys@.len(),
        ensures
            final(self).wf(),
            final(self).keys@ == old(self).keys@,
            forall|k: Seq<u8>|
                #[trigger] final(self).get(k) == if k == old(self).key_seq()[i as int] {
                    opt_bytes(x)
                } else {
                    old(self).get(k)
                },
    {
        let ghost ks = self.key_seq();
        let ghost vs = self.val_seq();
        let ghost xv = opt_bytes(x);
        self.vals.set(i, x);
        assert(self.key_seq() =~= ks);
        assert(self.val_seq() =~= vs.update(i as int, xv));
        assert forall|k: Seq<u8>|
            #[trigger] self.get(k) == if k == ks[i as int] {
                xv
            } else {
                lookup(ks, vs, k, ks.len())
            } by {
            lemma_lookup_update(ks, vs, i as int, xv, k, ks.len());
        }
    }

    /// Sets `key` to `value`; the last write wins.
    pub fn write(&mut self, key: &[u8], value: &[u8])
        requires
            old(self).wf(),
        ensures
            final(self).wf(),
            final(self)@ == old(self)@.insert(key@, value@),
    {
        match self.find(key) {
            Some(i) => {
                self.set_at(i, Some(copy_bytes(value)));
            },
            None => {
                let ghost ks = self.key_seq();
                let ghost vs = self.val_seq();
                self.keys.push(copy_bytes(key));
                self.vals.push(Some(copy_bytes(value)));
                assert(self.key_seq() =~= ks.push(key@));
                assert(self.val_seq() =~= vs.push(Some(value@)));
                assert forall|k: Seq<u8>| k != key@ implies #[trigger] self.get(k) == lookup(
                    ks,
                    vs,
                    k,
                    ks.len(),
                ) by {
                    lemma_lookup_agree(ks.push(key@), vs.push(Some(value@)), ks, vs, k, ks.len());
                }
                assert(keys_unique(self.key_seq()));
            },
        }
        assert(self@ =~= old(self)@.insert(key@, value@));
    }

    /// Removes `key`, so that a later read finds it absent.
    pub fn delete(&mut self, key: &[u8])
        requires
            old(self).wf(),
        ensures
            final(self).wf(),
            final(self)@ == old(self)@.remove(key@),
    {
        match self.find(key) {
            Some(i) => {
                self.set_at(i, None);
            },
            None => {
                proof {
                    lemma_lookup_absent(self.key_seq(), self.val_seq(), key@, self.keys@.len() as nat);
                }
            },
        }
        assert(self@ =~= old(self)@.remove(key@));
    }
}

/// Writing a key and reading it back gives the value written; deleting it
/// makes it absent; any other key keeps what it held.
pub proof fn lemma_storage_laws(m: Map<Seq<u8>, Seq<u8>>, k: Seq<u8>, v: Seq<u8>, other: Seq<u8>)
    requires
        other != k,
    ensures
        m.insert(k, v).contains_key(k),
        m.insert(k, v)[k] == v,
        !m.remove(k).contains_key(k),
        m.insert(k, v).contains_key(other) == m.contains_key(other),
        m.insert(k, v).contains_key(other) ==> m.insert(k, v)[other] == m[other],
        m.remove(k).contains_key(other) == m.contains_key(other),
        m.remove(k).contains_key(other) ==> m.remove(k)[other] == m[other],
        !Map::<Seq<u8>, Seq<u8>>::empty().contains_key(k),
{
}

} // verus!
