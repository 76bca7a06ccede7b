//! Typed binary codec: a `Sink` appends canonical encodings to a byte buffer
//! and a `Source` consumes them again, in the same order and types.
use vstd::prelude::*;

use crate::address::{Address, ADDRESS_LEN};

verus! {

/// Why a `Source` could not decode the value asked for.
#[derive(Debug, Clone, Copy, PartialEq, Eq, Structural)]
pub enum DecodeError {
    /// Fewer bytes remain than the declared type needs.
    UnexpectedEof,
    /// The bytes are present but not a canonical encoding of the type.
    IrregularData,
}

/// `256^n`.
pub open spec fn pow256(n: nat) -> nat
    decreases n,
{
    if n == 0 {
        1
    } else {
        256 * pow256((n - 1) as nat)
    }
}

/// The `n` least significant bytes of `v`, least significant first.
pub open spec fn le_bytes(v: nat, n: nat) -> Seq<u8>
    decreases n,
{
    if n == 0 {
        Seq::empty()
    } else {
        seq![(v % 256) as u8] + le_bytes(v / 256, (n - 1) as nat)
    }
}

/// The number whose little-endian bytes are `s`.
pub open spec fn le_value(s: Seq<u8>) -> nat
    decreases s.len(),
{
    if s.len() == 0 {
        0
    } else {
        s[0] as nat + 256 * le_value(s.drop_first())
    }
}

pub proof fn lemma_pow256_pos(n: nat)
    ensures
        pow256(n) >= 1,
    decreases n,
{
    if n > 0 {
        lemma_pow256_pos((n - 1) as nat);
    }
}

pub proof fn lemma_pow256_values()
    ensures
        pow256(1) == 0x100,
        pow256(2) == 0x1_0000,
        pow256(4) == 0x1_0000_0000,
        pow256(8) == 0x1_0000_0000_0000_0000,
        pow256(16) == 0x1_0000_0000_0000_0000_0000_0000_0000_0000,
{
    reveal_with_fuel(pow256, 17);
}

pub proof fn lemma_le_bytes_len(v: nat, n: nat)
    ensures
        le_bytes(v, n).len() == n,
    decreases n,
{
    if n > 0 {
        lemma_le_bytes_len(v / 256, (n - 1) as nat);
    }
}

pub proof fn lemma_le_value_bound(s: Seq<u8>)
    ensures
        le_value(s) < pow256(s.len()),
    decreases s.len(),
{
    if s.len() > 0 {
        lemma_le_value_bound(s.drop_first());
        assert(le_value(s) < pow256(s.len())) by (nonlinear_arith)
            requires
                le_value(s) == s[0] as nat + 256 * le_value(s.drop_first()),
                le_value(s.drop_first()) + 1 <= pow256(s.drop_first().len()),
                pow256(s.len()) == 256 * pow256(s.drop_first().len()),
                s[0] < 256,
        ;
    }
}

/// Decoding the little-endian bytes of a value that fits gives the value back.
pub proof fn lemma_le_round_trip(v: nat, n: nat)
    requires
        v < pow256(n),
    ensures
        le_value(le_bytes(v, n)) == v,
        le_bytes(v, n).len() == n,
    decreases n,
{
    lemma_le_bytes_len(v, n);
    if n > 0 {
        let q = v / 256;
        let p = pow256((n - 1) as nat);
        assert(q < p) by (nonlinear_arith)
            requires
                v < 256 * p,
                q == v / 256,
        ;
        lemma_le_round_trip(q, (n - 1) as nat);
        let s = le_bytes(v, n);
        assert(s.drop_first() =~= le_bytes(q, (n - 1) as nat));
        assert(v == (v % 256) + 256 * q) by (nonlinear_arith)
            requires
                q == v / 256,
        ;
    }
}

pub proof fn lemma_pow256_mono(a: nat, b: nat)
    requires
        a <= b,
    ensures
        pow256(a) <= pow256(b),
    decreases b,
{
    if a < b {
        lemma_pow256_mono(a, (b - 1) as nat);
        lemma_pow256_pos((b - 1) as nat);
    }
}

/// Bytes of `s` from `i` to its end.
pub open spec fn tail(s: Seq<u8>, i: nat) -> Seq<u8> {
    s.subrange(i as int, s.len() as int)
}

pub proof fn lemma_tail_tail(s: Seq<u8>, a: nat, b: nat)
    requires
        a + b <= s.len(),
    ensures
        tail(tail(s, a), b) == tail(s, a + b),
{
    assert(tail(tail(s, a), b) =~= tail(s, a + b));
}

/// A fixed-width unsigned integer of `n` bytes at the front of `s`.
pub open spec fn uint_at(s: Seq<u8>, n: nat) -> Result<(nat, nat), DecodeError> {
    if s.len() < n {
        Err(DecodeError::UnexpectedEof)
    } else {
        Ok((le_value(s.take(n as int)), n))
    }
}

pub open spec fn u8_at(s: Seq<u8>) -> Result<(u8, nat), DecodeError> {
    match uint_at(s, 1) {
        Ok((v, k)) => Ok((v as u8, k)),
        Err(e) => Err(e),
    }
}

pub open spec fn u16_at(s: Seq<u8>) -> Result<(u16, nat), DecodeError> {
    match uint_at(s, 2) {
        Ok((v, k)) => Ok((v as u16, k)),
        Err(e) => Err(e),
    }
}

pub open spec fn u32_at(s: Seq<u8>) -> Result<(u32, nat), DecodeError> {
    match uint_at(s, 4) {
        Ok((v, k)) => Ok((v as u32, k)),
        Err(e) => Err(e),
    }
}

pub open spec fn u64_at(s: Seq<u8>) -> Result<(u64, nat), DecodeError> {
    match uint_at(s, 8) {
        Ok((v, k)) => Ok((v as u64, k)),
        Err(e) => Err(e),
    }
}

/// A boolean is one byte, 0 or 1.
pub open spec fn bool_bytes(b: bool) -> Seq<u8> {
    if b {
        seq![1u8]
    } else {
        seq![0u8]
    }
}

pub open spec fn bool_at(s: Seq<u8>) -> Result<(bool, nat), DecodeError> {
    if s.len() == 0 {
        Err(DecodeError::UnexpectedEof)
    } else if s[0] == 0 {
        Ok((false, 1))
    } else if s[0] == 1 {
        Ok((true, 1))
    } else {
        Err(DecodeError::IrregularData)
    }
}

/// How many bytes the canonical variable-length encoding of `v` takes.
pub open spec fn varuint_size(v: u64) -> nat {
    if v < 0xFD {
        1
    } else if v <= 0xFFFF {
        3
    } else if v <= 0xFFFF_FFFF {
        5
    } else {
        9
    }
}

/// The canonical variable-length encoding: one byte below 0xFD, else a marker
/// byte (0xFD, 0xFE, 0xFF) and the value in 2, 4 or 8 little-endian bytes.
pub open spec fn varuint_bytes(v: u64) -> Seq<u8> {
    if v < 0xFD {
        seq![v as u8]
    } else if v <= 0xFFFF {
        seq![0xFDu8] + le_bytes(v as nat, 2)
    } else if v <= 0xFFFF_FFFF {
        seq![0xFEu8] + le_bytes(v as nat, 4)
    } else {
        seq![0xFFu8] + le_bytes(v as nat, 8)
    }
}

/// How many value bytes follow a marker byte of a variable-length integer.
pub open spec fn varuint_width(tag: u8) -> nat {
    if tag == 0xFD {
        2
    } else if tag == 0xFE {
        4
    } else {
        8
    }
}

/// A variable-length integer at the front of `s`; a value written with more
/// bytes than its canonical encoding needs is refused.
pub open spec fn varuint_at(s: Seq<u8>) -> Result<(u64, nat), DecodeError> {
    if s.len() == 0 {
        Err(DecodeError::UnexpectedEof)
    } else if s[0] < 0xFD {
        Ok((s[0] as u64, 1))
    } else {
        let n = varuint_width(s[0]);
        match uint_at(s.drop_first(), n) {
            Err(e) => Err(e),
            Ok((v, _)) => if varuint_size(v as u64) == n + 1 {
                Ok((v as u64, (n + 1) as nat))
            } else {
                Err(DecodeError::IrregularData)
            },
        }
    }
}

/// `n` raw bytes at the front of `s`.
pub open spec fn raw_at(s: Seq<u8>, n: nat) -> Result<(Seq<u8>, nat), DecodeError> {
    if s.len() < n {
        Err(DecodeError::UnexpectedEof)
    } else {
        Ok((s.take(n as int), n))
    }
}

/// A byte string with its length in front.
pub open spec fn var_bytes(b: Seq<u8>) -> Seq<u8> {
    varuint_bytes(b.len() as u64) + b
}

pub open spec fn var_bytes_at(s: Seq<u8>) -> Result<(Seq<u8>, nat), DecodeError> {
    match varuint_at(s) {
        Err(e) => Err(e),
        Ok((n, k)) => if s.len() < k + n {
            Err(DecodeError::UnexpectedEof)
        } else {
            Ok((s.subrange(k as int, (k + n) as int), (k + n) as nat))
        },
    }
}

/// Decoding a fixed-width integer from its own encoding, followed by anything,
/// gives the integer back and consumes exactly its `n` bytes.
pub proof fn lemma_uint_round_trip(v: nat, n: nat, rest: Seq<u8>)
    requires
        v < pow256(n),
    ensures
        uint_at(le_bytes(v, n) + rest, n) == Ok::<(nat, nat), DecodeError>((v, n)),
{
    lemma_le_round_trip(v, n);
    assert((le_bytes(v, n) + rest).take(n as int) =~= le_bytes(v, n));
}

/// The round trip for each fixed-width integer type, as `Sink` writes and
/// `Source` reads them.
pub proof fn lemma_fixed_round_trip(a: u8, b: u16, c: u32, d: u64, e: u128, rest: Seq<u8>)
    ensures
        u8_at(seq![a] + rest) == Ok::<(u8, nat), DecodeError>((a, 1)),
        u16_at(le_bytes(b as nat, 2) + rest) == Ok::<(u16, nat), DecodeError>((b, 2)),
        u32_at(le_bytes(c as nat, 4) + rest) == Ok::<(u32, nat), DecodeError>((c, 4)),
        u64_at(le_bytes(d as nat, 8) + rest) == Ok::<(u64, nat), DecodeError>((d, 8)),
        u128_at(le_bytes(e as nat, 16) + rest, 16) == Ok::<(u128, nat), DecodeError>((e, 16)),
{
    lemma_pow256_values();
    reveal_with_fuel(le_value, 2);
    assert((seq![a] + rest).take(1) =~= seq![a]);
    assert(seq![a].drop_first() =~= Seq::<u8>::empty());
    lemma_uint_round_trip(b as nat, 2, rest);
    lemma_uint_round_trip(c as nat, 4, rest);
    lemma_uint_round_trip(d as nat, 8, rest);
    lemma_uint_round_trip(e as nat, 16, rest);
}

/// A boolean decodes back from its byte.
pub proof fn lemma_bool_round_trip(b: bool, rest: Seq<u8>)
    ensures
        bool_at(bool_bytes(b) + rest) == Ok::<(bool, nat), DecodeError>((b, 1)),
{
}

/// A variable-length integer decodes back from its canonical encoding and
/// consumes exactly that encoding.
pub proof fn lemma_varuint_round_trip(v: u64, rest: Seq<u8>)
    ensures
        varuint_bytes(v).len() == varuint_size(v),
        varuint_at(varuint_bytes(v) + rest) == Ok::<(u64, nat), DecodeError>(
            (v, varuint_size(v)),
        ),
{
    lemma_pow256_values();
    let s = varuint_bytes(v) + rest;
    if v >= 0xFD {
        let n: nat = if v <= 0xFFFF {
            2
        } else if v <= 0xFFFF_FFFF {
            4
        } else {
            8
        };
        assert(varuint_bytes(v) == seq![s[0]] + le_bytes(v as nat, n));
        lemma_uint_round_trip(v as nat, n, rest);
        lemma_le_bytes_len(v as nat, n);
        assert(s.drop_first() =~= le_bytes(v as nat, n) + rest);
    }
}

/// A byte string decodes back from its length-prefixed encoding and consumes
/// exactly that encoding.
pub proof fn lemma_var_bytes_round_trip(b: Seq<u8>, rest: Seq<u8>)
    requires
        b.len() <= u64::MAX,
    ensures
        var_bytes_at(var_bytes(b) + rest) == Ok::<(Seq<u8>, nat), DecodeError>(
            (b, var_bytes(b).len()),
        ),
{
    let h = varuint_bytes(b.len() as u64);
    lemma_varuint_round_trip(b.len() as u64, b + rest);
    assert(var_bytes(b) + rest =~= h + (b + rest));
    assert((var_bytes(b) + rest).subrange(h.len() as int, (h.len() + b.len()) as int) =~= b);
}

/// Raw bytes of a known length decode back from themselves.
pub proof fn lemma_raw_round_trip(b: Seq<u8>, rest: Seq<u8>)
    ensures
        raw_at(b + rest, b.len()) == Ok::<(Seq<u8>, nat), DecodeError>((b, b.len())),
{
    assert((b + rest).take(b.len() as int) =~= b);
}

/// A buffer that holds fewer bytes than a fixed-width type needs is refused.
pub proof fn lemma_short_uint_fails(s: Seq<u8>, n: nat)
    requires
        s.len() < n,
    ensures
        uint_at(s, n) == Err::<(nat, nat), DecodeError>(DecodeError::UnexpectedEof),
        raw_at(s, n) == Err::<(Seq<u8>, nat), DecodeError>(DecodeError::UnexpectedEof),
{
}

/// Any strict prefix of a variable-length integer's encoding is refused.
pub proof fn lemma_truncated_varuint_fails(v: u64, k: nat)
    requires
        k < varuint_bytes(v).len(),
    ensures
        varuint_at(varuint_bytes(v).take(k as int)) == Err::<(u64, nat), DecodeError>(
            DecodeError::UnexpectedEof,
        ),
{
    lemma_pow256_values();
    let e = varuint_bytes(v);
    let p = e.take(k as int);
    if k > 0 {
        let n: nat = if v <= 0xFFFF {
            2
        } else if v <= 0xFFFF_FFFF {
            4
        } else {
            8
        };
        lemma_le_bytes_len(v as nat, n);
        assert(p[0] == e[0]);
        assert(p.drop_first().len() < n);
    }
}

/// Any strict prefix of a byte string's length-prefixed encoding is refused:
/// a short buffer never decodes to a truncated string.
pub proof fn lemma_truncated_var_bytes_fails(b: Seq<u8>, k: nat)
    requires
        b.len() <= u64::MAX,
        k < var_bytes(b).len(),
    ensures
        var_bytes_at(var_bytes(b).take(k as int)) == Err::<(Seq<u8>, nat), DecodeError>(
            DecodeError::UnexpectedEof,
        ),
{
    let h = varuint_bytes(b.len() as u64);
    let p = var_bytes(b).take(k as int);
    if k < h.len() {
        lemma_truncated_varuint_fails(b.len() as u64, k);
        assert(p =~= h.take(k as int));
    } else {
        let r = b.take(k - h.len());
        lemma_varuint_round_trip(b.len() as u64, r);
        assert(p =~= h + r);
    }
}

/// The same as `uint_at`, with the value as a `u128`.
pub open spec fn u128_at(s: Seq<u8>, n: nat) -> Result<(u128, nat), DecodeError> {
    match uint_at(s, n) {
        Ok((v, k)) => Ok((v as u128, k)),
        Err(e) => Err(e),
    }
}

/// An append-only byte buffer that values are encoded into.
pub struct Sink {
    buf: Vec<u8>,
}

impl View for Sink {
    type V = Seq<u8>;

    closed spec fn view(&self) -> Seq<u8> {
        self.buf@
    }
}

impl Sink {
    pub fn new() -> (r: Sink)
        ensures
            r@ == Seq::<u8>::empty(),
    {
        Sink { buf: Vec::new() }
    }

    /// Appends one raw byte.
    pub fn write_byte(&mut self, b: u8)
        ensures
            final(self)@ == old(self)@.push(b),
    {
        self.buf.push(b);
    }

    /// Appends `data` as it is, with no length prefix.
    pub fn write_raw(&mut self, data: &[u8])
        ensures
            final(self)@ == old(self)@ + data@,
    {
        let mut i: usize = 0;
        while i < data.len()
            invariant
                i <= data@.len(),
                self@ == old(self)@ + data@.take(i as int),
            decreases data@.len() - i,
        {
            self.buf.push(data[i]);
            i = i + 1;
            assert(self@ =~= old(self)@ + data@.take(i as int));
        }
        assert(data@.take(i as int) =~= data@);
    }

    /// Appends the `n` low bytes of `v`, least significant first.
    pub fn write_uint(&mut self, v: u128, n: usize)
        requires
            n <= 16,
            v < pow256(n as nat),
        ensures
            final(self)@ == old(self)@ + le_bytes(v as nat, n as nat),
    {
        let mut x: u128 = v;
        let mut i: usize = 0;
        while i < n
            invariant
                i <= n,
                x < pow256((n - i) as nat),
                self@ + le_bytes(x as nat, (n - i) as nat) == old(self)@ + le_bytes(v as nat, n as nat),
            decreases n - i,
        {
            let ghost before = self@;
            let ghost x0 = x;
            let ghost k = (n - i - 1) as nat;
            let ghost p = pow256(k);
            assert(x / 256 < p) by (nonlinear_arith)
                requires
                    x < 256 * p,
            ;
            assert(le_bytes(x as nat, (n - i) as nat) == seq![(x % 256) as u8] + le_bytes(
                (x / 256) as nat,
                k,
            ));
            self.buf.push((x % 256) as u8);
            x = x / 256;
            i = i + 1;
            assert(self@ + le_bytes(x as nat, (n - i) as nat) =~= before + (seq![
                (x0 % 256) as u8,
            ] + le_bytes(x as nat, k)));
        }
        assert(le_bytes(x as nat, 0) =~= Seq::<u8>::empty());
        assert(self@ + Seq::<u8>::empty() =~= self@);
    }

    pub fn write_u16(&mut self, v: u16)
        ensures
            final(self)@ == old(self)@ + le_bytes(v as nat, 2),
    {
        proof {
            lemma_pow256_values();
        }
        self.write_uint(v as u128, 2);
    }

    pub fn write_u32(&mut self, v: u32)
        ensures
            final(self)@ == old(self)@ + le_bytes(v as nat, 4),
    {
        proof {
            lemma_pow256_values();
        }
        self.write_uint(v as u128, 4);
    }

    pub fn write_u64(&mut self, v: u64)
        ensures
            final(self)@ == old(self)@ + le_bytes(v as nat, 8),
    {
        proof {
            lemma_pow256_values();
        }
        self.write_uint(v as u128, 8);
    }

    pub fn write_u128(&mut self, v: u128)
        ensures
            final(self)@ == old(self)@ + le_bytes(v as nat, 16),
    {
        proof {
            lemma_pow256_values();
        }
        self.write_uint(v, 16);
    }

    pub fn write_bool(&mut self, b: bool)
        ensures
            final(self)@ == old(self)@ + bool_bytes(b),
    {
        if b {
            self.write_byte(1);
        } else {
            self.write_byte(0);
        }
        assert(final(self)@ =~= old(self)@ + bool_bytes(b));
    }

    /// Appends `v` in its canonical variable-length encoding.
    pub fn write_varuint(&mut self, v: u64)
        ensures
            final(self)@ == old(self)@ + varuint_bytes(v),
    {
        proof {
            lemma_pow256_values();
        }
        if v < 0xFD {
            self.write_byte(v as u8);
            assert(final(self)@ =~= old(self)@ + varuint_bytes(v));
        } else if v <= 0xFFFF {
            self.write_byte(0xFD);
            self.write_uint(v as u128, 2);
            assert(final(self)@ =~= old(self)@ + varuint_bytes(v));
        } else if v <= 0xFFFF_FFFF {
            self.write_byte(0xFE);
            self.write_uint(v as u128, 4);
            assert(final(self)@ =~= old(self)@ + varuint_bytes(v));
        } else {
            self.write_byte(0xFF);
            self.write_uint(v as u128, 8);
            assert(final(self)@ =~= old(self)@ + varuint_bytes(v));
        }
    }

    /// Appends `data` with its length in front.
    pub fn write_var_bytes(&mut self, data: &[u8])
        ensures
            final(self)@ == old(self)@ + var_bytes(data@),
            data@.len() <= u64::MAX,
    {
        self.write_varuint(data.len() as u64);
        self.write_raw(data);
        assert(final(self)@ =~= old(self)@ + var_bytes(data@));
    }

    /// Appends the 20 bytes of `a`, with no length prefix.
    pub fn write_address(&mut self, a: &Address)
        ensures
            final(self)@ == old(self)@ + a@,
    {
        self.write_raw(a.as_slice());
    }

    /// The bytes written so far.
    pub fn bytes(&self) -> (r: &[u8])
        ensures
            r@ == self@,
    {
        self.buf.as_slice()
    }

    /// Hands the buffer over.
    pub fn into_bytes(self) -> (r: Vec<u8>)
        ensures
            r@ == self@,
    {
        self.buf
    }
}

/// A read cursor over an encoded buffer.
pub struct Source {
    buf: Vec<u8>,
    pos: usize,
}

/// `new` has decoded the result `r` out of `old`, as `d` describes: on success
/// the cursor moved past exactly the bytes consumed, on failure it stayed.
pub open spec fn advanced<T>(
    old: Source,
    new: Source,
    r: Result<T, DecodeError>,
    d: Result<(T, nat), DecodeError>,
) -> bool {
    &&& new.data() == old.data()
    &&& match d {
        Ok((v, k)) => r == Ok::<T, DecodeError>(v) && new.pos() == old.pos() + k,
        Err(e) => r == Err::<T, DecodeError>(e) && new.pos() == old.pos(),
    }
}

impl Source {
    /// The whole buffer.
    pub closed spec fn data(&self) -> Seq<u8> {
        self.buf@
    }

    /// How many bytes have been consumed.
    pub closed spec fn pos(&self) -> nat {
        self.pos as nat
    }

    pub open spec fn wf(&self) -> bool {
        self.pos() <= self.data().len()
    }

    /// The bytes not yet consumed.
    pub open spec fn rest(&self) -> Seq<u8> {
        tail(self.data(), self.pos())
    }

    pub fn new(data: Vec<u8>) -> (r: Source)
        ensures
            r.wf(),
            r.data() == data@,
            r.pos() == 0,
            r.rest() == data@,
    {
        let r = Source { buf: data, pos: 0 };
        assert(r.rest() =~= data@);
        r
    }

    /// Hands the whole buffer back.
    pub fn into_data(self) -> (r: Vec<u8>)
        ensures
            r@ == self.data(),
    {
        self.buf
    }

    /// The number of bytes not yet consumed.
    pub fn remaining(&self) -> (r: usize)
        requires
            self.wf(),
        ensures
            r == self.rest().len(),
    {
        self.buf.len() - self.pos
    }

    /// Reads a little-endian unsigned integer of `n` bytes.
    pub fn read_uint(&mut self, n: usize) -> (r: Result<u128, DecodeError>)
        requires
            old(self).wf(),
            n <= 16,
        ensures
            final(self).wf(),
            advanced(*old(self), *final(self), r, u128_at(old(self).rest(), n as nat)),
    {
        let ghost s = self.rest();
        if self.buf.len() - self.pos < n {
            return Err(DecodeError::UnexpectedEof);
        }
        let mut acc: u128 = 0;
        let mut i: usize = n;
        let ghost start = self.pos as int;
        let ghost end = start + n;
        assert(le_value(self.buf@.subrange(end, end)) == 0) by {
            assert(self.buf@.subrange(end, end).len() == 0);
        }
        while i > 0
            invariant
                self.wf(),
                self.pos == start,
                self.buf@ == old(self).buf@,
                end == start + n,
                end <= self.buf@.len() <= usize::MAX,
                n <= 16,
                i <= n,
                acc as nat == le_value(self.buf@.subrange(start + i, end)),
            decreases i,
        {
            let ghost sub = self.buf@.subrange(start + i, end);
            proof {
                lemma_le_value_bound(sub);
                lemma_pow256_mono(sub.len(), 15);
                lemma_pow256_values();
                assert(pow256(16) == 256 * pow256(15));
            }
            i = i - 1;
            let b = self.buf[self.pos + i];
            let ghost full = self.buf@.subrange(start + i, end);
            assert(full.drop_first() =~= sub);
            assert(acc * 256 + b < 0x1_0000_0000_0000_0000_0000_0000_0000_0000) by (nonlinear_arith)
                requires
                    acc < pow256(15),
                    pow256(16) == 256 * pow256(15),
                    pow256(16) == 0x1_0000_0000_0000_0000_0000_0000_0000_0000,
                    b < 256,
            ;
            acc = acc * 256 + b as u128;
        }
        proof {
            assert(self.buf@.subrange(start, end) =~= s.take(n as int));
        }
        self.pos = self.pos + n;
        Ok(acc)
    }

    pub fn read_byte(&mut self) -> (r: Result<u8, DecodeError>)
        requires
            old(self).wf(),
        ensures
            final(self).wf(),
            advanced(*old(self), *final(self), r, u8_at(old(self).rest())),
    {
        proof {
            lemma_le_value_bound(old(self).rest().take(1));
            lemma_pow256_values();
        }
        match self.read_uint(1) {
            Ok(v) => Ok(v as u8),
            Err(e) => Err(e),
        }
    }

    pub fn read_u16(&mut self) -> (r: Result<u16, DecodeError>)
        requires
            old(self).wf(),
        ensures
            final(self).wf(),
            advanced(*old(self), *final(self), r, u16_at(old(self).rest())),
    {
        proof {
            lemma_le_value_bound(old(self).rest().take(2));
            lemma_pow256_values();
        }
        match self.read_uint(2) {
            Ok(v) => Ok(v as u16),
            Err(e) => Err(e),
        }
    }

    pub fn read_u32(&mut self) -> (r: Result<u32, DecodeError>)
        requires
            old(self).wf(),
        ensures
            final(self).wf(),
            advanced(*old(self), *final(self), r, u32_at(old(self).rest())),
    {
        proof {
            lemma_le_value_bound(old(self).rest().take(4));
            lemma_pow256_values();
        }
        match self.read_uint(4) {
            Ok(v) => Ok(v as u32),
            Err(e) => Err(e),
        }
    }

    pub fn read_u64(&mut self) -> (r: Result<u64, DecodeError>)
        requires
            old(self).wf(),
        ensures
            final(self).wf(),
            advanced(*old(self), *final(self), r, u64_at(old(self).rest())),
    {
        proof {
            lemma_le_value_bound(old(self).rest().take(8));
            lemma_pow256_values();
        }
        match self.read_uint(8) {
            Ok(v) => Ok(v as u64),
            Err(e) => Err(e),
        }
    }

    pub fn read_u128(&mut self) -> (r: Result<u128, DecodeError>)
        requires
            old(self).wf(),
        ensures
            final(self).wf(),
            advanced(*old(self), *final(self), r, u128_at(old(self).rest(), 16)),
    {
        self.read_uint(16)
    }

    pub fn read_bool(&mut self) -> (r: Result<bool, DecodeError>)
        requires
            old(self).wf(),
        ensures
            final(self).wf(),
            advanced(*old(self), *final(self), r, bool_at(old(self).rest())),
    {
        let ghost s = self.rest();
        if self.pos >= self.buf.len() {
            return Err(DecodeError::UnexpectedEof);
        }
        let b = self.buf[self.pos];
        assert(b == s[0]);
        if b == 0 {
            self.pos = self.pos + 1;
            Ok(false)
        } else if b == 1 {
            self.pos = self.pos + 1;
            Ok(true)
        } else {
            Err(DecodeError::IrregularData)
        }
    }

    /// Reads a variable-length unsigned integer.
    pub fn read_varuint(&mut self) -> (r: Result<u64, DecodeError>)
        requires
            old(self).wf(),
        ensures
            final(self).wf(),
            advanced(*old(self), *final(self), r, varuint_at(old(self).rest())),
    {
        let ghost s = self.rest();
        if self.pos >= self.buf.len() {
            return Err(DecodeError::UnexpectedEof);
        }
        let tag = self.buf[self.pos];
        assert(tag == s[0]);
        if tag < 0xFD {
            self.pos = self.pos + 1;
            return Ok(tag as u64);
        }
        let n: usize = if tag == 0xFD {
            2
        } else if tag == 0xFE {
            4
        } else {
            8
        };
        let ghost before = *self;
        self.pos = self.pos + 1;
        assert(self.rest() =~= s.drop_first());
        proof {
            lemma_le_value_bound(s.drop_first().take(n as int));
            lemma_pow256_values();
        }
        match self.read_uint(n) {
            Err(e) => {
                self.pos = self.pos - 1;
                assert(self.data() == before.data());
                Err(e)
            },
            Ok(v) => {
                let size: usize = if v < 0xFD {
                    1
                } else if v <= 0xFFFF {
                    3
                } else if v <= 0xFFFF_FFFF {
                    5
                } else {
                    9
                };
                if size == n + 1 {
                    Ok(v as u64)
                } else {
                    self.pos = self.pos - n - 1;
                    Err(DecodeError::IrregularData)
                }
            },
        }
    }

    /// Takes the next `n` bytes as they are.
    pub fn read_raw(&mut self, n: usize) -> (r: Result<Vec<u8>, DecodeError>)
        requires
            old(self).wf(),
        ensures
            final(self).wf(),
            match raw_at(old(self).rest(), n as nat) {
                Ok((b, k)) => r is Ok && r->Ok_0@ == b && final(self).pos() == old(self).pos() + k,
                Err(e) => r == Err::<Vec<u8>, DecodeError>(e) && final(self).pos() == old(self).pos(),
            },
            final(self).data() == old(self).data(),
    {
        let ghost s = self.rest();
        if self.buf.len() - self.pos < n {
            return Err(DecodeError::UnexpectedEof);
        }
        let mut out: Vec<u8> = Vec::new();
        let mut i: usize = 0;
        while i < n
            invariant
                self.wf(),
                self.pos + n <= self.buf@.len() <= usize::MAX,
                self.buf@ == old(self).buf@,
                self.pos == old(self).pos,
                s == self.rest(),
                i <= n,
                out@ == s.take(i as int),
            decreases n - i,
        {
            out.push(self.buf[self.pos + i]);
            i = i + 1;
            assert(out@ =~= s.take(i as int));
        }
        self.pos = self.pos + n;
        Ok(out)
    }

    /// Reads the 20 bytes of an address.
    pub fn read_address(&mut self) -> (r: Result<Address, DecodeError>)
        requires
            old(self).wf(),
        ensures
            final(self).wf(),
            match raw_at(old(self).rest(), ADDRESS_LEN as nat) {
                Ok((b, k)) => r is Ok && r->Ok_0@ == b && final(self).pos() == old(self).pos() + k,
                Err(e) => r == Err::<Address, DecodeError>(e) && final(self).pos() == old(self).pos(),
            },
            final(self).data() == old(self).data(),
    {
        match self.read_raw(ADDRESS_LEN) {
            Ok(b) => match Address::from_slice(b.as_slice()) {
                Some(a) => Ok(a),
                None => Ok(Address::zero()),
            },
            Err(e) => Err(e),
        }
    }

    /// Reads a byte string written with its length in front.
    pub fn read_var_bytes(&mut self) -> (r: Result<Vec<u8>, DecodeError>)
        requires
            old(self).wf(),
        ensures
            final(self).wf(),
            match var_bytes_at(old(self).rest()) {
                Ok((b, k)) => r is Ok && r->Ok_0@ == b && final(self).pos() == old(self).pos() + k,
                Err(e) => r == Err::<Vec<u8>, DecodeError>(e) && final(self).pos() == old(self).pos(),
            },
            final(self).data() == old(self).data(),
    {
        let ghost s = self.rest();
        let start = self.pos;
        let n = match self.read_varuint() {
            Ok(n) => n,
            Err(e) => return Err(e),
        };
        let ghost k = (self.pos - start) as nat;
        assert(self.rest() =~= s.subrange(k as int, s.len() as int));
        if ((self.buf.len() - self.pos) as u64) < n {
            self.pos = start;
            return Err(DecodeError::UnexpectedEof);
        }
        match self.read_raw(n as usize) {
            Ok(b) => {
                assert(b@ =~= s.subrange(k as int, (k + n) as int));
                Ok(b)
            },
            Err(e) => {
                self.pos = start;
                Err(e)
            },
        }
    }
}

} // verus!
