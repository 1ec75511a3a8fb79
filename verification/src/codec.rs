//! Fixed layouts of integers in bytes: little-endian words, the CBOR encoding
//! of unsigned integers, and the records stored in that form.
use vstd::prelude::*;

verus! {

/// `256` to the power `n`.
pub open spec fn byte_pow(n: nat) -> nat
    decreases n,
{
    if n == 0 {
        1
    } else {
        256 * byte_pow((n - 1) as nat)
    }
}

/// The `n` low bytes of `v`, least significant first.
pub open spec fn le_bytes(v: nat, n: nat) -> Seq<u8>
    decreases n,
{
    if n == 0 {
        Seq::empty()
    } else {
        seq![(v % 256) as u8] + le_bytes(v / 256, (n - 1) as nat)
    }
}

/// The number whose bytes, least significant first, are `b`.
pub open spec fn from_le(b: Seq<u8>) -> nat
    decreases b.len(),
{
    if b.len() == 0 {
        0
    } else {
        b[0] as nat + 256 * from_le(b.drop_first())
    }
}

/// The `n` low bytes of `v`, most significant first.
pub open spec fn be_bytes(v: nat, n: nat) -> Seq<u8>
    decreases n,
{
    if n == 0 {
        Seq::empty()
    } else {
        be_bytes(v / 256, (n - 1) as nat).push((v % 256) as u8)
    }
}

/// The number whose bytes, most significant first, are `b`.
pub open spec fn from_be(b: Seq<u8>) -> nat
    decreases b.len(),
{
    if b.len() == 0 {
        0
    } else {
        from_be(b.drop_last()) * 256 + b.last() as nat
    }
}

pub proof fn lemma_byte_pow_positive(n: nat)
    ensures
        byte_pow(n) >= 1,
    decreases n,
{
    if n > 0 {
        lemma_byte_pow_positive((n - 1) as nat);
    }
}

/// `n` bytes hold a number below `256^n`.
pub proof fn lemma_from_le_bound(b: Seq<u8>)
    ensures
        from_le(b) < byte_pow(b.len()),
    decreases b.len(),
{
    if b.len() > 0 {
        lemma_from_le_bound(b.drop_first());
        let r = from_le(b.drop_first());
        let p = byte_pow((b.len() - 1) as nat);
        assert(b[0] as nat + 256 * r < 256 * p) by (nonlinear_arith)
            requires
                r < p,
                b[0] < 256,
        ;
    }
}

/// The same for the most significant byte first.
pub proof fn lemma_from_be_bound(b: Seq<u8>)
    ensures
        from_be(b) < byte_pow(b.len()),
    decreases b.len(),
{
    if b.len() > 0 {
        lemma_from_be_bound(b.drop_last());
        let r = from_be(b.drop_last());
        let p = byte_pow((b.len() - 1) as nat);
        assert(r * 256 + b.last() < 256 * p) by (nonlinear_arith)
            requires
                r < p,
                b.last() < 256,
        ;
    }
}

/// Reading back the `n` low bytes of a number below `256^n` gives the number.
pub proof fn lemma_le_roundtrip(v: nat, n: nat)
    requires
        v < byte_pow(n),
    ensures
        le_bytes(v, n).len() == n,
        from_le(le_bytes(v, n)) == v,
    decreases n,
{
    if n > 0 {
        let p = byte_pow((n - 1) as nat);
        assert(v / 256 < p) by (nonlinear_arith)
            requires
                v < 256 * p,
        ;
        lemma_le_roundtrip(v / 256, (n - 1) as nat);
        let s = le_bytes(v, n);
        assert(s.drop_first() =~= le_bytes(v / 256, (n - 1) as nat));
        assert(v == v % 256 + 256 * (v / 256)) by (nonlinear_arith);
    } else {
        assert(v == 0);
    }
}

/// The same for the most significant byte first.
pub proof fn lemma_be_roundtrip(v: nat, n: nat)
    requires
        v < byte_pow(n),
    ensures
        be_bytes(v, n).len() == n,
        from_be(be_bytes(v, n)) == v,
    decreases n,
{
    if n > 0 {
        let p = byte_pow((n - 1) as nat);
        assert(v / 256 < p) by (nonlinear_arith)
            requires
                v < 256 * p,
        ;
        lemma_be_roundtrip(v / 256, (n - 1) as nat);
        let s = be_bytes(v, n);
        assert(s.drop_last() =~= be_bytes(v / 256, (n - 1) as nat));
        assert(v == (v / 256) * 256 + v % 256) by (nonlinear_arith);
    } else {
        assert(v == 0);
    }
}

/// Writing back the number read from bytes gives the bytes.
pub proof fn lemma_le_of_bytes(b: Seq<u8>)
    ensures
        le_bytes(from_le(b), b.len()) == b,
    decreases b.len(),
{
    if b.len() > 0 {
        let t = b.drop_first();
        lemma_le_of_bytes(t);
        let r = from_le(t);
        let v = b[0] as nat + 256 * r;
        assert(v % 256 == b[0] && v / 256 == r) by (nonlinear_arith)
            requires
                v == b[0] as nat + 256 * r,
                b[0] < 256,
        ;
        assert(le_bytes(v, b.len()) =~= seq![b[0]] + t);
        assert(b =~= seq![b[0]] + t);
    } else {
        assert(b =~= Seq::<u8>::empty());
    }
}

/// `256^8` is `2^64`.
pub proof fn lemma_byte_pow_8()
    ensures
        byte_pow(8) == 0x1_0000_0000_0000_0000,
        byte_pow(4) == 0x1_0000_0000,
        byte_pow(2) == 0x1_0000,
        byte_pow(1) == 0x100,
{
    reveal_with_fuel(byte_pow, 9);
}

/// Appends the `n` low bytes of `v`, least significant first.
fn push_le(bytes: &mut Vec<u8>, v: u64, n: usize)
    ensures
        final(bytes)@ == old(bytes)@ + le_bytes(v as nat, n as nat),
    decreases n,
{
    if n > 0 {
        bytes.push((v % 256) as u8);
        let ghost mid = bytes@;
        push_le(bytes, v / 256, n - 1);
        assert(bytes@ =~= old(bytes)@ + le_bytes(v as nat, n as nat));
    } else {
        assert(bytes@ =~= old(bytes)@ + le_bytes(v as nat, n as nat));
    }
}

/// Appends the `n` low bytes of `v`, most significant first.
fn push_be(bytes: &mut Vec<u8>, v: u64, n: usize)
    ensures
        final(bytes)@ == old(bytes)@ + be_bytes(v as nat, n as nat),
    decreases n,
{
    if n > 0 {
        push_be(bytes, v / 256, n - 1);
        bytes.push((v % 256) as u8);
        assert(bytes@ =~= old(bytes)@ + be_bytes(v as nat, n as nat));
    } else {
        assert(bytes@ =~= old(bytes)@ + be_bytes(v as nat, n as nat));
    }
}

/// Reads `b[from..from + n]`, least significant byte first.
fn read_le(b: &[u8], from: usize, n: usize) -> (v: u64)
    requires
        n <= 8,
        from + n <= b@.len(),
    ensures
        v == from_le(b@.subrange(from as int, from + n)),
{
    let mut v: u64 = 0;
    let mut i: usize = n;
    let blen = b.len();
    proof {
        lemma_byte_pow_8();
    }
    while i > 0
        invariant
            blen == b@.len(),
            i <= n <= 8,
            from + n <= b@.len(),
            v == from_le(b@.subrange(from + i, from + n)),
            v < byte_pow((n - i) as nat),
            byte_pow(8) == 0x1_0000_0000_0000_0000,
        decreases i,
    {
        i -= 1;
        let ghost s = b@.subrange(from + i, from + n);
        assert(s.drop_first() =~= b@.subrange(from + i + 1, from + n));
        proof {
            lemma_byte_pow_mono((n - i) as nat, 8);
        }
        assert(v * 256 + b[from + i] < 256 * byte_pow((n - i - 1) as nat)) by (nonlinear_arith)
            requires
                v < byte_pow((n - i - 1) as nat),
                b@[from + i] < 256,
        ;
        v = v * 256 + b[from + i] as u64;
    }
    v
}

/// Reads `b[from..from + n]`, most significant byte first.
fn read_be(b: &[u8], from: usize, n: usize) -> (v: u64)
    requires
        n <= 8,
        from + n <= b@.len(),
    ensures
        v == from_be(b@.subrange(from as int, from + n)),
{
    let mut v: u64 = 0;
    let mut i: usize = 0;
    let blen = b.len();
    proof {
        lemma_byte_pow_8();
    }
    while i < n
        invariant
            blen == b@.len(),
            i <= n <= 8,
            from + n <= b@.len(),
            v == from_be(b@.subrange(from as int, from + i)),
            v < byte_pow(i as nat),
            byte_pow(8) == 0x1_0000_0000_0000_0000,
        decreases n - i,
    {
        let ghost s = b@.subrange(from as int, from + i + 1);
        assert(s.drop_last() =~= b@.subrange(from as int, from + i));
        proof {
            lemma_byte_pow_mono((i + 1) as nat, 8);
        }
        assert(v * 256 + b[from + i] < 256 * byte_pow(i as nat)) by (nonlinear_arith)
            requires
                v < byte_pow(i as nat),
                b@[from + i] < 256,
        ;
        v = v * 256 + b[from + i] as u64;
        i += 1;
    }
    v
}

/// `256^a <= 256^b` when `a <= b`.
pub proof fn lemma_byte_pow_mono(a: nat, b: nat)
    requires
        a <= b,
    ensures
        byte_pow(a) <= byte_pow(b),
    decreases b,
{
    if a < b {
        lemma_byte_pow_mono(a, (b - 1) as nat);
        lemma_byte_pow_positive((b - 1) as nat);
    }
}

// ---------------------------------------------------------------- CBOR integers

/// The CBOR encoding of the unsigned integer `v` (major type 0, shortest form).
pub open spec fn cbor_uint(v: u64) -> Seq<u8> {
    if v <= 23 {
        seq![v as u8]
    } else if v <= 0xff {
        seq![0x18u8] + be_bytes(v as nat, 1)
    } else if v <= 0xffff {
        seq![0x19u8] + be_bytes(v as nat, 2)
    } else if v <= 0xffff_ffff {
        seq![0x1au8] + be_bytes(v as nat, 4)
    } else {
        seq![0x1bu8] + be_bytes(v as nat, 8)
    }
}

/// The length of a CBOR unsigned integer that starts with header byte `h`.
pub open spec fn cbor_uint_len(h: u8) -> Option<nat> {
    if h <= 23 {
        Some(1)
    } else if h == 0x18 {
        Some(2)
    } else if h == 0x19 {
        Some(3)
    } else if h == 0x1a {
        Some(5)
    } else if h == 0x1b {
        Some(9)
    } else {
        None
    }
}

/// Whether `b` starts with a complete CBOR unsigned integer.
pub open spec fn cbor_uint_ok(b: Seq<u8>) -> bool {
    b.len() >= 1 && cbor_uint_len(b[0]) is Some && cbor_uint_len(b[0])->0 <= b.len()
}

/// The value of the CBOR unsigned integer at the start of `b`.
pub open spec fn cbor_uint_value(b: Seq<u8>) -> nat {
    if b[0] <= 23 {
        b[0] as nat
    } else {
        from_be(b.subrange(1, cbor_uint_len(b[0])->0 as int))
    }
}

/// Appends the CBOR encoding of `value` to `bytes`.
pub fn encode_cbor_uint(bytes: &mut Vec<u8>, value: u64)
    ensures
        final(bytes)@ == old(bytes)@ + cbor_uint(value),
{
    if value <= 23 {
        bytes.push(value as u8);
        assert(bytes@ =~= old(bytes)@ + cbor_uint(value));
    } else if value <= 0xff {
        bytes.push(0x18);
        push_be(bytes, value, 1);
        assert(bytes@ =~= old(bytes)@ + cbor_uint(value));
    } else if value <= 0xffff {
        bytes.push(0x19);
        push_be(bytes, value, 2);
        assert(bytes@ =~= old(bytes)@ + cbor_uint(value));
    } else if value <= 0xffff_ffff {
        bytes.push(0x1a);
        push_be(bytes, value, 4);
        assert(bytes@ =~= old(bytes)@ + cbor_uint(value));
    } else {
        bytes.push(0x1b);
        push_be(bytes, value, 8);
        assert(bytes@ =~= old(bytes)@ + cbor_uint(value));
    }
}

/// Reads the CBOR unsigned integer at the start of `bytes`: its value and its length.
pub fn decode_cbor_uint(bytes: &[u8]) -> (r: (u64, usize))
    requires
        cbor_uint_ok(bytes@),
    ensures
        r.0 == cbor_uint_value(bytes@),
        r.1 == cbor_uint_len(bytes@[0])->0,
{
    let h = bytes[0];
    if h <= 23 {
        (h as u64, 1)
    } else if h == 0x18 {
        (read_be(bytes, 1, 1), 2)
    } else if h == 0x19 {
        (read_be(bytes, 1, 2), 3)
    } else if h == 0x1a {
        (read_be(bytes, 1, 4), 5)
    } else {
        (read_be(bytes, 1, 8), 9)
    }
}

/// A CBOR unsigned integer reads back as the value written, whatever follows it.
pub proof fn lemma_cbor_uint_roundtrip(v: u64, rest: Seq<u8>)
    ensures
        cbor_uint_ok(cbor_uint(v) + rest),
        cbor_uint_len((cbor_uint(v) + rest)[0])->0 == cbor_uint(v).len(),
        cbor_uint_value(cbor_uint(v) + rest) == v,
{
    lemma_byte_pow_8();
    let b = cbor_uint(v) + rest;
    if v > 23 {
        let n: nat = if v <= 0xff { 1 } else if v <= 0xffff { 2 } else if v <= 0xffff_ffff { 4 } else { 8 };
        lemma_be_roundtrip(v as nat, n);
        assert(b.subrange(1, 1 + n as int) =~= be_bytes(v as nat, n));
    }
}

// ---------------------------------------------------------------- object ids

/// A chunk of an object: the object's etag and the part's index.
#[derive(Clone, Copy, Debug, Default, PartialEq, Eq)]
pub struct ObjectId(pub u64, pub u32);

/// The stored form of an object id: a CBOR array of its two numbers.
pub open spec fn object_id_bytes(etag: u64, part_idx: u32) -> Seq<u8> {
    seq![0x82u8] + cbor_uint(etag) + cbor_uint(part_idx as u64)
}

/// Encodes an object id as a CBOR array of two unsigned integers.
pub fn encode_object_id(etag: u64, part_idx: u32) -> (r: Vec<u8>)
    ensures
        r@ == object_id_bytes(etag, part_idx),
{
    let mut bytes: Vec<u8> = Vec::new();
    bytes.push(0x82);
    encode_cbor_uint(&mut bytes, etag);
    encode_cbor_uint(&mut bytes, part_idx as u64);
    assert(bytes@ =~= object_id_bytes(etag, part_idx));
    bytes
}

/// Whether `b` is the stored form of an object id.
pub open spec fn object_id_ok(b: Seq<u8>) -> bool {
    &&& b.len() >= 1
    &&& b[0] == 0x82
    &&& cbor_uint_ok(b.drop_first())
    &&& {
        let n1 = cbor_uint_len(b[1])->0;
        let rest = b.subrange(1 + n1 as int, b.len() as int);
        &&& cbor_uint_ok(rest)
        &&& 1 + n1 + cbor_uint_len(rest[0])->0 == b.len()
        &&& cbor_uint_value(rest) <= u32::MAX
    }
}

impl ObjectId {
    /// The stored form of the id.
    pub fn to_bytes(&self) -> (r: Vec<u8>)
        ensures
            r@ == object_id_bytes(self.0, self.1),
    {
        encode_object_id(self.0, self.1)
    }

    /// Reads an id from its stored form.
    pub fn from_bytes(bytes: &[u8]) -> (r: ObjectId)
        requires
            object_id_ok(bytes@),
        ensures
            r.0 == cbor_uint_value(bytes@.drop_first()),
            r.1 == cbor_uint_value(bytes@.subrange(1 + cbor_uint_len(bytes@[1])->0 as int, bytes@.len() as int)),
    {
        let tail = slice_from(bytes, 1);
        assert(tail@ =~= bytes@.drop_first());
        let (etag, etag_len) = decode_cbor_uint(tail);
        let rest = slice_from(bytes, 1 + etag_len);
        let (part_idx, _part_len) = decode_cbor_uint(rest);
        ObjectId(etag, part_idx as u32)
    }
}

/// `b[from..]`.
fn slice_from(b: &[u8], from: usize) -> (r: &[u8])
    requires
        from <= b@.len(),
    ensures
        r@ == b@.subrange(from as int, b@.len() as int),
{
    let r = vstd::slice::slice_subrange(b, from, b.len());
    r
}

/// An object id reads back from its stored form.
pub proof fn lemma_object_id_roundtrip(etag: u64, part_idx: u32)
    ensures
        object_id_ok(object_id_bytes(etag, part_idx)),
        cbor_uint_value(object_id_bytes(etag, part_idx).drop_first()) == etag,
        cbor_uint_value(
            object_id_bytes(etag, part_idx).subrange(
                1 + cbor_uint_len(object_id_bytes(etag, part_idx)[1])->0 as int,
                object_id_bytes(etag, part_idx).len() as int,
            ),
        ) == part_idx,
{
    let b = object_id_bytes(etag, part_idx);
    let e = cbor_uint(etag);
    let p = cbor_uint(part_idx as u64);
    assert(b.drop_first() =~= e + p);
    lemma_cbor_uint_roundtrip(etag, p);
    assert(b[1] == (e + p)[0]);
    let n1 = e.len();
    assert(b.subrange(1 + n1 as int, b.len() as int) =~= p + Seq::<u8>::empty());
    lemma_cbor_uint_roundtrip(part_idx as u64, Seq::<u8>::empty());
}

/// The stored form of an object id takes 3 bytes at least (both numbers
/// below 24) and 15 at most (an etag of 8 bytes and an index of 4).
pub proof fn lemma_object_id_len(etag: u64, part_idx: u32)
    ensures
        3 <= object_id_bytes(etag, part_idx).len() <= 15,
        etag <= 23 && part_idx <= 23 ==> object_id_bytes(etag, part_idx).len() == 3,
        etag == u64::MAX && part_idx == u32::MAX ==> object_id_bytes(etag, part_idx).len() == 15,
{
    lemma_be_len(etag as nat, 1);
    lemma_be_len(etag as nat, 2);
    lemma_be_len(etag as nat, 4);
    lemma_be_len(etag as nat, 8);
    lemma_be_len(part_idx as nat, 1);
    lemma_be_len(part_idx as nat, 2);
    lemma_be_len(part_idx as nat, 4);
}

/// `be_bytes(v, n)` has `n` bytes.
proof fn lemma_be_len(v: nat, n: nat)
    ensures
        be_bytes(v, n).len() == n,
    decreases n,
{
    if n > 0 {
        lemma_be_len(v / 256, (n - 1) as nat);
    }
}

// ---------------------------------------------------------------- deployment records

/// The bucket build that a canister runs: the log entry of its deployment and
/// the hash of its code.
#[derive(Clone, Copy, Debug, PartialEq, Eq)]
pub struct DeploymentRecord {
    pub log_id: u64,
    pub wasm_hash: [u8; 32],
}

/// The stored form of a deployment record: the log id in 8 little-endian
/// bytes, then the 32 bytes of the hash.
pub open spec fn record_bytes(log_id: u64, wasm_hash: Seq<u8>) -> Seq<u8> {
    le_bytes(log_id as nat, 8) + wasm_hash
}

impl DeploymentRecord {
    /// The stored form of the record, 40 bytes long.
    pub fn to_bytes(&self) -> (r: Vec<u8>)
        ensures
            r@ == record_bytes(self.log_id, self.wasm_hash@),
            r@.len() == 40,
    {
        let mut bytes: Vec<u8> = Vec::new();
        push_le(&mut bytes, self.log_id, 8);
        let mut i: usize = 0;
        let ghost start = bytes@;
        while i < 32
            invariant
                i <= 32,
                self.wasm_hash@.len() == 32,
                bytes@ == start + self.wasm_hash@.subrange(0, i as int),
            decreases 32 - i,
        {
            bytes.push(self.wasm_hash[i]);
            assert(self.wasm_hash@.subrange(0, i + 1) =~= self.wasm_hash@.subrange(0, i as int).push(self.wasm_hash@[i as int]));
            i += 1;
        }
        assert(self.wasm_hash@.subrange(0, 32) =~= self.wasm_hash@);
        proof {
            lemma_byte_pow_8();
            lemma_le_roundtrip(self.log_id as nat, 8);
        }
        bytes
    }

    /// Reads a record from its stored form, which is 40 bytes long.
    pub fn from_bytes(bytes: &[u8]) -> (r: DeploymentRecord)
        requires
            bytes@.len() == 40,
        ensures
            r.log_id == from_le(bytes@.subrange(0, 8)),
            r.wasm_hash@ == bytes@.subrange(8, 40),
    {
        let log_id = read_le(bytes, 0, 8);
        let mut wasm_hash: [u8; 32] = [0u8; 32];
        let mut i: usize = 0;
        while i < 32
            invariant
                i <= 32,
                bytes@.len() == 40,
                wasm_hash@.len() == 32,
                forall|j: int| 0 <= j < i ==> wasm_hash@[j] == bytes@[8 + j],
            decreases 32 - i,
        {
            wasm_hash[i] = bytes[8 + i];
            i += 1;
        }
        assert(wasm_hash@ =~= bytes@.subrange(8, 40));
        DeploymentRecord { log_id, wasm_hash }
    }
}

/// A record reads back from its stored form.
pub proof fn lemma_record_roundtrip(log_id: u64, wasm_hash: Seq<u8>)
    requires
        wasm_hash.len() == 32,
    ensures
        record_bytes(log_id, wasm_hash).len() == 40,
        from_le(record_bytes(log_id, wasm_hash).subrange(0, 8)) == log_id,
        record_bytes(log_id, wasm_hash).subrange(8, 40) == wasm_hash,
{
    lemma_byte_pow_8();
    lemma_le_roundtrip(log_id as nat, 8);
    let b = record_bytes(log_id, wasm_hash);
    assert(b.subrange(0, 8) =~= le_bytes(log_id as nat, 8));
    assert(b.subrange(8, 40) =~= wasm_hash);
}

// ---------------------------------------------------------------- nonces

/// The nonce for part `idx` of an object encrypted from the base nonce
/// `base`: the last 8 bytes, read as a little-endian counter, move on by `idx`
/// (wrapping around).
pub open spec fn gcm_nonce(base: Seq<u8>, idx: u64) -> Seq<u8> {
    base.subrange(0, 4) + le_bytes(((from_le(base.subrange(4, 12)) + idx) % 0x1_0000_0000_0000_0000) as nat, 8)
}

/// Derives the nonce of part `idx` from the base nonce `base`.
pub fn derive_gcm_nonce(base: &[u8; 12], idx: u64) -> (r: [u8; 12])
    ensures
        r@ == gcm_nonce(base@, idx),
{
    let mut nonce: [u8; 12] = *base;
    let bs = base.as_slice();
    assert(bs@ == base@);
    let ctr = read_le(bs, 4, 8);
    let c = ctr.wrapping_add(idx);
    let mut bytes: Vec<u8> = Vec::new();
    push_le(&mut bytes, c, 8);
    proof {
        lemma_byte_pow_8();
        lemma_le_roundtrip(c as nat, 8);
        lemma_from_le_bound(base@.subrange(4, 12));
        assert(c == (ctr + idx) % 0x1_0000_0000_0000_0000);
    }
    let mut i: usize = 0;
    while i < 8
        invariant
            i <= 8,
            bytes@.len() == 8,
            nonce@.len() == 12,
            base@.len() == 12,
            forall|j: int| 0 <= j < 4 ==> nonce@[j] == base@[j],
            forall|j: int| 0 <= j < i ==> nonce@[4 + j] == bytes@[j],
        decreases 8 - i,
    {
        nonce[4 + i] = bytes[i];
        i += 1;
    }
    assert(nonce@ =~= gcm_nonce(base@, idx));
    nonce
}

} // verus!
