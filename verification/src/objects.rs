//! The object store: objects at paths, made of parts, whose data copies share,
//! uploaded whole or in parts.
use vstd::prelude::*;
use std::collections::BTreeMap;
use crate::object_types::{ListResult, range_in, precondition_failure_of, Attribute, Error, ErrorModel, GetOptions, GetResult, ObjectMeta, PartId, MAX_PAYLOAD_SIZE, PutMode, PutMultipartOptions, PutOptions, PutResult, UpdateVersion, CHUNK_SIZE, MAX_PARTS};
use crate::order::str_lt;
use crate::paths::{canonical, canonical_path, descendant_start, lemma_map_of_at, PathMap};
use crate::text::{chars_of, views, decimal, decimal_string, owned, push_char, push_decimal, push_str, str_eq};

verus! {

/// The key under which part `idx` of the data `etag` is stored.
pub open spec fn part_key(etag: u64, idx: u32) -> u128 {
    (etag as int * 0x1_0000_0000 + idx as int) as u128
}

/// Whether stored key `k` is one of the first `n` parts of the data `etag`.
pub open spec fn part_of(k: u128, etag: u64, n: nat) -> bool {
    k / 0x1_0000_0000 == etag && k % 0x1_0000_0000 < n
}

/// The key of a part splits back into the etag and the index.
pub proof fn lemma_part_key(etag: u64, idx: u32)
    ensures
        part_key(etag, idx) / 0x1_0000_0000 == etag,
        part_key(etag, idx) % 0x1_0000_0000 == idx,
        part_key(etag, idx) == etag as int * 0x1_0000_0000 + idx as int,
{
    assert(0 <= (etag as int) * 0x1_0000_0000 + (idx as int) <= 0xffff_ffff_ffff_ffff_ffff_ffff_ffff_ffff) by (nonlinear_arith);
    let k = (etag as int) * 0x1_0000_0000 + (idx as int);
    vstd::arithmetic::div_mod::lemma_fundamental_div_mod_converse(k, 0x1_0000_0000, etag as int, idx as int);
}

/// The key under which part `idx` of the data `etag` is stored.
fn key_of(etag: u64, idx: u32) -> (k: u128)
    ensures
        k == part_key(etag, idx),
{
    proof {
        lemma_part_key(etag, idx);
    }
    (etag as u128) * 0x1_0000_0000 + (idx as u128)
}

/// The number of parts of an object: `size / CHUNK_SIZE` rounded up for a
/// complete object, and one past the highest part index uploaded for an upload
/// in flight, whose size is stored as `-2 - part_idx` (or -1 before any part).
pub open spec fn parts_of(size: i64) -> nat {
    if size < 0 {
        (-1 - size) as nat
    } else {
        ((size + CHUNK_SIZE - 1) / (CHUNK_SIZE as int)) as nat
    }
}

/// The number of parts of an object.
pub fn chunks_count(size: i64) -> (n: u64)
    ensures
        n == parts_of(size),
{
    if size < 0 {
        (-1 - size) as u64
    } else {
        let s = size as u64;
        s / CHUNK_SIZE + if s % CHUNK_SIZE == 0 { 0 } else { 1 }
    }
}

/// Whether `value` is the decimal form of `etag`, without sign, spaces or
/// leading zeros.
pub fn etag_matches(value: &str, etag: u64) -> (r: bool)
    ensures
        r == (value@ == decimal(etag as nat)),
{
    let d = decimal_string(etag);
    str_eq(value, d.as_str())
}

// ---------------------------------------------------------------- multipart uploads

/// Whether bit `i` of the words is set.
pub open spec fn bit_set(words: Seq<u64>, i: u32) -> bool {
    (words[(i / 64) as int] >> ((i % 64) as u64)) & 1 == 1
}

/// The parts received by a multipart upload and the sizes of those that are
/// shorter than a full part.
pub struct UploadModel {
    pub present: Set<u32>,
    pub short: Map<u32, u32>,
}

/// What is known of a multipart upload in flight.
#[derive(Debug)]
pub struct MultipartUpload {
    /// One bit per part index, set once the part has arrived.
    present: [u64; 16],
    /// The sizes of the parts that are not full.
    short_parts: BTreeMap<u32, u32>,
}

impl View for MultipartUpload {
    type V = UploadModel;

    closed spec fn view(&self) -> UploadModel {
        UploadModel {
            present: Set::new(|i: u32| i < MAX_PARTS && bit_set(self.present@, i)),
            short: self.short_parts@,
        }
    }
}

/// Setting bit `b` of `w` sets it and keeps the others.
proof fn lemma_set_bit(w: u64, b: u64, c: u64)
    requires
        b < 64,
        c < 64,
    ensures
        ((w | (1u64 << b)) >> c) & 1 == (if c == b { 1 } else { (w >> c) & 1 }),
{
    assert(((w | (1u64 << b)) >> c) & 1 == (if c == b { 1u64 } else { (w >> c) & 1 })) by (bit_vector)
        requires
            b < 64,
            c < 64,
    ;
}

/// The first of the first `n` part indexes that is missing from `present`.
pub open spec fn first_absent(present: Set<u32>, n: nat) -> Option<u32>
    decreases n,
{
    if n == 0 {
        None
    } else {
        match first_absent(present, (n - 1) as nat) {
            Some(i) => Some(i),
            None => if !present.contains((n - 1) as u32) {
                Some((n - 1) as u32)
            } else {
                None
            },
        }
    }
}

/// The first of the first `n` part indexes recorded as short.
pub open spec fn first_short(short: Map<u32, u32>, n: nat) -> Option<u32>
    decreases n,
{
    if n == 0 {
        None
    } else {
        match first_short(short, (n - 1) as nat) {
            Some(i) => Some(i),
            None => if short.contains_key((n - 1) as u32) {
                Some((n - 1) as u32)
            } else {
                None
            },
        }
    }
}

/// Why an upload of `parts` parts cannot complete, if it cannot; else its size.
pub open spec fn completed_size_of(u: UploadModel, parts: u32) -> Result<nat, Seq<char>> {
    if parts == 0 {
        Ok(0)
    } else if first_absent(u.present, parts as nat) is Some {
        Err("missing part "@ + decimal(first_absent(u.present, parts as nat)->0 as nat))
    } else if first_short(u.short, (parts - 1) as nat) is Some {
        let i = first_short(u.short, (parts - 1) as nat)->0;
        Err("invalid part size "@ + decimal(u.short[i] as nat) + " at "@ + decimal(i as nat))
    } else {
        let last = (parts - 1) as u32;
        let last_size: nat = if u.short.contains_key(last) { u.short[last] as nat } else { CHUNK_SIZE as nat };
        if last_size == 0 {
            Err("invalid part size 0 at "@ + decimal(last as nat))
        } else {
            Ok(((parts - 1) * CHUNK_SIZE + last_size) as nat)
        }
    }
}

proof fn lemma_first_absent_stays(p: Set<u32>, n: nat, n2: nat)
    requires
        n <= n2,
        first_absent(p, n) is Some,
    ensures
        first_absent(p, n2) == first_absent(p, n),
    decreases n2 - n,
{
    if n < n2 {
        lemma_first_absent_stays(p, n, (n2 - 1) as nat);
    }
}

proof fn lemma_first_short_stays(s: Map<u32, u32>, n: nat, n2: nat)
    requires
        n <= n2,
        first_short(s, n) is Some,
    ensures
        first_short(s, n2) == first_short(s, n),
    decreases n2 - n,
{
    if n < n2 {
        lemma_first_short_stays(s, n, (n2 - 1) as nat);
    }
}

impl MultipartUpload {
    /// An upload that has received nothing.
    pub fn new() -> (r: MultipartUpload)
        ensures
            r@.present == Set::<u32>::empty(),
            r@.short == Map::<u32, u32>::empty(),
    {
        let r = MultipartUpload { present: [0u64; 16], short_parts: BTreeMap::new() };
        assert forall|i: u32| !(#[trigger] r@.present.contains(i)) by {
            if i < MAX_PARTS {
                assert(r.present@[(i / 64) as int] == 0);
                assert((0u64 >> ((i % 64) as u64)) & 1 == 0) by (bit_vector);
            }
        }
        assert(r@.present =~= Set::<u32>::empty());
        r
    }

    /// Records that part `part_idx`, of `size` bytes, has arrived.
    pub fn record(&mut self, part_idx: u32, size: u32)
        requires
            part_idx < MAX_PARTS,
        ensures
            final(self)@.present == old(self)@.present.insert(part_idx),
            final(self)@.short == if size == CHUNK_SIZE {
                old(self)@.short.remove(part_idx)
            } else {
                old(self)@.short.insert(part_idx, size)
            },
    {
        let word = (part_idx / 64) as usize;
        let bit = (part_idx % 64) as u64;
        let ghost before = self.present@;
        let w = self.present[word];
        self.present[word] = w | (1u64 << bit);
        assert forall|i: u32| #[trigger] self@.present.contains(i) == old(self)@.present.insert(part_idx).contains(i) by {
            if i < MAX_PARTS {
                lemma_set_bit(w, bit, (i % 64) as u64);
                if (i / 64) as usize != word {
                    assert(self.present@[(i / 64) as int] == before[(i / 64) as int]);
                } else if i != part_idx {
                    assert((i % 64) as u64 != bit);
                }
            }
        }
        assert(self@.present =~= old(self)@.present.insert(part_idx));
        if size as u64 == CHUNK_SIZE {
            self.short_parts.remove(&part_idx);
        } else {
            self.short_parts.insert(part_idx, size);
        }
    }

    /// Whether part `idx` has arrived.
    fn has_part(&self, idx: u32) -> (b: bool)
        requires
            idx < MAX_PARTS,
        ensures
            b == self@.present.contains(idx),
    {
        let word = (idx / 64) as usize;
        let bit = (idx % 64) as u64;
        (self.present[word] >> bit) & 1 == 1
    }

    /// The size of the object made of the first `parts` parts, once they have
    /// all arrived and all but the last are full.
    pub fn completed_size(&self, path: &str, parts: u32) -> (r: Result<u64, Error>)
        requires
            parts <= MAX_PARTS,
        ensures
            match completed_size_of(self@, parts) {
                Ok(n) => r == Ok::<u64, Error>(n as u64),
                Err(e) => r matches Err(x) && x@ == ErrorModel::Precondition { path: path@, error: e },
            },
    {
        if parts == 0 {
            return Ok(0);
        }
        let mut idx: u32 = 0;
        while idx < parts
            invariant
                idx <= parts <= MAX_PARTS,
                first_absent(self@.present, idx as nat) is None,
            decreases parts - idx,
        {
            if !self.has_part(idx) {
                proof {
                    lemma_first_absent_stays(self@.present, (idx + 1) as nat, parts as nat);
                }
                let mut e = owned("missing part ");
                push_decimal(&mut e, idx as u64);
                return Err(Error::Precondition { path: owned(path), error: e });
            }
            idx += 1;
        }
        let mut idx: u32 = 0;
        while idx < parts - 1
            invariant
                0 < parts <= MAX_PARTS,
                idx <= parts - 1,
                first_absent(self@.present, parts as nat) is None,
                first_short(self@.short, idx as nat) is None,
            decreases parts - 1 - idx,
        {
            if let Some(size) = self.short_parts.get(&idx) {
                proof {
                    lemma_first_short_stays(self@.short, (idx + 1) as nat, (parts - 1) as nat);
                }
                let mut e = owned("invalid part size ");
                push_decimal(&mut e, *size as u64);
                push_str(&mut e, " at ");
                push_decimal(&mut e, idx as u64);
                return Err(Error::Precondition { path: owned(path), error: e });
            }
            idx += 1;
        }
        let last_idx = parts - 1;
        let last_size: u64 = match self.short_parts.get(&last_idx) {
            Some(s) => *s as u64,
            None => CHUNK_SIZE,
        };
        if last_size == 0 {
            let mut e = owned("invalid part size 0 at ");
            push_decimal(&mut e, last_idx as u64);
            return Err(Error::Precondition { path: owned(path), error: e });
        }
        Ok((parts as u64 - 1) * CHUNK_SIZE + last_size)
    }
}


// ---------------------------------------------------------------- object descriptions

/// The mathematical value of an [`Attribute`].
pub enum AttributeModel {
    ContentDisposition,
    ContentEncoding,
    ContentLanguage,
    ContentType,
    CacheControl,
    Metadata(Seq<char>),
}

pub open spec fn attribute_view(a: Attribute) -> AttributeModel {
    match a {
        Attribute::ContentDisposition => AttributeModel::ContentDisposition,
        Attribute::ContentEncoding => AttributeModel::ContentEncoding,
        Attribute::ContentLanguage => AttributeModel::ContentLanguage,
        Attribute::ContentType => AttributeModel::ContentType,
        Attribute::CacheControl => AttributeModel::CacheControl,
        Attribute::Metadata(s) => AttributeModel::Metadata(s@),
    }
}

/// The attributes of an object, as values.
pub open spec fn attributes_view(v: Seq<(Attribute, String)>) -> Seq<(AttributeModel, Seq<char>)> {
    v.map_values(|e: (Attribute, String)| (attribute_view(e.0), e.1@))
}

/// Optional text, as a value.
pub open spec fn opt_view(o: Option<String>) -> Option<Seq<char>> {
    match o {
        Some(s) => Some(s@),
        None => None,
    }
}

/// Optional tags, as values.
pub open spec fn tags_view(o: Option<Vec<[u8; 16]>>) -> Option<Seq<Seq<u8>>> {
    match o {
        Some(v) => Some(v@.map_values(|t: [u8; 16]| t@)),
        None => None,
    }
}

/// Optional nonce, as a value.
pub open spec fn nonce_view(o: Option<[u8; 12]>) -> Option<Seq<u8>> {
    match o {
        Some(n) => Some(n@),
        None => None,
    }
}

/// A copy of some text.
fn copy_opt(o: &Option<String>) -> (r: Option<String>)
    ensures
        opt_view(r) == opt_view(*o),
{
    match o {
        Some(s) => Some(s.clone()),
        None => None,
    }
}

/// A copy of the tags.
fn copy_tags(o: &Option<Vec<[u8; 16]>>) -> (r: Option<Vec<[u8; 16]>>)
    ensures
        tags_view(r) == tags_view(*o),
{
    match o {
        Some(v) => {
            let mut r: Vec<[u8; 16]> = Vec::new();
            for i in 0..v.len()
                invariant
                    r@.map_values(|t: [u8; 16]| t@) == v@.take(i as int).map_values(|t: [u8; 16]| t@),
            {
                r.push(v[i]);
                assert(v@.take(i + 1).map_values(|t: [u8; 16]| t@) =~= v@.take(i as int).map_values(|t: [u8; 16]| t@).push(v@[i as int]@));
                assert(r@.map_values(|t: [u8; 16]| t@) =~= v@.take(i as int).map_values(|t: [u8; 16]| t@).push(v@[i as int]@));
            }
            assert(v@.take(v@.len() as int) =~= v@);
            Some(r)
        },
        None => None,
    }
}

/// A copy of an attribute.
fn copy_attribute(a: &Attribute) -> (r: Attribute)
    ensures
        attribute_view(r) == attribute_view(*a),
{
    match a {
        Attribute::ContentDisposition => Attribute::ContentDisposition,
        Attribute::ContentEncoding => Attribute::ContentEncoding,
        Attribute::ContentLanguage => Attribute::ContentLanguage,
        Attribute::ContentType => Attribute::ContentType,
        Attribute::CacheControl => Attribute::CacheControl,
        Attribute::Metadata(s) => Attribute::Metadata(s.clone()),
    }
}

/// A copy of the attributes.
fn copy_attributes(v: &Vec<(Attribute, String)>) -> (r: Vec<(Attribute, String)>)
    ensures
        attributes_view(r@) == attributes_view(v@),
{
    let mut r: Vec<(Attribute, String)> = Vec::new();
    for i in 0..v.len()
        invariant
            attributes_view(r@) == attributes_view(v@.take(i as int)),
    {
        let e = (copy_attribute(&v[i].0), v[i].1.clone());
        r.push(e);
        assert(attributes_view(v@.take(i + 1)) =~= attributes_view(v@.take(i as int)).push((attribute_view(v@[i as int].0), v@[i as int].1@)));
        assert(attributes_view(r@) =~= attributes_view(v@.take(i as int)).push((attribute_view(v@[i as int].0), v@[i as int].1@)));
    }
    assert(v@.take(v@.len() as int) =~= v@);
    r
}

/// The description of an object as the store keeps it.
#[derive(Debug)]
pub struct ObjectMetadata {
    /// Unix timestamp in milliseconds.
    pub last_modified: u64,
    pub size: u64,
    pub tags: String,
    pub attributes: Vec<(Attribute, String)>,
    pub version: Option<String>,
    pub aes_nonce: Option<[u8; 12]>,
    pub aes_tags: Option<Vec<[u8; 16]>>,
}

/// The mathematical value of an [`ObjectMetadata`].
pub struct MetaModel {
    pub last_modified: u64,
    pub size: u64,
    pub tags: Seq<char>,
    pub attributes: Seq<(AttributeModel, Seq<char>)>,
    pub version: Option<Seq<char>>,
    pub aes_nonce: Option<Seq<u8>>,
    pub aes_tags: Option<Seq<Seq<u8>>>,
}

impl View for ObjectMetadata {
    type V = MetaModel;

    open spec fn view(&self) -> MetaModel {
        MetaModel {
            last_modified: self.last_modified,
            size: self.size,
            tags: self.tags@,
            attributes: attributes_view(self.attributes@),
            version: opt_view(self.version),
            aes_nonce: nonce_view(self.aes_nonce),
            aes_tags: tags_view(self.aes_tags),
        }
    }
}

impl ObjectMetadata {
    /// A copy of the description.
    pub fn copy(&self) -> (r: ObjectMetadata)
        ensures
            r@ == self@,
    {
        ObjectMetadata {
            last_modified: self.last_modified,
            size: self.size,
            tags: self.tags.clone(),
            attributes: copy_attributes(&self.attributes),
            version: copy_opt(&self.version),
            aes_nonce: self.aes_nonce,
            aes_tags: copy_tags(&self.aes_tags),
        }
    }
}


// ---------------------------------------------------------------- the store

/// The bytes of one part of an object.
#[derive(Clone, Debug, Default)]
pub struct Chunk(pub Vec<u8>);

/// The mathematical value of an [`ObjectStore`].
#[verifier::ext_equal]
pub struct ObjModel {
    pub name: Seq<char>,
    /// Path to the etag and size of the object there; an upload in flight has
    /// a negative size.
    pub locations: Map<Seq<char>, (u64, i64)>,
    pub next_etag: u64,
    /// Etag of a copy to the etag whose data it shares.
    pub aliases: Map<u64, u64>,
    /// Etag of shared data to the number of objects sharing it (2 or more).
    pub refcounts: Map<u64, u64>,
    pub uploads: Map<u64, UploadModel>,
    pub meta: Map<u64, MetaModel>,
    pub data: Map<u128, Seq<u8>>,
}

/// The objects of a store, their descriptions and their data.
#[derive(Debug)]
pub struct ObjectStore {
    name: String,
    locations: PathMap,
    next_etag: u64,
    data_aliases: BTreeMap<u64, u64>,
    data_refcounts: BTreeMap<u64, u64>,
    multipart_uploads: BTreeMap<u64, MultipartUpload>,
    meta: BTreeMap<u64, ObjectMetadata>,
    data: BTreeMap<u128, Chunk>,
}

impl View for ObjectStore {
    type V = ObjModel;

    closed spec fn view(&self) -> ObjModel {
        ObjModel {
            name: self.name@,
            locations: self.locations@,
            next_etag: self.next_etag,
            aliases: self.data_aliases@,
            refcounts: self.data_refcounts@,
            uploads: self.multipart_uploads@.map_values(|u: MultipartUpload| u@),
            meta: self.meta@.map_values(|m: ObjectMetadata| m@),
            data: self.data@.map_values(|c: Chunk| c.0@),
        }
    }
}

/// The store's invariant: its shape holds and shared data is counted.
pub open spec fn objects_wf(m: ObjModel) -> bool {
    shape_wf(m) && shares_counted(m)
}

/// The shape of the store: shared data is counted at least twice, objects have
/// distinct etags below the next one, uploads in flight have at most the most
/// parts, complete objects are described, no part is longer than a full one, and
/// only etags already given out are copies.
pub open spec fn shape_wf(m: ObjModel) -> bool {
    &&& forall|d: u64| #[trigger] m.refcounts.contains_key(d) ==> m.refcounts[d] >= 2
    &&& forall|p: Seq<char>| #[trigger] m.locations.contains_key(p) ==> m.locations[p].0 < m.next_etag
    &&& forall|p: Seq<char>, q: Seq<char>|
        #![trigger m.locations[p], m.locations[q]]
        m.locations.contains_key(p) && m.locations.contains_key(q) && p != q ==> m.locations[p].0
            != m.locations[q].0
    &&& forall|p: Seq<char>| #[trigger] m.locations.contains_key(p) && m.locations[p].1 < 0 ==> parts_of(
        m.locations[p].1,
    ) <= MAX_PARTS
    &&& forall|p: Seq<char>| #[trigger] m.locations.contains_key(p) && m.locations[p].1 >= 0 ==> m.meta.contains_key(
        m.locations[p].0,
    )
    &&& forall|k: u128| #[trigger] m.data.contains_key(k) ==> m.data[k].len() <= CHUNK_SIZE
    &&& forall|a: u64| #[trigger] m.aliases.contains_key(a) ==> a < m.next_etag
}

/// The etag whose data object `etag` reads.
pub open spec fn data_etag_of(m: ObjModel, etag: u64) -> u64 {
    data_of(m.aliases, etag)
}

/// The etag whose data an object of `etag` reads, by the copies' aliases.
pub open spec fn data_of(aliases: Map<u64, u64>, etag: u64) -> u64 {
    if aliases.contains_key(etag) { aliases[etag] } else { etag }
}

/// The paths whose objects read the data `d`.
pub open spec fn holders(locs: Map<Seq<char>, (u64, i64)>, aliases: Map<u64, u64>, d: u64) -> Set<Seq<char>> {
    locs.dom().filter(|p: Seq<char>| data_of(aliases, locs[p].0) == d)
}

/// The count of data `d` is right: as many paths read it as its count says,
/// and data with no count is read by at most one path.
pub open spec fn count_ok(locs: Map<Seq<char>, (u64, i64)>, aliases: Map<u64, u64>, refcounts: Map<u64, u64>, d: u64) -> bool {
    if refcounts.contains_key(d) {
        holders(locs, aliases, d).len() == refcounts[d]
    } else {
        holders(locs, aliases, d).len() <= 1
    }
}

/// The count of data `d` is one more than the paths that read it, or it has
/// no count and no path reads it: the state once a reader has gone and
/// before its object is removed.
pub open spec fn count_short(locs: Map<Seq<char>, (u64, i64)>, aliases: Map<u64, u64>, refcounts: Map<u64, u64>, d: u64) -> bool {
    if refcounts.contains_key(d) {
        holders(locs, aliases, d).len() + 1 == refcounts[d]
    } else {
        holders(locs, aliases, d).len() == 0
    }
}

/// An upload in flight shares nothing: its etag is no copy, and no other path
/// reads its data.
pub open spec fn uploads_unshared(locs: Map<Seq<char>, (u64, i64)>, aliases: Map<u64, u64>) -> bool {
    &&& forall|p: Seq<char>| #[trigger] locs.contains_key(p) && locs[p].1 < 0 ==> !aliases.contains_key(locs[p].0)
    &&& forall|p: Seq<char>, q: Seq<char>|
        #![trigger locs[p], locs[q]]
        locs.contains_key(p) && locs[p].1 < 0 && locs.contains_key(q) && q != p ==> data_of(aliases, locs[q].0)
            != locs[p].0
}

/// Shared data is counted: finitely many paths, copies alias etags already
/// given out, every data's count is right, and uploads in flight share nothing.
pub open spec fn shares_counted(m: ObjModel) -> bool {
    &&& m.locations.dom().finite()
    &&& forall|a: u64| #[trigger] m.aliases.contains_key(a) ==> m.aliases[a] < m.next_etag
    &&& forall|d: u64| #[trigger] count_ok(m.locations, m.aliases, m.refcounts, d)
    &&& uploads_unshared(m.locations, m.aliases)
}

/// The data without the first `n` parts of `etag`.
pub open spec fn without_parts(d: Map<u128, Seq<u8>>, etag: u64, n: nat) -> Map<u128, Seq<u8>> {
    d.remove_keys(Set::new(|k: u128| part_of(k, etag, n)))
}

/// The store once object `etag`, of `size`, is gone: its description, alias
/// and upload go; its data goes unless another object still shares it.
pub open spec fn removed_object(m: ObjModel, etag: u64, size: i64) -> ObjModel {
    let d = data_etag_of(m, etag);
    let m1 = ObjModel {
        aliases: m.aliases.remove(etag),
        uploads: m.uploads.remove(etag),
        meta: m.meta.remove(etag),
        ..m
    };
    if m1.refcounts.contains_key(d) {
        let r = (m1.refcounts[d] - 1) as u64;
        if r == 1 {
            ObjModel { refcounts: m1.refcounts.remove(d), ..m1 }
        } else {
            ObjModel { refcounts: m1.refcounts.insert(d, r), ..m1 }
        }
    } else {
        ObjModel { data: without_parts(m1.data, d, parts_of(size)), ..m1 }
    }
}

/// The number of parts that `len` bytes fill.
pub open spec fn parts_for(len: nat) -> nat {
    ((len + CHUNK_SIZE - 1) / (CHUNK_SIZE as int)) as nat
}

/// Part `i` of the bytes `p`.
pub open spec fn piece(p: Seq<u8>, i: nat) -> Seq<u8> {
    let a = i * CHUNK_SIZE;
    let b = if (i + 1) * CHUNK_SIZE <= p.len() { (i + 1) * CHUNK_SIZE } else { p.len() as int };
    p.subrange(a as int, b)
}

/// The data with the bytes `p` stored as the parts of `etag`.
pub open spec fn with_parts(d: Map<u128, Seq<u8>>, etag: u64, p: Seq<u8>) -> Map<u128, Seq<u8>> {
    Map::new(
        |k: u128| d.contains_key(k) || part_of(k, etag, parts_for(p.len())),
        |k: u128| if part_of(k, etag, parts_for(p.len())) { piece(p, (k % 0x1_0000_0000) as nat) } else { d[k] },
    )
}

/// The data with the first `n` parts of `p` stored under `etag`.
pub open spec fn with_parts_upto(d: Map<u128, Seq<u8>>, etag: u64, p: Seq<u8>, n: nat) -> Map<u128, Seq<u8>> {
    Map::new(
        |k: u128| d.contains_key(k) || part_of(k, etag, n),
        |k: u128| if part_of(k, etag, n) { piece(p, (k % 0x1_0000_0000) as nat) } else { d[k] },
    )
}

impl ObjectStore {
    /// The objects in path order: path, etag and size.
    pub closed spec fn entries(&self) -> Seq<(Seq<char>, u64, i64)> {
        self.locations.entries()
    }

    /// The store's name.
    pub fn name(&self) -> (r: &String)
        ensures
            r@ == self@.name,
    {
        &self.name
    }

    /// An empty store.
    pub fn new(name: String) -> (r: ObjectStore)
        ensures
            objects_wf(r@),
            r@.name == name@,
            r@.locations == Map::<Seq<char>, (u64, i64)>::empty(),
            r@.next_etag == 0,
            r@.aliases == Map::<u64, u64>::empty(),
            r@.refcounts == Map::<u64, u64>::empty(),
            r@.uploads == Map::<u64, UploadModel>::empty(),
            r@.meta == Map::<u64, MetaModel>::empty(),
            r@.data == Map::<u128, Seq<u8>>::empty(),
    {
        let r = ObjectStore {
            name,
            locations: PathMap::new(),
            next_etag: 0,
            data_aliases: BTreeMap::new(),
            data_refcounts: BTreeMap::new(),
            multipart_uploads: BTreeMap::new(),
            meta: BTreeMap::new(),
            data: BTreeMap::new(),
        };
        assert(r@.uploads =~= Map::<u64, UploadModel>::empty());
        assert(r@.meta =~= Map::<u64, MetaModel>::empty());
        assert(r@.data =~= Map::<u128, Seq<u8>>::empty());
        assert forall|d: u64| #[trigger] count_ok(r@.locations, r@.aliases, r@.refcounts, d) by {
            assert(holders(r@.locations, r@.aliases, d) =~= Set::<Seq<char>>::empty());
        }
        r
    }

    /// Drops every object, description and part, and restarts the etags.
    pub fn clear(&mut self)
        ensures
            objects_wf(final(self)@),
            final(self)@.name == old(self)@.name,
            final(self)@.locations == Map::<Seq<char>, (u64, i64)>::empty(),
            final(self)@.next_etag == 0,
            final(self)@.aliases == Map::<u64, u64>::empty(),
            final(self)@.refcounts == Map::<u64, u64>::empty(),
            final(self)@.uploads == Map::<u64, UploadModel>::empty(),
            final(self)@.meta == Map::<u64, MetaModel>::empty(),
            final(self)@.data == Map::<u128, Seq<u8>>::empty(),
    {
        self.meta.clear();
        self.data.clear();
        self.locations.clear();
        self.next_etag = 0;
        self.data_aliases.clear();
        self.data_refcounts.clear();
        self.multipart_uploads.clear();
        assert(self@.uploads =~= Map::<u64, UploadModel>::empty());
        assert(self@.meta =~= Map::<u64, MetaModel>::empty());
        assert(self@.data =~= Map::<u128, Seq<u8>>::empty());
        assert forall|d: u64| #[trigger] count_ok(self@.locations, self@.aliases, self@.refcounts, d) by {
            assert(holders(self@.locations, self@.aliases, d) =~= Set::<Seq<char>>::empty());
        }
    }

    /// The number of objects, uploads in flight included.
    pub fn len(&self) -> (n: usize)
        ensures
            n == self.entries().len(),
    {
        self.locations.len()
    }

    /// The etag the next object gets.
    pub fn next_etag_value(&self) -> (n: u64)
        ensures
            n == self@.next_etag,
    {
        self.next_etag
    }

    /// The number of stored parts.
    pub fn parts_stored(&self) -> (n: usize)
        ensures
            n == self@.data.len(),
    {
        assert(self@.data.dom() =~= self.data@.dom());
        self.data.len()
    }

    /// Takes the next etag.
    fn next_etag(&mut self) -> (r: Result<u64, Error>)
        ensures
            old(self)@.next_etag == u64::MAX ==> (r matches Err(e) && e@ == ErrorModel::Generic {
                error: "object etag space exhausted"@,
            } && final(self)@ == old(self)@),
            old(self)@.next_etag < u64::MAX ==> r == Ok::<u64, Error>(old(self)@.next_etag) && final(self)@
                == (ObjModel { next_etag: (old(self)@.next_etag + 1) as u64, ..old(self)@ }),
            final(self).entries() == old(self).entries(),
    {
        let etag = self.next_etag;
        if etag == u64::MAX {
            return Err(Error::Generic { error: owned("object etag space exhausted") });
        }
        self.next_etag = etag + 1;
        Ok(etag)
    }

    /// The etag whose data object `etag` reads.
    pub fn data_etag(&self, etag: u64) -> (d: u64)
        ensures
            d == data_etag_of(self@, etag),
    {
        match self.data_aliases.get(&etag) {
            Some(d) => *d,
            None => etag,
        }
    }

    /// Counts one more object sharing the data of `etag`; returns that data's etag.
    fn retain_object_data(&mut self, etag: u64) -> (r: Result<u64, Error>)
        requires
            shape_wf(old(self)@),
        ensures
            shape_wf(final(self)@),
            final(self).entries() == old(self).entries(),
            ({
                let m = old(self)@;
                let d = data_etag_of(m, etag);
                let refs: int = if m.refcounts.contains_key(d) { m.refcounts[d] as int } else { 1 };
                if refs == u64::MAX {
                    r matches Err(e) && e@ == ErrorModel::Generic { error: "object data reference count exhausted"@ }
                        && final(self)@ == m
                } else {
                    r == Ok::<u64, Error>(d) && final(self)@ == (ObjModel {
                        refcounts: m.refcounts.insert(d, (refs + 1) as u64),
                        ..m
                    })
                }
            }),
    {
        let d = self.data_etag(etag);
        let refs: u64 = match self.data_refcounts.get(&d) {
            Some(r) => *r,
            None => 1,
        };
        if refs == u64::MAX {
            return Err(Error::Generic { error: owned("object data reference count exhausted") });
        }
        self.data_refcounts.insert(d, refs + 1);
        Ok(d)
    }

    /// Drops the first `n` parts of the data `etag` (all of them from `2^32` on).
    fn delete_object_data(&mut self, etag: u64, n: u64)
        ensures
            final(self)@ == (ObjModel { data: without_parts(old(self)@.data, etag, n as nat), ..old(self)@ }),
            final(self).entries() == old(self).entries(),
    {
        let ghost d0 = self@.data;
        let mut idx: u64 = 0;
        assert(without_parts(d0, etag, 0) =~= d0);
        while idx < n
            invariant
                idx <= n,
                self.entries() == old(self).entries(),
                self@ == (ObjModel { data: without_parts(d0, etag, idx as nat), ..old(self)@ }),
            decreases n - idx,
        {
            let part = (idx % 0x1_0000_0000) as u32;
            let key = key_of(etag, part);
            let ghost before = self@.data;
            self.data.remove(&key);
            proof {
                lemma_part_key(etag, part);
                assert forall|k: u128| #[trigger] part_of(k, etag, (idx + 1) as nat) == (part_of(k, etag, idx as nat) || k == key) by {
                    if k / 0x1_0000_0000 == etag && k % 0x1_0000_0000 == part && idx >= 0x1_0000_0000 {
                        assert(k % 0x1_0000_0000 < idx);
                    }
                    if k == key {
                        assert(k % 0x1_0000_0000 == part);
                    }
                    if part_of(k, etag, (idx + 1) as nat) && !part_of(k, etag, idx as nat) {
                        assert(k % 0x1_0000_0000 == idx);
                        assert(idx < 0x1_0000_0000);
                        assert(part == idx);
                        vstd::arithmetic::div_mod::lemma_fundamental_div_mod(k as int, 0x1_0000_0000);
                        assert(k == key);
                    }
                }
                assert(self@.data =~= before.remove(key));
                assert(before.remove(key) =~= without_parts(d0, etag, (idx + 1) as nat));
                assert(self@ =~= (ObjModel { data: without_parts(d0, etag, (idx + 1) as nat), ..old(self)@ }));
            }
            idx += 1;
        }
    }

    /// Removes object `etag`, of `size`: its description, alias and upload; its
    /// data unless another object still shares it.
    fn remove_object(&mut self, etag: u64, size: i64)
        requires
            shape_wf(old(self)@),
            forall|p: Seq<char>| #[trigger] old(self)@.locations.contains_key(p) ==> old(self)@.locations[p].0 != etag,
        ensures
            shape_wf(final(self)@),
            final(self)@ == removed_object(old(self)@, etag, size),
            final(self).entries() == old(self).entries(),
    {
        let ghost m = self@;
        let d = match self.data_aliases.remove(&etag) {
            Some(d) => d,
            None => etag,
        };
        self.multipart_uploads.remove(&etag);
        self.meta.remove(&etag);
        let ghost m1 = self@;
        assert(m1.uploads =~= m.uploads.remove(etag));
        assert(m1.meta =~= m.meta.remove(etag));
        assert(self@.refcounts == m.refcounts);
        match self.data_refcounts.get(&d) {
            Some(r) => {
                assert(m.refcounts.contains_key(d));
                let remaining = *r - 1;
                if remaining == 1 {
                    self.data_refcounts.remove(&d);
                } else {
                    self.data_refcounts.insert(d, remaining);
                }
            },
            None => {
                let n = chunks_count(size);
                self.delete_object_data(d, n);
            },
        }
        assert(self@ =~= removed_object(m, etag, size));
    }
}


/// The bytes `a..b` of part `idx` (modulo `2^32`) of the data `etag`, if it is
/// there and long enough.
pub open spec fn part_bytes(d: Map<u128, Seq<u8>>, etag: u64, idx: nat, a: int, b: int) -> Option<Seq<u8>> {
    let k = part_key(etag, (idx % 0x1_0000_0000) as u32);
    if d.contains_key(k) && b <= d[k].len() {
        Some(d[k].subrange(a, b))
    } else {
        None
    }
}

/// Reading the bytes `start..end` of the data `etag` over its first `n`
/// parts that the range touches: the bytes, or the first part that fails.
pub open spec fn range_from_parts(d: Map<u128, Seq<u8>>, etag: u64, start: nat, end: nat, n: nat) -> Result<Seq<u8>, nat>
    decreases n,
{
    if n == 0 {
        Ok(Seq::empty())
    } else {
        match range_from_parts(d, etag, start, end, (n - 1) as nat) {
            Err(i) => Err(i),
            Ok(r) => {
                let sc = start / (CHUNK_SIZE as nat);
                let ec = ((end - 1) as nat) / (CHUNK_SIZE as nat);
                let idx = (sc + n - 1) as nat;
                let a: int = if idx == sc { (start % (CHUNK_SIZE as nat)) as int } else { 0 };
                let b: int = if idx == ec { (((end - 1) as nat) % (CHUNK_SIZE as nat) + 1) as int } else { CHUNK_SIZE as int };
                match part_bytes(d, etag, idx, a, b) {
                    None => Err(idx),
                    Some(x) => Ok(r + x),
                }
            },
        }
    }
}

/// Reading the bytes `start..end` (with `start < end`) of the data `etag`.
pub open spec fn read_range(d: Map<u128, Seq<u8>>, etag: u64, start: nat, end: nat) -> Result<Seq<u8>, nat> {
    let sc = start / (CHUNK_SIZE as nat);
    let ec = ((end - 1) as nat) / (CHUNK_SIZE as nat);
    range_from_parts(d, etag, start, end, (ec - sc + 1) as nat)
}

/// Reading several ranges of the data `etag`, in order.
pub open spec fn read_ranges(d: Map<u128, Seq<u8>>, etag: u64, rs: Seq<(u64, u64)>) -> Result<Seq<Seq<u8>>, nat>
    decreases rs.len(),
{
    if rs.len() == 0 {
        Ok(Seq::empty())
    } else {
        match read_ranges(d, etag, rs.drop_last()) {
            Err(i) => Err(i),
            Ok(v) => match read_range(d, etag, rs.last().0 as nat, rs.last().1 as nat) {
                Err(i) => Err(i),
                Ok(x) => Ok(v.push(x)),
            },
        }
    }
}

/// The error for a part that cannot be read.
pub open spec fn missing_part(etag: u64, idx: nat) -> ErrorModel {
    ErrorModel::Precondition {
        path: Seq::empty(),
        error: "missing part "@ + decimal((idx % 0x1_0000_0000) as nat) + " at "@ + decimal(etag as nat),
    }
}

/// Checking the parts of an upload from before uploads were tracked: each of
/// the first `n` of `parts` must be there, non-empty, and full but for the
/// last; the sum of their sizes, or the refusal.
pub open spec fn legacy_size(d: Map<u128, Seq<u8>>, etag: u64, parts: u32, n: nat) -> Result<nat, Seq<char>>
    decreases n,
{
    if n == 0 {
        Ok(0)
    } else {
        match legacy_size(d, etag, parts, (n - 1) as nat) {
            Err(e) => Err(e),
            Ok(s) => {
                let idx = (n - 1) as u32;
                let k = part_key(etag, idx);
                if !d.contains_key(k) {
                    Err("missing part "@ + decimal(idx as nat))
                } else if d[k].len() == 0 || (idx + 1 != parts && d[k].len() != CHUNK_SIZE) {
                    Err("invalid part size "@ + decimal(d[k].len()) + " at "@ + decimal(idx as nat))
                } else {
                    Ok(s + d[k].len())
                }
            },
        }
    }
}

/// `v[a..b]`.
fn copy_range(v: &Vec<u8>, a: usize, b: usize) -> (r: Vec<u8>)
    requires
        a <= b <= v@.len(),
    ensures
        r@ == v@.subrange(a as int, b as int),
{
    let mut r: Vec<u8> = Vec::new();
    let mut i = a;
    while i < b
        invariant
            a <= i <= b <= v@.len(),
            r@ == v@.subrange(a as int, i as int),
        decreases b - i,
    {
        r.push(v[i]);
        assert(v@.subrange(a as int, i + 1) =~= v@.subrange(a as int, i as int).push(v@[i as int]));
        i += 1;
    }
    r
}

/// Appends `v[a..b]` to `out`.
fn append_range(out: &mut Vec<u8>, v: &Vec<u8>, a: usize, b: usize)
    requires
        a <= b <= v@.len(),
    ensures
        final(out)@ == old(out)@ + v@.subrange(a as int, b as int),
{
    let mut i = a;
    while i < b
        invariant
            a <= i <= b <= v@.len(),
            out@ == old(out)@ + v@.subrange(a as int, i as int),
        decreases b - i,
    {
        out.push(v[i]);
        assert(v@.subrange(a as int, i + 1) =~= v@.subrange(a as int, i as int).push(v@[i as int]));
        i += 1;
    }
}

impl ObjectStore {
    /// Stores the bytes `payload` as the parts of the data `etag`.
    fn put_object_data(&mut self, etag: u64, payload: Vec<u8>)
        requires
            parts_for(payload@.len()) <= 0x1_0000_0000,
        ensures
            final(self)@ == (ObjModel { data: with_parts(old(self)@.data, etag, payload@), ..old(self)@ }),
            final(self).entries() == old(self).entries(),
    {
        let ghost d0 = self@.data;
        let len = payload.len();
        let n: usize = if len == 0 { 0 } else { (len - 1) / (CHUNK_SIZE as usize) + 1 };
        assert(n == parts_for(len as nat)) by {
            if len > 0 {
                assert((len + CHUNK_SIZE - 1) / (CHUNK_SIZE as int) == (len - 1) / (CHUNK_SIZE as int) + 1) by (nonlinear_arith)
                    requires
                        len > 0,
                ;
            }
        }
        assert(with_parts_upto(d0, etag, payload@, 0) =~= d0);
        let mut i: usize = 0;
        while i < n
            invariant
                i <= n,
                n == parts_for(len as nat),
                n <= 0x1_0000_0000,
                len == payload@.len(),
                self.entries() == old(self).entries(),
                self@ == (ObjModel { data: with_parts_upto(d0, etag, payload@, i as nat), ..old(self)@ }),
            decreases n - i,
        {
            assert(i * CHUNK_SIZE < len) by (nonlinear_arith)
                requires
                    i < n,
                    n == (len + CHUNK_SIZE - 1) / (CHUNK_SIZE as int),
            ;
            let a = i * (CHUNK_SIZE as usize);
            let b = if len - a >= CHUNK_SIZE as usize { a + CHUNK_SIZE as usize } else { len };
            let chunk = copy_range(&payload, a, b);
            assert(chunk@ == piece(payload@, i as nat));
            let key = key_of(etag, i as u32);
            let ghost before = self@.data;
            self.data.insert(key, Chunk(chunk));
            proof {
                lemma_part_key(etag, i as u32);
                assert forall|k: u128| #[trigger] part_of(k, etag, (i + 1) as nat) == (part_of(k, etag, i as nat) || k == key) by {
                    if part_of(k, etag, (i + 1) as nat) && !part_of(k, etag, i as nat) {
                        vstd::arithmetic::div_mod::lemma_fundamental_div_mod(k as int, 0x1_0000_0000);
                    }
                }
                assert(self@.data =~= before.insert(key, chunk@));
                assert(before.insert(key, chunk@) =~= with_parts_upto(d0, etag, payload@, (i + 1) as nat));
            }
            i += 1;
        }
        assert(with_parts_upto(d0, etag, payload@, n as nat) =~= with_parts(d0, etag, payload@));
    }

    /// The bytes of each of `ranges` (each with its start below its end) in the data `etag`.
    fn get_object_ranges(&self, etag: u64, ranges: &[(u64, u64)]) -> (r: Result<Vec<Vec<u8>>, Error>)
        requires
            forall|i: int| 0 <= i < ranges@.len() ==> (#[trigger] ranges@[i]).0 < ranges@[i].1,
        ensures
            match read_ranges(self@.data, etag, ranges@) {
                Ok(v) => r matches Ok(x) && x@.len() == v.len() && forall|i: int| 0 <= i < v.len() ==> (#[trigger] x@[i])@ == v[i],
                Err(i) => r matches Err(e) && e@ == missing_part(etag, i),
            },
    {
        let ghost d = self@.data;
        let mut result: Vec<Vec<u8>> = Vec::new();
        let mut j: usize = 0;
        while j < ranges.len()
            invariant
                d == self@.data,
                j <= ranges@.len(),
                forall|i: int| 0 <= i < ranges@.len() ==> (#[trigger] ranges@[i]).0 < ranges@[i].1,
                read_ranges(d, etag, ranges@.take(j as int)) matches Ok(v) && result@.len() == v.len() && forall|i: int|
                    0 <= i < v.len() ==> (#[trigger] result@[i])@ == v[i],
            decreases ranges@.len() - j,
        {
            let (start, end) = ranges[j];
            assert(ranges@.take(j + 1).drop_last() =~= ranges@.take(j as int));
            let sc = start / CHUNK_SIZE;
            let ec = (end - 1) / CHUNK_SIZE;
            let mut buf: Vec<u8> = Vec::new();
            let mut idx = sc;
            while idx <= ec
                invariant
                    d == self@.data,
                    j < ranges@.len(),
                    ranges@[j as int] == (start, end),
                    read_ranges(d, etag, ranges@.take(j as int)) is Ok,
                    start < end,
                    sc == start / CHUNK_SIZE,
                    ec == ((end - 1) as u64) / CHUNK_SIZE,
                    sc <= idx <= ec + 1,
                    range_from_parts(d, etag, start as nat, end as nat, (idx - sc) as nat) == Ok::<Seq<u8>, nat>(buf@),
                decreases ec + 1 - idx,
            {
                let a: usize = if idx == sc { (start % CHUNK_SIZE) as usize } else { 0 };
                let b: usize = if idx == ec { ((end - 1) % CHUNK_SIZE + 1) as usize } else { CHUNK_SIZE as usize };
                let key = key_of(etag, (idx % 0x1_0000_0000) as u32);
                match self.data.get(&key) {
                    Some(chunk) => {
                        if b > chunk.0.len() {
                            proof {
                                lemma_range_fail_stays(d, etag, start as nat, end as nat, (idx - sc + 1) as nat, (ec - sc + 1) as nat);
                                lemma_ranges_fail(d, etag, ranges@, (j + 1) as int);
                            }
                            let mut e = owned("missing part ");
                            push_decimal(&mut e, idx % 0x1_0000_0000);
                            push_str(&mut e, " at ");
                            push_decimal(&mut e, etag);
                            return Err(Error::Precondition { path: String::new(), error: e });
                        }
                        let ghost before = buf@;
                        append_range(&mut buf, &chunk.0, a, b);
                    },
                    None => {
                        proof {
                            lemma_range_fail_stays(d, etag, start as nat, end as nat, (idx - sc + 1) as nat, (ec - sc + 1) as nat);
                            lemma_ranges_fail(d, etag, ranges@, (j + 1) as int);
                        }
                        let mut e = owned("missing part ");
                        push_decimal(&mut e, idx % 0x1_0000_0000);
                        push_str(&mut e, " at ");
                        push_decimal(&mut e, etag);
                        return Err(Error::Precondition { path: String::new(), error: e });
                    },
                }
                idx += 1;
            }
            let ghost prev = result@;
            result.push(buf);
            assert(forall|i: int| 0 <= i < prev.len() ==> result@[i] == prev[i]);
            j += 1;
        }
        assert(ranges@.take(ranges@.len() as int) =~= ranges@);
        Ok(result)
    }

    /// The size of an upload from before uploads were tracked, once its first
    /// `parts` parts are all there, non-empty, and full but for the last.
    fn legacy_multipart_size(&self, etag: u64, parts: u32, path: &str) -> (r: Result<u64, Error>)
        requires
            objects_wf(self@),
            parts <= MAX_PARTS,
        ensures
            match legacy_size(self@.data, etag, parts, parts as nat) {
                Ok(n) => r == Ok::<u64, Error>(n as u64),
                Err(e) => r matches Err(x) && x@ == ErrorModel::Precondition { path: path@, error: e },
            },
    {
        let ghost d = self@.data;
        let mut size: u64 = 0;
        let mut idx: u32 = 0;
        while idx < parts
            invariant
                d == self@.data,
                objects_wf(self@),
                idx <= parts <= MAX_PARTS,
                legacy_size(d, etag, parts, idx as nat) == Ok::<nat, Seq<char>>(size as nat),
                size <= idx * CHUNK_SIZE,
            decreases parts - idx,
        {
            let key = key_of(etag, idx);
            match self.data.get(&key) {
                None => {
                    proof {
                        lemma_legacy_fail_stays(d, etag, parts, (idx + 1) as nat, parts as nat);
                    }
                    let mut e = owned("missing part ");
                    push_decimal(&mut e, idx as u64);
                    return Err(Error::Precondition { path: owned(path), error: e });
                },
                Some(chunk) => {
                    let n = chunk.0.len();
                    if n == 0 || (idx + 1 != parts && n as u64 != CHUNK_SIZE) {
                        proof {
                            lemma_legacy_fail_stays(d, etag, parts, (idx + 1) as nat, parts as nat);
                        }
                        let mut e = owned("invalid part size ");
                        push_decimal(&mut e, n as u64);
                        push_str(&mut e, " at ");
                        push_decimal(&mut e, idx as u64);
                        return Err(Error::Precondition { path: owned(path), error: e });
                    }
                    assert(d.contains_key(key) && d[key].len() <= CHUNK_SIZE);
                    size = size + n as u64;
                },
            }
            idx += 1;
        }
        Ok(size)
    }
}

/// Once a read fails on a part, it fails there for any longer reach.
proof fn lemma_range_fail_stays(d: Map<u128, Seq<u8>>, etag: u64, start: nat, end: nat, n: nat, n2: nat)
    requires
        n <= n2,
        range_from_parts(d, etag, start, end, n) is Err,
    ensures
        range_from_parts(d, etag, start, end, n2) == range_from_parts(d, etag, start, end, n),
    decreases n2 - n,
{
    if n < n2 {
        lemma_range_fail_stays(d, etag, start, end, n, (n2 - 1) as nat);
    }
}

/// Once range `j - 1` fails, reading all the ranges fails the same way.
proof fn lemma_ranges_fail(d: Map<u128, Seq<u8>>, etag: u64, rs: Seq<(u64, u64)>, j: int)
    requires
        1 <= j <= rs.len(),
        read_ranges(d, etag, rs.take(j - 1)) is Ok,
        read_range(d, etag, rs[j - 1].0 as nat, rs[j - 1].1 as nat) is Err,
    ensures
        read_ranges(d, etag, rs) == Err::<Seq<Seq<u8>>, nat>(read_range(d, etag, rs[j - 1].0 as nat, rs[j - 1].1 as nat)->Err_0),
    decreases rs.len() - j,
{
    if j == rs.len() {
        assert(rs.drop_last() =~= rs.take(j - 1));
    } else {
        assert(rs.drop_last().take(j - 1) =~= rs.take(j - 1));
        assert(rs.drop_last()[j - 1] == rs[j - 1]);
        lemma_ranges_fail(d, etag, rs.drop_last(), j);
    }
}

/// Once the check of a legacy upload fails, it fails the same way over more parts.
proof fn lemma_legacy_fail_stays(d: Map<u128, Seq<u8>>, etag: u64, parts: u32, n: nat, n2: nat)
    requires
        n <= n2,
        legacy_size(d, etag, parts, n) is Err,
    ensures
        legacy_size(d, etag, parts, n2) == legacy_size(d, etag, parts, n),
    decreases n2 - n,
{
    if n < n2 {
        lemma_legacy_fail_stays(d, etag, parts, n, (n2 - 1) as nat);
    }
}


/// The store with the next etag taken.
pub open spec fn bumped(m: ObjModel) -> ObjModel {
    ObjModel { next_etag: (m.next_etag + 1) as u64, ..m }
}

/// The store with `(etag, size)` at `path`.
pub open spec fn located(m: ObjModel, path: Seq<char>, etag: u64, size: i64) -> ObjModel {
    ObjModel { locations: m.locations.insert(path, (etag, size)), ..m }
}

/// The store with `mm` describing `etag`.
pub open spec fn described(m: ObjModel, etag: u64, mm: MetaModel) -> ObjModel {
    ObjModel { meta: m.meta.insert(etag, mm), ..m }
}

/// The store with the bytes `p` as the data of `etag`.
pub open spec fn filled(m: ObjModel, etag: u64, p: Seq<u8>) -> ObjModel {
    ObjModel { data: with_parts(m.data, etag, p), ..m }
}

/// The store `m` once the object that `before` had at `path`, if any, is gone.
pub open spec fn dropped_prev(before: ObjModel, m: ObjModel, path: Seq<char>) -> ObjModel {
    if before.locations.contains_key(path) {
        removed_object(m, before.locations[path].0, before.locations[path].1)
    } else {
        m
    }
}

/// The description of an object put at `now` with `len` bytes.
pub open spec fn put_meta(o: PutOptions, len: nat, now: u64, version: Option<Seq<char>>) -> MetaModel {
    MetaModel {
        last_modified: now,
        size: len as u64,
        tags: o.tags@,
        attributes: attributes_view(o.attributes@),
        version,
        aes_nonce: nonce_view(o.aes_nonce),
        aes_tags: tags_view(o.aes_tags),
    }
}

/// The store after a put of `p` at `path` under the next etag.
pub open spec fn put_state(m: ObjModel, path: Seq<char>, p: Seq<u8>, mm: MetaModel) -> ObjModel {
    let e = m.next_etag;
    filled(dropped_prev(m, described(located(bumped(m), path, e, p.len() as i64), e, mm), path), e, p)
}

/// Why a put is refused, if it is.
pub open spec fn put_error(m: ObjModel, path: Seq<char>, len: nat, o: PutOptions) -> Option<ErrorModel> {
    if o.aes_tags is Some && o.aes_tags->0@.len() != parts_for(len) {
        Some(
            ErrorModel::Precondition {
                path,
                error: "aes_tags size "@ + decimal(o.aes_tags->0@.len()) + " does not match parts "@ + decimal(
                    parts_for(len),
                ),
            },
        )
    } else {
        match o.mode {
            PutMode::Overwrite => None,
            PutMode::Create => if m.locations.contains_key(path) {
                Some(ErrorModel::AlreadyExists { path })
            } else {
                None
            },
            PutMode::Update(v) => if !m.locations.contains_key(path) {
                Some(ErrorModel::Precondition { path, error: "NotFound: object not found"@ })
            } else if m.locations[path].1 < 0 {
                Some(ErrorModel::Precondition { path, error: "upload not completed"@ })
            } else if v.e_tag is None {
                Some(ErrorModel::Precondition { path, error: "e_tag required for conditional update"@ })
            } else if v.e_tag->0@ != decimal(m.locations[path].0 as nat) {
                Some(
                    ErrorModel::Precondition {
                        path,
                        error: decimal(m.locations[path].0 as nat) + " does not match "@ + v.e_tag->0@,
                    },
                )
            } else {
                None
            },
        }
    }
}

/// The version a put gives its object.
pub open spec fn put_version(o: PutOptions) -> Option<Seq<char>> {
    match o.mode {
        PutMode::Update(v) => opt_view(v.version),
        _ => None,
    }
}

/// A part of `p` is never longer than a full part.
proof fn lemma_piece_len(p: Seq<u8>, i: nat)
    requires
        i < parts_for(p.len()),
    ensures
        piece(p, i).len() <= CHUNK_SIZE,
        piece(p, i).len() > 0,
{
    assert(i * CHUNK_SIZE < p.len()) by (nonlinear_arith)
        requires
            i < (p.len() + CHUNK_SIZE - 1) / (CHUNK_SIZE as int),
    ;
    assert((i + 1) * CHUNK_SIZE == i * CHUNK_SIZE + CHUNK_SIZE) by (nonlinear_arith);
}

/// Storing the parts of `p` keeps every part within a full part's length.
proof fn lemma_filled_wf(m: ObjModel, etag: u64, p: Seq<u8>)
    requires
        shape_wf(m),
    ensures
        shape_wf(filled(m, etag, p)),
{
    let d = with_parts(m.data, etag, p);
    assert forall|k: u128| #[trigger] d.contains_key(k) implies d[k].len() <= CHUNK_SIZE by {
        if part_of(k, etag, parts_for(p.len())) {
            lemma_piece_len(p, (k % 0x1_0000_0000) as nat);
        }
    }
}

/// Removing an object that no path holds keeps the invariant.
proof fn lemma_removed_wf(m: ObjModel, etag: u64, size: i64)
    requires
        shape_wf(m),
        forall|p: Seq<char>| #[trigger] m.locations.contains_key(p) ==> m.locations[p].0 != etag,
    ensures
        shape_wf(removed_object(m, etag, size)),
        removed_object(m, etag, size).locations == m.locations,
        removed_object(m, etag, size).next_etag == m.next_etag,
        removed_object(m, etag, size).name == m.name,
{
    let r = removed_object(m, etag, size);
    assert forall|k: u128| #[trigger] r.data.contains_key(k) implies r.data[k].len() <= CHUNK_SIZE by {
        assert(m.data.contains_key(k));
    }
}

/// The readers of a data among finitely many paths are finitely many.
proof fn lemma_holders_finite(locs: Map<Seq<char>, (u64, i64)>, al: Map<u64, u64>, d: u64)
    requires
        locs.dom().finite(),
    ensures
        holders(locs, al, d).finite(),
{
    vstd::set_lib::lemma_len_subset(holders(locs, al, d), locs.dom());
}

/// Placing `v` at `p` makes `p` a reader of the data `v`'s etag reads, and of
/// no other.
proof fn lemma_holders_insert(locs: Map<Seq<char>, (u64, i64)>, al: Map<u64, u64>, p: Seq<char>, v: (u64, i64), d: u64)
    ensures
        holders(locs.insert(p, v), al, d) == (if data_of(al, v.0) == d {
            holders(locs, al, d).insert(p)
        } else {
            holders(locs, al, d).remove(p)
        }),
{
    assert(holders(locs.insert(p, v), al, d) =~= (if data_of(al, v.0) == d {
        holders(locs, al, d).insert(p)
    } else {
        holders(locs, al, d).remove(p)
    }));
}

/// Removing `p` removes it from the readers.
proof fn lemma_holders_remove(locs: Map<Seq<char>, (u64, i64)>, al: Map<u64, u64>, p: Seq<char>, d: u64)
    ensures
        holders(locs.remove(p), al, d) == holders(locs, al, d).remove(p),
{
    assert(holders(locs.remove(p), al, d) =~= holders(locs, al, d).remove(p));
}

/// Aliases that agree on every path's etag give the same readers.
proof fn lemma_holders_alias(locs: Map<Seq<char>, (u64, i64)>, al: Map<u64, u64>, al2: Map<u64, u64>, d: u64)
    requires
        forall|p: Seq<char>| #[trigger] locs.contains_key(p) ==> data_of(al2, locs[p].0) == data_of(al, locs[p].0),
    ensures
        holders(locs, al2, d) == holders(locs, al, d),
{
    assert(holders(locs, al2, d) =~= holders(locs, al, d));
}

/// A path whose object reads `d` is among its readers.
proof fn lemma_holder(locs: Map<Seq<char>, (u64, i64)>, al: Map<u64, u64>, p: Seq<char>)
    requires
        locs.contains_key(p),
    ensures
        holders(locs, al, data_of(al, locs[p].0)).contains(p),
{
}

/// Removing an object no path holds, once one reader of its data has gone,
/// leaves every count right.
proof fn lemma_removed_counted(m: ObjModel, etag: u64, size: i64)
    requires
        m.locations.dom().finite(),
        forall|a: u64| #[trigger] m.aliases.contains_key(a) ==> m.aliases[a] < m.next_etag,
        forall|p: Seq<char>| #[trigger] m.locations.contains_key(p) ==> m.locations[p].0 != etag,
        count_short(m.locations, m.aliases, m.refcounts, data_etag_of(m, etag)),
        forall|x: u64| x != data_etag_of(m, etag) ==> #[trigger] count_ok(m.locations, m.aliases, m.refcounts, x),
        uploads_unshared(m.locations, m.aliases),
    ensures
        shares_counted(removed_object(m, etag, size)),
{
    let d = data_etag_of(m, etag);
    let r = removed_object(m, etag, size);
    assert(r.locations == m.locations && r.aliases == m.aliases.remove(etag));
    assert forall|p: Seq<char>| #[trigger] m.locations.contains_key(p) implies data_of(r.aliases, m.locations[p].0) == data_of(
        m.aliases,
        m.locations[p].0,
    ) by {
        assert(m.locations[p].0 != etag);
    }
    assert(uploads_unshared(r.locations, r.aliases)) by {
        assert forall|p: Seq<char>, q: Seq<char>|
            #![trigger r.locations[p], r.locations[q]]
            r.locations.contains_key(p) && r.locations[p].1 < 0 && r.locations.contains_key(q) && q != p implies data_of(
            r.aliases,
            r.locations[q].0,
        ) != r.locations[p].0 by {
            assert(data_of(r.aliases, m.locations[q].0) == data_of(m.aliases, m.locations[q].0));
        }
    }
    assert forall|x: u64| #[trigger] count_ok(r.locations, r.aliases, r.refcounts, x) by {
        lemma_holders_alias(m.locations, m.aliases, r.aliases, x);
        if x != d {
            assert(count_ok(m.locations, m.aliases, m.refcounts, x));
            assert(r.refcounts.contains_key(x) == m.refcounts.contains_key(x));
            if m.refcounts.contains_key(x) {
                assert(r.refcounts[x] == m.refcounts[x]);
            }
        }
    }
}

/// Replacing what `path` holds with `e`, a fresh etag, then removing what was
/// there, leaves every count right.
proof fn lemma_placed_counted(m: ObjModel, x: ObjModel, path: Seq<char>, size: i64)
    requires
        objects_wf(m),
        m.next_etag < u64::MAX,
        x.locations == m.locations.insert(path, (m.next_etag, size)),
        x.aliases == m.aliases,
        x.refcounts == m.refcounts,
        x.next_etag == m.next_etag + 1,
    ensures
        shares_counted(dropped_prev(m, x, path)),
{
    let e = m.next_etag;
    assert(data_of(m.aliases, e) == e);
    assert forall|p: Seq<char>| #[trigger] m.locations.contains_key(p) implies data_of(m.aliases, m.locations[p].0) != e by {
        if m.aliases.contains_key(m.locations[p].0) {
            assert(m.aliases[m.locations[p].0] < e);
        }
    }
    assert(holders(m.locations, m.aliases, e) =~= Set::<Seq<char>>::empty());
    assert(count_ok(m.locations, m.aliases, m.refcounts, e));
    assert(!m.refcounts.contains_key(e));
    assert forall|a: u64| #[trigger] x.aliases.contains_key(a) implies x.aliases[a] < x.next_etag by {
        assert(m.aliases[a] < m.next_etag);
    }
    assert(uploads_unshared(x.locations, x.aliases)) by {
        assert forall|p: Seq<char>| #[trigger] x.locations.contains_key(p) && x.locations[p].1 < 0 implies !x.aliases.contains_key(
            x.locations[p].0,
        ) by {
            if p != path {
                assert(m.locations.contains_key(p));
            }
        }
        assert forall|p: Seq<char>, q: Seq<char>|
            #![trigger x.locations[p], x.locations[q]]
            x.locations.contains_key(p) && x.locations[p].1 < 0 && x.locations.contains_key(q) && q != p implies data_of(
            x.aliases,
            x.locations[q].0,
        ) != x.locations[p].0 by {
            if p == path {
                assert(m.locations.contains_key(q));
            } else if q == path {
                assert(m.locations.contains_key(p));
                assert(m.locations[p].0 < e);
            } else {
                assert(m.locations[p] == x.locations[p] && m.locations[q] == x.locations[q]);
            }
        }
    }
    if m.locations.contains_key(path) {
        let (pe, ps) = m.locations[path];
        let pd = data_of(m.aliases, pe);
        lemma_holder(m.locations, m.aliases, path);
        assert forall|y: u64| y != pd implies #[trigger] count_ok(x.locations, x.aliases, x.refcounts, y) by {
            lemma_holders_insert(m.locations, m.aliases, path, (e, size), y);
            lemma_holders_finite(m.locations, m.aliases, y);
            assert(count_ok(m.locations, m.aliases, m.refcounts, y));
            if y != e {
                assert(!holders(m.locations, m.aliases, y).contains(path));
                assert(holders(m.locations, m.aliases, y).remove(path) =~= holders(m.locations, m.aliases, y));
            } else {
                assert(holders(x.locations, x.aliases, e) =~= set![path]);
            }
        }
        assert(count_short(x.locations, x.aliases, x.refcounts, pd)) by {
            lemma_holders_insert(m.locations, m.aliases, path, (e, size), pd);
            lemma_holders_finite(m.locations, m.aliases, pd);
            assert(count_ok(m.locations, m.aliases, m.refcounts, pd));
        }
        assert forall|q: Seq<char>| #[trigger] x.locations.contains_key(q) implies x.locations[q].0 != pe by {
            if q != path {
                assert(m.locations.contains_key(q) && m.locations.contains_key(path));
                assert(m.locations[q].0 != m.locations[path].0);
            }
        }
        assert(x.locations.dom() =~= m.locations.dom().insert(path));
        lemma_removed_counted(x, pe, ps);
    } else {
        assert forall|y: u64| #[trigger] count_ok(x.locations, x.aliases, x.refcounts, y) by {
            lemma_holders_insert(m.locations, m.aliases, path, (e, size), y);
            lemma_holders_finite(m.locations, m.aliases, y);
            assert(count_ok(m.locations, m.aliases, m.refcounts, y));
            if y != e {
                assert(holders(m.locations, m.aliases, y).remove(path) =~= holders(m.locations, m.aliases, y));
            } else {
                assert(holders(x.locations, x.aliases, e) =~= set![path]);
            }
        }
        assert(x.locations.dom() =~= m.locations.dom().insert(path));
    }
}

/// A new size for what `path` holds, under the same etag, leaves every count right.
proof fn lemma_resized_counted(m: ObjModel, x: ObjModel, path: Seq<char>, size: i64)
    requires
        shares_counted(m),
        m.locations.contains_key(path),
        size < 0 ==> m.locations[path].1 < 0,
        x.locations == m.locations.insert(path, (m.locations[path].0, size)),
        x.aliases == m.aliases,
        x.refcounts == m.refcounts,
        x.next_etag == m.next_etag,
    ensures
        shares_counted(x),
{
    let e = m.locations[path].0;
    lemma_holder(m.locations, m.aliases, path);
    assert forall|y: u64| #[trigger] count_ok(x.locations, x.aliases, x.refcounts, y) by {
        lemma_holders_insert(m.locations, m.aliases, path, (e, size), y);
        assert(count_ok(m.locations, m.aliases, m.refcounts, y));
        if data_of(m.aliases, e) == y {
            assert(holders(m.locations, m.aliases, y).insert(path) =~= holders(m.locations, m.aliases, y));
        } else {
            assert(holders(m.locations, m.aliases, y).remove(path) =~= holders(m.locations, m.aliases, y));
        }
    }
    assert(x.locations.dom() =~= m.locations.dom());
    assert forall|p: Seq<char>, q: Seq<char>|
        #![trigger x.locations[p], x.locations[q]]
        x.locations.contains_key(p) && x.locations[p].1 < 0 && x.locations.contains_key(q) && q != p implies data_of(
        x.aliases,
        x.locations[q].0,
    ) != x.locations[p].0 by {
        assert(m.locations.contains_key(p) && m.locations.contains_key(q));
        assert(m.locations[p].0 == x.locations[p].0 && m.locations[q].0 == x.locations[q].0);
    }
    assert forall|p: Seq<char>| #[trigger] x.locations.contains_key(p) && x.locations[p].1 < 0 implies !x.aliases.contains_key(
        x.locations[p].0,
    ) by {
        assert(m.locations.contains_key(p));
    }
}

/// Deleting what `path` holds leaves every count right.
proof fn lemma_deleted_counted(m: ObjModel, path: Seq<char>)
    requires
        objects_wf(m),
        m.locations.contains_key(path),
    ensures
        shares_counted(removed_object(unlocated(m, path), m.locations[path].0, m.locations[path].1)),
{
    let x = unlocated(m, path);
    let (e, s) = m.locations[path];
    let d = data_of(m.aliases, e);
    lemma_holder(m.locations, m.aliases, path);
    assert forall|y: u64| y != d implies #[trigger] count_ok(x.locations, x.aliases, x.refcounts, y) by {
        lemma_holders_remove(m.locations, m.aliases, path, y);
        assert(count_ok(m.locations, m.aliases, m.refcounts, y));
        assert(holders(m.locations, m.aliases, y).remove(path) =~= holders(m.locations, m.aliases, y));
    }
    assert(count_short(x.locations, x.aliases, x.refcounts, d)) by {
        lemma_holders_remove(m.locations, m.aliases, path, d);
        lemma_holders_finite(m.locations, m.aliases, d);
        assert(count_ok(m.locations, m.aliases, m.refcounts, d));
    }
    assert forall|q: Seq<char>| #[trigger] x.locations.contains_key(q) implies x.locations[q].0 != e by {
        assert(m.locations.contains_key(q) && m.locations.contains_key(path));
        assert(m.locations[q].0 != m.locations[path].0);
    }
    assert(x.locations.dom() =~= m.locations.dom().remove(path));
    assert(uploads_unshared(x.locations, x.aliases)) by {
        assert forall|p: Seq<char>, q: Seq<char>|
            #![trigger x.locations[p], x.locations[q]]
            x.locations.contains_key(p) && x.locations[p].1 < 0 && x.locations.contains_key(q) && q != p implies data_of(
            x.aliases,
            x.locations[q].0,
        ) != x.locations[p].0 by {
            assert(m.locations[p] == x.locations[p] && m.locations[q] == x.locations[q]);
        }
    }
    lemma_removed_counted(x, e, s);
}

/// A copy from `from` to `to` leaves every count right: the copy is one more
/// reader of the source's data, and what `to` held is removed.
proof fn lemma_copied_counted(m: ObjModel, from: Seq<char>, to: Seq<char>)
    requires
        objects_wf(m),
        from != to,
        m.locations.contains_key(from),
        m.locations[from].1 >= 0,
        m.next_etag < u64::MAX,
        ({
            let d = data_etag_of(m, m.locations[from].0);
            (if m.refcounts.contains_key(d) { m.refcounts[d] as int } else { 1 }) < u64::MAX
        }),
    ensures
        shares_counted(copied(m, from, to)),
{
    let (se, sz) = m.locations[from];
    let e = m.next_etag;
    let d = data_etag_of(m, se);
    let refs: int = if m.refcounts.contains_key(d) { m.refcounts[d] as int } else { 1 };
    let m1 = ObjModel { refcounts: m.refcounts.insert(d, (refs + 1) as u64), ..bumped(m) };
    let m2 = located(m1, to, e, sz);
    let m3 = ObjModel { aliases: m2.aliases.insert(e, d), ..m2 };
    let x = described(m3, e, m.meta[se]);
    let al2 = m.aliases.insert(e, d);
    assert(!m.aliases.contains_key(e));
    if m.aliases.contains_key(se) {
        assert(m.aliases[se] < e);
    }
    assert(d < e);
    assert forall|p: Seq<char>| #[trigger] m.locations.contains_key(p) implies data_of(al2, m.locations[p].0) == data_of(
        m.aliases,
        m.locations[p].0,
    ) by {
        assert(m.locations[p].0 < e);
    }
    lemma_holder(m.locations, m.aliases, from);
    assert(holders(m.locations, m.aliases, d).len() == refs) by {
        lemma_holders_finite(m.locations, m.aliases, d);
        assert(count_ok(m.locations, m.aliases, m.refcounts, d));
        if !m.refcounts.contains_key(d) {
            assert(holders(m.locations, m.aliases, d).len() > 0);
        }
    }
    assert forall|y: u64| #[trigger] holders(x.locations, x.aliases, y) == (if d == y {
        holders(m.locations, m.aliases, y).insert(to)
    } else {
        holders(m.locations, m.aliases, y).remove(to)
    }) by {
        lemma_holders_alias(m.locations, m.aliases, al2, y);
        lemma_holders_insert(m.locations, al2, to, (e, sz), y);
    }
    assert forall|a: u64| #[trigger] x.aliases.contains_key(a) implies x.aliases[a] < x.next_etag by {
        if a != e {
            assert(m.aliases[a] < m.next_etag);
        }
    }
    assert(x.locations.dom() =~= m.locations.dom().insert(to));
    assert(uploads_unshared(x.locations, x.aliases)) by {
        assert forall|p: Seq<char>| #[trigger] x.locations.contains_key(p) && x.locations[p].1 < 0 implies !x.aliases.contains_key(
            x.locations[p].0,
        ) by {
            assert(p != to);
            assert(m.locations.contains_key(p));
            assert(m.locations[p].0 < e);
        }
        assert forall|p: Seq<char>, q: Seq<char>|
            #![trigger x.locations[p], x.locations[q]]
            x.locations.contains_key(p) && x.locations[p].1 < 0 && x.locations.contains_key(q) && q != p implies data_of(
            x.aliases,
            x.locations[q].0,
        ) != x.locations[p].0 by {
            assert(p != to && m.locations.contains_key(p) && m.locations[p] == x.locations[p]);
            if q == to {
                assert(m.locations[from] == m.locations[from]);
                assert(p != from);
                assert(data_of(m.aliases, m.locations[from].0) != m.locations[p].0);
            } else {
                assert(m.locations.contains_key(q) && m.locations[q] == x.locations[q]);
                assert(data_of(al2, m.locations[q].0) == data_of(m.aliases, m.locations[q].0));
            }
        }
    }
    if m.locations.contains_key(to) {
        let (pe, ps) = m.locations[to];
        let pd = data_of(m.aliases, pe);
        lemma_holder(m.locations, m.aliases, to);
        assert(pe < e);
        assert(data_etag_of(x, pe) == pd);
        assert forall|y: u64| y != pd implies #[trigger] count_ok(x.locations, x.aliases, x.refcounts, y) by {
            lemma_holders_finite(m.locations, m.aliases, y);
            assert(count_ok(m.locations, m.aliases, m.refcounts, y));
            assert(!holders(m.locations, m.aliases, y).contains(to));
            if y != d {
                assert(holders(m.locations, m.aliases, y).remove(to) =~= holders(m.locations, m.aliases, y));
            }
        }
        assert(count_short(x.locations, x.aliases, x.refcounts, pd)) by {
            lemma_holders_finite(m.locations, m.aliases, pd);
            assert(count_ok(m.locations, m.aliases, m.refcounts, pd));
            if pd == d {
                assert(holders(m.locations, m.aliases, d).insert(to) =~= holders(m.locations, m.aliases, d));
            }
        }
        assert forall|q: Seq<char>| #[trigger] x.locations.contains_key(q) implies x.locations[q].0 != pe by {
            if q != to {
                assert(m.locations.contains_key(q) && m.locations.contains_key(to));
                assert(m.locations[q].0 != m.locations[to].0);
            }
        }
        lemma_removed_counted(x, pe, ps);
    } else {
        assert forall|y: u64| #[trigger] count_ok(x.locations, x.aliases, x.refcounts, y) by {
            lemma_holders_finite(m.locations, m.aliases, y);
            assert(count_ok(m.locations, m.aliases, m.refcounts, y));
            if y != d {
                assert(holders(m.locations, m.aliases, y).remove(to) =~= holders(m.locations, m.aliases, y));
            }
        }
    }
}

/// A move from `from` to `to` leaves every count right: the reader moves,
/// and what `to` held is removed.
proof fn lemma_renamed_counted(m: ObjModel, from: Seq<char>, to: Seq<char>)
    requires
        objects_wf(m),
        from != to,
        m.locations.contains_key(from),
        m.locations[from].1 >= 0,
    ensures
        shares_counted(renamed(m, from, to)),
{
    let (fe, fs) = m.locations[from];
    let fd = data_of(m.aliases, fe);
    let x1 = unlocated(m, from);
    let x2 = located(x1, to, fe, fs);
    lemma_holder(m.locations, m.aliases, from);
    assert forall|y: u64| #[trigger] holders(x2.locations, x2.aliases, y) == (if fd == y {
        holders(m.locations, m.aliases, y).remove(from).insert(to)
    } else {
        holders(m.locations, m.aliases, y).remove(from).remove(to)
    }) by {
        lemma_holders_remove(m.locations, m.aliases, from, y);
        lemma_holders_insert(x1.locations, m.aliases, to, (fe, fs), y);
    }
    assert(x2.locations.dom() =~= m.locations.dom().remove(from).insert(to));
    assert(uploads_unshared(x2.locations, x2.aliases)) by {
        assert forall|p: Seq<char>| #[trigger] x2.locations.contains_key(p) && x2.locations[p].1 < 0 implies !x2.aliases.contains_key(
            x2.locations[p].0,
        ) by {
            assert(p != to && p != from);
            assert(m.locations.contains_key(p));
        }
        assert forall|p: Seq<char>, q: Seq<char>|
            #![trigger x2.locations[p], x2.locations[q]]
            x2.locations.contains_key(p) && x2.locations[p].1 < 0 && x2.locations.contains_key(q) && q != p implies data_of(
            x2.aliases,
            x2.locations[q].0,
        ) != x2.locations[p].0 by {
            assert(p != to && p != from && m.locations.contains_key(p) && m.locations[p] == x2.locations[p]);
            if q == to {
                assert(data_of(m.aliases, m.locations[from].0) != m.locations[p].0);
            } else {
                assert(m.locations.contains_key(q) && m.locations[q] == x2.locations[q]);
            }
        }
    }
    if m.locations.contains_key(to) {
        let (pe, ps) = m.locations[to];
        let pd = data_of(m.aliases, pe);
        lemma_holder(m.locations, m.aliases, to);
        assert forall|y: u64| y != pd implies #[trigger] count_ok(x2.locations, x2.aliases, x2.refcounts, y) by {
            lemma_holders_finite(m.locations, m.aliases, y);
            assert(count_ok(m.locations, m.aliases, m.refcounts, y));
            assert(!holders(m.locations, m.aliases, y).contains(to));
            if y == fd {
                assert(holders(m.locations, m.aliases, y).remove(from).insert(to).len() == holders(
                    m.locations,
                    m.aliases,
                    y,
                ).len());
            } else {
                assert(holders(m.locations, m.aliases, y).remove(from).remove(to) =~= holders(m.locations, m.aliases, y));
            }
        }
        assert(count_short(x2.locations, x2.aliases, x2.refcounts, pd)) by {
            lemma_holders_finite(m.locations, m.aliases, pd);
            assert(count_ok(m.locations, m.aliases, m.refcounts, pd));
            if pd == fd {
                assert(holders(m.locations, m.aliases, pd).remove(from).insert(to) =~= holders(m.locations, m.aliases, pd).remove(
                    from,
                ));
            } else {
                assert(holders(m.locations, m.aliases, pd).remove(from) =~= holders(m.locations, m.aliases, pd));
            }
        }
        assert forall|q: Seq<char>| #[trigger] x2.locations.contains_key(q) implies x2.locations[q].0 != pe by {
            assert(m.locations.contains_key(to));
            if q != to {
                assert(m.locations.contains_key(q));
                assert(m.locations[q].0 != m.locations[to].0);
            } else {
                assert(m.locations[from].0 != m.locations[to].0);
            }
        }
        lemma_removed_counted(x2, pe, ps);
    } else {
        assert forall|y: u64| #[trigger] count_ok(x2.locations, x2.aliases, x2.refcounts, y) by {
            lemma_holders_finite(m.locations, m.aliases, y);
            assert(count_ok(m.locations, m.aliases, m.refcounts, y));
            if y == fd {
                assert(holders(m.locations, m.aliases, y).remove(from).insert(to).len() == holders(
                    m.locations,
                    m.aliases,
                    y,
                ).len());
            } else {
                assert(holders(m.locations, m.aliases, y).remove(from).remove(to) =~= holders(m.locations, m.aliases, y));
            }
        }
    }
}

impl ObjectStore {
    /// Replaces the object at `path` with `etag` and `size`; returns what was there.
    fn place(&mut self, path: String, etag: u64, size: i64) -> (r: Option<(u64, i64)>)
        ensures
            final(self)@ == located(old(self)@, path@, etag, size),
            match r {
                Some(v) => old(self)@.locations.contains_key(path@) && old(self)@.locations[path@] == v,
                None => !old(self)@.locations.contains_key(path@),
            },
    {
        self.locations.insert(path, etag, size)
    }

    /// Puts the bytes `payload` at `path` at `now_ms`, as `opts` says.
    pub fn put_opts(&mut self, path: String, payload: Vec<u8>, opts: PutOptions, now_ms: u64) -> (r: Result<PutResult, Error>)
        requires
            objects_wf(old(self)@),
            payload@.len() < 0x1_0000_0000 * CHUNK_SIZE,
        ensures
            objects_wf(final(self)@),
            ({
                let m = old(self)@;
                let len = payload@.len();
                match put_error(m, path@, len, opts) {
                    Some(e) => r matches Err(x) && x@ == e && final(self)@ == m,
                    None => if m.next_etag == u64::MAX {
                        r matches Err(x) && x@ == ErrorModel::Generic { error: "object etag space exhausted"@ }
                            && final(self)@ == m
                    } else {
                        r matches Ok(res) && opt_view(res.e_tag) == Some(decimal(m.next_etag as nat)) && opt_view(res.version)
                            == put_version(opts) && final(self)@ == put_state(
                            m,
                            path@,
                            payload@,
                            put_meta(opts, len, now_ms, put_version(opts)),
                        )
                    },
                }
            }),
    {
        let ghost m = self@;
        let len = payload.len();
        let parts: usize = if len == 0 { 0 } else { (len - 1) / (CHUNK_SIZE as usize) + 1 };
        assert(parts == parts_for(len as nat)) by {
            if len > 0 {
                assert((len + CHUNK_SIZE - 1) / (CHUNK_SIZE as int) == (len - 1) / (CHUNK_SIZE as int) + 1) by (nonlinear_arith)
                    requires
                        len > 0,
                ;
            }
        }
        if let Some(tags) = &opts.aes_tags {
            if tags.len() != parts {
                let mut e = owned("aes_tags size ");
                push_decimal(&mut e, tags.len() as u64);
                push_str(&mut e, " does not match parts ");
                push_decimal(&mut e, parts as u64);
                return Err(Error::Precondition { path, error: e });
            }
        }
        let mut version: Option<String> = None;
        match &opts.mode {
            PutMode::Overwrite => {},
            PutMode::Create => {
                if self.locations.get(&path).is_some() {
                    return Err(Error::AlreadyExists { path });
                }
            },
            PutMode::Update(v) => {
                match self.locations.get(&path) {
                    None => {
                        return Err(Error::Precondition { path, error: owned("NotFound: object not found") });
                    },
                    Some((prev_etag, prev_size)) => {
                        if prev_size < 0 {
                            return Err(Error::Precondition { path, error: owned("upload not completed") });
                        }
                        let expected = match &v.e_tag {
                            None => {
                                return Err(Error::Precondition { path, error: owned("e_tag required for conditional update") });
                            },
                            Some(x) => x,
                        };
                        if !etag_matches(expected.as_str(), prev_etag) {
                            let mut e = decimal_string(prev_etag);
                            push_str(&mut e, " does not match ");
                            push_str(&mut e, expected.as_str());
                            return Err(Error::Precondition { path, error: e });
                        }
                        version = copy_opt(&v.version);
                    },
                }
            },
        }
        assert(opt_view(version) == put_version(opts));
        let etag = self.next_etag()?;
        let meta = ObjectMetadata {
            last_modified: now_ms,
            size: len as u64,
            tags: opts.tags,
            attributes: opts.attributes,
            version: copy_opt(&version),
            aes_nonce: opts.aes_nonce,
            aes_tags: opts.aes_tags,
        };
        let ghost mm = meta@;
        assert(mm == put_meta(opts, len as nat, now_ms, put_version(opts)));
        let prev = self.place(path, etag, len as i64);
        let ghost m1 = self@;
        self.meta.insert(etag, meta);
        let ghost m2 = self@;
        assert(m2.meta =~= m1.meta.insert(etag, mm));
        assert(m2 =~= described(m1, etag, mm));
        proof {
            assert(shape_wf(m2)) by {
                assert forall|p: Seq<char>, q: Seq<char>|
                    #![trigger m2.locations[p], m2.locations[q]]
                    m2.locations.contains_key(p) && m2.locations.contains_key(q) && p != q implies m2.locations[p].0
                        != m2.locations[q].0 by {
                    if p != path@ && q != path@ {
                        assert(m.locations[p] == m2.locations[p] && m.locations[q] == m2.locations[q]);
                    } else if p == path@ {
                        assert(m.locations.contains_key(q));
                    } else {
                        assert(m.locations.contains_key(p));
                    }
                }
                assert forall|p: Seq<char>| #[trigger] m2.locations.contains_key(p) && m2.locations[p].1 >= 0 implies m2.meta.contains_key(
                    m2.locations[p].0,
                ) by {
                    if p != path@ {
                        assert(m.locations.contains_key(p));
                    }
                }
                assert forall|p: Seq<char>| #[trigger] m2.locations.contains_key(p) implies m2.locations[p].0 < m2.next_etag by {
                    if p != path@ {
                        assert(m.locations.contains_key(p));
                    }
                }
                assert forall|p: Seq<char>| #[trigger] m2.locations.contains_key(p) && m2.locations[p].1 < 0 implies parts_of(
                    m2.locations[p].1,
                ) <= MAX_PARTS by {
                    if p != path@ {
                        assert(m.locations.contains_key(p));
                    }
                }
            }
        }
        match prev {
            Some((prev_etag, prev_size)) => {
                proof {
                    assert forall|p: Seq<char>| #[trigger] m2.locations.contains_key(p) implies m2.locations[p].0 != prev_etag by {
                        if p != path@ {
                            assert(m.locations.contains_key(p) && m.locations.contains_key(path@));
                            assert(m.locations[p].0 != m.locations[path@].0);
                        }
                    }
                    lemma_removed_wf(m2, prev_etag, prev_size);
                }
                self.remove_object(prev_etag, prev_size);
            },
            None => {},
        }
        let ghost m3 = self@;
        assert(m3 == dropped_prev(m, described(located(bumped(m), path@, etag, len as i64), etag, mm), path@));
        self.put_object_data(etag, payload);
        proof {
            lemma_filled_wf(m3, etag, payload@);
            lemma_placed_counted(m, described(located(bumped(m), path@, etag, len as i64), etag, mm), path@, len as i64);
        }
        Ok(UpdateVersion { e_tag: Some(decimal_string(etag)), version })
    }
}


/// The store without the object at `path`.
pub open spec fn unlocated(m: ObjModel, path: Seq<char>) -> ObjModel {
    ObjModel { locations: m.locations.remove(path), ..m }
}

/// Why a copy or a rename from `from` to `to` is refused, if it is.
pub open spec fn move_error(m: ObjModel, from: Seq<char>, to: Seq<char>, overwrite: bool) -> Option<ErrorModel> {
    if from == to {
        Some(ErrorModel::Precondition { path: from, error: "location 'to' is equal to 'from'"@ })
    } else if !m.locations.contains_key(from) {
        Some(ErrorModel::NotFound { path: from })
    } else if m.locations[from].1 < 0 {
        Some(ErrorModel::Precondition { path: from, error: "upload not completed"@ })
    } else if !overwrite && m.locations.contains_key(to) {
        Some(ErrorModel::AlreadyExists { path: to })
    } else {
        None
    }
}

/// The store after copying the object at `from` to `to`: the copy gets the
/// next etag, shares the data and takes the description.
pub open spec fn copied(m: ObjModel, from: Seq<char>, to: Seq<char>) -> ObjModel {
    let (se, sz) = m.locations[from];
    let e = m.next_etag;
    let d = data_etag_of(m, se);
    let refs: int = if m.refcounts.contains_key(d) { m.refcounts[d] as int } else { 1 };
    let m1 = ObjModel { refcounts: m.refcounts.insert(d, (refs + 1) as u64), ..bumped(m) };
    let m2 = located(m1, to, e, sz);
    let m3 = ObjModel { aliases: m2.aliases.insert(e, d), ..m2 };
    let m4 = described(m3, e, m.meta[se]);
    dropped_prev(m, m4, to)
}

/// The store after moving the object at `from` to `to`.
pub open spec fn renamed(m: ObjModel, from: Seq<char>, to: Seq<char>) -> ObjModel {
    let m1 = unlocated(m, from);
    let m2 = located(m1, to, m.locations[from].0, m.locations[from].1);
    dropped_prev(m1, m2, to)
}

/// The state of a new multipart upload.
pub open spec fn empty_upload() -> UploadModel {
    UploadModel { present: Set::empty(), short: Map::empty() }
}

/// Why an operation on the upload `id` at `path` is refused, if it is.
pub open spec fn upload_error(m: ObjModel, path: Seq<char>, id: Seq<char>) -> Option<ErrorModel> {
    if !m.locations.contains_key(path) {
        Some(ErrorModel::NotFound { path })
    } else if id != decimal(m.locations[path].0 as nat) {
        Some(ErrorModel::Precondition { path, error: "NotFound: upload not found"@ })
    } else if m.locations[path].1 >= 0 {
        Some(ErrorModel::Precondition { path, error: "upload already completed"@ })
    } else {
        None
    }
}

/// The message for a part index beyond the last.
pub open spec fn part_index_error(idx: nat) -> Seq<char> {
    "part index "@ + decimal(idx) + " exceeds max index "@ + decimal((MAX_PARTS - 1) as nat)
}

/// Why a part is refused before the upload is looked at, if it is.
pub open spec fn part_error(path: Seq<char>, part_idx: u32, len: nat) -> Option<ErrorModel> {
    if part_idx >= MAX_PARTS {
        Some(ErrorModel::Precondition { path, error: part_index_error(part_idx as nat) })
    } else if len == 0 || len > CHUNK_SIZE {
        Some(
            ErrorModel::Precondition {
                path,
                error: "part size "@ + decimal(len) + " is outside the allowed range 1..="@ + decimal(
                    CHUNK_SIZE as nat,
                ),
            },
        )
    } else {
        None
    }
}

/// The store after part `idx` with bytes `p` arrives for the upload at `path`.
pub open spec fn with_part(m: ObjModel, path: Seq<char>, idx: u32, p: Seq<u8>) -> ObjModel {
    let (etag, size) = m.locations[path];
    let iparts: int = -2 - idx;
    let m1 = located(m, path, etag, if size > iparts { iparts as i64 } else { size });
    let m2 = if m1.uploads.contains_key(etag) {
        let u = m1.uploads[etag];
        ObjModel {
            uploads: m1.uploads.insert(
                etag,
                UploadModel {
                    present: u.present.insert(idx),
                    short: if p.len() == CHUNK_SIZE { u.short.remove(idx) } else { u.short.insert(idx, p.len() as u32) },
                },
            ),
            ..m1
        }
    } else {
        m1
    };
    ObjModel { data: m2.data.insert(part_key(etag, idx), p), ..m2 }
}

/// The size of the upload at `path` once complete, or why it cannot complete.
pub open spec fn completion(m: ObjModel, path: Seq<char>) -> Result<nat, Seq<char>> {
    let (etag, size) = m.locations[path];
    let parts = (-1 - size) as u32;
    if m.uploads.contains_key(etag) {
        completed_size_of(m.uploads[etag], parts)
    } else {
        legacy_size(m.data, etag, parts, parts as nat)
    }
}

impl ObjectStore {
    /// Checks that the upload `id` at `path` is in flight; gives its etag and size.
    fn upload_at(&self, path: &String, id: &str) -> (r: Result<(u64, i64), Error>)
        ensures
            match upload_error(self@, path@, id@) {
                Some(e) => r matches Err(x) && x@ == e,
                None => r == Ok::<(u64, i64), Error>(self@.locations[path@]),
            },
    {
        match self.locations.get(path) {
            None => Err(Error::NotFound { path: path.clone() }),
            Some((etag, size)) => {
                if !etag_matches(id, etag) {
                    return Err(Error::Precondition { path: path.clone(), error: owned("NotFound: upload not found") });
                }
                if size >= 0 {
                    return Err(Error::Precondition { path: path.clone(), error: owned("upload already completed") });
                }
                Ok((etag, size))
            },
        }
    }

    /// Removes the object at `path`, if any.
    pub fn delete(&mut self, path: String) -> (r: Result<(), Error>)
        requires
            objects_wf(old(self)@),
        ensures
            objects_wf(final(self)@),
            r is Ok,
            old(self)@.locations.contains_key(path@) ==> final(self)@ == removed_object(
                unlocated(old(self)@, path@),
                old(self)@.locations[path@].0,
                old(self)@.locations[path@].1,
            ),
            !old(self)@.locations.contains_key(path@) ==> final(self)@ == old(self)@,
    {
        let ghost m = self@;
        let removed = self.locations.remove(&path);
        match removed {
            Some((etag, size)) => {
                proof {
                    let m1 = self@;
                    assert(m1 =~= unlocated(m, path@));
                    assert forall|p: Seq<char>| #[trigger] m1.locations.contains_key(p) implies m1.locations[p].0 != etag by {
                        assert(m.locations.contains_key(p) && m.locations.contains_key(path@));
                    }
                    assert(shape_wf(m1)) by {
                        assert forall|p: Seq<char>, q: Seq<char>|
                            #![trigger m1.locations[p], m1.locations[q]]
                            m1.locations.contains_key(p) && m1.locations.contains_key(q) && p != q implies m1.locations[p].0
                                != m1.locations[q].0 by {
                            assert(m.locations[p] == m1.locations[p] && m.locations[q] == m1.locations[q]);
                        }
                    }
                    lemma_removed_wf(m1, etag, size);
                    lemma_deleted_counted(m, path@);
                }
                self.remove_object(etag, size);
            },
            None => {
                assert(self@ =~= m);
            },
        }
        Ok(())
    }

    /// Copies the object at `from` to `to`, replacing what is there.
    pub fn copy(&mut self, from: String, to: String) -> (r: Result<(), Error>)
        requires
            objects_wf(old(self)@),
        ensures
            objects_wf(final(self)@),
            copy_outcome(old(self)@, from@, to@, true, r, final(self)@),
    {
        self.copy_impl(from, to, true)
    }

    /// Copies the object at `from` to `to`, unless an object is there.
    pub fn copy_if_not_exists(&mut self, from: String, to: String) -> (r: Result<(), Error>)
        requires
            objects_wf(old(self)@),
        ensures
            objects_wf(final(self)@),
            copy_outcome(old(self)@, from@, to@, false, r, final(self)@),
    {
        self.copy_impl(from, to, false)
    }

    /// Copies the object at `from` to `to`; the copy shares the data.
    pub fn copy_impl(&mut self, from: String, to: String, overwrite: bool) -> (r: Result<(), Error>)
        requires
            objects_wf(old(self)@),
        ensures
            objects_wf(final(self)@),
            copy_outcome(old(self)@, from@, to@, overwrite, r, final(self)@),
    {
        let ghost m = self@;
        if str_eq(from.as_str(), to.as_str()) {
            return Err(Error::Precondition { path: from, error: owned("location 'to' is equal to 'from'") });
        }
        let (source_etag, size) = match self.locations.get(&from) {
            None => {
                return Err(Error::NotFound { path: from });
            },
            Some((e, sz)) => {
                if sz < 0 {
                    return Err(Error::Precondition { path: from, error: owned("upload not completed") });
                }
                (e, sz)
            },
        };
        if !overwrite && self.locations.get(&to).is_some() {
            return Err(Error::AlreadyExists { path: to });
        }
        assert(m.meta.contains_key(source_etag));
        let metadata = match self.meta.get(&source_etag) {
            Some(md) => md.copy(),
            None => {
                return Err(Error::NotFound { path: from });
            },
        };
        let etag = self.next_etag()?;
        let data_etag = match self.retain_object_data(source_etag) {
            Ok(d) => d,
            Err(e) => {
                return Err(e);
            },
        };
        let ghost m1 = self@;
        let prev = self.place(to, etag, size);
        self.data_aliases.insert(etag, data_etag);
        self.meta.insert(etag, metadata);
        let ghost m4 = self@;
        proof {
            assert(m4.meta =~= m1.meta.insert(etag, m.meta[source_etag]));
            assert(m4 =~= described(
                ObjModel { aliases: located(m1, to@, etag, size).aliases.insert(etag, data_etag), ..located(m1, to@, etag, size) },
                etag,
                m.meta[source_etag],
            ));
            assert(shape_wf(m4)) by {
                assert forall|p: Seq<char>, q: Seq<char>|
                    #![trigger m4.locations[p], m4.locations[q]]
                    m4.locations.contains_key(p) && m4.locations.contains_key(q) && p != q implies m4.locations[p].0
                        != m4.locations[q].0 by {
                    if p != to@ && q != to@ {
                        assert(m.locations[p] == m4.locations[p] && m.locations[q] == m4.locations[q]);
                    } else if p == to@ {
                        assert(m.locations.contains_key(q));
                    } else {
                        assert(m.locations.contains_key(p));
                    }
                }
                assert forall|p: Seq<char>| #[trigger] m4.locations.contains_key(p) && m4.locations[p].1 >= 0 implies m4.meta.contains_key(
                    m4.locations[p].0,
                ) by {
                    if p != to@ {
                        assert(m.locations.contains_key(p));
                    }
                }
                assert forall|p: Seq<char>| #[trigger] m4.locations.contains_key(p) implies m4.locations[p].0 < m4.next_etag by {
                    if p != to@ {
                        assert(m.locations.contains_key(p));
                    }
                }
                assert forall|p: Seq<char>| #[trigger] m4.locations.contains_key(p) && m4.locations[p].1 < 0 implies parts_of(
                    m4.locations[p].1,
                ) <= MAX_PARTS by {
                    if p != to@ {
                        assert(m.locations.contains_key(p));
                    }
                }
            }
        }
        match prev {
            Some((prev_etag, prev_size)) => {
                proof {
                    assert forall|p: Seq<char>| #[trigger] m4.locations.contains_key(p) implies m4.locations[p].0 != prev_etag by {
                        if p != to@ {
                            assert(m.locations.contains_key(p) && m.locations.contains_key(to@));
                            assert(m.locations[p].0 != m.locations[to@].0);
                        }
                    }
                    lemma_removed_wf(m4, prev_etag, prev_size);
                }
                self.remove_object(prev_etag, prev_size);
            },
            None => {},
        }
        proof {
            lemma_copied_counted(m, from@, to@);
        }
        Ok(())
    }
}

/// What a copy from `from` to `to` gives: its refusal with the store unchanged,
/// the refusals of taking an etag or counting the shared data, or the copy.
pub open spec fn copy_outcome(m: ObjModel, from: Seq<char>, to: Seq<char>, overwrite: bool, r: Result<(), Error>, f: ObjModel) -> bool {
    match move_error(m, from, to, overwrite) {
        Some(e) => r matches Err(x) && x@ == e && f == m,
        None => {
            let d = data_etag_of(m, m.locations[from].0);
            let refs: int = if m.refcounts.contains_key(d) { m.refcounts[d] as int } else { 1 };
            if m.next_etag == u64::MAX {
                r matches Err(x) && x@ == ErrorModel::Generic { error: "object etag space exhausted"@ } && f == m
            } else if refs == u64::MAX {
                r matches Err(x) && x@ == ErrorModel::Generic { error: "object data reference count exhausted"@ } && f
                    == bumped(m)
            } else {
                r is Ok && f == copied(m, from, to)
            }
        },
    }
}


/// What a rename from `from` to `to` gives.
pub open spec fn rename_outcome(m: ObjModel, from: Seq<char>, to: Seq<char>, overwrite: bool, r: Result<(), Error>, f: ObjModel) -> bool {
    match move_error(m, from, to, overwrite) {
        Some(e) => r matches Err(x) && x@ == e && f == m,
        None => r is Ok && f == renamed(m, from, to),
    }
}

/// The description of an upload completed at `now` with `size` bytes.
pub open spec fn completed_meta(o: PutMultipartOptions, size: nat, now: u64) -> MetaModel {
    MetaModel {
        last_modified: now,
        size: size as u64,
        tags: o.tags@,
        attributes: attributes_view(o.attributes@),
        version: None,
        aes_nonce: nonce_view(o.aes_nonce),
        aes_tags: tags_view(o.aes_tags),
    }
}

impl ObjectStore {
    /// Moves the object at `from` to `to`, replacing what is there.
    pub fn rename(&mut self, from: String, to: String) -> (r: Result<(), Error>)
        requires
            objects_wf(old(self)@),
        ensures
            objects_wf(final(self)@),
            rename_outcome(old(self)@, from@, to@, true, r, final(self)@),
    {
        self.rename_impl(from, to, true)
    }

    /// Moves the object at `from` to `to`, unless an object is there.
    pub fn rename_if_not_exists(&mut self, from: String, to: String) -> (r: Result<(), Error>)
        requires
            objects_wf(old(self)@),
        ensures
            objects_wf(final(self)@),
            rename_outcome(old(self)@, from@, to@, false, r, final(self)@),
    {
        self.rename_impl(from, to, false)
    }

    /// Moves the object at `from` to `to`.
    pub fn rename_impl(&mut self, from: String, to: String, overwrite: bool) -> (r: Result<(), Error>)
        requires
            objects_wf(old(self)@),
        ensures
            objects_wf(final(self)@),
            rename_outcome(old(self)@, from@, to@, overwrite, r, final(self)@),
    {
        let ghost m = self@;
        if str_eq(from.as_str(), to.as_str()) {
            return Err(Error::Precondition { path: from, error: owned("location 'to' is equal to 'from'") });
        }
        let (etag, size) = match self.locations.get(&from) {
            None => {
                return Err(Error::NotFound { path: from });
            },
            Some((e, sz)) => {
                if sz < 0 {
                    return Err(Error::Precondition { path: from, error: owned("upload not completed") });
                }
                (e, sz)
            },
        };
        if !overwrite && self.locations.get(&to).is_some() {
            return Err(Error::AlreadyExists { path: to });
        }
        self.locations.remove(&from);
        let ghost m1 = self@;
        assert(m1 =~= unlocated(m, from@));
        let prev = self.place(to, etag, size);
        let ghost m2 = self@;
        proof {
            assert(shape_wf(m2)) by {
                assert forall|p: Seq<char>, q: Seq<char>|
                    #![trigger m2.locations[p], m2.locations[q]]
                    m2.locations.contains_key(p) && m2.locations.contains_key(q) && p != q implies m2.locations[p].0
                        != m2.locations[q].0 by {
                    if p != to@ && q != to@ {
                        assert(m.locations[p] == m2.locations[p] && m.locations[q] == m2.locations[q]);
                    } else if p == to@ {
                        assert(m.locations.contains_key(q));
                        assert(q != from@);
                    } else {
                        assert(m.locations.contains_key(p));
                        assert(p != from@);
                    }
                }
                assert forall|p: Seq<char>| #[trigger] m2.locations.contains_key(p) && m2.locations[p].1 >= 0 implies m2.meta.contains_key(
                    m2.locations[p].0,
                ) by {
                    if p != to@ {
                        assert(m.locations.contains_key(p));
                    } else {
                        assert(m.locations.contains_key(from@));
                    }
                }
                assert forall|p: Seq<char>| #[trigger] m2.locations.contains_key(p) implies m2.locations[p].0 < m2.next_etag by {
                    if p != to@ {
                        assert(m.locations.contains_key(p));
                    } else {
                        assert(m.locations.contains_key(from@));
                    }
                }
                assert forall|p: Seq<char>| #[trigger] m2.locations.contains_key(p) && m2.locations[p].1 < 0 implies parts_of(
                    m2.locations[p].1,
                ) <= MAX_PARTS by {
                    if p != to@ {
                        assert(m.locations.contains_key(p));
                    }
                }
            }
        }
        match prev {
            Some((prev_etag, prev_size)) => {
                proof {
                    assert forall|p: Seq<char>| #[trigger] m2.locations.contains_key(p) implies m2.locations[p].0 != prev_etag by {
                        assert(m.locations.contains_key(to@));
                        if p != to@ {
                            assert(m.locations.contains_key(p));
                            assert(m.locations[p].0 != m.locations[to@].0);
                        } else {
                            assert(m.locations[from@].0 != m.locations[to@].0);
                        }
                    }
                    lemma_removed_wf(m2, prev_etag, prev_size);
                }
                self.remove_object(prev_etag, prev_size);
            },
            None => {},
        }
        proof {
            lemma_renamed_counted(m, from@, to@);
        }
        Ok(())
    }

    /// Starts a multipart upload at `path`, replacing what is there; returns its id.
    pub fn create_multipart(&mut self, path: String) -> (r: Result<String, Error>)
        requires
            objects_wf(old(self)@),
        ensures
            objects_wf(final(self)@),
            ({
                let m = old(self)@;
                let e = m.next_etag;
                if e == u64::MAX {
                    r matches Err(x) && x@ == ErrorModel::Generic { error: "object etag space exhausted"@ } && final(self)@ == m
                } else {
                    let m2 = dropped_prev(m, located(bumped(m), path@, e, -1i64), path@);
                    r matches Ok(id) && id@ == decimal(e as nat) && final(self)@ == (ObjModel {
                        uploads: m2.uploads.insert(e, empty_upload()),
                        ..m2
                    })
                }
            }),
    {
        let ghost m = self@;
        let etag = self.next_etag()?;
        let prev = self.place(path, etag, -1);
        let ghost m1 = self@;
        proof {
            assert(shape_wf(m1)) by {
                assert forall|p: Seq<char>, q: Seq<char>|
                    #![trigger m1.locations[p], m1.locations[q]]
                    m1.locations.contains_key(p) && m1.locations.contains_key(q) && p != q implies m1.locations[p].0
                        != m1.locations[q].0 by {
                    if p != path@ && q != path@ {
                        assert(m.locations[p] == m1.locations[p] && m.locations[q] == m1.locations[q]);
                    } else if p == path@ {
                        assert(m.locations.contains_key(q));
                    } else {
                        assert(m.locations.contains_key(p));
                    }
                }
                assert forall|p: Seq<char>| #[trigger] m1.locations.contains_key(p) && m1.locations[p].1 >= 0 implies m1.meta.contains_key(
                    m1.locations[p].0,
                ) by {
                    if p != path@ {
                        assert(m.locations.contains_key(p));
                    }
                }
                assert forall|p: Seq<char>| #[trigger] m1.locations.contains_key(p) implies m1.locations[p].0 < m1.next_etag by {
                    if p != path@ {
                        assert(m.locations.contains_key(p));
                    }
                }
                assert forall|p: Seq<char>| #[trigger] m1.locations.contains_key(p) && m1.locations[p].1 < 0 implies parts_of(
                    m1.locations[p].1,
                ) <= MAX_PARTS by {
                    if p != path@ {
                        assert(m.locations.contains_key(p));
                    }
                }
            }
        }
        match prev {
            Some((prev_etag, prev_size)) => {
                proof {
                    assert forall|p: Seq<char>| #[trigger] m1.locations.contains_key(p) implies m1.locations[p].0 != prev_etag by {
                        if p != path@ {
                            assert(m.locations.contains_key(p) && m.locations.contains_key(path@));
                            assert(m.locations[p].0 != m.locations[path@].0);
                        }
                    }
                    lemma_removed_wf(m1, prev_etag, prev_size);
                }
                self.remove_object(prev_etag, prev_size);
            },
            None => {},
        }
        let ghost m2 = self@;
        self.multipart_uploads.insert(etag, MultipartUpload::new());
        assert(self@.uploads =~= m2.uploads.insert(etag, empty_upload()));
        proof {
            lemma_placed_counted(m, located(bumped(m), path@, etag, -1i64), path@, -1i64);
        }
        Ok(decimal_string(etag))
    }

    /// Stores part `part_idx` of the upload `id` at `path`.
    pub fn put_part(&mut self, path: String, id: String, part_idx: u32, payload: Vec<u8>) -> (r: Result<PartId, Error>)
        requires
            objects_wf(old(self)@),
        ensures
            objects_wf(final(self)@),
            ({
                let m = old(self)@;
                match part_error(path@, part_idx, payload@.len()) {
                    Some(e) => r matches Err(x) && x@ == e && final(self)@ == m,
                    None => match upload_error(m, path@, id@) {
                        Some(e) => r matches Err(x) && x@ == e && final(self)@ == m,
                        None => r matches Ok(pid) && pid.content_id@ == id@ + "-"@ + decimal(part_idx as nat)
                            && final(self)@ == with_part(m, path@, part_idx, payload@),
                    },
                }
            }),
    {
        let ghost m = self@;
        if part_idx as u64 >= MAX_PARTS {
            let mut e = owned("part index ");
            push_decimal(&mut e, part_idx as u64);
            push_str(&mut e, " exceeds max index ");
            push_decimal(&mut e, MAX_PARTS - 1);
            return Err(Error::Precondition { path, error: e });
        }
        if payload.len() == 0 || payload.len() as u64 > CHUNK_SIZE {
            let mut e = owned("part size ");
            push_decimal(&mut e, payload.len() as u64);
            push_str(&mut e, " is outside the allowed range 1..=");
            push_decimal(&mut e, CHUNK_SIZE);
            return Err(Error::Precondition { path, error: e });
        }
        let (etag, size) = self.upload_at(&path, id.as_str())?;
        let iparts: i64 = -2 - part_idx as i64;
        let new_size = if size > iparts { iparts } else { size };
        self.place(path, etag, new_size);
        let ghost m1 = self@;
        let len = payload.len() as u32;
        let mut up = self.multipart_uploads.remove(&etag);
        match up {
            Some(mut u) => {
                u.record(part_idx, len);
                self.multipart_uploads.insert(etag, u);
                assert(self@.uploads =~= m1.uploads.insert(
                    etag,
                    UploadModel {
                        present: m1.uploads[etag].present.insert(part_idx),
                        short: if payload@.len() == CHUNK_SIZE {
                            m1.uploads[etag].short.remove(part_idx)
                        } else {
                            m1.uploads[etag].short.insert(part_idx, payload@.len() as u32)
                        },
                    },
                ));
            },
            None => {
                assert(self@.uploads =~= m1.uploads);
            },
        }
        let ghost m2 = self@;
        let key = key_of(etag, part_idx);
        self.data.insert(key, Chunk(payload));
        assert(self@.data =~= m2.data.insert(part_key(etag, part_idx), payload@));
        proof {
            let f = self@;
            assert(shape_wf(f)) by {
                assert forall|p: Seq<char>, q: Seq<char>|
                    #![trigger f.locations[p], f.locations[q]]
                    f.locations.contains_key(p) && f.locations.contains_key(q) && p != q implies f.locations[p].0
                        != f.locations[q].0 by {
                    assert(m.locations.contains_key(p) && m.locations.contains_key(q));
                    assert(m.locations[p].0 == f.locations[p].0 && m.locations[q].0 == f.locations[q].0);
                }
                assert forall|p: Seq<char>| #[trigger] f.locations.contains_key(p) && f.locations[p].1 >= 0 implies f.meta.contains_key(
                    f.locations[p].0,
                ) by {
                    assert(m.locations.contains_key(p));
                }
                assert forall|p: Seq<char>| #[trigger] f.locations.contains_key(p) implies f.locations[p].0 < f.next_etag by {
                    assert(m.locations.contains_key(p));
                }
                assert forall|p: Seq<char>| #[trigger] f.locations.contains_key(p) && f.locations[p].1 < 0 implies parts_of(
                    f.locations[p].1,
                ) <= MAX_PARTS by {
                    assert(m.locations.contains_key(p));
                }
                assert forall|k: u128| #[trigger] f.data.contains_key(k) implies f.data[k].len() <= CHUNK_SIZE by {
                    if k != key {
                        assert(m.data.contains_key(k));
                    }
                }
            }
        }
        proof {
            lemma_resized_counted(m, self@, path@, new_size);
        }
        let mut content_id = id;
        push_str(&mut content_id, "-");
        push_decimal(&mut content_id, part_idx as u64);
        Ok(PartId { content_id })
    }

    /// Completes the upload `id` at `path` at `now_ms`, once its parts are all there.
    pub fn complete_multipart(&mut self, path: String, id: String, opts: PutMultipartOptions, now_ms: u64) -> (r: Result<PutResult, Error>)
        requires
            objects_wf(old(self)@),
        ensures
            objects_wf(final(self)@),
            ({
                let m = old(self)@;
                match upload_error(m, path@, id@) {
                    Some(e) => r matches Err(x) && x@ == e && final(self)@ == m,
                    None => {
                        let (etag, size) = m.locations[path@];
                        let parts = (-1 - size) as nat;
                        if opts.aes_tags is Some && opts.aes_tags->0@.len() != parts {
                            r matches Err(x) && x@ == ErrorModel::Precondition {
                                path: path@,
                                error: "aes_tags size "@ + decimal(opts.aes_tags->0@.len()) + " does not match parts "@
                                    + decimal(parts),
                            } && final(self)@ == m
                        } else {
                            match completion(m, path@) {
                                Err(e) => r matches Err(x) && x@ == ErrorModel::Precondition { path: path@, error: e }
                                    && final(self)@ == m,
                                Ok(n) => r matches Ok(res) && opt_view(res.e_tag) == Some(decimal(etag as nat))
                                    && res.version is None && final(self)@ == (ObjModel {
                                    meta: m.meta.insert(etag, completed_meta(opts, n, now_ms)),
                                    locations: m.locations.insert(path@, (etag, n as i64)),
                                    uploads: m.uploads.remove(etag),
                                    ..m
                                }),
                            }
                        }
                    },
                }
            }),
    {
        let ghost m = self@;
        let (etag, size) = self.upload_at(&path, id.as_str())?;
        assert(parts_of(size) <= MAX_PARTS);
        let parts = (-1 - size) as u32;
        if let Some(tags) = &opts.aes_tags {
            if tags.len() as u64 != parts as u64 {
                let mut e = owned("aes_tags size ");
                push_decimal(&mut e, tags.len() as u64);
                push_str(&mut e, " does not match parts ");
                push_decimal(&mut e, parts as u64);
                return Err(Error::Precondition { path, error: e });
            }
        }
        let total: u64 = match self.multipart_uploads.get(&etag) {
            Some(u) => {
                assert(u@ == m.uploads[etag]);
                match u.completed_size(path.as_str(), parts) {
                    Ok(n) => n,
                    Err(e) => {
                        return Err(e);
                    },
                }
            },
            None => {
                match self.legacy_multipart_size(etag, parts, path.as_str()) {
                    Ok(n) => n,
                    Err(e) => {
                        return Err(e);
                    },
                }
            },
        };
        proof {
            if m.uploads.contains_key(etag) {
                assert(completion(m, path@) == completed_size_of(m.uploads[etag], parts));
            } else {
                lemma_legacy_bound(m.data, etag, parts, parts as nat);
            }
            assert(completion(m, path@) == Ok::<nat, Seq<char>>(total as nat));
        }
        assert(total <= 0x1_0000_0000 * CHUNK_SIZE);
        let meta = ObjectMetadata {
            last_modified: now_ms,
            size: total,
            tags: opts.tags,
            attributes: opts.attributes,
            version: None,
            aes_nonce: opts.aes_nonce,
            aes_tags: opts.aes_tags,
        };
        self.meta.insert(etag, meta);
        self.place(path, etag, total as i64);
        self.multipart_uploads.remove(&etag);
        let ghost f = self@;
        assert(f.meta =~= m.meta.insert(etag, completed_meta(opts, total as nat, now_ms)));
        assert(f.uploads =~= m.uploads.remove(etag));
        proof {
            assert(shape_wf(f)) by {
                assert forall|p: Seq<char>, q: Seq<char>|
                    #![trigger f.locations[p], f.locations[q]]
                    f.locations.contains_key(p) && f.locations.contains_key(q) && p != q implies f.locations[p].0
                        != f.locations[q].0 by {
                    assert(m.locations.contains_key(p) && m.locations.contains_key(q));
                    assert(m.locations[p].0 == f.locations[p].0 && m.locations[q].0 == f.locations[q].0);
                }
                assert forall|p: Seq<char>| #[trigger] f.locations.contains_key(p) && f.locations[p].1 >= 0 implies f.meta.contains_key(
                    f.locations[p].0,
                ) by {
                    assert(m.locations.contains_key(p));
                }
                assert forall|p: Seq<char>| #[trigger] f.locations.contains_key(p) implies f.locations[p].0 < f.next_etag by {
                    assert(m.locations.contains_key(p));
                }
                assert forall|p: Seq<char>| #[trigger] f.locations.contains_key(p) && f.locations[p].1 < 0 implies parts_of(
                    f.locations[p].1,
                ) <= MAX_PARTS by {
                    assert(m.locations.contains_key(p));
                }
            }
        }
        proof {
            lemma_resized_counted(m, f, path@, total as i64);
        }
        Ok(UpdateVersion { e_tag: Some(decimal_string(etag)), version: None })
    }

    /// Abandons the upload `id` at `path`, and its parts.
    pub fn abort_multipart(&mut self, path: String, id: String) -> (r: Result<(), Error>)
        requires
            objects_wf(old(self)@),
        ensures
            objects_wf(final(self)@),
            ({
                let m = old(self)@;
                match upload_error(m, path@, id@) {
                    Some(e) => r matches Err(x) && x@ == e && final(self)@ == m,
                    None => r is Ok && final(self)@ == removed_object(
                        unlocated(m, path@),
                        m.locations[path@].0,
                        m.locations[path@].1,
                    ),
                }
            }),
    {
        self.upload_at(&path, id.as_str())?;
        self.delete(path)
    }
}

/// The sum a legacy upload check gives stays within its parts.
proof fn lemma_legacy_bound(d: Map<u128, Seq<u8>>, etag: u64, parts: u32, n: nat)
    requires
        forall|k: u128| #[trigger] d.contains_key(k) ==> d[k].len() <= CHUNK_SIZE,
    ensures
        legacy_size(d, etag, parts, n) matches Ok(s) ==> s <= n * CHUNK_SIZE,
    decreases n,
{
    if n > 0 {
        lemma_legacy_bound(d, etag, parts, (n - 1) as nat);
    }
}


/// `om` describes the object at `location` with `etag` and description `mm`.
pub open spec fn object_meta_of(om: ObjectMeta, location: Seq<char>, etag: u64, mm: MetaModel) -> bool {
    &&& om.location@ == location
    &&& om.last_modified == mm.last_modified
    &&& om.size == mm.size
    &&& opt_view(om.e_tag) == Some(decimal(etag as nat))
    &&& opt_view(om.version) == mm.version
    &&& nonce_view(om.aes_nonce) == mm.aes_nonce
    &&& tags_view(om.aes_tags) == mm.aes_tags
}

/// The bytes of a read of `a..b`: nothing for an empty range.
pub open spec fn read_or_empty(d: Map<u128, Seq<u8>>, etag: u64, a: u64, b: u64) -> Result<Seq<u8>, nat> {
    if a == b { Ok(Seq::empty()) } else { read_range(d, etag, a as nat, b as nat) }
}

/// The part of `a..b` that one read returns: at most the payload limit.
pub open spec fn capped_end(a: u64, b: u64) -> u64 {
    if b - a > MAX_PAYLOAD_SIZE { (a + MAX_PAYLOAD_SIZE) as u64 } else { b }
}

/// The bytes `a..b` that a read of `o` asks of an object of `len` bytes.
pub open spec fn asked_range(o: GetOptions, len: u64) -> Result<(u64, u64), Seq<char>> {
    match o.range {
        Some(r) => range_in(r, len),
        None => Ok((0, len)),
    }
}

/// The first of `rs` that is empty or ends past `size`.
pub open spec fn first_bad_range(rs: Seq<(u64, u64)>, size: int, n: nat) -> Option<int>
    decreases n,
{
    if n == 0 {
        None
    } else {
        match first_bad_range(rs, size, (n - 1) as nat) {
            Some(i) => Some(i),
            None => {
                let (s, e) = rs[n - 1];
                if s >= e || e > size { Some(n - 1) } else { None }
            },
        }
    }
}

/// The number of bytes that the first `n` of `rs` ask for.
pub open spec fn ranges_total(rs: Seq<(u64, u64)>, n: nat) -> int
    decreases n,
{
    if n == 0 {
        0
    } else {
        ranges_total(rs, (n - 1) as nat) + rs[n - 1].1 - rs[n - 1].0
    }
}

proof fn lemma_bad_range_stays(rs: Seq<(u64, u64)>, size: int, n: nat, n2: nat)
    requires
        n <= n2,
        first_bad_range(rs, size, n) is Some,
    ensures
        first_bad_range(rs, size, n2) == first_bad_range(rs, size, n),
    decreases n2 - n,
{
    if n < n2 {
        lemma_bad_range_stays(rs, size, n, (n2 - 1) as nat);
    }
}

impl ObjectStore {
    /// A description of the object at `location` with `etag`.
    fn to_object_meta(location: String, etag: u64, metadata: &ObjectMetadata) -> (r: ObjectMeta)
        ensures
            object_meta_of(r, location@, etag, metadata@),
    {
        ObjectMeta {
            location,
            last_modified: metadata.last_modified,
            size: metadata.size,
            e_tag: Some(decimal_string(etag)),
            version: copy_opt(&metadata.version),
            aes_nonce: metadata.aes_nonce,
            aes_tags: copy_tags(&metadata.aes_tags),
        }
    }

    /// Looks up the complete object at `path`; gives its etag and size.
    fn complete_at(&self, path: &String) -> (r: Result<(u64, i64), Error>)
        ensures
            !self@.locations.contains_key(path@) ==> (r matches Err(x) && x@ == ErrorModel::NotFound { path: path@ }),
            self@.locations.contains_key(path@) && self@.locations[path@].1 < 0 ==> (r matches Err(x) && x@
                == ErrorModel::Precondition { path: path@, error: "upload not completed"@ }),
            self@.locations.contains_key(path@) && self@.locations[path@].1 >= 0 ==> r == Ok::<(u64, i64), Error>(
                self@.locations[path@],
            ),
    {
        match self.locations.get(path) {
            None => Err(Error::NotFound { path: path.clone() }),
            Some((etag, size)) => {
                if size < 0 {
                    return Err(Error::Precondition { path: path.clone(), error: owned("upload not completed") });
                }
                Ok((etag, size))
            },
        }
    }

    /// Part `part_idx` of the complete object at `path`.
    pub fn get_part(&self, path: String, part_idx: u32) -> (r: Result<Vec<u8>, Error>)
        ensures
            ({
                let m = self@;
                if !m.locations.contains_key(path@) {
                    r matches Err(x) && x@ == ErrorModel::NotFound { path: path@ }
                } else if m.locations[path@].1 < 0 {
                    r matches Err(x) && x@ == ErrorModel::Precondition { path: path@, error: "upload not completed"@ }
                } else if m.locations[path@].1 == 0 && part_idx == 0 {
                    r matches Ok(v) && v@.len() == 0
                } else {
                    let d = data_etag_of(m, m.locations[path@].0);
                    let k = part_key(d, part_idx);
                    if m.data.contains_key(k) {
                        r matches Ok(v) && v@ == m.data[k]
                    } else {
                        r matches Err(x) && x@ == missing_part(d, part_idx as nat)
                    }
                }
            }),
    {
        let (etag, size) = self.complete_at(&path)?;
        if size == 0 && part_idx == 0 {
            return Ok(Vec::new());
        }
        let d = self.data_etag(etag);
        match self.data.get(&key_of(d, part_idx)) {
            Some(chunk) => Ok(chunk.0.clone()),
            None => {
                let mut e = owned("missing part ");
                push_decimal(&mut e, part_idx as u64);
                push_str(&mut e, " at ");
                push_decimal(&mut e, d);
                proof {
                    assert(part_idx as nat % 0x1_0000_0000 == part_idx as nat);
                }
                Err(Error::Precondition { path: String::new(), error: e })
            },
        }
    }

    /// The description of the complete object at `path`.
    pub fn head(&self, path: String) -> (r: Result<ObjectMeta, Error>)
        requires
            objects_wf(self@),
        ensures
            ({
                let m = self@;
                if !m.locations.contains_key(path@) || m.locations[path@].1 < 0 {
                    r matches Err(x) && x@ == ErrorModel::NotFound { path: path@ }
                } else {
                    r matches Ok(om) && object_meta_of(om, path@, m.locations[path@].0, m.meta[m.locations[path@].0])
                }
            }),
    {
        match self.locations.get(&path) {
            None => Err(Error::NotFound { path }),
            Some((etag, size)) => {
                if size < 0 {
                    return Err(Error::NotFound { path });
                }
                match self.meta.get(&etag) {
                    Some(me) => Ok(Self::to_object_meta(path, etag, me)),
                    None => Err(Error::NotFound { path }),
                }
            },
        }
    }

    /// Reads the object at `path` as `opts` asks: its description, its
    /// attributes, and the bytes of the range asked (at most the payload limit).
    pub fn get_opts(&self, path: String, opts: GetOptions) -> (r: Result<GetResult, Error>)
        requires
            objects_wf(self@),
        ensures
            ({
                let m = self@;
                if !m.locations.contains_key(path@) {
                    r matches Err(x) && x@ == ErrorModel::NotFound { path: path@ }
                } else if m.locations[path@].1 < 0 {
                    r matches Err(x) && x@ == ErrorModel::Precondition { path: path@, error: "upload not completed"@ }
                } else {
                    let etag = m.locations[path@].0;
                    let me = m.meta[etag];
                    let d = data_etag_of(m, etag);
                    match precondition_failure_of(opts, path@, decimal(etag as nat), me.last_modified) {
                        Some(e) => r matches Err(x) && x@ == e,
                        None => if opts.head {
                            r matches Ok(g) && object_meta_of(g.meta, path@, etag, me) && g.range == (0u64, 0u64)
                                && g.payload@.len() == 0 && attributes_view(g.attributes@) == me.attributes
                        } else {
                            match asked_range(opts, me.size) {
                                Err(e) => r matches Err(x) && x@ == ErrorModel::Precondition { path: path@, error: e },
                                Ok((a, b)) => match read_or_empty(m.data, d, a, capped_end(a, b)) {
                                    Err(i) => r matches Err(x) && x@ == missing_part(d, i),
                                    Ok(bytes) => r matches Ok(g) && object_meta_of(g.meta, path@, etag, me) && g.range == (
                                        a,
                                        capped_end(a, b),
                                    ) && g.payload@ == bytes && attributes_view(g.attributes@) == me.attributes,
                                },
                            }
                        },
                    }
                }
            }),
    {
        let (etag, _size) = self.complete_at(&path)?;
        let me = match self.meta.get(&etag) {
            Some(me) => me,
            None => {
                return Err(Error::NotFound { path });
            },
        };
        let meta = Self::to_object_meta(path.clone(), etag, me);
        opts.check_preconditions(&meta)?;
        let attributes = copy_attributes(&me.attributes);
        if opts.head {
            return Ok(GetResult { range: (0, 0), meta, attributes, payload: Vec::new() });
        }
        let (a, b) = match opts.range {
            Some(range) => match range.into_range(me.size) {
                Ok(r) => (r.start, r.end),
                Err(error) => {
                    return Err(Error::Precondition { path, error });
                },
            },
            None => (0, me.size),
        };
        let end = if b - a > MAX_PAYLOAD_SIZE { a + MAX_PAYLOAD_SIZE } else { b };
        let payload = if end == a {
            Vec::new()
        } else {
            let d = self.data_etag(etag);
            let ranges: Vec<(u64, u64)> = vec![(a, end)];
            assert(ranges@ =~= seq![(a, end)]);
            proof {
                assert(ranges@.drop_last() =~= Seq::<(u64, u64)>::empty());
                assert(ranges@.last() == (a, end));
                assert(read_ranges(self@.data, d, ranges@.drop_last()) == Ok::<Seq<Seq<u8>>, nat>(Seq::empty()));
                assert(read_ranges(self@.data, d, ranges@) == (match read_range(self@.data, d, a as nat, end as nat) {
                    Err(i) => Err(i),
                    Ok(x) => Ok(Seq::<Seq<u8>>::empty().push(x)),
                }));
            }
            let mut got = self.get_object_ranges(d, ranges.as_slice())?;
            match got.pop() {
                Some(p) => p,
                None => Vec::new(),
            }
        };
        Ok(GetResult { range: (a, end), meta, attributes, payload })
    }

    /// The bytes of each of `ranges` of the complete object at `path`, once all
    /// are within it and together within the payload limit.
    pub fn get_ranges(&self, path: String, ranges: Vec<(u64, u64)>) -> (r: Result<Vec<Vec<u8>>, Error>)
        ensures
            ({
                let m = self@;
                if !m.locations.contains_key(path@) {
                    r matches Err(x) && x@ == ErrorModel::NotFound { path: path@ }
                } else if m.locations[path@].1 < 0 {
                    r matches Err(x) && x@ == ErrorModel::Precondition { path: path@, error: "upload not completed"@ }
                } else {
                    let size = m.locations[path@].1;
                    let d = data_etag_of(m, m.locations[path@].0);
                    match first_bad_range(ranges@, size as int, ranges@.len()) {
                        Some(i) => r matches Err(x) && x@ == ErrorModel::Precondition {
                            path: path@,
                            error: "invalid range ("@ + decimal(ranges@[i].0 as nat) + ", "@ + decimal(
                                ranges@[i].1 as nat,
                            ) + ")"@,
                        },
                        None => if ranges_total(ranges@, ranges@.len()) > MAX_PAYLOAD_SIZE {
                            r matches Err(x) && x@ == ErrorModel::Precondition {
                                path: path@,
                                error: "payload size exceeds max size"@,
                            }
                        } else {
                            match read_ranges(m.data, d, ranges@) {
                                Ok(v) => r matches Ok(x) && x@.len() == v.len() && forall|i: int|
                                    0 <= i < v.len() ==> (#[trigger] x@[i])@ == v[i],
                                Err(i) => r matches Err(e) && e@ == missing_part(d, i),
                            }
                        },
                    }
                }
            }),
    {
        let (etag, size) = self.complete_at(&path)?;
        let mut total: u128 = 0;
        let mut i: usize = 0;
        while i < ranges.len()
            invariant
                size >= 0,
                self@.locations.contains_key(path@),
                self@.locations[path@] == (etag, size),
                i <= ranges@.len(),
                first_bad_range(ranges@, size as int, i as nat) is None,
                total == ranges_total(ranges@, i as nat),
                total <= i * 0x1_0000_0000_0000_0000,
            decreases ranges@.len() - i,
        {
            let (start, end) = ranges[i];
            if start >= end || end > size as u64 {
                proof {
                    assert(first_bad_range(ranges@, size as int, (i + 1) as nat) == Some(i as int));
                    lemma_bad_range_stays(ranges@, size as int, (i + 1) as nat, ranges@.len());
                }
                let mut e = owned("invalid range (");
                push_decimal(&mut e, start);
                push_str(&mut e, ", ");
                push_decimal(&mut e, end);
                push_str(&mut e, ")");
                return Err(Error::Precondition { path, error: e });
            }
            assert(i < 0x1_0000_0000_0000_0000);
            total = total + (end - start) as u128;
            i += 1;
        }
        if total > MAX_PAYLOAD_SIZE as u128 {
            return Err(Error::Precondition { path, error: owned("payload size exceeds max size") });
        }
        proof {
            assert forall|j: int| 0 <= j < ranges@.len() implies (#[trigger] ranges@[j]).0 < ranges@[j].1 by {
                lemma_no_bad_range(ranges@, size as int, ranges@.len(), j);
            }
        }
        let d = self.data_etag(etag);
        self.get_object_ranges(d, ranges.as_slice())
    }
}

/// With no bad range among the first `n`, each of them is non-empty.
proof fn lemma_no_bad_range(rs: Seq<(u64, u64)>, size: int, n: nat, j: int)
    requires
        first_bad_range(rs, size, n) is None,
        0 <= j < n,
    ensures
        rs[j].0 < rs[j].1,
    decreases n,
{
    if j < n - 1 {
        lemma_no_bad_range(rs, size, (n - 1) as nat, j);
    }
}


/// The most objects, and common prefixes, that one listing returns.
pub const MAX_LIST_LIMIT: usize = 1000;

/// Whether `s` starts with `p`.
pub open spec fn starts_with(s: Seq<char>, p: Seq<char>) -> bool {
    p.len() <= s.len() && s.subrange(0, p.len() as int) == p
}

/// Whether `s` starts with `p`.
fn has_prefix(s: &String, p: &String) -> (r: bool)
    ensures
        r == starts_with(s@, p@),
{
    let cs = chars_of(s.as_str());
    let cp = chars_of(p.as_str());
    if cp.len() > cs.len() {
        return false;
    }
    let mut i: usize = 0;
    while i < cp.len()
        invariant
            cs@ == s@,
            cp@ == p@,
            cp@.len() <= cs@.len(),
            i <= cp@.len(),
            forall|j: int| 0 <= j < i ==> cs@[j] == cp@[j],
        decreases cp@.len() - i,
    {
        if cs[i] != cp[i] {
            assert(s@.subrange(0, p@.len() as int)[i as int] != p@[i as int]);
            return false;
        }
        i += 1;
    }
    assert(s@.subrange(0, p@.len() as int) =~= p@);
    true
}

/// The entries that a listing from `start` takes, from entry `i` on, with
/// room for `left` more: entries before `start` are passed, the scan stops at
/// the first that does not start with `within`, and takes those whose
/// canonical path is longer than `plen`, above `offset` if one is given, and
/// that are complete.
pub open spec fn list_scan(
    es: Seq<(Seq<char>, u64, i64)>,
    i: int,
    start: Seq<char>,
    within: Seq<char>,
    plen: nat,
    offset: Option<Seq<char>>,
    left: nat,
) -> Seq<int>
    decreases es.len() - i,
{
    if i < 0 || i >= es.len() || left == 0 {
        Seq::empty()
    } else if str_lt(es[i].0, start) {
        list_scan(es, i + 1, start, within, plen, offset, left)
    } else if !starts_with(es[i].0, within) {
        Seq::empty()
    } else if canonical(es[i].0).len() <= plen || es[i].2 < 0 || (offset is Some && !str_lt(offset->0, canonical(es[i].0))) {
        list_scan(es, i + 1, start, within, plen, offset, left)
    } else {
        seq![i] + list_scan(es, i + 1, start, within, plen, offset, (left - 1) as nat)
    }
}

/// `r` describes the entries `idx` of the store `m`.
pub open spec fn listed_objects(m: ObjModel, es: Seq<(Seq<char>, u64, i64)>, idx: Seq<int>, r: Seq<ObjectMeta>) -> bool {
    &&& r.len() == idx.len()
    &&& forall|j: int| 0 <= j < r.len() ==> object_meta_of(#[trigger] r[j], es[idx[j]].0, es[idx[j]].1, m.meta[es[idx[j]].1])
}

impl ObjectStore {
    /// Whether the store's invariant holds of the entries: their map is the
    /// locations, and they are in path order.
    pub fn entries_facts(&self)
        ensures
            self@.locations == crate::paths::map_of(self.entries()),
            crate::paths::sorted_views(self.entries()),
    {
        self.locations.entries_facts();
    }

    /// Collects the objects that a listing takes from entry `i0` on.
    fn scan_objects(&self, i0: usize, start: &String, within: &String, plen: usize, offset: &Option<String>) -> (r: Vec<ObjectMeta>)
        requires
            objects_wf(self@),
            i0 <= self.entries().len(),
        ensures
            listed_objects(self@, self.entries(), list_scan(self.entries(), i0 as int, start@, within@, plen as nat, opt_view(*offset), MAX_LIST_LIMIT as nat), r@),
    {
        let ghost es = self.entries();
        let ghost full = list_scan(es, i0 as int, start@, within@, plen as nat, opt_view(*offset), MAX_LIST_LIMIT as nat);
        self.entries_facts();
        let mut objects: Vec<ObjectMeta> = Vec::new();
        let ghost mut done: Seq<int> = Seq::empty();
        let mut i = i0;
        let n = self.locations.len();
        while i < n
            invariant_except_break
                es == self.entries(),
                n == es.len(),
                objects_wf(self@),
                self@.locations == crate::paths::map_of(es),
                crate::paths::sorted_views(es),
                i0 <= i <= n,
                objects@.len() < MAX_LIST_LIMIT,
                done + list_scan(es, i as int, start@, within@, plen as nat, opt_view(*offset), (MAX_LIST_LIMIT - objects@.len()) as nat) == full,
                listed_objects(self@, es, done, objects@),
            ensures
                listed_objects(self@, es, full, objects@),
            decreases n - i,
        {
            let (path, etag, size) = self.locations.entry(i);
            let ghost left = (MAX_LIST_LIMIT - objects@.len()) as nat;
            if crate::paths::str_less(path, start) {
                i += 1;
                continue;
            }
            if !has_prefix(path, within) {
                assert(done + Seq::<int>::empty() =~= done);
                break;
            }
            let c = canonical_path(path.as_str());
            let cn = chars_of(c.as_str());
            let above = match offset {
                Some(o) => crate::paths::str_less(o, &c),
                None => true,
            };
            if cn.len() <= plen || size < 0 || !above {
                i += 1;
                continue;
            }
            proof {
                lemma_map_of_at(es, i as int);
                assert(self@.locations.contains_key(es[i as int].0));
            }
            let metadata = match self.meta.get(&etag) {
                Some(md) => md,
                None => {
                    assert(false);
                    break;
                },
            };
            let ghost before = objects@;
            objects.push(Self::to_object_meta(path.clone(), etag, metadata));
            proof {
                assert(forall|j: int| 0 <= j < before.len() ==> objects@[j] == before[j]);
                done = done.push(i as int);
                assert(seq![i as int] + list_scan(es, i + 1, start@, within@, plen as nat, opt_view(*offset), (left - 1) as nat) =~= seq![i as int] + list_scan(es, i + 1, start@, within@, plen as nat, opt_view(*offset), (MAX_LIST_LIMIT - objects@.len()) as nat));
                assert(done.drop_last() + (seq![i as int] + list_scan(es, i + 1, start@, within@, plen as nat, opt_view(*offset), (left - 1) as nat)) =~= done + list_scan(es, i + 1, start@, within@, plen as nat, opt_view(*offset), (left - 1) as nat));
            }
            if objects.len() >= MAX_LIST_LIMIT {
                assert(done + Seq::<int>::empty() =~= done);
                break;
            }
            i += 1;
        }
        proof {
            if i >= n {
                assert(done + Seq::<int>::empty() =~= done);
            }
        }
        objects
    }

    /// The complete objects below `prefix`, in path order, at most the listing limit.
    pub fn list(&self, prefix: String) -> (r: Result<Vec<ObjectMeta>, Error>)
        requires
            objects_wf(self@),
        ensures
            ({
                let start = if prefix@.len() == 0 { Seq::<char>::empty() } else { prefix@.push('/') };
                r matches Ok(v) && listed_objects(self@, self.entries(), list_scan(self.entries(), 0, start, start, prefix@.len(), None, MAX_LIST_LIMIT as nat), v@)
            }),
    {
        let start = descendant_start(prefix.as_str());
        let plen = chars_of(prefix.as_str()).len();
        Ok(self.scan_objects(0, &start, &start, plen, &None))
    }

    /// The complete objects below `prefix` whose canonical paths are above
    /// `offset`, in path order, at most the listing limit.
    pub fn list_with_offset(&self, prefix: String, offset: String) -> (r: Result<Vec<ObjectMeta>, Error>)
        requires
            objects_wf(self@),
        ensures
            ({
                let within = if prefix@.len() == 0 { Seq::<char>::empty() } else { prefix@.push('/') };
                let start = if !leading_slash(self.entries(), prefix@) && str_lt(within, offset@) { offset@ } else { within };
                r matches Ok(v) && listed_objects(self@, self.entries(), list_scan(self.entries(), 0, start, within, prefix@.len(), Some(offset@), MAX_LIST_LIMIT as nat), v@)
            }),
    {
        let prefix_start = descendant_start(prefix.as_str());
        let plen = chars_of(prefix.as_str()).len();
        let slash = self.has_leading_slash(&prefix);
        let start = if !slash && crate::paths::str_less(&prefix_start, &offset) {
            offset.clone()
        } else {
            prefix_start.clone()
        };
        Ok(self.scan_objects(0, &start, &prefix_start, plen, &Some(offset)))
    }

    /// Whether the prefix is empty and the first path from `/` on starts with `/`.
    fn has_leading_slash(&self, prefix: &String) -> (r: bool)
        ensures
            r == leading_slash(self.entries(), prefix@),
    {
        if chars_of(prefix.as_str()).len() != 0 {
            return false;
        }
        let slash = owned("/");
        proof {
            reveal_strlit("/");
        }
        let n = self.locations.len();
        let mut i: usize = 0;
        while i < n
            invariant
                n == self.entries().len(),
                slash@ == seq!['/'],
                i <= n,
                prefix@.len() == 0,
                forall|j: int| 0 <= j < i ==> str_lt(#[trigger] self.entries()[j].0, slash@),
            decreases n - i,
        {
            let (path, _, _) = self.locations.entry(i);
            if !crate::paths::str_less(path, &slash) {
                let r = has_prefix(path, &slash);
                proof {
                    assert(first_from(self.entries(), slash@, 0) == Some(i as int)) by {
                        lemma_first_from(self.entries(), slash@, 0, i as int);
                    }
                }
                return r;
            }
            i += 1;
        }
        proof {
            lemma_first_from_none(self.entries(), slash@, 0, n as int);
        }
        false
    }
}

/// The first entry from `i` on that is not before `start`.
pub open spec fn first_from(es: Seq<(Seq<char>, u64, i64)>, start: Seq<char>, i: int) -> Option<int>
    decreases es.len() - i,
{
    if i < 0 || i >= es.len() {
        None
    } else if !str_lt(es[i].0, start) {
        Some(i)
    } else {
        first_from(es, start, i + 1)
    }
}

/// Whether the prefix is empty and the first path from `/` on starts with `/`
/// (older versions stored such paths).
pub open spec fn leading_slash(es: Seq<(Seq<char>, u64, i64)>, prefix: Seq<char>) -> bool {
    prefix.len() == 0 && match first_from(es, seq!['/'], 0) {
        Some(i) => starts_with(es[i].0, seq!['/']),
        None => false,
    }
}

proof fn lemma_first_from(es: Seq<(Seq<char>, u64, i64)>, start: Seq<char>, i: int, k: int)
    requires
        0 <= i <= k < es.len(),
        forall|j: int| i <= j < k ==> str_lt(#[trigger] es[j].0, start),
        !str_lt(es[k].0, start),
    ensures
        first_from(es, start, i) == Some(k),
    decreases k - i,
{
    if i < k {
        lemma_first_from(es, start, i + 1, k);
    }
}

proof fn lemma_first_from_none(es: Seq<(Seq<char>, u64, i64)>, start: Seq<char>, i: int, n: int)
    requires
        0 <= i <= n,
        n == es.len(),
        forall|j: int| i <= j < n ==> str_lt(#[trigger] es[j].0, start),
    ensures
        first_from(es, start, i) is None,
    decreases n - i,
{
    if i < n {
        lemma_first_from_none(es, start, i + 1, n);
    }
}


/// The first `/` in `s` from index `i` on.
pub open spec fn first_slash_from(s: Seq<char>, i: int) -> Option<int>
    decreases s.len() - i,
{
    if i < 0 || i >= s.len() {
        None
    } else if s[i] == '/' {
        Some(i)
    } else {
        first_slash_from(s, i + 1)
    }
}

/// The listing of one level below `start`, from entry `i` on, with `nobj`
/// objects and the common prefixes `ps` taken so far: the entries taken as
/// objects and the common prefixes at the end. An entry whose canonical path
/// has a `/` after `start` gives the common prefix up to it; the scan stops once
/// either list reaches the listing limit.
pub open spec fn delim_scan(
    es: Seq<(Seq<char>, u64, i64)>,
    i: int,
    start: Seq<char>,
    plen: nat,
    nobj: nat,
    ps: Set<Seq<char>>,
) -> (Seq<int>, Set<Seq<char>>)
    decreases es.len() - i,
{
    if i < 0 || i >= es.len() {
        (Seq::empty(), ps)
    } else if str_lt(es[i].0, start) {
        delim_scan(es, i + 1, start, plen, nobj, ps)
    } else if !starts_with(es[i].0, start) {
        (Seq::empty(), ps)
    } else {
        let c = canonical(es[i].0);
        if c.len() <= plen || es[i].2 < 0 {
            delim_scan(es, i + 1, start, plen, nobj, ps)
        } else {
            match first_slash_from(c, start.len() as int) {
                Some(sep) => {
                    let ps2 = ps.insert(c.take(sep));
                    if nobj >= MAX_LIST_LIMIT || ps2.len() >= MAX_LIST_LIMIT {
                        (Seq::empty(), ps2)
                    } else {
                        delim_scan(es, i + 1, start, plen, nobj, ps2)
                    }
                },
                None => if nobj + 1 >= MAX_LIST_LIMIT || ps.len() >= MAX_LIST_LIMIT {
                    (seq![i], ps)
                } else {
                    let rest = delim_scan(es, i + 1, start, plen, nobj + 1, ps);
                    (seq![i] + rest.0, rest.1)
                },
            }
        }
    }
}

/// Strictly increasing in string order.
pub open spec fn strs_sorted(v: Seq<Seq<char>>) -> bool {
    forall|i: int, j: int| 0 <= i < j < v.len() ==> str_lt(#[trigger] v[i], #[trigger] v[j])
}

impl ObjectStore {
    /// The complete objects one level below `prefix`, and the common prefixes of
    /// those further down, in path order, at most the listing limit of each.
    pub fn list_with_delimiter(&self, prefix: String) -> (r: Result<ListResult, Error>)
        requires
            objects_wf(self@),
        ensures
            ({
                let start = if prefix@.len() == 0 { Seq::<char>::empty() } else { prefix@.push('/') };
                let (idx, ps) = delim_scan(self.entries(), 0, start, prefix@.len(), 0, Set::empty());
                r matches Ok(lr) && listed_objects(self@, self.entries(), idx, lr.objects@) && strs_sorted(
                    views(lr.common_prefixes@),
                ) && views(lr.common_prefixes@).to_set() == ps
            }),
    {
        let ghost es = self.entries();
        let start = descendant_start(prefix.as_str());
        let plen = chars_of(prefix.as_str()).len();
        let slen = chars_of(start.as_str()).len();
        let ghost full = delim_scan(es, 0, start@, plen as nat, 0, Set::empty());
        self.entries_facts();
        let mut objects: Vec<ObjectMeta> = Vec::new();
        let mut prefixes = PathMap::new();
        let ghost mut done: Seq<int> = Seq::empty();
        prefixes.entries_facts();
        let n = self.locations.len();
        let mut i: usize = 0;
        while i < n
            invariant_except_break
                es == self.entries(),
                n == es.len(),
                slen == start@.len(),
                plen == prefix@.len(),
                start@ == (if prefix@.len() == 0 { Seq::<char>::empty() } else { prefix@.push('/') }),
                objects_wf(self@),
                self@.locations == crate::paths::map_of(es),
                crate::paths::sorted_views(es),
                i <= n,
                objects@.len() < MAX_LIST_LIMIT,
                prefixes@ == crate::paths::map_of(prefixes.entries()),
                crate::paths::sorted_views(prefixes.entries()),
                prefixes.entries().len() < MAX_LIST_LIMIT,
                ({
                    let rest = delim_scan(es, i as int, start@, plen as nat, objects@.len(), prefixes@.dom());
                    done + rest.0 == full.0 && rest.1 == full.1
                }),
                listed_objects(self@, es, done, objects@),
            ensures
                listed_objects(self@, es, full.0, objects@),
                prefixes@.dom() == full.1,
                prefixes@ == crate::paths::map_of(prefixes.entries()),
                crate::paths::sorted_views(prefixes.entries()),
            decreases n - i,
        {
            proof {
                crate::paths::lemma_map_of_len(prefixes.entries());
            }
            let (path, etag, size) = self.locations.entry(i);
            if crate::paths::str_less(path, &start) {
                i += 1;
                continue;
            }
            if !has_prefix(path, &start) {
                assert(done + Seq::<int>::empty() =~= done);
                break;
            }
            let c = canonical_path(path.as_str());
            let cn = chars_of(c.as_str());
            if cn.len() <= plen || size < 0 {
                i += 1;
                continue;
            }
            let sep = find_slash(&cn, slen);
            let ghost nobj = objects@.len();
            match sep {
                Some(k) => {
                    proof {
                        lemma_first_slash(cn@, slen as int);
                    }
                    let ghost old_dom = prefixes@.dom();
                    let p = crate::text::string_of_range(&cn, 0, k);
                    assert(p@ =~= c@.take(k as int));
                    prefixes.insert(p, 0, 0);
                    prefixes.entries_facts();
                    proof {
                        crate::paths::lemma_map_of_len(prefixes.entries());
                        assert(prefixes@.dom() =~= old_dom.insert(c@.take(k as int)));
                    }
                    if objects.len() >= MAX_LIST_LIMIT || prefixes.len() >= MAX_LIST_LIMIT {
                        assert(delim_scan(es, i as int, start@, plen as nat, nobj, old_dom).0 == Seq::<int>::empty());
                        assert(done + Seq::<int>::empty() =~= done);
                        break;
                    }
                    assert(delim_scan(es, i as int, start@, plen as nat, nobj, old_dom) == delim_scan(es, i + 1, start@, plen as nat, nobj, prefixes@.dom()));
                },
                None => {
                    proof {
                        lemma_map_of_at(es, i as int);
                        assert(self@.locations.contains_key(es[i as int].0));
                    }
                    let metadata = match self.meta.get(&etag) {
                        Some(md) => md,
                        None => {
                            assert(false);
                            break;
                        },
                    };
                    let ghost before = objects@;
                    objects.push(Self::to_object_meta(path.clone(), etag, metadata));
                    proof {
                        assert(forall|j: int| 0 <= j < before.len() ==> objects@[j] == before[j]);
                        done = done.push(i as int);
                        assert(done.drop_last() + seq![i as int] =~= done);
                    }
                    if objects.len() >= MAX_LIST_LIMIT || prefixes.len() >= MAX_LIST_LIMIT {
                        assert(done + Seq::<int>::empty() =~= done);
                        break;
                    }
                    proof {
                        let rest = delim_scan(es, i + 1, start@, plen as nat, objects@.len(), prefixes@.dom());
                        assert(done.drop_last() + (seq![i as int] + rest.0) =~= done + rest.0);
                    }
                },
            }
            i += 1;
        }
        proof {
            if i >= n {
                assert(done + Seq::<int>::empty() =~= done);
            }
        }
        let common_prefixes = prefixes.keys();
        prefixes.entries_facts();
        proof {
            crate::paths::lemma_map_of_len(prefixes.entries());
            let ks = views(common_prefixes@);
            assert forall|a: int, b: int| 0 <= a < b < ks.len() implies str_lt(#[trigger] ks[a], #[trigger] ks[b]) by {
                assert(ks[a] == prefixes.entries()[a].0 && ks[b] == prefixes.entries()[b].0);
            }
        }
        Ok(ListResult { objects, common_prefixes })
    }
}

/// The first ASCII control character of `seg`, if any.
pub open spec fn first_control(seg: Seq<char>) -> Option<char>
    decreases seg.len(),
{
    if seg.len() == 0 {
        None
    } else if (seg[0] as u32) < 0x20 || seg[0] as u32 == 0x7f {
        Some(seg[0])
    } else {
        first_control(seg.drop_first())
    }
}

/// The illegal sequence that keeps `seg` from being a path part
/// (`object_store::path::PathPart::parse`), if one does: a relative segment
/// `.` or `..`, or its first control character.
pub open spec fn bad_part(seg: Seq<char>) -> Option<Seq<char>> {
    if seg == "."@ || seg == ".."@ {
        Some(seg)
    } else {
        match first_control(seg) {
            Some(c) => Some(seq![c]),
            None => None,
        }
    }
}

/// The message of the first segment of `segs` that fails, in the path `path`.
pub open spec fn segments_error(path: Seq<char>, segs: Seq<Seq<char>>) -> Option<Seq<char>>
    decreases segs.len(),
{
    if segs.len() == 0 {
        None
    } else if segs[0].len() == 0 {
        Some("Path \""@ + path + "\" contained empty path segment"@)
    } else {
        match bad_part(segs[0]) {
            Some(ill) => Some(
                "Error parsing Path \""@ + path + "\": Encountered illegal character sequence \""@ + ill
                    + "\" whilst parsing path segment \""@ + segs[0] + "\""@,
            ),
            None => segments_error(path, segs.drop_first()),
        }
    }
}

/// What `object_store::path::Path::parse` makes of `s`: without one leading
/// and one trailing `/`, the path's text once every `/`-separated segment is
/// non-empty and a valid part; else the message of its error.
pub open spec fn object_path_parse(s: Seq<char>) -> Result<Seq<char>, Seq<char>> {
    let a = if s.len() > 0 && s[0] == '/' { s.drop_first() } else { s };
    if a.len() == 0 {
        Ok(Seq::empty())
    } else {
        let b = if a.last() == '/' { a.drop_last() } else { a };
        match segments_error(s, crate::text::split_spec(b, '/')) {
            Some(e) => Err(e),
            None => Ok(b),
        }
    }
}

proof fn lemma_first_control(g: Seq<char>)
    ensures
        first_control(g) is Some <==> exists|i: int| 0 <= i < g.len() && crate::paths::is_control(#[trigger] g[i]),
    decreases g.len(),
{
    if g.len() > 0 {
        lemma_first_control(g.drop_first());
        if exists|i: int| 0 <= i < g.len() && crate::paths::is_control(#[trigger] g[i]) {
            let i = choose|i: int| 0 <= i < g.len() && crate::paths::is_control(#[trigger] g[i]);
            if i > 0 {
                assert(g.drop_first()[i - 1] == g[i]);
            }
        }
        if exists|i: int| 0 <= i < g.drop_first().len() && crate::paths::is_control(#[trigger] g.drop_first()[i]) {
            let i = choose|i: int| 0 <= i < g.drop_first().len() && crate::paths::is_control(#[trigger] g.drop_first()[i]);
            assert(g[i + 1] == g.drop_first()[i]);
        }
    }
}

proof fn lemma_segments_error(path: Seq<char>, segs: Seq<Seq<char>>)
    ensures
        segments_error(path, segs) is None <==> forall|i: int| 0 <= i < segs.len() ==> !crate::paths::bad_segment(
            #[trigger] segs[i],
        ),
    decreases segs.len(),
{
    if segs.len() > 0 {
        lemma_segments_error(path, segs.drop_first());
        lemma_first_control(segs[0]);
        assert(bad_part(segs[0]) is Some <==> (segs[0] == "."@ || segs[0] == ".."@ || exists|i: int|
            0 <= i < segs[0].len() && crate::paths::is_control(#[trigger] segs[0][i])));
        assert(segs[0].len() > 0 ==> (crate::paths::bad_segment(segs[0]) <==> bad_part(segs[0]) is Some));
        if forall|i: int| 0 <= i < segs.len() ==> !crate::paths::bad_segment(#[trigger] segs[i]) {
            assert forall|i: int| 0 <= i < segs.drop_first().len() implies !crate::paths::bad_segment(
                #[trigger] segs.drop_first()[i],
            ) by {
                assert(segs.drop_first()[i] == segs[i + 1]);
            }
            assert(!crate::paths::bad_segment(segs[0]));
        }
        if segments_error(path, segs) is None {
            assert forall|i: int| 0 <= i < segs.len() implies !crate::paths::bad_segment(#[trigger] segs[i]) by {
                if i > 0 {
                    assert(segs[i] == segs.drop_first()[i - 1]);
                }
            }
        }
    }
}

/// The library's own check of object paths agrees with object_store's
/// `Path::parse`: a path is valid exactly when `Path::parse` accepts it, and
/// then both give the path without one leading and one trailing `/`.
pub proof fn lemma_parse_path_agrees(path: Seq<char>)
    ensures
        crate::paths::path_ok(path) <==> object_path_parse(path) is Ok,
        crate::paths::path_ok(path) ==> object_path_parse(path) == Ok::<Seq<char>, Seq<char>>(
            crate::paths::canonical(path),
        ),
{
    let a = crate::paths::strip_lead(path);
    if a.len() > 0 {
        lemma_segments_error(path, crate::text::split_spec(crate::paths::canonical(path), '/'));
    } else {
        assert(crate::paths::canonical(path) =~= Seq::<char>::empty());
    }
}

/// Parses an object path (`object_store::path::Path::parse`); the error is its
/// message. The source strips one `/` at each end, splits at `/`, and checks
/// each segment (`PathPart::parse`); the `Display` of its errors gives the
/// messages.
#[verifier::external_body]
fn parse_object_path(s: &str) -> (r: Result<String, String>)
    ensures
        match r {
            Ok(p) => object_path_parse(s@) == Ok::<Seq<char>, Seq<char>>(p@),
            Err(e) => object_path_parse(s@) == Err::<Seq<char>, Seq<char>>(e@),
        },
{
    object_store::path::Path::parse(s).map(|p| p.to_string()).map_err(|e| e.to_string())
}

/// The flat listing `metas` grouped one level below `start`, from entry `i`
/// on: the objects right below (their indexes), the common prefixes of those
/// further down, or the first prefix that is not a valid path, with its error.
pub open spec fn group_scan(metas: Seq<Seq<char>>, i: int, start: Seq<char>, ps: Set<Seq<char>>) -> Result<(Seq<int>, Set<Seq<char>>), (Seq<char>, Seq<char>)>
    decreases metas.len() - i,
{
    if i < 0 || i >= metas.len() {
        Ok((Seq::empty(), ps))
    } else if !starts_with(metas[i], start) {
        group_scan(metas, i + 1, start, ps)
    } else {
        match first_slash_from(metas[i], start.len() as int) {
            Some(k) => match object_path_parse(metas[i].take(k)) {
                Err(e) => Err((metas[i].take(k), e)),
                Ok(p) => group_scan(metas, i + 1, start, ps.insert(p)),
            },
            None => match group_scan(metas, i + 1, start, ps) {
                Err(e) => Err(e),
                Ok((idx, qs)) => Ok((seq![i] + idx, qs)),
            },
        }
    }
}

/// `objects` are the entries of `ms` at the indexes `done`, in order.
pub open spec fn picked(objects: Seq<ObjectMeta>, done: Seq<int>, ms: Seq<ObjectMeta>) -> bool {
    &&& objects.len() == done.len()
    &&& forall|j: int|
        #![trigger objects[j]]
        #![trigger done[j]]
        0 <= j < done.len() ==> (0 <= done[j] < ms.len() && objects[j] == ms[done[j]])
}

pub open spec fn meta_locations(v: Seq<ObjectMeta>) -> Seq<Seq<char>> {
    v.map_values(|m: ObjectMeta| m.location@)
}

/// Groups a flat listing one level below `prefix`: the objects right below it,
/// in listing order, and the distinct prefixes of those further down, in path
/// order. A prefix that is not a valid path fails the grouping.
#[verifier::spinoff_prover]
pub fn collect_with_delimiter(metas: Vec<ObjectMeta>, prefix: Option<String>) -> (r: Result<ListResult, Error>)
    ensures
        ({
            let start = match prefix {
                Some(p) => if p@.len() == 0 { Seq::<char>::empty() } else { p@.push('/') },
                None => Seq::<char>::empty(),
            };
            match group_scan(meta_locations(metas@), 0, start, Set::empty()) {
                Err((path, e)) => r matches Err(x) && x@ == (ErrorModel::InvalidPath { path: path + ": "@ + e }),
                Ok((idx, ps)) => r matches Ok(lr) && lr.objects@.len() == idx.len() && (forall|j: int|
                    0 <= j < idx.len() ==> 0 <= idx[j] < metas@.len() && #[trigger] lr.objects@[j] == metas@[idx[j]])
                    && strs_sorted(views(lr.common_prefixes@)) && views(lr.common_prefixes@).to_set() == ps,
            }
        }),
{
    let start: String = match &prefix {
        Some(p) => {
            if chars_of(p.as_str()).len() == 0 {
                String::new()
            } else {
                let mut s = p.clone();
                push_char(&mut s, '/');
                s
            }
        },
        None => String::new(),
    };
    let ghost locs = meta_locations(metas@);
    let ghost full = group_scan(locs, 0, start@, Set::empty());
    let slen = chars_of(start.as_str()).len();
    let mut objects: Vec<ObjectMeta> = Vec::new();
    let mut prefixes = PathMap::new();
    prefixes.entries_facts();
    let ghost mut done: Seq<int> = Seq::empty();
    let ghost ms = metas@;
    let ghost st = start@;
    assert(st == (match prefix {
        Some(p) => if p@.len() == 0 { Seq::<char>::empty() } else { p@.push('/') },
        None => Seq::<char>::empty(),
    }));
    assert(full == group_scan(locs, 0, st, prefixes@.dom())) by {
        assert(prefixes@.dom() =~= Set::<Seq<char>>::empty());
    }
    assert(Seq::<int>::empty() + full->Ok_0.0 =~= full->Ok_0.0);
    for meta in it: metas
        invariant
            ms == it.seq(),
            ms == metas@,
            st == start@,
            st == (match prefix {
                Some(p) => if p@.len() == 0 { Seq::<char>::empty() } else { p@.push('/') },
                None => Seq::<char>::empty(),
            }),
            locs == meta_locations(ms),
            full == group_scan(locs, 0, st, Set::empty()),
            slen == start@.len(),
            prefixes@ == crate::paths::map_of(prefixes.entries()),
            crate::paths::sorted_views(prefixes.entries()),
            picked(objects@, done, ms),
            match group_scan(locs, it.index() as int, start@, prefixes@.dom()) {
                Err(e) => full == Err::<(Seq<int>, Set<Seq<char>>), (Seq<char>, Seq<char>)>(e),
                Ok((idx, ps)) => full == Ok::<(Seq<int>, Set<Seq<char>>), (Seq<char>, Seq<char>)>((done + idx, ps)),
            },
    {
        let ghost i = it.index() as int;
        let ghost dom0 = prefixes@.dom();
        let ghost done0 = done;
        let ghost objs0 = objects@;
        assert(0 <= i < ms.len());
        assert(meta == ms[i]);
        assert(locs[i] == meta.location@);
        if !has_prefix(&meta.location, &start) {
            assert(group_scan(locs, i, st, dom0) == group_scan(locs, i + 1, st, dom0));
            assert(objects@ == objs0 && done == done0);
        } else {
            let cn = chars_of(meta.location.as_str());
            match find_slash(&cn, slen) {
                Some(k) => {
                    proof {
                        lemma_first_slash(cn@, slen as int);
                    }
                    let cand = crate::text::string_of_range(&cn, 0, k);
                    assert(cand@ =~= meta.location@.take(k as int));
                    match parse_object_path(cand.as_str()) {
                        Err(e) => {
                            assert(group_scan(locs, i, st, dom0) == Err::<(Seq<int>, Set<Seq<char>>), (Seq<char>, Seq<char>)>((cand@, e@)));
                            let mut msg = cand;
                            push_str(&mut msg, ": ");
                            push_str(&mut msg, e.as_str());
                            return Err(Error::InvalidPath { path: msg });
                        },
                        Ok(p) => {
                            let ghost pv = p@;
                            prefixes.insert(p, 0, 0);
                            prefixes.entries_facts();
                            assert(prefixes@.dom() =~= dom0.insert(pv));
                            assert(group_scan(locs, i, st, dom0) == group_scan(locs, i + 1, st, dom0.insert(pv)));
                            assert(objects@ == objs0 && done == done0);
                        },
                    }
                },
                None => {
                    let ghost mv = meta;
                    objects.push(meta);
                    proof {
                        assert(objects@ == objs0.push(mv));
                        assert(mv == ms[i]);
                        let rest = group_scan(locs, i + 1, st, dom0);
                        assert(group_scan(locs, i, st, dom0) == match rest {
                            Err(e) => Err(e),
                            Ok((idx, qs)) => Ok((seq![i] + idx, qs)),
                        });
                        done = done.push(i);
                        assert forall|j: int|
                            #![trigger objects@[j]]
                            #![trigger done[j]]
                            0 <= j < done.len() implies 0 <= done[j] < ms.len() && objects@[j] == ms[done[j]] by {
                            if j < done0.len() {
                                assert(objects@[j] == objs0[j]);
                                assert(done[j] == done0[j]);
                                assert(objs0[j] == ms[done0[j]]);
                            } else {
                                assert(j == done0.len());
                                assert(done[j] == i);
                                assert(objects@[j] == mv);
                            }
                        }
                        assert(objects@.len() == objs0.len() + 1);
                        assert(done.len() == done0.len() + 1);
                        assert(objs0.len() == done0.len());
                        assert(picked(objects@, done, ms));
                        if rest is Ok {
                            assert(done0 + (seq![i] + rest->Ok_0.0) =~= done + rest->Ok_0.0);
                        }
                    }
                },
            }
        }
    }
    proof {
        assert(done + Seq::<int>::empty() =~= done);
        assert(group_scan(locs, ms.len() as int, st, prefixes@.dom()) == Ok::<(Seq<int>, Set<Seq<char>>), (Seq<char>, Seq<char>)>((Seq::empty(), prefixes@.dom())));
    }
    let common_prefixes = prefixes.keys();
    prefixes.entries_facts();
    proof {
        crate::paths::lemma_map_of_len(prefixes.entries());
        let ks = views(common_prefixes@);
        assert forall|a: int, b: int| 0 <= a < b < ks.len() implies str_lt(#[trigger] ks[a], #[trigger] ks[b]) by {
            assert(ks[a] == prefixes.entries()[a].0 && ks[b] == prefixes.entries()[b].0);
        }
    }
    Ok(ListResult { objects, common_prefixes })
}

/// The common prefixes once the prefix of `c` up to `k` is added.
pub open spec fn old_dom_insert(c: Seq<char>, k: int, ps: Set<Seq<char>>) -> Set<Seq<char>> {
    ps.insert(c.take(k))
}

/// The first `/` found from `i` on is at or after `i`, within `s`.
proof fn lemma_first_slash(s: Seq<char>, i: int)
    ensures
        first_slash_from(s, i) matches Some(j) ==> i <= j < s.len() && s[j] == '/',
    decreases s.len() - i,
{
    if 0 <= i < s.len() && s[i] != '/' {
        lemma_first_slash(s, i + 1);
    }
}

/// The first `/` in `cs` from index `from` on.
fn find_slash(cs: &Vec<char>, from: usize) -> (r: Option<usize>)
    ensures
        match first_slash_from(cs@, from as int) {
            Some(i) => r == Some(i as usize),
            None => r is None,
        },
{
    let mut i = from;
    if i >= cs.len() {
        return None;
    }
    while i < cs.len()
        invariant
            from <= i <= cs@.len(),
            first_slash_from(cs@, from as int) == first_slash_from(cs@, i as int),
        decreases cs@.len() - i,
    {
        if cs[i] == '/' {
            return Some(i);
        }
        i += 1;
    }
    None
}


// ---------------------------------------------------------------- laws

/// Reading the first `n` parts of data stored from `p` gives `p` up to there.
proof fn lemma_read_parts(d: Map<u128, Seq<u8>>, e: u64, p: Seq<u8>, n: nat)
    requires
        0 < p.len() < 0x1_0000_0000 * CHUNK_SIZE,
        n <= parts_for(p.len()),
    ensures
        range_from_parts(with_parts(d, e, p), e, 0, p.len(), n) == Ok::<Seq<u8>, nat>(
            p.subrange(0, if n * CHUNK_SIZE <= p.len() { (n * CHUNK_SIZE) as int } else { p.len() as int }),
        ),
    decreases n,
{
    let len = p.len();
    let w = with_parts(d, e, p);
    if n == 0 {
        assert(p.subrange(0, 0) =~= Seq::<u8>::empty());
    } else {
        lemma_read_parts(d, e, p, (n - 1) as nat);
        let idx = (n - 1) as nat;
        let ec = ((len - 1) as nat) / (CHUNK_SIZE as nat);
        assert(parts_for(len) == ec + 1) by (nonlinear_arith)
            requires
                len > 0,
                parts_for(len) == ((len + CHUNK_SIZE - 1) / (CHUNK_SIZE as int)) as nat,
                ec == ((len - 1) as nat) / (CHUNK_SIZE as nat),
        ;
        assert(idx * CHUNK_SIZE < len) by (nonlinear_arith)
            requires
                idx <= ec,
                ec == ((len - 1) as nat) / (CHUNK_SIZE as nat),
                len > 0,
        ;
        assert(idx < 0x1_0000_0000) by (nonlinear_arith)
            requires
                idx * CHUNK_SIZE < len,
                len < 0x1_0000_0000 * CHUNK_SIZE,
        ;
        let k = part_key(e, idx as u32);
        lemma_part_key(e, idx as u32);
        assert(idx % 0x1_0000_0000 == idx);
        assert(part_of(k, e, parts_for(len)));
        assert(w.contains_key(k));
        assert(w[k] == piece(p, idx));
        let lo = idx * CHUNK_SIZE;
        let hi: int = if (idx + 1) * CHUNK_SIZE <= len { ((idx + 1) * CHUNK_SIZE) as int } else { len as int };
        let b: int = if idx == ec { (((len - 1) as nat) % (CHUNK_SIZE as nat) + 1) as int } else { CHUNK_SIZE as int };
        assert(hi - lo == b) by (nonlinear_arith)
            requires
                lo == idx * CHUNK_SIZE,
                hi == (if (idx + 1) * CHUNK_SIZE <= len { ((idx + 1) * CHUNK_SIZE) as int } else { len as int }),
                b == (if idx == ec { (((len - 1) as nat) % (CHUNK_SIZE as nat) + 1) as int } else { CHUNK_SIZE as int }),
                idx <= ec,
                ec == ((len - 1) as nat) / (CHUNK_SIZE as nat),
                len > 0,
        ;
        assert(piece(p, idx).len() == hi - lo);
        assert(part_bytes(w, e, idx, 0, b) == Some(piece(p, idx).subrange(0, b)));
        assert(piece(p, idx).subrange(0, b) =~= piece(p, idx));
        let prev_hi: int = if idx * CHUNK_SIZE <= len { (idx * CHUNK_SIZE) as int } else { len as int };
        assert(prev_hi == lo);
        assert(p.subrange(0, prev_hi) + piece(p, idx) =~= p.subrange(0, hi));
        assert(hi == (if n * CHUNK_SIZE <= len { (n * CHUNK_SIZE) as int } else { len as int }));
        assert(range_from_parts(w, e, 0, len, n) == Ok::<Seq<u8>, nat>(p.subrange(0, prev_hi) + piece(p, idx)));
    }
}

/// What a read gives back of a write: once `p` is put at `path`, the object
/// there has the new etag, is not a copy, and reads as `p` from its first byte
/// to its last.
pub proof fn lemma_read_after_put(m: ObjModel, path: Seq<char>, p: Seq<u8>, mm: MetaModel)
    requires
        objects_wf(m),
        m.next_etag < u64::MAX,
        p.len() < 0x1_0000_0000 * CHUNK_SIZE,
    ensures
        ({
            let f = put_state(m, path, p, mm);
            let e = m.next_etag;
            &&& f.locations.contains_key(path)
            &&& f.locations[path] == (e, p.len() as i64)
            &&& f.meta.contains_key(e) && f.meta[e] == mm
            &&& data_etag_of(f, e) == e
            &&& read_or_empty(f.data, e, 0, p.len() as u64) == Ok::<Seq<u8>, nat>(p)
        }),
{
    let e = m.next_etag;
    let f = put_state(m, path, p, mm);
    let m3 = described(located(bumped(m), path, e, p.len() as i64), e, mm);
    let m4 = dropped_prev(m, m3, path);
    assert(!m.aliases.contains_key(e));
    if m.locations.contains_key(path) {
        assert(m.locations[path].0 < e);
    }
    assert(m4.locations == m3.locations);
    assert(m4.meta.contains_key(e) && m4.meta[e] == mm);
    assert(!m4.aliases.contains_key(e));
    if p.len() == 0 {
        assert(p =~= Seq::<u8>::empty());
    } else {
        let ec = ((p.len() - 1) as nat) / (CHUNK_SIZE as nat);
        assert(parts_for(p.len()) == ec + 1) by (nonlinear_arith)
            requires
                p.len() > 0,
                parts_for(p.len()) == ((p.len() + CHUNK_SIZE - 1) / (CHUNK_SIZE as int)) as nat,
                ec == ((p.len() - 1) as nat) / (CHUNK_SIZE as nat),
        ;
        lemma_read_parts(m4.data, e, p, parts_for(p.len()));
        assert(parts_for(p.len()) * CHUNK_SIZE >= p.len()) by (nonlinear_arith)
            requires
                parts_for(p.len()) == ec + 1,
                ec == ((p.len() - 1) as nat) / (CHUNK_SIZE as nat),
                p.len() > 0,
        ;
        assert(p.subrange(0, p.len() as int) =~= p);
    }
}


/// Whether two data maps hold the same parts for the data `e`.
pub open spec fn same_parts(d1: Map<u128, Seq<u8>>, d2: Map<u128, Seq<u8>>, e: u64) -> bool {
    forall|k: u128| k / 0x1_0000_0000 == e ==> (#[trigger] d1.contains_key(k) == d2.contains_key(k)) && (
    d1.contains_key(k) ==> d1[k] == d2[k])
}

/// Reads of the data `e` only look at its parts.
proof fn lemma_read_same(d1: Map<u128, Seq<u8>>, d2: Map<u128, Seq<u8>>, e: u64, start: nat, end: nat, n: nat)
    requires
        same_parts(d1, d2, e),
    ensures
        range_from_parts(d1, e, start, end, n) == range_from_parts(d2, e, start, end, n),
    decreases n,
{
    if n > 0 {
        lemma_read_same(d1, d2, e, start, end, (n - 1) as nat);
        let sc = start / (CHUNK_SIZE as nat);
        let idx = (sc + n - 1) as nat;
        let part = (idx % 0x1_0000_0000) as u32;
        lemma_part_key(e, part);
        let k = part_key(e, part);
        assert(d1.contains_key(k) == d2.contains_key(k));
    }
}

/// A copy reads as its source: once the object at `from` is copied to `to`,
/// the object at `to` reads the data that the source read, unchanged.
pub proof fn lemma_copy_reads_same(m: ObjModel, from: Seq<char>, to: Seq<char>)
    requires
        objects_wf(m),
        move_error(m, from, to, true) is None,
        m.next_etag < u64::MAX,
    ensures
        ({
            let f = copied(m, from, to);
            let d = data_etag_of(m, m.locations[from].0);
            &&& f.locations.contains_key(to)
            &&& f.locations[to] == (m.next_etag, m.locations[from].1)
            &&& f.next_etag == m.next_etag + 1
            &&& f.locations.contains_key(from)
            &&& f.locations[from] == m.locations[from]
            &&& f.meta.contains_key(m.next_etag)
            &&& f.meta[m.next_etag] == m.meta[m.locations[from].0]
            &&& f.meta.contains_key(m.locations[from].0)
            &&& f.meta[m.locations[from].0] == m.meta[m.locations[from].0]
            &&& data_etag_of(f, m.next_etag) == d
            &&& data_etag_of(f, m.locations[from].0) == d
            &&& same_parts(f.data, m.data, d)
            &&& forall|a: nat, b: nat| #[trigger] read_range(f.data, d, a, b) == read_range(m.data, d, a, b)
        }),
{
    let (se, sz) = m.locations[from];
    let e = m.next_etag;
    let d = data_etag_of(m, se);
    let refs: int = if m.refcounts.contains_key(d) { m.refcounts[d] as int } else { 1 };
    let m1 = ObjModel { refcounts: m.refcounts.insert(d, (refs + 1) as u64), ..bumped(m) };
    let m2 = located(m1, to, e, sz);
    let m3 = ObjModel { aliases: m2.aliases.insert(e, d), ..m2 };
    let m4 = described(m3, e, m.meta[se]);
    let f = copied(m, from, to);
    assert(m4.data == m.data);
    assert(m4.refcounts.contains_key(d));
    if m.locations.contains_key(to) {
        let pe = m.locations[to].0;
        assert(pe < e);
        let dp = data_etag_of(m4, pe);
        assert(f == removed_object(m4, pe, m.locations[to].1));
        assert(f.aliases.contains_key(e) && f.aliases[e] == d);
        assert(same_parts(f.data, m.data, d)) by {
            if !m4.refcounts.contains_key(dp) {
                assert(dp != d);
                assert forall|k: u128| k / 0x1_0000_0000 == d implies (#[trigger] f.data.contains_key(k) == m.data.contains_key(k)) && (
                f.data.contains_key(k) ==> f.data[k] == m.data[k]) by {
                    assert(!part_of(k, dp, parts_of(m.locations[to].1)));
                }
            }
        }
    } else {
        assert(f == m4);
    }
    assert forall|a: nat, b: nat| #[trigger] read_range(f.data, d, a, b) == read_range(m.data, d, a, b) by {
        let sc = a / (CHUNK_SIZE as nat);
        let ec = ((b - 1) as nat) / (CHUNK_SIZE as nat);
        lemma_read_same(f.data, m.data, d, a, b, (ec - sc + 1) as nat);
    }
}

/// A rename keeps what the object reads: once the object at `from` is moved
/// to `to`, `from` is empty and `to` holds the same object, with the same data.
pub proof fn lemma_rename_reads_same(m: ObjModel, from: Seq<char>, to: Seq<char>)
    requires
        objects_wf(m),
        move_error(m, from, to, true) is None,
    ensures
        ({
            let f = renamed(m, from, to);
            let d = data_etag_of(m, m.locations[from].0);
            &&& !f.locations.contains_key(from)
            &&& f.locations.contains_key(to)
            &&& f.locations[to] == m.locations[from]
            &&& data_etag_of(f, m.locations[from].0) == d
            &&& same_parts(f.data, m.data, d)
            &&& forall|a: nat, b: nat| #[trigger] read_range(f.data, d, a, b) == read_range(m.data, d, a, b)
        }),
{
    let (se, sz) = m.locations[from];
    let d = data_etag_of(m, se);
    let m1 = unlocated(m, from);
    let m2 = located(m1, to, se, sz);
    let f = renamed(m, from, to);
    if m1.locations.contains_key(to) {
        let pe = m1.locations[to].0;
        assert(m.locations.contains_key(to) && m.locations[to] == m1.locations[to]);
        assert(pe != se);
        let dp = data_etag_of(m2, pe);
        assert(f == removed_object(m2, pe, m1.locations[to].1));
        if dp == d {
            lemma_two_readers_counted(m, from, to);
        }
        assert(same_parts(f.data, m.data, d)) by {
            if !m2.refcounts.contains_key(dp) {
                assert(dp != d);
                assert forall|k: u128| k / 0x1_0000_0000 == d implies (#[trigger] f.data.contains_key(k) == m.data.contains_key(k)) && (
                f.data.contains_key(k) ==> f.data[k] == m.data[k]) by {
                    assert(!part_of(k, dp, parts_of(m1.locations[to].1)));
                }
            }
        }
    } else {
        assert(f == m2);
    }
    assert forall|a: nat, b: nat| #[trigger] read_range(f.data, d, a, b) == read_range(m.data, d, a, b) by {
        let sc = a / (CHUNK_SIZE as nat);
        let ec = ((b - 1) as nat) / (CHUNK_SIZE as nat);
        lemma_read_same(f.data, m.data, d, a, b, (ec - sc + 1) as nat);
    }
}

/// Data that two paths read is counted.
proof fn lemma_two_readers_counted(m: ObjModel, p: Seq<char>, q: Seq<char>)
    requires
        objects_wf(m),
        p != q,
        m.locations.contains_key(p),
        m.locations.contains_key(q),
        data_etag_of(m, m.locations[p].0) == data_etag_of(m, m.locations[q].0),
    ensures
        m.refcounts.contains_key(data_etag_of(m, m.locations[p].0)),
{
    let d = data_etag_of(m, m.locations[p].0);
    let h = holders(m.locations, m.aliases, d);
    lemma_holder(m.locations, m.aliases, p);
    lemma_holder(m.locations, m.aliases, q);
    lemma_holders_finite(m.locations, m.aliases, d);
    vstd::set_lib::lemma_len_subset(set![p, q], h);
    assert(set![p, q].len() == 2);
    assert(count_ok(m.locations, m.aliases, m.refcounts, d));
}

/// Deleting one object leaves every other object as it was: for a path `q`
/// other than the deleted `p`, the object there keeps its etag, size and
/// description and reads the same data, and every range of that data reads
/// the same bytes, copies of the deleted object included.
pub proof fn lemma_delete_keeps_others(m: ObjModel, p: Seq<char>, q: Seq<char>)
    requires
        objects_wf(m),
        m.locations.contains_key(p),
        m.locations.contains_key(q),
        p != q,
    ensures
        ({
            let f = removed_object(unlocated(m, p), m.locations[p].0, m.locations[p].1);
            let eq = m.locations[q].0;
            let dq = data_etag_of(m, eq);
            &&& !f.locations.contains_key(p)
            &&& f.locations.contains_key(q)
            &&& f.locations[q] == m.locations[q]
            &&& data_etag_of(f, eq) == dq
            &&& f.meta.contains_key(eq) == m.meta.contains_key(eq)
            &&& f.meta[eq] == m.meta[eq]
            &&& same_parts(f.data, m.data, dq)
            &&& forall|a: nat, b: nat| #[trigger] read_range(f.data, dq, a, b) == read_range(m.data, dq, a, b)
        }),
{
    let (e, s) = m.locations[p];
    let eq = m.locations[q].0;
    let d = data_etag_of(m, e);
    let dq = data_etag_of(m, eq);
    let m1 = unlocated(m, p);
    let f = removed_object(m1, e, s);
    assert(eq != e);
    if dq == d {
        lemma_two_readers_counted(m, p, q);
    }
    assert(same_parts(f.data, m.data, dq)) by {
        if !m1.refcounts.contains_key(d) {
            assert forall|k: u128| k / 0x1_0000_0000 == dq implies (#[trigger] f.data.contains_key(k) == m.data.contains_key(k)) && (
            f.data.contains_key(k) ==> f.data[k] == m.data[k]) by {
                assert(!part_of(k, d, parts_of(s)));
            }
        }
    }
    assert forall|a: nat, b: nat| #[trigger] read_range(f.data, dq, a, b) == read_range(m.data, dq, a, b) by {
        let sc = a / (CHUNK_SIZE as nat);
        let ec = ((b - 1) as nat) / (CHUNK_SIZE as nat);
        lemma_read_same(f.data, m.data, dq, a, b, (ec - sc + 1) as nat);
    }
}

/// Deleting the last object that reads some data reclaims it: when no other
/// path reads the data of the object at `p`, deleting `p` drops all its parts.
pub proof fn lemma_delete_last_reclaims(m: ObjModel, p: Seq<char>)
    requires
        objects_wf(m),
        m.locations.contains_key(p),
        forall|q: Seq<char>| #[trigger] m.locations.contains_key(q) && q != p ==> data_etag_of(m, m.locations[q].0)
            != data_etag_of(m, m.locations[p].0),
    ensures
        ({
            let f = removed_object(unlocated(m, p), m.locations[p].0, m.locations[p].1);
            let d = data_etag_of(m, m.locations[p].0);
            &&& !f.refcounts.contains_key(d)
            &&& f.data == without_parts(m.data, d, parts_of(m.locations[p].1))
        }),
{
    let d = data_etag_of(m, m.locations[p].0);
    lemma_holder(m.locations, m.aliases, p);
    assert(holders(m.locations, m.aliases, d) =~= set![p]);
    assert(set![p].len() == 1);
    assert(count_ok(m.locations, m.aliases, m.refcounts, d));
}

/// Aborting an upload reclaims what it stored: an upload in flight is no copy
/// and no other path reads its data, so removing it drops its parts, up to
/// the last index it was sent.
pub proof fn lemma_abort_reclaims(m: ObjModel, path: Seq<char>)
    requires
        objects_wf(m),
        m.locations.contains_key(path),
        m.locations[path].1 < 0,
    ensures
        ({
            let (e, s) = m.locations[path];
            let f = removed_object(unlocated(m, path), e, s);
            &&& !f.locations.contains_key(path)
            &&& !f.uploads.contains_key(e)
            &&& data_etag_of(m, e) == e
            &&& f.data == without_parts(m.data, e, parts_of(s))
        }),
{
    let e = m.locations[path].0;
    assert(!m.aliases.contains_key(e));
    assert forall|q: Seq<char>| #[trigger] m.locations.contains_key(q) && q != path implies data_etag_of(
        m,
        m.locations[q].0,
    ) != data_etag_of(m, m.locations[path].0) by {
        assert(data_of(m.aliases, m.locations[q].0) != m.locations[path].0);
    }
    lemma_delete_last_reclaims(m, path);
}

/// A new upload is in flight at once: `path` holds the next etag with no
/// part yet, the upload is known by that etag's decimal form, it reads its
/// own data, and parts for it are taken.
pub proof fn lemma_create_in_flight(m: ObjModel, path: Seq<char>)
    requires
        objects_wf(m),
        m.next_etag < u64::MAX,
    ensures
        ({
            let e = m.next_etag;
            let m2 = dropped_prev(m, located(bumped(m), path, e, -1i64), path);
            let f = ObjModel { uploads: m2.uploads.insert(e, empty_upload()), ..m2 };
            &&& f.next_etag == e + 1
            &&& f.locations.contains_key(path)
            &&& f.locations[path] == (e, -1i64)
            &&& upload_error(f, path, decimal(e as nat)) is None
            &&& f.uploads.contains_key(e)
            &&& f.uploads[e] == empty_upload()
            &&& data_etag_of(f, e) == e
        }),
{
    let e = m.next_etag;
    assert(!m.aliases.contains_key(e));
}

/// A rename that must not overwrite is refused exactly when something is at
/// `to`, complete or in flight, and then changes nothing; otherwise it moves
/// the object.
pub proof fn lemma_rename_if_not_exists(m: ObjModel, from: Seq<char>, to: Seq<char>, r: Result<(), Error>, f: ObjModel)
    requires
        from != to,
        m.locations.contains_key(from),
        m.locations[from].1 >= 0,
        rename_outcome(m, from, to, false, r, f),
    ensures
        m.locations.contains_key(to) <==> r is Err,
        m.locations.contains_key(to) ==> (r matches Err(x) && x@ == ErrorModel::AlreadyExists { path: to } && f == m),
        !m.locations.contains_key(to) ==> f == renamed(m, from, to) && f.locations.contains_key(to) && f.locations[to]
            == m.locations[from] && !f.locations.contains_key(from),
{
}

} // verus!
