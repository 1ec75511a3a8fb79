//! Object paths: their validation and canonical form, and a map from paths to
//! objects kept in path order.
use vstd::prelude::*;
use crate::object_types::{Error, ErrorModel, MAX_PARTS};
use crate::text::{chars_of, decimal, owned, push_char, push_decimal, push_str, split_char, split_spec, str_eq, string_of_range, views};
use crate::order::{
    encode_str, lemma_enc_str_injective, lemma_lex_asymmetric, lemma_lex_irreflexive,
    lemma_lex_total, lemma_lex_transitive, lex_compare, str_lt, Order,
};

verus! {

/// Compares two strings in their order.
pub fn compare_str(a: &String, b: &String) -> (r: Order)
    ensures
        r == Order::Less <==> str_lt(a@, b@),
        r == Order::Greater <==> str_lt(b@, a@),
        r == Order::Equal <==> a@ == b@,
{
    let mut ea: Vec<u32> = Vec::new();
    encode_str(&mut ea, a);
    let mut eb: Vec<u32> = Vec::new();
    encode_str(&mut eb, b);
    assert(ea@ =~= crate::order::enc_str(a@));
    assert(eb@ =~= crate::order::enc_str(b@));
    let r = lex_compare(&ea, &eb);
    proof {
        if ea@ == eb@ {
            lemma_enc_str_injective(a@, b@);
        }
    }
    r
}

/// Whether `a` comes before `b`.
pub fn str_less(a: &String, b: &String) -> (r: bool)
    ensures
        r == str_lt(a@, b@),
{
    match compare_str(a, b) {
        Order::Less => true,
        _ => false,
    }
}

/// Strictly increasing in string order.
pub open spec fn paths_sorted(v: Seq<(String, u64, i64)>) -> bool {
    forall|i: int, j: int| 0 <= i < j < v.len() ==> str_lt(#[trigger] v[i].0@, #[trigger] v[j].0@)
}

/// Paths mapped to the etag and size of the object stored there, kept in path order.
#[derive(Debug)]
pub struct PathMap(Vec<(String, u64, i64)>);

/// The entries of a path map, in path order.
pub open spec fn entry_views(v: Seq<(String, u64, i64)>) -> Seq<(Seq<char>, u64, i64)> {
    v.map_values(|e: (String, u64, i64)| (e.0@, e.1, e.2))
}

/// Where path `k` stands among the entries `v`.
pub open spec fn index_of(v: Seq<(Seq<char>, u64, i64)>, k: Seq<char>) -> int {
    choose|i: int| 0 <= i < v.len() && v[i].0 == k
}

/// The map described by a list of entries with distinct paths.
pub open spec fn map_of(v: Seq<(Seq<char>, u64, i64)>) -> Map<Seq<char>, (u64, i64)> {
    Map::new(
        |k: Seq<char>| exists|i: int| 0 <= i < v.len() && v[i].0 == k,
        |k: Seq<char>| (v[index_of(v, k)].1, v[index_of(v, k)].2),
    )
}

/// Strictly increasing paths.
pub open spec fn sorted_views(v: Seq<(Seq<char>, u64, i64)>) -> bool {
    forall|i: int, j: int| 0 <= i < j < v.len() ==> str_lt(#[trigger] v[i].0, #[trigger] v[j].0)
}

/// In a list with distinct paths, the entry for a path is found where it stands.
pub proof fn lemma_map_of_at(v: Seq<(Seq<char>, u64, i64)>, i: int)
    requires
        sorted_views(v),
        0 <= i < v.len(),
    ensures
        map_of(v).contains_key(v[i].0),
        map_of(v)[v[i].0] == (v[i].1, v[i].2),
{
    let k = v[i].0;
    assert(exists|j: int| 0 <= j < v.len() && v[j].0 == k);
    let j = index_of(v, k);
    if j != i {
        lemma_lex_irreflexive(crate::order::enc_str(k));
        if j < i {
            assert(str_lt(v[j].0, v[i].0));
        } else {
            assert(str_lt(v[i].0, v[j].0));
        }
    }
    assert(map_of(v).dom().contains(k));
    assert(map_of(v)[k] == (v[j].1, v[j].2));
}

impl View for PathMap {
    type V = Map<Seq<char>, (u64, i64)>;

    closed spec fn view(&self) -> Map<Seq<char>, (u64, i64)> {
        map_of(entry_views(self.0@))
    }
}

impl PathMap {
    #[verifier::type_invariant]
    spec fn sorted(self) -> bool {
        paths_sorted(self.0@)
    }

    /// The entries in path order.
    pub closed spec fn entries(self) -> Seq<(Seq<char>, u64, i64)> {
        entry_views(self.0@)
    }

    /// An empty map.
    pub fn new() -> (r: PathMap)
        ensures
            r@ == Map::<Seq<char>, (u64, i64)>::empty(),
            r.entries().len() == 0,
    {
        let r = PathMap(Vec::new());
        assert(r@ =~= Map::<Seq<char>, (u64, i64)>::empty());
        r
    }
}


/// The string order is transitive.
pub proof fn lemma_str_lt_transitive(a: Seq<char>, b: Seq<char>, c: Seq<char>)
    requires
        str_lt(a, b),
        str_lt(b, c),
    ensures
        str_lt(a, c),
{
    lemma_lex_transitive(crate::order::enc_str(a), crate::order::enc_str(b), crate::order::enc_str(c));
}

/// In a sorted list, a path that sorts before all entries from `p` on, and
/// after all entries before `p`, is not among them.
proof fn lemma_absent(v: Seq<(Seq<char>, u64, i64)>, k: Seq<char>, p: int)
    requires
        sorted_views(v),
        0 <= p <= v.len(),
        forall|j: int| 0 <= j < p ==> str_lt(#[trigger] v[j].0, k),
        p < v.len() ==> str_lt(k, v[p].0),
    ensures
        !map_of(v).contains_key(k),
{
    if map_of(v).contains_key(k) {
        let j = choose|j: int| 0 <= j < v.len() && v[j].0 == k;
        lemma_lex_irreflexive(crate::order::enc_str(k));
        if j >= p {
            if j > p {
                assert(str_lt(v[p].0, v[j].0));
                lemma_str_lt_transitive(k, v[p].0, k);
            }
        }
    }
}

impl PathMap {
    /// Where `path` belongs: the number of entries before it, and whether it is present.
    fn find(&self, path: &String) -> (r: (usize, bool))
        ensures
            r.0 <= self.entries().len(),
            forall|j: int| 0 <= j < r.0 ==> str_lt(#[trigger] self.entries()[j].0, path@),
            r.1 ==> r.0 < self.entries().len() && self.entries()[r.0 as int].0 == path@,
            !r.1 ==> r.0 == self.entries().len() || str_lt(path@, self.entries()[r.0 as int].0),
    {
        let mut i: usize = 0;
        while i < self.0.len()
            invariant
                i <= self.0@.len(),
                forall|j: int| 0 <= j < i ==> str_lt(#[trigger] self.entries()[j].0, path@),
            decreases self.0@.len() - i,
        {
            match compare_str(&self.0[i].0, path) {
                Order::Less => {},
                Order::Equal => {
                    return (i, true);
                },
                Order::Greater => {
                    return (i, false);
                },
            }
            i += 1;
        }
        (i, false)
    }

    /// The sorted entries, and how they give the map.
    pub fn entries_facts(&self)
        ensures
            sorted_views(self.entries()),
            self@ == map_of(self.entries()),
    {
        proof {
            use_type_invariant(self);
        }
    }

    /// The number of entries.
    pub fn len(&self) -> (n: usize)
        ensures
            n == self.entries().len(),
    {
        self.0.len()
    }

    /// Entry `i` in path order.
    pub fn entry(&self, i: usize) -> (r: (&String, u64, i64))
        requires
            i < self.entries().len(),
        ensures
            (r.0@, r.1, r.2) == self.entries()[i as int],
    {
        let e = &self.0[i];
        (&e.0, e.1, e.2)
    }

    /// The etag and size of the object at `path`.
    pub fn get(&self, path: &String) -> (r: Option<(u64, i64)>)
        ensures
            match r {
                Some(v) => self@.contains_key(path@) && self@[path@] == v,
                None => !self@.contains_key(path@),
            },
    {
        proof {
            use_type_invariant(self);
        }
        let (i, found) = self.find(path);
        if found {
            proof {
                lemma_map_of_at(self.entries(), i as int);
            }
            Some((self.0[i].1, self.0[i].2))
        } else {
            proof {
                lemma_absent(self.entries(), path@, i as int);
            }
            None
        }
    }

    /// Stores `(etag, size)` at `path`; returns what was there.
    pub fn insert(&mut self, path: String, etag: u64, size: i64) -> (r: Option<(u64, i64)>)
        ensures
            final(self)@ == old(self)@.insert(path@, (etag, size)),
            match r {
                Some(v) => old(self)@.contains_key(path@) && old(self)@[path@] == v,
                None => !old(self)@.contains_key(path@),
            },
    {
        proof {
            use_type_invariant(&*self);
        }
        let (i, found) = self.find(&path);
        let ghost old_e = self.entries();
        let ghost k = path@;
        let mut v: Vec<(String, u64, i64)> = Vec::new();
        std::mem::swap(&mut v, &mut self.0);
        if found {
            let prev = (v[i].1, v[i].2);
            proof {
                lemma_map_of_at(old_e, i as int);
            }
            v.set(i, (path, etag, size));
            let ghost new_e = entry_views(v@);
            assert(new_e =~= old_e.update(i as int, (k, etag, size)));
            assert(paths_sorted(v@)) by {
                assert forall|a: int, b: int| 0 <= a < b < v@.len() implies str_lt(#[trigger] v@[a].0@, #[trigger] v@[b].0@) by {
                    assert(old_e[a].0 == new_e[a].0 && old_e[b].0 == new_e[b].0);
                }
            }
            self.0 = v;
            proof {
                assert(sorted_views(new_e));
                assert forall|q: Seq<char>| #[trigger] map_of(new_e).contains_key(q) == old(self)@.insert(k, (etag, size)).contains_key(q) by {
                    if map_of(new_e).contains_key(q) {
                        let j = choose|j: int| 0 <= j < new_e.len() && new_e[j].0 == q;
                        if q != k {
                            assert(old_e[j].0 == q);
                        }
                    }
                    if q != k && map_of(old_e).contains_key(q) {
                        let j = choose|j: int| 0 <= j < old_e.len() && old_e[j].0 == q;
                        assert(new_e[j].0 == q);
                    }
                    if q == k {
                        assert(new_e[i as int].0 == q);
                    }
                }
                assert forall|q: Seq<char>| #[trigger] map_of(new_e).contains_key(q) implies map_of(new_e)[q]
                    == old(self)@.insert(k, (etag, size))[q] by {
                    let j = choose|j: int| 0 <= j < new_e.len() && new_e[j].0 == q;
                    lemma_map_of_at(new_e, j);
                    assert(sorted_views(old_e));
                    assert(old(self)@ == map_of(old_e));
                    if q != k {
                        assert(old_e[j] == new_e[j]);
                        lemma_map_of_at(old_e, j);
                    } else {
                        lemma_map_of_at(new_e, i as int);
                    }
                }
                assert(self@ =~= old(self)@.insert(k, (etag, size)));
            }
            Some(prev)
        } else {
            proof {
                lemma_absent(old_e, k, i as int);
            }
            v.insert(i, (path, etag, size));
            let ghost new_e = entry_views(v@);
            assert(new_e =~= old_e.insert(i as int, (k, etag, size)));
            assert(paths_sorted(v@)) by {
                assert forall|a: int, b: int| 0 <= a < b < v@.len() implies str_lt(#[trigger] v@[a].0@, #[trigger] v@[b].0@) by {
                    assert(new_e[a].0 == v@[a].0@ && new_e[b].0 == v@[b].0@);
                    if b < i {
                        assert(old_e[a].0 == new_e[a].0 && old_e[b].0 == new_e[b].0);
                    } else if b == i {
                        assert(old_e[a].0 == new_e[a].0);
                    } else if a == i {
                        assert(old_e[b - 1].0 == new_e[b].0);
                        if b - 1 > i {
                            assert(str_lt(old_e[i as int].0, old_e[b - 1].0));
                            lemma_str_lt_transitive(k, old_e[i as int].0, old_e[b - 1].0);
                        }
                    } else if a < i {
                        assert(old_e[a].0 == new_e[a].0 && old_e[b - 1].0 == new_e[b].0);
                        assert(str_lt(old_e[a].0, k));
                        if b - 1 > i {
                            assert(str_lt(old_e[i as int].0, old_e[b - 1].0));
                            lemma_str_lt_transitive(k, old_e[i as int].0, old_e[b - 1].0);
                        }
                        lemma_str_lt_transitive(old_e[a].0, k, old_e[b - 1].0);
                    } else {
                        assert(old_e[a - 1].0 == new_e[a].0 && old_e[b - 1].0 == new_e[b].0);
                    }
                }
            }
            self.0 = v;
            proof {
                assert(sorted_views(new_e));
                assert forall|q: Seq<char>| #[trigger] map_of(new_e).contains_key(q) == old(self)@.insert(k, (etag, size)).contains_key(q) by {
                    if map_of(new_e).contains_key(q) {
                        let j = choose|j: int| 0 <= j < new_e.len() && new_e[j].0 == q;
                        if j < i {
                            assert(old_e[j].0 == q);
                        } else if j > i {
                            assert(old_e[j - 1].0 == q);
                        }
                    }
                    if map_of(old_e).contains_key(q) {
                        let j = choose|j: int| 0 <= j < old_e.len() && old_e[j].0 == q;
                        if j < i {
                            assert(new_e[j].0 == q);
                        } else {
                            assert(new_e[j + 1].0 == q);
                        }
                    }
                    if q == k {
                        assert(new_e[i as int].0 == q);
                    }
                }
                assert forall|q: Seq<char>| #[trigger] map_of(new_e).contains_key(q) implies map_of(new_e)[q]
                    == old(self)@.insert(k, (etag, size))[q] by {
                    let j = choose|j: int| 0 <= j < new_e.len() && new_e[j].0 == q;
                    lemma_map_of_at(new_e, j);
                    lemma_lex_irreflexive(crate::order::enc_str(q));
                    assert(sorted_views(old_e));
                    assert(old(self)@ == map_of(old_e));
                    if j < i {
                        assert(str_lt(new_e[j].0, new_e[i as int].0));
                        assert(old_e[j] == new_e[j]);
                        lemma_map_of_at(old_e, j);
                        assert(q != k);
                        assert(map_of(old_e)[q] == (old_e[j].1, old_e[j].2));
                        assert(map_of(new_e)[q] == (new_e[j].1, new_e[j].2));
                        assert(map_of(new_e)[q] == old(self)@.insert(k, (etag, size))[q]);
                    } else if j > i {
                        assert(str_lt(new_e[i as int].0, new_e[j].0));
                        assert(old_e[j - 1] == new_e[j]);
                        lemma_map_of_at(old_e, j - 1);
                        assert(q != k);
                        assert(map_of(old_e)[q] == (old_e[j - 1].1, old_e[j - 1].2));
                        assert(map_of(new_e)[q] == (new_e[j].1, new_e[j].2));
                        assert(map_of(new_e)[q] == old(self)@.insert(k, (etag, size))[q]);
                    } else {
                        assert(q == k);
                        assert(new_e[j] == (k, etag, size));
                        assert(map_of(new_e)[q] == (new_e[j].1, new_e[j].2));
                        assert(map_of(new_e)[q] == old(self)@.insert(k, (etag, size))[q]);
                    }
                }
                assert(self@ =~= old(self)@.insert(k, (etag, size)));
            }
            None
        }
    }

    /// Drops the entry at `path`; returns what was there.
    pub fn remove(&mut self, path: &String) -> (r: Option<(u64, i64)>)
        ensures
            final(self)@ == old(self)@.remove(path@),
            match r {
                Some(v) => old(self)@.contains_key(path@) && old(self)@[path@] == v,
                None => !old(self)@.contains_key(path@),
            },
    {
        proof {
            use_type_invariant(&*self);
        }
        let (i, found) = self.find(path);
        let ghost old_e = self.entries();
        let ghost k = path@;
        if !found {
            proof {
                lemma_absent(old_e, k, i as int);
                assert(old(self)@.remove(k) =~= old(self)@);
            }
            return None;
        }
        proof {
            lemma_map_of_at(old_e, i as int);
        }
        let mut v: Vec<(String, u64, i64)> = Vec::new();
        std::mem::swap(&mut v, &mut self.0);
        let e = v.remove(i);
        let ghost new_e = entry_views(v@);
        assert(new_e =~= old_e.remove(i as int));
        assert(paths_sorted(v@)) by {
            assert forall|a: int, b: int| 0 <= a < b < v@.len() implies str_lt(#[trigger] v@[a].0@, #[trigger] v@[b].0@) by {
                assert(new_e[a].0 == v@[a].0@ && new_e[b].0 == v@[b].0@);
                if b < i {
                    assert(old_e[a].0 == new_e[a].0 && old_e[b].0 == new_e[b].0);
                } else if a < i {
                    assert(old_e[a].0 == new_e[a].0 && old_e[b + 1].0 == new_e[b].0);
                } else {
                    assert(old_e[a + 1].0 == new_e[a].0 && old_e[b + 1].0 == new_e[b].0);
                }
            }
        }
        self.0 = v;
        proof {
            assert(sorted_views(new_e));
            assert forall|q: Seq<char>| #[trigger] map_of(new_e).contains_key(q) == old(self)@.remove(k).contains_key(q) by {
                if map_of(new_e).contains_key(q) {
                    let j = choose|j: int| 0 <= j < new_e.len() && new_e[j].0 == q;
                    if j < i {
                        assert(old_e[j].0 == q);
                        assert(str_lt(old_e[j].0, old_e[i as int].0));
                    } else {
                        assert(old_e[j + 1].0 == q);
                        assert(str_lt(old_e[i as int].0, old_e[j + 1].0));
                    }
                    lemma_lex_irreflexive(crate::order::enc_str(q));
                }
                if q != k && map_of(old_e).contains_key(q) {
                    let j = choose|j: int| 0 <= j < old_e.len() && old_e[j].0 == q;
                    if j < i {
                        assert(new_e[j].0 == q);
                    } else {
                        assert(j != i);
                        assert(new_e[j - 1].0 == q);
                    }
                }
            }
            assert forall|q: Seq<char>| #[trigger] map_of(new_e).contains_key(q) implies map_of(new_e)[q]
                == old(self)@.remove(k)[q] by {
                let j = choose|j: int| 0 <= j < new_e.len() && new_e[j].0 == q;
                lemma_map_of_at(new_e, j);
                if j < i {
                    assert(old_e[j] == new_e[j]);
                    lemma_map_of_at(old_e, j);
                } else {
                    assert(old_e[j + 1] == new_e[j]);
                    lemma_map_of_at(old_e, j + 1);
                }
            }
            assert(self@ =~= old(self)@.remove(k));
        }
        Some((e.1, e.2))
    }

    /// Drops every entry.
    pub fn clear(&mut self)
        ensures
            final(self)@ == Map::<Seq<char>, (u64, i64)>::empty(),
            final(self).entries().len() == 0,
    {
        self.0 = Vec::new();
        assert(self@ =~= Map::<Seq<char>, (u64, i64)>::empty());
    }
}


/// `s` without one leading `/`.
pub open spec fn strip_lead(s: Seq<char>) -> Seq<char> {
    if s.len() > 0 && s[0] == '/' { s.drop_first() } else { s }
}

/// `s` without one trailing `/`.
pub open spec fn strip_trail(s: Seq<char>) -> Seq<char> {
    if s.len() > 0 && s.last() == '/' { s.drop_last() } else { s }
}

/// A path without one leading and one trailing `/`, as objects are listed by.
pub open spec fn canonical(s: Seq<char>) -> Seq<char> {
    strip_trail(strip_lead(s))
}

/// An ASCII control character.
pub open spec fn is_control(c: char) -> bool {
    (c as u32) < 0x20 || (c as u32) == 0x7f
}

/// A segment of a path that is refused: empty, `.`, `..`, or holding a control character.
pub open spec fn bad_segment(g: Seq<char>) -> bool {
    g.len() == 0 || g == "."@ || g == ".."@ || exists|i: int| 0 <= i < g.len() && is_control(#[trigger] g[i])
}

/// Whether `path` is a valid object path.
pub open spec fn path_ok(path: Seq<char>) -> bool {
    let s = strip_lead(path);
    s.len() == 0 || forall|i: int| 0 <= i < split_spec(canonical(path), '/').len() ==> !bad_segment(
        #[trigger] split_spec(canonical(path), '/')[i],
    )
}

/// Whether a segment is refused.
fn segment_bad(g: &String) -> (r: bool)
    ensures
        r == bad_segment(g@),
{
    proof {
        reveal_strlit(".");
        reveal_strlit("..");
    }
    let cs = chars_of(g.as_str());
    if cs.len() == 0 || str_eq(g.as_str(), ".") || str_eq(g.as_str(), "..") {
        return true;
    }
    let mut i: usize = 0;
    while i < cs.len()
        invariant
            cs@ == g@,
            i <= cs@.len(),
            forall|j: int| 0 <= j < i ==> !is_control(#[trigger] g@[j]),
        decreases cs@.len() - i,
    {
        let u = cs[i] as u32;
        if u < 0x20 || u == 0x7f {
            assert(is_control(g@[i as int]));
            return true;
        }
        i += 1;
    }
    false
}

/// `path` without one leading and one trailing `/`.
pub fn canonical_path(path: &str) -> (r: String)
    ensures
        r@ == canonical(path@),
{
    let cs = chars_of(path);
    let mut a: usize = 0;
    let mut b: usize = cs.len();
    if b > 0 && cs[0] == '/' {
        a = 1;
    }
    if b > a && cs[b - 1] == '/' {
        b = b - 1;
    }
    proof {
        let s1 = strip_lead(path@);
        assert(s1 =~= path@.subrange(a as int, path@.len() as int));
        assert(canonical(path@) =~= path@.subrange(a as int, b as int));
    }
    string_of_range(&cs, a, b)
}

/// Checks an object path; gives it without one leading and one trailing `/`.
pub fn parse_path(path: &str) -> (r: Result<String, Error>)
    ensures
        path_ok(path@) ==> (r matches Ok(p) && p@ == canonical(path@)),
        !path_ok(path@) ==> (r matches Err(e) && e@ == ErrorModel::InvalidPath { path: path@ }),
{
    let c = canonical_path(path);
    let cs = chars_of(path);
    if cs.len() == 0 || (cs.len() == 1 && cs[0] == '/') {
        assert(strip_lead(path@).len() == 0);
        return Ok(c);
    }
    assert(strip_lead(path@).len() != 0);
    let segments = split_char(c.as_str(), '/');
    let mut i: usize = 0;
    while i < segments.len()
        invariant
            strip_lead(path@).len() != 0,
            views(segments@) == split_spec(canonical(path@), '/'),
            i <= segments@.len(),
            forall|j: int| 0 <= j < i ==> !bad_segment(#[trigger] split_spec(canonical(path@), '/')[j]),
        decreases segments@.len() - i,
    {
        assert(views(segments@)[i as int] == segments@[i as int]@);
        if segment_bad(&segments[i]) {
            assert(bad_segment(split_spec(canonical(path@), '/')[i as int]));
            return Err(Error::InvalidPath { path: owned(path) });
        }
        i += 1;
    }
    Ok(c)
}

/// Checks an optional listing prefix: none is the empty prefix.
pub fn parse_prefix(prefix: Option<String>) -> (r: Result<String, Error>)
    ensures
        match prefix {
            None => r matches Ok(p) && p@.len() == 0,
            Some(x) => (path_ok(x@) ==> (r matches Ok(p) && p@ == canonical(x@))) && (!path_ok(x@) ==> (r matches Err(
                e,
            ) && e@ == ErrorModel::InvalidPath { path: x@ })),
        },
{
    match prefix {
        Some(p) => parse_path(p.as_str()),
        None => Ok(String::new()),
    }
}

/// Checks that `from` and `to` are distinct valid paths.
pub fn validate_distinct_paths(from: &str, to: &str) -> (r: Result<(), Error>)
    ensures
        from@ == to@ ==> (r matches Err(e) && e@ == ErrorModel::Precondition {
            path: from@,
            error: "location 'to' is equal to 'from'"@,
        }),
        from@ != to@ && !path_ok(from@) ==> (r matches Err(e) && e@ == ErrorModel::InvalidPath { path: from@ }),
        from@ != to@ && path_ok(from@) && !path_ok(to@) ==> (r matches Err(e) && e@ == ErrorModel::InvalidPath {
            path: to@,
        }),
        from@ != to@ && path_ok(from@) && path_ok(to@) ==> r is Ok,
{
    if str_eq(from, to) {
        return Err(Error::Precondition { path: owned(from), error: owned("location 'to' is equal to 'from'") });
    }
    parse_path(from)?;
    parse_path(to)?;
    Ok(())
}

/// Checks a part index against the most parts an object can have.
pub fn validate_part_idx(path: &str, part_idx: u64) -> (r: Result<u32, Error>)
    ensures
        part_idx < MAX_PARTS ==> r == Ok::<u32, Error>(part_idx as u32),
        part_idx >= MAX_PARTS ==> (r matches Err(e) && e@ == ErrorModel::Precondition {
            path: path@,
            error: "part index "@ + decimal(part_idx as nat) + " exceeds max index "@ + decimal(
                (MAX_PARTS - 1) as nat,
            ),
        }),
{
    if part_idx >= MAX_PARTS {
        let mut e = owned("part index ");
        push_decimal(&mut e, part_idx);
        push_str(&mut e, " exceeds max index ");
        push_decimal(&mut e, MAX_PARTS - 1);
        return Err(Error::Precondition { path: owned(path), error: e });
    }
    Ok(part_idx as u32)
}

/// Where the descendants of `prefix` start: nothing for the empty prefix,
/// else the prefix and a `/`.
pub fn descendant_start(prefix: &str) -> (r: String)
    ensures
        r@ == (if prefix@.len() == 0 { Seq::<char>::empty() } else { prefix@.push('/') }),
{
    let cs = chars_of(prefix);
    if cs.len() == 0 {
        String::new()
    } else {
        let mut start = owned(prefix);
        push_char(&mut start, '/');
        start
    }
}


/// The paths of the entries, in order.
pub open spec fn keys_of(v: Seq<(Seq<char>, u64, i64)>) -> Seq<Seq<char>> {
    v.map_values(|e: (Seq<char>, u64, i64)| e.0)
}

/// A map given by sorted entries has their paths as its keys, as many as entries.
pub proof fn lemma_map_of_len(v: Seq<(Seq<char>, u64, i64)>)
    requires
        sorted_views(v),
    ensures
        map_of(v).dom() == keys_of(v).to_set(),
        map_of(v).dom().finite(),
        map_of(v).dom().len() == v.len(),
{
    let ks = keys_of(v);
    assert forall|k: Seq<char>| #[trigger] map_of(v).dom().contains(k) == ks.to_set().contains(k) by {
        if map_of(v).dom().contains(k) {
            let i = choose|i: int| 0 <= i < v.len() && v[i].0 == k;
            assert(ks[i] == k);
        }
        if ks.to_set().contains(k) {
            let i = choose|i: int| 0 <= i < ks.len() && ks[i] == k;
            assert(v[i].0 == k);
        }
    }
    assert(map_of(v).dom() =~= ks.to_set());
    assert(ks.no_duplicates()) by {
        assert forall|i: int, j: int| 0 <= i < ks.len() && 0 <= j < ks.len() && i != j implies ks[i] != ks[j] by {
            lemma_lex_irreflexive(crate::order::enc_str(ks[i]));
            if i < j {
                assert(str_lt(v[i].0, v[j].0));
            } else {
                assert(str_lt(v[j].0, v[i].0));
            }
        }
    }
    ks.unique_seq_to_set();
}

impl PathMap {
    /// The paths, in order.
    pub fn keys(&self) -> (r: Vec<String>)
        ensures
            views(r@) == keys_of(self.entries()),
    {
        let mut r: Vec<String> = Vec::new();
        for i in 0..self.0.len()
            invariant
                views(r@) == keys_of(self.entries()).take(i as int),
        {
            r.push(self.0[i].0.clone());
            assert(keys_of(self.entries()).take(i + 1) =~= keys_of(self.entries()).take(i as int).push(self.0@[i as int].0@));
            assert(views(r@) =~= keys_of(self.entries()).take(i as int).push(self.0@[i as int].0@));
        }
        assert(keys_of(self.entries()).take(self.0@.len() as int) =~= keys_of(self.entries()));
        r
    }
}

} // verus!
