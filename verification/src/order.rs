//! A total order on sequences of `u32` (lexicographic, a proper prefix sorts first)
//! and self-delimiting encodings of strings into such sequences, so that values
//! built from strings and tags are ordered by comparing their encodings.
use vstd::prelude::*;

verus! {

/// Lexicographic order: the first differing element decides, and a proper prefix
/// comes before any of its extensions.
pub open spec fn lex_lt(a: Seq<u32>, b: Seq<u32>) -> bool
    decreases a.len(),
{
    if a.len() == 0 {
        b.len() > 0
    } else if b.len() == 0 {
        false
    } else if a[0] < b[0] {
        true
    } else if a[0] > b[0] {
        false
    } else {
        lex_lt(a.drop_first(), b.drop_first())
    }
}

pub proof fn lemma_lex_irreflexive(a: Seq<u32>)
    ensures
        !lex_lt(a, a),
    decreases a.len(),
{
    if a.len() > 0 {
        lemma_lex_irreflexive(a.drop_first());
    }
}

pub proof fn lemma_lex_asymmetric(a: Seq<u32>, b: Seq<u32>)
    requires
        lex_lt(a, b),
    ensures
        !lex_lt(b, a),
    decreases a.len(),
{
    if a.len() > 0 && b.len() > 0 && a[0] == b[0] {
        lemma_lex_asymmetric(a.drop_first(), b.drop_first());
    }
}

pub proof fn lemma_lex_transitive(a: Seq<u32>, b: Seq<u32>, c: Seq<u32>)
    requires
        lex_lt(a, b),
        lex_lt(b, c),
    ensures
        lex_lt(a, c),
    decreases a.len(),
{
    if a.len() > 0 && b.len() > 0 && c.len() > 0 && a[0] == b[0] && b[0] == c[0] {
        lemma_lex_transitive(a.drop_first(), b.drop_first(), c.drop_first());
    }
}

pub proof fn lemma_lex_total(a: Seq<u32>, b: Seq<u32>)
    requires
        a != b,
    ensures
        lex_lt(a, b) || lex_lt(b, a),
    decreases a.len(),
{
    if a.len() == 0 {
        assert(b.len() > 0) by {
            if b.len() == 0 {
                assert(a =~= b);
            }
        }
    } else if b.len() > 0 && a[0] == b[0] {
        if a.drop_first() == b.drop_first() {
            assert(a =~= seq![a[0]] + a.drop_first());
            assert(b =~= seq![b[0]] + b.drop_first());
        }
        lemma_lex_total(a.drop_first(), b.drop_first());
    }
}

/// Prepending the same prefix keeps the order.
pub proof fn lemma_lex_prefix(p: Seq<u32>, a: Seq<u32>, b: Seq<u32>)
    ensures
        lex_lt(p + a, p + b) == lex_lt(a, b),
    decreases p.len(),
{
    if p.len() > 0 {
        assert((p + a).drop_first() =~= p.drop_first() + a);
        assert((p + b).drop_first() =~= p.drop_first() + b);
        lemma_lex_prefix(p.drop_first(), a, b);
    } else {
        assert(p + a =~= a);
        assert(p + b =~= b);
    }
}

/// The outcome of comparing two keys.
#[derive(Clone, Copy, Debug, PartialEq, Eq)]
pub enum Order {
    Less,
    Equal,
    Greater,
}

/// Compares two encodings.
pub fn lex_compare(a: &Vec<u32>, b: &Vec<u32>) -> (r: Order)
    ensures
        r == Order::Less <==> lex_lt(a@, b@),
        r == Order::Greater <==> lex_lt(b@, a@),
        r == Order::Equal <==> a@ == b@,
{
    let mut i: usize = 0;
    while i < a.len() && i < b.len()
        invariant
            i <= a.len(),
            i <= b.len(),
            a@.take(i as int) == b@.take(i as int),
        decreases a.len() - i,
    {
        if a[i] < b[i] {
            proof { lemma_lex_after_common(a@, b@, i as int); }
            return Order::Less;
        }
        if a[i] > b[i] {
            proof { lemma_lex_after_common(b@, a@, i as int); }
            return Order::Greater;
        }
        assert(a@.take(i + 1) == a@.take(i as int).push(a@[i as int]));
        assert(b@.take(i + 1) == b@.take(i as int).push(b@[i as int]));
        i += 1;
    }
    proof {
        lemma_lex_common_prefix(a@, b@, i as int);
    }
    if a.len() < b.len() {
        Order::Less
    } else if a.len() > b.len() {
        Order::Greater
    } else {
        proof { lemma_lex_irreflexive(a@); }
        assert(a@ =~= a@.take(i as int));
        assert(b@ =~= b@.take(i as int));
        Order::Equal
    }
}

proof fn lemma_lex_after_common(a: Seq<u32>, b: Seq<u32>, i: int)
    requires
        0 <= i < a.len(),
        i < b.len(),
        a.take(i) == b.take(i),
        a[i] < b[i],
    ensures
        lex_lt(a, b),
        !lex_lt(b, a),
        a != b,
    decreases i,
{
    if i > 0 {
        assert(a.drop_first().take(i - 1) =~= a.take(i).drop_first());
        assert(b.drop_first().take(i - 1) =~= b.take(i).drop_first());
        assert(a[0] == a.take(i)[0]);
        assert(b[0] == b.take(i)[0]);
        lemma_lex_after_common(a.drop_first(), b.drop_first(), i - 1);
    }
}

/// When one sequence is a prefix of the other, the shorter one comes first.
proof fn lemma_lex_common_prefix(a: Seq<u32>, b: Seq<u32>, i: int)
    requires
        0 <= i <= a.len(),
        i <= b.len(),
        i == a.len() || i == b.len(),
        a.take(i) == b.take(i),
    ensures
        a.len() < b.len() ==> lex_lt(a, b) && !lex_lt(b, a),
        b.len() < a.len() ==> lex_lt(b, a) && !lex_lt(a, b),
    decreases i,
{
    if i > 0 {
        assert(a.drop_first().take(i - 1) =~= a.take(i).drop_first());
        assert(b.drop_first().take(i - 1) =~= b.take(i).drop_first());
        assert(a[0] == a.take(i)[0]);
        assert(b[0] == b.take(i)[0]);
        lemma_lex_common_prefix(a.drop_first(), b.drop_first(), i - 1);
    }
}

/// The code of one character inside an encoded string (always at least 2).
pub open spec fn char_code(c: char) -> u32 {
    ((c as int) + 2) as u32
}

pub proof fn lemma_char_code(c: char, d: char)
    ensures
        char_code(c) >= 2,
        char_code(c) == (c as int) + 2,
        char_code(c) == char_code(d) ==> c == d,
{
}

pub proof fn lemma_enc_str_first(s: Seq<char>)
    ensures
        enc_str(s).len() >= 1,
        enc_str(s)[0] >= 1,
        s.len() == 0 ==> enc_str(s)[0] == 1,
        s.len() > 0 ==> enc_str(s)[0] == char_code(s[0]),
        s.len() > 0 ==> enc_str(s)[0] >= 2,
{
    if s.len() > 0 {
        lemma_char_code(s[0], s[0]);
    }
}

/// A string encoded as its character codes followed by the terminator 1; the
/// encodings of strings sort as the strings do, and none is a prefix of another.
pub open spec fn enc_str(s: Seq<char>) -> Seq<u32> {
    s.map_values(|c: char| char_code(c)).push(1u32)
}

/// Encodings of several strings, back to back, closed by 0.
pub open spec fn enc_strs(v: Seq<Seq<char>>) -> Seq<u32>
    decreases v.len(),
{
    if v.len() == 0 {
        seq![0u32]
    } else {
        enc_str(v[0]) + enc_strs(v.drop_first())
    }
}

/// String order: the order of their encodings.
pub open spec fn str_lt(a: Seq<char>, b: Seq<char>) -> bool {
    lex_lt(enc_str(a), enc_str(b))
}

/// A string encoding can be split off the front of a longer sequence in one way only.
pub proof fn lemma_enc_str_split(s1: Seq<char>, r1: Seq<u32>, s2: Seq<char>, r2: Seq<u32>)
    requires
        enc_str(s1) + r1 == enc_str(s2) + r2,
    ensures
        s1 == s2,
        r1 == r2,
    decreases s1.len(),
{
    let e1 = enc_str(s1) + r1;
    let e2 = enc_str(s2) + r2;
    lemma_enc_str_first(s1);
    lemma_enc_str_first(s2);
    assert(e1[0] == enc_str(s1)[0]);
    assert(e2[0] == enc_str(s2)[0]);
    if s1.len() == 0 {
        assert(e1[0] == 1u32);
        if s2.len() > 0 {
            assert(e2[0] == char_code(s2[0]));
        }
        assert(s2 =~= s1);
        assert(r1 =~= e1.drop_first());
        assert(r2 =~= e2.drop_first());
    } else {
        assert(e1[0] == char_code(s1[0]));
        if s2.len() == 0 {
            assert(e2[0] == 1u32);
        }
        assert(s2.len() > 0);
        assert(e2[0] == char_code(s2[0]));
        assert(s1[0] == s2[0]) by {
            lemma_char_code(s1[0], s2[0]);
        }
        assert(enc_str(s1).drop_first() =~= enc_str(s1.drop_first()));
        assert(enc_str(s2).drop_first() =~= enc_str(s2.drop_first()));
        assert(e1.drop_first() =~= enc_str(s1.drop_first()) + r1);
        assert(e2.drop_first() =~= enc_str(s2.drop_first()) + r2);
        lemma_enc_str_split(s1.drop_first(), r1, s2.drop_first(), r2);
        assert(s1 =~= seq![s1[0]] + s1.drop_first());
        assert(s2 =~= seq![s2[0]] + s2.drop_first());
    }
}

/// `enc_str` determines the string.
pub proof fn lemma_enc_str_injective(s1: Seq<char>, s2: Seq<char>)
    requires
        enc_str(s1) == enc_str(s2),
    ensures
        s1 == s2,
{
    let e: Seq<u32> = Seq::empty();
    assert(enc_str(s1) + e =~= enc_str(s1));
    assert(enc_str(s2) + e =~= enc_str(s2));
    lemma_enc_str_split(s1, e, s2, e);
}

/// A list-of-strings encoding can be split off the front in one way only.
pub proof fn lemma_enc_strs_split(v1: Seq<Seq<char>>, r1: Seq<u32>, v2: Seq<Seq<char>>, r2: Seq<u32>)
    requires
        enc_strs(v1) + r1 == enc_strs(v2) + r2,
    ensures
        v1 == v2,
        r1 == r2,
    decreases v1.len(),
{
    let e1 = enc_strs(v1) + r1;
    let e2 = enc_strs(v2) + r2;
    if v1.len() > 0 {
        lemma_enc_str_first(v1[0]);
        assert(enc_strs(v1) =~= enc_str(v1[0]) + enc_strs(v1.drop_first()));
        assert(e1[0] == enc_str(v1[0])[0]);
    }
    if v2.len() > 0 {
        lemma_enc_str_first(v2[0]);
        assert(enc_strs(v2) =~= enc_str(v2[0]) + enc_strs(v2.drop_first()));
        assert(e2[0] == enc_str(v2[0])[0]);
    }
    if v1.len() == 0 {
        assert(e1[0] == 0u32);
        if v2.len() > 0 {
            assert(e2[0] == enc_str(v2[0])[0]);
        }
        assert(v2 =~= v1);
        assert(r1 =~= e1.drop_first());
        assert(r2 =~= e2.drop_first());
    } else {
        assert(e1[0] == enc_str(v1[0])[0]);
        if v2.len() == 0 {
            assert(e2[0] == 0u32);
        }
        assert(v2.len() > 0);
        assert(e1 =~= enc_str(v1[0]) + (enc_strs(v1.drop_first()) + r1));
        assert(e2 =~= enc_str(v2[0]) + (enc_strs(v2.drop_first()) + r2));
        lemma_enc_str_split(v1[0], enc_strs(v1.drop_first()) + r1, v2[0], enc_strs(v2.drop_first()) + r2);
        lemma_enc_strs_split(v1.drop_first(), r1, v2.drop_first(), r2);
        assert(v1 =~= seq![v1[0]] + v1.drop_first());
        assert(v2 =~= seq![v2[0]] + v2.drop_first());
    }
}

/// Encodes a string.
pub fn encode_str(out: &mut Vec<u32>, s: &String)
    ensures
        final(out)@ == old(out)@ + enc_str(s@),
{
    let cs = crate::text::chars_of(s.as_str());
    let ghost start = out@;
    for i in 0..cs.len()
        invariant
            cs@ == s@,
            out@ == start + s@.take(i as int).map_values(|c: char| char_code(c)),
    {
        let c = cs[i];
        proof { lemma_char_code(c, c); }
        let code: u32 = c as u32;
        assert(code == c as int);
        out.push(code + 2);
        assert(s@.take(i + 1).map_values(|c: char| char_code(c)) =~= s@.take(i as int).map_values(
            |c: char| char_code(c),
        ).push(char_code(c)));
    }
    out.push(1);
    assert(s@.take(cs.len() as int) =~= s@);
    assert(out@ =~= start + enc_str(s@));
}

} // verus!
