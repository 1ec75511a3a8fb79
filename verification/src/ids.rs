//! A set of ids kept in increasing order, as folders hold their children.
use vstd::prelude::*;

verus! {

/// Strictly increasing.
pub open spec fn increasing(v: Seq<u32>) -> bool {
    forall|i: int, j: int| 0 <= i < j < v.len() ==> v[i] < v[j]
}

/// The ids of a finite set in increasing order.
pub open spec fn ordered(s: Set<u32>) -> Seq<u32> {
    choose|v: Seq<u32>| increasing(v) && v.to_set() == s
}

/// Two increasing sequences with the same elements are equal.
pub proof fn lemma_increasing_unique(a: Seq<u32>, b: Seq<u32>)
    requires
        increasing(a),
        increasing(b),
        a.to_set() == b.to_set(),
    ensures
        a == b,
    decreases a.len(),
{
    lemma_increasing_len(a);
    lemma_increasing_len(b);
    if a.len() > 0 {
        let x = a.last();
        let y = b.last();
        assert(a.contains(x));
        assert(b.contains(y));
        assert(b.to_set().contains(x));
        assert(a.to_set().contains(y));
        let i = choose|i: int| 0 <= i < b.len() && b[i] == x;
        let j = choose|j: int| 0 <= j < a.len() && a[j] == y;
        assert(x == y) by {
            if i < b.len() - 1 {
                assert(b[i] < b[b.len() - 1]);
                assert(a[j] <= a[a.len() - 1]);
            }
            if j < a.len() - 1 {
                assert(a[j] < a[a.len() - 1]);
            }
        }
        let a2 = a.drop_last();
        let b2 = b.drop_last();
        assert(a =~= a2.push(x));
        assert(b =~= b2.push(x));
        assert(a2.to_set() =~= b2.to_set()) by {
            assert forall|z: u32| a2.contains(z) <==> b2.contains(z) by {
                if a2.contains(z) {
                    let k = choose|k: int| 0 <= k < a2.len() && a2[k] == z;
                    assert(a[k] < a[a.len() - 1]);
                    assert(a.contains(z));
                    assert(b.to_set().contains(z));
                    let l = choose|l: int| 0 <= l < b.len() && b[l] == z;
                    assert(l != b.len() - 1);
                    assert(b2[l] == z);
                }
                if b2.contains(z) {
                    let k = choose|k: int| 0 <= k < b2.len() && b2[k] == z;
                    assert(b[k] < b[b.len() - 1]);
                    assert(b.contains(z));
                    assert(a.to_set().contains(z));
                    let l = choose|l: int| 0 <= l < a.len() && a[l] == z;
                    assert(l != a.len() - 1);
                    assert(a2[l] == z);
                }
            }
        }
        lemma_increasing_unique(a2, b2);
    } else {
        assert(b.len() == 0);
        assert(a =~= b);
    }
}

/// A set of ids, kept in increasing order.
#[derive(Debug)]
pub struct IdSet(Vec<u32>);

impl View for IdSet {
    type V = Set<u32>;

    closed spec fn view(&self) -> Set<u32> {
        self.0@.to_set()
    }
}

impl IdSet {
    #[verifier::type_invariant]
    spec fn sorted(self) -> bool {
        increasing(self.0@)
    }

    /// The ids in increasing order.
    pub closed spec fn seq(self) -> Seq<u32> {
        self.0@
    }

    /// States how the ordered ids relate to the set.
    pub fn seq_facts(&self)
        ensures
            increasing(self.seq()),
            self.seq().to_set() == self@,
            self.seq().len() == self@.len(),
            self.seq() == ordered(self@),
            forall|x: u32| #[trigger] self@.contains(x) <==> self.seq().contains(x),
    {
        proof {
            use_type_invariant(self);
            lemma_increasing_len(self.0@);
            let v = ordered(self@);
            assert(increasing(self.0@) && self.0@.to_set() == self@);
            lemma_increasing_unique(v, self.0@);
        }
    }

    /// The empty set.
    pub fn new() -> (r: IdSet)
        ensures
            r@ == Set::<u32>::empty(),
            r.seq() == Seq::<u32>::empty(),
    {
        let r = IdSet(Vec::new());
        assert(r.0@.to_set() =~= Set::<u32>::empty());
        r
    }

    /// The number of ids.
    pub fn len(&self) -> (n: usize)
        ensures
            n == self@.len(),
    {
        proof {
            use_type_invariant(self);
            lemma_increasing_len(self.0@);
        }
        self.0.len()
    }

    /// Whether there is no id.
    pub fn is_empty(&self) -> (b: bool)
        ensures
            b == (self@.len() == 0),
    {
        self.len() == 0
    }

    /// Where `x` belongs: the number of ids below it, and whether it is present.
    fn position(&self, x: u32) -> (r: (usize, bool))
        ensures
            r.0 <= self.0@.len(),
            forall|k: int| 0 <= k < r.0 ==> self.0@[k] < x,
            r.1 ==> r.0 < self.0@.len() && self.0@[r.0 as int] == x,
            !r.1 ==> r.0 == self.0@.len() || x < self.0@[r.0 as int],
    {
        let mut i: usize = 0;
        while i < self.0.len()
            invariant
                0 <= i <= self.0@.len(),
                forall|k: int| 0 <= k < i ==> self.0@[k] < x,
            decreases self.0@.len() - i,
        {
            if self.0[i] == x {
                return (i, true);
            }
            if self.0[i] > x {
                return (i, false);
            }
            i += 1;
        }
        (i, false)
    }

    /// Whether `x` is in the set.
    pub fn contains(&self, x: u32) -> (b: bool)
        ensures
            b == self@.contains(x),
    {
        let (i, found) = self.position(x);
        proof {
            if found {
                assert(self.0@.contains(x));
            } else if self.0@.contains(x) {
                use_type_invariant(self);
                let k = choose|k: int| 0 <= k < self.0@.len() && self.0@[k] == x;
                if k >= i {
                    assert(k == i || self.0@[i as int] < self.0@[k]);
                }
            }
        }
        found
    }

    /// Adds `x`; returns whether it was absent.
    pub fn insert(&mut self, x: u32) -> (b: bool)
        ensures
            final(self)@ == old(self)@.insert(x),
            b == !old(self)@.contains(x),
    {
        proof {
            use_type_invariant(&*self);
        }
        let (i, found) = self.position(x);
        if found {
            assert(self.0@.contains(x));
            assert(self@ =~= old(self)@.insert(x));
            return false;
        }
        let ghost old_v = self.0@;
        proof {
            if old_v.contains(x) {
                let k = choose|k: int| 0 <= k < old_v.len() && old_v[k] == x;
                if k >= i {
                    assert(k == i || old_v[i as int] < old_v[k]);
                }
            }
        }
        let mut v: Vec<u32> = Vec::new();
        std::mem::swap(&mut v, &mut self.0);
        v.insert(i, x);
        assert(v@ =~= old_v.insert(i as int, x));
        assert(increasing(v@)) by {
            assert forall|a: int, b: int| 0 <= a < b < v@.len() implies v@[a] < v@[b] by {
                if b < i {
                } else if b == i {
                } else if a == i {
                    assert(old_v[i as int] <= old_v[b - 1]);
                } else if a < i {
                    assert(old_v[i as int] <= old_v[b - 1]);
                }
            }
        }
        self.0 = v;
        assert(self.0@.to_set() =~= old_v.to_set().insert(x)) by {
            assert forall|y: u32| self.0@.contains(y) <==> (old_v.contains(y) || y == x) by {
                if old_v.contains(y) {
                    let k = choose|k: int| 0 <= k < old_v.len() && old_v[k] == y;
                    if k < i {
                        assert(self.0@[k] == y);
                    } else {
                        assert(self.0@[k + 1] == y);
                    }
                }
                if y == x {
                    assert(self.0@[i as int] == y);
                }
                if self.0@.contains(y) {
                    let k = choose|k: int| 0 <= k < self.0@.len() && self.0@[k] == y;
                    if k < i {
                        assert(old_v[k] == y);
                    } else if k > i {
                        assert(old_v[k - 1] == y);
                    }
                }
            }
        }
        true
    }

    /// Removes `x`; returns whether it was present.
    pub fn remove(&mut self, x: u32) -> (b: bool)
        ensures
            final(self)@ == old(self)@.remove(x),
            b == old(self)@.contains(x),
    {
        proof {
            use_type_invariant(&*self);
        }
        let (i, found) = self.position(x);
        let ghost old_v = self.0@;
        if !found {
            proof {
                if old_v.contains(x) {
                    let k = choose|k: int| 0 <= k < old_v.len() && old_v[k] == x;
                    if k >= i {
                        assert(k == i || old_v[i as int] < old_v[k]);
                    }
                }
            }
            assert(self@ =~= old(self)@.remove(x));
            return false;
        }
        let mut v: Vec<u32> = Vec::new();
        std::mem::swap(&mut v, &mut self.0);
        v.remove(i);
        assert(v@ =~= old_v.remove(i as int));
        assert(increasing(v@)) by {
            assert forall|a: int, b: int| 0 <= a < b < v@.len() implies v@[a] < v@[b] by {
                if b < i {
                } else if a < i {
                    assert(old_v[a] < old_v[b + 1]);
                } else {
                    assert(old_v[a + 1] < old_v[b + 1]);
                }
            }
        }
        self.0 = v;
        assert(self.0@.to_set() =~= old_v.to_set().remove(x)) by {
            assert forall|y: u32| self.0@.contains(y) <==> (old_v.contains(y) && y != x) by {
                if old_v.contains(y) && y != x {
                    let k = choose|k: int| 0 <= k < old_v.len() && old_v[k] == y;
                    if k < i {
                        assert(self.0@[k] == y);
                    } else {
                        assert(k != i);
                        assert(self.0@[k - 1] == y);
                    }
                }
                if self.0@.contains(y) {
                    let k = choose|k: int| 0 <= k < self.0@.len() && self.0@[k] == y;
                    if k < i {
                        assert(old_v[k] == y);
                        assert(old_v[k] < old_v[i as int]);
                    } else {
                        assert(old_v[k + 1] == y);
                        assert(old_v[i as int] < old_v[k + 1]);
                    }
                }
            }
        }
        true
    }

    /// The ids below `bound`, largest first.
    pub fn below_desc(&self, bound: u32) -> (r: Vec<u32>)
        ensures
            r@ == desc_below(self.seq(), bound),
    {
        let mut r: Vec<u32> = Vec::new();
        let mut i: usize = self.0.len();
        proof {
            lemma_desc_below_skip(self.0@, bound, self.0@.len() as int);
        }
        while i > 0
            invariant
                i <= self.0@.len(),
                r@ == desc_below(self.0@.skip(i as int), bound),
            decreases i,
        {
            i -= 1;
            let x = self.0[i];
            assert(self.0@.skip(i as int) =~= seq![x] + self.0@.skip(i + 1));
            proof {
                lemma_desc_below_cons(x, self.0@.skip(i + 1), bound);
            }
            if x < bound {
                r.push(x);
            }
        }
        assert(self.0@.skip(0) =~= self.0@);
        r
    }

    /// A copy of the set.
    pub fn copy(&self) -> (r: IdSet)
        ensures
            r@ == self@,
            r.seq() == self.seq(),
    {
        proof {
            use_type_invariant(self);
        }
        IdSet(self.0.clone())
    }

    /// The ids in increasing order.
    pub fn to_vec(&self) -> (r: Vec<u32>)
        ensures
            r@ == self.seq(),
    {
        self.0.clone()
    }
}

/// The distinct ids of `v` in increasing order, as a set of them walks them.
pub fn sorted_distinct(v: &Vec<u32>) -> (r: Vec<u32>)
    ensures
        r@ == ordered(v@.to_set()),
{
    let mut set = IdSet::new();
    let mut i: usize = 0;
    while i < v.len()
        invariant
            i <= v.len(),
            set@ == v@.take(i as int).to_set(),
        decreases v.len() - i,
    {
        set.insert(v[i]);
        assert(v@.take(i + 1) =~= v@.take(i as int).push(v@[i as int]));
        proof {
            let a = v@.take(i as int);
            let b = v@.take(i + 1);
            assert forall|x: u32| b.to_set().contains(x) <==> a.to_set().insert(v@[i as int]).contains(x) by {
                if b.contains(x) {
                    let k = choose|k: int| 0 <= k < b.len() && b[k] == x;
                    if k < i {
                        assert(a[k] == x);
                    }
                }
                if a.contains(x) {
                    let k = choose|k: int| 0 <= k < a.len() && a[k] == x;
                    assert(b[k] == x);
                }
                if x == v@[i as int] {
                    assert(b[i as int] == x);
                }
            }
            assert(b.to_set() =~= a.to_set().insert(v@[i as int]));
        }
        i += 1;
    }
    assert(v@.take(v.len() as int) =~= v@);
    set.seq_facts();
    set.to_vec()
}

/// The elements of `v` below `bound`, in reverse order.
pub open spec fn desc_below(v: Seq<u32>, bound: u32) -> Seq<u32>
    decreases v.len(),
{
    if v.len() == 0 {
        Seq::empty()
    } else {
        let rest = desc_below(v.drop_first(), bound);
        if v[0] < bound {
            rest.push(v[0])
        } else {
            rest
        }
    }
}

/// The ids below a bound are ids of the sequence.
pub proof fn lemma_desc_below_members(v: Seq<u32>, bound: u32)
    ensures
        forall|j: int| 0 <= j < desc_below(v, bound).len() ==> v.contains(#[trigger] desc_below(v, bound)[j]),
    decreases v.len(),
{
    if v.len() > 0 {
        lemma_desc_below_members(v.drop_first(), bound);
        let rest = desc_below(v.drop_first(), bound);
        assert forall|j: int| 0 <= j < desc_below(v, bound).len() implies v.contains(
            #[trigger] desc_below(v, bound)[j],
        ) by {
            if j < rest.len() {
                assert(v.drop_first().contains(rest[j]));
                let k = choose|k: int| 0 <= k < v.drop_first().len() && v.drop_first()[k] == rest[j];
                assert(v[k + 1] == rest[j]);
            } else {
                assert(v[0] == desc_below(v, bound)[j]);
            }
        }
    }
}

proof fn lemma_desc_below_cons(x: u32, v: Seq<u32>, bound: u32)
    ensures
        desc_below(seq![x] + v, bound) == (if x < bound { desc_below(v, bound).push(x) } else { desc_below(v, bound) }),
{
    assert((seq![x] + v).drop_first() =~= v);
}

proof fn lemma_desc_below_skip(v: Seq<u32>, bound: u32, n: int)
    requires
        n == v.len(),
    ensures
        desc_below(v.skip(n), bound) == Seq::<u32>::empty(),
{
    assert(v.skip(n) =~= Seq::<u32>::empty());
}

proof fn lemma_increasing_len(v: Seq<u32>)
    requires
        increasing(v),
    ensures
        v.to_set().len() == v.len(),
    decreases v.len(),
{
    if v.len() > 0 {
        let w = v.drop_last();
        lemma_increasing_len(w);
        assert(!w.contains(v.last())) by {
            if w.contains(v.last()) {
                let k = choose|k: int| 0 <= k < w.len() && w[k] == v.last();
                assert(v[k] < v[v.len() - 1]);
            }
        }
        assert(v.to_set() =~= w.to_set().insert(v.last())) by {
            assert(v =~= w.push(v.last()));
            assert forall|y: u32| v.contains(y) <==> (w.contains(y) || y == v.last()) by {
                if v.contains(y) {
                    let k = choose|k: int| 0 <= k < v.len() && v[k] == y;
                    if k < v.len() - 1 {
                        assert(w[k] == y);
                    }
                }
                if w.contains(y) {
                    let k = choose|k: int| 0 <= k < w.len() && w[k] == y;
                    assert(v[k] == y);
                }
            }
        }

    } else {
        assert(v.to_set() =~= Set::<u32>::empty());
    }
}

} // verus!
