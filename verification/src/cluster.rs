//! The policies that a cluster grants to each audience, kept as policy text.
use vstd::prelude::*;
use crate::access::same_bytes;
use crate::codec::DeploymentRecord;
use crate::order::{lex_compare, lex_lt, Order};
use crate::permission::{policies_text, policies_valid, parsed_policies, sorted_policies, Policies, PolicyModel};
use crate::text::split_spec;

verus! {

/// The set of policies that the text `s` reads as.
pub open spec fn policy_set_of(s: Seq<char>) -> Set<PolicyModel> {
    if s == ""@ {
        Set::empty()
    } else {
        parsed_policies(split_spec(s, ' ')).to_set()
    }
}

/// `s` is the text of the policy set `set`: the set written in policy order.
pub open spec fn text_of_set(s: Seq<char>, set: Set<PolicyModel>) -> bool {
    exists|v: Seq<PolicyModel>| sorted_policies(v) && v.to_set() == set && s == #[trigger] policies_text(v)
}

/// The audiences, as principal bytes, with the policies granted to each, as text.
#[derive(Debug)]
pub struct PoliciesTable(Vec<(Vec<u8>, String)>);

/// The value of the entries: audience to policy text.
pub open spec fn entries_map(v: Seq<(Vec<u8>, String)>) -> Map<Seq<u8>, Seq<char>> {
    Map::new(
        |k: Seq<u8>| exists|i: int| 0 <= i < v.len() && (#[trigger] v[i]).0@ == k,
        |k: Seq<u8>| v[choose|i: int| 0 <= i < v.len() && (#[trigger] v[i]).0@ == k].1@,
    )
}

/// No audience is listed twice.
pub open spec fn distinct_audiences(v: Seq<(Vec<u8>, String)>) -> bool {
    forall|i: int, j: int| 0 <= i < j < v.len() ==> (#[trigger] v[i]).0@ != (#[trigger] v[j]).0@
}

impl View for PoliciesTable {
    type V = Map<Seq<u8>, Seq<char>>;

    closed spec fn view(&self) -> Map<Seq<u8>, Seq<char>> {
        entries_map(self.0@)
    }
}

proof fn lemma_entry_at(v: Seq<(Vec<u8>, String)>, i: int)
    requires
        distinct_audiences(v),
        0 <= i < v.len(),
    ensures
        entries_map(v).contains_key(v[i].0@),
        entries_map(v)[v[i].0@] == v[i].1@,
{
    let k = v[i].0@;
    assert(exists|j: int| 0 <= j < v.len() && (#[trigger] v[j]).0@ == k);
    let j = choose|j: int| 0 <= j < v.len() && (#[trigger] v[j]).0@ == k;
    if j != i {
        if j < i {
            assert(v[j].0@ != v[i].0@);
        } else {
            assert(v[i].0@ != v[j].0@);
        }
    }
}

impl PoliciesTable {
    #[verifier::type_invariant]
    spec fn distinct(self) -> bool {
        distinct_audiences(self.0@)
    }

    /// An empty table.
    pub fn new() -> (r: PoliciesTable)
        ensures
            r@ == Map::<Seq<u8>, Seq<char>>::empty(),
    {
        let r = PoliciesTable(Vec::new());
        assert(r@ =~= Map::<Seq<u8>, Seq<char>>::empty());
        r
    }

    /// Where `audience` is listed.
    fn find(&self, audience: &[u8]) -> (r: Option<usize>)
        ensures
            match r {
                Some(i) => i < self.0@.len() && self.0@[i as int].0@ == audience@,
                None => !self@.contains_key(audience@),
            },
    {
        let mut i: usize = 0;
        while i < self.0.len()
            invariant
                i <= self.0@.len(),
                forall|j: int| 0 <= j < i ==> (#[trigger] self.0@[j]).0@ != audience@,
            decreases self.0@.len() - i,
        {
            if same_bytes(self.0[i].0.as_slice(), audience) {
                return Some(i);
            }
            i += 1;
        }
        None
    }

    /// The policy text granted to `audience`, if any.
    pub fn get(&self, audience: &[u8]) -> (r: Option<String>)
        ensures
            match r {
                Some(s) => self@.contains_key(audience@) && s@ == self@[audience@],
                None => !self@.contains_key(audience@),
            },
    {
        proof {
            use_type_invariant(self);
        }
        match self.find(audience) {
            Some(i) => {
                proof {
                    lemma_entry_at(self.0@, i as int);
                }
                Some(self.0[i].1.clone())
            },
            None => None,
        }
    }

    /// Sets the policy text of `audience`.
    fn put(&mut self, audience: Vec<u8>, text: String)
        ensures
            final(self)@ == old(self)@.insert(audience@, text@),
    {
        proof {
            use_type_invariant(&*self);
        }
        let ghost a = audience@;
        let ghost t = text@;
        let ghost m = self@;
        match self.find(audience.as_slice()) {
            Some(i) => {
                let ghost v0 = self.0@;
                let mut entries: Vec<(Vec<u8>, String)> = Vec::new();
                std::mem::swap(&mut entries, &mut self.0);
                entries.set(i, (audience, text));
                let ghost v = entries@;
                assert(distinct_audiences(v)) by {
                    assert forall|p: int, q: int| 0 <= p < q < v.len() implies (#[trigger] v[p]).0@ != (#[trigger] v[q]).0@ by {
                        if p != i && q != i {
                            assert(v[p] == v0[p] && v[q] == v0[q]);
                        } else if p == i {
                            assert(v0[p].0@ == a);
                            assert(v[q] == v0[q]);
                        } else {
                            assert(v0[q].0@ == a);
                            assert(v[p] == v0[p]);
                        }
                    }
                }
                assert forall|k: Seq<u8>| #[trigger] entries_map(v).contains_key(k) == m.insert(a, t).contains_key(k) && (
                    entries_map(v).contains_key(k) ==> entries_map(v)[k] == m.insert(a, t)[k]) by {
                    if k == a {
                        lemma_entry_at(v, i as int);
                    } else {
                        if entries_map(v).contains_key(k) {
                            let j = choose|j: int| 0 <= j < v.len() && (#[trigger] v[j]).0@ == k;
                            assert(j != i);
                            assert(v[j] == v0[j]);
                            lemma_entry_at(v, j);
                            lemma_entry_at(v0, j);
                        }
                        if m.contains_key(k) {
                            let j = choose|j: int| 0 <= j < v0.len() && (#[trigger] v0[j]).0@ == k;
                            assert(j != i);
                            assert(v[j] == v0[j]);
                        }
                    }
                }
                assert(entries_map(v) =~= m.insert(a, t));
                self.0 = entries;
            },
            None => {
                let ghost v0 = self.0@;
                let mut entries: Vec<(Vec<u8>, String)> = Vec::new();
                std::mem::swap(&mut entries, &mut self.0);
                entries.push((audience, text));
                let ghost v = entries@;
                let ghost n = v0.len() as int;
                assert(distinct_audiences(v)) by {
                    assert forall|p: int, q: int| 0 <= p < q < v.len() implies (#[trigger] v[p]).0@ != (#[trigger] v[q]).0@ by {
                        assert(v[p] == v0[p]);
                        if q < n {
                            assert(v[q] == v0[q]);
                        } else {
                            assert(m.contains_key(v0[p].0@));
                        }
                    }
                }
                assert forall|k: Seq<u8>| #[trigger] entries_map(v).contains_key(k) == m.insert(a, t).contains_key(k) && (
                    entries_map(v).contains_key(k) ==> entries_map(v)[k] == m.insert(a, t)[k]) by {
                    if k == a {
                        lemma_entry_at(v, n);
                    } else {
                        if entries_map(v).contains_key(k) {
                            let j = choose|j: int| 0 <= j < v.len() && (#[trigger] v[j]).0@ == k;
                            assert(j != n);
                            assert(v[j] == v0[j]);
                            lemma_entry_at(v, j);
                            lemma_entry_at(v0, j);
                        }
                        if m.contains_key(k) {
                            let j = choose|j: int| 0 <= j < v0.len() && (#[trigger] v0[j]).0@ == k;
                            assert(v[j] == v0[j]);
                        }
                    }
                }
                assert(entries_map(v) =~= m.insert(a, t));
                self.0 = entries;
            },
        }
    }

    /// Removes `audience` from the table.
    fn drop_entry(&mut self, audience: &[u8])
        ensures
            final(self)@ == old(self)@.remove(audience@),
    {
        proof {
            use_type_invariant(&*self);
        }
        let ghost m = self@;
        let ghost a = audience@;
        if let Some(i) = self.find(audience) {
            let ghost v0 = self.0@;
            let mut entries: Vec<(Vec<u8>, String)> = Vec::new();
                std::mem::swap(&mut entries, &mut self.0);
            entries.remove(i);
            let ghost v = entries@;
            assert(forall|j: int| 0 <= j < v.len() ==> #[trigger] v[j] == (if j < i { v0[j] } else { v0[j + 1] }));
            assert(distinct_audiences(v)) by {
                assert forall|p: int, q: int| 0 <= p < q < v.len() implies (#[trigger] v[p]).0@ != (#[trigger] v[q]).0@ by {
                    let p0 = if p < i { p } else { p + 1 };
                    let q0 = if q < i { q } else { q + 1 };
                    assert(v[p] == v0[p0] && v[q] == v0[q0]);
                }
            }
            assert forall|k: Seq<u8>| #[trigger] entries_map(v).contains_key(k) == m.remove(a).contains_key(k) && (
                entries_map(v).contains_key(k) ==> entries_map(v)[k] == m.remove(a)[k]) by {
                if entries_map(v).contains_key(k) {
                    let j = choose|j: int| 0 <= j < v.len() && (#[trigger] v[j]).0@ == k;
                    let j0 = if j < i { j } else { j + 1 };
                    assert(v[j] == v0[j0]);
                    assert(j0 != i);
                    lemma_entry_at(v, j);
                    lemma_entry_at(v0, j0);
                    if k == a {
                        assert(v0[i as int].0@ == a);
                    }
                }
                if m.contains_key(k) && k != a {
                    let j0 = choose|j: int| 0 <= j < v0.len() && (#[trigger] v0[j]).0@ == k;
                    assert(j0 != i);
                    let j = if j0 < i { j0 } else { j0 - 1 };
                    assert(v[j] == v0[j0]);
                }
            }
            assert(entries_map(v) =~= m.remove(a));
            self.0 = entries;
        } else {
            assert(m.remove(a) =~= m);
        }
    }

    /// Grants `policies` to `audience` as well: the stored text becomes that of
    /// the union of what was granted and `policies`.
    pub fn attach(&mut self, audience: Vec<u8>, policies: Policies)
        requires
            old(self)@.contains_key(audience@) ==> policies_valid(old(self)@[audience@]),
        ensures
            final(self)@.dom() == old(self)@.dom().insert(audience@),
            final(self)@.remove(audience@) == old(self)@.remove(audience@),
            text_of_set(
                final(self)@[audience@],
                if old(self)@.contains_key(audience@) {
                    policy_set_of(old(self)@[audience@]) + policies@.to_set()
                } else {
                    policies@.to_set()
                },
            ),
    {
        let ghost m = self@;
        let mut policies = policies;
        let ghost added = policies@;
        let text = match self.get(audience.as_slice()) {
            Some(e) => {
                match Policies::try_from(e.as_str()) {
                    Ok(mut p) => {
                        p.append(&mut policies);
                        let t = p.to_string();
                        assert(sorted_policies(p@) && p@.to_set() == policy_set_of(m[audience@]) + added.to_set()
                            && t@ == policies_text(p@));
                        t
                    },
                    Err(_) => {
                        assert(false);
                        String::new()
                    },
                }
            },
            None => {
                let t = policies.to_string();
                policies.sorted_facts();
                assert(sorted_policies(added) && added.to_set() == added.to_set() && t@ == policies_text(added));
                t
            },
        };
        self.put(audience, text);
        assert(self@.remove(audience@) =~= m.remove(audience@));
    }

    /// Withdraws `policies` from `audience`: the stored text becomes that of
    /// what remains, and the audience goes once nothing remains.
    pub fn detach(&mut self, audience: Vec<u8>, policies: Policies)
        requires
            old(self)@.contains_key(audience@) ==> policies_valid(old(self)@[audience@]),
        ensures
            !old(self)@.contains_key(audience@) ==> final(self)@ == old(self)@,
            old(self)@.contains_key(audience@) ==> {
                let rest = policy_set_of(old(self)@[audience@]) - policies@.to_set();
                &&& final(self)@.remove(audience@) == old(self)@.remove(audience@)
                &&& rest.len() == 0 ==> !final(self)@.contains_key(audience@)
                &&& rest.len() > 0 ==> final(self)@.contains_key(audience@) && text_of_set(
                    final(self)@[audience@],
                    rest,
                )
            },
    {
        let ghost m = self@;
        let e = match self.get(audience.as_slice()) {
            None => {
                return;
            },
            Some(e) => e,
        };
        let mut p = match Policies::try_from(e.as_str()) {
            Ok(p) => p,
            Err(_) => {
                assert(false);
                return;
            },
        };
        p.remove(&policies);
        let t = p.to_string();
        proof {
            lemma_seq_set_len(p@);
        }
        if p.is_empty() {
            self.drop_entry(audience.as_slice());
            assert(self@.remove(audience@) =~= m.remove(audience@));
        } else {
            self.put(audience, t);
            assert(self@.remove(audience@) =~= m.remove(audience@));
        }
    }
}

impl Default for PoliciesTable {
    fn default() -> (r: PoliciesTable)
        ensures
            r@ == Map::<Seq<u8>, Seq<char>>::empty(),
    {
        PoliciesTable::new()
    }
}

/// A sequence is empty exactly when its set of elements is.
proof fn lemma_seq_set_len(v: Seq<PolicyModel>)
    ensures
        (v.len() == 0) == (v.to_set().len() == 0),
{
    if v.len() > 0 {
        assert(v.to_set().contains(v[0]));
        vstd::seq_lib::seq_to_set_is_finite(v);
        if v.to_set().len() == 0 {
            v.to_set().lemma_len0_is_empty();
        }
    } else {
        assert(v.to_set() =~= Set::<PolicyModel>::empty());
    }
}

// ---------------------------------------------------------------- deployments

/// The code of a byte string in the order of principals: its bytes, compared
/// in turn, a proper prefix first.
pub open spec fn key_code(b: Seq<u8>) -> Seq<u32> {
    b.map_values(|x: u8| x as u32)
}

/// Whether principal `a` comes before principal `b`.
pub open spec fn key_lt(a: Seq<u8>, b: Seq<u8>) -> bool {
    lex_lt(key_code(a), key_code(b))
}

proof fn lemma_key_code_injective(a: Seq<u8>, b: Seq<u8>)
    requires
        key_code(a) == key_code(b),
    ensures
        a == b,
{
    assert(a.len() == key_code(a).len());
    assert forall|i: int| 0 <= i < a.len() implies a[i] == b[i] by {
        assert(key_code(a)[i] == a[i] as u32);
        assert(key_code(b)[i] == b[i] as u32);
    }
    assert(a =~= b);
}

fn key_vec(b: &[u8]) -> (r: Vec<u32>)
    ensures
        r@ == key_code(b@),
{
    let mut r: Vec<u32> = Vec::new();
    let mut i: usize = 0;
    while i < b.len()
        invariant
            i <= b@.len(),
            r@ == key_code(b@.take(i as int)),
        decreases b@.len() - i,
    {
        r.push(b[i] as u32);
        assert(key_code(b@.take(i + 1)) =~= key_code(b@.take(i as int)).push(b@[i as int] as u32));
        i += 1;
    }
    assert(b@.take(i as int) =~= b@);
    r
}

/// Compares two principals.
fn compare_keys(a: &[u8], b: &[u8]) -> (r: Order)
    ensures
        r == Order::Less <==> key_lt(a@, b@),
        r == Order::Greater <==> key_lt(b@, a@),
        r == Order::Equal <==> a@ == b@,
{
    let ka = key_vec(a);
    let kb = key_vec(b);
    let r = lex_compare(&ka, &kb);
    proof {
        if ka@ == kb@ {
            lemma_key_code_injective(a@, b@);
        }
    }
    r
}

/// The deployments, in increasing order of principal.
pub open spec fn deployments_sorted(v: Seq<(Vec<u8>, DeploymentRecord)>) -> bool {
    forall|i: int, j: int| 0 <= i < j < v.len() ==> key_lt(#[trigger] v[i].0@, #[trigger] v[j].0@)
}

/// The first deployment at or after position `from` whose code has a known successor.
pub open spec fn first_upgradable(v: Seq<(Vec<u8>, DeploymentRecord)>, paths: Map<[u8; 32], [u8; 32]>, from: int) -> Option<int>
    decreases v.len() - from,
{
    if from < 0 || from >= v.len() {
        None
    } else if paths.contains_key(v[from].1.wasm_hash) {
        Some(from)
    } else {
        first_upgradable(v, paths, from + 1)
    }
}

proof fn lemma_first_upgradable(v: Seq<(Vec<u8>, DeploymentRecord)>, paths: Map<[u8; 32], [u8; 32]>, from: int)
    ensures
        first_upgradable(v, paths, from) matches Some(j) ==> 0 <= from <= j < v.len() && paths.contains_key(
            v[j].1.wasm_hash,
        ),
    decreases v.len() - from,
{
    if 0 <= from < v.len() && !paths.contains_key(v[from].1.wasm_hash) {
        lemma_first_upgradable(v, paths, from + 1);
    }
}

/// The first position whose principal comes after `c`, in sorted deployments.
pub open spec fn first_after(v: Seq<(Vec<u8>, DeploymentRecord)>, c: Seq<u8>, k: int) -> bool {
    &&& 0 <= k <= v.len()
    &&& forall|i: int| 0 <= i < k ==> !key_lt(c, #[trigger] v[i].0@)
    &&& forall|i: int| k <= i < v.len() ==> key_lt(c, #[trigger] v[i].0@)
}

/// The first position in sorted deployments whose principal comes after `c`.
pub open spec fn first_position_after(v: Seq<(Vec<u8>, DeploymentRecord)>, c: Seq<u8>) -> int {
    choose|k: int| first_after(v, c, k)
}

/// A position of `v` whose principal is `k`, where there is one.
pub open spec fn position_of(v: Seq<(Vec<u8>, DeploymentRecord)>, k: Seq<u8>) -> int {
    choose|i: int| 0 <= i < v.len() && (#[trigger] v[i]).0@ == k
}

/// The deployments by principal: the log id and the code hash.
pub open spec fn records_map(v: Seq<(Vec<u8>, DeploymentRecord)>) -> Map<Seq<u8>, (u64, [u8; 32])> {
    Map::new(
        |k: Seq<u8>| exists|i: int| 0 <= i < v.len() && (#[trigger] v[i]).0@ == k,
        |k: Seq<u8>| (v[position_of(v, k)].1.log_id, v[position_of(v, k)].1.wasm_hash),
    )
}

/// The map of an association list: the last pair of a key wins.
pub open spec fn path_map(v: Seq<([u8; 32], [u8; 32])>) -> Map<[u8; 32], [u8; 32]>
    decreases v.len(),
{
    if v.len() == 0 {
        Map::empty()
    } else {
        path_map(v.drop_last()).insert(v.last().0, v.last().1)
    }
}

proof fn lemma_records_at(v: Seq<(Vec<u8>, DeploymentRecord)>, i: int)
    requires
        deployments_sorted(v),
        0 <= i < v.len(),
    ensures
        records_map(v).contains_key(v[i].0@),
        records_map(v)[v[i].0@] == (v[i].1.log_id, v[i].1.wasm_hash),
{
    let k = v[i].0@;
    assert(exists|j: int| 0 <= j < v.len() && (#[trigger] v[j]).0@ == k);
    let j = position_of(v, k);
    if j != i {
        crate::order::lemma_lex_irreflexive(key_code(k));
        if j < i {
            assert(key_lt(v[j].0@, v[i].0@));
        } else {
            assert(key_lt(v[i].0@, v[j].0@));
        }
    }
}

proof fn lemma_first_after_unique(v: Seq<(Vec<u8>, DeploymentRecord)>, c: Seq<u8>, k: int)
    requires
        first_after(v, c, k),
    ensures
        first_position_after(v, c) == k,
{
    let k2 = first_position_after(v, c);
    assert(first_after(v, c, k2));
    if k2 < k {
        assert(key_lt(c, v[k2].0@));
        assert(!key_lt(c, v[k2].0@));
    } else if k < k2 {
        assert(key_lt(c, v[k].0@));
        assert(!key_lt(c, v[k].0@));
    }
}

/// The deployments of a cluster's buckets and the upgrade path between code versions.
#[derive(Debug)]
pub struct Deployments {
    upgrade_path: Vec<([u8; 32], [u8; 32])>,
    deployed: Vec<(Vec<u8>, DeploymentRecord)>,
}

impl Deployments {
    #[verifier::type_invariant]
    spec fn sorted(self) -> bool {
        deployments_sorted(self.deployed@)
    }

    /// The deployments in increasing order of principal.
    pub closed spec fn entries(&self) -> Seq<(Vec<u8>, DeploymentRecord)> {
        self.deployed@
    }

    /// The upgrade path: the code that follows each code.
    pub closed spec fn paths(&self) -> Map<[u8; 32], [u8; 32]> {
        path_map(self.upgrade_path@)
    }

    /// The deployments by principal: the log id and the code hash.
    pub open spec fn deployed(&self) -> Map<Seq<u8>, (u64, [u8; 32])> {
        records_map(self.entries())
    }

    /// No deployment and no upgrade path.
    pub fn new() -> (r: Deployments)
        ensures
            r.entries().len() == 0,
            r.paths() == Map::<[u8; 32], [u8; 32]>::empty(),
    {
        Deployments { upgrade_path: Vec::new(), deployed: Vec::new() }
    }

    /// The deployments are in increasing order of principal.
    pub fn entries_facts(&self)
        ensures
            deployments_sorted(self.entries()),
    {
        proof {
            use_type_invariant(self);
        }
    }

    /// Where `canister` is, or where it would go.
    fn position(&self, canister: &[u8]) -> (r: (usize, bool))
        ensures
            r.0 <= self.entries().len(),
            r.1 ==> r.0 < self.entries().len() && self.entries()[r.0 as int].0@ == canister@,
            !r.1 ==> (forall|i: int| 0 <= i < r.0 ==> key_lt(#[trigger] self.entries()[i].0@, canister@))
                && (forall|i: int| r.0 <= i < self.entries().len() ==> key_lt(canister@, #[trigger] self.entries()[i].0@)),
    {
        proof {
            use_type_invariant(self);
        }
        let mut i: usize = 0;
        while i < self.deployed.len()
            invariant
                i <= self.deployed@.len(),
                deployments_sorted(self.deployed@),
                forall|j: int| 0 <= j < i ==> key_lt(#[trigger] self.deployed@[j].0@, canister@),
            decreases self.deployed@.len() - i,
        {
            match compare_keys(self.deployed[i].0.as_slice(), canister) {
                Order::Less => {},
                Order::Equal => {
                    return (i, true);
                },
                Order::Greater => {
                    assert forall|j: int| i <= j < self.deployed@.len() implies key_lt(canister@, #[trigger] self.deployed@[j].0@) by {
                        if j > i {
                            assert(key_lt(self.deployed@[i as int].0@, self.deployed@[j].0@));
                            crate::order::lemma_lex_transitive(
                                key_code(canister@),
                                key_code(self.deployed@[i as int].0@),
                                key_code(self.deployed@[j].0@),
                            );
                        }
                    }
                    return (i, false);
                },
            }
            i += 1;
        }
        (i, false)
    }

    /// Whether `canister` has a deployment.
    pub fn contains(&self, canister: &[u8]) -> (r: bool)
        ensures
            r == self.deployed().contains_key(canister@),
    {
        let (i, found) = self.position(canister);
        proof {
            if !found && self.deployed().contains_key(canister@) {
                let j = choose|j: int| 0 <= j < self.entries().len() && (#[trigger] self.entries()[j]).0@ == canister@;
                crate::order::lemma_lex_irreflexive(key_code(canister@));
                if j < i {
                    assert(key_lt(self.entries()[j].0@, canister@));
                } else {
                    assert(key_lt(canister@, self.entries()[j].0@));
                }
            }
        }
        found
    }

    /// The deployed principals, in increasing order.
    pub fn ids(&self) -> (r: Vec<Vec<u8>>)
        ensures
            r@.len() == self.entries().len(),
            forall|i: int| 0 <= i < r@.len() ==> (#[trigger] r@[i])@ == self.entries()[i].0@,
    {
        let mut r: Vec<Vec<u8>> = Vec::new();
        let mut i: usize = 0;
        while i < self.deployed.len()
            invariant
                i <= self.deployed@.len(),
                r@.len() == i,
                forall|j: int| 0 <= j < i ==> (#[trigger] r@[j])@ == self.deployed@[j].0@,
            decreases self.deployed@.len() - i,
        {
            r.push(crate::bucket::copy_bytes(&self.deployed[i].0));
            i += 1;
        }
        r
    }

    /// Records that `canister` runs the code `wasm_hash`, deployed as log `log_id`.
    pub fn record(&mut self, canister: Vec<u8>, log_id: u64, wasm_hash: [u8; 32])
        ensures
            final(self).paths() == old(self).paths(),
            final(self).deployed() == old(self).deployed().insert(canister@, (log_id, wasm_hash)),
    {
        proof {
            use_type_invariant(&*self);
        }
        let ghost old_e = self.deployed@;
        let ghost ck = canister@;
        let (i, found) = self.position(canister.as_slice());
        let rec = DeploymentRecord { log_id, wasm_hash };
        let mut entries: Vec<(Vec<u8>, DeploymentRecord)> = Vec::new();
        std::mem::swap(&mut entries, &mut self.deployed);
        if found {
            entries.set(i, (canister, rec));
        } else {
            entries.insert(i, (canister, rec));
        }
        let ghost v = entries@;
        proof {
            assert(v[i as int].0@ == ck && v[i as int].1 == rec);
            assert forall|j: int| 0 <= j < v.len() && j != i implies #[trigger] v[j] == (if found || j < i {
                old_e[j]
            } else {
                old_e[j - 1]
            }) by {}
            assert(deployments_sorted(v)) by {
                assert forall|p: int, q: int| 0 <= p < q < v.len() implies key_lt(#[trigger] v[p].0@, #[trigger] v[q].0@) by {
                    if found {
                        if p == i {
                            assert(old_e[p].0@ == ck);
                        } else if q == i {
                            assert(old_e[q].0@ == ck);
                        }
                    }
                }
            }
            assert forall|k: Seq<u8>| #[trigger] records_map(v).contains_key(k) == old(self).deployed().insert(ck, (log_id, wasm_hash)).contains_key(k)
                && (records_map(v).contains_key(k) ==> records_map(v)[k] == old(self).deployed().insert(ck, (log_id, wasm_hash))[k]) by {
                if k == ck {
                    lemma_records_at(v, i as int);
                } else {
                    if records_map(v).contains_key(k) {
                        let j = choose|j: int| 0 <= j < v.len() && (#[trigger] v[j]).0@ == k;
                        assert(j != i);
                        let j0 = if found || j < i { j } else { j - 1 };
                        assert(v[j] == old_e[j0]);
                        lemma_records_at(v, j);
                        lemma_records_at(old_e, j0);
                    }
                    if records_map(old_e).contains_key(k) {
                        let j0 = choose|j: int| 0 <= j < old_e.len() && (#[trigger] old_e[j]).0@ == k;
                        let j = if found || j0 < i { j0 } else { j0 + 1 };
                        assert(j != i) by {
                            if found && j0 == i {
                                assert(old_e[j0].0@ == ck);
                            }
                        }
                        assert(v[j] == old_e[j0]);
                    }
                }
            }
            assert(records_map(v) =~= old(self).deployed().insert(ck, (log_id, wasm_hash)));
        }
        self.deployed = entries;
    }

    /// Follows `prev` with `next` on the upgrade path.
    pub fn add_path(&mut self, prev: [u8; 32], next: [u8; 32])
        ensures
            final(self).paths() == old(self).paths().insert(prev, next),
            final(self).entries() == old(self).entries(),
    {
        proof {
            use_type_invariant(&*self);
        }
        let mut path: Vec<([u8; 32], [u8; 32])> = Vec::new();
        std::mem::swap(&mut path, &mut self.upgrade_path);
        path.push((prev, next));
        self.upgrade_path = path;
        assert(self.upgrade_path@.drop_last() =~= old(self).upgrade_path@);
    }

    /// The code that follows `prev`, if any.
    pub fn next_version(&self, prev: &[u8; 32]) -> (r: Option<[u8; 32]>)
        ensures
            match r {
                Some(n) => self.paths().contains_key(*prev) && self.paths()[*prev] == n,
                None => !self.paths().contains_key(*prev),
            },
    {
        let mut found: Option<[u8; 32]> = None;
        let mut i: usize = 0;
        while i < self.upgrade_path.len()
            invariant
                i <= self.upgrade_path@.len(),
                match found {
                    Some(n) => path_map(self.upgrade_path@.take(i as int)).contains_key(*prev) && path_map(
                        self.upgrade_path@.take(i as int),
                    )[*prev] == n,
                    None => !path_map(self.upgrade_path@.take(i as int)).contains_key(*prev),
                },
            decreases self.upgrade_path@.len() - i,
        {
            let (p, n) = self.upgrade_path[i];
            assert(self.upgrade_path@.take(i + 1).drop_last() =~= self.upgrade_path@.take(i as int));
            if crate::bucket::same_hash(&p, prev) {
                assert(p =~= *prev);
                found = Some(n);
            }
            i += 1;
        }
        assert(self.upgrade_path@.take(i as int) =~= self.upgrade_path@);
        found
    }

    /// The first deployment from position `from` on whose code has a successor.
    fn scan_upgradable(&self, from: usize) -> (r: Option<usize>)
        ensures
            r matches Some(j) ==> j < self.entries().len() && self.paths().contains_key(
                self.entries()[j as int].1.wasm_hash,
            ),
            match first_upgradable(self.entries(), self.paths(), from as int) {
                Some(j) => r == Some(j as usize),
                None => r is None,
            },
    {
        let mut i = from;
        if i >= self.deployed.len() {
            return None;
        }
        while i < self.deployed.len()
            invariant
                from <= i <= self.deployed@.len(),
                first_upgradable(self.entries(), self.paths(), from as int) == first_upgradable(
                    self.entries(),
                    self.paths(),
                    i as int,
                ),
            decreases self.deployed@.len() - i,
        {
            let h = self.deployed[i].1.wasm_hash;
            if self.next_version(&h).is_some() {
                return Some(i);
            }
            i += 1;
        }
        None
    }

    /// The next deployment after `after` (or from the first) whose code has a
    /// successor: its principal, its code and the successor; once the end is
    /// passed the search starts over from the first deployment.
    pub fn next_upgrade(&self, after: Option<Vec<u8>>) -> (r: Option<(Vec<u8>, [u8; 32], [u8; 32])>)
        ensures
            ({
                let v = self.entries();
                let ps = self.paths();
                let found = match after {
                    None => first_upgradable(v, ps, 0),
                    Some(c) => match first_upgradable(v, ps, first_position_after(v, c@)) {
                        Some(j) => Some(j),
                        None => first_upgradable(v, ps, 0),
                    },
                };
                match found {
                    None => r is None,
                    Some(j) => r matches Some((c, h, n)) && c@ == v[j].0@ && h == v[j].1.wasm_hash
                        && ps.contains_key(h) && n == ps[h],
                }
            }),
    {
        proof {
            use_type_invariant(self);
        }
        let ghost v = self.entries();
        let total = self.deployed.len();
        let start: usize = match &after {
            None => 0,
            Some(c) => {
                let (i, found) = self.position(c.as_slice());
                proof {
                    assert(found ==> i < total);
                    crate::order::lemma_lex_irreflexive(key_code(c@));
                    if found {
                        assert forall|j: int| 0 <= j < i + 1 implies !key_lt(c@, #[trigger] v[j].0@) by {
                            if j < i {
                                assert(key_lt(v[j].0@, v[i as int].0@));
                                crate::order::lemma_lex_asymmetric(key_code(v[j].0@), key_code(c@));
                            }
                        }
                        assert forall|j: int| i + 1 <= j < v.len() implies key_lt(c@, #[trigger] v[j].0@) by {
                            assert(key_lt(v[i as int].0@, v[j].0@));
                        }
                        lemma_first_after_unique(v, c@, i + 1);
                    } else {
                        assert forall|j: int| 0 <= j < i implies !key_lt(c@, #[trigger] v[j].0@) by {
                            crate::order::lemma_lex_asymmetric(key_code(v[j].0@), key_code(c@));
                        }
                        lemma_first_after_unique(v, c@, i as int);
                    }
                }
                if found {
                    i + 1
                } else {
                    i
                }
            },
        };
        let ghost ps = self.paths();
        let ghost want = if after is None {
            first_upgradable(v, ps, 0)
        } else {
            match first_upgradable(v, ps, first_position_after(v, after->0@)) {
                Some(j) => Some(j),
                None => first_upgradable(v, ps, 0),
            }
        };
        assert(start as int == if after is None {
            0
        } else {
            first_position_after(v, after->0@)
        });
        proof {
            lemma_first_upgradable(v, ps, 0);
            lemma_first_upgradable(v, ps, start as int);
        }
        let first = self.scan_upgradable(start);
        let hit = match first {
            Some(j) => Some(j),
            None => match &after {
                None => None,
                Some(_) => self.scan_upgradable(0),
            },
        };
        assert(want is None ==> hit is None);
        assert(want matches Some(j) ==> 0 <= j < v.len() && (hit matches Some(k) && k as int == j));
        match hit {
            None => None,
            Some(j) => {
                let h = self.deployed[j].1.wasm_hash;
                match self.next_version(&h) {
                    Some(n) => Some((crate::bucket::copy_bytes(&self.deployed[j].0), h, n)),
                    None => None,
                }
            },
        }
    }

    /// Moves the legacy indexes into the registry: each upgrade step of
    /// `legacy_paths` and each deployment of `legacy_deployed`, in order.
    pub fn migrate_legacy_collections(
        &mut self,
        legacy_paths: Vec<([u8; 32], [u8; 32])>,
        legacy_deployed: Vec<(Vec<u8>, (u64, [u8; 32]))>,
    )
        ensures
            final(self).paths() == old(self).paths().union_prefer_right(path_map(legacy_paths@)),
            final(self).deployed() == old(self).deployed().union_prefer_right(deployed_map(legacy_deployed@)),
    {
        let ghost p0 = self.paths();
        let ghost d0 = self.deployed();
        let mut i: usize = 0;
        while i < legacy_paths.len()
            invariant
                i <= legacy_paths@.len(),
                self.paths() == p0.union_prefer_right(path_map(legacy_paths@.take(i as int))),
                self.deployed() == d0,
            decreases legacy_paths@.len() - i,
        {
            let (prev, next) = legacy_paths[i];
            self.add_path(prev, next);
            assert(legacy_paths@.take(i + 1).drop_last() =~= legacy_paths@.take(i as int));
            assert(self.paths() =~= p0.union_prefer_right(path_map(legacy_paths@.take(i + 1))));
            i += 1;
        }
        assert(legacy_paths@.take(i as int) =~= legacy_paths@);
        let ghost p1 = self.paths();
        let mut j: usize = 0;
        while j < legacy_deployed.len()
            invariant
                j <= legacy_deployed@.len(),
                self.paths() == p1,
                p1 == p0.union_prefer_right(path_map(legacy_paths@)),
                self.deployed() == d0.union_prefer_right(deployed_map(legacy_deployed@.take(j as int))),
            decreases legacy_deployed@.len() - j,
        {
            let canister = crate::bucket::copy_bytes(&legacy_deployed[j].0);
            let (log_id, hash) = legacy_deployed[j].1;
            let ghost before = self.deployed();
            self.record(canister, log_id, hash);
            assert(legacy_deployed@.take(j + 1).drop_last() =~= legacy_deployed@.take(j as int));
            assert(self.deployed() =~= d0.union_prefer_right(deployed_map(legacy_deployed@.take(j + 1))));
            j += 1;
        }
        assert(legacy_deployed@.take(j as int) =~= legacy_deployed@);
    }
}

/// The deployments once each of `v` is recorded, in order.
pub open spec fn deployed_map(v: Seq<(Vec<u8>, (u64, [u8; 32]))>) -> Map<Seq<u8>, (u64, [u8; 32])>
    decreases v.len(),
{
    if v.len() == 0 {
        Map::empty()
    } else {
        deployed_map(v.drop_last()).insert(v.last().0@, v.last().1)
    }
}

/// Migrating the same legacy indexes a second time changes nothing: the
/// registry after two migrations is the registry after one.
pub proof fn lemma_migration_idempotent(
    paths: Map<[u8; 32], [u8; 32]>,
    deployed: Map<Seq<u8>, (u64, [u8; 32])>,
    legacy_paths: Seq<([u8; 32], [u8; 32])>,
    legacy_deployed: Seq<(Vec<u8>, (u64, [u8; 32]))>,
)
    ensures
        paths.union_prefer_right(path_map(legacy_paths)).union_prefer_right(path_map(legacy_paths))
            == paths.union_prefer_right(path_map(legacy_paths)),
        deployed.union_prefer_right(deployed_map(legacy_deployed)).union_prefer_right(
            deployed_map(legacy_deployed),
        ) == deployed.union_prefer_right(deployed_map(legacy_deployed)),
{
    assert(paths.union_prefer_right(path_map(legacy_paths)).union_prefer_right(path_map(legacy_paths))
        =~= paths.union_prefer_right(path_map(legacy_paths)));
    assert(deployed.union_prefer_right(deployed_map(legacy_deployed)).union_prefer_right(
        deployed_map(legacy_deployed),
    ) =~= deployed.union_prefer_right(deployed_map(legacy_deployed)));
}

} // verus!
