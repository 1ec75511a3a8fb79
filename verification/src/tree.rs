//! The folder tree of a bucket: folders keyed by id, each pointing to its parent
//! and listing its files and sub folders; folder 0 is the root.
use vstd::prelude::*;
use std::collections::BTreeMap;
use crate::folder::{FolderInfo, FolderName};
use crate::bucket::{Context, Role};
use crate::ids::{desc_below, increasing, ordered, IdSet};
use crate::text::{decimal, owned, push_decimal, push_str};

verus! {

/// The greatest number of parent links that the depth walks follow.
pub const DEPTH_LIMIT: usize = 1024;

/// Folder metadata as the bucket stores it.
#[derive(Debug)]
pub struct FolderMetadata {
    /// The parent folder; 0 is the root.
    pub parent: u32,
    pub name: String,
    /// The ids of the files in the folder.
    pub files: IdSet,
    /// The ids of the sub folders.
    pub folders: IdSet,
    /// Unix timestamp in milliseconds.
    pub created_at: u64,
    /// Unix timestamp in milliseconds.
    pub updated_at: u64,
    /// -1: archived; 0: readable and writable; 1: read-only.
    pub status: i8,
}

/// The mathematical value of a [`FolderMetadata`].
#[verifier::ext_equal]
pub struct FolderModel {
    pub parent: u32,
    pub name: Seq<char>,
    pub files: Set<u32>,
    pub folders: Set<u32>,
    pub created_at: u64,
    pub updated_at: u64,
    pub status: i8,
}

impl View for FolderMetadata {
    type V = FolderModel;

    open spec fn view(&self) -> FolderModel {
        FolderModel {
            parent: self.parent,
            name: self.name@,
            files: self.files@,
            folders: self.folders@,
            created_at: self.created_at,
            updated_at: self.updated_at,
            status: self.status,
        }
    }
}

impl FolderMetadata {
    /// A folder named `name` under `parent`, with no children.
    pub fn new(parent: u32, name: String, created_at: u64, status: i8) -> (r: FolderMetadata)
        ensures
            r@ == (FolderModel {
                parent,
                name: name@,
                files: Set::empty(),
                folders: Set::empty(),
                created_at,
                updated_at: created_at,
                status,
            }),
    {
        FolderMetadata {
            parent,
            name,
            files: IdSet::new(),
            folders: IdSet::new(),
            created_at,
            updated_at: created_at,
            status,
        }
    }

    /// A copy of the metadata.
    pub fn copy(&self) -> (r: FolderMetadata)
        ensures
            r@ == self@,
            r.files.seq() == self.files.seq(),
            r.folders.seq() == self.folders.seq(),
    {
        FolderMetadata {
            parent: self.parent,
            name: self.name.clone(),
            files: self.files.copy(),
            folders: self.folders.copy(),
            created_at: self.created_at,
            updated_at: self.updated_at,
            status: self.status,
        }
    }

    /// The folder as seen from outside, under the id `id`.
    pub fn into_info(self, id: u32) -> (r: FolderInfo)
        ensures
            r.id == id,
            r.parent == self.parent,
            r.name@ == self.name@,
            r.created_at == self.created_at,
            r.updated_at == self.updated_at,
            r.status == self.status,
            r.files@ == self.files.seq(),
            r.folders@ == self.folders.seq(),
            info_of(r, id, self@),
    {
        self.files.seq_facts();
        self.folders.seq_facts();
        let files = self.files.to_vec();
        let folders = self.folders.to_vec();
        FolderInfo {
            id,
            parent: self.parent,
            name: self.name,
            created_at: self.created_at,
            updated_at: self.updated_at,
            status: self.status,
            files,
            folders,
        }
    }
}

impl Default for FolderMetadata {
    fn default() -> (r: Self)
        ensures
            r@.parent == 0,
            r@.name.len() == 0,
            r@.files == Set::<u32>::empty(),
            r@.folders == Set::<u32>::empty(),
            r@.status == 0,
    {
        FolderMetadata::new(0, String::new(), 0, 0)
    }
}

/// `info` describes folder `f` under the id `id`.
pub open spec fn info_of(info: FolderInfo, id: u32, f: FolderModel) -> bool {
    &&& info.id == id
    &&& info.parent == f.parent
    &&& info.name@ == f.name
    &&& info.created_at == f.created_at
    &&& info.updated_at == f.updated_at
    &&& info.status == f.status
    &&& info.files@ == ordered(f.files)
    &&& info.folders@ == ordered(f.folders)
}

// ---------------------------------------------------------------- tree model

pub type FolderMap = Map<u32, FolderModel>;

/// Following parent links from `id`, the root is reached within `k` steps.
pub open spec fn reaches_root(m: FolderMap, id: u32, k: nat) -> bool
    decreases k,
{
    id == 0 || (k > 0 && m.contains_key(id) && reaches_root(m, m[id].parent, (k - 1) as nat))
}

/// As `reaches_root`, without passing through `avoid`.
pub open spec fn reaches_root_avoiding(m: FolderMap, id: u32, avoid: u32, k: nat) -> bool
    decreases k,
{
    id == 0 || (k > 0 && id != avoid && m.contains_key(id) && reaches_root_avoiding(
        m,
        m[id].parent,
        avoid,
        (k - 1) as nat,
    ))
}

/// The folder tree is well formed: the root exists, every other folder's parent
/// exists and lists it among its sub folders, and following parents from any
/// folder leads to the root.
pub open spec fn tree_wf(m: FolderMap) -> bool {
    &&& m.contains_key(0)
    &&& forall|id: u32| #[trigger]
        m.contains_key(id) && id != 0 ==> m.contains_key(m[id].parent) && m[m[id].parent].folders.contains(
            id,
        )
    &&& forall|id: u32| #[trigger] m.contains_key(id) ==> exists|k: nat| reaches_root(m, id, k)
}

/// The number of parent links followed from `id` until the root, a missing
/// folder, or `k` links.
pub open spec fn walk_depth(m: FolderMap, id: u32, k: nat) -> nat
    decreases k,
{
    if k == 0 || id == 0 || !m.contains_key(id) {
        0
    } else {
        1 + walk_depth(m, m[id].parent, (k - 1) as nat)
    }
}

/// Walks up from `id` for at most `k` links: the number of links followed, and
/// whether `target` was met on the way (or is the root).
pub open spec fn depth_or_ancestor(m: FolderMap, id: u32, target: u32, k: nat) -> (nat, bool)
    decreases k,
{
    if id == 0 || k == 0 {
        (0, target == 0)
    } else if id == target {
        (0, true)
    } else if !m.contains_key(id) {
        (0, target == 0)
    } else {
        let r = depth_or_ancestor(m, m[id].parent, target, (k - 1) as nat);
        (r.0 + 1, r.1)
    }
}

/// The folders met walking up from `id` (itself first), for at most `k` links.
pub open spec fn chain(m: FolderMap, id: u32, k: nat) -> Seq<u32>
    decreases k,
{
    if k == 0 || id == 0 || !m.contains_key(id) {
        Seq::empty()
    } else {
        seq![id] + chain(m, m[id].parent, (k - 1) as nat)
    }
}

/// The ancestry of `id`: the folders met walking up from it to the root.
pub open spec fn ancestry(m: FolderMap, id: u32) -> Seq<u32> {
    chain(m, id, choose|k: nat| reaches_root(m, id, k))
}

pub open spec fn is_root_model(f: FolderModel) -> bool {
    f.parent == 0 && f.name == "root"@ && f.files == Set::<u32>::empty() && f.folders == Set::<u32>::empty()
        && f.created_at == 0 && f.updated_at == 0 && f.status == 0
}

// ---------------------------------------------------------------- lemmas

/// Reaching the root is kept when parent links are kept.
pub proof fn lemma_reaches_mono(m: FolderMap, m2: FolderMap, id: u32, k: nat)
    requires
        reaches_root(m, id, k),
        forall|y: u32| #[trigger] m.contains_key(y) ==> m2.contains_key(y) && m2[y].parent == m[y].parent,
    ensures
        reaches_root(m2, id, k),
    decreases k,
{
    if id != 0 {
        lemma_reaches_mono(m, m2, m[id].parent, (k - 1) as nat);
    }
}

/// A walk that avoids a folder is kept when only that folder's links change.
proof fn lemma_avoiding_kept(m: FolderMap, m2: FolderMap, id: u32, avoid: u32, k: nat)
    requires
        reaches_root_avoiding(m, id, avoid, k),
        forall|y: u32| #[trigger] m.contains_key(y) && y != avoid ==> m2.contains_key(y) && m2[y].parent == m[y].parent,
    ensures
        reaches_root(m2, id, k),
    decreases k,
{
    if id != 0 {
        lemma_avoiding_kept(m, m2, m[id].parent, avoid, (k - 1) as nat);
    }
}

/// A folder whose parent is itself never reaches the root.
proof fn lemma_no_self_parent(m: FolderMap, id: u32, k: nat)
    requires
        reaches_root(m, id, k),
        id != 0,
    ensures
        m[id].parent != id,
    decreases k,
{
    if m[id].parent == id {
        lemma_no_self_parent(m, id, (k - 1) as nat);
    }
}

/// A walk that ends without meeting `target` within fewer than `k` links, in a
/// tree whose parents exist, reaches the root avoiding `target`.
proof fn lemma_dpa_avoiding(m: FolderMap, id: u32, target: u32, k: nat)
    requires
        tree_wf(m),
        id == 0 || m.contains_key(id),
        target != 0,
        depth_or_ancestor(m, id, target, k).0 < k,
        !depth_or_ancestor(m, id, target, k).1,
    ensures
        reaches_root_avoiding(m, id, target, depth_or_ancestor(m, id, target, k).0),
    decreases k,
{
    if id != 0 {
        assert(m.contains_key(m[id].parent));
        lemma_dpa_avoiding(m, m[id].parent, target, (k - 1) as nat);
    }
}

/// The walk from a folder that reaches the root is the same for any larger budget.
proof fn lemma_chain_stable(m: FolderMap, id: u32, k: nat, k2: nat)
    requires
        reaches_root(m, id, k),
        k <= k2,
    ensures
        chain(m, id, k) == chain(m, id, k2),
    decreases k,
{
    if id != 0 {
        lemma_chain_stable(m, m[id].parent, (k - 1) as nat, (k2 - 1) as nat);
    }
}

/// Every folder on the ancestry of `id` exists.
proof fn lemma_chain_in_tree(m: FolderMap, id: u32)
    ensures
        forall|j: int| 0 <= j < ancestry(m, id).len() ==> m.contains_key(#[trigger] ancestry(m, id)[j]),
{
    let k = choose|k: nat| reaches_root(m, id, k);
    lemma_chain_keys(m, id, k);
}

proof fn lemma_chain_keys(m: FolderMap, id: u32, k: nat)
    ensures
        forall|j: int| 0 <= j < chain(m, id, k).len() ==> m.contains_key(#[trigger] chain(m, id, k)[j]),
    decreases k,
{
    if !(k == 0 || id == 0 || !m.contains_key(id)) {
        lemma_chain_keys(m, m[id].parent, (k - 1) as nat);
        let c = chain(m, m[id].parent, (k - 1) as nat);
        assert forall|j: int| 0 <= j < chain(m, id, k).len() implies m.contains_key(#[trigger] chain(m, id, k)[j]) by {
            if j > 0 {
                assert(chain(m, id, k)[j] == c[j - 1]);
            }
        }
    }
}

// ---------------------------------------------------------------- the tree

/// The folders of a bucket, keyed by id.
#[derive(Debug)]
pub struct FoldersTree(BTreeMap<u32, FolderMetadata>);

impl View for FoldersTree {
    type V = FolderMap;

    closed spec fn view(&self) -> FolderMap {
        self.0@.map_values(|f: FolderMetadata| f@)
    }
}

/// The folder `id` once the child `child` is added to its sub folders.
pub open spec fn with_sub_folder(f: FolderModel, child: u32) -> FolderModel {
    FolderModel { folders: f.folders.insert(child), ..f }
}

/// Whether moving folder `id` from `from` to `to` keeps a tree: the folder is a
/// non-root child of `from`, `to` exists, and walking up from `to` reaches the
/// root without meeting `id`.
pub open spec fn move_keeps_tree(m: FolderMap, id: u32, from: u32, to: u32) -> bool {
    &&& id != 0
    &&& from != to
    &&& m.contains_key(id)
    &&& m[id].parent == from
    &&& m.contains_key(from)
    &&& m.contains_key(to)
    &&& exists|k: nat| reaches_root_avoiding(m, to, id, k)
}

/// The folders after moving folder `id` from `from` to `to` at `now`; a
/// folder that does not exist is left out of the change.
pub open spec fn moved_folder(m: FolderMap, id: u32, from: u32, to: u32, now: u64) -> FolderMap {
    let m1 = if m.contains_key(from) {
        m.insert(from, FolderModel { folders: m[from].folders.remove(id), updated_at: now, ..m[from] })
    } else {
        m
    };
    let m2 = if m1.contains_key(to) {
        m1.insert(to, FolderModel { folders: m1[to].folders.insert(id), updated_at: now, ..m1[to] })
    } else {
        m1
    };
    if m2.contains_key(id) {
        m2.insert(id, FolderModel { parent: to, updated_at: now, ..m2[id] })
    } else {
        m2
    }
}

/// The folders after moving file `id` from `from` to `to` at `now`.
pub open spec fn moved_file(m: FolderMap, id: u32, from: u32, to: u32, now: u64) -> FolderMap {
    let m1 = if m.contains_key(from) {
        m.insert(from, FolderModel { files: m[from].files.remove(id), updated_at: now, ..m[from] })
    } else {
        m
    };
    if m1.contains_key(to) {
        m1.insert(to, FolderModel { files: m1[to].files.insert(id), updated_at: now, ..m1[to] })
    } else {
        m1
    }
}

/// Why `check_moving_folder` refuses a move, if it does.
pub open spec fn moving_folder_error(m: FolderMap, id: u32, from: u32, to: u32, max_depth: nat, max_children: nat) -> Option<Seq<char>> {
    if id == 0 {
        Some("root folder cannot be moved"@)
    } else if from == to {
        Some("target parent folder should not be "@ + decimal(from as nat))
    } else if !m.contains_key(id) {
        Some("folder not found: "@ + decimal(id as nat))
    } else if m[id].parent != from {
        Some("folder "@ + decimal(id as nat) + " is not in folder "@ + decimal(from as nat))
    } else if m[id].status != 0 {
        Some("folder "@ + decimal(id as nat) + " is not writable"@)
    } else if !m.contains_key(from) {
        Some("folder not found: "@ + decimal(from as nat))
    } else if m[from].status != 0 {
        Some("folder "@ + decimal(from as nat) + " is not writable"@)
    } else if !m.contains_key(to) {
        Some("folder not found: "@ + decimal(to as nat))
    } else if m[to].status != 0 {
        Some("folder "@ + decimal(to as nat) + " is not writable"@)
    } else if to > 0 && m[to].folders.len() + m[to].files.len() >= max_children {
        Some("children exceeds limit"@)
    } else if depth_or_ancestor(m, to, id, DEPTH_LIMIT as nat).1 {
        Some("folder cannot be moved to its sub folder"@)
    } else if depth_or_ancestor(m, to, id, DEPTH_LIMIT as nat).0 >= max_depth {
        Some("folder depth exceeds limit"@)
    } else {
        None
    }
}

/// Why `check_moving_file` refuses a move, if it does.
pub open spec fn moving_file_error(m: FolderMap, from: u32, to: u32, max_children: nat) -> Option<Seq<char>> {
    if from == to {
        Some("target parent should not be "@ + decimal(from as nat))
    } else if !m.contains_key(from) {
        Some("folder not found: "@ + decimal(from as nat))
    } else if m[from].status != 0 {
        Some("folder "@ + decimal(from as nat) + " is not writable"@)
    } else if !m.contains_key(to) {
        Some("folder not found: "@ + decimal(to as nat))
    } else if m[to].status != 0 {
        Some("folder "@ + decimal(to as nat) + " is not writable"@)
    } else if to > 0 && m[to].folders.len() + m[to].files.len() >= max_children {
        Some("children exceeds limit"@)
    } else {
        None
    }
}

/// Why `add_folder` refuses a new folder, if it does.
pub open spec fn add_folder_error(m: FolderMap, parent: u32, id: u32, max_depth: nat, max_children: nat) -> Option<Seq<char>> {
    if m.contains_key(id) {
        Some("folder id already exists: "@ + decimal(id as nat))
    } else if walk_depth(m, parent, DEPTH_LIMIT as nat) >= max_depth {
        Some("folder depth exceeds limit"@)
    } else if !m.contains_key(parent) {
        Some("parent folder not found: "@ + decimal(parent as nat))
    } else if m[parent].status != 0 {
        Some("parent folder is not writable"@)
    } else if parent > 0 && m[parent].folders.len() + m[parent].files.len() >= max_children {
        Some("children exceeds limit"@)
    } else {
        None
    }
}

/// Why a folder cannot take a new file, if it cannot.
pub open spec fn parent_to_add_file_error(m: FolderMap, parent: u32, max_children: nat) -> Option<Seq<char>> {
    if !m.contains_key(parent) {
        Some("parent folder not found: "@ + decimal(parent as nat))
    } else if m[parent].status != 0 {
        Some("parent folder is not writable"@)
    } else if parent > 0 && m[parent].folders.len() + m[parent].files.len() >= max_children {
        Some("children exceeds limit"@)
    } else {
        None
    }
}

/// Why a folder cannot be changed, if it cannot.
pub open spec fn parent_to_update_error(m: FolderMap, parent: u32) -> Option<Seq<char>> {
    if !m.contains_key(parent) {
        Some("parent folder not found: "@ + decimal(parent as nat))
    } else if m[parent].status != 0 {
        Some("parent folder is not writable"@)
    } else {
        None
    }
}

/// Whether folder `f` has `max` children or more.
fn children_at_limit(f: &FolderMetadata, max: usize) -> (b: bool)
    ensures
        b == (f@.folders.len() + f@.files.len() >= max),
{
    let n = f.folders.len();
    let k = f.files.len();
    n >= max || k >= max - n
}

/// `prefix` followed by the decimal form of `n`.
fn message_with_id(prefix: &str, n: u32) -> (r: String)
    ensures
        r@ == prefix@ + decimal(n as nat),
{
    let mut s = owned(prefix);
    push_decimal(&mut s, n as u64);
    s
}

impl FoldersTree {
    /// A tree holding only the root folder.
    pub fn new() -> (r: FoldersTree)
        ensures
            tree_wf(r@),
            r@.dom() == set![0u32],
            is_root_model(r@[0]),
    {
        let mut m: BTreeMap<u32, FolderMetadata> = BTreeMap::new();
        let root = FolderMetadata::new(0, owned("root"), 0, 0);
        m.insert(0, root);
        let r = FoldersTree(m);
        assert(r@.dom() =~= set![0u32]);
        assert(reaches_root(r@, 0, 0));
        r
    }

    /// The number of folders.
    pub fn len(&self) -> (n: usize)
        ensures
            n == self@.len(),
    {
        proof {
            assert(self@.dom() =~= self.0@.dom());
        }
        self.0.len()
    }

    /// Whether folder `id` exists.
    pub fn contains(&self, id: u32) -> (b: bool)
        ensures
            b == self@.contains_key(id),
    {
        self.0.contains_key(&id)
    }

    /// A copy of folder `id`, if it exists.
    pub fn get(&self, id: u32) -> (r: Option<FolderMetadata>)
        ensures
            match r {
                Some(f) => self@.contains_key(id) && f@ == self@[id],
                None => !self@.contains_key(id),
            },
    {
        match self.0.get(&id) {
            Some(f) => Some(f.copy()),
            None => None,
        }
    }

    /// The number of parent links from `id` to the root, counting at most
    /// 1024 links and stopping at a missing folder.
    pub fn depth(&self, id: u32) -> (d: usize)
        ensures
            d == walk_depth(self@, id, DEPTH_LIMIT as nat),
    {
        let ghost m = self@;
        let ghost id0 = id;
        let mut id = id;
        let mut depth: usize = 0;
        while id != 0 && depth < DEPTH_LIMIT
            invariant_except_break
                m == self@,
                depth <= DEPTH_LIMIT,
                walk_depth(m, id, (DEPTH_LIMIT - depth) as nat) + depth == walk_depth(m, id0, DEPTH_LIMIT as nat),
            ensures
                depth == walk_depth(m, id0, DEPTH_LIMIT as nat),
            decreases DEPTH_LIMIT - depth,
        {
            match self.0.get(&id) {
                None => {
                    assert(!m.contains_key(id));
                    break;
                },
                Some(folder) => {
                    assert(m.contains_key(id) && m[id].parent == folder.parent);
                    id = folder.parent;
                    depth += 1;
                },
            }
        }
        depth
    }

    /// Walks up from `id` for at most 1024 links: the number of links followed,
    /// and whether `parent` was met on the way (or is the root).
    pub fn depth_or_is_ancestor(&self, id: u32, parent: u32) -> (r: (usize, bool))
        ensures
            r.0 == depth_or_ancestor(self@, id, parent, DEPTH_LIMIT as nat).0,
            r.1 == depth_or_ancestor(self@, id, parent, DEPTH_LIMIT as nat).1,
    {
        let ghost m = self@;
        let ghost id0 = id;
        let mut cur = id;
        let mut depth: usize = 0;
        while cur != 0 && depth < DEPTH_LIMIT
            invariant_except_break
                m == self@,
                id0 == id,
                depth <= DEPTH_LIMIT,
                depth_or_ancestor(m, cur, parent, (DEPTH_LIMIT - depth) as nat).0 + depth == depth_or_ancestor(m, id0, parent, DEPTH_LIMIT as nat).0,
                depth_or_ancestor(m, cur, parent, (DEPTH_LIMIT - depth) as nat).1 == depth_or_ancestor(m, id0, parent, DEPTH_LIMIT as nat).1,
            ensures
                depth == depth_or_ancestor(m, id0, parent, DEPTH_LIMIT as nat).0,
                (parent == 0) == depth_or_ancestor(m, id0, parent, DEPTH_LIMIT as nat).1,
            decreases DEPTH_LIMIT - depth,
        {
            if cur == parent {
                assert(depth_or_ancestor(m, cur, parent, (DEPTH_LIMIT - depth) as nat).1);
                assert(depth_or_ancestor(m, cur, parent, (DEPTH_LIMIT - depth) as nat).0 == 0);
                return (depth, true);
            }
            match self.0.get(&cur) {
                None => {
                    assert(!m.contains_key(cur));
                    break;
                },
                Some(folder) => {
                    assert(m.contains_key(cur) && m[cur].parent == folder.parent);
                    cur = folder.parent;
                    depth += 1;
                },
            }
        }
        (depth, parent == 0)
    }

    /// The ids of the folders met walking up from `parent` to the root.
    pub fn ancestor_ids(&self, parent: u32) -> (r: Vec<u32>)
        requires
            tree_wf(self@),
        ensures
            r@ == ancestry(self@, parent),
    {
        let ghost m = self@;
        let ghost k0: nat = choose|k: nat| reaches_root(m, parent, k);
        let ghost mut fuel: nat = k0;
        proof {
            if m.contains_key(parent) {
                assert(exists|k: nat| reaches_root(m, parent, k));
            }
        }
        let ghost p0 = parent;
        let mut parent = parent;
        let mut res: Vec<u32> = Vec::new();
        while parent != 0
            invariant_except_break
                m == self@,
                tree_wf(m),
                k0 == choose|k: nat| reaches_root(m, p0, k),
                !m.contains_key(p0) && p0 != 0 ==> parent == p0,
                (m.contains_key(p0) || p0 == 0) ==> reaches_root(m, parent, fuel),
                res@ + chain(m, parent, fuel) == chain(m, p0, k0),
            ensures
                res@ == chain(m, p0, k0),
            decreases fuel,
        {
            match self.0.get(&parent) {
                None => {
                    assert(!m.contains_key(parent));
                    assert(chain(m, parent, fuel) == Seq::<u32>::empty());
                    assert(res@ + Seq::<u32>::empty() =~= res@);
                    break;
                },
                Some(folder) => {
                    let ghost before = res@;
                    assert(m.contains_key(parent) && m[parent].parent == folder.parent);
                    proof {
                        if !m.contains_key(p0) && p0 != 0 {
                            assert(false);
                        }
                    }
                    assert(fuel > 0);
                    res.push(parent);
                    assert(chain(m, parent, fuel) == seq![parent] + chain(m, folder.parent, (fuel - 1) as nat));
                    assert(res@ + chain(m, folder.parent, (fuel - 1) as nat) =~= before + chain(m, parent, fuel));
                    parent = folder.parent;
                    proof {
                        fuel = (fuel - 1) as nat;
                    }
                },
            }
        }
        proof {
            if parent == 0 {
                assert(chain(m, parent, fuel) == Seq::<u32>::empty());
                assert(res@ + Seq::<u32>::empty() =~= res@);
            }
        }
        res
    }

    /// The ids and names of the folders met walking up from `parent` to the root.
    pub fn ancestors(&self, parent: u32) -> (r: Vec<FolderName>)
        requires
            tree_wf(self@),
        ensures
            r@.len() == ancestry(self@, parent).len(),
            forall|i: int| 0 <= i < r@.len() ==> (#[trigger] r@[i]).id == ancestry(self@, parent)[i]
                && r@[i].name@ == self@[ancestry(self@, parent)[i]].name,
    {
        let ids = self.ancestor_ids(parent);
        let mut res: Vec<FolderName> = Vec::new();
        proof {
            lemma_chain_in_tree(self@, parent);
        }
        for i in 0..ids.len()
            invariant
                ids@ == ancestry(self@, parent),
                forall|j: int| 0 <= j < ids@.len() ==> self@.contains_key(#[trigger] ids@[j]),
                res@.len() == i,
                forall|j: int| 0 <= j < i ==> (#[trigger] res@[j]).id == ids@[j] && res@[j].name@ == self@[ids@[j]].name,
        {
            let id = ids[i];
            assert(self@.contains_key(ids@[i as int]));
            match self.0.get(&id) {
                Some(f) => {
                    res.push(FolderName { id, name: f.name.clone() });
                },
                None => {
                    assert(false);
                },
            }
        }
        res
    }

    /// `f` applied to each folder met walking up from `parent` to the root,
    /// with that folder's id.
    pub fn ancestors_map<F, U>(&self, parent: u32, f: F) -> (r: Vec<U>)
        where
            F: Fn(u32, &FolderMetadata) -> U,
        requires
            tree_wf(self@),
            forall|id: u32, x: &FolderMetadata| #[trigger] f.requires((id, x)),
        ensures
            r@.len() == ancestry(self@, parent).len(),
            forall|i: int|
                0 <= i < r@.len() ==> mapped_folder(
                    f,
                    ancestry(self@, parent)[i],
                    self@[ancestry(self@, parent)[i]],
                    #[trigger] r@[i],
                ),
    {
        let ids = self.ancestor_ids(parent);
        let mut res: Vec<U> = Vec::new();
        proof {
            lemma_chain_in_tree(self@, parent);
        }
        let mut i: usize = 0;
        while i < ids.len()
            invariant
                i <= ids@.len(),
                ids@ == ancestry(self@, parent),
                forall|id: u32, x: &FolderMetadata| #[trigger] f.requires((id, x)),
                forall|j: int| 0 <= j < ids@.len() ==> self@.contains_key(#[trigger] ids@[j]),
                res@.len() == i,
                forall|j: int| 0 <= j < i ==> mapped_folder(f, ids@[j], self@[ids@[j]], #[trigger] res@[j]),
            decreases ids@.len() - i,
        {
            let id = ids[i];
            assert(self@.contains_key(ids@[i as int]));
            match self.0.get(&id) {
                Some(folder) => {
                    let u = f(id, folder);
                    let ghost fx: FolderMetadata = *folder;
                    assert(fx@ == self@[id] && f.ensures((id, &fx), u));
                    assert(mapped_folder(f, id, self@[id], u));
                    res.push(u);
                },
                None => {
                    assert(false);
                },
            }
            i += 1;
        }
        res
    }
}


/// `u` is what `f` may return for folder `id` whose value is `folder`.
pub open spec fn mapped_folder<F: Fn(u32, &FolderMetadata) -> U, U>(f: F, id: u32, folder: FolderModel, u: U) -> bool {
    exists|x: FolderMetadata| x@ == folder && #[trigger] f.ensures((id, &x), u)
}

/// `r` lists, from `ids`, the folders that exist, in order, stopping at the
/// first id that is missing and after `take` of them (at least one).
pub open spec fn folder_listing(m: FolderMap, ids: Seq<u32>, take: u32, r: Seq<FolderInfo>) -> bool {
    let cap: int = if take == 0 { 1 } else { take as int };
    &&& r.len() <= ids.len()
    &&& r.len() <= cap
    &&& forall|j: int| 0 <= j < r.len() ==> m.contains_key(#[trigger] ids[j])
    &&& forall|j: int| 0 <= j < r.len() ==> info_of(#[trigger] r[j], ids[j], m[ids[j]])
    &&& (r.len() < cap && r.len() < ids.len() ==> !m.contains_key(ids[r.len() as int]))
}

/// Whether the folder `parent` is hidden from a caller with `role`: it is
/// missing, or archived and the caller is below auditor.
pub open spec fn listing_hidden(m: FolderMap, parent: u32, role: Role) -> bool {
    !m.contains_key(parent) || (m[parent].status < 0 && role.rank() < 1)
}

/// Why `delete_folder` refuses to delete folder `id`, if it does.
pub open spec fn delete_folder_error(m: FolderMap, id: u32) -> Option<Seq<char>> {
    if id == 0 {
        Some("root folder cannot be deleted"@)
    } else if !m.contains_key(id) {
        None
    } else if m[id].status > 0 {
        Some("folder is readonly"@)
    } else if m[id].folders.len() > 0 || m[id].files.len() > 0 {
        Some("folder is not empty"@)
    } else if !m.contains_key(m[id].parent) {
        Some("parent folder not found: "@ + decimal(m[id].parent as nat))
    } else if m[m[id].parent].status != 0 {
        Some("parent folder is not writable"@)
    } else {
        None
    }
}

/// The folders after deleting the empty folder `id` at `now`.
pub open spec fn deleted_folder(m: FolderMap, id: u32, now: u64) -> FolderMap {
    let p = m[id].parent;
    let m1 = m.insert(
        p,
        FolderModel {
            folders: m[p].folders.remove(id),
            updated_at: if m[p].folders.contains(id) { now } else { m[p].updated_at },
            ..m[p]
        },
    );
    m1.remove(id)
}

/// The folders after adding the new folder `f` under the id `id`.
pub open spec fn added_folder(m: FolderMap, id: u32, f: FolderModel) -> FolderMap {
    m.insert(f.parent, with_sub_folder(m[f.parent], id)).insert(id, f)
}

/// The folders after adding (`add`) or removing `id` among the files of `parent`.
pub open spec fn with_file(m: FolderMap, parent: u32, id: u32, add: bool) -> FolderMap {
    m.insert(
        parent,
        FolderModel {
            files: if add { m[parent].files.insert(id) } else { m[parent].files.remove(id) },
            ..m[parent]
        },
    )
}

/// The folders after marking folder `id` updated at `now`.
pub open spec fn touched(m: FolderMap, id: u32, now: u64) -> FolderMap {
    m.insert(id, FolderModel { updated_at: now, ..m[id] })
}

/// Whether every folder keeps its parent link, and its sub folders, from `m` to `m2`.
pub open spec fn links_kept(m: FolderMap, m2: FolderMap) -> bool {
    &&& m2.dom() == m.dom()
    &&& forall|y: u32| #[trigger] m.contains_key(y) ==> m2[y].parent == m[y].parent && m2[y].folders == m[y].folders
}

/// A change that keeps every parent link and every list of sub folders keeps
/// the tree well formed.
pub proof fn lemma_links_kept(m: FolderMap, m2: FolderMap)
    requires
        tree_wf(m),
        links_kept(m, m2),
    ensures
        tree_wf(m2),
{
    assert forall|x: u32| #[trigger] m2.contains_key(x) implies exists|k: nat| reaches_root(m2, x, k) by {
        assert(m.contains_key(x));
        let k = choose|k: nat| reaches_root(m, x, k);
        lemma_reaches_mono(m, m2, x, k);
    }
}

/// Adding a folder under an existing parent keeps the tree well formed.
pub proof fn lemma_add_keeps_tree(m: FolderMap, id: u32, f: FolderModel)
    requires
        tree_wf(m),
        !m.contains_key(id),
        m.contains_key(f.parent),
    ensures
        tree_wf(added_folder(m, id, f)),
{
    let m2 = added_folder(m, id, f);
    let p = f.parent;
    assert forall|y: u32| #[trigger] m.contains_key(y) implies m2.contains_key(y) && m2[y].parent == m[y].parent by {
        assert(y != id);
    }
    assert forall|x: u32| #[trigger] m2.contains_key(x) && x != 0 implies m2.contains_key(m2[x].parent)
        && m2[m2[x].parent].folders.contains(x) by {
        if x != id {
            let q = m[x].parent;
            assert(m.contains_key(q) && m[q].folders.contains(x));
            assert(q != id);
        }
    }
    let kp = choose|k: nat| reaches_root(m, p, k);
    lemma_reaches_mono(m, m2, p, kp);
    assert(id != 0);
    assert(reaches_root(m2, id, kp + 1));
    assert forall|x: u32| #[trigger] m2.contains_key(x) implies exists|k: nat| reaches_root(m2, x, k) by {
        if x == id {
            assert(reaches_root(m2, id, kp + 1));
        } else {
            let k = choose|k: nat| reaches_root(m, x, k);
            lemma_reaches_mono(m, m2, x, k);
        }
    }
}

/// After a change that keeps every parent link but that of `id`, where `id`
/// reaches the root within `kid` links, every folder that reached the root
/// still does.
proof fn lemma_reach_after(m: FolderMap, m2: FolderMap, x: u32, id: u32, k: nat, kid: nat) -> (k2: nat)
    requires
        reaches_root(m, x, k),
        reaches_root(m2, id, kid),
        forall|y: u32| #[trigger] m.contains_key(y) && y != id ==> m2.contains_key(y) && m2[y].parent == m[y].parent,
    ensures
        reaches_root(m2, x, k2),
    decreases k,
{
    if x == 0 {
        0
    } else if x == id {
        kid
    } else {
        let k1 = lemma_reach_after(m, m2, m[x].parent, id, (k - 1) as nat, kid);
        k1 + 1
    }
}

/// Moving a folder under a folder that is not below it keeps the tree well formed.
pub proof fn lemma_move_keeps_tree(m: FolderMap, id: u32, from: u32, to: u32, now: u64)
    requires
        tree_wf(m),
        move_keeps_tree(m, id, from, to),
    ensures
        tree_wf(moved_folder(m, id, from, to, now)),
{
    let m2 = moved_folder(m, id, from, to, now);
    let kt = choose|k: nat| reaches_root_avoiding(m, to, id, k);
    assert(to != id);
    assert forall|y: u32| #[trigger] m.contains_key(y) && y != id implies m2.contains_key(y) && m2[y].parent == m[y].parent by {}
    lemma_avoiding_kept(m, m2, to, id, kt);
    assert(reaches_root(m2, id, kt + 1));
    assert forall|x: u32| #[trigger] m2.contains_key(x) && x != 0 implies m2.contains_key(m2[x].parent)
        && m2[m2[x].parent].folders.contains(x) by {
        if x != id {
            let q = m[x].parent;
            assert(m.contains_key(q) && m[q].folders.contains(x));
        }
    }
    assert forall|x: u32| #[trigger] m2.contains_key(x) implies exists|k: nat| reaches_root(m2, x, k) by {
        let k = choose|k: nat| reaches_root(m, x, k);
        let k2 = lemma_reach_after(m, m2, x, id, k, kt + 1);
    }
}

/// Walking up from a folder other than `id`, in a tree where no folder has
/// `id` as its parent, never meets `id`.
proof fn lemma_avoids_leaf(m: FolderMap, x: u32, id: u32, k: nat)
    requires
        reaches_root(m, x, k),
        x != id,
        id != 0,
        forall|y: u32| #[trigger] m.contains_key(y) && y != 0 ==> m[y].parent != id,
    ensures
        reaches_root_avoiding(m, x, id, k),
    decreases k,
{
    if x != 0 {
        lemma_avoids_leaf(m, m[x].parent, id, (k - 1) as nat);
    }
}

/// Deleting a folder with no sub folders keeps the tree well formed.
pub proof fn lemma_delete_keeps_tree(m: FolderMap, id: u32, now: u64)
    requires
        tree_wf(m),
        id != 0,
        m.contains_key(id),
        m[id].folders == Set::<u32>::empty(),
    ensures
        tree_wf(deleted_folder(m, id, now)),
{
    let m2 = deleted_folder(m, id, now);
    let p = m[id].parent;
    assert forall|y: u32| #[trigger] m.contains_key(y) && y != 0 implies m[y].parent != id by {
        if m[y].parent == id {
            assert(m[id].folders.contains(y));
        }
    }
    assert forall|x: u32| #[trigger] m2.contains_key(x) && x != 0 implies m2.contains_key(m2[x].parent)
        && m2[m2[x].parent].folders.contains(x) by {
        let q = m[x].parent;
        assert(m.contains_key(q) && m[q].folders.contains(x));
        assert(q != id);
    }
    assert forall|x: u32| #[trigger] m2.contains_key(x) implies exists|k: nat| reaches_root(m2, x, k) by {
        let k = choose|k: nat| reaches_root(m, x, k);
        lemma_avoids_leaf(m, x, id, k);
        lemma_avoiding_kept(m, m2, x, id, k);
    }
}

impl FoldersTree {
    /// Takes folder `id` out of the tree.
    fn take(&mut self, id: u32) -> (r: Option<FolderMetadata>)
        ensures
            final(self)@ == old(self)@.remove(id),
            match r {
                Some(f) => old(self)@.contains_key(id) && f@ == old(self)@[id],
                None => !old(self)@.contains_key(id),
            },
    {
        let r = self.0.remove(&id);
        proof {
            assert(self@ =~= old(self)@.remove(id));
        }
        r
    }

    /// Puts folder `f` in the tree under the id `id`.
    fn put(&mut self, id: u32, f: FolderMetadata)
        ensures
            final(self)@ == old(self)@.insert(id, f@),
    {
        self.0.insert(id, f);
        proof {
            assert(self@ =~= old(self)@.insert(id, f@));
        }
    }

    /// The sub folders of `parent` with ids below `prev`, largest id first, at
    /// most `take` of them (and at least one), stopping at the first that is
    /// missing; nothing when `parent` is missing, or archived and the caller
    /// is below auditor.
    pub fn list_folders(&self, ctx: &Context, parent: u32, prev: u32, take: u32) -> (r: Vec<FolderInfo>)
        ensures
            listing_hidden(self@, parent, ctx.role) ==> r@.len() == 0,
            !listing_hidden(self@, parent, ctx.role) ==> folder_listing(
                self@,
                desc_below(ordered(self@[parent].folders), prev),
                take,
                r@,
            ),
    {
        self.list_folders_for(ctx.role, parent, prev, take)
    }

    /// The sub folders of `parent` below `prev` that a caller of role `role`
    /// sees, largest id first, at most `take` of them (and at least one).
    pub fn list_folders_for(&self, role: Role, parent: u32, prev: u32, take: u32) -> (r: Vec<FolderInfo>)
        ensures
            listing_hidden(self@, parent, role) ==> r@.len() == 0,
            !listing_hidden(self@, parent, role) ==> folder_listing(
                self@,
                desc_below(ordered(self@[parent].folders), prev),
                take,
                r@,
            ),
    {
        let ghost m = self@;
        match self.0.get(&parent) {
            None => Vec::new(),
            Some(pf) => {
                if pf.status < 0 && !role.at_least(&Role::Auditor) {
                    return Vec::new();
                }
                pf.folders.seq_facts();
                let ids = pf.folders.below_desc(prev);
                let mut res: Vec<FolderInfo> = Vec::new();
                let mut i: usize = 0;
                while i < ids.len()
                    invariant_except_break
                        m == self@,
                        i <= ids@.len(),
                        res@.len() == i,
                        i == 0 || i < take,
                        forall|j: int| 0 <= j < i ==> m.contains_key(#[trigger] ids@[j]),
                        forall|j: int| 0 <= j < i ==> info_of(#[trigger] res@[j], ids@[j], m[ids@[j]]),
                    ensures
                        folder_listing(m, ids@, take, res@),
                    decreases ids@.len() - i,
                {
                    let fid = ids[i];
                    match self.0.get(&fid) {
                        None => {
                            assert(!m.contains_key(fid));
                            assert(ids@[res@.len() as int] == fid);
                            break;
                        },
                        Some(f) => {
                            assert(m.contains_key(fid) && m[fid] == f@);
                            let info = f.copy().into_info(fid);
                            let ghost before = res@;
                            res.push(info);
                            assert(forall|j: int| 0 <= j < i ==> res@[j] == before[j]);
                            assert(res@[i as int] == info);
                            if res.len() >= take as usize {
                                break;
                            }
                        },
                    }
                    i += 1;
                }
                res
            },
        }
    }

    /// Checks that folder `parent` exists and is writable.
    pub fn parent_to_update(&self, parent: u32) -> (r: Result<(), String>)
        ensures
            match parent_to_update_error(self@, parent) {
                Some(e) => r matches Err(x) && x@ == e,
                None => r is Ok,
            },
    {
        match self.0.get(&parent) {
            None => Err(message_with_id("parent folder not found: ", parent)),
            Some(f) => {
                if f.status != 0 {
                    return Err(owned("parent folder is not writable"));
                }
                Ok(())
            },
        }
    }

    /// Checks that folder `parent` exists, is writable and, unless it is the
    /// root, has room for another child.
    pub fn parent_to_add_file(&self, parent: u32, max_children: usize) -> (r: Result<(), String>)
        ensures
            match parent_to_add_file_error(self@, parent, max_children as nat) {
                Some(e) => r matches Err(x) && x@ == e,
                None => r is Ok,
            },
    {
        match self.0.get(&parent) {
            None => Err(message_with_id("parent folder not found: ", parent)),
            Some(f) => {
                if f.status != 0 {
                    return Err(owned("parent folder is not writable"));
                }
                if parent > 0 && children_at_limit(&f, max_children) {
                    return Err(owned("children exceeds limit"));
                }
                Ok(())
            },
        }
    }

    /// Adds folder `metadata` under the id `id`, below its parent.
    pub fn add_folder(&mut self, metadata: FolderMetadata, id: u32, max_folder_depth: usize, max_children: usize) -> (r: Result<(), String>)
        ensures
            match add_folder_error(old(self)@, metadata.parent, id, max_folder_depth as nat, max_children as nat) {
                Some(e) => r matches Err(x) && x@ == e && final(self)@ == old(self)@,
                None => r is Ok && final(self)@ == added_folder(old(self)@, id, metadata@),
            },
            tree_wf(old(self)@) ==> tree_wf(final(self)@),
    {
        if self.0.contains_key(&id) {
            return Err(message_with_id("folder id already exists: ", id));
        }
        if self.depth(metadata.parent) >= max_folder_depth {
            return Err(owned("folder depth exceeds limit"));
        }
        let pid = metadata.parent;
        match self.take(pid) {
            None => Err(message_with_id("parent folder not found: ", pid)),
            Some(mut pf) => {
                if pf.status != 0 {
                    self.put(pid, pf);
                    proof {
                        assert(self@ =~= old(self)@);
                    }
                    return Err(owned("parent folder is not writable"));
                }
                if pid > 0 && children_at_limit(&pf, max_children) {
                    self.put(pid, pf);
                    proof {
                        assert(self@ =~= old(self)@);
                    }
                    return Err(owned("children exceeds limit"));
                }
                pf.folders.insert(id);
                self.put(pid, pf);
                self.put(id, metadata);
                proof {
                    assert(self@ =~= added_folder(old(self)@, id, metadata@));
                    if tree_wf(old(self)@) {
                        lemma_add_keeps_tree(old(self)@, id, metadata@);
                    }
                }
                Ok(())
            },
        }
    }

    /// Checks that folder `id` can move from `from` to `to`.
    pub fn check_moving_folder(&self, id: u32, from: u32, to: u32, max_folder_depth: usize, max_children: usize) -> (r: Result<(), String>)
        ensures
            match moving_folder_error(self@, id, from, to, max_folder_depth as nat, max_children as nat) {
                Some(e) => r matches Err(x) && x@ == e,
                None => r is Ok,
            },
            r is Ok && tree_wf(self@) && max_folder_depth <= DEPTH_LIMIT ==> move_keeps_tree(self@, id, from, to),
    {
        if id == 0 {
            return Err(owned("root folder cannot be moved"));
        }
        if from == to {
            return Err(message_with_id("target parent folder should not be ", from));
        }
        match self.0.get(&id) {
            None => {
                return Err(message_with_id("folder not found: ", id));
            },
            Some(folder) => {
                if folder.parent != from {
                    let mut e = message_with_id("folder ", id);
                    push_str(&mut e, " is not in folder ");
                    push_decimal(&mut e, from as u64);
                    return Err(e);
                }
                if folder.status != 0 {
                    let mut e = message_with_id("folder ", id);
                    push_str(&mut e, " is not writable");
                    return Err(e);
                }
            },
        }
        match self.0.get(&from) {
            None => {
                return Err(message_with_id("folder not found: ", from));
            },
            Some(f) => {
                if f.status != 0 {
                    let mut e = message_with_id("folder ", from);
                    push_str(&mut e, " is not writable");
                    return Err(e);
                }
            },
        }
        match self.0.get(&to) {
            None => {
                return Err(message_with_id("folder not found: ", to));
            },
            Some(f) => {
                if f.status != 0 {
                    let mut e = message_with_id("folder ", to);
                    push_str(&mut e, " is not writable");
                    return Err(e);
                }
                if to > 0 && children_at_limit(&f, max_children) {
                    return Err(owned("children exceeds limit"));
                }
            },
        }
        let (depth, is_ancestor) = self.depth_or_is_ancestor(to, id);
        if is_ancestor {
            return Err(owned("folder cannot be moved to its sub folder"));
        }
        if depth >= max_folder_depth {
            return Err(owned("folder depth exceeds limit"));
        }
        proof {
            if tree_wf(self@) && max_folder_depth <= DEPTH_LIMIT {
                lemma_dpa_avoiding(self@, to, id, DEPTH_LIMIT as nat);
            }
        }
        Ok(())
    }

    /// Moves folder `id` from `from` to `to` at `now_ms`; folders that do not
    /// exist are left out of the change.
    pub fn move_folder(&mut self, id: u32, from: u32, to: u32, now_ms: u64)
        ensures
            final(self)@ == moved_folder(old(self)@, id, from, to, now_ms),
            tree_wf(old(self)@) && move_keeps_tree(old(self)@, id, from, to) ==> tree_wf(final(self)@),
    {
        let ghost m = self@;
        if let Some(mut f) = self.take(from) {
            f.folders.remove(id);
            f.updated_at = now_ms;
            self.put(from, f);
        } else {
            proof {
                assert(self@ =~= m);
            }
        }
        let ghost m1 = self@;
        if let Some(mut f) = self.take(to) {
            f.folders.insert(id);
            f.updated_at = now_ms;
            self.put(to, f);
        } else {
            proof {
                assert(self@ =~= m1);
            }
        }
        let ghost m2 = self@;
        if let Some(mut f) = self.take(id) {
            f.parent = to;
            f.updated_at = now_ms;
            self.put(id, f);
        } else {
            proof {
                assert(self@ =~= m2);
            }
        }
        proof {
            assert(self@ =~= moved_folder(m, id, from, to, now_ms));
            if tree_wf(m) && move_keeps_tree(m, id, from, to) {
                lemma_move_keeps_tree(m, id, from, to, now_ms);
            }
        }
    }

    /// Checks that a file can move from folder `from` to folder `to`.
    pub fn check_moving_file(&self, from: u32, to: u32, max_children: usize) -> (r: Result<(), String>)
        ensures
            match moving_file_error(self@, from, to, max_children as nat) {
                Some(e) => r matches Err(x) && x@ == e,
                None => r is Ok,
            },
    {
        if from == to {
            return Err(message_with_id("target parent should not be ", from));
        }
        match self.0.get(&from) {
            None => {
                return Err(message_with_id("folder not found: ", from));
            },
            Some(f) => {
                if f.status != 0 {
                    let mut e = message_with_id("folder ", from);
                    push_str(&mut e, " is not writable");
                    return Err(e);
                }
            },
        }
        match self.0.get(&to) {
            None => Err(message_with_id("folder not found: ", to)),
            Some(f) => {
                if f.status != 0 {
                    let mut e = message_with_id("folder ", to);
                    push_str(&mut e, " is not writable");
                    return Err(e);
                }
                if to > 0 && children_at_limit(&f, max_children) {
                    return Err(owned("children exceeds limit"));
                }
                Ok(())
            },
        }
    }

    /// Moves file `id` from folder `from` to folder `to` at `now_ms`; folders
    /// that do not exist are left out of the change.
    pub fn move_file(&mut self, id: u32, from: u32, to: u32, now_ms: u64)
        ensures
            final(self)@ == moved_file(old(self)@, id, from, to, now_ms),
            tree_wf(old(self)@) ==> tree_wf(final(self)@),
    {
        let ghost m = self@;
        if let Some(mut f) = self.take(from) {
            f.files.remove(id);
            f.updated_at = now_ms;
            self.put(from, f);
        } else {
            proof {
                assert(self@ =~= m);
            }
        }
        let ghost m1 = self@;
        if let Some(mut f) = self.take(to) {
            f.files.insert(id);
            f.updated_at = now_ms;
            self.put(to, f);
        } else {
            proof {
                assert(self@ =~= m1);
            }
        }
        proof {
            assert(self@ =~= moved_file(m, id, from, to, now_ms));
            if tree_wf(m) {
                lemma_links_kept(m, self@);
            }
        }
    }

    /// Adds (`add`) or removes file `id` among the files of folder `parent`,
    /// which must exist.
    pub fn set_file(&mut self, parent: u32, id: u32, add: bool)
        requires
            old(self)@.contains_key(parent),
        ensures
            final(self)@ == with_file(old(self)@, parent, id, add),
            tree_wf(old(self)@) ==> tree_wf(final(self)@),
    {
        let ghost m = self@;
        if let Some(mut f) = self.take(parent) {
            if add {
                f.files.insert(id);
            } else {
                f.files.remove(id);
            }
            self.put(parent, f);
        }
        proof {
            assert(self@ =~= with_file(m, parent, id, add));
            if tree_wf(m) {
                lemma_links_kept(m, self@);
            }
        }
    }

    /// Marks folder `id`, which must exist, updated at `now_ms`.
    pub fn touch(&mut self, id: u32, now_ms: u64)
        requires
            old(self)@.contains_key(id),
        ensures
            final(self)@ == touched(old(self)@, id, now_ms),
            tree_wf(old(self)@) ==> tree_wf(final(self)@),
    {
        let ghost m = self@;
        if let Some(mut f) = self.take(id) {
            f.updated_at = now_ms;
            self.put(id, f);
        }
        proof {
            assert(self@ =~= touched(m, id, now_ms));
            if tree_wf(m) {
                lemma_links_kept(m, self@);
            }
        }
    }

    /// Renames folder `id`, which must exist, and sets its status, at `now_ms`.
    pub fn set_name_status(&mut self, id: u32, name: Option<String>, status: i8, now_ms: u64)
        requires
            old(self)@.contains_key(id),
        ensures
            final(self)@ == old(self)@.insert(
                id,
                FolderModel {
                    name: match name {
                        Some(n) => n@,
                        None => old(self)@[id].name,
                    },
                    status,
                    updated_at: now_ms,
                    ..old(self)@[id]
                },
            ),
            tree_wf(old(self)@) ==> tree_wf(final(self)@),
    {
        let ghost m = self@;
        let ghost n = name;
        if let Some(mut f) = self.take(id) {
            if let Some(nm) = name {
                f.name = nm;
            }
            f.status = status;
            f.updated_at = now_ms;
            self.put(id, f);
        }
        proof {
            assert(self@ =~= m.insert(
                id,
                FolderModel {
                    name: match n {
                        Some(x) => x@,
                        None => m[id].name,
                    },
                    status,
                    updated_at: now_ms,
                    ..m[id]
                },
            ));
            if tree_wf(m) {
                lemma_links_kept(m, self@);
            }
        }
    }

    /// Deletes the empty folder `id` at `now_ms`: `Ok(false)` when it does not
    /// exist.
    pub fn delete_folder(&mut self, id: u32, now_ms: u64) -> (r: Result<bool, String>)
        ensures
            match delete_folder_error(old(self)@, id) {
                Some(e) => r matches Err(x) && x@ == e && final(self)@ == old(self)@,
                None => if old(self)@.contains_key(id) {
                    r == Ok::<bool, String>(true) && final(self)@ == deleted_folder(old(self)@, id, now_ms)
                } else {
                    r == Ok::<bool, String>(false) && final(self)@ == old(self)@
                },
            },
            tree_wf(old(self)@) ==> tree_wf(final(self)@),
    {
        let ghost m = self@;
        if id == 0 {
            return Err(owned("root folder cannot be deleted"));
        }
        let parent_id = match self.0.get(&id) {
            None => {
                return Ok(false);
            },
            Some(folder) => {
                if folder.status > 0 {
                    return Err(owned("folder is readonly"));
                }
                if !folder.folders.is_empty() || !folder.files.is_empty() {
                    return Err(owned("folder is not empty"));
                }
                folder.folders.seq_facts();
                assert(folder.folders.seq() =~= Seq::<u32>::empty());
                assert(folder@.folders =~= Set::<u32>::empty());
                assert(m[id] == folder@);
                folder.parent
            },
        };
        match self.take(parent_id) {
            None => {
                return Err(message_with_id("parent folder not found: ", parent_id));
            },
            Some(mut pf) => {
                if pf.status != 0 {
                    self.put(parent_id, pf);
                    proof {
                        assert(self@ =~= m);
                    }
                    return Err(owned("parent folder is not writable"));
                }
                if pf.folders.remove(id) {
                    pf.updated_at = now_ms;
                }
                self.put(parent_id, pf);
            },
        }
        let removed = self.take(id);
        proof {
            assert(self@ =~= deleted_folder(m, id, now_ms));
            if tree_wf(m) {
                lemma_delete_keeps_tree(m, id, now_ms);
            }
        }
        Ok(removed.is_some())
    }
}

} // verus!
