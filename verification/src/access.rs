//! Who may do what in a bucket: the role of a caller, the grants a request
//! gets from the bucket's settings and its access token, and the checks that
//! each file and folder operation makes against them.
use vstd::prelude::*;
use crate::bucket::{Bucket, Role};
use crate::fs::BucketStore;
use crate::permission::{
    parse_policy, parsed_policies, policies_admit, policies_admit_any, policies_valid, policy_list_all,
    policy_read_all, policy_all, sorted_policies, string_views, Operation, Permission, PermissionChecker,
    PermissionCheckerAny, PermissionModel, Policies, PolicyModel, Resource, OperationModel, ResourceModel,
};
use crate::text::{decimal, decimal_string, owned, split_spec};
use crate::tree::ancestry;

verus! {

/// The views of a sequence of byte strings.
pub open spec fn bytes_views(v: Seq<Vec<u8>>) -> Seq<Seq<u8>> {
    v.map_values(|x: Vec<u8>| x@)
}

/// Whether two byte strings are equal.
pub fn same_bytes(a: &[u8], b: &[u8]) -> (r: bool)
    ensures
        r == (a@ == b@),
{
    if a.len() != b.len() {
        return false;
    }
    let mut i: usize = 0;
    while i < a.len()
        invariant
            a@.len() == b@.len(),
            i <= a@.len(),
            forall|j: int| 0 <= j < i ==> a@[j] == b@[j],
        decreases a@.len() - i,
    {
        if a[i] != b[i] {
            return false;
        }
        i += 1;
    }
    assert(a@ =~= b@);
    true
}

/// Whether `x` is one of `v`.
pub fn contains_bytes(v: &Vec<Vec<u8>>, x: &[u8]) -> (r: bool)
    ensures
        r == bytes_views(v@).contains(x@),
{
    let mut i: usize = 0;
    while i < v.len()
        invariant
            i <= v@.len(),
            forall|j: int| 0 <= j < i ==> (#[trigger] v@[j])@ != x@,
        decreases v@.len() - i,
    {
        if same_bytes(v[i].as_slice(), x) {
            assert(bytes_views(v@)[i as int] == x@);
            return true;
        }
        i += 1;
    }
    assert forall|j: int| 0 <= j < bytes_views(v@).len() implies bytes_views(v@)[j] != x@ by {
        assert(bytes_views(v@)[j] == v@[j]@);
    }
    false
}

/// The role of `caller` in a bucket with these managers and auditors.
pub open spec fn role_of(managers: Seq<Seq<u8>>, auditors: Seq<Seq<u8>>, caller: Seq<u8>) -> Role {
    if managers.contains(caller) {
        Role::Manager
    } else if auditors.contains(caller) {
        Role::Auditor
    } else {
        Role::User
    }
}

/// The role of `caller` in the bucket: manager, else auditor, else user.
pub fn role(bucket: &Bucket, caller: &[u8]) -> (r: Role)
    ensures
        r == role_of(bytes_views(bucket.managers@), bytes_views(bucket.auditors@), caller@),
{
    if contains_bytes(&bucket.managers, caller) {
        Role::Manager
    } else if contains_bytes(&bucket.auditors, caller) {
        Role::Auditor
    } else {
        Role::User
    }
}

/// An access token whose signature and validity period have been checked.
#[derive(Clone, Debug)]
pub struct Token {
    /// The principal, as bytes, on whose behalf the token acts.
    pub subject: Vec<u8>,
    /// The principal, as bytes, of the canister the token is for.
    pub audience: Vec<u8>,
    /// The policies the token grants, as text.
    pub policies: String,
}

/// `v` is what the text `s` reads as: the policies of its space-separated
/// pieces, in policy order.
pub open spec fn policies_read(v: Seq<PolicyModel>, s: Seq<char>) -> bool {
    sorted_policies(v) && v.to_set() == (if s == ""@ {
        Set::<PolicyModel>::empty()
    } else {
        parsed_policies(split_spec(s, ' ')).to_set()
    })
}

/// `e` is why the text `s` does not read as policies: the error of its first
/// piece that does not read as a policy.
pub open spec fn policies_error(s: Seq<char>, e: Seq<char>) -> bool {
    exists|k: int|
        0 <= k < split_spec(s, ' ').len() && parse_policy(#[trigger] split_spec(s, ' ')[k]) == Err::<
            PolicyModel,
            Seq<char>,
        >(e) && forall|j: int| 0 <= j < k ==> parse_policy(split_spec(s, ' ')[j]) is Ok
}

/// The policies that a checked token grants on the canister `canister`.
pub open spec fn token_grants(t: Token, canister: Seq<u8>) -> bool {
    t.audience@ == canister && policies_valid(t.policies@)
}

/// What a request gets from a checked token (or the reason the token was not
/// checked) on the canister `canister`: the token's subject and policies, or
/// an HTTP status and a message.
pub open spec fn token_outcome(
    token: Option<Result<Token, String>>,
    canister: Seq<u8>,
    r: Result<(Seq<u8>, Seq<PolicyModel>), (u16, Seq<char>)>,
) -> bool {
    match token {
        None => r == Err::<(Seq<u8>, Seq<PolicyModel>), (u16, Seq<char>)>((401, "Unauthorized"@)),
        Some(Err(e)) => r == Err::<(Seq<u8>, Seq<PolicyModel>), (u16, Seq<char>)>((401, e@)),
        Some(Ok(t)) => if t.audience@ != canister {
            r == Err::<(Seq<u8>, Seq<PolicyModel>), (u16, Seq<char>)>((401, "Unauthorized"@))
        } else if !policies_valid(t.policies@) {
            r matches Err((c, m)) && c == 403 && policies_error(t.policies@, m)
        } else {
            r matches Ok((subject, ps)) && subject == t.subject@ && policies_read(ps, t.policies@)
        },
    }
}

/// The value of a token check's result.
pub open spec fn token_result(r: Result<(Vec<u8>, Policies), (u16, String)>) -> Result<(Seq<u8>, Seq<PolicyModel>), (u16, Seq<char>)> {
    match r {
        Ok((s, ps)) => Ok((s@, ps@)),
        Err((c, m)) => Err((c, m@)),
    }
}

/// The subject and the policies of a checked token meant for `canister`.
pub fn token_policies(token: Option<Result<Token, String>>, canister: &[u8]) -> (r: Result<(Vec<u8>, Policies), (u16, String)>)
    ensures
        token_outcome(token, canister@, token_result(r)),
{
    proof {
        reveal_strlit("Unauthorized");
    }
    match token {
        None => Err((401, owned("Unauthorized"))),
        Some(Err(e)) => Err((401, e)),
        Some(Ok(t)) => {
            if !same_bytes(t.audience.as_slice(), canister) {
                return Err((401, owned("Unauthorized")));
            }
            match Policies::try_from(t.policies.as_str()) {
                Ok(ps) => Ok((t.subject, ps)),
                Err(e) => Err((403, e)),
            }
        },
    }
}

/// The value of a request context, or of the refusal of a request.
pub open spec fn context_result(r: Result<crate::bucket::Context, (u16, String)>) -> Result<(Seq<u8>, Seq<PolicyModel>), (u16, Seq<char>)> {
    match r {
        Ok(ctx) => Ok((ctx.caller@, ctx.ps@)),
        Err((c, m)) => Err((c, m@)),
    }
}

/// The request context of a read, as the bucket's settings and the token grant it.
pub open spec fn read_outcome(
    b: Bucket,
    caller: Seq<u8>,
    canister: Seq<u8>,
    token: Option<Result<Token, String>>,
    r: Result<crate::bucket::Context, (u16, String)>,
) -> bool {
    let role = role_of(bytes_views(b.managers@), bytes_views(b.auditors@), caller);
    if b.status < 0 && role.rank() < Role::Auditor.rank() {
        r matches Err((c, m)) && c == 403 && m@ == "bucket is archived"@
    } else if b.status < 0 || b.visibility > 0 || role.rank() >= Role::Auditor.rank() {
        r matches Ok(ctx) && ctx.caller@ == caller && ctx.role == role && ctx.ps@.to_set() == set![
            policy_read_all(),
            policy_list_all(),
        ]
    } else {
        token_outcome(token, canister, context_result(r)) && (r matches Ok(ctx) ==> ctx.role == role)
    }
}

/// The request context of a write, as the bucket's settings and the token grant it.
pub open spec fn write_outcome(
    b: Bucket,
    caller: Seq<u8>,
    canister: Seq<u8>,
    token: Option<Result<Token, String>>,
    r: Result<crate::bucket::Context, (u16, String)>,
) -> bool {
    let role = role_of(bytes_views(b.managers@), bytes_views(b.auditors@), caller);
    if b.status != 0 {
        r matches Err((c, m)) && c == 403 && m@ == "bucket is not writable"@
    } else if role == Role::Manager {
        r matches Ok(ctx) && ctx.caller@ == caller && ctx.role == role && ctx.ps@ == seq![policy_all()]
    } else {
        token_outcome(token, canister, context_result(r)) && (r matches Ok(ctx) ==> ctx.role == role)
    }
}

impl Bucket {
    /// What a read by `caller` may do: auditors and managers, and everyone in
    /// a public bucket, read and list everything; an archived bucket is closed
    /// to the others; otherwise the checked token, meant for `canister`, says.
    pub fn read_permission(&self, caller: Vec<u8>, canister: &[u8], token: Option<Result<Token, String>>) -> (r: Result<
        crate::bucket::Context,
        (u16, String),
    >)
        ensures
            read_outcome(*self, caller@, canister@, token, r),
    {
        let role = role(self, caller.as_slice());
        let auditor = role.at_least(&Role::Auditor);
        if self.status < 0 {
            if auditor {
                return Ok(crate::bucket::Context { caller, ps: Policies::read(), role });
            }
            return Err((403, owned("bucket is archived")));
        }
        if self.visibility > 0 || auditor {
            return Ok(crate::bucket::Context { caller, ps: Policies::read(), role });
        }
        match token_policies(token, canister) {
            Ok((subject, ps)) => Ok(crate::bucket::Context { caller: subject, ps, role }),
            Err(e) => Err(e),
        }
    }

    /// What a write by `caller` may do: nothing in a bucket that is not
    /// writable; everything for a manager; otherwise the checked token, meant
    /// for `canister`, says.
    pub fn write_permission(&self, caller: Vec<u8>, canister: &[u8], token: Option<Result<Token, String>>) -> (r: Result<
        crate::bucket::Context,
        (u16, String),
    >)
        ensures
            write_outcome(*self, caller@, canister@, token, r),
    {
        if self.status != 0 {
            return Err((403, owned("bucket is not writable")));
        }
        let role = role(self, caller.as_slice());
        if role.at_least(&Role::Manager) {
            return Ok(crate::bucket::Context { caller, ps: Policies::all(), role });
        }
        match token_policies(token, canister) {
            Ok((subject, ps)) => Ok(crate::bucket::Context { caller: subject, ps, role }),
            Err(e) => Err(e),
        }
    }
}

// ---------------------------------------------------------------- access of a request

/// The access a request is granted.
#[derive(Debug)]
enum Access {
    /// Everything.
    Full,
    /// Reading and listing only.
    ReadOnly,
    /// What the policies grant; `bucket_path` names the bucket among resource paths.
    Scoped { policies: Policies, bucket_path: String },
}

/// The mathematical value of the access of a request.
pub enum AccessModel {
    Full,
    ReadOnly,
    Scoped { policies: Seq<PolicyModel>, bucket_path: Seq<char> },
}

/// The access of a request and the caller's role.
#[derive(Debug)]
pub struct Context {
    access: Access,
    pub role: Role,
}

/// A permission written as resource, operation and constraint.
pub open spec fn pm(resource: ResourceModel, operation: OperationModel, constraint: Option<ResourceModel>) -> PermissionModel {
    PermissionModel { resource, operation, constraint }
}

/// Whether the access grants `perm` on the resource path `path`.
pub open spec fn access_admits(a: AccessModel, perm: PermissionModel, path: Seq<char>) -> bool {
    match a {
        AccessModel::Full => true,
        AccessModel::ReadOnly => perm.operation is Read || perm.operation is List,
        AccessModel::Scoped { policies, .. } => policies_admit(policies, perm, path),
    }
}

/// Whether the access grants `perm` on one of `paths` (or on all resources).
pub open spec fn access_admits_any(a: AccessModel, perm: PermissionModel, paths: Seq<Seq<char>>) -> bool {
    match a {
        AccessModel::Full => true,
        AccessModel::ReadOnly => perm.operation is Read || perm.operation is List,
        AccessModel::Scoped { policies, .. } => policies_admit_any(policies, perm, paths),
    }
}

/// The resource path of the bucket, for a scoped access.
pub open spec fn bucket_path_of(a: AccessModel) -> Seq<char> {
    match a {
        AccessModel::Scoped { bucket_path, .. } => bucket_path,
        _ => Seq::empty(),
    }
}

/// Whether the access grants `perm` on the bucket itself.
pub open spec fn access_admits_bucket(a: AccessModel, perm: PermissionModel) -> bool {
    access_admits(a, perm, bucket_path_of(a))
}

/// The resource paths of the folders met walking up from `start`: their ids in decimal.
pub open spec fn ancestor_paths(m: crate::tree::FolderMap, start: u32) -> Seq<Seq<char>> {
    ancestry(m, start).map_values(|id: u32| decimal(id as nat))
}

/// Whether the access grants `perm` on all resources, or on one of the folders
/// met walking up from `parent`.
pub open spec fn ancestors_admit(a: AccessModel, perm: PermissionModel, m: crate::tree::FolderMap, parent: u32) -> bool {
    access_admits_any(a, perm, Seq::empty()) || access_admits_any(a, perm, ancestor_paths(m, parent))
}

/// Whether the access grants `bucket` on the bucket, or `folder` on all
/// resources or on a folder met walking up from `parent`.
pub open spec fn bucket_or_ancestors(
    a: AccessModel,
    bucket: PermissionModel,
    folder: PermissionModel,
    m: crate::tree::FolderMap,
    parent: u32,
) -> bool {
    access_admits_bucket(a, bucket) || ancestors_admit(a, folder, m, parent)
}

impl Context {
    /// The role of the caller.
    pub closed spec fn caller_role(&self) -> Role {
        self.role
    }

    /// The role of the caller.
    pub fn role(&self) -> (r: Role)
        ensures
            r == self.caller_role(),
    {
        self.role
    }

    /// The access of the request.
    pub closed spec fn access(&self) -> AccessModel {
        match self.access {
            Access::Full => AccessModel::Full,
            Access::ReadOnly => AccessModel::ReadOnly,
            Access::Scoped { policies, bucket_path } => AccessModel::Scoped {
                policies: policies@,
                bucket_path: bucket_path@,
            },
        }
    }

    /// A request that may do everything.
    pub fn full(role: Role) -> (r: Context)
        ensures
            r.access() == AccessModel::Full,
            r.caller_role() == role,
    {
        Context { access: Access::Full, role }
    }

    /// A request that may read and list only.
    pub fn read_only(role: Role) -> (r: Context)
        ensures
            r.access() == AccessModel::ReadOnly,
            r.caller_role() == role,
    {
        Context { access: Access::ReadOnly, role }
    }

    /// A request that may do what `policies` grant, in the bucket whose
    /// resource path is `bucket_path`.
    pub fn scoped(role: Role, policies: Policies, bucket_path: String) -> (r: Context)
        ensures
            r.access() == (AccessModel::Scoped { policies: policies@, bucket_path: bucket_path@ }),
            r.caller_role() == role,
    {
        Context { access: Access::Scoped { policies, bucket_path }, role }
    }

    /// Whether the request may do `permission` on one of `resource_paths`.
    pub fn has_permission_any(&self, permission: &Permission, resource_paths: &[String]) -> (r: bool)
        ensures
            r == access_admits_any(self.access(), permission@, string_views(resource_paths@)),
    {
        match &self.access {
            Access::Full => true,
            Access::ReadOnly => is_reading(&permission.operation),
            Access::Scoped { policies, .. } => policies.allows_any_of(permission, resource_paths),
        }
    }

    /// Whether the request may do `permission` on the bucket.
    pub fn has_bucket_permission(&self, permission: &Permission) -> (r: bool)
        ensures
            r == access_admits_bucket(self.access(), permission@),
    {
        match &self.access {
            Access::Full => true,
            Access::ReadOnly => is_reading(&permission.operation),
            Access::Scoped { policies, bucket_path } => policies.allows(permission, bucket_path.as_str()),
        }
    }

    /// Whether the request may do `permission` on the file or folder `id`.
    pub fn has_id_permission(&self, permission: &Permission, id: u32) -> (r: bool)
        ensures
            r == access_admits(self.access(), permission@, decimal(id as nat)),
    {
        match &self.access {
            Access::Full => true,
            Access::ReadOnly => is_reading(&permission.operation),
            Access::Scoped { policies, .. } => {
                let path = decimal_string(id as u64);
                policies.allows(permission, path.as_str())
            },
        }
    }
}

/// What a request granted by a checked token (or refused for it) may do,
/// as `role`, in the bucket `canister` whose resource path is `bucket_path`.
pub open spec fn token_access(
    token: Option<Result<Token, String>>,
    canister: Seq<u8>,
    bucket_path: Seq<char>,
    role: Role,
    r: Result<Context, (u16, String)>,
) -> bool {
    match token {
        None => r matches Err((c, m)) && c == 401 && m@ == "Unauthorized"@,
        Some(Err(e)) => r matches Err((c, m)) && c == 401 && m@ == e@,
        Some(Ok(t)) => if t.audience@ != canister {
            r matches Err((c, m)) && c == 401 && m@ == "Unauthorized"@
        } else if !policies_valid(t.policies@) {
            r matches Err((c, m)) && c == 403 && policies_error(t.policies@, m@)
        } else {
            r matches Ok(ctx) && ctx.caller_role() == role && (ctx.access() matches AccessModel::Scoped {
                policies,
                bucket_path: p,
            } && p == bucket_path && policies_read(policies, t.policies@))
        },
    }
}

/// The grant of a read request, as the bucket's settings and the token say.
pub open spec fn read_access(
    b: Bucket,
    caller: Seq<u8>,
    canister: Seq<u8>,
    bucket_path: Seq<char>,
    token: Option<Result<Token, String>>,
    r: Result<Context, (u16, String)>,
) -> bool {
    let role = role_of(bytes_views(b.managers@), bytes_views(b.auditors@), caller);
    if b.status < 0 && role.rank() < Role::Auditor.rank() {
        r matches Err((c, m)) && c == 403 && m@ == "bucket is archived"@
    } else if b.status < 0 || b.visibility > 0 || role.rank() >= Role::Auditor.rank() {
        r matches Ok(ctx) && ctx.caller_role() == role && ctx.access() == AccessModel::ReadOnly
    } else {
        token_access(token, canister, bucket_path, role, r)
    }
}

/// The grant of a write request, as the bucket's settings and the token say.
pub open spec fn write_access(
    b: Bucket,
    caller: Seq<u8>,
    canister: Seq<u8>,
    bucket_path: Seq<char>,
    token: Option<Result<Token, String>>,
    r: Result<Context, (u16, String)>,
) -> bool {
    let role = role_of(bytes_views(b.managers@), bytes_views(b.auditors@), caller);
    if b.status != 0 {
        r matches Err((c, m)) && c == 403 && m@ == "bucket is not writable"@
    } else if role == Role::Manager {
        r matches Ok(ctx) && ctx.caller_role() == role && ctx.access() == AccessModel::Full
    } else {
        token_access(token, canister, bucket_path, role, r)
    }
}

/// The grant of a request scoped by a checked token.
fn token_context(token: Option<Result<Token, String>>, canister: &[u8], bucket_path: String, role: Role) -> (r: Result<
    Context,
    (u16, String),
>)
    ensures
        token_access(token, canister@, bucket_path@, role, r),
{
    match token_policies(token, canister) {
        Ok((_subject, ps)) => Ok(Context::scoped(role, ps, bucket_path)),
        Err(e) => Err(e),
    }
}

/// What a read by `caller` may do in the bucket `canister`, whose resource
/// path is `bucket_path`: auditors and managers, and everyone in a public
/// bucket, read and list everything; an archived bucket is closed to the
/// others; otherwise the checked token says.
pub fn authorize_read(
    bucket: &Bucket,
    caller: &[u8],
    canister: &[u8],
    bucket_path: String,
    token: Option<Result<Token, String>>,
) -> (r: Result<Context, (u16, String)>)
    ensures
        read_access(*bucket, caller@, canister@, bucket_path@, token, r),
{
    let role = role(bucket, caller);
    let auditor = role.at_least(&Role::Auditor);
    if bucket.status < 0 {
        if auditor {
            return Ok(Context::read_only(role));
        }
        return Err((403, owned("bucket is archived")));
    }
    if bucket.visibility > 0 || auditor {
        return Ok(Context::read_only(role));
    }
    token_context(token, canister, bucket_path, role)
}

/// What a write by `caller` may do in the bucket `canister`, whose resource
/// path is `bucket_path`: nothing in a bucket that is not writable; everything
/// for a manager; otherwise the checked token says.
pub fn authorize_write(
    bucket: &Bucket,
    caller: &[u8],
    canister: &[u8],
    bucket_path: String,
    token: Option<Result<Token, String>>,
) -> (r: Result<Context, (u16, String)>)
    ensures
        write_access(*bucket, caller@, canister@, bucket_path@, token, r),
{
    if bucket.status != 0 {
        return Err((403, owned("bucket is not writable")));
    }
    let role = role(bucket, caller);
    if role.at_least(&Role::Manager) {
        return Ok(Context::full(role));
    }
    token_context(token, canister, bucket_path, role)
}

/// Whether an operation reads or lists.
fn is_reading(o: &Operation) -> (r: bool)
    ensures
        r == (o@ is Read || o@ is List),
{
    match o {
        Operation::Read => true,
        Operation::List => true,
        _ => false,
    }
}

/// Whether the request may do `permission` on all resources, or on one of the
/// folders met walking up from `parent`.
pub fn has_ancestor_permission(ctx: &Context, store: &BucketStore, permission: &Permission, parent: u32) -> (r: bool)
    requires
        store.wf(),
    ensures
        r == ancestors_admit(ctx.access(), permission@, store@.folders, parent),
{
    let none: Vec<String> = Vec::new();
    assert(string_views(none@) =~= Seq::<Seq<char>>::empty());
    if ctx.has_permission_any(permission, none.as_slice()) {
        return true;
    }
    let ancestors = store.get_ancestors(parent);
    assert(string_views(ancestors@) =~= ancestor_paths(store@.folders, parent));
    ctx.has_permission_any(permission, ancestors.as_slice())
}

/// `resource.operation.constraint`.
fn permission_of(resource: Resource, operation: Operation, constraint: Option<Resource>) -> (r: Permission)
    ensures
        r@ == pm(resource@, operation@, match constraint {
            Some(c) => Some(c@),
            None => None,
        }),
{
    Permission { resource, operation, constraint }
}

/// Whether the request may read the bucket's information.
pub fn check_bucket_read(ctx: &Context) -> (r: bool)
    ensures
        r == access_admits_bucket(
            ctx.access(),
            pm(ResourceModel::Bucket, OperationModel::Read, Some(ResourceModel::Other("Info"@))),
        ),
{
    let p = permission_of(Resource::Bucket, Operation::Read, Some(Resource::Other(owned("Info"))));
    ctx.has_bucket_permission(&p)
}

/// Whether the request may list the folders of `parent`.
pub fn check_folder_list(ctx: &Context, store: &BucketStore, parent: u32) -> (r: bool)
    requires
        store.wf(),
    ensures
        r == bucket_or_ancestors(
            ctx.access(),
            pm(ResourceModel::Bucket, OperationModel::List, Some(ResourceModel::Folder)),
            pm(ResourceModel::Folder, OperationModel::List, Some(ResourceModel::Folder)),
            store@.folders,
            parent,
        ),
{
    ctx.has_bucket_permission(&permission_of(Resource::Bucket, Operation::List, Some(Resource::Folder)))
        || has_ancestor_permission(
        ctx,
        store,
        &permission_of(Resource::Folder, Operation::List, Some(Resource::Folder)),
        parent,
    )
}

/// Whether the request may read folder `id`.
pub fn check_folder_read(ctx: &Context, store: &BucketStore, id: u32) -> (r: bool)
    requires
        store.wf(),
    ensures
        r == bucket_or_ancestors(
            ctx.access(),
            pm(ResourceModel::Bucket, OperationModel::Read, Some(ResourceModel::Folder)),
            pm(ResourceModel::Folder, OperationModel::Read, Some(ResourceModel::Folder)),
            store@.folders,
            id,
        ),
{
    ctx.has_bucket_permission(&permission_of(Resource::Bucket, Operation::Read, Some(Resource::Folder)))
        || has_ancestor_permission(
        ctx,
        store,
        &permission_of(Resource::Folder, Operation::Read, Some(Resource::Folder)),
        id,
    )
}

/// Whether the request may list the files of `parent`.
pub fn check_file_list(ctx: &Context, store: &BucketStore, parent: u32) -> (r: bool)
    requires
        store.wf(),
    ensures
        r == bucket_or_ancestors(
            ctx.access(),
            pm(ResourceModel::Bucket, OperationModel::List, Some(ResourceModel::File)),
            pm(ResourceModel::Folder, OperationModel::List, Some(ResourceModel::File)),
            store@.folders,
            parent,
        ),
{
    ctx.has_bucket_permission(&permission_of(Resource::Bucket, Operation::List, Some(Resource::File)))
        || has_ancestor_permission(
        ctx,
        store,
        &permission_of(Resource::Folder, Operation::List, Some(Resource::File)),
        parent,
    )
}

/// Whether access `a` may read file `id` of folder `parent`: by the file's
/// own id, on the bucket, or on one of the folders above it.
pub open spec fn file_read_admitted(a: AccessModel, m: crate::tree::FolderMap, id: u32, parent: u32) -> bool {
    access_admits(a, pm(ResourceModel::File, OperationModel::Read, None), decimal(id as nat)) || bucket_or_ancestors(
        a,
        pm(ResourceModel::Bucket, OperationModel::Read, Some(ResourceModel::File)),
        pm(ResourceModel::Folder, OperationModel::Read, Some(ResourceModel::File)),
        m,
        parent,
    )
}

/// Whether the request may read file `id` of folder `parent`.
pub fn check_file_read(ctx: &Context, store: &BucketStore, id: u32, parent: u32) -> (r: bool)
    requires
        store.wf(),
    ensures
        r == file_read_admitted(ctx.access(), store@.folders, id, parent),
{
    ctx.has_id_permission(&permission_of(Resource::File, Operation::Read, None), id)
        || ctx.has_bucket_permission(&permission_of(Resource::Bucket, Operation::Read, Some(Resource::File)))
        || has_ancestor_permission(
        ctx,
        store,
        &permission_of(Resource::Folder, Operation::Read, Some(Resource::File)),
        parent,
    )
}

/// Whether the request may create a file in folder `parent`.
pub fn check_file_create(ctx: &Context, store: &BucketStore, parent: u32) -> (r: bool)
    requires
        store.wf(),
    ensures
        r == bucket_or_ancestors(
            ctx.access(),
            pm(ResourceModel::Bucket, OperationModel::Write, Some(ResourceModel::File)),
            pm(ResourceModel::Folder, OperationModel::Write, Some(ResourceModel::File)),
            store@.folders,
            parent,
        ),
{
    ctx.has_bucket_permission(&permission_of(Resource::Bucket, Operation::Write, Some(Resource::File)))
        || has_ancestor_permission(
        ctx,
        store,
        &permission_of(Resource::Folder, Operation::Write, Some(Resource::File)),
        parent,
    )
}

/// Whether the request may delete a file of folder `parent`.
pub fn check_file_delete(ctx: &Context, store: &BucketStore, parent: u32) -> (r: bool)
    requires
        store.wf(),
    ensures
        r == bucket_or_ancestors(
            ctx.access(),
            pm(ResourceModel::Bucket, OperationModel::Delete, Some(ResourceModel::File)),
            pm(ResourceModel::Folder, OperationModel::Delete, Some(ResourceModel::File)),
            store@.folders,
            parent,
        ),
{
    ctx.has_bucket_permission(&permission_of(Resource::Bucket, Operation::Delete, Some(Resource::File)))
        || has_ancestor_permission(
        ctx,
        store,
        &permission_of(Resource::Folder, Operation::Delete, Some(Resource::File)),
        parent,
    )
}

/// Whether the request may change file `id` of folder `parent`.
pub fn check_file_update(ctx: &Context, store: &BucketStore, id: u32, parent: u32) -> (r: bool)
    requires
        store.wf(),
    ensures
        r == (access_admits(ctx.access(), pm(ResourceModel::File, OperationModel::Write, None), decimal(id as nat))
            || bucket_or_ancestors(
            ctx.access(),
            pm(ResourceModel::Bucket, OperationModel::Write, Some(ResourceModel::File)),
            pm(ResourceModel::Folder, OperationModel::Write, Some(ResourceModel::File)),
            store@.folders,
            parent,
        )),
{
    ctx.has_id_permission(&permission_of(Resource::File, Operation::Write, None), id) || check_file_create(
        ctx,
        store,
        parent,
    )
}

/// Whether the request may create a folder in folder `parent`.
pub fn check_folder_create(ctx: &Context, store: &BucketStore, parent: u32) -> (r: bool)
    requires
        store.wf(),
    ensures
        r == bucket_or_ancestors(
            ctx.access(),
            pm(ResourceModel::Bucket, OperationModel::Write, Some(ResourceModel::Folder)),
            pm(ResourceModel::Folder, OperationModel::Write, Some(ResourceModel::Folder)),
            store@.folders,
            parent,
        ),
{
    ctx.has_bucket_permission(&permission_of(Resource::Bucket, Operation::Write, Some(Resource::Folder)))
        || has_ancestor_permission(
        ctx,
        store,
        &permission_of(Resource::Folder, Operation::Write, Some(Resource::Folder)),
        parent,
    )
}

/// Whether the request may delete a folder of folder `parent`.
pub fn check_folder_delete(ctx: &Context, store: &BucketStore, parent: u32) -> (r: bool)
    requires
        store.wf(),
    ensures
        r == bucket_or_ancestors(
            ctx.access(),
            pm(ResourceModel::Bucket, OperationModel::Delete, Some(ResourceModel::Folder)),
            pm(ResourceModel::Folder, OperationModel::Delete, Some(ResourceModel::Folder)),
            store@.folders,
            parent,
        ),
{
    ctx.has_bucket_permission(&permission_of(Resource::Bucket, Operation::Delete, Some(Resource::Folder)))
        || has_ancestor_permission(
        ctx,
        store,
        &permission_of(Resource::Folder, Operation::Delete, Some(Resource::Folder)),
        parent,
    )
}

/// Whether the request may change folder `id` of folder `parent`.
pub fn check_folder_update(ctx: &Context, store: &BucketStore, id: u32, parent: u32) -> (r: bool)
    requires
        store.wf(),
    ensures
        r == (access_admits(ctx.access(), pm(ResourceModel::Folder, OperationModel::Write, None), decimal(id as nat))
            || bucket_or_ancestors(
            ctx.access(),
            pm(ResourceModel::Bucket, OperationModel::Write, Some(ResourceModel::Folder)),
            pm(ResourceModel::Folder, OperationModel::Write, Some(ResourceModel::Folder)),
            store@.folders,
            parent,
        )),
{
    ctx.has_id_permission(&permission_of(Resource::Folder, Operation::Write, None), id) || check_folder_create(
        ctx,
        store,
        parent,
    )
}

/// Full access grants every operation, and read-only access grants exactly
/// reading and listing, whatever the resource.
pub proof fn lemma_built_in_access(perm: PermissionModel, path: Seq<char>, paths: Seq<Seq<char>>)
    ensures
        access_admits(AccessModel::Full, perm, path),
        access_admits_any(AccessModel::Full, perm, paths),
        access_admits(AccessModel::ReadOnly, perm, path) <==> (perm.operation is Read || perm.operation is List),
        access_admits_any(AccessModel::ReadOnly, perm, paths) <==> (perm.operation is Read || perm.operation
            is List),
{
}

} // verus!
