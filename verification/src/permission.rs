//! The permission model of access tokens: resources, operations, permissions
//! written `Resource.Operation[.Constraint]`, resource path sets, policies written
//! `Permission:Path1,Path2`, and policy sets written as space-separated policies.
use vstd::prelude::*;
use crate::order::{str_lt, enc_str, enc_strs, lemma_enc_str_split, lemma_enc_strs_split, encode_str, lex_lt, lex_compare, Order};
use crate::text::{chars_of, free_of, lemma_split_push, lemma_split_single, owned, push_char, push_str, str_eq, split_char, split_spec, views};

verus! {

// ---------------------------------------------------------------- names

/// A character allowed in a resource, operation, constraint or path name.
pub open spec fn is_name_char(c: char) -> bool {
    ('A' <= c <= 'Z') || ('a' <= c <= 'z') || ('0' <= c <= '9') || c == '_' || c == '-'
}

/// A non-empty name made of allowed characters only.
pub open spec fn is_valid_name(s: Seq<char>) -> bool {
    s.len() > 0 && forall|i: int| 0 <= i < s.len() ==> is_name_char(#[trigger] s[i])
}

/// `i` is the position of the first character of `s` that is not allowed.
pub open spec fn is_first_bad(s: Seq<char>, i: int) -> bool {
    &&& 0 <= i < s.len()
    &&& !is_name_char(s[i])
    &&& forall|j: int| 0 <= j < i ==> is_name_char(#[trigger] s[j])
}

/// The message with which `validate_name` rejects `s`.
pub open spec fn name_error(s: Seq<char>) -> Seq<char> {
    if s.len() == 0 {
        "empty string"@
    } else {
        "invalid character: "@.push(s[choose|i: int| is_first_bad(s, i)])
    }
}

proof fn lemma_first_bad_unique(s: Seq<char>, i: int, k: int)
    requires
        is_first_bad(s, i),
        is_first_bad(s, k),
    ensures
        i == k,
{
    if i < k {
        assert(is_name_char(s[i]));
    }
    if k < i {
        assert(is_name_char(s[k]));
    }
}

proof fn lemma_name_error_at(s: Seq<char>, i: int)
    requires
        is_first_bad(s, i),
    ensures
        name_error(s) == "invalid character: "@.push(s[i]),
{
    let k = choose|k: int| is_first_bad(s, k);
    lemma_first_bad_unique(s, i, k);
}

/// Validates the name of a resource, operation, constraint or resource path:
/// it must be non-empty and made of `A-Z`, `a-z`, `0-9`, `_` and `-` only.
pub fn validate_name(s: &str) -> (r: Result<(), String>)
    ensures
        r is Ok <==> is_valid_name(s@),
        r matches Err(e) ==> e@ == name_error(s@),
{
    let cs = chars_of(s);
    if cs.len() == 0 {
        return Err(owned("empty string"));
    }
    for i in 0..cs.len()
        invariant
            cs@ == s@,
            cs.len() > 0,
            forall|j: int| 0 <= j < i ==> is_name_char(#[trigger] s@[j]),
    {
        let c = cs[i];
        if !(('A' <= c && c <= 'Z') || ('a' <= c && c <= 'z') || ('0' <= c && c <= '9') || c == '_'
            || c == '-') {
            let mut e = owned("invalid character: ");
            push_char(&mut e, c);
            proof {
                lemma_name_error_at(s@, i as int);
            }
            return Err(e);
        }
    }
    Ok(())
}

// ---------------------------------------------------------------- resources

/// A resource within the permission model; `All` is written `*`.
#[derive(Debug)]
pub enum Resource {
    All,
    File,
    Folder,
    Bucket,
    Cluster,
    Other(String),
}

/// The mathematical value of a [`Resource`].
pub enum ResourceModel {
    All,
    File,
    Folder,
    Bucket,
    Cluster,
    Other(Seq<char>),
}

impl View for Resource {
    type V = ResourceModel;

    open spec fn view(&self) -> ResourceModel {
        match self {
            Resource::All => ResourceModel::All,
            Resource::File => ResourceModel::File,
            Resource::Folder => ResourceModel::Folder,
            Resource::Bucket => ResourceModel::Bucket,
            Resource::Cluster => ResourceModel::Cluster,
            Resource::Other(s) => ResourceModel::Other(s@),
        }
    }
}

/// Whether a resource pattern admits a resource: `*` admits everything.
pub open spec fn resource_admits(pattern: ResourceModel, value: ResourceModel) -> bool {
    pattern is All || value == pattern
}

/// How a resource is written.
pub open spec fn resource_text(r: ResourceModel) -> Seq<char> {
    match r {
        ResourceModel::All => "*"@,
        ResourceModel::File => "File"@,
        ResourceModel::Folder => "Folder"@,
        ResourceModel::Bucket => "Bucket"@,
        ResourceModel::Cluster => "Cluster"@,
        ResourceModel::Other(s) => s,
    }
}

/// How a resource is read back from text.
pub open spec fn parse_resource(s: Seq<char>) -> Result<ResourceModel, Seq<char>> {
    if s == "*"@ {
        Ok(ResourceModel::All)
    } else if s == "File"@ {
        Ok(ResourceModel::File)
    } else if s == "Folder"@ {
        Ok(ResourceModel::Folder)
    } else if s == "Bucket"@ {
        Ok(ResourceModel::Bucket)
    } else if s == "Cluster"@ {
        Ok(ResourceModel::Cluster)
    } else if is_valid_name(s) {
        Ok(ResourceModel::Other(s))
    } else {
        Err("invalid resource: "@ + s + ", "@ + name_error(s))
    }
}

/// Orders resources by declaration order of the variants, then by name.
pub open spec fn enc_resource(r: ResourceModel) -> Seq<u32> {
    match r {
        ResourceModel::All => seq![0u32],
        ResourceModel::File => seq![1u32],
        ResourceModel::Folder => seq![2u32],
        ResourceModel::Bucket => seq![3u32],
        ResourceModel::Cluster => seq![4u32],
        ResourceModel::Other(s) => seq![5u32] + enc_str(s),
    }
}

pub proof fn lemma_enc_resource_split(
    a: ResourceModel,
    ra: Seq<u32>,
    b: ResourceModel,
    rb: Seq<u32>,
)
    requires
        enc_resource(a) + ra == enc_resource(b) + rb,
    ensures
        a == b,
        ra == rb,
{
    let ea = enc_resource(a) + ra;
    let eb = enc_resource(b) + rb;
    assert(ea[0] == enc_resource(a)[0]);
    assert(eb[0] == enc_resource(b)[0]);
    assert(ea.drop_first() == eb.drop_first());
    match a {
        ResourceModel::Other(s) => {
            match b {
                ResourceModel::Other(t) => {
                    assert(ea.drop_first() =~= enc_str(s) + ra);
                    assert(eb.drop_first() =~= enc_str(t) + rb);
                    lemma_enc_str_split(s, ra, t, rb);
                },
                _ => {},
            }
        },
        _ => {
            assert(ea.drop_first() =~= ra);
            assert(eb.drop_first() =~= rb);
        },
    }
}

impl Resource {
    /// A copy of this resource.
    pub fn copy(&self) -> (r: Resource)
        ensures
            r@ == self@,
    {
        match self {
            Resource::All => Resource::All,
            Resource::File => Resource::File,
            Resource::Folder => Resource::Folder,
            Resource::Bucket => Resource::Bucket,
            Resource::Cluster => Resource::Cluster,
            Resource::Other(s) => Resource::Other(s.clone()),
        }
    }

    /// Whether two resources are the same.
    pub fn same(&self, other: &Resource) -> (r: bool)
        ensures
            r == (self@ == other@),
    {
        match (self, other) {
            (Resource::All, Resource::All) => true,
            (Resource::File, Resource::File) => true,
            (Resource::Folder, Resource::Folder) => true,
            (Resource::Bucket, Resource::Bucket) => true,
            (Resource::Cluster, Resource::Cluster) => true,
            (Resource::Other(a), Resource::Other(b)) => str_eq(a.as_str(), b.as_str()),
            _ => false,
        }
    }

    /// Checks if a given resource matches this one: `*` matches every resource,
    /// any other resource only itself.
    pub fn check(&self, value: &Resource) -> (r: bool)
        ensures
            r == resource_admits(self@, value@),
    {
        match self {
            Resource::All => true,
            _ => value.same(self),
        }
    }

    /// The resource written as text (`*`, `File`, ..., or the name itself).
    pub fn to_string(&self) -> (r: String)
        ensures
            r@ == resource_text(self@),
    {
        match self {
            Resource::All => owned("*"),
            Resource::File => owned("File"),
            Resource::Folder => owned("Folder"),
            Resource::Bucket => owned("Bucket"),
            Resource::Cluster => owned("Cluster"),
            Resource::Other(s) => s.clone(),
        }
    }

    /// Reads a resource: the built-in names, `*`, or any valid name.
    pub fn try_from(value: &str) -> (r: Result<Resource, String>)
        ensures
            match (r, parse_resource(value@)) {
                (Ok(x), Ok(m)) => x@ == m,
                (Err(e), Err(m)) => e@ == m,
                _ => false,
            },
    {
        if str_eq(value, "*") {
            Ok(Resource::All)
        } else if str_eq(value, "File") {
            Ok(Resource::File)
        } else if str_eq(value, "Folder") {
            Ok(Resource::Folder)
        } else if str_eq(value, "Bucket") {
            Ok(Resource::Bucket)
        } else if str_eq(value, "Cluster") {
            Ok(Resource::Cluster)
        } else {
            match validate_name(value) {
                Ok(()) => Ok(Resource::Other(owned(value))),
                Err(err) => {
                    let mut e = owned("invalid resource: ");
                    push_str(&mut e, value);
                    push_str(&mut e, ", ");
                    push_str(&mut e, err.as_str());
                    Err(e)
                },
            }
        }
    }

    /// Appends the order key of this resource.
    pub fn encode(&self, out: &mut Vec<u32>)
        ensures
            final(out)@ == old(out)@ + enc_resource(self@),
    {
        let ghost start = out@;
        match self {
            Resource::All => out.push(0),
            Resource::File => out.push(1),
            Resource::Folder => out.push(2),
            Resource::Bucket => out.push(3),
            Resource::Cluster => out.push(4),
            Resource::Other(s) => {
                out.push(5);
                encode_str(out, s);
            },
        }
        assert(out@ =~= start + enc_resource(self@));
    }
}

impl Clone for Resource {
    fn clone(&self) -> (r: Self)
        ensures
            r@ == self@,
    {
        self.copy()
    }
}

impl PartialEq for Resource {
    fn eq(&self, other: &Self) -> (r: bool) {
        self.same(other)
    }
}

impl vstd::std_specs::cmp::PartialEqSpecImpl for Resource {
    open spec fn obeys_eq_spec() -> bool {
        true
    }

    open spec fn eq_spec(&self, other: &Self) -> bool {
        self@ == other@
    }
}

impl Eq for Resource {
}

impl Default for Resource {
    fn default() -> (r: Self)
        ensures
            r@ == ResourceModel::All,
    {
        Resource::All
    }
}

// ---------------------------------------------------------------- operations

/// An operation on a resource; `All` is written `*`.
#[derive(Debug)]
pub enum Operation {
    All,
    List,
    Read,
    Write,
    Delete,
    Other(String),
}

/// The mathematical value of an [`Operation`].
pub enum OperationModel {
    All,
    List,
    Read,
    Write,
    Delete,
    Other(Seq<char>),
}

impl View for Operation {
    type V = OperationModel;

    open spec fn view(&self) -> OperationModel {
        match self {
            Operation::All => OperationModel::All,
            Operation::List => OperationModel::List,
            Operation::Read => OperationModel::Read,
            Operation::Write => OperationModel::Write,
            Operation::Delete => OperationModel::Delete,
            Operation::Other(s) => OperationModel::Other(s@),
        }
    }
}

/// Whether an operation pattern admits an operation: `*` admits everything.
pub open spec fn operation_admits(pattern: OperationModel, value: OperationModel) -> bool {
    pattern is All || value == pattern
}

/// How an operation is written.
pub open spec fn operation_text(o: OperationModel) -> Seq<char> {
    match o {
        OperationModel::All => "*"@,
        OperationModel::List => "List"@,
        OperationModel::Read => "Read"@,
        OperationModel::Write => "Write"@,
        OperationModel::Delete => "Delete"@,
        OperationModel::Other(s) => s,
    }
}

/// How an operation is read back from text.
pub open spec fn parse_operation(s: Seq<char>) -> Result<OperationModel, Seq<char>> {
    if s == "*"@ {
        Ok(OperationModel::All)
    } else if s == "List"@ {
        Ok(OperationModel::List)
    } else if s == "Read"@ {
        Ok(OperationModel::Read)
    } else if s == "Write"@ {
        Ok(OperationModel::Write)
    } else if s == "Delete"@ {
        Ok(OperationModel::Delete)
    } else if is_valid_name(s) {
        Ok(OperationModel::Other(s))
    } else {
        Err("invalid operation: "@ + s + ", "@ + name_error(s))
    }
}

pub open spec fn enc_operation(o: OperationModel) -> Seq<u32> {
    match o {
        OperationModel::All => seq![0u32],
        OperationModel::List => seq![1u32],
        OperationModel::Read => seq![2u32],
        OperationModel::Write => seq![3u32],
        OperationModel::Delete => seq![4u32],
        OperationModel::Other(s) => seq![5u32] + enc_str(s),
    }
}

pub proof fn lemma_enc_operation_split(
    a: OperationModel,
    ra: Seq<u32>,
    b: OperationModel,
    rb: Seq<u32>,
)
    requires
        enc_operation(a) + ra == enc_operation(b) + rb,
    ensures
        a == b,
        ra == rb,
{
    let ea = enc_operation(a) + ra;
    let eb = enc_operation(b) + rb;
    assert(ea[0] == enc_operation(a)[0]);
    assert(eb[0] == enc_operation(b)[0]);
    assert(ea.drop_first() == eb.drop_first());
    match a {
        OperationModel::Other(s) => {
            match b {
                OperationModel::Other(t) => {
                    assert(ea.drop_first() =~= enc_str(s) + ra);
                    assert(eb.drop_first() =~= enc_str(t) + rb);
                    lemma_enc_str_split(s, ra, t, rb);
                },
                _ => {},
            }
        },
        _ => {
            assert(ea.drop_first() =~= ra);
            assert(eb.drop_first() =~= rb);
        },
    }
}

impl Operation {
    /// A copy of this operation.
    pub fn copy(&self) -> (r: Operation)
        ensures
            r@ == self@,
    {
        match self {
            Operation::All => Operation::All,
            Operation::List => Operation::List,
            Operation::Read => Operation::Read,
            Operation::Write => Operation::Write,
            Operation::Delete => Operation::Delete,
            Operation::Other(s) => Operation::Other(s.clone()),
        }
    }

    /// Whether two operations are the same.
    pub fn same(&self, other: &Operation) -> (r: bool)
        ensures
            r == (self@ == other@),
    {
        match (self, other) {
            (Operation::All, Operation::All) => true,
            (Operation::List, Operation::List) => true,
            (Operation::Read, Operation::Read) => true,
            (Operation::Write, Operation::Write) => true,
            (Operation::Delete, Operation::Delete) => true,
            (Operation::Other(a), Operation::Other(b)) => str_eq(a.as_str(), b.as_str()),
            _ => false,
        }
    }

    /// Checks if a given operation matches this one: `*` matches every
    /// operation, any other operation only itself.
    pub fn check(&self, value: &Operation) -> (r: bool)
        ensures
            r == operation_admits(self@, value@),
    {
        match self {
            Operation::All => true,
            _ => value.same(self),
        }
    }

    /// The operation written as text.
    pub fn to_string(&self) -> (r: String)
        ensures
            r@ == operation_text(self@),
    {
        match self {
            Operation::All => owned("*"),
            Operation::List => owned("List"),
            Operation::Read => owned("Read"),
            Operation::Write => owned("Write"),
            Operation::Delete => owned("Delete"),
            Operation::Other(s) => s.clone(),
        }
    }

    /// Reads an operation: the built-in names, `*`, or any valid name.
    pub fn try_from(value: &str) -> (r: Result<Operation, String>)
        ensures
            match (r, parse_operation(value@)) {
                (Ok(x), Ok(m)) => x@ == m,
                (Err(e), Err(m)) => e@ == m,
                _ => false,
            },
    {
        if str_eq(value, "*") {
            Ok(Operation::All)
        } else if str_eq(value, "List") {
            Ok(Operation::List)
        } else if str_eq(value, "Read") {
            Ok(Operation::Read)
        } else if str_eq(value, "Write") {
            Ok(Operation::Write)
        } else if str_eq(value, "Delete") {
            Ok(Operation::Delete)
        } else {
            match validate_name(value) {
                Ok(()) => Ok(Operation::Other(owned(value))),
                Err(err) => {
                    let mut e = owned("invalid operation: ");
                    push_str(&mut e, value);
                    push_str(&mut e, ", ");
                    push_str(&mut e, err.as_str());
                    Err(e)
                },
            }
        }
    }

    /// Appends the order key of this operation.
    pub fn encode(&self, out: &mut Vec<u32>)
        ensures
            final(out)@ == old(out)@ + enc_operation(self@),
    {
        let ghost start = out@;
        match self {
            Operation::All => out.push(0),
            Operation::List => out.push(1),
            Operation::Read => out.push(2),
            Operation::Write => out.push(3),
            Operation::Delete => out.push(4),
            Operation::Other(s) => {
                out.push(5);
                encode_str(out, s);
            },
        }
        assert(out@ =~= start + enc_operation(self@));
    }
}

impl Clone for Operation {
    fn clone(&self) -> (r: Self)
        ensures
            r@ == self@,
    {
        self.copy()
    }
}

impl PartialEq for Operation {
    fn eq(&self, other: &Self) -> (r: bool) {
        self.same(other)
    }
}

impl vstd::std_specs::cmp::PartialEqSpecImpl for Operation {
    open spec fn obeys_eq_spec() -> bool {
        true
    }

    open spec fn eq_spec(&self, other: &Self) -> bool {
        self@ == other@
    }
}

impl Eq for Operation {
}

impl Default for Operation {
    fn default() -> (r: Self)
        ensures
            r@ == OperationModel::All,
    {
        Operation::All
    }
}

// ---------------------------------------------------------------- permissions

/// A permission written `Resource.Operation[.Constraint]`, or `*` for everything.
#[derive(Debug, Default)]
pub struct Permission {
    pub resource: Resource,
    pub operation: Operation,
    pub constraint: Option<Resource>,
}

/// The mathematical value of a [`Permission`].
pub struct PermissionModel {
    pub resource: ResourceModel,
    pub operation: OperationModel,
    pub constraint: Option<ResourceModel>,
}

pub open spec fn opt_resource(o: Option<Resource>) -> Option<ResourceModel> {
    match o {
        Some(r) => Some(r@),
        None => None,
    }
}

impl View for Permission {
    type V = PermissionModel;

    open spec fn view(&self) -> PermissionModel {
        PermissionModel {
            resource: self.resource@,
            operation: self.operation@,
            constraint: opt_resource(self.constraint),
        }
    }
}

/// The permission that grants everything: `*.*` with no constraint.
pub open spec fn permission_all() -> PermissionModel {
    PermissionModel {
        resource: ResourceModel::All,
        operation: OperationModel::All,
        constraint: None,
    }
}

pub open spec fn permission_is_all(p: PermissionModel) -> bool {
    p.resource is All && p.operation is All && p.constraint is None
}

/// A constraint admits a requested constraint when it is absent or `*`, or when
/// the request names the same constraint.
pub open spec fn constraint_admits(c: Option<ResourceModel>, v: Option<ResourceModel>) -> bool {
    match c {
        None => true,
        Some(x) => x is All || v == Some(x),
    }
}

/// Whether a granted permission covers a requested one.
pub open spec fn permission_admits(p: PermissionModel, v: PermissionModel) -> bool {
    resource_admits(p.resource, v.resource) && operation_admits(p.operation, v.operation)
        && constraint_admits(p.constraint, v.constraint)
}

/// How a permission is written.
pub open spec fn permission_text(p: PermissionModel) -> Seq<char> {
    if p.constraint is Some && !(p.constraint->0 is All) {
        resource_text(p.resource) + "."@ + operation_text(p.operation) + "."@ + resource_text(
            p.constraint->0,
        )
    } else if permission_is_all(p) {
        "*"@
    } else {
        resource_text(p.resource) + "."@ + operation_text(p.operation)
    }
}

/// How a permission is read back from text.
pub open spec fn parse_permission(s: Seq<char>) -> Result<PermissionModel, Seq<char>> {
    if s == "*"@ {
        Ok(permission_all())
    } else {
        let parts = split_spec(s, '.');
        match parse_resource(parts[0]) {
            Err(e) => Err(e),
            Ok(r) => if parts.len() < 2 {
                Err("invalid permission format "@ + s)
            } else {
                match parse_operation(parts[1]) {
                    Err(e) => Err(e),
                    Ok(o) => if parts.len() < 3 {
                        Ok(PermissionModel { resource: r, operation: o, constraint: None })
                    } else {
                        match parse_resource(parts[2]) {
                            Err(e) => Err("invalid constraint: "@ + e),
                            Ok(c) => if parts.len() > 3 {
                                Err("invalid permission format "@ + s)
                            } else {
                                Ok(PermissionModel { resource: r, operation: o, constraint: Some(c) })
                            },
                        }
                    },
                }
            },
        }
    }
}

pub open spec fn enc_opt_resource(o: Option<ResourceModel>) -> Seq<u32> {
    match o {
        None => seq![0u32],
        Some(r) => seq![1u32] + enc_resource(r),
    }
}

/// Orders permissions by resource, then operation, then constraint.
pub open spec fn enc_permission(p: PermissionModel) -> Seq<u32> {
    enc_resource(p.resource) + enc_operation(p.operation) + enc_opt_resource(p.constraint)
}

pub proof fn lemma_enc_permission_split(
    a: PermissionModel,
    ra: Seq<u32>,
    b: PermissionModel,
    rb: Seq<u32>,
)
    requires
        enc_permission(a) + ra == enc_permission(b) + rb,
    ensures
        a == b,
        ra == rb,
{
    let ta = enc_opt_resource(a.constraint) + ra;
    let tb = enc_opt_resource(b.constraint) + rb;
    assert(enc_permission(a) + ra =~= enc_resource(a.resource) + (enc_operation(a.operation) + ta));
    assert(enc_permission(b) + rb =~= enc_resource(b.resource) + (enc_operation(b.operation) + tb));
    lemma_enc_resource_split(a.resource, enc_operation(a.operation) + ta, b.resource, enc_operation(b.operation) + tb);
    lemma_enc_operation_split(a.operation, ta, b.operation, tb);
    assert(ta[0] == enc_opt_resource(a.constraint)[0]);
    assert(tb[0] == enc_opt_resource(b.constraint)[0]);
    match (a.constraint, b.constraint) {
        (Some(x), Some(y)) => {
            assert(ta.drop_first() =~= enc_resource(x) + ra);
            assert(tb.drop_first() =~= enc_resource(y) + rb);
            lemma_enc_resource_split(x, ra, y, rb);
        },
        (None, None) => {
            assert(ta.drop_first() =~= ra);
            assert(tb.drop_first() =~= rb);
        },
        _ => {},
    }
}

/// Reads an optional constraint piece: `None` when absent.
fn copy_opt_resource(o: &Option<Resource>) -> (r: Option<Resource>)
    ensures
        opt_resource(r) == opt_resource(*o),
{
    match o {
        Some(c) => Some(c.copy()),
        None => None,
    }
}

impl Permission {
    /// A copy of this permission.
    pub fn copy(&self) -> (r: Permission)
        ensures
            r@ == self@,
    {
        Permission {
            resource: self.resource.copy(),
            operation: self.operation.copy(),
            constraint: copy_opt_resource(&self.constraint),
        }
    }

    /// Whether the permission grants every operation on every resource
    /// without constraint.
    pub fn is_all(&self) -> (r: bool)
        ensures
            r == permission_is_all(self@),
    {
        matches!(self.resource, Resource::All) && matches!(self.operation, Operation::All)
            && self.constraint.is_none()
    }

    /// Whether this permission covers the requested one, considering
    /// resources, operations and constraints.
    pub fn check(&self, value: &Permission) -> (r: bool)
        ensures
            r == permission_admits(self@, value@),
    {
        self.resource.check(&value.resource) && self.operation.check(&value.operation)
            && self.check_constraint(&value.constraint)
    }

    /// Whether this permission's constraint admits the requested constraint.
    pub fn check_constraint(&self, value: &Option<Resource>) -> (r: bool)
        ensures
            r == constraint_admits(opt_resource(self.constraint), opt_resource(*value)),
    {
        match &self.constraint {
            None => true,
            Some(Resource::All) => true,
            Some(c) => match value {
                Some(v) => c.same(v),
                None => false,
            },
        }
    }

    /// The permission written as text.
    pub fn to_string(&self) -> (r: String)
        ensures
            r@ == permission_text(self@),
    {
        let constrained = match &self.constraint {
            Some(Resource::All) => false,
            Some(_) => true,
            None => false,
        };
        if !constrained && self.is_all() {
            return owned("*");
        }
        let mut s = self.resource.to_string();
        push_str(&mut s, ".");
        let op = self.operation.to_string();
        push_str(&mut s, op.as_str());
        if constrained {
            match &self.constraint {
                Some(c) => {
                    push_str(&mut s, ".");
                    let cs = c.to_string();
                    push_str(&mut s, cs.as_str());
                },
                None => {},
            }
        }
        s
    }

    /// Reads a permission from text.
    pub fn try_from(value: &str) -> (r: Result<Permission, String>)
        ensures
            match (r, parse_permission(value@)) {
                (Ok(x), Ok(m)) => x@ == m,
                (Err(e), Err(m)) => e@ == m,
                _ => false,
            },
    {
        if str_eq(value, "*") {
            return Ok(Permission { resource: Resource::All, operation: Operation::All, constraint: None });
        }
        let parts = split_char(value, '.');
        proof {
            crate::text::lemma_split_nonempty(value@, '.');
        }
        assert(parts@[0]@ == split_spec(value@, '.')[0]);
        let resource = match Resource::try_from(parts[0].as_str()) {
            Ok(r) => r,
            Err(e) => return Err(e),
        };
        if parts.len() < 2 {
            let mut e = owned("invalid permission format ");
            push_str(&mut e, value);
            return Err(e);
        }
        assert(parts@[1]@ == split_spec(value@, '.')[1]);
        let operation = match Operation::try_from(parts[1].as_str()) {
            Ok(o) => o,
            Err(e) => return Err(e),
        };
        if parts.len() < 3 {
            return Ok(Permission { resource, operation, constraint: None });
        }
        assert(parts@[2]@ == split_spec(value@, '.')[2]);
        let constraint = match Resource::try_from(parts[2].as_str()) {
            Ok(c) => c,
            Err(err) => {
                let mut e = owned("invalid constraint: ");
                push_str(&mut e, err.as_str());
                return Err(e);
            },
        };
        if parts.len() > 3 {
            let mut e = owned("invalid permission format ");
            push_str(&mut e, value);
            return Err(e);
        }
        Ok(Permission { resource, operation, constraint: Some(constraint) })
    }

    /// Appends the order key of this permission.
    pub fn encode(&self, out: &mut Vec<u32>)
        ensures
            final(out)@ == old(out)@ + enc_permission(self@),
    {
        let ghost start = out@;
        self.resource.encode(out);
        self.operation.encode(out);
        match &self.constraint {
            None => out.push(0),
            Some(c) => {
                out.push(1);
                c.encode(out);
            },
        }
        assert(out@ =~= start + enc_permission(self@));
    }
}

impl Clone for Permission {
    fn clone(&self) -> (r: Self)
        ensures
            r@ == self@,
    {
        self.copy()
    }
}

impl PartialEq for Permission {
    fn eq(&self, other: &Self) -> (r: bool) {
        self.resource.same(&other.resource) && self.operation.same(&other.operation) && match (
            &self.constraint,
            &other.constraint,
        ) {
            (None, None) => true,
            (Some(a), Some(b)) => a.same(b),
            _ => false,
        }
    }
}

impl vstd::std_specs::cmp::PartialEqSpecImpl for Permission {
    open spec fn obeys_eq_spec() -> bool {
        true
    }

    open spec fn eq_spec(&self, other: &Self) -> bool {
        self@ == other@
    }
}

impl Eq for Permission {
}

/// A resource that reads back as itself: a name of another resource is a valid
/// name that is not one of the built-in resources.
pub open spec fn resource_wf(r: ResourceModel) -> bool {
    match r {
        ResourceModel::Other(s) => is_valid_name(s) && s != "File"@ && s != "Folder"@ && s != "Bucket"@
            && s != "Cluster"@,
        _ => true,
    }
}

/// An operation that reads back as itself: a name of another operation is a
/// valid name that is not one of the built-in operations.
pub open spec fn operation_wf(o: OperationModel) -> bool {
    match o {
        OperationModel::Other(s) => is_valid_name(s) && s != "List"@ && s != "Read"@ && s != "Write"@
            && s != "Delete"@,
        _ => true,
    }
}

/// A permission whose resource, operation and constraint read back as themselves.
pub open spec fn permission_wf(p: PermissionModel) -> bool {
    resource_wf(p.resource) && operation_wf(p.operation) && match p.constraint {
        Some(c) => resource_wf(c),
        None => true,
    }
}

/// The permission as it reads back from its text: a `*` constraint is dropped.
pub open spec fn normal_permission(p: PermissionModel) -> PermissionModel {
    match p.constraint {
        Some(ResourceModel::All) => PermissionModel { constraint: None, ..p },
        _ => p,
    }
}

proof fn lemma_name_free(s: Seq<char>)
    requires
        is_valid_name(s),
    ensures
        free_of(s, '.'),
        free_of(s, ':'),
        free_of(s, ','),
        free_of(s, ' '),
        s != "*"@,
{
    reveal_strlit("*");
    if s == "*"@ {
        assert(is_name_char(s[0]));
    }
}

proof fn lemma_resource_text(r: ResourceModel)
    requires
        resource_wf(r),
    ensures
        parse_resource(resource_text(r)) == Ok::<ResourceModel, Seq<char>>(r),
        free_of(resource_text(r), '.'),
        free_of(resource_text(r), ':'),
        resource_text(r).len() > 0,
{
    reveal_strlit("*");
    reveal_strlit("File");
    reveal_strlit("Folder");
    reveal_strlit("Bucket");
    reveal_strlit("Cluster");
    assert("*"@.len() == 1 && "File"@.len() == 4 && "Folder"@.len() == 6 && "Bucket"@.len() == 6);
    assert("Cluster"@.len() == 7);
    assert("Folder"@ != "Bucket"@) by {
        assert("Folder"@[0] != "Bucket"@[0]);
    }
    match r {
        ResourceModel::Other(s) => {
            lemma_name_free(s);
        },
        _ => {},
    }
}

proof fn lemma_operation_text(o: OperationModel)
    requires
        operation_wf(o),
    ensures
        parse_operation(operation_text(o)) == Ok::<OperationModel, Seq<char>>(o),
        free_of(operation_text(o), '.'),
        free_of(operation_text(o), ':'),
        operation_text(o).len() > 0,
{
    reveal_strlit("*");
    reveal_strlit("List");
    reveal_strlit("Read");
    reveal_strlit("Write");
    reveal_strlit("Delete");
    assert("*"@.len() == 1 && "List"@.len() == 4 && "Read"@.len() == 4 && "Write"@.len() == 5);
    assert("Delete"@.len() == 6);
    assert("List"@ != "Read"@) by {
        assert("List"@[0] != "Read"@[0]);
    }
    match o {
        OperationModel::Other(s) => {
            lemma_name_free(s);
        },
        _ => {},
    }
}

/// A permission written out reads back as itself, but for a `*` constraint,
/// which is dropped (it grants what no constraint grants).
pub proof fn lemma_permission_text_roundtrip(p: PermissionModel)
    requires
        permission_wf(p),
    ensures
        parse_permission(permission_text(p)) == Ok::<PermissionModel, Seq<char>>(normal_permission(p)),
        free_of(permission_text(p), ':'),
        free_of(permission_text(p), ' '),
{
    reveal_strlit("*");
    reveal_strlit(".");
    lemma_resource_text(p.resource);
    lemma_operation_text(p.operation);
    let a = resource_text(p.resource);
    let b = operation_text(p.operation);
    let t = permission_text(p);
    lemma_split_single(a, '.');
    lemma_split_push(a, '.', b);
    assert(a + "."@ + b =~= a + seq!['.'] + b);
    if p.constraint is Some && !(p.constraint->0 is All) {
        let c = p.constraint->0;
        lemma_resource_text(c);
        let ct = resource_text(c);
        lemma_split_push(a + seq!['.'] + b, '.', ct);
        assert(t =~= (a + seq!['.'] + b) + seq!['.'] + ct);
        assert(split_spec(t, '.') =~= seq![a, b, ct]);
        assert(t.len() > 1);
        assert(t != "*"@);
        assert(free_of(t, ':'));
        assert(free_of(t, ' ')) by {
            assert forall|i: int| 0 <= i < t.len() implies #[trigger] t[i] != ' ' by {
                if i < a.len() {
                    assert(t[i] == a[i]);
                    assert(a[i] != ' ') by { lemma_resource_text_free_space(p.resource, i); }
                } else if i == a.len() {
                } else if i < a.len() + 1 + b.len() {
                    assert(t[i] == b[i - a.len() - 1]);
                    lemma_operation_text_free_space(p.operation, i - a.len() - 1);
                } else if i == a.len() + 1 + b.len() {
                } else {
                    assert(t[i] == ct[i - a.len() - 2 - b.len()]);
                    lemma_resource_text_free_space(c, i - a.len() - 2 - b.len());
                }
            }
        }
    } else if permission_is_all(p) {
        assert(t == "*"@);
        assert(free_of(t, ':'));
        assert(free_of(t, ' '));
    } else {
        assert(t =~= a + seq!['.'] + b);
        assert(split_spec(t, '.') =~= seq![a, b]);
        assert(t.len() > 1);
        assert(t != "*"@);
        assert(free_of(t, ':'));
        assert forall|i: int| 0 <= i < t.len() implies #[trigger] t[i] != ' ' by {
            if i < a.len() {
                assert(t[i] == a[i]);
                lemma_resource_text_free_space(p.resource, i);
            } else if i > a.len() {
                assert(t[i] == b[i - a.len() - 1]);
                lemma_operation_text_free_space(p.operation, i - a.len() - 1);
            }
        }
    }
}

proof fn lemma_resource_text_free_space(r: ResourceModel, i: int)
    requires
        resource_wf(r),
        0 <= i < resource_text(r).len(),
    ensures
        resource_text(r)[i] != ' ',
{
    reveal_strlit("*");
    reveal_strlit("File");
    reveal_strlit("Folder");
    reveal_strlit("Bucket");
    reveal_strlit("Cluster");
    if let ResourceModel::Other(s) = r {
        lemma_name_free(s);
    }
}

proof fn lemma_operation_text_free_space(o: OperationModel, i: int)
    requires
        operation_wf(o),
        0 <= i < operation_text(o).len(),
    ensures
        operation_text(o)[i] != ' ',
{
    reveal_strlit("*");
    reveal_strlit("List");
    reveal_strlit("Read");
    reveal_strlit("Write");
    reveal_strlit("Delete");
    if let OperationModel::Other(s) = o {
        lemma_name_free(s);
    }
}

// ---------------------------------------------------------------- resource paths

/// Strictly increasing in string order, hence free of duplicates.
pub open spec fn sorted_strs(v: Seq<Seq<char>>) -> bool {
    forall|i: int, j: int| 0 <= i < j < v.len() ==> str_lt(#[trigger] v[i], #[trigger] v[j])
}

/// Whether a set of resource paths stands for all resources: it is empty or
/// holds `*`.
pub open spec fn paths_all(v: Seq<Seq<char>>) -> bool {
    v.len() == 0 || v.contains("*"@)
}

/// Whether a set of resource paths admits the path `p`.
pub open spec fn paths_admit(v: Seq<Seq<char>>, p: Seq<char>) -> bool {
    paths_all(v) || v.contains(p)
}

/// `v` joined with `sep` between neighbours.
pub open spec fn join(v: Seq<Seq<char>>, sep: Seq<char>) -> Seq<char>
    decreases v.len(),
{
    if v.len() == 0 {
        Seq::empty()
    } else if v.len() == 1 {
        v[0]
    } else {
        join(v.drop_last(), sep) + sep + v.last()
    }
}

/// How a set of resource paths is written: comma-separated in order, or empty
/// when it stands for all resources.
pub open spec fn paths_text(v: Seq<Seq<char>>) -> Seq<char> {
    if paths_all(v) {
        Seq::empty()
    } else {
        join(v, ","@)
    }
}

/// The paths named by a comma-separated list (none for `""` and `"*"`).
pub open spec fn paths_of(s: Seq<char>) -> Set<Seq<char>> {
    if s == ""@ || s == "*"@ {
        Set::empty()
    } else {
        split_spec(s, ',').to_set()
    }
}

/// The increasing sequence holding exactly the paths of `s`.
pub open spec fn canon_paths(s: Set<Seq<char>>) -> Seq<Seq<char>> {
    choose|v: Seq<Seq<char>>| sorted_strs(v) && v.to_set() == s
}

/// Two increasing sequences of strings with the same elements are equal.
pub proof fn lemma_sorted_strs_unique(a: Seq<Seq<char>>, b: Seq<Seq<char>>)
    requires
        sorted_strs(a),
        sorted_strs(b),
        forall|x: Seq<char>| #[trigger] a.contains(x) <==> b.contains(x),
    ensures
        a == b,
    decreases a.len(),
{
    if a.len() == 0 {
        if b.len() > 0 {
            assert(b.contains(b[0]));
            assert(a.contains(b[0]));
        }
        assert(a =~= b);
    } else {
        assert(a.contains(a[0]));
        assert(b.contains(a[0]));
        assert(b.len() > 0);
        assert(b.contains(b[0]));
        assert(a.contains(b[0]));
        let k = choose|k: int| 0 <= k < a.len() && a[k] == b[0];
        let m = choose|m: int| 0 <= m < b.len() && b[m] == a[0];
        if a[0] != b[0] {
            assert(k > 0);
            assert(m > 0);
            assert(str_lt(a[0], a[k]));
            assert(str_lt(b[0], b[m]));
            crate::order::lemma_lex_asymmetric(enc_str(a[0]), enc_str(b[0]));
        }
        let a1 = a.drop_first();
        let b1 = b.drop_first();
        assert forall|x: Seq<char>| #[trigger] a1.contains(x) <==> b1.contains(x) by {
            if a1.contains(x) {
                let i = choose|i: int| 0 <= i < a1.len() && a1[i] == x;
                assert(a[i + 1] == x);
                assert(a.contains(x));
                assert(b.contains(x));
                assert(str_lt(a[0], a[i + 1]));
                crate::order::lemma_lex_irreflexive(enc_str(x));
                let j = choose|j: int| 0 <= j < b.len() && b[j] == x;
                assert(j != 0);
                assert(b1[j - 1] == x);
            }
            if b1.contains(x) {
                let i = choose|i: int| 0 <= i < b1.len() && b1[i] == x;
                assert(b[i + 1] == x);
                assert(b.contains(x));
                assert(a.contains(x));
                assert(str_lt(b[0], b[i + 1]));
                crate::order::lemma_lex_irreflexive(enc_str(x));
                let j = choose|j: int| 0 <= j < a.len() && a[j] == x;
                assert(j != 0);
                assert(a1[j - 1] == x);
            }
        }
        lemma_sorted_strs_unique(a1, b1);
        assert(a =~= seq![a[0]] + a1);
        assert(b =~= seq![b[0]] + b1);
    }
}

/// A sorted sequence holding exactly the elements of `s` is `canon_paths(s)`.
pub proof fn lemma_canon_paths(v: Seq<Seq<char>>, s: Set<Seq<char>>)
    requires
        sorted_strs(v),
        v.to_set() == s,
    ensures
        canon_paths(s) == v,
{
    let c = canon_paths(s);
    assert(sorted_strs(c) && c.to_set() == s);
    assert forall|x: Seq<char>| #[trigger] c.contains(x) <==> v.contains(x) by {
        assert(c.to_set().contains(x) == c.contains(x));
        assert(v.to_set().contains(x) == v.contains(x));
    }
    lemma_sorted_strs_unique(c, v);
}

/// Whether every path of a comma-separated list is a valid name.
pub open spec fn paths_valid(s: Seq<char>) -> bool {
    s == ""@ || s == "*"@ || forall|p: Seq<char>| #[trigger] split_spec(s, ',').contains(p)
        ==> is_valid_name(p)
}

/// `p` is the invalid path of `s` that comes first in string order.
pub open spec fn is_least_bad_path(s: Seq<char>, p: Seq<char>) -> bool {
    &&& split_spec(s, ',').contains(p)
    &&& !is_valid_name(p)
    &&& forall|q: Seq<char>| #[trigger] split_spec(s, ',').contains(q) && !is_valid_name(q) ==> q
        == p || str_lt(p, q)
}

/// A set of resource paths, kept in increasing order without duplicates.
#[derive(Debug)]
pub struct Resources(Vec<String>);

impl View for Resources {
    type V = Seq<Seq<char>>;

    closed spec fn view(&self) -> Seq<Seq<char>> {
        views(self.0@)
    }
}

proof fn lemma_views_push(v: Seq<String>, s: String)
    ensures
        views(v.push(s)) == views(v).push(s@),
{
    assert(views(v.push(s)) =~= views(v).push(s@));
}

/// Encodes a string for ordering.
fn str_key(s: &String) -> (k: Vec<u32>)
    ensures
        k@ == enc_str(s@),
{
    let mut k: Vec<u32> = Vec::new();
    encode_str(&mut k, s);
    assert(k@ =~= enc_str(s@));
    k
}

proof fn lemma_str_lt_total(a: Seq<char>, b: Seq<char>)
    requires
        a != b,
    ensures
        str_lt(a, b) || str_lt(b, a),
{
    if enc_str(a) == enc_str(b) {
        crate::order::lemma_enc_str_injective(a, b);
    }
    crate::order::lemma_lex_total(enc_str(a), enc_str(b));
}

/// Inserts `s` into a sorted vector of strings unless already present.
fn insert_str(v: &mut Vec<String>, s: String)
    requires
        sorted_strs(views(old(v)@)),
    ensures
        sorted_strs(views(final(v)@)),
        forall|x: Seq<char>| views(final(v)@).contains(x) <==> (views(old(v)@).contains(x) || x == s@),
{
    let key = str_key(&s);
    let mut i: usize = 0;
    let mut found = false;
    while i < v.len()
        invariant_except_break
            0 <= i <= v.len(),
            !found,
            v@ == old(v)@,
            sorted_strs(views(v@)),
            key@ == enc_str(s@),
            forall|k: int| 0 <= k < i ==> str_lt(#[trigger] views(v@)[k], s@),
        ensures
            0 <= i <= v.len(),
            v@ == old(v)@,
            sorted_strs(views(v@)),
            forall|k: int| 0 <= k < i ==> str_lt(#[trigger] views(v@)[k], s@),
            found ==> i < v.len() && views(v@)[i as int] == s@,
            !found ==> i == v.len() || str_lt(s@, views(v@)[i as int]),
        decreases v.len() - i,
    {
        let ki = str_key(&v[i]);
        assert(views(v@)[i as int] == v@[i as int]@);
        match lex_compare(&ki, &key) {
            Order::Less => {
                i += 1;
            },
            Order::Equal => {
                proof {
                    crate::order::lemma_enc_str_injective(v@[i as int]@, s@);
                }
                found = true;
                break;
            },
            Order::Greater => {
                assert(str_lt(s@, views(v@)[i as int]));
                break;
            },
        }
    }
    if found {
        assert(views(v@)[i as int] == s@);
        return;
    }
    let ghost old_v = views(v@);
    assert(old_v == views(old(v)@));
    v.insert(i, s);
    assert(views(v@) =~= old_v.insert(i as int, s@));
    assert forall|a: int, b: int| 0 <= a < b < views(v@).len() implies str_lt(
        #[trigger] views(v@)[a],
        #[trigger] views(v@)[b],
    ) by {
        let w = views(v@);
        if b < i {
            assert(str_lt(old_v[a], old_v[b]));
        } else if b == i {
            assert(str_lt(old_v[a], s@));
        } else if a == i {
            if b - 1 > i {
                assert(str_lt(old_v[i as int], old_v[b - 1]));
                crate::order::lemma_lex_transitive(enc_str(s@), enc_str(old_v[i as int]), enc_str(old_v[b - 1]));
            }
        } else if a < i {
            assert(str_lt(old_v[a], s@));
            if b - 1 > i {
                assert(str_lt(old_v[i as int], old_v[b - 1]));
                crate::order::lemma_lex_transitive(enc_str(s@), enc_str(old_v[i as int]), enc_str(old_v[b - 1]));
            }
            assert(str_lt(s@, old_v[b - 1]));
            crate::order::lemma_lex_transitive(enc_str(old_v[a]), enc_str(s@), enc_str(old_v[b - 1]));
        } else {
            assert(str_lt(old_v[a - 1], old_v[b - 1]));
        }
    }
    assert forall|x: Seq<char>| #[trigger] views(v@).contains(x) <==> (views(old(v)@).contains(x) || x == s@) by {
        let w = views(v@);
        if old_v.contains(x) {
            let k = choose|k: int| 0 <= k < old_v.len() && old_v[k] == x;
            if k < i {
                assert(w[k] == x);
            } else {
                assert(w[k + 1] == x);
            }
        }
        if x == s@ {
            assert(w[i as int] == x);
        }
        if w.contains(x) {
            let k = choose|k: int| 0 <= k < w.len() && w[k] == x;
            if k < i {
                assert(old_v[k] == x);
            } else if k > i {
                assert(old_v[k - 1] == x);
            }
        }
    }
}

impl Resources {
    #[verifier::type_invariant]
    spec fn sorted(self) -> bool {
        sorted_strs(views(self.0@))
    }

    /// The empty set, which stands for all resources.
    pub fn new() -> (r: Resources)
        ensures
            r@ == Seq::<Seq<char>>::empty(),
    {
        let r = Resources(Vec::new());
        assert(views(r.0@) =~= Seq::<Seq<char>>::empty());
        r
    }

    /// The set of the given paths.
    pub fn from<const N: usize>(val: [String; N]) -> (r: Resources)
        ensures
            sorted_strs(r@),
            r@.to_set() == views(val@).to_set(),
    {
        let mut v: Vec<String> = Vec::new();
        let mut i: usize = 0;
        while i < N
            invariant
                0 <= i <= N,
                N == val@.len(),
                sorted_strs(views(v@)),
                forall|x: Seq<char>| views(v@).contains(x) <==> views(val@).take(i as int).contains(x),
            decreases N - i,
        {
            let s = val[i].clone();
            insert_str(&mut v, s);
            proof {
                let t = views(val@).take(i + 1);
                assert(t =~= views(val@).take(i as int).push(val@[i as int]@));
                assert forall|x: Seq<char>| t.contains(x) <==> (views(val@).take(i as int).contains(x) || x == val@[i as int]@) by {
                    if t.contains(x) {
                        let k = choose|k: int| 0 <= k < t.len() && t[k] == x;
                        if k < i {
                            assert(views(val@).take(i as int)[k] == x);
                        }
                    }
                    if views(val@).take(i as int).contains(x) {
                        let k = choose|k: int| 0 <= k < i && views(val@).take(i as int)[k] == x;
                        assert(t[k] == x);
                    }
                    if x == val@[i as int]@ {
                        assert(t[i as int] == x);
                    }
                }
            }
            i += 1;
        }
        assert(views(val@).take(N as int) =~= views(val@));
        let r = Resources(v);
        assert(r@.to_set() =~= views(val@).to_set());
        r
    }

    /// The number of paths.
    pub fn len(&self) -> (n: usize)
        ensures
            n == self@.len(),
    {
        self.0.len()
    }

    /// Whether the set is empty.
    pub fn is_empty(&self) -> (b: bool)
        ensures
            b == (self@.len() == 0),
    {
        self.0.len() == 0
    }

    /// Whether `path` is one of the paths.
    pub fn contains(&self, path: &str) -> (b: bool)
        ensures
            b == self@.contains(path@),
    {
        for i in 0..self.0.len()
            invariant
                forall|k: int| 0 <= k < i ==> views(self.0@)[k] != path@,
        {
            if str_eq(self.0[i].as_str(), path) {
                assert(views(self.0@)[i as int] == path@);
                return true;
            }
        }
        false
    }

    /// Whether the set stands for all resources: it is empty or holds `*`.
    pub fn is_all(&self) -> (b: bool)
        ensures
            b == paths_all(self@),
    {
        self.0.len() == 0 || self.contains("*")
    }

    /// Whether a resource path is admitted: the set stands for all resources or
    /// holds the path.
    pub fn check(&self, value: &str) -> (b: bool)
        ensures
            b == paths_admit(self@, value@),
    {
        self.is_all() || self.contains(value)
    }

    /// The paths written comma-separated in order, or nothing when the set
    /// stands for all resources.
    pub fn to_string(&self) -> (r: String)
        ensures
            r@ == paths_text(self@),
    {
        let mut s = String::new();
        if self.is_all() {
            return s;
        }
        let ghost v = self@;
        for i in 0..self.0.len()
            invariant
                v == views(self.0@),
                v.len() > 0,
                i == 0 ==> s@.len() == 0,
                i > 0 ==> s@ == join(v.take(i as int), ","@),
        {
            if i > 0 {
                push_str(&mut s, ",");
            }
            push_str(&mut s, self.0[i].as_str());
            proof {
                let t = v.take(i + 1);
                assert(t.drop_last() =~= v.take(i as int));
                if i == 0 {
                    assert(s@ =~= v[0]);
                }
            }
        }
        assert(v.take(v.len() as int) =~= v);
        s
    }

    /// Reads a comma-separated list of paths; `""` and `"*"` give the empty
    /// set, every other piece must be a valid name.
    pub fn try_from(value: &str) -> (r: Result<Resources, String>)
        ensures
            r is Ok <==> paths_valid(value@),
            r matches Ok(x) ==> x@ == canon_paths(paths_of(value@)),
            r matches Err(e) ==> exists|p: Seq<char>| is_least_bad_path(value@, p) && e@ == name_error(p),
    {
        if str_eq(value, "") || str_eq(value, "*") {
            let r = Resources::new();
            assert(r@.to_set() =~= Set::<Seq<char>>::empty());
            proof { lemma_canon_paths(r@, paths_of(value@)); }
            return Ok(r);
        }
        let parts = split_char(value, ',');
        let ghost pieces = split_spec(value@, ',');
        let mut v: Vec<String> = Vec::new();
        for i in 0..parts.len()
            invariant
                views(parts@) == pieces,
                sorted_strs(views(v@)),
                forall|x: Seq<char>| views(v@).contains(x) <==> pieces.take(i as int).contains(x),
        {
            let s = parts[i].clone();
            insert_str(&mut v, s);
            proof {
                let t = pieces.take(i + 1);
                assert forall|x: Seq<char>| t.contains(x) <==> (pieces.take(i as int).contains(x) || x == pieces[i as int]) by {
                    if t.contains(x) {
                        let k = choose|k: int| 0 <= k < t.len() && t[k] == x;
                        if k < i {
                            assert(pieces.take(i as int)[k] == x);
                        }
                    }
                    if pieces.take(i as int).contains(x) {
                        let k = choose|k: int| 0 <= k < i && pieces.take(i as int)[k] == x;
                        assert(t[k] == x);
                    }
                    if x == pieces[i as int] {
                        assert(t[i as int] == x);
                    }
                }
            }
        }
        assert(pieces.take(parts.len() as int) =~= pieces);
        for i in 0..v.len()
            invariant
                sorted_strs(views(v@)),
                forall|x: Seq<char>| views(v@).contains(x) <==> pieces.contains(x),
                pieces == split_spec(value@, ','),
                value@ != ""@,
                value@ != "*"@,
                forall|k: int| 0 <= k < i ==> is_valid_name(#[trigger] views(v@)[k]),
        {
            match validate_name(v[i].as_str()) {
                Ok(()) => {},
                Err(e) => {
                    proof {
                        let p = views(v@)[i as int];
                        assert(views(v@).contains(p));
                        assert forall|q: Seq<char>| #[trigger] pieces.contains(q) && !is_valid_name(q) implies q == p || str_lt(p, q) by {
                            assert(views(v@).contains(q));
                            let k = choose|k: int| 0 <= k < views(v@).len() && views(v@)[k] == q;
                            if k < i {
                                assert(is_valid_name(views(v@)[k]));
                            } else if k > i {
                                assert(str_lt(views(v@)[i as int], views(v@)[k]));
                            }
                        }
                        assert(split_spec(value@, ',').contains(p));
                        assert(!is_valid_name(p));
                        assert(value@ != ""@);
                        assert(value@ != "*"@);
                        assert(is_least_bad_path(value@, p));
                        assert(!paths_valid(value@));
                    }
                    return Err(e);
                },
            }
        }
        assert forall|p: Seq<char>| #[trigger] pieces.contains(p) implies is_valid_name(p) by {
            assert(views(v@).contains(p));
            let k = choose|k: int| 0 <= k < views(v@).len() && views(v@)[k] == p;
            assert(is_valid_name(views(v@)[k]));
        }
        let r = Resources(v);
        assert(r@.to_set() =~= pieces.to_set());
        proof { lemma_canon_paths(r@, paths_of(value@)); }
        Ok(r)
    }

    /// A copy of this set.
    pub fn copy(&self) -> (r: Resources)
        ensures
            r@ == self@,
    {
        proof {
            use_type_invariant(self);
        }
        let mut v: Vec<String> = Vec::new();
        for i in 0..self.0.len()
            invariant
                views(v@) == views(self.0@).take(i as int),
        {
            let ghost before = v@;
            let c = self.0[i].clone();
            v.push(c);
            proof {
                lemma_views_push(before, c);
                assert(views(self.0@).take(i + 1) =~= views(self.0@).take(i as int).push(self.0@[i as int]@));
            }
        }
        assert(views(self.0@).take(self.0.len() as int) =~= views(self.0@));
        Resources(v)
    }

    /// Whether two sets hold the same paths.
    pub fn same(&self, other: &Resources) -> (b: bool)
        ensures
            b == (self@ == other@),
    {
        if self.0.len() != other.0.len() {
            assert(views(self.0@).len() != views(other.0@).len());
            return false;
        }
        for i in 0..self.0.len()
            invariant
                self.0.len() == other.0.len(),
                forall|k: int| 0 <= k < i ==> views(self.0@)[k] == views(other.0@)[k],
        {
            if !str_eq(self.0[i].as_str(), other.0[i].as_str()) {
                assert(views(self.0@)[i as int] != views(other.0@)[i as int]);
                return false;
            }
        }
        assert(views(self.0@) =~= views(other.0@));
        true
    }

    /// Appends the order key of this set.
    pub fn encode(&self, out: &mut Vec<u32>)
        ensures
            final(out)@ == old(out)@ + enc_strs(self@),
    {
        let ghost start = out@;
        let ghost v = self@;
        let mut i: usize = 0;
        assert(v.skip(0) =~= v);
        while i < self.0.len()
            invariant
                v == views(self.0@),
                0 <= i <= v.len(),
                out@ + enc_strs(v.skip(i as int)) == start + enc_strs(v),
            decreases v.len() - i,
        {
            let ghost before = out@;
            encode_str(out, &self.0[i]);
            assert(v.skip(i as int) =~= seq![v[i as int]] + v.skip(i + 1));
            assert(enc_strs(v.skip(i as int)) =~= enc_str(v[i as int]) + enc_strs(v.skip(i + 1))) by {
                assert(v.skip(i as int).drop_first() =~= v.skip(i + 1));
            }
            i += 1;
        }
        assert(v.skip(i as int) =~= Seq::<Seq<char>>::empty());
        out.push(0);
        assert(out@ =~= start + enc_strs(v));
    }
}

impl Default for Resources {
    fn default() -> (r: Self)
        ensures
            r@ == Seq::<Seq<char>>::empty(),
    {
        Resources::new()
    }
}

impl Clone for Resources {
    fn clone(&self) -> (r: Self)
        ensures
            r@ == self@,
    {
        self.copy()
    }
}

impl PartialEq for Resources {
    fn eq(&self, other: &Self) -> (r: bool) {
        self.same(other)
    }
}

impl vstd::std_specs::cmp::PartialEqSpecImpl for Resources {
    open spec fn obeys_eq_spec() -> bool {
        true
    }

    open spec fn eq_spec(&self, other: &Self) -> bool {
        self@ == other@
    }
}

impl Eq for Resources {
}

// ---------------------------------------------------------------- policies

/// A permission together with the resource paths it applies to, written
/// `Permission:Path1,Path2` (the paths may be left out, which means all).
#[derive(Debug, Default)]
pub struct Policy {
    pub permission: Permission,
    pub resources: Resources,
}

/// The mathematical value of a [`Policy`].
pub struct PolicyModel {
    pub permission: PermissionModel,
    pub resources: Seq<Seq<char>>,
}

impl View for Policy {
    type V = PolicyModel;

    open spec fn view(&self) -> PolicyModel {
        PolicyModel { permission: self.permission@, resources: self.resources@ }
    }
}

/// The policy that grants everything on every resource.
pub open spec fn policy_all() -> PolicyModel {
    PolicyModel { permission: permission_all(), resources: Seq::empty() }
}

/// Whether a policy grants `perm` on the resource path `path`.
pub open spec fn policy_admits(p: PolicyModel, perm: PermissionModel, path: Seq<char>) -> bool {
    permission_admits(p.permission, perm) && paths_admit(p.resources, path)
}

/// Whether a policy grants `perm` on at least one of `paths` (or on all
/// resources).
pub open spec fn policy_admits_any(p: PolicyModel, perm: PermissionModel, paths: Seq<Seq<char>>) -> bool {
    permission_admits(p.permission, perm) && (paths_all(p.resources) || exists|i: int|
        0 <= i < paths.len() && paths_admit(p.resources, #[trigger] paths[i]))
}

/// How a policy is written.
pub open spec fn policy_text(p: PolicyModel) -> Seq<char> {
    if paths_all(p.resources) {
        if permission_is_all(p.permission) {
            "*"@
        } else {
            permission_text(p.permission)
        }
    } else {
        permission_text(p.permission) + ":"@ + paths_text(p.resources)
    }
}

/// How a policy is read back from text.
pub open spec fn parse_policy(s: Seq<char>) -> Result<PolicyModel, Seq<char>> {
    if s == "*"@ {
        Ok(policy_all())
    } else {
        let parts = split_spec(s, ':');
        match parse_permission(parts[0]) {
            Err(e) => Err(e),
            Ok(perm) => if parts.len() < 2 {
                Ok(PolicyModel { permission: perm, resources: Seq::empty() })
            } else if !paths_valid(parts[1]) {
                Err(name_error(choose|p: Seq<char>| is_least_bad_path(parts[1], p)))
            } else if parts.len() > 2 {
                Err("invalid policy format "@ + s)
            } else {
                Ok(PolicyModel { permission: perm, resources: canon_paths(paths_of(parts[1])) })
            },
        }
    }
}

/// Orders policies by permission, then by their paths.
pub open spec fn enc_policy(p: PolicyModel) -> Seq<u32> {
    enc_permission(p.permission) + enc_strs(p.resources)
}

pub proof fn lemma_enc_policy_injective(a: PolicyModel, b: PolicyModel)
    requires
        enc_policy(a) == enc_policy(b),
    ensures
        a == b,
{
    lemma_enc_permission_split(a.permission, enc_strs(a.resources), b.permission, enc_strs(b.resources));
    let e: Seq<u32> = Seq::empty();
    assert(enc_strs(a.resources) + e =~= enc_strs(a.resources));
    assert(enc_strs(b.resources) + e =~= enc_strs(b.resources));
    lemma_enc_strs_split(a.resources, e, b.resources, e);
}

proof fn lemma_least_bad_unique(s: Seq<char>, p: Seq<char>, q: Seq<char>)
    requires
        is_least_bad_path(s, p),
        is_least_bad_path(s, q),
    ensures
        p == q,
{
    if p != q {
        assert(str_lt(p, q));
        assert(str_lt(q, p));
        crate::order::lemma_lex_asymmetric(enc_str(p), enc_str(q));
    }
}

impl Policy {
    /// A copy of this policy.
    pub fn copy(&self) -> (r: Policy)
        ensures
            r@ == self@,
    {
        Policy { permission: self.permission.copy(), resources: self.resources.copy() }
    }

    /// Whether the policy grants `permission` on `resource_path`.
    pub fn allows(&self, permission: &Permission, resource_path: &str) -> (r: bool)
        ensures
            r == policy_admits(self@, permission@, resource_path@),
    {
        self.permission.check(permission) && self.resources.check(resource_path)
    }

    /// The policy written as text.
    pub fn to_string(&self) -> (r: String)
        ensures
            r@ == policy_text(self@),
    {
        if self.resources.is_all() {
            if self.permission.is_all() {
                owned("*")
            } else {
                self.permission.to_string()
            }
        } else {
            let mut s = self.permission.to_string();
            push_str(&mut s, ":");
            let rs = self.resources.to_string();
            push_str(&mut s, rs.as_str());
            s
        }
    }

    /// Reads a policy from text.
    pub fn try_from(value: &str) -> (r: Result<Policy, String>)
        ensures
            match (r, parse_policy(value@)) {
                (Ok(x), Ok(m)) => x@ == m,
                (Err(e), Err(m)) => e@ == m,
                _ => false,
            },
    {
        if str_eq(value, "*") {
            let p = Policy {
                permission: Permission { resource: Resource::All, operation: Operation::All, constraint: None },
                resources: Resources::new(),
            };
            return Ok(p);
        }
        let parts = split_char(value, ':');
        proof {
            crate::text::lemma_split_nonempty(value@, ':');
        }
        assert(parts@[0]@ == split_spec(value@, ':')[0]);
        let permission = match Permission::try_from(parts[0].as_str()) {
            Ok(p) => p,
            Err(e) => return Err(e),
        };
        if parts.len() < 2 {
            let p = Policy { permission, resources: Resources::new() };
            return Ok(p);
        }
        assert(parts@[1]@ == split_spec(value@, ':')[1]);
        let resources = match Resources::try_from(parts[1].as_str()) {
            Ok(r) => r,
            Err(e) => {
                proof {
                    let sp = split_spec(value@, ':')[1];
                    let p = choose|p: Seq<char>| is_least_bad_path(sp, p) && e@ == name_error(p);
                    let q = choose|q: Seq<char>| is_least_bad_path(sp, q);
                    lemma_least_bad_unique(sp, p, q);
                }
                return Err(e);
            },
        };
        if parts.len() > 2 {
            let mut e = owned("invalid policy format ");
            push_str(&mut e, value);
            return Err(e);
        }
        Ok(Policy { permission, resources })
    }

    /// Appends the order key of this policy.
    pub fn encode(&self, out: &mut Vec<u32>)
        ensures
            final(out)@ == old(out)@ + enc_policy(self@),
    {
        let ghost start = out@;
        self.permission.encode(out);
        self.resources.encode(out);
        assert(out@ =~= start + enc_policy(self@));
    }

    /// The order key of this policy.
    pub fn key(&self) -> (k: Vec<u32>)
        ensures
            k@ == enc_policy(self@),
    {
        let mut k: Vec<u32> = Vec::new();
        self.encode(&mut k);
        assert(k@ =~= enc_policy(self@));
        k
    }

    /// Whether two policies are the same.
    pub fn same(&self, other: &Policy) -> (b: bool)
        ensures
            b == (self@ == other@),
    {
        let a = self.key();
        let b = other.key();
        let r = lex_compare(&a, &b);
        proof {
            if a@ == b@ {
                lemma_enc_policy_injective(self@, other@);
            }
        }
        match r {
            Order::Equal => true,
            _ => false,
        }
    }
}

impl Clone for Policy {
    fn clone(&self) -> (r: Self)
        ensures
            r@ == self@,
    {
        self.copy()
    }
}

impl PartialEq for Policy {
    fn eq(&self, other: &Self) -> (r: bool) {
        self.same(other)
    }
}

impl vstd::std_specs::cmp::PartialEqSpecImpl for Policy {
    open spec fn obeys_eq_spec() -> bool {
        true
    }

    open spec fn eq_spec(&self, other: &Self) -> bool {
        self@ == other@
    }
}

impl Eq for Policy {
}

/// Checks a permission against a single resource path.
pub trait PermissionChecker<T> {
    /// Whether `permission` is granted on `resource_path`.
    fn has_permission(&self, permission: &Permission, resource_path: T) -> bool;
}

/// Checks a permission against several resource paths.
pub trait PermissionCheckerAny<T> {
    /// Whether `permission` is granted on at least one of `resources_path`.
    fn has_permission_any(&self, permission: &Permission, resources_path: &[T]) -> bool;
}

impl<'a> PermissionChecker<&'a str> for Policy {
    fn has_permission(&self, permission: &Permission, resource_path: &'a str) -> (r: bool)
        ensures
            r == policy_admits(self@, permission@, resource_path@),
    {
        self.allows(permission, resource_path)
    }
}

impl PermissionChecker<String> for Policy {
    fn has_permission(&self, permission: &Permission, resource_path: String) -> (r: bool)
        ensures
            r == policy_admits(self@, permission@, resource_path@),
    {
        self.allows(permission, resource_path.as_str())
    }
}

/// The views of a slice of string slices.
pub open spec fn str_views(v: Seq<&str>) -> Seq<Seq<char>> {
    v.map_values(|x: &str| x@)
}

impl Policy {
    /// Whether the policy grants `permission` on one of `paths`.
    pub fn allows_any(&self, permission: &Permission, paths: &[&str]) -> (r: bool)
        ensures
            r == policy_admits_any(self@, permission@, str_views(paths@)),
    {
        if !self.permission.check(permission) {
            return false;
        }
        if self.resources.is_all() {
            return true;
        }
        let ghost ps = str_views(paths@);
        for i in 0..paths.len()
            invariant
                ps == str_views(paths@),
                !paths_all(self.resources@),
                permission_admits(self.permission@, permission@),
                forall|k: int| 0 <= k < i ==> !paths_admit(self.resources@, #[trigger] ps[k]),
        {
            assert(ps[i as int] == paths@[i as int]@);
            if self.resources.check(paths[i]) {
                assert(str_views(paths@).len() == paths@.len());
                assert(paths_admit(self.resources@, str_views(paths@)[i as int]));
                return true;
            }
        }
        false
    }
}

impl<'a> PermissionCheckerAny<&'a str> for Policy {
    fn has_permission_any(&self, permission: &Permission, resources_path: &[&'a str]) -> (r: bool)
        ensures
            r == policy_admits_any(self@, permission@, str_views(resources_path@)),
    {
        self.allows_any(permission, resources_path)
    }
}

/// The views of a sequence of strings held in a slice.
pub open spec fn string_views(v: Seq<String>) -> Seq<Seq<char>> {
    v.map_values(|x: String| x@)
}

impl Policy {
    /// Whether the policy grants `permission` on one of `paths`.
    pub fn allows_any_of(&self, permission: &Permission, paths: &[String]) -> (r: bool)
        ensures
            r == policy_admits_any(self@, permission@, string_views(paths@)),
    {
        if !self.permission.check(permission) {
            return false;
        }
        if self.resources.is_all() {
            return true;
        }
        let ghost ps = string_views(paths@);
        for i in 0..paths.len()
            invariant
                ps == string_views(paths@),
                !paths_all(self.resources@),
                permission_admits(self.permission@, permission@),
                forall|k: int| 0 <= k < i ==> !paths_admit(self.resources@, #[trigger] ps[k]),
        {
            assert(ps[i as int] == paths@[i as int]@);
            if self.resources.check(paths[i].as_str()) {
                assert(string_views(paths@).len() == paths@.len());
                assert(paths_admit(self.resources@, string_views(paths@)[i as int]));
                return true;
            }
        }
        false
    }
}

impl PermissionCheckerAny<String> for Policy {
    fn has_permission_any(&self, permission: &Permission, resources_path: &[String]) -> (r: bool)
        ensures
            r == policy_admits_any(self@, permission@, string_views(resources_path@)),
    {
        self.allows_any_of(permission, resources_path)
    }
}

/// Paths joined with a separator that none of them holds split back into the paths.
proof fn lemma_split_join(v: Seq<Seq<char>>, sep: char)
    requires
        v.len() >= 1,
        forall|i: int| 0 <= i < v.len() ==> free_of(#[trigger] v[i], sep),
    ensures
        split_spec(join(v, seq![sep]), sep) == v,
    decreases v.len(),
{
    if v.len() == 1 {
        lemma_split_single(v[0], sep);
        assert(seq![v[0]] =~= v);
    } else {
        let d = v.drop_last();
        assert forall|i: int| 0 <= i < d.len() implies free_of(#[trigger] d[i], sep) by {
            assert(d[i] == v[i]);
        }
        lemma_split_join(d, sep);
        assert(free_of(v.last(), sep));
        lemma_split_push(join(d, seq![sep]), sep, v.last());
        assert(d.push(v.last()) =~= v);
    }
}

/// Joined text of characters other than `c` holds no `c`.
proof fn lemma_join_free(v: Seq<Seq<char>>, sep: char, c: char)
    requires
        sep != c,
        forall|i: int| 0 <= i < v.len() ==> free_of(#[trigger] v[i], c),
    ensures
        free_of(join(v, seq![sep]), c),
    decreases v.len(),
{
    if v.len() > 1 {
        let d = v.drop_last();
        assert forall|i: int| 0 <= i < d.len() implies free_of(#[trigger] d[i], c) by {
            assert(d[i] == v[i]);
        }
        lemma_join_free(d, sep, c);
        let j = join(d, seq![sep]);
        let t = j + seq![sep] + v.last();
        assert(free_of(v.last(), c));
        assert forall|i: int| 0 <= i < t.len() implies #[trigger] t[i] != c by {
            if i < j.len() {
                assert(t[i] == j[i]);
            } else if i > j.len() {
                assert(t[i] == v.last()[i - j.len() - 1]);
            }
        }
    } else if v.len() == 1 {
        assert(free_of(v[0], c));
    }
}

/// A policy that reads back as itself: its permission does, and its paths are
/// either all resources or valid names in increasing order.
pub open spec fn policy_wf(p: PolicyModel) -> bool {
    &&& permission_wf(p.permission)
    &&& (paths_all(p.resources) || (sorted_strs(p.resources) && forall|i: int|
        0 <= i < p.resources.len() ==> is_valid_name(#[trigger] p.resources[i])))
}

/// The policy as it reads back from its text: a `*` constraint is dropped, and
/// paths that stand for all resources are written as none.
pub open spec fn normal_policy(p: PolicyModel) -> PolicyModel {
    if paths_all(p.resources) && permission_is_all(p.permission) {
        policy_all()
    } else {
        PolicyModel {
            permission: normal_permission(p.permission),
            resources: if paths_all(p.resources) { Seq::empty() } else { p.resources },
        }
    }
}

/// A policy written out reads back as itself, up to the normal form above.
pub proof fn lemma_policy_text_roundtrip(p: PolicyModel)
    requires
        policy_wf(p),
    ensures
        parse_policy(policy_text(p)) == Ok::<PolicyModel, Seq<char>>(normal_policy(p)),
        free_of(policy_text(p), ' '),
{
    reveal_strlit("*");
    reveal_strlit(":");
    reveal_strlit(",");
    reveal_strlit("");
    lemma_permission_text_roundtrip(p.permission);
    let pt = permission_text(p.permission);
    let t = policy_text(p);
    if paths_all(p.resources) {
        if permission_is_all(p.permission) {
            assert(t == "*"@);
            assert(free_of(t, ' '));
        } else {
            assert(t == pt);
            if pt == "*"@ {
                assert(permission_is_all(p.permission));
            }
            lemma_split_single(pt, ':');
            assert(split_spec(t, ':') =~= seq![pt]);
        }
    } else {
        let v = p.resources;
        assert(v.len() >= 1);
        assert forall|i: int| 0 <= i < v.len() implies free_of(#[trigger] v[i], ',') && free_of(v[i], ':')
            && free_of(v[i], ' ') by {
            lemma_name_free(v[i]);
        }
        assert(","@ =~= seq![',']);
        let jt = join(v, seq![',']);
        assert(paths_text(v) == jt);
        lemma_join_free(v, ',', ':');
        lemma_join_free(v, ',', ' ');
        lemma_split_join(v, ',');
        lemma_split_single(pt, ':');
        lemma_split_push(pt, ':', jt);
        assert(t =~= pt + seq![':'] + jt);
        assert(split_spec(t, ':') =~= seq![pt, jt]);
        assert(t.len() > 1);
        assert(t != "*"@);
        assert forall|i: int| 0 <= i < t.len() implies #[trigger] t[i] != ' ' by {
            if i < pt.len() {
                assert(t[i] == pt[i]);
            } else if i > pt.len() {
                assert(t[i] == jt[i - pt.len() - 1]);
            }
        }
        // the paths part
        assert(jt != ""@) by {
            lemma_join_len(v, seq![',']);
        }
        assert(jt != "*"@) by {
            if jt == "*"@ {
                assert(split_spec(jt, ',') == v);
                lemma_split_single(jt, ',');
                assert(v =~= seq!["*"@]);
                assert(is_valid_name(v[0]));
                assert(is_name_char(v[0][0]));
            }
        }
        assert(paths_valid(jt)) by {
            assert forall|q: Seq<char>| #[trigger] split_spec(jt, ',').contains(q) implies is_valid_name(q) by {
                let k = choose|k: int| 0 <= k < v.len() && v[k] == q;
                assert(is_valid_name(v[k]));
            }
        }
        assert(paths_of(jt) == v.to_set());
        lemma_canon_paths(v, v.to_set());
    }
}

/// Two policy sequences in increasing policy order with the same elements are equal.
pub proof fn lemma_sorted_policies_unique(a: Seq<PolicyModel>, b: Seq<PolicyModel>)
    requires
        sorted_policies(a),
        sorted_policies(b),
        forall|x: PolicyModel| #[trigger] a.contains(x) <==> b.contains(x),
    ensures
        a == b,
    decreases a.len(),
{
    if a.len() == 0 {
        if b.len() > 0 {
            assert(b.contains(b[0]));
            assert(a.contains(b[0]));
        }
        assert(a =~= b);
    } else {
        assert(a.contains(a[0]));
        assert(b.contains(a[0]));
        assert(b.len() > 0);
        assert(b.contains(b[0]));
        assert(a.contains(b[0]));
        let k = choose|k: int| 0 <= k < a.len() && a[k] == b[0];
        let m = choose|m: int| 0 <= m < b.len() && b[m] == a[0];
        if a[0] != b[0] {
            assert(k > 0);
            assert(m > 0);
            assert(lex_lt(enc_policy(a[0]), enc_policy(a[k])));
            assert(lex_lt(enc_policy(b[0]), enc_policy(b[m])));
            crate::order::lemma_lex_asymmetric(enc_policy(a[0]), enc_policy(b[0]));
        }
        let a1 = a.drop_first();
        let b1 = b.drop_first();
        assert forall|x: PolicyModel| #[trigger] a1.contains(x) <==> b1.contains(x) by {
            if a1.contains(x) {
                let i = choose|i: int| 0 <= i < a1.len() && a1[i] == x;
                assert(a[i + 1] == x);
                assert(a.contains(x));
                assert(b.contains(x));
                assert(lex_lt(enc_policy(a[0]), enc_policy(a[i + 1])));
                crate::order::lemma_lex_irreflexive(enc_policy(x));
                let j = choose|j: int| 0 <= j < b.len() && b[j] == x;
                assert(j != 0);
                assert(b1[j - 1] == x);
            }
            if b1.contains(x) {
                let i = choose|i: int| 0 <= i < b1.len() && b1[i] == x;
                assert(b[i + 1] == x);
                assert(b.contains(x));
                assert(a.contains(x));
                assert(lex_lt(enc_policy(b[0]), enc_policy(b[i + 1])));
                crate::order::lemma_lex_irreflexive(enc_policy(x));
                let j = choose|j: int| 0 <= j < a.len() && a[j] == x;
                assert(j != 0);
                assert(a1[j - 1] == x);
            }
        }
        lemma_sorted_policies_unique(a1, b1);
        assert(a =~= seq![a[0]] + a1);
        assert(b =~= seq![b[0]] + b1);
    }
}

/// Appending policies gives the same set whatever the order: the union of
/// `a` and `b`, kept sorted, is one sequence.
pub proof fn lemma_append_order_free(a: Seq<PolicyModel>, b: Seq<PolicyModel>, ab: Seq<PolicyModel>, ba: Seq<PolicyModel>)
    requires
        sorted_policies(ab),
        sorted_policies(ba),
        ab.to_set() == a.to_set() + b.to_set(),
        ba.to_set() == b.to_set() + a.to_set(),
    ensures
        ab == ba,
{
    assert forall|x: PolicyModel| #[trigger] ab.contains(x) <==> ba.contains(x) by {
        assert(ab.contains(x) <==> ab.to_set().contains(x));
        assert(ba.contains(x) <==> ba.to_set().contains(x));
    }
    lemma_sorted_policies_unique(ab, ba);
}

/// Removing policies twice removes no more than once.
pub proof fn lemma_remove_idempotent(p: Seq<PolicyModel>, q: Seq<PolicyModel>, once: Seq<PolicyModel>, twice: Seq<PolicyModel>)
    requires
        sorted_policies(once),
        sorted_policies(twice),
        once.to_set() == p.to_set() - q.to_set(),
        twice.to_set() == once.to_set() - q.to_set(),
    ensures
        once == twice,
{
    assert forall|x: PolicyModel| #[trigger] once.contains(x) <==> twice.contains(x) by {
        assert(once.contains(x) <==> once.to_set().contains(x));
        assert(twice.contains(x) <==> twice.to_set().contains(x));
    }
    lemma_sorted_policies_unique(once, twice);
}

/// Appending policies that `p` does not hold and then removing them gives
/// `p` back.
pub proof fn lemma_remove_undoes_append(p: Seq<PolicyModel>, q: Seq<PolicyModel>, appended: Seq<PolicyModel>, removed: Seq<PolicyModel>)
    requires
        sorted_policies(p),
        sorted_policies(removed),
        p.to_set().disjoint(q.to_set()),
        appended.to_set() == p.to_set() + q.to_set(),
        removed.to_set() == appended.to_set() - q.to_set(),
    ensures
        removed == p,
{
    assert forall|x: PolicyModel| #[trigger] removed.contains(x) <==> p.contains(x) by {
        assert(removed.contains(x) <==> removed.to_set().contains(x));
        assert(p.contains(x) <==> p.to_set().contains(x));
    }
    lemma_sorted_policies_unique(removed, p);
}

/// The policies of a set written out read back as that set: the text is valid,
/// and the one sequence in policy order holding what it reads as is the set itself.
pub proof fn lemma_policies_text_roundtrip(v: Seq<PolicyModel>)
    requires
        sorted_policies(v),
        forall|i: int| 0 <= i < v.len() ==> policy_wf(#[trigger] v[i]) && normal_policy(v[i]) == v[i],
    ensures
        policies_valid(policies_text(v)),
        (policies_text(v) == ""@) == (v.len() == 0),
        policies_text(v) != ""@ ==> parsed_policies(split_spec(policies_text(v), ' ')) == v,
        forall|w: Seq<PolicyModel>|
            sorted_policies(w) && w.to_set() == (if policies_text(v) == ""@ {
                Set::<PolicyModel>::empty()
            } else {
                parsed_policies(split_spec(policies_text(v), ' ')).to_set()
            }) ==> w == v,
{
    reveal_strlit("");
    reveal_strlit(" ");
    reveal_strlit("*");
    let texts = v.map_values(|p: PolicyModel| policy_text(p));
    assert(" "@ =~= seq![' ']);
    let t = policies_text(v);
    assert(t == join(texts, seq![' ']));
    assert forall|i: int| 0 <= i < texts.len() implies free_of(#[trigger] texts[i], ' ') && parse_policy(texts[i])
        == Ok::<PolicyModel, Seq<char>>(v[i]) && texts[i].len() > 0 by {
        lemma_policy_text_roundtrip(v[i]);
        lemma_policy_text_nonempty(v[i]);
    }
    if v.len() == 0 {
        assert(t == ""@);
        assert forall|w: Seq<PolicyModel>| sorted_policies(w) && w.to_set() == Set::<PolicyModel>::empty() implies w
            == v by {
            if w.len() > 0 {
                assert(w.to_set().contains(w[0]));
            }
            assert(w =~= v);
        }
    } else {
        lemma_join_len(texts, seq![' ']);
        assert(t != ""@);
        lemma_split_join(texts, ' ');
        assert(split_spec(t, ' ') == texts);
        assert(parsed_policies(texts) =~= v);
        assert forall|w: Seq<PolicyModel>| sorted_policies(w) && w.to_set() == parsed_policies(split_spec(t, ' ')).to_set()
            implies w == v by {
            assert forall|x: PolicyModel| #[trigger] w.contains(x) <==> v.contains(x) by {
                assert(w.to_set().contains(x) == w.contains(x));
                assert(v.to_set().contains(x) == v.contains(x));
            }
            lemma_sorted_policies_unique(w, v);
        }
    }
}

proof fn lemma_policy_text_nonempty(p: PolicyModel)
    requires
        policy_wf(p),
    ensures
        policy_text(p).len() > 0,
{
    reveal_strlit("*");
    reveal_strlit(".");
    lemma_resource_text(p.permission.resource);
}

/// Joined non-empty pieces are non-empty.
proof fn lemma_join_len(v: Seq<Seq<char>>, sep: Seq<char>)
    requires
        v.len() >= 1,
        v[0].len() > 0,
    ensures
        join(v, sep).len() > 0,
    decreases v.len(),
{
    if v.len() > 1 {
        lemma_join_len(v.drop_last(), sep);
    }
}

// ---------------------------------------------------------------- policy sets

/// Strictly increasing in policy order, hence free of duplicates.
pub open spec fn sorted_policies(v: Seq<PolicyModel>) -> bool {
    forall|i: int, j: int|
        0 <= i < j < v.len() ==> lex_lt(enc_policy(#[trigger] v[i]), enc_policy(#[trigger] v[j]))
}

pub open spec fn policy_views(v: Seq<Policy>) -> Seq<PolicyModel> {
    v.map_values(|p: Policy| p@)
}

/// The policy `*.Read`, on all resources.
pub open spec fn policy_read_all() -> PolicyModel {
    PolicyModel {
        permission: PermissionModel {
            resource: ResourceModel::All,
            operation: OperationModel::Read,
            constraint: None,
        },
        resources: Seq::empty(),
    }
}

/// The policy `*.List`, on all resources.
pub open spec fn policy_list_all() -> PolicyModel {
    PolicyModel {
        permission: PermissionModel {
            resource: ResourceModel::All,
            operation: OperationModel::List,
            constraint: None,
        },
        resources: Seq::empty(),
    }
}

/// Whether some policy of `v` grants `perm` on `path`.
pub open spec fn policies_admit(v: Seq<PolicyModel>, perm: PermissionModel, path: Seq<char>) -> bool {
    exists|i: int| 0 <= i < v.len() && policy_admits(#[trigger] v[i], perm, path)
}

/// Whether some policy of `v` grants `perm` on one of `paths`.
pub open spec fn policies_admit_any(v: Seq<PolicyModel>, perm: PermissionModel, paths: Seq<Seq<char>>) -> bool {
    exists|i: int| 0 <= i < v.len() && policy_admits_any(#[trigger] v[i], perm, paths)
}

/// How a set of policies is written: space-separated in order.
pub open spec fn policies_text(v: Seq<PolicyModel>) -> Seq<char> {
    join(v.map_values(|p: PolicyModel| policy_text(p)), " "@)
}

/// The policy a piece of text reads as.
pub open spec fn parsed_policy(s: Seq<char>) -> PolicyModel {
    parse_policy(s)->Ok_0
}

/// The policies that the pieces read as, in order.
pub open spec fn parsed_policies(pieces: Seq<Seq<char>>) -> Seq<PolicyModel> {
    pieces.map_values(|s: Seq<char>| parsed_policy(s))
}

/// Whether every space-separated piece of `s` reads as a policy.
pub open spec fn policies_valid(s: Seq<char>) -> bool {
    s == ""@ || forall|i: int| 0 <= i < split_spec(s, ' ').len() ==> #[trigger] parse_policy(
        split_spec(s, ' ')[i],
    ) is Ok
}

proof fn lemma_policy_views_push(v: Seq<Policy>, p: Policy)
    ensures
        policy_views(v.push(p)) == policy_views(v).push(p@),
{
    assert(policy_views(v.push(p)) =~= policy_views(v).push(p@));
}

/// Inserts `p` into a sorted vector of policies unless already present.
fn insert_policy(v: &mut Vec<Policy>, p: Policy)
    requires
        sorted_policies(policy_views(old(v)@)),
    ensures
        sorted_policies(policy_views(final(v)@)),
        forall|x: PolicyModel| #[trigger] policy_views(final(v)@).contains(x) <==> (policy_views(old(v)@).contains(x) || x == p@),
{
    let key = p.key();
    let mut i: usize = 0;
    let mut found = false;
    while i < v.len()
        invariant_except_break
            0 <= i <= v.len(),
            !found,
            v@ == old(v)@,
            sorted_policies(policy_views(v@)),
            key@ == enc_policy(p@),
            forall|k: int| 0 <= k < i ==> lex_lt(enc_policy(#[trigger] policy_views(v@)[k]), enc_policy(p@)),
        ensures
            0 <= i <= v.len(),
            v@ == old(v)@,
            sorted_policies(policy_views(v@)),
            forall|k: int| 0 <= k < i ==> lex_lt(enc_policy(#[trigger] policy_views(v@)[k]), enc_policy(p@)),
            found ==> i < v.len() && policy_views(v@)[i as int] == p@,
            !found ==> i == v.len() || lex_lt(enc_policy(p@), enc_policy(policy_views(v@)[i as int])),
        decreases v.len() - i,
    {
        let ki = v[i].key();
        assert(policy_views(v@)[i as int] == v@[i as int]@);
        match lex_compare(&ki, &key) {
            Order::Less => {
                i += 1;
            },
            Order::Equal => {
                proof {
                    lemma_enc_policy_injective(v@[i as int]@, p@);
                }
                found = true;
                break;
            },
            Order::Greater => {
                break;
            },
        }
    }
    if found {
        return;
    }
    let ghost old_v = policy_views(v@);
    let ghost pm = p@;
    v.insert(i, p);
    assert(policy_views(v@) =~= old_v.insert(i as int, pm));
    assert forall|a: int, b: int| 0 <= a < b < policy_views(v@).len() implies lex_lt(
        enc_policy(#[trigger] policy_views(v@)[a]),
        enc_policy(#[trigger] policy_views(v@)[b]),
    ) by {
        if b < i {
            assert(lex_lt(enc_policy(old_v[a]), enc_policy(old_v[b])));
        } else if b == i {
            assert(lex_lt(enc_policy(old_v[a]), enc_policy(pm)));
        } else if a == i {
            if b - 1 > i {
                assert(lex_lt(enc_policy(old_v[i as int]), enc_policy(old_v[b - 1])));
                crate::order::lemma_lex_transitive(enc_policy(pm), enc_policy(old_v[i as int]), enc_policy(old_v[b - 1]));
            }
        } else if a < i {
            assert(lex_lt(enc_policy(old_v[a]), enc_policy(pm)));
            if b - 1 > i {
                assert(lex_lt(enc_policy(old_v[i as int]), enc_policy(old_v[b - 1])));
                crate::order::lemma_lex_transitive(enc_policy(pm), enc_policy(old_v[i as int]), enc_policy(old_v[b - 1]));
            }
            assert(lex_lt(enc_policy(pm), enc_policy(old_v[b - 1])));
            crate::order::lemma_lex_transitive(enc_policy(old_v[a]), enc_policy(pm), enc_policy(old_v[b - 1]));
        } else {
            assert(lex_lt(enc_policy(old_v[a - 1]), enc_policy(old_v[b - 1])));
        }
    }
    assert forall|x: PolicyModel| #[trigger] policy_views(v@).contains(x) <==> (policy_views(old(v)@).contains(x) || x == pm) by {
        let w = policy_views(v@);
        if old_v.contains(x) {
            let k = choose|k: int| 0 <= k < old_v.len() && old_v[k] == x;
            if k < i {
                assert(w[k] == x);
            } else {
                assert(w[k + 1] == x);
            }
        }
        if x == pm {
            assert(w[i as int] == x);
        }
        if w.contains(x) {
            let k = choose|k: int| 0 <= k < w.len() && w[k] == x;
            if k < i {
                assert(old_v[k] == x);
            } else if k > i {
                assert(old_v[k - 1] == x);
            }
        }
    }
}

/// A set of policies, kept in policy order without duplicates.
#[derive(Debug)]
pub struct Policies(Vec<Policy>);

impl View for Policies {
    type V = Seq<PolicyModel>;

    closed spec fn view(&self) -> Seq<PolicyModel> {
        policy_views(self.0@)
    }
}

impl Policies {
    #[verifier::type_invariant]
    spec fn sorted(self) -> bool {
        sorted_policies(policy_views(self.0@))
    }

    /// The empty set, which grants nothing.
    pub fn new() -> (r: Policies)
        ensures
            r@ == Seq::<PolicyModel>::empty(),
    {
        let r = Policies(Vec::new());
        assert(policy_views(r.0@) =~= Seq::<PolicyModel>::empty());
        r
    }

    /// Adds a policy.
    pub fn insert(&mut self, p: Policy)
        ensures
            forall|x: PolicyModel| #[trigger] final(self)@.contains(x) <==> (old(self)@.contains(x) || x == p@),
            sorted_policies(final(self)@),
    {
        proof {
            use_type_invariant(&*self);
        }
        let mut v: Vec<Policy> = Vec::new();
        std::mem::swap(&mut v, &mut self.0);
        insert_policy(&mut v, p);
        self.0 = v;
    }

    /// The policies granting every permission on every resource.
    pub fn all() -> (r: Policies)
        ensures
            r@ == seq![policy_all()],
    {
        let mut r = Policies::new();
        let p = Policy {
            permission: Permission { resource: Resource::All, operation: Operation::All, constraint: None },
            resources: Resources::new(),
        };
        r.insert(p);
        proof {
            use_type_invariant(&r);
            assert(r@.contains(policy_all()));
            let k = choose|k: int| 0 <= k < r@.len() && r@[k] == policy_all();
            if r@.len() > 1 {
                let o = if k == 0 { 1int } else { 0int };
                assert(r@.contains(r@[o]));
                assert(r@[o] == policy_all());
                if o < k {
                    assert(lex_lt(enc_policy(r@[o]), enc_policy(r@[k])));
                } else {
                    assert(lex_lt(enc_policy(r@[k]), enc_policy(r@[o])));
                }
                crate::order::lemma_lex_irreflexive(enc_policy(policy_all()));
            }
            assert(r@ =~= seq![policy_all()]);
        }
        r
    }

    /// The policies granting read and list on every resource.
    pub fn read() -> (r: Policies)
        ensures
            r@.to_set() == set![policy_read_all(), policy_list_all()],
    {
        let mut r = Policies::new();
        r.insert(Policy {
            permission: Permission { resource: Resource::All, operation: Operation::Read, constraint: None },
            resources: Resources::new(),
        });
        r.insert(Policy {
            permission: Permission { resource: Resource::All, operation: Operation::List, constraint: None },
            resources: Resources::new(),
        });
        assert(r@.to_set() =~= set![policy_read_all(), policy_list_all()]);
        r
    }

    /// The set of the given policies.
    pub fn from<const N: usize>(val: [Policy; N]) -> (r: Policies)
        ensures
            sorted_policies(r@),
            r@.to_set() == policy_views(val@).to_set(),
    {
        let mut r = Policies::new();
        let mut i: usize = 0;
        while i < N
            invariant
                0 <= i <= N,
                N == val@.len(),
                sorted_policies(r@),
                forall|x: PolicyModel| #[trigger] r@.contains(x) <==> policy_views(val@).take(i as int).contains(x),
            decreases N - i,
        {
            let p = val[i].copy();
            let ghost before = r@;
            r.insert(p);
            proof {
                let t = policy_views(val@).take(i + 1);
                assert(t =~= policy_views(val@).take(i as int).push(val@[i as int]@));
                assert forall|x: PolicyModel| #[trigger] r@.contains(x) <==> t.contains(x) by {
                    if t.contains(x) {
                        let k = choose|k: int| 0 <= k < t.len() && t[k] == x;
                        if k < i {
                            assert(policy_views(val@).take(i as int)[k] == x);
                            assert(policy_views(val@).take(i as int).contains(x));
                        }
                    }
                    if policy_views(val@).take(i as int).contains(x) {
                        let k = choose|k: int| 0 <= k < i && policy_views(val@).take(i as int)[k] == x;
                        assert(t[k] == x);
                    }
                    if x == val@[i as int]@ {
                        assert(t[i as int] == x);
                    }
                }
            }
            i += 1;
        }
        assert(policy_views(val@).take(N as int) =~= policy_views(val@));
        assert(r@.to_set() =~= policy_views(val@).to_set());
        r
    }

    /// The number of policies.
    pub fn len(&self) -> (n: usize)
        ensures
            n == self@.len(),
    {
        self.0.len()
    }

    /// Whether there is no policy.
    pub fn is_empty(&self) -> (b: bool)
        ensures
            b == (self@.len() == 0),
    {
        self.0.len() == 0
    }

    /// Whether `p` is one of the policies.
    pub fn contains(&self, p: &Policy) -> (b: bool)
        ensures
            b == self@.contains(p@),
    {
        for i in 0..self.0.len()
            invariant
                forall|k: int| 0 <= k < i ==> policy_views(self.0@)[k] != p@,
        {
            if self.0[i].same(p) {
                assert(policy_views(self.0@)[i as int] == p@);
                return true;
            }
        }
        false
    }

    /// The policies are in policy order.
    pub fn sorted_facts(&self)
        ensures
            sorted_policies(self@),
    {
        proof {
            use_type_invariant(self);
        }
    }

    /// Moves every policy of `policies` into this set, leaving `policies` empty.
    pub fn append(&mut self, policies: &mut Policies)
        ensures
            final(self)@.to_set() == old(self)@.to_set() + old(policies)@.to_set(),
            sorted_policies(final(self)@),
            final(policies)@.len() == 0,
    {
        let mut taken: Vec<Policy> = Vec::new();
        std::mem::swap(&mut taken, &mut policies.0);
        assert(policy_views(policies.0@) =~= Seq::<PolicyModel>::empty());
        let ghost added = policy_views(taken@);
        let ghost start = self@;
        while taken.len() > 0
            invariant
                forall|x: PolicyModel| (#[trigger] self@.contains(x) || policy_views(taken@).contains(x)) <==> (start.contains(x) || added.contains(x)),
            decreases taken.len(),
        {
            let ghost before = policy_views(taken@);
            let p = taken.pop().unwrap();
            proof {
                assert(before =~= policy_views(taken@).push(p@));
                assert forall|x: PolicyModel| before.contains(x) <==> (policy_views(taken@).contains(x) || x == p@) by {
                    if before.contains(x) {
                        let k = choose|k: int| 0 <= k < before.len() && before[k] == x;
                        if k < before.len() - 1 {
                            assert(policy_views(taken@)[k] == x);
                        }
                    }
                    if policy_views(taken@).contains(x) {
                        let k = choose|k: int| 0 <= k < policy_views(taken@).len() && policy_views(taken@)[k] == x;
                        assert(before[k] == x);
                    }
                    if x == p@ {
                        assert(before[before.len() - 1] == x);
                    }
                }
            }
            let ghost s0 = self@;
            let ghost pm = p@;
            self.insert(p);
            assert forall|x: PolicyModel| (#[trigger] self@.contains(x) || policy_views(taken@).contains(x)) <==> (start.contains(x) || added.contains(x)) by {
                assert(self@.contains(x) <==> (s0.contains(x) || x == pm));
                assert(before.contains(x) <==> (policy_views(taken@).contains(x) || x == pm));
            }
        }
        assert(self@.to_set() =~= start.to_set() + added.to_set());
        proof {
            use_type_invariant(&*self);
        }
    }

    /// Removes every policy that `policies` holds.
    pub fn remove(&mut self, policies: &Policies)
        ensures
            final(self)@.to_set() == old(self)@.to_set() - policies@.to_set(),
            sorted_policies(final(self)@),
    {
        proof {
            use_type_invariant(&*self);
        }
        let ghost old_v = self@;
        let mut kept: Vec<Policy> = Vec::new();
        for i in 0..self.0.len()
            invariant
                old_v == policy_views(self.0@),
                sorted_policies(old_v),
                sorted_policies(policy_views(kept@)),
                forall|m: int, j: int| 0 <= m < kept@.len() && i <= j < old_v.len() ==> lex_lt(
                    enc_policy(#[trigger] policy_views(kept@)[m]),
                    enc_policy(#[trigger] old_v[j]),
                ),
                forall|x: PolicyModel| #[trigger] policy_views(kept@).contains(x) <==> (old_v.take(i as int).contains(x) && !policies@.contains(x)),
        {
            let ghost before = policy_views(kept@);
            let ghost cur = old_v[i as int];
            assert(cur == self.0@[i as int]@);
            if !policies.contains(&self.0[i]) {
                let p = self.0[i].copy();
                kept.push(p);
                proof {
                    lemma_policy_views_push(kept@.drop_last(), p);
                    assert(kept@.drop_last() =~= kept@.take(kept@.len() - 1));
                }
                assert(policy_views(kept@) =~= before.push(cur));
            }
            proof {
                let t = old_v.take(i + 1);
                assert(t =~= old_v.take(i as int).push(cur));
                assert forall|x: PolicyModel| t.contains(x) <==> (old_v.take(i as int).contains(x) || x == cur) by {
                    if t.contains(x) {
                        let k = choose|k: int| 0 <= k < t.len() && t[k] == x;
                        if k < i {
                            assert(old_v.take(i as int)[k] == x);
                        }
                    }
                    if old_v.take(i as int).contains(x) {
                        let k = choose|k: int| 0 <= k < i && old_v.take(i as int)[k] == x;
                        assert(t[k] == x);
                    }
                    if x == cur {
                        assert(t[i as int] == x);
                    }
                }
                let w = policy_views(kept@);
                assert forall|x: PolicyModel| #[trigger] w.contains(x) <==> (t.contains(x) && !policies@.contains(x)) by {
                    if w.contains(x) && !before.contains(x) {
                        let k = choose|k: int| 0 <= k < w.len() && w[k] == x;
                        if k < before.len() {
                            assert(before[k] == x);
                        }
                    }
                    if before.contains(x) && w != before {
                        let k = choose|k: int| 0 <= k < before.len() && before[k] == x;
                        assert(w[k] == x);
                    }
                    if x == cur && w != before {
                        assert(w[w.len() - 1] == x);
                    }
                }
                assert forall|a: int, b: int| 0 <= a < b < w.len() implies lex_lt(
                    enc_policy(#[trigger] w[a]),
                    enc_policy(#[trigger] w[b]),
                ) by {
                    if b < before.len() {
                        assert(w[a] == before[a] && w[b] == before[b]);
                        assert(lex_lt(enc_policy(before[a]), enc_policy(before[b])));
                    } else {
                        assert(w[b] == cur);
                        assert(w[a] == before[a]);
                        assert(lex_lt(enc_policy(before[a]), enc_policy(old_v[i as int])));
                    }
                }
                assert forall|m: int, j: int| 0 <= m < w.len() && i + 1 <= j < old_v.len() implies lex_lt(
                    enc_policy(#[trigger] w[m]),
                    enc_policy(#[trigger] old_v[j]),
                ) by {
                    if m < before.len() {
                        assert(w[m] == before[m]);
                        assert(lex_lt(enc_policy(before[m]), enc_policy(old_v[j])));
                    } else {
                        assert(w[m] == cur);
                        assert(lex_lt(enc_policy(old_v[i as int]), enc_policy(old_v[j])));
                    }
                }
            }
        }
        assert(old_v.take(old_v.len() as int) =~= old_v);
        self.0 = kept;
        assert(self@.to_set() =~= old_v.to_set() - policies@.to_set());
    }

    /// Whether some policy grants `permission` on `resource_path`.
    pub fn allows(&self, permission: &Permission, resource_path: &str) -> (r: bool)
        ensures
            r == policies_admit(self@, permission@, resource_path@),
    {
        for i in 0..self.0.len()
            invariant
                forall|k: int| 0 <= k < i ==> !policy_admits(#[trigger] policy_views(self.0@)[k], permission@, resource_path@),
        {
            assert(policy_views(self.0@)[i as int] == self.0@[i as int]@);
            if self.0[i].allows(permission, resource_path) {
                return true;
            }
        }
        false
    }

    /// Whether some policy grants `permission` on one of `paths`.
    pub fn allows_any(&self, permission: &Permission, paths: &[&str]) -> (r: bool)
        ensures
            r == policies_admit_any(self@, permission@, str_views(paths@)),
    {
        for i in 0..self.0.len()
            invariant
                forall|k: int| 0 <= k < i ==> !policy_admits_any(#[trigger] policy_views(self.0@)[k], permission@, str_views(paths@)),
        {
            assert(policy_views(self.0@)[i as int] == self.0@[i as int]@);
            if self.0[i].allows_any(permission, paths) {
                return true;
            }
        }
        false
    }

    /// Whether some policy grants `permission` on one of `paths`.
    pub fn allows_any_of(&self, permission: &Permission, paths: &[String]) -> (r: bool)
        ensures
            r == policies_admit_any(self@, permission@, string_views(paths@)),
    {
        for i in 0..self.0.len()
            invariant
                forall|k: int| 0 <= k < i ==> !policy_admits_any(#[trigger] policy_views(self.0@)[k], permission@, string_views(paths@)),
        {
            assert(policy_views(self.0@)[i as int] == self.0@[i as int]@);
            if self.0[i].allows_any_of(permission, paths) {
                return true;
            }
        }
        false
    }

    /// The policies written space-separated in order.
    pub fn to_string(&self) -> (r: String)
        ensures
            r@ == policies_text(self@),
    {
        let mut s = String::new();
        let ghost v = self@.map_values(|p: PolicyModel| policy_text(p));
        for i in 0..self.0.len()
            invariant
                v == self@.map_values(|p: PolicyModel| policy_text(p)),
                v.len() == self.0.len(),
                s@ == join(v.take(i as int), " "@),
        {
            if i > 0 {
                push_str(&mut s, " ");
            }
            let t = self.0[i].to_string();
            assert(v[i as int] == policy_text(self@[i as int]));
            assert(self@[i as int] == self.0@[i as int]@);
            push_str(&mut s, t.as_str());
            proof {
                let w = v.take(i + 1);
                assert(w.drop_last() =~= v.take(i as int));
                if i == 0 {
                    assert(v.take(0) =~= Seq::<Seq<char>>::empty());
                    assert(s@ =~= v[0]);
                }
            }
        }
        assert(v.take(v.len() as int) =~= v);
        s
    }

    /// Reads space-separated policies; the empty string gives the empty set.
    pub fn try_from(value: &str) -> (r: Result<Policies, String>)
        ensures
            r is Ok <==> policies_valid(value@),
            r matches Ok(x) ==> sorted_policies(x@) && x@.to_set() == (if value@ == ""@ {
                Set::empty()
            } else {
                parsed_policies(split_spec(value@, ' ')).to_set()
            }),
            r matches Err(e) ==> exists|k: int| 0 <= k < split_spec(value@, ' ').len()
                && parse_policy(#[trigger] split_spec(value@, ' ')[k]) == Err::<PolicyModel, Seq<char>>(e@)
                && forall|j: int| 0 <= j < k ==> parse_policy(split_spec(value@, ' ')[j]) is Ok,
    {
        if str_eq(value, "") {
            let r = Policies::new();
            proof { use_type_invariant(&r); }
            assert(r@.to_set() =~= Set::<PolicyModel>::empty());
            return Ok(r);
        }
        let parts = split_char(value, ' ');
        let ghost pieces = split_spec(value@, ' ');
        let mut r = Policies::new();
        for i in 0..parts.len()
            invariant
                views(parts@) == pieces,
                pieces == split_spec(value@, ' '),
                value@ != ""@,
                sorted_policies(r@),
                forall|j: int| 0 <= j < i ==> #[trigger] parse_policy(pieces[j]) is Ok,
                forall|m: PolicyModel| #[trigger] r@.contains(m) <==> parsed_policies(pieces).take(i as int).contains(m),
        {
            assert(parts@[i as int]@ == pieces[i as int]);
            let p = match Policy::try_from(parts[i].as_str()) {
                Ok(p) => p,
                Err(e) => {
                    assert(parse_policy(split_spec(value@, ' ')[i as int]) == Err::<PolicyModel, Seq<char>>(e@));
                    return Err(e);
                },
            };
            let ghost before = r@;
            let ghost pm = p@;
            r.insert(p);
            proof {
                let f = parsed_policies(pieces);
                assert(f[i as int] == pm);
                let t = f.take(i + 1);
                assert(t =~= f.take(i as int).push(pm));
                assert forall|m: PolicyModel| #[trigger] r@.contains(m) <==> t.contains(m) by {
                    if t.contains(m) {
                        let k = choose|k: int| 0 <= k < t.len() && t[k] == m;
                        if k < i {
                            assert(f.take(i as int)[k] == m);
                            assert(f.take(i as int).contains(m));
                        }
                    }
                    if f.take(i as int).contains(m) {
                        let k = choose|k: int| 0 <= k < i && f.take(i as int)[k] == m;
                        assert(t[k] == m);
                    }
                    if m == pm {
                        assert(t[i as int] == m);
                    }
                }
            }
        }
        proof {
            use_type_invariant(&r);
            assert(parsed_policies(pieces).take(parts.len() as int) =~= parsed_policies(pieces));
            assert(r@.to_set() =~= parsed_policies(pieces).to_set());
            assert forall|i: int| 0 <= i < split_spec(value@, ' ').len() implies #[trigger] parse_policy(
                split_spec(value@, ' ')[i],
            ) is Ok by {
                assert(parse_policy(pieces[i]) is Ok);
            }
        }
        Ok(r)
    }

    /// Whether two sets hold the same policies.
    pub fn same(&self, other: &Policies) -> (b: bool)
        ensures
            b == (self@ == other@),
    {
        if self.0.len() != other.0.len() {
            assert(policy_views(self.0@).len() != policy_views(other.0@).len());
            return false;
        }
        for i in 0..self.0.len()
            invariant
                self.0.len() == other.0.len(),
                forall|k: int| 0 <= k < i ==> policy_views(self.0@)[k] == policy_views(other.0@)[k],
        {
            assert(policy_views(self.0@)[i as int] == self.0@[i as int]@);
            assert(policy_views(other.0@)[i as int] == other.0@[i as int]@);
            if !self.0[i].same(&other.0[i]) {
                return false;
            }
        }
        assert(policy_views(self.0@) =~= policy_views(other.0@));
        true
    }
}

impl Default for Policies {
    fn default() -> (r: Self)
        ensures
            r@ == Seq::<PolicyModel>::empty(),
    {
        Policies::new()
    }
}

impl PartialEq for Policies {
    fn eq(&self, other: &Self) -> (r: bool) {
        self.same(other)
    }
}

impl vstd::std_specs::cmp::PartialEqSpecImpl for Policies {
    open spec fn obeys_eq_spec() -> bool {
        true
    }

    open spec fn eq_spec(&self, other: &Self) -> bool {
        self@ == other@
    }
}

impl Eq for Policies {
}

impl<'a> PermissionChecker<&'a str> for Policies {
    fn has_permission(&self, permission: &Permission, resource_path: &'a str) -> (r: bool)
        ensures
            r == policies_admit(self@, permission@, resource_path@),
    {
        self.allows(permission, resource_path)
    }
}

impl PermissionChecker<String> for Policies {
    fn has_permission(&self, permission: &Permission, resource_path: String) -> (r: bool)
        ensures
            r == policies_admit(self@, permission@, resource_path@),
    {
        self.allows(permission, resource_path.as_str())
    }
}

impl<'a> PermissionCheckerAny<&'a str> for Policies {
    fn has_permission_any(&self, permission: &Permission, resources_path: &[&'a str]) -> (r: bool)
        ensures
            r == policies_admit_any(self@, permission@, str_views(resources_path@)),
    {
        self.allows_any(permission, resources_path)
    }
}

impl PermissionCheckerAny<String> for Policies {
    fn has_permission_any(&self, permission: &Permission, resources_path: &[String]) -> (r: bool)
        ensures
            r == policies_admit_any(self@, permission@, string_views(resources_path@)),
    {
        self.allows_any_of(permission, resources_path)
    }
}

// ---------------------------------------------------------------- laws of granting

/// The policy set `*` grants every permission on every resource path.
pub proof fn lemma_all_grants_everything(perm: PermissionModel, path: Seq<char>)
    ensures
        policies_admit(seq![policy_all()], perm, path),
        policies_admit_any(seq![policy_all()], perm, seq![path]),
{
    assert(policy_admits(seq![policy_all()][0], perm, path));
    assert(policy_admits_any(seq![policy_all()][0], perm, seq![path]));
}

/// The read-only policy set grants a permission exactly when its operation is
/// reading or listing, whatever the resource and the path.
pub proof fn lemma_read_grants_only_reading(v: Seq<PolicyModel>, perm: PermissionModel, path: Seq<char>)
    requires
        v.to_set() == set![policy_read_all(), policy_list_all()],
    ensures
        policies_admit(v, perm, path) <==> (perm.operation is Read || perm.operation is List),
{
    if perm.operation is Read {
        assert(v.to_set().contains(policy_read_all()));
        let i = choose|i: int| 0 <= i < v.len() && v[i] == policy_read_all();
        assert(policy_admits(v[i], perm, path));
    }
    if perm.operation is List {
        assert(v.to_set().contains(policy_list_all()));
        let i = choose|i: int| 0 <= i < v.len() && v[i] == policy_list_all();
        assert(policy_admits(v[i], perm, path));
    }
    if policies_admit(v, perm, path) {
        let i = choose|i: int| 0 <= i < v.len() && policy_admits(#[trigger] v[i], perm, path);
        assert(v.to_set().contains(v[i]));
    }
}

/// A grant rests on the policies alone, not on their order or number: a set that
/// holds every policy of another grants all the other grants. So appending
/// policies never takes a grant away, and removing policies never adds one.
pub proof fn lemma_grants_follow_policies(
    a: Seq<PolicyModel>,
    b: Seq<PolicyModel>,
    perm: PermissionModel,
    path: Seq<char>,
    paths: Seq<Seq<char>>,
)
    requires
        a.to_set().subset_of(b.to_set()),
    ensures
        policies_admit(a, perm, path) ==> policies_admit(b, perm, path),
        policies_admit_any(a, perm, paths) ==> policies_admit_any(b, perm, paths),
{
    if policies_admit(a, perm, path) {
        let i = choose|i: int| 0 <= i < a.len() && policy_admits(#[trigger] a[i], perm, path);
        assert(a.to_set().contains(a[i]));
        assert(b.to_set().contains(a[i]));
        let j = choose|j: int| 0 <= j < b.len() && b[j] == a[i];
        assert(policy_admits(b[j], perm, path));
    }
    if policies_admit_any(a, perm, paths) {
        let i = choose|i: int| 0 <= i < a.len() && policy_admits_any(#[trigger] a[i], perm, paths);
        assert(a.to_set().contains(a[i]));
        assert(b.to_set().contains(a[i]));
        let j = choose|j: int| 0 <= j < b.len() && b[j] == a[i];
        assert(policy_admits_any(b[j], perm, paths));
    }
}

} // verus!
