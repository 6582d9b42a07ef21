pub mod accounts;
pub mod commands;
pub mod cron;
pub mod files;
pub mod hosts;
pub mod nodes;
pub mod run;
pub mod users;

use crate::common::net::{ip_address_text, ip_to_text};
use crate::common::resources::apt::package::{Ensure as PackageEnsure, Parameters as PackageParameters};
use crate::common::resources::directory::{Parameters as DirectoryParameters, Relationships as DirectoryRelationships};
use crate::common::resources::execute::Parameters as ExecuteParameters;
use crate::common::resources::file::Parameters as FileParameters;
use crate::common::resources::group::Parameters as GroupParameters;
use crate::common::resources::host::Parameters as HostParameters;
use crate::common::resources::symlink::Parameters as SymlinkParameters;
use crate::common::resources::user::Parameters as UserParameters;
use crate::common::resources::Relationships;
use crate::common::{resource_type_name, Action, Ensure, ResourceMetadata, ResourceType, TriggerMetadata};
use crate::text::{concat3, str_eq};
use vstd::prelude::*;

verus! {

/// The error that the server answers a refused request with.
pub struct Error {
    pub title: String,
    pub detail: String,
}

/// What applying a resource gave: when it was applied, what it did, why,
/// and how long it took.
pub struct ResourceResult {
    pub order: usize,
    pub action: Action,
    pub message: Option<String>,
    pub duration: usize,
}

impl ResourceResult {
    /// The result of a resource that was not applied yet.
    pub fn default() -> (r: ResourceResult)
        ensures
            r.order == 0,
            r.action == Action::Unchanged,
            r.message is None,
            r.duration == 0,
    {
        ResourceResult { order: 0, action: Action::Unchanged, message: None, duration: 0 }
    }
}

/// A resource of the catalog with the parameters that the server sent and
/// the result of applying it.
pub struct Managed<P, R> {
    pub metadata: ResourceMetadata,
    pub parameters: P,
    pub relationships: R,
    pub result: ResourceResult,
}

/// A resource of the catalog that the server sends to a client.
pub enum Resource {
    AptPackage(Managed<PackageParameters, Relationships>),
    Directory(Managed<DirectoryParameters, DirectoryRelationships>),
    Execute(Managed<ExecuteParameters, Relationships>),
    File(Managed<FileParameters, Relationships>),
    Group(Managed<GroupParameters, Relationships>),
    Host(Managed<HostParameters, Relationships>),
    Symlink(Managed<SymlinkParameters, Relationships>),
    User(Managed<UserParameters, Relationships>),
}

/// The catalog that the server answers a client with.
pub struct Resources {
    pub data: Vec<Resource>,
}

/// What a run of the client did: its process, when it began, how long it
/// took and the resources in the order in which they were applied.
pub struct Report {
    pub pid: u32,
    pub timestamp_ms: usize,
    pub duration_ms: usize,
    pub resources: Vec<Resource>,
}

/// The metadata of a resource.
pub open spec fn meta_of(r: Resource) -> ResourceMetadata {
    match r {
        Resource::AptPackage(x) => x.metadata,
        Resource::Directory(x) => x.metadata,
        Resource::Execute(x) => x.metadata,
        Resource::File(x) => x.metadata,
        Resource::Group(x) => x.metadata,
        Resource::Host(x) => x.metadata,
        Resource::Symlink(x) => x.metadata,
        Resource::User(x) => x.metadata,
    }
}

/// The identifier of a resource.
pub open spec fn id_of(r: Resource) -> Seq<char> {
    meta_of(r).id@
}

/// The result of a resource.
pub open spec fn outcome(r: Resource) -> ResourceResult {
    match r {
        Resource::AptPackage(x) => x.result,
        Resource::Directory(x) => x.result,
        Resource::Execute(x) => x.result,
        Resource::File(x) => x.result,
        Resource::Group(x) => x.result,
        Resource::Host(x) => x.result,
        Resource::Symlink(x) => x.result,
        Resource::User(x) => x.result,
    }
}

/// The resources that a resource depends on.
pub open spec fn deps_of(r: Resource) -> Seq<ResourceMetadata> {
    match r {
        Resource::AptPackage(x) => x.relationships.requires@,
        Resource::Directory(x) => x.relationships.requires@,
        Resource::Execute(x) => x.relationships.requires@,
        Resource::File(x) => x.relationships.requires@,
        Resource::Group(x) => x.relationships.requires@,
        Resource::Host(x) => x.relationships.requires@,
        Resource::Symlink(x) => x.relationships.requires@,
        Resource::User(x) => x.relationships.requires@,
    }
}

/// The resources to apply before a resource.
pub open spec fn preds_of(r: Resource) -> Seq<ResourceMetadata> {
    match r {
        Resource::AptPackage(x) => x.relationships.after@,
        Resource::Directory(x) => x.relationships.after@,
        Resource::Execute(x) => x.relationships.after@,
        Resource::File(x) => x.relationships.after@,
        Resource::Group(x) => x.relationships.after@,
        Resource::Host(x) => x.relationships.after@,
        Resource::Symlink(x) => x.relationships.after@,
        Resource::User(x) => x.relationships.after@,
    }
}

/// The resources that a resource triggers.
pub open spec fn trigs_of(r: Resource) -> Seq<TriggerMetadata> {
    match r {
        Resource::AptPackage(x) => x.relationships.triggers@,
        Resource::Directory(x) => x.relationships.triggers@,
        Resource::Execute(x) => x.relationships.triggers@,
        Resource::File(x) => x.relationships.triggers@,
        Resource::Group(x) => x.relationships.triggers@,
        Resource::Host(x) => x.relationships.triggers@,
        Resource::Symlink(x) => x.relationships.triggers@,
        Resource::User(x) => x.relationships.triggers@,
    }
}

/// Whether a resource is to be removed: `absent`, or `purged` for a package.
pub open spec fn absent(r: Resource) -> bool {
    match r {
        Resource::AptPackage(x) => x.parameters.ensure is Absent || x.parameters.ensure is Purged,
        Resource::Directory(x) => x.parameters.ensure is Absent,
        Resource::Execute(x) => x.parameters.ensure is Absent,
        Resource::File(x) => x.parameters.ensure is Absent,
        Resource::Group(x) => x.parameters.ensure is Absent,
        Resource::Host(x) => x.parameters.ensure is Absent,
        Resource::Symlink(x) => x.parameters.ensure is Absent,
        Resource::User(x) => x.parameters.ensure is Absent,
    }
}

/// Whether a resource is to be present.
pub open spec fn present(r: Resource) -> bool {
    match r {
        Resource::AptPackage(x) => x.parameters.ensure is Present,
        Resource::Directory(x) => x.parameters.ensure is Present,
        Resource::Execute(x) => x.parameters.ensure is Present,
        Resource::File(x) => x.parameters.ensure is Present,
        Resource::Group(x) => x.parameters.ensure is Present,
        Resource::Host(x) => x.parameters.ensure is Present,
        Resource::Symlink(x) => x.parameters.ensure is Present,
        Resource::User(x) => x.parameters.ensure is Present,
    }
}

/// The kind of a resource by its variant.
pub open spec fn kind_of(r: Resource) -> ResourceType {
    match r {
        Resource::AptPackage(_) => ResourceType::AptPackage,
        Resource::Directory(_) => ResourceType::Directory,
        Resource::Execute(_) => ResourceType::Execute,
        Resource::File(_) => ResourceType::File,
        Resource::Group(_) => ResourceType::Group,
        Resource::Host(_) => ResourceType::Host,
        Resource::Symlink(_) => ResourceType::Symlink,
        Resource::User(_) => ResourceType::User,
    }
}

/// The primary parameter of a resource, as it is shown.
pub open spec fn shown(r: Resource) -> Seq<char> {
    match r {
        Resource::AptPackage(x) => x.parameters.name@,
        Resource::Directory(x) => x.parameters.path@,
        Resource::Execute(x) => x.parameters.name@,
        Resource::File(x) => x.parameters.path@,
        Resource::Group(x) => x.parameters.name@,
        Resource::Host(x) => ip_to_text(x.parameters.ip_address),
        Resource::Symlink(x) => x.parameters.path@,
        Resource::User(x) => x.parameters.name@,
    }
}

/// How a resource is written in messages: its kind, then its primary
/// parameter in brackets.
pub open spec fn repr_of(r: Resource) -> Seq<char> {
    resource_type_name(kind_of(r)) + "["@ + shown(r) + "]"@
}

/// The position of the first applied resource with the identifier `id`.
pub open spec fn applied_index(applied: Seq<Resource>, id: Seq<char>) -> Option<int> {
    if exists|i: int| 0 <= i < applied.len() && id_of(#[trigger] applied[i]) == id
            && forall|j: int| 0 <= j < i ==> id_of(#[trigger] applied[j]) != id {
        Some(choose|i: int| 0 <= i < applied.len() && id_of(#[trigger] applied[i]) == id
            && forall|j: int| 0 <= j < i ==> id_of(#[trigger] applied[j]) != id)
    } else {
        None
    }
}

/// Whether a resource with the identifier `id` was applied.
pub open spec fn was_applied(applied: Seq<Resource>, id: Seq<char>) -> bool {
    exists|i: int| 0 <= i < applied.len() && id_of(#[trigger] applied[i]) == id
}

/// Whether the dependency `d` was applied and, as applied, has `p`.
pub open spec fn dep_has(applied: Seq<Resource>, d: ResourceMetadata, p: spec_fn(Resource) -> bool) -> bool {
    applied_index(applied, d.id@) matches Some(k) && p(applied[k])
}

/// The first dependency of `r` that was applied and, as applied, has `p`:
/// the applied resource.
pub open spec fn first_dep(r: Resource, applied: Seq<Resource>, p: spec_fn(Resource) -> bool) -> Option<Resource> {
    let ds = deps_of(r);
    if exists|i: int| 0 <= i < ds.len() && dep_has(applied, #[trigger] ds[i], p)
            && forall|j: int| 0 <= j < i ==> !dep_has(applied, #[trigger] ds[j], p) {
        let i = choose|i: int| 0 <= i < ds.len() && dep_has(applied, #[trigger] ds[i], p)
            && forall|j: int| 0 <= j < i ==> !dep_has(applied, #[trigger] ds[j], p);
        Some(applied[applied_index(applied, ds[i].id@)->0])
    } else {
        None
    }
}

/// A resource that failed to apply.
pub open spec fn failed() -> spec_fn(Resource) -> bool {
    |r: Resource| outcome(r).action == Action::Failed
}

/// A resource that was skipped.
pub open spec fn skipped() -> spec_fn(Resource) -> bool {
    |r: Resource| outcome(r).action == Action::Skipped
}

/// A resource that is to be removed.
pub open spec fn removed() -> spec_fn(Resource) -> bool {
    |r: Resource| absent(r)
}

/// Whether a resource may be applied: each resource to apply before it was.
pub open spec fn ready(r: Resource, applied: Seq<Resource>) -> bool {
    forall|i: int| 0 <= i < preds_of(r).len() ==> was_applied(applied, (#[trigger] preds_of(r)[i]).id@)
}

/// A resource that is ready to be applied has each resource listed to be
/// applied before it applied already: some applied resource has its
/// identifier.
pub proof fn lemma_ready_has_predecessors(r: Resource, applied: Seq<Resource>, i: int)
    requires
        ready(r, applied),
        0 <= i < preds_of(r).len(),
    ensures
        exists|j: int| 0 <= j < applied.len() && id_of(#[trigger] applied[j]) == preds_of(r)[i].id@,
{
    assert(was_applied(applied, preds_of(r)[i].id@));
}

/// A resource each of whose listed predecessors has been applied is ready.
pub proof fn lemma_predecessors_make_ready(r: Resource, applied: Seq<Resource>)
    requires
        forall|i: int| 0 <= i < preds_of(r).len() ==> exists|j: int| 0 <= j < applied.len()
            && id_of(#[trigger] applied[j]) == (#[trigger] preds_of(r)[i]).id@,
    ensures
        ready(r, applied),
{
    assert forall|i: int| 0 <= i < preds_of(r).len() implies was_applied(applied, (#[trigger] preds_of(r)[i]).id@) by {
        let j = choose|j: int| 0 <= j < applied.len() && id_of(#[trigger] applied[j]) == preds_of(r)[i].id@;
        assert(id_of(applied[j]) == preds_of(r)[i].id@);
    }
}

/// Why a resource is not applied at all, given the resources applied
/// before: a dependency that failed or was skipped skips it, and a
/// dependency to be removed fails a resource to be present.
pub open spec fn early_return(r: Resource, applied: Seq<Resource>) -> Option<(Action, Seq<char>)> {
    if let Some(d) = first_dep(r, applied, failed()) {
        Some((Action::Skipped, "skipping resource as dependency `"@ + repr_of(d) + "` has failed to apply"@))
    } else if let Some(d) = first_dep(r, applied, skipped()) {
        Some((Action::Skipped, "skipping resource as dependency `"@ + repr_of(d) + "` has been skipped"@))
    } else if present(r) && first_dep(r, applied, removed()) is Some {
        Some((Action::Failed, "cannot apply resource as dependency `"@ + repr_of(first_dep(r, applied, removed())->0)
            + "` is set to absent"@))
    } else {
        None
    }
}

/// Whether two resources differ in their result at most.
pub open spec fn same_but_result(a: Resource, b: Resource) -> bool {
    &&& kind_of(a) == kind_of(b)
    &&& meta_of(a) == meta_of(b)
    &&& deps_of(a) == deps_of(b)
    &&& preds_of(a) == preds_of(b)
    &&& trigs_of(a) == trigs_of(b)
    &&& shown(a) == shown(b)
    &&& absent(a) == absent(b)
    &&& present(a) == present(b)
}

/// Recording a result keeps what a resource may be applied after.
pub proof fn lemma_set_result_keeps(a: Resource, b: Resource)
    requires
        same_but_result(a, b),
    ensures
        forall|applied: Seq<Resource>| #[trigger] ready(a, applied) == ready(b, applied),
        repr_of(a) == repr_of(b),
{
}

/// Whether an applied resource triggers `r` by what it did: one of its
/// triggers names `r` with that action.
pub open spec fn triggers_with(a: Resource, r: Resource) -> bool {
    exists|t: int| 0 <= t < trigs_of(a).len() && (#[trigger] trigs_of(a)[t]).metadata.id@ == id_of(r)
        && trigs_of(a)[t].actions@.contains(outcome(a).action)
}

/// Whether the resource with identifier `id` was applied and triggers `r`.
pub open spec fn applied_triggers(applied: Seq<Resource>, id: Seq<char>, r: Resource) -> bool {
    match applied_index(applied, id) {
        Some(k) => triggers_with(applied[k], r),
        None => false,
    }
}

/// Whether a resource to apply before `r` was applied and triggers it.
pub open spec fn triggered_by_applied(r: Resource, applied: Seq<Resource>) -> bool {
    exists|i: int| 0 <= i < preds_of(r).len() && #[trigger] applied_triggers(applied, preds_of(r)[i].id@, r)
}

/// Which state of a dependency is sought.
pub enum Check {
    Failed,
    Skipped,
    Absent,
}

/// The test for a state of a dependency.
pub open spec fn check_fn(c: Check) -> spec_fn(Resource) -> bool {
    match c {
        Check::Failed => failed(),
        Check::Skipped => skipped(),
        Check::Absent => removed(),
    }
}

/// The position of the first applied resource with the identifier `id`.
pub fn find_applied(applied: &Vec<Resource>, id: &str) -> (r: Option<usize>)
    ensures
        match applied_index(applied@, id@) {
            Some(i) => r == Some(i as usize),
            None => r is None,
        },
        r matches Some(i) ==> applied_index(applied@, id@) == Some(i as int) && i < applied@.len(),
        r is None ==> applied_index(applied@, id@) is None && !was_applied(applied@, id@),
{
    let mut i: usize = 0;
    while i < applied.len()
        invariant
            i <= applied.len(),
            forall|j: int| 0 <= j < i ==> id_of(#[trigger] applied@[j]) != id@,
        decreases applied.len() - i,
    {
        if str_eq(applied[i].id(), id) {
            let ghost k = choose|k: int| 0 <= k < applied@.len() && id_of(#[trigger] applied@[k]) == id@
                && forall|j: int| 0 <= j < k ==> id_of(#[trigger] applied@[j]) != id@;
            assert(k == i) by {
                if k < i {
                    assert(id_of(applied@[k]) != id@);
                } else if k > i {
                    assert(id_of(applied@[i as int]) != id@);
                }
            }
            return Some(i);
        }
        i = i + 1;
    }
    assert(!was_applied(applied@, id@)) by {
        if was_applied(applied@, id@) {
            let k = choose|k: int| 0 <= k < applied@.len() && id_of(#[trigger] applied@[k]) == id@;
            assert(id_of(applied@[k]) != id@);
        }
    }
    None
}

impl Resource {
    fn metadata(&self) -> (r: &ResourceMetadata)
        ensures
            *r == meta_of(*self),
    {
        match self {
            Resource::AptPackage(x) => &x.metadata,
            Resource::Directory(x) => &x.metadata,
            Resource::Execute(x) => &x.metadata,
            Resource::File(x) => &x.metadata,
            Resource::Group(x) => &x.metadata,
            Resource::Host(x) => &x.metadata,
            Resource::Symlink(x) => &x.metadata,
            Resource::User(x) => &x.metadata,
        }
    }

    fn result(&self) -> (r: &ResourceResult)
        ensures
            *r == outcome(*self),
    {
        match self {
            Resource::AptPackage(x) => &x.result,
            Resource::Directory(x) => &x.result,
            Resource::Execute(x) => &x.result,
            Resource::File(x) => &x.result,
            Resource::Group(x) => &x.result,
            Resource::Host(x) => &x.result,
            Resource::Symlink(x) => &x.result,
            Resource::User(x) => &x.result,
        }
    }

    /// The identifier that the server gave the resource.
    pub fn id(&self) -> (r: &str)
        ensures
            r@ == id_of(*self),
    {
        self.metadata().id.as_str()
    }

    /// The resource's kind, then its primary parameter in brackets.
    pub fn repr(&self) -> (r: String)
        ensures
            r@ == repr_of(*self),
    {
        let shown = match self {
            Resource::AptPackage(x) => x.parameters.name.as_str().to_owned(),
            Resource::Directory(x) => x.parameters.path.as_str().to_owned(),
            Resource::Execute(x) => x.parameters.name.clone(),
            Resource::File(x) => x.parameters.path.as_str().to_owned(),
            Resource::Group(x) => x.parameters.name.as_str().to_owned(),
            Resource::Host(x) => ip_address_text(&x.parameters.ip_address),
            Resource::Symlink(x) => x.parameters.path.as_str().to_owned(),
            Resource::User(x) => x.parameters.name.as_str().to_owned(),
        };
        let kind = match self {
            Resource::AptPackage(_) => ResourceType::AptPackage,
            Resource::Directory(_) => ResourceType::Directory,
            Resource::Execute(_) => ResourceType::Execute,
            Resource::File(_) => ResourceType::File,
            Resource::Group(_) => ResourceType::Group,
            Resource::Host(_) => ResourceType::Host,
            Resource::Symlink(_) => ResourceType::Symlink,
            Resource::User(_) => ResourceType::User,
        };
        let mut r = concat3(kind.as_str(), "[", shown.as_str());
        crate::text::push_str(&mut r, "]");
        r
    }

    /// Whether each resource to apply before this one was applied.
    pub fn is_ready(&self, applied: &Vec<Resource>) -> (r: bool)
        ensures
            r == ready(*self, applied@),
    {
        let preds = match self {
            Resource::AptPackage(x) => &x.relationships.after,
            Resource::Directory(x) => &x.relationships.after,
            Resource::Execute(x) => &x.relationships.after,
            Resource::File(x) => &x.relationships.after,
            Resource::Group(x) => &x.relationships.after,
            Resource::Host(x) => &x.relationships.after,
            Resource::Symlink(x) => &x.relationships.after,
            Resource::User(x) => &x.relationships.after,
        };
        assert(preds@ == preds_of(*self));
        let mut i: usize = 0;
        while i < preds.len()
            invariant
                i <= preds@.len(),
                preds@ == preds_of(*self),
                forall|j: int| 0 <= j < i ==> was_applied(applied@, (#[trigger] preds@[j]).id@),
            decreases preds.len() - i,
        {
            if find_applied(applied, preds[i].id.as_str()).is_none() {
                return false;
            }
            i = i + 1;
        }
        true
    }

    /// Whether applying the resource was skipped.
    pub fn is_skipped(&self) -> (r: bool)
        ensures
            r == (outcome(*self).action == Action::Skipped),
    {
        self.result().action == Action::Skipped
    }

    /// Whether applying the resource failed.
    pub fn is_failed(&self) -> (r: bool)
        ensures
            r == (outcome(*self).action == Action::Failed),
    {
        self.result().action == Action::Failed
    }

    /// Whether the resource is to be removed.
    pub fn is_absent(&self) -> (r: bool)
        ensures
            r == absent(*self),
    {
        match self {
            Resource::AptPackage(x) => x.parameters.ensure.is_absent() || x.parameters.ensure.is_purged(),
            Resource::Directory(x) => x.parameters.ensure.is_absent(),
            Resource::Execute(x) => x.parameters.ensure.is_absent(),
            Resource::File(x) => x.parameters.ensure.is_absent(),
            Resource::Group(x) => x.parameters.ensure.is_absent(),
            Resource::Host(x) => x.parameters.ensure.is_absent(),
            Resource::Symlink(x) => x.parameters.ensure.is_absent(),
            Resource::User(x) => x.parameters.ensure.is_absent(),
        }
    }

    /// Whether the resource is to be present.
    pub fn is_present(&self) -> (r: bool)
        ensures
            r == present(*self),
    {
        match self {
            Resource::AptPackage(x) => x.parameters.ensure.is_present(),
            Resource::Directory(x) => x.parameters.ensure.is_present(),
            Resource::Execute(x) => x.parameters.ensure.is_present(),
            Resource::File(x) => x.parameters.ensure.is_present(),
            Resource::Group(x) => x.parameters.ensure.is_present(),
            Resource::Host(x) => x.parameters.ensure.is_present(),
            Resource::Symlink(x) => x.parameters.ensure.is_present(),
            Resource::User(x) => x.parameters.ensure.is_present(),
        }
    }

    /// The `execute` resources that this one triggers.
    pub fn triggers(&self) -> (r: &[TriggerMetadata])
        ensures
            r@ == trigs_of(*self),
    {
        match self {
            Resource::AptPackage(x) => x.relationships.triggers.as_slice(),
            Resource::Directory(x) => x.relationships.triggers.as_slice(),
            Resource::Execute(x) => x.relationships.triggers.as_slice(),
            Resource::File(x) => x.relationships.triggers.as_slice(),
            Resource::Group(x) => x.relationships.triggers.as_slice(),
            Resource::Host(x) => x.relationships.triggers.as_slice(),
            Resource::Symlink(x) => x.relationships.triggers.as_slice(),
            Resource::User(x) => x.relationships.triggers.as_slice(),
        }
    }

    /// What applying the resource did.
    pub fn action(&self) -> (r: Action)
        ensures
            r == outcome(*self).action,
    {
        self.result().action
    }

    /// The position at which the resource was applied.
    pub fn order(&self) -> (r: usize)
        ensures
            r == outcome(*self).order,
    {
        self.result().order
    }

    fn test(&self, c: &Check) -> (r: bool)
        ensures
            r == check_fn(*c)(*self),
    {
        match c {
            Check::Failed => self.is_failed(),
            Check::Skipped => self.is_skipped(),
            Check::Absent => self.is_absent(),
        }
    }

    /// The position among the applied resources of the first dependency of
    /// this resource that was applied and is in the state sought.
    fn find_dependency(&self, applied: &Vec<Resource>, c: &Check) -> (r: Option<usize>)
        ensures
            match first_dep(*self, applied@, check_fn(*c)) {
                Some(d) => r matches Some(k) && k < applied@.len() && applied@[k as int] == d,
                None => r is None,
            },
    {
        let ds = self.dependencies();
        let ghost p = check_fn(*c);
        let mut i: usize = 0;
        while i < ds.len()
            invariant
                i <= ds@.len(),
                ds@ == deps_of(*self),
                p == check_fn(*c),
                forall|j: int| 0 <= j < i ==> !dep_has(applied@, #[trigger] ds@[j], p),
            decreases ds.len() - i,
        {
            match find_applied(applied, ds[i].id.as_str()) {
                Some(k) => {
                    if applied[k].test(c) {
                        assert(dep_has(applied@, ds@[i as int], p));
                        let ghost q = choose|q: int| 0 <= q < ds@.len() && dep_has(applied@, #[trigger] ds@[q], p)
                            && forall|j: int| 0 <= j < q ==> !dep_has(applied@, #[trigger] ds@[j], p);
                        assert(q == i) by {
                            if q < i {
                                assert(!dep_has(applied@, ds@[q], p));
                            } else if q > i {
                                assert(!dep_has(applied@, ds@[i as int], p));
                            }
                        }
                        return Some(k);
                    }
                },
                None => {},
            }
            i = i + 1;
        }
        assert(first_dep(*self, applied@, p) is None) by {
            if exists|q: int| 0 <= q < ds@.len() && dep_has(applied@, #[trigger] ds@[q], p) {
                let q = choose|q: int| 0 <= q < ds@.len() && dep_has(applied@, #[trigger] ds@[q], p);
                assert(!dep_has(applied@, ds@[q], p));
            }
        }
        None
    }

    /// Why the resource is not to be applied, given the resources applied
    /// before it: a dependency that failed or was skipped skips it, and a
    /// dependency to be removed fails a resource to be present.
    pub fn maybe_return_early(&self, applied: &Vec<Resource>) -> (r: Option<(Action, String)>)
        ensures
            match early_return(*self, applied@) {
                Some(x) => r matches Some(y) && y.0 == x.0 && y.1@ == x.1,
                None => r is None,
            },
    {
        if let Some(k) = self.find_dependency(applied, &Check::Failed) {
            let shown = applied[k].repr();
            return Some((Action::Skipped, concat3("skipping resource as dependency `", shown.as_str(), "` has failed to apply")));
        }
        if let Some(k) = self.find_dependency(applied, &Check::Skipped) {
            let shown = applied[k].repr();
            return Some((Action::Skipped, concat3("skipping resource as dependency `", shown.as_str(), "` has been skipped")));
        }
        if self.is_present() {
            if let Some(k) = self.find_dependency(applied, &Check::Absent) {
                let shown = applied[k].repr();
                return Some((Action::Failed, concat3("cannot apply resource as dependency `", shown.as_str(), "` is set to absent")));
            }
        }
        None
    }

    /// Records the result of applying the resource.
    pub fn set_result(&mut self, result: ResourceResult)
        ensures
            outcome(*final(self)) == result,
            same_but_result(*old(self), *final(self)),
    {
        match self {
            Resource::AptPackage(x) => x.result = result,
            Resource::Directory(x) => x.result = result,
            Resource::Execute(x) => x.result = result,
            Resource::File(x) => x.result = result,
            Resource::Group(x) => x.result = result,
            Resource::Host(x) => x.result = result,
            Resource::Symlink(x) => x.result = result,
            Resource::User(x) => x.result = result,
        }
    }

    /// Whether the applied resource `a` triggers this one by what it did.
    fn triggered_by(&self, a: &Resource) -> (r: bool)
        ensures
            r == triggers_with(*a, *self),
    {
        let ts = a.triggers();
        let id = self.id();
        let act = a.action();
        let mut t: usize = 0;
        while t < ts.len()
            invariant
                t <= ts@.len(),
                ts@ == trigs_of(*a),
                id@ == id_of(*self),
                act == outcome(*a).action,
                forall|q: int| 0 <= q < t ==> !((#[trigger] ts@[q]).metadata.id@ == id_of(*self)
                    && ts@[q].actions@.contains(act)),
            decreases ts.len() - t,
        {
            if str_eq(ts[t].metadata.id.as_str(), id) {
                let acts = &ts[t].actions;
                let mut k: usize = 0;
                while k < acts.len()
                    invariant
                        k <= acts@.len(),
                        t < ts@.len(),
                        ts@ == trigs_of(*a),
                        ts@[t as int].metadata.id@ == id_of(*self),
                        act == outcome(*a).action,
                        acts@ == ts@[t as int].actions@,
                        forall|q: int| 0 <= q < k ==> acts@[q] != act,
                    decreases acts.len() - k,
                {
                    if acts[k] == act {
                        assert(ts@[t as int].actions@.contains(act));
                        assert(triggers_with(*a, *self));
                        return true;
                    }
                    k = k + 1;
                }
                assert(!ts@[t as int].actions@.contains(act)) by {
                    if ts@[t as int].actions@.contains(act) {
                        let q = choose|q: int| 0 <= q < acts@.len() && acts@[q] == act;
                        assert(acts@[q] != act);
                    }
                }
            }
            t = t + 1;
        }
        false
    }

    /// Whether a resource to apply before this one was applied and
    /// triggers it by what it did: only then does a passive command run.
    pub fn is_triggered(&self, applied: &Vec<Resource>) -> (r: bool)
        ensures
            r == triggered_by_applied(*self, applied@),
    {
        let preds = match self {
            Resource::AptPackage(x) => &x.relationships.after,
            Resource::Directory(x) => &x.relationships.after,
            Resource::Execute(x) => &x.relationships.after,
            Resource::File(x) => &x.relationships.after,
            Resource::Group(x) => &x.relationships.after,
            Resource::Host(x) => &x.relationships.after,
            Resource::Symlink(x) => &x.relationships.after,
            Resource::User(x) => &x.relationships.after,
        };
        let mut i: usize = 0;
        while i < preds.len()
            invariant
                i <= preds@.len(),
                preds@ == preds_of(*self),
                forall|q: int| 0 <= q < i ==> !#[trigger] applied_triggers(applied@, preds@[q].id@, *self),
            decreases preds.len() - i,
        {
            match find_applied(applied, preds[i].id.as_str()) {
                Some(k) => {
                    if self.triggered_by(&applied[k]) {
                        assert(applied_triggers(applied@, preds@[i as int].id@, *self));
                        return true;
                    }
                },
                None => {},
            }
            i = i + 1;
        }
        false
    }

    fn dependencies(&self) -> (r: &Vec<ResourceMetadata>)
        ensures
            r@ == deps_of(*self),
    {
        match self {
            Resource::AptPackage(x) => &x.relationships.requires,
            Resource::Directory(x) => &x.relationships.requires,
            Resource::Execute(x) => &x.relationships.requires,
            Resource::File(x) => &x.relationships.requires,
            Resource::Group(x) => &x.relationships.requires,
            Resource::Host(x) => &x.relationships.requires,
            Resource::Symlink(x) => &x.relationships.requires,
            Resource::User(x) => &x.relationships.requires,
        }
    }
}

} // verus!
