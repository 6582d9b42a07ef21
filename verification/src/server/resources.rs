use crate::common::net::{ip_address_text, ip_to_text, IpAddress};
use crate::common::path::{
    ancestor_or_self, is_ancestor_or_self, is_proper_ancestor, path_eq, proper_ancestor, same_path,
    SafePathBuf,
};
use crate::common::resources::apt::package::{Name as AptPackageName, Parameters as AptPackageParameters};
use crate::common::resources::directory::{
    ChildNode, Parameters as DirectoryParameters, Relationships as DirectoryRelationships,
};
use crate::common::resources::execute::Parameters as ExecuteParameters;
use crate::common::resources::file::Parameters as FileParameters;
use crate::common::resources::group::{Name as GroupName, Parameters as GroupParameters};
use crate::common::resources::host::Parameters as HostParameters;
use crate::common::resources::symlink::Parameters as SymlinkParameters;
use crate::common::resources::user::{Name as UserName, Parameters as UserParameters};
use crate::common::resources::Relationships;
use crate::common::{resource_type_name, Action, ResourceMetadata, ResourceType, TriggerMetadata};
use crate::text::{concat3, str_eq};
use vstd::prelude::*;

verus! {

/// An `apt::package` resource of a catalog.
pub struct AptPackage {
    pub metadata: ResourceMetadata,
    pub parameters: AptPackageParameters,
    pub relationships: Relationships,
}

/// A `directory` resource of a catalog.
pub struct Directory {
    pub metadata: ResourceMetadata,
    pub parameters: DirectoryParameters,
    pub relationships: DirectoryRelationships,
}

/// An `execute` resource of a catalog.
pub struct Execute {
    pub metadata: ResourceMetadata,
    pub parameters: ExecuteParameters,
    pub relationships: Relationships,
}

/// A `file` resource of a catalog.
pub struct File {
    pub metadata: ResourceMetadata,
    pub parameters: FileParameters,
    pub relationships: Relationships,
}

/// A `group` resource of a catalog.
pub struct Group {
    pub metadata: ResourceMetadata,
    pub parameters: GroupParameters,
    pub relationships: Relationships,
}

/// A `host` resource of a catalog.
pub struct Host {
    pub metadata: ResourceMetadata,
    pub parameters: HostParameters,
    pub relationships: Relationships,
}

/// A `symlink` resource of a catalog.
pub struct Symlink {
    pub metadata: ResourceMetadata,
    pub parameters: SymlinkParameters,
    pub relationships: Relationships,
}

/// A `user` resource of a catalog.
pub struct User {
    pub metadata: ResourceMetadata,
    pub parameters: UserParameters,
    pub relationships: Relationships,
}

/// A resource of a client's catalog, as the server serves it.
pub enum Resource {
    AptPackage(AptPackage),
    Directory(Directory),
    Execute(Execute),
    File(File),
    Group(Group),
    Host(Host),
    Symlink(Symlink),
    User(User),
}

/// The metadata of a resource.
pub open spec fn meta(r: Resource) -> ResourceMetadata {
    match r {
        Resource::AptPackage(x) => x.metadata,
        Resource::Directory(x) => x.metadata,
        Resource::Execute(x) => x.metadata,
        Resource::File(x) => x.metadata,
        Resource::Group(x) => x.metadata,
        Resource::Host(x) => x.metadata,
        Resource::Symlink(x) => x.metadata,
        Resource::User(x) => x.metadata,
    }
}

/// The id of a resource.
pub open spec fn rid(r: Resource) -> Seq<char> {
    meta(r).id@
}

/// The kind that a resource of each variant has.
pub open spec fn variant_kind(r: Resource) -> ResourceType {
    match r {
        Resource::AptPackage(_) => ResourceType::AptPackage,
        Resource::Directory(_) => ResourceType::Directory,
        Resource::Execute(_) => ResourceType::Execute,
        Resource::File(_) => ResourceType::File,
        Resource::Group(_) => ResourceType::Group,
        Resource::Host(_) => ResourceType::Host,
        Resource::Symlink(_) => ResourceType::Symlink,
        Resource::User(_) => ResourceType::User,
    }
}

/// The primary parameter of a resource, as it is displayed.
pub open spec fn display(r: Resource) -> Seq<char> {
    match r {
        Resource::AptPackage(x) => x.parameters.name@,
        Resource::Directory(x) => x.parameters.path@,
        Resource::Execute(x) => x.parameters.name@,
        Resource::File(x) => x.parameters.path@,
        Resource::Group(x) => x.parameters.name@,
        Resource::Host(x) => ip_to_text(x.parameters.ip_address),
        Resource::Symlink(x) => x.parameters.path@,
        Resource::User(x) => x.parameters.name@,
    }
}

/// The text by which a resource is named in messages: its kind and its
/// primary parameter in brackets.
pub open spec fn repr(r: Resource) -> Seq<char> {
    resource_type_name(meta(r).kind) + "["@ + display(r) + "]"@
}

/// Whether a user belongs to the supplementary group `g`.
pub open spec fn in_groups(u: UserParameters, g: Seq<char>) -> bool {
    exists|i: int| 0 <= i < u.groups@.len() && #[trigger] u.groups@[i]@ == g
}

/// Whether resource `r` must depend on resource `o`: the dependencies that
/// the server infers from the resources' parameters.
#[verifier::opaque]
pub open spec fn must_depend(r: Resource, o: Resource) -> bool {
    match r {
        Resource::Directory(d) => match o {
            Resource::Directory(e) => is_proper_ancestor(e.parameters.path@, d.parameters.path@),
            Resource::Symlink(s) => is_proper_ancestor(s.parameters.path@, d.parameters.path@),
            Resource::User(u) => same_path(u.parameters.home@, d.parameters.path@),
            _ => false,
        },
        Resource::File(f) => match o {
            Resource::Directory(e) => is_ancestor_or_self(e.parameters.path@, f.parameters.path@),
            Resource::Symlink(s) => is_ancestor_or_self(s.parameters.path@, f.parameters.path@),
            _ => false,
        },
        Resource::Group(g) => match o {
            Resource::User(u) => u.parameters.group@ == g.parameters.name@,
            _ => false,
        },
        Resource::Host(h) => match o {
            Resource::File(f) => same_path(f.parameters.path@, h.parameters.target@),
            Resource::Symlink(s) => same_path(s.parameters.path@, h.parameters.target@),
            _ => false,
        },
        Resource::Symlink(s) => match o {
            Resource::Directory(e) => is_ancestor_or_self(e.parameters.path@, s.parameters.path@)
                || same_path(e.parameters.path@, s.parameters.target@),
            Resource::File(f) => same_path(f.parameters.path@, s.parameters.target@),
            Resource::Symlink(t) => is_ancestor_or_self(t.parameters.path@, s.parameters.path@),
            _ => false,
        },
        Resource::User(u) => match o {
            Resource::Group(g) => in_groups(u.parameters, g.parameters.name@),
            _ => false,
        },
        _ => false,
    }
}

/// Whether resource `r` may depend on resource `o` when the configuration
/// asks for it.
#[verifier::opaque]
pub open spec fn may_depend(r: Resource, o: Resource) -> bool {
    match r {
        Resource::AptPackage(p) => match o {
            Resource::AptPackage(q) => q.parameters.name@ != p.parameters.name@,
            _ => true,
        },
        Resource::Directory(d) => match o {
            Resource::Directory(e) => !same_path(e.parameters.path@, d.parameters.path@)
                && !is_ancestor_or_self(d.parameters.path@, e.parameters.path@),
            Resource::File(f) => !is_ancestor_or_self(d.parameters.path@, f.parameters.path@),
            Resource::Host(h) => !is_ancestor_or_self(d.parameters.path@, h.parameters.target@),
            Resource::Symlink(s) => !is_ancestor_or_self(d.parameters.path@, s.parameters.path@)
                && !is_ancestor_or_self(d.parameters.path@, s.parameters.target@),
            _ => true,
        },
        Resource::Execute(x) => match o {
            Resource::Execute(y) => y.parameters.name@ != x.parameters.name@,
            _ => true,
        },
        Resource::File(f) => match o {
            Resource::File(g) => !same_path(g.parameters.path@, f.parameters.path@),
            Resource::Host(h) => !same_path(h.parameters.target@, f.parameters.path@),
            Resource::Symlink(s) => !same_path(s.parameters.target@, f.parameters.path@),
            _ => true,
        },
        Resource::Group(g) => match o {
            Resource::Group(h) => h.parameters.name@ != g.parameters.name@,
            Resource::User(u) => u.parameters.group@ != g.parameters.name@,
            _ => true,
        },
        Resource::Host(h) => match o {
            Resource::Host(k) => k.parameters.ip_address != h.parameters.ip_address,
            _ => true,
        },
        Resource::Symlink(s) => match o {
            Resource::Directory(e) => !same_path(e.parameters.path@, s.parameters.target@),
            Resource::File(f) => !same_path(f.parameters.path@, s.parameters.target@),
            Resource::Host(h) => !same_path(h.parameters.target@, s.parameters.path@),
            Resource::Symlink(t) => !same_path(t.parameters.path@, s.parameters.path@),
            _ => true,
        },
        Resource::User(u) => match o {
            Resource::Directory(e) => !same_path(u.parameters.home@, e.parameters.path@),
            Resource::Group(g) => !in_groups(u.parameters, g.parameters.name@),
            Resource::User(v) => v.parameters.name@ != u.parameters.name@,
            _ => true,
        },
    }
}

/// Whether two resources stand for the same thing on a system: the same
/// kind and the same primary parameter.
#[verifier::opaque]
pub open spec fn same_resource(r: Resource, o: Resource) -> bool {
    match (r, o) {
        (Resource::AptPackage(a), Resource::AptPackage(b)) => a.parameters.name@ == b.parameters.name@,
        (Resource::Directory(a), Resource::Directory(b)) => same_path(a.parameters.path@, b.parameters.path@),
        (Resource::Execute(a), Resource::Execute(b)) => a.parameters.name@ == b.parameters.name@,
        (Resource::File(a), Resource::File(b)) => same_path(a.parameters.path@, b.parameters.path@),
        (Resource::Group(a), Resource::Group(b)) => a.parameters.name@ == b.parameters.name@,
        (Resource::Host(a), Resource::Host(b)) => a.parameters.ip_address == b.parameters.ip_address,
        (Resource::Symlink(a), Resource::Symlink(b)) => same_path(a.parameters.path@, b.parameters.path@),
        (Resource::User(a), Resource::User(b)) => a.parameters.name@ == b.parameters.name@,
        _ => false,
    }
}

fn user_in_groups(u: &UserParameters, g: &GroupName) -> (r: bool)
    ensures
        r == in_groups(*u, g@),
{
    let mut i: usize = 0;
    while i < u.groups.len()
        invariant
            i <= u.groups.len(),
            forall|j: int| 0 <= j < i ==> u.groups@[j]@ != g@,
        decreases u.groups.len() - i,
    {
        if u.groups[i].eq(g) {
            return true;
        }
        i = i + 1;
    }
    false
}

impl Resource {
    pub fn metadata(&self) -> (r: &ResourceMetadata)
        ensures
            *r == meta(*self),
    {
        match self {
            Resource::AptPackage(x) => &x.metadata,
            Resource::Directory(x) => &x.metadata,
            Resource::Execute(x) => &x.metadata,
            Resource::File(x) => &x.metadata,
            Resource::Group(x) => &x.metadata,
            Resource::Host(x) => &x.metadata,
            Resource::Symlink(x) => &x.metadata,
            Resource::User(x) => &x.metadata,
        }
    }

    pub fn id(&self) -> (r: &str)
        ensures
            r@ == rid(*self),
    {
        self.metadata().id.as_str()
    }

    pub fn kind(&self) -> (r: ResourceType)
        ensures
            r == meta(*self).kind,
    {
        self.metadata().kind
    }

    /// The primary parameter of the resource, as it is displayed.
    pub fn display(&self) -> (r: String)
        ensures
            r@ == display(*self),
    {
        match self {
            Resource::AptPackage(x) => x.parameters.name.as_str().to_owned(),
            Resource::Directory(x) => x.parameters.path.display(),
            Resource::Execute(x) => x.parameters.name.clone(),
            Resource::File(x) => x.parameters.path.display(),
            Resource::Group(x) => x.parameters.name.as_str().to_owned(),
            Resource::Host(x) => ip_address_text(&x.parameters.ip_address),
            Resource::Symlink(x) => x.parameters.path.display(),
            Resource::User(x) => x.parameters.name.as_str().to_owned(),
        }
    }

    pub fn repr(&self) -> (r: String)
        ensures
            r@ == repr(*self),
    {
        let d = self.display();
        let mut s = concat3(self.kind().as_str(), "[", d.as_str());
        crate::text::push_str(&mut s, "]");
        s
    }

    pub fn as_apt_package(&self) -> (r: Option<&AptPackage>)
        ensures
            match *self {
                Resource::AptPackage(x) => r == Some(&x),
                _ => r is None,
            },
    {
        match self {
            Resource::AptPackage(item) => Some(item),
            _ => None,
        }
    }

    pub fn as_directory(&self) -> (r: Option<&Directory>)
        ensures
            match *self {
                Resource::Directory(x) => r == Some(&x),
                _ => r is None,
            },
    {
        match self {
            Resource::Directory(item) => Some(item),
            _ => None,
        }
    }

    pub fn as_execute(&self) -> (r: Option<&Execute>)
        ensures
            match *self {
                Resource::Execute(x) => r == Some(&x),
                _ => r is None,
            },
    {
        match self {
            Resource::Execute(item) => Some(item),
            _ => None,
        }
    }

    pub fn as_file(&self) -> (r: Option<&File>)
        ensures
            match *self {
                Resource::File(x) => r == Some(&x),
                _ => r is None,
            },
    {
        match self {
            Resource::File(item) => Some(item),
            _ => None,
        }
    }

    pub fn as_group(&self) -> (r: Option<&Group>)
        ensures
            match *self {
                Resource::Group(x) => r == Some(&x),
                _ => r is None,
            },
    {
        match self {
            Resource::Group(item) => Some(item),
            _ => None,
        }
    }

    pub fn as_host(&self) -> (r: Option<&Host>)
        ensures
            match *self {
                Resource::Host(x) => r == Some(&x),
                _ => r is None,
            },
    {
        match self {
            Resource::Host(item) => Some(item),
            _ => None,
        }
    }

    pub fn as_symlink(&self) -> (r: Option<&Symlink>)
        ensures
            match *self {
                Resource::Symlink(x) => r == Some(&x),
                _ => r is None,
            },
    {
        match self {
            Resource::Symlink(item) => Some(item),
            _ => None,
        }
    }

    pub fn as_user(&self) -> (r: Option<&User>)
        ensures
            match *self {
                Resource::User(x) => r == Some(&x),
                _ => r is None,
            },
    {
        match self {
            Resource::User(item) => Some(item),
            _ => None,
        }
    }

    /// Whether the two resources stand for the same thing on a system.
    pub fn same_as(&self, other: &Resource) -> (r: bool)
        ensures
            r == same_resource(*self, *other),
    {
        reveal(same_resource);
        match (self, other) {
            (Resource::AptPackage(a), Resource::AptPackage(b)) => a.parameters.name.eq(&b.parameters.name),
            (Resource::Directory(a), Resource::Directory(b)) => path_eq(a.parameters.path.as_str(), b.parameters.path.as_str()),
            (Resource::Execute(a), Resource::Execute(b)) => str_eq(a.parameters.name.as_str(), b.parameters.name.as_str()),
            (Resource::File(a), Resource::File(b)) => path_eq(a.parameters.path.as_str(), b.parameters.path.as_str()),
            (Resource::Group(a), Resource::Group(b)) => a.parameters.name.eq(&b.parameters.name),
            (Resource::Host(a), Resource::Host(b)) => a.parameters.ip_address == b.parameters.ip_address,
            (Resource::Symlink(a), Resource::Symlink(b)) => path_eq(a.parameters.path.as_str(), b.parameters.path.as_str()),
            (Resource::User(a), Resource::User(b)) => a.parameters.name.eq(&b.parameters.name),
            _ => false,
        }
    }

    /// Whether this resource must depend on `other`.
    pub fn must_depend_on(&self, other: &Resource) -> (r: bool)
        ensures
            r == must_depend(*self, *other),
    {
        reveal(must_depend);
        match self {
            Resource::Directory(d) => match other {
                Resource::Directory(e) => proper_ancestor(e.parameters.path.as_str(), d.parameters.path.as_str()),
                Resource::Symlink(s) => proper_ancestor(s.parameters.path.as_str(), d.parameters.path.as_str()),
                Resource::User(u) => path_eq(u.parameters.home.as_str(), d.parameters.path.as_str()),
                _ => false,
            },
            Resource::File(f) => match other {
                Resource::Directory(e) => ancestor_or_self(e.parameters.path.as_str(), f.parameters.path.as_str()),
                Resource::Symlink(s) => ancestor_or_self(s.parameters.path.as_str(), f.parameters.path.as_str()),
                _ => false,
            },
            Resource::Group(g) => match other {
                Resource::User(u) => u.parameters.group.eq(&g.parameters.name),
                _ => false,
            },
            Resource::Host(h) => match other {
                Resource::File(f) => path_eq(f.parameters.path.as_str(), h.parameters.target.as_str()),
                Resource::Symlink(s) => path_eq(s.parameters.path.as_str(), h.parameters.target.as_str()),
                _ => false,
            },
            Resource::Symlink(s) => match other {
                Resource::Directory(e) => ancestor_or_self(e.parameters.path.as_str(), s.parameters.path.as_str())
                    || path_eq(e.parameters.path.as_str(), s.parameters.target.as_str()),
                Resource::File(f) => path_eq(f.parameters.path.as_str(), s.parameters.target.as_str()),
                Resource::Symlink(t) => ancestor_or_self(t.parameters.path.as_str(), s.parameters.path.as_str()),
                _ => false,
            },
            Resource::User(u) => match other {
                Resource::Group(g) => user_in_groups(&u.parameters, &g.parameters.name),
                _ => false,
            },
            _ => false,
        }
    }

    /// Whether this resource may depend on `other` when the configuration
    /// asks for it.
    pub fn may_depend_on(&self, other: &Resource) -> (r: bool)
        ensures
            r == may_depend(*self, *other),
    {
        reveal(may_depend);
        match self {
            Resource::AptPackage(p) => match other {
                Resource::AptPackage(q) => !q.parameters.name.eq(&p.parameters.name),
                _ => true,
            },
            Resource::Directory(d) => {
                let own = d.parameters.path.as_str();
                match other {
                    Resource::Directory(e) => !path_eq(e.parameters.path.as_str(), own)
                        && !ancestor_or_self(own, e.parameters.path.as_str()),
                    Resource::File(f) => !ancestor_or_self(own, f.parameters.path.as_str()),
                    Resource::Host(h) => !ancestor_or_self(own, h.parameters.target.as_str()),
                    Resource::Symlink(s) => !ancestor_or_self(own, s.parameters.path.as_str())
                        && !ancestor_or_self(own, s.parameters.target.as_str()),
                    _ => true,
                }
            },
            Resource::Execute(x) => match other {
                Resource::Execute(y) => !str_eq(y.parameters.name.as_str(), x.parameters.name.as_str()),
                _ => true,
            },
            Resource::File(f) => {
                let own = f.parameters.path.as_str();
                match other {
                    Resource::File(g) => !path_eq(g.parameters.path.as_str(), own),
                    Resource::Host(h) => !path_eq(h.parameters.target.as_str(), own),
                    Resource::Symlink(s) => !path_eq(s.parameters.target.as_str(), own),
                    _ => true,
                }
            },
            Resource::Group(g) => match other {
                Resource::Group(h) => !h.parameters.name.eq(&g.parameters.name),
                Resource::User(u) => !u.parameters.group.eq(&g.parameters.name),
                _ => true,
            },
            Resource::Host(h) => match other {
                Resource::Host(k) => k.parameters.ip_address != h.parameters.ip_address,
                _ => true,
            },
            Resource::Symlink(s) => match other {
                Resource::Directory(e) => !path_eq(e.parameters.path.as_str(), s.parameters.target.as_str()),
                Resource::File(f) => !path_eq(f.parameters.path.as_str(), s.parameters.target.as_str()),
                Resource::Host(h) => !path_eq(h.parameters.target.as_str(), s.parameters.path.as_str()),
                Resource::Symlink(t) => !path_eq(t.parameters.path.as_str(), s.parameters.path.as_str()),
                _ => true,
            },
            Resource::User(u) => match other {
                Resource::Directory(e) => !path_eq(u.parameters.home.as_str(), e.parameters.path.as_str()),
                Resource::Group(g) => !user_in_groups(&u.parameters, &g.parameters.name),
                Resource::User(v) => !v.parameters.name.eq(&u.parameters.name),
                _ => true,
            },
        }
    }
}

/// Whether two resources are of the same kind with the same metadata and
/// parameters, whatever relationships they hold.
pub open spec fn same_params(a: Resource, b: Resource) -> bool {
    match (a, b) {
        (Resource::AptPackage(x), Resource::AptPackage(y)) => x.metadata == y.metadata && x.parameters == y.parameters,
        (Resource::Directory(x), Resource::Directory(y)) => x.metadata == y.metadata && x.parameters == y.parameters,
        (Resource::Execute(x), Resource::Execute(y)) => x.metadata == y.metadata && x.parameters == y.parameters,
        (Resource::File(x), Resource::File(y)) => x.metadata == y.metadata && x.parameters == y.parameters,
        (Resource::Group(x), Resource::Group(y)) => x.metadata == y.metadata && x.parameters == y.parameters,
        (Resource::Host(x), Resource::Host(y)) => x.metadata == y.metadata && x.parameters == y.parameters,
        (Resource::Symlink(x), Resource::Symlink(y)) => x.metadata == y.metadata && x.parameters == y.parameters,
        (Resource::User(x), Resource::User(y)) => x.metadata == y.metadata && x.parameters == y.parameters,
        _ => false,
    }
}

/// The metadata of the resources that a resource requires.
pub open spec fn requirements(r: Resource) -> Seq<ResourceMetadata> {
    match r {
        Resource::AptPackage(x) => x.relationships.requires@,
        Resource::Directory(x) => x.relationships.requires@,
        Resource::Execute(x) => x.relationships.requires@,
        Resource::File(x) => x.relationships.requires@,
        Resource::Group(x) => x.relationships.requires@,
        Resource::Host(x) => x.relationships.requires@,
        Resource::Symlink(x) => x.relationships.requires@,
        Resource::User(x) => x.relationships.requires@,
    }
}

/// The metadata of the resources that must be applied before a resource.
pub open spec fn predecessors(r: Resource) -> Seq<ResourceMetadata> {
    match r {
        Resource::AptPackage(x) => x.relationships.after@,
        Resource::Directory(x) => x.relationships.after@,
        Resource::Execute(x) => x.relationships.after@,
        Resource::File(x) => x.relationships.after@,
        Resource::Group(x) => x.relationships.after@,
        Resource::Host(x) => x.relationships.after@,
        Resource::Symlink(x) => x.relationships.after@,
        Resource::User(x) => x.relationships.after@,
    }
}

/// The `execute` resources that a resource triggers.
pub open spec fn triggered(r: Resource) -> Seq<TriggerMetadata> {
    match r {
        Resource::AptPackage(x) => x.relationships.triggers@,
        Resource::Directory(x) => x.relationships.triggers@,
        Resource::Execute(x) => x.relationships.triggers@,
        Resource::File(x) => x.relationships.triggers@,
        Resource::Group(x) => x.relationships.triggers@,
        Resource::Host(x) => x.relationships.triggers@,
        Resource::Symlink(x) => x.relationships.triggers@,
        Resource::User(x) => x.relationships.triggers@,
    }
}

/// The child nodes that a directory resource manages; none for the other kinds.
pub open spec fn child_nodes(r: Resource) -> Seq<ChildNode> {
    match r {
        Resource::Directory(x) => x.relationships.children@,
        _ => Seq::empty(),
    }
}

impl Resource {
    /// Records that this resource requires the resource of `m`.
    pub fn push_requirement(&mut self, m: ResourceMetadata)
        ensures
            same_params(*old(self), *final(self)),
            requirements(*final(self)) == requirements(*old(self)).push(m),
            predecessors(*final(self)) == predecessors(*old(self)),
            triggered(*final(self)) == triggered(*old(self)),
            child_nodes(*final(self)) == child_nodes(*old(self)),
    {
        match self {
            Resource::AptPackage(x) => x.relationships.requires.push(m),
            Resource::Directory(x) => x.relationships.requires.push(m),
            Resource::Execute(x) => x.relationships.requires.push(m),
            Resource::File(x) => x.relationships.requires.push(m),
            Resource::Group(x) => x.relationships.requires.push(m),
            Resource::Host(x) => x.relationships.requires.push(m),
            Resource::Symlink(x) => x.relationships.requires.push(m),
            Resource::User(x) => x.relationships.requires.push(m),
        }
    }

    /// Records that the resource of `m` must be applied before this one.
    pub fn push_predecessor(&mut self, m: ResourceMetadata)
        ensures
            same_params(*old(self), *final(self)),
            requirements(*final(self)) == requirements(*old(self)),
            predecessors(*final(self)) == predecessors(*old(self)).push(m),
            triggered(*final(self)) == triggered(*old(self)),
            child_nodes(*final(self)) == child_nodes(*old(self)),
    {
        match self {
            Resource::AptPackage(x) => x.relationships.after.push(m),
            Resource::Directory(x) => x.relationships.after.push(m),
            Resource::Execute(x) => x.relationships.after.push(m),
            Resource::File(x) => x.relationships.after.push(m),
            Resource::Group(x) => x.relationships.after.push(m),
            Resource::Host(x) => x.relationships.after.push(m),
            Resource::Symlink(x) => x.relationships.after.push(m),
            Resource::User(x) => x.relationships.after.push(m),
        }
    }

    /// Records that this resource triggers the `execute` resource of `m`.
    pub fn push_trigger(&mut self, m: TriggerMetadata)
        ensures
            same_params(*old(self), *final(self)),
            requirements(*final(self)) == requirements(*old(self)),
            predecessors(*final(self)) == predecessors(*old(self)),
            triggered(*final(self)) == triggered(*old(self)).push(m),
            child_nodes(*final(self)) == child_nodes(*old(self)),
    {
        match self {
            Resource::AptPackage(x) => x.relationships.triggers.push(m),
            Resource::Directory(x) => x.relationships.triggers.push(m),
            Resource::Execute(x) => x.relationships.triggers.push(m),
            Resource::File(x) => x.relationships.triggers.push(m),
            Resource::Group(x) => x.relationships.triggers.push(m),
            Resource::Host(x) => x.relationships.triggers.push(m),
            Resource::Symlink(x) => x.relationships.triggers.push(m),
            Resource::User(x) => x.relationships.triggers.push(m),
        }
    }
}

/// A dependency that the configuration states with `requires`: the kind of
/// a resource and its primary parameter.
pub enum Dependency {
    AptPackage { name: AptPackageName },
    Directory { path: SafePathBuf },
    Execute { name: String },
    File { path: SafePathBuf },
    Group { name: GroupName },
    Host { ip_address: IpAddress },
    Symlink { path: SafePathBuf },
    User { name: UserName },
}

/// Whether a dependency names the resource.
#[verifier::opaque]
pub open spec fn names(d: Dependency, r: Resource) -> bool {
    match (d, r) {
        (Dependency::AptPackage { name }, Resource::AptPackage(x)) => name@ == x.parameters.name@,
        (Dependency::Directory { path }, Resource::Directory(x)) => same_path(path@, x.parameters.path@),
        (Dependency::Execute { name }, Resource::Execute(x)) => name@ == x.parameters.name@,
        (Dependency::File { path }, Resource::File(x)) => same_path(path@, x.parameters.path@),
        (Dependency::Group { name }, Resource::Group(x)) => name@ == x.parameters.name@,
        (Dependency::Host { ip_address }, Resource::Host(x)) => ip_address == x.parameters.ip_address,
        (Dependency::Symlink { path }, Resource::Symlink(x)) => same_path(path@, x.parameters.path@),
        (Dependency::User { name }, Resource::User(x)) => name@ == x.parameters.name@,
        _ => false,
    }
}

/// The text by which a dependency is named in messages.
pub open spec fn dependency_repr(d: Dependency) -> Seq<char> {
    match d {
        Dependency::AptPackage { name } => "apt::package["@ + name@ + "]"@,
        Dependency::Directory { path } => "directory["@ + path@ + "]"@,
        Dependency::Execute { name } => "execute["@ + name@ + "]"@,
        Dependency::File { path } => "file["@ + path@ + "]"@,
        Dependency::Group { name } => "group["@ + name@ + "]"@,
        Dependency::Host { ip_address } => "host["@ + ip_to_text(ip_address) + "]"@,
        Dependency::Symlink { path } => "symlink["@ + path@ + "]"@,
        Dependency::User { name } => "user["@ + name@ + "]"@,
    }
}

impl Dependency {
    /// Whether the dependency names the resource.
    pub fn names(&self, r: &Resource) -> (b: bool)
        ensures
            b == names(*self, *r),
    {
        reveal(names);
        match (self, r) {
            (Dependency::AptPackage { name }, Resource::AptPackage(x)) => name.eq(&x.parameters.name),
            (Dependency::Directory { path }, Resource::Directory(x)) => path_eq(path.as_str(), x.parameters.path.as_str()),
            (Dependency::Execute { name }, Resource::Execute(x)) => str_eq(name.as_str(), x.parameters.name.as_str()),
            (Dependency::File { path }, Resource::File(x)) => path_eq(path.as_str(), x.parameters.path.as_str()),
            (Dependency::Group { name }, Resource::Group(x)) => name.eq(&x.parameters.name),
            (Dependency::Host { ip_address }, Resource::Host(x)) => *ip_address == x.parameters.ip_address,
            (Dependency::Symlink { path }, Resource::Symlink(x)) => path_eq(path.as_str(), x.parameters.path.as_str()),
            (Dependency::User { name }, Resource::User(x)) => name.eq(&x.parameters.name),
            _ => false,
        }
    }

    pub fn repr(&self) -> (r: String)
        ensures
            r@ == dependency_repr(*self),
    {
        match self {
            Dependency::AptPackage { name } => concat3("apt::package[", name.as_str(), "]"),
            Dependency::Directory { path } => concat3("directory[", path.as_str(), "]"),
            Dependency::Execute { name } => concat3("execute[", name.as_str(), "]"),
            Dependency::File { path } => concat3("file[", path.as_str(), "]"),
            Dependency::Group { name } => concat3("group[", name.as_str(), "]"),
            Dependency::Host { ip_address } => {
                let t = ip_address_text(ip_address);
                concat3("host[", t.as_str(), "]")
            },
            Dependency::Symlink { path } => concat3("symlink[", path.as_str(), "]"),
            Dependency::User { name } => concat3("user[", name.as_str(), "]"),
        }
    }
}

/// An `execute` resource that a resource triggers, with the actions upon
/// which it runs.
pub enum Trigger {
    Execute { name: String, actions: Vec<Action> },
}

/// Whether a trigger names the resource.
#[verifier::opaque]
pub open spec fn trigger_names(t: Trigger, r: Resource) -> bool {
    match (t, r) {
        (Trigger::Execute { name, .. }, Resource::Execute(x)) => name@ == x.parameters.name@,
        _ => false,
    }
}

/// The text by which a trigger is named in messages.
pub open spec fn trigger_repr(t: Trigger) -> Seq<char> {
    match t {
        Trigger::Execute { name, .. } => "execute["@ + name@ + "]"@,
    }
}

impl Trigger {
    pub fn names(&self, r: &Resource) -> (b: bool)
        ensures
            b == trigger_names(*self, *r),
    {
        reveal(trigger_names);
        match (self, r) {
            (Trigger::Execute { name, .. }, Resource::Execute(x)) => str_eq(name.as_str(), x.parameters.name.as_str()),
            _ => false,
        }
    }

    pub fn repr(&self) -> (r: String)
        ensures
            r@ == trigger_repr(*self),
    {
        match self {
            Trigger::Execute { name, .. } => concat3("execute[", name.as_str(), "]"),
        }
    }
}

/// Resources with the same metadata and parameters stand in the same
/// relations.
pub proof fn lemma_same_params(a: Resource, b: Resource)
    requires
        same_params(a, b),
    ensures
        meta(a) == meta(b),
        rid(a) == rid(b),
        repr(a) == repr(b),
        variant_kind(a) == variant_kind(b),
        forall|o: Resource| #[trigger] must_depend(a, o) == must_depend(b, o),
        forall|o: Resource| #[trigger] may_depend(a, o) == may_depend(b, o),
        forall|o: Resource| #[trigger] must_depend(o, a) == must_depend(o, b),
        forall|o: Resource| #[trigger] may_depend(o, a) == may_depend(o, b),
        forall|d: Dependency| #[trigger] names(d, a) == names(d, b),
        forall|t: Trigger| #[trigger] trigger_names(t, a) == trigger_names(t, b),
{
    reveal(must_depend);
    reveal(may_depend);
    reveal(names);
    reveal(trigger_names);
}

/// Only an `execute` resource is named by a trigger.
pub proof fn lemma_trigger_names_execute(t: Trigger, r: Resource)
    requires
        trigger_names(t, r),
    ensures
        r is Execute,
{
    reveal(trigger_names);
}

} // verus!
