pub mod name;
pub mod net;
pub mod path;
pub mod resources;

use vstd::prelude::*;

verus! {

/// The kinds of resources that a catalog holds.
#[derive(Clone, Copy, Debug, PartialEq, Eq, Structural)]
pub enum ResourceType {
    AptPackage,
    AptPreference,
    CronJob,
    Directory,
    Execute,
    File,
    Group,
    Host,
    ResolvConf,
    Symlink,
    User,
}

/// The name by which a kind of resource is written in configuration files.
pub open spec fn resource_type_name(k: ResourceType) -> Seq<char> {
    match k {
        ResourceType::AptPackage => "apt::package"@,
        ResourceType::AptPreference => "apt::preference"@,
        ResourceType::CronJob => "cron::job"@,
        ResourceType::Directory => "directory"@,
        ResourceType::Execute => "execute"@,
        ResourceType::File => "file"@,
        ResourceType::Group => "group"@,
        ResourceType::Host => "host"@,
        ResourceType::ResolvConf => "resolv.conf"@,
        ResourceType::Symlink => "symlink"@,
        ResourceType::User => "user"@,
    }
}

impl ResourceType {
    /// The name of the kind, as it is displayed.
    pub fn as_str(&self) -> (r: &'static str)
        ensures
            r@ == resource_type_name(*self),
    {
        match self {
            ResourceType::AptPackage => "apt::package",
            ResourceType::AptPreference => "apt::preference",
            ResourceType::CronJob => "cron::job",
            ResourceType::Directory => "directory",
            ResourceType::Execute => "execute",
            ResourceType::File => "file",
            ResourceType::Group => "group",
            ResourceType::Host => "host",
            ResourceType::ResolvConf => "resolv.conf",
            ResourceType::Symlink => "symlink",
            ResourceType::User => "user",
        }
    }

    /// Parses the name of a kind of resource.
    pub fn from_str(s: &str) -> (r: Result<ResourceType, String>)
        ensures
            r matches Ok(k) ==> resource_type_name(k) == s@,
            r is Err ==> forall|k: ResourceType| resource_type_name(k) != s@,
            r matches Err(m) ==> m@ == "invalid resource type: "@ + s@,
    {
        let all = [
            ResourceType::AptPackage,
            ResourceType::AptPreference,
            ResourceType::CronJob,
            ResourceType::Directory,
            ResourceType::Execute,
            ResourceType::File,
            ResourceType::Group,
            ResourceType::Host,
            ResourceType::ResolvConf,
            ResourceType::Symlink,
            ResourceType::User,
        ];
        let mut i: usize = 0;
        while i < 11
            invariant
                i <= 11,
                all@ == seq![
                    ResourceType::AptPackage,
                    ResourceType::AptPreference,
                    ResourceType::CronJob,
                    ResourceType::Directory,
                    ResourceType::Execute,
                    ResourceType::File,
                    ResourceType::Group,
                    ResourceType::Host,
                    ResourceType::ResolvConf,
                    ResourceType::Symlink,
                    ResourceType::User,
                ],
                forall|j: int| 0 <= j < i ==> resource_type_name(#[trigger] all@[j]) != s@,
            decreases 11 - i,
        {
            let k = all[i];
            if crate::text::str_eq(s, k.as_str()) {
                return Ok(k);
            }
            i = i + 1;
        }
        assert forall|k: ResourceType| resource_type_name(k) != s@ by {
            match k {
                ResourceType::AptPackage => assert(resource_type_name(all@[0]) != s@),
                ResourceType::AptPreference => assert(resource_type_name(all@[1]) != s@),
                ResourceType::CronJob => assert(resource_type_name(all@[2]) != s@),
                ResourceType::Directory => assert(resource_type_name(all@[3]) != s@),
                ResourceType::Execute => assert(resource_type_name(all@[4]) != s@),
                ResourceType::File => assert(resource_type_name(all@[5]) != s@),
                ResourceType::Group => assert(resource_type_name(all@[6]) != s@),
                ResourceType::Host => assert(resource_type_name(all@[7]) != s@),
                ResourceType::ResolvConf => assert(resource_type_name(all@[8]) != s@),
                ResourceType::Symlink => assert(resource_type_name(all@[9]) != s@),
                ResourceType::User => assert(resource_type_name(all@[10]) != s@),
            }
        }
        Err(crate::text::concat2("invalid resource type: ", s))
    }
}

/// Links that accompany an API response.
pub struct Links {
    pub this: String,
    pub client: Option<String>,
    pub next: Option<String>,
    pub previous: Option<String>,
}

/// The kind and identifier of a resource.
pub struct ResourceMetadata {
    pub kind: ResourceType,
    pub id: String,
}

impl Clone for ResourceMetadata {
    fn clone(&self) -> (r: Self)
        ensures
            r.kind == self.kind,
            r.id@ == self.id@,
    {
        ResourceMetadata { kind: self.kind, id: self.id.clone() }
    }
}

impl ResourceMetadata {
    /// The name of the resource's kind.
    pub fn kind(&self) -> (r: String)
        ensures
            r@ == resource_type_name(self.kind),
    {
        self.kind.as_str().to_owned()
    }

    pub fn id(&self) -> (r: String)
        ensures
            r@ == self.id@,
    {
        self.id.clone()
    }
}

/// Whether a resource should be present on or absent from a system.
#[derive(Clone, Copy, Debug, PartialEq, Eq, Structural)]
pub enum Ensure {
    Present,
    Absent,
}

/// The name by which a state is written.
pub open spec fn ensure_name(e: Ensure) -> Seq<char> {
    match e {
        Ensure::Present => "present"@,
        Ensure::Absent => "absent"@,
    }
}

impl Ensure {
    pub fn default() -> (r: Ensure)
        ensures
            r == Ensure::Present,
    {
        Ensure::Present
    }

    pub fn is_present(&self) -> (r: bool)
        ensures
            r == (*self == Ensure::Present),
    {
        *self == Ensure::Present
    }

    pub fn is_absent(&self) -> (r: bool)
        ensures
            r == (*self == Ensure::Absent),
    {
        *self == Ensure::Absent
    }

    /// Parses `present` or `absent`.
    pub fn from_str(s: &str) -> (r: Result<Ensure, String>)
        ensures
            r matches Ok(e) ==> ensure_name(e) == s@,
            r is Err <==> (s@ != "present"@ && s@ != "absent"@),
            r matches Err(m) ==> m@ == "invalid `ensure` value: "@ + s@,
    {
        if crate::text::str_eq(s, "present") {
            Ok(Ensure::Present)
        } else if crate::text::str_eq(s, "absent") {
            Ok(Ensure::Absent)
        } else {
            Err(crate::text::concat2("invalid `ensure` value: ", s))
        }
    }
}

/// What applying a resource did, or why it was not applied.
#[derive(Clone, Copy, Debug, PartialEq, Eq, Structural)]
pub enum Action {
    Created,
    Deleted,
    Changed,
    Unchanged,
    Skipped,
    Failed,
}

pub open spec fn action_name(a: Action) -> Seq<char> {
    match a {
        Action::Created => "created"@,
        Action::Deleted => "deleted"@,
        Action::Changed => "changed"@,
        Action::Unchanged => "unchanged"@,
        Action::Skipped => "skipped"@,
        Action::Failed => "failed"@,
    }
}

impl Action {
    /// The action that nothing was done: `Unchanged`.
    pub fn default() -> (r: Action)
        ensures
            r == Action::Unchanged,
    {
        Action::Unchanged
    }

    pub fn as_str(&self) -> (r: &'static str)
        ensures
            r@ == action_name(*self),
    {
        match self {
            Action::Created => "created",
            Action::Deleted => "deleted",
            Action::Changed => "changed",
            Action::Unchanged => "unchanged",
            Action::Skipped => "skipped",
            Action::Failed => "failed",
        }
    }

    /// Parses the lowercase name of an action.
    pub fn from_str(s: &str) -> (r: Result<Action, String>)
        ensures
            r matches Ok(a) ==> action_name(a) == s@,
            r is Err ==> forall|a: Action| action_name(a) != s@,
            r matches Err(m) ==> m@ == "invalid action: "@ + s@,
    {
        let all = [
            Action::Created,
            Action::Deleted,
            Action::Changed,
            Action::Unchanged,
            Action::Skipped,
            Action::Failed,
        ];
        let mut i: usize = 0;
        while i < 6
            invariant
                i <= 6,
                all@ == seq![
                    Action::Created,
                    Action::Deleted,
                    Action::Changed,
                    Action::Unchanged,
                    Action::Skipped,
                    Action::Failed,
                ],
                forall|j: int| 0 <= j < i ==> action_name(#[trigger] all@[j]) != s@,
            decreases 6 - i,
        {
            let a = all[i];
            if crate::text::str_eq(s, a.as_str()) {
                return Ok(a);
            }
            i = i + 1;
        }
        assert forall|a: Action| action_name(a) != s@ by {
            match a {
                Action::Created => assert(action_name(all@[0]) != s@),
                Action::Deleted => assert(action_name(all@[1]) != s@),
                Action::Changed => assert(action_name(all@[2]) != s@),
                Action::Unchanged => assert(action_name(all@[3]) != s@),
                Action::Skipped => assert(action_name(all@[4]) != s@),
                Action::Failed => assert(action_name(all@[5]) != s@),
            }
        }
        Err(crate::text::concat2("invalid action: ", s))
    }
}

/// A reference to an `execute` resource that a resource triggers, with the
/// actions of the triggering resource upon which it runs.
pub struct TriggerMetadata {
    pub metadata: ResourceMetadata,
    pub actions: Vec<Action>,
}

impl TriggerMetadata {
    pub fn from(metadata: &ResourceMetadata, actions: &[Action]) -> (r: TriggerMetadata)
        ensures
            r.metadata.kind == metadata.kind,
            r.metadata.id@ == metadata.id@,
            r.actions@ == actions@,
    {
        let mut w: Vec<Action> = Vec::new();
        let mut i: usize = 0;
        while i < actions.len()
            invariant
                i <= actions.len(),
                w@ == actions@.take(i as int),
            decreases actions.len() - i,
        {
            w.push(actions[i]);
            i = i + 1;
            assert(w@ =~= actions@.take(i as int));
        }
        assert(actions@.take(actions.len() as int) =~= actions@);
        TriggerMetadata { metadata: metadata.clone(), actions: w }
    }

    pub fn id(&self) -> (r: &str)
        ensures
            r@ == self.metadata.id@,
    {
        self.metadata.id.as_str()
    }

    pub fn when(&self) -> (r: &[Action])
        ensures
            r@ == self.actions@,
    {
        self.actions.as_slice()
    }
}

/// A marker that a program should terminate with a failure exit status.
pub struct Terminate;

} // verus!
