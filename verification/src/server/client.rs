use crate::common::name::Hostname;
use crate::common::net::{ip_address_text, ip_to_text, IpAddress};
use crate::common::path::{components, components_of, parent_of, is_parent, path_eq, same_path, SafePathBuf};
use crate::common::resources::apt::package::Name as AptPackageName;
use crate::common::resources::directory::ChildNode;
use crate::common::resources::group::Name as GroupName;
use crate::common::resources::user::Name as UserName;
use crate::common::{resource_type_name, Action, ResourceMetadata, ResourceType, TriggerMetadata};
use crate::server::api_key::ApiKey;
use crate::server::catalog::lemma_same_params_agree;
use crate::server::graph::{is_walk, 
    acyclic, lemma_add_edge_keeps_acyclic, lemma_edge_of_acyclic, lemma_subgraph_push, reaches, subgraph, Edge,
    Predecessors,
};
use crate::server::resources::{
    child_nodes, dependency_repr, display, meta, must_depend, may_depend, names, predecessors,
    repr, requirements, rid, same_params, lemma_same_params, lemma_trigger_names_execute, same_resource, trigger_names, trigger_repr, triggered,
    variant_kind, AptPackage, Dependency, Directory, Execute, File, Group, Host, Resource, Symlink,
    Trigger, User,
};
use crate::server::yaml::Node;
use crate::text::{concat_all, join_all, str_eq, str_views, views};
use vstd::prelude::*;

verus! {

/// The texts of a list of strings.
pub open spec fn texts(v: Seq<String>) -> Seq<Seq<char>> {
    v.map_values(|s: String| s@)
}

/// A text in backticks.
pub open spec fn tick(x: Seq<char>) -> Seq<char> {
    "`"@ + x + "`"@
}

/// The components joined by `/` after a leading `/`.
pub open spec fn slash_join(cs: Seq<Seq<char>>) -> Seq<char>
    decreases cs.len(),
{
    if cs.len() == 0 {
        seq![]
    } else {
        slash_join(cs.drop_last()) + "/"@ + cs.last()
    }
}

/// The text of the parent of an absolute path.
pub open spec fn parent_display(p: Seq<char>) -> Seq<char> {
    let all = components(p);
    let cs = all.take(if all.len() == 0 { 0 } else { all.len() - 1 });
    if cs.len() == 0 {
        "/"@
    } else {
        slash_join(cs)
    }
}

fn parent_text(p: &str) -> (r: String)
    ensures
        r@ == parent_display(p@),
{
    let cs = components_of(p);
    let n: usize = if cs.len() == 0 { 0 } else { cs.len() - 1 };
    let ghost pc = views(cs@).take(n as int);
    if n == 0 {
        return "/".to_owned();
    }
    let mut s = String::new();
    let mut i: usize = 0;
    while i < n
        invariant
            i <= n < cs.len(),
            pc == views(cs@).take(n as int),
            s@ == slash_join(pc.take(i as int)),
        decreases n - i,
    {
        let ghost s0 = s@;
        s.push('/');
        let piece = crate::text::string_of(&cs[i]);
        crate::text::push_str(&mut s, piece.as_str());
        proof {
            reveal_strlit("/");
        }
        assert(s@ =~= s0 + "/"@ + pc[i as int]);
        assert(pc.take(i + 1).drop_last() =~= pc.take(i as int));
        assert(pc[i as int] == cs@[i as int]@);
        i = i + 1;
    }
    assert(pc.take(n as int) =~= pc);
    s
}

/// The message for a path that two resources manage.
pub open spec fn duplicate_path_message(rep: Seq<char>, path: Seq<char>) -> Seq<char> {
    "`"@ + rep + "`: path `"@ + path
        + "` appears in multiple resources, must be unique among resources of type `file`, `symlink` and `directory`"@
}

/// The message for a file resource under another file.
pub open spec fn file_parent_message(rep: Seq<char>, parent: Seq<char>) -> Seq<char> {
    "`"@ + rep + "`: another file `"@ + parent
        + "` is found to be a parent of this file, but files cannot be parents to other files"@
}

/// The message for a directory resource under a file.
pub open spec fn directory_parent_message(rep: Seq<char>, parent: Seq<char>) -> Seq<char> {
    "`"@ + rep + "`: file `"@ + parent
        + "` is found to be a parent of this directory, but files cannot be parents to directories"@
}

/// The message for a symlink resource under a file.
pub open spec fn symlink_parent_message(rep: Seq<char>, parent: Seq<char>) -> Seq<char> {
    "`"@ + rep + "`: file `"@ + parent
        + "` is found to be a parent of this symlink, but files cannot be parents to symlinks"@
}

/// The message for a value that must be unique among the resources of a kind.
pub open spec fn duplicate_value_message(
    rep: Seq<char>,
    what: Seq<char>,
    value: Seq<char>,
    kind: ResourceType,
    rule: Seq<char>,
) -> Seq<char> {
    "`"@ + rep + "`: "@ + what + " `"@ + value + "` appears in multiple `"@ + resource_type_name(kind)
        + "` resources, "@ + rule
}

/// The message for a `host` resource beside a file resource that manages
/// the contents of the same file.
pub open spec fn host_conflict_message(rep: Seq<char>, file_rep: Seq<char>) -> Seq<char> {
    "`"@ + rep + "`: resource conflicts with `"@ + file_rep
        + "` whose `content` or `source` parameters are set"@
}

fn message3(a: &str, b: &str, c: &str) -> (r: String)
    ensures
        r@ == a@ + b@ + c@,
{
    crate::text::concat3(a, b, c)
}

fn message5(a: &str, b: &str, c: &str, d: &str, e: &str) -> (r: String)
    ensures
        r@ == a@ + b@ + c@ + d@ + e@,
{
    let parts = [a, b, c, d, e];
    let r = concat_all(&parts);
    assert(str_views(parts@) =~= seq![a@, b@, c@, d@, e@]);
    assert(join_all(seq![a@, b@, c@, d@, e@]) =~= a@ + b@ + c@ + d@ + e@) by {
        reveal_with_fuel(join_all, 6);
    }
    r
}

fn message10(a: &str, b: &str, c: &str, d: &str, e: &str, f: &str, g: &str, h: &str, i: &str, j: &str) -> (r: String)
    ensures
        r@ == a@ + b@ + c@ + d@ + e@ + f@ + g@ + h@ + i@ + j@,
{
    let parts = [a, b, c, d, e, f, g, h, i, j];
    let r = concat_all(&parts);
    assert(str_views(parts@) =~= seq![a@, b@, c@, d@, e@, f@, g@, h@, i@, j@]);
    assert(join_all(seq![a@, b@, c@, d@, e@, f@, g@, h@, i@, j@]) =~= a@ + b@ + c@ + d@ + e@ + f@ + g@ + h@ + i@ + j@) by {
        reveal_with_fuel(join_all, 11);
    }
    r
}

/// Whether a list of paths holds one equal to `p`.
pub open spec fn holds_path(v: Seq<Seq<char>>, p: Seq<char>) -> bool {
    exists|i: int| 0 <= i < v.len() && same_path(#[trigger] v[i], p)
}

/// Records a path unless an equal one is recorded; returns whether it was new.
fn insert_path(v: &mut Vec<String>, p: &str) -> (r: bool)
    ensures
        r == !holds_path(texts(old(v)@), p@),
        r ==> texts(final(v)@) == texts(old(v)@).push(p@),
        !r ==> final(v)@ == old(v)@,
{
    if contains_path(v, p) {
        false
    } else {
        let ghost before = v@;
        v.push(p.to_owned());
        assert(texts(v@) =~= texts(before).push(p@));
        true
    }
}

fn contains_path(v: &Vec<String>, p: &str) -> (r: bool)
    ensures
        r == holds_path(texts(v@), p@),
{
    let mut i: usize = 0;
    while i < v.len()
        invariant
            i <= v.len(),
            forall|j: int| 0 <= j < i ==> !same_path(#[trigger] texts(v@)[j], p@),
        decreases v.len() - i,
    {
        if path_eq(v[i].as_str(), p) {
            assert(same_path(texts(v@)[i as int], p@));
            return true;
        }
        i = i + 1;
    }
    false
}

/// Records a text unless it is recorded; returns whether it was new.
fn insert_text(v: &mut Vec<String>, t: &str) -> (r: bool)
    ensures
        r == !texts(old(v)@).contains(t@),
        r ==> texts(final(v)@) == texts(old(v)@).push(t@),
        !r ==> final(v)@ == old(v)@,
{
    let mut i: usize = 0;
    while i < v.len()
        invariant
            i <= v.len(),
            v@ == old(v)@,
            forall|j: int| 0 <= j < i ==> texts(v@)[j] != t@,
        decreases v.len() - i,
    {
        if str_eq(v[i].as_str(), t) {
            assert(texts(v@)[i as int] == t@);
            return false;
        }
        i = i + 1;
    }
    let ghost before = v@;
    v.push(t.to_owned());
    assert(texts(v@) =~= texts(before).push(t@));
    true
}

/// Records an address unless it is recorded; returns whether it was new.
fn insert_address(v: &mut Vec<IpAddress>, a: IpAddress) -> (r: bool)
    ensures
        r == !old(v)@.contains(a),
        r ==> final(v)@ == old(v)@.push(a),
        !r ==> final(v)@ == old(v)@,
{
    let mut i: usize = 0;
    while i < v.len()
        invariant
            i <= v.len(),
            v@ == old(v)@,
            forall|j: int| 0 <= j < i ==> v@[j] != a,
        decreases v.len() - i,
    {
        if v[i] == a {
            return false;
        }
        i = i + 1;
    }
    v.push(a);
    true
}

/// The helper collections that catalog validation fills and empties again.
pub struct ValidationHelpers {
    /// Per resource id, the ids of the resources applied before it.
    pub predecessors: Predecessors,
    /// The ids of resources taken from a group, with the group's name.
    pub origins: Vec<(String, Hostname)>,
    /// The dependencies that the configuration states, per resource id.
    pub requires: Vec<(String, Vec<Dependency>)>,
    /// The triggers that the configuration states, per resource id.
    pub triggers: Vec<(String, Vec<Trigger>)>,
    /// The paths of `file`, `directory` and `symlink` resources seen so far.
    pub paths: Vec<String>,
    pub execute_names: Vec<String>,
    /// The paths of all `file` resources.
    pub file_paths: Vec<String>,
    pub host_ip_addresses: Vec<IpAddress>,
    pub group_names: Vec<String>,
    pub user_names: Vec<String>,
    pub apt_package_names: Vec<String>,
}

/// Whether every helper collection is empty.
pub open spec fn helpers_empty(t: ValidationHelpers) -> bool {
    &&& t.predecessors@.len() == 0
    &&& t.origins@.len() == 0
    &&& t.requires@.len() == 0
    &&& t.triggers@.len() == 0
    &&& t.paths@.len() == 0
    &&& t.execute_names@.len() == 0
    &&& t.file_paths@.len() == 0
    &&& t.host_ip_addresses@.len() == 0
    &&& t.group_names@.len() == 0
    &&& t.user_names@.len() == 0
    &&& t.apt_package_names@.len() == 0
}

impl ValidationHelpers {
    pub fn new() -> (r: ValidationHelpers)
        ensures
            helpers_empty(r),
            r.predecessors@.len() == 0,
            r.origins@.len() == 0,
            r.requires@.len() == 0,
            r.triggers@.len() == 0,
            r.paths@.len() == 0,
            r.execute_names@.len() == 0,
            r.file_paths@.len() == 0,
            r.host_ip_addresses@.len() == 0,
            r.group_names@.len() == 0,
            r.user_names@.len() == 0,
            r.apt_package_names@.len() == 0,
    {
        ValidationHelpers {
            predecessors: Predecessors::new(),
            origins: Vec::new(),
            requires: Vec::new(),
            triggers: Vec::new(),
            paths: Vec::new(),
            execute_names: Vec::new(),
            file_paths: Vec::new(),
            host_ip_addresses: Vec::new(),
            group_names: Vec::new(),
            user_names: Vec::new(),
            apt_package_names: Vec::new(),
        }
    }
}

/// A client of the server: its name, the hash of its API key, the groups it
/// belongs to, its variables and its resource catalog.
pub struct Client {
    pub name: Hostname,
    pub api_key: ApiKey,
    pub assigned_groups: Vec<Hostname>,
    pub variables: Vec<(String, Node)>,
    pub temporary: ValidationHelpers,
    pub resources: Vec<Resource>,
}

fn kind_repr(kind: ResourceType, shown: &str) -> (r: String)
    ensures
        r@ == resource_type_name(kind) + "["@ + shown@ + "]"@,
{
    let mut s = crate::text::concat3(kind.as_str(), "[", shown);
    crate::text::push_str(&mut s, "]");
    s
}

/// The text of a resource of the given kind and primary parameter.
pub open spec fn rep_of(kind: ResourceType, shown: Seq<char>) -> Seq<char> {
    resource_type_name(kind) + "["@ + shown + "]"@
}

/// Whether a list of paths holds the parent of `p`.
pub open spec fn holds_parent(v: Seq<Seq<char>>, p: Seq<char>) -> bool {
    exists|i: int| 0 <= i < v.len() && is_parent(#[trigger] v[i], p)
}

fn contains_parent(v: &Vec<String>, p: &str) -> (r: bool)
    ensures
        r == holds_parent(texts(v@), p@),
{
    let mut i: usize = 0;
    while i < v.len()
        invariant
            i <= v.len(),
            forall|j: int| 0 <= j < i ==> !is_parent(#[trigger] texts(v@)[j], p@),
        decreases v.len() - i,
    {
        if parent_of(v[i].as_str(), p) {
            assert(is_parent(texts(v@)[i as int], p@));
            return true;
        }
        i = i + 1;
    }
    false
}

/// What the uniqueness and parent checks of a path resource give: the path
/// must not be managed twice, and no file may be its parent.
pub open spec fn path_check(
    paths: Seq<Seq<char>>,
    file_paths: Seq<Seq<char>>,
    path: Seq<char>,
    rep: Seq<char>,
    parent_message: Seq<char>,
) -> Result<(), Seq<char>> {
    if holds_path(paths, path) {
        Err(duplicate_path_message(rep, path))
    } else if components(path).len() > 0 && holds_parent(file_paths, path) {
        Err(parent_message)
    } else {
        Ok(())
    }
}

/// The view of a child node: its kind (0 for a directory, 1 for a file, 2
/// for a symlink, 3 for an apt preference) and its path.
pub open spec fn child_view(c: ChildNode) -> (int, Seq<char>) {
    match c {
        ChildNode::Directory { path } => (0, path@),
        ChildNode::File { path } => (1, path@),
        ChildNode::Symlink { path } => (2, path@),
        ChildNode::AptPreference { path } => (3, path@),
    }
}

/// The kind tag and path of a resource that can be a child node.
pub open spec fn node_of(r: Resource) -> Option<(int, Seq<char>)> {
    match r {
        Resource::Directory(x) => Some((0, x.parameters.path@)),
        Resource::File(x) => Some((1, x.parameters.path@)),
        Resource::Symlink(x) => Some((2, x.parameters.path@)),
        _ => None,
    }
}

/// The child nodes of kind `tag` of the directory at `dir` among `rs`, in order.
pub open spec fn children_of(rs: Seq<Resource>, dir: Seq<char>, tag: int) -> Seq<(int, Seq<char>)>
    decreases rs.len(),
{
    if rs.len() == 0 {
        seq![]
    } else {
        let rest = children_of(rs.drop_last(), dir, tag);
        match node_of(rs.last()) {
            Some(n) => if n.0 == tag && is_parent(dir, n.1) {
                rest.push(n)
            } else {
                rest
            },
            None => rest,
        }
    }
}

/// The child nodes of the directory at `dir` among `rs`: the directories,
/// then the files, then the symlinks.
pub open spec fn directory_children(rs: Seq<Resource>, dir: Seq<char>) -> Seq<(int, Seq<char>)> {
    children_of(rs, dir, 0) + children_of(rs, dir, 1) + children_of(rs, dir, 2)
}

/// Whether the first `i` items of a list of names hold `name`.
pub open spec fn holds_text(v: Seq<Seq<char>>, name: Seq<char>) -> bool {
    v.contains(name)
}

/// Whether two sets of helper collections agree on all but the
/// predecessor relation.
pub open spec fn same_sets(a: ValidationHelpers, b: ValidationHelpers) -> bool {
    &&& a.origins@ == b.origins@
    &&& a.requires@ == b.requires@
    &&& a.triggers@ == b.triggers@
    &&& a.file_paths@ == b.file_paths@
    &&& a.paths@ == b.paths@
    &&& a.group_names@ == b.group_names@
    &&& a.user_names@ == b.user_names@
    &&& a.apt_package_names@ == b.apt_package_names@
    &&& a.execute_names@ == b.execute_names@
    &&& a.host_ip_addresses@ == b.host_ip_addresses@
}

/// Whether two sets of helper collections agree on all but the field `f`
/// (0 the paths, 1 the group names, 2 the user names, 3 the package names,
/// 4 the execute names, 5 the host addresses).
pub open spec fn same_helpers_but(a: ValidationHelpers, b: ValidationHelpers, f: int) -> bool {
    &&& a.predecessors@ == b.predecessors@
    &&& a.origins@ == b.origins@
    &&& a.requires@ == b.requires@
    &&& a.triggers@ == b.triggers@
    &&& a.file_paths@ == b.file_paths@
    &&& (f != 0 ==> a.paths@ == b.paths@)
    &&& (f != 1 ==> a.group_names@ == b.group_names@)
    &&& (f != 2 ==> a.user_names@ == b.user_names@)
    &&& (f != 3 ==> a.apt_package_names@ == b.apt_package_names@)
    &&& (f != 4 ==> a.execute_names@ == b.execute_names@)
    &&& (f != 5 ==> a.host_ip_addresses@ == b.host_ip_addresses@)
}

impl Client {
    /// Checks that no other resource manages the path of a file, and that no
    /// file resource manages its parent.
    pub fn validate_file(&mut self, file: &File) -> (r: Result<(), String>)
        ensures
            ({
                let rep = rep_of(file.metadata.kind, file.parameters.path@);
                let c = path_check(texts(old(self).temporary.paths@), texts(old(self).temporary.file_paths@),
                    file.parameters.path@, rep, file_parent_message(rep, parent_display(file.parameters.path@)));
                &&& r is Ok <==> c is Ok
                &&& r matches Err(m) ==> m@ == c->Err_0
            }),
            !holds_path(texts(old(self).temporary.paths@), file.parameters.path@) ==> texts(final(self).temporary.paths@)
                == texts(old(self).temporary.paths@).push(file.parameters.path@),
            holds_path(texts(old(self).temporary.paths@), file.parameters.path@) ==> final(self).temporary.paths@
                == old(self).temporary.paths@,
            final(self).resources@ == old(self).resources@,
            final(self).temporary.predecessors@ == old(self).temporary.predecessors@,
            final(self).temporary.file_paths@ == old(self).temporary.file_paths@,
            same_helpers_but(old(self).temporary, final(self).temporary, 0),
    {
        let path = file.parameters.path.as_str();
        let rep = kind_repr(file.metadata.kind, path);
        if !insert_path(&mut self.temporary.paths, path) {
            return Err(message5("`", rep.as_str(), "`: path `", path,
                "` appears in multiple resources, must be unique among resources of type `file`, `symlink` and `directory`"));
        }
        let cs = components_of(path);
        if cs.len() > 0 && contains_parent(&self.temporary.file_paths, path) {
            let parent = parent_text(path);
            return Err(message5("`", rep.as_str(), "`: another file `", parent.as_str(),
                "` is found to be a parent of this file, but files cannot be parents to other files"));
        }
        Ok(())
    }
}

/// The views of child nodes.
pub open spec fn child_views(s: Seq<ChildNode>) -> Seq<(int, Seq<char>)> {
    s.map_values(|c: ChildNode| child_view(c))
}

/// Appends the child nodes of kind `tag` of the directory at `dir` found among `rs`.
fn collect_children(rs: &Vec<Resource>, dir: &str, tag: u8, out: &mut Vec<ChildNode>)
    requires
        tag < 3,
    ensures
        child_views(final(out)@) == child_views(old(out)@) + children_of(rs@, dir@, tag as int),
{
    let ghost start = child_views(out@);
    let mut i: usize = 0;
    assert(rs@.take(0) =~= Seq::<Resource>::empty());
    assert(start + children_of(Seq::<Resource>::empty(), dir@, tag as int) =~= start);
    while i < rs.len()
        invariant
            i <= rs.len(),
            tag < 3,
            child_views(out@) == start + children_of(rs@.take(i as int), dir@, tag as int),
        decreases rs.len() - i,
    {
        let ghost before = out@;
        assert(rs@.take(i + 1).drop_last() =~= rs@.take(i as int));
        assert(rs@.take(i + 1).last() == rs@[i as int]);
        match &rs[i] {
            Resource::Directory(x) => {
                if tag == 0 && parent_of(dir, x.parameters.path.as_str()) {
                    out.push(ChildNode::Directory { path: x.parameters.path.clone() });
                    assert(child_views(out@) =~= child_views(before).push((0, x.parameters.path@)));
                }
            },
            Resource::File(x) => {
                if tag == 1 && parent_of(dir, x.parameters.path.as_str()) {
                    out.push(ChildNode::File { path: x.parameters.path.clone() });
                    assert(child_views(out@) =~= child_views(before).push((1, x.parameters.path@)));
                }
            },
            Resource::Symlink(x) => {
                if tag == 2 && parent_of(dir, x.parameters.path.as_str()) {
                    out.push(ChildNode::Symlink { path: x.parameters.path.clone() });
                    assert(child_views(out@) =~= child_views(before).push((2, x.parameters.path@)));
                }
            },
            _ => {},
        }
        i = i + 1;
    }
    assert(rs@.take(rs.len() as int) =~= rs@);
}

/// What the uniqueness check of a value gives.
pub open spec fn value_check(
    seen: Seq<Seq<char>>,
    value: Seq<char>,
    rep: Seq<char>,
    what: Seq<char>,
    kind: ResourceType,
    rule: Seq<char>,
) -> Result<(), Seq<char>> {
    if seen.contains(value) {
        Err(duplicate_value_message(rep, what, value, kind, rule))
    } else {
        Ok(())
    }
}

/// The position of the first file resource at `path` among `rs`.
pub open spec fn first_file_at(rs: Seq<Resource>, path: Seq<char>) -> Option<int> {
    if exists|i: int| 0 <= i < rs.len() && #[trigger] is_file_at(rs[i], path)
            && forall|j: int| 0 <= j < i ==> !#[trigger] is_file_at(rs[j], path) {
        Some(choose|i: int| 0 <= i < rs.len() && #[trigger] is_file_at(rs[i], path)
            && forall|j: int| 0 <= j < i ==> !#[trigger] is_file_at(rs[j], path))
    } else {
        None
    }
}

pub open spec fn is_file_at(r: Resource, path: Seq<char>) -> bool {
    r matches Resource::File(f) && same_path(f.parameters.path@, path)
}

/// What the checks of a `host` resource give: its address must be unique,
/// and the file it writes to must not have its contents managed.
pub open spec fn host_check(seen: Seq<IpAddress>, rs: Seq<Resource>, h: Host) -> Result<(), Seq<char>> {
    let rep = rep_of(h.metadata.kind, ip_to_text(h.parameters.ip_address));
    if seen.contains(h.parameters.ip_address) {
        Err(duplicate_value_message(rep, "IP address"@, ip_to_text(h.parameters.ip_address), h.metadata.kind,
            "must be unique among host entries"@))
    } else {
        match first_file_at(rs, h.parameters.target@) {
            Some(i) => match rs[i] {
                Resource::File(f) => if f.parameters.content is Some || f.parameters.source is Some {
                    Err(host_conflict_message(rep, rep_of(f.metadata.kind, f.parameters.path@)))
                } else {
                    Ok(())
                },
                _ => Ok(()),
            },
            None => Ok(()),
        }
    }
}

fn find_file_at<'a>(rs: &'a Vec<Resource>, path: &str) -> (r: Option<&'a File>)
    ensures
        match first_file_at(rs@, path@) {
            Some(i) => r is Some && rs@[i] == Resource::File(*r->0),
            None => r is None,
        },
{
    let mut i: usize = 0;
    while i < rs.len()
        invariant
            i <= rs.len(),
            forall|j: int| 0 <= j < i ==> !#[trigger] is_file_at(rs@[j], path@),
        decreases rs.len() - i,
    {
        if let Resource::File(f) = &rs[i] {
            if path_eq(f.parameters.path.as_str(), path) {
                assert(is_file_at(rs@[i as int], path@));
                let ghost k = choose|k: int| 0 <= k < rs@.len() && #[trigger] is_file_at(rs@[k], path@)
                    && forall|j: int| 0 <= j < k ==> !#[trigger] is_file_at(rs@[j], path@);
                assert(k == i) by {
                    if k < i {
                        assert(!is_file_at(rs@[k], path@));
                    } else if k > i {
                        assert(!is_file_at(rs@[i as int], path@));
                    }
                }
                return Some(f);
            }
        }
        i = i + 1;
    }
    None
}

impl Client {
    /// Checks that no other resource manages the path of a directory and
    /// that no file resource manages its parent, then records the managed
    /// nodes in it.
    pub fn validate_directory(&mut self, directory: &mut Directory) -> (r: Result<(), String>)
        ensures
            ({
                let path = old(directory).parameters.path@;
                let rep = rep_of(old(directory).metadata.kind, path);
                let c = path_check(texts(old(self).temporary.paths@), texts(old(self).temporary.file_paths@),
                    path, rep, directory_parent_message(rep, parent_display(path)));
                &&& r is Ok <==> c is Ok
                &&& r matches Err(m) ==> m@ == c->Err_0
                &&& r is Ok ==> child_views(final(directory).relationships.children@)
                    == child_views(old(directory).relationships.children@) + directory_children(old(self).resources@, path)
            }),
            !holds_path(texts(old(self).temporary.paths@), old(directory).parameters.path@) ==> texts(final(self).temporary.paths@)
                == texts(old(self).temporary.paths@).push(old(directory).parameters.path@),
            holds_path(texts(old(self).temporary.paths@), old(directory).parameters.path@) ==> final(self).temporary.paths@
                == old(self).temporary.paths@,
            final(self).resources@ == old(self).resources@,
            final(self).temporary.predecessors@ == old(self).temporary.predecessors@,
            final(self).temporary.file_paths@ == old(self).temporary.file_paths@,
            final(directory).metadata == old(directory).metadata,
            final(directory).parameters == old(directory).parameters,
            final(directory).relationships.requires == old(directory).relationships.requires,
            final(directory).relationships.after == old(directory).relationships.after,
            final(directory).relationships.triggers == old(directory).relationships.triggers,
            same_helpers_but(old(self).temporary, final(self).temporary, 0),
    {
        let path = directory.parameters.path.as_str();
        let rep = kind_repr(directory.metadata.kind, path);
        if !insert_path(&mut self.temporary.paths, path) {
            return Err(message5("`", rep.as_str(), "`: path `", path,
                "` appears in multiple resources, must be unique among resources of type `file`, `symlink` and `directory`"));
        }
        let cs = components_of(path);
        if cs.len() > 0 && contains_parent(&self.temporary.file_paths, path) {
            let parent = parent_text(path);
            return Err(message5("`", rep.as_str(), "`: file `", parent.as_str(),
                "` is found to be a parent of this directory, but files cannot be parents to directories"));
        }
        let own = directory.parameters.path.clone();
        collect_children(&self.resources, own.as_str(), 0, &mut directory.relationships.children);
        collect_children(&self.resources, own.as_str(), 1, &mut directory.relationships.children);
        collect_children(&self.resources, own.as_str(), 2, &mut directory.relationships.children);
        Ok(())
    }

    /// Checks that no other resource manages the path of a symlink, and that
    /// no file resource manages its parent.
    pub fn validate_symlink(&mut self, symlink: &Symlink) -> (r: Result<(), String>)
        ensures
            ({
                let rep = rep_of(symlink.metadata.kind, symlink.parameters.path@);
                let c = path_check(texts(old(self).temporary.paths@), texts(old(self).temporary.file_paths@),
                    symlink.parameters.path@, rep, symlink_parent_message(rep, parent_display(symlink.parameters.path@)));
                &&& r is Ok <==> c is Ok
                &&& r matches Err(m) ==> m@ == c->Err_0
            }),
            !holds_path(texts(old(self).temporary.paths@), symlink.parameters.path@) ==> texts(final(self).temporary.paths@)
                == texts(old(self).temporary.paths@).push(symlink.parameters.path@),
            holds_path(texts(old(self).temporary.paths@), symlink.parameters.path@) ==> final(self).temporary.paths@
                == old(self).temporary.paths@,
            final(self).resources@ == old(self).resources@,
            final(self).temporary.predecessors@ == old(self).temporary.predecessors@,
            final(self).temporary.file_paths@ == old(self).temporary.file_paths@,
            same_helpers_but(old(self).temporary, final(self).temporary, 0),
    {
        let path = symlink.parameters.path.as_str();
        let rep = kind_repr(symlink.metadata.kind, path);
        if !insert_path(&mut self.temporary.paths, path) {
            return Err(message5("`", rep.as_str(), "`: path `", path,
                "` appears in multiple resources, must be unique among resources of type `file`, `symlink` and `directory`"));
        }
        let cs = components_of(path);
        if cs.len() > 0 && contains_parent(&self.temporary.file_paths, path) {
            let parent = parent_text(path);
            return Err(message5("`", rep.as_str(), "`: file `", parent.as_str(),
                "` is found to be a parent of this symlink, but files cannot be parents to symlinks"));
        }
        Ok(())
    }

    /// Checks that no other `host` resource has the same address, and that
    /// no file resource manages the contents of the file it writes to.
    pub fn validate_host(&mut self, host: &Host) -> (r: Result<(), String>)
        ensures
            r is Ok <==> host_check(old(self).temporary.host_ip_addresses@, old(self).resources@, *host) is Ok,
            r matches Err(m) ==> m@ == host_check(old(self).temporary.host_ip_addresses@, old(self).resources@, *host)->Err_0,
            final(self).temporary.host_ip_addresses@ == (if old(self).temporary.host_ip_addresses@.contains(host.parameters.ip_address) {
                old(self).temporary.host_ip_addresses@
            } else {
                old(self).temporary.host_ip_addresses@.push(host.parameters.ip_address)
            }),
            final(self).resources@ == old(self).resources@,
            final(self).temporary.predecessors@ == old(self).temporary.predecessors@,
            final(self).temporary.paths@ == old(self).temporary.paths@,
            final(self).temporary.file_paths@ == old(self).temporary.file_paths@,
            same_helpers_but(old(self).temporary, final(self).temporary, 5),
    {
        let ip = ip_address_text(&host.parameters.ip_address);
        let rep = kind_repr(host.metadata.kind, ip.as_str());
        if !insert_address(&mut self.temporary.host_ip_addresses, host.parameters.ip_address) {
            return Err(message10("`", rep.as_str(), "`: ", "IP address", " `", ip.as_str(),
                "` appears in multiple `", host.metadata.kind.as_str(), "` resources, ", "must be unique among host entries"));
        }
        if let Some(file) = find_file_at(&self.resources, host.parameters.target.as_str()) {
            if file.parameters.content.is_some() || file.parameters.source.is_some() {
                let frep = kind_repr(file.metadata.kind, file.parameters.path.as_str());
                return Err(message5("`", rep.as_str(), "`: resource conflicts with `", frep.as_str(),
                    "` whose `content` or `source` parameters are set"));
            }
        }
        Ok(())
    }

    /// Checks that no other `group` resource has the same name.
    pub fn validate_group(&mut self, group: &Group) -> (r: Result<(), String>)
        ensures
            ({
                let c = value_check(texts(old(self).temporary.group_names@), group.parameters.name@,
                    rep_of(group.metadata.kind, group.parameters.name@), "group name"@, group.metadata.kind,
                    "group names must be unique"@);
                &&& r is Ok <==> c is Ok
                &&& r matches Err(m) ==> m@ == c->Err_0
                &&& texts(final(self).temporary.group_names@) == (if c is Ok {
                    texts(old(self).temporary.group_names@).push(group.parameters.name@)
                } else {
                    texts(old(self).temporary.group_names@)
                })
            }),
            final(self).resources@ == old(self).resources@,
            final(self).temporary.predecessors@ == old(self).temporary.predecessors@,
            same_helpers_but(old(self).temporary, final(self).temporary, 1),
    {
        let name = group.parameters.name.as_str();
        let rep = kind_repr(group.metadata.kind, name);
        if !insert_text(&mut self.temporary.group_names, name) {
            return Err(message10("`", rep.as_str(), "`: ", "group name", " `", name,
                "` appears in multiple `", group.metadata.kind.as_str(), "` resources, ", "group names must be unique"));
        }
        Ok(())
    }

    /// Checks that no other `user` resource has the same name.
    pub fn validate_user(&mut self, user: &User) -> (r: Result<(), String>)
        ensures
            ({
                let c = value_check(texts(old(self).temporary.user_names@), user.parameters.name@,
                    rep_of(user.metadata.kind, user.parameters.name@), "user name"@, user.metadata.kind,
                    "user names must be unique"@);
                &&& r is Ok <==> c is Ok
                &&& r matches Err(m) ==> m@ == c->Err_0
                &&& texts(final(self).temporary.user_names@) == (if c is Ok {
                    texts(old(self).temporary.user_names@).push(user.parameters.name@)
                } else {
                    texts(old(self).temporary.user_names@)
                })
            }),
            final(self).resources@ == old(self).resources@,
            final(self).temporary.predecessors@ == old(self).temporary.predecessors@,
            same_helpers_but(old(self).temporary, final(self).temporary, 2),
    {
        let name = user.parameters.name.as_str();
        let rep = kind_repr(user.metadata.kind, name);
        if !insert_text(&mut self.temporary.user_names, name) {
            return Err(message10("`", rep.as_str(), "`: ", "user name", " `", name,
                "` appears in multiple `", user.metadata.kind.as_str(), "` resources, ", "user names must be unique"));
        }
        Ok(())
    }

    /// Checks that no other `apt::package` resource has the same name.
    pub fn validate_apt_package(&mut self, package: &AptPackage) -> (r: Result<(), String>)
        ensures
            ({
                let c = value_check(texts(old(self).temporary.apt_package_names@), package.parameters.name@,
                    rep_of(package.metadata.kind, package.parameters.name@), "package name"@, package.metadata.kind,
                    "package names must be unique"@);
                &&& r is Ok <==> c is Ok
                &&& r matches Err(m) ==> m@ == c->Err_0
                &&& texts(final(self).temporary.apt_package_names@) == (if c is Ok {
                    texts(old(self).temporary.apt_package_names@).push(package.parameters.name@)
                } else {
                    texts(old(self).temporary.apt_package_names@)
                })
            }),
            final(self).resources@ == old(self).resources@,
            final(self).temporary.predecessors@ == old(self).temporary.predecessors@,
            same_helpers_but(old(self).temporary, final(self).temporary, 3),
    {
        let name = package.parameters.name.as_str();
        let rep = kind_repr(package.metadata.kind, name);
        if !insert_text(&mut self.temporary.apt_package_names, name) {
            return Err(message10("`", rep.as_str(), "`: ", "package name", " `", name,
                "` appears in multiple `", package.metadata.kind.as_str(), "` resources, ", "package names must be unique"));
        }
        Ok(())
    }

    /// Checks that no other `execute` resource has the same name.
    pub fn validate_execute(&mut self, execute: &Execute) -> (r: Result<(), String>)
        ensures
            ({
                let c = value_check(texts(old(self).temporary.execute_names@), execute.parameters.name@,
                    rep_of(execute.metadata.kind, execute.parameters.name@), "name"@, execute.metadata.kind,
                    "resource names must be unique"@);
                &&& r is Ok <==> c is Ok
                &&& r matches Err(m) ==> m@ == c->Err_0
                &&& texts(final(self).temporary.execute_names@) == (if c is Ok {
                    texts(old(self).temporary.execute_names@).push(execute.parameters.name@)
                } else {
                    texts(old(self).temporary.execute_names@)
                })
            }),
            final(self).resources@ == old(self).resources@,
            final(self).temporary.predecessors@ == old(self).temporary.predecessors@,
            same_helpers_but(old(self).temporary, final(self).temporary, 4),
    {
        let name = execute.parameters.name.as_str();
        let rep = kind_repr(execute.metadata.kind, name);
        if !insert_text(&mut self.temporary.execute_names, name) {
            return Err(message10("`", rep.as_str(), "`: ", "name", " `", name,
                "` appears in multiple `", execute.metadata.kind.as_str(), "` resources, ", "resource names must be unique"));
        }
        Ok(())
    }
}

/// Whether `b` holds the edges of `a` first, in order.
pub open spec fn grows<A>(a: Seq<A>, b: Seq<A>) -> bool {
    a.len() <= b.len() && b.take(a.len() as int) == a
}

/// The position of the first resource of `rs` that a dependency names.
pub open spec fn first_named(rs: Seq<Resource>, d: Dependency) -> Option<int> {
    if exists|i: int| 0 <= i < rs.len() && #[trigger] names(d, rs[i])
            && forall|j: int| 0 <= j < i ==> !#[trigger] names(d, rs[j]) {
        Some(choose|i: int| 0 <= i < rs.len() && #[trigger] names(d, rs[i])
            && forall|j: int| 0 <= j < i ==> !#[trigger] names(d, rs[j]))
    } else {
        None
    }
}

/// The position of the first `execute` resource of `rs` that a trigger names.
pub open spec fn first_triggered(rs: Seq<Resource>, t: Trigger) -> Option<int> {
    if exists|i: int| 0 <= i < rs.len() && #[trigger] trigger_names(t, rs[i])
            && forall|j: int| 0 <= j < i ==> !#[trigger] trigger_names(t, rs[j]) {
        Some(choose|i: int| 0 <= i < rs.len() && #[trigger] trigger_names(t, rs[i])
            && forall|j: int| 0 <= j < i ==> !#[trigger] trigger_names(t, rs[j]))
    } else {
        None
    }
}

/// The list stored under key `id` in a list of entries, as a map lookup gives it.
pub open spec fn entry_of<V>(entries: Seq<(String, V)>, id: Seq<char>) -> Option<V> {
    if exists|i: int| 0 <= i < entries.len() && #[trigger] entries[i].0@ == id
            && forall|j: int| 0 <= j < i ==> #[trigger] entries[j].0@ != id {
        let i = choose|i: int| 0 <= i < entries.len() && #[trigger] entries[i].0@ == id
            && forall|j: int| 0 <= j < i ==> #[trigger] entries[j].0@ != id;
        Some(entries[i].1)
    } else {
        None
    }
}

/// Whether the triggers stored for resource `id` name resource `r`.
pub open spec fn triggered_by(entries: Seq<(String, Vec<Trigger>)>, id: Seq<char>, r: Resource) -> bool {
    match entry_of(entries, id) {
        Some(ts) => exists|k: int| 0 <= k < ts@.len() && #[trigger] trigger_names(ts@[k], r),
        None => false,
    }
}

/// The position of the entry stored under key `id`.
pub(crate) fn entry_index<V>(entries: &Vec<(String, V)>, id: &str) -> (r: Option<usize>)
    ensures
        match r {
            Some(i) => i < entries@.len() && entry_of(entries@, id@) == Some(entries@[i as int].1)
                && entries@[i as int].0@ == id@,
            None => entry_of(entries@, id@) is None,
        },
{
    let mut i: usize = 0;
    while i < entries.len()
        invariant
            i <= entries.len(),
            forall|j: int| 0 <= j < i ==> #[trigger] entries@[j].0@ != id@,
        decreases entries.len() - i,
    {
        if str_eq(entries[i].0.as_str(), id) {
            let ghost k = choose|k: int| 0 <= k < entries@.len() && #[trigger] entries@[k].0@ == id@
                && forall|j: int| 0 <= j < k ==> #[trigger] entries@[j].0@ != id@;
            assert(k == i) by {
                if k < i {
                    assert(entries@[k].0@ != id@);
                } else if k > i {
                    assert(entries@[i as int].0@ != id@);
                }
            }
            return Some(i);
        }
        i = i + 1;
    }
    None
}

/// Whether one of the triggers names the resource.
fn any_names(ts: &Vec<Trigger>, r: &Resource) -> (b: bool)
    ensures
        b == exists|k: int| 0 <= k < ts@.len() && #[trigger] trigger_names(ts@[k], *r),
{
    let mut k: usize = 0;
    while k < ts.len()
        invariant
            k <= ts.len(),
            forall|j: int| 0 <= j < k ==> !#[trigger] trigger_names(ts@[j], *r),
        decreases ts.len() - k,
    {
        if ts[k].names(r) {
            return true;
        }
        k = k + 1;
    }
    false
}

impl Client {
    /// The hostname of the client.
    pub fn name(&self) -> (r: &Hostname)
        ensures
            r == &self.name,
    {
        &self.name
    }

    /// The first resource of the catalog that a dependency names.
    pub fn resolve_dependency(&self, dependency: &Dependency) -> (r: Option<&Resource>)
        ensures
            match first_named(self.resources@, *dependency) {
                Some(i) => r == Some(&self.resources@[i]),
                None => r is None,
            },
    {
        let mut i: usize = 0;
        while i < self.resources.len()
            invariant
                i <= self.resources.len(),
                forall|j: int| 0 <= j < i ==> !#[trigger] names(*dependency, self.resources@[j]),
            decreases self.resources.len() - i,
        {
            if dependency.names(&self.resources[i]) {
                let ghost k = choose|k: int| 0 <= k < self.resources@.len() && #[trigger] names(*dependency, self.resources@[k])
                    && forall|j: int| 0 <= j < k ==> !#[trigger] names(*dependency, self.resources@[j]);
                assert(k == i) by {
                    if k < i {
                        assert(!names(*dependency, self.resources@[k]));
                    } else if k > i {
                        assert(!names(*dependency, self.resources@[i as int]));
                    }
                }
                return Some(&self.resources[i]);
            }
            i = i + 1;
        }
        None
    }

    /// The first `execute` resource of the catalog that a trigger names,
    /// with the actions upon which it runs.
    pub fn resolve_trigger<'a>(&'a self, trigger: &'a Trigger) -> (r: Option<(&'a Execute, &'a [Action])>)
        ensures
            match first_triggered(self.resources@, *trigger) {
                Some(i) => r matches Some(p) && self.resources@[i] == Resource::Execute(*p.0)
                    && p.1@ == (match *trigger { Trigger::Execute { actions, .. } => actions@ }),
                None => r is None,
            },
    {
        let mut i: usize = 0;
        while i < self.resources.len()
            invariant
                i <= self.resources.len(),
                forall|j: int| 0 <= j < i ==> !#[trigger] trigger_names(*trigger, self.resources@[j]),
            decreases self.resources.len() - i,
        {
            if trigger.names(&self.resources[i]) {
                proof {
                    lemma_trigger_names_execute(*trigger, self.resources@[i as int]);
                }
                let ghost k = choose|k: int| 0 <= k < self.resources@.len() && #[trigger] trigger_names(*trigger, self.resources@[k])
                    && forall|j: int| 0 <= j < k ==> !#[trigger] trigger_names(*trigger, self.resources@[j]);
                assert(k == i) by {
                    if k < i {
                        assert(!trigger_names(*trigger, self.resources@[k]));
                    } else if k > i {
                        assert(!trigger_names(*trigger, self.resources@[i as int]));
                    }
                }
                match &self.resources[i] {
                    Resource::Execute(x) => {
                        match trigger {
                            Trigger::Execute { actions, .. } => {
                                return Some((x, actions.as_slice()));
                            },
                        }
                    },
                    _ => {
                        return None;
                    },
                }
            }
            i = i + 1;
        }
        None
    }
}

proof fn lemma_grows_contains<A>(a: Seq<A>, b: Seq<A>, e: A)
    requires
        grows(a, b),
        a.contains(e),
    ensures
        b.contains(e),
{
    let i = choose|i: int| 0 <= i < a.len() && a[i] == e;
    assert(b.take(a.len() as int)[i] == b[i]);
}

proof fn lemma_grows_insert<A>(a: Seq<A>, b: Seq<A>, e: A)
    requires
        b == a || b == a.push(e),
    ensures
        grows(a, b),
{
    assert(b.take(a.len() as int) =~= a);
}

proof fn lemma_grows_trans<A>(a: Seq<A>, b: Seq<A>, c: Seq<A>)
    requires
        grows(a, b),
        grows(b, c),
    ensures
        grows(a, c),
{
    assert(c.take(a.len() as int) =~= a) by {
        assert forall|i: int| 0 <= i < a.len() implies c.take(a.len() as int)[i] == a[i] by {
            assert(c.take(b.len() as int)[i] == b[i]);
            assert(b.take(a.len() as int)[i] == a[i]);
        }
    }
}

/// Whether a stated dependency of `r` resolves to `o` among `rs`.
pub open spec fn explicit_names(t: ValidationHelpers, r: Resource, rs: Seq<Resource>, o: Resource) -> bool {
    exists|m: int| 0 <= m < requires_of(t.requires@, rid(r)).len()
        && #[trigger] dep_target(rs, requires_of(t.requires@, rid(r))[m]) == o
}

/// Whether some edge added to `g0` to give `g` leads to `id`.
pub open spec fn edge_to(g0: Seq<Edge>, g: Seq<Edge>, id: Seq<char>) -> bool {
    exists|q: int| g0.len() <= q < g.len() && (#[trigger] g[q]).1 == id
}

/// Whether metadata `m` names a resource of `rs` that an edge added to
/// `g0` to give `g` leads to.
pub open spec fn pred_ok(m: ResourceMetadata, g0: Seq<Edge>, g: Seq<Edge>, rs: Seq<Resource>) -> bool {
    exists|p: int| 0 <= p < rs.len() && m.kind == meta(rs[p]).kind && m.id@ == rid(#[trigger] rs[p])
        && edge_to(g0, g, rid(rs[p]))
}

/// Whether metadata `m` names a resource of `rs` that an edge added to
/// `g0` to give `g` leads to, and that `r` must depend on or a stated
/// dependency of `r` resolves to.
pub open spec fn req_ok(m: ResourceMetadata, g0: Seq<Edge>, g: Seq<Edge>, t: ValidationHelpers, r: Resource, rs: Seq<Resource>) -> bool {
    exists|p: int| 0 <= p < rs.len() && m.kind == meta(rs[p]).kind && m.id@ == rid(#[trigger] rs[p])
        && edge_to(g0, g, rid(rs[p])) && (must_depend(r, rs[p]) || explicit_names(t, r, rs, rs[p]))
}

/// Whether validating `r` among `rs` took it from `a` to `b` and the
/// relation from `g0` to `g` adding links and nothing else: the edges added
/// leave `r`, differ from each other and from those before; each
/// predecessor added names a resource that an added edge leads to, and
/// each requirement added one that `r` must depend on or that a stated
/// dependency resolves to; none of the ids added repeats.
pub open spec fn fresh_links(g0: Seq<Edge>, g: Seq<Edge>, rs: Seq<Resource>, t: ValidationHelpers, r: Resource, a: Resource, b: Resource) -> bool {
    let pa = predecessors(a);
    let pb = predecessors(b);
    let qa = requirements(a);
    let qb = requirements(b);
    &&& keeps_links(a, b)
    &&& grows(g0, g)
    &&& edges_from(g0, g, rid(r))
    &&& forall|q: int| g0.len() <= q < g.len() ==> !g0.contains(#[trigger] g[q])
    &&& forall|q1: int, q2: int| g0.len() <= q1 < q2 < g.len() ==> #[trigger] g[q1] != #[trigger] g[q2]
    &&& forall|x: int| pa.len() <= x < pb.len() ==> #[trigger] pred_ok(pb[x], g0, g, rs)
    &&& forall|x: int, y: int| pa.len() <= x < y < pb.len() ==> (#[trigger] pb[x]).id@ != (#[trigger] pb[y]).id@
    &&& forall|x: int| qa.len() <= x < qb.len() ==> #[trigger] req_ok(qb[x], g0, g, t, r, rs)
    &&& forall|x: int, y: int| qa.len() <= x < y < qb.len() ==> (#[trigger] qb[x]).id@ != (#[trigger] qb[y]).id@
}

proof fn lemma_fl_refl(g: Seq<Edge>, rs: Seq<Resource>, t: ValidationHelpers, r: Resource, a: Resource)
    ensures
        fresh_links(g, g, rs, t, r, a, a),
{
    lemma_keeps_refl(a);
    lemma_grows_insert(g, g, (rid(r), rid(r)));
}

/// Adding edge `e` to `r`'s resource `p` of `rs`, with its metadata `m`
/// added to the predecessors and, where `req`, to the requirements.
proof fn lemma_fl_push(
    g0: Seq<Edge>, gb: Seq<Edge>, rs: Seq<Resource>, t: ValidationHelpers, r: Resource,
    a: Resource, b: Resource, c: Resource, p: int, m: ResourceMetadata, mr: ResourceMetadata, req: bool,
)
    requires
        fresh_links(g0, gb, rs, t, r, a, b),
        0 <= p < rs.len(),
        !gb.contains((rid(r), rid(rs[p]))),
        m.kind == meta(rs[p]).kind,
        m.id@ == rid(rs[p]),
        mr.kind == meta(rs[p]).kind,
        mr.id@ == rid(rs[p]),
        keeps_links(b, c),
        predecessors(c) == predecessors(b).push(m),
        requirements(c) == (if req { requirements(b).push(mr) } else { requirements(b) }),
        req ==> must_depend(r, rs[p]) || explicit_names(t, r, rs, rs[p]),
    ensures
        fresh_links(g0, gb.push((rid(r), rid(rs[p]))), rs, t, r, a, c),
{
    let e = (rid(r), rid(rs[p]));
    let g = gb.push(e);
    lemma_keeps_trans(a, b, c);
    lemma_grows_insert(gb, g, e);
    lemma_grows_trans(g0, gb, g);
    assert forall|q: int| g0.len() <= q < g.len() implies (#[trigger] g[q]).0 == rid(r) by {
        if q < gb.len() {
            assert(gb[q].0 == rid(r));
        }
    }
    assert forall|q: int| g0.len() <= q < g.len() implies !g0.contains(#[trigger] g[q]) by {
        if q < gb.len() {
            assert(!g0.contains(gb[q]));
        } else if g0.contains(e) {
            let k = choose|k: int| 0 <= k < g0.len() && g0[k] == e;
            assert(gb.take(g0.len() as int)[k] == gb[k]);
            assert(gb.contains(e));
        }
    }
    assert forall|q1: int, q2: int| g0.len() <= q1 < q2 < g.len() implies #[trigger] g[q1] != #[trigger] g[q2] by {
        if q2 == gb.len() {
            assert(g[q1] == gb[q1]);
            if gb[q1] == e {
                assert(gb.contains(e));
            }
        } else {
            assert(g[q1] == gb[q1] && g[q2] == gb[q2]);
        }
    }
    let pa = predecessors(a);
    let pb = predecessors(b);
    let pc = predecessors(c);
    let qa = requirements(a);
    let qb = requirements(b);
    let qc = requirements(c);
    assert forall|id: Seq<char>| edge_to(g0, gb, id) implies edge_to(g0, g, id) by {
        let q = choose|q: int| g0.len() <= q < gb.len() && (#[trigger] gb[q]).1 == id;
        assert(g[q] == gb[q]);
    }
    assert(g[gb.len() as int] == e);
    assert(edge_to(g0, g, rid(rs[p])));
    assert forall|id: Seq<char>| edge_to(g0, gb, id) implies id != rid(rs[p]) by {
        let q = choose|q: int| g0.len() <= q < gb.len() && (#[trigger] gb[q]).1 == id;
        if id == rid(rs[p]) {
            assert(gb[q] == e);
            assert(gb.contains(e));
        }
    }
    assert forall|x: int| pa.len() <= x < pc.len() implies #[trigger] pred_ok(pc[x], g0, g, rs) by {
        if x < pb.len() {
            assert(pc[x] == pb[x]);
            assert(pred_ok(pb[x], g0, gb, rs));
            let pp = choose|pp: int| 0 <= pp < rs.len() && pb[x].kind == meta(rs[pp]).kind && pb[x].id@ == rid(#[trigger] rs[pp])
                && edge_to(g0, gb, rid(rs[pp]));
            assert(edge_to(g0, g, rid(rs[pp])));
        } else {
            assert(pc[x] == m);
        }
    }
    assert forall|x: int, y: int| pa.len() <= x < y < pc.len() implies (#[trigger] pc[x]).id@ != (#[trigger] pc[y]).id@ by {
        if y < pb.len() {
            assert(pc[x] == pb[x] && pc[y] == pb[y]);
        } else {
            assert(pc[y] == m && pc[x] == pb[x]);
            assert(pred_ok(pb[x], g0, gb, rs));
            let pp = choose|pp: int| 0 <= pp < rs.len() && pb[x].kind == meta(rs[pp]).kind && pb[x].id@ == rid(#[trigger] rs[pp])
                && edge_to(g0, gb, rid(rs[pp]));
        }
    }
    assert forall|x: int| qa.len() <= x < qc.len() implies #[trigger] req_ok(qc[x], g0, g, t, r, rs) by {
        if x < qb.len() {
            assert(qc[x] == qb[x]);
            assert(req_ok(qb[x], g0, gb, t, r, rs));
            let pp = choose|pp: int| 0 <= pp < rs.len() && qb[x].kind == meta(rs[pp]).kind && qb[x].id@ == rid(#[trigger] rs[pp])
                && edge_to(g0, gb, rid(rs[pp])) && (must_depend(r, rs[pp]) || explicit_names(t, r, rs, rs[pp]));
            assert(edge_to(g0, g, rid(rs[pp])));
        } else {
            assert(qc[x] == mr);
        }
    }
    assert forall|x: int, y: int| qa.len() <= x < y < qc.len() implies (#[trigger] qc[x]).id@ != (#[trigger] qc[y]).id@ by {
        if y < qb.len() {
            assert(qc[x] == qb[x] && qc[y] == qb[y]);
        } else {
            assert(qc[y] == mr && qc[x] == qb[x]);
            assert(req_ok(qb[x], g0, gb, t, r, rs));
            let pp = choose|pp: int| 0 <= pp < rs.len() && qb[x].kind == meta(rs[pp]).kind && qb[x].id@ == rid(#[trigger] rs[pp])
                && edge_to(g0, gb, rid(rs[pp])) && (must_depend(r, rs[pp]) || explicit_names(t, r, rs, rs[pp]));
        }
    }
}

proof fn lemma_fl_same(
    g0: Seq<Edge>, g: Seq<Edge>, rs: Seq<Resource>, t: ValidationHelpers, t2: ValidationHelpers, r: Resource, r2: Resource,
    a: Resource, b: Resource,
)
    requires
        fresh_links(g0, g, rs, t, r, a, b),
        same_params(r, r2),
        t.requires@ == t2.requires@,
    ensures
        fresh_links(g0, g, rs, t2, r2, a, b),
{
    lemma_same_params(r, r2);
    let qa = requirements(a);
    let qb = requirements(b);
    assert forall|x: int| qa.len() <= x < qb.len() implies #[trigger] req_ok(qb[x], g0, g, t2, r2, rs) by {
        assert(req_ok(qb[x], g0, g, t, r, rs));
        let pp = choose|pp: int| 0 <= pp < rs.len() && qb[x].kind == meta(rs[pp]).kind && qb[x].id@ == rid(#[trigger] rs[pp])
            && edge_to(g0, g, rid(rs[pp])) && (must_depend(r, rs[pp]) || explicit_names(t, r, rs, rs[pp]));
        if explicit_names(t, r, rs, rs[pp]) {
            let m = choose|m: int| 0 <= m < requires_of(t.requires@, rid(r)).len()
                && #[trigger] dep_target(rs, requires_of(t.requires@, rid(r))[m]) == rs[pp];
            assert(dep_target(rs, requires_of(t2.requires@, rid(r2))[m]) == rs[pp]);
        }
    }
}

/// One run of added links after another.
proof fn lemma_fl_trans(
    g0: Seq<Edge>, g1: Seq<Edge>, g2: Seq<Edge>, rs: Seq<Resource>, t: ValidationHelpers, r: Resource,
    a: Resource, b: Resource, c: Resource,
)
    requires
        fresh_links(g0, g1, rs, t, r, a, b),
        fresh_links(g1, g2, rs, t, r, b, c),
    ensures
        fresh_links(g0, g2, rs, t, r, a, c),
{
    lemma_keeps_trans(a, b, c);
    lemma_grows_trans(g0, g1, g2);
    lemma_edges_from_trans(g0, g1, g2, rid(r));
    assert forall|q: int| g0.len() <= q < g1.len() implies g2[q] == g1[q] by {
        assert(g2.take(g1.len() as int)[q] == g2[q]);
    }
    assert forall|q: int| 0 <= q < g0.len() implies g1[q] == g0[q] by {
        assert(g1.take(g0.len() as int)[q] == g1[q]);
    }
    assert forall|q: int| g0.len() <= q < g2.len() implies !g0.contains(#[trigger] g2[q]) by {
        if q < g1.len() {
            assert(!g0.contains(g1[q]));
        } else if g0.contains(g2[q]) {
            let k = choose|k: int| 0 <= k < g0.len() && g0[k] == g2[q];
            assert(g1[k] == g0[k]);
            assert(g1.contains(g2[q]));
        }
    }
    assert forall|q1: int, q2: int| g0.len() <= q1 < q2 < g2.len() implies #[trigger] g2[q1] != #[trigger] g2[q2] by {
        if q2 < g1.len() {
            assert(g1[q1] != g1[q2]);
        } else if q1 >= g1.len() {
        } else {
            assert(g2[q1] == g1[q1]);
            assert(!g1.contains(g2[q2]));
        }
    }
    let pa = predecessors(a);
    let pb = predecessors(b);
    let pc = predecessors(c);
    let qa = requirements(a);
    let qb = requirements(b);
    let qc = requirements(c);
    assert forall|id: Seq<char>| edge_to(g0, g1, id) implies edge_to(g0, g2, id) by {
        let q = choose|q: int| g0.len() <= q < g1.len() && (#[trigger] g1[q]).1 == id;
        assert(g2[q] == g1[q]);
    }
    assert forall|id: Seq<char>| edge_to(g1, g2, id) implies edge_to(g0, g2, id) by {
        let q = choose|q: int| g1.len() <= q < g2.len() && (#[trigger] g2[q]).1 == id;
    }
    assert forall|id: Seq<char>| edge_to(g0, g1, id) && edge_to(g1, g2, id) implies false by {
        let q1 = choose|q: int| g0.len() <= q < g1.len() && (#[trigger] g1[q]).1 == id;
        let q2 = choose|q: int| g1.len() <= q < g2.len() && (#[trigger] g2[q]).1 == id;
        assert(g1[q1].0 == rid(r) && g2[q2].0 == rid(r));
        assert(g2[q1] == g1[q1]);
        assert(g2[q1] == g2[q2]);
    }
    assert forall|x: int| pa.len() <= x < pc.len() implies #[trigger] pred_ok(pc[x], g0, g2, rs) by {
        if x < pb.len() {
            assert(pc.take(pb.len() as int)[x] == pc[x]);
            assert(pred_ok(pb[x], g0, g1, rs));
            let pp = choose|pp: int| 0 <= pp < rs.len() && pb[x].kind == meta(rs[pp]).kind && pb[x].id@ == rid(#[trigger] rs[pp])
                && edge_to(g0, g1, rid(rs[pp]));
            assert(edge_to(g0, g2, rid(rs[pp])));
        } else {
            assert(pred_ok(pc[x], g1, g2, rs));
            let pp = choose|pp: int| 0 <= pp < rs.len() && pc[x].kind == meta(rs[pp]).kind && pc[x].id@ == rid(#[trigger] rs[pp])
                && edge_to(g1, g2, rid(rs[pp]));
            assert(edge_to(g0, g2, rid(rs[pp])));
        }
    }
    assert forall|x: int, y: int| pa.len() <= x < y < pc.len() implies (#[trigger] pc[x]).id@ != (#[trigger] pc[y]).id@ by {
        if y < pb.len() {
            assert(pc.take(pb.len() as int)[x] == pc[x]);
            assert(pc.take(pb.len() as int)[y] == pc[y]);
            assert(pb[x].id@ != pb[y].id@);
        } else if x >= pb.len() {
        } else {
            assert(pc.take(pb.len() as int)[x] == pc[x]);
            assert(pred_ok(pb[x], g0, g1, rs));
            assert(pred_ok(pc[y], g1, g2, rs));
            let p1 = choose|pp: int| 0 <= pp < rs.len() && pb[x].kind == meta(rs[pp]).kind && pb[x].id@ == rid(#[trigger] rs[pp])
                && edge_to(g0, g1, rid(rs[pp]));
            let p2 = choose|pp: int| 0 <= pp < rs.len() && pc[y].kind == meta(rs[pp]).kind && pc[y].id@ == rid(#[trigger] rs[pp])
                && edge_to(g1, g2, rid(rs[pp]));
            if pc[x].id@ == pc[y].id@ {
                assert(edge_to(g0, g1, rid(rs[p2])));
            }
        }
    }
    assert forall|x: int| qa.len() <= x < qc.len() implies #[trigger] req_ok(qc[x], g0, g2, t, r, rs) by {
        if x < qb.len() {
            assert(qc.take(qb.len() as int)[x] == qc[x]);
            assert(req_ok(qb[x], g0, g1, t, r, rs));
            let pp = choose|pp: int| 0 <= pp < rs.len() && qb[x].kind == meta(rs[pp]).kind && qb[x].id@ == rid(#[trigger] rs[pp])
                && edge_to(g0, g1, rid(rs[pp])) && (must_depend(r, rs[pp]) || explicit_names(t, r, rs, rs[pp]));
            assert(edge_to(g0, g2, rid(rs[pp])));
        } else {
            assert(req_ok(qc[x], g1, g2, t, r, rs));
            let pp = choose|pp: int| 0 <= pp < rs.len() && qc[x].kind == meta(rs[pp]).kind && qc[x].id@ == rid(#[trigger] rs[pp])
                && edge_to(g1, g2, rid(rs[pp])) && (must_depend(r, rs[pp]) || explicit_names(t, r, rs, rs[pp]));
            assert(edge_to(g0, g2, rid(rs[pp])));
        }
    }
    assert forall|x: int, y: int| qa.len() <= x < y < qc.len() implies (#[trigger] qc[x]).id@ != (#[trigger] qc[y]).id@ by {
        if y < qb.len() {
            assert(qc.take(qb.len() as int)[x] == qc[x]);
            assert(qc.take(qb.len() as int)[y] == qc[y]);
            assert(qb[x].id@ != qb[y].id@);
        } else if x >= qb.len() {
        } else {
            assert(qc.take(qb.len() as int)[x] == qc[x]);
            assert(req_ok(qb[x], g0, g1, t, r, rs));
            assert(req_ok(qc[y], g1, g2, t, r, rs));
            let p1 = choose|pp: int| 0 <= pp < rs.len() && qb[x].kind == meta(rs[pp]).kind && qb[x].id@ == rid(#[trigger] rs[pp])
                && edge_to(g0, g1, rid(rs[pp])) && (must_depend(r, rs[pp]) || explicit_names(t, r, rs, rs[pp]));
            let p2 = choose|pp: int| 0 <= pp < rs.len() && qc[y].kind == meta(rs[pp]).kind && qc[y].id@ == rid(#[trigger] rs[pp])
                && edge_to(g1, g2, rid(rs[pp])) && (must_depend(r, rs[pp]) || explicit_names(t, r, rs, rs[pp]));
            if qc[x].id@ == qc[y].id@ {
                assert(edge_to(g0, g1, rid(rs[p2])));
            }
        }
    }
}

/// Whether a list of metadata names resource `o`: its kind and its id.
pub open spec fn names_meta(s: Seq<ResourceMetadata>, o: Resource) -> bool {
    exists|i: int| 0 <= i < s.len() && (#[trigger] s[i]).kind == meta(o).kind && s[i].id@ == rid(o)
}

/// Whether `b` is `a` with requirements and predecessors added at the end:
/// the same parameters and child nodes, and the lists of `a` first.
pub open spec fn keeps_links(a: Resource, b: Resource) -> bool {
    &&& same_params(a, b)
    &&& grows(requirements(a), requirements(b))
    &&& grows(predecessors(a), predecessors(b))
    &&& child_nodes(b) == child_nodes(a)
}

/// The resource that dependency `d` resolves to among `rs`: the first that
/// it names.
pub open spec fn dep_target(rs: Seq<Resource>, d: Dependency) -> Resource {
    rs[first_named(rs, d)->0]
}

/// The edge that a dependency `d` of `r` resolved among `rs` records.
pub open spec fn dep_edge(r: Resource, rs: Seq<Resource>, d: Dependency) -> Edge {
    (rid(r), rid(dep_target(rs, d)))
}

/// Whether edge `q` of `g` records that `r` comes after a resource of `rs`
/// that the parameters or a trigger link it to.
pub open spec fn implicit_edge(g: Seq<Edge>, q: int, t: ValidationHelpers, r: Resource, rs: Seq<Resource>) -> bool {
    exists|p: int| 0 <= p < rs.len() && g[q] == (rid(r), rid(rs[p])) && #[trigger] implicit_link(t, r, rs[p])
}

/// Whether `r`, validated from `r0` with the helpers `t`, records the
/// resource that its stated dependency `d` resolves to among `rs`: among its
/// predecessors and its requirements, except where the dependency only
/// repeats an order that a trigger already gave an `execute` resource.
pub open spec fn explicit_recorded(t: ValidationHelpers, r0: Resource, rs: Seq<Resource>, d: Dependency, r: Resource) -> bool {
    let o = dep_target(rs, d);
    (must_depend(r0, o) || !(meta(r0).kind == ResourceType::Execute && triggered_by(t.triggers@, rid(o), r0)))
        ==> names_meta(requirements(r), o) && names_meta(predecessors(r), o)
}

/// Whether edge `q` of `g` records that `r` comes after a resource of `rs`
/// that the parameters, a trigger or a stated dependency link it to.
pub open spec fn justified_edge(g: Seq<Edge>, q: int, t: ValidationHelpers, r: Resource, rs: Seq<Resource>) -> bool {
    exists|p: int| 0 <= p < rs.len() && g[q] == (rid(r), rid(#[trigger] rs[p]))
        && (implicit_link(t, r, rs[p]) || explicit_names(t, r, rs, rs[p]))
}

/// Whether every edge added to `g0` to give `g` leaves `id`.
pub open spec fn edges_from(g0: Seq<Edge>, g: Seq<Edge>, id: Seq<char>) -> bool {
    forall|q: int| g0.len() <= q < g.len() ==> (#[trigger] g[q]).0 == id
}

/// Whether the target of edge `q` of `g` is a resource of `rs` that the
/// predecessors of `r` name.
pub open spec fn edge_named(g: Seq<Edge>, q: int, rs: Seq<Resource>, r: Resource) -> bool {
    exists|p: int| 0 <= p < rs.len() && g[q].1 == rid(rs[p]) && #[trigger] names_meta(predecessors(r), rs[p])
}

/// Whether each edge added to `g0` to give `g` leads to a resource of `rs`
/// that the predecessors of `r` name.
pub open spec fn edges_named(g0: Seq<Edge>, g: Seq<Edge>, rs: Seq<Resource>, r: Resource) -> bool {
    forall|q: int| g0.len() <= q < g.len() ==> #[trigger] edge_named(g, q, rs, r)
}

proof fn lemma_edges_named_step(g0: Seq<Edge>, g1: Seq<Edge>, g2: Seq<Edge>, rs: Seq<Resource>, r1: Resource, r2: Resource)
    requires
        grows(g0, g1),
        grows(g1, g2),
        keeps_links(r1, r2),
        edges_named(g0, g1, rs, r1),
        edges_named(g1, g2, rs, r2),
    ensures
        edges_named(g0, g2, rs, r2),
{
    assert forall|q: int| g0.len() <= q < g2.len() implies #[trigger] edge_named(g2, q, rs, r2) by {
        if q < g1.len() {
            assert(g2.take(g1.len() as int)[q] == g2[q]);
            assert(edge_named(g1, q, rs, r1));
            let p = choose|p: int| 0 <= p < rs.len() && g1[q].1 == rid(rs[p]) && #[trigger] names_meta(predecessors(r1), rs[p]);
            lemma_names_kept(r1, r2, rs[p]);
            assert(names_meta(predecessors(r2), rs[p]));
        }
    }
}

proof fn lemma_keeps_trans(a: Resource, b: Resource, c: Resource)
    requires
        keeps_links(a, b),
        keeps_links(b, c),
    ensures
        keeps_links(a, c),
{
    lemma_grows_trans(requirements(a), requirements(b), requirements(c));
    lemma_grows_trans(predecessors(a), predecessors(b), predecessors(c));
}

proof fn lemma_keeps_refl(a: Resource)
    ensures
        keeps_links(a, a),
{
    lemma_grows_insert(requirements(a), requirements(a), meta(a));
    lemma_grows_insert(predecessors(a), predecessors(a), meta(a));
}

proof fn lemma_names_kept(a: Resource, b: Resource, o: Resource)
    requires
        keeps_links(a, b),
    ensures
        names_meta(requirements(a), o) ==> names_meta(requirements(b), o),
        names_meta(predecessors(a), o) ==> names_meta(predecessors(b), o),
{
    if names_meta(requirements(a), o) {
        let s = requirements(a);
        let i = choose|i: int| 0 <= i < s.len() && (#[trigger] s[i]).kind == meta(o).kind && s[i].id@ == rid(o);
        assert(requirements(b).take(s.len() as int)[i] == requirements(b)[i]);
    }
    if names_meta(predecessors(a), o) {
        let s = predecessors(a);
        let i = choose|i: int| 0 <= i < s.len() && (#[trigger] s[i]).kind == meta(o).kind && s[i].id@ == rid(o);
        assert(predecessors(b).take(s.len() as int)[i] == predecessors(b)[i]);
    }
}

proof fn lemma_names_push(s: Seq<ResourceMetadata>, m: ResourceMetadata, o: Resource)
    requires
        m.kind == meta(o).kind,
        m.id@ == rid(o),
    ensures
        names_meta(s.push(m), o),
{
    assert(s.push(m)[s.len() as int] == m);
}

proof fn lemma_edges_from_trans(g0: Seq<Edge>, g1: Seq<Edge>, g2: Seq<Edge>, id: Seq<char>)
    requires
        grows(g0, g1),
        grows(g1, g2),
        edges_from(g0, g1, id),
        edges_from(g1, g2, id),
    ensures
        edges_from(g0, g2, id),
{
    assert forall|q: int| g0.len() <= q < g2.len() implies (#[trigger] g2[q]).0 == id by {
        if q < g1.len() {
            assert(g2.take(g1.len() as int)[q] == g2[q]);
            assert(g1[q].0 == id);
        }
    }
}

/// The message for a dependency that the parameters call for but that
/// would close a loop.
pub open spec fn implicit_loop_message(rep: Seq<char>, other: Seq<char>) -> Seq<char> {
    "`"@ + rep + "`: resource must depend on `"@ + other
        + "`, but the current configuration would introduce a loop"@
}

/// The message for an order that a trigger calls for but that would close
/// a loop.
pub open spec fn trigger_loop_message(rep: Seq<char>, other: Seq<char>) -> Seq<char> {
    "`"@ + rep + "`: resource must be applied after `"@ + other
        + "` as per the `triggers` parameter, but the current configuration would introduce a loop"@
}

/// Whether validating `r` records that it comes after `o`: `r` must depend
/// on `o`, or `r` is a command that `o` triggers.
pub open spec fn implicit_link(t: ValidationHelpers, r: Resource, o: Resource) -> bool {
    ||| must_depend(r, o)
    ||| (meta(r).kind == ResourceType::Execute && triggered_by(t.triggers@, rid(o), r))
}

/// Whether `h` holds each edge that validating `r` among `rs` records
/// without a statement of the configuration.
pub open spec fn implicit_links_in(h: Seq<Edge>, t: ValidationHelpers, r: Resource, rs: Seq<Resource>) -> bool {
    forall|p: int| 0 <= p < rs.len() && #[trigger] implicit_link(t, r, rs[p]) ==> h.contains((rid(r), rid(rs[p])))
}

proof fn lemma_implicit_link_same(t: ValidationHelpers, a: Resource, b: Resource, o: Resource)
    requires
        same_params(a, b),
    ensures
        implicit_link(t, a, o) == implicit_link(t, b, o),
{
    lemma_same_params(a, b);
    if let Some(ts) = entry_of(t.triggers@, rid(o)) {
        if triggered_by(t.triggers@, rid(o), a) {
            let k = choose|k: int| 0 <= k < ts@.len() && #[trigger] trigger_names(ts@[k], a);
            assert(trigger_names(ts@[k], b));
        }
        if triggered_by(t.triggers@, rid(o), b) {
            let k = choose|k: int| 0 <= k < ts@.len() && #[trigger] trigger_names(ts@[k], b);
            assert(trigger_names(ts@[k], a));
        }
    }
}

impl Client {
    /// Records the dependencies that `resource` must have on the other
    /// resources of the catalog, and, for an `execute` resource, that it is
    /// applied after the resources that trigger it; fails where a record
    /// would close a loop.
    pub fn link_implicit(&mut self, resource: &mut Resource) -> (r: Result<(), String>)
        requires
            acyclic(old(self).temporary.predecessors@),
            forall|p: int| 0 <= p < old(self).resources@.len() ==> rid(#[trigger] old(self).resources@[p]) != rid(*old(resource)),
        ensures
            same_sets(old(self).temporary, final(self).temporary),
            acyclic(final(self).temporary.predecessors@),
            grows(old(self).temporary.predecessors@, final(self).temporary.predecessors@),
            final(self).resources@ == old(self).resources@,
            final(self).temporary.requires@ == old(self).temporary.requires@,
            final(self).temporary.triggers@ == old(self).temporary.triggers@,
            same_params(*old(resource), *final(resource)),
            r is Ok ==> forall|p: int| 0 <= p < old(self).resources@.len() && #[trigger] must_depend(*old(resource), old(self).resources@[p])
                ==> final(self).temporary.predecessors@.contains((rid(*old(resource)), rid(old(self).resources@[p]))),
            r is Ok ==> forall|p: int| 0 <= p < old(self).resources@.len() && meta(*old(resource)).kind == ResourceType::Execute
                && #[trigger] triggered_by(old(self).temporary.triggers@, rid(old(self).resources@[p]), *old(resource))
                ==> final(self).temporary.predecessors@.contains((rid(*old(resource)), rid(old(self).resources@[p]))),
            keeps_links(*old(resource), *final(resource)),
            edges_from(old(self).temporary.predecessors@, final(self).temporary.predecessors@, rid(*old(resource))),
            fresh_links(old(self).temporary.predecessors@, final(self).temporary.predecessors@, old(self).resources@,
                old(self).temporary, *old(resource), *old(resource), *final(resource)),
            edges_named(old(self).temporary.predecessors@, final(self).temporary.predecessors@, old(self).resources@, *final(resource)),
            forall|q: int| old(self).temporary.predecessors@.len() <= q < final(self).temporary.predecessors@.len()
                ==> #[trigger] implicit_edge(final(self).temporary.predecessors@, q, old(self).temporary, *old(resource), old(self).resources@),
            r is Ok && distinct_ids(old(self).resources@)
                && (forall|q: int| 0 <= q < old(self).temporary.predecessors@.len()
                    ==> (#[trigger] old(self).temporary.predecessors@[q]).0 != rid(*old(resource)))
                ==> forall|p: int| 0 <= p < old(self).resources@.len() && #[trigger] must_depend(*old(resource), old(self).resources@[p])
                    ==> names_meta(requirements(*final(resource)), old(self).resources@[p])
                        && names_meta(predecessors(*final(resource)), old(self).resources@[p]),
            forall|h: Seq<Edge>| #[trigger] acyclic(h) && subgraph(old(self).temporary.predecessors@, h)
                && implicit_links_in(h, old(self).temporary, *old(resource), old(self).resources@)
                ==> r is Ok && subgraph(final(self).temporary.predecessors@, h),
    {
        let ghost r0 = *resource;
        let ghost g0 = self.temporary.predecessors@;
        let ghost t0 = self.temporary;
        let me = resource.metadata().clone();
        let rep = resource.repr();
        let is_execute = resource.kind() == ResourceType::Execute;
        let n = self.resources.len();
        let mut k: usize = 0;
        let ghost nofrom = distinct_ids(self.resources@)
            && (forall|q: int| 0 <= q < g0.len() ==> (#[trigger] g0[q]).0 != rid(r0));
        assert(g0.take(g0.len() as int) =~= g0);
        proof {
            lemma_keeps_refl(r0);
            lemma_fl_refl(g0, self.resources@, t0, r0, r0);
        }
        while k < n
            invariant
                k <= n,
                n == self.resources@.len(),
                r0 == *old(resource),
                g0 == old(self).temporary.predecessors@,
                same_sets(old(self).temporary, self.temporary),
                self.resources@ == old(self).resources@,
                self.temporary.requires@ == old(self).temporary.requires@,
                self.temporary.triggers@ == old(self).temporary.triggers@,
                acyclic(self.temporary.predecessors@),
                grows(g0, self.temporary.predecessors@),
                same_params(r0, *resource),
                me.id@ == rid(r0),
                rep@ == repr(r0),
                is_execute == (meta(r0).kind == ResourceType::Execute),
                forall|p: int| 0 <= p < n ==> rid(#[trigger] self.resources@[p]) != rid(r0),
                forall|p: int| 0 <= p < k && #[trigger] must_depend(r0, self.resources@[p])
                    ==> self.temporary.predecessors@.contains((rid(r0), rid(self.resources@[p]))),
                forall|p: int| 0 <= p < k && is_execute
                    && #[trigger] triggered_by(self.temporary.triggers@, rid(self.resources@[p]), r0)
                    ==> self.temporary.predecessors@.contains((rid(r0), rid(self.resources@[p]))),
                t0 == old(self).temporary,
                self.temporary.triggers@ == t0.triggers@,
                forall|h: Seq<Edge>| #[trigger] acyclic(h) && subgraph(g0, h) && implicit_links_in(h, t0, r0, self.resources@)
                    ==> subgraph(self.temporary.predecessors@, h),
                keeps_links(r0, *resource),
                edges_named(g0, self.temporary.predecessors@, self.resources@, *resource),
                fresh_links(g0, self.temporary.predecessors@, self.resources@, t0, r0, r0, *resource),
                forall|q: int| g0.len() <= q < self.temporary.predecessors@.len()
                    ==> #[trigger] implicit_edge(self.temporary.predecessors@, q, t0, r0, self.resources@),
                nofrom == (distinct_ids(self.resources@)
                    && (forall|q: int| 0 <= q < g0.len() ==> (#[trigger] g0[q]).0 != rid(r0))),
                forall|q: int| g0.len() <= q < self.temporary.predecessors@.len()
                    ==> (#[trigger] self.temporary.predecessors@[q]).0 == rid(r0)
                        && exists|p: int| 0 <= p < k && self.temporary.predecessors@[q].1 == #[trigger] rid(self.resources@[p]),
                nofrom ==> forall|p: int| 0 <= p < k && #[trigger] must_depend(r0, self.resources@[p])
                    ==> names_meta(requirements(*resource), self.resources@[p])
                        && names_meta(predecessors(*resource), self.resources@[p]),
            decreases n - k,
        {
            let ghost gk = self.temporary.predecessors@;
            let ghost rk = *resource;
            let ghost tk = self.temporary;
            let ghost ek = (rid(r0), rid(self.resources@[k as int]));
            proof {
                if nofrom {
                    if gk.contains(ek) {
                        let q = choose|q: int| 0 <= q < gk.len() && gk[q] == ek;
                        if q < g0.len() {
                            assert(g0[q].0 != rid(r0));
                            assert(gk.take(g0.len() as int)[q] == gk[q]);
                        } else {
                            let p = choose|p: int| 0 <= p < k && gk[q].1 == #[trigger] rid(self.resources@[p]);
                            assert(rid(self.resources@[p]) != rid(self.resources@[k as int]));
                        }
                        assert(false);
                    }
                }
            }
            proof {
                lemma_same_params(r0, *resource);
                lemma_implicit_link_same(t0, r0, rk, self.resources@[k as int]);
                assert(implicit_link(tk, rk, self.resources@[k as int]) == implicit_link(t0, rk, self.resources@[k as int]));
            }
            match self.link_one(resource, k, &me, &rep, is_execute) {
                Ok(()) => {},
                Err(m) => {
                    proof {
                        lemma_same_params(rk, *resource);
                        lemma_grows_trans(g0, gk, self.temporary.predecessors@);
                        assert forall|h: Seq<Edge>| #[trigger] acyclic(h) && subgraph(g0, h)
                            && implicit_links_in(h, t0, r0, self.resources@) implies false by {
                            assert(subgraph(gk, h));
                        }
                        lemma_keeps_trans(r0, rk, *resource);
                        let g = self.temporary.predecessors@;
                        lemma_edges_named_step(g0, gk, g, self.resources@, rk, *resource);
                        lemma_fl_same(gk, g, self.resources@, tk, t0, rk, r0, rk, *resource);
                        lemma_fl_trans(g0, gk, g, self.resources@, t0, r0, r0, rk, *resource);
                        assert forall|q: int| g0.len() <= q < g.len() implies #[trigger] implicit_edge(g, q, t0, r0, self.resources@) by {
                            if q < gk.len() {
                                assert(g.take(gk.len() as int)[q] == g[q]);
                                assert(implicit_edge(gk, q, t0, r0, self.resources@));
                                let p = choose|p: int| 0 <= p < self.resources@.len() && gk[q] == (rid(r0), rid(self.resources@[p]))
                                    && #[trigger] implicit_link(t0, r0, self.resources@[p]);
                                assert(g[q] == (rid(r0), rid(self.resources@[p])));
                            } else {
                                assert(g[q] == (rid(rk), rid(self.resources@[k as int])));
                                assert(implicit_link(t0, r0, self.resources@[k as int]));
                            }
                        }
                        assert forall|q: int| g0.len() <= q < g.len() implies (#[trigger] g[q]).0 == rid(r0) by {
                            if q < gk.len() {
                                assert(g.take(gk.len() as int)[q] == g[q]);
                                assert(gk[q].0 == rid(r0));
                            } else {
                                assert(g[q] == (rid(rk), rid(self.resources@[k as int])));
                            }
                        }
                    }
                    return Err(m);
                },
            }
            proof {
                lemma_same_params(r0, rk);
                lemma_same_params(rk, *resource);
                let g = self.temporary.predecessors@;
                lemma_grows_trans(g0, gk, g);
                assert forall|p: int| 0 <= p < k + 1 && #[trigger] must_depend(r0, self.resources@[p])
                    implies g.contains((rid(r0), rid(self.resources@[p]))) by {
                    if p < k {
                        lemma_grows_contains(gk, g, (rid(r0), rid(self.resources@[p])));
                    }
                }
                assert forall|p: int| 0 <= p < k + 1 && is_execute
                    && #[trigger] triggered_by(self.temporary.triggers@, rid(self.resources@[p]), r0)
                    implies g.contains((rid(r0), rid(self.resources@[p]))) by {
                    if p < k {
                        lemma_grows_contains(gk, g, (rid(r0), rid(self.resources@[p])));
                    }
                }
                assert forall|h: Seq<Edge>| #[trigger] acyclic(h) && subgraph(g0, h)
                    && implicit_links_in(h, t0, r0, self.resources@) implies subgraph(g, h) by {
                    assert(subgraph(gk, h));
                }
                lemma_keeps_trans(r0, rk, *resource);
                lemma_edges_named_step(g0, gk, g, self.resources@, rk, *resource);
                lemma_fl_same(gk, g, self.resources@, tk, t0, rk, r0, rk, *resource);
                lemma_fl_trans(g0, gk, g, self.resources@, t0, r0, r0, rk, *resource);
                assert forall|q: int| g0.len() <= q < g.len() implies #[trigger] implicit_edge(g, q, t0, r0, self.resources@) by {
                    if q < gk.len() {
                        assert(g.take(gk.len() as int)[q] == g[q]);
                        assert(implicit_edge(gk, q, t0, r0, self.resources@));
                        let p = choose|p: int| 0 <= p < self.resources@.len() && gk[q] == (rid(r0), rid(self.resources@[p]))
                            && #[trigger] implicit_link(t0, r0, self.resources@[p]);
                        assert(g[q] == (rid(r0), rid(self.resources@[p])));
                    } else {
                        assert(g[q] == (rid(rk), rid(self.resources@[k as int])));
                        assert(implicit_link(t0, r0, self.resources@[k as int]));
                    }
                }
                assert forall|q: int| g0.len() <= q < g.len()
                    implies (#[trigger] g[q]).0 == rid(r0)
                        && exists|p: int| 0 <= p < k + 1 && g[q].1 == #[trigger] rid(self.resources@[p]) by {
                    if q < gk.len() {
                        assert(g.take(gk.len() as int)[q] == g[q]);
                        assert(gk[q].0 == rid(r0));
                        let p = choose|p: int| 0 <= p < k && gk[q].1 == #[trigger] rid(self.resources@[p]);
                        assert(g[q].1 == rid(self.resources@[p]));
                    } else {
                        assert(g[q] == (rid(rk), rid(self.resources@[k as int])));
                        assert(g[q].1 == rid(self.resources@[k as int]));
                    }
                }
                if nofrom {
                    assert forall|p: int| 0 <= p < k + 1 && #[trigger] must_depend(r0, self.resources@[p])
                        implies names_meta(requirements(*resource), self.resources@[p])
                            && names_meta(predecessors(*resource), self.resources@[p]) by {
                        if p < k {
                            lemma_names_kept(rk, *resource, self.resources@[p]);
                        } else {
                            assert(must_depend(rk, self.resources@[k as int]));
                        }
                    }
                }
            }
            k = k + 1;
        }
        proof {
            assert forall|q: int| g0.len() <= q < self.temporary.predecessors@.len()
                implies (#[trigger] self.temporary.predecessors@[q]).0 == rid(*old(resource)) by {
            }
        }
        Ok(())
    }

    /// Records the relations of `resource` to the resource at position `k`.
    fn link_one(&mut self, resource: &mut Resource, k: usize, me: &ResourceMetadata, rep: &String, is_execute: bool) -> (r: Result<(), String>)
        requires
            k < old(self).resources@.len(),
            acyclic(old(self).temporary.predecessors@),
            rid(old(self).resources@[k as int]) != rid(*old(resource)),
            me.id@ == rid(*old(resource)),
            rep@ == repr(*old(resource)),
            is_execute == (meta(*old(resource)).kind == ResourceType::Execute),
        ensures
            same_sets(old(self).temporary, final(self).temporary),
            acyclic(final(self).temporary.predecessors@),
            grows(old(self).temporary.predecessors@, final(self).temporary.predecessors@),
            final(self).resources@ == old(self).resources@,
            final(self).temporary.requires@ == old(self).temporary.requires@,
            final(self).temporary.triggers@ == old(self).temporary.triggers@,
            same_params(*old(resource), *final(resource)),
            r is Ok && must_depend(*old(resource), old(self).resources@[k as int])
                ==> final(self).temporary.predecessors@.contains((rid(*old(resource)), rid(old(self).resources@[k as int]))),
            r is Ok && is_execute && triggered_by(old(self).temporary.triggers@, rid(old(self).resources@[k as int]), *old(resource))
                ==> final(self).temporary.predecessors@.contains((rid(*old(resource)), rid(old(self).resources@[k as int]))),
            keeps_links(*old(resource), *final(resource)),
            forall|q: int| old(self).temporary.predecessors@.len() <= q < final(self).temporary.predecessors@.len()
                ==> #[trigger] final(self).temporary.predecessors@[q] == (rid(*old(resource)), rid(old(self).resources@[k as int])),
            final(self).temporary.predecessors@.len() > old(self).temporary.predecessors@.len()
                ==> names_meta(predecessors(*final(resource)), old(self).resources@[k as int])
                    && implicit_link(old(self).temporary, *old(resource), old(self).resources@[k as int]),
            edges_named(old(self).temporary.predecessors@, final(self).temporary.predecessors@, old(self).resources@, *final(resource)),
            fresh_links(old(self).temporary.predecessors@, final(self).temporary.predecessors@, old(self).resources@,
                old(self).temporary, *old(resource), *old(resource), *final(resource)),
            r is Ok && must_depend(*old(resource), old(self).resources@[k as int])
                && !old(self).temporary.predecessors@.contains((rid(*old(resource)), rid(old(self).resources@[k as int])))
                ==> names_meta(requirements(*final(resource)), old(self).resources@[k as int])
                    && names_meta(predecessors(*final(resource)), old(self).resources@[k as int]),
            forall|h: Seq<Edge>| #[trigger] acyclic(h) && subgraph(old(self).temporary.predecessors@, h)
                && (implicit_link(old(self).temporary, *old(resource), old(self).resources@[k as int])
                    ==> h.contains((rid(*old(resource)), rid(old(self).resources@[k as int]))))
                ==> r is Ok && subgraph(final(self).temporary.predecessors@, h),
    {
        let ghost r0 = *resource;
        let ghost gk = self.temporary.predecessors@;
        let ghost t0 = self.temporary;
        let ghost o = self.resources@[k as int];
        let ghost e = (rid(r0), rid(o));
        proof {
            lemma_same_params(r0, *resource);
        }
        let other = &self.resources[k];
        let other_meta = other.metadata().clone();
        assert(rid(self.resources@[k as int]) != rid(r0));
        assert(other_meta.kind == meta(o).kind && other_meta.id@ == rid(o));
        proof {
            lemma_keeps_refl(r0);
            lemma_fl_refl(gk, self.resources@, t0, r0, r0);
        }
        if resource.must_depend_on(other) {
            if self.temporary.predecessors.relationship_introduces_loop(other_meta.id.as_str(), me.id.as_str()) {
                let orep = other.repr();
                proof {
                    lemma_grows_insert(gk, gk, (me.id@, other_meta.id@));
                    assert forall|h: Seq<Edge>| #[trigger] acyclic(h) && subgraph(gk, h)
                        && (implicit_link(t0, r0, o) ==> h.contains(e)) implies false by {
                        lemma_edge_of_acyclic(gk, h, rid(r0), rid(o));
                    }
                }
                return Err(message5("`", rep.as_str(), "`: resource must depend on `", orep.as_str(),
                    "`, but the current configuration would introduce a loop"));
            }
            let ghost gb = self.temporary.predecessors@;
            if self.temporary.predecessors.insert(me.id.as_str(), other_meta.id.as_str()) {
                proof {
                    lemma_add_edge_keeps_acyclic(gb, me.id@, other_meta.id@);
                }
                let ghost ra = *resource;
                let m1 = other_meta.clone();
                resource.push_requirement(m1);
                let ghost rb = *resource;
                let m2 = other_meta.clone();
                resource.push_predecessor(m2);
                proof {
                    lemma_names_push(requirements(ra), m1, o);
                    lemma_names_push(predecessors(rb), m2, o);
                    lemma_grows_insert(requirements(ra), requirements(*resource), m1);
                    lemma_grows_insert(predecessors(ra), predecessors(*resource), m2);
                    lemma_keeps_trans(r0, ra, *resource);
                    assert(keeps_links(ra, *resource));
                    lemma_fl_push(gb, gb, self.resources@, t0, r0, r0, ra, *resource, k as int, m2, m1, true);
                    assert(self.temporary.predecessors@ == gb.push((rid(r0), rid(self.resources@[k as int]))));
                }
            }
            proof {
                lemma_grows_insert(gb, self.temporary.predecessors@, (me.id@, other_meta.id@));
                assert forall|h: Seq<Edge>| #[trigger] acyclic(h) && subgraph(gk, h)
                    && (implicit_link(t0, r0, o) ==> h.contains(e))
                    implies subgraph(self.temporary.predecessors@, h) by {
                    if self.temporary.predecessors@ != gk {
                        lemma_subgraph_push(gk, h, e);
                    }
                }
            }
            assert(self.temporary.predecessors@.contains((me.id@, other_meta.id@))) by {
                if !gb.contains((me.id@, other_meta.id@)) {
                    assert(self.temporary.predecessors@.last() == (me.id@, other_meta.id@));
                }
            }
        }
        let ghost gm = self.temporary.predecessors@;
        let ghost rm = *resource;
        assert(grows(gk, gm)) by {
            if gm == gk {
                lemma_grows_insert(gk, gm, (me.id@, other_meta.id@));
            }
        }
        assert(gm == gk || gm == gk.push(e));
        assert(keeps_links(r0, rm));
        assert(gm.len() > gk.len() ==> names_meta(predecessors(rm), o));
        assert(must_depend(r0, o) && !gk.contains(e) ==> names_meta(requirements(rm), o) && names_meta(predecessors(rm), o));
        assert(fresh_links(gk, gm, self.resources@, t0, r0, r0, rm));
        if is_execute {
            let slot = entry_index(&self.temporary.triggers, other_meta.id.as_str());
            let fires = match slot {
                Some(t) => any_names(&self.temporary.triggers[t].1, resource),
                None => false,
            };
            proof {
                if fires {
                    let t = slot->0;
                    let ts = self.temporary.triggers@[t as int].1;
                    lemma_same_params(r0, *resource);
                    assert(slot is Some);
                    assert(exists|kk: int| 0 <= kk < ts@.len() && #[trigger] trigger_names(ts@[kk], *resource));
                    let kk = choose|kk: int| 0 <= kk < ts@.len() && #[trigger] trigger_names(ts@[kk], *resource);
                    assert(trigger_names(ts@[kk], r0));
                    assert(self.temporary.triggers@ == t0.triggers@);
                    assert(other_meta.id@ == rid(o));
                    assert(entry_of(t0.triggers@, rid(o)) == Some(ts));
                    assert(entry_of(t0.triggers@, rid(o)) is Some);
                    assert(entry_of(t0.triggers@, rid(o))->0 == ts);
                    assert(triggered_by(t0.triggers@, rid(o), r0));
                }
            }
            if fires {
                if self.temporary.predecessors.relationship_introduces_loop(other_meta.id.as_str(), me.id.as_str()) {
                    let orep = self.resources[k].repr();
                    proof {
                        let gc = self.temporary.predecessors@;
                        assert forall|h: Seq<Edge>| #[trigger] acyclic(h) && subgraph(gk, h)
                            && (implicit_link(t0, r0, o) ==> h.contains(e)) implies false by {
                            assert(implicit_link(t0, r0, o));
                            if gc != gk {
                                lemma_subgraph_push(gk, h, e);
                            }
                            lemma_edge_of_acyclic(gc, h, rid(r0), rid(o));
                        }
                    }
                    return Err(message5("`", rep.as_str(), "`: resource must be applied after `", orep.as_str(),
                        "` as per the `triggers` parameter, but the current configuration would introduce a loop"));
                }
                let ghost gb = self.temporary.predecessors@;
                let ghost ra = *resource;
                if self.temporary.predecessors.insert(me.id.as_str(), other_meta.id.as_str()) {
                    proof {
                        lemma_add_edge_keeps_acyclic(gb, me.id@, other_meta.id@);
                    }
                    let m2 = other_meta.clone();
                    resource.push_predecessor(m2);
                    proof {
                        lemma_names_push(predecessors(ra), m2, o);
                        lemma_grows_insert(requirements(ra), requirements(*resource), m2);
                        lemma_grows_insert(predecessors(ra), predecessors(*resource), m2);
                        assert(keeps_links(ra, *resource));
                        assert(ra == rm && gb == gm);
                        lemma_fl_push(gk, gb, self.resources@, t0, r0, r0, ra, *resource, k as int, m2, m2, false);
                    }
                }
                proof {
                    lemma_grows_insert(gb, self.temporary.predecessors@, (me.id@, other_meta.id@));
                    assert forall|h: Seq<Edge>| #[trigger] acyclic(h) && subgraph(gk, h)
                        && (implicit_link(t0, r0, o) ==> h.contains(e))
                        implies subgraph(self.temporary.predecessors@, h) by {
                        assert(implicit_link(t0, r0, o));
                        if gb != gk {
                            lemma_subgraph_push(gk, h, e);
                        }
                        if self.temporary.predecessors@ != gb {
                            lemma_subgraph_push(gb, h, e);
                        }
                    }
                }
                assert(self.temporary.predecessors@.contains((me.id@, other_meta.id@))) by {
                    if !gb.contains((me.id@, other_meta.id@)) {
                        assert(self.temporary.predecessors@.last() == (me.id@, other_meta.id@));
                    }
                }
            }
        }
        proof {
            lemma_same_params(r0, *resource);
            let g = self.temporary.predecessors@;
            if g == gm {
                lemma_grows_insert(gm, g, (me.id@, other_meta.id@));
            }
            lemma_grows_trans(gk, gm, g);
            if must_depend(r0, self.resources@[k as int]) {
                lemma_grows_contains(gm, g, (rid(r0), rid(self.resources@[k as int])));
            }
            assert(g == gm || g == gm.push(e));
            lemma_keeps_refl(rm);
            assert(keeps_links(rm, *resource));
            lemma_keeps_trans(r0, rm, *resource);
            lemma_names_kept(rm, *resource, o);
            assert forall|q: int| gk.len() <= q < g.len() implies #[trigger] edge_named(g, q, self.resources@, *resource) by {
                assert(g[q] == e);
                assert(names_meta(predecessors(*resource), self.resources@[k as int]));
            }
        }
        Ok(())
    }
}

/// Whether a dependency that the configuration states for `r` names `o`.
pub open spec fn explicit_link(t: ValidationHelpers, r: Resource, o: Resource) -> bool {
    exists|j: int| 0 <= j < requires_of(t.requires@, rid(r)).len() && #[trigger] names(requires_of(t.requires@, rid(r))[j], o)
}

/// Whether `h` holds each edge from `r` to a resource of `rs` that a
/// dependency stated for `r` names.
pub open spec fn explicit_links_in(h: Seq<Edge>, t: ValidationHelpers, r: Resource, rs: Seq<Resource>) -> bool {
    forall|p: int| 0 <= p < rs.len() && #[trigger] explicit_link(t, r, rs[p]) ==> h.contains((rid(r), rid(rs[p])))
}

/// Whether dependency `d` of `r` names no other than a resource of `rs`
/// that `r` may depend on, the first one it names.
pub open spec fn dependency_resolves(rs: Seq<Resource>, r: Resource, d: Dependency) -> bool {
    &&& !names(d, r)
    &&& first_named(rs, d) matches Some(i) && may_depend(r, rs[i])
}

/// Whether each dependency stated for `r` resolves among `rs`.
pub open spec fn deps_resolve(t: ValidationHelpers, r: Resource, rs: Seq<Resource>) -> bool {
    forall|j: int| 0 <= j < requires_of(t.requires@, rid(r)).len()
        ==> #[trigger] dependency_resolves(rs, r, requires_of(t.requires@, rid(r))[j])
}

/// Whether a stated dependency of resource `r` resolves to a resource of
/// `rs` that `r` may depend on, and that dependency is recorded in `g`.
pub open spec fn explicit_ok(rs: Seq<Resource>, g: Seq<(Seq<char>, Seq<char>)>, r: Resource, d: Dependency) -> bool {
    &&& !names(d, r)
    &&& first_named(rs, d) matches Some(i) && may_depend(r, rs[i]) && g.contains((rid(r), rid(rs[i])))
}

/// Whether a trigger of resource `r` fails: it names `r` itself or no
/// resource of `rs`.
pub open spec fn trigger_fails(rs: Seq<Resource>, r: Resource, t: Trigger) -> bool {
    trigger_names(t, r) || first_triggered(rs, t) is None
}

/// The position of the first failing trigger.
pub open spec fn first_failing_trigger(rs: Seq<Resource>, r: Resource, ts: Seq<Trigger>) -> Option<int> {
    if exists|k: int| 0 <= k < ts.len() && #[trigger] trigger_fails(rs, r, ts[k])
            && forall|j: int| 0 <= j < k ==> !#[trigger] trigger_fails(rs, r, ts[j]) {
        Some(choose|k: int| 0 <= k < ts.len() && #[trigger] trigger_fails(rs, r, ts[k])
            && forall|j: int| 0 <= j < k ==> !#[trigger] trigger_fails(rs, r, ts[j]))
    } else {
        None
    }
}

/// The message for the first failing trigger.
pub open spec fn trigger_message(r: Resource, t: Trigger) -> Seq<char> {
    if trigger_names(t, r) {
        "`"@ + repr(r) + "`: resource cannot trigger itself"@
    } else {
        "`"@ + repr(r) + "`: resource triggers `"@ + trigger_repr(t) + "` which is undefined"@
    }
}

/// The id of the resource that a trigger resolves to.
pub open spec fn trigger_target(rs: Seq<Resource>, t: Trigger) -> Seq<char> {
    rid(rs[first_triggered(rs, t)->0])
}

/// The actions of a trigger.
pub open spec fn trigger_actions(t: Trigger) -> Seq<Action> {
    match t {
        Trigger::Execute { actions, .. } => actions@,
    }
}

impl Client {
    /// Records the dependencies that the configuration states for
    /// `resource`; fails where one names the resource itself, names no
    /// resource, names one it may not depend on, or would close a loop.
    pub fn link_explicit(&mut self, resource: &mut Resource) -> (r: Result<(), String>)
        requires
            acyclic(old(self).temporary.predecessors@),
            forall|p: int| 0 <= p < old(self).resources@.len() ==> rid(#[trigger] old(self).resources@[p]) != rid(*old(resource)),
        ensures
            same_sets(old(self).temporary, final(self).temporary),
            acyclic(final(self).temporary.predecessors@),
            grows(old(self).temporary.predecessors@, final(self).temporary.predecessors@),
            final(self).resources@ == old(self).resources@,
            final(self).temporary.requires@ == old(self).temporary.requires@,
            final(self).temporary.triggers@ == old(self).temporary.triggers@,
            same_params(*old(resource), *final(resource)),
            r is Ok ==> match entry_of(old(self).temporary.requires@, rid(*old(resource))) {
                Some(ds) => forall|j: int| 0 <= j < ds@.len() ==> #[trigger] explicit_ok(
                    old(self).resources@, final(self).temporary.predecessors@, *old(resource), ds@[j]),
                None => true,
            },
            keeps_links(*old(resource), *final(resource)),
            edges_from(old(self).temporary.predecessors@, final(self).temporary.predecessors@, rid(*old(resource))),
            fresh_links(old(self).temporary.predecessors@, final(self).temporary.predecessors@, old(self).resources@,
                old(self).temporary, *old(resource), *old(resource), *final(resource)),
            edges_named(old(self).temporary.predecessors@, final(self).temporary.predecessors@, old(self).resources@, *final(resource)),
            forall|q: int| old(self).temporary.predecessors@.len() <= q < final(self).temporary.predecessors@.len()
                ==> entry_of(old(self).temporary.requires@, rid(*old(resource))) is Some && exists|m: int|
                    0 <= m < entry_of(old(self).temporary.requires@, rid(*old(resource)))->0@.len()
                    && #[trigger] final(self).temporary.predecessors@[q] == dep_edge(*old(resource), old(self).resources@,
                        entry_of(old(self).temporary.requires@, rid(*old(resource)))->0@[m]),
            r is Ok && distinct_ids(old(self).resources@) ==> match entry_of(old(self).temporary.requires@, rid(*old(resource))) {
                Some(ds) => forall|m: int| 0 <= m < ds@.len()
                    && !old(self).temporary.predecessors@.contains(#[trigger] dep_edge(*old(resource), old(self).resources@, ds@[m]))
                    ==> names_meta(requirements(*final(resource)), dep_target(old(self).resources@, ds@[m]))
                        && names_meta(predecessors(*final(resource)), dep_target(old(self).resources@, ds@[m])),
                None => true,
            },
            forall|h: Seq<Edge>| #[trigger] acyclic(h) && subgraph(old(self).temporary.predecessors@, h)
                && explicit_links_in(h, old(self).temporary, *old(resource), old(self).resources@)
                && deps_resolve(old(self).temporary, *old(resource), old(self).resources@)
                ==> r is Ok && subgraph(final(self).temporary.predecessors@, h),
    {
        let ghost r0 = *resource;
        let ghost g0 = self.temporary.predecessors@;
        let ghost t0 = self.temporary;
        let me = resource.metadata().clone();
        let rep = resource.repr();
        let idx = match entry_index(&self.temporary.requires, me.id.as_str()) {
            Some(i) => i,
            None => {
                proof {
                    lemma_grows_insert(g0, g0, (me.id@, me.id@));
                    lemma_keeps_refl(r0);
                    lemma_fl_refl(g0, self.resources@, t0, r0, r0);
                }
                return Ok(());
            },
        };
        let ghost ds = self.temporary.requires@[idx as int].1;
        let n = self.temporary.requires[idx].1.len();
        let mut j: usize = 0;
        proof {
            lemma_grows_insert(g0, g0, (me.id@, me.id@));
            lemma_keeps_refl(r0);
            lemma_fl_refl(g0, self.resources@, t0, r0, r0);
        }
        while j < n
            invariant
                j <= n,
                idx < self.temporary.requires@.len(),
                ds == self.temporary.requires@[idx as int].1,
                n == ds@.len(),
                r0 == *old(resource),
                g0 == old(self).temporary.predecessors@,
                same_sets(old(self).temporary, self.temporary),
                me.id@ == rid(r0),
                rep@ == repr(r0),
                entry_of(old(self).temporary.requires@, rid(r0)) == Some(ds),
                self.resources@ == old(self).resources@,
                self.temporary.requires@ == old(self).temporary.requires@,
                self.temporary.triggers@ == old(self).temporary.triggers@,
                acyclic(self.temporary.predecessors@),
                grows(g0, self.temporary.predecessors@),
                same_params(r0, *resource),
                forall|p: int| 0 <= p < self.resources@.len() ==> rid(#[trigger] self.resources@[p]) != rid(r0),
                forall|q: int| 0 <= q < j ==> #[trigger] explicit_ok(self.resources@, self.temporary.predecessors@, r0, ds@[q]),
                t0 == old(self).temporary,
                forall|h: Seq<Edge>| #[trigger] acyclic(h) && subgraph(g0, h) && explicit_links_in(h, t0, r0, self.resources@)
                    && deps_resolve(t0, r0, self.resources@) ==> subgraph(self.temporary.predecessors@, h),
                keeps_links(r0, *resource),
                edges_from(g0, self.temporary.predecessors@, rid(r0)),
                fresh_links(g0, self.temporary.predecessors@, self.resources@, t0, r0, r0, *resource),
                forall|q: int| g0.len() <= q < self.temporary.predecessors@.len()
                    ==> exists|m: int| 0 <= m < j && #[trigger] self.temporary.predecessors@[q] == dep_edge(r0, self.resources@, ds@[m]),
                distinct_ids(self.resources@) ==> forall|m: int| 0 <= m < j
                    && !g0.contains(#[trigger] dep_edge(r0, self.resources@, ds@[m]))
                    ==> names_meta(requirements(*resource), dep_target(self.resources@, ds@[m]))
                        && names_meta(predecessors(*resource), dep_target(self.resources@, ds@[m])),
                edges_named(g0, self.temporary.predecessors@, self.resources@, *resource),
            decreases n - j,
        {
            let ghost gj = self.temporary.predecessors@;
            let ghost tj = self.temporary;
            let ghost rj = *resource;
            let ghost rs = self.resources@;
            proof {
                lemma_same_params(r0, *resource);
                assert(requires_of(t0.requires@, rid(r0)) == ds@);
            }
            match self.link_dependency(resource, idx, j, &me, &rep) {
                Ok(()) => {},
                Err(m) => {
                    proof {
                        lemma_same_params(rj, *resource);
                        lemma_grows_trans(g0, gj, self.temporary.predecessors@);
                        lemma_keeps_trans(r0, rj, *resource);
                        lemma_edges_from_trans(g0, gj, self.temporary.predecessors@, rid(r0));
                        lemma_edges_named_step(g0, gj, self.temporary.predecessors@, rs, rj, *resource);
                        lemma_fl_same(gj, self.temporary.predecessors@, rs, tj, t0, rj, r0, rj, *resource);
                        lemma_fl_trans(g0, gj, self.temporary.predecessors@, rs, t0, r0, r0, rj, *resource);
                        let g = self.temporary.predecessors@;
                        assert forall|q: int| g0.len() <= q < g.len() implies entry_of(t0.requires@, rid(r0)) is Some
                            && exists|m: int| 0 <= m < ds@.len() && #[trigger] g[q] == dep_edge(r0, rs, ds@[m]) by {
                            if q < gj.len() {
                                assert(g.take(gj.len() as int)[q] == g[q]);
                                let m = choose|m: int| 0 <= m < j && #[trigger] gj[q] == dep_edge(r0, rs, ds@[m]);
                                assert(g[q] == dep_edge(r0, rs, ds@[m]));
                            } else {
                                assert(g[q] == dep_edge(rj, rs, ds@[j as int]));
                                assert(g[q] == dep_edge(r0, rs, ds@[j as int]));
                            }
                        }
                        assert forall|h: Seq<Edge>| #[trigger] acyclic(h) && subgraph(g0, h) && explicit_links_in(h, t0, r0, rs)
                            && deps_resolve(t0, r0, rs) implies false by {
                            assert(subgraph(gj, h));
                            assert(dependency_resolves(rs, r0, ds@[j as int]));
                            let i = first_named(rs, ds@[j as int])->0;
                            assert(names(requires_of(t0.requires@, rid(r0))[j as int], rs[i]));
                            assert(explicit_link(t0, r0, rs[i]));
                        }
                    }
                    return Err(m);
                },
            }
            proof {
                lemma_same_params(r0, rj);
                lemma_same_params(rj, *resource);
                let g = self.temporary.predecessors@;
                lemma_grows_trans(g0, gj, g);
                lemma_keeps_trans(r0, rj, *resource);
                lemma_edges_from_trans(g0, gj, g, rid(r0));
                lemma_edges_named_step(g0, gj, g, self.resources@, rj, *resource);
                lemma_fl_same(gj, g, self.resources@, tj, t0, rj, r0, rj, *resource);
                lemma_fl_trans(g0, gj, g, self.resources@, t0, r0, r0, rj, *resource);
                assert forall|q: int| g0.len() <= q < g.len()
                    implies exists|m: int| 0 <= m < j + 1 && #[trigger] g[q] == dep_edge(r0, self.resources@, ds@[m]) by {
                    if q < gj.len() {
                        assert(g.take(gj.len() as int)[q] == g[q]);
                        let m = choose|m: int| 0 <= m < j && #[trigger] gj[q] == dep_edge(r0, self.resources@, ds@[m]);
                        assert(g[q] == dep_edge(r0, self.resources@, ds@[m]));
                    } else {
                        assert(g[q] == dep_edge(rj, self.resources@, ds@[j as int]));
                        assert(g[q] == dep_edge(r0, self.resources@, ds@[j as int]));
                    }
                }
                if distinct_ids(self.resources@) {
                    assert forall|m: int| 0 <= m < j + 1 && !g0.contains(#[trigger] dep_edge(r0, self.resources@, ds@[m]))
                        implies names_meta(requirements(*resource), dep_target(self.resources@, ds@[m]))
                            && names_meta(predecessors(*resource), dep_target(self.resources@, ds@[m])) by {
                        if m < j {
                            lemma_names_kept(rj, *resource, dep_target(self.resources@, ds@[m]));
                        } else {
                            let e = dep_edge(r0, self.resources@, ds@[m]);
                            assert(e == dep_edge(rj, self.resources@, ds@[m]));
                            if gj.contains(e) {
                                let q = choose|q: int| 0 <= q < gj.len() && gj[q] == e;
                                if q < g0.len() {
                                    assert(gj.take(g0.len() as int)[q] == gj[q]);
                                    assert(g0.contains(e));
                                }
                                let m2 = choose|m2: int| 0 <= m2 < j && #[trigger] gj[q] == dep_edge(r0, self.resources@, ds@[m2]);
                                assert(explicit_ok(self.resources@, gj, r0, ds@[m2]));
                                let a = first_named(self.resources@, ds@[m2])->0;
                                let bb = first_named(self.resources@, ds@[m])->0;
                                if a != bb {
                                    assert(rid(self.resources@[a]) != rid(self.resources@[bb]));
                                }
                                assert(dep_target(self.resources@, ds@[m2]) == dep_target(self.resources@, ds@[m]));
                                assert(!g0.contains(dep_edge(r0, self.resources@, ds@[m2])));
                                lemma_names_kept(rj, *resource, dep_target(self.resources@, ds@[m]));
                            }
                        }
                    }
                }
                assert forall|q: int| 0 <= q < j + 1 implies #[trigger] explicit_ok(self.resources@, g, r0, ds@[q]) by {
                    if q < j {
                        assert(explicit_ok(self.resources@, gj, r0, ds@[q]));
                        let i = first_named(self.resources@, ds@[q])->0;
                        lemma_grows_contains(gj, g, (rid(r0), rid(self.resources@[i])));
                    }
                }
                assert forall|h: Seq<Edge>| #[trigger] acyclic(h) && subgraph(g0, h) && explicit_links_in(h, t0, r0, rs)
                    && deps_resolve(t0, r0, rs) implies subgraph(g, h) by {
                    assert(subgraph(gj, h));
                    assert(dependency_resolves(rs, r0, ds@[j as int]));
                    let i = first_named(rs, ds@[j as int])->0;
                    assert(names(requires_of(t0.requires@, rid(r0))[j as int], rs[i]));
                    assert(explicit_link(t0, r0, rs[i]));
                }
            }
            j = j + 1;
        }
        Ok(())
    }

    /// Records the `j`-th dependency stated in entry `idx` for `resource`.
    #[verifier::rlimit(50)]
    fn link_dependency(&mut self, resource: &mut Resource, idx: usize, j: usize, me: &ResourceMetadata, rep: &String) -> (r: Result<(), String>)
        requires
            idx < old(self).temporary.requires@.len(),
            j < old(self).temporary.requires@[idx as int].1@.len(),
            acyclic(old(self).temporary.predecessors@),
            forall|p: int| 0 <= p < old(self).resources@.len() ==> rid(#[trigger] old(self).resources@[p]) != rid(*old(resource)),
            me.id@ == rid(*old(resource)),
            rep@ == repr(*old(resource)),
            entry_of(old(self).temporary.requires@, rid(*old(resource))) == Some(old(self).temporary.requires@[idx as int].1),
        ensures
            same_sets(old(self).temporary, final(self).temporary),
            acyclic(final(self).temporary.predecessors@),
            grows(old(self).temporary.predecessors@, final(self).temporary.predecessors@),
            final(self).resources@ == old(self).resources@,
            final(self).temporary.requires@ == old(self).temporary.requires@,
            final(self).temporary.triggers@ == old(self).temporary.triggers@,
            same_params(*old(resource), *final(resource)),
            r is Ok ==> explicit_ok(old(self).resources@, final(self).temporary.predecessors@, *old(resource),
                old(self).temporary.requires@[idx as int].1@[j as int]),
            keeps_links(*old(resource), *final(resource)),
            edges_from(old(self).temporary.predecessors@, final(self).temporary.predecessors@, rid(*old(resource))),
            fresh_links(old(self).temporary.predecessors@, final(self).temporary.predecessors@, old(self).resources@,
                old(self).temporary, *old(resource), *old(resource), *final(resource)),
            edges_named(old(self).temporary.predecessors@, final(self).temporary.predecessors@, old(self).resources@, *final(resource)),
            forall|q: int| old(self).temporary.predecessors@.len() <= q < final(self).temporary.predecessors@.len()
                ==> #[trigger] final(self).temporary.predecessors@[q]
                    == dep_edge(*old(resource), old(self).resources@, old(self).temporary.requires@[idx as int].1@[j as int]),
            r is Ok && !old(self).temporary.predecessors@.contains((rid(*old(resource)), rid(old(self).resources@[
                first_named(old(self).resources@, old(self).temporary.requires@[idx as int].1@[j as int])->0])))
                ==> names_meta(requirements(*final(resource)), old(self).resources@[
                        first_named(old(self).resources@, old(self).temporary.requires@[idx as int].1@[j as int])->0])
                    && names_meta(predecessors(*final(resource)), old(self).resources@[
                        first_named(old(self).resources@, old(self).temporary.requires@[idx as int].1@[j as int])->0]),
            forall|h: Seq<Edge>| #[trigger] acyclic(h) && subgraph(old(self).temporary.predecessors@, h)
                && dependency_resolves(old(self).resources@, *old(resource), old(self).temporary.requires@[idx as int].1@[j as int])
                && h.contains((rid(*old(resource)), rid(old(self).resources@[
                    first_named(old(self).resources@, old(self).temporary.requires@[idx as int].1@[j as int])->0])))
                ==> r is Ok && subgraph(final(self).temporary.predecessors@, h),
    {
        let ghost r0 = *resource;
        let ghost gj = self.temporary.predecessors@;
        let ghost ds = self.temporary.requires@[idx as int].1;
        let ghost rs = self.resources@;
        let ghost d = ds@[j as int];
        proof {
            lemma_same_params(r0, *resource);
            lemma_grows_insert(gj, gj, (me.id@, me.id@));
            lemma_keeps_refl(r0);
            lemma_fl_refl(gj, rs, self.temporary, r0, r0);
        }
        let dependency = &self.temporary.requires[idx].1[j];
        if dependency.names(resource) {
            return Err(message3("`", rep.as_str(), "`: resource cannot depend in itself"));
        }
        let found = match self.resolve_dependency(dependency) {
            Some(other) => Some((resource.may_depend_on(other), other.metadata().clone(), other.repr())),
            None => None,
        };
        let ghost fi = first_named(self.resources@, ds@[j as int]);
        match found {
            None => {
                let drep = dependency.repr();
                return Err(message5("`", rep.as_str(), "`: resource depends on `", drep.as_str(),
                    "` which is undefined"));
            },
            Some((may, other_meta, orep)) => {
                if !may {
                    return Err(message5("`", rep.as_str(), "`: resource cannot depend on `", orep.as_str(), "`"));
                }
                proof {
                    assert(fi is Some);
                    let i = fi->0;
                    assert(0 <= i < old(self).resources@.len());
                    assert(rid(old(self).resources@[i]) != rid(r0));
                }
                if self.temporary.predecessors.relationship_introduces_loop(other_meta.id.as_str(), me.id.as_str()) {
                    proof {
                        let e = (rid(r0), rid(rs[fi->0]));
                        assert forall|h: Seq<Edge>| #[trigger] acyclic(h) && subgraph(gj, h) && h.contains(e) implies false by {
                            lemma_edge_of_acyclic(gj, h, rid(r0), rid(rs[fi->0]));
                        }
                    }
                    return Err(message5("`", rep.as_str(), "`: resource cannot depend on `", orep.as_str(),
                        "` as the current configuration would introduce a loop"));
                }
                let ghost gb = self.temporary.predecessors@;
                if self.temporary.predecessors.insert(me.id.as_str(), other_meta.id.as_str()) {
                    proof {
                        lemma_add_edge_keeps_acyclic(gb, me.id@, other_meta.id@);
                    }
                    let ghost ra = *resource;
                    let m1 = other_meta.clone();
                    resource.push_requirement(m1);
                    let m2 = other_meta.clone();
                    resource.push_predecessor(m2);
                    proof {
                        lemma_grows_insert(requirements(ra), requirements(*resource), m1);
                        lemma_grows_insert(predecessors(ra), predecessors(*resource), m2);
                        assert(keeps_links(ra, *resource));
                        assert(m2.kind == meta(rs[fi->0]).kind && m2.id@ == rid(rs[fi->0]));
                        lemma_names_push(predecessors(ra), m2, rs[fi->0]);
                        lemma_names_push(requirements(ra), m1, rs[fi->0]);
                        assert(requires_of(self.temporary.requires@, rid(r0))[j as int] == ds@[j as int]);
                        assert(dep_target(rs, requires_of(self.temporary.requires@, rid(r0))[j as int]) == rs[fi->0]);
                        assert(explicit_names(self.temporary, r0, rs, rs[fi->0]));
                        assert(ra == r0 && gb == gj);
                        lemma_fl_push(gj, gj, rs, self.temporary, r0, r0, ra, *resource, fi->0, m2, m1, true);
                    }
                }
                proof {
                    lemma_grows_insert(gb, self.temporary.predecessors@, (me.id@, other_meta.id@));
                    lemma_grows_trans(gj, gb, self.temporary.predecessors@);
                    lemma_same_params(r0, *resource);
                    let g = self.temporary.predecessors@;
                    assert(g.contains((me.id@, other_meta.id@))) by {
                        if !gb.contains((me.id@, other_meta.id@)) {
                            assert(g.last() == (me.id@, other_meta.id@));
                        }
                    }
                    let e = (rid(r0), rid(rs[fi->0]));
                    assert(gb == gj);
                    assert forall|h: Seq<Edge>| #[trigger] acyclic(h) && subgraph(gj, h) && h.contains(e)
                        implies subgraph(g, h) by {
                        if g != gj {
                            lemma_subgraph_push(gj, h, e);
                        }
                    }
                    assert(g == gj || g == gj.push((me.id@, other_meta.id@)));
                    assert(edges_from(gj, g, rid(r0)));
                    assert forall|q: int| gj.len() <= q < g.len() implies #[trigger] edge_named(g, q, rs, *resource) by {
                        assert(g[q].1 == rid(rs[fi->0]));
                        assert(names_meta(predecessors(*resource), rs[fi->0]));
                    }
                    if *resource != r0 {
                        lemma_keeps_trans(r0, r0, *resource);
                    }
                }
            },
        }
        Ok(())
    }

    /// Records the `execute` resources that the configuration says
    /// `resource` triggers; fails where a trigger names the resource itself
    /// or no `execute` resource.
    pub fn link_triggers(&self, resource: &mut Resource) -> (r: Result<(), String>)
        ensures
            same_params(*old(resource), *final(resource)),
            requirements(*final(resource)) == requirements(*old(resource)),
            predecessors(*final(resource)) == predecessors(*old(resource)),
            child_nodes(*final(resource)) == child_nodes(*old(resource)),
            ({
                let ts = triggers_of(self.temporary.triggers@, rid(*old(resource)));
                &&& r is Ok <==> first_failing_trigger(self.resources@, *old(resource), ts) is None
                &&& r is Ok ==> forall|k: int| 0 <= k < ts.len() ==> !#[trigger] trigger_fails(self.resources@, *old(resource), ts[k])
                &&& r matches Err(m) ==> m@ == trigger_message(*old(resource),
                    ts[first_failing_trigger(self.resources@, *old(resource), ts)->0])
                &&& r is Ok ==> triggered(*final(resource)).len() == triggered(*old(resource)).len() + ts.len()
                &&& r is Ok ==> forall|k: int| 0 <= k < ts.len() ==> {
                    let m = #[trigger] triggered(*final(resource))[triggered(*old(resource)).len() + k];
                    &&& m.metadata.id@ == trigger_target(self.resources@, ts[k])
                    &&& m.metadata.kind == meta(self.resources@[first_triggered(self.resources@, ts[k])->0]).kind
                    &&& m.actions@ == trigger_actions(ts[k])
                }
            }),
    {
        let ghost r0 = *resource;
        let rep = resource.repr();
        let idx = match entry_index(&self.temporary.triggers, resource.id()) {
            Some(i) => i,
            None => {
                return Ok(());
            },
        };
        let ts = &self.temporary.triggers[idx].1;
        let ghost start = triggered(r0);
        let mut k: usize = 0;
        while k < ts.len()
            invariant
                k <= ts@.len(),
                r0 == *old(resource),
                entry_of(self.temporary.triggers@, rid(r0)) is Some,
                ts@ == entry_of(self.temporary.triggers@, rid(r0))->0@,
                same_params(r0, *resource),
                requirements(*resource) == requirements(r0),
                predecessors(*resource) == predecessors(r0),
                child_nodes(*resource) == child_nodes(r0),
                rep@ == repr(r0),
                triggered(*resource).len() == start.len() + k,
                triggered(*resource).take(start.len() as int) == start,
                forall|q: int| 0 <= q < k ==> !#[trigger] trigger_fails(self.resources@, r0, ts@[q]),
                forall|q: int| 0 <= q < k ==> {
                    let m = #[trigger] triggered(*resource)[start.len() + q];
                    &&& m.metadata.id@ == trigger_target(self.resources@, ts@[q])
                    &&& m.metadata.kind == meta(self.resources@[first_triggered(self.resources@, ts@[q])->0]).kind
                    &&& m.actions@ == trigger_actions(ts@[q])
                },
            decreases ts@.len() - k,
        {
            proof {
                lemma_same_params(r0, *resource);
            }
            let trigger = &ts[k];
            let ghost first_bad_here = trigger_fails(self.resources@, r0, ts@[k as int]);
            if trigger.names(resource) {
                proof {
                    assert(trigger_fails(self.resources@, r0, ts@[k as int]));
                    assert(0 <= k < ts@.len() && trigger_fails(self.resources@, r0, ts@[k as int])
                        && forall|j: int| 0 <= j < k ==> !#[trigger] trigger_fails(self.resources@, r0, ts@[j]));
                    let f = first_failing_trigger(self.resources@, r0, ts@);
                    assert(f == Some(k as int)) by {
                        let c = f->0;
                        if c < k {
                            assert(!trigger_fails(self.resources@, r0, ts@[c]));
                        } else if c > k {
                            assert(trigger_fails(self.resources@, r0, ts@[k as int]));
                        }
                    }
                }
                let m = message3("`", rep.as_str(), "`: resource cannot trigger itself");
                assert(m@ == trigger_message(r0, ts@[k as int]));
                assert(first_failing_trigger(self.resources@, r0, ts@) == Some(k as int));
                return Err(m);
            }
            match self.resolve_trigger(trigger) {
                Some((execute, when)) => {
                    let m = TriggerMetadata::from(&execute.metadata, when);
                    let ghost before = triggered(*resource);
                    resource.push_trigger(m);
                    proof {
                        lemma_same_params(r0, *resource);
                        assert(triggered(*resource).take(start.len() as int) =~= start) by {
                            assert(before.take(start.len() as int) == start);
                            assert forall|i: int| 0 <= i < start.len() implies triggered(*resource)[i] == start[i] by {
                                assert(triggered(*resource)[i] == before[i]);
                                assert(before.take(start.len() as int)[i] == before[i]);
                            }
                        }
                        assert forall|q: int| 0 <= q < k + 1 implies {
                            let m = #[trigger] triggered(*resource)[start.len() + q];
                            &&& m.metadata.id@ == trigger_target(self.resources@, ts@[q])
                            &&& m.metadata.kind == meta(self.resources@[first_triggered(self.resources@, ts@[q])->0]).kind
                            &&& m.actions@ == trigger_actions(ts@[q])
                        } by {
                            if q < k {
                                assert(triggered(*resource)[start.len() + q] == before[start.len() + q]);
                            }
                        }
                    }
                },
                None => {
                    let trep = trigger.repr();
                    proof {
                        assert(trigger_fails(self.resources@, r0, ts@[k as int]));
                        assert(0 <= k < ts@.len() && trigger_fails(self.resources@, r0, ts@[k as int])
                            && forall|j: int| 0 <= j < k ==> !#[trigger] trigger_fails(self.resources@, r0, ts@[j]));
                        let f = first_failing_trigger(self.resources@, r0, ts@);
                        assert(f == Some(k as int)) by {
                            let c = f->0;
                            if c < k {
                                assert(!trigger_fails(self.resources@, r0, ts@[c]));
                            } else if c > k {
                                assert(trigger_fails(self.resources@, r0, ts@[k as int]));
                            }
                        }
                    }
                    let m = message5("`", rep.as_str(), "`: resource triggers `", trep.as_str(), "` which is undefined");
                    assert(m@ == trigger_message(r0, ts@[k as int]));
                    assert(first_failing_trigger(self.resources@, r0, ts@) == Some(k as int));
                    return Err(m);
                },
            }
            k = k + 1;
        }
        Ok(())
    }
}

/// The path that a `file`, `directory` or `symlink` resource manages.
pub open spec fn managed_path(r: Resource) -> Option<Seq<char>> {
    match r {
        Resource::Directory(x) => Some(x.parameters.path@),
        Resource::File(x) => Some(x.parameters.path@),
        Resource::Symlink(x) => Some(x.parameters.path@),
        _ => None,
    }
}

/// The name that must be unique among the resources of a kind.
pub open spec fn unique_name(r: Resource) -> Option<Seq<char>> {
    match r {
        Resource::AptPackage(x) => Some(x.parameters.name@),
        Resource::Execute(x) => Some(x.parameters.name@),
        Resource::Group(x) => Some(x.parameters.name@),
        Resource::User(x) => Some(x.parameters.name@),
        _ => None,
    }
}

/// The names seen so far for the kind of `r`.
pub open spec fn seen_names(t: ValidationHelpers, r: Resource) -> Seq<Seq<char>> {
    match r {
        Resource::AptPackage(_) => texts(t.apt_package_names@),
        Resource::Execute(_) => texts(t.execute_names@),
        Resource::Group(_) => texts(t.group_names@),
        Resource::User(_) => texts(t.user_names@),
        _ => Seq::empty(),
    }
}

/// Whether the helper collections of `b` hold those of `a`, and more.
pub open spec fn helpers_grow(a: ValidationHelpers, b: ValidationHelpers) -> bool {
    &&& grows(texts(a.paths@), texts(b.paths@))
    &&& grows(texts(a.group_names@), texts(b.group_names@))
    &&& grows(texts(a.user_names@), texts(b.user_names@))
    &&& grows(texts(a.apt_package_names@), texts(b.apt_package_names@))
    &&& grows(texts(a.execute_names@), texts(b.execute_names@))
    &&& grows(a.host_ip_addresses@, b.host_ip_addresses@)
}

/// What the checks of its kind give for resource `r`, with the helper
/// collections `t` and the other resources `rs`: paths and names that must
/// be unique, a parent that may not be a file, a host entry whose file has
/// no managed content.
pub open spec fn kind_check(t: ValidationHelpers, rs: Seq<Resource>, r: Resource) -> Result<(), Seq<char>> {
    match r {
        Resource::AptPackage(x) => value_check(texts(t.apt_package_names@), x.parameters.name@,
            rep_of(x.metadata.kind, x.parameters.name@), "package name"@, x.metadata.kind, "package names must be unique"@),
        Resource::Directory(x) => path_check(texts(t.paths@), texts(t.file_paths@), x.parameters.path@,
            rep_of(x.metadata.kind, x.parameters.path@),
            directory_parent_message(rep_of(x.metadata.kind, x.parameters.path@), parent_display(x.parameters.path@))),
        Resource::Execute(x) => value_check(texts(t.execute_names@), x.parameters.name@,
            rep_of(x.metadata.kind, x.parameters.name@), "name"@, x.metadata.kind, "resource names must be unique"@),
        Resource::File(x) => path_check(texts(t.paths@), texts(t.file_paths@), x.parameters.path@,
            rep_of(x.metadata.kind, x.parameters.path@),
            file_parent_message(rep_of(x.metadata.kind, x.parameters.path@), parent_display(x.parameters.path@))),
        Resource::Group(x) => value_check(texts(t.group_names@), x.parameters.name@,
            rep_of(x.metadata.kind, x.parameters.name@), "group name"@, x.metadata.kind, "group names must be unique"@),
        Resource::Host(x) => host_check(t.host_ip_addresses@, rs, x),
        Resource::Symlink(x) => path_check(texts(t.paths@), texts(t.file_paths@), x.parameters.path@,
            rep_of(x.metadata.kind, x.parameters.path@),
            symlink_parent_message(rep_of(x.metadata.kind, x.parameters.path@), parent_display(x.parameters.path@))),
        Resource::User(x) => value_check(texts(t.user_names@), x.parameters.name@,
            rep_of(x.metadata.kind, x.parameters.name@), "user name"@, x.metadata.kind, "user names must be unique"@),
    }
}

/// Whether `b` holds the helper collections of `a` with the path, name or
/// address of `r` added to the one for its kind.
pub open spec fn keys_added(a: ValidationHelpers, b: ValidationHelpers, r: Resource) -> bool {
    &&& texts(b.paths@) == (match managed_path(r) {
        Some(p) => texts(a.paths@).push(p),
        None => texts(a.paths@),
    })
    &&& texts(b.group_names@) == (if r is Group { texts(a.group_names@).push(unique_name(r)->0) } else { texts(a.group_names@) })
    &&& texts(b.user_names@) == (if r is User { texts(a.user_names@).push(unique_name(r)->0) } else { texts(a.user_names@) })
    &&& texts(b.apt_package_names@) == (if r is AptPackage {
        texts(a.apt_package_names@).push(unique_name(r)->0)
    } else {
        texts(a.apt_package_names@)
    })
    &&& texts(b.execute_names@) == (if r is Execute {
        texts(a.execute_names@).push(unique_name(r)->0)
    } else {
        texts(a.execute_names@)
    })
    &&& b.host_ip_addresses@ == (if r is Host { a.host_ip_addresses@.push(host_address(r)) } else { a.host_ip_addresses@ })
}

impl Client {
    /// The checks of a resource that its kind calls for.
    pub fn validate_kind(&mut self, resource: &mut Resource) -> (r: Result<(), String>)
        ensures
            same_params(*old(resource), *final(resource)),
            requirements(*final(resource)) == requirements(*old(resource)),
            predecessors(*final(resource)) == predecessors(*old(resource)),
            !(*old(resource) is Directory) ==> child_nodes(*final(resource)) == child_nodes(*old(resource)),
            r is Ok && *old(resource) is Directory ==> child_views(child_nodes(*final(resource)))
                == child_views(child_nodes(*old(resource))) + directory_children(old(self).resources@, managed_path(*old(resource))->0),
            final(self).resources@ == old(self).resources@,
            final(self).temporary.predecessors@ == old(self).temporary.predecessors@,
            final(self).temporary.requires@ == old(self).temporary.requires@,
            final(self).temporary.triggers@ == old(self).temporary.triggers@,
            final(self).temporary.file_paths@ == old(self).temporary.file_paths@,
            helpers_grow(old(self).temporary, final(self).temporary),
            r is Ok ==> (managed_path(*old(resource)) matches Some(p) ==> !holds_path(texts(old(self).temporary.paths@), p)
                && holds_path(texts(final(self).temporary.paths@), p)),
            r is Ok ==> (unique_name(*old(resource)) matches Some(nm) ==> !seen_names(old(self).temporary, *old(resource)).contains(nm)
                && seen_names(final(self).temporary, *old(resource)).contains(nm)),
            r is Ok ==> (*old(resource) matches Resource::Host(h) ==> !old(self).temporary.host_ip_addresses@.contains(h.parameters.ip_address)
                && final(self).temporary.host_ip_addresses@.contains(h.parameters.ip_address)),
            r is Ok <==> kind_check(old(self).temporary, old(self).resources@, *old(resource)) is Ok,
            r matches Err(m) ==> m@ == kind_check(old(self).temporary, old(self).resources@, *old(resource))->Err_0,
            r is Ok ==> keys_added(old(self).temporary, final(self).temporary, *old(resource)),
    {
        let ghost t0 = self.temporary;
        let ghost r0 = *resource;
        let res = match resource {
            Resource::AptPackage(item) => self.validate_apt_package(item),
            Resource::Directory(item) => self.validate_directory(item),
            Resource::Execute(item) => self.validate_execute(item),
            Resource::File(item) => self.validate_file(item),
            Resource::Group(item) => self.validate_group(item),
            Resource::Host(item) => self.validate_host(item),
            Resource::Symlink(item) => self.validate_symlink(item),
            Resource::User(item) => self.validate_user(item),
        };
        proof {
            let t = self.temporary;
            lemma_grows_insert(texts(t0.paths@), texts(t.paths@), managed_path(r0)->0);
            lemma_grows_insert(texts(t0.group_names@), texts(t.group_names@), unique_name(r0)->0);
            lemma_grows_insert(texts(t0.user_names@), texts(t.user_names@), unique_name(r0)->0);
            lemma_grows_insert(texts(t0.apt_package_names@), texts(t.apt_package_names@), unique_name(r0)->0);
            lemma_grows_insert(texts(t0.execute_names@), texts(t.execute_names@), unique_name(r0)->0);
            if let Resource::Host(h) = r0 {
                lemma_grows_insert(t0.host_ip_addresses@, t.host_ip_addresses@, h.parameters.ip_address);
                if res is Ok {
                    assert(t.host_ip_addresses@[t0.host_ip_addresses@.len() as int] == h.parameters.ip_address);
                }
            } else {
                lemma_grows_insert(t0.host_ip_addresses@, t.host_ip_addresses@, IpAddress::V4(0));
            }
            if let Some(p) = managed_path(r0) {
                if res is Ok {
                    assert(holds_path(texts(t.paths@), p)) by {
                        let n = texts(t0.paths@).len();
                        assert(texts(t.paths@)[n as int] == p);
                        assert(same_path(texts(t.paths@)[n as int], p));
                    }
                }
            }
            if let Some(nm) = unique_name(r0) {
                if res is Ok {
                    let n = seen_names(t0, r0).len();
                    assert(seen_names(t, r0)[n as int] == nm);
                }
            }
        }
        res
    }
}

/// The triggers stored for resource `id`, none when there is no entry.
pub open spec fn triggers_of(entries: Seq<(String, Vec<Trigger>)>, id: Seq<char>) -> Seq<Trigger> {
    match entry_of(entries, id) {
        Some(v) => v@,
        None => Seq::empty(),
    }
}

/// The dependencies stored for resource `id`, none when there is no entry.
pub open spec fn requires_of(entries: Seq<(String, Vec<Dependency>)>, id: Seq<char>) -> Seq<Dependency> {
    match entry_of(entries, id) {
        Some(v) => v@,
        None => Seq::empty(),
    }
}

/// Whether no trigger stated for `r` fails among `rs`.
pub open spec fn triggers_resolve(t: ValidationHelpers, r: Resource, rs: Seq<Resource>) -> bool {
    forall|k: int| 0 <= k < triggers_of(t.triggers@, rid(r)).len()
        ==> !#[trigger] trigger_fails(rs, r, triggers_of(t.triggers@, rid(r))[k])
}

/// Whether `h` holds each edge that validating `r` among `rs` may record.
pub open spec fn links_hold(h: Seq<Edge>, t: ValidationHelpers, r: Resource, rs: Seq<Resource>) -> bool {
    implicit_links_in(h, t, r, rs) && explicit_links_in(h, t, r, rs)
}

/// Whether the dependencies and the triggers stated for `r` resolve among `rs`.
pub open spec fn resolves(t: ValidationHelpers, r: Resource, rs: Seq<Resource>) -> bool {
    deps_resolve(t, r, rs) && triggers_resolve(t, r, rs)
}

/// What is asked of a resource and the others does not depend on what
/// validation adds to the resource, nor on the collections it fills.
proof fn lemma_links_same(h: Seq<Edge>, t: ValidationHelpers, u: ValidationHelpers, a: Resource, b: Resource, rs: Seq<Resource>)
    requires
        same_params(a, b),
        t.triggers@ == u.triggers@,
        t.requires@ == u.requires@,
    ensures
        links_hold(h, t, a, rs) == links_hold(h, u, b, rs),
        resolves(t, a, rs) == resolves(u, b, rs),
{
    lemma_same_params(a, b);
    assert forall|o: Resource| #[trigger] implicit_link(t, a, o) == implicit_link(u, b, o) by {
        lemma_implicit_link_same(t, a, b, o);
    }
    assert forall|o: Resource| #[trigger] explicit_link(t, a, o) == explicit_link(u, b, o) by {
        assert(requires_of(t.requires@, rid(a)) == requires_of(u.requires@, rid(b)));
    }
    assert(implicit_links_in(h, t, a, rs) == implicit_links_in(h, u, b, rs)) by {
        if implicit_links_in(h, t, a, rs) {
            assert forall|p: int| 0 <= p < rs.len() && #[trigger] implicit_link(u, b, rs[p]) implies h.contains((rid(b), rid(rs[p]))) by {
                assert(implicit_link(t, a, rs[p]));
            }
        }
        if implicit_links_in(h, u, b, rs) {
            assert forall|p: int| 0 <= p < rs.len() && #[trigger] implicit_link(t, a, rs[p]) implies h.contains((rid(a), rid(rs[p]))) by {
                assert(implicit_link(u, b, rs[p]));
            }
        }
    }
    assert(explicit_links_in(h, t, a, rs) == explicit_links_in(h, u, b, rs)) by {
        if explicit_links_in(h, t, a, rs) {
            assert forall|p: int| 0 <= p < rs.len() && #[trigger] explicit_link(u, b, rs[p]) implies h.contains((rid(b), rid(rs[p]))) by {
                assert(explicit_link(t, a, rs[p]));
            }
        }
        if explicit_links_in(h, u, b, rs) {
            assert forall|p: int| 0 <= p < rs.len() && #[trigger] explicit_link(t, a, rs[p]) implies h.contains((rid(a), rid(rs[p]))) by {
                assert(explicit_link(u, b, rs[p]));
            }
        }
    }
    let ds = requires_of(t.requires@, rid(a));
    assert(ds == requires_of(u.requires@, rid(b)));
    assert forall|j: int| 0 <= j < ds.len() implies #[trigger] dependency_resolves(rs, a, ds[j]) == dependency_resolves(rs, b, ds[j]) by {
        if let Some(i) = first_named(rs, ds[j]) {
            assert(may_depend(a, rs[i]) == may_depend(b, rs[i]));
        }
    }
    let ts = triggers_of(t.triggers@, rid(a));
    assert(ts == triggers_of(u.triggers@, rid(b)));
    assert forall|k: int| 0 <= k < ts.len() implies #[trigger] trigger_fails(rs, a, ts[k]) == trigger_fails(rs, b, ts[k]) by {
    }
    assert(deps_resolve(t, a, rs) == deps_resolve(u, b, rs)) by {
        if deps_resolve(t, a, rs) {
            assert forall|j: int| 0 <= j < ds.len() implies #[trigger] dependency_resolves(rs, b, ds[j]) by {
                assert(dependency_resolves(rs, a, ds[j]));
            }
        }
        if deps_resolve(u, b, rs) {
            assert forall|j: int| 0 <= j < ds.len() implies #[trigger] dependency_resolves(rs, a, ds[j]) by {
                assert(dependency_resolves(rs, b, ds[j]));
            }
        }
    }
    assert(triggers_resolve(t, a, rs) == triggers_resolve(u, b, rs)) by {
        if triggers_resolve(t, a, rs) {
            assert forall|k: int| 0 <= k < ts.len() implies !#[trigger] trigger_fails(rs, b, ts[k]) by {
                assert(!trigger_fails(rs, a, ts[k]));
            }
        }
        if triggers_resolve(u, b, rs) {
            assert forall|k: int| 0 <= k < ts.len() implies !#[trigger] trigger_fails(rs, a, ts[k]) by {
                assert(!trigger_fails(rs, b, ts[k]));
            }
        }
    }
}

impl Client {
    /// Validates one resource against the others of the catalog: the checks
    /// of its kind, then its implicit and stated relations.
    pub fn validate_one(&mut self, resource: &mut Resource) -> (r: Result<(), String>)
        requires
            acyclic(old(self).temporary.predecessors@),
            forall|p: int| 0 <= p < old(self).resources@.len() ==> rid(#[trigger] old(self).resources@[p]) != rid(*old(resource)),
        ensures
            acyclic(final(self).temporary.predecessors@),
            grows(old(self).temporary.predecessors@, final(self).temporary.predecessors@),
            final(self).resources@ == old(self).resources@,
            final(self).temporary.requires@ == old(self).temporary.requires@,
            final(self).temporary.triggers@ == old(self).temporary.triggers@,
            same_params(*old(resource), *final(resource)),
            helpers_grow(old(self).temporary, final(self).temporary),
            r is Ok ==> (managed_path(*old(resource)) matches Some(p) ==> !holds_path(texts(old(self).temporary.paths@), p)
                && holds_path(texts(final(self).temporary.paths@), p)),
            r is Ok ==> (unique_name(*old(resource)) matches Some(nm) ==> !seen_names(old(self).temporary, *old(resource)).contains(nm)
                && seen_names(final(self).temporary, *old(resource)).contains(nm)),
            r is Ok ==> (*old(resource) matches Resource::Host(h) ==> !old(self).temporary.host_ip_addresses@.contains(h.parameters.ip_address)
                && final(self).temporary.host_ip_addresses@.contains(h.parameters.ip_address)),
            r is Ok ==> forall|p: int| 0 <= p < old(self).resources@.len() && #[trigger] must_depend(*old(resource), old(self).resources@[p])
                ==> final(self).temporary.predecessors@.contains((rid(*old(resource)), rid(old(self).resources@[p]))),
            r is Ok ==> forall|p: int| 0 <= p < old(self).resources@.len() && meta(*old(resource)).kind == ResourceType::Execute
                && #[trigger] triggered_by(old(self).temporary.triggers@, rid(old(self).resources@[p]), *old(resource))
                ==> final(self).temporary.predecessors@.contains((rid(*old(resource)), rid(old(self).resources@[p]))),
            r is Ok ==> forall|j: int| 0 <= j < requires_of(old(self).temporary.requires@, rid(*old(resource))).len()
                ==> #[trigger] explicit_ok(old(self).resources@, final(self).temporary.predecessors@, *old(resource),
                    requires_of(old(self).temporary.requires@, rid(*old(resource)))[j]),
            r is Ok ==> forall|k: int| 0 <= k < triggers_of(old(self).temporary.triggers@, rid(*old(resource))).len()
                ==> !#[trigger] trigger_fails(old(self).resources@, *old(resource),
                    triggers_of(old(self).temporary.triggers@, rid(*old(resource)))[k]),
            r is Ok ==> keys_added(old(self).temporary, final(self).temporary, *old(resource)),
            final(self).temporary.file_paths@ == old(self).temporary.file_paths@,
            edges_from(old(self).temporary.predecessors@, final(self).temporary.predecessors@, rid(*old(resource))),
            edges_named(old(self).temporary.predecessors@, final(self).temporary.predecessors@, old(self).resources@, *final(resource)),
            r is Ok ==> forall|q: int| old(self).temporary.predecessors@.len() <= q < final(self).temporary.predecessors@.len()
                ==> #[trigger] justified_edge(final(self).temporary.predecessors@, q, old(self).temporary, *old(resource), old(self).resources@),
            r is Ok ==> exists|mid: Resource| requirements(mid) == requirements(*old(resource))
                && predecessors(mid) == predecessors(*old(resource)) && same_params(*old(resource), mid)
                && #[trigger] fresh_links(old(self).temporary.predecessors@, final(self).temporary.predecessors@, old(self).resources@,
                    old(self).temporary, *old(resource), mid, *final(resource)),
            r is Ok && distinct_ids(old(self).resources@)
                && (forall|q: int| 0 <= q < old(self).temporary.predecessors@.len()
                    ==> (#[trigger] old(self).temporary.predecessors@[q]).0 != rid(*old(resource)))
                ==> forall|p: int| 0 <= p < old(self).resources@.len() && #[trigger] must_depend(*old(resource), old(self).resources@[p])
                    ==> names_meta(requirements(*final(resource)), old(self).resources@[p])
                        && names_meta(predecessors(*final(resource)), old(self).resources@[p]),
            r is Ok && distinct_ids(old(self).resources@)
                && (forall|q: int| 0 <= q < old(self).temporary.predecessors@.len()
                    ==> (#[trigger] old(self).temporary.predecessors@[q]).0 != rid(*old(resource)))
                ==> forall|m: int| 0 <= m < requires_of(old(self).temporary.requires@, rid(*old(resource))).len()
                    ==> #[trigger] explicit_recorded(old(self).temporary, *old(resource), old(self).resources@,
                        requires_of(old(self).temporary.requires@, rid(*old(resource)))[m], *final(resource)),
            r is Ok && *old(resource) is Directory ==> child_views(child_nodes(*final(resource)))
                == child_views(child_nodes(*old(resource))) + directory_children(old(self).resources@, managed_path(*old(resource))->0),
            forall|h: Seq<Edge>| #[trigger] acyclic(h) && subgraph(old(self).temporary.predecessors@, h)
                && kind_check(old(self).temporary, old(self).resources@, *old(resource)) is Ok
                && links_hold(h, old(self).temporary, *old(resource), old(self).resources@)
                && resolves(old(self).temporary, *old(resource), old(self).resources@)
                ==> r is Ok && subgraph(final(self).temporary.predecessors@, h),
    {
        let ghost r0 = *resource;
        let ghost g0 = self.temporary.predecessors@;
        let ghost t0 = self.temporary;
        let ghost rs = self.resources@;
        match self.validate_kind(resource) {
            Ok(()) => {},
            Err(m) => {
                proof {
                    lemma_grows_insert(g0, g0, (rid(r0), rid(r0)));
                }
                return Err(m);
            },
        }
        let ghost r1 = *resource;
        let ghost t1 = self.temporary;
        proof {
            lemma_same_params(r0, r1);
            assert forall|h: Seq<Edge>| links_hold(h, t0, r0, rs) == #[trigger] links_hold(h, t1, r1, rs)
                && resolves(t0, r0, rs) == resolves(t1, r1, rs) by {
                lemma_links_same(h, t0, t1, r0, r1, rs);
            }
        }
        match self.link_implicit(resource) {
            Ok(()) => {},
            Err(m) => {
                proof {
                    lemma_same_params(r1, *resource);
                    assert forall|h: Seq<Edge>| #[trigger] acyclic(h) && subgraph(g0, h) && kind_check(t0, rs, r0) is Ok
                        && links_hold(h, t0, r0, rs) && resolves(t0, r0, rs) implies false by {
                        assert(links_hold(h, t1, r1, rs));
                    }
                    lemma_same_params(r0, r1);
                }
                return Err(m);
            },
        }
        let ghost r2 = *resource;
        let ghost g2 = self.temporary.predecessors@;
        let ghost t2 = self.temporary;
        proof {
            lemma_same_params(r1, r2);
            assert forall|h: Seq<Edge>| links_hold(h, t0, r0, rs) == #[trigger] links_hold(h, t2, r2, rs)
                && resolves(t0, r0, rs) == resolves(t2, r2, rs) by {
                lemma_links_same(h, t0, t2, r0, r2, rs);
            }
        }
        match self.link_explicit(resource) {
            Ok(()) => {},
            Err(m) => {
                proof {
                    lemma_same_params(r2, *resource);
                    lemma_grows_trans(g0, g2, self.temporary.predecessors@);
                    lemma_same_params(r0, r1);
                    lemma_same_params(r1, r2);
                    lemma_edges_from_trans(g0, g2, self.temporary.predecessors@, rid(r0));
                    lemma_edges_named_step(g0, g2, self.temporary.predecessors@, rs, r2, *resource);
                    assert forall|h: Seq<Edge>| #[trigger] acyclic(h) && subgraph(g0, h) && kind_check(t0, rs, r0) is Ok
                        && links_hold(h, t0, r0, rs) && resolves(t0, r0, rs) implies false by {
                        assert(links_hold(h, t1, r1, rs));
                        assert(subgraph(g2, h));
                        assert(links_hold(h, t2, r2, rs));
                        assert(resolves(t2, r2, rs));
                    }
                }
                return Err(m);
            },
        }
        let ghost r3 = *resource;
        let ghost g3 = self.temporary.predecessors@;
        let ghost t3 = self.temporary;
        proof {
            lemma_same_params(r2, r3);
            lemma_grows_trans(g0, g2, g3);
            lemma_same_params(r0, r1);
            lemma_same_params(r1, r2);
            lemma_edges_from_trans(g0, g2, g3, rid(r0));
            assert forall|h: Seq<Edge>| #[trigger] acyclic(h) && subgraph(g0, h) && kind_check(t0, rs, r0) is Ok
                && links_hold(h, t0, r0, rs) && resolves(t0, r0, rs) implies subgraph(g3, h) by {
                assert(links_hold(h, t1, r1, rs));
                assert(subgraph(g2, h));
                assert(links_hold(h, t2, r2, rs));
                assert(resolves(t2, r2, rs));
            }
            lemma_links_same(g3, t0, t3, r0, r3, rs);
        }
        let t = self.link_triggers(resource);
        proof {
            lemma_same_params(r3, *resource);
            assert forall|p: int| 0 <= p < old(self).resources@.len() && #[trigger] must_depend(r0, old(self).resources@[p])
                implies g3.contains((rid(r0), rid(old(self).resources@[p]))) by {
                lemma_grows_contains(g2, g3, (rid(r0), rid(old(self).resources@[p])));
            }
            assert forall|p: int| 0 <= p < old(self).resources@.len() && meta(r0).kind == ResourceType::Execute
                && #[trigger] triggered_by(old(self).temporary.triggers@, rid(old(self).resources@[p]), r0)
                implies g3.contains((rid(r0), rid(old(self).resources@[p]))) by {
                let ts = entry_of(old(self).temporary.triggers@, rid(old(self).resources@[p]))->0;
                let k = choose|k: int| 0 <= k < ts@.len() && #[trigger] trigger_names(ts@[k], r0);
                assert(trigger_names(ts@[k], r1));
                assert(triggered_by(old(self).temporary.triggers@, rid(old(self).resources@[p]), r1));
                lemma_grows_contains(g2, g3, (rid(r0), rid(old(self).resources@[p])));
            }
            let ds = requires_of(old(self).temporary.requires@, rid(r0));
            assert forall|j: int| 0 <= j < ds.len() implies #[trigger] explicit_ok(old(self).resources@, g3, r0, ds[j]) by {
                assert(explicit_ok(old(self).resources@, g3, r2, ds[j]));
            }
            let ts = triggers_of(old(self).temporary.triggers@, rid(r0));
            assert(rid(r3) == rid(r0));
            assert(self.temporary.triggers@ == old(self).temporary.triggers@);
            assert(self.resources@ == old(self).resources@);
            assert(triggers_of(self.temporary.triggers@, rid(r3)) == ts);
            if t is Ok {
                assert forall|k: int| 0 <= k < ts.len() implies !#[trigger] trigger_fails(old(self).resources@, r0, ts[k]) by {
                    assert(!trigger_fails(old(self).resources@, r3, ts[k]));
                }
            }
            lemma_grows_insert(requirements(r3), requirements(*resource), meta(r0));
            lemma_grows_insert(predecessors(r3), predecessors(*resource), meta(r0));
            assert(keeps_links(r3, *resource));
            lemma_keeps_trans(r2, r3, *resource);
            lemma_edges_named_step(g0, g2, g3, rs, r2, r3);
            lemma_grows_insert(g3, g3, (rid(r0), rid(r0)));
            lemma_edges_named_step(g0, g3, g3, rs, r3, *resource);
            lemma_same_params(r0, r1);
            lemma_fl_same(g0, g2, rs, t1, t0, r1, r0, r1, r2);
            lemma_fl_same(g2, g3, rs, t2, t0, r2, r0, r2, r3);
            lemma_fl_trans(g0, g2, g3, rs, t0, r0, r1, r2, r3);
            lemma_fl_refl(g3, rs, t0, r0, r3);
            assert(fresh_links(g3, g3, rs, t0, r0, r3, *resource));
            lemma_fl_trans(g0, g3, g3, rs, t0, r0, r1, r3, *resource);
            assert(fresh_links(g0, g3, rs, t0, r0, r1, *resource));
            if t is Ok {
                assert forall|q: int| g0.len() <= q < g3.len() implies #[trigger] justified_edge(g3, q, t0, r0, rs) by {
                    if q < g2.len() {
                        assert(g3.take(g2.len() as int)[q] == g3[q]);
                        assert(implicit_edge(g2, q, t1, r1, rs));
                        let p = choose|p: int| 0 <= p < rs.len() && g2[q] == (rid(r1), rid(rs[p])) && #[trigger] implicit_link(t1, r1, rs[p]);
                        lemma_implicit_link_same(t0, r0, r1, rs[p]);
                        assert(implicit_link(t1, r1, rs[p]) == implicit_link(t0, r1, rs[p]));
                        assert(g3[q] == (rid(r0), rid(rs[p])));
                    } else {
                        let ds = entry_of(t2.requires@, rid(r2))->0;
                        let m = choose|m: int| 0 <= m < ds@.len() && #[trigger] g3[q] == dep_edge(r2, rs, ds@[m]);
                        assert(requires_of(t0.requires@, rid(r0)) == ds@);
                        assert(explicit_ok(rs, g3, r0, ds@[m]));
                        let a = first_named(rs, ds@[m])->0;
                        assert(dep_target(rs, requires_of(t0.requires@, rid(r0))[m]) == rs[a]);
                        assert(explicit_names(t0, r0, rs, rs[a]));
                        assert(g3[q] == (rid(r0), rid(rs[a])));
                    }
                }
            }
            if distinct_ids(rs) && (forall|q: int| 0 <= q < g0.len() ==> (#[trigger] g0[q]).0 != rid(r0)) {
                assert forall|p: int| 0 <= p < rs.len() && #[trigger] must_depend(r0, rs[p])
                    implies names_meta(requirements(*resource), rs[p]) && names_meta(predecessors(*resource), rs[p]) by {
                    assert(must_depend(r1, rs[p]));
                    lemma_names_kept(r2, *resource, rs[p]);
                }
            }
            if t is Ok && distinct_ids(rs) && (forall|q: int| 0 <= q < g0.len() ==> (#[trigger] g0[q]).0 != rid(r0)) {
                let ds = requires_of(t0.requires@, rid(r0));
                assert forall|m: int| 0 <= m < ds.len()
                    implies #[trigger] explicit_recorded(t0, r0, rs, ds[m], *resource) by {
                    let o = dep_target(rs, ds[m]);
                    let e = dep_edge(r0, rs, ds[m]);
                    assert(explicit_ok(rs, g3, r0, ds[m]));
                    let a = first_named(rs, ds[m])->0;
                    if must_depend(r0, o) {
                        assert(must_depend(r0, rs[a]));
                    } else if !(meta(r0).kind == ResourceType::Execute && triggered_by(t0.triggers@, rid(o), r0)) {
                        lemma_implicit_link_same(t0, r0, r1, o);
                        assert(!implicit_link(t0, r0, o));
                        if g2.contains(e) {
                            let q = choose|q: int| 0 <= q < g2.len() && g2[q] == e;
                            if q < g0.len() {
                                assert(g2.take(g0.len() as int)[q] == g2[q]);
                                assert(g0[q].0 == rid(r0));
                            }
                            assert(implicit_edge(g2, q, t1, r1, rs));
                            let p = choose|p: int| 0 <= p < rs.len() && g2[q] == (rid(r1), rid(rs[p])) && #[trigger] implicit_link(t1, r1, rs[p]);
                            if p != a {
                                assert(rid(rs[p]) != rid(rs[a]));
                            }
                            lemma_implicit_link_same(t1, r0, r1, o);
                            assert(implicit_link(t1, r0, o) == implicit_link(t0, r0, o));
                        }
                        assert(!g2.contains(e));
                        assert(entry_of(t2.requires@, rid(r2)) == entry_of(t0.requires@, rid(r0)));
                        assert(dep_edge(r2, rs, ds[m]) == e);
                        lemma_names_kept(r3, *resource, o);
                    }
                }
            }
        }
        t
    }
}

/// Whether the resources' ids are pairwise distinct.
pub open spec fn distinct_ids(rs: Seq<Resource>) -> bool {
    forall|i: int, j: int| 0 <= i < rs.len() && 0 <= j < rs.len() && i != j ==> rid(#[trigger] rs[i]) != rid(#[trigger] rs[j])
}

/// The position in the original catalog of the resource at position `q`
/// among the others while resource `k` is validated.
pub open spec fn orig_of(n: int, k: int, q: int) -> int {
    if q < n - k - 1 {
        k + 1 + q
    } else {
        q - (n - k - 1)
    }
}

/// The position among the others of original resource `j` while resource
/// `k` is validated.
pub open spec fn pos_of(n: int, k: int, j: int) -> int {
    if j > k {
        j - k - 1
    } else {
        n - k - 1 + j
    }
}

/// The catalog after `k` validation steps: the resources still to validate,
/// then those validated, each with its original metadata and parameters.
pub open spec fn rotated(cur: Seq<Resource>, rs0: Seq<Resource>, k: int) -> bool {
    &&& cur.len() == rs0.len()
    &&& forall|p: int| 0 <= p < rs0.len() - k ==> same_params(#[trigger] cur[p], rs0[k + p])
    &&& forall|p: int| 0 <= p < k ==> same_params(#[trigger] cur[rs0.len() - k + p], rs0[p])
}

/// The catalog as it stood before the last resource was moved to the back:
/// the last resource first, then the others.
pub open spec fn unrotated(s: Seq<Resource>) -> Seq<Resource> {
    if s.len() == 0 {
        s
    } else {
        seq![s.last()] + s.drop_last()
    }
}

/// Moving the first resource back to the front of a catalog that was
/// validated and then turned by one gives it in its first order.
pub proof fn lemma_unrotated(cur: Seq<Resource>, rs0: Seq<Resource>)
    requires
        rotated(cur, rs0, if rs0.len() == 0 { 0 } else { 1 }),
    ensures
        rotated(unrotated(cur), rs0, rs0.len() as int),
{
    let n = rs0.len() as int;
    if n > 0 {
        let u = unrotated(cur);
        assert forall|p: int| 0 <= p < n implies same_params(#[trigger] u[n - n + p], rs0[p]) by {
            if p == 0 {
                assert(u[0] == cur[n - 1]);
                assert(same_params(cur[n - 1 + 0], rs0[0]));
            } else {
                assert(u[p] == cur[p - 1]);
                assert(same_params(cur[p - 1], rs0[1 + (p - 1)]));
            }
        }
    }
}

/// What the validation of resource `i` of `rs` has established in `g` and
/// in the helper collections `t`.
pub open spec fn validated(rs: Seq<Resource>, t: ValidationHelpers, i: int) -> bool {
    let r = rs[i];
    let g = t.predecessors@;
    &&& forall|j: int| 0 <= j < rs.len() && j != i && #[trigger] must_depend(r, rs[j])
        ==> g.contains((rid(r), rid(rs[j])))
    &&& forall|j: int| 0 <= j < rs.len() && j != i && meta(r).kind == ResourceType::Execute
        && #[trigger] triggered_by(t.triggers@, rid(rs[j]), r) ==> g.contains((rid(r), rid(rs[j])))
    &&& forall|d: int| 0 <= d < requires_of(t.requires@, rid(r)).len() ==> {
        let dep = #[trigger] requires_of(t.requires@, rid(r))[d];
        &&& !names(dep, r)
        &&& exists|j: int| 0 <= j < rs.len() && j != i && #[trigger] names(dep, rs[j]) && may_depend(r, rs[j])
            && g.contains((rid(r), rid(rs[j])))
    }
    &&& forall|d: int| 0 <= d < triggers_of(t.triggers@, rid(r)).len() ==> {
        let tr = #[trigger] triggers_of(t.triggers@, rid(r))[d];
        &&& !trigger_names(tr, r)
        &&& exists|j: int| 0 <= j < rs.len() && j != i && #[trigger] trigger_names(tr, rs[j])
    }
    &&& managed_path(r) matches Some(p) ==> holds_path(texts(t.paths@), p)
    &&& unique_name(r) matches Some(nm) ==> seen_names(t, r).contains(nm)
    &&& r matches Resource::Host(h) ==> t.host_ip_addresses@.contains(h.parameters.ip_address)
}

/// The address of a `host` resource.
pub open spec fn host_address(r: Resource) -> IpAddress {
    match r {
        Resource::Host(h) => h.parameters.ip_address,
        _ => IpAddress::V4(0),
    }
}

/// Whether validated resources `i` and `j` differ in what must be unique.
pub open spec fn unique_pair(rs: Seq<Resource>, i: int, j: int) -> bool {
    &&& (managed_path(rs[i]) is Some && managed_path(rs[j]) is Some) ==> !same_path(managed_path(rs[i])->0, managed_path(rs[j])->0)
    &&& (unique_name(rs[i]) is Some && variant_kind(rs[i]) == variant_kind(rs[j])) ==> unique_name(rs[i]) != unique_name(rs[j])
    &&& (rs[i] is Host && rs[j] is Host) ==> host_address(rs[i]) != host_address(rs[j])
}

/// In a catalog that passed validation no two resources manage the same
/// path, no two resources of a kind have the same name, and no two host
/// entries have the same address.
pub proof fn lemma_unique_catalog(rs: Seq<Resource>, i: int, j: int)
    requires
        forall|a: int, b: int| 0 <= a < b < rs.len() ==> #[trigger] unique_pair(rs, a, b),
        0 <= i < rs.len(),
        0 <= j < rs.len(),
        i != j,
    ensures
        managed_path(rs[i]) is Some && managed_path(rs[j]) is Some
            ==> !same_path(managed_path(rs[i])->0, managed_path(rs[j])->0),
        unique_name(rs[i]) is Some && variant_kind(rs[i]) == variant_kind(rs[j]) ==> unique_name(rs[i]) != unique_name(rs[j]),
        rs[i] is Host && rs[j] is Host ==> host_address(rs[i]) != host_address(rs[j]),
{
    if i < j {
        assert(unique_pair(rs, i, j));
    } else {
        assert(unique_pair(rs, j, i));
        if managed_path(rs[i]) is Some && managed_path(rs[j]) is Some {
            let a = managed_path(rs[i])->0;
            let b = managed_path(rs[j])->0;
            assert(!same_path(b, a));
        }
    }
}

proof fn lemma_holds_path_grows(a: Seq<Seq<char>>, b: Seq<Seq<char>>, p: Seq<char>)
    requires
        grows(a, b),
        holds_path(a, p),
    ensures
        holds_path(b, p),
{
    let i = choose|i: int| 0 <= i < a.len() && same_path(#[trigger] a[i], p);
    assert(b.take(a.len() as int)[i] == b[i]);
    assert(same_path(b[i], p));
}

/// What a later step keeps of what an earlier step established.
#[verifier::spinoff_prover]
proof fn lemma_validated_grows(rs: Seq<Resource>, t: ValidationHelpers, u: ValidationHelpers, i: int)
    requires
        0 <= i < rs.len(),
        validated(rs, t, i),
        grows(t.predecessors@, u.predecessors@),
        helpers_grow(t, u),
        t.requires@ == u.requires@,
        t.triggers@ == u.triggers@,
    ensures
        validated(rs, u, i),
{
    let r = rs[i];
    let g = t.predecessors@;
    let h = u.predecessors@;
    assert forall|j: int| 0 <= j < rs.len() && j != i && #[trigger] must_depend(r, rs[j])
        implies h.contains((rid(r), rid(rs[j]))) by {
        lemma_grows_contains(g, h, (rid(r), rid(rs[j])));
    }
    assert forall|j: int| 0 <= j < rs.len() && j != i && meta(r).kind == ResourceType::Execute
        && #[trigger] triggered_by(u.triggers@, rid(rs[j]), r) implies h.contains((rid(r), rid(rs[j]))) by {
        lemma_grows_contains(g, h, (rid(r), rid(rs[j])));
    }
    assert forall|d: int| 0 <= d < requires_of(u.requires@, rid(r)).len() implies {
        let dep = #[trigger] requires_of(u.requires@, rid(r))[d];
        &&& !names(dep, r)
        &&& exists|j: int| 0 <= j < rs.len() && j != i && #[trigger] names(dep, rs[j]) && may_depend(r, rs[j])
            && h.contains((rid(r), rid(rs[j])))
    } by {
        let dep = requires_of(u.requires@, rid(r))[d];
        let j = choose|j: int| 0 <= j < rs.len() && j != i && #[trigger] names(dep, rs[j]) && may_depend(r, rs[j])
            && g.contains((rid(r), rid(rs[j])));
        lemma_grows_contains(g, h, (rid(r), rid(rs[j])));
    }
    if let Some(p) = managed_path(r) {
        lemma_holds_path_grows(texts(t.paths@), texts(u.paths@), p);
    }
    if let Some(nm) = unique_name(r) {
        let s = seen_names(t, r);
        let k = choose|k: int| 0 <= k < s.len() && s[k] == nm;
        assert(seen_names(u, r).take(s.len() as int)[k] == seen_names(u, r)[k]);
    }
    if let Resource::Host(hh) = r {
        let s = t.host_ip_addresses@;
        let k = choose|k: int| 0 <= k < s.len() && s[k] == hh.parameters.ip_address;
        assert(u.host_ip_addresses@.take(s.len() as int)[k] == u.host_ip_addresses@[k]);
    }
}

/// The others, while resource `k` is validated, are the original
/// resources but `k`.
proof fn lemma_others(cur: Seq<Resource>, others: Seq<Resource>, rs0: Seq<Resource>, k: int)
    requires
        0 <= k < rs0.len(),
        rotated(cur, rs0, k),
        others == cur.skip(1),
    ensures
        others.len() == rs0.len() - 1,
        same_params(cur[0], rs0[k]),
        forall|q: int| 0 <= q < others.len() ==> 0 <= #[trigger] orig_of(rs0.len() as int, k, q) < rs0.len()
            && orig_of(rs0.len() as int, k, q) != k
            && same_params(others[q], rs0[orig_of(rs0.len() as int, k, q)]),
        forall|j: int| 0 <= j < rs0.len() && j != k ==> 0 <= #[trigger] pos_of(rs0.len() as int, k, j) < others.len()
            && orig_of(rs0.len() as int, k, pos_of(rs0.len() as int, k, j)) == j,
{
    let n = rs0.len() as int;
    assert(same_params(cur[0], rs0[k + 0]));
    assert forall|q: int| 0 <= q < others.len() implies 0 <= #[trigger] orig_of(n, k, q) < rs0.len()
        && orig_of(n, k, q) != k && same_params(others[q], rs0[orig_of(n, k, q)]) by {
        assert(others[q] == cur[q + 1]);
        if q < n - k - 1 {
            assert(same_params(cur[q + 1], rs0[k + (q + 1)]));
        } else {
            let p = q - (n - k - 1);
            assert(cur[q + 1] == cur[n - k + p]);
            assert(same_params(cur[n - k + p], rs0[p]));
        }
    }
}

/// Whether resource `i` of the catalog `cat`, validated from `rs[i]`, names
/// in its requirements and in its predecessors resource `j` where it must
/// depend on it.
pub open spec fn recorded_links(cat: Seq<Resource>, rs: Seq<Resource>, i: int, j: int) -> bool {
    must_depend(rs[i], rs[j]) ==> names_meta(requirements(cat[i]), rs[j]) && names_meta(predecessors(cat[i]), rs[j])
}

/// Whether resource `i` of the catalog `cat`, validated from `rs[i]`, names
/// in its predecessors resource `j` where the relation `g` records that it
/// comes after `j`.
pub open spec fn recorded_after(cat: Seq<Resource>, rs: Seq<Resource>, g: Seq<Edge>, i: int, j: int) -> bool {
    g.contains((rid(rs[i]), rid(rs[j]))) ==> names_meta(predecessors(cat[i]), rs[j])
}

/// Whether the `m`-th dependency that the configuration states for resource
/// `i` of `rs` names a resource `j` of `rs` that resource `i` of the catalog
/// `cat` records among its requirements and its predecessors, except where
/// the dependency only repeats an order that a trigger already gave an
/// `execute` resource.
pub open spec fn explicit_recorded_at(cat: Seq<Resource>, rs: Seq<Resource>, t: ValidationHelpers, i: int, m: int) -> bool {
    let d = requires_of(t.requires@, rid(rs[i]))[m];
    exists|j: int| 0 <= j < rs.len() && j != i && #[trigger] names(d, rs[j])
        && ((must_depend(rs[i], rs[j]) || !(meta(rs[i]).kind == ResourceType::Execute && triggered_by(t.triggers@, rid(rs[j]), rs[i])))
            ==> names_meta(requirements(cat[i]), rs[j]) && names_meta(predecessors(cat[i]), rs[j]))
}

/// Whether metadata `m` is that of resource `o`: its kind and its id.
pub open spec fn names_at(m: ResourceMetadata, o: Resource) -> bool {
    m.kind == meta(o).kind && m.id@ == rid(o)
}

/// Whether a dependency that the configuration states for `r` names `o`.
pub open spec fn states_dep(t: ValidationHelpers, r: Resource, o: Resource) -> bool {
    exists|m: int| 0 <= m < requires_of(t.requires@, rid(r)).len() && names(#[trigger] requires_of(t.requires@, rid(r))[m], o)
}

/// Whether resource `i` of the catalog `cat`, validated from `rs[i]`, has
/// as its predecessors those it had and then only resources of `rs` that
/// the relation `g` puts before it, none twice, and as its requirements
/// those it had and then only such resources that it must depend on or
/// that a dependency stated for it names, none twice.
pub open spec fn links_exact(cat: Seq<Resource>, rs: Seq<Resource>, t: ValidationHelpers, g: Seq<Edge>, i: int) -> bool {
    &&& grows(predecessors(rs[i]), predecessors(cat[i]))
    &&& grows(requirements(rs[i]), requirements(cat[i]))
    &&& forall|x: int| predecessors(rs[i]).len() <= x < predecessors(cat[i]).len() ==> #[trigger] pred_entry(cat, rs, g, i, x)
    &&& forall|x: int, y: int| predecessors(rs[i]).len() <= x < y < predecessors(cat[i]).len()
        ==> (#[trigger] predecessors(cat[i])[x]).id@ != (#[trigger] predecessors(cat[i])[y]).id@
    &&& forall|x: int| requirements(rs[i]).len() <= x < requirements(cat[i]).len() ==> #[trigger] req_entry(cat, rs, t, g, i, x)
    &&& forall|x: int, y: int| requirements(rs[i]).len() <= x < y < requirements(cat[i]).len()
        ==> (#[trigger] requirements(cat[i])[x]).id@ != (#[trigger] requirements(cat[i])[y]).id@
}

/// Whether predecessor `x` of resource `i` of `cat` names a resource `j`
/// of `rs` other than `i` that the relation `g` puts before `i`.
pub open spec fn pred_entry(cat: Seq<Resource>, rs: Seq<Resource>, g: Seq<Edge>, i: int, x: int) -> bool {
    exists|j: int| 0 <= j < rs.len() && j != i && #[trigger] names_at(predecessors(cat[i])[x], rs[j])
        && g.contains((rid(rs[i]), rid(rs[j])))
}

/// Whether requirement `x` of resource `i` of `cat` names a resource `j`
/// of `rs` other than `i` that the relation `g` puts before `i`, and that
/// `i` must depend on or that a dependency stated for `i` names.
pub open spec fn req_entry(cat: Seq<Resource>, rs: Seq<Resource>, t: ValidationHelpers, g: Seq<Edge>, i: int, x: int) -> bool {
    exists|j: int| 0 <= j < rs.len() && j != i && #[trigger] names_at(requirements(cat[i])[x], rs[j])
        && g.contains((rid(rs[i]), rid(rs[j]))) && (must_depend(rs[i], rs[j]) || states_dep(t, rs[i], rs[j]))
}

/// Whether the relation `g` puts resource `j` of `rs` before resource `i`
/// only where the parameters, a trigger or a stated dependency link them.
pub open spec fn edge_justified(rs: Seq<Resource>, t: ValidationHelpers, g: Seq<Edge>, i: int, j: int) -> bool {
    g.contains((rid(rs[i]), rid(rs[j]))) ==> i != j && (implicit_link(t, rs[i], rs[j]) || states_dep(t, rs[i], rs[j]))
}

/// Whether `w` is a walk of positions of the catalog `cat` in which each
/// resource lists the next among its requirements.
pub open spec fn requires_walk(cat: Seq<Resource>, w: Seq<int>) -> bool {
    &&& w.len() >= 2
    &&& forall|x: int| 0 <= x < w.len() ==> 0 <= #[trigger] w[x] < cat.len()
    &&& forall|x: int| 0 <= x < w.len() - 1 ==> #[trigger] names_meta(requirements(cat[w[x]]), cat[w[x + 1]])
}

/// In a catalog whose requirements validation wrote, no resource requires
/// itself, directly or through others.
pub proof fn lemma_requires_acyclic(cat: Seq<Resource>, rs: Seq<Resource>, t: ValidationHelpers, g: Seq<Edge>, w: Seq<int>)
    requires
        cat.len() == rs.len(),
        forall|i: int| 0 <= i < rs.len() ==> same_params(#[trigger] cat[i], rs[i]),
        distinct_ids(rs),
        acyclic(g),
        forall|i: int| 0 <= i < rs.len() ==> requirements(#[trigger] rs[i]).len() == 0,
        forall|i: int| 0 <= i < rs.len() ==> #[trigger] links_exact(cat, rs, t, g, i),
        requires_walk(cat, w),
    ensures
        w[0] != w.last(),
{
    let ids = Seq::new(w.len(), |x: int| rid(rs[w[x]]));
    assert forall|x: int| 0 <= x < ids.len() - 1 implies #[trigger] g.contains((ids[x], ids[x + 1])) by {
        let a = w[x];
        let b = w[x + 1];
        assert(0 <= a < cat.len() && 0 <= b < cat.len());
        assert(names_meta(requirements(cat[a]), cat[b]));
        let s = requirements(cat[a]);
        let y = choose|y: int| 0 <= y < s.len() && (#[trigger] s[y]).kind == meta(cat[b]).kind && s[y].id@ == rid(cat[b]);
        assert(links_exact(cat, rs, t, g, a));
        assert(requirements(rs[a]).len() == 0);
        assert(req_entry(cat, rs, t, g, a, y));
        let j = choose|j: int| 0 <= j < rs.len() && j != a && #[trigger] names_at(requirements(cat[a])[y], rs[j])
            && g.contains((rid(rs[a]), rid(rs[j]))) && (must_depend(rs[a], rs[j]) || states_dep(t, rs[a], rs[j]));
        assert(same_params(cat[b], rs[b]));
        lemma_same_params(cat[b], rs[b]);
        if j != b {
            assert(rid(rs[j]) != rid(rs[b]));
        }
    }
    if w[0] == w.last() {
        assert(is_walk(g, ids));
        assert(ids[0] == ids.last());
        assert(reaches(g, ids[0], ids[0]));
    }
}

proof fn lemma_step_exact(
    rs0: Seq<Resource>, t0: ValidationHelpers, t: ValidationHelpers, cur: Seq<Resource>, c: Resource, cf: Resource,
    others: Seq<Resource>, gk: Seq<Edge>, gu: Seq<Edge>, v0: Seq<Resource>, v1: Seq<Resource>, k: int,
)
    requires
        0 <= k < rs0.len(),
        distinct_ids(rs0),
        rotated(cur, rs0, k),
        others == cur.skip(1),
        c == rs0[k],
        t.requires@ == t0.requires@,
        t.triggers@ == t0.triggers@,
        grows(gk, gu),
        edges_from(gk, gu, rid(c)),
        forall|q: int| gk.len() <= q < gu.len() ==> #[trigger] justified_edge(gu, q, t, c, others),
        exists|mid: Resource| requirements(mid) == requirements(c) && predecessors(mid) == predecessors(c)
            && same_params(c, mid) && #[trigger] fresh_links(gk, gu, others, t, c, mid, cf),
        forall|m: int| 0 <= m < requires_of(t.requires@, rid(c)).len()
            ==> #[trigger] explicit_ok(others, gu, c, requires_of(t.requires@, rid(c))[m]),
        forall|q: int| 0 <= q < gk.len() ==> exists|i: int| 0 <= i < k && (#[trigger] gk[q]).0 == #[trigger] rid(rs0[i]),
        v0.len() == k,
        v1 == v0.push(cf),
        forall|i: int| 0 <= i < k ==> #[trigger] links_exact(v0, rs0, t0, gk, i),
        forall|i: int, j: int| 0 <= i < k && 0 <= j < rs0.len() ==> #[trigger] edge_justified(rs0, t0, gk, i, j),
    ensures
        forall|i: int| 0 <= i < k + 1 ==> #[trigger] links_exact(v1, rs0, t0, gu, i),
        forall|i: int, j: int| 0 <= i < k + 1 && 0 <= j < rs0.len() ==> #[trigger] edge_justified(rs0, t0, gu, i, j),
{
    let n = rs0.len() as int;
    lemma_others(cur, others, rs0, k);
    assert forall|e: Edge| gk.contains(e) implies gu.contains(e) by {
        let q = choose|q: int| 0 <= q < gk.len() && gk[q] == e;
        assert(gu.take(gk.len() as int)[q] == gu[q]);
    }
    // Earlier resources keep what was stated of them.
    assert forall|i: int| 0 <= i < k implies #[trigger] links_exact(v1, rs0, t0, gu, i) by {
        assert(links_exact(v0, rs0, t0, gk, i));
        assert(v1[i] == v0[i]);
        let p = predecessors(v1[i]);
        let q = requirements(v1[i]);
        assert(grows(predecessors(rs0[i]), p));
        assert(grows(requirements(rs0[i]), q));
        assert forall|x: int, y: int| predecessors(rs0[i]).len() <= x < y < p.len() implies (#[trigger] p[x]).id@ != (#[trigger] p[y]).id@ by {
            assert(predecessors(v0[i])[x].id@ != predecessors(v0[i])[y].id@);
        }
        assert forall|x: int, y: int| requirements(rs0[i]).len() <= x < y < q.len() implies (#[trigger] q[x]).id@ != (#[trigger] q[y]).id@ by {
            assert(requirements(v0[i])[x].id@ != requirements(v0[i])[y].id@);
        }
        assert forall|x: int| predecessors(rs0[i]).len() <= x < p.len() implies #[trigger] pred_entry(v1, rs0, gu, i, x) by {
            assert(pred_entry(v0, rs0, gk, i, x));
            let j = choose|j: int| 0 <= j < rs0.len() && j != i
                && #[trigger] names_at(predecessors(v0[i])[x], rs0[j]) && gk.contains((rid(rs0[i]), rid(rs0[j])));
            assert(names_at(predecessors(v1[i])[x], rs0[j]) && gu.contains((rid(rs0[i]), rid(rs0[j]))));
        }
        assert forall|x: int| requirements(rs0[i]).len() <= x < q.len() implies #[trigger] req_entry(v1, rs0, t0, gu, i, x) by {
            assert(req_entry(v0, rs0, t0, gk, i, x));
            let j = choose|j: int| 0 <= j < rs0.len() && j != i
                && #[trigger] names_at(requirements(v0[i])[x], rs0[j]) && gk.contains((rid(rs0[i]), rid(rs0[j])))
                && (must_depend(rs0[i], rs0[j]) || states_dep(t0, rs0[i], rs0[j]));
            assert(names_at(requirements(v1[i])[x], rs0[j]) && gu.contains((rid(rs0[i]), rid(rs0[j]))));
        }
    }
    // The resource just validated.
    let mid = choose|mid: Resource| requirements(mid) == requirements(c) && predecessors(mid) == predecessors(c)
        && same_params(c, mid) && #[trigger] fresh_links(gk, gu, others, t, c, mid, cf);
    assert(v1[k] == cf);
    let p = predecessors(cf);
    let q = requirements(cf);
    assert(links_exact(v1, rs0, t0, gu, k)) by {
        assert(keeps_links(mid, cf));
        assert(grows(predecessors(rs0[k]), p));
        assert(grows(requirements(rs0[k]), q));
        assert forall|x: int, y: int| predecessors(rs0[k]).len() <= x < y < p.len() implies (#[trigger] p[x]).id@ != (#[trigger] p[y]).id@ by {
            assert(predecessors(mid).len() <= x);
        }
        assert forall|x: int, y: int| requirements(rs0[k]).len() <= x < y < q.len() implies (#[trigger] q[x]).id@ != (#[trigger] q[y]).id@ by {
            assert(requirements(mid).len() <= x);
        }
        assert forall|x: int| predecessors(rs0[k]).len() <= x < p.len() implies #[trigger] pred_entry(v1, rs0, gu, k, x) by {
            assert(pred_ok(p[x], gk, gu, others));
            let pp = choose|pp: int| 0 <= pp < others.len() && p[x].kind == meta(others[pp]).kind && p[x].id@ == rid(#[trigger] others[pp])
                && edge_to(gk, gu, rid(others[pp]));
            let qq = choose|qq: int| gk.len() <= qq < gu.len() && (#[trigger] gu[qq]).1 == rid(others[pp]);
            let j = orig_of(n, k, pp);
            lemma_same_params(others[pp], rs0[j]);
            assert(gu[qq].0 == rid(c));
            assert(gu[qq] == (rid(rs0[k]), rid(rs0[j])));
            assert(names_at(p[x], rs0[j]));
            assert(names_at(predecessors(v1[k])[x], rs0[j]) && gu.contains((rid(rs0[k]), rid(rs0[j]))));
        }
        assert forall|x: int| requirements(rs0[k]).len() <= x < q.len() implies #[trigger] req_entry(v1, rs0, t0, gu, k, x) by {
            assert(req_ok(q[x], gk, gu, t, c, others));
            let pp = choose|pp: int| 0 <= pp < others.len() && q[x].kind == meta(others[pp]).kind && q[x].id@ == rid(#[trigger] others[pp])
                && edge_to(gk, gu, rid(others[pp])) && (must_depend(c, others[pp]) || explicit_names(t, c, others, others[pp]));
            let qq = choose|qq: int| gk.len() <= qq < gu.len() && (#[trigger] gu[qq]).1 == rid(others[pp]);
            let j = orig_of(n, k, pp);
            lemma_same_params(others[pp], rs0[j]);
            assert(gu[qq].0 == rid(c));
            assert(gu[qq] == (rid(rs0[k]), rid(rs0[j])));
            assert(names_at(q[x], rs0[j]));
            if !must_depend(c, others[pp]) {
                let m = choose|m: int| 0 <= m < requires_of(t.requires@, rid(c)).len()
                    && #[trigger] dep_target(others, requires_of(t.requires@, rid(c))[m]) == others[pp];
                let d = requires_of(t.requires@, rid(c))[m];
                assert(explicit_ok(others, gu, c, d));
                assert(names(d, others[first_named(others, d)->0]));
                assert(names(d, rs0[j]));
                assert(requires_of(t0.requires@, rid(rs0[k]))[m] == d);
                assert(states_dep(t0, rs0[k], rs0[j]));
            }
            lemma_same_params(c, rs0[k]);
            assert(must_depend(c, others[pp]) == must_depend(rs0[k], rs0[j]));
            assert(names_at(requirements(v1[k])[x], rs0[j]) && gu.contains((rid(rs0[k]), rid(rs0[j]))));
        }
    }
    // What the relation records.
    assert forall|i: int, j: int| 0 <= i < k + 1 && 0 <= j < rs0.len() implies #[trigger] edge_justified(rs0, t0, gu, i, j) by {
        let e = (rid(rs0[i]), rid(rs0[j]));
        if gu.contains(e) {
            let qe = choose|qe: int| 0 <= qe < gu.len() && gu[qe] == e;
            if qe < gk.len() {
                assert(gu.take(gk.len() as int)[qe] == gu[qe]);
                assert(gk.contains(e));
                let i2 = choose|i2: int| 0 <= i2 < k && (#[trigger] gk[qe]).0 == #[trigger] rid(rs0[i2]);
                if i2 != i {
                    assert(rid(rs0[i2]) != rid(rs0[i]));
                }
                assert(edge_justified(rs0, t0, gk, i, j));
            } else {
                assert(gu[qe].0 == rid(c));
                if i != k {
                    assert(rid(rs0[i]) != rid(rs0[k]));
                }
                assert(justified_edge(gu, qe, t, c, others));
                let pp = choose|pp: int| 0 <= pp < others.len() && gu[qe] == (rid(c), rid(#[trigger] others[pp]))
                    && (implicit_link(t, c, others[pp]) || explicit_names(t, c, others, others[pp]));
                let j2 = orig_of(n, k, pp);
                lemma_same_params(others[pp], rs0[j2]);
                if j2 != j {
                    assert(rid(rs0[j2]) != rid(rs0[j]));
                }
                if implicit_link(t, c, others[pp]) {
                    assert(implicit_link(t0, rs0[k], rs0[j]));
                } else {
                    let m = choose|m: int| 0 <= m < requires_of(t.requires@, rid(c)).len()
                        && #[trigger] dep_target(others, requires_of(t.requires@, rid(c))[m]) == others[pp];
                    let d = requires_of(t.requires@, rid(c))[m];
                    assert(explicit_ok(others, gu, c, d));
                    assert(names(d, others[first_named(others, d)->0]));
                    assert(names(d, rs0[j]));
                    assert(requires_of(t0.requires@, rid(rs0[k]))[m] == d);
                }
            }
        }
    }
}

/// Whether directory `i` of the catalog `cat`, validated from `rs[i]`,
/// holds as its child nodes those it had, then the nodes in it that the
/// other resources manage, taken in the order in which they follow it.
pub open spec fn recorded_children(cat: Seq<Resource>, rs: Seq<Resource>, i: int) -> bool {
    rs[i] is Directory ==> child_views(child_nodes(cat[i]))
        == child_views(child_nodes(rs[i])) + directory_children(rs.skip(i + 1) + rs.take(i), managed_path(rs[i])->0)
}

/// Whether directory `i` of the catalog `rs` holds as its child nodes the
/// nodes in it that the other resources manage, taken in the order in which
/// they follow it.
pub open spec fn holds_children(rs: Seq<Resource>, i: int) -> bool {
    rs[i] is Directory ==> child_views(child_nodes(rs[i])) == directory_children(rs.skip(i + 1) + rs.take(i), managed_path(rs[i])->0)
}

/// Resources that agree in their nodes, position by position, give a
/// directory the same child nodes.
pub proof fn lemma_children_same(a: Seq<Resource>, b: Seq<Resource>, dir: Seq<char>, tag: int)
    requires
        a.len() == b.len(),
        forall|p: int| 0 <= p < a.len() ==> node_of(#[trigger] a[p]) == node_of(b[p]),
    ensures
        children_of(a, dir, tag) == children_of(b, dir, tag),
    decreases a.len(),
{
    if a.len() > 0 {
        lemma_children_same(a.drop_last(), b.drop_last(), dir, tag);
        assert(node_of(a[a.len() - 1]) == node_of(b[b.len() - 1]));
    }
}

/// The others while resource `k` is validated, as the original catalog
/// gives them: ids that differ, and the same nodes, in the order in which
/// they follow `k`.
proof fn lemma_others_order(cur: Seq<Resource>, others: Seq<Resource>, rs0: Seq<Resource>, k: int, dir: Seq<char>)
    requires
        0 <= k < rs0.len(),
        rotated(cur, rs0, k),
        others == cur.skip(1),
        distinct_ids(rs0),
    ensures
        distinct_ids(others),
        directory_children(others, dir) == directory_children(rs0.skip(k + 1) + rs0.take(k), dir),
{
    let n = rs0.len() as int;
    lemma_others(cur, others, rs0, k);
    let b = rs0.skip(k + 1) + rs0.take(k);
    assert forall|p: int, q: int| 0 <= p < others.len() && 0 <= q < others.len() && p != q
        implies rid(#[trigger] others[p]) != rid(#[trigger] others[q]) by {
        lemma_same_params(others[p], rs0[orig_of(n, k, p)]);
        lemma_same_params(others[q], rs0[orig_of(n, k, q)]);
    }
    assert forall|p: int| 0 <= p < others.len() implies node_of(#[trigger] others[p]) == node_of(b[p]) by {
        assert(b[p] == rs0[orig_of(n, k, p)]);
        assert(same_params(others[p], rs0[orig_of(n, k, p)]));
    }
    lemma_children_same(others, b, dir, 0);
    lemma_children_same(others, b, dir, 1);
    lemma_children_same(others, b, dir, 2);
}

/// The ids of the others differ from that of the resource validated.
proof fn lemma_other_ids(cur: Seq<Resource>, others: Seq<Resource>, rs0: Seq<Resource>, k: int)
    requires
        0 <= k < rs0.len(),
        rotated(cur, rs0, k),
        others == cur.skip(1),
        distinct_ids(rs0),
    ensures
        forall|p: int| 0 <= p < others.len() ==> rid(#[trigger] others[p]) != rid(cur[0]),
{
    lemma_others(cur, others, rs0, k);
    lemma_same_params(cur[0], rs0[k]);
    assert forall|p: int| 0 <= p < others.len() implies rid(#[trigger] others[p]) != rid(cur[0]) by {
        let j = orig_of(rs0.len() as int, k, p);
        lemma_same_params(others[p], rs0[j]);
        assert(rid(rs0[j]) != rid(rs0[k]));
    }
}

/// What validating resource `k` against the others establishes, stated
/// over the original positions.
proof fn lemma_step(cur: Seq<Resource>, others: Seq<Resource>, rs0: Seq<Resource>, k: int, t: ValidationHelpers, u: ValidationHelpers)
    requires
        0 <= k < rs0.len(),
        rotated(cur, rs0, k),
        others == cur.skip(1),
        t.requires@ == u.requires@,
        t.triggers@ == u.triggers@,
        managed_path(cur[0]) matches Some(p) ==> holds_path(texts(u.paths@), p),
        unique_name(cur[0]) matches Some(nm) ==> seen_names(u, cur[0]).contains(nm),
        cur[0] matches Resource::Host(h) ==> u.host_ip_addresses@.contains(h.parameters.ip_address),
        forall|p: int| 0 <= p < others.len() && #[trigger] must_depend(cur[0], others[p])
            ==> u.predecessors@.contains((rid(cur[0]), rid(others[p]))),
        forall|p: int| 0 <= p < others.len() && meta(cur[0]).kind == ResourceType::Execute
            && #[trigger] triggered_by(t.triggers@, rid(others[p]), cur[0])
            ==> u.predecessors@.contains((rid(cur[0]), rid(others[p]))),
        forall|j: int| 0 <= j < requires_of(t.requires@, rid(cur[0])).len()
            ==> #[trigger] explicit_ok(others, u.predecessors@, cur[0], requires_of(t.requires@, rid(cur[0]))[j]),
        forall|j: int| 0 <= j < triggers_of(t.triggers@, rid(cur[0])).len()
            ==> !#[trigger] trigger_fails(others, cur[0], triggers_of(t.triggers@, rid(cur[0]))[j]),
    ensures
        validated(rs0, u, k),
{
    let n = rs0.len() as int;
    let r = rs0[k];
    let c0 = cur[0];
    let g = u.predecessors@;
    lemma_others(cur, others, rs0, k);
    lemma_same_params(c0, r);
    assert forall|j: int| 0 <= j < n && j != k && #[trigger] must_depend(r, rs0[j])
        implies g.contains((rid(r), rid(rs0[j]))) by {
        let q = pos_of(n, k, j);
        lemma_same_params(others[q], rs0[j]);
        assert(must_depend(c0, others[q]));
    }
    assert forall|j: int| 0 <= j < n && j != k && meta(r).kind == ResourceType::Execute
        && #[trigger] triggered_by(u.triggers@, rid(rs0[j]), r) implies g.contains((rid(r), rid(rs0[j]))) by {
        let q = pos_of(n, k, j);
        lemma_same_params(others[q], rs0[j]);
        let ts = entry_of(t.triggers@, rid(rs0[j]))->0;
        let w = choose|w: int| 0 <= w < ts@.len() && #[trigger] trigger_names(ts@[w], r);
        assert(trigger_names(ts@[w], c0));
        assert(triggered_by(t.triggers@, rid(others[q]), c0));
    }
    assert forall|d: int| 0 <= d < requires_of(u.requires@, rid(r)).len() implies {
        let dep = #[trigger] requires_of(u.requires@, rid(r))[d];
        &&& !names(dep, r)
        &&& exists|j: int| 0 <= j < n && j != k && #[trigger] names(dep, rs0[j]) && may_depend(r, rs0[j])
            && g.contains((rid(r), rid(rs0[j])))
    } by {
        let dep = requires_of(u.requires@, rid(r))[d];
        assert(explicit_ok(others, g, c0, dep));
        let q = first_named(others, dep)->0;
        let j = orig_of(n, k, q);
        lemma_same_params(others[q], rs0[j]);
        assert(names(dep, rs0[j]) && may_depend(r, rs0[j]) && g.contains((rid(r), rid(rs0[j]))));
    }
    assert forall|d: int| 0 <= d < triggers_of(u.triggers@, rid(r)).len() implies {
        let tr = #[trigger] triggers_of(u.triggers@, rid(r))[d];
        &&& !trigger_names(tr, r)
        &&& exists|j: int| 0 <= j < n && j != k && #[trigger] trigger_names(tr, rs0[j])
    } by {
        let tr = triggers_of(u.triggers@, rid(r))[d];
        assert(!trigger_fails(others, c0, tr));
        let q = first_triggered(others, tr)->0;
        let j = orig_of(n, k, q);
        lemma_same_params(others[q], rs0[j]);
        assert(trigger_names(tr, rs0[j]));
    }
}

/// Resources validated one after the other differ in what must be unique.
proof fn lemma_unique_step(rs0: Seq<Resource>, t: ValidationHelpers, c: Resource, i: int, k: int)
    requires
        0 <= i < k < rs0.len(),
        same_params(c, rs0[k]),
        validated(rs0, t, i),
        managed_path(c) matches Some(p) ==> !holds_path(texts(t.paths@), p),
        unique_name(c) matches Some(nm) ==> !seen_names(t, c).contains(nm),
        c matches Resource::Host(h) ==> !t.host_ip_addresses@.contains(h.parameters.ip_address),
    ensures
        unique_pair(rs0, i, k),
{
    let a = rs0[i];
    let b = rs0[k];
    lemma_same_params(c, b);
    if managed_path(a) is Some && managed_path(b) is Some {
        if same_path(managed_path(a)->0, managed_path(b)->0) {
            let v = texts(t.paths@);
            let w = choose|w: int| 0 <= w < v.len() && same_path(#[trigger] v[w], managed_path(a)->0);
            assert(same_path(v[w], managed_path(c)->0));
        }
    }
}

/// Whether the parent of the path that `r` manages is no file that a
/// resource manages.
pub open spec fn parent_ok(t: ValidationHelpers, r: Resource) -> bool {
    managed_path(r) matches Some(p) ==> !(components(p).len() > 0 && holds_parent(texts(t.file_paths@), p))
}

/// Whether host entry `a` is not written to a file `b` whose content is managed.
pub open spec fn host_target_ok(a: Resource, b: Resource) -> bool {
    (a matches Resource::Host(h) && is_file_at(b, h.parameters.target@))
        ==> (b matches Resource::File(f) && f.parameters.content is None && f.parameters.source is None)
}

/// Whether `h` holds an edge between any two resources of `rs` that
/// validation may record.
pub open spec fn all_links_in(h: Seq<Edge>, t: ValidationHelpers, rs: Seq<Resource>) -> bool {
    forall|i: int, j: int|
        #![trigger implicit_link(t, rs[i], rs[j])]
        #![trigger explicit_link(t, rs[i], rs[j])]
        0 <= i < rs.len() && 0 <= j < rs.len() && i != j
        && (implicit_link(t, rs[i], rs[j]) || explicit_link(t, rs[i], rs[j]))
        ==> h.contains((rid(rs[i]), rid(rs[j])))
}

/// Whether the dependencies and triggers stated for resource `i` each name
/// another resource of `rs`, and `i` may depend on each resource a
/// dependency names.
pub open spec fn stated_resolve(t: ValidationHelpers, rs: Seq<Resource>, i: int) -> bool {
    &&& forall|d: int| 0 <= d < requires_of(t.requires@, rid(rs[i])).len() ==> {
        let dep = #[trigger] requires_of(t.requires@, rid(rs[i]))[d];
        &&& !names(dep, rs[i])
        &&& exists|j: int| 0 <= j < rs.len() && #[trigger] names(dep, rs[j])
        &&& forall|j: int| 0 <= j < rs.len() && #[trigger] names(dep, rs[j]) ==> may_depend(rs[i], rs[j])
    }
    &&& forall|d: int| 0 <= d < triggers_of(t.triggers@, rid(rs[i])).len() ==> {
        let tr = #[trigger] triggers_of(t.triggers@, rid(rs[i]))[d];
        &&& !trigger_names(tr, rs[i])
        &&& exists|j: int| 0 <= j < rs.len() && #[trigger] trigger_names(tr, rs[j])
    }
}

/// Whether a catalog passes validation when it starts with `t`: no path,
/// name or address is recorded yet; paths, names of a kind and host
/// addresses are unique; no managed path lies in a file; no host entry is
/// written to a file whose content is managed; the dependencies and
/// triggers stated resolve; and the relation of predecessors, with every
/// order that the resources call for, holds no loop.
pub open spec fn catalog_consistent(t: ValidationHelpers, rs: Seq<Resource>) -> bool {
    &&& t.paths@.len() == 0 && t.group_names@.len() == 0 && t.user_names@.len() == 0
    &&& t.apt_package_names@.len() == 0 && t.execute_names@.len() == 0 && t.host_ip_addresses@.len() == 0
    &&& forall|i: int, j: int| 0 <= i < j < rs.len() ==> #[trigger] unique_pair(rs, i, j)
    &&& forall|i: int| 0 <= i < rs.len() ==> #[trigger] parent_ok(t, rs[i])
    &&& forall|i: int, j: int| 0 <= i < rs.len() && 0 <= j < rs.len() ==> #[trigger] host_target_ok(rs[i], rs[j])
    &&& forall|i: int| 0 <= i < rs.len() ==> #[trigger] stated_resolve(t, rs, i)
    &&& exists|h: Seq<Edge>| #[trigger] acyclic(h) && subgraph(t.predecessors@, h) && all_links_in(h, t, rs)
}

/// Whether `r` is a resource of kind `v` whose unique name is `name`.
pub open spec fn keyed(r: Resource, v: ResourceType, name: Seq<char>) -> bool {
    variant_kind(r) == v && unique_name(r) == Some(name)
}

/// Whether `r` is a host entry for address `ip`.
pub open spec fn host_keyed(r: Resource, ip: IpAddress) -> bool {
    r is Host && host_address(r) == ip
}

/// Whether each path, name and address recorded in `t` is that of one of
/// the first `k` resources of `rs`.
pub open spec fn keys_from(t: ValidationHelpers, rs: Seq<Resource>, k: int) -> bool {
    &&& forall|m: int| 0 <= m < texts(t.paths@).len() ==> #[trigger] path_known(rs, k, texts(t.paths@)[m])
    &&& names_from(texts(t.group_names@), ResourceType::Group, rs, k)
    &&& names_from(texts(t.user_names@), ResourceType::User, rs, k)
    &&& names_from(texts(t.apt_package_names@), ResourceType::AptPackage, rs, k)
    &&& names_from(texts(t.execute_names@), ResourceType::Execute, rs, k)
    &&& forall|m: int| 0 <= m < t.host_ip_addresses@.len() ==> #[trigger] host_known(rs, k, t.host_ip_addresses@[m])
}

/// Whether one of the first `k` resources of `rs` manages path `p`.
pub open spec fn path_known(rs: Seq<Resource>, k: int, p: Seq<char>) -> bool {
    exists|i: int| 0 <= i < k && #[trigger] managed_path(rs[i]) == Some(p)
}

/// Whether one of the first `k` resources of `rs` is a host entry for `ip`.
pub open spec fn host_known(rs: Seq<Resource>, k: int, ip: IpAddress) -> bool {
    exists|i: int| 0 <= i < k && #[trigger] host_keyed(rs[i], ip)
}

/// Whether each name in `names` is that of a resource of kind `v` among the
/// first `k` of `rs`.
pub open spec fn names_from(names: Seq<Seq<char>>, v: ResourceType, rs: Seq<Resource>, k: int) -> bool {
    forall|m: int| 0 <= m < names.len() ==> #[trigger] name_known(rs, k, v, names[m])
}

/// Whether one of the first `k` resources of `rs` is of kind `v` and named `x`.
pub open spec fn name_known(rs: Seq<Resource>, k: int, v: ResourceType, x: Seq<char>) -> bool {
    exists|i: int| 0 <= i < k && #[trigger] keyed(rs[i], v, x)
}

/// Recording the name of resource `k`, or nothing, keeps the names those
/// of the resources validated.
proof fn lemma_names_step(a: Seq<Seq<char>>, b: Seq<Seq<char>>, v: ResourceType, rs0: Seq<Resource>, k: int)
    requires
        0 <= k < rs0.len(),
        names_from(a, v, rs0, k),
        b == a || (b.len() == a.len() + 1 && b.take(a.len() as int) == a && keyed(rs0[k], v, b.last())),
    ensures
        names_from(b, v, rs0, k + 1),
{
    assert forall|m: int| 0 <= m < b.len() implies #[trigger] name_known(rs0, k + 1, v, b[m]) by {
        if m < a.len() {
            assert(b[m] == a[m]) by {
                if b != a {
                    assert(b.take(a.len() as int)[m] == b[m]);
                }
            }
            assert(name_known(rs0, k, v, a[m]));
            let i = choose|i: int| 0 <= i < k && #[trigger] keyed(rs0[i], v, a[m]);
            assert(keyed(rs0[i], v, b[m]));
        } else {
            assert(keyed(rs0[k], v, b[m]));
        }
    }
}

/// A resource that a dependency names gives a first one.
proof fn lemma_first_named_exists(rs: Seq<Resource>, d: Dependency, q: int)
    requires
        0 <= q < rs.len(),
        names(d, rs[q]),
    ensures
        first_named(rs, d) is Some,
    decreases q,
{
    if exists|j: int| 0 <= j < q && #[trigger] names(d, rs[j]) {
        let j = choose|j: int| 0 <= j < q && #[trigger] names(d, rs[j]);
        lemma_first_named_exists(rs, d, j);
    } else {
        assert(forall|j: int| 0 <= j < q ==> !#[trigger] names(d, rs[j]));
    }
}

/// An `execute` resource that a trigger names gives a first one.
proof fn lemma_first_triggered_exists(rs: Seq<Resource>, t: Trigger, q: int)
    requires
        0 <= q < rs.len(),
        trigger_names(t, rs[q]),
    ensures
        first_triggered(rs, t) is Some,
    decreases q,
{
    if exists|j: int| 0 <= j < q && #[trigger] trigger_names(t, rs[j]) {
        let j = choose|j: int| 0 <= j < q && #[trigger] trigger_names(t, rs[j]);
        lemma_first_triggered_exists(rs, t, j);
    } else {
        assert(forall|j: int| 0 <= j < q ==> !#[trigger] trigger_names(t, rs[j]));
    }
}

/// In a consistent catalog, the checks of its kind pass for the resource
/// validated at step `k`.
proof fn lemma_kind_ok(cur: Seq<Resource>, others: Seq<Resource>, rs0: Seq<Resource>, k: int, t: ValidationHelpers, t0: ValidationHelpers)
    requires
        0 <= k < rs0.len(),
        rotated(cur, rs0, k),
        others == cur.skip(1),
        catalog_consistent(t0, rs0),
        t.file_paths@ == t0.file_paths@,
        keys_from(t, rs0, k),
    ensures
        kind_check(t, others, cur[0]) is Ok,
{
    let c = cur[0];
    let r = rs0[k];
    let n = rs0.len() as int;
    lemma_others(cur, others, rs0, k);
    lemma_same_params_agree(c, r);
    if let Some(p) = managed_path(c) {
        assert(!holds_path(texts(t.paths@), p)) by {
            if holds_path(texts(t.paths@), p) {
                let m = choose|m: int| 0 <= m < texts(t.paths@).len() && same_path(#[trigger] texts(t.paths@)[m], p);
                assert(path_known(rs0, k, texts(t.paths@)[m]));
                let i = choose|i: int| 0 <= i < k && #[trigger] managed_path(rs0[i]) == Some(texts(t.paths@)[m]);
                assert(unique_pair(rs0, i, k));
            }
        }
        assert(parent_ok(t0, rs0[k]));
    }
    if let Some(nm) = unique_name(c) {
        if seen_names(t, c).contains(nm) {
            let m = choose|m: int| 0 <= m < seen_names(t, c).len() && seen_names(t, c)[m] == nm;
            match c {
                Resource::Group(_) => {
                    assert(name_known(rs0, k, ResourceType::Group, texts(t.group_names@)[m]));
                    let i = choose|i: int| 0 <= i < k && #[trigger] keyed(rs0[i], ResourceType::Group, texts(t.group_names@)[m]);
                    assert(unique_pair(rs0, i, k));
                },
                Resource::User(_) => {
                    assert(name_known(rs0, k, ResourceType::User, texts(t.user_names@)[m]));
                    let i = choose|i: int| 0 <= i < k && #[trigger] keyed(rs0[i], ResourceType::User, texts(t.user_names@)[m]);
                    assert(unique_pair(rs0, i, k));
                },
                Resource::AptPackage(_) => {
                    assert(name_known(rs0, k, ResourceType::AptPackage, texts(t.apt_package_names@)[m]));
                    let i = choose|i: int| 0 <= i < k && #[trigger] keyed(rs0[i], ResourceType::AptPackage, texts(t.apt_package_names@)[m]);
                    assert(unique_pair(rs0, i, k));
                },
                Resource::Execute(_) => {
                    assert(name_known(rs0, k, ResourceType::Execute, texts(t.execute_names@)[m]));
                    let i = choose|i: int| 0 <= i < k && #[trigger] keyed(rs0[i], ResourceType::Execute, texts(t.execute_names@)[m]);
                    assert(unique_pair(rs0, i, k));
                },
                _ => {},
            }
        }
    }
    if let Resource::Host(hc) = c {
        assert(!t.host_ip_addresses@.contains(hc.parameters.ip_address)) by {
            if t.host_ip_addresses@.contains(hc.parameters.ip_address) {
                let m = choose|m: int| 0 <= m < t.host_ip_addresses@.len() && t.host_ip_addresses@[m] == hc.parameters.ip_address;
                assert(host_known(rs0, k, t.host_ip_addresses@[m]));
                let i = choose|i: int| 0 <= i < k && #[trigger] host_keyed(rs0[i], t.host_ip_addresses@[m]);
                assert(unique_pair(rs0, i, k));
            }
        }
        if let Some(q) = first_file_at(others, hc.parameters.target@) {
            let j = orig_of(n, k, q);
            lemma_same_params_agree(others[q], rs0[j]);
            assert(is_file_at(others[q], hc.parameters.target@));
            assert(is_file_at(rs0[j], hc.parameters.target@));
            assert(host_target_ok(rs0[k], rs0[j]));
        }
    }
}

/// In a consistent catalog, the relation that holds every order the
/// resources call for holds those recorded at step `k`.
proof fn lemma_links_ok(
    cur: Seq<Resource>,
    others: Seq<Resource>,
    rs0: Seq<Resource>,
    k: int,
    t: ValidationHelpers,
    t0: ValidationHelpers,
    h: Seq<Edge>,
)
    requires
        0 <= k < rs0.len(),
        rotated(cur, rs0, k),
        others == cur.skip(1),
        t.requires@ == t0.requires@,
        t.triggers@ == t0.triggers@,
        all_links_in(h, t0, rs0),
    ensures
        links_hold(h, t, cur[0], others),
{
    let c = cur[0];
    let r = rs0[k];
    let n = rs0.len() as int;
    lemma_others(cur, others, rs0, k);
    lemma_same_params(c, r);
    assert forall|p: int| 0 <= p < others.len() && #[trigger] implicit_link(t, c, others[p])
        implies h.contains((rid(c), rid(others[p]))) by {
        let j = orig_of(n, k, p);
        lemma_same_params(others[p], rs0[j]);
        lemma_implicit_link_same(t, c, r, others[p]);
        assert(implicit_link(t0, r, rs0[j]));
    }
    assert forall|p: int| 0 <= p < others.len() && #[trigger] explicit_link(t, c, others[p])
        implies h.contains((rid(c), rid(others[p]))) by {
        let j = orig_of(n, k, p);
        lemma_same_params(others[p], rs0[j]);
        let ds = requires_of(t.requires@, rid(c));
        let w = choose|w: int| 0 <= w < ds.len() && #[trigger] names(ds[w], others[p]);
        assert(names(ds[w], rs0[j]));
        assert(explicit_link(t0, r, rs0[j]));
    }
}

/// In a consistent catalog, the dependencies and triggers stated for the
/// resource validated at step `k` resolve among the others.
proof fn lemma_resolves_ok(cur: Seq<Resource>, others: Seq<Resource>, rs0: Seq<Resource>, k: int, t: ValidationHelpers, t0: ValidationHelpers)
    requires
        0 <= k < rs0.len(),
        rotated(cur, rs0, k),
        others == cur.skip(1),
        t.requires@ == t0.requires@,
        t.triggers@ == t0.triggers@,
        stated_resolve(t0, rs0, k),
    ensures
        resolves(t, cur[0], others),
{
    let c = cur[0];
    let r = rs0[k];
    let n = rs0.len() as int;
    lemma_others(cur, others, rs0, k);
    lemma_same_params(c, r);
    let ds = requires_of(t.requires@, rid(c));
    assert(ds == requires_of(t0.requires@, rid(r)));
    assert forall|d: int| 0 <= d < ds.len() implies #[trigger] dependency_resolves(others, c, ds[d]) by {
        let dep = ds[d];
        assert(!names(dep, r));
        let j = choose|j: int| 0 <= j < rs0.len() && #[trigger] names(dep, rs0[j]);
        assert(j != k);
        let q = pos_of(n, k, j);
        lemma_same_params(others[q], rs0[j]);
        assert(names(dep, others[q]));
        lemma_first_named_exists(others, dep, q);
        let i = first_named(others, dep)->0;
        let j2 = orig_of(n, k, i);
        lemma_same_params(others[i], rs0[j2]);
        assert(names(dep, rs0[j2]));
        assert(may_depend(r, rs0[j2]));
    }
    let ts = triggers_of(t.triggers@, rid(c));
    assert(ts == triggers_of(t0.triggers@, rid(r)));
    assert forall|d: int| 0 <= d < ts.len() implies !#[trigger] trigger_fails(others, c, ts[d]) by {
        let tr = ts[d];
        assert(!trigger_names(tr, r));
        let j = choose|j: int| 0 <= j < rs0.len() && #[trigger] trigger_names(tr, rs0[j]);
        assert(j != k);
        let q = pos_of(n, k, j);
        lemma_same_params(others[q], rs0[j]);
        assert(trigger_names(tr, others[q]));
        lemma_first_triggered_exists(others, tr, q);
    }
}

/// A step that adds the keys of resource `k` keeps the recorded keys those
/// of the resources validated.
proof fn lemma_keys_step(t: ValidationHelpers, u: ValidationHelpers, c: Resource, rs0: Seq<Resource>, k: int)
    requires
        0 <= k < rs0.len(),
        keys_from(t, rs0, k),
        keys_added(t, u, c),
        same_params(c, rs0[k]),
    ensures
        keys_from(u, rs0, k + 1),
{
    lemma_same_params_agree(c, rs0[k]);
    let r = rs0[k];
    assert forall|m: int| 0 <= m < texts(u.paths@).len() implies #[trigger] path_known(rs0, k + 1, texts(u.paths@)[m]) by {
        if m < texts(t.paths@).len() {
            assert(texts(u.paths@)[m] == texts(t.paths@)[m]);
            assert(path_known(rs0, k, texts(t.paths@)[m]));
            let i = choose|i: int| 0 <= i < k && #[trigger] managed_path(rs0[i]) == Some(texts(t.paths@)[m]);
            assert(managed_path(rs0[i]) == Some(texts(u.paths@)[m]));
        } else {
            assert(managed_path(r) == Some(texts(u.paths@)[m]));
        }
    }
    let x = unique_name(c)->0;
    assert(texts(t.group_names@).push(x).take(texts(t.group_names@).len() as int) == texts(t.group_names@));
    assert(texts(t.user_names@).push(x).take(texts(t.user_names@).len() as int) == texts(t.user_names@));
    assert(texts(t.apt_package_names@).push(x).take(texts(t.apt_package_names@).len() as int) == texts(t.apt_package_names@));
    assert(texts(t.execute_names@).push(x).take(texts(t.execute_names@).len() as int) == texts(t.execute_names@));
    lemma_names_step(texts(t.group_names@), texts(u.group_names@), ResourceType::Group, rs0, k);
    lemma_names_step(texts(t.user_names@), texts(u.user_names@), ResourceType::User, rs0, k);
    lemma_names_step(texts(t.apt_package_names@), texts(u.apt_package_names@), ResourceType::AptPackage, rs0, k);
    lemma_names_step(texts(t.execute_names@), texts(u.execute_names@), ResourceType::Execute, rs0, k);
    assert forall|m: int| 0 <= m < u.host_ip_addresses@.len() implies #[trigger] host_known(rs0, k + 1, u.host_ip_addresses@[m]) by {
        if m < t.host_ip_addresses@.len() {
            assert(u.host_ip_addresses@[m] == t.host_ip_addresses@[m]);
            assert(host_known(rs0, k, t.host_ip_addresses@[m]));
            let i = choose|i: int| 0 <= i < k && #[trigger] host_keyed(rs0[i], t.host_ip_addresses@[m]);
            assert(host_keyed(rs0[i], u.host_ip_addresses@[m]));
        } else {
            assert(host_keyed(r, u.host_ip_addresses@[m]));
        }
    }
}

impl Client {
    /// Validates the resources of the catalog against each other: the
    /// checks of each kind, the dependencies that the parameters call for,
    /// those that the configuration states and the `execute` resources that
    /// are triggered. The relation of predecessors that it records never
    /// holds a loop. Each resource records what it must depend on among its
    /// requirements and its predecessors, each resource it comes after among
    /// its predecessors, and each directory the nodes in it as its children.
    /// Each resource is taken from the front and put back at the end; the
    /// first is moved once more, so the catalog ends turned by one.
    #[verifier::rlimit(100)]
    #[verifier::spinoff_prover]
    pub fn validate(&mut self) -> (r: Result<(), String>)
        requires
            acyclic(old(self).temporary.predecessors@),
            distinct_ids(old(self).resources@),
        ensures
            acyclic(final(self).temporary.predecessors@),
            final(self).temporary.requires@ == old(self).temporary.requires@,
            final(self).temporary.triggers@ == old(self).temporary.triggers@,
            r is Ok ==> rotated(final(self).resources@, old(self).resources@, if old(self).resources@.len() == 0 { 0 } else { 1 }),
            r is Ok ==> forall|i: int| 0 <= i < old(self).resources@.len()
                ==> #[trigger] validated(old(self).resources@, final(self).temporary, i),
            r is Ok ==> forall|i: int, j: int| 0 <= i < j < old(self).resources@.len()
                ==> #[trigger] unique_pair(old(self).resources@, i, j),
            r is Ok && old(self).temporary.predecessors@.len() == 0 ==> forall|i: int, j: int|
                0 <= i < old(self).resources@.len() && 0 <= j < old(self).resources@.len() && i != j
                ==> #[trigger] recorded_links(unrotated(final(self).resources@), old(self).resources@, i, j),
            r is Ok ==> forall|i: int| 0 <= i < old(self).resources@.len()
                ==> #[trigger] recorded_children(unrotated(final(self).resources@), old(self).resources@, i),
            r is Ok && old(self).temporary.predecessors@.len() == 0 ==> forall|i: int, m: int|
                0 <= i < old(self).resources@.len() && 0 <= m < requires_of(old(self).temporary.requires@, rid(old(self).resources@[i])).len()
                ==> #[trigger] explicit_recorded_at(unrotated(final(self).resources@), old(self).resources@, old(self).temporary, i, m),
            r is Ok && old(self).temporary.predecessors@.len() == 0 ==> forall|i: int, j: int|
                0 <= i < old(self).resources@.len() && 0 <= j < old(self).resources@.len() && i != j
                ==> #[trigger] recorded_after(unrotated(final(self).resources@), old(self).resources@,
                    final(self).temporary.predecessors@, i, j),
            r is Ok && old(self).temporary.predecessors@.len() == 0 ==> forall|i: int| 0 <= i < old(self).resources@.len()
                ==> #[trigger] links_exact(unrotated(final(self).resources@), old(self).resources@, old(self).temporary,
                    final(self).temporary.predecessors@, i),
            r is Ok && old(self).temporary.predecessors@.len() == 0 ==> forall|i: int, j: int|
                0 <= i < old(self).resources@.len() && 0 <= j < old(self).resources@.len()
                ==> #[trigger] edge_justified(old(self).resources@, old(self).temporary, final(self).temporary.predecessors@, i, j),
            r is Ok && old(self).temporary.predecessors@.len() == 0
                && (forall|i: int| 0 <= i < old(self).resources@.len() ==> requirements(#[trigger] old(self).resources@[i]).len() == 0)
                ==> forall|w: Seq<int>| #[trigger] requires_walk(unrotated(final(self).resources@), w) ==> w[0] != w.last(),
            catalog_consistent(old(self).temporary, old(self).resources@) ==> r is Ok,
    {
        let ghost rs0 = self.resources@;
        let ghost t0 = self.temporary;
        let ghost ok = catalog_consistent(t0, rs0);
        let ghost hh: Seq<Edge> = choose|h: Seq<Edge>| #[trigger] acyclic(h) && subgraph(t0.predecessors@, h)
            && all_links_in(h, t0, rs0);
        let ghost init0 = t0.predecessors@.len() == 0;
        let n = self.resources.len();
        let mut k: usize = 0;
        proof {
            assert forall|p: int| 0 <= p < rs0.len() - 0 implies same_params(#[trigger] self.resources@[p], rs0[0 + p]) by {
                assert(self.resources@[p] == rs0[p]);
            }
        }
        while k < n
            invariant
                k <= n,
                n == rs0.len(),
                rs0 == old(self).resources@,
                distinct_ids(rs0),
                rotated(self.resources@, rs0, k as int),
                acyclic(self.temporary.predecessors@),
                self.temporary.requires@ == old(self).temporary.requires@,
                self.temporary.triggers@ == old(self).temporary.triggers@,
                forall|i: int| 0 <= i < k ==> #[trigger] validated(rs0, self.temporary, i),
                forall|i: int, j: int| 0 <= i < j < k ==> #[trigger] unique_pair(rs0, i, j),
                t0 == old(self).temporary,
                ok == catalog_consistent(t0, rs0),
                self.temporary.file_paths@ == t0.file_paths@,
                ok ==> acyclic(hh) && subgraph(t0.predecessors@, hh) && all_links_in(hh, t0, rs0),
                ok ==> subgraph(self.temporary.predecessors@, hh),
                ok ==> keys_from(self.temporary, rs0, k as int),
                init0 == (t0.predecessors@.len() == 0),
                forall|p: int| 0 <= p < n - k ==> #[trigger] self.resources@[p] == rs0[k + p],
                init0 ==> forall|q: int| 0 <= q < self.temporary.predecessors@.len()
                    ==> exists|i: int| 0 <= i < k && (#[trigger] self.temporary.predecessors@[q]).0 == #[trigger] rid(rs0[i]),
                init0 ==> forall|i: int, j: int| 0 <= i < k && 0 <= j < n && i != j
                    ==> #[trigger] recorded_links(self.resources@.skip(n - k), rs0, i, j),
                forall|i: int| 0 <= i < k ==> #[trigger] recorded_children(self.resources@.skip(n - k), rs0, i),
                init0 ==> forall|i: int, m: int| 0 <= i < k && 0 <= m < requires_of(t0.requires@, rid(rs0[i])).len()
                    ==> #[trigger] explicit_recorded_at(self.resources@.skip(n - k), rs0, t0, i, m),
                init0 ==> forall|i: int| 0 <= i < k
                    ==> #[trigger] links_exact(self.resources@.skip(n - k), rs0, t0, self.temporary.predecessors@, i),
                init0 ==> forall|i: int, j: int| 0 <= i < k && 0 <= j < n
                    ==> #[trigger] edge_justified(rs0, t0, self.temporary.predecessors@, i, j),
                init0 ==> forall|i: int, q: int| 0 <= i < k && 0 <= q < self.temporary.predecessors@.len()
                    && self.temporary.predecessors@[q].0 == rid(rs0[i])
                    ==> #[trigger] edge_named(self.temporary.predecessors@, q, rs0, self.resources@.skip(n - k)[i]),
            decreases n - k,
        {
            let ghost cur = self.resources@;
            let ghost t = self.temporary;
            let mut resource = self.resources.remove(0);
            proof {
                assert(self.resources@ =~= cur.skip(1));
                lemma_other_ids(cur, self.resources@, rs0, k as int);
                lemma_others(cur, self.resources@, rs0, k as int);
                if ok {
                    lemma_kind_ok(cur, self.resources@, rs0, k as int, t, t0);
                    lemma_links_ok(cur, self.resources@, rs0, k as int, t, t0, hh);
                    assert(stated_resolve(t0, rs0, k as int));
                    lemma_resolves_ok(cur, self.resources@, rs0, k as int, t, t0);
                }
            }
            let ghost others = self.resources@;
            let ghost c = resource;
            let ghost gk = self.temporary.predecessors@;
            proof {
                assert(c == rs0[k as int]) by {
                    assert(cur[0] == rs0[k + 0]);
                }
                lemma_others_order(cur, others, rs0, k as int, managed_path(c)->0);
                if init0 {
                    assert forall|q: int| 0 <= q < gk.len() implies (#[trigger] gk[q]).0 != rid(c) by {
                        let i = choose|i: int| 0 <= i < k && (#[trigger] gk[q]).0 == #[trigger] rid(rs0[i]);
                        assert(rid(rs0[i]) != rid(rs0[k as int]));
                    }
                }
            }
            match self.validate_one(&mut resource) {
                Ok(()) => {},
                Err(m) => {
                    proof {
                        if ok {
                            assert(acyclic(hh));
                        }
                    }
                    return Err(m);
                },
            }
            let ghost u = self.temporary;
            proof {
                if ok {
                    lemma_keys_step(t, u, c, rs0, k as int);
                }
                lemma_step(cur, others, rs0, k as int, t, u);
                assert forall|i: int| 0 <= i < k implies #[trigger] validated(rs0, u, i) by {
                    lemma_validated_grows(rs0, t, u, i);
                }
                assert forall|i: int, j: int| 0 <= i < j < k + 1 implies #[trigger] unique_pair(rs0, i, j) by {
                    if j == k {
                        lemma_unique_step(rs0, t, c, i, k as int);
                    }
                }
            }
            let ghost gu = self.temporary.predecessors@;
            let ghost cf = resource;
            self.resources.push(resource);
            proof {
                let nc = self.resources@;
                assert(nc =~= others.push(resource));
                let v0 = cur.skip(n - k);
                let v1 = nc.skip(n - (k + 1));
                assert(v1 =~= v0.push(cf)) by {
                    assert forall|i: int| 0 <= i < k implies v1[i] == v0[i] by {
                        assert(v1[i] == nc[n - (k + 1) + i]);
                        assert(nc[n - (k + 1) + i] == others[n - (k + 1) + i]);
                        assert(others[n - (k + 1) + i] == cur[n - k + i]);
                    }
                }
                assert forall|p: int| 0 <= p < n - (k + 1) implies #[trigger] nc[p] == rs0[(k + 1) + p] by {
                    assert(nc[p] == cur[p + 1]);
                    assert(cur[p + 1] == rs0[k + (p + 1)]);
                }
                if init0 {
                    assert forall|q: int| 0 <= q < gu.len()
                        implies exists|i: int| 0 <= i < k + 1 && (#[trigger] gu[q]).0 == #[trigger] rid(rs0[i]) by {
                        if q < gk.len() {
                            assert(gu.take(gk.len() as int)[q] == gu[q]);
                            let i = choose|i: int| 0 <= i < k && (#[trigger] gk[q]).0 == #[trigger] rid(rs0[i]);
                            assert(gu[q].0 == rid(rs0[i]));
                        } else {
                            assert(gu[q].0 == rid(c));
                            assert(gu[q].0 == rid(rs0[k as int]));
                        }
                    }
                    assert forall|i: int, j: int| 0 <= i < k + 1 && 0 <= j < n && i != j
                        implies #[trigger] recorded_links(v1, rs0, i, j) by {
                        if i < k {
                            assert(recorded_links(v0, rs0, i, j));
                        } else if must_depend(rs0[i], rs0[j]) {
                            let q = pos_of(n as int, k as int, j);
                            lemma_same_params(others[q], rs0[j]);
                            assert(must_depend(c, others[q]));
                            assert(v1[i] == cf);
                        }
                    }
                }
                if init0 {
                    assert forall|i: int, q: int| 0 <= i < k + 1 && 0 <= q < gu.len() && gu[q].0 == rid(rs0[i])
                        implies #[trigger] edge_named(gu, q, rs0, v1[i]) by {
                        if q < gk.len() {
                            assert(gu.take(gk.len() as int)[q] == gu[q]);
                            let i2 = choose|i2: int| 0 <= i2 < k && (#[trigger] gk[q]).0 == #[trigger] rid(rs0[i2]);
                            if i2 != i {
                                assert(rid(rs0[i2]) != rid(rs0[i]));
                            }
                            assert(i < k);
                            assert(edge_named(gk, q, rs0, v0[i]));
                            let p = choose|p: int| 0 <= p < rs0.len() && gk[q].1 == rid(rs0[p])
                                && #[trigger] names_meta(predecessors(v0[i]), rs0[p]);
                            assert(v1[i] == v0[i]);
                            assert(names_meta(predecessors(v1[i]), rs0[p]));
                        } else {
                            assert(gu[q].0 == rid(c));
                            if i != k {
                                assert(rid(rs0[i]) != rid(rs0[k as int]));
                            }
                            assert(edge_named(gu, q, others, cf));
                            let p = choose|p: int| 0 <= p < others.len() && gu[q].1 == rid(others[p])
                                && #[trigger] names_meta(predecessors(cf), others[p]);
                            let j = orig_of(n as int, k as int, p);
                            lemma_same_params(others[p], rs0[j]);
                            assert(names_meta(predecessors(cf), rs0[j]));
                            assert(v1[i] == cf);
                            assert(names_meta(predecessors(v1[i]), rs0[j]));
                        }
                    }
                }
                if init0 {
                    assert forall|i: int, m: int| 0 <= i < k + 1 && 0 <= m < requires_of(t0.requires@, rid(rs0[i])).len()
                        implies #[trigger] explicit_recorded_at(v1, rs0, t0, i, m) by {
                        if i < k {
                            assert(explicit_recorded_at(v0, rs0, t0, i, m));
                            let d = requires_of(t0.requires@, rid(rs0[i]))[m];
                            let j = choose|j: int| 0 <= j < rs0.len() && j != i && #[trigger] names(d, rs0[j])
                                && ((must_depend(rs0[i], rs0[j]) || !(meta(rs0[i]).kind == ResourceType::Execute
                                    && triggered_by(t0.triggers@, rid(rs0[j]), rs0[i])))
                                    ==> names_meta(requirements(v0[i]), rs0[j]) && names_meta(predecessors(v0[i]), rs0[j]));
                            assert(v1[i] == v0[i]);
                        } else {
                            let d = requires_of(t0.requires@, rid(rs0[i]))[m];
                            assert(rid(c) == rid(rs0[i]));
                            assert(explicit_recorded(t, c, others, d, cf));
                            assert(explicit_ok(others, gu, c, d));
                            let a = first_named(others, d)->0;
                            let j = orig_of(n as int, k as int, a);
                            lemma_same_params(others[a], rs0[j]);
                            assert(names(d, rs0[j]));
                            assert(v1[i] == cf);
                            assert(dep_target(others, d) == others[a]);
                        }
                    }
                }
                if init0 {
                    lemma_step_exact(rs0, t0, t, cur, c, cf, others, gk, gu, v0, v1, k as int);
                }
                assert forall|i: int| 0 <= i < k + 1 implies #[trigger] recorded_children(v1, rs0, i) by {
                    if i < k {
                        assert(recorded_children(v0, rs0, i));
                    } else {
                        assert(v1[i] == cf);
                    }
                }
                assert forall|p: int| 0 <= p < rs0.len() - (k + 1) implies same_params(#[trigger] nc[p], rs0[(k + 1) + p]) by {
                    assert(nc[p] == cur[p + 1]);
                    assert(same_params(cur[p + 1], rs0[k + (p + 1)]));
                }
                assert forall|p: int| 0 <= p < k + 1 implies same_params(#[trigger] nc[rs0.len() - (k + 1) + p], rs0[p]) by {
                    if p < k {
                        assert(nc[rs0.len() - (k + 1) + p] == cur[rs0.len() - k + p]);
                    } else {
                        assert(nc[rs0.len() - (k + 1) + p] == resource);
                        lemma_same_params(c, resource);
                        assert(same_params(cur[0], rs0[k + 0]));
                    }
                }
            }
            k = k + 1;
        }
        let ghost done = self.resources@;
        proof {
            assert(done.skip(0) =~= done);
        }
        if n > 0 {
            let ghost cur = self.resources@;
            let first = self.resources.remove(0);
            self.resources.push(first);
            proof {
                let nc = self.resources@;
                assert(nc =~= cur.skip(1).push(cur[0]));
                assert forall|p: int| 0 <= p < rs0.len() - 1 implies same_params(#[trigger] nc[p], rs0[1 + p]) by {
                    assert(nc[p] == cur[p + 1]);
                    assert(same_params(cur[rs0.len() - rs0.len() + (p + 1)], rs0[p + 1]));
                }
                assert forall|p: int| 0 <= p < 1 implies same_params(#[trigger] nc[rs0.len() - 1 + p], rs0[p]) by {
                    assert(nc[rs0.len() - 1] == cur[0]);
                    assert(same_params(cur[rs0.len() - rs0.len() + 0], rs0[0]));
                }
                assert(unrotated(nc) =~= cur);
            }
        }
        proof {
            assert(unrotated(self.resources@) == done);
            if init0 {
                assert forall|i: int, j: int| 0 <= i < n && 0 <= j < n && i != j
                    implies #[trigger] recorded_links(unrotated(self.resources@), rs0, i, j) by {
                    assert(recorded_links(done.skip(n - n), rs0, i, j));
                }
            }
            assert forall|i: int| 0 <= i < n implies #[trigger] recorded_children(unrotated(self.resources@), rs0, i) by {
                assert(recorded_children(done.skip(n - n), rs0, i));
            }
            if init0 {
                assert forall|i: int| 0 <= i < n implies #[trigger] links_exact(unrotated(self.resources@), rs0, t0,
                    self.temporary.predecessors@, i) by {
                    assert(links_exact(done.skip(n - n), rs0, t0, self.temporary.predecessors@, i));
                }
                assert forall|i: int, j: int| 0 <= i < n && 0 <= j < n implies #[trigger] edge_justified(rs0, t0,
                    self.temporary.predecessors@, i, j) by {
                    assert(edge_justified(rs0, t0, self.temporary.predecessors@, i, j));
                }
                if forall|i: int| 0 <= i < n ==> requirements(#[trigger] rs0[i]).len() == 0 {
                    let cat = unrotated(self.resources@);
                    lemma_unrotated(self.resources@, rs0);
                    assert forall|i: int| 0 <= i < n implies same_params(#[trigger] cat[i], rs0[i]) by {
                        assert(same_params(cat[n - n + i], rs0[i]));
                    }
                    assert forall|w: Seq<int>| #[trigger] requires_walk(cat, w) implies w[0] != w.last() by {
                        lemma_requires_acyclic(cat, rs0, t0, self.temporary.predecessors@, w);
                    }
                }
            }
            if init0 {
                assert forall|i: int, m: int| 0 <= i < n && 0 <= m < requires_of(t0.requires@, rid(rs0[i])).len()
                    implies #[trigger] explicit_recorded_at(unrotated(self.resources@), rs0, t0, i, m) by {
                    assert(explicit_recorded_at(done.skip(n - n), rs0, t0, i, m));
                }
            }
            if init0 {
                let g = self.temporary.predecessors@;
                assert forall|i: int, j: int| 0 <= i < n && 0 <= j < n && i != j
                    implies #[trigger] recorded_after(unrotated(self.resources@), rs0, g, i, j) by {
                    if g.contains((rid(rs0[i]), rid(rs0[j]))) {
                        let q = choose|q: int| 0 <= q < g.len() && g[q] == (rid(rs0[i]), rid(rs0[j]));
                        assert(edge_named(g, q, rs0, done.skip(n - n)[i]));
                        let p = choose|p: int| 0 <= p < rs0.len() && g[q].1 == rid(rs0[p])
                            && #[trigger] names_meta(predecessors(done.skip(n - n)[i]), rs0[p]);
                        if p != j {
                            assert(rid(rs0[p]) != rid(rs0[j]));
                        }
                        assert(done.skip(n - n)[i] == unrotated(self.resources@)[i]);
                    }
                }
            }
        }
        Ok(())
    }
}

} // verus!
