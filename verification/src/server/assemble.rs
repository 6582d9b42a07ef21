use crate::common::net::{decimal, ip_address_text, ip_to_text, ip_from_text};
use crate::common::path::SafePathBuf;
use crate::common::resources::apt::package::{
    ensure_name as package_ensure_name, Ensure as PackageEnsure, Parameters as PackageParameters,
};
use crate::common::resources::directory::{Parameters as DirectoryParameters, Relationships as DirectoryRelationships};
use crate::common::resources::group::{Name as Groupname, Parameters as GroupParameters};
use crate::common::resources::host::Parameters as HostParameters;
use crate::common::resources::symlink::Parameters as SymlinkParameters;
use crate::common::resources::user::Name as Username;
use crate::common::resources::Relationships;
use crate::common::{ensure_name, resource_type_name, Ensure, ResourceMetadata, ResourceType};
use crate::parse::parse_bool_spec;
use crate::server::api_key::{hex_bytes, sha256_digest, sha256_hex};
use crate::server::resources::{child_nodes, predecessors, requirements, triggered, AptPackage, Directory, Execute, File, Group, Host, Resource, Symlink, User};
use crate::server::parse::UnresolvedResource;
use crate::server::config::{lemma_text_lt_irreflexive, lemma_text_lt_trans, text_less, text_lt};
use crate::common::resources::user::{date_parse, password_check, Password, Parameters as UserParameters};
use crate::server::composite::{content_at, content_is, environment_is, environments_at, replacement_is, resolve_content, resolve_environments};
use crate::common::resources::execute::Parameters as ExecuteParameters;
use crate::common::resources::file::{Content, Mode, Parameters as FileParameters};
use crate::server::typed::{
    date_ok, password_ok, resolve_expiry_date, resolve_password, resolve_groupnames,
    any_text, bool_check, checked_of, mode_check, resolve_mode, resolve_text, resolve_texts, ensure_check, groupname_check, host_check, ip_check, list_checked, package_ensure_check,
    package_name_ok, package_version_ok, path_check, resolve_bool, resolve_ensure, resolve_groupname,
    resolve_hostname, resolve_hostnames, resolve_ip, resolve_package_ensure, resolve_package_name,
    resolve_package_version, resolve_path, resolve_username, username_check,
};
use crate::server::unresolved::{params_wf, UnresolvedNode, UnresolvedParameters};
use crate::server::yaml::Node;
use vstd::string::StringSliceAdditionalSpecFns;
use vstd::prelude::*;

verus! {

/// Only whether reading succeeded.
pub open spec fn unit_of<V>(c: Result<V, Seq<char>>) -> Result<(), Seq<char>> {
    match c {
        Ok(_) => Ok(()),
        Err(m) => Err(m),
    }
}

/// One step, then the next unless the first failed.
pub open spec fn then(a: Result<(), Seq<char>>, b: Result<(), Seq<char>>) -> Result<(), Seq<char>> {
    match a {
        Err(m) => Err(m),
        Ok(_) => b,
    }
}

/// Reading a parameter that may be absent.
pub open spec fn opt_step(vars: Seq<(String, Node)>, o: Option<UnresolvedNode>, check: spec_fn(Seq<char>) -> Option<Seq<char>>) -> Result<(), Seq<char>> {
    match o {
        None => Ok(()),
        Some(n) => unit_of(checked_of(vars, n, check)),
    }
}

/// Reading a parameter that is present.
pub open spec fn req_step(vars: Seq<(String, Node)>, o: Option<UnresolvedNode>, check: spec_fn(Seq<char>) -> Option<Seq<char>>) -> Result<(), Seq<char>> {
    unit_of(checked_of(vars, o->Some_0, check))
}

/// The text read for a parameter that is present.
pub open spec fn given(vars: Seq<(String, Node)>, o: Option<UnresolvedNode>, check: spec_fn(Seq<char>) -> Option<Seq<char>>) -> Seq<char> {
    checked_of(vars, o->Some_0, check)->Ok_0
}

/// The list read for a parameter that is present.
pub open spec fn given_list(vars: Seq<(String, Node)>, o: Option<UnresolvedNode>, check: spec_fn(Seq<char>) -> Option<Seq<char>>) -> Result<Seq<Seq<char>>, Seq<char>> {
    let n = o->Some_0;
    list_checked(vars, n.source.file@, n.source.path@, n.inner, check)
}

/// Reading a list parameter that may be absent.
pub open spec fn opt_list_step(vars: Seq<(String, Node)>, o: Option<UnresolvedNode>, check: spec_fn(Seq<char>) -> Option<Seq<char>>) -> Result<(), Seq<char>> {
    match o {
        None => Ok(()),
        Some(_) => unit_of(given_list(vars, o, check)),
    }
}

/// The texts of a list parameter that may be absent, none when it is.
pub open spec fn list_or_empty(vars: Seq<(String, Node)>, o: Option<UnresolvedNode>, check: spec_fn(Seq<char>) -> Option<Seq<char>>) -> Seq<Seq<char>> {
    match o {
        None => seq![],
        Some(_) => given_list(vars, o, check)->Ok_0,
    }
}

/// The state read for a parameter, `present` when it is absent.
pub open spec fn ensure_given(e: Ensure, vars: Seq<(String, Node)>, o: Option<UnresolvedNode>) -> bool {
    match o {
        None => e == Ensure::Present,
        Some(_) => ensure_name(e) == given(vars, o, ensure_check()),
    }
}

/// The boolean read for a parameter, `false` when it is absent.
pub open spec fn flag_given(b: bool, vars: Seq<(String, Node)>, o: Option<UnresolvedNode>) -> bool {
    match o {
        None => !b,
        Some(_) => parse_bool_spec(given(vars, o, bool_check())) == Some(b),
    }
}

/// The text read for a parameter, `default` when it is absent.
pub open spec fn text_given(t: Seq<char>, vars: Seq<(String, Node)>, o: Option<UnresolvedNode>, check: spec_fn(Seq<char>) -> Option<Seq<char>>, default: Seq<char>) -> bool {
    match o {
        None => t == default,
        Some(_) => t == given(vars, o, check),
    }
}

/// The text read for a parameter, none when it is absent.
pub open spec fn opt_given(vars: Seq<(String, Node)>, o: Option<UnresolvedNode>, check: spec_fn(Seq<char>) -> Option<Seq<char>>) -> Option<Seq<char>> {
    match o {
        None => None,
        Some(_) => Some(given(vars, o, check)),
    }
}

/// Whether `id` is the SHA-256 digest, in lowercase hexadecimal, of the
/// bytes of a text that reads `text`.
pub open spec fn digest_id(text: Seq<char>, id: Seq<char>) -> bool {
    exists|t: &str| t@ == text && id == hex_bytes(sha256_digest(#[trigger] t.spec_bytes()))
}

/// `Uuid::new_v4` (uuid), written out by its `Display` impl: a random
/// identifier. The contract states the hyphenated form that `Display`
/// writes, 32 lowercase hexadecimal digits in groups of 8, 4, 4, 4 and 12;
/// which digits come is left open, as they are drawn at random.
#[verifier::external_body]
fn random_id() -> (r: String)
    ensures
        r@.len() == 36,
        forall|i: int| 0 <= i < 36 ==> (if i == 8 || i == 13 || i == 18 || i == 23 {
            r@[i] == '-'
        } else {
            ('0' <= #[trigger] r@[i] <= '9') || ('a' <= r@[i] <= 'f')
        }),
{
    uuid::Uuid::new_v4().to_string()
}

/// The identifier made of the digest of a kind's name and a text.
fn digest_of(kind: ResourceType, key: &str) -> (r: String)
    ensures
        digest_id(resource_type_name(kind) + key@, r@),
{
    let t = crate::text::concat2(kind.as_str(), key);
    let ts = t.as_str();
    let r = sha256_hex(ts);
    assert(ts@ == resource_type_name(kind) + key@);
    r
}

/// Reads an optional state.
fn read_ensure(o: &Option<UnresolvedNode>, vars: &Vec<(String, Node)>) -> (r: Result<Ensure, String>)
    ensures
        text_result_of(r) == opt_step(vars@, *o, ensure_check()),
        r matches Ok(e) ==> ensure_given(e, vars@, *o),
{
    match o {
        None => Ok(Ensure::default()),
        Some(n) => resolve_ensure(&n.source, &n.inner, vars),
    }
}

/// Reads an optional boolean.
fn read_flag(o: &Option<UnresolvedNode>, vars: &Vec<(String, Node)>) -> (r: Result<bool, String>)
    ensures
        text_result_of(r) == opt_step(vars@, *o, bool_check()),
        r matches Ok(b) ==> flag_given(b, vars@, *o),
{
    match o {
        None => Ok(false),
        Some(n) => resolve_bool(&n.source, &n.inner, vars),
    }
}

/// Whether reading failed, with the message.
pub open spec fn text_result_of<T>(r: Result<T, String>) -> Result<(), Seq<char>> {
    match r {
        Ok(_) => Ok(()),
        Err(m) => Err(m@),
    }
}

/// What reading the parameters of a directory runs into.
pub open spec fn directory_steps(vars: Seq<(String, Node)>, p: UnresolvedParameters) -> Result<(), Seq<char>> {
    then(opt_step(vars, p.values@[0], ensure_check()),
    then(req_step(vars, p.values@[1], path_check()),
    then(opt_step(vars, p.values@[2], username_check()),
    then(opt_step(vars, p.values@[3], groupname_check()),
    opt_step(vars, p.values@[4], bool_check())))))
}

/// What a directory built from its parameters holds.
pub open spec fn directory_built(d: Directory, vars: Seq<(String, Node)>, p: UnresolvedParameters) -> bool {
    &&& d.metadata.kind == ResourceType::Directory
    &&& ensure_given(d.parameters.ensure, vars, p.values@[0])
    &&& d.parameters.path@ == given(vars, p.values@[1], path_check())
    &&& text_given(d.parameters.owner@, vars, p.values@[2], username_check(), "root"@)
    &&& (match d.parameters.group { Some(g) => Some(g@), None => None }) == opt_given(vars, p.values@[3], groupname_check())
    &&& flag_given(d.parameters.purge, vars, p.values@[4])
}

/// Builds a directory from its parameters: `owner` defaults to `root`,
/// `purge` to `false`; its identifier is drawn at random.
pub fn build_directory(p: &UnresolvedParameters, vars: &Vec<(String, Node)>) -> (r: Result<Directory, String>)
    requires
        params_wf(*p),
        p.kind == ResourceType::Directory,
    ensures
        text_result_of(r) == directory_steps(vars@, *p),
        r matches Ok(d) ==> directory_built(d, vars@, *p),
        r matches Ok(d) ==> d.relationships.requires@.len() == 0 && d.relationships.after@.len() == 0
            && d.relationships.triggers@.len() == 0 && d.relationships.children@.len() == 0,
{
    assert(parameter_keys_of(ResourceType::Directory)[1].1);
    let ensure = match read_ensure(&p.values[0], vars) {
        Ok(e) => e,
        Err(m) => {
            return Err(m);
        },
    };
    let pn = p.values[1].as_ref().unwrap();
    let path = match resolve_path(&pn.source, &pn.inner, vars) {
        Ok(v) => v,
        Err(m) => {
            return Err(m);
        },
    };
    let owner = match &p.values[2] {
        None => Username::root(),
        Some(n) => match resolve_username(&n.source, &n.inner, vars) {
            Ok(v) => v,
            Err(m) => {
                return Err(m);
            },
        },
    };
    let group = match &p.values[3] {
        None => None,
        Some(n) => match resolve_groupname(&n.source, &n.inner, vars) {
            Ok(v) => Some(v),
            Err(m) => {
                return Err(m);
            },
        },
    };
    let purge = match read_flag(&p.values[4], vars) {
        Ok(b) => b,
        Err(m) => {
            return Err(m);
        },
    };
    Ok(Directory {
        metadata: ResourceMetadata { kind: ResourceType::Directory, id: random_id() },
        parameters: DirectoryParameters { path, ensure, owner, group, purge },
        relationships: DirectoryRelationships::default(),
    })
}

/// The keys of a kind's parameters, with whether each is required.
pub open spec fn parameter_keys_of(kind: ResourceType) -> Seq<(Seq<char>, bool)> {
    crate::server::unresolved::parameter_keys(kind)
}

/// What reading the parameters of a group runs into.
pub open spec fn group_steps(vars: Seq<(String, Node)>, p: UnresolvedParameters) -> Result<(), Seq<char>> {
    then(opt_step(vars, p.values@[0], ensure_check()),
    then(req_step(vars, p.values@[1], groupname_check()),
    opt_step(vars, p.values@[2], bool_check())))
}

/// What a group built from its parameters holds.
pub open spec fn group_built(g: Group, vars: Seq<(String, Node)>, p: UnresolvedParameters) -> bool {
    &&& g.metadata.kind == ResourceType::Group
    &&& digest_id("group"@ + g.parameters.name@, g.metadata.id@)
    &&& ensure_given(g.parameters.ensure, vars, p.values@[0])
    &&& g.parameters.name@ == given(vars, p.values@[1], groupname_check())
    &&& flag_given(g.parameters.system, vars, p.values@[2])
}

/// Builds a group from its parameters: `system` defaults to `false`; its
/// identifier is the digest of `group` and its name.
pub fn build_group(p: &UnresolvedParameters, vars: &Vec<(String, Node)>) -> (r: Result<Group, String>)
    requires
        params_wf(*p),
        p.kind == ResourceType::Group,
    ensures
        text_result_of(r) == group_steps(vars@, *p),
        r matches Ok(g) ==> group_built(g, vars@, *p),
        r matches Ok(g) ==> g.relationships.requires@.len() == 0 && g.relationships.after@.len() == 0
            && g.relationships.triggers@.len() == 0,
{
    assert(parameter_keys_of(ResourceType::Group)[1].1);
    let ensure = match read_ensure(&p.values[0], vars) {
        Ok(e) => e,
        Err(m) => {
            return Err(m);
        },
    };
    let nn = p.values[1].as_ref().unwrap();
    let name = match resolve_groupname(&nn.source, &nn.inner, vars) {
        Ok(v) => v,
        Err(m) => {
            return Err(m);
        },
    };
    let system = match read_flag(&p.values[2], vars) {
        Ok(b) => b,
        Err(m) => {
            return Err(m);
        },
    };
    let id = digest_of(ResourceType::Group, name.as_str());
    Ok(Group {
        metadata: ResourceMetadata { kind: ResourceType::Group, id },
        parameters: GroupParameters { ensure, name, system },
        relationships: Relationships::default(),
    })
}

/// What reading the parameters of a symlink runs into.
pub open spec fn symlink_steps(vars: Seq<(String, Node)>, p: UnresolvedParameters) -> Result<(), Seq<char>> {
    then(opt_step(vars, p.values@[0], ensure_check()),
    then(req_step(vars, p.values@[1], path_check()),
    req_step(vars, p.values@[2], path_check())))
}

/// What a symlink built from its parameters holds.
pub open spec fn symlink_built(s: Symlink, vars: Seq<(String, Node)>, p: UnresolvedParameters) -> bool {
    &&& s.metadata.kind == ResourceType::Symlink
    &&& digest_id("symlink"@ + s.parameters.path@, s.metadata.id@)
    &&& ensure_given(s.parameters.ensure, vars, p.values@[0])
    &&& s.parameters.path@ == given(vars, p.values@[1], path_check())
    &&& s.parameters.target@ == given(vars, p.values@[2], path_check())
}

/// Builds a symlink from its parameters; its identifier is the digest of
/// `symlink` and its path.
pub fn build_symlink(p: &UnresolvedParameters, vars: &Vec<(String, Node)>) -> (r: Result<Symlink, String>)
    requires
        params_wf(*p),
        p.kind == ResourceType::Symlink,
    ensures
        text_result_of(r) == symlink_steps(vars@, *p),
        r matches Ok(s) ==> symlink_built(s, vars@, *p),
        r matches Ok(s) ==> s.relationships.requires@.len() == 0 && s.relationships.after@.len() == 0
            && s.relationships.triggers@.len() == 0,
{
    assert(parameter_keys_of(ResourceType::Symlink)[1].1);
    assert(parameter_keys_of(ResourceType::Symlink)[2].1);
    let ensure = match read_ensure(&p.values[0], vars) {
        Ok(e) => e,
        Err(m) => {
            return Err(m);
        },
    };
    let pn = p.values[1].as_ref().unwrap();
    let path = match resolve_path(&pn.source, &pn.inner, vars) {
        Ok(v) => v,
        Err(m) => {
            return Err(m);
        },
    };
    let tn = p.values[2].as_ref().unwrap();
    let target = match resolve_path(&tn.source, &tn.inner, vars) {
        Ok(v) => v,
        Err(m) => {
            return Err(m);
        },
    };
    let id = digest_of(ResourceType::Symlink, path.as_str());
    Ok(Symlink {
        metadata: ResourceMetadata { kind: ResourceType::Symlink, id },
        parameters: SymlinkParameters { path, ensure, target },
        relationships: Relationships::default(),
    })
}

/// What reading the parameters of a package runs into.
pub open spec fn package_steps(vars: Seq<(String, Node)>, p: UnresolvedParameters) -> Result<(), Seq<char>> {
    then(opt_step(vars, p.values@[0], package_ensure_check()),
    then(req_step(vars, p.values@[1], package_name_ok()),
    opt_step(vars, p.values@[2], package_version_ok())))
}

/// What a package built from its parameters holds.
pub open spec fn package_built(a: AptPackage, vars: Seq<(String, Node)>, p: UnresolvedParameters) -> bool {
    &&& a.metadata.kind == ResourceType::AptPackage
    &&& (match p.values@[0] {
        None => a.parameters.ensure == PackageEnsure::Present,
        Some(_) => package_ensure_name(a.parameters.ensure) == given(vars, p.values@[0], package_ensure_check()),
    })
    &&& a.parameters.name@ == given(vars, p.values@[1], package_name_ok())
    &&& (match a.parameters.version { Some(v) => Some(v@), None => None }) == opt_given(vars, p.values@[2], package_version_ok())
}

/// Builds a package from its parameters: `ensure` defaults to `present`;
/// its identifier is drawn at random.
pub fn build_package(p: &UnresolvedParameters, vars: &Vec<(String, Node)>) -> (r: Result<AptPackage, String>)
    requires
        params_wf(*p),
        p.kind == ResourceType::AptPackage,
    ensures
        text_result_of(r) == package_steps(vars@, *p),
        r matches Ok(a) ==> package_built(a, vars@, *p),
        r matches Ok(a) ==> a.relationships.requires@.len() == 0 && a.relationships.after@.len() == 0
            && a.relationships.triggers@.len() == 0,
{
    assert(parameter_keys_of(ResourceType::AptPackage)[1].1);
    let ensure = match &p.values[0] {
        None => PackageEnsure::default(),
        Some(n) => match resolve_package_ensure(&n.source, &n.inner, vars) {
            Ok(v) => v,
            Err(m) => {
                return Err(m);
            },
        },
    };
    let nn = p.values[1].as_ref().unwrap();
    let name = match resolve_package_name(&nn.source, &nn.inner, vars) {
        Ok(v) => v,
        Err(m) => {
            return Err(m);
        },
    };
    let version = match &p.values[2] {
        None => None,
        Some(n) => match resolve_package_version(&n.source, &n.inner, vars) {
            Ok(v) => Some(v),
            Err(m) => {
                return Err(m);
            },
        },
    };
    Ok(AptPackage {
        metadata: ResourceMetadata { kind: ResourceType::AptPackage, id: random_id() },
        parameters: PackageParameters { ensure, name, version },
        relationships: Relationships::default(),
    })
}

/// The message for a host with more than four aliases.
pub open spec fn aliases_message(ip: Seq<char>, n: nat) -> Seq<char> {
    "host `"@ + ip + "` has "@ + decimal(n) + " `aliases`, cannot be more than four"@
}

/// The text of the address that a host's `ip_address` reads as.
pub open spec fn host_ip_text(vars: Seq<(String, Node)>, p: UnresolvedParameters) -> Seq<char> {
    ip_to_text(ip_from_text(given(vars, p.values@[1], ip_check()))->0)
}

/// What reading the parameters of a host runs into: a host has at most four aliases.
pub open spec fn host_steps(vars: Seq<(String, Node)>, p: UnresolvedParameters) -> Result<(), Seq<char>> {
    then(opt_step(vars, p.values@[0], ensure_check()),
    then(req_step(vars, p.values@[1], ip_check()),
    then(req_step(vars, p.values@[2], host_check()),
    then(opt_list_step(vars, p.values@[3], host_check()),
    if list_or_empty(vars, p.values@[3], host_check()).len() > 4 {
        Err(aliases_message(host_ip_text(vars, p), list_or_empty(vars, p.values@[3], host_check()).len()))
    } else {
        Ok(())
    }))))
}

/// What a host built from its parameters holds.
pub open spec fn host_built(h: Host, vars: Seq<(String, Node)>, p: UnresolvedParameters) -> bool {
    let aliases = list_or_empty(vars, p.values@[3], host_check());
    &&& h.metadata.kind == ResourceType::Host
    &&& digest_id("host"@ + ip_to_text(h.parameters.ip_address), h.metadata.id@)
    &&& ensure_given(h.parameters.ensure, vars, p.values@[0])
    &&& h.parameters.target@ == "/etc/hosts"@
    &&& ip_from_text(given(vars, p.values@[1], ip_check())) == Some(h.parameters.ip_address)
    &&& h.parameters.hostname@ == given(vars, p.values@[2], host_check())
    &&& h.parameters.aliases@.len() == aliases.len()
    &&& forall|i: int| 0 <= i < aliases.len() ==> (#[trigger] h.parameters.aliases@[i])@ == aliases[i]
}

/// Builds a host entry from its parameters, in `/etc/hosts`; its identifier
/// is the digest of `host` and its address.
pub fn build_host(p: &UnresolvedParameters, vars: &Vec<(String, Node)>) -> (r: Result<Host, String>)
    requires
        params_wf(*p),
        p.kind == ResourceType::Host,
    ensures
        text_result_of(r) == host_steps(vars@, *p),
        r matches Ok(h) ==> host_built(h, vars@, *p),
        r matches Ok(h) ==> h.relationships.requires@.len() == 0 && h.relationships.after@.len() == 0
            && h.relationships.triggers@.len() == 0,
{
    assert(parameter_keys_of(ResourceType::Host)[1].1);
    assert(parameter_keys_of(ResourceType::Host)[2].1);
    let ensure = match read_ensure(&p.values[0], vars) {
        Ok(e) => e,
        Err(m) => {
            return Err(m);
        },
    };
    let an = p.values[1].as_ref().unwrap();
    let ip_address = match resolve_ip(&an.source, &an.inner, vars) {
        Ok(v) => v,
        Err(m) => {
            return Err(m);
        },
    };
    let hn = p.values[2].as_ref().unwrap();
    let hostname = match resolve_hostname(&hn.source, &hn.inner, vars) {
        Ok(v) => v,
        Err(m) => {
            return Err(m);
        },
    };
    let aliases = match &p.values[3] {
        None => Vec::new(),
        Some(n) => match resolve_hostnames(&n.source, &n.inner, vars) {
            Ok(v) => v,
            Err(m) => {
                return Err(m);
            },
        },
    };
    let ip_text = ip_address_text(&ip_address);
    if aliases.len() > 4 {
        let count = crate::server::source::decimal_usize(aliases.len());
        let parts = ["host `", ip_text.as_str(), "` has ", count.as_str(), " `aliases`, cannot be more than four"];
        let m = crate::text::concat_all(&parts);
        proof {
            assert(crate::text::str_views(parts@) =~= seq!["host `"@, ip_text@, "` has "@, count@,
                " `aliases`, cannot be more than four"@]);
            reveal_with_fuel(crate::text::join_all, 6);
        }
        return Err(m);
    }
    let id = digest_of(ResourceType::Host, ip_text.as_str());
    Ok(Host {
        metadata: ResourceMetadata { kind: ResourceType::Host, id },
        parameters: HostParameters { ensure, target: "/etc/hosts".to_owned(), ip_address, hostname, aliases },
        relationships: Relationships::default(),
    })
}

/// Reading an environment parameter that may be absent.
pub open spec fn opt_environment_step(vars: Seq<(String, Node)>, o: Option<UnresolvedNode>) -> Result<(), Seq<char>> {
    match o {
        None => Ok(()),
        Some(n) => unit_of(environments_at(vars, n.source.file@, n.source.path@, n.inner)),
    }
}

/// What reading the parameters of a command runs into.
pub open spec fn execute_steps(vars: Seq<(String, Node)>, p: UnresolvedParameters) -> Result<(), Seq<char>> {
    then(opt_step(vars, p.values@[0], ensure_check()),
    then(req_step(vars, p.values@[1], any_text()),
    then(unit_of(given_list(vars, p.values@[2], any_text())),
    then(opt_list_step(vars, p.values@[3], any_text()),
    then(opt_environment_step(vars, p.values@[4]),
    opt_step(vars, p.values@[5], bool_check()))))))
}

/// Whether texts are the ones read.
pub open spec fn texts_are(v: Seq<String>, ts: Seq<Seq<char>>) -> bool {
    v.len() == ts.len() && forall|i: int| 0 <= i < ts.len() ==> (#[trigger] v[i])@ == ts[i]
}

/// What a command built from its parameters holds.
pub open spec fn execute_built(e: Execute, vars: Seq<(String, Node)>, p: UnresolvedParameters) -> bool {
    &&& e.metadata.kind == ResourceType::Execute
    &&& ensure_given(e.parameters.ensure, vars, p.values@[0])
    &&& e.parameters.name@ == given(vars, p.values@[1], any_text())
    &&& texts_are(e.parameters.command@, given_list(vars, p.values@[2], any_text())->Ok_0)
    &&& texts_are(e.parameters.unless@, list_or_empty(vars, p.values@[3], any_text()))
    &&& (match p.values@[4] {
        None => e.parameters.environment@.len() == 0,
        Some(n) => {
            let env = environments_at(vars, n.source.file@, n.source.path@, n.inner)->Ok_0;
            e.parameters.environment@.len() == env.len()
                && forall|i: int| 0 <= i < env.len() ==> environment_is(#[trigger] e.parameters.environment@[i], env[i])
        },
    })
    &&& flag_given(e.parameters.passive, vars, p.values@[5])
}

/// Builds a command from its parameters: `unless` and `environment` default
/// to none, `passive` to `false`; its identifier is drawn at random.
pub fn build_execute(p: &UnresolvedParameters, vars: &Vec<(String, Node)>) -> (r: Result<Execute, String>)
    requires
        params_wf(*p),
        p.kind == ResourceType::Execute,
    ensures
        text_result_of(r) == execute_steps(vars@, *p),
        r matches Ok(e) ==> execute_built(e, vars@, *p),
        r matches Ok(e) ==> e.relationships.requires@.len() == 0 && e.relationships.after@.len() == 0
            && e.relationships.triggers@.len() == 0,
{
    assert(parameter_keys_of(ResourceType::Execute)[1].1);
    assert(parameter_keys_of(ResourceType::Execute)[2].1);
    let ensure = match read_ensure(&p.values[0], vars) {
        Ok(e) => e,
        Err(m) => {
            return Err(m);
        },
    };
    let nn = p.values[1].as_ref().unwrap();
    let name = match resolve_text(&nn.source, &nn.inner, vars) {
        Ok(v) => v,
        Err(m) => {
            return Err(m);
        },
    };
    let cn = p.values[2].as_ref().unwrap();
    let command = match resolve_texts(&cn.source, &cn.inner, vars) {
        Ok(v) => v,
        Err(m) => {
            return Err(m);
        },
    };
    let unless = match &p.values[3] {
        None => Vec::new(),
        Some(n) => match resolve_texts(&n.source, &n.inner, vars) {
            Ok(v) => v,
            Err(m) => {
                return Err(m);
            },
        },
    };
    let environment = match &p.values[4] {
        None => Vec::new(),
        Some(n) => match resolve_environments(&n.source, &n.inner, vars) {
            Ok(v) => v,
            Err(m) => {
                return Err(m);
            },
        },
    };
    let passive = match read_flag(&p.values[5], vars) {
        Ok(b) => b,
        Err(m) => {
            return Err(m);
        },
    };
    Ok(Execute {
        metadata: ResourceMetadata { kind: ResourceType::Execute, id: random_id() },
        parameters: ExecuteParameters { ensure, name, command, unless, environment, passive },
        relationships: Relationships::default(),
    })
}

/// The message for a file with both `content` and `source`.
pub open spec fn exclusive_message() -> Seq<char> {
    "parameters `content` and `source` are mutually exclusive and cannot be defined both at the same time"@
}

/// The message for a replacement without a program to run.
pub open spec fn empty_command_message() -> Seq<char> {
    "command args in `content` must at least contain the name of a program to execute"@
}

/// The content read for a file, when it has one.
pub open spec fn content_given(vars: Seq<(String, Node)>, o: Option<UnresolvedNode>) -> Result<(Seq<char>, Seq<(Seq<char>, Seq<Seq<char>>)>), Seq<char>> {
    let n = o->Some_0;
    content_at(vars, n.source.file@, n.source.path@, n.inner)
}

/// What reading the parameters of a file runs into: `content` and `source`
/// exclude each other, and each replacement names a program.
pub open spec fn file_steps(vars: Seq<(String, Node)>, p: UnresolvedParameters) -> Result<(), Seq<char>> {
    then(opt_step(vars, p.values@[0], ensure_check()),
    then(req_step(vars, p.values@[1], path_check()),
    then(opt_step(vars, p.values@[2], mode_check()),
    then(opt_step(vars, p.values@[3], username_check()),
    then(opt_step(vars, p.values@[4], groupname_check()),
    then(match p.values@[5] { None => Ok(()), Some(_) => unit_of(content_given(vars, p.values@[5])) },
    then(opt_step(vars, p.values@[6], path_check()),
    if p.values@[5] is Some && p.values@[6] is Some {
        Err(exclusive_message())
    } else if p.values@[5] is Some && exists|i: int| 0 <= i < content_given(vars, p.values@[5])->Ok_0.1.len()
        && (#[trigger] content_given(vars, p.values@[5])->Ok_0.1[i]).1.len() == 0 {
        Err(empty_command_message())
    } else {
        Ok(())
    })))))))
}

/// What a file built from its parameters holds.
pub open spec fn file_built(f: File, vars: Seq<(String, Node)>, p: UnresolvedParameters) -> bool {
    &&& f.metadata.kind == ResourceType::File
    &&& ensure_given(f.parameters.ensure, vars, p.values@[0])
    &&& f.parameters.path@ == given(vars, p.values@[1], path_check())
    &&& text_given(f.parameters.mode@, vars, p.values@[2], mode_check(), "644"@)
    &&& text_given(f.parameters.owner@, vars, p.values@[3], username_check(), "root"@)
    &&& (match f.parameters.group { Some(g) => Some(g@), None => None }) == opt_given(vars, p.values@[4], groupname_check())
    &&& (match f.parameters.content {
        None => p.values@[5] is None,
        Some(c) => p.values@[5] is Some && content_is(c, content_given(vars, p.values@[5])->Ok_0),
    })
    &&& (match f.parameters.source { Some(s) => Some(s@), None => None }) == opt_given(vars, p.values@[6], path_check())
}

/// Whether a replacement of the content names no program.
fn has_empty_command(c: &Content) -> (r: bool)
    ensures
        r == exists|i: int| 0 <= i < c.replace@.len() && (#[trigger] c.replace@[i]).command@.len() == 0,
{
    let mut i: usize = 0;
    while i < c.replace.len()
        invariant
            i <= c.replace@.len(),
            forall|k: int| 0 <= k < i ==> (#[trigger] c.replace@[k]).command@.len() != 0,
        decreases c.replace.len() - i,
    {
        if c.replace[i].command.len() == 0 {
            return true;
        }
        i = i + 1;
    }
    false
}

/// Builds a file from its parameters: `mode` defaults to `644`, `owner` to
/// `root`; its identifier is drawn at random.
pub fn build_file(p: &UnresolvedParameters, vars: &Vec<(String, Node)>) -> (r: Result<File, String>)
    requires
        params_wf(*p),
        p.kind == ResourceType::File,
    ensures
        text_result_of(r) == file_steps(vars@, *p),
        r matches Ok(f) ==> file_built(f, vars@, *p),
        r matches Ok(f) ==> f.relationships.requires@.len() == 0 && f.relationships.after@.len() == 0
            && f.relationships.triggers@.len() == 0,
{
    assert(parameter_keys_of(ResourceType::File)[1].1);
    let ensure = match read_ensure(&p.values[0], vars) {
        Ok(e) => e,
        Err(m) => {
            return Err(m);
        },
    };
    let pn = p.values[1].as_ref().unwrap();
    let path = match resolve_path(&pn.source, &pn.inner, vars) {
        Ok(v) => v,
        Err(m) => {
            return Err(m);
        },
    };
    let mode = match &p.values[2] {
        None => Mode::default(),
        Some(n) => match resolve_mode(&n.source, &n.inner, vars) {
            Ok(v) => v,
            Err(m) => {
                return Err(m);
            },
        },
    };
    let owner = match &p.values[3] {
        None => Username::root(),
        Some(n) => match resolve_username(&n.source, &n.inner, vars) {
            Ok(v) => v,
            Err(m) => {
                return Err(m);
            },
        },
    };
    let group = match &p.values[4] {
        None => None,
        Some(n) => match resolve_groupname(&n.source, &n.inner, vars) {
            Ok(v) => Some(v),
            Err(m) => {
                return Err(m);
            },
        },
    };
    let content = match &p.values[5] {
        None => None,
        Some(n) => match resolve_content(&n.source, &n.inner, vars) {
            Ok(v) => Some(v),
            Err(m) => {
                return Err(m);
            },
        },
    };
    let source = match &p.values[6] {
        None => None,
        Some(n) => match resolve_path(&n.source, &n.inner, vars) {
            Ok(v) => Some(v),
            Err(m) => {
                return Err(m);
            },
        },
    };
    if content.is_some() && source.is_some() {
        return Err(
            "parameters `content` and `source` are mutually exclusive and cannot be defined both at the same time".to_owned(),
        );
    }
    if let Some(c) = &content {
        if has_empty_command(c) {
            proof {
                let reps = content_given(vars@, p.values@[5])->Ok_0.1;
                let i = choose|i: int| 0 <= i < c.replace@.len() && (#[trigger] c.replace@[i]).command@.len() == 0;
                assert(replacement_is(c.replace@[i], reps[i]));
                assert(content_given(vars@, p.values@[5])->Ok_0.1[i].1.len() == 0);
            }
            return Err("command args in `content` must at least contain the name of a program to execute".to_owned());
        }
        proof {
            let reps = content_given(vars@, p.values@[5])->Ok_0.1;
            assert forall|i: int| 0 <= i < reps.len() implies (#[trigger] content_given(vars@, p.values@[5])->Ok_0.1[i]).1.len() != 0 by {
                assert(replacement_is(c.replace@[i], reps[i]));
            }
        }
    }
    Ok(File {
        metadata: ResourceMetadata { kind: ResourceType::File, id: random_id() },
        parameters: FileParameters { path, ensure, mode, owner, group, content, source },
        relationships: Relationships::default(),
    })
}

/// Whether texts are in order, equal ones side by side.
pub open spec fn sorted_texts(v: Seq<Seq<char>>) -> bool {
    forall|i: int, j: int| 0 <= i < j < v.len() ==> !text_lt(#[trigger] v[j], #[trigger] v[i])
}

/// The names of groups.
pub open spec fn group_texts(v: Seq<Groupname>) -> Seq<Seq<char>> {
    v.map_values(|g: Groupname| g@)
}

/// The names of groups in order.
fn sort_groupnames(v: &Vec<Groupname>) -> (r: Vec<Groupname>)
    ensures
        sorted_texts(group_texts(r@)),
        group_texts(r@).to_multiset() == group_texts(v@).to_multiset(),
{
    broadcast use vstd::seq_lib::to_multiset_build, vstd::seq_lib::to_multiset_insert;
    let ghost orig = group_texts(v@);
    let mut out: Vec<Groupname> = Vec::new();
    let mut k: usize = 0;
    assert(orig.take(0).to_multiset() =~= group_texts(out@).to_multiset()) by {
        assert(orig.take(0) =~= group_texts(out@));
    }
    while k < v.len()
        invariant
            k <= v.len(),
            orig == group_texts(v@),
            sorted_texts(group_texts(out@)),
            group_texts(out@).to_multiset() == orig.take(k as int).to_multiset(),
        decreases v.len() - k,
    {
        let g = v[k].clone();
        let ghost names = group_texts(out@);
        let mut i: usize = 0;
        while i < out.len() && !text_less(g.as_str(), out[i].as_str())
            invariant
                i <= out.len(),
                names == group_texts(out@),
                forall|j: int| 0 <= j < i ==> !text_lt(g@, #[trigger] names[j]),
            decreases out.len() - i,
        {
            assert(names[i as int] == out@[i as int]@);
            i = i + 1;
        }
        proof {
            if i < out.len() {
                assert(names[i as int] == out@[i as int]@);
                assert(text_lt(g@, names[i as int]));
            }
        }
        let ghost gv = g@;
        out.insert(i, g);
        proof {
            let after = group_texts(out@);
            assert(after =~= names.insert(i as int, gv));
            assert forall|a: int, b: int| 0 <= a < b < after.len() implies !text_lt(#[trigger] after[b], #[trigger] after[a]) by {
                if b < i {
                    assert(after[a] == names[a] && after[b] == names[b]);
                } else if b == i {
                    assert(after[a] == names[a]);
                } else if a == i {
                    assert(after[b] == names[b - 1]);
                    if text_lt(names[b - 1], gv) {
                        if b - 1 == i {
                            lemma_text_lt_trans(gv, names[b - 1], gv);
                            lemma_text_lt_irreflexive(gv);
                        } else {
                            assert(!text_lt(names[b - 1], names[i as int]));
                            lemma_text_lt_trans(names[b - 1], gv, names[i as int]);
                        }
                    }
                } else if a < i {
                    assert(after[a] == names[a] && after[b] == names[b - 1]);
                } else {
                    assert(after[a] == names[a - 1] && after[b] == names[b - 1]);
                }
            }
            assert(orig.take(k + 1) =~= orig.take(k as int).push(orig[k as int]));
            assert(orig[k as int] == gv);
            vstd::seq_lib::to_multiset_insert(names, i as int, gv);
            vstd::seq_lib::to_multiset_build(orig.take(k as int), gv);
            assert(after.to_multiset() == names.to_multiset().insert(gv));
        }
        k = k + 1;
    }
    assert(orig.take(v.len() as int) =~= orig);
    out
}

/// The name of a user's primary group: the one given, else the user's name.
pub open spec fn primary_group(vars: Seq<(String, Node)>, p: UnresolvedParameters) -> Seq<char> {
    match p.values@[8] {
        None => given(vars, p.values@[1], username_check()),
        Some(_) => given(vars, p.values@[8], groupname_check()),
    }
}

/// The message for a primary group listed among the supplementary ones.
pub open spec fn primary_listed_message(group: Seq<char>, user: Seq<char>) -> Seq<char> {
    "primary group `"@ + group + "` of user `"@ + user + "` cannot appear in the list of supplementary groups"@
}

/// What reading the parameters of a user runs into: the default home must
/// be a safe path, and the primary group is not a supplementary one.
pub open spec fn user_steps(vars: Seq<(String, Node)>, p: UnresolvedParameters) -> Result<(), Seq<char>> {
    let name = given(vars, p.values@[1], username_check());
    then(opt_step(vars, p.values@[0], ensure_check()),
    then(req_step(vars, p.values@[1], username_check()),
    then(opt_step(vars, p.values@[2], bool_check()),
    then(opt_step(vars, p.values@[3], any_text()),
    then(opt_step(vars, p.values@[4], path_check()),
    then(match p.values@[5] {
        Some(_) => opt_step(vars, p.values@[5], path_check()),
        None => match path_check()("/home/"@ + name) {
            None => Ok(()),
            Some(m) => Err(m),
        },
    },
    then(opt_step(vars, p.values@[6], password_ok()),
    then(opt_step(vars, p.values@[7], date_ok()),
    then(opt_step(vars, p.values@[8], groupname_check()),
    then(opt_list_step(vars, p.values@[9], groupname_check()),
    if list_or_empty(vars, p.values@[9], groupname_check()).contains(primary_group(vars, p)) {
        Err(primary_listed_message(primary_group(vars, p), name))
    } else {
        Ok(())
    }))))))))))
}

/// What a user built from its parameters holds.
pub open spec fn user_built(u: User, vars: Seq<(String, Node)>, p: UnresolvedParameters) -> bool {
    let name = given(vars, p.values@[1], username_check());
    &&& u.metadata.kind == ResourceType::User
    &&& ensure_given(u.parameters.ensure, vars, p.values@[0])
    &&& u.parameters.name@ == name
    &&& flag_given(u.parameters.system, vars, p.values@[2])
    &&& (match u.parameters.comment { Some(c) => Some(c@), None => None }) == opt_given(vars, p.values@[3], any_text())
    &&& (match u.parameters.shell { Some(s) => Some(s@), None => None }) == opt_given(vars, p.values@[4], path_check())
    &&& text_given(u.parameters.home@, vars, p.values@[5], path_check(), "/home/"@ + name)
    &&& (match p.values@[6] {
        None => u.parameters.password is Locked,
        Some(_) => {
            let t = given(vars, p.values@[6], password_ok());
            &&& (u.parameters.password is Locked <==> password_check(t) == Some(false))
            &&& (u.parameters.password is Unlocked ==> u.parameters.password.is_unlocked_with(t))
        },
    })
    &&& (match u.parameters.expiry_date {
        None => p.values@[7] is None,
        Some(d) => p.values@[7] is Some && date_parse(given(vars, p.values@[7], date_ok()))
            == Ok::<(i32, u8, u8), Seq<char>>((d.year, d.month, d.day)),
    })
    &&& u.parameters.group@ == primary_group(vars, p)
    &&& sorted_texts(group_texts(u.parameters.groups@))
    &&& group_texts(u.parameters.groups@).to_multiset() == list_or_empty(vars, p.values@[9], groupname_check()).to_multiset()
}

/// Whether a name is among the names of groups.
fn has_groupname(v: &Vec<Groupname>, g: &Groupname) -> (r: bool)
    ensures
        r == group_texts(v@).contains(g@),
{
    let mut i: usize = 0;
    while i < v.len()
        invariant
            i <= v.len(),
            forall|k: int| 0 <= k < i ==> (#[trigger] v@[k])@ != g@,
        decreases v.len() - i,
    {
        if v[i].eq(g) {
            assert(group_texts(v@)[i as int] == g@);
            return true;
        }
        i = i + 1;
    }
    assert(!group_texts(v@).contains(g@)) by {
        if group_texts(v@).contains(g@) {
            let k = choose|k: int| 0 <= k < group_texts(v@).len() && group_texts(v@)[k] == g@;
            assert(v@[k]@ == g@);
        }
    }
    false
}

/// Builds a user from its parameters: `system` defaults to `false`, `home`
/// to `/home/` and the name, `password` to a locked one, the primary group
/// to the user's name, the supplementary groups to none, and those are
/// sorted; its identifier is drawn at random.
pub fn build_user(p: &UnresolvedParameters, vars: &Vec<(String, Node)>) -> (r: Result<User, String>)
    requires
        params_wf(*p),
        p.kind == ResourceType::User,
    ensures
        text_result_of(r) == user_steps(vars@, *p),
        r matches Ok(u) ==> user_built(u, vars@, *p),
        r matches Ok(u) ==> u.relationships.requires@.len() == 0 && u.relationships.after@.len() == 0
            && u.relationships.triggers@.len() == 0,
{
    broadcast use vstd::seq_lib::to_multiset_contains;
    assert(parameter_keys_of(ResourceType::User)[1].1);
    let ensure = match read_ensure(&p.values[0], vars) {
        Ok(e) => e,
        Err(m) => {
            return Err(m);
        },
    };
    let nn = p.values[1].as_ref().unwrap();
    let name = match resolve_username(&nn.source, &nn.inner, vars) {
        Ok(v) => v,
        Err(m) => {
            return Err(m);
        },
    };
    let system = match read_flag(&p.values[2], vars) {
        Ok(b) => b,
        Err(m) => {
            return Err(m);
        },
    };
    let comment = match &p.values[3] {
        None => None,
        Some(n) => match resolve_text(&n.source, &n.inner, vars) {
            Ok(v) => Some(v),
            Err(m) => {
                return Err(m);
            },
        },
    };
    let shell = match &p.values[4] {
        None => None,
        Some(n) => match resolve_path(&n.source, &n.inner, vars) {
            Ok(v) => Some(v),
            Err(m) => {
                return Err(m);
            },
        },
    };
    let home = match &p.values[5] {
        None => match SafePathBuf::from_str(crate::text::concat2("/home/", name.as_str()).as_str()) {
            Ok(v) => v,
            Err(m) => {
                return Err(m);
            },
        },
        Some(n) => match resolve_path(&n.source, &n.inner, vars) {
            Ok(v) => v,
            Err(m) => {
                return Err(m);
            },
        },
    };
    let password = match &p.values[6] {
        None => Password::default(),
        Some(n) => match resolve_password(&n.source, &n.inner, vars) {
            Ok(v) => v,
            Err(m) => {
                return Err(m);
            },
        },
    };
    let expiry_date = match &p.values[7] {
        None => None,
        Some(n) => match resolve_expiry_date(&n.source, &n.inner, vars) {
            Ok(v) => Some(v),
            Err(m) => {
                return Err(m);
            },
        },
    };
    let group = match &p.values[8] {
        None => Groupname::from_user(&name),
        Some(n) => match resolve_groupname(&n.source, &n.inner, vars) {
            Ok(v) => v,
            Err(m) => {
                return Err(m);
            },
        },
    };
    let listed = match &p.values[9] {
        None => Vec::new(),
        Some(n) => match resolve_groupnames(&n.source, &n.inner, vars) {
            Ok(v) => v,
            Err(m) => {
                return Err(m);
            },
        },
    };
    let ghost list = list_or_empty(vars@, p.values@[9], groupname_check());
    assert(group_texts(listed@) =~= list);
    let groups = sort_groupnames(&listed);
    if has_groupname(&groups, &group) {
        proof {
            assert(group_texts(groups@).to_multiset().count(group@) > 0);
        }
        let parts = ["primary group `", group.as_str(), "` of user `", name.as_str(),
            "` cannot appear in the list of supplementary groups"];
        let m = crate::text::concat_all(&parts);
        proof {
            assert(crate::text::str_views(parts@) =~= seq!["primary group `"@, group@, "` of user `"@, name@,
                "` cannot appear in the list of supplementary groups"@]);
            reveal_with_fuel(crate::text::join_all, 6);
        }
        return Err(m);
    }
    proof {
        if list.contains(group@) {
            assert(list.to_multiset().count(group@) > 0);
            assert(group_texts(groups@).contains(group@));
        }
    }
    Ok(User {
        metadata: ResourceMetadata { kind: ResourceType::User, id: random_id() },
        parameters: UserParameters {
            ensure,
            name,
            system,
            comment,
            shell,
            home,
            password,
            expiry_date,
            group,
            groups,
        },
        relationships: Relationships::default(),
    })
}

/// Whether a resource holds no relationship yet.
pub open spec fn fresh(r: Resource) -> bool {
    &&& requirements(r).len() == 0
    &&& predecessors(r).len() == 0
    &&& triggered(r).len() == 0
    &&& child_nodes(r).len() == 0
}

/// What reading the parameters of a resource runs into.
pub open spec fn resource_steps(vars: Seq<(String, Node)>, p: UnresolvedParameters) -> Result<(), Seq<char>> {
    match p.kind {
        ResourceType::AptPackage => package_steps(vars, p),
        ResourceType::Directory => directory_steps(vars, p),
        ResourceType::Execute => execute_steps(vars, p),
        ResourceType::File => file_steps(vars, p),
        ResourceType::Group => group_steps(vars, p),
        ResourceType::Host => host_steps(vars, p),
        ResourceType::Symlink => symlink_steps(vars, p),
        _ => user_steps(vars, p),
    }
}

/// What a resource built from its parameters holds.
pub open spec fn resource_built(r: Resource, vars: Seq<(String, Node)>, p: UnresolvedParameters) -> bool {
    match r {
        Resource::AptPackage(a) => p.kind == ResourceType::AptPackage && package_built(a, vars, p),
        Resource::Directory(d) => p.kind == ResourceType::Directory && directory_built(d, vars, p),
        Resource::Execute(e) => p.kind == ResourceType::Execute && execute_built(e, vars, p),
        Resource::File(f) => p.kind == ResourceType::File && file_built(f, vars, p),
        Resource::Group(g) => p.kind == ResourceType::Group && group_built(g, vars, p),
        Resource::Host(h) => p.kind == ResourceType::Host && host_built(h, vars, p),
        Resource::Symlink(s) => p.kind == ResourceType::Symlink && symlink_built(s, vars, p),
        Resource::User(u) => p.kind == ResourceType::User && user_built(u, vars, p),
    }
}

impl Resource {
    /// Builds a resource of a catalog from its parameters, the variables
    /// they reference substituted.
    pub fn try_from(resource: &UnresolvedResource, vars: &Vec<(String, Node)>) -> (r: Result<Resource, String>)
        requires
            params_wf(resource.parameters),
        ensures
            text_result_of(r) == resource_steps(vars@, resource.parameters),
            r matches Ok(x) ==> resource_built(x, vars@, resource.parameters) && fresh(x),
    {
        let p = &resource.parameters;
        match p.kind {
            ResourceType::AptPackage => match build_package(p, vars) {
                Ok(x) => Ok(Resource::AptPackage(x)),
                Err(m) => Err(m),
            },
            ResourceType::Directory => match build_directory(p, vars) {
                Ok(x) => Ok(Resource::Directory(x)),
                Err(m) => Err(m),
            },
            ResourceType::Execute => match build_execute(p, vars) {
                Ok(x) => Ok(Resource::Execute(x)),
                Err(m) => Err(m),
            },
            ResourceType::File => match build_file(p, vars) {
                Ok(x) => Ok(Resource::File(x)),
                Err(m) => Err(m),
            },
            ResourceType::Group => match build_group(p, vars) {
                Ok(x) => Ok(Resource::Group(x)),
                Err(m) => Err(m),
            },
            ResourceType::Host => match build_host(p, vars) {
                Ok(x) => Ok(Resource::Host(x)),
                Err(m) => Err(m),
            },
            ResourceType::Symlink => match build_symlink(p, vars) {
                Ok(x) => Ok(Resource::Symlink(x)),
                Err(m) => Err(m),
            },
            _ => match build_user(p, vars) {
                Ok(x) => Ok(Resource::User(x)),
                Err(m) => Err(m),
            },
        }
    }
}

} // verus!
