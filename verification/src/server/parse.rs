use crate::common::net::{ip_from_text, parse_ip_address, IpAddress};
use crate::common::path::{is_absolute, is_safe_path, SafePathBuf};
use crate::common::resources::apt::package::{name_message, Name as AptPackageName};
use crate::common::resources::apt::package_name_check;
use crate::common::resources::group::Name as GroupName;
use crate::common::resources::user::{account_name_check, account_name_message, Name as UserName};
use crate::common::{action_name, Action, ResourceType};
use crate::server::resources::{Dependency, Trigger};
use crate::server::source::{source_text, Source};
use crate::server::unresolved::{leftover_key, missing_key_message, params_check, params_match, params_wf, served_kind, sourced, sourced_message, UnresolvedParameters};
use crate::server::yaml::{key_index, last_string_key, remove_key, Node};
use crate::text::str_eq;
use vstd::prelude::*;

verus! {

/// The kind of resource and the key of its primary parameter that a
/// dependency of the given type names.
pub open spec fn dependency_type(t: Seq<char>) -> Option<(ResourceType, Seq<char>)> {
    if t == "apt::package"@ {
        Some((ResourceType::AptPackage, "name"@))
    } else if t == "directory"@ {
        Some((ResourceType::Directory, "path"@))
    } else if t == "execute"@ {
        Some((ResourceType::Execute, "name"@))
    } else if t == "file"@ {
        Some((ResourceType::File, "path"@))
    } else if t == "group"@ {
        Some((ResourceType::Group, "name"@))
    } else if t == "host"@ {
        Some((ResourceType::Host, "ip_address"@))
    } else if t == "symlink"@ {
        Some((ResourceType::Symlink, "path"@))
    } else if t == "user"@ {
        Some((ResourceType::User, "name"@))
    } else {
        None
    }
}

/// The message that a path refused as a `SafePathBuf` gives.
pub open spec fn safe_path_message(p: Seq<char>) -> Seq<char> {
    if !is_absolute(p) {
        "path must be absolute, got `"@ + p + "`"@
    } else {
        "path components must not contain relative references such as '.' or '..'"@
    }
}

/// The message that the primary parameter of a dependency gives when it is
/// not valid for its kind.
pub open spec fn dependency_value_error(kind: ResourceType, s: Seq<char>) -> Option<Seq<char>> {
    match kind {
        ResourceType::AptPackage => match package_name_check(s) {
            Err(e) => Some(name_message(s, e)),
            Ok(_) => None,
        },
        ResourceType::Directory | ResourceType::File | ResourceType::Symlink => if is_safe_path(s) {
            None
        } else {
            Some(safe_path_message(s))
        },
        ResourceType::Group => match account_name_check(s) {
            Err(e) => Some(account_name_message("groupname"@, e)),
            Ok(_) => None,
        },
        ResourceType::User => match account_name_check(s) {
            Err(e) => Some(account_name_message("username"@, e)),
            Ok(_) => None,
        },
        ResourceType::Host => if ip_from_text(s) is None {
            Some("invalid IP address syntax"@)
        } else {
            None
        },
        _ => None,
    }
}

/// What a hash left over after reading gives: the message for a key that
/// may not be there, or `then`.
pub open spec fn after_leftover<A>(file: Seq<char>, path: Seq<char>, h: Seq<(Node, Node)>, then: Result<A, Seq<char>>) -> Result<A, Seq<char>> {
    match leftover_key(h) {
        Some(k) => Err(source_text(file, path) + ": encountered invalid key `"@ + k + "`"@),
        None => then,
    }
}

/// What reading a dependency from a node gives: its kind and the text of
/// its primary parameter, or the message that refuses it.
pub open spec fn dependency_outcome(file: Seq<char>, path: Seq<char>, node: Node) -> Result<(ResourceType, Seq<char>), Seq<char>> {
    match node {
        Node::Hash(hv) => {
            let h = hv@;
            match key_index(h, "type"@) {
            None => Err(missing_key_message(file, path, "type"@)),
            Some(ti) => match h[ti].1 {
                Node::String(kt) => {
                    let h1 = h.remove(ti);
                    match dependency_type(kt@) {
                        None => Err(source_text(file, path + "."@ + "type"@) + ": encountered invalid value `"@ + kt@ + "`"@),
                        Some(tk) => {
                            let key = tk.1;
                            let kpath = path + "."@ + key;
                            match key_index(h1, key) {
                                None => after_leftover(file, path, h1, Err(missing_key_message(file, path, key))),
                                Some(vi) => match h1[vi].1 {
                                    Node::String(s) => match dependency_value_error(tk.0, s@) {
                                        Some(e) => Err(source_text(file, kpath) + ": "@ + e),
                                        None => after_leftover(file, path, h1.remove(vi), Ok((tk.0, s@))),
                                    },
                                    _ => after_leftover(file, path, h1.remove(vi),
                                        Err(source_text(file, kpath) + ": node must be a string"@)),
                                },
                            }
                        },
                    }
                },
                _ => Err(source_text(file, path + "."@ + "type"@) + ": node must be a string"@),
            },
            }
        },
        _ => Err(source_text(file, path) + ": node must be a hash"@),
    }
}

/// Whether a dependency is of `kind` with the primary parameter read from `s`.
pub open spec fn dependency_is(d: Dependency, kind: ResourceType, s: Seq<char>) -> bool {
    match d {
        Dependency::AptPackage { name } => kind == ResourceType::AptPackage && name@ == s,
        Dependency::Directory { path } => kind == ResourceType::Directory && path@ == s,
        Dependency::Execute { name } => kind == ResourceType::Execute && name@ == s,
        Dependency::File { path } => kind == ResourceType::File && path@ == s,
        Dependency::Group { name } => kind == ResourceType::Group && name@ == s,
        Dependency::Host { ip_address } => kind == ResourceType::Host && ip_from_text(s) == Some(ip_address),
        Dependency::Symlink { path } => kind == ResourceType::Symlink && path@ == s,
        Dependency::User { name } => kind == ResourceType::User && name@ == s,
    }
}

fn dependency_kind(t: &str) -> (r: Option<(ResourceType, &'static str)>)
    ensures
        match dependency_type(t@) {
            Some(tk) => r matches Some(p) && p.0 == tk.0 && p.1@ == tk.1,
            None => r is None,
        },
{
    if str_eq(t, "apt::package") {
        Some((ResourceType::AptPackage, "name"))
    } else if str_eq(t, "directory") {
        Some((ResourceType::Directory, "path"))
    } else if str_eq(t, "execute") {
        Some((ResourceType::Execute, "name"))
    } else if str_eq(t, "file") {
        Some((ResourceType::File, "path"))
    } else if str_eq(t, "group") {
        Some((ResourceType::Group, "name"))
    } else if str_eq(t, "host") {
        Some((ResourceType::Host, "ip_address"))
    } else if str_eq(t, "symlink") {
        Some((ResourceType::Symlink, "path"))
    } else if str_eq(t, "user") {
        Some((ResourceType::User, "name"))
    } else {
        None
    }
}

/// Parses the primary parameter of a dependency of `kind`.
fn dependency_value(kind: ResourceType, s: &str) -> (r: Result<Dependency, String>)
    requires
        dependency_type_kind(kind),
    ensures
        match dependency_value_error(kind, s@) {
            Some(e) => r is Err && r->Err_0@ == e,
            None => r is Ok && dependency_is(r->Ok_0, kind, s@),
        },
{
    match kind {
        ResourceType::AptPackage => match AptPackageName::from_str(s) {
            Ok(name) => Ok(Dependency::AptPackage { name }),
            Err(e) => Err(e),
        },
        ResourceType::Directory => match SafePathBuf::from_str(s) {
            Ok(path) => Ok(Dependency::Directory { path }),
            Err(e) => Err(e),
        },
        ResourceType::Execute => Ok(Dependency::Execute { name: s.to_owned() }),
        ResourceType::File => match SafePathBuf::from_str(s) {
            Ok(path) => Ok(Dependency::File { path }),
            Err(e) => Err(e),
        },
        ResourceType::Group => match GroupName::from_str(s) {
            Ok(name) => Ok(Dependency::Group { name }),
            Err(e) => Err(e),
        },
        ResourceType::Host => match parse_ip_address(s) {
            Some(ip_address) => Ok(Dependency::Host { ip_address }),
            None => Err("invalid IP address syntax".to_owned()),
        },
        ResourceType::Symlink => match SafePathBuf::from_str(s) {
            Ok(path) => Ok(Dependency::Symlink { path }),
            Err(e) => Err(e),
        },
        _ => match UserName::from_str(s) {
            Ok(name) => Ok(Dependency::User { name }),
            Err(e) => Err(e),
        },
    }
}

/// The kinds that a dependency can name.
pub open spec fn dependency_type_kind(kind: ResourceType) -> bool {
    match kind {
        ResourceType::AptPreference | ResourceType::CronJob | ResourceType::ResolvConf => false,
        _ => true,
    }
}

impl Dependency {
    /// Reads a dependency from the configuration: a hash with the `type` of
    /// the resource and its primary parameter.
    pub fn try_from(source: &Source, node: Node) -> (r: Result<Dependency, String>)
        ensures
            match dependency_outcome(source.file@, source.path@, node) {
                Ok(v) => r is Ok && dependency_is(r->Ok_0, v.0, v.1),
                Err(m) => r is Err && r->Err_0@ == m,
            },
    {
        let ghost n0 = node;
        let mut hash = match node.into_hash() {
            Some(h) => h,
            None => {
                return Err(sourced(source, ": node must be a hash"));
            },
        };
        let ghost h0 = hash@;
        let kind_text = match remove_key(&mut hash, "type") {
            Some(n) => match n.into_string() {
                Some(t) => t,
                None => {
                    let s = source.add_key("type");
                    return Err(sourced(&s, ": node must be a string"));
                },
            },
            None => {
                return Err(sourced_message(source, ": failed to find required key `", "type", "`"));
            },
        };
        let ghost h1 = hash@;
        let (kind, key) = match dependency_kind(kind_text.as_str()) {
            Some(tk) => tk,
            None => {
                let s = source.add_key("type");
                return Err(sourced_message(&s, ": encountered invalid value `", kind_text.as_str(), "`"));
            },
        };
        let ksource = source.add_key(key);
        let dependency = match remove_key(&mut hash, key) {
            Some(n) => match n.into_string() {
                Some(s) => match dependency_value(kind, s.as_str()) {
                    Ok(d) => Ok(d),
                    Err(e) => {
                        let mut m = sourced(&ksource, ": ");
                        crate::text::push_str(&mut m, e.as_str());
                        return Err(m);
                    },
                },
                None => Err(sourced(&ksource, ": node must be a string")),
            },
            None => Err(sourced_message(source, ": failed to find required key `", key, "`")),
        };
        match last_string_key(&hash) {
            Some(k) => Err(sourced_message(source, ": encountered invalid key `", k.as_str(), "`")),
            None => dependency,
        }
    }
}

/// The action whose name is `s`.
pub open spec fn action_named(s: Seq<char>) -> Option<Action> {
    if s == "created"@ {
        Some(Action::Created)
    } else if s == "deleted"@ {
        Some(Action::Deleted)
    } else if s == "changed"@ {
        Some(Action::Changed)
    } else if s == "unchanged"@ {
        Some(Action::Unchanged)
    } else if s == "skipped"@ {
        Some(Action::Skipped)
    } else if s == "failed"@ {
        Some(Action::Failed)
    } else {
        None
    }
}

/// The text of the source of item `i` of the array at `path`.
pub open spec fn item_path(path: Seq<char>, i: int) -> Seq<char> {
    path + "["@ + crate::common::net::decimal(i as nat) + "]"@
}

/// What reading the first `n` items of the `when` list of a trigger gives:
/// the actions in order, or the message for the first item refused.
pub open spec fn when_outcome(file: Seq<char>, path: Seq<char>, items: Seq<Node>, n: nat) -> Result<Seq<Action>, Seq<char>>
    decreases n,
{
    if n == 0 {
        Ok(seq![])
    } else {
        match when_outcome(file, path, items, (n - 1) as nat) {
            Err(m) => Err(m),
            Ok(acts) => {
                let i = n - 1;
                let src = source_text(file, item_path(path, i));
                match items[i] {
                    Node::String(t) => match action_named(t@) {
                        None => Err(src + ": "@ + "invalid action: "@ + t@),
                        Some(a) => if !(a == Action::Created || a == Action::Deleted || a == Action::Changed) {
                            Err(src + ": value must be one of `created`, `deleted`, `changed`"@)
                        } else if acts.contains(a) {
                            Err(src + ": found duplicate value"@)
                        } else {
                            Ok(acts.push(a))
                        },
                    },
                    _ => Err(src + ": node must be a string"@),
                }
            },
        }
    }
}

/// What reading a trigger from a node gives: the name of the `execute`
/// resource and the actions upon which it runs, or the message that
/// refuses it.
pub open spec fn trigger_outcome(file: Seq<char>, path: Seq<char>, node: Node) -> Result<(Seq<char>, Seq<Action>), Seq<char>> {
    match node {
        Node::Hash(hv) => {
            let h = hv@;
            match key_index(h, "type"@) {
                None => Err(missing_key_message(file, path, "type"@)),
                Some(ti) => match h[ti].1 {
                    Node::String(kt) => {
                        let h1 = h.remove(ti);
                        if kt@ != "execute"@ {
                            Err(source_text(file, path + "."@ + "type"@) + ": encountered invalid value `"@ + kt@ + "`"@)
                        } else {
                            match key_index(h1, "name"@) {
                                None => Err(missing_key_message(file, path, "name"@)),
                                Some(ni) => match h1[ni].1 {
                                    Node::String(name) => {
                                        let h2 = h1.remove(ni);
                                        match key_index(h2, "when"@) {
                                            None => after_leftover(file, path, h2,
                                                Ok((name@, seq![Action::Created, Action::Deleted, Action::Changed]))),
                                            Some(wi) => match h2[wi].1 {
                                                Node::Array(items) => match when_outcome(file, path + "."@ + "when"@, items@, items@.len()) {
                                                    Err(m) => Err(m),
                                                    Ok(acts) => after_leftover(file, path, h2.remove(wi), Ok((name@, acts))),
                                                },
                                                _ => Err(source_text(file, path + "."@ + "when"@) + ": node must be an array"@),
                                            },
                                        }
                                    },
                                    _ => Err(source_text(file, path + "."@ + "name"@) + ": node must be a string"@),
                                },
                            }
                        }
                    },
                    _ => Err(source_text(file, path + "."@ + "type"@) + ": node must be a string"@),
                },
            }
        },
        _ => Err(source_text(file, path) + ": node must be a hash"@),
    }
}

proof fn lemma_when_err_stays(file: Seq<char>, path: Seq<char>, items: Seq<Node>, k: nat, n: nat)
    requires
        k <= n,
        when_outcome(file, path, items, k) is Err,
    ensures
        when_outcome(file, path, items, n) == when_outcome(file, path, items, k),
    decreases n - k,
{
    if k < n {
        lemma_when_err_stays(file, path, items, k, (n - 1) as nat);
    }
}

fn contains_action(v: &Vec<Action>, a: Action) -> (r: bool)
    ensures
        r == v@.contains(a),
{
    let mut i: usize = 0;
    while i < v.len()
        invariant
            i <= v.len(),
            forall|j: int| 0 <= j < i ==> v@[j] != a,
        decreases v.len() - i,
    {
        if v[i] == a {
            return true;
        }
        i = i + 1;
    }
    false
}

/// Reads the `when` list of a trigger.
fn when_list(source: &Source, items: Vec<Node>) -> (r: Result<Vec<Action>, String>)
    ensures
        match when_outcome(source.file@, source.path@, items@, items@.len()) {
            Ok(acts) => r is Ok && r->Ok_0@ == acts,
            Err(m) => r is Err && r->Err_0@ == m,
        },
{
    let mut actions: Vec<Action> = Vec::new();
    let mut i: usize = 0;
    while i < items.len()
        invariant
            i <= items@.len(),
            when_outcome(source.file@, source.path@, items@, i as nat) == Ok::<Seq<Action>, Seq<char>>(actions@),
        decreases items@.len() - i,
    {
        let isource = source.add_index(i);
        assert(isource.path@ == item_path(source.path@, i as int));
        match &items[i] {
            Node::String(t) => match Action::from_str(t.as_str()) {
                Err(e) => {
                    proof {
                        if action_named(t@) is Some {
                            assert(action_name(action_named(t@)->0) == t@);
                        }
                    }
                    let mut m = sourced(&isource, ": ");
                    crate::text::push_str(&mut m, e.as_str());
                    proof {
                        lemma_when_err_stays(source.file@, source.path@, items@, (i + 1) as nat, items@.len());
                    }
                    return Err(m);
                },
                Ok(a) => {
                    assert(action_named(t@) == Some(a)) by {
                        assert(action_name(a) == t@);
                        reveal_strlit("created");
                        reveal_strlit("deleted");
                        reveal_strlit("changed");
                        reveal_strlit("unchanged");
                        reveal_strlit("skipped");
                        reveal_strlit("failed");
                        match a {
                            Action::Created => {
                                assert(t@[0] == 'c' && t@[1] == 'r');
                            },
                            Action::Deleted => {
                                assert(t@[0] == 'd');
                            },
                            Action::Changed => {
                                assert(t@[0] == 'c' && t@[1] == 'h');
                            },
                            Action::Unchanged => {
                                assert(t@[0] == 'u');
                            },
                            Action::Skipped => {
                                assert(t@[0] == 's');
                            },
                            Action::Failed => {
                                assert(t@[0] == 'f');
                            },
                        }
                    }
                    if !(a == Action::Created || a == Action::Deleted || a == Action::Changed) {
                        proof {
                            lemma_when_err_stays(source.file@, source.path@, items@, (i + 1) as nat, items@.len());
                        }
                        return Err(sourced(&isource, ": value must be one of `created`, `deleted`, `changed`"));
                    }
                    if contains_action(&actions, a) {
                        proof {
                            lemma_when_err_stays(source.file@, source.path@, items@, (i + 1) as nat, items@.len());
                        }
                        return Err(sourced(&isource, ": found duplicate value"));
                    }
                    actions.push(a);
                },
            },
            _ => {
                proof {
                    lemma_when_err_stays(source.file@, source.path@, items@, (i + 1) as nat, items@.len());
                }
                return Err(sourced(&isource, ": node must be a string"));
            },
        }
        i = i + 1;
    }
    Ok(actions)
}

impl Trigger {
    /// Reads a trigger from the configuration: a hash with the `type`
    /// `execute`, the `name` of the resource and, optionally, the actions
    /// upon which it runs (`when`).
    pub fn try_from(source: &Source, node: Node) -> (r: Result<Trigger, String>)
        ensures
            match trigger_outcome(source.file@, source.path@, node) {
                Ok(v) => r matches Ok(Trigger::Execute { name, actions }) && name@ == v.0 && actions@ == v.1,
                Err(m) => r is Err && r->Err_0@ == m,
            },
    {
        let mut hash = match node.into_hash() {
            Some(h) => h,
            None => {
                return Err(sourced(source, ": node must be a hash"));
            },
        };
        let kind_text = match remove_key(&mut hash, "type") {
            Some(n) => match n.into_string() {
                Some(t) => t,
                None => {
                    let s = source.add_key("type");
                    return Err(sourced(&s, ": node must be a string"));
                },
            },
            None => {
                return Err(sourced_message(source, ": failed to find required key `", "type", "`"));
            },
        };
        if !str_eq(kind_text.as_str(), "execute") {
            let s = source.add_key("type");
            return Err(sourced_message(&s, ": encountered invalid value `", kind_text.as_str(), "`"));
        }
        let name = match remove_key(&mut hash, "name") {
            Some(n) => match n.into_string() {
                Some(t) => t,
                None => {
                    let s = source.add_key("name");
                    return Err(sourced(&s, ": node must be a string"));
                },
            },
            None => {
                return Err(sourced_message(source, ": failed to find required key `", "name", "`"));
            },
        };
        let actions = match remove_key(&mut hash, "when") {
            Some(n) => match n.into_vec() {
                Some(items) => {
                    let wsource = source.add_key("when");
                    match when_list(&wsource, items) {
                        Ok(v) => v,
                        Err(m) => {
                            return Err(m);
                        },
                    }
                },
                None => {
                    let s = source.add_key("when");
                    return Err(sourced(&s, ": node must be an array"));
                },
            },
            None => {
                let v = vec![Action::Created, Action::Deleted, Action::Changed];
                assert(v@ =~= seq![Action::Created, Action::Deleted, Action::Changed]);
                v
            },
        };
        match last_string_key(&hash) {
            Some(k) => Err(sourced_message(source, ": encountered invalid key `", k.as_str(), "`")),
            None => Ok(Trigger::Execute { name, actions }),
        }
    }
}

/// A hash with the entry of `key` removed, and the value it held.
pub open spec fn section(h: Seq<(Node, Node)>, key: Seq<char>) -> (Seq<(Node, Node)>, Option<Node>) {
    match key_index(h, key) {
        Some(i) => (h.remove(i), Some(h[i].1)),
        None => (h, None),
    }
}

/// What reading the first `n` dependencies of a list gives.
pub open spec fn dependencies_fold(file: Seq<char>, path: Seq<char>, items: Seq<Node>, n: nat) -> Result<Seq<(ResourceType, Seq<char>)>, Seq<char>>
    decreases n,
{
    if n == 0 {
        Ok(seq![])
    } else {
        match dependencies_fold(file, path, items, (n - 1) as nat) {
            Err(m) => Err(m),
            Ok(ds) => match dependency_outcome(file, item_path(path, n - 1), items[n - 1]) {
                Err(m) => Err(m),
                Ok(d) => Ok(ds.push(d)),
            },
        }
    }
}

/// What reading the first `n` triggers of a list gives.
pub open spec fn triggers_fold(file: Seq<char>, path: Seq<char>, items: Seq<Node>, n: nat) -> Result<Seq<(Seq<char>, Seq<Action>)>, Seq<char>>
    decreases n,
{
    if n == 0 {
        Ok(seq![])
    } else {
        match triggers_fold(file, path, items, (n - 1) as nat) {
            Err(m) => Err(m),
            Ok(ts) => match trigger_outcome(file, item_path(path, n - 1), items[n - 1]) {
                Err(m) => Err(m),
                Ok(t) => Ok(ts.push(t)),
            },
        }
    }
}

/// What an optional list of dependencies gives: none when absent.
pub open spec fn dependencies_result(file: Seq<char>, path: Seq<char>, node: Option<Node>) -> Result<Seq<(ResourceType, Seq<char>)>, Seq<char>> {
    match node {
        None => Ok(seq![]),
        Some(Node::Array(items)) => dependencies_fold(file, path, items@, items@.len()),
        Some(_) => Err(source_text(file, path) + ": node must be an array"@),
    }
}

/// What an optional list of triggers gives: none when absent.
pub open spec fn triggers_result(file: Seq<char>, path: Seq<char>, node: Option<Node>) -> Result<Seq<(Seq<char>, Seq<Action>)>, Seq<char>> {
    match node {
        None => Ok(seq![]),
        Some(Node::Array(items)) => triggers_fold(file, path, items@, items@.len()),
        Some(_) => Err(source_text(file, path) + ": node must be an array"@),
    }
}

/// The kind of resource that a `type` names, among the kinds served.
pub open spec fn resource_kind_named(t: Seq<char>) -> Option<ResourceType> {
    match dependency_type(t) {
        Some(tk) => Some(tk.0),
        None => None,
    }
}

/// What reading a resource from a hash gives: its kind, or the message
/// that refuses it.
pub open spec fn resource_check(file: Seq<char>, path: Seq<char>, h: Seq<(Node, Node)>) -> Result<ResourceType, Seq<char>> {
    let (h1, t) = section(h, "type"@);
    match t {
        None => Err(missing_key_message(file, path, "type"@)),
        Some(Node::String(kt)) => {
            let (h2, rq) = section(h1, "requires"@);
            match dependencies_result(file, path + "."@ + "requires"@, rq) {
                Err(m) => Err(m),
                Ok(_) => {
                    let (h3, tg) = section(h2, "triggers"@);
                    match triggers_result(file, path + "."@ + "triggers"@, tg) {
                        Err(m) => Err(m),
                        Ok(_) => {
                            let (h4, pm) = section(h3, "parameters"@);
                            match pm {
                                None => Err(missing_key_message(file, path, "parameters"@)),
                                Some(Node::Hash(ph)) => match resource_kind_named(kt@) {
                                    None => Err(source_text(file, path) + ": encountered invalid value for key `type`: `"@ + kt@ + "`"@),
                                    Some(kind) => match params_check(kind, file, path + "."@ + "parameters"@, ph@) {
                                        Err(m) => Err(m),
                                        Ok(_) => match leftover_key(h4) {
                                            Some(k) => Err(source_text(file, path) + ": encountered unexpected key `"@ + k + "`"@),
                                            None => Ok(kind),
                                        },
                                    },
                                },
                                Some(_) => Err(source_text(file, path + "."@ + "parameters"@) + ": node must be a hash"@),
                            }
                        },
                    }
                },
            }
        },
        Some(_) => Err(source_text(file, path + "."@ + "type"@) + ": node must be a string"@),
    }
}

/// Whether `u` is the resource read from the hash `h` at `path`: the
/// dependencies and triggers that its lists state, and the parameters of
/// its kind.
pub open spec fn resource_read(file: Seq<char>, path: Seq<char>, h: Seq<(Node, Node)>, u: UnresolvedResource) -> bool {
    resource_check(file, path, h) matches Ok(kind) && ({
        let (h1, t) = section(h, "type"@);
        let (h2, rq) = section(h1, "requires"@);
        let (h3, tg) = section(h2, "triggers"@);
        let (h4, pm) = section(h3, "parameters"@);
        &&& dependencies_are(u.requires@, dependencies_result(file, path + "."@ + "requires"@, rq)->Ok_0)
        &&& triggers_are(u.triggers@, triggers_result(file, path + "."@ + "triggers"@, tg)->Ok_0)
        &&& pm matches Some(Node::Hash(ph)) && params_match(u.parameters, kind, file, path + "."@ + "parameters"@, ph@)
    })
}

/// A resource as the configuration states it: its parameters before
/// variables are substituted, and the dependencies and triggers stated.
pub struct UnresolvedResource {
    pub parameters: UnresolvedParameters,
    pub requires: Vec<Dependency>,
    pub triggers: Vec<Trigger>,
}

/// Whether the dependencies are those read.
pub open spec fn dependencies_are(ds: Seq<Dependency>, vs: Seq<(ResourceType, Seq<char>)>) -> bool {
    ds.len() == vs.len() && forall|i: int| 0 <= i < ds.len() ==> #[trigger] dependency_is(ds[i], vs[i].0, vs[i].1)
}

/// Whether the triggers are those read.
pub open spec fn triggers_are(ts: Seq<Trigger>, vs: Seq<(Seq<char>, Seq<Action>)>) -> bool {
    ts.len() == vs.len() && forall|i: int| 0 <= i < ts.len() ==> (#[trigger] ts[i] matches Trigger::Execute { name, actions }
        && name@ == vs[i].0 && actions@ == vs[i].1)
}

/// Reads the dependencies of a list.
fn read_dependencies(source: &Source, items: Vec<Node>) -> (r: Result<Vec<Dependency>, String>)
    ensures
        match dependencies_fold(source.file@, source.path@, items@, items@.len()) {
            Ok(vs) => r is Ok && dependencies_are(r->Ok_0@, vs),
            Err(m) => r is Err && r->Err_0@ == m,
        },
{
    let ghost all = items@;
    let mut out: Vec<Dependency> = Vec::new();
    let mut rest = items;
    let mut i: usize = 0;
    let n = rest.len();
    while i < n
        invariant
            i <= n,
            n == all.len(),
            all == items@,
            rest@ == all.skip(i as int),
            dependencies_fold(source.file@, source.path@, all, i as nat) matches Ok(vs) && dependencies_are(out@, vs),
        decreases n - i,
    {
        let item = rest.remove(0);
        assert(item == all[i as int]);
        assert(rest@ =~= all.skip(i + 1));
        let isource = source.add_index(i);
        assert(isource.path@ == item_path(source.path@, i as int));
        match Dependency::try_from(&isource, item) {
            Ok(d) => {
                let ghost before = out@;
                out.push(d);
                proof {
                    let vs = dependencies_fold(source.file@, source.path@, all, i as nat)->Ok_0;
                    assert(dependencies_are(out@, vs.push(dependency_outcome(source.file@, item_path(source.path@, i as int), all[i as int])->Ok_0))) by {
                        assert forall|j: int| 0 <= j < out@.len() implies #[trigger] dependency_is(out@[j],
                            vs.push(dependency_outcome(source.file@, item_path(source.path@, i as int), all[i as int])->Ok_0)[j].0,
                            vs.push(dependency_outcome(source.file@, item_path(source.path@, i as int), all[i as int])->Ok_0)[j].1) by {
                            if j < before.len() {
                                assert(out@[j] == before[j]);
                            }
                        }
                    }
                }
            },
            Err(m) => {
                proof {
                    lemma_dependencies_err_stays(source.file@, source.path@, all, (i + 1) as nat, all.len());
                }
                return Err(m);
            },
        }
        i = i + 1;
    }
    Ok(out)
}

proof fn lemma_dependencies_err_stays(file: Seq<char>, path: Seq<char>, items: Seq<Node>, k: nat, n: nat)
    requires
        k <= n,
        dependencies_fold(file, path, items, k) is Err,
    ensures
        dependencies_fold(file, path, items, n) == dependencies_fold(file, path, items, k),
    decreases n - k,
{
    if k < n {
        lemma_dependencies_err_stays(file, path, items, k, (n - 1) as nat);
    }
}

proof fn lemma_triggers_err_stays(file: Seq<char>, path: Seq<char>, items: Seq<Node>, k: nat, n: nat)
    requires
        k <= n,
        triggers_fold(file, path, items, k) is Err,
    ensures
        triggers_fold(file, path, items, n) == triggers_fold(file, path, items, k),
    decreases n - k,
{
    if k < n {
        lemma_triggers_err_stays(file, path, items, k, (n - 1) as nat);
    }
}

/// Reads the triggers of a list.
fn read_triggers(source: &Source, items: Vec<Node>) -> (r: Result<Vec<Trigger>, String>)
    ensures
        match triggers_fold(source.file@, source.path@, items@, items@.len()) {
            Ok(vs) => r is Ok && triggers_are(r->Ok_0@, vs),
            Err(m) => r is Err && r->Err_0@ == m,
        },
{
    let ghost all = items@;
    let mut out: Vec<Trigger> = Vec::new();
    let mut rest = items;
    let mut i: usize = 0;
    let n = rest.len();
    while i < n
        invariant
            i <= n,
            n == all.len(),
            all == items@,
            rest@ == all.skip(i as int),
            triggers_fold(source.file@, source.path@, all, i as nat) matches Ok(vs) && triggers_are(out@, vs),
        decreases n - i,
    {
        let item = rest.remove(0);
        assert(item == all[i as int]);
        assert(rest@ =~= all.skip(i + 1));
        let isource = source.add_index(i);
        assert(isource.path@ == item_path(source.path@, i as int));
        match Trigger::try_from(&isource, item) {
            Ok(t) => {
                let ghost before = out@;
                out.push(t);
                proof {
                    let vs = triggers_fold(source.file@, source.path@, all, i as nat)->Ok_0;
                    let w = vs.push(trigger_outcome(source.file@, item_path(source.path@, i as int), all[i as int])->Ok_0);
                    assert forall|j: int| 0 <= j < out@.len() implies (#[trigger] out@[j] matches Trigger::Execute { name, actions }
                        && name@ == w[j].0 && actions@ == w[j].1) by {
                        if j < before.len() {
                            assert(out@[j] == before[j]);
                        }
                    }
                }
            },
            Err(m) => {
                proof {
                    lemma_triggers_err_stays(source.file@, source.path@, all, (i + 1) as nat, all.len());
                }
                return Err(m);
            },
        }
        i = i + 1;
    }
    Ok(out)
}

/// The kind named by a `type`, with the way to call it in code.
fn resource_kind(t: &str) -> (r: Option<ResourceType>)
    ensures
        r == resource_kind_named(t@),
        r matches Some(k) ==> served_kind(k),
{
    match dependency_kind(t) {
        Some((k, _)) => Some(k),
        None => None,
    }
}

impl UnresolvedResource {
    pub fn kind(&self) -> (r: ResourceType)
        ensures
            r == self.parameters.kind,
    {
        self.parameters.kind
    }

    pub fn dependencies(&self) -> (r: &[Dependency])
        ensures
            r@ == self.requires@,
    {
        self.requires.as_slice()
    }

    pub fn triggers(&self) -> (r: &[Trigger])
        ensures
            r@ == self.triggers@,
    {
        self.triggers.as_slice()
    }

    /// The parameters, where the resource is an APT preference.
    pub fn as_apt_preference(&self) -> (r: Option<&UnresolvedParameters>)
        ensures
            r == (if self.parameters.kind == ResourceType::AptPreference { Some(&self.parameters) } else { None }),
    {
        match self.parameters.kind {
            ResourceType::AptPreference => Some(&self.parameters),
            _ => None,
        }
    }

    /// The parameters, where the resource is a cron job.
    pub fn as_cron_job(&self) -> (r: Option<&UnresolvedParameters>)
        ensures
            r == (if self.parameters.kind == ResourceType::CronJob { Some(&self.parameters) } else { None }),
    {
        match self.parameters.kind {
            ResourceType::CronJob => Some(&self.parameters),
            _ => None,
        }
    }

    /// The parameters, where the resource is a `resolv.conf` file.
    pub fn as_resolv_conf(&self) -> (r: Option<&UnresolvedParameters>)
        ensures
            r == (if self.parameters.kind == ResourceType::ResolvConf { Some(&self.parameters) } else { None }),
    {
        match self.parameters.kind {
            ResourceType::ResolvConf => Some(&self.parameters),
            _ => None,
        }
    }

    /// Reads a resource from a hash of the configuration: its `type`, the
    /// optional `requires` and `triggers` lists and its `parameters`.
    pub fn try_from(source: &Source, hash: Vec<(Node, Node)>) -> (r: Result<UnresolvedResource, String>)
        ensures
            match resource_check(source.file@, source.path@, hash@) {
                Err(m) => r is Err && r->Err_0@ == m,
                Ok(kind) => r is Ok && resource_read(source.file@, source.path@, hash@, r->Ok_0),
            },
            r matches Ok(u) ==> params_wf(u.parameters),
    {
        let mut hash = hash;
        let kind_text = match remove_key(&mut hash, "type") {
            Some(n) => match n.into_string() {
                Some(t) => t,
                None => {
                    let s = source.add_key("type");
                    return Err(sourced(&s, ": node must be a string"));
                },
            },
            None => {
                return Err(sourced_message(source, ": failed to find required key `", "type", "`"));
            },
        };
        let deps = match remove_key(&mut hash, "requires") {
            Some(n) => {
                let rsource = source.add_key("requires");
                match n.into_vec() {
                    Some(items) => match read_dependencies(&rsource, items) {
                        Ok(v) => v,
                        Err(m) => {
                            return Err(m);
                        },
                    },
                    None => {
                        return Err(sourced(&rsource, ": node must be an array"));
                    },
                }
            },
            None => {
                let v: Vec<Dependency> = Vec::new();
                v
            },
        };
        let triggers = match remove_key(&mut hash, "triggers") {
            Some(n) => {
                let tsource = source.add_key("triggers");
                match n.into_vec() {
                    Some(items) => match read_triggers(&tsource, items) {
                        Ok(v) => v,
                        Err(m) => {
                            return Err(m);
                        },
                    },
                    None => {
                        return Err(sourced(&tsource, ": node must be an array"));
                    },
                }
            },
            None => {
                let v: Vec<Trigger> = Vec::new();
                v
            },
        };
        let psource = source.add_key("parameters");
        let phash = match remove_key(&mut hash, "parameters") {
            Some(n) => match n.into_hash() {
                Some(h) => h,
                None => {
                    return Err(sourced(&psource, ": node must be a hash"));
                },
            },
            None => {
                return Err(sourced_message(source, ": failed to find required key `", "parameters", "`"));
            },
        };
        let kind = match resource_kind(kind_text.as_str()) {
            Some(k) => k,
            None => {
                return Err(sourced_message(source, ": encountered invalid value for key `type`: `", kind_text.as_str(), "`"));
            },
        };
        let parameters = match UnresolvedParameters::try_from(kind, &psource, phash) {
            Ok(p) => p,
            Err(m) => {
                return Err(m);
            },
        };
        match last_string_key(&hash) {
            Some(k) => Err(sourced_message(source, ": encountered unexpected key `", k.as_str(), "`")),
            None => Ok(UnresolvedResource { parameters, requires: deps, triggers }),
        }
    }
}

} // verus!
