use crate::common::name::{hostname_check, Hostname};
use crate::common::net::{decimal, ip_from_text, parse_ip_address, IpAddress};
use crate::common::path::{is_absolute, is_safe_path, SafePathBuf};
use crate::common::resources::apt::package::{
    name_message, version_message, Ensure as PackageEnsure, Name as PackageName, Version as PackageVersion,
};
use crate::common::resources::apt::{package_name_check, version_check};
use crate::common::resources::file::{lemma_mode, mode_ok, Mode};
use crate::common::resources::group::Name as Groupname;
use crate::common::resources::user::{
    account_name_check, account_name_message, date_parse, password_check, ExpiryDate, Name as Username, Password,
};
use crate::common::{ensure_name, Ensure};
use crate::parse::{parse_bool, parse_bool_spec};
use crate::server::resolve::{nested_of, nested_of_node, var_message, variable_of, variable_of_node};
use crate::server::source::{source_text, Source};
use crate::server::unresolved::{sourced, UnresolvedNode};
use crate::server::yaml::Node;
use vstd::prelude::*;

verus! {

/// The views of a text result.
pub open spec fn text_result(r: Result<String, String>) -> Result<Seq<char>, Seq<char>> {
    match r {
        Ok(s) => Ok(s@),
        Err(m) => Err(m@),
    }
}

/// The text that a node read at `file` and `path` stands for once the
/// variables referenced in it are substituted, or the message why it stands
/// for none.
pub open spec fn text_at(vars: Seq<(String, Node)>, file: Seq<char>, path: Seq<char>, node: Node) -> Result<Seq<char>, Seq<char>> {
    match nested_of(vars, node, 0) {
        Err(e) => Err(var_message(file, path, e)),
        Ok(Some(t)) => Ok(t),
        Ok(None) => Err(source_text(file, path) + ": node must be a string"@),
    }
}

/// The text of a node that `check` accepts: `check` gives `None` for a text
/// it accepts and the message for one it refuses, which follows the node's
/// source in the error.
pub open spec fn checked_at(
    vars: Seq<(String, Node)>,
    file: Seq<char>,
    path: Seq<char>,
    node: Node,
    check: spec_fn(Seq<char>) -> Option<Seq<char>>,
) -> Result<Seq<char>, Seq<char>> {
    match text_at(vars, file, path, node) {
        Err(m) => Err(m),
        Ok(t) => match check(t) {
            None => Ok(t),
            Some(m) => Err(source_text(file, path) + ": "@ + m),
        },
    }
}

/// `checked_at` for an unresolved node.
pub open spec fn checked_of(vars: Seq<(String, Node)>, n: UnresolvedNode, check: spec_fn(Seq<char>) -> Option<Seq<char>>) -> Result<Seq<char>, Seq<char>> {
    checked_at(vars, n.source.file@, n.source.path@, n.inner, check)
}

/// Whether `r` is what reading a node gives when `c` is its checked text:
/// the value, related to the text by `rel`, or the same message.
pub open spec fn resolved_as<T>(r: Result<T, String>, c: Result<Seq<char>, Seq<char>>, rel: spec_fn(T, Seq<char>) -> bool) -> bool {
    match r {
        Ok(v) => c is Ok && rel(v, c->Ok_0),
        Err(m) => c == Err::<Seq<char>, Seq<char>>(m@),
    }
}

/// Any text.
pub open spec fn any_text() -> spec_fn(Seq<char>) -> Option<Seq<char>> {
    |t: Seq<char>| None::<Seq<char>>
}

/// `present` or `absent`.
pub open spec fn ensure_check() -> spec_fn(Seq<char>) -> Option<Seq<char>> {
    |t: Seq<char>| if t == "present"@ || t == "absent"@ { None } else { Some("invalid `ensure` value: "@ + t) }
}

/// `present`, `absent` or `purged`.
pub open spec fn package_ensure_check() -> spec_fn(Seq<char>) -> Option<Seq<char>> {
    |t: Seq<char>| if t == "present"@ || t == "absent"@ || t == "purged"@ {
        None
    } else {
        Some("invalid `ensure` value: "@ + t)
    }
}

/// An absolute path without relative references.
pub open spec fn path_check() -> spec_fn(Seq<char>) -> Option<Seq<char>> {
    |t: Seq<char>| if is_safe_path(t) {
        None
    } else if !is_absolute(t) {
        Some("path must be absolute, got `"@ + t + "`"@)
    } else {
        Some("path components must not contain relative references such as '.' or '..'"@)
    }
}

/// The name of a user.
pub open spec fn username_check() -> spec_fn(Seq<char>) -> Option<Seq<char>> {
    |t: Seq<char>| match account_name_check(t) {
        Ok(_) => None,
        Err(e) => Some(account_name_message("username"@, e)),
    }
}

/// The name of a group.
pub open spec fn groupname_check() -> spec_fn(Seq<char>) -> Option<Seq<char>> {
    |t: Seq<char>| match account_name_check(t) {
        Ok(_) => None,
        Err(e) => Some(account_name_message("groupname"@, e)),
    }
}

/// The message for a text that is no boolean.
pub open spec fn bool_message() -> Seq<char> {
    "provided string was not `true` or `false`"@
}

/// `true` or `false`.
pub open spec fn bool_check() -> spec_fn(Seq<char>) -> Option<Seq<char>> {
    |t: Seq<char>| if parse_bool_spec(t) is Some { None } else { Some(bool_message()) }
}

/// Three or four octal digits.
pub open spec fn mode_check() -> spec_fn(Seq<char>) -> Option<Seq<char>> {
    |t: Seq<char>| if mode_ok(t) { None } else { Some("value is not a valid file mode"@) }
}

/// The message for a text that is no IP address.
pub open spec fn ip_message() -> Seq<char> {
    "invalid IP address syntax"@
}

/// An IPv4 or IPv6 address.
pub open spec fn ip_check() -> spec_fn(Seq<char>) -> Option<Seq<char>> {
    |t: Seq<char>| if ip_from_text(t) is Some { None } else { Some(ip_message()) }
}

/// A hostname.
pub open spec fn host_check() -> spec_fn(Seq<char>) -> Option<Seq<char>> {
    |t: Seq<char>| match hostname_check(t) {
        Ok(_) => None,
        Err(m) => Some(m),
    }
}

/// The name of a package.
pub open spec fn package_name_ok() -> spec_fn(Seq<char>) -> Option<Seq<char>> {
    |t: Seq<char>| match package_name_check(t) {
        Ok(_) => None,
        Err(e) => Some(name_message(t, e)),
    }
}

/// The version of a package.
pub open spec fn package_version_ok() -> spec_fn(Seq<char>) -> Option<Seq<char>> {
    |t: Seq<char>| match version_check(t) {
        Ok(_) => None,
        Err(e) => Some(version_message(t, e)),
    }
}

/// A password hash, or a locked password.
pub open spec fn password_ok() -> spec_fn(Seq<char>) -> Option<Seq<char>> {
    |t: Seq<char>| if password_check(t) is Some { None } else { Some("password string is not a valid hash"@) }
}

/// A date.
pub open spec fn date_ok() -> spec_fn(Seq<char>) -> Option<Seq<char>> {
    |t: Seq<char>| match date_parse(t) {
        Ok(_) => None,
        Err(m) => Some(m),
    }
}

/// Which texts each typed parameter accepts: `ensure` takes `present` or
/// `absent`, a package's `ensure` also `purged`; a path must be safe; a
/// boolean is `true` or `false`; a mode is three or four octal digits; user
/// and group names, hostnames, package names and versions, and passwords
/// are those that their own checks accept; any text is accepted as text.
pub proof fn lemma_typed_checks(t: Seq<char>)
    ensures
        any_text()(t) is None,
        ensure_check()(t) is None <==> (t == "present"@ || t == "absent"@),
        package_ensure_check()(t) is None <==> (t == "present"@ || t == "absent"@ || t == "purged"@),
        path_check()(t) is None <==> is_safe_path(t),
        username_check()(t) is None <==> account_name_check(t) is Ok,
        groupname_check()(t) is None <==> account_name_check(t) is Ok,
        bool_check()(t) is None <==> (t == "true"@ || t == "false"@),
        mode_check()(t) is None <==> (3 <= t.len() <= 4 && forall|i: int| 0 <= i < t.len() ==> '0' <= #[trigger] t[i] <= '7'),
        host_check()(t) is None <==> hostname_check(t) is Ok,
        package_name_ok()(t) is None <==> package_name_check(t) is Ok,
        package_version_ok()(t) is None <==> version_check(t) is Ok,
        password_ok()(t) is None <==> password_check(t) is Some,
        ip_check()(t) is None <==> ip_from_text(t) is Some,
{
    lemma_mode(t);
}

/// The text that a node stands for, its variables substituted.
pub fn resolve_text(source: &Source, node: &Node, vars: &Vec<(String, Node)>) -> (r: Result<String, String>)
    ensures
        text_result(r) == text_at(vars@, source.file@, source.path@, *node),
        resolved_as(r, checked_at(vars@, source.file@, source.path@, *node, any_text()), |v: String, t: Seq<char>| v@ == t),
{
    match nested_of_node(source, node, 0, vars) {
        Err(m) => Err(m),
        Ok(Some(t)) => Ok(t),
        Ok(None) => Err(sourced(source, ": node must be a string")),
    }
}

/// A message after a node's source.
fn failed(source: &Source, m: String) -> (r: String)
    ensures
        r@ == source_text(source.file@, source.path@) + ": "@ + m@,
{
    let mut s = sourced(source, ": ");
    crate::text::push_str(&mut s, m.as_str());
    s
}

/// Reads the state that a node stands for.
pub fn resolve_ensure(source: &Source, node: &Node, vars: &Vec<(String, Node)>) -> (r: Result<Ensure, String>)
    ensures
        resolved_as(r, checked_at(vars@, source.file@, source.path@, *node, ensure_check()),
            |v: Ensure, t: Seq<char>| ensure_name(v) == t),
{
    match resolve_text(source, node, vars) {
        Err(m) => Err(m),
        Ok(t) => match Ensure::from_str(t.as_str()) {
            Ok(v) => Ok(v),
            Err(m) => Err(failed(source, m)),
        },
    }
}

/// Reads the state of a package that a node stands for.
pub fn resolve_package_ensure(source: &Source, node: &Node, vars: &Vec<(String, Node)>) -> (r: Result<PackageEnsure, String>)
    ensures
        resolved_as(r, checked_at(vars@, source.file@, source.path@, *node, package_ensure_check()),
            |v: PackageEnsure, t: Seq<char>| crate::common::resources::apt::package::ensure_name(v) == t),
{
    match resolve_text(source, node, vars) {
        Err(m) => Err(m),
        Ok(t) => match PackageEnsure::from_str(t.as_str()) {
            Ok(v) => Ok(v),
            Err(m) => Err(failed(source, m)),
        },
    }
}

/// Reads the path that a node stands for.
pub fn resolve_path(source: &Source, node: &Node, vars: &Vec<(String, Node)>) -> (r: Result<SafePathBuf, String>)
    ensures
        resolved_as(r, checked_at(vars@, source.file@, source.path@, *node, path_check()),
            |v: SafePathBuf, t: Seq<char>| v@ == t),
{
    match resolve_text(source, node, vars) {
        Err(m) => Err(m),
        Ok(t) => match SafePathBuf::from_str(t.as_str()) {
            Ok(v) => Ok(v),
            Err(m) => Err(failed(source, m)),
        },
    }
}

/// Reads the name of a user that a node stands for.
pub fn resolve_username(source: &Source, node: &Node, vars: &Vec<(String, Node)>) -> (r: Result<Username, String>)
    ensures
        resolved_as(r, checked_at(vars@, source.file@, source.path@, *node, username_check()),
            |v: Username, t: Seq<char>| v@ == t),
{
    match resolve_text(source, node, vars) {
        Err(m) => Err(m),
        Ok(t) => match Username::from_str(t.as_str()) {
            Ok(v) => Ok(v),
            Err(m) => Err(failed(source, m)),
        },
    }
}

/// Reads the name of a group that a node stands for.
pub fn resolve_groupname(source: &Source, node: &Node, vars: &Vec<(String, Node)>) -> (r: Result<Groupname, String>)
    ensures
        resolved_as(r, checked_at(vars@, source.file@, source.path@, *node, groupname_check()),
            |v: Groupname, t: Seq<char>| v@ == t),
{
    match resolve_text(source, node, vars) {
        Err(m) => Err(m),
        Ok(t) => match Groupname::from_str(t.as_str()) {
            Ok(v) => Ok(v),
            Err(m) => Err(failed(source, m)),
        },
    }
}

/// Reads the boolean that a node stands for.
pub fn resolve_bool(source: &Source, node: &Node, vars: &Vec<(String, Node)>) -> (r: Result<bool, String>)
    ensures
        resolved_as(r, checked_at(vars@, source.file@, source.path@, *node, bool_check()),
            |v: bool, t: Seq<char>| parse_bool_spec(t) == Some(v)),
{
    match resolve_text(source, node, vars) {
        Err(m) => Err(m),
        Ok(t) => match parse_bool(t.as_str()) {
            Some(v) => Ok(v),
            None => Err(failed(source, "provided string was not `true` or `false`".to_owned())),
        },
    }
}

/// Reads the file mode that a node stands for.
pub fn resolve_mode(source: &Source, node: &Node, vars: &Vec<(String, Node)>) -> (r: Result<Mode, String>)
    ensures
        resolved_as(r, checked_at(vars@, source.file@, source.path@, *node, mode_check()),
            |v: Mode, t: Seq<char>| v@ == t),
{
    match resolve_text(source, node, vars) {
        Err(m) => Err(m),
        Ok(t) => match Mode::from_str(t.as_str()) {
            Ok(v) => Ok(v),
            Err(m) => Err(failed(source, m)),
        },
    }
}

/// Reads the IP address that a node stands for.
pub fn resolve_ip(source: &Source, node: &Node, vars: &Vec<(String, Node)>) -> (r: Result<IpAddress, String>)
    ensures
        resolved_as(r, checked_at(vars@, source.file@, source.path@, *node, ip_check()),
            |v: IpAddress, t: Seq<char>| ip_from_text(t) == Some(v)),
{
    match resolve_text(source, node, vars) {
        Err(m) => Err(m),
        Ok(t) => match parse_ip_address(t.as_str()) {
            Some(v) => Ok(v),
            None => Err(failed(source, "invalid IP address syntax".to_owned())),
        },
    }
}

/// Reads the hostname that a node stands for.
pub fn resolve_hostname(source: &Source, node: &Node, vars: &Vec<(String, Node)>) -> (r: Result<Hostname, String>)
    ensures
        resolved_as(r, checked_at(vars@, source.file@, source.path@, *node, host_check()),
            |v: Hostname, t: Seq<char>| v@ == t),
{
    match resolve_text(source, node, vars) {
        Err(m) => Err(m),
        Ok(t) => match Hostname::from_str(t.as_str()) {
            Ok(v) => Ok(v),
            Err(m) => Err(failed(source, m)),
        },
    }
}

/// Reads the name of a package that a node stands for.
pub fn resolve_package_name(source: &Source, node: &Node, vars: &Vec<(String, Node)>) -> (r: Result<PackageName, String>)
    ensures
        resolved_as(r, checked_at(vars@, source.file@, source.path@, *node, package_name_ok()),
            |v: PackageName, t: Seq<char>| v@ == t),
{
    match resolve_text(source, node, vars) {
        Err(m) => Err(m),
        Ok(t) => match PackageName::from_str(t.as_str()) {
            Ok(v) => Ok(v),
            Err(m) => Err(failed(source, m)),
        },
    }
}

/// Reads the version of a package that a node stands for.
pub fn resolve_package_version(source: &Source, node: &Node, vars: &Vec<(String, Node)>) -> (r: Result<PackageVersion, String>)
    ensures
        resolved_as(r, checked_at(vars@, source.file@, source.path@, *node, package_version_ok()),
            |v: PackageVersion, t: Seq<char>| v@ == t),
{
    match resolve_text(source, node, vars) {
        Err(m) => Err(m),
        Ok(t) => match PackageVersion::from_str(t.as_str()) {
            Ok(v) => Ok(v),
            Err(m) => Err(failed(source, m)),
        },
    }
}

/// Reads the password that a node stands for.
pub fn resolve_password(source: &Source, node: &Node, vars: &Vec<(String, Node)>) -> (r: Result<Password, String>)
    ensures
        resolved_as(r, checked_at(vars@, source.file@, source.path@, *node, password_ok()),
            |v: Password, t: Seq<char>| (v is Locked <==> password_check(t) == Some(false))
                && (v is Unlocked ==> v.is_unlocked_with(t))),
{
    match resolve_text(source, node, vars) {
        Err(m) => Err(m),
        Ok(t) => match Password::from_str(t.as_str()) {
            Ok(v) => Ok(v),
            Err(m) => Err(failed(source, m)),
        },
    }
}

/// Reads the expiry date that a node stands for.
pub fn resolve_expiry_date(source: &Source, node: &Node, vars: &Vec<(String, Node)>) -> (r: Result<ExpiryDate, String>)
    ensures
        resolved_as(r, checked_at(vars@, source.file@, source.path@, *node, date_ok()),
            |v: ExpiryDate, t: Seq<char>| date_parse(t) == Ok::<(i32, u8, u8), Seq<char>>((v.year, v.month, v.day))),
{
    match resolve_text(source, node, vars) {
        Err(m) => Err(m),
        Ok(t) => match ExpiryDate::from_str(t.as_str()) {
            Ok(v) => Ok(v),
            Err(m) => Err(failed(source, m)),
        },
    }
}

/// The items of an array read at `path`, each with its own path.
pub open spec fn indexed(path: Seq<char>, a: Seq<Node>) -> Seq<(Seq<char>, Node)> {
    Seq::new(a.len(), |i: int| (path + "["@ + decimal(i as nat) + "]"@, a[i]))
}

/// The items of a node that is an array.
pub open spec fn items_at(file: Seq<char>, path: Seq<char>, node: Node) -> Result<Seq<(Seq<char>, Node)>, Seq<char>> {
    match node {
        Node::Array(a) => Ok(indexed(path, a@)),
        _ => Err(source_text(file, path) + ": node must be an array"@),
    }
}

/// The items of the array that a node stands for, itself or as a reference
/// to a variable.
pub open spec fn list_at(vars: Seq<(String, Node)>, file: Seq<char>, path: Seq<char>, node: Node) -> Result<Seq<(Seq<char>, Node)>, Seq<char>> {
    match variable_of(vars, node, 0) {
        Err(e) => Err(var_message(file, path, e)),
        Ok(Some(v)) => items_at(file, path, v),
        Ok(None) => items_at(file, path, node),
    }
}

/// Reading each item in turn with `read`: all the values, or the first failure.
pub open spec fn all_of<T>(items: Seq<(Seq<char>, Node)>, read: spec_fn(Seq<char>, Node) -> Result<T, Seq<char>>) -> Result<Seq<T>, Seq<char>>
    decreases items.len(),
{
    if items.len() == 0 {
        Ok(seq![])
    } else {
        match read(items[0].0, items[0].1) {
            Err(m) => Err(m),
            Ok(v) => match all_of(items.drop_first(), read) {
                Err(m) => Err(m),
                Ok(vs) => Ok(seq![v] + vs),
            },
        }
    }
}

/// Values read before the rest.
pub open spec fn after_values<T>(done: Seq<T>, rest: Result<Seq<T>, Seq<char>>) -> Result<Seq<T>, Seq<char>> {
    match rest {
        Err(m) => Err(m),
        Ok(vs) => Ok(done + vs),
    }
}

pub(crate) proof fn lemma_all_of_step<T>(items: Seq<(Seq<char>, Node)>, read: spec_fn(Seq<char>, Node) -> Result<T, Seq<char>>, i: int, done: Seq<T>)
    requires
        0 <= i < items.len(),
    ensures
        read(items[i].0, items[i].1) matches Err(m) ==> after_values(done, all_of(items.skip(i), read)) == Err::<Seq<T>, Seq<char>>(m),
        read(items[i].0, items[i].1) matches Ok(v) ==> after_values(done, all_of(items.skip(i), read))
            == after_values(done.push(v), all_of(items.skip(i + 1), read)),
{
    assert(items.skip(i).drop_first() =~= items.skip(i + 1));
    assert(items.skip(i)[0] == items[i]);
    if let Ok(v) = read(items[i].0, items[i].1) {
        if let Ok(vs) = all_of(items.skip(i + 1), read) {
            assert(done + (seq![v] + vs) =~= done.push(v) + vs);
        }
    }
}

pub(crate) proof fn lemma_all_of_end<T>(items: Seq<(Seq<char>, Node)>, read: spec_fn(Seq<char>, Node) -> Result<T, Seq<char>>, done: Seq<T>)
    ensures
        after_values(done, all_of(items.skip(items.len() as int), read)) == Ok::<Seq<T>, Seq<char>>(done),
{
    assert(items.skip(items.len() as int).len() == 0);
    assert(done + seq![] =~= done);
}

pub(crate) proof fn lemma_all_of_start<T>(items: Seq<(Seq<char>, Node)>, read: spec_fn(Seq<char>, Node) -> Result<T, Seq<char>>)
    ensures
        all_of(items, read) == after_values(seq![], all_of(items.skip(0), read)),
{
    assert(items.skip(0) =~= items);
    if let Ok(vs) = all_of(items, read) {
        assert(seq![] + vs =~= vs);
    }
}

/// Reading each item of the array that a node stands for as text that `check` accepts.
pub open spec fn list_checked(
    vars: Seq<(String, Node)>,
    file: Seq<char>,
    path: Seq<char>,
    node: Node,
    check: spec_fn(Seq<char>) -> Option<Seq<char>>,
) -> Result<Seq<Seq<char>>, Seq<char>> {
    match list_at(vars, file, path, node) {
        Err(m) => Err(m),
        Ok(items) => all_of(items, |p: Seq<char>, n: Node| checked_at(vars, file, p, n, check)),
    }
}

/// Whether `r` is what reading a list gives when `c` is what its items read as.
pub open spec fn listed_as<T>(r: Result<Vec<T>, String>, c: Result<Seq<Seq<char>>, Seq<char>>, rel: spec_fn(T, Seq<char>) -> bool) -> bool {
    match r {
        Ok(v) => c is Ok && c->Ok_0.len() == v@.len() && forall|i: int| 0 <= i < v@.len() ==> rel(#[trigger] v@[i], c->Ok_0[i]),
        Err(m) => c == Err::<Seq<Seq<char>>, Seq<char>>(m@),
    }
}

/// The array that a node stands for.
pub(crate) fn array_of<'a>(source: &Source, node: &'a Node, vars: &'a Vec<(String, Node)>) -> (r: Result<&'a Vec<Node>, String>)
    ensures
        match list_at(vars@, source.file@, source.path@, *node) {
            Ok(items) => r is Ok && items == indexed(source.path@, r->Ok_0@),
            Err(m) => r is Err && r->Err_0@ == m,
        },
{
    let target: &Node = match variable_of_node(source, node, 0, vars) {
        Err(m) => {
            return Err(m);
        },
        Ok(Some(v)) => v,
        Ok(None) => node,
    };
    match target {
        Node::Array(a) => Ok(a),
        _ => Err(sourced(source, ": node must be an array")),
    }
}

/// Reads the texts that the items of an array stand for.
pub fn resolve_texts(source: &Source, node: &Node, vars: &Vec<(String, Node)>) -> (r: Result<Vec<String>, String>)
    ensures
        listed_as(r, list_checked(vars@, source.file@, source.path@, *node, any_text()), |v: String, t: Seq<char>| v@ == t),
{
    let a = match array_of(source, node, vars) {
        Err(m) => {
            return Err(m);
        },
        Ok(a) => a,
    };
    let ghost items = indexed(source.path@, a@);
    let ghost read = |p: Seq<char>, n: Node| checked_at(vars@, source.file@, p, n, any_text());
    let ghost mut done: Seq<Seq<char>> = seq![];
    proof {
        lemma_all_of_start(items, read);
    }
    let mut out: Vec<String> = Vec::new();
    let mut i: usize = 0;
    while i < a.len()
        invariant
            i <= a.len(),
            items == indexed(source.path@, a@),
            list_at(vars@, source.file@, source.path@, *node) == Ok::<Seq<(Seq<char>, Node)>, Seq<char>>(items),
            read == (|p: Seq<char>, n: Node| checked_at(vars@, source.file@, p, n, any_text())),
            done.len() == i,
            out@.len() == i,
            forall|j: int| 0 <= j < i ==> (#[trigger] out@[j])@ == done[j],
            all_of(items, read) == after_values(done, all_of(items.skip(i as int), read)),
        decreases a.len() - i,
    {
        let s = source.add_index(i);
        proof {
            lemma_all_of_step(items, read, i as int, done);
            assert(items[i as int] == (s.path@, a@[i as int]));
        }
        match resolve_text(&s, &a[i], vars) {
            Err(m) => {
                return Err(m);
            },
            Ok(t) => {
                proof {
                    done = done.push(t@);
                }
                out.push(t);
            },
        }
        i = i + 1;
    }
    proof {
        lemma_all_of_end(items, read, done);
    }
    Ok(out)
}

/// Reads the hostnames that the items of an array stand for.
pub fn resolve_hostnames(source: &Source, node: &Node, vars: &Vec<(String, Node)>) -> (r: Result<Vec<Hostname>, String>)
    ensures
        listed_as(r, list_checked(vars@, source.file@, source.path@, *node, host_check()), |v: Hostname, t: Seq<char>| v@ == t),
{
    let a = match array_of(source, node, vars) {
        Err(m) => {
            return Err(m);
        },
        Ok(a) => a,
    };
    let ghost items = indexed(source.path@, a@);
    let ghost read = |p: Seq<char>, n: Node| checked_at(vars@, source.file@, p, n, host_check());
    let ghost mut done: Seq<Seq<char>> = seq![];
    proof {
        lemma_all_of_start(items, read);
    }
    let mut out: Vec<Hostname> = Vec::new();
    let mut i: usize = 0;
    while i < a.len()
        invariant
            i <= a.len(),
            items == indexed(source.path@, a@),
            list_at(vars@, source.file@, source.path@, *node) == Ok::<Seq<(Seq<char>, Node)>, Seq<char>>(items),
            read == (|p: Seq<char>, n: Node| checked_at(vars@, source.file@, p, n, host_check())),
            done.len() == i,
            out@.len() == i,
            forall|j: int| 0 <= j < i ==> (#[trigger] out@[j])@ == done[j],
            all_of(items, read) == after_values(done, all_of(items.skip(i as int), read)),
        decreases a.len() - i,
    {
        let s = source.add_index(i);
        proof {
            lemma_all_of_step(items, read, i as int, done);
            assert(items[i as int] == (s.path@, a@[i as int]));
        }
        match resolve_hostname(&s, &a[i], vars) {
            Err(m) => {
                return Err(m);
            },
            Ok(t) => {
                proof {
                    done = done.push(t@);
                }
                out.push(t);
            },
        }
        i = i + 1;
    }
    proof {
        lemma_all_of_end(items, read, done);
    }
    Ok(out)
}

/// Reads the names of groups that the items of an array stand for.
pub fn resolve_groupnames(source: &Source, node: &Node, vars: &Vec<(String, Node)>) -> (r: Result<Vec<Groupname>, String>)
    ensures
        listed_as(r, list_checked(vars@, source.file@, source.path@, *node, groupname_check()), |v: Groupname, t: Seq<char>| v@ == t),
{
    let a = match array_of(source, node, vars) {
        Err(m) => {
            return Err(m);
        },
        Ok(a) => a,
    };
    let ghost items = indexed(source.path@, a@);
    let ghost read = |p: Seq<char>, n: Node| checked_at(vars@, source.file@, p, n, groupname_check());
    let ghost mut done: Seq<Seq<char>> = seq![];
    proof {
        lemma_all_of_start(items, read);
    }
    let mut out: Vec<Groupname> = Vec::new();
    let mut i: usize = 0;
    while i < a.len()
        invariant
            i <= a.len(),
            items == indexed(source.path@, a@),
            list_at(vars@, source.file@, source.path@, *node) == Ok::<Seq<(Seq<char>, Node)>, Seq<char>>(items),
            read == (|p: Seq<char>, n: Node| checked_at(vars@, source.file@, p, n, groupname_check())),
            done.len() == i,
            out@.len() == i,
            forall|j: int| 0 <= j < i ==> (#[trigger] out@[j])@ == done[j],
            all_of(items, read) == after_values(done, all_of(items.skip(i as int), read)),
        decreases a.len() - i,
    {
        let s = source.add_index(i);
        proof {
            lemma_all_of_step(items, read, i as int, done);
            assert(items[i as int] == (s.path@, a@[i as int]));
        }
        match resolve_groupname(&s, &a[i], vars) {
            Err(m) => {
                return Err(m);
            },
            Ok(t) => {
                proof {
                    done = done.push(t@);
                }
                out.push(t);
            },
        }
        i = i + 1;
    }
    proof {
        lemma_all_of_end(items, read, done);
    }
    Ok(out)
}

} // verus!
