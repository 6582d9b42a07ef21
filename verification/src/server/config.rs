use crate::common::name::{hostname_check, Hostname};
use crate::common::ResourceType;
use crate::server::api_key::{api_key_check, ApiKey};
use crate::parse::utf8_len;
use crate::server::parse::{item_path, resource_check, resource_read, section, UnresolvedResource};
use crate::server::source::{source_text, Source};
use crate::server::unresolved::{leftover_key, missing_key_message, sourced, sourced_message, params_wf};
use crate::server::yaml::{last_string_key, load_documents, remove_key, yaml_documents, Node};
use crate::common::net::decimal;
use crate::text::{concat3, push_str};
use crate::text::str_eq;
use vstd::prelude::*;

verus! {

/// What reading the first `n` resources of a list gives: their kinds, or
/// the message for the first one refused.
pub open spec fn resources_fold(file: Seq<char>, path: Seq<char>, items: Seq<Node>, n: nat) -> Result<Seq<ResourceType>, Seq<char>>
    decreases n,
{
    if n == 0 {
        Ok(seq![])
    } else {
        match resources_fold(file, path, items, (n - 1) as nat) {
            Err(m) => Err(m),
            Ok(ks) => {
                let ipath = item_path(path, n - 1);
                match items[n - 1] {
                    Node::Hash(h) => match resource_check(file, ipath, h@) {
                        Err(m) => Err(m),
                        Ok(k) => Ok(ks.push(k)),
                    },
                    _ => Err(source_text(file, ipath) + ": node must be a hash"@),
                }
            },
        }
    }
}

/// What an optional list of resources gives: none when absent.
pub open spec fn resources_result(file: Seq<char>, path: Seq<char>, node: Option<Node>) -> Result<Seq<ResourceType>, Seq<char>> {
    match node {
        None => Ok(seq![]),
        Some(Node::Array(items)) => resources_fold(file, path, items@, items@.len()),
        Some(_) => Err(source_text(file, path) + ": node must be an array"@),
    }
}

proof fn lemma_resources_err_stays(file: Seq<char>, path: Seq<char>, items: Seq<Node>, k: nat, n: nat)
    requires
        k <= n,
        resources_fold(file, path, items, k) is Err,
    ensures
        resources_fold(file, path, items, n) == resources_fold(file, path, items, k),
    decreases n - k,
{
    if k < n {
        lemma_resources_err_stays(file, path, items, k, (n - 1) as nat);
    }
}

/// Whether `u` is what `UnresolvedResource::try_from` reads from item `i`
/// of the list `items` at `path`.
pub open spec fn item_read(file: Seq<char>, path: Seq<char>, items: Seq<Node>, i: int, u: UnresolvedResource) -> bool {
    items[i] matches Node::Hash(h) && resource_read(file, item_path(path, i), h@, u)
}

/// Whether `us` are the resources read from the optional list `node` at
/// `path`, item by item.
pub open spec fn resources_read(file: Seq<char>, path: Seq<char>, node: Option<Node>, us: Seq<UnresolvedResource>) -> bool {
    match node {
        None => us.len() == 0,
        Some(Node::Array(items)) => us.len() == items@.len()
            && forall|i: int| 0 <= i < us.len() ==> #[trigger] item_read(file, path, items@, i, us[i]),
        Some(_) => false,
    }
}

/// Reads the resources of a list.
fn read_resources(source: &Source, items: Vec<Node>) -> (r: Result<Vec<UnresolvedResource>, String>)
    ensures
        match resources_fold(source.file@, source.path@, items@, items@.len()) {
            Ok(ks) => r is Ok && r->Ok_0@.len() == ks.len()
                && (forall|i: int| 0 <= i < ks.len() ==> (#[trigger] r->Ok_0@[i]).parameters.kind == ks[i])
                && forall|i: int| 0 <= i < ks.len() ==> #[trigger] item_read(source.file@, source.path@, items@, i, r->Ok_0@[i]),
            Err(m) => r is Err && r->Err_0@ == m,
        },
        r matches Ok(v) ==> forall|i: int| 0 <= i < v@.len() ==> params_wf((#[trigger] v@[i]).parameters),
        r matches Ok(v) ==> v@.len() == items@.len(),
{
    let ghost all = items@;
    let mut out: Vec<UnresolvedResource> = Vec::new();
    let mut rest = items;
    let mut i: usize = 0;
    let n = rest.len();
    while i < n
        invariant
            i <= n,
            n == all.len(),
            all == items@,
            rest@ == all.skip(i as int),
            resources_fold(source.file@, source.path@, all, i as nat) matches Ok(ks) && out@.len() == ks.len()
                && forall|j: int| 0 <= j < ks.len() ==> (#[trigger] out@[j]).parameters.kind == ks[j],
            forall|j: int| 0 <= j < out@.len() ==> params_wf((#[trigger] out@[j]).parameters),
            forall|j: int| 0 <= j < out@.len() ==> #[trigger] item_read(source.file@, source.path@, all, j, out@[j]),
            out@.len() == i,
        decreases n - i,
    {
        let item = rest.remove(0);
        assert(item == all[i as int]);
        assert(rest@ =~= all.skip(i + 1));
        let isource = source.add_index(i);
        assert(isource.path@ == item_path(source.path@, i as int));
        let ghost item0 = item;
        let hash = match item.into_hash() {
            Some(h) => h,
            None => {
                proof {
                    lemma_resources_err_stays(source.file@, source.path@, all, (i + 1) as nat, all.len());
                }
                return Err(sourced(&isource, ": node must be a hash"));
            },
        };
        match UnresolvedResource::try_from(&isource, hash) {
            Ok(res) => {
                let ghost before = out@;
                out.push(res);
                proof {
                    let ks = resources_fold(source.file@, source.path@, all, i as nat)->Ok_0;
                    assert forall|j: int| 0 <= j < out@.len() implies (#[trigger] out@[j]).parameters.kind
                        == resources_fold(source.file@, source.path@, all, (i + 1) as nat)->Ok_0[j] by {
                        if j < before.len() {
                            assert(out@[j] == before[j]);
                        }
                    }
                    assert(item0 == Node::Hash(hash));
                    assert(item_read(source.file@, source.path@, all, i as int, res));
                    assert forall|j: int| 0 <= j < out@.len() implies #[trigger] item_read(source.file@, source.path@, all, j, out@[j]) by {
                        if j < before.len() {
                            assert(out@[j] == before[j]);
                            assert(item_read(source.file@, source.path@, all, j, before[j]));
                        } else {
                            assert(out@[j] == res);
                        }
                    }
                }
            },
            Err(m) => {
                proof {
                    lemma_resources_err_stays(source.file@, source.path@, all, (i + 1) as nat, all.len());
                }
                return Err(m);
            },
        }
        i = i + 1;
    }
    Ok(out)
}

/// What reading the name of a client or group gives.
pub open spec fn name_result(file: Seq<char>, path: Seq<char>, node: Option<Node>) -> Result<Seq<char>, Seq<char>> {
    match node {
        None => Err(missing_key_message(file, path, "name"@)),
        Some(Node::String(s)) => match hostname_check(s@) {
            Err(e) => Err(source_text(file, path + "."@ + "name"@) + ": "@ + e),
            Ok(_) => Ok(s@),
        },
        Some(_) => Err(source_text(file, path + "."@ + "name"@) + ": node must be a string"@),
    }
}

/// Reads the name of a client or group.
fn read_name(source: &Source, node: Option<Node>) -> (r: Result<Hostname, String>)
    ensures
        match name_result(source.file@, source.path@, node) {
            Ok(s) => r is Ok && r->Ok_0@ == s,
            Err(m) => r is Err && r->Err_0@ == m,
        },
{
    match node {
        None => Err(sourced_message(source, ": failed to find required key `", "name", "`")),
        Some(n) => {
            let nsource = source.add_key("name");
            match n.into_string() {
                Some(s) => match Hostname::from_str(s.as_str()) {
                    Ok(h) => Ok(h),
                    Err(e) => {
                        let mut m = sourced(&nsource, ": ");
                        crate::text::push_str(&mut m, e.as_str());
                        Err(m)
                    },
                },
                None => Err(sourced(&nsource, ": node must be a string")),
            }
        },
    }
}

/// A group of resources that clients can be members of.
pub struct Group {
    pub name: Hostname,
    pub resources: Vec<UnresolvedResource>,
}

/// What reading a group from a hash gives: the kinds of its resources, or
/// the message that refuses it.
pub open spec fn group_check(file: Seq<char>, path: Seq<char>, h: Seq<(Node, Node)>) -> Result<Seq<ResourceType>, Seq<char>> {
    let (h1, n) = section(h, "name"@);
    match name_result(file, path, n) {
        Err(m) => Err(m),
        Ok(_) => {
            let (h2, rs) = section(h1, "resources"@);
            match resources_result(file, path + "."@ + "resources"@, rs) {
                Err(m) => Err(m),
                Ok(ks) => match leftover_key(h2) {
                    Some(k) => Err(source_text(file, path) + ": encountered unexpected key `"@ + k + "`"@),
                    None => Ok(ks),
                },
            }
        },
    }
}

/// Whether `g` is the group read from the hash `hash` at `path`: its name
/// and its resources, as the sections of the hash give them.
pub open spec fn group_read(file: Seq<char>, path: Seq<char>, hash: Seq<(Node, Node)>, g: Group) -> bool {
    let ks = group_check(file, path, hash)->Ok_0;
    &&& g@ == name_result(file, path, section(hash, "name"@).1)->Ok_0
    &&& g.resources@.len() == ks.len()
    &&& (forall|i: int| 0 <= i < ks.len() ==> (#[trigger] g.resources@[i]).parameters.kind == ks[i])
    &&& resources_read(file, path + "."@ + "resources"@, section(section(hash, "name"@).0, "resources"@).1, g.resources@)
}

impl Group {
    /// Reads a group from a hash of the configuration: its `name` and its
    /// `resources`.
    pub fn try_from(source: &Source, hash: Vec<(Node, Node)>) -> (r: Result<Group, String>)
        ensures
            match group_check(source.file@, source.path@, hash@) {
                Err(m) => r is Err && r->Err_0@ == m,
                Ok(ks) => r is Ok && group_read(source.file@, source.path@, hash@, r->Ok_0),
            },
            r matches Ok(g) ==> forall|i: int| 0 <= i < g.resources@.len() ==> params_wf((#[trigger] g.resources@[i]).parameters),
    {
        let mut hash = hash;
        let n = remove_key(&mut hash, "name");
        let name = match read_name(source, n) {
            Ok(h) => h,
            Err(m) => {
                return Err(m);
            },
        };
        let resources = match remove_key(&mut hash, "resources") {
            Some(node) => {
                let rsource = source.add_key("resources");
                match node.into_vec() {
                    Some(items) => match read_resources(&rsource, items) {
                        Ok(v) => v,
                        Err(m) => {
                            return Err(m);
                        },
                    },
                    None => {
                        return Err(sourced(&rsource, ": node must be an array"));
                    },
                }
            },
            None => {
                let v: Vec<UnresolvedResource> = Vec::new();
                v
            },
        };
        match last_string_key(&hash) {
            Some(k) => Err(sourced_message(source, ": encountered unexpected key `", k.as_str(), "`")),
            None => Ok(Group { name, resources }),
        }
    }
}

impl View for Group {
    type V = Seq<char>;

    open spec fn view(&self) -> Seq<char> {
        self.name@
    }
}

/// Whether `a` comes before `b` in the order of strings (by characters,
/// which is the order of their UTF-8 bytes).
pub open spec fn text_lt(a: Seq<char>, b: Seq<char>) -> bool
    decreases a.len(),
{
    if a.len() == 0 {
        b.len() > 0
    } else if b.len() == 0 {
        false
    } else if a[0] != b[0] {
        a[0] < b[0]
    } else {
        text_lt(a.drop_first(), b.drop_first())
    }
}

pub(crate) fn text_less(a: &str, b: &str) -> (r: bool)
    ensures
        r == text_lt(a@, b@),
{
    let x = crate::text::chars_of(a);
    let y = crate::text::chars_of(b);
    let mut i: usize = 0;
    assert(a@.skip(0) =~= a@);
    assert(b@.skip(0) =~= b@);
    while i < x.len() && i < y.len() && x[i] == y[i]
        invariant
            i <= x.len(),
            i <= y.len(),
            x@ == a@,
            y@ == b@,
            forall|j: int| 0 <= j < i ==> x@[j] == y@[j],
            text_lt(a@, b@) == text_lt(a@.skip(i as int), b@.skip(i as int)),
        decreases x.len() - i,
    {
        assert(a@.skip(i as int).drop_first() =~= a@.skip(i + 1));
        assert(b@.skip(i as int).drop_first() =~= b@.skip(i + 1));
        i = i + 1;
    }
    if i == x.len() {
        i < y.len()
    } else if i == y.len() {
        false
    } else {
        x[i] < y[i]
    }
}

pub(crate) proof fn lemma_text_lt_irreflexive(a: Seq<char>)
    ensures
        !text_lt(a, a),
    decreases a.len(),
{
    if a.len() > 0 {
        lemma_text_lt_irreflexive(a.drop_first());
    }
}

pub(crate) proof fn lemma_text_lt_trans(a: Seq<char>, b: Seq<char>, c: Seq<char>)
    requires
        text_lt(a, b),
        text_lt(b, c),
    ensures
        text_lt(a, c),
    decreases a.len(),
{
    if a.len() > 0 && b.len() > 0 && c.len() > 0 && a[0] == b[0] && b[0] == c[0] {
        lemma_text_lt_trans(a.drop_first(), b.drop_first(), c.drop_first());
    }
}

pub(crate) proof fn lemma_text_lt_total(a: Seq<char>, b: Seq<char>)
    ensures
        a == b || text_lt(a, b) || text_lt(b, a),
    decreases a.len(),
{
    if a.len() > 0 && b.len() > 0 && a[0] == b[0] {
        lemma_text_lt_total(a.drop_first(), b.drop_first());
        if a.drop_first() == b.drop_first() {
            assert(a =~= seq![a[0]] + a.drop_first());
            assert(b =~= seq![b[0]] + b.drop_first());
        }
    } else if a.len() == 0 && b.len() == 0 {
        assert(a =~= b);
    }
}

/// Whether the names are in strictly increasing order.
pub open spec fn strictly_sorted(v: Seq<Seq<char>>) -> bool {
    forall|i: int, j: int| 0 <= i < j < v.len() ==> text_lt(#[trigger] v[i], #[trigger] v[j])
}

/// The names of hostnames.
pub open spec fn host_names(v: Seq<Hostname>) -> Seq<Seq<char>> {
    v.map_values(|h: Hostname| h@)
}

/// Puts a name into a sorted list unless it is there.
fn insert_sorted(v: &mut Vec<Hostname>, h: Hostname)
    requires
        strictly_sorted(host_names(old(v)@)),
    ensures
        strictly_sorted(host_names(final(v)@)),
        forall|x: Seq<char>| host_names(final(v)@).contains(x) <==> (host_names(old(v)@).contains(x) || x == h@),
{
    let ghost names = host_names(v@);
    let mut i: usize = 0;
    while i < v.len() && text_less(v[i].as_str(), h.as_str())
        invariant
            i <= v.len(),
            v@ == old(v)@,
            names == host_names(v@),
            strictly_sorted(names),
            forall|j: int| 0 <= j < i ==> text_lt(#[trigger] names[j], h@),
        decreases v.len() - i,
    {
        i = i + 1;
    }
    if i < v.len() && str_eq(v[i].as_str(), h.as_str()) {
        assert(names[i as int] == h@);
        return;
    }
    proof {
        if i < v.len() {
            lemma_text_lt_total(names[i as int], h@);
        }
        assert forall|k: int| i <= k < names.len() implies text_lt(h@, #[trigger] names[k]) by {
            if k > i {
                lemma_text_lt_trans(h@, names[i as int], names[k]);
            }
        }
    }
    v.insert(i, h);
    let ghost after = host_names(v@);
    assert(after =~= names.insert(i as int, h@));
    assert forall|a: int, b: int| 0 <= a < b < after.len() implies text_lt(#[trigger] after[a], #[trigger] after[b]) by {
        if b < i {
        } else if a < i && b == i {
        } else if a < i && b > i {
            lemma_text_lt_trans(names[a], h@, names[b - 1]);
            assert(text_lt(names[a], names[b - 1]));
        } else if a == i {
            assert(text_lt(h@, names[b - 1]));
        } else {
        }
    }
    assert forall|x: Seq<char>| after.contains(x) <==> (names.contains(x) || x == h@) by {
        if names.contains(x) {
            let k = choose|k: int| 0 <= k < names.len() && names[k] == x;
            if k < i {
                assert(after[k] == x);
            } else {
                assert(after[k + 1] == x);
            }
        }
        if x == h@ {
            assert(after[i as int] == x);
        }
        if after.contains(x) {
            let k = choose|k: int| 0 <= k < after.len() && after[k] == x;
            if k < i {
                assert(names[k] == x);
            } else if k > i {
                assert(names[k - 1] == x);
            }
        }
    }
}

/// What reading the first `n` group names of a list gives.
pub open spec fn groups_fold(file: Seq<char>, path: Seq<char>, items: Seq<Node>, n: nat) -> Result<Seq<Seq<char>>, Seq<char>>
    decreases n,
{
    if n == 0 {
        Ok(seq![])
    } else {
        match groups_fold(file, path, items, (n - 1) as nat) {
            Err(m) => Err(m),
            Ok(gs) => {
                let ipath = item_path(path, n - 1);
                match items[n - 1] {
                    Node::String(t) => match hostname_check(t@) {
                        Err(e) => Err(source_text(file, ipath) + ": "@ + e),
                        Ok(_) => Ok(gs.push(t@)),
                    },
                    _ => Err(source_text(file, ipath) + ": node must be a string"@),
                }
            },
        }
    }
}

/// What an optional list of group names gives: none when absent.
pub open spec fn groups_result(file: Seq<char>, path: Seq<char>, node: Option<Node>) -> Result<Seq<Seq<char>>, Seq<char>> {
    match node {
        None => Ok(seq![]),
        Some(Node::Array(items)) => groups_fold(file, path, items@, items@.len()),
        Some(_) => Err(source_text(file, path) + ": node must be an array"@),
    }
}

/// What reading the variables of a client gives: a hash whose keys are
/// strings.
pub open spec fn variables_result(file: Seq<char>, path: Seq<char>, node: Option<Node>) -> Result<(), Seq<char>> {
    match node {
        None => Ok(()),
        Some(Node::Hash(h)) => if forall|i: int| 0 <= i < h@.len() ==> (#[trigger] h@[i]).0 is String {
            Ok(())
        } else {
            Err(source_text(file, path) + ": hash keys must be strings"@)
        },
        Some(_) => Err(source_text(file, path) + ": node must be a hash"@),
    }
}

/// The variables that a hash of variables holds, in order.
pub open spec fn variable_entries(node: Option<Node>) -> Seq<(Seq<char>, Node)> {
    match node {
        Some(Node::Hash(h)) => h@.map_values(|e: (Node, Node)| (match e.0 { Node::String(k) => k@, _ => seq![] }, e.1)),
        _ => seq![],
    }
}

/// What reading the key of an API key hash gives.
pub open spec fn api_key_result(file: Seq<char>, path: Seq<char>, node: Option<Node>) -> Result<Seq<char>, Seq<char>> {
    match node {
        None => Err(missing_key_message(file, path, "api_key"@)),
        Some(Node::String(s)) => match api_key_check(utf8_len(s@) as nat, s@) {
            Err(e) => Err(source_text(file, path + "."@ + "api_key"@) + ": "@ + e),
            Ok(_) => Ok(s@),
        },
        Some(_) => Err(source_text(file, path + "."@ + "api_key"@) + ": node must be a string"@),
    }
}

/// What reading a client from a hash gives, or the message that refuses it.
pub open spec fn client_check(file: Seq<char>, path: Seq<char>, h: Seq<(Node, Node)>) -> Result<(), Seq<char>> {
    let (h1, n) = section(h, "name"@);
    let (h2, k) = section(h1, "api_key"@);
    let (h3, rs) = section(h2, "resources"@);
    let (h4, gs) = section(h3, "groups"@);
    let (h5, vs) = section(h4, "variables"@);
    if name_result(file, path, n) is Err {
        Err(name_result(file, path, n)->Err_0)
    } else if api_key_result(file, path, k) is Err {
        Err(api_key_result(file, path, k)->Err_0)
    } else if resources_result(file, path + "."@ + "resources"@, rs) is Err {
        Err(resources_result(file, path + "."@ + "resources"@, rs)->Err_0)
    } else if groups_result(file, path + "."@ + "groups"@, gs) is Err {
        Err(groups_result(file, path + "."@ + "groups"@, gs)->Err_0)
    } else if variables_result(file, path + "."@ + "variables"@, vs) is Err {
        Err(variables_result(file, path + "."@ + "variables"@, vs)->Err_0)
    } else {
        match leftover_key(h5) {
            Some(key) => Err(source_text(file, path) + ": encountered unexpected key `"@ + key + "`"@),
            None => Ok(()),
        }
    }
}

/// A client as the configuration states it, before its resources are
/// resolved and validated.
pub struct UnresolvedClient {
    pub name: Hostname,
    pub api_key: ApiKey,
    pub assigned_groups: Vec<Hostname>,
    pub variables: Vec<(String, Node)>,
    pub resources: Vec<UnresolvedResource>,
}

proof fn lemma_groups_err_stays(file: Seq<char>, path: Seq<char>, items: Seq<Node>, k: nat, n: nat)
    requires
        k <= n,
        groups_fold(file, path, items, k) is Err,
    ensures
        groups_fold(file, path, items, n) == groups_fold(file, path, items, k),
    decreases n - k,
{
    if k < n {
        lemma_groups_err_stays(file, path, items, k, (n - 1) as nat);
    }
}

/// Reads the group names of a list, sorted and without duplicates.
fn read_groups(source: &Source, items: Vec<Node>) -> (r: Result<Vec<Hostname>, String>)
    ensures
        match groups_fold(source.file@, source.path@, items@, items@.len()) {
            Ok(gs) => r is Ok && strictly_sorted(host_names(r->Ok_0@))
                && forall|x: Seq<char>| host_names(r->Ok_0@).contains(x) <==> gs.contains(x),
            Err(m) => r is Err && r->Err_0@ == m,
        },
{
    let ghost all = items@;
    let mut out: Vec<Hostname> = Vec::new();
    let mut i: usize = 0;
    let n = items.len();
    assert(host_names(out@) =~= Seq::<Seq<char>>::empty());
    while i < n
        invariant
            i <= n,
            n == all.len(),
            all == items@,
            strictly_sorted(host_names(out@)),
            groups_fold(source.file@, source.path@, all, i as nat) matches Ok(gs)
                && forall|x: Seq<char>| host_names(out@).contains(x) <==> gs.contains(x),
        decreases n - i,
    {
        let isource = source.add_index(i);
        assert(isource.path@ == item_path(source.path@, i as int));
        let ghost gs = groups_fold(source.file@, source.path@, all, i as nat)->Ok_0;
        match items[i].as_str() {
            Some(t) => match Hostname::from_str(t) {
                Ok(h) => {
                    insert_sorted(&mut out, h);
                    proof {
                        assert forall|x: Seq<char>| host_names(out@).contains(x) <==> gs.push(t@).contains(x) by {
                            if gs.push(t@).contains(x) && x != t@ {
                                let k = choose|k: int| 0 <= k < gs.push(t@).len() && gs.push(t@)[k] == x;
                                assert(gs[k] == x);
                            }
                            if gs.contains(x) {
                                let k = choose|k: int| 0 <= k < gs.len() && gs[k] == x;
                                assert(gs.push(t@)[k] == x);
                            }
                            if x == t@ {
                                assert(gs.push(t@)[gs.len() as int] == x);
                            }
                        }
                    }
                },
                Err(e) => {
                    proof {
                        lemma_groups_err_stays(source.file@, source.path@, all, (i + 1) as nat, all.len());
                    }
                    let mut m = sourced(&isource, ": ");
                    crate::text::push_str(&mut m, e.as_str());
                    return Err(m);
                },
            },
            None => {
                proof {
                    lemma_groups_err_stays(source.file@, source.path@, all, (i + 1) as nat, all.len());
                }
                return Err(sourced(&isource, ": node must be a string"));
            },
        }
        i = i + 1;
    }
    Ok(out)
}

/// The names and values of variables.
pub open spec fn entry_views(s: Seq<(String, Node)>) -> Seq<(Seq<char>, Node)> {
    s.map_values(|e: (String, Node)| (e.0@, e.1))
}

/// Reads the variables of a hash whose keys must be strings.
fn read_variables(source: &Source, node: Node) -> (r: Result<Vec<(String, Node)>, String>)
    ensures
        match variables_result(source.file@, source.path@, Some(node)) {
            Ok(_) => r is Ok && entry_views(r->Ok_0@) == variable_entries(Some(node)),
            Err(m) => r is Err && r->Err_0@ == m,
        },
{
    let ghost n0 = node;
    let h = match node.into_hash() {
        Some(h) => h,
        None => {
            return Err(sourced(source, ": node must be a hash"));
        },
    };
    let ghost all = h@;
    let mut out: Vec<(String, Node)> = Vec::new();
    let mut rest = h;
    let mut i: usize = 0;
    let n = rest.len();
    while i < n
        invariant
            i <= n,
            n == all.len(),
            n0 == Node::Hash(h),
            n0 == node,
            all == h@,
            rest@ == all.skip(i as int),
            forall|j: int| 0 <= j < i ==> (#[trigger] all[j]).0 is String,
            out@.len() == i,
            entry_views(out@) == variable_entries(Some(n0)).take(i as int),
        decreases n - i,
    {
        let (k, v) = rest.remove(0);
        assert((k, v) == all[i as int]);
        assert(rest@ =~= all.skip(i + 1));
        match k.into_string() {
            Some(key) => {
                let ghost before = out@;
                out.push((key, v));
                assert(entry_views(out@) =~= variable_entries(Some(n0)).take(i + 1)) by {
                    assert forall|j: int| 0 <= j < i + 1 implies #[trigger] entry_views(out@)[j]
                        == variable_entries(Some(n0)).take(i + 1)[j] by {
                        if j < i {
                            assert(out@[j] == before[j]);
                            assert(entry_views(before)[j] == variable_entries(Some(n0)).take(i as int)[j]);
                        } else {
                            assert(variable_entries(Some(n0))[j] == (key@, v));
                        }
                    }
                }
            },
            None => {
                assert(!((all[i as int]).0 is String));
                return Err(sourced(source, ": hash keys must be strings"));
            },
        }
        i = i + 1;
    }
    assert(variable_entries(Some(n0)).take(n as int) =~= variable_entries(Some(n0)));
    Ok(out)
}

/// Whether `c` is the client read from the hash `hash` at `path`: its
/// name, API key, resources, groups (sorted, each once) and variables, as
/// the sections of the hash give them, with well-formed parameters.
pub open spec fn client_read(file: Seq<char>, path: Seq<char>, hash: Seq<(Node, Node)>, c: UnresolvedClient) -> bool {
    let (h1, n) = section(hash, "name"@);
    let (h2, k) = section(h1, "api_key"@);
    let (h3, rs) = section(h2, "resources"@);
    let (h4, gs) = section(h3, "groups"@);
    let (h5, vs) = section(h4, "variables"@);
    let kinds = resources_result(file, path + "."@ + "resources"@, rs)->Ok_0;
    let groups = groups_result(file, path + "."@ + "groups"@, gs)->Ok_0;
    &&& c.name@ == name_result(file, path, n)->Ok_0
    &&& c.api_key@ == api_key_result(file, path, k)->Ok_0
    &&& c.resources@.len() == kinds.len()
    &&& forall|i: int| 0 <= i < kinds.len() ==> (#[trigger] c.resources@[i]).parameters.kind == kinds[i]
    &&& resources_read(file, path + "."@ + "resources"@, rs, c.resources@)
    &&& strictly_sorted(host_names(c.assigned_groups@))
    &&& forall|x: Seq<char>| host_names(c.assigned_groups@).contains(x) <==> groups.contains(x)
    &&& entry_views(c.variables@) == variable_entries(vs)
}

impl UnresolvedClient {
    /// Reads a client from a hash of the configuration: its `name`, the hash
    /// of its `api_key`, its `resources`, the `groups` it belongs to (kept
    /// sorted, each once) and its `variables`.
    pub fn try_from(source: &Source, hash: Vec<(Node, Node)>) -> (r: Result<UnresolvedClient, String>)
        ensures
            match client_check(source.file@, source.path@, hash@) {
                Err(m) => r is Err && r->Err_0@ == m,
                Ok(_) => r is Ok && client_read(source.file@, source.path@, hash@, r->Ok_0),
            },
            r matches Ok(c) ==> forall|i: int| 0 <= i < c.resources@.len() ==> params_wf((#[trigger] c.resources@[i]).parameters),
    {
        let mut hash = hash;
        let n = remove_key(&mut hash, "name");
        let k = remove_key(&mut hash, "api_key");
        let rs = remove_key(&mut hash, "resources");
        let gs = remove_key(&mut hash, "groups");
        let vs = remove_key(&mut hash, "variables");
        let name = match read_name(source, n) {
            Ok(h) => h,
            Err(m) => {
                return Err(m);
            },
        };
        let api_key = match k {
            None => {
                return Err(sourced_message(source, ": failed to find required key `", "api_key", "`"));
            },
            Some(node) => {
                let ksource = source.add_key("api_key");
                match node.into_string() {
                    Some(t) => match ApiKey::from_str(t.as_str()) {
                        Ok(key) => key,
                        Err(e) => {
                            let mut m = sourced(&ksource, ": ");
                            crate::text::push_str(&mut m, e.as_str());
                            return Err(m);
                        },
                    },
                    None => {
                        return Err(sourced(&ksource, ": node must be a string"));
                    },
                }
            },
        };
        let resources = match rs {
            Some(node) => {
                let rsource = source.add_key("resources");
                match node.into_vec() {
                    Some(items) => match read_resources(&rsource, items) {
                        Ok(v) => v,
                        Err(m) => {
                            return Err(m);
                        },
                    },
                    None => {
                        return Err(sourced(&rsource, ": node must be an array"));
                    },
                }
            },
            None => {
                let v: Vec<UnresolvedResource> = Vec::new();
                v
            },
        };
        let assigned_groups = match gs {
            Some(node) => {
                let gsource = source.add_key("groups");
                match node.into_vec() {
                    Some(items) => match read_groups(&gsource, items) {
                        Ok(v) => v,
                        Err(m) => {
                            return Err(m);
                        },
                    },
                    None => {
                        return Err(sourced(&gsource, ": node must be an array"));
                    },
                }
            },
            None => {
                let v: Vec<Hostname> = Vec::new();
                assert(host_names(v@) =~= Seq::<Seq<char>>::empty());
                v
            },
        };
        let variables = match vs {
            Some(node) => {
                let vsource = source.add_key("variables");
                match read_variables(&vsource, node) {
                    Ok(v) => v,
                    Err(m) => {
                        return Err(m);
                    },
                }
            },
            None => {
                let v: Vec<(String, Node)> = Vec::new();
                assert(entry_views(v@) =~= Seq::<(Seq<char>, Node)>::empty());
                v
            },
        };
        match last_string_key(&hash) {
            Some(key) => Err(sourced_message(source, ": encountered unexpected key `", key.as_str(), "`")),
            None => Ok(UnresolvedClient { name, api_key, assigned_groups, variables, resources }),
        }
    }
}

/// The names of clients.
pub open spec fn client_names(v: Seq<UnresolvedClient>) -> Seq<Seq<char>> {
    v.map_values(|c: UnresolvedClient| c.name@)
}

/// The names of groups.
pub open spec fn group_names(v: Seq<Group>) -> Seq<Seq<char>> {
    v.map_values(|g: Group| g.name@)
}

fn has_client(v: &Vec<UnresolvedClient>, name: &Hostname) -> (r: bool)
    ensures
        r == client_names(v@).contains(name@),
{
    let mut i: usize = 0;
    while i < v.len()
        invariant
            i <= v.len(),
            forall|j: int| 0 <= j < i ==> client_names(v@)[j] != name@,
        decreases v.len() - i,
    {
        if str_eq(v[i].name.as_str(), name.as_str()) {
            assert(client_names(v@)[i as int] == name@);
            return true;
        }
        i = i + 1;
    }
    false
}

fn has_group(v: &Vec<Group>, name: &Hostname) -> (r: bool)
    ensures
        r == group_names(v@).contains(name@),
{
    let mut i: usize = 0;
    while i < v.len()
        invariant
            i <= v.len(),
            forall|j: int| 0 <= j < i ==> group_names(v@)[j] != name@,
        decreases v.len() - i,
    {
        if str_eq(v[i].name.as_str(), name.as_str()) {
            assert(group_names(v@)[i as int] == name@);
            return true;
        }
        i = i + 1;
    }
    false
}

/// What a document of a configuration file states: a client or a group.
pub enum Document {
    Client,
    Group,
}

/// What reading the `type` of a document gives.
pub open spec fn document_type(file: Seq<char>, path: Seq<char>, node: Node) -> Result<(Document, Seq<(Node, Node)>), Seq<char>> {
    match node {
        Node::Hash(hv) => {
            let (h1, t) = section(hv@, "type"@);
            match t {
                None => Err(missing_key_message(file, path, "type"@)),
                Some(Node::String(kt)) => if kt@ == "client"@ {
                    Ok((Document::Client, h1))
                } else if kt@ == "group"@ {
                    Ok((Document::Group, h1))
                } else {
                    Err(source_text(file, path + "."@ + "type"@) + ": encountered invalid value `"@ + kt@ + "`"@)
                },
                Some(_) => Err(source_text(file, path + "."@ + "type"@) + ": node must be a string"@),
            }
        },
        _ => Err(source_text(file, path) + ": node must be a hash"@),
    }
}

/// What reading one document, `node` at `path` of `file`, does to the
/// clients `c0` and groups `g0` read so far, giving `c1`, `g1` and `r`: the
/// message of the first rule it breaks, or the client or group added, a
/// name that is taken being refused.
pub open spec fn read_step(
    file: Seq<char>,
    path: Seq<char>,
    node: Node,
    c0: Seq<UnresolvedClient>,
    g0: Seq<Group>,
    c1: Seq<UnresolvedClient>,
    g1: Seq<Group>,
    r: Result<(), String>,
) -> bool {
    match document_type(file, path, node) {
        Err(m) => r is Err && r->Err_0@ == m && c1 == c0 && g1 == g0,
        Ok((Document::Client, h)) => match client_check(file, path, h) {
            Err(m) => r is Err && r->Err_0@ == m && c1 == c0 && g1 == g0,
            Ok(_) => g1 == g0 && ({
                let name = name_result(file, path, section(h, "name"@).1)->Ok_0;
                if client_names(c0).contains(name) {
                    r is Err && r->Err_0@ == source_text(file, path)
                        + ": encountered duplicate client `"@ + name + "`"@ && c1 == c0
                } else {
                    r is Ok && client_names(c1) == client_names(c0).push(name)
                        && c1.take(c0.len() as int) == c0 && c1.len() == c0.len() + 1
                        && client_read(file, path, h, c1.last())
                        && forall|i: int| 0 <= i < c1.last().resources@.len() ==> params_wf((#[trigger] c1.last().resources@[i]).parameters)
                }
            }),
        },
        Ok((Document::Group, h)) => match group_check(file, path, h) {
            Err(m) => r is Err && r->Err_0@ == m && c1 == c0 && g1 == g0,
            Ok(_) => c1 == c0 && ({
                let name = name_result(file, path, section(h, "name"@).1)->Ok_0;
                if group_names(g0).contains(name) {
                    r is Err && r->Err_0@ == source_text(file, path)
                        + ": encountered duplicate group `"@ + name + "`"@ && g1 == g0
                } else {
                    r is Ok && group_names(g1) == group_names(g0).push(name)
                        && g1.take(g0.len() as int) == g0 && g1.len() == g0.len() + 1
                        && group_read(file, path, h, g1.last())
                        && forall|i: int| 0 <= i < g1.last().resources@.len() ==> params_wf((#[trigger] g1.last().resources@[i]).parameters)
                }
            }),
        },
    }
}

/// Reads one document of a configuration file into the clients or the
/// groups read so far; a client or group whose name is taken is refused.
pub fn read_document(source: &Source, node: Node, clients: &mut Vec<UnresolvedClient>, groups: &mut Vec<Group>) -> (r: Result<(), String>)
    ensures
        read_step(source.file@, source.path@, node, old(clients)@, old(groups)@, final(clients)@, final(groups)@, r),
{
    let mut hash = match node.into_hash() {
        Some(h) => h,
        None => {
            return Err(sourced(source, ": node must be a hash"));
        },
    };
    let kind = match remove_key(&mut hash, "type") {
        Some(n) => match n.into_string() {
            Some(t) => t,
            None => {
                let s = source.add_key("type");
                return Err(sourced(&s, ": node must be a string"));
            },
        },
        None => {
            return Err(sourced_message(source, ": failed to find required key `", "type", "`"));
        },
    };
    if str_eq(kind.as_str(), "client") {
        let client = match UnresolvedClient::try_from(source, hash) {
            Ok(c) => c,
            Err(m) => {
                return Err(m);
            },
        };
        if has_client(clients, &client.name) {
            return Err(sourced_message(source, ": encountered duplicate client `", client.name.as_str(), "`"));
        }
        let ghost before = clients@;
        clients.push(client);
        assert(client_names(clients@) =~= client_names(before).push(client_names(clients@).last()));
        assert(clients@.take(before.len() as int) =~= before);
        Ok(())
    } else if str_eq(kind.as_str(), "group") {
        let group = match Group::try_from(source, hash) {
            Ok(g) => g,
            Err(m) => {
                return Err(m);
            },
        };
        if has_group(groups, &group.name) {
            return Err(sourced_message(source, ": encountered duplicate group `", group.name.as_str(), "`"));
        }
        let ghost before = groups@;
        groups.push(group);
        assert(group_names(groups@) =~= group_names(before).push(group_names(groups@).last()));
        assert(groups@.take(before.len() as int) =~= before);
        Ok(())
    } else {
        let s = source.add_key("type");
        Err(sourced_message(&s, ": encountered invalid value `", kind.as_str(), "`"))
    }
}

/// The path of document `i` of a configuration file.
pub open spec fn document_path(i: int) -> Seq<char> {
    "documents"@ + "["@ + decimal(i as nat) + "]"@
}

/// Whether reading document `j` of `docs` took the clients and groups from
/// `cs[j]` and `gs[j]` to `cs[j + 1]` and `gs[j + 1]` without error.
pub open spec fn step_ok(file: Seq<char>, docs: Seq<Node>, cs: Seq<Seq<UnresolvedClient>>, gs: Seq<Seq<Group>>, j: int) -> bool {
    read_step(file, document_path(j), docs[j], cs[j], gs[j], cs[j + 1], gs[j + 1], Ok(()))
}

/// Whether `cs` and `gs` are the clients and groups before the first
/// document of `docs` and after each document that followed, all read
/// without error.
pub open spec fn read_prefix(file: Seq<char>, docs: Seq<Node>, cs: Seq<Seq<UnresolvedClient>>, gs: Seq<Seq<Group>>) -> bool {
    &&& 1 <= cs.len() <= docs.len() + 1
    &&& gs.len() == cs.len()
    &&& forall|j: int| 0 <= j < cs.len() - 1 ==> #[trigger] step_ok(file, docs, cs, gs, j)
}

/// Whether the parameters of every resource of every client are well formed.
pub open spec fn clients_wf(cs: Seq<UnresolvedClient>) -> bool {
    forall|c: int, i: int| 0 <= c < cs.len() && 0 <= i < cs[c].resources@.len()
        ==> params_wf((#[trigger] cs[c].resources@[i]).parameters)
}

/// Whether the parameters of every resource of every group are well formed.
pub open spec fn groups_wf(gs: Seq<Group>) -> bool {
    forall|g: int, i: int| 0 <= g < gs.len() && 0 <= i < gs[g].resources@.len()
        ==> params_wf((#[trigger] gs[g].resources@[i]).parameters)
}

proof fn lemma_step_wf(file: Seq<char>, path: Seq<char>, node: Node, c0: Seq<UnresolvedClient>, g0: Seq<Group>,
    c1: Seq<UnresolvedClient>, g1: Seq<Group>, r: Result<(), String>)
    requires
        read_step(file, path, node, c0, g0, c1, g1, r),
        clients_wf(c0),
        groups_wf(g0),
    ensures
        clients_wf(c1),
        groups_wf(g1),
{
    if c1 != c0 {
        assert(c1.take(c0.len() as int) == c0 && c1.len() == c0.len() + 1);
        assert(forall|i: int| 0 <= i < c1.last().resources@.len() ==> params_wf((#[trigger] c1.last().resources@[i]).parameters));
        assert forall|c: int, i: int| 0 <= c < c1.len() && 0 <= i < c1[c].resources@.len()
            implies params_wf((#[trigger] c1[c].resources@[i]).parameters) by {
            if c < c0.len() {
                assert(c1[c] == c1.take(c0.len() as int)[c]);
                assert(c1[c] == c0[c]);
            } else {
                assert(c1[c] == c1.last());
            }
        }
    }
    if g1 != g0 {
        assert(g1.take(g0.len() as int) == g0 && g1.len() == g0.len() + 1);
        assert(forall|i: int| 0 <= i < g1.last().resources@.len() ==> params_wf((#[trigger] g1.last().resources@[i]).parameters));
        assert forall|g: int, i: int| 0 <= g < g1.len() && 0 <= i < g1[g].resources@.len()
            implies params_wf((#[trigger] g1[g].resources@[i]).parameters) by {
            if g < g0.len() {
                assert(g1[g] == g1.take(g0.len() as int)[g]);
                assert(g1[g] == g0[g]);
            } else {
                assert(g1[g] == g1.last());
            }
        }
    }
}

/// Reads the text of a configuration file: its StrictYAML documents, each
/// into the clients or groups read so far, in order, up to the first that
/// is refused. A text that is no StrictYAML is refused with the file's name
/// and the scanner's message.
pub fn read_config_text(file: &str, contents: &str, clients: &mut Vec<UnresolvedClient>, groups: &mut Vec<Group>) -> (r: Result<(), String>)
    ensures
        match yaml_documents(contents@) {
            Err(m) => r is Err && r->Err_0@ == "`"@ + file@ + "`: "@ + m
                && final(clients)@ == old(clients)@ && final(groups)@ == old(groups)@,
            Ok(docs) => exists|cs: Seq<Seq<UnresolvedClient>>, gs: Seq<Seq<Group>>|
                #[trigger] read_prefix(file@, docs, cs, gs) && cs[0] == old(clients)@ && gs[0] == old(groups)@
                && if cs.len() == docs.len() + 1 {
                    r is Ok && final(clients)@ == cs.last() && final(groups)@ == gs.last()
                } else {
                    r is Err && read_step(file@, document_path(cs.len() - 1), docs[cs.len() - 1], cs.last(), gs.last(),
                        final(clients)@, final(groups)@, r)
                },
        },
        clients_wf(old(clients)@) && groups_wf(old(groups)@) ==> clients_wf(final(clients)@) && groups_wf(final(groups)@),
{
    let mut docs = match load_documents(contents) {
        Ok(d) => d,
        Err(m) => {
            let mut e = concat3("`", file, "`: ");
            push_str(&mut e, m.as_str());
            return Err(e);
        },
    };
    let ghost d0 = docs@;
    let ghost mut cs: Seq<Seq<UnresolvedClient>> = seq![clients@];
    let ghost mut gs: Seq<Seq<Group>> = seq![groups@];
    let base = Source::new(file, "documents");
    let n = docs.len();
    let mut i: usize = 0;
    proof {
        assert(d0.skip(0) =~= d0);
    }
    while i < n
        invariant
            i <= n,
            n == d0.len(),
            d0 == yaml_documents(contents@)->Ok_0,
            yaml_documents(contents@) is Ok,
            docs@ == d0.skip(i as int),
            base.file@ == file@,
            base.path@ == "documents"@,
            read_prefix(file@, d0, cs, gs),
            cs.len() == i + 1,
            cs[0] == old(clients)@,
            gs[0] == old(groups)@,
            cs.last() == clients@,
            gs.last() == groups@,
            clients_wf(old(clients)@) && groups_wf(old(groups)@) ==> clients_wf(clients@) && groups_wf(groups@),
        decreases n - i,
    {
        let node = docs.remove(0);
        let ghost c_before = clients@;
        let ghost g_before = groups@;
        proof {
            assert(node == d0[i as int]);
            assert(docs@ =~= d0.skip(i + 1));
        }
        let source = base.add_index(i);
        let res = read_document(&source, node, clients, groups);
        proof {
            if clients_wf(old(clients)@) && groups_wf(old(groups)@) {
                lemma_step_wf(source.file@, source.path@, node, c_before, g_before, clients@, groups@, res);
            }
        }
        match res {
            Ok(()) => {},
            Err(m) => {
                proof {
                    assert(read_prefix(file@, d0, cs, gs));
                }
                return Err(m);
            },
        }
        proof {
            let cs1 = cs.push(clients@);
            let gs1 = gs.push(groups@);
            assert forall|j: int| 0 <= j < cs1.len() - 1 implies #[trigger] step_ok(file@, d0, cs1, gs1, j) by {
                if j < i {
                    assert(step_ok(file@, d0, cs, gs, j));
                    assert(cs1[j] == cs[j] && cs1[j + 1] == cs[j + 1]);
                    assert(gs1[j] == gs[j] && gs1[j + 1] == gs[j + 1]);
                }
            }
            cs = cs1;
            gs = gs1;
        }
        i = i + 1;
    }
    proof {
        assert(read_prefix(file@, d0, cs, gs));
    }
    Ok(())
}

/// Whether a file or directory of the configuration is skipped because its
/// name starts with a dot.
pub fn is_hidden(name: &str) -> (r: bool)
    ensures
        r == (name@.len() > 0 && name@[0] == '.'),
{
    let cs = crate::text::chars_of(name);
    cs.len() > 0 && cs[0] == '.'
}

/// Whether a file of the configuration is read: its extension is `yaml`
/// or `yml`.
pub fn is_yaml_extension(extension: &str) -> (r: bool)
    ensures
        r == (extension@ == "yaml"@ || extension@ == "yml"@),
{
    str_eq(extension, "yaml") || str_eq(extension, "yml")
}

} // verus!
