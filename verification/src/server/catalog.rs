use crate::common::name::Hostname;
use crate::server::assemble::{fresh, resource_built, resource_steps};
use crate::server::client::{texts, distinct_ids, entry_index, entry_of, host_address, managed_path, unique_name, unique_pair, rotated, unrotated, catalog_consistent, lemma_unrotated, validated, recorded_links, recorded_children, holds_children, helpers_empty, all_links_in, requires_walk, lemma_children_same, child_views, directory_children, Client, ValidationHelpers};
use crate::server::graph::{acyclic, is_walk, reaches, subgraph, Edge};
use crate::server::config::{Group, UnresolvedClient};
use crate::server::parse::UnresolvedResource;
use crate::server::resources::{child_nodes, lemma_same_params, requirements, meta, must_depend, repr, rid, same_params, same_resource, variant_kind, Dependency, Resource, Trigger};
use crate::server::unresolved::UnresolvedParameters;
use crate::server::unresolved::params_wf;
use crate::server::yaml::Node;
use crate::text::{concat_all, join_all, str_eq, str_views};
use vstd::prelude::*;

verus! {

/// A copy of stated dependencies.
fn copy_dependencies(v: &Vec<Dependency>) -> (r: Vec<Dependency>)
    ensures
        r@.len() == v@.len(),
{
    let mut out: Vec<Dependency> = Vec::new();
    let mut i: usize = 0;
    while i < v.len()
        invariant
            i <= v.len(),
            out@.len() == i,
        decreases v.len() - i,
    {
        let d = match &v[i] {
            Dependency::AptPackage { name } => Dependency::AptPackage { name: name.clone() },
            Dependency::Directory { path } => Dependency::Directory { path: path.clone() },
            Dependency::Execute { name } => Dependency::Execute { name: name.clone() },
            Dependency::File { path } => Dependency::File { path: path.clone() },
            Dependency::Group { name } => Dependency::Group { name: name.clone() },
            Dependency::Host { ip_address } => Dependency::Host { ip_address: *ip_address },
            Dependency::Symlink { path } => Dependency::Symlink { path: path.clone() },
            Dependency::User { name } => Dependency::User { name: name.clone() },
        };
        out.push(d);
        i = i + 1;
    }
    out
}

/// A copy of stated triggers.
fn copy_triggers(v: &Vec<Trigger>) -> (r: Vec<Trigger>)
    ensures
        r@.len() == v@.len(),
{
    let mut out: Vec<Trigger> = Vec::new();
    let mut i: usize = 0;
    while i < v.len()
        invariant
            i <= v.len(),
            out@.len() == i,
        decreases v.len() - i,
    {
        let t = match &v[i] {
            Trigger::Execute { name, actions } => {
                let mut acts = Vec::new();
                let mut k: usize = 0;
                while k < actions.len()
                    invariant
                        k <= actions.len(),
                    decreases actions.len() - k,
                {
                    acts.push(actions[k]);
                    k = k + 1;
                }
                Trigger::Execute { name: name.clone(), actions: acts }
            },
        };
        out.push(t);
        i = i + 1;
    }
    out
}

/// Whether a resource was built from the parameters of one of `items`.
pub open spec fn built_from(r: Resource, vars: Seq<(String, Node)>, items: Seq<UnresolvedResource>) -> bool {
    exists|i: int| 0 <= i < items.len() && resource_built(r, vars, #[trigger] items[i].parameters)
}

/// Whether `new` begins with `old`.
pub open spec fn extends(new: Seq<Resource>, old: Seq<Resource>) -> bool {
    old.len() <= new.len() && forall|i: int| 0 <= i < old.len() ==> #[trigger] new[i] == old[i]
}

/// Whether no resource from position `n` on is the same as one before it.
pub open spec fn no_added_duplicate(rs: Seq<Resource>, n: int) -> bool {
    forall|i: int, j: int| 0 <= i < j < rs.len() && n <= j ==> !same_resource(#[trigger] rs[i], #[trigger] rs[j])
}

/// The message for a resource of a group that another group defines too.
pub open spec fn duplicate_message(shown: Seq<char>, group: Seq<char>) -> Seq<char> {
    "duplicate resource `"@ + shown + "` defined in group `"@ + group + "`"@
}

/// The position of the first resource that is the same as `r`.
/// Whether `m` refuses a resource built from `params` as the same as
/// resource `j` of the catalog `rs`, which the group of origin `o` added.
pub open spec fn clash(rs: Seq<Resource>, origins: Seq<(String, Hostname)>, j: int, o: int, vars: Seq<(String, Node)>,
    params: UnresolvedParameters, m: Seq<char>) -> bool {
    &&& 0 <= j < rs.len()
    &&& 0 <= o < origins.len()
    &&& origins[o].0@ == rid(rs[j])
    &&& (exists|x: Resource| #[trigger] built_item(x, vars, params) && same_resource(rs[j], x))
    &&& m == duplicate_message(repr(rs[j]), origins[o].1@)
}

fn find_same(rs: &Vec<Resource>, r: &Resource) -> (k: Option<usize>)
    ensures
        match k {
            Some(i) => i < rs@.len() && same_resource(rs@[i as int], *r),
            None => forall|i: int| 0 <= i < rs@.len() ==> !same_resource(#[trigger] rs@[i], *r),
        },
{
    let mut i: usize = 0;
    while i < rs.len()
        invariant
            i <= rs.len(),
            forall|j: int| 0 <= j < i ==> !same_resource(#[trigger] rs@[j], *r),
        decreases rs.len() - i,
    {
        if rs[i].same_as(r) {
            return Some(i);
        }
        i = i + 1;
    }
    None
}

/// Whether `x` is a resource built from parameters `p` with the variables
/// `vars` (kept folded where only the relation is passed on).
#[verifier::opaque]
pub open spec fn built_item(x: Resource, vars: Seq<(String, Node)>, p: UnresolvedParameters) -> bool {
    resource_built(x, vars, p)
}

/// Whether reading parameters `p` with the variables `vars` succeeds (kept
/// folded where only the fact is passed on).
#[verifier::opaque]
pub open spec fn steps_ok(vars: Seq<(String, Node)>, p: UnresolvedParameters) -> bool {
    resource_steps(vars, p) is Ok
}

/// Whether resource `x`, built from a resource of a group, stands in
/// catalog `rs` whose first `n` resources were there before: it was added
/// after them, or it was left out as the same as one of them that no group
/// added (whose id has no entry in `origins`).
pub open spec fn placed(rs: Seq<Resource>, n: int, origins: Seq<(String, Hostname)>, x: Resource) -> bool {
    ||| exists|j: int| n <= j < rs.len() && #[trigger] rs[j] == x
    ||| exists|j: int| 0 <= j < n && #[trigger] same_resource(rs[j], x)
        && forall|o: int| 0 <= o < origins.len() ==> (#[trigger] origins[o]).0@ != rid(rs[j])
}

/// Whether a resource built from `item` stands in the catalog `rs`, whose
/// first `n` resources are the client's own: added after them, or left out
/// as the same as one of them.
pub open spec fn inherited(rs: Seq<Resource>, n: int, vars: Seq<(String, Node)>, item: UnresolvedResource) -> bool {
    exists|x: Resource| #[trigger] built_item(x, vars, item.parameters)
        && ((exists|j: int| n <= j < rs.len() && #[trigger] rs[j] == x)
            || (exists|j: int| 0 <= j < n && #[trigger] same_resource(rs[j], x)))
}

/// Whether each resource of `rs` from position `n` on has an entry in
/// `origins`.
#[verifier::opaque]
pub open spec fn origins_cover(rs: Seq<Resource>, n: int, origins: Seq<(String, Hostname)>) -> bool {
    forall|j: int| n <= j < rs.len() ==> has_origin(origins, rid(#[trigger] rs[j]))
}

/// Whether `origins` has an entry for `id`.
pub open spec fn has_origin(origins: Seq<(String, Hostname)>, id: Seq<char>) -> bool {
    exists|o: int| 0 <= o < origins.len() && (#[trigger] origins[o]).0@ == id
}

/// Whether every resource of the groups that the first `a` assignments
/// name stands in the catalog `rs`, whose first `n` resources are the
/// client's own.
#[verifier::opaque]
pub open spec fn all_inherited(rs: Seq<Resource>, n: int, vars: Seq<(String, Node)>, gs: Seq<(Group, usize)>,
    assigned: Seq<Hostname>, a: int) -> bool {
    forall|b: int, i: int| 0 <= b < a && 0 <= i < assigned_items(gs, assigned, b).len()
        ==> #[trigger] inherited(rs, n, vars, assigned_items(gs, assigned, b)[i])
}

/// Whether a resource built from `item` stands in the validated catalog
/// `rs`, whose first `n` resources are the client's own: with the same
/// parameters after them, or left out as the same as one of them.
pub open spec fn inherited_into(rs: Seq<Resource>, n: int, vars: Seq<(String, Node)>, item: UnresolvedResource) -> bool {
    exists|x: Resource| #[trigger] built_item(x, vars, item.parameters)
        && ((exists|j: int| n <= j < rs.len() && #[trigger] same_params(rs[j], x))
            || (exists|j: int| 0 <= j < n && #[trigger] same_resource(rs[j], x)))
}

/// The resources of the group that assignment `a` names.
pub open spec fn assigned_items(gs: Seq<(Group, usize)>, assigned: Seq<Hostname>, a: int) -> Seq<UnresolvedResource> {
    gs[group_index(gs, assigned[a]@)->0].0.resources@
}

/// Whether group resource `i`, built as some resource, has its stated
/// dependencies and triggers recorded under the built resource's id at
/// positions `q` and `w`, and stands in the catalog.
pub open spec fn group_item_taken(
    c: Client,
    vars: Seq<(String, Node)>,
    items: Seq<UnresolvedResource>,
    i: int,
    q: int,
    w: int,
    n: int,
    origins: Seq<(String, Hostname)>,
) -> bool {
    exists|x: Resource| #[trigger] built_item(x, vars, items[i].parameters)
        && c.temporary.requires@[q].0@ == rid(x)
        && c.temporary.requires@[q].1@.len() == items[i].requires@.len()
        && c.temporary.triggers@[w].0@ == rid(x)
        && c.temporary.triggers@[w].1@.len() == items[i].triggers@.len()
        && placed(c.resources@, n, origins, x)
}

/// No entry of a list has the key of which `entry_of` finds none.
proof fn lemma_entry_none<V>(s: Seq<(String, V)>, id: Seq<char>, o: int)
    requires
        entry_of(s, id) is None,
        0 <= o < s.len(),
    ensures
        s[o].0@ != id,
    decreases o,
{
    if s[o].0@ == id {
        if exists|j: int| 0 <= j < o && #[trigger] s[j].0@ == id {
            let j = choose|j: int| 0 <= j < o && #[trigger] s[j].0@ == id;
            lemma_entry_none(s, id, j);
        } else {
            assert(forall|j: int| 0 <= j < o ==> #[trigger] s[j].0@ != id);
        }
    }
}

/// What is stated of a resource taken from a group stays true while the
/// lists it refers to only grow at their ends.
proof fn lemma_taken_grows(
    c1: Client,
    c2: Client,
    vars: Seq<(String, Node)>,
    items: Seq<UnresolvedResource>,
    k: int,
    q: int,
    w: int,
    n: int,
    origins: Seq<(String, Hostname)>,
)
    requires
        group_item_taken(c1, vars, items, k, q, w, n, origins),
        0 <= q < c1.temporary.requires@.len(),
        0 <= w < c1.temporary.triggers@.len(),
        c1.temporary.requires@.len() <= c2.temporary.requires@.len(),
        c2.temporary.requires@.take(c1.temporary.requires@.len() as int) == c1.temporary.requires@,
        c1.temporary.triggers@.len() <= c2.temporary.triggers@.len(),
        c2.temporary.triggers@.take(c1.temporary.triggers@.len() as int) == c1.temporary.triggers@,
        c1.resources@.len() <= c2.resources@.len(),
        c2.resources@.take(c1.resources@.len() as int) == c1.resources@,
        0 <= n <= c1.resources@.len(),
    ensures
        group_item_taken(c2, vars, items, k, q, w, n, origins),
{
    let x = choose|x: Resource| #[trigger] built_item(x, vars, items[k].parameters)
        && c1.temporary.requires@[q].0@ == rid(x)
        && c1.temporary.requires@[q].1@.len() == items[k].requires@.len()
        && c1.temporary.triggers@[w].0@ == rid(x)
        && c1.temporary.triggers@[w].1@.len() == items[k].triggers@.len()
        && placed(c1.resources@, n, origins, x);
    let l1 = c1.temporary.requires@.len() as int;
    let l2 = c1.temporary.triggers@.len() as int;
    let l3 = c1.resources@.len() as int;
    assert(c2.temporary.requires@[q] == c2.temporary.requires@.take(l1)[q]);
    assert(c2.temporary.triggers@[w] == c2.temporary.triggers@.take(l2)[w]);
    if exists|j: int| n <= j < c1.resources@.len() && #[trigger] c1.resources@[j] == x {
        let j = choose|j: int| n <= j < c1.resources@.len() && #[trigger] c1.resources@[j] == x;
        assert(c2.resources@[j] == c2.resources@.take(l3)[j]);
        assert(c2.resources@[j] == x);
    } else {
        let j = choose|j: int| 0 <= j < n && #[trigger] same_resource(c1.resources@[j], x)
            && forall|o: int| 0 <= o < origins.len() ==> (#[trigger] origins[o]).0@ != rid(c1.resources@[j]);
        assert(c2.resources@[j] == c2.resources@.take(l3)[j]);
        assert(same_resource(c2.resources@[j], x));
    }
    assert(placed(c2.resources@, n, origins, x));
    assert(built_item(x, vars, items[k].parameters));
}

/// Whether `c1` is `c0` after one resource of a group was taken: the
/// resource built from `item`'s parameters, with its stated dependencies and
/// triggers recorded under its id, added with the group's name as its
/// origin, or left out as the same as a resource of the catalog that no
/// group added.
pub open spec fn took_item(c0: Client, c1: Client, vars: Seq<(String, Node)>, item: UnresolvedResource, name: Seq<char>) -> bool {
    steps_ok(vars, item.parameters)
    && exists|x: Resource| #[trigger] built_item(x, vars, item.parameters) && fresh(x)
        && c1.temporary.requires@.len() == c0.temporary.requires@.len() + 1
        && c1.temporary.requires@.take(c0.temporary.requires@.len() as int) == c0.temporary.requires@
        && c1.temporary.requires@.last().0@ == rid(x)
        && c1.temporary.requires@.last().1@.len() == item.requires@.len()
        && c1.temporary.triggers@.len() == c0.temporary.triggers@.len() + 1
        && c1.temporary.triggers@.take(c0.temporary.triggers@.len() as int) == c0.temporary.triggers@
        && c1.temporary.triggers@.last().0@ == rid(x)
        && c1.temporary.triggers@.last().1@.len() == item.triggers@.len()
        && ((c1.resources@ == c0.resources@.push(x)
                && c1.temporary.origins@.len() == c0.temporary.origins@.len() + 1
                && c1.temporary.origins@.take(c0.temporary.origins@.len() as int) == c0.temporary.origins@
                && c1.temporary.origins@.last().0@ == rid(x) && c1.temporary.origins@.last().1@ == name
                && forall|j: int| 0 <= j < c0.resources@.len() ==> !same_resource(#[trigger] c0.resources@[j], x))
            || (c1.resources@ == c0.resources@ && c1.temporary.origins@ == c0.temporary.origins@
                && exists|j: int| 0 <= j < c0.resources@.len() && #[trigger] same_resource(c0.resources@[j], x)
                    && forall|o: int| 0 <= o < c0.temporary.origins@.len()
                        ==> (#[trigger] c0.temporary.origins@[o]).0@ != rid(c0.resources@[j])))
}

/// The facts that make up one step of taking a group's resources.
proof fn lemma_took_item(c0: Client, c1: Client, vars: Seq<(String, Node)>, item: UnresolvedResource, name: Seq<char>, x: Resource, j: int)
    requires
        steps_ok(vars, item.parameters),
        built_item(x, vars, item.parameters),
        fresh(x),
        c1.temporary.requires@.len() == c0.temporary.requires@.len() + 1,
        c1.temporary.requires@.take(c0.temporary.requires@.len() as int) == c0.temporary.requires@,
        c1.temporary.requires@.last().0@ == rid(x),
        c1.temporary.requires@.last().1@.len() == item.requires@.len(),
        c1.temporary.triggers@.len() == c0.temporary.triggers@.len() + 1,
        c1.temporary.triggers@.take(c0.temporary.triggers@.len() as int) == c0.temporary.triggers@,
        c1.temporary.triggers@.last().0@ == rid(x),
        c1.temporary.triggers@.last().1@.len() == item.triggers@.len(),
        (c1.resources@ == c0.resources@.push(x)
            && c1.temporary.origins@.len() == c0.temporary.origins@.len() + 1
            && c1.temporary.origins@.take(c0.temporary.origins@.len() as int) == c0.temporary.origins@
            && c1.temporary.origins@.last().0@ == rid(x) && c1.temporary.origins@.last().1@ == name
            && forall|k: int| 0 <= k < c0.resources@.len() ==> !same_resource(#[trigger] c0.resources@[k], x))
        || (c1.resources@ == c0.resources@ && c1.temporary.origins@ == c0.temporary.origins@
            && 0 <= j < c0.resources@.len() && same_resource(c0.resources@[j], x)
            && forall|o: int| 0 <= o < c0.temporary.origins@.len()
                ==> (#[trigger] c0.temporary.origins@[o]).0@ != rid(c0.resources@[j])),
    ensures
        took_item(c0, c1, vars, item, name),
{
}

/// What taking the first `i` resources of a group has done to a client
/// that had resources `old_rs`, dependencies `old_rq`, triggers `old_tr`
/// and origins `old_or`.
pub open spec fn take_inv(
    c: Client,
    vars: Seq<(String, Node)>,
    items: Seq<UnresolvedResource>,
    i: int,
    name: Seq<char>,
    old_rs: Seq<Resource>,
    old_rq: Seq<(String, Vec<Dependency>)>,
    old_tr: Seq<(String, Vec<Trigger>)>,
    old_or: Seq<(String, Hostname)>,
) -> bool {
    &&& forall|k: int| 0 <= k < i ==> steps_ok(vars, #[trigger] items[k].parameters)
    &&& c.temporary.requires@.len() == old_rq.len() + i
    &&& c.temporary.requires@.take(old_rq.len() as int) == old_rq
    &&& c.temporary.triggers@.len() == old_tr.len() + i
    &&& c.temporary.triggers@.take(old_tr.len() as int) == old_tr
    &&& c.temporary.origins@.len() == old_or.len() + c.resources@.len() - old_rs.len()
    &&& c.temporary.origins@.take(old_or.len() as int) == old_or
    &&& forall|q: int| old_or.len() <= q < c.temporary.origins@.len()
        ==> (#[trigger] c.temporary.origins@[q]).0@ == rid(c.resources@[old_rs.len() + q - old_or.len()])
            && c.temporary.origins@[q].1@ == name
    &&& forall|k: int| 0 <= k < i ==> #[trigger] group_item_taken(c, vars, items, k,
        old_rq.len() + k, old_tr.len() + k, old_rs.len() as int, old_or)
    &&& extends(c.resources@, old_rs)
    &&& forall|j: int| old_rs.len() <= j < c.resources@.len()
        ==> fresh(#[trigger] c.resources@[j]) && built_from(c.resources@[j], vars, items)
    &&& no_added_duplicate(c.resources@, old_rs.len() as int)
}

/// Taking one more resource of a group keeps what was done so far.
#[verifier::rlimit(60)]
#[verifier::spinoff_prover]
proof fn lemma_take_step(
    c0: Client,
    c1: Client,
    vars: Seq<(String, Node)>,
    items: Seq<UnresolvedResource>,
    i: int,
    name: Seq<char>,
    old_rs: Seq<Resource>,
    old_rq: Seq<(String, Vec<Dependency>)>,
    old_tr: Seq<(String, Vec<Trigger>)>,
    old_or: Seq<(String, Hostname)>,
)
    requires
        0 <= i < items.len(),
        take_inv(c0, vars, items, i, name, old_rs, old_rq, old_tr, old_or),
        took_item(c0, c1, vars, items[i], name),
    ensures
        take_inv(c1, vars, items, i + 1, name, old_rs, old_rq, old_tr, old_or),
{
    let x = choose|x: Resource| #[trigger] built_item(x, vars, items[i].parameters) && fresh(x)
        && c1.temporary.requires@.len() == c0.temporary.requires@.len() + 1
        && c1.temporary.requires@.take(c0.temporary.requires@.len() as int) == c0.temporary.requires@
        && c1.temporary.requires@.last().0@ == rid(x)
        && c1.temporary.requires@.last().1@.len() == items[i].requires@.len()
        && c1.temporary.triggers@.len() == c0.temporary.triggers@.len() + 1
        && c1.temporary.triggers@.take(c0.temporary.triggers@.len() as int) == c0.temporary.triggers@
        && c1.temporary.triggers@.last().0@ == rid(x)
        && c1.temporary.triggers@.last().1@.len() == items[i].triggers@.len()
        && ((c1.resources@ == c0.resources@.push(x)
                && c1.temporary.origins@.len() == c0.temporary.origins@.len() + 1
                && c1.temporary.origins@.take(c0.temporary.origins@.len() as int) == c0.temporary.origins@
                && c1.temporary.origins@.last().0@ == rid(x) && c1.temporary.origins@.last().1@ == name
                && forall|j: int| 0 <= j < c0.resources@.len() ==> !same_resource(#[trigger] c0.resources@[j], x))
            || (c1.resources@ == c0.resources@ && c1.temporary.origins@ == c0.temporary.origins@
                && exists|j: int| 0 <= j < c0.resources@.len() && #[trigger] same_resource(c0.resources@[j], x)
                    && forall|o: int| 0 <= o < c0.temporary.origins@.len()
                        ==> (#[trigger] c0.temporary.origins@[o]).0@ != rid(c0.resources@[j])));
    let r0 = c0.resources@;
    let r1 = c1.resources@;
    let o0 = c0.temporary.origins@;
    let o1 = c1.temporary.origins@;
    let n = old_rs.len() as int;
    assert(c1.temporary.requires@.take(old_rq.len() as int) =~= c0.temporary.requires@.take(old_rq.len() as int));
    assert(c1.temporary.triggers@.take(old_tr.len() as int) =~= c0.temporary.triggers@.take(old_tr.len() as int));
    assert(o1.take(old_or.len() as int) =~= o0.take(old_or.len() as int));
    assert(r1.take(r0.len() as int) =~= r0);
    // The resource just taken.
    if r1 == r0.push(x) {
        assert(r1[r0.len() as int] == x);
        assert(placed(r1, n, old_or, x));
        assert forall|q: int| old_or.len() <= q < o1.len()
            implies (#[trigger] o1[q]).0@ == rid(r1[n + q - old_or.len()]) && o1[q].1@ == name by {
            if q < o0.len() {
                assert(o1[q] == o1.take(o0.len() as int)[q]);
                assert(r1[n + q - old_or.len()] == r0[n + q - old_or.len()]);
            }
        }
        assert forall|j: int| n <= j < r1.len() implies fresh(#[trigger] r1[j]) && built_from(r1[j], vars, items) by {
            if j < r0.len() {
                assert(r1[j] == r0[j]);
            } else {
                assert(resource_built(r1[j], vars, items[i].parameters)) by {
                    reveal(built_item);
                }
            }
        }
        assert forall|a: int, b: int| 0 <= a < b < r1.len() && n <= b
            implies !same_resource(#[trigger] r1[a], #[trigger] r1[b]) by {
            assert(r1[a] == r0[a]);
            if b < r0.len() {
                assert(r1[b] == r0[b]);
            }
        }
        assert forall|a: int| 0 <= a < n implies #[trigger] r1[a] == old_rs[a] by {
            assert(r1[a] == r0[a]);
        }
    } else {
        let j = choose|j: int| 0 <= j < r0.len() && #[trigger] same_resource(r0[j], x)
            && forall|o: int| 0 <= o < o0.len() ==> (#[trigger] o0[o]).0@ != rid(r0[j]);
        if j >= n {
            let q = old_or.len() + j - n;
            assert(o0[q].0@ == rid(r0[n + q - old_or.len()]));
        }
        assert forall|o: int| 0 <= o < old_or.len() implies (#[trigger] old_or[o]).0@ != rid(r1[j]) by {
            assert(old_or[o] == o0.take(old_or.len() as int)[o]);
            assert(o0[o].0@ != rid(r0[j]));
        }
        assert(same_resource(r1[j], x));
        assert(placed(r1, n, old_or, x));
    }
    assert(c1.temporary.requires@[old_rq.len() + i] == c1.temporary.requires@.last());
    assert(c1.temporary.triggers@[old_tr.len() + i] == c1.temporary.triggers@.last());
    assert(group_item_taken(c1, vars, items, i, old_rq.len() + i, old_tr.len() + i, n, old_or));
    assert forall|k: int| 0 <= k < i + 1 implies #[trigger] group_item_taken(c1, vars, items, k,
        old_rq.len() + k, old_tr.len() + k, n, old_or) by {
        if k < i {
            lemma_taken_grows(c0, c1, vars, items, k, old_rq.len() + k, old_tr.len() + k, n, old_or);
        }
    }
}

/// Builds a resource of a group, with what is known of it kept folded.
fn build_item(item: &UnresolvedResource, vars: &Vec<(String, Node)>) -> (r: Result<Resource, String>)
    requires
        params_wf(item.parameters),
    ensures
        r matches Ok(x) ==> built_item(x, vars@, item.parameters) && steps_ok(vars@, item.parameters) && fresh(x),
        r matches Err(m) ==> resource_steps(vars@, item.parameters) == Err::<(), Seq<char>>(m@),
{
    let r = Resource::try_from(item, vars);
    proof {
        reveal(built_item);
        reveal(steps_ok);
    }
    r
}

/// The message for a resource that another group defines too.
fn duplicate_error(shown: &str, origin: &str) -> (m: String)
    ensures
        m@ == duplicate_message(shown@, origin@),
{
    let parts = ["duplicate resource `", shown, "` defined in group `", origin, "`"];
    let m = concat_all(&parts);
    proof {
        assert(str_views(parts@) =~= seq!["duplicate resource `"@, shown@, "` defined in group `"@, origin@, "`"@]);
        reveal_with_fuel(join_all, 6);
    }
    m
}

impl Client {
    /// Takes one resource of a group: builds it, records its stated
    /// dependencies and triggers, and adds it unless the catalog has the same
    /// resource already: the client's own is kept, one from a group refused.
    #[verifier::spinoff_prover]
    fn take_item(&mut self, item: &UnresolvedResource, group_name: &Hostname) -> (r: Result<(), String>)
        requires
            params_wf(item.parameters),
        ensures
            final(self).name == old(self).name,
            final(self).api_key == old(self).api_key,
            final(self).assigned_groups == old(self).assigned_groups,
            final(self).variables == old(self).variables,
            final(self).temporary.predecessors == old(self).temporary.predecessors,
            keeps_records(old(self).temporary, final(self).temporary),
            r is Ok ==> took_item(*old(self), *final(self), old(self).variables@, *item, group_name@),
            r matches Err(m) ==> resource_steps(old(self).variables@, item.parameters) == Err::<(), Seq<char>>(m@)
                || (final(self).resources@ == old(self).resources@ && final(self).temporary.origins@ == old(self).temporary.origins@
                    && exists|j: int, o: int| #[trigger] clash(old(self).resources@, old(self).temporary.origins@, j, o,
                        old(self).variables@, item.parameters, m@)),
    {
        let ghost c0 = *self;
        let resource = match build_item(item, &self.variables) {
            Ok(x) => x,
            Err(m) => {
                return Err(m);
            },
        };
        let ghost rg = resource;
        let id = resource.id().to_owned();
        let rid1 = id.clone();
        let deps = copy_dependencies(&item.requires);
        self.temporary.requires.push((rid1, deps));
        let rid2 = id.clone();
        let trs = copy_triggers(&item.triggers);
        self.temporary.triggers.push((rid2, trs));
        proof {
            assert(self.temporary.requires@.take(c0.temporary.requires@.len() as int) =~= c0.temporary.requires@);
            assert(self.temporary.triggers@.take(c0.temporary.triggers@.len() as int) =~= c0.temporary.triggers@);
            assert(self.temporary.requires@.last().0@ == rid(rg));
            assert(self.temporary.triggers@.last().0@ == rid(rg));
        }
        let ghost c1 = *self;
        let ghost mut jj: int = 0;
        match find_same(&self.resources, &resource) {
            Some(k) => {
                match entry_index(&self.temporary.origins, self.resources[k].id()) {
                    Some(o) => {
                        let shown = self.resources[k].repr();
                        let m = duplicate_error(shown.as_str(), self.temporary.origins[o].1.as_str());
                        proof {
                            assert(built_item(rg, c0.variables@, item.parameters));
                            assert(clash(c0.resources@, c0.temporary.origins@, k as int, o as int, c0.variables@, item.parameters, m@));
                        }
                        return Err(m);
                    },
                    None => {
                        proof {
                            let org = self.temporary.origins@;
                            let cur = self.resources@;
                            assert forall|o: int| 0 <= o < org.len() implies (#[trigger] org[o]).0@ != rid(cur[k as int]) by {
                                lemma_entry_none(org, rid(cur[k as int]), o);
                            }
                            assert(same_resource(cur[k as int], rg));
                            jj = k as int;
                        }
                    },
                }
            },
            None => {
                let ghost o0 = self.temporary.origins@;
                self.temporary.origins.push((id, group_name.clone()));
                self.resources.push(resource);
                proof {
                    assert(self.temporary.origins@.take(o0.len() as int) =~= o0);
                    assert(o0 == c0.temporary.origins@);
                    assert(self.resources@ == c0.resources@.push(rg));
                }
            },
        }
        proof {
            lemma_took_item(c0, *self, c0.variables@, *item, group_name@, rg, jj);
        }
        Ok(())
    }

    /// Adds the resources of one group to the catalog: a resource that is
    /// the same as one of the catalog is skipped when that one is the
    /// client's own, and refused when it comes from another group.
    #[verifier::rlimit(80)]
    #[verifier::spinoff_prover]
    fn take_group_resources(&mut self, group: &Group, group_name: &Hostname) -> (r: Result<(), String>)
        requires
            forall|i: int| 0 <= i < group.resources@.len() ==> params_wf((#[trigger] group.resources@[i]).parameters),
        ensures
            final(self).name == old(self).name,
            final(self).api_key == old(self).api_key,
            final(self).assigned_groups == old(self).assigned_groups,
            final(self).variables == old(self).variables,
            final(self).temporary.predecessors == old(self).temporary.predecessors,
            keeps_records(old(self).temporary, final(self).temporary),
            r is Ok ==> extends(final(self).resources@, old(self).resources@),
            r is Ok ==> forall|j: int| old(self).resources@.len() <= j < final(self).resources@.len()
                ==> fresh(#[trigger] final(self).resources@[j]) && built_from(final(self).resources@[j], old(self).variables@, group.resources@),
            r is Ok ==> no_added_duplicate(final(self).resources@, old(self).resources@.len() as int),
            r is Ok ==> forall|i: int| 0 <= i < group.resources@.len()
                ==> resource_steps(old(self).variables@, (#[trigger] group.resources@[i]).parameters) is Ok,
            r is Ok ==> final(self).temporary.requires@.len() == old(self).temporary.requires@.len() + group.resources@.len()
                && final(self).temporary.requires@.take(old(self).temporary.requires@.len() as int) == old(self).temporary.requires@,
            r is Ok ==> final(self).temporary.triggers@.len() == old(self).temporary.triggers@.len() + group.resources@.len()
                && final(self).temporary.triggers@.take(old(self).temporary.triggers@.len() as int) == old(self).temporary.triggers@,
            r is Ok ==> final(self).temporary.origins@.len() == old(self).temporary.origins@.len()
                    + final(self).resources@.len() - old(self).resources@.len()
                && final(self).temporary.origins@.take(old(self).temporary.origins@.len() as int) == old(self).temporary.origins@
                && forall|q: int| old(self).temporary.origins@.len() <= q < final(self).temporary.origins@.len()
                    ==> (#[trigger] final(self).temporary.origins@[q]).0@ == rid(final(self).resources@[
                            old(self).resources@.len() + q - old(self).temporary.origins@.len()])
                        && final(self).temporary.origins@[q].1@ == group_name@,
            r is Ok ==> forall|i: int| 0 <= i < group.resources@.len() ==> #[trigger] group_item_taken(*final(self),
                old(self).variables@, group.resources@, i, old(self).temporary.requires@.len() + i,
                old(self).temporary.triggers@.len() + i, old(self).resources@.len() as int, old(self).temporary.origins@),
            r matches Err(m) ==> (exists|i: int| 0 <= i < group.resources@.len()
                && resource_steps(old(self).variables@, (#[trigger] group.resources@[i]).parameters) == Err::<(), Seq<char>>(m@))
                || (exists|i: int, j: int, o: int| 0 <= i < group.resources@.len() && #[trigger] clash(final(self).resources@,
                    final(self).temporary.origins@, j, o, old(self).variables@, group.resources@[i].parameters, m@)),
    {
        let ghost old_rs = self.resources@;
        let ghost vars = self.variables@;
        let ghost old_rq = self.temporary.requires@;
        let ghost old_tr = self.temporary.triggers@;
        let ghost old_or = self.temporary.origins@;
        let mut i: usize = 0;
        proof {
            assert(self.temporary.requires@.take(old_rq.len() as int) =~= old_rq);
            assert(self.temporary.triggers@.take(old_tr.len() as int) =~= old_tr);
            assert(self.temporary.origins@.take(old_or.len() as int) =~= old_or);
        }
        while i < group.resources.len()
            invariant
                old_rq == old(self).temporary.requires@,
                old_tr == old(self).temporary.triggers@,
                old_or == old(self).temporary.origins@,
                take_inv(*self, vars, group.resources@, i as int, group_name@, old_rs, old_rq, old_tr, old_or),
                i <= group.resources@.len(),
                forall|i: int| 0 <= i < group.resources@.len() ==> params_wf((#[trigger] group.resources@[i]).parameters),
                self.name == old(self).name,
                self.api_key == old(self).api_key,
                self.assigned_groups == old(self).assigned_groups,
                self.variables == old(self).variables,
                self.temporary.predecessors == old(self).temporary.predecessors,
                keeps_records(old(self).temporary, self.temporary),
                vars == old(self).variables@,
                old_rs == old(self).resources@,
            decreases group.resources@.len() - i,
        {
            let ghost c0 = *self;
            match self.take_item(&group.resources[i], group_name) {
                Ok(()) => {},
                Err(m) => {
                    proof {
                        if resource_steps(vars, group.resources@[i as int].parameters) != Err::<(), Seq<char>>(m@) {
                            let (j, o) = choose|j: int, o: int| #[trigger] clash(c0.resources@, c0.temporary.origins@, j, o,
                                vars, group.resources@[i as int].parameters, m@);
                            assert(clash(self.resources@, self.temporary.origins@, j, o, vars, group.resources@[i as int].parameters, m@));
                        }
                    }
                    return Err(m);
                },
            }
            proof {
                lemma_take_step(c0, *self, vars, group.resources@, i as int, group_name@, old_rs, old_rq, old_tr, old_or);
            }
            i = i + 1;
        }
        proof {
            assert forall|k: int| 0 <= k < group.resources@.len()
                implies resource_steps(vars, (#[trigger] group.resources@[k]).parameters) is Ok by {
                assert(steps_ok(vars, group.resources@[k].parameters));
                reveal(steps_ok);
            }
        }
        Ok(())
    }
}

/// The position of the first group named `name`.
pub open spec fn group_index(gs: Seq<(Group, usize)>, name: Seq<char>) -> Option<int> {
    if exists|i: int| 0 <= i < gs.len() && (#[trigger] gs[i]).0.name@ == name
            && forall|j: int| 0 <= j < i ==> (#[trigger] gs[j]).0.name@ != name {
        Some(choose|i: int| 0 <= i < gs.len() && (#[trigger] gs[i]).0.name@ == name
            && forall|j: int| 0 <= j < i ==> (#[trigger] gs[j]).0.name@ != name)
    } else {
        None
    }
}

/// How many of the first `n` names are `name`.
pub open spec fn occurrences(names: Seq<Hostname>, name: Seq<char>, n: nat) -> nat
    decreases n,
{
    if n == 0 || n > names.len() {
        0
    } else {
        occurrences(names, name, (n - 1) as nat) + if names[n - 1]@ == name { 1nat } else { 0nat }
    }
}

/// The number of clients that use each group, grown by the assignments of
/// the first `n` of `names`: a group counts when it is the first of its name.
pub open spec fn counted(old: Seq<(Group, usize)>, new: Seq<(Group, usize)>, names: Seq<Hostname>, n: nat) -> bool {
    &&& new.len() == old.len()
    &&& forall|k: int| 0 <= k < old.len() ==> (#[trigger] new[k]).0 == old[k].0
    &&& forall|k: int| 0 <= k < old.len() ==> (#[trigger] new[k]).1 == old[k].1
        + if group_index(old, old[k].0.name@) == Some(k) { occurrences(names, old[k].0.name@, n) } else { 0 }
}

/// Whether a resource was built from a resource of the first group named `name`.
pub open spec fn from_group(r: Resource, vars: Seq<(String, Node)>, gs: Seq<(Group, usize)>, name: Seq<char>) -> bool {
    match group_index(gs, name) {
        Some(g) => built_from(r, vars, gs[g].0.resources@),
        None => false,
    }
}

/// Whether a resource was built from a resource of one of the groups named.
pub open spec fn from_assigned_group(r: Resource, vars: Seq<(String, Node)>, gs: Seq<(Group, usize)>, names: Seq<Hostname>) -> bool {
    exists|b: int| 0 <= b < names.len() && from_group(r, vars, gs, (#[trigger] names[b])@)
}

/// The message for a group that the configuration does not define.
pub open spec fn unknown_group_message(name: Seq<char>) -> Seq<char> {
    "reference to unknown group `"@ + name + "`"@
}

/// The position of the first group named `name`.
fn find_group(gs: &Vec<(Group, usize)>, name: &Hostname) -> (r: Option<usize>)
    ensures
        match group_index(gs@, name@) {
            Some(i) => r == Some(i as usize),
            None => r is None,
        },
        r matches Some(i) ==> group_index(gs@, name@) == Some(i as int) && i < gs@.len(),
        r is None ==> group_index(gs@, name@) is None,
{
    let mut i: usize = 0;
    while i < gs.len()
        invariant
            i <= gs.len(),
            forall|j: int| 0 <= j < i ==> (#[trigger] gs@[j]).0.name@ != name@,
        decreases gs.len() - i,
    {
        if str_eq(gs[i].0.name.as_str(), name.as_str()) {
            let ghost k = choose|k: int| 0 <= k < gs@.len() && (#[trigger] gs@[k]).0.name@ == name@
                && forall|j: int| 0 <= j < k ==> (#[trigger] gs@[j]).0.name@ != name@;
            assert(k == i) by {
                if k < i {
                    assert(gs@[k].0.name@ != name@);
                } else if k > i {
                    assert(gs@[i as int].0.name@ != name@);
                }
            }
            return Some(i);
        }
        i = i + 1;
    }
    assert(group_index(gs@, name@) is None) by {
        if exists|k: int| 0 <= k < gs@.len() && (#[trigger] gs@[k]).0.name@ == name@ {
            let k = choose|k: int| 0 <= k < gs@.len() && (#[trigger] gs@[k]).0.name@ == name@;
            assert(gs@[k].0.name@ != name@);
        }
    }
    None
}

proof fn lemma_group_index_stays(old: Seq<(Group, usize)>, new: Seq<(Group, usize)>, name: Seq<char>)
    requires
        new.len() == old.len(),
        forall|k: int| 0 <= k < old.len() ==> (#[trigger] new[k]).0 == old[k].0,
    ensures
        group_index(new, name) == group_index(old, name),
{
    assert forall|i: int| 0 <= i < old.len() implies (#[trigger] new[i]).0.name@ == old[i].0.name@ by {
        assert(new[i].0 == old[i].0);
    }
    if exists|i: int| 0 <= i < old.len() && (#[trigger] old[i]).0.name@ == name
            && forall|j: int| 0 <= j < i ==> (#[trigger] old[j]).0.name@ != name {
        let i = choose|i: int| 0 <= i < old.len() && (#[trigger] old[i]).0.name@ == name
            && forall|j: int| 0 <= j < i ==> (#[trigger] old[j]).0.name@ != name;
        assert(new[i].0.name@ == name);
        assert forall|j: int| 0 <= j < i implies (#[trigger] new[j]).0.name@ != name by {
            assert(old[j].0.name@ != name);
        }
    }
    if exists|i: int| 0 <= i < new.len() && (#[trigger] new[i]).0.name@ == name
            && forall|j: int| 0 <= j < i ==> (#[trigger] new[j]).0.name@ != name {
        let i = choose|i: int| 0 <= i < new.len() && (#[trigger] new[i]).0.name@ == name
            && forall|j: int| 0 <= j < i ==> (#[trigger] new[j]).0.name@ != name;
        assert(old[i].0.name@ == name);
        assert forall|j: int| 0 <= j < i implies (#[trigger] old[j]).0.name@ != name by {
            assert(new[j].0.name@ != name);
        }
    }
}

pub(crate) proof fn lemma_occurrences_bound(names: Seq<Hostname>, name: Seq<char>, n: nat)
    ensures
        occurrences(names, name, n) <= n,
    decreases n,
{
    if n > 0 && n <= names.len() {
        lemma_occurrences_bound(names, name, (n - 1) as nat);
    }
}

/// Counts one more user of the group at `k`.
fn bump_count(groups: &mut Vec<(Group, usize)>, k: usize)
    requires
        k < old(groups)@.len(),
        old(groups)@[k as int].1 < usize::MAX,
    ensures
        final(groups)@ == old(groups)@.update(k as int, (old(groups)@[k as int].0, (old(groups)@[k as int].1 + 1) as usize)),
{
    let (g, c) = groups.remove(k);
    groups.insert(k, (g, c + 1));
    assert(groups@ =~= old(groups)@.update(k as int, (old(groups)@[k as int].0, (old(groups)@[k as int].1 + 1) as usize)));
}

proof fn lemma_counted_step(old_gs: Seq<(Group, usize)>, before: Seq<(Group, usize)>, gs: Seq<(Group, usize)>, assigned: Seq<Hostname>, a: nat, k: int)
    requires
        counted(old_gs, before, assigned, a),
        a < assigned.len(),
        0 <= k < before.len(),
        group_index(old_gs, assigned[a as int]@) == Some(k),
        gs == before.update(k, (before[k].0, (before[k].1 + 1) as usize)),
        before[k].1 + 1 <= usize::MAX,
    ensures
        counted(old_gs, gs, assigned, a + 1),
{
    assert forall|q: int| 0 <= q < old_gs.len() implies (#[trigger] gs[q]).1 == old_gs[q].1
        + if group_index(old_gs, old_gs[q].0.name@) == Some(q) { occurrences(assigned, old_gs[q].0.name@, a + 1) } else { 0 } by {
        assert(before[q].1 == old_gs[q].1
            + if group_index(old_gs, old_gs[q].0.name@) == Some(q) { occurrences(assigned, old_gs[q].0.name@, a) } else { 0 });
        assert(before[q].0 == old_gs[q].0);
        if q == k {
            assert(old_gs[k].0.name@ == assigned[a as int]@);
        } else if group_index(old_gs, old_gs[q].0.name@) == Some(q) {
            assert(old_gs[q].0.name@ != assigned[a as int]@);
        }
    }
    assert forall|q: int| 0 <= q < old_gs.len() implies (#[trigger] gs[q]).0 == old_gs[q].0 by {
        assert(before[q].0 == old_gs[q].0);
    }
}

proof fn lemma_extend_step(
    old_rs: Seq<Resource>,
    before: Seq<Resource>,
    after: Seq<Resource>,
    vars: Seq<(String, Node)>,
    old_gs: Seq<(Group, usize)>,
    assigned: Seq<Hostname>,
    a: int,
    k: int,
)
    requires
        0 <= a < assigned.len(),
        0 <= k < old_gs.len(),
        group_index(old_gs, assigned[a]@) == Some(k),
        extends(before, old_rs),
        forall|j: int| old_rs.len() <= j < before.len()
            ==> fresh(#[trigger] before[j]) && from_assigned_group(before[j], vars, old_gs, assigned),
        no_added_duplicate(before, old_rs.len() as int),
        extends(after, before),
        forall|j: int| before.len() <= j < after.len()
            ==> fresh(#[trigger] after[j]) && built_from(after[j], vars, old_gs[k].0.resources@),
        no_added_duplicate(after, before.len() as int),
    ensures
        extends(after, old_rs),
        forall|j: int| old_rs.len() <= j < after.len()
            ==> fresh(#[trigger] after[j]) && from_assigned_group(after[j], vars, old_gs, assigned),
        no_added_duplicate(after, old_rs.len() as int),
{
    assert forall|j: int| old_rs.len() <= j < after.len()
        implies fresh(#[trigger] after[j]) && from_assigned_group(after[j], vars, old_gs, assigned) by {
        if j < before.len() {
            assert(after[j] == before[j]);
        } else {
            assert(from_group(after[j], vars, old_gs, assigned[a]@));
        }
    }
    assert forall|x: int| 0 <= x < old_rs.len() implies #[trigger] after[x] == old_rs[x] by {
        assert(after[x] == before[x]);
    }
    assert forall|x: int, y: int| 0 <= x < y < after.len() && old_rs.len() <= y
        implies !same_resource(#[trigger] after[x], #[trigger] after[y]) by {
        if y < before.len() {
            assert(after[x] == before[x] && after[y] == before[y]);
        }
    }
}

proof fn lemma_inherit_step(
    c1: Client, old_rs: Seq<Resource>, rs_before: Seq<Resource>, or_before: Seq<(String, Hostname)>, rq_before: int, tr_before: int,
    vars: Seq<(String, Node)>, old_gs: Seq<(Group, usize)>, assigned: Seq<Hostname>, a: int, k: int,
)
    requires
        0 <= a < assigned.len(),
        0 <= k < old_gs.len(),
        group_index(old_gs, assigned[a]@) == Some(k),
        extends(rs_before, old_rs),
        extends(c1.resources@, rs_before),
        origins_cover(rs_before, old_rs.len() as int, or_before),
        all_inherited(rs_before, old_rs.len() as int, vars, old_gs, assigned, a),
        c1.temporary.origins@.len() == or_before.len() + c1.resources@.len() - rs_before.len(),
        c1.temporary.origins@.take(or_before.len() as int) == or_before,
        forall|q: int| or_before.len() <= q < c1.temporary.origins@.len()
            ==> (#[trigger] c1.temporary.origins@[q]).0@ == rid(c1.resources@[rs_before.len() + q - or_before.len()]),
        forall|i: int| 0 <= i < old_gs[k].0.resources@.len() ==> #[trigger] group_item_taken(c1, vars, old_gs[k].0.resources@, i,
            rq_before + i, tr_before + i, rs_before.len() as int, or_before),
    ensures
        origins_cover(c1.resources@, old_rs.len() as int, c1.temporary.origins@),
        all_inherited(c1.resources@, old_rs.len() as int, vars, old_gs, assigned, a + 1),
{
    reveal(origins_cover);
    reveal(all_inherited);
            let rs1 = c1.resources@;
            let or1 = c1.temporary.origins@;
            let items = old_gs[k].0.resources@;
            assert(assigned_items(old_gs, assigned, a) == items);
            assert forall|j: int| old_rs.len() <= j < rs1.len()
                implies has_origin(or1, rid(#[trigger] rs1[j])) by {
                if j < rs_before.len() {
                    assert(rs1[j] == rs_before[j]);
                    assert(has_origin(or_before, rid(rs_before[j])));
                    let o = choose|o: int| 0 <= o < or_before.len() && (#[trigger] or_before[o]).0@ == rid(rs_before[j]);
                    assert(or1.take(or_before.len() as int)[o] == or1[o]);
                    assert(or1[o].0@ == rid(rs1[j]));
                } else {
                    let o = or_before.len() + j - rs_before.len();
                    assert(or1[o].0@ == rid(rs1[rs_before.len() + o - or_before.len()]));
                }
            }
            assert forall|b: int, i: int| 0 <= b < a + 1 && 0 <= i < assigned_items(old_gs, assigned, b).len()
                implies #[trigger] inherited(rs1, old_rs.len() as int, vars, assigned_items(old_gs, assigned, b)[i]) by {
                let it = assigned_items(old_gs, assigned, b)[i];
                if b < a {
                    assert(inherited(rs_before, old_rs.len() as int, vars, it));
                    let x = choose|x: Resource| #[trigger] built_item(x, vars, it.parameters)
                        && ((exists|j: int| old_rs.len() <= j < rs_before.len() && #[trigger] rs_before[j] == x)
                            || (exists|j: int| 0 <= j < old_rs.len() && #[trigger] same_resource(rs_before[j], x)));
                    if exists|j: int| old_rs.len() <= j < rs_before.len() && #[trigger] rs_before[j] == x {
                        let j = choose|j: int| old_rs.len() <= j < rs_before.len() && #[trigger] rs_before[j] == x;
                        assert(rs1[j] == rs_before[j]);
                    } else {
                        let j = choose|j: int| 0 <= j < old_rs.len() && #[trigger] same_resource(rs_before[j], x);
                        assert(rs1[j] == rs_before[j]);
                    }
                } else {
                    assert(group_item_taken(c1, vars, items, i, rq_before + i, tr_before + i, rs_before.len() as int, or_before));
                    let x = choose|x: Resource| #[trigger] built_item(x, vars, items[i].parameters)
                        && c1.temporary.requires@[rq_before + i].0@ == rid(x)
                        && c1.temporary.requires@[rq_before + i].1@.len() == items[i].requires@.len()
                        && c1.temporary.triggers@[tr_before + i].0@ == rid(x)
                        && c1.temporary.triggers@[tr_before + i].1@.len() == items[i].triggers@.len()
                        && placed(rs1, rs_before.len() as int, or_before, x);
                    if exists|j: int| rs_before.len() <= j < rs1.len() && #[trigger] rs1[j] == x {
                        let j = choose|j: int| rs_before.len() <= j < rs1.len() && #[trigger] rs1[j] == x;
                        assert(old_rs.len() <= j);
                    } else {
                        let j = choose|j: int| 0 <= j < rs_before.len() && #[trigger] same_resource(rs1[j], x)
                            && forall|o: int| 0 <= o < or_before.len() ==> (#[trigger] or_before[o]).0@ != rid(rs1[j]);
                        if j >= old_rs.len() {
                            assert(rs1[j] == rs_before[j]);
                            assert(has_origin(or_before, rid(rs_before[j])));
                            let o = choose|o: int| 0 <= o < or_before.len() && (#[trigger] or_before[o]).0@ == rid(rs_before[j]);
                            assert(or_before[o].0@ != rid(rs1[j]));
                        }
                    }
                }
            }
        
}

impl Client {
    /// Adds the resources of the groups that the client is a member of, in
    /// the order of its groups, and counts for each group one more user.
    #[verifier::rlimit(100)]
    #[verifier::spinoff_prover]
    pub fn extend_from_groups(&mut self, groups: &mut Vec<(Group, usize)>) -> (r: Result<(), String>)
        requires
            forall|g: int, i: int| 0 <= g < old(groups)@.len() && 0 <= i < old(groups)@[g].0.resources@.len()
                ==> params_wf((#[trigger] old(groups)@[g].0.resources@[i]).parameters),
            forall|k: int| 0 <= k < old(groups)@.len() ==> (#[trigger] old(groups)@[k]).1 + old(self).assigned_groups@.len() <= usize::MAX,
        ensures
            final(self).name == old(self).name,
            final(self).api_key == old(self).api_key,
            final(self).assigned_groups == old(self).assigned_groups,
            final(self).variables == old(self).variables,
            final(self).temporary.predecessors == old(self).temporary.predecessors,
            final(groups)@.len() == old(groups)@.len(),
            forall|k: int| 0 <= k < old(groups)@.len() ==> (#[trigger] final(groups)@[k]).0 == old(groups)@[k].0,
            keeps_records(old(self).temporary, final(self).temporary),
            r is Ok && links_empty(old(self).temporary) && groups_state_no_links(old(groups)@) ==> links_empty(final(self).temporary),
            old(self).assigned_groups@.len() == 0 ==> r is Ok && final(self).resources == old(self).resources
                && final(self).temporary == old(self).temporary,
            r is Ok ==> counted(old(groups)@, final(groups)@, old(self).assigned_groups@, old(self).assigned_groups@.len()),
            r is Ok ==> forall|a: int| 0 <= a < old(self).assigned_groups@.len()
                ==> group_index(old(groups)@, (#[trigger] old(self).assigned_groups@[a])@) is Some,
            r is Ok ==> extends(final(self).resources@, old(self).resources@),
            r is Ok ==> forall|j: int| old(self).resources@.len() <= j < final(self).resources@.len()
                ==> fresh(#[trigger] final(self).resources@[j])
                && from_assigned_group(final(self).resources@[j], old(self).variables@, old(groups)@, old(self).assigned_groups@),
            r is Ok ==> no_added_duplicate(final(self).resources@, old(self).resources@.len() as int),
            r is Ok ==> all_inherited(final(self).resources@, old(self).resources@.len() as int, old(self).variables@,
                old(groups)@, old(self).assigned_groups@, old(self).assigned_groups@.len() as int),
            r matches Err(m) ==> (exists|a: int| 0 <= a < old(self).assigned_groups@.len()
                    && group_index(old(groups)@, (#[trigger] old(self).assigned_groups@[a])@) is None
                    && m@ == unknown_group_message(old(self).assigned_groups@[a]@))
                || (exists|g: int, i: int| 0 <= g < old(groups)@.len() && 0 <= i < old(groups)@[g].0.resources@.len()
                    && assigned_index(old(groups)@, old(self).assigned_groups@, g)
                    && resource_steps(old(self).variables@, (#[trigger] old(groups)@[g].0.resources@[i]).parameters)
                        == Err::<(), Seq<char>>(m@))
                || (exists|g: int, i: int, j: int, o: int| 0 <= g < old(groups)@.len() && 0 <= i < old(groups)@[g].0.resources@.len()
                    && assigned_index(old(groups)@, old(self).assigned_groups@, g)
                    && #[trigger] clash(final(self).resources@, final(self).temporary.origins@, j, o, old(self).variables@,
                        old(groups)@[g].0.resources@[i].parameters, m@)),
    {
        let ghost old_rs = self.resources@;
        let ghost old_gs = groups@;
        let ghost vars = self.variables@;
        let ghost assigned = self.assigned_groups@;
        let mut a: usize = 0;
        proof {
            reveal(origins_cover);
            reveal(all_inherited);
        }
        while a < self.assigned_groups.len()
            invariant
                a <= assigned.len(),
                assigned == self.assigned_groups@,
                old_gs == old(groups)@,
                old_rs == old(self).resources@,
                vars == old(self).variables@,
                self.name == old(self).name,
                self.api_key == old(self).api_key,
                self.assigned_groups == old(self).assigned_groups,
                self.variables == old(self).variables,
                self.temporary.predecessors == old(self).temporary.predecessors,
                forall|g: int, i: int| 0 <= g < old_gs.len() && 0 <= i < old_gs[g].0.resources@.len()
                    ==> params_wf((#[trigger] old_gs[g].0.resources@[i]).parameters),
                forall|k: int| 0 <= k < old_gs.len() ==> (#[trigger] old_gs[k]).1 + assigned.len() <= usize::MAX,
                counted(old_gs, groups@, assigned, a as nat),
                forall|b: int| 0 <= b < a ==> group_index(old_gs, (#[trigger] assigned[b])@) is Some,
                extends(self.resources@, old_rs),
                forall|j: int| old_rs.len() <= j < self.resources@.len()
                    ==> fresh(#[trigger] self.resources@[j])
                    && from_assigned_group(self.resources@[j], vars, old_gs, assigned),
                no_added_duplicate(self.resources@, old_rs.len() as int),
                origins_cover(self.resources@, old_rs.len() as int, self.temporary.origins@),
                all_inherited(self.resources@, old_rs.len() as int, vars, old_gs, assigned, a as int),
                a == 0 ==> self.resources == old(self).resources && self.temporary == old(self).temporary,
                keeps_records(old(self).temporary, self.temporary),
                links_empty(old(self).temporary) && groups_state_no_links(old_gs) ==> links_empty(self.temporary),
            decreases assigned.len() - a,
        {
            proof {
                lemma_group_index_stays(old_gs, groups@, assigned[a as int]@);
            }
            let k = match find_group(groups, &self.assigned_groups[a]) {
                Some(k) => k,
                None => {
                    let m = crate::text::concat3("reference to unknown group `", self.assigned_groups[a].as_str(), "`");
                    return Err(m);
                },
            };
            let ghost gs_before = groups@;
            proof {
                lemma_occurrences_bound(assigned, old_gs[k as int].0.name@, a as nat);
                assert(gs_before[k as int].0 == old_gs[k as int].0);
            }
            bump_count(groups, k);
            proof {
                lemma_counted_step(old_gs, gs_before, groups@, assigned, a as nat, k as int);
            }
            let ghost rs_before = self.resources@;
            let ghost or_before = self.temporary.origins@;
            let ghost rq_before = self.temporary.requires@.len();
            let ghost tr_before = self.temporary.triggers@.len();
            let ghost rq_seq = self.temporary.requires@;
            let ghost tr_seq = self.temporary.triggers@;
            match self.take_group_resources(&groups[k].0, &self.assigned_groups[a].clone()) {
                Ok(()) => {},
                Err(m) => {
                    proof {
                        let items = groups@[k as int].0.resources@;
                        assert(items == old_gs[k as int].0.resources@);
                        assert(group_index(old_gs, assigned[a as int]@) == Some(k as int));
                        assert(assigned_index(old_gs, assigned, k as int));
                        if exists|i: int| 0 <= i < items.len() && resource_steps(vars, (#[trigger] items[i]).parameters) == Err::<(), Seq<char>>(m@) {
                            let i = choose|i: int| 0 <= i < items.len() && resource_steps(vars, (#[trigger] items[i]).parameters) == Err::<(), Seq<char>>(m@);
                            assert(resource_steps(vars, old_gs[k as int].0.resources@[i].parameters) == Err::<(), Seq<char>>(m@));
                        } else {
                            let (i, j, o) = choose|i: int, j: int, o: int| 0 <= i < items.len() && #[trigger] clash(self.resources@,
                                self.temporary.origins@, j, o, vars, items[i].parameters, m@);
                            assert(clash(self.resources@, self.temporary.origins@, j, o, vars, old_gs[k as int].0.resources@[i].parameters, m@));
                        }
                    }
                    return Err(m);
                },
            }
            proof {
                assert(groups@[k as int].0 == old_gs[k as int].0);
                if links_empty(old(self).temporary) && groups_state_no_links(old_gs) {
                    assert(states_no_links(old_gs[k as int].0.resources@));
                    assert forall|q: int| 0 <= q < rq_before implies (#[trigger] self.temporary.requires@[q]).1@.len() == 0 by {
                        assert(self.temporary.requires@[q] == self.temporary.requires@.take(rq_before as int)[q]);
                        assert(self.temporary.requires@[q] == rq_seq[q]);
                    }
                    assert forall|q: int| 0 <= q < tr_before implies (#[trigger] self.temporary.triggers@[q]).1@.len() == 0 by {
                        assert(self.temporary.triggers@[q] == self.temporary.triggers@.take(tr_before as int)[q]);
                        assert(self.temporary.triggers@[q] == tr_seq[q]);
                    }
                    lemma_links_after_group(*self, vars, old_gs[k as int].0.resources@, rq_before as int, tr_before as int,
                        rs_before.len() as int, or_before);
                }
                assert(group_index(old_gs, assigned[a as int]@) == Some(k as int));
                lemma_extend_step(old_rs, rs_before, self.resources@, vars, old_gs, assigned, a as int, k as int);
                lemma_inherit_step(*self, old_rs, rs_before, or_before, rq_before as int, tr_before as int, vars, old_gs, assigned, a as int, k as int);
            }
            a = a + 1;
        }
        Ok(())
    }
}

/// Whether group `g` of `gs` is one that `names` assigns.
pub open spec fn assigned_index(gs: Seq<(Group, usize)>, names: Seq<Hostname>, g: int) -> bool {
    exists|a: int| 0 <= a < names.len() && group_index(gs, (#[trigger] names[a])@) == Some(g)
}

/// Whether `v` is `vars` with the variable `hostname` set to `name` in front.
pub open spec fn hostname_set(v: Seq<(String, Node)>, vars: Seq<(String, Node)>, name: Seq<char>) -> bool {
    &&& v.len() == vars.len() + 1
    &&& v[0].0@ == "hostname"@
    &&& v[0].1 matches Node::String(s) && s@ == name
    &&& v.skip(1) == vars
}

/// The message of the first resource whose parameters cannot be read.
pub open spec fn first_failure(vars: Seq<(String, Node)>, items: Seq<UnresolvedResource>) -> Option<Seq<char>>
    decreases items.len(),
{
    if items.len() == 0 {
        None
    } else {
        match resource_steps(vars, items[0].parameters) {
            Err(m) => Some(m),
            Ok(_) => first_failure(vars, items.drop_first()),
        }
    }
}

/// Whether a relation free of loops holds every dependency between the
/// resources that their parameters call for.
pub open spec fn dependencies_acyclic(rs: Seq<Resource>) -> bool {
    exists|g: Seq<Edge>| acyclic(g) && forall|i: int, j: int| 0 <= i < rs.len() && 0 <= j < rs.len() && i != j
        && #[trigger] must_depend(rs[i], rs[j]) ==> g.contains((rid(rs[i]), rid(rs[j])))
}

/// Two resources of the same kind with the same parameters agree on all
/// that is stated of their parameters.
pub proof fn lemma_same_params_agree(a: Resource, b: Resource)
    requires
        same_params(a, b),
    ensures
        rid(a) == rid(b),
        meta(a) == meta(b),
        variant_kind(a) == variant_kind(b),
        managed_path(a) == managed_path(b),
        unique_name(a) == unique_name(b),
        host_address(a) == host_address(b),
        a is Host <==> b is Host,
        forall|vars: Seq<(String, Node)>, p: UnresolvedParameters| #[trigger] resource_built(a, vars, p) == resource_built(b, vars, p),
        forall|o: Resource| #[trigger] same_resource(a, o) == same_resource(b, o),
        forall|o: Resource| #[trigger] same_resource(o, a) == same_resource(o, b),
        forall|o: Resource| #[trigger] must_depend(a, o) == must_depend(b, o),
        forall|o: Resource| #[trigger] must_depend(o, a) == must_depend(o, b),
{
    reveal(same_resource);
    reveal(must_depend);
}

/// Whether another resource of `rs` has the id of the one at `k`.
pub open spec fn id_repeated(rs: Seq<Resource>, k: int) -> bool {
    exists|j: int| 0 <= j < rs.len() && j != k && rid(#[trigger] rs[j]) == rid(rs[k])
}

/// The message for a catalog in which the id of resource `r` repeats.
pub open spec fn repeated_id_message(r: Resource) -> Seq<char> {
    "duplicate resource `"@ + repr(r) + "`"@
}

/// The position of a resource whose identifier another one has too.
fn duplicate_id(rs: &Vec<Resource>) -> (r: Option<usize>)
    ensures
        r is None ==> distinct_ids(rs@),
        r matches Some(k) ==> k < rs@.len() && id_repeated(rs@, k as int),
        r is Some ==> !distinct_ids(rs@),
{
    let mut i: usize = 0;
    while i < rs.len()
        invariant
            i <= rs.len(),
            forall|a: int, b: int| 0 <= a < i && 0 <= b < rs@.len() && a != b ==> rid(#[trigger] rs@[a]) != rid(#[trigger] rs@[b]),
        decreases rs.len() - i,
    {
        let mut j: usize = 0;
        while j < rs.len()
            invariant
                i < rs.len(),
                j <= rs.len(),
                forall|a: int, b: int| 0 <= a < i && 0 <= b < rs@.len() && a != b ==> rid(#[trigger] rs@[a]) != rid(#[trigger] rs@[b]),
                forall|b: int| 0 <= b < j && b != i ==> rid(rs@[i as int]) != rid(#[trigger] rs@[b]),
            decreases rs.len() - j,
        {
            if j != i && str_eq(rs[i].id(), rs[j].id()) {
                assert(rid(rs@[i as int]) == rid(rs@[j as int]));
                assert(id_repeated(rs@, i as int));
                return Some(i);
            }
            j = j + 1;
        }
        i = i + 1;
    }
    None
}

/// The paths of the `file` resources among `rs`, in order.
pub open spec fn file_paths_of(rs: Seq<Resource>) -> Seq<Seq<char>>
    decreases rs.len(),
{
    if rs.len() == 0 {
        seq![]
    } else {
        file_paths_of(rs.drop_last()) + match rs.last() {
            Resource::File(f) => seq![f.parameters.path@],
            _ => Seq::<Seq<char>>::empty(),
        }
    }
}

/// The paths of the `file` resources.
fn file_paths(rs: &Vec<Resource>) -> (r: Vec<String>)
    ensures
        texts(r@) == file_paths_of(rs@),
{
    let mut out: Vec<String> = Vec::new();
    let mut i: usize = 0;
    while i < rs.len()
        invariant
            i <= rs.len(),
            texts(out@) == file_paths_of(rs@.take(i as int)),
        decreases rs.len() - i,
    {
        let ghost before = out@;
        assert(rs@.take(i + 1).drop_last() =~= rs@.take(i as int));
        if let Some(f) = rs[i].as_file() {
            out.push(f.parameters.path.as_str().to_owned());
            assert(texts(out@) =~= texts(before).push(f.parameters.path@));
        }
        i = i + 1;
    }
    assert(rs@.take(rs.len() as int) =~= rs@);
    out
}

/// A message prefixed with a text between backticks.
fn prefixed(open: &str, name: &str, close: &str, m: &str) -> (r: String)
    ensures
        r@ == open@ + name@ + close@ + m@,
{
    let parts = [open, name, close, m];
    let r = concat_all(&parts);
    proof {
        assert(str_views(parts@) =~= seq![open@, name@, close@, m@]);
        reveal_with_fuel(join_all, 5);
    }
    r
}

proof fn lemma_first_failure_step(vars: Seq<(String, Node)>, items: Seq<UnresolvedResource>, i: int)
    requires
        0 <= i < items.len(),
    ensures
        first_failure(vars, items.skip(i)) == match resource_steps(vars, items[i].parameters) {
            Err(m) => Some(m),
            Ok(_) => first_failure(vars, items.skip(i + 1)),
        },
{
    assert(items.skip(i).drop_first() =~= items.skip(i + 1));
    assert(items.skip(i)[0] == items[i]);
}

/// Entries recorded for the resources of a group that state no dependency
/// or trigger are empty.
proof fn lemma_links_after_group(c: Client, vars: Seq<(String, Node)>, items: Seq<UnresolvedResource>, rq: int, tr: int,
    n: int, origins: Seq<(String, Hostname)>)
    requires
        states_no_links(items),
        0 <= rq && 0 <= tr,
        c.temporary.requires@.len() == rq + items.len(),
        c.temporary.triggers@.len() == tr + items.len(),
        forall|q: int| 0 <= q < rq ==> (#[trigger] c.temporary.requires@[q]).1@.len() == 0,
        forall|q: int| 0 <= q < tr ==> (#[trigger] c.temporary.triggers@[q]).1@.len() == 0,
        forall|i: int| 0 <= i < items.len() ==> #[trigger] group_item_taken(c, vars, items, i, rq + i, tr + i, n, origins),
    ensures
        links_empty(c.temporary),
{
    assert forall|q: int| 0 <= q < c.temporary.requires@.len() implies (#[trigger] c.temporary.requires@[q]).1@.len() == 0 by {
        if q >= rq {
            let i = q - rq;
            assert(group_item_taken(c, vars, items, i, rq + i, tr + i, n, origins));
            assert(items[i].requires@.len() == 0);
        }
    }
    assert forall|q: int| 0 <= q < c.temporary.triggers@.len() implies (#[trigger] c.temporary.triggers@[q]).1@.len() == 0 by {
        if q >= tr {
            let i = q - tr;
            assert(group_item_taken(c, vars, items, i, rq + i, tr + i, n, origins));
            assert(items[i].triggers@.len() == 0);
        }
    }
}

/// An empty catalog passes validation when nothing has been recorded.
proof fn lemma_empty_consistent(t: ValidationHelpers)
    requires
        t.predecessors@.len() == 0,
        t.paths@.len() == 0 && t.group_names@.len() == 0 && t.user_names@.len() == 0,
        t.apt_package_names@.len() == 0 && t.execute_names@.len() == 0 && t.host_ip_addresses@.len() == 0,
    ensures
        catalog_consistent(t, Seq::<Resource>::empty()),
{
    let h = Seq::<Edge>::empty();
    lemma_empty_acyclic();
    assert(subgraph(t.predecessors@, h));
    assert(all_links_in(h, t, Seq::<Resource>::empty()));
}

proof fn lemma_empty_acyclic()
    ensures
        acyclic(Seq::<Edge>::empty()),
{
    assert forall|x: Seq<char>| !#[trigger] reaches(Seq::<Edge>::empty(), x, x) by {
        if reaches(Seq::<Edge>::empty(), x, x) {
            let p = choose|p: Seq<Seq<char>>| #[trigger] is_walk(Seq::<Edge>::empty(), p) && p[0] == x && p.last() == x;
            let i: int = 0;
            assert(Seq::<Edge>::empty().contains((p[i], p[i + 1])));
            assert(false);
        }
    }
}

/// What a client built from its configuration holds, with `v` its
/// variables and `n` the number of its own resources. Validation leaves the
/// catalog turned by one, its first resource last; the clauses speak of the
/// catalog in the order in which it was built.
pub open spec fn client_built(c: Client, u: UnresolvedClient, old_gs: Seq<(Group, usize)>, v: Seq<(String, Node)>) -> bool {
    let rs = unrotated(c.resources@);
    let n = u.resources@.len();
    &&& c.name == u.name
    &&& c.api_key == u.api_key
    &&& c.assigned_groups == u.assigned_groups
    &&& c.variables@ == v
    &&& n <= rs.len()
    &&& forall|i: int| 0 <= i < n ==> #[trigger] resource_built(rs[i], v, u.resources@[i].parameters)
    &&& forall|j: int| n <= j < rs.len() ==> #[trigger] from_assigned_group(rs[j], v, old_gs, u.assigned_groups@)
    &&& no_added_duplicate(rs, n as int)
    &&& distinct_ids(rs)
    &&& forall|i: int, j: int| 0 <= i < j < rs.len() ==> #[trigger] unique_pair(rs, i, j)
    &&& dependencies_acyclic(rs)
    &&& helpers_empty(c.temporary)
    &&& forall|i: int, j: int| 0 <= i < rs.len() && 0 <= j < rs.len() && i != j ==> #[trigger] recorded_links(rs, rs, i, j)
    &&& forall|i: int| 0 <= i < rs.len() ==> #[trigger] holds_children(rs, i)
    &&& forall|w: Seq<int>| #[trigger] requires_walk(rs, w) ==> w[0] != w.last()
    &&& forall|b: int, i: int| 0 <= b < u.assigned_groups@.len() && 0 <= i < assigned_items(old_gs, u.assigned_groups@, b).len()
        ==> #[trigger] inherited_into(rs, n as int, v, assigned_items(old_gs, u.assigned_groups@, b)[i])
}

proof fn lemma_validated_catalog(
    rs0: Seq<Resource>,
    rs: Seq<Resource>,
    own: Seq<Resource>,
    t: ValidationHelpers,
    v: Seq<(String, Node)>,
    u: UnresolvedClient,
    gs0: Seq<(Group, usize)>,
)
    requires
        rotated(rs, rs0, rs0.len() as int),
        acyclic(t.predecessors@),
        forall|i: int| 0 <= i < rs0.len() ==> #[trigger] validated(rs0, t, i),
        forall|i: int, j: int| 0 <= i < j < rs0.len() ==> #[trigger] unique_pair(rs0, i, j),
        distinct_ids(rs0),
        own.len() == u.resources@.len(),
        extends(rs0, own),
        forall|k: int| 0 <= k < own.len() ==> #[trigger] resource_built(own[k], v, u.resources@[k].parameters),
        forall|j: int| own.len() <= j < rs0.len() ==> #[trigger] from_assigned_group(rs0[j], v, gs0, u.assigned_groups@),
        no_added_duplicate(rs0, own.len() as int),
        forall|k: int| 0 <= k < rs0.len() ==> fresh(#[trigger] rs0[k]),
        forall|i: int, j: int| 0 <= i < rs0.len() && 0 <= j < rs0.len() && i != j ==> #[trigger] recorded_links(rs, rs0, i, j),
        forall|i: int| 0 <= i < rs0.len() ==> #[trigger] recorded_children(rs, rs0, i),
        all_inherited(rs0, own.len() as int, v, gs0, u.assigned_groups@, u.assigned_groups@.len() as int),
    ensures
        forall|b: int, i: int| 0 <= b < u.assigned_groups@.len() && 0 <= i < assigned_items(gs0, u.assigned_groups@, b).len()
            ==> #[trigger] inherited_into(rs, own.len() as int, v, assigned_items(gs0, u.assigned_groups@, b)[i]),
        forall|i: int, j: int| 0 <= i < rs.len() && 0 <= j < rs.len() && i != j ==> #[trigger] recorded_links(rs, rs, i, j),
        forall|i: int| 0 <= i < rs.len() ==> #[trigger] holds_children(rs, i),
        rs.len() == rs0.len(),
        forall|i: int| 0 <= i < u.resources@.len() ==> #[trigger] resource_built(rs[i], v, u.resources@[i].parameters),
        forall|j: int| u.resources@.len() <= j < rs.len() ==> #[trigger] from_assigned_group(rs[j], v, gs0, u.assigned_groups@),
        no_added_duplicate(rs, u.resources@.len() as int),
        distinct_ids(rs),
        forall|i: int, j: int| 0 <= i < j < rs.len() ==> #[trigger] unique_pair(rs, i, j),
        dependencies_acyclic(rs),
{
    let n = rs0.len();
    assert forall|p: int| 0 <= p < n implies same_params(#[trigger] rs[p], rs0[p]) by {
        assert(same_params(rs[n - n + p], rs0[p]));
    }
    reveal(all_inherited);
    assert forall|b: int, i: int| 0 <= b < u.assigned_groups@.len() && 0 <= i < assigned_items(gs0, u.assigned_groups@, b).len()
        implies #[trigger] inherited_into(rs, own.len() as int, v, assigned_items(gs0, u.assigned_groups@, b)[i]) by {
        let it = assigned_items(gs0, u.assigned_groups@, b)[i];
        assert(inherited(rs0, own.len() as int, v, it));
        let x = choose|x: Resource| #[trigger] built_item(x, v, it.parameters)
            && ((exists|j: int| own.len() <= j < rs0.len() && #[trigger] rs0[j] == x)
                || (exists|j: int| 0 <= j < own.len() && #[trigger] same_resource(rs0[j], x)));
        if exists|j: int| own.len() <= j < rs0.len() && #[trigger] rs0[j] == x {
            let j = choose|j: int| own.len() <= j < rs0.len() && #[trigger] rs0[j] == x;
            assert(same_params(rs[j], rs0[j]));
            assert(same_params(rs[j], x));
        } else {
            let j = choose|j: int| 0 <= j < own.len() && #[trigger] same_resource(rs0[j], x);
            lemma_same_params_agree(rs0[j], rs[j]);
            assert(same_params(rs[j], rs0[j]));
            assert(same_resource(rs[j], x));
        }
    }
    assert forall|i: int, j: int| 0 <= i < rs.len() && 0 <= j < rs.len() && i != j implies #[trigger] recorded_links(rs, rs, i, j) by {
        assert(recorded_links(rs, rs0, i, j));
        lemma_same_params(rs[i], rs0[i]);
        lemma_same_params(rs[j], rs0[j]);
        assert(must_depend(rs[i], rs[j]) == must_depend(rs0[i], rs[j]));
        assert(must_depend(rs0[i], rs[j]) == must_depend(rs0[i], rs0[j]));
    }
    assert forall|i: int| 0 <= i < rs.len() implies #[trigger] holds_children(rs, i) by {
        assert(recorded_children(rs, rs0, i));
        if rs[i] is Directory {
            let a = rs0.skip(i + 1) + rs0.take(i);
            let b = rs.skip(i + 1) + rs.take(i);
            assert forall|p: int| 0 <= p < a.len() implies crate::server::client::node_of(#[trigger] a[p]) == crate::server::client::node_of(b[p]) by {
                if p < n - i - 1 {
                    assert(a[p] == rs0[i + 1 + p] && b[p] == rs[i + 1 + p]);
                    assert(same_params(rs[i + 1 + p], rs0[i + 1 + p]));
                } else {
                    assert(a[p] == rs0[p - (n - i - 1)] && b[p] == rs[p - (n - i - 1)]);
                    assert(same_params(rs[p - (n - i - 1)], rs0[p - (n - i - 1)]));
                }
            }
            let dir = crate::server::client::managed_path(rs0[i])->0;
            lemma_children_same(a, b, dir, 0);
            lemma_children_same(a, b, dir, 1);
            lemma_children_same(a, b, dir, 2);
            assert(fresh(rs0[i]));
            assert(child_views(child_nodes(rs0[i])) =~= Seq::<(int, Seq<char>)>::empty());
            assert(child_views(child_nodes(rs0[i])) + directory_children(a, dir) =~= directory_children(a, dir));
            assert(same_params(rs[i], rs0[i]));
        }
    }
    assert forall|x: int| 0 <= x < u.resources@.len() implies #[trigger] resource_built(rs[x], v, u.resources@[x].parameters) by {
        lemma_same_params_agree(rs0[x], rs[x]);
        assert(rs0[x] == own[x]);
        assert(resource_built(own[x], v, u.resources@[x].parameters));
    }
    assert forall|j: int| u.resources@.len() <= j < rs.len() implies #[trigger] from_assigned_group(rs[j], v, gs0, u.assigned_groups@) by {
        lemma_same_params_agree(rs0[j], rs[j]);
        assert(from_assigned_group(rs0[j], v, gs0, u.assigned_groups@));
        let b = choose|b: int| 0 <= b < u.assigned_groups@.len() && from_group(rs0[j], v, gs0, (#[trigger] u.assigned_groups@[b])@);
        let g = group_index(gs0, u.assigned_groups@[b]@)->0;
        let q = choose|q: int| 0 <= q < gs0[g].0.resources@.len() && resource_built(rs0[j], v, #[trigger] gs0[g].0.resources@[q].parameters);
        assert(resource_built(rs[j], v, gs0[g].0.resources@[q].parameters));
        assert(from_group(rs[j], v, gs0, u.assigned_groups@[b]@));
    }
    assert forall|x: int, y: int| 0 <= x < y < rs.len() && u.resources@.len() <= y
        implies !same_resource(#[trigger] rs[x], #[trigger] rs[y]) by {
        lemma_same_params_agree(rs0[x], rs[x]);
        lemma_same_params_agree(rs0[y], rs[y]);
        assert(!same_resource(rs0[x], rs0[y]));
    }
    assert forall|x: int, y: int| 0 <= x < rs.len() && 0 <= y < rs.len() && x != y
        implies rid(#[trigger] rs[x]) != rid(#[trigger] rs[y]) by {
        lemma_same_params_agree(rs0[x], rs[x]);
        lemma_same_params_agree(rs0[y], rs[y]);
        assert(rid(rs0[x]) != rid(rs0[y]));
    }
    assert forall|x: int, y: int| 0 <= x < y < rs.len() implies #[trigger] unique_pair(rs, x, y) by {
        lemma_same_params_agree(rs0[x], rs[x]);
        lemma_same_params_agree(rs0[y], rs[y]);
        assert(unique_pair(rs0, x, y));
    }
    let g = t.predecessors@;
    assert forall|x: int, y: int| 0 <= x < rs.len() && 0 <= y < rs.len() && x != y
        && #[trigger] must_depend(rs[x], rs[y]) implies g.contains((rid(rs[x]), rid(rs[y]))) by {
        lemma_same_params_agree(rs0[x], rs[x]);
        lemma_same_params_agree(rs0[y], rs[y]);
        assert(validated(rs0, t, x));
        assert(must_depend(rs0[x], rs0[y]));
    }
}

/// Whether `t1` records the same paths, names and addresses as `t0`.
pub open spec fn keeps_records(t0: ValidationHelpers, t1: ValidationHelpers) -> bool {
    &&& t1.paths == t0.paths
    &&& t1.execute_names == t0.execute_names
    &&& t1.file_paths == t0.file_paths
    &&& t1.host_ip_addresses == t0.host_ip_addresses
    &&& t1.group_names == t0.group_names
    &&& t1.user_names == t0.user_names
    &&& t1.apt_package_names == t0.apt_package_names
}

/// Whether every entry of dependencies and of triggers in `t` is empty.
pub open spec fn links_empty(t: ValidationHelpers) -> bool {
    &&& forall|q: int| 0 <= q < t.requires@.len() ==> (#[trigger] t.requires@[q]).1@.len() == 0
    &&& forall|q: int| 0 <= q < t.triggers@.len() ==> (#[trigger] t.triggers@[q]).1@.len() == 0
}

/// Whether none of `items` states a dependency or a trigger.
pub open spec fn states_no_links(items: Seq<UnresolvedResource>) -> bool {
    forall|i: int| 0 <= i < items.len() ==> (#[trigger] items[i]).requires@.len() == 0 && items[i].triggers@.len() == 0
}

/// Whether none of the resources of `gs` states a dependency or a trigger.
pub open spec fn groups_state_no_links(gs: Seq<(Group, usize)>) -> bool {
    forall|g: int| 0 <= g < gs.len() ==> states_no_links((#[trigger] gs[g]).0.resources@)
}

/// Whether `t1` holds what `t0` holds but for the dependencies and triggers
/// stated, which may have grown.
pub open spec fn only_links_added(t0: ValidationHelpers, t1: ValidationHelpers) -> bool {
    &&& t1.predecessors == t0.predecessors
    &&& t1.origins == t0.origins
    &&& t1.paths == t0.paths
    &&& t1.execute_names == t0.execute_names
    &&& t1.file_paths == t0.file_paths
    &&& t1.host_ip_addresses == t0.host_ip_addresses
    &&& t1.group_names == t0.group_names
    &&& t1.user_names == t0.user_names
    &&& t1.apt_package_names == t0.apt_package_names
}

/// Builds resources from their parameters, and records the dependencies
/// and triggers that each states.
#[verifier::rlimit(50)]
#[verifier::spinoff_prover]
fn build_resources(items: &Vec<UnresolvedResource>, vars: &Vec<(String, Node)>, temporary: &mut ValidationHelpers) -> (r: Result<Vec<Resource>, String>)
    requires
        forall|i: int| 0 <= i < items@.len() ==> params_wf((#[trigger] items@[i]).parameters),
    ensures
        final(temporary).predecessors == old(temporary).predecessors,
        only_links_added(*old(temporary), *final(temporary)),
        links_empty(*old(temporary)) && states_no_links(items@) ==> links_empty(*final(temporary)),
        r is Ok ==> final(temporary).requires@.len() == old(temporary).requires@.len() + items@.len()
            && final(temporary).triggers@.len() == old(temporary).triggers@.len() + items@.len(),
        match first_failure(vars@, items@) {
            Some(m) => r matches Err(e) && e@ == m,
            None => r matches Ok(rs) && rs@.len() == items@.len()
                && forall|k: int| 0 <= k < items@.len() ==> #[trigger] resource_built(rs@[k], vars@, items@[k].parameters)
                    && fresh(rs@[k]),
        },
{
    let mut out: Vec<Resource> = Vec::new();
    let mut i: usize = 0;
    proof {
        assert(items@.skip(0) =~= items@);
    }
    while i < items.len()
        invariant
            i <= items@.len(),
            forall|i: int| 0 <= i < items@.len() ==> params_wf((#[trigger] items@[i]).parameters),
            temporary.predecessors == old(temporary).predecessors,
            only_links_added(*old(temporary), *temporary),
            links_empty(*old(temporary)) && states_no_links(items@) ==> links_empty(*temporary),
            temporary.requires@.len() == old(temporary).requires@.len() + i,
            temporary.triggers@.len() == old(temporary).triggers@.len() + i,
            out@.len() == i,
            forall|k: int| 0 <= k < i ==> #[trigger] resource_built(out@[k], vars@, items@[k].parameters) && fresh(out@[k]),
            first_failure(vars@, items@) == first_failure(vars@, items@.skip(i as int)),
        decreases items@.len() - i,
    {
        proof {
            lemma_first_failure_step(vars@, items@, i as int);
        }
        let res = match Resource::try_from(&items[i], vars) {
            Ok(x) => x,
            Err(m) => {
                return Err(m);
            },
        };
        let id = res.id().to_owned();
        let ghost t_before = *temporary;
        temporary.requires.push((id.clone(), copy_dependencies(&items[i].requires)));
        temporary.triggers.push((id, copy_triggers(&items[i].triggers)));
        proof {
            if links_empty(*old(temporary)) && states_no_links(items@) {
                assert(items@[i as int].requires@.len() == 0 && items@[i as int].triggers@.len() == 0);
                assert forall|q: int| 0 <= q < temporary.requires@.len() implies (#[trigger] temporary.requires@[q]).1@.len() == 0 by {
                    if q < t_before.requires@.len() {
                        assert(temporary.requires@[q] == t_before.requires@[q]);
                    }
                }
                assert forall|q: int| 0 <= q < temporary.triggers@.len() implies (#[trigger] temporary.triggers@[q]).1@.len() == 0 by {
                    if q < t_before.triggers@.len() {
                        assert(temporary.triggers@[q] == t_before.triggers@[q]);
                    }
                }
            }
        }
        let ghost before = out@;
        out.push(res);
        proof {
            assert forall|k: int| 0 <= k < i + 1 implies #[trigger] resource_built(out@[k], vars@, items@[k].parameters)
                && fresh(out@[k]) by {
                if k < i {
                    assert(out@[k] == before[k]);
                }
            }
        }
        i = i + 1;
    }
    proof {
        assert(items@.skip(items@.len() as int).len() == 0);
    }
    Ok(out)
}

/// Whether `m` starts with `p`.
pub open spec fn has_prefix(m: Seq<char>, p: Seq<char>) -> bool {
    p.len() <= m.len() && m.take(p.len() as int) == p
}

/// Whether message `m` is about client `name`: it starts with the client,
/// or with the client's resources.
pub open spec fn client_error(m: Seq<char>, name: Seq<char>) -> bool {
    has_prefix(m, "`"@ + name + "`>"@) || has_prefix(m, "`client["@ + name + "]`>"@)
}

/// What building a client gives with `v` its variables: the message of its
/// first resource that cannot be built, or a client built from its
/// configuration, with the groups' counts of clients grown.
/// Whether the catalog `rs`, with the helper collections `t`, is one that
/// building client `u` with the groups `gs` and the variables `v` can give
/// before validation: its own resources built in order, then resources of
/// its groups, none the same as one before, every resource of its groups
/// standing in it, all with empty relationships; the paths of its files
/// recorded, and no predecessor, other path, name or address yet; and, where
/// no resource states a dependency or a trigger, none recorded. Which ids
/// were drawn at random is left open.
pub open spec fn assembled(rs: Seq<Resource>, t: ValidationHelpers, u: UnresolvedClient, gs: Seq<(Group, usize)>,
    v: Seq<(String, Node)>) -> bool {
    let n = u.resources@.len() as int;
    &&& n <= rs.len()
    &&& forall|i: int| 0 <= i < n ==> resource_built(#[trigger] rs[i], v, u.resources@[i].parameters) && fresh(rs[i])
    &&& forall|j: int| n <= j < rs.len() ==> fresh(#[trigger] rs[j]) && from_assigned_group(rs[j], v, gs, u.assigned_groups@)
    &&& no_added_duplicate(rs, n)
    &&& all_inherited(rs, n, v, gs, u.assigned_groups@, u.assigned_groups@.len() as int)
    &&& t.predecessors@.len() == 0
    &&& texts(t.file_paths@) == file_paths_of(rs)
    &&& t.paths@.len() == 0 && t.group_names@.len() == 0 && t.user_names@.len() == 0
    &&& t.apt_package_names@.len() == 0 && t.execute_names@.len() == 0 && t.host_ip_addresses@.len() == 0
    &&& states_no_links(u.resources@) && groups_state_no_links(gs) ==> links_empty(t)
}

/// Why building client `u` with the groups `gs` and the variables `v` may
/// be refused with `m`: one of its own resources cannot be built; a group
/// it names is undefined; a resource of a group it names cannot be built; a
/// resource of a group it names is the same as one that another group added; the catalog
/// built gives a resource the id of another, which the message shows; or,
/// its ids distinct, the catalog does not validate.
pub open spec fn client_failure(m: Seq<char>, u: UnresolvedClient, gs: Seq<(Group, usize)>, v: Seq<(String, Node)>) -> bool {
    let pc = "`client["@ + u.name@ + "]`>"@;
    ||| first_failure(v, u.resources@) matches Some(e) && m == "`"@ + u.name@ + "`>"@ + e
    ||| exists|a: int| 0 <= a < u.assigned_groups@.len() && group_index(gs, (#[trigger] u.assigned_groups@[a])@) is None
        && m == pc + unknown_group_message(u.assigned_groups@[a]@)
    ||| exists|g: int, i: int| 0 <= g < gs.len() && 0 <= i < gs[g].0.resources@.len() && assigned_index(gs, u.assigned_groups@, g)
        && (resource_steps(v, (#[trigger] gs[g].0.resources@[i]).parameters) matches Err(e) && m == pc + e)
    ||| exists|g: int, i: int, rs: Seq<Resource>, origins: Seq<(String, Hostname)>, j: int, o: int, mm: Seq<char>|
        0 <= g < gs.len() && 0 <= i < gs[g].0.resources@.len() && assigned_index(gs, u.assigned_groups@, g)
        && #[trigger] clash(rs, origins, j, o, v, gs[g].0.resources@[i].parameters, mm) && m == pc + mm
    ||| exists|rs: Seq<Resource>, t: ValidationHelpers, k: int| #![trigger assembled(rs, t, u, gs, v), id_repeated(rs, k)]
        assembled(rs, t, u, gs, v) && 0 <= k < rs.len() && id_repeated(rs, k) && m == pc + repeated_id_message(rs[k])
    ||| exists|rs: Seq<Resource>, t: ValidationHelpers| #[trigger] assembled(rs, t, u, gs, v)
        && distinct_ids(rs) && !catalog_consistent(t, rs)
}

pub open spec fn client_outcome(
    r: Result<Client, String>,
    u: UnresolvedClient,
    old_gs: Seq<(Group, usize)>,
    new_gs: Seq<(Group, usize)>,
    v: Seq<(String, Node)>,
) -> bool {
    &&& first_failure(v, u.resources@) matches Some(e) ==> r matches Err(m) && m@ == "`"@ + u.name@ + "`>"@ + e
    &&& r matches Err(m) ==> client_failure(m@, u, old_gs, v)
    &&& r matches Ok(c) ==> first_failure(v, u.resources@) is None && client_built(c, u, old_gs, v)
        && counted(old_gs, new_gs, u.assigned_groups@, u.assigned_groups@.len())
}

impl Client {
    /// Builds a client from its configuration: the variable `hostname` is
    /// set to its name, its own resources are built, the resources of its
    /// groups added, and the catalog validated.
    #[verifier::rlimit(80)]
    #[verifier::spinoff_prover]
    pub fn try_from(intermediate: UnresolvedClient, groups: &mut Vec<(Group, usize)>) -> (r: Result<Client, String>)
        requires
            forall|i: int| 0 <= i < intermediate.resources@.len() ==> params_wf((#[trigger] intermediate.resources@[i]).parameters),
            forall|g: int, i: int| 0 <= g < old(groups)@.len() && 0 <= i < old(groups)@[g].0.resources@.len()
                ==> params_wf((#[trigger] old(groups)@[g].0.resources@[i]).parameters),
            forall|k: int| 0 <= k < old(groups)@.len() ==> (#[trigger] old(groups)@[k]).1 + intermediate.assigned_groups@.len() <= usize::MAX,
        ensures
            final(groups)@.len() == old(groups)@.len(),
            forall|k: int| 0 <= k < old(groups)@.len() ==> (#[trigger] final(groups)@[k]).0 == old(groups)@[k].0,
            exists|v: Seq<(String, Node)>| #[trigger] hostname_set(v, intermediate.variables@, intermediate.name@)
                && client_outcome(r, intermediate, old(groups)@, final(groups)@, v),
            r matches Err(m) ==> client_error(m@, intermediate.name@),
            intermediate.resources@.len() == 0 && intermediate.assigned_groups@.len() == 0 ==> r is Ok,
    {
        let ghost u = intermediate;
        let ghost gs0 = groups@;
        let UnresolvedClient { name, api_key, assigned_groups, variables, resources } = intermediate;
        let mut vars = variables;
        vars.insert(0, ("hostname".to_owned(), Node::String(name.as_str().to_owned())));
        let ghost v = vars@;
        proof {
            assert(vars@.skip(1) =~= u.variables@);
        }
        let mut client = Client {
            name,
            api_key,
            assigned_groups,
            variables: vars,
            temporary: ValidationHelpers::new(),
            resources: Vec::new(),
        };
        let own_resources = match build_resources(&resources, &client.variables, &mut client.temporary) {
            Ok(x) => x,
            Err(m) => {
                proof {
                    assert(hostname_set(v, u.variables@, u.name@));
                }
                let e = prefixed("`", client.name.as_str(), "`>", m.as_str());
                proof {
                    assert(e@.take(("`"@ + u.name@ + "`>"@).len() as int) =~= "`"@ + u.name@ + "`>"@);
                }
                return Err(e);
            },
        };
        client.resources = own_resources;
        let ghost own = client.resources@;
        assert(forall|k: int| 0 <= k < own.len() ==> fresh(#[trigger] own[k])) by {
            assert(first_failure(client.variables@, resources@) is None);
            assert forall|k: int| 0 <= k < own.len() implies fresh(#[trigger] own[k]) by {
                assert(resource_built(own[k], client.variables@, resources@[k].parameters) && fresh(own[k]));
            }
        }
        match client.extend_from_groups(groups) {
            Ok(()) => {},
            Err(m) => {
                proof {
                    assert(hostname_set(v, u.variables@, u.name@));
                }
                let e = prefixed("`client[", client.name.as_str(), "]`>", m.as_str());
                proof {
                    assert(e@.take(("`client["@ + u.name@ + "]`>"@).len() as int) =~= "`client["@ + u.name@ + "]`>"@);
                    let pc = "`client["@ + u.name@ + "]`>"@;
                    assert(e@ == pc + m@);
                    assert(client.assigned_groups@ == u.assigned_groups@);
                    if exists|g: int, i: int, j: int, o: int| 0 <= g < gs0.len() && 0 <= i < gs0[g].0.resources@.len()
                        && assigned_index(gs0, u.assigned_groups@, g)
                        && #[trigger] clash(client.resources@, client.temporary.origins@, j, o, v, gs0[g].0.resources@[i].parameters, m@) {
                        let (g, i, j, o) = choose|g: int, i: int, j: int, o: int| 0 <= g < gs0.len() && 0 <= i < gs0[g].0.resources@.len()
                            && assigned_index(gs0, u.assigned_groups@, g)
                            && #[trigger] clash(client.resources@, client.temporary.origins@, j, o, v, gs0[g].0.resources@[i].parameters, m@);
                        assert(clash(client.resources@, client.temporary.origins@, j, o, v, gs0[g].0.resources@[i].parameters, m@));
                    } else if exists|g: int, i: int| 0 <= g < gs0.len() && 0 <= i < gs0[g].0.resources@.len()
                        && assigned_index(gs0, u.assigned_groups@, g)
                        && resource_steps(v, (#[trigger] gs0[g].0.resources@[i]).parameters) == Err::<(), Seq<char>>(m@) {
                        let (g, i) = choose|g: int, i: int| 0 <= g < gs0.len() && 0 <= i < gs0[g].0.resources@.len()
                            && assigned_index(gs0, u.assigned_groups@, g)
                            && resource_steps(v, (#[trigger] gs0[g].0.resources@[i]).parameters) == Err::<(), Seq<char>>(m@);
                        assert(resource_steps(v, gs0[g].0.resources@[i].parameters) matches Err(x) && e@ == pc + x);
                    }
                    assert(client_failure(e@, u, gs0, v));
                }
                return Err(e);
            },
        }
        client.temporary.file_paths = file_paths(&client.resources);
        proof {
            assert(assembled(client.resources@, client.temporary, u, gs0, v));
        }
        if let Some(k) = duplicate_id(&client.resources) {
            let shown = client.resources[k].repr();
            let m = crate::text::concat3("duplicate resource `", shown.as_str(), "`");
            proof {
                assert(hostname_set(v, u.variables@, u.name@));
            }
            let e = prefixed("`client[", client.name.as_str(), "]`>", m.as_str());
            proof {
                assert(e@.take(("`client["@ + u.name@ + "]`>"@).len() as int) =~= "`client["@ + u.name@ + "]`>"@);
                assert(!distinct_ids(client.resources@));
                assert(assembled(client.resources@, client.temporary, u, gs0, v));
                assert(m@ == repeated_id_message(client.resources@[k as int]));
                assert(e@ == "`client["@ + u.name@ + "]`>"@ + repeated_id_message(client.resources@[k as int]));
                assert(id_repeated(client.resources@, k as int));
                assert(client_failure(e@, u, gs0, v));
            }
            return Err(e);
        }
        let ghost rs0 = client.resources@;
        proof {
            if u.resources@.len() == 0 && u.assigned_groups@.len() == 0 {
                lemma_empty_consistent(client.temporary);
                assert(rs0 =~= Seq::<Resource>::empty());
            }
            lemma_empty_acyclic();
            assert(client.temporary.predecessors@ =~= Seq::<Edge>::empty());
        }
        let mut scratch = Client {
            name: client.name.clone(),
            api_key: client.api_key.clone(),
            assigned_groups: Vec::new(),
            variables: Vec::new(),
            temporary: ValidationHelpers::new(),
            resources: Vec::new(),
        };
        let ghost t_pre = client.temporary;
        std::mem::swap(&mut scratch.temporary, &mut client.temporary);
        std::mem::swap(&mut scratch.resources, &mut client.resources);
        match scratch.validate() {
            Ok(()) => {},
            Err(m) => {
                proof {
                    assert(hostname_set(v, u.variables@, u.name@));
                }
                let e = prefixed("`client[", client.name.as_str(), "]`>", m.as_str());
                proof {
                    assert(e@.take(("`client["@ + u.name@ + "]`>"@).len() as int) =~= "`client["@ + u.name@ + "]`>"@);
                    assert(!catalog_consistent(t_pre, rs0));
                    assert(distinct_ids(rs0));
                    assert(assembled(rs0, t_pre, u, gs0, v));
                    assert(client_failure(e@, u, gs0, v));
                }
                return Err(e);
            },
        }
        std::mem::swap(&mut scratch.resources, &mut client.resources);
        proof {
            lemma_unrotated(client.resources@, rs0);
            assert forall|k: int| 0 <= k < rs0.len() implies requirements(#[trigger] rs0[k]).len() == 0 by {
                if k < own.len() {
                    assert(rs0[k] == own[k]);
                    assert(fresh(own[k]));
                } else {
                    assert(fresh(rs0[k]));
                }
            }
            assert forall|k: int| 0 <= k < rs0.len() implies fresh(#[trigger] rs0[k]) by {
                if k < own.len() {
                    assert(rs0[k] == own[k]);
                    assert(fresh(own[k]));
                } else {
                    assert(fresh(rs0[k]));
                }
            }
            lemma_validated_catalog(rs0, unrotated(client.resources@), own, scratch.temporary, v, u, gs0);
        }
        client.temporary = ValidationHelpers::new();
        proof {
            assert(hostname_set(v, u.variables@, u.name@));
        }
        Ok(client)
    }
}

} // verus!
