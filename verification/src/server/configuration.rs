use crate::common::name::Hostname;
use crate::server::api_key::ApiKey;
use crate::server::catalog::{client_failure, client_outcome, counted, hostname_set, lemma_occurrences_bound};
use crate::server::yaml::Node;
use crate::server::client::Client;
use crate::server::config::{Group, UnresolvedClient};
use crate::server::unresolved::params_wf;
use crate::text::{concat_all, join_all, str_views};
use vstd::prelude::*;

verus! {

/// The clients that the server serves, and the client that each key hash
/// belongs to.
pub struct Configuration {
    pub clients: Vec<Client>,
    pub api_keys: Vec<(ApiKey, Hostname)>,
}

/// How many groups the clients are members of, counted once per membership.
pub open spec fn memberships(cs: Seq<UnresolvedClient>) -> nat
    decreases cs.len(),
{
    if cs.len() == 0 {
        0
    } else {
        cs[0].assigned_groups@.len() + memberships(cs.drop_first())
    }
}

/// The message for two clients with the same API key.
pub open spec fn shared_key_message(path: Seq<char>, name: Seq<char>, other: Seq<char>) -> Seq<char> {
    "`"@ + path + "`: API key from client `"@ + name + "` matches that from client `"@ + other
        + "`, but API keys must be unique"@
}

/// Whether the key hashes of the entries are distinct and belong to the
/// clients in turn.
pub open spec fn keys_of_clients(keys: Seq<(ApiKey, Hostname)>, clients: Seq<Client>) -> bool {
    &&& keys.len() == clients.len()
    &&& forall|i: int| 0 <= i < keys.len() ==> (#[trigger] keys[i]).0@ == clients[i].api_key@ && keys[i].1@ == clients[i].name@
    &&& forall|i: int, j: int| 0 <= i < j < keys.len() ==> (#[trigger] keys[i]).0@ != (#[trigger] keys[j]).0@
}

proof fn lemma_memberships_split(cs: Seq<UnresolvedClient>, i: int)
    requires
        0 <= i < cs.len(),
    ensures
        memberships(cs.skip(i)) == cs[i].assigned_groups@.len() + memberships(cs.skip(i + 1)),
{
    assert(cs.skip(i).drop_first() =~= cs.skip(i + 1));
    assert(cs.skip(i)[0] == cs[i]);
}

proof fn lemma_counts_after(before: Seq<(Group, usize)>, after: Seq<(Group, usize)>, c: UnresolvedClient, rest: nat)
    requires
        counted(before, after, c.assigned_groups@, c.assigned_groups@.len()),
        forall|k: int| 0 <= k < before.len() ==> (#[trigger] before[k]).1 + c.assigned_groups@.len() + rest <= usize::MAX,
    ensures
        forall|k: int| 0 <= k < after.len() ==> (#[trigger] after[k]).1 + rest <= usize::MAX,
{
    assert forall|k: int| 0 <= k < after.len() implies (#[trigger] after[k]).1 + rest <= usize::MAX by {
        let name = before[k].0.name@;
        lemma_occurrences_bound(c.assigned_groups@, name, c.assigned_groups@.len());
        assert(before[k].1 + c.assigned_groups@.len() + rest <= usize::MAX);
    }
}

/// Whether each of `built` is the client that `Client::try_from` builds
/// from the one of `clients` at its position, with the groups as `gss`
/// holds them before and after it: its catalog built from its own
/// resources and those of its groups, and the groups' counts of clients
/// grown.
pub open spec fn built_in_turn(built: Seq<Client>, clients: Seq<UnresolvedClient>, gss: Seq<Seq<(Group, usize)>>) -> bool {
    &&& gss.len() == built.len() + 1
    &&& built.len() <= clients.len()
    &&& forall|i: int| 0 <= i < built.len() ==> #[trigger] client_from(built[i], clients[i], gss[i], gss[i + 1])
}

/// Whether `c` is the client that `Client::try_from` builds from `u` with
/// the groups `g0`, leaving them as `g1`.
#[verifier::opaque]
pub open spec fn client_from(c: Client, u: UnresolvedClient, g0: Seq<(Group, usize)>, g1: Seq<(Group, usize)>) -> bool {
    exists|v: Seq<(String, Node)>| #[trigger] hostname_set(v, u.variables@, u.name@) && client_outcome(Ok(c), u, g0, g1, v)
}

/// Why building client `u`, with groups that hold those of `gs`, may be
/// refused with `m` (see `client_failure`).
#[verifier::opaque]
pub open spec fn client_refused(m: Seq<char>, u: UnresolvedClient, gs: Seq<(Group, usize)>) -> bool {
    exists|g0: Seq<(Group, usize)>, v: Seq<(String, Node)>| g0.len() == gs.len()
        && (forall|k: int| 0 <= k < g0.len() ==> (#[trigger] g0[k]).0 == gs[k].0)
        && hostname_set(v, u.variables@, u.name@) && #[trigger] client_failure(m, u, g0, v)
}

/// Whether building one of `clients`, with groups that hold those of
/// `gs`, may be refused with `m`.
pub open spec fn some_client_refused(m: Seq<char>, clients: Seq<UnresolvedClient>, gs: Seq<(Group, usize)>) -> bool {
    exists|i: int| 0 <= i < clients.len() && #[trigger] client_refused(m, clients[i], gs)
}

proof fn lemma_client_err(u: UnresolvedClient, gs: Seq<(Group, usize)>, g0: Seq<(Group, usize)>, g1: Seq<(Group, usize)>, m: String)
    requires
        exists|v: Seq<(String, Node)>| #[trigger] hostname_set(v, u.variables@, u.name@) && client_outcome(Err(m), u, g0, g1, v),
        g0.len() == gs.len(),
        forall|k: int| 0 <= k < g0.len() ==> (#[trigger] g0[k]).0 == gs[k].0,
    ensures
        client_refused(m@, u, gs),
{
    reveal(client_refused);
    let v = choose|v: Seq<(String, Node)>| #[trigger] hostname_set(v, u.variables@, u.name@) && client_outcome(Err(m), u, g0, g1, v);
    assert(client_failure(m@, u, g0, v));
}

impl Configuration {
    /// Builds each client in turn, with the groups it is a member of, and
    /// records the client that each key hash belongs to; two clients may
    /// not share an API key.
    #[verifier::rlimit(100)]
    #[verifier::spinoff_prover]
    pub fn from_clients(path: &str, clients: Vec<UnresolvedClient>, groups: &mut Vec<(Group, usize)>) -> (r: Result<Configuration, String>)
        requires
            forall|c: int, i: int| 0 <= c < clients@.len() && 0 <= i < clients@[c].resources@.len()
                ==> params_wf((#[trigger] clients@[c].resources@[i]).parameters),
            forall|g: int, i: int| 0 <= g < old(groups)@.len() && 0 <= i < old(groups)@[g].0.resources@.len()
                ==> params_wf((#[trigger] old(groups)@[g].0.resources@[i]).parameters),
            forall|k: int| 0 <= k < old(groups)@.len() ==> (#[trigger] old(groups)@[k]).1 + memberships(clients@) <= usize::MAX,
        ensures
            final(groups)@.len() == old(groups)@.len(),
            forall|k: int| 0 <= k < old(groups)@.len() ==> (#[trigger] final(groups)@[k]).0 == old(groups)@[k].0,
            r matches Ok(c) ==> c.clients@.len() == clients@.len()
                && (forall|i: int| 0 <= i < clients@.len() ==> (#[trigger] c.clients@[i]).name == clients@[i].name
                    && c.clients@[i].api_key == clients@[i].api_key)
                && keys_of_clients(c.api_keys@, c.clients@)
                && exists|gss: Seq<Seq<(Group, usize)>>| #[trigger] built_in_turn(c.clients@, clients@, gss)
                    && gss[0] == old(groups)@ && gss.last() == final(groups)@,
            r matches Err(m) ==> (exists|i: int, j: int| #![trigger clients@[i], clients@[j]]
                    0 <= j < i < clients@.len() && clients@[i].api_key@ == clients@[j].api_key@
                    && m@ == shared_key_message(path@, clients@[i].name@, clients@[j].name@))
                || some_client_refused(m@, clients@, old(groups)@),
            (forall|i: int| 0 <= i < clients@.len() ==> (#[trigger] clients@[i]).resources@.len() == 0
                && clients@[i].assigned_groups@.len() == 0)
                && (forall|i: int, j: int| 0 <= j < i < clients@.len() ==> (#[trigger] clients@[i]).api_key@ != (#[trigger] clients@[j]).api_key@)
                ==> r is Ok,
    {
        let ghost all = clients@;
        let mut rest = clients;
        let mut built: Vec<Client> = Vec::new();
        let mut keys: Vec<(ApiKey, Hostname)> = Vec::new();
        let n = rest.len();
        let mut i: usize = 0;
        let ghost mut gss: Seq<Seq<(Group, usize)>> = seq![groups@];
        let ghost g_entry = groups@;
        assert(all.skip(0) =~= all);
        while i < n
            invariant
                i <= n,
                n == all.len(),
                rest@ == all.skip(i as int),
                groups@.len() == old(groups)@.len(),
                forall|k: int| 0 <= k < old(groups)@.len() ==> (#[trigger] groups@[k]).0 == old(groups)@[k].0,
                forall|c: int, q: int| 0 <= c < all.len() && 0 <= q < all[c].resources@.len()
                    ==> params_wf((#[trigger] all[c].resources@[q]).parameters),
                forall|g: int, q: int| 0 <= g < groups@.len() && 0 <= q < groups@[g].0.resources@.len()
                    ==> params_wf((#[trigger] groups@[g].0.resources@[q]).parameters),
                forall|k: int| 0 <= k < groups@.len() ==> (#[trigger] groups@[k]).1 + memberships(all.skip(i as int)) <= usize::MAX,
                built@.len() == i,
                all == clients@,
                forall|q: int| 0 <= q < i ==> (#[trigger] built@[q]).name == all[q].name && built@[q].api_key == all[q].api_key,
                keys_of_clients(keys@, built@),
                built_in_turn(built@, all, gss),
                g_entry == old(groups)@,
                gss[0] == old(groups)@,
                gss.last() == groups@,
            decreases n - i,
        {
            proof {
                lemma_memberships_split(all, i as int);
                assert(all.skip(i as int)[0] == all[i as int]);
            }
            let u = rest.remove(0);
            assert(u == all[i as int]);
            assert(rest@ =~= all.skip(i + 1));
            let ghost before_gs = groups@;
            let client = match Client::try_from(u, groups) {
                Ok(c) => c,
                Err(m) => {
                    proof {
                        lemma_client_err(all[i as int], g_entry, before_gs, groups@, m);
                        assert(all[i as int] == clients@[i as int]);
                        assert(client_refused(m@, clients@[i as int], old(groups)@));
                        assert(some_client_refused(m@, clients@, old(groups)@));
                    }
                    return Err(m);
                },
            };
            proof {
                lemma_counts_after(before_gs, groups@, all[i as int], memberships(all.skip(i + 1)));
            }
            let ghost bb = built@;
            let ghost client_copy = client;
            let ghost cname = client.name@;
            let ghost ckey = client.api_key@;
            proof {
                let v = choose|v: Seq<(String, Node)>| #[trigger] hostname_set(v, all[i as int].variables@, all[i as int].name@)
                    && client_outcome(Ok(client), all[i as int], before_gs, groups@, v);
                assert(client.name == all[i as int].name && client.api_key == all[i as int].api_key);
            }
            match record_client(path, &mut keys, &mut built, client) {
                Ok(()) => {},
                Err(m) => {
                    proof {
                        let j = choose|j: int| 0 <= j < bb.len() && m@ == shared_key_message(path@, cname, (#[trigger] bb[j]).name@)
                            && ckey == bb[j].api_key@;
                        assert(bb[j].name == all[j].name && bb[j].api_key == all[j].api_key);
                        assert(all[i as int].api_key@ == all[j].api_key@);
                        assert(m@ == shared_key_message(path@, clients@[i as int].name@, clients@[j].name@));
                        assert(clients@[i as int].api_key@ == clients@[j].api_key@);
                    }
                    return Err(m);
                },
            }
            proof {
                assert forall|q: int| 0 <= q < i + 1 implies (#[trigger] built@[q]).name == all[q].name && built@[q].api_key == all[q].api_key by {
                    if q < i {
                        assert(built@[q] == bb[q]);
                    }
                }
                let g1 = gss.push(groups@);
                assert(client_from(client_copy, all[i as int], before_gs, groups@)) by {
                    reveal(client_from);
                }
                assert forall|q: int| 0 <= q < built@.len() implies #[trigger] client_from(built@[q], all[q], g1[q], g1[q + 1]) by {
                    if q < i {
                        assert(built@[q] == bb[q]);
                        assert(g1[q] == gss[q] && g1[q + 1] == gss[q + 1]);
                        assert(client_from(bb[q], all[q], gss[q], gss[q + 1]));
                    } else {
                        assert(built@[q] == client_copy);
                        assert(g1[q] == before_gs);
                    }
                }
                gss = g1;
            }
            i = i + 1;
        }
        let config = Configuration { clients: built, api_keys: keys };
        proof {
            assert(gss.last() == groups@);
            assert(built_in_turn(config.clients@, clients@, gss));
            assert(gss[0] == old(groups)@);
        }
        Ok(config)
    }
}

/// Adds a client and the entry of its key hash, unless another client has
/// that key.
fn record_client(path: &str, keys: &mut Vec<(ApiKey, Hostname)>, built: &mut Vec<Client>, client: Client) -> (r: Result<(), String>)
    requires
        keys_of_clients(old(keys)@, old(built)@),
    ensures
        r is Ok ==> final(built)@ == old(built)@.push(client) && keys_of_clients(final(keys)@, final(built)@),
        r matches Err(m) ==> exists|j: int| 0 <= j < old(built)@.len()
            && m@ == shared_key_message(path@, client.name@, (#[trigger] old(built)@[j]).name@)
            && client.api_key@ == old(built)@[j].api_key@,
{
    match find_key_owner(keys, &client.api_key) {
        Some(j) => {
            let parts = ["`", path, "`: API key from client `", client.name.as_str(), "` matches that from client `",
                keys[j].1.as_str(), "`, but API keys must be unique"];
            let m = concat_all(&parts);
            proof {
                assert(str_views(parts@) =~= seq!["`"@, path@, "`: API key from client `"@, client.name@,
                    "` matches that from client `"@, keys@[j as int].1@, "`, but API keys must be unique"@]);
                reveal_with_fuel(join_all, 8);
                assert(keys@[j as int].1@ == built@[j as int].name@);
            }
            Err(m)
        },
        None => {
            let ghost kb = keys@;
            let ghost bb = built@;
            keys.push((client.api_key.clone(), client.name.clone()));
            built.push(client);
            proof {
                assert forall|a: int, b: int| 0 <= a < b < keys@.len() implies (#[trigger] keys@[a]).0@ != (#[trigger] keys@[b]).0@ by {
                    if b < kb.len() {
                        assert(keys@[a] == kb[a] && keys@[b] == kb[b]);
                    } else {
                        assert(keys@[a] == kb[a]);
                    }
                }
                assert forall|q: int| 0 <= q < keys@.len() implies (#[trigger] keys@[q]).0@ == built@[q].api_key@ && keys@[q].1@ == built@[q].name@ by {
                    if q < kb.len() {
                        assert(keys@[q] == kb[q] && built@[q] == bb[q]);
                    }
                }
            }
            Ok(())
        },
    }
}

/// The position of the entry whose key hash is `key`.
fn find_key_owner(keys: &Vec<(ApiKey, Hostname)>, key: &ApiKey) -> (r: Option<usize>)
    ensures
        r matches Some(j) ==> j < keys@.len() && keys@[j as int].0@ == key@,
        r is None ==> forall|j: int| 0 <= j < keys@.len() ==> (#[trigger] keys@[j]).0@ != key@,
{
    let mut i: usize = 0;
    while i < keys.len()
        invariant
            i <= keys.len(),
            forall|j: int| 0 <= j < i ==> (#[trigger] keys@[j]).0@ != key@,
        decreases keys.len() - i,
    {
        if keys[i].0.eq(key) {
            return Some(i);
        }
        i = i + 1;
    }
    None
}

/// Whether a group named `name` has no client.
pub open spec fn unused(groups: Seq<(Group, usize)>, name: Seq<char>) -> bool {
    exists|k: int| 0 <= k < groups.len() && (#[trigger] groups[k]).1 == 0 && groups[k].0.name@ == name
}

/// The names of the groups that no client is a member of, in order.
pub fn unused_groups(groups: &Vec<(Group, usize)>) -> (r: Vec<Hostname>)
    ensures
        forall|i: int| 0 <= i < r@.len() ==> unused(groups@, (#[trigger] r@[i])@),
        forall|k: int| 0 <= k < groups@.len() && (#[trigger] groups@[k]).1 == 0
            ==> exists|i: int| 0 <= i < r@.len() && #[trigger] r@[i]@ == groups@[k].0.name@,
{
    let mut out: Vec<Hostname> = Vec::new();
    let mut k: usize = 0;
    while k < groups.len()
        invariant
            k <= groups.len(),
            forall|i: int| 0 <= i < out@.len() ==> unused(groups@, (#[trigger] out@[i])@),
            forall|q: int| 0 <= q < k && (#[trigger] groups@[q]).1 == 0
                ==> exists|i: int| 0 <= i < out@.len() && #[trigger] out@[i]@ == groups@[q].0.name@,
        decreases groups.len() - k,
    {
        if groups[k].1 == 0 {
            let ghost before = out@;
            let name = groups[k].0.name.clone();
            assert(unused(groups@, name@));
            out.push(name);
            proof {
                assert forall|i: int| 0 <= i < out@.len() implies unused(groups@, (#[trigger] out@[i])@) by {
                    if i < before.len() {
                        assert(out@[i] == before[i]);
                    }
                }
                assert forall|q: int| 0 <= q < k + 1 && (#[trigger] groups@[q]).1 == 0
                    implies exists|i: int| 0 <= i < out@.len() && #[trigger] out@[i]@ == groups@[q].0.name@ by {
                    if q < k {
                        let i = choose|i: int| 0 <= i < before.len() && #[trigger] before[i]@ == groups@[q].0.name@;
                        assert(out@[i] == before[i]);
                    } else {
                        assert(out@[before.len() as int]@ == groups@[q].0.name@);
                    }
                }
            }
        }
        k = k + 1;
    }
    out
}

} // verus!
