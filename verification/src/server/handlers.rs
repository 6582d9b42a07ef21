use crate::common::name::Hostname;
use crate::server::api_key::{hex_bytes, sha256_digest, ApiKey};
use crate::server::client::Client;
use crate::server::resources::Resource;
use crate::text::{chars_eq, chars_of, find_first, first_index_of, slice_chars, str_eq, string_of};
use crate::common::name::hostname_check;
use crate::common::resources::user::{starts_with, starts_with_str};
use vstd::prelude::*;
use vstd::string::StringSliceAdditionalSpecFns;

verus! {

/// The body of an error response of the API: the HTTP status, a title and
/// a detail.
pub struct Error {
    pub status: u16,
    pub title: String,
    pub detail: String,
}

impl Error {
    /// The answer to a request without an `X-API-KEY` header.
    pub fn missing_authorization() -> (r: Error)
        ensures
            r.status == 401,
            r.title@ == "missing authorization"@,
            r.detail@ == "requests must contain an <X-API-KEY> header with an API key"@,
    {
        Error {
            status: 401,
            title: "missing authorization".to_owned(),
            detail: "requests must contain an <X-API-KEY> header with an API key".to_owned(),
        }
    }

    /// The answer to a request whose key belongs to no client.
    pub fn failed_authorization() -> (r: Error)
        ensures
            r.status == 401,
            r.title@ == "failed authorization"@,
            r.detail@ == "provided API key is not associated with any client"@,
    {
        Error {
            status: 401,
            title: "failed authorization".to_owned(),
            detail: "provided API key is not associated with any client".to_owned(),
        }
    }

    /// The answer to a request for something the client may not see.
    pub fn forbidden() -> (r: Error)
        ensures
            r.status == 403,
            r.title@ == "access forbidden"@,
            r.detail@ == "insufficient permissions to access the requested resource"@,
    {
        Error {
            status: 403,
            title: "access forbidden".to_owned(),
            detail: "insufficient permissions to access the requested resource".to_owned(),
        }
    }
}

/// The position of the first client name stored under a key hash.
pub open spec fn key_owner(keys: Seq<(ApiKey, Hostname)>, hash: Seq<char>) -> Option<int> {
    if exists|i: int| 0 <= i < keys.len() && #[trigger] keys[i].0@ == hash
        && forall|j: int| 0 <= j < i ==> #[trigger] keys[j].0@ != hash {
        Some(choose|i: int| 0 <= i < keys.len() && #[trigger] keys[i].0@ == hash
            && forall|j: int| 0 <= j < i ==> #[trigger] keys[j].0@ != hash)
    } else {
        None
    }
}

/// The client that a key sent with a request belongs to: the entry of
/// `keys` whose hash is that of the key.
pub fn client_of_key(keys: &Vec<(ApiKey, Hostname)>, key: &str) -> (r: Option<usize>)
    ensures
        r == (match key_owner(keys@, hex_bytes(sha256_digest(key.spec_bytes()))) {
            Some(i) => Some(i as usize),
            None => None::<usize>,
        }),
        r matches Some(i) ==> i < keys@.len() && key_owner(keys@, hex_bytes(sha256_digest(key.spec_bytes()))) == Some(i as int),
        r is None ==> key_owner(keys@, hex_bytes(sha256_digest(key.spec_bytes()))) is None,
{
    let hash = ApiKey::encrypt(key);
    let mut i: usize = 0;
    while i < keys.len()
        invariant
            i <= keys.len(),
            hash@ == hex_bytes(sha256_digest(key.spec_bytes())),
            forall|j: int| 0 <= j < i ==> #[trigger] keys@[j].0@ != hash@,
        decreases keys.len() - i,
    {
        if keys[i].0.eq(&hash) {
            let ghost k = choose|k: int| 0 <= k < keys@.len() && #[trigger] keys@[k].0@ == hash@
                && forall|j: int| 0 <= j < k ==> #[trigger] keys@[j].0@ != hash@;
            assert(k == i) by {
                if k < i {
                    assert(keys@[k].0@ != hash@);
                } else if k > i {
                    assert(keys@[i as int].0@ != hash@);
                }
            }
            return Some(i);
        }
        i = i + 1;
    }
    None
}

/// Whether a file resource of the catalog has `url` as the path of its source.
pub open spec fn serves_asset(rs: Seq<Resource>, url: Seq<char>) -> bool {
    exists|i: int| 0 <= i < rs.len() && #[trigger] asset_of(rs[i], url)
}

pub open spec fn asset_of(r: Resource, url: Seq<char>) -> bool {
    r matches Resource::File(f) && f.parameters.source matches Some(p) && p@ == url
}

/// Whether the client may download the asset at `url`: one of its file
/// resources has it as its source.
pub fn may_download(client: &Client, url: &str) -> (r: bool)
    ensures
        r == serves_asset(client.resources@, url@),
{
    let mut i: usize = 0;
    while i < client.resources.len()
        invariant
            i <= client.resources.len(),
            forall|j: int| 0 <= j < i ==> !#[trigger] asset_of(client.resources@[j], url@),
        decreases client.resources.len() - i,
    {
        if let Resource::File(f) = &client.resources[i] {
            if let Some(p) = &f.parameters.source {
                if str_eq(p.as_str(), url) {
                    assert(asset_of(client.resources@[i as int], url@));
                    return true;
                }
            }
        }
        i = i + 1;
    }
    false
}

/// Whether the client may download the catalog of `hostname`: only its own.
pub fn may_read_catalog(client: &Client, hostname: &Hostname) -> (r: bool)
    ensures
        r == (client.name@ == hostname@),
{
    str_eq(client.name.as_str(), hostname.as_str())
}

/// Where a request of an authenticated client leads.
pub enum Route {
    /// The key belongs to no client.
    Unauthorized,
    /// The client may not have what it asks for.
    Forbidden,
    /// The asset at this path below the asset directory.
    Asset(String),
    /// The catalog of the client at this position.
    Catalog(usize),
    /// Nothing is served at this path.
    NotFound,
}

/// The position of the first client named `name`.
pub open spec fn client_index(clients: Seq<Client>, name: Seq<char>) -> Option<int> {
    if exists|i: int| 0 <= i < clients.len() && (#[trigger] clients[i]).name@ == name
        && forall|j: int| 0 <= j < i ==> (#[trigger] clients[j]).name@ != name {
        Some(choose|i: int| 0 <= i < clients.len() && (#[trigger] clients[i]).name@ == name
            && forall|j: int| 0 <= j < i ==> (#[trigger] clients[j]).name@ != name)
    } else {
        None
    }
}

/// The hostname in a path of the form `/api/clients/{hostname}/resources`,
/// when it is a valid hostname.
pub open spec fn catalog_host(url: Seq<char>) -> Option<Seq<char>> {
    let pre = "/api/clients/"@;
    let post = "/resources"@;
    if url.len() >= pre.len() + post.len() && url.take(pre.len() as int) == pre
        && url.skip(url.len() - post.len()) == post {
        let h = url.subrange(pre.len() as int, url.len() - post.len());
        if !h.contains('/') && hostname_check(h) is Ok {
            Some(h)
        } else {
            None
        }
    } else {
        None
    }
}

/// Where a request leads, in views.
pub enum RouteView {
    Unauthorized,
    Forbidden,
    Asset(Seq<char>),
    Catalog(int),
    NotFound,
}

/// Where a request leads: a key that belongs to no client is refused; a
/// path under `/assets` leads to the asset when one of the client's files
/// has it as its source; `GET /api/clients/{hostname}/resources` leads to
/// the catalog of the client when the hostname is its own.
pub open spec fn route_of(clients: Seq<Client>, keys: Seq<(ApiKey, Hostname)>, key_hash: Seq<char>, url: Seq<char>, get: bool) -> RouteView {
    match key_owner(keys, key_hash) {
        None => RouteView::Unauthorized,
        Some(k) => match client_index(clients, keys[k].1@) {
            None => RouteView::Unauthorized,
            Some(c) => if starts_with(url, "/assets"@) {
                if serves_asset(clients[c].resources@, url.skip(7)) { RouteView::Asset(url.skip(7)) } else { RouteView::Forbidden }
            } else if get && catalog_host(url) is Some {
                if clients[c].name@ == catalog_host(url)->0 { RouteView::Catalog(c) } else { RouteView::Forbidden }
            } else {
                RouteView::NotFound
            },
        },
    }
}

/// A request is refused as unauthorized when no client's key has the hash
/// of the key sent. A catalog is served only for `GET` of
/// `/api/clients/{name}/resources` to the client whose key was sent, where
/// `name` is that client's own name; an asset is served only at `/assets`
/// followed by its path, to the client whose key was sent, when one of that
/// client's files has the path as its source.
pub proof fn lemma_route(clients: Seq<Client>, keys: Seq<(ApiKey, Hostname)>, key_hash: Seq<char>, url: Seq<char>, get: bool)
    ensures
        (forall|i: int| 0 <= i < keys.len() ==> (#[trigger] keys[i]).0@ != key_hash)
            ==> route_of(clients, keys, key_hash, url, get) == RouteView::Unauthorized,
        route_of(clients, keys, key_hash, url, get) matches RouteView::Catalog(c) ==> get && 0 <= c < clients.len()
            && url == "/api/clients/"@ + clients[c].name@ + "/resources"@
            && exists|i: int| 0 <= i < keys.len() && (#[trigger] keys[i]).0@ == key_hash && keys[i].1@ == clients[c].name@,
        route_of(clients, keys, key_hash, url, get) matches RouteView::Asset(a) ==> url == "/assets"@ + a
            && exists|c: int, i: int| 0 <= c < clients.len() && 0 <= i < keys.len() && (#[trigger] keys[i]).0@ == key_hash
                && keys[i].1@ == (#[trigger] clients[c]).name@
                && exists|j: int| 0 <= j < clients[c].resources@.len()
                    && (#[trigger] clients[c].resources@[j] matches Resource::File(f) && f.parameters.source matches Some(src) && src@ == a),
{
    let r = route_of(clients, keys, key_hash, url, get);
    if let Some(k) = key_owner(keys, key_hash) {
        assert(keys[k].0@ == key_hash);
        if let Some(c) = client_index(clients, keys[k].1@) {
            assert(clients[c].name@ == keys[k].1@);
            if starts_with(url, "/assets"@) {
                if r is Asset {
                    reveal_strlit("/assets");
                    assert(url.take(7) == "/assets"@);
                    assert(url =~= url.take(7) + url.skip(7));
                    let j = choose|j: int| 0 <= j < clients[c].resources@.len() && #[trigger] asset_of(clients[c].resources@[j], url.skip(7));
                    assert(asset_of(clients[c].resources@[j], url.skip(7)));
                }
            } else if get && catalog_host(url) is Some {
                if r is Catalog {
                    let pre = "/api/clients/"@;
                    let post = "/resources"@;
                    let h = url.subrange(pre.len() as int, url.len() - post.len());
                    assert(url =~= url.take(pre.len() as int) + h + url.skip(url.len() - post.len()));
                }
            }
        }
    }
}

/// The view of a route.
pub open spec fn route_view(r: Route) -> RouteView {
    match r {
        Route::Unauthorized => RouteView::Unauthorized,
        Route::Forbidden => RouteView::Forbidden,
        Route::Asset(p) => RouteView::Asset(p@),
        Route::Catalog(c) => RouteView::Catalog(c as int),
        Route::NotFound => RouteView::NotFound,
    }
}

/// The position of the first client named `name`.
fn find_client(clients: &Vec<Client>, name: &Hostname) -> (r: Option<usize>)
    ensures
        match client_index(clients@, name@) {
            Some(i) => r == Some(i as usize),
            None => r is None,
        },
        r matches Some(i) ==> i < clients@.len() && client_index(clients@, name@) == Some(i as int),
        r is None ==> client_index(clients@, name@) is None,
{
    let mut i: usize = 0;
    while i < clients.len()
        invariant
            i <= clients.len(),
            forall|j: int| 0 <= j < i ==> (#[trigger] clients@[j]).name@ != name@,
        decreases clients.len() - i,
    {
        if str_eq(clients[i].name.as_str(), name.as_str()) {
            let ghost k = choose|k: int| 0 <= k < clients@.len() && (#[trigger] clients@[k]).name@ == name@
                && forall|j: int| 0 <= j < k ==> (#[trigger] clients@[j]).name@ != name@;
            assert(k == i) by {
                if k < i {
                    assert(clients@[k].name@ != name@);
                } else if k > i {
                    assert(clients@[i as int].name@ != name@);
                }
            }
            return Some(i);
        }
        i = i + 1;
    }
    assert(client_index(clients@, name@) is None) by {
        if exists|k: int| 0 <= k < clients@.len() && (#[trigger] clients@[k]).name@ == name@ {
            let k = choose|k: int| 0 <= k < clients@.len() && (#[trigger] clients@[k]).name@ == name@;
            assert(clients@[k].name@ != name@);
        }
    }
    None
}

/// The hostname in a path of the form `/api/clients/{hostname}/resources`.
fn catalog_hostname(url: &str) -> (r: Option<Hostname>)
    ensures
        match catalog_host(url@) {
            Some(h) => r matches Some(x) && x@ == h,
            None => r is None,
        },
{
    let cs = chars_of(url);
    let pre = chars_of("/api/clients/");
    let post = chars_of("/resources");
    proof {
        reveal_strlit("/api/clients/");
        reveal_strlit("/resources");
    }
    if cs.len() < pre.len() + post.len() {
        return None;
    }
    let head = slice_chars(&cs, 0, pre.len());
    let tail = slice_chars(&cs, cs.len() - post.len(), cs.len());
    assert(cs@.subrange(0, pre@.len() as int) =~= cs@.take(pre@.len() as int));
    assert(cs@.subrange(cs@.len() - post@.len(), cs@.len() as int) =~= cs@.skip(cs@.len() - post@.len()));
    if !chars_eq(&head, &pre) || !chars_eq(&tail, &post) {
        return None;
    }
    let mid = slice_chars(&cs, pre.len(), cs.len() - post.len());
    if find_first(&mid, '/').is_some() {
        assert(mid@.contains('/'));
        return None;
    }
    assert(!mid@.contains('/')) by {
        if mid@.contains('/') {
            let k = choose|k: int| 0 <= k < mid@.len() && mid@[k] == '/';
            assert(first_index_of(mid@, '/') is Some);
        }
    }
    match Hostname::from_str(string_of(&mid).as_str()) {
        Ok(h) => Some(h),
        Err(_) => None,
    }
}

/// Decides where a request of a client, authenticated by the key it sent,
/// leads.
pub fn handle_route(clients: &Vec<Client>, keys: &Vec<(ApiKey, Hostname)>, api_key: &str, url: &str, get: bool) -> (r: Route)
    ensures
        route_view(r) == route_of(clients@, keys@, hex_bytes(sha256_digest(api_key.spec_bytes())), url@, get),
{
    let k = match client_of_key(keys, api_key) {
        Some(k) => k,
        None => {
            return Route::Unauthorized;
        },
    };
    let c = match find_client(clients, &keys[k].1) {
        Some(c) => c,
        None => {
            return Route::Unauthorized;
        },
    };
    proof {
        reveal_strlit("/assets");
    }
    if starts_with_str(url, "/assets") {
        let cs = chars_of(url);
        let rest = string_of(&slice_chars(&cs, 7, cs.len()));
        assert(rest@ =~= url@.skip(7));
        if may_download(&clients[c], rest.as_str()) {
            return Route::Asset(rest);
        } else {
            return Route::Forbidden;
        }
    }
    if get {
        if let Some(h) = catalog_hostname(url) {
            if may_read_catalog(&clients[c], &h) {
                return Route::Catalog(c);
            } else {
                return Route::Forbidden;
            }
        }
    }
    Route::NotFound
}

} // verus!
