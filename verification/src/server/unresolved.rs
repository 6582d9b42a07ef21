use crate::common::ResourceType;
use crate::server::source::{source_text, Source};
use crate::server::yaml::{is_string_node, key_index, last_string_key, remove_key, Node};
use crate::text::{concat_all, join_all, str_views};
use vstd::prelude::*;

verus! {

/// A node of the configuration whose variables are not substituted yet,
/// with where it was read.
pub struct UnresolvedNode {
    pub source: Source,
    pub inner: Node,
}

/// The hash that is left when the keys are removed one after the other.
pub open spec fn remove_all(h: Seq<(Node, Node)>, keys: Seq<Seq<char>>) -> Seq<(Node, Node)>
    decreases keys.len(),
{
    if keys.len() == 0 {
        h
    } else {
        let h1 = remove_all(h, keys.drop_last());
        match key_index(h1, keys.last()) {
            Some(i) => h1.remove(i),
            None => h1,
        }
    }
}

/// The value that removing key `i` takes out, after the keys before it.
pub open spec fn lookup_at(h: Seq<(Node, Node)>, keys: Seq<Seq<char>>, i: int) -> Option<Node> {
    let h1 = remove_all(h, keys.take(i));
    match key_index(h1, keys[i]) {
        Some(j) => Some(h1[j].1),
        None => None,
    }
}

/// The message for a required key that a hash lacks.
pub open spec fn missing_key_message(file: Seq<char>, path: Seq<char>, key: Seq<char>) -> Seq<char> {
    source_text(file, path) + ": failed to find required key `"@ + key + "`"@
}

/// The message for a key that a hash may not hold.
pub open spec fn unexpected_key_message(file: Seq<char>, path: Seq<char>, key: Seq<char>) -> Seq<char> {
    source_text(file, path) + ": encountered unexpected key `"@ + key + "`"@
}

/// The first required key that a hash lacks.
pub open spec fn first_missing(h: Seq<(Node, Node)>, keys: Seq<Seq<char>>, required: Seq<bool>) -> Option<int> {
    if exists|i: int| 0 <= i < keys.len() && #[trigger] required[i] && lookup_at(h, keys, i) is None
        && forall|j: int| 0 <= j < i ==> !(#[trigger] required[j] && lookup_at(h, keys, j) is None) {
        Some(choose|i: int| 0 <= i < keys.len() && #[trigger] required[i] && lookup_at(h, keys, i) is None
            && forall|j: int| 0 <= j < i ==> !(#[trigger] required[j] && lookup_at(h, keys, j) is None))
    } else {
        None
    }
}

/// The string key of the last entry that is left, if it is a string: the
/// key that `pop_back` finds.
pub open spec fn leftover_key(h: Seq<(Node, Node)>) -> Option<Seq<char>> {
    if h.len() > 0 {
        match h.last().0 {
            Node::String(s) => Some(s@),
            _ => None,
        }
    } else {
        None
    }
}

/// A message with a source: the source's text, then `a`, `b` and `c`.
pub fn sourced_message(source: &Source, a: &str, b: &str, c: &str) -> (r: String)
    ensures
        r@ == source_text(source.file@, source.path@) + a@ + b@ + c@,
{
    let head = source.display();
    let parts = [head.as_str(), a, b, c];
    let r = concat_all(&parts);
    assert(str_views(parts@) =~= seq![head@, a@, b@, c@]);
    assert(join_all(seq![head@, a@, b@, c@]) =~= head@ + a@ + b@ + c@) by {
        reveal_with_fuel(join_all, 5);
    }
    r
}

/// A message with a source: the source's text, then `a`.
pub fn sourced(source: &Source, a: &str) -> (r: String)
    ensures
        r@ == source_text(source.file@, source.path@) + a@,
{
    let mut m = source.display();
    crate::text::push_str(&mut m, a);
    m
}

/// Takes the listed keys out of a hash in order, each value with its source
/// (the hash's source and the key); fails on the first required key that is
/// missing, then on a string key that is left last.
pub fn take_keys(source: &Source, hash: Vec<(Node, Node)>, keys: &[&str], required: &[bool]) -> (r: Result<Vec<Option<UnresolvedNode>>, String>)
    requires
        keys@.len() == required@.len(),
    ensures
        ({
            let ks = str_views(keys@);
            match first_missing(hash@, ks, required@) {
                Some(i) => r is Err && r->Err_0@ == missing_key_message(source.file@, source.path@, ks[i]),
                None => match leftover_key(remove_all(hash@, ks)) {
                    Some(k) => r is Err && r->Err_0@ == unexpected_key_message(source.file@, source.path@, k),
                    None => r is Ok && r->Ok_0@.len() == ks.len() && forall|i: int| 0 <= i < ks.len() ==> {
                        let v = #[trigger] r->Ok_0@[i];
                        &&& lookup_at(hash@, ks, i) is None ==> v is None
                        &&& lookup_at(hash@, ks, i) matches Some(n) ==> (v matches Some(u) && u.inner == n
                            && u.source.file@ == source.file@ && u.source.path@ == source.path@ + "."@ + ks[i])
                    },
                },
            }
        }),
{
    let ghost ks = str_views(keys@);
    let ghost h0 = hash@;
    let mut h = hash;
    let mut out: Vec<Option<UnresolvedNode>> = Vec::new();
    let mut i: usize = 0;
    assert(ks.take(0) =~= Seq::<Seq<char>>::empty());
    while i < keys.len()
        invariant
            i <= keys@.len(),
            keys@.len() == required@.len(),
            ks == str_views(keys@),
            h0 == hash@,
            h@ == remove_all(h0, ks.take(i as int)),
            out@.len() == i,
            forall|j: int| 0 <= j < i ==> !(#[trigger] required@[j] && lookup_at(h0, ks, j) is None),
            forall|j: int| 0 <= j < i ==> {
                let v = #[trigger] out@[j];
                &&& lookup_at(h0, ks, j) is None ==> v is None
                &&& lookup_at(h0, ks, j) matches Some(n) ==> (v matches Some(u) && u.inner == n
                    && u.source.file@ == source.file@ && u.source.path@ == source.path@ + "."@ + ks[j])
            },
        decreases keys@.len() - i,
    {
        let key = keys[i];
        assert(ks[i as int] == key@);
        assert(ks.take(i + 1).drop_last() =~= ks.take(i as int));
        assert(ks.take(i + 1).last() == key@);
        let ghost hb = h@;
        let taken = remove_key(&mut h, key);
        match taken {
            Some(node) => {
                let ghost before = out@;
                out.push(Some(UnresolvedNode { source: source.add_key(key), inner: node }));
                assert(forall|j: int| 0 <= j < i ==> out@[j] == before[j]);
            },
            None => {
                if required[i] {
                    proof {
                        assert(required@[i as int] && lookup_at(h0, ks, i as int) is None);
                        let f = first_missing(h0, ks, required@);
                        assert(f == Some(i as int)) by {
                            let c = f->0;
                            if c < i {
                                assert(!(required@[c] && lookup_at(h0, ks, c) is None));
                            } else if c > i {
                                assert(required@[i as int] && lookup_at(h0, ks, i as int) is None);
                            }
                        }
                    }
                    return Err(sourced_message(source, ": failed to find required key `", key, "`"));
                }
                let ghost before = out@;
                out.push(None);
                assert(forall|j: int| 0 <= j < i ==> out@[j] == before[j]);
            },
        }
        i = i + 1;
    }
    assert(ks.take(keys@.len() as int) =~= ks);
    assert(first_missing(h0, ks, required@) is None);
    match last_string_key(&h) {
        Some(k) => Err(sourced_message(source, ": encountered unexpected key `", k.as_str(), "`")),
        None => Ok(out),
    }
}

/// The keys that the parameters of a kind of resource may hold, in the
/// order in which they are read, each with whether it is required.
pub open spec fn parameter_keys(kind: ResourceType) -> Seq<(Seq<char>, bool)> {
    match kind {
        ResourceType::AptPackage => seq![("ensure"@, false), ("name"@, true), ("version"@, false)],
        ResourceType::Directory => seq![("ensure"@, false), ("path"@, true), ("owner"@, false), ("group"@, false),
            ("purge"@, false)],
        ResourceType::Execute => seq![("ensure"@, false), ("name"@, true), ("command"@, true), ("unless"@, false),
            ("environment"@, false), ("passive"@, false)],
        ResourceType::File => seq![("ensure"@, false), ("path"@, true), ("mode"@, false), ("owner"@, false),
            ("group"@, false), ("content"@, false), ("source"@, false)],
        ResourceType::Group => seq![("ensure"@, false), ("name"@, true), ("system"@, false)],
        ResourceType::Host => seq![("ensure"@, false), ("ip_address"@, true), ("hostname"@, true), ("aliases"@, false)],
        ResourceType::Symlink => seq![("ensure"@, false), ("path"@, true), ("target"@, true)],
        ResourceType::User => seq![("ensure"@, false), ("name"@, true), ("system"@, false), ("comment"@, false),
            ("shell"@, false), ("home"@, false), ("password"@, false), ("expiry_date"@, false), ("group"@, false),
            ("groups"@, false)],
        _ => seq![],
    }
}

pub open spec fn key_names(ks: Seq<(Seq<char>, bool)>) -> Seq<Seq<char>> {
    ks.map_values(|k: (Seq<char>, bool)| k.0)
}

pub open spec fn key_required(ks: Seq<(Seq<char>, bool)>) -> Seq<bool> {
    ks.map_values(|k: (Seq<char>, bool)| k.1)
}

/// Whether a kind of resource is served by the server.
pub open spec fn served_kind(kind: ResourceType) -> bool {
    match kind {
        ResourceType::AptPackage | ResourceType::Directory | ResourceType::Execute | ResourceType::File
        | ResourceType::Group | ResourceType::Host | ResourceType::Symlink | ResourceType::User => true,
        _ => false,
    }
}

fn keys_of(kind: ResourceType) -> (r: (Vec<&'static str>, Vec<bool>))
    requires
        served_kind(kind),
    ensures
        str_views(r.0@) == key_names(parameter_keys(kind)),
        r.1@ == key_required(parameter_keys(kind)),
{
    let r: (Vec<&'static str>, Vec<bool>) = match kind {
        ResourceType::AptPackage => (vec!["ensure", "name", "version"], vec![false, true, false]),
        ResourceType::Directory => (vec!["ensure", "path", "owner", "group", "purge"], vec![false, true, false, false, false]),
        ResourceType::Execute => (vec!["ensure", "name", "command", "unless", "environment", "passive"],
            vec![false, true, true, false, false, false]),
        ResourceType::File => (vec!["ensure", "path", "mode", "owner", "group", "content", "source"],
            vec![false, true, false, false, false, false, false]),
        ResourceType::Group => (vec!["ensure", "name", "system"], vec![false, true, false]),
        ResourceType::Host => (vec!["ensure", "ip_address", "hostname", "aliases"], vec![false, true, true, false]),
        ResourceType::Symlink => (vec!["ensure", "path", "target"], vec![false, true, true]),
        _ => (vec!["ensure", "name", "system", "comment", "shell", "home", "password", "expiry_date", "group", "groups"],
            vec![false, true, false, false, false, false, false, false, false, false]),
    };
    assert(str_views(r.0@) =~= key_names(parameter_keys(kind)));
    assert(r.1@ =~= key_required(parameter_keys(kind)));
    r
}

/// What reading the parameters of a resource of `kind` from a hash gives:
/// the message for the first required key missing or for a key left over.
pub open spec fn params_check(kind: ResourceType, file: Seq<char>, path: Seq<char>, h: Seq<(Node, Node)>) -> Result<(), Seq<char>> {
    let ks = key_names(parameter_keys(kind));
    match first_missing(h, ks, key_required(parameter_keys(kind))) {
        Some(i) => Err(missing_key_message(file, path, ks[i])),
        None => match leftover_key(remove_all(h, ks)) {
            Some(k) => Err(unexpected_key_message(file, path, k)),
            None => Ok(()),
        },
    }
}

/// Whether parameters hold, for each key of `kind`, the value that the hash
/// holds for it, read from `path` and the key.
pub open spec fn params_match(p: UnresolvedParameters, kind: ResourceType, file: Seq<char>, path: Seq<char>, h: Seq<(Node, Node)>) -> bool {
    let ks = key_names(parameter_keys(kind));
    &&& p.kind == kind
    &&& p.values@.len() == ks.len()
    &&& forall|i: int| 0 <= i < ks.len() ==> {
        let v = #[trigger] p.values@[i];
        &&& lookup_at(h, ks, i) is None ==> v is None
        &&& lookup_at(h, ks, i) matches Some(n) ==> (v matches Some(u) && u.inner == n
            && u.source.file@ == file && u.source.path@ == path + "."@ + ks[i])
    }
}

/// The parameters of a resource as the configuration states them: the value
/// of each key of its kind, if present, with where it was read.
pub struct UnresolvedParameters {
    pub kind: ResourceType,
    pub values: Vec<Option<UnresolvedNode>>,
}

/// Parameters hold a value or none for each key of a served kind, and a
/// value for each required key.
pub open spec fn params_wf(p: UnresolvedParameters) -> bool {
    &&& served_kind(p.kind)
    &&& p.values@.len() == parameter_keys(p.kind).len()
    &&& forall|i: int| 0 <= i < p.values@.len() && #[trigger] parameter_keys(p.kind)[i].1 ==> p.values@[i] is Some
}

proof fn lemma_none_missing(h: Seq<(Node, Node)>, keys: Seq<Seq<char>>, required: Seq<bool>, i: int)
    requires
        first_missing(h, keys, required) is None,
        0 <= i < keys.len(),
        required[i],
    ensures
        lookup_at(h, keys, i) is Some,
    decreases i,
{
    if lookup_at(h, keys, i) is None {
        if forall|j: int| 0 <= j < i ==> !(#[trigger] required[j] && lookup_at(h, keys, j) is None) {
            assert(false);
        } else {
            let j = choose|j: int| 0 <= j < i && #[trigger] required[j] && lookup_at(h, keys, j) is None;
            lemma_none_missing(h, keys, required, j);
        }
    }
}

impl UnresolvedParameters {
    pub fn kind(&self) -> (r: ResourceType)
        ensures
            r == self.kind,
    {
        self.kind
    }

    /// Reads the parameters of a resource of `kind` from a hash: the keys of
    /// the kind, the required ones present, and no other key.
    pub fn try_from(kind: ResourceType, source: &Source, hash: Vec<(Node, Node)>) -> (r: Result<UnresolvedParameters, String>)
        requires
            served_kind(kind),
        ensures
            match params_check(kind, source.file@, source.path@, hash@) {
                Err(m) => r is Err && r->Err_0@ == m,
                Ok(_) => r is Ok && params_match(r->Ok_0, kind, source.file@, source.path@, hash@),
            },
            r matches Ok(p) ==> params_wf(p),
    {
        let (keys, required) = keys_of(kind);
        let ghost h = hash@;
        match take_keys(source, hash, keys.as_slice(), required.as_slice()) {
            Ok(values) => {
                proof {
                    let ks = key_names(parameter_keys(kind));
                    assert forall|i: int| 0 <= i < values@.len() && #[trigger] parameter_keys(kind)[i].1 implies values@[i] is Some by {
                        assert(key_required(parameter_keys(kind))[i]);
                        lemma_none_missing(h, ks, key_required(parameter_keys(kind)), i);
                        assert(params_match(UnresolvedParameters { kind, values }, kind, source.file@, source.path@, h));
                        assert(lookup_at(h, ks, i) is Some);
                    }
                }
                Ok(UnresolvedParameters { kind, values })
            },
            Err(m) => Err(m),
        }
    }
}

} // verus!
