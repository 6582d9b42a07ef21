use crate::text::str_eq;
use strict_yaml_rust::{StrictYaml, StrictYamlLoader};
use vstd::prelude::*;

verus! {

#[verifier::external_type_specification]
#[verifier::external_body]
pub struct ExStrictYaml(StrictYaml);

/// The documents that a StrictYAML loader reads from a text, or the text of
/// the scanner's error.
pub uninterp spec fn yaml_documents(text: Seq<char>) -> Result<Seq<Node>, Seq<char>>;

/// The library's form of a node that `strict_yaml_rust` read: each variant
/// taken over as it is, the items of an array and the entries of a hash in
/// their order.
#[verifier::external_body]
fn node_of(yaml: StrictYaml) -> Node {
    match yaml {
        StrictYaml::String(s) => Node::String(s),
        StrictYaml::Array(items) => Node::Array(items.into_iter().map(node_of).collect()),
        StrictYaml::Hash(hash) => Node::Hash(hash.into_iter().map(|(k, v)| (node_of(k), node_of(v))).collect()),
        StrictYaml::BadValue => Node::BadValue,
    }
}

/// Reads the documents of a text with `StrictYamlLoader::load_from_str` of
/// `strict_yaml_rust`. The result, documents or the scanner's message, is a
/// function of the text alone, named `yaml_documents`; the grammar of
/// StrictYAML is not stated here.
#[verifier::external_body]
pub fn load_documents(text: &str) -> (r: Result<Vec<Node>, String>)
    ensures
        match yaml_documents(text@) {
            Ok(d) => r is Ok && r->Ok_0@ == d,
            Err(m) => r is Err && r->Err_0@ == m,
        },
{
    match StrictYamlLoader::load_from_str(text) {
        Ok(documents) => Ok(documents.into_iter().map(node_of).collect()),
        Err(error) => Err(error.to_string()),
    }
}

/// A node of a StrictYAML document: a string scalar, an array or a hash
/// whose entries keep the order in which they were written.
pub enum Node {
    String(String),
    Array(Vec<Node>),
    Hash(Vec<(Node, Node)>),
    BadValue,
}

/// Whether a node is the string scalar `s`.
pub open spec fn is_string_node(n: Node, s: Seq<char>) -> bool {
    n matches Node::String(t) && t@ == s
}

/// The position of the first entry of a hash whose key is the string `key`.
pub open spec fn key_index(h: Seq<(Node, Node)>, key: Seq<char>) -> Option<int> {
    if exists|i: int| 0 <= i < h.len() && is_string_node(#[trigger] h[i].0, key)
            && forall|j: int| 0 <= j < i ==> !is_string_node(#[trigger] h[j].0, key) {
        Some(choose|i: int| 0 <= i < h.len() && is_string_node(#[trigger] h[i].0, key)
            && forall|j: int| 0 <= j < i ==> !is_string_node(#[trigger] h[j].0, key))
    } else {
        None
    }
}

impl Node {
    /// The text of a string scalar.
    pub fn as_str(&self) -> (r: Option<&str>)
        ensures
            match *self {
                Node::String(t) => r is Some && r->0@ == t@,
                _ => r is None,
            },
    {
        match self {
            Node::String(t) => Some(t.as_str()),
            _ => None,
        }
    }

    /// The text of a string scalar, taken out of the node.
    pub fn into_string(self) -> (r: Option<String>)
        ensures
            match self {
                Node::String(t) => r == Some(t),
                _ => r is None,
            },
    {
        match self {
            Node::String(t) => Some(t),
            _ => None,
        }
    }

    /// The items of an array, taken out of the node.
    pub fn into_vec(self) -> (r: Option<Vec<Node>>)
        ensures
            match self {
                Node::Array(v) => r == Some(v),
                _ => r is None,
            },
    {
        match self {
            Node::Array(v) => Some(v),
            _ => None,
        }
    }

    /// The entries of a hash, taken out of the node.
    pub fn into_hash(self) -> (r: Option<Vec<(Node, Node)>>)
        ensures
            match self {
                Node::Hash(h) => r == Some(h),
                _ => r is None,
            },
    {
        match self {
            Node::Hash(h) => Some(h),
            _ => None,
        }
    }
}

/// Whether the node is the string scalar `s`.
pub fn node_is_string(n: &Node, s: &str) -> (r: bool)
    ensures
        r == is_string_node(*n, s@),
{
    match n {
        Node::String(t) => str_eq(t.as_str(), s),
        _ => false,
    }
}

/// Removes the entry whose key is the string `key` from a hash and returns
/// its value, as `LinkedHashMap::remove` does.
pub fn remove_key(h: &mut Vec<(Node, Node)>, key: &str) -> (r: Option<Node>)
    ensures
        match key_index(old(h)@, key@) {
            Some(i) => r == Some(old(h)@[i].1) && final(h)@ == old(h)@.remove(i),
            None => r is None && final(h)@ == old(h)@,
        },
{
    let mut i: usize = 0;
    while i < h.len()
        invariant
            i <= h.len(),
            h@ == old(h)@,
            forall|j: int| 0 <= j < i ==> !is_string_node(#[trigger] h@[j].0, key@),
        decreases h.len() - i,
    {
        if node_is_string(&h[i].0, key) {
            let ghost k = choose|k: int| 0 <= k < h@.len() && is_string_node(#[trigger] h@[k].0, key@)
                && forall|j: int| 0 <= j < k ==> !is_string_node(#[trigger] h@[j].0, key@);
            assert(k == i) by {
                if k < i {
                    assert(!is_string_node(h@[k].0, key@));
                } else if k > i {
                    assert(!is_string_node(h@[i as int].0, key@));
                }
            }
            let (_, v) = h.remove(i);
            return Some(v);
        }
        i = i + 1;
    }
    assert(key_index(old(h)@, key@) is None) by {
        if exists|k: int| 0 <= k < h@.len() && is_string_node(#[trigger] h@[k].0, key@) {
            let k = choose|k: int| 0 <= k < h@.len() && is_string_node(#[trigger] h@[k].0, key@);
            assert(!is_string_node(h@[k].0, key@));
        }
    }
    None
}

/// The position of the entry whose key is the string `key` in a hash.
pub fn find_key(h: &Vec<(Node, Node)>, key: &str) -> (r: Option<usize>)
    ensures
        match key_index(h@, key@) {
            Some(i) => r == Some(i as usize),
            None => r is None,
        },
        r matches Some(i) ==> key_index(h@, key@) == Some(i as int) && i < h@.len(),
        r is None ==> key_index(h@, key@) is None,
{
    let mut i: usize = 0;
    while i < h.len()
        invariant
            i <= h.len(),
            forall|j: int| 0 <= j < i ==> !is_string_node(#[trigger] h@[j].0, key@),
        decreases h.len() - i,
    {
        if node_is_string(&h[i].0, key) {
            let ghost k = choose|k: int| 0 <= k < h@.len() && is_string_node(#[trigger] h@[k].0, key@)
                && forall|j: int| 0 <= j < k ==> !is_string_node(#[trigger] h@[j].0, key@);
            assert(k == i) by {
                if k < i {
                    assert(!is_string_node(h@[k].0, key@));
                } else if k > i {
                    assert(!is_string_node(h@[i as int].0, key@));
                }
            }
            return Some(i);
        }
        i = i + 1;
    }
    assert(key_index(h@, key@) is None) by {
        if exists|k: int| 0 <= k < h@.len() && is_string_node(#[trigger] h@[k].0, key@) {
            let k = choose|k: int| 0 <= k < h@.len() && is_string_node(#[trigger] h@[k].0, key@);
            assert(!is_string_node(h@[k].0, key@));
        }
    }
    None
}

/// The key of the last entry of a hash, when it is a string: what
/// `hash.pop_back().and_then(|(key, _)| key.into_string())` gives.
pub fn last_string_key(h: &Vec<(Node, Node)>) -> (r: Option<String>)
    ensures
        match r {
            Some(k) => h@.len() > 0 && is_string_node(h@.last().0, k@),
            None => h@.len() == 0 || !(h@.last().0 is String),
        },
{
    if h.len() == 0 {
        return None;
    }
    match &h[h.len() - 1].0 {
        Node::String(t) => Some(t.clone()),
        _ => None,
    }
}

} // verus!
