use crate::common::resources::execute::Environment;
use crate::common::resources::file::{Content, Replacement};
use crate::server::resolve::{var_message, variable_of, variable_of_node};
use crate::server::source::{source_text, Source};
use crate::server::typed::{
    after_values, all_of, any_text, indexed, list_at, list_checked, listed_as, resolve_text, resolve_texts, text_at,
    text_result,
};
use crate::server::unresolved::{missing_key_message, sourced, sourced_message, unexpected_key_message};
use crate::server::yaml::{find_key, key_index, Node};
use vstd::prelude::*;

verus! {

/// A node that is a hash.
pub open spec fn as_hash(file: Seq<char>, path: Seq<char>, node: Node) -> Result<Seq<(Node, Node)>, Seq<char>> {
    match node {
        Node::Hash(h) => Ok(h@),
        _ => Err(source_text(file, path) + ": node must be a hash"@),
    }
}

/// The hash that a node stands for, itself or as a reference to a variable.
pub open spec fn hash_at(vars: Seq<(String, Node)>, file: Seq<char>, path: Seq<char>, node: Node) -> Result<Seq<(Node, Node)>, Seq<char>> {
    match variable_of(vars, node, 0) {
        Err(e) => Err(var_message(file, path, e)),
        Ok(Some(v)) => as_hash(file, path, v),
        Ok(None) => as_hash(file, path, node),
    }
}

/// The key of the last entry of a hash that is at none of the `taken`
/// positions, when that key is a string: the key left over once the known
/// keys are taken out.
pub open spec fn leftover_besides(h: Seq<(Node, Node)>, taken: Seq<Option<int>>) -> Option<Seq<char>>
    decreases h.len(),
{
    if h.len() == 0 {
        None
    } else if taken.contains(Some(h.len() - 1)) {
        leftover_besides(h.drop_last(), taken)
    } else {
        match h.last().0 {
            Node::String(s) => Some(s@),
            _ => None,
        }
    }
}

/// The text of the entry at `j`, when there is one.
pub open spec fn opt_text_at(vars: Seq<(String, Node)>, file: Seq<char>, path: Seq<char>, h: Seq<(Node, Node)>, j: Option<int>) -> Result<Option<Seq<char>>, Seq<char>> {
    match j {
        None => Ok(None),
        Some(j) => match text_at(vars, file, path, h[j].1) {
            Err(m) => Err(m),
            Ok(t) => Ok(Some(t)),
        },
    }
}

/// A variable of an environment: its name and, when it has one, its value.
pub open spec fn environment_at(vars: Seq<(String, Node)>, file: Seq<char>, path: Seq<char>, node: Node) -> Result<(Seq<char>, Option<Seq<char>>), Seq<char>> {
    match hash_at(vars, file, path, node) {
        Err(m) => Err(m),
        Ok(h) => match key_index(h, "name"@) {
            None => Err(missing_key_message(file, path, "name"@)),
            Some(i) => match text_at(vars, file, path + "."@ + "name"@, h[i].1) {
                Err(m) => Err(m),
                Ok(name) => {
                    let j = key_index(h, "value"@);
                    match opt_text_at(vars, file, path + "."@ + "value"@, h, j) {
                        Err(m) => Err(m),
                        Ok(value) => match leftover_besides(h, seq![Some(i), j]) {
                            Some(k) => Err(unexpected_key_message(file, path, k)),
                            None => Ok((name, value)),
                        },
                    }
                },
            },
        },
    }
}

/// A placeholder and the command whose output replaces it.
pub open spec fn replacement_at(vars: Seq<(String, Node)>, file: Seq<char>, path: Seq<char>, node: Node) -> Result<(Seq<char>, Seq<Seq<char>>), Seq<char>> {
    match hash_at(vars, file, path, node) {
        Err(m) => Err(m),
        Ok(h) => match key_index(h, "variable"@) {
            None => Err(missing_key_message(file, path, "variable"@)),
            Some(i) => match text_at(vars, file, path + "."@ + "variable"@, h[i].1) {
                Err(m) => Err(m),
                Ok(variable) => match key_index(h, "command"@) {
                    None => Err(missing_key_message(file, path, "command"@)),
                    Some(j) => match list_checked(vars, file, path + "."@ + "command"@, h[j].1, any_text()) {
                        Err(m) => Err(m),
                        Ok(command) => match leftover_besides(h, seq![Some(i), Some(j)]) {
                            Some(k) => Err(unexpected_key_message(file, path, k)),
                            None => Ok((variable, command)),
                        },
                    },
                },
            },
        },
    }
}

/// The replacements of an array.
pub open spec fn replacements_at(vars: Seq<(String, Node)>, file: Seq<char>, path: Seq<char>, node: Node) -> Result<Seq<(Seq<char>, Seq<Seq<char>>)>, Seq<char>> {
    match list_at(vars, file, path, node) {
        Err(m) => Err(m),
        Ok(items) => all_of(items, |p: Seq<char>, n: Node| replacement_at(vars, file, p, n)),
    }
}

/// The variables of an environment.
pub open spec fn environments_at(vars: Seq<(String, Node)>, file: Seq<char>, path: Seq<char>, node: Node) -> Result<Seq<(Seq<char>, Option<Seq<char>>)>, Seq<char>> {
    match list_at(vars, file, path, node) {
        Err(m) => Err(m),
        Ok(items) => all_of(items, |p: Seq<char>, n: Node| environment_at(vars, file, p, n)),
    }
}

/// The content of a file: its text and the placeholders to replace.
pub open spec fn content_at(vars: Seq<(String, Node)>, file: Seq<char>, path: Seq<char>, node: Node) -> Result<(Seq<char>, Seq<(Seq<char>, Seq<Seq<char>>)>), Seq<char>> {
    match hash_at(vars, file, path, node) {
        Err(m) => Err(m),
        Ok(h) => match key_index(h, "value"@) {
            None => Err(missing_key_message(file, path, "value"@)),
            Some(i) => match text_at(vars, file, path + "."@ + "value"@, h[i].1) {
                Err(m) => Err(m),
                Ok(value) => {
                    let j = key_index(h, "replace"@);
                    let replace = match j {
                        None => Ok(seq![]),
                        Some(j) => replacements_at(vars, file, path + "."@ + "replace"@, h[j].1),
                    };
                    match replace {
                        Err(m) => Err(m),
                        Ok(rs) => match leftover_besides(h, seq![Some(i), j]) {
                            Some(k) => Err(unexpected_key_message(file, path, k)),
                            None => Ok((value, rs)),
                        },
                    }
                },
            },
        },
    }
}

/// The view of an optional text.
pub open spec fn opt_view(o: Option<String>) -> Option<Seq<char>> {
    match o {
        Some(s) => Some(s@),
        None => None,
    }
}

/// Whether an environment variable is the one read.
pub open spec fn environment_is(e: Environment, v: (Seq<char>, Option<Seq<char>>)) -> bool {
    e.name@ == v.0 && opt_view(e.value) == v.1
}

/// Whether a replacement is the one read.
pub open spec fn replacement_is(r: Replacement, v: (Seq<char>, Seq<Seq<char>>)) -> bool {
    &&& r.variable@ == v.0
    &&& r.command@.len() == v.1.len()
    &&& forall|i: int| 0 <= i < v.1.len() ==> (#[trigger] r.command@[i])@ == v.1[i]
    &&& r.environment@.len() == 0
}

/// Whether a content is the one read.
pub open spec fn content_is(c: Content, v: (Seq<char>, Seq<(Seq<char>, Seq<Seq<char>>)>)) -> bool {
    &&& c.value@ == v.0
    &&& c.replace@.len() == v.1.len()
    &&& forall|i: int| 0 <= i < v.1.len() ==> replacement_is(#[trigger] c.replace@[i], v.1[i])
}

/// Whether `r` is what reading a node gives when `c` is its reading.
pub open spec fn read_as<T, V>(r: Result<T, String>, c: Result<V, Seq<char>>, rel: spec_fn(T, V) -> bool) -> bool {
    match r {
        Ok(v) => c is Ok && rel(v, c->Ok_0),
        Err(m) => c == Err::<V, Seq<char>>(m@),
    }
}

/// Whether `r` is what reading a list gives when `c` is its reading.
pub open spec fn read_all_as<T, V>(r: Result<Vec<T>, String>, c: Result<Seq<V>, Seq<char>>, rel: spec_fn(T, V) -> bool) -> bool {
    match r {
        Ok(v) => c is Ok && c->Ok_0.len() == v@.len() && forall|i: int| 0 <= i < v@.len() ==> rel(#[trigger] v@[i], c->Ok_0[i]),
        Err(m) => c == Err::<Seq<V>, Seq<char>>(m@),
    }
}

/// The hash that a node stands for.
fn hash_of<'a>(source: &Source, node: &'a Node, vars: &'a Vec<(String, Node)>) -> (r: Result<&'a Vec<(Node, Node)>, String>)
    ensures
        match hash_at(vars@, source.file@, source.path@, *node) {
            Ok(h) => r is Ok && r->Ok_0@ == h,
            Err(m) => r is Err && r->Err_0@ == m,
        },
{
    let target: &Node = match variable_of_node(source, node, 0, vars) {
        Err(m) => {
            return Err(m);
        },
        Ok(Some(v)) => v,
        Ok(None) => node,
    };
    match target {
        Node::Hash(h) => Ok(h),
        _ => Err(sourced(source, ": node must be a hash")),
    }
}

/// The view of an optional position.
pub open spec fn at_int(o: Option<usize>) -> Option<int> {
    match o {
        Some(i) => Some(i as int),
        None => None,
    }
}

/// The key left over in a hash once the entries at `a` and `b` are taken out.
fn leftover_of(h: &Vec<(Node, Node)>, a: Option<usize>, b: Option<usize>) -> (r: Option<String>)
    ensures
        opt_view(r) == leftover_besides(h@, seq![at_int(a), at_int(b)]),
{
    let ghost taken = seq![at_int(a), at_int(b)];
    let mut k: usize = h.len();
    assert(h@.take(k as int) =~= h@);
    while k > 0
        invariant
            k <= h.len(),
            taken == seq![at_int(a), at_int(b)],
            leftover_besides(h@, taken) == leftover_besides(h@.take(k as int), taken),
        decreases k,
    {
        let j = k - 1;
        assert(h@.take(k as int).drop_last() =~= h@.take(j as int));
        assert(h@.take(k as int).last() == h@[j as int]);
        let is_taken = match a {
            Some(x) => x == j,
            None => false,
        } || match b {
            Some(x) => x == j,
            None => false,
        };
        assert(is_taken == taken.contains(Some(j as int))) by {
            if taken.contains(Some(j as int)) {
                let t = choose|t: int| 0 <= t < taken.len() && taken[t] == Some(j as int);
                assert(t == 0 || t == 1);
            }
            if is_taken {
                if a == Some(j) {
                    assert(taken[0] == Some(j as int));
                } else {
                    assert(taken[1] == Some(j as int));
                }
            }
        }
        if !is_taken {
            return match &h[j].0 {
                Node::String(s) => Some(s.clone()),
                _ => None,
            };
        }
        k = j;
    }
    None
}

/// Reads the variable of an environment that a node stands for.
pub fn resolve_environment(source: &Source, node: &Node, vars: &Vec<(String, Node)>) -> (r: Result<Environment, String>)
    ensures
        read_as(r, environment_at(vars@, source.file@, source.path@, *node), |e: Environment, v: (Seq<char>, Option<Seq<char>>)| environment_is(e, v)),
{
    let h = match hash_of(source, node, vars) {
        Err(m) => {
            return Err(m);
        },
        Ok(h) => h,
    };
    let i = match find_key(h, "name") {
        None => {
            return Err(sourced_message(source, ": failed to find required key `", "name", "`"));
        },
        Some(i) => i,
    };
    let name = match resolve_text(&source.add_key("name"), &h[i].1, vars) {
        Err(m) => {
            return Err(m);
        },
        Ok(t) => t,
    };
    let j = find_key(h, "value");
    let value = match j {
        None => None,
        Some(j) => match resolve_text(&source.add_key("value"), &h[j].1, vars) {
            Err(m) => {
                return Err(m);
            },
            Ok(t) => Some(t),
        },
    };
    match leftover_of(h, Some(i), j) {
        Some(k) => Err(sourced_message(source, ": encountered unexpected key `", k.as_str(), "`")),
        None => Ok(Environment { name, value }),
    }
}

/// Reads a placeholder and the command whose output replaces it.
pub fn resolve_replacement(source: &Source, node: &Node, vars: &Vec<(String, Node)>) -> (r: Result<Replacement, String>)
    ensures
        read_as(r, replacement_at(vars@, source.file@, source.path@, *node), |x: Replacement, v: (Seq<char>, Seq<Seq<char>>)| replacement_is(x, v)),
{
    let h = match hash_of(source, node, vars) {
        Err(m) => {
            return Err(m);
        },
        Ok(h) => h,
    };
    let i = match find_key(h, "variable") {
        None => {
            return Err(sourced_message(source, ": failed to find required key `", "variable", "`"));
        },
        Some(i) => i,
    };
    let variable = match resolve_text(&source.add_key("variable"), &h[i].1, vars) {
        Err(m) => {
            return Err(m);
        },
        Ok(t) => t,
    };
    let j = match find_key(h, "command") {
        None => {
            return Err(sourced_message(source, ": failed to find required key `", "command", "`"));
        },
        Some(j) => j,
    };
    let command = match resolve_texts(&source.add_key("command"), &h[j].1, vars) {
        Err(m) => {
            return Err(m);
        },
        Ok(c) => c,
    };
    match leftover_of(h, Some(i), Some(j)) {
        Some(k) => Err(sourced_message(source, ": encountered unexpected key `", k.as_str(), "`")),
        None => Ok(Replacement { variable, command, environment: Vec::new() }),
    }
}

/// Reads the replacements that the items of an array stand for.
pub fn resolve_replacements(source: &Source, node: &Node, vars: &Vec<(String, Node)>) -> (r: Result<Vec<Replacement>, String>)
    ensures
        read_all_as(r, replacements_at(vars@, source.file@, source.path@, *node), |x: Replacement, v: (Seq<char>, Seq<Seq<char>>)| replacement_is(x, v)),
{
    let a = match crate::server::typed::array_of(source, node, vars) {
        Err(m) => {
            return Err(m);
        },
        Ok(a) => a,
    };
    let ghost items = indexed(source.path@, a@);
    let ghost read = |p: Seq<char>, n: Node| replacement_at(vars@, source.file@, p, n);
    let ghost mut done: Seq<(Seq<char>, Seq<Seq<char>>)> = seq![];
    proof {
        crate::server::typed::lemma_all_of_start(items, read);
    }
    let mut out: Vec<Replacement> = Vec::new();
    let mut i: usize = 0;
    while i < a.len()
        invariant
            i <= a.len(),
            items == indexed(source.path@, a@),
            list_at(vars@, source.file@, source.path@, *node) == Ok::<Seq<(Seq<char>, Node)>, Seq<char>>(items),
            read == (|p: Seq<char>, n: Node| replacement_at(vars@, source.file@, p, n)),
            done.len() == i,
            out@.len() == i,
            forall|j: int| 0 <= j < i ==> replacement_is(#[trigger] out@[j], done[j]),
            all_of(items, read) == after_values(done, all_of(items.skip(i as int), read)),
        decreases a.len() - i,
    {
        let s = source.add_index(i);
        proof {
            crate::server::typed::lemma_all_of_step(items, read, i as int, done);
            assert(items[i as int] == (s.path@, a@[i as int]));
        }
        match resolve_replacement(&s, &a[i], vars) {
            Err(m) => {
                return Err(m);
            },
            Ok(t) => {
                let ghost v = replacement_at(vars@, source.file@, s.path@, a@[i as int])->Ok_0;
                proof {
                    done = done.push(v);
                }
                out.push(t);
            },
        }
        i = i + 1;
    }
    proof {
        crate::server::typed::lemma_all_of_end(items, read, done);
    }
    Ok(out)
}

/// Reads the variables of an environment that the items of an array stand for.
pub fn resolve_environments(source: &Source, node: &Node, vars: &Vec<(String, Node)>) -> (r: Result<Vec<Environment>, String>)
    ensures
        read_all_as(r, environments_at(vars@, source.file@, source.path@, *node), |x: Environment, v: (Seq<char>, Option<Seq<char>>)| environment_is(x, v)),
{
    let a = match crate::server::typed::array_of(source, node, vars) {
        Err(m) => {
            return Err(m);
        },
        Ok(a) => a,
    };
    let ghost items = indexed(source.path@, a@);
    let ghost read = |p: Seq<char>, n: Node| environment_at(vars@, source.file@, p, n);
    let ghost mut done: Seq<(Seq<char>, Option<Seq<char>>)> = seq![];
    proof {
        crate::server::typed::lemma_all_of_start(items, read);
    }
    let mut out: Vec<Environment> = Vec::new();
    let mut i: usize = 0;
    while i < a.len()
        invariant
            i <= a.len(),
            items == indexed(source.path@, a@),
            list_at(vars@, source.file@, source.path@, *node) == Ok::<Seq<(Seq<char>, Node)>, Seq<char>>(items),
            read == (|p: Seq<char>, n: Node| environment_at(vars@, source.file@, p, n)),
            done.len() == i,
            out@.len() == i,
            forall|j: int| 0 <= j < i ==> environment_is(#[trigger] out@[j], done[j]),
            all_of(items, read) == after_values(done, all_of(items.skip(i as int), read)),
        decreases a.len() - i,
    {
        let s = source.add_index(i);
        proof {
            crate::server::typed::lemma_all_of_step(items, read, i as int, done);
            assert(items[i as int] == (s.path@, a@[i as int]));
        }
        match resolve_environment(&s, &a[i], vars) {
            Err(m) => {
                return Err(m);
            },
            Ok(t) => {
                let ghost v = environment_at(vars@, source.file@, s.path@, a@[i as int])->Ok_0;
                proof {
                    done = done.push(v);
                }
                out.push(t);
            },
        }
        i = i + 1;
    }
    proof {
        crate::server::typed::lemma_all_of_end(items, read, done);
    }
    Ok(out)
}

/// Reads the content of a file that a node stands for.
pub fn resolve_content(source: &Source, node: &Node, vars: &Vec<(String, Node)>) -> (r: Result<Content, String>)
    ensures
        read_as(r, content_at(vars@, source.file@, source.path@, *node),
            |x: Content, v: (Seq<char>, Seq<(Seq<char>, Seq<Seq<char>>)>)| content_is(x, v)),
{
    let h = match hash_of(source, node, vars) {
        Err(m) => {
            return Err(m);
        },
        Ok(h) => h,
    };
    let i = match find_key(h, "value") {
        None => {
            return Err(sourced_message(source, ": failed to find required key `", "value", "`"));
        },
        Some(i) => i,
    };
    let value = match resolve_text(&source.add_key("value"), &h[i].1, vars) {
        Err(m) => {
            return Err(m);
        },
        Ok(t) => t,
    };
    let j = find_key(h, "replace");
    let replace = match j {
        None => Vec::new(),
        Some(j) => match resolve_replacements(&source.add_key("replace"), &h[j].1, vars) {
            Err(m) => {
                return Err(m);
            },
            Ok(rs) => rs,
        },
    };
    match leftover_of(h, Some(i), j) {
        Some(k) => Err(sourced_message(source, ": encountered unexpected key `", k.as_str(), "`")),
        None => Ok(Content { value, replace }),
    }
}

} // verus!
