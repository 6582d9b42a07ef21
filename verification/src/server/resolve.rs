use crate::server::client::entry_of;
use crate::server::source::{source_text, Source};
use crate::server::unresolved::{sourced, sourced_message, UnresolvedNode};
use crate::server::yaml::Node;
use crate::text::{chars_of, slice_chars, string_of};
use vstd::prelude::*;

verus! {

/// The text that opens a variable reference: `${pullconf::`.
pub open spec fn var_open() -> Seq<char> {
    seq!['$', '{', 'p', 'u', 'l', 'l', 'c', 'o', 'n', 'f', ':', ':']
}

/// Why a variable reference cannot be substituted.
pub enum VarError {
    Brace,
    Limit(Seq<char>),
    Unknown(Seq<char>),
    NotString,
}

/// The message for a variable reference that cannot be substituted.
pub open spec fn var_message(file: Seq<char>, path: Seq<char>, e: VarError) -> Seq<char> {
    source_text(file, path) + match e {
        VarError::Brace => ": failed to find closing brace for variable"@,
        VarError::Limit(v) => ": recursion limit reached while resolving variable `"@ + v + "`"@,
        VarError::Unknown(v) => ": reference to unknown variable `"@ + v + "`"@,
        VarError::NotString => ": node must be a string"@,
    }
}

/// What a node that is a whole variable reference (`${pullconf::name}`)
/// stands for: the value of the variable, followed through variables that
/// are references themselves, at most ten levels deep; `None` for a node
/// that is no reference.
pub open spec fn variable_of(vars: Seq<(String, Node)>, node: Node, depth: nat) -> Result<Option<Node>, VarError>
    decreases 11 - depth,
{
    match node {
        Node::String(s) => if s@.len() >= 12 && s@.take(12) == var_open() {
            let rest = s@.skip(12);
            if rest.len() == 0 || rest.last() != '}' {
                Err(VarError::Brace)
            } else if depth > 10 {
                Err(VarError::Limit(rest.drop_last()))
            } else {
                match entry_of(vars, rest.drop_last()) {
                    None => Err(VarError::Unknown(rest.drop_last())),
                    Some(v) => match variable_of(vars, v, depth + 1) {
                        Err(e) => Err(e),
                        Ok(Some(x)) => Ok(Some(x)),
                        Ok(None) => Ok(Some(v)),
                    },
                }
            }
        } else {
            Ok(None)
        },
        _ => Ok(None),
    }
}

/// Whether a node is a text that starts a variable reference.
pub open spec fn is_reference(n: Node) -> bool {
    n matches Node::String(t) && t@.len() >= 12 && t@.take(12) == var_open()
}

/// A node that is a whole reference `${pullconf::name}` stands for the
/// value of the variable `name` when that value is no reference itself,
/// and is refused as unknown when no variable has that name; a text that
/// does not start a reference, or a node that is no text, stands for none;
/// a reference without its closing brace is refused.
pub proof fn lemma_variable_reference(vars: Seq<(String, Node)>, node: Node, name: Seq<char>, depth: nat)
    requires
        depth <= 10,
    ensures
        (node matches Node::String(t) && t@ == var_open() + name + seq!['}']) ==> (
            (entry_of(vars, name) is None ==> variable_of(vars, node, depth) == Err::<Option<Node>, VarError>(VarError::Unknown(name)))
            && (entry_of(vars, name) is Some && !is_reference(entry_of(vars, name)->Some_0)
                ==> variable_of(vars, node, depth) == Ok::<Option<Node>, VarError>(Some(entry_of(vars, name)->Some_0)))),
        !is_reference(node) ==> variable_of(vars, node, depth) == Ok::<Option<Node>, VarError>(None),
        (node matches Node::String(t) && t@.len() >= 12 && t@.take(12) == var_open() && t@.last() != '}')
            ==> variable_of(vars, node, depth) == Err::<Option<Node>, VarError>(VarError::Brace),
{
    if node is String && node->String_0@ == var_open() + name + seq!['}'] {
        let full = var_open() + name + seq!['}'];
        assert(full.take(12) =~= var_open());
        assert(full.skip(12) =~= name + seq!['}']);
        assert((name + seq!['}']).drop_last() =~= name);
        if let Some(v) = entry_of(vars, name) {
            if !is_reference(v) {
                assert(variable_of(vars, v, depth + 1) == Ok::<Option<Node>, VarError>(None));
            }
        }
    }
    if let Node::String(t) = node {
        if t@.len() >= 12 && t@.take(12) == var_open() && t@.last() != '}' {
            assert(t@.skip(12).len() == 0 || t@.skip(12).last() == t@.last());
        }
    }
}

/// The position of the variable named `name`.
fn variable_index(vars: &Vec<(String, Node)>, name: &Vec<char>) -> (r: Option<usize>)
    ensures
        match r {
            Some(i) => i < vars@.len() && entry_of(vars@, name@) == Some(vars@[i as int].1),
            None => entry_of(vars@, name@) is None,
        },
{
    let mut i: usize = 0;
    while i < vars.len()
        invariant
            i <= vars.len(),
            forall|j: int| 0 <= j < i ==> #[trigger] vars@[j].0@ != name@,
        decreases vars.len() - i,
    {
        if crate::text::str_eq_chars(vars[i].0.as_str(), name) {
            let ghost k = choose|k: int| 0 <= k < vars@.len() && #[trigger] vars@[k].0@ == name@
                && forall|j: int| 0 <= j < k ==> #[trigger] vars@[j].0@ != name@;
            assert(k == i) by {
                if k < i {
                    assert(vars@[k].0@ != name@);
                } else if k > i {
                    assert(vars@[i as int].0@ != name@);
                }
            }
            return Some(i);
        }
        i = i + 1;
    }
    None
}

/// Whether `cs` holds `pat` at position `p`.
pub open spec fn holds_at(cs: Seq<char>, pat: Seq<char>, p: int) -> bool {
    0 <= p && p + pat.len() <= cs.len() && cs.subrange(p, p + pat.len()) == pat
}

fn matches_at(cs: &Vec<char>, pat: &Vec<char>, p: usize) -> (r: bool)
    ensures
        r == holds_at(cs@, pat@, p as int),
{
    if p > cs.len() || pat.len() > cs.len() - p {
        return false;
    }
    let mut k: usize = 0;
    while k < pat.len()
        invariant
            k <= pat.len(),
            p + pat.len() <= cs.len(),
            forall|j: int| 0 <= j < k ==> cs@[p + j] == pat@[j],
        decreases pat.len() - k,
    {
        if cs[p + k] != pat[k] {
            assert(cs@.subrange(p as int, p + pat.len())[k as int] != pat@[k as int]);
            return false;
        }
        k = k + 1;
    }
    assert(cs@.subrange(p as int, p + pat.len()) =~= pat@);
    true
}

/// Resolves a node that may be a whole variable reference.
pub(crate) fn variable_of_node<'a>(source: &Source, node: &Node, depth: usize, vars: &'a Vec<(String, Node)>) -> (r: Result<Option<&'a Node>, String>)
    requires
        depth <= 11,
    ensures
        match variable_of(vars@, *node, depth as nat) {
            Ok(Some(v)) => r matches Ok(Some(x)) && *x == v,
            Ok(None) => r matches Ok(None),
            Err(e) => r is Err && r->Err_0@ == var_message(source.file@, source.path@, e),
        },
    decreases 11 - depth,
{
    let s = match node {
        Node::String(s) => s,
        _ => {
            return Ok(None);
        },
    };
    let cs = chars_of(s.as_str());
    let open = vec!['$', '{', 'p', 'u', 'l', 'l', 'c', 'o', 'n', 'f', ':', ':'];
    assert(open@ =~= var_open());
    if !matches_at(&cs, &open, 0) {
        proof {
            if s@.len() >= 12 && s@.take(12) == var_open() {
                assert(cs@.subrange(0, 12) =~= s@.take(12));
            }
        }
        return Ok(None);
    }
    assert(s@.take(12) =~= cs@.subrange(0, 12));
    if cs.len() == 12 || cs[cs.len() - 1] != '}' {
        return Err(sourced(source, ": failed to find closing brace for variable"));
    }
    let name = slice_chars(&cs, 12, cs.len() - 1);
    assert(name@ =~= s@.skip(12).drop_last());
    if depth > 10 {
        let n = string_of(&name);
        return Err(sourced_message(source, ": recursion limit reached while resolving variable `", n.as_str(), "`"));
    }
    match variable_index(vars, &name) {
        None => {
            let n = string_of(&name);
            Err(sourced_message(source, ": reference to unknown variable `", n.as_str(), "`"))
        },
        Some(i) => {
            let v = &vars[i].1;
            match variable_of_node(source, v, depth + 1, vars) {
                Err(m) => Err(m),
                Ok(Some(x)) => Ok(Some(x)),
                Ok(None) => Ok(Some(v)),
            }
        },
    }
}

impl UnresolvedNode {
    /// The value that the node stands for when it is a whole variable
    /// reference, followed through references at most ten levels deep.
    pub fn maybe_variable<'a>(&self, depth: usize, vars: &'a Vec<(String, Node)>) -> (r: Result<Option<&'a Node>, String>)
        requires
            depth <= 11,
        ensures
            match variable_of(vars@, self.inner, depth as nat) {
                Ok(Some(v)) => r matches Ok(Some(x)) && *x == v,
                Ok(None) => r matches Ok(None),
                Err(e) => r is Err && r->Err_0@ == var_message(self.source.file@, self.source.path@, e),
            },
    {
        variable_of_node(&self.source, &self.inner, depth, vars)
    }
}

/// The positions where `pat` starts in `cs` from `p` on, matched from left
/// to right without overlap.
pub open spec fn occ_from(cs: Seq<char>, pat: Seq<char>, p: int) -> Seq<int>
    decreases cs.len() - p,
{
    if p < 0 || pat.len() == 0 || p + pat.len() > cs.len() {
        seq![]
    } else if holds_at(cs, pat, p) {
        seq![p] + occ_from(cs, pat, p + pat.len())
    } else {
        occ_from(cs, pat, p + 1)
    }
}

/// The text with each occurrence of `pat` from `p` on, matched from left to
/// right without overlap, replaced by `rep`, as `str::replace` does.
pub open spec fn replace_from(cs: Seq<char>, pat: Seq<char>, rep: Seq<char>, p: int) -> Seq<char>
    decreases cs.len() - p,
{
    if p < 0 || p >= cs.len() || pat.len() == 0 {
        cs.skip(p)
    } else if holds_at(cs, pat, p) {
        rep + replace_from(cs, pat, rep, p + pat.len())
    } else {
        seq![cs[p]] + replace_from(cs, pat, rep, p + 1)
    }
}

/// The first closing position after `p`, and the positions that follow it.
pub open spec fn close_after(suffixes: Seq<int>, p: int) -> Option<(int, Seq<int>)>
    decreases suffixes.len(),
{
    if suffixes.len() == 0 {
        None
    } else if suffixes[0] > p {
        Some((suffixes[0], suffixes.drop_first()))
    } else {
        close_after(suffixes.drop_first(), p)
    }
}

/// The names of the variables referenced in `cs`: for each opening, in
/// order, the text up to the first closing brace after it that no earlier
/// reference took; `None` when an opening finds no brace.
pub open spec fn extract_vars(cs: Seq<char>, openings: Seq<int>, closings: Seq<int>) -> Option<Seq<Seq<char>>>
    decreases openings.len(),
{
    if openings.len() == 0 {
        Some(seq![])
    } else {
        let p = openings[0];
        match close_after(closings, p) {
            None => None,
            Some(c) => match extract_vars(cs, openings.drop_first(), c.1) {
                None => None,
                Some(rest) => Some(seq![cs.subrange(p + 12, c.0)] + rest),
            },
        }
    }
}

/// What substituting the variables referenced in a string node gives: the
/// string with each reference replaced by the value of its variable (itself
/// substituted, at most ten levels deep); `None` for a node that is no string.
pub open spec fn nested_of(vars: Seq<(String, Node)>, node: Node, depth: nat) -> Result<Option<Seq<char>>, VarError>
    decreases 11 - depth, 2int, 0int,
{
    match node {
        Node::String(s) => match extract_vars(s@, occ_from(s@, var_open(), 0), occ_from(s@, seq!['}'], 0)) {
            None => Err(VarError::Brace),
            Some(vs) => match subst_fold(vars, s@, vs, vs.len(), depth) {
                Err(e) => Err(e),
                Ok(t) => Ok(Some(t)),
            },
        },
        _ => Ok(None),
    }
}

/// What substituting the first `n` variables of `vs` into `s` gives.
pub open spec fn subst_fold(vars: Seq<(String, Node)>, s: Seq<char>, vs: Seq<Seq<char>>, n: nat, depth: nat) -> Result<Seq<char>, VarError>
    decreases 11 - depth, 1int, n,
{
    if n == 0 || n > vs.len() {
        Ok(s)
    } else {
        match subst_fold(vars, s, vs, (n - 1) as nat, depth) {
            Err(e) => Err(e),
            Ok(cur) => {
                let var = vs[n - 1];
                if depth > 10 {
                    Err(VarError::Limit(var))
                } else {
                    match entry_of(vars, var) {
                        None => Err(VarError::Unknown(var)),
                        Some(v) => {
                            let sub = match nested_of(vars, v, depth + 1) {
                                Err(e) => Err(e),
                                Ok(Some(t)) => Ok(t),
                                Ok(None) => match v {
                                    Node::String(t) => Ok(t@),
                                    _ => Err(VarError::NotString),
                                },
                            };
                            match sub {
                                Err(e) => Err(e),
                                Ok(t) => Ok(replace_from(cur, var_open() + var + seq!['}'], t, 0)),
                            }
                        },
                    }
                }
            },
        }
    }
}

/// The positions of the occurrences of `pat` in `cs`.
fn occurrences(cs: &Vec<char>, pat: &Vec<char>) -> (r: Vec<usize>)
    requires
        pat.len() > 0,
    ensures
        r@.map_values(|x: usize| x as int) == occ_from(cs@, pat@, 0),
        forall|i: int| 0 <= i < r@.len() ==> r@[i] + pat@.len() <= cs@.len(),
        forall|i: int| 0 <= i < r@.len() ==> holds_at(cs@, pat@, #[trigger] r@[i] as int),
{
    let mut out: Vec<usize> = Vec::new();
    let mut p: usize = 0;
    while p < cs.len()
        invariant
            p <= cs.len(),
            pat.len() > 0,
            out@.map_values(|x: usize| x as int) + occ_from(cs@, pat@, p as int) == occ_from(cs@, pat@, 0),
            forall|i: int| 0 <= i < out@.len() ==> out@[i] + pat@.len() <= cs@.len(),
            forall|i: int| 0 <= i < out@.len() ==> holds_at(cs@, pat@, #[trigger] out@[i] as int),
        decreases cs.len() - p,
    {
        if matches_at(cs, pat, p) {
            let ghost before = out@;
            out.push(p);
            assert(out@.map_values(|x: usize| x as int) =~= before.map_values(|x: usize| x as int).push(p as int));
            assert(before.map_values(|x: usize| x as int) + occ_from(cs@, pat@, p as int)
                =~= out@.map_values(|x: usize| x as int) + occ_from(cs@, pat@, (p + pat.len()) as int));
            p = p + pat.len();
        } else {
            p = p + 1;
        }
    }
    assert(occ_from(cs@, pat@, p as int) =~= Seq::<int>::empty());
    assert(out@.map_values(|x: usize| x as int) + Seq::<int>::empty() =~= out@.map_values(|x: usize| x as int));
    out
}

/// The text with each occurrence of `pat` replaced by `rep`.
pub(crate) fn replace_all(cs: &Vec<char>, pat: &Vec<char>, rep: &Vec<char>) -> (r: Vec<char>)
    requires
        pat.len() > 0,
    ensures
        r@ == replace_from(cs@, pat@, rep@, 0),
{
    let mut out: Vec<char> = Vec::new();
    let mut p: usize = 0;
    while p < cs.len()
        invariant
            p <= cs.len(),
            pat.len() > 0,
            out@ + replace_from(cs@, pat@, rep@, p as int) == replace_from(cs@, pat@, rep@, 0),
        decreases cs.len() - p,
    {
        if matches_at(cs, pat, p) {
            let ghost before = out@;
            let mut k: usize = 0;
            while k < rep.len()
                invariant
                    k <= rep.len(),
                    out@ == before + rep@.take(k as int),
                decreases rep.len() - k,
            {
                out.push(rep[k]);
                k = k + 1;
                assert(out@ =~= before + rep@.take(k as int));
            }
            assert(rep@.take(rep.len() as int) =~= rep@);
            assert(before + replace_from(cs@, pat@, rep@, p as int) =~= out@ + replace_from(cs@, pat@, rep@, (p + pat.len()) as int));
            p = p + pat.len();
        } else {
            let ghost before = out@;
            out.push(cs[p]);
            assert(before + replace_from(cs@, pat@, rep@, p as int) =~= out@ + replace_from(cs@, pat@, rep@, (p + 1) as int));
            p = p + 1;
        }
    }
    assert(replace_from(cs@, pat@, rep@, p as int) =~= Seq::<char>::empty());
    assert(out@ + Seq::<char>::empty() =~= out@);
    out
}

/// The positions as integers.
pub open spec fn positions(v: Seq<usize>) -> Seq<int> {
    v.map_values(|x: usize| x as int)
}

/// `out` followed by what the rest gives.
pub open spec fn prepend(out: Seq<Seq<char>>, rest: Option<Seq<Seq<char>>>) -> Option<Seq<Seq<char>>> {
    match rest {
        None => None,
        Some(r) => Some(out + r),
    }
}

proof fn lemma_close_after_skip(c: Seq<int>, i: int, p: int)
    requires
        0 <= i < c.len(),
        c[i] <= p,
    ensures
        close_after(c.skip(i), p) == close_after(c.skip(i + 1), p),
{
    assert(c.skip(i).drop_first() =~= c.skip(i + 1));
}

/// The names of the variables that a text references, in order.
fn extract(cs: &Vec<char>, openings: &Vec<usize>, closings: &Vec<usize>) -> (r: Option<Vec<Vec<char>>>)
    requires
        forall|i: int| 0 <= i < openings@.len() ==> holds_at(cs@, var_open(), #[trigger] openings@[i] as int),
        forall|i: int| 0 <= i < closings@.len() ==> holds_at(cs@, seq!['}'], #[trigger] closings@[i] as int),
    ensures
        match extract_vars(cs@, positions(openings@), positions(closings@)) {
            None => r is None,
            Some(vs) => r matches Some(v) && crate::text::views(v@) == vs,
        },
{
    let ghost o = positions(openings@);
    let ghost c = positions(closings@);
    let mut out: Vec<Vec<char>> = Vec::new();
    let mut oi: usize = 0;
    let mut ci: usize = 0;
    assert(o.skip(0) =~= o);
    assert(c.skip(0) =~= c);
    assert(crate::text::views(out@) + Seq::<Seq<char>>::empty() =~= crate::text::views(out@));
    while oi < openings.len()
        invariant
            oi <= openings.len(),
            ci <= closings.len(),
            o == positions(openings@),
            c == positions(closings@),
            forall|i: int| 0 <= i < openings@.len() ==> holds_at(cs@, var_open(), #[trigger] openings@[i] as int),
            forall|i: int| 0 <= i < closings@.len() ==> holds_at(cs@, seq!['}'], #[trigger] closings@[i] as int),
            extract_vars(cs@, o, c) == prepend(crate::text::views(out@), extract_vars(cs@, o.skip(oi as int), c.skip(ci as int))),
        decreases openings.len() - oi,
    {
        let p = openings[oi];
        let ghost ci0 = ci;
        assert(o.skip(oi as int)[0] == p as int);
        while ci < closings.len() && closings[ci] <= p
            invariant
                ci0 <= ci <= closings.len(),
                c == positions(closings@),
                close_after(c.skip(ci0 as int), p as int) == close_after(c.skip(ci as int), p as int),
            decreases closings.len() - ci,
        {
            proof {
                lemma_close_after_skip(c, ci as int, p as int);
            }
            ci = ci + 1;
        }
        if ci == closings.len() {
            assert(c.skip(ci as int) =~= Seq::<int>::empty());
            return None;
        }
        let q = closings[ci];
        assert(c.skip(ci as int)[0] == q as int);
        assert(c.skip(ci as int).drop_first() =~= c.skip(ci + 1));
        assert(q >= p + 12) by {
            assert(holds_at(cs@, var_open(), p as int));
            assert(holds_at(cs@, seq!['}'], q as int));
            assert(cs@.subrange(q as int, q + 1)[0] == '}');
            if q < p + 12 {
                let k = q - p;
                assert(cs@.subrange(p as int, p + 12)[k as int] == var_open()[k as int]);
            }
        }
        let name = slice_chars(cs, p + 12, q);
        let ghost before = crate::text::views(out@);
        out.push(name);
        assert(crate::text::views(out@) =~= before.push(name@));
        assert(o.skip(oi as int).drop_first() =~= o.skip(oi + 1));
        proof {
            let rest = extract_vars(cs@, o.skip(oi + 1), c.skip(ci + 1));
            if rest is Some {
                assert(before + (seq![name@] + rest->0) =~= crate::text::views(out@) + rest->0);
            }
        }
        oi = oi + 1;
        ci = ci + 1;
    }
    assert(o.skip(oi as int) =~= Seq::<int>::empty());
    assert(crate::text::views(out@) + Seq::<Seq<char>>::empty() =~= crate::text::views(out@));
    Some(out)
}

proof fn lemma_subst_err_stays(vars: Seq<(String, Node)>, s: Seq<char>, vs: Seq<Seq<char>>, k: nat, n: nat, depth: nat)
    requires
        k <= n <= vs.len(),
        subst_fold(vars, s, vs, k, depth) is Err,
    ensures
        subst_fold(vars, s, vs, n, depth) == subst_fold(vars, s, vs, k, depth),
    decreases n - k,
{
    if k < n {
        lemma_subst_err_stays(vars, s, vs, k, (n - 1) as nat, depth);
    }
}

/// Substitutes the variables referenced in a string node.
pub(crate) fn nested_of_node(source: &Source, node: &Node, depth: usize, vars: &Vec<(String, Node)>) -> (r: Result<Option<String>, String>)
    requires
        depth <= 11,
    ensures
        match nested_of(vars@, *node, depth as nat) {
            Ok(Some(t)) => r matches Ok(Some(x)) && x@ == t,
            Ok(None) => r matches Ok(None),
            Err(e) => r is Err && r->Err_0@ == var_message(source.file@, source.path@, e),
        },
    decreases 11 - depth,
{
    let s = match node {
        Node::String(s) => s,
        _ => {
            return Ok(None);
        },
    };
    let cs = chars_of(s.as_str());
    let open = vec!['$', '{', 'p', 'u', 'l', 'l', 'c', 'o', 'n', 'f', ':', ':'];
    assert(open@ =~= var_open());
    let close = vec!['}'];
    assert(close@ =~= seq!['}']);
    let openings = occurrences(&cs, &open);
    let closings = occurrences(&cs, &close);
    let names = match extract(&cs, &openings, &closings) {
        Some(v) => v,
        None => {
            return Err(sourced(source, ": failed to find closing brace for variable"));
        },
    };
    let ghost vs = crate::text::views(names@);
    let mut cur = cs;
    let mut k: usize = 0;
    while k < names.len()
        invariant
            k <= names.len(),
            depth <= 11,
            vs == crate::text::views(names@),
            vs.len() == names@.len(),
            *node == Node::String(*s),
            nested_of(vars@, *node, depth as nat) == match subst_fold(vars@, s@, vs, vs.len(), depth as nat) {
                Err(e) => Err(e),
                Ok(t) => Ok(Some(t)),
            },
            subst_fold(vars@, s@, vs, k as nat, depth as nat) == Ok::<Seq<char>, VarError>(cur@),
        decreases names.len() - k,
    {
        let name = &names[k];
        assert(vs[k as int] == name@);
        if depth > 10 {
            proof {
                lemma_subst_err_stays(vars@, s@, vs, (k + 1) as nat, vs.len(), depth as nat);
            }
            let n = string_of(name);
            return Err(sourced_message(source, ": recursion limit reached while resolving variable `", n.as_str(), "`"));
        }
        let i = match variable_index(vars, name) {
            Some(i) => i,
            None => {
                proof {
                    lemma_subst_err_stays(vars@, s@, vs, (k + 1) as nat, vs.len(), depth as nat);
                }
                let n = string_of(name);
                return Err(sourced_message(source, ": reference to unknown variable `", n.as_str(), "`"));
            },
        };
        let v = &vars[i].1;
        let sub = match nested_of_node(source, v, depth + 1, vars) {
            Err(m) => {
                proof {
                    lemma_subst_err_stays(vars@, s@, vs, (k + 1) as nat, vs.len(), depth as nat);
                }
                return Err(m);
            },
            Ok(Some(t)) => t,
            Ok(None) => match v {
                Node::String(t) => t.clone(),
                _ => {
                    proof {
                        lemma_subst_err_stays(vars@, s@, vs, (k + 1) as nat, vs.len(), depth as nat);
                    }
                    return Err(sourced(source, ": node must be a string"));
                },
            },
        };
        let mut pat = vec!['$', '{', 'p', 'u', 'l', 'l', 'c', 'o', 'n', 'f', ':', ':'];
        let ghost p0 = pat@;
        assert(p0 =~= var_open());
        let mut j: usize = 0;
        while j < name.len()
            invariant
                j <= name.len(),
                pat@ == p0 + name@.take(j as int),
            decreases name.len() - j,
        {
            pat.push(name[j]);
            j = j + 1;
            assert(pat@ =~= p0 + name@.take(j as int));
        }
        pat.push('}');
        assert(pat@ =~= var_open() + name@ + seq!['}']);
        let sc = chars_of(sub.as_str());
        cur = replace_all(&cur, &pat, &sc);
        k = k + 1;
    }
    Ok(Some(string_of(&cur)))
}

impl UnresolvedNode {
    /// The text of a string node with each variable reference in it
    /// replaced by the value of the variable, substituted in turn at most
    /// ten levels deep; `None` for a node that is no string.
    pub fn maybe_nested_variable(&self, depth: usize, vars: &Vec<(String, Node)>) -> (r: Result<Option<String>, String>)
        requires
            depth <= 11,
        ensures
            match nested_of(vars@, self.inner, depth as nat) {
                Ok(Some(t)) => r matches Ok(Some(x)) && x@ == t,
                Ok(None) => r matches Ok(None),
                Err(e) => r is Err && r->Err_0@ == var_message(self.source.file@, self.source.path@, e),
            },
    {
        nested_of_node(&self.source, &self.inner, depth, vars)
    }
}

} // verus!
