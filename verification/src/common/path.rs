use crate::text::{chars_eq, chars_of, views};
use vstd::prelude::*;

verus! {

/// The component emitted for a segment between two separators: empty
/// segments and `.` segments are normalized away, as `Path::components`
/// does for absolute paths.
pub open spec fn emit(cur: Seq<char>) -> Seq<Seq<char>> {
    if cur.len() == 0 || cur == seq!['.'] {
        seq![]
    } else {
        seq![cur]
    }
}

pub open spec fn comps_from(s: Seq<char>, cur: Seq<char>) -> Seq<Seq<char>>
    decreases s.len(),
{
    if s.len() == 0 {
        emit(cur)
    } else if s[0] == '/' {
        emit(cur) + comps_from(s.drop_first(), seq![])
    } else {
        comps_from(s.drop_first(), cur.push(s[0]))
    }
}

/// The normal components of an absolute path, in order.
pub open spec fn components(s: Seq<char>) -> Seq<Seq<char>> {
    comps_from(s, seq![])
}

pub open spec fn is_absolute(s: Seq<char>) -> bool {
    s.len() > 0 && s[0] == '/'
}

pub open spec fn dot_dot() -> Seq<char> {
    seq!['.', '.']
}

/// An absolute path none of whose components is a `..` reference.
pub open spec fn is_safe_path(s: Seq<char>) -> bool {
    is_absolute(s) && !components(s).contains(dot_dot())
}

/// Two paths are equal when their components are.
pub open spec fn same_path(a: Seq<char>, b: Seq<char>) -> bool {
    components(a) == components(b)
}

pub open spec fn is_prefix_of(a: Seq<Seq<char>>, b: Seq<Seq<char>>) -> bool {
    a.len() <= b.len() && b.take(a.len() as int) == a
}

/// `anc` is `p` itself or one of its ancestors (`p.ancestors()` yields it).
pub open spec fn is_ancestor_or_self(anc: Seq<char>, p: Seq<char>) -> bool {
    is_prefix_of(components(anc), components(p))
}

/// `anc` is one of the ancestors of `p` other than `p` itself
/// (`p.ancestors().skip(1)` yields it).
pub open spec fn is_proper_ancestor(anc: Seq<char>, p: Seq<char>) -> bool {
    is_prefix_of(components(anc), components(p)) && components(anc).len() < components(p).len()
}

/// `q` is the parent of `p` (`p.parent() == Some(q)`).
pub open spec fn is_parent(q: Seq<char>, p: Seq<char>) -> bool {
    components(p).len() > 0 && components(q) == components(p).drop_last()
}

/// The components of a path.
pub fn components_of(s: &str) -> (r: Vec<Vec<char>>)
    ensures
        views(r@) == components(s@),
{
    let cs = chars_of(s);
    let mut out: Vec<Vec<char>> = Vec::new();
    let mut cur: Vec<char> = Vec::new();
    let mut i: usize = 0;
    assert(cs@.skip(0) =~= cs@);
    assert(views(out@) =~= Seq::<Seq<char>>::empty());
    while i < cs.len()
        invariant
            i <= cs.len(),
            cs@ == s@,
            components(s@) == views(out@) + comps_from(cs@.skip(i as int), cur@),
        decreases cs.len() - i,
    {
        let c = cs[i];
        let ghost rest = cs@.skip(i as int);
        assert(rest.drop_first() =~= cs@.skip(i + 1));
        assert(rest[0] == c);
        if c == '/' {
            let ghost old_out = views(out@);
            let is_dot = cur.len() == 1 && cur[0] == '.';
            if cur.len() > 0 && !is_dot {
                out.push(cur);
                assert(views(out@) =~= old_out + seq![cur@]);
            } else {
                assert(cur@ == seq!['.'] || cur@.len() == 0) by {
                    if is_dot {
                        assert(cur@ =~= seq!['.']);
                    }
                }
                assert(views(out@) =~= old_out + emit(cur@));
            }
            assert(components(s@) =~= views(out@) + comps_from(cs@.skip(i + 1), seq![]));
            cur = Vec::new();
            assert(cur@ =~= Seq::<char>::empty());
        } else {
            cur.push(c);
        }
        i = i + 1;
    }
    assert(cs@.skip(i as int) =~= Seq::<char>::empty());
    let ghost old_out = views(out@);
    let is_dot = cur.len() == 1 && cur[0] == '.';
    if cur.len() > 0 && !is_dot {
        out.push(cur);
        assert(views(out@) =~= old_out + seq![cur@]);
    } else {
        assert(cur@ == seq!['.'] || cur@.len() == 0) by {
            if is_dot {
                assert(cur@ =~= seq!['.']);
            }
        }
        assert(views(out@) =~= old_out + emit(cur@));
    }
    out
}

fn comps_eq_upto(a: &Vec<Vec<char>>, b: &Vec<Vec<char>>, n: usize) -> (r: bool)
    requires
        n <= a.len(),
        n <= b.len(),
    ensures
        r == (views(a@).take(n as int) == views(b@).take(n as int)),
{
    let mut i: usize = 0;
    while i < n
        invariant
            i <= n,
            n <= a.len(),
            n <= b.len(),
            forall|j: int| 0 <= j < i ==> #[trigger] a@[j]@ == b@[j]@,
        decreases n - i,
    {
        if !chars_eq(&a[i], &b[i]) {
            assert(views(a@).take(n as int)[i as int] != views(b@).take(n as int)[i as int]);
            return false;
        }
        i = i + 1;
    }
    assert(views(a@).take(n as int) =~= views(b@).take(n as int));
    true
}

/// Whether two paths are equal (component-wise, as `PathBuf` compares).
pub fn path_eq(a: &str, b: &str) -> (r: bool)
    ensures
        r == same_path(a@, b@),
{
    let ca = components_of(a);
    let cb = components_of(b);
    if ca.len() != cb.len() {
        return false;
    }
    let r = comps_eq_upto(&ca, &cb, ca.len());
    assert(views(ca@).take(ca.len() as int) =~= views(ca@));
    assert(views(cb@).take(cb.len() as int) =~= views(cb@));
    r
}

/// Whether `anc` is `p` or an ancestor of `p`.
pub fn ancestor_or_self(anc: &str, p: &str) -> (r: bool)
    ensures
        r == is_ancestor_or_self(anc@, p@),
{
    let ca = components_of(anc);
    let cp = components_of(p);
    if ca.len() > cp.len() {
        return false;
    }
    let r = comps_eq_upto(&ca, &cp, ca.len());
    assert(views(ca@).take(ca.len() as int) =~= views(ca@));
    r
}

/// Whether `anc` is an ancestor of `p` other than `p` itself.
pub fn proper_ancestor(anc: &str, p: &str) -> (r: bool)
    ensures
        r == is_proper_ancestor(anc@, p@),
{
    let ca = components_of(anc);
    let cp = components_of(p);
    if ca.len() >= cp.len() {
        return false;
    }
    let r = comps_eq_upto(&ca, &cp, ca.len());
    assert(views(ca@).take(ca.len() as int) =~= views(ca@));
    r
}

/// Whether `q` is the parent of `p`.
pub fn parent_of(q: &str, p: &str) -> (r: bool)
    ensures
        r == is_parent(q@, p@),
{
    let cq = components_of(q);
    let cp = components_of(p);
    assert(views(cq@).len() == cq.len() && views(cp@).len() == cp.len());
    if cp.len() == 0 || cq.len() != cp.len() - 1 {
        return false;
    }
    let r = comps_eq_upto(&cq, &cp, cq.len());
    assert(views(cq@).take(cq.len() as int) =~= views(cq@));
    assert(views(cp@).take(cq.len() as int) =~= views(cp@).drop_last());
    r
}

/// Whether a path holds a `..` component.
pub fn has_dot_dot(s: &str) -> (r: bool)
    ensures
        r == components(s@).contains(dot_dot()),
{
    let cs = components_of(s);
    let dd = vec!['.', '.'];
    assert(dd@ =~= dot_dot());
    let mut i: usize = 0;
    while i < cs.len()
        invariant
            i <= cs.len(),
            views(cs@) == components(s@),
            dd@ == dot_dot(),
            forall|j: int| 0 <= j < i ==> views(cs@)[j] != dot_dot(),
        decreases cs.len() - i,
    {
        assert(views(cs@)[i as int] == cs@[i as int]@);
        if chars_eq(&cs[i], &dd) {
            assert(components(s@)[i as int] == dot_dot());
            return true;
        }
        i = i + 1;
    }
    assert(!components(s@).contains(dot_dot())) by {
        if components(s@).contains(dot_dot()) {
            let k = choose|k: int| 0 <= k < components(s@).len() && components(s@)[k] == dot_dot();
            assert(views(cs@)[k] != dot_dot());
        }
    }
    false
}

/// An absolute path without `..` references.
pub struct SafePathBuf(String);

impl View for SafePathBuf {
    type V = Seq<char>;

    closed spec fn view(&self) -> Seq<char> {
        self.0@
    }
}

impl Clone for SafePathBuf {
    fn clone(&self) -> (r: Self)
        ensures
            r@ == self@,
    {
        SafePathBuf(self.0.clone())
    }
}

impl SafePathBuf {
    /// Accepts a path that is absolute and holds no `..` component.
    pub fn from_str(p: &str) -> (r: Result<SafePathBuf, String>)
        ensures
            r is Ok <==> is_safe_path(p@),
            r matches Ok(v) ==> v@ == p@,
            r matches Err(m) ==> m@ == (if !is_absolute(p@) {
                "path must be absolute, got `"@ + p@ + "`"@
            } else {
                "path components must not contain relative references such as '.' or '..'"@
            }),
    {
        let cs = chars_of(p);
        if cs.len() == 0 || cs[0] != '/' {
            return Err(crate::text::concat3("path must be absolute, got `", p, "`"));
        }
        if has_dot_dot(p) {
            return Err(
                "path components must not contain relative references such as '.' or '..'".to_owned(),
            );
        }
        Ok(SafePathBuf(p.to_owned()))
    }

    pub fn as_str(&self) -> (r: &str)
        ensures
            r@ == self@,
    {
        self.0.as_str()
    }

    /// The path as it is displayed.
    pub fn display(&self) -> (r: String)
        ensures
            r@ == self@,
    {
        self.0.clone()
    }
}

} // verus!
