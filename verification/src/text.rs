use vstd::prelude::*;

verus! {

/// `String::push` appends one character to the end of the string.
pub assume_specification[ std::string::String::push ](s: &mut std::string::String, ch: char)
    ensures
        final(s)@ == old(s)@.push(ch),
;

/// The character sequences held by a vector of character vectors.
pub open spec fn views(v: Seq<Vec<char>>) -> Seq<Seq<char>> {
    v.map_values(|x: Vec<char>| x@)
}

pub open spec fn is_ascii_lowercase(c: char) -> bool {
    'a' <= c && c <= 'z'
}

pub open spec fn is_ascii_uppercase(c: char) -> bool {
    'A' <= c && c <= 'Z'
}

pub open spec fn is_ascii_digit(c: char) -> bool {
    '0' <= c && c <= '9'
}

pub open spec fn is_ascii_alphabetic(c: char) -> bool {
    is_ascii_lowercase(c) || is_ascii_uppercase(c)
}

pub open spec fn is_ascii_alphanumeric(c: char) -> bool {
    is_ascii_alphabetic(c) || is_ascii_digit(c)
}

pub open spec fn is_ascii_hexdigit(c: char) -> bool {
    is_ascii_digit(c) || ('a' <= c && c <= 'f') || ('A' <= c && c <= 'F')
}

pub fn ascii_lowercase(c: char) -> (r: bool)
    ensures
        r == is_ascii_lowercase(c),
{
    'a' <= c && c <= 'z'
}

pub fn ascii_digit(c: char) -> (r: bool)
    ensures
        r == is_ascii_digit(c),
{
    '0' <= c && c <= '9'
}

pub fn ascii_alphabetic(c: char) -> (r: bool)
    ensures
        r == is_ascii_alphabetic(c),
{
    ('a' <= c && c <= 'z') || ('A' <= c && c <= 'Z')
}

pub fn ascii_alphanumeric(c: char) -> (r: bool)
    ensures
        r == is_ascii_alphanumeric(c),
{
    ascii_alphabetic(c) || ascii_digit(c)
}

pub fn ascii_hexdigit(c: char) -> (r: bool)
    ensures
        r == is_ascii_hexdigit(c),
{
    ascii_digit(c) || ('a' <= c && c <= 'f') || ('A' <= c && c <= 'F')
}

/// The characters of a string slice, in order.
pub fn chars_of(s: &str) -> (r: Vec<char>)
    ensures
        r@ == s@,
{
    let mut v: Vec<char> = Vec::new();
    for c in it: s.chars()
        invariant
            v@ == it.seq().take(it.index() as int),
    {
        v.push(c);
    }
    v
}

/// A string holding the given characters, in order.
pub fn string_of(v: &Vec<char>) -> (r: String)
    ensures
        r@ == v@,
{
    let mut s = String::new();
    let mut i: usize = 0;
    while i < v.len()
        invariant
            i <= v.len(),
            s@ == v@.take(i as int),
        decreases v.len() - i,
    {
        s.push(v[i]);
        i = i + 1;
        assert(v@.take(i as int) =~= v@.take((i - 1) as int).push(v@[i - 1]));
    }
    assert(v@.take(v.len() as int) =~= v@);
    s
}

/// Appends the characters of `t` to `s`.
pub fn push_str(s: &mut String, t: &str)
    ensures
        final(s)@ == old(s)@ + t@,
{
    let ghost s0 = s@;
    let cs = chars_of(t);
    let mut i: usize = 0;
    while i < cs.len()
        invariant
            i <= cs.len(),
            cs@ == t@,
            s@ == s0 + cs@.take(i as int),
        decreases cs.len() - i,
    {
        s.push(cs[i]);
        i = i + 1;
        assert(cs@.take(i as int) =~= cs@.take((i - 1) as int).push(cs@[i - 1]));
    }
    assert(cs@.take(cs.len() as int) =~= cs@);
}

/// Whether two character sequences are equal.
pub fn chars_eq(a: &Vec<char>, b: &Vec<char>) -> (r: bool)
    ensures
        r == (a@ == b@),
{
    if a.len() != b.len() {
        return false;
    }
    let mut i: usize = 0;
    while i < a.len()
        invariant
            i <= a.len(),
            a.len() == b.len(),
            forall|j: int| 0 <= j < i ==> a@[j] == b@[j],
        decreases a.len() - i,
    {
        if a[i] != b[i] {
            return false;
        }
        i = i + 1;
    }
    assert(a@ =~= b@);
    true
}

/// Whether the characters of a string equal the given characters.
pub fn str_eq_chars(s: &str, b: &Vec<char>) -> (r: bool)
    ensures
        r == (s@ == b@),
{
    let a = chars_of(s);
    chars_eq(&a, b)
}

/// Whether two strings hold the same characters.
pub fn str_eq(s: &str, t: &str) -> (r: bool)
    ensures
        r == (s@ == t@),
{
    let a = chars_of(s);
    let b = chars_of(t);
    chars_eq(&a, &b)
}

/// A string holding `a` followed by `b`.
pub fn concat2(a: &str, b: &str) -> (r: String)
    ensures
        r@ == a@ + b@,
{
    let mut s = String::new();
    push_str(&mut s, a);
    push_str(&mut s, b);
    assert(s@ =~= a@ + b@);
    s
}

/// A string holding `a` followed by `b` and `c`.
pub fn concat3(a: &str, b: &str, c: &str) -> (r: String)
    ensures
        r@ == a@ + b@ + c@,
{
    let mut s = String::new();
    push_str(&mut s, a);
    push_str(&mut s, b);
    push_str(&mut s, c);
    assert(s@ =~= a@ + b@ + c@);
    s
}

/// The pieces joined one after the other.
pub open spec fn join_all(parts: Seq<Seq<char>>) -> Seq<char>
    decreases parts.len(),
{
    if parts.len() == 0 {
        seq![]
    } else {
        join_all(parts.drop_last()) + parts.last()
    }
}

/// The character sequences of string slices.
pub open spec fn str_views(parts: Seq<&str>) -> Seq<Seq<char>> {
    parts.map_values(|p: &str| p@)
}

/// A string holding the pieces one after the other.
pub fn concat_all(parts: &[&str]) -> (r: String)
    ensures
        r@ == join_all(str_views(parts@)),
{
    let mut s = String::new();
    let mut i: usize = 0;
    while i < parts.len()
        invariant
            i <= parts.len(),
            s@ == join_all(str_views(parts@).take(i as int)),
        decreases parts.len() - i,
    {
        push_str(&mut s, parts[i]);
        assert(str_views(parts@).take(i + 1).drop_last() =~= str_views(parts@).take(i as int));
        i = i + 1;
    }
    assert(str_views(parts@).take(parts.len() as int) =~= str_views(parts@));
    s
}

/// The pieces of `s` between occurrences of `sep`, as `str::split` yields them,
/// with `cur` prepended to the first piece.
pub open spec fn split_from(s: Seq<char>, sep: char, cur: Seq<char>) -> Seq<Seq<char>>
    decreases s.len(),
{
    if s.len() == 0 {
        seq![cur]
    } else if s[0] == sep {
        seq![cur] + split_from(s.drop_first(), sep, seq![])
    } else {
        split_from(s.drop_first(), sep, cur.push(s[0]))
    }
}

/// The pieces of `s` between occurrences of `sep` (`str::split`).
pub open spec fn split(s: Seq<char>, sep: char) -> Seq<Seq<char>> {
    split_from(s, sep, seq![])
}

/// The pieces of a character sequence between occurrences of `sep`.
pub fn split_chars(cs: &Vec<char>, sep: char) -> (r: Vec<Vec<char>>)
    ensures
        views(r@) == split(cs@, sep),
{
    let mut out: Vec<Vec<char>> = Vec::new();
    let mut cur: Vec<char> = Vec::new();
    let mut i: usize = 0;
    assert(cs@.skip(0) =~= cs@);
    assert(views(out@) =~= Seq::<Seq<char>>::empty());
    while i < cs.len()
        invariant
            i <= cs.len(),
            split(cs@, sep) == views(out@) + split_from(cs@.skip(i as int), sep, cur@),
        decreases cs.len() - i,
    {
        let c = cs[i];
        let ghost rest = cs@.skip(i as int);
        assert(rest.drop_first() =~= cs@.skip(i + 1));
        assert(rest[0] == c);
        if c == sep {
            let ghost old_out = views(out@);
            out.push(cur);
            assert(views(out@) =~= old_out + seq![cur@]);
            assert(split(cs@, sep) =~= views(out@) + split_from(cs@.skip(i + 1), sep, seq![]));
            cur = Vec::new();
            assert(cur@ =~= Seq::<char>::empty());
        } else {
            cur.push(c);
        }
        i = i + 1;
    }
    assert(cs@.skip(i as int) =~= Seq::<char>::empty());
    let ghost old_out = views(out@);
    out.push(cur);
    assert(views(out@) =~= old_out + seq![cur@]);
    out
}

/// The index of the first occurrence of `c` in `s`, if any.
pub open spec fn first_index_of(s: Seq<char>, c: char) -> Option<int> {
    if exists|i: int| 0 <= i < s.len() && s[i] == c {
        Some(choose|i: int| 0 <= i < s.len() && s[i] == c && forall|j: int| 0 <= j < i ==> s[j] != c)
    } else {
        None
    }
}

/// The index of the last occurrence of `c` in `s`, if any.
pub open spec fn last_index_of(s: Seq<char>, c: char) -> Option<int> {
    if exists|i: int| 0 <= i < s.len() && s[i] == c {
        Some(choose|i: int| 0 <= i < s.len() && s[i] == c && forall|j: int| i < j < s.len() ==> s[j] != c)
    } else {
        None
    }
}

/// The position of the first occurrence of `c`.
pub fn find_first(cs: &Vec<char>, c: char) -> (r: Option<usize>)
    ensures
        match r {
            Some(i) => first_index_of(cs@, c) == Some(i as int),
            None => first_index_of(cs@, c) is None,
        },
        r matches Some(i) ==> i < cs.len() && cs@[i as int] == c,
{
    let mut i: usize = 0;
    while i < cs.len()
        invariant
            i <= cs.len(),
            forall|j: int| 0 <= j < i ==> cs@[j] != c,
        decreases cs.len() - i,
    {
        if cs[i] == c {
            let ghost k = choose|k: int| 0 <= k < cs@.len() && cs@[k] == c && forall|j: int| 0 <= j < k ==> cs@[j] != c;
            assert(0 <= i < cs@.len() && cs@[i as int] == c && forall|j: int| 0 <= j < i ==> cs@[j] != c);
            assert(k == i) by {
                if k < i {
                    assert(cs@[k] != c);
                } else if k > i {
                    assert(cs@[i as int] != c);
                }
            }
            return Some(i);
        }
        i = i + 1;
    }
    None
}

/// The position of the last occurrence of `c`.
pub fn find_last(cs: &Vec<char>, c: char) -> (r: Option<usize>)
    ensures
        match r {
            Some(i) => last_index_of(cs@, c) == Some(i as int),
            None => last_index_of(cs@, c) is None,
        },
        r matches Some(i) ==> i < cs.len() && cs@[i as int] == c,
{
    let mut i: usize = cs.len();
    while i > 0
        invariant
            i <= cs.len(),
            forall|j: int| i <= j < cs.len() ==> cs@[j] != c,
        decreases i,
    {
        if cs[i - 1] == c {
            let ghost m = (i - 1) as int;
            let ghost k = choose|k: int| 0 <= k < cs@.len() && cs@[k] == c && forall|j: int| k < j < cs@.len() ==> cs@[j] != c;
            assert(0 <= m < cs@.len() && cs@[m] == c && forall|j: int| m < j < cs@.len() ==> cs@[j] != c);
            assert(k == m) by {
                if k < m {
                    assert(cs@[m] != c);
                } else if k > m {
                    assert(cs@[k] != c);
                }
            }
            return Some(i - 1);
        }
        i = i - 1;
    }
    None
}

/// The characters of `cs` from `start` (inclusive) to `end` (exclusive).
pub fn slice_chars(cs: &Vec<char>, start: usize, end: usize) -> (r: Vec<char>)
    requires
        start <= end <= cs.len(),
    ensures
        r@ == cs@.subrange(start as int, end as int),
{
    let mut out: Vec<char> = Vec::new();
    let mut i: usize = start;
    while i < end
        invariant
            start <= i <= end <= cs.len(),
            out@ == cs@.subrange(start as int, i as int),
        decreases end - i,
    {
        out.push(cs[i]);
        i = i + 1;
        assert(out@ =~= cs@.subrange(start as int, i as int));
    }
    out
}

/// The index of the first element of `s` that satisfies `p`, if any.
pub open spec fn first_where<A>(s: Seq<A>, p: spec_fn(A) -> bool) -> Option<int> {
    if exists|i: int| 0 <= i < s.len() && p(s[i]) {
        Some(choose|i: int| 0 <= i < s.len() && p(s[i]) && forall|j: int| 0 <= j < i ==> !p(s[j]))
    } else {
        None
    }
}

/// A position that satisfies `p` with none before it is the first one.
pub proof fn lemma_first_where_found<A>(s: Seq<A>, p: spec_fn(A) -> bool, i: int)
    requires
        0 <= i < s.len(),
        p(s[i]),
        forall|j: int| 0 <= j < i ==> !p(#[trigger] s[j]),
    ensures
        first_where(s, p) == Some(i),
{
    let k = choose|k: int| 0 <= k < s.len() && p(s[k]) && forall|j: int| 0 <= j < k ==> !p(s[j]);
    assert(0 <= k < s.len() && p(s[k]) && forall|j: int| 0 <= j < k ==> !p(s[j]));
    if k < i {
        assert(!p(s[k]));
    } else if k > i {
        assert(!p(s[i]));
    }
}

/// Where some position satisfies `p`, the first one does, and none before it.
pub proof fn lemma_first_where_some<A>(s: Seq<A>, p: spec_fn(A) -> bool, i: int)
    requires
        0 <= i < s.len(),
        p(s[i]),
    ensures
        first_where(s, p) matches Some(k) && 0 <= k <= i && p(s[k]) && forall|j: int| 0 <= j < k ==> !p(#[trigger] s[j]),
    decreases i,
{
    if exists|j: int| 0 <= j < i && p(#[trigger] s[j]) {
        let j = choose|j: int| 0 <= j < i && p(#[trigger] s[j]);
        lemma_first_where_some(s, p, j);
    } else {
        lemma_first_where_found(s, p, i);
    }
}

/// Without a position that satisfies `p`, there is no first one.
pub proof fn lemma_first_where_none<A>(s: Seq<A>, p: spec_fn(A) -> bool)
    requires
        forall|j: int| 0 <= j < s.len() ==> !p(#[trigger] s[j]),
    ensures
        first_where(s, p) is None,
{
}

/// The sets of characters that names and versions may be made of.
#[derive(Clone, Copy)]
pub enum CharClass {
    /// ASCII letters and digits, `-` and `.`.
    Hostname,
    /// ASCII lowercase letters and digits, `+`, `-` and `.`.
    PackageName,
    /// ASCII letters and digits, `+`, `~` and `.`.
    DebianRevision,
    /// ASCII letters and digits, `+`, `-`, `~` and `.`.
    UpstreamVersion,
    /// ASCII letters and digits, `_`, `-` and `.`.
    PreferenceName,
    /// ASCII letters and digits, `-` and `_`.
    Identifier,
    /// Digits and the lowercase letters `a` to `f`.
    ApiKey,
    /// The octal digits `0` to `7`.
    Octal,
}

pub open spec fn class_allows(k: CharClass, c: char) -> bool {
    match k {
        CharClass::Hostname => is_ascii_alphanumeric(c) || c == '-' || c == '.',
        CharClass::PackageName => is_ascii_lowercase(c) || is_ascii_digit(c) || c == '+' || c == '-'
            || c == '.',
        CharClass::DebianRevision => is_ascii_alphanumeric(c) || c == '+' || c == '~' || c == '.',
        CharClass::UpstreamVersion => is_ascii_alphanumeric(c) || c == '+' || c == '-' || c == '~'
            || c == '.',
        CharClass::PreferenceName => is_ascii_alphanumeric(c) || c == '_' || c == '-' || c == '.',
        CharClass::Identifier => is_ascii_alphanumeric(c) || c == '-' || c == '_',
        CharClass::ApiKey => is_ascii_digit(c) || ('a' <= c && c <= 'f'),
        CharClass::Octal => '0' <= c && c <= '7',
    }
}

/// The characters of each class, written out: host names take ASCII
/// letters and digits, `-` and `.`; package names ASCII lowercase letters
/// and digits, `+`, `-` and `.`; Debian revisions ASCII letters and digits,
/// `+`, `~` and `.`; upstream versions ASCII letters and digits, `+`, `-`,
/// `~` and `.`; preference names ASCII letters and digits, `_`, `-` and `.`;
/// identifiers ASCII letters and digits, `-` and `_`; API keys digits and `a`
/// to `f`; octal numbers `0` to `7`.
pub proof fn lemma_class_allows(c: char)
    ensures
        class_allows(CharClass::Hostname, c) <==> (('a' <= c <= 'z') || ('A' <= c <= 'Z') || ('0' <= c <= '9')
            || c == '-' || c == '.'),
        class_allows(CharClass::PackageName, c) <==> (('a' <= c <= 'z') || ('0' <= c <= '9') || c == '+' || c == '-'
            || c == '.'),
        class_allows(CharClass::DebianRevision, c) <==> (('a' <= c <= 'z') || ('A' <= c <= 'Z') || ('0' <= c <= '9')
            || c == '+' || c == '~' || c == '.'),
        class_allows(CharClass::UpstreamVersion, c) <==> (('a' <= c <= 'z') || ('A' <= c <= 'Z') || ('0' <= c <= '9')
            || c == '+' || c == '-' || c == '~' || c == '.'),
        class_allows(CharClass::PreferenceName, c) <==> (('a' <= c <= 'z') || ('A' <= c <= 'Z') || ('0' <= c <= '9')
            || c == '_' || c == '-' || c == '.'),
        class_allows(CharClass::Identifier, c) <==> (('a' <= c <= 'z') || ('A' <= c <= 'Z') || ('0' <= c <= '9')
            || c == '-' || c == '_'),
        class_allows(CharClass::ApiKey, c) <==> (('0' <= c <= '9') || ('a' <= c <= 'f')),
        class_allows(CharClass::Octal, c) <==> ('0' <= c <= '7'),
{
}

/// A text holds only characters of a class exactly when no character
/// outside it is found; the one found lies outside it and every one before
/// it inside.
pub proof fn lemma_first_outside(s: Seq<char>, k: CharClass)
    ensures
        first_where(s, outside_class(k)) is None <==> forall|i: int| 0 <= i < s.len() ==> class_allows(k, #[trigger] s[i]),
        first_where(s, outside_class(k)) matches Some(i) ==> 0 <= i < s.len() && !class_allows(k, s[i])
            && forall|j: int| 0 <= j < i ==> class_allows(k, #[trigger] s[j]),
{
    let p = outside_class(k);
    assert forall|c: char| #[trigger] p(c) == !class_allows(k, c) by {}
    if exists|i: int| 0 <= i < s.len() && p(s[i]) {
        let i = choose|i: int| 0 <= i < s.len() && p(s[i]);
        lemma_first_where_some(s, p, i);
        assert(!class_allows(k, s[i]));
    } else {
        assert forall|i: int| 0 <= i < s.len() implies class_allows(k, #[trigger] s[i]) by {
            assert(!p(s[i]));
        }
    }
}

pub open spec fn outside_class(k: CharClass) -> spec_fn(char) -> bool {
    |c: char| !class_allows(k, c)
}

/// Whether `c` belongs to the class.
pub fn allows(k: CharClass, c: char) -> (r: bool)
    ensures
        r == class_allows(k, c),
{
    match k {
        CharClass::Hostname => ascii_alphanumeric(c) || c == '-' || c == '.',
        CharClass::PackageName => ascii_lowercase(c) || ascii_digit(c) || c == '+' || c == '-' || c
            == '.',
        CharClass::DebianRevision => ascii_alphanumeric(c) || c == '+' || c == '~' || c == '.',
        CharClass::UpstreamVersion => ascii_alphanumeric(c) || c == '+' || c == '-' || c == '~'
            || c == '.',
        CharClass::PreferenceName => ascii_alphanumeric(c) || c == '_' || c == '-' || c == '.',
        CharClass::Identifier => ascii_alphanumeric(c) || c == '-' || c == '_',
        CharClass::ApiKey => ascii_digit(c) || ('a' <= c && c <= 'f'),
        CharClass::Octal => '0' <= c && c <= '7',
    }
}

/// The first character of `cs` outside the class, if any.
pub fn find_outside(cs: &Vec<char>, k: CharClass) -> (r: Option<char>)
    ensures
        match first_where(cs@, outside_class(k)) {
            Some(i) => r == Some(cs@[i]),
            None => r is None,
        },
{
    let mut i: usize = 0;
    while i < cs.len()
        invariant
            i <= cs.len(),
            forall|j: int| 0 <= j < i ==> class_allows(k, #[trigger] cs@[j]),
        decreases cs.len() - i,
    {
        if !allows(k, cs[i]) {
            proof {
                lemma_first_where_found(cs@, outside_class(k), i as int);
            }
            return Some(cs[i]);
        }
        i = i + 1;
    }
    proof {
        lemma_first_where_none(cs@, outside_class(k));
    }
    None
}

/// A one-character string.
pub fn char_string(c: char) -> (r: String)
    ensures
        r@ == seq![c],
{
    let mut s = String::new();
    s.push(c);
    assert(s@ =~= seq![c]);
    s
}

/// A string holding `a`, the character `c` and `b`.
pub fn around_char(a: &str, c: char, b: &str) -> (r: String)
    ensures
        r@ == a@ + seq![c] + b@,
{
    let mut s = String::new();
    push_str(&mut s, a);
    s.push(c);
    push_str(&mut s, b);
    assert(s@ =~= a@ + seq![c] + b@);
    s
}

/// A string holding `a`, the characters `cs` and `b`.
pub fn around_chars(a: &str, cs: &Vec<char>, b: &str) -> (r: String)
    ensures
        r@ == a@ + cs@ + b@,
{
    let mut s = String::new();
    push_str(&mut s, a);
    let mid = string_of(cs);
    push_str(&mut s, mid.as_str());
    push_str(&mut s, b);
    assert(s@ =~= a@ + cs@ + b@);
    s
}

} // verus!
