pub mod package;
pub mod preference;

use crate::parse::{int_error_message, int_error_string, parse_int, parse_u8, IntError};
use crate::text::{
    lemma_class_allows, lemma_first_outside, lemma_first_where_some, around_char, chars_of, class_allows, find_first, find_last, find_outside, first_index_of,
    first_where, is_ascii_digit, is_ascii_lowercase, last_index_of, outside_class, push_str,
    slice_chars, string_of, CharClass,
};
use vstd::prelude::*;

verus! {

/// The rules that a Debian package name can break.
#[derive(Clone, Copy, Debug, PartialEq, Eq)]
pub enum PackageNameError {
    TooShort,
    BadStart,
    BadChar(char),
}

/// Package names hold at least two characters, start with an ASCII lowercase
/// letter or digit and hold only ASCII lowercase letters, digits, `+`, `-`
/// and `.` (Debian policy, section "Source").
pub open spec fn package_name_check(s: Seq<char>) -> Result<(), PackageNameError> {
    if s.len() < 2 {
        Err(PackageNameError::TooShort)
    } else if !(is_ascii_lowercase(s[0]) || is_ascii_digit(s[0])) {
        Err(PackageNameError::BadStart)
    } else if let Some(i) = first_where(s, outside_class(CharClass::PackageName)) {
        Err(PackageNameError::BadChar(s[i]))
    } else {
        Ok(())
    }
}

/// A package name is accepted exactly when it holds at least two
/// characters, starts with an ASCII lowercase letter or digit and holds only
/// ASCII lowercase letters, digits, `+`, `-` and `.`; a refusal names the
/// rule broken, and for a character the first one that no name may hold.
pub proof fn lemma_package_name(s: Seq<char>)
    ensures
        package_name_check(s) is Ok <==> (s.len() >= 2 && (('a' <= s[0] <= 'z') || ('0' <= s[0] <= '9'))
            && forall|i: int| 0 <= i < s.len() ==> (('a' <= #[trigger] s[i] <= 'z') || ('0' <= s[i] <= '9')
                || s[i] == '+' || s[i] == '-' || s[i] == '.')),
        package_name_check(s) == Err::<(), PackageNameError>(PackageNameError::TooShort) <==> s.len() < 2,
        package_name_check(s) == Err::<(), PackageNameError>(PackageNameError::BadStart)
            <==> (s.len() >= 2 && !(('a' <= s[0] <= 'z') || ('0' <= s[0] <= '9'))),
        package_name_check(s) matches Err(PackageNameError::BadChar(c)) ==> exists|i: int| 0 <= i < s.len()
            && #[trigger] s[i] == c && !(('a' <= c <= 'z') || ('0' <= c <= '9') || c == '+' || c == '-' || c == '.')
            && forall|j: int| 0 <= j < i ==> (('a' <= #[trigger] s[j] <= 'z') || ('0' <= s[j] <= '9')
                || s[j] == '+' || s[j] == '-' || s[j] == '.'),
{
    let p = outside_class(CharClass::PackageName);
    assert forall|c: char| #[trigger] p(c) == !(('a' <= c <= 'z') || ('0' <= c <= '9') || c == '+' || c == '-' || c == '.') by {
        lemma_class_allows(c);
    }
    if s.len() >= 2 && (is_ascii_lowercase(s[0]) || is_ascii_digit(s[0])) {
        if exists|i: int| 0 <= i < s.len() && p(s[i]) {
            let i = choose|i: int| 0 <= i < s.len() && p(s[i]);
            lemma_first_where_some(s, p, i);
        } else {
            assert forall|i: int| 0 <= i < s.len() implies (('a' <= #[trigger] s[i] <= 'z') || ('0' <= s[i] <= '9')
                || s[i] == '+' || s[i] == '-' || s[i] == '.') by {
                assert(!p(s[i]));
            }
        }
    }
}

pub fn check_package_name(s: &str) -> (r: Result<(), PackageNameError>)
    ensures
        r == package_name_check(s@),
{
    let cs = chars_of(s);
    if cs.len() < 2 {
        return Err(PackageNameError::TooShort);
    }
    let first = cs[0];
    if !(crate::text::ascii_lowercase(first) || crate::text::ascii_digit(first)) {
        return Err(PackageNameError::BadStart);
    }
    match find_outside(&cs, CharClass::PackageName) {
        Some(c) => Err(PackageNameError::BadChar(c)),
        None => Ok(()),
    }
}

/// The rules that a Debian package version can break.
#[derive(Clone, Copy, Debug, PartialEq, Eq)]
pub enum VersionError {
    Epoch(IntError),
    Revision(char),
    Upstream(char),
}

/// The version without its epoch (`epoch:`), or the error that the epoch gives.
pub open spec fn version_without_epoch(s: Seq<char>) -> Result<Seq<char>, VersionError> {
    match first_index_of(s, ':') {
        None => Ok(s),
        Some(i) => match parse_int(s.take(i), 0, 255, false) {
            Err(e) => Err(VersionError::Epoch(e)),
            Ok(_) => Ok(s.skip(i + 1)),
        },
    }
}

/// The upstream part of a version: without its epoch and without its Debian
/// revision (after the last `-`), or the rule that the version breaks
/// (Debian policy, section "Version").
pub open spec fn version_check(s: Seq<char>) -> Result<Seq<char>, VersionError> {
    match version_without_epoch(s) {
        Err(e) => Err(e),
        Ok(s1) => {
            match version_without_revision(s1) {
                Err(e) => Err(e),
                Ok(u) => match first_where(u, outside_class(CharClass::UpstreamVersion)) {
                    Some(k) => Err(VersionError::Upstream(u[k])),
                    None => Ok(u),
                },
            }
        },
    }
}

/// Whether a character may stand in the upstream part of a version.
pub open spec fn upstream_char(c: char) -> bool {
    ('a' <= c <= 'z') || ('A' <= c <= 'Z') || ('0' <= c <= '9') || c == '+' || c == '-' || c == '~' || c == '.'
}

/// Whether a character may stand in the Debian revision of a version.
pub open spec fn revision_char(c: char) -> bool {
    ('a' <= c <= 'z') || ('A' <= c <= 'Z') || ('0' <= c <= '9') || c == '+' || c == '~' || c == '.'
}

proof fn lemma_char_sets()
    ensures
        forall|c: char| #[trigger] class_allows(CharClass::UpstreamVersion, c) == upstream_char(c),
        forall|c: char| #[trigger] class_allows(CharClass::DebianRevision, c) == revision_char(c),
{
    assert forall|c: char| #[trigger] class_allows(CharClass::UpstreamVersion, c) == upstream_char(c) by {
        lemma_class_allows(c);
    }
    assert forall|c: char| #[trigger] class_allows(CharClass::DebianRevision, c) == revision_char(c) by {
        lemma_class_allows(c);
    }
}

proof fn lemma_version_upstream(s: Seq<char>)
    ensures
        version_check(s) matches Ok(u) ==> forall|i: int| 0 <= i < u.len() ==> upstream_char(#[trigger] u[i]),
{
    lemma_char_sets();
    if let Ok(s1) = version_without_epoch(s) {
        if let Ok(u) = version_without_revision(s1) {
            lemma_first_outside(u, CharClass::UpstreamVersion);
        }
    }
}

proof fn lemma_version_plain(s: Seq<char>)
    requires
        forall|i: int| 0 <= i < s.len() ==> #[trigger] s[i] != ':' && s[i] != '-',
    ensures
        version_check(s) is Ok <==> forall|i: int| 0 <= i < s.len() ==> revision_char(#[trigger] s[i]),
        version_check(s) is Ok ==> version_check(s)->Ok_0 == s,
{
    lemma_char_sets();
    assert(first_index_of(s, ':') is None);
    assert(version_without_epoch(s) == Ok::<Seq<char>, VersionError>(s));
    assert(last_index_of(s, '-') is None);
    lemma_first_outside(s, CharClass::UpstreamVersion);
    assert forall|i: int| 0 <= i < s.len() implies upstream_char(#[trigger] s[i]) == revision_char(s[i]) by {}
}

#[verifier::rlimit(40)]
proof fn lemma_version_revision(s: Seq<char>, j: int)
    requires
        forall|i: int| 0 <= i < s.len() ==> #[trigger] s[i] != ':',
        0 <= j < s.len(),
        s[j] == '-',
        forall|k: int| j < k < s.len() ==> #[trigger] s[k] != '-',
    ensures
        version_check(s) is Ok <==> (forall|i: int| j < i < s.len() ==> revision_char(#[trigger] s[i]))
            && forall|i: int| 0 <= i < j ==> upstream_char(#[trigger] s[i]),
        version_check(s) is Ok ==> version_check(s)->Ok_0 == s.take(j),
{
    lemma_char_sets();
    assert(first_index_of(s, ':') is None);
    assert(version_without_epoch(s) == Ok::<Seq<char>, VersionError>(s));
    assert(exists|i: int| 0 <= i < s.len() && s[i] == '-');
    let w = choose|i: int| 0 <= i < s.len() && s[i] == '-' && forall|k: int| i < k < s.len() ==> s[k] != '-';
    assert(0 <= j < s.len() && s[j] == '-' && forall|k: int| j < k < s.len() ==> s[k] != '-');
    assert(w == j) by {
        if w < j {
            assert(s[j] != '-');
        } else if w > j {
            assert(s[w] != '-');
        }
    }
    assert(last_index_of(s, '-') == Some(j));
    let rev = s.skip(j + 1);
    lemma_first_outside(rev, CharClass::DebianRevision);
    assert((forall|i: int| j < i < s.len() ==> revision_char(#[trigger] s[i]))
        == (forall|q: int| 0 <= q < rev.len() ==> revision_char(#[trigger] rev[q]))) by {
        if forall|i: int| j < i < s.len() ==> revision_char(#[trigger] s[i]) {
            assert forall|q: int| 0 <= q < rev.len() implies revision_char(#[trigger] rev[q]) by {
                assert(rev[q] == s[q + j + 1]);
            }
        }
        if forall|q: int| 0 <= q < rev.len() ==> revision_char(#[trigger] rev[q]) {
            assert forall|i: int| j < i < s.len() implies revision_char(#[trigger] s[i]) by {
                assert(rev[i - j - 1] == s[i]);
            }
        }
    }
    let up = s.take(j);
    lemma_first_outside(up, CharClass::UpstreamVersion);
    assert((forall|i: int| 0 <= i < j ==> upstream_char(#[trigger] s[i]))
        == (forall|q: int| 0 <= q < up.len() ==> upstream_char(#[trigger] up[q]))) by {
        if forall|q: int| 0 <= q < up.len() ==> upstream_char(#[trigger] up[q]) {
            assert forall|i: int| 0 <= i < j implies upstream_char(#[trigger] s[i]) by {
                assert(up[i] == s[i]);
            }
        }
    }
}

/// A version is read as its upstream part: what an accepted version gives
/// holds only ASCII letters, digits, `+`, `-`, `~` and `.`. A version
/// without an epoch (no `:`) and without a Debian revision (no `-`) is
/// accepted exactly when it holds only ASCII letters, digits, `+`, `~` and
/// `.`, and is then its own upstream part. A version without an epoch whose
/// last `-` stands at `j` is accepted exactly when what follows that `-`
/// holds only ASCII letters, digits, `+`, `~` and `.` and what precedes it
/// only those and `-`; its upstream part is what precedes it.
pub proof fn lemma_version(s: Seq<char>, j: int)
    ensures
        version_check(s) matches Ok(u) ==> forall|i: int| 0 <= i < u.len() ==> upstream_char(#[trigger] u[i]),
        (forall|i: int| 0 <= i < s.len() ==> #[trigger] s[i] != ':' && s[i] != '-') ==> (
            (version_check(s) is Ok <==> forall|i: int| 0 <= i < s.len() ==> revision_char(#[trigger] s[i]))
            && (version_check(s) is Ok ==> version_check(s)->Ok_0 == s)),
        (forall|i: int| 0 <= i < s.len() ==> #[trigger] s[i] != ':') && 0 <= j < s.len() && s[j] == '-'
            && (forall|k: int| j < k < s.len() ==> #[trigger] s[k] != '-') ==> (
            (version_check(s) is Ok <==> (forall|i: int| j < i < s.len() ==> revision_char(#[trigger] s[i]))
                && forall|i: int| 0 <= i < j ==> upstream_char(#[trigger] s[i]))
            && (version_check(s) is Ok ==> version_check(s)->Ok_0 == s.take(j))),
{
    lemma_version_upstream(s);
    if forall|i: int| 0 <= i < s.len() ==> #[trigger] s[i] != ':' && s[i] != '-' {
        lemma_version_plain(s);
    }
    if (forall|i: int| 0 <= i < s.len() ==> #[trigger] s[i] != ':') && 0 <= j < s.len() && s[j] == '-'
        && (forall|k: int| j < k < s.len() ==> #[trigger] s[k] != '-') {
        lemma_version_revision(s, j);
    }
}

/// The version with its epoch removed.
fn strip_epoch(cs: Vec<char>) -> (r: Result<Vec<char>, VersionError>)
    ensures
        match version_without_epoch(cs@) {
            Ok(u) => r is Ok && r->Ok_0@ == u,
            Err(e) => r == Err::<Vec<char>, VersionError>(e),
        },
{
    match find_first(&cs, ':') {
        None => Ok(cs),
        Some(i) => {
            let epoch = string_of(&slice_chars(&cs, 0, i));
            assert(cs@.subrange(0, i as int) =~= cs@.take(i as int));
            match parse_u8(epoch.as_str()) {
                Err(e) => Err(VersionError::Epoch(e)),
                Ok(_) => {
                    let rest = slice_chars(&cs, i + 1, cs.len());
                    assert(cs@.subrange(i + 1, cs@.len() as int) =~= cs@.skip(i + 1));
                    Ok(rest)
                },
            }
        },
    }
}

/// The part of a version before its Debian revision.
pub open spec fn version_without_revision(s1: Seq<char>) -> Result<Seq<char>, VersionError> {
    match last_index_of(s1, '-') {
        None => Ok(s1),
        Some(j) => match first_where(s1.skip(j + 1), outside_class(CharClass::DebianRevision)) {
            Some(k) => Err(VersionError::Revision(s1.skip(j + 1)[k])),
            None => Ok(s1.take(j)),
        },
    }
}

fn strip_revision(s1: Vec<char>) -> (r: Result<Vec<char>, VersionError>)
    ensures
        match version_without_revision(s1@) {
            Ok(u) => r is Ok && r->Ok_0@ == u,
            Err(e) => r == Err::<Vec<char>, VersionError>(e),
        },
{
    match find_last(&s1, '-') {
        None => Ok(s1),
        Some(j) => {
            let rev = slice_chars(&s1, j + 1, s1.len());
            assert(s1@.subrange(j + 1, s1@.len() as int) =~= s1@.skip(j + 1));
            match find_outside(&rev, CharClass::DebianRevision) {
                Some(c) => Err(VersionError::Revision(c)),
                None => {
                    let up = slice_chars(&s1, 0, j);
                    assert(s1@.subrange(0, j as int) =~= s1@.take(j as int));
                    Ok(up)
                },
            }
        },
    }
}

pub fn check_version(s: &str) -> (r: Result<Vec<char>, VersionError>)
    ensures
        match version_check(s@) {
            Ok(u) => r is Ok && r->Ok_0@ == u,
            Err(e) => r == Err::<Vec<char>, VersionError>(e),
        },
{
    let cs = chars_of(s);
    let s1 = match strip_epoch(cs) {
        Ok(v) => v,
        Err(e) => {
            return Err(e);
        },
    };
    let s2 = match strip_revision(s1) {
        Ok(v) => v,
        Err(e) => {
            return Err(e);
        },
    };
    match find_outside(&s2, CharClass::UpstreamVersion) {
        Some(c) => Err(VersionError::Upstream(c)),
        None => Ok(s2),
    }
}

/// A string with `a`, then the display of the version error's detail, then `b`.
pub fn version_error_detail(e: VersionError) -> (r: String)
    ensures
        r@ == version_error_detail_text(e),
{
    match e {
        VersionError::Epoch(ie) => int_error_string(ie),
        VersionError::Revision(c) => around_char("`", c, "`"),
        VersionError::Upstream(c) => around_char("`", c, "`"),
    }
}

pub open spec fn version_error_detail_text(e: VersionError) -> Seq<char> {
    match e {
        VersionError::Epoch(ie) => int_error_message(ie),
        VersionError::Revision(c) => "`"@ + seq![c] + "`"@,
        VersionError::Upstream(c) => "`"@ + seq![c] + "`"@,
    }
}

/// The message of `PackageName::from_str` for a broken rule.
pub open spec fn package_name_message(e: PackageNameError) -> Seq<char> {
    match e {
        PackageNameError::TooShort => "package name must be at least two characters long"@,
        PackageNameError::BadStart => "package name must start with an alphanumeric character"@,
        PackageNameError::BadChar(c) => "package name contains invalid character `"@ + seq![c] + "`"@,
    }
}

/// The message of `PackageVersion::from_str` for a broken rule.
pub open spec fn package_version_message(e: VersionError) -> Seq<char> {
    match e {
        VersionError::Epoch(_) => "epoch component of package version string is invalid: "@
            + version_error_detail_text(e),
        VersionError::Revision(_) => "Debian revision component of package version string contains invalid character: "@
            + version_error_detail_text(e),
        VersionError::Upstream(_) => "upstream version component of package version string contains invalid character: "@
            + version_error_detail_text(e),
    }
}

/// The name of a Debian package.
pub struct PackageName(String);

impl View for PackageName {
    type V = Seq<char>;

    closed spec fn view(&self) -> Seq<char> {
        self.0@
    }
}

impl PackageName {
    /// Parses a package name, following the syntax rules of the Debian policy.
    pub fn from_str(s: &str) -> (r: Result<PackageName, String>)
        ensures
            r is Ok <==> package_name_check(s@) is Ok,
            r matches Ok(n) ==> n@ == s@,
            r matches Err(m) ==> m@ == package_name_message(package_name_check(s@)->Err_0),
    {
        match check_package_name(s) {
            Ok(()) => Ok(PackageName(s.to_owned())),
            Err(PackageNameError::TooShort) => Err(
                "package name must be at least two characters long".to_owned(),
            ),
            Err(PackageNameError::BadStart) => Err(
                "package name must start with an alphanumeric character".to_owned(),
            ),
            Err(PackageNameError::BadChar(c)) => Err(
                around_char("package name contains invalid character `", c, "`"),
            ),
        }
    }

    pub fn as_str(&self) -> (r: &str)
        ensures
            r@ == self@,
    {
        self.0.as_str()
    }
}

/// The upstream version of a Debian package.
pub struct PackageVersion(String);

impl View for PackageVersion {
    type V = Seq<char>;

    closed spec fn view(&self) -> Seq<char> {
        self.0@
    }
}

impl PackageVersion {
    /// Parses a package version and keeps its upstream part, without the
    /// epoch and the Debian revision.
    pub fn from_str(s: &str) -> (r: Result<PackageVersion, String>)
        ensures
            r is Ok <==> version_check(s@) is Ok,
            r matches Ok(v) ==> v@ == version_check(s@)->Ok_0,
            r matches Err(m) ==> m@ == package_version_message(version_check(s@)->Err_0),
    {
        match check_version(s) {
            Ok(u) => Ok(PackageVersion(string_of(&u))),
            Err(e) => {
                let mut m = match e {
                    VersionError::Epoch(_) => "epoch component of package version string is invalid: ".to_owned(),
                    VersionError::Revision(_) => "Debian revision component of package version string contains invalid character: ".to_owned(),
                    VersionError::Upstream(_) => "upstream version component of package version string contains invalid character: ".to_owned(),
                };
                let d = version_error_detail(e);
                push_str(&mut m, d.as_str());
                Err(m)
            },
        }
    }

    pub fn as_str(&self) -> (r: &str)
        ensures
            r@ == self@,
    {
        self.0.as_str()
    }
}

} // verus!
