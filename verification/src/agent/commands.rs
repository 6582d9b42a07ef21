use crate::agent::users::{group_views, join_comma};
use crate::common::resources::apt::package::{
    Ensure as PackageEnsure, Parameters as PackageParameters, Version as PackageVersion,
};
use crate::common::resources::apt::package::version_message;
use crate::common::resources::apt::version_check;
use crate::common::resources::group::Parameters as GroupParameters;
use crate::common::resources::user::{Parameters as UserParameters, Password};
use crate::common::Action;
use crate::text::{chars_of, concat3, push_str, str_eq, string_of};
use vstd::prelude::*;

verus! {

/// The texts of strings.
pub open spec fn texts(v: Seq<String>) -> Seq<Seq<char>> {
    v.map_values(|s: String| s@)
}

/// An argument that is given, or none.
pub open spec fn opt_arg(b: bool, a: Seq<Seq<char>>) -> Seq<Seq<char>> {
    if b { a } else { seq![] }
}

/// The arguments of `useradd` that create an account for `p`, given
/// whether its primary group exists already: its home, whether it is a
/// system account, its comment, shell and password, its primary group
/// (created with the account when it is named as the user and missing) and
/// its supplementary groups, then its name.
pub open spec fn useradd_argv(p: UserParameters, group_exists: bool) -> Seq<Seq<char>> {
    seq!["--create-home"@, "--home-dir"@, p.home@]
        + opt_arg(p.system, seq!["--system"@])
        + (match p.comment { Some(c) => seq!["--comment"@, c@], None => seq![] })
        + (match p.shell { Some(s) => seq!["--shell"@, s@], None => seq![] })
        + (match p.password { Password::Unlocked(h) => seq!["--password"@, h@], Password::Locked => seq![] })
        + (if group_exists {
            seq!["--no-user-group"@, "--gid"@, p.group@]
        } else if p.group@ == p.name@ {
            seq!["--user-group"@]
        } else {
            seq!["--gid"@, p.group@]
        })
        + opt_arg(p.groups@.len() > 0, seq!["--groups"@, join_comma(group_views(p.groups@))])
        + seq![p.name@]
}

/// `useradd` creates the account named last, with its home; it names the
/// primary group with `--gid` when that group exists already or is not
/// named as the user, and has `useradd` create it (`--user-group`) only
/// when it is missing and named as the user.
pub proof fn lemma_useradd_args(p: UserParameters, group_exists: bool)
    ensures
        useradd_argv(p, group_exists).last() == p.name@,
        useradd_argv(p, group_exists).take(3) == seq!["--create-home"@, "--home-dir"@, p.home@],
        (group_exists || p.group@ != p.name@) ==> exists|i: int| 0 <= i < useradd_argv(p, group_exists).len() - 1
            && #[trigger] useradd_argv(p, group_exists)[i] == "--gid"@ && useradd_argv(p, group_exists)[i + 1] == p.group@,
        (!group_exists && p.group@ == p.name@) ==> exists|i: int| 0 <= i < useradd_argv(p, group_exists).len()
            && #[trigger] useradd_argv(p, group_exists)[i] == "--user-group"@,
        p.system ==> useradd_argv(p, group_exists)[3] == "--system"@,
        p.password matches Password::Unlocked(h) ==> exists|i: int| 0 <= i < useradd_argv(p, group_exists).len() - 1
            && #[trigger] useradd_argv(p, group_exists)[i] == "--password"@ && useradd_argv(p, group_exists)[i + 1] == h@,
{
    let a = seq!["--create-home"@, "--home-dir"@, p.home@];
    let b = opt_arg(p.system, seq!["--system"@]);
    let c = match p.comment { Some(x) => seq!["--comment"@, x@], None => seq![] };
    let d = match p.shell { Some(x) => seq!["--shell"@, x@], None => seq![] };
    let e = match p.password { Password::Unlocked(h) => seq!["--password"@, h@], Password::Locked => seq![] };
    let g = if group_exists {
        seq!["--no-user-group"@, "--gid"@, p.group@]
    } else if p.group@ == p.name@ {
        seq!["--user-group"@]
    } else {
        seq!["--gid"@, p.group@]
    };
    let h = opt_arg(p.groups@.len() > 0, seq!["--groups"@, join_comma(group_views(p.groups@))]);
    let all = useradd_argv(p, group_exists);
    assert(all == a + b + c + d + e + g + h + seq![p.name@]);
    let n0 = (a + b + c + d + e).len() as int;
    assert(all.take(3) =~= a);
    if p.system {
        assert(all[3] == b[0]);
    }
    if let Password::Unlocked(hh) = p.password {
        let k = (a + b + c + d).len() as int;
        assert(all[k] == "--password"@ && all[k + 1] == hh@);
    }
    if group_exists {
        assert(all[n0 + 1] == "--gid"@ && all[n0 + 2] == p.group@);
    } else if p.group@ == p.name@ {
        assert(all[n0] == "--user-group"@);
    } else {
        assert(all[n0] == "--gid"@ && all[n0 + 1] == p.group@);
    }
}

fn push_arg(v: &mut Vec<String>, a: &str)
    ensures
        texts(final(v)@) == texts(old(v)@).push(a@),
{
    v.push(a.to_owned());
    assert(texts(v@) =~= texts(old(v)@).push(a@));
}

/// The arguments of `useradd` for an account.
#[verifier::rlimit(100)]
#[verifier::spinoff_prover]
pub fn useradd_args(p: &UserParameters, group_exists: bool) -> (r: Vec<String>)
    ensures
        texts(r@) == useradd_argv(*p, group_exists),
{
    let mut v: Vec<String> = Vec::new();
    proof {
        reveal_strlit("--create-home");
        reveal_strlit("--home-dir");
    }
    push_arg(&mut v, "--create-home");
    push_arg(&mut v, "--home-dir");
    push_arg(&mut v, p.home.as_str());
    let ghost a1 = texts(v@);
    assert(a1 =~= seq!["--create-home"@, "--home-dir"@, p.home@]);
    if p.system {
        push_arg(&mut v, "--system");
    }
    let ghost a2 = texts(v@);
    assert(a2 =~= a1 + opt_arg(p.system, seq!["--system"@]));
    if let Some(c) = &p.comment {
        push_arg(&mut v, "--comment");
        push_arg(&mut v, c.as_str());
    }
    let ghost a3 = texts(v@);
    assert(a3 =~= a2 + (match p.comment { Some(c) => seq!["--comment"@, c@], None => seq![] }));
    if let Some(s) = &p.shell {
        push_arg(&mut v, "--shell");
        push_arg(&mut v, s.as_str());
    }
    let ghost a4 = texts(v@);
    assert(a4 =~= a3 + (match p.shell { Some(s) => seq!["--shell"@, s@], None => seq![] }));
    if let Password::Unlocked(h) = &p.password {
        push_arg(&mut v, "--password");
        push_arg(&mut v, h.as_str());
    }
    let ghost a5 = texts(v@);
    assert(a5 =~= a4 + (match p.password { Password::Unlocked(h) => seq!["--password"@, h@], Password::Locked => seq![] }));
    if group_exists {
        push_arg(&mut v, "--no-user-group");
        push_arg(&mut v, "--gid");
        push_arg(&mut v, p.group.as_str());
    } else if str_eq(p.group.as_str(), p.name.as_str()) {
        push_arg(&mut v, "--user-group");
    } else {
        push_arg(&mut v, "--gid");
        push_arg(&mut v, p.group.as_str());
    }
    let ghost a6 = texts(v@);
    assert(a6 =~= a5 + (if group_exists {
        seq!["--no-user-group"@, "--gid"@, p.group@]
    } else if p.group@ == p.name@ {
        seq!["--user-group"@]
    } else {
        seq!["--gid"@, p.group@]
    }));
    if p.groups.len() > 0 {
        push_arg(&mut v, "--groups");
        let g = groups_joined(&p.groups);
        push_arg(&mut v, g.as_str());
    }
    let ghost a7 = texts(v@);
    assert(a7 =~= a6 + opt_arg(p.groups@.len() > 0, seq!["--groups"@, join_comma(group_views(p.groups@))]));
    push_arg(&mut v, p.name.as_str());
    assert(texts(v@) =~= a7 + seq![p.name@]);
    v
}

/// The names of groups joined with commas.
fn groups_joined(v: &Vec<crate::common::resources::group::Name>) -> (r: String)
    ensures
        r@ == join_comma(group_views(v@)),
{
    let mut out = String::new();
    let mut i: usize = 0;
    while i < v.len()
        invariant
            i <= v@.len(),
            out@ == join_comma(group_views(v@).take(i as int)),
        decreases v.len() - i,
    {
        let ghost before = out@;
        assert(group_views(v@).take(i + 1).drop_last() =~= group_views(v@).take(i as int));
        assert(group_views(v@)[i as int] == v@[i as int]@);
        if i > 0 {
            push_str(&mut out, ",");
        }
        push_str(&mut out, v[i].as_str());
        if i == 0 {
            assert(group_views(v@).take(1) =~= seq![v@[0]@]);
        } else {
            assert(out@ =~= before + seq![','] + v@[i as int]@) by {
                reveal_strlit(",");
            }
        }
        i = i + 1;
    }
    assert(group_views(v@).take(v@.len() as int) =~= group_views(v@));
    out
}

/// The arguments of `groupadd` that create a group.
pub open spec fn groupadd_argv(p: GroupParameters) -> Seq<Seq<char>> {
    opt_arg(p.system, seq!["--system"@]) + seq![p.name@]
}

/// `groupadd` creates the group named last, as a system group exactly when
/// it is to be one.
pub proof fn lemma_groupadd_args(p: GroupParameters)
    ensures
        groupadd_argv(p).last() == p.name@,
        p.system ==> groupadd_argv(p) == seq!["--system"@, p.name@],
        !p.system ==> groupadd_argv(p) == seq![p.name@],
{
    if p.system {
        assert(groupadd_argv(p) =~= seq!["--system"@, p.name@]);
    } else {
        assert(groupadd_argv(p) =~= seq![p.name@]);
    }
}

/// The arguments of `groupadd` for a group.
pub fn groupadd_args(p: &GroupParameters) -> (r: Vec<String>)
    ensures
        texts(r@) == groupadd_argv(*p),
{
    let mut v: Vec<String> = Vec::new();
    if p.system {
        push_arg(&mut v, "--system");
    }
    push_arg(&mut v, p.name.as_str());
    assert(texts(v@) =~= groupadd_argv(*p));
    v
}

/// What to do for a package: nothing, install it (with the action to
/// report), or remove it (purging its files or not).
pub enum PackageStep {
    Unchanged,
    Install(Action),
    Remove(bool),
}

/// What to do for a package given the version installed, if any: install a
/// missing package, reinstall one whose version differs from the one asked
/// for, remove or purge an installed one that is not to be present.
pub open spec fn package_step_of(installed: Option<Seq<char>>, p: PackageParameters) -> PackageStep {
    match installed {
        Some(v) => match p.ensure {
            PackageEnsure::Present => if p.version matches Some(w) && w@ != v {
                PackageStep::Install(Action::Changed)
            } else {
                PackageStep::Unchanged
            },
            PackageEnsure::Absent => PackageStep::Remove(false),
            PackageEnsure::Purged => PackageStep::Remove(true),
        },
        None => match p.ensure {
            PackageEnsure::Present => PackageStep::Install(Action::Created),
            _ => PackageStep::Unchanged,
        },
    }
}

/// What is done for a package follows its `ensure` and the version
/// installed: an installed package that is to be absent is removed without
/// purging its configuration files, and only one that is to be purged is
/// purged; a package that is not installed is installed when it is to be
/// present and left alone otherwise; an installed package that is to be
/// present is reinstalled, as a change, exactly when another version than
/// the installed one is asked for, and left alone otherwise.
pub proof fn lemma_package_step(installed: Option<Seq<char>>, p: PackageParameters)
    ensures
        installed is Some && p.ensure is Absent ==> package_step_of(installed, p) == PackageStep::Remove(false),
        installed is Some && p.ensure is Purged ==> package_step_of(installed, p) == PackageStep::Remove(true),
        package_step_of(installed, p) matches PackageStep::Remove(purge) ==> installed is Some && !(p.ensure is Present)
            && (purge <==> p.ensure is Purged),
        installed is None && p.ensure is Present ==> package_step_of(installed, p) == PackageStep::Install(Action::Created),
        installed is None && !(p.ensure is Present) ==> package_step_of(installed, p) == PackageStep::Unchanged,
        installed is Some && p.ensure is Present ==> (
            (package_step_of(installed, p) == PackageStep::Install(Action::Changed)
                <==> (p.version matches Some(w) && w@ != installed->Some_0))
            && (package_step_of(installed, p) == PackageStep::Unchanged
                <==> !(p.version matches Some(w) && w@ != installed->Some_0))),
{
}

/// Decides what to do for a package given the version installed.
pub fn package_step(installed: &Option<PackageVersion>, p: &PackageParameters) -> (r: PackageStep)
    ensures
        r == package_step_of(match *installed { Some(v) => Some(v@), None => None }, *p),
{
    match installed {
        Some(v) => match p.ensure {
            PackageEnsure::Present => match &p.version {
                Some(w) => {
                    if !w.eq(v) {
                        PackageStep::Install(Action::Changed)
                    } else {
                        PackageStep::Unchanged
                    }
                },
                None => PackageStep::Unchanged,
            },
            PackageEnsure::Absent => PackageStep::Remove(false),
            PackageEnsure::Purged => PackageStep::Remove(true),
        },
        None => match p.ensure {
            PackageEnsure::Present => PackageStep::Install(Action::Created),
            _ => PackageStep::Unchanged,
        },
    }
}

/// The arguments of `apt-get` that install a package: its name, or its
/// name and version joined with `=`.
pub open spec fn install_argv(p: PackageParameters) -> Seq<Seq<char>> {
    seq!["install"@, match p.version { Some(v) => p.name@ + "="@ + v@, None => p.name@ }, "--quiet"@, "--quiet"@, "--yes"@]
}

/// The arguments of `apt-get` for installing a package.
pub fn install_args(p: &PackageParameters) -> (r: Vec<String>)
    ensures
        texts(r@) == install_argv(*p),
{
    let mut v: Vec<String> = Vec::new();
    push_arg(&mut v, "install");
    match &p.version {
        Some(w) => {
            let t = concat3(p.name.as_str(), "=", w.as_str());
            push_arg(&mut v, t.as_str());
        },
        None => push_arg(&mut v, p.name.as_str()),
    }
    push_arg(&mut v, "--quiet");
    push_arg(&mut v, "--quiet");
    push_arg(&mut v, "--yes");
    assert(texts(v@) =~= install_argv(*p));
    v
}

/// The arguments of `apt-get` that remove a package, purging its files or not.
pub open spec fn remove_argv(p: PackageParameters, purge: bool) -> Seq<Seq<char>> {
    seq!["remove"@] + opt_arg(purge, seq!["--purge"@]) + seq!["--quiet"@, "--quiet"@, "--yes"@, p.name@]
}

/// `apt-get` installs a package by its name, pinned to a version when one
/// is asked for, and removes one by its name, with `--purge` exactly when
/// its files are to be purged too.
pub proof fn lemma_apt_args(p: PackageParameters, purge: bool)
    ensures
        install_argv(p)[0] == "install"@,
        install_argv(p)[1] == (match p.version { Some(v) => p.name@ + "="@ + v@, None => p.name@ }),
        remove_argv(p, purge)[0] == "remove"@,
        remove_argv(p, purge).last() == p.name@,
        purge ==> remove_argv(p, purge)[1] == "--purge"@ && remove_argv(p, purge).len() == 6,
        !purge ==> remove_argv(p, purge).len() == 5
            && forall|i: int| 0 <= i < 4 ==> #[trigger] remove_argv(p, purge)[i] != "--purge"@,
{
    reveal_strlit("--purge");
    reveal_strlit("--quiet");
    reveal_strlit("--yes");
    reveal_strlit("remove");
    if !purge {
        assert(remove_argv(p, purge) =~= seq!["remove"@, "--quiet"@, "--quiet"@, "--yes"@, p.name@]);
        assert("--quiet"@[2] != "--purge"@[2]);
        assert("remove"@.len() != "--purge"@.len());
        assert("--yes"@.len() != "--purge"@.len());
        assert forall|i: int| 0 <= i < 4 implies #[trigger] remove_argv(p, purge)[i] != "--purge"@ by {
            if i == 1 || i == 2 {
                assert(remove_argv(p, purge)[i] == "--quiet"@);
            }
        }
    } else {
        assert(remove_argv(p, purge) =~= seq!["remove"@, "--purge"@, "--quiet"@, "--quiet"@, "--yes"@, p.name@]);
    }
}

/// The arguments of `apt-get` for removing a package.
pub fn remove_args(p: &PackageParameters, purge: bool) -> (r: Vec<String>)
    ensures
        texts(r@) == remove_argv(*p, purge),
{
    let mut v: Vec<String> = Vec::new();
    push_arg(&mut v, "remove");
    if purge {
        push_arg(&mut v, "--purge");
    }
    push_arg(&mut v, "--quiet");
    push_arg(&mut v, "--quiet");
    push_arg(&mut v, "--yes");
    push_arg(&mut v, p.name.as_str());
    assert(texts(v@) =~= remove_argv(*p, purge));
    v
}

/// A text without the quotes `'` at its start and end.
pub open spec fn unquoted(s: Seq<char>) -> Seq<char> {
    let a = if exists|i: int| 0 <= i < s.len() && s[i] != '\'' {
        choose|i: int| 0 <= i < s.len() && s[i] != '\'' && forall|j: int| 0 <= j < i ==> s[j] == '\''
    } else {
        s.len() as int
    };
    let b = if exists|i: int| a <= i < s.len() && s[i] != '\'' {
        choose|i: int| a <= i < s.len() && s[i] != '\'' && forall|j: int| i < j < s.len() ==> s[j] == '\''
    } else {
        a - 1
    };
    s.subrange(a, b + 1)
}

/// What the output of `dpkg-query -W -f '${VERSION}'` says of a package:
/// none when the query failed or the version is empty (`''`), else the
/// version between the quotes, or why it is no version.
pub open spec fn installed_of(output: Seq<char>, success: bool) -> Result<Option<Seq<char>>, Seq<char>> {
    if !success || output == "''"@ {
        Ok(None)
    } else {
        let t = unquoted(output);
        match version_check(t) {
            Ok(_) => Ok(Some(t)),
            Err(e) => Err("failed to parse output from `dpkg-query` as package version: "@ + version_message(t, e)),
        }
    }
}

/// A failed query, or an empty version (`''`), means the package is not
/// installed; otherwise the version is the output without its quotes, and
/// the output is refused exactly when that is no valid version. A version
/// without quotes is read as it stands.
pub proof fn lemma_installed_of(output: Seq<char>, success: bool)
    ensures
        !success ==> installed_of(output, success) == Ok::<Option<Seq<char>>, Seq<char>>(None),
        output == "''"@ ==> installed_of(output, success) == Ok::<Option<Seq<char>>, Seq<char>>(None),
        installed_of(output, success) matches Ok(Some(v)) ==> success && v == unquoted(output) && version_check(v) is Ok,
        success && output != "''"@ ==> (installed_of(output, success) is Err <==> version_check(unquoted(output)) is Err),
        (output.len() > 0 && output[0] != '\'' && output.last() != '\'') ==> unquoted(output) == output,
{
    if output.len() > 0 && output[0] != '\'' && output.last() != '\'' {
        let a = choose|i: int| 0 <= i < output.len() && output[i] != '\'' && forall|j: int| 0 <= j < i ==> output[j] == '\'';
        assert(0 <= a < output.len() && output[a] != '\'' && forall|j: int| 0 <= j < a ==> output[j] == '\'');
        assert(a == 0) by {
            if a > 0 {
                assert(output[0] == '\'');
            }
        }
        let l = output.len() - 1;
        assert(exists|i: int| 0 <= i < output.len() && output[i] != '\'');
        let b = choose|i: int| 0 <= i < output.len() && output[i] != '\'' && forall|j: int| i < j < output.len() ==> output[j] == '\'';
        assert(0 <= b < output.len() && output[b] != '\'' && forall|j: int| b < j < output.len() ==> output[j] == '\'');
        assert(b == l) by {
            if b < l {
                assert(output[l] == '\'');
            }
        }
        assert(output.subrange(0, l + 1) =~= output);
    }
}

/// The bounds of a text without the quotes at its start and end.
fn unquoted_bounds(cs: &Vec<char>) -> (r: (usize, usize))
    ensures
        r.0 <= r.1 <= cs@.len(),
        cs@.subrange(r.0 as int, r.1 as int) == unquoted(cs@),
{
    let ghost s = cs@;
    let mut a: usize = 0;
    while a < cs.len() && cs[a] == '\''
        invariant
            a <= cs.len(),
            s == cs@,
            forall|j: int| 0 <= j < a ==> s[j] == '\'',
        decreases cs.len() - a,
    {
        a = a + 1;
    }
    proof {
        if a < cs.len() {
            let k = choose|i: int| 0 <= i < s.len() && s[i] != '\'' && forall|j: int| 0 <= j < i ==> s[j] == '\'';
            assert(k == a) by {
                if k < a {
                    assert(s[k] == '\'');
                } else if k > a {
                    assert(s[a as int] != '\'');
                }
            }
        } else {
            assert(!(exists|i: int| 0 <= i < s.len() && s[i] != '\'')) by {
                if exists|i: int| 0 <= i < s.len() && s[i] != '\'' {
                    let i = choose|i: int| 0 <= i < s.len() && s[i] != '\'';
                    assert(s[i] == '\'');
                }
            }
        }
    }
    let mut b: usize = cs.len();
    while b > a && cs[b - 1] == '\''
        invariant
            a <= b <= cs.len(),
            s == cs@,
            forall|j: int| b <= j < s.len() ==> s[j] == '\'',
        decreases b,
    {
        b = b - 1;
    }
    proof {
        if b > a {
            let k = choose|i: int| a <= i < s.len() && s[i] != '\'' && forall|j: int| i < j < s.len() ==> s[j] == '\'';
            assert(k == b - 1) by {
                if k < b - 1 {
                    assert(s[b - 1] != '\'');
                } else if k > b - 1 {
                    assert(s[k] == '\'');
                }
            }
        } else {
            assert(!(exists|i: int| a <= i < s.len() && s[i] != '\'')) by {
                if exists|i: int| a <= i < s.len() && s[i] != '\'' {
                    let i = choose|i: int| a <= i < s.len() && s[i] != '\'';
                    assert(s[i] == '\'');
                }
            }
        }
    }
    (a, b)
}

/// Reads the installed version of a package from the output of
/// `dpkg-query -W -f '${VERSION}'` and whether the query succeeded.
pub fn installed_version(output: &str, success: bool) -> (r: Result<Option<PackageVersion>, String>)
    ensures
        match installed_of(output@, success) {
            Ok(None) => r matches Ok(None),
            Ok(Some(v)) => r matches Ok(Some(x)) && x@ == v,
            Err(m) => r matches Err(e) && e@ == m,
        },
{
    proof {
        reveal_strlit("''");
    }
    if !success || str_eq(output, "''") {
        return Ok(None);
    }
    let cs = chars_of(output);
    let (a, b) = unquoted_bounds(&cs);
    let t = string_of(&crate::text::slice_chars(&cs, a, b));
    match PackageVersion::from_str(t.as_str()) {
        Ok(v) => Ok(Some(v)),
        Err(e) => {
            let mut m = "failed to parse output from `dpkg-query` as package version: ".to_owned();
            push_str(&mut m, e.as_str());
            Err(m)
        },
    }
}

} // verus!
