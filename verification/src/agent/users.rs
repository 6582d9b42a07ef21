use crate::common::path::{path_eq, same_path, SafePathBuf};
use crate::common::resources::group::Name as Groupname;
use crate::common::resources::user::{ExpiryDate, Parameters as UserParameters, Password};
use crate::common::Action;
use crate::text::{push_str, str_eq};
use vstd::prelude::*;

verus! {

/// An account as the system holds it.
pub struct CurrentUser {
    pub comment: Option<String>,
    pub shell: SafePathBuf,
    pub home: SafePathBuf,
    pub password: Password,
    /// The day on which the account expires: year, month and day.
    pub expiry_date: Option<(i32, u8, u8)>,
    /// The name of the primary group.
    pub group: String,
    /// The names of the supplementary groups, in order.
    pub groups: Vec<String>,
}

/// A change to an account that `usermod` makes.
pub enum UsermodArg {
    /// `--comment`, with the new comment or none to clear it.
    Comment(Option<String>),
    /// `--shell` and the new shell.
    Shell(String),
    /// `--move-home --home` and the new home.
    Home(String),
    /// `--expiredate` and the new date, or none to clear it.
    ExpireDate(Option<(i32, u8, u8)>),
    /// `--gid` and the new primary group.
    Gid(String),
    /// `--groups` and the supplementary groups, separated by commas.
    Groups(String),
    /// `--lock`.
    Lock,
    /// `--unlock`.
    Unlock,
}

/// A change to an account, in views.
pub enum ArgView {
    Comment(Option<Seq<char>>),
    Shell(Seq<char>),
    Home(Seq<char>),
    ExpireDate(Option<(i32, u8, u8)>),
    Gid(Seq<char>),
    Groups(Seq<char>),
    Lock,
    Unlock,
}

/// The view of a change.
pub open spec fn arg_view(a: UsermodArg) -> ArgView {
    match a {
        UsermodArg::Comment(c) => ArgView::Comment(match c { Some(s) => Some(s@), None => None }),
        UsermodArg::Shell(s) => ArgView::Shell(s@),
        UsermodArg::Home(s) => ArgView::Home(s@),
        UsermodArg::ExpireDate(d) => ArgView::ExpireDate(d),
        UsermodArg::Gid(s) => ArgView::Gid(s@),
        UsermodArg::Groups(s) => ArgView::Groups(s@),
        UsermodArg::Lock => ArgView::Lock,
        UsermodArg::Unlock => ArgView::Unlock,
    }
}

/// The views of changes.
pub open spec fn arg_views(v: Seq<UsermodArg>) -> Seq<ArgView> {
    v.map_values(|a: UsermodArg| arg_view(a))
}

/// What to bring an account to the desired state: the changes for
/// `usermod`, in order, and the password hash to set with `passwd`.
pub struct UserUpdate {
    pub usermod: Vec<UsermodArg>,
    pub password: Option<String>,
}

/// The optional text's view.
pub open spec fn opt_text(o: Option<String>) -> Option<Seq<char>> {
    match o {
        Some(s) => Some(s@),
        None => None,
    }
}

/// The names joined with a comma between each two.
pub open spec fn join_comma(parts: Seq<Seq<char>>) -> Seq<char>
    decreases parts.len(),
{
    if parts.len() == 0 {
        seq![]
    } else if parts.len() == 1 {
        parts[0]
    } else {
        join_comma(parts.drop_last()) + seq![','] + parts.last()
    }
}

/// The names of groups.
pub open spec fn group_views(v: Seq<Groupname>) -> Seq<Seq<char>> {
    v.map_values(|g: Groupname| g@)
}

/// The texts of strings.
pub open spec fn string_views(v: Seq<String>) -> Seq<Seq<char>> {
    v.map_values(|s: String| s@)
}

/// The date of an expiry date.
pub open spec fn date_of(d: ExpiryDate) -> (i32, u8, u8) {
    (d.year, d.month, d.day)
}

/// The change of the comment.
pub open spec fn comment_part(cur: CurrentUser, des: UserParameters) -> Seq<ArgView> {
    match (opt_text(cur.comment), opt_text(des.comment)) {
        (Some(c), Some(d)) => if c != d { seq![ArgView::Comment(Some(d))] } else { seq![] },
        (Some(_), None) => seq![ArgView::Comment(None)],
        (None, Some(d)) => seq![ArgView::Comment(Some(d))],
        (None, None) => seq![],
    }
}

/// The change of the shell, when one is given.
pub open spec fn shell_part(cur: CurrentUser, des: UserParameters) -> Seq<ArgView> {
    match des.shell {
        Some(s) => if !same_path(s@, cur.shell@) { seq![ArgView::Shell(s@)] } else { seq![] },
        None => seq![],
    }
}

/// The change of the home.
pub open spec fn home_part(cur: CurrentUser, des: UserParameters) -> Seq<ArgView> {
    if !same_path(des.home@, cur.home@) { seq![ArgView::Home(des.home@)] } else { seq![] }
}

/// The change of the expiry date.
pub open spec fn expiry_part(cur: CurrentUser, des: UserParameters) -> Seq<ArgView> {
    match (cur.expiry_date, des.expiry_date) {
        (Some(c), Some(d)) => if c != date_of(d) { seq![ArgView::ExpireDate(Some(date_of(d)))] } else { seq![] },
        (None, Some(d)) => seq![ArgView::ExpireDate(Some(date_of(d)))],
        (Some(_), None) => seq![ArgView::ExpireDate(None)],
        (None, None) => seq![],
    }
}

/// The change of the primary group.
pub open spec fn gid_part(cur: CurrentUser, des: UserParameters) -> Seq<ArgView> {
    if cur.group@ != des.group@ { seq![ArgView::Gid(des.group@)] } else { seq![] }
}

/// The change of the supplementary groups.
pub open spec fn groups_part(cur: CurrentUser, des: UserParameters) -> Seq<ArgView> {
    if string_views(cur.groups@) != group_views(des.groups@) {
        seq![ArgView::Groups(join_comma(group_views(des.groups@)))]
    } else {
        seq![]
    }
}

/// Locking or unlocking the password.
pub open spec fn lock_part(cur: CurrentUser, des: UserParameters) -> Seq<ArgView> {
    match (cur.password, des.password) {
        (Password::Unlocked(_), Password::Locked) => seq![ArgView::Lock],
        (Password::Locked, Password::Unlocked(_)) => seq![ArgView::Unlock],
        _ => seq![],
    }
}

/// The changes for `usermod` that bring account `cur` to the parameters
/// `des`: the comment, the shell when one is given, the home, the expiry
/// date, the primary group, the supplementary groups, then locking or
/// unlocking the password.
pub open spec fn usermod_changes(cur: CurrentUser, des: UserParameters) -> Seq<ArgView> {
    comment_part(cur, des) + shell_part(cur, des) + home_part(cur, des) + expiry_part(cur, des)
        + gid_part(cur, des) + groups_part(cur, des) + lock_part(cur, des)
}

/// The password hash that `passwd` sets: the desired one when the password
/// is to be unlocked and differs from the current one.
pub open spec fn passwd_change(cur: CurrentUser, des: UserParameters) -> Option<Seq<char>> {
    match (cur.password, des.password) {
        (Password::Unlocked(c), Password::Unlocked(p)) => if c@ != p@ { Some(p@) } else { None },
        (Password::Locked, Password::Unlocked(p)) => Some(p@),
        _ => None,
    }
}

/// Whether some change of `s` has `p`.
pub open spec fn occurs(s: Seq<ArgView>, p: spec_fn(ArgView) -> bool) -> bool {
    exists|i: int| 0 <= i < s.len() && p(#[trigger] s[i])
}

proof fn lemma_occurs_add(a: Seq<ArgView>, b: Seq<ArgView>, p: spec_fn(ArgView) -> bool)
    ensures
        occurs(a + b, p) == (occurs(a, p) || occurs(b, p)),
{
    let ab = a + b;
    if occurs(ab, p) {
        let i = choose|i: int| 0 <= i < ab.len() && p(#[trigger] ab[i]);
        if i < a.len() {
            assert(a[i] == ab[i]);
        } else {
            assert(b[i - a.len()] == ab[i]);
        }
    }
    if occurs(a, p) {
        let i = choose|i: int| 0 <= i < a.len() && p(#[trigger] a[i]);
        assert(ab[i] == a[i]);
    }
    if occurs(b, p) {
        let i = choose|i: int| 0 <= i < b.len() && p(#[trigger] b[i]);
        assert(ab[a.len() + i] == b[i]);
    }
}

proof fn lemma_occurs_small(x: ArgView, p: spec_fn(ArgView) -> bool)
    ensures
        occurs(seq![x], p) == p(x),
        !occurs(Seq::<ArgView>::empty(), p),
{
    if p(x) {
        assert(seq![x][0] == x);
    }
}

proof fn lemma_occurs_changes(cur: CurrentUser, des: UserParameters, p: spec_fn(ArgView) -> bool)
    ensures
        occurs(usermod_changes(cur, des), p) == (occurs(comment_part(cur, des), p) || occurs(shell_part(cur, des), p)
            || occurs(home_part(cur, des), p) || occurs(expiry_part(cur, des), p) || occurs(gid_part(cur, des), p)
            || occurs(groups_part(cur, des), p) || occurs(lock_part(cur, des), p)),
{
    let s1 = comment_part(cur, des);
    let s2 = s1 + shell_part(cur, des);
    let s3 = s2 + home_part(cur, des);
    let s4 = s3 + expiry_part(cur, des);
    let s5 = s4 + gid_part(cur, des);
    let s6 = s5 + groups_part(cur, des);
    lemma_occurs_add(s1, shell_part(cur, des), p);
    lemma_occurs_add(s2, home_part(cur, des), p);
    lemma_occurs_add(s3, expiry_part(cur, des), p);
    lemma_occurs_add(s4, gid_part(cur, des), p);
    lemma_occurs_add(s5, groups_part(cur, des), p);
    lemma_occurs_add(s6, lock_part(cur, des), p);
}

/// Facts about each part of the changes under `p`.
proof fn lemma_parts(cur: CurrentUser, des: UserParameters, p: spec_fn(ArgView) -> bool)
    ensures
        occurs(comment_part(cur, des), p) == (comment_part(cur, des).len() == 1 && p(comment_part(cur, des)[0])),
        occurs(shell_part(cur, des), p) == (shell_part(cur, des).len() == 1 && p(shell_part(cur, des)[0])),
        occurs(home_part(cur, des), p) == (home_part(cur, des).len() == 1 && p(home_part(cur, des)[0])),
        occurs(expiry_part(cur, des), p) == (expiry_part(cur, des).len() == 1 && p(expiry_part(cur, des)[0])),
        occurs(gid_part(cur, des), p) == (gid_part(cur, des).len() == 1 && p(gid_part(cur, des)[0])),
        occurs(groups_part(cur, des), p) == (groups_part(cur, des).len() == 1 && p(groups_part(cur, des)[0])),
        occurs(lock_part(cur, des), p) == (lock_part(cur, des).len() == 1 && p(lock_part(cur, des)[0])),
{
    let parts = seq![comment_part(cur, des), shell_part(cur, des), home_part(cur, des), expiry_part(cur, des),
        gid_part(cur, des), groups_part(cur, des), lock_part(cur, des)];
    assert forall|k: int| 0 <= k < 7 implies occurs(#[trigger] parts[k], p) == (parts[k].len() == 1 && p(parts[k][0])) by {
        let q = parts[k];
        assert(q.len() <= 1);
        if q.len() == 1 {
            assert(q =~= seq![q[0]]);
            lemma_occurs_small(q[0], p);
        } else {
            assert(q =~= Seq::<ArgView>::empty());
            lemma_occurs_small(ArgView::Lock, p);
        }
    }
    assert(parts[0] == comment_part(cur, des));
    assert(parts[1] == shell_part(cur, des));
    assert(parts[2] == home_part(cur, des));
    assert(parts[3] == expiry_part(cur, des));
    assert(parts[4] == gid_part(cur, des));
    assert(parts[5] == groups_part(cur, des));
    assert(parts[6] == lock_part(cur, des));
}

proof fn lemma_gid_change(cur: CurrentUser, des: UserParameters, changes: Seq<ArgView>)
    requires
        changes == usermod_changes(cur, des),
    ensures
        (exists|i: int| 0 <= i < changes.len() && #[trigger] changes[i] is Gid) <==> cur.group@ != des.group@,
        forall|i: int| 0 <= i < changes.len() && #[trigger] changes[i] is Gid ==> changes[i]->Gid_0 == des.group@,
{
    let p = |a: ArgView| a is Gid;
    lemma_occurs_changes(cur, des, p);
    lemma_parts(cur, des, p);
    assert(occurs(changes, p) <==> cur.group@ != des.group@);
    let q = |a: ArgView| a matches ArgView::Gid(g) && g != des.group@;
    lemma_occurs_changes(cur, des, q);
    lemma_parts(cur, des, q);
    assert(!occurs(changes, q));
}

proof fn lemma_home_change(cur: CurrentUser, des: UserParameters, changes: Seq<ArgView>)
    requires
        changes == usermod_changes(cur, des),
    ensures
        (exists|i: int| 0 <= i < changes.len() && #[trigger] changes[i] is Home) <==> !same_path(des.home@, cur.home@),
        forall|i: int| 0 <= i < changes.len() && #[trigger] changes[i] is Home ==> changes[i]->Home_0 == des.home@,
{
    let p = |a: ArgView| a is Home;
    lemma_occurs_changes(cur, des, p);
    lemma_parts(cur, des, p);
    assert(occurs(changes, p) <==> !same_path(des.home@, cur.home@));
    let q = |a: ArgView| a matches ArgView::Home(h) && h != des.home@;
    lemma_occurs_changes(cur, des, q);
    lemma_parts(cur, des, q);
    assert(!occurs(changes, q));
}

proof fn lemma_shell_change(cur: CurrentUser, des: UserParameters, changes: Seq<ArgView>)
    requires
        changes == usermod_changes(cur, des),
    ensures
        (exists|i: int| 0 <= i < changes.len() && #[trigger] changes[i] is Shell) <==> (des.shell matches Some(sh) && !same_path(sh@, cur.shell@)),
        forall|i: int| 0 <= i < changes.len() && #[trigger] changes[i] is Shell ==> (des.shell matches Some(d) && changes[i]->Shell_0 == d@),
{
    let p = |a: ArgView| a is Shell;
    lemma_occurs_changes(cur, des, p);
    lemma_parts(cur, des, p);
    assert(occurs(changes, p) <==> (des.shell matches Some(sh) && !same_path(sh@, cur.shell@)));
    let q = |a: ArgView| a matches ArgView::Shell(sh) && !(des.shell matches Some(d) && sh == d@);
    lemma_occurs_changes(cur, des, q);
    lemma_parts(cur, des, q);
    assert(!occurs(changes, q));
}

proof fn lemma_groups_change(cur: CurrentUser, des: UserParameters, changes: Seq<ArgView>)
    requires
        changes == usermod_changes(cur, des),
    ensures
        (exists|i: int| 0 <= i < changes.len() && #[trigger] changes[i] is Groups) <==> string_views(cur.groups@) != group_views(des.groups@),
        forall|i: int| 0 <= i < changes.len() && #[trigger] changes[i] is Groups ==> changes[i]->Groups_0 == join_comma(group_views(des.groups@)),
{
    let p = |a: ArgView| a is Groups;
    lemma_occurs_changes(cur, des, p);
    lemma_parts(cur, des, p);
    assert(occurs(changes, p) <==> string_views(cur.groups@) != group_views(des.groups@));
    let q = |a: ArgView| a matches ArgView::Groups(g) && g != join_comma(group_views(des.groups@));
    lemma_occurs_changes(cur, des, q);
    lemma_parts(cur, des, q);
    assert(!occurs(changes, q));
}

proof fn lemma_comment_change(cur: CurrentUser, des: UserParameters, changes: Seq<ArgView>)
    requires
        changes == usermod_changes(cur, des),
    ensures
        (exists|i: int| 0 <= i < changes.len() && #[trigger] changes[i] is Comment) <==> opt_text(cur.comment) != opt_text(des.comment),
        forall|i: int| 0 <= i < changes.len() && #[trigger] changes[i] is Comment ==> changes[i]->Comment_0 == opt_text(des.comment),
{
    let p = |a: ArgView| a is Comment;
    lemma_occurs_changes(cur, des, p);
    lemma_parts(cur, des, p);
    assert(occurs(changes, p) <==> opt_text(cur.comment) != opt_text(des.comment));
    let q = |a: ArgView| a matches ArgView::Comment(c) && c != opt_text(des.comment);
    lemma_occurs_changes(cur, des, q);
    lemma_parts(cur, des, q);
    assert(!occurs(changes, q));
}

proof fn lemma_expiry_change(cur: CurrentUser, des: UserParameters, changes: Seq<ArgView>)
    requires
        changes == usermod_changes(cur, des),
    ensures
        (exists|i: int| 0 <= i < changes.len() && #[trigger] changes[i] is ExpireDate) <==> cur.expiry_date != (match des.expiry_date { Some(d) => Some((d.year, d.month, d.day)), None => None }),
        forall|i: int| 0 <= i < changes.len() && #[trigger] changes[i] is ExpireDate ==> changes[i]->ExpireDate_0 == (match des.expiry_date { Some(d) => Some((d.year, d.month, d.day)), None => None }),
{
    let p = |a: ArgView| a is ExpireDate;
    lemma_occurs_changes(cur, des, p);
    lemma_parts(cur, des, p);
    assert(occurs(changes, p) <==> cur.expiry_date != (match des.expiry_date { Some(d) => Some((d.year, d.month, d.day)), None => None }));
    let q = |a: ArgView| a matches ArgView::ExpireDate(e) && e != (match des.expiry_date { Some(d) => Some((d.year, d.month, d.day)), None => None });
    lemma_occurs_changes(cur, des, q);
    lemma_parts(cur, des, q);
    assert(!occurs(changes, q));
}

proof fn lemma_lock_change(cur: CurrentUser, des: UserParameters, changes: Seq<ArgView>)
    requires
        changes == usermod_changes(cur, des),
    ensures
        (exists|i: int| 0 <= i < changes.len() && #[trigger] changes[i] is Lock) <==> (cur.password is Unlocked && des.password is Locked),
{
    let p = |a: ArgView| a is Lock;
    lemma_occurs_changes(cur, des, p);
    lemma_parts(cur, des, p);
    assert(occurs(changes, p) <==> (cur.password is Unlocked && des.password is Locked));
}

proof fn lemma_unlock_change(cur: CurrentUser, des: UserParameters, changes: Seq<ArgView>)
    requires
        changes == usermod_changes(cur, des),
    ensures
        (exists|i: int| 0 <= i < changes.len() && #[trigger] changes[i] is Unlock) <==> (cur.password is Locked && des.password is Unlocked),
{
    let p = |a: ArgView| a is Unlock;
    lemma_occurs_changes(cur, des, p);
    lemma_parts(cur, des, p);
    assert(occurs(changes, p) <==> (cur.password is Locked && des.password is Unlocked));
}

/// The changes that `usermod` makes to an account are exactly those of the
/// fields in which the account differs from its parameters, each to the
/// desired value: the primary group when it differs, the home and the
/// shell (when one is given) when they are other paths, the supplementary
/// groups when they differ, the comment and the expiry date when they
/// differ, locking an unlocked password that is to be locked and unlocking
/// a locked one that is to be set.
pub proof fn lemma_usermod_changes(cur: CurrentUser, des: UserParameters, changes: Seq<ArgView>)
    requires
        changes == usermod_changes(cur, des),
    ensures
        (exists|i: int| 0 <= i < changes.len() && #[trigger] changes[i] is Gid) <==> cur.group@ != des.group@,
        forall|i: int| 0 <= i < changes.len() && #[trigger] changes[i] is Gid ==> changes[i]->Gid_0 == des.group@,
        (exists|i: int| 0 <= i < changes.len() && #[trigger] changes[i] is Home) <==> !same_path(des.home@, cur.home@),
        forall|i: int| 0 <= i < changes.len() && #[trigger] changes[i] is Home ==> changes[i]->Home_0 == des.home@,
        (exists|i: int| 0 <= i < changes.len() && #[trigger] changes[i] is Shell) <==> (des.shell matches Some(sh) && !same_path(sh@, cur.shell@)),
        forall|i: int| 0 <= i < changes.len() && #[trigger] changes[i] is Shell ==> (des.shell matches Some(d) && changes[i]->Shell_0 == d@),
        (exists|i: int| 0 <= i < changes.len() && #[trigger] changes[i] is Groups) <==> string_views(cur.groups@) != group_views(des.groups@),
        forall|i: int| 0 <= i < changes.len() && #[trigger] changes[i] is Groups ==> changes[i]->Groups_0 == join_comma(group_views(des.groups@)),
        (exists|i: int| 0 <= i < changes.len() && #[trigger] changes[i] is Comment) <==> opt_text(cur.comment) != opt_text(des.comment),
        forall|i: int| 0 <= i < changes.len() && #[trigger] changes[i] is Comment ==> changes[i]->Comment_0 == opt_text(des.comment),
        (exists|i: int| 0 <= i < changes.len() && #[trigger] changes[i] is ExpireDate) <==> cur.expiry_date != (match des.expiry_date { Some(d) => Some((d.year, d.month, d.day)), None => None }),
        forall|i: int| 0 <= i < changes.len() && #[trigger] changes[i] is ExpireDate ==> changes[i]->ExpireDate_0 == (match des.expiry_date { Some(d) => Some((d.year, d.month, d.day)), None => None }),
        (exists|i: int| 0 <= i < changes.len() && #[trigger] changes[i] is Lock) <==> (cur.password is Unlocked && des.password is Locked),
        (exists|i: int| 0 <= i < changes.len() && #[trigger] changes[i] is Unlock) <==> (cur.password is Locked && des.password is Unlocked),
{
    lemma_gid_change(cur, des, changes);
    lemma_home_change(cur, des, changes);
    lemma_shell_change(cur, des, changes);
    lemma_groups_change(cur, des, changes);
    lemma_comment_change(cur, des, changes);
    lemma_expiry_change(cur, des, changes);
    lemma_lock_change(cur, des, changes);
    lemma_unlock_change(cur, des, changes);
}

/// The password that `passwd` sets is the desired hash, set exactly when
/// the password is to be unlocked and the account's is locked or has
/// another hash.
pub proof fn lemma_passwd_change(cur: CurrentUser, des: UserParameters)
    ensures
        passwd_change(cur, des) is Some <==> (des.password matches Password::Unlocked(p)
            && !(cur.password matches Password::Unlocked(c) && c@ == p@)),
        passwd_change(cur, des) matches Some(h) ==> des.password matches Password::Unlocked(p) && h == p@,
{
}

/// The names of groups joined with commas.
fn groups_text(v: &Vec<Groupname>) -> (r: String)
    ensures
        r@ == join_comma(group_views(v@)),
{
    let mut out = String::new();
    let mut i: usize = 0;
    while i < v.len()
        invariant
            i <= v@.len(),
            out@ == join_comma(group_views(v@).take(i as int)),
        decreases v.len() - i,
    {
        let ghost before = out@;
        assert(group_views(v@).take(i + 1).drop_last() =~= group_views(v@).take(i as int));
        assert(group_views(v@)[i as int] == v@[i as int]@);
        if i > 0 {
            push_str(&mut out, ",");
        }
        push_str(&mut out, v[i].as_str());
        if i == 0 {
            assert(group_views(v@).take(1) =~= seq![v@[0]@]);
        } else {
            assert(out@ =~= before + seq![','] + v@[i as int]@) by {
                reveal_strlit(",");
            }
        }
        i = i + 1;
    }
    assert(group_views(v@).take(v@.len() as int) =~= group_views(v@));
    out
}

/// Whether the current supplementary groups are the desired ones, in order.
fn same_groups(cur: &Vec<String>, des: &Vec<Groupname>) -> (r: bool)
    ensures
        r == (string_views(cur@) == group_views(des@)),
{
    if cur.len() != des.len() {
        assert(string_views(cur@).len() != group_views(des@).len());
        return false;
    }
    let mut i: usize = 0;
    while i < cur.len()
        invariant
            i <= cur@.len(),
            cur@.len() == des@.len(),
            forall|j: int| 0 <= j < i ==> cur@[j]@ == des@[j]@,
        decreases cur.len() - i,
    {
        if !str_eq(cur[i].as_str(), des[i].as_str()) {
            assert(string_views(cur@)[i as int] != group_views(des@)[i as int]);
            return false;
        }
        i = i + 1;
    }
    assert(string_views(cur@) =~= group_views(des@));
    true
}

fn push_arg(args: &mut Vec<UsermodArg>, a: UsermodArg)
    ensures
        arg_views(final(args)@) == arg_views(old(args)@) + seq![arg_view(a)],
{
    args.push(a);
    assert(arg_views(args@) =~= arg_views(old(args)@) + seq![arg_view(a)]);
}

/// Decides the changes that bring an account to its desired parameters.
pub fn user_update(cur: &CurrentUser, des: &UserParameters) -> (r: UserUpdate)
    ensures
        arg_views(r.usermod@) == usermod_changes(*cur, *des),
        opt_text(r.password) == passwd_change(*cur, *des),
{
    let mut args: Vec<UsermodArg> = Vec::new();
    assert(arg_views(args@) =~= Seq::<ArgView>::empty());
    match (&cur.comment, &des.comment) {
        (Some(c), Some(d)) => {
            if !str_eq(c.as_str(), d.as_str()) {
                push_arg(&mut args, UsermodArg::Comment(Some(d.clone())));
            }
        },
        (Some(_), None) => {
            push_arg(&mut args, UsermodArg::Comment(None));
        },
        (None, Some(d)) => {
            push_arg(&mut args, UsermodArg::Comment(Some(d.clone())));
        },
        (None, None) => {},
    }
    let ghost p1 = comment_part(*cur, *des);
    assert(arg_views(args@) =~= p1);
    if let Some(s) = &des.shell {
        if !path_eq(s.as_str(), cur.shell.as_str()) {
            push_arg(&mut args, UsermodArg::Shell(s.as_str().to_owned()));
        }
    }
    let ghost p2 = p1 + shell_part(*cur, *des);
    assert(arg_views(args@) =~= p2);
    if !path_eq(des.home.as_str(), cur.home.as_str()) {
        push_arg(&mut args, UsermodArg::Home(des.home.as_str().to_owned()));
    }
    let ghost p3 = p2 + home_part(*cur, *des);
    assert(arg_views(args@) =~= p3);
    match (&cur.expiry_date, &des.expiry_date) {
        (Some(c), Some(d)) => {
            if !(c.0 == d.year && c.1 == d.month && c.2 == d.day) {
                push_arg(&mut args, UsermodArg::ExpireDate(Some((d.year, d.month, d.day))));
            }
        },
        (None, Some(d)) => {
            push_arg(&mut args, UsermodArg::ExpireDate(Some((d.year, d.month, d.day))));
        },
        (Some(_), None) => {
            push_arg(&mut args, UsermodArg::ExpireDate(None));
        },
        (None, None) => {},
    }
    let ghost p4 = p3 + expiry_part(*cur, *des);
    assert(arg_views(args@) =~= p4);
    if !str_eq(cur.group.as_str(), des.group.as_str()) {
        push_arg(&mut args, UsermodArg::Gid(des.group.as_str().to_owned()));
    }
    let ghost p5 = p4 + gid_part(*cur, *des);
    assert(arg_views(args@) =~= p5);
    if !same_groups(&cur.groups, &des.groups) {
        push_arg(&mut args, UsermodArg::Groups(groups_text(&des.groups)));
    }
    let ghost p6 = p5 + groups_part(*cur, *des);
    assert(arg_views(args@) =~= p6);
    let mut password: Option<String> = None;
    match (&cur.password, &des.password) {
        (Password::Unlocked(c), Password::Unlocked(p)) => {
            if !str_eq(c.as_str(), p.as_str()) {
                password = Some(p.clone());
            }
        },
        (Password::Unlocked(_), Password::Locked) => {
            push_arg(&mut args, UsermodArg::Lock);
        },
        (Password::Locked, Password::Unlocked(p)) => {
            push_arg(&mut args, UsermodArg::Unlock);
            password = Some(p.clone());
        },
        (Password::Locked, Password::Locked) => {},
    }
    assert(arg_views(args@) =~= p6 + lock_part(*cur, *des));
    UserUpdate { usermod: args, password }
}

} // verus!
