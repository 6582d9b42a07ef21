use crate::common::path::SafePathBuf;
use crate::common::resources::group::Name as Groupname;
use crate::common::Ensure;
use crate::text::{
    class_allows, lemma_class_allows, lemma_first_outside, around_char, chars_of, concat2, find_outside, first_where, is_ascii_alphabetic, outside_class,
    str_eq, CharClass,
};
use vstd::prelude::*;

verus! {

/// The rules that a user or group name can break.
#[derive(Clone, Copy, Debug, PartialEq, Eq)]
pub enum AccountNameError {
    Empty,
    TooLong,
    BadStart,
    BadChar(char),
}

/// User and group names are non-empty, hold at most 32 characters, start with
/// an ASCII letter or `_` and hold only ASCII letters, digits, `-` and `_`.
pub open spec fn account_name_check(s: Seq<char>) -> Result<(), AccountNameError> {
    if s.len() == 0 {
        Err(AccountNameError::Empty)
    } else if s.len() > 32 {
        Err(AccountNameError::TooLong)
    } else if !(is_ascii_alphabetic(s[0]) || s[0] == '_') {
        Err(AccountNameError::BadStart)
    } else if let Some(i) = first_where(s, outside_class(CharClass::Identifier)) {
        Err(AccountNameError::BadChar(s[i]))
    } else {
        Ok(())
    }
}

/// A user or group name is accepted exactly when it holds 1 to 32
/// characters, starts with an ASCII letter or `_` and holds only ASCII
/// letters, digits, `-` and `_`; each refusal names the first rule broken
/// in that order, and for a character the first one outside the set.
pub proof fn lemma_account_name(s: Seq<char>)
    ensures
        account_name_check(s) is Ok <==> (1 <= s.len() <= 32
            && (('a' <= s[0] <= 'z') || ('A' <= s[0] <= 'Z') || s[0] == '_')
            && forall|i: int| 0 <= i < s.len() ==> (('a' <= #[trigger] s[i] <= 'z') || ('A' <= s[i] <= 'Z')
                || ('0' <= s[i] <= '9') || s[i] == '-' || s[i] == '_')),
        account_name_check(s) == Err::<(), AccountNameError>(AccountNameError::Empty) <==> s.len() == 0,
        account_name_check(s) == Err::<(), AccountNameError>(AccountNameError::TooLong) <==> s.len() > 32,
        account_name_check(s) == Err::<(), AccountNameError>(AccountNameError::BadStart) <==> (1 <= s.len() <= 32
            && !(('a' <= s[0] <= 'z') || ('A' <= s[0] <= 'Z') || s[0] == '_')),
        account_name_check(s) matches Err(AccountNameError::BadChar(c)) ==> exists|i: int| 0 <= i < s.len()
            && #[trigger] s[i] == c && !(('a' <= c <= 'z') || ('A' <= c <= 'Z') || ('0' <= c <= '9') || c == '-' || c == '_'),
{
    lemma_first_outside(s, CharClass::Identifier);
    if let Some(i) = first_where(s, outside_class(CharClass::Identifier)) {
        lemma_class_allows(s[i]);
    }
    assert forall|i: int| 0 <= i < s.len() implies class_allows(CharClass::Identifier, #[trigger] s[i])
        == (('a' <= s[i] <= 'z') || ('A' <= s[i] <= 'Z') || ('0' <= s[i] <= '9') || s[i] == '-' || s[i] == '_') by {
        lemma_class_allows(s[i]);
    }
}

/// The message for a broken rule, where `label` is `username` or `groupname`.
pub open spec fn account_name_message(label: Seq<char>, e: AccountNameError) -> Seq<char> {
    match e {
        AccountNameError::Empty => label + " cannot be an empty string"@,
        AccountNameError::TooLong => label + " cannot exceed 32 characters"@,
        AccountNameError::BadStart => label
            + " must start with an alphabetic character or an underscore"@,
        AccountNameError::BadChar(c) => label + " contains invalid character `"@ + seq![c] + "`"@,
    }
}

/// Checks a user or group name; on failure the message begins with `label`.
pub fn check_account_name(s: &str, label: &str) -> (r: Result<(), String>)
    ensures
        r is Ok <==> account_name_check(s@) is Ok,
        r matches Err(m) ==> m@ == account_name_message(label@, account_name_check(s@)->Err_0),
{
    let cs = chars_of(s);
    if cs.len() == 0 {
        return Err(concat2(label, " cannot be an empty string"));
    }
    if cs.len() > 32 {
        return Err(concat2(label, " cannot exceed 32 characters"));
    }
    if !(crate::text::ascii_alphabetic(cs[0]) || cs[0] == '_') {
        return Err(concat2(label, " must start with an alphabetic character or an underscore"));
    }
    match find_outside(&cs, CharClass::Identifier) {
        Some(c) => {
            let tail = around_char(" contains invalid character `", c, "`");
            let m = concat2(label, tail.as_str());
            assert(m@ =~= label@ + " contains invalid character `"@ + seq![c] + "`"@);
            Err(m)
        },
        None => Ok(()),
    }
}

/// The name of a user account.
pub struct Name(String);

impl View for Name {
    type V = Seq<char>;

    closed spec fn view(&self) -> Seq<char> {
        self.0@
    }
}

impl Clone for Name {
    fn clone(&self) -> (r: Self)
        ensures
            r@ == self@,
    {
        Name(self.0.clone())
    }
}

impl Name {
    pub fn from_str(s: &str) -> (r: Result<Name, String>)
        ensures
            r is Ok <==> account_name_check(s@) is Ok,
            r matches Ok(n) ==> n@ == s@,
            r matches Err(m) ==> m@ == account_name_message("username"@, account_name_check(s@)->Err_0),
    {
        match check_account_name(s, "username") {
            Ok(()) => Ok(Name(s.to_owned())),
            Err(m) => Err(m),
        }
    }

    /// The name of the superuser, `root`.
    pub fn root() -> (r: Name)
        ensures
            r@ == "root"@,
    {
        Name("root".to_owned())
    }

    pub fn as_str(&self) -> (r: &str)
        ensures
            r@ == self@,
    {
        self.0.as_str()
    }

    /// Whether a user name equals a group name.
    pub fn eq_group(&self, other: &Groupname) -> (r: bool)
        ensures
            r == (self@ == other@),
    {
        str_eq(self.0.as_str(), other.as_str())
    }

    pub fn eq(&self, other: &Name) -> (r: bool)
        ensures
            r == (self@ == other@),
    {
        str_eq(self.0.as_str(), other.0.as_str())
    }
}

/// The password of a user account: locked, or the hash that unlocks it.
pub enum Password {
    Locked,
    Unlocked(String),
}

/// The hash prefixes that `Password::from_str` accepts.
pub open spec fn password_prefixes() -> Seq<Seq<char>> {
    seq!["$5$"@, "$6$"@, "$7$"@, "$2b$"@, "$gy$"@, "$y$"@]
}

/// A password is locked when it starts with `!` or is `*`; otherwise it is
/// a hash exactly when it starts with `$5$`, `$6$`, `$7$`, `$2b$`, `$gy$` or
/// `$y$`, and is refused else.
pub proof fn lemma_password(s: Seq<char>)
    ensures
        (s.len() > 0 && s[0] == '!') || s == "*"@ ==> password_check(s) == Some(false),
        !((s.len() > 0 && s[0] == '!') || s == "*"@) ==> (password_check(s) == Some(true) <==> (starts_with(s, "$5$"@)
            || starts_with(s, "$6$"@) || starts_with(s, "$7$"@) || starts_with(s, "$2b$"@) || starts_with(s, "$gy$"@)
            || starts_with(s, "$y$"@))),
        password_check(s) is None <==> !((s.len() > 0 && s[0] == '!') || s == "*"@) && !(starts_with(s, "$5$"@)
            || starts_with(s, "$6$"@) || starts_with(s, "$7$"@) || starts_with(s, "$2b$"@) || starts_with(s, "$gy$"@)
            || starts_with(s, "$y$"@)),
{
    let ps = password_prefixes();
    assert(ps[0] == "$5$"@ && ps[1] == "$6$"@ && ps[2] == "$7$"@ && ps[3] == "$2b$"@ && ps[4] == "$gy$"@ && ps[5] == "$y$"@);
    if starts_with(s, "$5$"@) { assert(starts_with(s, ps[0])); }
    if starts_with(s, "$6$"@) { assert(starts_with(s, ps[1])); }
    if starts_with(s, "$7$"@) { assert(starts_with(s, ps[2])); }
    if starts_with(s, "$2b$"@) { assert(starts_with(s, ps[3])); }
    if starts_with(s, "$gy$"@) { assert(starts_with(s, ps[4])); }
    if starts_with(s, "$y$"@) { assert(starts_with(s, ps[5])); }
}

pub open spec fn starts_with(s: Seq<char>, p: Seq<char>) -> bool {
    p.len() <= s.len() && s.take(p.len() as int) == p
}

pub fn starts_with_str(s: &str, p: &str) -> (r: bool)
    ensures
        r == starts_with(s@, p@),
{
    let cs = chars_of(s);
    let ps = chars_of(p);
    if ps.len() > cs.len() {
        return false;
    }
    let head = crate::text::slice_chars(&cs, 0, ps.len());
    assert(cs@.subrange(0, ps@.len() as int) =~= cs@.take(ps@.len() as int));
    crate::text::chars_eq(&head, &ps)
}

/// A password that is locked (`!...` or `*`), a hash with a known prefix, or
/// an error.
pub open spec fn password_check(s: Seq<char>) -> Option<bool> {
    if (s.len() > 0 && s[0] == '!') || s == "*"@ {
        Some(false)
    } else if exists|i: int| 0 <= i < 6 && starts_with(s, #[trigger] password_prefixes()[i]) {
        Some(true)
    } else {
        None
    }
}

impl Password {
    pub open spec fn is_unlocked_with(&self, s: Seq<char>) -> bool {
        match self {
            Password::Unlocked(h) => h@ == s,
            Password::Locked => false,
        }
    }

    /// Parses a password: locked when it starts with `!` or is `*`, unlocked
    /// when it starts with a known hash prefix; anything else is refused.
    #[verifier::loop_isolation(false)]
    pub fn from_str(s: &str) -> (r: Result<Password, String>)
        ensures
            r is Ok <==> password_check(s@) is Some,
            r matches Ok(p) ==> (p is Locked <==> password_check(s@) == Some(false)),
            r matches Ok(p) ==> (p is Unlocked ==> p.is_unlocked_with(s@)),
            r matches Err(m) ==> m@ == "password string is not a valid hash"@,
    {
        let cs = chars_of(s);
        if (cs.len() > 0 && cs[0] == '!') || str_eq(s, "*") {
            return Ok(Password::Locked);
        }
        let prefixes = ["$5$", "$6$", "$7$", "$2b$", "$gy$", "$y$"];
        let mut i: usize = 0;
        while i < 6
            invariant
                i <= 6,
                prefixes@.map_values(|p: &str| p@) == password_prefixes(),
                forall|j: int| 0 <= j < i ==> !starts_with(s@, #[trigger] password_prefixes()[j]),
            decreases 6 - i,
        {
            assert(prefixes@.map_values(|p: &str| p@)[i as int] == prefixes@[i as int]@);
            if starts_with_str(s, prefixes[i]) {
                assert(starts_with(s@, password_prefixes()[i as int]));
                return Ok(Password::Unlocked(s.to_owned()));
            }
            i = i + 1;
        }
        Err("password string is not a valid hash".to_owned())
    }

    pub fn default() -> (r: Password)
        ensures
            r is Locked,
    {
        Password::Locked
    }
}

/// The calendar date that `time::Date::parse` reads from a text with the
/// format `[year]-[month]-[day]`, or the message of its error.
pub uninterp spec fn date_parse(s: Seq<char>) -> Result<(i32, u8, u8), Seq<char>>;

/// Reads a date with `time::Date::parse` and the format description
/// `[year]-[month]-[day]`. The contract claims that the answer is a function
/// of the text and that a date has a month from 1 to 12 and a day from 1 to
/// 31, as `time::Date` documents; which texts it accepts is not restated.
#[verifier::external_body]
fn parse_date(s: &str) -> (r: Result<(i32, u8, u8), String>)
    ensures
        r matches Ok(v) ==> date_parse(s@) is Ok && date_parse(s@)->Ok_0 == v && 1 <= v.1 <= 12
            && 1 <= v.2 <= 31,
        r matches Err(m) ==> date_parse(s@) is Err && date_parse(s@)->Err_0 == m@,
{
    let format = time::format_description::parse("[year]-[month]-[day]").unwrap();
    match time::Date::parse(s, &format) {
        Ok(d) => Ok((d.year(), d.month() as u8, d.day())),
        Err(e) => Err(e.to_string()),
    }
}

/// The date on which a user account expires.
#[derive(Clone, Copy, Debug, PartialEq, Eq, Structural)]
pub struct ExpiryDate {
    pub year: i32,
    pub month: u8,
    pub day: u8,
}

impl ExpiryDate {
    /// Parses a date in the format `YYYY-MM-DD`.
    pub fn from_str(s: &str) -> (r: Result<ExpiryDate, String>)
        ensures
            r is Ok <==> date_parse(s@) is Ok,
            r matches Ok(d) ==> date_parse(s@)->Ok_0 == (d.year, d.month, d.day),
            r matches Err(m) ==> date_parse(s@)->Err_0 == m@,
    {
        match parse_date(s) {
            Ok((year, month, day)) => Ok(ExpiryDate { year, month, day }),
            Err(m) => Err(m),
        }
    }
}

/// The parameters of a `user` resource.
pub struct Parameters {
    pub ensure: Ensure,
    pub name: Name,
    pub system: bool,
    pub comment: Option<String>,
    pub shell: Option<SafePathBuf>,
    pub home: SafePathBuf,
    pub password: Password,
    pub expiry_date: Option<ExpiryDate>,
    /// The name of the primary group.
    pub group: Groupname,
    /// The names of the supplementary groups.
    pub groups: Vec<Groupname>,
}

} // verus!
