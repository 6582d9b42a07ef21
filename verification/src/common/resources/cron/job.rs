use crate::common::resources::user::Name as Username;
use crate::common::Ensure;
use crate::text::{class_allows, lemma_class_allows, lemma_first_outside, around_char, chars_of, find_outside, first_where, outside_class, str_eq, CharClass};
use vstd::prelude::*;

verus! {

/// A variable in the environment of a command; without a value it is set
/// to the empty string.
pub struct Environment {
    pub name: String,
    pub value: Option<String>,
}

/// What `Name::from_str` answers for a cron job name.
pub open spec fn cron_name_check(s: Seq<char>) -> Result<(), Seq<char>> {
    if s.len() == 0 {
        Err("cron job name cannot be an empty string"@)
    } else if let Some(i) = first_where(s, outside_class(CharClass::Identifier)) {
        Err("cron job name contains invalid character `"@ + seq![s[i]] + "`"@)
    } else {
        Ok(())
    }
}

/// A cron job name is accepted exactly when it is not empty and holds only
/// ASCII letters, digits, `-` and `_`.
pub proof fn lemma_cron_name(s: Seq<char>)
    ensures
        cron_name_check(s) is Ok <==> (s.len() > 0 && forall|i: int| 0 <= i < s.len() ==> (('a' <= #[trigger] s[i] <= 'z')
            || ('A' <= s[i] <= 'Z') || ('0' <= s[i] <= '9') || s[i] == '-' || s[i] == '_')),
{
    lemma_first_outside(s, CharClass::Identifier);
    assert forall|i: int| 0 <= i < s.len() implies class_allows(CharClass::Identifier, #[trigger] s[i])
        == (('a' <= s[i] <= 'z') || ('A' <= s[i] <= 'Z') || ('0' <= s[i] <= '9') || s[i] == '-' || s[i] == '_') by {
        lemma_class_allows(s[i]);
    }
}

/// The name of a cron job: non-empty, only ASCII letters, digits, `-` and `_`.
pub struct Name(String);

impl View for Name {
    type V = Seq<char>;

    closed spec fn view(&self) -> Seq<char> {
        self.0@
    }
}

impl Clone for Name {
    fn clone(&self) -> (r: Self)
        ensures
            r@ == self@,
    {
        Name(self.0.clone())
    }
}

impl Name {
    pub fn from_str(s: &str) -> (r: Result<Name, String>)
        ensures
            r is Ok <==> cron_name_check(s@) is Ok,
            r matches Ok(n) ==> n@ == s@,
            r matches Err(m) ==> cron_name_check(s@) == Err::<(), Seq<char>>(m@),
    {
        let cs = chars_of(s);
        if cs.len() == 0 {
            return Err("cron job name cannot be an empty string".to_owned());
        }
        match find_outside(&cs, CharClass::Identifier) {
            Some(c) => Err(around_char("cron job name contains invalid character `", c, "`")),
            None => Ok(Name(s.to_owned())),
        }
    }

    pub fn as_str(&self) -> (r: &str)
        ensures
            r@ == self@,
    {
        self.0.as_str()
    }

    pub fn eq(&self, other: &Name) -> (r: bool)
        ensures
            r == (self@ == other@),
    {
        str_eq(self.0.as_str(), other.0.as_str())
    }

    /// Whether a cron job name equals a user name.
    pub fn eq_user(&self, other: &Username) -> (r: bool)
        ensures
            r == (self@ == other@),
    {
        str_eq(self.0.as_str(), other.as_str())
    }
}

/// The parameters of a `cron::job` resource.
pub struct Parameters {
    pub ensure: Ensure,
    /// The file in `/etc/cron.d` that holds the job.
    pub target: String,
    pub name: Name,
    pub environment: Vec<Environment>,
    pub schedule: String,
    pub user: Username,
    pub command: String,
}

} // verus!
