use crate::common::resources::user::{account_name_check, account_name_message, check_account_name};
use crate::common::Ensure;
use crate::text::str_eq;
use vstd::prelude::*;

verus! {

/// The name of a group.
pub struct Name(String);

impl View for Name {
    type V = Seq<char>;

    closed spec fn view(&self) -> Seq<char> {
        self.0@
    }
}

impl Clone for Name {
    fn clone(&self) -> (r: Self)
        ensures
            r@ == self@,
    {
        Name(self.0.clone())
    }
}

impl Name {
    pub fn from_str(s: &str) -> (r: Result<Name, String>)
        ensures
            r is Ok <==> account_name_check(s@) is Ok,
            r matches Ok(n) ==> n@ == s@,
            r matches Err(m) ==> m@ == account_name_message("groupname"@, account_name_check(s@)->Err_0),
    {
        match check_account_name(s, "groupname") {
            Ok(()) => Ok(Name(s.to_owned())),
            Err(m) => Err(m),
        }
    }

    /// The group that carries the name of a user (a user's default primary group).
    pub fn from_user(name: &crate::common::resources::user::Name) -> (r: Name)
        ensures
            r@ == name@,
    {
        Name(name.as_str().to_owned())
    }

    pub fn as_str(&self) -> (r: &str)
        ensures
            r@ == self@,
    {
        self.0.as_str()
    }

    pub fn eq(&self, other: &Name) -> (r: bool)
        ensures
            r == (self@ == other@),
    {
        str_eq(self.0.as_str(), other.0.as_str())
    }
}

/// The parameters of a `group` resource.
pub struct Parameters {
    pub ensure: Ensure,
    pub name: Name,
    pub system: bool,
}

} // verus!
