use crate::common::Ensure;
use crate::text::{around_char, chars_of, concat3, find_outside, first_where, outside_class, push_str, str_eq, CharClass};
use vstd::prelude::*;

verus! {

/// The message of `Name::from_str` for the first invalid character.
pub open spec fn preference_name_message(s: Seq<char>, c: char) -> Seq<char> {
    "apt preference name `"@ + s + "` contains invalid character `"@ + seq![c] + "`"@
}

/// The name of an apt preference, which doubles as the name of a file in
/// `/etc/apt/preferences.d`: only ASCII letters, digits, `_`, `-` and `.`.
pub struct Name(String);

impl View for Name {
    type V = Seq<char>;

    closed spec fn view(&self) -> Seq<char> {
        self.0@
    }
}

impl Clone for Name {
    fn clone(&self) -> (r: Self)
        ensures
            r@ == self@,
    {
        Name(self.0.clone())
    }
}

impl Name {
    pub fn from_str(s: &str) -> (r: Result<Name, String>)
        ensures
            r is Ok <==> first_where(s@, outside_class(CharClass::PreferenceName)) is None,
            r matches Ok(n) ==> n@ == s@,
            r matches Err(m) ==> m@ == preference_name_message(
                s@,
                s@[first_where(s@, outside_class(CharClass::PreferenceName))->0],
            ),
    {
        let cs = chars_of(s);
        match find_outside(&cs, CharClass::PreferenceName) {
            Some(c) => {
                let mut m = concat3("apt preference name `", s, "");
                let tail = around_char("` contains invalid character `", c, "`");
                push_str(&mut m, tail.as_str());
                proof {
                    reveal_strlit("");
                }
                assert(m@ =~= preference_name_message(s@, c));
                Err(m)
            },
            None => Ok(Name(s.to_owned())),
        }
    }

    pub fn as_str(&self) -> (r: &str)
        ensures
            r@ == self@,
    {
        self.0.as_str()
    }

    pub fn eq(&self, other: &Name) -> (r: bool)
        ensures
            r == (self@ == other@),
    {
        str_eq(self.0.as_str(), other.0.as_str())
    }
}

/// The parameters of an `apt::preference` resource.
pub struct Parameters {
    pub ensure: Ensure,
    /// The file in `/etc/apt/preferences.d` that holds the preference.
    pub target: String,
    pub name: Name,
    pub explanation: Option<String>,
    pub package: String,
    pub pin: String,
    pub pin_priority: i16,
}

} // verus!
