use crate::common::path::SafePathBuf;
use crate::common::resources::execute::Environment;
use crate::common::resources::group::Name as Groupname;
use crate::common::resources::user::Name as Username;
use crate::common::Ensure;
use crate::parse::{byte_len_capped, utf8_len};
use crate::text::{class_allows, lemma_class_allows, lemma_first_outside, chars_of, find_outside, first_where, outside_class, CharClass};
use crate::parse::utf8_width;
use vstd::prelude::*;

verus! {

/// A file mode: three or four octal digits.
pub open spec fn mode_ok(s: Seq<char>) -> bool {
    3 <= utf8_len(s) <= 4 && first_where(s, outside_class(CharClass::Octal)) is None
}

proof fn lemma_octal_utf8_len(s: Seq<char>)
    requires
        forall|i: int| 0 <= i < s.len() ==> '0' <= #[trigger] s[i] <= '7',
    ensures
        utf8_len(s) == s.len(),
    decreases s.len(),
{
    if s.len() > 0 {
        assert(forall|i: int| 0 <= i < s.drop_last().len() ==> #[trigger] s.drop_last()[i] == s[i]);
        lemma_octal_utf8_len(s.drop_last());
        let c = s.last();
        assert('0' <= c <= '7');
        assert(utf8_width(c) == 1);
    }
}

/// A file mode is accepted exactly when it is three or four octal digits.
pub proof fn lemma_mode(s: Seq<char>)
    ensures
        mode_ok(s) <==> (3 <= s.len() <= 4 && forall|i: int| 0 <= i < s.len() ==> '0' <= #[trigger] s[i] <= '7'),
{
    lemma_first_outside(s, CharClass::Octal);
    assert forall|i: int| 0 <= i < s.len() implies class_allows(CharClass::Octal, #[trigger] s[i]) == ('0' <= s[i] <= '7') by {
        lemma_class_allows(s[i]);
    }
    if forall|i: int| 0 <= i < s.len() ==> '0' <= #[trigger] s[i] <= '7' {
        lemma_octal_utf8_len(s);
    }
}

/// The permission bits of a file, as three or four octal digits.
pub struct Mode(String);

impl View for Mode {
    type V = Seq<char>;

    closed spec fn view(&self) -> Seq<char> {
        self.0@
    }
}

impl Clone for Mode {
    fn clone(&self) -> (r: Self)
        ensures
            r@ == self@,
    {
        Mode(self.0.clone())
    }
}

impl Mode {
    pub fn from_str(s: &str) -> (r: Result<Mode, String>)
        ensures
            r is Ok <==> mode_ok(s@),
            r matches Ok(m) ==> m@ == s@,
            r matches Err(m) ==> m@ == "value is not a valid file mode"@,
    {
        let n = byte_len_capped(s, 5);
        let cs = chars_of(s);
        if !(3 <= n && n <= 4) || find_outside(&cs, CharClass::Octal).is_some() {
            return Err("value is not a valid file mode".to_owned());
        }
        Ok(Mode(s.to_owned()))
    }

    /// The default mode, `644`.
    pub fn default() -> (r: Mode)
        ensures
            r@ == "644"@,
    {
        Mode("644".to_owned())
    }

    pub fn as_str(&self) -> (r: &str)
        ensures
            r@ == self@,
    {
        self.0.as_str()
    }
}

/// A placeholder in file content and the command whose output replaces it.
pub struct Replacement {
    pub variable: String,
    pub command: Vec<String>,
    pub environment: Vec<Environment>,
}

/// The content of a file, with placeholders to replace.
pub struct Content {
    pub value: String,
    pub replace: Vec<Replacement>,
}

/// The parameters of a `file` resource.
pub struct Parameters {
    pub path: SafePathBuf,
    pub ensure: Ensure,
    pub mode: Mode,
    pub owner: Username,
    pub group: Option<Groupname>,
    pub content: Option<Content>,
    /// The path of an asset on the server to download the content from.
    pub source: Option<SafePathBuf>,
}

} // verus!
