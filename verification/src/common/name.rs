use crate::text::{
    lemma_class_allows, lemma_first_outside, lemma_first_where_some, around_char, around_chars, chars_of, class_allows, find_outside, first_where, outside_class,
    split, split_chars, views, CharClass,
};
use vstd::prelude::*;

verus! {

/// A dot-separated part of a hostname must hold between 1 and 63 characters.
pub open spec fn bad_label() -> spec_fn(Seq<char>) -> bool {
    |l: Seq<char>| !(1 <= l.len() <= 63)
}

/// What `Hostname::from_str` answers: `Ok` or the message of the first rule
/// that the string breaks.
pub open spec fn hostname_check(s: Seq<char>) -> Result<(), Seq<char>> {
    if s.len() == 0 {
        Err("hostname cannot be an empty string"@)
    } else if s.len() > 253 {
        Err("hostname cannot exceed 253 characters"@)
    } else if s[0] == '-' {
        Err("hostname cannot start with a hyphen"@)
    } else if let Some(i) = first_where(s, outside_class(CharClass::Hostname)) {
        Err("hostname contains invalid character `"@ + seq![s[i]] + "`"@)
    } else if let Some(j) = first_where(split(s, '.'), bad_label()) {
        Err(
            "dot-separated parts of a hostname must be between 1 and 63 characters long, found `"@
                + split(s, '.')[j] + "`"@,
        )
    } else {
        Ok(())
    }
}

/// A hostname is accepted exactly when it holds 1 to 253 characters, does
/// not start with `-`, holds only ASCII letters, digits, `-` and `.`, and
/// each of its parts between dots holds 1 to 63 characters.
pub proof fn lemma_hostname(s: Seq<char>)
    ensures
        hostname_check(s) is Ok <==> (1 <= s.len() <= 253 && s[0] != '-'
            && (forall|i: int| 0 <= i < s.len() ==> (('a' <= #[trigger] s[i] <= 'z') || ('A' <= s[i] <= 'Z')
                || ('0' <= s[i] <= '9') || s[i] == '-' || s[i] == '.'))
            && forall|j: int| 0 <= j < split(s, '.').len() ==> 1 <= (#[trigger] split(s, '.')[j]).len() <= 63),
{
    lemma_first_outside(s, CharClass::Hostname);
    assert forall|i: int| 0 <= i < s.len() implies class_allows(CharClass::Hostname, #[trigger] s[i])
        == (('a' <= s[i] <= 'z') || ('A' <= s[i] <= 'Z') || ('0' <= s[i] <= '9') || s[i] == '-' || s[i] == '.') by {
        lemma_class_allows(s[i]);
    }
    let parts = split(s, '.');
    let p = bad_label();
    assert forall|l: Seq<char>| #[trigger] p(l) == !(1 <= l.len() <= 63) by {}
    if exists|j: int| 0 <= j < parts.len() && p(parts[j]) {
        let j = choose|j: int| 0 <= j < parts.len() && p(parts[j]);
        lemma_first_where_some(parts, p, j);
    } else {
        assert forall|j: int| 0 <= j < parts.len() implies 1 <= (#[trigger] parts[j]).len() <= 63 by {
            assert(!p(parts[j]));
        }
    }
}

/// A valid hostname.
pub struct Hostname(String);

impl View for Hostname {
    type V = Seq<char>;

    closed spec fn view(&self) -> Seq<char> {
        self.0@
    }
}

impl Clone for Hostname {
    fn clone(&self) -> (r: Self)
        ensures
            r@ == self@,
    {
        Hostname(self.0.clone())
    }
}

impl Hostname {
    /// Parses a hostname: it is non-empty, at most 253 characters long, does
    /// not start with a hyphen, holds only ASCII letters, digits, `-` and `.`, and
    /// each of its dot-separated parts holds 1 to 63 characters.
    #[verifier::loop_isolation(false)]
    pub fn from_str(s: &str) -> (r: Result<Hostname, String>)
        ensures
            hostname_check(s@) is Ok <==> r is Ok,
            r matches Ok(h) ==> h@ == s@,
            r matches Err(m) ==> hostname_check(s@) == Err::<(), Seq<char>>(m@),
    {
        let cs = chars_of(s);
        if cs.len() == 0 {
            return Err("hostname cannot be an empty string".to_owned());
        }
        if cs.len() > 253 {
            return Err("hostname cannot exceed 253 characters".to_owned());
        }
        if cs[0] == '-' {
            return Err("hostname cannot start with a hyphen".to_owned());
        }
        if let Some(c) = find_outside(&cs, CharClass::Hostname) {
            return Err(around_char("hostname contains invalid character `", c, "`"));
        }
        let labels = split_chars(&cs, '.');
        let mut i: usize = 0;
        while i < labels.len()
            invariant
                i <= labels.len(),
                views(labels@) == split(cs@, '.'),
                forall|j: int| 0 <= j < i ==> !bad_label()(#[trigger] views(labels@)[j]),
            decreases labels.len() - i,
        {
            let n = labels[i].len();
            assert(views(labels@)[i as int] == labels@[i as int]@);
            if n < 1 || n > 63 {
                proof {
                    crate::text::lemma_first_where_found(split(cs@, '.'), bad_label(), i as int);
                }
                return Err(
                    around_chars(
                        "dot-separated parts of a hostname must be between 1 and 63 characters long, found `",
                        &labels[i],
                        "`",
                    ),
                );
            }
            i = i + 1;
        }
        proof {
            crate::text::lemma_first_where_none(split(cs@, '.'), bad_label());
        }
        Ok(Hostname(s.to_owned()))
    }

    pub fn as_str(&self) -> (r: &str)
        ensures
            r@ == self@,
    {
        self.0.as_str()
    }
}

} // verus!
