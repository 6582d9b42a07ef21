use crate::text::concat_all;
use vstd::prelude::*;

verus! {

/// Where a node of the configuration was read: the file and the path of
/// keys and indices that leads to it.
pub struct Source {
    pub file: String,
    pub path: String,
}

/// The text of a source in messages: the file and the path, each in backticks.
pub open spec fn source_text(file: Seq<char>, path: Seq<char>) -> Seq<char> {
    "`"@ + file + "`>`"@ + path + "`"@
}

impl Clone for Source {
    fn clone(&self) -> (r: Self)
        ensures
            r.file@ == self.file@,
            r.path@ == self.path@,
    {
        Source { file: self.file.clone(), path: self.path.clone() }
    }
}

impl Source {
    pub fn new(file: &str, path: &str) -> (r: Source)
        ensures
            r.file@ == file@,
            r.path@ == path@,
    {
        Source { file: file.to_owned(), path: path.to_owned() }
    }

    /// The source of the item at `index` of the array here.
    pub fn add_index(&self, index: usize) -> (r: Source)
        ensures
            r.file@ == self.file@,
            r.path@ == self.path@ + "["@ + crate::common::net::decimal(index as nat) + "]"@,
    {
        let mut path = crate::text::concat2(self.path.as_str(), "[");
        let digits = decimal_usize(index);
        crate::text::push_str(&mut path, digits.as_str());
        crate::text::push_str(&mut path, "]");
        Source { file: self.file.clone(), path }
    }

    /// The source of the value of `key` in the hash here.
    pub fn add_key(&self, key: &str) -> (r: Source)
        ensures
            r.file@ == self.file@,
            r.path@ == self.path@ + "."@ + key@,
    {
        Source { file: self.file.clone(), path: crate::text::concat3(self.path.as_str(), ".", key) }
    }

    /// The text of the source in messages.
    pub fn display(&self) -> (r: String)
        ensures
            r@ == source_text(self.file@, self.path@),
    {
        let parts = [ "`", self.file.as_str(), "`>`", self.path.as_str(), "`" ];
        let r = concat_all(&parts);
        assert(crate::text::str_views(parts@) =~= seq!["`"@, self.file@, "`>`"@, self.path@, "`"@]);
        assert(crate::text::join_all(seq!["`"@, self.file@, "`>`"@, self.path@, "`"@])
            =~= "`"@ + self.file@ + "`>`"@ + self.path@ + "`"@) by {
            reveal_with_fuel(crate::text::join_all, 6);
        }
        r
    }
}

/// The decimal digits of an index.
pub fn decimal_usize(v: usize) -> (r: String)
    ensures
        r@ == crate::common::net::decimal(v as nat),
    decreases v,
{
    let d = ((v % 10) as u8 + 48) as char;
    assert(d == ((v % 10) + '0' as nat) as char);
    if v < 10 {
        let mut s = String::new();
        s.push(d);
        assert(s@ =~= crate::common::net::decimal(v as nat));
        s
    } else {
        let mut s = decimal_usize(v / 10);
        s.push(d);
        s
    }
}

} // verus!
