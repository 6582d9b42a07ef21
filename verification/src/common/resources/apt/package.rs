use super::{check_package_name, check_version, package_name_check, version_check, version_error_detail, version_error_detail_text, PackageNameError, VersionError};
use crate::text::{around_char, concat3, push_str, str_eq};
use vstd::prelude::*;

verus! {

/// Whether a package should be installed, removed, or removed with its
/// configuration files.
#[derive(Clone, Copy, Debug, PartialEq, Eq, Structural)]
pub enum Ensure {
    Present,
    Absent,
    Purged,
}

/// The name by which a package state is written.
pub open spec fn ensure_name(e: Ensure) -> Seq<char> {
    match e {
        Ensure::Present => "present"@,
        Ensure::Absent => "absent"@,
        Ensure::Purged => "purged"@,
    }
}

impl Ensure {
    pub fn default() -> (r: Ensure)
        ensures
            r == Ensure::Present,
    {
        Ensure::Present
    }

    pub fn is_present(&self) -> (r: bool)
        ensures
            r == (*self == Ensure::Present),
    {
        *self == Ensure::Present
    }

    pub fn is_absent(&self) -> (r: bool)
        ensures
            r == (*self == Ensure::Absent),
    {
        *self == Ensure::Absent
    }

    pub fn is_purged(&self) -> (r: bool)
        ensures
            r == (*self == Ensure::Purged),
    {
        *self == Ensure::Purged
    }

    /// Parses `present`, `absent` or `purged`.
    pub fn from_str(s: &str) -> (r: Result<Ensure, String>)
        ensures
            r matches Ok(e) ==> ensure_name(e) == s@,
            r is Err <==> (s@ != "present"@ && s@ != "absent"@ && s@ != "purged"@),
            r matches Err(m) ==> m@ == "invalid `ensure` value: "@ + s@,
    {
        if str_eq(s, "present") {
            Ok(Ensure::Present)
        } else if str_eq(s, "absent") {
            Ok(Ensure::Absent)
        } else if str_eq(s, "purged") {
            Ok(Ensure::Purged)
        } else {
            Err(crate::text::concat2("invalid `ensure` value: ", s))
        }
    }
}

/// The message of `Name::from_str` for a broken rule.
pub open spec fn name_message(s: Seq<char>, e: PackageNameError) -> Seq<char> {
    match e {
        PackageNameError::TooShort => "package name `"@ + s + "` must be at least two characters long"@,
        PackageNameError::BadStart => "package name `"@ + s + "` must start with an alphanumeric character"@,
        PackageNameError::BadChar(c) => "package name `"@ + s + "` contains invalid character `"@ + seq![c] + "`"@,
    }
}

/// The message of `Version::from_str` for a broken rule.
pub open spec fn version_message(s: Seq<char>, e: VersionError) -> Seq<char> {
    match e {
        VersionError::Epoch(_) => "epoch component of package version `"@ + s + "` is invalid: "@
            + version_error_detail_text(e),
        VersionError::Revision(_) => "Debian revision component of package version `"@ + s
            + "` contains invalid character: "@ + version_error_detail_text(e),
        VersionError::Upstream(_) => "upstream version component of package version `"@ + s
            + "` contains invalid character: "@ + version_error_detail_text(e),
    }
}

/// The name of a Debian package.
pub struct Name(String);

impl View for Name {
    type V = Seq<char>;

    closed spec fn view(&self) -> Seq<char> {
        self.0@
    }
}

impl Clone for Name {
    fn clone(&self) -> (r: Self)
        ensures
            r@ == self@,
    {
        Name(self.0.clone())
    }
}

impl Name {
    /// Parses a package name, following the syntax rules of the Debian policy.
    pub fn from_str(s: &str) -> (r: Result<Name, String>)
        ensures
            r is Ok <==> package_name_check(s@) is Ok,
            r matches Ok(n) ==> n@ == s@,
            r matches Err(m) ==> m@ == name_message(s@, package_name_check(s@)->Err_0),
    {
        match check_package_name(s) {
            Ok(()) => Ok(Name(s.to_owned())),
            Err(PackageNameError::TooShort) => Err(
                concat3("package name `", s, "` must be at least two characters long"),
            ),
            Err(PackageNameError::BadStart) => Err(
                concat3("package name `", s, "` must start with an alphanumeric character"),
            ),
            Err(PackageNameError::BadChar(c)) => {
                let mut m = concat3("package name `", s, "");
                let tail = around_char("` contains invalid character `", c, "`");
                push_str(&mut m, tail.as_str());
                proof {
                    reveal_strlit("");
                }
                assert(m@ =~= "package name `"@ + s@ + "` contains invalid character `"@ + seq![c] + "`"@);
                Err(m)
            },
        }
    }

    pub fn as_str(&self) -> (r: &str)
        ensures
            r@ == self@,
    {
        self.0.as_str()
    }

    pub fn eq(&self, other: &Name) -> (r: bool)
        ensures
            r == (self@ == other@),
    {
        str_eq(self.0.as_str(), other.0.as_str())
    }
}

/// The version of a Debian package, as written, epoch and revision included.
pub struct Version(String);

impl View for Version {
    type V = Seq<char>;

    closed spec fn view(&self) -> Seq<char> {
        self.0@
    }
}

impl Clone for Version {
    fn clone(&self) -> (r: Self)
        ensures
            r@ == self@,
    {
        Version(self.0.clone())
    }
}

impl Version {
    /// Parses a package version and keeps it whole.
    pub fn from_str(s: &str) -> (r: Result<Version, String>)
        ensures
            r is Ok <==> version_check(s@) is Ok,
            r matches Ok(v) ==> v@ == s@,
            r matches Err(m) ==> m@ == version_message(s@, version_check(s@)->Err_0),
    {
        match check_version(s) {
            Ok(_) => Ok(Version(s.to_owned())),
            Err(e) => {
                let mut m = match e {
                    VersionError::Epoch(_) => concat3("epoch component of package version `", s, "` is invalid: "),
                    VersionError::Revision(_) => concat3("Debian revision component of package version `", s, "` contains invalid character: "),
                    VersionError::Upstream(_) => concat3("upstream version component of package version `", s, "` contains invalid character: "),
                };
                let d = version_error_detail(e);
                push_str(&mut m, d.as_str());
                Err(m)
            },
        }
    }

    pub fn as_str(&self) -> (r: &str)
        ensures
            r@ == self@,
    {
        self.0.as_str()
    }

    pub fn eq(&self, other: &Version) -> (r: bool)
        ensures
            r == (self@ == other@),
    {
        str_eq(self.0.as_str(), other.0.as_str())
    }
}

/// The parameters of an `apt::package` resource.
pub struct Parameters {
    pub ensure: Ensure,
    pub name: Name,
    pub version: Option<Version>,
}

} // verus!
