use pullconf::common::resources::apt::package::{Name, Version};
use pullconf::common::resources::apt::{PackageName, PackageVersion};

#[test]
fn apt_parse_package_names() {
    // Too short.
    assert!(PackageName::from_str("a").is_err());
    // Starts with invalid character.
    assert!(PackageName::from_str(".a").is_err());
    // Contains invalid character.
    assert!(PackageName::from_str("asdasdad%a").is_err());
    // Valid.
    assert!(PackageName::from_str("nginx").is_ok());
}

#[test]
fn apt_parse_package_versions() {
    // Invalid epoch.
    assert!(PackageVersion::from_str("3242343:0.0.0-1").is_err());
    // Invalid debian revision.
    assert!(PackageVersion::from_str("1:0.0.0-1#").is_err());
    // Invalid upstream version.
    assert!(PackageVersion::from_str("1:0.0.*-1f").is_err());
    // Valid.
    assert!(PackageVersion::from_str("1:0.0.0-1").is_ok());
}

#[test]
fn package_parse_package_names() {
    // Too short.
    assert!(Name::from_str("a").is_err());
    // Starts with invalid character.
    assert!(Name::from_str(".a").is_err());
    // Contains invalid character.
    assert!(Name::from_str("asdasdad%a").is_err());
    // Valid.
    assert!(Name::from_str("nginx").is_ok());
}

#[test]
fn package_parse_package_versions() {
    // Invalid epoch.
    assert!(Version::from_str("3242343:0.0.0-1").is_err());
    // Invalid debian revision.
    assert!(Version::from_str("1:0.0.0-1#").is_err());
    // Invalid upstream version.
    assert!(Version::from_str("1:0.0.*-1f").is_err());
    // Valid.
    assert!(Version::from_str("1:0.0.0-1").is_ok());
}
