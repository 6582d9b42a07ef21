use pullconf::common::resources::resolv_conf::ResolverOption;
use pullconf::common::ResourceType;
use pullconf::server::env::{check_path, FileType};
use pullconf::server::parse::UnresolvedResource;
use pullconf::server::unresolved::UnresolvedParameters;

#[test]
fn directory_path_accepted() {
    assert_eq!(check_path(FileType::Directory, "PULLCONF_ASSET_DIR", true, false, true), Ok(()));
}

#[test]
fn directory_path_refused_when_relative() {
    assert_eq!(
        check_path(FileType::Directory, "PULLCONF_ASSET_DIR", true, false, false),
        Err("`PULLCONF_ASSET_DIR`: value must be an absolute path pointing to an existing directory".to_string())
    );
}

#[test]
fn directory_path_refused_when_a_file() {
    assert_eq!(
        check_path(FileType::Directory, "PULLCONF_RESOURCE_DIR", false, true, true),
        Err("`PULLCONF_RESOURCE_DIR`: value must be an absolute path pointing to an existing directory".to_string())
    );
}

#[test]
fn file_path_accepted_and_refused() {
    assert_eq!(check_path(FileType::File, "PULLCONF_TLS_CERTIFICATE", false, true, true), Ok(()));
    assert_eq!(
        check_path(FileType::File, "PULLCONF_TLS_CERTIFICATE", true, false, true),
        Err("`PULLCONF_TLS_CERTIFICATE`: value must be an absolute path pointing to an existing file".to_string())
    );
}

fn unresolved(kind: ResourceType) -> UnresolvedResource {
    UnresolvedResource {
        parameters: UnresolvedParameters { kind, values: Vec::new() },
        requires: Vec::new(),
        triggers: Vec::new(),
    }
}

#[test]
fn unresolved_kind_accessors() {
    let p = unresolved(ResourceType::AptPreference);
    assert!(p.as_apt_preference().is_some());
    assert!(p.as_cron_job().is_none());
    assert!(p.as_resolv_conf().is_none());
    let c = unresolved(ResourceType::CronJob);
    assert!(c.as_cron_job().is_some());
    assert!(c.as_apt_preference().is_none());
    let r = unresolved(ResourceType::ResolvConf);
    assert!(r.as_resolv_conf().is_some());
    let f = unresolved(ResourceType::File);
    assert!(f.as_apt_preference().is_none() && f.as_cron_job().is_none() && f.as_resolv_conf().is_none());
}

#[test]
fn resolver_option_bounds() {
    let o = ResolverOption::from_str("ndots:15").unwrap();
    assert_eq!(o.as_str(), "ndots:15");
    let e = ResolverOption::from_str("ndots:16").err().unwrap();
    assert_eq!(e, "invalid resolver option `ndots:16`");
    assert!(ResolverOption::from_str("timeout:30").is_ok());
    assert!(ResolverOption::from_str("attempts:6").is_err());
}
