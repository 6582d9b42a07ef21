use pullconf::agent::accounts::{account_groups, expiry_from_days, find_account, passwd_entry, shadow_entry};
use pullconf::agent::hosts::{host_entry, plan_hosts};
use pullconf::agent::run::Run;
use pullconf::agent::users::{user_update, CurrentUser, UsermodArg};
use pullconf::agent::{Managed, Resource, ResourceResult};
use pullconf::common::name::Hostname;
use pullconf::common::net::parse_ip_address;
use pullconf::common::path::SafePathBuf;
use pullconf::common::resources::group::{Name as Groupname, Parameters as GroupParameters};
use pullconf::common::resources::host::Parameters as HostParameters;
use pullconf::common::resources::user::{Name as Username, Parameters as UserParameters, Password};
use pullconf::common::resources::Relationships;
use pullconf::common::{Action, Ensure, ResourceMetadata, ResourceType};

fn meta(kind: ResourceType, id: &str) -> ResourceMetadata {
    ResourceMetadata { kind, id: id.to_string() }
}

fn group(id: &str, name: &str, ensure: Ensure, requires: Vec<&str>, after: Vec<&str>) -> Resource {
    Resource::Group(Managed {
        metadata: meta(ResourceType::Group, id),
        parameters: GroupParameters { ensure, name: Groupname::from_str(name).unwrap(), system: false },
        relationships: Relationships {
            requires: requires.iter().map(|i| meta(ResourceType::Group, i)).collect(),
            after: after.iter().map(|i| meta(ResourceType::Group, i)).collect(),
            triggers: Vec::new(),
        },
        result: ResourceResult::default(),
    })
}

#[test]
fn run_applies_after_predecessors() {
    let resources = vec![
        group("b", "bgroup", Ensure::Present, vec!["a"], vec!["a"]),
        group("a", "agroup", Ensure::Present, vec![], vec![]),
    ];
    let mut run = Run::new(resources);
    assert!(run.next());
    assert_eq!(run.current.as_ref().unwrap().id(), "a");
    assert!(run.early().is_none());
    run.finish(Action::Created, None, 3);
    assert!(run.next());
    assert_eq!(run.current.as_ref().unwrap().id(), "b");
    run.finish(Action::Unchanged, None, 1);
    assert!(!run.next());
    let report = run.report(7, 100, 4);
    let orders: Vec<usize> = report.resources.iter().map(|r| r.order()).collect();
    assert_eq!(orders, vec![0, 1]);
    assert_eq!(report.resources[0].action(), Action::Created);
    assert_eq!(report.pid, 7);
}

#[test]
fn run_none_ready() {
    let resources = vec![group("b", "bgroup", Ensure::Present, vec![], vec!["x"])];
    let mut run = Run::new(resources);
    assert!(!run.next());
    assert_eq!(run.pending.len(), 1);
}

#[test]
fn early_return_failed_dependency() {
    let resources = vec![
        group("a", "agroup", Ensure::Present, vec![], vec![]),
        group("b", "bgroup", Ensure::Present, vec!["a"], vec!["a"]),
    ];
    let mut run = Run::new(resources);
    assert!(run.next());
    run.finish(Action::Failed, Some("boom".to_string()), 0);
    assert!(run.next());
    let (action, message) = run.early().unwrap();
    assert_eq!(action, Action::Skipped);
    assert_eq!(message, "skipping resource as dependency `group[agroup]` has failed to apply");
}

#[test]
fn early_return_skipped_dependency() {
    let resources = vec![
        group("a", "agroup", Ensure::Present, vec![], vec![]),
        group("b", "bgroup", Ensure::Present, vec!["a"], vec!["a"]),
    ];
    let mut run = Run::new(resources);
    assert!(run.next());
    run.finish(Action::Skipped, None, 0);
    assert!(run.next());
    let (action, message) = run.early().unwrap();
    assert_eq!(action, Action::Skipped);
    assert_eq!(message, "skipping resource as dependency `group[agroup]` has been skipped");
}

#[test]
fn early_return_absent_dependency() {
    let resources = vec![
        group("a", "agroup", Ensure::Absent, vec![], vec![]),
        group("b", "bgroup", Ensure::Present, vec!["a"], vec!["a"]),
    ];
    let mut run = Run::new(resources);
    assert!(run.next());
    run.finish(Action::Deleted, None, 0);
    assert!(run.next());
    let (action, message) = run.early().unwrap();
    assert_eq!(action, Action::Failed);
    assert_eq!(message, "cannot apply resource as dependency `group[agroup]` is set to absent");
}

#[test]
fn early_return_absent_dependency_of_absent() {
    let resources = vec![
        group("a", "agroup", Ensure::Absent, vec![], vec![]),
        group("b", "bgroup", Ensure::Absent, vec!["a"], vec!["a"]),
    ];
    let mut run = Run::new(resources);
    assert!(run.next());
    run.finish(Action::Deleted, None, 0);
    assert!(run.next());
    assert!(run.early().is_none());
}

fn host(ip: &str, name: &str, aliases: Vec<&str>) -> HostParameters {
    HostParameters {
        ensure: Ensure::Present,
        target: "/etc/hosts".to_string(),
        ip_address: parse_ip_address(ip).unwrap(),
        hostname: Hostname::from_str(name).unwrap(),
        aliases: aliases.into_iter().map(|a| Hostname::from_str(a).unwrap()).collect(),
    }
}

#[test]
fn hosts_append_entry() {
    let entry = host_entry(&host("172.16.10.5", "proxy", vec!["proxy.local"]));
    let (action, content) = plan_hosts("127.0.0.1 localhost", &entry, true);
    assert_eq!(action, Action::Created);
    assert_eq!(content.unwrap(), "127.0.0.1 localhost\n172.16.10.5\tproxy\tproxy.local\n");
}

#[test]
fn hosts_full_match_unchanged() {
    let entry = host_entry(&host("172.16.10.5", "proxy", vec![]));
    let (action, content) = plan_hosts("127.0.0.1 localhost\n172.16.10.5   proxy\n", &entry, true);
    assert_eq!(action, Action::Unchanged);
    assert!(content.is_none());
}

#[test]
fn hosts_partial_match_updated() {
    let entry = host_entry(&host("172.16.10.5", "proxy", vec![]));
    let (action, content) = plan_hosts("# hosts\r\n172.16.10.5 old\n::1 localhost\n", &entry, true);
    assert_eq!(action, Action::Changed);
    assert_eq!(content.unwrap(), "# hosts\n172.16.10.5\tproxy\n::1 localhost\n");
}

#[test]
fn hosts_entry_deleted() {
    let entry = host_entry(&host("172.16.10.5", "proxy", vec![]));
    let (action, content) = plan_hosts("127.0.0.1 localhost\n172.16.10.5 proxy\n", &entry, false);
    assert_eq!(action, Action::Deleted);
    assert_eq!(content.unwrap(), "127.0.0.1 localhost\n");
    let (action, content) = plan_hosts("127.0.0.1 localhost\n", &entry, false);
    assert_eq!(action, Action::Unchanged);
    assert!(content.is_none());
}

#[test]
fn hosts_empty_file_gets_newline_first() {
    let entry = host_entry(&host("10.0.0.1", "a", vec![]));
    let (_, content) = plan_hosts("", &entry, true);
    assert_eq!(content.unwrap(), "\n10.0.0.1\ta\n");
}

const PASSWD: &str = "root:x:0:0:root:/root:/bin/bash\nalice:x:1000:1000:Alice A:/home/alice:/bin/zsh\nbob:x:1001:1001::/home/bob:/bin/sh\n";

#[test]
fn passwd_finds_account() {
    let fields = find_account(PASSWD, "alice").unwrap();
    let (comment, home, shell) = passwd_entry(&fields).unwrap().unwrap();
    assert_eq!(comment.unwrap(), "Alice A");
    assert_eq!(home.as_str(), "/home/alice");
    assert_eq!(shell.as_str(), "/bin/zsh");
    let fields = find_account(PASSWD, "bob").unwrap();
    let (comment, _, _) = passwd_entry(&fields).unwrap().unwrap();
    assert!(comment.is_none());
    assert!(find_account(PASSWD, "carol").is_none());
    assert!(find_account(PASSWD, "ali").is_none());
}

#[test]
fn passwd_bad_home() {
    let fields = find_account("eve:x:1:1::home:/bin/sh\n", "eve").unwrap();
    assert_eq!(passwd_entry(&fields).err().unwrap(), "path must be absolute, got `home`");
    let fields = find_account("eve:x:1:1\n", "eve").unwrap();
    assert!(passwd_entry(&fields).unwrap().is_none());
}

#[test]
fn shadow_reads_password_and_expiry() {
    let shadow = "alice:$6$salt$hash:19000:0:99999:7::20000:\nbob:!:19000:0:99999:7:::\n";
    let fields = find_account(shadow, "alice").unwrap();
    let (password, expiry) = shadow_entry(&fields).unwrap().unwrap();
    assert!(matches!(password, Password::Unlocked(_)));
    assert_eq!(expiry.unwrap(), "20000");
    let fields = find_account(shadow, "bob").unwrap();
    let (password, expiry) = shadow_entry(&fields).unwrap().unwrap();
    assert!(matches!(password, Password::Locked));
    assert!(expiry.is_none());
    let fields = find_account("mallory:plain:1\n", "mallory").unwrap();
    assert_eq!(shadow_entry(&fields).err().unwrap(), "password string is not a valid hash");
}

#[test]
fn groups_primary_first_rest_sorted() {
    let (group, groups) = account_groups("alice wheel adm\n");
    assert_eq!(group, "alice");
    assert_eq!(groups, vec!["adm", "wheel"]);
}

fn desired(groups: Vec<&str>, password: Password) -> UserParameters {
    UserParameters {
        ensure: Ensure::Present,
        name: Username::from_str("alice").unwrap(),
        system: false,
        comment: Some("Alice".to_string()),
        shell: Some(SafePathBuf::from_str("/bin/zsh").unwrap()),
        home: SafePathBuf::from_str("/home/alice").unwrap(),
        password,
        expiry_date: None,
        group: Groupname::from_str("alice").unwrap(),
        groups: groups.into_iter().map(|g| Groupname::from_str(g).unwrap()).collect(),
    }
}

fn current(groups: Vec<&str>, password: Password) -> CurrentUser {
    CurrentUser {
        comment: Some("Alice".to_string()),
        shell: SafePathBuf::from_str("/bin/zsh").unwrap(),
        home: SafePathBuf::from_str("/home/alice/").unwrap(),
        password,
        expiry_date: None,
        group: "alice".to_string(),
        groups: groups.into_iter().map(|g| g.to_string()).collect(),
    }
}

#[test]
fn user_update_nothing_to_do() {
    let u = user_update(&current(vec!["adm"], Password::Locked), &desired(vec!["adm"], Password::Locked));
    assert!(u.usermod.is_empty());
    assert!(u.password.is_none());
}

#[test]
fn user_update_groups_and_password() {
    let cur = current(vec!["adm"], Password::Locked);
    let des = desired(vec!["adm", "wheel"], Password::from_str("$6$salt$hash").unwrap());
    let u = user_update(&cur, &des);
    assert_eq!(u.usermod.len(), 2);
    match &u.usermod[0] {
        UsermodArg::Groups(g) => assert_eq!(g, "adm,wheel"),
        _ => panic!("expected groups"),
    }
    assert!(matches!(u.usermod[1], UsermodArg::Unlock));
    assert_eq!(u.password.unwrap(), "$6$salt$hash");
}

#[test]
fn user_update_lock_and_comment() {
    let mut cur = current(vec![], Password::from_str("$6$salt$hash").unwrap());
    cur.comment = None;
    cur.expiry_date = Some((2030, 1, 1));
    let des = desired(vec![], Password::Locked);
    let u = user_update(&cur, &des);
    assert_eq!(u.usermod.len(), 3);
    match &u.usermod[0] {
        UsermodArg::Comment(Some(c)) => assert_eq!(c, "Alice"),
        _ => panic!("expected a comment"),
    }
    assert!(matches!(u.usermod[1], UsermodArg::ExpireDate(None)));
    assert!(matches!(u.usermod[2], UsermodArg::Lock));
}

use pullconf::agent::commands::{
    groupadd_args, install_args, installed_version, package_step, remove_args, useradd_args, PackageStep,
};
use pullconf::agent::files::{content_differs, etag_of, mode_bits, mode_differs, replace_placeholders};
use pullconf::agent::nodes::{purge_entries, NodeKind};
use pullconf::common::resources::apt::package::{
    Ensure as PackageEnsure, Name as PackageName, Parameters as PackageParameters, Version as PackageVersion,
};
use pullconf::common::resources::directory::ChildNode;
use pullconf::common::resources::execute::Parameters as ExecuteParameters;
use pullconf::common::resources::file::Mode;
use pullconf::common::TriggerMetadata;

#[test]
fn useradd_arguments() {
    let mut p = desired(vec!["adm", "wheel"], Password::from_str("$6$salt$hash").unwrap());
    p.system = true;
    let args = useradd_args(&p, false);
    assert_eq!(
        args,
        vec![
            "--create-home", "--home-dir", "/home/alice", "--system", "--comment", "Alice", "--shell", "/bin/zsh",
            "--password", "$6$salt$hash", "--user-group", "--groups", "adm,wheel", "alice",
        ]
    );
    let args = useradd_args(&desired(vec![], Password::Locked), true);
    assert_eq!(
        args,
        vec![
            "--create-home", "--home-dir", "/home/alice", "--comment", "Alice", "--shell", "/bin/zsh",
            "--no-user-group", "--gid", "alice", "alice",
        ]
    );
}

#[test]
fn groupadd_arguments() {
    let p = GroupParameters { ensure: Ensure::Present, name: Groupname::from_str("staff").unwrap(), system: true };
    assert_eq!(groupadd_args(&p), vec!["--system", "staff"]);
}

fn package(ensure: PackageEnsure, version: Option<&str>) -> PackageParameters {
    PackageParameters {
        ensure,
        name: PackageName::from_str("nginx").unwrap(),
        version: version.map(|v| PackageVersion::from_str(v).unwrap()),
    }
}

#[test]
fn package_steps() {
    let installed = Some(PackageVersion::from_str("1.0-1").unwrap());
    assert!(matches!(package_step(&installed, &package(PackageEnsure::Present, None)), PackageStep::Unchanged));
    assert!(matches!(
        package_step(&installed, &package(PackageEnsure::Present, Some("1.1-1"))),
        PackageStep::Install(Action::Changed)
    ));
    assert!(matches!(package_step(&installed, &package(PackageEnsure::Purged, None)), PackageStep::Remove(true)));
    assert!(matches!(package_step(&None, &package(PackageEnsure::Present, None)), PackageStep::Install(Action::Created)));
    assert!(matches!(package_step(&None, &package(PackageEnsure::Absent, None)), PackageStep::Unchanged));
}

#[test]
fn apt_get_arguments() {
    assert_eq!(install_args(&package(PackageEnsure::Present, Some("1.1-1"))), vec!["install", "nginx=1.1-1", "--quiet", "--quiet", "--yes"]);
    assert_eq!(remove_args(&package(PackageEnsure::Purged, None), true), vec!["remove", "--purge", "--quiet", "--quiet", "--yes", "nginx"]);
}

#[test]
fn dpkg_query_output() {
    assert!(installed_version("''", true).unwrap().is_none());
    assert!(installed_version("'1.0-1'", false).unwrap().is_none());
    assert_eq!(installed_version("'1.0-1'", true).unwrap().unwrap().as_str(), "1.0-1");
    assert!(installed_version("'1:0.0.*-1f'", true)
        .err()
        .unwrap()
        .starts_with("failed to parse output from `dpkg-query` as package version: "));
}

#[test]
fn file_mode_bits() {
    assert_eq!(mode_bits(&Mode::default()).unwrap(), 0o644);
    assert_eq!(mode_bits(&Mode::from_str("1755").unwrap()).unwrap(), 0o1755);
    assert!(!mode_differs(0o100644, 0o644));
    assert!(mode_differs(0o100600, 0o644));
}

#[test]
fn file_content_digest() {
    let e = etag_of("secret".as_bytes());
    assert_eq!(etag_of(&[0xff, 0xfe]).len(), 64);
    assert_eq!(e, "2bb80d537b1da3e38bd30361aa855686bde0eacd7162fef6a25fe97bf527a25b");
    assert!(!content_differs("secret", &e));
    assert!(content_differs("other", &e));
}

#[test]
fn file_placeholders() {
    let pairs = vec![("@HOST@".to_string(), "web01".to_string()), ("@N@".to_string(), "2".to_string())];
    assert_eq!(replace_placeholders("a @HOST@ b @HOST@ @N@", &pairs), "a web01 b web01 2");
    let pairs = vec![("".to_string(), "-".to_string())];
    assert_eq!(replace_placeholders("ab", &pairs), "-a-b-");
}

#[test]
fn directory_purge() {
    let children = vec![
        ChildNode::File { path: SafePathBuf::from_str("/srv/www/index.html").unwrap() },
        ChildNode::Directory { path: SafePathBuf::from_str("/srv/www/img").unwrap() },
    ];
    let entries = vec![
        ("/srv/www/index.html".to_string(), NodeKind::File),
        ("/srv/www/img".to_string(), NodeKind::Dir),
        ("/srv/www/old.html".to_string(), NodeKind::File),
        ("/srv/www/img".to_string(), NodeKind::Symlink),
        ("/srv/www/fifo".to_string(), NodeKind::Other),
    ];
    assert_eq!(purge_entries(true, &children, &entries), vec![2, 3]);
    assert!(purge_entries(false, &children, &entries).is_empty());
    assert!(purge_entries(true, &vec![], &entries).is_empty());
}

fn command(id: &str, passive: bool, after: Vec<&str>) -> Resource {
    Resource::Execute(Managed {
        metadata: meta(ResourceType::Execute, id),
        parameters: ExecuteParameters {
            ensure: Ensure::Present,
            name: "reload".to_string(),
            command: vec!["true".to_string()],
            unless: vec![],
            environment: vec![],
            passive,
        },
        relationships: Relationships {
            requires: after.iter().map(|i| meta(ResourceType::Group, i)).collect(),
            after: after.iter().map(|i| meta(ResourceType::Group, i)).collect(),
            triggers: Vec::new(),
        },
        result: ResourceResult::default(),
    })
}

fn triggering(id: &str, target: &str, actions: Vec<Action>) -> Resource {
    let mut r = group(id, "agroup", Ensure::Present, vec![], vec![]);
    if let Resource::Group(g) = &mut r {
        g.relationships.triggers.push(TriggerMetadata { metadata: meta(ResourceType::Execute, target), actions });
    }
    r
}

#[test]
fn passive_command_runs_when_triggered() {
    let mut run = Run::new(vec![triggering("a", "x", vec![Action::Changed]), command("x", true, vec!["a"])]);
    assert!(run.next());
    run.finish(Action::Changed, None, 0);
    assert!(run.next());
    assert!(run.decide().is_none());
    let mut run = Run::new(vec![triggering("a", "x", vec![Action::Changed]), command("x", true, vec!["a"])]);
    assert!(run.next());
    run.finish(Action::Unchanged, None, 0);
    assert!(run.next());
    let (action, message) = run.decide().unwrap();
    assert_eq!(action, Action::Unchanged);
    assert!(message.is_none());
}

#[test]
fn expiry_days_since_epoch() {
    assert_eq!(expiry_from_days("0").unwrap(), (1970, 1, 1));
    assert_eq!(expiry_from_days("19000").unwrap(), (2022, 1, 8));
    assert_eq!(expiry_from_days("-1").unwrap(), (1969, 12, 31));
    assert_eq!(expiry_from_days("x").err().unwrap(), "failed to parse expiry date: invalid digit found in string");
    assert_eq!(expiry_from_days("").err().unwrap(), "failed to parse expiry date: cannot parse integer from empty string");
    assert_eq!(expiry_from_days("99999999999").err().unwrap(), "expiry date out of range");
}

#[test]
fn failed_dependency_skips_before_absent_fails() {
    let resources = vec![
        group("x", "xgroup", Ensure::Absent, vec![], vec![]),
        group("a", "agroup", Ensure::Present, vec![], vec![]),
        group("c", "cgroup", Ensure::Present, vec!["x", "a"], vec!["x", "a"]),
    ];
    let mut run = Run::new(resources);
    assert!(run.next());
    run.finish(Action::Deleted, None, 0);
    assert!(run.next());
    run.finish(Action::Failed, Some("boom".to_string()), 0);
    assert!(run.next());
    let (action, message) = run.decide().unwrap();
    assert_eq!(action, Action::Skipped);
    assert_eq!(message.unwrap(), "skipping resource as dependency `group[agroup]` has failed to apply");
    run.finish(action, None, 0);
    let report = run.report(1, 2, 3);
    let orders: Vec<usize> = report.resources.iter().map(|r| r.order()).collect();
    assert_eq!(orders, vec![0, 1, 2]);
    assert_eq!(report.resources[2].action(), Action::Skipped);
}

#[test]
fn expiry_dates_at_the_edges() {
    assert_eq!(expiry_from_days("-1").unwrap(), (1969, 12, 31));
    assert_eq!(expiry_from_days("59").unwrap(), (1970, 3, 1));
    assert_eq!(expiry_from_days("2932896").unwrap(), (9999, 12, 31));
    assert_eq!(expiry_from_days("2932897").err().unwrap(), "expiry date out of range");
    assert_eq!(expiry_from_days("-4371587").unwrap(), (-9999, 1, 1));
    assert_eq!(expiry_from_days("-4371588").err().unwrap(), "expiry date out of range");
}
