use pullconf::server::client::Client;
use pullconf::server::config::{read_document, Group, UnresolvedClient};
use pullconf::server::resources::Resource;
use pullconf::server::source::Source;
use pullconf::server::yaml::Node;

fn s(t: &str) -> Node {
    Node::String(t.to_string())
}

fn h(entries: Vec<(&str, Node)>) -> Node {
    Node::Hash(entries.into_iter().map(|(k, v)| (s(k), v)).collect())
}

fn a(items: Vec<Node>) -> Node {
    Node::Array(items)
}

const KEY: &str = "20b5094257d70c8d126cf278510b6443d5139e86e18be1389b90a28d526c8236";
const OTHER_KEY: &str = "30b5094257d70c8d126cf278510b6443d5139e86e18be1389b90a28d526c8236";

fn read(nodes: Vec<Node>) -> Result<(Vec<UnresolvedClient>, Vec<Group>), String> {
    let mut clients = Vec::new();
    let mut groups = Vec::new();
    for (i, node) in nodes.into_iter().enumerate() {
        let source = Source::new("conf.yaml", "documents").add_index(i);
        read_document(&source, node, &mut clients, &mut groups)?;
    }
    Ok((clients, groups))
}

fn client_doc(name: &str, groups: Vec<&str>, variables: Vec<(&str, Node)>, resources: Vec<Node>) -> Node {
    h(vec![
        ("type", s("client")),
        ("name", s(name)),
        ("api_key", s(KEY)),
        ("groups", a(groups.into_iter().map(s).collect())),
        ("variables", h(variables)),
        ("resources", a(resources)),
    ])
}

fn group_doc(name: &str, resources: Vec<Node>) -> Node {
    h(vec![("type", s("group")), ("name", s(name)), ("resources", a(resources))])
}

fn build(nodes: Vec<Node>) -> (Result<Client, String>, Vec<(Group, usize)>) {
    let (mut clients, groups) = read(nodes).unwrap();
    let mut groups: Vec<(Group, usize)> = groups.into_iter().map(|g| (g, 0)).collect();
    let client = clients.remove(0);
    let r = Client::try_from(client, &mut groups);
    (r, groups)
}

fn reprs(c: &Client) -> Vec<String> {
    c.resources.iter().map(|r| r.repr()).collect()
}

#[test]
fn client_with_group_resources() {
    let nodes = vec![
        client_doc(
            "web01.local",
            vec!["base"],
            vec![("root", s("/srv"))],
            vec![
                h(vec![("type", s("directory")), ("parameters", h(vec![("path", s("${pullconf::root}/www"))]))]),
                h(vec![(
                    "type",
                    s("file"),
                ), (
                    "parameters",
                    h(vec![
                        ("path", s("/srv/www/index.html")),
                        ("content", h(vec![("value", s("hello ${pullconf::hostname}"))])),
                    ]),
                )]),
            ],
        ),
        group_doc("base", vec![h(vec![("type", s("group")), ("parameters", h(vec![("name", s("staff"))]))])]),
    ];
    let (r, groups) = build(nodes);
    let c = r.unwrap();
    assert_eq!(c.name.as_str(), "web01.local");
    assert_eq!(c.name().as_str(), "web01.local");
    // Validation leaves the catalog turned by one: the first resource last.
    assert_eq!(reprs(&c), vec!["file[/srv/www/index.html]", "group[staff]", "directory[/srv/www]"]);
    match &c.resources[0] {
        Resource::File(f) => {
            let content = f.parameters.content.as_ref().unwrap();
            assert_eq!(content.value, "hello web01.local");
            assert_eq!(f.parameters.mode.as_str(), "644");
            assert_eq!(f.parameters.owner.as_str(), "root");
        }
        _ => panic!("expected a file"),
    }
    // The file lies in the directory, which it therefore requires.
    match &c.resources[0] {
        Resource::File(f) => {
            assert_eq!(f.relationships.requires.len(), 1);
            assert_eq!(f.relationships.requires[0].id, c.resources[2].id().to_string());
            assert_eq!(f.relationships.after.len(), 1);
            assert_eq!(f.relationships.after[0].id, c.resources[2].id().to_string());
        }
        _ => panic!("expected a file"),
    }
    match &c.resources[2] {
        Resource::Directory(d) => {
            assert_eq!(d.relationships.children.len(), 1);
            assert!(d.relationships.requires.is_empty());
        }
        _ => panic!("expected a directory"),
    }
    assert_eq!(groups[0].1, 1);
    assert!(c.temporary.requires.is_empty());
}

#[test]
fn client_unknown_group() {
    let nodes = vec![client_doc("web01.local", vec!["nope"], vec![], vec![])];
    let (r, _) = build(nodes);
    assert_eq!(r.err().unwrap(), "`client[web01.local]`>reference to unknown group `nope`");
}

#[test]
fn client_unknown_variable() {
    let nodes = vec![client_doc(
        "web01.local",
        vec![],
        vec![],
        vec![h(vec![("type", s("directory")), ("parameters", h(vec![("path", s("${pullconf::nope}"))]))])],
    )];
    let (r, _) = build(nodes);
    assert_eq!(
        r.err().unwrap(),
        "`web01.local`>`conf.yaml`>`documents[0].resources[0].parameters.path`: reference to unknown variable `nope`"
    );
}

#[test]
fn client_resource_of_own_takes_precedence() {
    let nodes = vec![
        client_doc(
            "web01.local",
            vec!["base"],
            vec![],
            vec![h(vec![("type", s("group")), ("parameters", h(vec![("name", s("staff")), ("system", s("true"))]))])],
        ),
        group_doc("base", vec![h(vec![("type", s("group")), ("parameters", h(vec![("name", s("staff"))]))])]),
    ];
    let (r, _) = build(nodes);
    let c = r.unwrap();
    assert_eq!(reprs(&c), vec!["group[staff]"]);
    match &c.resources[0] {
        Resource::Group(g) => assert!(g.parameters.system),
        _ => panic!("expected a group"),
    }
}

#[test]
fn client_duplicate_from_two_groups() {
    let group = |name: &str| group_doc(name, vec![h(vec![("type", s("group")), ("parameters", h(vec![("name", s("staff"))]))])]);
    let nodes = vec![client_doc("web01.local", vec!["one", "two"], vec![], vec![]), group("one"), group("two")];
    let (r, _) = build(nodes);
    assert_eq!(r.err().unwrap(), "`client[web01.local]`>duplicate resource `group[staff]` defined in group `one`");
}

#[test]
fn client_hostname_variable() {
    let nodes = vec![client_doc(
        "web01.local",
        vec![],
        vec![("hostname", s("ignored"))],
        vec![h(vec![(
            "type",
            s("host"),
        ), (
            "parameters",
            h(vec![("ip_address", s("172.16.5.6")), ("hostname", s("${pullconf::hostname}"))]),
        )])],
    )];
    let (r, _) = build(nodes);
    let c = r.unwrap();
    match &c.resources[0] {
        Resource::Host(x) => {
            assert_eq!(x.parameters.hostname.as_str(), "web01.local");
            assert_eq!(x.parameters.target, "/etc/hosts");
        }
        _ => panic!("expected a host"),
    }
    assert_eq!(reprs(&c), vec!["host[172.16.5.6]"]);
}

#[test]
fn client_too_many_aliases() {
    let aliases = a(vec![s("a"), s("b"), s("c"), s("d"), s("e")]);
    let nodes = vec![client_doc(
        "web01.local",
        vec![],
        vec![],
        vec![h(vec![(
            "type",
            s("host"),
        ), (
            "parameters",
            h(vec![("ip_address", s("10.0.0.1")), ("hostname", s("proxy")), ("aliases", aliases)]),
        )])],
    )];
    let (r, _) = build(nodes);
    assert_eq!(r.err().unwrap(), "`web01.local`>host `10.0.0.1` has 5 `aliases`, cannot be more than four");
}

#[test]
fn client_file_content_and_source_exclusive() {
    let nodes = vec![client_doc(
        "web01.local",
        vec![],
        vec![],
        vec![h(vec![(
            "type",
            s("file"),
        ), (
            "parameters",
            h(vec![
                ("path", s("/etc/motd")),
                ("content", h(vec![("value", s("hi"))])),
                ("source", s("/motd")),
            ]),
        )])],
    )];
    let (r, _) = build(nodes);
    assert_eq!(
        r.err().unwrap(),
        "`web01.local`>parameters `content` and `source` are mutually exclusive and cannot be defined both at the same time"
    );
}

#[test]
fn client_user_defaults_and_sorted_groups() {
    let nodes = vec![client_doc(
        "web01.local",
        vec![],
        vec![],
        vec![h(vec![(
            "type",
            s("user"),
        ), (
            "parameters",
            h(vec![("name", s("alice")), ("groups", a(vec![s("wheel"), s("adm"), s("sudo")]))]),
        )])],
    )];
    let (r, _) = build(nodes);
    let c = r.unwrap();
    match &c.resources[0] {
        Resource::User(u) => {
            assert_eq!(u.parameters.home.as_str(), "/home/alice");
            assert_eq!(u.parameters.group.as_str(), "alice");
            let groups: Vec<&str> = u.parameters.groups.iter().map(|g| g.as_str()).collect();
            assert_eq!(groups, vec!["adm", "sudo", "wheel"]);
            assert!(!u.parameters.system);
        }
        _ => panic!("expected a user"),
    }
}

#[test]
fn client_user_primary_group_listed() {
    let nodes = vec![client_doc(
        "web01.local",
        vec![],
        vec![],
        vec![h(vec![(
            "type",
            s("user"),
        ), (
            "parameters",
            h(vec![("name", s("alice")), ("groups", a(vec![s("alice")]))]),
        )])],
    )];
    let (r, _) = build(nodes);
    assert_eq!(
        r.err().unwrap(),
        "`web01.local`>primary group `alice` of user `alice` cannot appear in the list of supplementary groups"
    );
}

#[test]
fn client_conflicting_paths_refused() {
    let file = |p: &str| h(vec![("type", s("file")), ("parameters", h(vec![("path", s(p))]))]);
    let nodes = vec![client_doc("web01.local", vec![], vec![], vec![file("/etc/motd"), file("/etc/motd")])];
    let (r, _) = build(nodes);
    assert!(r.err().unwrap().starts_with("`client[web01.local]`>"));
}

#[test]
fn documents_duplicate_client() {
    let nodes = vec![client_doc("web01.local", vec![], vec![], vec![]), client_doc("web01.local", vec![], vec![], vec![])];
    assert_eq!(read(nodes).err().unwrap(), "`conf.yaml`>`documents[1]`: encountered duplicate client `web01.local`");
}

#[test]
fn documents_invalid_api_key() {
    let node = h(vec![
        ("type", s("client")),
        ("name", s("web01.local")),
        ("api_key", s("abc")),
    ]);
    let e = read(vec![node]).err().unwrap();
    assert!(e.contains("API key hash has invalid length"));
    let _ = OTHER_KEY;
}

use pullconf::server::api_key::ApiKey;
use pullconf::server::configuration::{unused_groups, Configuration};
use pullconf::server::handlers::{handle_route, Route};

fn configuration(nodes: Vec<Node>) -> (Result<Configuration, String>, Vec<(Group, usize)>) {
    let (clients, groups) = read(nodes).unwrap();
    let mut groups: Vec<(Group, usize)> = groups.into_iter().map(|g| (g, 0)).collect();
    let r = Configuration::from_clients("/etc/pullconfd/conf.d", clients, &mut groups);
    (r, groups)
}

fn keyed(name: &str, key: &str, resources: Vec<Node>) -> Node {
    h(vec![
        ("type", s("client")),
        ("name", s(name)),
        ("api_key", s(key)),
        ("resources", a(resources)),
    ])
}

#[test]
fn configuration_shared_api_key() {
    let (r, _) = configuration(vec![keyed("a.local", KEY, vec![]), keyed("b.local", KEY, vec![])]);
    assert_eq!(
        r.err().unwrap(),
        "`/etc/pullconfd/conf.d`: API key from client `b.local` matches that from client `a.local`, but API keys must be unique"
    );
}

#[test]
fn configuration_unused_group() {
    let (r, groups) = configuration(vec![keyed("a.local", KEY, vec![]), group_doc("spare", vec![])]);
    let c = r.unwrap();
    assert_eq!(c.clients.len(), 1);
    assert_eq!(c.api_keys[0].1.as_str(), "a.local");
    let unused: Vec<String> = unused_groups(&groups).iter().map(|g| g.as_str().to_string()).collect();
    assert_eq!(unused, vec!["spare"]);
}

#[test]
fn routes_of_requests() {
    let hash = ApiKey::encrypt("secret");
    let file = h(vec![("type", s("file")), ("parameters", h(vec![("path", s("/etc/motd")), ("source", s("/motd"))]))]);
    let (r, _) = configuration(vec![keyed("a.local", hash.as_str(), vec![file]), keyed("b.local", OTHER_KEY, vec![])]);
    let c = r.unwrap();
    assert!(matches!(handle_route(&c.clients, &c.api_keys, "wrong", "/api/clients/a.local/resources", true), Route::Unauthorized));
    assert!(matches!(handle_route(&c.clients, &c.api_keys, "secret", "/api/clients/a.local/resources", true), Route::Catalog(0)));
    assert!(matches!(handle_route(&c.clients, &c.api_keys, "secret", "/api/clients/b.local/resources", true), Route::Forbidden));
    assert!(matches!(handle_route(&c.clients, &c.api_keys, "secret", "/api/clients/a.local/resources", false), Route::NotFound));
    assert!(matches!(handle_route(&c.clients, &c.api_keys, "secret", "/api/clients/_x/resources", true), Route::NotFound));
    match handle_route(&c.clients, &c.api_keys, "secret", "/assets/motd", true) {
        Route::Asset(p) => assert_eq!(p, "/motd"),
        _ => panic!("expected an asset"),
    }
    assert!(matches!(handle_route(&c.clients, &c.api_keys, "secret", "/assets/other", true), Route::Forbidden));
}

#[test]
fn empty_client_builds() {
    let (r, groups) = build(vec![client_doc("web01.local", vec![], vec![], vec![])]);
    let c = r.unwrap();
    assert!(c.resources.is_empty());
    assert!(groups.is_empty());
}

#[test]
fn configuration_of_empty_clients() {
    let (r, _) = configuration(vec![keyed("a.local", KEY, vec![]), keyed("b.local", OTHER_KEY, vec![])]);
    let c = r.unwrap();
    assert_eq!(c.clients.len(), 2);
    assert_eq!(c.api_keys.len(), 2);
}
