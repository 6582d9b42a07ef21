use pullconf::common::Ensure;
use pullconf::common::name::Hostname;
use pullconf::server::api_key::ApiKey;
use pullconf::server::composite::resolve_environment;
use pullconf::server::graph::Predecessors;
use pullconf::server::source::Source;
use pullconf::server::typed::{resolve_bool, resolve_ensure, resolve_hostnames, resolve_path, resolve_text};
use pullconf::server::unresolved::UnresolvedNode;
use pullconf::server::yaml::Node;

fn s(t: &str) -> Node {
    Node::String(t.to_string())
}

fn vars() -> Vec<(String, Node)> {
    vec![
        ("hostname".to_string(), s("web01")),
        ("domain".to_string(), s("example.org")),
        ("fqdn".to_string(), s("${pullconf::hostname}.${pullconf::domain}")),
        ("names".to_string(), Node::Array(vec![s("a.example.org"), s("b.example.org")])),
        ("loop".to_string(), s("${pullconf::loop}")),
    ]
}

fn src() -> Source {
    Source::new("c.yaml", "documents[0].x")
}

#[test]
fn text_substitutes_nested_variables() {
    let r = resolve_text(&src(), &s("host ${pullconf::fqdn}!"), &vars()).unwrap();
    assert_eq!(r, "host web01.example.org!");
}

#[test]
fn text_unknown_variable() {
    let r = resolve_text(&src(), &s("${pullconf::nope}"), &vars());
    assert_eq!(r.err().unwrap(), "`c.yaml`>`documents[0].x`: reference to unknown variable `nope`");
}

#[test]
fn text_missing_brace() {
    let r = resolve_text(&src(), &s("${pullconf::nope"), &vars());
    assert_eq!(r.err().unwrap(), "`c.yaml`>`documents[0].x`: failed to find closing brace for variable");
}

#[test]
fn text_recursion_limit() {
    let r = resolve_text(&src(), &s("${pullconf::loop}"), &vars());
    assert_eq!(r.err().unwrap(), "`c.yaml`>`documents[0].x`: recursion limit reached while resolving variable `loop`");
}

#[test]
fn text_of_array_refused() {
    let r = resolve_text(&src(), &Node::Array(vec![]), &vars());
    assert_eq!(r.err().unwrap(), "`c.yaml`>`documents[0].x`: node must be a string");
}

#[test]
fn ensure_values() {
    assert!(matches!(resolve_ensure(&src(), &s("absent"), &vars()), Ok(Ensure::Absent)));
    assert_eq!(
        resolve_ensure(&src(), &s("gone"), &vars()).err().unwrap(),
        "`c.yaml`>`documents[0].x`: invalid `ensure` value: gone"
    );
}

#[test]
fn bool_values() {
    assert!(resolve_bool(&src(), &s("true"), &vars()).unwrap());
    assert_eq!(
        resolve_bool(&src(), &s("yes"), &vars()).err().unwrap(),
        "`c.yaml`>`documents[0].x`: provided string was not `true` or `false`"
    );
}

#[test]
fn path_values() {
    assert_eq!(resolve_path(&src(), &s("/srv/${pullconf::hostname}"), &vars()).unwrap().as_str(), "/srv/web01");
    assert_eq!(
        resolve_path(&src(), &s("srv"), &vars()).err().unwrap(),
        "`c.yaml`>`documents[0].x`: path must be absolute, got `srv`"
    );
}

#[test]
fn list_through_variable() {
    let v = resolve_hostnames(&src(), &s("${pullconf::names}"), &vars()).unwrap();
    let names: Vec<&str> = v.iter().map(|h| h.as_str()).collect();
    assert_eq!(names, vec!["a.example.org", "b.example.org"]);
    let e = resolve_hostnames(&src(), &Node::Array(vec![s("ok"), s("-bad")]), &vars());
    assert_eq!(e.err().unwrap(), "`c.yaml`>`documents[0].x[1]`: hostname cannot start with a hyphen");
    let e = resolve_hostnames(&src(), &s("plain"), &vars());
    assert_eq!(e.err().unwrap(), "`c.yaml`>`documents[0].x`: node must be an array");
}

#[test]
fn environment_hash() {
    let node = Node::Hash(vec![(s("name"), s("LANG")), (s("value"), s("C"))]);
    let e = resolve_environment(&src(), &node, &vars()).unwrap();
    assert_eq!(e.name, "LANG");
    assert_eq!(e.value.unwrap(), "C");
    let node = Node::Hash(vec![(s("value"), s("C"))]);
    assert_eq!(
        resolve_environment(&src(), &node, &vars()).err().unwrap(),
        "`c.yaml`>`documents[0].x`: failed to find required key `name`"
    );
    let node = Node::Hash(vec![(s("name"), s("A")), (s("other"), s("C"))]);
    assert_eq!(
        resolve_environment(&src(), &node, &vars()).err().unwrap(),
        "`c.yaml`>`documents[0].x`: encountered unexpected key `other`"
    );
}

#[test]
fn unresolved_node_variable() {
    let n = UnresolvedNode { source: src(), inner: s("${pullconf::fqdn}") };
    let v = vars();
    // A whole reference is followed into the value, which is read as a
    // reference itself when it starts like one.
    assert_eq!(
        n.maybe_variable(0, &v).err().unwrap(),
        "`c.yaml`>`documents[0].x`: reference to unknown variable `hostname}.${pullconf::domain`"
    );
    let n = UnresolvedNode { source: src(), inner: s("${pullconf::domain}") };
    let r = n.maybe_variable(0, &v).unwrap().unwrap();
    assert!(matches!(r, Node::String(t) if t == "example.org"));
    let n = UnresolvedNode { source: src(), inner: s("plain") };
    assert!(n.maybe_variable(0, &v).unwrap().is_none());
}

#[test]
fn api_key_digest() {
    let k = ApiKey::encrypt("secret");
    assert_eq!(k.as_str(), "2bb80d537b1da3e38bd30361aa855686bde0eacd7162fef6a25fe97bf527a25b");
    assert!(ApiKey::from_str(k.as_str()).is_ok());
    assert!(ApiKey::from_str(&"g".repeat(64)).is_err());
    assert!(ApiKey::from_str(&"F".repeat(64)).is_err());
    assert!(ApiKey::from_str(&"f".repeat(64)).is_ok());
}

#[test]
fn hostname_leading_hyphen() {
    assert_eq!(Hostname::from_str("-web").err().unwrap(), "hostname cannot start with a hyphen");
    assert!(Hostname::from_str("web-1.example.org").is_ok());
    assert!(Hostname::from_str("_web").is_err());
}

#[test]
fn predecessors_loop_detection() {
    let mut p = Predecessors::new();
    assert!(p.insert("a", "b"));
    assert!(p.insert("b", "c"));
    assert!(!p.insert("a", "b"));
    assert!(p.relationship_introduces_loop("a", "c"));
    assert!(!p.relationship_introduces_loop("c", "a"));
}
