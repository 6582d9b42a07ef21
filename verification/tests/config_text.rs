use pullconf::server::client::Client;
use pullconf::server::config::read_config_text;
use pullconf::server::resources::Resource;

const TEXT: &str = "type: group
name: base
resources:
  - type: directory
    parameters:
      path: /srv
---
type: client
name: web01.local
api_key: 20b5094257d70c8d126cf278510b6443d5139e86e18be1389b90a28d526c8236
groups:
  - base
variables:
  root: /srv
resources:
  - type: file
    parameters:
      path: /srv/index.html
";

#[test]
fn config_text_reads_each_document() {
    let mut clients = Vec::new();
    let mut groups = Vec::new();
    read_config_text("conf.yaml", TEXT, &mut clients, &mut groups).unwrap();
    assert_eq!(groups.len(), 1);
    assert_eq!(groups[0].name.as_str(), "base");
    assert_eq!(groups[0].resources.len(), 1);
    assert_eq!(clients.len(), 1);
    assert_eq!(clients[0].name.as_str(), "web01.local");
    assert_eq!(clients[0].resources.len(), 1);
}

#[test]
fn config_text_duplicate_group_in_second_document() {
    let text = "type: group\nname: base\nresources:\n  - type: group\n    parameters:\n      name: staff\n---\ntype: group\nname: base\nresources:\n  - type: group\n    parameters:\n      name: staff\n";
    let mut clients = Vec::new();
    let mut groups = Vec::new();
    let e = read_config_text("conf.yaml", text, &mut clients, &mut groups).err().unwrap();
    assert_eq!(e, "`conf.yaml`>`documents[1]`: encountered duplicate group `base`");
    assert_eq!(groups.len(), 1);
}

#[test]
fn config_text_refuses_text_that_is_no_yaml() {
    let mut clients = Vec::new();
    let mut groups = Vec::new();
    let e = read_config_text("conf.yaml", "key: \"unclosed", &mut clients, &mut groups).err().unwrap();
    assert!(e.starts_with("`conf.yaml`: "));
    assert!(e.len() > "`conf.yaml`: ".len());
    assert!(clients.is_empty() && groups.is_empty());
}

#[test]
fn config_text_explicit_requirement_is_recorded() {
    let text = "type: client
name: web01.local
api_key: 20b5094257d70c8d126cf278510b6443d5139e86e18be1389b90a28d526c8236
resources:
  - type: group
    parameters:
      name: staff
  - type: file
    requires:
      - type: group
        name: staff
    parameters:
      path: /etc/motd
";
    let mut clients = Vec::new();
    let mut groups = Vec::new();
    read_config_text("conf.yaml", text, &mut clients, &mut groups).unwrap();
    assert_eq!(clients[0].resources[1].requires.len(), 1);
    let mut groups: Vec<_> = groups.into_iter().map(|g| (g, 0)).collect();
    let c = Client::try_from(clients.remove(0), &mut groups).unwrap();
    // Turned by one: the file first, then the group.
    let group_id = c.resources[1].id().to_string();
    match &c.resources[0] {
        Resource::File(f) => {
            assert_eq!(f.relationships.requires.len(), 1);
            assert_eq!(f.relationships.requires[0].id, group_id);
            assert_eq!(f.relationships.after.len(), 1);
            assert_eq!(f.relationships.after[0].id, group_id);
        }
        _ => panic!("expected a file"),
    }
}

#[test]
fn config_text_file_id_is_hyphenated_uuid() {
    let text = "type: client
name: web01.local
api_key: 20b5094257d70c8d126cf278510b6443d5139e86e18be1389b90a28d526c8236
resources:
  - type: file
    parameters:
      path: /etc/motd
";
    let mut clients = Vec::new();
    let mut groups = Vec::new();
    read_config_text("conf.yaml", text, &mut clients, &mut groups).unwrap();
    let mut groups: Vec<_> = groups.into_iter().map(|g| (g, 0)).collect();
    let c = Client::try_from(clients.remove(0), &mut groups).unwrap();
    let id = c.resources[0].id().to_string();
    assert_eq!(id.len(), 36);
    for (i, ch) in id.chars().enumerate() {
        if i == 8 || i == 13 || i == 18 || i == 23 {
            assert_eq!(ch, '-');
        } else {
            assert!(ch.is_ascii_digit() || ('a'..='f').contains(&ch));
        }
    }
}
