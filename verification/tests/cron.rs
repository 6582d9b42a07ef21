use pullconf::agent::cron::job_content;
use pullconf::common::resources::cron::job::{Environment, Name, Parameters};
use pullconf::common::resources::user::Name as Username;
use pullconf::common::Ensure;

fn job(environment: Vec<Environment>) -> Parameters {
    Parameters {
        ensure: Ensure::Present,
        target: "/etc/cron.d/backup".to_string(),
        name: Name::from_str("backup").unwrap(),
        environment,
        schedule: "0 3 * * *".to_string(),
        user: Username::from_str("root").unwrap(),
        command: "/usr/local/bin/backup --all".to_string(),
    }
}

#[test]
fn cron_job_without_variables() {
    assert_eq!(job_content(&job(Vec::new())), "0 3 * * * root /usr/local/bin/backup --all\n");
}

#[test]
fn cron_job_variables_last_first() {
    let env = vec![
        Environment { name: "MAILTO".to_string(), value: Some("ops@example.org".to_string()) },
        Environment { name: "EMPTY".to_string(), value: Some(String::new()) },
        Environment { name: "UNSET".to_string(), value: None },
    ];
    assert_eq!(
        job_content(&job(env)),
        "UNSET=\nEMPTY=\"\"\nMAILTO=\"ops@example.org\"\n0 3 * * * root /usr/local/bin/backup --all\n"
    );
}
