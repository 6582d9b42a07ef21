# pullconf

A pull-based configuration management system: a server reads StrictYAML
files that describe clients, groups of resources and variables, builds a
validated catalog of resources for each client, and serves it over HTTPS;
an agent on each client fetches its catalog and applies the resources in
dependency order, then reports what it did.

## Layout

- `src/` is the verified library, written in Verus.
  - `common/` holds the types that server and agent share: names, safe
    paths, IP addresses, resource parameters and metadata.
  - `server/` reads the configuration (`yaml`, `config`, `parse`,
    `unresolved`, `typed`), builds resources (`assemble`), validates a
    client's catalog (`client`, `graph`, `catalog`) and answers requests
    (`handlers`).
  - `agent/` decides what applying each resource does: the run order
    (`run`), files, directories, users, groups, hosts, packages and
    commands.
- `tests/` holds the tests, run against the compiled library.
- `app/` is the program around the library: the HTTPS server, the agent's
  client, and the work on the system (files, commands, environment).
