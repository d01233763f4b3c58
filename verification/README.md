# defguard_core

Access control for VPN locations, as a verified library.

An access control rule says which users, groups and network devices may reach which addresses,
ports and protocols, and in which locations. The library collects what the records tie to each
rule, works out the addresses that its traffic may come from, and writes the firewall of a
location as messages for a gateway. It also holds the authentication keys of users, and the steps
that are taken with an LDAP server.

## Layout

- `src/ranges.rs`, `src/subnets.rs`: sets of numbers as maximal runs, and as largest subnets.
- `src/ip.rs`, `src/text.rs`: addresses and networks, and how they are written.
- `src/ports.rs`, `src/protocols.rs`, `src/addresses.rs`: merging of ports, protocols and addresses.
- `src/acl.rs`: rules and the records that belong to them.
- `src/sources.rs`, `src/targets.rs`: where the traffic of a rule comes from, and where it goes.
- `src/proto.rs`, `src/firewall.rs`: the messages, and the firewall of a location.
- `src/authentication_key.rs`: keys of users, and the search for them.
- `src/ldap.rs`: tasks that are run against an LDAP server, reply by reply.
- `app/`: the database, the LDAP connection and the clock.

IPv6 text comes from outside, through `src/text.rs`: the standard library writes an address, and
the `ipnetwork` crate a network. Everything else in `src/` is proved.
