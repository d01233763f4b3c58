use chrono::{DateTime, NaiveDateTime, Utc};
use defguard_core::acl::{
    create_acl_rule, AclAlias, AclRule, AclRuleAlias, AclRuleDestinationRange, AclRuleDevice,
    AclRuleGroup, AclRuleNetwork, AclRuleUser, AclTables, AliasKind, NewRuleRow,
    RuleState,
};
use defguard_core::firewall::WireguardNetwork;
use defguard_core::ip::{IpAddr, IpNetwork, Ipv4Addr, Ipv4Network, Ipv6Addr, Ipv6Network};
use defguard_core::ports::PortRange;
use defguard_core::proto::{
    Address, FirewallPolicy, IpAddress, IpRange, Port, PortInner, PortRangeProto, Protocol,
};
use defguard_core::sources::{
    get_source_network_devices, get_source_users, network_device_with_id, user_with_id, Device,
    DeviceType, Directory, GroupUser, User, WireguardNetworkDevice,
};
use defguard_core::{Id, NoId};
use rand::{thread_rng, Rng};

/// Tables that hand out ids from 1 on.
struct Db {
    tables: AclTables,
    directory: Directory,
    locations: Id,
    groups: Id,
}

impl Db {
    fn new() -> Self {
        Db {
            tables: AclTables {
                rules: Vec::new(),
                aliases: Vec::new(),
                rule_networks: Vec::new(),
                rule_users: Vec::new(),
                rule_groups: Vec::new(),
                rule_devices: Vec::new(),
                rule_destination_ranges: Vec::new(),
                rule_aliases: Vec::new(),
            },
            directory: Directory {
                users: Vec::new(),
                group_users: Vec::new(),
                devices: Vec::new(),
                network_devices: Vec::new(),
            },
            locations: 0,
            groups: 0,
        }
    }

    #[allow(clippy::too_many_arguments)]
    fn create_acl_rule(
        &mut self,
        rule: AclRule<NoId>,
        locations: Vec<Id>,
        allowed_users: Vec<Id>,
        denied_users: Vec<Id>,
        allowed_groups: Vec<Id>,
        denied_groups: Vec<Id>,
        allowed_network_devices: Vec<Id>,
        denied_network_devices: Vec<Id>,
        destination_ranges: Vec<(IpAddr, IpAddr)>,
        aliases: Vec<Id>,
    ) {
        let rule_id = next_id(self.tables.rules.len());
        let created = create_acl_rule(
            rule,
            rule_id,
            locations,
            allowed_users,
            denied_users,
            allowed_groups,
            denied_groups,
            allowed_network_devices,
            denied_network_devices,
            destination_ranges,
            aliases,
        );
        self.tables.rules.push(created.rule.clone());
        for row in created.rows() {
            match row {
                NewRuleRow::Network(row) => row.save(self),
                NewRuleRow::User(AclRuleUser { allow, rule_id, user_id, .. }) => {
                    let id = next_id(self.tables.rule_users.len());
                    self.tables.rule_users.push(AclRuleUser { id, allow, rule_id, user_id });
                }
                NewRuleRow::Group(AclRuleGroup { allow, rule_id, group_id, .. }) => {
                    let id = next_id(self.tables.rule_groups.len());
                    self.tables.rule_groups.push(AclRuleGroup { id, allow, rule_id, group_id });
                }
                NewRuleRow::Device(AclRuleDevice { allow, rule_id, device_id, .. }) => {
                    let id = next_id(self.tables.rule_devices.len());
                    self.tables.rule_devices.push(AclRuleDevice { id, allow, rule_id, device_id });
                }
                NewRuleRow::DestinationRange(range) => {
                    let id = next_id(self.tables.rule_destination_ranges.len());
                    let AclRuleDestinationRange { rule_id, start, end, .. } = range;
                    self.tables
                        .rule_destination_ranges
                        .push(AclRuleDestinationRange { id, rule_id, start, end });
                }
                NewRuleRow::Alias(row) => row.save(self),
            }
        }
    }
}

fn next_id(len: usize) -> Id {
    len as Id + 1
}

trait Save {
    type Saved;

    fn save(self, db: &mut Db) -> Self::Saved;
}

impl Save for WireguardNetwork<NoId> {
    type Saved = WireguardNetwork<Id>;

    fn save(self, db: &mut Db) -> WireguardNetwork<Id> {
        db.locations += 1;
        WireguardNetwork {
            id: db.locations,
            address: self.address,
            acl_enabled: self.acl_enabled,
            acl_default_allow: self.acl_default_allow,
        }
    }
}

impl Save for User<NoId> {
    type Saved = User<Id>;

    fn save(self, db: &mut Db) -> User<Id> {
        let user = User {
            id: next_id(db.directory.users.len()),
            username: self.username,
            details: (),
        };
        db.directory.users.push(user.clone());
        user
    }
}

struct Group<I> {
    id: I,
    name: String,
}

impl Save for Group<NoId> {
    type Saved = Group<Id>;

    fn save(self, db: &mut Db) -> Group<Id> {
        db.groups += 1;
        assert!(!self.name.is_empty());
        Group { id: db.groups, name: self.name }
    }
}

impl Save for Device<NoId> {
    type Saved = Device<Id>;

    fn save(self, db: &mut Db) -> Device<Id> {
        let device = Device {
            id: next_id(db.directory.devices.len()),
            name: self.name,
            user_id: self.user_id,
            device_type: self.device_type,
            details: (),
        };
        db.directory.devices.push(device.clone());
        device
    }
}

impl Save for AclRule<NoId> {
    type Saved = AclRule<Id>;

    fn save(self, db: &mut Db) -> AclRule<Id> {
        let rule = self.with_id(next_id(db.tables.rules.len()));
        db.tables.rules.push(rule.clone());
        rule
    }
}

impl Save for &AclRule<Id> {
    type Saved = ();

    fn save(self, db: &mut Db) {
        for rule in &mut db.tables.rules {
            if rule.id == self.id {
                *rule = self.clone();
            }
        }
    }
}

impl Save for AclAlias<NoId> {
    type Saved = AclAlias<Id>;

    fn save(self, db: &mut Db) -> AclAlias<Id> {
        let alias = AclAlias {
            id: next_id(db.tables.aliases.len()),
            name: self.name,
            kind: self.kind,
            destination: self.destination,
            ports: self.ports,
            protocols: self.protocols,
        };
        db.tables.aliases.push(alias.clone());
        alias
    }
}

impl Save for AclRuleNetwork<NoId> {
    type Saved = ();

    fn save(self, db: &mut Db) {
        let id = next_id(db.tables.rule_networks.len());
        let AclRuleNetwork { rule_id, network_id, .. } = self;
        db.tables.rule_networks.push(AclRuleNetwork { id, rule_id, network_id });
    }
}

impl Save for AclRuleAlias<NoId> {
    type Saved = ();

    fn save(self, db: &mut Db) {
        let id = next_id(db.tables.rule_aliases.len());
        let AclRuleAlias { rule_id, alias_id, .. } = self;
        db.tables.rule_aliases.push(AclRuleAlias { id, rule_id, alias_id });
    }
}

trait Insert {
    fn insert(self, db: &mut Db);
}

impl Insert for WireguardNetworkDevice {
    fn insert(self, db: &mut Db) {
        db.directory.network_devices.push(self);
    }
}

/// A location with IPv4 addresses.
fn location() -> WireguardNetwork<NoId> {
    WireguardNetwork {
        id: NoId,
        address: vec![IpNetwork::new(IpAddr::V4(Ipv4Addr::unspecified()), 0).unwrap()],
        acl_enabled: false,
        acl_default_allow: false,
    }
}

fn rule() -> AclRule<NoId> {
    AclRule {
        id: NoId,
        parent_id: None,
        state: RuleState::Applied,
        name: String::new(),
        allow_all_users: false,
        deny_all_users: false,
        allow_all_network_devices: false,
        deny_all_network_devices: false,
        all_networks: false,
        destination: Vec::new(),
        ports: Vec::new(),
        protocols: Vec::new(),
        enabled: true,
        expires: None,
    }
}

fn alias() -> AclAlias<NoId> {
    AclAlias {
        id: NoId,
        name: String::new(),
        kind: AliasKind::Destination,
        destination: Vec::new(),
        ports: Vec::new(),
        protocols: Vec::new(),
    }
}

fn net(text: &str) -> IpNetwork {
    match text.parse().unwrap() {
        ipnetwork::IpNetwork::V4(parsed) => {
            let addr = Ipv4Addr { bits: parsed.ip().into() };
            IpNetwork::V4(Ipv4Network::new(addr, parsed.prefix()).unwrap())
        }
        ipnetwork::IpNetwork::V6(parsed) => {
            let addr = Ipv6Addr { bits: parsed.ip().into() };
            IpNetwork::V6(Ipv6Network::new(addr, parsed.prefix()).unwrap())
        }
    }
}

fn ip(text: &str) -> IpAddr {
    net(text).ip()
}

fn micros(moment: NaiveDateTime) -> i64 {
    moment.and_utc().timestamp_micros()
}

fn now() -> i64 {
    Utc::now().timestamp_micros()
}

fn random_user<R: Rng>(rng: &mut R) -> User<NoId> {
    User { id: NoId, username: format!("user-{}", rng.gen::<u64>()), details: () }
}

fn random_user_with_id<R: Rng>(rng: &mut R, id: Id) -> User<Id, String> {
    let drawn = User {
        id: rng.gen(),
        username: format!("user-{}", rng.gen::<u64>()),
        details: format!("{}@example.org", rng.gen::<u64>()),
    };
    user_with_id(drawn, id)
}

fn random_network_device_with_id<R: Rng>(rng: &mut R, id: Id) -> Device<Id, String> {
    let drawn = Device {
        id: rng.gen(),
        name: format!("device-{}", rng.gen::<u64>()),
        user_id: rng.gen(),
        device_type: DeviceType::User,
        details: format!("description {}", rng.gen::<u64>()),
    };
    network_device_with_id(drawn, id)
}

#[test]
fn test_get_relevant_users() {
    let mut rng = thread_rng();

    // prepare allowed and denied users lists with shared elements
    let user_1 = random_user_with_id(&mut rng, 1);
    let user_2 = random_user_with_id(&mut rng, 2);
    let user_3 = random_user_with_id(&mut rng, 3);
    let user_4 = random_user_with_id(&mut rng, 4);
    let user_5 = random_user_with_id(&mut rng, 5);
    let allowed_users = vec![user_1.clone(), user_2.clone(), user_4.clone()];
    let denied_users = vec![user_3.clone(), user_4, user_5.clone()];

    let users = get_source_users(allowed_users, &denied_users);
    assert_eq!(users, vec![user_1, user_2]);
}

#[test]
fn test_get_relevant_network_devices() {
    let mut rng = thread_rng();

    // prepare allowed and denied network devices lists with shared elements
    let device_1 = random_network_device_with_id(&mut rng, 1);
    let device_2 = random_network_device_with_id(&mut rng, 2);
    let device_3 = random_network_device_with_id(&mut rng, 3);
    let device_4 = random_network_device_with_id(&mut rng, 4);
    let device_5 = random_network_device_with_id(&mut rng, 5);
    let allowed_devices = vec![
        device_1.clone(),
        device_3.clone(),
        device_4.clone(),
        device_5.clone(),
    ];
    let denied_devices = vec![device_2.clone(), device_4, device_5.clone()];

    let devices = get_source_network_devices(allowed_devices, &denied_devices);
    assert_eq!(devices, vec![device_1, device_3]);
}

#[test]
fn test_generate_firewall_rules_ipv4() {
    let mut db = Db::new();

    let mut rng = thread_rng();

    // Create test location
    let location = WireguardNetwork {
        id: NoId,
        acl_enabled: false,
        ..location()
    };
    let mut location = location.save(&mut db);

    // Setup test users and their devices
    let user_1: User<NoId> = random_user(&mut rng);
    let user_1 = user_1.save(&mut db);
    let user_2: User<NoId> = random_user(&mut rng);
    let user_2 = user_2.save(&mut db);
    let user_3: User<NoId> = random_user(&mut rng);
    let user_3 = user_3.save(&mut db);
    let user_4: User<NoId> = random_user(&mut rng);
    let user_4 = user_4.save(&mut db);
    let user_5: User<NoId> = random_user(&mut rng);
    let user_5 = user_5.save(&mut db);

    for user in [&user_1, &user_2, &user_3, &user_4, &user_5] {
        // Create 2 devices per user
        for device_num in 1..3 {
            let device = Device {
                id: NoId,
                name: format!("device-{}-{}", user.id, device_num),
                user_id: user.id,
                device_type: DeviceType::User,
                details: (),
            };
            let device = device.save(&mut db);

            // Add device to location's VPN network
            let network_device = WireguardNetworkDevice {
                device_id: device.id,
                wireguard_network_id: location.id,
                wireguard_ips: vec![IpAddr::V4(Ipv4Addr::new(
                    10,
                    0,
                    user.id as u8,
                    device_num as u8,
                ))],
            };
            network_device.insert(&mut db);
        }
    }

    // Setup test groups
    let group_1 = Group { id: NoId, name: "group_1".into() };
    let group_1 = group_1.save(&mut db);
    let group_2 = Group { id: NoId, name: "group_2".into() };
    let group_2 = group_2.save(&mut db);

    // Assign users to groups:
    // Group 1: users 1,2
    // Group 2: users 3,4
    let group_assignments = vec![
        (&group_1, vec![&user_1, &user_2]),
        (&group_2, vec![&user_3, &user_4]),
    ];

    for (group, users) in group_assignments {
        for user in users {
            db.directory.group_users.push(GroupUser { user_id: user.id, group_id: group.id });
        }
    }

    // Create some network devices
    let network_device_1 = Device {
        id: NoId,
        name: "network-device-1".into(),
        user_id: user_1.id, // Owned by user 1
        device_type: DeviceType::Network,
        details: (),
    };
    let network_device_1 = network_device_1.save(&mut db);

    let network_device_2 = Device {
        id: NoId,
        name: "network-device-2".into(),
        user_id: user_2.id, // Owned by user 2
        device_type: DeviceType::Network,
        details: (),
    };
    let network_device_2 = network_device_2.save(&mut db);

    let network_device_3 = Device {
        id: NoId,
        name: "network-device-3".into(),
        user_id: user_3.id, // Owned by user 3
        device_type: DeviceType::Network,
        details: (),
    };
    let network_device_3 = network_device_3.save(&mut db);

    // Add network devices to location's VPN network
    let network_devices = vec![
        (
            network_device_1.id,
            IpAddr::V4(Ipv4Addr::new(10, 0, 100, 1)),
        ),
        (
            network_device_2.id,
            IpAddr::V4(Ipv4Addr::new(10, 0, 100, 2)),
        ),
        (
            network_device_3.id,
            IpAddr::V4(Ipv4Addr::new(10, 0, 100, 3)),
        ),
    ];

    for (device_id, ip) in network_devices {
        let network_device = WireguardNetworkDevice {
            device_id,
            wireguard_network_id: location.id,
            wireguard_ips: vec![ip],
        };
        network_device.insert(&mut db);
    }

    // Create first ACL rule - Web access
    let acl_rule_1 = AclRule {
        id: NoId,
        name: "Web Access".into(),
        all_networks: false,
        expires: None,
        allow_all_users: false,
        deny_all_users: false,
        allow_all_network_devices: false,
        deny_all_network_devices: false,
        destination: vec![net("192.168.1.0/24")],
        ports: vec![
            PortRange::new(80, 80),
            PortRange::new(443, 443),
        ],
        protocols: vec![Protocol::Tcp.into()],
        enabled: true,
        parent_id: None,
        state: RuleState::Applied,
    };
    let locations = vec![location.id];
    let allowed_users = vec![user_1.id, user_2.id]; // First two users can access web
    let denied_users = vec![user_3.id]; // Third user explicitly denied
    let allowed_groups = vec![group_1.id]; // First group allowed
    let denied_groups = Vec::new();
    let allowed_devices = vec![network_device_1.id];
    let denied_devices = vec![network_device_2.id, network_device_3.id];
    let destination_ranges = Vec::new();
    let aliases = Vec::new();

    db.create_acl_rule(
        acl_rule_1,
        locations,
        allowed_users,
        denied_users,
        allowed_groups,
        denied_groups,
        allowed_devices,
        denied_devices,
        destination_ranges,
        aliases,
    );

    // Create second ACL rule - DNS access
    let acl_rule_2 = AclRule {
        id: NoId,
        name: "DNS Access".into(),
        all_networks: false,
        expires: None,
        allow_all_users: true, // Allow all users
        deny_all_users: false,
        allow_all_network_devices: false,
        deny_all_network_devices: false,
        destination: Vec::new(), // Will use destination ranges instead
        ports: vec![PortRange::new(53, 53)],
        protocols: vec![Protocol::Udp.into(), Protocol::Tcp.into()],
        enabled: true,
        parent_id: None,
        state: RuleState::Applied,
    };
    let locations_2 = vec![location.id];
    let allowed_users_2 = Vec::new();
    let denied_users_2 = vec![user_5.id]; // Fifth user denied DNS
    let allowed_groups_2 = Vec::new();
    let denied_groups_2 = vec![group_2.id];
    let allowed_devices_2 = vec![network_device_1.id, network_device_2.id]; // First two network devices allowed
    let denied_devices_2 = vec![network_device_3.id]; // Third network device denied
    let destination_ranges_2 = vec![
        (ip("10.0.1.13"), ip("10.0.1.43")),
        (ip("10.0.1.52"), ip("10.0.2.43")),
    ];
    let aliases_2 = Vec::new();

    db.create_acl_rule(
        acl_rule_2,
        locations_2,
        allowed_users_2,
        denied_users_2,
        allowed_groups_2,
        denied_groups_2,
        allowed_devices_2,
        denied_devices_2,
        destination_ranges_2,
        aliases_2,
    );

    // try to generate firewall config with ACL disabled
    location.acl_enabled = false;
    let generated_firewall_config = location.try_get_firewall_config(&db.tables, &db.directory, now());
    assert!(generated_firewall_config.is_none());

    // generate firewall config with default policy Allow
    location.acl_enabled = true;
    location.acl_default_allow = true;
    let generated_firewall_config = location
        .try_get_firewall_config(&db.tables, &db.directory, now())
        .unwrap();
    assert_eq!(
        generated_firewall_config.default_policy,
        FirewallPolicy::Allow
    );

    let generated_firewall_rules = generated_firewall_config.rules;

    assert_eq!(generated_firewall_rules.len(), 4);

    // First ACL - Web Access ALLOW
    let web_allow_rule = &generated_firewall_rules[0];
    assert_eq!(web_allow_rule.verdict, FirewallPolicy::Allow);
    assert_eq!(web_allow_rule.protocols, vec![i32::from(Protocol::Tcp)]);
    assert_eq!(
        web_allow_rule.destination_addrs,
        [IpAddress {
            address: Some(Address::IpSubnet("192.168.1.0/24".to_string())),
        }]
    );
    assert_eq!(
        web_allow_rule.destination_ports,
        [
            Port {
                port: Some(PortInner::SinglePort(80))
            },
            Port {
                port: Some(PortInner::SinglePort(443))
            }
        ]
    );
    // Source addresses should include devices of users 1,2 and network_device_1
    assert_eq!(
        web_allow_rule.source_addrs,
        [
            IpAddress {
                address: Some(Address::IpRange(IpRange {
                    start: "10.0.1.1".to_string(),
                    end: "10.0.1.2".to_string(),
                })),
            },
            IpAddress {
                address: Some(Address::IpRange(IpRange {
                    start: "10.0.2.1".to_string(),
                    end: "10.0.2.2".to_string(),
                })),
            },
            IpAddress {
                address: Some(Address::Ip("10.0.100.1".to_string())),
            },
        ]
    );

    // First ACL - Web Access DENY
    let web_deny_rule = &generated_firewall_rules[2];
    assert_eq!(web_deny_rule.verdict, FirewallPolicy::Deny);
    assert!(web_deny_rule.protocols.is_empty());
    assert!(web_deny_rule.destination_ports.is_empty());
    assert!(web_deny_rule.source_addrs.is_empty());
    assert_eq!(
        web_deny_rule.destination_addrs,
        [IpAddress {
            address: Some(Address::IpSubnet("192.168.1.0/24".to_string())),
        }]
    );

    // Second ACL - DNS Access ALLOW
    let dns_allow_rule = &generated_firewall_rules[1];
    assert_eq!(dns_allow_rule.verdict, FirewallPolicy::Allow);
    assert_eq!(
        dns_allow_rule.protocols,
        [i32::from(Protocol::Tcp), i32::from(Protocol::Udp)]
    );
    assert_eq!(
        dns_allow_rule.destination_ports,
        [Port {
            port: Some(PortInner::SinglePort(53))
        }]
    );
    // Source addresses should include network_devices 1,2
    assert_eq!(
        dns_allow_rule.source_addrs,
        [
            IpAddress {
                address: Some(Address::IpRange(IpRange {
                    start: "10.0.1.1".to_string(),
                    end: "10.0.1.2".to_string(),
                })),
            },
            IpAddress {
                address: Some(Address::IpRange(IpRange {
                    start: "10.0.2.1".to_string(),
                    end: "10.0.2.2".to_string(),
                })),
            },
            IpAddress {
                address: Some(Address::IpRange(IpRange {
                    start: "10.0.100.1".to_string(),
                    end: "10.0.100.2".to_string(),
                })),
            },
        ]
    );

    let expected_destination_addrs = vec![
        IpAddress {
            address: Some(Address::Ip("10.0.1.13".to_string())),
        },
        IpAddress {
            address: Some(Address::IpSubnet("10.0.1.14/31".to_string())),
        },
        IpAddress {
            address: Some(Address::IpSubnet("10.0.1.16/28".to_string())),
        },
        IpAddress {
            address: Some(Address::IpSubnet("10.0.1.32/29".to_string())),
        },
        IpAddress {
            address: Some(Address::IpSubnet("10.0.1.40/30".to_string())),
        },
        IpAddress {
            address: Some(Address::IpSubnet("10.0.1.52/30".to_string())),
        },
        IpAddress {
            address: Some(Address::IpSubnet("10.0.1.56/29".to_string())),
        },
        IpAddress {
            address: Some(Address::IpSubnet("10.0.1.64/26".to_string())),
        },
        IpAddress {
            address: Some(Address::IpSubnet("10.0.1.128/25".to_string())),
        },
        IpAddress {
            address: Some(Address::IpSubnet("10.0.2.0/27".to_string())),
        },
        IpAddress {
            address: Some(Address::IpSubnet("10.0.2.32/29".to_string())),
        },
        IpAddress {
            address: Some(Address::IpSubnet("10.0.2.40/30".to_string())),
        },
    ];

    assert_eq!(dns_allow_rule.destination_addrs, expected_destination_addrs);

    // Second ACL - DNS Access DENY
    let dns_deny_rule = &generated_firewall_rules[3];
    assert_eq!(dns_deny_rule.verdict, FirewallPolicy::Deny);
    assert!(dns_deny_rule.protocols.is_empty(),);
    assert!(dns_deny_rule.destination_ports.is_empty(),);
    assert!(dns_deny_rule.source_addrs.is_empty(),);
    assert_eq!(dns_deny_rule.destination_addrs, expected_destination_addrs);
}

#[test]
fn test_generate_firewall_rules_ipv6() {
    let mut db = Db::new();
    let mut rng = thread_rng();

    // Create test location
    let location = WireguardNetwork {
        id: NoId,
        acl_enabled: false,
        address: vec![IpNetwork::new(IpAddr::V6(Ipv6Addr::unspecified()), 0).unwrap()],
        ..location()
    };
    let mut location = location.save(&mut db);

    // Setup test users and their devices
    let user_1: User<NoId> = random_user(&mut rng);
    let user_1 = user_1.save(&mut db);
    let user_2: User<NoId> = random_user(&mut rng);
    let user_2 = user_2.save(&mut db);
    let user_3: User<NoId> = random_user(&mut rng);
    let user_3 = user_3.save(&mut db);
    let user_4: User<NoId> = random_user(&mut rng);
    let user_4 = user_4.save(&mut db);
    let user_5: User<NoId> = random_user(&mut rng);
    let user_5 = user_5.save(&mut db);

    for user in [&user_1, &user_2, &user_3, &user_4, &user_5] {
        // Create 2 devices per user
        for device_num in 1..3 {
            let device = Device {
                id: NoId,
                name: format!("device-{}-{}", user.id, device_num),
                user_id: user.id,
                device_type: DeviceType::User,
                details: (),
            };
            let device = device.save(&mut db);

            // Add device to location's VPN network
            let network_device = WireguardNetworkDevice {
                device_id: device.id,
                wireguard_network_id: location.id,
                wireguard_ips: vec![IpAddr::V6(Ipv6Addr::new(
                    0xff00,
                    0,
                    0,
                    0,
                    0,
                    0,
                    user.id as u16,
                    device_num as u16,
                ))],
            };
            network_device.insert(&mut db);
        }
    }

    // Setup test groups
    let group_1 = Group { id: NoId, name: "group_1".into() };
    let group_1 = group_1.save(&mut db);
    let group_2 = Group { id: NoId, name: "group_2".into() };
    let group_2 = group_2.save(&mut db);

    // Assign users to groups:
    // Group 1: users 1,2
    // Group 2: users 3,4
    let group_assignments = vec![
        (&group_1, vec![&user_1, &user_2]),
        (&group_2, vec![&user_3, &user_4]),
    ];

    for (group, users) in group_assignments {
        for user in users {
            db.directory.group_users.push(GroupUser { user_id: user.id, group_id: group.id });
        }
    }

    // Create some network devices
    let network_device_1 = Device {
        id: NoId,
        name: "network-device-1".into(),
        user_id: user_1.id, // Owned by user 1
        device_type: DeviceType::Network,
        details: (),
    };
    let network_device_1 = network_device_1.save(&mut db);

    let network_device_2 = Device {
        id: NoId,
        name: "network-device-2".into(),
        user_id: user_2.id, // Owned by user 2
        device_type: DeviceType::Network,
        details: (),
    };
    let network_device_2 = network_device_2.save(&mut db);

    let network_device_3 = Device {
        id: NoId,
        name: "network-device-3".into(),
        user_id: user_3.id, // Owned by user 3
        device_type: DeviceType::Network,
        details: (),
    };
    let network_device_3 = network_device_3.save(&mut db);

    // Add network devices to location's VPN network
    let network_devices = vec![
        (
            network_device_1.id,
            IpAddr::V6(Ipv6Addr::new(0xff00, 0, 0, 0, 0, 0, 0x0100, 1)),
        ),
        (
            network_device_2.id,
            IpAddr::V6(Ipv6Addr::new(0xff00, 0, 0, 0, 0, 0, 0x0100, 2)),
        ),
        (
            network_device_3.id,
            IpAddr::V6(Ipv6Addr::new(0xff00, 0, 0, 0, 0, 0, 0x0100, 3)),
        ),
    ];

    for (device_id, ip) in network_devices {
        let network_device = WireguardNetworkDevice {
            device_id,
            wireguard_network_id: location.id,
            wireguard_ips: vec![ip],
        };
        network_device.insert(&mut db);
    }

    // Create first ACL rule - Web access
    let acl_rule_1 = AclRule {
        id: NoId,
        name: "Web Access".into(),
        all_networks: false,
        expires: None,
        allow_all_users: false,
        deny_all_users: false,
        allow_all_network_devices: false,
        deny_all_network_devices: false,
        destination: vec![net("fc00::0/112")],
        ports: vec![
            PortRange::new(80, 80),
            PortRange::new(443, 443),
        ],
        protocols: vec![Protocol::Tcp.into()],
        enabled: true,
        parent_id: None,
        state: RuleState::Applied,
    };
    let locations = vec![location.id];
    let allowed_users = vec![user_1.id, user_2.id]; // First two users can access web
    let denied_users = vec![user_3.id]; // Third user explicitly denied
    let allowed_groups = vec![group_1.id]; // First group allowed
    let denied_groups = Vec::new();
    let allowed_devices = vec![network_device_1.id];
    let denied_devices = vec![network_device_2.id, network_device_3.id];
    let destination_ranges = Vec::new();
    let aliases = Vec::new();

    db.create_acl_rule(
        acl_rule_1,
        locations,
        allowed_users,
        denied_users,
        allowed_groups,
        denied_groups,
        allowed_devices,
        denied_devices,
        destination_ranges,
        aliases,
    );

    // Create second ACL rule - DNS access
    let acl_rule_2 = AclRule {
        id: NoId,
        name: "DNS Access".into(),
        all_networks: false,
        expires: None,
        allow_all_users: true, // Allow all users
        deny_all_users: false,
        allow_all_network_devices: false,
        deny_all_network_devices: false,
        destination: Vec::new(), // Will use destination ranges instead
        ports: vec![PortRange::new(53, 53)],
        protocols: vec![Protocol::Udp.into(), Protocol::Tcp.into()],
        enabled: true,
        parent_id: None,
        state: RuleState::Applied,
    };
    let locations_2 = vec![location.id];
    let allowed_users_2 = Vec::new();
    let denied_users_2 = vec![user_5.id]; // Fifth user denied DNS
    let allowed_groups_2 = Vec::new();
    let denied_groups_2 = vec![group_2.id];
    let allowed_devices_2 = vec![network_device_1.id, network_device_2.id]; // First two network devices allowed
    let denied_devices_2 = vec![network_device_3.id]; // Third network device denied
    let destination_ranges_2 = vec![
        (ip("fc00::1:13"), ip("fc00::1:43")),
        (ip("fc00::1:52"), ip("fc00::2:43")),
    ];
    let aliases_2 = Vec::new();

    db.create_acl_rule(
        acl_rule_2,
        locations_2,
        allowed_users_2,
        denied_users_2,
        allowed_groups_2,
        denied_groups_2,
        allowed_devices_2,
        denied_devices_2,
        destination_ranges_2,
        aliases_2,
    );

    // try to generate firewall config with ACL disabled
    location.acl_enabled = false;
    let generated_firewall_config = location.try_get_firewall_config(&db.tables, &db.directory, now());
    assert!(generated_firewall_config.is_none());

    // generate firewall config with default policy Allow
    location.acl_enabled = true;
    location.acl_default_allow = true;
    let generated_firewall_config = location
        .try_get_firewall_config(&db.tables, &db.directory, now())
        .unwrap();
    assert_eq!(
        generated_firewall_config.default_policy,
        FirewallPolicy::Allow
    );

    let generated_firewall_rules = generated_firewall_config.rules;

    assert_eq!(generated_firewall_rules.len(), 4);

    // First ACL - Web Access ALLOW
    let web_allow_rule = &generated_firewall_rules[0];
    assert_eq!(web_allow_rule.verdict, FirewallPolicy::Allow);
    assert_eq!(web_allow_rule.protocols, vec![i32::from(Protocol::Tcp)]);
    assert_eq!(
        web_allow_rule.destination_addrs,
        [IpAddress {
            address: Some(Address::IpSubnet("fc00::/112".to_string())),
        }]
    );
    assert_eq!(
        web_allow_rule.destination_ports,
        [
            Port {
                port: Some(PortInner::SinglePort(80))
            },
            Port {
                port: Some(PortInner::SinglePort(443))
            }
        ]
    );
    // Source addresses should include devices of users 1,2 and network_device_1
    assert_eq!(
        web_allow_rule.source_addrs,
        [
            IpAddress {
                address: Some(Address::IpRange(IpRange {
                    start: "ff00::1:1".to_string(),
                    end: "ff00::1:2".to_string(),
                })),
            },
            IpAddress {
                address: Some(Address::IpRange(IpRange {
                    start: "ff00::2:1".to_string(),
                    end: "ff00::2:2".to_string(),
                })),
            },
            IpAddress {
                address: Some(Address::Ip("ff00::100:1".to_string())),
            },
        ]
    );

    // First ACL - Web Access DENY
    let web_deny_rule = &generated_firewall_rules[2];
    assert_eq!(web_deny_rule.verdict, FirewallPolicy::Deny);
    assert!(web_deny_rule.protocols.is_empty());
    assert!(web_deny_rule.destination_ports.is_empty());
    assert!(web_deny_rule.source_addrs.is_empty());
    assert_eq!(
        web_deny_rule.destination_addrs,
        [IpAddress {
            address: Some(Address::IpSubnet("fc00::/112".to_string())),
        }]
    );

    // Second ACL - DNS Access ALLOW
    let dns_allow_rule = &generated_firewall_rules[1];
    assert_eq!(dns_allow_rule.verdict, FirewallPolicy::Allow);
    assert_eq!(
        dns_allow_rule.protocols,
        [i32::from(Protocol::Tcp), i32::from(Protocol::Udp)]
    );
    assert_eq!(
        dns_allow_rule.destination_ports,
        [Port {
            port: Some(PortInner::SinglePort(53))
        }]
    );

    let expected_destination_addrs = vec![
        IpAddress {
            address: Some(Address::Ip("fc00::1:13".to_string())),
        },
        IpAddress {
            address: Some(Address::IpSubnet("fc00::1:14/126".to_string())),
        },
        IpAddress {
            address: Some(Address::IpSubnet("fc00::1:18/125".to_string())),
        },
        IpAddress {
            address: Some(Address::IpSubnet("fc00::1:20/123".to_string())),
        },
        IpAddress {
            address: Some(Address::IpSubnet("fc00::1:40/126".to_string())),
        },
        IpAddress {
            address: Some(Address::IpSubnet("fc00::1:52/127".to_string())),
        },
        IpAddress {
            address: Some(Address::IpSubnet("fc00::1:54/126".to_string())),
        },
        IpAddress {
            address: Some(Address::IpSubnet("fc00::1:58/125".to_string())),
        },
        IpAddress {
            address: Some(Address::IpSubnet("fc00::1:60/123".to_string())),
        },
        IpAddress {
            address: Some(Address::IpSubnet("fc00::1:80/121".to_string())),
        },
        IpAddress {
            address: Some(Address::IpSubnet("fc00::1:100/120".to_string())),
        },
        IpAddress {
            address: Some(Address::IpSubnet("fc00::1:200/119".to_string())),
        },
        IpAddress {
            address: Some(Address::IpSubnet("fc00::1:400/118".to_string())),
        },
        IpAddress {
            address: Some(Address::IpSubnet("fc00::1:800/117".to_string())),
        },
        IpAddress {
            address: Some(Address::IpSubnet("fc00::1:1000/116".to_string())),
        },
        IpAddress {
            address: Some(Address::IpSubnet("fc00::1:2000/115".to_string())),
        },
        IpAddress {
            address: Some(Address::IpSubnet("fc00::1:4000/114".to_string())),
        },
        IpAddress {
            address: Some(Address::IpSubnet("fc00::1:8000/113".to_string())),
        },
        IpAddress {
            address: Some(Address::IpSubnet("fc00::2:0/122".to_string())),
        },
        IpAddress {
            address: Some(Address::IpSubnet("fc00::2:40/126".to_string())),
        },
    ];

    // Source addresses should include network_devices 1,2
    assert_eq!(
        dns_allow_rule.source_addrs,
        [
            IpAddress {
                address: Some(Address::IpRange(IpRange {
                    start: "ff00::1:1".to_string(),
                    end: "ff00::1:2".to_string(),
                })),
            },
            IpAddress {
                address: Some(Address::IpRange(IpRange {
                    start: "ff00::2:1".to_string(),
                    end: "ff00::2:2".to_string(),
                })),
            },
            IpAddress {
                address: Some(Address::IpRange(IpRange {
                    start: "ff00::100:1".to_string(),
                    end: "ff00::100:2".to_string(),
                })),
            },
        ]
    );
    assert_eq!(dns_allow_rule.destination_addrs, expected_destination_addrs);

    // Second ACL - DNS Access DENY
    let dns_deny_rule = &generated_firewall_rules[3];
    assert_eq!(dns_deny_rule.verdict, FirewallPolicy::Deny);
    assert!(dns_deny_rule.protocols.is_empty(),);
    assert!(dns_deny_rule.destination_ports.is_empty(),);
    assert!(dns_deny_rule.source_addrs.is_empty(),);
    assert_eq!(dns_deny_rule.destination_addrs, expected_destination_addrs);
}

#[test]
fn test_generate_firewall_rules_ipv4_and_ipv6() {
    let mut db = Db::new();

    let mut rng = thread_rng();

    // Create test location
    let location = WireguardNetwork {
        id: NoId,
        acl_enabled: false,
        address: vec![
            IpNetwork::new(IpAddr::V4(Ipv4Addr::unspecified()), 0).unwrap(),
            IpNetwork::new(IpAddr::V6(Ipv6Addr::unspecified()), 0).unwrap(),
        ],
        ..location()
    };
    let mut location = location.save(&mut db);

    // Setup test users and their devices
    let user_1: User<NoId> = random_user(&mut rng);
    let user_1 = user_1.save(&mut db);
    let user_2: User<NoId> = random_user(&mut rng);
    let user_2 = user_2.save(&mut db);
    let user_3: User<NoId> = random_user(&mut rng);
    let user_3 = user_3.save(&mut db);
    let user_4: User<NoId> = random_user(&mut rng);
    let user_4 = user_4.save(&mut db);
    let user_5: User<NoId> = random_user(&mut rng);
    let user_5 = user_5.save(&mut db);

    for user in [&user_1, &user_2, &user_3, &user_4, &user_5] {
        // Create 2 devices per user
        for device_num in 1..3 {
            let device = Device {
                id: NoId,
                name: format!("device-{}-{}", user.id, device_num),
                user_id: user.id,
                device_type: DeviceType::User,
                details: (),
            };
            let device = device.save(&mut db);

            // Add device to location's VPN network
            let network_device = WireguardNetworkDevice {
                device_id: device.id,
                wireguard_network_id: location.id,
                wireguard_ips: vec![
                    IpAddr::V4(Ipv4Addr::new(10, 0, user.id as u8, device_num as u8)),
                    IpAddr::V6(Ipv6Addr::new(
                        0xff00,
                        0,
                        0,
                        0,
                        0,
                        0,
                        user.id as u16,
                        device_num as u16,
                    )),
                ],
            };
            network_device.insert(&mut db);
        }
    }

    // Setup test groups
    let group_1 = Group { id: NoId, name: "group_1".into() };
    let group_1 = group_1.save(&mut db);
    let group_2 = Group { id: NoId, name: "group_2".into() };
    let group_2 = group_2.save(&mut db);

    // Assign users to groups:
    // Group 1: users 1,2
    // Group 2: users 3,4
    let group_assignments = vec![
        (&group_1, vec![&user_1, &user_2]),
        (&group_2, vec![&user_3, &user_4]),
    ];

    for (group, users) in group_assignments {
        for user in users {
            db.directory.group_users.push(GroupUser { user_id: user.id, group_id: group.id });
        }
    }

    // Create some network devices
    let network_device_1 = Device {
        id: NoId,
        name: "network-device-1".into(),
        user_id: user_1.id, // Owned by user 1
        device_type: DeviceType::Network,
        details: (),
    };
    let network_device_1 = network_device_1.save(&mut db);

    let network_device_2 = Device {
        id: NoId,
        name: "network-device-2".into(),
        user_id: user_2.id, // Owned by user 2
        device_type: DeviceType::Network,
        details: (),
    };
    let network_device_2 = network_device_2.save(&mut db);

    let network_device_3 = Device {
        id: NoId,
        name: "network-device-3".into(),
        user_id: user_3.id, // Owned by user 3
        device_type: DeviceType::Network,
        details: (),
    };
    let network_device_3 = network_device_3.save(&mut db);

    // Add network devices to location's VPN network
    let network_devices = vec![
        (
            network_device_1.id,
            vec![
                IpAddr::V4(Ipv4Addr::new(10, 0, 100, 1)),
                IpAddr::V6(Ipv6Addr::new(0xff00, 0, 0, 0, 0, 0, 0x0100, 1)),
            ],
        ),
        (
            network_device_2.id,
            vec![
                IpAddr::V4(Ipv4Addr::new(10, 0, 100, 2)),
                IpAddr::V6(Ipv6Addr::new(0xff00, 0, 0, 0, 0, 0, 0x0100, 2)),
            ],
        ),
        (
            network_device_3.id,
            vec![
                IpAddr::V4(Ipv4Addr::new(10, 0, 100, 3)),
                IpAddr::V6(Ipv6Addr::new(0xff00, 0, 0, 0, 0, 0, 0x0100, 3)),
            ],
        ),
    ];

    for (device_id, ips) in network_devices {
        let network_device = WireguardNetworkDevice {
            device_id,
            wireguard_network_id: location.id,
            wireguard_ips: ips,
        };
        network_device.insert(&mut db);
    }

    // Create first ACL rule - Web access
    let acl_rule_1 = AclRule {
        id: NoId,
        name: "Web Access".into(),
        all_networks: false,
        expires: None,
        allow_all_users: false,
        deny_all_users: false,
        allow_all_network_devices: false,
        deny_all_network_devices: false,
        destination: vec![
            net("192.168.1.0/24"),
            net("fc00::0/112"),
        ],
        ports: vec![
            PortRange::new(80, 80),
            PortRange::new(443, 443),
        ],
        protocols: vec![Protocol::Tcp.into()],
        enabled: true,
        parent_id: None,
        state: RuleState::Applied,
    };
    let locations = vec![location.id];
    let allowed_users = vec![user_1.id, user_2.id]; // First two users can access web
    let denied_users = vec![user_3.id]; // Third user explicitly denied
    let allowed_groups = vec![group_1.id]; // First group allowed
    let denied_groups = Vec::new();
    let allowed_devices = vec![network_device_1.id];
    let denied_devices = vec![network_device_2.id, network_device_3.id];
    let destination_ranges = Vec::new();
    let aliases = Vec::new();

    db.create_acl_rule(
        acl_rule_1,
        locations,
        allowed_users,
        denied_users,
        allowed_groups,
        denied_groups,
        allowed_devices,
        denied_devices,
        destination_ranges,
        aliases,
    );

    // Create second ACL rule - DNS access
    let acl_rule_2 = AclRule {
        id: NoId,
        name: "DNS Access".into(),
        all_networks: false,
        expires: None,
        allow_all_users: true, // Allow all users
        deny_all_users: false,
        allow_all_network_devices: false,
        deny_all_network_devices: false,
        destination: Vec::new(), // Will use destination ranges instead
        ports: vec![PortRange::new(53, 53)],
        protocols: vec![Protocol::Udp.into(), Protocol::Tcp.into()],
        enabled: true,
        parent_id: None,
        state: RuleState::Applied,
    };
    let locations_2 = vec![location.id];
    let allowed_users_2 = Vec::new();
    let denied_users_2 = vec![user_5.id]; // Fifth user denied DNS
    let allowed_groups_2 = Vec::new();
    let denied_groups_2 = vec![group_2.id];
    let allowed_devices_2 = vec![network_device_1.id, network_device_2.id]; // First two network devices allowed
    let denied_devices_2 = vec![network_device_3.id]; // Third network device denied
    let destination_ranges_2 = vec![
        (ip("10.0.1.13"), ip("10.0.1.43")),
        (ip("10.0.1.52"), ip("10.0.2.43")),
        (ip("fc00::1:13"), ip("fc00::1:43")),
        (ip("fc00::1:52"), ip("fc00::2:43")),
    ];
    let aliases_2 = Vec::new();

    db.create_acl_rule(
        acl_rule_2,
        locations_2,
        allowed_users_2,
        denied_users_2,
        allowed_groups_2,
        denied_groups_2,
        allowed_devices_2,
        denied_devices_2,
        destination_ranges_2,
        aliases_2,
    );

    // try to generate firewall config with ACL disabled
    location.acl_enabled = false;
    let generated_firewall_config = location.try_get_firewall_config(&db.tables, &db.directory, now());
    assert!(generated_firewall_config.is_none());

    // generate firewall config with default policy Allow
    location.acl_enabled = true;
    location.acl_default_allow = true;
    let generated_firewall_config = location
        .try_get_firewall_config(&db.tables, &db.directory, now())
        .unwrap();
    assert_eq!(
        generated_firewall_config.default_policy,
        FirewallPolicy::Allow
    );

    let generated_firewall_rules = generated_firewall_config.rules;

    assert_eq!(generated_firewall_rules.len(), 8);

    // First ACL - Web Access ALLOW
    let web_allow_rule_ipv4 = &generated_firewall_rules[0];
    assert_eq!(
        web_allow_rule_ipv4.verdict,
        FirewallPolicy::Allow
    );
    assert_eq!(
        web_allow_rule_ipv4.protocols,
        vec![i32::from(Protocol::Tcp)]
    );
    assert_eq!(
        web_allow_rule_ipv4.destination_addrs,
        vec![IpAddress {
            address: Some(Address::IpSubnet("192.168.1.0/24".to_string())),
        }]
    );
    assert_eq!(
        web_allow_rule_ipv4.destination_ports,
        vec![
            Port {
                port: Some(PortInner::SinglePort(80))
            },
            Port {
                port: Some(PortInner::SinglePort(443))
            }
        ]
    );
    // Source addresses should include devices of users 1,2 and network_device_1
    assert_eq!(
        web_allow_rule_ipv4.source_addrs,
        vec![
            IpAddress {
                address: Some(Address::IpRange(IpRange {
                    start: "10.0.1.1".to_string(),
                    end: "10.0.1.2".to_string(),
                })),
            },
            IpAddress {
                address: Some(Address::IpRange(IpRange {
                    start: "10.0.2.1".to_string(),
                    end: "10.0.2.2".to_string(),
                })),
            },
            IpAddress {
                address: Some(Address::Ip("10.0.100.1".to_string())),
            },
        ]
    );

    let web_allow_rule_ipv6 = &generated_firewall_rules[1];
    assert_eq!(
        web_allow_rule_ipv6.verdict,
        FirewallPolicy::Allow
    );
    assert_eq!(web_allow_rule_ipv6.protocols, [i32::from(Protocol::Tcp)]);
    assert_eq!(
        web_allow_rule_ipv6.destination_addrs,
        [IpAddress {
            address: Some(Address::IpSubnet("fc00::/112".to_string())),
        }]
    );
    assert_eq!(
        web_allow_rule_ipv6.destination_ports,
        [
            Port {
                port: Some(PortInner::SinglePort(80))
            },
            Port {
                port: Some(PortInner::SinglePort(443))
            }
        ]
    );
    // Source addresses should include devices of users 1,2 and network_device_1
    assert_eq!(
        web_allow_rule_ipv6.source_addrs,
        [
            IpAddress {
                address: Some(Address::IpRange(IpRange {
                    start: "ff00::1:1".to_string(),
                    end: "ff00::1:2".to_string(),
                })),
            },
            IpAddress {
                address: Some(Address::IpRange(IpRange {
                    start: "ff00::2:1".to_string(),
                    end: "ff00::2:2".to_string(),
                })),
            },
            IpAddress {
                address: Some(Address::Ip("ff00::100:1".to_string())),
            },
        ]
    );

    // First ACL - Web Access DENY
    let web_deny_rule_ipv4 = &generated_firewall_rules[4];
    assert_eq!(web_deny_rule_ipv4.verdict, FirewallPolicy::Deny);
    assert!(web_deny_rule_ipv4.protocols.is_empty());
    assert!(web_deny_rule_ipv4.destination_ports.is_empty());
    assert!(web_deny_rule_ipv4.source_addrs.is_empty());
    assert_eq!(
        web_deny_rule_ipv4.destination_addrs,
        [IpAddress {
            address: Some(Address::IpSubnet("192.168.1.0/24".to_string())),
        }]
    );

    let web_deny_rule_ipv6 = &generated_firewall_rules[5];
    assert_eq!(web_deny_rule_ipv6.verdict, FirewallPolicy::Deny);
    assert!(web_deny_rule_ipv6.protocols.is_empty());
    assert!(web_deny_rule_ipv6.destination_ports.is_empty());
    assert!(web_deny_rule_ipv6.source_addrs.is_empty());
    assert_eq!(
        web_deny_rule_ipv6.destination_addrs,
        [IpAddress {
            address: Some(Address::IpSubnet("fc00::/112".to_string())),
        }]
    );

    // Second ACL - DNS Access ALLOW
    let dns_allow_rule_ipv4 = &generated_firewall_rules[2];
    assert_eq!(
        dns_allow_rule_ipv4.verdict,
        FirewallPolicy::Allow
    );
    assert_eq!(
        dns_allow_rule_ipv4.protocols,
        [i32::from(Protocol::Tcp), i32::from(Protocol::Udp)]
    );
    assert_eq!(
        dns_allow_rule_ipv4.destination_ports,
        [Port {
            port: Some(PortInner::SinglePort(53))
        }]
    );
    // Source addresses should include network_devices 1,2
    assert_eq!(
        dns_allow_rule_ipv4.source_addrs,
        [
            IpAddress {
                address: Some(Address::IpRange(IpRange {
                    start: "10.0.1.1".to_string(),
                    end: "10.0.1.2".to_string(),
                })),
            },
            IpAddress {
                address: Some(Address::IpRange(IpRange {
                    start: "10.0.2.1".to_string(),
                    end: "10.0.2.2".to_string(),
                })),
            },
            IpAddress {
                address: Some(Address::IpRange(IpRange {
                    start: "10.0.100.1".to_string(),
                    end: "10.0.100.2".to_string(),
                })),
            },
        ]
    );

    let expected_destination_addrs_v4 = vec![
        IpAddress {
            address: Some(Address::Ip("10.0.1.13".to_string())),
        },
        IpAddress {
            address: Some(Address::IpSubnet("10.0.1.14/31".to_string())),
        },
        IpAddress {
            address: Some(Address::IpSubnet("10.0.1.16/28".to_string())),
        },
        IpAddress {
            address: Some(Address::IpSubnet("10.0.1.32/29".to_string())),
        },
        IpAddress {
            address: Some(Address::IpSubnet("10.0.1.40/30".to_string())),
        },
        IpAddress {
            address: Some(Address::IpSubnet("10.0.1.52/30".to_string())),
        },
        IpAddress {
            address: Some(Address::IpSubnet("10.0.1.56/29".to_string())),
        },
        IpAddress {
            address: Some(Address::IpSubnet("10.0.1.64/26".to_string())),
        },
        IpAddress {
            address: Some(Address::IpSubnet("10.0.1.128/25".to_string())),
        },
        IpAddress {
            address: Some(Address::IpSubnet("10.0.2.0/27".to_string())),
        },
        IpAddress {
            address: Some(Address::IpSubnet("10.0.2.32/29".to_string())),
        },
        IpAddress {
            address: Some(Address::IpSubnet("10.0.2.40/30".to_string())),
        },
    ];

    assert_eq!(
        dns_allow_rule_ipv4.destination_addrs,
        expected_destination_addrs_v4
    );

    let dns_allow_rule_ipv6 = &generated_firewall_rules[3];
    assert_eq!(
        dns_allow_rule_ipv6.verdict,
        FirewallPolicy::Allow
    );
    assert_eq!(
        dns_allow_rule_ipv6.protocols,
        [i32::from(Protocol::Tcp), i32::from(Protocol::Udp)]
    );
    assert_eq!(
        dns_allow_rule_ipv6.destination_ports,
        [Port {
            port: Some(PortInner::SinglePort(53))
        }]
    );
    // Source addresses should include network_devices 1,2
    assert_eq!(
        dns_allow_rule_ipv6.source_addrs,
        [
            IpAddress {
                address: Some(Address::IpRange(IpRange {
                    start: "ff00::1:1".to_string(),
                    end: "ff00::1:2".to_string(),
                })),
            },
            IpAddress {
                address: Some(Address::IpRange(IpRange {
                    start: "ff00::2:1".to_string(),
                    end: "ff00::2:2".to_string(),
                })),
            },
            IpAddress {
                address: Some(Address::IpRange(IpRange {
                    start: "ff00::100:1".to_string(),
                    end: "ff00::100:2".to_string(),
                })),
            },
        ]
    );

    let expected_destination_addrs_v6 = vec![
        IpAddress {
            address: Some(Address::Ip("fc00::1:13".to_string())),
        },
        IpAddress {
            address: Some(Address::IpSubnet("fc00::1:14/126".to_string())),
        },
        IpAddress {
            address: Some(Address::IpSubnet("fc00::1:18/125".to_string())),
        },
        IpAddress {
            address: Some(Address::IpSubnet("fc00::1:20/123".to_string())),
        },
        IpAddress {
            address: Some(Address::IpSubnet("fc00::1:40/126".to_string())),
        },
        IpAddress {
            address: Some(Address::IpSubnet("fc00::1:52/127".to_string())),
        },
        IpAddress {
            address: Some(Address::IpSubnet("fc00::1:54/126".to_string())),
        },
        IpAddress {
            address: Some(Address::IpSubnet("fc00::1:58/125".to_string())),
        },
        IpAddress {
            address: Some(Address::IpSubnet("fc00::1:60/123".to_string())),
        },
        IpAddress {
            address: Some(Address::IpSubnet("fc00::1:80/121".to_string())),
        },
        IpAddress {
            address: Some(Address::IpSubnet("fc00::1:100/120".to_string())),
        },
        IpAddress {
            address: Some(Address::IpSubnet("fc00::1:200/119".to_string())),
        },
        IpAddress {
            address: Some(Address::IpSubnet("fc00::1:400/118".to_string())),
        },
        IpAddress {
            address: Some(Address::IpSubnet("fc00::1:800/117".to_string())),
        },
        IpAddress {
            address: Some(Address::IpSubnet("fc00::1:1000/116".to_string())),
        },
        IpAddress {
            address: Some(Address::IpSubnet("fc00::1:2000/115".to_string())),
        },
        IpAddress {
            address: Some(Address::IpSubnet("fc00::1:4000/114".to_string())),
        },
        IpAddress {
            address: Some(Address::IpSubnet("fc00::1:8000/113".to_string())),
        },
        IpAddress {
            address: Some(Address::IpSubnet("fc00::2:0/122".to_string())),
        },
        IpAddress {
            address: Some(Address::IpSubnet("fc00::2:40/126".to_string())),
        },
    ];

    assert_eq!(
        dns_allow_rule_ipv6.destination_addrs,
        expected_destination_addrs_v6
    );

    // Second ACL - DNS Access DENY
    let dns_deny_rule_ipv4 = &generated_firewall_rules[6];
    assert_eq!(dns_deny_rule_ipv4.verdict, FirewallPolicy::Deny);
    assert!(dns_deny_rule_ipv4.protocols.is_empty(),);
    assert!(dns_deny_rule_ipv4.destination_ports.is_empty(),);
    assert!(dns_deny_rule_ipv4.source_addrs.is_empty(),);
    assert_eq!(
        dns_deny_rule_ipv4.destination_addrs,
        expected_destination_addrs_v4
    );

    let dns_deny_rule_ipv6 = &generated_firewall_rules[7];
    assert_eq!(dns_deny_rule_ipv6.verdict, FirewallPolicy::Deny);
    assert!(dns_deny_rule_ipv6.protocols.is_empty(),);
    assert!(dns_deny_rule_ipv6.destination_ports.is_empty(),);
    assert!(dns_deny_rule_ipv6.source_addrs.is_empty(),);
    assert_eq!(
        dns_deny_rule_ipv6.destination_addrs,
        expected_destination_addrs_v6
    );
}

#[test]
fn test_expired_acl_rules_ipv4() {
    let mut db = Db::new();
    // Create test location
    let location = WireguardNetwork {
        id: NoId,
        acl_enabled: true,
        ..location()
    };
    let location = location.save(&mut db);

    // create expired ACL rules
    let mut acl_rule_1 = AclRule {
        id: NoId,
        expires: Some(micros(DateTime::UNIX_EPOCH.naive_utc())),
        enabled: true,
        state: RuleState::Applied,
        ..rule()
    }
    .save(&mut db);
    let mut acl_rule_2 = AclRule {
        id: NoId,
        expires: Some(micros(DateTime::UNIX_EPOCH.naive_utc())),
        enabled: true,
        state: RuleState::Applied,
        ..rule()
    }
    .save(&mut db);

    // assign rules to location
    for rule in [&acl_rule_1, &acl_rule_2] {
        let obj = AclRuleNetwork {
            id: NoId,
            rule_id: rule.id,
            network_id: location.id,
        };
        obj.save(&mut db);
    }

    let generated_firewall_rules = location
        .try_get_firewall_config(&db.tables, &db.directory, now())
        .unwrap()
        .rules;

    // both rules were expired
    assert_eq!(generated_firewall_rules.len(), 0);

    // make both rules not expired
    acl_rule_1.expires = None;
    acl_rule_1.save(&mut db);

    acl_rule_2.expires = Some(micros(NaiveDateTime::MAX));
    acl_rule_2.save(&mut db);

    let generated_firewall_rules = location
        .try_get_firewall_config(&db.tables, &db.directory, now())
        .unwrap()
        .rules;
    assert_eq!(generated_firewall_rules.len(), 2);
}

#[test]
fn test_expired_acl_rules_ipv6() {
    let mut db = Db::new();
    // Create test location
    let location = WireguardNetwork {
        id: NoId,
        acl_enabled: true,
        address: vec![IpNetwork::new(IpAddr::V6(Ipv6Addr::unspecified()), 0).unwrap()],
        ..location()
    };
    let location = location.save(&mut db);

    // create expired ACL rules
    let mut acl_rule_1 = AclRule {
        id: NoId,
        expires: Some(micros(DateTime::UNIX_EPOCH.naive_utc())),
        enabled: true,
        state: RuleState::Applied,
        ..rule()
    }
    .save(&mut db);
    let mut acl_rule_2 = AclRule {
        id: NoId,
        expires: Some(micros(DateTime::UNIX_EPOCH.naive_utc())),
        enabled: true,
        state: RuleState::Applied,
        ..rule()
    }
    .save(&mut db);

    // assign rules to location
    for rule in [&acl_rule_1, &acl_rule_2] {
        let obj = AclRuleNetwork {
            id: NoId,
            rule_id: rule.id,
            network_id: location.id,
        };
        obj.save(&mut db);
    }

    let generated_firewall_rules = location
        .try_get_firewall_config(&db.tables, &db.directory, now())
        .unwrap()
        .rules;

    // both rules were expired
    assert_eq!(generated_firewall_rules.len(), 0);

    // make both rules not expired
    acl_rule_1.expires = None;
    acl_rule_1.save(&mut db);

    acl_rule_2.expires = Some(micros(NaiveDateTime::MAX));
    acl_rule_2.save(&mut db);

    let generated_firewall_rules = location
        .try_get_firewall_config(&db.tables, &db.directory, now())
        .unwrap()
        .rules;
    assert_eq!(generated_firewall_rules.len(), 2);
}

#[test]
fn test_expired_acl_rules_ipv4_and_ipv6() {
    let mut db = Db::new();
    // Create test location
    let location = WireguardNetwork {
        id: NoId,
        acl_enabled: true,
        address: vec![
            IpNetwork::new(IpAddr::V4(Ipv4Addr::unspecified()), 0).unwrap(),
            IpNetwork::new(IpAddr::V6(Ipv6Addr::unspecified()), 0).unwrap(),
        ],
        ..location()
    };
    let location = location.save(&mut db);

    // create expired ACL rules
    let mut acl_rule_1 = AclRule {
        id: NoId,
        expires: Some(micros(DateTime::UNIX_EPOCH.naive_utc())),
        enabled: true,
        state: RuleState::Applied,
        ..rule()
    }
    .save(&mut db);
    let mut acl_rule_2 = AclRule {
        id: NoId,
        expires: Some(micros(DateTime::UNIX_EPOCH.naive_utc())),
        enabled: true,
        state: RuleState::Applied,
        ..rule()
    }
    .save(&mut db);

    // assign rules to location
    for rule in [&acl_rule_1, &acl_rule_2] {
        let obj = AclRuleNetwork {
            id: NoId,
            rule_id: rule.id,
            network_id: location.id,
        };
        obj.save(&mut db);
    }

    let generated_firewall_rules = location
        .try_get_firewall_config(&db.tables, &db.directory, now())
        .unwrap()
        .rules;

    // both rules were expired
    assert_eq!(generated_firewall_rules.len(), 0);

    // make both rules not expired
    acl_rule_1.expires = None;
    acl_rule_1.save(&mut db);

    acl_rule_2.expires = Some(micros(NaiveDateTime::MAX));
    acl_rule_2.save(&mut db);

    let generated_firewall_rules = location
        .try_get_firewall_config(&db.tables, &db.directory, now())
        .unwrap()
        .rules;
    assert_eq!(generated_firewall_rules.len(), 4);
}

#[test]
fn test_disabled_acl_rules_ipv4() {
    let mut db = Db::new();
    // Create test location
    let location = WireguardNetwork {
        id: NoId,
        acl_enabled: true,
        ..location()
    };
    let location = location.save(&mut db);

    // create disabled ACL rules
    let mut acl_rule_1 = AclRule {
        id: NoId,
        expires: None,
        enabled: false,
        state: RuleState::Applied,
        ..rule()
    }
    .save(&mut db);
    let mut acl_rule_2 = AclRule {
        id: NoId,
        expires: None,
        enabled: false,
        state: RuleState::Applied,
        ..rule()
    }
    .save(&mut db);

    // assign rules to location
    for rule in [&acl_rule_1, &acl_rule_2] {
        let obj = AclRuleNetwork {
            id: NoId,
            rule_id: rule.id,
            network_id: location.id,
        };
        obj.save(&mut db);
    }

    let generated_firewall_rules = location
        .try_get_firewall_config(&db.tables, &db.directory, now())
        .unwrap()
        .rules;

    // both rules were disabled
    assert_eq!(generated_firewall_rules.len(), 0);

    // make both rules enabled
    acl_rule_1.enabled = true;
    acl_rule_1.save(&mut db);

    acl_rule_2.enabled = true;
    acl_rule_2.save(&mut db);

    let generated_firewall_rules = location
        .try_get_firewall_config(&db.tables, &db.directory, now())
        .unwrap()
        .rules;
    assert_eq!(generated_firewall_rules.len(), 2);
}

#[test]
fn test_disabled_acl_rules_ipv6() {
    let mut db = Db::new();
    // Create test location
    let location = WireguardNetwork {
        id: NoId,
        acl_enabled: true,
        address: vec![IpNetwork::new(IpAddr::V6(Ipv6Addr::unspecified()), 0).unwrap()],
        ..location()
    };
    let location = location.save(&mut db);

    // create disabled ACL rules
    let mut acl_rule_1 = AclRule {
        id: NoId,
        expires: None,
        enabled: false,
        state: RuleState::Applied,
        ..rule()
    }
    .save(&mut db);
    let mut acl_rule_2 = AclRule {
        id: NoId,
        expires: None,
        enabled: false,
        state: RuleState::Applied,
        ..rule()
    }
    .save(&mut db);

    // assign rules to location
    for rule in [&acl_rule_1, &acl_rule_2] {
        let obj = AclRuleNetwork {
            id: NoId,
            rule_id: rule.id,
            network_id: location.id,
        };
        obj.save(&mut db);
    }

    let generated_firewall_rules = location
        .try_get_firewall_config(&db.tables, &db.directory, now())
        .unwrap()
        .rules;

    // both rules were disabled
    assert_eq!(generated_firewall_rules.len(), 0);

    // make both rules enabled
    acl_rule_1.enabled = true;
    acl_rule_1.save(&mut db);

    acl_rule_2.enabled = true;
    acl_rule_2.save(&mut db);

    let generated_firewall_rules = location
        .try_get_firewall_config(&db.tables, &db.directory, now())
        .unwrap()
        .rules;
    assert_eq!(generated_firewall_rules.len(), 2);
}

#[test]
fn test_disabled_acl_rules_ipv4_and_ipv6() {
    let mut db = Db::new();
    // Create test location
    let location = WireguardNetwork {
        id: NoId,
        acl_enabled: true,
        address: vec![
            IpNetwork::new(IpAddr::V4(Ipv4Addr::unspecified()), 0).unwrap(),
            IpNetwork::new(IpAddr::V6(Ipv6Addr::unspecified()), 0).unwrap(),
        ],
        ..location()
    };
    let location = location.save(&mut db);

    // create disabled ACL rules
    let mut acl_rule_1 = AclRule {
        id: NoId,
        expires: None,
        enabled: false,
        state: RuleState::Applied,
        ..rule()
    }
    .save(&mut db);
    let mut acl_rule_2 = AclRule {
        id: NoId,
        expires: None,
        enabled: false,
        state: RuleState::Applied,
        ..rule()
    }
    .save(&mut db);

    // assign rules to location
    for rule in [&acl_rule_1, &acl_rule_2] {
        let obj = AclRuleNetwork {
            id: NoId,
            rule_id: rule.id,
            network_id: location.id,
        };
        obj.save(&mut db);
    }

    let generated_firewall_rules = location
        .try_get_firewall_config(&db.tables, &db.directory, now())
        .unwrap()
        .rules;

    // both rules were disabled
    assert_eq!(generated_firewall_rules.len(), 0);

    // make both rules enabled
    acl_rule_1.enabled = true;
    acl_rule_1.save(&mut db);

    acl_rule_2.enabled = true;
    acl_rule_2.save(&mut db);

    let generated_firewall_rules = location
        .try_get_firewall_config(&db.tables, &db.directory, now())
        .unwrap()
        .rules;
    assert_eq!(generated_firewall_rules.len(), 4);
}

#[test]
fn test_unapplied_acl_rules_ipv4() {
    let mut db = Db::new();
    // Create test location
    let location = WireguardNetwork {
        id: NoId,
        acl_enabled: true,
        ..location()
    };
    let location = location.save(&mut db);

    // create unapplied ACL rules
    let mut acl_rule_1 = AclRule {
        id: NoId,
        expires: None,
        enabled: true,
        state: RuleState::New,
        ..rule()
    }
    .save(&mut db);
    let mut acl_rule_2 = AclRule {
        id: NoId,
        expires: None,
        enabled: true,
        state: RuleState::Modified,
        ..rule()
    }
    .save(&mut db);

    // assign rules to location
    for rule in [&acl_rule_1, &acl_rule_2] {
        let obj = AclRuleNetwork {
            id: NoId,
            rule_id: rule.id,
            network_id: location.id,
        };
        obj.save(&mut db);
    }

    let generated_firewall_rules = location
        .try_get_firewall_config(&db.tables, &db.directory, now())
        .unwrap()
        .rules;

    // both rules were not applied
    assert_eq!(generated_firewall_rules.len(), 0);

    // make both rules applied
    acl_rule_1.state = RuleState::Applied;
    acl_rule_1.save(&mut db);

    acl_rule_2.state = RuleState::Applied;
    acl_rule_2.save(&mut db);

    let generated_firewall_rules = location
        .try_get_firewall_config(&db.tables, &db.directory, now())
        .unwrap()
        .rules;
    assert_eq!(generated_firewall_rules.len(), 2);
}

#[test]
fn test_unapplied_acl_rules_ipv6() {
    let mut db = Db::new();
    // Create test location
    let location = WireguardNetwork {
        id: NoId,
        acl_enabled: true,
        address: vec![IpNetwork::new(IpAddr::V6(Ipv6Addr::unspecified()), 0).unwrap()],
        ..location()
    };
    let location = location.save(&mut db);

    // create unapplied ACL rules
    let mut acl_rule_1 = AclRule {
        id: NoId,
        expires: None,
        enabled: true,
        state: RuleState::New,
        ..rule()
    }
    .save(&mut db);
    let mut acl_rule_2 = AclRule {
        id: NoId,
        expires: None,
        enabled: true,
        state: RuleState::Modified,
        ..rule()
    }
    .save(&mut db);

    // assign rules to location
    for rule in [&acl_rule_1, &acl_rule_2] {
        let obj = AclRuleNetwork {
            id: NoId,
            rule_id: rule.id,
            network_id: location.id,
        };
        obj.save(&mut db);
    }

    let generated_firewall_rules = location
        .try_get_firewall_config(&db.tables, &db.directory, now())
        .unwrap()
        .rules;

    // both rules were not applied
    assert_eq!(generated_firewall_rules.len(), 0);

    // make both rules applied
    acl_rule_1.state = RuleState::Applied;
    acl_rule_1.save(&mut db);

    acl_rule_2.state = RuleState::Applied;
    acl_rule_2.save(&mut db);

    let generated_firewall_rules = location
        .try_get_firewall_config(&db.tables, &db.directory, now())
        .unwrap()
        .rules;
    assert_eq!(generated_firewall_rules.len(), 2);
}

#[test]
fn test_unapplied_acl_rules_ipv4_and_ipv6() {
    let mut db = Db::new();
    // Create test location
    let location = WireguardNetwork {
        id: NoId,
        acl_enabled: true,
        address: vec![
            IpNetwork::new(IpAddr::V4(Ipv4Addr::unspecified()), 0).unwrap(),
            IpNetwork::new(IpAddr::V6(Ipv6Addr::unspecified()), 0).unwrap(),
        ],
        ..location()
    };
    let location = location.save(&mut db);

    // create unapplied ACL rules
    let mut acl_rule_1 = AclRule {
        id: NoId,
        expires: None,
        enabled: true,
        state: RuleState::New,
        ..rule()
    }
    .save(&mut db);
    let mut acl_rule_2 = AclRule {
        id: NoId,
        expires: None,
        enabled: true,
        state: RuleState::Modified,
        ..rule()
    }
    .save(&mut db);

    // assign rules to location
    for rule in [&acl_rule_1, &acl_rule_2] {
        let obj = AclRuleNetwork {
            id: NoId,
            rule_id: rule.id,
            network_id: location.id,
        };
        obj.save(&mut db);
    }

    let generated_firewall_rules = location
        .try_get_firewall_config(&db.tables, &db.directory, now())
        .unwrap()
        .rules;

    // both rules were not applied
    assert_eq!(generated_firewall_rules.len(), 0);

    // make both rules applied
    acl_rule_1.state = RuleState::Applied;
    acl_rule_1.save(&mut db);

    acl_rule_2.state = RuleState::Applied;
    acl_rule_2.save(&mut db);

    let generated_firewall_rules = location
        .try_get_firewall_config(&db.tables, &db.directory, now())
        .unwrap()
        .rules;
    assert_eq!(generated_firewall_rules.len(), 4);
}

#[test]
fn test_acl_rules_all_locations_ipv4() {
    let mut db = Db::new();
    let mut rng = thread_rng();

    // Create test location
    let location_1 = WireguardNetwork {
        id: NoId,
        acl_enabled: true,
        ..location()
    };
    let location_1 = location_1.save(&mut db);

    // Create another test location
    let location_2 = WireguardNetwork {
        id: NoId,
        acl_enabled: true,
        ..location()
    };
    let location_2 = location_2.save(&mut db);
    // Setup some test users and their devices
    let user_1: User<NoId> = random_user(&mut rng);
    let user_1 = user_1.save(&mut db);
    let user_2: User<NoId> = random_user(&mut rng);
    let user_2 = user_2.save(&mut db);

    for user in [&user_1, &user_2] {
        // Create 2 devices per user
        for device_num in 1..3 {
            let device = Device {
                id: NoId,
                name: format!("device-{}-{}", user.id, device_num),
                user_id: user.id,
                device_type: DeviceType::User,
                details: (),
            };
            let device = device.save(&mut db);

            // Add device to location's VPN network
            let network_device = WireguardNetworkDevice {
                device_id: device.id,
                wireguard_network_id: location_1.id,
                wireguard_ips: vec![IpAddr::V4(Ipv4Addr::new(
                    10,
                    0,
                    user.id as u8,
                    device_num as u8,
                ))],
            };
            network_device.insert(&mut db);
            let network_device = WireguardNetworkDevice {
                device_id: device.id,
                wireguard_network_id: location_2.id,
                wireguard_ips: vec![IpAddr::V4(Ipv4Addr::new(
                    10,
                    10,
                    user.id as u8,
                    device_num as u8,
                ))],
            };
            network_device.insert(&mut db);
        }
    }

    // create ACL rules
    let acl_rule_1 = AclRule {
        id: NoId,
        expires: None,
        enabled: true,
        state: RuleState::Applied,
        destination: vec![net("192.168.1.0/24")],
        ..rule()
    }
    .save(&mut db);

    let acl_rule_2 = AclRule {
        id: NoId,
        expires: None,
        enabled: true,
        all_networks: true,
        state: RuleState::Applied,
        ..rule()
    }
    .save(&mut db);

    let _acl_rule_3 = AclRule {
        id: NoId,
        expires: None,
        enabled: true,
        all_networks: true,
        allow_all_users: true,
        state: RuleState::Applied,
        ..rule()
    }
    .save(&mut db);

    // assign rules to locations
    for rule in [&acl_rule_1, &acl_rule_2] {
        let obj = AclRuleNetwork {
            id: NoId,
            rule_id: rule.id,
            network_id: location_1.id,
        };
        obj.save(&mut db);
    }
    for rule in [&acl_rule_2] {
        let obj = AclRuleNetwork {
            id: NoId,
            rule_id: rule.id,
            network_id: location_2.id,
        };
        obj.save(&mut db);
    }

    let generated_firewall_rules = location_1
        .try_get_firewall_config(&db.tables, &db.directory, now())
        .unwrap()
        .rules;

    // both rules were assigned to this location
    assert_eq!(generated_firewall_rules.len(), 4);

    let generated_firewall_rules = location_2
        .try_get_firewall_config(&db.tables, &db.directory, now())
        .unwrap()
        .rules;

    // rule with `all_networks` enabled was used for this location
    assert_eq!(generated_firewall_rules.len(), 3);
}

#[test]
fn test_acl_rules_all_locations_ipv6() {
    let mut db = Db::new();
    let mut rng = thread_rng();

    // Create test location
    let location_1 = WireguardNetwork {
        id: NoId,
        acl_enabled: true,
        address: vec![IpNetwork::new(IpAddr::V6(Ipv6Addr::unspecified()), 0).unwrap()],
        ..location()
    };
    let location_1 = location_1.save(&mut db);

    // Create another test location
    let location_2 = WireguardNetwork {
        id: NoId,
        acl_enabled: true,
        address: vec![IpNetwork::new(IpAddr::V6(Ipv6Addr::unspecified()), 0).unwrap()],
        ..location()
    };
    let location_2 = location_2.save(&mut db);

    // Setup some test users and their devices
    let user_1: User<NoId> = random_user(&mut rng);
    let user_1 = user_1.save(&mut db);
    let user_2: User<NoId> = random_user(&mut rng);
    let user_2 = user_2.save(&mut db);

    for user in [&user_1, &user_2] {
        // Create 2 devices per user
        for device_num in 1..3 {
            let device = Device {
                id: NoId,
                name: format!("device-{}-{}", user.id, device_num),
                user_id: user.id,
                device_type: DeviceType::User,
                details: (),
            };
            let device = device.save(&mut db);

            // Add device to location's VPN network
            let network_device = WireguardNetworkDevice {
                device_id: device.id,
                wireguard_network_id: location_1.id,
                wireguard_ips: vec![IpAddr::V6(Ipv6Addr::new(
                    0xff00,
                    0,
                    0,
                    0,
                    0,
                    0,
                    user.id as u16,
                    device_num as u16,
                ))],
            };
            network_device.insert(&mut db);
            let network_device = WireguardNetworkDevice {
                device_id: device.id,
                wireguard_network_id: location_2.id,
                wireguard_ips: vec![IpAddr::V6(Ipv6Addr::new(
                    0xff00,
                    0,
                    0,
                    0,
                    10,
                    10,
                    user.id as u16,
                    device_num as u16,
                ))],
            };
            network_device.insert(&mut db);
        }
    }

    // create ACL rules
    let acl_rule_1 = AclRule {
        id: NoId,
        expires: None,
        enabled: true,
        state: RuleState::Applied,
        destination: vec![net("fc00::0/112")],
        ..rule()
    }
    .save(&mut db);

    let acl_rule_2 = AclRule {
        id: NoId,
        expires: None,
        enabled: true,
        all_networks: true,
        state: RuleState::Applied,
        ..rule()
    }
    .save(&mut db);

    let _acl_rule_3 = AclRule {
        id: NoId,
        expires: None,
        enabled: true,
        all_networks: true,
        allow_all_users: true,
        state: RuleState::Applied,
        ..rule()
    }
    .save(&mut db);

    // assign rules to locations
    for rule in [&acl_rule_1, &acl_rule_2] {
        let obj = AclRuleNetwork {
            id: NoId,
            rule_id: rule.id,
            network_id: location_1.id,
        };
        obj.save(&mut db);
    }
    for rule in [&acl_rule_2] {
        let obj = AclRuleNetwork {
            id: NoId,
            rule_id: rule.id,
            network_id: location_2.id,
        };
        obj.save(&mut db);
    }

    let generated_firewall_rules = location_1
        .try_get_firewall_config(&db.tables, &db.directory, now())
        .unwrap()
        .rules;

    // both rules were assigned to this location
    assert_eq!(generated_firewall_rules.len(), 4);

    let generated_firewall_rules = location_2
        .try_get_firewall_config(&db.tables, &db.directory, now())
        .unwrap()
        .rules;

    // rule with `all_networks` enabled was used for this location
    assert_eq!(generated_firewall_rules.len(), 3);
}

#[test]
fn test_acl_rules_all_locations_ipv4_and_ipv6() {
    let mut db = Db::new();
    let mut rng = thread_rng();

    // Create test location
    let location_1 = WireguardNetwork {
        id: NoId,
        acl_enabled: true,
        address: vec![
            IpNetwork::new(IpAddr::V4(Ipv4Addr::unspecified()), 0).unwrap(),
            IpNetwork::new(IpAddr::V6(Ipv6Addr::unspecified()), 0).unwrap(),
        ],
        ..location()
    };
    let location_1 = location_1.save(&mut db);

    // Create another test location
    let location_2 = WireguardNetwork {
        id: NoId,
        acl_enabled: true,
        address: vec![
            IpNetwork::new(IpAddr::V4(Ipv4Addr::unspecified()), 0).unwrap(),
            IpNetwork::new(IpAddr::V6(Ipv6Addr::unspecified()), 0).unwrap(),
        ],
        ..location()
    };
    let location_2 = location_2.save(&mut db);
    // Setup some test users and their devices
    let user_1: User<NoId> = random_user(&mut rng);
    let user_1 = user_1.save(&mut db);
    let user_2: User<NoId> = random_user(&mut rng);
    let user_2 = user_2.save(&mut db);

    for user in [&user_1, &user_2] {
        // Create 2 devices per user
        for device_num in 1..3 {
            let device = Device {
                id: NoId,
                name: format!("device-{}-{}", user.id, device_num),
                user_id: user.id,
                device_type: DeviceType::User,
                details: (),
            };
            let device = device.save(&mut db);

            // Add device to location's VPN network
            let network_device = WireguardNetworkDevice {
                device_id: device.id,
                wireguard_network_id: location_1.id,
                wireguard_ips: vec![
                    IpAddr::V4(Ipv4Addr::new(10, 0, user.id as u8, device_num as u8)),
                    IpAddr::V6(Ipv6Addr::new(
                        0xff00,
                        0,
                        0,
                        0,
                        0,
                        0,
                        user.id as u16,
                        device_num as u16,
                    )),
                ],
            };
            network_device.insert(&mut db);
            let network_device = WireguardNetworkDevice {
                device_id: device.id,
                wireguard_network_id: location_2.id,
                wireguard_ips: vec![
                    IpAddr::V4(Ipv4Addr::new(10, 10, user.id as u8, device_num as u8)),
                    IpAddr::V6(Ipv6Addr::new(
                        0xff00,
                        0,
                        0,
                        0,
                        10,
                        10,
                        user.id as u16,
                        device_num as u16,
                    )),
                ],
            };
            network_device.insert(&mut db);
        }
    }

    // create ACL rules
    let acl_rule_1 = AclRule {
        id: NoId,
        expires: None,
        enabled: true,
        state: RuleState::Applied,
        destination: vec![
            net("192.168.1.0/24"),
            net("fc00::0/112"),
        ],
        ..rule()
    }
    .save(&mut db);

    let acl_rule_2 = AclRule {
        id: NoId,
        expires: None,
        enabled: true,
        all_networks: true,
        state: RuleState::Applied,
        ..rule()
    }
    .save(&mut db);

    let _acl_rule_3 = AclRule {
        id: NoId,
        expires: None,
        enabled: true,
        all_networks: true,
        allow_all_users: true,
        state: RuleState::Applied,
        ..rule()
    }
    .save(&mut db);

    // assign rules to locations
    for rule in [&acl_rule_1, &acl_rule_2] {
        let obj = AclRuleNetwork {
            id: NoId,
            rule_id: rule.id,
            network_id: location_1.id,
        };
        obj.save(&mut db);
    }
    for rule in [&acl_rule_2] {
        let obj = AclRuleNetwork {
            id: NoId,
            rule_id: rule.id,
            network_id: location_2.id,
        };
        obj.save(&mut db);
    }

    let generated_firewall_rules = location_1
        .try_get_firewall_config(&db.tables, &db.directory, now())
        .unwrap()
        .rules;

    // both rules were assigned to this location
    assert_eq!(generated_firewall_rules.len(), 8);

    let generated_firewall_rules = location_2
        .try_get_firewall_config(&db.tables, &db.directory, now())
        .unwrap()
        .rules;

    // rule with `all_networks` enabled was used for this location
    assert_eq!(generated_firewall_rules.len(), 6);
}

#[test]
fn test_alias_kinds() {
    let mut db = Db::new();

    let mut rng = thread_rng();

    // Create test location
    let location = WireguardNetwork {
        id: NoId,
        acl_enabled: true,
        ..location()
    }
    .save(&mut db);

    // Setup some test users and their devices
    let user_1: User<NoId> = random_user(&mut rng);
    let user_1 = user_1.save(&mut db);
    let user_2: User<NoId> = random_user(&mut rng);
    let user_2 = user_2.save(&mut db);

    for user in [&user_1, &user_2] {
        // Create 2 devices per user
        for device_num in 1..3 {
            let device = Device {
                id: NoId,
                name: format!("device-{}-{}", user.id, device_num),
                user_id: user.id,
                device_type: DeviceType::User,
                details: (),
            };
            let device = device.save(&mut db);

            // Add device to location's VPN network
            let network_device = WireguardNetworkDevice {
                device_id: device.id,
                wireguard_network_id: location.id,
                wireguard_ips: vec![IpAddr::V4(Ipv4Addr::new(
                    10,
                    0,
                    user.id as u8,
                    device_num as u8,
                ))],
            };
            network_device.insert(&mut db);
        }
    }

    // create ACL rule
    let acl_rule = AclRule {
        id: NoId,
        name: "test rule".to_string(),
        expires: None,
        enabled: true,
        state: RuleState::Applied,
        destination: vec![net("192.168.1.0/24")],
        allow_all_users: true,
        ..rule()
    }
    .save(&mut db);

    // create different kinds of aliases and add them to the rule
    let destination_alias = AclAlias {
        id: NoId,
        name: "destination alias".to_string(),
        kind: AliasKind::Destination,
        ports: vec![PortRange::new(100, 200)],
        ..alias()
    }
    .save(&mut db);
    let component_alias = AclAlias {
        id: NoId,
        kind: AliasKind::Component,
        destination: vec![net("10.0.2.3")],
        ..alias()
    }
    .save(&mut db);
    for alias in [&destination_alias, &component_alias] {
        let obj = AclRuleAlias {
            id: NoId,
            rule_id: acl_rule.id,
            alias_id: alias.id,
        };
        obj.save(&mut db);
    }

    // assign rule to location
    let obj = AclRuleNetwork {
        id: NoId,
        rule_id: acl_rule.id,
        network_id: location.id,
    };
    obj.save(&mut db);

    let generated_firewall_rules = location
        .try_get_firewall_config(&db.tables, &db.directory, now())
        .unwrap()
        .rules;

    // check generated rules
    assert_eq!(generated_firewall_rules.len(), 4);
    let expected_source_addrs = [
        IpAddress {
            address: Some(Address::IpRange(IpRange {
                start: "10.0.1.1".to_string(),
                end: "10.0.1.2".to_string(),
            })),
        },
        IpAddress {
            address: Some(Address::IpRange(IpRange {
                start: "10.0.2.1".to_string(),
                end: "10.0.2.2".to_string(),
            })),
        },
    ];
    let expected_destination_addrs = [
        IpAddress {
            address: Some(Address::Ip("10.0.2.3".to_string())),
        },
        IpAddress {
            address: Some(Address::IpSubnet("192.168.1.0/24".to_string())),
        },
    ];

    let allow_rule = &generated_firewall_rules[0];
    assert_eq!(allow_rule.verdict, FirewallPolicy::Allow);
    assert_eq!(allow_rule.source_addrs, expected_source_addrs);
    assert_eq!(allow_rule.destination_addrs, expected_destination_addrs);
    assert!(allow_rule.destination_ports.is_empty());
    assert!(allow_rule.protocols.is_empty());
    assert_eq!(
        allow_rule.comment,
        Some("ACL 1 - test rule ALLOW".to_string())
    );

    let alias_allow_rule = &generated_firewall_rules[1];
    assert_eq!(alias_allow_rule.verdict, FirewallPolicy::Allow);
    assert_eq!(alias_allow_rule.source_addrs, expected_source_addrs);
    assert!(alias_allow_rule.destination_addrs.is_empty());
    assert_eq!(
        alias_allow_rule.destination_ports,
        vec![Port {
            port: Some(PortInner::PortRange(PortRangeProto {
                start: 100,
                end: 200,
            }))
        }]
    );
    assert!(alias_allow_rule.protocols.is_empty());
    assert_eq!(
        alias_allow_rule.comment,
        Some("ACL 1 - test rule, ALIAS 1 - destination alias ALLOW".to_string())
    );

    let deny_rule = &generated_firewall_rules[2];
    assert_eq!(deny_rule.verdict, FirewallPolicy::Deny);
    assert!(deny_rule.source_addrs.is_empty());
    assert_eq!(deny_rule.destination_addrs, expected_destination_addrs);
    assert!(deny_rule.destination_ports.is_empty());
    assert!(deny_rule.protocols.is_empty());
    assert_eq!(
        deny_rule.comment,
        Some("ACL 1 - test rule DENY".to_string())
    );

    let alias_deny_rule = &generated_firewall_rules[3];
    assert_eq!(alias_deny_rule.verdict, FirewallPolicy::Deny);
    assert!(alias_deny_rule.source_addrs.is_empty());
    assert!(alias_deny_rule.destination_addrs.is_empty());
    assert!(alias_deny_rule.destination_ports.is_empty());
    assert!(alias_deny_rule.protocols.is_empty());
    assert_eq!(
        alias_deny_rule.comment,
        Some("ACL 1 - test rule, ALIAS 1 - destination alias DENY".to_string())
    );
}

#[test]
fn test_destination_alias_only_acl() {
    let mut db = Db::new();

    let mut rng = thread_rng();

    // Create test location
    let location = WireguardNetwork {
        id: NoId,
        acl_enabled: true,
        ..location()
    }
    .save(&mut db);

    // Setup some test users and their devices
    let user_1: User<NoId> = random_user(&mut rng);
    let user_1 = user_1.save(&mut db);
    let user_2: User<NoId> = random_user(&mut rng);
    let user_2 = user_2.save(&mut db);

    for user in [&user_1, &user_2] {
        // Create 2 devices per user
        for device_num in 1..3 {
            let device = Device {
                id: NoId,
                name: format!("device-{}-{device_num}", user.id),
                user_id: user.id,
                device_type: DeviceType::User,
                details: (),
            };
            let device = device.save(&mut db);

            // Add device to location's VPN network
            let network_device = WireguardNetworkDevice {
                device_id: device.id,
                wireguard_network_id: location.id,
                wireguard_ips: vec![IpAddr::V4(Ipv4Addr::new(
                    10,
                    0,
                    user.id as u8,
                    device_num as u8,
                ))],
            };
            network_device.insert(&mut db);
        }
    }

    // create ACL rule without manually configured destination
    let acl_rule = AclRule {
        id: NoId,
        name: "test rule".to_string(),
        expires: None,
        enabled: true,
        state: RuleState::Applied,
        destination: Vec::new(),
        allow_all_users: true,
        ..rule()
    }
    .save(&mut db);

    // create different kinds of aliases and add them to the rule
    let destination_alias_1 = AclAlias {
        id: NoId,
        name: "postgres".to_string(),
        kind: AliasKind::Destination,
        destination: vec![net("10.0.2.3")],
        ports: vec![PortRange::new(5432, 5432)],
        ..alias()
    }
    .save(&mut db);
    let destination_alias_2 = AclAlias {
        id: NoId,
        name: "redis".to_string(),
        kind: AliasKind::Destination,
        destination: vec![net("10.0.2.4")],
        ports: vec![PortRange::new(6379, 6379)],
        ..alias()
    }
    .save(&mut db);
    for alias in [&destination_alias_1, &destination_alias_2] {
        let obj = AclRuleAlias {
            id: NoId,
            rule_id: acl_rule.id,
            alias_id: alias.id,
        };
        obj.save(&mut db);
    }

    // assign rule to location
    let obj = AclRuleNetwork {
        id: NoId,
        rule_id: acl_rule.id,
        network_id: location.id,
    };
    obj.save(&mut db);

    let generated_firewall_rules = location
        .try_get_firewall_config(&db.tables, &db.directory, now())
        .unwrap()
        .rules;

    // check generated rules
    assert_eq!(generated_firewall_rules.len(), 4);
    let expected_source_addrs = vec![
        IpAddress {
            address: Some(Address::IpRange(IpRange {
                start: "10.0.1.1".to_string(),
                end: "10.0.1.2".to_string(),
            })),
        },
        IpAddress {
            address: Some(Address::IpRange(IpRange {
                start: "10.0.2.1".to_string(),
                end: "10.0.2.2".to_string(),
            })),
        },
    ];

    let alias_allow_rule_1 = &generated_firewall_rules[0];
    assert_eq!(alias_allow_rule_1.verdict, FirewallPolicy::Allow);
    assert_eq!(alias_allow_rule_1.source_addrs, expected_source_addrs);
    assert_eq!(
        alias_allow_rule_1.destination_addrs,
        vec![IpAddress {
            address: Some(Address::Ip("10.0.2.3".to_string())),
        },]
    );
    assert_eq!(
        alias_allow_rule_1.destination_ports,
        vec![Port {
            port: Some(PortInner::SinglePort(5432))
        }]
    );
    assert!(alias_allow_rule_1.protocols.is_empty());
    assert_eq!(
        alias_allow_rule_1.comment,
        Some("ACL 1 - test rule, ALIAS 1 - postgres ALLOW".to_string())
    );

    let alias_allow_rule_2 = &generated_firewall_rules[1];
    assert_eq!(alias_allow_rule_2.verdict, FirewallPolicy::Allow);
    assert_eq!(alias_allow_rule_2.source_addrs, expected_source_addrs);
    assert_eq!(
        alias_allow_rule_2.destination_addrs,
        vec![IpAddress {
            address: Some(Address::Ip("10.0.2.4".to_string())),
        },]
    );
    assert_eq!(
        alias_allow_rule_2.destination_ports,
        vec![Port {
            port: Some(PortInner::SinglePort(6379))
        }]
    );
    assert!(alias_allow_rule_2.protocols.is_empty());
    assert_eq!(
        alias_allow_rule_2.comment,
        Some("ACL 1 - test rule, ALIAS 2 - redis ALLOW".to_string())
    );

    let alias_deny_rule_1 = &generated_firewall_rules[2];
    assert_eq!(alias_deny_rule_1.verdict, FirewallPolicy::Deny);
    assert!(alias_deny_rule_1.source_addrs.is_empty());
    assert_eq!(
        alias_deny_rule_1.destination_addrs,
        vec![IpAddress {
            address: Some(Address::Ip("10.0.2.3".to_string())),
        },]
    );
    assert!(alias_deny_rule_1.destination_ports.is_empty());
    assert!(alias_deny_rule_1.protocols.is_empty());
    assert_eq!(
        alias_deny_rule_1.comment,
        Some("ACL 1 - test rule, ALIAS 1 - postgres DENY".to_string())
    );

    let alias_deny_rule_2 = &generated_firewall_rules[3];
    assert_eq!(alias_deny_rule_2.verdict, FirewallPolicy::Deny);
    assert!(alias_deny_rule_2.source_addrs.is_empty());
    assert_eq!(
        alias_deny_rule_2.destination_addrs,
        vec![IpAddress {
            address: Some(Address::Ip("10.0.2.4".to_string())),
        },]
    );
    assert!(alias_deny_rule_2.destination_ports.is_empty());
    assert!(alias_deny_rule_2.protocols.is_empty());
    assert_eq!(
        alias_deny_rule_2.comment,
        Some("ACL 1 - test rule, ALIAS 2 - redis DENY".to_string())
    );
}
