//! Who and what may use a rule: the users and network devices that its traffic comes from.

use vstd::arithmetic::power2::pow2;
use vstd::prelude::*;

use crate::acl::{AclRuleInfo, AclRuleInfoView};
use crate::addresses::{ip_set, is_number, lemma_ip_set_in_width};
use crate::ip::{IpAddr, IpVersion};
use crate::lists::{
    contains_id, lemma_filter_holds, lemma_filter_next, lemma_filter_start, push_all,
};
use crate::subnets::in_width;
use crate::Id;

verus! {

/// A user. `I` is `Id` once the user is saved, and `NoId` before. `D` is whatever else is known of
/// the user: their password, full name, address and so on. It is kept, and never looked at.
#[derive(Debug, PartialEq, Eq)]
pub struct User<I, D = ()> {
    pub id: I,
    pub username: String,
    pub details: D,
}

impl<I: Copy, D: Clone> Clone for User<I, D> {
    fn clone(&self) -> (user: Self)
        ensures
            user.id == self.id,
            user.username == self.username,
            cloned(self.details, user.details),
    {
        User { id: self.id, username: self.username.clone(), details: self.details.clone() }
    }
}

/// Whom a device belongs to.
#[derive(Clone, Copy, Debug, PartialEq, Eq, Structural)]
pub enum DeviceType {
    /// A device that a user connects with.
    User,
    /// A device that stands for itself.
    Network,
}

/// A device. `I` is `Id` once the device is saved, and `NoId` before. `D` is whatever else is known
/// of the device: its description, key and so on. It is kept, and never looked at.
#[derive(Debug, PartialEq, Eq)]
pub struct Device<I, D = ()> {
    pub id: I,
    pub name: String,
    pub user_id: Id,
    pub device_type: DeviceType,
    pub details: D,
}

impl<I: Copy, D: Clone> Clone for Device<I, D> {
    fn clone(&self) -> (device: Self)
        ensures
            device.id == self.id,
            device.name == self.name,
            device.user_id == self.user_id,
            device.device_type == self.device_type,
            cloned(self.details, device.details),
    {
        Device {
            id: self.id,
            name: self.name.clone(),
            user_id: self.user_id,
            device_type: self.device_type,
            details: self.details.clone(),
        }
    }
}

/// The user under another id.
pub fn user_with_id<D>(drawn: User<Id, D>, id: Id) -> (user: User<Id, D>)
    ensures
        user == (User { id, ..drawn }),
{
    User { id, ..drawn }
}

/// The device under another id, as a network device.
pub fn network_device_with_id<D>(drawn: Device<Id, D>, id: Id) -> (device: Device<Id, D>)
    ensures
        device == (Device { id, device_type: DeviceType::Network, ..drawn }),
{
    Device { id, device_type: DeviceType::Network, ..drawn }
}

/// The membership of a user in a group.
#[derive(Clone, Copy, Debug, PartialEq, Eq, Structural)]
pub struct GroupUser {
    pub user_id: Id,
    pub group_id: Id,
}

/// The addresses of a device in a location.
#[derive(Clone, Debug, PartialEq, Eq)]
pub struct WireguardNetworkDevice {
    pub device_id: Id,
    pub wireguard_network_id: Id,
    pub wireguard_ips: Vec<IpAddr>,
}

/// The users, their groups, and the devices.
#[derive(Clone, Debug)]
pub struct Directory {
    pub users: Vec<User<Id>>,
    pub group_users: Vec<GroupUser>,
    pub devices: Vec<Device<Id>>,
    pub network_devices: Vec<WireguardNetworkDevice>,
}

/// Whether the list holds a user with the given id.
pub open spec fn has_user<D>(users: Seq<User<Id, D>>, id: Id) -> bool {
    exists|i: int| 0 <= i < users.len() && (#[trigger] users[i]).id == id
}

/// Whether the list holds a device with the given id.
pub open spec fn has_device<D>(devices: Seq<Device<Id, D>>, id: Id) -> bool {
    exists|i: int| 0 <= i < devices.len() && (#[trigger] devices[i]).id == id
}

fn contains_user<D>(users: &[User<Id, D>], id: Id) -> (found: bool)
    ensures
        found == has_user(users@, id),
{
    let mut i: usize = 0;
    while i < users.len()
        invariant
            i <= users.len(),
            forall|k: int| 0 <= k < i ==> (#[trigger] users@[k]).id != id,
        decreases users.len() - i,
    {
        if users[i].id == id {
            return true;
        }
        i = i + 1;
    }
    false
}

fn contains_device<D>(devices: &[Device<Id, D>], id: Id) -> (found: bool)
    ensures
        found == has_device(devices@, id),
{
    let mut i: usize = 0;
    while i < devices.len()
        invariant
            i <= devices.len(),
            forall|k: int| 0 <= k < i ==> (#[trigger] devices@[k]).id != id,
        decreases devices.len() - i,
    {
        if devices[i].id == id {
            return true;
        }
        i = i + 1;
    }
    false
}

/// The users that a rule's traffic may come from: those who are allowed and not denied, in the
/// order in which they are allowed.
pub fn get_source_users<D>(allowed_users: Vec<User<Id, D>>, denied_users: &[User<Id, D>]) -> (users: Vec<
    User<Id, D>,
>)
    ensures
        users@ == allowed_users@.filter(|user: User<Id, D>| !has_user(denied_users@, user.id)),
{
    let ghost all = allowed_users@;
    let ghost wanted = |user: User<Id, D>| !has_user(denied_users@, user.id);
    let mut users: Vec<User<Id, D>> = Vec::new();
    proof {
        lemma_filter_start(all, wanted);
    }
    for user in it: allowed_users
        invariant
            it.seq() == all,
            wanted == (|user: User<Id, D>| !has_user(denied_users@, user.id)),
            users@ == all.take(it.index() as int).filter(wanted),
    {
        proof {
            lemma_filter_next(all, it.index() as int, wanted);
        }
        if !contains_user(denied_users, user.id) {
            users.push(user);
        }
    }
    assert(all.take(all.len() as int) =~= all);
    users
}

/// The network devices that a rule's traffic may come from: those that are allowed and not
/// denied, in the order in which they are allowed.
pub fn get_source_network_devices<D>(
    allowed_devices: Vec<Device<Id, D>>,
    denied_devices: &[Device<Id, D>],
) -> (devices: Vec<Device<Id, D>>)
    ensures
        devices@ == allowed_devices@.filter(
            |device: Device<Id, D>| !has_device(denied_devices@, device.id),
        ),
{
    let ghost all = allowed_devices@;
    let ghost wanted = |device: Device<Id, D>| !has_device(denied_devices@, device.id);
    let mut devices: Vec<Device<Id, D>> = Vec::new();
    proof {
        lemma_filter_start(all, wanted);
    }
    for device in it: allowed_devices
        invariant
            it.seq() == all,
            wanted == (|device: Device<Id, D>| !has_device(denied_devices@, device.id)),
            devices@ == all.take(it.index() as int).filter(wanted),
    {
        proof {
            lemma_filter_next(all, it.index() as int, wanted);
        }
        if !contains_device(denied_devices, device.id) {
            devices.push(device);
        }
    }
    assert(all.take(all.len() as int) =~= all);
    devices
}

/// Whether the user is a member of one of the groups.
pub open spec fn in_groups(group_users: Seq<GroupUser>, groups: Seq<Id>, user_id: Id) -> bool {
    exists|i: int|
        0 <= i < group_users.len() && (#[trigger] group_users[i]).user_id == user_id
            && groups.contains(group_users[i].group_id)
}

/// Whether the rule allows the user, by name, through a group or together with all users.
pub open spec fn allows_user(info: AclRuleInfoView, directory: Directory, user_id: Id) -> bool {
    ||| info.rule.allow_all_users
    ||| info.allowed_users.contains(user_id)
    ||| in_groups(directory.group_users@, info.allowed_groups, user_id)
}

/// Whether the rule denies the user, by name, through a group or together with all users.
pub open spec fn denies_user(info: AclRuleInfoView, directory: Directory, user_id: Id) -> bool {
    ||| info.rule.deny_all_users
    ||| info.denied_users.contains(user_id)
    ||| in_groups(directory.group_users@, info.denied_groups, user_id)
}

/// Whether the rule allows the network device, by name or together with all network devices.
pub open spec fn allows_device(info: AclRuleInfoView, device: Device<Id>) -> bool {
    &&& device.device_type == DeviceType::Network
    &&& info.rule.allow_all_network_devices || info.allowed_devices.contains(device.id)
}

/// Whether the rule denies the network device, by name or together with all network devices.
pub open spec fn denies_device(info: AclRuleInfoView, device: Device<Id>) -> bool {
    &&& device.device_type == DeviceType::Network
    &&& info.rule.deny_all_network_devices || info.denied_devices.contains(device.id)
}

fn is_in_groups(group_users: &Vec<GroupUser>, groups: &Vec<Id>, user_id: Id) -> (found: bool)
    ensures
        found == in_groups(group_users@, groups@, user_id),
{
    let mut i: usize = 0;
    while i < group_users.len()
        invariant
            i <= group_users.len(),
            forall|k: int|
                0 <= k < i ==> !((#[trigger] group_users@[k]).user_id == user_id
                    && groups@.contains(group_users@[k].group_id)),
        decreases group_users.len() - i,
    {
        if group_users[i].user_id == user_id && contains_id(groups, group_users[i].group_id) {
            return true;
        }
        i = i + 1;
    }
    false
}

impl<'a> AclRuleInfo<'a> {
    /// All users whom the rule allows, by name, through a group or together with all users.
    pub fn get_all_allowed_users(&self, directory: &Directory) -> (users: Vec<User<Id>>)
        ensures
            users@ == directory.users@.filter(
                |user: User<Id>| allows_user(self@, *directory, user.id),
            ),
    {
        let ghost all = directory.users@;
        let ghost wanted = |user: User<Id>| allows_user(self@, *directory, user.id);
        let mut users: Vec<User<Id>> = Vec::new();
        let mut i: usize = 0;
        proof {
            lemma_filter_start(all, wanted);
        }
        while i < directory.users.len()
            invariant
                i <= directory.users.len(),
                all == directory.users@,
                wanted == (|user: User<Id>| allows_user(self@, *directory, user.id)),
                users@ == all.take(i as int).filter(wanted),
            decreases directory.users.len() - i,
        {
            let user: &User<Id> = &directory.users[i];
            proof {
                lemma_filter_next(all, i as int, wanted);
            }
            if self.rule.allow_all_users || contains_id(&self.allowed_users, user.id)
                || is_in_groups(&directory.group_users, &self.allowed_groups, user.id) {
                users.push(user.clone());
            }
            i = i + 1;
        }
        assert(all.take(i as int) =~= all);
        users
    }

    /// All users whom the rule denies, by name, through a group or together with all users.
    pub fn get_all_denied_users(&self, directory: &Directory) -> (users: Vec<User<Id>>)
        ensures
            users@ == directory.users@.filter(
                |user: User<Id>| denies_user(self@, *directory, user.id),
            ),
    {
        let ghost all = directory.users@;
        let ghost wanted = |user: User<Id>| denies_user(self@, *directory, user.id);
        let mut users: Vec<User<Id>> = Vec::new();
        let mut i: usize = 0;
        proof {
            lemma_filter_start(all, wanted);
        }
        while i < directory.users.len()
            invariant
                i <= directory.users.len(),
                all == directory.users@,
                wanted == (|user: User<Id>| denies_user(self@, *directory, user.id)),
                users@ == all.take(i as int).filter(wanted),
            decreases directory.users.len() - i,
        {
            let user: &User<Id> = &directory.users[i];
            proof {
                lemma_filter_next(all, i as int, wanted);
            }
            if self.rule.deny_all_users || contains_id(&self.denied_users, user.id)
                || is_in_groups(&directory.group_users, &self.denied_groups, user.id) {
                users.push(user.clone());
            }
            i = i + 1;
        }
        assert(all.take(i as int) =~= all);
        users
    }

    /// All network devices that the rule allows, by name or together with all network devices.
    pub fn get_all_allowed_devices(&self, directory: &Directory) -> (devices: Vec<Device<Id>>)
        ensures
            devices@ == directory.devices@.filter(
                |device: Device<Id>| allows_device(self@, device),
            ),
    {
        let ghost all = directory.devices@;
        let ghost wanted = |device: Device<Id>| allows_device(self@, device);
        let mut devices: Vec<Device<Id>> = Vec::new();
        let mut i: usize = 0;
        proof {
            lemma_filter_start(all, wanted);
        }
        while i < directory.devices.len()
            invariant
                i <= directory.devices.len(),
                all == directory.devices@,
                wanted == (|device: Device<Id>| allows_device(self@, device)),
                devices@ == all.take(i as int).filter(wanted),
            decreases directory.devices.len() - i,
        {
            let device: &Device<Id> = &directory.devices[i];
            proof {
                lemma_filter_next(all, i as int, wanted);
            }
            if device.device_type == DeviceType::Network && (self.rule.allow_all_network_devices
                || contains_id(&self.allowed_devices, device.id)) {
                devices.push(device.clone());
            }
            i = i + 1;
        }
        assert(all.take(i as int) =~= all);
        devices
    }

    /// All network devices that the rule denies, by name or together with all network devices.
    pub fn get_all_denied_devices(&self, directory: &Directory) -> (devices: Vec<Device<Id>>)
        ensures
            devices@ == directory.devices@.filter(|device: Device<Id>| denies_device(self@, device)),
    {
        let ghost all = directory.devices@;
        let ghost wanted = |device: Device<Id>| denies_device(self@, device);
        let mut devices: Vec<Device<Id>> = Vec::new();
        let mut i: usize = 0;
        proof {
            lemma_filter_start(all, wanted);
        }
        while i < directory.devices.len()
            invariant
                i <= directory.devices.len(),
                all == directory.devices@,
                wanted == (|device: Device<Id>| denies_device(self@, device)),
                devices@ == all.take(i as int).filter(wanted),
            decreases directory.devices.len() - i,
        {
            let device: &Device<Id> = &directory.devices[i];
            proof {
                lemma_filter_next(all, i as int, wanted);
            }
            if device.device_type == DeviceType::Network && (self.rule.deny_all_network_devices
                || contains_id(&self.denied_devices, device.id)) {
                devices.push(device.clone());
            }
            i = i + 1;
        }
        assert(all.take(i as int) =~= all);
        devices
    }
}

/// Whether the rule's traffic may come from the user: one who is allowed and not denied.
pub open spec fn is_source_user(info: AclRuleInfoView, directory: Directory, user_id: Id) -> bool {
    &&& has_user(directory.users@, user_id)
    &&& allows_user(info, directory, user_id)
    &&& !denies_user(info, directory, user_id)
}

/// Whether the rule's traffic may come from the device: one of a source user, or a network device
/// that is allowed and not denied.
pub open spec fn is_source_device(
    info: AclRuleInfoView,
    directory: Directory,
    device: Device<Id>,
) -> bool {
    match device.device_type {
        DeviceType::User => is_source_user(info, directory, device.user_id),
        DeviceType::Network => allows_device(info, device) && !denies_device(info, device),
    }
}

/// Whether the device has the address of the given version with number `x` in the location.
pub open spec fn has_addr(
    directory: Directory,
    location_id: Id,
    device_id: Id,
    version: IpVersion,
    x: int,
) -> bool {
    exists|i: int|
        0 <= i < directory.network_devices@.len()
            && (#[trigger] directory.network_devices@[i]).device_id == device_id
            && directory.network_devices@[i].wireguard_network_id == location_id && ip_set(
            directory.network_devices@[i].wireguard_ips@,
            version,
        ).contains(x)
}

/// The addresses of one version in the location that the given devices have, as numbers.
pub open spec fn device_addrs(
    directory: Directory,
    location_id: Id,
    devices: Seq<Device<Id>>,
    version: IpVersion,
) -> Set<int> {
    Set::new(
        |x: int|
            exists|i: int|
                0 <= i < devices.len() && has_addr(
                    directory,
                    location_id,
                    (#[trigger] devices[i]).id,
                    version,
                    x,
                ),
    )
}

/// The addresses of one version in the location that the rule's traffic may come from, as numbers.
pub open spec fn source_set(
    info: AclRuleInfoView,
    directory: Directory,
    location_id: Id,
    version: IpVersion,
) -> Set<int> {
    device_addrs(
        directory,
        location_id,
        directory.devices@.filter(|device: Device<Id>| is_source_device(info, directory, device)),
        version,
    )
}

/// The part of a rule's sources that are addresses of devices of one type.
pub open spec fn typed_source_set(
    info: AclRuleInfoView,
    directory: Directory,
    location_id: Id,
    device_type: DeviceType,
    version: IpVersion,
) -> Set<int> {
    device_addrs(
        directory,
        location_id,
        directory.devices@.filter(
            |device: Device<Id>|
                device.device_type == device_type && is_source_device(info, directory, device),
        ),
        version,
    )
}

proof fn lemma_ip_set_add(a: Seq<IpAddr>, b: Seq<IpAddr>, version: IpVersion)
    ensures
        ip_set(a + b, version) == ip_set(a, version).union(ip_set(b, version)),
{
    let all = a + b;
    assert forall|x: int| ip_set(a, version).contains(x) implies ip_set(all, version).contains(
        x,
    ) by {
        let i = choose|i: int|
            0 <= i < a.len() && (#[trigger] a[i]).ip_version() == version && a[i].value() == x;
        assert(all[i] == a[i]);
    }
    assert forall|x: int| ip_set(b, version).contains(x) implies ip_set(all, version).contains(
        x,
    ) by {
        let i = choose|i: int|
            0 <= i < b.len() && (#[trigger] b[i]).ip_version() == version && b[i].value() == x;
        assert(all[a.len() + i] == b[i]);
    }
    assert forall|x: int| ip_set(all, version).contains(x) implies ip_set(a, version).contains(x)
        || ip_set(b, version).contains(x) by {
        let i = choose|i: int|
            0 <= i < all.len() && (#[trigger] all[i]).ip_version() == version && all[i].value()
                == x;
        if i < a.len() {
            assert(a[i] == all[i]);
        } else {
            assert(b[i - a.len()] == all[i]);
        }
    }
    assert(ip_set(a + b, version) =~= ip_set(a, version).union(ip_set(b, version)));
}

fn push_device_ips(ips: &mut Vec<IpAddr>, directory: &Directory, location_id: Id, device_id: Id)
    ensures
        forall|version: IpVersion, x: int|
            #![trigger ip_set(final(ips)@, version).contains(x)]
            ip_set(final(ips)@, version).contains(x) <==> ip_set(old(ips)@, version).contains(x)
                || has_addr(*directory, location_id, device_id, version, x),
{
    let ghost before = ips@;
    let rows: &Vec<WireguardNetworkDevice> = &directory.network_devices;
    let mut i: usize = 0;
    while i < rows.len()
        invariant
            i <= rows.len(),
            rows == &directory.network_devices,
            forall|version: IpVersion, x: int|
                #![trigger ip_set(ips@, version).contains(x)]
                ip_set(ips@, version).contains(x) <==> ip_set(before, version).contains(x)
                    || exists|k: int|
                    0 <= k < i && (#[trigger] rows@[k]).device_id == device_id
                        && rows@[k].wireguard_network_id == location_id && ip_set(
                        rows@[k].wireguard_ips@,
                        version,
                    ).contains(x),
        decreases rows.len() - i,
    {
        let ghost so_far = ips@;
        if rows[i].device_id == device_id && rows[i].wireguard_network_id == location_id {
            push_all(ips, &rows[i].wireguard_ips);
            proof {
                lemma_ip_set_add(so_far, rows@[i as int].wireguard_ips@, IpVersion::Ipv4);
                lemma_ip_set_add(so_far, rows@[i as int].wireguard_ips@, IpVersion::Ipv6);
                assert forall|version: IpVersion, x: int|
                    #![trigger ip_set(ips@, version).contains(x)]
                    ip_set(ips@, version).contains(x) <==> ip_set(so_far, version).contains(x)
                        || ip_set(rows@[i as int].wireguard_ips@, version).contains(x) by {
                    match version {
                        IpVersion::Ipv4 => {},
                        IpVersion::Ipv6 => {},
                    }
                }
            }
        }
        i = i + 1;
    }
}

/// The addresses in the location of the devices of the given users.
pub fn get_user_device_ips(
    users: &[User<Id>],
    location_id: Id,
    directory: &Directory,
) -> (ips: Vec<IpAddr>)
    ensures
        forall|version: IpVersion| #[trigger]
            ip_set(ips@, version) == device_addrs(
                *directory,
                location_id,
                directory.devices@.filter(
                    |device: Device<Id>|
                        device.device_type == DeviceType::User && has_user(users@, device.user_id),
                ),
                version,
            ),
{
    let ghost all = directory.devices@;
    let ghost wanted = |device: Device<Id>|
        device.device_type == DeviceType::User && has_user(users@, device.user_id);
    let mut devices: Vec<Device<Id>> = Vec::new();
    let mut i: usize = 0;
    proof {
        lemma_filter_start(all, wanted);
    }
    while i < directory.devices.len()
        invariant
            i <= directory.devices.len(),
            all == directory.devices@,
            wanted == (|device: Device<Id>|
                device.device_type == DeviceType::User && has_user(users@, device.user_id)),
            devices@ == all.take(i as int).filter(wanted),
        decreases directory.devices.len() - i,
    {
        let device: &Device<Id> = &directory.devices[i];
        proof {
            lemma_filter_next(all, i as int, wanted);
        }
        if device.device_type == DeviceType::User && contains_user(users, device.user_id) {
            devices.push(device.clone());
        }
        i = i + 1;
    }
    assert(all.take(i as int) =~= all);
    get_network_device_ips(devices.as_slice(), location_id, directory)
}

/// The addresses in the location of the given devices.
pub fn get_network_device_ips(
    devices: &[Device<Id>],
    location_id: Id,
    directory: &Directory,
) -> (ips: Vec<IpAddr>)
    ensures
        forall|version: IpVersion| #[trigger]
            ip_set(ips@, version) == device_addrs(*directory, location_id, devices@, version),
{
    let mut ips: Vec<IpAddr> = Vec::new();
    let mut i: usize = 0;
    while i < devices.len()
        invariant
            i <= devices.len(),
            forall|version: IpVersion, x: int|
                #![trigger ip_set(ips@, version).contains(x)]
                ip_set(ips@, version).contains(x) <==> exists|k: int|
                    0 <= k < i && has_addr(
                        *directory,
                        location_id,
                        (#[trigger] devices@[k]).id,
                        version,
                        x,
                    ),
        decreases devices.len() - i,
    {
        push_device_ips(&mut ips, directory, location_id, devices[i].id);
        i = i + 1;
    }
    assert forall|version: IpVersion| #[trigger]
        ip_set(ips@, version) == device_addrs(*directory, location_id, devices@, version) by {
        assert(ip_set(ips@, version) =~= device_addrs(
            *directory,
            location_id,
            devices@,
            version,
        ));
    }
    ips
}

proof fn lemma_device_addrs(
    directory: Directory,
    location_id: Id,
    all: Seq<Device<Id>>,
    wanted: spec_fn(Device<Id>) -> bool,
    version: IpVersion,
    x: int,
)
    ensures
        device_addrs(directory, location_id, all.filter(wanted), version).contains(x) <==> exists|
            device: Device<Id>,
        | #[trigger]
            all.contains(device) && wanted(device) && has_addr(
                directory,
                location_id,
                device.id,
                version,
                x,
            ),
{
    let some = all.filter(wanted);
    if device_addrs(directory, location_id, some, version).contains(x) {
        let i = choose|i: int|
            0 <= i < some.len() && has_addr(
                directory,
                location_id,
                (#[trigger] some[i]).id,
                version,
                x,
            );
        assert(some.contains(some[i]));
        lemma_filter_holds(all, wanted, some[i]);
        assert(all.contains(some[i]));
    }
    if exists|device: Device<Id>| #[trigger]
        all.contains(device) && wanted(device) && has_addr(
            directory,
            location_id,
            device.id,
            version,
            x,
        ) {
        let device = choose|device: Device<Id>| #[trigger]
            all.contains(device) && wanted(device) && has_addr(
                directory,
                location_id,
                device.id,
                version,
                x,
            );
        lemma_filter_holds(all, wanted, device);
        let i = some.index_of(device);
        assert(some[i].id == device.id);
    }
}

proof fn lemma_source_users(
    info: AclRuleInfoView,
    directory: Directory,
    users: Seq<User<Id>>,
    denied: Seq<User<Id>>,
    id: Id,
)
    requires
        denied == directory.users@.filter(
            |user: User<Id>| denies_user(info, directory, user.id),
        ),
        users == directory.users@.filter(
            |user: User<Id>| allows_user(info, directory, user.id),
        ).filter(|user: User<Id>| !has_user(denied, user.id)),
    ensures
        has_user(users, id) <==> is_source_user(info, directory, id),
{
    let all = directory.users@;
    let allows = |user: User<Id>| allows_user(info, directory, user.id);
    let denies = |user: User<Id>| denies_user(info, directory, user.id);
    let spared = |user: User<Id>| !has_user(denied, user.id);
    let allowed = all.filter(allows);
    if has_user(users, id) {
        let i = choose|i: int| 0 <= i < users.len() && (#[trigger] users[i]).id == id;
        let user = users[i];
        assert(users.contains(user));
        lemma_filter_holds(allowed, spared, user);
        lemma_filter_holds(all, allows, user);
        let k = all.index_of(user);
        assert(all[k].id == id);
        if denies_user(info, directory, id) {
            lemma_filter_holds(all, denies, user);
            let d = denied.index_of(user);
            assert(denied[d].id == id);
        }
    }
    if is_source_user(info, directory, id) {
        let i = choose|i: int| 0 <= i < all.len() && (#[trigger] all[i]).id == id;
        let user = all[i];
        assert(all.contains(user));
        lemma_filter_holds(all, allows, user);
        if has_user(denied, id) {
            let d = choose|d: int| 0 <= d < denied.len() && (#[trigger] denied[d]).id == id;
            assert(denied.contains(denied[d]));
            lemma_filter_holds(all, denies, denied[d]);
        }
        lemma_filter_holds(allowed, spared, user);
        let k = users.index_of(user);
        assert(users[k].id == id);
    }
}

proof fn lemma_source_devices(
    info: AclRuleInfoView,
    directory: Directory,
    devices: Seq<Device<Id>>,
    denied: Seq<Device<Id>>,
    device: Device<Id>,
)
    requires
        denied == directory.devices@.filter(|device: Device<Id>| denies_device(info, device)),
        devices == directory.devices@.filter(
            |device: Device<Id>| allows_device(info, device),
        ).filter(|device: Device<Id>| !has_device(denied, device.id)),
    ensures
        devices.contains(device) <==> directory.devices@.contains(device) && allows_device(
            info,
            device,
        ) && !denies_device(info, device),
{
    let all = directory.devices@;
    let allows = |device: Device<Id>| allows_device(info, device);
    let denies = |device: Device<Id>| denies_device(info, device);
    let spared = |device: Device<Id>| !has_device(denied, device.id);
    lemma_filter_holds(all, allows, device);
    lemma_filter_holds(all.filter(allows), spared, device);
    lemma_filter_holds(all, denies, device);
    if all.contains(device) && denies_device(info, device) {
        let d = denied.index_of(device);
        assert(denied[d].id == device.id);
    }
    if has_device(denied, device.id) && allows_device(info, device) {
        let d = choose|d: int| 0 <= d < denied.len() && (#[trigger] denied[d]).id == device.id;
        assert(denied.contains(denied[d]));
        lemma_filter_holds(all, denies, denied[d]);
        assert(denies_device(info, device));
    }
}

impl<'a> AclRuleInfo<'a> {
    /// The addresses in the location that the rule's traffic may come from: those of the devices
    /// of its source users, and those of its source network devices.
    pub fn get_source_ips(&self, location_id: Id, directory: &Directory) -> (ips: (
        Vec<IpAddr>,
        Vec<IpAddr>,
    ))
        ensures
            forall|version: IpVersion| #[trigger]
                ip_set(ips.0@, version) == typed_source_set(
                    self@,
                    *directory,
                    location_id,
                    DeviceType::User,
                    version,
                ),
            forall|version: IpVersion| #[trigger]
                ip_set(ips.1@, version) == typed_source_set(
                    self@,
                    *directory,
                    location_id,
                    DeviceType::Network,
                    version,
                ),
            forall|version: IpVersion|
                ip_set(ips.0@ + ips.1@, version) == #[trigger] source_set(
                    self@,
                    *directory,
                    location_id,
                    version,
                ),
    {
        let allowed_users: Vec<User<Id>> = self.get_all_allowed_users(directory);
        let denied_users: Vec<User<Id>> = self.get_all_denied_users(directory);
        let users: Vec<User<Id>> = get_source_users(allowed_users, denied_users.as_slice());
        let user_device_ips: Vec<IpAddr> = get_user_device_ips(
            users.as_slice(),
            location_id,
            directory,
        );
        let allowed_devices: Vec<Device<Id>> = self.get_all_allowed_devices(directory);
        let denied_devices: Vec<Device<Id>> = self.get_all_denied_devices(directory);
        let devices: Vec<Device<Id>> = get_source_network_devices(
            allowed_devices,
            denied_devices.as_slice(),
        );
        let network_device_ips: Vec<IpAddr> = get_network_device_ips(
            devices.as_slice(),
            location_id,
            directory,
        );
        proof {
            lemma_source_ips(
                self@,
                *directory,
                location_id,
                users@,
                denied_users@,
                devices@,
                denied_devices@,
                user_device_ips@,
                network_device_ips@,
            );
        }
        (user_device_ips, network_device_ips)
    }
}

proof fn lemma_source_ips(
    info: AclRuleInfoView,
    directory: Directory,
    location_id: Id,
    users: Seq<User<Id>>,
    denied_users: Seq<User<Id>>,
    devices: Seq<Device<Id>>,
    denied_devices: Seq<Device<Id>>,
    user_ips: Seq<IpAddr>,
    device_ips: Seq<IpAddr>,
)
    requires
        denied_users == directory.users@.filter(
            |user: User<Id>| denies_user(info, directory, user.id),
        ),
        users == directory.users@.filter(
            |user: User<Id>| allows_user(info, directory, user.id),
        ).filter(|user: User<Id>| !has_user(denied_users, user.id)),
        denied_devices == directory.devices@.filter(
            |device: Device<Id>| denies_device(info, device),
        ),
        devices == directory.devices@.filter(
            |device: Device<Id>| allows_device(info, device),
        ).filter(|device: Device<Id>| !has_device(denied_devices, device.id)),
        forall|version: IpVersion| #[trigger]
            ip_set(user_ips, version) == device_addrs(
                directory,
                location_id,
                directory.devices@.filter(
                    |device: Device<Id>|
                        device.device_type == DeviceType::User && has_user(users, device.user_id),
                ),
                version,
            ),
        forall|version: IpVersion| #[trigger]
            ip_set(device_ips, version) == device_addrs(directory, location_id, devices, version),
    ensures
        forall|version: IpVersion| #[trigger]
            ip_set(user_ips, version) == typed_source_set(
                info,
                directory,
                location_id,
                DeviceType::User,
                version,
            ),
        forall|version: IpVersion| #[trigger]
            ip_set(device_ips, version) == typed_source_set(
                info,
                directory,
                location_id,
                DeviceType::Network,
                version,
            ),
        forall|version: IpVersion|
            ip_set(user_ips + device_ips, version) == #[trigger] source_set(
                info,
                directory,
                location_id,
                version,
            ),
{
    let all = directory.devices@;
    let of_users = |device: Device<Id>|
        device.device_type == DeviceType::User && has_user(users, device.user_id);
    let user_sources = |device: Device<Id>|
        device.device_type == DeviceType::User && is_source_device(info, directory, device);
    let network_sources = |device: Device<Id>|
        device.device_type == DeviceType::Network && is_source_device(info, directory, device);
    let sources = |device: Device<Id>| is_source_device(info, directory, device);
    assert(of_users =~= user_sources) by {
        assert forall|device: Device<Id>| #[trigger] of_users(device) == user_sources(device) by {
            lemma_source_users(info, directory, users, denied_users, device.user_id);
        }
    }
    assert forall|version: IpVersion| #[trigger]
        ip_set(device_ips, version) == typed_source_set(
            info,
            directory,
            location_id,
            DeviceType::Network,
            version,
        ) by {
        let found = device_addrs(directory, location_id, devices, version);
        let target = typed_source_set(info, directory, location_id, DeviceType::Network, version);
        assert forall|x: int| #[trigger] found.contains(x) <==> target.contains(x) by {
            lemma_device_addrs(directory, location_id, all, network_sources, version, x);
            if found.contains(x) {
                let i = choose|i: int|
                    0 <= i < devices.len() && has_addr(
                        directory,
                        location_id,
                        (#[trigger] devices[i]).id,
                        version,
                        x,
                    );
                assert(devices.contains(devices[i]));
                lemma_source_devices(info, directory, devices, denied_devices, devices[i]);
                assert(all.contains(devices[i]) && network_sources(devices[i]));
            }
            if target.contains(x) {
                let device = choose|device: Device<Id>| #[trigger]
                    all.contains(device) && network_sources(device) && has_addr(
                        directory,
                        location_id,
                        device.id,
                        version,
                        x,
                    );
                lemma_source_devices(info, directory, devices, denied_devices, device);
                let i = devices.index_of(device);
                assert(devices[i].id == device.id);
            }
        }
        assert(found =~= target);
    }
    assert forall|version: IpVersion|
        ip_set(user_ips + device_ips, version) == #[trigger] source_set(
            info,
            directory,
            location_id,
            version,
        ) by {
        lemma_ip_set_add(user_ips, device_ips, version);
        let target = source_set(info, directory, location_id, version);
        let from_users = ip_set(user_ips, version);
        let from_devices = ip_set(device_ips, version);
        assert forall|x: int| from_users.contains(x) || from_devices.contains(x)
            <==> #[trigger] target.contains(x) by {
            lemma_device_addrs(directory, location_id, all, user_sources, version, x);
            lemma_device_addrs(directory, location_id, all, network_sources, version, x);
            lemma_device_addrs(directory, location_id, all, sources, version, x);
            if target.contains(x) {
                let device = choose|device: Device<Id>| #[trigger]
                    all.contains(device) && sources(device) && has_addr(
                        directory,
                        location_id,
                        device.id,
                        version,
                        x,
                    );
                assert(user_sources(device) || network_sources(device));
            }
            if from_users.contains(x) {
                let device = choose|device: Device<Id>| #[trigger]
                    all.contains(device) && user_sources(device) && has_addr(
                        directory,
                        location_id,
                        device.id,
                        version,
                        x,
                    );
                assert(sources(device));
            }
            if from_devices.contains(x) {
                let device = choose|device: Device<Id>| #[trigger]
                    all.contains(device) && network_sources(device) && has_addr(
                        directory,
                        location_id,
                        device.id,
                        version,
                        x,
                    );
                assert(sources(device));
            }
        }
        assert(ip_set(user_ips + device_ips, version) =~= target);
    }
}

/// The sources of a rule are addresses.
pub(crate) proof fn lemma_source_set_in_width(
    info: AclRuleInfoView,
    directory: Directory,
    location_id: Id,
    version: IpVersion,
)
    ensures
        in_width(version.bits(), source_set(info, directory, location_id, version)),
{
    let rows = directory.network_devices@;
    let devices = directory.devices@.filter(
        |device: Device<Id>| is_source_device(info, directory, device),
    );
    assert forall|x: int| #[trigger]
        source_set(info, directory, location_id, version).contains(x) implies 0 <= x < pow2(
        version.bits(),
    ) by {
        let i = choose|i: int|
            0 <= i < devices.len() && has_addr(
                directory,
                location_id,
                (#[trigger] devices[i]).id,
                version,
                x,
            );
        let k = choose|k: int|
            0 <= k < rows.len() && (#[trigger] rows[k]).device_id == devices[i].id
                && rows[k].wireguard_network_id == location_id && ip_set(
                rows[k].wireguard_ips@,
                version,
            ).contains(x);
        lemma_ip_set_in_width(rows[k].wireguard_ips@, version);
    }
}

/// Every source address of a rule belongs, in the location, to a device that the rule allows and
/// does not deny: denial wins over permission, however either was given.
pub proof fn lemma_sources_are_allowed_and_not_denied(
    info: AclRuleInfoView,
    directory: Directory,
    location_id: Id,
    version: IpVersion,
    x: int,
)
    requires
        source_set(info, directory, location_id, version).contains(x),
    ensures
        exists|device: Device<Id>|
            {
                &&& #[trigger] directory.devices@.contains(device)
                &&& has_addr(directory, location_id, device.id, version, x)
                &&& device.device_type == DeviceType::User ==> allows_user(
                    info,
                    directory,
                    device.user_id,
                ) && !denies_user(info, directory, device.user_id)
                &&& device.device_type == DeviceType::Network ==> allows_device(info, device)
                    && !denies_device(info, device)
            },
{
    let sources = |device: Device<Id>| is_source_device(info, directory, device);
    lemma_device_addrs(directory, location_id, directory.devices@, sources, version, x);
    let device = choose|device: Device<Id>| #[trigger]
        directory.devices@.contains(device) && sources(device) && has_addr(
            directory,
            location_id,
            device.id,
            version,
            x,
        );
    assert(directory.devices@.contains(device));
}

/// A rule that denies all users and all network devices has no sources.
pub proof fn lemma_deny_all_leaves_no_sources(
    info: AclRuleInfoView,
    directory: Directory,
    location_id: Id,
    version: IpVersion,
)
    requires
        info.rule.deny_all_users,
        info.rule.deny_all_network_devices,
    ensures
        source_set(info, directory, location_id, version) == Set::<int>::empty(),
{
    let sources = source_set(info, directory, location_id, version);
    assert forall|x: int| !#[trigger] sources.contains(x) by {
        if sources.contains(x) {
            lemma_sources_are_allowed_and_not_denied(info, directory, location_id, version, x);
        }
    }
    assert(sources =~= Set::<int>::empty());
}

/// Whether a row ties the user to one of the groups.
pub open spec fn has_row_for(group_users: Seq<GroupUser>, user_id: Id, groups: Seq<Id>) -> bool {
    exists|row: int, k: int|
        {
            &&& 0 <= row < group_users.len()
            &&& 0 <= k < groups.len()
            &&& (#[trigger] group_users[row]).user_id == user_id
            &&& group_users[row].group_id == #[trigger] groups[k]
        }
}

proof fn lemma_row_for(group_users: Seq<GroupUser>, user_id: Id, groups: Seq<Id>)
    ensures
        in_groups(group_users, groups, user_id) <==> has_row_for(group_users, user_id, groups),
{
    if in_groups(group_users, groups, user_id) {
        let i = choose|i: int|
            0 <= i < group_users.len() && (#[trigger] group_users[i]).user_id == user_id
                && groups.contains(group_users[i].group_id);
        let k = groups.index_of(group_users[i].group_id);
        assert(group_users[i].group_id == groups[k]);
    }
    if has_row_for(group_users, user_id, groups) {
        let (row, k) = choose|row: int, k: int|
            {
                &&& 0 <= row < group_users.len()
                &&& 0 <= k < groups.len()
                &&& (#[trigger] group_users[row]).user_id == user_id
                &&& group_users[row].group_id == #[trigger] groups[k]
            };
        assert(groups.contains(groups[k]));
    }
}

/// The users whom a rule allows are those of the directory whom it names, those in a group that it
/// names, and all of them where it says so. The same goes for those whom it denies, whether they
/// are allowed or not.
pub proof fn lemma_users_are_named_or_grouped(
    info: AclRuleInfoView,
    directory: Directory,
    user: User<Id>,
)
    ensures
        directory.users@.filter(
            |user: User<Id>| allows_user(info, directory, user.id),
        ).contains(user) <==> directory.users@.contains(user) && (info.rule.allow_all_users
            || info.allowed_users.contains(user.id) || has_row_for(
            directory.group_users@,
            user.id,
            info.allowed_groups,
        )),
        directory.users@.filter(
            |user: User<Id>| denies_user(info, directory, user.id),
        ).contains(user) <==> directory.users@.contains(user) && (info.rule.deny_all_users
            || info.denied_users.contains(user.id) || has_row_for(
            directory.group_users@,
            user.id,
            info.denied_groups,
        )),
{
    lemma_row_for(directory.group_users@, user.id, info.allowed_groups);
    lemma_row_for(directory.group_users@, user.id, info.denied_groups);
    lemma_filter_holds(
        directory.users@,
        |user: User<Id>| allows_user(info, directory, user.id),
        user,
    );
    lemma_filter_holds(
        directory.users@,
        |user: User<Id>| denies_user(info, directory, user.id),
        user,
    );
}

/// The network devices that a rule allows are those of the directory that it names, and all of them
/// where it says so. The same goes for those that it denies, whether they are allowed or not.
/// Devices of users are never among them.
pub proof fn lemma_network_devices_are_named(
    info: AclRuleInfoView,
    directory: Directory,
    device: Device<Id>,
)
    ensures
        directory.devices@.filter(|device: Device<Id>| allows_device(info, device)).contains(device)
            <==> directory.devices@.contains(device) && device.device_type == DeviceType::Network
            && (info.rule.allow_all_network_devices || info.allowed_devices.contains(device.id)),
        directory.devices@.filter(|device: Device<Id>| denies_device(info, device)).contains(device)
            <==> directory.devices@.contains(device) && device.device_type == DeviceType::Network
            && (info.rule.deny_all_network_devices || info.denied_devices.contains(device.id)),
{
    lemma_filter_holds(
        directory.devices@,
        |device: Device<Id>| allows_device(info, device),
        device,
    );
    lemma_filter_holds(
        directory.devices@,
        |device: Device<Id>| denies_device(info, device),
        device,
    );
}

/// A user is a source just where they are among the allowed ones and nobody with their id is among
/// the denied ones.
pub proof fn lemma_source_users_are_told_by_id<D>(
    allowed: Seq<User<Id, D>>,
    denied: Seq<User<Id, D>>,
    user: User<Id, D>,
)
    ensures
        allowed.filter(|user: User<Id, D>| !has_user(denied, user.id)).contains(user)
            <==> allowed.contains(user) && forall|i: int|
            0 <= i < denied.len() ==> (#[trigger] denied[i]).id != user.id,
{
    lemma_filter_holds(allowed, |user: User<Id, D>| !has_user(denied, user.id), user);
}

/// A network device is a source just where it is among the allowed ones and none with its id is
/// among the denied ones.
pub proof fn lemma_source_devices_are_told_by_id<D>(
    allowed: Seq<Device<Id, D>>,
    denied: Seq<Device<Id, D>>,
    device: Device<Id, D>,
)
    ensures
        allowed.filter(|device: Device<Id, D>| !has_device(denied, device.id)).contains(device)
            <==> allowed.contains(device) && forall|i: int|
            0 <= i < denied.len() ==> (#[trigger] denied[i]).id != device.id,
{
    lemma_filter_holds(allowed, |device: Device<Id, D>| !has_device(denied, device.id), device);
}

/// Users behind a list of allowed ones are sources, behind those of the list, unless somebody with
/// their id is denied. So sources keep their order, and nobody is counted twice or left out.
pub proof fn lemma_source_users_go_one_by_one<D>(
    allowed: Seq<User<Id, D>>,
    denied: Seq<User<Id, D>>,
    user: User<Id, D>,
)
    ensures
        ({
            let spared = |user: User<Id, D>| !has_user(denied, user.id);
            allowed.push(user).filter(spared) == if exists|i: int|
                0 <= i < denied.len() && (#[trigger] denied[i]).id == user.id {
                allowed.filter(spared)
            } else {
                allowed.filter(spared).push(user)
            }
        }),
{
    reveal(Seq::filter);
    assert(allowed.push(user).drop_last() =~= allowed);
}

/// Network devices behind a list of allowed ones are sources, behind those of the list, unless one
/// with their id is denied. So sources keep their order, and none is counted twice or left out.
pub proof fn lemma_source_devices_go_one_by_one<D>(
    allowed: Seq<Device<Id, D>>,
    denied: Seq<Device<Id, D>>,
    device: Device<Id, D>,
)
    ensures
        ({
            let spared = |device: Device<Id, D>| !has_device(denied, device.id);
            allowed.push(device).filter(spared) == if exists|i: int|
                0 <= i < denied.len() && (#[trigger] denied[i]).id == device.id {
                allowed.filter(spared)
            } else {
                allowed.filter(spared).push(device)
            }
        }),
{
    reveal(Seq::filter);
    assert(allowed.push(device).drop_last() =~= allowed);
}

/// Whether a row gives the device the address of the version with number `x` in the location.
pub open spec fn has_ip(
    directory: Directory,
    location_id: Id,
    device_id: Id,
    version: IpVersion,
    x: int,
) -> bool {
    exists|row: int, k: int|
        {
            &&& 0 <= row < directory.network_devices@.len()
            &&& 0 <= k < directory.network_devices@[row].wireguard_ips@.len()
            &&& directory.network_devices@[row].device_id == device_id
            &&& directory.network_devices@[row].wireguard_network_id == location_id
            &&& #[trigger] is_number(directory.network_devices@[row].wireguard_ips@[k], version, x)
        }
}

proof fn lemma_has_ip(
    directory: Directory,
    location_id: Id,
    device_id: Id,
    version: IpVersion,
    x: int,
)
    ensures
        has_addr(directory, location_id, device_id, version, x) <==> has_ip(
            directory,
            location_id,
            device_id,
            version,
            x,
        ),
{
    let rows = directory.network_devices@;
    if has_addr(directory, location_id, device_id, version, x) {
        let row = choose|row: int|
            0 <= row < rows.len() && (#[trigger] rows[row]).device_id == device_id
                && rows[row].wireguard_network_id == location_id && ip_set(
                rows[row].wireguard_ips@,
                version,
            ).contains(x);
        let ips = rows[row].wireguard_ips@;
        let k = choose|k: int|
            0 <= k < ips.len() && (#[trigger] ips[k]).ip_version() == version && ips[k].value()
                == x;
        assert(is_number(rows[row].wireguard_ips@[k], version, x));
    }
    if has_ip(directory, location_id, device_id, version, x) {
        let (row, k) = choose|row: int, k: int|
            {
                &&& 0 <= row < directory.network_devices@.len()
                &&& 0 <= k < directory.network_devices@[row].wireguard_ips@.len()
                &&& directory.network_devices@[row].device_id == device_id
                &&& directory.network_devices@[row].wireguard_network_id == location_id
                &&& #[trigger] is_number(directory.network_devices@[row].wireguard_ips@[k], version, x)
            };
        let ips = rows[row].wireguard_ips@;
        assert(ips[k].ip_version() == version && ips[k].value() == x);
        assert(ip_set(rows[row].wireguard_ips@, version).contains(x));
        assert(rows[row].device_id == device_id);
    }
}

/// The addresses of devices are those that rows for the location give to one of them.
pub proof fn lemma_device_addresses_come_from_rows(
    directory: Directory,
    location_id: Id,
    devices: Seq<Device<Id>>,
    version: IpVersion,
    x: int,
)
    ensures
        device_addrs(directory, location_id, devices, version).contains(x) <==> exists|i: int|
            0 <= i < devices.len() && has_ip(
                directory,
                location_id,
                (#[trigger] devices[i]).id,
                version,
                x,
            ),
{
    assert forall|i: int| 0 <= i < devices.len() implies has_addr(
        directory,
        location_id,
        (#[trigger] devices[i]).id,
        version,
        x,
    ) == has_ip(directory, location_id, devices[i].id, version, x) by {
        lemma_has_ip(directory, location_id, devices[i].id, version, x);
    }
    if device_addrs(directory, location_id, devices, version).contains(x) {
        let i = choose|i: int|
            0 <= i < devices.len() && has_addr(
                directory,
                location_id,
                (#[trigger] devices[i]).id,
                version,
                x,
            );
        assert(has_ip(directory, location_id, devices[i].id, version, x));
    }
}

/// Whether traffic of the rule may come from the device, told by the records. A device of a user
/// may send where the user is known, the rule names them, a group of theirs or all users among the
/// allowed, and it names neither them, nor a group of theirs, nor all users among the denied. A
/// network device may send where the rule names it, or all network devices, among the allowed and
/// not among the denied.
pub open spec fn device_may_send(
    info: AclRuleInfoView,
    directory: Directory,
    device: Device<Id>,
) -> bool {
    let user_id = device.user_id;
    match device.device_type {
        DeviceType::User => {
            &&& exists|i: int|
                0 <= i < directory.users@.len() && (#[trigger] directory.users@[i]).id == user_id
            &&& info.rule.allow_all_users || info.allowed_users.contains(user_id) || has_row_for(
                directory.group_users@,
                user_id,
                info.allowed_groups,
            )
            &&& !info.rule.deny_all_users
            &&& !info.denied_users.contains(user_id)
            &&& !has_row_for(directory.group_users@, user_id, info.denied_groups)
        },
        DeviceType::Network => {
            &&& info.rule.allow_all_network_devices || info.allowed_devices.contains(device.id)
            &&& !info.rule.deny_all_network_devices
            &&& !info.denied_devices.contains(device.id)
        },
    }
}

/// Whether traffic of the rule may come from the address of the version with number `x`: some
/// device that may send has it in the location.
pub open spec fn may_send(
    info: AclRuleInfoView,
    directory: Directory,
    location_id: Id,
    version: IpVersion,
    x: int,
) -> bool {
    exists|i: int|
        0 <= i < directory.devices@.len() && device_may_send(
            info,
            directory,
            #[trigger] directory.devices@[i],
        ) && has_ip(directory, location_id, directory.devices@[i].id, version, x)
}

proof fn lemma_device_may_send(
    info: AclRuleInfoView,
    directory: Directory,
    device: Device<Id>,
)
    ensures
        is_source_device(info, directory, device) <==> device_may_send(info, directory, device),
{
    lemma_row_for(directory.group_users@, device.user_id, info.allowed_groups);
    lemma_row_for(directory.group_users@, device.user_id, info.denied_groups);
}

/// The sources of a rule are the addresses that, by the records, its traffic may come from: all of
/// them, and no others.
pub proof fn lemma_sources_are_told_by_the_records(
    info: AclRuleInfoView,
    directory: Directory,
    location_id: Id,
    version: IpVersion,
)
    ensures
        source_set(info, directory, location_id, version) == Set::new(
            |x: int| may_send(info, directory, location_id, version, x),
        ),
{
    let all = directory.devices@;
    let sources = |device: Device<Id>| is_source_device(info, directory, device);
    let set = source_set(info, directory, location_id, version);
    assert forall|x: int| #[trigger] set.contains(x) <==> may_send(
        info,
        directory,
        location_id,
        version,
        x,
    ) by {
        lemma_device_addrs(directory, location_id, all, sources, version, x);
        if set.contains(x) {
            let device = choose|device: Device<Id>| #[trigger]
                all.contains(device) && sources(device) && has_addr(
                    directory,
                    location_id,
                    device.id,
                    version,
                    x,
                );
            let i = all.index_of(device);
            lemma_device_may_send(info, directory, device);
            lemma_has_ip(directory, location_id, device.id, version, x);
            assert(device_may_send(info, directory, directory.devices@[i]));
        }
        if may_send(info, directory, location_id, version, x) {
            let i = choose|i: int|
                0 <= i < directory.devices@.len() && device_may_send(
                    info,
                    directory,
                    #[trigger] directory.devices@[i],
                ) && has_ip(directory, location_id, directory.devices@[i].id, version, x);
            lemma_device_may_send(info, directory, all[i]);
            lemma_has_ip(directory, location_id, all[i].id, version, x);
            assert(all.contains(all[i]) && sources(all[i]));
        }
    }
    assert(set =~= Set::new(|x: int| may_send(info, directory, location_id, version, x)));
}

/// The sources of one type of device are the addresses that devices of that type, which may send by
/// the records, have in the location.
pub proof fn lemma_sources_of_a_type(
    info: AclRuleInfoView,
    directory: Directory,
    location_id: Id,
    device_type: DeviceType,
    version: IpVersion,
    x: int,
)
    ensures
        typed_source_set(info, directory, location_id, device_type, version).contains(x)
            <==> exists|i: int|
            0 <= i < directory.devices@.len() && (#[trigger] directory.devices@[i]).device_type
                == device_type && device_may_send(info, directory, directory.devices@[i]) && has_ip(
                directory,
                location_id,
                directory.devices@[i].id,
                version,
                x,
            ),
{
    let all = directory.devices@;
    let sources = |device: Device<Id>|
        device.device_type == device_type && is_source_device(info, directory, device);
    lemma_device_addrs(directory, location_id, all, sources, version, x);
    if typed_source_set(info, directory, location_id, device_type, version).contains(x) {
        let device = choose|device: Device<Id>| #[trigger]
            all.contains(device) && sources(device) && has_addr(
                directory,
                location_id,
                device.id,
                version,
                x,
            );
        let i = all.index_of(device);
        lemma_device_may_send(info, directory, device);
        lemma_has_ip(directory, location_id, device.id, version, x);
        assert(directory.devices@[i].device_type == device_type);
    }
    if exists|i: int|
        0 <= i < directory.devices@.len() && (#[trigger] directory.devices@[i]).device_type
            == device_type && device_may_send(info, directory, directory.devices@[i]) && has_ip(
            directory,
            location_id,
            directory.devices@[i].id,
            version,
            x,
        ) {
        let i = choose|i: int|
            0 <= i < directory.devices@.len() && (#[trigger] directory.devices@[i]).device_type
                == device_type && device_may_send(info, directory, directory.devices@[i]) && has_ip(
                directory,
                location_id,
                directory.devices@[i].id,
                version,
                x,
            );
        lemma_device_may_send(info, directory, all[i]);
        lemma_has_ip(directory, location_id, all[i].id, version, x);
        assert(all.contains(all[i]) && sources(all[i]));
    }
}

/// A user who is in a group that the rule denies, or whom the rule denies by name or together with
/// all users, sends nothing: no device of theirs is a source, and an address that only devices of
/// such users have in the location is none either. It does not matter by what means the rule allows
/// the user.
pub proof fn lemma_denied_users_send_nothing(
    info: AclRuleInfoView,
    directory: Directory,
    location_id: Id,
    version: IpVersion,
    user_id: Id,
    x: int,
)
    requires
        info.rule.deny_all_users || info.denied_users.contains(user_id) || exists|row: int|
            0 <= row < directory.group_users@.len() && (
            #[trigger] directory.group_users@[row]).user_id == user_id
                && info.denied_groups.contains(directory.group_users@[row].group_id),
        forall|i: int|
            0 <= i < directory.devices@.len() && has_ip(
                directory,
                location_id,
                (#[trigger] directory.devices@[i]).id,
                version,
                x,
            ) ==> directory.devices@[i].device_type == DeviceType::User
                && directory.devices@[i].user_id == user_id,
    ensures
        !source_set(info, directory, location_id, version).contains(x),
        forall|device: Device<Id>|
            device.device_type == DeviceType::User && device.user_id == user_id
                ==> !#[trigger] is_source_device(info, directory, device),
{
    lemma_sources_are_told_by_the_records(info, directory, location_id, version);
    lemma_denied_user_is_denied(info, directory, user_id);
    assert forall|device: Device<Id>|
        device.device_type == DeviceType::User && device.user_id
            == user_id implies !#[trigger] is_source_device(info, directory, device) by {
        lemma_device_may_send(info, directory, device);
    }
    if may_send(info, directory, location_id, version, x) {
        let i = choose|i: int|
            0 <= i < directory.devices@.len() && device_may_send(
                info,
                directory,
                #[trigger] directory.devices@[i],
            ) && has_ip(directory, location_id, directory.devices@[i].id, version, x);
        assert(directory.devices@[i].user_id == user_id);
    }
}

proof fn lemma_denied_user_is_denied(info: AclRuleInfoView, directory: Directory, user_id: Id)
    requires
        info.rule.deny_all_users || info.denied_users.contains(user_id) || exists|row: int|
            0 <= row < directory.group_users@.len() && (
            #[trigger] directory.group_users@[row]).user_id == user_id
                && info.denied_groups.contains(directory.group_users@[row].group_id),
    ensures
        info.rule.deny_all_users || info.denied_users.contains(user_id) || has_row_for(
            directory.group_users@,
            user_id,
            info.denied_groups,
        ),
{
    if !info.rule.deny_all_users && !info.denied_users.contains(user_id) {
        let row = choose|row: int|
            0 <= row < directory.group_users@.len() && (
            #[trigger] directory.group_users@[row]).user_id == user_id
                && info.denied_groups.contains(directory.group_users@[row].group_id);
        let k = info.denied_groups.index_of(directory.group_users@[row].group_id);
        assert(directory.group_users@[row].group_id == info.denied_groups[k]);
    }
}

} // verus!
