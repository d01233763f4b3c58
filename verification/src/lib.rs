//! Access control for VPN locations: who may reach what, and the firewall that follows from it.

use vstd::prelude::*;

pub mod acl;
pub mod addresses;
pub mod authentication_key;
pub mod firewall;
pub mod guarantees;
pub mod ip;
pub mod ldap;
mod lists;
pub mod ports;
pub mod proto;
pub mod protocols;
pub mod ranges;
pub mod sources;
pub mod subnets;
pub mod targets;
pub mod text;

verus! {

/// The key of a record that has been saved.
pub type Id = i64;

/// Stands in for the key of a record that has not been saved yet.
#[derive(Clone, Copy, Debug, PartialEq, Eq, Structural)]
pub struct NoId;

} // verus!
