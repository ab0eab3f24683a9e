//! Access control for a vault of secrets kept as a directory tree.
//!
//! Two things are decided here. Which secrets an ordered list of allow and
//! deny rules opens to a user ([`access`], [`rules`], [`glob`]), and under
//! which DNS-1035 label a secret's path is known to Kubernetes ([`dns1035`]).
//! Around them stand the text of a rule file ([`rule_file`]), the order of
//! paths and names ([`order`]), the secrets of a list under their names
//! ([`listing`]) and the names that the manifests carry ([`manifest`]).

pub mod access;
pub mod dns1035;
pub mod glob;
pub mod listing;
pub mod manifest;
pub mod order;
pub mod rule_file;
pub mod rules;
pub mod text;

pub use access::get_access_control_list;
pub use dns1035::enforce_dns1035_format;
