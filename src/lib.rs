//! Verified core of an external-DNS webhook: the record model and its
//! identity, change sets and their reconciliation into a record set, the
//! domain filter, media-type negotiation and request routing, and the
//! dnsmasq configuration format.
pub mod changes;
pub mod dnsmasq;
pub mod domain_filter;
pub mod endpoint;
pub mod reconcile;
pub mod text;
pub mod webhook;
