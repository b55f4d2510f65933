//! DNS lookup backend: a TXT record lookup and a reverse (PTR) lookup, each
//! translating the outcome of a resolver query into a list of record strings
//! or one of three fixed error messages.
//!
//! The address parser accepts exactly the IPv4 and IPv6 literal grammar and is
//! verified against a specification of that grammar; the resolver queries go
//! through a small set of trusted wrappers around `trust_dns_resolver`.

pub mod dns;
pub mod ip;
