//! The two lookup operations.
//!
//! Each call constructs a fresh resolver with the default nameserver
//! configuration, issues one query through it, and translates the outcome
//! into either the full list of record strings or one of three fixed error
//! messages. The queries themselves go through trusted wrappers around
//! `trust_dns_resolver`; everything a query outcome determines is computed
//! and verified here.

use crate::ip::{parse_ip, spec_parse_ip, IpAddress};
use trust_dns_resolver::config::ResolverConfig;
use trust_dns_resolver::config::ResolverOpts;
use trust_dns_resolver::Resolver;
use vstd::prelude::*;

verus! {

#[verifier::external_type_specification]
#[verifier::external_body]
pub struct ExResolver(Resolver);

/// The fixed message reported when the TXT query fails for any reason.
pub open spec fn txt_error_message() -> Seq<char> {
    "Could not find any TXT records!"@
}

/// The fixed message reported when the address does not parse.
pub open spec fn parse_error_message() -> Seq<char> {
    "IP address could not be parsed!"@
}

/// The fixed message reported when the PTR query fails for any reason.
pub open spec fn reverse_error_message() -> Seq<char> {
    "Reverse lookup failed!"@
}

/// Relies on `trust_dns_resolver::Resolver::new` with the default nameserver
/// configuration and default options; construction can fail with an I/O
/// error, reported here as `None`.
#[verifier::external_body]
fn new_resolver() -> Option<Resolver> {
    match Resolver::new(ResolverConfig::default(), ResolverOpts::default()) {
        Ok(resolver) => Some(resolver),
        Err(_) => None,
    }
}

/// Relies on `trust_dns_resolver::Resolver::txt_lookup`: queries the TXT
/// records of the hostname and renders each record with its `Display` form.
/// The outcome depends on the network, so nothing is promised of it; the
/// caller states what holds of every outcome.
#[verifier::external_body]
fn txt_query(resolver: &Resolver, hostname: &str) -> Option<Vec<String>> {
    match resolver.txt_lookup(hostname) {
        Ok(response) => Some(response.iter().map(|record| record.to_string()).collect()),
        Err(_) => None,
    }
}

/// Relies on `trust_dns_resolver::Resolver::reverse_lookup`: queries the PTR
/// records of the address, handed over by its big-endian bytes, and renders
/// each resolved name with its `Display` form. The outcome depends on the
/// network, so nothing is promised of it.
#[verifier::external_body]
fn ptr_query(resolver: &Resolver, ip: &IpAddress) -> Option<Vec<String>> {
    let query = match ip {
        IpAddress::V4(v) => (*v).to_be_bytes().into(),
        IpAddress::V6(v) => (*v).to_be_bytes().into(),
    };
    match resolver.reverse_lookup(query) {
        Ok(response) => Some(response.iter().map(|name| name.to_string()).collect()),
        Err(_) => None,
    }
}

/// Translates the outcome of the TXT query: the records exactly as the
/// resolver returned them, in order, or the fixed TXT error message.
pub fn txt_outcome(records: Option<Vec<String>>) -> (r: Result<Vec<String>, String>)
    ensures
        records matches Some(v) ==> r == Ok::<Vec<String>, String>(v),
        records is None ==> (r matches Err(m) && m@ == txt_error_message()),
{
    match records {
        Some(v) => Ok(v),
        None => Err("Could not find any TXT records!".to_owned()),
    }
}

/// Translates the outcome of the PTR query: the hostnames exactly as the
/// resolver returned them, in order, or the fixed reverse error message.
pub fn reverse_outcome(records: Option<Vec<String>>) -> (r: Result<Vec<String>, String>)
    ensures
        records matches Some(v) ==> r == Ok::<Vec<String>, String>(v),
        records is None ==> (r matches Err(m) && m@ == reverse_error_message()),
{
    match records {
        Some(v) => Ok(v),
        None => Err("Reverse lookup failed!".to_owned()),
    }
}

/// TXT record lookup: a fresh resolver with default configuration queries
/// the hostname's TXT records and every record string is returned in
/// resolver order. Every failure — of the query, for any reason, or of the
/// resolver's construction — collapses into the one fixed message.
pub fn dns_lookup_txt(hostname: String) -> (r: Result<Vec<String>, String>)
    ensures
        r matches Err(m) ==> m@ == txt_error_message(),
{
    let resolver = match new_resolver() {
        Some(resolver) => resolver,
        None => {
            return Err("Could not find any TXT records!".to_owned());
        },
    };
    let records = txt_query(&resolver, hostname.as_str());
    txt_outcome(records)
}

/// Reverse lookup: the textual address is parsed first, and an address that
/// is no IPv4 or IPv6 literal is rejected with its own fixed message before
/// any query is made. Otherwise a fresh resolver queries the PTR records and
/// every resolved hostname is returned in resolver order; every query
/// failure — for any reason, including a resolver that cannot be
/// constructed — collapses into the one fixed reverse message.
pub fn dns_lookup_reverse(ip_addr: String) -> (r: Result<Vec<String>, String>)
    ensures
        spec_parse_ip(ip_addr@) is None <==> (r matches Err(m) && m@ == parse_error_message()),
        spec_parse_ip(ip_addr@) is Some ==> r is Ok || (r matches Err(m) && m@
            == reverse_error_message()),
{
    proof {
        lemma_error_messages_distinct();
    }
    let parsed = parse_ip(ip_addr.as_str());
    match parsed {
        None => Err("IP address could not be parsed!".to_owned()),
        Some(addr) => {
            let resolver = match new_resolver() {
                Some(resolver) => resolver,
                None => {
                    return Err("Reverse lookup failed!".to_owned());
                },
            };
            let records = ptr_query(&resolver, &addr);
            reverse_outcome(records)
        },
    }
}

/// The three user-visible error messages are pairwise distinct, so a caller
/// can tell a rejected address, a failed reverse query and a failed TXT
/// query apart by the message alone.
pub proof fn lemma_error_messages_distinct()
    ensures
        txt_error_message() != parse_error_message(),
        txt_error_message() != reverse_error_message(),
        parse_error_message() != reverse_error_message(),
{
    reveal_strlit("Could not find any TXT records!");
    reveal_strlit("IP address could not be parsed!");
    reveal_strlit("Reverse lookup failed!");
    assert(txt_error_message()[0] == 'C');
    assert(parse_error_message()[0] == 'I');
    assert(txt_error_message().len() == 31);
    assert(reverse_error_message().len() == 22);
}

/// Both operations are stateless: nothing is kept between calls, and whether
/// the reverse lookup rejects its input is a function of the input string
/// alone, so two calls with identical input are accepted or rejected alike.
/// (That each accepted call issues its own fresh query is a matter of
/// effects, outside what contracts state.)
pub proof fn lemma_rejection_depends_on_input_alone(first: Seq<char>, second: Seq<char>)
    requires
        first == second,
    ensures
        spec_parse_ip(first) == spec_parse_ip(second),
{
}

} // verus!
