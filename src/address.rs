//! Address normalisation: resolving link text against a base address,
//! clearing fragments and comparing domains. Addresses are held as their
//! canonical serialisation.
use vstd::prelude::*;

verus! {

/// The character sequence inside an optional string.
pub open spec fn opt_view(o: Option<String>) -> Option<Seq<char>> {
    match o {
        Some(s) => Some(s@),
        None => None,
    }
}

/// The serialisation of `s` parsed as an absolute address, if it is one.
pub uninterp spec fn url_parsed(s: Seq<char>) -> Option<Seq<char>>;

/// The serialisation of `href` resolved against the address `base`, if that
/// resolution succeeds.
pub uninterp spec fn url_joined(base: Seq<char>, href: Seq<char>) -> Option<Seq<char>>;

/// The serialisation of `address` once its fragment is cleared.
pub uninterp spec fn fragment_cleared(address: Seq<char>) -> Seq<char>;

/// The host of `address` as it is serialised (a domain name or an IP
/// address), if it has one.
pub uninterp spec fn url_host(address: Seq<char>) -> Option<Seq<char>>;

/// Relies on `url::Url::parse`: the canonical form of an absolute address,
/// or nothing where the text is no valid address.
#[verifier::external_body]
fn parse_url(s: &str) -> (r: Option<String>)
    ensures
        opt_view(r) == url_parsed(s@),
{
    url::Url::parse(s).ok().map(String::from)
}

/// Relies on `url::Url::join`: standard resolution of a possibly relative
/// reference against a base address (the base is first read back into a
/// `Url` from its serialisation).
#[verifier::external_body]
fn join_url(base: &str, href: &str) -> (r: Option<String>)
    ensures
        opt_view(r) == url_joined(base@, href@),
{
    match url::Url::parse(base) {
        Ok(b) => b.join(href).ok().map(String::from),
        Err(_) => None,
    }
}

/// Relies on `url::Url::set_fragment` with `None`: the address without its
/// fragment.
#[verifier::external_body]
fn clear_fragment(address: &str) -> (r: String)
    ensures
        r@ == fragment_cleared(address@),
{
    match url::Url::parse(address) {
        Ok(mut u) => {
            u.set_fragment(None);
            u.into()
        },
        Err(_) => address.to_string(),
    }
}

/// Relies on `url::Url::host_str`: the host of an address as text, be it a
/// domain name or an IP address; nothing for an address without a host.
#[verifier::external_body]
fn host_of(address: &str) -> (r: Option<String>)
    ensures
        opt_view(r) == url_host(address@),
{
    match url::Url::parse(address) {
        Ok(u) => u.host_str().map(String::from),
        Err(_) => None,
    }
}

/// What resolving `href` against `base` gives: the joined address with its
/// fragment cleared, or nothing when the link text does not resolve.
pub open spec fn resolved(base: Seq<char>, href: Seq<char>) -> Option<Seq<char>> {
    match url_joined(base, href) {
        Some(t) => Some(fragment_cleared(t)),
        None => None,
    }
}

/// Whether two addresses have the same host.
pub open spec fn same_domain_spec(a: Seq<char>, b: Seq<char>) -> bool {
    url_host(a) == url_host(b)
}

/// The canonical form of a start address: parsed, then without fragment.
pub open spec fn canonical_of(s: Seq<char>) -> Option<Seq<char>> {
    match url_parsed(s) {
        Some(t) => Some(fragment_cleared(t)),
        None => None,
    }
}

/// The canonical form of a configured start address, with its fragment
/// cleared, or `None` when the text is not a valid absolute address.
pub fn canonical(s: &str) -> (r: Option<String>)
    ensures
        opt_view(r) == canonical_of(s@),
{
    match parse_url(s) {
        Some(t) => Some(clear_fragment(t.as_str())),
        None => None,
    }
}

/// Resolves the link text `href` against `base` and clears its fragment;
/// `None` where the link text does not resolve.
pub fn resolve(base: &str, href: &str) -> (r: Option<String>)
    ensures
        opt_view(r) == resolved(base@, href@),
{
    match join_url(base, href) {
        Some(t) => Some(clear_fragment(t.as_str())),
        None => None,
    }
}

/// Whether two addresses have the same host; two addresses without a host
/// count as the same.
pub fn same_domain(a: &str, b: &str) -> (r: bool)
    ensures
        r == same_domain_spec(a@, b@),
{
    let da = host_of(a);
    let db = host_of(b);
    match (da, db) {
        (Some(x), Some(y)) => x == y,
        (None, None) => true,
        _ => false,
    }
}

} // verus!
