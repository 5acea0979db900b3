//! What is read out of a fetched document, and the bucket entry it yields.
use vstd::prelude::*;

use crate::bucket::{bucket_key, bucket_key_of};

verus! {

/// The inner markup of the first `<main>` element in the parsed document's
/// tree order, if there is one.
pub uninterp spec fn html_main(html: Seq<char>) -> Option<Seq<char>>;

/// The `href` values of the parsed document's `<a>` elements, in the order
/// in which the parser created them.
pub uninterp spec fn html_hrefs(html: Seq<char>) -> Seq<Seq<char>>;

/// Relies on `scraper`: `Html::parse_document`, then the first match of the
/// selector `main`, and its `inner_html`.
#[verifier::external_body]
fn main_region(html: &str) -> (r: Option<String>)
    ensures
        crate::address::opt_view(r) == html_main(html@),
{
    let document = scraper::Html::parse_document(html);
    let selector = scraper::Selector::parse("main").unwrap();
    document.select(&selector).next().map(|e| e.inner_html())
}

/// Relies on `scraper`: `Html::parse_document`, then every match of the
/// selector `a[href]` in the order of the parsed tree, and its `href`
/// attribute.
#[verifier::external_body]
pub(crate) fn link_targets(html: &str) -> (r: Vec<String>)
    ensures
        crate::bucket::views(r@) == html_hrefs(html@),
{
    let document = scraper::Html::parse_document(html);
    let selector = scraper::Selector::parse("a[href]").unwrap();
    document.select(&selector).filter_map(|e| e.value().attr("href")).map(String::from).collect()
}

/// Text that opens each entry of a bucket, before the page's address.
pub const ENTRY_OPEN: &'static str = "\n\n========================================\nURL: ";

/// Text that closes an entry's header, after the page's address.
pub const ENTRY_CLOSE: &'static str = "\n========================================\n";

/// What one page adds to the output: the bucket it goes to and the text
/// appended there.
pub struct BucketEntry {
    pub key: String,
    pub text: String,
}

/// The text of a bucket entry: a separator line, a line naming the source
/// address, another separator line, then the page's main content.
pub open spec fn entry_text_of(address: Seq<char>, content: Seq<char>) -> Seq<char> {
    ENTRY_OPEN@ + address + ENTRY_CLOSE@ + content
}

/// The bucket entry for main content `content` found at `address`.
pub fn bucket_entry(address: &str, content: &str) -> (r: BucketEntry)
    ensures
        r.key@ == bucket_key_of(address@),
        r.text@ == entry_text_of(address@, content@),
{
    let key = bucket_key(address);
    let mut text = String::from_str(ENTRY_OPEN);
    text.append(address);
    text.append(ENTRY_CLOSE);
    text.append(content);
    BucketEntry { key, text }
}

/// The bucket entry for the document `html` fetched from `address`, or
/// `None` where the document has no main content region.
pub fn page_entry(address: &str, html: &str) -> (r: Option<BucketEntry>)
    ensures
        r is Some <==> html_main(html@) is Some,
        r is Some ==> r->0.key@ == bucket_key_of(address@) && r->0.text@ == entry_text_of(
            address@,
            html_main(html@)->0,
        ),
{
    match main_region(html) {
        Some(content) => Some(bucket_entry(address, content.as_str())),
        None => None,
    }
}

} // verus!
