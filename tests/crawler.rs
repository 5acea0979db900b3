use web_crawler::address::{canonical, resolve, same_domain};
use web_crawler::bucket::{bucket_key, join_first, split_segments, strip_scheme};
use web_crawler::default_max_depth;
use web_crawler::engine::{dedup_seeds, is_success, seed_addresses, CrawlTask, Crawler};
use web_crawler::links::{extract_links, links_from_hrefs};
use web_crawler::order::{str_equal, str_less};
use web_crawler::page::{bucket_entry, page_entry};
use web_crawler::visited::VisitedSet;

fn strings(v: &[&str]) -> Vec<String> {
    v.iter().map(|s| s.to_string()).collect()
}

fn separator() -> String {
    "=".repeat(40)
}

#[test]
fn default_depth_is_five() {
    assert_eq!(default_max_depth(), 5);
}

#[test]
fn deep_paths_share_a_bucket() {
    let a = bucket_key("https://a.example/p/q/r/s");
    let b = bucket_key("https://a.example/p/q/r/t");
    assert_eq!(a, "a.example_p_q");
    assert_eq!(a, b);
}

#[test]
fn short_path_has_its_own_bucket() {
    let short = bucket_key("https://a.example/p");
    assert_eq!(short, "a.example_p");
    assert_ne!(short, bucket_key("https://a.example/p/q/r/s"));
    assert_ne!(short, bucket_key("https://a.example/p/q"));
}

#[test]
fn bucket_key_keeps_all_segments_up_to_three() {
    assert_eq!(bucket_key("https://a.example/p/q"), "a.example_p_q");
    assert_eq!(bucket_key("http://example.com"), "example.com");
    assert_eq!(bucket_key("https://example.com/"), "example.com");
}

#[test]
fn bucket_key_splits_on_every_other_character() {
    assert_eq!(bucket_key("https://a.example/x_y"), "a.example_x_y");
    assert_eq!(bucket_key("https://a.example/?q=1"), "a.example_q_1");
    assert_eq!(bucket_key("https://a.example//x--y/z"), "a.example_x_y");
}

#[test]
fn bucket_key_removes_only_the_leading_scheme() {
    assert_eq!(bucket_key("https://a.example/?http://b"), "a.example_http_b");
    assert_eq!(bucket_key("https://a.example/?u=http://b.example"), "a.example_u_http");
    assert_eq!(bucket_key("ftp://a.example/p"), "a.example_p");
    assert_eq!(bucket_key("example.com/x"), "example.com_x");
    assert_eq!(strip_scheme("mailto:me@a.example"), "me@a.example");
    assert_eq!(strip_scheme("://x"), "://x");
}

#[test]
fn bucket_key_keeps_unicode_letters() {
    assert_eq!(bucket_key("https://a.example/caf\u{e9}/x"), "a.example_caf\u{e9}_x");
}

#[test]
fn bucket_key_of_empty_address_is_empty() {
    assert_eq!(bucket_key(""), "");
    assert_eq!(bucket_key("https://"), "");
}

#[test]
fn segments_and_join() {
    let segs = split_segments("__a.b__c_d_");
    assert_eq!(segs, strings(&["a.b", "c", "d"]));
    assert_eq!(join_first(&segs, 2), "a.b_c");
    assert_eq!(join_first(&segs, 0), "");
}

#[test]
fn entry_text_has_header_and_content() {
    let e = bucket_entry("https://x.test/a", "Hello");
    assert_eq!(e.key, "x.test_a");
    let expected = format!("\n\n{}\nURL: https://x.test/a\n{}\nHello", separator(), separator());
    assert_eq!(e.text, expected);
}

#[test]
fn page_without_main_gives_no_entry() {
    assert!(page_entry("https://x.test/b", "<html><body><p>none</p></body></html>").is_none());
}

#[test]
fn page_with_main_gives_its_inner_markup() {
    let e = page_entry("https://x.test/a", "<html><body><main><p>Hi</p></main><main>2</main></body></html>")
        .unwrap();
    assert_eq!(e.key, "x.test_a");
    assert!(e.text.ends_with("\n<p>Hi</p>"));
}

#[test]
fn resolve_relative_and_clears_fragment() {
    assert_eq!(resolve("https://x.test/a", "/b#part"), Some("https://x.test/b".to_string()));
    assert_eq!(resolve("https://x.test/d/a", "c"), Some("https://x.test/d/c".to_string()));
    assert_eq!(resolve("https://x.test/a", "#top"), Some("https://x.test/a".to_string()));
}

#[test]
fn resolve_rejects_malformed_links() {
    assert_eq!(resolve("https://x.test/a", "http://[::1"), None);
}

#[test]
fn domains_compare_by_host() {
    assert!(same_domain("https://site.example/y", "http://site.example/z?q#f"));
    assert!(!same_domain("https://site.example/y", "https://other.example/x"));
    assert!(!same_domain("https://10.0.0.1/y", "https://10.0.0.2/x"));
    assert!(same_domain("https://10.0.0.1/y", "http://10.0.0.1:8080/z"));
    assert!(!same_domain("https://site.example/", "https://sub.site.example/"));
}

#[test]
fn canonical_forms_of_start_addresses() {
    assert_eq!(canonical("https://x.test"), Some("https://x.test/".to_string()));
    assert_eq!(canonical("not an address"), None);
    assert_eq!(canonical("https://x.test/a#part"), Some("https://x.test/a".to_string()));
}

#[test]
fn other_domain_links_are_excluded() {
    let html = r#"<a href="https://other.example/x">o</a><a href="https://site.example/z">s</a>"#;
    let links = extract_links("https://site.example/y", html);
    assert_eq!(links, strings(&["https://site.example/z"]));
}

#[test]
fn links_are_sorted_and_unique() {
    let html = r##"<a href="/c">1</a><a href="/a#x">2</a><a href="/c">3</a><a href="/a">4</a><a>none</a>"##;
    let links = extract_links("https://s.test/", html);
    assert_eq!(links, strings(&["https://s.test/a", "https://s.test/c"]));
}

#[test]
fn link_extraction_ignores_order_and_repeats() {
    let base = "https://s.test/p";
    let one = links_from_hrefs(base, &strings(&["/z", "/y", "https://o.test/", "/x"]));
    let two = links_from_hrefs(base, &strings(&["/x", "/z", "/y", "/x", "/z", "/y"]));
    assert_eq!(one, two);
    let html = r#"<a href="/q">q</a><a href="/p">p</a>"#;
    let twice = format!("{}{}", html, html);
    assert_eq!(extract_links(base, html), extract_links(base, &twice));
}

#[test]
fn links_to_another_ip_host_are_excluded() {
    let html = "<a href='https://10.0.0.2/x'></a><a href='/z'></a>";
    assert_eq!(extract_links("https://10.0.0.1/y", html), strings(&["https://10.0.0.1/z"]));
}

#[test]
fn leaf_page_has_no_links() {
    assert!(extract_links("https://s.test/", "<p>leaf</p>").is_empty());
}

#[test]
fn string_order_and_equality() {
    assert!(str_less("abc", "abd"));
    assert!(str_less("ab", "abc"));
    assert!(!str_less("abc", "abc"));
    assert!(str_less("Z", "a"));
    assert!(str_equal("x", "x"));
    assert!(!str_equal("x", "y"));
}

#[test]
fn claim_is_test_and_set() {
    let mut v = VisitedSet::new();
    assert!(!v.contains("https://x.test/a"));
    assert!(v.try_claim("https://x.test/a"));
    assert!(!v.try_claim("https://x.test/a"));
    assert!(v.contains("https://x.test/a"));
    assert!(v.try_claim("https://x.test/b"));
}

#[test]
fn seeds_drop_adjacent_repeats_only() {
    let d = dedup_seeds(&strings(&["a", "a", "b", "a"]));
    assert_eq!(d, strings(&["a", "b", "a"]));
    assert!(dedup_seeds(&Vec::new()).is_empty());
}

#[test]
fn seeds_become_canonical() {
    let s = seed_addresses(&strings(&["https://x.test", "https://x.test", "https://y.test/a"]));
    assert_eq!(s, Some(strings(&["https://x.test/", "https://y.test/a"])));
    assert_eq!(seed_addresses(&strings(&["https://x.test", "::"])), None);
    let s = seed_addresses(&strings(&["https://x.test/a#top"]));
    assert_eq!(s, Some(strings(&["https://x.test/a"])));
}

#[test]
fn success_statuses() {
    assert!(is_success(200));
    assert!(is_success(299));
    assert!(!is_success(199));
    assert!(!is_success(300));
    assert!(!is_success(404));
}

fn page_for(address: &str) -> Option<&'static str> {
    match address {
        "https://x.test/a" => Some(r#"<html><body><main>Hello</main><a href="/a">self</a><a href="/b">b</a></body></html>"#),
        "https://x.test/b" => Some("<html><body><p>no main</p></body></html>"),
        _ => None,
    }
}

/// Runs a crawl over fixed pages; returns the addresses fetched, with their
/// depths, and the bucket entries written.
fn run(seeds: &[&str], max_depth: usize) -> (Vec<(String, usize)>, Vec<(String, String)>) {
    let seeds = seed_addresses(&strings(seeds)).unwrap();
    let mut crawler = Crawler::new(&seeds, max_depth);
    let mut fetched = Vec::new();
    let mut entries = Vec::new();
    while let Some(task) = crawler.next_task() {
        fetched.push((task.address.clone(), task.depth));
        if let Some(html) = page_for(&task.address) {
            if let Some(e) = crawler.page_fetched(&task, html) {
                entries.push((e.key, e.text));
            }
        }
    }
    assert_eq!(crawler.pending_count(), 0);
    (fetched, entries)
}

#[test]
fn end_to_end_crawl() {
    let (fetched, entries) = run(&["https://x.test/a"], 1);
    assert_eq!(
        fetched,
        vec![("https://x.test/a".to_string(), 0), ("https://x.test/b".to_string(), 1)]
    );
    let text = format!("\n\n{}\nURL: https://x.test/a\n{}\nHello", separator(), separator());
    assert_eq!(entries, vec![("x.test_a".to_string(), text)]);
}

#[test]
fn depth_limit_zero_fetches_only_the_seed() {
    let seeds = strings(&["https://x.test/a"]);
    let mut crawler = Crawler::new(&seeds, 0);
    let task = crawler.next_task().unwrap();
    assert_eq!(task.address, "https://x.test/a");
    assert_eq!(task.depth, 0);
    let entry = crawler.page_fetched(&task, page_for("https://x.test/a").unwrap());
    assert!(entry.is_some());
    assert_eq!(crawler.pending_count(), 0);
    assert!(crawler.next_task().is_none());
}

#[test]
fn failed_fetch_has_no_children() {
    let (fetched, entries) = run(&["https://x.test/missing", "https://x.test/b"], 3);
    assert_eq!(
        fetched,
        vec![("https://x.test/missing".to_string(), 0), ("https://x.test/b".to_string(), 0)]
    );
    assert!(entries.is_empty());
}

#[test]
fn children_come_one_depth_deeper_first_link_first() {
    let seeds = strings(&["https://s.test/"]);
    let mut crawler = Crawler::new(&seeds, 2);
    let task = crawler.next_task().unwrap();
    crawler.page_fetched(&task, r#"<a href="/z">z</a><a href="/m">m</a><a href="https://o.test/">o</a>"#);
    assert_eq!(crawler.pending_count(), 2);
    let first = crawler.next_task().unwrap();
    assert_eq!(first.address, "https://s.test/m");
    assert_eq!(first.depth, 1);
    crawler.push_children(&first, &strings(&["https://s.test/z", "https://s.test/"]));
    let next = crawler.next_task().unwrap();
    assert_eq!(next.address, "https://s.test/z");
    assert_eq!(next.depth, 2);
    assert!(crawler.is_visited("https://s.test/"));
    assert!(crawler.next_task().is_none());
    assert_eq!(crawler.max_depth(), 2);
}

#[test]
fn tasks_beyond_the_limit_are_dropped() {
    let seeds = strings(&["https://s.test/"]);
    let mut crawler = Crawler::new(&seeds, 0);
    let task = CrawlTask { address: "https://s.test/x".to_string(), depth: 0 };
    crawler.push_children(&task, &strings(&["https://s.test/y"]));
    assert_eq!(crawler.pending_count(), 1);
    assert_eq!(crawler.next_task().unwrap().address, "https://s.test/");
    assert!(crawler.next_task().is_none());
}

#[test]
fn page_beyond_the_limit_queues_nothing() {
    let seeds = strings(&["https://x.test/b"]);
    let mut crawler = Crawler::new(&seeds, 1);
    let task = CrawlTask { address: "https://x.test/a".to_string(), depth: 4 };
    let entry = crawler.page_fetched(&task, page_for("https://x.test/a").unwrap());
    assert_eq!(entry.map(|e| e.key), Some("x.test_a".to_string()));
    assert_eq!(crawler.pending_count(), 1);
}

#[test]
fn seed_with_fragment_is_fetched_once() {
    let (fetched, entries) = run(&["https://x.test/a#intro"], 1);
    assert_eq!(
        fetched,
        vec![("https://x.test/a".to_string(), 0), ("https://x.test/b".to_string(), 1)]
    );
    assert_eq!(entries.len(), 1);
}
