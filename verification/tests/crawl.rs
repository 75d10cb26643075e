use webscraper::address::WebUrl;
use webscraper::body::{PageBody, BODY_LIMIT};
use webscraper::linkset::{bytes_less, insert_link, link_set_of};
use webscraper::html::is_listed;
use webscraper::page::{
    home_href_of, image_records, is_other_host, plan_page, queue_links, read_page,
    refers_absolutely, resolve_reference, try_home_set, try_plan_page, try_queue_links,
    ScrapeError, ScrapeTarget,
};
use webscraper::stats::CrawlStats;
use webscraper::text::{clean_block, join_blocks, remove_pattern, text_for_index};

fn url(s: &str) -> WebUrl {
    WebUrl::parse(s).expect("a valid URL")
}

fn chars(s: &str) -> Vec<char> {
    s.chars().collect()
}

const PAGE: &str = "<html><head><title>T</title></head><body>\
<h1>Head</h1><p>Hello\n world</p>\
<a href=\"b\">b</a><a href=\"https://other.net/x?q=1\">x</a><a href=\"a\">a</a>\
<a href=\"https://other.net/y\">y</a><a href=\"#frag\">f</a><a name=\"none\">n</a>\
<a href=\"b\">again</a><a href=\"http://[bad\">bad</a>\
<img src=\"/pic.png\" alt=\"A picture\"><img src=\"x.png\"><img alt=\"no src\">\
</body></html>";

#[test]
fn parse_keeps_the_parts_of_a_url() {
    let u = url("https://Example.org/a/b?k=v#top");
    assert_eq!(u.href, "https://example.org/a/b?k=v#top");
    assert_eq!(u.scheme, "https");
    assert_eq!(u.host.as_deref(), Some("example.org"));
    assert_eq!(u.query.as_deref(), Some("k=v"));
    assert!(WebUrl::parse("not a url").is_none());
    let copy = u.duplicate();
    assert_eq!(copy.href, u.href);
}

#[test]
fn absolute_references_start_with_http() {
    assert!(refers_absolutely("http://a.com"));
    assert!(refers_absolutely("httpx"));
    assert!(!refers_absolutely("htt"));
    assert!(!refers_absolutely("/path"));
}

#[test]
fn references_resolve_against_the_page() {
    let page = url("https://example.org/dir/page");
    let r = resolve_reference(&page, "other").unwrap();
    assert_eq!(r.href, "https://example.org/dir/other");
    let r = resolve_reference(&page, "/root").unwrap();
    assert_eq!(r.href, "https://example.org/root");
    let r = resolve_reference(&page, "http://else.com").unwrap();
    assert_eq!(r.href, "http://else.com/");
    assert!(resolve_reference(&page, "httpfoo").is_none());
}

#[test]
fn remove_pattern_scans_left_to_right() {
    assert_eq!(remove_pattern(&chars("aabb"), &chars("ab")), chars("ab"));
    assert_eq!(remove_pattern(&chars("xyxyx"), &chars("xy")), chars("x"));
    assert_eq!(remove_pattern(&chars("abc"), &chars("")), chars("abc"));
    assert_eq!(remove_pattern(&chars("ab"), &chars("abc")), chars("ab"));
}

#[test]
fn blocks_are_cleaned_and_joined() {
    assert_eq!(clean_block("a\nb\tc     d<b>e</b>f"), "abcdef");
    assert_eq!(clean_block("six      spaces"), "six spaces");
    let blocks = vec!["x\n".to_string(), "y".to_string()];
    assert_eq!(join_blocks(&blocks), " x y");
    assert_eq!(join_blocks(&Vec::new()), "");
}

#[test]
fn page_text_has_no_breaks() {
    let blocks = vec!["a\n\tb".to_string(), "\t\tc\n".to_string()];
    let text = join_blocks(&blocks);
    assert!(!text.contains('\n') && !text.contains('\t'));
    assert_eq!(text, " ab c");
}

#[test]
fn stored_text_is_cut_at_ten_thousand() {
    assert_eq!(text_for_index(" short", "https://a.org/").unwrap(), " short https://a.org/");
    let long: String = std::iter::repeat('a').take(10_001).collect();
    let stored = text_for_index(&long, "u").unwrap();
    assert_eq!(stored.len(), 10_000 + 2);
    assert!(stored.ends_with("a u"));
}

#[test]
fn stored_text_cut_counts_bytes() {
    // 6000 two-byte characters: the cut at 6000 bytes keeps 3000 of them.
    let even: String = std::iter::repeat('é').take(6000).collect();
    let stored = text_for_index(&even, "u").unwrap();
    assert_eq!(stored.chars().count(), 3000 + 2);
    // 5001 two-byte characters: the cut at 5001 bytes falls inside one.
    let odd: String = std::iter::repeat('é').take(5001).collect();
    assert!(text_for_index(&odd, "u").is_none());
}

#[test]
fn body_stops_growing_at_the_limit() {
    let mut body = PageBody::new();
    let chunk = vec![7u8; 600_000];
    body.accept_chunk(&chunk);
    assert_eq!(body.len(), 600_000);
    body.accept_chunk(&chunk);
    assert_eq!(body.len(), 1_200_000);
    assert!(body.len() >= BODY_LIMIT);
    body.accept_chunk(&chunk);
    assert_eq!(body.len(), 1_200_000);
    assert_eq!(body.as_bytes()[0], 7);
}

#[test]
fn stats_count_and_report() {
    let mut s = CrawlStats::new();
    s.record_success();
    s.record_success();
    s.record_failure();
    assert!(s.report_fits(5000));
    let r = s.report(5000);
    assert_eq!(r.last_interval, 2);
    assert_eq!(r.per_minute, 24);
    assert_eq!(r.average_per_minute, 24);
    assert_eq!(r.scraped_total, 2);
    assert_eq!(r.errors, 1);
    assert_eq!(s.scraped_since_report, 0);
    let r = s.report(5000);
    assert_eq!(r.per_minute, 0);
    assert_eq!(r.average_per_minute, 12);
    assert!(!s.report_fits(0));
}

#[test]
fn stats_counters_wrap() {
    let mut s = CrawlStats::new();
    s.scraped = u64::MAX;
    s.errors = u64::MAX;
    s.record_success();
    s.record_failure();
    assert_eq!(s.scraped, 0);
    assert_eq!(s.errors, 0);
    s.scraped_since_report = u64::MAX;
    assert!(!s.report_fits(1));
}

#[test]
fn home_href_is_scheme_and_host() {
    assert_eq!(home_href_of("https", "a.org"), "https://a.org/");
}

#[test]
fn target_needs_a_host() {
    let page = url("mailto:someone@example.org");
    assert!(matches!(ScrapeTarget::new(page), Err(ScrapeError::MissingHost)));
    let t = ScrapeTarget::new(url("https://example.org/start?x=1")).ok().unwrap();
    assert_eq!(t.host(), "example.org");
    assert_eq!(t.home().href, "https://example.org/");
    assert_eq!(t.page().href, "https://example.org/start?x=1");
}

#[test]
fn body_must_be_utf8() {
    assert!(matches!(read_page(&[0x3c, 0xff, 0x3e], true), Err(ScrapeError::NotUtf8)));
}

#[test]
fn page_plan_queues_sorted_distinct_links() {
    let target = ScrapeTarget::new(url("https://example.org/start")).ok().unwrap();
    let content = read_page(PAGE.as_bytes(), true).ok().unwrap();
    assert_eq!(content.anchors.len(), 8);
    let plan = try_plan_page(&target, &content, true).unwrap();
    assert_eq!(
        plan.crawl_queue,
        vec![
            "https://example.org/a",
            "https://example.org/b",
            "https://example.org/start#frag",
            "https://other.net/x?",
            "https://other.net/y",
        ]
    );
    assert_eq!(plan.host_links, vec!["https://other.net/"]);
    assert_eq!(plan.images.len(), 2);
    assert_eq!(plan.images[0].url, "https://example.org/pic.png");
    assert_eq!(plan.images[0].alt, "A picture");
    assert_eq!(plan.images[1].url, "https://example.org/x.png");
    assert_eq!(plan.images[1].alt, "");
    assert_eq!(
        plan.stored_text.as_deref(),
        Some(" T Head Hello world https://example.org/start")
    );
    let again = plan_page(&target, &content, false);
    assert_eq!(again.crawl_queue, plan.crawl_queue);
    assert!(again.images.is_empty());
}

#[test]
fn host_links_skip_own_host() {
    let target = ScrapeTarget::new(url("http://a.org/")).ok().unwrap();
    let body = "<a href=\"http://a.org/x\">1</a><a href=\"http://b.org/z\">2</a>\
<a href=\"http://b.org/y\">3</a><a href=\"http://c.org/\">4</a>";
    let content = read_page(body.as_bytes(), false).ok().unwrap();
    let plan = try_plan_page(&target, &content, false).unwrap();
    assert_eq!(plan.host_links, vec!["http://b.org/", "http://c.org/"]);
    assert_eq!(plan.crawl_queue.len(), 4);
    assert!(plan.images.is_empty());
}

#[test]
fn bytes_compare_lexicographically() {
    assert!(bytes_less(b"ab", b"b"));
    assert!(!bytes_less(b"b", b"ab"));
    assert!(bytes_less(b"a", b"ab"));
    assert!(!bytes_less(b"ab", b"ab"));
    assert!(bytes_less(b"", b"a"));
}

#[test]
fn link_sets_are_sorted_and_distinct() {
    let links = vec![
        url("https://b.org/"),
        url("https://a.org/x"),
        url("https://b.org/"),
        url("https://a.org/"),
    ];
    let set = link_set_of(&links);
    let hrefs: Vec<&str> = set.iter().map(|u| u.href.as_str()).collect();
    assert_eq!(hrefs, vec!["https://a.org/", "https://a.org/x", "https://b.org/"]);
    let mut set = set;
    insert_link(&mut set, url("https://a.org/x"));
    assert_eq!(set.len(), 3);
    insert_link(&mut set, url("https://0.org/"));
    assert_eq!(set[0].href, "https://0.org/");
}

#[test]
fn names_are_listed_exactly() {
    let names = vec!["p".to_string(), "h1".to_string()];
    assert!(is_listed(Some("p"), &names));
    assert!(is_listed(Some("h1"), &names));
    assert!(!is_listed(Some("h6"), &names));
    assert!(!is_listed(None, &names));
}

#[test]
fn page_content_reads_the_listed_elements() {
    let body = "<h5>five</h5><h6>six</h6><p>para</p><title>t</title>\
<a href=\"x\" alt=\"y\">1</a><img alt=\"only alt\"><img src=\"s.png\" alt=\"a\">";
    let content = read_page(body.as_bytes(), true).ok().unwrap();
    assert_eq!(content.text_blocks, vec!["five", "para", "t"]);
    assert_eq!(content.anchors, vec![Some("x".to_string())]);
    assert_eq!(content.images.len(), 2);
    assert_eq!(content.images[0].src, None);
    assert_eq!(content.images[0].alt.as_deref(), Some("only alt"));
    assert_eq!(content.images[1].src.as_deref(), Some("s.png"));
    let without = read_page(body.as_bytes(), false).ok().unwrap();
    assert!(without.images.is_empty());
}

#[test]
fn stages_give_the_plan_in_parts() {
    let target = ScrapeTarget::new(url("https://example.org/start")).ok().unwrap();
    let content = read_page(PAGE.as_bytes(), true).ok().unwrap();
    let crawl = try_queue_links(target.page(), &content.anchors).unwrap();
    let again = queue_links(target.page(), &content.anchors);
    let hrefs: Vec<&str> = crawl.iter().map(|u| u.href.as_str()).collect();
    assert_eq!(hrefs.len(), 5);
    assert_eq!(again.len(), 5);
    let homes = try_home_set(&crawl).unwrap();
    let home_hrefs: Vec<&str> = homes.iter().map(|u| u.href.as_str()).collect();
    assert_eq!(home_hrefs, vec!["https://example.org/", "https://other.net/"]);
    assert!(!is_other_host(target.host(), &homes[0]));
    assert!(is_other_host(target.host(), &homes[1]));
    assert!(!is_other_host(&"a.org".to_string(), &url("http://example.com/")));
    let images = image_records(target.page(), &content.images);
    assert_eq!(images.len(), 2);
}
