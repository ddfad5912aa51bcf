use bang::config::Config;
use bang::search::{
    advance, attr_after, decode_uddg, has_bang, parse_bang_redirect, parse_ddg_results, run,
    searxng_results, strip_tags, text_between, Outcome, Pending, Reply, Request, SearchError,
    SearxEntry, Step,
};

#[test]
fn detects_bangs_at_either_end() {
    assert!(has_bang("!gh ripgrep"));
    assert!(has_bang("rust lifetimes !w"));
    assert!(has_bang("!wp"));
    assert!(!has_bang("plain query"));
    assert!(!has_bang("not!a bang"));
    assert!(!has_bang("mid !gh word"));
    assert!(!has_bang(""));
    assert!(!has_bang("!"));
}

#[test]
fn parses_bang_redirect_page() {
    let body = "<meta http-equiv='refresh' content='0; \
                url=/l/?uddg=https%3A%2F%2Fen.wikipedia.org%2Fwiki%2FRust&rut=abc'>";
    assert_eq!(
        parse_bang_redirect(body).as_deref(),
        Some("https://en.wikipedia.org/wiki/Rust")
    );
}

#[test]
fn normal_page_is_not_a_redirect() {
    assert_eq!(parse_bang_redirect("<html>results</html>"), None);
}

#[test]
fn parses_ddg_result_markup() {
    let body = r##"<a class="result__a" href="//duckduckgo.com/l/?uddg=https%3A%2F%2Fexample.com%2Fdocs&rut=x">Example <b>Docs</b></a>
                      <a class="result__snippet" href="#">A &amp; B</a>"##;
    let results = parse_ddg_results(body, 5);
    assert_eq!(results.len(), 1);
    assert_eq!(results[0].url, "https://example.com/docs");
    assert_eq!(results[0].title, "Example Docs");
    assert_eq!(results[0].snippet, "A & B");
}

#[test]
fn bang_detection_ignores_surrounding_whitespace() {
    assert!(has_bang("  \t!gh   ripgrep \n"));
    assert!(has_bang("query\u{3000}!w"));
    assert!(!has_bang("!g-h query"));
    assert!(!has_bang("!é query"));
    assert!(has_bang("!a1b2"));
}

#[test]
fn redirect_to_non_web_url_is_refused() {
    let body = "<a href='/l/?uddg=javascript%3Aalert(1)'>";
    assert_eq!(parse_bang_redirect(body), None);
}

#[test]
fn redirect_param_stops_at_quote_or_tag() {
    let body = "url=/l/?uddg=http%3A%2F%2Fa.example%2F\"<rest";
    assert_eq!(parse_bang_redirect(body).as_deref(), Some("http://a.example/"));
    let body = "url=/l/?uddg=https%3A%2F%2Fb.example<x";
    assert_eq!(parse_bang_redirect(body).as_deref(), Some("https://b.example"));
}

#[test]
fn redirect_with_invalid_utf8_is_refused() {
    assert_eq!(parse_bang_redirect("/l/?uddg=https%3A%2F%2F%FF"), None);
}

#[test]
fn decode_uddg_unwraps_links() {
    assert_eq!(
        decode_uddg("//duckduckgo.com/l/?uddg=https%3A%2F%2Fx.org%2Fa%20b&rut=1"),
        "https://x.org/a b"
    );
    assert_eq!(decode_uddg("https://plain.example/"), "https://plain.example/");
    assert_eq!(decode_uddg("/l/?uddg=%C3%A9"), "é");
    // not UTF-8 after decoding: the link itself is kept
    assert_eq!(decode_uddg("/l/?uddg=%FF"), "/l/?uddg=%FF");
}

#[test]
fn strip_tags_decodes_entities_in_order() {
    assert_eq!(strip_tags("  <b>a</b> &lt;b&gt; &quot;q&quot; &#x27;x&#39; y&nbsp;z "), "a <b> \"q\" 'x' y z");
    assert_eq!(strip_tags("&amp;lt;"), "<");
    assert_eq!(strip_tags("<span class=\"x\">hi</span>"), "hi");
    assert_eq!(strip_tags("   "), "");
}

#[test]
fn text_between_and_attr_after() {
    assert_eq!(text_between("x<a>one <i>two</i></a>tail", ">", "</a>"), "one two");
    assert_eq!(text_between("no opener", "[", "]"), "");
    assert_eq!(text_between("[open to the end", "[", "]"), "open to the end");
    assert_eq!(attr_after("<a href=\"u\" x>", "href=\"").as_deref(), Some("u"));
    assert_eq!(attr_after("<a href=\"unterminated", "href=\""), None);
    assert_eq!(attr_after("<a>", "href=\""), None);
}

#[test]
fn ddg_results_respect_limit_and_filter() {
    let block = |url: &str, title: &str| {
        format!("<a class=\"result__a\" href=\"{url}\">{title}</a>\n")
    };
    let mut body = String::new();
    body.push_str(&block("//duckduckgo.com/l/?uddg=https%3A%2F%2Fone.example", "One"));
    body.push_str(&block("https://duckduckgo.com/ad", "Ad"));
    body.push_str(&block("ftp://two.example", "Two"));
    body.push_str(&block("https://three.example", "Three"));
    body.push_str(&block("https://four.example", "Four"));
    let all = parse_ddg_results(&body, 10);
    let urls: Vec<&str> = all.iter().map(|r| r.url.as_str()).collect();
    assert_eq!(urls, vec!["https://one.example", "https://three.example", "https://four.example"]);
    assert_eq!(all[1].title, "Three");
    assert_eq!(all[1].snippet, "");
    let two = parse_ddg_results(&body, 2);
    assert_eq!(two.len(), 2);
    assert_eq!(two[1].url, "https://three.example");
    assert!(parse_ddg_results(&body, 0).is_empty());
    assert!(parse_ddg_results("no results here", 5).is_empty());
}

fn entry(title: &str, url: &str, content: Option<&str>) -> SearxEntry {
    SearxEntry {
        title: title.to_string(),
        url: url.to_string(),
        content: content.map(|c| c.to_string()),
    }
}

#[test]
fn searxng_results_fill_titles_and_skip_blank_urls() {
    let entries = vec![
        entry("First", "https://1.example", Some("one")),
        entry("Blank", "   ", Some("skipped")),
        entry("  ", "https://2.example", None),
        entry("Third", "https://3.example", None),
    ];
    let rs = searxng_results(&entries, 8);
    assert_eq!(rs.len(), 3);
    assert_eq!(rs[0].title, "First");
    assert_eq!(rs[0].snippet, "one");
    assert_eq!(rs[1].title, "https://2.example");
    assert_eq!(rs[1].snippet, "");
    let rs = searxng_results(&entries, 2);
    assert_eq!(rs.len(), 2);
    assert_eq!(rs[1].url, "https://2.example");
}

fn ddg_config() -> Config {
    Config { engine: "duckduckgo".to_string(), searxng_url: None }
}

#[test]
fn run_picks_the_first_request() {
    let config = ddg_config();
    match run("ddg", "!w rust", 3, &config) {
        Ok(Step::Fetch(Pending { request: Request::BangLookup { query }, num })) => {
            assert_eq!(query, "!w rust");
            assert_eq!(num, 3);
        }
        _ => panic!("expected a bang lookup"),
    }
    match run("duckduckgo", "rust lifetimes", 3, &config) {
        Ok(Step::Fetch(Pending { request: Request::HtmlSearch { query }, .. })) => {
            assert_eq!(query, "rust lifetimes")
        }
        _ => panic!("expected an html search"),
    }
    let searx = Config {
        engine: "searxng".to_string(),
        searxng_url: Some("  https://searx.example.org//  ".to_string()),
    };
    match run("searxng", "!go x", 3, &searx) {
        Ok(Step::Fetch(Pending { request: Request::Searxng { endpoint, query }, .. })) => {
            assert_eq!(endpoint, "https://searx.example.org/search");
            assert_eq!(query, "!go x");
        }
        _ => panic!("expected a searxng request"),
    }
}

#[test]
fn run_reports_configuration_errors() {
    match run("bing", "x", 1, &ddg_config()) {
        Err(e @ SearchError::UnknownEngine(_)) => assert_eq!(
            e.message(),
            "unknown engine 'bing' (expected duckduckgo or searxng)"
        ),
        _ => panic!("expected an unknown engine"),
    }
    let blank = Config { engine: "searxng".to_string(), searxng_url: Some("  ".to_string()) };
    match run("searxng", "x", 1, &blank) {
        Err(e @ SearchError::NoSearxngInstance) => {
            assert!(e.message().starts_with("searxng engine selected but no instance configured"))
        }
        _ => panic!("expected a missing instance"),
    }
    assert!(matches!(run("searxng", "x", 1, &ddg_config()), Err(SearchError::NoSearxngInstance)));
}

#[test]
fn unrecognized_bang_falls_back_to_search() {
    let pending = Pending { request: Request::BangLookup { query: "!zz q".to_string() }, num: 4 };
    match advance(pending, Reply::Page("<html>plain</html>".to_string())) {
        Step::Fetch(Pending { request: Request::HtmlSearch { query }, num }) => {
            assert_eq!(query, "!zz q");
            assert_eq!(num, 4);
        }
        _ => panic!("expected a fallback search"),
    }
}

#[test]
fn recognized_bang_finishes_with_destination() {
    let pending = Pending { request: Request::BangLookup { query: "!w x".to_string() }, num: 4 };
    let page = "url=/l/?uddg=https%3A%2F%2Fen.wikipedia.org%2Fwiki%2FX&rut=1".to_string();
    match advance(pending, Reply::Page(page)) {
        Step::Finished(Outcome::Destination(url)) => {
            assert_eq!(url, "https://en.wikipedia.org/wiki/X")
        }
        _ => panic!("expected a destination"),
    }
}

#[test]
fn result_replies_finish_the_search() {
    let pending = Pending { request: Request::HtmlSearch { query: "q".to_string() }, num: 1 };
    let body = "<a class=\"result__a\" href=\"https://a.example\">A</a><a class=\"result__a\" href=\"https://b.example\">B</a>";
    match advance(pending, Reply::Page(body.to_string())) {
        Step::Finished(Outcome::Results(rs)) => {
            assert_eq!(rs.len(), 1);
            assert_eq!(rs[0].url, "https://a.example");
        }
        _ => panic!("expected results"),
    }
    let pending = Pending {
        request: Request::Searxng { endpoint: "https://s/search".to_string(), query: "q".to_string() },
        num: 5,
    };
    match advance(pending, Reply::Entries(vec![entry("T", "https://t.example", None)])) {
        Step::Finished(Outcome::Results(rs)) => assert_eq!(rs[0].title, "T"),
        _ => panic!("expected results"),
    }
}
