use bang::config::{load, Config};
use bang::text::nonblank_trimmed;

#[test]
fn defaults_to_duckduckgo() {
    let c = Config::default();
    assert_eq!(c.engine, "duckduckgo");
    assert_eq!(c.searxng_url, None);
    let c = load(None, None, None);
    assert_eq!(c.engine, "duckduckgo");
}

#[test]
fn environment_overrides_file_unless_blank() {
    let file = Config { engine: "searxng".to_string(), searxng_url: Some("https://a".to_string()) };
    let c = load(Some(file), Some("  ddg ".to_string()), Some(" https://b ".to_string()));
    assert_eq!(c.engine, "ddg");
    assert_eq!(c.searxng_url.as_deref(), Some("https://b"));
    let file = Config { engine: "searxng".to_string(), searxng_url: Some("https://a".to_string()) };
    let c = load(Some(file), Some("   ".to_string()), Some("".to_string()));
    assert_eq!(c.engine, "searxng");
    assert_eq!(c.searxng_url.as_deref(), Some("https://a"));
}

#[test]
fn tokens_are_trimmed_and_nonblank() {
    assert_eq!(nonblank_trimmed(" ghp_x \n").as_deref(), Some("ghp_x"));
    assert_eq!(nonblank_trimmed(" \t\n"), None);
}
