use scrape_rs::quotes::parse_quotes;

const PAGE: &str = r#"<html><body>
<div class="quote"><span class="text">“Be yourself.”</span><small class="author">Oscar Wilde</small>
<div class="tags"><a class="tag">life</a><a class="tag">self</a></div></div>
<div class="quote"><span class="text">No author here.</span></div>
</body></html>"#;

#[test]
fn parse_quotes_reads_text_author_and_tags() {
    let quotes = parse_quotes(PAGE);
    assert_eq!(quotes.len(), 2);
    assert_eq!(quotes[0].text, "“Be yourself.”");
    assert_eq!(quotes[0].author, "Oscar Wilde");
    assert_eq!(quotes[0].tags, vec!["life".to_string(), "self".to_string()]);
    assert_eq!(quotes[1].text, "No author here.");
    assert_eq!(quotes[1].author, "");
    assert!(quotes[1].tags.is_empty());
}

#[test]
fn page_without_quotes_has_none() {
    assert!(parse_quotes("<p>nothing</p>").is_empty());
}
