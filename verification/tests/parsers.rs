use scrape_rs::parsers::{join_with_spaces, select_all, select_first, select_html};

const PAGE: &str = r#"<html><body>
<h1>Title <b>bold</b></h1>
<ul><li class="item">one</li><li class="item">two <i>2</i></li></ul>
<p id="empty"></p>
</body></html>"#;

#[test]
fn select_all_joins_text_nodes_with_spaces() {
    assert_eq!(select_all(PAGE, "li.item"), vec!["one".to_string(), "two  2".to_string()]);
    assert_eq!(select_all(PAGE, "h1"), vec!["Title  bold".to_string()]);
}

#[test]
fn select_all_of_element_without_text_is_empty_string() {
    assert_eq!(select_all(PAGE, "#empty"), vec![String::new()]);
}

#[test]
fn select_all_without_match_is_empty() {
    assert!(select_all(PAGE, "table").is_empty());
}

#[test]
fn invalid_selector_matches_nothing() {
    assert!(select_all(PAGE, "li[").is_empty());
    assert!(select_html(PAGE, "li[").is_empty());
    assert_eq!(select_first(PAGE, "li["), None);
}

#[test]
fn select_first_is_the_first_of_select_all() {
    assert_eq!(select_first(PAGE, "li.item"), Some("one".to_string()));
    assert_eq!(select_first(PAGE, "table"), None);
}

#[test]
fn select_html_returns_outer_markup() {
    assert_eq!(
        select_html(PAGE, "li.item"),
        vec![
            r#"<li class="item">one</li>"#.to_string(),
            r#"<li class="item">two <i>2</i></li>"#.to_string()
        ]
    );
}

#[test]
fn join_with_spaces_puts_one_space_between_parts() {
    assert_eq!(join_with_spaces(&vec![]), "");
    assert_eq!(join_with_spaces(&vec!["a".to_string()]), "a");
    assert_eq!(join_with_spaces(&vec!["a".to_string(), "".to_string(), "c".to_string()]), "a  c");
}

#[test]
fn select_html_and_select_all_list_the_same_elements() {
    for selector in ["li.item", "h1", "#empty", "table", "li[", "body *"] {
        assert_eq!(select_html(PAGE, selector).len(), select_all(PAGE, selector).len());
    }
}
