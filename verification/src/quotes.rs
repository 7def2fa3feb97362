//! Quotes scraped from pages laid out like quotes.toscrape.com: each quote
//! is an element of class `quote`, holding its text (class `text`), its
//! author (class `author`) and its tags (class `tag`).
use vstd::prelude::*;

use crate::parsers::{
    first_selected_text, select_all, select_first, select_html, selected_html, selected_texts,
    string_views,
};

verus! {

/// One quote with its author and tags.
#[derive(Debug)]
pub struct Quote {
    pub text: String,
    pub author: String,
    pub tags: Vec<String>,
}

/// The text, or the empty text when there is none.
pub open spec fn text_or_empty(text: Option<Seq<char>>) -> Seq<char> {
    match text {
        Some(t) => t,
        None => Seq::empty(),
    }
}

/// Whether `quote` is what the markup `fragment` of one quote element
/// holds: the first `.text` and the first `.author` (empty when missing),
/// and every `.tag`.
pub open spec fn describes(quote: Quote, fragment: Seq<char>) -> bool {
    &&& quote.text@ == text_or_empty(first_selected_text(fragment, ".text"@))
    &&& quote.author@ == text_or_empty(first_selected_text(fragment, ".author"@))
    &&& string_views(quote.tags@) == selected_texts(fragment, ".tag"@)
}

/// The first text that `selector` selects in `html`, or the empty text.
fn first_or_empty(html: &str, selector: &str) -> (text: String)
    ensures
        text@ == text_or_empty(first_selected_text(html@, selector@)),
{
    match select_first(html, selector) {
        Some(text) => text,
        None => String::new(),
    }
}

/// Every quote of the page `html`, in the order in which `select_html`
/// lists the `.quote` elements.
pub fn parse_quotes(html: &str) -> (quotes: Vec<Quote>)
    ensures
        quotes.len() == selected_html(html@, ".quote"@).len(),
        forall|i: int|
            0 <= i < quotes.len() ==> describes(#[trigger] quotes[i], selected_html(html@, ".quote"@)[i]),
{
    let fragments = select_html(html, ".quote");
    let ghost views = string_views(fragments@);
    let mut quotes: Vec<Quote> = Vec::new();
    let count = fragments.len();
    for i in 0..count
        invariant
            count == fragments@.len(),
            views == string_views(fragments@),
            views == selected_html(html@, ".quote"@),
            quotes.len() == i,
            forall|j: int| 0 <= j < i ==> describes(#[trigger] quotes[j], views[j]),
    {
        let fragment = fragments[i].as_str();
        assert(fragment@ == views[i as int]);
        let quote = Quote {
            text: first_or_empty(fragment, ".text"),
            author: first_or_empty(fragment, ".author"),
            tags: select_all(fragment, ".tag"),
        };
        quotes.push(quote);
    }
    quotes
}

} // verus!
