//! Querying HTML with CSS selectors: the text of every matching element, the
//! first such text, or the markup of every matching element.
//!
//! Parsing HTML and matching selectors is done by the `scraper` crate; what
//! its calls return is named below and the library's functions are stated
//! over those names.
use scraper::{Html, Selector};
use vstd::prelude::*;

verus! {

/// Whether `scraper::Selector::parse` accepts `selector`.
pub uninterp spec fn selector_is_valid(selector: Seq<char>) -> bool;

/// For the document `html` and the selector group `selector`: the text
/// nodes of each matching element, elements in the order in which
/// `scraper::Html::select` yields them: the order in which the HTML parser
/// inserted the nodes into its tree, which can differ from their order in
/// the text where the parser moves nodes.
pub uninterp spec fn matched_text_nodes(html: Seq<char>, selector: Seq<char>) -> Seq<Seq<Seq<char>>>;

/// For the document `html` and the selector group `selector`: the markup of
/// each matching element, elements in the order in which
/// `scraper::Html::select` yields them: the order in which the HTML parser
/// inserted the nodes into its tree, which can differ from their order in
/// the text where the parser moves nodes.
pub uninterp spec fn matched_outer_html(html: Seq<char>, selector: Seq<char>) -> Seq<Seq<char>>;

/// `parts` joined, with `separator` between each two neighbours.
pub open spec fn joined(parts: Seq<Seq<char>>, separator: Seq<char>) -> Seq<char>
    decreases parts.len(),
{
    if parts.len() == 0 {
        Seq::empty()
    } else if parts.len() == 1 {
        parts[0]
    } else {
        joined(parts.drop_last(), separator) + separator + parts.last()
    }
}

/// The text of each element of `html` that `selector` matches: its text
/// nodes joined by single spaces; nothing when the selector is invalid.
pub open spec fn selected_texts(html: Seq<char>, selector: Seq<char>) -> Seq<Seq<char>> {
    if selector_is_valid(selector) {
        matched_text_nodes(html, selector).map_values(|nodes: Seq<Seq<char>>| joined(nodes, seq![' ']))
    } else {
        Seq::empty()
    }
}

/// The text of the first element of `html` that `selector` matches.
pub open spec fn first_selected_text(html: Seq<char>, selector: Seq<char>) -> Option<Seq<char>> {
    if selected_texts(html, selector).len() > 0 {
        Some(selected_texts(html, selector)[0])
    } else {
        None
    }
}

/// The markup of each element of `html` that `selector` matches; nothing
/// when the selector is invalid.
pub open spec fn selected_html(html: Seq<char>, selector: Seq<char>) -> Seq<Seq<char>> {
    if selector_is_valid(selector) {
        matched_outer_html(html, selector)
    } else {
        Seq::empty()
    }
}

/// The views of a list of strings.
pub open spec fn string_views(strings: Seq<String>) -> Seq<Seq<char>> {
    strings.map_values(|s: String| s@)
}

/// Compiles `selector` with `scraper::Selector::parse`, parses `html` with
/// `scraper::Html::parse_document` and, for each element that
/// `scraper::Html::select` yields, collects the text nodes of
/// `scraper::ElementRef::text`. Claimed: `None` exactly when the selector is
/// not valid, and otherwise the result named for the two texts.
#[verifier::external_body]
fn select_text_nodes(html: &str, selector: &str) -> (nodes: Option<Vec<Vec<String>>>)
    ensures
        nodes is Some <==> selector_is_valid(selector@),
        nodes matches Some(n) ==> n@.map_values(|texts: Vec<String>| string_views(texts@))
            == matched_text_nodes(html@, selector@),
{
    let selector = Selector::parse(selector).ok()?;
    let document = Html::parse_document(html);
    Some(document.select(&selector).map(|element| element.text().map(String::from).collect()).collect())
}

/// Compiles `selector` with `scraper::Selector::parse`, parses `html` with
/// `scraper::Html::parse_document` and, for each element that
/// `scraper::Html::select` yields, takes `scraper::ElementRef::html`.
/// Claimed: `None` exactly when the selector is not valid, and otherwise the
/// result named for the two texts, with one entry per element that the
/// text query over the same texts lists (both walk the same `select`).
#[verifier::external_body]
fn select_outer_html(html: &str, selector: &str) -> (markup: Option<Vec<String>>)
    ensures
        markup is Some <==> selector_is_valid(selector@),
        markup matches Some(m) ==> string_views(m@) == matched_outer_html(html@, selector@)
            && m@.len() == matched_text_nodes(html@, selector@).len(),
{
    let selector = Selector::parse(selector).ok()?;
    let document = Html::parse_document(html);
    Some(document.select(&selector).map(|element| element.html()).collect())
}

/// Joins `parts` with single spaces.
pub fn join_with_spaces(parts: &Vec<String>) -> (text: String)
    ensures
        text@ == joined(string_views(parts@), seq![' ']),
{
    let ghost views = string_views(parts@);
    let mut text = String::new();
    let count = parts.len();
    for i in 0..count
        invariant
            count == parts@.len(),
            views == string_views(parts@),
            text@ == joined(views.take(i as int), seq![' ']),
    {
        let ghost before = text@;
        assert(views[i as int] == parts@[i as int]@);
        assert(views.take(i + 1).drop_last() =~= views.take(i as int));
        assert(views.take(i + 1).last() == views[i as int]);
        if i > 0 {
            text.append(" ");
            text.append(parts[i].as_str());
            proof {
                reveal_strlit(" ");
            }
            assert(" "@ =~= seq![' ']);
            assert(text@ =~= before + seq![' '] + views[i as int]);
        } else {
            text.append(parts[i].as_str());
            assert(text@ =~= views[0]);
            assert(views.take(1).len() == 1);
        }
    }
    assert(views.take(count as int) =~= views);
    text
}

/// The text of every element of `html` that `selector` matches, in the order
/// in which `scraper` yields them: the element's text nodes joined by
/// single spaces. An invalid selector matches nothing.
pub fn select_all(html: &str, selector: &str) -> (texts: Vec<String>)
    ensures
        string_views(texts@) == selected_texts(html@, selector@),
{
    let nodes = match select_text_nodes(html, selector) {
        Some(nodes) => nodes,
        None => {
            return Vec::new();
        },
    };
    let ghost node_views = nodes@.map_values(|t: Vec<String>| string_views(t@));
    let mut texts: Vec<String> = Vec::new();
    let count = nodes.len();
    for i in 0..count
        invariant
            count == nodes@.len(),
            node_views == nodes@.map_values(|t: Vec<String>| string_views(t@)),
            node_views == matched_text_nodes(html@, selector@),
            texts@.len() == i,
            forall|j: int| 0 <= j < i ==> #[trigger] texts@[j]@ == joined(node_views[j], seq![' ']),
    {
        texts.push(join_with_spaces(&nodes[i]));
    }
    assert(string_views(texts@) =~= selected_texts(html@, selector@));
    texts
}

/// The text of the first element of `html` that `selector` matches, if any.
pub fn select_first(html: &str, selector: &str) -> (text: Option<String>)
    ensures
        match text {
            Some(t) => first_selected_text(html@, selector@) == Some(t@),
            None => first_selected_text(html@, selector@) is None,
        },
{
    let mut all = select_all(html, selector);
    if all.len() == 0 {
        None
    } else {
        assert(all@[0]@ == string_views(all@)[0]);
        Some(all.swap_remove(0))
    }
}

/// The markup of every element of `html` that `selector` matches, in the
/// order in which `scraper` yields them: one entry for each text that
/// `select_all` lists. An invalid selector matches nothing.
pub fn select_html(html: &str, selector: &str) -> (markup: Vec<String>)
    ensures
        string_views(markup@) == selected_html(html@, selector@),
        markup@.len() == selected_texts(html@, selector@).len(),
{
    match select_outer_html(html, selector) {
        Some(markup) => markup,
        None => {
            let markup: Vec<String> = Vec::new();
            assert(string_views(markup@) =~= Seq::<Seq<char>>::empty());
            markup
        },
    }
}

/// The total length of `parts`.
pub open spec fn total_len(parts: Seq<Seq<char>>) -> nat
    decreases parts.len(),
{
    if parts.len() == 0 {
        0
    } else {
        total_len(parts.drop_last()) + parts.last().len()
    }
}

/// Joining keeps every part, in order, with one separator between each two
/// neighbours: nothing is joined to the empty text, one part to itself, and
/// appending a part to a nonempty list appends the separator and that part
/// to the joined text; so the joined text is as long as all parts together
/// plus one separator fewer than there are parts.
pub proof fn law_joined_keeps_every_part(parts: Seq<Seq<char>>, part: Seq<char>, separator: Seq<char>)
    ensures
        joined(Seq::empty(), separator) == Seq::<char>::empty(),
        joined(seq![part], separator) == part,
        parts.len() > 0 ==> joined(parts.push(part), separator) == joined(parts, separator) + separator + part,
        parts.len() > 0 ==> joined(parts, separator).len() == total_len(parts) + (parts.len() - 1) * separator.len(),
    decreases parts.len(),
{
    if parts.len() > 0 {
        assert(parts.push(part).drop_last() =~= parts);
        assert(parts.push(part).last() == part);
        if parts.len() == 1 {
            assert(joined(parts, separator) == parts[0]);
            assert(total_len(parts.drop_last()) == 0);
            assert(parts.last() == parts[0]);
            assert((parts.len() - 1) * separator.len() == 0) by (nonlinear_arith)
                requires
                    parts.len() == 1,
            ;
        } else {
            law_joined_keeps_every_part(parts.drop_last(), parts.last(), separator);
            assert(joined(parts, separator) == joined(parts.drop_last(), separator) + separator + parts.last());
            let rest = parts.drop_last();
            let n = parts.len() as int;
            let m = separator.len() as int;
            assert(joined(rest, separator).len() == total_len(rest) + (rest.len() - 1) * separator.len());
            assert(total_len(parts) == total_len(rest) + parts.last().len());
            assert((n - 1) * m == (n - 2) * m + m) by (nonlinear_arith);
            assert(rest.len() - 1 == n - 2);
        }
    }
}

/// Every text that `select_all` lists is the joined text nodes of the
/// matching element at the same place, for every number of matches; an
/// invalid selector lists nothing.
pub proof fn law_select_all_lists_each_match(html: Seq<char>, selector: Seq<char>)
    ensures
        selector_is_valid(selector) ==> selected_texts(html, selector).len() == matched_text_nodes(html, selector).len()
            && forall|i: int|
            0 <= i < matched_text_nodes(html, selector).len() ==> #[trigger] selected_texts(html, selector)[i]
                == joined(matched_text_nodes(html, selector)[i], seq![' ']),
        !selector_is_valid(selector) ==> selected_texts(html, selector).len() == 0,
{
}

/// `select_first` gives the first text that `select_all` lists on the same
/// inputs, and nothing exactly when `select_all` lists nothing.
pub proof fn law_select_first_is_first_of_select_all(html: Seq<char>, selector: Seq<char>)
    ensures
        selected_texts(html, selector).len() > 0 ==> first_selected_text(html, selector) == Some(
            selected_texts(html, selector)[0],
        ),
        selected_texts(html, selector).len() == 0 ==> first_selected_text(html, selector) is None,
{
}

/// For a valid selector, the markup that `select_html` lists is, entry for
/// entry and for every number of matches, the markup of the matching
/// elements; an invalid selector lists nothing.
pub proof fn law_select_html_lists_each_match(html: Seq<char>, selector: Seq<char>)
    ensures
        selector_is_valid(selector) ==> selected_html(html, selector).len() == matched_outer_html(html, selector).len()
            && forall|i: int|
            0 <= i < matched_outer_html(html, selector).len() ==> #[trigger] selected_html(html, selector)[i]
                == matched_outer_html(html, selector)[i],
        !selector_is_valid(selector) ==> selected_html(html, selector).len() == 0,
{
}

} // verus!
