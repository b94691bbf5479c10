//! The source text of a wiki page: the content of the edit box in the HTML of its edit page.
use vstd::prelude::*;
use scraper::{Html, Selector};

verus! {

/// The inner HTML of the first element of the HTML document `page` that the CSS selector
/// `selector` matches; `None` when no element matches or the selector cannot be parsed.
pub uninterp spec fn first_inner_html(page: Seq<char>, selector: Seq<char>) -> Option<Seq<char>>;

/// Parses `page` with `scraper::Html::parse_document`, the selector with
/// `scraper::Selector::parse`, takes the first element that `Html::select` yields and serializes
/// its children with `ElementRef::inner_html`. Stated: the result is `first_inner_html` of the
/// page and the selector. What the HTML parser and serializer do is left to the name; the
/// result depends on the two texts alone (attributes are kept sorted by name).
#[verifier::external_body]
fn select_first_inner_html(page: &str, selector: &str) -> (r: Option<String>)
    ensures
        match r {
            Some(t) => first_inner_html(page@, selector@) == Some(t@),
            None => first_inner_html(page@, selector@) is None,
        },
{
    let document = Html::parse_document(page);
    match Selector::parse(selector) {
        Ok(sel) => match document.select(&sel).next() {
            Some(e) => Some(e.inner_html()),
            None => None,
        },
        Err(_) => None,
    }
}

/// The source text of a wiki page from the HTML of its edit page: the inner HTML of the
/// element with the id `wpTextbox1`, the edit box; `None` when the page has no such element.
pub fn wiki_source_text(page: &str) -> (r: Option<String>)
    ensures
        match r {
            Some(t) => first_inner_html(page@, "#wpTextbox1"@) == Some(t@),
            None => first_inner_html(page@, "#wpTextbox1"@) is None,
        },
{
    select_first_inner_html(page, "#wpTextbox1")
}

} // verus!
