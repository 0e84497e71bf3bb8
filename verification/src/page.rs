//! What is read from the pages of the site: an album's artist and title,
//! the ratings on a page of ratings, and the albums on a page of a chart.
//!
//! The pages are HTML. Elements are found in them by CSS selectors; the
//! library decides what to take from what was found.
use vstd::prelude::*;
use vstd::string::*;
use crate::decimal::{append_decimal, decimal};
use crate::links::{Link, link_kind, read_link};

verus! {

/// The inner HTML of each element of the HTML document `document` that the
/// CSS selector group `selector` matches, in the order in which the
/// selection yields them; `None` where `selector` is not a selector group.
pub uninterp spec fn selected_inner_html(document: Seq<char>, selector: Seq<char>) -> Option<
    Seq<Seq<char>>,
>;

/// For each element of the HTML document `document` that the CSS selector
/// group `selector` matches, in the order in which the selection yields
/// them, the value of its attribute `attribute`, if it has that attribute;
/// `None` where `selector` is not a selector group.
pub uninterp spec fn selected_attribute(
    document: Seq<char>,
    selector: Seq<char>,
    attribute: Seq<char>,
) -> Option<Seq<Option<Seq<char>>>>;

/// The greatest number of characters of a page that is read.
///
/// The parser keeps text in buffers whose lengths are 32-bit numbers of
/// bytes, and stops the program where one would not fit. A character takes
/// up to four bytes, and the parser writes some characters out longer than
/// they came in; a page within this length takes a sixty-fourth of that
/// limit at most.
pub const MAX_PAGE_LENGTH: usize = 0x100_0000;

/// Whether a page is short enough to be read.
pub open spec fn readable(page: Seq<char>) -> bool {
    page.len() <= MAX_PAGE_LENGTH
}

/// Whether `selector` is one of the selectors by which texts are taken
/// from a page. Each is a chain of tag and class names: matching them does
/// not go deeper into itself the deeper a page is nested.
pub open spec fn is_text_selector(selector: Seq<char>) -> bool {
    selector == artist_selector() || selector == title_selector() || selector == rating_selector()
}

/// Calls `scraper::Selector::parse`, `scraper::Html::parse_document`,
/// `Html::select` and `ElementRef::inner_html`. Believed of them: that on a
/// document within [`MAX_PAGE_LENGTH`], with one of the library's own
/// selectors, they return, and that the texts they give are a function of
/// the document and the selector alone, which [`selected_inner_html`] names.
/// Nothing is claimed of what the texts are.
#[verifier::external_body]
fn select_inner_html(document: &str, selector: &str) -> (r: Option<Vec<String>>)
    requires
        document@.len() <= MAX_PAGE_LENGTH,
        is_text_selector(selector@),
    ensures
        r.deep_view() == selected_inner_html(document@, selector@),
{
    let selector = scraper::Selector::parse(selector).ok()?;
    let html = scraper::Html::parse_document(document);
    Some(html.select(&selector).map(|element| element.inner_html()).collect())
}

/// Calls `scraper::Selector::parse`, `scraper::Html::parse_document`,
/// `Html::select` and `ElementRef::attr`. Believed of them: that on a
/// document within [`MAX_PAGE_LENGTH`], with the library's own selector and
/// attribute for links, they return, and that the values they give are a
/// function of the document, the selector and the attribute's name alone,
/// which [`selected_attribute`] names. Nothing is claimed of what the values
/// are.
#[verifier::external_body]
fn select_attribute(document: &str, selector: &str, attribute: &str) -> (r: Option<
    Vec<Option<String>>,
>)
    requires
        document@.len() <= MAX_PAGE_LENGTH,
        selector@ == link_selector(),
        attribute@ == link_attribute(),
    ensures
        r.deep_view() == selected_attribute(document@, selector@, attribute@),
{
    let selector = scraper::Selector::parse(selector).ok()?;
    let html = scraper::Html::parse_document(document);
    Some(html.select(&selector).map(|element| element.attr(attribute).map(String::from)).collect())
}

/// What the selector finds on the page: the inner HTML of each element it
/// matches. `None` where the page is too long to be read or the selector is
/// refused.
pub open spec fn page_inner_html(page: Seq<char>, selector: Seq<char>) -> Option<Seq<Seq<char>>> {
    if readable(page) {
        selected_inner_html(page, selector)
    } else {
        None
    }
}

/// What the selector finds on the page: of each element it matches, the
/// value of the attribute, if the element has it. `None` where the page is
/// too long to be read or the selector is refused.
pub open spec fn page_attribute(
    page: Seq<char>,
    selector: Seq<char>,
    attribute: Seq<char>,
) -> Option<Seq<Option<Seq<char>>>> {
    if readable(page) {
        selected_attribute(page, selector, attribute)
    } else {
        None
    }
}

/// Whether the page is short enough to be read.
pub fn is_readable(page: &str) -> (r: bool)
    ensures
        r == readable(page@),
{
    page.unicode_len() <= MAX_PAGE_LENGTH
}

/// The inner HTML of each element of the page that the selector matches.
fn inner_html_on_page(page: &str, selector: &str) -> (r: Option<Vec<String>>)
    requires
        is_text_selector(selector@),
    ensures
        r.deep_view() == page_inner_html(page@, selector@),
{
    if is_readable(page) {
        select_inner_html(page, selector)
    } else {
        None
    }
}

/// Of each element of the page that the selector matches, the value of the
/// attribute.
fn attribute_on_page(page: &str, selector: &str, attribute: &str) -> (r: Option<
    Vec<Option<String>>,
>)
    requires
        selector@ == link_selector(),
        attribute@ == link_attribute(),
    ensures
        r.deep_view() == page_attribute(page@, selector@, attribute@),
{
    if is_readable(page) {
        select_attribute(page, selector, attribute)
    } else {
        None
    }
}

/// An album of the site.
#[derive(Debug, PartialEq, Eq)]
pub struct Album {
    pub id: i32,
    pub artist: String,
    pub title: String,
}

/// The line that names an album: its number, then artist and title in
/// quotation marks.
pub open spec fn album_line(id: int, artist: Seq<char>, title: Seq<char>) -> Seq<char> {
    decimal(id) + ", \""@ + artist + " - "@ + title + "\""@
}

impl Album {
    /// The line that names the album.
    pub fn describe(&self) -> (line: String)
        ensures
            line@ == album_line(self.id as int, self.artist@, self.title@),
    {
        let mut line = String::new();
        append_decimal(&mut line, self.id);
        line.append(", \"");
        line.append(self.artist.as_str());
        line.append(" - ");
        line.append(self.title.as_str());
        line.append("\"");
        proof {
            assert(Seq::<char>::empty() + decimal(self.id as int) =~= decimal(self.id as int));
        }
        line
    }
}

/// The selector for the artist's name on an album's page.
pub open spec fn artist_selector() -> Seq<char> {
    "div.albumHeadline > h1 > div.artist > span > span > a"@
}

/// The selector for the title on an album's page.
pub open spec fn title_selector() -> Seq<char> {
    "div.albumHeadline > h1 > div.albumTitle > span"@
}

/// The selector for a rating on a page of ratings. The first element it
/// matches is not a user's rating.
pub open spec fn rating_selector() -> Seq<char> {
    "div.rating"@
}

/// The selector for the links on a page of a chart.
pub open spec fn link_selector() -> Seq<char> {
    "span > a"@
}

/// The attribute that holds a link's target.
pub open spec fn link_attribute() -> Seq<char> {
    "href"@
}

/// The artist of an album whose page names none.
pub open spec fn unknown_artist() -> Seq<char> {
    "Various Artists"@
}

/// The title of an album whose page shows none.
pub open spec fn unknown_title() -> Seq<char> {
    "???"@
}

/// The first of the texts, or `fallback` where there is none.
pub open spec fn first_or(texts: Seq<Seq<char>>, fallback: Seq<char>) -> Seq<char> {
    if texts.len() > 0 {
        texts[0]
    } else {
        fallback
    }
}

/// The first of the texts, or `fallback` where there is none.
pub fn first_text_or(texts: &Vec<String>, fallback: &str) -> (r: String)
    ensures
        r@ == first_or(texts.deep_view(), fallback@),
{
    if texts.len() > 0 {
        texts[0].clone()
    } else {
        fallback.to_owned()
    }
}

/// The album with number `id`, from what its page shows as artists and as
/// titles: the first of each, or a stand-in where the page shows none.
pub fn album_from_selection(id: i32, artists: &Vec<String>, titles: &Vec<String>) -> (album: Album)
    ensures
        album.id == id,
        album.artist@ == first_or(artists.deep_view(), unknown_artist()),
        album.title@ == first_or(titles.deep_view(), unknown_title()),
{
    Album {
        id,
        artist: first_text_or(artists, "Various Artists"),
        title: first_text_or(titles, "???"),
    }
}

/// The album with number `id`, read from its page. `None` where the page is
/// too long to be read or a selector is refused.
pub fn album_of_page(id: i32, page: &str) -> (r: Option<Album>)
    ensures
        match r {
            Some(album) => {
                &&& page_inner_html(page@, artist_selector()) matches Some(artists)
                &&& page_inner_html(page@, title_selector()) matches Some(titles)
                &&& album.id == id
                &&& album.artist@ == first_or(artists, unknown_artist())
                &&& album.title@ == first_or(titles, unknown_title())
            },
            None => page_inner_html(page@, artist_selector()) is None || page_inner_html(
                page@,
                title_selector(),
            ) is None,
        },
        !readable(page@) ==> r is None,
{
    let artists = inner_html_on_page(page, "div.albumHeadline > h1 > div.artist > span > span > a");
    let titles = inner_html_on_page(page, "div.albumHeadline > h1 > div.albumTitle > span");
    match (artists, titles) {
        (Some(artists), Some(titles)) => Some(album_from_selection(id, &artists, &titles)),
        _ => None,
    }
}

/// The texts but for the first of them.
pub open spec fn all_but_first(texts: Seq<Seq<char>>) -> Seq<Seq<char>> {
    if texts.len() == 0 {
        texts
    } else {
        texts.skip(1)
    }
}

/// The texts of the users' ratings among the texts that the rating selector
/// found: all but the first.
pub fn ratings_of_selection(texts: &Vec<String>) -> (ratings: Vec<String>)
    ensures
        ratings.deep_view() == all_but_first(texts.deep_view()),
{
    let mut ratings: Vec<String> = Vec::new();
    if texts.len() == 0 {
        proof {
            assert(ratings.deep_view() =~= texts.deep_view());
        }
        return ratings;
    }
    let mut i: usize = 1;
    while i < texts.len()
        invariant
            1 <= i <= texts.len(),
            ratings.len() == i - 1,
            forall|j: int| 0 <= j < ratings.len() ==> (#[trigger] ratings[j])@ == texts[j + 1]@,
        decreases texts.len() - i,
    {
        ratings.push(texts[i].clone());
        i += 1;
    }
    proof {
        assert(ratings.deep_view() =~= texts.deep_view().skip(1));
    }
    ratings
}

/// The texts of the users' ratings on a page of ratings. `None` where the
/// page is too long to be read or the selector is refused.
pub fn rating_texts(page: &str) -> (r: Option<Vec<String>>)
    ensures
        r.deep_view() == match page_inner_html(page@, rating_selector()) {
            Some(texts) => Some(all_but_first(texts)),
            None => None,
        },
        !readable(page@) ==> r is None,
{
    match inner_html_on_page(page, "div.rating") {
        Some(texts) => Some(ratings_of_selection(&texts)),
        None => None,
    }
}

/// The numbers of the albums that the links lead to, in the order of the
/// links; `None` where a link that begins as one to an album is malformed.
/// Elements without a target and links to other things are passed over.
pub open spec fn album_ids(targets: Seq<Option<Seq<char>>>) -> Option<Seq<i32>>
    decreases targets.len(),
{
    if targets.len() == 0 {
        Some(Seq::empty())
    } else {
        match album_ids(targets.drop_last()) {
            None => None,
            Some(ids) => match targets.last() {
                None => Some(ids),
                Some(target) => match link_kind(target) {
                    Link::Other => Some(ids),
                    Link::Album(id) => Some(ids.push(id)),
                    Link::Malformed => None,
                },
            },
        }
    }
}

/// Once the links up to some point have no numbers to give, neither have
/// all of them.
pub proof fn lemma_album_ids_fail(targets: Seq<Option<Seq<char>>>, k: int)
    requires
        0 <= k <= targets.len(),
        album_ids(targets.take(k)) is None,
    ensures
        album_ids(targets) is None,
    decreases targets.len() - k,
{
    if k < targets.len() {
        assert(targets.take(k + 1).drop_last() =~= targets.take(k));
        lemma_album_ids_fail(targets, k + 1);
    } else {
        assert(targets.take(k) =~= targets);
    }
}

/// The numbers of the albums that the links lead to.
pub fn album_ids_of_links(targets: &Vec<Option<String>>) -> (r: Option<Vec<i32>>)
    ensures
        r.deep_view() == album_ids(targets.deep_view()),
{
    let mut ids: Vec<i32> = Vec::new();
    let mut i: usize = 0;
    proof {
        assert(targets.deep_view().take(0) =~= Seq::empty());
    }
    while i < targets.len()
        invariant
            i <= targets.len(),
            album_ids(targets.deep_view().take(i as int)) == Some(ids@),
        decreases targets.len() - i,
    {
        proof {
            assert(targets.deep_view().take(i + 1).drop_last() =~= targets.deep_view().take(
                i as int,
            ));
            assert(targets.deep_view().take(i + 1).last() == targets[i as int].deep_view());
        }
        match &targets[i] {
            None => {},
            Some(target) => match read_link(target.as_str()) {
                Link::Other => {},
                Link::Album(id) => {
                    ids.push(id);
                },
                Link::Malformed => {
                    proof {
                        lemma_album_ids_fail(targets.deep_view(), i + 1);
                    }
                    return None;
                },
            },
        }
        i += 1;
    }
    proof {
        assert(targets.deep_view().take(i as int) =~= targets.deep_view());
        assert(ids.deep_view() =~= ids@);
    }
    Some(ids)
}

/// The numbers of the albums on a page of a chart, in the order of the page.
/// `None` where the page is too long to be read, the selector is refused or
/// a link to an album is malformed.
pub fn album_ids_of_page(page: &str) -> (r: Option<Vec<i32>>)
    ensures
        r.deep_view() == match page_attribute(page@, link_selector(), link_attribute()) {
            Some(targets) => album_ids(targets),
            None => None,
        },
        !readable(page@) ==> r is None,
{
    match attribute_on_page(page, "span > a", "href") {
        Some(targets) => album_ids_of_links(&targets),
        None => None,
    }
}

} // verus!
