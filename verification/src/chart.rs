//! Going through the pages of a chart, and of an album's ratings.
//!
//! Both come in pages of a fixed size, and a page that holds fewer entries
//! than a full one is the last.
use vstd::prelude::*;
use crate::page::{album_ids, album_ids_of_page, link_attribute, link_selector, page_attribute, readable};

verus! {

/// The number of ratings on a full page of ratings.
pub const RATINGS_PER_PAGE: usize = 80;

/// The number of albums on a full page of a chart.
pub const ALBUMS_PER_PAGE: usize = 25;

/// The first year that has a chart.
pub const EARLIEST_CHART_YEAR: i32 = 1950;

/// The least time from one request to the next, in milliseconds.
pub const REQUEST_INTERVAL: u128 = 1000;

/// How long to wait before the next request, in milliseconds, when the last
/// one was begun `elapsed` milliseconds ago; `None` where the interval has
/// passed already.
pub fn wait_before_next_request(elapsed: u128) -> (r: Option<u64>)
    ensures
        r == if elapsed < REQUEST_INTERVAL {
            Some((REQUEST_INTERVAL - elapsed) as u64)
        } else {
            None
        },
{
    if elapsed < REQUEST_INTERVAL {
        Some((REQUEST_INTERVAL - elapsed) as u64)
    } else {
        None
    }
}

/// Whether there is a chart for the year.
pub fn has_chart(year: i32) -> (r: bool)
    ensures
        r == (year >= EARLIEST_CHART_YEAR),
{
    year >= EARLIEST_CHART_YEAR
}

/// Whether a page on which `found` entries were found, of pages that hold
/// `page_size` when full, is the last.
pub fn is_last_page(found: usize, page_size: usize) -> (r: bool)
    ensures
        r == (found < page_size),
{
    found < page_size
}

/// Whether a page of ratings from which `found` ratings were taken is the
/// last.
pub fn is_last_ratings_page(found: usize) -> (r: bool)
    ensures
        r == (found < RATINGS_PER_PAGE),
{
    is_last_page(found, RATINGS_PER_PAGE)
}

/// What a page of a chart adds to the albums found so far.
#[derive(Clone, Copy, Debug, PartialEq, Eq, Structural)]
pub enum ChartPage {
    /// A full page: the next page is to be read.
    Full,
    /// The last page.
    Last,
    /// A page that could not be read: one that is too long, or one with a
    /// malformed link to an album. Nothing was added.
    Unreadable,
}

/// Adds the albums on a page of a chart to those found so far, and says
/// whether the page was the last.
pub fn add_chart_page(ids: &mut Vec<i32>, page: &str) -> (r: ChartPage)
    ensures
        !readable(page@) ==> r == ChartPage::Unreadable,
        match page_attribute(page@, link_selector(), link_attribute()) {
            Some(targets) => match album_ids(targets) {
                Some(found) => {
                    &&& final(ids)@ == old(ids)@ + found
                    &&& r == if found.len() < ALBUMS_PER_PAGE {
                        ChartPage::Last
                    } else {
                        ChartPage::Full
                    }
                },
                None => r == ChartPage::Unreadable && final(ids)@ == old(ids)@,
            },
            None => r == ChartPage::Unreadable && final(ids)@ == old(ids)@,
        },
{
    match album_ids_of_page(page) {
        Some(found) => {
            let count: usize = found.len();
            let mut found = found;
            ids.append(&mut found);
            if is_last_page(count, ALBUMS_PER_PAGE) {
                ChartPage::Last
            } else {
                ChartPage::Full
            }
        },
        None => ChartPage::Unreadable,
    }
}

} // verus!
