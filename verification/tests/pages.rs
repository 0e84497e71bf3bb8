use mean_ci::chart::{
    add_chart_page, has_chart, is_last_page, is_last_ratings_page, wait_before_next_request,
    ChartPage, ALBUMS_PER_PAGE, EARLIEST_CHART_YEAR, RATINGS_PER_PAGE, REQUEST_INTERVAL,
};
use mean_ci::decimal::append_decimal;
use mean_ci::page::{
    album_from_selection, album_ids_of_links, album_ids_of_page, album_of_page, first_text_or,
    is_readable, rating_texts, ratings_of_selection, Album, MAX_PAGE_LENGTH,
};

fn strings(texts: &[&str]) -> Vec<String> {
    texts.iter().map(|t| String::from(*t)).collect()
}

fn album_page(artist: Option<&str>, title: Option<&str>) -> String {
    let artist = match artist {
        Some(name) => format!(
            "<div class=\"artist\"><span><span><a href=\"/artist/1-x/\">{name}</a></span></span></div>"
        ),
        None => String::from("<div class=\"artist\"><span><span>Several</span></span></div>"),
    };
    let title = match title {
        Some(name) => format!("<div class=\"albumTitle\"><span>{name}</span></div>"),
        None => String::new(),
    };
    format!(
        "<html><body><div class=\"albumHeadline\"><h1>{artist}{title}</h1></div></body></html>"
    )
}

fn chart_page(first: i32, count: i32) -> String {
    let mut page = String::from("<html><body><span><a href=\"/ratings/\">Charts</a></span>");
    for id in first..first + count {
        page.push_str(&format!("<span><a href=\"/album/{id}-artist-title-{id}.php\">t</a></span>"));
    }
    page.push_str("<span><a>no target</a></span></body></html>");
    page
}

#[test]
fn first_text_or_fallback() {
    assert_eq!(first_text_or(&strings(&["a", "b"]), "z"), "a");
    assert_eq!(first_text_or(&strings(&[]), "z"), "z");
    assert_eq!(first_text_or(&strings(&[""]), "z"), "");
}

#[test]
fn album_from_what_was_selected() {
    assert_eq!(
        album_from_selection(5, &strings(&["Artist", "Other"]), &strings(&["Title"])),
        Album { id: 5, artist: String::from("Artist"), title: String::from("Title") }
    );
    assert_eq!(
        album_from_selection(-3, &strings(&[]), &strings(&[])),
        Album { id: -3, artist: String::from("Various Artists"), title: String::from("???") }
    );
}

#[test]
fn album_is_read_from_its_page() {
    let page = album_page(Some("The Band"), Some("The Record"));
    assert_eq!(
        album_of_page(77, &page),
        Some(Album { id: 77, artist: String::from("The Band"), title: String::from("The Record") })
    );
}

#[test]
fn album_without_a_linked_artist_or_a_title() {
    let page = album_page(None, Some("Compilation"));
    assert_eq!(
        album_of_page(8, &page),
        Some(Album {
            id: 8,
            artist: String::from("Various Artists"),
            title: String::from("Compilation"),
        })
    );
    let page = album_page(Some("Solo"), None);
    assert_eq!(
        album_of_page(9, &page),
        Some(Album { id: 9, artist: String::from("Solo"), title: String::from("???") })
    );
    assert_eq!(
        album_of_page(10, ""),
        Some(Album { id: 10, artist: String::from("Various Artists"), title: String::from("???") })
    );
}

#[test]
fn album_title_keeps_its_markup() {
    let page = album_page(Some("A &amp; B"), Some("One <i>Two</i>"));
    let album = album_of_page(1, &page).unwrap();
    assert_eq!(album.artist, "A &amp; B");
    assert_eq!(album.title, "One <i>Two</i>");
}

#[test]
fn ratings_are_all_but_the_first_text() {
    assert_eq!(ratings_of_selection(&strings(&["NR", "90", "85", "70"])), strings(&["90", "85", "70"]));
    assert_eq!(ratings_of_selection(&strings(&["NR"])), strings(&[]));
    assert_eq!(ratings_of_selection(&strings(&[])), strings(&[]));
}

#[test]
fn ratings_are_read_from_a_page() {
    let page = "<html><body><div class=\"rating\">82</div>\
        <div class=\"row\"><div class=\"rating\">100</div></div>\
        <div class=\"row\"><div class=\"rating\">75</div></div>\
        <div class=\"other\">1</div>\
        <div class=\"row\"><div class=\"rating big\">NR</div></div></body></html>";
    assert_eq!(rating_texts(page), Some(strings(&["100", "75", "NR"])));
}

#[test]
fn a_page_without_ratings() {
    assert_eq!(rating_texts("<html><body><p>nothing</p></body></html>"), Some(strings(&[])));
    assert_eq!(rating_texts(""), Some(strings(&[])));
}

#[test]
fn album_numbers_from_links() {
    let targets = vec![
        Some(String::from("/ratings/")),
        Some(String::from("/album/31-a-b.php")),
        None,
        Some(String::from("/artist/2-c/")),
        Some(String::from("/album/7-d-e.php")),
        Some(String::from("/album/31-a-b.php")),
    ];
    assert_eq!(album_ids_of_links(&targets), Some(vec![31, 7, 31]));
    assert_eq!(album_ids_of_links(&Vec::new()), Some(Vec::new()));
}

#[test]
fn one_malformed_album_link_spoils_the_page() {
    let targets = vec![
        Some(String::from("/album/31-a-b.php")),
        Some(String::from("/album/nothing")),
        Some(String::from("/album/7-d-e.php")),
    ];
    assert_eq!(album_ids_of_links(&targets), None);
    let targets = vec![Some(String::from("/album/99999999999-a-b.php"))];
    assert_eq!(album_ids_of_links(&targets), None);
}

#[test]
fn album_numbers_from_a_chart_page() {
    assert_eq!(album_ids_of_page(&chart_page(100, 3)), Some(vec![100, 101, 102]));
    assert_eq!(album_ids_of_page("<html></html>"), Some(Vec::new()));
}

#[test]
fn links_outside_a_span_are_not_taken() {
    let page = "<html><body><a href=\"/album/1-a-b.php\">x</a>\
        <span><a href=\"/album/2-c-d.php\">y</a></span>\
        <span><b><a href=\"/album/3-e-f.php\">z</a></b></span></body></html>";
    assert_eq!(album_ids_of_page(page), Some(vec![2]));
}

#[test]
fn a_full_chart_page_asks_for_the_next() {
    let mut ids = vec![1, 2];
    assert_eq!(add_chart_page(&mut ids, &chart_page(10, 25)), ChartPage::Full);
    assert_eq!(ids.len(), 27);
    assert_eq!(&ids[..4], &[1, 2, 10, 11]);
    assert_eq!(ids[26], 34);
}

#[test]
fn a_short_chart_page_is_the_last() {
    let mut ids = vec![1, 2];
    assert_eq!(add_chart_page(&mut ids, &chart_page(10, 24)), ChartPage::Last);
    assert_eq!(ids.len(), 26);
    let mut none = Vec::new();
    assert_eq!(add_chart_page(&mut none, "<html></html>"), ChartPage::Last);
    assert!(none.is_empty());
}

#[test]
fn an_unreadable_chart_page_adds_nothing() {
    let mut ids = vec![1, 2];
    let page = "<span><a href=\"/album/5-a-b.php\">x</a></span><span><a href=\"/album/\">y</a></span>";
    assert_eq!(add_chart_page(&mut ids, page), ChartPage::Unreadable);
    assert_eq!(ids, vec![1, 2]);
}

#[test]
fn page_sizes() {
    assert_eq!(RATINGS_PER_PAGE, 80);
    assert_eq!(ALBUMS_PER_PAGE, 25);
    assert!(is_last_page(24, ALBUMS_PER_PAGE));
    assert!(!is_last_page(25, ALBUMS_PER_PAGE));
    assert!(!is_last_page(26, ALBUMS_PER_PAGE));
    assert!(is_last_page(0, 1));
    assert!(!is_last_page(0, 0));
    assert!(is_last_ratings_page(0));
    assert!(is_last_ratings_page(79));
    assert!(!is_last_ratings_page(80));
}

#[test]
fn charts_begin_in_1950() {
    assert_eq!(EARLIEST_CHART_YEAR, 1950);
    assert!(!has_chart(1949));
    assert!(has_chart(1950));
    assert!(has_chart(2024));
    assert!(!has_chart(-2000));
}

#[test]
fn requests_are_a_second_apart() {
    assert_eq!(REQUEST_INTERVAL, 1000);
    assert_eq!(wait_before_next_request(0), Some(1000));
    assert_eq!(wait_before_next_request(1), Some(999));
    assert_eq!(wait_before_next_request(250), Some(750));
    assert_eq!(wait_before_next_request(999), Some(1));
    assert_eq!(wait_before_next_request(1000), None);
    assert_eq!(wait_before_next_request(u128::MAX), None);
}

fn too_long_a_page() -> String {
    let mut page = chart_page(1, 3);
    page.push_str(&" ".repeat(MAX_PAGE_LENGTH + 1 - page.chars().count()));
    page
}

#[test]
fn pages_are_read_up_to_a_length() {
    assert_eq!(MAX_PAGE_LENGTH, 16_777_216);
    assert!(is_readable(""));
    assert!(is_readable(&chart_page(1, 25)));
    assert!(is_readable(&"é".repeat(MAX_PAGE_LENGTH)));
    assert!(!is_readable(&"é".repeat(MAX_PAGE_LENGTH + 1)));
    assert!(!is_readable(&too_long_a_page()));
}

#[test]
fn a_page_that_is_too_long_is_not_read() {
    let page = too_long_a_page();
    assert_eq!(page.chars().count(), MAX_PAGE_LENGTH + 1);
    assert_eq!(album_of_page(1, &page), None);
    assert_eq!(rating_texts(&page), None);
    assert_eq!(album_ids_of_page(&page), None);
    let mut ids = vec![4, 5];
    assert_eq!(add_chart_page(&mut ids, &page), ChartPage::Unreadable);
    assert_eq!(ids, vec![4, 5]);
}

#[test]
fn a_long_page_within_the_length_is_read() {
    let mut page = chart_page(1, 3);
    page.push_str(&" ".repeat(1_000_000));
    assert_eq!(album_ids_of_page(&page), Some(vec![1, 2, 3]));
}

#[test]
fn whole_numbers_are_written_in_decimal() {
    for n in [0, 1, 9, 10, 11, 99, 100, 12345, i32::MAX, -1, -9, -10, -4821, i32::MIN] {
        let mut text = String::from("n = ");
        append_decimal(&mut text, n);
        assert_eq!(text, format!("n = {n}"));
    }
}

#[test]
fn an_album_is_named_in_one_line() {
    let album = Album { id: 4821, artist: String::from("The Band"), title: String::from("Songs") };
    assert_eq!(album.describe(), "4821, \"The Band - Songs\"");
    let album = Album { id: -7, artist: String::new(), title: String::from("a \"b\" - c") };
    assert_eq!(album.describe(), format!("{}, \"{} - {}\"", album.id, album.artist, album.title));
    let album = Album { id: 0, artist: String::from("Ünï"), title: String::from("日本") };
    assert_eq!(album.describe(), "0, \"Ünï - 日本\"");
}
