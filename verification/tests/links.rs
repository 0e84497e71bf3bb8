use mean_ci::links::{parse_album_number, read_capture, read_link, starts_with, Link};

#[test]
fn starts_with_a_prefix() {
    assert!(starts_with("/album/1-a.php", "/album/"));
    assert!(starts_with("/album/", "/album/"));
    assert!(starts_with("anything", ""));
    assert!(starts_with("", ""));
}

#[test]
fn does_not_start_with_what_differs_or_is_longer() {
    assert!(!starts_with("/albums/1-a.php", "/album/"));
    assert!(!starts_with("/albu", "/album/"));
    assert!(!starts_with("", "/album/"));
    assert!(!starts_with("x/album/", "/album/"));
    assert!(!starts_with("/Album/1", "/album/"));
}

#[test]
fn starts_with_counts_characters_not_bytes() {
    assert!(starts_with("é/album/", "é"));
    assert!(!starts_with("e/album/", "é"));
    assert!(starts_with("日本語のテキスト", "日本"));
}

#[test]
fn numerals_are_read() {
    assert_eq!(parse_album_number("0"), Some(0));
    assert_eq!(parse_album_number("7"), Some(7));
    assert_eq!(parse_album_number("00012"), Some(12));
    assert_eq!(parse_album_number("12345"), Some(12345));
    assert_eq!(parse_album_number("2147483647"), Some(i32::MAX));
}

#[test]
fn numerals_too_large_are_refused() {
    assert_eq!(parse_album_number("2147483648"), None);
    assert_eq!(parse_album_number("9999999999"), None);
    assert_eq!(parse_album_number("100000000000000000000000000"), None);
}

#[test]
fn what_is_not_a_numeral_is_refused() {
    assert_eq!(parse_album_number(""), None);
    assert_eq!(parse_album_number("12a"), None);
    assert_eq!(parse_album_number("a12"), None);
    assert_eq!(parse_album_number("-12"), None);
    assert_eq!(parse_album_number("+12"), None);
    assert_eq!(parse_album_number(" 12"), None);
    assert_eq!(parse_album_number("1 2"), None);
    assert_eq!(parse_album_number("１２"), None);
    assert_eq!(parse_album_number("12é"), None);
}

#[test]
fn captures_are_read() {
    assert_eq!(read_capture(&Some(String::from("4821"))), Link::Album(4821));
    assert_eq!(read_capture(&Some(String::from("99999999999"))), Link::Malformed);
    assert_eq!(read_capture(&Some(String::from("x"))), Link::Malformed);
    assert_eq!(read_capture(&None), Link::Malformed);
}

#[test]
fn links_to_albums_give_their_number() {
    assert_eq!(read_link("/album/12345-some-artist-some-title.php"), Link::Album(12345));
    assert_eq!(read_link("/album/7-x.php"), Link::Album(7));
    assert_eq!(read_link("/album/12--name.php"), Link::Album(12));
    assert_eq!(read_link("/album/12-a.php?p=2"), Link::Album(12));
    assert_eq!(read_link("/album/0042-a-b.php"), Link::Album(42));
}

#[test]
fn links_elsewhere_are_other() {
    assert_eq!(read_link("/artist/12-someone/"), Link::Other);
    assert_eq!(read_link("/ratings/user-highest-rated/2020/2/"), Link::Other);
    assert_eq!(read_link("album/12-a.php"), Link::Other);
    assert_eq!(read_link("https://example.org/album/12-a.php"), Link::Other);
    assert_eq!(read_link(""), Link::Other);
}

#[test]
fn links_that_only_begin_as_album_links_are_malformed() {
    assert_eq!(read_link("/album/"), Link::Malformed);
    assert_eq!(read_link("/album/12345"), Link::Malformed);
    assert_eq!(read_link("/album/12345.php"), Link::Malformed);
    assert_eq!(read_link("/album/12-.php"), Link::Malformed);
    assert_eq!(read_link("/album/abc-def.php"), Link::Malformed);
    assert_eq!(read_link("/album/12-name.html"), Link::Malformed);
    assert_eq!(read_link("/album/99999999999-name.php"), Link::Malformed);
}
