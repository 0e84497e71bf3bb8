use mean_ci::fields::{fields_of_line, is_white_space};

fn by_the_standard_library(line: &str) -> Vec<String> {
    line.split(',').map(|piece| piece.trim().to_string()).collect()
}

#[test]
fn white_space_is_what_the_standard_library_says() {
    for code in 0..=0x10FFFFu32 {
        if let Some(c) = char::from_u32(code) {
            assert_eq!(is_white_space(c), c.is_whitespace(), "U+{code:04X}");
        }
    }
}

#[test]
fn fields_of_a_plain_line() {
    assert_eq!(fields_of_line("10,20,30"), vec!["10", "20", "30"]);
    assert_eq!(fields_of_line("7.5"), vec!["7.5"]);
}

#[test]
fn fields_lose_the_white_space_around_them() {
    assert_eq!(fields_of_line(" 10 ,\t20.5,30 \r"), vec!["10", "20.5", "30"]);
    assert_eq!(fields_of_line("\u{a0}1\u{3000},\u{2003}2"), vec!["1", "2"]);
    assert_eq!(fields_of_line("1 2, 3  4 "), vec!["1 2", "3  4"]);
}

#[test]
fn empty_pieces_are_fields_too() {
    assert_eq!(fields_of_line(""), vec![""]);
    assert_eq!(fields_of_line(","), vec!["", ""]);
    assert_eq!(fields_of_line("1,,2,"), vec!["1", "", "2", ""]);
    assert_eq!(fields_of_line("   "), vec![""]);
    assert_eq!(fields_of_line(" , ,"), vec!["", "", ""]);
}

#[test]
fn fields_need_not_be_numbers() {
    assert_eq!(fields_of_line("a, 1e5 ,NaN,é ü"), vec!["a", "1e5", "NaN", "é ü"]);
}

#[test]
fn fields_agree_with_split_and_trim() {
    let lines = [
        "",
        "1",
        "1,2,3",
        " 1 , 2 ,\t3\n",
        ",,",
        "a,,b, ,c",
        "  leading,trailing  ,  both  ",
        "日本,語 , テキスト",
        "\u{2028}x\u{2029},\u{85}y\u{1680}",
        "no commas at all   ",
        ",",
        "1.5, 2.5, 3.5, 4.5, 5.5, 6.5, 7.5, 8.5, 9.5, 10.5",
    ];
    for line in lines {
        assert_eq!(fields_of_line(line), by_the_standard_library(line), "{line:?}");
    }
}
