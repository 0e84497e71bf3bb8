//! Links to albums, as a chart page gives them.
//!
//! A link to an album begins with `/album/`; what follows is the album's
//! number in decimal digits, one or more hyphens, a name and `.php`. The
//! library takes the number from the link with a regular expression and
//! reads the digits itself.
use vstd::prelude::*;
use vstd::string::*;

verus! {

/// The text that group `group` of the regular expression `pattern` took in
/// the leftmost match of the pattern in `text`; `None` where the pattern is
/// not a regular expression, does not match, or matches without that group.
pub uninterp spec fn captured(pattern: Seq<char>, text: Seq<char>, group: nat) -> Option<Seq<char>>;

/// Calls `regex::Regex::new`, `Regex::captures`, `Captures::get` and
/// `Match::as_str`, with the library's own pattern. Believed of them: that
/// what the group took is a function of the pattern, the text and the
/// group's number alone, which [`captured`] names. Nothing is claimed of
/// what that text is.
#[verifier::external_body]
fn capture(pattern: &str, text: &str, group: usize) -> (r: Option<String>)
    requires
        pattern@ == album_pattern(),
    ensures
        match r {
            Some(s) => captured(pattern@, text@, group as nat) == Some(s@),
            None => captured(pattern@, text@, group as nat) is None,
        },
{
    let expression = regex::Regex::new(pattern).ok()?;
    let groups = expression.captures(text)?;
    Some(groups.get(group)?.as_str().to_string())
}

/// What every link to an album begins with.
pub open spec fn album_prefix() -> Seq<char> {
    "/album/"@
}

/// The regular expression for a link to an album; its first group is the
/// album's number.
pub open spec fn album_pattern() -> Seq<char> {
    r"^\/album\/([0-9]+)-+(.+)\.php"@
}

/// Whether `c` is a decimal digit.
pub open spec fn is_digit(c: char) -> bool {
    '0' <= c <= '9'
}

/// The number that the digits `s` write in decimal.
pub open spec fn numeral_value(s: Seq<char>) -> nat
    decreases s.len(),
{
    if s.len() == 0 {
        0
    } else {
        numeral_value(s.drop_last()) * 10 + (s.last() as u32 - '0' as u32) as nat
    }
}

/// Whether `s` is a numeral: one or more decimal digits and nothing else.
pub open spec fn is_numeral(s: Seq<char>) -> bool {
    s.len() > 0 && forall|i: int| 0 <= i < s.len() ==> is_digit(#[trigger] s[i])
}

/// The album number that `s` writes, where `s` is a numeral for a number
/// that an album number can hold.
pub open spec fn album_number(s: Seq<char>) -> Option<i32> {
    if is_numeral(s) && numeral_value(s) <= i32::MAX {
        Some(numeral_value(s) as i32)
    } else {
        None
    }
}

/// What a link is found to be.
#[derive(Clone, Copy, Debug, PartialEq, Eq, Structural)]
pub enum Link {
    /// A link to something other than an album.
    Other,
    /// A link to the album with this number.
    Album(i32),
    /// A link that begins as one to an album but does not go on as one, or
    /// whose number is too large.
    Malformed,
}

/// What a link that begins with [`album_prefix`] is, given what the first
/// group of [`album_pattern`] took in it.
pub open spec fn link_of_capture(capture: Option<Seq<char>>) -> Link {
    match capture {
        Some(digits) => match album_number(digits) {
            Some(id) => Link::Album(id),
            None => Link::Malformed,
        },
        None => Link::Malformed,
    }
}

/// What the link is.
pub open spec fn link_kind(link: Seq<char>) -> Link {
    if album_prefix().is_prefix_of(link) {
        link_of_capture(captured(album_pattern(), link, 1))
    } else {
        Link::Other
    }
}

/// The numeral of a longer string of digits is no smaller than that of its
/// beginning.
pub proof fn lemma_numeral_grows(s: Seq<char>, k: int)
    requires
        0 <= k <= s.len(),
        forall|i: int| 0 <= i < s.len() ==> is_digit(#[trigger] s[i]),
    ensures
        numeral_value(s.take(k)) <= numeral_value(s),
    decreases s.len() - k,
{
    if k < s.len() {
        lemma_numeral_grows(s, k + 1);
        assert(s.take(k + 1).drop_last() =~= s.take(k));
        assert(is_digit(s[k]));
        assert(s.take(k + 1).last() == s[k]);
    } else {
        assert(s.take(k) =~= s);
    }
}

/// Whether `text` begins with `prefix`.
pub fn starts_with(text: &str, prefix: &str) -> (r: bool)
    ensures
        r == prefix@.is_prefix_of(text@),
{
    let n: usize = prefix.unicode_len();
    if text.unicode_len() < n {
        return false;
    }
    let mut i: usize = 0;
    while i < n
        invariant
            i <= n,
            n == prefix@.len(),
            n <= text@.len(),
            forall|j: int| 0 <= j < i ==> text@[j] == prefix@[j],
        decreases n - i,
    {
        if text.get_char(i) != prefix.get_char(i) {
            proof {
                assert(text@.subrange(0, n as int)[i as int] != prefix@[i as int]);
            }
            return false;
        }
        i += 1;
    }
    proof {
        assert(prefix@ =~= text@.subrange(0, n as int));
    }
    true
}

/// Reads an album number from its decimal digits.
pub fn parse_album_number(text: &str) -> (r: Option<i32>)
    ensures
        r == album_number(text@),
{
    if !text.is_ascii() {
        proof {
            let i = choose|i: int| 0 <= i < text@.len() && !('\0' <= #[trigger] text@[i] <= '\u{7f}');
            assert(!is_digit(text@[i]));
        }
        return None;
    }
    let n: usize = text.unicode_len();
    if n == 0 {
        return None;
    }
    let mut value: i32 = 0;
    let mut i: usize = 0;
    proof {
        assert(text@.take(0) =~= Seq::empty());
    }
    while i < n
        invariant
            i <= n,
            n == text@.len(),
            text.is_ascii(),
            0 <= value,
            value == numeral_value(text@.take(i as int)),
            forall|j: int| 0 <= j < i ==> is_digit(#[trigger] text@[j]),
        decreases n - i,
    {
        let b: u8 = text.get_ascii(i);
        if b < 48 || b > 57 {
            proof {
                assert(!is_digit(text@[i as int]));
            }
            return None;
        }
        let d: i32 = (b - 48) as i32;
        proof {
            assert(is_digit(text@[i as int]));
            assert(text@.take(i + 1).drop_last() =~= text@.take(i as int));
            assert(text@.take(i + 1).last() == text@[i as int]);
            assert(numeral_value(text@.take(i + 1)) == value * 10 + d);
        }
        if value > (i32::MAX - d) / 10 {
            proof {
                if is_numeral(text@) {
                    lemma_numeral_grows(text@, i + 1);
                }
            }
            return None;
        }
        value = value * 10 + d;
        i += 1;
    }
    proof {
        assert(text@.take(n as int) =~= text@);
    }
    Some(value)
}

/// What a link that begins as one to an album is, given what the first group
/// of the pattern took in it.
pub fn read_capture(capture: &Option<String>) -> (r: Link)
    ensures
        r == link_of_capture(
            match *capture {
                Some(s) => Some(s@),
                None => None,
            },
        ),
{
    match capture {
        Some(digits) => match parse_album_number(digits.as_str()) {
            Some(id) => Link::Album(id),
            None => Link::Malformed,
        },
        None => Link::Malformed,
    }
}

/// What the link is.
pub fn read_link(link: &str) -> (r: Link)
    ensures
        r == link_kind(link@),
{
    if starts_with(link, "/album/") {
        let found = capture(r"^\/album\/([0-9]+)-+(.+)\.php", link, 1);
        read_capture(&found)
    } else {
        Link::Other
    }
}

} // verus!
