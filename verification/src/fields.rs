//! Lines of numbers separated by commas.
//!
//! A line is cut at its commas, and each piece is taken without the white
//! space around it. What a field says is left to the reader of the fields:
//! a field need not be a number.
use vstd::prelude::*;
use vstd::string::*;

verus! {

/// Whether `c` is white space: a character with the Unicode property
/// `White_Space`.
pub open spec fn is_space(c: char) -> bool {
    ||| '\u{9}' <= c <= '\u{d}'
    ||| c == ' '
    ||| c == '\u{85}'
    ||| c == '\u{a0}'
    ||| c == '\u{1680}'
    ||| '\u{2000}' <= c <= '\u{200a}'
    ||| c == '\u{2028}'
    ||| c == '\u{2029}'
    ||| c == '\u{202f}'
    ||| c == '\u{205f}'
    ||| c == '\u{3000}'
}

/// `s` without the white space it begins with.
pub open spec fn trim_start(s: Seq<char>) -> Seq<char>
    decreases s.len(),
{
    if s.len() > 0 && is_space(s.first()) {
        trim_start(s.drop_first())
    } else {
        s
    }
}

/// `s` without the white space it ends with.
pub open spec fn trim_end(s: Seq<char>) -> Seq<char>
    decreases s.len(),
{
    if s.len() > 0 && is_space(s.last()) {
        trim_end(s.drop_last())
    } else {
        s
    }
}

/// `s` without the white space around it.
pub open spec fn trimmed(s: Seq<char>) -> Seq<char> {
    trim_end(trim_start(s))
}

/// The pieces between the commas of `s`, in order. There is one piece more
/// than there are commas: a comma ends a piece and begins the next, and any
/// other character belongs to the piece it stands in.
pub open spec fn pieces(s: Seq<char>) -> Seq<Seq<char>>
    decreases s.len(),
{
    if s.len() == 0 {
        seq![Seq::empty()]
    } else {
        let before = pieces(s.drop_last());
        if s.last() == ',' {
            before.push(Seq::empty())
        } else {
            before.drop_last().push(before.last().push(s.last()))
        }
    }
}

/// The fields of the line `s`: its pieces, each without the white space
/// around it.
pub open spec fn fields(s: Seq<char>) -> Seq<Seq<char>> {
    Seq::new(pieces(s).len(), |i: int| trimmed(pieces(s)[i]))
}

/// Whether `c` is white space.
pub fn is_white_space(c: char) -> (r: bool)
    ensures
        r == is_space(c),
{
    ('\u{9}' <= c && c <= '\u{d}') || c == ' ' || c == '\u{85}' || c == '\u{a0}' || c == '\u{1680}'
        || ('\u{2000}' <= c && c <= '\u{200a}') || c == '\u{2028}' || c == '\u{2029}' || c
        == '\u{202f}' || c == '\u{205f}' || c == '\u{3000}'
}

/// The characters of the text.
fn chars_of(text: &str) -> (v: Vec<char>)
    ensures
        v@ == text@,
{
    let mut v: Vec<char> = Vec::new();
    for c in it: text.chars()
        invariant
            v@ == it.seq().take(it.index() as int),
            it.seq() == text@,
    {
        proof {
            assert(it.seq().take(it.index() + 1) =~= it.seq().take(it.index() as int).push(c));
        }
        v.push(c);
    }
    v
}

/// Skipping white space from `a` up to `stop` trims the start.
proof fn lemma_trim_start(s: Seq<char>, a: int, stop: int, b: int)
    requires
        0 <= a <= stop <= b <= s.len(),
        forall|i: int| a <= i < stop ==> is_space(#[trigger] s[i]),
        stop == b || !is_space(s[stop]),
    ensures
        trim_start(s.subrange(a, b)) == s.subrange(stop, b),
    decreases stop - a,
{
    let piece = s.subrange(a, b);
    if a < stop {
        assert(piece.first() == s[a]);
        assert(piece.drop_first() =~= s.subrange(a + 1, b));
        lemma_trim_start(s, a + 1, stop, b);
    } else if a < b {
        assert(piece.first() == s[a]);
    }
}

/// Skipping white space from `b` down to `stop` trims the end.
proof fn lemma_trim_end(s: Seq<char>, a: int, stop: int, b: int)
    requires
        0 <= a <= stop <= b <= s.len(),
        forall|i: int| stop <= i < b ==> is_space(#[trigger] s[i]),
        stop == a || !is_space(s[stop - 1]),
    ensures
        trim_end(s.subrange(a, b)) == s.subrange(a, stop),
    decreases b - stop,
{
    let piece = s.subrange(a, b);
    if stop < b {
        assert(piece.last() == s[b - 1]);
        assert(piece.drop_last() =~= s.subrange(a, b - 1));
        lemma_trim_end(s, a, stop, b - 1);
    } else if a < b {
        assert(piece.last() == s[b - 1]);
    }
}

/// The field that stands in `line` from character `a` up to character `b`.
fn field_between(line: &str, chars: &Vec<char>, a: usize, b: usize) -> (field: String)
    requires
        chars@ == line@,
        a <= b <= chars.len(),
    ensures
        field@ == trimmed(line@.subrange(a as int, b as int)),
{
    let mut from: usize = a;
    while from < b && is_white_space(chars[from])
        invariant
            a <= from <= b <= chars.len(),
            forall|i: int| a <= i < from ==> is_space(#[trigger] chars[i]),
        decreases b - from,
    {
        from += 1;
    }
    let mut to: usize = b;
    while to > from && is_white_space(chars[to - 1])
        invariant
            from <= to <= b <= chars.len(),
            forall|i: int| to <= i < b ==> is_space(#[trigger] chars[i]),
        decreases to,
    {
        to -= 1;
    }
    proof {
        lemma_trim_start(chars@, a as int, from as int, b as int);
        lemma_trim_end(chars@, from as int, to as int, b as int);
    }
    line.substring_char(from, to).to_owned()
}

/// The fields of a line.
pub fn fields_of_line(line: &str) -> (r: Vec<String>)
    ensures
        r.deep_view() == fields(line@),
{
    let chars = chars_of(line);
    let n: usize = chars.len();
    let mut r: Vec<String> = Vec::new();
    let mut start: usize = 0;
    let mut i: usize = 0;
    proof {
        assert(chars@.take(0) =~= Seq::empty());
        assert(chars@.subrange(0, 0) =~= Seq::empty());
    }
    while i < n
        invariant
            start <= i <= n,
            n == chars.len(),
            chars@ == line@,
            pieces(chars@.take(i as int)).len() == r.len() + 1,
            pieces(chars@.take(i as int)).last() == chars@.subrange(start as int, i as int),
            forall|k: int|
                0 <= k < r.len() ==> (#[trigger] r[k])@ == trimmed(pieces(chars@.take(i as int))[k]),
        decreases n - i,
    {
        proof {
            assert(chars@.take(i + 1).drop_last() =~= chars@.take(i as int));
            assert(chars@.take(i + 1).last() == chars[i as int]);
        }
        if chars[i] == ',' {
            let field = field_between(line, &chars, start, i);
            r.push(field);
            start = i + 1;
            proof {
                assert(chars@.subrange(start as int, start as int) =~= Seq::empty());
            }
        } else {
            proof {
                assert(chars@.subrange(start as int, i + 1) =~= chars@.subrange(
                    start as int,
                    i as int,
                ).push(chars[i as int]));
            }
        }
        i += 1;
    }
    let field = field_between(line, &chars, start, n);
    r.push(field);
    proof {
        assert(chars@.take(n as int) =~= chars@);
        assert(r.deep_view() =~= fields(line@));
    }
    r
}

} // verus!
