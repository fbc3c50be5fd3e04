//! The data model of fictions from Royal Road, and the text processing that
//! turns scraped pages into it.

use vstd::prelude::*;

use crate::royalroad::contents::{increasing, insert_entry, keys_of, utf8, SetEntry};

pub mod contents;
pub mod page;

use crate::sept::sept_alphabet;
use vstd::string::StringSliceAdditionalSpecFns;

verus! {

/// The decimal digits of `n`, without leading zeros.
pub open spec fn dec_digits(n: nat) -> Seq<char>
    decreases n,
{
    if n < 10 {
        seq![sept_alphabet()[n as int]]
    } else {
        dec_digits(n / 10).push(sept_alphabet()[(n % 10) as int])
    }
}

/// The decimal digits of `n`, zero-padded on the left to at least `width`
/// characters.
pub open spec fn padded_decimal(n: nat, width: nat) -> Seq<char> {
    let digits = dec_digits(n);
    let padding = if width > digits.len() {
        (width - digits.len()) as nat
    } else {
        0
    };
    Seq::new(padding, |_i: int| '0') + digits
}

fn push_decimal(text: &mut String, n: u64)
    ensures
        final(text)@ == old(text)@ + dec_digits(n as nat),
    decreases n,
{
    let digits = "0123456789";
    proof {
        reveal_strlit("0123456789");
        assert(digits@ =~= sept_alphabet().take(10));
    }
    if n >= 10 {
        push_decimal(text, n / 10);
    }
    let d = (n % 10) as usize;
    text.append(digits.substring_ascii(d, d + 1));
    assert(text@ =~= old(text)@ + dec_digits(n as nat));
}

/// The decimal digits of `n`, zero-padded on the left to at least `width`
/// characters.
pub fn decimal_padded(n: u64, width: usize) -> (text: String)
    ensures
        text@ == padded_decimal(n as nat, width as nat),
{
    let mut digits = String::new();
    push_decimal(&mut digits, n);
    assert(digits@ =~= dec_digits(n as nat));
    let len = digits.as_str().unicode_len();
    let mut text = String::new();
    let zero = "0";
    proof {
        reveal_strlit("0");
        assert(zero@ =~= seq!['0']);
    }
    let mut i: usize = len;
    while i < width
        invariant
            zero@ == seq!['0'],
            len <= i,
            i <= width || i == len,
            text@ == Seq::new((i - len) as nat, |_i: int| '0'),
        decreases width - i,
    {
        text.append(zero);
        i = i + 1;
        assert(text@ =~= Seq::new((i - len) as nat, |_i: int| '0'));
    }
    text.append(digits.as_str());
    assert(text@ =~= padded_decimal(n as nat, width as nat));
    text
}

/// The name of fiction `id` in the cache: `RYL` and its number, zero-padded
/// to seven digits.
pub fn fic_id10(id: u64) -> (name: String)
    ensures
        name@ == seq!['R', 'Y', 'L'] + padded_decimal(id as nat, 7),
{
    let mut name = String::new();
    proof {
        reveal_strlit("RYL");
    }
    name.append("RYL");
    let number = decimal_padded(id, 7);
    name.append(number.as_str());
    name
}

/// The name of chapter `id` in the cache: `C` and its number, zero-padded
/// to nine digits.
pub fn chapter_id10(id: u64) -> (name: String)
    ensures
        name@ == seq!['C'] + padded_decimal(id as nat, 9),
{
    let mut name = String::new();
    proof {
        reveal_strlit("C");
    }
    name.append("C");
    let number = decimal_padded(id, 9);
    name.append(number.as_str());
    name
}

/// Whether `c` is white space: the Unicode `White_Space` property.
pub open spec fn is_white_space(c: char) -> bool {
    ||| c == '\t'
    ||| c == '\n'
    ||| c == '\u{0B}'
    ||| c == '\u{0C}'
    ||| c == '\r'
    ||| c == ' '
    ||| c == '\u{85}'
    ||| c == '\u{A0}'
    ||| c == '\u{1680}'
    ||| ('\u{2000}' <= c && c <= '\u{200A}')
    ||| c == '\u{2028}'
    ||| c == '\u{2029}'
    ||| c == '\u{202F}'
    ||| c == '\u{205F}'
    ||| c == '\u{3000}'
}

fn white_space(c: char) -> (result: bool)
    ensures
        result == is_white_space(c),
{
    c == '\t' || c == '\n' || c == '\u{0B}' || c == '\u{0C}' || c == '\r' || c == ' ' || c
        == '\u{85}' || c == '\u{A0}' || c == '\u{1680}' || ('\u{2000}' <= c && c <= '\u{200A}')
        || c == '\u{2028}' || c == '\u{2029}' || c == '\u{202F}' || c == '\u{205F}' || c
        == '\u{3000}'
}

/// `text` without its leading white space.
pub open spec fn trim_start(text: Seq<char>) -> Seq<char>
    decreases text.len(),
{
    if text.len() > 0 && is_white_space(text[0]) {
        trim_start(text.drop_first())
    } else {
        text
    }
}

/// `text` without its trailing white space.
pub open spec fn trim_end(text: Seq<char>) -> Seq<char>
    decreases text.len(),
{
    if text.len() > 0 && is_white_space(text.last()) {
        trim_end(text.drop_last())
    } else {
        text
    }
}

/// `text` without its leading and trailing white space.
pub open spec fn trim(text: Seq<char>) -> Seq<char> {
    trim_end(trim_start(text))
}

/// The index of the first `c` in `text`, or its length if there is none.
pub open spec fn index_of_char(text: Seq<char>, c: char) -> nat
    decreases text.len(),
{
    if text.len() == 0 {
        0
    } else if text[0] == c {
        0
    } else {
        1 + index_of_char(text.drop_first(), c)
    }
}

/// The characters of `text[start..end]` without leading and trailing white
/// space, as indices into `text`.
fn trim_bounds(text: &str, start: usize, end: usize) -> (bounds: (usize, usize))
    requires
        start <= end <= text@.len(),
    ensures
        start <= bounds.0 <= bounds.1 <= end,
        text@.subrange(bounds.0 as int, bounds.1 as int) == trim(
            text@.subrange(start as int, end as int),
        ),
{
    let ghost whole = text@.subrange(start as int, end as int);
    let mut a = start;
    while a < end && white_space(text.get_char(a))
        invariant
            start <= a <= end <= text@.len(),
            trim_start(whole) == trim_start(text@.subrange(a as int, end as int)),
        decreases end - a,
    {
        assert(text@.subrange(a as int, end as int).drop_first() =~= text@.subrange(
            a + 1,
            end as int,
        ));
        a = a + 1;
    }
    assert(trim_start(whole) == text@.subrange(a as int, end as int));
    let mut b = end;
    while b > a && white_space(text.get_char(b - 1))
        invariant
            start <= a <= b <= end <= text@.len(),
            trim(whole) == trim_end(text@.subrange(a as int, b as int)),
        decreases b - a,
    {
        assert(text@.subrange(a as int, b as int).drop_last() =~= text@.subrange(
            a as int,
            b - 1,
        ));
        b = b - 1;
    }
    (a, b)
}

/// The title of a fiction, from the text of its page's `title` element: the
/// text before the first `|`, without surrounding white space.
pub fn fiction_title(title_text: &str) -> (title: String)
    ensures
        title@ == trim(title_text@.take(index_of_char(title_text@, '|') as int)),
{
    let n = title_text.unicode_len();
    let mut p: usize = 0;
    assert(title_text@.skip(0) =~= title_text@);
    while p < n && title_text.get_char(p) != '|'
        invariant
            p <= n == title_text@.len(),
            index_of_char(title_text@, '|') == p + index_of_char(title_text@.skip(p as int), '|'),
        decreases n - p,
    {
        assert(title_text@.skip(p as int).drop_first() =~= title_text@.skip(p + 1));
        p = p + 1;
    }
    assert(index_of_char(title_text@, '|') == p);
    let (a, b) = trim_bounds(title_text, 0, p);
    assert(title_text@.subrange(0, p as int) =~= title_text@.take(p as int));
    String::from_str(title_text.substring_char(a, b))
}

/// The text of a link, without surrounding white space.
pub fn link_title(link_text: &str) -> (title: String)
    ensures
        title@ == trim(link_text@),
{
    let n = link_text.unicode_len();
    let (a, b) = trim_bounds(link_text, 0, n);
    assert(link_text@.subrange(0, n as int) =~= link_text@);
    String::from_str(link_text.substring_char(a, b))
}

/// The index of the first occurrence of `pattern` in `bytes` at or after
/// `start`, or -1 if there is none.
pub open spec fn find_from(bytes: Seq<u8>, pattern: Seq<u8>, start: int) -> int
    decreases bytes.len() + 1 - start,
{
    if start < 0 || start + pattern.len() > bytes.len() {
        -1
    } else if bytes.subrange(start, start + pattern.len()) == pattern {
        start
    } else {
        find_from(bytes, pattern, start + 1)
    }
}

/// A found occurrence lies within the bytes, at or after `start`.
pub proof fn lemma_find_from(bytes: Seq<u8>, pattern: Seq<u8>, start: int)
    ensures
        find_from(bytes, pattern, start) == -1 || (start <= find_from(bytes, pattern, start)
            && find_from(bytes, pattern, start) + pattern.len() <= bytes.len()),
    decreases bytes.len() + 1 - start,
{
    if !(start < 0 || start + pattern.len() > bytes.len()) && bytes.subrange(
        start,
        start + pattern.len(),
    ) != pattern {
        lemma_find_from(bytes, pattern, start + 1);
    }
}

/// Where the last piece of `bytes[start..]` split at `pattern` starts:
/// after the last of the occurrences found from left to right.
pub open spec fn last_piece_start(bytes: Seq<u8>, pattern: Seq<u8>, start: int) -> int
    decreases bytes.len() - start,
{
    if pattern.len() == 0 || start < 0 || start > bytes.len() {
        start
    } else {
        let found = find_from(bytes, pattern, start);
        if found < 0 {
            start
        } else {
            proof {
                lemma_find_from(bytes, pattern, start);
            }
            last_piece_start(bytes, pattern, found + pattern.len())
        }
    }
}

/// The last piece of `bytes` split at `pattern`.
pub open spec fn last_piece(bytes: Seq<u8>, pattern: Seq<u8>) -> Seq<u8> {
    bytes.skip(last_piece_start(bytes, pattern, 0))
}

/// The first piece of `bytes` split at `separator`.
pub open spec fn first_piece(bytes: Seq<u8>, separator: u8) -> Seq<u8>
    decreases bytes.len(),
{
    if bytes.len() == 0 || bytes[0] == separator {
        Seq::empty()
    } else {
        seq![bytes[0]] + first_piece(bytes.drop_first(), separator)
    }
}

/// Whether `b` is an ASCII decimal digit.
pub open spec fn is_digit(b: u8) -> bool {
    0x30 <= b && b <= 0x39
}

/// The number written in the decimal digits `digits`.
pub open spec fn digits_value(digits: Seq<u8>) -> nat
    decreases digits.len(),
{
    if digits.len() == 0 {
        0
    } else {
        digits_value(digits.drop_last()) * 10 + (digits.last() - 0x30) as nat
    }
}

/// `text` without a leading `+`.
pub open spec fn without_plus(text: Seq<u8>) -> Seq<u8> {
    if text.len() > 0 && text[0] == 0x2Bu8 {
        text.drop_first()
    } else {
        text
    }
}

/// Whether every byte of `text` is a decimal digit.
pub open spec fn all_digits(text: Seq<u8>) -> bool {
    forall|i: int| 0 <= i < text.len() ==> is_digit(#[trigger] text[i])
}

/// The number that `text` writes: an optional `+`, then at least one
/// decimal digit, the value fitting in 64 bits.
pub open spec fn parse_u64(text: Seq<u8>) -> Option<u64> {
    let digits = without_plus(text);
    if digits.len() > 0 && all_digits(digits) && digits_value(digits) <= u64::MAX {
        Some(digits_value(digits) as u64)
    } else {
        None
    }
}

/// `://`
pub open spec fn scheme_separator() -> Seq<u8> {
    seq![0x3Au8, 0x2Fu8, 0x2Fu8]
}

/// `/chapter/`
pub open spec fn chapter_marker() -> Seq<u8> {
    seq![0x2Fu8, 0x63u8, 0x68u8, 0x61u8, 0x70u8, 0x74u8, 0x65u8, 0x72u8, 0x2Fu8]
}

/// The chapter number in a chapter link: the text after the last `://`,
/// then after the last `/chapter/`, up to the next `/`, as a number.
pub open spec fn href_chapter_id(href: Seq<u8>) -> Option<u64> {
    parse_u64(
        first_piece(last_piece(last_piece(href, scheme_separator()), chapter_marker()), 0x2Fu8),
    )
}

fn find_bytes(bytes: &[u8], pattern: &[u8], start: usize) -> (found: Option<usize>)
    requires
        start <= bytes@.len(),
        pattern@.len() > 0,
    ensures
        match found {
            Some(k) => k == find_from(bytes@, pattern@, start as int),
            None => find_from(bytes@, pattern@, start as int) == -1,
        },
{
    let mut i = start;
    while i <= bytes.len() && bytes.len() - i >= pattern.len()
        invariant
            start <= i,
            i <= bytes@.len() + 1,
            pattern@.len() > 0,
            find_from(bytes@, pattern@, start as int) == find_from(bytes@, pattern@, i as int),
        decreases bytes@.len() + 1 - i,
    {
        let mut j: usize = 0;
        let mut matched = true;
        while j < pattern.len()
            invariant
                i + pattern@.len() <= bytes.len(),
                j <= pattern@.len(),
                matched == (forall|m: int| 0 <= m < j ==> bytes@[i + m] == pattern@[m]),
            decreases pattern@.len() - j,
        {
            if bytes[i + j] != pattern[j] {
                matched = false;
            }
            j = j + 1;
        }
        if matched {
            assert(bytes@.subrange(i as int, i + pattern@.len()) =~= pattern@);
            return Some(i);
        }
        assert(bytes@.subrange(i as int, i + pattern@.len()) != pattern@) by {
            let m = choose|m: int| 0 <= m < pattern@.len() && bytes@[i + m] != pattern@[m];
            assert(bytes@.subrange(i as int, i + pattern@.len())[m] != pattern@[m]);
        }
        i = i + 1;
    }
    None
}

fn last_piece_index(bytes: &[u8], pattern: &[u8]) -> (start: usize)
    requires
        pattern@.len() > 0,
    ensures
        start == last_piece_start(bytes@, pattern@, 0),
        start <= bytes@.len(),
{
    let mut start: usize = 0;
    while start <= bytes.len()
        invariant
            pattern@.len() > 0,
            start <= bytes@.len(),
            last_piece_start(bytes@, pattern@, 0) == last_piece_start(bytes@, pattern@, start as int),
        decreases bytes@.len() - start,
    {
        match find_bytes(bytes, pattern, start) {
            Some(k) => {
                proof {
                    lemma_find_from(bytes@, pattern@, start as int);
                }
                start = k + pattern.len();
            },
            None => {
                return start;
            },
        }
    }
    start
}

/// The number that `text[start..end]` writes (see [`parse_u64`]).
fn parse_digits(text: &[u8], start: usize, end: usize) -> (value: Option<u64>)
    requires
        start <= end <= text@.len(),
    ensures
        value == parse_u64(text@.subrange(start as int, end as int)),
{
    let ghost whole = text@.subrange(start as int, end as int);
    let mut first = start;
    if first < end && text[first] == 0x2B {
        first = first + 1;
    }
    let ghost digits = text@.subrange(first as int, end as int);
    assert(digits == without_plus(whole));
    if first == end {
        return None;
    }
    let mut value: u64 = 0;
    let mut i = first;
    while i < end
        invariant
            first <= i <= end <= text@.len(),
            first < end,
            start <= first,
            digits == text@.subrange(first as int, end as int),
            whole == text@.subrange(start as int, end as int),
            digits == without_plus(whole),
            forall|m: int| first <= m < i ==> is_digit(#[trigger] text@[m]),
            value == digits_value(text@.subrange(first as int, i as int)),
        decreases end - i,
    {
        let b = text[i];
        if b < 0x30 || b > 0x39 {
            assert(digits[i - first] == b);
            assert(!is_digit(digits[i - first]));
            assert(!all_digits(digits));
            return None;
        }
        assert(text@.subrange(first as int, i + 1).drop_last() =~= text@.subrange(
            first as int,
            i as int,
        ));
        if value > (u64::MAX - (b - 0x30) as u64) / 10 {
            let ghost d = (b - 0x30) as u64;
            assert(value * 10 + d > u64::MAX) by (nonlinear_arith)
                requires
                    value > (u64::MAX - d) / 10,
                    d <= 9,
            ;
            proof {
                lemma_digits_value_grows(digits, (i + 1 - first) as int);
                assert(digits.take((i + 1 - first) as int) =~= text@.subrange(first as int, i + 1));
            }
            return None;
        }
        value = value * 10 + (b - 0x30) as u64;
        i = i + 1;
    }
    assert(text@.subrange(first as int, end as int) =~= digits);
    Some(value)
}

/// A longer run of digits is worth at least as much as its prefix.
proof fn lemma_digits_value_grows(digits: Seq<u8>, k: int)
    requires
        0 <= k <= digits.len(),
    ensures
        digits_value(digits.take(k)) <= digits_value(digits),
    decreases digits.len() - k,
{
    if k < digits.len() {
        lemma_digits_value_grows(digits.drop_last(), k);
        assert(digits.drop_last().take(k) =~= digits.take(k));
    } else {
        assert(digits.take(k) =~= digits);
    }
}

/// The chapter number in the link `href` of a chapter (see
/// [`href_chapter_id`]), or `None` if that is not a number.
pub fn chapter_id_from_href(href: &str) -> (id: Option<u64>)
    ensures
        id == href_chapter_id(href.spec_bytes()),
{
    let bytes = href.as_bytes();
    let scheme: [u8; 3] = [0x3A, 0x2F, 0x2F];
    let marker: [u8; 9] = [0x2F, 0x63, 0x68, 0x61, 0x70, 0x74, 0x65, 0x72, 0x2F];
    assert(scheme@ == scheme_separator());
    assert(marker@ == chapter_marker());
    let after_scheme = last_piece_index(bytes, scheme.as_slice());
    let ghost rest = bytes@.skip(after_scheme as int);
    let mut rest_bytes: Vec<u8> = Vec::new();
    crate::encoding::push_range(&mut rest_bytes, bytes, after_scheme, bytes.len());
    assert(rest_bytes@ =~= rest);
    let after_marker = last_piece_index(rest_bytes.as_slice(), marker.as_slice());
    let mut end = after_marker;
    while end < rest_bytes.len() && rest_bytes[end] != 0x2F
        invariant
            after_marker <= end <= rest_bytes@.len(),
            first_piece(rest_bytes@.skip(after_marker as int), 0x2Fu8) == rest_bytes@.subrange(
                after_marker as int,
                end as int,
            ) + first_piece(rest_bytes@.skip(end as int), 0x2Fu8),
        decreases rest_bytes@.len() - end,
    {
        assert(rest_bytes@.skip(end as int).drop_first() =~= rest_bytes@.skip(end + 1));
        assert(rest_bytes@.subrange(after_marker as int, end + 1) =~= rest_bytes@.subrange(
            after_marker as int,
            end as int,
        ) + seq![rest_bytes@[end as int]]);
        end = end + 1;
    }
    assert(first_piece(rest_bytes@.skip(end as int), 0x2Fu8) =~= Seq::<u8>::empty());
    parse_digits(rest_bytes.as_slice(), after_marker, end)
}

/// Whether `c` is ASCII white space: space, tab, line feed, form feed or
/// carriage return.
pub open spec fn is_ascii_white_space(c: char) -> bool {
    c == ' ' || c == '\t' || c == '\n' || c == '\u{0C}' || c == '\r'
}

/// The words of `text` (the runs between ASCII white space), joined with
/// single spaces.
pub open spec fn collapse_white_space(text: Seq<char>) -> Seq<char>
    decreases text.len(),
{
    if text.len() == 0 {
        Seq::empty()
    } else if is_ascii_white_space(text.last()) {
        collapse_white_space(text.drop_last())
    } else {
        let before = text.drop_last();
        let collapsed = collapse_white_space(before);
        if before.len() > 0 && is_ascii_white_space(before.last()) && collapsed.len() > 0 {
            collapsed + seq![' ', text.last()]
        } else {
            collapsed.push(text.last())
        }
    }
}

/// The index of the last `c` in `text`, or -1 if there is none.
pub open spec fn last_index_of_char(text: Seq<char>, c: char) -> int
    decreases text.len(),
{
    if text.len() == 0 {
        -1
    } else if text.last() == c {
        text.len() - 1
    } else {
        last_index_of_char(text.drop_last(), c)
    }
}

/// How a chapter starts: its words joined with single spaces, cut to the
/// first 96 characters, and then to the last whole word before them
/// (everything before the last space); `None` if no space remains.
pub open spec fn preview_chars(text: Seq<char>) -> Option<Seq<char>> {
    let words = collapse_white_space(text);
    let head = if words.len() > 96 {
        words.take(96)
    } else {
        words
    };
    let k = last_index_of_char(head, ' ');
    if k >= 0 {
        Some(head.take(k))
    } else {
        None
    }
}

/// The words of a prefix of `text` are a prefix of the words of `text`.
pub proof fn lemma_collapse_prefix(text: Seq<char>, i: int)
    requires
        0 <= i <= text.len(),
    ensures
        collapse_white_space(text.take(i)).len() <= collapse_white_space(text).len(),
        collapse_white_space(text).take(collapse_white_space(text.take(i)).len() as int)
            == collapse_white_space(text.take(i)),
    decreases text.len(),
{
    if i == text.len() {
        assert(text.take(i) =~= text);
    } else {
        let before = text.drop_last();
        lemma_collapse_prefix(before, i);
        assert(before.take(i) =~= text.take(i));
        let small = collapse_white_space(text.take(i));
        let mid = collapse_white_space(before);
        let whole = collapse_white_space(text);
        assert(whole.take(mid.len() as int) =~= mid);
        assert(whole.take(small.len() as int) =~= mid.take(small.len() as int));
    }
}

/// Whether `words` holds words separated by single spaces: no tab, line
/// feed, form feed or carriage return, and every space stands between two
/// characters that are not spaces.
pub open spec fn single_spaced(words: Seq<char>) -> bool {
    &&& forall|i: int|
        0 <= i < words.len() ==> #[trigger] words[i] != '\t' && words[i] != '\n' && words[i] != '\u{0C}'
            && words[i] != '\r'
    &&& forall|i: int|
        0 <= i < words.len() && #[trigger] words[i] == ' ' ==> 0 < i < words.len() - 1 && words[i - 1]
            != ' ' && words[i + 1] != ' '
}

/// The words of any text are single spaced.
proof fn lemma_collapse_single_spaced(text: Seq<char>)
    ensures
        single_spaced(collapse_white_space(text)),
    decreases text.len(),
{
    if text.len() > 0 {
        let before = text.drop_last();
        lemma_collapse_single_spaced(before);
        let collapsed = collapse_white_space(before);
        let words = collapse_white_space(text);
        if !is_ascii_white_space(text.last()) {
            assert(text.last() != ' ');
            if collapsed.len() > 0 {
                assert(collapsed[collapsed.len() - 1] != ' ');
            }
            if before.len() > 0 && is_ascii_white_space(before.last()) && collapsed.len() > 0 {
                assert(words =~= collapsed + seq![' ', text.last()]);
                assert forall|i: int| 0 <= i < words.len() && #[trigger] words[i] == ' ' implies 0 < i
                    < words.len() - 1 && words[i - 1] != ' ' && words[i + 1] != ' ' by {
                    if i < collapsed.len() {
                        assert(words[i] == collapsed[i]);
                        assert(i < collapsed.len() - 1);
                        assert(words[i + 1] == collapsed[i + 1]);
                        assert(words[i - 1] == collapsed[i - 1]);
                    } else {
                        assert(i == collapsed.len());
                        assert(words[i - 1] == collapsed[i - 1]);
                    }
                }
            } else {
                assert(words =~= collapsed.push(text.last()));
                assert forall|i: int| 0 <= i < words.len() && #[trigger] words[i] == ' ' implies 0 < i
                    < words.len() - 1 && words[i - 1] != ' ' && words[i + 1] != ' ' by {
                    assert(i < collapsed.len());
                    assert(words[i] == collapsed[i]);
                    assert(words[i + 1] == collapsed[i + 1]);
                    assert(words[i - 1] == collapsed[i - 1]);
                }
            }
        }
    }
}

/// Where `last_index_of_char` finds `c`, `c` is.
proof fn lemma_last_index_of_char(text: Seq<char>, c: char)
    ensures
        -1 <= last_index_of_char(text, c) < text.len(),
        last_index_of_char(text, c) >= 0 ==> text[last_index_of_char(text, c)] == c,
    decreases text.len(),
{
    if text.len() > 0 && text.last() != c {
        lemma_last_index_of_char(text.drop_last(), c);
    }
}

/// A chapter's preview holds its opening words, whatever ASCII white space
/// (spaces, tabs, line feeds, form feeds, carriage returns) separated them
/// in the text, separated by single spaces: it holds no tab, line feed, form
/// feed or carriage return, and every space in it stands between two
/// characters that are not spaces.
pub proof fn law_preview_single_spaced(text: Seq<char>)
    ensures
        preview_chars(text) matches Some(p) ==> single_spaced(p),
{
    let words = collapse_white_space(text);
    lemma_collapse_single_spaced(text);
    let head = if words.len() > 96 {
        words.take(96)
    } else {
        words
    };
    lemma_last_index_of_char(head, ' ');
    let k = last_index_of_char(head, ' ');
    if k >= 0 {
        let p = head.take(k);
        assert(head[k] == words[k]);
        assert forall|i: int| 0 <= i < p.len() implies #[trigger] p[i] != '\t' && p[i] != '\n' && p[i]
            != '\u{0C}' && p[i] != '\r' by {
            assert(p[i] == words[i]);
        }
        assert forall|i: int| 0 <= i < p.len() && #[trigger] p[i] == ' ' implies 0 < i < p.len() - 1
            && p[i - 1] != ' ' && p[i + 1] != ' ' by {
            assert(p[i] == words[i]);
            assert(words[i + 1] != ' ');
            assert(i + 1 != k);
            assert(p[i - 1] == words[i - 1]);
            assert(p[i + 1] == words[i + 1]);
        }
    }
}

/// Text whose characters are words split by ASCII white space: any run of
/// spaces, tabs, line feeds, form feeds and carriage returns between two
/// words becomes one space. In particular a tab between two words gives the
/// same words as a space.
pub proof fn law_white_space_separates_words(a: Seq<char>, b: Seq<char>, gap: Seq<char>)
    requires
        a.len() > 0,
        b.len() > 0,
        gap.len() > 0,
        forall|i: int| 0 <= i < a.len() ==> !is_ascii_white_space(#[trigger] a[i]),
        forall|i: int| 0 <= i < b.len() ==> !is_ascii_white_space(#[trigger] b[i]),
        forall|i: int|
            0 <= i < gap.len() ==> #[trigger] gap[i] == ' ' || gap[i] == '\t' || gap[i] == '\n' || gap[i]
                == '\u{0C}' || gap[i] == '\r',
    ensures
        collapse_white_space(a + gap + b) == a + seq![' '] + b,
{
    lemma_collapse_word(a);
    lemma_collapse_gap(a, gap);
    lemma_collapse_after_gap(a + gap, b, a);
}

/// A word collapses to itself.
proof fn lemma_collapse_word(a: Seq<char>)
    requires
        forall|i: int| 0 <= i < a.len() ==> !is_ascii_white_space(#[trigger] a[i]),
    ensures
        collapse_white_space(a) == a,
    decreases a.len(),
{
    if a.len() > 0 {
        let before = a.drop_last();
        assert forall|i: int| 0 <= i < before.len() implies !is_ascii_white_space(#[trigger] before[i]) by {
            assert(before[i] == a[i]);
        }
        lemma_collapse_word(before);
        assert(!is_ascii_white_space(a[a.len() - 1]));
        if before.len() > 0 {
            assert(!is_ascii_white_space(a[before.len() - 1]));
        }
        assert(a =~= before.push(a.last()));
    }
}

/// White space after some text adds nothing to its words.
proof fn lemma_collapse_gap(a: Seq<char>, gap: Seq<char>)
    requires
        forall|i: int|
            0 <= i < gap.len() ==> #[trigger] gap[i] == ' ' || gap[i] == '\t' || gap[i] == '\n' || gap[i]
                == '\u{0C}' || gap[i] == '\r',
    ensures
        collapse_white_space(a + gap) == collapse_white_space(a),
    decreases gap.len(),
{
    if gap.len() > 0 {
        let shorter = gap.drop_last();
        assert forall|i: int| 0 <= i < shorter.len() implies #[trigger] shorter[i] == ' ' || shorter[i] == '\t'
            || shorter[i] == '\n' || shorter[i] == '\u{0C}' || shorter[i] == '\r' by {
            assert(shorter[i] == gap[i]);
        }
        lemma_collapse_gap(a, shorter);
        assert((a + gap).drop_last() =~= a + shorter);
        assert((a + gap).last() == gap[gap.len() - 1]);
    } else {
        assert(a + gap =~= a);
    }
}

/// A word after white space that follows non-empty words is joined to them
/// with one space.
proof fn lemma_collapse_after_gap(prefix: Seq<char>, b: Seq<char>, words: Seq<char>)
    requires
        prefix.len() > 0,
        is_ascii_white_space(prefix.last()),
        collapse_white_space(prefix) == words,
        words.len() > 0,
        b.len() > 0,
        forall|i: int| 0 <= i < b.len() ==> !is_ascii_white_space(#[trigger] b[i]),
    ensures
        collapse_white_space(prefix + b) == words + seq![' '] + b,
    decreases b.len(),
{
    let whole = prefix + b;
    if b.len() == 1 {
        assert(whole.drop_last() =~= prefix);
        assert(whole.last() == b[0]);
        assert(words + seq![' '] + b =~= words + seq![' ', b[0]]);
    } else {
        let shorter = b.drop_last();
        assert forall|i: int| 0 <= i < shorter.len() implies !is_ascii_white_space(#[trigger] shorter[i]) by {
            assert(shorter[i] == b[i]);
        }
        lemma_collapse_after_gap(prefix, shorter, words);
        assert(whole.drop_last() =~= prefix + shorter);
        assert(whole.last() == b[b.len() - 1]);
        assert(!is_ascii_white_space(b[b.len() - 1]));
        assert((prefix + shorter).last() == shorter[shorter.len() - 1]);
        assert(!is_ascii_white_space(shorter[shorter.len() - 1]));
        assert(words + seq![' '] + b =~= (words + seq![' '] + shorter).push(b.last()));
    }
}

fn ascii_white_space(c: char) -> (result: bool)
    ensures
        result == is_ascii_white_space(c),
{
    c == ' ' || c == '\t' || c == '\n' || c == '\u{0C}' || c == '\r'
}

/// How the chapter `html` starts (see [`preview_chars`]).
pub fn chapter_preview(html: &str) -> (preview: Option<String>)
    ensures
        match preview {
            Some(p) => preview_chars(html@) == Some(p@),
            None => preview_chars(html@) is None,
        },
{
    let space = " ";
    proof {
        reveal_strlit(" ");
        assert(space@ =~= seq![' ']);
    }
    let n = html.unicode_len();
    let mut words = String::new();
    let mut words_len: usize = 0;
    let mut pending = false;
    let mut i: usize = 0;
    assert(html@.take(0) =~= Seq::<char>::empty());
    while i < n && words_len < 96
        invariant
            space@ == seq![' '],
            i <= n == html@.len(),
            words@ == collapse_white_space(html@.take(i as int)),
            words_len == words@.len(),
            words_len <= 97,
            pending == (i > 0 && is_ascii_white_space(html@[i - 1])),
        decreases n - i,
    {
        let c = html.get_char(i);
        assert(html@.take(i + 1).drop_last() =~= html@.take(i as int));
        assert(html@.take(i + 1).last() == c);
        if ascii_white_space(c) {
            pending = true;
        } else {
            if pending && words_len > 0 {
                words.append(space);
                words_len = words_len + 1;
            }
            words.append(html.substring_char(i, i + 1));
            words_len = words_len + 1;
            pending = false;
        }
        i = i + 1;
        assert(words@ =~= collapse_white_space(html@.take(i as int)));
    }
    proof {
        lemma_collapse_prefix(html@, i as int);
        if i == n {
            assert(html@.take(i as int) =~= html@);
        }
    }
    let ghost all_words = collapse_white_space(html@);
    let head_len = if words_len > 96 {
        96
    } else {
        words_len
    };
    let ghost head = if all_words.len() > 96 {
        all_words.take(96)
    } else {
        all_words
    };
    assert(head =~= words@.take(head_len as int));
    let text = words.as_str();
    let mut k = head_len;
    assert(head.take(k as int) =~= head);
    while k > 0 && text.get_char(k - 1) != ' '
        invariant
            k <= head_len <= words@.len(),
            text@ == words@,
            head == words@.take(head_len as int),
            last_index_of_char(head, ' ') == last_index_of_char(head.take(k as int), ' '),
        decreases k,
    {
        assert(head.take(k as int).drop_last() =~= head.take(k - 1));
        k = k - 1;
    }
    if k == 0 {
        assert(head.take(0) =~= Seq::<char>::empty());
        return None;
    }
    assert(head.take(k as int).last() == ' ');
    assert(last_index_of_char(head, ' ') == k - 1);
    let preview = String::from_str(text.substring_char(0, k - 1));
    assert(preview@ =~= head.take(k - 1));
    Some(preview)
}

/// An entry in a fiction's table of contents.
#[derive(Debug, Clone)]
pub struct SpineChapter {
    pub id: u64,
    pub id10: String,
    pub timestamp: i64,
    pub title: String,
}

/// A fiction's table of contents.
#[derive(Debug, Clone)]
pub struct Spine {
    pub id: u64,
    pub id10: String,
    pub title: String,
    pub chapters: Vec<SpineChapter>,
}

/// A chapter of a fiction, with its sanitized HTML.
#[derive(Debug, Clone)]
pub struct FicChapter {
    pub id: u64,
    pub id10: String,
    pub timestamp: i64,
    pub title: String,
    pub html: String,
}

/// A fiction with all its chapters.
#[derive(Debug, Clone)]
pub struct Fic {
    pub id: u64,
    pub id10: String,
    pub title: String,
    pub chapters: Vec<FicChapter>,
}

/// A summary of a chapter: its length in bytes and how it starts.
#[derive(Debug, Clone)]
pub struct RichSpineChapter {
    pub id10: String,
    pub timestamp: i64,
    pub title: String,
    pub length: u64,
    pub starts_with: String,
}

/// A summary of a fiction: its chapters' summaries and their total length.
#[derive(Debug, Clone)]
pub struct RichSpine {
    pub id10: String,
    pub title: String,
    pub author: String,
    pub length: u64,
    pub chapters: Vec<RichSpineChapter>,
}

/// The cache name of fiction `id` (see [`fic_id10`]).
pub open spec fn fic_name(id: u64) -> Seq<char> {
    seq!['R', 'Y', 'L'] + padded_decimal(id as nat, 7)
}

/// The cache name of chapter `id` (see [`chapter_id10`]).
pub open spec fn chapter_name(id: u64) -> Seq<char> {
    seq!['C'] + padded_decimal(id as nat, 9)
}

impl SpineChapter {
    /// The table-of-contents entry of chapter `id`.
    pub fn new(id: u64, timestamp: i64, title: String) -> (chapter: Self)
        ensures
            chapter.id == id,
            chapter.id10@ == chapter_name(id),
            chapter.timestamp == timestamp,
            chapter.title == title,
    {
        SpineChapter { id, id10: chapter_id10(id), timestamp, title }
    }
}

impl Spine {
    /// The table of contents of fiction `id`.
    pub fn new(id: u64, title: String, chapters: Vec<SpineChapter>) -> (spine: Self)
        ensures
            spine.id == id,
            spine.id10@ == fic_name(id),
            spine.title == title,
            spine.chapters == chapters,
    {
        Spine { id, id10: fic_id10(id), title, chapters }
    }
}

impl FicChapter {
    /// The chapter listed as `chapter`, with its content `html`.
    pub fn new(chapter: &SpineChapter, html: String) -> (fic_chapter: Self)
        ensures
            fic_chapter.id == chapter.id,
            fic_chapter.id10@ == chapter_name(chapter.id),
            fic_chapter.timestamp == chapter.timestamp,
            fic_chapter.title@ == chapter.title@,
            fic_chapter.html == html,
    {
        FicChapter {
            id: chapter.id,
            id10: chapter_id10(chapter.id),
            title: chapter.title.clone(),
            timestamp: chapter.timestamp,
            html,
        }
    }
}

impl Fic {
    /// The fiction whose table of contents is `spine`, with `chapters` as an
    /// ordered set.
    pub fn new(spine: &Spine, chapters: Vec<FicChapter>) -> (fic: Self)
        ensures
            fic.id == spine.id,
            fic.id10@ == fic_name(spine.id),
            fic.title@ == spine.title@,
            increasing::<FicChapter>(keys_of(fic.chapters@)),
            keys_of(fic.chapters@).to_set() == keys_of(chapters@).to_set(),
    {
        let mut set: Vec<FicChapter> = Vec::new();
        let mut chapters = chapters;
        let ghost all = keys_of(chapters@);
        let mut i: usize = 0;
        let n = chapters.len();
        proof {
            assert(all.len() == n);
            assert(keys_of(set@).to_set() =~= all.take(0).to_set());
            assert(all.skip(0) =~= all);
        }
        while chapters.len() > 0
            invariant
                i + chapters@.len() == all.len(),
                all.len() <= usize::MAX,
                keys_of(chapters@) == all.skip(i as int),
                increasing::<FicChapter>(keys_of(set@)),
                keys_of(set@).to_set() == all.take(i as int).to_set(),
            decreases chapters@.len(),
        {
            let ghost rest = chapters@;
            let chapter = chapters.remove(0);
            proof {
                assert(chapter == rest[0]);
                assert(chapters@ =~= rest.subrange(1, rest.len() as int));
                assert(keys_of(rest)[0] == all.skip(i as int)[0]);
                assert(chapter.key() == all[i as int]);
                assert forall|j: int| 0 <= j < chapters@.len() implies #[trigger] keys_of(chapters@)[j] == all.skip(
                    i + 1,
                )[j] by {
                    assert(chapters@[j] == rest[j + 1]);
                    assert(keys_of(rest)[j + 1] == all.skip(i as int)[j + 1]);
                }
                assert(keys_of(chapters@) =~= all.skip(i + 1));
                all.take(i as int).lemma_push_to_set_commute(all[i as int]);
                assert(all.take(i + 1) =~= all.take(i as int).push(all[i as int]));
            }
            insert_entry(&mut set, chapter);
            i = i + 1;
        }
        proof {
            assert(all.take(i as int) =~= all);
        }
        Fic { id: spine.id, id10: fic_id10(spine.id), title: spine.title.clone(), chapters: set }
    }
}

/// The length in bytes of the UTF-8 encoding of `text`.
pub open spec fn utf8_len(text: Seq<char>) -> nat {
    vstd::utf8::encode_utf8(text).len()
}

/// The summary of `chapter`, or `None` if its start has no space to cut at.
pub fn rich_spine_chapter(chapter: &FicChapter) -> (summary: Option<RichSpineChapter>)
    ensures
        preview_chars(chapter.html@) is None <==> summary is None,
        summary matches Some(s) ==> {
            &&& s.id10@ == chapter.id10@
            &&& s.timestamp == chapter.timestamp
            &&& s.title@ == chapter.title@
            &&& s.length == utf8_len(chapter.html@)
            &&& preview_chars(chapter.html@) == Some(s.starts_with@)
        },
{
    let starts_with = match chapter_preview(chapter.html.as_str()) {
        Some(p) => p,
        None => {
            return None;
        },
    };
    let length = chapter.html.as_str().as_bytes().len();
    Some(
        RichSpineChapter {
            id10: chapter.id10.clone(),
            timestamp: chapter.timestamp,
            title: chapter.title.clone(),
            length: length as u64,
            starts_with,
        },
    )
}

/// The total length in bytes of the chapters' HTML.
pub open spec fn chapters_length(chapters: Seq<FicChapter>) -> nat
    decreases chapters.len(),
{
    if chapters.len() == 0 {
        0
    } else {
        chapters_length(chapters.drop_last()) + utf8_len(chapters.last().html@)
    }
}

/// Whether every chapter's start has a space to cut at.
pub open spec fn all_previewable(chapters: Seq<FicChapter>) -> bool {
    forall|i: int| 0 <= i < chapters.len() ==> preview_chars(#[trigger] chapters[i].html@) is Some
}

/// The key of the summary of `chapter` (see [`rich_spine_chapter`]).
pub open spec fn summary_key(chapter: FicChapter) -> <RichSpineChapter as SetEntry>::Key {
    (
        utf8(chapter.id10),
        chapter.timestamp as int,
        utf8(chapter.title),
        utf8_len(chapter.html@) as int,
        vstd::utf8::encode_utf8(preview_chars(chapter.html@)->0),
    )
}

/// The total length of the summarized chapters.
pub open spec fn lengths_sum(chapters: Seq<RichSpineChapter>) -> int
    decreases chapters.len(),
{
    if chapters.len() == 0 {
        0
    } else {
        lengths_sum(chapters.drop_last()) + chapters.last().length
    }
}

/// `lengths_sum` of a concatenation.
pub proof fn lemma_lengths_sum_concat(a: Seq<RichSpineChapter>, b: Seq<RichSpineChapter>)
    ensures
        lengths_sum(a + b) == lengths_sum(a) + lengths_sum(b),
    decreases b.len(),
{
    if b.len() == 0 {
        assert(a + b =~= a);
    } else {
        lemma_lengths_sum_concat(a, b.drop_last());
        assert((a + b).drop_last() =~= a + b.drop_last());
    }
}

/// The summary of `fic`, named `id10`: the ordered set of its chapters'
/// summaries, and their total length; `None` if a chapter's start has no
/// space to cut at.
pub fn rich_spine(fic: &Fic, id10: String) -> (summary: Option<RichSpine>)
    requires
        chapters_length(fic.chapters@) <= u64::MAX,
    ensures
        summary is Some <==> all_previewable(fic.chapters@),
        summary matches Some(s) ==> {
            &&& s.id10 == id10
            &&& s.title@ == fic.title@
            &&& s.author@ == seq!['T', 'O', 'D', 'O']
            &&& increasing::<RichSpineChapter>(keys_of(s.chapters@))
            &&& keys_of(s.chapters@).to_set() == fic.chapters@.map_values(|f: FicChapter| summary_key(f)).to_set()
            &&& s.length == lengths_sum(s.chapters@)
        },
{
    let ghost all = fic.chapters@.map_values(|f: FicChapter| summary_key(f));
    let mut chapters: Vec<RichSpineChapter> = Vec::new();
    let mut length: u64 = 0;
    let mut i: usize = 0;
    proof {
        assert(keys_of(chapters@).to_set() =~= all.take(0).to_set());
    }
    while i < fic.chapters.len()
        invariant
            i <= fic.chapters@.len(),
            all == fic.chapters@.map_values(|f: FicChapter| summary_key(f)),
            chapters_length(fic.chapters@) <= u64::MAX,
            length == lengths_sum(chapters@),
            length <= chapters_length(fic.chapters@.take(i as int)),
            all_previewable(fic.chapters@.take(i as int)),
            increasing::<RichSpineChapter>(keys_of(chapters@)),
            keys_of(chapters@).to_set() == all.take(i as int).to_set(),
        decreases fic.chapters@.len() - i,
    {
        let chapter = &fic.chapters[i];
        let summary = match rich_spine_chapter(chapter) {
            Some(s) => s,
            None => {
                assert(!all_previewable(fic.chapters@)) by {
                    assert(preview_chars(fic.chapters@[i as int].html@) is None);
                }
                return None;
            },
        };
        proof {
            assert(fic.chapters@.take(i + 1).drop_last() =~= fic.chapters@.take(i as int));
            lemma_chapters_length_prefix(fic.chapters@, i + 1);
            assert(summary.key() == all[i as int]);
            all.take(i as int).lemma_push_to_set_commute(all[i as int]);
            assert(all.take(i + 1) =~= all.take(i as int).push(all[i as int]));
        }
        let ghost before = chapters@;
        let summary_length = summary.length;
        let inserted = insert_entry(&mut chapters, summary);
        if inserted {
            proof {
                let k = choose|k: int| 0 <= k <= before.len() && chapters@ == before.insert(k, summary);
                assert(before =~= before.take(k) + before.skip(k));
                assert(chapters@ =~= before.take(k) + seq![summary] + before.skip(k));
                lemma_lengths_sum_concat(before.take(k), before.skip(k));
                lemma_lengths_sum_concat(before.take(k) + seq![summary], before.skip(k));
                lemma_lengths_sum_concat(before.take(k), seq![summary]);
                assert(lengths_sum(seq![summary]) == summary.length) by {
                    assert(seq![summary].drop_last() =~= Seq::<RichSpineChapter>::empty());
                    assert(seq![summary].last() == summary);
                    assert(lengths_sum(Seq::<RichSpineChapter>::empty()) == 0);
                }
            }
            length = length + summary_length;
        }
        i = i + 1;
        assert(all_previewable(fic.chapters@.take(i as int))) by {
            assert forall|j: int| 0 <= j < i implies preview_chars(
                #[trigger] fic.chapters@.take(i as int)[j].html@,
            ) is Some by {
                if j < i - 1 {
                    assert(fic.chapters@.take(i - 1)[j] == fic.chapters@.take(i as int)[j]);
                }
            }
        }
    }
    assert(fic.chapters@.take(fic.chapters@.len() as int) =~= fic.chapters@);
    assert(all.take(i as int) =~= all);
    let author = String::from_str("TODO");
    proof {
        reveal_strlit("TODO");
    }
    assert(author@ =~= seq!['T', 'O', 'D', 'O']);
    Some(RichSpine { id10, title: fic.title.clone(), author, length, chapters })
}

/// The length of a prefix of the chapters is at most their total length.
pub proof fn lemma_chapters_length_prefix(chapters: Seq<FicChapter>, k: int)
    requires
        0 <= k <= chapters.len(),
    ensures
        chapters_length(chapters.take(k)) <= chapters_length(chapters),
    decreases chapters.len() - k,
{
    if k < chapters.len() {
        lemma_chapters_length_prefix(chapters.drop_last(), k);
        assert(chapters.drop_last().take(k) =~= chapters.take(k));
    } else {
        assert(chapters.take(k) =~= chapters);
    }
}

/// The number that `text` writes: an optional sign, then at least one
/// decimal digit, the value fitting in 64 signed bits.
pub open spec fn parse_i64(text: Seq<u8>) -> Option<i64> {
    let negative = text.len() > 0 && text[0] == 0x2Du8;
    let digits = if negative {
        text.drop_first()
    } else {
        without_plus(text)
    };
    if digits.len() > 0 && all_digits(digits) && (if negative {
        digits_value(digits) <= 0x8000_0000_0000_0000
    } else {
        digits_value(digits) <= 0x7FFF_FFFF_FFFF_FFFF
    }) {
        Some(
            (if negative {
                -(digits_value(digits) as int)
            } else {
                digits_value(digits) as int
            }) as i64,
        )
    } else {
        None
    }
}

/// The number that `text` writes (see [`parse_i64`]).
pub fn parse_timestamp(text: &str) -> (value: Option<i64>)
    ensures
        value == parse_i64(text.spec_bytes()),
{
    let bytes = text.as_bytes();
    if bytes.len() > 0 && bytes[0] == 0x2D {
        match parse_digits(bytes, 1, bytes.len()) {
            Some(magnitude) => {
                proof {
                    assert(bytes@.subrange(1, bytes@.len() as int) =~= bytes@.drop_first());
                    let digits = bytes@.drop_first();
                    assert(without_plus(digits) == digits || digits[0] == 0x2Bu8);
                }
                if bytes.len() > 1 && bytes[1] == 0x2B {
                    proof {
                        assert(!all_digits(bytes@.drop_first())) by {
                            assert(!is_digit(bytes@.drop_first()[0]));
                        }
                    }
                    return None;
                }
                assert(without_plus(bytes@.drop_first()) == bytes@.drop_first());
                if magnitude <= 0x8000_0000_0000_0000 {
                    let value: i64 = if magnitude == 0x8000_0000_0000_0000 {
                        i64::MIN
                    } else {
                        -(magnitude as i64)
                    };
                    Some(value)
                } else {
                    None
                }
            },
            None => {
                proof {
                    assert(bytes@.subrange(1, bytes@.len() as int) =~= bytes@.drop_first());
                    let digits = bytes@.drop_first();
                    if digits.len() > 0 && digits[0] == 0x2Bu8 {
                        assert(!is_digit(digits[0]));
                    }
                }
                None
            },
        }
    } else {
        assert(bytes@.subrange(0, bytes@.len() as int) =~= bytes@);
        match parse_digits(bytes, 0, bytes.len()) {
            Some(magnitude) => {
                if magnitude <= 0x7FFF_FFFF_FFFF_FFFF {
                    Some(magnitude as i64)
                } else {
                    None
                }
            },
            None => None,
        }
    }
}

/// The Unix time of the moment that `text` writes in the format `format`
/// (a `time` format description), taken as UTC; `None` if the format
/// description or the text does not parse.
pub uninterp spec fn utc_timestamp(text: Seq<char>, format: Seq<char>) -> Option<i64>;

/// Parses `text` as a date and time in `format`, taken as UTC, and returns
/// its Unix time.
///
/// Calls `time::format_description::parse` on `format`,
/// `time::PrimitiveDateTime::parse` on `text` with the result, then
/// `assume_utc` and `unix_timestamp`. Claimed: the result depends on the two
/// strings alone ([`utc_timestamp`]); what it is for given strings is not
/// stated.
#[verifier::external_body]
fn parse_utc_timestamp(text: &str, format: &str) -> (timestamp: Option<i64>)
    ensures
        timestamp == utc_timestamp(text@, format@),
{
    let description = time::format_description::parse(format).ok()?;
    let moment = time::PrimitiveDateTime::parse(text, &description).ok()?;
    Some(moment.assume_utc().unix_timestamp())
}

/// The date formats that a chapter's `title` attribute may use.
pub open spec fn long_date_format() -> Seq<char> {
    "[weekday], [day] [month repr:long] [year] [hour]:[minute]"@
}

/// The second date format, with a twelve-hour clock.
pub open spec fn us_date_format() -> Seq<char> {
    "[weekday], [month repr:long] [day padding:none], [year] [hour repr:12 padding:none]:[minute] [period]"@
}

/// When a chapter was published, from its `time` element: the Unix time in
/// its `unixtime` attribute if it has one, or else the date in its `title`
/// attribute, in either of two formats. `None` when the attribute that is
/// used does not parse, or neither is there.
pub open spec fn chapter_time(unixtime: Option<Seq<u8>>, title: Option<Seq<char>>) -> Option<i64> {
    match unixtime {
        Some(u) => parse_i64(u),
        None => match title {
            Some(t) => match utc_timestamp(t, long_date_format()) {
                Some(time) => Some(time),
                None => utc_timestamp(t, us_date_format()),
            },
            None => None,
        },
    }
}

/// When a chapter was published (see [`chapter_time`]).
pub fn chapter_timestamp(unixtime: Option<&str>, title: Option<&str>) -> (timestamp: Option<i64>)
    ensures
        timestamp == chapter_time(
            match unixtime {
                Some(u) => Some(u.spec_bytes()),
                None => None,
            },
            match title {
                Some(t) => Some(t@),
                None => None,
            },
        ),
{
    match unixtime {
        Some(u) => parse_timestamp(u),
        None => match title {
            Some(t) => {
                let long = "[weekday], [day] [month repr:long] [year] [hour]:[minute]";
                let us = "[weekday], [month repr:long] [day padding:none], [year] [hour repr:12 padding:none]:[minute] [period]";
                match parse_utc_timestamp(t, long) {
                    Some(time) => Some(time),
                    None => parse_utc_timestamp(t, us),
                }
            },
            None => None,
        },
    }
}

} // verus!
