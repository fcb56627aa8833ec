//! Small text routines that the command layer is built from: splitting a
//! command line into words, rendering numbers, joining arguments.

use vstd::prelude::*;
use vstd::string::*;

verus! {

/// The characters that separate words: those with the Unicode property
/// `White_Space`.
pub open spec fn is_white_space(c: char) -> bool {
    let u = c as u32;
    ||| 0x09 <= u <= 0x0d
    ||| u == 0x20
    ||| u == 0x85
    ||| u == 0xa0
    ||| u == 0x1680
    ||| 0x2000 <= u <= 0x200a
    ||| u == 0x2028
    ||| u == 0x2029
    ||| u == 0x202f
    ||| u == 0x205f
    ||| u == 0x3000
}

/// Whether `c` separates words.
pub fn is_whitespace(c: char) -> (white: bool)
    ensures
        white == is_white_space(c),
{
    let u: u32 = c as u32;
    (0x09 <= u && u <= 0x0d) || u == 0x20 || u == 0x85 || u == 0xa0 || u == 0x1680 || (0x2000 <= u
        && u <= 0x200a) || u == 0x2028 || u == 0x2029 || u == 0x202f || u == 0x205f || u == 0x3000
}

/// The words of `s`: its longest runs of characters that are not white
/// space, in order.
pub open spec fn words_of(s: Seq<char>) -> Seq<Seq<char>>
    decreases s.len(),
{
    if s.len() == 0 {
        Seq::empty()
    } else if is_white_space(s.last()) {
        words_of(s.drop_last())
    } else if s.len() >= 2 && !is_white_space(s[s.len() - 2]) {
        let before = words_of(s.drop_last());
        before.drop_last().push(before.last().push(s.last()))
    } else {
        words_of(s.drop_last()).push(seq![s.last()])
    }
}

/// The views of the strings of `v`.
pub open spec fn views_of(v: Seq<String>) -> Seq<Seq<char>> {
    Seq::new(v.len(), |i: int| v[i]@)
}

/// Splits `s` into its words.
pub fn split_whitespace(s: &str) -> (words: Vec<String>)
    ensures
        views_of(words@) == words_of(s@),
{
    let mut words: Vec<String> = Vec::new();
    let len = s.unicode_len();
    let mut start: usize = 0;
    let mut open = false;
    let mut i: usize = 0;
    assert(s@.take(0) =~= Seq::empty());
    while i < len
        invariant
            i <= len,
            len == s@.len(),
            open ==> start < i && !is_white_space(s@[i - 1]),
            !open ==> (i > 0 ==> is_white_space(s@[i - 1])),
            words_of(s@.take(i as int)) == if open {
                views_of(words@).push(s@.subrange(start as int, i as int))
            } else {
                views_of(words@)
            },
        decreases len - i,
    {
        let c = s.get_char(i);
        let ghost before = s@.take(i as int);
        let ghost after = s@.take(i + 1);
        assert(after.drop_last() =~= before);
        assert(after.last() == c);
        if i > 0 {
            assert(after[after.len() - 2] == s@[i - 1]);
        }
        if is_whitespace(c) {
            if open {
                let word = s.substring_char(start, i);
                let ghost shown = views_of(words@);
                words.push(word.to_owned());
                assert(views_of(words@) =~= shown.push(s@.subrange(start as int, i as int)));
                open = false;
            }
        } else {
            if open {
                let ghost shown = views_of(words@).push(s@.subrange(start as int, i as int));
                assert(shown.drop_last().push(shown.last().push(c)) =~= views_of(words@).push(
                    s@.subrange(start as int, i + 1),
                )) by {
                    assert(shown.last().push(c) =~= s@.subrange(start as int, i + 1));
                }
            } else {
                start = i;
                open = true;
                assert(seq![c] =~= s@.subrange(i as int, i + 1));
            }
        }
        i = i + 1;
    }
    assert(s@.take(len as int) =~= s@);
    if open {
        let word = s.substring_char(start, len);
        let ghost shown = views_of(words@);
        words.push(word.to_owned());
        assert(views_of(words@) =~= shown.push(s@.subrange(start as int, len as int)));
    }
    words
}

/// The decimal digits of `n`, most significant first; "0" for zero.
pub open spec fn decimal(n: nat) -> Seq<char>
    decreases n,
{
    if n < 10 {
        seq![digit_char(n)]
    } else {
        decimal(n / 10).push(digit_char(n % 10))
    }
}

/// The character for the digit `d`.
pub open spec fn digit_char(d: nat) -> char {
    if d == 0 {
        '0'
    } else if d == 1 {
        '1'
    } else if d == 2 {
        '2'
    } else if d == 3 {
        '3'
    } else if d == 4 {
        '4'
    } else if d == 5 {
        '5'
    } else if d == 6 {
        '6'
    } else if d == 7 {
        '7'
    } else if d == 8 {
        '8'
    } else {
        '9'
    }
}

/// The one-character string for the digit `d`.
fn digit_str(d: u64) -> (s: &'static str)
    requires
        d < 10,
    ensures
        s@ == seq![digit_char(d as nat)],
{
    proof {
        reveal_strlit("0");
        reveal_strlit("1");
        reveal_strlit("2");
        reveal_strlit("3");
        reveal_strlit("4");
        reveal_strlit("5");
        reveal_strlit("6");
        reveal_strlit("7");
        reveal_strlit("8");
        reveal_strlit("9");
    }
    let s = if d == 0 {
        "0"
    } else if d == 1 {
        "1"
    } else if d == 2 {
        "2"
    } else if d == 3 {
        "3"
    } else if d == 4 {
        "4"
    } else if d == 5 {
        "5"
    } else if d == 6 {
        "6"
    } else if d == 7 {
        "7"
    } else if d == 8 {
        "8"
    } else {
        "9"
    };
    assert(s@ =~= seq![digit_char(d as nat)]);
    s
}

/// Renders `n` in decimal.
pub fn to_decimal(n: u64) -> (text: String)
    ensures
        text@ == decimal(n as nat),
    decreases n,
{
    if n < 10 {
        digit_str(n).to_owned()
    } else {
        let mut text = to_decimal(n / 10);
        let last = digit_str(n % 10);
        text.append(last);
        assert(text@ =~= decimal(n as nat));
        text
    }
}

/// The strings of `parts` one after the other, `sep` between each two.
pub open spec fn joined(parts: Seq<Seq<char>>, sep: Seq<char>) -> Seq<char>
    decreases parts.len(),
{
    if parts.len() == 0 {
        Seq::empty()
    } else if parts.len() == 1 {
        parts[0]
    } else {
        joined(parts.drop_last(), sep) + sep + parts.last()
    }
}

/// Joins `parts` with `sep` between each two.
pub fn join(parts: &Vec<String>, sep: &str) -> (text: String)
    ensures
        text@ == joined(views_of(parts@), sep@),
{
    let mut text = String::new();
    let mut i: usize = 0;
    assert(views_of(parts@).take(0) =~= Seq::empty());
    while i < parts.len()
        invariant
            i <= parts.len(),
            text@ == joined(views_of(parts@).take(i as int), sep@),
        decreases parts.len() - i,
    {
        let ghost before = views_of(parts@).take(i as int);
        let ghost after = views_of(parts@).take(i + 1);
        assert(after.drop_last() =~= before);
        assert(after.last() == parts@[i as int]@);
        if i > 0 {
            text.append(sep);
        } else {
            assert(after[0] == parts@[0]@);
        }
        text.append(parts[i].as_str());
        assert(text@ =~= joined(after, sep@));
        i = i + 1;
    }
    assert(views_of(parts@).take(parts.len() as int) =~= views_of(parts@));
    text
}

/// The byte that ends a line.
pub const NEWLINE: u8 = 10;

/// How often `needle` occurs in `s`.
pub open spec fn occurrences<T>(s: Seq<T>, needle: T) -> nat
    decreases s.len(),
{
    if s.len() == 0 {
        0
    } else if s.last() == needle {
        occurrences(s.drop_last(), needle) + 1
    } else {
        occurrences(s.drop_last(), needle)
    }
}

/// Calls `bytecount::count`, which returns the number of bytes of `haystack`
/// that are equal to `needle`.
#[verifier::external_body]
pub(crate) fn count_bytes(haystack: &[u8], needle: u8) -> (count: usize)
    ensures
        count == occurrences(haystack@, needle),
{
    bytecount::count(haystack, needle)
}

/// The pieces that `bytes` falls into when it is cut at every newline: one
/// more than it has newlines, the last one empty when `bytes` ends in a
/// newline or is empty.
pub open spec fn lines_of(bytes: Seq<u8>) -> Seq<Seq<u8>>
    decreases bytes.len(),
{
    if bytes.len() == 0 {
        seq![Seq::empty()]
    } else if bytes.last() == NEWLINE {
        lines_of(bytes.drop_last()).push(Seq::empty())
    } else {
        let before = lines_of(bytes.drop_last());
        before.drop_last().push(before.last().push(bytes.last()))
    }
}

/// There is one line more than there are newlines.
pub proof fn lemma_line_count(bytes: Seq<u8>)
    ensures
        lines_of(bytes).len() == occurrences(bytes, NEWLINE) + 1,
    decreases bytes.len(),
{
    if bytes.len() > 0 {
        lemma_line_count(bytes.drop_last());
    }
}

/// The first `limit` elements of `s`, all of them if there are no more.
pub open spec fn first_of<T>(s: Seq<T>, limit: Option<usize>) -> Seq<T> {
    match limit {
        Some(n) if n < s.len() => s.take(n as int),
        _ => s,
    }
}

/// The views of the byte strings of `v`.
pub open spec fn byte_views_of(v: Seq<Vec<u8>>) -> Seq<Seq<u8>> {
    Seq::new(v.len(), |i: int| v[i]@)
}

/// Cuts `bytes` at every newline and returns the first `limit` lines, or all
/// of them when there is no limit. Stops reading once it has them.
pub fn split_lines(bytes: &[u8], limit: Option<usize>) -> (lines: Vec<Vec<u8>>)
    ensures
        byte_views_of(lines@) == first_of(lines_of(bytes@), limit),
{
    let mut lines: Vec<Vec<u8>> = Vec::new();
    if let Some(n) = limit {
        if n == 0 {
            proof {
                lemma_line_count(bytes@);
            }
            assert(byte_views_of(lines@) =~= lines_of(bytes@).take(0));
            return lines;
        }
    }
    let mut current: Vec<u8> = Vec::new();
    let mut i: usize = 0;
    assert(bytes@.take(0) =~= Seq::empty());
    assert(byte_views_of(lines@).push(current@) =~= seq![Seq::empty()]);
    while i < bytes.len()
        invariant
            i <= bytes.len(),
            limit matches Some(n) ==> lines@.len() < n,
            lines_of(bytes@.take(i as int)) == byte_views_of(lines@).push(current@),
        decreases bytes.len() - i,
    {
        let b = bytes[i];
        let ghost before = bytes@.take(i as int);
        let ghost after = bytes@.take(i + 1);
        assert(after.drop_last() =~= before);
        assert(after.last() == b);
        if b == NEWLINE {
            let ghost shown = byte_views_of(lines@);
            lines.push(current);
            current = Vec::new();
            assert(byte_views_of(lines@) =~= shown.push(lines@.last()@));
            if let Some(n) = limit {
                if lines.len() == n {
                    proof {
                        lemma_lines_extend(after, bytes@);
                        assert(lines_of(after).drop_last() =~= byte_views_of(lines@));
                        assert(lines_of(bytes@).take(n as int) =~= byte_views_of(lines@));
                    }
                    return lines;
                }
            }
        } else {
            let ghost shown = byte_views_of(lines@).push(current@);
            current.push(b);
            assert(shown.drop_last().push(shown.last().push(b)) =~= byte_views_of(lines@).push(
                current@,
            ));
        }
        i = i + 1;
    }
    assert(bytes@.take(bytes.len() as int) =~= bytes@);
    let ghost shown = byte_views_of(lines@);
    lines.push(current);
    assert(byte_views_of(lines@) =~= shown.push(lines@.last()@));
    lines
}

/// Lines that are complete in a prefix of `bytes` are lines of `bytes`: all
/// lines of the prefix but its last one stand unchanged at the start.
pub proof fn lemma_lines_extend(prefix: Seq<u8>, bytes: Seq<u8>)
    requires
        prefix.len() <= bytes.len(),
        prefix == bytes.take(prefix.len() as int),
    ensures
        lines_of(prefix).len() >= 1,
        lines_of(bytes).len() >= lines_of(prefix).len(),
        lines_of(bytes).take(lines_of(prefix).len() - 1) == lines_of(prefix).drop_last(),
    decreases bytes.len(),
{
    lemma_line_count(prefix);
    if prefix.len() == bytes.len() {
        assert(prefix =~= bytes);
        assert(lines_of(bytes).take(lines_of(prefix).len() - 1) =~= lines_of(prefix).drop_last());
    } else {
        let head = bytes.drop_last();
        assert(prefix =~= head.take(prefix.len() as int));
        lemma_lines_extend(prefix, head);
        lemma_line_count(head);
        assert(lines_of(bytes).take(lines_of(prefix).len() - 1) =~= lines_of(head).take(
            lines_of(prefix).len() - 1,
        ));
    }
}

/// The text that `String::from_utf8_lossy` makes of `bytes`: the text they
/// encode, with U+FFFD in place of each part that is not valid UTF-8.
pub uninterp spec fn lossy_text(bytes: Seq<u8>) -> Seq<char>;

/// Calls `String::from_utf8_lossy` and takes the result as a `String`. Bytes
/// that are valid UTF-8 come out as the text they encode.
#[verifier::external_body]
pub(crate) fn lossy_string(bytes: &[u8]) -> (text: String)
    ensures
        text@ == lossy_text(bytes@),
        vstd::utf8::valid_utf8(bytes@) ==> text@ == vstd::utf8::decode_utf8(bytes@),
{
    String::from_utf8_lossy(bytes).into_owned()
}

/// What `lossy_string` makes of each of `lines`.
pub open spec fn lossy_lines(lines: Seq<Seq<u8>>) -> Seq<Seq<char>> {
    Seq::new(lines.len(), |i: int| lossy_text(lines[i]))
}

/// Of each of `lines` that is valid UTF-8, the text that `lossy_text` gives
/// is the text it encodes.
pub open spec fn decodes_valid(lines: Seq<Seq<u8>>) -> bool {
    forall|i: int|
        0 <= i < lines.len() && vstd::utf8::valid_utf8(lines[i]) ==> #[trigger] lossy_text(
            lines[i],
        ) == vstd::utf8::decode_utf8(lines[i])
}

/// Turns each of `lines` into text. A line that is valid UTF-8 becomes the
/// text it encodes.
pub fn decode_lines(lines: &Vec<Vec<u8>>) -> (texts: Vec<String>)
    ensures
        views_of(texts@) == lossy_lines(byte_views_of(lines@)),
        decodes_valid(byte_views_of(lines@)),
        forall|i: int|
            0 <= i < lines@.len() && vstd::utf8::valid_utf8(lines@[i]@) ==> (#[trigger] texts@[i])@
                == vstd::utf8::decode_utf8(lines@[i]@),
{
    let mut texts: Vec<String> = Vec::new();
    let mut i: usize = 0;
    while i < lines.len()
        invariant
            i <= lines.len(),
            texts@.len() == i,
            forall|j: int| 0 <= j < i ==> (#[trigger] texts@[j])@ == lossy_text(lines@[j]@),
            forall|j: int|
                0 <= j < i && vstd::utf8::valid_utf8(lines@[j]@) ==> #[trigger] lossy_text(
                    lines@[j]@,
                ) == vstd::utf8::decode_utf8(lines@[j]@),
        decreases lines.len() - i,
    {
        texts.push(lossy_string(lines[i].as_slice()));
        i = i + 1;
    }
    assert(views_of(texts@) =~= lossy_lines(byte_views_of(lines@)));
    texts
}

/// The value of the decimal digit `c`, if it is one.
pub open spec fn digit_value(c: char) -> Option<nat> {
    if '0' <= c <= '9' {
        Some((c as u32 - '0' as u32) as nat)
    } else {
        None
    }
}

/// The number that `s` writes in decimal, if `s` is one or more decimal
/// digits and nothing else.
pub open spec fn number_of(s: Seq<char>) -> Option<nat>
    decreases s.len(),
{
    if s.len() == 0 {
        None
    } else {
        match digit_value(s.last()) {
            None => None,
            Some(d) => if s.len() == 1 {
                Some(d)
            } else {
                match number_of(s.drop_last()) {
                    Some(v) => Some(v * 10 + d),
                    None => None,
                }
            },
        }
    }
}

/// What follows the last `mark` in `s`; all of `s` when it holds no `mark`.
pub open spec fn after_last(s: Seq<char>, mark: char) -> Seq<char>
    decreases s.len(),
{
    if s.len() == 0 {
        Seq::empty()
    } else if s.last() == mark {
        Seq::empty()
    } else {
        after_last(s.drop_last(), mark).push(s.last())
    }
}

/// `decimal` writes nothing but digits, and `number_of` reads back what it
/// wrote.
pub proof fn lemma_decimal_reads_back(n: nat)
    ensures
        decimal(n).len() >= 1,
        forall|i: int| 0 <= i < decimal(n).len() ==> digit_value(#[trigger] decimal(n)[i]) is Some,
        number_of(decimal(n)) == Some(n),
    decreases n,
{
    if n >= 10 {
        lemma_decimal_reads_back(n / 10);
        let head = decimal(n / 10);
        let all = decimal(n);
        assert(all.drop_last() =~= head);
        assert(all.last() == digit_char(n % 10));
        assert forall|i: int| 0 <= i < all.len() implies digit_value(#[trigger] all[i]) is Some by {
            if i < head.len() {
                assert(all[i] == head[i]);
            }
        }
    }
}

/// Occurrences add up over a concatenation, and what follows the last mark
/// of a concatenation is its second part if that holds no mark but the first
/// part ends in one.
pub proof fn lemma_after_mark(a: Seq<char>, b: Seq<char>, mark: char)
    ensures
        occurrences(a + b, mark) == occurrences(a, mark) + occurrences(b, mark),
        occurrences(b, mark) == 0 && a.len() > 0 && a.last() == mark ==> after_last(a + b, mark)
            == b,
    decreases b.len(),
{
    if b.len() == 0 {
        assert(a + b =~= a);
    } else {
        lemma_after_mark(a, b.drop_last(), mark);
        assert((a + b).drop_last() =~= a + b.drop_last());
        if occurrences(b, mark) == 0 && a.len() > 0 && a.last() == mark {
            assert(after_last(a + b, mark) =~= b);
        }
    }
}

/// A sequence of digits holds no `_`.
pub proof fn lemma_digits_hold_no_mark(s: Seq<char>)
    requires
        forall|i: int| 0 <= i < s.len() ==> digit_value(#[trigger] s[i]) is Some,
    ensures
        occurrences(s, '_') == 0,
    decreases s.len(),
{
    if s.len() > 0 {
        assert(digit_value(s[s.len() - 1]) is Some);
        let head = s.drop_last();
        assert forall|i: int| 0 <= i < head.len() implies digit_value(#[trigger] head[i])
            is Some by {
            assert(head[i] == s[i]);
        }
        lemma_digits_hold_no_mark(head);
    }
}

} // verus!
