//! Lines, trimming, splitting and searching of texts.

use crate::text::{chars_of, text_of, white_space};
use vstd::prelude::*;

verus! {

/// The text without leading white space.
pub open spec fn trimmed_start(text: Seq<char>) -> Seq<char>
    decreases text.len(),
{
    if text.len() > 0 && white_space(text[0]) {
        trimmed_start(text.skip(1))
    } else {
        text
    }
}

/// The text without trailing white space.
pub open spec fn trimmed_end(text: Seq<char>) -> Seq<char>
    decreases text.len(),
{
    if text.len() > 0 && white_space(text.last()) {
        trimmed_end(text.drop_last())
    } else {
        text
    }
}

/// The text without leading and trailing white space.
pub open spec fn trimmed(text: Seq<char>) -> Seq<char> {
    trimmed_end(trimmed_start(text))
}

/// Returns the characters without leading and trailing white space.
pub fn trim_chars(chars: &[char]) -> (result: Vec<char>)
    ensures
        result@ == trimmed(chars@),
{
    let mut start: usize = 0;
    proof {
        assert(chars@.skip(0) =~= chars@);
    }
    while start < chars.len() && chars[start].is_whitespace()
        invariant
            0 <= start <= chars@.len(),
            trimmed_start(chars@) == trimmed_start(chars@.skip(start as int)),
        decreases chars@.len() - start,
    {
        proof {
            assert(chars@.skip(start as int).skip(1) =~= chars@.skip(start as int + 1));
            assert(chars@.skip(start as int)[0] == chars@[start as int]);
        }
        start += 1;
    }
    let ghost rest = chars@.skip(start as int);
    proof {
        if start < chars@.len() {
            assert(rest[0] == chars@[start as int]);
        }
        assert(trimmed_start(rest) == rest);
        assert(rest =~= chars@.subrange(start as int, chars@.len() as int));
    }
    let mut end: usize = chars.len();
    while end > start && chars[end - 1].is_whitespace()
        invariant
            start <= end <= chars@.len(),
            trimmed_end(rest) == trimmed_end(chars@.subrange(start as int, end as int)),
        decreases end,
    {
        proof {
            let now = chars@.subrange(start as int, end as int);
            assert(now.last() == chars@[end as int - 1]);
            assert(now.drop_last() =~= chars@.subrange(start as int, end as int - 1));
        }
        end -= 1;
    }
    let mut result: Vec<char> = Vec::new();
    let mut i: usize = start;
    proof {
        let now = chars@.subrange(start as int, end as int);
        if end > start {
            assert(now.last() == chars@[end as int - 1]);
        }
        assert(trimmed_end(now) == now);
    }
    while i < end
        invariant
            start <= i <= end <= chars@.len(),
            result@ == chars@.subrange(start as int, i as int),
        decreases end - i,
    {
        result.push(chars[i]);
        proof {
            assert(chars@.subrange(start as int, i as int + 1) =~= chars@.subrange(
                start as int,
                i as int,
            ).push(chars@[i as int]));
        }
        i += 1;
    }
    result
}

/// Returns the text without leading and trailing white space.
pub fn trim_text(text: &str) -> (result: String)
    ensures
        result@ == trimmed(text@),
{
    let chars = chars_of(text);
    let list = trim_chars(chars.as_slice());
    text_of(list.as_slice())
}

/// The parts of a text between occurrences of a character.
pub open spec fn parts(text: Seq<char>, mark: char) -> Seq<Seq<char>>
    decreases text.len(),
{
    if text.len() == 0 {
        seq![Seq::empty()]
    } else {
        let before = parts(text.drop_last(), mark);
        if text.last() == mark {
            before.push(Seq::empty())
        } else {
            before.update(before.len() - 1, before.last().push(text.last()))
        }
    }
}

/// There is always at least one part.
pub proof fn lemma_parts(text: Seq<char>, mark: char)
    ensures
        parts(text, mark).len() > 0,
    decreases text.len(),
{
    if text.len() > 0 {
        lemma_parts(text.drop_last(), mark);
    }
}

/// The lists of characters as mathematical values.
pub open spec fn char_lists(lists: Seq<Vec<char>>) -> Seq<Seq<char>> {
    lists.map_values(|l: Vec<char>| l@)
}

/// Returns the parts of a text between occurrences of a character.
pub fn split_chars(chars: &[char], mark: char) -> (result: Vec<Vec<char>>)
    ensures
        char_lists(result@) == parts(chars@, mark),
{
    let mut result: Vec<Vec<char>> = Vec::new();
    let mut current: Vec<char> = Vec::new();
    let mut i: usize = 0;
    proof {
        assert(chars@.take(0) =~= Seq::<char>::empty());
        assert(char_lists(result@).push(current@) =~= parts(chars@.take(0), mark));
    }
    while i < chars.len()
        invariant
            0 <= i <= chars@.len(),
            char_lists(result@).push(current@) == parts(chars@.take(i as int), mark),
        decreases chars@.len() - i,
    {
        let c = chars[i];
        let ghost before = char_lists(result@).push(current@);
        proof {
            assert(chars@.take(i as int + 1).drop_last() =~= chars@.take(i as int));
            assert(chars@.take(i as int + 1).last() == c);
        }
        if c == mark {
            let ghost done = result@;
            let ghost last = current@;
            result.push(current);
            current = Vec::new();
            proof {
                assert(char_lists(result@) =~= char_lists(done).push(last));
                assert(char_lists(result@).push(current@) =~= before.push(Seq::empty()));
            }
        } else {
            let ghost last = current@;
            current.push(c);
            proof {
                assert(char_lists(result@).push(current@) =~= before.update(
                    before.len() - 1,
                    before.last().push(c),
                ));
            }
        }
        i += 1;
    }
    let ghost done = result@;
    let ghost last = current@;
    result.push(current);
    proof {
        assert(chars@.take(i as int) =~= chars@);
        assert(char_lists(result@) =~= char_lists(done).push(last));
    }
    result
}

/// A line without the carriage return before its end.
pub open spec fn without_return(line: Seq<char>) -> Seq<char> {
    if line.len() > 0 && line.last() == '\r' {
        line.drop_last()
    } else {
        line
    }
}

/// The lines of a text: what stands before each line feed, and what follows the last one unless that
/// is nothing.
pub open spec fn line_list(text: Seq<char>) -> Seq<Seq<char>> {
    let pieces = parts(text, '\n');
    let ended = pieces.drop_last().map_values(|l: Seq<char>| without_return(l));
    if pieces.last().len() == 0 {
        ended
    } else {
        ended.push(pieces.last())
    }
}

proof fn lemma_parts_append(text: Seq<char>, line: Seq<char>, mark: char)
    requires
        !line.contains(mark),
    ensures
        parts(text + line, mark) == parts(text, mark).update(
            parts(text, mark).len() - 1,
            parts(text, mark).last() + line,
        ),
    decreases line.len(),
{
    lemma_parts(text, mark);
    let before = parts(text, mark);
    if line.len() == 0 {
        assert(text + line =~= text);
        assert(before.last() + line =~= before.last());
        assert(before.update(before.len() - 1, before.last() + line) =~= before);
    } else {
        let rest = line.drop_last();
        assert forall|c: char| rest.contains(c) implies line.contains(c) by {
            let i = choose|i: int| 0 <= i < rest.len() && rest[i] == c;
            assert(line[i] == c);
        }
        lemma_parts_append(text, rest, mark);
        assert((text + line).drop_last() =~= text + rest);
        assert(line.contains(line.last()));
        assert((before.last() + rest).push(line.last()) =~= before.last() + line);
        assert(parts(text + line, mark) =~= before.update(
            before.len() - 1,
            before.last() + line,
        ));
    }
}

/// The lines of text, each with its end.
pub open spec fn lines_text(lines: Seq<Seq<char>>) -> Seq<char>
    decreases lines.len(),
{
    if lines.len() == 0 {
        Seq::empty()
    } else {
        lines_text(lines.drop_last()) + lines.last().push('\n')
    }
}

/// No line holds a line feed or ends in a carriage return.
pub open spec fn plain_lines(lines: Seq<Seq<char>>) -> bool {
    forall|i: int|
        0 <= i < lines.len() ==> !(#[trigger] lines[i]).contains('\n') && !(lines[i].len() > 0
            && lines[i].last() == '\r')
}

proof fn lemma_parts_of_lines(lines: Seq<Seq<char>>)
    requires
        plain_lines(lines),
    ensures
        parts(lines_text(lines), '\n') == lines.push(Seq::empty()),
    decreases lines.len(),
{
    if lines.len() == 0 {
        assert(parts(lines_text(lines), '\n') =~= lines.push(Seq::empty()));
    } else {
        let less = lines.drop_last();
        let line = lines.last();
        assert forall|i: int| 0 <= i < less.len() implies !(#[trigger] less[i]).contains('\n')
            && !(less[i].len() > 0 && less[i].last() == '\r') by {
            assert(less[i] == lines[i]);
        }
        lemma_parts_of_lines(less);
        let text = lines_text(less);
        assert(!lines[lines.len() - 1].contains('\n'));
        lemma_parts_append(text, line, '\n');
        assert(Seq::<char>::empty() + line =~= line);
        assert(parts(text + line, '\n') =~= lines);
        let whole = lines_text(lines);
        assert(whole.drop_last() =~= text + line);
        assert(whole.last() == '\n');
    }
}

/// Splitting a text that was made of lines gives back the lines.
pub proof fn lemma_lines_read_back(lines: Seq<Seq<char>>)
    requires
        plain_lines(lines),
    ensures
        line_list(lines_text(lines)) == lines,
{
    lemma_parts_of_lines(lines);
    let pieces = parts(lines_text(lines), '\n');
    assert(pieces.drop_last() =~= lines);
    assert(line_list(lines_text(lines)) =~= lines);
}

/// Returns the lines of a text.
pub fn lines_of(text: &str) -> (lines: Vec<Vec<char>>)
    ensures
        char_lists(lines@) == line_list(text@),
{
    let chars = chars_of(text);
    let mut pieces = split_chars(chars.as_slice(), '\n');
    let ghost all = char_lists(pieces@);
    proof {
        lemma_parts(text@, '\n');
        assert(all == parts(text@, '\n'));
        assert(pieces@.len() == all.len());
    }
    let mut lines: Vec<Vec<char>> = Vec::new();
    let last = match pieces.pop() {
        Some(last) => last,
        None => Vec::new(),
    };
    proof {
        assert(last@ == all.last());
        assert(char_lists(pieces@) =~= all.drop_last());
    }
    let ghost ended = all.drop_last().map_values(|l: Seq<char>| without_return(l));
    let mut i: usize = 0;
    while i < pieces.len()
        invariant
            0 <= i <= pieces@.len(),
            char_lists(pieces@) == all.drop_last(),
            ended == all.drop_last().map_values(|l: Seq<char>| without_return(l)),
            char_lists(lines@) == ended.take(i as int),
        decreases pieces@.len() - i,
    {
        let piece = &pieces[i];
        let mut line: Vec<char> = Vec::new();
        let n = piece.len();
        let keep = if n > 0 && piece[n - 1] == '\r' {
            n - 1
        } else {
            n
        };
        let mut k: usize = 0;
        while k < keep
            invariant
                0 <= k <= keep <= piece@.len(),
                line@ == piece@.take(k as int),
            decreases keep - k,
        {
            line.push(piece[k]);
            proof {
                assert(piece@.take(k as int + 1) =~= piece@.take(k as int).push(piece@[k as int]));
            }
            k += 1;
        }
        let ghost before = lines@;
        proof {
            assert(piece@ == all.drop_last()[i as int]);
            assert(line@ =~= without_return(piece@));
            assert(ended[i as int] == line@);
            assert(ended.take(i as int + 1) =~= ended.take(i as int).push(ended[i as int]));
        }
        let ghost made = line@;
        lines.push(line);
        proof {
            assert(char_lists(lines@) =~= char_lists(before).push(made));
        }
        i += 1;
    }
    proof {
        assert(ended.take(i as int) =~= ended);
    }
    if last.len() > 0 {
        let ghost before = lines@;
        let ghost made = last@;
        lines.push(last);
        proof {
            assert(char_lists(lines@) =~= char_lists(before).push(made));
        }
    }
    lines
}

/// The text starts with the prefix.
pub open spec fn begins(text: Seq<char>, prefix: Seq<char>) -> bool {
    prefix.len() <= text.len() && text.take(prefix.len() as int) == prefix
}

/// The text ends with the suffix.
pub open spec fn ends(text: Seq<char>, suffix: Seq<char>) -> bool {
    suffix.len() <= text.len() && text.skip(text.len() - suffix.len()) == suffix
}

/// The part occurs in the text.
pub open spec fn occurs(text: Seq<char>, part: Seq<char>) -> bool {
    exists|i: int| 0 <= i <= text.len() - part.len() && #[trigger] occurs_at(text, part, i)
}

/// The part occurs in the text at position `i`.
pub open spec fn occurs_at(text: Seq<char>, part: Seq<char>, i: int) -> bool {
    text.subrange(i, i + part.len()) == part
}

/// Returns whether the part stands at position `at`.
fn stands_at(text: &Vec<char>, part: &Vec<char>, at: usize) -> (answer: bool)
    requires
        at + part@.len() <= text@.len(),
    ensures
        answer == occurs_at(text@, part@, at as int),
{
    let mut i: usize = 0;
    while i < part.len()
        invariant
            0 <= i <= part@.len(),
            at + part.len() <= text.len(),
            forall|j: int| 0 <= j < i ==> #[trigger] part@[j] == text@[at + j],
        decreases part@.len() - i,
    {
        if text[at + i] != part[i] {
            proof {
                assert(text@.subrange(at as int, at + part@.len())[i as int] == text@[at + i]);
            }
            return false;
        }
        i += 1;
    }
    proof {
        assert(text@.subrange(at as int, at + part@.len()) =~= part@);
    }
    true
}

/// Returns whether a text starts with a prefix.
pub fn starts_with(text: &str, prefix: &str) -> (answer: bool)
    ensures
        answer == begins(text@, prefix@),
{
    let t = chars_of(text);
    let p = chars_of(prefix);
    if p.len() > t.len() {
        return false;
    }
    proof {
        assert(text@.take(prefix@.len() as int) =~= text@.subrange(0, prefix@.len() as int));
    }
    stands_at(&t, &p, 0)
}

/// Returns whether a text ends with a suffix.
pub fn ends_with(text: &str, suffix: &str) -> (answer: bool)
    ensures
        answer == ends(text@, suffix@),
{
    let t = chars_of(text);
    let p = chars_of(suffix);
    if p.len() > t.len() {
        return false;
    }
    let at = t.len() - p.len();
    proof {
        assert(text@.skip(at as int) =~= text@.subrange(at as int, at + suffix@.len()));
    }
    stands_at(&t, &p, at)
}

/// Returns whether a part occurs in a text.
pub fn contains_text(text: &str, part: &str) -> (answer: bool)
    ensures
        answer == occurs(text@, part@),
{
    let t = chars_of(text);
    let p = chars_of(part);
    if p.len() > t.len() {
        return false;
    }
    let mut i: usize = 0;
    while i <= t.len() - p.len()
        invariant
            0 <= i <= t@.len() - p@.len() + 1,
            p@.len() <= t@.len(),
            t@ == text@,
            p@ == part@,
            forall|j: int| 0 <= j < i ==> !#[trigger] occurs_at(text@, part@, j),
        decreases t@.len() - p@.len() + 1 - i,
    {
        if stands_at(&t, &p, i) {
            return true;
        }
        if i == t.len() - p.len() {
            proof {
                assert forall|j: int| 0 <= j <= text@.len() - part@.len() implies !#[trigger] occurs_at(
                text@, part@, j) by {}
            }
            return false;
        }
        i += 1;
    }
    false
}

/// The number of bytes of a character in UTF-8.
pub open spec fn byte_width(c: char) -> nat {
    if (c as u32) < 0x80 {
        1
    } else if (c as u32) < 0x800 {
        2
    } else if (c as u32) < 0x1_0000 {
        3
    } else {
        4
    }
}

/// The number of bytes of the first `n` characters in UTF-8.
pub open spec fn byte_length(text: Seq<char>, n: nat) -> nat
    decreases n,
{
    if n == 0 {
        0
    } else {
        byte_length(text, (n - 1) as nat) + byte_width(text[n - 1])
    }
}

/// Returns the number of bytes of a text in UTF-8.
pub fn byte_len(text: &str) -> (n: u128)
    ensures
        n == byte_length(text@, text@.len()),
{
    let chars = chars_of(text);
    let mut n: u128 = 0;
    let mut i: usize = 0;
    while i < chars.len()
        invariant
            0 <= i <= chars@.len(),
            chars@ == text@,
            n == byte_length(text@, i as nat),
            n <= 4 * i,
        decreases chars@.len() - i,
    {
        let code = chars[i] as u32;
        let width: u128 = if code < 0x80 {
            1
        } else if code < 0x800 {
            2
        } else if code < 0x1_0000 {
            3
        } else {
            4
        };
        n = n + width;
        i += 1;
    }
    n
}

} // verus!
