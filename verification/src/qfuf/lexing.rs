//! How texts fall into tokens.

use crate::qfuf::sexpr::{after_comment, flush, lemma_after_comment, tokens_after, tokens_of};
use crate::text::white_space;
use vstd::prelude::*;

verus! {

/// The character is part of a word: no white space, no parenthesis, and no start of a comment.
pub open spec fn word_char(c: char) -> bool {
    !white_space(c) && c != '(' && c != ')' && c != ';'
}

/// The text is one word.
pub open spec fn is_word(text: Seq<char>) -> bool {
    text.len() > 0 && forall|i: int| 0 <= i < text.len() ==> word_char(#[trigger] text[i])
}

/// The token that a character between words makes by itself.
pub open spec fn mark_token(c: char) -> Seq<Seq<char>> {
    if c == '(' {
        seq!["("@]
    } else if c == ')' {
        seq![")"@]
    } else {
        Seq::empty()
    }
}

proof fn lemma_word_after(text: Seq<char>, current: Seq<char>)
    requires
        forall|i: int| 0 <= i < text.len() ==> word_char(#[trigger] text[i]),
    ensures
        tokens_after(text, current) == flush(current + text),
    decreases text.len(),
{
    if text.len() == 0 {
        assert(current + text =~= current);
    } else {
        let rest = text.skip(1);
        assert(word_char(text[0]));
        assert forall|i: int| 0 <= i < rest.len() implies word_char(#[trigger] rest[i]) by {
            assert(rest[i] == text[i + 1]);
        }
        lemma_word_after(rest, current.push(text[0]));
        assert(current.push(text[0]) + rest =~= current + text);
    }
}

/// A word is one token, and the empty text has none.
pub proof fn lemma_word(text: Seq<char>)
    ensures
        is_word(text) ==> tokens_of(text) == seq![text],
        tokens_of(Seq::<char>::empty()) == Seq::<Seq<char>>::empty(),
{
    if is_word(text) {
        lemma_word_after(text, Seq::empty());
        assert(Seq::<char>::empty() + text =~= text);
    }
}

proof fn lemma_mark_after(a: Seq<char>, c: char, b: Seq<char>, current: Seq<char>)
    requires
        !a.contains(';'),
        c == '(' || c == ')' || white_space(c),
    ensures
        tokens_after(a.push(c) + b, current) == tokens_after(a, current) + mark_token(c) + tokens_of(
            b,
        ),
    decreases a.len(),
{
    let whole = a.push(c) + b;
    if a.len() == 0 {
        assert(whole[0] == c);
        assert(whole.skip(1) =~= b);
        assert(!white_space('(') && !white_space(')') && !white_space(';'));
        assert(tokens_after(whole, current) =~= flush(current) + mark_token(c) + tokens_of(b));
    } else {
        let rest = a.skip(1);
        assert(a[0] != ';') by {
            assert(a.contains(a[0]));
        }
        if rest.contains(';') {
            let i = choose|i: int| 0 <= i < rest.len() && rest[i] == ';';
            assert(a[i + 1] == ';');
        }
        assert(whole[0] == a[0]);
        assert(whole.skip(1) =~= rest.push(c) + b);
        if a[0] == '(' || a[0] == ')' || white_space(a[0]) {
            lemma_mark_after(rest, c, b, Seq::empty());
            assert(tokens_after(whole, current) =~= tokens_after(a, current) + mark_token(c)
                + tokens_of(b));
        } else {
            lemma_mark_after(rest, c, b, current.push(a[0]));
        }
    }
}

/// White space separates what stands before it from what follows, and a parenthesis does so as a token of
/// its own.
pub proof fn lemma_mark(a: Seq<char>, c: char, b: Seq<char>)
    requires
        !a.contains(';'),
        c == '(' || c == ')' || white_space(c),
    ensures
        tokens_of(a.push(c) + b) == tokens_of(a) + mark_token(c) + tokens_of(b),
{
    lemma_mark_after(a, c, b, Seq::empty());
}

proof fn lemma_comment_skipped(comment: Seq<char>, b: Seq<char>)
    requires
        !comment.contains('\n'),
    ensures
        after_comment(comment.push('\n') + b) == seq!['\n'] + b,
    decreases comment.len(),
{
    let whole = comment.push('\n') + b;
    if comment.len() == 0 {
        assert(whole =~= seq!['\n'] + b);
    } else {
        let rest = comment.skip(1);
        assert(comment.contains(comment[0]));
        if rest.contains('\n') {
            let i = choose|i: int| 0 <= i < rest.len() && rest[i] == '\n';
            assert(comment[i + 1] == '\n');
        }
        lemma_comment_skipped(rest, b);
        assert(whole.skip(1) =~= rest.push('\n') + b);
    }
}

proof fn lemma_comment_after(a: Seq<char>, comment: Seq<char>, b: Seq<char>, current: Seq<char>)
    requires
        !a.contains(';'),
        !comment.contains('\n'),
    ensures
        tokens_after(a.push(';') + (comment.push('\n') + b), current) == tokens_after(a, current)
            + tokens_of(b),
    decreases a.len(),
{
    let tail = comment.push('\n') + b;
    let whole = a.push(';') + tail;
    if a.len() == 0 {
        assert(whole[0] == ';');
        assert(whole.skip(1) =~= tail);
        lemma_comment_skipped(comment, b);
        lemma_after_comment(tail);
        let next = seq!['\n'] + b;
        assert(next[0] == '\n');
        assert(next.skip(1) =~= b);
        assert(white_space('\n'));
        assert(tokens_after(next, current) =~= flush(current) + tokens_of(b));
        assert(tokens_after(whole, current) == tokens_after(next, current));
    } else {
        let rest = a.skip(1);
        assert(a[0] != ';') by {
            assert(a.contains(a[0]));
        }
        if rest.contains(';') {
            let i = choose|i: int| 0 <= i < rest.len() && rest[i] == ';';
            assert(a[i + 1] == ';');
        }
        assert(whole[0] == a[0]);
        assert(whole.skip(1) =~= rest.push(';') + tail);
        if a[0] == '(' || a[0] == ')' || white_space(a[0]) {
            lemma_comment_after(rest, comment, b, Seq::empty());
            assert(tokens_after(whole, current) =~= tokens_after(a, current) + tokens_of(b));
        } else {
            lemma_comment_after(rest, comment, b, current.push(a[0]));
        }
    }
}

/// A comment, from a semicolon to the end of its line, holds no token, and separates like white space.
pub proof fn lemma_comment(a: Seq<char>, comment: Seq<char>, b: Seq<char>)
    requires
        !a.contains(';'),
        !comment.contains('\n'),
    ensures
        tokens_of(a.push(';') + (comment.push('\n') + b)) == tokens_of(a) + tokens_of(b),
{
    lemma_comment_after(a, comment, b, Seq::empty());
}

} // verus!
