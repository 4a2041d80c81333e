//! What is read from a trace that was written down.

use crate::harness::discover::{
    after_command, after_token, ascii_space, atom_end, comment_end, ends_atom, layout_end,
    next_token, read_on, string_end, symbol_end, trace_metadata, unread, CommandView, MetadataView,
    Progress, TokenView,
};
use crate::harness::model::{answer_labelled, QueryAnswer};
use crate::qfuf::sexpr::Form;
use vstd::prelude::*;

verus! {

/// The character separates nothing: it is neither white space, nor a parenthesis, nor a semicolon.
pub open spec fn plain_char(c: char) -> bool {
    &&& c != ' '
    &&& c != '\t'
    &&& c != '\n'
    &&& c != '\r'
    &&& c != '\u{c}'
    &&& c != '('
    &&& c != ')'
    &&& c != ';'
}

/// The text can stand for an atom as it is.
pub open spec fn plain_atom(text: Seq<char>) -> bool {
    &&& text.len() > 0
    &&& text[0] != '"'
    &&& text[0] != '|'
    &&& forall|i: int| 0 <= i < text.len() ==> plain_char(#[trigger] text[i])
}

/// The content of a string as it is written: every quotation mark is doubled.
pub open spec fn doubled(content: Seq<char>) -> Seq<char>
    decreases content.len(),
{
    if content.len() == 0 {
        Seq::empty()
    } else if content[0] == '"' {
        seq!['"', '"'] + doubled(content.skip(1))
    } else {
        seq![content[0]] + doubled(content.skip(1))
    }
}

/// A string literal.
pub open spec fn string_text(content: Seq<char>) -> Seq<char> {
    seq!['"'] + doubled(content) + seq!['"']
}

/// The content of a quoted symbol as it is written: a backslash stands before every bar and backslash.
pub open spec fn escaped(content: Seq<char>) -> Seq<char>
    decreases content.len(),
{
    if content.len() == 0 {
        Seq::empty()
    } else if content[0] == '|' || content[0] == '\\' {
        seq!['\\', content[0]] + escaped(content.skip(1))
    } else {
        seq![content[0]] + escaped(content.skip(1))
    }
}

/// A quoted symbol.
pub open spec fn symbol_text(content: Seq<char>) -> Seq<char> {
    seq!['|'] + escaped(content) + seq!['|']
}

/// The text stands for an atom: a plain one, a string literal or a quoted symbol.
pub open spec fn atom_text(text: Seq<char>) -> bool {
    ||| plain_atom(text)
    ||| exists|content: Seq<char>| text == #[trigger] string_text(content)
    ||| exists|content: Seq<char>| text == #[trigger] symbol_text(content)
}

/// The text separates two expressions: white space, or one comment to the end of its line.
pub open spec fn separates(gap: Seq<char>) -> bool {
    &&& gap.len() > 0
    &&& {
        ||| forall|i: int| 0 <= i < gap.len() ==> blank(#[trigger] gap[i])
        ||| gap.len() >= 2 && gap[0] == ';' && gap.last() == '\n' && forall|i: int|
            0 < i < gap.len() - 1 ==> #[trigger] gap[i] != '\n'
    }
}

/// ASCII white space.
pub open spec fn blank(c: char) -> bool {
    c == ' ' || c == '\t' || c == '\n' || c == '\r' || c == '\u{c}'
}

/// All atoms of the expression can be written.
pub open spec fn writable(form: Form) -> bool
    decreases form, 0nat,
{
    match form {
        Form::Atom(atom) => atom_text(atom),
        Form::List(items) => all_writable(items, items.len()),
    }
}

/// All atoms of the first `n` expressions can be written.
pub open spec fn all_writable(items: Seq<Form>, n: nat) -> bool
    decreases items, n,
{
    n > 0 && n <= items.len() ==> all_writable(items, (n - 1) as nat) && writable(items[n - 1])
}

/// The expression as text, with this separator.
pub open spec fn written(form: Form, gap: Seq<char>) -> Seq<char>
    decreases form, 0nat,
{
    match form {
        Form::Atom(atom) => atom,
        Form::List(items) => seq!['('] + written_list(items, gap, items.len()) + seq![')'],
    }
}

/// The first `n` expressions as text, with this separator between them.
pub open spec fn written_list(items: Seq<Form>, gap: Seq<char>, n: nat) -> Seq<char>
    decreases items, n,
{
    if n == 0 || n > items.len() {
        Seq::empty()
    } else {
        written_list(items, gap, (n - 1) as nat) + (if n == 1 {
            Seq::empty()
        } else {
            gap
        }) + written(items[n - 1], gap)
    }
}

/// The part stands in the text at this position.
spec fn sits(text: Seq<char>, i: nat, part: Seq<char>) -> bool {
    i + part.len() <= text.len() && text.subrange(i as int, (i + part.len()) as int) == part
}

/// An atom that ends at this position ends there.
spec fn stops(text: Seq<char>, i: nat) -> bool {
    i <= text.len() && (i < text.len() ==> ends_atom(text[i as int]))
}

proof fn lemma_sits_at(text: Seq<char>, i: nat, part: Seq<char>, k: int)
    requires
        sits(text, i, part),
        0 <= k < part.len(),
    ensures
        text[i + k] == part[k],
{
    assert(text.subrange(i as int, (i + part.len()) as int)[k] == part[k]);
}

proof fn lemma_sits_join(text: Seq<char>, i: nat, a: Seq<char>, b: Seq<char>)
    requires
        sits(text, i, a + b),
    ensures
        sits(text, i, a),
        sits(text, i + a.len(), b),
{
    let whole = text.subrange(i as int, (i + (a + b).len()) as int);
    assert(text.subrange(i as int, (i + a.len()) as int) =~= a) by {
        assert forall|k: int| 0 <= k < a.len() implies text[i + k] == a[k] by {
            assert(whole[k] == (a + b)[k]);
        }
    }
    assert(text.subrange((i + a.len()) as int, (i + a.len() + b.len()) as int) =~= b) by {
        assert forall|k: int| 0 <= k < b.len() implies text[i + a.len() + k] == b[k] by {
            assert(whole[a.len() + k] == (a + b)[a.len() + k]);
        }
    }
}

proof fn lemma_blanks(text: Seq<char>, i: nat, end: nat)
    requires
        i <= end < text.len(),
        forall|k: int| i <= k < end ==> ascii_space(#[trigger] text[k]),
        !ascii_space(text[end as int]),
        text[end as int] != ';',
    ensures
        layout_end(text, i) == end,
    decreases end - i,
{
    if i < end {
        assert(ascii_space(text[i as int]));
        lemma_blanks(text, i + 1, end);
    }
}

proof fn lemma_comment(text: Seq<char>, i: nat, end: nat)
    requires
        i <= end < text.len(),
        text[end as int] == '\n',
        forall|k: int| i <= k < end ==> #[trigger] text[k] != '\n',
    ensures
        comment_end(text, i) == end + 1,
    decreases end - i,
{
    if i < end {
        assert(text[i as int] != '\n');
        lemma_comment(text, i + 1, end);
    }
}

/// A separator is skipped.
proof fn lemma_gap(text: Seq<char>, i: nat, gap: Seq<char>)
    requires
        separates(gap),
        sits(text, i, gap),
        i + gap.len() < text.len(),
        !ascii_space(text[(i + gap.len()) as int]),
        text[(i + gap.len()) as int] != ';',
    ensures
        layout_end(text, i) == i + gap.len(),
        layout_end(text, i + gap.len()) == i + gap.len(),
{
    let end = i + gap.len();
    assert forall|k: int| 0 <= k < gap.len() implies text[i + k] == #[trigger] gap[k] by {
        lemma_sits_at(text, i, gap, k);
    }
    if forall|k: int| 0 <= k < gap.len() ==> blank(#[trigger] gap[k]) {
        assert forall|k: int| i <= k < end implies ascii_space(#[trigger] text[k]) by {
            assert(blank(gap[k - i]));
            assert(text[i + (k - i)] == gap[k - i]);
        }
        lemma_blanks(text, i, end);
    } else {
        assert(text[i as int] == gap[0]) by {
            lemma_sits_at(text, i, gap, 0);
        }
        lemma_sits_at(text, i, gap, gap.len() - 1);
        assert forall|k: int| i + 1 <= k < end - 1 implies #[trigger] text[k] != '\n' by {
            assert(gap[k - i] != '\n');
            assert(text[i + (k - i)] == gap[k - i]);
        }
        lemma_comment(text, i + 1, (end - 1) as nat);
        lemma_blanks(text, end, end);
    }
    lemma_blanks(text, end, end);
}

/// An atom is read to its end.
proof fn lemma_atom(text: Seq<char>, i: nat, end: nat)
    requires
        i <= end,
        stops(text, end),
        forall|k: int| i <= k < end ==> plain_char(#[trigger] text[k]),
    ensures
        atom_end(text, i) == end,
    decreases end - i,
{
    if i < end {
        assert(plain_char(text[i as int]));
        lemma_atom(text, i + 1, end);
    }
}

proof fn lemma_string(text: Seq<char>, i: nat, content: Seq<char>)
    requires
        i + doubled(content).len() < text.len(),
        forall|k: int|
            0 <= k < doubled(content).len() ==> text[i + k] == #[trigger] doubled(content)[k],
        text[(i + doubled(content).len()) as int] == '"',
        i + doubled(content).len() + 1 < text.len() ==> text[i as int + doubled(content).len() + 1]
            != '"',
    ensures
        string_end(text, i) == Some(i + doubled(content).len() + 1),
    decreases content.len(),
{
    if content.len() > 0 {
        let rest = content.skip(1);
        let d = doubled(content);
        let step: nat = if content[0] == '"' {
            2
        } else {
            1
        };
        assert(d.len() == step + doubled(rest).len());
        assert forall|k: int| 0 <= k < doubled(rest).len() implies text[(i + step) + k]
            == #[trigger] doubled(rest)[k] by {
            assert(d[step + k] == doubled(rest)[k]);
            assert(text[i + (step + k)] == d[step + k]);
        }
        lemma_string(text, i + step, rest);
        assert(text[i as int] == d[0]);
        if content[0] == '"' {
            assert(text[i as int + 1] == d[1]);
        }
    }
}

proof fn lemma_symbol(text: Seq<char>, i: nat, content: Seq<char>)
    requires
        i + escaped(content).len() < text.len(),
        forall|k: int|
            0 <= k < escaped(content).len() ==> text[i + k] == #[trigger] escaped(content)[k],
        text[(i + escaped(content).len()) as int] == '|',
    ensures
        symbol_end(text, i) == Some(i + escaped(content).len() + 1),
    decreases content.len(),
{
    if content.len() > 0 {
        let rest = content.skip(1);
        let d = escaped(content);
        let step: nat = if content[0] == '|' || content[0] == '\\' {
            2
        } else {
            1
        };
        assert(d.len() == step + escaped(rest).len());
        assert forall|k: int| 0 <= k < escaped(rest).len() implies text[(i + step) + k]
            == #[trigger] escaped(rest)[k] by {
            assert(d[step + k] == escaped(rest)[k]);
            assert(text[i + (step + k)] == d[step + k]);
        }
        lemma_symbol(text, i + step, rest);
        assert(text[i as int] == d[0]);
    }
}

/// The next token is the atom that stands here.
proof fn lemma_next_atom(text: Seq<char>, i: nat, atom: Seq<char>)
    requires
        atom_text(atom),
        sits(text, i, atom),
        stops(text, i + atom.len()),
        layout_end(text, i) == i,
    ensures
        next_token(text, i) == Ok::<Option<(TokenView, nat)>, Seq<char>>(
            Some((TokenView::Atom(atom), i + atom.len())),
        ),
{
    let end = i + atom.len();
    assert(text.subrange(i as int, end as int) == atom);
    assert forall|k: int| i <= k < end implies #[trigger] text[k] == atom[k - i] by {
        lemma_sits_at(text, i, atom, k - i);
    }
    assert(text[i as int] == atom[0]);
    if plain_atom(atom) {
        assert forall|k: int| i <= k < end implies plain_char(#[trigger] text[k]) by {
            assert(plain_char(atom[k - i]));
        }
        lemma_atom(text, i, end);
        assert(plain_char(atom[0]));
    } else if exists|content: Seq<char>| atom == #[trigger] string_text(content) {
        let content = choose|content: Seq<char>| atom == #[trigger] string_text(content);
        let d = doubled(content);
        assert forall|k: int| 0 <= k < d.len() implies text[(i + 1) + k] == #[trigger] d[k] by {
            assert(atom[k + 1] == d[k]);
            assert(text[i + 1 + k] == atom[k + 1]);
        }
        assert(text[end - 1] == atom[end - 1 - i]);
        lemma_string(text, i + 1, content);
    } else {
        let content = choose|content: Seq<char>| atom == #[trigger] symbol_text(content);
        let d = escaped(content);
        assert forall|k: int| 0 <= k < d.len() implies text[(i + 1) + k] == #[trigger] d[k] by {
            assert(atom[k + 1] == d[k]);
            assert(text[i + 1 + k] == atom[k + 1]);
        }
        assert(text[end - 1] == atom[end - 1 - i]);
        lemma_symbol(text, i + 1, content);
    }
}

/// What one expression inside a command adds to it.
spec fn seen(state: Progress, form: Form) -> Progress {
    if state.depth == 1 && state.command is Some {
        let command = state.command->0;
        match form {
            Form::Atom(atom) => Progress {
                command: Some(CommandView { atoms: command.atoms.push(atom), ..command }),
                ..state
            },
            Form::List(_) => Progress {
                command: Some(CommandView { nested: true, ..command }),
                ..state
            },
        }
    } else {
        state
    }
}

spec fn seen_all(state: Progress, items: Seq<Form>, n: nat) -> Progress
    decreases n,
{
    if n == 0 {
        state
    } else {
        seen(seen_all(state, items, (n - 1) as nat), items[n - 1])
    }
}

proof fn lemma_seen_all(state: Progress, items: Seq<Form>, n: nat)
    requires
        state.depth >= 1,
        state.command is Some,
    ensures
        seen_all(state, items, n).depth == state.depth,
        seen_all(state, items, n).command is Some,
        seen_all(state, items, n).metadata == state.metadata,
        seen_all(state, items, n).pending == state.pending,
        state.depth > 1 ==> seen_all(state, items, n) == state,
    decreases n,
{
    if n > 0 {
        lemma_seen_all(state, items, (n - 1) as nat);
    }
}

proof fn lemma_first_char(form: Form, gap: Seq<char>)
    requires
        writable(form),
    ensures
        written(form, gap).len() > 0,
        plain_char(written(form, gap)[0]) || written(form, gap)[0] == '(',
{
    if form is Atom && plain_atom(form->Atom_0) {
        assert(plain_char(form->Atom_0[0]));
    }
}

/// Reading one expression.
proof fn lemma_read(text: Seq<char>, i: nat, form: Form, gap: Seq<char>, state: Progress)
    requires
        writable(form),
        separates(gap),
        sits(text, i, written(form, gap)),
        stops(text, i + written(form, gap).len()),
        state.depth >= 1,
        state.command is Some,
    ensures
        read_on(text, i, state) == read_on(text, i + written(form, gap).len(), seen(state, form)),
    decreases form, 1nat, 0nat,
{
    let part = written(form, gap);
    let end = i + part.len();
    lemma_first_char(form, gap);
    lemma_sits_at(text, i, part, 0);
    lemma_blanks(text, i, i);
    match form {
        Form::Atom(atom) => {
            lemma_next_atom(text, i, atom);
            assert(next_token(text, i) == Ok::<Option<(TokenView, nat)>, Seq<char>>(
                Some((TokenView::Atom(atom), end)),
            ));
            assert(after_token(state, TokenView::Atom(atom)) == Ok::<Progress, Seq<char>>(
                seen(state, form),
            ));
        },
        Form::List(items) => {
            let inner = written_list(items, gap, items.len());
            assert(part =~= seq!['('] + (inner + seq![')']));
            lemma_sits_join(text, i, seq!['('], inner + seq![')']);
            lemma_sits_join(text, i + 1, inner, seq![')']);
            let opened = after_token(state, TokenView::Open)->Ok_0;
            assert(next_token(text, i) == Ok::<Option<(TokenView, nat)>, Seq<char>>(
                Some((TokenView::Open, i + 1)),
            ));
            assert(read_on(text, i, state) == read_on(text, i + 1, opened));
            let last = i + 1 + inner.len();
            lemma_sits_at(text, last, seq![')'], 0);
            lemma_read_list(text, i + 1, items, gap, opened, items.len());
            lemma_seen_all(opened, items, items.len());
            lemma_blanks(text, last, last);
            assert(next_token(text, last) == Ok::<Option<(TokenView, nat)>, Seq<char>>(
                Some((TokenView::Close, last + 1)),
            ));
            assert(read_on(text, last, opened) == read_on(
                text,
                last + 1,
                after_token(opened, TokenView::Close)->Ok_0,
            ));
            assert(after_token(opened, TokenView::Close)->Ok_0 == seen(state, form));
        },
    }
}

proof fn lemma_written_prefix(items: Seq<Form>, gap: Seq<char>, n: nat, m: nat) -> (rest: Seq<char>)
    requires
        n <= m <= items.len(),
    ensures
        written_list(items, gap, m) == written_list(items, gap, n) + rest,
        n < m ==> rest.len() >= (if n == 0 {
            0
        } else {
            gap.len()
        }) + written(items[n as int], gap).len(),
        n < m ==> rest.take(
            ((if n == 0 {
                0
            } else {
                gap.len()
            }) + written(items[n as int], gap).len()) as int,
        ) == (if n == 0 {
            Seq::empty()
        } else {
            gap
        }) + written(items[n as int], gap),
        n + 1 < m && gap.len() > 0 ==> rest.len() > (if n == 0 {
            0
        } else {
            gap.len()
        }) + written(items[n as int], gap).len() && rest[((if n == 0 {
            0
        } else {
            gap.len()
        }) + written(items[n as int], gap).len()) as int] == gap[0],
    decreases m,
{
    if n == m {
        assert(written_list(items, gap, m) =~= written_list(items, gap, n) + Seq::<char>::empty());
        Seq::empty()
    } else {
        let step = (if m == 1 {
            Seq::empty()
        } else {
            gap
        }) + written(items[m - 1], gap);
        let shorter = lemma_written_prefix(items, gap, n, (m - 1) as nat);
        let rest = shorter + step;
        assert(written_list(items, gap, m) =~= written_list(items, gap, n) + rest);
        let size = ((if n == 0 {
            0
        } else {
            gap.len()
        }) + written(items[n as int], gap).len()) as int;
        if n == m - 1 {
            assert(shorter.len() == 0) by {
                assert(written_list(items, gap, n).len() == (written_list(items, gap, n)
                    + shorter).len());
            }
            assert(rest =~= step);
            assert(rest.take(size) =~= step);
        } else {
            assert(rest.take(size) =~= shorter.take(size));
            if n + 1 == m - 1 {
                lemma_written_len(items, gap, n);
                assert(shorter.len() == size);
                if gap.len() > 0 {
                    assert(rest[size] == step[0]);
                }
            } else if gap.len() > 0 {
                assert(rest[size] == shorter[size]);
            }
        }
        rest
    }
}

proof fn lemma_written_len(items: Seq<Form>, gap: Seq<char>, n: nat)
    requires
        n < items.len(),
    ensures
        written_list(items, gap, n + 1).len() == written_list(items, gap, n).len() + (if n == 0 {
            0
        } else {
            gap.len()
        }) + written(items[n as int], gap).len(),
{
}

/// Reading the first `n` expressions of a list.
proof fn lemma_read_list(
    text: Seq<char>,
    i: nat,
    items: Seq<Form>,
    gap: Seq<char>,
    state: Progress,
    n: nat,
)
    requires
        all_writable(items, items.len()),
        separates(gap),
        sits(text, i, written_list(items, gap, items.len())),
        stops(text, i + written_list(items, gap, items.len()).len()),
        state.depth >= 1,
        state.command is Some,
        n <= items.len(),
    ensures
        read_on(text, i, state) == read_on(
            text,
            i + written_list(items, gap, n).len(),
            seen_all(state, items, n),
        ),
    decreases items, 0nat, n,
{
    if n > 0 {
        let k = (n - 1) as nat;
        lemma_read_list(text, i, items, gap, state, k);
        let before = seen_all(state, items, k);
        lemma_seen_all(state, items, k);
        lemma_item_writable(items, items.len(), k as int);
        let (at, next) = lemma_item_place(text, i, items, gap, k);
        assert(read_on(text, i + written_list(items, gap, k).len(), before) == read_on(
            text,
            at,
            before,
        ));
        assert(decreases_to!(items => items[k as int]));
        lemma_read(text, at, items[k as int], gap, before);
    }
}

proof fn lemma_item_writable(items: Seq<Form>, n: nat, k: int)
    requires
        all_writable(items, n),
        0 <= k < n <= items.len(),
    ensures
        writable(items[k]),
    decreases n,
{
    if k < n - 1 {
        lemma_item_writable(items, (n - 1) as nat, k);
    }
}

/// Item `k` stands after the items before it and the separator, which is skipped.
proof fn lemma_item_place(text: Seq<char>, i: nat, items: Seq<Form>, gap: Seq<char>, k: nat) -> (place:
    (nat, nat))
    requires
        all_writable(items, items.len()),
        separates(gap),
        sits(text, i, written_list(items, gap, items.len())),
        stops(text, i + written_list(items, gap, items.len()).len()),
        k < items.len(),
    ensures
        sits(text, place.0, written(items[k as int], gap)),
        place.1 == place.0 + written(items[k as int], gap).len(),
        place.1 == i + written_list(items, gap, k + 1).len(),
        stops(text, place.1),
        forall|state: Progress| #[trigger]
            read_on(text, place.0, state) == read_on(
                text,
                i + written_list(items, gap, k).len(),
                state,
            ),
{
    let all = written_list(items, gap, items.len());
    let rest = lemma_written_prefix(items, gap, k, items.len());
    let start = i + written_list(items, gap, k).len();
    lemma_sits_join(text, i, written_list(items, gap, k), rest);
    let sep = if k == 0 {
        Seq::empty()
    } else {
        gap
    };
    let part = written(items[k as int], gap);
    let size = (sep.len() + part.len()) as int;
    assert(rest =~= sep + (part + rest.skip(size))) by {
        assert(rest =~= rest.take(size) + rest.skip(size));
        assert(rest.take(size) == sep + part);
    }
    lemma_sits_join(text, start, sep, part + rest.skip(size));
    lemma_sits_join(text, start + sep.len(), part, rest.skip(size));
    lemma_written_len(items, gap, k);
    let at = start + sep.len();
    let next = at + part.len();
    lemma_item_writable(items, items.len(), k as int);
    lemma_first_char(items[k as int], gap);
    lemma_sits_at(text, at, part, 0);
    if k + 1 < items.len() {
        assert(rest[size] == gap[0]);
        lemma_sits_at(text, start, rest, size);
        assert(text[next as int] == gap[0]);
        assert(ends_atom(gap[0])) by {
            if forall|j: int| 0 <= j < gap.len() ==> blank(#[trigger] gap[j]) {
                assert(blank(gap[0]));
            }
        }
    }
    if k > 0 {
        lemma_gap(text, start, gap);
        assert forall|state: Progress| #[trigger] read_on(text, at, state) == read_on(
            text,
            start,
            state,
        ) by {
            assert(next_token(text, at) == next_token(text, start));
            lemma_atom_moves(text, at);
        }
    }
    (at, next)
}

/// A token that starts here ends later.
proof fn lemma_atom_moves(text: Seq<char>, at: nat)
    requires
        at < text.len(),
        layout_end(text, at) == at,
    ensures
        next_token(text, at) matches Ok(Some((token, end))) ==> at < end <= text.len(),
{
    crate::harness::discover::lemma_token_end(text, at);
    crate::harness::discover::lemma_token_end(text, at + 1);
    if !plain_char(text[at as int]) && text[at as int] != '(' && text[at as int] != ')' {
        assert(ascii_space(text[at as int]) || text[at as int] == ';');
        crate::harness::discover::lemma_layout_end(text, at + 1);
        if text[at as int] == ';' {
            crate::harness::discover::lemma_comment_end(text, at + 1);
            crate::harness::discover::lemma_layout_end(text, comment_end(text, at + 1));
        }
    }
}

/// The command that a top-level list stands for.
spec fn command_view(items: Seq<Form>) -> CommandView {
    let start = Progress {
        depth: 1,
        command: Some(CommandView { atoms: Seq::empty(), nested: false }),
        ..unread()
    };
    seen_all(start, items, items.len()).command->0
}

proof fn lemma_command_same(a: Progress, b: Progress, items: Seq<Form>, n: nat)
    requires
        a.depth == 1,
        b.depth == 1,
        a.command == b.command,
        a.command is Some,
    ensures
        seen_all(a, items, n).command == seen_all(b, items, n).command,
    decreases n,
{
    if n > 0 {
        lemma_command_same(a, b, items, (n - 1) as nat);
        lemma_seen_all(a, items, (n - 1) as nat);
        lemma_seen_all(b, items, (n - 1) as nat);
    }
}

proof fn lemma_command_view(items: Seq<Form>, state: Progress, n: nat)
    requires
        n <= items.len(),
        state.depth == 1,
        state.command == Some(CommandView { atoms: Seq::empty(), nested: false }),
    ensures
        ({
            let command = seen_all(state, items, n).command->0;
            &&& seen_all(state, items, n).command is Some
            &&& command.nested <==> exists|k: int| 0 <= k < n && (#[trigger] items[k]) is List
            &&& !command.nested ==> command.atoms.len() == n && forall|k: int|
                0 <= k < n ==> items[k] == Form::Atom(#[trigger] command.atoms[k])
        }),
    decreases n,
{
    if n > 0 {
        lemma_command_view(items, state, (n - 1) as nat);
        lemma_seen_all(state, items, (n - 1) as nat);
        let before = seen_all(state, items, (n - 1) as nat).command->0;
        let now = seen_all(state, items, n).command->0;
        if items[n - 1] is List {
            assert(now.nested);
        } else {
            assert(now.nested == before.nested);
            if before.nested {
                let k = choose|k: int| 0 <= k < n - 1 && (#[trigger] items[k]) is List;
                assert(items[k] is List);
            }
        }
    }
}

/// Reading one top-level expression.
proof fn lemma_read_top(text: Seq<char>, i: nat, form: Form, gap: Seq<char>, state: Progress)
    requires
        writable(form),
        separates(gap),
        sits(text, i, written(form, gap)),
        stops(text, i + written(form, gap).len()),
        state.depth == 0,
        state.command is None,
    ensures
        read_on(text, i, state) == match form {
            Form::Atom(_) => read_on(text, i + written(form, gap).len(), state),
            Form::List(items) => match after_command(
                command_view(items),
                state.metadata,
                state.pending,
            ) {
                Err(error) => Err(error),
                Ok((metadata, pending)) => read_on(
                    text,
                    i + written(form, gap).len(),
                    Progress { metadata, pending, ..state },
                ),
            },
        },
{
    let part = written(form, gap);
    let end = i + part.len();
    lemma_first_char(form, gap);
    lemma_sits_at(text, i, part, 0);
    lemma_blanks(text, i, i);
    match form {
        Form::Atom(atom) => {
            lemma_next_atom(text, i, atom);
            assert(next_token(text, i) == Ok::<Option<(TokenView, nat)>, Seq<char>>(
                Some((TokenView::Atom(atom), end)),
            ));
        },
        Form::List(items) => {
            let inner = written_list(items, gap, items.len());
            assert(part =~= seq!['('] + (inner + seq![')']));
            lemma_sits_join(text, i, seq!['('], inner + seq![')']);
            lemma_sits_join(text, i + 1, inner, seq![')']);
            let opened = after_token(state, TokenView::Open)->Ok_0;
            assert(next_token(text, i) == Ok::<Option<(TokenView, nat)>, Seq<char>>(
                Some((TokenView::Open, i + 1)),
            ));
            assert(read_on(text, i, state) == read_on(text, i + 1, opened));
            let last = i + 1 + inner.len();
            lemma_sits_at(text, last, seq![')'], 0);
            lemma_read_list(text, i + 1, items, gap, opened, items.len());
            lemma_seen_all(opened, items, items.len());
            let closing = seen_all(opened, items, items.len());
            lemma_command_same(
                opened,
                Progress {
                    depth: 1,
                    command: Some(CommandView { atoms: Seq::empty(), nested: false }),
                    ..unread()
                },
                items,
                items.len(),
            );
            lemma_blanks(text, last, last);
            assert(next_token(text, last) == Ok::<Option<(TokenView, nat)>, Seq<char>>(
                Some((TokenView::Close, last + 1)),
            ));
        },
    }
}

/// What the first `n` top-level expressions say.
spec fn heard(forms: Seq<Form>, n: nat) -> Result<(MetadataView, Option<QueryAnswer>), Seq<char>>
    decreases n,
{
    if n == 0 {
        Ok((unread().metadata, None))
    } else {
        match heard(forms, (n - 1) as nat) {
            Err(error) => Err(error),
            Ok((metadata, pending)) => match forms[n - 1] {
                Form::Atom(_) => Ok((metadata, pending)),
                Form::List(items) => after_command(command_view(items), metadata, pending),
            },
        }
    }
}

proof fn lemma_heard_err(forms: Seq<Form>, k: nat, n: nat)
    requires
        k <= n,
        heard(forms, k) is Err,
    ensures
        heard(forms, n) == heard(forms, k),
    decreases n,
{
    if k < n {
        lemma_heard_err(forms, k, (n - 1) as nat);
    }
}

spec fn at_top(heard: (MetadataView, Option<QueryAnswer>)) -> Progress {
    Progress { depth: 0, command: None, metadata: heard.0, pending: heard.1 }
}

proof fn lemma_read_forms(text: Seq<char>, forms: Seq<Form>, gap: Seq<char>, n: nat)
    requires
        all_writable(forms, forms.len()),
        separates(gap),
        text == written_list(forms, gap, forms.len()),
        n <= forms.len(),
    ensures
        match heard(forms, n) {
            Err(error) => read_on(text, 0, unread()) == Err::<Progress, Seq<char>>(error),
            Ok(known) => read_on(text, 0, unread()) == read_on(
                text,
                written_list(forms, gap, n).len(),
                at_top(known),
            ),
        },
    decreases n,
{
    assert(sits(text, 0, text)) by {
        assert(text.subrange(0, text.len() as int) =~= text);
    }
    if n > 0 {
        let k = (n - 1) as nat;
        lemma_read_forms(text, forms, gap, k);
        if heard(forms, k) is Ok {
            let (at, next) = lemma_item_place(text, 0, forms, gap, k);
            lemma_item_writable(forms, forms.len(), k as int);
            let state = at_top(heard(forms, k)->Ok_0);
            assert(read_on(text, at, state) == read_on(
                text,
                0 + written_list(forms, gap, k).len(),
                state,
            ));
            lemma_read_top(text, at, forms[k as int], gap, state);
        }
    }
}

/// The metadata of a written trace is what its expressions say.
proof fn lemma_heard(forms: Seq<Form>, gap: Seq<char>)
    requires
        all_writable(forms, forms.len()),
        separates(gap),
    ensures
        trace_metadata(written_list(forms, gap, forms.len())) == match heard(forms, forms.len()) {
            Err(error) => Err(error),
            Ok(known) => Ok(known.0),
        },
{
    let text = written_list(forms, gap, forms.len());
    lemma_read_forms(text, forms, gap, forms.len());
}

/// The expression is the list of these words.
pub open spec fn says_words(form: Form, words: Seq<Seq<char>>) -> bool {
    &&& form is List
    &&& (form->List_0).len() == words.len()
    &&& forall|k: int|
        0 <= k < words.len() ==> (form->List_0)[k] == Form::Atom(#[trigger] words[k])
}

/// The expression is a query.
pub open spec fn asks(form: Form) -> bool {
    says_words(form, seq!["check-sat"@])
}

/// The expression announces the status with this label.
pub open spec fn announces(form: Form, label: Seq<char>) -> bool {
    says_words(form, seq!["set-info"@, ":status"@, label])
}

/// The expression announces some status.
pub open spec fn is_announcement(form: Form) -> bool {
    exists|label: Seq<char>| #[trigger] announces(form, label)
}

/// The expression chooses this logic.
pub open spec fn chooses(form: Form, logic: Seq<char>) -> bool {
    says_words(form, seq!["set-logic"@, logic])
}

/// The number of queries among the first `n` expressions.
pub open spec fn asked_before(forms: Seq<Form>, n: nat) -> nat
    decreases n,
{
    if n == 0 {
        0
    } else {
        asked_before(forms, (n - 1) as nat) + if asks(forms[n - 1]) {
            1nat
        } else {
            0
        }
    }
}

/// How one top-level expression is taken.
proof fn lemma_one_form(form: Form, metadata: MetadataView, pending: Option<QueryAnswer>)
    requires
        form is List,
    ensures
        ({
            let next = after_command(command_view(form->List_0), metadata, pending);
            &&& asks(form) ==> next == Ok::<(MetadataView, Option<QueryAnswer>), Seq<char>>(
                (
                    MetadataView {
                        expected: metadata.expected.push(
                            match pending {
                                Some(answer) => answer,
                                None => QueryAnswer::Unknown,
                            },
                        ),
                        ..metadata
                    },
                    None,
                ),
            )
            &&& forall|label: Seq<char>| #[trigger]
                announces(form, label) ==> match answer_labelled(label) {
                    Err(error) => next == Err::<(MetadataView, Option<QueryAnswer>), Seq<char>>(
                        error,
                    ),
                    Ok(answer) => next == Ok::<(MetadataView, Option<QueryAnswer>), Seq<char>>(
                        (metadata, Some(answer)),
                    ),
                }
            &&& forall|logic: Seq<char>| #[trigger]
                chooses(form, logic) ==> next == Ok::<
                    (MetadataView, Option<QueryAnswer>),
                    Seq<char>,
                >((MetadataView { logic: Some(logic), ..metadata }, pending))
            &&& !asks(form) && !is_announcement(form) && (forall|logic: Seq<char>|
                !#[trigger] chooses(form, logic)) ==> next == Ok::<
                (MetadataView, Option<QueryAnswer>),
                Seq<char>,
            >((metadata, pending))
        }),
{
    let items = form->List_0;
    let start = Progress {
        depth: 1,
        command: Some(CommandView { atoms: Seq::empty(), nested: false }),
        ..unread()
    };
    lemma_command_view(items, start, items.len());
    let command = command_view(items);
    let atoms = command.atoms;
    reveal_strlit("check-sat");
    reveal_strlit("set-info");
    reveal_strlit("set-logic");
    if asks(form) {
        let words = seq!["check-sat"@];
        assert(items[0] == Form::Atom(words[0]));
        assert(!command.nested);
        assert(items[0] == Form::Atom(atoms[0]));
    }
    assert forall|label: Seq<char>| #[trigger] announces(form, label) implies !command.nested
        && atoms =~= seq!["set-info"@, ":status"@, label] by {
        let words = seq!["set-info"@, ":status"@, label];
        assert forall|k: int| 0 <= k < 3 implies items[k] is Atom && (!command.nested ==> atoms[k]
            == words[k]) by {
            assert(items[k] == Form::Atom(words[k]));
            if !command.nested {
                assert(items[k] == Form::Atom(atoms[k]));
            }
        }
    }
    assert forall|logic: Seq<char>| #[trigger] chooses(form, logic) implies !command.nested
        && atoms =~= seq!["set-logic"@, logic] by {
        let words = seq!["set-logic"@, logic];
        assert forall|k: int| 0 <= k < 2 implies items[k] is Atom && (!command.nested ==> atoms[k]
            == words[k]) by {
            assert(items[k] == Form::Atom(words[k]));
            if !command.nested {
                assert(items[k] == Form::Atom(atoms[k]));
            }
        }
    }
    assert("set-info"@.len() == 8 && "set-logic"@.len() == 9 && "check-sat"@.len() == 9);
    assert("set-logic"@[0] == 's' && "check-sat"@[0] == 'c');
    if !command.nested {
        if atoms.len() == 2 && atoms[0] == "set-logic"@ {
            assert(chooses(form, atoms[1])) by {
                let words = seq!["set-logic"@, atoms[1]];
                assert forall|k: int| 0 <= k < 2 implies items[k] == Form::Atom(
                    #[trigger] words[k],
                ) by {
                    assert(items[k] == Form::Atom(atoms[k]));
                }
            }
        }
        if atoms.len() == 3 && atoms[0] == "set-info"@ && atoms[1] == ":status"@ {
            assert(announces(form, atoms[2])) by {
                let words = seq!["set-info"@, ":status"@, atoms[2]];
                assert forall|k: int| 0 <= k < 3 implies items[k] == Form::Atom(
                    #[trigger] words[k],
                ) by {
                    assert(items[k] == Form::Atom(atoms[k]));
                }
            }
        }
        if atoms.len() == 1 && atoms[0] == "check-sat"@ {
            assert(asks(form)) by {
                let words = seq!["check-sat"@];
                assert forall|k: int| 0 <= k < 1 implies items[k] == Form::Atom(
                    #[trigger] words[k],
                ) by {
                    assert(items[k] == Form::Atom(atoms[k]));
                }
            }
        }
    }
}

/// Expression `j` announces the status with this label, and up to expression `n` neither a query nor
/// another announcement follows.
pub open spec fn in_force(forms: Seq<Form>, j: int, label: Seq<char>, n: int) -> bool {
    &&& 0 <= j < n
    &&& announces(forms[j], label)
    &&& forall|x: int|
        j < x < n ==> !asks(#[trigger] forms[x]) && !is_announcement(forms[x])
}

/// Every announcement before expression `n` has been taken by a query before it.
pub open spec fn nothing_in_force(forms: Seq<Form>, n: int) -> bool {
    forall|j: int|
        0 <= j < n && is_announcement(#[trigger] forms[j]) ==> exists|x: int|
            j < x < n && asks(#[trigger] forms[x])
}

proof fn lemma_words_differ(form: Form, label: Seq<char>, other: Seq<char>)
    requires
        announces(form, label),
    ensures
        !asks(form),
        !chooses(form, other),
        announces(form, other) ==> other == label,
        form is List,
{
    let words = seq!["set-info"@, ":status"@, label];
    assert((form->List_0)[2] == Form::Atom(words[2]));
    if announces(form, other) {
        let again = seq!["set-info"@, ":status"@, other];
        assert((form->List_0)[2] == Form::Atom(again[2]));
    }
}

proof fn lemma_heard_state(forms: Seq<Form>, n: nat)
    requires
        n <= forms.len(),
        heard(forms, n) is Ok,
    ensures
        ({
            let (metadata, pending) = heard(forms, n)->Ok_0;
            &&& metadata.expected.len() == asked_before(forms, n)
            &&& forall|j: int, label: Seq<char>| #[trigger]
                in_force(forms, j, label, n as int) ==> answer_labelled(label) == Ok::<
                    QueryAnswer,
                    Seq<char>,
                >(pending->0) && pending is Some
            &&& nothing_in_force(forms, n as int) ==> pending is None
        }),
    decreases n,
{
    if n > 0 {
        let k = n - 1;
        let form = forms[k];
        lemma_heard_state(forms, k as nat);
        let (metadata, pending) = heard(forms, k as nat)->Ok_0;
        let now = heard(forms, n)->Ok_0.1;
        if form is List {
            lemma_one_form(form, metadata, pending);
        } else {
            assert(!asks(form) && !is_announcement(form));
        }
        assert forall|j: int, label: Seq<char>| #[trigger]
            in_force(forms, j, label, n as int) implies answer_labelled(label) == Ok::<
            QueryAnswer,
            Seq<char>,
        >(now->0) && now is Some by {
            if j == k {
                lemma_words_differ(form, label, label);
            } else {
                assert(!asks(forms[k]) && !is_announcement(forms[k]));
                assert(in_force(forms, j, label, k));
            }
        }
        if nothing_in_force(forms, n as int) {
            if is_announcement(forms[k]) {
                let x = choose|x: int| k < x < n && asks(#[trigger] forms[x]);
                assert(false);
            }
            if !asks(form) {
                assert(nothing_in_force(forms, k)) by {
                    assert forall|j: int|
                        0 <= j < k && is_announcement(#[trigger] forms[j]) implies exists|x: int|
                        j < x < k && asks(#[trigger] forms[x]) by {
                        let x = choose|x: int| j < x < n && asks(#[trigger] forms[x]);
                        assert(x != k);
                        assert(j < x < k && asks(forms[x]));
                    }
                }
            }
        }
    }
}

proof fn lemma_heard_grows(forms: Seq<Form>, k: nat, n: nat)
    requires
        k <= n <= forms.len(),
        heard(forms, n) is Ok,
    ensures
        heard(forms, k) is Ok,
        (heard(forms, k)->Ok_0).0.expected.len() <= (heard(forms, n)->Ok_0).0.expected.len(),
        forall|q: int|
            0 <= q < (heard(forms, k)->Ok_0).0.expected.len() ==> #[trigger] (heard(
                forms,
                n,
            )->Ok_0).0.expected[q] == (heard(forms, k)->Ok_0).0.expected[q],
    decreases n,
{
    if k < n {
        if heard(forms, k) is Err {
            lemma_heard_err(forms, k, n);
        }
        lemma_heard_grows(forms, k, (n - 1) as nat);
        let (metadata, pending) = heard(forms, (n - 1) as nat)->Ok_0;
        if forms[n - 1] is List {
            lemma_one_form(forms[n - 1], metadata, pending);
            if is_announcement(forms[n - 1]) {
                let label = choose|label: Seq<char>| #[trigger] announces(forms[n - 1], label);
            }
        }
    }
}

/// The expected answer of a query is the last status announced after the query before it, whatever
/// other commands stand in between, and unknown where there is none.
///
/// This is said of traces as they are written: any expressions, with any separators between them.
pub proof fn lemma_expected_answer(forms: Seq<Form>, gap: Seq<char>, k: int)
    requires
        all_writable(forms, forms.len()),
        separates(gap),
        trace_metadata(written_list(forms, gap, forms.len())) is Ok,
        0 <= k < forms.len(),
        asks(forms[k]),
    ensures
        ({
            let metadata = trace_metadata(written_list(forms, gap, forms.len()))->Ok_0;
            let q = asked_before(forms, k as nat) as int;
            &&& metadata.expected.len() == asked_before(forms, forms.len())
            &&& q < metadata.expected.len()
            &&& forall|j: int, label: Seq<char>| #[trigger]
                in_force(forms, j, label, k) ==> answer_labelled(label) == Ok::<
                    QueryAnswer,
                    Seq<char>,
                >(metadata.expected[q])
            &&& nothing_in_force(forms, k) ==> metadata.expected[q] == QueryAnswer::Unknown
        }),
{
    lemma_heard(forms, gap);
    lemma_heard_state(forms, forms.len());
    lemma_heard_grows(forms, k as nat, forms.len());
    lemma_heard_grows(forms, (k + 1) as nat, forms.len());
    lemma_heard_state(forms, k as nat);
    let (metadata, pending) = heard(forms, k as nat)->Ok_0;
    lemma_one_form(forms[k], metadata, pending);
    let q = asked_before(forms, k as nat) as int;
    let next = (heard(forms, (k + 1) as nat)->Ok_0).0;
    let whole = (heard(forms, forms.len())->Ok_0).0;
    assert(whole.expected[q] == next.expected[q]);
}

proof fn lemma_heard_ok(forms: Seq<Form>, n: nat)
    requires
        n <= forms.len(),
    ensures
        heard(forms, n) is Ok <==> forall|j: int, label: Seq<char>|
            0 <= j < n && #[trigger] announces(forms[j], label) ==> answer_labelled(label) is Ok,
        heard(forms, n) matches Err(error) ==> exists|j: int, label: Seq<char>|
            0 <= j < n && #[trigger] announces(forms[j], label) && answer_labelled(label) == Err::<
                QueryAnswer,
                Seq<char>,
            >(error),
    decreases n,
{
    if n > 0 {
        let k = n - 1;
        lemma_heard_ok(forms, k as nat);
        if heard(forms, k as nat) is Ok {
            let (metadata, pending) = heard(forms, k as nat)->Ok_0;
            if forms[k] is List {
                lemma_one_form(forms[k], metadata, pending);
                if is_announcement(forms[k]) {
                    let label = choose|label: Seq<char>| #[trigger] announces(forms[k], label);
                    lemma_words_differ(forms[k], label, label);
                    assert forall|other: Seq<char>| #[trigger]
                        announces(forms[k], other) implies other == label by {
                        lemma_words_differ(forms[k], label, other);
                    }
                    if answer_labelled(label) is Err {
                        assert(announces(forms[k], label));
                    }
                }
            }
        } else {
            let error = heard(forms, k as nat)->Err_0;
            let (j, label) = choose|j: int, label: Seq<char>|
                0 <= j < k && #[trigger] announces(forms[j], label) && answer_labelled(label)
                    == Err::<QueryAnswer, Seq<char>>(error);
            assert(announces(forms[j], label));
        }
    }
}

/// A written trace can be read exactly when every announced status has a label that is known.
pub proof fn lemma_trace_readable(forms: Seq<Form>, gap: Seq<char>)
    requires
        all_writable(forms, forms.len()),
        separates(gap),
    ensures
        trace_metadata(written_list(forms, gap, forms.len())) is Ok <==> forall|
            j: int,
            label: Seq<char>,
        |
            0 <= j < forms.len() && #[trigger] announces(forms[j], label) ==> answer_labelled(
                label,
            ) is Ok,
{
    lemma_heard(forms, gap);
    lemma_heard_ok(forms, forms.len());
}

/// The logic of a written trace is the last one that is chosen.
pub proof fn lemma_chosen_logic(forms: Seq<Form>, gap: Seq<char>, j: int, logic: Seq<char>)
    requires
        all_writable(forms, forms.len()),
        separates(gap),
        trace_metadata(written_list(forms, gap, forms.len())) is Ok,
    ensures
        ({
            let metadata = trace_metadata(written_list(forms, gap, forms.len()))->Ok_0;
            &&& 0 <= j < forms.len() && chooses(forms[j], logic) && (forall|x: int, l: Seq<char>|
                j < x < forms.len() ==> !#[trigger] chooses(forms[x], l)) ==> metadata.logic == Some(
                logic,
            )
            &&& (forall|x: int, l: Seq<char>|
                0 <= x < forms.len() ==> !#[trigger] chooses(forms[x], l)) ==> metadata.logic is None
        }),
{
    lemma_heard(forms, gap);
    lemma_heard_logic(forms, forms.len(), j, logic);
}

proof fn lemma_heard_logic(forms: Seq<Form>, n: nat, j: int, logic: Seq<char>)
    requires
        n <= forms.len(),
        heard(forms, n) is Ok,
    ensures
        0 <= j < n && chooses(forms[j], logic) && (forall|x: int, l: Seq<char>|
            j < x < n ==> !#[trigger] chooses(forms[x], l)) ==> (heard(forms, n)->Ok_0).0.logic
            == Some(logic),
        (forall|x: int, l: Seq<char>| 0 <= x < n ==> !#[trigger] chooses(forms[x], l)) ==> (heard(
            forms,
            n,
        )->Ok_0).0.logic is None,
    decreases n,
{
    if n > 0 {
        let k = n - 1;
        if heard(forms, k as nat) is Err {
            lemma_heard_err(forms, k as nat, n);
        }
        lemma_heard_logic(forms, k as nat, j, logic);
        let (metadata, pending) = heard(forms, k as nat)->Ok_0;
        if forms[k] is List {
            lemma_one_form(forms[k], metadata, pending);
            if is_announcement(forms[k]) {
                let label = choose|label: Seq<char>| #[trigger] announces(forms[k], label);
            }
            if 0 <= j < n && chooses(forms[j], logic) && (forall|x: int, l: Seq<char>|
                j < x < n ==> !#[trigger] chooses(forms[x], l)) && j < k {
                assert forall|l: Seq<char>| !#[trigger] chooses(forms[k], l) by {}
            }
        }
    }
}

} // verus!
