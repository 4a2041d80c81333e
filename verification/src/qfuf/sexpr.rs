//! S-expressions: their tokens, their parsing, and copies of them.

use crate::text::{chars_of, same_text, white_space};
use vstd::prelude::*;

verus! {

/// One parsed S-expression.
#[derive(Debug, PartialEq, Eq)]
pub enum SExpr {
    /// One atom token.
    Atom(String),
    /// One list form.
    List(Vec<SExpr>),
}

/// One S-expression as a mathematical value.
pub enum Form {
    /// One atom token.
    Atom(Seq<char>),
    /// One list form.
    List(Seq<Form>),
}

impl SExpr {
    /// The expression as a mathematical value.
    pub open spec fn form(self) -> Form
        decreases self, 0nat,
    {
        match self {
            SExpr::Atom(atom) => Form::Atom(atom@),
            SExpr::List(items) => Form::List(forms_to(items, items@.len())),
        }
    }
}

/// The first `n` items as mathematical values.
pub open spec fn forms_to(items: Vec<SExpr>, n: nat) -> Seq<Form>
    decreases items, n,
{
    if n == 0 || n > items@.len() {
        Seq::empty()
    } else {
        forms_to(items, (n - 1) as nat).push(items@[n - 1].form())
    }
}

/// The items as mathematical values.
pub open spec fn forms(items: Vec<SExpr>) -> Seq<Form> {
    forms_to(items, items@.len())
}

proof fn lemma_forms_to(items: Vec<SExpr>, n: nat)
    requires
        n <= items@.len(),
    ensures
        forms_to(items, n).len() == n,
        forall|i: int| 0 <= i < n ==> #[trigger] forms_to(items, n)[i] == items@[i].form(),
    decreases n,
{
    if n > 0 {
        lemma_forms_to(items, (n - 1) as nat);
    }
}

/// The forms of a list are those of its items.
pub broadcast proof fn lemma_forms(items: Vec<SExpr>)
    ensures
        (#[trigger] forms(items)).len() == items@.len(),
        forall|i: int| 0 <= i < items@.len() ==> #[trigger] forms(items)[i] == items@[i].form(),
{
    lemma_forms_to(items, items@.len());
}

/// The form of a list is the list of forms.
pub broadcast proof fn lemma_list_form(items: Vec<SExpr>)
    ensures
        #[trigger] SExpr::List(items).form() == Form::List(forms(items)),
{
}

/// The tokens of one expression.
pub open spec fn flat(form: Form) -> Seq<Seq<char>>
    decreases form, 0nat,
{
    match form {
        Form::Atom(atom) => seq![atom],
        Form::List(items) => seq!["("@] + flat_to(items, items.len()) + seq![")"@],
    }
}

/// The tokens of the first `n` expressions.
pub open spec fn flat_to(items: Seq<Form>, n: nat) -> Seq<Seq<char>>
    decreases items, n,
{
    if n == 0 || n > items.len() {
        Seq::empty()
    } else {
        flat_to(items, (n - 1) as nat) + flat(items[n - 1])
    }
}

/// The tokens of a list of expressions.
pub open spec fn flat_all(items: Seq<Form>) -> Seq<Seq<char>> {
    flat_to(items, items.len())
}

/// The tokens of the first expressions do not depend on later ones.
proof fn lemma_flat_prefix(a: Seq<Form>, b: Seq<Form>, n: nat)
    requires
        n <= a.len(),
        n <= b.len(),
        forall|i: int| 0 <= i < n ==> a[i] == b[i],
    ensures
        flat_to(a, n) == flat_to(b, n),
    decreases n,
{
    if n > 0 {
        lemma_flat_prefix(a, b, (n - 1) as nat);
    }
}

proof fn lemma_flat_push(items: Seq<Form>, form: Form)
    ensures
        flat_all(items.push(form)) == flat_all(items) + flat(form),
{
    lemma_flat_prefix(items, items.push(form), items.len());
}

/// No atom of the expression is a parenthesis.
pub open spec fn proper(form: Form) -> bool
    decreases form, 0nat,
{
    match form {
        Form::Atom(atom) => atom != "("@ && atom != ")"@,
        Form::List(items) => proper_to(items, items.len()),
    }
}

/// No atom of the first `n` expressions is a parenthesis.
pub open spec fn proper_to(items: Seq<Form>, n: nat) -> bool
    decreases items, n,
{
    if n == 0 || n > items.len() {
        true
    } else {
        proper_to(items, (n - 1) as nat) && proper(items[n - 1])
    }
}

/// No atom of the expressions is a parenthesis.
pub open spec fn proper_all(items: Seq<Form>) -> bool {
    proper_to(items, items.len())
}

proof fn lemma_proper_prefix(a: Seq<Form>, b: Seq<Form>, n: nat)
    requires
        n <= a.len(),
        n <= b.len(),
        forall|i: int| 0 <= i < n ==> a[i] == b[i],
    ensures
        proper_to(a, n) == proper_to(b, n),
    decreases n,
{
    if n > 0 {
        lemma_proper_prefix(a, b, (n - 1) as nat);
    }
}

proof fn lemma_proper_push(items: Seq<Form>, form: Form)
    ensures
        proper_all(items.push(form)) == (proper_all(items) && proper(form)),
{
    lemma_proper_prefix(items, items.push(form), items.len());
}

proof fn lemma_proper_item(items: Seq<Form>, n: nat, i: int)
    requires
        0 <= i < n <= items.len(),
        proper_to(items, n),
    ensures
        proper(items[i]),
    decreases n,
{
    if i < n - 1 {
        lemma_proper_item(items, (n - 1) as nat, i);
    }
}

proof fn lemma_flat_first(items: Seq<Form>, n: nat)
    requires
        0 < n <= items.len(),
    ensures
        flat_to(items, n) == flat(items[0]) + flat_to(items.skip(1), (n - 1) as nat),
    decreases n,
{
    if n == 1 {
        assert(flat_to(items, 0) =~= Seq::<Seq<char>>::empty());
        assert(flat_to(items, 1) =~= flat(items[0]) + flat_to(items.skip(1), 0));
    } else {
        lemma_flat_first(items, (n - 1) as nat);
        assert(items.skip(1)[n - 2] == items[n - 1]);
        assert(flat_to(items, n) =~= flat(items[0]) + flat_to(items.skip(1), (n - 1) as nat));
    }
}

/// The tokens of the expressions from `i` on.
spec fn flat_from(items: Seq<Form>, i: int) -> Seq<Seq<char>> {
    flat_all(items.skip(i))
}

proof fn lemma_flat_from(items: Seq<Form>, i: int)
    requires
        0 <= i < items.len(),
    ensures
        flat_from(items, i) == flat(items[i]) + flat_from(items, i + 1),
{
    lemma_flat_first(items.skip(i), items.skip(i).len());
    assert(items.skip(i).skip(1) =~= items.skip(i + 1));
}

/// No tokens, or a closing parenthesis and more tokens.
spec fn closes(tokens: Seq<Seq<char>>) -> bool {
    tokens.len() > 0 ==> tokens[0] == ")"@
}

proof fn lemma_flat_starts(form: Form)
    requires
        proper(form),
    ensures
        flat(form).len() > 0,
        flat(form)[0] != ")"@,
{
    lemma_parens();
}

proof fn lemma_form_unique(f: Form, g: Form, x: Seq<Seq<char>>, y: Seq<Seq<char>>)
    requires
        proper(f),
        proper(g),
        flat(f) + x == flat(g) + y,
    ensures
        f == g,
        x == y,
    decreases f, 0nat,
{
    let whole = flat(f) + x;
    lemma_parens();
    match (f, g) {
        (Form::Atom(a), Form::Atom(b)) => {
            assert(whole[0] == a);
            assert((flat(g) + y)[0] == b);
            assert(whole.skip(1) =~= x);
            assert((flat(g) + y).skip(1) =~= y);
        },
        (Form::Atom(a), Form::List(items)) => {
            assert(whole[0] == a);
            assert((flat(g) + y)[0] == "("@);
        },
        (Form::List(items), Form::Atom(b)) => {
            assert(whole[0] == "("@);
            assert((flat(g) + y)[0] == b);
        },
        (Form::List(a), Form::List(b)) => {
            let p = seq![")"@] + x;
            let q = seq![")"@] + y;
            assert(whole.skip(1) =~= flat_all(a) + p);
            assert((flat(g) + y).skip(1) =~= flat_all(b) + q);
            assert(a.skip(0) =~= a);
            assert(b.skip(0) =~= b);
            lemma_forms_unique(a, b, 0, p, q);
            assert(a =~= b);
            assert(x =~= p.skip(1));
            assert(y =~= q.skip(1));
        },
    }
}

proof fn lemma_forms_unique(
    a: Seq<Form>,
    b: Seq<Form>,
    i: int,
    x: Seq<Seq<char>>,
    y: Seq<Seq<char>>,
)
    requires
        proper_all(a),
        proper_all(b),
        0 <= i <= a.len(),
        i <= b.len(),
        forall|j: int| 0 <= j < i ==> a[j] == b[j],
        flat_from(a, i) + x == flat_from(b, i) + y,
        closes(x),
        closes(y),
    ensures
        a == b,
        x == y,
    decreases a, a.len() - i,
{
    if i < a.len() {
        lemma_proper_item(a, a.len(), i);
        lemma_flat_from(a, i);
        lemma_flat_starts(a[i]);
        assert((flat_from(a, i) + x)[0] == flat(a[i])[0]);
    } else {
        assert(flat_from(a, i) =~= Seq::<Seq<char>>::empty());
        assert(flat_from(a, i) + x =~= x);
    }
    if i < b.len() {
        lemma_proper_item(b, b.len(), i);
        lemma_flat_from(b, i);
        lemma_flat_starts(b[i]);
        assert((flat_from(b, i) + y)[0] == flat(b[i])[0]);
    } else {
        assert(flat_from(b, i) =~= Seq::<Seq<char>>::empty());
        assert(flat_from(b, i) + y =~= y);
    }
    if i < a.len() && i < b.len() {
        let p = flat_from(a, i + 1) + x;
        let q = flat_from(b, i + 1) + y;
        assert(flat_from(a, i) + x =~= flat(a[i]) + p);
        assert(flat_from(b, i) + y =~= flat(b[i]) + q);
        assert(decreases_to!(a => a[i]));
        lemma_form_unique(a[i], b[i], p, q);
        lemma_forms_unique(a, b, i + 1, x, y);
    } else if i == a.len() && i == b.len() {
        assert(a =~= b);
    }
}

proof fn lemma_forms_prefix(a: Seq<Form>, whole: Seq<Form>, i: int, rest: Seq<Seq<char>>)
    requires
        proper_all(a),
        proper_all(whole),
        0 <= i <= a.len(),
        i <= whole.len(),
        forall|j: int| 0 <= j < i ==> a[j] == whole[j],
        flat_from(a, i) + rest == flat_from(whole, i),
    ensures
        a.len() <= whole.len(),
        a == whole.take(a.len() as int),
    decreases a.len() - i,
{
    if i < a.len() {
        lemma_proper_item(a, a.len(), i);
        lemma_flat_from(a, i);
        lemma_flat_starts(a[i]);
        assert((flat_from(a, i) + rest).len() > 0);
        if i == whole.len() {
            assert(flat_from(whole, i) =~= Seq::<Seq<char>>::empty());
        }
        lemma_proper_item(whole, whole.len(), i);
        lemma_flat_from(whole, i);
        assert(flat_from(a, i) + rest =~= flat(a[i]) + (flat_from(a, i + 1) + rest));
        lemma_form_unique(
            a[i],
            whole[i],
            flat_from(a, i + 1) + rest,
            flat_from(whole, i + 1),
        );
        lemma_forms_prefix(a, whole, i + 1, rest);
    } else {
        assert(a =~= whole.take(a.len() as int));
    }
}

/// Where tokens start with those of some expressions, the expressions of all tokens start with
/// these.
pub proof fn lemma_parse_prefix(a: Seq<Form>, whole: Seq<Form>, rest: Seq<Seq<char>>)
    requires
        proper_all(a),
        proper_all(whole),
        flat_all(a) + rest == flat_all(whole),
    ensures
        a.len() <= whole.len(),
        a == whole.take(a.len() as int),
{
    assert(a.skip(0) =~= a);
    assert(whole.skip(0) =~= whole);
    lemma_forms_prefix(a, whole, 0, rest);
}

/// Tokens are those of at most one list of expressions whose atoms are no parentheses.
pub proof fn lemma_parse_unique(a: Seq<Form>, b: Seq<Form>)
    requires
        proper_all(a),
        proper_all(b),
        flat_all(a) == flat_all(b),
    ensures
        a == b,
{
    let none = Seq::<Seq<char>>::empty();
    assert(a.skip(0) =~= a);
    assert(b.skip(0) =~= b);
    assert(flat_from(a, 0) + none =~= flat_all(a));
    assert(flat_from(b, 0) + none =~= flat_all(b));
    lemma_forms_unique(a, b, 0, none, none);
}

/// The non-empty token under construction, as a list of tokens.
pub open spec fn flush(current: Seq<char>) -> Seq<Seq<char>> {
    if current.len() == 0 {
        Seq::empty()
    } else {
        seq![current]
    }
}

/// What is left of a text from its first newline on.
pub open spec fn after_comment(text: Seq<char>) -> Seq<char>
    decreases text.len(),
{
    if text.len() == 0 || text[0] == '\n' {
        text
    } else {
        after_comment(text.skip(1))
    }
}

/// Skipping a comment does not lengthen the text.
pub proof fn lemma_after_comment(text: Seq<char>)
    ensures
        after_comment(text).len() <= text.len(),
    decreases text.len(),
{
    if text.len() > 0 && text[0] != '\n' {
        lemma_after_comment(text.skip(1));
    }
}

/// The tokens of a text that follows the started token `current`: parentheses stand alone, white
/// space separates, and a semicolon starts a comment that ends before the next newline.
pub open spec fn tokens_after(text: Seq<char>, current: Seq<char>) -> Seq<Seq<char>>
    decreases text.len(),
{
    if text.len() == 0 {
        flush(current)
    } else {
        let rest = text.skip(1);
        proof {
            lemma_after_comment(rest);
        }
        if text[0] == ';' {
            tokens_after(after_comment(rest), current)
        } else if text[0] == '(' {
            flush(current) + seq!["("@] + tokens_after(rest, Seq::empty())
        } else if text[0] == ')' {
            flush(current) + seq![")"@] + tokens_after(rest, Seq::empty())
        } else if white_space(text[0]) {
            flush(current) + tokens_after(rest, Seq::empty())
        } else {
            tokens_after(rest, current.push(text[0]))
        }
    }
}

/// The tokens of a text.
pub open spec fn tokens_of(text: Seq<char>) -> Seq<Seq<char>> {
    tokens_after(text, Seq::empty())
}

proof fn lemma_comment_join(a: Seq<char>, b: Seq<char>)
    ensures
        after_comment(a + seq!['\n'] + b) == after_comment(a) + seq!['\n'] + b,
    decreases a.len(),
{
    let whole = a + seq!['\n'] + b;
    if a.len() == 0 {
        assert(whole[0] == '\n');
        assert(after_comment(a) =~= a);
    } else if a[0] != '\n' {
        assert(whole[0] == a[0]);
        lemma_comment_join(a.skip(1), b);
        assert(whole.skip(1) =~= a.skip(1) + seq!['\n'] + b);
    } else {
        assert(whole[0] == a[0]);
    }
}

proof fn lemma_tokens_join(a: Seq<char>, b: Seq<char>, current: Seq<char>)
    ensures
        tokens_after(a + seq!['\n'] + b, current) == tokens_after(a, current) + tokens_of(b),
    decreases a.len(),
{
    let whole = a + seq!['\n'] + b;
    if a.len() == 0 {
        assert(whole[0] == '\n');
        assert(whole.skip(1) =~= b);
        assert(white_space('\n'));
        assert(tokens_after(whole, current) == flush(current) + tokens_of(b));
    } else {
        let rest = a.skip(1);
        assert(whole[0] == a[0]);
        assert(whole.skip(1) =~= rest + seq!['\n'] + b);
        if a[0] == ';' {
            lemma_comment_join(rest, b);
            lemma_after_comment(rest);
            lemma_tokens_join(after_comment(rest), b, current);
        } else if a[0] == '(' || a[0] == ')' || white_space(a[0]) {
            lemma_tokens_join(rest, b, Seq::empty());
            assert(tokens_after(whole, current) =~= tokens_after(a, current) + tokens_of(b));
        } else {
            lemma_tokens_join(rest, b, current.push(a[0]));
        }
    }
}

/// A newline between two texts keeps their tokens apart: it ends a token and a comment.
pub proof fn lemma_tokens_of_lines(a: Seq<char>, b: Seq<char>)
    ensures
        tokens_of(a + seq!['\n'] + b) == tokens_of(a) + tokens_of(b),
{
    lemma_tokens_join(a, b, Seq::empty());
}

/// The text holds no white space.
pub open spec fn unspaced(text: Seq<char>) -> bool {
    forall|i: int| 0 <= i < text.len() ==> !white_space(#[trigger] text[i])
}

proof fn lemma_tokens_unspaced(text: Seq<char>, current: Seq<char>, k: int)
    requires
        unspaced(current),
        0 <= k < tokens_after(text, current).len(),
    ensures
        unspaced(tokens_after(text, current)[k]),
    decreases text.len(),
{
    if text.len() > 0 {
        let rest = text.skip(1);
        let n = flush(current).len() as int;
        reveal_strlit("(");
        reveal_strlit(")");
        if text[0] == ';' {
            lemma_after_comment(rest);
            lemma_tokens_unspaced(after_comment(rest), current, k);
        } else if text[0] == '(' || text[0] == ')' {
            if k > n {
                lemma_tokens_unspaced(rest, Seq::empty(), k - n - 1);
            }
        } else if white_space(text[0]) {
            if k >= n {
                lemma_tokens_unspaced(rest, Seq::empty(), k - n);
            }
        } else {
            lemma_tokens_unspaced(rest, current.push(text[0]), k);
        }
    }
}

proof fn lemma_flat_holds(items: Seq<Form>, n: nat, i: int, token: Seq<char>)
    requires
        0 <= i < n <= items.len(),
        flat(items[i]).contains(token),
    ensures
        flat_to(items, n).contains(token),
    decreases n,
{
    let first = flat_to(items, (n - 1) as nat);
    let last = flat(items[n - 1]);
    assert(flat_to(items, n) == first + last);
    if i == n - 1 {
        let k = choose|k: int| 0 <= k < last.len() && last[k] == token;
        assert((first + last)[first.len() + k] == token);
    } else {
        lemma_flat_holds(items, (n - 1) as nat, i, token);
        let k = choose|k: int| 0 <= k < first.len() && first[k] == token;
        assert((first + last)[k] == token);
    }
}

/// The atoms of the top-level lists of a script hold no white space.
pub proof fn lemma_atoms_unspaced(text: Seq<char>, items: Seq<Form>, i: int, j: int)
    requires
        flat_all(items) == tokens_of(text),
        0 <= i < items.len(),
        items[i] is List,
        0 <= j < (items[i]->List_0).len(),
        (items[i]->List_0)[j] is Atom,
    ensures
        unspaced((items[i]->List_0)[j]->Atom_0),
{
    let inner = items[i]->List_0;
    let token = inner[j]->Atom_0;
    assert(flat(inner[j]) =~= seq![token]);
    assert(flat(inner[j])[0] == token);
    lemma_flat_holds(inner, inner.len(), j, token);
    let body = flat_to(inner, inner.len());
    let k = choose|k: int| 0 <= k < body.len() && body[k] == token;
    assert(flat(items[i]) == seq!["("@] + body + seq![")"@]);
    assert(flat(items[i])[k + 1] == token);
    lemma_flat_holds(items, items.len(), i, token);
    let tokens = tokens_of(text);
    let at = choose|at: int| 0 <= at < tokens.len() && tokens[at] == token;
    lemma_tokens_unspaced(text, Seq::empty(), at);
}

/// The texts of a list of tokens.
pub open spec fn token_texts(tokens: Seq<String>) -> Seq<Seq<char>> {
    tokens.map_values(|t: String| t@)
}

/// Number of tokens or top-level expressions between two points at which a parser may be sampled.
pub const PARSE_SAMPLE_INTERVAL: usize = 1024;

/// How many sample points lie below or at this progress.
pub open spec fn sample_points(progress: nat) -> nat {
    progress / (PARSE_SAMPLE_INTERVAL as nat)
}

/// Returns whether progress has reached the next sample point.
fn sample_due(before: usize, after: usize) -> (due: bool)
    ensures
        due == (sample_points(before as nat) < sample_points(after as nat)),
{
    before / PARSE_SAMPLE_INTERVAL < after / PARSE_SAMPLE_INTERVAL
}

/// A tokenizer that stops at every sample point.
pub struct Tokenizer {
    /// The input.
    chars: Vec<char>,
    /// Number of characters read.
    next: usize,
    /// Tokens read so far.
    tokens: Vec<String>,
    /// The started token.
    current: String,
}

impl Tokenizer {
    /// The input.
    pub closed spec fn source(&self) -> Seq<char> {
        self.chars@
    }

    /// The tokens read so far.
    pub closed spec fn read(&self) -> Seq<Seq<char>> {
        token_texts(self.tokens@)
    }

    /// What has been read and what is left make up the tokens of the input.
    pub closed spec fn wf(&self) -> bool {
        &&& self.next <= self.chars@.len()
        &&& token_texts(self.tokens@) + tokens_after(
            self.chars@.skip(self.next as int),
            self.current@,
        ) == tokens_of(self.chars@)
    }

    /// Starts before the first character.
    pub fn new(input: &str) -> (tokenizer: Self)
        ensures
            tokenizer.wf(),
            tokenizer.source() == input@,
            tokenizer.read() == Seq::<Seq<char>>::empty(),
    {
        let chars = chars_of(input);
        let tokenizer = Tokenizer {
            chars,
            next: 0,
            tokens: Vec::new(),
            current: String::new(),
        };
        proof {
            assert(tokenizer.chars@ =~= input@);
            assert(tokenizer.chars@.skip(0) =~= input@);
            assert(token_texts(tokenizer.tokens@) =~= Seq::<Seq<char>>::empty());
            assert(tokenizer.current@ =~= Seq::<char>::empty());
            assert(token_texts(tokenizer.tokens@) + tokens_of(input@) =~= tokens_of(input@));
        }
        tokenizer
    }

    /// Ends the started token, if there is one.
    fn flush_current(&mut self)
        ensures
            final(self).chars == old(self).chars,
            final(self).next == old(self).next,
            final(self).current@ == Seq::<char>::empty(),
            token_texts(final(self).tokens@) == token_texts(old(self).tokens@) + flush(
                old(self).current@,
            ),
    {
        let ghost before = token_texts(self.tokens@);
        let ghost started = self.current@;
        if self.current.as_str().unicode_len() > 0 {
            let mut token = String::new();
            std::mem::swap(&mut token, &mut self.current);
            self.tokens.push(token);
        }
        proof {
            assert(self.current@ =~= Seq::<char>::empty());
            assert(token_texts(self.tokens@) =~= before + flush(started));
        }
    }

    /// Reads one character, or one comment.
    fn read_char(&mut self)
        requires
            old(self).wf(),
            old(self).next < old(self).chars@.len(),
        ensures
            final(self).wf(),
            final(self).chars == old(self).chars,
            old(self).next < final(self).next,
            old(self).tokens@.len() <= final(self).tokens@.len() <= old(self).tokens@.len() + 2,
    {
        let ghost text = self.chars@.skip(self.next as int);
        let ghost before = token_texts(self.tokens@);
        let ghost started = self.current@;
        let ghost all = tokens_of(self.chars@);
        let ch = self.chars[self.next];
        proof {
            assert(text[0] == ch);
            assert(text.skip(1) =~= self.chars@.skip(self.next as int + 1));
        }
        let count = self.chars.len();
        proof {
            assert(self.next < count);
        }
        self.next = self.next + 1;
        if ch == ';' {
            let ghost rest = self.chars@.skip(self.next as int);
            let ghost first = self.next;
            let mut i: usize = self.next;
            while i < self.chars.len() && self.chars[i] != '\n'
                invariant
                    first <= i <= self.chars.len(),
                    after_comment(self.chars@.skip(i as int)) == after_comment(rest),
                decreases self.chars.len() - i,
            {
                proof {
                    assert(self.chars@.skip(i as int).skip(1) =~= self.chars@.skip(i as int + 1));
                }
                i += 1;
            }
            self.next = i;
            proof {
                assert(after_comment(self.chars@.skip(i as int)) == self.chars@.skip(i as int));
            }
            return ;
        }
        if ch == '(' || ch == ')' {
            self.flush_current();
            let paren = if ch == '(' {
                "(".to_owned()
            } else {
                ")".to_owned()
            };
            let ghost flushed = token_texts(self.tokens@);
            self.tokens.push(paren);
            proof {
                let symbol = seq![paren@];
                assert(token_texts(self.tokens@) =~= flushed + symbol);
                let tail = tokens_after(self.chars@.skip(self.next as int), Seq::empty());
                assert(before + (flush(started) + symbol + tail) =~= (before + flush(started)
                    + symbol) + tail);
                assert(self.tokens@.len() == token_texts(self.tokens@).len());
            }
        } else if ch.is_whitespace() {
            self.flush_current();
            proof {
                let tail = tokens_after(self.chars@.skip(self.next as int), Seq::empty());
                assert(before + (flush(started) + tail) =~= (before + flush(started)) + tail);
                assert(self.tokens@.len() == token_texts(self.tokens@).len());
            }
        } else {
            self.current.push(ch);
        }
    }

    /// Reads up to the next sample point or to the end, and returns whether a sample point was
    /// reached; where none was, all tokens have been read.
    pub fn advance(&mut self) -> (due: bool)
        requires
            old(self).wf(),
        ensures
            final(self).wf(),
            final(self).source() == old(self).source(),
            due ==> sample_points(final(self).read().len()) == sample_points(
                old(self).read().len(),
            ) + 1,
            !due ==> sample_points(final(self).read().len()) == sample_points(
                old(self).read().len(),
            ) && final(self).read() == tokens_of(final(self).source()),
            final(self).read().len() <= tokens_of(final(self).source()).len(),
    {
        let start = self.tokens.len();
        while self.next < self.chars.len()
            invariant
                self.wf(),
                self.chars == old(self).chars,
                start == old(self).tokens@.len(),
                sample_points(self.tokens@.len()) == sample_points(start as nat),
            decreases self.chars@.len() - self.next,
        {
            let before = self.tokens.len();
            self.read_char();
            if sample_due(before, self.tokens.len()) {
                proof {
                    assert(self.read().len() == self.tokens@.len());
                    assert(self.read().len() <= tokens_of(self.chars@).len());
                }
                return true;
            }
        }
        let before = self.tokens.len();
        let ghost read = self.read();
        proof {
            assert(self.chars@.skip(self.next as int) =~= Seq::<char>::empty());
        }
        let ghost started = self.current@;
        self.flush_current();
        proof {
            assert(self.chars@.skip(self.next as int) =~= Seq::<char>::empty());
            assert(tokens_after(Seq::<char>::empty(), started) == flush(started));
            assert(tokens_after(Seq::<char>::empty(), self.current@) =~= Seq::<Seq<char>>::empty());
            assert(self.read() + Seq::<Seq<char>>::empty() =~= self.read());
            assert(self.read().len() == self.tokens@.len());
        }
        sample_due(before, self.tokens.len())
    }

    /// Returns the tokens read so far.
    pub fn into_tokens(self) -> (tokens: Vec<String>)
        ensures
            token_texts(tokens@) == self.read(),
    {
        self.tokens
    }
}

/// Tokenizes one SMT-LIB input string into atoms and parentheses.
pub fn tokenize(input: &str) -> (tokens: Vec<String>)
    ensures
        token_texts(tokens@) == tokens_of(input@),
{
    let mut tokenizer = Tokenizer::new(input);
    let mut more = true;
    while more
        invariant
            tokenizer.wf(),
            tokenizer.source() == input@,
            tokenizer.read().len() <= tokens_of(input@).len(),
            !more ==> tokenizer.read() == tokens_of(input@),
        decreases
            tokens_of(input@).len() - tokenizer.read().len(),
            if more {
                1nat
            } else {
                0
            },
    {
        let ghost before = tokenizer.read().len();
        more = tokenizer.advance();
        proof {
            assert(tokenizer.read().len() >= before || more) by {
                if !more {
                    assert(tokenizer.read() == tokens_of(input@));
                }
            }
            if more {
                assert(tokenizer.read().len() > before);
            }
        }
    }
    tokenizer.into_tokens()
}

/// One for an opening parenthesis, minus one for a closing one, zero for an atom.
pub open spec fn weight(token: Seq<char>) -> int {
    if token == "("@ {
        1
    } else if token == ")"@ {
        -1
    } else {
        0
    }
}

/// Opened minus closed parentheses among the tokens from `start` up to `end`.
pub open spec fn depth(tokens: Seq<Seq<char>>, start: int, end: int) -> int
    decreases end - start,
{
    if end <= start {
        0
    } else {
        depth(tokens, start, end - 1) + weight(tokens[end - 1])
    }
}

/// From `start` on, no parenthesis is closed that was not opened, but one stays open.
pub open spec fn unclosed(tokens: Seq<Seq<char>>, start: int) -> bool {
    &&& forall|end: int| start <= end <= tokens.len() ==> #[trigger] depth(tokens, start, end) >= 0
    &&& depth(tokens, start, tokens.len() as int) > 0
}

/// Some parenthesis is closed that was not opened.
pub open spec fn overclosed(tokens: Seq<Seq<char>>) -> bool {
    exists|end: int| 0 <= end <= tokens.len() && #[trigger] depth(tokens, 0, end) < 0
}

proof fn lemma_depth_split(tokens: Seq<Seq<char>>, a: int, b: int, c: int)
    requires
        a <= b <= c,
    ensures
        depth(tokens, a, c) == depth(tokens, a, b) + depth(tokens, b, c),
    decreases c - b,
{
    if b < c {
        lemma_depth_split(tokens, a, b, c - 1);
    }
}

/// The tokens from `start` up to `end` open and close parentheses in pairs.
pub open spec fn balanced(tokens: Seq<Seq<char>>, start: int, end: int) -> bool {
    &&& depth(tokens, start, end) == 0
    &&& forall|mid: int| start <= mid <= end ==> #[trigger] depth(tokens, start, mid) >= 0
}

proof fn lemma_balanced_join(tokens: Seq<Seq<char>>, a: int, b: int, c: int)
    requires
        a <= b <= c,
        balanced(tokens, a, b),
        balanced(tokens, b, c),
    ensures
        balanced(tokens, a, c),
{
    lemma_depth_split(tokens, a, b, c);
    assert forall|mid: int| a <= mid <= c implies #[trigger] depth(tokens, a, mid) >= 0 by {
        if mid > b {
            lemma_depth_split(tokens, a, b, mid);
        }
    }
}

proof fn lemma_parens()
    ensures
        "("@ != ")"@,
        weight("("@) == 1,
        weight(")"@) == -1,
{
    reveal_strlit("(");
    reveal_strlit(")");
    assert("("@[0] == '(');
    assert(")"@[0] == ')');
}

/// A closing parenthesis after balanced tokens closes what was not opened.
pub proof fn lemma_stray_close(tokens: Seq<Seq<char>>, next: int)
    requires
        0 <= next < tokens.len(),
        balanced(tokens, 0, next),
        tokens[next] == ")"@,
    ensures
        overclosed(tokens),
        !unclosed(tokens, 0),
{
    lemma_parens();
    assert(depth(tokens, 0, next + 1) == -1);
}

/// Parses as many S-expressions as possible starting at `start`.
pub fn parse_many(tokens: &Vec<String>, start: usize) -> (result: Result<
    (Vec<SExpr>, usize),
    String,
>)
    requires
        start <= tokens.len(),
    ensures
        result matches Ok((exprs, next)) ==> {
            let texts = token_texts(tokens@);
            &&& start <= next <= texts.len()
            &&& texts.subrange(start as int, next as int) == flat_all(forms(exprs))
            &&& proper_all(forms(exprs))
            &&& balanced(texts, start as int, next as int)
            &&& next < texts.len() ==> texts[next as int] == ")"@
        },
        result matches Err(error) ==> error@ == "missing closing `)`"@ && unclosed(
            token_texts(tokens@),
            start as int,
        ),
    decreases tokens.len() - start, 1int,
{
    let ghost texts = token_texts(tokens@);
    let mut exprs: Vec<SExpr> = Vec::new();
    let mut at: usize = start;
    proof {
        lemma_forms(exprs);
        assert(texts.subrange(start as int, start as int) =~= Seq::<Seq<char>>::empty());
    }
    while at < tokens.len()
        invariant
            start <= at <= tokens.len(),
            texts == token_texts(tokens@),
            texts.subrange(start as int, at as int) == flat_all(forms(exprs)),
            proper_all(forms(exprs)),
            balanced(texts, start as int, at as int),
        decreases tokens.len() - at,
    {
        if same_text(&tokens[at], ")") {
            return Ok((exprs, at));
        }
        let ghost exprs0 = exprs;
        let ghost at0 = at as int;
        match parse_one(tokens, at) {
            Err(error) => {
                proof {
                    lemma_unclosed_join(texts, start as int, at0);
                }
                return Err(error);
            },
            Ok((expr, next)) => {
                exprs.push(expr);
                at = next;
                proof {
                    lemma_balanced_join(texts, start as int, at0, at as int);
                    lemma_forms(exprs0);
                    lemma_forms(exprs);
                    assert(forms(exprs) =~= forms(exprs0).push(expr.form()));
                    lemma_flat_push(forms(exprs0), expr.form());
                    lemma_proper_push(forms(exprs0), expr.form());
                    assert(texts.subrange(start as int, at as int) =~= texts.subrange(
                        start as int,
                        at0,
                    ) + texts.subrange(at0, at as int));
                }
            },
        }
    }
    Ok((exprs, at))
}

proof fn lemma_unclosed_join(tokens: Seq<Seq<char>>, a: int, b: int)
    requires
        a <= b <= tokens.len(),
        balanced(tokens, a, b),
        unclosed(tokens, b),
    ensures
        unclosed(tokens, a),
{
    assert forall|end: int| a <= end <= tokens.len() implies #[trigger] depth(tokens, a, end) >= 0 by {
        if end > b {
            lemma_depth_split(tokens, a, b, end);
        }
    }
    lemma_depth_split(tokens, a, b, tokens.len() as int);
}

/// Parses one S-expression starting at `start`.
pub fn parse_one(tokens: &Vec<String>, start: usize) -> (result: Result<(SExpr, usize), String>)
    ensures
        result matches Ok((expr, next)) ==> {
            let texts = token_texts(tokens@);
            &&& start < next <= texts.len()
            &&& texts.subrange(start as int, next as int) == flat(expr.form())
            &&& proper(expr.form())
            &&& balanced(texts, start as int, next as int)
        },
        result matches Err(error) ==> if start >= tokens.len() {
            error@ == "unexpected end of input"@
        } else if tokens[start as int]@ == ")"@ {
            error@ == "unexpected `)`"@
        } else {
            error@ == "missing closing `)`"@ && unclosed(token_texts(tokens@), start as int)
        },
    decreases tokens.len() - start, 0int,
{
    let ghost texts = token_texts(tokens@);
    let ghost s = start as int;
    if start >= tokens.len() {
        return Err("unexpected end of input".to_owned());
    }
    if same_text(&tokens[start], ")") {
        proof {
            lemma_parens();
        }
        return Err("unexpected `)`".to_owned());
    }
    proof {
        lemma_parens();
        assert(texts[s] == tokens[s]@);
        assert(depth(texts, s, s) == 0);
        assert(depth(texts, s, s + 1) == weight(texts[s]));
    }
    if same_text(&tokens[start], "(") {
        match parse_many(tokens, start + 1) {
            Err(error) => {
                proof {
                    assert forall|end: int| s <= end <= texts.len() implies #[trigger] depth(
                        texts,
                        s,
                        end,
                    ) >= 0 by {
                        if end > s {
                            lemma_depth_split(texts, s, s + 1, end);
                            assert(depth(texts, s + 1, end) >= 0);
                        }
                    }
                    lemma_depth_split(texts, s, s + 1, texts.len() as int);
                }
                return Err(error);
            },
            Ok((items, next)) => {
                proof {
                    lemma_depth_split(texts, s, s + 1, next as int);
                    assert forall|mid: int| s <= mid <= next implies #[trigger] depth(
                        texts,
                        s,
                        mid,
                    ) >= 0 by {
                        if mid > s {
                            lemma_depth_split(texts, s, s + 1, mid);
                            assert(depth(texts, s + 1, mid) >= 0);
                        }
                    }
                }
                if next >= tokens.len() {
                    return Err("missing closing `)`".to_owned());
                }
                let ghost inner = forms(items);
                let expr = SExpr::List(items);
                proof {
                    lemma_list_form(items);
                    assert(expr.form() == Form::List(inner));
                    assert(texts[next as int] == ")"@);
                    assert(depth(texts, s, next as int + 1) == 0);
                    assert(texts.subrange(s, next as int + 1) =~= seq![texts[s]]
                        + texts.subrange(s + 1, next as int) + seq![texts[next as int]]);
                    assert(flat(expr.form()) == seq!["("@] + flat_all(inner) + seq![")"@]);
                }
                return Ok((expr, next + 1));
            },
        }
    }
    let atom = text_copy(&tokens[start]);
    proof {
        assert(texts.subrange(s, s + 1) =~= seq![texts[s]]);
        assert(flat(SExpr::Atom(atom).form()) =~= seq![atom@]);
    }
    Ok((SExpr::Atom(atom), start + 1))
}

/// Returns a copy of a text.
pub fn text_copy(text: &String) -> (copy: String)
    ensures
        copy@ == text@,
{
    text.clone()
}

/// Returns a copy of an expression.
pub fn copy_sexpr(expr: &SExpr) -> (copy: SExpr)
    ensures
        copy.form() == expr.form(),
    decreases *expr,
{
    match expr {
        SExpr::Atom(atom) => SExpr::Atom(text_copy(atom)),
        SExpr::List(items) => {
            let mut list: Vec<SExpr> = Vec::new();
            let mut i: usize = 0;
            while i < items.len()
                invariant
                    0 <= i <= items.len(),
                    list.len() == i,
                    *expr is List,
                    expr->List_0 == *items,
                    forall|j: int| 0 <= j < i ==> (#[trigger] list[j]).form() == items[j].form(),
                decreases items.len() - i,
            {
                proof {
                    assert(decreases_to!(expr->List_0 => expr->List_0[i as int]));
                }
                list.push(copy_sexpr(&items[i]));
                i += 1;
            }
            proof {
                lemma_forms(list);
                lemma_forms(*items);
                assert(forms(list) =~= forms(*items));
                lemma_list_form(list);
                lemma_list_form(*items);
            }
            SExpr::List(list)
        },
    }
}

/// A reader of top-level expressions that stops at every sample point.
pub struct ExprReader {
    /// The tokens.
    tokens: Vec<String>,
    /// Number of tokens read.
    at: usize,
    /// Expressions read so far.
    exprs: Vec<SExpr>,
}

impl ExprReader {
    /// The tokens.
    pub closed spec fn source(&self) -> Seq<Seq<char>> {
        token_texts(self.tokens@)
    }

    /// The expressions read so far.
    pub closed spec fn read(&self) -> Seq<Form> {
        forms(self.exprs)
    }

    /// The expressions are those of the tokens read.
    pub closed spec fn wf(&self) -> bool {
        let texts = token_texts(self.tokens@);
        &&& self.at <= texts.len()
        &&& texts.subrange(0, self.at as int) == flat_all(forms(self.exprs))
        &&& proper_all(forms(self.exprs))
        &&& balanced(texts, 0, self.at as int)
    }

    /// No expression is left before the end or a stray closing parenthesis.
    pub closed spec fn finished(&self) -> bool {
        let texts = token_texts(self.tokens@);
        self.at < texts.len() ==> texts[self.at as int] == ")"@
    }

    /// Starts before the first token.
    pub fn new(tokens: Vec<String>) -> (reader: Self)
        ensures
            reader.wf(),
            reader.source() == token_texts(tokens@),
            reader.read() == Seq::<Form>::empty(),
    {
        let reader = ExprReader { tokens, at: 0, exprs: Vec::new() };
        proof {
            lemma_forms(reader.exprs);
            assert(reader.read() =~= Seq::<Form>::empty());
            assert(token_texts(tokens@).subrange(0, 0) =~= Seq::<Seq<char>>::empty());
        }
        reader
    }

    /// Reads up to the next sample point or to the end, and returns whether a sample point was
    /// reached; where none was, nothing is left to read.
    pub fn advance(&mut self) -> (result: Result<bool, String>)
        requires
            old(self).wf(),
        ensures
            final(self).source() == old(self).source(),
            match result {
                Ok(due) => {
                    &&& final(self).wf()
                    &&& due ==> sample_points(final(self).read().len()) == sample_points(
                        old(self).read().len(),
                    ) + 1
                    &&& !due ==> final(self).finished() && sample_points(
                        final(self).read().len(),
                    ) == sample_points(old(self).read().len())
                    &&& final(self).read().len() <= final(self).source().len()
                },
                Err(error) => error@ == "missing closing `)`"@ && unclosed(
                    final(self).source(),
                    0,
                ),
            },
    {
        let ghost texts = token_texts(self.tokens@);
        let start = self.exprs.len();
        proof {
            lemma_forms(self.exprs);
            self.lemma_read();
        }
        while self.at < self.tokens.len()
            invariant
                self.wf(),
                self.tokens == old(self).tokens,
                texts == token_texts(self.tokens@),
                start == old(self).read().len(),
                self.exprs@.len() <= self.at,
                sample_points(self.exprs@.len()) == sample_points(start as nat),
            decreases self.tokens@.len() - self.at,
        {
            let at = self.at;
            if same_text(&self.tokens[at], ")") {
                proof {
                    lemma_forms(self.exprs);
                }
                return Ok(false);
            }
            let ghost before = self.exprs;
            match parse_one(&self.tokens, at) {
                Err(error) => {
                    proof {
                        lemma_unclosed_join(texts, 0, at as int);
                    }
                    return Err(error);
                },
                Ok((expr, next)) => {
                    let count = self.exprs.len();
                    self.exprs.push(expr);
                    self.at = next;
                    proof {
                        lemma_balanced_join(texts, 0, at as int, next as int);
                        lemma_forms(before);
                        lemma_forms(self.exprs);
                        assert(forms(self.exprs) =~= forms(before).push(expr.form()));
                        lemma_flat_push(forms(before), expr.form());
                        lemma_proper_push(forms(before), expr.form());
                        assert(texts.subrange(0, next as int) =~= texts.subrange(0, at as int)
                            + texts.subrange(at as int, next as int));
                    }
                    if sample_due(count, self.exprs.len()) {
                        return Ok(true);
                    }
                },
            }
        }
        proof {
            lemma_forms(self.exprs);
        }
        Ok(false)
    }

    /// There are no more expressions than tokens read.
    proof fn lemma_read(&self)
        requires
            self.wf(),
        ensures
            self.exprs@.len() <= self.at,
            self.read().len() == self.exprs@.len(),
    {
        lemma_forms(self.exprs);
        lemma_flat_len(forms(self.exprs), forms(self.exprs).len());
    }

    /// Returns the expressions, unless tokens are left.
    pub fn finish(self) -> (result: Result<Vec<SExpr>, String>)
        requires
            self.wf(),
            self.finished(),
        ensures
            match result {
                Ok(exprs) => {
                    &&& forms(exprs) == self.read()
                    &&& flat_all(forms(exprs)) == self.source()
                    &&& proper_all(forms(exprs))
                    &&& !overclosed(self.source())
                    &&& !unclosed(self.source(), 0)
                },
                Err(error) => error@ == "trailing tokens after parse"@ && overclosed(self.source()),
            },
    {
        let ghost texts = token_texts(self.tokens@);
        if self.at != self.tokens.len() {
            proof {
                lemma_stray_close(texts, self.at as int);
            }
            return Err("trailing tokens after parse".to_owned());
        }
        proof {
            assert(texts.subrange(0, texts.len() as int) =~= texts);
            assert(depth(texts, 0, texts.len() as int) == 0);
            assert forall|end: int| 0 <= end <= texts.len() implies #[trigger] depth(texts, 0, end)
                >= 0 by {}
        }
        Ok(self.exprs)
    }
}

/// Every expression has a token.
proof fn lemma_flat_len(items: Seq<Form>, n: nat)
    requires
        n <= items.len(),
    ensures
        flat_to(items, n).len() >= n,
    decreases n,
{
    if n > 0 {
        lemma_flat_len(items, (n - 1) as nat);
        assert(flat(items[n - 1]).len() >= 1);
    }
}

} // verus!
