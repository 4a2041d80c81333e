//! Trace metadata and expectation rules.

use crate::harness::model::{
    answer_labelled, ExpectationRule, ExpectedQueryResult, QueryAnswer,
};
use crate::qfuf::sexpr::{text_copy, token_texts};
use crate::strings::{
    begins, byte_len, byte_length, char_lists, ends, ends_with, line_list, lines_of, parts,
    split_chars, starts_with, trim_chars, trimmed,
};
use crate::text::{chars_of, decimal, decimal_text, joined3, same_text, text_of};
use vstd::prelude::*;

verus! {

/// The file name has the suffix of a supported SMT-LIB case format.
pub open spec fn supported_name(name: Seq<char>) -> bool {
    ||| ends(name, ".smt2"@)
    ||| ends(name, ".smt2.gz"@)
    ||| ends(name, ".smt2.bz2"@)
}

/// Returns `true` when the file name has the suffix of a supported SMT-LIB case format.
pub fn is_supported_case(name: &str) -> (answer: bool)
    ensures
        answer == supported_name(name@),
{
    ends_with(name, ".smt2") || ends_with(name, ".smt2.gz") || ends_with(name, ".smt2.bz2")
}

/// ASCII white space.
pub open spec fn ascii_space(c: char) -> bool {
    c == ' ' || c == '\t' || c == '\n' || c == '\r' || c == '\u{c}'
}

/// Returns whether a character is ASCII white space.
fn is_ascii_space(c: char) -> (answer: bool)
    ensures
        answer == ascii_space(c),
{
    c == ' ' || c == '\t' || c == '\n' || c == '\r' || c == '\u{c}'
}

/// One token of a trace.
#[derive(Debug, PartialEq, Eq)]
pub enum MetadataToken {
    /// One opening parenthesis.
    OpenParen,
    /// One closing parenthesis.
    CloseParen,
    /// One atom.
    Atom(String),
}

/// One token as a mathematical value.
pub enum TokenView {
    /// One opening parenthesis.
    Open,
    /// One closing parenthesis.
    Close,
    /// One atom.
    Atom(Seq<char>),
}

impl MetadataToken {
    /// The token as a mathematical value.
    pub open spec fn token(self) -> TokenView {
        match self {
            MetadataToken::OpenParen => TokenView::Open,
            MetadataToken::CloseParen => TokenView::Close,
            MetadataToken::Atom(atom) => TokenView::Atom(atom@),
        }
    }
}

/// The position after the comment text that starts at `i`.
pub open spec fn comment_end(text: Seq<char>, i: nat) -> nat
    decreases text.len() - i,
{
    if i >= text.len() {
        i
    } else if text[i as int] == '\n' {
        i + 1
    } else {
        comment_end(text, i + 1)
    }
}

/// A comment ends after it starts, within the text.
pub proof fn lemma_comment_end(text: Seq<char>, i: nat)
    requires
        i <= text.len(),
    ensures
        i <= comment_end(text, i) <= text.len(),
    decreases text.len() - i,
{
    if i < text.len() && text[i as int] != '\n' {
        lemma_comment_end(text, i + 1);
    }
}

/// The first position from `i` on that is neither white space nor in a comment.
pub open spec fn layout_end(text: Seq<char>, i: nat) -> nat
    decreases text.len() - i,
    when i <= text.len()
    via layout_decreases
{
    if i >= text.len() {
        i
    } else if ascii_space(text[i as int]) {
        layout_end(text, i + 1)
    } else if text[i as int] == ';' {
        layout_end(text, comment_end(text, i + 1))
    } else {
        i
    }
}

#[via_fn]
proof fn layout_decreases(text: Seq<char>, i: nat) {
    if i < text.len() {
        lemma_comment_end(text, i + 1);
    }
}

/// Layout ends after it starts, within the text.
pub proof fn lemma_layout_end(text: Seq<char>, i: nat)
    requires
        i <= text.len(),
    ensures
        i <= layout_end(text, i) <= text.len(),
    decreases text.len() - i,
{
    if i < text.len() {
        if ascii_space(text[i as int]) {
            lemma_layout_end(text, i + 1);
        } else if text[i as int] == ';' {
            lemma_comment_end(text, i + 1);
            lemma_layout_end(text, comment_end(text, i + 1));
        }
    }
}

/// The position after the string literal whose content starts at `i`.
pub open spec fn string_end(text: Seq<char>, i: nat) -> Option<nat>
    decreases text.len() - i,
{
    if i >= text.len() {
        None
    } else if text[i as int] == '"' {
        if i + 1 < text.len() && text[i as int + 1] == '"' {
            string_end(text, i + 2)
        } else {
            Some(i + 1)
        }
    } else {
        string_end(text, i + 1)
    }
}

/// The position after the quoted symbol whose content starts at `i`.
pub open spec fn symbol_end(text: Seq<char>, i: nat) -> Option<nat>
    decreases text.len() - i,
{
    if i >= text.len() {
        None
    } else if text[i as int] == '\\' {
        if i + 1 < text.len() {
            symbol_end(text, i + 2)
        } else {
            None
        }
    } else if text[i as int] == '|' {
        Some(i + 1)
    } else {
        symbol_end(text, i + 1)
    }
}

/// The character ends a bare atom.
pub open spec fn ends_atom(c: char) -> bool {
    ascii_space(c) || c == '(' || c == ')' || c == ';'
}

/// The position after the bare atom that starts at `i`.
pub open spec fn atom_end(text: Seq<char>, i: nat) -> nat
    decreases text.len() - i,
{
    if i >= text.len() || ends_atom(text[i as int]) {
        i
    } else {
        atom_end(text, i + 1)
    }
}

/// A token ends after it starts, within the text.
pub proof fn lemma_token_end(text: Seq<char>, i: nat)
    requires
        i <= text.len(),
    ensures
        i <= atom_end(text, i) <= text.len(),
        i < text.len() && !ends_atom(text[i as int]) ==> i < atom_end(text, i),
        string_end(text, i) matches Some(end) ==> i < end <= text.len(),
        symbol_end(text, i) matches Some(end) ==> i < end <= text.len(),
    decreases text.len() - i,
{
    if i < text.len() {
        lemma_token_end(text, i + 1);
        if i + 2 <= text.len() {
            lemma_token_end(text, i + 2);
        }
    }
}

/// The next token from `i` on and the position after it, nothing at the end of the text, or the error
/// message.
pub open spec fn next_token(text: Seq<char>, i: nat) -> Result<Option<(TokenView, nat)>, Seq<char>> {
    let at = layout_end(text, i);
    if at >= text.len() {
        Ok(None)
    } else {
        let c = text[at as int];
        if c == '(' {
            Ok(Some((TokenView::Open, at + 1)))
        } else if c == ')' {
            Ok(Some((TokenView::Close, at + 1)))
        } else if c == '"' {
            match string_end(text, at + 1) {
                None => Err("unterminated string literal"@),
                Some(end) => Ok(
                    Some((TokenView::Atom(text.subrange(at as int, end as int)), end)),
                ),
            }
        } else if c == '|' {
            match symbol_end(text, at + 1) {
                None => Err("unterminated quoted symbol"@),
                Some(end) => Ok(
                    Some((TokenView::Atom(text.subrange(at as int, end as int)), end)),
                ),
            }
        } else {
            let end = atom_end(text, at);
            Ok(Some((TokenView::Atom(text.subrange(at as int, end as int)), end)))
        }
    }
}

/// A scanner over the tokens of a trace.
#[derive(Debug)]
pub struct MetadataScanner {
    /// The characters of the input being scanned.
    input: Vec<char>,
    /// The next unread position.
    index: usize,
}

impl MetadataScanner {
    /// The input.
    pub closed spec fn source(&self) -> Seq<char> {
        self.input@
    }

    /// The next unread position.
    pub closed spec fn position(&self) -> nat {
        self.index as nat
    }

    /// The position is within the input.
    pub closed spec fn wf(&self) -> bool {
        self.index <= self.input@.len()
    }

    /// Creates a new scanner over one SMT-LIB input string.
    pub fn new(input: &str) -> (scanner: Self)
        ensures
            scanner.wf(),
            scanner.source() == input@,
            scanner.position() == 0,
    {
        MetadataScanner { input: chars_of(input), index: 0 }
    }

    /// Skips ASCII whitespace and semicolon comments.
    fn skip_layout(&mut self)
        requires
            old(self).wf(),
        ensures
            final(self).wf(),
            final(self).source() == old(self).source(),
            final(self).position() == layout_end(old(self).source(), old(self).position()),
    {
        let ghost text = self.input@;
        let ghost goal = layout_end(text, self.index as nat);
        while self.index < self.input.len()
            invariant
                self.input@ == text,
                text == old(self).input@,
                self.index <= text.len(),
                layout_end(text, self.index as nat) == goal,
            ensures
                self.input@ == text,
                self.index <= text.len(),
                self.index == goal,
            decreases text.len() - self.index,
        {
            let c = self.input[self.index];
            let ghost start = self.index;
            if is_ascii_space(c) {
                self.index = self.index + 1;
            } else if c == ';' {
                proof {
                    lemma_comment_end(text, (self.index + 1) as nat);
                }
                let ghost end = comment_end(text, (self.index + 1) as nat);
                self.index = self.index + 1;
                while self.index < self.input.len()
                    invariant_except_break
                        comment_end(text, self.index as nat) == end,
                    invariant
                        self.input@ == text,
                        self.index <= text.len(),
                    ensures
                        self.input@ == text,
                        self.index <= text.len(),
                        self.index == end,
                    decreases text.len() - self.index,
                {
                    let c = self.input[self.index];
                    self.index = self.index + 1;
                    if c == '\n' {
                        break;
                    }
                }
            } else {
                break;
            }
        }
    }

    /// Returns a copy of the input from `start` to the current position.
    fn atom_from(&self, start: usize) -> (atom: String)
        requires
            self.wf(),
            start <= self.position(),
        ensures
            atom@ == self.source().subrange(start as int, self.position() as int),
    {
        let mut list: Vec<char> = Vec::new();
        let mut i: usize = start;
        while i < self.index
            invariant
                start <= i <= self.index <= self.input@.len(),
                list@ == self.input@.subrange(start as int, i as int),
            decreases self.index - i,
        {
            list.push(self.input[i]);
            proof {
                assert(self.input@.subrange(start as int, i as int + 1) =~= self.input@.subrange(
                    start as int,
                    i as int,
                ).push(self.input@[i as int]));
            }
            i += 1;
        }
        text_of(list.as_slice())
    }

    /// Moves past the string literal whose content starts here.
    fn scan_quoted_string(&mut self) -> (closed: bool)
        requires
            old(self).wf(),
        ensures
            final(self).wf(),
            final(self).source() == old(self).source(),
            closed == (string_end(old(self).source(), old(self).position()) is Some),
            closed ==> string_end(old(self).source(), old(self).position()) == Some(
                final(self).position(),
            ),
    {
        let ghost text = self.input@;
        let ghost goal = string_end(text, self.index as nat);
        while self.index < self.input.len()
            invariant
                self.input@ == text,
                text == old(self).input@,
                self.index <= text.len(),
                string_end(text, self.index as nat) == goal,
                goal == string_end(text, old(self).index as nat),
            decreases text.len() - self.index,
        {
            let c = self.input[self.index];
            if c == '"' {
                if self.index + 1 < self.input.len() && self.input[self.index + 1] == '"' {
                    self.index = self.index + 2;
                } else {
                    self.index = self.index + 1;
                    return true;
                }
            } else {
                self.index = self.index + 1;
            }
        }
        false
    }

    /// Moves past the quoted symbol whose content starts here.
    fn scan_quoted_symbol(&mut self) -> (closed: bool)
        requires
            old(self).wf(),
        ensures
            final(self).wf(),
            final(self).source() == old(self).source(),
            closed == (symbol_end(old(self).source(), old(self).position()) is Some),
            closed ==> symbol_end(old(self).source(), old(self).position()) == Some(
                final(self).position(),
            ),
    {
        let ghost text = self.input@;
        let ghost goal = symbol_end(text, self.index as nat);
        while self.index < self.input.len()
            invariant
                self.input@ == text,
                text == old(self).input@,
                self.index <= text.len(),
                symbol_end(text, self.index as nat) == goal,
                goal == symbol_end(text, old(self).index as nat),
            decreases text.len() - self.index,
        {
            let c = self.input[self.index];
            self.index = self.index + 1;
            if c == '\\' {
                if self.index < self.input.len() {
                    self.index = self.index + 1;
                }
            } else if c == '|' {
                return true;
            }
        }
        false
    }

    /// Moves past the bare atom that starts here.
    fn scan_bare_atom(&mut self)
        requires
            old(self).wf(),
        ensures
            final(self).wf(),
            final(self).source() == old(self).source(),
            final(self).position() == atom_end(old(self).source(), old(self).position()),
    {
        let ghost text = self.input@;
        let ghost goal = atom_end(text, self.index as nat);
        while self.index < self.input.len()
            invariant
                self.input@ == text,
                text == old(self).input@,
                self.index <= text.len(),
                atom_end(text, self.index as nat) == goal,
            ensures
                self.input@ == text,
                self.index <= text.len(),
                self.index == goal,
            decreases text.len() - self.index,
        {
            let c = self.input[self.index];
            if is_ascii_space(c) || c == '(' || c == ')' || c == ';' {
                break;
            }
            self.index = self.index + 1;
        }
    }

    /// Returns the next token, skipping whitespace and comments.
    pub fn next_token(&mut self) -> (result: Result<Option<MetadataToken>, String>)
        requires
            old(self).wf(),
        ensures
            final(self).wf(),
            final(self).source() == old(self).source(),
            match next_token(old(self).source(), old(self).position()) {
                Err(error) => result is Err && result->Err_0@ == error,
                Ok(None) => result == Ok::<Option<MetadataToken>, String>(None),
                Ok(Some((token, end))) => {
                    &&& result is Ok
                    &&& result->Ok_0 is Some
                    &&& (result->Ok_0->0).token() == token
                    &&& final(self).position() == end
                    &&& old(self).position() < end
                },
            },
    {
        let ghost text = self.input@;
        proof {
            lemma_layout_end(text, self.index as nat);
        }
        self.skip_layout();
        if self.index >= self.input.len() {
            return Ok(None);
        }
        let start = self.index;
        let c = self.input[start];
        proof {
            lemma_token_end(text, start as nat);
            lemma_token_end(text, (start + 1) as nat);
        }
        if c == '(' {
            self.index = self.index + 1;
            return Ok(Some(MetadataToken::OpenParen));
        }
        if c == ')' {
            self.index = self.index + 1;
            return Ok(Some(MetadataToken::CloseParen));
        }
        if c == '"' {
            self.index = self.index + 1;
            if !self.scan_quoted_string() {
                return Err("unterminated string literal".to_owned());
            }
            return Ok(Some(MetadataToken::Atom(self.atom_from(start))));
        }
        if c == '|' {
            self.index = self.index + 1;
            if !self.scan_quoted_symbol() {
                return Err("unterminated quoted symbol".to_owned());
            }
            return Ok(Some(MetadataToken::Atom(self.atom_from(start))));
        }
        self.scan_bare_atom();
        proof {
            assert(!ends_atom(c)) by {
                lemma_layout_stops(text, old(self).index as nat);
            }
        }
        Ok(Some(MetadataToken::Atom(self.atom_from(start))))
    }
}

/// Layout ends where something else starts.
proof fn lemma_layout_stops(text: Seq<char>, i: nat)
    requires
        i <= text.len(),
        layout_end(text, i) < text.len(),
    ensures
        !ascii_space(text[layout_end(text, i) as int]),
        text[layout_end(text, i) as int] != ';',
    decreases text.len() - i,
{
    if i < text.len() {
        if ascii_space(text[i as int]) {
            lemma_layout_stops(text, i + 1);
        } else if text[i as int] == ';' {
            lemma_comment_end(text, i + 1);
            lemma_layout_stops(text, comment_end(text, i + 1));
        }
    }
}

/// What is known of a trace.
pub struct MetadataView {
    /// Declared logic, when any.
    pub logic: Option<Seq<char>>,
    /// Expected answers of the `check-sat` commands.
    pub expected: Seq<QueryAnswer>,
}

/// The direct children of one top-level command.
pub struct CommandView {
    /// Direct atoms, the head first.
    pub atoms: Seq<Seq<char>>,
    /// A direct child is a list.
    pub nested: bool,
}

/// How far a trace has been read.
pub struct Progress {
    /// Number of open parentheses.
    pub depth: nat,
    /// The command that is being read.
    pub command: Option<CommandView>,
    /// What is known so far.
    pub metadata: MetadataView,
    /// Status announced for the next query.
    pub pending: Option<QueryAnswer>,
}

/// What a finished top-level command adds.
pub open spec fn after_command(
    command: CommandView,
    metadata: MetadataView,
    pending: Option<QueryAnswer>,
) -> Result<(MetadataView, Option<QueryAnswer>), Seq<char>> {
    let atoms = command.atoms;
    if command.nested {
        Ok((metadata, pending))
    } else if atoms.len() == 2 && atoms[0] == "set-logic"@ {
        Ok((MetadataView { logic: Some(atoms[1]), ..metadata }, pending))
    } else if atoms.len() == 3 && atoms[0] == "set-info"@ && atoms[1] == ":status"@ {
        match answer_labelled(atoms[2]) {
            Err(error) => Err(error),
            Ok(answer) => Ok((metadata, Some(answer))),
        }
    } else if atoms.len() == 1 && atoms[0] == "check-sat"@ {
        let answer = match pending {
            Some(answer) => answer,
            None => QueryAnswer::Unknown,
        };
        Ok((MetadataView { expected: metadata.expected.push(answer), ..metadata }, None))
    } else {
        Ok((metadata, pending))
    }
}

/// How far a trace has been read after one more token.
pub open spec fn after_token(state: Progress, token: TokenView) -> Result<Progress, Seq<char>> {
    match token {
        TokenView::Open => Ok(
            Progress {
                depth: state.depth + 1,
                command: if state.depth == 0 {
                    Some(CommandView { atoms: Seq::empty(), nested: false })
                } else if state.depth == 1 {
                    match state.command {
                        Some(command) => Some(CommandView { nested: true, ..command }),
                        None => None,
                    }
                } else {
                    state.command
                },
                ..state
            },
        ),
        TokenView::Close => if state.depth == 0 {
            Err("unexpected `)`"@)
        } else if state.depth == 1 && state.command is Some {
            match after_command(state.command->0, state.metadata, state.pending) {
                Err(error) => Err(error),
                Ok((metadata, pending)) => Ok(
                    Progress { depth: 0, command: None, metadata, pending },
                ),
            }
        } else {
            Ok(Progress { depth: (state.depth - 1) as nat, ..state })
        },
        TokenView::Atom(atom) => if state.depth == 1 && state.command is Some {
            let command = state.command->0;
            Ok(
                Progress {
                    command: Some(CommandView { atoms: command.atoms.push(atom), ..command }),
                    ..state
                },
            )
        } else {
            Ok(state)
        },
    }
}

/// How far a trace has been read at its end, from position `i` on.
pub open spec fn read_on(text: Seq<char>, i: nat, state: Progress) -> Result<Progress, Seq<char>>
    decreases text.len() - i,
{
    match next_token(text, i) {
        Err(error) => Err(error),
        Ok(None) => Ok(state),
        Ok(Some((token, end))) => match after_token(state, token) {
            Err(error) => Err(error),
            Ok(next) => if i < end <= text.len() {
                read_on(text, end, next)
            } else {
                Ok(next)
            },
        },
    }
}

/// The state before the first token.
pub open spec fn unread() -> Progress {
    Progress {
        depth: 0,
        command: None,
        metadata: MetadataView { logic: None, expected: Seq::empty() },
        pending: None,
    }
}

/// The metadata of a trace, or the error message.
pub open spec fn trace_metadata(text: Seq<char>) -> Result<MetadataView, Seq<char>> {
    match read_on(text, 0, unread()) {
        Err(error) => Err(error),
        Ok(state) => if state.depth != 0 {
            Err("missing closing `)`"@)
        } else {
            Ok(state.metadata)
        },
    }
}

/// One metadata summary extracted from one SMT-LIB trace.
#[derive(Debug, PartialEq, Eq)]
pub struct TraceMetadata {
    /// Declared SMT logic, when any.
    pub logic: Option<String>,
    /// Expected results attached to `check-sat` commands.
    pub expected_queries: Vec<ExpectedQueryResult>,
}

/// The answers of a list of expected results.
pub open spec fn answers_of(queries: Seq<ExpectedQueryResult>) -> Seq<QueryAnswer> {
    queries.map_values(|q: ExpectedQueryResult| q.expected)
}

/// Expected results are numbered in order.
pub open spec fn numbered(queries: Seq<ExpectedQueryResult>) -> bool {
    forall|i: int| 0 <= i < queries.len() ==> (#[trigger] queries[i]).query_index == i
}

impl TraceMetadata {
    /// The metadata as a mathematical value.
    pub open spec fn metadata(self) -> MetadataView {
        MetadataView {
            logic: match self.logic {
                Some(logic) => Some(logic@),
                None => None,
            },
            expected: answers_of(self.expected_queries@),
        }
    }

    /// Returns metadata that says nothing.
    pub fn empty() -> (metadata: Self)
        ensures
            metadata.metadata() == unread().metadata,
            numbered(metadata.expected_queries@),
    {
        let metadata = TraceMetadata { logic: None, expected_queries: Vec::new() };
        proof {
            assert(answers_of(metadata.expected_queries@) =~= Seq::<QueryAnswer>::empty());
        }
        metadata
    }
}

/// The direct children observed inside one top-level SMT-LIB command.
#[derive(Debug)]
pub struct TopLevelCommand {
    /// All direct atom children, including the command head.
    pub direct_atoms: Vec<String>,
    /// Whether the command contains any direct nested list child.
    pub has_nested_child: bool,
}

impl TopLevelCommand {
    /// The command as a mathematical value.
    pub open spec fn command(self) -> CommandView {
        CommandView { atoms: token_texts(self.direct_atoms@), nested: self.has_nested_child }
    }
}

/// Applies one fully scanned top-level command to the running metadata state.
pub fn apply_top_level_command(
    command: &TopLevelCommand,
    metadata: &mut TraceMetadata,
    pending_status: &mut Option<QueryAnswer>,
) -> (result: Result<(), String>)
    requires
        numbered(old(metadata).expected_queries@),
    ensures
        numbered(final(metadata).expected_queries@),
        match after_command(command.command(), old(metadata).metadata(), *old(pending_status)) {
            Err(error) => result is Err && result->Err_0@ == error,
            Ok((next, pending)) => result is Ok && final(metadata).metadata() == next && *final(pending_status) == pending,
        },
{
    let atoms = &command.direct_atoms;
    let ghost texts = token_texts(atoms@);
    if command.has_nested_child {
        return Ok(());
    }
    if atoms.len() == 2 && same_text(atoms[0].as_str(), "set-logic") {
        metadata.logic = Some(text_copy(&atoms[1]));
        return Ok(());
    }
    if atoms.len() == 3 && same_text(atoms[0].as_str(), "set-info") && same_text(
        atoms[1].as_str(),
        ":status",
    ) {
        return match QueryAnswer::parse(atoms[2].as_str()) {
            Err(error) => Err(error),
            Ok(answer) => {
                *pending_status = Some(answer);
                Ok(())
            },
        };
    }
    if atoms.len() == 1 && same_text(atoms[0].as_str(), "check-sat") {
        let expected = match *pending_status {
            Some(answer) => answer,
            None => QueryAnswer::Unknown,
        };
        *pending_status = None;
        let query_index = metadata.expected_queries.len();
        let ghost before = metadata.expected_queries@;
        metadata.expected_queries.push(ExpectedQueryResult { query_index, expected });
        proof {
            assert(answers_of(metadata.expected_queries@) =~= answers_of(before).push(expected));
        }
    }
    Ok(())
}

/// The command that is being read.
spec fn command_of(command: Option<TopLevelCommand>) -> Option<CommandView> {
    match command {
        Some(command) => Some(command.command()),
        None => None,
    }
}

/// Extracts the logic and expected query answers from one SMT-LIB trace.
pub fn parse_trace_metadata(input: &str) -> (result: Result<TraceMetadata, String>)
    ensures
        match trace_metadata(input@) {
            Err(error) => result is Err && result->Err_0@ == error,
            Ok(metadata) => result is Ok && (result->Ok_0).metadata() == metadata && numbered(
                (result->Ok_0).expected_queries@,
            ),
        },
{
    let ghost text = input@;
    let ghost goal = read_on(text, 0, unread());
    let mut metadata = TraceMetadata::empty();
    let mut pending_status: Option<QueryAnswer> = None;
    let mut scanner = MetadataScanner::new(input);
    let mut depth: usize = 0;
    let mut command: Option<TopLevelCommand> = None;
    loop
        invariant_except_break
            depth <= scanner.position(),
            goal == read_on(
                text,
                scanner.position(),
                (Progress {
                    depth: depth as nat,
                    command: command_of(command),
                    metadata: metadata.metadata(),
                    pending: pending_status,
                }),
            ),
        invariant
            text == input@,
            goal == read_on(text, 0, unread()),
            scanner.wf(),
            scanner.source() == text,
            numbered(metadata.expected_queries@),
        ensures
            numbered(metadata.expected_queries@),
            goal == Ok::<Progress, Seq<char>>(
                Progress {
                    depth: depth as nat,
                    command: command_of(command),
                    metadata: metadata.metadata(),
                    pending: pending_status,
                },
            ),
        decreases text.len() - scanner.position(),
    {
        let ghost at = scanner.position();
        let ghost state = Progress {
            depth: depth as nat,
            command: command_of(command),
            metadata: metadata.metadata(),
            pending: pending_status,
        };
        proof {
            lemma_next_in_range(text, at);
            scanner.lemma_range();
        }
        let token = match scanner.next_token() {
            Err(error) => return Err(error),
            Ok(None) => {
                break;
            },
            Ok(Some(token)) => token,
        };
        proof {
            scanner.lemma_range();
        }
        match token {
            MetadataToken::OpenParen => {
                if depth == 0 {
                    let fresh = TopLevelCommand {
                        direct_atoms: Vec::new(),
                        has_nested_child: false,
                    };
                    proof {
                        assert(token_texts(fresh.direct_atoms@) =~= Seq::<Seq<char>>::empty());
                    }
                    command = Some(fresh);
                } else if depth == 1 {
                    command = match command {
                        Some(found) => Some(
                            TopLevelCommand {
                                direct_atoms: found.direct_atoms,
                                has_nested_child: true,
                            },
                        ),
                        None => None,
                    };
                }
                depth = depth + 1;
            },
            MetadataToken::CloseParen => {
                if depth == 0 {
                    return Err("unexpected `)`".to_owned());
                }
                if depth == 1 {
                    if let Some(found) = command {
                        match apply_top_level_command(&found, &mut metadata, &mut pending_status) {
                            Err(error) => return Err(error),
                            Ok(_) => {},
                        }
                        command = None;
                    } else {
                        command = None;
                    }
                }
                depth = depth - 1;
            },
            MetadataToken::Atom(atom) => {
                if depth == 1 {
                    command = match command {
                        Some(found) => {
                            let ghost before = token_texts(found.direct_atoms@);
                            let ghost added = atom@;
                            let mut direct_atoms = found.direct_atoms;
                            direct_atoms.push(atom);
                            proof {
                                assert(token_texts(direct_atoms@) =~= before.push(added));
                            }
                            Some(
                                TopLevelCommand {
                                    direct_atoms,
                                    has_nested_child: found.has_nested_child,
                                },
                            )
                        },
                        None => None,
                    };
                }
            },
        }
    }
    if depth != 0 {
        return Err("missing closing `)`".to_owned());
    }
    Ok(metadata)
}

impl MetadataScanner {
    proof fn lemma_range(&self)
        requires
            self.wf(),
        ensures
            self.position() <= self.source().len(),
            self.source().len() <= usize::MAX,
    {
        assert(self.input.len() == self.input@.len());
    }
}

proof fn lemma_next_in_range(text: Seq<char>, i: nat)
    requires
        i <= text.len(),
    ensures
        next_token(text, i) matches Ok(Some((token, end))) ==> i < end <= text.len(),
{
    lemma_layout_end(text, i);
    let at = layout_end(text, i);
    if at < text.len() {
        lemma_layout_stops(text, i);
        lemma_token_end(text, at);
        lemma_token_end(text, at + 1);
    }
}

/// Counts `check-sat` queries in one SMT-LIB trace.
pub fn query_count(input: &str) -> (result: Result<usize, String>)
    ensures
        match trace_metadata(input@) {
            Err(error) => result is Err && result->Err_0@ == error,
            Ok(metadata) => result is Ok && result->Ok_0 == metadata.expected.len(),
        },
{
    match parse_trace_metadata(input) {
        Err(error) => Err(error),
        Ok(metadata) => Ok(metadata.expected_queries.len()),
    }
}

/// One expectations rule as a mathematical value.
#[verifier::ext_equal]
pub struct RuleView {
    /// Path prefix.
    pub prefix: Seq<char>,
    /// Expected answer.
    pub expected: QueryAnswer,
    /// Source label.
    pub source: Seq<char>,
}

impl ExpectationRule {
    /// The rule as a mathematical value.
    pub open spec fn rule(self) -> RuleView {
        RuleView { prefix: self.prefix@, expected: self.expected, source: self.source@ }
    }
}

/// The rules as mathematical values.
pub open spec fn rule_views(rules: Seq<ExpectationRule>) -> Seq<RuleView> {
    rules.map_values(|r: ExpectationRule| r.rule())
}

/// The length of a prefix in bytes.
pub open spec fn prefix_bytes(rule: RuleView) -> nat {
    byte_length(rule.prefix, rule.prefix.len())
}

/// The position in an ordered list at which a rule is inserted: after all rules whose prefix is not
/// shorter.
pub open spec fn slot(rules: Seq<RuleView>, rule: RuleView, n: nat) -> nat
    decreases n,
{
    if n == 0 {
        0
    } else if prefix_bytes(rules[n - 1]) >= prefix_bytes(rule) {
        n
    } else {
        slot(rules, rule, (n - 1) as nat)
    }
}

/// The list with one more rule in its place.
pub open spec fn with_rule(rules: Seq<RuleView>, rule: RuleView) -> Seq<RuleView> {
    rules.insert(slot(rules, rule, rules.len()) as int, rule)
}

/// Longer prefixes come first.
pub open spec fn longest_first(rules: Seq<RuleView>) -> bool {
    forall|i: int, j: int|
        0 <= i < j < rules.len() ==> prefix_bytes(#[trigger] rules[i]) >= prefix_bytes(
            #[trigger] rules[j],
        )
}

/// The message for a row with the wrong number of columns.
pub open spec fn bad_row(row: nat, manifest: Seq<char>) -> Seq<char> {
    "bad manifest row "@ + decimal_text(row) + " in "@ + manifest
        + ": expected 3 tab-separated columns"@
}

/// The rules of the first `n` lines of a manifest in lookup order, or the first error message.
pub open spec fn manifest_rules(lines: Seq<Seq<char>>, manifest: Seq<char>, n: nat) -> Result<
    Seq<RuleView>,
    Seq<char>,
>
    decreases n,
{
    if n == 0 {
        Ok(Seq::empty())
    } else {
        match manifest_rules(lines, manifest, (n - 1) as nat) {
            Err(error) => Err(error),
            Ok(rules) => {
                let line = trimmed(lines[n - 1]);
                if line.len() == 0 || line[0] == '#' {
                    Ok(rules)
                } else {
                    let columns = parts(line, '\t');
                    if columns.len() != 3 {
                        Err(bad_row(n, manifest))
                    } else {
                        match answer_labelled(columns[1]) {
                            Err(error) => Err(error),
                            Ok(expected) => Ok(
                                with_rule(
                                    rules,
                                    RuleView { prefix: columns[0], expected, source: columns[2] },
                                ),
                            ),
                        }
                    }
                }
            },
        }
    }
}

proof fn lemma_manifest_err(lines: Seq<Seq<char>>, manifest: Seq<char>, k: nat, n: nat)
    requires
        k <= n,
        manifest_rules(lines, manifest, k) is Err,
    ensures
        manifest_rules(lines, manifest, n) == manifest_rules(lines, manifest, k),
    decreases n,
{
    if k < n {
        lemma_manifest_err(lines, manifest, k, (n - 1) as nat);
    }
}

/// Everything from the slot on has a shorter prefix, and what stands before it does not.
pub proof fn lemma_rule_slot(rules: Seq<RuleView>, rule: RuleView, n: nat)
    requires
        n <= rules.len(),
    ensures
        slot(rules, rule, n) <= n,
        forall|i: int|
            slot(rules, rule, n) <= i < n ==> prefix_bytes(#[trigger] rules[i]) < prefix_bytes(
                rule,
            ),
        slot(rules, rule, n) > 0 ==> prefix_bytes(rules[slot(rules, rule, n) - 1]) >= prefix_bytes(
            rule,
        ),
    decreases n,
{
    if n > 0 && prefix_bytes(rules[n - 1]) < prefix_bytes(rule) {
        lemma_rule_slot(rules, rule, (n - 1) as nat);
    }
}

/// Inserting a rule in its place keeps longer prefixes first.
pub proof fn lemma_with_rule(rules: Seq<RuleView>, rule: RuleView)
    requires
        longest_first(rules),
    ensures
        longest_first(with_rule(rules, rule)),
{
    let at = slot(rules, rule, rules.len()) as int;
    let more = with_rule(rules, rule);
    lemma_rule_slot(rules, rule, rules.len());
    assert forall|i: int, j: int| 0 <= i < j < more.len() implies prefix_bytes(#[trigger] more[i])
        >= prefix_bytes(#[trigger] more[j]) by {
        if j == at {
            if i < at - 1 {
                assert(prefix_bytes(rules[i]) >= prefix_bytes(rules[at - 1]));
            }
        } else if i == at {
            assert(more[j] == rules[j - 1]);
        } else {
            let x = if i < at {
                i
            } else {
                i - 1
            };
            let y = if j < at {
                j
            } else {
                j - 1
            };
            assert(more[i] == rules[x]);
            assert(more[j] == rules[y]);
        }
    }
}

/// Manifests list longer prefixes first.
pub proof fn lemma_manifest_ordered(lines: Seq<Seq<char>>, manifest: Seq<char>, n: nat)
    ensures
        manifest_rules(lines, manifest, n) matches Ok(rules) ==> longest_first(rules),
    decreases n,
{
    if n > 0 {
        lemma_manifest_ordered(lines, manifest, (n - 1) as nat);
        if manifest_rules(lines, manifest, n) is Ok {
            let rules = manifest_rules(lines, manifest, (n - 1) as nat)->Ok_0;
            let line = trimmed(lines[n - 1]);
            if line.len() != 0 && line[0] != '#' {
                let columns = parts(line, '\t');
                let expected = answer_labelled(columns[1])->Ok_0;
                lemma_with_rule(
                    rules,
                    RuleView { prefix: columns[0], expected, source: columns[2] },
                );
            }
        }
    }
}

/// Inserts one rule in its place.
fn insert_rule(rules: &mut Vec<ExpectationRule>, rule: ExpectationRule)
    ensures
        rule_views(final(rules)@) == with_rule(rule_views(old(rules)@), rule.rule()),
{
    let ghost before = rule_views(rules@);
    let ghost view = rule.rule();
    let bytes = byte_len(rule.prefix.as_str());
    let mut at: usize = rules.len();
    while at > 0 && byte_len(rules[at - 1].prefix.as_str()) < bytes
        invariant
            at <= rules@.len(),
            before == rule_views(rules@),
            view == rule.rule(),
            bytes == prefix_bytes(view),
            slot(before, view, before.len()) == slot(before, view, at as nat),
        decreases at,
    {
        proof {
            assert(before[at - 1] == rules@[at - 1].rule());
        }
        at -= 1;
    }
    proof {
        if at > 0 {
            assert(before[at - 1] == rules@[at - 1].rule());
        }
    }
    rules.insert(at, rule);
    proof {
        assert(rule_views(rules@) =~= before.insert(at as int, view));
    }
}

/// Reads the expectation rules of a manifest.
pub fn parse_expectation_rules(content: &str, manifest: &str) -> (result: Result<
    Vec<ExpectationRule>,
    String,
>)
    ensures
        match manifest_rules(line_list(content@), manifest@, line_list(content@).len()) {
            Err(error) => result is Err && result->Err_0@ == error,
            Ok(rules) => result is Ok && rule_views(result->Ok_0@) == rules && longest_first(rules),
        },
{
    let lines = lines_of(content);
    let ghost texts = line_list(content@);
    let mut rules: Vec<ExpectationRule> = Vec::new();
    proof {
        assert(rule_views(rules@) =~= Seq::<RuleView>::empty());
    }
    let mut i: usize = 0;
    while i < lines.len()
        invariant
            0 <= i <= lines@.len(),
            char_lists(lines@) == texts,
            texts == line_list(content@),
            manifest_rules(texts, manifest@, i as nat) == Ok::<Seq<RuleView>, Seq<char>>(
                rule_views(rules@),
            ),
        decreases lines@.len() - i,
    {
        proof {
            assert(texts[i as int] == lines@[i as int]@);
        }
        let line = trim_chars(lines[i].as_slice());
        if line.len() == 0 || line[0] == '#' {
            i += 1;
            continue;
        }
        let columns = split_chars(line.as_slice(), '\t');
        let ghost cols = parts(line@, '\t');
        proof {
            assert(columns@.len() == cols.len());
        }
        if columns.len() != 3 {
            let row = decimal(i as u64 + 1);
            let start = joined3("bad manifest row ", row.as_str(), " in ");
            let error = joined3(
                start.as_str(),
                manifest,
                ": expected 3 tab-separated columns",
            );
            proof {
                lemma_manifest_err(texts, manifest@, (i + 1) as nat, texts.len());
            }
            return Err(error);
        }
        proof {
            assert(cols[0] == columns@[0]@);
            assert(cols[1] == columns@[1]@);
            assert(cols[2] == columns@[2]@);
        }
        let label = text_of(columns[1].as_slice());
        let expected = match QueryAnswer::parse(label.as_str()) {
            Err(error) => {
                proof {
                    lemma_manifest_err(texts, manifest@, (i + 1) as nat, texts.len());
                }
                return Err(error);
            },
            Ok(expected) => expected,
        };
        let rule = ExpectationRule {
            prefix: text_of(columns[0].as_slice()),
            expected,
            source: text_of(columns[2].as_slice()),
        };
        insert_rule(&mut rules, rule);
        i += 1;
    }
    proof {
        lemma_manifest_ordered(texts, manifest@, texts.len());
    }
    Ok(rules)
}

/// The first of the first `n` rules from `i` on whose prefix the path starts with.
pub open spec fn first_match(path: Seq<char>, rules: Seq<RuleView>, i: nat) -> Option<int>
    decreases rules.len() - i,
{
    if i >= rules.len() {
        None
    } else if begins(path, rules[i as int].prefix) {
        Some(i as int)
    } else {
        first_match(path, rules, i + 1)
    }
}

/// Looks up the first matching expectation rule for one discovered path.
pub fn lookup_expectation(display_path: &str, rules: &Vec<ExpectationRule>) -> (found: Option<usize>)
    ensures
        match found {
            Some(i) => first_match(display_path@, rule_views(rules@), 0) == Some(i as int) && i
                < rules@.len(),
            None => first_match(display_path@, rule_views(rules@), 0) is None,
        },
{
    let ghost views = rule_views(rules@);
    let mut i: usize = 0;
    while i < rules.len()
        invariant
            0 <= i <= rules@.len(),
            views == rule_views(rules@),
            first_match(display_path@, views, 0) == first_match(display_path@, views, i as nat),
        decreases rules@.len() - i,
    {
        proof {
            assert(views[i as int] == rules@[i as int].rule());
        }
        if starts_with(display_path, rules[i].prefix.as_str()) {
            return Some(i);
        }
        i += 1;
    }
    None
}

/// Among rules with longer prefixes first, the first match has the longest matching prefix.
pub proof fn lemma_longest_match(path: Seq<char>, rules: Seq<RuleView>, i: nat, k: int)
    requires
        longest_first(rules),
        first_match(path, rules, i) == Some(k),
    ensures
        i <= k < rules.len(),
        begins(path, rules[k].prefix),
        forall|j: int|
            i <= j < rules.len() && begins(path, (#[trigger] rules[j]).prefix) ==> prefix_bytes(
                rules[j],
            ) <= prefix_bytes(rules[k]),
    decreases rules.len() - i,
{
    if !begins(path, rules[i as int].prefix) {
        lemma_longest_match(path, rules, i + 1, k);
    }
}

/// The expected answers once a default answer has filled the gaps.
pub open spec fn merged_answers(answers: Seq<QueryAnswer>, default: Option<QueryAnswer>) -> Seq<
    QueryAnswer,
> {
    match default {
        None => answers,
        Some(expected) => if answers.len() == 0 {
            seq![expected]
        } else {
            answers.map_values(
                |a: QueryAnswer|
                    if a == QueryAnswer::Unknown {
                        expected
                    } else {
                        a
                    },
            )
        },
    }
}

/// Lets a default answer fill the gaps among the expected results of a trace.
pub fn merge_expectations(
    queries: Vec<ExpectedQueryResult>,
    default_expected: Option<QueryAnswer>,
) -> (merged: Vec<ExpectedQueryResult>)
    requires
        numbered(queries@),
    ensures
        numbered(merged@),
        answers_of(merged@) == merged_answers(answers_of(queries@), default_expected),
{
    let expected = match default_expected {
        None => return queries,
        Some(expected) => expected,
    };
    let mut merged: Vec<ExpectedQueryResult> = Vec::new();
    if queries.len() == 0 {
        merged.push(ExpectedQueryResult { query_index: 0, expected });
        proof {
            assert(answers_of(merged@) =~= seq![expected]);
        }
        return merged;
    }
    let ghost goal = merged_answers(answers_of(queries@), default_expected);
    let mut i: usize = 0;
    while i < queries.len()
        invariant
            0 <= i <= queries@.len(),
            queries@.len() > 0,
            numbered(queries@),
            default_expected == Some(expected),
            goal == merged_answers(answers_of(queries@), default_expected),
            merged@.len() == i,
            numbered(merged@),
            forall|j: int| 0 <= j < i ==> (#[trigger] merged@[j]).expected == goal[j],
        decreases queries@.len() - i,
    {
        let query = queries[i];
        let answer = if query.expected == QueryAnswer::Unknown {
            expected
        } else {
            query.expected
        };
        merged.push(ExpectedQueryResult { query_index: query.query_index, expected: answer });
        i += 1;
    }
    proof {
        assert(answers_of(merged@) =~= goal);
    }
    merged
}

} // verus!
