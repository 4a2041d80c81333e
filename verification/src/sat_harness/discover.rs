//! Trace metadata read from parsed expressions.

use crate::harness::discover::{answers_of, numbered, MetadataView, TraceMetadata};
use crate::harness::model::{answer_labelled, ExpectedQueryResult, QueryAnswer};
use crate::qfuf::sexpr::{
    depth, flat_all, forms, lemma_forms, lemma_list_form, lemma_stray_close, overclosed, parse_many,
    proper_all, text_copy, token_texts, tokenize, tokens_of, unclosed, Form, SExpr,
};
use crate::text::same_text;
use vstd::prelude::*;

verus! {

/// What is known of a trace after some of its commands, with the status announced for the next query.
pub struct TraceState {
    /// What is known so far.
    pub metadata: MetadataView,
    /// Status announced for the next query.
    pub pending: Option<QueryAnswer>,
}

/// The state before the first command.
pub open spec fn fresh_trace() -> TraceState {
    TraceState {
        metadata: MetadataView { logic: None, expected: Seq::empty() },
        pending: None,
    }
}

/// The head of a command.
pub open spec fn head_of(form: Form) -> Option<Seq<char>> {
    match form {
        Form::List(items) => if items.len() > 0 && items[0] is Atom {
            Some(items[0]->Atom_0)
        } else {
            None
        },
        Form::Atom(_) => None,
    }
}

/// The state after one more expression.
pub open spec fn after_form(state: TraceState, form: Form) -> Result<TraceState, Seq<char>> {
    match head_of(form) {
        None => Ok(state),
        Some(head) => {
            let items = form->List_0;
            if head == "set-logic"@ {
                if items.len() == 2 && items[1] is Atom {
                    Ok(
                        TraceState {
                            metadata: MetadataView {
                                logic: Some(items[1]->Atom_0),
                                ..state.metadata
                            },
                            ..state
                        },
                    )
                } else {
                    Ok(state)
                }
            } else if head == "set-info"@ {
                if items.len() == 3 && items[1] is Atom && items[2] is Atom && items[1]->Atom_0
                    == ":status"@ {
                    match answer_labelled(items[2]->Atom_0) {
                        Err(error) => Err(error),
                        Ok(answer) => Ok(TraceState { pending: Some(answer), ..state }),
                    }
                } else {
                    Ok(state)
                }
            } else if head == "check-sat"@ {
                let answer = match state.pending {
                    Some(answer) => answer,
                    None => QueryAnswer::Unknown,
                };
                Ok(
                    TraceState {
                        metadata: MetadataView {
                            expected: state.metadata.expected.push(answer),
                            ..state.metadata
                        },
                        pending: None,
                    },
                )
            } else {
                Ok(state)
            }
        },
    }
}

/// The state after the first `n` expressions, or the first error message.
pub open spec fn after_forms(items: Seq<Form>, n: nat) -> Result<TraceState, Seq<char>>
    decreases n,
{
    if n == 0 {
        Ok(fresh_trace())
    } else {
        match after_forms(items, (n - 1) as nat) {
            Err(error) => Err(error),
            Ok(state) => after_form(state, items[n - 1]),
        }
    }
}

/// The result says what the expressions of the trace say.
pub open spec fn read_from(
    tokens: Seq<Seq<char>>,
    result: Result<TraceMetadata, String>,
) -> bool {
    exists|items: Seq<Form>| #[trigger]
        flat_all(items) == tokens && proper_all(items) && match after_forms(items, items.len()) {
            Err(error) => result is Err && result->Err_0@ == error,
            Ok(state) => result is Ok && (result->Ok_0).metadata() == state.metadata && numbered(
                (result->Ok_0).expected_queries@,
            ),
        }
}

/// The result of reading the metadata of a trace.
pub open spec fn trace_read(input: Seq<char>, result: Result<TraceMetadata, String>) -> bool {
    let tokens = tokens_of(input);
    if overclosed(tokens) {
        result is Err && result->Err_0@ == "trailing tokens after trace parse"@
    } else if unclosed(tokens, 0) {
        result is Err && result->Err_0@ == "missing closing `)`"@
    } else {
        read_from(tokens, result)
    }
}

proof fn lemma_after_err(items: Seq<Form>, k: nat, n: nat)
    requires
        k <= n,
        after_forms(items, k) is Err,
    ensures
        after_forms(items, n) == after_forms(items, k),
    decreases n,
{
    if k < n {
        lemma_after_err(items, k, (n - 1) as nat);
    }
}

/// Applies one expression to the running metadata state.
fn apply_form(
    expr: &SExpr,
    metadata: &mut TraceMetadata,
    pending_status: &mut Option<QueryAnswer>,
) -> (result: Result<(), String>)
    requires
        numbered(old(metadata).expected_queries@),
    ensures
        numbered(final(metadata).expected_queries@),
        match after_form(
            (TraceState { metadata: old(metadata).metadata(), pending: *old(pending_status) }),
            expr.form(),
        ) {
            Err(error) => result is Err && result->Err_0@ == error,
            Ok(state) => result is Ok && final(metadata).metadata() == state.metadata && *final(pending_status) == state.pending,
        },
{
    let items = match expr {
        SExpr::Atom(_) => return Ok(()),
        SExpr::List(items) => items,
    };
    proof {
        lemma_list_form(*items);
        lemma_forms(*items);
    }
    if items.len() == 0 {
        return Ok(());
    }
    let head = match &items[0] {
        SExpr::List(_) => return Ok(()),
        SExpr::Atom(head) => head,
    };
    if same_text(head.as_str(), "set-logic") {
        if items.len() == 2 {
            if let SExpr::Atom(logic) = &items[1] {
                metadata.logic = Some(text_copy(logic));
            }
        }
        return Ok(());
    }
    if same_text(head.as_str(), "set-info") {
        if items.len() == 3 {
            if let SExpr::Atom(keyword) = &items[1] {
                if let SExpr::Atom(value) = &items[2] {
                    if same_text(keyword.as_str(), ":status") {
                        match QueryAnswer::parse(value.as_str()) {
                            Err(error) => return Err(error),
                            Ok(answer) => {
                                *pending_status = Some(answer);
                            },
                        }
                    }
                }
            }
        }
        return Ok(());
    }
    if same_text(head.as_str(), "check-sat") {
        let expected = match *pending_status {
            Some(answer) => answer,
            None => QueryAnswer::Unknown,
        };
        *pending_status = None;
        let query_index = metadata.expected_queries.len();
        let ghost before = metadata.expected_queries@;
        metadata.expected_queries.push(ExpectedQueryResult { query_index, expected });
        proof {
            assert(answers_of(metadata.expected_queries@) =~= answers_of(before).push(expected));
        }
    }
    Ok(())
}

/// Extracts the logic and expected query answers from one SMT-LIB trace.
pub fn parse_trace_metadata(input: &str) -> (result: Result<TraceMetadata, String>)
    ensures
        trace_read(input@, result),
{
    let tokens = tokenize(input);
    let ghost texts = token_texts(tokens@);
    let (exprs, next) = match parse_many(&tokens, 0) {
        Err(error) => {
            return Err(error);
        },
        Ok(parsed) => parsed,
    };
    let ghost items = forms(exprs);
    if next != tokens.len() {
        proof {
            lemma_stray_close(texts, next as int);
        }
        return Err("trailing tokens after trace parse".to_owned());
    }
    proof {
        assert(texts.subrange(0, texts.len() as int) =~= texts);
        lemma_forms(exprs);
        assert(depth(texts, 0, texts.len() as int) == 0);
        assert forall|end: int| 0 <= end <= texts.len() implies #[trigger] depth(texts, 0, end)
            >= 0 by {}
    }
    let mut metadata = TraceMetadata::empty();
    let mut pending_status: Option<QueryAnswer> = None;
    let mut i: usize = 0;
    while i < exprs.len()
        invariant
            0 <= i <= exprs.len(),
            texts == tokens_of(input@),
            items == forms(exprs),
            items.len() == exprs.len(),
            forall|j: int| 0 <= j < items.len() ==> #[trigger] items[j] == exprs[j].form(),
            flat_all(items) == texts,
            proper_all(items),
            !overclosed(texts),
            !unclosed(texts, 0),
            numbered(metadata.expected_queries@),
            after_forms(items, i as nat) == Ok::<TraceState, Seq<char>>(
                TraceState { metadata: metadata.metadata(), pending: pending_status },
            ),
        decreases exprs.len() - i,
    {
        match apply_form(&exprs[i], &mut metadata, &mut pending_status) {
            Err(error) => {
                proof {
                    lemma_after_err(items, (i + 1) as nat, items.len());
                    assert(flat_all(items) == texts);
                }
                return Err(error);
            },
            Ok(_) => {},
        }
        i += 1;
    }
    proof {
        assert(flat_all(items) == texts);
    }
    Ok(metadata)
}

/// Counts `check-sat` queries in one SMT-LIB trace.
pub fn query_count(input: &str) -> (result: Result<usize, String>)
    ensures
        exists|metadata: Result<TraceMetadata, String>| #[trigger]
            trace_read(input@, metadata) && match metadata {
                Err(error) => result is Err && result->Err_0@ == error@,
                Ok(metadata) => result is Ok && result->Ok_0 == metadata.expected_queries@.len(),
            },
{
    let metadata = parse_trace_metadata(input);
    match metadata {
        Err(error) => Err(error),
        Ok(metadata) => Ok(metadata.expected_queries.len()),
    }
}

} // verus!
