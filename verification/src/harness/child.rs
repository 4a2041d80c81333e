//! Reports on the solver's answers to one case.

use crate::harness::discover::{query_count, trace_metadata};
use crate::harness::model::{
    answer_labelled, ChildReport, CompletedQueryRun, Elapsed, QueryAnswer,
};
use crate::qfuf::script::plain_answers;
use crate::strings::{
    char_lists, lemma_lines_read_back, line_list, lines_of, lines_text, plain_lines, trim_chars,
    trimmed,
};
use crate::text::{decimal, decimal_text, joined3, text_of, white_space};
use vstd::prelude::*;

verus! {

/// The answers in the first `n` lines of the solver's output, blank lines aside, or the first error
/// message.
pub open spec fn answers_in(lines: Seq<Seq<char>>, n: nat) -> Result<Seq<QueryAnswer>, Seq<char>>
    decreases n,
{
    if n == 0 {
        Ok(Seq::empty())
    } else {
        match answers_in(lines, (n - 1) as nat) {
            Err(error) => Err(error),
            Ok(answers) => {
                let line = trimmed(lines[n - 1]);
                if line.len() == 0 {
                    Ok(answers)
                } else {
                    match answer_labelled(line) {
                        Err(error) => Err(error),
                        Ok(answer) => Ok(answers.push(answer)),
                    }
                }
            },
        }
    }
}

/// The answers in the solver's output, or the first error message.
pub open spec fn output_answers(output: Seq<char>) -> Result<Seq<QueryAnswer>, Seq<char>> {
    answers_in(line_list(output), line_list(output).len())
}

proof fn lemma_answers_err(lines: Seq<Seq<char>>, k: nat, n: nat)
    requires
        k <= n,
        answers_in(lines, k) is Err,
    ensures
        answers_in(lines, n) == answers_in(lines, k),
    decreases n,
{
    if k < n {
        lemma_answers_err(lines, k, (n - 1) as nat);
    }
}

/// Parses the solver's output lines, skipping blank ones.
pub fn parse_answers(output: &str) -> (result: Result<Vec<QueryAnswer>, String>)
    ensures
        match output_answers(output@) {
            Err(error) => result is Err && result->Err_0@ == error,
            Ok(answers) => result is Ok && result->Ok_0@ == answers,
        },
{
    let lines = lines_of(output);
    let ghost texts = line_list(output@);
    let mut answers: Vec<QueryAnswer> = Vec::new();
    let mut i: usize = 0;
    while i < lines.len()
        invariant
            0 <= i <= lines@.len(),
            char_lists(lines@) == texts,
            texts == line_list(output@),
            answers_in(texts, i as nat) == Ok::<Seq<QueryAnswer>, Seq<char>>(answers@),
        decreases lines@.len() - i,
    {
        proof {
            assert(texts[i as int] == lines@[i as int]@);
        }
        let line = trim_chars(lines[i].as_slice());
        if line.len() > 0 {
            let label = text_of(line.as_slice());
            match QueryAnswer::parse(label.as_str()) {
                Err(error) => {
                    proof {
                        lemma_answers_err(texts, (i + 1) as nat, texts.len());
                    }
                    return Err(error);
                },
                Ok(answer) => {
                    answers.push(answer);
                },
            }
        }
        i += 1;
    }
    Ok(answers)
}

/// The message for a wrong number of answers.
pub open spec fn count_mismatch(expected: nat, found: nat) -> Seq<char> {
    "expected "@ + decimal_text(expected) + " query answers from qfuf, got "@ + decimal_text(found)
}

/// Parses solver output lines and validates the answer count.
pub fn classify_output(output: &str, expected_queries: usize, solver_elapsed: Elapsed) -> (result:
    Result<ChildReport, String>)
    ensures
        match output_answers(output@) {
            Err(error) => result is Err && result->Err_0@ == error,
            Ok(answers) => {
                &&& result is Ok
                &&& if answers.len() == expected_queries {
                    &&& result->Ok_0 is Completed
                    &&& (result->Ok_0->Completed_0).actual_answers@ == answers
                    &&& (result->Ok_0->Completed_0).solver_elapsed == solver_elapsed
                } else {
                    &&& result->Ok_0 is ProtocolError
                    &&& result->Ok_0->ProtocolError_0@ == count_mismatch(
                        expected_queries as nat,
                        answers.len(),
                    )
                }
            },
        },
{
    let actual_answers = match parse_answers(output) {
        Err(error) => return Err(error),
        Ok(answers) => answers,
    };
    if actual_answers.len() != expected_queries {
        let expected = decimal(expected_queries as u64);
        let start = joined3("expected ", expected.as_str(), " query answers from qfuf, got ");
        let found = decimal(actual_answers.len() as u64);
        let mut detail = start;
        detail.append(found.as_str());
        return Ok(ChildReport::ProtocolError(detail));
    }
    Ok(ChildReport::Completed(CompletedQueryRun { actual_answers, solver_elapsed }))
}

/// Returns the number of answers that a case asks for: the number handed over by the parent, or else
/// the number of queries in the trace.
pub fn expected_count(input: &str, announced: Option<usize>) -> (result: Result<usize, String>)
    ensures
        match announced {
            Some(count) => result == Ok::<usize, String>(count),
            None => match trace_metadata(input@) {
                Err(error) => result is Err && result->Err_0@ == error,
                Ok(metadata) => result is Ok && result->Ok_0 == metadata.expected.len(),
            },
        },
{
    match announced {
        Some(count) => Ok(count),
        None => query_count(input),
    }
}

/// Builds the report on one case from what the solver returned.
pub fn solved_report(
    output: Result<String, String>,
    expected_queries: usize,
    solver_elapsed: Elapsed,
) -> (result: Result<ChildReport, String>)
    ensures
        match output {
            Err(error) => result == Ok::<ChildReport, String>(ChildReport::ParseError(error)),
            Ok(output) => match output_answers(output@) {
                Err(error) => result is Err && result->Err_0@ == error,
                Ok(answers) => {
                    &&& result is Ok
                    &&& if answers.len() == expected_queries {
                        &&& result->Ok_0 is Completed
                        &&& (result->Ok_0->Completed_0).actual_answers@ == answers
                        &&& (result->Ok_0->Completed_0).solver_elapsed == solver_elapsed
                    } else {
                        &&& result->Ok_0 is ProtocolError
                        &&& result->Ok_0->ProtocolError_0@ == count_mismatch(
                            expected_queries as nat,
                            answers.len(),
                        )
                    }
                },
            },
        },
{
    match output {
        Err(error) => Ok(ChildReport::ParseError(error)),
        Ok(output) => classify_output(output.as_str(), expected_queries, solver_elapsed),
    }
}

proof fn lemma_plain_word(word: Seq<char>)
    requires
        word == "sat"@ || word == "unsat"@,
    ensures
        trimmed(word) == word,
        word.len() > 0,
        !word.contains('\n'),
        word.last() != '\r',
        answer_labelled(word) == Ok::<QueryAnswer, Seq<char>>(
            if word == "sat"@ {
                QueryAnswer::Sat
            } else {
                QueryAnswer::Unsat
            },
        ),
{
    reveal_strlit("sat");
    reveal_strlit("unsat");
    assert("sat"@ =~= seq!['s', 'a', 't']);
    assert("unsat"@ =~= seq!['u', 'n', 's', 'a', 't']);
    assert(!white_space('s') && !white_space('t') && !white_space('u'));
}

proof fn lemma_answers_read(given: Seq<Seq<char>>, n: nat)
    requires
        plain_answers(given),
        n <= given.len(),
    ensures
        answers_in(given, n) is Ok,
        (answers_in(given, n)->Ok_0).len() == n,
        forall|i: int|
            0 <= i < n ==> Ok::<QueryAnswer, Seq<char>>(
                #[trigger] (answers_in(given, n)->Ok_0)[i],
            ) == answer_labelled(given[i]),
    decreases n,
{
    if n > 0 {
        lemma_answers_read(given, (n - 1) as nat);
        lemma_plain_word(given[n - 1]);
    }
}

/// What the solver prints, one answer on each line, is read back as these answers.
pub proof fn lemma_answers_read_back(given: Seq<Seq<char>>)
    requires
        plain_answers(given),
    ensures
        output_answers(lines_text(given)) is Ok,
        (output_answers(lines_text(given))->Ok_0).len() == given.len(),
        forall|i: int|
            0 <= i < given.len() ==> Ok::<QueryAnswer, Seq<char>>(
                #[trigger] (output_answers(lines_text(given))->Ok_0)[i],
            ) == answer_labelled(given[i]),
{
    assert(plain_lines(given)) by {
        assert forall|i: int| 0 <= i < given.len() implies !(#[trigger] given[i]).contains('\n')
            && !(given[i].len() > 0 && given[i].last() == '\r') by {
            lemma_plain_word(given[i]);
        }
    }
    lemma_lines_read_back(given);
    lemma_answers_read(given, given.len());
}

} // verus!
