//! The solver process of one case.

use crate::harness::child::{classify_output, count_mismatch, output_answers};
use crate::harness::model::{ChildReport, Elapsed};
use crate::qfuf::sexpr::token_texts;
use crate::strings::{char_lists, parts, split_chars, trim_text, trimmed};
use crate::text::{chars_of, joined, same_text, text_of};
use vstd::prelude::*;

verus! {

/// The cargo profile to reuse when spawning the solver.
#[derive(Debug, PartialEq, Eq)]
pub enum CargoProfile {
    /// The default development profile stored under `target/debug`.
    Dev,
    /// The built-in optimized profile stored under `target/release`.
    Release,
    /// Any custom named profile, such as `perf`.
    Named(String),
}

/// The name of the directory that a profile is stored in.
pub open spec fn profile_directory(profile: CargoProfile) -> Seq<char> {
    match profile {
        CargoProfile::Dev => "debug"@,
        CargoProfile::Release => "release"@,
        CargoProfile::Named(name) => name@,
    }
}

/// The components of a path, among its first `n` parts: empty parts and single dots do not count.
pub open spec fn components_to(list: Seq<Seq<char>>, n: nat) -> Seq<Seq<char>>
    decreases n,
{
    if n == 0 {
        Seq::empty()
    } else {
        let before = components_to(list, (n - 1) as nat);
        if list[n - 1].len() == 0 || list[n - 1] == "."@ {
            before
        } else {
            before.push(list[n - 1])
        }
    }
}

/// The components of a path.
pub open spec fn components(path: Seq<char>) -> Seq<Seq<char>> {
    components_to(parts(path, '/'), parts(path, '/').len())
}

/// The directory of the profile that an executable was built with: the executable's own directory,
/// or the one above where that is called `deps`.
pub open spec fn profile_path(path: Seq<char>) -> Seq<Seq<char>> {
    let all = components(path);
    let directory = if all.len() == 0 {
        all
    } else {
        all.drop_last()
    };
    if directory.len() > 0 && directory.last() == "deps"@ {
        directory.drop_last()
    } else {
        directory
    }
}

/// The name of the profile directory, where it lies directly under `target`.
pub open spec fn profile_name(path: Seq<char>) -> Option<Seq<char>> {
    let directory = profile_path(path);
    let n = directory.len();
    if n >= 2 && directory[n - 2] == "target"@ && directory[n - 1] != ".."@ {
        Some(directory[n - 1])
    } else {
        None
    }
}

/// Returns the components of a path.
fn path_components(path: &str) -> (list: Vec<String>)
    ensures
        token_texts(list@) == components(path@),
{
    let chars = chars_of(path);
    let pieces = split_chars(chars.as_slice(), '/');
    let ghost texts = parts(path@, '/');
    let mut list: Vec<String> = Vec::new();
    proof {
        assert(char_lists(pieces@).len() == pieces@.len());
        assert(token_texts(list@) =~= Seq::<Seq<char>>::empty());
    }
    let mut i: usize = 0;
    while i < pieces.len()
        invariant
            0 <= i <= pieces@.len(),
            texts == char_lists(pieces@),
            token_texts(list@) == components_to(texts, i as nat),
        decreases pieces@.len() - i,
    {
        proof {
            assert(texts[i as int] == pieces@[i as int]@);
        }
        let piece = text_of(pieces[i].as_slice());
        if pieces[i].len() > 0 && !same_text(piece.as_str(), ".") {
            let ghost before = token_texts(list@);
            list.push(piece);
            proof {
                assert(token_texts(list@) =~= before.push(piece@));
            }
        }
        i += 1;
    }
    list
}

/// Infers the cargo profile from an executable's location under `target/`.
pub fn infer_cargo_profile(current_exe: &str) -> (profile: Option<CargoProfile>)
    ensures
        match profile_name(current_exe@) {
            None => profile is None,
            Some(name) => {
                &&& profile is Some
                &&& profile_directory(profile->0) == name
                &&& profile->0 is Named ==> name != "debug"@ && name != "release"@
            },
        },
{
    let list = path_components(current_exe);
    let ghost texts = components(current_exe@);
    proof {
        assert(texts.len() == list@.len());
        assert forall|i: int| 0 <= i < list@.len() implies texts[i] == (#[trigger] list@[i])@ by {}
    }
    if list.len() == 0 {
        return None;
    }
    let mut n: usize = list.len() - 1;
    if n > 0 && same_text(list[n - 1].as_str(), "deps") {
        n = n - 1;
    }
    proof {
        assert(profile_path(current_exe@) =~= texts.take(n as int));
    }
    if n < 2 || !same_text(list[n - 2].as_str(), "target") {
        return None;
    }
    let name = list[n - 1].as_str();
    if same_text(name, "..") {
        None
    } else if same_text(name, "debug") {
        Some(CargoProfile::Dev)
    } else if same_text(name, "release") {
        Some(CargoProfile::Release)
    } else {
        Some(CargoProfile::Named(name.to_owned()))
    }
}

/// The arguments that select a profile.
pub open spec fn profile_arguments(name: Option<Seq<char>>) -> Seq<Seq<char>> {
    match name {
        None => Seq::empty(),
        Some(name) => if name == "debug"@ {
            Seq::empty()
        } else if name == "release"@ {
            seq!["--release"@]
        } else {
            seq!["--profile"@, name]
        },
    }
}

/// The arguments of the cargo command that compiles and runs the solver.
pub open spec fn solver_arguments(current_exe: Seq<char>, manifest: Seq<char>) -> Seq<Seq<char>> {
    seq!["run"@, "--quiet"@] + profile_arguments(profile_name(current_exe)) + seq![
        "--manifest-path"@,
        manifest,
        "--bin"@,
        "qfuf"@,
    ]
}

/// Adds one argument.
fn push_argument(arguments: &mut Vec<String>, argument: &str)
    ensures
        token_texts(final(arguments)@) == token_texts(old(arguments)@).push(argument@),
{
    let ghost before = token_texts(arguments@);
    arguments.push(argument.to_owned());
    proof {
        assert(token_texts(arguments@) =~= before.push(argument@));
    }
}

/// Builds the arguments of the cargo command that compiles and runs the solver of a manifest with the
/// profile of the current executable.
pub fn qfuf_command(current_exe: &str, manifest: &str) -> (arguments: Vec<String>)
    ensures
        token_texts(arguments@) == solver_arguments(current_exe@, manifest@),
{
    let mut arguments: Vec<String> = Vec::new();
    proof {
        assert(token_texts(arguments@) =~= Seq::<Seq<char>>::empty());
        reveal_strlit("debug");
        reveal_strlit("release");
        assert("debug"@.len() == 5);
        assert("release"@.len() == 7);
    }
    push_argument(&mut arguments, "run");
    push_argument(&mut arguments, "--quiet");
    match infer_cargo_profile(current_exe) {
        Some(CargoProfile::Release) => push_argument(&mut arguments, "--release"),
        Some(CargoProfile::Named(profile)) => {
            push_argument(&mut arguments, "--profile");
            push_argument(&mut arguments, profile.as_str());
        },
        Some(CargoProfile::Dev) => {},
        None => {},
    }
    push_argument(&mut arguments, "--manifest-path");
    push_argument(&mut arguments, manifest);
    push_argument(&mut arguments, "--bin");
    push_argument(&mut arguments, "qfuf");
    proof {
        assert(token_texts(arguments@) =~= solver_arguments(current_exe@, manifest@));
    }
    arguments
}

/// What a finished solver process left.
pub struct ProcessOutput {
    /// The process reported success.
    pub success: bool,
    /// The text of its exit status.
    pub status: String,
    /// What it wrote to its error stream.
    pub stderr: String,
    /// What it wrote to its output stream, or the message that this is no text.
    pub stdout: Result<String, String>,
}

/// The detail of a solver process that failed.
pub open spec fn failure_detail(status: Seq<char>, stderr: Seq<char>) -> Seq<char> {
    if trimmed(stderr).len() == 0 {
        "qfuf exited with "@ + status
    } else {
        trimmed(stderr)
    }
}

/// Builds the report on a finished solver process.
pub fn classify_process(output: ProcessOutput, expected_queries: usize, elapsed: Elapsed) -> (result:
    Result<ChildReport, String>)
    ensures
        if !output.success {
            &&& result is Ok
            &&& result->Ok_0 is ParseError
            &&& result->Ok_0->ParseError_0@ == failure_detail(output.status@, output.stderr@)
        } else {
            match output.stdout {
                Err(error) => result is Err && result->Err_0@ == "qfuf wrote non-utf8 stdout: "@
                    + error@,
                Ok(stdout) => match output_answers(stdout@) {
                    Err(error) => result is Err && result->Err_0@ == error,
                    Ok(answers) => {
                        &&& result is Ok
                        &&& if answers.len() == expected_queries {
                            &&& result->Ok_0 is Completed
                            &&& (result->Ok_0->Completed_0).actual_answers@ == answers
                            &&& (result->Ok_0->Completed_0).solver_elapsed == elapsed
                        } else {
                            &&& result->Ok_0 is ProtocolError
                            &&& result->Ok_0->ProtocolError_0@ == count_mismatch(
                                expected_queries as nat,
                                answers.len(),
                            )
                        }
                    },
                },
            }
        },
{
    if !output.success {
        let detail = trim_text(output.stderr.as_str());
        if detail.as_str().unicode_len() == 0 {
            return Ok(
                ChildReport::ParseError(joined("qfuf exited with ", output.status.as_str())),
            );
        }
        return Ok(ChildReport::ParseError(detail));
    }
    match output.stdout {
        Err(error) => Err(joined("qfuf wrote non-utf8 stdout: ", error.as_str())),
        Ok(stdout) => classify_output(stdout.as_str(), expected_queries, elapsed),
    }
}

} // verus!
