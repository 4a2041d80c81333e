//! Commands of the incremental solver.

use crate::qfuf::denote::head_of;
use crate::qfuf::sexpr::{
    copy_sexpr, forms, lemma_forms, lemma_list_form, text_copy, Form, SExpr,
};
use crate::text::{joined3, parse_u32, same_text, unsigned_text, unsigned_value};
use vstd::prelude::*;

verus! {

broadcast use {lemma_forms, lemma_list_form};

/// Error raised while reading or executing a command.
#[derive(Debug, PartialEq, Eq)]
pub struct SolverError(String);

impl SolverError {
    /// The message.
    pub closed spec fn text(&self) -> Seq<char> {
        self.0@
    }

    /// Wraps a descriptive failure suitable for callers and logging.
    pub fn new(message: String) -> (error: Self)
        ensures
            error.text() == message@,
    {
        SolverError(message)
    }

    /// Returns the message.
    pub fn message(&self) -> (text: String)
        ensures
            text@ == self.text(),
    {
        text_copy(&self.0)
    }
}

/// A sort as it is written.
#[derive(Debug, PartialEq, Eq)]
pub enum SortExpr {
    /// A sort symbol.
    Simple(String),
    /// Any other sort expression.
    Compound(SExpr),
}

impl SortExpr {
    /// The sort expression.
    pub open spec fn form(self) -> Form {
        match self {
            SortExpr::Simple(name) => Form::Atom(name@),
            SortExpr::Compound(expr) => expr.form(),
        }
    }
}

/// One function definition.
#[derive(Debug, PartialEq, Eq)]
pub struct DefineFun {
    /// Defined name.
    pub name: String,
    /// Parameters.
    pub binders: Vec<SExpr>,
    /// Result sort.
    pub result: SortExpr,
    /// Defining expression.
    pub body: SExpr,
}

/// One command.
#[derive(Debug, PartialEq, Eq)]
pub enum Command {
    /// `(set-logic ...)`
    SetLogic(SExpr),
    /// `(set-info ...)`, which is metadata only.
    SetInfo(SExpr),
    /// `(declare-sort ...)`
    DeclareSort(SExpr),
    /// `(declare-fun ...)` and `(declare-const ...)`
    DeclareFun(SExpr),
    /// `(define-fun name (binders...) sort body)`
    DefineFun(DefineFun),
    /// `(assert expr)`
    Assert(SExpr),
    /// `(push n)`
    Push(u32),
    /// `(pop n)`
    Pop(u32),
    /// `(check-sat)`
    CheckSat,
    /// `(exit)`
    Exit,
}

/// One command as a mathematical value.
pub enum CommandView {
    /// The choice of a logic, with the whole command.
    SetLogic(Form),
    /// Metadata, with the whole command.
    SetInfo(Form),
    /// The declaration of a sort, with the whole command.
    DeclareSort(Form),
    /// The declaration of a function or a constant, with the whole command.
    DeclareFun(Form),
    /// A definition.
    DefineFun {
        /// Defined name.
        name: Seq<char>,
        /// Parameters.
        binders: Seq<Form>,
        /// Result sort.
        result: Form,
        /// Whether the result sort is `Bool`.
        boolean: bool,
        /// Defining expression.
        body: Form,
    },
    /// An assertion.
    Assert(Form),
    /// Opening of scopes.
    Push(u32),
    /// Closing of scopes.
    Pop(u32),
    /// A query.
    CheckSat,
    /// The end.
    Exit,
}

/// The sort is `Bool`.
pub open spec fn bool_sort(sort: SortExpr) -> bool {
    sort matches SortExpr::Simple(name) && name@ == "Bool"@
}

/// Returns whether a parsed sort denotes `Bool`.
pub fn is_bool_sort(sort: &SortExpr) -> (answer: bool)
    ensures
        answer == bool_sort(*sort),
{
    match sort {
        SortExpr::Simple(name) => same_text(name.as_str(), "Bool"),
        SortExpr::Compound(_) => false,
    }
}

impl Command {
    /// The command as a mathematical value.
    pub open spec fn meaning(self) -> CommandView {
        match self {
            Command::SetLogic(expr) => CommandView::SetLogic(expr.form()),
            Command::SetInfo(expr) => CommandView::SetInfo(expr.form()),
            Command::DeclareSort(expr) => CommandView::DeclareSort(expr.form()),
            Command::DeclareFun(expr) => CommandView::DeclareFun(expr.form()),
            Command::DefineFun(define) => CommandView::DefineFun {
                name: define.name@,
                binders: forms(define.binders),
                result: define.result.form(),
                boolean: bool_sort(define.result),
                body: define.body.form(),
            },
            Command::Assert(expr) => CommandView::Assert(expr.form()),
            Command::Push(levels) => CommandView::Push(levels),
            Command::Pop(levels) => CommandView::Pop(levels),
            Command::CheckSat => CommandView::CheckSat,
            Command::Exit => CommandView::Exit,
        }
    }
}

/// The message for a command with the wrong arguments.
pub open spec fn malformed(head: Seq<char>) -> Seq<char> {
    "malformed `"@ + head + "` command"@
}

/// The message for an unknown command.
pub open spec fn unsupported(head: Seq<char>) -> Seq<char> {
    "unsupported command `"@ + head + "`"@
}

/// The number of levels of a `push` or `pop` form.
pub open spec fn levels_of(items: Seq<Form>) -> Option<u32> {
    if items.len() == 1 {
        Some(1u32)
    } else if items.len() == 2 && items[1] is Atom && unsigned_text(items[1]->Atom_0)
        && unsigned_value(items[1]->Atom_0) <= u32::MAX {
        Some(unsigned_value(items[1]->Atom_0) as u32)
    } else {
        None
    }
}

/// The command that a top-level form stands for, or the error message.
pub open spec fn command_of(form: Form) -> Result<CommandView, Seq<char>> {
    match form {
        Form::Atom(_) => Err("command must be a list"@),
        Form::List(items) => match head_of(items) {
            None => Err("command must start with an atom"@),
            Some(head) => if head == "set-logic"@ {
                Ok(CommandView::SetLogic(form))
            } else if head == "set-info"@ || head == "set-option"@ {
                Ok(CommandView::SetInfo(form))
            } else if head == "declare-sort"@ {
                Ok(CommandView::DeclareSort(form))
            } else if head == "declare-fun"@ || head == "declare-const"@ {
                Ok(CommandView::DeclareFun(form))
            } else if head == "define-fun"@ {
                if items.len() == 5 && items[1] is Atom && items[2] is List {
                    Ok(
                        CommandView::DefineFun {
                            name: items[1]->Atom_0,
                            binders: items[2]->List_0,
                            result: items[3],
                            boolean: items[3] == Form::Atom("Bool"@),
                            body: items[4],
                        },
                    )
                } else {
                    Err(malformed(head))
                }
            } else if head == "assert"@ {
                if items.len() == 2 {
                    Ok(CommandView::Assert(items[1]))
                } else {
                    Err(malformed(head))
                }
            } else if head == "push"@ {
                match levels_of(items) {
                    Some(levels) => Ok(CommandView::Push(levels)),
                    None => Err(malformed(head)),
                }
            } else if head == "pop"@ {
                match levels_of(items) {
                    Some(levels) => Ok(CommandView::Pop(levels)),
                    None => Err(malformed(head)),
                }
            } else if head == "check-sat"@ {
                if items.len() == 1 {
                    Ok(CommandView::CheckSat)
                } else {
                    Err(malformed(head))
                }
            } else if head == "exit"@ {
                if items.len() == 1 {
                    Ok(CommandView::Exit)
                } else {
                    Err(malformed(head))
                }
            } else {
                Err(unsupported(head))
            },
        },
    }
}

/// Returns the error for a command with the wrong arguments.
fn malformed_error(head: &str) -> (error: SolverError)
    ensures
        error.text() == malformed(head@),
{
    SolverError::new(joined3("malformed `", head, "` command"))
}

/// Returns copies of expressions.
fn copy_list(list: &Vec<SExpr>) -> (copy: Vec<SExpr>)
    ensures
        copy@.len() == list@.len(),
        forms(copy) == forms(*list),
{
    let mut copy: Vec<SExpr> = Vec::new();
    let mut i: usize = 0;
    while i < list.len()
        invariant
            0 <= i <= list.len(),
            copy@.len() == i,
            forall|j: int| 0 <= j < i ==> (#[trigger] copy@[j]).form() == list@[j].form(),
        decreases list.len() - i,
    {
        copy.push(copy_sexpr(&list[i]));
        i += 1;
    }
    proof {
        assert(forms(copy) =~= forms(*list));
    }
    copy
}

/// Reads the number of levels of a `push` or `pop` form.
fn read_levels(items: &Vec<SExpr>) -> (levels: Option<u32>)
    ensures
        levels == levels_of(forms(*items)),
{
    if items.len() == 1 {
        return Some(1);
    }
    if items.len() != 2 {
        return None;
    }
    match &items[1] {
        SExpr::List(_) => None,
        SExpr::Atom(text) => match parse_u32(text.as_str()) {
            Ok(levels) => Some(levels),
            Err(_) => None,
        },
    }
}

impl Command {
    /// Reads one command from a top-level expression.
    pub fn from_sexpr(expr: &SExpr) -> (result: Result<Command, SolverError>)
        ensures
            match command_of(expr.form()) {
                Ok(view) => result is Ok && (result->Ok_0).meaning() == view,
                Err(error) => result is Err && (result->Err_0).text() == error,
            },
    {
        match expr {
            SExpr::Atom(_) => Err(SolverError::new("command must be a list".to_owned())),
            SExpr::List(items) => {
                let ghost fs = forms(*items);
                if items.len() == 0 {
                    return Err(SolverError::new("command must start with an atom".to_owned()));
                }
                let head = match &items[0] {
                    SExpr::List(_) => {
                        return Err(SolverError::new("command must start with an atom".to_owned()));
                    },
                    SExpr::Atom(head) => head,
                };
                if same_text(head.as_str(), "set-logic") {
                    return Ok(Command::SetLogic(copy_sexpr(expr)));
                }
                if same_text(head.as_str(), "set-info") || same_text(head.as_str(), "set-option") {
                    return Ok(Command::SetInfo(copy_sexpr(expr)));
                }
                if same_text(head.as_str(), "declare-sort") {
                    return Ok(Command::DeclareSort(copy_sexpr(expr)));
                }
                if same_text(head.as_str(), "declare-fun") || same_text(
                    head.as_str(),
                    "declare-const",
                ) {
                    return Ok(Command::DeclareFun(copy_sexpr(expr)));
                }
                if same_text(head.as_str(), "define-fun") {
                    if items.len() != 5 {
                        return Err(malformed_error(head.as_str()));
                    }
                    proof {
                        assert(fs[3] == items@[3].form());
                        assert(fs[4] == items@[4].form());
                    }
                    return match (&items[1], &items[2]) {
                        (SExpr::Atom(name), SExpr::List(binders)) => {
                            let result = match &items[3] {
                                SExpr::Atom(sort) => SortExpr::Simple(text_copy(sort)),
                                SExpr::List(_) => SortExpr::Compound(copy_sexpr(&items[3])),
                            };
                            Ok(
                                Command::DefineFun(
                                    DefineFun {
                                        name: text_copy(name),
                                        binders: copy_list(binders),
                                        result,
                                        body: copy_sexpr(&items[4]),
                                    },
                                ),
                            )
                        },
                        _ => Err(malformed_error(head.as_str())),
                    };
                }
                if same_text(head.as_str(), "assert") {
                    if items.len() != 2 {
                        return Err(malformed_error(head.as_str()));
                    }
                    return Ok(Command::Assert(copy_sexpr(&items[1])));
                }
                if same_text(head.as_str(), "push") {
                    return match read_levels(items) {
                        Some(levels) => Ok(Command::Push(levels)),
                        None => Err(malformed_error(head.as_str())),
                    };
                }
                if same_text(head.as_str(), "pop") {
                    return match read_levels(items) {
                        Some(levels) => Ok(Command::Pop(levels)),
                        None => Err(malformed_error(head.as_str())),
                    };
                }
                if same_text(head.as_str(), "check-sat") {
                    if items.len() != 1 {
                        return Err(malformed_error(head.as_str()));
                    }
                    return Ok(Command::CheckSat);
                }
                if same_text(head.as_str(), "exit") {
                    if items.len() != 1 {
                        return Err(malformed_error(head.as_str()));
                    }
                    return Ok(Command::Exit);
                }
                Err(SolverError::new(joined3("unsupported command `", head.as_str(), "`")))
            },
        }
    }
}

} // verus!
