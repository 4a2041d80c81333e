//! SMT-LIB command parser.

use crate::qfuf::sexpr::{
    copy_sexpr, depth, flat_all, forms, lemma_forms, lemma_list_form, overclosed, parse_many,
    proper_all, text_copy, token_texts, tokenize, tokens_of, unclosed, Form, SExpr,
};
use crate::text::{
    joined, parse_u32, parse_u32_error, same_text, unsigned_text, unsigned_value,
};
use vstd::prelude::*;

verus! {

/// One supported SMT-LIB command.
#[derive(Debug, PartialEq, Eq)]
pub enum Command {
    /// `(set-logic ...)`
    SetLogic(String),
    /// `(set-info ...)`
    SetInfo,
    /// `(declare-sort name 0)`
    DeclareSort {
        /// Declared sort name.
        name: String,
    },
    /// `(declare-fun name (args...) result)`
    DeclareFun {
        /// Declared function name.
        name: String,
        /// Declared argument sort names.
        args: Vec<String>,
        /// Declared result sort name.
        result: String,
    },
    /// `(declare-const name sort)`
    DeclareConst {
        /// Declared constant name.
        name: String,
        /// Declared constant sort name.
        sort: String,
    },
    /// `(assert expr)`
    Assert(SExpr),
    /// `(push 1)`
    Push(u32),
    /// `(pop 1)`
    Pop(u32),
    /// `(check-sat)`
    CheckSat,
    /// `(exit)`
    Exit,
}

/// One command as a mathematical value.
pub enum CommandView {
    /// `(set-logic ...)`
    SetLogic(Seq<char>),
    /// `(set-info ...)`
    SetInfo,
    /// `(declare-sort name 0)`
    DeclareSort {
        /// Declared sort name.
        name: Seq<char>,
    },
    /// `(declare-fun name (args...) result)`, and `(declare-const name result)` with no arguments
    DeclareFun {
        /// Declared function name.
        name: Seq<char>,
        /// Declared argument sort names.
        args: Seq<Seq<char>>,
        /// Declared result sort name.
        result: Seq<char>,
    },
    /// `(assert expr)`
    Assert(Form),
    /// `(push 1)`
    Push(u32),
    /// `(pop 1)`
    Pop(u32),
    /// `(check-sat)`
    CheckSat,
    /// `(exit)`
    Exit,
}

impl Command {
    /// The command as a mathematical value.
    pub open spec fn meaning(self) -> CommandView {
        match self {
            Command::SetLogic(logic) => CommandView::SetLogic(logic@),
            Command::SetInfo => CommandView::SetInfo,
            Command::DeclareSort { name } => CommandView::DeclareSort { name: name@ },
            Command::DeclareFun { name, args, result } => CommandView::DeclareFun {
                name: name@,
                args: token_texts(args@),
                result: result@,
            },
            Command::DeclareConst { name, sort } => CommandView::DeclareFun {
                name: name@,
                args: Seq::empty(),
                result: sort@,
            },
            Command::Assert(expr) => CommandView::Assert(expr.form()),
            Command::Push(levels) => CommandView::Push(levels),
            Command::Pop(levels) => CommandView::Pop(levels),
            Command::CheckSat => CommandView::CheckSat,
            Command::Exit => CommandView::Exit,
        }
    }
}

/// The atom's text, of an atom.
pub open spec fn atom_text(form: Form) -> Seq<char> {
    form->Atom_0
}

/// The level number of a `push` or `pop` form.
pub open spec fn levels_of(items: Seq<Form>, malformed: Seq<char>, invalid: Seq<char>) -> Result<
    u32,
    Seq<char>,
> {
    if items.len() != 2 || items[1] !is Atom {
        Err(malformed)
    } else if unsigned_text(atom_text(items[1])) && unsigned_value(atom_text(items[1])) <= u32::MAX {
        Ok(unsigned_value(atom_text(items[1])) as u32)
    } else {
        Err(invalid + parse_u32_error(atom_text(items[1])))
    }
}

/// Every item is an atom.
pub open spec fn all_atoms(items: Seq<Form>) -> bool {
    forall|i: int| 0 <= i < items.len() ==> (#[trigger] items[i]) is Atom
}

/// The command that a top-level form stands for, or the error message.
pub open spec fn command_of(form: Form) -> Result<CommandView, Seq<char>> {
    if form is Atom {
        Err("top-level form must be a list"@)
    } else {
        let items = form->List_0;
        if items.len() == 0 || items[0] !is Atom {
            Err("top-level form requires an atom head"@)
        } else {
            let head = atom_text(items[0]);
            if head == "set-logic"@ {
                if items.len() == 2 && items[1] is Atom {
                    Ok(CommandView::SetLogic(atom_text(items[1])))
                } else {
                    Err("malformed set-logic"@)
                }
            } else if head == "set-info"@ {
                Ok(CommandView::SetInfo)
            } else if head == "declare-sort"@ {
                if items.len() == 3 && items[1] is Atom && items[2] is Atom {
                    if atom_text(items[2]) == "0"@ {
                        Ok(CommandView::DeclareSort { name: atom_text(items[1]) })
                    } else {
                        Err("only zero-arity declare-sort is supported"@)
                    }
                } else {
                    Err("malformed declare-sort"@)
                }
            } else if head == "declare-fun"@ {
                if items.len() == 4 && items[1] is Atom && items[2] is List && items[3] is Atom {
                    if all_atoms(items[2]->List_0) {
                        Ok(
                            CommandView::DeclareFun {
                                name: atom_text(items[1]),
                                args: (items[2]->List_0).map_values(|f: Form| atom_text(f)),
                                result: atom_text(items[3]),
                            },
                        )
                    } else {
                        Err("function sort arguments must be atoms"@)
                    }
                } else {
                    Err("malformed declare-fun"@)
                }
            } else if head == "declare-const"@ {
                if items.len() == 3 && items[1] is Atom && items[2] is Atom {
                    Ok(
                        CommandView::DeclareFun {
                            name: atom_text(items[1]),
                            args: Seq::empty(),
                            result: atom_text(items[2]),
                        },
                    )
                } else {
                    Err("malformed declare-const"@)
                }
            } else if head == "assert"@ {
                if items.len() == 2 {
                    Ok(CommandView::Assert(items[1]))
                } else {
                    Err("malformed assert"@)
                }
            } else if head == "push"@ {
                match levels_of(items, "malformed push"@, "invalid push level: "@) {
                    Ok(levels) => Ok(CommandView::Push(levels)),
                    Err(error) => Err(error),
                }
            } else if head == "pop"@ {
                match levels_of(items, "malformed pop"@, "invalid pop level: "@) {
                    Ok(levels) => Ok(CommandView::Pop(levels)),
                    Err(error) => Err(error),
                }
            } else if head == "check-sat"@ {
                Ok(CommandView::CheckSat)
            } else if head == "exit"@ {
                Ok(CommandView::Exit)
            } else {
                Err("unsupported command: "@ + head)
            }
        }
    }
}

/// The executable result says what the mathematical one does.
pub open spec fn command_result(
    result: Result<Command, String>,
    expected: Result<CommandView, Seq<char>>,
) -> bool {
    match expected {
        Ok(view) => result is Ok && result->Ok_0.meaning() == view,
        Err(error) => result is Err && result->Err_0@ == error,
    }
}

/// Returns the text of item `i`, if that item is an atom.
fn item_atom(items: &Vec<SExpr>, i: usize) -> (atom: Option<String>)
    requires
        i < items.len(),
    ensures
        atom is Some <==> forms(*items)[i as int] is Atom,
        atom matches Some(atom) ==> atom@ == atom_text(forms(*items)[i as int]),
{
    proof {
        lemma_forms(*items);
    }
    match &items[i] {
        SExpr::Atom(atom) => Some(text_copy(atom)),
        SExpr::List(_) => None,
    }
}

/// Parses the level number of a `push` or `pop` form.
fn parse_levels(items: &Vec<SExpr>, malformed: &str, invalid: &str) -> (result: Result<u32, String>)
    ensures
        match levels_of(forms(*items), malformed@, invalid@) {
            Ok(levels) => result == Ok::<u32, String>(levels),
            Err(error) => result is Err && result->Err_0@ == error,
        },
{
    proof {
        lemma_forms(*items);
    }
    if items.len() != 2 {
        return Err(malformed.to_owned());
    }
    match item_atom(items, 1) {
        None => Err(malformed.to_owned()),
        Some(atom) => match parse_u32(&atom) {
            Ok(levels) => Ok(levels),
            Err(error) => Err(joined(invalid, &error)),
        },
    }
}

/// Reads the argument sort names of a function declaration.
fn sort_names(list: &Vec<SExpr>) -> (names: Option<Vec<String>>)
    ensures
        names is Some <==> all_atoms(forms(*list)),
        names matches Some(names) ==> token_texts(names@) == forms(*list).map_values(
            |f: Form| atom_text(f),
        ),
{
    proof {
        lemma_forms(*list);
    }
    let mut names: Vec<String> = Vec::new();
    let mut i: usize = 0;
    while i < list.len()
        invariant
            0 <= i <= list.len(),
            names.len() == i,
            forms(*list).len() == list.len(),
            forall|j: int| 0 <= j < i ==> (#[trigger] forms(*list)[j]) is Atom,
            forall|j: int|
                0 <= j < i ==> (#[trigger] names[j])@ == atom_text(forms(*list)[j]),
        decreases list.len() - i,
    {
        match item_atom(list, i) {
            None => {
                return None;
            },
            Some(name) => {
                names.push(name);
            },
        }
        i += 1;
    }
    proof {
        assert(token_texts(names@) =~= forms(*list).map_values(|f: Form| atom_text(f)));
    }
    Some(names)
}

/// Converts one top-level S-expression into one supported command.
pub fn command_from_sexpr(expr: &SExpr) -> (result: Result<Command, String>)
    ensures
        command_result(result, command_of(expr.form())),
{
    let items = match expr {
        SExpr::Atom(_) => {
            return Err("top-level form must be a list".to_owned());
        },
        SExpr::List(items) => items,
    };
    proof {
        lemma_list_form(*items);
        lemma_forms(*items);
    }
    if items.len() == 0 {
        return Err("top-level form requires an atom head".to_owned());
    }
    let head = match item_atom(items, 0) {
        None => {
            return Err("top-level form requires an atom head".to_owned());
        },
        Some(head) => head,
    };
    if same_text(&head, "set-logic") {
        if items.len() == 2 {
            if let Some(logic) = item_atom(items, 1) {
                return Ok(Command::SetLogic(logic));
            }
        }
        return Err("malformed set-logic".to_owned());
    }
    if same_text(&head, "set-info") {
        return Ok(Command::SetInfo);
    }
    if same_text(&head, "declare-sort") {
        if items.len() == 3 {
            if let (Some(name), Some(arity)) = (item_atom(items, 1), item_atom(items, 2)) {
                if !same_text(&arity, "0") {
                    return Err("only zero-arity declare-sort is supported".to_owned());
                }
                return Ok(Command::DeclareSort { name });
            }
        }
        return Err("malformed declare-sort".to_owned());
    }
    if same_text(&head, "declare-fun") {
        if items.len() == 4 {
            if let (Some(name), SExpr::List(list), Some(result)) = (
                item_atom(items, 1),
                &items[2],
                item_atom(items, 3),
            ) {
                proof {
                    lemma_list_form(*list);
                }
                return match sort_names(list) {
                    None => Err("function sort arguments must be atoms".to_owned()),
                    Some(args) => Ok(Command::DeclareFun { name, args, result }),
                };
            }
        }
        return Err("malformed declare-fun".to_owned());
    }
    if same_text(&head, "declare-const") {
        if items.len() == 3 {
            if let (Some(name), Some(sort)) = (item_atom(items, 1), item_atom(items, 2)) {
                return Ok(Command::DeclareConst { name, sort });
            }
        }
        return Err("malformed declare-const".to_owned());
    }
    if same_text(&head, "assert") {
        if items.len() == 2 {
            return Ok(Command::Assert(copy_sexpr(&items[1])));
        }
        return Err("malformed assert".to_owned());
    }
    if same_text(&head, "push") {
        return match parse_levels(items, "malformed push", "invalid push level: ") {
            Ok(levels) => Ok(Command::Push(levels)),
            Err(error) => Err(error),
        };
    }
    if same_text(&head, "pop") {
        return match parse_levels(items, "malformed pop", "invalid pop level: ") {
            Ok(levels) => Ok(Command::Pop(levels)),
            Err(error) => Err(error),
        };
    }
    if same_text(&head, "check-sat") {
        return Ok(Command::CheckSat);
    }
    if same_text(&head, "exit") {
        return Ok(Command::Exit);
    }
    Err(joined("unsupported command: ", &head))
}

/// The commands of a list of forms, or the message of the first error.
pub open spec fn commands_of(items: Seq<Form>) -> Result<Seq<CommandView>, Seq<char>>
    decreases items.len(),
{
    if items.len() == 0 {
        Ok(Seq::empty())
    } else {
        match commands_of(items.drop_last()) {
            Err(error) => Err(error),
            Ok(commands) => match command_of(items.last()) {
                Err(error) => Err(error),
                Ok(command) => Ok(commands.push(command)),
            },
        }
    }
}

/// The meanings of a list of commands.
pub open spec fn meanings(commands: Seq<Command>) -> Seq<CommandView> {
    commands.map_values(|c: Command| c.meaning())
}

/// The executable result says what the mathematical one does.
pub open spec fn commands_result(
    result: Result<Vec<Command>, String>,
    expected: Result<Seq<CommandView>, Seq<char>>,
) -> bool {
    match expected {
        Ok(views) => result is Ok && meanings(result->Ok_0@) == views,
        Err(error) => result is Err && result->Err_0@ == error,
    }
}

proof fn lemma_commands_error(items: Seq<Form>, n: int)
    requires
        0 <= n <= items.len(),
        commands_of(items.take(n)) is Err,
    ensures
        commands_of(items) == commands_of(items.take(n)),
    decreases items.len() - n,
{
    if n < items.len() {
        assert(items.take(n + 1).drop_last() =~= items.take(n));
        lemma_commands_error(items, n + 1);
    } else {
        assert(items.take(n) =~= items);
    }
}

/// Reads the commands of a list of top-level expressions.
pub fn commands_from(exprs: &Vec<SExpr>) -> (result: Result<Vec<Command>, String>)
    ensures
        commands_result(result, commands_of(forms(*exprs))),
{
    let ghost items = forms(*exprs);
    proof {
        lemma_forms(*exprs);
    }
    let mut commands: Vec<Command> = Vec::new();
    let mut i: usize = 0;
    proof {
        assert(items.take(0) =~= Seq::<Form>::empty());
        assert(meanings(commands@) =~= Seq::<CommandView>::empty());
    }
    while i < exprs.len()
        invariant
            0 <= i <= exprs.len(),
            items == forms(*exprs),
            items.len() == exprs.len(),
            forall|j: int| 0 <= j < items.len() ==> #[trigger] items[j] == exprs[j].form(),
            commands_of(items.take(i as int)) == Ok::<Seq<CommandView>, Seq<char>>(
                meanings(commands@),
            ),
        decreases exprs.len() - i,
    {
        proof {
            assert(items.take(i as int + 1).drop_last() =~= items.take(i as int));
            assert(items.take(i as int + 1).last() == items[i as int]);
        }
        match command_from_sexpr(&exprs[i]) {
            Err(error) => {
                proof {
                    lemma_commands_error(items, i as int + 1);
                    assert(commands_result(
                        Err::<Vec<Command>, String>(error),
                        commands_of(items),
                    ));
                }
                return Err(error);
            },
            Ok(command) => {
                let ghost before = meanings(commands@);
                commands.push(command);
                proof {
                    assert(meanings(commands@) =~= before.push(command.meaning()));
                }
            },
        }
        i += 1;
    }
    proof {
        assert(items.take(i as int) =~= items);
        assert(commands_result(Ok::<Vec<Command>, String>(commands), commands_of(items)));
    }
    Ok(commands)
}

/// Parses a complete SMT-LIB input string into commands.
pub fn parse_commands(input: &str) -> (result: Result<Vec<Command>, String>)
    ensures
        overclosed(tokens_of(input@)) ==> result is Err && result->Err_0@
            == "trailing tokens after parse"@,
        unclosed(tokens_of(input@), 0) ==> result is Err && result->Err_0@
            == "missing closing `)`"@,
        !overclosed(tokens_of(input@)) && !unclosed(tokens_of(input@), 0) ==> exists|
            items: Seq<Form>,
        | #[trigger]
            flat_all(items) == tokens_of(input@) && proper_all(items) && commands_result(
                result,
                commands_of(items),
            ),
{
    let tokens = tokenize(input);
    let ghost texts = token_texts(tokens@);
    let (exprs, next) = match parse_many(&tokens, 0) {
        Err(error) => {
            return Err(error);
        },
        Ok(parsed) => parsed,
    };
    let ghost items = forms(exprs);
    if next != tokens.len() {
        proof {
            crate::qfuf::sexpr::lemma_stray_close(texts, next as int);
        }
        return Err("trailing tokens after parse".to_owned());
    }
    proof {
        assert(texts.subrange(0, texts.len() as int) =~= texts);
        lemma_forms(exprs);
        assert(depth(texts, 0, texts.len() as int) == 0);
        assert forall|end: int| 0 <= end <= texts.len() implies #[trigger] depth(texts, 0, end)
            >= 0 by {}
    }
    let result = commands_from(&exprs);
    proof {
        assert(flat_all(items) == texts);
    }
    result
}

} // verus!
