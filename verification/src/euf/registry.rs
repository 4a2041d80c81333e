//! Permanent registry of canonical sorts, symbols, terms and equality atoms.
//!
//! Every object is stored once: interning the same object again hands out the same handle, and
//! different handles name different objects.

use crate::euf::ids::{
    AtomRef, SortId, SortRef, SymbolId, SymbolRef, TermId, TermRef, TheoryAtomId,
};
use crate::euf::table::Interner;
use crate::semantics::{well_founded, TermView};
use vstd::prelude::*;

verus! {

/// One sort as a mathematical value.
#[verifier::ext_equal]
pub enum SortView {
    /// The built-in Boolean sort.
    Bool,
    /// An uninterpreted sort with this name.
    Named(Seq<char>),
}

/// One function symbol as a mathematical value.
#[verifier::ext_equal]
pub struct SymbolView {
    /// Symbol name.
    pub name: Seq<char>,
    /// Argument sorts.
    pub arg_sorts: Seq<SortId>,
    /// Result sort.
    pub result_sort: SortId,
}

impl<'a> SortRef<'a> {
    /// The queried sort.
    pub open spec fn sort(self) -> SortView {
        match self {
            SortRef::Bool => SortView::Bool,
            SortRef::Uninterpreted { name } => SortView::Named(name@),
        }
    }
}

impl<'a> SymbolRef<'a> {
    /// The queried symbol.
    pub open spec fn symbol(self) -> SymbolView {
        SymbolView {
            name: self.name@,
            arg_sorts: self.arg_sorts@,
            result_sort: self.result_sort,
        }
    }
}

/// The application `fun(args)` over term indices.
pub open spec fn application(fun: SymbolId, args: Seq<TermId>) -> TermView {
    TermView { fun: fun.0 as int, args: args.map_values(|t: TermId| t.0 as int) }
}

/// An equality between two terms with the smaller index first.
pub open spec fn ordered(lhs: TermId, rhs: TermId) -> (TermId, TermId) {
    if rhs.0 < lhs.0 {
        (rhs, lhs)
    } else {
        (lhs, rhs)
    }
}

/// Ends the name in the stored form of a symbol.
const NAME_END: u32 = 0xFFFF_FFFF;

spec fn name_key(name: Seq<char>) -> Seq<u32> {
    name.map_values(|c: char| c as u32)
}

spec fn sort_key(sort: SortView) -> Seq<u32> {
    match sort {
        SortView::Bool => seq![0u32],
        SortView::Named(name) => seq![1u32] + name_key(name),
    }
}

spec fn symbol_key(symbol: SymbolView) -> Seq<u32> {
    name_key(symbol.name) + seq![NAME_END, symbol.result_sort.0] + symbol.arg_sorts.map_values(
        |s: SortId| s.0,
    )
}

spec fn term_key(fun: SymbolId, args: Seq<TermId>) -> Seq<u32> {
    seq![fun.0] + args.map_values(|t: TermId| t.0)
}

proof fn lemma_char_code(a: char, b: char)
    ensures
        a as u32 == b as u32 ==> a == b,
        a as u32 != NAME_END,
{
}

proof fn lemma_name_key_injective(a: Seq<char>, b: Seq<char>)
    requires
        name_key(a) == name_key(b),
    ensures
        a == b,
{
    assert(name_key(a).len() == a.len());
    assert forall|i: int| 0 <= i < a.len() implies a[i] == b[i] by {
        assert(name_key(a)[i] == a[i] as u32);
        assert(name_key(b)[i] == b[i] as u32);
        lemma_char_code(a[i], b[i]);
    }
    assert(a =~= b);
}

proof fn lemma_sort_key_injective(a: SortView, b: SortView)
    requires
        sort_key(a) == sort_key(b),
    ensures
        a == b,
{
    assert(sort_key(a)[0] == sort_key(b)[0]);
    assert(sort_key(SortView::Bool)[0] == 0);
    match (a, b) {
        (SortView::Named(x), SortView::Named(y)) => {
            assert(sort_key(a).skip(1) =~= name_key(x));
            assert(sort_key(b).skip(1) =~= name_key(y));
            lemma_name_key_injective(x, y);
        },
        (SortView::Named(x), SortView::Bool) => {
            assert(sort_key(a)[0] == 1);
        },
        (SortView::Bool, SortView::Named(y)) => {
            assert(sort_key(b)[0] == 1);
        },
        _ => {},
    }
}

proof fn lemma_symbol_key_injective(a: SymbolView, b: SymbolView)
    requires
        symbol_key(a) == symbol_key(b),
    ensures
        a == b,
{
    let ka = symbol_key(a);
    let kb = symbol_key(b);
    let n = a.name.len() as int;
    let m = b.name.len() as int;
    assert(ka[n] == NAME_END);
    assert(kb[m] == NAME_END);
    if n < m {
        assert(kb[n] == b.name[n] as u32);
        lemma_char_code(b.name[n], b.name[n]);
    }
    if m < n {
        assert(ka[m] == a.name[m] as u32);
        lemma_char_code(a.name[m], a.name[m]);
    }
    assert(ka.take(n) =~= name_key(a.name));
    assert(kb.take(n) =~= name_key(b.name));
    lemma_name_key_injective(a.name, b.name);
    assert(ka[n + 1] == a.result_sort.0);
    assert(kb[n + 1] == b.result_sort.0);
    assert(ka.len() == n + 2 + a.arg_sorts.len());
    assert(kb.len() == n + 2 + b.arg_sorts.len());
    assert forall|i: int| 0 <= i < a.arg_sorts.len() implies a.arg_sorts[i] == b.arg_sorts[i] by {
        assert(ka[n + 2 + i] == a.arg_sorts[i].0);
        assert(kb[n + 2 + i] == b.arg_sorts[i].0);
    }
    assert(a.arg_sorts =~= b.arg_sorts);
}

proof fn lemma_term_key_injective(f: SymbolId, a: Seq<TermId>, g: SymbolId, b: Seq<TermId>)
    requires
        term_key(f, a) == term_key(g, b),
    ensures
        f == g,
        a == b,
{
    let ka = term_key(f, a);
    let kb = term_key(g, b);
    assert(ka[0] == f.0 && kb[0] == g.0);
    assert(ka.len() == 1 + a.len() && kb.len() == 1 + b.len());
    assert forall|i: int| 0 <= i < a.len() implies a[i] == b[i] by {
        assert(ka[1 + i] == a[i].0);
        assert(kb[1 + i] == b[i].0);
    }
    assert(a =~= b);
}

/// Appends the stored form of a name.
fn push_name(out: &mut Vec<u32>, name: &str)
    ensures
        final(out)@ == old(out)@ + name_key(name@),
{
    let n = name.unicode_len();
    let mut i: usize = 0;
    while i < n
        invariant
            0 <= i <= n,
            n == name@.len(),
            out@ == old(out)@ + name_key(name@.take(i as int)),
        decreases n - i,
    {
        let c = name.get_char(i);
        out.push(c as u32);
        proof {
            assert(name@.take(i as int + 1) =~= name@.take(i as int).push(c));
            assert(out@ =~= old(out)@ + name_key(name@.take(i as int + 1)));
        }
        i += 1;
    }
    assert(name@.take(n as int) =~= name@);
}

/// Permanent registry of canonical sorts, symbols, terms and atoms.
pub struct Registry {
    /// Canonical sort table.
    sorts: Interner,
    /// Canonical symbol table.
    symbols: Interner,
    /// Argument sorts of each symbol.
    symbol_args: Vec<Vec<SortId>>,
    /// Result sort of each symbol.
    symbol_results: Vec<SortId>,
    /// Canonical term table.
    terms: Interner,
    /// Applied symbol of each term.
    term_funs: Vec<SymbolId>,
    /// Arguments of each term.
    term_args: Vec<Vec<TermId>>,
    /// Canonical atom table.
    atoms: Interner,
    /// Endpoints of each atom.
    atom_ends: Vec<(TermId, TermId)>,
    /// Derived sort for each interned term.
    term_sorts: Vec<SortId>,
    /// Permanent atom incidence lists.
    term_atoms: Vec<Vec<TheoryAtomId>>,
    /// Permanent structural parent use-lists.
    parent_apps: Vec<Vec<TermId>>,
    /// Every interned sort.
    sort_views: Ghost<Seq<SortView>>,
    /// Every interned symbol.
    symbol_views: Ghost<Seq<SymbolView>>,
}

/// Everything that a registry holds.
#[verifier::ext_equal]
pub struct RegistryView {
    /// Sorts by handle index.
    pub sorts: Seq<SortView>,
    /// Symbols by handle index.
    pub symbols: Seq<SymbolView>,
    /// Terms by handle index.
    pub terms: Seq<TermView>,
    /// Sort of each term.
    pub term_sorts: Seq<SortId>,
    /// Endpoints of each atom by handle index, smaller index first.
    pub atoms: Seq<(TermId, TermId)>,
}

impl RegistryView {
    /// Terms are well sorted applications of registered symbols to earlier terms, atoms relate
    /// registered terms in index order, and nothing occurs twice.
    pub open spec fn canonical(self) -> bool {
        &&& self.sorts.no_duplicates()
        &&& self.symbols.no_duplicates()
        &&& self.terms.no_duplicates()
        &&& self.atoms.no_duplicates()
        &&& well_founded(self.terms)
        &&& self.term_sorts.len() == self.terms.len()
        &&& forall|t: int| 0 <= t < self.terms.len() ==> #[trigger] self.well_sorted(t)
        &&& forall|a: int|
            0 <= a < self.atoms.len() ==> (#[trigger] self.atoms[a]).0.0 <= self.atoms[a].1.0
                < self.terms.len()
    }

    /// Term `t` applies a registered symbol to terms of the declared sorts, and has its result sort.
    pub open spec fn well_sorted(self, t: int) -> bool {
        let fun = self.terms[t].fun;
        &&& 0 <= fun < self.symbols.len()
        &&& self.terms[t].args.len() == self.symbols[fun].arg_sorts.len()
        &&& self.term_sorts[t] == self.symbols[fun].result_sort
        &&& forall|k: int|
            0 <= k < self.terms[t].args.len() ==> self.term_sorts[#[trigger] self.terms[t].args[k]]
                == self.symbols[fun].arg_sorts[k]
    }

    /// `fun(args)` is a well-sorted application of sort `sort`.
    pub open spec fn accepts(self, fun: SymbolId, args: Seq<TermId>, sort: SortId) -> bool {
        &&& fun.0 < self.symbols.len()
        &&& args.len() == self.symbols[fun.0 as int].arg_sorts.len()
        &&& sort == self.symbols[fun.0 as int].result_sort
        &&& forall|k: int|
            0 <= k < args.len() ==> (#[trigger] args[k]).0 < self.terms.len()
                && self.term_sorts[args[k].0 as int] == self.symbols[fun.0 as int].arg_sorts[k]
    }
}

impl Registry {
    /// Everything that the registry holds.
    pub closed spec fn view(&self) -> RegistryView {
        RegistryView {
            sorts: self.sort_views@,
            symbols: self.symbol_views@,
            terms: self.applications(),
            term_sorts: self.term_sorts@,
            atoms: self.atom_ends@,
        }
    }

    spec fn applications(&self) -> Seq<TermView> {
        Seq::new(
            self.term_args@.len(),
            |t: int| application(self.term_funs@[t], self.term_args@[t]@),
        )
    }

    /// The tables agree with each other.
    pub closed spec fn wf(&self) -> bool {
        &&& self.view().canonical()
        &&& self.sorts.wf()
        &&& self.symbols.wf()
        &&& self.terms.wf()
        &&& self.atoms.wf()
        &&& self.sorts.lists() == self.sort_views@.map_values(|s: SortView| sort_key(s))
        &&& self.symbols.lists() == self.symbol_views@.map_values(|s: SymbolView| symbol_key(s))
        &&& self.symbol_args.len() == self.symbol_views@.len()
        &&& self.symbol_results.len() == self.symbol_views@.len()
        &&& forall|s: int|
            0 <= s < self.symbol_views@.len() ==> self.symbol_args[s]@ == (
            #[trigger] self.symbol_views@[s]).arg_sorts && self.symbol_results[s]
                == self.symbol_views@[s].result_sort
        &&& self.term_funs.len() == self.term_args.len()
        &&& self.terms.lists() == Seq::new(
            self.term_args@.len(),
            |t: int| term_key(self.term_funs@[t], self.term_args@[t]@),
        )
        &&& self.atoms.lists() == self.atom_ends@.map_values(
            |a: (TermId, TermId)| seq![a.0.0, a.1.0],
        )
        &&& self.term_sorts.len() == self.term_args.len()
        &&& self.term_atoms.len() == self.term_args.len()
        &&& self.parent_apps.len() == self.term_args.len()
        &&& forall|t: int, i: int|
            0 <= t < self.parent_apps.len() && 0 <= i < self.parent_apps[t].len()
                ==> self.is_parent(t, #[trigger] self.parent_apps[t][i])
        &&& forall|p: int, k: int|
            0 <= p < self.term_args.len() && 0 <= k < self.term_args[p].len() ==> self.parent_apps[(
            #[trigger] self.term_args[p][k]).0 as int]@.contains(TermId(p as u32))
        &&& forall|t: int, i: int|
            0 <= t < self.term_atoms.len() && 0 <= i < self.term_atoms[t].len()
                ==> self.is_incident(t, #[trigger] self.term_atoms[t][i])
        &&& forall|a: int|
            0 <= a < self.atom_ends.len() ==> {
                let ends = #[trigger] self.atom_ends[a];
                &&& self.term_atoms[ends.0.0 as int]@.contains(TheoryAtomId(a as u32))
                &&& self.term_atoms[ends.1.0 as int]@.contains(TheoryAtomId(a as u32))
            }
    }

    spec fn is_parent(&self, t: int, p: TermId) -> bool {
        &&& p.0 < self.term_args.len()
        &&& exists|k: int|
            0 <= k < self.term_args[p.0 as int].len() && (#[trigger] self.term_args[p.0 as int][k]).0 == t
    }

    spec fn is_incident(&self, t: int, a: TheoryAtomId) -> bool {
        &&& a.0 < self.atom_ends.len()
        &&& self.atom_ends[a.0 as int].0.0 == t || self.atom_ends[a.0 as int].1.0 == t
    }

    /// A well-formed registry holds well-sorted canonical objects, few enough for their handles.
    pub proof fn lemma_canonical(&self)
        requires
            self.wf(),
        ensures
            self@.canonical(),
            self@.sorts.len() <= u32::MAX,
            self@.symbols.len() <= u32::MAX,
            self@.terms.len() <= u32::MAX,
            self@.atoms.len() <= u32::MAX,
    {
        self.sorts.lemma_len();
        self.symbols.lemma_len();
        self.terms.lemma_len();
        self.atoms.lemma_len();
    }

    /// Creates an empty registry.
    pub fn new() -> (registry: Self)
        ensures
            registry.wf(),
            registry@.sorts == Seq::<SortView>::empty(),
            registry@.symbols == Seq::<SymbolView>::empty(),
            registry@.terms == Seq::<TermView>::empty(),
            registry@.atoms == Seq::<(TermId, TermId)>::empty(),
    {
        let registry = Self {
            sorts: Interner::new(),
            symbols: Interner::new(),
            symbol_args: Vec::new(),
            symbol_results: Vec::new(),
            terms: Interner::new(),
            term_funs: Vec::new(),
            term_args: Vec::new(),
            atoms: Interner::new(),
            atom_ends: Vec::new(),
            term_sorts: Vec::new(),
            term_atoms: Vec::new(),
            parent_apps: Vec::new(),
            sort_views: Ghost(Seq::empty()),
            symbol_views: Ghost(Seq::empty()),
        };
        proof {
            assert(registry.applications() =~= Seq::<TermView>::empty());
            assert(registry.sorts.lists() =~= registry.sort_views@.map_values(
                |s: SortView| sort_key(s),
            ));
            assert(registry.symbols.lists() =~= registry.symbol_views@.map_values(
                |s: SymbolView| symbol_key(s),
            ));
            assert(registry.terms.lists() =~= Seq::new(
                registry.term_args@.len(),
                |t: int| term_key(registry.term_funs@[t], registry.term_args@[t]@),
            ));
            assert(registry.atoms.lists() =~= registry.atom_ends@.map_values(
                |a: (TermId, TermId)| seq![a.0.0, a.1.0],
            ));
        }
        registry
    }

    /// Interns one sort.
    pub fn intern_sort(&mut self, sort: SortRef<'_>) -> (id: SortId)
        requires
            old(self).wf(),
            old(self)@.sorts.len() < u32::MAX,
        ensures
            final(self).wf(),
            final(self)@ == (RegistryView {
                sorts: if old(self)@.sorts.contains(sort.sort()) {
                    old(self)@.sorts
                } else {
                    old(self)@.sorts.push(sort.sort())
                },
                ..old(self)@
            }),
            id.0 < final(self)@.sorts.len(),
            final(self)@.sorts[id.0 as int] == sort.sort(),
    {
        let ghost view = sort.sort();
        let mut key: Vec<u32> = Vec::new();
        match sort {
            SortRef::Bool => {
                key.push(0);
            },
            SortRef::Uninterpreted { name } => {
                key.push(1);
                push_name(&mut key, name);
            },
        }
        proof {
            assert(key@ =~= sort_key(view));
        }
        let interned = self.sorts.intern(key);
        proof {
            let old_views = self.sort_views@;
            let keyed = |s: SortView| sort_key(s);
            if old_views.contains(view) {
                let i = choose|i: int| 0 <= i < old_views.len() && old_views[i] == view;
                assert(old(self).sorts.lists()[i] == key@);
                assert(old(self).sorts.lists().contains(key@));
            }
            if interned.is_new {
                self.sort_views@ = old_views.push(view);
                assert(self.sorts.lists() =~= self.sort_views@.map_values(keyed));
            } else {
                assert(old(self).sorts.lists()[interned.id as int] == sort_key(
                    old_views[interned.id as int],
                ));
                lemma_sort_key_injective(old_views[interned.id as int], view);
                assert(old_views.contains(view));
            }
            assert(self.applications() =~= old(self).applications());
            assert(self.sort_views@.no_duplicates());
            assert(self@.canonical()) by {
                assert forall|t: int| 0 <= t < self@.terms.len() implies #[trigger] self@.well_sorted(
                    t,
                ) by {
                    assert(old(self)@.well_sorted(t));
                }
            }
            lemma_links_same(old(self), self);
        }
        SortId(interned.id)
    }

    /// Interns one symbol.
    pub fn intern_symbol(&mut self, symbol: SymbolRef<'_>) -> (id: SymbolId)
        requires
            old(self).wf(),
            old(self)@.symbols.len() < u32::MAX,
        ensures
            final(self).wf(),
            final(self)@ == (RegistryView {
                symbols: if old(self)@.symbols.contains(symbol.symbol()) {
                    old(self)@.symbols
                } else {
                    old(self)@.symbols.push(symbol.symbol())
                },
                ..old(self)@
            }),
            id.0 < final(self)@.symbols.len(),
            final(self)@.symbols[id.0 as int] == symbol.symbol(),
    {
        let ghost view = symbol.symbol();
        let mut key: Vec<u32> = Vec::new();
        push_name(&mut key, symbol.name);
        key.push(NAME_END);
        key.push(symbol.result_sort.0);
        let mut args: Vec<SortId> = Vec::new();
        let mut i: usize = 0;
        while i < symbol.arg_sorts.len()
            invariant
                0 <= i <= symbol.arg_sorts.len(),
                args@ == symbol.arg_sorts@.take(i as int),
                key@ == name_key(symbol.name@) + seq![NAME_END, symbol.result_sort.0]
                    + symbol.arg_sorts@.take(i as int).map_values(|s: SortId| s.0),
            decreases symbol.arg_sorts.len() - i,
        {
            let sort = symbol.arg_sorts[i];
            key.push(sort.0);
            args.push(sort);
            proof {
                let before = symbol.arg_sorts@.take(i as int);
                let after = symbol.arg_sorts@.take(i as int + 1);
                assert(after =~= before.push(sort));
                assert(after.map_values(|s: SortId| s.0) =~= before.map_values(
                    |s: SortId| s.0,
                ).push(sort.0));
                assert(key@ =~= name_key(symbol.name@) + seq![NAME_END, symbol.result_sort.0]
                    + after.map_values(|s: SortId| s.0));
            }
            i += 1;
        }
        proof {
            assert(symbol.arg_sorts@.take(i as int) =~= symbol.arg_sorts@);
            assert(key@ =~= symbol_key(view));
        }
        let interned = self.symbols.intern(key);
        if interned.is_new {
            self.symbol_args.push(args);
            self.symbol_results.push(symbol.result_sort);
        }
        proof {
            let old_views = self.symbol_views@;
            let keyed = |s: SymbolView| symbol_key(s);
            if old_views.contains(view) {
                let i = choose|i: int| 0 <= i < old_views.len() && old_views[i] == view;
                assert(old(self).symbols.lists()[i] == key@);
                assert(old(self).symbols.lists().contains(key@));
            }
            if interned.is_new {
                self.symbol_views@ = old_views.push(view);
                assert(self.symbols.lists() =~= self.symbol_views@.map_values(keyed));
            } else {
                assert(old(self).symbols.lists()[interned.id as int] == symbol_key(
                    old_views[interned.id as int],
                ));
                lemma_symbol_key_injective(old_views[interned.id as int], view);
                assert(old_views.contains(view));
            }
            assert forall|s: int| 0 <= s < self.symbol_views@.len() implies self.symbol_args[s]@ == (
            #[trigger] self.symbol_views@[s]).arg_sorts && self.symbol_results[s]
                == self.symbol_views@[s].result_sort by {
                if s < old_views.len() {
                    assert(self.symbol_views@[s] == old_views[s]);
                }
            }
            assert(self.applications() =~= old(self).applications());
            assert(self@.canonical()) by {
                assert forall|t: int| 0 <= t < self@.terms.len() implies #[trigger] self@.well_sorted(
                    t,
                ) by {
                    assert(old(self)@.well_sorted(t));
                }
            }
            lemma_links_same(old(self), self);
        }
        SymbolId(interned.id)
    }

    /// Interns one term together with its already-known sort.
    pub fn intern_term(&mut self, term: TermRef<'_>, sort: SortId) -> (id: TermId)
        requires
            old(self).wf(),
            old(self)@.terms.len() < u32::MAX,
            old(self)@.accepts(term.fun, term.args@, sort),
        ensures
            final(self).wf(),
            final(self)@ == (if old(self)@.terms.contains(application(term.fun, term.args@)) {
                old(self)@
            } else {
                RegistryView {
                    terms: old(self)@.terms.push(application(term.fun, term.args@)),
                    term_sorts: old(self)@.term_sorts.push(sort),
                    ..old(self)@
                }
            }),
            id.0 < final(self)@.terms.len(),
            final(self)@.terms[id.0 as int] == application(term.fun, term.args@),
            final(self)@.term_sorts[id.0 as int] == sort,
    {
        let ghost app = application(term.fun, term.args@);
        let mut key: Vec<u32> = Vec::new();
        key.push(term.fun.0);
        let mut args: Vec<TermId> = Vec::new();
        let mut i: usize = 0;
        while i < term.args.len()
            invariant
                0 <= i <= term.args.len(),
                args@ == term.args@.take(i as int),
                key@ == term_key(term.fun, term.args@.take(i as int)),
            decreases term.args.len() - i,
        {
            let arg = term.args[i];
            key.push(arg.0);
            args.push(arg);
            proof {
                assert(term.args@.take(i as int + 1) =~= term.args@.take(i as int).push(arg));
                assert(key@ =~= term_key(term.fun, term.args@.take(i as int + 1)));
            }
            i += 1;
        }
        proof {
            assert(term.args@.take(i as int) =~= term.args@);
            assert(key@ == term_key(term.fun, term.args@));
        }
        let ghost n = self.term_args@.len() as int;
        let ghost old_apps = self.applications();
        let interned = self.terms.intern(key);
        proof {
            if old_apps.contains(app) {
                let t = choose|t: int| 0 <= t < old_apps.len() && old_apps[t] == app;
                lemma_application_injective(
                    self.term_funs@[t],
                    self.term_args@[t]@,
                    term.fun,
                    term.args@,
                );
                assert(old(self).terms.lists()[t] == key@);
                assert(old(self).terms.lists().contains(key@));
            }
        }
        if !interned.is_new {
            proof {
                let t = interned.id as int;
                assert(old(self).terms.lists()[t] == term_key(
                    self.term_funs@[t],
                    self.term_args@[t]@,
                ));
                lemma_term_key_injective(
                    self.term_funs@[t],
                    self.term_args@[t]@,
                    term.fun,
                    term.args@,
                );
                assert(old_apps[t] == app);
                assert(old_apps.contains(app));
                assert(self.applications() =~= old_apps);
                assert(self@ == old(self)@);
                assert(self@.well_sorted(t));
                lemma_links_same(old(self), self);
            }
            return TermId(interned.id);
        }
        let id = TermId(interned.id);
        self.term_funs.push(term.fun);
        self.term_args.push(args);
        self.term_sorts.push(sort);
        self.term_atoms.push(Vec::new());
        self.parent_apps.push(Vec::new());
        proof {
            assert(self.applications() =~= old_apps.push(app));
            assert(self.terms.lists() =~= Seq::new(
                self.term_args@.len(),
                |t: int| term_key(self.term_funs@[t], self.term_args@[t]@),
            ));
        }
        let ghost mid = *self;
        proof {
            assert forall|p: int, j: int| 0 <= p < n && 0 <= j < mid.term_args[p].len() implies (
            #[trigger] mid.term_args[p][j]).0 < n && self.parent_apps[mid.term_args[p][j].0 as int]@.contains(
            TermId(p as u32)) by {
                assert(mid.term_args[p] == old(self).term_args[p]);
                assert(old_apps[p].args[j] == old(self).term_args[p][j].0);
                assert(old(self)@.terms[p].args[j] < p);
                let a = old(self).term_args[p][j].0 as int;
                assert(old(self).parent_apps[a]@.contains(TermId(p as u32)));
                assert(self.parent_apps[a] == old(self).parent_apps[a]);
            }
            assert forall|t: int, i: int|
                0 <= t < self.parent_apps.len() && 0 <= i < self.parent_apps[t].len() implies self.is_parent(
            t, #[trigger] self.parent_apps[t][i]) by {
                assert(t < n);
                assert(self.parent_apps[t] == old(self).parent_apps[t]);
                let p = self.parent_apps[t][i];
                assert(old(self).is_parent(t, old(self).parent_apps[t][i]));
                let k = choose|k: int|
                    0 <= k < old(self).term_args[p.0 as int].len() && (#[trigger] old(self).term_args[p.0 as int][k]).0 == t;
                assert(self.term_args[p.0 as int][k].0 == t);
            }
        }
        let mut k: usize = 0;
        while k < term.args.len()
            invariant
                0 <= k <= term.args.len(),
                id.0 == n,
                n == mid.term_args.len() - 1,
                mid.term_args[n]@ == term.args@,
                forall|j: int| 0 <= j < term.args.len() ==> (#[trigger] term.args[j]).0 < n,
                self.parent_apps.len() == n + 1,
                mid.parent_apps.len() == n + 1,
                *self == (Registry { parent_apps: self.parent_apps, ..mid }),
                forall|t: int, i: int|
                    0 <= t < self.parent_apps.len() && 0 <= i < self.parent_apps[t].len()
                        ==> self.is_parent(t, #[trigger] self.parent_apps[t][i]),
                forall|p: int, j: int|
                    0 <= p < n && 0 <= j < mid.term_args[p].len() ==> self.parent_apps[(
                    #[trigger] mid.term_args[p][j]).0 as int]@.contains(TermId(p as u32)),
                forall|j: int|
                    0 <= j < k ==> self.parent_apps[(#[trigger] term.args[j]).0 as int]@.contains(
                        id,
                    ),
                forall|p: int, j: int|
                    0 <= p < n && 0 <= j < mid.term_args[p].len() ==> (
                    #[trigger] mid.term_args[p][j]).0 < n,
            decreases term.args.len() - k,
        {
            let arg = term.args[k];
            let ghost before = self.parent_apps@;
            let mut parents = self.parent_apps[arg.index()].clone();
            parents.push(id);
            self.parent_apps.set(arg.index(), parents);
            proof {
                let a = arg.0 as int;
                let after = self.parent_apps@;
                assert(after[a]@ =~= before[a]@.push(id));
                assert(after[a]@[before[a]@.len() as int] == id);
                assert forall|t: int, p: TermId| 0 <= t <= n && #[trigger] before[t]@.contains(
                    p,
                ) implies after[t]@.contains(p) by {
                    if t == a {
                        let i = choose|i: int| 0 <= i < before[t]@.len() && before[t]@[i] == p;
                        assert(after[t]@[i] == p);
                    }
                }
                assert(self.is_parent(a, id)) by {
                    assert(self.term_args[n][k as int].0 == a);
                }
                assert forall|t: int, i: int|
                    0 <= t < after.len() && 0 <= i < after[t].len() implies self.is_parent(
                    t,
                    #[trigger] after[t][i],
                ) by {
                    if t != a || i < before[a]@.len() {
                        assert(after[t][i] == before[t][i]);
                        let p = before[t][i];
                        assert(mid.term_args == self.term_args);
                    }
                }
                assert forall|p: int, j: int|
                    0 <= p < n && 0 <= j < mid.term_args[p].len() implies after[(
                #[trigger] mid.term_args[p][j]).0 as int]@.contains(TermId(p as u32)) by {
                    assert(before[mid.term_args[p][j].0 as int]@.contains(TermId(p as u32)));
                }
                assert forall|j: int| 0 <= j < k + 1 implies after[(
                #[trigger] term.args[j]).0 as int]@.contains(id) by {
                    if j < k {
                        assert(before[term.args[j].0 as int]@.contains(id));
                    }
                }
            }
            k += 1;
        }
        proof {
            assert(self.applications() =~= old_apps.push(app));
            assert(self@ =~= (RegistryView {
                terms: old(self)@.terms.push(app),
                term_sorts: old(self)@.term_sorts.push(sort),
                ..old(self)@
            }));
            let v = self@;
            let w = old(self)@;
            assert(v.terms.no_duplicates());
            assert(well_founded(v.terms)) by {
                assert forall|t: int, j: int|
                    0 <= t < v.terms.len() && 0 <= j < v.terms[t].args.len() implies 0 <= (
                #[trigger] v.terms[t].args[j]) < t by {
                    if t < n {
                        assert(v.terms[t] == w.terms[t]);
                    } else {
                        assert(v.terms[t].args[j] == term.args[j].0);
                    }
                }
            }
            assert forall|t: int| 0 <= t < v.terms.len() implies #[trigger] v.well_sorted(t) by {
                if t < n {
                    assert(w.well_sorted(t));
                    assert(v.terms[t] == w.terms[t]);
                } else {
                    assert forall|j: int| 0 <= j < v.terms[t].args.len() implies v.term_sorts[
                        #[trigger] v.terms[t].args[j]
                    ] == v.symbols[term.fun.0 as int].arg_sorts[j] by {
                        assert(v.terms[t].args[j] == term.args[j].0);
                    }
                }
            }
            assert forall|a: int| 0 <= a < v.atoms.len() implies (#[trigger] v.atoms[a]).0.0
                <= v.atoms[a].1.0 < v.terms.len() by {
                assert(v.atoms[a] == w.atoms[a]);
            }
            assert(v.canonical());
            assert forall|p: int, j: int|
                0 <= p < self.term_args.len() && 0 <= j < self.term_args[p].len() implies self.parent_apps[(
            #[trigger] self.term_args[p][j]).0 as int]@.contains(TermId(p as u32)) by {
                if p < n {
                    assert(mid.term_args[p][j] == self.term_args[p][j]);
                } else {
                    assert(self.term_args[p][j] == term.args[j]);
                }
            }
            assert forall|t: int, i: int|
                0 <= t < self.term_atoms.len() && 0 <= i < self.term_atoms[t].len() implies self.is_incident(
            t, #[trigger] self.term_atoms[t][i]) by {
                assert(t < n);
                assert(old(self).is_incident(t, old(self).term_atoms[t][i]));
            }
            assert forall|a: int| 0 <= a < self.atom_ends.len() implies {
                let ends = #[trigger] self.atom_ends[a];
                &&& self.term_atoms[ends.0.0 as int]@.contains(TheoryAtomId(a as u32))
                &&& self.term_atoms[ends.1.0 as int]@.contains(TheoryAtomId(a as u32))
            } by {
                assert(old(self).atom_ends[a] == self.atom_ends[a]);
                assert(w.atoms[a] == self.atom_ends[a]);
            }
        }
        id
    }

    /// Interns one theory atom.
    pub fn intern_atom(&mut self, atom: AtomRef) -> (id: TheoryAtomId)
        requires
            old(self).wf(),
            old(self)@.atoms.len() < u32::MAX,
            atom matches AtomRef::Eq(lhs, rhs) && lhs.0 < old(self)@.terms.len() && rhs.0 < old(self)@.terms.len(),
        ensures
            final(self).wf(),
            ({
                let AtomRef::Eq(lhs, rhs) = atom;
                &&& final(self)@ == (RegistryView {
                    atoms: if old(self)@.atoms.contains(ordered(lhs, rhs)) {
                        old(self)@.atoms
                    } else {
                        old(self)@.atoms.push(ordered(lhs, rhs))
                    },
                    ..old(self)@
                })
                &&& id.0 < final(self)@.atoms.len()
                &&& final(self)@.atoms[id.0 as int] == ordered(lhs, rhs)
            }),
    {
        let (lhs, rhs) = match atom {
            AtomRef::Eq(lhs, rhs) => if rhs.0 < lhs.0 {
                (rhs, lhs)
            } else {
                (lhs, rhs)
            },
        };
        let ghost ends = (lhs, rhs);
        let mut key: Vec<u32> = Vec::new();
        key.push(lhs.0);
        key.push(rhs.0);
        proof {
            assert(key@ =~= seq![lhs.0, rhs.0]);
        }
        let ghost olds = self.atom_ends@;
        let interned = self.atoms.intern(key);
        proof {
            if olds.contains(ends) {
                let i = choose|i: int| 0 <= i < olds.len() && olds[i] == ends;
                assert(old(self).atoms.lists()[i] == key@);
                assert(old(self).atoms.lists().contains(key@));
            }
        }
        if !interned.is_new {
            proof {
                let a = interned.id as int;
                assert(old(self).atoms.lists()[a] == seq![olds[a].0.0, olds[a].1.0]);
                assert(seq![olds[a].0.0, olds[a].1.0][0] == seq![lhs.0, rhs.0][0]);
                assert(seq![olds[a].0.0, olds[a].1.0][1] == seq![lhs.0, rhs.0][1]);
                assert(olds[a] == ends);
                assert(olds.contains(ends));
                assert(self.applications() =~= old(self).applications());
                assert(self@ == old(self)@);
                lemma_links_same(old(self), self);
            }
            return TheoryAtomId(interned.id);
        }
        let id = TheoryAtomId(interned.id);
        self.atom_ends.push((lhs, rhs));
        let ghost lists0 = self.term_atoms@;
        let mut incident = self.term_atoms[lhs.index()].clone();
        incident.push(id);
        self.term_atoms.set(lhs.index(), incident);
        let ghost lists1 = self.term_atoms@;
        proof {
            assert(lists1[lhs.0 as int]@ =~= lists0[lhs.0 as int]@.push(id));
            assert(lists1[lhs.0 as int]@[lists0[lhs.0 as int]@.len() as int] == id);
        }
        if lhs != rhs {
            let mut incident = self.term_atoms[rhs.index()].clone();
            incident.push(id);
            self.term_atoms.set(rhs.index(), incident);
            proof {
                assert(self.term_atoms@[rhs.0 as int]@ =~= lists1[rhs.0 as int]@.push(id));
                assert(self.term_atoms@[rhs.0 as int]@[lists1[rhs.0 as int]@.len() as int] == id);
            }
        }
        proof {
            let lists2 = self.term_atoms@;
            let w = old(self)@;
            assert(self.applications() =~= old(self).applications());
            assert(self.atoms.lists() =~= self.atom_ends@.map_values(
                |a: (TermId, TermId)| seq![a.0.0, a.1.0],
            ));
            assert(self@ =~= (RegistryView { atoms: w.atoms.push(ends), ..w }));
            let v = self@;
            assert(v.atoms.no_duplicates());
            assert forall|t: int| 0 <= t < v.terms.len() implies #[trigger] v.well_sorted(t) by {
                assert(w.well_sorted(t));
            }
            assert forall|a: int| 0 <= a < v.atoms.len() implies (#[trigger] v.atoms[a]).0.0
                <= v.atoms[a].1.0 < v.terms.len() by {
                if a < olds.len() {
                    assert(v.atoms[a] == w.atoms[a]);
                }
            }
            assert(v.canonical());
            assert forall|t: int, a: TheoryAtomId| 0 <= t < lists0.len() && #[trigger] lists0[t]@.contains(
                a,
            ) implies lists2[t]@.contains(a) by {
                let i = choose|i: int| 0 <= i < lists0[t]@.len() && lists0[t]@[i] == a;
                assert(lists1[t]@[i] == a);
                assert(lists2[t]@[i] == a);
            }
            assert(lists2[lhs.0 as int]@.contains(id)) by {
                assert(lists2[lhs.0 as int]@[lists0[lhs.0 as int]@.len() as int] == id);
            }
            assert(lists2[rhs.0 as int]@.contains(id));
            assert forall|t: int, i: int|
                0 <= t < lists2.len() && 0 <= i < lists2[t].len() implies self.is_incident(
                t,
                #[trigger] lists2[t][i],
            ) by {
                if i < lists0[t]@.len() {
                    assert(lists2[t][i] == lists0[t][i]);
                    assert(old(self).is_incident(t, lists0[t][i]));
                } else {
                    assert(lists2[t][i] == id);
                }
            }
            assert forall|a: int| 0 <= a < self.atom_ends.len() implies {
                let ends = #[trigger] self.atom_ends[a];
                &&& lists2[ends.0.0 as int]@.contains(TheoryAtomId(a as u32))
                &&& lists2[ends.1.0 as int]@.contains(TheoryAtomId(a as u32))
            } by {
                if a < olds.len() {
                    assert(self.atom_ends[a] == old(self).atom_ends[a]);
                    assert(w.atoms[a] == self.atom_ends[a]);
                    assert(lists0[self.atom_ends[a].0.0 as int]@.contains(TheoryAtomId(a as u32)));
                }
            }
            assert forall|t: int, i: int|
                0 <= t < self.parent_apps.len() && 0 <= i < self.parent_apps[t].len() implies self.is_parent(
            t, #[trigger] self.parent_apps[t][i]) by {
                assert(old(self).is_parent(t, old(self).parent_apps[t][i]));
                let p = self.parent_apps[t][i];
                let k = choose|k: int|
                    0 <= k < old(self).term_args[p.0 as int].len() && (#[trigger] old(self).term_args[p.0 as int][k]).0 == t;
                assert(self.term_args[p.0 as int][k].0 == t);
            }
        }
        id
    }

    /// Finds the canonical equality atom of two terms.
    pub fn find_atom(&self, lhs: TermId, rhs: TermId) -> (found: Option<TheoryAtomId>)
        requires
            self.wf(),
        ensures
            found matches Some(atom) ==> atom.0 < self@.atoms.len() && self@.atoms[atom.0 as int]
                == ordered(lhs, rhs),
            found is None ==> !self@.atoms.contains(ordered(lhs, rhs)),
    {
        let (first, second) = if rhs.0 < lhs.0 {
            (rhs, lhs)
        } else {
            (lhs, rhs)
        };
        let mut key: Vec<u32> = Vec::new();
        key.push(first.0);
        key.push(second.0);
        let ghost lists = self.atoms.lists();
        let ghost ends = self.atom_ends@;
        proof {
            assert(key@ =~= seq![first.0, second.0]);
        }
        match self.atoms.find(&key) {
            Some(id) => {
                proof {
                    let a = id as int;
                    assert(lists[a] == seq![ends[a].0.0, ends[a].1.0]);
                    assert(lists[a][0] == first.0 && lists[a][1] == second.0);
                }
                Some(TheoryAtomId(id))
            },
            None => {
                proof {
                    if ends.contains((first, second)) {
                        let i = choose|i: int| 0 <= i < ends.len() && ends[i] == (first, second);
                        assert(lists[i] == key@);
                        assert(lists.contains(key@));
                    }
                }
                None
            },
        }
    }

    /// Returns the argument sorts of one symbol.
    pub fn symbol_arg_sorts(&self, symbol: SymbolId) -> (sorts: &[SortId])
        requires
            self.wf(),
            symbol.0 < self@.symbols.len(),
        ensures
            sorts@ == self@.symbols[symbol.0 as int].arg_sorts,
    {
        proof {
            assert(self.symbol_views@[symbol.0 as int] == self@.symbols[symbol.0 as int]);
        }
        self.symbol_args[symbol.index()].as_slice()
    }

    /// Returns one borrowed view over the canonical term.
    pub fn term_ref(&self, term: TermId) -> (view: TermRef<'_>)
        requires
            self.wf(),
            term.0 < self@.terms.len(),
        ensures
            application(view.fun, view.args@) == self@.terms[term.0 as int],
            view.fun.0 < self@.symbols.len(),
            forall|k: int| 0 <= k < view.args@.len() ==> (#[trigger] view.args@[k]).0 < term.0,
    {
        let view = TermRef {
            fun: self.term_funs[term.index()],
            args: self.term_args[term.index()].as_slice(),
        };
        proof {
            let tv = self@.terms[term.0 as int];
            assert(self@.well_sorted(term.0 as int));
            assert forall|k: int| 0 <= k < view.args@.len() implies (#[trigger] view.args@[k]).0
                < term.0 by {
                assert(tv.args[k] == view.args@[k].0);
            }
        }
        view
    }

    /// Returns one view over the canonical atom.
    pub fn atom_ref(&self, atom: TheoryAtomId) -> (view: AtomRef)
        requires
            self.wf(),
            atom.0 < self@.atoms.len(),
        ensures
            view == AtomRef::Eq(self@.atoms[atom.0 as int].0, self@.atoms[atom.0 as int].1),
    {
        let ends = self.atom_ends[atom.index()];
        AtomRef::Eq(ends.0, ends.1)
    }

    /// Returns the number of canonical terms.
    pub fn num_terms(&self) -> (n: usize)
        requires
            self.wf(),
        ensures
            n == self@.terms.len(),
    {
        self.term_args.len()
    }

    /// Returns the number of canonical atoms.
    pub fn num_atoms(&self) -> (n: usize)
        requires
            self.wf(),
        ensures
            n == self@.atoms.len(),
    {
        self.atom_ends.len()
    }

    /// Returns the number of canonical symbols.
    pub fn num_symbols(&self) -> (n: usize)
        requires
            self.wf(),
        ensures
            n == self@.symbols.len(),
    {
        proof {
            assert(self.symbols.lists().len() == self.symbol_views@.len());
        }
        self.symbols.len()
    }

    /// Returns the number of canonical sorts.
    pub fn num_sorts(&self) -> (n: usize)
        requires
            self.wf(),
        ensures
            n == self@.sorts.len(),
    {
        proof {
            assert(self.sorts.lists().len() == self.sort_views@.len());
        }
        self.sorts.len()
    }

    /// Returns the sort of one interned term.
    pub fn term_sort(&self, term: TermId) -> (sort: SortId)
        requires
            self.wf(),
            term.0 < self@.terms.len(),
        ensures
            sort == self@.term_sorts[term.0 as int],
    {
        self.term_sorts[term.index()]
    }

    /// Returns the permanent incidence list for `term`: the atoms with `term` as an endpoint.
    pub fn term_atoms(&self, term: TermId) -> (atoms: &[TheoryAtomId])
        requires
            self.wf(),
            term.0 < self@.terms.len(),
        ensures
            forall|i: int|
                0 <= i < atoms@.len() ==> (#[trigger] atoms@[i]).0 < self@.atoms.len() && {
                    ||| self@.atoms[atoms@[i].0 as int].0 == term
                    ||| self@.atoms[atoms@[i].0 as int].1 == term
                },
            forall|a: int|
                0 <= a < self@.atoms.len() && ((#[trigger] self@.atoms[a]).0 == term
                    || self@.atoms[a].1 == term) ==> atoms@.contains(TheoryAtomId(a as u32)),
    {
        let atoms = self.term_atoms[term.index()].as_slice();
        proof {
            assert forall|i: int| 0 <= i < atoms@.len() implies (#[trigger] atoms@[i]).0
                < self@.atoms.len() && {
                ||| self@.atoms[atoms@[i].0 as int].0 == term
                ||| self@.atoms[atoms@[i].0 as int].1 == term
            } by {
                assert(self.is_incident(term.0 as int, self.term_atoms[term.0 as int][i]));
            }
            assert forall|a: int|
                0 <= a < self@.atoms.len() && ((#[trigger] self@.atoms[a]).0 == term
                    || self@.atoms[a].1 == term) implies atoms@.contains(TheoryAtomId(a as u32)) by {
                assert(self.atom_ends[a] == self@.atoms[a]);
            }
        }
        atoms
    }

    /// Returns the permanent structural parent list for `term`: the applications that have `term`
    /// as an argument.
    pub fn parent_apps(&self, term: TermId) -> (parents: &[TermId])
        requires
            self.wf(),
            term.0 < self@.terms.len(),
        ensures
            forall|i: int|
                0 <= i < parents@.len() ==> (#[trigger] parents@[i]).0 < self@.terms.len()
                    && self@.terms[parents@[i].0 as int].args.contains(term.0 as int),
            forall|p: int|
                0 <= p < self@.terms.len() && (#[trigger] self@.terms[p]).args.contains(
                    term.0 as int,
                ) ==> parents@.contains(TermId(p as u32)),
    {
        let parents = self.parent_apps[term.index()].as_slice();
        proof {
            assert forall|i: int| 0 <= i < parents@.len() implies (#[trigger] parents@[i]).0
                < self@.terms.len() && self@.terms[parents@[i].0 as int].args.contains(
                term.0 as int,
            ) by {
                assert(self.is_parent(term.0 as int, self.parent_apps[term.0 as int][i]));
                let p = parents@[i].0 as int;
                let k = choose|k: int|
                    0 <= k < self.term_args[p].len() && (#[trigger] self.term_args[p][k]).0 == term.0;
                assert(self@.terms[p].args[k] == term.0);
            }
            assert forall|p: int|
                0 <= p < self@.terms.len() && (#[trigger] self@.terms[p]).args.contains(
                    term.0 as int,
                ) implies parents@.contains(TermId(p as u32)) by {
                let k = choose|k: int|
                    0 <= k < self@.terms[p].args.len() && self@.terms[p].args[k] == term.0;
                assert(self.term_args[p][k].0 == term.0);
            }
        }
        parents
    }
}

proof fn lemma_application_injective(f: SymbolId, a: Seq<TermId>, g: SymbolId, b: Seq<TermId>)
    requires
        application(f, a) == application(g, b),
    ensures
        f == g,
        a == b,
{
    let x = application(f, a).args;
    let y = application(g, b).args;
    assert(x.len() == a.len() && y.len() == b.len());
    assert forall|i: int| 0 <= i < a.len() implies a[i] == b[i] by {
        assert(x[i] == a[i].0);
        assert(y[i] == b[i].0);
    }
    assert(a =~= b);
}

/// The link lists stay valid when terms, atoms and lists do.
proof fn lemma_links_same(a: &Registry, b: &Registry)
    requires
        a.wf(),
        a.term_args == b.term_args,
        a.atom_ends == b.atom_ends,
        a.parent_apps == b.parent_apps,
        a.term_atoms == b.term_atoms,
    ensures
        forall|t: int, i: int|
            0 <= t < b.parent_apps.len() && 0 <= i < b.parent_apps[t].len() ==> b.is_parent(
                t,
                #[trigger] b.parent_apps[t][i],
            ),
        forall|t: int, i: int|
            0 <= t < b.term_atoms.len() && 0 <= i < b.term_atoms[t].len() ==> b.is_incident(
                t,
                #[trigger] b.term_atoms[t][i],
            ),
{
    assert forall|t: int, i: int|
        0 <= t < b.parent_apps.len() && 0 <= i < b.parent_apps[t].len() implies b.is_parent(
        t,
        #[trigger] b.parent_apps[t][i],
    ) by {
        assert(a.is_parent(t, a.parent_apps[t][i]));
    }
    assert forall|t: int, i: int|
        0 <= t < b.term_atoms.len() && 0 <= i < b.term_atoms[t].len() implies b.is_incident(
        t,
        #[trigger] b.term_atoms[t][i],
    ) by {
        assert(a.is_incident(t, a.term_atoms[t][i]));
    }
}

} // verus!
