//! Tests of the arena of variable-length objects.

use mysolver::arena::{types_supported, Handle, Header, VarArena};

#[derive(Clone, Copy, Debug, PartialEq, Eq)]
struct Lit(u32);

#[derive(Clone, Copy, Debug, PartialEq)]
struct ClauseData {
    learned: bool,
    activity: f32,
}

type ClauseHeader = Header<ClauseData>;

fn header(len: usize, learned: bool) -> ClauseHeader {
    Header::new(len as u32, ClauseData { learned, activity: 0.0 })
}

#[test]
fn alloc_get_remove_compact() {
    let mut arena = VarArena::<ClauseHeader, Lit>::new();

    let a = arena.allocate(header(2, false), &[Lit(1), Lit(2)]);
    let b = arena.allocate(header(3, true), &[Lit(3), Lit(4), Lit(5)]);
    let c = arena.allocate(header(1, true), &[Lit(6)]);

    assert_eq!(arena.elems(a).unwrap(), &[Lit(1), Lit(2)]);
    assert_eq!(arena.elems(b).unwrap(), &[Lit(3), Lit(4), Lit(5)]);
    assert_eq!(arena.elems(c).unwrap(), &[Lit(6)]);

    assert!(arena.remove(b));
    assert!(arena.get(b).is_none());

    let reloc = arena.compact();

    let mut a2 = a;
    let mut b2 = b;
    let mut c2 = c;

    assert!(reloc.rewrite(&mut a2));
    assert!(!reloc.rewrite(&mut b2));
    assert!(reloc.rewrite(&mut c2));

    assert_eq!(arena.elems(a2).unwrap(), &[Lit(1), Lit(2)]);
    assert_eq!(arena.elems(c2).unwrap(), &[Lit(6)]);
}

#[test]
fn mutate_header_without_changing_length() {
    let mut arena = VarArena::<ClauseHeader, Lit>::new();
    let h = arena.allocate(header(2, true), &[Lit(10), Lit(20)]);

    arena
        .with_header_mut(h, |header| {
            let mut changed = header;
            changed.data.activity = 7.0;
            (changed, ())
        })
        .unwrap();

    assert_eq!(arena.get(h).unwrap().header().data.activity, 7.0);
}

#[test]
fn waste_is_counted_and_reclaimed() {
    let mut arena = VarArena::<ClauseHeader, Lit>::new();
    let a = arena.allocate(header(2, false), &[Lit(1), Lit(2)]);
    let used = arena.len_words();
    let b = arena.allocate(header(2, false), &[Lit(3), Lit(4)]);
    assert_eq!(arena.len_words(), 2 * used);
    assert_eq!(arena.wasted_words(), 0);
    assert!(arena.remove(a));
    assert!(!arena.remove(a));
    assert_eq!(arena.wasted_words(), used);
    assert!(!arena.contains(a));
    assert!(arena.contains(b));
    let reloc = arena.compact();
    assert_eq!(arena.wasted_words(), 0);
    assert_eq!(arena.len_words(), used);
    let moved = reloc.get(b).unwrap();
    assert_eq!(arena.elems(moved).unwrap(), &[Lit(3), Lit(4)]);
    assert!(reloc.get(a).is_none());
}

#[test]
fn elements_can_be_changed_in_place() {
    let mut arena = VarArena::<ClauseHeader, Lit>::new();
    let a = arena.allocate(header(2, false), &[Lit(1), Lit(2)]);
    let b = arena.allocate(header(1, false), &[Lit(9)]);
    arena.elems_mut(a).unwrap()[1] = Lit(7);
    assert_eq!(arena.elems(a).unwrap(), &[Lit(1), Lit(7)]);
    assert_eq!(arena.elems(b).unwrap(), &[Lit(9)]);
    let mut handles = arena.handles();
    assert_eq!(handles.next(), Some(a));
    assert_eq!(handles.next(), Some(b));
    assert_eq!(handles.next(), None);
}

#[test]
fn the_invalid_handle_names_nothing() {
    assert!(types_supported::<ClauseHeader, Lit>());
    let mut arena = VarArena::<ClauseHeader, Lit>::new();
    let none = Handle::none();
    assert!(none.is_invalid());
    assert_eq!(none.raw(), u32::MAX);
    assert!(arena.get(none).is_none());
    assert!(!arena.remove(none));
    arena.allocate(header(1, false), &[Lit(9)]);
    arena.clear();
    assert_eq!(arena.len_words(), 0);
}
