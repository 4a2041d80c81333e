//! Arena of objects with a fixed header and a variable number of elements.
//!
//! Objects are laid out one after another in machine words and are named by the word at which they
//! start. Removing an object only marks it; compaction moves the live objects together and says where
//! each of them went.

use vstd::layout::{align_of, layout_for_type_is_valid, layout_of_primitives, size_of};
use vstd::prelude::*;

verus! {

broadcast use layout_of_primitives;

/// Names one object of an arena.
#[derive(Clone, Copy, PartialEq, Eq, Hash, PartialOrd, Ord, Debug, Structural)]
pub struct Handle(u32);

impl Handle {
    /// The word at which the object starts.
    pub closed spec fn word(self) -> int {
        self.0 as int
    }

    /// The handle names no object.
    pub open spec fn invalid(self) -> bool {
        self.word() == u32::MAX
    }

    /// Returns the handle that names no object.
    pub fn none() -> (handle: Self)
        ensures
            handle.invalid(),
    {
        Handle(u32::MAX)
    }

    /// Returns the number behind the handle.
    pub fn raw(self) -> (raw: u32)
        ensures
            raw == self.word(),
    {
        self.0
    }

    /// Returns whether the handle names no object.
    pub fn is_invalid(self) -> (answer: bool)
        ensures
            answer == self.invalid(),
    {
        self.0 == u32::MAX
    }
}

/// The header of an object: its length and whether it has been removed.
pub trait VarHeader: Copy {
    /// Number of elements.
    spec fn size(&self) -> nat;

    /// The object has been removed.
    spec fn gone(&self) -> bool;

    /// Returns the number of elements.
    fn len(&self) -> (n: usize)
        ensures
            n == self.size(),
    ;

    /// Returns whether the object has been removed.
    fn is_deleted(&self) -> (deleted: bool)
        ensures
            deleted == self.gone(),
    ;

    /// Marks the object as removed or not.
    fn set_deleted(&mut self, deleted: bool)
        ensures
            final(self).size() == old(self).size(),
            final(self).gone() == deleted,
    ;
}

/// A header that holds a length, a removal mark and the owner's own data.
#[derive(Debug, Clone, Copy, PartialEq, Eq)]
pub struct Header<T: Copy> {
    /// Number of elements.
    pub len: u32,
    /// The object has been removed.
    pub deleted: bool,
    /// The owner's data.
    pub data: T,
}

impl<T: Copy> Header<T> {
    /// Creates the header of a live object of `len` elements.
    pub fn new(len: u32, data: T) -> (header: Self)
        ensures
            header.size() == len,
            !header.gone(),
            header.data == data,
    {
        Header { len, deleted: false, data }
    }
}

impl<T: Copy> VarHeader for Header<T> {
    open spec fn size(&self) -> nat {
        self.len as nat
    }

    open spec fn gone(&self) -> bool {
        self.deleted
    }

    fn len(&self) -> (n: usize) {
        self.len as usize
    }

    fn is_deleted(&self) -> (deleted: bool) {
        self.deleted
    }

    fn set_deleted(&mut self, deleted: bool) {
        self.deleted = deleted;
    }
}

/// Where the elements of an object start, and how many words it takes.
#[derive(Clone, Copy, Debug)]
pub struct ObjLayout {
    /// Byte offset of the first element.
    pub tail_offset: usize,
    /// Number of words.
    pub words: usize,
}

/// The least multiple of `align` that is not below `value`.
pub open spec fn aligned(value: nat, align: nat) -> nat {
    ((value + align - 1) as nat / align) * align
}

/// The types can be laid out in an arena.
pub open spec fn types_ok<H, E>() -> bool {
    &&& 0 < size_of::<H>()
    &&& 0 < size_of::<E>()
    &&& 0 < align_of::<H>() <= align_of::<usize>()
    &&& 0 < align_of::<E>() <= align_of::<usize>()
}

/// Number of bytes before the first element.
pub open spec fn tail_offset<H, E>() -> nat {
    aligned(size_of::<H>(), align_of::<E>())
}

/// Number of bytes of an object with `len` elements.
#[verifier::opaque]
pub open spec fn object_bytes<H, E>(len: nat) -> nat {
    tail_offset::<H, E>() + len * size_of::<E>()
}

/// Number of words of an object with `len` elements.
#[verifier::opaque]
pub open spec fn object_words<H, E>(len: nat) -> nat {
    aligned(object_bytes::<H, E>(len), size_of::<usize>()) / size_of::<usize>()
}

/// Rounding up gives a multiple that is less than one step above the value.
pub proof fn lemma_aligned(value: nat, align: nat)
    requires
        align > 0,
    ensures
        aligned(value, align) % align == 0,
        value <= aligned(value, align) < value + align,
{
    let q = (value + align - 1) as nat / align;
    assert(q * align % align == 0) by (nonlinear_arith)
        requires
            align > 0,
    ;
    assert(value <= q * align < value + align) by (nonlinear_arith)
        requires
            align > 0,
            q == (value + align - 1) as nat / align,
    ;
}

/// Rounds `value` up to a multiple of `align`.
pub fn align_up(value: usize, align: usize) -> (result: usize)
    requires
        align > 0,
        value + align <= usize::MAX,
    ensures
        result == aligned(value as nat, align as nat),
{
    proof {
        lemma_aligned(value as nat, align as nat);
    }
    let q = (value + (align - 1)) / align;
    q * align
}

/// Returns the layout of an object with `len` elements.
pub fn layout_for<H, E>(len: usize) -> (layout: ObjLayout)
    requires
        types_ok::<H, E>(),
        object_bytes::<H, E>(len as nat) + size_of::<usize>() <= usize::MAX,
    ensures
        layout.tail_offset == tail_offset::<H, E>(),
        layout.words == object_words::<H, E>(len as nat),
        layout.words > 0,
{
    layout_for_type_is_valid::<usize>();
    proof {
        reveal(object_bytes);
        reveal(object_words);
        lemma_aligned(size_of::<H>(), align_of::<E>());
        lemma_words::<H, E>(len as nat);
        let word = size_of::<usize>();
        let unit = align_of::<usize>();
        assert(unit <= word) by (nonlinear_arith)
            requires
                word > 0,
                unit > 0,
                word % unit == 0,
        ;
        assert(len * size_of::<E>() >= 0);
    }
    let tail_offset = align_up(core::mem::size_of::<H>(), core::mem::align_of::<E>());
    let size = core::mem::size_of::<E>();
    proof {
        assert(len * size <= object_bytes::<H, E>(len as nat));
    }
    let bytes = tail_offset + len * size;
    let word = core::mem::size_of::<usize>();
    let words = align_up(bytes, word) / word;
    ObjLayout { tail_offset, words }
}

/// Returns whether the types can be laid out in an arena.
pub fn types_supported<H, E>() -> (ok: bool)
    ensures
        ok == types_ok::<H, E>(),
{
    let unit = core::mem::align_of::<usize>();
    let h = core::mem::align_of::<H>();
    let e = core::mem::align_of::<E>();
    core::mem::size_of::<H>() > 0 && core::mem::size_of::<E>() > 0 && h > 0 && h <= unit && e > 0
        && e <= unit
}

/// Every object takes at least one word.
pub proof fn lemma_words<H, E>(len: nat)
    requires
        types_ok::<H, E>(),
    ensures
        object_words::<H, E>(len) > 0,
        object_bytes::<H, E>(len) <= object_words::<H, E>(len) * size_of::<usize>(),
{
    reveal(object_bytes);
    reveal(object_words);
    let word = size_of::<usize>();
    lemma_aligned(size_of::<H>(), align_of::<E>());
    let bytes = object_bytes::<H, E>(len);
    assert(len * size_of::<E>() >= 0);
    lemma_aligned(bytes, word);
    let up = aligned(bytes, word);
    assert(up > 0);
    assert(up / word * word == up && up / word > 0) by (nonlinear_arith)
        requires
            word > 0,
            up % word == 0,
            up > 0,
    ;
}

/// One object as a mathematical value.
#[verifier::ext_equal]
pub struct Object<H, E> {
    /// The header.
    pub header: H,
    /// The elements.
    pub elems: Seq<E>,
}

/// The number of words of the first `n` objects.
pub open spec fn offset<H, E>(objects: Seq<Object<H, E>>, n: nat) -> nat
    decreases n,
{
    if n == 0 {
        0
    } else {
        offset(objects, (n - 1) as nat) + object_words::<H, E>(objects[n - 1].elems.len())
    }
}

/// The number of words of the removed objects among the first `n`.
pub open spec fn waste<H: VarHeader, E>(objects: Seq<Object<H, E>>, n: nat) -> nat
    decreases n,
{
    if n == 0 {
        0
    } else {
        waste(objects, (n - 1) as nat) + if objects[n - 1].header.gone() {
            object_words::<H, E>(objects[n - 1].elems.len())
        } else {
            0
        }
    }
}

/// The live objects among the first `n`, in order.
pub open spec fn live<H: VarHeader, E>(objects: Seq<Object<H, E>>, n: nat) -> Seq<Object<H, E>>
    decreases n,
{
    if n == 0 {
        Seq::empty()
    } else if objects[n - 1].header.gone() {
        live(objects, (n - 1) as nat)
    } else {
        live(objects, (n - 1) as nat).push(objects[n - 1])
    }
}

/// Objects start at increasing words.
pub proof fn lemma_offset_increases<H, E>(objects: Seq<Object<H, E>>, i: nat, j: nat)
    requires
        types_ok::<H, E>(),
        i < j,
    ensures
        offset(objects, i) < offset(objects, j),
        offset(objects, i) + object_words::<H, E>(objects[i as int].elems.len()) <= offset(
            objects,
            j,
        ),
    decreases j,
{
    lemma_words::<H, E>(objects[j - 1].elems.len());
    lemma_words::<H, E>(objects[i as int].elems.len());
    if i < j - 1 {
        lemma_offset_increases(objects, i, (j - 1) as nat);
    }
}

/// Word counts of the first objects depend on their lengths alone.
proof fn lemma_offset_same<H, E>(a: Seq<Object<H, E>>, b: Seq<Object<H, E>>, n: nat)
    requires
        n <= a.len(),
        n <= b.len(),
        forall|i: int| 0 <= i < n ==> (#[trigger] a[i]).elems.len() == b[i].elems.len(),
    ensures
        offset(a, n) == offset(b, n),
    decreases n,
{
    if n > 0 {
        lemma_offset_same(a, b, (n - 1) as nat);
        assert(a[n - 1].elems.len() == b[n - 1].elems.len());
    }
}

proof fn lemma_waste_same<H: VarHeader, E>(a: Seq<Object<H, E>>, b: Seq<Object<H, E>>, n: nat)
    requires
        n <= a.len(),
        n <= b.len(),
        forall|i: int|
            0 <= i < n ==> (#[trigger] a[i]).elems.len() == b[i].elems.len() && a[i].header.gone()
                == b[i].header.gone(),
    ensures
        waste(a, n) == waste(b, n),
    decreases n,
{
    if n > 0 {
        lemma_waste_same(a, b, (n - 1) as nat);
        assert(a[n - 1].elems.len() == b[n - 1].elems.len());
    }
}

/// Marking one more object as removed adds its words to the waste.
proof fn lemma_waste_removed<H: VarHeader, E>(
    a: Seq<Object<H, E>>,
    b: Seq<Object<H, E>>,
    k: int,
    n: nat,
)
    requires
        n <= a.len(),
        a.len() == b.len(),
        0 <= k < a.len(),
        forall|i: int| 0 <= i < a.len() && i != k ==> #[trigger] a[i] == b[i],
        a[k].elems == b[k].elems,
        !a[k].header.gone(),
        b[k].header.gone(),
    ensures
        waste(b, n) == waste(a, n) + if k < n {
            object_words::<H, E>(a[k].elems.len())
        } else {
            0
        },
    decreases n,
{
    if n > 0 {
        lemma_waste_removed(a, b, k, (n - 1) as nat);
        if n - 1 != k {
            assert(a[n - 1] == b[n - 1]);
        }
    }
}

/// Live and removed objects together take all words.
proof fn lemma_waste_live<H: VarHeader, E>(objects: Seq<Object<H, E>>, n: nat)
    requires
        n <= objects.len(),
    ensures
        offset(live(objects, n), live(objects, n).len()) + waste(objects, n) == offset(objects, n),
    decreases n,
{
    if n > 0 {
        lemma_waste_live(objects, (n - 1) as nat);
        let before = live(objects, (n - 1) as nat);
        let after = live(objects, n);
        if !objects[n - 1].header.gone() {
            lemma_offset_same(before, after, before.len());
        }
    }
}

/// The live objects among fewer objects are fewer.
pub proof fn lemma_live_len<H: VarHeader, E>(objects: Seq<Object<H, E>>, m: nat, n: nat)
    requires
        m <= n,
    ensures
        live(objects, m).len() <= live(objects, n).len(),
        m < n && !objects[m as int].header.gone() ==> live(objects, m).len() < live(
            objects,
            n,
        ).len() && live(objects, n)[live(objects, m).len() as int] == objects[m as int],
    decreases n,
{
    if m < n {
        lemma_live_len(objects, m, (n - 1) as nat);
    }
}

/// The place of an object does not change when a later one is placed.
proof fn lemma_place_kept<H: VarHeader, E>(objects: Seq<Object<H, E>>, j: nat, i: nat)
    requires
        j <= i < objects.len(),
        !objects[i as int].header.gone(),
    ensures
        offset(live(objects, (i + 1) as nat), live(objects, j).len()) == offset(
            live(objects, i),
            live(objects, j).len(),
        ),
{
    let kept = live(objects, i);
    let more = live(objects, (i + 1) as nat);
    assert(more == kept.push(objects[i as int]));
    lemma_live_len(objects, j, i);
    lemma_offset_same(kept, more, live(objects, j).len());
}

/// Live objects waste nothing.
pub proof fn lemma_live_waste<H: VarHeader, E>(objects: Seq<Object<H, E>>, n: nat)
    ensures
        waste(live(objects, n), live(objects, n).len()) == 0,
    decreases n,
{
    if n > 0 {
        lemma_live_waste(objects, (n - 1) as nat);
        let before = live(objects, (n - 1) as nat);
        let after = live(objects, n);
        if !objects[n - 1].header.gone() {
            lemma_waste_same(before, after, before.len());
        }
    }
}

/// A borrowed object.
pub struct ObjRef<'a, H, E> {
    header: &'a H,
    elems: &'a [E],
}

impl<'a, H, E> ObjRef<'a, H, E> {
    /// The object.
    pub closed spec fn object(&self) -> Object<H, E> {
        Object { header: *self.header, elems: self.elems@ }
    }

    /// Returns the header.
    pub fn header(&self) -> (header: &'a H)
        ensures
            *header == self.object().header,
    {
        self.header
    }

    /// Returns the elements.
    pub fn elems(&self) -> (elems: &'a [E])
        ensures
            elems@ == self.object().elems,
    {
        self.elems
    }

    /// Returns the number of elements.
    pub fn len(&self) -> (n: usize)
        ensures
            n == self.object().elems.len(),
    {
        self.elems.len()
    }

    /// Returns whether there are no elements.
    pub fn is_empty(&self) -> (answer: bool)
        ensures
            answer == (self.object().elems.len() == 0),
    {
        self.elems.len() == 0
    }
}

/// Says where compaction has moved each object.
pub struct RelocMap {
    map: Vec<u32>,
}

/// Stands for an object that is gone.
const DEAD: u32 = 0xFFFF_FFFF;

impl RelocMap {
    /// Where the object that started at `word` starts now.
    pub closed spec fn target(&self, word: int) -> Option<int> {
        if 0 <= word < self.map@.len() && self.map@[word] != DEAD {
            Some(self.map@[word] as int)
        } else {
            None
        }
    }

    /// Returns the new handle of an object, unless it is gone.
    pub fn get(&self, old_handle: Handle) -> (new: Option<Handle>)
        ensures
            match new {
                Some(handle) => self.target(old_handle.word()) == Some(handle.word()),
                None => self.target(old_handle.word()) is None,
            },
    {
        let word = old_handle.0 as usize;
        if word < self.map.len() {
            let raw = self.map[word];
            if raw != DEAD {
                return Some(Handle(raw));
            }
        }
        None
    }

    /// Replaces a handle by the new one, and returns whether the object is still there.
    pub fn rewrite(&self, handle: &mut Handle) -> (kept: bool)
        ensures
            match self.target(old(handle).word()) {
                Some(word) => kept && final(handle).word() == word,
                None => !kept && *final(handle) == *old(handle),
            },
    {
        match self.get(*handle) {
            Some(new) => {
                *handle = new;
                true
            },
            None => false,
        }
    }
}

/// One stored object.
struct Record<H, E> {
    /// Word at which the object starts.
    start: usize,
    /// The header.
    header: H,
    /// The elements.
    elems: Vec<E>,
}

/// The map says where the live objects among the first `i` have gone, and nothing else.
spec fn placed<H: VarHeader, E>(
    records: Seq<Record<H, E>>,
    starts: Seq<Option<usize>>,
    objects: Seq<Object<H, E>>,
    map: Seq<u32>,
    i: int,
) -> bool {
    &&& forall|w: int|
        0 <= w < map.len() && #[trigger] map[w] != DEAD ==> {
            &&& starts[w] is Some
            &&& (starts[w]->0) < i
            &&& !objects[starts[w]->0 as int].header.gone()
        }
    &&& forall|j: int|
        0 <= j < i && !(#[trigger] objects[j]).header.gone() ==> map[records[j].start as int]
            == offset(live(objects, i as nat), live(objects, j as nat).len())
}

/// Arena of objects with a header and a variable number of elements.
pub struct VarArena<H: VarHeader, E: Copy> {
    /// Objects in layout order.
    records: Vec<Record<H, E>>,
    /// For every word the object that starts there, if one does.
    starts: Vec<Option<usize>>,
    /// Words of removed objects.
    wasted_words: usize,
}

impl<H: VarHeader, E: Copy> VarArena<H, E> {
    /// All objects, removed ones too, in layout order.
    pub closed spec fn objects(&self) -> Seq<Object<H, E>> {
        self.records@.map_values(|r: Record<H, E>| Object { header: r.header, elems: r.elems@ })
    }

    /// The number of words that all objects take.
    pub open spec fn total(&self) -> nat {
        offset(self.objects(), self.objects().len())
    }

    /// Object `i` starts at word `word`.
    pub open spec fn starts_at(&self, i: int, word: int) -> bool {
        0 <= i < self.objects().len() && offset(self.objects(), i as nat) == word
    }

    /// Object `i` is named by the handle and has not been removed.
    pub open spec fn names(&self, handle: Handle, i: int) -> bool {
        self.starts_at(i, handle.word()) && !self.objects()[i].header.gone()
    }

    /// The handle names a live object.
    pub open spec fn is_live(&self, handle: Handle) -> bool {
        exists|i: int| self.names(handle, i)
    }

    /// Objects, start words and waste agree.
    pub closed spec fn wf(&self) -> bool {
        &&& types_ok::<H, E>()
        &&& self.total() < u32::MAX
        &&& self.starts@.len() == self.total()
        &&& self.wasted_words == waste(self.objects(), self.objects().len())
        &&& forall|i: int|
            0 <= i < self.records@.len() ==> {
                &&& (#[trigger] self.records@[i]).start == offset(self.objects(), i as nat)
                &&& self.records@[i].start < self.starts@.len()
                &&& self.starts@[self.records@[i].start as int] == Some(i as usize)
                &&& self.records@[i].header.size() == self.records@[i].elems@.len()
                &&& object_bytes::<H, E>(self.records@[i].elems@.len()) + size_of::<usize>()
                    <= usize::MAX
            }
        &&& forall|w: int|
            0 <= w < self.starts@.len() && (#[trigger] self.starts@[w]) is Some ==> {
                &&& self.starts@[w]->0 < self.records@.len()
                &&& self.records@[self.starts@[w]->0 as int].start == w
            }
    }

    /// What consistency says of the objects.
    pub proof fn lemma_wf(&self)
        requires
            self.wf(),
        ensures
            types_ok::<H, E>(),
            self.total() < u32::MAX,
            forall|i: int|
                0 <= i < self.objects().len() ==> (#[trigger] self.objects()[i]).header.size()
                    == self.objects()[i].elems.len(),
    {
        assert forall|i: int| 0 <= i < self.objects().len() implies (
        #[trigger] self.objects()[i]).header.size() == self.objects()[i].elems.len() by {
            assert(self.records@[i].header.size() == self.records@[i].elems@.len());
        }
    }

    /// A handle names at most one object.
    pub proof fn lemma_unique(&self, word: int, i: int, j: int)
        requires
            self.wf(),
            self.starts_at(i, word),
            self.starts_at(j, word),
        ensures
            i == j,
    {
        if i < j {
            lemma_offset_increases(self.objects(), i as nat, j as nat);
        }
        if j < i {
            lemma_offset_increases(self.objects(), j as nat, i as nat);
        }
    }

    /// Creates an empty arena.
    pub fn new() -> (arena: Self)
        requires
            types_ok::<H, E>(),
        ensures
            arena.wf(),
            arena.objects() == Seq::<Object<H, E>>::empty(),
    {
        let arena = VarArena { records: Vec::new(), starts: Vec::new(), wasted_words: 0 };
        proof {
            assert(arena.objects() =~= Seq::<Object<H, E>>::empty());
        }
        arena
    }

    /// Creates an empty arena with room for a number of words.
    pub fn with_capacity_words(capacity_words: usize) -> (arena: Self)
        requires
            types_ok::<H, E>(),
        ensures
            arena.wf(),
            arena.objects() == Seq::<Object<H, E>>::empty(),
    {
        let arena = VarArena {
            records: Vec::new(),
            starts: Vec::with_capacity(capacity_words),
            wasted_words: 0,
        };
        proof {
            assert(arena.objects() =~= Seq::<Object<H, E>>::empty());
        }
        arena
    }

    /// Returns the number of words in use.
    pub fn len_words(&self) -> (n: usize)
        requires
            self.wf(),
        ensures
            n == self.total(),
    {
        self.starts.len()
    }

    /// Returns the number of words of removed objects.
    pub fn wasted_words(&self) -> (n: usize)
        requires
            self.wf(),
        ensures
            n == waste(self.objects(), self.objects().len()),
    {
        self.wasted_words
    }

    /// Returns whether a third or more of the words is wasted.
    pub fn should_compact(&self) -> (answer: bool)
        requires
            self.wf(),
        ensures
            answer == (3 * waste(self.objects(), self.objects().len()) >= self.total()),
    {
        match self.wasted_words.checked_mul(3) {
            Some(tripled) => tripled >= self.starts.len(),
            None => true,
        }
    }

    /// Drops all objects.
    pub fn clear(&mut self)
        requires
            old(self).wf(),
        ensures
            final(self).wf(),
            final(self).objects() == Seq::<Object<H, E>>::empty(),
    {
        self.records.clear();
        self.starts.clear();
        self.wasted_words = 0;
        proof {
            assert(self.objects() =~= Seq::<Object<H, E>>::empty());
        }
    }

    /// Finds the object that starts at the word of a handle.
    fn find(&self, handle: Handle) -> (found: Option<usize>)
        requires
            self.wf(),
        ensures
            found matches Some(i) ==> self.starts_at(i as int, handle.word()),
            found is None ==> forall|i: int| !self.starts_at(i, handle.word()),
    {
        let word = handle.0 as usize;
        let found = if word < self.starts.len() {
            self.starts[word]
        } else {
            None
        };
        proof {
            if found is None {
                assert forall|i: int| !self.starts_at(i, handle.word()) by {
                    if self.starts_at(i, handle.word()) {
                        assert(self.records@[i].start == handle.word());
                    }
                }
            } else {
                assert(self.starts@[word as int] is Some);
                assert(self.records@[found->0 as int].start == word);
            }
        }
        found
    }

    /// Adds one object after all others and returns its handle.
    pub fn allocate(&mut self, header: H, elems: &[E]) -> (handle: Handle)
        requires
            old(self).wf(),
            !header.gone(),
            header.size() == elems@.len(),
            object_bytes::<H, E>(elems@.len()) + size_of::<usize>() <= usize::MAX,
            old(self).total() + object_words::<H, E>(elems@.len()) < u32::MAX,
        ensures
            final(self).wf(),
            final(self).objects() == old(self).objects().push(Object { header, elems: elems@ }),
            handle.word() == old(self).total(),
            final(self).names(handle, old(self).objects().len() as int),
    {
        let ghost before = self.objects();
        let layout = layout_for::<H, E>(elems.len());
        let start = self.starts.len();
        let index = self.records.len();
        let mut copy: Vec<E> = Vec::new();
        let mut i: usize = 0;
        while i < elems.len()
            invariant
                0 <= i <= elems@.len(),
                copy@ == elems@.take(i as int),
            decreases elems@.len() - i,
        {
            copy.push(elems[i]);
            proof {
                assert(elems@.take(i as int + 1) =~= elems@.take(i as int).push(elems@[i as int]));
            }
            i += 1;
        }
        proof {
            assert(elems@.take(i as int) =~= elems@);
        }
        let ghost starts0 = self.starts@;
        self.starts.push(Some(index));
        let mut k: usize = 1;
        while k < layout.words
            invariant
                1 <= k <= layout.words,
                start + layout.words < u32::MAX,
                starts0.len() == start,
                self.starts@.len() == start + k,
                self.records == old(self).records,
                self.wasted_words == old(self).wasted_words,
                forall|w: int|
                    0 <= w < self.starts@.len() ==> #[trigger] self.starts@[w] == if w < start {
                        starts0[w]
                    } else if w == start {
                        Some(index)
                    } else {
                        None
                    },
            decreases layout.words - k,
        {
            self.starts.push(None);
            k += 1;
        }
        self.records.push(Record { start, header, elems: copy });
        proof {
            let after = self.objects();
            assert(after =~= before.push(Object { header, elems: elems@ }));
            let n = before.len();
            assert forall|i: nat| i <= n implies #[trigger] offset(after, i) == offset(before, i) by {
                lemma_offset_same(before, after, i);
            }
            lemma_waste_same(before, after, n);
            assert(offset(after, n) == offset(before, n));
            assert forall|i: int| 0 <= i < self.records@.len() implies {
                &&& (#[trigger] self.records@[i]).start == offset(after, i as nat)
                &&& self.records@[i].start < self.starts@.len()
                &&& self.starts@[self.records@[i].start as int] == Some(i as usize)
                &&& self.records@[i].header.size() == self.records@[i].elems@.len()
                &&& object_bytes::<H, E>(self.records@[i].elems@.len()) + size_of::<usize>()
                    <= usize::MAX
            } by {
                if i < n {
                    assert(self.records@[i] == old(self).records@[i]);
                    assert(offset(after, i as nat) == offset(before, i as nat));
                }
            }
            assert forall|w: int|
                0 <= w < self.starts@.len() && (#[trigger] self.starts@[w]) is Some implies {
                &&& self.starts@[w]->0 < self.records@.len()
                &&& self.records@[self.starts@[w]->0 as int].start == w
            } by {
                if w < start {
                    assert(old(self).starts@[w] is Some);
                    assert(self.records@[self.starts@[w]->0 as int] == old(self).records@[self.starts@[w]->0 as int]);
                }
            }
        }
        Handle(start as u32)
    }

    /// Returns whether the handle names a live object.
    pub fn contains(&self, handle: Handle) -> (answer: bool)
        requires
            self.wf(),
        ensures
            answer == self.is_live(handle),
    {
        self.get(handle).is_some()
    }

    /// Returns the live object that the handle names.
    pub fn get(&self, handle: Handle) -> (found: Option<ObjRef<'_, H, E>>)
        requires
            self.wf(),
        ensures
            found is Some <==> self.is_live(handle),
            found matches Some(obj) ==> forall|i: int| #[trigger]
                self.names(handle, i) ==> obj.object() == self.objects()[i],
    {
        match self.find(handle) {
            None => {
                proof {
                    assert forall|i: int| !self.names(handle, i) by {
                        assert(!self.starts_at(i, handle.word()));
                    }
                }
                None
            },
            Some(i) => {
                proof {
                    assert forall|j: int| #[trigger] self.names(handle, j) implies j == i by {
                        self.lemma_unique(handle.word(), i as int, j);
                    }
                }
                if self.records[i].header.is_deleted() {
                    proof {
                        assert forall|j: int| !self.names(handle, j) by {
                            if self.names(handle, j) {
                                assert(j == i);
                            }
                        }
                    }
                    return None;
                }
                proof {
                    assert(self.names(handle, i as int));
                }
                let record = &self.records[i];
                Some(ObjRef { header: &record.header, elems: record.elems.as_slice() })
            },
        }
    }

    /// Returns the elements of the live object that the handle names.
    pub fn elems(&self, handle: Handle) -> (found: Option<&[E]>)
        requires
            self.wf(),
        ensures
            found is Some <==> self.is_live(handle),
            found matches Some(elems) ==> forall|i: int| #[trigger]
                self.names(handle, i) ==> elems@ == self.objects()[i].elems,
    {
        match self.get(handle) {
            None => None,
            Some(obj) => Some(obj.elems),
        }
    }

    /// Marks the live object that the handle names as removed, and returns whether there was one.
    pub fn remove(&mut self, handle: Handle) -> (removed: bool)
        requires
            old(self).wf(),
        ensures
            final(self).wf(),
            removed == old(self).is_live(handle),
            !removed ==> *final(self) == *old(self),
            final(self).objects().len() == old(self).objects().len(),
            final(self).total() == old(self).total(),
            !final(self).is_live(handle),
            forall|i: int|
                0 <= i < old(self).objects().len() ==> {
                    &&& (#[trigger] final(self).objects()[i]).elems == old(self).objects()[i].elems
                    &&& !old(self).names(handle, i) ==> final(self).objects()[i] == old(self).objects()[i]
                    &&& old(self).names(handle, i) ==> final(self).objects()[i].header.gone()
                },
    {
        let i = match self.find(handle) {
            None => {
                proof {
                    assert forall|j: int| !self.names(handle, j) by {
                        assert(!self.starts_at(j, handle.word()));
                    }
                }
                return false;
            },
            Some(i) => i,
        };
        proof {
            assert forall|j: int| #[trigger] self.starts_at(j, handle.word()) implies j == i by {
                self.lemma_unique(handle.word(), i as int, j);
            }
        }
        let mut header = self.records[i].header;
        if header.is_deleted() {
            proof {
                assert forall|j: int| !self.names(handle, j) by {
                    if self.names(handle, j) {
                        assert(j == i);
                    }
                }
            }
            return false;
        }
        let ghost before = self.objects();
        proof {
            assert(self.names(handle, i as int));
            self.lemma_record_fits(i as int);
        }
        let layout = layout_for::<H, E>(header.len());
        header.set_deleted(true);
        proof {
            lemma_waste_live(before, before.len());
            let gone = before.update(i as int, Object { header, elems: before[i as int].elems });
            lemma_waste_removed(before, gone, i as int, before.len());
            lemma_waste_live(gone, gone.len());
            lemma_offset_same(before, gone, before.len());
        }
        self.records[i].header = header;
        self.wasted_words = self.wasted_words + layout.words;
        proof {
            let object = Object { header, elems: before[i as int].elems };
            old(self).lemma_replaced(self, i as int, object);
            assert forall|j: int| !self.names(handle, j) by {
                if self.names(handle, j) {
                    assert(old(self).starts_at(j, handle.word()));
                    assert(j == i);
                }
            }
        }
        true
    }

    /// Returns the elements of the live object that the handle names, for changing them in place.
    pub fn elems_mut(&mut self, handle: Handle) -> (found: Option<&mut [E]>)
        requires
            old(self).wf(),
        ensures
            found is Some <==> old(self).is_live(handle),
            found is None ==> *final(self) == *old(self),
            found matches Some(elems) ==> {
                &&& forall|i: int| #[trigger]
                    old(self).names(handle, i) ==> elems@ == old(self).objects()[i].elems
                &&& final(elems)@.len() == elems@.len() ==> final(self).wf()
                &&& final(self).objects().len() == old(self).objects().len()
                &&& forall|i: int|
                    0 <= i < old(self).objects().len() ==> #[trigger] final(self).objects()[i]
                        == if old(self).names(handle, i) {
                        Object { header: old(self).objects()[i].header, elems: final(elems)@ }
                    } else {
                        old(self).objects()[i]
                    }
            },
    {
        let i = match self.find(handle) {
            None => {
                proof {
                    assert forall|j: int| !self.names(handle, j) by {
                        assert(!self.starts_at(j, handle.word()));
                    }
                }
                return None;
            },
            Some(i) => i,
        };
        proof {
            assert forall|j: int| #[trigger] self.starts_at(j, handle.word()) implies j == i by {
                self.lemma_unique(handle.word(), i as int, j);
            }
        }
        if self.records[i].header.is_deleted() {
            proof {
                assert forall|j: int| !self.names(handle, j) by {
                    if self.names(handle, j) {
                        assert(j == i);
                    }
                }
            }
            return None;
        }
        proof {
            assert(self.names(handle, i as int));
        }
        let ghost whole = *self;
        proof {
            let before = whole.objects();
            let len = before[i as int].elems.len();
            assert forall|new: Self, now: Seq<E>|
                now.len() == len && #[trigger] whole.changed_to(new, i as int, now) implies new.wf()
                && new.objects() == before.update(
                i as int,
                Object { header: before[i as int].header, elems: now },
            ) by {
                let object = Object { header: before[i as int].header, elems: now };
                lemma_waste_same(before, before.update(i as int, object), before.len());
                whole.lemma_replaced(&new, i as int, object);
            }
            assert forall|new: Self, now: Seq<E>| #[trigger]
                whole.changed_to(new, i as int, now) implies new.objects() == before.update(
                i as int,
                Object { header: before[i as int].header, elems: now },
            ) by {
                assert(new.objects() =~= before.update(
                    i as int,
                    Object { header: before[i as int].header, elems: now },
                ));
            }
        }
        let record = &mut self.records[i];
        let elems = record.elems.as_mut_slice();
        assert(whole.changed_to(after_borrow(*self), i as int, final(elems)@));
        Some(elems)
    }

    /// The new arena differs in the elements of one object only.
    spec fn changed_to(self, new: Self, i: int, now: Seq<E>) -> bool {
        &&& new.starts == self.starts
        &&& new.wasted_words == self.wasted_words
        &&& new.records@.len() == self.records@.len()
        &&& forall|j: int|
            0 <= j < self.records@.len() && j != i ==> #[trigger] new.records@[j]
                == self.records@[j]
        &&& new.records@[i].start == self.records@[i].start
        &&& new.records@[i].header == self.records@[i].header
        &&& new.records@[i].elems@ == now
    }

    /// Replacing the contents of one object by contents of the same size keeps the layout.
    proof fn lemma_replaced(&self, new: &Self, i: int, object: Object<H, E>)
        requires
            self.wf(),
            0 <= i < self.records@.len(),
            new.starts == self.starts,
            new.records@.len() == self.records@.len(),
            forall|j: int|
                0 <= j < self.records@.len() && j != i ==> #[trigger] new.records@[j]
                    == self.records@[j],
            new.records@[i].start == self.records@[i].start,
            new.records@[i].header == object.header,
            new.records@[i].elems@ == object.elems,
            object.elems.len() == self.records@[i].elems@.len(),
            object.header.size() == object.elems.len(),
            new.wasted_words == waste(
                self.objects().update(i, object),
                self.objects().len(),
            ),
        ensures
            new.wf(),
            new.objects() == self.objects().update(i, object),
            new.total() == self.total(),
            forall|j: int, w: int| #[trigger] new.starts_at(j, w) == self.starts_at(j, w),
    {
        let before = self.objects();
        let after = new.objects();
        assert(after =~= before.update(i, object)) by {
            assert forall|j: int| 0 <= j < before.len() implies after[j] == before.update(
                i,
                object,
            )[j] by {
                if j != i {
                    assert(new.records@[j] == self.records@[j]);
                }
            }
        }
        assert forall|k: nat| k <= before.len() implies #[trigger] offset(after, k) == offset(
            before,
            k,
        ) by {
            lemma_offset_same(before, after, k);
        }
        assert(offset(after, before.len()) == offset(before, before.len()));
        assert forall|j: int| 0 <= j < new.records@.len() implies {
            &&& (#[trigger] new.records@[j]).start == offset(after, j as nat)
            &&& new.records@[j].start < new.starts@.len()
            &&& new.starts@[new.records@[j].start as int] == Some(j as usize)
            &&& new.records@[j].header.size() == new.records@[j].elems@.len()
            &&& object_bytes::<H, E>(new.records@[j].elems@.len()) + size_of::<usize>()
                <= usize::MAX
        } by {
            assert(self.records@[j].start == offset(before, j as nat));
            assert(offset(after, j as nat) == offset(before, j as nat));
            if j != i {
                assert(new.records@[j] == self.records@[j]);
            }
        }
        assert forall|w: int|
            0 <= w < new.starts@.len() && (#[trigger] new.starts@[w]) is Some implies {
            &&& new.starts@[w]->0 < new.records@.len()
            &&& new.records@[new.starts@[w]->0 as int].start == w
        } by {
            assert(self.starts@[w] is Some);
            let j = self.starts@[w]->0 as int;
            if j != i {
                assert(new.records@[j] == self.records@[j]);
            }
        }
        assert forall|j: int, w: int| #[trigger] new.starts_at(j, w) == self.starts_at(j, w) by {
            if 0 <= j < before.len() {
                assert(offset(after, j as nat) == offset(before, j as nat));
            }
        }
    }

    /// The layout of a stored object can be computed again.
    proof fn lemma_record_fits(&self, i: int)
        requires
            self.wf(),
            0 <= i < self.objects().len(),
        ensures
            object_bytes::<H, E>(self.objects()[i].elems.len()) + size_of::<usize>() <= usize::MAX,
            object_words::<H, E>(self.objects()[i].elems.len()) <= self.total(),
    {
        let len = self.objects()[i].elems.len();
        let n = self.objects().len();
        lemma_offset_increases(self.objects(), i as nat, n);
        assert(self.records@[i].elems@.len() == len);
    }

    /// Lets `f` replace the header of the live object that the handle names.
    ///
    /// `f` gets the header, and returns the header to store together with a result for the caller.
    pub fn with_header_mut<R, F: FnOnce(H) -> (H, R)>(&mut self, handle: Handle, f: F) -> (result:
        Option<R>)
        requires
            old(self).wf(),
            forall|i: int| #[trigger]
                old(self).names(handle, i) ==> call_requires(f, (old(self).objects()[i].header,)),
            forall|i: int, next: H, r: R| #[trigger]
                old(self).names(handle, i) && #[trigger] call_ensures(
                    f,
                    (old(self).objects()[i].header,),
                    (next, r),
                ) ==> next.size() == old(self).objects()[i].header.size() && !next.gone(),
        ensures
            final(self).wf(),
            result is Some <==> old(self).is_live(handle),
            result is None ==> *final(self) == *old(self),
            final(self).objects().len() == old(self).objects().len(),
            forall|i: int|
                0 <= i < old(self).objects().len() && !old(self).names(handle, i) ==> #[trigger] final(self).objects()[i] == old(self).objects()[i],
            forall|i: int| #[trigger]
                old(self).names(handle, i) ==> {
                    &&& final(self).objects()[i].elems == old(self).objects()[i].elems
                    &&& call_ensures(
                        f,
                        (old(self).objects()[i].header,),
                        (final(self).objects()[i].header, result->0),
                    )
                },
    {
        let i = match self.find(handle) {
            None => {
                proof {
                    assert forall|j: int| !self.names(handle, j) by {
                        assert(!self.starts_at(j, handle.word()));
                    }
                }
                return None;
            },
            Some(i) => i,
        };
        proof {
            assert forall|j: int| #[trigger] self.starts_at(j, handle.word()) implies j == i by {
                self.lemma_unique(handle.word(), i as int, j);
            }
        }
        let header = self.records[i].header;
        if header.is_deleted() {
            proof {
                assert forall|j: int| !self.names(handle, j) by {
                    if self.names(handle, j) {
                        assert(j == i);
                    }
                }
            }
            return None;
        }
        let ghost before = self.objects();
        proof {
            assert(self.names(handle, i as int));
            assert(self.records@[i as int].header.size() == self.records@[i as int].elems@.len());
            assert(before[i as int].header == header);
        }
        let (next, result) = f(header);
        self.records[i].header = next;
        proof {
            let object = Object { header: next, elems: before[i as int].elems };
            lemma_waste_same(before, before.update(i as int, object), before.len());
            old(self).lemma_replaced(self, i as int, object);
            assert forall|j: int| #[trigger] old(self).names(handle, j) implies j == i by {
                assert(old(self).starts_at(j, handle.word()));
            }
        }
        Some(result)
    }

    /// Returns a cursor over the handles of all live objects.
    pub fn handles(&self) -> (handles: Handles<'_, H, E>)
        ensures
            handles.source() == *self,
            handles.position() == 0,
    {
        Handles { arena: self, cursor: 0 }
    }

    /// Moves the live objects together, in their order, and says where each of them went.
    #[verifier::rlimit(60)]
    #[verifier::spinoff_prover]
    pub fn compact(&mut self) -> (reloc: RelocMap)
        requires
            old(self).wf(),
        ensures
            final(self).wf(),
            final(self).objects() == live(old(self).objects(), old(self).objects().len()),
            waste(final(self).objects(), final(self).objects().len()) == 0,
            final(self).total() + waste(old(self).objects(), old(self).objects().len()) == old(self).total(),
            forall|word: int| #[trigger]
                reloc.target(word) is Some <==> old(self).live_word(word),
            forall|i: int|
                0 <= i < old(self).objects().len() && !(#[trigger] old(self).objects()[i]).header.gone() ==> reloc.target(
                    offset(old(self).objects(), i as nat) as int,
                ) == Some(
                    offset(
                        final(self).objects(),
                        live(old(self).objects(), i as nat).len(),
                    ) as int,
                ),
    {
        let ghost before = self.objects();
        let ghost n = before.len();
        let len = self.starts.len();
        let mut map: Vec<u32> = Vec::new();
        while map.len() < len
            invariant
                map@.len() <= len,
                forall|w: int| 0 <= w < map@.len() ==> #[trigger] map@[w] == DEAD,
            decreases len - map@.len(),
        {
            map.push(DEAD);
        }
        let mut fresh: VarArena<H, E> = VarArena::new();
        let mut i: usize = 0;
        while i < self.records.len()
            invariant
                0 <= i <= self.records@.len(),
                self.wf(),
                *self == *old(self),
                before == self.objects(),
                n == before.len(),
                len == self.total(),
                map@.len() == len,
                fresh.wf(),
                fresh.objects() == live(before, i as nat),
                fresh.total() + waste(before, i as nat) == offset(before, i as nat),
                placed(self.records@, self.starts@, before, map@, i as int),
            decreases self.records@.len() - i,
        {
            let record = &self.records[i];
            let start = record.start;
            proof {
                lemma_offset_increases(before, i as nat, n);
                if i + 1 < n {
                    lemma_offset_increases(before, (i + 1) as nat, n);
                }
                lemma_waste_live(before, i as nat);
                assert(before[i as int].elems == self.records@[i as int].elems@);
                assert(before[i as int].header == self.records@[i as int].header);
            }
            let ghost map0 = map@;
            if !record.header.is_deleted() {
                let ghost kept = fresh.objects();
                let handle = fresh.allocate(record.header, record.elems.as_slice());
                map.set(start, handle.0);
                proof {
                    assert(fresh.objects() =~= kept.push(before[i as int]));
                    lemma_offset_same(kept, fresh.objects(), kept.len());
                    self.lemma_placed(before, map0, map@, i as int, handle.0);
                }
            } else {
                proof {
                    self.lemma_skipped(before, map@, i as int);
                }
            }
            i += 1;
        }
        let ghost whole = *self;
        self.records = fresh.records;
        self.starts = fresh.starts;
        self.wasted_words = fresh.wasted_words;
        let reloc = RelocMap { map };
        proof {
            assert(self.objects() =~= fresh.objects());
            lemma_live_waste(before, n);
            whole.lemma_relocated(reloc);
        }
        reloc
    }

    /// One more live object has been placed.
    proof fn lemma_placed(
        &self,
        before: Seq<Object<H, E>>,
        map0: Seq<u32>,
        map: Seq<u32>,
        i: int,
        place: u32,
    )
        requires
            self.wf(),
            before == self.objects(),
            0 <= i < before.len(),
            map0.len() == self.starts@.len(),
            placed(self.records@, self.starts@, before, map0, i),
            !before[i].header.gone(),
            map == map0.update(self.records@[i].start as int, place),
            place == offset(live(before, i as nat), live(before, i as nat).len()),
            place < DEAD,
        ensures
            placed(self.records@, self.starts@, before, map, i + 1),
    {
        let start = self.records@[i].start as int;
        assert(self.records.len() == self.records@.len());
        assert(self.starts@[start] == Some(i as usize));
        assert(start < map0.len());
        assert forall|w: int| 0 <= w < map.len() && #[trigger] map[w] != DEAD implies {
            &&& self.starts@[w] is Some
            &&& (self.starts@[w]->0) < i + 1
            &&& !before[self.starts@[w]->0 as int].header.gone()
        } by {
            if w != start {
                assert(map[w] == map0[w]);
                assert(map0[w] != DEAD);
            }
        }
        assert forall|j: int| 0 <= j < i + 1 && !(#[trigger] before[j]).header.gone() implies map[self.records@[j].start as int]
            == offset(live(before, (i + 1) as nat), live(before, j as nat).len()) by {
            lemma_place_kept(before, j as nat, i as nat);
            if j < i {
                assert(self.starts@[self.records@[j].start as int] == Some(j as usize));
                assert(self.records@[j].start != start);
                assert(map[self.records@[j].start as int] == map0[self.records@[j].start as int]);
            }
        }
    }

    /// A removed object is not placed.
    proof fn lemma_skipped(&self, before: Seq<Object<H, E>>, map: Seq<u32>, i: int)
        requires
            placed(self.records@, self.starts@, before, map, i),
            0 <= i < before.len(),
            before[i].header.gone(),
        ensures
            placed(self.records@, self.starts@, before, map, i + 1),
    {
        assert(live(before, (i + 1) as nat) == live(before, i as nat));
    }

    /// A live object has been placed.
    proof fn lemma_target(&self, before: Seq<Object<H, E>>, map: Seq<u32>, j: int)
        requires
            self.wf(),
            before == self.objects(),
            placed(self.records@, self.starts@, before, map, before.len() as int),
            map.len() == self.starts@.len(),
            0 <= j < before.len(),
            !before[j].header.gone(),
        ensures
            self.records@[j].start < map.len(),
            map[self.records@[j].start as int] != DEAD,
            map[self.records@[j].start as int] == offset(
                live(before, before.len()),
                live(before, j as nat).len(),
            ),
    {
        let n = before.len();
        lemma_live_len(before, j as nat, n);
        lemma_waste_live(before, n);
        let kept = live(before, n);
        lemma_offset_increases(kept, live(before, j as nat).len(), kept.len());
        assert(self.records@[j].start < self.starts@.len());
    }

    /// The map names exactly the live objects.
    proof fn lemma_relocated(&self, reloc: RelocMap)
        requires
            self.wf(),
            placed(
                self.records@,
                self.starts@,
                self.objects(),
                reloc.map@,
                self.objects().len() as int,
            ),
            reloc.map@.len() == self.starts@.len(),
        ensures
            forall|word: int| #[trigger] reloc.target(word) is Some <==> self.live_word(word),
            forall|j: int|
                0 <= j < self.objects().len() && !(#[trigger] self.objects()[j]).header.gone()
                    ==> reloc.target(offset(self.objects(), j as nat) as int) == Some(
                    offset(
                        live(self.objects(), self.objects().len()),
                        live(self.objects(), j as nat).len(),
                    ) as int,
                ),
    {
        let map = reloc.map@;
        let before = self.objects();
        let n = before.len();
        assert forall|word: int| #[trigger] reloc.target(word) is Some <==> self.live_word(
            word,
        ) by {
            if self.live_word(word) {
                let j = choose|j: int| #[trigger]
                    self.starts_at(j, word) && !before[j].header.gone();
                assert(self.records@[j].start == word);
                self.lemma_target(before, map, j);
            }
            if reloc.target(word) is Some {
                assert(map[word] != DEAD);
                let k = self.starts@[word]->0 as int;
                assert(self.starts@[word] is Some);
                assert(self.records@[k].start == word);
                assert(self.starts_at(k, word));
            }
        }
        assert forall|j: int| 0 <= j < n && !(#[trigger] before[j]).header.gone() implies reloc.target(
        offset(before, j as nat) as int) == Some(
            offset(live(before, n), live(before, j as nat).len()) as int,
        ) by {
            assert(self.records@[j].start == offset(before, j as nat));
            self.lemma_target(before, map, j);
        }
    }

    /// A live object starts at this word.
    pub open spec fn live_word(&self, word: int) -> bool {
        exists|i: int| #[trigger] self.starts_at(i, word) && !self.objects()[i].header.gone()
    }
}

/// A cursor over the handles of all live objects.
pub struct Handles<'a, H: VarHeader, E: Copy> {
    /// The arena.
    arena: &'a VarArena<H, E>,
    /// Number of objects passed so far.
    cursor: usize,
}

impl<'a, H: VarHeader, E: Copy> Handles<'a, H, E> {
    /// The arena.
    pub closed spec fn source(&self) -> VarArena<H, E> {
        *self.arena
    }

    /// The number of objects passed so far.
    pub closed spec fn position(&self) -> int {
        self.cursor as int
    }

    /// The object at the cursor starts at a word that fits a handle.
    proof fn lemma_start(&self)
        requires
            self.arena.wf(),
            self.cursor < self.arena.records@.len(),
        ensures
            self.arena.records@[self.cursor as int].start < u32::MAX,
            self.arena.starts_at(
                self.cursor as int,
                self.arena.records@[self.cursor as int].start as int,
            ),
            self.arena.objects()[self.cursor as int].header
                == self.arena.records@[self.cursor as int].header,
    {
        assert(self.arena.records@[self.cursor as int].start < self.arena.starts@.len());
    }

    /// Returns the handle of the next live object.
    #[verifier::rlimit(40)]
    #[verifier::spinoff_prover]
    pub fn next(&mut self) -> (handle: Option<Handle>)
        requires
            old(self).source().wf(),
        ensures
            final(self).source() == old(self).source(),
            handle matches Some(h) ==> {
                let i = final(self).position() - 1;
                &&& old(self).position() <= i
                &&& final(self).source().names(h, i)
                &&& forall|j: int|
                    old(self).position() <= j < i ==> (#[trigger] final(self).source().objects()[j]).header.gone()
            },
            handle is None ==> {
                &&& final(self).position() == if old(self).position()
                    < final(self).source().objects().len() {
                    final(self).source().objects().len() as int
                } else {
                    old(self).position()
                }
                &&& forall|j: int|
                    old(self).position() <= j < final(self).source().objects().len() ==> (
                    #[trigger] final(self).source().objects()[j]).header.gone()
            },
    {
        while self.cursor < self.arena.records.len()
            invariant
                self.arena == old(self).arena,
                self.arena.wf(),
                old(self).cursor <= self.cursor,
                self.cursor <= self.arena.records@.len() || self.cursor == old(self).cursor,
                forall|j: int|
                    old(self).cursor <= j < self.cursor ==> (
                    #[trigger] self.arena.objects()[j]).header.gone(),
            decreases self.arena.records@.len() - self.cursor,
        {
            let record = &self.arena.records[self.cursor];
            proof {
                self.lemma_start();
            }
            let handle = Handle(record.start as u32);
            let deleted = record.header.is_deleted();
            self.cursor = self.cursor + 1;
            if !deleted {
                return Some(handle);
            }
        }
        None
    }
}

} // verus!
