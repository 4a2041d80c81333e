//! The order of texts and paths, and stable sorting.

use crate::strings::{char_lists, parts, split_chars};
use crate::text::chars_of;
use vstd::prelude::*;

verus! {

/// From position `i` on, the first text comes before the second in the order of characters.
pub open spec fn before_from(a: Seq<char>, b: Seq<char>, i: nat) -> bool
    decreases b.len() - i,
{
    if i >= b.len() {
        false
    } else if i >= a.len() {
        true
    } else if a[i as int] != b[i as int] {
        a[i as int] < b[i as int]
    } else {
        before_from(a, b, i + 1)
    }
}

/// The first text comes before the second.
pub open spec fn text_before(a: Seq<char>, b: Seq<char>) -> bool {
    before_from(a, b, 0)
}

proof fn lemma_before_from(a: Seq<char>, b: Seq<char>, i: nat)
    requires
        i <= a.len(),
        i <= b.len(),
        forall|k: int| 0 <= k < i ==> a[k] == b[k],
    ensures
        !(before_from(a, b, i) && before_from(b, a, i)),
        before_from(a, b, i) || before_from(b, a, i) || a == b,
    decreases b.len() - i,
{
    if i < a.len() && i < b.len() && a[i as int] == b[i as int] {
        lemma_before_from(a, b, i + 1);
    }
    if i == a.len() && i == b.len() {
        assert(a =~= b);
    }
}

proof fn lemma_before_chain(a: Seq<char>, b: Seq<char>, c: Seq<char>, i: nat)
    requires
        before_from(a, b, i),
        before_from(b, c, i),
    ensures
        before_from(a, c, i),
    decreases c.len() - i,
{
    if i < c.len() && i < a.len() && i < b.len() && a[i as int] == b[i as int] && b[i as int]
        == c[i as int] {
        lemma_before_chain(a, b, c, i + 1);
    }
}

/// No text comes before itself.
pub proof fn lemma_before_irreflexive(a: Seq<char>, i: nat)
    ensures
        !before_from(a, a, i),
    decreases a.len() - i,
{
    if i < a.len() {
        lemma_before_irreflexive(a, i + 1);
    }
}

/// Of two different texts exactly one comes before the other.
pub proof fn lemma_text_total(a: Seq<char>, b: Seq<char>)
    ensures
        !(text_before(a, b) && text_before(b, a)),
        text_before(a, b) || text_before(b, a) || a == b,
{
    lemma_before_from(a, b, 0);
}

/// The order of texts is transitive.
pub proof fn lemma_text_transitive(a: Seq<char>, b: Seq<char>, c: Seq<char>)
    requires
        text_before(a, b),
        text_before(b, c),
    ensures
        text_before(a, c),
{
    lemma_before_chain(a, b, c, 0);
}

/// Returns whether the first list of characters comes before the second.
pub fn chars_before(a: &[char], b: &[char]) -> (answer: bool)
    ensures
        answer == text_before(a@, b@),
{
    let mut i: usize = 0;
    while i < b.len()
        invariant
            0 <= i <= b@.len(),
            text_before(a@, b@) == before_from(a@, b@, i as nat),
        decreases b@.len() - i,
    {
        if i >= a.len() {
            return true;
        }
        if a[i] != b[i] {
            return a[i] < b[i];
        }
        i += 1;
    }
    false
}

/// Returns whether the first text comes before the second.
pub fn comes_before(a: &str, b: &str) -> (answer: bool)
    ensures
        answer == text_before(a@, b@),
{
    let x = chars_of(a);
    let y = chars_of(b);
    chars_before(x.as_slice(), y.as_slice())
}

/// From position `i` on, the first list of texts comes before the second, text by text.
pub open spec fn list_before(a: Seq<Seq<char>>, b: Seq<Seq<char>>, i: nat) -> bool
    decreases b.len() - i,
{
    if i >= b.len() {
        false
    } else if i >= a.len() {
        true
    } else if a[i as int] != b[i as int] {
        text_before(a[i as int], b[i as int])
    } else {
        list_before(a, b, i + 1)
    }
}

/// The first absolute path comes before the second, component by component.
pub open spec fn path_before(a: Seq<char>, b: Seq<char>) -> bool {
    list_before(parts(a, '/'), parts(b, '/'), 0)
}

proof fn lemma_list_total(a: Seq<Seq<char>>, b: Seq<Seq<char>>, i: nat)
    ensures
        !(list_before(a, b, i) && list_before(b, a, i)),
    decreases b.len() - i,
{
    if i < a.len() && i < b.len() {
        lemma_text_total(a[i as int], b[i as int]);
        lemma_list_total(a, b, i + 1);
    }
}

proof fn lemma_list_chain(a: Seq<Seq<char>>, b: Seq<Seq<char>>, c: Seq<Seq<char>>, i: nat)
    requires
        !list_before(b, a, i),
        !list_before(c, b, i),
    ensures
        !list_before(c, a, i),
    decreases a.len() - i,
{
    if i < a.len() && i < b.len() && i < c.len() {
        let x = a[i as int];
        let y = b[i as int];
        let z = c[i as int];
        lemma_text_total(x, y);
        lemma_text_total(y, z);
        lemma_text_total(x, z);
        if x == y && y == z {
            lemma_list_chain(a, b, c, i + 1);
        } else if x != y && y != z {
            lemma_text_transitive(x, y, z);
        }
    }
}

/// Of two absolute paths at most one comes before the other.
pub proof fn lemma_path_asymmetric(a: Seq<char>, b: Seq<char>)
    ensures
        !(path_before(a, b) && path_before(b, a)),
{
    lemma_list_total(parts(a, '/'), parts(b, '/'), 0);
}

/// A path that does not come before a second one, which does not come before a third one, does not
/// come before the third one.
pub proof fn lemma_path_chain(a: Seq<char>, b: Seq<char>, c: Seq<char>)
    requires
        !path_before(b, a),
        !path_before(c, b),
    ensures
        !path_before(c, a),
{
    lemma_list_chain(parts(a, '/'), parts(b, '/'), parts(c, '/'), 0);
}

/// Returns whether the first absolute path comes before the second, component by component.
pub fn path_comes_before(a: &str, b: &str) -> (answer: bool)
    ensures
        answer == path_before(a@, b@),
{
    let x_chars = chars_of(a);
    let y_chars = chars_of(b);
    let x = split_chars(x_chars.as_slice(), '/');
    let y = split_chars(y_chars.as_slice(), '/');
    let ghost xs = parts(a@, '/');
    let ghost ys = parts(b@, '/');
    proof {
        assert(char_lists(x@).len() == x@.len());
        assert(char_lists(y@).len() == y@.len());
    }
    let mut i: usize = 0;
    while i < y.len()
        invariant
            0 <= i <= y@.len(),
            xs == char_lists(x@),
            ys == char_lists(y@),
            path_before(a@, b@) == list_before(xs, ys, i as nat),
        decreases y@.len() - i,
    {
        if i >= x.len() {
            return true;
        }
        proof {
            assert(xs[i as int] == x@[i as int]@);
            assert(ys[i as int] == y@[i as int]@);
        }
        if chars_before(x[i].as_slice(), y[i].as_slice()) {
            proof {
                lemma_before_irreflexive(xs[i as int], 0);
            }
            return true;
        }
        if chars_before(y[i].as_slice(), x[i].as_slice()) {
            proof {
                lemma_before_irreflexive(xs[i as int], 0);
                lemma_text_total(xs[i as int], ys[i as int]);
            }
            return false;
        }
        proof {
            lemma_text_total(xs[i as int], ys[i as int]);
        }
        i += 1;
    }
    false
}

/// The place among the first `n` items at which `x` is inserted: after all items that it does not
/// come before.
pub open spec fn slot<A>(list: Seq<A>, x: A, before: spec_fn(A, A) -> bool, n: nat) -> nat
    decreases n,
{
    if n == 0 {
        0
    } else if before(x, list[n - 1]) {
        slot(list, x, before, (n - 1) as nat)
    } else {
        n
    }
}

/// The list with one more item in its place.
pub open spec fn inserted<A>(list: Seq<A>, x: A, before: spec_fn(A, A) -> bool) -> Seq<A> {
    list.insert(slot(list, x, before, list.len()) as int, x)
}

/// The first `n` items in order; items of which none comes before the other stay as they stood.
pub open spec fn sorted_to<A>(list: Seq<A>, before: spec_fn(A, A) -> bool, n: nat) -> Seq<A>
    decreases n,
{
    if n == 0 {
        Seq::empty()
    } else {
        inserted(sorted_to(list, before, (n - 1) as nat), list[n - 1], before)
    }
}

/// The items in order; items of which none comes before the other stay as they stood.
pub open spec fn sorted<A>(list: Seq<A>, before: spec_fn(A, A) -> bool) -> Seq<A> {
    sorted_to(list, before, list.len())
}

/// No item comes before an earlier one.
pub open spec fn ordered<A>(list: Seq<A>, before: spec_fn(A, A) -> bool) -> bool {
    forall|i: int, j: int|
        #![trigger list[i], list[j]]
        0 <= i < j < list.len() ==> !before(list[j], list[i])
}

/// The relation orders items by some rank.
pub open spec fn ranks<A>(before: spec_fn(A, A) -> bool) -> bool {
    &&& forall|a: A, b: A| #[trigger] before(a, b) ==> !before(b, a)
    &&& forall|a: A, b: A, c: A|
        #![trigger before(b, a), before(c, b)]
        !before(b, a) && !before(c, b) ==> !before(c, a)
}

/// Everything from the slot on comes after `x`, and what stands before it does not.
pub proof fn lemma_slot<A>(list: Seq<A>, x: A, before: spec_fn(A, A) -> bool, n: nat)
    requires
        n <= list.len(),
    ensures
        slot(list, x, before, n) <= n,
        forall|i: int| slot(list, x, before, n) <= i < n ==> before(x, #[trigger] list[i]),
        slot(list, x, before, n) > 0 ==> !before(x, list[slot(list, x, before, n) - 1]),
    decreases n,
{
    if n > 0 && before(x, list[n - 1]) {
        lemma_slot(list, x, before, (n - 1) as nat);
    }
}

proof fn lemma_inserted<A>(list: Seq<A>, x: A, before: spec_fn(A, A) -> bool)
    requires
        ranks(before),
        ordered(list, before),
    ensures
        ordered(inserted(list, x, before), before),
{
    let at = slot(list, x, before, list.len()) as int;
    let more = inserted(list, x, before);
    lemma_slot(list, x, before, list.len());
    assert forall|i: int, j: int|
        #![trigger more[i], more[j]]
        0 <= i < j < more.len() implies !before(more[j], more[i]) by {
        if j == at {
            assert(more[i] == list[i]);
            if i < at - 1 {
                assert(!before(list[at - 1], list[i]));
                assert(!before(x, list[at - 1]));
            }
        } else if i == at {
            assert(more[j] == list[j - 1]);
            assert(before(x, list[j - 1]));
        } else {
            let p = if i < at {
                i
            } else {
                i - 1
            };
            let q = if j < at {
                j
            } else {
                j - 1
            };
            assert(more[i] == list[p]);
            assert(more[j] == list[q]);
        }
    }
}

/// Sorting puts the items in order, loses none and adds none.
pub proof fn lemma_sorted<A>(list: Seq<A>, before: spec_fn(A, A) -> bool, n: nat)
    requires
        n <= list.len(),
        ranks(before),
    ensures
        ordered(sorted_to(list, before, n), before),
        sorted_to(list, before, n).len() == n,
        sorted_to(list, before, n).to_multiset() =~= list.take(n as int).to_multiset(),
    decreases n,
{
    broadcast use vstd::seq_lib::group_to_multiset_ensures;

    if n > 0 {
        let shorter = sorted_to(list, before, (n - 1) as nat);
        lemma_sorted(list, before, (n - 1) as nat);
        lemma_inserted(shorter, list[n - 1], before);
        lemma_slot(shorter, list[n - 1], before, shorter.len());
        let at = slot(shorter, list[n - 1], before, shorter.len()) as int;
        assert(shorter.insert(at, list[n - 1]).to_multiset() =~= shorter.to_multiset().insert(
            list[n - 1],
        )) by {
            vstd::seq_lib::to_multiset_insert(shorter, at, list[n - 1]);
        }
        assert(list.take(n as int) =~= list.take(n - 1).push(list[n - 1]));
    } else {
        assert(list.take(0) =~= Seq::empty());
    }
}

} // verus!
