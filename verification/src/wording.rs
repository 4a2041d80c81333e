//! What holds of numbers in texts, of trimming, splitting and ordering texts, and of sorting.

use crate::order::{
    before_from, inserted, lemma_slot, lemma_sorted, list_before, ordered, path_before, ranks, slot,
    sorted, sorted_to, text_before,
};
use crate::strings::{
    byte_length, byte_width, lemma_parts, parts, trimmed, trimmed_end, trimmed_start,
};
use crate::text::{
    all_digits, decimal_text, digits_value, unsigned_text, unsigned_value, white_space,
    without_plus,
};
use vstd::prelude::*;
use vstd::utf8::{encode_scalar, encode_utf8};

verus! {

proof fn lemma_decimal_digits(n: nat)
    ensures
        decimal_text(n).len() > 0,
        all_digits(decimal_text(n)),
        digits_value(decimal_text(n)) == n,
        n > 0 ==> decimal_text(n)[0] != '0',
    decreases n,
{
    let text = decimal_text(n);
    if n >= 10 {
        let rest = decimal_text(n / 10);
        lemma_decimal_digits(n / 10);
        assert(text.drop_last() =~= rest);
        assert(text[0] == rest[0]);
        assert forall|i: int| 0 <= i < text.len() implies '0' <= (#[trigger] text[i]) <= '9' by {
            if i < rest.len() {
                assert(text[i] == rest[i]);
            }
        }
    } else {
        assert(text.drop_last() =~= Seq::<char>::empty());
        assert(digits_value(Seq::<char>::empty()) == 0);
    }
}

/// The decimal text of a number reads as that number, and starts with no needless zero.
pub proof fn lemma_decimal_read_back(n: nat)
    ensures
        unsigned_text(decimal_text(n)),
        unsigned_value(decimal_text(n)) == n,
        n > 0 ==> decimal_text(n)[0] != '0',
        decimal_text(n).len() > 0,
        all_digits(decimal_text(n)),
{
    lemma_decimal_digits(n);
    assert('0' <= decimal_text(n)[0] <= '9');
    assert(without_plus(decimal_text(n)) == decimal_text(n));
}

proof fn lemma_trimmed_start(text: Seq<char>) -> (k: int)
    ensures
        0 <= k <= text.len(),
        trimmed_start(text) == text.skip(k),
        forall|i: int| 0 <= i < k ==> white_space(#[trigger] text[i]),
        k < text.len() ==> !white_space(text[k]),
    decreases text.len(),
{
    if text.len() > 0 && white_space(text[0]) {
        let rest = text.skip(1);
        let k = lemma_trimmed_start(rest);
        assert(rest.skip(k) =~= text.skip(k + 1));
        assert forall|i: int| 0 <= i < k + 1 implies white_space(#[trigger] text[i]) by {
            if i > 0 {
                assert(rest[i - 1] == text[i]);
            }
        }
        k + 1
    } else {
        assert(text.skip(0) =~= text);
        0
    }
}

proof fn lemma_trimmed_end(text: Seq<char>) -> (k: int)
    ensures
        0 <= k <= text.len(),
        trimmed_end(text) == text.take(k),
        forall|i: int| k <= i < text.len() ==> white_space(#[trigger] text[i]),
        k > 0 ==> !white_space(text[k - 1]),
    decreases text.len(),
{
    if text.len() > 0 && white_space(text.last()) {
        let rest = text.drop_last();
        let k = lemma_trimmed_end(rest);
        assert(rest.take(k) =~= text.take(k));
        assert forall|i: int| k <= i < text.len() implies white_space(#[trigger] text[i]) by {
            if i < rest.len() {
                assert(rest[i] == text[i]);
            }
        }
        k
    } else {
        assert(text.take(text.len() as int) =~= text);
        text.len() as int
    }
}

/// Trimming takes away white space, at both ends, until there is none.
pub proof fn lemma_trimmed(text: Seq<char>) -> (ends: (int, int))
    ensures
        0 <= ends.0 <= ends.1 <= text.len(),
        trimmed(text) == text.subrange(ends.0, ends.1),
        forall|i: int| 0 <= i < ends.0 || ends.1 <= i < text.len() ==> white_space(
            #[trigger] text[i],
        ),
        trimmed(text).len() > 0 ==> !white_space(trimmed(text)[0]) && !white_space(
            trimmed(text).last(),
        ),
{
    let i = lemma_trimmed_start(text);
    let rest = text.skip(i);
    let k = lemma_trimmed_end(rest);
    assert(rest.take(k) =~= text.subrange(i, i + k));
    assert forall|x: int| 0 <= x < i || i + k <= x < text.len() implies white_space(
        #[trigger] text[x],
    ) by {
        if x >= i + k {
            assert(rest[x - i] == text[x]);
        }
    }
    (i, i + k)
}

/// A text without white space is as it is after trimming.
pub proof fn lemma_nothing_to_trim(text: Seq<char>)
    requires
        forall|i: int| 0 <= i < text.len() ==> !white_space(#[trigger] text[i]),
    ensures
        trimmed(text) == text,
{
}

/// Texts after one another, with a character between any two.
pub open spec fn joined_by(list: Seq<Seq<char>>, mark: char) -> Seq<char>
    decreases list.len(),
{
    if list.len() == 0 {
        Seq::empty()
    } else if list.len() == 1 {
        list[0]
    } else {
        joined_by(list.drop_last(), mark).push(mark) + list.last()
    }
}

proof fn lemma_joined_last(list: Seq<Seq<char>>, mark: char, c: char)
    requires
        list.len() > 0,
    ensures
        joined_by(list.update(list.len() - 1, list.last().push(c)), mark) == joined_by(
            list,
            mark,
        ).push(c),
{
    let more = list.update(list.len() - 1, list.last().push(c));
    assert(more.drop_last() =~= list.drop_last());
    assert(joined_by(more, mark) =~= joined_by(list, mark).push(c));
}

/// The parts of a text between marks hold no mark, and joined by marks they are the text.
pub proof fn lemma_split(text: Seq<char>, mark: char)
    ensures
        parts(text, mark).len() > 0,
        joined_by(parts(text, mark), mark) == text,
        forall|i: int| 0 <= i < parts(text, mark).len() ==> !(#[trigger] parts(text, mark)[i]).contains(
            mark,
        ),
    decreases text.len(),
{
    let list = parts(text, mark);
    if text.len() == 0 {
        assert(joined_by(list, mark) =~= text);
    } else {
        let before = parts(text.drop_last(), mark);
        lemma_split(text.drop_last(), mark);
        if text.last() == mark {
            assert(list.drop_last() =~= before);
            assert(joined_by(list, mark) =~= text);
        } else {
            lemma_joined_last(before, mark, text.last());
            assert(joined_by(list, mark) =~= text);
            assert forall|i: int| 0 <= i < list.len() implies !(#[trigger] list[i]).contains(
                mark,
            ) by {
                assert(!before[i].contains(mark));
                if list[i].contains(mark) {
                    let k = choose|k: int| 0 <= k < list[i].len() && list[i][k] == mark;
                    if k < before[i].len() {
                        assert(before[i][k] == mark);
                    }
                }
            }
        }
    }
}

/// Splitting at a mark gives back what was joined by it.
pub proof fn lemma_split_joined(list: Seq<Seq<char>>, mark: char)
    requires
        list.len() > 0,
        forall|i: int| 0 <= i < list.len() ==> !(#[trigger] list[i]).contains(mark),
    ensures
        parts(joined_by(list, mark), mark) == list,
    decreases list.len(),
{
    let last = list.last();
    assert(!list[list.len() - 1].contains(mark));
    if list.len() == 1 {
        lemma_split_more(Seq::empty(), last, mark);
        assert(Seq::<char>::empty() + last =~= last);
        assert(parts(last, mark) =~= list);
    } else {
        let less = list.drop_last();
        assert forall|i: int| 0 <= i < less.len() implies !(#[trigger] less[i]).contains(
            mark,
        ) by {
            assert(less[i] == list[i]);
        }
        lemma_split_joined(less, mark);
        let start = joined_by(less, mark).push(mark);
        assert(start.drop_last() =~= joined_by(less, mark));
        assert(parts(start, mark) =~= less.push(Seq::empty()));
        lemma_split_more(start, last, mark);
        assert(parts(start + last, mark) =~= list);
    }
}

proof fn lemma_split_more(start: Seq<char>, last: Seq<char>, mark: char)
    requires
        !last.contains(mark),
    ensures
        parts(start + last, mark) == parts(start, mark).update(
            parts(start, mark).len() - 1,
            parts(start, mark).last() + last,
        ),
    decreases last.len(),
{
    lemma_parts(start, mark);
    let before = parts(start, mark);
    if last.len() == 0 {
        assert(start + last =~= start);
        assert(before.last() + last =~= before.last());
        assert(before.update(before.len() - 1, before.last() + last) =~= before);
    } else {
        let rest = last.drop_last();
        if rest.contains(mark) {
            let i = choose|i: int| 0 <= i < rest.len() && rest[i] == mark;
            assert(last[i] == mark);
        }
        lemma_split_more(start, rest, mark);
        assert((start + last).drop_last() =~= start + rest);
        assert(last[last.len() - 1] != mark);
        assert((before.last() + rest).push(last.last()) =~= before.last() + last);
        assert(parts(start + last, mark) =~= before.update(
            before.len() - 1,
            before.last() + last,
        ));
    }
}

proof fn lemma_encoded_push(text: Seq<char>, c: char)
    ensures
        encode_utf8(text.push(c)) == encode_utf8(text) + encode_scalar(c as u32),
    decreases text.len(),
{
    let more = text.push(c);
    if text.len() == 0 {
        assert(more.drop_first() =~= Seq::<char>::empty());
        assert(encode_utf8(Seq::<char>::empty()) =~= Seq::<u8>::empty());
        assert(encode_utf8(more) =~= encode_utf8(text) + encode_scalar(c as u32));
    } else {
        lemma_encoded_push(text.drop_first(), c);
        assert(more.drop_first() =~= text.drop_first().push(c));
        assert(encode_utf8(more) =~= encode_utf8(text) + encode_scalar(c as u32));
    }
}

/// The length of a text in bytes is the length of its UTF-8 encoding.
pub proof fn lemma_byte_length(text: Seq<char>)
    ensures
        byte_length(text, text.len()) == encode_utf8(text).len(),
{
    lemma_byte_prefix(text, text.len());
    assert(text.take(text.len() as int) =~= text);
}

proof fn lemma_byte_prefix(text: Seq<char>, n: nat)
    requires
        n <= text.len(),
    ensures
        byte_length(text, n) == encode_utf8(text.take(n as int)).len(),
    decreases n,
{
    if n > 0 {
        lemma_byte_prefix(text, (n - 1) as nat);
        let c = text[n - 1];
        assert(text.take(n as int) =~= text.take(n - 1).push(c));
        lemma_encoded_push(text.take(n - 1), c);
        assert(encode_scalar(c as u32).len() == byte_width(c)) by {
            vstd::utf8::char_is_scalar(c);
        }
    }
}

/// The position at which two lists first differ, or at which the shorter ends.
pub open spec fn parts_at<A>(a: Seq<A>, b: Seq<A>, k: int) -> bool {
    &&& 0 <= k <= a.len()
    &&& k <= b.len()
    &&& forall|i: int| 0 <= i < k ==> #[trigger] a[i] == b[i]
}

proof fn lemma_before_at(a: Seq<char>, b: Seq<char>, i: nat, k: int)
    requires
        parts_at(a, b, k),
        i <= k,
    ensures
        before_from(a, b, i) == before_from(a, b, k as nat),
    decreases k - i,
{
    if i < k {
        lemma_before_at(a, b, i + 1, k);
    }
}

/// One text comes before another where it is shorter and the other starts with it, or where it has the
/// smaller character at the first place where they differ.
pub proof fn lemma_text_order(a: Seq<char>, b: Seq<char>, k: int)
    requires
        parts_at(a, b, k),
        k == a.len() || k == b.len() || a[k] != b[k],
    ensures
        text_before(a, b) <==> k < b.len() && (k == a.len() || a[k] < b[k]),
{
    lemma_before_at(a, b, 0, k);
}

proof fn lemma_list_at(a: Seq<Seq<char>>, b: Seq<Seq<char>>, i: nat, k: int)
    requires
        parts_at(a, b, k),
        i <= k,
    ensures
        list_before(a, b, i) == list_before(a, b, k as nat),
    decreases k - i,
{
    if i < k {
        lemma_list_at(a, b, i + 1, k);
    }
}

/// One path comes before another where it is one of the directories above it, or where it has the
/// smaller component at the first place where they differ.
pub proof fn lemma_path_order(a: Seq<Seq<char>>, b: Seq<Seq<char>>, k: int)
    requires
        a.len() > 0,
        b.len() > 0,
        forall|i: int| 0 <= i < a.len() ==> !(#[trigger] a[i]).contains('/'),
        forall|i: int| 0 <= i < b.len() ==> !(#[trigger] b[i]).contains('/'),
        parts_at(a, b, k),
        k == a.len() || k == b.len() || a[k] != b[k],
    ensures
        path_before(joined_by(a, '/'), joined_by(b, '/')) <==> k < b.len() && (k == a.len()
            || text_before(a[k], b[k])),
{
    lemma_split_joined(a, '/');
    lemma_split_joined(b, '/');
    lemma_list_at(a, b, 0, k);
}

/// Neither item comes before the other.
pub open spec fn level_with<A>(before: spec_fn(A, A) -> bool, a: A) -> spec_fn(A) -> bool {
    |x: A| !before(x, a) && !before(a, x)
}

proof fn lemma_none_kept<A>(list: Seq<A>, keep: spec_fn(A) -> bool)
    requires
        forall|i: int| 0 <= i < list.len() ==> !keep(#[trigger] list[i]),
    ensures
        list.filter(keep) == Seq::<A>::empty(),
    decreases list.len(),
{
    reveal(Seq::filter);
    if list.len() > 0 {
        assert(!keep(list[list.len() - 1]));
        assert forall|i: int| 0 <= i < list.drop_last().len() implies !keep(
            #[trigger] list.drop_last()[i],
        ) by {
            assert(list.drop_last()[i] == list[i]);
        }
        lemma_none_kept(list.drop_last(), keep);
    } else {
        assert(list =~= Seq::<A>::empty());
    }
}

proof fn lemma_inserted_stable<A>(list: Seq<A>, x: A, before: spec_fn(A, A) -> bool, a: A)
    requires
        ranks(before),
    ensures
        inserted(list, x, before).filter(level_with(before, a)) == if level_with(before, a)(x) {
            list.filter(level_with(before, a)).push(x)
        } else {
            list.filter(level_with(before, a))
        },
{
    reveal(Seq::filter);
    let keep = level_with(before, a);
    lemma_slot(list, x, before, list.len());
    let at = slot(list, x, before, list.len()) as int;
    let first = list.take(at);
    let rest = list.skip(at);
    assert(inserted(list, x, before) =~= first.push(x) + rest);
    assert(list =~= first + rest);
    Seq::filter_distributes_over_add(first.push(x), rest, keep);
    Seq::filter_distributes_over_add(first, rest, keep);
    assert(first.push(x).drop_last() =~= first);
    if keep(x) {
        assert forall|i: int| 0 <= i < rest.len() implies !keep(#[trigger] rest[i]) by {
            assert(rest[i] == list[at + i]);
            assert(before(x, list[at + i]));
        }
        lemma_none_kept(rest, keep);
        assert(first.filter(keep).push(x) + Seq::<A>::empty() =~= first.filter(keep).push(x));
        assert(first.filter(keep) + Seq::<A>::empty() =~= first.filter(keep));
    }
}

/// Sorting keeps the order of items of which neither comes before the other.
pub proof fn lemma_sorted_stable<A>(list: Seq<A>, before: spec_fn(A, A) -> bool, a: A)
    requires
        ranks(before),
    ensures
        sorted(list, before).filter(level_with(before, a)) == list.filter(level_with(before, a)),
        ordered(sorted(list, before), before),
        sorted(list, before).to_multiset() == list.to_multiset(),
{
    lemma_sorted(list, before, list.len());
    lemma_stable_to(list, before, a, list.len());
    assert(list.take(list.len() as int) =~= list);
}

proof fn lemma_stable_to<A>(list: Seq<A>, before: spec_fn(A, A) -> bool, a: A, n: nat)
    requires
        ranks(before),
        n <= list.len(),
    ensures
        sorted_to(list, before, n).filter(level_with(before, a)) == list.take(n as int).filter(
            level_with(before, a),
        ),
    decreases n,
{
    reveal(Seq::filter);
    if n > 0 {
        lemma_stable_to(list, before, a, (n - 1) as nat);
        lemma_inserted_stable(
            sorted_to(list, before, (n - 1) as nat),
            list[n - 1],
            before,
            a,
        );
        let more = list.take(n as int);
        assert(more.drop_last() =~= list.take(n - 1));
        assert(more.last() == list[n - 1]);
    } else {
        assert(list.take(0) =~= Seq::<A>::empty());
    }
}

} // verus!
