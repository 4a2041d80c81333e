//! What holds of layouts and of packed values.

use crate::bitsum::layout::{
    end_of, field_layout, field_views, fields_layout, kind_named, layout_error, lemma_power_fits,
    lower, lowered, optional_text, payload_layout, snake, snake_case, upper, variant_ok,
    variants_layout, BitsAttr, EnumDecl, FieldDecl, FieldsDecl, ParsedBitsum, PrimitiveKind,
    VariantDecl,
};
use crate::bitsum::packed::{field_values, values_fit};
use vstd::arithmetic::power2::{lemma2_to64, lemma_pow2_strictly_increases, pow2};
use vstd::prelude::*;

verus! {

/// The largest value of the unsigned type with this name.
pub open spec fn largest(name: Seq<char>) -> Option<nat> {
    if name == "u8"@ {
        Some(u8::MAX as nat)
    } else if name == "u16"@ {
        Some(u16::MAX as nat)
    } else if name == "u32"@ {
        Some(u32::MAX as nat)
    } else if name == "u64"@ {
        Some(u64::MAX as nat)
    } else if name == "u128"@ {
        Some(u128::MAX as nat)
    } else {
        None
    }
}

proof fn lemma_type_names()
    ensures
        largest("bool"@) is None,
{
    reveal_strlit("bool");
    reveal_strlit("u8");
    reveal_strlit("u16");
    reveal_strlit("u32");
    reveal_strlit("u64");
    reveal_strlit("u128");
    assert("bool"@[0] == 'b' && "u8"@[0] == 'u' && "u16"@[0] == 'u' && "u32"@[0] == 'u' && "u64"@[0]
        == 'u' && "u128"@[0] == 'u');
}

proof fn lemma_largest(name: Seq<char>)
    requires
        largest(name) is Some,
    ensures
        kind_named(Some(name), false) is Ok,
        kind_named(Some(name), true) == kind_named(Some(name), false),
        (kind_named(Some(name), false)->Ok_0) is Unsigned,
        pow2((kind_named(Some(name), false)->Ok_0).width()) == largest(name)->0 + 1,
        8 <= (kind_named(Some(name), false)->Ok_0).width() <= 128,
{
    lemma2_to64();
    lemma_power_fits(128);
    lemma_type_names();
}

/// An unsigned type name stands for an integer of as many bits as that type has: its largest value is
/// two to the power of the width, minus one. Nothing else stands for an integer, and `bool` stands for
/// one bit where it is allowed.
pub proof fn lemma_kind_widths(name: Option<Seq<char>>, allow_bool: bool)
    ensures
        match kind_named(name, allow_bool) {
            Ok(PrimitiveKind::Unsigned(width)) => name is Some && largest(name->0) is Some && pow2(
                width as nat,
            ) - 1 == largest(name->0)->0,
            Ok(PrimitiveKind::Bool) => allow_bool && name == Some("bool"@),
            Err(_) => name is None || largest(name->0) is None && !(allow_bool && name->0
                == "bool"@),
        },
        kind_named(name, allow_bool) matches Ok(kind) ==> if kind == PrimitiveKind::Bool {
            kind.width() == 1
        } else {
            pow2(kind.width()) - 1 == largest(name->0)->0
        },
{
    lemma2_to64();
    lemma_power_fits(128);
    lemma_type_names();
    if name is Some && largest(name->0) is Some {
        lemma_largest(name->0);
    }
}

/// The number of bits that a field asks for.
pub open spec fn bits_of(decl: FieldDecl) -> nat {
    match decl.bits {
        BitsAttr::Bits(bits) => bits as nat,
        _ => 0,
    }
}

/// The field asks for at least one bit and for no more than its type has; a `bool` for one.
pub open spec fn legal_field(decl: FieldDecl) -> bool {
    &&& decl.bits is Bits
    &&& bits_of(decl) > 0
    &&& optional_text(decl.ty) matches Some(name) && {
        ||| name == "bool"@ && bits_of(decl) == 1
        ||| largest(name) matches Some(most) && pow2(bits_of(decl)) <= most + 1
    }
}

/// The bits of the first `n` fields together.
pub open spec fn total_bits(decls: Seq<FieldDecl>, n: nat) -> nat
    decreases n,
{
    if n == 0 {
        0
    } else {
        total_bits(decls, (n - 1) as nat) + bits_of(decls[n - 1])
    }
}

/// Tag and fields of the variant fit values up to `most`.
pub open spec fn legal_payload(payload: FieldsDecl, tag_width: nat, most: nat) -> bool {
    match payload {
        FieldsDecl::Unit => true,
        FieldsDecl::Unnamed => false,
        FieldsDecl::Named(decls) => {
            &&& forall|k: int| 0 <= k < decls@.len() ==> legal_field(#[trigger] decls@[k])
            &&& pow2(tag_width + total_bits(decls@, decls@.len())) <= most + 1
        },
    }
}

/// The declaration can be laid out: its representation is an unsigned type, it has variants, and the
/// tags and the fields of every variant fit the representation.
pub open spec fn legal(repr: Option<Seq<char>>, decl: EnumDecl, tag_width: nat) -> bool {
    &&& repr matches Some(name) && largest(name) matches Some(most) && {
        &&& decl.variants@.len() > 0
        &&& pow2(tag_width) <= most + 1
        &&& forall|i: int|
            0 <= i < decl.variants@.len() ==> legal_payload(
                (#[trigger] decl.variants@[i]).fields,
                tag_width,
                most,
            )
    }
}

proof fn lemma_pow2_order(a: nat, b: nat)
    ensures
        pow2(a) <= pow2(b) <==> a <= b,
{
    if a < b {
        lemma_pow2_strictly_increases(a, b);
    }
    if b < a {
        lemma_pow2_strictly_increases(b, a);
    }
}

/// A field is laid out exactly when it is legal and still fits, at the offset that is next, with the
/// bits that it asks for.
proof fn lemma_field(decl: FieldDecl, repr_width: nat, offset: nat)
    requires
        repr_width <= 128,
    ensures
        field_layout(decl, repr_width, offset) is Ok <==> legal_field(decl) && offset + bits_of(decl)
            <= repr_width,
        field_layout(decl, repr_width, offset) matches Ok(field) ==> {
            &&& field.offset == offset
            &&& field.width == bits_of(decl)
            &&& field.name == decl.name@
            &&& kind_named(optional_text(decl.ty), true) == Ok::<PrimitiveKind, Seq<char>>(
                field.kind,
            )
        },
{
    lemma_type_names();
    if let Some(name) = optional_text(decl.ty) {
        if largest(name) is Some {
            lemma_largest(name);
            lemma_pow2_order(bits_of(decl), (kind_named(Some(name), false)->Ok_0).width());
        }
        lemma_kind_widths(Some(name), true);
    }
}

proof fn lemma_total_grows(decls: Seq<FieldDecl>, k: nat, n: nat)
    requires
        k <= n,
    ensures
        total_bits(decls, k) <= total_bits(decls, n),
    decreases n,
{
    if k < n {
        lemma_total_grows(decls, k, (n - 1) as nat);
    }
}

proof fn lemma_fields(decls: Seq<FieldDecl>, repr_width: nat, tag_width: nat, n: nat)
    requires
        n <= decls.len(),
        tag_width <= repr_width <= 128,
    ensures
        fields_layout(decls, repr_width, tag_width, n) is Ok <==> (forall|k: int|
            0 <= k < n ==> legal_field(#[trigger] decls[k])) && tag_width + total_bits(decls, n)
            <= repr_width,
        fields_layout(decls, repr_width, tag_width, n) matches Ok(fields) ==> {
            &&& fields.len() == n
            &&& end_of(fields, tag_width, n) == tag_width + total_bits(decls, n)
            &&& forall|k: int|
                0 <= k < n ==> {
                    &&& (#[trigger] fields[k]).offset == tag_width + total_bits(decls, k as nat)
                    &&& fields[k].width == bits_of(decls[k])
                    &&& fields[k].name == decls[k].name@
                    &&& kind_named(optional_text(decls[k].ty), true) == Ok::<
                        PrimitiveKind,
                        Seq<char>,
                    >(fields[k].kind)
                }
        },
    decreases n,
{
    if n > 0 {
        lemma_fields(decls, repr_width, tag_width, (n - 1) as nat);
        let before = fields_layout(decls, repr_width, tag_width, (n - 1) as nat);
        lemma_total_grows(decls, (n - 1) as nat, n);
        if before is Ok {
            lemma_field(
                decls[n - 1],
                repr_width,
                end_of(before->Ok_0, tag_width, (before->Ok_0).len()),
            );
        }
    }
}

proof fn lemma_variants(decls: Seq<VariantDecl>, repr_width: nat, tag_width: nat, most: nat, n: nat)
    requires
        n <= decls.len(),
        tag_width <= repr_width <= 128,
        pow2(repr_width) == most + 1,
    ensures
        variants_layout(decls, repr_width, tag_width, n) is Ok <==> forall|i: int|
            0 <= i < n ==> legal_payload((#[trigger] decls[i]).fields, tag_width, most),
    decreases n,
{
    if n > 0 {
        lemma_variants(decls, repr_width, tag_width, most, (n - 1) as nat);
        lemma_payload(decls[n - 1].fields, repr_width, tag_width, most);
    }
}

proof fn lemma_payload(payload: FieldsDecl, repr_width: nat, tag_width: nat, most: nat)
    requires
        tag_width <= repr_width <= 128,
        pow2(repr_width) == most + 1,
    ensures
        payload_layout(payload, repr_width, tag_width) is Ok <==> legal_payload(
            payload,
            tag_width,
            most,
        ),
{
    if let FieldsDecl::Named(decls) = payload {
        lemma_fields(decls@, repr_width, tag_width, decls@.len());
        lemma_pow2_order(tag_width + total_bits(decls@, decls@.len()), repr_width);
    }
}

/// A declaration is accepted exactly when it is legal; so a declaration whose tag and fields need no
/// more bits than its representation has is never refused.
pub proof fn lemma_accepted(repr: Option<Seq<char>>, decl: EnumDecl, tag_width: nat)
    ensures
        layout_error(repr, decl, tag_width) is None <==> legal(repr, decl, tag_width),
{
    lemma_kind_widths(repr, false);
    if repr is Some && largest(repr->0) is Some {
        lemma_largest(repr->0);
        let width = (kind_named(repr, false)->Ok_0).width();
        lemma_pow2_order(tag_width, width);
        if tag_width <= width {
            lemma_variants(
                decl.variants@,
                width,
                tag_width,
                largest(repr->0)->0,
                decl.variants@.len(),
            );
        }
    }
}

/// A layout that was accepted belongs to a legal declaration, and its tag has the fewest bits that tell
/// its variants apart.
pub proof fn lemma_layout_legal(layout: ParsedBitsum, repr: Option<Seq<char>>, decl: EnumDecl)
    requires
        layout.laid_out(repr, decl),
    ensures
        legal(repr, decl, layout.tag_width as nat),
        pow2(layout.repr_width as nat) == largest(repr->0)->0 + 1,
        decl.variants@.len() <= pow2(layout.tag_width as nat),
        forall|w: nat| w < layout.tag_width ==> #[trigger] pow2(w) < decl.variants@.len(),
        layout.variants@.len() == decl.variants@.len(),
{
    lemma_kind_widths(repr, false);
    lemma_largest(repr->0);
    let most = largest(repr->0)->0;
    let width = layout.repr_width as nat;
    lemma_pow2_order(layout.tag_width as nat, width);
    assert forall|i: int| 0 <= i < decl.variants@.len() implies legal_payload(
        (#[trigger] decl.variants@[i]).fields,
        layout.tag_width as nat,
        most,
    ) by {
        assert(variant_ok(
            layout.variants@[i],
            decl.variants@[i],
            width,
            layout.tag_width as nat,
            i as nat,
        ));
        lemma_payload(decl.variants@[i].fields, width, layout.tag_width as nat, most);
    }
    assert forall|w: nat| w < layout.tag_width implies #[trigger] pow2(w) < decl.variants@.len() by {
        lemma_pow2_order(w, (layout.tag_width - 1) as nat);
    }
}

/// The fields of a variant follow its tag without gaps, in the order of their declaration, each with
/// its name, its type and the bits that it asks for; the tag of a variant is its position.
pub proof fn lemma_layout_fields(
    layout: ParsedBitsum,
    repr: Option<Seq<char>>,
    decl: EnumDecl,
    i: int,
    k: int,
)
    requires
        layout.laid_out(repr, decl),
        0 <= i < decl.variants@.len(),
    ensures
        layout.variants@[i].name@ == decl.variants@[i].name@,
        layout.variants@[i].tag_value == i,
        decl.variants@[i].fields is Unit ==> layout.variants@[i].fields@.len() == 0,
        decl.variants@[i].fields matches FieldsDecl::Named(decls) ==> {
            let fields = layout.variants@[i].fields@;
            &&& fields.len() == decls@.len()
            &&& 0 <= k < decls@.len() ==> {
                &&& fields[k].name@ == decls@[k].name@
                &&& fields[k].bit_width == bits_of(decls@[k])
                &&& fields[k].offset == layout.tag_width + total_bits(decls@, k as nat)
                &&& fields[k].kind == PrimitiveKind::Bool <==> optional_text(decls@[k].ty) == Some(
                    "bool"@,
                )
                &&& layout.variants@[i].valid_mask == pow2(
                    layout.tag_width as nat + total_bits(decls@, decls@.len()),
                ) - 1
            }
        },
{
    let width = layout.repr_width as nat;
    let variant = layout.variants@[i];
    assert(variant_ok(variant, decl.variants@[i], width, layout.tag_width as nat, i as nat));
    lemma_kind_widths(repr, false);
    lemma_largest(repr->0);
    let fields = field_views(variant.fields@);
    assert(fields.len() == variant.fields@.len());
    if let FieldsDecl::Named(decls) = decl.variants@[i].fields {
        lemma_fields(decls@, width, layout.tag_width as nat, decls@.len());
        if 0 <= k < decls@.len() {
            assert(fields[k] == variant.fields@[k].field());
            lemma_kind_widths(optional_text(decls@[k].ty), true);
            lemma_type_names();
        }
    }
}

/// In packed bits the lowest bits hold the variant, and each field stands where the bits of the tag and
/// of the fields before it end.
pub proof fn lemma_packed_bits(
    layout: ParsedBitsum,
    repr: Option<Seq<char>>,
    decl: EnumDecl,
    i: int,
    values: Seq<nat>,
    k: int,
)
    requires
        layout.laid_out(repr, decl),
        0 <= i < decl.variants@.len(),
        values_fit(layout.fields_of(i), values),
    ensures
        layout.encoding(i, values) % pow2(layout.tag_width as nat) == i,
        decl.variants@[i].fields matches FieldsDecl::Named(decls) ==> {
            &&& values.len() == decls@.len()
            &&& layout.encoding(i, values) < pow2(
                layout.tag_width as nat + total_bits(decls@, decls@.len()),
            )
            &&& 0 <= k < decls@.len() ==> {
                let offset = layout.tag_width as nat + total_bits(decls@, k as nat);
                &&& (layout.encoding(i, values) / pow2(offset)) % pow2(bits_of(decls@[k]))
                    == values[k]
                &&& values[k] < pow2(bits_of(decls@[k]))
            }
        },
        decl.variants@[i].fields is Unit ==> layout.encoding(i, values) == i,
{
    layout.lemma_round_trip(i, values);
    lemma_layout_fields(layout, repr, decl, i, k);
    let fields = layout.fields_of(i);
    let width = layout.repr_width as nat;
    assert(variant_ok(
        layout.variants@[i],
        decl.variants@[i],
        width,
        layout.tag_width as nat,
        i as nat,
    ));
    lemma_kind_widths(repr, false);
    lemma_largest(repr->0);
    if let FieldsDecl::Named(decls) = decl.variants@[i].fields {
        lemma_fields(decls@, width, layout.tag_width as nat, decls@.len());
        if 0 <= k < decls@.len() {
            let bits = layout.encoding(i, values);
            assert(field_values(fields, bits)[k] == values[k]);
            assert(values[k] < pow2(fields[k].width));
        }
    }
}

/// Bits are valid exactly when they encode some variant with values that fit.
pub proof fn lemma_valid_bits(layout: ParsedBitsum, bits: nat)
    requires
        layout.wf(),
    ensures
        layout.valid(bits) <==> exists|i: int, values: Seq<nat>|
            0 <= i < layout.variants@.len() && values_fit(layout.fields_of(i), values) && bits
                == #[trigger] layout.encoding(i, values),
{
    if layout.valid(bits) {
        let i = layout.tag_of(bits) as int;
        let values = field_values(layout.fields_of(i), bits);
        layout.lemma_rebuilt(bits);
        crate::bitsum::packed::lemma_field_values_fit(layout.fields_of(i), bits);
        assert(bits == layout.encoding(i, values));
    }
    if exists|i: int, values: Seq<nat>|
        0 <= i < layout.variants@.len() && values_fit(layout.fields_of(i), values) && bits
            == #[trigger] layout.encoding(i, values) {
        let (i, values) = choose|i: int, values: Seq<nat>|
            0 <= i < layout.variants@.len() && values_fit(layout.fields_of(i), values) && bits
                == #[trigger] layout.encoding(i, values);
        layout.lemma_round_trip(i, values);
    }
}

/// The characters of a text without underscores.
pub open spec fn letters(text: Seq<char>) -> Seq<char>
    decreases text.len(),
{
    if text.len() == 0 {
        Seq::empty()
    } else if text.last() == '_' {
        letters(text.drop_last())
    } else {
        letters(text.drop_last()).push(text.last())
    }
}

/// A letter and its lower-case form, of an upper-case letter; two equal characters otherwise.
pub open spec fn same_letter(a: char, b: char) -> bool {
    if 'A' <= a <= 'Z' {
        b as u32 == a as u32 + 32
    } else {
        a == b
    }
}

proof fn lemma_letters_push(text: Seq<char>, c: char)
    ensures
        letters(text.push(c)) == if c == '_' {
            letters(text)
        } else {
            letters(text).push(c)
        },
{
    assert(text.push(c).drop_last() =~= text);
}

proof fn lemma_lowered(c: char)
    requires
        upper(c),
    ensures
        lower(lowered(c)),
        same_letter(c, lowered(c)),
        lowered(c) != '_',
{
    let b = c as u8;
    assert(65 <= b <= 90);
    let l = (b + 32) as u8;
    assert(97 <= l <= 122);
    assert(l as char == lowered(c));
}

proof fn lemma_snake_steps(name: Seq<char>, n: nat)
    requires
        n <= name.len(),
    ensures
        forall|k: int| 0 <= k < snake(name, n).len() ==> !upper(#[trigger] snake(name, n)[k]),
        letters(snake(name, n)).len() == letters(name.take(n as int)).len(),
        forall|k: int|
            0 <= k < letters(snake(name, n)).len() ==> same_letter(
                letters(name.take(n as int))[k],
                #[trigger] letters(snake(name, n))[k],
            ),
        (forall|k: int| 0 <= k < n ==> !upper(#[trigger] name[k])) ==> snake(name, n) == name.take(
            n as int,
        ),
        n <= snake(name, n).len() <= 2 * n,
    decreases n,
{
    if n == 0 {
        assert(name.take(0) =~= Seq::<char>::empty());
    } else {
        lemma_snake_steps(name, (n - 1) as nat);
        let out = snake(name, (n - 1) as nat);
        let c = name[n - 1];
        let shorter = name.take(n - 1);
        assert(name.take(n as int) =~= shorter.push(c));
        lemma_letters_push(shorter, c);
        lemma_letters_push(out, '_');
        if upper(c) {
            lemma_lowered(c);
            lemma_letters_push(out, lowered(c));
            lemma_letters_push(out.push('_'), lowered(c));
        } else {
            lemma_letters_push(out, c);
        }
    }
}

/// Snake case keeps the letters of a name and lowers them: apart from underscores, the characters are
/// those of the name in lower case. A name without upper-case letters stays as it is.
pub proof fn lemma_snake_case(name: Seq<char>)
    ensures
        forall|k: int|
            0 <= k < snake_case(name).len() ==> !('A' <= #[trigger] snake_case(name)[k] <= 'Z'),
        letters(snake_case(name)).len() == letters(name).len(),
        forall|k: int|
            0 <= k < letters(name).len() ==> same_letter(
                letters(name)[k],
                #[trigger] letters(snake_case(name))[k],
            ),
        (forall|k: int| 0 <= k < name.len() ==> !('A' <= #[trigger] name[k] <= 'Z'))
            ==> snake_case(name) == name,
{
    lemma_snake_steps(name, name.len());
    assert(name.take(name.len() as int) =~= name);
    assert forall|k: int| 0 <= k < snake_case(name).len() implies !('A' <= #[trigger] snake_case(
        name,
    )[k] <= 'Z') by {
        assert(!upper(snake(name, name.len())[k]));
    }
    if forall|k: int| 0 <= k < name.len() ==> !('A' <= #[trigger] name[k] <= 'Z') {
        assert forall|k: int| 0 <= k < name.len() implies !upper(#[trigger] name[k]) by {}
    }
}

/// The number of characters that the first `n` characters of a name become: one each, and one more for
/// every upper-case letter, but the first character, that follows a lower-case letter of the name or an
/// already lowered one, or that is followed by a lower-case letter.
pub proof fn lemma_snake_words(name: Seq<char>, k: nat)
    requires
        0 < k < name.len(),
    ensures
        ({
            let before = snake(name, k);
            let after = snake(name, k + 1);
            let starts = upper(name[k as int]) && (lower(name[k - 1]) || upper(name[k - 1]) || k + 1
                < name.len() && lower(name[k as int + 1]));
            &&& starts ==> after.len() == before.len() + 2 && after[before.len() as int] == '_'
            &&& !upper(name[k as int]) ==> after.len() == before.len() + 1
        }),
{
    lemma_snake_steps(name, k);
    let before = snake(name, k);
    let previous = snake(name, (k - 1) as nat);
    if upper(name[k - 1]) {
        lemma_lowered(name[k - 1]);
    }
    assert(before.len() > 0);
    assert(upper(name[k - 1]) || lower(name[k - 1]) ==> lower(before.last()));
}

} // verus!
