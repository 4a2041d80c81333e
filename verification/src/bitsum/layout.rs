//! Layout of packed tagged unions.

use crate::qfuf::sexpr::text_copy;
use crate::text::{chars_of, decimal, decimal_text, joined, joined3, same_text, text_of};
use vstd::arithmetic::power2::{
    lemma_pow2_adds, lemma_pow2_pos, lemma_pow2_strictly_increases, lemma_pow2_unfold, pow2,
};
use vstd::prelude::*;

verus! {

/// A supported fixed-width primitive kind.
#[derive(Clone, Copy, Debug, Eq, PartialEq, Structural)]
pub enum PrimitiveKind {
    /// Boolean values packed into a single bit.
    Bool,
    /// An unsigned integer with the given bit width.
    Unsigned(u32),
}

/// The kind that a type name stands for, or the error message.
///
/// `name` is nothing where the type is not a plain name.
pub open spec fn kind_named(name: Option<Seq<char>>, allow_bool: bool) -> Result<
    PrimitiveKind,
    Seq<char>,
> {
    match name {
        None => Err("expected a primitive unsigned integer type"@),
        Some(name) => if name == "bool"@ && allow_bool {
            Ok(PrimitiveKind::Bool)
        } else if name == "u8"@ {
            Ok(PrimitiveKind::Unsigned(8))
        } else if name == "u16"@ {
            Ok(PrimitiveKind::Unsigned(16))
        } else if name == "u32"@ {
            Ok(PrimitiveKind::Unsigned(32))
        } else if name == "u64"@ {
            Ok(PrimitiveKind::Unsigned(64))
        } else if name == "u128"@ {
            Ok(PrimitiveKind::Unsigned(128))
        } else if allow_bool {
            Err("expected `bool` or a primitive unsigned integer type"@)
        } else {
            Err("expected a primitive unsigned integer type"@)
        },
    }
}

/// The text of an optional name.
pub open spec fn optional_text(name: Option<String>) -> Option<Seq<char>> {
    match name {
        Some(name) => Some(name@),
        None => None,
    }
}

impl PrimitiveKind {
    /// The width in bits.
    pub open spec fn width(self) -> nat {
        match self {
            PrimitiveKind::Bool => 1,
            PrimitiveKind::Unsigned(width) => width as nat,
        }
    }

    /// Parses a supported primitive type.
    pub fn parse(name: &Option<String>, allow_bool: bool) -> (result: Result<Self, String>)
        ensures
            match kind_named(optional_text(*name), allow_bool) {
                Ok(kind) => result is Ok && result->Ok_0 == kind,
                Err(error) => result is Err && result->Err_0@ == error,
            },
    {
        let name = match name {
            None => {
                return Err("expected a primitive unsigned integer type".to_owned());
            },
            Some(name) => name.as_str(),
        };
        if same_text(name, "bool") && allow_bool {
            Ok(PrimitiveKind::Bool)
        } else if same_text(name, "u8") {
            Ok(PrimitiveKind::Unsigned(8))
        } else if same_text(name, "u16") {
            Ok(PrimitiveKind::Unsigned(16))
        } else if same_text(name, "u32") {
            Ok(PrimitiveKind::Unsigned(32))
        } else if same_text(name, "u64") {
            Ok(PrimitiveKind::Unsigned(64))
        } else if same_text(name, "u128") {
            Ok(PrimitiveKind::Unsigned(128))
        } else if allow_bool {
            Err("expected `bool` or a primitive unsigned integer type".to_owned())
        } else {
            Err("expected a primitive unsigned integer type".to_owned())
        }
    }

    /// Returns the bit width of the primitive type.
    pub fn bit_width(self) -> (width: u32)
        ensures
            width == self.width(),
    {
        match self {
            PrimitiveKind::Bool => 1,
            PrimitiveKind::Unsigned(width) => width,
        }
    }

    /// Returns whether the type is `bool`.
    pub fn is_bool(self) -> (answer: bool)
        ensures
            answer == (self == PrimitiveKind::Bool),
    {
        match self {
            PrimitiveKind::Bool => true,
            PrimitiveKind::Unsigned(_) => false,
        }
    }
}

/// The width annotation of a field.
#[derive(Debug, PartialEq, Eq)]
pub enum BitsAttr {
    /// There is none.
    Missing,
    /// It cannot be read, for this reason.
    Invalid(String),
    /// It asks for this number of bits.
    Bits(u32),
}

/// The width that an annotation asks for, or the error message.
pub open spec fn bits_asked(attr: BitsAttr) -> Result<u32, Seq<char>> {
    match attr {
        BitsAttr::Missing => Err("missing `#[bits(...)]` attribute"@),
        BitsAttr::Invalid(error) => Err(error@),
        BitsAttr::Bits(bits) => if bits == 0 {
            Err("`#[bits(0)]` is not allowed"@)
        } else {
            Ok(bits)
        },
    }
}

/// Extracts the width from the annotation of one field.
pub fn parse_bits_attr(attr: &BitsAttr) -> (result: Result<u32, String>)
    ensures
        match bits_asked(*attr) {
            Ok(bits) => result is Ok && result->Ok_0 == bits,
            Err(error) => result is Err && result->Err_0@ == error,
        },
{
    match attr {
        BitsAttr::Missing => Err("missing `#[bits(...)]` attribute".to_owned()),
        BitsAttr::Invalid(error) => Err(text_copy(error)),
        BitsAttr::Bits(bits) => if *bits == 0 {
            Err("`#[bits(0)]` is not allowed".to_owned())
        } else {
            Ok(*bits)
        },
    }
}

/// One declared field.
#[derive(Debug, PartialEq, Eq)]
pub struct FieldDecl {
    /// Field name.
    pub name: String,
    /// Type name, where the type is a plain name.
    pub ty: Option<String>,
    /// Width annotation.
    pub bits: BitsAttr,
}

/// The declared payload of a variant.
#[derive(Debug, PartialEq, Eq)]
pub enum FieldsDecl {
    /// No payload.
    Unit,
    /// Named fields.
    Named(Vec<FieldDecl>),
    /// Fields without names, which are not supported.
    Unnamed,
}

/// One declared variant.
#[derive(Debug, PartialEq, Eq)]
pub struct VariantDecl {
    /// Variant name.
    pub name: String,
    /// Declared payload.
    pub fields: FieldsDecl,
}

/// One declaration.
#[derive(Debug, PartialEq, Eq)]
pub struct EnumDecl {
    /// Declared name.
    pub name: String,
    /// Declared variants.
    pub variants: Vec<VariantDecl>,
}

/// A field of a layout.
#[derive(Debug, PartialEq, Eq)]
pub struct ParsedField {
    /// Field name.
    pub name: String,
    /// Primitive kind of the field's type.
    pub kind: PrimitiveKind,
    /// Number of bits of the field.
    pub bit_width: u32,
    /// First bit of the field.
    pub offset: u32,
}

/// A variant of a layout.
#[derive(Debug, PartialEq, Eq)]
pub struct ParsedVariant {
    /// Variant name.
    pub name: String,
    /// Constructor name.
    pub constructor: String,
    /// Tag.
    pub tag_value: u32,
    /// Fields.
    pub fields: Vec<ParsedField>,
    /// All bits that may be set in a valid value.
    pub valid_mask: u128,
}

/// A validated layout.
#[derive(Debug, PartialEq, Eq)]
pub struct ParsedBitsum {
    /// Name of the packed type.
    pub struct_name: String,
    /// Name of the tag enum.
    pub tag_name: String,
    /// Name of the match macro.
    pub match_macro: String,
    /// Name of the `if let` macro.
    pub if_let_macro: String,
    /// Name of the `while let` macro.
    pub while_let_macro: String,
    /// Name of the `matches` macro.
    pub matches_macro: String,
    /// Width of the representation in bits.
    pub repr_width: u32,
    /// Number of bits reserved for tags.
    pub tag_width: u32,
    /// Mask of the tag bits.
    pub tag_mask: u128,
    /// Variants in declaration order.
    pub variants: Vec<ParsedVariant>,
}

/// Returns two to the power of `n`.
pub fn power(n: u32) -> (result: u128)
    requires
        n < 128,
    ensures
        result == pow2(n as nat),
{
    let mut result: u128 = 1;
    let mut i: u32 = 0;
    proof {
        vstd::arithmetic::power2::lemma2_to64();
    }
    while i < n
        invariant
            0 <= i <= n,
            n < 128,
            result == pow2(i as nat),
        decreases n - i,
    {
        proof {
            lemma_pow2_unfold((i + 1) as nat);
            lemma_power_fits((i + 1) as nat);
        }
        result = result * 2;
        i += 1;
    }
    result
}

/// Powers below the width of the widest integer fit it.
pub proof fn lemma_power_fits(n: nat)
    requires
        n <= 128,
    ensures
        n < 128 ==> pow2(n) <= u128::MAX,
        pow2(n) <= u128::MAX + 1,
        pow2(128) == u128::MAX + 1,
{
    vstd::arithmetic::power2::lemma2_to64();
    lemma_pow2_adds(64, 64);
    assert(pow2(128) == u128::MAX + 1);
    if n < 128 {
        lemma_pow2_strictly_increases(n, 128);
    }
}

/// Converts a bit width into a bit mask.
pub fn bits_mask(width: u32) -> (mask: u128)
    requires
        width <= 128,
    ensures
        mask == pow2(width as nat) - 1,
{
    proof {
        lemma_power_fits(width as nat);
        lemma_pow2_pos(width as nat);
    }
    if width == 128 {
        u128::MAX
    } else {
        power(width) - 1
    }
}

/// The least exponent whose power of two is at least `value`.
pub open spec fn is_log2(value: nat, w: nat) -> bool {
    &&& value <= pow2(w)
    &&& w > 0 ==> pow2((w - 1) as nat) < value
}

/// Computes `ceil(log2(value))`, with `0` for `value <= 1`.
pub fn ceil_log2(value: usize) -> (w: u32)
    ensures
        value > 0 ==> is_log2(value as nat, w as nat),
        value == 0 ==> w == 0,
        w <= 64,
{
    if value <= 1 {
        proof {
            vstd::arithmetic::power2::lemma2_to64();
        }
        return 0;
    }
    let target: u128 = value as u128;
    let mut w: u32 = 0;
    let mut reached: u128 = 1;
    proof {
        vstd::arithmetic::power2::lemma2_to64();
    }
    while reached < target
        invariant
            w <= 64,
            reached == pow2(w as nat),
            1 < target == value,
            w > 0 ==> pow2((w - 1) as nat) < value,
            pow2(64) == 0x1_0000_0000_0000_0000,
        decreases 64 - w,
    {
        proof {
            lemma_pow2_unfold((w + 1) as nat);
            assert(w < 64);
        }
        reached = reached * 2;
        w += 1;
    }
    w
}

/// An ASCII upper-case letter.
pub open spec fn upper(c: char) -> bool {
    'A' <= c <= 'Z'
}

/// An ASCII lower-case letter.
pub open spec fn lower(c: char) -> bool {
    'a' <= c <= 'z'
}

/// The lower-case form of an ASCII upper-case letter.
pub open spec fn lowered(c: char) -> char {
    ((c as u8) + 32) as u8 as char
}

/// The first `n` characters of a name in snake case.
pub open spec fn snake(name: Seq<char>, n: nat) -> Seq<char>
    decreases n,
{
    if n == 0 {
        Seq::empty()
    } else {
        let out = snake(name, (n - 1) as nat);
        let c = name[n - 1];
        if upper(c) {
            if out.len() > 0 && (lower(out.last()) || n < name.len() && lower(name[n as int])) {
                out.push('_').push(lowered(c))
            } else {
                out.push(lowered(c))
            }
        } else {
            out.push(c)
        }
    }
}

/// A name in snake case.
pub open spec fn snake_case(name: Seq<char>) -> Seq<char> {
    snake(name, name.len())
}

/// Converts an identifier to snake case for generated names.
pub fn to_snake_case(name: &str) -> (text: String)
    ensures
        text@ == snake_case(name@),
{
    let chars = chars_of(name);
    let mut out: Vec<char> = Vec::new();
    let mut i: usize = 0;
    while i < chars.len()
        invariant
            0 <= i <= chars.len(),
            chars@ == name@,
            out@ == snake(name@, i as nat),
        decreases chars.len() - i,
    {
        let c = chars[i];
        let next_is_lower = i + 1 < chars.len() && chars[i + 1] >= 'a' && chars[i + 1] <= 'z';
        if c >= 'A' && c <= 'Z' {
            if out.len() > 0 {
                let last = out[out.len() - 1];
                if (last >= 'a' && last <= 'z') || next_is_lower {
                    out.push('_');
                }
            }
            out.push(((c as u8) + 32) as char);
        } else {
            out.push(c);
        }
        i += 1;
    }
    text_of(out.as_slice())
}

/// One field of a layout as a mathematical value.
#[verifier::ext_equal]
pub struct FieldView {
    /// Field name.
    pub name: Seq<char>,
    /// Primitive kind.
    pub kind: PrimitiveKind,
    /// Number of bits.
    pub width: nat,
    /// First bit.
    pub offset: nat,
}

impl ParsedField {
    /// The field as a mathematical value.
    pub open spec fn field(self) -> FieldView {
        FieldView {
            name: self.name@,
            kind: self.kind,
            width: self.bit_width as nat,
            offset: self.offset as nat,
        }
    }
}

/// The fields as mathematical values.
pub open spec fn field_views(fields: Seq<ParsedField>) -> Seq<FieldView> {
    fields.map_values(|f: ParsedField| f.field())
}

/// The first bit after the first `n` fields.
pub open spec fn end_of(fields: Seq<FieldView>, start: nat, n: nat) -> nat {
    if n == 0 {
        start
    } else {
        fields[n - 1].offset + fields[n - 1].width
    }
}

/// The field that a declaration gives at the next offset, or the error message.
pub open spec fn field_layout(decl: FieldDecl, repr_width: nat, offset: nat) -> Result<
    FieldView,
    Seq<char>,
> {
    match kind_named(optional_text(decl.ty), true) {
        Err(error) => Err(error),
        Ok(kind) => match bits_asked(decl.bits) {
            Err(error) => Err(error),
            Ok(bits) => if kind == PrimitiveKind::Bool && bits != 1 {
                Err("`bool` fields must use exactly `#[bits(1)]`"@)
            } else if bits > kind.width() {
                Err(
                    "field type is "@ + decimal_text(kind.width()) + " bits wide but `#[bits("@
                        + decimal_text(bits as nat) + ")]` was requested"@,
                )
            } else if offset + bits > u32::MAX {
                Err("field layout overflowed"@)
            } else if offset + bits > repr_width {
                Err("variant payload does not fit in the chosen representation"@)
            } else {
                Ok(FieldView { name: decl.name@, kind, width: bits as nat, offset })
            },
        },
    }
}

/// The first `n` fields of a variant, or the first error message.
pub open spec fn fields_layout(
    decls: Seq<FieldDecl>,
    repr_width: nat,
    tag_width: nat,
    n: nat,
) -> Result<Seq<FieldView>, Seq<char>>
    decreases n,
{
    if n == 0 {
        Ok(Seq::empty())
    } else {
        match fields_layout(decls, repr_width, tag_width, (n - 1) as nat) {
            Err(error) => Err(error),
            Ok(fields) => match field_layout(
                decls[n - 1],
                repr_width,
                end_of(fields, tag_width, fields.len()),
            ) {
                Err(error) => Err(error),
                Ok(field) => Ok(fields.push(field)),
            },
        }
    }
}

/// The fields of a declared payload, or the error message.
pub open spec fn payload_layout(payload: FieldsDecl, repr_width: nat, tag_width: nat) -> Result<
    Seq<FieldView>,
    Seq<char>,
> {
    match payload {
        FieldsDecl::Unit => Ok(Seq::empty()),
        FieldsDecl::Named(decls) => fields_layout(decls@, repr_width, tag_width, decls@.len()),
        FieldsDecl::Unnamed => Err(
            "`#[bitsum]` currently supports only unit variants and variants with named fields"@,
        ),
    }
}

/// Fields follow each other from `start` on, within the representation.
pub open spec fn contiguous(fields: Seq<FieldView>, start: nat, limit: nat) -> bool {
    &&& forall|k: int|
        0 <= k < fields.len() ==> {
            &&& (#[trigger] fields[k]).offset == end_of(fields, start, k as nat)
            &&& 0 < fields[k].width
            &&& fields[k].kind == PrimitiveKind::Bool ==> fields[k].width == 1
            &&& fields[k].offset + fields[k].width <= limit
        }
    &&& start <= limit
}

/// The variant is what its declaration gives.
pub open spec fn variant_ok(
    variant: ParsedVariant,
    decl: VariantDecl,
    repr_width: nat,
    tag_width: nat,
    tag: nat,
) -> bool {
    let fields = field_views(variant.fields@);
    &&& variant.name@ == decl.name@
    &&& variant.constructor@ == snake_case(decl.name@)
    &&& variant.tag_value == tag
    &&& payload_layout(decl.fields, repr_width, tag_width) == Ok::<Seq<FieldView>, Seq<char>>(
        fields,
    )
    &&& variant_fits(variant, repr_width, tag_width)
}

/// Fields are contiguous, and the mask holds the tag and field bits.
pub open spec fn variant_fits(variant: ParsedVariant, repr_width: nat, tag_width: nat) -> bool {
    let fields = field_views(variant.fields@);
    &&& contiguous(fields, tag_width, repr_width)
    &&& variant.valid_mask == pow2(end_of(fields, tag_width, fields.len())) - 1
}

proof fn lemma_fields_err(
    decls: Seq<FieldDecl>,
    repr_width: nat,
    tag_width: nat,
    k: nat,
    n: nat,
)
    requires
        k <= n,
        fields_layout(decls, repr_width, tag_width, k) is Err,
    ensures
        fields_layout(decls, repr_width, tag_width, n) == fields_layout(
            decls,
            repr_width,
            tag_width,
            k,
        ),
    decreases n,
{
    if k < n {
        lemma_fields_err(decls, repr_width, tag_width, k, (n - 1) as nat);
    }
}

/// Lays out one field.
fn parse_field(decl: &FieldDecl, repr_width: u32, offset: u32) -> (result: Result<
    ParsedField,
    String,
>)
    ensures
        match field_layout(*decl, repr_width as nat, offset as nat) {
            Ok(field) => result is Ok && (result->Ok_0).field() == field,
            Err(error) => result is Err && result->Err_0@ == error,
        },
{
    let kind = match PrimitiveKind::parse(&decl.ty, true) {
        Err(error) => return Err(error),
        Ok(kind) => kind,
    };
    let bit_width = match parse_bits_attr(&decl.bits) {
        Err(error) => return Err(error),
        Ok(bits) => bits,
    };
    if kind.is_bool() && bit_width != 1 {
        return Err("`bool` fields must use exactly `#[bits(1)]`".to_owned());
    }
    if bit_width > kind.bit_width() {
        let wide = decimal(kind.bit_width() as u64);
        let asked = decimal(bit_width as u64);
        let start = joined3("field type is ", wide.as_str(), " bits wide but `#[bits(");
        return Err(joined3(start.as_str(), asked.as_str(), ")]` was requested"));
    }
    let end_offset = match offset.checked_add(bit_width) {
        None => {
            return Err("field layout overflowed".to_owned());
        },
        Some(end) => end,
    };
    if end_offset > repr_width {
        return Err("variant payload does not fit in the chosen representation".to_owned());
    }
    Ok(ParsedField { name: text_copy(&decl.name), kind, bit_width, offset })
}

/// Lays out one variant.
pub fn parse_variant(repr_width: u32, tag_width: u32, tag_value: u32, variant: &VariantDecl) -> (
    result: Result<ParsedVariant, String>)
    requires
        tag_width <= repr_width <= 128,
    ensures
        match payload_layout(variant.fields, repr_width as nat, tag_width as nat) {
            Ok(_) => result is Ok && variant_ok(
                result->Ok_0,
                *variant,
                repr_width as nat,
                tag_width as nat,
                tag_value as nat,
            ),
            Err(error) => result is Err && result->Err_0@ == error,
        },
{
    let constructor = to_snake_case(variant.name.as_str());
    let mut fields: Vec<ParsedField> = Vec::new();
    let mut next_offset = tag_width;
    let mut valid_mask = bits_mask(tag_width);
    let ghost rw = repr_width as nat;
    let ghost tw = tag_width as nat;
    proof {
        assert(field_views(fields@) =~= Seq::<FieldView>::empty());
    }
    match &variant.fields {
        FieldsDecl::Unit => {},
        FieldsDecl::Unnamed => {
            return Err(
                "`#[bitsum]` currently supports only unit variants and variants with named fields".to_owned(),
            );
        },
        FieldsDecl::Named(decls) => {
            let mut i: usize = 0;
            while i < decls.len()
                invariant
                    0 <= i <= decls.len(),
                    variant.fields == FieldsDecl::Named(*decls),
                    rw == repr_width,
                    tw == tag_width,
                    tag_width <= repr_width <= 128,
                    fields_layout(decls@, rw, tw, i as nat) == Ok::<Seq<FieldView>, Seq<char>>(
                        field_views(fields@),
                    ),
                    fields@.len() == i,
                    next_offset == end_of(field_views(fields@), tw, i as nat),
                    next_offset <= repr_width,
                    contiguous(field_views(fields@), tw, rw),
                    valid_mask == pow2(next_offset as nat) - 1,
                decreases decls.len() - i,
            {
                let ghost before = field_views(fields@);
                let field = match parse_field(&decls[i], repr_width, next_offset) {
                    Err(error) => {
                        proof {
                            lemma_fields_err(decls@, rw, tw, (i + 1) as nat, decls@.len());
                        }
                        return Err(error);
                    },
                    Ok(field) => field,
                };
                let end_offset = next_offset + field.bit_width;
                let ghost view = field.field();
                let width = field.bit_width;
                proof {
                    lemma_mask_grows(next_offset as nat, width as nat);
                    lemma_power_fits(end_offset as nat);
                    lemma_power_fits(next_offset as nat);
                    lemma_pow2_pos(width as nat);
                }
                let field_mask = bits_mask(width);
                valid_mask = valid_mask + field_mask * power(next_offset);
                fields.push(field);
                next_offset = end_offset;
                proof {
                    let after = field_views(fields@);
                    assert(after =~= before.push(view));
                    assert forall|k: int| 0 <= k < after.len() implies {
                        &&& (#[trigger] after[k]).offset == end_of(after, tw, k as nat)
                        &&& 0 < after[k].width
                        &&& after[k].kind == PrimitiveKind::Bool ==> after[k].width == 1
                        &&& after[k].offset + after[k].width <= rw
                    } by {
                        if k < i {
                            assert(after[k] == before[k]);
                            if k > 0 {
                                assert(after[k - 1] == before[k - 1]);
                            }
                        } else if k > 0 {
                            assert(after[k - 1] == before[k - 1]);
                        }
                    }
                }
                i += 1;
            }
        },
    }
    Ok(
        ParsedVariant {
            name: text_copy(&variant.name),
            constructor,
            tag_value,
            fields,
            valid_mask,
        },
    )
}

/// A mask extended by the bits after it.
pub proof fn lemma_mask_grows(offset: nat, width: nat)
    ensures
        (pow2(offset) - 1) + (pow2(width) - 1) * pow2(offset) == pow2(offset + width) - 1,
{
    lemma_pow2_adds(offset, width);
    let a = pow2(offset) as int;
    let b = pow2(width) as int;
    assert((a - 1) + (b - 1) * a == a * b - 1) by (nonlinear_arith);
}

/// The first `n` variants can be laid out; otherwise the first error message.
pub open spec fn variants_layout(
    decls: Seq<VariantDecl>,
    repr_width: nat,
    tag_width: nat,
    n: nat,
) -> Result<(), Seq<char>>
    decreases n,
{
    if n == 0 {
        Ok(())
    } else {
        match variants_layout(decls, repr_width, tag_width, (n - 1) as nat) {
            Err(error) => Err(error),
            Ok(_) => match payload_layout(decls[n - 1].fields, repr_width, tag_width) {
                Err(error) => Err(error),
                Ok(_) => Ok(()),
            },
        }
    }
}

proof fn lemma_variants_err(
    decls: Seq<VariantDecl>,
    repr_width: nat,
    tag_width: nat,
    k: nat,
    n: nat,
)
    requires
        k <= n,
        variants_layout(decls, repr_width, tag_width, k) is Err,
    ensures
        variants_layout(decls, repr_width, tag_width, n) == variants_layout(
            decls,
            repr_width,
            tag_width,
            k,
        ),
    decreases n,
{
    if k < n {
        lemma_variants_err(decls, repr_width, tag_width, k, (n - 1) as nat);
    }
}

/// The error message of a declaration that cannot be laid out with tags of this width.
pub open spec fn layout_error(repr: Option<Seq<char>>, decl: EnumDecl, tag_width: nat) -> Option<
    Seq<char>,
> {
    match kind_named(repr, false) {
        Err(error) => Some(error),
        Ok(kind) => if decl.variants@.len() == 0 {
            Some("`#[bitsum]` requires at least one enum variant"@)
        } else if tag_width > kind.width() {
            Some("representation is too small to encode all variant tags"@)
        } else {
            match variants_layout(
                decl.variants@,
                kind.width(),
                tag_width,
                decl.variants@.len(),
            ) {
                Err(error) => Some(error),
                Ok(_) => None,
            }
        },
    }
}

impl ParsedBitsum {
    /// Tags are numbered in order and fit, and all variants fit the representation.
    pub open spec fn wf(&self) -> bool {
        &&& self.tag_width <= self.repr_width <= 128
        &&& 0 < self.variants@.len() <= pow2(self.tag_width as nat)
        &&& self.tag_width <= 64
        &&& self.tag_mask == pow2(self.tag_width as nat) - 1
        &&& forall|i: int|
            0 <= i < self.variants@.len() ==> (#[trigger] self.variants@[i]).tag_value == i
                && variant_fits(
                self.variants@[i],
                self.repr_width as nat,
                self.tag_width as nat,
            )
    }

    /// The layout is what the declaration gives.
    pub open spec fn laid_out(&self, repr: Option<Seq<char>>, decl: EnumDecl) -> bool {
        let snaked = snake_case(decl.name@);
        &&& self.wf()
        &&& kind_named(repr, false) is Ok
        &&& self.repr_width == (kind_named(repr, false)->Ok_0).width()
        &&& is_log2(decl.variants@.len(), self.tag_width as nat)
        &&& self.struct_name@ == decl.name@
        &&& self.tag_name@ == decl.name@ + "Tag"@
        &&& self.match_macro@ == "match_"@ + snaked
        &&& self.if_let_macro@ == "if_let_"@ + snaked
        &&& self.while_let_macro@ == "while_let_"@ + snaked
        &&& self.matches_macro@ == "matches_"@ + snaked
        &&& self.variants@.len() == decl.variants@.len()
        &&& forall|i: int|
            0 <= i < self.variants@.len() ==> variant_ok(
                #[trigger] self.variants@[i],
                decl.variants@[i],
                self.repr_width as nat,
                self.tag_width as nat,
                i as nat,
            )
    }

    /// Parses and validates a declaration.
    pub fn parse(repr: &Option<String>, decl: &EnumDecl) -> (result: Result<Self, String>)
        requires
            decl.variants@.len() <= u32::MAX,
        ensures
            match result {
                Ok(layout) => layout.laid_out(optional_text(*repr), *decl),
                Err(error) => exists|w: nat|
                    (decl.variants@.len() > 0 ==> is_log2(decl.variants@.len(), w))
                        && #[trigger] layout_error(optional_text(*repr), *decl, w) == Some(error@),
            },
    {
        let kind = match PrimitiveKind::parse(repr, false) {
            Err(error) => {
                proof {
                    let w = lemma_log2_exists(decl.variants@.len());
                    assert(layout_error(optional_text(*repr), *decl, w) == Some(error@));
                }
                return Err(error);
            },
            Ok(kind) => kind,
        };
        let repr_width = kind.bit_width();
        let tag_width = ceil_log2(decl.variants.len());
        if decl.variants.len() == 0 {
            proof {
                assert(layout_error(optional_text(*repr), *decl, tag_width as nat) is Some);
            }
            return Err("`#[bitsum]` requires at least one enum variant".to_owned());
        }
        if tag_width > repr_width {
            proof {
                assert(layout_error(optional_text(*repr), *decl, tag_width as nat) is Some);
            }
            return Err("representation is too small to encode all variant tags".to_owned());
        }
        let snaked = to_snake_case(decl.name.as_str());
        let tag_mask = bits_mask(tag_width);
        let mut variants: Vec<ParsedVariant> = Vec::new();
        let ghost rw = repr_width as nat;
        let ghost tw = tag_width as nat;
        let mut i: usize = 0;
        while i < decl.variants.len()
            invariant
                0 <= i <= decl.variants.len(),
                decl.variants@.len() <= u32::MAX,
                rw == repr_width,
                tw == tag_width,
                tag_width <= repr_width <= 128,
                kind_named(optional_text(*repr), false) == Ok::<PrimitiveKind, Seq<char>>(kind),
                repr_width == kind.width(),
                decl.variants@.len() > 0,
                is_log2(decl.variants@.len(), tw),
                variants@.len() == i,
                variants_layout(decl.variants@, rw, tw, i as nat) is Ok,
                forall|k: int|
                    0 <= k < i ==> variant_ok(
                        #[trigger] variants@[k],
                        decl.variants@[k],
                        rw,
                        tw,
                        k as nat,
                    ),
            decreases decl.variants.len() - i,
        {
            match parse_variant(repr_width, tag_width, i as u32, &decl.variants[i]) {
                Err(error) => {
                    proof {
                        lemma_variants_err(
                            decl.variants@,
                            rw,
                            tw,
                            (i + 1) as nat,
                            decl.variants@.len(),
                        );
                        assert(layout_error(optional_text(*repr), *decl, tw) == Some(error@));
                    }
                    return Err(error);
                },
                Ok(variant) => {
                    variants.push(variant);
                },
            }
            i += 1;
        }
        Ok(
            ParsedBitsum {
                struct_name: text_copy(&decl.name),
                tag_name: joined(decl.name.as_str(), "Tag"),
                match_macro: joined("match_", snaked.as_str()),
                if_let_macro: joined("if_let_", snaked.as_str()),
                while_let_macro: joined("while_let_", snaked.as_str()),
                matches_macro: joined("matches_", snaked.as_str()),
                repr_width,
                tag_width,
                tag_mask,
                variants,
            },
        )
    }
}

/// Every number has a logarithm.
proof fn lemma_log2_exists(value: nat) -> (w: nat)
    ensures
        value > 0 ==> is_log2(value, w),
    decreases value,
{
    vstd::arithmetic::power2::lemma2_to64();
    if value <= 1 {
        0
    } else {
        let less = lemma_log2_exists((value - 1) as nat);
        if value <= pow2(less) {
            less
        } else {
            lemma_pow2_unfold((less + 1) as nat);
            lemma_pow2_pos(less);
            (less + 1) as nat
        }
    }
}

/// The tag width of a declaration is determined.
pub proof fn lemma_log2_unique(value: nat, v: nat, w: nat)
    requires
        value > 0,
        is_log2(value, v),
        is_log2(value, w),
    ensures
        v == w,
{
    if v < w {
        if v < w - 1 {
            lemma_pow2_strictly_increases(v, (w - 1) as nat);
        }
    }
    if w < v {
        if w < v - 1 {
            lemma_pow2_strictly_increases(w, (v - 1) as nat);
        }
    }
}

} // verus!
