//! Packed values: construction, validation, tags and decoding.

use crate::bitsum::layout::{
    bits_mask, contiguous, end_of, field_views, lemma_power_fits, power, variant_fits, FieldView,
    ParsedBitsum,
};
use crate::text::{decimal, decimal_text, joined3};
use vstd::arithmetic::div_mod::{
    lemma_fundamental_div_mod_converse, lemma_mod_breakdown, lemma_mod_multiples_vanish,
};
use vstd::arithmetic::power2::{lemma_pow2_adds, lemma_pow2_pos, pow2};
use vstd::prelude::*;

verus! {

/// The tag and the first `n` field values, each at its bits.
pub open spec fn packed(fields: Seq<FieldView>, tag: nat, values: Seq<nat>, n: nat) -> nat
    decreases n,
{
    if n == 0 {
        tag
    } else {
        packed(fields, tag, values, (n - 1) as nat) + values[n - 1] * pow2(fields[n - 1].offset)
    }
}

/// The value of a field in packed bits.
pub open spec fn field_value(field: FieldView, bits: nat) -> nat {
    (bits / pow2(field.offset)) % pow2(field.width)
}

/// The values of all fields in packed bits.
pub open spec fn field_values(fields: Seq<FieldView>, bits: nat) -> Seq<nat> {
    fields.map_values(|f: FieldView| field_value(f, bits))
}

/// There is one value for every field, and each fits its width.
pub open spec fn values_fit(fields: Seq<FieldView>, values: Seq<nat>) -> bool {
    &&& values.len() == fields.len()
    &&& forall|k: int| 0 <= k < values.len() ==> #[trigger] values[k] < pow2(fields[k].width)
}

/// The message for a value that does not fit its field.
pub open spec fn too_wide(field: FieldView) -> Seq<char> {
    "field `"@ + field.name + "` exceeds its declared width of "@ + decimal_text(field.width)
        + " bits"@
}

/// The numbers as mathematical values.
pub open spec fn naturals(values: Seq<u128>) -> Seq<nat> {
    values.map_values(|v: u128| v as nat)
}

/// Packed values stay below the bit after their last field.
pub proof fn lemma_packed_bound(
    fields: Seq<FieldView>,
    start: nat,
    limit: nat,
    tag: nat,
    values: Seq<nat>,
    n: nat,
)
    requires
        contiguous(fields, start, limit),
        values_fit(fields, values),
        tag < pow2(start),
        n <= fields.len(),
    ensures
        packed(fields, tag, values, n) < pow2(end_of(fields, start, n)),
    decreases n,
{
    if n > 0 {
        let k = n - 1;
        lemma_packed_bound(fields, start, limit, tag, values, k as nat);
        let offset = fields[k].offset;
        let width = fields[k].width;
        assert(offset == end_of(fields, start, k as nat));
        lemma_pow2_adds(offset, width);
        let a = pow2(offset) as int;
        let b = pow2(width) as int;
        let v = values[k] as int;
        let rest = packed(fields, tag, values, k as nat) as int;
        assert(values[k] < pow2(fields[k].width));
        assert(rest + v * a < a * b) by (nonlinear_arith)
            requires
                0 <= rest < a,
                0 <= v < b,
        ;
    }
}

/// Adding a multiple of a higher power does not change the bits below it.
proof fn lemma_higher_bits(x: nat, y: nat, offset: nat, width: nat, higher: nat)
    requires
        offset + width <= higher,
    ensures
        ((x + y * pow2(higher)) / pow2(offset)) % pow2(width) == (x / pow2(offset)) % pow2(width),
        (x + y * pow2(higher)) % pow2(offset + width) == x % pow2(offset + width),
{
    let a = pow2(offset) as int;
    let b = pow2(width) as int;
    let gap = (higher - offset - width) as nat;
    let c = pow2(gap) as int;
    lemma_pow2_pos(offset);
    lemma_pow2_pos(width);
    lemma_pow2_pos(gap);
    lemma_pow2_adds(offset, width);
    lemma_pow2_adds((offset + width) as nat, gap);
    assert(pow2(higher) == a * b * c);
    let xi = x as int;
    let yi = y as int;
    let q = xi / a;
    let r = xi % a;
    assert(xi == q * a + r) by (nonlinear_arith)
        requires
            q == xi / a,
            r == xi % a,
            a > 0,
    ;
    let extra = yi * c;
    assert(xi + yi * (a * b * c) == (q + extra * b) * a + r) by (nonlinear_arith)
        requires
            xi == q * a + r,
            extra == yi * c,
    ;
    lemma_fundamental_div_mod_converse(xi + yi * (a * b * c), a, q + extra * b, r);
    lemma_mod_multiples_vanish(extra, q, b);
    assert(b * extra + q == q + extra * b) by (nonlinear_arith);
    let ab = a * b;
    assert(ab > 0) by (nonlinear_arith)
        requires
            a > 0,
            b > 0,
            ab == a * b,
    ;
    lemma_mod_multiples_vanish(extra, xi, ab);
    assert(ab * extra + xi == xi + yi * (a * b * c)) by (nonlinear_arith)
        requires
            ab == a * b,
            extra == yi * c,
    ;
}

/// Fields start after the ones before them.
proof fn lemma_ends_increase(fields: Seq<FieldView>, start: nat, limit: nat, k: nat, n: nat)
    requires
        contiguous(fields, start, limit),
        k < n <= fields.len(),
    ensures
        start <= fields[k as int].offset,
        fields[k as int].offset + fields[k as int].width <= end_of(fields, start, n),
        end_of(fields, start, n) <= limit,
    decreases n,
{
    assert(fields[n - 1].offset == end_of(fields, start, (n - 1) as nat));
    if k < n - 1 {
        lemma_ends_increase(fields, start, limit, k, (n - 1) as nat);
    } else if n > 1 {
        lemma_ends_increase(fields, start, limit, (n - 2) as nat, (n - 1) as nat);
    }
}

/// Field `k` of a packed value is the value it was built from.
pub proof fn lemma_packed_field(
    fields: Seq<FieldView>,
    start: nat,
    limit: nat,
    tag: nat,
    values: Seq<nat>,
    n: nat,
    k: nat,
)
    requires
        contiguous(fields, start, limit),
        values_fit(fields, values),
        tag < pow2(start),
        k < n <= fields.len(),
    ensures
        field_value(fields[k as int], packed(fields, tag, values, n)) == values[k as int],
    decreases n,
{
    let last = n - 1;
    let before = packed(fields, tag, values, last as nat);
    let offset = fields[k as int].offset;
    let width = fields[k as int].width;
    assert(fields[last].offset == end_of(fields, start, last as nat));
    if k < last {
        lemma_packed_field(fields, start, limit, tag, values, last as nat, k);
        lemma_ends_increase(fields, start, limit, k, last as nat);
        lemma_higher_bits(before, values[last], offset, width, fields[last].offset);
    } else {
        lemma_packed_bound(fields, start, limit, tag, values, k);
        lemma_pow2_pos(offset);
        lemma_pow2_pos(width);
        let a = pow2(offset) as int;
        let v = values[k as int] as int;
        lemma_fundamental_div_mod_converse(before + v * a, a, v, before as int);
        assert(values[k as int] < pow2(fields[k as int].width));
        assert(v % (pow2(width) as int) == v) by (nonlinear_arith)
            requires
                0 <= v < pow2(width),
        ;
    }
}

/// The low bits of a packed value are its tag.
pub proof fn lemma_packed_tag(
    fields: Seq<FieldView>,
    start: nat,
    limit: nat,
    tag: nat,
    values: Seq<nat>,
    n: nat,
)
    requires
        contiguous(fields, start, limit),
        values_fit(fields, values),
        tag < pow2(start),
        n <= fields.len(),
    ensures
        packed(fields, tag, values, n) % pow2(start) == tag,
    decreases n,
{
    lemma_pow2_pos(start);
    if n == 0 {
        let p = pow2(start) as int;
        assert(tag as int % p == tag) by (nonlinear_arith)
            requires
                0 <= tag < p,
        ;
    } else {
        lemma_packed_tag(fields, start, limit, tag, values, (n - 1) as nat);
        lemma_ends_increase(fields, start, limit, (n - 1) as nat, n);
        lemma_higher_bits(
            packed(fields, tag, values, (n - 1) as nat),
            values[n - 1],
            0,
            start,
            fields[n - 1].offset,
        );
    }
}

/// Packing the tag and fields of a value gives back its bits up to the last field.
pub proof fn lemma_unpacked(fields: Seq<FieldView>, start: nat, limit: nat, bits: nat, n: nat)
    requires
        contiguous(fields, start, limit),
        n <= fields.len(),
    ensures
        packed(fields, bits % pow2(start), field_values(fields, bits), n) == bits % pow2(
            end_of(fields, start, n),
        ),
    decreases n,
{
    lemma_pow2_pos(start);
    if n > 0 {
        let k = n - 1;
        lemma_unpacked(fields, start, limit, bits, k as nat);
        let offset = fields[k].offset;
        let width = fields[k].width;
        assert(offset == end_of(fields, start, k as nat));
        lemma_pow2_adds(offset, width);
        lemma_pow2_pos(offset);
        lemma_pow2_pos(width);
        let a = pow2(offset) as int;
        let b = pow2(width) as int;
        lemma_mod_breakdown(bits as int, a, b);
        let v = field_value(fields[k], bits) as int;
        assert(field_values(fields, bits)[k] == v);
        assert(a * v == v * a) by (nonlinear_arith);
    }
}

/// Field values fit their fields.
pub proof fn lemma_field_values_fit(fields: Seq<FieldView>, bits: nat)
    ensures
        values_fit(fields, field_values(fields, bits)),
{
    let values = field_values(fields, bits);
    assert forall|k: int| 0 <= k < values.len() implies #[trigger] values[k] < pow2(
        fields[k].width,
    ) by {
        lemma_pow2_pos(fields[k].width);
        let q = (bits / pow2(fields[k].offset)) as int;
        let p = pow2(fields[k].width) as int;
        assert(0 <= q % p < p) by (nonlinear_arith)
            requires
                p > 0,
        ;
    }
}

impl ParsedBitsum {
    /// The fields of a variant.
    pub open spec fn fields_of(&self, variant: int) -> Seq<FieldView> {
        field_views(self.variants@[variant].fields@)
    }

    /// The packed bits of a variant with these field values.
    pub open spec fn encoding(&self, variant: int, values: Seq<nat>) -> nat {
        packed(self.fields_of(variant), variant as nat, values, values.len())
    }

    /// The tag of packed bits.
    pub open spec fn tag_of(&self, bits: nat) -> nat {
        bits % pow2(self.tag_width as nat)
    }

    /// The bits encode a declared variant, and all bits outside its fields are zero.
    pub open spec fn valid(&self, bits: nat) -> bool {
        &&& self.tag_of(bits) < self.variants@.len()
        &&& bits < pow2(
            end_of(
                self.fields_of(self.tag_of(bits) as int),
                self.tag_width as nat,
                self.fields_of(self.tag_of(bits) as int).len(),
            ),
        )
    }

    /// What a variant is built from is what it is taken apart into.
    pub proof fn lemma_round_trip(&self, variant: int, values: Seq<nat>)
        requires
            self.wf(),
            0 <= variant < self.variants@.len(),
            values_fit(self.fields_of(variant), values),
        ensures
            self.valid(self.encoding(variant, values)),
            self.tag_of(self.encoding(variant, values)) == variant,
            field_values(self.fields_of(variant), self.encoding(variant, values)) == values,
    {
        let fields = self.fields_of(variant);
        let start = self.tag_width as nat;
        let limit = self.repr_width as nat;
        let n = fields.len();
        let bits = self.encoding(variant, values);
        assert(variant_fits(self.variants@[variant], limit, start));
        lemma_packed_tag(fields, start, limit, variant as nat, values, n);
        lemma_packed_bound(fields, start, limit, variant as nat, values, n);
        assert forall|k: int| 0 <= k < n implies field_values(fields, bits)[k] == values[k] by {
            lemma_packed_field(fields, start, limit, variant as nat, values, n, k as nat);
        }
        assert(field_values(fields, bits) =~= values);
    }

    /// Building a variant from what a valid value is taken apart into gives back the value.
    pub proof fn lemma_rebuilt(&self, bits: nat)
        requires
            self.wf(),
            self.valid(bits),
        ensures
            self.encoding(
                self.tag_of(bits) as int,
                field_values(self.fields_of(self.tag_of(bits) as int), bits),
            ) == bits,
    {
        let variant = self.tag_of(bits) as int;
        let fields = self.fields_of(variant);
        let start = self.tag_width as nat;
        let n = fields.len();
        assert(variant_fits(self.variants@[variant], self.repr_width as nat, start));
        lemma_unpacked(fields, start, self.repr_width as nat, bits, n);
        let p = pow2(end_of(fields, start, n)) as int;
        assert(bits as int % p == bits) by (nonlinear_arith)
            requires
                0 <= bits < p,
        ;
    }

    /// Different variants or field values have different encodings.
    pub proof fn lemma_injective(&self, v: int, x: Seq<nat>, w: int, y: Seq<nat>)
        requires
            self.wf(),
            0 <= v < self.variants@.len(),
            0 <= w < self.variants@.len(),
            values_fit(self.fields_of(v), x),
            values_fit(self.fields_of(w), y),
            self.encoding(v, x) == self.encoding(w, y),
        ensures
            v == w,
            x == y,
    {
        self.lemma_round_trip(v, x);
        self.lemma_round_trip(w, y);
    }

    /// Constructs a variant, or names the first field whose value does not fit.
    pub fn construct(&self, variant: usize, values: &Vec<u128>) -> (result: Result<u128, String>)
        requires
            self.wf(),
            variant < self.variants@.len(),
            values@.len() == self.variants@[variant as int].fields@.len(),
        ensures
            match result {
                Ok(bits) => values_fit(self.fields_of(variant as int), naturals(values@)) && bits
                    == self.encoding(variant as int, naturals(values@)),
                Err(error) => exists|k: int|
                    {
                        &&& 0 <= k < values@.len()
                        &&& #[trigger] values@[k] >= pow2(
                            self.fields_of(variant as int)[k].width,
                        )
                        &&& forall|j: int|
                            0 <= j < k ==> #[trigger] values@[j] < pow2(
                                self.fields_of(variant as int)[j].width,
                            )
                        &&& error@ == too_wide(self.fields_of(variant as int)[k])
                    },
            },
    {
        let layout = &self.variants[variant];
        let ghost fields = self.fields_of(variant as int);
        let ghost nats = naturals(values@);
        let ghost start = self.tag_width as nat;
        let ghost limit = self.repr_width as nat;
        proof {
            assert(variant_fits(self.variants@[variant as int], limit, start));
        }
        let mut i: usize = 0;
        while i < values.len()
            invariant
                0 <= i <= values.len(),
                self.wf(),
                variant < self.variants@.len(),
                *layout == self.variants@[variant as int],
                values@.len() == layout.fields@.len(),
                fields == self.fields_of(variant as int),
                contiguous(fields, start, limit),
                limit <= 128,
                forall|j: int|
                    0 <= j < i ==> #[trigger] values@[j] < pow2(fields[j].width),
            decreases values.len() - i,
        {
            let field = &layout.fields[i];
            proof {
                assert(fields[i as int] == field.field());
                lemma_pow2_pos(field.bit_width as nat);
            }
            if values[i] > bits_mask(field.bit_width) {
                let start_text = joined3(
                    "field `",
                    field.name.as_str(),
                    "` exceeds its declared width of ",
                );
                let width = decimal(field.bit_width as u64);
                let error = joined3(start_text.as_str(), width.as_str(), " bits");
                proof {
                    assert(values@[i as int] >= pow2(fields[i as int].width));
                }
                return Err(error);
            }
            i += 1;
        }
        proof {
            assert(values_fit(fields, nats)) by {
                assert forall|k: int| 0 <= k < nats.len() implies #[trigger] nats[k] < pow2(
                    fields[k].width,
                ) by {
                    assert(values@[k] < pow2(fields[k].width));
                }
            }
            assert(variant < pow2(start));
        }
        let mut bits: u128 = layout.tag_value as u128;
        let mut k: usize = 0;
        while k < values.len()
            invariant
                0 <= k <= values.len(),
                self.wf(),
                variant < self.variants@.len(),
                *layout == self.variants@[variant as int],
                values@.len() == layout.fields@.len(),
                fields == self.fields_of(variant as int),
                nats == naturals(values@),
                contiguous(fields, start, limit),
                limit <= 128,
                values_fit(fields, nats),
                variant < pow2(start),
                bits == packed(fields, variant as nat, nats, k as nat),
            decreases values.len() - k,
        {
            let field = &layout.fields[k];
            proof {
                assert(fields[k as int] == field.field());
                assert(nats[k as int] == values@[k as int]);
                lemma_packed_bound(fields, start, limit, variant as nat, nats, (k + 1) as nat);
                lemma_power_fits(end_of(fields, start, (k + 1) as nat));
                lemma_pow2_pos(field.offset as nat);
                let v = values@[k as int] as int;
                let p = pow2(field.offset as nat) as int;
                assert(v * p >= 0) by (nonlinear_arith)
                    requires
                        v >= 0,
                        p > 0,
                ;
            }
            bits = bits + values[k] * power(field.offset);
            k += 1;
        }
        Ok(bits)
    }

    /// Returns the tag of packed bits.
    fn raw_tag(&self, bits: u128) -> (tag: u128)
        requires
            self.wf(),
        ensures
            tag == self.tag_of(bits as nat),
    {
        proof {
            lemma_pow2_pos(self.tag_width as nat);
        }
        bits % power(self.tag_width)
    }

    /// Validates packed bits: returns them where they encode a declared variant.
    ///
    /// Returns nothing where the tag is unknown or where unused payload bits are set.
    pub fn from_bits(&self, bits: u128) -> (result: Option<u128>)
        requires
            self.wf(),
        ensures
            result == if self.valid(bits as nat) {
                Some(bits)
            } else {
                None
            },
    {
        let tag = self.raw_tag(bits);
        if tag >= self.variants.len() as u128 {
            return None;
        }
        let variant = &self.variants[tag as usize];
        proof {
            assert(variant_fits(
                self.variants@[tag as int],
                self.repr_width as nat,
                self.tag_width as nat,
            ));
            lemma_pow2_pos(
                end_of(
                    self.fields_of(tag as int),
                    self.tag_width as nat,
                    self.fields_of(tag as int).len(),
                ),
            );
        }
        if bits <= variant.valid_mask {
            Some(bits)
        } else {
            None
        }
    }

    /// Returns the index of the variant that valid bits encode.
    pub fn tag(&self, bits: u128) -> (variant: usize)
        requires
            self.wf(),
            self.valid(bits as nat),
        ensures
            variant == self.tag_of(bits as nat),
            variant < self.variants@.len(),
    {
        self.raw_tag(bits) as usize
    }

    /// Takes valid bits apart: returns the variant and its field values.
    pub fn decode(&self, bits: u128) -> (decoded: (usize, Vec<u128>))
        requires
            self.wf(),
            self.valid(bits as nat),
        ensures
            decoded.0 == self.tag_of(bits as nat),
            naturals(decoded.1@) == field_values(
                self.fields_of(self.tag_of(bits as nat) as int),
                bits as nat,
            ),
    {
        let tag = self.tag(bits);
        (tag, self.decode_fields(tag, bits))
    }

    /// Returns the values that the fields of a variant have in packed bits.
    fn decode_fields(&self, tag: usize, bits: u128) -> (values: Vec<u128>)
        requires
            self.wf(),
            tag < self.variants@.len(),
        ensures
            naturals(values@) == field_values(self.fields_of(tag as int), bits as nat),
    {
        let layout = &self.variants[tag];
        let ghost fields = self.fields_of(tag as int);
        let mut values: Vec<u128> = Vec::new();
        proof {
            assert(variant_fits(
                self.variants@[tag as int],
                self.repr_width as nat,
                self.tag_width as nat,
            ));
        }
        let mut k: usize = 0;
        while k < layout.fields.len()
            invariant
                0 <= k <= layout.fields.len(),
                self.wf(),
                tag < self.variants@.len(),
                *layout == self.variants@[tag as int],
                fields == self.fields_of(tag as int),
                contiguous(fields, self.tag_width as nat, self.repr_width as nat),
                values@.len() == k,
                forall|j: int|
                    0 <= j < k ==> #[trigger] values@[j] == field_value(fields[j], bits as nat),
            decreases layout.fields.len() - k,
        {
            let field = &layout.fields[k];
            proof {
                assert(fields[k as int] == field.field());
                lemma_pow2_pos(field.offset as nat);
                lemma_pow2_pos(field.bit_width as nat);
                lemma_power_fits(128);
            }
            let shifted = bits / power(field.offset);
            let value = if field.bit_width == 128 {
                proof {
                    let s = shifted as int;
                    let p = pow2(128) as int;
                    assert(s % p == s) by (nonlinear_arith)
                        requires
                            0 <= s < p,
                    ;
                }
                shifted
            } else {
                shifted % power(field.bit_width)
            };
            values.push(value);
            k += 1;
        }
        proof {
            assert(naturals(values@) =~= field_values(fields, bits as nat));
        }
        values
    }

    /// Returns the field values where the bits carry the tag of `variant`, as a pattern match on that
    /// variant does.
    pub fn if_let(&self, variant: usize, bits: u128) -> (matched: Option<Vec<u128>>)
        requires
            self.wf(),
            variant < self.variants@.len(),
        ensures
            matched is Some <==> self.tag_of(bits as nat) == variant,
            matched matches Some(values) ==> naturals(values@) == field_values(
                self.fields_of(variant as int),
                bits as nat,
            ),
    {
        if self.raw_tag(bits) == variant as u128 {
            Some(self.decode_fields(variant, bits))
        } else {
            None
        }
    }
}

} // verus!
