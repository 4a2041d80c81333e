//! Names that generated items and macros use.

use crate::bitsum::layout::{snake_case, to_snake_case, ParsedField, ParsedVariant, PrimitiveKind};
use crate::bitsum::packed::too_wide;
use crate::text::{decimal, joined, joined3};
use vstd::prelude::*;

verus! {

/// The name that binds a field of a variant in a generated macro.
pub open spec fn binding_text(prefix: Seq<char>, variant: Seq<char>, field: Seq<char>) -> Seq<char> {
    "__bitsum_pat_"@ + prefix + "_"@ + snake_case(variant) + "_"@ + field
}

/// Returns the name that binds a field of a variant in a generated macro.
pub fn binding_name(prefix: &str, variant: &ParsedVariant, field: &ParsedField) -> (name: String)
    ensures
        name@ == binding_text(prefix@, variant.name@, field.name@),
{
    let snaked = to_snake_case(variant.name.as_str());
    let mut name = joined3("__bitsum_pat_", prefix, "_");
    name.append(snaked.as_str());
    name.append("_");
    name.append(field.name.as_str());
    name
}

/// Returns the name that stands for the body of a variant in the generated match macro.
pub fn body_name(variant: &ParsedVariant) -> (name: String)
    ensures
        name@ == "__bitsum_body_"@ + snake_case(variant.name@),
{
    let snaked = to_snake_case(variant.name.as_str());
    joined("__bitsum_body_", snaked.as_str())
}

/// Returns the message of the width assertion on a constructor argument; `bool` fields need none.
pub fn width_assertion(field: &ParsedField) -> (message: Option<String>)
    ensures
        match message {
            Some(message) => field.kind != PrimitiveKind::Bool && message@ == too_wide(field.field()),
            None => field.kind == PrimitiveKind::Bool,
        },
{
    if field.kind.is_bool() {
        return None;
    }
    let start = joined3("field `", field.name.as_str(), "` exceeds its declared width of ");
    let width = decimal(field.bit_width as u64);
    Some(joined3(start.as_str(), width.as_str(), " bits"))
}

/// The visibility of a declaration.
#[derive(Debug, Clone, Copy, PartialEq, Eq, Structural)]
pub enum DeclaredVisibility {
    /// Public everywhere.
    Public,
    /// Restricted to a path.
    Restricted,
    /// Private to its module.
    Inherited,
}

/// The visibility under which a generated macro is exported again.
#[derive(Debug, Clone, Copy, PartialEq, Eq, Structural)]
pub enum MacroExport {
    /// Within the crate.
    Crate,
    /// As the declaration itself.
    AsDeclared,
    /// Not at all.
    Hidden,
}

/// Returns the widest visibility that can be used to export a local macro again.
pub fn macro_reexport_vis(vis: DeclaredVisibility) -> (export: MacroExport)
    ensures
        export == match vis {
            DeclaredVisibility::Public => MacroExport::Crate,
            DeclaredVisibility::Restricted => MacroExport::AsDeclared,
            DeclaredVisibility::Inherited => MacroExport::Hidden,
        },
{
    match vis {
        DeclaredVisibility::Public => MacroExport::Crate,
        DeclaredVisibility::Restricted => MacroExport::AsDeclared,
        DeclaredVisibility::Inherited => MacroExport::Hidden,
    }
}

} // verus!
