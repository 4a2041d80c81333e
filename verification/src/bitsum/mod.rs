//! Packed tagged unions over fixed-width integer representations.
//!
//! A declaration lists variants with named fields and their widths in bits. Its layout assigns every
//! variant a tag in the low bits and every field the bits after the fields before it. Packed values
//! are built from variants and field values, validated, and taken apart again.

pub mod laws;
pub mod layout;
pub mod names;
pub mod packed;
