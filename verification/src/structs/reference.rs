//! Field values of placed references.
use vstd::prelude::*;

use crate::parse::{fixed, le_u16, u16_le, u32_le, Parse, ParseError, ParseTotal, Parsed};
use super::shared::FormId;

verus! {

/// Where a door's navmesh pivot lies: the navmesh and a triangle of it.
#[derive(Debug, Clone, Copy, PartialEq, Eq, Structural)]
pub struct DoorPivot {
    pub nav_mesh: FormId,
    pub triangle_index: u16,
    pub padding: u16,
}

impl DeepView for DoorPivot {
    type V = DoorPivot;

    open spec fn deep_view(&self) -> DoorPivot {
        *self
    }
}

impl<'a> Parse<'a> for DoorPivot {
    open spec fn spec_parse(input: Seq<u8>) -> Parsed<DoorPivot> {
        fixed(
            input,
            8,
            DoorPivot {
                nav_mesh: FormId(u32_le(input)),
                triangle_index: u16_le(input.skip(4)),
                padding: u16_le(input.skip(6)),
            },
        )
    }

    fn parse(i: &'a [u8]) -> (r: Result<(&'a [u8], DoorPivot), ParseError>) {
        let (i1, nav_mesh) = FormId::parse(i)?;
        let (i2, triangle_index) = le_u16(i1)?;
        let (i3, padding) = le_u16(i2)?;
        assert(i@.skip(4).skip(2) =~= i@.skip(6));
        assert(i@.skip(6).skip(2) =~= i@.skip(8));
        Ok((i3, DoorPivot { nav_mesh, triangle_index, padding }))
    }
}

impl<'a> ParseTotal<'a> for DoorPivot {
    proof fn lemma_parse_defined(input: Seq<u8>) {
    }
}

/// A linked reference.
#[derive(Debug, Clone, Copy, PartialEq, Eq, Structural)]
pub struct LinkedReference {
    pub refr: FormId,
}

impl DeepView for LinkedReference {
    type V = LinkedReference;

    open spec fn deep_view(&self) -> LinkedReference {
        *self
    }
}

impl<'a> Parse<'a> for LinkedReference {
    open spec fn spec_parse(input: Seq<u8>) -> Parsed<LinkedReference> {
        fixed(input, 4, LinkedReference { refr: FormId(u32_le(input)) })
    }

    fn parse(i: &'a [u8]) -> (r: Result<(&'a [u8], LinkedReference), ParseError>) {
        let (i1, refr) = FormId::parse(i)?;
        Ok((i1, LinkedReference { refr }))
    }
}

impl<'a> ParseTotal<'a> for LinkedReference {
    proof fn lemma_parse_defined(input: Seq<u8>) {
    }
}

/// The reference values as they stand in the bytes: a door pivot is the nav
/// mesh form id (bytes 0..4), the triangle index (4..6) and padding (6..8); a
/// linked reference is the form id of bytes 0..4; all little-endian. Inputs
/// too short for them are rejected.
pub proof fn lemma_reference_values_from_bytes(input: Seq<u8>)
    ensures
        input.len() < 8 ==> <DoorPivot as Parse>::spec_parse(input) is Error,
        input.len() >= 8 ==> (<DoorPivot as Parse>::spec_parse(input) matches Parsed::Value(n, d) && n
            == 8 && d.nav_mesh.0 == crate::parse::le32_at(input, 0) && d.triangle_index
            == crate::parse::le16_at(input, 4) && d.padding == crate::parse::le16_at(input, 6)),
        input.len() < 4 ==> <LinkedReference as Parse>::spec_parse(input) is Error,
        input.len() >= 4 ==> (<LinkedReference as Parse>::spec_parse(input) matches Parsed::Value(n, l)
            && n == 4 && l.refr.0 == crate::parse::le32_at(input, 0)),
{
    if input.len() >= 8 {
        let s4 = input.skip(4);
        let s6 = input.skip(6);
        assert(s4[0] == input[4] && s4[1] == input[5]);
        assert(s6[0] == input[6] && s6[1] == input[7]);
    }
}

} // verus!
