//! Small values shared by the file structures: four-character codes, form ids,
//! editor ids and grid locations.
use vstd::prelude::*;

use crate::parse::{
    fixed, i16_from_bits, i16_of, le_i16, le_u32, u16_le, u32_le, Parse, ParseError, ParseTotal, Parsed,
};

verus! {

/// A four-character code, read as a little-endian `u32` (`b"GRUP"` is `0x5055_5247`).
#[derive(Debug, Clone, Copy, PartialEq, Eq, Structural, Hash)]
pub struct FourCC(pub u32);

/// The code `GRUP`, which opens every group.
pub const GRUP: u32 = 0x5055_5247;

/// The code `XXXX`, whose field gives the size of the field after it.
pub const XXXX: u32 = 0x5858_5858;

/// The code `WRLD` of the worldspace top group.
pub const WRLD: u32 = 0x444C_5257;

/// The code `CELL` of the interior cell top group.
pub const CELL: u32 = 0x4C4C_4543;

impl DeepView for FourCC {
    type V = FourCC;

    open spec fn deep_view(&self) -> FourCC {
        *self
    }
}

impl<'a> Parse<'a> for FourCC {
    open spec fn spec_parse(input: Seq<u8>) -> Parsed<FourCC> {
        fixed(input, 4, FourCC(u32_le(input)))
    }

    fn parse(input: &'a [u8]) -> (r: Result<(&'a [u8], FourCC), ParseError>) {
        let (rest, v) = le_u32(input)?;
        Ok((rest, FourCC(v)))
    }
}

impl<'a> ParseTotal<'a> for FourCC {
    proof fn lemma_parse_defined(input: Seq<u8>) {
    }
}

/// A pair of coordinates.
#[derive(Debug, Clone, Copy, PartialEq, Eq)]
pub struct Vec2<T> {
    pub x: T,
    pub y: T,
}

impl<T: DeepView> DeepView for Vec2<T> {
    type V = (T::V, T::V);

    open spec fn deep_view(&self) -> (T::V, T::V) {
        (self.x.deep_view(), self.y.deep_view())
    }
}

impl<'a, T: ParseTotal<'a>> Parse<'a> for Vec2<T> {
    /// `x`, then `y`.
    open spec fn spec_parse(input: Seq<u8>) -> Parsed<(T::V, T::V)> {
        match T::spec_parse(input) {
            Parsed::Value(n, x) => if n <= input.len() {
                match T::spec_parse(input.skip(n as int)) {
                    Parsed::Value(m, y) => Parsed::Value(n + m, (x, y)),
                    Parsed::Error(e) => Parsed::Error(e),
                    Parsed::Undefined => Parsed::Undefined,
                }
            } else {
                Parsed::Error(ParseError::Invalid)
            },
            Parsed::Error(e) => Parsed::Error(e),
            Parsed::Undefined => Parsed::Undefined,
        }
    }

    fn parse(input: &'a [u8]) -> (r: Result<(&'a [u8], Vec2<T>), ParseError>) {
        proof {
            T::lemma_parse_defined(input@);
        }
        let (rest, x) = T::parse(input)?;
        proof {
            T::lemma_parse_defined(rest@);
        }
        let (rest2, y) = T::parse(rest)?;
        let ghost n = match T::spec_parse(input@) {
            Parsed::Value(n, _) => n,
            _ => 0,
        };
        let ghost m = match T::spec_parse(rest@) {
            Parsed::Value(m, _) => m,
            _ => 0,
        };
        assert(input@.skip(n as int).skip(m as int) =~= input@.skip((n + m) as int));
        Ok((rest2, Vec2 { x, y }))
    }
}

impl<'a, T: ParseTotal<'a>> ParseTotal<'a> for Vec2<T> {
    proof fn lemma_parse_defined(input: Seq<u8>) {
        T::lemma_parse_defined(input);
        if let Parsed::Value(n, _) = T::spec_parse(input) {
            T::lemma_parse_defined(input.skip(n as int));
        }
    }
}

/// A string as its bytes stand in the file.
#[derive(Debug, Clone)]
pub struct RawString(pub Vec<u8>);

/// The identifier of a record.
#[derive(Debug, Clone, Copy, PartialEq, Eq, Structural, Hash, PartialOrd, Ord)]
pub struct FormId(pub u32);

impl FormId {
    pub fn new(value: u32) -> (r: Self)
        ensures
            r.0 == value,
    {
        FormId(value)
    }
}

impl DeepView for FormId {
    type V = FormId;

    open spec fn deep_view(&self) -> FormId {
        *self
    }
}

impl<'a> Parse<'a> for FormId {
    open spec fn spec_parse(input: Seq<u8>) -> Parsed<FormId> {
        fixed(input, 4, FormId(u32_le(input)))
    }

    fn parse(input: &'a [u8]) -> (r: Result<(&'a [u8], FormId), ParseError>) {
        let (rest, v) = le_u32(input)?;
        Ok((rest, FormId(v)))
    }
}

impl<'a> ParseTotal<'a> for FormId {
    proof fn lemma_parse_defined(input: Seq<u8>) {
    }
}

/// The text that `String::from_utf8_lossy` makes of `bytes`.
pub uninterp spec fn utf8_lossy(bytes: Seq<u8>) -> Seq<char>;

/// `String::from_utf8_lossy`, made an owned `String`. Its documentation promises
/// that valid UTF-8 is decoded as it stands (invalid sequences become U+FFFD);
/// the contract claims that and names the result as a function of the bytes alone.
#[verifier::external_body]
fn string_from_utf8_lossy(bytes: &[u8]) -> (r: String)
    ensures
        r@ == utf8_lossy(bytes@),
        vstd::utf8::valid_utf8(bytes@) ==> r@ == vstd::utf8::decode_utf8(bytes@),
{
    String::from_utf8_lossy(bytes).into_owned()
}

/// The text of an editor id's bytes: decoded as UTF-8 where they are valid UTF-8.
pub open spec fn editor_id_text(bytes: Seq<u8>) -> Seq<char> {
    if vstd::utf8::valid_utf8(bytes) {
        vstd::utf8::decode_utf8(bytes)
    } else {
        utf8_lossy(bytes)
    }
}

/// The editor id of a record: text ended by one terminating byte.
#[derive(Debug)]
pub struct EditorId(pub String);

impl DeepView for EditorId {
    type V = Seq<char>;

    open spec fn deep_view(&self) -> Seq<char> {
        self.0@
    }
}

impl<'a> Parse<'a> for EditorId {
    /// Takes the whole input; its last byte is dropped and the rest decoded as text:
    /// valid UTF-8 as it stands, other bytes as `String::from_utf8_lossy` makes them.
    /// An empty input is outside the domain.
    open spec fn spec_parse(input: Seq<u8>) -> Parsed<Seq<char>> {
        if input.len() == 0 {
            Parsed::Undefined
        } else {
            Parsed::Value(input.len(), editor_id_text(input.take(input.len() - 1)))
        }
    }

    fn parse(input: &'a [u8]) -> (r: Result<(&'a [u8], EditorId), ParseError>) {
        let text = vstd::slice::slice_subrange(input, 0, input.len() - 1);
        let rest = vstd::slice::slice_subrange(input, input.len(), input.len());
        assert(rest@ =~= input@.skip(input@.len() as int));
        Ok((rest, EditorId(string_from_utf8_lossy(text))))
    }
}

/// Location in world grid for cell
#[derive(Debug, Clone, Copy, PartialEq, Eq, Structural)]
pub struct CellLoc {
    pub y: i16,
    pub x: i16,
}

impl DeepView for CellLoc {
    type V = CellLoc;

    open spec fn deep_view(&self) -> CellLoc {
        *self
    }
}

impl<'a> Parse<'a> for CellLoc {
    /// `y`, then `x`, each a little-endian `i16`.
    open spec fn spec_parse(input: Seq<u8>) -> Parsed<CellLoc> {
        fixed(
            input,
            4,
            CellLoc { y: i16_of(u16_le(input)), x: i16_of(u16_le(input.skip(2))) },
        )
    }

    fn parse(input: &'a [u8]) -> (r: Result<(&'a [u8], CellLoc), ParseError>) {
        let (rest, y) = le_i16(input)?;
        let (rest2, x) = le_i16(rest)?;
        assert(input@.skip(2).skip(2) =~= input@.skip(4));
        Ok((rest2, CellLoc { y, x }))
    }
}

impl<'a> ParseTotal<'a> for CellLoc {
    proof fn lemma_parse_defined(input: Seq<u8>) {
    }
}

/// The grid location packed in a `u32`: its low half is `y`, its high half `x`.
pub open spec fn cell_loc_of(value: u32) -> CellLoc {
    CellLoc { y: i16_of((value % 0x1_0000) as u16), x: i16_of((value / 0x1_0000) as u16) }
}

impl vstd::std_specs::convert::FromSpecImpl<u32> for CellLoc {
    open spec fn obeys_from_spec() -> bool {
        true
    }

    open spec fn from_spec(v: u32) -> CellLoc {
        cell_loc_of(v)
    }
}

impl From<u32> for CellLoc {
    fn from(value: u32) -> (r: Self) {
        let y = i16_from_bits((value % 0x1_0000) as u16);
        let x = i16_from_bits((value / 0x1_0000) as u16);
        CellLoc { y, x }
    }
}

/// The four bytes of `value`, least significant first.
pub open spec fn u32_le_bytes(value: u32) -> Seq<u8> {
    seq![
        (value % 0x100) as u8,
        (value / 0x100 % 0x100) as u8,
        (value / 0x1_0000 % 0x100) as u8,
        (value / 0x100_0000) as u8,
    ]
}

/// Unpacking a `u32` into a grid location gives what parsing its four
/// little-endian bytes as a grid location gives.
pub proof fn lemma_cell_loc_from_u32_is_parse(value: u32)
    ensures
        <CellLoc as Parse>::spec_parse(u32_le_bytes(value)) == Parsed::Value(4, cell_loc_of(value)),
{
    let b = u32_le_bytes(value);
    assert(b.skip(2) =~= seq![(value / 0x1_0000 % 0x100) as u8, (value / 0x100_0000) as u8]);
    assert((value % 0x100) + (value / 0x100 % 0x100) * 256 == value % 0x1_0000) by (bit_vector);
    assert((value / 0x1_0000 % 0x100) + (value / 0x100_0000) * 256 == value / 0x1_0000) by (bit_vector);
}

/// The small values as they stand in the bytes: a code and a form id are the
/// little-endian `u32` of the first four bytes; a grid location is `y`, then
/// `x`, each a signed little-endian `i16`; a pair of `i16` is `x`, then `y`.
/// Fewer than four bytes are rejected.
pub proof fn lemma_small_values_from_bytes(input: Seq<u8>)
    ensures
        input.len() < 4 ==> <FourCC as Parse>::spec_parse(input) is Error && <FormId as Parse>::spec_parse(
            input,
        ) is Error && <CellLoc as Parse>::spec_parse(input) is Error && <Vec2<i16> as Parse>::spec_parse(
            input,
        ) is Error,
        input.len() >= 4 ==> ({
            &&& <FourCC as Parse>::spec_parse(input) matches Parsed::Value(n, c) && n == 4 && c.0
                == crate::parse::le32_at(input, 0)
            &&& <FormId as Parse>::spec_parse(input) matches Parsed::Value(n, f) && n == 4 && f.0
                == crate::parse::le32_at(input, 0)
            &&& <CellLoc as Parse>::spec_parse(input) matches Parsed::Value(n, l) && n == 4 && l.y
                == crate::parse::signed16(input[0], input[1]) && l.x == crate::parse::signed16(
                input[2],
                input[3],
            )
            &&& <Vec2<i16> as Parse>::spec_parse(input) matches Parsed::Value(n, v) && n == 4 && v.0
                == crate::parse::signed16(input[0], input[1]) && v.1 == crate::parse::signed16(
                input[2],
                input[3],
            )
        }),
{
    if input.len() >= 4 {
        let s2 = input.skip(2);
        assert(s2[0] == input[2] && s2[1] == input[3]);
    }
}

/// An editor id takes the whole input; its text is the bytes before the last,
/// decoded as UTF-8 where they are valid UTF-8.
pub proof fn lemma_editor_id_text(input: Seq<u8>)
    requires
        input.len() > 0,
    ensures
        <EditorId as Parse>::spec_parse(input) matches Parsed::Value(n, _) && n == input.len(),
        vstd::utf8::valid_utf8(input.take(input.len() - 1)) ==> (<EditorId as Parse>::spec_parse(
            input,
        ))->Value_1 == vstd::utf8::decode_utf8(input.take(input.len() - 1)),
{
}

} // verus!
