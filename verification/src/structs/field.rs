//! Fields: the typed pieces of a record's body, each a code, a size and data.
use vstd::prelude::*;

use crate::parse::{
    fixed, le_u16, le_u32, lemma_many0_bytes, splits_as, take, u16_le, u32_le, Parse, ParseError,
    ParseTotal, Parsed,
};
use super::shared::{FourCC, XXXX};

verus! {

/// The six bytes in front of a field: its code and the size of its data.
#[derive(Debug, PartialEq, Eq, Clone, Copy, Hash, Structural)]
pub struct FieldHeader {
    pub iden: FourCC,
    pub size: u16,
}

/// The field header at the start of `input` (which holds at least six bytes).
pub open spec fn field_header_at(input: Seq<u8>) -> FieldHeader {
    FieldHeader { iden: FourCC(u32_le(input)), size: u16_le(input.skip(4)) }
}

impl DeepView for FieldHeader {
    type V = FieldHeader;

    open spec fn deep_view(&self) -> FieldHeader {
        *self
    }
}

impl<'a> Parse<'a> for FieldHeader {
    open spec fn spec_parse(input: Seq<u8>) -> Parsed<FieldHeader> {
        fixed(input, 6, field_header_at(input))
    }

    fn parse(input: &'a [u8]) -> (r: Result<(&'a [u8], FieldHeader), ParseError>) {
        let (rest, iden) = le_u32(input)?;
        let (rest2, size) = le_u16(rest)?;
        assert(input@.skip(4).skip(2) =~= input@.skip(6));
        Ok((rest2, FieldHeader { iden: FourCC(iden), size }))
    }
}

impl<'a> ParseTotal<'a> for FieldHeader {
    proof fn lemma_parse_defined(input: Seq<u8>) {
    }
}

/// Splits a field into its header and its data.
///
/// A field coded `XXXX` holds, as a `u32`, the size of the data of the field
/// that follows it; that field's own size is then ignored. The outcome is the
/// header of the field that carries the data, and the data.
pub open spec fn spec_alloc_field(input: Seq<u8>) -> Parsed<(FieldHeader, Seq<u8>)> {
    if input.len() < 6 {
        Parsed::Error(ParseError::Invalid)
    } else {
        let h = field_header_at(input);
        if h.iden.0 == XXXX {
            if input.len() < 16 {
                Parsed::Error(ParseError::Invalid)
            } else {
                let real_size = u32_le(input.skip(6));
                let carrier = field_header_at(input.skip(10));
                if input.len() < 16 + real_size {
                    Parsed::Error(ParseError::Invalid)
                } else {
                    Parsed::Value((16 + real_size) as nat, (carrier, input.subrange(16, 16 + real_size)))
                }
            }
        } else if input.len() < 6 + h.size {
            Parsed::Error(ParseError::Invalid)
        } else {
            Parsed::Value((6 + h.size) as nat, (h, input.subrange(6, 6 + h.size)))
        }
    }
}

pub fn alloc_field<'a>(i: &'a [u8]) -> (r: Result<(&'a [u8], (FieldHeader, &'a [u8])), ParseError>)
    ensures
        splits_as(spec_alloc_field(i@), i@, r),
        r matches Ok((_, (h, data))) ==> (field_header_at(i@).iden.0 != XXXX ==> data@.len()
            == h.size),
{
    let (i1, header) = FieldHeader::parse(i)?;
    if header.iden.0 == XXXX {
        let (i2, real_size) = le_u32(i1)?;
        let (i3, real_header) = FieldHeader::parse(i2)?;
        let (i4, real_data) = take(i3, real_size as usize)?;
        assert(i@.skip(6).skip(4) =~= i@.skip(10));
        assert(i@.skip(10).skip(6) =~= i@.skip(16));
        assert(i@.skip(16).take(real_size as int) =~= i@.subrange(16, 16 + real_size));
        assert(i@.skip(16).skip(real_size as int) =~= i@.skip(16 + real_size));
        Ok((i4, (real_header, real_data)))
    } else {
        let (i2, raw) = take(i1, header.size as usize)?;
        assert(i@.skip(6).take(header.size as int) =~= i@.subrange(6, 6 + header.size));
        assert(i@.skip(6).skip(header.size as int) =~= i@.skip(6 + header.size));
        Ok((i2, (header, raw)))
    }
}

/// A field whose data is read as a `T`.
#[derive(Debug)]
pub struct Field<T> {
    pub header: FieldHeader,
    pub value: T,
}

impl<T: DeepView> DeepView for Field<T> {
    type V = (FieldHeader, T::V);

    open spec fn deep_view(&self) -> (FieldHeader, T::V) {
        (self.header, self.value.deep_view())
    }
}

impl<'a, T: Parse<'a>> Parse<'a> for Field<T> {
    /// The field's data is parsed as a `T`; what `T` leaves of the data is ignored.
    open spec fn spec_parse(input: Seq<u8>) -> Parsed<(FieldHeader, T::V)> {
        match spec_alloc_field(input) {
            Parsed::Value(n, (h, data)) => match T::spec_parse(data) {
                Parsed::Value(_, v) => Parsed::Value(n, (h, v)),
                Parsed::Error(e) => Parsed::Error(e),
                Parsed::Undefined => Parsed::Undefined,
            },
            Parsed::Error(e) => Parsed::Error(e),
            Parsed::Undefined => Parsed::Undefined,
        }
    }

    fn parse(i: &'a [u8]) -> (r: Result<(&'a [u8], Field<T>), ParseError>) {
        let (i, (header, raw)) = alloc_field(i)?;
        let (_, value) = T::parse(raw)?;
        Ok((i, Field { header, value }))
    }
}

impl<'a, T: ParseTotal<'a>> ParseTotal<'a> for Field<T> {
    proof fn lemma_parse_defined(input: Seq<u8>) {
        if let Parsed::Value(n, (h, data)) = spec_alloc_field(input) {
            T::lemma_parse_defined(data);
        }
    }
}

/// A field whose data is kept as bytes: the field type of the records whose
/// contents this library frames but does not interpret.
pub type ByteField = Field<Vec<u8>>;

/// A field whose data is kept as it stands in the input.
#[derive(Debug)]
pub struct RawField<'esm> {
    pub iden: FourCC,
    pub data: &'esm [u8],
}

impl<'esm> DeepView for RawField<'esm> {
    type V = (FourCC, Seq<u8>);

    open spec fn deep_view(&self) -> (FourCC, Seq<u8>) {
        (self.iden, self.data@)
    }
}

impl<'esm> Parse<'esm> for RawField<'esm> {
    open spec fn spec_parse(input: Seq<u8>) -> Parsed<(FourCC, Seq<u8>)> {
        match spec_alloc_field(input) {
            Parsed::Value(n, (h, data)) => Parsed::Value(n, (h.iden, data)),
            Parsed::Error(e) => Parsed::Error(e),
            Parsed::Undefined => Parsed::Undefined,
        }
    }

    fn parse(i: &'esm [u8]) -> (r: Result<(&'esm [u8], RawField<'esm>), ParseError>) {
        let (i, (header, data)) = alloc_field(i)?;
        Ok((i, RawField { iden: header.iden, data }))
    }
}

impl<'esm> ParseTotal<'esm> for RawField<'esm> {
    proof fn lemma_parse_defined(input: Seq<u8>) {
    }
}

/// A field read with its data as bytes holds exactly the bytes that the
/// field kept raw holds, under the same code and consuming the same input.
pub proof fn lemma_byte_field_is_raw_field(input: Seq<u8>)
    ensures
        match (<Field<Vec<u8>> as Parse>::spec_parse(input), <RawField as Parse>::spec_parse(input)) {
            (Parsed::Value(n, (h, bytes)), Parsed::Value(m, (iden, data))) => n == m && h.iden
                == iden && bytes == data,
            (Parsed::Error(e1), Parsed::Error(e2)) => e1 == e2,
            _ => false,
        },
{
    if let Parsed::Value(n, (h, data)) = spec_alloc_field(input) {
        lemma_many0_bytes(data);
    }
}

/// A field as it stands in the bytes: its code is the little-endian `u32` of
/// bytes 0..4 and its data size the little-endian `u16` of bytes 4..6. A field
/// not coded `XXXX` has as data the `size` bytes after its header. A field
/// coded `XXXX` (bytes 0..4 all `X`) gives in bytes 6..10 the data size of the
/// field after it, whose header stands in bytes 10..16 and whose data is that
/// many bytes after it.
pub proof fn lemma_field_from_bytes(input: Seq<u8>)
    requires
        input.len() >= 6,
    ensures
        ({
            let h = (<FieldHeader as Parse>::spec_parse(input))->Value_1;
            let size = input[4] + input[5] * 0x100;
            let xxxx = input[0] == 0x58 && input[1] == 0x58 && input[2] == 0x58 && input[3] == 0x58;
            &&& <FieldHeader as Parse>::spec_parse(input) matches Parsed::Value(n, _) && n == 6
            &&& h.iden.0 == input[0] + input[1] * 0x100 + input[2] * 0x1_0000 + input[3] * 0x100_0000
            &&& h.size == size
            &&& !xxxx ==> (spec_alloc_field(input) is Value <==> input.len() >= 6 + size)
            &&& !xxxx ==> (spec_alloc_field(input) matches Parsed::Value(n, (fh, data)) ==> n == 6
                + size && fh == h && data == input.subrange(6, 6 + size))
            &&& xxxx && input.len() >= 16 ==> ({
                let carried = input[6] + input[7] * 0x100 + input[8] * 0x1_0000 + input[9] * 0x100_0000;
                &&& spec_alloc_field(input) is Value <==> input.len() >= 16 + carried
                &&& spec_alloc_field(input) matches Parsed::Value(n, (fh, data)) ==> n == 16 + carried
                    && fh.iden.0 == input[10] + input[11] * 0x100 + input[12] * 0x1_0000 + input[13]
                    * 0x100_0000 && fh.size == input[14] + input[15] * 0x100 && data
                    == input.subrange(16, 16 + carried)
            })
        }),
{
    let s4 = input.skip(4);
    assert(s4[0] == input[4] && s4[1] == input[5]);
    if input.len() >= 16 {
        let s6 = input.skip(6);
        let s10 = input.skip(10);
        let s14 = input.skip(10).skip(4);
        assert(s6[0] == input[6] && s6[1] == input[7] && s6[2] == input[8] && s6[3] == input[9]);
        assert(s10[0] == input[10] && s10[1] == input[11] && s10[2] == input[12] && s10[3] == input[13]);
        assert(s14[0] == input[14] && s14[1] == input[15]);
    }
    let xxxx = input[0] == 0x58 && input[1] == 0x58 && input[2] == 0x58 && input[3] == 0x58;
    assert(xxxx <==> input[0] + input[1] * 0x100 + input[2] * 0x1_0000 + input[3] * 0x100_0000 == XXXX);
}

} // verus!
