//! Records: a 24-byte header followed by a body of fields, which may be
//! zlib-compressed.
use vstd::prelude::*;

use crate::parse::{
    le_u16, le_u32, lemma_many0_defined, many0, spec_many0, splits_as, take, u16_le, u32_le, Parse,
    ParseError, ParseTotal, Parsed,
};
use super::shared::{FormId, FourCC};

verus! {

/// The flags word of a record.
#[derive(Debug, Clone, Copy, PartialEq, Eq, Structural)]
pub struct RecordFlags(pub u32);

/// The flag bit that marks a compressed body.
pub open spec fn spec_is_compressed(flags: RecordFlags) -> bool {
    flags.0 & 0x0004_0000 != 0
}

impl RecordFlags {
    /// Whether the body is compressed: bit 18 of the flags.
    pub fn is_compressed(&self) -> (r: bool)
        ensures
            r == spec_is_compressed(*self),
            r == (self.0 / 0x0004_0000 % 2 == 1),
    {
        let v = self.0;
        assert((v & 0x0004_0000 != 0) == (v / 0x0004_0000 % 2 == 1)) by (bit_vector);
        (self.0 & 0x0004_0000) != 0
    }
}

/// The 24 bytes in front of a record's body: code (0..4), body size (4..8),
/// flags (8..12), form id (12..16), four bytes not kept, version (20..22) and
/// two bytes not kept.
#[derive(Debug, Clone, Copy, PartialEq, Eq, Structural)]
pub struct RecordHeader {
    pub iden: FourCC,
    pub size: u32,
    pub flags: RecordFlags,
    pub form_id: FormId,
    pub version: u16,
}

/// The record header at the start of `input` (which holds at least 24 bytes).
pub open spec fn record_header_at(input: Seq<u8>) -> RecordHeader {
    RecordHeader {
        iden: FourCC(u32_le(input)),
        size: u32_le(input.skip(4)),
        flags: RecordFlags(u32_le(input.skip(8))),
        form_id: FormId(u32_le(input.skip(12))),
        version: u16_le(input.skip(20)),
    }
}

impl DeepView for RecordHeader {
    type V = RecordHeader;

    open spec fn deep_view(&self) -> RecordHeader {
        *self
    }
}

impl<'a> Parse<'a> for RecordHeader {
    open spec fn spec_parse(input: Seq<u8>) -> Parsed<RecordHeader> {
        if input.len() >= 24 {
            Parsed::Value(24, record_header_at(input))
        } else {
            Parsed::Error(ParseError::Invalid)
        }
    }

    fn parse(input: &'a [u8]) -> (r: Result<(&'a [u8], RecordHeader), ParseError>) {
        let (i1, iden) = le_u32(input)?;
        let (i2, size) = le_u32(i1)?;
        let (i3, flags) = le_u32(i2)?;
        let (i4, form_id) = le_u32(i3)?;
        let (i5, _) = take(i4, 4)?;
        let (i6, version) = le_u16(i5)?;
        let (i7, _) = take(i6, 2)?;
        assert(input@.skip(4).skip(4) =~= input@.skip(8));
        assert(input@.skip(8).skip(4) =~= input@.skip(12));
        assert(input@.skip(12).skip(4) =~= input@.skip(16));
        assert(input@.skip(16).skip(4) =~= input@.skip(20));
        assert(input@.skip(20).skip(2) =~= input@.skip(22));
        assert(input@.skip(22).skip(2) =~= input@.skip(24));
        Ok((
            i7,
            RecordHeader {
                iden: FourCC(iden),
                size,
                flags: RecordFlags(flags),
                form_id: FormId(form_id),
                version,
            },
        ))
    }
}

impl<'a> ParseTotal<'a> for RecordHeader {
    proof fn lemma_parse_defined(input: Seq<u8>) {
    }
}

/// A record header is read from the first 24 bytes as they stand: the code
/// is the little-endian `u32` of bytes 0..4, the body size that of 4..8, the
/// whole flags word that of 8..12, the form id that of 12..16, and the version
/// the little-endian `u16` of bytes 20..22. Splitting off a record and reading
/// a record both keep that header, and the body is the `size` bytes after it.
pub proof fn lemma_record_header_from_bytes<T: for<'x> Parse<'x>>(input: Seq<u8>)
    requires
        input.len() >= 24,
    ensures
        ({
            let h = (<RecordHeader as Parse>::spec_parse(input))->Value_1;
            &&& <RecordHeader as Parse>::spec_parse(input) is Value
            &&& (<RecordHeader as Parse>::spec_parse(input))->Value_0 == 24
            &&& h.iden.0 == input[0] + input[1] * 0x100 + input[2] * 0x1_0000 + input[3] * 0x100_0000
            &&& h.size == input[4] + input[5] * 0x100 + input[6] * 0x1_0000 + input[7] * 0x100_0000
            &&& h.flags.0 == input[8] + input[9] * 0x100 + input[10] * 0x1_0000 + input[11]
                * 0x100_0000
            &&& h.form_id.0 == input[12] + input[13] * 0x100 + input[14] * 0x1_0000 + input[15]
                * 0x100_0000
            &&& h.version == input[20] + input[21] * 0x100
            &&& spec_alloc_record(input) is Value <==> input.len() >= 24 + h.size
            &&& spec_alloc_record(input) matches Parsed::Value(n, (ah, body)) ==> n == 24 + h.size
                && ah == h && body == input.subrange(24, 24 + h.size)
            &&& <Record<T> as Parse>::spec_parse(input) matches Parsed::Value(_, (rh, _)) ==> rh == h
        }),
{
    let s8 = input.skip(8);
    assert(s8[0] == input[8] && s8[1] == input[9] && s8[2] == input[10] && s8[3] == input[11]);
    let s4 = input.skip(4);
    assert(s4[0] == input[4] && s4[1] == input[5] && s4[2] == input[6] && s4[3] == input[7]);
    let s12 = input.skip(12);
    assert(s12[0] == input[12] && s12[1] == input[13] && s12[2] == input[14] && s12[3] == input[15]);
    let s20 = input.skip(20);
    assert(s20[0] == input[20] && s20[1] == input[21]);
}

/// Splits a record into its header and the `size` bytes of its body.
pub open spec fn spec_alloc_record(input: Seq<u8>) -> Parsed<(RecordHeader, Seq<u8>)> {
    if input.len() < 24 {
        Parsed::Error(ParseError::Invalid)
    } else {
        let h = record_header_at(input);
        if input.len() < 24 + h.size {
            Parsed::Error(ParseError::Invalid)
        } else {
            Parsed::Value((24 + h.size) as nat, (h, input.subrange(24, 24 + h.size)))
        }
    }
}

/// Parses RecordHeader and then allocates the correct byte slice for the Record
pub fn alloc_record<'a>(i: &'a [u8]) -> (r: Result<(&'a [u8], (RecordHeader, &'a [u8])), ParseError>)
    ensures
        splits_as(spec_alloc_record(i@), i@, r),
        r matches Ok((_, (h, data))) ==> data@.len() == h.size,
{
    let (i1, header) = RecordHeader::parse(i)?;
    let (i2, raw) = take(i1, header.size as usize)?;
    assert(i@.skip(24).take(header.size as int) =~= i@.subrange(24, 24 + header.size));
    assert(i@.skip(24).skip(header.size as int) =~= i@.skip(24 + header.size));
    Ok((i2, (header, raw)))
}

/// A record whose body is kept as it stands in the input.
#[derive(Debug, Clone, Copy)]
pub struct RawRecord<'esm> {
    pub header: RecordHeader,
    pub data: &'esm [u8],
}

impl<'esm> DeepView for RawRecord<'esm> {
    type V = (RecordHeader, Seq<u8>);

    open spec fn deep_view(&self) -> (RecordHeader, Seq<u8>) {
        (self.header, self.data@)
    }
}

impl<'esm> Parse<'esm> for RawRecord<'esm> {
    open spec fn spec_parse(input: Seq<u8>) -> Parsed<(RecordHeader, Seq<u8>)> {
        spec_alloc_record(input)
    }

    fn parse(i: &'esm [u8]) -> (r: Result<(&'esm [u8], RawRecord<'esm>), ParseError>) {
        let (i, (header, data)) = alloc_record(i)?;
        Ok((i, RawRecord { header, data }))
    }
}

impl<'esm> ParseTotal<'esm> for RawRecord<'esm> {
    proof fn lemma_parse_defined(input: Seq<u8>) {
    }
}

// ---------------------------------------------------------------------------
// Compressed bodies
// ---------------------------------------------------------------------------
#[verifier::external_type_specification]
#[verifier::external_body]
pub struct ExIoError(std::io::Error);

#[verifier::external_type_specification]
pub struct ExIoErrorKind(std::io::ErrorKind);

/// The kind of the I/O error `e`.
pub uninterp spec fn io_error_kind(e: std::io::Error) -> std::io::ErrorKind;

/// `std::io::Error::kind`: gives the kind the error was made with.
pub assume_specification[ std::io::Error::kind ](e: &std::io::Error) -> (k: std::io::ErrorKind)
    ensures
        k == io_error_kind(*e),
;

/// What inflating the zlib stream `compressed` to its end gives, or `None`
/// where the stream is corrupt or incomplete.
pub uninterp spec fn zlib_inflate(compressed: Seq<u8>) -> Option<Seq<u8>>;

/// `flate2::bufread::ZlibDecoder` read to its end with `Read::read_to_end`.
/// The contract claims that the decoder succeeds exactly where `zlib_inflate`
/// is defined and then gives its bytes: the result is a function of the input
/// alone. The kind of the error is not stated: flate2 makes `InvalidInput`
/// or `UnexpectedEof`, but the documentation of std's `read_to_end` does not
/// list the errors that it passes on or adds.
#[verifier::external_body]
fn zlib_decompress(compressed: &[u8]) -> (r: Result<Vec<u8>, std::io::Error>)
    ensures
        r is Ok <==> zlib_inflate(compressed@) is Some,
        r matches Ok(v) ==> v@ == zlib_inflate(compressed@).unwrap(),
{
    let mut buf = Vec::new();
    let mut decoder = flate2::bufread::ZlibDecoder::new(compressed);
    match std::io::Read::read_to_end(&mut decoder, &mut buf) {
        Ok(_) => Ok(buf),
        Err(e) => Err(e),
    }
}

/// `std::io::Error::new` with the kind `InvalidData`: the error made has that kind.
#[verifier::external_body]
fn invalid_data_error(message: &str) -> (r: std::io::Error)
    ensures
        io_error_kind(r) == std::io::ErrorKind::InvalidData,
{
    std::io::Error::new(std::io::ErrorKind::InvalidData, message)
}

/// A compressed body: a `u32` with the inflated size, then a zlib stream.
pub open spec fn spec_decompress_record(raw: Seq<u8>) -> Option<Seq<u8>> {
    if raw.len() < 4 {
        None
    } else {
        zlib_inflate(raw.skip(4))
    }
}

/// Parse the u32 for the real size, then decompress the zlib
pub fn decompress_record(i: &[u8]) -> (r: Result<Vec<u8>, std::io::Error>)
    ensures
        r is Ok <==> spec_decompress_record(i@) is Some,
        r matches Ok(v) ==> v@ == spec_decompress_record(i@).unwrap(),
        i@.len() < 4 ==> (r matches Err(e) && io_error_kind(e) == std::io::ErrorKind::InvalidData),
{
    match le_u32(i) {
        Ok((rest, _real_size)) => zlib_decompress(rest),
        Err(_) => Err(invalid_data_error("decompress_record(): could not get real size")),
    }
}

/// The bytes that a record's fields are read from: its body, inflated first
/// when the header marks it compressed.
pub open spec fn record_body(h: RecordHeader, raw: Seq<u8>) -> Option<Seq<u8>> {
    if spec_is_compressed(h.flags) {
        spec_decompress_record(raw)
    } else {
        Some(raw)
    }
}

/// The fields of a record with header `h` and body `raw`: as many `T` as
/// parse one after the other from the (inflated) body.
pub open spec fn spec_record_fields<'a, T: Parse<'a>>(h: RecordHeader, raw: Seq<u8>) -> Parsed<
    Seq<T::V>,
> {
    match record_body(h, raw) {
        Some(body) => spec_many0::<T>(body),
        None => Parsed::Error(ParseError::Invalid),
    }
}

/// The error of a record, read from `input`, whose `n` bytes frame it but
/// whose fields cannot be read: the code `Complete`, at the bytes that follow
/// the record.
pub open spec fn record_fields_error(input: Seq<u8>, n: nat) -> ParseError {
    ParseError::Stopped {
        code: nom::error::ErrorKind::Complete,
        remaining: (input.len() - n) as usize,
    }
}

/// A record whose fields are read as `T`.
#[derive(Debug)]
pub struct Record<T> {
    pub header: RecordHeader,
    pub fields: Vec<T>,
}

impl<T: DeepView> DeepView for Record<T> {
    type V = (RecordHeader, Seq<T::V>);

    open spec fn deep_view(&self) -> (RecordHeader, Seq<T::V>) {
        (self.header, self.fields.deep_view())
    }
}

impl<'a, T: for<'x> Parse<'x>> Parse<'a> for Record<T> {
    open spec fn spec_parse(input: Seq<u8>) -> Parsed<(RecordHeader, Seq<T::V>)> {
        match spec_alloc_record(input) {
            Parsed::Value(n, (h, raw)) => match spec_record_fields::<T>(h, raw) {
                Parsed::Value(_, fields) => Parsed::Value(n, (h, fields)),
                Parsed::Error(_) => Parsed::Error(record_fields_error(input, n)),
                Parsed::Undefined => Parsed::Undefined,
            },
            Parsed::Error(e) => Parsed::Error(e),
            Parsed::Undefined => Parsed::Undefined,
        }
    }

    fn parse(i: &'a [u8]) -> (r: Result<(&'a [u8], Record<T>), ParseError>) {
        let (i, (header, raw)) = alloc_record(i)?;
        if header.flags.is_compressed() {
            match decompress_record(raw) {
                Ok(dec) => {
                    match many0::<T>(dec.as_slice()) {
                        Ok((_, fields)) => Ok((i, Record { header, fields })),
                        Err(_) => Err(
                            ParseError::Stopped {
                                code: nom::error::ErrorKind::Complete,
                                remaining: i.len(),
                            },
                        ),
                    }
                },
                Err(_) => Err(
                    ParseError::Stopped { code: nom::error::ErrorKind::Complete, remaining: i.len() },
                ),
            }
        } else {
            match many0::<T>(raw) {
                Ok((_, fields)) => Ok((i, Record { header, fields })),
                Err(_) => Err(
                    ParseError::Stopped { code: nom::error::ErrorKind::Complete, remaining: i.len() },
                ),
            }
        }
    }
}

impl<'a, T: for<'x> ParseTotal<'x>> ParseTotal<'a> for Record<T> {
    proof fn lemma_parse_defined(input: Seq<u8>) {
        if let Parsed::Value(n, (h, raw)) = spec_alloc_record(input) {
            if let Some(body) = record_body(h, raw) {
                lemma_many0_defined::<T>(body);
            }
        }
    }
}

/// Why a raw record could not be turned into a record.
#[derive(Debug)]
pub enum ParseRecordError {
    DecompressError(std::io::Error),
    ParseError(nom::error::ErrorKind),
}

impl<T: for<'x> ParseTotal<'x>> Record<T> {
    /// Reads the fields of a raw record.
    pub fn try_from(value: RawRecord<'_>) -> (r: Result<Self, ParseRecordError>)
        ensures
            match r {
                Ok(rec) => spec_record_fields::<T>(value.header, value.data@) matches Parsed::Value(
                    _,
                    fields,
                ) && rec.deep_view() == (value.header, fields),
                Err(ParseRecordError::DecompressError(e)) => record_body(
                    value.header,
                    value.data@,
                ) is None && io_error_kind(e) == std::io::ErrorKind::InvalidData,
                Err(ParseRecordError::ParseError(code)) => record_body(
                    value.header,
                    value.data@,
                ) is Some && spec_record_fields::<T>(value.header, value.data@) is Error && code
                    == nom::error::ErrorKind::Complete,
            },
    {
        let header = value.header;
        if header.flags.is_compressed() {
            match decompress_record(value.data) {
                Ok(dec) => {
                    proof {
                        lemma_many0_defined::<T>(dec@);
                    }
                    match <Vec<T> as Parse>::parse(dec.as_slice()) {
                        Ok((_, fields)) => Ok(Record { header, fields }),
                        Err(_) => Err(ParseRecordError::ParseError(nom::error::ErrorKind::Complete)),
                    }
                },
                Err(_) => Err(
                    ParseRecordError::DecompressError(
                        invalid_data_error("decompress_record(): could not decompress record"),
                    ),
                ),
            }
        } else {
            proof {
                lemma_many0_defined::<T>(value.data@);
            }
            match many0::<T>(value.data) {
                Ok((_, fields)) => Ok(Record { header, fields }),
                Err(_) => Err(ParseRecordError::ParseError(nom::error::ErrorKind::Complete)),
            }
        }
    }
}

/// How a record is read, case by case: a failure to split off the record is
/// passed on unchanged; an uncompressed record's fields are as many `T` as
/// follow one another in its body, and a compressed record's fields those
/// of its inflated body, whatever bytes are left after the last field; where
/// the body cannot be inflated or its fields cannot be read, the error has the
/// code `Complete` at the bytes after the record. In each case the rest of the
/// input follows the record's raw bytes.
pub proof fn lemma_record_parse_cases<T: for<'x> Parse<'x>>(input: Seq<u8>)
    ensures
        spec_alloc_record(input) matches Parsed::Error(e) ==> <Record<T> as Parse>::spec_parse(input)
            == Parsed::<(RecordHeader, Seq<T::V>)>::Error(e),
        spec_alloc_record(input) matches Parsed::Value(n, (h, raw)) ==> {
            &&& !spec_is_compressed(h.flags) ==> (spec_many0::<T>(raw) matches Parsed::Value(_, fs)
                ==> <Record<T> as Parse>::spec_parse(input) == Parsed::Value(n, (h, fs)))
            &&& spec_is_compressed(h.flags) ==> (spec_decompress_record(raw) matches Some(dec) ==> (
            spec_many0::<T>(dec) matches Parsed::Value(_, fs) ==> <Record<T> as Parse>::spec_parse(
                input,
            ) == Parsed::Value(n, (h, fs))))
            &&& spec_is_compressed(h.flags) && spec_decompress_record(raw) is None
                ==> <Record<T> as Parse>::spec_parse(input) == Parsed::<(RecordHeader, Seq<T::V>)>::Error(
                record_fields_error(input, n),
            )
            &&& record_body(h, raw) matches Some(body) ==> (spec_many0::<T>(body) is Error
                ==> <Record<T> as Parse>::spec_parse(input) == Parsed::<(RecordHeader, Seq<T::V>)>::Error(
                record_fields_error(input, n),
            ))
        },
{
}

/// Reading a record directly gives what splitting off a raw record and then
/// reading its fields gives: the same header, the same fields, the same
/// bytes consumed, and an error exactly where either step fails.
pub proof fn lemma_record_is_raw_record_then_fields<T: for<'x> ParseTotal<'x>>(input: Seq<u8>)
    ensures
        <Record<T> as Parse>::spec_parse(input) == match <RawRecord as Parse>::spec_parse(input) {
            Parsed::Value(n, (h, raw)) => match spec_record_fields::<T>(h, raw) {
                Parsed::Value(_, fields) => Parsed::Value(n, (h, fields)),
                _ => Parsed::Error(record_fields_error(input, n)),
            },
            Parsed::Error(e) => Parsed::Error(e),
            Parsed::Undefined => Parsed::Undefined,
        },
{
    if let Parsed::Value(n, (h, raw)) = spec_alloc_record(input) {
        if let Some(body) = record_body(h, raw) {
            lemma_many0_defined::<T>(body);
        }
    }
}

} // verus!

verus! {

/// Splitting off a record looks only at the record's own bytes: what follows
/// it changes nothing.
pub proof fn lemma_alloc_record_prefix(r: Seq<u8>, rest: Seq<u8>)
    requires
        spec_alloc_record(r) is Value,
    ensures
        spec_alloc_record(r + rest) == spec_alloc_record(r),
{
    crate::parse::lemma_u32_le_prefix(r, rest, 0);
    crate::parse::lemma_u32_le_prefix(r, rest, 4);
    crate::parse::lemma_u32_le_prefix(r, rest, 8);
    crate::parse::lemma_u32_le_prefix(r, rest, 12);
    crate::parse::lemma_u16_le_prefix(r, rest, 20);
    assert(r.skip(0) =~= r);
    assert((r + rest).skip(0) =~= r + rest);
    assert(record_header_at(r + rest) == record_header_at(r));
    if let Parsed::Value(n, (h, _)) = spec_alloc_record(r) {
        assert((r + rest).subrange(24, 24 + h.size) =~= r.subrange(24, 24 + h.size));
    }
}

/// Reading a whole record looks only at the record's own bytes: what follows
/// it changes nothing.
pub proof fn lemma_record_prefix<T: for<'x> Parse<'x>>(r: Seq<u8>, rest: Seq<u8>)
    requires
        <Record<T> as Parse>::spec_parse(r) matches Parsed::Value(n, _) && n == r.len(),
    ensures
        <Record<T> as Parse>::spec_parse(r + rest) == <Record<T> as Parse>::spec_parse(r),
{
    lemma_alloc_record_prefix(r, rest);
}

/// A compressed body is the inflated size (four bytes, not used) and then a
/// zlib stream: what inflating it gives is what the stream after the first
/// four bytes inflates to; a body of fewer than four bytes gives nothing.
pub proof fn lemma_compressed_body_skips_size(raw: Seq<u8>)
    ensures
        raw.len() >= 4 ==> spec_decompress_record(raw) == zlib_inflate(raw.subrange(4, raw.len() as int)),
        raw.len() < 4 ==> spec_decompress_record(raw) is None,
{
    assert(raw.skip(4) =~= raw.subrange(4, raw.len() as int));
}

} // verus!
