//! Pieces of a record's script data (virtual machine adapter).
use vstd::prelude::*;

use crate::parse::{
    count, fixed, i16_of, le_i16, le_u16, le_u8, many0, spec_count, spec_many0, u16_le, u32_le, Parse,
    ParseError, ParseTotal, Parsed,
};
use super::shared::FormId;

verus! {

/// The status of a script or of a property.
#[derive(Debug, Clone, Copy, PartialEq, Eq, Structural)]
pub enum Status {
    Local,
    Inherited,
    InheritedRemoved,
}

/// The status coded by the byte `b` (0, 1 or 3).
pub open spec fn status_of(b: u8) -> Option<Status> {
    if b == 0 {
        Some(Status::Local)
    } else if b == 1 {
        Some(Status::Inherited)
    } else if b == 3 {
        Some(Status::InheritedRemoved)
    } else {
        None
    }
}

/// Reads one byte and the value it codes; a byte that codes none is rejected.
pub open spec fn coded<V>(input: Seq<u8>, v: Option<V>) -> Parsed<V> {
    if input.len() < 1 {
        Parsed::Error(ParseError::Invalid)
    } else {
        match v {
            Some(v) => Parsed::Value(1, v),
            None => Parsed::Error(ParseError::Invalid),
        }
    }
}

impl DeepView for Status {
    type V = Status;

    open spec fn deep_view(&self) -> Status {
        *self
    }
}

impl<'a> Parse<'a> for Status {
    open spec fn spec_parse(input: Seq<u8>) -> Parsed<Status> {
        coded(input, status_of(if input.len() > 0 { input[0] } else { 0 }))
    }

    fn parse(i: &'a [u8]) -> (r: Result<(&'a [u8], Status), ParseError>) {
        let (rest, selector) = le_u8(i)?;
        match selector {
            0 => Ok((rest, Status::Local)),
            1 => Ok((rest, Status::Inherited)),
            3 => Ok((rest, Status::InheritedRemoved)),
            _ => Err(ParseError::Invalid),
        }
    }
}

impl<'a> ParseTotal<'a> for Status {
    proof fn lemma_parse_defined(input: Seq<u8>) {
    }
}

/// The type of a script property.
#[derive(Debug, Clone, Copy, PartialEq, Eq, Structural)]
pub enum PropertyType {
    Object,
    SizedString16,
    Int32,
    Float32,
    Bool,
    ObjectArray,
    SizedString16Array,
    Int32Array,
    Float32Array,
    BoolArray,
}

/// The property type coded by the byte `b` (1 to 5, or 11 to 15).
pub open spec fn property_type_of(b: u8) -> Option<PropertyType> {
    if b == 1 {
        Some(PropertyType::Object)
    } else if b == 2 {
        Some(PropertyType::SizedString16)
    } else if b == 3 {
        Some(PropertyType::Int32)
    } else if b == 4 {
        Some(PropertyType::Float32)
    } else if b == 5 {
        Some(PropertyType::Bool)
    } else if b == 11 {
        Some(PropertyType::ObjectArray)
    } else if b == 12 {
        Some(PropertyType::SizedString16Array)
    } else if b == 13 {
        Some(PropertyType::Int32Array)
    } else if b == 14 {
        Some(PropertyType::Float32Array)
    } else if b == 15 {
        Some(PropertyType::BoolArray)
    } else {
        None
    }
}

impl DeepView for PropertyType {
    type V = PropertyType;

    open spec fn deep_view(&self) -> PropertyType {
        *self
    }
}

impl<'a> Parse<'a> for PropertyType {
    open spec fn spec_parse(input: Seq<u8>) -> Parsed<PropertyType> {
        coded(input, property_type_of(if input.len() > 0 { input[0] } else { 0 }))
    }

    fn parse(i: &'a [u8]) -> (r: Result<(&'a [u8], PropertyType), ParseError>) {
        let (rest, selector) = le_u8(i)?;
        match selector {
            1 => Ok((rest, PropertyType::Object)),
            2 => Ok((rest, PropertyType::SizedString16)),
            3 => Ok((rest, PropertyType::Int32)),
            4 => Ok((rest, PropertyType::Float32)),
            5 => Ok((rest, PropertyType::Bool)),
            11 => Ok((rest, PropertyType::ObjectArray)),
            12 => Ok((rest, PropertyType::SizedString16Array)),
            13 => Ok((rest, PropertyType::Int32Array)),
            14 => Ok((rest, PropertyType::Float32Array)),
            15 => Ok((rest, PropertyType::BoolArray)),
            _ => Err(ParseError::Invalid),
        }
    }
}

impl<'a> ParseTotal<'a> for PropertyType {
    proof fn lemma_parse_defined(input: Seq<u8>) {
    }
}

/// An object property value, first layout: form id, alias, two bytes of padding.
#[derive(Debug, Clone, Copy, PartialEq, Eq)]
pub struct PropertyObjectV1 {
    pub form_id: FormId,
    pub alias: u16,
    pub padding: u16,
}

impl DeepView for PropertyObjectV1 {
    type V = (FormId, u16, u16);

    open spec fn deep_view(&self) -> (FormId, u16, u16) {
        (self.form_id, self.alias, self.padding)
    }
}

impl<'a> Parse<'a> for PropertyObjectV1 {
    open spec fn spec_parse(input: Seq<u8>) -> Parsed<(FormId, u16, u16)> {
        fixed(input, 8, (FormId(u32_le(input)), u16_le(input.skip(4)), u16_le(input.skip(6))))
    }

    fn parse(i: &'a [u8]) -> (r: Result<(&'a [u8], PropertyObjectV1), ParseError>) {
        let (i1, form_id) = FormId::parse(i)?;
        let (i2, alias) = le_u16(i1)?;
        let (i3, padding) = le_u16(i2)?;
        assert(i@.skip(4).skip(2) =~= i@.skip(6));
        assert(i@.skip(6).skip(2) =~= i@.skip(8));
        Ok((i3, PropertyObjectV1 { form_id, alias, padding }))
    }
}

impl<'a> ParseTotal<'a> for PropertyObjectV1 {
    proof fn lemma_parse_defined(input: Seq<u8>) {
    }
}

/// An object property value, second layout: two bytes of padding, alias, form id.
#[derive(Debug, Clone, Copy, PartialEq, Eq)]
pub struct PropertyObjectV2 {
    pub padding: u16,
    pub alias: u16,
    pub form_id: FormId,
}

impl DeepView for PropertyObjectV2 {
    type V = (u16, u16, FormId);

    open spec fn deep_view(&self) -> (u16, u16, FormId) {
        (self.padding, self.alias, self.form_id)
    }
}

impl<'a> Parse<'a> for PropertyObjectV2 {
    open spec fn spec_parse(input: Seq<u8>) -> Parsed<(u16, u16, FormId)> {
        fixed(input, 8, (u16_le(input), u16_le(input.skip(2)), FormId(u32_le(input.skip(4)))))
    }

    fn parse(i: &'a [u8]) -> (r: Result<(&'a [u8], PropertyObjectV2), ParseError>) {
        let (i1, padding) = le_u16(i)?;
        let (i2, alias) = le_u16(i1)?;
        let (i3, form_id) = FormId::parse(i2)?;
        assert(i@.skip(2).skip(2) =~= i@.skip(4));
        assert(i@.skip(4).skip(4) =~= i@.skip(8));
        Ok((i3, PropertyObjectV2 { padding, alias, form_id }))
    }
}

impl<'a> ParseTotal<'a> for PropertyObjectV2 {
    proof fn lemma_parse_defined(input: Seq<u8>) {
    }
}

/// The status of a property entry.
#[derive(Debug, Clone, Copy, PartialEq, Eq, Structural)]
pub enum PropertyStatus {
    Edited,
    Removed,
}

/// The property status coded by the byte `b` (1 or 3).
pub open spec fn property_status_of(b: u8) -> Option<PropertyStatus> {
    if b == 1 {
        Some(PropertyStatus::Edited)
    } else if b == 3 {
        Some(PropertyStatus::Removed)
    } else {
        None
    }
}

impl DeepView for PropertyStatus {
    type V = PropertyStatus;

    open spec fn deep_view(&self) -> PropertyStatus {
        *self
    }
}

impl<'a> Parse<'a> for PropertyStatus {
    open spec fn spec_parse(input: Seq<u8>) -> Parsed<PropertyStatus> {
        coded(input, property_status_of(if input.len() > 0 { input[0] } else { 0 }))
    }

    fn parse(i: &'a [u8]) -> (r: Result<(&'a [u8], PropertyStatus), ParseError>) {
        let (rest, selector) = le_u8(i)?;
        match selector {
            1 => Ok((rest, PropertyStatus::Edited)),
            3 => Ok((rest, PropertyStatus::Removed)),
            _ => Err(ParseError::Invalid),
        }
    }
}

impl<'a> ParseTotal<'a> for PropertyStatus {
    proof fn lemma_parse_defined(input: Seq<u8>) {
    }
}

/// A script fragment; it holds nothing and reads no bytes.
#[derive(Debug, Clone, Copy, PartialEq, Eq, Structural)]
pub struct Fragment {}

impl DeepView for Fragment {
    type V = Fragment;

    open spec fn deep_view(&self) -> Fragment {
        *self
    }
}

impl<'a> Parse<'a> for Fragment {
    open spec fn spec_parse(input: Seq<u8>) -> Parsed<Fragment> {
        Parsed::Value(0, Fragment {  })
    }

    fn parse(i: &'a [u8]) -> (r: Result<(&'a [u8], Fragment), ParseError>) {
        assert(i@.skip(0) =~= i@);
        Ok((i, Fragment {  }))
    }
}

impl<'a> ParseTotal<'a> for Fragment {
    proof fn lemma_parse_defined(input: Seq<u8>) {
    }
}

/// The script data of a record: a version, an object format, a count of
/// scripts, that many scripts read as `S`, then the fragments.
#[derive(Debug)]
pub struct VirtualMachineAdapter<S> {
    pub version: i16,
    pub format: i16,
    pub script_count: u16,
    pub scripts: Vec<S>,
    pub fragments: Vec<Fragment>,
}

impl<S: DeepView> DeepView for VirtualMachineAdapter<S> {
    type V = (i16, i16, u16, Seq<S::V>, Seq<Fragment>);

    open spec fn deep_view(&self) -> Self::V {
        (
            self.version,
            self.format,
            self.script_count,
            self.scripts.deep_view(),
            self.fragments.deep_view(),
        )
    }
}

impl<'a, S: Parse<'a>> Parse<'a> for VirtualMachineAdapter<S> {
    /// `version` and `format` as little-endian `i16`, `script_count` as a
    /// little-endian `u16`, exactly `script_count` scripts, then, where bytes
    /// are left, as many fragments as follow (see `lemma_fragments_of_bytes`:
    /// a fragment takes no bytes, so bytes left after the scripts are rejected).
    open spec fn spec_parse(input: Seq<u8>) -> Parsed<Self::V> {
        if input.len() < 6 {
            Parsed::Error(ParseError::Invalid)
        } else {
            let version = i16_of(u16_le(input));
            let format = i16_of(u16_le(input.skip(2)));
            let script_count = u16_le(input.skip(4));
            match spec_count::<S>(input.skip(6), script_count as nat) {
                Parsed::Value(n, scripts) => if 6 + n > input.len() {
                    Parsed::Error(ParseError::Invalid)
                } else if 6 + n == input.len() {
                    Parsed::Value(input.len(), (version, format, script_count, scripts, Seq::empty()))
                } else {
                    match spec_many0::<Fragment>(input.skip((6 + n) as int)) {
                        Parsed::Value(m, fragments) => Parsed::Value(
                            6 + n + m,
                            (version, format, script_count, scripts, fragments),
                        ),
                        Parsed::Error(e) => Parsed::Error(e),
                        Parsed::Undefined => Parsed::Undefined,
                    }
                },
                Parsed::Error(e) => Parsed::Error(e),
                Parsed::Undefined => Parsed::Undefined,
            }
        }
    }

    fn parse(i: &'a [u8]) -> (r: Result<(&'a [u8], VirtualMachineAdapter<S>), ParseError>) {
        let ghost input = i@;
        let (i1, version) = le_i16(i)?;
        let (i2, format) = le_i16(i1)?;
        let (i3, script_count) = le_u16(i2)?;
        assert(input.skip(2).skip(2) =~= input.skip(4));
        assert(input.skip(4).skip(2) =~= input.skip(6));
        let (i4, scripts) = count::<S>(i3, script_count as usize)?;
        let ghost n = match spec_count::<S>(i3@, script_count as nat) {
            Parsed::Value(n, _) => n,
            _ => 0,
        };
        assert(i4@ == input.skip((6 + n) as int));
        if i4.len() > 0 {
            proof {
                crate::parse::lemma_many0_defined::<Fragment>(i4@);
            }
            let (i5, fragments) = many0::<Fragment>(i4)?;
            let ghost m = match spec_many0::<Fragment>(i4@) {
                Parsed::Value(m, _) => m,
                _ => 0,
            };
            assert(input.skip((6 + n) as int).skip(m as int) =~= input.skip((6 + n + m) as int));
            Ok((i5, VirtualMachineAdapter { version, format, script_count, scripts, fragments }))
        } else {
            let fragments: Vec<Fragment> = Vec::new();
            assert(fragments.deep_view() =~= Seq::<Fragment>::empty());
            Ok((i4, VirtualMachineAdapter { version, format, script_count, scripts, fragments }))
        }
    }
}

impl<'a, S: ParseTotal<'a>> ParseTotal<'a> for VirtualMachineAdapter<S> {
    proof fn lemma_parse_defined(input: Seq<u8>) {
        if input.len() >= 6 {
            crate::parse::lemma_count_defined::<S>(input.skip(6), u16_le(input.skip(4)) as nat);
            if let Parsed::Value(n, _) = spec_count::<S>(input.skip(6), u16_le(input.skip(4)) as nat) {
                if 6 + n < input.len() {
                    crate::parse::lemma_many0_defined::<Fragment>(input.skip((6 + n) as int));
                }
            }
        }
    }
}

/// A fragment takes no bytes, so reading fragments from bytes that are left
/// is rejected with the code `Many0` at those bytes.
pub proof fn lemma_fragments_of_bytes(rest: Seq<u8>)
    requires
        rest.len() > 0,
    ensures
        spec_many0::<Fragment>(rest) == Parsed::<Seq<Fragment>>::Error(
            ParseError::Stopped {
                code: nom::error::ErrorKind::Many0,
                remaining: rest.len() as usize,
            },
        ),
{
}

/// A status is one byte: 0 local, 1 inherited, 3 inherited and removed; any
/// other byte, and an empty input, is rejected.
pub proof fn lemma_status_codes(input: Seq<u8>)
    ensures
        input.len() > 0 && input[0] == 0 ==> <Status as Parse>::spec_parse(input)
            == Parsed::Value(1, Status::Local),
        input.len() > 0 && input[0] == 1 ==> <Status as Parse>::spec_parse(input)
            == Parsed::Value(1, Status::Inherited),
        input.len() > 0 && input[0] == 3 ==> <Status as Parse>::spec_parse(input)
            == Parsed::Value(1, Status::InheritedRemoved),
        input.len() > 0 && input[0] != 0 && input[0] != 1 && input[0] != 3
            ==> <Status as Parse>::spec_parse(input) is Error,
        input.len() == 0 ==> <Status as Parse>::spec_parse(input) is Error,
{
}

/// A property type is one byte: 1 object, 2 sized string, 3 `i32`, 4 `f32`, 5
/// bool, and 11 to 15 arrays of these in the same order; any other byte, and
/// an empty input, is rejected.
pub proof fn lemma_property_type_codes(input: Seq<u8>)
    ensures
        input.len() > 0 && input[0] == 1 ==> <PropertyType as Parse>::spec_parse(input)
            == Parsed::Value(1, PropertyType::Object),
        input.len() > 0 && input[0] == 2 ==> <PropertyType as Parse>::spec_parse(input)
            == Parsed::Value(1, PropertyType::SizedString16),
        input.len() > 0 && input[0] == 3 ==> <PropertyType as Parse>::spec_parse(input)
            == Parsed::Value(1, PropertyType::Int32),
        input.len() > 0 && input[0] == 4 ==> <PropertyType as Parse>::spec_parse(input)
            == Parsed::Value(1, PropertyType::Float32),
        input.len() > 0 && input[0] == 5 ==> <PropertyType as Parse>::spec_parse(input)
            == Parsed::Value(1, PropertyType::Bool),
        input.len() > 0 && input[0] == 11 ==> <PropertyType as Parse>::spec_parse(input)
            == Parsed::Value(1, PropertyType::ObjectArray),
        input.len() > 0 && input[0] == 12 ==> <PropertyType as Parse>::spec_parse(input)
            == Parsed::Value(1, PropertyType::SizedString16Array),
        input.len() > 0 && input[0] == 13 ==> <PropertyType as Parse>::spec_parse(input)
            == Parsed::Value(1, PropertyType::Int32Array),
        input.len() > 0 && input[0] == 14 ==> <PropertyType as Parse>::spec_parse(input)
            == Parsed::Value(1, PropertyType::Float32Array),
        input.len() > 0 && input[0] == 15 ==> <PropertyType as Parse>::spec_parse(input)
            == Parsed::Value(1, PropertyType::BoolArray),
        input.len() > 0 && input[0] != 1 && input[0] != 2 && input[0] != 3 && input[0] != 4 && input[0] != 5 && input[0] != 11 && input[0] != 12 && input[0] != 13 && input[0] != 14 && input[0] != 15
            ==> <PropertyType as Parse>::spec_parse(input) is Error,
        input.len() == 0 ==> <PropertyType as Parse>::spec_parse(input) is Error,
{
}

/// A property status is one byte: 1 edited, 3 removed; any other byte, and an
/// empty input, is rejected.
pub proof fn lemma_property_status_codes(input: Seq<u8>)
    ensures
        input.len() > 0 && input[0] == 1 ==> <PropertyStatus as Parse>::spec_parse(input)
            == Parsed::Value(1, PropertyStatus::Edited),
        input.len() > 0 && input[0] == 3 ==> <PropertyStatus as Parse>::spec_parse(input)
            == Parsed::Value(1, PropertyStatus::Removed),
        input.len() > 0 && input[0] != 1 && input[0] != 3
            ==> <PropertyStatus as Parse>::spec_parse(input) is Error,
        input.len() == 0 ==> <PropertyStatus as Parse>::spec_parse(input) is Error,
{
}

/// The object property layouts as they stand in the bytes: the first holds
/// the form id (bytes 0..4), the alias (4..6) and padding (6..8); the second
/// holds padding (0..2), the alias (2..4) and the form id (4..8); all
/// little-endian, and an input of fewer than 8 bytes is rejected.
pub proof fn lemma_property_object_layouts(input: Seq<u8>)
    ensures
        input.len() < 8 ==> <PropertyObjectV1 as Parse>::spec_parse(input) is Error
            && <PropertyObjectV2 as Parse>::spec_parse(input) is Error,
        input.len() >= 8 ==> ({
            let v1 = (<PropertyObjectV1 as Parse>::spec_parse(input))->Value_1;
            let v2 = (<PropertyObjectV2 as Parse>::spec_parse(input))->Value_1;
            &&& <PropertyObjectV1 as Parse>::spec_parse(input) matches Parsed::Value(n, _) && n == 8
            &&& <PropertyObjectV2 as Parse>::spec_parse(input) matches Parsed::Value(n, _) && n == 8
            &&& v1.0.0 == input[0] + input[1] * 0x100 + input[2] * 0x1_0000 + input[3] * 0x100_0000
            &&& v1.1 == input[4] + input[5] * 0x100
            &&& v1.2 == input[6] + input[7] * 0x100
            &&& v2.0 == input[0] + input[1] * 0x100
            &&& v2.1 == input[2] + input[3] * 0x100
            &&& v2.2.0 == input[4] + input[5] * 0x100 + input[6] * 0x1_0000 + input[7] * 0x100_0000
        }),
{
    if input.len() >= 8 {
        let s2 = input.skip(2);
        let s4 = input.skip(4);
        let s6 = input.skip(6);
        assert(s2[0] == input[2] && s2[1] == input[3]);
        assert(s4[0] == input[4] && s4[1] == input[5] && s4[2] == input[6] && s4[3] == input[7]);
        assert(s6[0] == input[6] && s6[1] == input[7]);
    }
}

/// Script data as it stands in the bytes: the version (bytes 0..2) and the
/// object format (2..4), signed, and the script count (4..6), little-endian;
/// the scripts read number exactly that count, and no fragment is read where
/// no bytes follow them. Fewer than six bytes are rejected.
pub proof fn lemma_vmad_header_from_bytes<'a, S: Parse<'a>>(input: Seq<u8>)
    ensures
        input.len() < 6 ==> <VirtualMachineAdapter<S> as Parse>::spec_parse(input) is Error,
        <VirtualMachineAdapter<S> as Parse>::spec_parse(input) matches Parsed::Value(
            n,
            (version, format, script_count, scripts, fragments),
        ) ==> version == crate::parse::signed16(input[0], input[1]) && format
            == crate::parse::signed16(input[2], input[3]) && script_count == crate::parse::le16_at(
            input,
            4,
        ) && scripts.len() == script_count && (n == input.len() ==> fragments.len() == 0),
{
    if input.len() >= 6 {
        let s2 = input.skip(2);
        let s4 = input.skip(4);
        assert(s2[0] == input[2] && s2[1] == input[3]);
        assert(s4[0] == input[4] && s4[1] == input[5]);
        crate::parse::lemma_count_len::<S>(input.skip(6), u16_le(input.skip(4)) as nat);
        if let Parsed::Value(m, _) = spec_count::<S>(input.skip(6), u16_le(input.skip(4)) as nat) {
            if 6 + m < input.len() {
                lemma_fragments_of_bytes(input.skip((6 + m) as int));
            }
        }
    }
}

} // verus!
