//! Groups: a 24-byte `GRUP` header, whose label says what the group holds,
//! followed by the group's contents.
use vstd::prelude::*;

use crate::parse::{
    i32_from_bits, i32_of, le_u32, lemma_many0_of_whole_items, many0, reads_exactly, signed16, signed32,
    spec_many0, splits_as, take, u32_le, Parse, ParseError, Parsed,
};
use super::record::RawRecord;
use super::shared::{cell_loc_of, CellLoc, FormId, FourCC, GRUP};

verus! {

/// What a group holds, with the value that its header gives for it.
#[derive(Debug, Clone, Copy, PartialEq, Eq, Structural)]
pub enum GroupLabel {
    Top(FourCC),
    WorldChildren(FormId),
    InteriorCellBlock(i32),
    InteriorCellSubBlock(i32),
    ExteriorCellBlock(CellLoc),
    ExteriorCellSubBlock(CellLoc),
    CellChildren(FormId),
    TopicChildren(FormId),
    CellPersistentChildren(FormId),
    CellTemporaryChildren(FormId),
}

/// The label of group type `kind` (0 to 9) with the label value `raw`;
/// `None` for any other type.
pub open spec fn label_of(kind: u32, raw: u32) -> Option<GroupLabel> {
    if kind == 0 {
        Some(GroupLabel::Top(FourCC(raw)))
    } else if kind == 1 {
        Some(GroupLabel::WorldChildren(FormId(raw)))
    } else if kind == 2 {
        Some(GroupLabel::InteriorCellBlock(i32_of(raw)))
    } else if kind == 3 {
        Some(GroupLabel::InteriorCellSubBlock(i32_of(raw)))
    } else if kind == 4 {
        Some(GroupLabel::ExteriorCellBlock(cell_loc_of(raw)))
    } else if kind == 5 {
        Some(GroupLabel::ExteriorCellSubBlock(cell_loc_of(raw)))
    } else if kind == 6 {
        Some(GroupLabel::CellChildren(FormId(raw)))
    } else if kind == 7 {
        Some(GroupLabel::TopicChildren(FormId(raw)))
    } else if kind == 8 {
        Some(GroupLabel::CellPersistentChildren(FormId(raw)))
    } else if kind == 9 {
        Some(GroupLabel::CellTemporaryChildren(FormId(raw)))
    } else {
        None
    }
}

/// The header of a group: its label and its size, header included.
#[derive(Debug, Clone, Copy, PartialEq, Eq, Structural)]
pub struct GroupHeader {
    pub label: GroupLabel,
    pub size: u32,
}

impl DeepView for GroupHeader {
    type V = GroupHeader;

    open spec fn deep_view(&self) -> GroupHeader {
        *self
    }
}

/// A group header: `GRUP` (0..4), size (4..8), label value (8..12), group type
/// (12..16) and eight bytes not kept. An input of four bytes or more that
/// does not start with `GRUP`, and a group type above 9, are outside the
/// domain.
pub open spec fn spec_group_header(input: Seq<u8>) -> Parsed<GroupHeader> {
    if input.len() < 4 {
        Parsed::Error(ParseError::Invalid)
    } else if u32_le(input) != GRUP {
        Parsed::Undefined
    } else if input.len() < 24 {
        Parsed::Error(ParseError::Invalid)
    } else {
        match label_of(u32_le(input.skip(12)), u32_le(input.skip(8))) {
            Some(label) => Parsed::Value(24, GroupHeader { label, size: u32_le(input.skip(4)) }),
            None => Parsed::Undefined,
        }
    }
}

/// The label of group type `kind` with the label value `raw`.
fn group_label(kind: u32, raw: u32) -> (r: Option<GroupLabel>)
    ensures
        r == label_of(kind, raw),
{
    match kind {
        0 => Some(GroupLabel::Top(FourCC(raw))),
        1 => Some(GroupLabel::WorldChildren(FormId::new(raw))),
        2 => Some(GroupLabel::InteriorCellBlock(i32_from_bits(raw))),
        3 => Some(GroupLabel::InteriorCellSubBlock(i32_from_bits(raw))),
        4 => Some(GroupLabel::ExteriorCellBlock(CellLoc::from(raw))),
        5 => Some(GroupLabel::ExteriorCellSubBlock(CellLoc::from(raw))),
        6 => Some(GroupLabel::CellChildren(FormId::new(raw))),
        7 => Some(GroupLabel::TopicChildren(FormId::new(raw))),
        8 => Some(GroupLabel::CellPersistentChildren(FormId::new(raw))),
        9 => Some(GroupLabel::CellTemporaryChildren(FormId::new(raw))),
        _ => None,
    }
}

impl<'a> Parse<'a> for GroupHeader {
    open spec fn spec_parse(input: Seq<u8>) -> Parsed<GroupHeader> {
        spec_group_header(input)
    }

    fn parse(i: &'a [u8]) -> (r: Result<(&'a [u8], GroupHeader), ParseError>) {
        let (i1, _iden) = FourCC::parse(i)?;
        let (i2, size) = le_u32(i1)?;
        let (i3, raw_label) = le_u32(i2)?;
        let (i4, label_type) = le_u32(i3)?;
        let (i5, _skip) = take(i4, 8)?;
        assert(i@.skip(4).skip(4) =~= i@.skip(8));
        assert(i@.skip(8).skip(4) =~= i@.skip(12));
        assert(i@.skip(12).skip(4) =~= i@.skip(16));
        assert(i@.skip(16).skip(8) =~= i@.skip(24));
        match group_label(label_type, raw_label) {
            Some(label) => Ok((i5, GroupHeader { label, size })),
            None => Err(ParseError::Invalid),
        }
    }
}

/// The length of a group's contents: its size less the 24 header bytes,
/// modulo 2^32 (a size below 24 wraps around to a length of about 4 GiB).
pub open spec fn contents_len(size: u32) -> nat {
    if size >= 24 {
        (size - 24) as nat
    } else {
        (size + 0x1_0000_0000 - 24) as nat
    }
}

/// Splits a group into its header and its contents, the `contents_len(size)`
/// bytes after the header.
pub open spec fn spec_alloc_group(input: Seq<u8>) -> Parsed<(GroupHeader, Seq<u8>)> {
    match spec_group_header(input) {
        Parsed::Value(_, h) => if input.len() < 24 + contents_len(h.size) {
            Parsed::Error(ParseError::Invalid)
        } else {
            Parsed::Value(
                24 + contents_len(h.size),
                (h, input.subrange(24, (24 + contents_len(h.size)) as int)),
            )
        },
        Parsed::Error(e) => Parsed::Error(e),
        Parsed::Undefined => Parsed::Undefined,
    }
}

pub fn alloc_group<'a>(i: &'a [u8]) -> (r: Result<(&'a [u8], (GroupHeader, &'a [u8])), ParseError>)
    requires
        spec_alloc_group(i@).is_defined(),
    ensures
        splits_as(spec_alloc_group(i@), i@, r),
{
    let (i1, header) = GroupHeader::parse(i)?;
    let len = header.size.wrapping_sub(24);
    assert(len == contents_len(header.size));
    let (i2, raw) = take(i1, len as usize)?;
    assert(i@.skip(24).take(len as int) =~= i@.subrange(24, 24 + len));
    assert(i@.skip(24).skip(len as int) =~= i@.skip(24 + len));
    Ok((i2, (header, raw)))
}

/// A group whose contents are as many `X` as follow one another in them.
pub open spec fn spec_group_items<'a, X: Parse<'a>>(input: Seq<u8>) -> Parsed<(GroupHeader, Seq<X::V>)> {
    match spec_alloc_group(input) {
        Parsed::Value(n, (h, data)) => match spec_many0::<X>(data) {
            Parsed::Value(_, items) => Parsed::Value(n, (h, items)),
            Parsed::Error(e) => Parsed::Error(e),
            Parsed::Undefined => Parsed::Undefined,
        },
        Parsed::Error(e) => Parsed::Error(e),
        Parsed::Undefined => Parsed::Undefined,
    }
}

/// Splits off a group and reads its contents as a sequence of `X` (see `spec_group_items`).
pub fn group_items<'a, X: Parse<'a>>(i: &'a [u8]) -> (r: Result<(&'a [u8], (GroupHeader, Vec<X>)), ParseError>)
    requires
        spec_group_items::<X>(i@).is_defined(),
    ensures
        match r {
            Ok((rest, (h, items))) => spec_group_items::<X>(i@) matches Parsed::Value(n, (sh, sitems))
                && n <= i@.len() && rest@ == i@.skip(n as int) && h == sh && items.deep_view() == sitems,
            Err(e) => spec_group_items::<X>(i@) == Parsed::<(GroupHeader, Seq<X::V>)>::Error(e),
        },
{
    let (i, (header, data)) = alloc_group(i)?;
    let (_, items) = many0::<X>(data)?;
    Ok((i, (header, items)))
}

/// A group whose contents are read as a `T`.
#[derive(Debug)]
pub struct Group<T> {
    pub header: GroupHeader,
    pub data: T,
}

impl<T: DeepView> DeepView for Group<T> {
    type V = (GroupHeader, T::V);

    open spec fn deep_view(&self) -> (GroupHeader, T::V) {
        (self.header, self.data.deep_view())
    }
}

impl<'a, T: Parse<'a>> Parse<'a> for Group<T> {
    /// The contents are parsed as a `T`; what `T` leaves of them is ignored.
    open spec fn spec_parse(input: Seq<u8>) -> Parsed<(GroupHeader, T::V)> {
        match spec_alloc_group(input) {
            Parsed::Value(n, (h, data)) => match T::spec_parse(data) {
                Parsed::Value(_, v) => Parsed::Value(n, (h, v)),
                Parsed::Error(e) => Parsed::Error(e),
                Parsed::Undefined => Parsed::Undefined,
            },
            Parsed::Error(e) => Parsed::Error(e),
            Parsed::Undefined => Parsed::Undefined,
        }
    }

    fn parse(i: &'a [u8]) -> (r: Result<(&'a [u8], Group<T>), ParseError>) {
        let (i, (header, data)) = alloc_group(i)?;
        let (_, data) = T::parse(data)?;
        Ok((i, Group { header, data }))
    }
}

/// A group whose contents are kept as they stand in the input.
#[derive(Debug)]
pub struct RawGroup<'esm> {
    pub header: GroupHeader,
    pub data: &'esm [u8],
}

impl<'esm> DeepView for RawGroup<'esm> {
    type V = (GroupHeader, Seq<u8>);

    open spec fn deep_view(&self) -> (GroupHeader, Seq<u8>) {
        (self.header, self.data@)
    }
}

impl<'esm> Parse<'esm> for RawGroup<'esm> {
    open spec fn spec_parse(input: Seq<u8>) -> Parsed<(GroupHeader, Seq<u8>)> {
        spec_alloc_group(input)
    }

    fn parse(i: &'esm [u8]) -> (r: Result<(&'esm [u8], RawGroup<'esm>), ParseError>) {
        let (i, (header, data)) = alloc_group(i)?;
        Ok((i, RawGroup { header, data }))
    }
}

/// A group of records, each kept raw.
#[derive(Debug)]
pub struct RawDataGroup<'esm> {
    pub header: GroupHeader,
    pub records: Vec<RawRecord<'esm>>,
}

impl<'esm> DeepView for RawDataGroup<'esm> {
    type V = (GroupHeader, Seq<<RawRecord<'esm> as DeepView>::V>);

    open spec fn deep_view(&self) -> Self::V {
        (self.header, self.records.deep_view())
    }
}

impl<'esm> Parse<'esm> for RawDataGroup<'esm> {
    /// The records are as many raw records as follow one another in the contents.
    open spec fn spec_parse(input: Seq<u8>) -> Parsed<Self::V> {
        spec_group_items::<RawRecord>(input)
    }

    fn parse(i: &'esm [u8]) -> (r: Result<(&'esm [u8], RawDataGroup<'esm>), ParseError>) {
        proof {
            if let Parsed::Value(n, (h, data)) = spec_alloc_group(i@) {
                crate::parse::lemma_many0_defined::<RawRecord>(data);
            }
        }
        let (i, (header, records)) = group_items::<RawRecord>(i)?;
        Ok((i, RawDataGroup { header, records }))
    }
}

/// Takes the normal bytes plus the header's bytes
/// Useful for multithreading
#[derive(Debug)]
pub struct RawGroupMT<'esm> {
    pub data: &'esm [u8],
}

impl<'esm> DeepView for RawGroupMT<'esm> {
    type V = Seq<u8>;

    open spec fn deep_view(&self) -> Seq<u8> {
        self.data@
    }
}

impl<'esm> Parse<'esm> for RawGroupMT<'esm> {
    /// The whole group, its header included: the first `size` bytes.
    open spec fn spec_parse(input: Seq<u8>) -> Parsed<Seq<u8>> {
        match spec_group_header(input) {
            Parsed::Value(_, h) => if input.len() < h.size {
                Parsed::Error(ParseError::Invalid)
            } else {
                Parsed::Value(h.size as nat, input.take(h.size as int))
            },
            Parsed::Error(e) => Parsed::Error(e),
            Parsed::Undefined => Parsed::Undefined,
        }
    }

    fn parse(i: &'esm [u8]) -> (r: Result<(&'esm [u8], RawGroupMT<'esm>), ParseError>) {
        let (_, header) = GroupHeader::parse(i)?;
        let (i, data) = take(i, header.size as usize)?;
        Ok((i, RawGroupMT { data }))
    }
}

/// The bytes that `RawGroupMT` takes hold the whole group: splitting them
/// into header and contents gives what splitting the input in place gives,
/// and uses all of them.
pub proof fn lemma_group_mt_holds_whole_group(input: Seq<u8>)
    requires
        spec_group_header(input) matches Parsed::Value(_, h) && h.size >= 24,
    ensures
        <RawGroupMT as Parse>::spec_parse(input) matches Parsed::Value(n, whole) ==> {
            &&& spec_alloc_group(whole) == spec_alloc_group(input)
            &&& spec_alloc_group(whole) matches Parsed::Value(m, _) && m == n == whole.len()
        },
{
    if let Parsed::Value(n, whole) = <RawGroupMT as Parse>::spec_parse(input) {
        assert(whole.len() >= 24);
        assert(whole.skip(4).take(4) =~= input.skip(4).take(4));
        assert forall|k: int| 0 <= k <= 20 implies u32_le(#[trigger] whole.skip(k)) == u32_le(input.skip(k)) by {
            assert(whole.skip(k)[0] == input.skip(k)[0]);
            assert(whole.skip(k)[1] == input.skip(k)[1]);
            assert(whole.skip(k)[2] == input.skip(k)[2]);
            assert(whole.skip(k)[3] == input.skip(k)[3]);
        }
        assert(u32_le(whole.skip(0)) == u32_le(input.skip(0)));
        assert(whole.skip(0) =~= whole);
        assert(input.skip(0) =~= input);
        assert(u32_le(whole.skip(4)) == u32_le(input.skip(4)));
        assert(u32_le(whole.skip(8)) == u32_le(input.skip(8)));
        assert(u32_le(whole.skip(12)) == u32_le(input.skip(12)));
        assert(spec_group_header(whole) == spec_group_header(input));
        assert(whole.subrange(24, n as int) =~= input.subrange(24, n as int));
    }
}

} // verus!

verus! {

/// Reading a group with its contents as a `T` is splitting off the raw group
/// and then reading its contents as a `T`: same header, same bytes consumed,
/// and the contents' own outcome where that is not a value.
pub proof fn lemma_group_is_raw_group_then_contents<'a, T: Parse<'a>>(input: Seq<u8>)
    ensures
        <Group<T> as Parse>::spec_parse(input) == match <RawGroup as Parse>::spec_parse(input) {
            Parsed::Value(n, (h, data)) => match T::spec_parse(data) {
                Parsed::Value(_, v) => Parsed::Value(n, (h, v)),
                Parsed::Error(e) => Parsed::Error(e),
                Parsed::Undefined => Parsed::Undefined,
            },
            Parsed::Error(e) => Parsed::Error(e),
            Parsed::Undefined => Parsed::Undefined,
        },
{
}

} // verus!

verus! {

/// Splitting off a group looks only at the group's own bytes: what follows
/// it changes nothing.
pub proof fn lemma_alloc_group_prefix(g: Seq<u8>, rest: Seq<u8>)
    requires
        spec_alloc_group(g) is Value,
    ensures
        spec_group_header(g + rest) == spec_group_header(g),
        spec_alloc_group(g + rest) == spec_alloc_group(g),
{
    crate::parse::lemma_u32_le_prefix(g, rest, 0);
    crate::parse::lemma_u32_le_prefix(g, rest, 4);
    crate::parse::lemma_u32_le_prefix(g, rest, 8);
    crate::parse::lemma_u32_le_prefix(g, rest, 12);
    assert(g.skip(0) =~= g);
    assert((g + rest).skip(0) =~= g + rest);
    assert(spec_group_header(g + rest) == spec_group_header(g));
    if let Parsed::Value(n, _) = spec_alloc_group(g) {
        assert((g + rest).subrange(24, n as int) =~= g.subrange(24, n as int));
    }
}

} // verus!

verus! {

/// Among groups laid one after the other, the group at the start of the
/// `k`-th onwards frames exactly as the `k`-th group alone does.
pub proof fn lemma_group_at_start(items: Seq<Seq<u8>>, k: int)
    requires
        0 <= k < items.len(),
        spec_alloc_group(items[k]) is Value,
    ensures
        spec_group_header(crate::esm::concat_groups(items.skip(k))) == spec_group_header(items[k]),
        spec_alloc_group(crate::esm::concat_groups(items.skip(k))) == spec_alloc_group(items[k]),
{
    let s = items.skip(k);
    assert(s[0] == items[k]);
    assert(s.drop_first() =~= items.skip(k + 1));
    assert(crate::esm::concat_groups(s) == items[k] + crate::esm::concat_groups(items.skip(k + 1)));
    lemma_alloc_group_prefix(items[k], crate::esm::concat_groups(items.skip(k + 1)));
}

/// A group header as it stands in the bytes: after the tag `GRUP` (bytes
/// 0..4) come the size (the little-endian `u32` of bytes 4..8, header
/// included), the label value (bytes 8..12) and the group type (bytes
/// 12..16). The type says what the label value is: 0 a top group's code, 1 a
/// world, 2 and 3 an interior block and sub-block number (signed), 4 and 5 an
/// exterior block and sub-block grid location (`y` from bytes 8..10, `x` from
/// bytes 10..12, signed), 6 a cell, 7 a topic, 8 and 9 a cell's persistent and
/// temporary children. The contents are the bytes after the header up to the
/// size.
pub proof fn lemma_group_header_from_bytes(input: Seq<u8>)
    requires
        input.len() >= 24,
        input[0] == 0x47 && input[1] == 0x52 && input[2] == 0x55 && input[3] == 0x50,
        input[12] + input[13] * 0x100 + input[14] * 0x1_0000 + input[15] * 0x100_0000 <= 9,
    ensures
        ({
            let h = spec_group_header(input)->Value_1;
            let kind = input[12] + input[13] * 0x100 + input[14] * 0x1_0000 + input[15] * 0x100_0000;
            let raw = input[8] + input[9] * 0x100 + input[10] * 0x1_0000 + input[11] * 0x100_0000;
            let number = signed32(input[8], input[9], input[10], input[11]);
            let y = signed16(input[8], input[9]);
            let x = signed16(input[10], input[11]);
            &&& spec_group_header(input) matches Parsed::Value(n, _) && n == 24
            &&& h.size == input[4] + input[5] * 0x100 + input[6] * 0x1_0000 + input[7] * 0x100_0000
            &&& kind == 0 ==> (h.label matches GroupLabel::Top(c) && c.0 == raw)
            &&& kind == 1 ==> (h.label matches GroupLabel::WorldChildren(f) && f.0 == raw)
            &&& kind == 2 ==> (h.label matches GroupLabel::InteriorCellBlock(v) && v == number)
            &&& kind == 3 ==> (h.label matches GroupLabel::InteriorCellSubBlock(v) && v == number)
            &&& kind == 4 ==> (h.label matches GroupLabel::ExteriorCellBlock(l) && l.y == y && l.x
                == x)
            &&& kind == 5 ==> (h.label matches GroupLabel::ExteriorCellSubBlock(l) && l.y == y && l.x
                == x)
            &&& kind == 6 ==> (h.label matches GroupLabel::CellChildren(f) && f.0 == raw)
            &&& kind == 7 ==> (h.label matches GroupLabel::TopicChildren(f) && f.0 == raw)
            &&& kind == 8 ==> (h.label matches GroupLabel::CellPersistentChildren(f) && f.0 == raw)
            &&& kind == 9 ==> (h.label matches GroupLabel::CellTemporaryChildren(f) && f.0 == raw)
            &&& h.size >= 24 ==> (spec_alloc_group(input) is Value <==> input.len() >= h.size)
            &&& h.size >= 24 ==> (spec_alloc_group(input) matches Parsed::Value(n, (gh, data)) ==> n
                == h.size && gh == h && data == input.subrange(24, h.size as int))
        }),
{
    let s4 = input.skip(4);
    let s8 = input.skip(8);
    let s12 = input.skip(12);
    assert(s4[0] == input[4] && s4[1] == input[5] && s4[2] == input[6] && s4[3] == input[7]);
    assert(s8[0] == input[8] && s8[1] == input[9] && s8[2] == input[10] && s8[3] == input[11]);
    assert(s12[0] == input[12] && s12[1] == input[13] && s12[2] == input[14] && s12[3] == input[15]);
    let raw = u32_le(s8);
    assert(raw % 0x1_0000 == input[8] + input[9] * 0x100);
    assert(raw / 0x1_0000 == input[10] + input[11] * 0x100);
}

/// A group of records holds every record of its contents, in order: where the
/// contents are `records` laid one after the other, each a whole record, the
/// group has one raw record per item, the `j`-th being the header and body of
/// `records[j]`.
pub proof fn lemma_data_group_holds_every_record<'esm>(
    input: Seq<u8>,
    n: nat,
    h: GroupHeader,
    records: Seq<Seq<u8>>,
)
    requires
        spec_alloc_group(input) == Parsed::Value(n, (h, crate::esm::concat_groups(records))),
        forall|j: int|
            0 <= j < records.len() ==> #[trigger] reads_exactly::<RawRecord<'esm>>(
                records[j],
                records[j].len(),
            ),
    ensures
        <RawDataGroup<'esm> as Parse>::spec_parse(input) == Parsed::Value(
            n,
            (
                h,
                Seq::new(
                    records.len(),
                    |j: int| (super::record::spec_alloc_record(records[j]))->Value_1,
                ),
            ),
        ),
{
    assert forall|j: int| 0 <= j < records.len() implies #[trigger] <RawRecord<'esm> as Parse>::spec_parse(
        crate::esm::concat_groups(records.skip(j)),
    ) == <RawRecord<'esm> as Parse>::spec_parse(records[j]) by {
        let s = records.skip(j);
        assert(s[0] == records[j]);
        assert(s.drop_first() =~= records.skip(j + 1));
        assert(crate::esm::concat_groups(s) == records[j] + crate::esm::concat_groups(
            records.skip(j + 1),
        ));
        assert(reads_exactly::<RawRecord<'esm>>(records[j], records[j].len()));
        super::record::lemma_alloc_record_prefix(
            records[j],
            crate::esm::concat_groups(records.skip(j + 1)),
        );
    }
    assert(<RawRecord<'esm> as Parse>::spec_parse(Seq::empty()) is Error);
    lemma_many0_of_whole_items::<RawRecord<'esm>>(records);
    assert(Seq::new(records.len(), |j: int| (<RawRecord<'esm> as Parse>::spec_parse(records[j]))->Value_1)
        =~= Seq::new(records.len(), |j: int| (super::record::spec_alloc_record(records[j]))->Value_1));
}

} // verus!
