//! Cells: the interior cell top group, its blocks and sub-blocks, cell
//! records and the groups of their children.
use vstd::prelude::*;

use crate::esm::concat_groups;
use crate::parse::{
    count, item_reading, le_u32, lemma_many0_of_items, lemma_many0_of_whole_items, many0, reads_exactly,
    spec_count, u32_le, Parse, ParseError, ParseTotal, Parsed,
};
use super::field::ByteField;
use super::group::{
    alloc_group, group_items, lemma_alloc_group_prefix, lemma_group_at_start, spec_alloc_group, spec_group_header, spec_group_items, GroupHeader,
    GroupLabel, Group, RawGroup,
};
use super::record::{alloc_record, spec_alloc_record, Record};
use super::shared::{FormId, FourCC, GRUP};

verus! {

/// The interior cell top group, its blocks kept with their sub-blocks raw.
#[derive(Debug)]
pub struct RawCellTopGroup<'esm> {
    pub header: GroupHeader,
    pub interior_cell_blocks: Vec<RawInteriorCellBlock<'esm>>,
}

impl<'esm> DeepView for RawCellTopGroup<'esm> {
    type V = (GroupHeader, Seq<<RawInteriorCellBlock<'esm> as DeepView>::V>);

    open spec fn deep_view(&self) -> Self::V {
        (self.header, self.interior_cell_blocks.deep_view())
    }
}

impl<'esm> Parse<'esm> for RawCellTopGroup<'esm> {
    open spec fn spec_parse(input: Seq<u8>) -> Parsed<Self::V> {
        spec_group_items::<RawInteriorCellBlock>(input)
    }

    fn parse(i: &'esm [u8]) -> (r: Result<(&'esm [u8], RawCellTopGroup<'esm>), ParseError>) {
        let (i, (header, blocks)) = group_items::<RawInteriorCellBlock>(i)?;
        Ok((i, RawCellTopGroup { header, interior_cell_blocks: blocks }))
    }
}

/// The interior cell top group.
#[derive(Debug)]
pub struct CellTopGroup {
    pub header: GroupHeader,
    pub interior_cell_blocks: Vec<InteriorCellBlock>,
}

impl DeepView for CellTopGroup {
    type V = (GroupHeader, Seq<<InteriorCellBlock as DeepView>::V>);

    open spec fn deep_view(&self) -> Self::V {
        (self.header, self.interior_cell_blocks.deep_view())
    }
}

impl<'a> Parse<'a> for CellTopGroup {
    open spec fn spec_parse(input: Seq<u8>) -> Parsed<Self::V> {
        spec_group_items::<InteriorCellBlock>(input)
    }

    fn parse(i: &'a [u8]) -> (r: Result<(&'a [u8], CellTopGroup), ParseError>) {
        let (i, (header, interior_cell_blocks)) = group_items::<InteriorCellBlock>(i)?;
        Ok((i, CellTopGroup { header, interior_cell_blocks }))
    }
}

/// An interior cell block, its sub-blocks kept raw.
#[derive(Debug)]
pub struct RawInteriorCellBlock<'esm> {
    pub header: GroupHeader,
    pub interior_cell_sub_blocks: Vec<RawInteriorCellSubBlock<'esm>>,
}

impl<'esm> DeepView for RawInteriorCellBlock<'esm> {
    type V = (GroupHeader, Seq<(GroupHeader, Seq<u8>)>);

    open spec fn deep_view(&self) -> Self::V {
        (self.header, self.interior_cell_sub_blocks.deep_view())
    }
}

impl<'esm> Parse<'esm> for RawInteriorCellBlock<'esm> {
    open spec fn spec_parse(input: Seq<u8>) -> Parsed<Self::V> {
        spec_group_items::<RawInteriorCellSubBlock>(input)
    }

    fn parse(i: &'esm [u8]) -> (r: Result<(&'esm [u8], RawInteriorCellBlock<'esm>), ParseError>) {
        let (i, (header, blocks)) = group_items::<RawInteriorCellSubBlock>(i)?;
        Ok((i, RawInteriorCellBlock { header, interior_cell_sub_blocks: blocks }))
    }
}

/// An interior cell sub-block, its contents kept raw.
#[derive(Debug)]
pub struct RawInteriorCellSubBlock<'esm> {
    pub header: GroupHeader,
    pub data: &'esm [u8],
}

impl<'esm> DeepView for RawInteriorCellSubBlock<'esm> {
    type V = (GroupHeader, Seq<u8>);

    open spec fn deep_view(&self) -> Self::V {
        (self.header, self.data@)
    }
}

impl<'esm> Parse<'esm> for RawInteriorCellSubBlock<'esm> {
    open spec fn spec_parse(input: Seq<u8>) -> Parsed<Self::V> {
        spec_alloc_group(input)
    }

    fn parse(i: &'esm [u8]) -> (r: Result<(&'esm [u8], RawInteriorCellSubBlock<'esm>), ParseError>) {
        let (i, (header, data)) = alloc_group(i)?;
        Ok((i, RawInteriorCellSubBlock { header, data }))
    }
}

/// An interior cell block; its group header is not kept.
#[derive(Debug)]
pub struct InteriorCellBlock {
    pub sub_blocks: Vec<InteriorCellSubBlock>,
}

impl DeepView for InteriorCellBlock {
    type V = Seq<<InteriorCellSubBlock as DeepView>::V>;

    open spec fn deep_view(&self) -> Self::V {
        self.sub_blocks.deep_view()
    }
}

impl<'a> Parse<'a> for InteriorCellBlock {
    open spec fn spec_parse(input: Seq<u8>) -> Parsed<Self::V> {
        match spec_group_items::<InteriorCellSubBlock>(input) {
            Parsed::Value(n, (_, sub_blocks)) => Parsed::Value(n, sub_blocks),
            Parsed::Error(e) => Parsed::Error(e),
            Parsed::Undefined => Parsed::Undefined,
        }
    }

    fn parse(i: &'a [u8]) -> (r: Result<(&'a [u8], InteriorCellBlock), ParseError>) {
        let (i, (_header, sub_blocks)) = group_items::<InteriorCellSubBlock>(i)?;
        Ok((i, InteriorCellBlock { sub_blocks }))
    }
}

/// An interior cell sub-block and its cells.
#[derive(Debug)]
pub struct InteriorCellSubBlock {
    pub header: GroupHeader,
    pub cells: Vec<CellDefinition>,
}

impl DeepView for InteriorCellSubBlock {
    type V = (GroupHeader, Seq<<CellDefinition as DeepView>::V>);

    open spec fn deep_view(&self) -> Self::V {
        (self.header, self.cells.deep_view())
    }
}

impl<'a> Parse<'a> for InteriorCellSubBlock {
    open spec fn spec_parse(input: Seq<u8>) -> Parsed<Self::V> {
        spec_group_items::<CellDefinition>(input)
    }

    fn parse(i: &'a [u8]) -> (r: Result<(&'a [u8], InteriorCellSubBlock), ParseError>) {
        let (i, (header, cells)) = group_items::<CellDefinition>(i)?;
        Ok((i, InteriorCellSubBlock { header, cells }))
    }
}

/// What follows a cell record: the children group, where the next bytes open
/// a group labelled `CellChildren`.
///
/// `None`: fewer than four bytes follow the record (the whole cell is then
/// rejected). `Some(Parsed::Value(_, true))`: a children group follows.
/// `Some(Parsed::Value(_, false))`: something else follows. `Some(Undefined)`:
/// a group header outside `GroupHeader`'s domain follows.
pub open spec fn children_follow(rest: Seq<u8>) -> Option<Parsed<bool>> {
    if rest.len() < 4 {
        None
    } else if u32_le(rest) == GRUP {
        match spec_group_header(rest) {
            Parsed::Value(_, gh) => Some(Parsed::Value(0, gh.label is CellChildren)),
            Parsed::Error(_) => None,
            Parsed::Undefined => Some(Parsed::Undefined),
        }
    } else {
        Some(Parsed::Value(0, false))
    }
}

/// A cell record, with its children group where one follows it.
#[derive(Debug)]
pub struct CellDefinition {
    pub cell: Record<ByteField>,
    pub cell_children: Option<CellChildren>,
}

impl DeepView for CellDefinition {
    type V = (<Record<ByteField> as DeepView>::V, Option<<CellChildren as DeepView>::V>);

    open spec fn deep_view(&self) -> Self::V {
        (self.cell.deep_view(), self.cell_children.deep_view())
    }
}

/// Whether the four bytes at the start of `i` are `GRUP`; `Err` where fewer than four bytes remain.
fn next_is_group(i: &[u8]) -> (r: Result<bool, ParseError>)
    ensures
        match r {
            Ok(b) => i@.len() >= 4 && b == (u32_le(i@) == GRUP),
            Err(e) => i@.len() < 4 && e == ParseError::Invalid,
        },
{
    let (_, next_id) = FourCC::parse(i)?;
    Ok(next_id.0 == GRUP)
}

impl<'a> Parse<'a> for CellDefinition {
    open spec fn spec_parse(input: Seq<u8>) -> Parsed<Self::V> {
        match <Record<ByteField> as Parse>::spec_parse(input) {
            Parsed::Value(n, cell) => match children_follow(input.skip(n as int)) {
                None => Parsed::Error(ParseError::Invalid),
                Some(Parsed::Value(_, true)) => match <CellChildren as Parse>::spec_parse(
                    input.skip(n as int),
                ) {
                    Parsed::Value(m, cc) => Parsed::Value(n + m, (cell, Some(cc))),
                    Parsed::Error(e) => Parsed::Error(e),
                    Parsed::Undefined => Parsed::Undefined,
                },
                Some(Parsed::Value(_, false)) => Parsed::Value(n, (cell, None)),
                Some(_) => Parsed::Undefined,
            },
            Parsed::Error(e) => Parsed::Error(e),
            Parsed::Undefined => Parsed::Undefined,
        }
    }

    fn parse(i: &'a [u8]) -> (r: Result<(&'a [u8], CellDefinition), ParseError>) {
        proof {
            <Record<ByteField> as ParseTotal>::lemma_parse_defined(i@);
        }
        let ghost input = i@;
        let (i, cell) = <Record<ByteField>>::parse(i)?;
        let ghost n = match <Record<ByteField> as Parse>::spec_parse(input) {
            Parsed::Value(n, _) => n,
            _ => 0,
        };
        if next_is_group(i)? {
            let (_, next_grup) = GroupHeader::parse(i)?;
            match next_grup.label {
                GroupLabel::CellChildren(_form_id) => {
                    let (i2, cell_children) = CellChildren::parse(i)?;
                    let ghost m = match <CellChildren as Parse>::spec_parse(i@) {
                        Parsed::Value(m, _) => m,
                        _ => 0,
                    };
                    assert(input.skip(n as int).skip(m as int) =~= input.skip((n + m) as int));
                    Ok((i2, CellDefinition { cell, cell_children: Some(cell_children) }))
                },
                _ => Ok((i, CellDefinition { cell, cell_children: None })),
            }
        } else {
            Ok((i, CellDefinition { cell, cell_children: None }))
        }
    }
}

/// A cell record, with the bytes from the end of the record on where a
/// children group follows it. Those bytes are not consumed.
#[derive(Debug)]
pub struct RawCellDefinition<'esm> {
    pub cell: Record<ByteField>,
    pub cell_children_data: Option<&'esm [u8]>,
}

impl<'esm> DeepView for RawCellDefinition<'esm> {
    type V = (<Record<ByteField> as DeepView>::V, Option<Seq<u8>>);

    open spec fn deep_view(&self) -> Self::V {
        (
            self.cell.deep_view(),
            match self.cell_children_data {
                Some(d) => Some(d@),
                None => None,
            },
        )
    }
}

impl<'esm> Parse<'esm> for RawCellDefinition<'esm> {
    open spec fn spec_parse(input: Seq<u8>) -> Parsed<Self::V> {
        match <Record<ByteField> as Parse>::spec_parse(input) {
            Parsed::Value(n, cell) => match children_follow(input.skip(n as int)) {
                None => Parsed::Error(ParseError::Invalid),
                Some(Parsed::Value(_, true)) => Parsed::Value(n, (cell, Some(input.skip(n as int)))),
                Some(Parsed::Value(_, false)) => Parsed::Value(n, (cell, None)),
                Some(_) => Parsed::Undefined,
            },
            Parsed::Error(e) => Parsed::Error(e),
            Parsed::Undefined => Parsed::Undefined,
        }
    }

    fn parse(i: &'esm [u8]) -> (r: Result<(&'esm [u8], RawCellDefinition<'esm>), ParseError>) {
        proof {
            <Record<ByteField> as ParseTotal>::lemma_parse_defined(i@);
        }
        let (i, cell) = <Record<ByteField>>::parse(i)?;
        if next_is_group(i)? {
            let (_, next_grup) = GroupHeader::parse(i)?;
            match next_grup.label {
                GroupLabel::CellChildren(_form_id) => {
                    Ok((i, RawCellDefinition { cell, cell_children_data: Some(i) }))
                },
                _ => Ok((i, RawCellDefinition { cell, cell_children_data: None })),
            }
        } else {
            Ok((i, RawCellDefinition { cell, cell_children_data: None }))
        }
    }
}

/// Reading a cell with its children and reading it with its children kept
/// raw agree on the cell record, and the raw reading keeps the bytes of a
/// children group exactly where the other reads one.
pub proof fn lemma_raw_cell_definition_agrees(input: Seq<u8>)
    requires
        <CellDefinition as Parse>::spec_parse(input).is_defined(),
    ensures
        match (<CellDefinition as Parse>::spec_parse(input), <RawCellDefinition as Parse>::spec_parse(input)) {
            (Parsed::Value(_, (cell, children)), Parsed::Value(_, (raw_cell, data))) => cell
                == raw_cell && (children is Some <==> data is Some),
            (Parsed::Error(e1), Parsed::Error(e2)) => e1 == e2,
            (Parsed::Error(_), Parsed::Value(_, (_, data))) => data is Some,
            _ => false,
        },
{
    <Record<ByteField> as ParseTotal>::lemma_parse_defined(input);
}

// -- CellChildren
// CellChildren is a group that holds one or two groups of child records, each
// CellTemporaryChildren or CellPersistentChildren; the first must be there.

/// Where a group of children goes: `Some(true)` for persistent children,
/// `Some(false)` for temporary ones, `None` for any other label.
pub open spec fn child_slot(label: GroupLabel) -> Option<bool> {
    match label {
        GroupLabel::CellPersistentChildren(_) => Some(true),
        GroupLabel::CellTemporaryChildren(_) => Some(false),
        _ => None,
    }
}

/// The model of a group of child records.
pub type ChildGroupView = (GroupHeader, Seq<Fallout4Subrecord>);

/// Reads one group of child records: its header and its records.
pub open spec fn spec_child_group(input: Seq<u8>) -> Parsed<ChildGroupView> {
    spec_group_items::<Fallout4Subrecord>(input)
}

/// The children of a cell: a group labelled `CellChildren` that holds one or
/// two groups of child records, each labelled persistent or temporary.
#[derive(Debug)]
pub struct CellChildren {
    pub form_id: FormId,
    pub temporary_children: Option<Group<Vec<Fallout4Subrecord>>>,
    pub persistant_children: Option<Group<Vec<Fallout4Subrecord>>>,
}

impl CellChildren {
    pub fn has_children(&self) -> (r: bool)
        ensures
            r == (self.temporary_children is Some || self.persistant_children is Some),
    {
        self.temporary_children.is_some() || self.persistant_children.is_some()
    }
}

impl DeepView for CellChildren {
    type V = (FormId, Option<ChildGroupView>, Option<ChildGroupView>);

    open spec fn deep_view(&self) -> Self::V {
        (self.form_id, self.temporary_children.deep_view(), self.persistant_children.deep_view())
    }
}

/// Files the group `g` in the slot its label names; a second group with the
/// same label replaces the first.
pub open spec fn file_child(
    slots: (Option<ChildGroupView>, Option<ChildGroupView>),
    persistent: bool,
    g: ChildGroupView,
) -> (Option<ChildGroupView>, Option<ChildGroupView>) {
    if persistent {
        (slots.0, Some(g))
    } else {
        (Some(g), slots.1)
    }
}

impl<'a> Parse<'a> for CellChildren {
    /// The outer group must be labelled `CellChildren` and each inner group
    /// persistent or temporary; other labels are outside the domain. The
    /// first inner group must be there; a second one is read where bytes
    /// follow the first, and what follows the second is ignored.
    open spec fn spec_parse(input: Seq<u8>) -> Parsed<Self::V> {
        match spec_alloc_group(input) {
            Parsed::Value(n, (h, data)) => match h.label {
                GroupLabel::CellChildren(form_id) => match spec_alloc_group(data) {
                    Parsed::Value(n1, _) => match spec_child_group(data) {
                        Parsed::Value(_, g1) => match child_slot(g1.0.label) {
                            Some(p1) => {
                                let slots = file_child((None, None), p1, g1);
                                let lo = data.skip(n1 as int);
                                if lo.len() > 0 {
                                    match spec_alloc_group(lo) {
                                        Parsed::Value(_, _) => match spec_child_group(lo) {
                                            Parsed::Value(_, g2) => match child_slot(g2.0.label) {
                                                Some(p2) => {
                                                    let slots2 = file_child(slots, p2, g2);
                                                    Parsed::Value(n, (form_id, slots2.0, slots2.1))
                                                },
                                                None => Parsed::Undefined,
                                            },
                                            Parsed::Error(e) => Parsed::Error(e),
                                            Parsed::Undefined => Parsed::Undefined,
                                        },
                                        Parsed::Error(e) => Parsed::Error(e),
                                        Parsed::Undefined => Parsed::Undefined,
                                    }
                                } else {
                                    Parsed::Value(n, (form_id, slots.0, slots.1))
                                }
                            },
                            None => Parsed::Undefined,
                        },
                        Parsed::Error(e) => Parsed::Error(e),
                        Parsed::Undefined => Parsed::Undefined,
                    },
                    Parsed::Error(e) => Parsed::Error(e),
                    Parsed::Undefined => Parsed::Undefined,
                },
                _ => Parsed::Undefined,
            },
            Parsed::Error(e) => Parsed::Error(e),
            Parsed::Undefined => Parsed::Undefined,
        }
    }

    fn parse(i: &'a [u8]) -> (r: Result<(&'a [u8], CellChildren), ParseError>) {
        let (i, cc) = RawGroup::parse(i)?;
        match cc.header.label {
            GroupLabel::CellChildren(form_id) => {
                proof {
                    crate::parse::lemma_many0_defined::<Fallout4Subrecord>(
                        match spec_alloc_group(cc.data@) {
                            Parsed::Value(_, (_, d)) => d,
                            _ => Seq::empty(),
                        },
                    );
                }
                let (lo, rg) = RawGroup::parse(cc.data)?;
                let (_, rs) = many0::<Fallout4Subrecord>(rg.data)?;
                let g1 = Group { header: rg.header, data: rs };
                let mut temporary_children = None;
                let mut persistant_children = None;
                match g1.header.label {
                    GroupLabel::CellPersistentChildren(_) => {
                        persistant_children = Some(g1);
                    },
                    GroupLabel::CellTemporaryChildren(_) => {
                        temporary_children = Some(g1);
                    },
                    _ => {
                        return Err(ParseError::Invalid);
                    },
                }
                if lo.len() > 0 {
                    proof {
                        crate::parse::lemma_many0_defined::<Fallout4Subrecord>(
                            match spec_alloc_group(lo@) {
                                Parsed::Value(_, (_, d)) => d,
                                _ => Seq::empty(),
                            },
                        );
                    }
                    let (_lo, rg) = RawGroup::parse(lo)?;
                    let (_, rs) = many0::<Fallout4Subrecord>(rg.data)?;
                    let g2 = Group { header: rg.header, data: rs };
                    match g2.header.label {
                        GroupLabel::CellPersistentChildren(_) => {
                            persistant_children = Some(g2);
                        },
                        GroupLabel::CellTemporaryChildren(_) => {
                            temporary_children = Some(g2);
                        },
                        _ => {
                            return Err(ParseError::Invalid);
                        },
                    }
                    return Ok((i, CellChildren { form_id, temporary_children, persistant_children }));
                }
                Ok((i, CellChildren { form_id, temporary_children, persistant_children }))
            },
            _ => Err(ParseError::Invalid),
        }
    }
}

/// The reference index of a combined mesh: two counts, then as many mesh ids
/// and reference ids.
#[derive(Debug)]
pub struct CombinedReferenceIndex {
    pub mesh_count: u32,
    pub reference_count: u32,
    pub meshes: Vec<u32>,
    pub references: Vec<u32>,
}

impl DeepView for CombinedReferenceIndex {
    type V = (u32, u32, Seq<u32>, Seq<u32>);

    open spec fn deep_view(&self) -> Self::V {
        (self.mesh_count, self.reference_count, self.meshes.deep_view(), self.references.deep_view())
    }
}

impl<'a> Parse<'a> for CombinedReferenceIndex {
    open spec fn spec_parse(input: Seq<u8>) -> Parsed<Self::V> {
        if input.len() < 8 {
            Parsed::Error(ParseError::Invalid)
        } else {
            let mesh_count = u32_le(input);
            let reference_count = u32_le(input.skip(4));
            match spec_count::<u32>(input.skip(8), mesh_count as nat) {
                Parsed::Value(n, meshes) => match spec_count::<u32>(
                    input.skip((8 + n) as int),
                    reference_count as nat,
                ) {
                    Parsed::Value(m, references) => Parsed::Value(
                        8 + n + m,
                        (mesh_count, reference_count, meshes, references),
                    ),
                    Parsed::Error(e) => Parsed::Error(e),
                    Parsed::Undefined => Parsed::Undefined,
                },
                Parsed::Error(e) => Parsed::Error(e),
                Parsed::Undefined => Parsed::Undefined,
            }
        }
    }

    fn parse(i: &'a [u8]) -> (r: Result<(&'a [u8], CombinedReferenceIndex), ParseError>) {
        let ghost input = i@;
        let (i1, mesh_count) = le_u32(i)?;
        let (i2, reference_count) = le_u32(i1)?;
        assert(input.skip(4).skip(4) =~= input.skip(8));
        proof {
            crate::parse::lemma_count_defined::<u32>(i2@, mesh_count as nat);
        }
        let (i3, meshes) = count::<u32>(i2, mesh_count as usize)?;
        let ghost n = match spec_count::<u32>(i2@, mesh_count as nat) {
            Parsed::Value(n, _) => n,
            _ => 0,
        };
        assert(input.skip(8).skip(n as int) =~= input.skip((8 + n) as int));
        proof {
            crate::parse::lemma_count_defined::<u32>(i3@, reference_count as nat);
        }
        let (i4, references) = count::<u32>(i3, reference_count as usize)?;
        let ghost m = match spec_count::<u32>(i3@, reference_count as nat) {
            Parsed::Value(m, _) => m,
            _ => 0,
        };
        assert(input.skip((8 + n) as int).skip(m as int) =~= input.skip((8 + n + m) as int));
        Ok((i4, CombinedReferenceIndex { mesh_count, reference_count, meshes, references }))
    }
}

/// A combined reference: a local id and a reference id.
#[derive(Debug, Clone, Copy, PartialEq, Eq, Structural)]
pub struct CombinedReference {
    pub local_id: u32,
    pub ref_id: u32,
}

impl DeepView for CombinedReference {
    type V = CombinedReference;

    open spec fn deep_view(&self) -> CombinedReference {
        *self
    }
}

impl<'a> Parse<'a> for CombinedReference {
    open spec fn spec_parse(input: Seq<u8>) -> Parsed<CombinedReference> {
        crate::parse::fixed(
            input,
            8,
            CombinedReference { local_id: u32_le(input), ref_id: u32_le(input.skip(4)) },
        )
    }

    fn parse(i: &'a [u8]) -> (r: Result<(&'a [u8], CombinedReference), ParseError>) {
        let (i1, local_id) = le_u32(i)?;
        let (i2, ref_id) = le_u32(i1)?;
        assert(i@.skip(4).skip(4) =~= i@.skip(8));
        Ok((i2, CombinedReference { local_id, ref_id }))
    }
}

/// A cell's place in the grid, with flags.
#[derive(Debug, Clone, Copy, PartialEq, Eq, Structural)]
pub struct GridLocation {
    pub x: u32,
    pub y: u32,
    pub flags: u32,
}

impl DeepView for GridLocation {
    type V = GridLocation;

    open spec fn deep_view(&self) -> GridLocation {
        *self
    }
}

impl<'a> Parse<'a> for GridLocation {
    open spec fn spec_parse(input: Seq<u8>) -> Parsed<GridLocation> {
        crate::parse::fixed(
            input,
            12,
            GridLocation { x: u32_le(input), y: u32_le(input.skip(4)), flags: u32_le(input.skip(8)) },
        )
    }

    fn parse(i: &'a [u8]) -> (r: Result<(&'a [u8], GridLocation), ParseError>) {
        let (i1, x) = le_u32(i)?;
        let (i2, y) = le_u32(i1)?;
        let (i3, flags) = le_u32(i2)?;
        assert(i@.skip(4).skip(4) =~= i@.skip(8));
        assert(i@.skip(8).skip(4) =~= i@.skip(12));
        Ok((i3, GridLocation { x, y, flags }))
    }
}

/// The children group of a cell, its contents kept raw.
#[derive(Debug)]
pub struct RawCellChildren<'esm> {
    pub header: GroupHeader,
    pub data: &'esm [u8],
}

impl<'esm> DeepView for RawCellChildren<'esm> {
    type V = (GroupHeader, Seq<u8>);

    open spec fn deep_view(&self) -> Self::V {
        (self.header, self.data@)
    }
}

impl<'esm> Parse<'esm> for RawCellChildren<'esm> {
    open spec fn spec_parse(input: Seq<u8>) -> Parsed<Self::V> {
        spec_alloc_group(input)
    }

    fn parse(i: &'esm [u8]) -> (r: Result<(&'esm [u8], RawCellChildren<'esm>), ParseError>) {
        let (i, (header, data)) = alloc_group(i)?;
        Ok((i, RawCellChildren { header, data }))
    }
}

/// A child record of a cell; its contents are not read.
#[derive(Debug, Clone, Copy, PartialEq, Eq, Structural)]
pub enum Fallout4Subrecord {
    Unhandled,
}

impl DeepView for Fallout4Subrecord {
    type V = Fallout4Subrecord;

    open spec fn deep_view(&self) -> Fallout4Subrecord {
        *self
    }
}

impl<'a> Parse<'a> for Fallout4Subrecord {
    /// Consumes one record, header and body.
    open spec fn spec_parse(input: Seq<u8>) -> Parsed<Fallout4Subrecord> {
        match spec_alloc_record(input) {
            Parsed::Value(n, _) => Parsed::Value(n, Fallout4Subrecord::Unhandled),
            _ => Parsed::Error(ParseError::Invalid),
        }
    }

    fn parse(i: &'a [u8]) -> (r: Result<(&'a [u8], Fallout4Subrecord), ParseError>) {
        let (i, (_header, _raw)) = alloc_record(i)?;
        Ok((i, Fallout4Subrecord::Unhandled))
    }
}

impl<'a> ParseTotal<'a> for Fallout4Subrecord {
    proof fn lemma_parse_defined(input: Seq<u8>) {
    }
}

} // verus!

verus! {

/// A group read as `RawInteriorCellBlock<'esm>` at the start of the `j`-th of `items` reads as
/// that group alone.
proof fn lemma_rawinteriorcellblock_at_start<'esm>(items: Seq<Seq<u8>>, j: int)
    requires
        0 <= j < items.len(),
        reads_exactly::<RawInteriorCellBlock<'esm>>(items[j], items[j].len()),
    ensures
        <RawInteriorCellBlock<'esm> as Parse>::spec_parse(concat_groups(items.skip(j)))
            == <RawInteriorCellBlock<'esm> as Parse>::spec_parse(items[j]),
{
    lemma_group_at_start(items, j);
}

/// A group read as `InteriorCellBlock` at the start of the `j`-th of `items` reads as
/// that group alone.
proof fn lemma_interiorcellblock_at_start(items: Seq<Seq<u8>>, j: int)
    requires
        0 <= j < items.len(),
        reads_exactly::<InteriorCellBlock>(items[j], items[j].len()),
    ensures
        <InteriorCellBlock as Parse>::spec_parse(concat_groups(items.skip(j)))
            == <InteriorCellBlock as Parse>::spec_parse(items[j]),
{
    lemma_group_at_start(items, j);
}

/// A group read as `RawInteriorCellSubBlock<'esm>` at the start of the `j`-th of `items` reads as
/// that group alone.
proof fn lemma_rawinteriorcellsubblock_at_start<'esm>(items: Seq<Seq<u8>>, j: int)
    requires
        0 <= j < items.len(),
        reads_exactly::<RawInteriorCellSubBlock<'esm>>(items[j], items[j].len()),
    ensures
        <RawInteriorCellSubBlock<'esm> as Parse>::spec_parse(concat_groups(items.skip(j)))
            == <RawInteriorCellSubBlock<'esm> as Parse>::spec_parse(items[j]),
{
    lemma_group_at_start(items, j);
}

/// A group read as `InteriorCellSubBlock` at the start of the `j`-th of `items` reads as
/// that group alone.
proof fn lemma_interiorcellsubblock_at_start(items: Seq<Seq<u8>>, j: int)
    requires
        0 <= j < items.len(),
        reads_exactly::<InteriorCellSubBlock>(items[j], items[j].len()),
    ensures
        <InteriorCellSubBlock as Parse>::spec_parse(concat_groups(items.skip(j)))
            == <InteriorCellSubBlock as Parse>::spec_parse(items[j]),
{
    lemma_group_at_start(items, j);
}

/// The raw interior cell top group holds every block group of its contents, in order: where the contents are `items` laid one after the other, each a
/// whole block group, the result has one block per group, the `j`-th being
/// the reading of `items[j]`.
pub proof fn lemma_raw_cell_top_group_holds_every_block<'esm>(input: Seq<u8>, n: nat, h: GroupHeader, items: Seq<Seq<u8>>)
    requires
        spec_alloc_group(input) == Parsed::Value(n, (h, concat_groups(items))),
        forall|j: int|
            0 <= j < items.len() ==> #[trigger] reads_exactly::<RawInteriorCellBlock<'esm>>(items[j], items[j].len()),
    ensures
        <RawCellTopGroup<'esm> as Parse>::spec_parse(input) == Parsed::Value(
            n,
            (h, Seq::new(items.len(), |j: int| (<RawInteriorCellBlock<'esm> as Parse>::spec_parse(items[j]))->Value_1)),
        ),
{
    assert forall|j: int| 0 <= j < items.len() implies #[trigger] <RawInteriorCellBlock<'esm> as Parse>::spec_parse(
        concat_groups(items.skip(j)),
    ) == <RawInteriorCellBlock<'esm> as Parse>::spec_parse(items[j]) by {
        lemma_rawinteriorcellblock_at_start(items, j);
    }
    lemma_many0_of_whole_items::<RawInteriorCellBlock<'esm>>(items);
}

/// The interior cell top group holds every block group of its contents, in order: where the contents are `items` laid one after the other, each a
/// whole block group, the result has one block per group, the `j`-th being
/// the reading of `items[j]`.
pub proof fn lemma_cell_top_group_holds_every_block(input: Seq<u8>, n: nat, h: GroupHeader, items: Seq<Seq<u8>>)
    requires
        spec_alloc_group(input) == Parsed::Value(n, (h, concat_groups(items))),
        forall|j: int|
            0 <= j < items.len() ==> #[trigger] reads_exactly::<InteriorCellBlock>(items[j], items[j].len()),
    ensures
        <CellTopGroup as Parse>::spec_parse(input) == Parsed::Value(
            n,
            (h, Seq::new(items.len(), |j: int| (<InteriorCellBlock as Parse>::spec_parse(items[j]))->Value_1)),
        ),
{
    assert forall|j: int| 0 <= j < items.len() implies #[trigger] <InteriorCellBlock as Parse>::spec_parse(
        concat_groups(items.skip(j)),
    ) == <InteriorCellBlock as Parse>::spec_parse(items[j]) by {
        lemma_interiorcellblock_at_start(items, j);
    }
    lemma_many0_of_whole_items::<InteriorCellBlock>(items);
}

/// A raw interior cell block holds every sub-block group of its contents, in order: where the contents are `items` laid one after the other, each a
/// whole sub-block group, the result has one sub-block per group, the `j`-th being
/// the reading of `items[j]`.
pub proof fn lemma_raw_interior_cell_block_holds_every_sub_block<'esm>(input: Seq<u8>, n: nat, h: GroupHeader, items: Seq<Seq<u8>>)
    requires
        spec_alloc_group(input) == Parsed::Value(n, (h, concat_groups(items))),
        forall|j: int|
            0 <= j < items.len() ==> #[trigger] reads_exactly::<RawInteriorCellSubBlock<'esm>>(items[j], items[j].len()),
    ensures
        <RawInteriorCellBlock<'esm> as Parse>::spec_parse(input) == Parsed::Value(
            n,
            (h, Seq::new(items.len(), |j: int| (<RawInteriorCellSubBlock<'esm> as Parse>::spec_parse(items[j]))->Value_1)),
        ),
{
    assert forall|j: int| 0 <= j < items.len() implies #[trigger] <RawInteriorCellSubBlock<'esm> as Parse>::spec_parse(
        concat_groups(items.skip(j)),
    ) == <RawInteriorCellSubBlock<'esm> as Parse>::spec_parse(items[j]) by {
        lemma_rawinteriorcellsubblock_at_start(items, j);
    }
    lemma_many0_of_whole_items::<RawInteriorCellSubBlock<'esm>>(items);
}

/// An interior cell block holds every sub-block group of its contents, in order: where the contents are `items` laid one after the other, each a
/// whole sub-block group, the result has one sub-block per group, the `j`-th being
/// the reading of `items[j]`.
pub proof fn lemma_interior_cell_block_holds_every_sub_block(input: Seq<u8>, n: nat, h: GroupHeader, items: Seq<Seq<u8>>)
    requires
        spec_alloc_group(input) == Parsed::Value(n, (h, concat_groups(items))),
        forall|j: int|
            0 <= j < items.len() ==> #[trigger] reads_exactly::<InteriorCellSubBlock>(items[j], items[j].len()),
    ensures
        <InteriorCellBlock as Parse>::spec_parse(input) == Parsed::Value(
            n,
            Seq::new(items.len(), |j: int| (<InteriorCellSubBlock as Parse>::spec_parse(items[j]))->Value_1),
        ),
{
    assert forall|j: int| 0 <= j < items.len() implies #[trigger] <InteriorCellSubBlock as Parse>::spec_parse(
        concat_groups(items.skip(j)),
    ) == <InteriorCellSubBlock as Parse>::spec_parse(items[j]) by {
        lemma_interiorcellsubblock_at_start(items, j);
    }
    lemma_many0_of_whole_items::<InteriorCellSubBlock>(items);
}

/// An interior cell sub-block holds every cell of its contents, in order:
/// where the contents are `cells` laid one after the other and a cell read at
/// the start of each reads exactly it, the sub-block has one cell per item,
/// the `j`-th being the cell read at the start of `cells[j]`.
pub proof fn lemma_interior_cell_sub_block_holds_every_cell(
    input: Seq<u8>,
    n: nat,
    h: GroupHeader,
    cells: Seq<Seq<u8>>,
)
    requires
        spec_alloc_group(input) == Parsed::Value(n, (h, concat_groups(cells))),
        forall|j: int|
            0 <= j < cells.len() ==> #[trigger] reads_exactly::<CellDefinition>(
                concat_groups(cells.skip(j)),
                cells[j].len(),
            ),
    ensures
        <InteriorCellSubBlock as Parse>::spec_parse(input) == Parsed::Value(
            n,
            (h, Seq::new(cells.len(), |j: int| item_reading::<CellDefinition>(cells, j))),
        ),
{
    lemma_many0_of_items::<CellDefinition>(cells);
}

/// The children of a cell keep each group of child records in the slot its
/// label names: the temporary slot only ever holds a group labelled
/// temporary, the persistent slot only one labelled persistent, and at least
/// one of them is filled.
pub proof fn lemma_cell_children_slots(input: Seq<u8>)
    ensures
        <CellChildren as Parse>::spec_parse(input) is Value ==> ({
            let (_, t, p) = (<CellChildren as Parse>::spec_parse(input))->Value_1;
            &&& t is Some ==> t.unwrap().0.label is CellTemporaryChildren
            &&& p is Some ==> p.unwrap().0.label is CellPersistentChildren
            &&& t is Some || p is Some
        }),
{
}

/// A children group whose contents are one whole group of child records `g1`,
/// or two, `g1` then `g2`, holds each in the slot its label names, with the
/// group's reading; where both have the same label the second is kept; a slot
/// that no group names is empty.
pub proof fn lemma_cell_children_hold_their_groups(
    input: Seq<u8>,
    n: nat,
    h: GroupHeader,
    form_id: FormId,
    g1: Seq<u8>,
    g2: Seq<u8>,
)
    requires
        spec_alloc_group(input) == Parsed::Value(n, (h, g1 + g2)),
        h.label == GroupLabel::CellChildren(form_id),
        spec_alloc_group(g1) matches Parsed::Value(m, _) && m == g1.len(),
        spec_child_group(g1) is Value,
        (spec_child_group(g1)->Value_1).0.label is CellPersistentChildren
            || (spec_child_group(g1)->Value_1).0.label is CellTemporaryChildren,
        g2.len() > 0 ==> spec_child_group(g2) is Value && ((spec_child_group(g2)->Value_1).0.label is CellPersistentChildren
            || (spec_child_group(g2)->Value_1).0.label is CellTemporaryChildren),
    ensures
        ({
            let c1 = spec_child_group(g1)->Value_1;
            let c2 = spec_child_group(g2)->Value_1;
            let per1 = c1.0.label is CellPersistentChildren;
            let per2 = c2.0.label is CellPersistentChildren;
            <CellChildren as Parse>::spec_parse(input) == Parsed::Value(
                n,
                (
                    form_id,
                    if g2.len() > 0 && !per2 {
                        Some(c2)
                    } else if !per1 {
                        Some(c1)
                    } else {
                        None
                    },
                    if g2.len() > 0 && per2 {
                        Some(c2)
                    } else if per1 {
                        Some(c1)
                    } else {
                        None
                    },
                ),
            )
        }),
{
    lemma_alloc_group_prefix(g1, g2);
    assert((g1 + g2).skip(g1.len() as int) =~= g2);
    assert(spec_child_group(g1 + g2) == spec_child_group(g1));
}

/// The cell values as they stand in the bytes, all little-endian: a combined
/// reference is the local id (bytes 0..4) and the reference id (4..8); a grid
/// location is `x` (0..4), `y` (4..8) and flags (8..12); a combined reference
/// index is the mesh count (0..4), the reference count (4..8), that many mesh
/// ids and then that many reference ids, four bytes each. Inputs too short
/// for them are rejected.
pub proof fn lemma_cell_values_from_bytes(input: Seq<u8>)
    ensures
        input.len() < 8 ==> <CombinedReference as Parse>::spec_parse(input) is Error,
        input.len() >= 8 ==> (<CombinedReference as Parse>::spec_parse(input) matches Parsed::Value(
            n,
            c,
        ) && n == 8 && c.local_id == crate::parse::le32_at(input, 0) && c.ref_id
            == crate::parse::le32_at(input, 4)),
        input.len() < 12 ==> <GridLocation as Parse>::spec_parse(input) is Error,
        input.len() >= 12 ==> (<GridLocation as Parse>::spec_parse(input) matches Parsed::Value(n, g)
            && n == 12 && g.x == crate::parse::le32_at(input, 0) && g.y == crate::parse::le32_at(
            input,
            4,
        ) && g.flags == crate::parse::le32_at(input, 8)),
        input.len() >= 8 ==> ({
            let mc = crate::parse::le32_at(input, 0);
            let rc = crate::parse::le32_at(input, 4);
            &&& input.len() >= 8 + 4 * mc + 4 * rc ==> (<CombinedReferenceIndex as Parse>::spec_parse(
                input,
            ) matches Parsed::Value(n, (m, r, meshes, refs)) && n == 8 + 4 * mc + 4 * rc && m == mc
                && r == rc && meshes.len() == mc && refs.len() == rc && (forall|j: int|
                0 <= j < mc ==> meshes[j] == #[trigger] crate::parse::le32_at(input, 8 + 4 * j)) && (
            forall|j: int|
                0 <= j < rc ==> refs[j] == #[trigger] crate::parse::le32_at(
                    input,
                    8 + 4 * mc + 4 * j,
                )))
            &&& input.len() < 8 + 4 * mc + 4 * rc ==> <CombinedReferenceIndex as Parse>::spec_parse(
                input,
            ) is Error
        }),
        input.len() < 8 ==> <CombinedReferenceIndex as Parse>::spec_parse(input) is Error,
{
    if input.len() >= 8 {
        let s4 = input.skip(4);
        let s8 = input.skip(8);
        assert(s4[0] == input[4] && s4[1] == input[5] && s4[2] == input[6] && s4[3] == input[7]);
        if input.len() >= 12 {
            assert(s8[0] == input[8] && s8[1] == input[9] && s8[2] == input[10] && s8[3] == input[11]);
        }
        let mc = crate::parse::le32_at(input, 0);
        let rc = crate::parse::le32_at(input, 4);
        assert(u32_le(input) == mc);
        assert(u32_le(input.skip(4)) == rc);
        crate::parse::lemma_count_u32_from_bytes(input.skip(8), mc as nat);
        if input.len() >= 8 + 4 * mc {
            let s2 = input.skip(8 + 4 * mc);
            assert(input.skip(8).skip(4 * mc) =~= s2);
            crate::parse::lemma_count_u32_from_bytes(s2, rc as nat);
            if input.len() >= 8 + 4 * mc + 4 * rc {
                let meshes = (spec_count::<u32>(input.skip(8), mc as nat))->Value_1;
                let refs = (spec_count::<u32>(s2, rc as nat))->Value_1;
                assert forall|j: int| 0 <= j < mc implies meshes[j] == #[trigger] crate::parse::le32_at(
                    input,
                    8 + 4 * j,
                ) by {
                    assert(crate::parse::le32_at(input.skip(8), 4 * j) == crate::parse::le32_at(
                        input,
                        8 + 4 * j,
                    ));
                }
                assert forall|j: int| 0 <= j < rc implies refs[j] == #[trigger] crate::parse::le32_at(
                    input,
                    8 + 4 * mc + 4 * j,
                ) by {
                    assert(crate::parse::le32_at(s2, 4 * j) == crate::parse::le32_at(
                        input,
                        8 + 4 * mc + 4 * j,
                    ));
                }
            }
        }
    }
}

/// The cell record at the start of `rec + rest` is the whole record `rec`.
proof fn lemma_cell_record_then(rec: Seq<u8>, rest: Seq<u8>)
    requires
        <Record<ByteField> as Parse>::spec_parse(rec) matches Parsed::Value(n, _) && n == rec.len(),
    ensures
        <Record<ByteField> as Parse>::spec_parse(rec + rest) == <Record<ByteField> as Parse>::spec_parse(
            rec,
        ),
        (rec + rest).skip(rec.len() as int) == rest,
{
    super::record::lemma_record_prefix::<ByteField>(rec, rest);
    assert((rec + rest).skip(rec.len() as int) =~= rest);
}

/// A cell takes the children group that directly follows its record, and only
/// that: where the bytes after a whole cell record `rec` open a group (tag
/// `GRUP`) labelled `CellChildren`, the cell holds that group's reading and
/// consumes it too; where they open anything else, the cell has no children
/// and consumes its record alone; where fewer than four bytes follow, the
/// cell is rejected.
pub proof fn lemma_cell_definition_children(rec: Seq<u8>, rest: Seq<u8>)
    requires
        <Record<ByteField> as Parse>::spec_parse(rec) matches Parsed::Value(n, _) && n == rec.len(),
    ensures
        ({
            let cell = (<Record<ByteField> as Parse>::spec_parse(rec))->Value_1;
            let grup = rest.len() >= 4 && rest[0] == 0x47 && rest[1] == 0x52 && rest[2] == 0x55
                && rest[3] == 0x50;
            &&& rest.len() < 4 ==> <CellDefinition as Parse>::spec_parse(rec + rest) is Error
            &&& rest.len() >= 4 && !grup ==> <CellDefinition as Parse>::spec_parse(rec + rest)
                == Parsed::Value(rec.len(), (cell, None::<<CellChildren as DeepView>::V>))
            &&& grup && (spec_group_header(rest) matches Parsed::Value(_, gh) && !(gh.label is CellChildren))
                ==> <CellDefinition as Parse>::spec_parse(rec + rest) == Parsed::Value(
                rec.len(),
                (cell, None::<<CellChildren as DeepView>::V>),
            )
            &&& (spec_group_header(rest) matches Parsed::Value(_, gh) && gh.label is CellChildren)
                && <CellChildren as Parse>::spec_parse(rest) is Value
                ==> <CellDefinition as Parse>::spec_parse(rec + rest) == Parsed::Value(
                rec.len() + (<CellChildren as Parse>::spec_parse(rest))->Value_0,
                (cell, Some((<CellChildren as Parse>::spec_parse(rest))->Value_1)),
            )
        }),
{
    lemma_cell_record_then(rec, rest);
    if rest.len() >= 4 {
        assert(rest.skip(0) =~= rest);
        let grup = rest[0] == 0x47 && rest[1] == 0x52 && rest[2] == 0x55 && rest[3] == 0x50;
        assert(grup <==> u32_le(rest) == GRUP);
    }
}

} // verus!
