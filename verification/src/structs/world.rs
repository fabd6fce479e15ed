//! Worldspaces: the worldspace top group, each world's record and children
//! group, and the exterior cell blocks and sub-blocks inside it.
use vstd::prelude::*;

use crate::esm::concat_groups;
use crate::parse::{
    count, item_reading, le_u32, le_u8, lemma_many0_of_items, lemma_many0_of_whole_items, many0, reads_exactly, spec_count, spec_many0,
    u32_le, Parse, ParseError, ParseTotal, Parsed,
};
use super::cell::{CellDefinition, RawCellDefinition};
use super::field::ByteField;
use super::group::{alloc_group, lemma_group_at_start, spec_alloc_group, GroupHeader, GroupLabel};
use super::record::Record;
use super::shared::{CellLoc, FormId, Vec2};

verus! {

// -- RawWorldGroup

/// The worldspace top group, each world's exterior cells kept raw.
#[derive(Debug)]
pub struct RawWorldGroup<'esm> {
    pub worlds: Vec<RawWorldDefinition<'esm>>,
}

impl<'esm> DeepView for RawWorldGroup<'esm> {
    type V = Seq<<RawWorldDefinition<'esm> as DeepView>::V>;

    open spec fn deep_view(&self) -> Self::V {
        self.worlds.deep_view()
    }
}

impl<'esm> Parse<'esm> for RawWorldGroup<'esm> {
    /// The worlds are as many as follow one another in the group; the group
    /// header is not kept.
    open spec fn spec_parse(input: Seq<u8>) -> Parsed<Self::V> {
        match spec_alloc_group(input) {
            Parsed::Value(n, (_, data)) => match spec_many0::<RawWorldDefinition>(data) {
                Parsed::Value(_, worlds) => Parsed::Value(n, worlds),
                Parsed::Error(e) => Parsed::Error(e),
                Parsed::Undefined => Parsed::Undefined,
            },
            Parsed::Error(e) => Parsed::Error(e),
            Parsed::Undefined => Parsed::Undefined,
        }
    }

    fn parse(i: &'esm [u8]) -> (r: Result<(&'esm [u8], RawWorldGroup<'esm>), ParseError>) {
        let (i, (_header, data)) = alloc_group(i)?;
        let (_, worlds) = many0::<RawWorldDefinition>(data)?;
        Ok((i, RawWorldGroup { worlds }))
    }
}

// -- WorldGroup

/// The worldspace top group.
#[derive(Debug)]
pub struct WorldTopGroup {
    pub worlds: Vec<WorldDefinition>,
}

impl DeepView for WorldTopGroup {
    type V = Seq<<WorldDefinition as DeepView>::V>;

    open spec fn deep_view(&self) -> Self::V {
        self.worlds.deep_view()
    }
}

impl<'a> Parse<'a> for WorldTopGroup {
    /// The worlds are as many as follow one another in the group; the group
    /// header is not kept.
    open spec fn spec_parse(input: Seq<u8>) -> Parsed<Self::V> {
        match spec_alloc_group(input) {
            Parsed::Value(n, (_, data)) => match spec_many0::<WorldDefinition>(data) {
                Parsed::Value(_, worlds) => Parsed::Value(n, worlds),
                Parsed::Error(e) => Parsed::Error(e),
                Parsed::Undefined => Parsed::Undefined,
            },
            Parsed::Error(e) => Parsed::Error(e),
            Parsed::Undefined => Parsed::Undefined,
        }
    }

    fn parse(i: &'a [u8]) -> (r: Result<(&'a [u8], WorldTopGroup), ParseError>) {
        let (i, (_header, raw)) = alloc_group(i)?;
        let (_, worlds) = <Vec<WorldDefinition>>::parse(raw)?;
        Ok((i, WorldTopGroup { worlds }))
    }
}

// -- RawWorldDefinition

/// A world's record and its children group, the exterior cells kept raw.
#[derive(Debug)]
pub struct RawWorldDefinition<'esm> {
    pub world: Record<ByteField>,
    pub children: RawWorldChildren<'esm>,
}

impl<'esm> DeepView for RawWorldDefinition<'esm> {
    type V = (<Record<ByteField> as DeepView>::V, <RawWorldChildren<'esm> as DeepView>::V);

    open spec fn deep_view(&self) -> Self::V {
        (self.world.deep_view(), self.children.deep_view())
    }
}

impl<'esm> Parse<'esm> for RawWorldDefinition<'esm> {
    /// The world record, then its children group.
    open spec fn spec_parse(input: Seq<u8>) -> Parsed<Self::V> {
        match <Record<ByteField> as Parse>::spec_parse(input) {
            Parsed::Value(n, world) => match <RawWorldChildren as Parse>::spec_parse(
                input.skip(n as int),
            ) {
                Parsed::Value(m, children) => Parsed::Value(n + m, (world, children)),
                Parsed::Error(e) => Parsed::Error(e),
                Parsed::Undefined => Parsed::Undefined,
            },
            Parsed::Error(e) => Parsed::Error(e),
            Parsed::Undefined => Parsed::Undefined,
        }
    }

    #[verifier::rlimit(30)]
    fn parse(i: &'esm [u8]) -> (r: Result<(&'esm [u8], RawWorldDefinition<'esm>), ParseError>) {
        proof {
            <Record<ByteField> as ParseTotal>::lemma_parse_defined(i@);
        }
        let ghost input = i@;
        let (i1, world) = <Record<ByteField>>::parse(i)?;
        let ghost n = match <Record<ByteField> as Parse>::spec_parse(input) {
            Parsed::Value(n, _) => n,
            _ => 0,
        };
        assert(<Record<ByteField> as Parse>::spec_parse(input) == Parsed::Value(n, world.deep_view()));
        assert(i1@ == input.skip(n as int));
        let (i2, children) = RawWorldChildren::parse(i1)?;
        let ghost m = match <RawWorldChildren as Parse>::spec_parse(i1@) {
            Parsed::Value(m, _) => m,
            _ => 0,
        };
        assert(input.skip(n as int).skip(m as int) =~= input.skip((n + m) as int));
        Ok((i2, RawWorldDefinition { world, children }))
    }
}

// -- WorldDefinition

/// A world's record and its children group.
#[derive(Debug)]
pub struct WorldDefinition {
    pub world: Record<ByteField>,
    pub world_children: WorldChildren,
}

impl DeepView for WorldDefinition {
    type V = (<Record<ByteField> as DeepView>::V, <WorldChildren as DeepView>::V);

    open spec fn deep_view(&self) -> Self::V {
        (self.world.deep_view(), self.world_children.deep_view())
    }
}

impl<'a> Parse<'a> for WorldDefinition {
    /// The world record, then its children group.
    open spec fn spec_parse(input: Seq<u8>) -> Parsed<Self::V> {
        match <Record<ByteField> as Parse>::spec_parse(input) {
            Parsed::Value(n, world) => match <WorldChildren as Parse>::spec_parse(
                input.skip(n as int),
            ) {
                Parsed::Value(m, children) => Parsed::Value(n + m, (world, children)),
                Parsed::Error(e) => Parsed::Error(e),
                Parsed::Undefined => Parsed::Undefined,
            },
            Parsed::Error(e) => Parsed::Error(e),
            Parsed::Undefined => Parsed::Undefined,
        }
    }

    #[verifier::rlimit(30)]
    fn parse(i: &'a [u8]) -> (r: Result<(&'a [u8], WorldDefinition), ParseError>) {
        proof {
            <Record<ByteField> as ParseTotal>::lemma_parse_defined(i@);
        }
        let ghost input = i@;
        let (i1, world) = <Record<ByteField>>::parse(i)?;
        let ghost n = match <Record<ByteField> as Parse>::spec_parse(input) {
            Parsed::Value(n, _) => n,
            _ => 0,
        };
        assert(<Record<ByteField> as Parse>::spec_parse(input) == Parsed::Value(n, world.deep_view()));
        assert(i1@ == input.skip(n as int));
        let (i2, world_children) = WorldChildren::parse(i1)?;
        let ghost m = match <WorldChildren as Parse>::spec_parse(i1@) {
            Parsed::Value(m, _) => m,
            _ => 0,
        };
        assert(input.skip(n as int).skip(m as int) =~= input.skip((n + m) as int));
        Ok((i2, WorldDefinition { world, world_children }))
    }
}

// -- RawWorldChildren

/// The children group of a world, its exterior cell blocks kept raw.
#[derive(Debug)]
pub struct RawWorldChildren<'esm> {
    pub parent: FormId,
    pub cell: CellDefinition,
    pub exterior_cell_blocks: Vec<RawExteriorCellBlock<'esm>>,
}

impl<'esm> DeepView for RawWorldChildren<'esm> {
    type V = (FormId, <CellDefinition as DeepView>::V, Seq<<RawExteriorCellBlock<'esm> as DeepView>::V>);

    open spec fn deep_view(&self) -> Self::V {
        (self.parent, self.cell.deep_view(), self.exterior_cell_blocks.deep_view())
    }
}

impl<'esm> Parse<'esm> for RawWorldChildren<'esm> {
    /// A group labelled `WorldChildren` (any other label is outside the
    /// domain) that holds the world's cell, then its exterior cell blocks.
    open spec fn spec_parse(input: Seq<u8>) -> Parsed<Self::V> {
        match spec_alloc_group(input) {
            Parsed::Value(n, (h, data)) => match h.label {
                GroupLabel::WorldChildren(parent) => match <CellDefinition as Parse>::spec_parse(data) {
                    Parsed::Value(k, cell) => match spec_many0::<RawExteriorCellBlock>(
                        data.skip(k as int),
                    ) {
                        Parsed::Value(_, blocks) => Parsed::Value(n, (parent, cell, blocks)),
                        Parsed::Error(e) => Parsed::Error(e),
                        Parsed::Undefined => Parsed::Undefined,
                    },
                    Parsed::Error(e) => Parsed::Error(e),
                    Parsed::Undefined => Parsed::Undefined,
                },
                _ => Parsed::Undefined,
            },
            Parsed::Error(e) => Parsed::Error(e),
            Parsed::Undefined => Parsed::Undefined,
        }
    }

    fn parse(i: &'esm [u8]) -> (r: Result<(&'esm [u8], RawWorldChildren<'esm>), ParseError>) {
        let (i, (header, data)) = alloc_group(i)?;
        match header.label {
            GroupLabel::WorldChildren(form_id) => {
                let (leftover, cell) = CellDefinition::parse(data)?;
                let (_leftover, children) = many0::<RawExteriorCellBlock>(leftover)?;
                Ok((i, RawWorldChildren { parent: form_id, cell, exterior_cell_blocks: children }))
            },
            _ => Err(ParseError::Invalid),
        }
    }
}

// -- WorldChildren

/// The children group of a world.
#[derive(Debug)]
pub struct WorldChildren {
    /// Reference to the World record that this group belongs to.
    pub parent: FormId,
    /// The cell definition for this world.
    pub cell: CellDefinition,
    /// The exterior cell blocks for this world.
    pub exterior_cell_blocks: Vec<ExteriorCellBlock>,
}

impl DeepView for WorldChildren {
    type V = (FormId, <CellDefinition as DeepView>::V, Seq<<ExteriorCellBlock as DeepView>::V>);

    open spec fn deep_view(&self) -> Self::V {
        (self.parent, self.cell.deep_view(), self.exterior_cell_blocks.deep_view())
    }
}

impl<'a> Parse<'a> for WorldChildren {
    /// A group labelled `WorldChildren` (any other label is outside the
    /// domain) that holds the world's cell, then its exterior cell blocks.
    open spec fn spec_parse(input: Seq<u8>) -> Parsed<Self::V> {
        match spec_alloc_group(input) {
            Parsed::Value(n, (h, data)) => match h.label {
                GroupLabel::WorldChildren(parent) => match <CellDefinition as Parse>::spec_parse(data) {
                    Parsed::Value(k, cell) => match spec_many0::<ExteriorCellBlock>(
                        data.skip(k as int),
                    ) {
                        Parsed::Value(_, blocks) => Parsed::Value(n, (parent, cell, blocks)),
                        Parsed::Error(e) => Parsed::Error(e),
                        Parsed::Undefined => Parsed::Undefined,
                    },
                    Parsed::Error(e) => Parsed::Error(e),
                    Parsed::Undefined => Parsed::Undefined,
                },
                _ => Parsed::Undefined,
            },
            Parsed::Error(e) => Parsed::Error(e),
            Parsed::Undefined => Parsed::Undefined,
        }
    }

    fn parse(i: &'a [u8]) -> (r: Result<(&'a [u8], WorldChildren), ParseError>) {
        // Parse the group header and allocate raw data.
        let (i, (header, raw)) = alloc_group(i)?;
        // Match the group label to the expected WorldChildren variant.
        match header.label {
            GroupLabel::WorldChildren(form_id) => {
                // Parse the cell definition.
                let (raw, cell) = CellDefinition::parse(raw)?;
                // Parse the exterior cell blocks.
                let (_leftover, exterior_cell_blocks) = many0::<ExteriorCellBlock>(raw)?;
                Ok((i, WorldChildren { parent: form_id, cell, exterior_cell_blocks }))
            },
            _ => Err(ParseError::Invalid),
        }
    }
}

// -- RawExteriorCellBlock

/// An exterior cell block, its sub-blocks' cells kept raw.
#[derive(Debug)]
pub struct RawExteriorCellBlock<'esm> {
    pub location: CellLoc,
    pub exterior_cell_sub_blocks: Vec<RawExteriorCellSubBlock<'esm>>,
}

impl<'esm> DeepView for RawExteriorCellBlock<'esm> {
    type V = (CellLoc, Seq<<RawExteriorCellSubBlock<'esm> as DeepView>::V>);

    open spec fn deep_view(&self) -> Self::V {
        (self.location, self.exterior_cell_sub_blocks.deep_view())
    }
}

impl<'esm> Parse<'esm> for RawExteriorCellBlock<'esm> {
    /// A group labelled `ExteriorCellBlock` (any other label is outside the
    /// domain) that holds sub-blocks.
    open spec fn spec_parse(input: Seq<u8>) -> Parsed<Self::V> {
        match spec_alloc_group(input) {
            Parsed::Value(n, (h, data)) => match h.label {
                GroupLabel::ExteriorCellBlock(location) => match spec_many0::<RawExteriorCellSubBlock>(
                    data,
                ) {
                    Parsed::Value(_, blocks) => Parsed::Value(n, (location, blocks)),
                    Parsed::Error(e) => Parsed::Error(e),
                    Parsed::Undefined => Parsed::Undefined,
                },
                _ => Parsed::Undefined,
            },
            Parsed::Error(e) => Parsed::Error(e),
            Parsed::Undefined => Parsed::Undefined,
        }
    }

    fn parse(i: &'esm [u8]) -> (r: Result<(&'esm [u8], RawExteriorCellBlock<'esm>), ParseError>) {
        let (i, (header, data)) = alloc_group(i)?;
        match header.label {
            GroupLabel::ExteriorCellBlock(location) => {
                let (_, blocks) = many0::<RawExteriorCellSubBlock>(data)?;
                Ok((i, RawExteriorCellBlock { location, exterior_cell_sub_blocks: blocks }))
            },
            _ => Err(ParseError::Invalid),
        }
    }
}

// -- ExteriorCellBlock

/// An exterior cell block.
#[derive(Debug)]
pub struct ExteriorCellBlock {
    pub location: CellLoc,
    pub sub_blocks: Vec<ExteriorCellSubBlock>,
}

impl DeepView for ExteriorCellBlock {
    type V = (CellLoc, Seq<<ExteriorCellSubBlock as DeepView>::V>);

    open spec fn deep_view(&self) -> Self::V {
        (self.location, self.sub_blocks.deep_view())
    }
}

impl<'a> Parse<'a> for ExteriorCellBlock {
    /// A group labelled `ExteriorCellBlock` (any other label is outside the
    /// domain) that holds sub-blocks.
    open spec fn spec_parse(input: Seq<u8>) -> Parsed<Self::V> {
        match spec_alloc_group(input) {
            Parsed::Value(n, (h, data)) => match h.label {
                GroupLabel::ExteriorCellBlock(location) => match spec_many0::<ExteriorCellSubBlock>(
                    data,
                ) {
                    Parsed::Value(_, blocks) => Parsed::Value(n, (location, blocks)),
                    Parsed::Error(e) => Parsed::Error(e),
                    Parsed::Undefined => Parsed::Undefined,
                },
                _ => Parsed::Undefined,
            },
            Parsed::Error(e) => Parsed::Error(e),
            Parsed::Undefined => Parsed::Undefined,
        }
    }

    fn parse(i: &'a [u8]) -> (r: Result<(&'a [u8], ExteriorCellBlock), ParseError>) {
        let (i, (header, raw)) = alloc_group(i)?;
        match header.label {
            GroupLabel::ExteriorCellBlock(location) => {
                let (_, sub_blocks) = <Vec<ExteriorCellSubBlock>>::parse(raw)?;
                Ok((i, ExteriorCellBlock { location, sub_blocks }))
            },
            _ => Err(ParseError::Invalid),
        }
    }
}

// -- RawExteriorCellSubBlock

/// An exterior cell sub-block, its cells' children kept raw.
#[derive(Debug)]
pub struct RawExteriorCellSubBlock<'esm> {
    pub location: CellLoc,
    pub data: Vec<RawCellDefinition<'esm>>,
}

impl<'esm> DeepView for RawExteriorCellSubBlock<'esm> {
    type V = (CellLoc, Seq<<RawCellDefinition<'esm> as DeepView>::V>);

    open spec fn deep_view(&self) -> Self::V {
        (self.location, self.data.deep_view())
    }
}

impl<'esm> Parse<'esm> for RawExteriorCellSubBlock<'esm> {
    /// A group labelled `ExteriorCellSubBlock` (any other label is outside
    /// the domain) that holds cells.
    open spec fn spec_parse(input: Seq<u8>) -> Parsed<Self::V> {
        match spec_alloc_group(input) {
            Parsed::Value(n, (h, data)) => match h.label {
                GroupLabel::ExteriorCellSubBlock(location) => match spec_many0::<RawCellDefinition>(
                    data,
                ) {
                    Parsed::Value(_, cells) => Parsed::Value(n, (location, cells)),
                    Parsed::Error(e) => Parsed::Error(e),
                    Parsed::Undefined => Parsed::Undefined,
                },
                _ => Parsed::Undefined,
            },
            Parsed::Error(e) => Parsed::Error(e),
            Parsed::Undefined => Parsed::Undefined,
        }
    }

    fn parse(i: &'esm [u8]) -> (r: Result<(&'esm [u8], RawExteriorCellSubBlock<'esm>), ParseError>) {
        let (i, (header, raw)) = alloc_group(i)?;
        match header.label {
            GroupLabel::ExteriorCellSubBlock(location) => {
                let (_, data) = many0::<RawCellDefinition>(raw)?;
                Ok((i, RawExteriorCellSubBlock { location, data }))
            },
            _ => Err(ParseError::Invalid),
        }
    }
}

// -- ExteriorCellSubBlock

/// An exterior cell sub-block and its cells.
#[derive(Debug)]
pub struct ExteriorCellSubBlock {
    pub location: CellLoc,
    pub cells: Vec<CellDefinition>,
}

impl DeepView for ExteriorCellSubBlock {
    type V = (CellLoc, Seq<<CellDefinition as DeepView>::V>);

    open spec fn deep_view(&self) -> Self::V {
        (self.location, self.cells.deep_view())
    }
}

impl<'a> Parse<'a> for ExteriorCellSubBlock {
    /// A group labelled `ExteriorCellSubBlock` (any other label is outside
    /// the domain) that holds cells.
    open spec fn spec_parse(input: Seq<u8>) -> Parsed<Self::V> {
        match spec_alloc_group(input) {
            Parsed::Value(n, (h, data)) => match h.label {
                GroupLabel::ExteriorCellSubBlock(location) => match spec_many0::<CellDefinition>(data) {
                    Parsed::Value(_, cells) => Parsed::Value(n, (location, cells)),
                    Parsed::Error(e) => Parsed::Error(e),
                    Parsed::Undefined => Parsed::Undefined,
                },
                _ => Parsed::Undefined,
            },
            Parsed::Error(e) => Parsed::Error(e),
            Parsed::Undefined => Parsed::Undefined,
        }
    }

    fn parse(i: &'a [u8]) -> (r: Result<(&'a [u8], ExteriorCellSubBlock), ParseError>) {
        let (i, (header, raw)) = alloc_group(i)?;
        match header.label {
            GroupLabel::ExteriorCellSubBlock(location) => {
                let (_, cells) = <Vec<CellDefinition>>::parse(raw)?;
                Ok((i, ExteriorCellSubBlock { location, cells }))
            },
            _ => Err(ParseError::Invalid),
        }
    }
}

// -- Worldspace specific field structs

/// A world's reference list for one cell: the cell, then a `u32` count and
/// as many references.
#[derive(Debug)]
pub struct WorldRNAM {
    pub loc: CellLoc,
    pub references: Vec<WorldIdLoc>,
}

impl DeepView for WorldRNAM {
    type V = (CellLoc, Seq<WorldIdLoc>);

    open spec fn deep_view(&self) -> Self::V {
        (self.loc, self.references.deep_view())
    }
}

impl<'a> Parse<'a> for WorldRNAM {
    open spec fn spec_parse(input: Seq<u8>) -> Parsed<Self::V> {
        match <CellLoc as Parse>::spec_parse(input) {
            Parsed::Value(_, loc) => if input.len() < 8 {
                Parsed::Error(ParseError::Invalid)
            } else {
                match spec_count::<WorldIdLoc>(input.skip(8), u32_le(input.skip(4)) as nat) {
                    Parsed::Value(n, references) => Parsed::Value(8 + n, (loc, references)),
                    Parsed::Error(e) => Parsed::Error(e),
                    Parsed::Undefined => Parsed::Undefined,
                }
            },
            _ => Parsed::Error(ParseError::Invalid),
        }
    }

    fn parse(i: &'a [u8]) -> (r: Result<(&'a [u8], WorldRNAM), ParseError>) {
        let ghost input = i@;
        let (i1, loc) = CellLoc::parse(i)?;
        let (i2, n) = le_u32(i1)?;
        assert(input.skip(4).skip(4) =~= input.skip(8));
        proof {
            crate::parse::lemma_count_defined::<WorldIdLoc>(i2@, n as nat);
        }
        let (i3, references) = count::<WorldIdLoc>(i2, n as usize)?;
        let ghost m = match spec_count::<WorldIdLoc>(i2@, n as nat) {
            Parsed::Value(m, _) => m,
            _ => 0,
        };
        assert(input.skip(8).skip(m as int) =~= input.skip((8 + m) as int));
        Ok((i3, WorldRNAM { loc, references }))
    }
}

/// A reference and the cell it stands in.
#[derive(Debug, Clone, Copy, PartialEq, Eq, Structural)]
pub struct WorldIdLoc {
    pub form_id: FormId,
    pub loc: CellLoc,
}

impl DeepView for WorldIdLoc {
    type V = WorldIdLoc;

    open spec fn deep_view(&self) -> WorldIdLoc {
        *self
    }
}

impl<'a> Parse<'a> for WorldIdLoc {
    open spec fn spec_parse(input: Seq<u8>) -> Parsed<WorldIdLoc> {
        match <CellLoc as Parse>::spec_parse(input.skip(4)) {
            Parsed::Value(_, loc) => crate::parse::fixed(
                input,
                8,
                WorldIdLoc { form_id: FormId(u32_le(input)), loc },
            ),
            _ => Parsed::Error(ParseError::Invalid),
        }
    }

    fn parse(i: &'a [u8]) -> (r: Result<(&'a [u8], WorldIdLoc), ParseError>) {
        let (i1, form_id) = FormId::parse(i)?;
        let (i2, loc) = CellLoc::parse(i1)?;
        assert(i@.skip(4).skip(4) =~= i@.skip(8));
        Ok((i2, WorldIdLoc { form_id, loc }))
    }
}

impl<'a> ParseTotal<'a> for WorldIdLoc {
    proof fn lemma_parse_defined(input: Seq<u8>) {
    }
}

/// The height limits of a world: its bounds, then the heights of its quads.
#[derive(Debug)]
pub struct MaxHeightDataWorld {
    pub min: Vec2<i16>,
    pub max: Vec2<i16>,
    pub cell_data: WorldCellData,
}

impl DeepView for MaxHeightDataWorld {
    type V = ((i16, i16), (i16, i16), Seq<WorldQuadHeight>);

    open spec fn deep_view(&self) -> Self::V {
        (self.min.deep_view(), self.max.deep_view(), self.cell_data.deep_view())
    }
}

impl<'a> Parse<'a> for MaxHeightDataWorld {
    open spec fn spec_parse(input: Seq<u8>) -> Parsed<Self::V> {
        match (<Vec2<i16> as Parse>::spec_parse(input), <Vec2<i16> as Parse>::spec_parse(input.skip(4))) {
            (Parsed::Value(_, min), Parsed::Value(_, max)) => if input.len() < 8 {
                Parsed::Error(ParseError::Invalid)
            } else {
                match <WorldCellData as Parse>::spec_parse(input.skip(8)) {
                    Parsed::Value(n, cells) => Parsed::Value(8 + n, (min, max, cells)),
                    Parsed::Error(e) => Parsed::Error(e),
                    Parsed::Undefined => Parsed::Undefined,
                }
            },
            _ => Parsed::Error(ParseError::Invalid),
        }
    }

    fn parse(i: &'a [u8]) -> (r: Result<(&'a [u8], MaxHeightDataWorld), ParseError>) {
        let ghost input = i@;
        let (i1, min) = Vec2::<i16>::parse(i)?;
        let (i2, max) = Vec2::<i16>::parse(i1)?;
        assert(input.skip(4).skip(4) =~= input.skip(8));
        proof {
            crate::parse::lemma_many0_defined::<WorldQuadHeight>(i2@);
        }
        let (i3, cell_data) = WorldCellData::parse(i2)?;
        let ghost m = match <WorldCellData as Parse>::spec_parse(i2@) {
            Parsed::Value(m, _) => m,
            _ => 0,
        };
        assert(input.skip(8).skip(m as int) =~= input.skip((8 + m) as int));
        Ok((i3, MaxHeightDataWorld { min, max, cell_data }))
    }
}

/// The quad heights of a world, as many as follow one another.
#[derive(Debug)]
pub struct WorldCellData(pub Vec<WorldQuadHeight>);

impl DeepView for WorldCellData {
    type V = Seq<WorldQuadHeight>;

    open spec fn deep_view(&self) -> Self::V {
        self.0.deep_view()
    }
}

impl<'a> Parse<'a> for WorldCellData {
    open spec fn spec_parse(input: Seq<u8>) -> Parsed<Seq<WorldQuadHeight>> {
        spec_many0::<WorldQuadHeight>(input)
    }

    fn parse(i: &'a [u8]) -> (r: Result<(&'a [u8], WorldCellData), ParseError>) {
        proof {
            crate::parse::lemma_many0_defined::<WorldQuadHeight>(i@);
        }
        let (i, quads) = many0::<WorldQuadHeight>(i)?;
        Ok((i, WorldCellData(quads)))
    }
}

/// The heights of the four corners of a quad.
#[derive(Debug, Clone, Copy, PartialEq, Eq, Structural)]
pub struct WorldQuadHeight {
    pub bottom_left: u8,
    pub bottom_right: u8,
    pub top_left: u8,
    pub top_right: u8,
}

impl DeepView for WorldQuadHeight {
    type V = WorldQuadHeight;

    open spec fn deep_view(&self) -> WorldQuadHeight {
        *self
    }
}

impl<'a> Parse<'a> for WorldQuadHeight {
    open spec fn spec_parse(input: Seq<u8>) -> Parsed<WorldQuadHeight> {
        crate::parse::fixed(
            input,
            4,
            WorldQuadHeight {
                bottom_left: input[0],
                bottom_right: input[1],
                top_left: input[2],
                top_right: input[3],
            },
        )
    }

    fn parse(i: &'a [u8]) -> (r: Result<(&'a [u8], WorldQuadHeight), ParseError>) {
        let (i1, bottom_left) = le_u8(i)?;
        let (i2, bottom_right) = le_u8(i1)?;
        let (i3, top_left) = le_u8(i2)?;
        let (i4, top_right) = le_u8(i3)?;
        assert(i@.skip(1).skip(1) =~= i@.skip(2));
        assert(i@.skip(2).skip(1) =~= i@.skip(3));
        assert(i@.skip(3).skip(1) =~= i@.skip(4));
        Ok((i4, WorldQuadHeight { bottom_left, bottom_right, top_left, top_right }))
    }
}

impl<'a> ParseTotal<'a> for WorldQuadHeight {
    proof fn lemma_parse_defined(input: Seq<u8>) {
    }
}

/// The map of a world: its size in pixels and the cells at its corners.
#[derive(Debug, Clone, Copy, PartialEq, Eq)]
pub struct MapData {
    pub width: i32,
    pub height: i32,
    pub top_left: Vec2<i16>,
    pub bottom_right: Vec2<i16>,
}

impl DeepView for MapData {
    type V = (i32, i32, (i16, i16), (i16, i16));

    open spec fn deep_view(&self) -> Self::V {
        (self.width, self.height, self.top_left.deep_view(), self.bottom_right.deep_view())
    }
}

impl<'a> Parse<'a> for MapData {
    open spec fn spec_parse(input: Seq<u8>) -> Parsed<Self::V> {
        match (
            <Vec2<i16> as Parse>::spec_parse(input.skip(8)),
            <Vec2<i16> as Parse>::spec_parse(input.skip(12)),
        ) {
            (Parsed::Value(_, top_left), Parsed::Value(_, bottom_right)) => crate::parse::fixed(
                input,
                16,
                (
                    crate::parse::i32_of(u32_le(input)),
                    crate::parse::i32_of(u32_le(input.skip(4))),
                    top_left,
                    bottom_right,
                ),
            ),
            _ => Parsed::Error(ParseError::Invalid),
        }
    }

    fn parse(i: &'a [u8]) -> (r: Result<(&'a [u8], MapData), ParseError>) {
        let (i1, width) = crate::parse::le_i32(i)?;
        let (i2, height) = crate::parse::le_i32(i1)?;
        let (i3, top_left) = Vec2::<i16>::parse(i2)?;
        let (i4, bottom_right) = Vec2::<i16>::parse(i3)?;
        assert(i@.skip(4).skip(4) =~= i@.skip(8));
        assert(i@.skip(8).skip(4) =~= i@.skip(12));
        assert(i@.skip(12).skip(4) =~= i@.skip(16));
        Ok((i4, MapData { width, height, top_left, bottom_right }))
    }
}

} // verus!

verus! {

// -- What the containers of a world hold

/// An exterior cell sub-block group read at the start of the `j`-th of
/// `subs` reads as that group alone.
proof fn lemma_exterior_sub_block_at_start(subs: Seq<Seq<u8>>, j: int)
    requires
        0 <= j < subs.len(),
        reads_exactly::<ExteriorCellSubBlock>(subs[j], subs[j].len()),
    ensures
        <ExteriorCellSubBlock as Parse>::spec_parse(concat_groups(subs.skip(j)))
            == <ExteriorCellSubBlock as Parse>::spec_parse(subs[j]),
{
    lemma_group_at_start(subs, j);
}

/// An exterior cell block holds every sub-block group of its contents, in
/// order: where the contents are `subs` laid one after the other, each a
/// whole sub-block group, the block has one sub-block per group, the `j`-th
/// being the reading of `subs[j]`.
pub proof fn lemma_exterior_cell_block_holds_every_sub_block(
    input: Seq<u8>,
    n: nat,
    h: GroupHeader,
    location: CellLoc,
    subs: Seq<Seq<u8>>,
)
    requires
        spec_alloc_group(input) == Parsed::Value(n, (h, concat_groups(subs))),
        h.label == GroupLabel::ExteriorCellBlock(location),
        forall|j: int|
            0 <= j < subs.len() ==> #[trigger] reads_exactly::<ExteriorCellSubBlock>(
                subs[j],
                subs[j].len(),
            ),
    ensures
        <ExteriorCellBlock as Parse>::spec_parse(input) == Parsed::Value(
            n,
            (
                location,
                Seq::new(
                    subs.len(),
                    |j: int| (<ExteriorCellSubBlock as Parse>::spec_parse(subs[j]))->Value_1,
                ),
            ),
        ),
{
    assert forall|j: int| 0 <= j < subs.len() implies #[trigger] <ExteriorCellSubBlock as Parse>::spec_parse(
        concat_groups(subs.skip(j)),
    ) == <ExteriorCellSubBlock as Parse>::spec_parse(subs[j]) by {
        lemma_exterior_sub_block_at_start(subs, j);
    }
    lemma_many0_of_whole_items::<ExteriorCellSubBlock>(subs);
}

/// A group read as `RawExteriorCellSubBlock<'esm>` at the start of the `j`-th of `items` reads as
/// that group alone.
proof fn lemma_raw_exterior_sub_block_at_start<'esm>(items: Seq<Seq<u8>>, j: int)
    requires
        0 <= j < items.len(),
        reads_exactly::<RawExteriorCellSubBlock<'esm>>(items[j], items[j].len()),
    ensures
        <RawExteriorCellSubBlock<'esm> as Parse>::spec_parse(concat_groups(items.skip(j)))
            == <RawExteriorCellSubBlock<'esm> as Parse>::spec_parse(items[j]),
{
    lemma_group_at_start(items, j);
}

/// A group read as `ExteriorCellBlock` at the start of the `j`-th of `items` reads as
/// that group alone.
proof fn lemma_exterior_block_at_start(items: Seq<Seq<u8>>, j: int)
    requires
        0 <= j < items.len(),
        reads_exactly::<ExteriorCellBlock>(items[j], items[j].len()),
    ensures
        <ExteriorCellBlock as Parse>::spec_parse(concat_groups(items.skip(j)))
            == <ExteriorCellBlock as Parse>::spec_parse(items[j]),
{
    lemma_group_at_start(items, j);
}

/// A group read as `RawExteriorCellBlock<'esm>` at the start of the `j`-th of `items` reads as
/// that group alone.
proof fn lemma_raw_exterior_block_at_start<'esm>(items: Seq<Seq<u8>>, j: int)
    requires
        0 <= j < items.len(),
        reads_exactly::<RawExteriorCellBlock<'esm>>(items[j], items[j].len()),
    ensures
        <RawExteriorCellBlock<'esm> as Parse>::spec_parse(concat_groups(items.skip(j)))
            == <RawExteriorCellBlock<'esm> as Parse>::spec_parse(items[j]),
{
    lemma_group_at_start(items, j);
}

/// A raw exterior cell block holds every sub-block group of its contents,
/// in order: where the contents are `subs` laid one after the other, each a
/// whole sub-block group, the block has one sub-block per group, the `j`-th
/// being the reading of `subs[j]`.
pub proof fn lemma_raw_exterior_cell_block_holds_every_sub_block<'esm>(
    input: Seq<u8>,
    n: nat,
    h: GroupHeader,
    location: CellLoc,
    subs: Seq<Seq<u8>>,
)
    requires
        spec_alloc_group(input) == Parsed::Value(n, (h, concat_groups(subs))),
        h.label == GroupLabel::ExteriorCellBlock(location),
        forall|j: int|
            0 <= j < subs.len() ==> #[trigger] reads_exactly::<RawExteriorCellSubBlock<'esm>>(
                subs[j],
                subs[j].len(),
            ),
    ensures
        <RawExteriorCellBlock<'esm> as Parse>::spec_parse(input) == Parsed::Value(
            n,
            (
                location,
                Seq::new(
                    subs.len(),
                    |j: int| (<RawExteriorCellSubBlock<'esm> as Parse>::spec_parse(subs[j]))->Value_1,
                ),
            ),
        ),
{
    assert forall|j: int| 0 <= j < subs.len() implies #[trigger] <RawExteriorCellSubBlock<'esm> as Parse>::spec_parse(
        concat_groups(subs.skip(j)),
    ) == <RawExteriorCellSubBlock<'esm> as Parse>::spec_parse(subs[j]) by {
        lemma_raw_exterior_sub_block_at_start(subs, j);
    }
    lemma_many0_of_whole_items::<RawExteriorCellSubBlock<'esm>>(subs);
}

/// The children group of a world holds the world's cell and then every
/// exterior cell block group that follows it, in order: where the contents
/// are `cell` and then `blocks` laid one after the other, the cell reading
/// exactly `cell` and each of `blocks` a whole exterior cell block group, the
/// result has one block per group, the `j`-th being the reading of
/// `blocks[j]`.
pub proof fn lemma_raw_world_children_hold_every_block<'esm>(
    input: Seq<u8>,
    n: nat,
    h: GroupHeader,
    parent: FormId,
    cell: Seq<u8>,
    blocks: Seq<Seq<u8>>,
)
    requires
        spec_alloc_group(input) == Parsed::Value(n, (h, cell + concat_groups(blocks))),
        h.label == GroupLabel::WorldChildren(parent),
        reads_exactly::<CellDefinition>(cell + concat_groups(blocks), cell.len()),
        forall|j: int|
            0 <= j < blocks.len() ==> #[trigger] reads_exactly::<RawExteriorCellBlock<'esm>>(
                blocks[j],
                blocks[j].len(),
            ),
    ensures
        <RawWorldChildren<'esm> as Parse>::spec_parse(input) == Parsed::Value(
            n,
            (
                parent,
                (<CellDefinition as Parse>::spec_parse(cell + concat_groups(blocks)))->Value_1,
                Seq::new(
                    blocks.len(),
                    |j: int| (<RawExteriorCellBlock<'esm> as Parse>::spec_parse(blocks[j]))->Value_1,
                ),
            ),
        ),
{
    assert((cell + concat_groups(blocks)).skip(cell.len() as int) =~= concat_groups(blocks));
    assert forall|j: int| 0 <= j < blocks.len() implies #[trigger] <RawExteriorCellBlock<'esm> as Parse>::spec_parse(
        concat_groups(blocks.skip(j)),
    ) == <RawExteriorCellBlock<'esm> as Parse>::spec_parse(blocks[j]) by {
        lemma_raw_exterior_block_at_start(blocks, j);
    }
    lemma_many0_of_whole_items::<RawExteriorCellBlock<'esm>>(blocks);
}

/// The children group of a world holds the world's cell and then every
/// exterior cell block group that follows it, in order (see
/// `lemma_raw_world_children_hold_every_block`).
pub proof fn lemma_world_children_hold_every_block(
    input: Seq<u8>,
    n: nat,
    h: GroupHeader,
    parent: FormId,
    cell: Seq<u8>,
    blocks: Seq<Seq<u8>>,
)
    requires
        spec_alloc_group(input) == Parsed::Value(n, (h, cell + concat_groups(blocks))),
        h.label == GroupLabel::WorldChildren(parent),
        reads_exactly::<CellDefinition>(cell + concat_groups(blocks), cell.len()),
        forall|j: int|
            0 <= j < blocks.len() ==> #[trigger] reads_exactly::<ExteriorCellBlock>(
                blocks[j],
                blocks[j].len(),
            ),
    ensures
        <WorldChildren as Parse>::spec_parse(input) == Parsed::Value(
            n,
            (
                parent,
                (<CellDefinition as Parse>::spec_parse(cell + concat_groups(blocks)))->Value_1,
                Seq::new(
                    blocks.len(),
                    |j: int| (<ExteriorCellBlock as Parse>::spec_parse(blocks[j]))->Value_1,
                ),
            ),
        ),
{
    assert((cell + concat_groups(blocks)).skip(cell.len() as int) =~= concat_groups(blocks));
    assert forall|j: int| 0 <= j < blocks.len() implies #[trigger] <ExteriorCellBlock as Parse>::spec_parse(
        concat_groups(blocks.skip(j)),
    ) == <ExteriorCellBlock as Parse>::spec_parse(blocks[j]) by {
        lemma_exterior_block_at_start(blocks, j);
    }
    lemma_many0_of_whole_items::<ExteriorCellBlock>(blocks);
}

/// An exterior cell sub-block holds every cell of its contents, in
/// order: where the contents are `cells` laid one after the other and a cell
/// read at the start of each reads exactly it, the sub-block has one cell per
/// item, the `j`-th being the cell read at the start of `cells[j]`.
pub proof fn lemma_exterior_cell_sub_block_holds_every_cell(
    input: Seq<u8>,
    n: nat,
    h: GroupHeader,
    location: CellLoc,
    cells: Seq<Seq<u8>>,
)
    requires
        spec_alloc_group(input) == Parsed::Value(n, (h, concat_groups(cells))),
        h.label == GroupLabel::ExteriorCellSubBlock(location),
        forall|j: int|
            0 <= j < cells.len() ==> #[trigger] reads_exactly::<CellDefinition>(
                concat_groups(cells.skip(j)),
                cells[j].len(),
            ),
    ensures
        <ExteriorCellSubBlock as Parse>::spec_parse(input) == Parsed::Value(
            n,
            (location, Seq::new(cells.len(), |j: int| item_reading::<CellDefinition>(cells, j))),
        ),
{
    lemma_many0_of_items::<CellDefinition>(cells);
}

/// A raw exterior cell sub-block holds every cell of its contents, in
/// order: where the contents are `cells` laid one after the other and a cell
/// read at the start of each reads exactly it, the sub-block has one cell per
/// item, the `j`-th being the cell read at the start of `cells[j]`.
pub proof fn lemma_raw_exterior_cell_sub_block_holds_every_cell<'esm>(
    input: Seq<u8>,
    n: nat,
    h: GroupHeader,
    location: CellLoc,
    cells: Seq<Seq<u8>>,
)
    requires
        spec_alloc_group(input) == Parsed::Value(n, (h, concat_groups(cells))),
        h.label == GroupLabel::ExteriorCellSubBlock(location),
        forall|j: int|
            0 <= j < cells.len() ==> #[trigger] reads_exactly::<RawCellDefinition<'esm>>(
                concat_groups(cells.skip(j)),
                cells[j].len(),
            ),
    ensures
        <RawExteriorCellSubBlock<'esm> as Parse>::spec_parse(input) == Parsed::Value(
            n,
            (location, Seq::new(cells.len(), |j: int| item_reading::<RawCellDefinition<'esm>>(cells, j))),
        ),
{
    lemma_many0_of_items::<RawCellDefinition<'esm>>(cells);
}

/// The worldspace top group holds every world of its contents, in
/// order: where the contents are `worlds` laid one after the other and a world
/// read at the start of each reads exactly it, the group has one world per
/// item, the `j`-th being the world read at the start of `worlds[j]`.
pub proof fn lemma_world_group_holds_every_world(
    input: Seq<u8>,
    n: nat,
    h: GroupHeader,
    worlds: Seq<Seq<u8>>,
)
    requires
        spec_alloc_group(input) == Parsed::Value(n, (h, concat_groups(worlds))),
        forall|j: int|
            0 <= j < worlds.len() ==> #[trigger] reads_exactly::<WorldDefinition>(
                concat_groups(worlds.skip(j)),
                worlds[j].len(),
            ),
    ensures
        <WorldTopGroup as Parse>::spec_parse(input) == Parsed::Value(
            n,
            Seq::new(worlds.len(), |j: int| item_reading::<WorldDefinition>(worlds, j)),
        ),
{
    lemma_many0_of_items::<WorldDefinition>(worlds);
}

/// The raw worldspace top group holds every world of its contents, in
/// order: where the contents are `worlds` laid one after the other and a world
/// read at the start of each reads exactly it, the group has one world per
/// item, the `j`-th being the world read at the start of `worlds[j]`.
pub proof fn lemma_raw_world_group_holds_every_world<'esm>(
    input: Seq<u8>,
    n: nat,
    h: GroupHeader,
    worlds: Seq<Seq<u8>>,
)
    requires
        spec_alloc_group(input) == Parsed::Value(n, (h, concat_groups(worlds))),
        forall|j: int|
            0 <= j < worlds.len() ==> #[trigger] reads_exactly::<RawWorldDefinition<'esm>>(
                concat_groups(worlds.skip(j)),
                worlds[j].len(),
            ),
    ensures
        <RawWorldGroup<'esm> as Parse>::spec_parse(input) == Parsed::Value(
            n,
            Seq::new(worlds.len(), |j: int| item_reading::<RawWorldDefinition<'esm>>(worlds, j)),
        ),
{
    lemma_many0_of_items::<RawWorldDefinition<'esm>>(worlds);
}

// -- The world values as they stand in the bytes

/// The quad heights of a world take four bytes each, bottom left, bottom
/// right, top left and top right: as many whole quads as the input holds are
/// read, and the bytes of an incomplete last quad are left.
pub proof fn lemma_world_cell_data_from_bytes(input: Seq<u8>)
    ensures
        <WorldCellData as Parse>::spec_parse(input) matches Parsed::Value(n, quads) && n == 4 * (
        input.len() / 4) && quads.len() == input.len() / 4 && forall|j: int|
            0 <= j < quads.len() ==> (#[trigger] quads[j]).bottom_left == input[4 * j]
                && quads[j].bottom_right == input[4 * j + 1] && quads[j].top_left == input[4 * j + 2]
                && quads[j].top_right == input[4 * j + 3],
    decreases input.len(),
{
    if input.len() >= 4 {
        let rest = input.skip(4);
        lemma_world_cell_data_from_bytes(rest);
        let quads = (<WorldCellData as Parse>::spec_parse(rest))->Value_1;
        assert((input.len() - 4) / 4 == input.len() / 4 - 1);
        let all = (<WorldCellData as Parse>::spec_parse(input))->Value_1;
        assert forall|j: int| 1 <= j < all.len() implies (#[trigger] all[j]).bottom_left == input[4 * j]
            && all[j].bottom_right == input[4 * j + 1] && all[j].top_left == input[4 * j + 2]
            && all[j].top_right == input[4 * j + 3] by {
            assert(all[j] == quads[j - 1]);
            assert(rest[4 * (j - 1)] == input[4 * j]);
            assert(rest[4 * (j - 1) + 1] == input[4 * j + 1]);
            assert(rest[4 * (j - 1) + 2] == input[4 * j + 2]);
            assert(rest[4 * (j - 1) + 3] == input[4 * j + 3]);
        }
    }
}

/// The world values as they stand in the bytes, little-endian and signed where
/// the value is: a reference with its cell is the form id (bytes 0..4) and the
/// grid location `y` (4..6), `x` (6..8); map data is the width (0..4), the
/// height (4..8), the top left cell `x`, `y` (8..12) and the bottom right
/// cell `x`, `y` (12..16); a reference list is the grid location `y` (0..2),
/// `x` (2..4), a count (4..8) and that many references; height data is the
/// minimum `x`, `y` (0..4), the maximum `x`, `y` (4..8) and the quad heights of
/// the rest. Inputs too short for them are rejected.
pub proof fn lemma_world_values_from_bytes(input: Seq<u8>)
    ensures
        input.len() < 8 ==> <WorldIdLoc as Parse>::spec_parse(input) is Error,
        input.len() >= 8 ==> (<WorldIdLoc as Parse>::spec_parse(input) matches Parsed::Value(n, w) && n
            == 8 && w.form_id.0 == crate::parse::le32_at(input, 0) && w.loc.y
            == crate::parse::signed16(input[4], input[5]) && w.loc.x == crate::parse::signed16(
            input[6],
            input[7],
        )),
        input.len() < 16 ==> <MapData as Parse>::spec_parse(input) is Error,
        input.len() >= 16 ==> (<MapData as Parse>::spec_parse(input) matches Parsed::Value(
            n,
            (w, h, tl, br),
        ) && n == 16 && w == crate::parse::signed32(input[0], input[1], input[2], input[3]) && h
            == crate::parse::signed32(input[4], input[5], input[6], input[7]) && tl.0
            == crate::parse::signed16(input[8], input[9]) && tl.1 == crate::parse::signed16(
            input[10],
            input[11],
        ) && br.0 == crate::parse::signed16(input[12], input[13]) && br.1
            == crate::parse::signed16(input[14], input[15])),
        input.len() < 8 ==> <WorldRNAM as Parse>::spec_parse(input) is Error,
        input.len() >= 8 ==> (<WorldRNAM as Parse>::spec_parse(input) matches Parsed::Value(
            _,
            (loc, refs),
        ) ==> loc.y == crate::parse::signed16(input[0], input[1]) && loc.x
            == crate::parse::signed16(input[2], input[3]) && refs.len() == crate::parse::le32_at(
            input,
            4,
        )),
        input.len() >= 8 + 8 * crate::parse::le32_at(input, 4) ==> <WorldRNAM as Parse>::spec_parse(
            input,
        ) is Value,
        input.len() < 8 ==> <MaxHeightDataWorld as Parse>::spec_parse(input) is Error,
        input.len() >= 8 ==> (<MaxHeightDataWorld as Parse>::spec_parse(input) matches Parsed::Value(
            n,
            (min, max, cells),
        ) && n == input.len() - (input.len() - 8) % 4 && min.0 == crate::parse::signed16(
            input[0],
            input[1],
        ) && min.1 == crate::parse::signed16(input[2], input[3]) && max.0
            == crate::parse::signed16(input[4], input[5]) && max.1 == crate::parse::signed16(
            input[6],
            input[7],
        ) && cells == (<WorldCellData as Parse>::spec_parse(input.skip(8)))->Value_1),
{
    crate::parse::lemma_le_readers_from_bytes(input);
    if input.len() >= 4 {
        shared_values(input);
    }
    if input.len() >= 8 {
        shared_values(input.skip(4));
        let s4 = input.skip(4);
        assert(s4[0] == input[4] && s4[1] == input[5] && s4[2] == input[6] && s4[3] == input[7]);
        lemma_world_cell_data_from_bytes(input.skip(8));
        let c = u32_le(input.skip(4));
        assert(c == crate::parse::le32_at(input, 4));
        crate::parse::lemma_count_len::<WorldIdLoc>(input.skip(8), c as nat);
        crate::parse::lemma_count_defined::<WorldIdLoc>(input.skip(8), c as nat);
        lemma_count_world_id_locs(input.skip(8), c as nat);
    }
    if input.len() >= 16 {
        shared_values(input.skip(8));
        shared_values(input.skip(12));
        let s8 = input.skip(8);
        let s12 = input.skip(12);
        assert(s8[0] == input[8] && s8[1] == input[9] && s8[2] == input[10] && s8[3] == input[11]);
        assert(s12[0] == input[12] && s12[1] == input[13] && s12[2] == input[14] && s12[3] == input[15]);
    }
}

/// The small values at the start of `s` (see `lemma_small_values_from_bytes`).
proof fn shared_values(s: Seq<u8>)
    requires
        s.len() >= 4,
    ensures
        <CellLoc as Parse>::spec_parse(s) matches Parsed::Value(n, l) && n == 4 && l.y
            == crate::parse::signed16(s[0], s[1]) && l.x == crate::parse::signed16(s[2], s[3]),
        <Vec2<i16> as Parse>::spec_parse(s) matches Parsed::Value(n, v) && n == 4 && v.0
            == crate::parse::signed16(s[0], s[1]) && v.1 == crate::parse::signed16(s[2], s[3]),
        <FormId as Parse>::spec_parse(s) matches Parsed::Value(n, f) && n == 4 && f.0
            == crate::parse::le32_at(s, 0),
{
    super::shared::lemma_small_values_from_bytes(s);
}

/// A count of references with their cells, eight bytes each, is read where
/// the input holds them all.
proof fn lemma_count_world_id_locs(input: Seq<u8>, count: nat)
    ensures
        input.len() >= 8 * count ==> spec_count::<WorldIdLoc>(input, count) is Value,
    decreases count,
{
    if count > 0 && input.len() >= 8 * count {
        shared_values(input.skip(4));
        lemma_count_world_id_locs(input.skip(8), (count - 1) as nat);
    }
}

} // verus!
