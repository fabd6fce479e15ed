use esm::esm::RawESM;
use esm::parse::{Parse, ParseError};
use nom::error::ErrorKind;
use esm::structs::cell::{
    CellChildren, CellDefinition, CellTopGroup, CombinedReference, CombinedReferenceIndex,
    Fallout4Subrecord, GridLocation, InteriorCellBlock, InteriorCellSubBlock, RawCellChildren,
    RawCellDefinition, RawCellTopGroup, RawInteriorCellBlock, RawInteriorCellSubBlock,
};
use esm::structs::field::{ByteField, FieldHeader};
use esm::structs::group::{Group, GroupLabel};
use esm::structs::record::Record;
use esm::structs::reference::{DoorPivot, LinkedReference};
use esm::structs::shared::{CellLoc, FormId, FourCC, Vec2};
use esm::structs::virtual_machine_adapter::{
    Fragment, PropertyObjectV1, PropertyObjectV2, PropertyStatus, PropertyType, Status, VirtualMachineAdapter,
};
use esm::structs::world::{
    ExteriorCellBlock, ExteriorCellSubBlock, MapData, MaxHeightDataWorld, RawExteriorCellBlock,
    RawExteriorCellSubBlock, RawWorldChildren, RawWorldDefinition, RawWorldGroup, WorldChildren,
    WorldDefinition, WorldIdLoc, WorldQuadHeight, WorldRNAM, WorldTopGroup,
};
use esm::traits::{UnhandledField, UnhandledFields};

fn le32(v: u32) -> [u8; 4] {
    v.to_le_bytes()
}

fn group(label_type: u32, label: u32, body: &[u8]) -> Vec<u8> {
    let mut v = Vec::new();
    v.extend_from_slice(b"GRUP");
    v.extend_from_slice(&le32(24 + body.len() as u32));
    v.extend_from_slice(&le32(label));
    v.extend_from_slice(&le32(label_type));
    v.extend_from_slice(&[0u8; 8]);
    v.extend_from_slice(body);
    v
}

fn record(code: &[u8; 4], form_id: u32, body: &[u8]) -> Vec<u8> {
    let mut v = Vec::new();
    v.extend_from_slice(code);
    v.extend_from_slice(&le32(body.len() as u32));
    v.extend_from_slice(&le32(0));
    v.extend_from_slice(&le32(form_id));
    v.extend_from_slice(&[0u8; 8]);
    v.extend_from_slice(body);
    v
}

fn field(code: &[u8; 4], data: &[u8]) -> Vec<u8> {
    let mut v = Vec::new();
    v.extend_from_slice(code);
    v.extend_from_slice(&(data.len() as u16).to_le_bytes());
    v.extend_from_slice(data);
    v
}

fn code(c: &[u8; 4]) -> u32 {
    u32::from_le_bytes(*c)
}

fn cell_record(form_id: u32) -> Vec<u8> {
    record(b"CELL", form_id, &field(b"EDID", b"C\0"))
}

fn children(cell: u32, persistent: &[u8], temporary: Option<&[u8]>) -> Vec<u8> {
    let mut body = group(8, cell, persistent);
    if let Some(t) = temporary {
        body.extend(group(9, cell, t));
    }
    group(6, cell, &body)
}

#[test]
fn cell_children_with_both_groups() {
    let refs = [record(b"REFR", 0x20, &[1, 2]), record(b"ACHR", 0x21, &[])].concat();
    let bytes = children(0x10, &refs, Some(&record(b"REFR", 0x22, &[3])));
    let (rest, cc) = CellChildren::parse(&bytes).unwrap();
    assert!(rest.is_empty());
    assert_eq!(cc.form_id, FormId::new(0x10));
    assert!(cc.has_children());
    let p = cc.persistant_children.as_ref().unwrap();
    assert_eq!(p.header.label, GroupLabel::CellPersistentChildren(FormId::new(0x10)));
    assert_eq!(p.data, vec![Fallout4Subrecord::Unhandled, Fallout4Subrecord::Unhandled]);
    let t = cc.temporary_children.as_ref().unwrap();
    assert_eq!(t.data.len(), 1);
}

#[test]
fn cell_children_temporary_only() {
    let body = group(9, 0x10, &record(b"REFR", 0x22, &[3]));
    let bytes = group(6, 0x10, &body);
    let (_, cc) = CellChildren::parse(&bytes).unwrap();
    assert!(cc.persistant_children.is_none());
    assert!(cc.temporary_children.is_some());
    assert!(cc.has_children());
}

#[test]
fn cell_children_without_inner_group_fails() {
    let bytes = group(6, 0x10, &[]);
    assert!(CellChildren::parse(&bytes).is_err());
}

#[test]
fn has_children_false_when_empty() {
    let cc = CellChildren { form_id: FormId::new(1), temporary_children: None, persistant_children: None };
    assert!(!cc.has_children());
    let g: Group<Vec<Fallout4Subrecord>> = Group {
        header: esm::structs::group::GroupHeader { label: GroupLabel::CellTemporaryChildren(FormId::new(1)), size: 24 },
        data: vec![],
    };
    let cc = CellChildren { form_id: FormId::new(1), temporary_children: Some(g), persistant_children: None };
    assert!(cc.has_children());
}

#[test]
fn cell_definition_with_children() {
    let mut bytes = cell_record(0x10);
    bytes.extend(children(0x10, &record(b"REFR", 0x20, &[]), None));
    bytes.extend(record(b"CELL", 0x11, &[]));
    let (rest, cell) = CellDefinition::parse(&bytes).unwrap();
    assert_eq!(cell.cell.header.form_id, FormId::new(0x10));
    assert_eq!(cell.cell.fields[0].value, b"C\0".to_vec());
    assert!(cell.cell_children.unwrap().persistant_children.is_some());
    assert_eq!(rest, &record(b"CELL", 0x11, &[])[..]);
}

#[test]
fn cell_definition_followed_by_record() {
    let mut bytes = cell_record(0x10);
    let next = cell_record(0x11);
    bytes.extend(next.iter());
    let (rest, cell) = CellDefinition::parse(&bytes).unwrap();
    assert!(cell.cell_children.is_none());
    assert_eq!(rest, &next[..]);
}

#[test]
fn cell_definition_at_end_of_input_fails() {
    let bytes = cell_record(0x10);
    assert!(CellDefinition::parse(&bytes).is_err());
}

#[test]
fn raw_cell_definition_keeps_children_bytes() {
    let mut bytes = cell_record(0x10);
    let kids = children(0x10, &record(b"REFR", 0x20, &[]), None);
    bytes.extend(kids.iter());
    let (rest, cell) = RawCellDefinition::parse(&bytes).unwrap();
    assert_eq!(cell.cell_children_data, Some(&kids[..]));
    assert_eq!(rest, &kids[..]);
    let (_, raw) = RawCellChildren::parse(&kids).unwrap();
    assert_eq!(raw.header.label, GroupLabel::CellChildren(FormId::new(0x10)));
}

#[test]
fn interior_cells_nest_in_blocks() {
    let mut cells = cell_record(0x10);
    cells.extend(children(0x10, &record(b"REFR", 0x20, &[]), None));
    cells.extend(cell_record(0x11));
    cells.extend(cell_record(0x12));
    let sub = group(3, 0, &cells);
    let block = group(2, 0, &sub);
    let top = group(0, code(b"CELL"), &block);

    let (_, raw) = RawCellTopGroup::parse(&top).unwrap();
    assert_eq!(raw.interior_cell_blocks.len(), 1);
    assert_eq!(raw.interior_cell_blocks[0].interior_cell_sub_blocks.len(), 1);
    assert_eq!(raw.interior_cell_blocks[0].interior_cell_sub_blocks[0].data, &cells[..]);

    let (_, top_group) = CellTopGroup::parse(&top).unwrap();
    let sub_block = &top_group.interior_cell_blocks[0].sub_blocks[0];
    assert_eq!(sub_block.header.label, GroupLabel::InteriorCellSubBlock(0));
    // the last cell has nothing after it, so the repetition stops before it
    assert_eq!(sub_block.cells.len(), 2);
    assert!(sub_block.cells[0].cell_children.is_some());
    assert!(sub_block.cells[1].cell_children.is_none());

    let (_, b) = InteriorCellBlock::parse(&block).unwrap();
    assert_eq!(b.sub_blocks.len(), 1);
    let (_, s) = InteriorCellSubBlock::parse(&sub).unwrap();
    assert_eq!(s.cells.len(), 2);
    let (_, rb) = RawInteriorCellBlock::parse(&block).unwrap();
    assert_eq!(rb.header.label, GroupLabel::InteriorCellBlock(0));
    let (_, rs) = RawInteriorCellSubBlock::parse(&sub).unwrap();
    assert_eq!(rs.data.len(), cells.len());
}

fn world_bytes() -> (Vec<u8>, Vec<u8>) {
    let mut cells = cell_record(0x31);
    let kids = children(0x31, &record(b"REFR", 0x40, &[]), None);
    cells.extend(kids.iter());
    let sub = group(5, 0x0002_0001, &cells);
    let block = group(4, 0x0000_0000, &sub);
    let mut children_body = cell_record(0x30);
    children_body.extend(block.iter());
    let world_children = group(1, 0x50, &children_body);
    let mut world = record(b"WRLD", 0x50, &field(b"EDID", b"W\0"));
    world.extend(world_children.iter());
    (world, kids)
}

#[test]
fn raw_world_definition() {
    let (world, kids) = world_bytes();
    let (rest, def) = RawWorldDefinition::parse(&world).unwrap();
    assert!(rest.is_empty());
    assert_eq!(def.world.header.form_id, FormId::new(0x50));
    assert_eq!(def.children.parent, FormId::new(0x50));
    assert_eq!(def.children.cell.cell.header.form_id, FormId::new(0x30));
    assert!(def.children.cell.cell_children.is_none());
    assert_eq!(def.children.exterior_cell_blocks.len(), 1);
    let block = &def.children.exterior_cell_blocks[0];
    assert_eq!(block.location, CellLoc { y: 0, x: 0 });
    let sub = &block.exterior_cell_sub_blocks[0];
    assert_eq!(sub.location, CellLoc { y: 1, x: 2 });
    assert_eq!(sub.data.len(), 1);
    assert_eq!(sub.data[0].cell_children_data, Some(&kids[..]));

    let top = group(0, code(b"WRLD"), &world);
    let (_, g) = RawWorldGroup::parse(&top).unwrap();
    assert_eq!(g.worlds.len(), 1);
}

#[test]
fn world_definition() {
    let (world, _) = world_bytes();
    let (_, def) = WorldDefinition::parse(&world).unwrap();
    assert_eq!(def.world_children.parent, FormId::new(0x50));
    let sub = &def.world_children.exterior_cell_blocks[0].sub_blocks[0];
    assert_eq!(sub.location, CellLoc { y: 1, x: 2 });
    assert_eq!(sub.cells.len(), 1);
    assert!(sub.cells[0].cell_children.as_ref().unwrap().has_children());

    let top = group(0, code(b"WRLD"), &world);
    let (_, g) = WorldTopGroup::parse(&top).unwrap();
    assert_eq!(g.worlds.len(), 1);
    let wc_start = world.len() - (world.len() - record(b"WRLD", 0x50, &field(b"EDID", b"W\0")).len());
    let (_, wc) = WorldChildren::parse(&world[wc_start..]).unwrap();
    assert_eq!(wc.exterior_cell_blocks.len(), 1);
    let (_, rwc) = RawWorldChildren::parse(&world[wc_start..]).unwrap();
    assert_eq!(rwc.exterior_cell_blocks.len(), 1);
}

#[test]
fn exterior_blocks_directly() {
    let sub = group(5, 0xFFFF_0001, &[]);
    let block = group(4, 0x0001_FFFF, &sub);
    let (_, b) = ExteriorCellBlock::parse(&block).unwrap();
    assert_eq!(b.location, CellLoc { y: -1, x: 1 });
    assert_eq!(b.sub_blocks[0].location, CellLoc { y: 1, x: -1 });
    assert!(b.sub_blocks[0].cells.is_empty());
    let (_, rb) = RawExteriorCellBlock::parse(&block).unwrap();
    assert_eq!(rb.exterior_cell_sub_blocks.len(), 1);
    let (_, s) = ExteriorCellSubBlock::parse(&sub).unwrap();
    assert!(s.cells.is_empty());
    let (_, rs) = RawExteriorCellSubBlock::parse(&sub).unwrap();
    assert!(rs.data.is_empty());
}

#[test]
fn raw_esm_files_records_by_form_id() {
    let mut file = record(b"TES4", 0, &field(b"HEDR", &[0; 12]));
    let mut misc = record(b"MISC", 1, &[1]);
    misc.extend(record(b"MISC", 2, &[2]));
    misc.extend(record(b"MISC", 1, &[3]));
    file.extend(group(0, code(b"MISC"), &misc));
    let (world, _) = world_bytes();
    file.extend(group(0, code(b"WRLD"), &world));
    let sub = group(3, 0, &[]);
    file.extend(group(0, code(b"CELL"), &group(2, 0, &sub)));
    file.extend(group(0, code(b"KYWD"), &record(b"KYWD", 7, &[7, 7])));

    let (rest, esm) = RawESM::parse(&file).unwrap();
    assert_eq!(rest.len(), file.len() - record(b"TES4", 0, &field(b"HEDR", &[0; 12])).len());
    assert_eq!(esm.header.fields[0].header.iden, FourCC(code(b"HEDR")));
    assert_eq!(esm.data_map.len(), 3);
    assert_eq!(esm.get_data_record(FormId::new(1)).unwrap().data, &[3]);
    assert_eq!(esm.get_data_record(FormId::new(2)).unwrap().data, &[2]);
    assert_eq!(esm.get_data_record(FormId::new(7)).unwrap().data, &[7, 7]);
    assert!(esm.get_data_record(FormId::new(9)).is_none());
    assert_eq!(esm.worlds.as_ref().unwrap().worlds.len(), 1);
    assert_eq!(esm.cells.as_ref().unwrap().interior_cell_blocks.len(), 1);
}

#[test]
fn raw_esm_keeps_the_last_world_group() {
    let mut file = record(b"TES4", 0, &[]);
    let (world, _) = world_bytes();
    file.extend(group(0, code(b"WRLD"), &world));
    file.extend(group(0, code(b"WRLD"), &[]));
    let (_, esm) = RawESM::parse(&file).unwrap();
    assert_eq!(esm.worlds.as_ref().unwrap().worlds.len(), 0);
    assert!(esm.cells.is_none());

    let mut file = record(b"TES4", 0, &[]);
    file.extend(group(0, code(b"WRLD"), &[]));
    file.extend(group(0, code(b"WRLD"), &world));
    let (_, esm) = RawESM::parse(&file).unwrap();
    assert_eq!(esm.worlds.as_ref().unwrap().worlds.len(), 1);

    let file = record(b"TES4", 0, &[]);
    let (_, esm) = RawESM::parse(&file).unwrap();
    assert!(esm.worlds.is_none());
    assert!(esm.cells.is_none());
}

#[test]
fn raw_esm_with_truncated_group_fails() {
    let mut file = record(b"TES4", 0, &[]);
    let g = group(0, code(b"MISC"), &record(b"MISC", 1, &[1]));
    file.extend_from_slice(&g[..g.len() - 1]);
    assert!(RawESM::parse(&file).is_err());
}

#[test]
fn combined_reference_index_counts() {
    let mut bytes = le32(2).to_vec();
    bytes.extend(le32(1));
    bytes.extend(le32(10));
    bytes.extend(le32(11));
    bytes.extend(le32(20));
    bytes.push(0xFF);
    let (rest, idx) = CombinedReferenceIndex::parse(&bytes).unwrap();
    assert_eq!(idx.meshes, vec![10, 11]);
    assert_eq!(idx.references, vec![20]);
    assert_eq!(rest, &[0xFF]);
    assert!(CombinedReferenceIndex::parse(&bytes[..15]).is_err());
}

#[test]
fn small_fixed_layouts() {
    let (_, r) = CombinedReference::parse(&[1, 0, 0, 0, 2, 0, 0, 0]).unwrap();
    assert_eq!(r, CombinedReference { local_id: 1, ref_id: 2 });
    let (_, g) = GridLocation::parse(&[1, 0, 0, 0, 2, 0, 0, 0, 3, 0, 0, 0]).unwrap();
    assert_eq!(g, GridLocation { x: 1, y: 2, flags: 3 });
    let (_, d) = DoorPivot::parse(&[5, 0, 0, 0, 6, 0, 7, 0]).unwrap();
    assert_eq!(d, DoorPivot { nav_mesh: FormId::new(5), triangle_index: 6, padding: 7 });
    let (_, l) = LinkedReference::parse(&[9, 0, 0, 0]).unwrap();
    assert_eq!(l.refr, FormId::new(9));
    let (_, q) = WorldQuadHeight::parse(&[1, 2, 3, 4]).unwrap();
    assert_eq!(q, WorldQuadHeight { bottom_left: 1, bottom_right: 2, top_left: 3, top_right: 4 });
    let (_, w) = WorldIdLoc::parse(&[8, 0, 0, 0, 1, 0, 2, 0]).unwrap();
    assert_eq!(w, WorldIdLoc { form_id: FormId::new(8), loc: CellLoc { y: 1, x: 2 } });
    let (_, p1) = PropertyObjectV1::parse(&[8, 0, 0, 0, 1, 0, 2, 0]).unwrap();
    assert_eq!((p1.form_id, p1.alias, p1.padding), (FormId::new(8), 1, 2));
    let (_, p2) = PropertyObjectV2::parse(&[2, 0, 1, 0, 8, 0, 0, 0]).unwrap();
    assert_eq!((p2.padding, p2.alias, p2.form_id), (2, 1, FormId::new(8)));
    assert!(DoorPivot::parse(&[5, 0, 0]).is_err());
}

#[test]
fn world_rnam_and_height_data() {
    let mut bytes = vec![1, 0, 2, 0];
    bytes.extend(le32(2));
    bytes.extend([8, 0, 0, 0, 1, 0, 2, 0]);
    bytes.extend([9, 0, 0, 0, 0xFF, 0xFF, 0, 0]);
    let (rest, rnam) = WorldRNAM::parse(&bytes).unwrap();
    assert!(rest.is_empty());
    assert_eq!(rnam.loc, CellLoc { y: 1, x: 2 });
    assert_eq!(rnam.references.len(), 2);
    assert_eq!(rnam.references[1].loc, CellLoc { y: -1, x: 0 });
    assert!(WorldRNAM::parse(&bytes[..bytes.len() - 1]).is_err());

    let data = [1, 0, 2, 0, 3, 0, 4, 0, 10, 11, 12, 13, 20, 21, 22, 23, 99];
    let (rest, h) = MaxHeightDataWorld::parse(&data).unwrap();
    assert_eq!(h.min, Vec2 { x: 1, y: 2 });
    assert_eq!(h.max, Vec2 { x: 3, y: 4 });
    assert_eq!(h.cell_data.0.len(), 2);
    assert_eq!(rest, &[99]);

    let map = [0xFF, 0xFF, 0xFF, 0xFF, 2, 0, 0, 0, 1, 0, 2, 0, 3, 0, 4, 0];
    let (_, m) = MapData::parse(&map).unwrap();
    assert_eq!(m, MapData { width: -1, height: 2, top_left: Vec2 { x: 1, y: 2 }, bottom_right: Vec2 { x: 3, y: 4 } });
}

#[test]
fn coded_enums() {
    assert_eq!(Status::parse(&[0]).unwrap().1, Status::Local);
    assert_eq!(Status::parse(&[1]).unwrap().1, Status::Inherited);
    assert_eq!(Status::parse(&[3]).unwrap().1, Status::InheritedRemoved);
    assert!(Status::parse(&[2]).is_err());
    assert!(Status::parse(&[]).is_err());
    assert_eq!(PropertyType::parse(&[13]).unwrap().1, PropertyType::Int32Array);
    assert_eq!(PropertyType::parse(&[5]).unwrap().1, PropertyType::Bool);
    assert!(PropertyType::parse(&[6]).is_err());
    assert_eq!(PropertyStatus::parse(&[3]).unwrap().1, PropertyStatus::Removed);
    assert!(PropertyStatus::parse(&[0]).is_err());
    let (rest, f) = Fragment::parse(&[1, 2]).unwrap();
    assert_eq!(f, Fragment {});
    assert_eq!(rest, &[1, 2]);
}

struct Tagged(Option<FieldHeader>);

impl UnhandledField for Tagged {
    fn spec_unhandled_field(&self) -> Option<FieldHeader> {
        self.0.clone()
    }

    fn get_unhandled_field(&self) -> Option<FieldHeader> {
        self.0.clone()
    }
}

#[test]
fn unhandled_fields_are_listed_once() {
    let a = FieldHeader { iden: FourCC(1), size: 2 };
    let b = FieldHeader { iden: FourCC(3), size: 4 };
    let rec = Record {
        header: esm::structs::record::RecordHeader {
            iden: FourCC(0),
            size: 0,
            flags: esm::structs::record::RecordFlags(0),
            form_id: FormId::new(0),
            version: 0,
        },
        fields: vec![Tagged(Some(a.clone())), Tagged(None), Tagged(Some(b.clone())), Tagged(Some(a.clone()))],
    };
    let got = rec.get_unhandled_fields();
    assert_eq!(got.len(), 2);
    assert!(got.contains(&a));
    assert!(got.contains(&b));
}

#[test]
fn byte_field_record_type() {
    let bytes = record(b"MISC", 1, &field(b"EDID", b"x\0"));
    let (_, r) = Record::<ByteField>::parse(&bytes).unwrap();
    assert_eq!(r.fields.len(), 1);
}

#[test]
fn split_top_groups_keeps_each_group_whole() {
    let head = record(b"TES4", 0, &field(b"HEDR", &[0; 12]));
    let g1 = group(0, code(b"MISC"), &record(b"MISC", 1, &[1]));
    let g2 = group(0, code(b"KYWD"), &[]);
    let file = [head.clone(), g1.clone(), g2.clone(), vec![1, 2]].concat();
    let (rest, (header, groups)) = esm::esm::split_top_groups(&file).unwrap();
    assert_eq!(header.header.iden, FourCC(code(b"TES4")));
    assert_eq!(groups.len(), 2);
    assert_eq!(groups[0].data, &g1[..]);
    assert_eq!(groups[1].data, &g2[..]);
    assert_eq!(rest, &[1, 2]);
}

#[test]
fn raw_esm_keeps_last_world_and_cell_group() {
    let mut file = record(b"TES4", 0, &[]);
    file.extend(group(0, code(b"CELL"), &group(2, 0, &[])));
    let two_blocks = [group(2, 0, &[]), group(2, 1, &[])].concat();
    file.extend(group(0, code(b"CELL"), &two_blocks));
    let (_, esm) = RawESM::parse(&file).unwrap();
    assert_eq!(esm.cells.as_ref().unwrap().interior_cell_blocks.len(), 2);
    assert!(esm.worlds.is_none());
    assert!(esm.data_map.is_empty());
}

#[test]
fn virtual_machine_adapter_frames_its_scripts() {
    let bytes = [1, 0, 0xFE, 0xFF, 2, 0, 1, 0, 0, 0, 2, 0, 0, 0];
    let (rest, vmad) = VirtualMachineAdapter::<FormId>::parse(&bytes).unwrap();
    assert!(rest.is_empty());
    assert_eq!(vmad.version, 1);
    assert_eq!(vmad.format, -2);
    assert_eq!(vmad.script_count, 2);
    assert_eq!(vmad.scripts, vec![FormId::new(1), FormId::new(2)]);
    assert!(vmad.fragments.is_empty());

    let mut trailing = bytes.to_vec();
    trailing.push(9);
    assert_eq!(
        VirtualMachineAdapter::<FormId>::parse(&trailing).unwrap_err(),
        ParseError::Stopped { code: ErrorKind::Many0, remaining: 1 }
    );
    assert_eq!(
        VirtualMachineAdapter::<FormId>::parse(&bytes[..13]).unwrap_err(),
        ParseError::Invalid
    );
    assert_eq!(VirtualMachineAdapter::<FormId>::parse(&bytes[..5]).unwrap_err(), ParseError::Invalid);
}
