use esm::parse::{Parse, ParseError};
use nom::error::ErrorKind;
use esm::structs::field::{alloc_field, ByteField, Field, FieldHeader, RawField};
use esm::structs::group::{alloc_group, GroupHeader, GroupLabel, RawDataGroup, RawGroup, RawGroupMT};
use esm::structs::record::{
    alloc_record, decompress_record, ParseRecordError, RawRecord, Record, RecordFlags,
};
use esm::structs::shared::{CellLoc, EditorId, FormId, FourCC, CELL, GRUP, WRLD, XXXX};

fn le32(v: u32) -> [u8; 4] {
    v.to_le_bytes()
}

fn group(label_type: u32, label: u32, body: &[u8]) -> Vec<u8> {
    let mut v = Vec::new();
    v.extend_from_slice(b"GRUP");
    v.extend_from_slice(&le32(24 + body.len() as u32));
    v.extend_from_slice(&le32(label));
    v.extend_from_slice(&le32(label_type));
    v.extend_from_slice(&[0u8; 8]);
    v.extend_from_slice(body);
    v
}

fn record(code: &[u8; 4], flags: u32, form_id: u32, body: &[u8]) -> Vec<u8> {
    let mut v = Vec::new();
    v.extend_from_slice(code);
    v.extend_from_slice(&le32(body.len() as u32));
    v.extend_from_slice(&le32(flags));
    v.extend_from_slice(&le32(form_id));
    v.extend_from_slice(&[9u8; 4]);
    v.extend_from_slice(&44u16.to_le_bytes());
    v.extend_from_slice(&[9u8; 2]);
    v.extend_from_slice(body);
    v
}

fn field(code: &[u8; 4], data: &[u8]) -> Vec<u8> {
    let mut v = Vec::new();
    v.extend_from_slice(code);
    v.extend_from_slice(&(data.len() as u16).to_le_bytes());
    v.extend_from_slice(data);
    v
}

fn zlib(data: &[u8]) -> Vec<u8> {
    let mut e = flate2::write::ZlibEncoder::new(Vec::new(), flate2::Compression::default());
    std::io::Write::write_all(&mut e, data).unwrap();
    e.finish().unwrap()
}

#[test]
fn four_character_codes_are_little_endian() {
    assert_eq!(GRUP, u32::from_le_bytes(*b"GRUP"));
    assert_eq!(XXXX, u32::from_le_bytes(*b"XXXX"));
    assert_eq!(WRLD, u32::from_le_bytes(*b"WRLD"));
    assert_eq!(CELL, u32::from_le_bytes(*b"CELL"));
    let (rest, code) = FourCC::parse(b"EDIDx").unwrap();
    assert_eq!(code, FourCC(u32::from_le_bytes(*b"EDID")));
    assert_eq!(rest, b"x");
}

#[test]
fn form_id_new_keeps_value() {
    assert_eq!(FormId::new(0x0001_2345).0, 0x0001_2345);
}

#[test]
fn cell_loc_from_u32_splits_halves() {
    let loc = CellLoc::from(0xFFFE_0003u32);
    assert_eq!(loc, CellLoc { y: 3, x: -2 });
    let (_, parsed) = CellLoc::parse(&le32(0xFFFE_0003)).unwrap();
    assert_eq!(parsed, loc);
    assert_eq!(CellLoc::from(0x8000_7FFFu32), CellLoc { y: 32767, x: -32768 });
}

#[test]
fn record_flags_bit_18_marks_compression() {
    assert!(RecordFlags(0x0004_0000).is_compressed());
    assert!(RecordFlags(0xFFFF_FFFF).is_compressed());
    assert!(!RecordFlags(0x0003_FFFF).is_compressed());
    assert!(!RecordFlags(0xFFFB_FFFF).is_compressed());
}

#[test]
fn alloc_field_plain() {
    let mut bytes = field(b"EDID", b"abc\0");
    bytes.push(7);
    let (rest, (header, data)) = alloc_field(&bytes).unwrap();
    assert_eq!(header, FieldHeader { iden: FourCC(u32::from_le_bytes(*b"EDID")), size: 4 });
    assert_eq!(data, b"abc\0");
    assert_eq!(rest, &[7]);
}

#[test]
fn alloc_field_extended_size() {
    let mut bytes = field(b"XXXX", &le32(3));
    bytes.extend_from_slice(b"DATA");
    bytes.extend_from_slice(&0u16.to_le_bytes());
    bytes.extend_from_slice(&[1, 2, 3, 4]);
    let (rest, (header, data)) = alloc_field(&bytes).unwrap();
    assert_eq!(header.iden, FourCC(u32::from_le_bytes(*b"DATA")));
    assert_eq!(header.size, 0);
    assert_eq!(data, &[1, 2, 3]);
    assert_eq!(rest, &[4]);
}

#[test]
fn alloc_field_short_inputs_fail() {
    assert_eq!(alloc_field(&[1, 2, 3]).unwrap_err(), ParseError::Invalid);
    let bytes = field(b"EDID", b"abcd");
    assert!(alloc_field(&bytes[..bytes.len() - 1]).is_err());
}

#[test]
fn field_of_bytes_matches_raw_field() {
    let bytes = field(b"FULL", &[5, 6, 7]);
    let (rest_a, f) = <ByteField>::parse(&bytes).unwrap();
    let (rest_b, r) = RawField::parse(&bytes).unwrap();
    assert_eq!(f.value, r.data.to_vec());
    assert_eq!(f.header.iden, r.iden);
    assert_eq!(rest_a.len(), rest_b.len());
    let (_, f): (_, Field<u16>) = Field::parse(&bytes).unwrap();
    assert_eq!(f.value, 0x0605);
}

#[test]
fn alloc_record_splits_header_and_body() {
    let mut bytes = record(b"WEAP", 0, 0x10, &[1, 2, 3]);
    bytes.push(0xAA);
    let (rest, (h, body)) = alloc_record(&bytes).unwrap();
    assert_eq!(h.iden, FourCC(u32::from_le_bytes(*b"WEAP")));
    assert_eq!(h.size, 3);
    assert_eq!(h.form_id, FormId::new(0x10));
    assert_eq!(h.version, 44);
    assert_eq!(body, &[1, 2, 3]);
    assert_eq!(rest, &[0xAA]);
    assert!(alloc_record(&bytes[..20]).is_err());
    assert!(alloc_record(&bytes[..26]).is_err());
}

#[test]
fn record_with_plain_fields() {
    let mut body = field(b"EDID", b"Abc\0");
    body.extend(field(b"DATA", &[1, 2]));
    let bytes = record(b"MISC", 0, 7, &body);
    let (rest, rec) = Record::<ByteField>::parse(&bytes).unwrap();
    assert!(rest.is_empty());
    assert_eq!(rec.fields.len(), 2);
    assert_eq!(rec.fields[0].value, b"Abc\0".to_vec());
    assert_eq!(rec.fields[1].header.size, 2);
    assert_eq!(rec.fields[1].value, vec![1, 2]);
}

#[test]
fn record_fields_stop_at_first_incomplete_field() {
    let mut body = field(b"EDID", b"Abc\0");
    body.extend_from_slice(&[1, 2, 3]);
    let bytes = record(b"MISC", 0, 7, &body);
    let (_, rec) = Record::<ByteField>::parse(&bytes).unwrap();
    assert_eq!(rec.fields.len(), 1);
}

#[test]
fn record_with_compressed_fields() {
    let mut plain = field(b"EDID", b"Zed\0");
    plain.extend(field(b"DATA", &[9, 9, 9]));
    let mut body = le32(plain.len() as u32).to_vec();
    body.extend(zlib(&plain));
    let bytes = record(b"NPC_", 0x0004_0000, 8, &body);
    let (_, rec) = Record::<ByteField>::parse(&bytes).unwrap();
    assert_eq!(rec.fields.len(), 2);
    assert_eq!(rec.fields[0].value, b"Zed\0".to_vec());
    assert_eq!(rec.fields[1].value, vec![9, 9, 9]);
}

#[test]
fn record_with_corrupt_compressed_body_fails() {
    let mut body = le32(10).to_vec();
    body.extend_from_slice(&[1, 2, 3, 4, 5]);
    let bytes = record(b"NPC_", 0x0004_0000, 8, &body);
    assert!(Record::<ByteField>::parse(&bytes).is_err());
    let short = record(b"NPC_", 0x0004_0000, 8, &[1, 2]);
    assert!(Record::<ByteField>::parse(&short).is_err());
}

#[test]
fn record_error_names_the_bytes_after_the_record() {
    let mut body = le32(10).to_vec();
    body.extend_from_slice(&[1, 2, 3, 4, 5]);
    let mut bytes = record(b"NPC_", 0x0004_0000, 8, &body);
    bytes.extend_from_slice(&[7, 7, 7]);
    assert_eq!(
        Record::<ByteField>::parse(&bytes).unwrap_err(),
        ParseError::Stopped { code: ErrorKind::Complete, remaining: 3 }
    );
    let short = record(b"NPC_", 0x0004_0000, 8, &[1, 2]);
    assert_eq!(
        Record::<ByteField>::parse(&short).unwrap_err(),
        ParseError::Stopped { code: ErrorKind::Complete, remaining: 0 }
    );
    let framed = record(b"NPC_", 0, 8, &[1, 2, 3]);
    assert_eq!(
        Record::<ByteField>::parse(&framed[..framed.len() - 1]).unwrap_err(),
        ParseError::Invalid
    );
    assert_eq!(Record::<ByteField>::parse(&framed[..10]).unwrap_err(), ParseError::Invalid);
}

#[test]
fn decompress_record_inflates() {
    let mut body = le32(5).to_vec();
    body.extend(zlib(b"hello"));
    assert_eq!(decompress_record(&body).unwrap(), b"hello".to_vec());
    assert_eq!(decompress_record(&[1, 0]).unwrap_err().kind(), std::io::ErrorKind::InvalidData);
    assert!(decompress_record(&[5, 0, 0, 0, 1, 2, 3]).is_err());
}

#[test]
fn try_from_raw_record_agrees_with_parse() {
    let mut plain = field(b"EDID", b"Q\0");
    plain.extend(field(b"DATA", &[4]));
    let mut body = le32(plain.len() as u32).to_vec();
    body.extend(zlib(&plain));
    let bytes = record(b"NPC_", 0x0004_0000, 8, &body);
    let (_, raw) = RawRecord::parse(&bytes).unwrap();
    let converted = Record::<ByteField>::try_from(raw).unwrap();
    let (_, parsed) = Record::<ByteField>::parse(&bytes).unwrap();
    assert_eq!(converted.fields.len(), parsed.fields.len());
    assert_eq!(converted.fields[1].value, parsed.fields[1].value);
    assert_eq!(converted.header, parsed.header);
}

#[test]
fn try_from_reports_decompression_error() {
    let bytes = record(b"NPC_", 0x0004_0000, 8, &[1, 2, 3, 4, 5, 6]);
    let (_, raw) = RawRecord::parse(&bytes).unwrap();
    match Record::<ByteField>::try_from(raw) {
        Err(ParseRecordError::DecompressError(e)) => {
            assert_eq!(e.kind(), std::io::ErrorKind::InvalidData)
        }
        _ => panic!("expected a decompression error"),
    }
}

#[test]
fn group_header_labels() {
    let cases: [(u32, GroupLabel); 10] = [
        (0, GroupLabel::Top(FourCC(0x0102_0304))),
        (1, GroupLabel::WorldChildren(FormId::new(0x0102_0304))),
        (2, GroupLabel::InteriorCellBlock(0x0102_0304)),
        (3, GroupLabel::InteriorCellSubBlock(0x0102_0304)),
        (4, GroupLabel::ExteriorCellBlock(CellLoc { y: 0x0304, x: 0x0102 })),
        (5, GroupLabel::ExteriorCellSubBlock(CellLoc { y: 0x0304, x: 0x0102 })),
        (6, GroupLabel::CellChildren(FormId::new(0x0102_0304))),
        (7, GroupLabel::TopicChildren(FormId::new(0x0102_0304))),
        (8, GroupLabel::CellPersistentChildren(FormId::new(0x0102_0304))),
        (9, GroupLabel::CellTemporaryChildren(FormId::new(0x0102_0304))),
    ];
    for (kind, label) in cases {
        let bytes = group(kind, 0x0102_0304, &[]);
        let (rest, h) = GroupHeader::parse(&bytes).unwrap();
        assert!(rest.is_empty());
        assert_eq!(h, GroupHeader { label, size: 24 });
    }
    let neg = group(2, 0xFFFF_FFFF, &[]);
    assert_eq!(GroupHeader::parse(&neg).unwrap().1.label, GroupLabel::InteriorCellBlock(-1));
}

#[test]
fn group_header_short_input_fails() {
    let bytes = group(0, 0, &[]);
    assert!(GroupHeader::parse(&bytes[..3]).is_err());
    assert!(GroupHeader::parse(&bytes[..23]).is_err());
}

#[test]
fn alloc_group_takes_size_minus_header() {
    let mut bytes = group(0, 1, &[1, 2, 3]);
    bytes.push(0xEE);
    let (rest, (h, body)) = alloc_group(&bytes).unwrap();
    assert_eq!(h.size, 27);
    assert_eq!(body, &[1, 2, 3]);
    assert_eq!(rest, &[0xEE]);
    assert!(alloc_group(&bytes[..26]).is_err());
    let (_, g) = RawGroup::parse(&bytes).unwrap();
    assert_eq!(g.data, &[1, 2, 3]);
}

#[test]
fn raw_group_mt_takes_whole_group() {
    let mut bytes = group(0, 1, &[1, 2, 3]);
    bytes.push(0xEE);
    let (rest, mt) = RawGroupMT::parse(&bytes).unwrap();
    assert_eq!(mt.data, &bytes[..27]);
    assert_eq!(rest, &[0xEE]);
    let (inner_rest, (h, body)) = alloc_group(mt.data).unwrap();
    assert!(inner_rest.is_empty());
    assert_eq!(h.size, 27);
    assert_eq!(body, &[1, 2, 3]);
}

#[test]
fn raw_data_group_collects_records() {
    let mut body = record(b"MISC", 0, 1, &[1]);
    body.extend(record(b"MISC", 0, 2, &[2, 2]));
    body.extend_from_slice(&[0, 0, 0]);
    let bytes = group(0, u32::from_le_bytes(*b"MISC"), &body);
    let (_, g) = RawDataGroup::parse(&bytes).unwrap();
    assert_eq!(g.records.len(), 2);
    assert_eq!(g.records[1].header.form_id, FormId::new(2));
    assert_eq!(g.records[1].data, &[2, 2]);
}

#[test]
fn editor_id_drops_terminator() {
    let (rest, id) = EditorId::parse(b"Vault111\0").unwrap();
    assert_eq!(id.0, "Vault111");
    assert!(rest.is_empty());
    let (_, id) = EditorId::parse(&[0x41, 0xFF, 0]).unwrap();
    assert_eq!(id.0, "A\u{FFFD}");
}

#[test]
fn vec_of_bytes_takes_everything() {
    let (rest, v) = <Vec<u8>>::parse(&[1, 2, 3]).unwrap();
    assert_eq!(v, vec![1, 2, 3]);
    assert!(rest.is_empty());
    let (rest, v) = <Vec<u16>>::parse(&[1, 0, 2, 0, 3]).unwrap();
    assert_eq!(v, vec![1, 2]);
    assert_eq!(rest, &[3]);
}

#[test]
fn group_contents_read_as_type() {
    let bytes = group(0, 1, &[1, 0, 2, 0, 3]);
    let (rest, g) = esm::structs::group::Group::<Vec<u16>>::parse(&bytes).unwrap();
    let (rest_raw, raw) = RawGroup::parse(&bytes).unwrap();
    assert_eq!(g.data, vec![1, 2]);
    assert_eq!(g.header, raw.header);
    assert_eq!(rest.len(), rest_raw.len());
}

#[test]
fn group_size_below_header_wraps_and_fails() {
    let mut bytes = group(0, 1, &[]);
    bytes[4..8].copy_from_slice(&le32(10));
    bytes.extend_from_slice(&[0u8; 100]);
    assert_eq!(alloc_group(&bytes).unwrap_err(), ParseError::Invalid);
    assert!(RawGroup::parse(&bytes).is_err());
}
