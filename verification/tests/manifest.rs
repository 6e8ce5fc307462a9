use putki::manifest::{
    parse_fixed_header, Corruption, OutkiError, PackageManifest, PACKAGE_HEADER_FIXED, PACKAGE_MAGIC,
    PACKAGE_VERSION,
};
use putki::shared::TypeDescriptor;

fn u32le(v: u32, out: &mut Vec<u8>) {
    out.extend_from_slice(&v.to_le_bytes());
}

fn usizele(v: u32, out: &mut Vec<u8>) {
    u32le(v, out);
    u32le(0, out);
}

fn string(s: &str, out: &mut Vec<u8>) {
    usizele(s.len() as u32, out);
    out.extend_from_slice(s.as_bytes());
}

/// A header with one type and two slots, as the package format describes.
fn sample_header() -> Vec<u8> {
    let mut body = Vec::new();
    usizele(1, &mut body); // types
    usizele(7, &mut body);
    string("Thing", &mut body);
    usizele(2, &mut body); // slots
    u32le(3, &mut body); // HAS_PATH | INTERNAL
    string("a/b", &mut body);
    usizele(7, &mut body);
    usizele(1000, &mut body);
    usizele(1010, &mut body);
    u32le(2, &mut body); // INTERNAL, no path
    usizele(0, &mut body);
    usizele(1010, &mut body);
    usizele(1010, &mut body);
    let header_size = (PACKAGE_HEADER_FIXED + body.len()) as u32;
    let mut out = Vec::new();
    u32le(PACKAGE_MAGIC, &mut out);
    u32le(PACKAGE_VERSION, &mut out);
    usizele(header_size, &mut out);
    out.extend_from_slice(&body);
    out
}

#[test]
fn a_well_formed_header_parses() {
    let h = sample_header();
    let m = PackageManifest::parse(&h).expect("parse");
    assert_eq!(m.manifest_size, h.len());
    assert_eq!(m.types.len(), 1);
    assert_eq!(m.types[0].id, 7);
    assert_eq!(m.types[0].name, "Thing");
    assert_eq!(m.slots.len(), 2);
    assert_eq!(m.slots[0].path.as_deref(), Some("a/b"));
    assert_eq!(m.slots[0].flags, 3);
    assert_eq!(m.slots[0].type_id, 7);
    assert_eq!((m.slots[0].begin, m.slots[0].end), (1000, 1010));
    assert_eq!(m.slots[1].path, None);
    assert_eq!(m.name_of_type(7), Some("Thing"));
    assert_eq!(m.name_of_type(8), None);
    assert_eq!(parse_fixed_header(&h[..PACKAGE_HEADER_FIXED]), Ok(h.len()));
}

#[test]
fn bad_magic_and_version_are_named() {
    let mut h = sample_header();
    h[0] = 0;
    assert_eq!(PackageManifest::parse(&h).err(), Some(OutkiError::BadMagic(0x494B5400)));
    let mut h = sample_header();
    h[4] = 2;
    assert_eq!(PackageManifest::parse(&h).err(), Some(OutkiError::UnsupportedVersion(2)));
}

#[test]
fn truncated_data_is_an_error_not_a_panic() {
    let h = sample_header();
    assert_eq!(PackageManifest::parse(&h[..10]).err(), Some(OutkiError::IO));
    assert_eq!(PackageManifest::parse(&h[..h.len() - 1]).err(), Some(OutkiError::IO));
    // A header that claims more types than it holds runs out of data.
    let mut h = sample_header();
    h[16] = 200;
    assert!(matches!(PackageManifest::parse(&h).err(), Some(OutkiError::CorruptPackage(_))));
    // A string running past the end of the header.
    let mut h = sample_header();
    h[16 + 16] = 200;
    assert_eq!(
        PackageManifest::parse(&h).err(),
        Some(OutkiError::CorruptPackage(Corruption::HeaderEndedMidField))
    );
}

#[test]
fn corrupt_fields_are_rejected() {
    // A non-zero high word in the header size.
    let mut h = sample_header();
    h[12] = 1;
    assert_eq!(PackageManifest::parse(&h).err(), Some(OutkiError::CorruptPackage(Corruption::OversizedLength)));
    // A header size below the fixed part.
    let mut h = sample_header();
    h[8] = 4;
    assert_eq!(PackageManifest::parse(&h).err(), Some(OutkiError::CorruptPackage(Corruption::HeaderTooSmall)));
    // Unknown slot flags: the first slot's flags sit after the type table.
    let flags_at = 16 + 8 + 8 + 8 + 5 + 8;
    let mut h = sample_header();
    h[flags_at] = 4;
    assert_eq!(PackageManifest::parse(&h).err(), Some(OutkiError::CorruptPackage(Corruption::UnknownSlotFlags)));
    // A slot type missing from the table.
    let type_at = flags_at + 4 + 8 + 3;
    let mut h = sample_header();
    h[type_at] = 9;
    assert_eq!(PackageManifest::parse(&h).err(), Some(OutkiError::CorruptPackage(Corruption::UnknownSlotType)));
    // A slot ending before it begins.
    let end_at = type_at + 16;
    let mut h = sample_header();
    h[end_at] = 0;
    assert_eq!(
        PackageManifest::parse(&h).err(),
        Some(OutkiError::CorruptPackage(Corruption::SlotEndsBeforeBegin))
    );
    // A slot inside the header.
    let begin_at = type_at + 8;
    let mut h = sample_header();
    h[begin_at] = 1;
    h[begin_at + 1] = 0;
    assert_eq!(PackageManifest::parse(&h).err(), Some(OutkiError::CorruptPackage(Corruption::SlotOverlapsHeader)));
    // A path that is not UTF-8.
    let path_at = flags_at + 4 + 8;
    let mut h = sample_header();
    h[path_at] = 0xff;
    assert_eq!(PackageManifest::parse(&h).err(), Some(OutkiError::CorruptPackage(Corruption::InvalidUtf8)));
}

struct Thing;

impl TypeDescriptor for Thing {
    const TAG: &'static str = "Thing";
    const TYPE_ID: usize = 7;
}

#[test]
fn add_obj_records_slots_and_types() {
    let mut m = PackageManifest::new();
    let mut out = vec![9u8];
    m.add_obj::<Thing>(&mut out, Some("x"), &[1, 2, 3]);
    m.add_obj::<Thing>(&mut out, None, &[4]);
    assert_eq!(out, vec![9, 1, 2, 3, 4]);
    assert_eq!(m.types.len(), 1);
    assert_eq!(m.types[0].name, "Thing");
    assert_eq!(m.slots.len(), 2);
    assert_eq!((m.slots[0].begin, m.slots[0].end), (1, 4));
    assert_eq!((m.slots[1].begin, m.slots[1].end), (4, 5));
    assert_eq!(m.slots[0].path.as_deref(), Some("x"));
    assert_eq!(m.slots[1].type_id, 7);
}

#[test]
fn corruption_messages() {
    assert_eq!(Corruption::HeaderEndedMidField.message(), "header ended mid-field");
    assert_eq!(Corruption::UnknownSlotType.message(), "slot names a type not in the table");
}
