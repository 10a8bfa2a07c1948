use wasm2map::{Error, RelocationEntry, RelocationKind, RelocationMap, SectionReader};

fn abs(offset: u64, symbol: Option<usize>, addend: i64) -> RelocationEntry {
    RelocationEntry { offset, kind: RelocationKind::Absolute, symbol, addend }
}

#[test]
fn resolves_symbol_plus_addend_and_bare_addend() {
    let entries = vec![abs(4, Some(1), 8), abs(12, None, 0x40)];
    let map = RelocationMap::resolve(".debug_info", &entries, &vec![0x100, 0x200]).unwrap();
    assert_eq!(map.relocate(4, 7), 0x208);
    assert_eq!(map.relocate(12, 7), 0x40);
    assert_eq!(map.relocate(5, 7), 7);
}

#[test]
fn symbol_plus_addend_wraps() {
    let entries = vec![abs(0, Some(0), -2), abs(8, Some(1), 1)];
    let map = RelocationMap::resolve(".debug_info", &entries, &vec![1, u64::MAX]).unwrap();
    assert_eq!(map.relocate(0, 0), u64::MAX);
    assert_eq!(map.relocate(8, 0), 0);
}

#[test]
fn unsupported_relocation_kind_fails() {
    let entries = vec![abs(0, None, 1), RelocationEntry { offset: 16, kind: RelocationKind::Other, symbol: None, addend: 0 }];
    assert_eq!(
        RelocationMap::resolve(".debug_info", &entries, &vec![]).err(),
        Some(Error::UnsupportedRelocation { section: ".debug_info".to_string(), offset: 16 })
    );
}

#[test]
fn duplicate_relocation_fails() {
    let entries = vec![abs(4, None, 1), abs(4, None, 2)];
    assert_eq!(
        RelocationMap::resolve(".debug_info", &entries, &vec![]).err(),
        Some(Error::DuplicateRelocation { section: ".debug_info".to_string(), offset: 4 })
    );
}

#[test]
fn unresolved_symbol_fails() {
    let entries = vec![abs(20, Some(3), 0)];
    assert_eq!(
        RelocationMap::resolve(".debug_info", &entries, &vec![1, 2, 3]).err(),
        Some(Error::UnresolvedSymbol { section: ".debug_info".to_string(), offset: 20 })
    );
}

#[test]
fn section_reader_reads_and_overrides() {
    let entries = vec![abs(4, None, 0x1234)];
    let map = RelocationMap::resolve(".debug_info", &entries, &vec![]).unwrap();
    let reader = SectionReader::new(vec![1, 2, 3, 4, 9, 9, 9, 9], map);
    assert_eq!(reader.read_address(0, 4), Some(0x0403_0201));
    assert_eq!(reader.read_address(1, 2), Some(0x0302));
    assert_eq!(reader.read_address(4, 4), Some(0x1234));
    assert_eq!(reader.read_address(6, 4), None);
    assert_eq!(reader.relocate(4, 0), 0x1234);
    assert_eq!(reader.data().len(), 8);
}
