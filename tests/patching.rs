use wasm2map::{build_section, existing_section_len, layout, Error, ModuleLayout, PatchState};

fn expected_section(url: &str) -> Vec<u8> {
    let mut payload = vec![16u8];
    payload.extend_from_slice(b"sourceMappingURL");
    payload.extend(wasm2map::encode_uint_var(url.len() as u32));
    payload.extend_from_slice(url.as_bytes());
    let mut out = vec![0u8];
    out.extend(wasm2map::encode_uint_var(payload.len() as u32));
    out.extend(payload);
    out
}

#[test]
fn section_layout() {
    let s = build_section("http://localhost/a.wasm.map").unwrap();
    assert_eq!(s, expected_section("http://localhost/a.wasm.map"));
    assert_eq!(&s[..3], &[0u8, 45, 16]);
    assert_eq!(s.len(), 47);
}

#[test]
fn section_with_long_url_uses_multi_byte_lengths() {
    let url = "u".repeat(200);
    let s = build_section(&url).unwrap();
    assert_eq!(s, expected_section(&url));
    assert_eq!(&s[..3], &[0u8, 219, 1]);
}

#[test]
fn existing_section_length_counts_header() {
    let s = build_section("http://x/y.map").unwrap();
    let data_len = (1 + "http://x/y.map".len()) as u32;
    assert_eq!(existing_section_len(data_len), Ok(s.len() as u64));
}

#[test]
fn patching_twice_keeps_one_section_with_second_url() {
    let module = vec![0u8, 97, 115, 109, 1, 0, 0, 0];
    let mut file = module.clone();
    let mut state = PatchState::new("m.wasm".to_string(), None);
    state.patch_bytes(&mut file, "http://a/first.map").unwrap();
    state.patch_bytes(&mut file, "http://b/second-url.map").unwrap();
    let mut expected = module.clone();
    expected.extend(expected_section("http://b/second-url.map"));
    assert_eq!(file, expected);
    assert_eq!(state.appended_len(), Some(expected_section("http://b/second-url.map").len() as u64));
}

#[test]
fn patch_replaces_section_found_at_load() {
    let module = vec![0u8, 97, 115, 109, 1, 0, 0, 0];
    let mut file = module.clone();
    file.extend(expected_section("http://old/x.map"));
    let found = existing_section_len((1 + "http://old/x.map".len()) as u32).unwrap();
    let mut state = PatchState::new("m.wasm".to_string(), Some(found));
    state.patch_bytes(&mut file, "http://new/x.map").unwrap();
    let mut expected = module;
    expected.extend(expected_section("http://new/x.map"));
    assert_eq!(file, expected);
}

#[test]
fn patch_on_too_short_file_leaves_it_unchanged() {
    let mut file = vec![1u8, 2, 3];
    let mut state = PatchState::new("m.wasm".to_string(), Some(10));
    assert_eq!(state.patch_bytes(&mut file, "http://a/b.map"), Err(Error::MalformedContainer));
    assert_eq!(file, vec![1u8, 2, 3]);
    assert_eq!(state.appended_len(), Some(10));
    assert_eq!(state.truncate_len(3), Err(Error::MalformedContainer));
    assert_eq!(state.truncate_len(15), Ok(5));
}

fn module_bytes() -> Vec<u8> {
    let mut m = vec![0u8, 97, 115, 109, 1, 0, 0, 0];
    m.extend_from_slice(&[0u8; 8]);
    m
}

#[test]
fn wasm_magic_is_checked() {
    assert_eq!(wasm2map::check_wasm(&module_bytes()), Ok(()));
    assert_eq!(wasm2map::check_wasm(&module_bytes()[..8]), Err(Error::MalformedContainer));
    let mut elf = module_bytes();
    elf[0] = 0x7f;
    assert_eq!(wasm2map::check_wasm(&elf), Err(Error::MalformedContainer));
}

#[test]
fn layout_decisions() {
    let m = module_bytes();
    assert_eq!(layout(&m, Some((40, 90)), None), Ok(ModuleLayout { code_offset: 40, sourcemap_section: None }));
    assert_eq!(layout(&m, None, None), Err(Error::MissingRequiredSection));
    assert_eq!(layout(&m, Some((1 << 33, 1 << 34)), None), Err(Error::IntegerOverflow));
    assert_eq!(layout(&m, Some((40, 90)), Some((120, 100))), Err(Error::MalformedContainer));
    assert_eq!(layout(&m[..4], Some((40, 90)), None), Err(Error::MalformedContainer));
    let url = "http://x/y.map";
    let data_len = 1 + url.len() as u64;
    let section = build_section(url).unwrap();
    assert_eq!(
        layout(&m, Some((40, 90)), Some((200, 200 + data_len))),
        Ok(ModuleLayout { code_offset: 40, sourcemap_section: Some(section.len() as u64) })
    );
}
