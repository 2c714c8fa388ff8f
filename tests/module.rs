use module_scan::module::{Module, ModuleError, ModuleLocation, ReadError, ScanError};
use module_scan::pattern::PatternError;

fn location(handle: usize, base_address: usize, size: usize) -> Option<ModuleLocation> {
    Some(ModuleLocation { handle, base_address, size: size as u32 })
}

/// An image at 0x1000 whose code loads a pointer stored right after
/// `48 8B 05`, and which holds a few strings further on.
fn sample_image() -> Vec<u8> {
    let mut image = vec![0x90, 0x90, 0x48, 0x8B, 0x05];
    image.extend_from_slice(&0x1234u64.to_le_bytes());
    image.extend_from_slice(&[0xC3, 0x48, 0x69, 0x00, 0xFF, 0x00, 0x41]);
    image
}

#[test]
fn construction_keeps_the_location() {
    let image = sample_image();
    let m = Module::from_module_name("game.dll", location(0x1000, 0x1000, image.len()), &image)
        .unwrap();
    assert_eq!(m.module_name(), "game.dll");
    assert_eq!(m.module_handle(), 0x1000);
    assert_eq!(m.module_base_address(), 0x1000);
    assert_eq!(m.module_size() as usize, image.len());
    assert_eq!(m.image(), &image[..]);
}

#[test]
fn construction_fails_for_missing_module() {
    let r = Module::from_module_name("absent.dll", None, &[]);
    assert_eq!(r.err(), Some(ModuleError::NotFound));
}

#[test]
fn construction_fails_for_wrong_image_length() {
    let image = [0u8; 4];
    let r = Module::from_module_name("m", location(0x1000, 0x1000, 5), &image);
    assert_eq!(r.err(), Some(ModuleError::ImageSizeMismatch));
}

#[test]
fn construction_fails_past_last_address() {
    let image = [0u8; 4];
    let r = Module::from_module_name("m", location(0, usize::MAX - 2, 4), &image);
    assert_eq!(r.err(), Some(ModuleError::RangeOverflow));
    let r = Module::from_module_name("m", location(0, usize::MAX - 4, 4), &image);
    assert!(r.is_ok());
}

#[test]
fn read_gives_handle_relative_addresses_inside_the_image() {
    let image = [0u8; 16];
    let m = Module::from_module_name("m", location(0x1000, 0x1000, 16), &image).unwrap();
    assert_eq!(m.read::<u32>(0), Some(0x1000));
    assert_eq!(m.read::<u32>(12), Some(0x100C));
    assert_eq!(m.read::<u32>(13), None);
    assert_eq!(m.read::<u8>(15), Some(0x100F));
    assert_eq!(m.read::<u64>(-1), None);
    assert_eq!(m.read_mut::<u64>(8), Some(0x1008));
    assert_eq!(m.read_mut::<u64>(9), None);
}

#[test]
fn read_follows_the_handle_not_the_base() {
    let image = [0u8; 16];
    let m = Module::from_module_name("m", location(0x1010, 0x1000, 16), &image).unwrap();
    assert_eq!(m.read::<u8>(-16), Some(0x1000));
    assert_eq!(m.read::<u8>(-17), None);
    assert_eq!(m.read::<u8>(0), None);
}

#[test]
fn read_string_decodes_up_to_terminator() {
    let image = [0x48, 0x69, 0x00];
    let m = Module::from_module_name("m", location(0x1000, 0x1000, 3), &image).unwrap();
    assert_eq!(m.read_string(0), Ok(String::from("Hi")));
    assert_eq!(m.read_string(1), Ok(String::from("i")));
    assert_eq!(m.read_string(2), Ok(String::new()));
}

#[test]
fn read_string_rejects_invalid_utf8() {
    let image = [0xFF, 0x00];
    let m = Module::from_module_name("m", location(0x1000, 0x1000, 2), &image).unwrap();
    assert_eq!(m.read_string(0), Err(ReadError::Decode));
}

#[test]
fn read_string_decodes_multibyte_text() {
    let image = [0xC3, 0xA9, 0x00];
    let m = Module::from_module_name("m", location(0x1000, 0x1000, 3), &image).unwrap();
    assert_eq!(m.read_string(0), Ok(String::from("\u{e9}")));
    assert_eq!(m.read_string(1), Err(ReadError::Decode));
}

#[test]
fn read_string_stays_in_the_image() {
    let image = sample_image();
    let m = Module::from_module_name("m", location(0x1000, 0x1000, image.len()), &image).unwrap();
    let last = image.len() as i32 - 1;
    assert_eq!(m.read_string(last), Err(ReadError::Unterminated));
    assert_eq!(m.read_string(last + 1), Err(ReadError::OutOfImage));
    assert_eq!(m.read_string(-1), Err(ReadError::OutOfImage));
    assert_eq!(m.read_string(14), Ok(String::from("Hi")));
    assert_eq!(m.read_string(17), Err(ReadError::Decode));
}

#[test]
fn pattern_scan_resolves_the_stored_pointer() {
    let image = sample_image();
    let m = Module::from_module_name("m", location(0x1000, 0x1000, image.len()), &image).unwrap();
    assert_eq!(m.pattern_scan("48 8B 05", 3, 7), Ok(Some(0x1234 - 0x1000 + 7)));
    assert_eq!(m.pattern_scan("48 ? 05", 3, 0), Ok(Some(0x234)));
    assert_eq!(m.pattern_scan("8B 05", 2, 0), Ok(Some(0x234)));
}

#[test]
fn pattern_scan_takes_negative_offsets() {
    let image = sample_image();
    let m = Module::from_module_name("m", location(0x1000, 0x1000, image.len()), &image).unwrap();
    assert_eq!(m.pattern_scan("C3", -8, 1), Ok(Some(0x235)));
}

#[test]
fn pattern_scan_wraps_below_the_base() {
    let mut image = vec![0xE8];
    image.extend_from_slice(&0x10u64.to_le_bytes());
    let m = Module::from_module_name("m", location(0x1000, 0x1000, image.len()), &image).unwrap();
    let expected = 0x10usize.wrapping_sub(0x1000).wrapping_add(2);
    assert_eq!(m.pattern_scan("E8", 1, 2), Ok(Some(expected)));
    assert_eq!(m.pattern_scan("E8", 1, 0x1000), Ok(Some(0x10)));
}

#[test]
fn pattern_scan_reports_absence() {
    let image = sample_image();
    let m = Module::from_module_name("m", location(0x1000, 0x1000, image.len()), &image).unwrap();
    assert_eq!(m.pattern_scan("48 8B 0D", 3, 0), Ok(None));
}

#[test]
fn pattern_scan_keeps_the_pointer_in_the_image() {
    let image = sample_image();
    let m = Module::from_module_name("m", location(0x1000, 0x1000, image.len()), &image).unwrap();
    assert_eq!(m.pattern_scan("48 8B 05", 12, 0), Err(ScanError::PointerOutOfImage));
    assert_eq!(m.pattern_scan("48 8B 05", -3, 0), Err(ScanError::PointerOutOfImage));
    assert_eq!(m.pattern_scan("90 90", -1, 0), Err(ScanError::PointerOutOfImage));
}

#[test]
fn pattern_scan_rejects_bad_text() {
    let image = sample_image();
    let m = Module::from_module_name("m", location(0x1000, 0x1000, image.len()), &image).unwrap();
    assert_eq!(m.pattern_scan("48 8Z", 0, 0), Err(ScanError::Pattern(PatternError::MalformedToken)));
    assert_eq!(m.pattern_scan("", 0, 0), Err(ScanError::Pattern(PatternError::Empty)));
}

#[test]
fn construction_refuses_a_zeroed_location() {
    let r = Module::from_module_name("m", location(0, 0, 0), &[]);
    assert_eq!(r.err(), Some(ModuleError::NotFound));
    let image = [0u8; 4];
    let r = Module::from_module_name("m", location(0, 0, 4), &image);
    assert_eq!(r.err(), Some(ModuleError::NotFound));
    let r = Module::from_module_name("m", location(0x1000, 0x1000, 0), &[]);
    assert_eq!(r.err(), Some(ModuleError::NotFound));
}

#[test]
fn all_wildcard_pattern_scan_resolves_at_the_base() {
    let image = sample_image();
    let m = Module::from_module_name("m", location(0x1000, 0x1000, image.len()), &image).unwrap();
    assert_eq!(m.pattern_scan("? ? ?", 5, 0), Ok(Some(0x234)));
}
