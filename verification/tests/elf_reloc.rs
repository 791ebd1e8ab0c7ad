use mind_core::elf_reloc::apply;

fn put(image: &mut [u8], offset: usize, value: u64) {
    image[offset..offset + 8].copy_from_slice(&value.to_le_bytes());
}

fn word(image: &[u8], offset: usize) -> u64 {
    u64::from_le_bytes(image[offset..offset + 8].try_into().unwrap())
}

fn fixture(min: u64) -> [u8; 128] {
    let mut image = [0; 128];
    for (offset, tag, value) in [(0, 7, min + 64), (16, 8, 24), (32, 9, 24)] {
        put(&mut image, offset, tag);
        put(&mut image, offset + 8, value);
    }
    put(&mut image, 64, min + 96);
    put(&mut image, 72, 8);
    put(&mut image, 80, min + 120);
    image
}

#[test]
fn rebases_function_pointers_for_zero_and_nonzero_link_addresses() {
    for min in [0, 0x2000] {
        let mut image = fixture(min);
        apply(&mut image, min, 0x100000, min, 64).unwrap();
        assert_eq!(word(&image, 96), 0x100078);
    }
}

#[test]
fn accepts_signed_addends() {
    let mut image = fixture(0);
    put(&mut image, 80, (-16i64) as u64);
    apply(&mut image, 0, 0x100000, 0, 64).unwrap();
    assert_eq!(word(&image, 96), 0xFFFF0);
}

#[test]
fn rejects_bad_targets_and_unsupported_relocations() {
    for (offset, value) in [
        (64, 125),
        (64, 64),
        (72, 1),
        (72, (1 << 32) | 8),
        (24, 25),
        (8, 120),
        (40, 16),
    ] {
        let mut image = fixture(0);
        put(&mut image, offset, value);
        assert!(apply(&mut image, 0, 0x100000, 0, 64).is_err());
    }
}

#[test]
fn requires_bounded_terminated_dynamic_table() {
    let mut image = fixture(0);
    assert!(apply(&mut image, 0, 0x100000, 0, 48).is_err());
    assert!(apply(&mut image, 0, 0x100000, 120, 64).is_err());
    assert!(apply(&mut image, 0, 0x100000, 0, 63).is_err());
    assert!(apply(&mut [0; 16], 0, 0x100000, 0, 16).is_ok());
}

#[test]
fn each_error_names_its_cause() {
    let mut image = fixture(0);
    assert_eq!(apply(&mut image, 0x10, 0x100000, 0, 64), Err("ELF address below image"));
    assert_eq!(apply(&mut image, 0, 0x100000, 120, 64), Err("ELF range outside image"));
    assert_eq!(apply(&mut image, 0, 0x100000, 1, usize::MAX), Err("ELF range overflow"));
    assert_eq!(apply(&mut image, 0, 0x100000, 0, 63), Err("Invalid ELF dynamic table size"));
    assert_eq!(apply(&mut image, 0, 0x100000, 0, 48), Err("Unterminated ELF dynamic table"));
    let mut shared = fixture(0);
    put(&mut shared, 0, 1);
    assert_eq!(apply(&mut shared, 0, 0x100000, 0, 64), Err("Shared libraries are not supported"));
    let mut plt = fixture(0);
    put(&mut plt, 0, 23);
    assert_eq!(apply(&mut plt, 0, 0x100000, 0, 64), Err("Unsupported ELF relocation table"));
    let mut bad_entry = fixture(0);
    put(&mut bad_entry, 40, 16);
    assert_eq!(apply(&mut bad_entry, 0, 0x100000, 0, 64), Err("Invalid ELF RELA entry size"));
    let mut symbol = fixture(0);
    put(&mut symbol, 72, 1);
    assert_eq!(
        apply(&mut symbol, 0, 0x100000, 0, 64),
        Err("Only symbol-free R_X86_64_RELATIVE is supported")
    );
    let mut own = fixture(0);
    put(&mut own, 64, 64);
    assert_eq!(apply(&mut own, 0, 0x100000, 0, 64), Err("ELF relocation overwrites its own table"));
}

#[test]
fn empty_relocation_table_leaves_the_image_alone() {
    let mut image = fixture(0);
    put(&mut image, 24, 0);
    let before = image;
    assert_eq!(apply(&mut image, 0, 0x100000, 0, 64), Ok(()));
    assert_eq!(image, before);
}

#[test]
fn none_entries_are_skipped_and_later_ones_applied() {
    let mut image = [0u8; 160];
    for (offset, tag, value) in [(0, 7, 64), (16, 8, 48), (32, 9, 24)] {
        put(&mut image, offset, tag);
        put(&mut image, offset + 8, value);
    }
    // first entry R_X86_64_NONE, second relative
    put(&mut image, 64, 120);
    put(&mut image, 72, 0);
    put(&mut image, 88, 120);
    put(&mut image, 96, 8);
    put(&mut image, 104, 5);
    apply(&mut image, 0, 0x1000, 0, 64).unwrap();
    assert_eq!(word(&image, 120), 0x1005);
}

#[test]
fn relocating_twice_is_relocating_once() {
    let mut image = fixture(0x2000);
    apply(&mut image, 0x2000, 0x100000, 0x2000, 64).unwrap();
    let once = image;
    apply(&mut image, 0x2000, 0x100000, 0x2000, 64).unwrap();
    assert_eq!(image, once);
    assert_eq!(word(&image, 96), 0x100078);
}
