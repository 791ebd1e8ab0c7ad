use mind_core::elf::Image;

fn put16(b: &mut [u8], at: usize, v: u16) {
    b[at..at + 2].copy_from_slice(&v.to_le_bytes());
}
fn put32(b: &mut [u8], at: usize, v: u32) {
    b[at..at + 4].copy_from_slice(&v.to_le_bytes());
}
fn put64(b: &mut [u8], at: usize, v: u64) {
    b[at..at + 8].copy_from_slice(&v.to_le_bytes());
}

/// A static PIE with a text segment (entry at its start) and a data
/// segment whose memory is larger than its file bytes.
fn program() -> Vec<u8> {
    let mut f = vec![0u8; 0x300];
    f[..7].copy_from_slice(&[0x7f, b'E', b'L', b'F', 2, 1, 1]);
    put16(&mut f, 16, 3);
    put16(&mut f, 18, 62);
    put32(&mut f, 20, 1);
    put64(&mut f, 24, 0x1200);
    put64(&mut f, 32, 64);
    put16(&mut f, 52, 64);
    put16(&mut f, 54, 56);
    put16(&mut f, 56, 2);
    // Text: 0x10 bytes at file offset 0x200, address 0x1200, R+X.
    put32(&mut f, 64, 1);
    put32(&mut f, 68, 5);
    put64(&mut f, 72, 0x200);
    put64(&mut f, 80, 0x1200);
    put64(&mut f, 96, 0x10);
    put64(&mut f, 104, 0x10);
    put64(&mut f, 112, 0x1000);
    // Data: 4 file bytes at 0x210, 0x20 in memory at 0x2210, R+W.
    put32(&mut f, 120, 1);
    put32(&mut f, 124, 6);
    put64(&mut f, 128, 0x210);
    put64(&mut f, 136, 0x2210);
    put64(&mut f, 152, 4);
    put64(&mut f, 160, 0x20);
    put64(&mut f, 168, 0x1000);
    for i in 0..0x14 {
        f[0x200 + i] = 0xa0 + i as u8;
    }
    f
}

#[test]
fn a_program_spans_its_segments_from_the_lowest_page() {
    let file = program();
    let image = Image::parse(&file).unwrap();
    assert_eq!(image.size, 0x1230);
    assert_eq!(image.segments(), vec![(0x200, 0x10, 5), (0x1210, 0x20, 6)]);
}

#[test]
fn loading_copies_segments_and_zeroes_the_rest() {
    let file = program();
    let image = Image::parse(&file).unwrap();
    let mut memory = vec![0xEEu8; 0x2000];
    assert_eq!(image.load(&mut memory, 0x80_0000_0000), Ok(0x80_0000_0200));
    for (i, &byte) in memory.iter().enumerate() {
        let expected = if (0x200..0x210).contains(&i) {
            0xa0 + (i - 0x200) as u8
        } else if (0x1210..0x1214).contains(&i) {
            0xb0 + (i - 0x1210) as u8
        } else {
            0
        };
        assert_eq!(byte, expected, "byte {:#x}", i);
    }
}

#[test]
fn every_load_is_fresh_whatever_the_memory_held() {
    let file = program();
    let image = Image::parse(&file).unwrap();
    let mut first = vec![0xEEu8; 0x2000];
    let mut second = vec![0x11u8; 0x2000];
    assert_eq!(image.load(&mut first, 0x4000), image.load(&mut second, 0x4000));
    assert_eq!(first, second);
}

#[test]
fn a_small_destination_is_refused() {
    let file = program();
    let image = Image::parse(&file).unwrap();
    let mut memory = vec![0u8; 0x1000];
    assert_eq!(image.load(&mut memory, 0), Err("ELF DESTINATION TOO SMALL"));
}

#[test]
fn corrupt_programs_are_refused_with_their_reason() {
    let mut bad = program();
    bad[0] = 0;
    assert_eq!(Image::parse(&bad).err(), Some("EXPECTED X86-64 STATIC PIE ELF"));

    let mut bad = program();
    put16(&mut bad, 56, 100);
    assert_eq!(Image::parse(&bad).err(), Some("ELF RANGE OUT OF BOUNDS"));

    let mut bad = program();
    put32(&mut bad, 120, 3);
    assert_eq!(Image::parse(&bad).err(), Some("ELF INTERPRETER/TLS NOT SUPPORTED"));

    let mut bad = program();
    put32(&mut bad, 64, 4);
    put32(&mut bad, 120, 4);
    assert_eq!(Image::parse(&bad).err(), Some("ELF HAS NO LOAD SEGMENTS"));

    let mut bad = program();
    put64(&mut bad, 24, 0x2210);
    assert_eq!(Image::parse(&bad).err(), Some("INVALID ELF IMAGE OR ENTRY POINT"));

    let mut bad = program();
    put64(&mut bad, 96, 0x20);
    put64(&mut bad, 104, 0x10);
    assert_eq!(Image::parse(&bad).err(), Some("INVALID ELF SEGMENT"));

    let mut bad = program();
    put64(&mut bad, 72, 0x2f8);
    put64(&mut bad, 80, 0x12f8);
    assert_eq!(Image::parse(&bad).err(), Some("ELF RANGE OUT OF BOUNDS"));
}
