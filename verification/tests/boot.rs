use mind_core::boot::{layout, place, relocate, BootLayout};

fn put16(b: &mut [u8], at: usize, v: u16) {
    b[at..at + 2].copy_from_slice(&v.to_le_bytes());
}
fn put32(b: &mut [u8], at: usize, v: u32) {
    b[at..at + 4].copy_from_slice(&v.to_le_bytes());
}
fn put64(b: &mut [u8], at: usize, v: u64) {
    b[at..at + 8].copy_from_slice(&v.to_le_bytes());
}

/// A kernel file with two loadable segments and no dynamic table.
fn kernel() -> Vec<u8> {
    let mut f = vec![0u8; 0x300];
    f[..4].copy_from_slice(&[0x7f, b'E', b'L', b'F']);
    put64(&mut f, 24, 0x20_1010); // entry
    put64(&mut f, 32, 64); // program headers
    put16(&mut f, 56, 3);
    // Text: 0x10 file bytes at 0x200 to 0x20_1000.
    put32(&mut f, 64, 1);
    put64(&mut f, 64 + 8, 0x200);
    put64(&mut f, 64 + 16, 0x20_1000);
    put64(&mut f, 64 + 32, 0x10);
    put64(&mut f, 64 + 40, 0x10);
    // A note, skipped.
    put32(&mut f, 120, 4);
    // Data: 4 file bytes at 0x210, 0x20 in memory, to 0x20_0000.
    put32(&mut f, 176, 1);
    put64(&mut f, 176 + 8, 0x210);
    put64(&mut f, 176 + 16, 0x20_0000);
    put64(&mut f, 176 + 32, 4);
    put64(&mut f, 176 + 40, 0x20);
    for i in 0..0x14 {
        f[0x200 + i] = 0xa0 + i as u8;
    }
    f
}

#[test]
fn the_layout_spans_the_loadable_segments() {
    let file = kernel();
    assert_eq!(
        layout(&file),
        Ok(BootLayout { min_vaddr: 0x20_0000, size: 0x1010, pages: 2, entry: 0x1010 })
    );
}

#[test]
fn segments_are_copied_and_zero_filled() {
    let file = kernel();
    let mut image = vec![0xffu8; 0x2000];
    assert_eq!(place(&file, 0x20_0000, &mut image), Ok(()));
    assert_eq!(&image[0x1000..0x1010], &file[0x200..0x210]);
    assert_eq!(&image[0..4], &file[0x210..0x214]);
    assert!(image[4..0x20].iter().all(|&b| b == 0));
    assert_eq!(image[0x20], 0xff);
    assert_eq!(relocate(&file, 0x20_0000, 0x100_0000, &mut image[..0x1010]), Ok(()));
}

#[test]
fn bad_files_are_refused() {
    assert_eq!(layout(&[0u8; 10]), Err("ELF HEADER OUT OF FILE"));
    let mut file = kernel();
    file[1] = b'X';
    assert_eq!(layout(&file), Err("Invalid ELF magic"));
    let mut file = kernel();
    put16(&mut file, 56, 30);
    assert_eq!(layout(&file), Err("PROGRAM HEADERS OUT OF FILE"));
    let mut file = kernel();
    put64(&mut file, 64 + 40, u64::MAX);
    assert_eq!(layout(&file), Err("SEGMENT END OVERFLOW"));
    let mut file = kernel();
    put32(&mut file, 64, 4);
    put32(&mut file, 176, 4);
    assert_eq!(layout(&file), Err("NO LOADABLE SEGMENT"));
    let mut file = kernel();
    put64(&mut file, 24, 0x1000);
    assert_eq!(layout(&file), Err("ENTRY BELOW IMAGE"));
    let file = kernel();
    let mut small = vec![0u8; 0x1000];
    assert_eq!(place(&file, 0x20_0000, &mut small), Err("SEGMENT OUT OF IMAGE"));
    let mut file = kernel();
    put64(&mut file, 64 + 32, 0x1000);
    let mut image = vec![0u8; 0x3000];
    assert_eq!(place(&file, 0x20_0000, &mut image), Err("SEGMENT OUT OF FILE"));
}
