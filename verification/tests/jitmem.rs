use bf_jit::vm::encoder::{template_of, template_size, CLOSE, INPUT, LOAD_TAPE, OPEN, OUTPUT, RETURN, TRAP};
use bf_jit::JitMemory;

#[test]
fn allocate_gives_zeroes_of_the_asked_size() {
    let mem = JitMemory::allocate(32, true).expect("granted");
    assert_eq!(mem.size(), 32);
    assert_eq!(mem.as_slice(), &[0u8; 32][..]);
}

#[test]
fn allocate_fails_without_permission() {
    assert!(JitMemory::allocate(32, false).is_none());
}

#[test]
fn allocate_of_nothing_is_empty() {
    let mem = JitMemory::allocate(0, true).expect("granted");
    assert_eq!(mem.size(), 0);
}

#[test]
fn write_at_copies_and_advances() {
    let mut mem = JitMemory::allocate(8, true).expect("granted");
    let mut cursor = 2usize;
    mem.write_at(&mut cursor, &[1, 2, 3]);
    assert_eq!(cursor, 5);
    mem.write_at(&mut cursor, &[9]);
    assert_eq!(cursor, 6);
    assert_eq!(mem.as_slice(), &[0, 0, 1, 2, 3, 9, 0, 0][..]);
    assert_eq!(mem.byte_at(4), 3);
}

#[test]
fn write_at_up_to_the_last_byte() {
    let mut mem = JitMemory::allocate(3, true).expect("granted");
    let mut cursor = 0usize;
    mem.write_at(&mut cursor, &[7, 8, 9]);
    assert_eq!(cursor, 3);
    mem.write_at(&mut cursor, &[]);
    assert_eq!(cursor, 3);
    assert_eq!(mem.as_slice(), &[7, 8, 9][..]);
}

#[test]
fn patch_u64_is_little_endian() {
    let mut mem = JitMemory::allocate(10, true).expect("granted");
    mem.patch_addr_u64(1, 0x1122_3344_5566_7788);
    assert_eq!(
        mem.as_slice(),
        &[0, 0x88, 0x77, 0x66, 0x55, 0x44, 0x33, 0x22, 0x11, 0][..]
    );
}

#[test]
fn patch_i32_is_little_endian_twos_complement() {
    let mut mem = JitMemory::allocate(12, true).expect("granted");
    mem.patch_addr_i32(0, 0x0102_0304);
    mem.patch_addr_i32(4, -11);
    mem.patch_addr_i32(8, i32::MIN);
    assert_eq!(
        mem.as_slice(),
        &[4, 3, 2, 1, 0xf5, 0xff, 0xff, 0xff, 0, 0, 0, 0x80][..]
    );
    mem.patch_addr_i32(8, -1);
    assert_eq!(&mem.as_slice()[8..], &[0xff, 0xff, 0xff, 0xff][..]);
    mem.patch_addr_i32(8, i32::MAX);
    assert_eq!(&mem.as_slice()[8..], &[0xff, 0xff, 0xff, 0x7f][..]);
}

#[test]
fn templates_have_their_bytes() {
    assert_eq!(template_of(RETURN), vec![0xc3]);
    assert_eq!(template_of(TRAP), vec![0xcc]);
    assert_eq!(template_of(b'p'), vec![0x56]);
    assert_eq!(template_of(b'P'), vec![0x5e]);
    assert_eq!(template_of(b'>'), vec![0x48, 0xff, 0xc6]);
    assert_eq!(template_of(b'<'), vec![0x48, 0xff, 0xce]);
    assert_eq!(template_of(b'+'), vec![0xfe, 0x06]);
    assert_eq!(template_of(b'-'), vec![0xfe, 0x0e]);
    assert_eq!(template_of(LOAD_TAPE), vec![0x48, 0xbe, 0, 0, 0, 0, 0, 0, 0, 0]);
    assert_eq!(template_of(OPEN), vec![0x80, 0x3e, 0x00, 0x0f, 0x84, 0, 0, 0, 0]);
    assert_eq!(template_of(CLOSE), vec![0x80, 0x3e, 0x00, 0x0f, 0x85, 0, 0, 0, 0]);
    assert_eq!(
        template_of(OUTPUT),
        vec![0x0f, 0xb6, 0x0e, 0x48, 0xb8, 0, 0, 0, 0, 0, 0, 0, 0, 0xff, 0xd0]
    );
    assert_eq!(
        template_of(INPUT),
        vec![0x48, 0xb8, 0, 0, 0, 0, 0, 0, 0, 0, 0xff, 0xd0, 0x88, 0x06]
    );
}

#[test]
fn template_sizes_match_the_templates() {
    for sym in [
        b'>', b'<', b'+', b'-', b'.', b',', b'[', b']', b'p', b'P', b'q', b'r', b'd',
    ] {
        assert_eq!(template_size(sym), template_of(sym).len());
    }
}
