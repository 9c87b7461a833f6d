use bf_jit::{BfJitVM, CompileError, HostAddrs};

const HOST: HostAddrs = HostAddrs {
    tape: 0x0000_7f00_1234_5678,
    read_byte: 0x0000_0001_4000_1000,
    write_byte: 0x0000_0001_4000_2040,
};

const TAPE_LE: [u8; 8] = [0x78, 0x56, 0x34, 0x12, 0x00, 0x7f, 0x00, 0x00];
const READ_LE: [u8; 8] = [0x00, 0x10, 0x00, 0x40, 0x01, 0x00, 0x00, 0x00];
const WRITE_LE: [u8; 8] = [0x40, 0x20, 0x00, 0x40, 0x01, 0x00, 0x00, 0x00];

fn machine(code_size: usize) -> BfJitVM {
    BfJitVM::new(code_size, 16, true).expect("granted")
}

fn prologue() -> Vec<u8> {
    let mut bytes = vec![0x56, 0x56, 0x56, 0x56, 0x56, 0x48, 0xbe];
    bytes.extend_from_slice(&TAPE_LE);
    bytes
}

fn epilogue() -> Vec<u8> {
    vec![0x5e, 0x5e, 0x5e, 0x5e, 0x5e, 0xc3]
}

fn output() -> Vec<u8> {
    let mut bytes = vec![0x0f, 0xb6, 0x0e, 0x48, 0xb8];
    bytes.extend_from_slice(&WRITE_LE);
    bytes.extend_from_slice(&[0xff, 0xd0]);
    bytes
}

fn input() -> Vec<u8> {
    let mut bytes = vec![0x48, 0xb8];
    bytes.extend_from_slice(&READ_LE);
    bytes.extend_from_slice(&[0xff, 0xd0, 0x88, 0x06]);
    bytes
}

fn open(rel: i32) -> Vec<u8> {
    let mut bytes = vec![0x80, 0x3e, 0x00, 0x0f, 0x84];
    bytes.extend_from_slice(&rel.to_le_bytes());
    bytes
}

fn close(rel: i32) -> Vec<u8> {
    let mut bytes = vec![0x80, 0x3e, 0x00, 0x0f, 0x85];
    bytes.extend_from_slice(&rel.to_le_bytes());
    bytes
}

fn routine(body: &[u8]) -> Vec<u8> {
    let mut bytes = prologue();
    bytes.extend_from_slice(body);
    bytes.extend_from_slice(&epilogue());
    bytes
}

/// Compiles `source` into a fresh buffer of `code_size` bytes and returns the
/// buffer's contents.
fn compiled(source: &str, code_size: usize) -> Vec<u8> {
    let mut vm = machine(code_size);
    assert!(vm.compile(source, &HOST));
    vm.code_mem().as_slice().to_vec()
}

fn padded(mut bytes: Vec<u8>, code_size: usize) -> Vec<u8> {
    assert!(bytes.len() <= code_size);
    bytes.resize(code_size, 0);
    bytes
}

#[test]
fn new_machine_holds_a_lone_return_and_a_zeroed_tape() {
    let vm = BfJitVM::new(8, 4, true).expect("granted");
    assert_eq!(vm.code_mem().as_slice(), &[0xc3, 0, 0, 0, 0, 0, 0, 0][..]);
    assert_eq!(vm.code_mem().size(), 8);
    assert_eq!(vm.data_mem(), &[0u8, 0, 0, 0][..]);
}

#[test]
fn new_machine_needs_permission() {
    assert!(BfJitVM::new(8, 4, false).is_none());
}

#[test]
fn three_increments_and_an_output() {
    let mut body = vec![0xfe, 0x06, 0xfe, 0x06, 0xfe, 0x06];
    body.extend_from_slice(&output());
    assert_eq!(compiled("+++.", 64), padded(routine(&body), 64));
}

#[test]
fn input_then_output() {
    let mut body = input();
    body.extend_from_slice(&output());
    assert_eq!(compiled(",.", 64), padded(routine(&body), 64));
}

#[test]
fn clearing_loop() {
    let mut body = open(11);
    body.extend_from_slice(&[0xfe, 0x0e]);
    body.extend_from_slice(&close(-11));
    assert_eq!(compiled("[-]", 64), padded(routine(&body), 64));
}

#[test]
fn empty_loop_branches_over_its_close_guard() {
    let mut body = open(9);
    body.extend_from_slice(&close(-9));
    assert_eq!(compiled("[]", 64), padded(routine(&body), 64));
}

#[test]
fn nested_loops_are_patched_level_by_level() {
    // [ > [ - ] < ] +
    let mut inner = open(11);
    inner.extend_from_slice(&[0xfe, 0x0e]);
    inner.extend_from_slice(&close(-11));
    let span = 3 + inner.len() as i32 + 3 + 9;
    let mut body = open(span);
    body.extend_from_slice(&[0x48, 0xff, 0xc6]);
    body.extend_from_slice(&inner);
    body.extend_from_slice(&[0x48, 0xff, 0xce]);
    body.extend_from_slice(&close(-span));
    body.extend_from_slice(&[0xfe, 0x06]);
    assert_eq!(span, 35);
    assert_eq!(compiled("[>[-]<]+", 128), padded(routine(&body), 128));
}

#[test]
fn loops_side_by_side() {
    let mut body = open(11);
    body.extend_from_slice(&[0xfe, 0x06]);
    body.extend_from_slice(&close(-11));
    body.extend_from_slice(&open(9));
    body.extend_from_slice(&close(-9));
    assert_eq!(compiled("[+][]", 128), padded(routine(&body), 128));
}

#[test]
fn pointer_steps() {
    let body = [0x48, 0xff, 0xc6, 0x48, 0xff, 0xce];
    assert_eq!(compiled("><", 32), padded(routine(&body), 32));
}

#[test]
fn other_bytes_are_comments() {
    assert_eq!(compiled("a + b\n- d !", 64), compiled("+-", 64));
    assert_eq!(compiled("pqPr", 64), compiled("", 64));
}

#[test]
fn empty_source_is_prologue_and_epilogue() {
    assert_eq!(compiled("", 21), routine(&[]));
}

#[test]
fn stray_close_is_refused() {
    let vm = machine(64);
    assert_eq!(
        vm.check_before_compilation(b"]"),
        Err(CompileError::UnmatchedClose)
    );
    assert_eq!(
        vm.check_before_compilation(b"+[-]]"),
        Err(CompileError::UnmatchedClose)
    );
}

#[test]
fn open_loop_is_refused() {
    let vm = machine(64);
    assert_eq!(
        vm.check_before_compilation(b"["),
        Err(CompileError::UnmatchedOpen)
    );
    assert_eq!(
        vm.check_before_compilation(b"[[-]"),
        Err(CompileError::UnmatchedOpen)
    );
}

#[test]
fn stray_close_comes_before_open_loop_and_size() {
    let vm = machine(1);
    assert_eq!(
        vm.check_before_compilation(b"]["),
        Err(CompileError::UnmatchedClose)
    );
    assert_eq!(
        vm.check_before_compilation(b"[[]"),
        Err(CompileError::UnmatchedOpen)
    );
    assert_eq!(
        vm.check_before_compilation(b"[]"),
        Err(CompileError::BufferTooSmall)
    );
}

#[test]
fn size_counts_every_template_and_the_frame() {
    let vm = machine(4096);
    assert_eq!(vm.check_before_compilation(b""), Ok(21));
    assert_eq!(vm.check_before_compilation(b"+"), Ok(23));
    assert_eq!(vm.check_before_compilation(b"-"), Ok(23));
    assert_eq!(vm.check_before_compilation(b">"), Ok(24));
    assert_eq!(vm.check_before_compilation(b"<"), Ok(24));
    assert_eq!(vm.check_before_compilation(b"."), Ok(36));
    assert_eq!(vm.check_before_compilation(b","), Ok(35));
    assert_eq!(vm.check_before_compilation(b"[]"), Ok(39));
    assert_eq!(vm.check_before_compilation(b"x y z"), Ok(21));
    assert_eq!(vm.check_before_compilation(b"+[>,.<-]"), Ok(21 + 2 + 9 + 3 + 14 + 15 + 3 + 2 + 9));
}

#[test]
fn buffer_must_hold_the_whole_routine() {
    let small = machine(22);
    assert_eq!(
        small.check_before_compilation(b"+"),
        Err(CompileError::BufferTooSmall)
    );
    let exact = machine(23);
    assert_eq!(exact.check_before_compilation(b"+"), Ok(23));
    assert_eq!(compiled("+", 23), routine(&[0xfe, 0x06]));
}

#[test]
fn refused_source_leaves_the_machine_as_it_was() {
    let mut vm = machine(64);
    assert!(vm.compile("+.", &HOST));
    let before = vm.code_mem().as_slice().to_vec();
    assert!(!vm.compile("]", &HOST));
    assert_eq!(vm.code_mem().as_slice(), &before[..]);
    assert!(!vm.compile("[", &HOST));
    assert_eq!(vm.code_mem().as_slice(), &before[..]);
    let mut tight = machine(21);
    let fresh = tight.code_mem().as_slice().to_vec();
    assert!(!tight.compile("+", &HOST));
    assert_eq!(tight.code_mem().as_slice(), &fresh[..]);
    assert!(tight.compile("", &HOST));
}

#[test]
fn machine_compiles_again_after_a_refusal() {
    let mut vm = machine(64);
    assert!(!vm.compile("]", &HOST));
    assert!(vm.compile("-", &HOST));
    assert_eq!(
        vm.code_mem().as_slice(),
        &padded(routine(&[0xfe, 0x0e]), 64)[..]
    );
}

#[test]
fn recompiling_overwrites_from_the_first_byte() {
    let mut vm = machine(64);
    assert!(vm.compile("+++.", &HOST));
    assert!(vm.compile("-", &HOST));
    let mut expected = compiled("+++.", 64);
    let shorter = routine(&[0xfe, 0x0e]);
    expected[..shorter.len()].copy_from_slice(&shorter);
    assert_eq!(vm.code_mem().as_slice(), &expected[..]);
}

#[test]
fn every_branch_site_is_filled_in() {
    let code = compiled("[[][[]]][]", 256);
    let mut at = 15;
    let mut guards = 0;
    while code[at] == 0x80 {
        assert_ne!(&code[at + 5..at + 9], &[0u8, 0, 0, 0][..]);
        at += 9;
        guards += 1;
    }
    assert_eq!(guards, 10);
    assert_eq!(&code[at..at + 6], &epilogue()[..]);
}

#[test]
fn reset_tape_zeroes_every_cell_and_keeps_the_code() {
    let mut vm = machine(64);
    assert!(vm.compile("[-]", &HOST));
    let code = vm.code_mem().as_slice().to_vec();
    vm.set_cell(0, 5);
    vm.set_cell(15, 255);
    assert_eq!(vm.cell(0), 5);
    assert_eq!(vm.data_mem()[15], 255);
    vm.reset_tape();
    assert_eq!(vm.data_mem(), &[0u8; 16][..]);
    assert_eq!(vm.code_mem().as_slice(), &code[..]);
}

#[test]
fn two_resets_give_the_same_start() {
    let mut vm = machine(64);
    assert!(vm.compile("+++.", &HOST));
    vm.set_cell(3, 9);
    vm.reset_tape();
    let first = (vm.code_mem().as_slice().to_vec(), vm.data_mem().to_vec());
    vm.set_cell(0, 3);
    vm.reset_tape();
    let second = (vm.code_mem().as_slice().to_vec(), vm.data_mem().to_vec());
    assert_eq!(first, second);
}

#[test]
fn one_level_ends_behind_its_close_guard() {
    let mut vm = machine(64);
    let (end, taken) = vm.compile_loop_body(b"+]--", 3, &HOST);
    assert_eq!((end, taken), (14, 2));
    let mut expected = vec![0xc3, 0, 0, 0xfe, 0x06];
    expected.extend_from_slice(&close(-11));
    assert_eq!(vm.code_mem().as_slice(), &padded(expected, 64)[..]);
}

#[test]
fn one_level_without_a_close_guard_runs_to_the_end() {
    let mut vm = machine(64);
    let (end, taken) = vm.compile_loop_body(b"x[>]y<", 1, &HOST);
    assert_eq!((end, taken), (1 + 9 + 3 + 9 + 3, 6));
    let mut expected = vec![0xc3];
    expected.extend_from_slice(&open(12));
    expected.extend_from_slice(&[0x48, 0xff, 0xc6]);
    expected.extend_from_slice(&close(-12));
    expected.extend_from_slice(&[0x48, 0xff, 0xce]);
    assert_eq!(vm.code_mem().as_slice(), &padded(expected, 64)[..]);
}

#[test]
fn a_loop_left_open_gets_no_close_guard() {
    let mut vm = machine(64);
    let (end, taken) = vm.compile_loop_body(b"[+", 0, &HOST);
    assert_eq!((end, taken), (11, 2));
    let mut expected = open(2);
    expected.extend_from_slice(&[0xfe, 0x06]);
    assert_eq!(vm.code_mem().as_slice(), &padded(expected, 64)[..]);
}
