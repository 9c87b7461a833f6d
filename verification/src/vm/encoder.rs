//! The instruction encoder: one fixed byte template per symbol.
//!
//! The templates are x86-64 machine code. The tape pointer lives in `rsi`; a
//! template that needs an address or a branch offset carries zeroes at its
//! patch site, which the compiler fills in once the value is known.

use vstd::prelude::*;

verus! {

/// `>`: advance the tape pointer.
pub const RIGHT: u8 = 62;

/// `<`: retreat the tape pointer.
pub const LEFT: u8 = 60;

/// `+`: increment the current cell.
pub const INCREMENT: u8 = 43;

/// `-`: decrement the current cell.
pub const DECREMENT: u8 = 45;

/// `.`: write the current cell.
pub const OUTPUT: u8 = 46;

/// `,`: read into the current cell.
pub const INPUT: u8 = 44;

/// `[`: loop guard, open.
pub const OPEN: u8 = 91;

/// `]`: loop guard, close.
pub const CLOSE: u8 = 93;

/// `p`: reserve one stack slot.
pub const RESERVE: u8 = 112;

/// `P`: release one stack slot.
pub const RELEASE: u8 = 80;

/// `q`: load a constant address into the tape pointer.
pub const LOAD_TAPE: u8 = 113;

/// `r`: return to the caller.
pub const RETURN: u8 = 114;

/// `d`: breakpoint trap.
pub const TRAP: u8 = 100;

/// Stack slots that the prologue reserves. On entry the stack holds the return
/// address, so it is 8 bytes off a 16-byte boundary; the callee of a call wants
/// a 32-byte home area above its own return address and the stack aligned to 16
/// at the call. Four slots make the home area, and a fifth restores the
/// alignment: 8 + 5 * 8 = 48.
pub const STACK_ALIGNMENT_BLOCKS: usize = 5;

/// Where the address stands in the template of `LOAD_TAPE`.
pub const LOAD_TAPE_SITE: usize = 2;

/// Where the address of the write primitive stands in the template of `OUTPUT`.
pub const OUTPUT_SITE: usize = 5;

/// Where the address of the read primitive stands in the template of `INPUT`.
pub const INPUT_SITE: usize = 2;

/// Where the branch offset stands in the templates of `OPEN` and `CLOSE`.
pub const BRANCH_SITE: usize = 5;

/// Length of the templates of `OPEN` and `CLOSE`.
pub const GUARD_LEN: usize = 9;

/// Whether the table has a template for `sym`.
pub open spec fn has_template(sym: u8) -> bool {
    sym == RIGHT || sym == LEFT || sym == INCREMENT || sym == DECREMENT || sym == OUTPUT || sym
        == INPUT || sym == OPEN || sym == CLOSE || sym == RESERVE || sym == RELEASE || sym
        == LOAD_TAPE || sym == RETURN || sym == TRAP
}

/// The byte template of `sym`, patch sites zeroed; empty where the table has
/// none.
pub open spec fn template(sym: u8) -> Seq<u8> {
    if sym == TRAP {
        seq![0xCCu8]  // int3
    } else if sym == RESERVE {
        seq![0x56u8]  // push rsi
    } else if sym == LOAD_TAPE {
        seq![0x48u8, 0xbe, 0, 0, 0, 0, 0, 0, 0, 0]  // mov rsi, imm64
    } else if sym == RELEASE {
        seq![0x5eu8]  // pop rsi
    } else if sym == RETURN {
        seq![0xc3u8]  // ret
    } else if sym == RIGHT {
        seq![0x48u8, 0xff, 0xc6]  // inc rsi
    } else if sym == LEFT {
        seq![0x48u8, 0xff, 0xce]  // dec rsi
    } else if sym == INCREMENT {
        seq![0xfeu8, 0x06]  // inc byte [rsi]
    } else if sym == DECREMENT {
        seq![0xfeu8, 0x0e]  // dec byte [rsi]
    } else if sym == OPEN {
        // cmp byte [rsi], 0; je rel32
        seq![0x80u8, 0x3e, 0x00, 0x0f, 0x84, 0, 0, 0, 0]
    } else if sym == CLOSE {
        // cmp byte [rsi], 0; jne rel32
        seq![0x80u8, 0x3e, 0x00, 0x0f, 0x85, 0, 0, 0, 0]
    } else if sym == OUTPUT {
        // movzx ecx, byte [rsi]; mov rax, imm64; call rax
        seq![0x0fu8, 0xb6, 0x0e, 0x48, 0xb8, 0, 0, 0, 0, 0, 0, 0, 0, 0xff, 0xd0]
    } else if sym == INPUT {
        // mov rax, imm64; call rax; mov byte [rsi], al
        seq![0x48u8, 0xb8, 0, 0, 0, 0, 0, 0, 0, 0, 0xff, 0xd0, 0x88, 0x06]
    } else {
        Seq::empty()
    }
}

/// The length of the template of `sym`.
pub open spec fn template_len(sym: u8) -> nat {
    if sym == TRAP || sym == RESERVE || sym == RELEASE || sym == RETURN {
        1
    } else if sym == INCREMENT || sym == DECREMENT {
        2
    } else if sym == RIGHT || sym == LEFT {
        3
    } else if sym == OPEN || sym == CLOSE {
        9
    } else if sym == LOAD_TAPE {
        10
    } else if sym == INPUT {
        14
    } else if sym == OUTPUT {
        15
    } else {
        0
    }
}

/// The length of the template of `sym`, without building it.
pub fn template_size(sym: u8) -> (len: usize)
    requires
        has_template(sym),
    ensures
        len == template_len(sym),
{
    if sym == TRAP || sym == RESERVE || sym == RELEASE || sym == RETURN {
        1
    } else if sym == INCREMENT || sym == DECREMENT {
        2
    } else if sym == RIGHT || sym == LEFT {
        3
    } else if sym == OPEN || sym == CLOSE {
        9
    } else if sym == LOAD_TAPE {
        10
    } else if sym == INPUT {
        14
    } else {
        15
    }
}

/// Looks up the template of `sym` in the table.
pub fn template_of(sym: u8) -> (bytes: Vec<u8>)
    requires
        has_template(sym),
    ensures
        bytes@ == template(sym),
        bytes@.len() == template_len(sym),
{
    let bytes = if sym == TRAP {
        vec![0xCCu8]
    } else if sym == RESERVE {
        vec![0x56u8]
    } else if sym == LOAD_TAPE {
        vec![0x48u8, 0xbe, 0, 0, 0, 0, 0, 0, 0, 0]
    } else if sym == RELEASE {
        vec![0x5eu8]
    } else if sym == RETURN {
        vec![0xc3u8]
    } else if sym == RIGHT {
        vec![0x48u8, 0xff, 0xc6]
    } else if sym == LEFT {
        vec![0x48u8, 0xff, 0xce]
    } else if sym == INCREMENT {
        vec![0xfeu8, 0x06]
    } else if sym == DECREMENT {
        vec![0xfeu8, 0x0e]
    } else if sym == OPEN {
        vec![0x80u8, 0x3e, 0x00, 0x0f, 0x84, 0, 0, 0, 0]
    } else if sym == CLOSE {
        vec![0x80u8, 0x3e, 0x00, 0x0f, 0x85, 0, 0, 0, 0]
    } else if sym == OUTPUT {
        vec![0x0fu8, 0xb6, 0x0e, 0x48, 0xb8, 0, 0, 0, 0, 0, 0, 0, 0, 0xff, 0xd0]
    } else {
        vec![0x48u8, 0xb8, 0, 0, 0, 0, 0, 0, 0, 0, 0xff, 0xd0, 0x88, 0x06]
    };
    assert(bytes@ =~= template(sym));
    bytes
}

} // verus!
