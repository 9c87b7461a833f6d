//! The machine: a code buffer, a tape, and the compiler that fills the buffer.

pub mod encoder;
pub mod jitmem;
pub mod program;

use vstd::prelude::*;
use vstd::slice::slice_subrange;
use vstd::string::StringSliceAdditionalSpecFns;
use crate::vm::encoder::{
    template, template_of, template_size, BRANCH_SITE, CLOSE, DECREMENT, GUARD_LEN, INCREMENT, INPUT, INPUT_SITE,
    LEFT, LOAD_TAPE, LOAD_TAPE_SITE, OPEN, OUTPUT, OUTPUT_SITE, RELEASE, RESERVE, RETURN, RIGHT,
    STACK_ALIGNMENT_BLOCKS,
};
use crate::vm::jitmem::{
    lemma_overwrite_append, lemma_overwrite_len, lemma_overwrite_patch, overwrite, u64_le, zeroes,
    JitMemory,
};
use crate::vm::program::{
    balanced, body, consumed, depth, encoded_size, epilogue, guard, is_plain,
    lemma_balanced_is_closed, lemma_guard_patch, lemma_head_close, lemma_head_comment,
    lemma_head_open, lemma_head_plain, lemma_patched_len, level, plain, program, prologue,
    rejection, repeated, required_size, stop, CompileError, HostAddrs,
};

verus! {

/// A code buffer and a tape. The code buffer always holds a routine that can be
/// entered at its first byte: a lone return until a source text is compiled.
///
/// The compiled routine moves the tape pointer without looking at the tape's
/// bounds: a text that steps off the tape reads and writes whatever lies there.
pub struct BfJitVM {
    code_mem: JitMemory,
    data_mem: Vec<u8>,
}

/// Writes the template of `sym` at `*ip`, `count` times in a row.
fn emit_repeated(mem: &mut JitMemory, ip: &mut usize, sym: u8, count: usize)
    requires
        sym == RESERVE || sym == RELEASE,
        *old(ip) + count <= old(mem)@.len(),
    ensures
        final(mem)@ == overwrite(old(mem)@, *old(ip) as int, repeated(template(sym), count as nat)),
        final(mem)@.len() == old(mem)@.len(),
        *final(ip) == *old(ip) + count,
        repeated(template(sym), count as nat).len() == count,
{
    let ghost before = mem@;
    let start: usize = *ip;
    let unit = template_of(sym);
    let mut done: usize = 0;
    proof {
        lemma_overwrite_len(before, start as int, Seq::<u8>::empty());
    }
    while done < count
        invariant
            done <= count,
            start + count <= before.len(),
            unit@ == template(sym),
            unit@.len() == 1,
            *ip == start + done,
            mem@.len() == before.len(),
            repeated(template(sym), done as nat).len() == done,
            mem@ == overwrite(before, start as int, repeated(template(sym), done as nat)),
        decreases count - done,
    {
        proof {
            lemma_overwrite_append(
                before,
                start as int,
                repeated(template(sym), done as nat),
                unit@,
            );
        }
        mem.write_at(ip, unit.as_slice());
        done += 1;
    }
}

/// Writes the code of a plain instruction at `*ip`, addresses filled in.
fn emit_plain(mem: &mut JitMemory, ip: &mut usize, sym: u8, host: &HostAddrs)
    requires
        is_plain(sym),
        *old(ip) + plain(sym, *host).len() <= old(mem)@.len(),
    ensures
        final(mem)@ == overwrite(old(mem)@, *old(ip) as int, plain(sym, *host)),
        final(mem)@.len() == old(mem)@.len(),
        *final(ip) == *old(ip) + plain(sym, *host).len(),
{
    let ghost before = mem@;
    let start: usize = *ip;
    let unit = template_of(sym);
    proof {
        lemma_patched_len(sym, *host, 0);
    }
    mem.write_at(ip, unit.as_slice());
    if sym == OUTPUT {
        proof {
            lemma_overwrite_patch(
                before,
                start as int,
                unit@,
                OUTPUT_SITE as int,
                u64_le(host.write_byte),
            );
        }
        mem.patch_addr_u64(start + OUTPUT_SITE, host.write_byte);
    } else if sym == INPUT {
        proof {
            lemma_overwrite_patch(
                before,
                start as int,
                unit@,
                INPUT_SITE as int,
                u64_le(host.read_byte),
            );
        }
        mem.patch_addr_u64(start + INPUT_SITE, host.read_byte);
    }
}

impl BfJitVM {
    /// The contents of the code buffer.
    pub closed spec fn code(&self) -> Seq<u8> {
        self.code_mem@
    }

    /// The contents of the tape.
    pub closed spec fn tape(&self) -> Seq<u8> {
        self.data_mem@
    }

    /// A machine with `code_size` bytes of code buffer and `data_size` tape
    /// cells, provided the platform has granted the code buffer write and
    /// execute permission. The code buffer starts with a return instruction,
    /// so that entering it before anything is compiled does nothing.
    pub fn new(code_size: usize, data_size: usize, granted: bool) -> (vm: Option<BfJitVM>)
        requires
            code_size >= 1,
        ensures
            !granted ==> vm is None,
            granted ==> vm is Some,
            granted ==> vm.unwrap().code() == overwrite(
                zeroes(code_size as nat),
                0,
                template(RETURN),
            ),
            granted ==> vm.unwrap().code().len() == code_size,
            granted ==> vm.unwrap().tape() == zeroes(data_size as nat),
    {
        let mut jit_mem = match JitMemory::allocate(code_size, granted) {
            Some(region) => region,
            None => {
                return None;
            },
        };
        let mut ip: usize = 0;
        let ret = template_of(RETURN);
        jit_mem.write_at(&mut ip, ret.as_slice());
        let mut data_mem: Vec<u8> = Vec::new();
        let mut i: usize = 0;
        while i < data_size
            invariant
                i <= data_size,
                data_mem@ == zeroes(i as nat),
            decreases data_size - i,
        {
            data_mem.push(0u8);
            i += 1;
            assert(data_mem@ =~= zeroes(i as nat));
        }
        Some(BfJitVM { code_mem: jit_mem, data_mem })
    }

    /// The code buffer.
    pub fn code_mem(&self) -> (region: &JitMemory)
        ensures
            region@ == self.code(),
    {
        &self.code_mem
    }

    /// The tape.
    pub fn data_mem(&self) -> (cells: &[u8])
        ensures
            cells@ == self.tape(),
    {
        self.data_mem.as_slice()
    }

    /// The tape cell at `index`.
    pub fn cell(&self, index: usize) -> (value: u8)
        requires
            index < self.tape().len(),
        ensures
            value == self.tape()[index as int],
    {
        self.data_mem[index]
    }

    /// Stores `value` in the tape cell at `index`.
    pub fn set_cell(&mut self, index: usize, value: u8)
        requires
            index < old(self).tape().len(),
        ensures
            final(self).tape() == old(self).tape().update(index as int, value),
            final(self).code() == old(self).code(),
    {
        self.data_mem.set(index, value);
    }

    /// Sets every tape cell to zero, as each run begins. The code buffer is not
    /// touched, so whatever the tape held before, the routine starts from the
    /// same state.
    pub fn reset_tape(&mut self)
        ensures
            final(self).tape() == zeroes(old(self).tape().len()),
            final(self).code() == old(self).code(),
    {
        let cells: usize = self.data_mem.len();
        let mut i: usize = 0;
        while i < cells
            invariant
                i <= cells,
                self.data_mem@.len() == cells,
                self.code_mem == old(self).code_mem,
                forall|k: int| 0 <= k < i ==> self.data_mem@[k] == 0u8,
            decreases cells - i,
        {
            self.data_mem.set(i, 0u8);
            i += 1;
        }
        assert(self.data_mem@ =~= zeroes(cells as nat));
    }

    /// Validates `code` and sizes the routine it compiles to, writing nothing.
    pub fn check_before_compilation(&self, code: &[u8]) -> (verdict: Result<usize, CompileError>)
        ensures
            rejection(code@, self.code().len()) matches Some(reason) ==> verdict == Err::<
                usize,
                CompileError,
            >(reason),
            rejection(code@, self.code().len()) is None ==> verdict is Ok && verdict.unwrap()
                == required_size(code@),
    {
        let mut required: u128 = 0;
        let mut opened: usize = 0;
        let mut at: usize = 0;
        assert(code@.skip(0) =~= code@);
        while at < code.len()
            invariant
                at <= code@.len(),
                opened == depth(code@, at as int),
                opened <= at,
                required + encoded_size(code@.skip(at as int)) == encoded_size(code@),
                required <= 15 * at,
                forall|k: int|
                    0 <= k < at && code@[k] == CLOSE ==> #[trigger] depth(code@, k) > 0,
            decreases code@.len() - at,
        {
            let sym: u8 = code[at];
            proof {
                assert(code@.skip(at as int).skip(1) =~= code@.skip(at as int + 1));
                assert(code@.skip(at as int)[0] == sym);
            }
            if sym == RIGHT || sym == LEFT || sym == INCREMENT || sym == DECREMENT || sym
                == OUTPUT || sym == INPUT {
                required += template_size(sym) as u128;
            } else if sym == OPEN {
                opened += 1;
                required += template_size(sym) as u128;
            } else if sym == CLOSE {
                if opened == 0 {
                    return Err(CompileError::UnmatchedClose);
                }
                opened -= 1;
                required += template_size(sym) as u128;
            }
            at += 1;
        }
        if opened > 0 {
            return Err(CompileError::UnmatchedOpen);
        }
        // prologue
        required += (template_size(RESERVE) * STACK_ALIGNMENT_BLOCKS) as u128;
        required += template_size(LOAD_TAPE) as u128;
        // epilogue
        required += (template_size(RELEASE) * STACK_ALIGNMENT_BLOCKS) as u128;
        required += template_size(RETURN) as u128;
        let capacity: usize = self.code_mem.size();
        if required > capacity as u128 {
            return Err(CompileError::BufferTooSmall);
        }
        Ok(required as usize)
    }

    /// Compiles one nesting level of `code` at `begin_ip`: everything up to and
    /// including the `]` that closes the enclosing loop, or up to the end.
    /// Returns the position behind the code and the number of symbols taken.
    /// The code must fit between `begin_ip` and the end of the buffer, and
    /// within the reach of a 32-bit branch.
    pub fn compile_loop_body(&mut self, code: &[u8], begin_ip: usize, host: &HostAddrs) -> (end: (
        usize,
        usize,
    ))
        requires
            begin_ip + encoded_size(code@) <= old(self).code().len(),
            begin_ip + encoded_size(code@) <= 0x7fff_ffff,
        ensures
            final(self).code() == overwrite(
                old(self).code(),
                begin_ip as int,
                level(code@, *host),
            ),
            final(self).code().len() == old(self).code().len(),
            final(self).tape() == old(self).tape(),
            end.0 == begin_ip + level(code@, *host).len(),
            end.1 == consumed(code@),
            end.0 + encoded_size(code@.skip(end.1 as int)) == begin_ip + encoded_size(code@),
        decreases code@.len(),
    {
        let ghost before = self.code_mem@;
        let ghost mut emitted: Seq<u8> = Seq::empty();
        let mut ip: usize = begin_ip;
        let mut chars_processed: usize = 0;
        proof {
            assert(code@.skip(0) =~= code@);
            lemma_overwrite_len(before, begin_ip as int, emitted);
            assert(emitted + body(code@, *host) =~= body(code@, *host));
        }
        while chars_processed < code.len()
            invariant
                chars_processed <= code@.len(),
                before == old(self).code_mem@,
                begin_ip + encoded_size(code@) <= 0x7fff_ffff,
                self.code_mem@ == overwrite(before, begin_ip as int, emitted),
                self.code_mem@.len() == before.len(),
                self.data_mem@ == old(self).data_mem@,
                ip == begin_ip + emitted.len(),
                ip + encoded_size(code@.skip(chars_processed as int)) == begin_ip + encoded_size(
                    code@,
                ),
                begin_ip + encoded_size(code@) <= before.len(),
                body(code@, *host) == emitted + body(code@.skip(chars_processed as int), *host),
                stop(code@) == chars_processed + stop(code@.skip(chars_processed as int)),
            decreases code@.len() - chars_processed,
        {
            let ch: u8 = code[chars_processed];
            let ghost rest = code@.skip(chars_processed as int);
            proof {
                assert(rest.skip(1) =~= code@.skip(chars_processed as int + 1));
                assert(rest[0] == ch);
                assert(rest.len() == code@.len() - chars_processed);
            }
            if ch == RIGHT || ch == LEFT || ch == INCREMENT || ch == DECREMENT || ch == OUTPUT
                || ch == INPUT {
                proof {
                    lemma_head_plain(emitted, rest, *host);
                    lemma_overwrite_append(before, begin_ip as int, emitted, plain(ch, *host));
                }
                emit_plain(&mut self.code_mem, &mut ip, ch, host);
                proof {
                    emitted = emitted + plain(ch, *host);
                }
            } else if ch == OPEN {
                let unit = template_of(OPEN);
                proof {
                    lemma_head_open(emitted, rest, *host);
                    lemma_patched_len(OPEN, *host, 0);
                    lemma_overwrite_append(before, begin_ip as int, emitted, unit@);
                }
                self.code_mem.write_at(&mut ip, unit.as_slice());
                let body_ip: usize = ip;
                let inner = slice_subrange(code, chars_processed + 1, code.len());
                proof {
                    assert(inner@ =~= rest.skip(1));
                }
                let (new_ip, new_cp) = self.compile_loop_body(inner, body_ip, host);
                let offset: usize = new_ip - body_ip;
                proof {
                    let nested = level(inner@, *host);
                    lemma_patched_len(OPEN, *host, offset as int);
                    lemma_overwrite_append(before, begin_ip as int, emitted + unit@, nested);
                    lemma_guard_patch(
                        before,
                        begin_ip as int,
                        emitted,
                        OPEN,
                        nested,
                        offset as int,
                    );
                    assert(inner@.skip(new_cp as int) =~= code@.skip(
                        chars_processed + 1 + new_cp,
                    ));
                    assert(rest.skip(1 + new_cp) =~= code@.skip(chars_processed + 1 + new_cp));
                    emitted = (emitted + guard(OPEN, offset as int)) + nested;
                }
                self.code_mem.patch_addr_i32(body_ip - (GUARD_LEN - BRANCH_SITE), offset as i32);
                ip = new_ip;
                chars_processed += new_cp;
            } else if ch == CLOSE {
                let unit = template_of(CLOSE);
                proof {
                    lemma_head_close(rest, *host);
                    lemma_patched_len(CLOSE, *host, -(emitted.len() + 9));
                    lemma_overwrite_append(before, begin_ip as int, emitted, unit@);
                }
                self.code_mem.write_at(&mut ip, unit.as_slice());
                let offset: usize = ip - begin_ip;
                proof {
                    lemma_guard_patch(
                        before,
                        begin_ip as int,
                        emitted,
                        CLOSE,
                        Seq::empty(),
                        -(offset as int),
                    );
                    assert(body(code@, *host) =~= emitted);
                    assert((emitted + unit@) + Seq::<u8>::empty() =~= emitted + unit@);
                    assert((emitted + guard(CLOSE, -(offset as int))) + Seq::<u8>::empty()
                        =~= level(code@, *host));
                }
                self.code_mem.patch_addr_i32(ip - (GUARD_LEN - BRANCH_SITE), -(offset as i32));
                return (ip, chars_processed + 1);
            } else {
                proof {
                    lemma_head_comment(rest, *host);
                }
            }
            chars_processed += 1;
        }
        proof {
            lemma_head_close(code@.skip(chars_processed as int), *host);
            assert(body(code@, *host) =~= emitted);
        }
        (ip, chars_processed)
    }

    /// Writes the routine for `code` into the code buffer from its first byte
    /// on, and returns the routine's length.
    fn compile_helper(&mut self, code: &[u8], host: &HostAddrs) -> (end: usize)
        requires
            balanced(code@),
            required_size(code@) <= old(self).code().len(),
            required_size(code@) <= 0x7fff_ffff,
        ensures
            final(self).code() == overwrite(old(self).code(), 0, program(code@, *host)),
            final(self).code().len() == old(self).code().len(),
            final(self).tape() == old(self).tape(),
            end == program(code@, *host).len(),
            end == required_size(code@),
    {
        let ghost before = self.code_mem@;
        let mut ip: usize = 0;
        emit_repeated(&mut self.code_mem, &mut ip, RESERVE, STACK_ALIGNMENT_BLOCKS);
        let load = template_of(LOAD_TAPE);
        let load_ip: usize = ip;
        self.code_mem.write_at(&mut ip, load.as_slice());
        self.code_mem.patch_addr_u64(load_ip + LOAD_TAPE_SITE, host.tape);
        proof {
            let slots = repeated(template(RESERVE), 5);
            lemma_overwrite_len(load@, LOAD_TAPE_SITE as int, u64_le(host.tape));
            lemma_overwrite_patch(
                overwrite(before, 0, slots),
                5,
                load@,
                LOAD_TAPE_SITE as int,
                u64_le(host.tape),
            );
            lemma_overwrite_append(
                before,
                0,
                slots,
                overwrite(load@, LOAD_TAPE_SITE as int, u64_le(host.tape)),
            );
            assert(self.code_mem@ == overwrite(before, 0, prologue(*host)));
        }
        let (body_end, chars_processed) = self.compile_loop_body(code, ip, host);
        let mut ip: usize = body_end;
        proof {
            lemma_balanced_is_closed(code@, *host);
            assert(chars_processed == code@.len());
            lemma_overwrite_append(before, 0, prologue(*host), level(code@, *host));
        }
        let ghost compiled = self.code_mem@;
        let release_ip: usize = ip;
        emit_repeated(&mut self.code_mem, &mut ip, RELEASE, STACK_ALIGNMENT_BLOCKS);
        let ret = template_of(RETURN);
        self.code_mem.write_at(&mut ip, ret.as_slice());
        proof {
            lemma_overwrite_append(
                compiled,
                release_ip as int,
                repeated(template(RELEASE), 5),
                ret@,
            );
            lemma_overwrite_append(
                before,
                0,
                prologue(*host) + level(code@, *host),
                epilogue(),
            );
        }
        ip
    }

    /// Compiles `code` into the code buffer and says whether it did. A text
    /// that is refused leaves the machine as it was. Branches reach 2^31 - 1
    /// bytes, so a text that is not refused must need no more than that.
    pub fn compile(&mut self, code: &str, host: &HostAddrs) -> (compiled: bool)
        requires
            rejection(code.spec_bytes(), old(self).code().len()) is None ==> required_size(
                code.spec_bytes(),
            ) <= 0x7fff_ffff,
        ensures
            compiled == (rejection(code.spec_bytes(), old(self).code().len()) is None),
            compiled ==> program(code.spec_bytes(), *host).len() == required_size(
                code.spec_bytes(),
            ),
            final(self).code().len() == old(self).code().len(),
            compiled ==> final(self).code() == overwrite(
                old(self).code(),
                0,
                program(code.spec_bytes(), *host),
            ),
            !compiled ==> final(self).code() == old(self).code(),
            final(self).tape() == old(self).tape(),
    {
        let code_bytes = code.as_bytes();
        match self.check_before_compilation(code_bytes) {
            Err(_) => false,
            Ok(_) => {
                self.compile_helper(code_bytes, host);
                true
            },
        }
    }
}

} // verus!
