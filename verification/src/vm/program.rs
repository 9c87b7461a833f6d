//! What a source text means: when it is well formed, how many bytes it needs,
//! and the exact bytes of the routine it compiles to.

use vstd::prelude::*;
use crate::vm::encoder::{
    template, template_len, BRANCH_SITE, CLOSE, DECREMENT, INCREMENT, INPUT, INPUT_SITE, LEFT,
    LOAD_TAPE, LOAD_TAPE_SITE, OPEN, OUTPUT, OUTPUT_SITE, RELEASE, RESERVE, RETURN, RIGHT,
    STACK_ALIGNMENT_BLOCKS,
};
use crate::vm::jitmem::{i32_le, lemma_overwrite_len, overwrite, twos_complement, u64_le};

verus! {

/// The addresses in the host process that generated code refers to.
#[derive(Clone, Copy, Debug)]
pub struct HostAddrs {
    /// Base address of the tape.
    pub tape: u64,
    /// Address of the routine that reads one byte and returns it.
    pub read_byte: u64,
    /// Address of the routine that takes one byte and writes it.
    pub write_byte: u64,
}

/// Why a source text was not compiled.
#[derive(Clone, Copy, Debug, PartialEq, Eq, Structural)]
pub enum CompileError {
    /// A `]` stands where no loop is open.
    UnmatchedClose,
    /// The text ends with a loop still open.
    UnmatchedOpen,
    /// The routine needs more bytes than the code buffer has.
    BufferTooSmall,
}

/// The six instructions that are not loop guards.
pub open spec fn is_plain(sym: u8) -> bool {
    sym == RIGHT || sym == LEFT || sym == INCREMENT || sym == DECREMENT || sym == OUTPUT || sym
        == INPUT
}

/// The eight symbols of the language; every other byte is a comment.
pub open spec fn is_instruction(sym: u8) -> bool {
    is_plain(sym) || sym == OPEN || sym == CLOSE
}

/// Bytes that one source symbol accounts for.
pub open spec fn encoded_len(sym: u8) -> nat {
    if is_instruction(sym) {
        template_len(sym)
    } else {
        0
    }
}

/// Bytes that the symbols of `code` account for, taken together.
pub open spec fn encoded_size(code: Seq<u8>) -> nat
    decreases code.len(),
{
    if code.len() == 0 {
        0
    } else {
        encoded_len(code[0]) + encoded_size(code.skip(1))
    }
}

/// Length of the prologue: the stack slots and the load of the tape address.
pub open spec fn prologue_len() -> nat {
    15
}

/// Length of the epilogue: the release of the stack slots and the return.
pub open spec fn epilogue_len() -> nat {
    6
}

/// Bytes that the routine compiled from `code` occupies.
pub open spec fn required_size(code: Seq<u8>) -> nat {
    prologue_len() + encoded_size(code) + epilogue_len()
}

/// What a symbol does to the number of open loops.
pub open spec fn nesting_step(sym: u8) -> int {
    if sym == OPEN {
        1
    } else if sym == CLOSE {
        -1
    } else {
        0
    }
}

/// Opens less closes among the first `k` symbols of `code`.
pub open spec fn depth(code: Seq<u8>, k: int) -> int
    decreases k,
{
    if k <= 0 {
        0
    } else {
        depth(code, k - 1) + nesting_step(code[k - 1])
    }
}

/// Some `]` of `code` stands where every `[` before it is already closed.
pub open spec fn has_unmatched_close(code: Seq<u8>) -> bool {
    exists|k: int| 0 <= k < code.len() && code[k] == CLOSE && #[trigger] depth(code, k) <= 0
}

/// `code` ends with a loop still open.
pub open spec fn has_unmatched_open(code: Seq<u8>) -> bool {
    depth(code, code.len() as int) > 0
}

/// Every `]` closes a loop and every loop is closed.
pub open spec fn balanced(code: Seq<u8>) -> bool {
    !has_unmatched_close(code) && !has_unmatched_open(code)
}

/// The reason for which `code` is refused for a buffer of `capacity` bytes, if
/// there is one. A stray `]` is reported before an open loop, and both before
/// the size.
pub open spec fn rejection(code: Seq<u8>, capacity: nat) -> Option<CompileError> {
    if has_unmatched_close(code) {
        Some(CompileError::UnmatchedClose)
    } else if has_unmatched_open(code) {
        Some(CompileError::UnmatchedOpen)
    } else if required_size(code) > capacity {
        Some(CompileError::BufferTooSmall)
    } else {
        None
    }
}

/// The code of a plain instruction, addresses filled in.
pub open spec fn plain(sym: u8, host: HostAddrs) -> Seq<u8> {
    if sym == OUTPUT {
        overwrite(template(sym), OUTPUT_SITE as int, u64_le(host.write_byte))
    } else if sym == INPUT {
        overwrite(template(sym), INPUT_SITE as int, u64_le(host.read_byte))
    } else {
        template(sym)
    }
}

/// The code of a loop guard that branches by `rel` bytes.
pub open spec fn guard(sym: u8, rel: int) -> Seq<u8> {
    overwrite(template(sym), BRANCH_SITE as int, i32_le(rel))
}

/// Index of the first `]` of `code` that closes no loop opened in `code`; the
/// length of `code` where there is none.
#[verifier::opaque]
pub open spec fn stop(code: Seq<u8>) -> nat
    decreases code.len(),
{
    if code.len() == 0 || code[0] == CLOSE {
        0
    } else if code[0] == OPEN {
        let inner = code.skip(1);
        let j = stop(inner) as int;
        if 0 <= j < inner.len() {
            (j + 2 + stop(code.skip(j + 2))) as nat
        } else {
            code.len()
        }
    } else {
        1 + stop(code.skip(1))
    }
}

/// The code of the symbols of `code` before `stop(code)`. A loop becomes its
/// open guard, its body and its close guard; the open guard branches forward
/// over body and close guard, the close guard back by as much. A loop that the
/// text never closes gets no close guard.
#[verifier::opaque]
pub open spec fn body(code: Seq<u8>, host: HostAddrs) -> Seq<u8>
    decreases code.len(),
{
    if code.len() == 0 || code[0] == CLOSE {
        Seq::empty()
    } else if code[0] == OPEN {
        let inner = code.skip(1);
        let j = stop(inner) as int;
        let nested = body(inner, host);
        if 0 <= j < inner.len() {
            let span = nested.len() as int + 9;
            guard(OPEN, span) + nested + guard(CLOSE, -span) + body(code.skip(j + 2), host)
        } else {
            guard(OPEN, nested.len() as int) + nested
        }
    } else if is_plain(code[0]) {
        plain(code[0], host) + body(code.skip(1), host)
    } else {
        body(code.skip(1), host)
    }
}

/// Every loop that `code` opens before `stop(code)`, at any depth, is closed
/// within `code`.
pub open spec fn loops_closed(code: Seq<u8>) -> bool
    decreases code.len(),
{
    if code.len() == 0 || code[0] == CLOSE {
        true
    } else if code[0] == OPEN {
        let inner = code.skip(1);
        let j = stop(inner) as int;
        if 0 <= j < inner.len() {
            loops_closed(inner) && loops_closed(code.skip(j + 2))
        } else {
            false
        }
    } else {
        loops_closed(code.skip(1))
    }
}

/// The `[` at index `at` is never closed: behind it the nesting depth stays
/// above what it was in front of it.
pub open spec fn unclosed_at(code: Seq<u8>, at: int) -> bool {
    &&& 0 <= at < code.len()
    &&& code[at] == OPEN
    &&& forall|k: int| at < k <= code.len() ==> #[trigger] depth(code, k) > depth(code, at)
}

/// Offset, within the code of `code`, of the code of the symbol at index `at`.
pub open spec fn offset_of(code: Seq<u8>, at: int) -> nat {
    encoded_size(code.take(at))
}

/// `bytes` holds at `at` a loop guard whose branch site no longer holds the
/// zeroes of the template of `sym`.
#[verifier::opaque]
pub open spec fn site_resolved(bytes: Seq<u8>, at: int, sym: u8) -> bool {
    &&& 0 <= at
    &&& at + 9 <= bytes.len()
    &&& bytes.subrange(at + 5, at + 9) != template(sym).subrange(5, 9)
}

/// The code of one nesting level: the body, and the close guard of the
/// enclosing loop where `code` holds it.
pub open spec fn level(code: Seq<u8>, host: HostAddrs) -> Seq<u8> {
    let inner = body(code, host);
    if stop(code) < code.len() {
        inner + guard(CLOSE, -(inner.len() + 9))
    } else {
        inner
    }
}

/// Symbols that one nesting level takes: up to and including the `]` at
/// `stop(code)`.
pub open spec fn consumed(code: Seq<u8>) -> nat {
    if stop(code) < code.len() {
        stop(code) + 1
    } else {
        code.len()
    }
}

/// `unit`, `count` times over.
pub open spec fn repeated(unit: Seq<u8>, count: nat) -> Seq<u8>
    decreases count,
{
    if count == 0 {
        Seq::empty()
    } else {
        repeated(unit, (count - 1) as nat) + unit
    }
}

/// Reserves the stack slots and loads the tape's address.
pub open spec fn prologue(host: HostAddrs) -> Seq<u8> {
    repeated(template(RESERVE), STACK_ALIGNMENT_BLOCKS as nat) + overwrite(
        template(LOAD_TAPE),
        LOAD_TAPE_SITE as int,
        u64_le(host.tape),
    )
}

/// Releases the stack slots and returns.
pub open spec fn epilogue() -> Seq<u8> {
    repeated(template(RELEASE), STACK_ALIGNMENT_BLOCKS as nat) + template(RETURN)
}

/// The routine that `code` compiles to.
pub open spec fn program(code: Seq<u8>, host: HostAddrs) -> Seq<u8> {
    prologue(host) + level(code, host) + epilogue()
}

/// Filling in an address or an offset keeps a template's length.
pub proof fn lemma_patched_len(sym: u8, host: HostAddrs, rel: int)
    ensures
        plain(sym, host).len() == template_len(sym),
        guard(sym, rel).len() == template_len(sym),
{
    lemma_overwrite_len(template(sym), 5, u64_le(host.write_byte));
    lemma_overwrite_len(template(sym), 2, u64_le(host.read_byte));
    lemma_overwrite_len(template(sym), 5, i32_le(rel));
}

/// A plain instruction at the head of `rest` contributes its code and one
/// symbol.
pub proof fn lemma_head_plain(emitted: Seq<u8>, rest: Seq<u8>, host: HostAddrs)
    requires
        rest.len() > 0,
        is_plain(rest[0]),
    ensures
        emitted + body(rest, host) == (emitted + plain(rest[0], host)) + body(rest.skip(1), host),
        stop(rest) == 1 + stop(rest.skip(1)),
        encoded_size(rest) == plain(rest[0], host).len() + encoded_size(rest.skip(1)),
{
    reveal_with_fuel(body, 2);
    reveal_with_fuel(stop, 2);
    lemma_patched_len(rest[0], host, 0);
    assert(emitted + (plain(rest[0], host) + body(rest.skip(1), host)) =~= (emitted + plain(
        rest[0],
        host,
    )) + body(rest.skip(1), host));
}

/// A `]` at the head of `rest`, or the end of the text, ends the level.
pub proof fn lemma_head_close(rest: Seq<u8>, host: HostAddrs)
    requires
        rest.len() == 0 || rest[0] == CLOSE,
    ensures
        body(rest, host) == Seq::<u8>::empty(),
        stop(rest) == 0,
        rest.len() > 0 ==> encoded_size(rest) == 9 + encoded_size(rest.skip(1)),
{
    reveal_with_fuel(body, 2);
    reveal_with_fuel(stop, 2);
}

/// A comment byte at the head of `rest` contributes no code and one symbol.
pub proof fn lemma_head_comment(rest: Seq<u8>, host: HostAddrs)
    requires
        rest.len() > 0,
        !is_instruction(rest[0]),
    ensures
        body(rest, host) == body(rest.skip(1), host),
        stop(rest) == 1 + stop(rest.skip(1)),
        encoded_size(rest) == encoded_size(rest.skip(1)),
{
    reveal_with_fuel(body, 2);
    reveal_with_fuel(stop, 2);
}

/// A `[` at the head of `rest` contributes its guard and the nesting level
/// behind it, and takes the symbols of that level with it.
pub proof fn lemma_head_open(emitted: Seq<u8>, rest: Seq<u8>, host: HostAddrs)
    requires
        rest.len() > 0,
        rest[0] == OPEN,
    ensures
        1 + consumed(rest.skip(1)) <= rest.len(),
        emitted + body(rest, host) == ((emitted + guard(
            OPEN,
            level(rest.skip(1), host).len() as int,
        )) + level(rest.skip(1), host)) + body(rest.skip(1 + consumed(rest.skip(1)) as int), host),
        stop(rest) == 1 + consumed(rest.skip(1)) + stop(rest.skip(1 + consumed(rest.skip(1)) as int)),
        encoded_size(rest) == 9 + encoded_size(rest.skip(1)),
{
    reveal_with_fuel(body, 2);
    reveal_with_fuel(stop, 2);
    let inner = rest.skip(1);
    let j = stop(inner) as int;
    let nested = body(inner, host);
    let tail = body(rest.skip(1 + consumed(inner) as int), host);
    lemma_patched_len(CLOSE, host, -(nested.len() as int + 9));
    if 0 <= j < inner.len() {
        let span = nested.len() as int + 9;
        assert(level(inner, host).len() == span);
        assert(emitted + (guard(OPEN, span) + nested + guard(CLOSE, -span) + tail) =~= ((emitted
            + guard(OPEN, span)) + (nested + guard(CLOSE, -span))) + tail);
    } else {
        assert(rest.skip(1 + consumed(inner) as int).len() == 0);
        assert(emitted + (guard(OPEN, nested.len() as int) + nested) =~= ((emitted + guard(
            OPEN,
            nested.len() as int,
        )) + nested) + tail);
    }
}

/// Filling in the branch offset of a guard that stands behind `emitted` and
/// before `tail`.
pub proof fn lemma_guard_patch(
    mem: Seq<u8>,
    at: int,
    emitted: Seq<u8>,
    sym: u8,
    tail: Seq<u8>,
    rel: int,
)
    requires
        sym == OPEN || sym == CLOSE,
        0 <= at,
        at + emitted.len() + 9 + tail.len() <= mem.len(),
    ensures
        overwrite(
            overwrite(mem, at, (emitted + template(sym)) + tail),
            at + emitted.len() + 5,
            i32_le(rel),
        ) == overwrite(mem, at, (emitted + guard(sym, rel)) + tail),
{
    reveal(overwrite);
    assert(overwrite(
        overwrite(mem, at, (emitted + template(sym)) + tail),
        at + emitted.len() + 5,
        i32_le(rel),
    ) =~= overwrite(mem, at, (emitted + guard(sym, rel)) + tail));
}

/// The nesting depth inside a suffix is the depth in the whole text, counted
/// from where the suffix begins.
pub proof fn lemma_depth_skip(code: Seq<u8>, from: int, k: int)
    requires
        0 <= from,
        0 <= k,
        from + k <= code.len(),
    ensures
        depth(code.skip(from), k) == depth(code, from + k) - depth(code, from),
    decreases k,
{
    if k > 0 {
        lemma_depth_skip(code, from, k - 1);
        assert(code.skip(from)[k - 1] == code[from + k - 1]);
    }
}

/// How `stop` and `loops_closed` show in the nesting depth. Where the loops
/// are closed, the depth stays at or above zero up to `stop(code)`, is zero
/// there, and a `]` stands there unless the text has ended. Where a loop stays
/// open, the depth never falls below zero and ends above it.
pub proof fn lemma_nesting(code: Seq<u8>)
    ensures
        stop(code) <= code.len(),
        loops_closed(code) ==> depth(code, stop(code) as int) == 0,
        loops_closed(code) && stop(code) < code.len() ==> code[stop(code) as int] == CLOSE,
        loops_closed(code) ==> forall|k: int|
            0 <= k <= stop(code) ==> #[trigger] depth(code, k) >= 0,
        !loops_closed(code) ==> depth(code, code.len() as int) >= 1,
        !loops_closed(code) ==> forall|k: int|
            0 <= k <= code.len() ==> #[trigger] depth(code, k) >= 0,
    decreases code.len(),
{
    reveal_with_fuel(stop, 2);
    reveal_with_fuel(depth, 2);
    if code.len() == 0 || code[0] == CLOSE {
    } else {
        let inner = code.skip(1);
        let j = stop(inner) as int;
        let up = nesting_step(code[0]);
        lemma_nesting(inner);
        assert(depth(code, 1) == up);
        assert forall|k: int| 0 <= k <= inner.len() implies depth(code, k + 1) == up
            + #[trigger] depth(inner, k) by {
            lemma_depth_skip(code, 1, k);
        }
        if code[0] != OPEN {
            assert forall|k: int| 0 <= k <= code.len() && (loops_closed(code) ==> k <= stop(
                code,
            )) implies #[trigger] depth(code, k) >= 0 by {
                if k > 0 {
                    assert(depth(inner, k - 1) >= 0);
                }
            }
            assert(depth(code, inner.len() as int + 1) == depth(inner, inner.len() as int));
            assert(depth(code, j + 1) == depth(inner, j));
        } else if loops_closed(inner) && j < inner.len() {
            let tail = code.skip(j + 2);
            lemma_nesting(tail);
            let t = stop(tail) as int;
            assert(inner[j] == code[j + 1]);
            assert(depth(code, j + 1) == 1 + depth(inner, j));
            assert(depth(code, j + 2) == depth(code, j + 1) + nesting_step(code[j + 1]));
            assert forall|k: int| 0 <= k <= tail.len() implies depth(code, j + 2 + k)
                == #[trigger] depth(tail, k) by {
                lemma_depth_skip(code, j + 2, k);
            }
            assert forall|k: int| 0 <= k <= code.len() && (loops_closed(code) ==> k <= stop(
                code,
            )) implies #[trigger] depth(code, k) >= 0 by {
                if k == 0 {
                } else if k <= j + 1 {
                    assert(depth(inner, k - 1) >= 0);
                } else {
                    assert(depth(tail, k - j - 2) >= 0);
                }
            }
            assert(depth(code, j + 2 + t) == depth(tail, t));
            assert(depth(code, j + 2 + tail.len() as int) == depth(tail, tail.len() as int));
            if t < tail.len() {
                assert(tail[t] == code[j + 2 + t]);
            }
        } else {
            if j < inner.len() {
                lemma_nesting(code.skip(j + 2));
            }
            assert forall|k: int| 0 <= k <= code.len() implies #[trigger] depth(code, k)
                >= 0 by {
                if k > 0 {
                    assert(depth(inner, k - 1) >= 0);
                }
            }
            assert(depth(code, inner.len() as int + 1) == 1 + depth(inner, inner.len() as int));
        }
    }
}

/// A text without a stray `]` never has more closes than opens behind it.
pub proof fn lemma_depth_stays_up(code: Seq<u8>, k: int)
    requires
        !has_unmatched_close(code),
        0 <= k <= code.len(),
    ensures
        depth(code, k) >= 0,
    decreases k,
{
    if k > 0 {
        lemma_depth_stays_up(code, k - 1);
        if code[k - 1] == CLOSE {
            assert(depth(code, k - 1) > 0);
        }
    }
}

/// In a balanced text every loop is closed and the top level runs to the end
/// of the text: its code is the body alone, with no close guard behind it.
pub proof fn lemma_balanced_is_closed(code: Seq<u8>, host: HostAddrs)
    requires
        balanced(code),
    ensures
        loops_closed(code),
        stop(code) == code.len(),
        consumed(code) == code.len(),
        level(code, host) == body(code, host),
{
    lemma_nesting(code);
    if loops_closed(code) && stop(code) < code.len() {
        let at = stop(code) as int;
        assert(code[at] == CLOSE && depth(code, at) <= 0);
    }
}

/// The step of `lemma_body_size` for a text that begins with `[`, from what
/// holds of the nesting level behind the `[` and of the text behind that level.
proof fn lemma_body_size_open(code: Seq<u8>, host: HostAddrs)
    requires
        code.len() > 0,
        code[0] == OPEN,
        sized(code.skip(1), host),
        sized(code.skip(1 + consumed(code.skip(1)) as int), host),
    ensures
        sized(code, host),
{
    let none = Seq::<u8>::empty();
    let inner = code.skip(1);
    let taken = consumed(inner) as int;
    let tail = code.skip(1 + taken);
    lemma_head_open(none, code, host);
    lemma_patched_len(OPEN, host, level(inner, host).len() as int);
    lemma_patched_len(CLOSE, host, -(body(inner, host).len() as int + 9));
    assert(none + body(code, host) =~= body(code, host));
    assert(tail.skip(stop(tail) as int) =~= code.skip(stop(code) as int));
    if stop(tail) < tail.len() {
        assert(tail[stop(tail) as int] == code[stop(code) as int]);
    }
    if stop(inner) < inner.len() {
        let closing = inner.skip(stop(inner) as int);
        assert(closing[0] == CLOSE);
        lemma_head_close(closing, host);
        assert(closing.skip(1) =~= tail);
    } else {
        assert(inner.skip(stop(inner) as int).len() == 0);
    }
}

/// `stop(code)` lies within the text, on a `]` unless it is the end, and the
/// code before it is as long as the symbols before it account for.
pub open spec fn sized(code: Seq<u8>, host: HostAddrs) -> bool {
    &&& stop(code) <= code.len()
    &&& stop(code) < code.len() ==> code[stop(code) as int] == CLOSE
    &&& body(code, host).len() + encoded_size(code.skip(stop(code) as int)) == encoded_size(code)
}

/// `sized` holds of every text.
pub proof fn lemma_body_size(code: Seq<u8>, host: HostAddrs)
    ensures
        sized(code, host),
    decreases code.len(),
{
    if code.len() == 0 || code[0] == CLOSE {
        lemma_head_close(code, host);
        assert(code.skip(0) =~= code);
    } else {
        let inner = code.skip(1);
        lemma_body_size(inner, host);
        if code[0] == OPEN {
            lemma_head_open(Seq::empty(), code, host);
            lemma_body_size(code.skip(1 + consumed(inner) as int), host);
            lemma_body_size_open(code, host);
        } else {
            if is_plain(code[0]) {
                lemma_head_plain(Seq::empty(), code, host);
                assert(Seq::<u8>::empty() + body(code, host) =~= body(code, host));
            } else {
                lemma_head_comment(code, host);
            }
            assert(inner.skip(stop(inner) as int) =~= code.skip(stop(code) as int));
            if stop(inner) < inner.len() {
                assert(inner[stop(inner) as int] == code[stop(code) as int]);
            }
        }
    }
}

/// The routine of a balanced text is exactly as long as the size that the
/// validation counts for it.
pub proof fn lemma_program_size(code: Seq<u8>, host: HostAddrs)
    requires
        balanced(code),
    ensures
        program(code, host).len() == required_size(code),
{
    reveal_with_fuel(repeated, 6);
    lemma_balanced_is_closed(code, host);
    lemma_body_size(code, host);
    lemma_overwrite_len(template(LOAD_TAPE), LOAD_TAPE_SITE as int, u64_le(host.tape));
    assert(code.skip(code.len() as int).len() == 0);
}

/// The symbols before index `upto` account for those before `from` and those
/// from there on.
pub proof fn lemma_offset_split(code: Seq<u8>, from: int, upto: int)
    requires
        0 <= from <= upto <= code.len(),
    ensures
        offset_of(code, upto) == offset_of(code, from) + offset_of(code.skip(from), upto - from),
    decreases from,
{
    if from == 0 {
        assert(code.skip(0) =~= code);
        assert(code.take(0).len() == 0);
    } else {
        let rest = code.skip(1);
        lemma_offset_split(rest, from - 1, upto - 1);
        assert(code.take(upto).skip(1) =~= rest.take(upto - 1));
        assert(code.take(from).skip(1) =~= rest.take(from - 1));
        assert(rest.skip(from - 1) =~= code.skip(from));
        assert(code.take(upto)[0] == code[0]);
        assert(code.take(from)[0] == code[0]);
    }
}

/// A resolved guard stays resolved, further back, when bytes are put in front
/// of it and behind it.
pub proof fn lemma_site_embedded(front: Seq<u8>, mid: Seq<u8>, back: Seq<u8>, at: int, sym: u8)
    requires
        site_resolved(mid, at, sym),
    ensures
        site_resolved((front + mid) + back, front.len() + at, sym),
{
    reveal(site_resolved);
    assert(((front + mid) + back).subrange(front.len() + at + 5, front.len() + at + 9)
        =~= mid.subrange(at + 5, at + 9));
}

/// The code of a text that begins with a closed loop, piece by piece: the
/// open guard, the loop's body, the close guard, and what follows the loop.
proof fn lemma_open_layout(code: Seq<u8>, host: HostAddrs)
    requires
        code.len() > 0,
        code[0] == OPEN,
        loops_closed(code),
    ensures
        stop(code.skip(1)) + 2 <= code.len(),
        code[stop(code.skip(1)) as int + 1] == CLOSE,
        stop(code) == stop(code.skip(1)) + 2 + stop(code.skip(stop(code.skip(1)) as int + 2)),
        body(code, host) == ((guard(OPEN, body(code.skip(1), host).len() as int + 9) + body(
            code.skip(1),
            host,
        )) + guard(CLOSE, -(body(code.skip(1), host).len() as int + 9))) + body(
            code.skip(stop(code.skip(1)) as int + 2),
            host,
        ),
        body(code.skip(1), host).len() == offset_of(code.skip(1), stop(code.skip(1)) as int),
        offset_of(code, 1) == 9,
        offset_of(code, stop(code.skip(1)) as int + 2) == body(code.skip(1), host).len() + 18,
        encoded_size(code) == offset_of(code, stop(code.skip(1)) as int + 2) + encoded_size(
            code.skip(stop(code.skip(1)) as int + 2),
        ),
{
    reveal_with_fuel(body, 2);
    reveal_with_fuel(stop, 2);
    let none = Seq::<u8>::empty();
    let inner = code.skip(1);
    let j = stop(inner) as int;
    lemma_body_size(inner, host);
    assert(inner[j] == code[j + 1]);
    assert(encoded_size(none) == 0);
    // the body of the loop ends where its `]` stands
    lemma_offset_split(inner, j, inner.len() as int);
    assert(inner.take(inner.len() as int) =~= inner);
    assert(inner.skip(j).take(inner.len() - j) =~= inner.skip(j));
    // the `[` accounts for one guard, and so does the `]`
    assert(code.take(1).skip(1) =~= none);
    assert(code.take(1)[0] == OPEN);
    lemma_offset_split(inner, j, j + 1);
    assert(inner.skip(j).take(1).skip(1) =~= none);
    assert(inner.skip(j).take(1)[0] == CLOSE);
    lemma_offset_split(code, 1, j + 2);
    lemma_offset_split(code, j + 2, code.len() as int);
    assert(code.take(code.len() as int) =~= code);
    assert(code.skip(j + 2).take(code.len() - j - 2) =~= code.skip(j + 2));
}

/// Four pieces in a row, grouped so that each in turn stands in the middle.
proof fn lemma_regroup(a: Seq<u8>, b: Seq<u8>, c: Seq<u8>, d: Seq<u8>)
    ensures
        ((a + b) + c) + d == (Seq::<u8>::empty() + a) + ((b + c) + d),
        ((a + b) + c) + d == (a + b) + (c + d),
        ((a + b) + c) + d == ((((a + b) + c) + d) + Seq::<u8>::empty()),
{
    let none = Seq::<u8>::empty();
    assert(((a + b) + c) + d =~= (none + a) + ((b + c) + d));
    assert(((a + b) + c) + d =~= (a + b) + (c + d));
    assert(((a + b) + c) + d =~= ((((a + b) + c) + d) + none));
}

/// The step of `lemma_body_sites` for a text that begins with a closed loop,
/// from what holds inside the loop and behind it.
proof fn lemma_body_sites_open(code: Seq<u8>, host: HostAddrs, at: int)
    requires
        code.len() > 0,
        code[0] == OPEN,
        loops_closed(code),
        encoded_size(code) <= 0x7fff_ffff,
        0 <= at < code.len(),
        at < stop(code),
        code[at] == OPEN || code[at] == CLOSE,
        1 <= at <= stop(code.skip(1)) ==> site_resolved(
            body(code.skip(1), host),
            offset_of(code.skip(1), at - 1) as int,
            code[at],
        ),
        at >= stop(code.skip(1)) + 2 ==> site_resolved(
            body(code.skip(stop(code.skip(1)) as int + 2), host),
            offset_of(code.skip(stop(code.skip(1)) as int + 2), at - stop(code.skip(1)) - 2) as int,
            code[at],
        ),
    ensures
        site_resolved(body(code, host), offset_of(code, at) as int, code[at]),
{
    let none = Seq::<u8>::empty();
    let inner = code.skip(1);
    let j = stop(inner) as int;
    let nested = body(inner, host);
    let span = nested.len() as int + 9;
    let open = guard(OPEN, span);
    let close = guard(CLOSE, -span);
    let behind = body(code.skip(j + 2), host);
    lemma_open_layout(code, host);
    lemma_regroup(open, nested, close, behind);
    if at == 0 {
        lemma_guard_resolved(OPEN, span);
        assert(code.take(0).len() == 0);
        lemma_site_embedded(none, open, (nested + close) + behind, 0, OPEN);
    } else if at <= j {
        lemma_offset_split(code, 1, at);
        lemma_patched_len(OPEN, host, span);
        lemma_site_embedded(
            open,
            nested,
            close + behind,
            offset_of(inner, at - 1) as int,
            code[at],
        );
    } else if at == j + 1 {
        lemma_offset_split(code, 1, at);
        lemma_guard_resolved(CLOSE, -span);
        lemma_patched_len(OPEN, host, span);
        lemma_site_embedded(open + nested, close, behind, 0, CLOSE);
    } else {
        lemma_offset_split(code, j + 2, at);
        lemma_patched_len(OPEN, host, span);
        lemma_patched_len(CLOSE, host, -span);
        lemma_site_embedded(
            (open + nested) + close,
            behind,
            none,
            offset_of(code.skip(j + 2), at - j - 2) as int,
            code[at],
        );
    }
}

/// In the code of a text whose loops are closed, every guard before
/// `stop(code)` stands where the symbols before it put it, with its branch
/// site filled in.
pub proof fn lemma_body_sites(code: Seq<u8>, host: HostAddrs, at: int)
    requires
        loops_closed(code),
        encoded_size(code) <= 0x7fff_ffff,
        0 <= at < code.len(),
        at < stop(code),
        code[at] == OPEN || code[at] == CLOSE,
    ensures
        site_resolved(body(code, host), offset_of(code, at) as int, code[at]),
    decreases code.len(),
{
    let none = Seq::<u8>::empty();
    lemma_body_size(code, host);
    if code.len() == 0 || code[0] == CLOSE {
        lemma_head_close(code, host);
    } else {
        let inner = code.skip(1);
        lemma_body_size(inner, host);
        if code[0] == OPEN {
            let j = stop(inner) as int;
            lemma_head_open(none, code, host);
            if 1 <= at <= j {
                assert(inner[at - 1] == code[at]);
                lemma_body_sites(inner, host, at - 1);
            } else if at >= j + 2 {
                let tail = code.skip(j + 2);
                lemma_body_size(tail, host);
                assert(tail[at - j - 2] == code[at]);
                lemma_open_layout(code, host);
                lemma_body_sites(tail, host, at - j - 2);
            }
            lemma_body_sites_open(code, host, at);
        } else {
            if is_plain(code[0]) {
                lemma_head_plain(none, code, host);
            } else {
                lemma_head_comment(code, host);
            }
            assert(inner[at - 1] == code[at]);
            lemma_body_sites(inner, host, at - 1);
            lemma_offset_split(code, 1, at);
            assert(code.take(1).skip(1) =~= none);
            assert(code.take(1)[0] == code[0]);
            assert(encoded_size(none) == 0);
            if is_plain(code[0]) {
                lemma_patched_len(code[0], host, 0);
                lemma_site_embedded(
                    plain(code[0], host),
                    body(inner, host),
                    none,
                    offset_of(inner, at - 1) as int,
                    code[at],
                );
                assert(body(code, host) =~= (plain(code[0], host) + body(inner, host)) + none);
            }
        }
    }
}

/// In the routine of a balanced text every loop guard stands where the
/// prologue and the symbols before it put it, and its branch site no longer
/// holds the zeroes of the template.
pub proof fn lemma_branches_resolved(code: Seq<u8>, host: HostAddrs, at: int)
    requires
        balanced(code),
        required_size(code) <= 0x7fff_ffff,
        0 <= at < code.len(),
        code[at] == OPEN || code[at] == CLOSE,
    ensures
        site_resolved(
            program(code, host),
            (prologue_len() + offset_of(code, at)) as int,
            code[at],
        ),
{
    lemma_balanced_is_closed(code, host);
    lemma_body_sites(code, host, at);
    lemma_program_size(code, host);
    lemma_body_size(code, host);
    assert(code.skip(code.len() as int).len() == 0);
    reveal_with_fuel(repeated, 6);
    lemma_overwrite_len(template(LOAD_TAPE), LOAD_TAPE_SITE as int, u64_le(host.tape));
    lemma_site_embedded(
        prologue(host),
        body(code, host),
        epilogue(),
        offset_of(code, at) as int,
        code[at],
    );
}

/// A `]` in front of which every `[` is already closed gets the text refused
/// as `UnmatchedClose`, whatever else the text holds and whatever the buffer's
/// size.
pub proof fn lemma_stray_close_refused(code: Seq<u8>, at: int, capacity: nat)
    requires
        0 <= at < code.len(),
        code[at] == CLOSE,
        depth(code, at) <= 0,
    ensures
        rejection(code, capacity) == Some(CompileError::UnmatchedClose),
{
}

/// A `[` that is never closed, in a text without a stray `]`, gets the text
/// refused as `UnmatchedOpen`, whatever the buffer's size.
pub proof fn lemma_open_loop_refused(code: Seq<u8>, at: int, capacity: nat)
    requires
        unclosed_at(code, at),
        !has_unmatched_close(code),
    ensures
        rejection(code, capacity) == Some(CompileError::UnmatchedOpen),
{
    lemma_depth_stays_up(code, at);
    assert(depth(code, code.len() as int) > depth(code, at));
}

/// A balanced text that fits is not refused.
pub proof fn lemma_balanced_fits(code: Seq<u8>, capacity: nat)
    requires
        balanced(code),
        required_size(code) <= capacity,
    ensures
        rejection(code, capacity) is None,
{
}

/// The branch site of a guard holds the offset it was built with, and for an
/// offset other than zero that differs from the zeroes of the template.
pub proof fn lemma_guard_resolved(sym: u8, rel: int)
    requires
        sym == OPEN || sym == CLOSE,
        -0x8000_0000 <= rel <= 0x7fff_ffff,
        rel != 0,
    ensures
        guard(sym, rel).len() == 9,
        guard(sym, rel).subrange(5, 9) == i32_le(rel),
        i32_le(rel) != template(sym).subrange(5, 9),
        site_resolved(guard(sym, rel), 0, sym),
{
    reveal(overwrite);
    reveal(site_resolved);
    assert(guard(sym, rel).subrange(5, 9) =~= i32_le(rel));
    let u = twos_complement(rel);
    let zero = template(sym).subrange(5, 9);
    assert(zero[0] == 0 && zero[1] == 0 && zero[2] == 0 && zero[3] == 0);
    if i32_le(rel) == zero {
        assert(i32_le(rel)[0] == 0 && i32_le(rel)[1] == 0 && i32_le(rel)[2] == 0 && i32_le(
            rel,
        )[3] == 0);
        assert(u % 256 == 0 && u / 0x100 % 256 == 0 && u / 0x1_0000 % 256 == 0 && u
            / 0x100_0000 % 256 == 0);
        assert(u == 0);
    }
}

} // verus!
