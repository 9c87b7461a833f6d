//! The code buffer: a fixed-capacity byte region that is written front to back
//! through a cursor and patched in place afterwards.

use vstd::prelude::*;

verus! {

/// `mem` with `bytes` laid over it from index `at` on; everything else is kept.
#[verifier::opaque]
pub open spec fn overwrite(mem: Seq<u8>, at: int, bytes: Seq<u8>) -> Seq<u8> {
    Seq::new(
        mem.len(),
        |i: int|
            if at <= i < at + bytes.len() {
                bytes[i - at]
            } else {
                mem[i]
            },
    )
}

/// The eight bytes of `v`, least significant first.
pub open spec fn u64_le(v: u64) -> Seq<u8> {
    seq![
        (v % 256) as u8,
        (v / 0x100 % 256) as u8,
        (v / 0x1_0000 % 256) as u8,
        (v / 0x100_0000 % 256) as u8,
        (v / 0x1_0000_0000 % 256) as u8,
        (v / 0x100_0000_0000 % 256) as u8,
        (v / 0x1_0000_0000_0000 % 256) as u8,
        (v / 0x100_0000_0000_0000 % 256) as u8,
    ]
}

/// The value of `v`, a signed 32-bit number, read as an unsigned one in two's
/// complement.
pub open spec fn twos_complement(v: int) -> int {
    if v >= 0 {
        v
    } else {
        v + 0x1_0000_0000
    }
}

/// The four bytes of `v` in two's complement, least significant first.
pub open spec fn i32_le(v: int) -> Seq<u8> {
    let u = twos_complement(v);
    seq![
        (u % 256) as u8,
        (u / 0x100 % 256) as u8,
        (u / 0x1_0000 % 256) as u8,
        (u / 0x100_0000 % 256) as u8,
    ]
}

/// A region of zeroes of the given length.
pub open spec fn zeroes(len: nat) -> Seq<u8> {
    Seq::new(len, |i: int| 0u8)
}

/// A byte buffer of fixed capacity that holds generated machine code.
pub struct JitMemory {
    mem: Vec<u8>,
}

impl View for JitMemory {
    type V = Seq<u8>;

    closed spec fn view(&self) -> Seq<u8> {
        self.mem@
    }
}

impl JitMemory {
    /// A zero-filled region of `bytes` bytes, provided the platform has granted
    /// write and execute permission for it; `None` when it has not.
    pub fn allocate(bytes: usize, granted: bool) -> (region: Option<JitMemory>)
        ensures
            granted ==> region is Some && region.unwrap()@ == zeroes(bytes as nat),
            !granted ==> region is None,
    {
        if !granted {
            return None;
        }
        let mut mem: Vec<u8> = Vec::new();
        let mut i: usize = 0;
        while i < bytes
            invariant
                i <= bytes,
                mem@ == zeroes(i as nat),
            decreases bytes - i,
        {
            mem.push(0u8);
            i += 1;
            assert(mem@ =~= zeroes(i as nat));
        }
        Some(JitMemory { mem })
    }

    /// Copies `data` into the region at `*offset` and moves `*offset` past it.
    pub fn write_at(&mut self, offset: &mut usize, data: &[u8])
        requires
            *old(offset) + data@.len() <= old(self)@.len(),
        ensures
            final(self)@ == overwrite(old(self)@, *old(offset) as int, data@),
            final(self)@.len() == old(self)@.len(),
            *final(offset) == *old(offset) + data@.len(),
    {
        reveal(overwrite);
        let start: usize = *offset;
        let capacity: usize = self.mem.len();
        let ghost before = self.mem@;
        let mut i: usize = 0;
        while i < data.len()
            invariant
                i <= data@.len(),
                start + data@.len() <= before.len() == capacity,
                self.mem@.len() == capacity,
                self.mem@ == overwrite(before, start as int, data@.take(i as int)),
            decreases data@.len() - i,
        {
            self.mem.set(start + i, data[i]);
            i += 1;
            reveal(overwrite);
            assert(self.mem@ =~= overwrite(before, start as int, data@.take(i as int)));
        }
        assert(data@.take(i as int) =~= data@);
        *offset = start + data.len();
    }

    /// Overwrites the eight bytes at `offset` with `addr`, least significant
    /// byte first.
    pub fn patch_addr_u64(&mut self, offset: usize, addr: u64)
        requires
            offset + 8 <= old(self)@.len(),
        ensures
            final(self)@ == overwrite(old(self)@, offset as int, u64_le(addr)),
            final(self)@.len() == old(self)@.len(),
    {
        reveal(overwrite);
        let ghost before = self.mem@;
        let capacity: usize = self.mem.len();
        self.mem.set(offset, (addr % 256) as u8);
        self.mem.set(offset + 1, (addr / 0x100 % 256) as u8);
        self.mem.set(offset + 2, (addr / 0x1_0000 % 256) as u8);
        self.mem.set(offset + 3, (addr / 0x100_0000 % 256) as u8);
        self.mem.set(offset + 4, (addr / 0x1_0000_0000 % 256) as u8);
        self.mem.set(offset + 5, (addr / 0x100_0000_0000 % 256) as u8);
        self.mem.set(offset + 6, (addr / 0x1_0000_0000_0000 % 256) as u8);
        self.mem.set(offset + 7, (addr / 0x100_0000_0000_0000 % 256) as u8);
        assert(self.mem@ =~= overwrite(before, offset as int, u64_le(addr)));
    }

    /// Overwrites the four bytes at `offset` with `addr` in two's complement,
    /// least significant byte first.
    pub fn patch_addr_i32(&mut self, offset: usize, addr: i32)
        requires
            offset + 4 <= old(self)@.len(),
        ensures
            final(self)@ == overwrite(old(self)@, offset as int, i32_le(addr as int)),
            final(self)@.len() == old(self)@.len(),
    {
        reveal(overwrite);
        let ghost before = self.mem@;
        let capacity: usize = self.mem.len();
        let u: u32 = if addr >= 0 {
            addr as u32
        } else {
            ((addr + 0x7fff_ffff) + 1) as u32 + 0x8000_0000u32
        };
        assert(u == twos_complement(addr as int));
        self.mem.set(offset, (u % 256) as u8);
        self.mem.set(offset + 1, (u / 0x100 % 256) as u8);
        self.mem.set(offset + 2, (u / 0x1_0000 % 256) as u8);
        self.mem.set(offset + 3, (u / 0x100_0000 % 256) as u8);
        assert(self.mem@ =~= overwrite(before, offset as int, i32_le(addr as int)));
    }

    /// The capacity of the region in bytes.
    pub fn size(&self) -> (capacity: usize)
        ensures
            capacity == self@.len(),
    {
        self.mem.len()
    }

    /// The byte at `index`.
    pub fn byte_at(&self, index: usize) -> (byte: u8)
        requires
            index < self@.len(),
        ensures
            byte == self@[index as int],
    {
        self.mem[index]
    }

    /// The whole region, for the caller that hands it to the processor.
    pub fn as_slice(&self) -> (bytes: &[u8])
        ensures
            bytes@ == self@,
    {
        self.mem.as_slice()
    }
}

/// Overwriting keeps the length, and overwriting with nothing keeps it all.
pub proof fn lemma_overwrite_len(mem: Seq<u8>, at: int, bytes: Seq<u8>)
    ensures
        overwrite(mem, at, bytes).len() == mem.len(),
        bytes.len() == 0 ==> overwrite(mem, at, bytes) == mem,
{
    reveal(overwrite);
    if bytes.len() == 0 {
        assert(overwrite(mem, at, bytes) =~= mem);
    }
}

/// Writing `second` right behind `first` is writing the two as one.
pub proof fn lemma_overwrite_append(mem: Seq<u8>, at: int, first: Seq<u8>, second: Seq<u8>)
    requires
        0 <= at,
        at + first.len() + second.len() <= mem.len(),
    ensures
        overwrite(overwrite(mem, at, first), at + first.len(), second) == overwrite(
            mem,
            at,
            first + second,
        ),
{
    reveal(overwrite);
    assert(overwrite(overwrite(mem, at, first), at + first.len(), second) =~= overwrite(
        mem,
        at,
        first + second,
    ));
}

/// Patching inside bytes that were written is writing the patched bytes.
pub proof fn lemma_overwrite_patch(
    mem: Seq<u8>,
    at: int,
    written: Seq<u8>,
    site: int,
    patch: Seq<u8>,
)
    requires
        0 <= at,
        at + written.len() <= mem.len(),
        0 <= site,
        site + patch.len() <= written.len(),
    ensures
        overwrite(overwrite(mem, at, written), at + site, patch) == overwrite(
            mem,
            at,
            overwrite(written, site, patch),
        ),
{
    reveal(overwrite);
    assert(overwrite(overwrite(mem, at, written), at + site, patch) =~= overwrite(
        mem,
        at,
        overwrite(written, site, patch),
    ));
}

} // verus!
