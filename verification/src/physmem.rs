//! Physical memory: a run of bytes that starts at a base address.

use crate::bytes::{byte_of, le_u64, lemma_le_u64_depends_on_prefix, lemma_le_u64_of_bytes, u64_le_bytes};
use vstd::prelude::*;

verus! {

/// `s` with the bytes of `t` written over it from offset `off` on.
pub open spec fn splice(s: Seq<u8>, off: int, t: Seq<u8>) -> Seq<u8> {
    Seq::new(
        s.len(),
        |i: int|
            if off <= i < off + t.len() {
                t[i - off]
            } else {
                s[i]
            },
    )
}

/// `n` copies of `val`.
pub open spec fn repeat(val: u8, n: int) -> Seq<u8> {
    Seq::new(n as nat, |i: int| val)
}

/// The installed RAM: `bytes[i]` is the byte at physical address `base + i`.
pub struct PhysMemory {
    pub base: u64,
    pub bytes: Vec<u8>,
}

impl PhysMemory {
    /// Every address of the RAM, and every offset into it, is representable.
    pub open spec fn wf(&self) -> bool {
        &&& self.base + self.bytes@.len() <= u64::MAX
        &&& self.bytes@.len() <= usize::MAX
    }

    /// One past the last address of the RAM.
    pub open spec fn end(&self) -> int {
        self.base + self.bytes@.len()
    }

    /// Whether the `len` bytes from `addr` on all lie in the RAM.
    pub open spec fn contains(&self, addr: int, len: int) -> bool {
        self.base <= addr && 0 <= len && addr + len <= self.end()
    }

    /// The byte at physical address `addr`.
    pub open spec fn byte(&self, addr: int) -> u8
        recommends
            self.contains(addr, 1),
    {
        self.bytes@[addr - self.base]
    }

    /// The 64-bit word stored little-endian at physical address `addr`.
    pub open spec fn word(&self, addr: int) -> u64
        recommends
            self.contains(addr, 8),
    {
        le_u64(self.bytes@.subrange(addr - self.base, addr - self.base + 8))
    }

    /// Whether `self` and `other` are the same RAM with the same content
    /// everywhere but in `[lo, hi)`.
    pub open spec fn same_outside(&self, other: &PhysMemory, lo: int, hi: int) -> bool {
        &&& self.base == other.base
        &&& self.bytes@.len() == other.bytes@.len()
        &&& forall|a: int|
            self.contains(a, 1) && !(lo <= a < hi) ==> #[trigger] self.byte(a) == other.byte(a)
    }

    /// RAM of `size` zero bytes at `base`.
    pub fn new(base: u64, size: usize) -> (m: PhysMemory)
        requires
            base + size <= u64::MAX,
        ensures
            m.wf(),
            m.base == base,
            m.bytes@ == repeat(0, size as int),
    {
        let mut bytes: Vec<u8> = Vec::new();
        let mut i: usize = 0;
        while i < size
            invariant
                i <= size,
                bytes@ == repeat(0, i as int),
            decreases size - i,
        {
            bytes.push(0);
            i += 1;
        }
        PhysMemory { base, bytes }
    }

    /// Number of bytes of RAM.
    pub fn size(&self) -> (n: usize)
        ensures
            n == self.bytes@.len(),
    {
        self.bytes.len()
    }

    /// Whether the `len` bytes from `addr` on all lie in the RAM.
    pub fn in_range(&self, addr: u64, len: u64) -> (r: bool)
        requires
            self.wf(),
        ensures
            r == self.contains(addr as int, len as int),
    {
        addr >= self.base && len <= self.bytes.len() as u64 && addr - self.base
            <= self.bytes.len() as u64 - len
    }

    /// Reads the byte at `addr`.
    pub fn read_u8(&self, addr: u64) -> (v: u8)
        requires
            self.wf(),
            self.contains(addr as int, 1),
        ensures
            v == self.byte(addr as int),
    {
        self.bytes[(addr - self.base) as usize]
    }

    /// Writes the byte `v` at `addr`.
    pub fn write_u8(&mut self, addr: u64, v: u8)
        requires
            old(self).wf(),
            old(self).contains(addr as int, 1),
        ensures
            final(self).wf(),
            final(self).base == old(self).base,
            final(self).bytes@ == old(self).bytes@.update(addr - old(self).base, v),
    {
        self.bytes.set((addr - self.base) as usize, v);
    }

    /// Reads the word stored little-endian at `addr`.
    pub fn read_u64(&self, addr: u64) -> (v: u64)
        requires
            self.wf(),
            self.contains(addr as int, 8),
        ensures
            v == self.word(addr as int),
    {
        let off = (addr - self.base) as usize;
        crate::bytes::read_u64_le(self.bytes.as_slice(), off)
    }

    /// Writes the word `v` little-endian at `addr`.
    pub fn write_u64(&mut self, addr: u64, v: u64)
        requires
            old(self).wf(),
            old(self).contains(addr as int, 8),
        ensures
            final(self).wf(),
            final(self).base == old(self).base,
            final(self).bytes@ == splice(old(self).bytes@, addr - old(self).base, u64_le_bytes(v)),
            final(self).word(addr as int) == v,
            final(self).same_outside(old(self), addr as int, addr + 8),
    {
        let off = (addr - self.base) as usize;
        let mut k: usize = 0;
        while k < 8
            invariant
                k <= 8,
                off + 8 <= self.bytes@.len(),
                off == addr - self.base,
                self.base == old(self).base,
                self.bytes@.len() == old(self).bytes@.len(),
                self.bytes@.len() <= usize::MAX,
                forall|i: int|
                    0 <= i < self.bytes@.len() ==> self.bytes@[i] == if off <= i < off + k {
                        byte_of(v, i - off)
                    } else {
                        old(self).bytes@[i]
                    },
            decreases 8 - k,
        {
            let b = #[verifier::truncate]
            (((v >> (8 * k as u64)) & 0xff) as u8);
            self.bytes.set(off + k, b);
            k += 1;
        }
        proof {
            assert(self.bytes@ =~= splice(old(self).bytes@, off as int, u64_le_bytes(v)));
            lemma_le_u64_of_bytes(v);
            lemma_le_u64_depends_on_prefix(
                self.bytes@.subrange(off as int, off + 8),
                u64_le_bytes(v),
            );
        }
    }

    /// Sets the `len` bytes from `addr` on to `val`.
    pub fn fill(&mut self, addr: u64, val: u8, len: u64)
        requires
            old(self).wf(),
            old(self).contains(addr as int, len as int),
        ensures
            final(self).wf(),
            final(self).base == old(self).base,
            final(self).bytes@ == splice(
                old(self).bytes@,
                addr - old(self).base,
                repeat(val, len as int),
            ),
            final(self).same_outside(old(self), addr as int, addr + len),
            forall|a: int| addr <= a < addr + len ==> #[trigger] final(self).byte(a) == val,
    {
        let off = (addr - self.base) as usize;
        let n = len as usize;
        let mut k: usize = 0;
        while k < n
            invariant
                k <= n,
                n == len,
                off + n <= self.bytes@.len(),
                off == addr - self.base,
                self.base == old(self).base,
                self.bytes@.len() == old(self).bytes@.len(),
                self.bytes@.len() <= usize::MAX,
                forall|i: int|
                    0 <= i < self.bytes@.len() ==> self.bytes@[i] == if off <= i < off + k {
                        val
                    } else {
                        old(self).bytes@[i]
                    },
            decreases n - k,
        {
            self.bytes.set(off + k, val);
            k += 1;
        }
        proof {
            assert(self.bytes@ =~= splice(old(self).bytes@, off as int, repeat(val, len as int)));
        }
    }

    /// Copies `data` to the addresses from `addr` on.
    pub fn copy_in(&mut self, addr: u64, data: &[u8])
        requires
            old(self).wf(),
            old(self).contains(addr as int, data@.len() as int),
        ensures
            final(self).wf(),
            final(self).base == old(self).base,
            final(self).bytes@ == splice(old(self).bytes@, addr - old(self).base, data@),
            final(self).same_outside(old(self), addr as int, addr + data@.len()),
            forall|i: int| 0 <= i < data@.len() ==> #[trigger] final(self).byte(addr + i) == data@[i],
    {
        let off = (addr - self.base) as usize;
        let n = data.len();
        let mut k: usize = 0;
        while k < n
            invariant
                k <= n,
                n == data@.len(),
                off + n <= self.bytes@.len(),
                off == addr - self.base,
                self.base == old(self).base,
                self.bytes@.len() == old(self).bytes@.len(),
                self.bytes@.len() <= usize::MAX,
                forall|i: int|
                    0 <= i < self.bytes@.len() ==> self.bytes@[i] == if off <= i < off + k {
                        data@[i - off]
                    } else {
                        old(self).bytes@[i]
                    },
            decreases n - k,
        {
            self.bytes.set(off + k, data[k]);
            k += 1;
        }
        proof {
            assert(self.bytes@ =~= splice(old(self).bytes@, off as int, data@));
        }
    }
}

impl PhysMemory {
    /// Writes the words `words` little-endian to the addresses from `addr` on.
    pub fn store_words(&mut self, addr: u64, words: &Vec<u64>)
        requires
            old(self).wf(),
            old(self).contains(addr as int, 8 * (words@.len() as int)),
        ensures
            final(self).wf(),
            final(self).base == old(self).base,
            final(self).bytes@.len() == old(self).bytes@.len(),
            forall|i: int|
                0 <= i < words@.len() ==> #[trigger] final(self).word(addr + 8 * i) == words@[i],
            final(self).same_outside(old(self), addr as int, addr + 8 * words@.len()),
    {
        let n = words.len();
        let mut k: usize = 0;
        while k < n
            invariant
                k <= n,
                n == words@.len(),
                self.wf(),
                self.base == old(self).base,
                self.bytes@.len() == old(self).bytes@.len(),
                old(self).contains(addr as int, 8 * n),
                forall|i: int| 0 <= i < k ==> #[trigger] self.word(addr + 8 * i) == words@[i],
                self.same_outside(old(self), addr as int, addr + 8 * n),
            decreases n - k,
        {
            let ghost before = *self;
            self.write_u64(addr + 8 * (k as u64), words[k]);
            proof {
                assert forall|i: int| 0 <= i < k + 1 implies #[trigger] self.word(addr + 8 * i)
                    == words@[i] by {
                    if i < k {
                        lemma_word_same(self, &before, addr + 8 * i);
                    }
                }
                assert forall|a: int|
                    self.contains(a, 1) && !(addr <= a < addr + 8 * n) implies #[trigger] self.byte(
                    a,
                ) == old(self).byte(a) by {
                    assert(self.byte(a) == before.byte(a));
                }
            }
            k += 1;
        }
    }

    /// Reads the `n` words stored little-endian at the addresses from `addr` on.
    pub fn load_words(&self, addr: u64, n: usize) -> (words: Vec<u64>)
        requires
            self.wf(),
            self.contains(addr as int, 8 * n),
        ensures
            words@.len() == n,
            forall|i: int| 0 <= i < n ==> #[trigger] words@[i] == self.word(addr + 8 * i),
    {
        let mut words: Vec<u64> = Vec::new();
        let mut k: usize = 0;
        while k < n
            invariant
                k <= n,
                self.wf(),
                self.contains(addr as int, 8 * n),
                words@.len() == k,
                forall|i: int| 0 <= i < k ==> #[trigger] words@[i] == self.word(addr + 8 * i),
            decreases n - k,
        {
            words.push(self.read_u64(addr + 8 * (k as u64)));
            k += 1;
        }
        words
    }

    /// Reads the `len` bytes at the addresses from `addr` on.
    pub fn read_bytes(&self, addr: u64, len: usize) -> (data: Vec<u8>)
        requires
            self.wf(),
            self.contains(addr as int, len as int),
        ensures
            data@.len() == len,
            forall|i: int| 0 <= i < len ==> #[trigger] data@[i] == self.byte(addr + i),
    {
        let off = (addr - self.base) as usize;
        let mut data: Vec<u8> = Vec::new();
        let mut k: usize = 0;
        while k < len
            invariant
                k <= len,
                self.wf(),
                off == addr - self.base,
                off + len <= self.bytes@.len(),
                data@.len() == k,
                forall|i: int| 0 <= i < k ==> #[trigger] data@[i] == self.byte(addr + i),
            decreases len - k,
        {
            data.push(self.bytes[off + k]);
            k += 1;
        }
        data
    }
}

/// Sets the `count` bytes of `mem` from `dst` on to `val`.
pub fn memset(mem: &mut PhysMemory, dst: u64, val: u8, count: u64)
    requires
        old(mem).wf(),
        old(mem).contains(dst as int, count as int),
    ensures
        final(mem).wf(),
        final(mem).base == old(mem).base,
        final(mem).bytes@ == splice(old(mem).bytes@, dst - old(mem).base, repeat(val, count as int)),
{
    mem.fill(dst, val, count);
}

/// A word reads the same in two memories that agree on its eight bytes.
pub proof fn lemma_word_same(m1: &PhysMemory, m2: &PhysMemory, addr: int)
    requires
        m1.base == m2.base,
        m1.bytes@.len() == m2.bytes@.len(),
        m1.contains(addr, 8),
        forall|a: int| addr <= a < addr + 8 ==> m1.byte(a) == m2.byte(a),
    ensures
        m1.word(addr) == m2.word(addr),
{
    let s = m1.bytes@.subrange(addr - m1.base, addr - m1.base + 8);
    let t = m2.bytes@.subrange(addr - m2.base, addr - m2.base + 8);
    assert forall|k: int| 0 <= k < 8 implies s[k] == t[k] by {
        assert(m1.byte(addr + k) == m2.byte(addr + k));
    }
    lemma_le_u64_depends_on_prefix(s, t);
}

/// A word of zero bytes is zero.
pub proof fn lemma_word_of_zeros(m: &PhysMemory, addr: int)
    requires
        m.contains(addr, 8),
        forall|a: int| addr <= a < addr + 8 ==> m.byte(a) == 0,
    ensures
        m.word(addr) == 0,
{
    let s = m.bytes@.subrange(addr - m.base, addr - m.base + 8);
    assert forall|k: int| 0 <= k < 8 implies s[k] == 0 by {
        assert(m.byte(addr + k) == 0);
    }
    assert(0u64 | 0u64 << 8 | 0u64 << 16 | 0u64 << 24 | 0u64 << 32 | 0u64 << 40 | 0u64 << 48 | 0u64
        << 56 == 0) by (bit_vector);
}

} // verus!
