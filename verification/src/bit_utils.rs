use vstd::prelude::*;

verus! {

/// A forward-only cursor over an owned byte buffer.
///
/// The decoder never seeks backwards; every operation either returns the
/// next bytes or skips them, advancing `cursor_pos`.
pub struct ByteReader {
    pub content: Vec<u8>,
    pub cursor_pos: u32,
}

/// The unsigned value of four bytes read in big-endian order.
pub open spec fn be_u32_of(b: Seq<u8>) -> int
    recommends
        b.len() == 4,
{
    b[0] * 0x100_0000 + b[1] * 0x1_0000 + b[2] * 0x100 + b[3]
}

/// The high four bits of a byte.
pub open spec fn high_nibble(b: u8) -> u8 {
    b / 16
}

/// The low four bits of a byte.
pub open spec fn low_nibble(b: u8) -> u8 {
    b % 16
}

impl ByteReader {
    /// The cursor never points past the end of the buffer, and the buffer
    /// is small enough for the 32-bit cursor to address every byte.
    pub open spec fn wf(self) -> bool {
        self.cursor_pos <= self.content@.len() <= u32::MAX
    }

    /// How many bytes remain in front of the cursor.
    pub open spec fn spec_remaining(self) -> int {
        self.content@.len() - self.cursor_pos
    }

    pub fn remaining(&self) -> (r: u32)
        requires
            self.wf(),
        ensures
            r == self.spec_remaining(),
    {
        self.content.len() as u32 - self.cursor_pos
    }

    /// Returns the next `n` bytes and advances the cursor past them.
    #[verifier::loop_isolation(false)]
    pub fn read_next(&mut self, n: u32) -> (r: Vec<u8>)
        requires
            old(self).wf(),
            n <= old(self).spec_remaining(),
        ensures
            final(self).wf(),
            final(self).content == old(self).content,
            final(self).cursor_pos == old(self).cursor_pos + n,
            r@ == old(self).content@.subrange(
                old(self).cursor_pos as int,
                old(self).cursor_pos + n,
            ),
    {
        let mut r: Vec<u8> = Vec::new();
        let mut i: u32 = 0;
        while i < n
            invariant
                i <= n,
                r@ == self.content@.subrange(self.cursor_pos as int, self.cursor_pos + i),
            decreases n - i,
        {
            r.push(self.content[(self.cursor_pos + i) as usize]);
            i = i + 1;
            proof {
                assert(r@ =~= self.content@.subrange(
                    self.cursor_pos as int,
                    self.cursor_pos + i,
                ));
            }
        }
        self.cursor_pos = self.cursor_pos + n;
        r
    }

    /// Advances the cursor by `n` bytes without returning them.
    pub fn skip_next(&mut self, n: u32)
        requires
            old(self).wf(),
            n <= old(self).spec_remaining(),
        ensures
            final(self).wf(),
            final(self).content == old(self).content,
            final(self).cursor_pos == old(self).cursor_pos + n,
    {
        self.cursor_pos = self.cursor_pos + n;
    }

    /// Reads a 4-byte big-endian unsigned integer.
    pub fn read_4_byte_value(&mut self) -> (r: u32)
        requires
            old(self).wf(),
            4 <= old(self).spec_remaining(),
        ensures
            final(self).wf(),
            final(self).content == old(self).content,
            final(self).cursor_pos == old(self).cursor_pos + 4,
            r == be_u32_of(old(self).content@.subrange(
                old(self).cursor_pos as int,
                old(self).cursor_pos + 4,
            )),
    {
        let p = self.cursor_pos as usize;
        let b0 = self.content[p] as u32;
        let b1 = self.content[p + 1] as u32;
        let b2 = self.content[p + 2] as u32;
        let b3 = self.content[p + 3] as u32;
        self.cursor_pos = self.cursor_pos + 4;
        b0 * 0x100_0000 + b1 * 0x1_0000 + b2 * 0x100 + b3
    }

    /// Reads a single byte.
    pub fn read_next_byte(&mut self) -> (r: u8)
        requires
            old(self).wf(),
            1 <= old(self).spec_remaining(),
        ensures
            final(self).wf(),
            final(self).content == old(self).content,
            final(self).cursor_pos == old(self).cursor_pos + 1,
            r == old(self).content@[old(self).cursor_pos as int],
    {
        let b = self.content[self.cursor_pos as usize];
        self.cursor_pos = self.cursor_pos + 1;
        b
    }
}

/// Splits a byte into its two 4-bit samples, high nibble first.
pub fn byte_to_4bits(byte: u8) -> (r: Vec<u8>)
    ensures
        r@.len() == 2,
        r@[0] == high_nibble(byte),
        r@[1] == low_nibble(byte),
{
    let first = (byte >> 4) & 0x0f;
    let second = byte & 0x0f;
    proof {
        assert((byte >> 4) & 0x0f == byte / 16) by (bit_vector);
        assert(byte & 0x0f == byte % 16) by (bit_vector);
    }
    vec![first, second]
}

} // verus!
