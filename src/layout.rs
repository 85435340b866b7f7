//! Where the hidden bits live in an RGBA buffer: the capacity of a buffer and
//! the walk over its colour channels, which skips every fourth (alpha) byte.

use vstd::prelude::*;

verus! {

/// Width, in bits, of the length header that precedes the payload.
pub const HEADER_BITS: usize = 32;

/// The fewest bytes a buffer needs before an attempt to read the header:
/// whole pixels enough for `HEADER_BITS` colour channels, rounded up.
pub const MIN_HEADER_BYTES: usize = (HEADER_BITS + 2) / 3 * 4;

/// Byte `p` of the buffer is the alpha channel of its pixel.
pub open spec fn is_alpha(p: int) -> bool {
    (p + 1) % 4 == 0
}

/// Bits that a buffer of `len` bytes can carry: three per whole pixel.
pub open spec fn available_bits(len: int) -> int {
    (len / 4) * 3
}

/// Position in the buffer of the colour channel numbered `k` (counting from 0).
pub open spec fn channel_pos(k: int) -> int {
    (k / 3) * 4 + k % 3
}

/// Number of the colour channel at a non-alpha position `p`.
pub open spec fn channel_index(p: int) -> int {
    (p / 4) * 3 + p % 4
}

/// Channel positions are colour bytes, and numbering them back gives the channel.
pub proof fn lemma_channel_pos(k: int)
    requires
        k >= 0,
    ensures
        !is_alpha(channel_pos(k)),
        channel_index(channel_pos(k)) == k,
        channel_pos(k) >= k,
{
}

/// Every colour byte is the position of the channel that numbers it.
pub proof fn lemma_channel_index(p: int)
    requires
        p >= 0,
        !is_alpha(p),
    ensures
        channel_pos(channel_index(p)) == p,
        channel_index(p) >= 0,
{
}

/// A channel below the capacity lies inside the buffer.
pub proof fn lemma_channel_in_buffer(k: int, len: int)
    requires
        0 <= k < available_bits(len),
        len >= 0,
    ensures
        channel_pos(k) < len,
{
    assert(k / 3 < len / 4);
    assert((k / 3) * 4 + 4 <= (len / 4) * 4) by (nonlinear_arith)
        requires
            k / 3 < len / 4,
    ;
}

/// Bits that a buffer of `len` bytes can carry.
pub fn capacity_bits(len: usize) -> (r: usize)
    ensures
        r as int == available_bits(len as int),
{
    (len / 4) * 3
}

/// Where the cursor stands before it looks for channel `k`: just past channel `k - 1`.
pub open spec fn cursor_start(k: int) -> int {
    if k == 0 {
        0
    } else {
        channel_pos(k - 1) + 1
    }
}

/// A forward walk over the colour channels of a buffer of fixed length.
pub struct ChannelCursor {
    pos: usize,
    len: usize,
    taken: Ghost<nat>,
}

impl ChannelCursor {
    /// Channels handed out so far.
    pub closed spec fn taken(&self) -> nat {
        self.taken@
    }

    /// Length of the buffer walked.
    pub closed spec fn len(&self) -> nat {
        self.len as nat
    }

    /// The position stands at the start of the next channel, or on it.
    pub closed spec fn wf(&self) -> bool {
        let k = self.taken@ as int;
        self.pos as int == cursor_start(k) || self.pos as int == channel_pos(k)
    }

    /// A cursor before the first channel of a buffer of `len` bytes.
    pub fn new(len: usize) -> (r: Self)
        ensures
            r.wf(),
            r.taken() == 0,
            r.len() == len,
    {
        ChannelCursor { pos: 0, len, taken: Ghost(0) }
    }

    /// The position of the next colour channel, or `None` once the buffer is used up.
    pub fn next(&mut self) -> (r: Option<usize>)
        requires
            old(self).wf(),
        ensures
            final(self).wf(),
            final(self).len() == old(self).len(),
            channel_pos(old(self).taken() as int) < old(self).len() ==> r == Some(
                channel_pos(old(self).taken() as int) as usize,
            ) && final(self).taken() == old(self).taken() + 1,
            channel_pos(old(self).taken() as int) >= old(self).len() ==> r is None
                && final(self).taken() == old(self).taken(),
    {
        let ghost k = self.taken@ as int;
        let ghost len = self.len;
        proof {
            lemma_channel_pos(k);
            if k > 0 {
                lemma_channel_pos(k - 1);
            }
        }
        while self.pos < self.len && (self.pos + 1) % 4 == 0
            invariant
                k == self.taken@,
                len == self.len,
                self.pos as int == cursor_start(k) || (self.pos as int == channel_pos(k)
                    && self.pos as int == cursor_start(k) + 1),
                !is_alpha(channel_pos(k)),
                channel_pos(k) == cursor_start(k) || (channel_pos(k) == cursor_start(k) + 1
                    && is_alpha(cursor_start(k))),
            decreases self.len - self.pos,
        {
            self.pos = self.pos + 1;
        }
        if self.pos >= self.len {
            None
        } else {
            let p = self.pos;
            self.pos = self.pos + 1;
            self.taken = Ghost(self.taken@ + 1);
            Some(p)
        }
    }
}

} // verus!
