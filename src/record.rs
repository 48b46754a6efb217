use vstd::prelude::*;

use crate::bytes::{be_bytes, be_round_trip, be_u64, u64_to_u8x8, u8x8_to_u64};

verus! {

/// The eight bytes of slot `i` of `b`, with zeros past its end.
pub open spec fn slot_bytes(b: Seq<u8>, i: int) -> Seq<u8> {
    Seq::new(8, |j: int| if 8 * i + j < b.len() { b[8 * i + j] } else { 0u8 })
}

/// The number stored in slot `i` of `b`.
pub open spec fn slot_value(b: Seq<u8>, i: int) -> u64 {
    be_u64(slot_bytes(b, i))
}

/// `b` after writing `num` into slot `i`: the file grows, zero-filled, to
/// reach the end of the slot when it is shorter.
pub open spec fn with_slot(b: Seq<u8>, i: int, num: u64) -> Seq<u8> {
    Seq::new(
        if b.len() > 8 * i + 8 { b.len() } else { (8 * i + 8) as nat },
        |j: int|
            if 8 * i <= j < 8 * i + 8 {
                be_bytes(num)[j - 8 * i]
            } else if j < b.len() {
                b[j]
            } else {
                0u8
            },
    )
}

/// A list of `u64` numbers kept in a file, eight big-endian bytes each,
/// held as the bytes of the file.  The segment ledger of an HLS task uses
/// slot 0 for the number of segments, slot 1 for the number of completed
/// segments and slot 2 for the byte offset reached in the output.
pub struct ByteArrayRecorder {
    inner: Vec<u8>,
}

impl ByteArrayRecorder {
    pub closed spec fn view(&self) -> Seq<u8> {
        self.inner@
    }

    /// A recorder whose file holds `bytes` (empty for a file just created).
    pub fn new(bytes: Vec<u8>) -> (r: ByteArrayRecorder)
        ensures
            r@ == bytes@,
    {
        ByteArrayRecorder { inner: bytes }
    }

    /// The bytes of the file.
    pub fn as_bytes(&self) -> (r: &Vec<u8>)
        ensures
            r@ == self@,
    {
        &self.inner
    }

    /// Read the `index`-th number; bytes past the end of the file read as zero.
    pub fn index(&self, index: u64) -> (r: u64)
        ensures
            r == slot_value(self@, index as int),
    {
        let len = self.inner.len();
        let mut a: [u8; 8] = [0u8; 8];
        let mut j: usize = 0;
        while j < 8
            invariant
                j <= 8,
                len == self@.len(),
                forall|t: int| 0 <= t < j ==> a@[t] == slot_bytes(self@, index as int)[t],
                a@.len() == 8,
            decreases 8 - j,
        {
            let pos: u128 = 8 * (index as u128) + j as u128;
            let v: u8 = if pos < len as u128 { self.inner[pos as usize] } else { 0 };
            a[j] = v;
            j = j + 1;
        }
        proof {
            assert(a@ =~= slot_bytes(self@, index as int));
        }
        u8x8_to_u64(&a)
    }

    /// Write `num` as the `index`-th number; the caller writes the eight
    /// bytes of `u64_to_u8x8(num)` at offset `8 * index` of the file.
    pub fn write(&mut self, index: u64, num: u64)
        requires
            8 * index + 8 <= usize::MAX,
        ensures
            final(self)@ == with_slot(old(self)@, index as int, num),
            slot_value(final(self)@, index as int) == num,
            forall|k: int| 0 <= k && k != index ==> #[trigger] slot_value(final(self)@, k) == slot_value(old(self)@, k),
    {
        let bytes = u64_to_u8x8(num);
        let start: usize = 8 * (index as usize);
        let old_len = self.inner.len();
        let new_len = if old_len > start + 8 { old_len } else { start + 8 };
        let mut out: Vec<u8> = Vec::new();
        let mut j: usize = 0;
        let ghost target = with_slot(old(self)@, index as int, num);
        while j < new_len
            invariant
                j <= new_len,
                new_len == target.len(),
                old_len == old(self)@.len(),
                self@ == old(self)@,
                start == 8 * index,
                bytes@ == be_bytes(num),
                target == with_slot(old(self)@, index as int, num),
                out@ =~= target.take(j as int),
            decreases new_len - j,
        {
            let v = if start <= j && j < start + 8 {
                bytes[j - start]
            } else if j < old_len {
                self.inner[j]
            } else {
                0u8
            };
            out.push(v);
            j = j + 1;
        }
        proof {
            assert(out@ =~= target);
            be_round_trip(num);
            assert(slot_bytes(target, index as int) =~= be_bytes(num));
            assert forall|k: int| 0 <= k && k != index implies #[trigger] slot_value(target, k) == slot_value(old(self)@, k) by {
                assert(slot_bytes(target, k) =~= slot_bytes(old(self)@, k));
            }
        }
        self.inner = out;
    }
}

} // verus!
