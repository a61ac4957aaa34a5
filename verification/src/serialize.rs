//! The capability of a value to report its exact encoded size and to write
//! itself at the front of a byte region, and the values that have it: the
//! fixed-width integers and the homogeneous sequence.
use crate::little_endian::{i16_bits, i16_le, u16_le, u32_le};
use vstd::prelude::*;

verus! {

/// The region after `bytes` has been written at its front: `bytes`, then
/// what the region held beyond them.
pub open spec fn overwritten(region: Seq<u8>, bytes: Seq<u8>) -> Seq<u8> {
    bytes + region.skip(bytes.len() as int)
}

/// The part of `buffer` from `start` up to `end`, borrowed for writing.
/// What is written through it lands in `buffer` at `start`; the bytes of
/// `buffer` before `start` and from `end` on stay as they are.
pub fn region(buffer: &mut [u8], start: usize, end: usize) -> (part: &mut [u8])
    requires
        start <= end <= old(buffer)@.len(),
    ensures
        part@ == old(buffer)@.subrange(start as int, end as int),
        final(buffer)@ == old(buffer)@.take(start as int) + final(part)@ + old(buffer)@.skip(
            end as int,
        ),
{
    let (_, tail) = buffer.split_at_mut(start);
    let ghost rest = tail@;
    let (part, _) = tail.split_at_mut(end - start);
    proof {
        assert(old(buffer)@.subrange(0, start as int) =~= old(buffer)@.take(start as int));
        assert(rest.subrange(end - start, rest.len() as int) =~= old(buffer)@.skip(end as int));
        assert(rest.subrange(0, end - start) =~= old(buffer)@.subrange(start as int, end as int));
    }
    part
}

/// Copies `source` over `target`, which has the same length.
pub fn copy_bytes(target: &mut [u8], source: &[u8])
    requires
        old(target)@.len() == source@.len(),
    ensures
        final(target)@ == source@,
{
    let mut i: usize = 0;
    while i < source.len()
        invariant
            i <= source@.len(),
            target@.len() == source@.len(),
            target@.take(i as int) == source@.take(i as int),
        decreases source@.len() - i,
    {
        target[i] = source[i];
        i += 1;
        assert(target@.take(i as int) =~= source@.take(i as int));
    }
    assert(target@ =~= target@.take(i as int));
    assert(source@ =~= source@.take(i as int));
}

/// A value with a binary encoding of known size.
pub trait BinarySerialize {
    /// The bytes that stand for the value.
    spec fn encoding(&self) -> Seq<u8>;

    /// The size that the value reports for its encoding.
    spec fn encoded_len(&self) -> nat;

    /// Whether the value can be written: its reported size is a machine
    /// size and is the true length of its encoding.
    spec fn encodable(&self) -> bool;

    /// The encoding of an encodable value has exactly the reported size.
    proof fn lemma_encoding_len(&self)
        requires
            self.encodable(),
        ensures
            self.encoded_len() <= usize::MAX,
            self.encoding().len() == self.encoded_len(),
    ;

    /// The number of bytes that `serialize` needs.
    fn needed_size(&self) -> (size: usize)
        requires
            self.encoded_len() <= usize::MAX,
        ensures
            size == self.encoded_len(),
    ;

    /// Writes the encoding at the front of `buffer` and leaves the rest of
    /// it as it was. Fails, with `buffer` untouched, exactly when `buffer`
    /// is shorter than the needed size.
    fn serialize(&self, buffer: &mut [u8]) -> (result: Result<(), ()>)
        requires
            self.encodable(),
        ensures
            result.is_ok() <==> self.encoded_len() <= old(buffer)@.len(),
            result.is_ok() ==> final(buffer)@ == overwritten(old(buffer)@, self.encoding()),
            result.is_err() ==> final(buffer)@ == old(buffer)@,
    ;
}

impl BinarySerialize for u8 {
    open spec fn encoding(&self) -> Seq<u8> {
        seq![*self]
    }

    open spec fn encoded_len(&self) -> nat {
        1
    }

    open spec fn encodable(&self) -> bool {
        true
    }

    proof fn lemma_encoding_len(&self) {
    }

    fn needed_size(&self) -> (size: usize) {
        1
    }

    fn serialize(&self, buffer: &mut [u8]) -> (result: Result<(), ()>) {
        if buffer.len() < self.needed_size() {
            return Err(());
        }
        buffer[0] = *self;
        assert(buffer@ =~= overwritten(old(buffer)@, self.encoding()));
        Ok(())
    }
}

impl BinarySerialize for u16 {
    open spec fn encoding(&self) -> Seq<u8> {
        u16_le(*self)
    }

    open spec fn encoded_len(&self) -> nat {
        2
    }

    open spec fn encodable(&self) -> bool {
        true
    }

    proof fn lemma_encoding_len(&self) {
    }

    fn needed_size(&self) -> (size: usize) {
        2
    }

    fn serialize(&self, buffer: &mut [u8]) -> (result: Result<(), ()>) {
        if buffer.len() < self.needed_size() {
            return Err(());
        }
        let x: u16 = *self;
        buffer[0] = (x % 256) as u8;
        buffer[1] = (x / 256) as u8;
        assert(buffer@ =~= overwritten(old(buffer)@, self.encoding()));
        Ok(())
    }
}

impl BinarySerialize for u32 {
    open spec fn encoding(&self) -> Seq<u8> {
        u32_le(*self)
    }

    open spec fn encoded_len(&self) -> nat {
        4
    }

    open spec fn encodable(&self) -> bool {
        true
    }

    proof fn lemma_encoding_len(&self) {
    }

    fn needed_size(&self) -> (size: usize) {
        4
    }

    fn serialize(&self, buffer: &mut [u8]) -> (result: Result<(), ()>) {
        if buffer.len() < self.needed_size() {
            return Err(());
        }
        let x: u32 = *self;
        buffer[0] = (x % 256) as u8;
        buffer[1] = (x / 256 % 256) as u8;
        buffer[2] = (x / 65536 % 256) as u8;
        buffer[3] = (x / 16777216) as u8;
        assert(buffer@ =~= overwritten(old(buffer)@, self.encoding()));
        Ok(())
    }
}

impl BinarySerialize for i16 {
    open spec fn encoding(&self) -> Seq<u8> {
        i16_le(*self)
    }

    open spec fn encoded_len(&self) -> nat {
        2
    }

    open spec fn encodable(&self) -> bool {
        true
    }

    proof fn lemma_encoding_len(&self) {
    }

    fn needed_size(&self) -> (size: usize) {
        2
    }

    fn serialize(&self, buffer: &mut [u8]) -> (result: Result<(), ()>) {
        if buffer.len() < self.needed_size() {
            return Err(());
        }
        let x: i32 = *self as i32;
        let bits: u16 = if x < 0 {
            (x + 65536) as u16
        } else {
            x as u16
        };
        assert(bits == i16_bits(*self));
        buffer[0] = (bits % 256) as u8;
        buffer[1] = (bits / 256) as u8;
        assert(buffer@ =~= overwritten(old(buffer)@, self.encoding()));
        Ok(())
    }
}

/// The encodings of `items` one after the other, in the order of `items`.
pub open spec fn encode_all<T: BinarySerialize>(items: Seq<T>) -> Seq<u8>
    decreases items.len(),
{
    if items.len() == 0 {
        Seq::empty()
    } else {
        encode_all(items.drop_last()) + items.last().encoding()
    }
}

/// Whether every one of `items` is encodable and reports the size `size`.
pub open spec fn uniform<T: BinarySerialize>(items: Seq<T>, size: nat) -> bool {
    forall|i: int|
        0 <= i < items.len() ==> (#[trigger] items[i]).encodable() && items[i].encoded_len()
            == size
}

/// Items of one size take, together, that size times their number.
pub proof fn lemma_encode_all_len<T: BinarySerialize>(items: Seq<T>, size: nat)
    requires
        uniform(items, size),
    ensures
        encode_all(items).len() == items.len() * size,
    decreases items.len(),
{
    if items.len() > 0 {
        let front = items.drop_last();
        assert(uniform(front, size)) by {
            assert forall|i: int| 0 <= i < front.len() implies (#[trigger] front[i]).encodable()
                && front[i].encoded_len() == size by {
                assert(front[i] == items[i]);
            }
        }
        lemma_encode_all_len(front, size);
        items.last().lemma_encoding_len();
        assert(items.len() * size == front.len() * size + size) by (nonlinear_arith)
            requires
                items.len() == front.len() + 1,
        ;
    }
}

/// One more item adds its encoding at the end.
pub proof fn lemma_encode_all_push<T: BinarySerialize>(items: Seq<T>, item: T)
    ensures
        encode_all(items.push(item)) == encode_all(items) + item.encoding(),
{
    assert(items.push(item).drop_last() =~= items);
}

/// Among items of one size, the encoding of the item at `i` stands at `i`
/// times that size.
pub proof fn lemma_encode_all_item<T: BinarySerialize>(items: Seq<T>, size: nat, i: int)
    requires
        uniform(items, size),
        0 <= i < items.len(),
    ensures
        i * size + size <= encode_all(items).len(),
        encode_all(items).subrange(i * size, i * size + size) == items[i].encoding(),
    decreases items.len(),
{
    let front = items.drop_last();
    assert(uniform(front, size)) by {
        assert forall|j: int| 0 <= j < front.len() implies (#[trigger] front[j]).encodable()
            && front[j].encoded_len() == size by {
            assert(front[j] == items[j]);
        }
    }
    lemma_encode_all_len(front, size);
    items.last().lemma_encoding_len();
    if i == items.len() - 1 {
        assert(encode_all(items).subrange(i * size, i * size + size) =~= items[i].encoding());
    } else {
        lemma_encode_all_item(front, size, i);
        assert(front[i] == items[i]);
        assert(encode_all(items).subrange(i * size, i * size + size) =~= encode_all(
            front,
        ).subrange(i * size, i * size + size));
    }
}

impl<T: BinarySerialize> BinarySerialize for Vec<T> {
    open spec fn encoding(&self) -> Seq<u8> {
        encode_all(self@)
    }

    /// The size of the first item times the number of items: the size of
    /// the whole only where the items all have the size of the first.
    open spec fn encoded_len(&self) -> nat {
        if self@.len() == 0 {
            0
        } else {
            self@.len() * self@[0].encoded_len()
        }
    }

    /// The items are encodable and all of the size of the first, and the
    /// size of the whole is a machine size.
    open spec fn encodable(&self) -> bool {
        &&& self.encoded_len() <= usize::MAX
        &&& self@.len() > 0 ==> uniform(self@, self@[0].encoded_len())
    }

    proof fn lemma_encoding_len(&self) {
        if self@.len() > 0 {
            lemma_encode_all_len(self@, self@[0].encoded_len());
        }
    }

    fn needed_size(&self) -> (size: usize) {
        if self.len() == 0 {
            return 0;
        }
        assert(self@[0].encoded_len() <= self@.len() * self@[0].encoded_len())
            by (nonlinear_arith)
            requires
                self@.len() >= 1,
        ;
        self.len() * self[0].needed_size()
    }

    fn serialize(&self, buffer: &mut [u8]) -> (result: Result<(), ()>) {
        if buffer.len() < self.needed_size() {
            return Err(());
        }
        let ghost each: nat = if self@.len() == 0 {
            0
        } else {
            self@[0].encoded_len()
        };
        let mut off: usize = 0;
        let mut i: usize = 0;
        assert(buffer@ =~= encode_all(self@.take(0)) + old(buffer)@.skip(0));
        while i < self.len()
            invariant
                i <= self@.len(),
                uniform(self@, each),
                self@.len() * each <= buffer@.len(),
                buffer@.len() == old(buffer)@.len(),
                off == i * each,
                buffer@ == encode_all(self@.take(i as int)) + old(buffer)@.skip(off as int),
            decreases self@.len() - i,
        {
            let val = &self[i];
            let ghost done = self@.take(i as int);
            proof {
                assert(uniform(done, each));
                lemma_encode_all_len(done, each);
                lemma_encode_all_push(done, *val);
                assert(done.push(*val) =~= self@.take(i + 1));
                val.lemma_encoding_len();
                assert((i + 1) * each == i * each + each) by (nonlinear_arith);
                assert((i + 1) * each <= self@.len() * each) by (nonlinear_arith)
                    requires
                        i + 1 <= self@.len(),
                ;
            }
            let size = val.needed_size();
            assert(off + size <= buffer.len());
            val.serialize(region(buffer, off, off + size))?;
            assert(buffer@ =~= encode_all(self@.take(i + 1)) + old(buffer)@.skip(off + size));
            off += size;
            i += 1;
        }
        proof {
            assert(self@.take(i as int) =~= self@);
            lemma_encode_all_len(self@, each);
        }
        Ok(())
    }
}

} // verus!
