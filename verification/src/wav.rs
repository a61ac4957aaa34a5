//! The sample buffer of a capture session and the RIFF/WAVE container that
//! it is written out as: a header of 44 bytes, then the samples.
use crate::little_endian::{
    i16_bits, i16_le, le_value, lemma_i16_le_value, lemma_u32_le_value, u16_le, u32_le,
};
use crate::serialize::{
    copy_bytes, encode_all, lemma_encode_all_item, lemma_encode_all_len, overwritten, region,
    BinarySerialize,
};
use vstd::prelude::*;

verus! {

/// The chunk tag, `RIFF` in ASCII.
pub const RIFF_TAG: [u8; 4] = [0x52, 0x49, 0x46, 0x46];

/// The format tag, `WAVE` in ASCII.
pub const WAVE_TAG: [u8; 4] = [0x57, 0x41, 0x56, 0x45];

/// The tag of the format sub-chunk, `fmt ` in ASCII.
pub const FMT_TAG: [u8; 4] = [0x66, 0x6d, 0x74, 0x20];

/// The tag of the data sub-chunk, `data` in ASCII.
pub const DATA_TAG: [u8; 4] = [0x64, 0x61, 0x74, 0x61];

/// The number of bytes before the first sample.
pub const HEADER_SIZE: usize = 44;

/// The size of the format sub-chunk, as its size field gives it.
pub const FMT_CHUNK_SIZE: u32 = 16;

/// The width of a sample in bits.
pub const BITS_PER_SAMPLE: u16 = 16;

/// How the samples are coded.
#[derive(Clone, Copy)]
pub enum WavFormat {
    /// Uncompressed linear pulse-code modulation.
    PCM,
}

impl WavFormat {
    /// The number that stands for the format in the header.
    pub open spec fn code_spec(&self) -> u16 {
        match self {
            WavFormat::PCM => 1,
        }
    }

    /// The number that stands for the format in the header.
    #[verifier::when_used_as_spec(code_spec)]
    pub fn code(&self) -> (code: u16)
        ensures
            code == self.code_spec(),
    {
        match self {
            WavFormat::PCM => 1,
        }
    }
}

impl BinarySerialize for WavFormat {
    open spec fn encoding(&self) -> Seq<u8> {
        u16_le(self.code())
    }

    open spec fn encoded_len(&self) -> nat {
        2
    }

    open spec fn encodable(&self) -> bool {
        true
    }

    proof fn lemma_encoding_len(&self) {
    }

    fn needed_size(&self) -> (size: usize) {
        2
    }

    fn serialize(&self, buffer: &mut [u8]) -> (result: Result<(), ()>) {
        if buffer.len() < self.needed_size() {
            return Err(());
        }
        self.code().serialize(buffer)?;
        Ok(())
    }
}

/// What a sample buffer holds, as plain values.
pub struct WavView {
    /// The number of channels that the frames interleave.
    pub channels: u16,
    /// The number of frames per second.
    pub sample_rate: u32,
    /// The samples in the order in which they were added: frame after
    /// frame, and within a frame one sample for each channel. The buffer
    /// keeps the order it is given and does not look at frames.
    pub samples: Seq<i16>,
}

/// The low 32 bits of `n`: `n` itself where it is below 2^32.
pub open spec fn low32(n: int) -> u32 {
    (n % 0x1_0000_0000) as u32
}

impl WavView {
    /// The bytes that one second of sound takes, rounded down.
    pub open spec fn byte_rate(self) -> int {
        self.sample_rate * BITS_PER_SAMPLE * self.channels / 8
    }

    /// The bytes that one frame takes, rounded down.
    pub open spec fn block_align(self) -> int {
        BITS_PER_SAMPLE * self.channels / 8
    }

    /// The bytes that the samples take.
    pub open spec fn data_len(self) -> nat {
        2 * self.samples.len()
    }

    /// The bytes that the container takes: the header and the samples.
    pub open spec fn total_len(self) -> nat {
        44 + self.data_len()
    }

    /// Whether the container can be written: its length is a machine size,
    /// and the byte rate and the block alignment fit the fields of the
    /// header that hold them.
    pub open spec fn fits(self) -> bool {
        &&& self.total_len() <= usize::MAX
        &&& self.byte_rate() <= u32::MAX
        &&& self.block_align() <= u16::MAX
    }

    /// The 44 bytes before the samples. The two size fields hold the low 32
    /// bits of what they count.
    pub open spec fn header(self) -> Seq<u8> {
        RIFF_TAG@ + u32_le(low32(self.total_len() - 8)) + WAVE_TAG@ + FMT_TAG@ + u32_le(
            FMT_CHUNK_SIZE,
        ) + u16_le(WavFormat::PCM.code()) + u16_le(self.channels) + u32_le(self.sample_rate)
            + u32_le(self.byte_rate() as u32) + u16_le(self.block_align() as u16) + u16_le(
            BITS_PER_SAMPLE,
        ) + DATA_TAG@ + u32_le(low32(self.data_len() as int))
    }

    /// The whole container: the header, then each sample in order.
    pub open spec fn bytes(self) -> Seq<u8> {
        self.header() + encode_all(self.samples)
    }
}

/// The samples of one capture session with the format they were taken in.
/// Every sample is `BITS_PER_SAMPLE` bits wide. Samples are only ever added,
/// at the end.
pub struct WavFile {
    format: WavFormat,
    channels: u16,
    sample_rate: u32,
    samples: Vec<i16>,
}

impl View for WavFile {
    type V = WavView;

    closed spec fn view(&self) -> WavView {
        WavView { channels: self.channels, sample_rate: self.sample_rate, samples: self.samples@ }
    }
}

impl WavFile {
    /// An empty buffer for sound of `channels` channels at `sample_rate`
    /// frames per second.
    pub fn new(channels: u16, sample_rate: u32) -> (file: Self)
        ensures
            file@ == (WavView { channels, sample_rate, samples: Seq::empty() }),
    {
        Self { format: WavFormat::PCM, channels, sample_rate, samples: Vec::new() }
    }

    /// Adds `sample` at the end. The container grows by the two bytes of
    /// the sample.
    pub fn push_sample(&mut self, sample: i16)
        ensures
            final(self)@ == (WavView { samples: old(self)@.samples.push(sample), ..old(self)@ }),
            final(self)@.total_len() == old(self)@.total_len() + 2,
    {
        self.samples.push(sample);
    }

    /// Adds the samples of `data` at the end, in their order. The container
    /// grows by two bytes for each of them.
    pub fn push_samples(&mut self, data: &[i16])
        ensures
            final(self)@ == (WavView { samples: old(self)@.samples + data@, ..old(self)@ }),
            final(self)@.total_len() == old(self)@.total_len() + 2 * data@.len(),
    {
        let mut i: usize = 0;
        assert(self@.samples =~= old(self)@.samples + data@.take(0));
        while i < data.len()
            invariant
                i <= data@.len(),
                self@ == (WavView {
                    samples: old(self)@.samples + data@.take(i as int),
                    ..old(self)@
                }),
            decreases data@.len() - i,
        {
            self.push_sample(data[i]);
            i += 1;
            assert(self@.samples =~= old(self)@.samples + data@.take(i as int));
        }
        assert(data@.take(i as int) =~= data@);
    }

    /// The number of samples held.
    pub fn len(&self) -> (count: usize)
        ensures
            count == self@.samples.len(),
    {
        self.samples.len()
    }

    /// Whether the container can be written, which `serialize` and
    /// `to_bytes` ask of their caller.
    pub fn is_encodable(&self) -> (fits: bool)
        ensures
            fits == self@.fits(),
    {
        assert(self.sample_rate * BITS_PER_SAMPLE * self.channels <= u64::MAX)
            by (nonlinear_arith);
        let byte_rate: u64 = self.sample_rate as u64 * BITS_PER_SAMPLE as u64
            * self.channels as u64 / 8;
        assert(BITS_PER_SAMPLE * self.channels <= u32::MAX) by (nonlinear_arith);
        let block_align: u32 = BITS_PER_SAMPLE as u32 * self.channels as u32 / 8;
        self.samples.len() <= (usize::MAX - HEADER_SIZE) / 2 && byte_rate <= u32::MAX as u64
            && block_align <= u16::MAX as u32
    }

    /// The container in a buffer of its own, of exactly its size. The size
    /// is taken and the bytes are written under one borrow of `self`, so the
    /// samples written are those counted, whatever was added before the call
    /// or will be after it.
    pub fn to_bytes(&self) -> (bytes: Vec<u8>)
        requires
            self@.fits(),
        ensures
            bytes@ == self@.bytes(),
            bytes@.len() == 44 + 2 * self@.samples.len(),
    {
        let mut raw: Vec<u8> = vec![0u8; self.needed_size()];
        let written = self.serialize(raw.as_mut_slice());
        proof {
            lemma_bytes_len(self@);
            assert(written.is_ok());
            assert(raw@ =~= self@.bytes());
        }
        raw
    }
}

impl BinarySerialize for WavFile {
    open spec fn encoding(&self) -> Seq<u8> {
        self@.bytes()
    }

    open spec fn encoded_len(&self) -> nat {
        self@.total_len()
    }

    open spec fn encodable(&self) -> bool {
        self@.fits()
    }

    proof fn lemma_encoding_len(&self) {
        lemma_bytes_len(self@);
    }

    /// The 44 bytes of the header and two for each sample held.
    fn needed_size(&self) -> (size: usize)
        ensures
            size == 44 + 2 * self@.samples.len(),
    {
        proof {
            lemma_samples_len(self.samples);
        }
        HEADER_SIZE + self.samples.needed_size()
    }

    /// Writes the header and the samples at the front of `buffer`. Fails,
    /// with `buffer` untouched, exactly when `buffer` is shorter than the
    /// container.
    fn serialize(&self, buffer: &mut [u8]) -> (result: Result<(), ()>)
        ensures
            result.is_ok() <==> 44 + 2 * self@.samples.len() <= old(buffer)@.len(),
    {
        if buffer.len() < self.needed_size() {
            return Err(());
        }
        let len: usize = buffer.len();
        // The bytes written so far: after each field, `buffer` holds them
        // and, behind them, what it held at first.
        let ghost mut done = Seq::<u8>::empty();
        proof {
            lemma_samples_len(self.samples);
            lemma_bytes_len(self@);
            assert(buffer@ =~= done + old(buffer)@.skip(0));
        }

        copy_bytes(region(buffer, 0, 4), RIFF_TAG.as_slice());
        proof {
            done = lemma_field_written(old(buffer)@, done, RIFF_TAG@, buffer@);
        }
        let file_size: u32 = ((self.needed_size() - 8) as u64 % 0x1_0000_0000) as u32;
        file_size.serialize(region(buffer, 4, 8))?;
        proof {
            done = lemma_field_written(old(buffer)@, done, u32_le(file_size), buffer@);
        }
        copy_bytes(region(buffer, 8, 12), WAVE_TAG.as_slice());
        proof {
            done = lemma_field_written(old(buffer)@, done, WAVE_TAG@, buffer@);
        }
        copy_bytes(region(buffer, 12, 16), FMT_TAG.as_slice());
        proof {
            done = lemma_field_written(old(buffer)@, done, FMT_TAG@, buffer@);
        }
        FMT_CHUNK_SIZE.serialize(region(buffer, 16, 20))?;
        proof {
            done = lemma_field_written(old(buffer)@, done, u32_le(FMT_CHUNK_SIZE), buffer@);
        }
        self.format.serialize(region(buffer, 20, 22))?;
        proof {
            done = lemma_field_written(old(buffer)@, done, u16_le(self.format.code()), buffer@);
        }
        self.channels.serialize(region(buffer, 22, 24))?;
        proof {
            done = lemma_field_written(old(buffer)@, done, u16_le(self.channels), buffer@);
        }
        self.sample_rate.serialize(region(buffer, 24, 28))?;
        proof {
            done = lemma_field_written(old(buffer)@, done, u32_le(self.sample_rate), buffer@);
        }

        assert(self.sample_rate * BITS_PER_SAMPLE * self.channels <= u64::MAX)
            by (nonlinear_arith);
        let avg_bytes_per_sec: u32 = (self.sample_rate as u64 * BITS_PER_SAMPLE as u64
            * self.channels as u64 / 8) as u32;
        avg_bytes_per_sec.serialize(region(buffer, 28, 32))?;
        proof {
            done = lemma_field_written(old(buffer)@, done, u32_le(avg_bytes_per_sec), buffer@);
        }

        let block_align: u16 = (BITS_PER_SAMPLE as u32 * self.channels as u32 / 8) as u16;
        block_align.serialize(region(buffer, 32, 34))?;
        proof {
            done = lemma_field_written(old(buffer)@, done, u16_le(block_align), buffer@);
        }

        BITS_PER_SAMPLE.serialize(region(buffer, 34, 36))?;
        proof {
            done = lemma_field_written(old(buffer)@, done, u16_le(BITS_PER_SAMPLE), buffer@);
        }
        copy_bytes(region(buffer, 36, 40), DATA_TAG.as_slice());
        proof {
            done = lemma_field_written(old(buffer)@, done, DATA_TAG@, buffer@);
        }

        let data_size: u32 = (self.samples.needed_size() as u64 % 0x1_0000_0000) as u32;
        data_size.serialize(region(buffer, 40, 44))?;
        proof {
            done = lemma_field_written(old(buffer)@, done, u32_le(data_size), buffer@);
            assert(done == self@.header());
        }

        self.samples.serialize(region(buffer, 44, len))?;
        proof {
            lemma_rest_written(old(buffer)@, done, self.samples.encoding(), buffer@);
        }

        Ok(())
    }
}

/// One field more: a region that held the bytes `done` and, behind them,
/// what it held at first, and in which `field` was then written behind
/// `done` and nowhere else, holds `done`, then `field`, then what it held
/// at first. The result is `done` with `field` added.
proof fn lemma_field_written(before: Seq<u8>, done: Seq<u8>, field: Seq<u8>, next: Seq<u8>) -> (now:
    Seq<u8>)
    requires
        done.len() + field.len() <= before.len(),
        ({
            let cur = done + before.skip(done.len() as int);
            let start = done.len() as int;
            let end = start + field.len();
            ||| next == cur.take(start) + field + cur.skip(end)
            ||| next == cur.take(start) + overwritten(cur.subrange(start, end), field) + cur.skip(
                end,
            )
        }),
    ensures
        now == done + field,
        next == now + before.skip(now.len() as int),
        next.len() == before.len(),
{
    let cur = done + before.skip(done.len() as int);
    let start = done.len() as int;
    let end = start + field.len();
    assert(overwritten(cur.subrange(start, end), field) =~= field);
    assert(cur.take(start) =~= done);
    assert(cur.skip(end) =~= before.skip(end));
    done + field
}

/// The last field: as for one field more, but `field` was written at the
/// front of all that lay behind `done`.
proof fn lemma_rest_written(before: Seq<u8>, done: Seq<u8>, field: Seq<u8>, next: Seq<u8>)
    requires
        done.len() + field.len() <= before.len(),
        ({
            let cur = done + before.skip(done.len() as int);
            next == cur.take(done.len() as int) + overwritten(
                cur.subrange(done.len() as int, before.len() as int),
                field,
            ) + cur.skip(before.len() as int)
        }),
    ensures
        next == overwritten(before, done + field),
{
    assert(next =~= overwritten(before, done + field));
}

/// A sequence of samples reports two bytes for each of them, whatever it
/// holds, and so can always be written if that is a machine size.
pub proof fn lemma_samples_len(samples: Vec<i16>)
    ensures
        samples.encoded_len() == 2 * samples@.len(),
        samples.encodable() <==> 2 * samples@.len() <= usize::MAX,
{
    if samples@.len() > 0 {
        assert(samples@[0].encoded_len() == 2);
    }
}

/// The header takes 44 bytes and each sample two.
pub proof fn lemma_bytes_len(file: WavView)
    ensures
        file.header().len() == 44,
        encode_all(file.samples).len() == file.data_len(),
        file.bytes().len() == file.total_len(),
{
    lemma_encode_all_len(file.samples, 2);
}

/// The bytes of a text of ASCII characters.
pub open spec fn ascii(text: Seq<char>) -> Seq<u8> {
    text.map_values(|c: char| c as u8)
}

/// The four tags spell `RIFF`, `WAVE`, `fmt ` and `data`.
pub proof fn lemma_tags_spell()
    ensures
        RIFF_TAG@ == ascii("RIFF"@),
        WAVE_TAG@ == ascii("WAVE"@),
        FMT_TAG@ == ascii("fmt "@),
        DATA_TAG@ == ascii("data"@),
{
    reveal_strlit("RIFF");
    reveal_strlit("WAVE");
    reveal_strlit("fmt ");
    reveal_strlit("data");
    assert(RIFF_TAG@ =~= ascii("RIFF"@));
    assert(WAVE_TAG@ =~= ascii("WAVE"@));
    assert(FMT_TAG@ =~= ascii("fmt "@));
    assert(DATA_TAG@ =~= ascii("data"@));
}

/// The fields of the header stand at their fixed places, whatever the
/// samples are: the four tags, the size of the format sub-chunk, the code of
/// the format, the number of channels, the sample rate, the byte rate, the
/// block alignment and the width of a sample.
pub proof fn lemma_header_layout(file: WavView)
    ensures
        file.bytes().len() >= 44,
        file.bytes().subrange(0, 4) == RIFF_TAG@,
        file.bytes().subrange(4, 8) == u32_le(low32(file.total_len() - 8)),
        file.bytes().subrange(8, 12) == WAVE_TAG@,
        file.bytes().subrange(12, 16) == FMT_TAG@,
        file.bytes().subrange(16, 20) == u32_le(16),
        file.bytes().subrange(20, 22) == u16_le(1),
        file.bytes().subrange(22, 24) == u16_le(file.channels),
        file.bytes().subrange(24, 28) == u32_le(file.sample_rate),
        file.bytes().subrange(28, 32) == u32_le(file.byte_rate() as u32),
        file.bytes().subrange(32, 34) == u16_le(file.block_align() as u16),
        file.bytes().subrange(34, 36) == u16_le(16),
        file.bytes().subrange(36, 40) == DATA_TAG@,
        file.bytes().subrange(40, 44) == u32_le(low32(file.data_len() as int)),
{
    let b = file.bytes();
    lemma_bytes_len(file);
    assert(b.subrange(0, 4) =~= RIFF_TAG@);
    assert(b.subrange(4, 8) =~= u32_le(low32(file.total_len() - 8)));
    assert(b.subrange(8, 12) =~= WAVE_TAG@);
    assert(b.subrange(12, 16) =~= FMT_TAG@);
    assert(b.subrange(16, 20) =~= u32_le(16));
    assert(b.subrange(20, 22) =~= u16_le(1));
    assert(b.subrange(22, 24) =~= u16_le(file.channels));
    assert(b.subrange(24, 28) =~= u32_le(file.sample_rate));
    assert(b.subrange(28, 32) =~= u32_le(file.byte_rate() as u32));
    assert(b.subrange(32, 34) =~= u16_le(file.block_align() as u16));
    assert(b.subrange(34, 36) =~= u16_le(16));
    assert(b.subrange(36, 40) =~= DATA_TAG@);
    assert(b.subrange(40, 44) =~= u32_le(low32(file.data_len() as int)));
}

/// The sample at `i` stands, in two's complement and least significant
/// byte first, at byte `44 + 2 * i`, and reads back from there as its bit
/// pattern.
pub proof fn lemma_sample_layout(file: WavView, i: int)
    requires
        0 <= i < file.samples.len(),
    ensures
        44 + 2 * i + 2 <= file.bytes().len(),
        file.bytes().subrange(44 + 2 * i, 44 + 2 * i + 2) == i16_le(file.samples[i]),
        le_value(file.bytes().subrange(44 + 2 * i, 44 + 2 * i + 2)) == i16_bits(file.samples[i]),
{
    lemma_bytes_len(file);
    lemma_i16_le_value(file.samples[i]);
    lemma_encode_all_item(file.samples, 2, i);
    assert(file.bytes().subrange(44 + 2 * i, 44 + 2 * i + 2) =~= encode_all(
        file.samples,
    ).subrange(i * 2, i * 2 + 2));
}

/// Each of the two size fields reads back as what it counts, as long as
/// that fits its 32 bits: the first, with the 8 bytes before it and in it
/// added, as the length of the container, the second as two bytes for each
/// sample.
pub proof fn lemma_size_fields(file: WavView)
    ensures
        file.total_len() - 8 <= u32::MAX ==> le_value(file.bytes().subrange(4, 8)) + 8
            == file.bytes().len(),
        file.data_len() <= u32::MAX ==> le_value(file.bytes().subrange(40, 44)) == 2
            * file.samples.len(),
{
    lemma_bytes_len(file);
    lemma_header_layout(file);
    lemma_u32_le_value(low32(file.total_len() - 8));
    lemma_u32_le_value(low32(file.data_len() as int));
}

/// The bytes written depend on the buffer's state alone. Written over two
/// regions of one length, one container leaves the same bytes at the front
/// of both, and the same in all of both where they agreed beyond the
/// container, as they do where they are exactly as long as it.
pub proof fn lemma_same_state_same_bytes(file: WavView, first: Seq<u8>, second: Seq<u8>)
    requires
        first.len() == second.len(),
        file.total_len() <= first.len(),
    ensures
        overwritten(first, file.bytes()).take(file.total_len() as int) == overwritten(
            second,
            file.bytes(),
        ).take(file.total_len() as int),
        first.skip(file.total_len() as int) == second.skip(file.total_len() as int)
            ==> overwritten(first, file.bytes()) == overwritten(second, file.bytes()),
        first.len() == file.total_len() ==> overwritten(first, file.bytes()) == overwritten(
            second,
            file.bytes(),
        ),
{
    lemma_bytes_len(file);
    let n = file.total_len() as int;
    assert(overwritten(first, file.bytes()).take(n) =~= file.bytes());
    assert(overwritten(second, file.bytes()).take(n) =~= file.bytes());
    if first.len() == file.total_len() {
        assert(first.skip(n) =~= second.skip(n));
    }
}

/// Between two size queries the container grows by two bytes for each
/// sample added.
pub proof fn lemma_growth(before: WavView, added: Seq<i16>)
    ensures
        (WavView { samples: before.samples + added, ..before }).total_len() == before.total_len()
            + 2 * added.len(),
        added.len() > 0 ==> (WavView { samples: before.samples + added, ..before }).total_len()
            > before.total_len(),
{
}

} // verus!
