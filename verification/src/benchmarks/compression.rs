//! The LZ4 block benchmarks' work: English-like input, and one compression or
//! decompression of it per call.
use vstd::prelude::*;

verus! {

/// "the quick brown fox jumps over the lazy dog ", the text the input repeats.
pub const SENTENCE: [u8; 44] = [
    116u8, 104, 101, 32, 113, 117, 105, 99, 107, 32, 98, 114, 111, 119, 110, 32,
    102, 111, 120, 32, 106, 117, 109, 112, 115, 32, 111, 118, 101, 114, 32, 116,
    104, 101, 32, 108, 97, 122, 121, 32, 100, 111, 103, 32,
];

/// `size` bytes of the sentence repeated, cut off where the size ends; text
/// like this compresses two to four times.
pub fn make_compressible_data(size: usize) -> (data: Vec<u8>)
    ensures
        data@.len() == size,
        forall|i: int| 0 <= i < size ==> #[trigger] data@[i] == SENTENCE@[i % 44],
{
    let words = SENTENCE;
    let mut data: Vec<u8> = Vec::new();
    let mut i: usize = 0;
    while i < size
        invariant
            i <= size,
            words@ == SENTENCE@,
            data@.len() == i,
            forall|k: int| 0 <= k < i ==> #[trigger] data@[k] == SENTENCE@[k % 44],
        decreases size - i,
    {
        data.push(words[i % 44]);
        i = i + 1;
    }
    data
}

#[verifier::external_type_specification]
#[verifier::external_body]
pub struct ExCompressError(lz4_flex::block::CompressError);

#[verifier::external_type_specification]
#[verifier::external_body]
pub struct ExDecompressError(lz4_flex::block::DecompressError);

/// The LZ4 block that `lz4_flex` compresses `data` into.
pub uninterp spec fn lz4_block(data: Seq<u8>) -> Seq<u8>;

/// The room that compressing `input_len` bytes may take: 20 bytes plus 110%.
pub open spec fn max_compressed_len(input_len: nat) -> nat {
    20 + input_len * 110 / 100
}

/// `lz4_flex::block::get_maximum_output_size`: `16 + 4 + input_len * 110 / 100`.
#[verifier::external_body]
fn lz4_max_output_size(input_len: usize) -> (n: usize)
    requires
        max_compressed_len(input_len as nat) <= usize::MAX,
        input_len * 110 <= usize::MAX,
    ensures
        n == max_compressed_len(input_len as nat),
{
    lz4_flex::block::get_maximum_output_size(input_len)
}

/// `lz4_flex::block::compress_into`: writes the block of `input` at the start
/// of `output` and returns its length; it refuses, writing nothing that
/// counts, exactly when `output` is shorter than the maximum output size.
/// Inputs whose maximum output size overflows `usize` are left out.
#[verifier::external_body]
fn lz4_compress_into(input: &[u8], output: &mut [u8]) -> (r: Result<usize, lz4_flex::block::CompressError>)
    requires
        input@.len() * 110 <= usize::MAX - 20,
    ensures
        final(output)@.len() == old(output)@.len(),
        r is Ok <==> old(output)@.len() >= max_compressed_len(input@.len()),
        r matches Ok(n) ==> n <= old(output)@.len() && final(output)@.take(n as int) == lz4_block(input@),
{
    lz4_flex::block::compress_into(input, output)
}

/// `lz4_flex::block::compress`: the block of `input` in a vector of its own;
/// inputs whose maximum output size overflows `usize` are left out.
#[verifier::external_body]
fn lz4_compress(input: &[u8]) -> (block: Vec<u8>)
    requires
        input@.len() * 110 <= usize::MAX - 20,
    ensures
        block@ == lz4_block(input@),
{
    lz4_flex::block::compress(input)
}

/// `lz4_flex::block::decompress_into`: decompressing the block of some data
/// into an output at least as long as the data gives the data back, at the
/// start of the output, and returns its length. Of inputs that are no such
/// block, only that the length returned fits the output is stated.
#[verifier::external_body]
fn lz4_decompress_into(input: &[u8], output: &mut [u8]) -> (r: Result<usize, lz4_flex::block::DecompressError>)
    ensures
        final(output)@.len() == old(output)@.len(),
        r matches Ok(n) ==> n <= old(output)@.len(),
        forall|d: Seq<u8>|
            input@ == #[trigger] lz4_block(d) && old(output)@.len() >= d.len() ==> (r matches Ok(n)
                && n == d.len() && final(output)@.take(n as int) == d),
{
    lz4_flex::block::decompress_into(input, output)
}

/// A buffer of zero bytes.
fn zeroed(n: usize) -> (v: Vec<u8>)
    ensures
        v@ == Seq::new(n as nat, |i: int| 0u8),
{
    let mut v: Vec<u8> = Vec::new();
    let mut i: usize = 0;
    while i < n
        invariant
            i <= n,
            v@ == Seq::new(i as nat, |k: int| 0u8),
        decreases n - i,
    {
        v.push(0);
        assert(v@ =~= Seq::new((i + 1) as nat, |k: int| 0u8));
        i = i + 1;
    }
    v
}

/// The compression benchmark's input, with the room its block may take.
pub struct CompressBench {
    data: Vec<u8>,
}

impl CompressBench {
    #[verifier::type_invariant]
    spec fn fits(self) -> bool {
        self.data@.len() * 110 <= usize::MAX - 20
    }

    /// The data that each run compresses.
    pub closed spec fn input(self) -> Seq<u8> {
        self.data@
    }

    pub fn new(data: Vec<u8>) -> (b: Self)
        requires
            data@.len() * 110 <= usize::MAX - 20,
        ensures
            b.input() == data@,
    {
        CompressBench { data }
    }

    /// A zeroed output buffer with room for the largest block of the input.
    pub fn output_buffer(&self) -> (out: Vec<u8>)
        ensures
            out@ == Seq::new(max_compressed_len(self.input().len()), |i: int| 0u8),
    {
        proof {
            use_type_invariant(self);
        }
        zeroed(lz4_max_output_size(self.data.len()))
    }

    /// Compresses the input once into `output`; returns the block's length,
    /// the block being at the start of `output`.
    pub fn run(&self, output: &mut Vec<u8>) -> (n: usize)
        requires
            old(output)@.len() >= max_compressed_len(self.input().len()),
        ensures
            final(output)@.len() == old(output)@.len(),
            n == lz4_block(self.input()).len(),
            final(output)@.take(n as int) == lz4_block(self.input()),
    {
        proof {
            use_type_invariant(self);
        }
        match lz4_compress_into(self.data.as_slice(), output.as_mut_slice()) {
            Ok(n) => n,
            Err(_) => {
                proof {
                    assert(false);
                }
                0
            },
        }
    }
}

/// The decompression benchmark's input: the block of some data.
pub struct DecompressBench {
    compressed: Vec<u8>,
    len: usize,
    original: Ghost<Seq<u8>>,
}

impl DecompressBench {
    #[verifier::type_invariant]
    spec fn holds_block(self) -> bool {
        &&& self.compressed@ == lz4_block(self.original@)
        &&& self.len == self.original@.len()
    }

    /// The data whose block each run decompresses.
    pub closed spec fn input(self) -> Seq<u8> {
        self.original@
    }

    pub fn new(data: &[u8]) -> (b: Self)
        requires
            data@.len() * 110 <= usize::MAX - 20,
        ensures
            b.input() == data@,
    {
        let compressed = lz4_compress(data);
        DecompressBench { compressed, len: data.len(), original: Ghost(data@) }
    }

    /// A zeroed output buffer as long as the data.
    pub fn output_buffer(&self) -> (out: Vec<u8>)
        ensures
            out@ == Seq::new(self.input().len(), |i: int| 0u8),
    {
        proof {
            use_type_invariant(self);
        }
        zeroed(self.len)
    }

    /// Decompresses the block once into `output`, which then begins with
    /// the data; returns the data's length.
    pub fn run(&self, output: &mut Vec<u8>) -> (n: usize)
        requires
            old(output)@.len() >= self.input().len(),
        ensures
            final(output)@.len() == old(output)@.len(),
            n == self.input().len(),
            final(output)@.take(n as int) == self.input(),
    {
        proof {
            use_type_invariant(self);
        }
        let ghost d = self.original@;
        match lz4_decompress_into(self.compressed.as_slice(), output.as_mut_slice()) {
            Ok(n) => n,
            Err(_) => {
                proof {
                    assert(false);
                }
                0
            },
        }
    }
}

} // verus!
