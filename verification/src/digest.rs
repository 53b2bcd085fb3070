//! BLAKE3 digests of whole files and of samples of them.

use crate::lex::{
    byte_order, bytes_at_most, bytes_le, lemma_byte_order, lemma_lex_antisymmetric, lemma_lex_total,
    lemma_lex_transitive, lex_le,
};
use crate::order::SortKey;
use vstd::prelude::*;

verus! {

/// The length of a sample.
pub const PARTIAL_SIZE: usize = 65536;

/// Files of at least this length are mapped into memory to be hashed.
pub const MMAP_THRESHOLD: u64 = 16384;

/// A digest of 32 bytes.
#[derive(Clone, Copy)]
pub struct Digest {
    pub bytes: [u8; 32],
}

impl View for Digest {
    type V = Seq<u8>;

    open spec fn view(&self) -> Seq<u8> {
        self.bytes@
    }
}

impl SortKey for Digest {
    type Value = Seq<u8>;

    open spec fn value(&self) -> Seq<u8> {
        self@
    }

    open spec fn le(a: Seq<u8>, b: Seq<u8>) -> bool {
        bytes_le(a, b)
    }

    proof fn le_total(a: Seq<u8>, b: Seq<u8>) {
        lemma_byte_order();
        lemma_lex_total(a, b, byte_order());
    }

    proof fn le_transitive(a: Seq<u8>, b: Seq<u8>, c: Seq<u8>) {
        lemma_byte_order();
        lemma_lex_transitive(a, b, c, byte_order());
    }

    proof fn le_antisymmetric(a: Seq<u8>, b: Seq<u8>) {
        lemma_byte_order();
        lemma_lex_antisymmetric(a, b, byte_order());
    }

    fn at_most(&self, other: &Self) -> (r: bool) {
        bytes_at_most(self.bytes.as_slice(), other.bytes.as_slice())
    }
}

/// `blake3::Hasher`, the state of a hash that is being computed.
#[verifier::external_type_specification]
#[verifier::external_body]
pub struct ExHasher(blake3::Hasher);

/// Whether a hasher computes the regular hash: no key, no derivation context, no
/// input offset.
pub uninterp spec fn is_regular(hasher: blake3::Hasher) -> bool;

/// The bytes that a hasher was given so far.
pub uninterp spec fn hasher_input(hasher: blake3::Hasher) -> Seq<u8>;

/// The BLAKE3 hash of a byte string.
pub uninterp spec fn blake3_digest(input: Seq<u8>) -> Seq<u8>;

/// `blake3::Hasher::new`: a regular hasher that was given nothing.
#[verifier::external_body]
fn new_hasher() -> (r: blake3::Hasher)
    ensures
        is_regular(r),
        hasher_input(r) == Seq::<u8>::empty(),
{
    blake3::Hasher::new()
}

/// `blake3::Hasher::update`: the bytes come behind those that the hasher was given
/// before. A hash takes at most 2^64 - 1 bytes.
#[verifier::external_body]
fn update_hasher(hasher: &mut blake3::Hasher, input: &[u8])
    requires
        is_regular(*old(hasher)),
        hasher_input(*old(hasher)).len() + input@.len() <= u64::MAX,
    ensures
        is_regular(*final(hasher)),
        hasher_input(*final(hasher)) == hasher_input(*old(hasher)) + input@,
{
    hasher.update(input);
}

/// `blake3::Hasher::finalize`: the hash of the bytes that the hasher was given.
#[verifier::external_body]
fn finalize_hasher(hasher: &blake3::Hasher) -> (r: Digest)
    requires
        is_regular(*hasher),
    ensures
        r@ == blake3_digest(hasher_input(*hasher)),
{
    Digest { bytes: *hasher.finalize().as_bytes() }
}

/// `blake3::hash`: the hash of the bytes, the same that a regular hasher gives for
/// them.
#[verifier::external_body]
pub(crate) fn hash_bytes(input: &[u8]) -> (r: Digest)
    ensures
        r@ == blake3_digest(input@),
{
    Digest { bytes: *blake3::hash(input).as_bytes() }
}

/// A hexadecimal digit, in lower case.
pub open spec fn hex_digit(n: int) -> char {
    if n < 10 {
        (0x30 + n) as char
    } else {
        (0x57 + n) as char
    }
}

/// Bytes as hexadecimal text, two digits for each.
pub open spec fn hex_text(bytes: Seq<u8>) -> Seq<char> {
    Seq::new(
        2 * bytes.len(),
        |i: int|
            hex_digit(
                if i % 2 == 0 {
                    bytes[i / 2] as int / 16
                } else {
                    bytes[i / 2] as int % 16
                },
            ),
    )
}

/// `blake3::Hash::to_hex`: the hash in lower-case hexadecimal.
#[verifier::external_body]
fn hash_to_hex(digest: &Digest) -> (r: String)
    ensures
        r@ == hex_text(digest@),
{
    blake3::Hash::from_bytes(digest.bytes).to_hex().to_string()
}

impl Digest {
    /// The digest in lower-case hexadecimal.
    pub fn to_hex(&self) -> (r: String)
        ensures
            r@ == hex_text(self@),
    {
        hash_to_hex(self)
    }
}

/// The order of characters by their numbers.
pub open spec fn char_order() -> spec_fn(char, char) -> bool {
    |x: char, y: char| x as u32 <= y as u32
}

/// Digests come in the order of their hexadecimal texts.
pub proof fn lemma_hex_order(a: Seq<u8>, b: Seq<u8>)
    ensures
        lex_le(hex_text(a), hex_text(b), char_order()) == bytes_le(a, b),
    decreases a.len(),
{
    let x = hex_text(a);
    let y = hex_text(b);
    if a.len() > 0 && b.len() > 0 {
        let a1 = a.drop_first();
        let b1 = b.drop_first();
        assert(x.drop_first().drop_first() =~= hex_text(a1)) by {
            assert forall|i: int| 0 <= i < hex_text(a1).len() implies x[i + 2] == hex_text(a1)[i] by {
                assert((i + 2) / 2 == i / 2 + 1);
                assert(a[i / 2 + 1] == a1[i / 2]);
            }
        }
        assert(y.drop_first().drop_first() =~= hex_text(b1)) by {
            assert forall|i: int| 0 <= i < hex_text(b1).len() implies y[i + 2] == hex_text(b1)[i] by {
                assert((i + 2) / 2 == i / 2 + 1);
                assert(b[i / 2 + 1] == b1[i / 2]);
            }
        }
        assert(x[0] == hex_digit(a[0] as int / 16));
        assert(x[1] == hex_digit(a[0] as int % 16));
        assert(y[0] == hex_digit(b[0] as int / 16));
        assert(y[1] == hex_digit(b[0] as int % 16));
        assert(x.drop_first()[0] == x[1]);
        assert(y.drop_first()[0] == y[1]);
        lemma_hex_order(a1, b1);
        let le = char_order();
        assert(lex_le(x, y, le) == if x[0] == y[0] {
            lex_le(x.drop_first(), y.drop_first(), le)
        } else {
            le(x[0], y[0])
        });
        assert(lex_le(x.drop_first(), y.drop_first(), le) == if x[1] == y[1] {
            lex_le(hex_text(a1), hex_text(b1), le)
        } else {
            le(x[1], y[1])
        });
    }
}

/// A stretch of a file.
pub struct Block {
    pub offset: u64,
    pub len: usize,
}

/// The samples of a file of `size` bytes: all of a short one, the beginning and the
/// end of a longer one, and the middle too where those leave enough between them.
pub open spec fn planned_blocks(size: u64) -> Seq<Block> {
    let first = Block { offset: 0, len: PARTIAL_SIZE };
    let last = Block { offset: (size - PARTIAL_SIZE) as u64, len: PARTIAL_SIZE };
    if size <= PARTIAL_SIZE {
        seq![Block { offset: 0, len: size as usize }]
    } else if size <= 3 * PARTIAL_SIZE {
        seq![first, last]
    } else {
        let middle = Block {
            offset: (size / 2 - PARTIAL_SIZE / 2) as u64,
            len: PARTIAL_SIZE,
        };
        seq![first, middle, last]
    }
}

/// The stretches of a file of `size` bytes to sample.
pub fn partial_blocks(size: u64) -> (r: Vec<Block>)
    ensures
        r@ == planned_blocks(size),
{
    let sample: u64 = PARTIAL_SIZE as u64;
    let mut r: Vec<Block> = Vec::new();
    if size <= sample {
        r.push(Block { offset: 0, len: size as usize });
    } else {
        r.push(Block { offset: 0, len: PARTIAL_SIZE });
        if size > sample * 3 {
            r.push(Block { offset: size / 2 - sample / 2, len: PARTIAL_SIZE });
        }
        r.push(Block { offset: size - sample, len: PARTIAL_SIZE });
    }
    assert(r@ =~= planned_blocks(size));
    r
}

/// Every sample lies within the file, and a sample begins behind the one before it
/// where there are three, or where the file is at least two samples long.
pub proof fn lemma_blocks_within_file(size: u64)
    ensures
        forall|i: int|
            0 <= i < planned_blocks(size).len() ==> (#[trigger] planned_blocks(size)[i]).offset
                + planned_blocks(size)[i].len <= size,
        size >= 2 * PARTIAL_SIZE ==> forall|i: int, j: int|
            #![trigger planned_blocks(size)[i], planned_blocks(size)[j]]
            0 <= i < j < planned_blocks(size).len() ==> planned_blocks(size)[i].offset
                + planned_blocks(size)[i].len <= planned_blocks(size)[j].offset,
{
}

/// The samples cover a file of at most two samples' length.
pub proof fn lemma_blocks_cover_short_file(size: u64, at: u64)
    requires
        at < size <= 2 * PARTIAL_SIZE,
    ensures
        exists|i: int|
            0 <= i < planned_blocks(size).len() && (#[trigger] planned_blocks(size)[i]).offset
                <= at < planned_blocks(size)[i].offset + planned_blocks(size)[i].len,
{
    let blocks = planned_blocks(size);
    if size <= PARTIAL_SIZE || at < PARTIAL_SIZE {
        assert(blocks[0].offset <= at < blocks[0].offset + blocks[0].len);
    } else {
        assert(blocks[1].offset <= at < blocks[1].offset + blocks[1].len);
    }
}

/// The bytes of the blocks, one block after the other.
pub open spec fn joined(blocks: Seq<Vec<u8>>) -> Seq<u8>
    decreases blocks.len(),
{
    if blocks.len() == 0 {
        Seq::empty()
    } else {
        joined(blocks.drop_last()) + blocks.last()@
    }
}

/// What the first `n` samples of a file of `size` bytes with this content hold.
pub open spec fn sampled(content: Seq<u8>, size: u64, n: int) -> Seq<u8>
    decreases n,
{
    if n <= 0 {
        Seq::empty()
    } else {
        let block = planned_blocks(size)[n - 1];
        sampled(content, size, n - 1) + content.subrange(
            block.offset as int,
            block.offset + block.len,
        )
    }
}

/// What all samples of a file with this content hold.
pub open spec fn samples(content: Seq<u8>) -> Seq<u8> {
    let size = content.len() as u64;
    sampled(content, size, planned_blocks(size).len() as int)
}

/// Whether the blocks are what reading the samples of a file with this content gave.
pub open spec fn read_from(blocks: Seq<Vec<u8>>, content: Seq<u8>) -> bool {
    let plan = planned_blocks(content.len() as u64);
    &&& blocks.len() == plan.len()
    &&& forall|i: int|
        0 <= i < blocks.len() ==> (#[trigger] blocks[i])@ == content.subrange(
            plan[i].offset as int,
            plan[i].offset + plan[i].len,
        )
}

proof fn lemma_joined_samples(blocks: Seq<Vec<u8>>, content: Seq<u8>, n: int)
    requires
        content.len() <= u64::MAX,
        read_from(blocks, content),
        0 <= n <= blocks.len(),
    ensures
        joined(blocks.take(n)) == sampled(content, content.len() as u64, n),
    decreases n,
{
    if n > 0 {
        lemma_joined_samples(blocks, content, n - 1);
        assert(blocks.take(n).drop_last() =~= blocks.take(n - 1));
        assert(blocks.take(n).last() == blocks[n - 1]);
    }
}

/// Reading a file as planned gives its samples, so that `partial_hash` gives the digest of
/// them.
pub proof fn lemma_read_samples(blocks: Seq<Vec<u8>>, content: Seq<u8>)
    requires
        content.len() <= u64::MAX,
        read_from(blocks, content),
    ensures
        joined(blocks) == samples(content),
{
    lemma_joined_samples(blocks, content, blocks.len() as int);
    assert(blocks.take(blocks.len() as int) =~= blocks);
}

proof fn lemma_joined_prefix(blocks: Seq<Vec<u8>>, n: int)
    requires
        0 <= n <= blocks.len(),
    ensures
        joined(blocks.take(n)).len() <= joined(blocks).len(),
    decreases blocks.len() - n,
{
    if n < blocks.len() {
        lemma_joined_prefix(blocks, n + 1);
        assert(blocks.take(n + 1).drop_last() =~= blocks.take(n));
    } else {
        assert(blocks.take(n) =~= blocks);
    }
}

/// The digest of the samples of a file: of what reading them gave.
pub fn partial_hash(blocks: &Vec<Vec<u8>>) -> (r: Digest)
    requires
        joined(blocks@).len() <= u64::MAX,
    ensures
        r@ == blake3_digest(joined(blocks@)),
{
    let mut hasher = new_hasher();
    let mut i: usize = 0;
    assert(blocks@.take(0) =~= Seq::empty());
    while i < blocks.len()
        invariant
            i <= blocks@.len(),
            joined(blocks@).len() <= u64::MAX,
            is_regular(hasher),
            hasher_input(hasher) == joined(blocks@.take(i as int)),
        decreases blocks@.len() - i,
    {
        proof {
            assert(blocks@.take(i + 1).drop_last() =~= blocks@.take(i as int));
            assert(blocks@.take(i + 1).last() == blocks@[i as int]);
            lemma_joined_prefix(blocks@, i + 1);
        }
        update_hasher(&mut hasher, blocks[i].as_slice());
        i = i + 1;
    }
    assert(blocks@.take(i as int) =~= blocks@);
    finalize_hasher(&hasher)
}

/// Whether a file of `size` bytes is mapped into memory to be hashed.
pub fn hashes_by_mmap(size: u64) -> (r: bool)
    ensures
        r == (size >= MMAP_THRESHOLD),
        r == (size >= 16384),
{
    size >= MMAP_THRESHOLD
}

/// The digest of the content of a file.
pub fn full_hash(content: &[u8]) -> (r: Digest)
    ensures
        r@ == blake3_digest(content@),
{
    let mut hasher = new_hasher();
    let length: usize = content.len();
    assert(content@.len() == length);
    update_hasher(&mut hasher, content);
    assert(Seq::<u8>::empty() + content@ =~= content@);
    finalize_hasher(&hasher)
}

/// The value of a lower-case hexadecimal digit.
pub open spec fn hex_value(c: char) -> int {
    if '0' <= c <= '9' {
        c as u32 - 0x30
    } else if 'a' <= c <= 'f' {
        c as u32 - 0x61 + 10
    } else {
        -1
    }
}

/// Hexadecimal text has two digits for each byte, the higher one first.
pub proof fn lemma_hex_reads_back(bytes: Seq<u8>, i: int)
    requires
        0 <= i < bytes.len(),
    ensures
        hex_text(bytes).len() == 2 * bytes.len(),
        0 <= hex_value(hex_text(bytes)[2 * i]) < 16,
        0 <= hex_value(hex_text(bytes)[2 * i + 1]) < 16,
        hex_value(hex_text(bytes)[2 * i]) * 16 + hex_value(hex_text(bytes)[2 * i + 1]) == bytes[i],
{
    let b = bytes[i] as int;
    lemma_hex_digit(b / 16);
    lemma_hex_digit(b % 16);
    assert((2 * i) % 2 == 0 && (2 * i) / 2 == i);
    assert((2 * i + 1) % 2 == 1 && (2 * i + 1) / 2 == i);
    assert(hex_text(bytes)[2 * i] == hex_digit(b / 16));
    assert(hex_text(bytes)[2 * i + 1] == hex_digit(b % 16));
}

proof fn lemma_hex_digit(n: int)
    requires
        0 <= n < 16,
    ensures
        hex_value(hex_digit(n)) == n,
{
}

/// What is sampled of a file: all of it up to 64 KiB, its first and its last 64 KiB up to
/// three times that, and beyond that the 64 KiB around its middle too.
pub proof fn lemma_blocks_planned(size: u64)
    ensures
        ({
            let blocks = planned_blocks(size);
            &&& size <= 65536 ==> blocks.len() == 1 && blocks[0].offset == 0 && blocks[0].len
                == size
            &&& 65536 < size <= 196608 ==> blocks.len() == 2
            &&& 196608 < size ==> blocks.len() == 3 && blocks[1].offset + 32768 == size / 2
            &&& 65536 < size ==> {
                &&& blocks[0].offset == 0
                &&& blocks.last().offset + 65536 == size
                &&& forall|i: int| 0 <= i < blocks.len() ==> (#[trigger] blocks[i]).len == 65536
            }
        }),
{
}

/// What the samples of a file hold, put together.
pub proof fn lemma_samples_hold(content: Seq<u8>)
    requires
        content.len() <= u64::MAX,
    ensures
        content.len() <= 65536 ==> samples(content) == content,
        65536 < content.len() <= 196608 ==> samples(content) == content.take(65536) + content.skip(
            content.len() - 65536,
        ),
        196608 < content.len() ==> samples(content) == content.take(65536) + content.subrange(
            content.len() / 2 - 32768,
            content.len() as int / 2 + 32768,
        ) + content.skip(content.len() - 65536),
{
    let size = content.len() as u64;
    reveal_with_fuel(sampled, 4);
    lemma_blocks_planned(size);
    let blocks = planned_blocks(size);
    let s = samples(content);
    if size <= 65536 {
        assert(s =~= content);
    } else if size <= 196608 {
        assert(s =~= content.take(65536) + content.skip(content.len() - 65536));
    } else {
        assert(s =~= content.take(65536) + content.subrange(
            content.len() / 2 - 32768,
            content.len() as int / 2 + 32768,
        ) + content.skip(content.len() - 65536));
    }
}

/// Blocks that were read are put together one behind the other.
pub proof fn lemma_joined_blocks(blocks: Seq<Vec<u8>>)
    ensures
        joined(blocks) == blocks.map_values(|b: Vec<u8>| b@).flatten(),
    decreases blocks.len(),
{
    let f = |b: Vec<u8>| b@;
    if blocks.len() > 0 {
        let front = blocks.drop_last();
        lemma_joined_blocks(front);
        assert(blocks.map_values(f) =~= front.map_values(f).push(blocks.last()@));
        front.map_values(f).lemma_flatten_push(blocks.last()@);
    } else {
        assert(blocks.map_values(f).flatten() =~= Seq::empty());
    }
}

} // verus!
