//! Checksum calculation: the BLAKE2b-512 digest of a file's content, written as
//! lowercase hexadecimal.
//!
//! The digest itself is the work of the `blake2` crate. The library feeds it the
//! content chunk by chunk and writes its bytes out as text.

use vstd::prelude::*;
use vstd::string::StringExecFns;

verus! {

/// The BLAKE2b-512 digest of `data`, as the `blake2` crate computes it.
pub uninterp spec fn blake2b512(data: Seq<u8>) -> Seq<u8>;

/// The bytes that a hasher has taken in so far, in the order it took them.
pub uninterp spec fn absorbed(hasher: Blake2bHasher) -> Seq<u8>;

/// A BLAKE2b-512 hasher of the `blake2` crate, `blake2::Blake2b512`.
///
/// The type is an alias of a generic type whose arguments the crates behind it
/// do not all export, so it is held here unseen.
#[verifier::external_body]
pub struct Blake2bHasher {
    inner: blake2::Blake2b512,
}

/// `Digest::new` of `blake2::Blake2b512`: a hasher that has taken in nothing.
#[verifier::external_body]
fn hasher_new() -> (hasher: Blake2bHasher)
    ensures
        absorbed(hasher) == Seq::<u8>::empty(),
{
    Blake2bHasher { inner: <blake2::Blake2b512 as blake2::Digest>::new() }
}

/// `Digest::update` of `blake2::Blake2b512`: the hasher takes in `data` after
/// what it has taken in before. How the bytes are cut into calls makes no
/// difference to it: it buffers them into blocks of its own.
///
/// The hasher counts its bytes in a `u64`, which the `requires` keeps from
/// overflowing.
#[verifier::external_body]
fn hasher_update(hasher: &mut Blake2bHasher, data: &[u8])
    requires
        absorbed(*old(hasher)).len() + data@.len() <= u64::MAX,
    ensures
        absorbed(*final(hasher)) == absorbed(*old(hasher)) + data@,
{
    blake2::Digest::update(&mut hasher.inner, data)
}

/// `Digest::finalize` of `blake2::Blake2b512`: the digest of all that the hasher
/// has taken in. BLAKE2b-512 digests are 64 bytes long.
#[verifier::external_body]
fn hasher_finalize(hasher: Blake2bHasher) -> (digest: Vec<u8>)
    ensures
        digest@ == blake2b512(absorbed(hasher)),
        digest@.len() == 64,
{
    blake2::Digest::finalize(hasher.inner).to_vec()
}

/// The sixteen hexadecimal digits, in lower case.
pub open spec fn hex_digits() -> Seq<char> {
    "0123456789abcdef"@
}

/// `bytes` in hexadecimal: two lowercase digits for each byte, the high half
/// first.
pub open spec fn hex(bytes: Seq<u8>) -> Seq<char>
    decreases bytes.len(),
{
    if bytes.len() == 0 {
        Seq::empty()
    } else {
        hex(bytes.drop_last()).push(hex_digits()[bytes.last() as int / 16]).push(
            hex_digits()[bytes.last() as int % 16],
        )
    }
}

/// The checksum of a file with this content.
pub open spec fn checksum_of(content: Seq<u8>) -> Seq<char> {
    hex(blake2b512(content))
}

/// Whether `text` has the shape of a checksum: 128 hexadecimal digits in lower
/// case, which stand for 512 bits.
pub open spec fn is_checksum(text: Seq<char>) -> bool {
    text.len() == 128 && forall|i: int|
        0 <= i < text.len() ==> hex_digits().contains(#[trigger] text[i])
}

/// All the chunks, one after another.
pub open spec fn concat(chunks: Seq<Vec<u8>>) -> Seq<u8>
    decreases chunks.len(),
{
    if chunks.len() == 0 {
        Seq::empty()
    } else {
        concat(chunks.drop_last()) + chunks.last()@
    }
}

/// The hexadecimal digit for a value below sixteen, as a string of one character.
fn hex_digit(value: u8) -> (digit: &'static str)
    requires
        value < 16,
    ensures
        digit@ == seq![hex_digits()[value as int]],
{
    proof {
        reveal_strlit("0123456789abcdef");
        reveal_strlit("0");
        reveal_strlit("1");
        reveal_strlit("2");
        reveal_strlit("3");
        reveal_strlit("4");
        reveal_strlit("5");
        reveal_strlit("6");
        reveal_strlit("7");
        reveal_strlit("8");
        reveal_strlit("9");
        reveal_strlit("a");
        reveal_strlit("b");
        reveal_strlit("c");
        reveal_strlit("d");
        reveal_strlit("e");
        reveal_strlit("f");
    }
    let digit = match value {
        0 => "0",
        1 => "1",
        2 => "2",
        3 => "3",
        4 => "4",
        5 => "5",
        6 => "6",
        7 => "7",
        8 => "8",
        9 => "9",
        10 => "a",
        11 => "b",
        12 => "c",
        13 => "d",
        14 => "e",
        _ => "f",
    };
    assert(digit@ =~= seq![hex_digits()[value as int]]);
    digit
}

/// Hexadecimal takes two digits for each byte, and nothing but digits.
pub proof fn lemma_hex_shape(bytes: Seq<u8>)
    ensures
        hex(bytes).len() == 2 * bytes.len(),
        forall|i: int| 0 <= i < hex(bytes).len() ==> hex_digits().contains(#[trigger] hex(bytes)[i]),
    decreases bytes.len(),
{
    reveal_strlit("0123456789abcdef");
    if bytes.len() > 0 {
        let rest = hex(bytes.drop_last());
        let high = bytes.last() as int / 16;
        let low = bytes.last() as int % 16;
        lemma_hex_shape(bytes.drop_last());
        assert forall|i: int| 0 <= i < hex(bytes).len() implies hex_digits().contains(
            #[trigger] hex(bytes)[i],
        ) by {
            if i < rest.len() {
                assert(hex(bytes)[i] == rest[i]);
            } else if i == rest.len() {
                assert(hex(bytes)[i] == hex_digits()[high]);
            } else {
                assert(hex(bytes)[i] == hex_digits()[low]);
            }
        }
    }
}

/// Writes bytes out in lowercase hexadecimal.
pub fn to_hex(bytes: &[u8]) -> (text: String)
    ensures
        text@ == hex(bytes@),
{
    let mut text = String::new();
    let mut i: usize = 0;
    while i < bytes.len()
        invariant
            i <= bytes.len(),
            text@ == hex(bytes@.take(i as int)),
        decreases bytes.len() - i,
    {
        let byte = bytes[i];
        text.append(hex_digit(byte / 16));
        text.append(hex_digit(byte % 16));
        proof {
            assert(bytes@.take(i + 1).drop_last() =~= bytes@.take(i as int));
            assert(text@ =~= hex(bytes@.take(i + 1)));
        }
        i += 1;
    }
    proof {
        assert(bytes@.take(i as int) =~= bytes@);
    }
    text
}

/// A checksum in the making: it takes in a file's content chunk by chunk, so
/// that the file never has to stand in memory as a whole.
pub struct Checksum {
    hasher: Blake2bHasher,
    taken: u64,
}

impl Checksum {
    /// Whether the count of bytes is that of the content taken in.
    pub closed spec fn wf(self) -> bool {
        self.taken == absorbed(self.hasher).len()
    }

    /// The content taken in so far.
    pub closed spec fn content(self) -> Seq<u8> {
        absorbed(self.hasher)
    }

    /// A checksum that has taken in nothing yet.
    pub fn new() -> (checksum: Checksum)
        ensures
            checksum.wf(),
            checksum.content() == Seq::<u8>::empty(),
    {
        Checksum { hasher: hasher_new(), taken: 0 }
    }

    /// Takes in the next chunk of the content.
    ///
    /// The hasher cannot count more than `u64::MAX` bytes. A chunk that would
    /// take it past that is refused: the answer is `false` and nothing changes.
    pub fn update(&mut self, chunk: &[u8]) -> (taken: bool)
        requires
            old(self).wf(),
        ensures
            final(self).wf(),
            taken == (old(self).content().len() + chunk@.len() <= u64::MAX),
            final(self).content() == if taken {
                old(self).content() + chunk@
            } else {
                old(self).content()
            },
    {
        let length = chunk.len() as u64;
        if length > u64::MAX - self.taken {
            return false;
        }
        hasher_update(&mut self.hasher, chunk);
        self.taken = self.taken + length;
        true
    }

    /// The checksum of the content taken in.
    pub fn finalize(self) -> (checksum: String)
        requires
            self.wf(),
        ensures
            checksum@ == checksum_of(self.content()),
            is_checksum(checksum@),
    {
        let digest = hasher_finalize(self.hasher);
        proof {
            lemma_hex_shape(digest@);
        }
        to_hex(digest.as_slice())
    }
}

/// The checksum of a file's content that is at hand as a whole.
pub fn get_blake2_checksum(content: &[u8]) -> (checksum: String)
    ensures
        checksum@ == checksum_of(content@),
        is_checksum(checksum@),
{
    let mut state = Checksum::new();
    let ghost length = content.len();
    let taken = state.update(content);
    assert(taken && state.content() =~= content@) by {
        assert(content@.len() == length);
    }
    state.finalize()
}

/// The checksum of a file's content that comes in chunks. Where the cuts fall
/// makes no difference: the checksum is that of the chunks put together.
///
/// The answer is `None` where the content is longer than `u64::MAX` bytes, which
/// is more than the hasher can count.
pub fn checksum_of_chunks(chunks: &Vec<Vec<u8>>) -> (checksum: Option<String>)
    ensures
        match checksum {
            Some(text) => concat(chunks@).len() <= u64::MAX && text@ == checksum_of(concat(chunks@))
                && is_checksum(text@),
            None => concat(chunks@).len() > u64::MAX,
        },
{
    let mut state = Checksum::new();
    let mut i: usize = 0;
    while i < chunks.len()
        invariant
            i <= chunks.len(),
            state.wf(),
            state.content() == concat(chunks@.take(i as int)),
            state.content().len() <= u64::MAX,
        decreases chunks.len() - i,
    {
        proof {
            assert(chunks@.take(i + 1).drop_last() =~= chunks@.take(i as int));
        }
        if !state.update(chunks[i].as_slice()) {
            proof {
                lemma_concat_grows(chunks@, i + 1);
            }
            return None;
        }
        i += 1;
    }
    proof {
        assert(chunks@.take(i as int) =~= chunks@);
    }
    Some(state.finalize())
}

/// The first `n` chunks together are no longer than all of them.
pub proof fn lemma_concat_grows(chunks: Seq<Vec<u8>>, n: int)
    requires
        0 <= n <= chunks.len(),
    ensures
        concat(chunks.take(n)).len() <= concat(chunks).len(),
    decreases chunks.len() - n,
{
    if n < chunks.len() {
        assert(chunks.take(n + 1).drop_last() =~= chunks.take(n));
        lemma_concat_grows(chunks, n + 1);
    } else {
        assert(chunks.take(n) =~= chunks);
    }
}

} // verus!
