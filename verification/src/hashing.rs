//! Hashes of files, taken while the files are read.
use sha1::Sha1;
use sha2::{Digest, Sha256};
use vstd::prelude::*;

use crate::text;

verus! {

// ---------------------------------------------------------------------------
// The hash functions
// ---------------------------------------------------------------------------

/// The SHA-1 hasher of the crate `sha1`.
#[verifier::external_type_specification]
#[verifier::external_body]
pub struct ExSha1(sha1::Sha1);

/// The SHA-256 hasher of the crate `sha2`.
#[verifier::external_type_specification]
#[verifier::external_body]
pub struct ExSha256(sha2::Sha256);

/// The bytes that a SHA-1 hasher holds: those that it was updated with.
pub uninterp spec fn sha1_held(hasher: Sha1) -> Seq<u8>;

/// The bytes that a SHA-256 hasher holds: those that it was updated with.
pub uninterp spec fn sha256_held(hasher: Sha256) -> Seq<u8>;

/// The SHA-1 digest of a sequence of bytes.
pub uninterp spec fn sha1_digest(data: Seq<u8>) -> Seq<u8>;

/// The SHA-256 digest of a sequence of bytes.
pub uninterp spec fn sha256_digest(data: Seq<u8>) -> Seq<u8>;

/// The number of bytes from which on the bit length of a message no longer
/// fits in 64 bits.
pub const MESSAGE_LIMIT: u64 = 0x2000_0000_0000_0000;

/// `Digest::new` of `sha1::Sha1`: a hasher that holds nothing.
#[verifier::external_body]
fn sha1_new() -> (r: Sha1)
    ensures
        sha1_held(r) == Seq::<u8>::empty(),
{
    Sha1::new()
}

/// `Digest::update` of `sha1::Sha1`: puts the bytes behind those that the
/// hasher holds.
#[verifier::external_body]
fn sha1_update(hasher: &mut Sha1, data: &[u8])
    requires
        sha1_held(*old(hasher)).len() + data@.len() < MESSAGE_LIMIT,
    ensures
        sha1_held(*final(hasher)) == sha1_held(*old(hasher)) + data@,
{
    hasher.update(data)
}

/// `Digest::finalize` of `sha1::Sha1`: the digest, twenty bytes long, of what
/// the hasher holds.
#[verifier::external_body]
fn sha1_finalize(hasher: Sha1) -> (r: Vec<u8>)
    requires
        sha1_held(hasher).len() < MESSAGE_LIMIT,
    ensures
        r@ == sha1_digest(sha1_held(hasher)),
        r@.len() == 20,
{
    hasher.finalize().to_vec()
}

/// `Digest::new` of `sha2::Sha256`: a hasher that holds nothing.
#[verifier::external_body]
fn sha256_new() -> (r: Sha256)
    ensures
        sha256_held(r) == Seq::<u8>::empty(),
{
    Sha256::new()
}

/// `Digest::update` of `sha2::Sha256`: puts the bytes behind those that the
/// hasher holds.
#[verifier::external_body]
fn sha256_update(hasher: &mut Sha256, data: &[u8])
    requires
        sha256_held(*old(hasher)).len() + data@.len() < MESSAGE_LIMIT,
    ensures
        sha256_held(*final(hasher)) == sha256_held(*old(hasher)) + data@,
{
    hasher.update(data)
}

/// `Digest::finalize` of `sha2::Sha256`: the digest, thirty-two bytes long, of
/// what the hasher holds.
#[verifier::external_body]
fn sha256_finalize(hasher: Sha256) -> (r: Vec<u8>)
    requires
        sha256_held(hasher).len() < MESSAGE_LIMIT,
    ensures
        r@ == sha256_digest(sha256_held(hasher)),
        r@.len() == 32,
{
    hasher.finalize().to_vec()
}

// ---------------------------------------------------------------------------
// The hash of a file
// ---------------------------------------------------------------------------

/// The hash functions in use.
#[derive(Clone, Copy, PartialEq, Eq, Structural, Debug)]
pub enum HashKind {
    Sha1,
    Sha256,
}

/// The hash of `data`, in hexadecimal.
pub open spec fn hash_of(kind: HashKind, data: Seq<u8>) -> Seq<char> {
    match kind {
        HashKind::Sha1 => text::hex(sha1_digest(data)),
        HashKind::Sha256 => text::hex(sha256_digest(data)),
    }
}

/// The number of characters in a hash.
pub open spec fn hash_length(kind: HashKind) -> nat {
    match kind {
        HashKind::Sha1 => 40,
        HashKind::Sha256 => 64,
    }
}

/// A hash of forty bytes of text is taken for SHA-1, any other for SHA-256.
pub open spec fn kind_for(expected: Seq<char>) -> HashKind {
    if vstd::utf8::encode_utf8(expected).len() == 40 {
        HashKind::Sha1
    } else {
        HashKind::Sha256
    }
}

/// The hash function that made `expected`, by its length.
pub fn hash_kind(expected: &str) -> (r: HashKind)
    ensures
        r == kind_for(expected@),
{
    if expected.as_bytes().len() == 40 {
        HashKind::Sha1
    } else {
        HashKind::Sha256
    }
}

enum Engine {
    Sha1(Sha1),
    Sha256(Sha256),
}

/// A file whose hash is being taken.
pub struct FileHash {
    engine: Engine,
    length: u64,
}

/// What came of reading on in a file.
pub enum ReadEvent<'a> {
    /// These bytes. None at all means that the file has come to its end.
    Bytes(&'a [u8]),
    /// Reading failed, for this reason.
    Failed(String),
    /// Reading took too long.
    TimedOut,
}

/// Where the hash of a file stands.
pub enum HashStep {
    /// Read on.
    More(FileHash),
    /// The hash, in hexadecimal.
    Finished(String),
    /// No hash, for this reason.
    Failed(String),
}

impl FileHash {
    /// The hash function in use.
    pub closed spec fn kind(self) -> HashKind {
        match self.engine {
            Engine::Sha1(_) => HashKind::Sha1,
            Engine::Sha256(_) => HashKind::Sha256,
        }
    }

    /// The bytes that were read.
    pub closed spec fn data(self) -> Seq<u8> {
        match self.engine {
            Engine::Sha1(hasher) => sha1_held(hasher),
            Engine::Sha256(hasher) => sha256_held(hasher),
        }
    }

    /// The bytes are counted, and there are not too many of them.
    pub closed spec fn wf(self) -> bool {
        &&& self.length == self.data().len()
        &&& self.length < MESSAGE_LIMIT
    }

    /// Begins the hash of a file.
    pub fn new(kind: HashKind) -> (r: Self)
        ensures
            r.wf(),
            r.kind() == kind,
            r.data() == Seq::<u8>::empty(),
    {
        match kind {
            HashKind::Sha1 => FileHash { engine: Engine::Sha1(sha1_new()), length: 0 },
            HashKind::Sha256 => FileHash { engine: Engine::Sha256(sha256_new()), length: 0 },
        }
    }

    /// The number of bytes that were read.
    pub fn length(&self) -> (r: u64)
        requires
            self.wf(),
        ensures
            r == self.data().len(),
            r < MESSAGE_LIMIT,
    {
        self.length
    }

    /// Takes what came of reading on.
    pub fn step(self, event: ReadEvent) -> (r: HashStep)
        requires
            self.wf(),
            event matches ReadEvent::Bytes(bytes) ==> self.data().len() + bytes@.len()
                < MESSAGE_LIMIT,
        ensures
            match event {
                ReadEvent::Bytes(bytes) => if bytes@.len() == 0 {
                    r matches HashStep::Finished(hash) && hash@ == hash_of(
                        self.kind(),
                        self.data(),
                    ) && kind_for(hash@) == self.kind() && hash@.len() == hash_length(self.kind())
                } else {
                    r matches HashStep::More(next) && next.wf() && next.kind() == self.kind()
                        && next.data() == self.data() + bytes@
                },
                ReadEvent::Failed(reason) => r matches HashStep::Failed(e) && e@ == reason@,
                ReadEvent::TimedOut => r matches HashStep::Failed(e) && e@
                    == "Hash computation timed out"@,
            },
    {
        match event {
            ReadEvent::Bytes(bytes) => {
                let count: usize = bytes.len();
                if count == 0 {
                    let digest = match self.engine {
                        Engine::Sha1(hasher) => sha1_finalize(hasher),
                        Engine::Sha256(hasher) => sha256_finalize(hasher),
                    };
                    proof {
                        text::lemma_hex_is_ascii(digest@);
                        vstd::utf8::is_ascii_chars_encode_utf8(text::hex(digest@));
                    }
                    HashStep::Finished(text::hex_text(&digest))
                } else {
                    let length: u64 = self.length + count as u64;
                    let engine = match self.engine {
                        Engine::Sha1(hasher) => {
                            let mut next = hasher;
                            sha1_update(&mut next, bytes);
                            Engine::Sha1(next)
                        },
                        Engine::Sha256(hasher) => {
                            let mut next = hasher;
                            sha256_update(&mut next, bytes);
                            Engine::Sha256(next)
                        },
                    };
                    HashStep::More(FileHash { engine, length })
                }
            },
            ReadEvent::Failed(reason) => HashStep::Failed(reason),
            ReadEvent::TimedOut => HashStep::Failed("Hash computation timed out".to_string()),
        }
    }
}

/// The bytes that have been read once `pieces` came behind `data`, one read
/// after the other.
pub open spec fn read_on(data: Seq<u8>, pieces: Seq<Seq<u8>>) -> Seq<u8>
    decreases pieces.len(),
{
    if pieces.len() == 0 {
        data
    } else {
        read_on(data + pieces.first(), pieces.drop_first())
    }
}

proof fn lemma_read_on(data: Seq<u8>, pieces: Seq<Seq<u8>>)
    ensures
        read_on(data, pieces) == data + pieces.flatten(),
    decreases pieces.len(),
{
    if pieces.len() == 0 {
        assert(data + pieces.flatten() =~= data);
    } else {
        lemma_read_on(data + pieces.first(), pieces.drop_first());
        assert((data + pieces.first()) + pieces.drop_first().flatten() =~= data + (pieces.first()
            + pieces.drop_first().flatten()));
    }
}

/// The hash of a file does not depend on the pieces in which it is read.
pub proof fn law_hash_ignores_piece_boundaries(
    kind: HashKind,
    file: Seq<u8>,
    pieces: Seq<Seq<u8>>,
)
    requires
        pieces.flatten() == file,
    ensures
        hash_of(kind, read_on(Seq::empty(), pieces)) == hash_of(kind, file),
{
    lemma_read_on(Seq::empty(), pieces);
    assert(Seq::<u8>::empty() + pieces.flatten() =~= file);
}

/// A hash is the hexadecimal form of the digest of all bytes, by the function
/// that it is said to be of.
pub proof fn law_hash_is_the_digest_in_hexadecimal(data: Seq<u8>)
    ensures
        hash_of(HashKind::Sha1, data) == text::hex(sha1_digest(data)),
        hash_of(HashKind::Sha256, data) == text::hex(sha256_digest(data)),
        hash_length(HashKind::Sha1) == 40,
        hash_length(HashKind::Sha256) == 64,
{
}

/// The length of a hash tells its function: forty characters are SHA-1, any other
/// number is SHA-256; where the text is not ASCII, its bytes are counted.
pub proof fn law_length_tells_the_function(expected: Seq<char>)
    ensures
        vstd::utf8::is_ascii_chars(expected) ==> (kind_for(expected) is Sha1 <==> expected.len()
            == 40),
        kind_for(expected) is Sha1 <==> vstd::utf8::encode_utf8(expected).len() == 40,
{
    if vstd::utf8::is_ascii_chars(expected) {
        vstd::utf8::is_ascii_chars_encode_utf8(expected);
    }
}

/// Reading on puts each piece behind those that were read.
pub proof fn law_pieces_are_read_in_order(data: Seq<u8>, pieces: Seq<Seq<u8>>, piece: Seq<u8>)
    ensures
        read_on(data, pieces.push(piece)) == read_on(data, pieces) + piece,
        read_on(data, Seq::empty()) == data,
    decreases pieces.len(),
{
    reveal_with_fuel(read_on, 2);
    let longer = pieces.push(piece);
    if pieces.len() == 0 {
        assert(longer.drop_first() =~= Seq::empty());
        assert(longer.first() == piece);
    } else {
        law_pieces_are_read_in_order(data + pieces.first(), pieces.drop_first(), piece);
        assert(longer.drop_first() =~= pieces.drop_first().push(piece));
        assert(longer.first() == pieces.first());
    }
}

/// Files of less than two to the power of sixty-one bytes can be hashed: their
/// length in bits fits in 64 bits.
pub proof fn law_message_limit()
    ensures
        MESSAGE_LIMIT * 8 == 0x1_0000_0000_0000_0000,
{
}

/// The hash of a file that is read in two pieces is the digest of the pieces, one
/// behind the other, in hexadecimal, by the function that was asked for.
pub proof fn law_hash_of_two_pieces(
    kind: HashKind,
    a: &[u8],
    b: &[u8],
    end: &[u8],
    fresh: FileHash,
    one: FileHash,
    two: FileHash,
    hash: String,
)
    requires
        a@.len() > 0,
        b@.len() > 0,
        end@.len() == 0,
        call_ensures(FileHash::new, (kind,), fresh),
        call_ensures(FileHash::step, (fresh, ReadEvent::Bytes(a)), HashStep::More(one)),
        call_ensures(FileHash::step, (one, ReadEvent::Bytes(b)), HashStep::More(two)),
        call_ensures(FileHash::step, (two, ReadEvent::Bytes(end)), HashStep::Finished(hash)),
    ensures
        kind is Sha1 ==> hash@ == text::hex(sha1_digest(a@ + b@)) && hash@.len() == 40,
        kind is Sha256 ==> hash@ == text::hex(sha256_digest(a@ + b@)) && hash@.len() == 64,
{
    assert(Seq::<u8>::empty() + a@ + b@ =~= a@ + b@);
}

/// What ends the reading of a file ends its hash: a failure with its reason, and
/// a wait that took too long with one of its own.
pub proof fn law_failed_reading_gives_no_hash(
    hash: FileHash,
    reason: String,
    failed: HashStep,
    late: HashStep,
)
    requires
        call_ensures(FileHash::step, (hash, ReadEvent::Failed(reason)), failed),
        call_ensures(FileHash::step, (hash, ReadEvent::TimedOut), late),
    ensures
        failed matches HashStep::Failed(e) && e@ == reason@,
        late matches HashStep::Failed(e) && e@ == "Hash computation timed out"@,
{
}

/// The function is chosen by the length of the expected hash.
pub proof fn law_hash_kind(expected: &str, r: HashKind)
    requires
        vstd::utf8::is_ascii_chars(expected@),
        call_ensures(hash_kind, (expected,), r),
    ensures
        r is Sha1 <==> expected@.len() == 40,
{
    law_length_tells_the_function(expected@);
}

}
