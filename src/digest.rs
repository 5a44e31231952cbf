use vstd::prelude::*;

verus! {

/// A running SHA-256 computation. sha2's `Sha256` is an alias over typenum-parameterised
/// cores that Verus cannot take as declared types, so it is held here out of its sight.
#[verifier::external_body]
pub struct Sha256State {
    inner: sha2::Sha256,
}

/// The bytes a running SHA-256 computation has taken in so far.
pub uninterp spec fn absorbed(h: Sha256State) -> Seq<u8>;

/// The SHA-256 digest of `data`.
pub uninterp spec fn sha256_of(data: Seq<u8>) -> Seq<u8>;

/// The character of a hex digit, lowercase.
pub open spec fn hex_digit(n: int) -> char {
    seq!['0', '1', '2', '3', '4', '5', '6', '7', '8', '9', 'a', 'b', 'c', 'd', 'e', 'f'][n]
}

/// Bytes written as lowercase hex, two digits per byte, the high one first.
pub open spec fn hex_lower(b: Seq<u8>) -> Seq<char>
    decreases b.len(),
{
    if b.len() == 0 {
        Seq::empty()
    } else {
        hex_lower(b.drop_last()) + seq![hex_digit(b.last() as int / 16), hex_digit(b.last() as int % 16)]
    }
}

/// Hex text has two characters per byte.
pub proof fn lemma_hex_lower_len(b: Seq<u8>)
    ensures
        hex_lower(b).len() == 2 * b.len(),
    decreases b.len(),
{
    if b.len() > 0 {
        lemma_hex_lower_len(b.drop_last());
    }
}

/// Relies on sha2's `Digest::new` for `Sha256`: a computation that has taken in nothing.
#[verifier::external_body]
fn sha256_new() -> (r: Sha256State)
    ensures
        absorbed(r) == Seq::<u8>::empty(),
{
    Sha256State { inner: <sha2::Sha256 as sha2::Digest>::new() }
}

/// Relies on sha2's `Digest::update` for `Sha256`: `data` follows what was taken in.
#[verifier::external_body]
fn sha256_update(h: &mut Sha256State, data: &[u8])
    ensures
        absorbed(*final(h)) == absorbed(*old(h)) + data@,
{
    <sha2::Sha256 as sha2::Digest>::update(&mut h.inner, data)
}

/// Relies on sha2's `Digest::finalize` for `Sha256`: the 32-byte digest of all that was
/// taken in.
#[verifier::external_body]
fn sha256_finalize(h: Sha256State) -> (r: Vec<u8>)
    ensures
        r@ == sha256_of(absorbed(h)),
        r@.len() == 32,
{
    <sha2::Sha256 as sha2::Digest>::finalize(h.inner).to_vec()
}

/// Relies on `hex::encode`: two lowercase hex digits per byte, the high one first.
#[verifier::external_body]
fn to_hex(data: &[u8]) -> (r: String)
    ensures
        r@ == hex_lower(data@),
{
    hex::encode(data)
}

/// The content hash of a file, fed chunk by chunk as the file is read. Dropping it
/// before `finish` leaves no digest behind.
pub struct FileHasher {
    state: Sha256State,
}

impl FileHasher {
    /// The bytes fed so far.
    pub closed spec fn fed(&self) -> Seq<u8> {
        absorbed(self.state)
    }

    /// A hash that has been fed nothing.
    pub fn new() -> (r: FileHasher)
        ensures
            r.fed() == Seq::<u8>::empty(),
    {
        FileHasher { state: sha256_new() }
    }

    /// Feeds the next chunk of the content.
    pub fn update(&mut self, chunk: &[u8])
        ensures
            final(self).fed() == old(self).fed() + chunk@,
    {
        sha256_update(&mut self.state, chunk);
    }

    /// The lowercase hex SHA-256 digest of all that was fed.
    pub fn finish(self) -> (r: String)
        ensures
            r@ == hex_lower(sha256_of(self.fed())),
            r@.len() == 64,
    {
        let digest = sha256_finalize(self.state);
        let r = to_hex(digest.as_slice());
        proof {
            lemma_hex_lower_len(digest@);
        }
        r
    }
}

} // verus!
