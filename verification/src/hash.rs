//! Content hashes: SHA-256, and its spelling in hexadecimal digits.

use vstd::prelude::*;

verus! {

/// `sha2::Sha256`, a hash that is being computed.
#[verifier::external_type_specification]
#[verifier::external_body]
pub struct ExSha256(sha2::Sha256);

/// The SHA-256 digest of these bytes, as the `sha2` crate computes it.
pub uninterp spec fn sha256(bytes: Seq<u8>) -> Seq<u8>;

/// The bytes that a hash was fed with so far.
pub uninterp spec fn fed(hasher: sha2::Sha256) -> Seq<u8>;

/// `sha2::Digest::new` makes a hash that was fed with nothing.
#[verifier::external_body]
fn start() -> (hasher: sha2::Sha256)
    ensures
        fed(hasher) == Seq::<u8>::empty(),
{
    <sha2::Sha256 as sha2::Digest>::new()
}

/// `sha2::Digest::update` feeds the hash with more bytes, behind those that it has.
#[verifier::external_body]
fn feed(hasher: &mut sha2::Sha256, bytes: &[u8])
    ensures
        fed(*final(hasher)) == fed(*old(hasher)) + bytes@,
{
    sha2::Digest::update(hasher, bytes)
}

/// `sha2::Digest::finalize` gives the digest of all bytes that the hash was fed with. It is a
/// function of these bytes, however they were cut; what it is on given bytes is not claimed.
#[verifier::external_body]
fn finalize(hasher: sha2::Sha256) -> (hash: [u8; 32])
    ensures
        hash@ == sha256(fed(hasher)),
{
    sha2::Digest::finalize(hasher).into()
}

/// A content hash that is computed piece by piece.
pub struct Hasher {
    inner: sha2::Sha256,
}

impl View for Hasher {
    type V = Seq<u8>;

    closed spec fn view(&self) -> Seq<u8> {
        fed(self.inner)
    }
}

impl Hasher {
    /// The hash of nothing so far.
    pub fn new() -> (hasher: Hasher)
        ensures
            hasher@ == Seq::<u8>::empty(),
    {
        Hasher { inner: start() }
    }

    /// The next piece of the content.
    pub fn update(&mut self, bytes: &[u8])
        ensures
            final(self)@ == old(self)@ + bytes@,
    {
        feed(&mut self.inner, bytes);
    }

    /// The SHA-256 digest that identifies the content.
    pub fn finish(self) -> (hash: [u8; 32])
        ensures
            hash@ == sha256(self@),
    {
        finalize(self.inner)
    }
}

/// The SHA-256 digest that identifies this content.
pub fn hash_bytes(bytes: &[u8]) -> (hash: [u8; 32])
    ensures
        hash@ == sha256(bytes@),
{
    let mut hasher = Hasher::new();
    hasher.update(bytes);
    assert(hasher@ =~= bytes@);
    hasher.finish()
}

/// However a content is cut into two pieces, it has one hash.
pub proof fn law_pieces_do_not_matter(bytes: Seq<u8>, cut: int)
    requires
        0 <= cut <= bytes.len(),
    ensures
        sha256(Seq::<u8>::empty() + bytes.take(cut) + bytes.skip(cut)) == sha256(bytes),
{
    assert(Seq::<u8>::empty() + bytes.take(cut) + bytes.skip(cut) =~= bytes);
}

/// The hexadecimal digit, in lower case, for a number below sixteen.
pub open spec fn hex_digit(n: int) -> char {
    if n < 10 {
        (48 + n) as char
    } else {
        (87 + n) as char
    }
}

/// Two hexadecimal digits for each byte, the higher one first.
pub open spec fn hex(bytes: Seq<u8>) -> Seq<char> {
    Seq::new(
        2 * bytes.len(),
        |i: int|
            hex_digit(
                if i % 2 == 0 {
                    bytes[i / 2] as int / 16
                } else {
                    bytes[i / 2] as int % 16
                },
            ),
    )
}

fn hex_char(n: u8) -> (c: char)
    requires
        n < 16,
    ensures
        c == hex_digit(n as int),
{
    if n < 10 {
        (48 + n) as char
    } else {
        (87 + n) as char
    }
}

/// Bytes in hexadecimal digits.
pub fn hex_text(bytes: &[u8]) -> (text: String)
    ensures
        text@ == hex(bytes@),
{
    let mut text = String::new();
    let mut i: usize = 0;
    while i < bytes.len()
        invariant
            i <= bytes@.len(),
            text@ == hex(bytes@).take(2 * i),
        decreases bytes@.len() - i,
    {
        let b = bytes[i];
        text.push(hex_char(b / 16));
        text.push(hex_char(b % 16));
        i += 1;
        assert(text@ =~= hex(bytes@).take(2 * i));
    }
    assert(text@ =~= hex(bytes@));
    text
}

/// A digest in hexadecimal digits.
pub fn to_hex(hash: &[u8; 32]) -> (text: String)
    ensures
        text@ == hex(hash@),
        text@.len() == 64,
{
    hex_text(hash.as_slice())
}

proof fn lemma_hex_digit_injective(a: int, b: int)
    requires
        0 <= a < 16,
        0 <= b < 16,
        hex_digit(a) == hex_digit(b),
    ensures
        a == b,
{
}

/// Bytes that are spelled alike are equal.
pub proof fn law_hex_injective(a: Seq<u8>, b: Seq<u8>)
    requires
        hex(a) == hex(b),
    ensures
        a == b,
{
    assert(hex(a).len() == 2 * a.len());
    assert(hex(b).len() == 2 * b.len());
    assert forall|i: int| 0 <= i < a.len() implies a[i] == b[i] by {
        assert((2 * i) / 2 == i && (2 * i) % 2 == 0);
        assert((2 * i + 1) / 2 == i && (2 * i + 1) % 2 == 1);
        assert(hex(a)[2 * i] == hex_digit(a[i] as int / 16));
        assert(hex(b)[2 * i] == hex_digit(b[i] as int / 16));
        assert(hex(a)[2 * i + 1] == hex_digit(a[i] as int % 16));
        assert(hex(b)[2 * i + 1] == hex_digit(b[i] as int % 16));
        lemma_hex_digit_injective(a[i] as int / 16, b[i] as int / 16);
        lemma_hex_digit_injective(a[i] as int % 16, b[i] as int % 16);
    }
    assert(a =~= b);
}

/// The number that a hexadecimal digit in lower case stands for.
pub open spec fn digit_value(c: char) -> int {
    if '0' <= c <= '9' {
        c as int - '0' as int
    } else {
        c as int - 'a' as int + 10
    }
}

/// The two digits of each byte give the byte again.
pub proof fn lemma_hex_spells(bytes: Seq<u8>)
    ensures
        hex(bytes).len() == 2 * bytes.len(),
        forall|i: int|
            0 <= i < hex(bytes).len() ==> '0' <= #[trigger] hex(bytes)[i] <= '9' || 'a' <= hex(
                bytes,
            )[i] <= 'f',
        forall|i: int|
            0 <= i < bytes.len() ==> #[trigger] bytes[i] == 16 * digit_value(hex(bytes)[2 * i])
                + digit_value(hex(bytes)[2 * i + 1]),
{
    assert forall|i: int| 0 <= i < bytes.len() implies #[trigger] bytes[i] == 16 * digit_value(
        hex(bytes)[2 * i],
    ) + digit_value(hex(bytes)[2 * i + 1]) by {
        assert((2 * i) / 2 == i && (2 * i) % 2 == 0);
        assert((2 * i + 1) / 2 == i && (2 * i + 1) % 2 == 1);
    }
}

/// Bytes are spelled in hexadecimal digits, in lower case: two for each, which give the byte again.
pub proof fn law_hex_spells_the_bytes(bytes: &[u8], text: String)
    requires
        call_ensures(hex_text, (bytes,), text),
    ensures
        text@.len() == 2 * bytes@.len(),
        forall|i: int|
            0 <= i < text@.len() ==> '0' <= #[trigger] text@[i] <= '9' || 'a' <= text@[i] <= 'f',
        forall|i: int|
            0 <= i < bytes@.len() ==> #[trigger] bytes@[i] == 16 * digit_value(text@[2 * i])
                + digit_value(text@[2 * i + 1]),
{
    lemma_hex_spells(bytes@);
}

/// A digest is spelled as its bytes are.
pub proof fn law_a_digest_is_spelled_as_its_bytes(
    hash: &[u8; 32],
    bytes: &[u8],
    spelled: String,
    text: String,
)
    requires
        call_ensures(to_hex, (hash,), spelled),
        call_ensures(hex_text, (bytes,), text),
        bytes@ == hash@,
    ensures
        spelled@ == text@,
        spelled@.len() == 64,
{
}

/// A content has one hash, whether it is hashed at once or fed piece by piece, and however it is cut.
pub proof fn law_hashing_by_pieces_is_hashing_at_once(
    begun: Hasher,
    first: &mut Hasher,
    second: &mut Hasher,
    a: &[u8],
    b: &[u8],
    fed: Hasher,
    pieces: [u8; 32],
    whole: &[u8],
    once: [u8; 32],
)
    requires
        call_ensures(Hasher::new, (), begun),
        old(first)@ == begun@,
        call_ensures(Hasher::update, (first, a), ()),
        old(second)@ == final(first)@,
        call_ensures(Hasher::update, (second, b), ()),
        fed@ == final(second)@,
        call_ensures(Hasher::finish, (fed,), pieces),
        whole@ == a@ + b@,
        call_ensures(hash_bytes, (whole,), once),
    ensures
        pieces@ == once@,
        once@ == sha256(whole@),
{
    assert(Seq::<u8>::empty() + a@ + b@ =~= a@ + b@);
}

} // verus!
