//! Digests: the bytes of a hash, their hexadecimal form, and SHA-1.

use crate::text::{hex_digit, hex_text};
use sha1::Digest;
use vstd::prelude::*;

verus! {

/// The `N` bytes of a digest.
#[derive(Clone, Debug, Eq)]
pub struct HashBytes<const N: usize> {
    data: [u8; N],
}

impl<const N: usize> View for HashBytes<N> {
    type V = Seq<u8>;

    closed spec fn view(&self) -> Seq<u8> {
        self.data@
    }
}

/// The value of a hexadecimal digit of either case.
pub open spec fn hex_value(c: char) -> Option<int> {
    if '0' <= c <= '9' {
        Some(c as int - '0' as int)
    } else if 'a' <= c <= 'f' {
        Some(c as int - 'a' as int + 10)
    } else if 'A' <= c <= 'F' {
        Some(c as int - 'A' as int + 10)
    } else {
        None
    }
}

/// The bytes that `text` spells in hexadecimal: two digits of either case
/// for each byte, and nothing else.
pub open spec fn unhex(text: Seq<char>) -> Option<Seq<u8>> {
    if text.len() % 2 == 0 && forall|i: int| 0 <= i < text.len() ==> hex_value(#[trigger] text[i])
        is Some {
        Some(
            Seq::new(
                text.len() / 2,
                |i: int| (hex_value(text[2 * i]).unwrap() * 16 + hex_value(text[2 * i + 1]).unwrap()) as u8,
            ),
        )
    } else {
        None
    }
}

/// The SHA-1 digest of `data`.
pub uninterp spec fn sha1_of(data: Seq<u8>) -> Seq<u8>;

/// `sha1::Sha1::digest`, the SHA-1 digest of a byte string. The contract
/// gives the digest its name; it says nothing of how the digest is computed.
#[verifier::external_body]
fn sha1_digest(data: &[u8]) -> (digest: [u8; 20])
    ensures
        digest@ == sha1_of(data@),
{
    sha1::Sha1::digest(data).into()
}

/// `hex::encode`: two lowercase hexadecimal digits for each byte, in order.
#[verifier::external_body]
fn hex_encode(data: &[u8]) -> (text: String)
    ensures
        text@ == hex_text(data@),
{
    hex::encode(data)
}

/// `hex::decode_to_slice` into `N` bytes: succeeds where the text is `2 * N`
/// hexadecimal digits of either case, and then gives the bytes they spell.
#[verifier::external_body]
fn hex_decode<const N: usize>(text: &str) -> (data: Option<[u8; N]>)
    ensures
        match data {
            Some(bytes) => unhex(text@) == Some(bytes@),
            None => unhex(text@) is None || unhex(text@).unwrap().len() != N,
        },
{
    let mut bytes = [0u8;N];
    match hex::decode_to_slice(text, &mut bytes) {
        Ok(()) => Some(bytes),
        Err(_) => None,
    }
}

impl<const N: usize> HashBytes<N> {
    pub fn new(data: [u8; N]) -> (h: Self)
        ensures
            h@ == data@,
    {
        HashBytes { data }
    }

    /// The bytes of the digest.
    pub fn as_bytes(&self) -> (bytes: &[u8; N])
        ensures
            bytes@ == self@,
    {
        &self.data
    }

    /// The digest in lowercase hexadecimal.
    pub fn to_string(&self) -> (text: String)
        ensures
            text@ == hex_text(self@),
    {
        hex_encode(self.data.as_slice())
    }

    /// Reads a digest from hexadecimal text of exactly `2 * N` digits.
    pub fn from_hex(text: &str) -> (h: Option<Self>)
        ensures
            match h {
                Some(hash) => unhex(text@) == Some(hash@),
                None => unhex(text@) is None || unhex(text@).unwrap().len() != N,
            },
    {
        match hex_decode::<N>(text) {
            Some(data) => Some(HashBytes { data }),
            None => None,
        }
    }
}

/// Digests with the same bytes are the same digest.
pub proof fn lemma_same_bytes<const N: usize>(a: HashBytes<N>, b: HashBytes<N>)
    requires
        a@ == b@,
    ensures
        a == b,
{
    assert(a.data =~= b.data);
}

/// The SHA-1 digest of `data`.
pub fn sha1(data: &[u8]) -> (h: HashBytes<20>)
    ensures
        h@ == sha1_of(data@),
{
    HashBytes { data: sha1_digest(data) }
}

/// A hexadecimal digit has the value that it was written for.
pub proof fn lemma_hex_digit_value(n: int)
    requires
        0 <= n < 16,
    ensures
        hex_value(hex_digit(n)) == Some(n),
{
}

/// Reading the hexadecimal form of bytes gives the bytes back.
pub proof fn lemma_unhex_hex_text(bytes: Seq<u8>)
    ensures
        unhex(hex_text(bytes)) == Some(bytes),
    decreases bytes.len(),
{
    let text = hex_text(bytes);
    crate::text::lemma_hex_text_len(bytes);
    if bytes.len() > 0 {
        let front = bytes.drop_last();
        lemma_unhex_hex_text(front);
        crate::text::lemma_hex_text_len(front);
        let hi = bytes.last() as int / 16;
        let lo = bytes.last() as int % 16;
        lemma_hex_digit_value(hi);
        lemma_hex_digit_value(lo);
        assert forall|i: int| 0 <= i < text.len() implies hex_value(#[trigger] text[i]) is Some by {
            if i < hex_text(front).len() {
                assert(text[i] == hex_text(front)[i]);
            }
        }
        let got = unhex(text).unwrap();
        let prev = unhex(hex_text(front)).unwrap();
        assert forall|k: int| 0 <= k < bytes.len() implies got[k] == bytes[k] by {
            if k < front.len() {
                assert(text[2 * k] == hex_text(front)[2 * k]);
                assert(text[2 * k + 1] == hex_text(front)[2 * k + 1]);
                assert(prev[k] == front[k]);
            }
        }
        assert(got =~= bytes);
    } else {
        assert(unhex(text).unwrap() =~= bytes);
    }
}

} // verus!
