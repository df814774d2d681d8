//! Objects: their kinds, and the ids that name them.

use crate::hash::HashBytes;
use crate::text::hex_text;
use vstd::prelude::*;

verus! {

/// The kind of an object.
#[derive(Clone, Copy, Debug, PartialEq, Eq, Structural)]
pub enum Kind {
    Blob,
    Tree,
    Commit,
    Tag,
}

/// The hash function by which objects are named.
#[derive(Clone, Copy, Debug, PartialEq, Eq, Structural)]
pub enum HashType {
    Sha1,
}

/// The id of an object: the digest of its header and payload.
#[derive(Clone, Debug, Eq)]
pub enum ID {
    SHA1(HashBytes<20>),
}

/// The kind that `token` names.
pub open spec fn kind_of_token(token: Seq<u8>) -> Option<Kind> {
    if token == Kind::Tree.token() {
        Some(Kind::Tree)
    } else if token == Kind::Blob.token() {
        Some(Kind::Blob)
    } else if token == Kind::Commit.token() {
        Some(Kind::Commit)
    } else if token == Kind::Tag.token() {
        Some(Kind::Tag)
    } else {
        None
    }
}

/// The name of a kind names that kind.
pub proof fn lemma_token_round_trip(kind: Kind)
    ensures
        kind_of_token(kind.token()) == Some(kind),
{
    assert(Kind::Blob.token()[0] != Kind::Tree.token()[0]);
    assert(Kind::Commit.token().len() != Kind::Tree.token().len());
    assert(Kind::Commit.token().len() != Kind::Blob.token().len());
    assert(Kind::Tag.token().len() != Kind::Tree.token().len());
    assert(Kind::Tag.token().len() != Kind::Blob.token().len());
    assert(Kind::Tag.token().len() != Kind::Commit.token().len());
}

/// Whether `token` is exactly the bytes `name`.
fn is_name(token: &[u8], name: &Vec<u8>) -> (r: bool)
    ensures
        r == (token@ == name@),
{
    if token.len() != name.len() {
        return false;
    }
    let mut i: usize = 0;
    while i < token.len()
        invariant
            i <= token@.len(),
            token@.len() == name@.len(),
            forall|k: int| 0 <= k < i ==> token@[k] == name@[k],
        decreases token@.len() - i,
    {
        if token[i] != name[i] {
            return false;
        }
        i += 1;
    }
    assert(token@ =~= name@);
    true
}

impl Kind {
    /// The kind that `token` names in an object header, if it names one.
    pub fn from_bytes(token: &[u8]) -> (kind: Option<Kind>)
        ensures
            kind == kind_of_token(token@),
    {
        if is_name(token, &Kind::Tree.as_bytes()) {
            Some(Kind::Tree)
        } else if is_name(token, &Kind::Blob.as_bytes()) {
            Some(Kind::Blob)
        } else if is_name(token, &Kind::Commit.as_bytes()) {
            Some(Kind::Commit)
        } else if is_name(token, &Kind::Tag.as_bytes()) {
            Some(Kind::Tag)
        } else {
            None
        }
    }

    /// The name of the kind in an object header, in ASCII: `blob`, `tree`,
    /// `commit` or `tag`.
    pub open spec fn token(self) -> Seq<u8> {
        match self {
            Kind::Blob => seq![0x62u8, 0x6c, 0x6f, 0x62],
            Kind::Tree => seq![0x74u8, 0x72, 0x65, 0x65],
            Kind::Commit => seq![0x63u8, 0x6f, 0x6d, 0x6d, 0x69, 0x74],
            Kind::Tag => seq![0x74u8, 0x61, 0x67],
        }
    }

    /// The name of the kind in an object header.
    pub fn as_bytes(&self) -> (token: Vec<u8>)
        ensures
            token@ == self.token(),
    {
        kind_token(*self)
    }
}

/// `gix_object::Kind::as_bytes`: the name of a kind in a loose object header.
#[verifier::external_body]
fn kind_token(kind: Kind) -> (token: Vec<u8>)
    ensures
        token@ == kind.token(),
{
    let outside = match kind {
        Kind::Blob => gix_object::Kind::Blob,
        Kind::Tree => gix_object::Kind::Tree,
        Kind::Commit => gix_object::Kind::Commit,
        Kind::Tag => gix_object::Kind::Tag,
    };
    outside.as_bytes().to_vec()
}

impl ID {
    /// The bytes of the digest.
    pub open spec fn bytes(self) -> Seq<u8> {
        match self {
            ID::SHA1(hash) => hash@,
        }
    }

    /// The bytes of the digest.
    pub fn as_bytes(&self) -> (bytes: &[u8])
        ensures
            bytes@ == self.bytes(),
    {
        match self {
            ID::SHA1(hash) => hash.as_bytes().as_slice(),
        }
    }

    /// The id in lowercase hexadecimal.
    pub fn to_string(&self) -> (text: String)
        ensures
            text@ == hex_text(self.bytes()),
    {
        match self {
            ID::SHA1(hash) => hash.to_string(),
        }
    }
}

} // verus!
