//! Fingerprints: what tells whether two files are the same.
use vstd::prelude::*;
use vstd::utf8::encode_utf8;

use crate::error::Error;

verus! {

#[verifier::external_type_specification]
#[verifier::external_body]
pub struct ExHasher(blake3::Hasher);

/// The bytes that a hasher was given.
pub uninterp spec fn hashed(hasher: blake3::Hasher) -> Seq<u8>;

/// The BLAKE3 hash of bytes, in lowercase hexadecimal.
pub uninterp spec fn blake3_hex(bytes: Seq<u8>) -> Seq<char>;

/// `blake3::Hasher::new` makes a hasher that was given nothing yet.
pub assume_specification[ blake3::Hasher::new ]() -> (r: blake3::Hasher)
    ensures
        hashed(r) == Seq::<u8>::empty(),
;

/// `blake3::Hasher::update` adds input bytes behind those that the hasher was given before.
#[verifier::external_body]
fn update(hasher: &mut blake3::Hasher, bytes: &[u8])
    ensures
        hashed(*final(hasher)) == hashed(*old(hasher)) + bytes@,
{
    hasher.update(bytes);
}

/// `blake3::Hasher::finalize` gives the hash of all bytes that the hasher was given, which
/// `blake3::Hash::to_hex` writes as 64 hexadecimal digits.
#[verifier::external_body]
fn finalize(hasher: &blake3::Hasher) -> (r: String)
    ensures
        r@ == blake3_hex(hashed(*hasher)),
        r@.len() == 64,
{
    hasher.finalize().to_hex().to_string()
}

/// What stands at a path, as far as it shows without following a link.
#[derive(Clone, Debug)]
pub enum Look {
    Missing,
    Directory,
    Link,
    /// A regular file, with its mode.
    File(u32),
    /// Anything else.
    Special,
    /// It could not be found out.
    Failed(Error),
}

/// A fingerprint that is being taken.
pub struct Fingerprint {
    hasher: blake3::Hasher,
}

impl View for Fingerprint {
    type V = Seq<u8>;

    closed spec fn view(&self) -> Seq<u8> {
        hashed(self.hasher)
    }
}

impl Fingerprint {
    fn begin(tag: &[u8]) -> (r: Fingerprint)
        ensures
            r@ == tag@,
    {
        let mut hasher = blake3::Hasher::new();
        update(&mut hasher, tag);
        assert(Seq::<u8>::empty() + tag@ =~= tag@);
        Fingerprint { hasher }
    }

    /// Takes in the next bytes of the contents.
    pub fn add_bytes(&mut self, bytes: &[u8])
        ensures
            final(self)@ == old(self)@ + bytes@,
    {
        update(&mut self.hasher, bytes);
    }

    /// The fingerprint of what was taken in.
    pub fn finish(&self) -> (r: String)
        ensures
            r@ == blake3_hex(self@),
            r@.len() == 64,
    {
        finalize(&self.hasher)
    }
}

/// The hash of a text.
pub(crate) fn hash_text(s: &str) -> (r: String)
    ensures
        r@ == blake3_hex(encode_utf8(s@)),
        r@.len() == 64,
{
    Fingerprint::begin(s.as_bytes()).finish()
}

/// The bytes that the fingerprint of a link begins with.
pub open spec fn link_tag() -> Seq<u8> {
    seq![115u8, 121u8, 109u8, 108u8, 105u8, 110u8, 107u8, 0u8]
}

/// The bytes that the fingerprint of a regular file begins with: a tag and its permissions.
pub open spec fn file_tag(mode: u32) -> Seq<u8> {
    seq![
        102u8,
        105u8,
        108u8,
        101u8,
        0u8,
        (permissions(mode) % 256) as u8,
        (permissions(mode) / 256) as u8,
        0u8,
        0u8,
    ]
}

/// The permission bits of a mode.
pub open spec fn permissions(mode: u32) -> u32 {
    mode & 0o777
}

/// The permission bits of a mode.
pub fn permission_bits(mode: u32) -> (r: u32)
    ensures
        r == permissions(mode),
        r <= 0o777,
{
    assert(mode & 0o777 <= 0o777) by (bit_vector);
    mode & 0o777
}

/// Begins the fingerprint of what stands at a path. The target of a link, or the contents of a
/// file, are to be added to it. Where nothing stands there is none.
pub fn fingerprint(path: &str, look: &Look) -> (r: Result<Option<Fingerprint>, Error>)
    ensures
        match look {
            Look::Missing => r is Ok && r->Ok_0 is None,
            Look::Link => r is Ok && r->Ok_0 is Some && r->Ok_0->0@ == link_tag(),
            Look::File(mode) => r is Ok && r->Ok_0 is Some && r->Ok_0->0@ == file_tag(*mode),
            Look::Failed(error) => r is Err && r->Err_0@ == error@,
            Look::Directory | Look::Special => r is Err && r->Err_0@ == "not a regular file or symlink: "@ + path@,
        },
{
    match look {
        Look::Missing => Ok(None),
        Look::Link => {
            let tag: Vec<u8> = vec![115u8, 121u8, 109u8, 108u8, 105u8, 110u8, 107u8, 0u8];
            assert(tag@ =~= link_tag());
            Ok(Some(Fingerprint::begin(tag.as_slice())))
        },
        Look::File(mode) => {
            let bits: u32 = permission_bits(*mode);
            let tag: Vec<u8> = vec![102u8, 105u8, 108u8, 101u8, 0u8, (bits % 256) as u8, (bits / 256) as u8, 0u8, 0u8];
            assert(tag@ =~= file_tag(*mode));
            Ok(Some(Fingerprint::begin(tag.as_slice())))
        },
        Look::Failed(error) => Err(Error { text: error.text.clone() }),
        Look::Directory => Err(Error::about("not a regular file or symlink: ", path)),
        Look::Special => Err(Error::about("not a regular file or symlink: ", path)),
    }
}

/// What is hashed tells a link from a file, and settles the target of a link and the permissions
/// and contents of a file.
pub proof fn lemma_fingerprints_settle_what_is_copied(mode: u32, contents: Seq<u8>, other_mode: u32, other: Seq<u8>)
    ensures
        link_tag() + other != file_tag(mode) + contents,
        link_tag() + other == link_tag() + contents ==> other == contents,
        file_tag(other_mode) + other == file_tag(mode) + contents ==> other == contents && permissions(other_mode) == permissions(mode),
{
    assert((link_tag() + other)[0] != (file_tag(mode) + contents)[0]);
    if link_tag() + other == link_tag() + contents {
        assert((link_tag() + other).skip(8) =~= other);
        assert((link_tag() + contents).skip(8) =~= contents);
    }
    if file_tag(other_mode) + other == file_tag(mode) + contents {
        let a = file_tag(other_mode) + other;
        let b = file_tag(mode) + contents;
        assert(a.skip(9) =~= other);
        assert(b.skip(9) =~= contents);
        assert(a[5] == b[5] && a[6] == b[6]);
        assert(mode & 0o777 <= 0o777) by (bit_vector);
        assert(other_mode & 0o777 <= 0o777) by (bit_vector);
    }
}

} // verus!
