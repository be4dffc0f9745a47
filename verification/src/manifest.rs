use vstd::prelude::*;

use sha2::{Digest, Sha256};

use crate::text::same_text;

verus! {

/// What SHA-256 gives for `data`.
pub uninterp spec fn sha256_digest(data: Seq<u8>) -> Seq<u8>;

/// Calls `sha2::Sha256::digest` on `data`. The digest is taken to be
/// `sha256_digest` of the bytes, 32 bytes long; the hash function itself is
/// left to `sha2` and stated nowhere here.
#[verifier::external_body]
fn sha256(data: &[u8]) -> (r: Vec<u8>)
    ensures
        r@ == sha256_digest(data@),
        r@.len() == 32,
{
    Sha256::digest(data).to_vec()
}

/// A lowercase hexadecimal digit.
pub open spec fn hex_digit(v: int) -> char {
    if v < 10 {
        ('0' as int + v) as char
    } else {
        ('a' as int + v - 10) as char
    }
}

/// `bytes` in lowercase hexadecimal, two digits per byte, high digit first.
pub open spec fn lower_hex(bytes: Seq<u8>) -> Seq<char>
    decreases bytes.len(),
{
    if bytes.len() == 0 {
        Seq::empty()
    } else {
        lower_hex(bytes.drop_last()) + seq![
            hex_digit(bytes.last() as int / 16),
            hex_digit(bytes.last() as int % 16),
        ]
    }
}

/// Two digits per byte.
pub proof fn lemma_lower_hex_len(bytes: Seq<u8>)
    ensures
        lower_hex(bytes).len() == 2 * bytes.len(),
    decreases bytes.len(),
{
    if bytes.len() > 0 {
        lemma_lower_hex_len(bytes.drop_last());
    }
}

/// Calls `hex::encode` on `bytes`: lowercase hexadecimal, two digits per
/// byte, high digit first, as `hex`'s documentation and source give it.
#[verifier::external_body]
fn hex_encode(bytes: &[u8]) -> (r: String)
    ensures
        r@ == lower_hex(bytes@),
{
    hex::encode(bytes)
}

/// The details kept of one image.
#[derive(Debug, Clone)]
pub struct ImageManifest {
    /// SHA-256 of the image, in lowercase hexadecimal.
    pub hash: String,
}

impl ImageManifest {
    pub fn new(data: &[u8]) -> (r: Self)
        ensures
            r.hash@ == lower_hex(sha256_digest(data@)),
            r.hash@.len() == 64,
    {
        let digest = sha256(data);
        proof { lemma_lower_hex_len(digest@); }
        Self { hash: hex_encode(digest.as_slice()) }
    }
}

/// The images served, by file name.
#[derive(Debug, Clone)]
pub struct Manifest {
    pub images: Vec<(String, ImageManifest)>,
}

/// The hash recorded for `file_name` in `images`: that of its first entry.
pub open spec fn image_hash(images: Seq<(String, ImageManifest)>, file_name: Seq<char>) -> Option<
    Seq<char>,
>
    decreases images.len(),
{
    if images.len() == 0 {
        None
    } else if images[0].0@ == file_name {
        Some(images[0].1.hash@)
    } else {
        image_hash(images.skip(1), file_name)
    }
}

/// No file name is listed twice.
pub open spec fn keys_distinct(images: Seq<(String, ImageManifest)>) -> bool {
    forall|a: int, b: int|
        0 <= a < b < images.len() ==> (#[trigger] images[a]).0@ != (#[trigger] images[b]).0@
}

impl Default for Manifest {
    fn default() -> (r: Self)
        ensures
            r.images@.len() == 0,
            r.wf(),
    {
        Manifest { images: Vec::new() }
    }
}

impl Manifest {
    /// Every file name is listed once.
    pub open spec fn wf(&self) -> bool {
        keys_distinct(self.images@)
    }

    /// The hash of the image called `filename`, if it is listed.
    pub fn hash(&self, filename: &str) -> (r: Option<&str>)
        ensures
            match image_hash(self.images@, filename@) {
                Some(h) => r matches Some(s) && s@ == h,
                None => r is None,
            },
    {
        let mut j: usize = 0;
        assert(self.images@.skip(0) =~= self.images@);
        while j < self.images.len()
            invariant
                j <= self.images@.len(),
                image_hash(self.images@, filename@) == image_hash(self.images@.skip(j as int), filename@),
            decreases self.images@.len() - j,
        {
            assert(self.images@.skip(j as int).skip(1) =~= self.images@.skip(j + 1));
            let entry_name: &String = &self.images[j].0;
            assert(entry_name@ == self.images@[j as int].0@);
            if same_text(entry_name.as_str(), filename) {
                return Some(self.images[j].1.hash.as_str());
            }
            j = j + 1;
        }
        None
    }

    /// Records `image` for `file_name`, in place of what was recorded for it.
    pub fn insert(&mut self, file_name: String, image: ImageManifest)
        ensures
            image_hash(final(self).images@, file_name@) == Some(image.hash@),
            forall|other: Seq<char>|
                other != file_name@ ==> #[trigger] image_hash(final(self).images@, other)
                    == image_hash(old(self).images@, other),
            old(self).wf() ==> final(self).wf(),
    {
        let ghost key = file_name@;
        let mut j: usize = 0;
        while j < self.images.len()
            invariant
                self.images@ == old(self).images@,
                key == file_name@,
                j <= self.images@.len(),
                forall|k: int| 0 <= k < j ==> (#[trigger] self.images@[k]).0@ != key,
            decreases self.images@.len() - j,
        {
            let entry_name: &String = &self.images[j].0;
            assert(entry_name@ == self.images@[j as int].0@);
            if same_text(entry_name.as_str(), file_name.as_str()) {
                let ghost before = self.images@;
                let ghost e = (file_name, image);
                self.images.set(j, (file_name, image));
                proof {
                    lemma_image_hash_update(before, j as int, e, key);
                    let after = self.images@;
                    assert(after == before.update(j as int, e));
                    if keys_distinct(before) {
                        assert forall|a: int, b: int| 0 <= a < b < after.len() implies (#[trigger] after[a]).0@
                            != (#[trigger] after[b]).0@ by {
                            assert(before[a].0@ != before[b].0@);
                        }
                    }
                }
                return;
            }
            j = j + 1;
        }
        let ghost before = self.images@;
        let ghost e = (file_name, image);
        self.images.push((file_name, image));
        proof {
            lemma_image_hash_push(before, e, key);
            let after = self.images@;
            if keys_distinct(before) {
                assert forall|a: int, b: int| 0 <= a < b < after.len() implies (#[trigger] after[a]).0@
                    != (#[trigger] after[b]).0@ by {
                    if b == before.len() {
                        assert(after[a] == before[a]);
                    } else {
                        assert(before[a].0@ != before[b].0@);
                    }
                }
            }
        }
    }
}

/// Replacing the first entry of `key` changes the hash of `key` only.
pub proof fn lemma_image_hash_update(
    images: Seq<(String, ImageManifest)>,
    j: int,
    e: (String, ImageManifest),
    key: Seq<char>,
)
    requires
        0 <= j < images.len(),
        forall|k: int| 0 <= k < j ==> (#[trigger] images[k]).0@ != key,
        images[j].0@ == key,
        e.0@ == key,
    ensures
        image_hash(images.update(j, e), key) == Some(e.1.hash@),
        forall|other: Seq<char>|
            other != key ==> #[trigger] image_hash(images.update(j, e), other) == image_hash(
                images,
                other,
            ),
    decreases j,
{
    let u = images.update(j, e);
    if j == 0 {
        assert(u.skip(1) =~= images.skip(1));
    } else {
        assert forall|k: int| 0 <= k < j - 1 implies (#[trigger] images.skip(1)[k]).0@ != key by {
            assert(images.skip(1)[k] == images[k + 1]);
        }
        lemma_image_hash_update(images.skip(1), j - 1, e, key);
        assert(u.skip(1) =~= images.skip(1).update(j - 1, e));
        assert(images[0].0@ != key);
    }
    assert forall|other: Seq<char>| other != key implies #[trigger] image_hash(u, other)
        == image_hash(images, other) by {
        if j == 0 {
            assert(u[0] == e);
        } else {
            assert(u[0] == images[0]);
            if images[0].0@ != other {
                assert(image_hash(u.skip(1), other) == image_hash(images.skip(1), other));
            }
        }
    }
}

/// Adding an entry for a key not yet listed changes the hash of that key only.
pub proof fn lemma_image_hash_push(images: Seq<(String, ImageManifest)>, e: (String, ImageManifest), key: Seq<char>)
    requires
        forall|k: int| 0 <= k < images.len() ==> (#[trigger] images[k]).0@ != key,
        e.0@ == key,
    ensures
        image_hash(images.push(e), key) == Some(e.1.hash@),
        forall|other: Seq<char>|
            other != key ==> #[trigger] image_hash(images.push(e), other) == image_hash(images, other),
    decreases images.len(),
{
    let u = images.push(e);
    if images.len() == 0 {
        assert(u.skip(1) =~= Seq::<(String, ImageManifest)>::empty());
    } else {
        assert forall|k: int| 0 <= k < images.len() - 1 implies (#[trigger] images.skip(1)[k]).0@
            != key by {
            assert(images.skip(1)[k] == images[k + 1]);
        }
        lemma_image_hash_push(images.skip(1), e, key);
        assert(u.skip(1) =~= images.skip(1).push(e));
        assert(images[0].0@ != key);
    }
    assert forall|other: Seq<char>| other != key implies #[trigger] image_hash(u, other)
        == image_hash(images, other) by {
        if images.len() == 0 {
            assert(u[0] == e);
        } else {
            assert(u[0] == images[0]);
            if images[0].0@ != other {
                assert(image_hash(u.skip(1), other) == image_hash(images.skip(1), other));
            }
        }
    }
}

} // verus!
