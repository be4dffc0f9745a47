use vstd::prelude::*;

use crate::converter::{TransformKind, TransformList};
use crate::manifest::{ImageManifest, Manifest, image_hash, lower_hex, sha256_digest};
use crate::text::push_str;

verus! {

/// Draws the thumbnail of a transform, as encoded image bytes.
pub trait Renderer {
    fn render_image(&self, transform: &TransformKind) -> Vec<u8>;
}

/// The file name of a transform's thumbnail.
pub open spec fn thumbnail_name(short_name: Seq<char>) -> Seq<char> {
    short_name + ".jpg"@
}

/// Renders the thumbnail of every transform of `transforms` with `render`
/// (a renderer's `render_image`), in list order, and records each image's
/// hash in `manifest` under its file name. Returns the file names and the
/// images, for writing.
pub fn render_thumbnails<F: Fn(&TransformKind) -> Vec<u8>>(
    render: F,
    transforms: &TransformList,
    manifest: &mut Manifest,
) -> (r: Vec<(String, Vec<u8>)>)
    requires
        forall|t: &TransformKind| #[trigger] render.requires((t,)),
    ensures
        r@.len() == transforms.entries().len(),
        forall|i: int|
            0 <= i < r@.len() ==> render.ensures((&transforms.entries()[i].transform,), (#[trigger] r@[i]).1),
        forall|i: int|
            0 <= i < r@.len() ==> (#[trigger] r@[i]).0@ == thumbnail_name(
                transforms.entries()[i].short_name@,
            ) && image_hash(final(manifest).images@, r@[i].0@) == Some(
                lower_hex(sha256_digest(r@[i].1@)),
            ),
        forall|other: Seq<char>|
            (forall|i: int| 0 <= i < r@.len() ==> other != (#[trigger] r@[i]).0@) ==> #[trigger] image_hash(
                final(manifest).images@,
                other,
            ) == image_hash(old(manifest).images@, other),
        old(manifest).wf() ==> final(manifest).wf(),
{
    let list = transforms.transforms();
    let mut out: Vec<(String, Vec<u8>)> = Vec::new();
    for i in 0..list.len()
        invariant
            list@ == transforms.entries(),
            forall|a: int, b: int|
                0 <= a < b < list@.len() ==> (#[trigger] list@[a]).short_name@ != (#[trigger] list@[b]).short_name@,
            out@.len() == i,
            old(manifest).wf() ==> manifest.wf(),
            forall|t: &TransformKind| #[trigger] render.requires((t,)),
            forall|k: int| 0 <= k < i ==> render.ensures((&list@[k].transform,), (#[trigger] out@[k]).1),
            forall|k: int|
                0 <= k < i ==> (#[trigger] out@[k]).0@ == thumbnail_name(list@[k].short_name@)
                    && image_hash(manifest.images@, out@[k].0@) == Some(
                    lower_hex(sha256_digest(out@[k].1@)),
                ),
            forall|other: Seq<char>|
                (forall|k: int| 0 <= k < i ==> other != (#[trigger] out@[k]).0@) ==> #[trigger] image_hash(
                    manifest.images@,
                    other,
                ) == image_hash(old(manifest).images@, other),
    {
        let entry = &list[i];
        let mut file_name = String::new();
        push_str(&mut file_name, entry.short_name.as_str());
        push_str(&mut file_name, ".jpg");
        let image = render(&entry.transform);
        let record = ImageManifest::new(image.as_slice());
        let ghost before = manifest.images@;
        let ghost name = file_name@;
        manifest.insert(file_name.clone(), record);
        proof {
            assert forall|k: int| 0 <= k < i implies out@[k].0@ != name by {
                lemma_thumbnail_name_injective(list@[k].short_name@, list@[i as int].short_name@);
            }
        }
        let ghost old_out = out@;
        out.push((file_name, image));
        proof {
            assert(out@[i as int].0@ == name);
            assert forall|other: Seq<char>|
                (forall|k: int| 0 <= k < i + 1 ==> other != (#[trigger] out@[k]).0@) implies #[trigger] image_hash(
                    manifest.images@,
                    other,
                ) == image_hash(old(manifest).images@, other) by {
                assert(other != out@[i as int].0@);
                assert(image_hash(manifest.images@, other) == image_hash(before, other));
                assert forall|k: int| 0 <= k < i implies other != (#[trigger] old_out[k]).0@ by {
                    assert(out@[k] == old_out[k]);
                }
            }
        }
    }
    out
}

/// Different short names give different file names.
pub proof fn lemma_thumbnail_name_injective(a: Seq<char>, b: Seq<char>)
    ensures
        thumbnail_name(a) == thumbnail_name(b) ==> a == b,
{
    if thumbnail_name(a) == thumbnail_name(b) {
        let x = thumbnail_name(a);
        let l = ".jpg"@;
        assert(x.len() == a.len() + l.len());
        assert(x.len() == b.len() + l.len());
        assert(a =~= x.take(a.len() as int));
        assert(b =~= x.take(b.len() as int));
    }
}

} // verus!
