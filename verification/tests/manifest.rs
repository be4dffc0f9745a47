use utc_telegram_bot::converter::{TransformKind, TransformList, Transform};
use utc_telegram_bot::generate_images::{render_thumbnails, Renderer};
use utc_telegram_bot::manifest::{ImageManifest, Manifest};

#[test]
fn image_manifest_hashes_with_sha256() {
    let m = ImageManifest::new(b"abc");
    assert_eq!(m.hash, "ba7816bf8f01cfea414140de5dae2223b00361a396177a9cb410ff61f20015ad");
    let e = ImageManifest::new(b"");
    assert_eq!(e.hash, "e3b0c44298fc1c149afbf4c8996fb92427ae41e4649b934ca495991b7852b855");
    assert_eq!(e.hash.len(), 64);
}

#[test]
fn manifest_insert_then_hash() {
    let mut m = Manifest::default();
    assert_eq!(m.hash("a.jpg"), None);
    m.insert("a.jpg".to_string(), ImageManifest { hash: "h1".to_string() });
    m.insert("b.jpg".to_string(), ImageManifest { hash: "h2".to_string() });
    assert_eq!(m.hash("a.jpg"), Some("h1"));
    assert_eq!(m.hash("b.jpg"), Some("h2"));
    m.insert("a.jpg".to_string(), ImageManifest { hash: "h3".to_string() });
    assert_eq!(m.hash("a.jpg"), Some("h3"));
    assert_eq!(m.hash("b.jpg"), Some("h2"));
    assert_eq!(m.images.len(), 2);
    assert_eq!(m.hash("c.jpg"), None);
}

struct TextRenderer;

impl Renderer for TextRenderer {
    fn render_image(&self, transform: &TransformKind) -> Vec<u8> {
        transform.map_string("ab").into_bytes()
    }
}

#[test]
fn render_thumbnails_names_and_hashes() {
    let mut t = String::from("Upper\t");
    for code in 33u32..=126 {
        t.push(char::from_u32(code).unwrap().to_ascii_uppercase());
    }
    t.push('\n');
    let list = TransformList::new(&t);
    let mut manifest = Manifest::default();
    let renderer = TextRenderer;
    let files = render_thumbnails(|t: &TransformKind| renderer.render_image(t), &list, &mut manifest);
    assert_eq!(files.len(), 1);
    assert_eq!(files[0].0, "upper.jpg");
    assert_eq!(files[0].1, b"AB".to_vec());
    assert_eq!(manifest.hash("upper.jpg"), Some(ImageManifest::new(b"AB").hash.as_str()));
}
