use image::{codecs::png, ColorType, ImageEncoder};
use visual_diff::images::{classify_image, preview_sizes, ImageClassification};
use visual_diff::paths::{
    extension_of, is_classifiable_image, is_image, is_json, is_video, path_key, repo_name, same_path,
};

fn encode_png(pixels: &[u8], compression: png::CompressionType) -> Vec<u8> {
    let mut bytes = Vec::new();
    png::PngEncoder::new_with_quality(&mut bytes, compression, png::FilterType::Adaptive)
        .write_image(pixels, 2, 2, ColorType::Rgba8.into())
        .unwrap();
    bytes
}

#[test]
fn classifies_reencoded_pixels_as_identical() {
    let pixels = [
        255, 0, 0, 255, 0, 255, 0, 255, 0, 0, 255, 255, 255, 255, 255, 0,
    ];
    let before = encode_png(&pixels, png::CompressionType::Fast);
    let after = encode_png(&pixels, png::CompressionType::Best);

    assert_ne!(before, after);
    assert_eq!(
        classify_image(&before, &after),
        ImageClassification::PixelIdentical
    );
}

#[test]
fn classifies_pixel_edits_as_visual_changes() {
    let before = encode_png(&[0; 16], png::CompressionType::Fast);
    let mut pixels = [0; 16];
    pixels[0] = 1;
    let after = encode_png(&pixels, png::CompressionType::Fast);

    assert_eq!(
        classify_image(&before, &after),
        ImageClassification::VisuallyChanged
    );
}

#[test]
fn missing_or_undecodable_images_count_as_changed() {
    let image = encode_png(&[7; 16], png::CompressionType::Fast);
    assert_eq!(classify_image(&[], &image), ImageClassification::VisuallyChanged);
    assert_eq!(classify_image(&image, &[]), ImageClassification::VisuallyChanged);
    assert_eq!(classify_image(b"not an image", b"not an image"), ImageClassification::VisuallyChanged);
    assert_eq!(classify_image(&image, &image), ImageClassification::PixelIdentical);
}

#[test]
fn recognizes_common_video_extensions() {
    assert!(is_video("clip.mp4"));
    assert!(is_video("clip.webm"));
    assert!(!is_video("notes.txt"));
}

#[test]
fn recognizes_images_and_json() {
    assert!(is_image("a/b/photo.jpeg"));
    assert!(is_image("icon.webp"));
    assert!(!is_image("icon.PNG"));
    assert!(!is_image(".png"));
    assert!(is_classifiable_image("x.bmp"));
    assert!(!is_classifiable_image("x.gif"));
    assert!(is_json("data/config.json"));
    assert!(is_json("data/config.json/"));
    assert!(!is_json("data/json"));
    assert!(!is_json("data.json/.."));
}

#[test]
fn extensions_follow_the_last_dot_of_the_file_name() {
    assert_eq!(extension_of("archive.tar.gz"), Some(b"gz".to_vec()));
    assert_eq!(extension_of("dir.d/file"), None);
    assert_eq!(extension_of(".gitignore"), None);
    assert_eq!(extension_of("trailing."), Some(Vec::new()));
    assert_eq!(extension_of("a/./b.txt/."), Some(b"txt".to_vec()));
    assert_eq!(extension_of("/"), None);
}

#[test]
fn repository_names_are_final_components() {
    assert_eq!(repo_name("/home/me/visual-diff"), "visual-diff");
    assert_eq!(repo_name("/home/me/visual-diff/"), "visual-diff");
    assert_eq!(repo_name("/"), "/");
    assert_eq!(repo_name("work/.."), "work/..");
}

#[test]
fn path_keys_rank_component_kinds() {
    assert_eq!(path_key("/a//b/./c"), vec![vec![1], vec![4, b'a'], vec![4, b'b'], vec![4, b'c']]);
    assert_eq!(path_key("./x/.."), vec![vec![2], vec![4, b'x'], vec![3]]);
    assert_eq!(path_key(""), Vec::<Vec<u8>>::new());
}

#[test]
fn preview_sizes_need_both_versions_to_decode() {
    let pixels = [0u8; 16];
    let png = encode_png(&pixels, png::CompressionType::Fast);
    assert_eq!(preview_sizes(&png, &png), Some(((2, 2), (2, 2))));
    assert_eq!(preview_sizes(&png, b""), None);
    assert_eq!(preview_sizes(b"", &png), None);
    assert_eq!(preview_sizes(&png, b"not an image"), None);
}

#[test]
fn same_path_compares_components() {
    assert!(same_path("/a/b/", "/a/b"));
    assert!(same_path("/a//b", "/a/b"));
    assert!(!same_path("/a/b", "/a/c"));
    assert!(!same_path("a/b", "/a/b"));
}
