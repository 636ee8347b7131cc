use printhelper::{
    generate_thumbnail, premultiply, shrink_to_thumbnail, thumbnail_size, Bitmap, ImageList,
    THUMBNAIL_MAX,
};

fn png(width: u32, height: u32, px: [u8; 4]) -> Vec<u8> {
    let img = image::RgbaImage::from_pixel(width, height, image::Rgba(px));
    let mut out = std::io::Cursor::new(Vec::new());
    img.write_to(&mut out, image::ImageFormat::Png).unwrap();
    out.into_inner()
}

#[test]
fn size_of_small_image_is_kept() {
    assert_eq!(thumbnail_size(50, 50, THUMBNAIL_MAX), (50, 50));
    assert_eq!(thumbnail_size(80, 3, THUMBNAIL_MAX), (80, 3));
    assert_eq!(thumbnail_size(1, 1, THUMBNAIL_MAX), (1, 1));
}

#[test]
fn size_of_large_image_is_fitted() {
    assert_eq!(thumbnail_size(120, 60, 80), (80, 40));
    assert_eq!(thumbnail_size(60, 120, 80), (40, 80));
    assert_eq!(thumbnail_size(1000, 1, 80), (80, 1));
    assert_eq!(thumbnail_size(3000, 2000, 80), (80, 53));
    assert_eq!(thumbnail_size(300, 100, 80), (80, 27));
    assert_eq!(thumbnail_size(u32::MAX, u32::MAX - 1, 80), (80, 80));
}

#[test]
fn thumbnail_bound_over_many_sizes() {
    for w in [1u32, 2, 79, 80, 81, 160, 333, 1024, 4000] {
        for h in [1u32, 3, 80, 81, 200, 999, 5000] {
            let (tw, th) = thumbnail_size(w, h, THUMBNAIL_MAX);
            assert!(tw >= 1 && tw <= 80 && th >= 1 && th <= 80);
            assert!(tw <= w && th <= h);
            let diff = (tw as i64 * h as i64 - th as i64 * w as i64).abs();
            assert!(diff <= w.max(h) as i64);
        }
    }
}

#[test]
fn premultiply_exact_values() {
    let px = vec![10, 20, 30, 128, 255, 255, 255, 0, 200, 100, 50, 255, 7, 8];
    assert_eq!(premultiply(&px), vec![5, 10, 15, 128, 0, 0, 0, 0, 200, 100, 50, 255, 7, 8]);
}

#[test]
fn shrink_small_bitmap_only_premultiplies() {
    let src = Bitmap { width: 2, height: 1, rgba: vec![255, 0, 0, 51, 0, 0, 255, 255] };
    let t = shrink_to_thumbnail(src);
    assert_eq!((t.width, t.height), (2, 1));
    assert_eq!(t.rgba, vec![51, 0, 0, 51, 0, 0, 255, 255]);
}

#[test]
fn generate_thumbnail_resizes_large_image() {
    let t = generate_thumbnail(&png(200, 100, [10, 20, 30, 128])).unwrap();
    assert_eq!((t.width, t.height), (80, 40));
    assert_eq!(t.rgba.len(), 80 * 40 * 4);
    assert_eq!(&t.rgba[0..4], &[5, 10, 15, 128]);
}

#[test]
fn generate_thumbnail_never_enlarges() {
    let t = generate_thumbnail(&png(10, 20, [1, 2, 3, 255])).unwrap();
    assert_eq!((t.width, t.height), (10, 20));
    assert_eq!(&t.rgba[0..4], &[1, 2, 3, 255]);
}

#[test]
fn generate_thumbnail_rejects_corrupt_bytes() {
    assert!(generate_thumbnail(b"not an image at all").is_none());
    assert!(generate_thumbnail(&[]).is_none());
    let mut truncated = png(30, 30, [0, 0, 0, 255]);
    truncated.truncate(20);
    assert!(generate_thumbnail(&truncated).is_none());
}

#[test]
fn batch_with_one_corrupt_file() {
    let files: Vec<(String, Vec<u8>)> = vec![
        ("/p/one.png".to_string(), png(300, 100, [9, 9, 9, 255])),
        ("/p/broken.png".to_string(), b"\x89PNG garbage".to_vec()),
        ("/p/two.png".to_string(), png(40, 40, [1, 1, 1, 255])),
    ];
    let results: Vec<(String, Option<Bitmap>)> =
        files.iter().map(|(p, b)| (p.clone(), generate_thumbnail(b))).collect();
    let mut list = ImageList::new();
    let failed = list.append_batch(results);
    assert_eq!(list.snapshot_paths(), vec!["/p/one.png", "/p/two.png"]);
    assert_eq!(failed, vec!["/p/broken.png"]);
    let first = list.entry(0).unwrap();
    assert_eq!((first.thumbnail.width, first.thumbnail.height), (80, 27));
}
