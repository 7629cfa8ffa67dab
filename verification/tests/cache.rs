//! Behavior of the image resource cache: cached misses, atlas-region
//! assignment, and per-pass liveness with purging.

use pose2d::images::ImageLoader;
use std::io::Cursor;

fn png_bytes(width: u32, height: u32) -> Vec<u8> {
    let img = image::DynamicImage::ImageRgba8(image::RgbaImage::new(width, height));
    let mut buf: Vec<u8> = Vec::new();
    img.write_to(&mut Cursor::new(&mut buf), image::ImageFormat::Png).unwrap();
    buf
}

#[test]
fn missing_file_is_cached_as_miss() {
    // two consecutive loads of a path whose file cannot be read: the
    // second does not need a fetch and returns the same miss
    let mut loader = ImageLoader::new();
    let path = b"/nowhere/absent.png".to_vec();
    assert!(!loader.contains(&path));
    let first = loader.load(&path, None);
    assert!(!first.has_image);
    assert!(!first.invalidated);
    assert!(first.rect.is_none());
    assert!(loader.contains(&path));
    let second = loader.load(&path, None);
    assert!(!second.has_image);
    assert!(!second.invalidated);
    assert!(second.rect.is_none());
    assert_eq!(first.has_image, second.has_image);
    assert_eq!(first.rect, second.rect);
}

#[test]
fn undecodable_bytes_are_cached_as_miss() {
    let mut loader = ImageLoader::new();
    let path = b"bad.png".to_vec();
    let r = loader.load(&path, Some(b"not a png".to_vec()));
    assert!(!r.has_image);
    assert!(!r.invalidated);
    assert!(loader.contains(&path));
}

#[test]
fn first_successful_decode_invalidates_atlas() {
    let mut loader = ImageLoader::new();
    let path = b"ok.png".to_vec();
    let r = loader.load(&path, Some(png_bytes(2, 3)));
    assert!(r.has_image);
    assert!(r.invalidated);
    assert_eq!(r.width, 2);
    assert_eq!(r.height, 3);
    // already cached: no second invalidation
    let r2 = loader.load(&path, None);
    assert!(r2.has_image);
    assert!(!r2.invalidated);
    assert_eq!(r2.width, 2);
    assert_eq!(r2.height, 3);
}

#[test]
fn build_atlas_assigns_each_buffer_exactly_one_region() {
    let mut loader = ImageLoader::new();
    loader.load(&b"a.png".to_vec(), Some(png_bytes(2, 3)));
    loader.load(&b"miss.png".to_vec(), None);
    loader.load(&b"b.png".to_vec(), Some(png_bytes(4, 5)));
    let pending = loader.pending_images();
    assert_eq!(pending.len(), 2);
    assert_eq!(pending[0].0, b"a.png".to_vec());
    assert_eq!((pending[0].1, pending[0].2), (2, 3));
    assert_eq!(pending[1].0, b"b.png".to_vec());
    assert_eq!((pending[1].1, pending[1].2), (4, 5));
    loader.build_atlas(&vec![7, 9]);
    let ra = loader.load(&b"a.png".to_vec(), None);
    let rm = loader.load(&b"miss.png".to_vec(), None);
    let rb = loader.load(&b"b.png".to_vec(), None);
    assert_eq!(ra.rect, Some(7));
    assert_eq!(rm.rect, None);
    assert_eq!(rb.rect, Some(9));
    // a second build pass with no new images changes no handle
    assert_eq!(loader.pending_images().len(), 0);
    loader.build_atlas(&vec![]);
    assert_eq!(loader.load(&b"a.png".to_vec(), None).rect, Some(7));
    assert_eq!(loader.load(&b"b.png".to_vec(), None).rect, Some(9));
}

#[test]
fn copy_pixels_hands_out_the_decoded_buffer() {
    let mut loader = ImageLoader::new();
    let path = b"p.png".to_vec();
    loader.load(&path, Some(png_bytes(2, 3)));
    let pixels = loader.copy_pixels(&path).unwrap();
    assert_eq!(pixels.len(), 2 * 3 * 4);
    assert!(loader.copy_pixels(&b"other".to_vec()).is_none());
}

#[test]
fn entry_not_loaded_in_next_pass_is_purged() {
    // loaded in pass N, untouched in pass N+1: absent after that
    // pass's housekeeping; touched entries survive, reset to not-live
    let mut loader = ImageLoader::new();
    let kept = b"kept.png".to_vec();
    let stale = b"stale.png".to_vec();
    loader.load(&kept, None);
    loader.load(&stale, None);
    loader.update();
    // pass N+1 touches only one of them
    loader.load(&kept, None);
    loader.update();
    assert!(loader.contains(&kept));
    assert!(!loader.contains(&stale));
}

#[test]
fn untouched_entry_survives_one_update_only() {
    let mut loader = ImageLoader::new();
    let p = b"once.png".to_vec();
    loader.load(&p, None);
    loader.update();
    assert!(loader.contains(&p));
    loader.update();
    assert!(!loader.contains(&p));
}
