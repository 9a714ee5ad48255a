use std::io::Write;

use image::GenericImageView;
use thumbnailed::thumbnailer::{distribute, generate_thumbnail_from_image, write_thumbnail};
use thumbnailed::{LoadFromPath, ThumbError};

fn dir_string(d: &tempfile::TempDir) -> String {
    d.path().to_str().unwrap().to_string()
}

fn save_rgb(dir: &tempfile::TempDir, name: &str, w: u32, h: u32) -> String {
    let img = image::RgbImage::from_fn(w, h, |x, y| image::Rgb([x as u8, y as u8, 100]));
    let path = format!("{}/{}", dir_string(dir), name);
    img.save(&path).unwrap();
    path
}

fn save_corrupt(dir: &tempfile::TempDir, name: &str) -> String {
    let mut f = tempfile::Builder::new()
        .prefix("scratch")
        .tempfile_in(dir.path())
        .unwrap();
    f.write_all(b"this is not an image at all").unwrap();
    let path = format!("{}/{}", dir_string(dir), name);
    f.persist(&path).unwrap();
    path
}

#[test]
fn round_trip_fits_bounds_and_keeps_aspect_ratio() {
    let src_dir = tempfile::tempdir().unwrap();
    let out_dir = tempfile::tempdir().unwrap();
    let src = save_rgb(&src_dir, "wide.png", 256, 128);
    let out = write_thumbnail(&src, &dir_string(&out_dir), 64, 64).unwrap();
    assert!(out.ends_with(".png"));
    let decoded = image::DynamicImage::load_from_path(&out).unwrap();
    assert!(decoded.width() <= 64 && decoded.height() <= 64);
    // 256x128 shrunk into 64x64 keeps the 2:1 ratio exactly.
    assert_eq!((decoded.width(), decoded.height()), (64, 32));
}

#[test]
fn second_run_keeps_first_runs_outputs() {
    let src_dir = tempfile::tempdir().unwrap();
    let out_dir = tempfile::tempdir().unwrap();
    let src = save_rgb(&src_dir, "cat.png", 32, 32);
    let out1 = write_thumbnail(&src, &dir_string(&out_dir), 16, 16).unwrap();
    let out2 = write_thumbnail(&src, &dir_string(&out_dir), 16, 16).unwrap();
    assert_eq!(out1, format!("{}/cat.png.png", dir_string(&out_dir)));
    assert_eq!(out2, format!("{}/cat.png_1.png", dir_string(&out_dir)));
    // Both outputs remain present and decodable.
    assert!(image::DynamicImage::load_from_path(&out1).is_ok());
    assert!(image::DynamicImage::load_from_path(&out2).is_ok());
}

#[test]
fn three_valid_jpegs_and_one_corrupt_file_give_three_results() {
    let root = tempfile::tempdir().unwrap();
    let out_dir = tempfile::tempdir().unwrap();
    let target = dir_string(&out_dir);
    let mut candidates = vec![
        save_rgb(&root, "a.jpg", 200, 100),
        save_rgb(&root, "b.jpg", 100, 200),
        save_rgb(&root, "c.jpg", 300, 300),
        save_corrupt(&root, "broken.jpg"),
    ];
    candidates.sort();
    let lanes = distribute(&candidates, 2);
    let mut outputs: Vec<String> = Vec::new();
    for lane in &lanes {
        for path in lane {
            match write_thumbnail(path, &target, 128, 128) {
                Ok(out) => {
                    assert!(!path.ends_with("broken.jpg"));
                    outputs.push(out);
                }
                Err(e) => {
                    assert!(path.ends_with("broken.jpg"));
                    assert_eq!(e, ThumbError::Decode);
                }
            }
        }
    }
    assert_eq!(outputs.len(), 3);
    outputs.sort();
    outputs.dedup();
    assert_eq!(outputs.len(), 3);
    for out in &outputs {
        assert!(out.ends_with(".png"));
        let decoded = image::DynamicImage::load_from_path(out).unwrap();
        assert!(decoded.width() <= 128 && decoded.height() <= 128);
    }
}

#[test]
fn corrupt_file_is_a_decode_error() {
    let root = tempfile::tempdir().unwrap();
    let bad = save_corrupt(&root, "bad.jpg");
    match generate_thumbnail_from_image(&bad, 64, 64) {
        Err(e) => assert_eq!(e, ThumbError::Decode),
        Ok(_) => panic!("a corrupt file must not decode"),
    }
}

#[test]
fn missing_file_is_a_decode_error() {
    let root = tempfile::tempdir().unwrap();
    let gone = format!("{}/never-written.png", dir_string(&root));
    match generate_thumbnail_from_image(&gone, 64, 64) {
        Err(e) => assert_eq!(e, ThumbError::Decode),
        Ok(_) => panic!("a missing file must not decode"),
    }
}

#[test]
fn unwritable_target_is_an_encode_error() {
    let src_dir = tempfile::tempdir().unwrap();
    let src = save_rgb(&src_dir, "ok.png", 16, 16);
    let no_such_dir = format!("{}/nested/missing", dir_string(&src_dir));
    match write_thumbnail(&src, &no_such_dir, 8, 8) {
        Err(e) => assert_eq!(e, ThumbError::Encode),
        Ok(_) => panic!("writing into a missing directory must fail"),
    }
}

#[test]
fn sixteen_bit_gray_is_narrowed_to_eight_bit() {
    let src_dir = tempfile::tempdir().unwrap();
    let out_dir = tempfile::tempdir().unwrap();
    let img: image::ImageBuffer<image::Luma<u16>, Vec<u16>> =
        image::ImageBuffer::from_fn(64, 64, |x, _y| image::Luma([(x * 1024) as u16]));
    let src = format!("{}/deep.png", dir_string(&src_dir));
    img.save(&src).unwrap();
    let out = write_thumbnail(&src, &dir_string(&out_dir), 32, 32).unwrap();
    let decoded = image::DynamicImage::load_from_path(&out).unwrap();
    assert_eq!(decoded.color(), image::ColorType::L8);
    assert!(decoded.width() <= 32 && decoded.height() <= 32);
}

#[test]
fn small_image_is_not_scaled_past_its_bounds() {
    let src_dir = tempfile::tempdir().unwrap();
    let out_dir = tempfile::tempdir().unwrap();
    let src = save_rgb(&src_dir, "tiny.png", 4, 4);
    let out = write_thumbnail(&src, &dir_string(&out_dir), 128, 128).unwrap();
    let decoded = image::DynamicImage::load_from_path(&out).unwrap();
    assert!(decoded.width() <= 128 && decoded.height() <= 128);
    assert!(decoded.width() >= 1 && decoded.height() >= 1);
}

#[test]
fn load_from_path_decodes_and_reports_failures() {
    let src_dir = tempfile::tempdir().unwrap();
    let src = save_rgb(&src_dir, "ok.png", 10, 20);
    let img = image::DynamicImage::load_from_path(&src).unwrap();
    assert_eq!((img.width(), img.height()), (10, 20));
    let missing = format!("{}/gone.png", dir_string(&src_dir));
    assert_eq!(image::DynamicImage::load_from_path(&missing).unwrap_err(), ThumbError::Decode);
}
