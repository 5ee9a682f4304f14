use factoriomaps::error::EngineError;
use factoriomaps::image::{blit, crop, flatten_transparency, new_transparent, RgbaImage};
use factoriomaps::stages::{build_parent, decode_chunk, part_pixels, tile_encode_parts};
use factoriomaps::tile::Tile;

fn image_with(width: u32, height: u32, f: impl Fn(u32, u32) -> [u8; 4]) -> RgbaImage {
    let mut data = Vec::new();
    for y in 0..height {
        for x in 0..width {
            data.extend_from_slice(&f(x, y));
        }
    }
    RgbaImage { width, height, data }
}

fn pixel(img: &RgbaImage, x: u32, y: u32) -> [u8; 4] {
    let i = 4 * (y * img.width + x) as usize;
    [img.data[i], img.data[i + 1], img.data[i + 2], img.data[i + 3]]
}

#[test]
fn flattening_replaces_transparent_pixels() {
    let px = vec![1, 2, 3, 0, 4, 5, 6, 127, 7, 8, 9, 128, 10, 11, 12, 255];
    let out = flatten_transparency(&px);
    assert_eq!(out, vec![27, 45, 51, 255, 27, 45, 51, 255, 7, 8, 9, 128, 10, 11, 12, 255]);
    assert!(flatten_transparency(&vec![]).is_empty());
}

#[test]
fn crop_takes_region() {
    let img = image_with(4, 3, |x, y| [x as u8, y as u8, 0, 255]);
    let c = crop(&img, 1, 1, 2, 2);
    assert_eq!((c.width, c.height), (2, 2));
    assert_eq!(pixel(&c, 0, 0), [1, 1, 0, 255]);
    assert_eq!(pixel(&c, 1, 1), [2, 2, 0, 255]);
}

#[test]
fn blit_copies_into_place() {
    let dst = new_transparent(4, 4);
    let src = image_with(2, 2, |x, y| [10 + x as u8, 20 + y as u8, 1, 200]);
    let out = blit(&dst, &src, 2, 0);
    assert_eq!(pixel(&out, 2, 0), [10, 20, 1, 200]);
    assert_eq!(pixel(&out, 3, 1), [11, 21, 1, 200]);
    assert_eq!(pixel(&out, 0, 0), [0, 0, 0, 0]);
    assert_eq!(pixel(&out, 3, 2), [0, 0, 0, 0]);
}

#[test]
fn encoded_parts_have_paths_and_jpeg_bytes() {
    let img = image_with(1024, 1024, |x, y| {
        if x < 512 { [200, 10, 10, 255] } else { [0, 0, 0, (y % 256) as u8] }
    });
    let t = Tile::new("nauvis".to_string(), 20, -1, 2);
    let parts = tile_encode_parts(&t, &img).unwrap();
    let paths: Vec<&str> = parts.iter().map(|p| p.path.as_str()).collect();
    assert_eq!(
        paths,
        vec!["nauvis/20/-2/4.jpg", "nauvis/20/-2/5.jpg", "nauvis/20/-1/4.jpg", "nauvis/20/-1/5.jpg"]
    );
    for p in &parts {
        assert_eq!(&p.bytes[..2], &[0xff, 0xd8]);
    }
    let right = part_pixels(&img, 1, 0);
    assert_eq!(right.len(), 4 * 512 * 512);
    assert_eq!(&right[..4], &[27, 45, 51, 255]);
    let left = part_pixels(&img, 0, 1);
    assert_eq!(&left[..4], &[200, 10, 10, 255]);
    let wrong = new_transparent(8, 8);
    assert_eq!(tile_encode_parts(&t, &wrong).err(), Some(EngineError::BadDimensions));
}

#[test]
fn parent_from_sparse_children() {
    let parent = Tile::new("n".to_string(), 17, 0, 0);
    let red = image_with(1024, 1024, |_, _| [255, 0, 0, 255]);
    let blue = image_with(1024, 1024, |_, _| [0, 0, 255, 255]);
    let children = vec![
        (Tile::new("n".to_string(), 18, 0, 0), red),
        (Tile::new("n".to_string(), 18, 1, 1), blue),
    ];
    let out = build_parent(&parent, &children).unwrap();
    assert_eq!((out.width, out.height), (1024, 1024));
    assert_eq!(out.data.len(), 4 * 1024 * 1024);
    let red = pixel(&out, 100, 100);
    assert!(red[0] >= 250 && red[1] <= 5 && red[2] <= 5 && red[3] >= 250);
    let blue = pixel(&out, 900, 900);
    assert!(blue[0] <= 5 && blue[1] <= 5 && blue[2] >= 250 && blue[3] >= 250);
    assert_eq!(pixel(&out, 900, 100)[3], 0);
    assert_eq!(pixel(&out, 100, 900)[3], 0);
}

#[test]
fn parent_refuses_strangers() {
    let parent = Tile::new("n".to_string(), 17, 0, 0);
    let img = new_transparent(1024, 1024);
    let far = vec![(Tile::new("n".to_string(), 18, 2, 0), img.clone())];
    assert_eq!(build_parent(&parent, &far).err(), Some(EngineError::NotAChild));
    let small = vec![(Tile::new("n".to_string(), 18, 1, 0), new_transparent(4, 4))];
    assert_eq!(build_parent(&parent, &small).err(), Some(EngineError::BadDimensions));
}

#[test]
fn decoding_png_chunks() {
    let mut bytes = Vec::new();
    let src = image::RgbaImage::from_fn(3, 2, |x, y| image::Rgba([x as u8, y as u8, 7, 255]));
    src.write_to(&mut std::io::Cursor::new(&mut bytes), image::ImageOutputFormat::Png).unwrap();
    let img = decode_chunk(&bytes).unwrap();
    assert_eq!((img.width, img.height), (3, 2));
    assert_eq!(pixel(&img, 2, 1), [2, 1, 7, 255]);
    assert_eq!(decode_chunk(&vec![1, 2, 3]).err(), Some(EngineError::DecodeFailure));
}

#[test]
fn parts_of_negative_tile() {
    let img = image_with(1024, 1024, |x, y| [x as u8, y as u8, 0, 255]);
    let t = Tile::new("nauvis".to_string(), 20, -1, -1);
    let parts = tile_encode_parts(&t, &img).unwrap();
    let mut paths: Vec<&str> = parts.iter().map(|p| p.path.as_str()).collect();
    paths.sort();
    assert_eq!(
        paths,
        vec!["nauvis/20/-1/-1.jpg", "nauvis/20/-1/-2.jpg", "nauvis/20/-2/-1.jpg", "nauvis/20/-2/-2.jpg"]
    );
    for p in &parts {
        let n = p.bytes.len();
        assert_eq!(&p.bytes[..2], &[0xff, 0xd8]);
        assert_eq!(&p.bytes[n - 2..], &[0xff, 0xd9]);
    }
}
