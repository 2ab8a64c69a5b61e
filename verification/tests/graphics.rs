use aevrix::hb_graphics::glyph_cache::GlyphCache;
use aevrix::hb_graphics::image_decode::{
    decode, image_from_gif, image_from_jpeg, image_from_png_frame, ImgError,
};

#[test]
fn glyph_masks_follow_the_font() {
    let mut cache = GlyphCache::new();
    let (w, h, mask) = cache.get('A', 8);
    assert_eq!((w, h), (8, 8));
    assert_eq!(mask.len(), 64);
    // Row 0 of 'A' in the 8x8 font is 0x0C: columns 2 and 3 set.
    let row0: Vec<u8> = mask[0..8].to_vec();
    assert_eq!(row0, vec![0, 0, 255, 255, 0, 0, 0, 0]);
    // The last row is blank.
    assert!(mask[56..64].iter().all(|&v| v == 0));

    // Scaled to 16, each font pixel becomes a 2x2 block.
    let (w2, h2, big) = cache.get('A', 16);
    assert_eq!((w2, h2), (16, 16));
    assert_eq!(big.len(), 256);
    assert_eq!(big[4], 255);
    assert_eq!(big[16 + 5], 255);
    assert_eq!(big[3], 0);

    // A second request gives the same mask.
    let (_, _, again) = cache.get('A', 8);
    assert_eq!(again, mask);
}

#[test]
fn glyph_for_unknown_char_is_blank() {
    let mut cache = GlyphCache::new();
    let (w, h, mask) = cache.get('\u{4E2D}', 6);
    assert_eq!((w, h), (6, 6));
    assert!(mask.iter().all(|&v| v == 0));
}

#[test]
fn decode_dispatches_on_signature() {
    assert_eq!(decode(b"hello"), Err(ImgError::Unsupported));
    assert_eq!(decode(b""), Err(ImgError::Unsupported));
    assert!(matches!(decode(b"\x89PNG\r\n\x1a\n"), Err(ImgError::Decode(_))));
    assert!(matches!(decode(&[0xFF, 0xD8, 0x00]), Err(ImgError::Decode(_))));
    assert!(matches!(decode(b"GIF89a"), Err(ImgError::Decode(_))));
    assert_eq!(ImgError::Unsupported.message(), "unsupported format or feature not enabled");
    assert_eq!(ImgError::Decode("x".to_string()).message(), "decode error: x");
}

#[test]
fn decode_small_gif() {
    let gif: Vec<u8> = vec![
        0x47, 0x49, 0x46, 0x38, 0x39, 0x61, 0x01, 0x00, 0x01, 0x00, 0x80, 0x00, 0x00, 0xFF, 0x00,
        0x00, 0x00, 0x00, 0x00, 0x2C, 0x00, 0x00, 0x00, 0x00, 0x01, 0x00, 0x01, 0x00, 0x00, 0x02,
        0x02, 0x44, 0x01, 0x00, 0x3B,
    ];
    let img = decode(&gif).unwrap();
    assert_eq!((img.width, img.height), (1, 1));
    assert_eq!(img.rgba, vec![0xFF, 0x00, 0x00, 0xFF]);
}

#[test]
fn png_frames_become_rgba() {
    let rgb = image_from_png_frame(2, 1, 2, vec![1, 2, 3, 4, 5, 6]).unwrap();
    assert_eq!(rgb.rgba, vec![1, 2, 3, 255, 4, 5, 6, 255]);
    let gray = image_from_png_frame(2, 1, 0, vec![7, 8]).unwrap();
    assert_eq!(gray.rgba, vec![7, 7, 7, 255, 8, 8, 8, 255]);
    let rgba = image_from_png_frame(1, 1, 6, vec![1, 2, 3, 4]).unwrap();
    assert_eq!(rgba.rgba, vec![1, 2, 3, 4]);
    assert_eq!(
        image_from_png_frame(1, 1, 3, vec![0]),
        Err(ImgError::Decode("indexed PNG without expansion".to_string()))
    );
    assert_eq!(
        image_from_png_frame(1, 1, 4, vec![0, 0]),
        Err(ImgError::Decode("unsupported PNG color type".to_string()))
    );
}

#[test]
fn jpeg_and_gif_results_become_images() {
    let g = image_from_jpeg(vec![9], Some((1, 1, 0))).unwrap();
    assert_eq!(g.rgba, vec![9, 9, 9, 255]);
    let c = image_from_jpeg(vec![1, 2, 3, 4], Some((1, 1, 2))).unwrap();
    assert_eq!(c.rgba, vec![1, 2, 3, 255]);
    assert_eq!(
        image_from_jpeg(vec![], Some((1, 1, 3))),
        Err(ImgError::Decode("unsupported JPEG pixel format".to_string()))
    );
    assert_eq!(image_from_jpeg(vec![], None), Err(ImgError::Decode("no jpeg info".to_string())));
    assert_eq!(image_from_gif(None), Err(ImgError::Decode("empty GIF".to_string())));
    let f = image_from_gif(Some((vec![1, 2, 3, 4], 1, 1))).unwrap();
    assert_eq!((f.width, f.height, f.rgba), (1, 1, vec![1, 2, 3, 4]));
}
