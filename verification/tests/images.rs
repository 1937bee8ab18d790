use rs_face::detector::flip_horizontal;
use rs_face::image::{ppm_rgb_header, ppm_rgb_image, Image, Rect, RgbPpmError};
use rs_face::imgproc::{apply_lut, cumulative_histogram, IntegralImage};
use rs_face::png::write_png_to_writer;
use rs_face::ppm::{
    encode_pgm, encode_ppm_rgb, parse_pgm_bytes, parse_ppm_header, ppm_gray_pixels, GrayImage, PgmError, PpmError,
};
use rs_face::text::IntErrorKind;

#[test]
fn rect_edges_and_area() {
    let r = Rect::new(2, 3, 4, 5);
    assert_eq!(r.right(), 6);
    assert_eq!(r.bottom(), 8);
    assert_eq!(r.area(), 20);
    assert_eq!(Rect::new(0, 0, -3, 5).area(), 0);
}

#[test]
fn rgb_to_gray_uses_fixed_point_luma() {
    let img = Image::from_rgb(2, 1, vec![255, 255, 255, 10, 200, 30]);
    let g = img.to_grayscale();
    assert_eq!(g, vec![255, ((77 * 10 + 150 * 200 + 29 * 30) / 256) as u8]);
}

#[test]
fn crop_keeps_the_inside() {
    let img = Image::from_grayscale(3, 3, (0..9).collect());
    let c = img.crop(1, 1, 5, 5);
    assert_eq!((c.width, c.height), (2, 2));
    assert_eq!(c.data, vec![4, 5, 7, 8]);
}

#[test]
fn flip_twice_is_identity() {
    let img = Image::from_rgb(3, 2, (0..18).collect());
    let once = flip_horizontal(&img);
    assert_eq!(&once.data[0..3], &[6, 7, 8]);
    let twice = flip_horizontal(&once);
    assert_eq!(twice.data, img.data);
}

#[test]
fn pgm_roundtrip() {
    let g = GrayImage { w: 3, h: 2, data: vec![1, 2, 3, 4, 5, 6] };
    let bytes = encode_pgm(&g);
    assert_eq!(&bytes[..11], b"P5\n3 2\n255\n");
    let back = parse_pgm_bytes(&bytes).unwrap();
    assert_eq!((back.w, back.h, back.data), (3, 2, vec![1, 2, 3, 4, 5, 6]));
}

#[test]
fn pgm_with_comments() {
    let bytes = b"P5\n# made by hand\n2 1\n255\n\x07\x09";
    let g = parse_pgm_bytes(bytes).unwrap();
    assert_eq!(g.data, vec![7, 9]);
}

#[test]
fn pgm_errors() {
    assert_eq!(parse_pgm_bytes(b"").unwrap_err(), PgmError::Truncated);
    assert_eq!(parse_pgm_bytes(b"P6 1 1 255 x").unwrap_err(), PgmError::NotP5(b"P6".to_vec()));
    assert_eq!(parse_pgm_bytes(b"P5 -1 1 255 x").unwrap_err(), PgmError::BadWidth(IntErrorKind::InvalidDigit));
    assert_eq!(parse_pgm_bytes(b"P5 1 1 65535 x").unwrap_err(), PgmError::MaxvalTooLarge(65535));
    assert_eq!(parse_pgm_bytes(b"P5 2 2 255 abc").unwrap_err(), PgmError::NotEnoughData { need: 4, have: 3 });
}

#[test]
fn ppm_header_and_gray_pixels() {
    let mut bytes = encode_ppm_rgb(2, 1, &[255, 0, 0, 0, 0, 255]);
    let (w, h, off) = parse_ppm_header(&bytes).unwrap();
    assert_eq!((w, h, off), (2, 1, 11));
    let g = ppm_gray_pixels(&bytes, w, h, off).unwrap();
    assert_eq!(g.data, vec![(299 * 255 / 1000) as u8, (114 * 255 / 1000) as u8]);
    bytes.pop();
    assert_eq!(ppm_gray_pixels(&bytes, w, h, off).unwrap_err(), PpmError::NotEnoughData { need: 6, have: 5 });
}

#[test]
fn ppm_header_errors() {
    assert_eq!(parse_ppm_header(b"P5 1 1 255\n"), Err(PpmError::NotP6(b"P5".to_vec())));
    assert_eq!(parse_ppm_header(b"P6 1 1 255"), Err(PpmError::MissingSeparator));
    assert_eq!(parse_ppm_header(b"P6 1 # open comment"), Err(PpmError::Eof(true)));
    assert_eq!(parse_ppm_header(b"P6 1 x 255\n"), Err(PpmError::BadHeight(IntErrorKind::InvalidDigit)));
}

#[test]
fn image_ppm_bytes() {
    let img = Image { width: 1, height: 1, channels: 4, data: vec![1, 2, 3, 4] };
    assert_eq!(img.ppm_bytes(), b"P6\n1 1\n255\n\x01\x02\x03".to_vec());
    let gray = Image::from_grayscale(1, 1, vec![9]);
    assert_eq!(gray.ppm_bytes(), b"P5\n1 1\n255\n\x09".to_vec());
}

#[test]
fn gray_image_pixels_and_crop() {
    let mut g = GrayImage::new(3, 3);
    g.set_pixel(1, 2, 50);
    assert_eq!(g.pixel(1, 2), 50);
    let c = g.crop(1, 1, 10, 10);
    assert_eq!((c.w, c.h), (2, 2));
    assert_eq!(c.data, vec![0, 0, 50, 0]);
    let mut lut = vec![0u8; 256];
    lut[50] = 99;
    g.map_pixels(&lut);
    assert_eq!(g.pixel(1, 2), 99);
}

#[test]
fn integral_sums() {
    let ii = IntegralImage::from_gray_raw(&[1, 2, 3, 4, 5, 6], 3, 2);
    assert_eq!(ii.sum(0, 0, 3, 2), 21);
    assert_eq!(ii.sum(1, 0, 2, 2), 16);
    assert_eq!(ii.sum(-5, -5, 100, 100), 21);
    assert_eq!(ii.sum_sq(0, 0, 2, 1), 5);
}

#[test]
fn histogram_and_lut() {
    let cdf = cumulative_histogram(&[0, 0, 5, 255]);
    assert_eq!(cdf[0], 2);
    assert_eq!(cdf[4], 2);
    assert_eq!(cdf[5], 3);
    assert_eq!(cdf[255], 4);
    let lut: Vec<u8> = (0..=255u8).rev().collect();
    assert_eq!(apply_lut(&[0, 255], 2, 2, &lut), vec![255, 0, 0, 0]);
    assert_eq!(apply_lut(&[], 2, 2, &lut), Vec::<u8>::new());
}

#[test]
fn png_file_layout() {
    let img = Image::from_grayscale(2, 2, vec![0, 64, 128, 255]);
    let mut out = Vec::new();
    write_png_to_writer(&img, &mut out).unwrap();
    assert_eq!(&out[..8], &[0x89, b'P', b'N', b'G', 0x0D, 0x0A, 0x1A, 0x0A]);
    assert_eq!(&out[out.len() - 12..], &[0, 0, 0, 0, b'I', b'E', b'N', b'D', 0xAE, 0x42, 0x60, 0x82]);
}

#[test]
fn rgb_ppm_read_line_by_line() {
    let mut bytes = b"P6\n# made by hand\n\n2 1 extra\n255\n".to_vec();
    bytes.extend_from_slice(&[0, 1, 2, 3, 4, 5, 6]);
    let (w, h, off) = ppm_rgb_header(&bytes).unwrap();
    assert_eq!((w, h, off), (2, 1, 34));
    let img = ppm_rgb_image(&bytes, w, h, off).unwrap();
    assert_eq!((img.width, img.height, img.channels), (2, 1, 3));
    assert_eq!(img.data, vec![1, 2, 3, 4, 5, 6]);
}

#[test]
fn rgb_ppm_header_errors() {
    assert_eq!(ppm_rgb_header(b"P5\n1 1\n255\n\0"), Err(RgbPpmError::NotP6));
    assert_eq!(ppm_rgb_header(b""), Err(RgbPpmError::NotP6));
    assert_eq!(ppm_rgb_header(b"P6\n#only comments\n"), Err(RgbPpmError::HeaderEof));
    assert_eq!(ppm_rgb_header(b"P6\n  \n"), Err(RgbPpmError::HeaderEof));
    assert_eq!(ppm_rgb_header(b"P6\n3\n255\n\0"), Err(RgbPpmError::MissingHeight));
    assert_eq!(ppm_rgb_header(b"P6\nx 3\n255\n\0"), Err(RgbPpmError::BadWidth(IntErrorKind::InvalidDigit)));
    assert_eq!(ppm_rgb_header(b"P6\n3 3\n"), Err(RgbPpmError::MaxvalEof));
    assert_eq!(ppm_rgb_header(b"P6\n3 3\n65535\n\0"), Err(RgbPpmError::MaxvalTooLarge(65535)));
    assert_eq!(ppm_rgb_header(b"P6\n3 3\n255\n"), Err(RgbPpmError::MissingSeparator));
    assert_eq!(ppm_rgb_header(b"P6\n3 3\n\xff\n\0"), Err(RgbPpmError::NotUtf8));
    assert_eq!(ppm_rgb_header(b"\xffP6\n3 3\n255\n\0"), Err(RgbPpmError::NotUtf8));
}

#[test]
fn rgb_ppm_short_pixels() {
    let bytes = b"P6\n2 2\n255\n\0abc".to_vec();
    let (w, h, off) = ppm_rgb_header(&bytes).unwrap();
    assert_eq!(ppm_rgb_image(&bytes, w, h, off).err(), Some(RgbPpmError::NotEnoughData));
}
