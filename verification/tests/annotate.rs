use rs_face::image::{Image, Rect};
use rs_face::report::{base64_encode, thumbnail_box, Thumbnail};
use rs_face::saver::{draw_label, draw_rects, draw_rects_color, draw_rects_palette, format_hms, frame_stamp};

fn gray(w: usize, h: usize) -> Image {
    Image::from_grayscale(w, h, vec![0; w * h])
}

#[test]
fn outline_of_a_rectangle() {
    let mut img = gray(6, 6);
    draw_rects(&mut img, &[Rect::new(1, 1, 3, 2)]);
    let on = |x: usize, y: usize| img.data[y * 6 + x] == 255;
    assert!(on(1, 1) && on(4, 1) && on(1, 3) && on(4, 3) && on(2, 1) && on(1, 2));
    assert!(!on(2, 2) && !on(0, 0) && !on(5, 5));
}

#[test]
fn outline_is_clamped_to_the_image() {
    let mut img = gray(4, 4);
    draw_rects_color(&mut img, &[Rect::new(-2, -2, 10, 10)], &[7]);
    assert_eq!(img.data[0], 7);
    assert_eq!(img.data[3], 7);
    assert_eq!(img.data[15], 7);
    assert_eq!(img.data[5], 0);
}

#[test]
fn outline_right_of_the_image_marks_last_column() {
    let mut img = gray(4, 3);
    draw_rects_color(&mut img, &[Rect::new(10, 0, 2, 1)], &[9]);
    assert_eq!(img.data[3], 9);
    assert_eq!(img.data[7], 9);
    assert_eq!(img.data[11], 0);
    assert_eq!(img.data[0], 0);
}

#[test]
fn palette_colours_by_track() {
    let mut rgb = Image::from_rgb(3, 3, vec![0; 27]);
    draw_rects_palette(&mut rgb, &[Rect::new(0, 0, 2, 2)], &[8]);
    assert_eq!(&rgb.data[0..3], &[80, 220, 80]);
    let mut g = gray(3, 3);
    draw_rects_palette(&mut g, &[Rect::new(0, 0, 2, 2), Rect::new(0, 0, 1, 1)], &[1]);
    assert_eq!(g.data[0], ((255 + 80 + 80) / 3) as u8);
    assert_eq!(g.data[2], ((80 + 220 + 80) / 3) as u8);
}

#[test]
fn label_draws_box_and_text() {
    let mut img = Image::from_grayscale(40, 20, vec![1; 800]);
    draw_label(&mut img, 0, 15, "I");
    assert_eq!(img.data[2 * 40], 1);
    assert_eq!(img.data[3 * 40], 200);
    assert_eq!(img.data[5 * 40 + 2], 200);
    assert_eq!(img.data[5 * 40 + 4], 0);
    assert_eq!(img.data[3 * 40 + 10], 1);
    let mut rgb = Image::from_rgb(20, 20, vec![1; 1200]);
    draw_label(&mut rgb, 0, 15, "");
    assert_eq!(&rgb.data[3 * 60..3 * 60 + 3], &[0, 0, 200]);
}

#[test]
fn frame_names() {
    assert_eq!(frame_stamp("0007_00h-00m-02s-500ms"), (0, 7));
    assert_eq!(frame_stamp("clip_0007_1500ms"), (1500, 7));
    assert_eq!(frame_stamp("frame_000042"), (0, 42));
    assert_eq!(frame_stamp("frame_x"), (0, 0));
    assert_eq!(frame_stamp("12msms"), (12, 0));
}

#[test]
fn hms_stamps() {
    assert_eq!(format_hms(0), "00h-00m-00s-000ms");
    assert_eq!(format_hms(3_723_004), "01h-02m-03s-004ms");
    assert_eq!(format_hms(360_000_000), "100h-00m-00s-000ms");
}

#[test]
fn base64_vectors() {
    assert_eq!(base64_encode(b""), "");
    assert_eq!(base64_encode(b"f"), "Zg==");
    assert_eq!(base64_encode(b"fo"), "Zm8=");
    assert_eq!(base64_encode(b"foo"), "Zm9v");
    assert_eq!(base64_encode(b"foobar"), "Zm9vYmFy");
    assert_eq!(base64_encode(&[0xFF, 0xEF]), "/+8=");
    assert_eq!(base64_encode(&[7; 10]).len(), 16);
}

#[test]
fn thumbnail_crop_box() {
    assert_eq!(thumbnail_box([-5, 2, 20, 4], 10, 10), Some((0, 2, 10, 4)));
    assert_eq!(thumbnail_box([3, 3, 0, 5], 10, 10), None);
    let t = Thumbnail::default();
    assert_eq!(t.face_id, 0);
    assert!(t.png_base64.is_empty());
}

#[test]
fn saved_frame_names() {
    let stem = rs_face::saver::frame_stem(1, 1);
    assert_eq!(stem, "0001_00h-00m-00s-001ms");
    assert_eq!(rs_face::saver::frame_stem(12345, 3_723_004), "12345_01h-02m-03s-004ms");
    assert_eq!(frame_stamp(&stem), (0, 1));
    assert_eq!(frame_stamp("frame_000042"), (0, 42));
}
