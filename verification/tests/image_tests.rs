use fractatoe::image::Image;
use fractatoe::image::Pix;

#[test]
fn test_new_image_is_transparent_black() {
    let img = Image::new(3, 2);
    assert_eq!(img.width, 3);
    assert_eq!(img.height, 2);
    assert_eq!(img.pixels.len(), 6);
    for pix in img.pixels.iter() {
        assert_eq!(*pix, Pix { r: 0, g: 0, b: 0, alpha: 0 });
    }
}

#[test]
fn test_default_pix_is_zeroed() {
    let pix: Pix = Default::default();
    assert_eq!(pix, Pix { r: 0, g: 0, b: 0, alpha: 0 });
}

#[test]
fn test_set_pixel_writes_row_major() {
    let mut img = Image::new(3, 2);
    let pix = Pix { r: 10, g: 20, b: 30, alpha: 255 };
    img.set_pixel(1, 1, pix);
    assert_eq!(img.pixels[1 + 1 * 3], pix);
    for i in 0..img.pixels.len() {
        if i != 1 + 1 * 3 {
            assert_eq!(img.pixels[i], Pix { r: 0, g: 0, b: 0, alpha: 0 });
        }
    }
}

#[test]
fn test_draw_serializes_rgba_quads() {
    let mut img = Image::new(2, 1);
    img.set_pixel(0, 0, Pix { r: 1, g: 2, b: 3, alpha: 4 });
    img.set_pixel(1, 0, Pix { r: 5, g: 6, b: 7, alpha: 8 });
    let mut frame: Vec<u8> = vec![0; 8];
    img.draw(&mut frame);
    assert_eq!(frame, vec![1, 2, 3, 4, 5, 6, 7, 8]);
}

#[test]
fn test_draw_leaves_partial_tail_untouched() {
    let mut img = Image::new(2, 1);
    img.set_pixel(0, 0, Pix { r: 9, g: 9, b: 9, alpha: 9 });
    let mut frame: Vec<u8> = vec![7; 6];
    img.draw(&mut frame);
    assert_eq!(frame, vec![9, 9, 9, 9, 7, 7]);
}
