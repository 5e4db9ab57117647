use captcha::images::{Image, Pixl};

#[test]
fn new_canvas_is_white() {
    let img = Image::new(4, 3);
    assert_eq!(img.width(), 4);
    assert_eq!(img.height(), 3);
    for y in 0..3 {
        for x in 0..4 {
            assert_eq!(img.get_pixel(x, y), Pixl::white());
        }
    }
}

#[test]
fn put_pixel_clips_out_of_range_writes() {
    let mut img = Image::new(4, 3);
    img.put_pixel(1, 2, Pixl::red());
    img.put_pixel(4, 0, Pixl::red());
    img.put_pixel(0, 3, Pixl::red());
    assert_eq!(img.get_pixel(1, 2), Pixl::red());
    for y in 0..3 {
        for x in 0..4 {
            if (x, y) != (1, 2) {
                assert_eq!(img.get_pixel(x, y), Pixl::white());
            }
        }
    }
}

#[test]
fn clear_resets_to_white() {
    let mut img = Image::new(5, 5);
    img.put_pixel(2, 2, Pixl::black());
    img.clear();
    for y in 0..5 {
        for x in 0..5 {
            assert_eq!(img.get_pixel(x, y), Pixl::white());
        }
    }
}

#[test]
fn fill_circle_paints_the_disc() {
    let mut img = Image::new(5, 5);
    img.fill_circle(2, 2, 1, Pixl::black());
    // Every cell within truncated distance 1 of the center, corners
    // included: their distance is trunc(sqrt(2)) == 1.
    for y in 0..5u32 {
        for x in 0..5u32 {
            let dx = x as i32 - 2;
            let dy = y as i32 - 2;
            let inside = dx * dx + dy * dy < 4;
            let expect = if inside { Pixl::black() } else { Pixl::white() };
            assert_eq!(img.get_pixel(x, y), expect, "at ({x},{y})");
        }
    }
}

#[test]
fn fill_circle_clips_at_the_edges() {
    let mut img = Image::new(4, 4);
    img.fill_circle(0, 0, 2, Pixl::black());
    assert_eq!(img.get_pixel(0, 0), Pixl::black());
    assert_eq!(img.get_pixel(2, 0), Pixl::black());
    assert_eq!(img.get_pixel(3, 3), Pixl::white());
}

#[test]
fn set_color_recolors_black_strokes() {
    let mut img = Image::new(3, 1);
    img.put_pixel(0, 0, Pixl::black());
    img.put_pixel(1, 0, Pixl::new(0, 50, 60));
    img.set_color(Pixl::new_with_alpha(255, 128, 0, 255));
    assert_eq!(img.get_pixel(0, 0), Pixl::new(255, 128, 0));
    assert_eq!(img.get_pixel(1, 0), Pixl::new(255, 128, 0));
    assert_eq!(img.get_pixel(2, 0), Pixl::white());
}

#[test]
fn add_image_overlays_at_an_offset() {
    let mut base = Image::new(5, 5);
    let mut glyph = Image::new(2, 2);
    glyph.put_pixel(0, 0, Pixl::black());
    glyph.put_pixel(1, 1, Pixl::red());
    base.add_image(3, 4, &glyph);
    assert_eq!(base.get_pixel(3, 4), Pixl::black());
    // The lower row of the glyph falls outside and is dropped.
    assert_eq!(base.get_pixel(4, 4), Pixl::white());
    assert_eq!(base.get_pixel(0, 0), Pixl::white());
}

#[test]
fn draw_line_segment_joins_the_endpoints() {
    let mut img = Image::new(5, 5);
    img.draw_line_segment((0, 0), (4, 4), Pixl::black());
    for i in 0..5 {
        assert_eq!(img.get_pixel(i, i), Pixl::black());
    }
    assert_eq!(img.get_pixel(0, 1), Pixl::white());
}

#[test]
fn draw_line_segment_clips_outside_cells() {
    let mut img = Image::new(3, 3);
    img.draw_line_segment((-2, 1), (5, 1), Pixl::black());
    for x in 0..3 {
        assert_eq!(img.get_pixel(x, 1), Pixl::black());
    }
    assert_eq!(img.get_pixel(1, 0), Pixl::white());
}

#[test]
fn png_round_trip_preserves_pixels() {
    let mut img = Image::new(3, 2);
    img.put_pixel(0, 0, Pixl::new(1, 2, 3));
    img.put_pixel(2, 1, Pixl::new_with_alpha(4, 5, 6, 200));
    let bytes = img.as_png().expect("encoding failed");
    let back = Image::from_png(bytes).expect("decoding failed");
    assert_eq!(back.width(), 3);
    assert_eq!(back.height(), 2);
    for y in 0..2 {
        for x in 0..3 {
            assert_eq!(back.get_pixel(x, y), img.get_pixel(x, y));
        }
    }
}

#[test]
fn from_png_rejects_garbage() {
    assert!(Image::from_png(vec![1, 2, 3, 4]).is_none());
}
