use captcha::filters::{
    ColorInvert, Cow, Direction, Dots, Error, Geometry, Grid, Line, Noise, RandomLine, SerdeColor,
    Wave, NOISE_SCALE,
};
use captcha::images::{Image, Pixl};

fn checkerboard(w: u32, h: u32) -> Image {
    let mut img = Image::new(w, h);
    for y in 0..h {
        for x in 0..w {
            if (x + y) % 2 == 0 {
                img.put_pixel(x, y, Pixl::new(10, 20, 30));
            }
        }
    }
    img
}

fn canvases_equal(a: &Image, b: &Image) -> bool {
    if a.width() != b.width() || a.height() != b.height() {
        return false;
    }
    for y in 0..a.height() {
        for x in 0..a.width() {
            if a.get_pixel(x, y) != b.get_pixel(x, y) {
                return false;
            }
        }
    }
    true
}

#[test]
fn pixl_invert_is_involution() {
    let mut p = Pixl::new_with_alpha(12, 200, 255, 77);
    p.invert();
    assert_eq!(p, Pixl::new_with_alpha(243, 55, 0, 77));
    p.invert();
    assert_eq!(p, Pixl::new_with_alpha(12, 200, 255, 77));
}

#[test]
fn color_invert_twice_restores_canvas() {
    let mut img = checkerboard(7, 5);
    let before = img.clone();
    let f = ColorInvert::new();
    assert!(f.validate((7, 5)).is_ok());
    assert!(f.apply(&mut img).is_ok());
    assert!(!canvases_equal(&img, &before));
    assert!(f.apply(&mut img).is_ok());
    assert!(canvases_equal(&img, &before));
}

#[test]
fn color_invert_keeps_alpha() {
    let mut img = Image::new(3, 3);
    img.put_pixel(1, 1, Pixl::new_with_alpha(1, 2, 3, 99));
    ColorInvert::new().apply(&mut img).unwrap();
    assert_eq!(img.get_pixel(1, 1), Pixl::new_with_alpha(254, 253, 252, 99));
}

#[test]
fn grid_paints_rows_and_columns_black() {
    let mut img = Image::new(8, 8);
    let g = Grid::new(3, 2);
    assert!(g.validate((8, 8)).is_ok());
    assert!(g.apply(&mut img).is_ok());
    for y in 0..8u32 {
        for x in 0..8u32 {
            if x % 3 == 0 || y % 2 == 0 {
                assert_eq!(img.get_pixel(x, y), Pixl::black());
            } else {
                assert_eq!(img.get_pixel(x, y), Pixl::white());
            }
        }
    }
}

#[test]
fn grid_validate_rejects_bad_gaps() {
    assert!(Grid::new(0, 5).validate((10, 10)).is_err());
    assert!(Grid::new(5, 0).validate((10, 10)).is_err());
    assert!(Grid::new(10, 5).validate((10, 10)).is_err());
    assert!(Grid::new(5, 12).validate((10, 10)).is_err());
    assert!(Grid::new(3, 4).validate((10, 10)).is_ok());
}

#[test]
fn noise_validate_rejects_prob_above_one() {
    assert!(Noise::new(NOISE_SCALE + 1).validate((10, 10)).is_err());
    assert!(Noise::new(NOISE_SCALE).validate((10, 10)).is_ok());
    assert!(Noise::new(0).validate((10, 10)).is_ok());
}

#[test]
fn noise_zero_probability_is_a_no_op() {
    let mut img = checkerboard(9, 6);
    let before = img.clone();
    assert!(Noise::new(0).apply(&mut img).is_ok());
    assert!(canvases_equal(&img, &before));
}

#[test]
fn noise_certainty_blackens_everything() {
    let mut img = checkerboard(9, 6);
    assert!(Noise::new(NOISE_SCALE).apply(&mut img).is_ok());
    for y in 0..6 {
        for x in 0..9 {
            assert_eq!(img.get_pixel(x, y), Pixl::black());
        }
    }
}

#[test]
fn noise_half_probability_blackens_about_half() {
    let mut img = Image::new(100, 100);
    assert!(Noise::new(NOISE_SCALE / 2).apply(&mut img).is_ok());
    let mut black: u32 = 0;
    for y in 0..100 {
        for x in 0..100 {
            if img.get_pixel(x, y) == Pixl::black() {
                black += 1;
            }
        }
    }
    assert!(black > 4000 && black < 6000, "blackened {black} of 10000");
}

#[test]
fn dots_validate_rejects_bad_parameters() {
    assert!(matches!(
        Dots::new(0).min_radius(2).max_radius(3).validate((20, 20)),
        Err(Error::InvalidParameter { .. })
    ));
    assert!(matches!(
        Dots::new(5).min_radius(2).max_radius(3).validate((20, 20)),
        Err(Error::InvalidParameter { .. })
    ));
    assert!(matches!(
        Dots::new(2).min_radius(0).max_radius(3).validate((20, 20)),
        Err(Error::OutOfRangeGeometry { .. })
    ));
    assert!(matches!(
        Dots::new(2).min_radius(2).max_radius(20).validate((20, 20)),
        Err(Error::OutOfRangeGeometry { .. })
    ));
    assert!(Dots::new(2).min_radius(2).max_radius(3).validate((20, 20)).is_ok());
}

#[test]
fn dots_draws_circles() {
    let mut img = Image::new(60, 60);
    let d = Dots::new(4);
    assert!(d.validate((60, 60)).is_ok());
    assert!(d.apply(&mut img).is_ok());
    let mut black: u32 = 0;
    for y in 0..60 {
        for x in 0..60 {
            if img.get_pixel(x, y) == Pixl::black() {
                black += 1;
            }
        }
    }
    assert!(black > 0);
}

#[test]
fn dots_empty_radius_range_fails_to_apply() {
    let mut img = Image::new(20, 20);
    let before = img.clone();
    let d = Dots::new(3).min_radius(9).max_radius(5);
    assert!(d.validate((20, 20)).is_ok());
    assert!(matches!(d.apply(&mut img), Err(Error::ApplyFailure { .. })));
    assert!(canvases_equal(&img, &before));
}

#[test]
fn line_validate_rejects_degenerate_input() {
    let c = SerdeColor::new(0, 0, 0);
    assert!(Line::new((3, 4), (3, 4), 2, c).validate((20, 20)).is_err());
    let mut thin = Line::new((0, 0), (5, 5), 2, c);
    thin.thickness = 0;
    assert!(matches!(thin.validate((20, 20)), Err(Error::InvalidParameter { .. })));
    assert!(matches!(
        Line::new((25, 0), (0, 5), 2, c).validate((20, 20)),
        Err(Error::OutOfRangeGeometry { .. })
    ));
    assert!(matches!(
        Line::new((0, 0), (0, -20), 2, c).validate((20, 20)),
        Err(Error::OutOfRangeGeometry { .. })
    ));
    assert!(Line::new((0, 0), (5, 5), 2, c).validate((20, 20)).is_ok());
}

#[test]
fn line_new_floors_thickness_to_one() {
    let l = Line::new((0, 0), (5, 5), -3, SerdeColor::new(1, 2, 3));
    assert_eq!(l.thickness, 1);
    let l2 = Line::new((0, 0), (5, 5), 4, SerdeColor::new(1, 2, 3));
    assert_eq!(l2.thickness, 4);
}

#[test]
fn line_paints_its_color() {
    let mut img = Image::new(20, 20);
    let l = Line::new((-5, 0), (5, 0), 2, SerdeColor::new(200, 10, 10));
    assert!(l.validate((20, 20)).is_ok());
    assert!(l.apply(&mut img).is_ok());
    // A horizontal stroke through the center: the brush of half side 1
    // covers row 9 at column 10.
    assert_eq!(img.get_pixel(10, 9), Pixl::new(200, 10, 10));
}

#[test]
fn draw_stroke_paints_parallel_segments() {
    let mut img = Image::new(6, 6);
    captcha::filters::random_line::draw_stroke(
        &mut img,
        true,
        (0, 1),
        (5, 1),
        2,
        Pixl::new(120, 130, 140),
    );
    for x in 0..6 {
        assert_eq!(img.get_pixel(x, 1), Pixl::new(120, 130, 140));
        assert_eq!(img.get_pixel(x, 2), Pixl::new(120, 130, 140));
        assert_eq!(img.get_pixel(x, 3), Pixl::white());
        assert_eq!(img.get_pixel(x, 0), Pixl::white());
    }
}

#[test]
fn random_line_leaves_only_bright_opaque_marks() {
    let mut img = Image::new(30, 30);
    assert!(RandomLine::new().validate((30, 30)).is_ok());
    assert!(RandomLine::new().apply(&mut img).is_ok());
    for y in 0..30 {
        for x in 0..30 {
            let p = img.get_pixel(x, y);
            assert!(p.r >= 100 && p.g >= 100 && p.b >= 100 && p.a == 255);
        }
    }
}

#[test]
fn wave_zero_frequency_or_amplitude_is_a_no_op() {
    let mut img = checkerboard(12, 9);
    let before = img.clone();
    assert!(Wave::new(0, 30).apply(&mut img).is_ok());
    assert!(canvases_equal(&img, &before));
    assert!(Wave::new(7, 0).vertical().apply(&mut img).is_ok());
    assert!(canvases_equal(&img, &before));
}

#[test]
fn wave_validate_rejects_large_parameters() {
    assert!(matches!(Wave::new(65535, 1).validate((10, 10)), Err(Error::InvalidParameter { .. })));
    assert!(matches!(Wave::new(1, 65535).validate((10, 10)), Err(Error::InvalidParameter { .. })));
    assert!(Wave::new(65534, 65534).validate((10, 10)).is_ok());
}

#[test]
fn wave_shifts_a_column_by_its_sinusoid() {
    // On a 10-wide canvas with one period and amplitude 2, column 2 is
    // displaced by 1: 2 * (16*4*6) / (5*100 - 4*24) rounds down to 1.
    let mut img = Image::new(10, 10);
    img.put_pixel(2, 5, Pixl::black());
    assert!(Wave::new(1, 2).horizontal().apply(&mut img).is_ok());
    assert_eq!(img.get_pixel(2, 4), Pixl::black());
    assert_eq!(img.get_pixel(2, 5), Pixl::white());
}

#[test]
fn wave_direction_builders_set_the_axis() {
    assert_eq!(Wave::new(1, 2).d, Direction::HORIZONTAL);
    assert_eq!(Wave::new(1, 2).vertical().d, Direction::VERTICAL);
    assert_eq!(Wave::new(1, 2).vertical().horizontal().d, Direction::HORIZONTAL);
    assert_eq!(Wave::new(1, 2).direction(Direction::VERTICAL).d, Direction::VERTICAL);
}

#[test]
fn cow_validate_enforces_its_area() {
    let ok = Cow::new()
        .min_radius(4)
        .max_radius(5)
        .circles(2)
        .area(Geometry::new(10, 20, 10, 20));
    assert!(ok.validate((30, 30)).is_ok());
    // Area too close to the edge for the largest circle.
    let tight = Cow::new()
        .min_radius(4)
        .max_radius(5)
        .circles(2)
        .area(Geometry::new(2, 20, 10, 20));
    assert!(matches!(tight.validate((30, 30)), Err(Error::OutOfRangeGeometry { .. })));
    // The default area is unset, so a fresh filter does not validate.
    assert!(Cow::new().validate((30, 30)).is_err());
    let swapped = Cow::new().min_radius(9).max_radius(5).area(Geometry::new(10, 20, 10, 20));
    assert!(matches!(swapped.validate((30, 30)), Err(Error::InvalidParameter { .. })));
}

#[test]
fn cow_occludes_inside_the_area() {
    let mut img = Image::new(40, 40);
    let c = Cow::new().min_radius(3).max_radius(5).circles(2).area(Geometry::new(10, 30, 10, 30));
    assert!(c.validate((40, 40)).is_ok());
    assert!(c.apply(&mut img).is_ok());
    let mut black: u32 = 0;
    for y in 0..40 {
        for x in 0..40 {
            if img.get_pixel(x, y) == Pixl::black() {
                black += 1;
            }
        }
    }
    assert!(black > 0);
}

#[test]
fn error_message_carries_the_detail() {
    let e = Noise::new(NOISE_SCALE + 1).validate((5, 5)).unwrap_err();
    assert_eq!(e.message(), "prob must be between 0 and 1");
}

#[test]
fn serde_color_becomes_an_opaque_pixel() {
    let c = SerdeColor::new(9, 8, 7);
    assert_eq!(c.to_pixl(), Pixl::new_with_alpha(9, 8, 7, 255));
}
