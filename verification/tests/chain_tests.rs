use captcha::codec::{decode_chain, encode_chain};
use captcha::filters::{
    ColorInvert, Direction, Dots, Error, Filter, FilterChain, FilterKind, Geometry, Grid, Line,
    Noise, RandomLine, SerdeColor, Wave, Cow,
};
use captcha::images::{Image, Pixl};

fn canvases_equal(a: &Image, b: &Image) -> bool {
    if a.width() != b.width() || a.height() != b.height() {
        return false;
    }
    for y in 0..a.height() {
        for x in 0..a.width() {
            if a.get_pixel(x, y) != b.get_pixel(x, y) {
                return false;
            }
        }
    }
    true
}

#[test]
fn chain_with_one_invalid_filter_leaves_canvas_untouched() {
    let mut img = Image::new(30, 30);
    Grid::new(5, 5).apply(&mut img).unwrap();
    let before = img.clone();
    let mut chain = FilterChain::new();
    chain.add(Filter::Noise(Noise::new(100000)));
    chain.add(Filter::Grid(Grid::new(0, 10)));
    chain.add(Filter::ColorInvert(ColorInvert::new()));
    assert!(chain.validate((30, 30)).is_err());
    assert!(chain.apply(&mut img).is_err());
    assert!(canvases_equal(&img, &before));
}

#[test]
fn valid_chain_applies_in_order() {
    let mut img = Image::new(20, 20);
    let mut chain = FilterChain::new();
    chain.add(Filter::Grid(Grid::new(4, 4)));
    chain.add(Filter::ColorInvert(ColorInvert::new()));
    assert!(chain.validate((20, 20)).is_ok());
    assert!(chain.apply(&mut img).is_ok());
    // Grid lines were painted black and then inverted to white; the
    // untouched white background became black.
    assert_eq!(img.get_pixel(0, 0), Pixl::white());
    assert_eq!(img.get_pixel(1, 1), Pixl::black());
}

#[test]
fn empty_chain_validates_and_does_nothing() {
    let mut img = Image::new(5, 5);
    let before = img.clone();
    let chain = FilterChain::new();
    assert!(chain.validate((5, 5)).is_ok());
    assert!(chain.apply(&mut img).is_ok());
    assert!(canvases_equal(&img, &before));
}

#[test]
fn codec_round_trips_a_chain() {
    let mut chain = FilterChain::new();
    chain.add(Filter::Noise(Noise::new(100000)));
    chain.add(Filter::Grid(Grid::new(10, 10)));
    chain.add(Filter::ColorInvert(ColorInvert::new()));
    let bytes = encode_chain(&chain);
    let back = decode_chain(&bytes).expect("decoding failed");
    assert_eq!(back, chain);
}

#[test]
fn codec_round_trips_every_filter_kind() {
    let mut chain = FilterChain::new();
    chain.add(Filter::Noise(Noise::new(250000)));
    chain.add(Filter::Grid(Grid::new(7, 9)));
    chain.add(Filter::Line(Line::new((-3, 4), (5, -6), 2, SerdeColor::new(1, 2, 3))));
    chain.add(Filter::ColorInvert(ColorInvert::new()));
    chain.add(Filter::Dots(Dots::new(3).min_radius(4).max_radius(6)));
    chain.add(Filter::RandomLine(RandomLine::new()));
    chain.add(Filter::Wave(Wave::new(2, 11).direction(Direction::VERTICAL)));
    chain.add(Filter::Cow(
        Cow::new().min_radius(8).max_radius(9).circles(2).area(Geometry::new(10, 20, 10, 20)),
    ));
    let bytes = encode_chain(&chain);
    let back = decode_chain(&bytes).expect("decoding failed");
    assert_eq!(back, chain);
}

#[test]
fn decoded_chain_behaves_like_the_original() {
    // A deterministic chain: the reconstruction produces pixel-identical
    // output on the same canvas.
    let mut chain = FilterChain::new();
    chain.add(Filter::Grid(Grid::new(6, 8)));
    chain.add(Filter::Wave(Wave::new(2, 4)));
    chain.add(Filter::ColorInvert(ColorInvert::new()));
    let back = decode_chain(&encode_chain(&chain)).expect("decoding failed");
    let mut img1 = Image::new(25, 25);
    let mut img2 = Image::new(25, 25);
    chain.apply(&mut img1).unwrap();
    back.apply(&mut img2).unwrap();
    assert!(canvases_equal(&img1, &img2));
}

#[test]
fn empty_chain_encodes_to_a_zero_count() {
    let chain = FilterChain::new();
    let bytes = encode_chain(&chain);
    assert_eq!(bytes, vec![0, 0, 0, 0]);
    assert_eq!(decode_chain(&bytes), Some(chain));
}

#[test]
fn noise_record_bytes_are_tag_then_fixed_point_probability() {
    let mut chain = FilterChain::new();
    chain.add(Filter::Noise(Noise::new(100000)));
    let bytes = encode_chain(&chain);
    // One record; 100000 is 0x0186A0.
    assert_eq!(bytes, vec![1, 0, 0, 0, 1, 0xA0, 0x86, 0x01, 0x00]);
}

#[test]
fn decode_rejects_malformed_bytes() {
    assert_eq!(decode_chain(&vec![]), None);
    assert_eq!(decode_chain(&vec![1, 0, 0]), None);
    // One record announced, none present.
    assert_eq!(decode_chain(&vec![1, 0, 0, 0]), None);
    // Unknown discriminant.
    assert_eq!(decode_chain(&vec![1, 0, 0, 0, 9]), None);
    // Truncated record.
    assert_eq!(decode_chain(&vec![1, 0, 0, 0, 1, 0xA0]), None);
    // Trailing bytes after the last record.
    assert_eq!(decode_chain(&vec![0, 0, 0, 0, 4]), None);
    // A wave record with an unknown direction byte.
    assert_eq!(
        decode_chain(&vec![1, 0, 0, 0, 7, 1, 0, 0, 0, 2, 0, 0, 0, 9]),
        None
    );
}

#[test]
fn chain_stops_at_a_failing_filter_keeping_prior_work() {
    let mut img = Image::new(30, 30);
    let mut chain = FilterChain::new();
    chain.add(Filter::Grid(Grid::new(5, 5)));
    chain.add(Filter::Dots(Dots::new(2).min_radius(9).max_radius(5)));
    assert!(chain.validate((30, 30)).is_ok());
    assert!(matches!(chain.apply(&mut img), Err(Error::ApplyFailure { .. })));
    // The grid applied before the failing filter stays in effect.
    assert_eq!(img.get_pixel(0, 1), Pixl::black());
}

#[test]
fn chain_validation_error_names_the_invalid_filter() {
    let mut chain = FilterChain::new();
    chain.add(Filter::Noise(Noise::new(100)));
    chain.add(Filter::Grid(Grid::new(0, 10)));
    let e = chain.validate((30, 30)).unwrap_err();
    assert!(matches!(e, Error::OutOfRangeGeometry { filter: FilterKind::Grid, .. }));
}

#[test]
fn chain_reports_the_failing_filters_error() {
    let chain_err = {
        let mut chain = FilterChain::new();
        chain.add(Filter::Dots(Dots::new(9)));
        chain.validate((40, 40)).unwrap_err()
    };
    assert!(matches!(chain_err, Error::InvalidParameter { .. }));
}
