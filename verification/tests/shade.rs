use raytracer::double::Double;
use raytracer::shade::{checker, clamp_unit, diffuse, Intensity, AMBIENT_FLOOR, HALF, TWO};

fn number(x: f64) -> Double {
    Double::from_bits(x.to_bits())
}

fn folded(x: f64) -> Double {
    let mut m = x % 2.0;
    if m < 0.0 {
        m += 2.0;
    }
    number(m)
}

fn lit(d: f64) -> f64 {
    f64::from_bits(diffuse(number(d)).to_bits())
}

#[test]
fn constants_are_the_patterns_of_their_numbers() {
    assert_eq!(AMBIENT_FLOOR, 0.1f64.to_bits());
    assert_eq!(TWO, 2.0f64.to_bits());
    assert_eq!(HALF, 0.5f64.to_bits());
}

#[test]
fn dark_cell_halves_and_bright_cell_keeps() {
    assert_eq!(f64::from_bits(Intensity::Half.factor().to_bits()), 0.5);
    assert_eq!(f64::from_bits(Intensity::Full.factor().to_bits()), 1.0);
    assert_eq!(0.55 * f64::from_bits(checker(number(0.25), number(0.75)).factor().to_bits()), 0.275);
    assert_eq!(0.55 * f64::from_bits(checker(number(0.25), number(1.75)).factor().to_bits()), 0.55);
}

#[test]
fn diffuse_keeps_a_term_between_floor_and_one() {
    assert_eq!(lit(0.5), 0.5);
    assert_eq!(lit(0.1), 0.1);
    assert_eq!(lit(1.0), 1.0);
    assert_eq!(lit(0.7071067811865476), 0.7071067811865476);
}

#[test]
fn diffuse_raises_an_unlit_surface_to_the_floor() {
    assert_eq!(lit(0.0), 0.1);
    assert_eq!(lit(-0.0), 0.1);
    assert_eq!(lit(0.09999), 0.1);
    assert_eq!(lit(-1.0), 0.1);
    assert_eq!(lit(f64::NEG_INFINITY), 0.1);
}

#[test]
fn diffuse_caps_at_one() {
    assert_eq!(lit(1.0000000000000002), 1.0);
    assert_eq!(lit(3.0), 1.0);
    assert_eq!(lit(f64::INFINITY), 1.0);
}

#[test]
fn diffuse_agrees_with_min_then_max() {
    let samples = [
        -2.0, -0.0, 0.0, 0.05, 0.1, 0.10000000000000002, 0.3, 0.99, 1.0, 1.5,
        f64::INFINITY, f64::NEG_INFINITY, f64::NAN,
    ];
    for d in samples {
        assert_eq!(lit(d).to_bits(), d.min(1.0).max(0.1).to_bits(), "{:?}", d);
    }
}

#[test]
fn diffuse_of_nan_is_fully_lit() {
    assert_eq!(lit(f64::NAN), 1.0);
}

#[test]
fn checker_alternates_over_a_grid_of_cells() {
    let points: [f64; 4] = [-1.5, -0.5, 0.5, 1.5];
    for x in points {
        for z in points {
            let even = (x.floor() as i64 + z.floor() as i64) % 2 == 0;
            let expected = if even { Intensity::Half } else { Intensity::Full };
            assert_eq!(checker(folded(x), folded(z)), expected, "at ({:?}, {:?})", x, z);
        }
    }
}

#[test]
fn checker_cells_by_name() {
    assert_eq!(checker(number(0.5), number(0.5)), Intensity::Half);
    assert_eq!(checker(number(1.5), number(1.5)), Intensity::Half);
    assert_eq!(checker(number(0.5), number(1.5)), Intensity::Full);
    assert_eq!(checker(number(1.5), number(0.5)), Intensity::Full);
    assert_eq!(checker(number(0.0), number(0.0)), Intensity::Half);
}

#[test]
fn checker_is_bright_on_a_cell_boundary() {
    assert_eq!(checker(number(1.0), number(1.5)), Intensity::Full);
    assert_eq!(checker(number(1.0), number(0.5)), Intensity::Full);
    assert_eq!(checker(number(0.5), number(1.0)), Intensity::Full);
    assert_eq!(checker(number(1.0), number(1.0)), Intensity::Full);
}

#[test]
fn checker_is_bright_where_a_coordinate_is_nan() {
    assert_eq!(checker(number(f64::NAN), number(0.5)), Intensity::Full);
    assert_eq!(checker(number(1.5), number(f64::NAN)), Intensity::Full);
}

#[test]
fn clamp_unit_holds_a_channel_between_zero_and_one() {
    let clamp = |c: f64| f64::from_bits(clamp_unit(number(c)).to_bits());
    assert_eq!(clamp(0.25), 0.25);
    assert_eq!(clamp(0.0), 0.0);
    assert_eq!(clamp(1.0), 1.0);
    assert_eq!(clamp(1.25), 1.0);
    assert_eq!(clamp(f64::INFINITY), 1.0);
    assert_eq!(clamp(-0.25), 0.0);
    assert_eq!(clamp(f64::NEG_INFINITY), 0.0);
    assert_eq!(clamp(f64::NAN), 0.0);
}
