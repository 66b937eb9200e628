//! One test per sample configuration kind: the engine-side objects that
//! the configuration describes must all build.

use fractatoe::flame::FlameDistribution;
use fractatoe::flame::VariationFunction;
use fractatoe::histogram::Histogram;

type FloatCell = (f64, (f64, f64, f64));

fn empty_float_cell() -> FloatCell {
    (0.0, (0.0, 0.0, 0.0))
}

#[test]
fn test_julia_conf() {
    let h: Histogram<FloatCell> = Histogram::new(320, 240, 1, empty_float_cell());
    assert_eq!(h.width, 320);
    assert_eq!(h.height, 240);
    assert_eq!(h.resolution, 1);
    assert_eq!(h.data.len(), 320 * 240);
}

#[test]
fn test_mandelbrot_conf() {
    let h: Histogram<FloatCell> = Histogram::new(160, 120, 2, empty_float_cell());
    assert_eq!(h.width, 160);
    assert_eq!(h.height, 120);
    assert_eq!(h.resolution, 2);
    assert_eq!(h.data.len(), 160 * 120 * 4);
}

#[test]
fn test_sierpinsky_conf() {
    let corners = FlameDistribution::new(vec![1, 1, 1]).unwrap();
    assert_eq!(corners.len(), 3);
    let variations = vec![VariationFunction::Linear];
    assert_eq!(variations.len(), 1);
    let h: Histogram<FloatCell> = Histogram::new(160, 160, 1, empty_float_cell());
    assert_eq!(h.data.len(), 160 * 160);
}
