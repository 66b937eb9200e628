use fractatoe::histogram::CountCell;
use fractatoe::histogram::FrequencyAggregationType;
use fractatoe::histogram::Histogram;

fn zero_cell() -> CountCell {
    (0, (0, 0, 0))
}

#[test]
fn test_new_histogram_is_zeroed() {
    let h: Histogram<CountCell> = Histogram::new(2, 2, 2, zero_cell());
    assert_eq!(h.width, 2);
    assert_eq!(h.height, 2);
    assert_eq!(h.resolution, 2);
    assert_eq!(h.data.len(), 16);
    for cell in h.data.iter() {
        assert_eq!(*cell, (0, (0, 0, 0)));
    }
}

#[test]
fn test_get_set_cell_row_major_supersampled() {
    let mut h: Histogram<CountCell> = Histogram::new(2, 1, 2, zero_cell());
    h.set_cell(3, 1, (7, (1, 2, 3)));
    assert_eq!(h.get_cell(3, 1), (7, (1, 2, 3)));
    assert_eq!(h.data[3 + 2 * 2 * 1], (7, (1, 2, 3)));
    assert_eq!(h.get_cell(0, 0), (0, (0, 0, 0)));
}

#[test]
fn test_reduce_resolution_sums_blocks_and_tracks_max() {
    let mut h: Histogram<CountCell> = Histogram::new(2, 1, 2, zero_cell());
    for y in 0..2u32 {
        for x in 0..4u32 {
            h.set_cell(x as usize, y as usize, (x + 10 * y, (x, y, 1)));
        }
    }
    let max_freq = h.reduce_resolution();
    assert_eq!(h.resolution, 1);
    assert_eq!(h.width, 2);
    assert_eq!(h.height, 1);
    assert_eq!(h.data.len(), 2);
    assert_eq!(h.data[0], (22, (2, 2, 4)));
    assert_eq!(h.data[1], (30, (10, 2, 4)));
    assert_eq!(max_freq, 30);
}

#[test]
fn test_reduce_on_reduced_histogram_is_identity() {
    let mut h: Histogram<CountCell> = Histogram::new(2, 1, 2, zero_cell());
    for y in 0..2u32 {
        for x in 0..4u32 {
            h.set_cell(x as usize, y as usize, (x + 10 * y, (x, y, 1)));
        }
    }
    let first_max = h.reduce_resolution();
    let snapshot = h.data.clone();
    let second_max = h.reduce_resolution();
    assert_eq!(h.resolution, 1);
    assert_eq!(h.data, snapshot);
    assert_eq!(first_max, second_max);
}

#[test]
fn test_reduce_of_empty_histogram_reports_zero_max() {
    let mut h: Histogram<CountCell> = Histogram::new(2, 2, 2, zero_cell());
    let max_freq = h.reduce_resolution();
    assert_eq!(max_freq, 0);
    assert_eq!(h.data.len(), 4);
    for cell in h.data.iter() {
        assert_eq!(*cell, (0, (0, 0, 0)));
    }
}

#[test]
fn test_add_point_first_hit_records_color() {
    let mut h: Histogram<CountCell> = Histogram::new(1, 1, 1, zero_cell());
    h.add_point(0, 0, (20, 80, 200));
    assert_eq!(h.get_cell(0, 0), (1, (20, 80, 200)));
}

#[test]
fn test_two_splats_into_empty_cell_blend_to_mean() {
    let mut h: Histogram<CountCell> = Histogram::new(1, 1, 1, zero_cell());
    h.add_point(0, 0, (20, 80, 200));
    h.add_point(0, 0, (80, 20, 100));
    assert_eq!(h.get_cell(0, 0), (2, (50, 50, 150)));
}

#[test]
fn test_third_splat_decays_earlier_hits_geometrically() {
    let mut h: Histogram<CountCell> = Histogram::new(1, 1, 1, zero_cell());
    h.add_point(0, 0, (20, 80, 200));
    h.add_point(0, 0, (80, 20, 100));
    h.add_point(0, 0, (0, 0, 0));
    assert_eq!(h.get_cell(0, 0), (3, (25, 25, 75)));
}

#[test]
fn test_zero_sized_histogram_reduces_to_nothing() {
    let mut h: Histogram<CountCell> = Histogram::new(0, 3, 1, zero_cell());
    assert_eq!(h.data.len(), 0);
    let max_freq = h.reduce_resolution();
    assert_eq!(max_freq, 0);
    assert_eq!(h.data.len(), 0);
    assert_eq!(h.resolution, 1);
}

#[test]
fn test_aggregation_kinds_are_distinct() {
    assert_ne!(FrequencyAggregationType::Linear, FrequencyAggregationType::Logarithmic);
    assert_eq!(FrequencyAggregationType::Linear, FrequencyAggregationType::Linear);
}
