use herculaneum_mls_cubecl::binary32::{greater_than, is_finite, is_positive, total_order_key};
use herculaneum_mls_cubecl::layout::{
    check_one_pass_input, check_projection_input, failure_vertices, reverse_triples,
    reversed_triple_array,
};

fn b(v: &[f32]) -> Vec<u32> {
    v.iter().map(|x| x.to_bits()).collect()
}

#[test]
fn reverse_triples_swaps_z_and_x() {
    let zyx = [1.0_f32, 2.0, 3.0, 4.0, 5.0, 6.0];
    let xyz = reverse_triples(&zyx);
    assert_eq!(xyz, vec![3.0, 2.0, 1.0, 6.0, 5.0, 4.0]);
    assert_eq!(reverse_triples(&xyz), zyx.to_vec());
    assert_eq!(reverse_triples(&[1, 2, 3, 4]), vec![3, 2, 1]);
    assert_eq!(reversed_triple_array(&zyx), vec![[3.0, 2.0, 1.0], [6.0, 5.0, 4.0]]);
}

#[test]
fn one_pass_input_checks_in_order() {
    let origin = b(&[0.0, 0.0, 0.0]);
    let o = [origin[0], origin[1], origin[2]];
    let r = 4.0_f32.to_bits();
    assert_eq!(check_one_pass_input(&b(&[1.0, 2.0, 3.0]), r, o), None);
    assert_eq!(check_one_pass_input(&[], r, o), Some("vertices must contain one or more zyx triples"));
    assert_eq!(check_one_pass_input(&b(&[1.0, 2.0]), r, o), Some("vertices must contain one or more zyx triples"));
    assert_eq!(check_one_pass_input(&b(&[1.0, f32::NAN, 3.0]), 0, o), Some("vertices contain a non-finite value"));
    assert_eq!(check_one_pass_input(&b(&[1.0, 2.0, 3.0]), 0.0_f32.to_bits(), o), Some("radius must be finite and > 0"));
    assert_eq!(check_one_pass_input(&b(&[1.0, 2.0, 3.0]), f32::INFINITY.to_bits(), o), Some("radius must be finite and > 0"));
    let bad = [0, f32::NEG_INFINITY.to_bits(), 0];
    assert_eq!(check_one_pass_input(&b(&[1.0, 2.0, 3.0]), r, bad), Some("cell_origin contains a non-finite value"));
}

#[test]
fn projection_input_checks_in_order() {
    let r = 4.0_f32.to_bits();
    assert_eq!(check_projection_input(&[], r, true), None);
    assert_eq!(check_projection_input(&[], r, false), Some("vertices must contain one or more flat xyz triples"));
    assert_eq!(check_projection_input(&b(&[1.0]), r, true), Some("vertices must be flat xyz triples"));
    assert_eq!(check_projection_input(&b(&[f32::NAN; 3]), (-1.0_f32).to_bits(), true), Some("radius must be finite and > 0"));
    assert_eq!(check_projection_input(&b(&[f32::NAN; 3]), r, false), Some("vertices contain a non-finite value"));
}

#[test]
fn binary32_predicates_match_f32() {
    let samples = [
        0.0_f32, -0.0, 1.0, -1.0, 1.0e-45, -1.0e-45, f32::MAX, f32::MIN, f32::INFINITY,
        f32::NEG_INFINITY, f32::NAN, 3.5, -2.25, f32::MIN_POSITIVE,
    ];
    for a in samples {
        assert_eq!(is_finite(a.to_bits()), a.is_finite(), "{a}");
        assert_eq!(is_positive(a.to_bits()), a.is_finite() && a > 0.0, "{a}");
        for c in samples {
            if a.is_finite() && c.is_finite() {
                assert_eq!(greater_than(a.to_bits(), c.to_bits()), a > c, "{a} {c}");
            }
            if !a.is_nan() && !c.is_nan() {
                assert_eq!(
                    total_order_key(a.to_bits()).cmp(&total_order_key(c.to_bits())),
                    a.total_cmp(&c),
                    "{a} {c}"
                );
            }
        }
    }
}

#[test]
fn failure_vertices_keep_matching_input() {
    assert_eq!(failure_vertices(&[1.0_f32, 2.0, 3.0], 3, 0.0), vec![1.0, 2.0, 3.0]);
    assert_eq!(failure_vertices(&[1.0_f32, 2.0], 3, 0.0), vec![0.0, 0.0, 0.0]);
    assert_eq!(failure_vertices::<f32>(&[], 0, 0.0), Vec::<f32>::new());
}
