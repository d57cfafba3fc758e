use lumino_gpu_synth::buffers::{grown_size, initial_size, voice_output_fits, zero_fill_writes};

#[test]
fn initial_sizes() {
    assert_eq!(initial_size(0), 16);
    assert_eq!(initial_size(15), 16);
    assert_eq!(initial_size(4096), 4096);
}

#[test]
fn growth_policy() {
    assert_eq!(grown_size(4096, 4096), None);
    assert_eq!(grown_size(4096, 100), None);
    assert_eq!(grown_size(4096, 5000), Some(8192));
    assert_eq!(grown_size(4096, 10_000), Some(10_000));
    assert_eq!(grown_size(16, 17), Some(1024));
}

#[test]
fn zero_fill_pieces() {
    assert_eq!(zero_fill_writes(0), vec![]);
    assert_eq!(zero_fill_writes(16), vec![(0, 16)]);
    assert_eq!(zero_fill_writes(10_000), vec![(0, 4096), (4096, 4096), (8192, 1808)]);
    assert_eq!(zero_fill_writes(8192), vec![(0, 4096), (4096, 4096)]);
}

#[test]
fn voice_output_limit() {
    assert!(voice_output_fits(16_384, 1_024));
    assert!(voice_output_fits(196_608, 1_024));
    assert!(!voice_output_fits(196_609, 1_024));
    assert!(!voice_output_fits(u32::MAX, u32::MAX));
}
