use lumino_gpu_synth::config::{
    check_dimensions, distinct_rates, is_power_of_two, ChannelMode, InterpolationMode,
};
use lumino_gpu_synth::error::ConfigError;

#[test]
fn defaults_are_linear_and_stereo() {
    assert_eq!(InterpolationMode::default(), InterpolationMode::Linear);
    assert_eq!(ChannelMode::default(), ChannelMode::Stereo);
}

#[test]
fn channel_counts() {
    assert_eq!(ChannelMode::Stereo.channel_count(), 2);
    assert_eq!(ChannelMode::Mono.channel_count(), 1);
}

#[test]
fn powers_of_two() {
    assert!(is_power_of_two(1));
    assert!(is_power_of_two(16));
    assert!(is_power_of_two(1024));
    assert!(!is_power_of_two(0));
    assert!(!is_power_of_two(3));
    assert!(!is_power_of_two(1000));
}

#[test]
fn dimension_checks() {
    assert_eq!(check_dimensions(64_000, 8_192, 1_024), Ok(()));
    assert_eq!(check_dimensions(0, 8_192, 1_024), Err(ConfigError::ZeroSampleRate));
    assert_eq!(check_dimensions(64_000, 0, 1_024), Err(ConfigError::MaxVoices(0)));
    assert_eq!(check_dimensions(64_000, 65_537, 1_024), Err(ConfigError::MaxVoices(65_537)));
    assert_eq!(check_dimensions(64_000, 65_536, 16), Ok(()));
    assert_eq!(check_dimensions(64_000, 1, 8), Err(ConfigError::BlockSize(8)));
    assert_eq!(check_dimensions(64_000, 1, 1_000), Err(ConfigError::BlockSize(1_000)));
    // The sample rate is checked first.
    assert_eq!(check_dimensions(0, 0, 0), Err(ConfigError::ZeroSampleRate));
}

#[test]
fn device_rates_are_sorted_and_distinct() {
    assert_eq!(distinct_rates(&vec![48_000, 44_100, 48_000, 96_000, 44_100]), vec![44_100, 48_000, 96_000]);
    assert_eq!(distinct_rates(&vec![]), Vec::<u32>::new());
}
