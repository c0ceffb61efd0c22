use audio_authoring::memory_source::MemorySource;
use audio_authoring::source::SampleSource;
use audio_authoring::loader::{LoadMode, SymphoniaLoader, AUTO_STREAM_THRESHOLD_BYTES};

#[test]
fn resolve_auto_picks_static_below_threshold() {
    let size = AUTO_STREAM_THRESHOLD_BYTES - 1;
    assert!(matches!(SymphoniaLoader::resolve_auto(size), Ok(LoadMode::Static)));
}

#[test]
fn resolve_auto_picks_streaming_at_or_above_threshold() {
    let size = AUTO_STREAM_THRESHOLD_BYTES + 1;
    assert!(matches!(SymphoniaLoader::resolve_auto(size), Ok(LoadMode::Streaming)));
}

#[test]
fn resolve_auto_threshold_edges() {
    assert_eq!(AUTO_STREAM_THRESHOLD_BYTES, 1024 * 1024);
    assert!(matches!(SymphoniaLoader::resolve_auto(0), Ok(LoadMode::Static)));
    assert!(matches!(SymphoniaLoader::resolve_auto(1024 * 1024), Ok(LoadMode::Streaming)));
    assert!(matches!(SymphoniaLoader::resolve_auto(u64::MAX), Ok(LoadMode::Streaming)));
}

#[test]
fn resolve_mode_keeps_explicit_modes() {
    assert_eq!(SymphoniaLoader::resolve_mode(LoadMode::Static, u64::MAX), LoadMode::Static);
    assert_eq!(SymphoniaLoader::resolve_mode(LoadMode::Streaming, 0), LoadMode::Streaming);
}

#[test]
fn resolve_mode_decides_auto_by_size() {
    assert_eq!(SymphoniaLoader::resolve_mode(LoadMode::Auto, 10), LoadMode::Static);
    assert_eq!(SymphoniaLoader::resolve_mode(LoadMode::Auto, 5 * 1024 * 1024), LoadMode::Streaming);
}

#[test]
fn sample_rate_defaults_to_44100() {
    assert_eq!(SymphoniaLoader::get_sample_rate(Some(48000)), 48000);
    assert_eq!(SymphoniaLoader::get_sample_rate(None), 44100);
}

#[test]
fn channels_default_to_mono_and_truncate() {
    assert_eq!(SymphoniaLoader::get_channels(Some(2)), 2);
    assert_eq!(SymphoniaLoader::get_channels(None), 1);
    assert_eq!(SymphoniaLoader::get_channels(Some(65537)), 1);
}

#[test]
fn absorb_read_collects_until_drained() {
    let mut samples: Vec<i32> = vec![9];
    assert!(!SymphoniaLoader::absorb_read(&mut samples, &[1, 2, 3, 4], 2));
    assert_eq!(samples, vec![9, 1, 2]);
    assert!(!SymphoniaLoader::absorb_read(&mut samples, &[5], 1));
    assert!(SymphoniaLoader::absorb_read(&mut samples, &[7, 7], 0));
    assert_eq!(samples, vec![9, 1, 2, 5]);
}

#[test]
fn absorb_read_drains_a_memory_source() {
    let original: Vec<i32> = (0..10).collect();
    let mut source = MemorySource::new(original.clone(), 8000, 1);
    let mut samples = Vec::new();
    let mut chunk = [0i32; 4];
    loop {
        let n = source.read(&mut chunk).unwrap();
        if SymphoniaLoader::absorb_read(&mut samples, &chunk, n) {
            break;
        }
    }
    assert_eq!(samples, original);
}
