use audio_authoring::format::AudioFormat;

#[test]
fn audio_backend_test_audio_format() {
    let format = AudioFormat {
        channels: 2,
        sample_rate: 44100,
    };
    assert_eq!(format.channels, 2);
    assert_eq!(format.sample_rate, 44100);
}

#[test]
fn lib_test_audio_format() {
    let format = AudioFormat {
        channels: 2,
        sample_rate: 44100,
    };
    assert_eq!(format.channels, 2);
    assert_eq!(format.sample_rate, 44100);
}

#[test]
fn audio_format_new_keeps_fields() {
    let format = AudioFormat::new(6, 48000);
    assert_eq!(format.channels, 6);
    assert_eq!(format.sample_rate, 48000);
    let copy = format;
    assert_eq!(copy.channels, format.channels);
}
