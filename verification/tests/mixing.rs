use audio_authoring::mixing::{add_chunk, add_scaled_chunk, delivered_count};

#[test]
fn delivered_count_treats_errors_as_nothing() {
    assert_eq!(delivered_count(&Ok(5)), 5);
    assert_eq!(delivered_count(&Ok(0)), 0);
    let failed: Result<usize, symphonia::core::errors::Error> =
        Err(symphonia::core::errors::Error::DecodeError("bad packet"));
    assert_eq!(delivered_count(&failed), 0);
}

#[test]
fn add_chunk_adds_only_the_delivered_prefix() {
    let mut buffer = [1, 2, 3, 4];
    add_chunk(&mut buffer, &[10, 20, 30, 40], 2);
    assert_eq!(buffer, [11, 22, 3, 4]);
    add_chunk(&mut buffer, &[5, 5, 5, 5], 0);
    assert_eq!(buffer, [11, 22, 3, 4]);
}

#[test]
fn add_scaled_chunk_applies_gain() {
    let mut buffer = [1.0f32, 1.0, 1.0];
    add_scaled_chunk(&mut buffer, &[2.0, 4.0, 8.0], 3, 0.5);
    assert_eq!(buffer, [2.0, 3.0, 5.0]);
    let mut ints = [0i64, 0, 0];
    add_scaled_chunk(&mut ints, &[3, -3, 9], 2, -2);
    assert_eq!(ints, [-6, 6, 0]);
}
