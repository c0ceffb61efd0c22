use std::io;
use std::sync::atomic::Ordering;

use audio_authoring::audio_renderer::AudioRenderer;
use audio_authoring::source::SampleSource;

struct MockSource {
    samples: Vec<f32>,
    pos: usize,
    fail: bool,
}

impl MockSource {
    fn new(samples: Vec<f32>) -> Self {
        Self {
            samples,
            pos: 0,
            fail: false,
        }
    }

    fn failing() -> Self {
        Self {
            samples: Vec::new(),
            pos: 0,
            fail: true,
        }
    }
}

impl SampleSource<f32> for MockSource {
    fn sample_rate(&self) -> u32 {
        44100
    }

    fn channels(&self) -> u16 {
        2
    }

    fn read(&mut self, out: &mut [f32]) -> Result<usize, symphonia::core::errors::Error> {
        if self.fail {
            return Err(io::Error::other("decode failed").into());
        }

        let remaining = self.samples.len() - self.pos;
        let n = remaining.min(out.len());

        out[..n].copy_from_slice(&self.samples[self.pos..self.pos + n]);
        self.pos += n;

        Ok(n)
    }
}

#[test]
fn render_single_source() {
    let mut renderer = AudioRenderer::new();

    let mut buffer = [0.0; 4];

    let mut sources: Vec<Box<dyn SampleSource<f32>>> = vec![
        Box::new(MockSource::new(vec![1.0, 2.0, 3.0, 4.0])),
    ];

    renderer.render(&mut buffer, &mut sources);

    assert_eq!(buffer, [1.0, 2.0, 3.0, 4.0]);
    assert_eq!(sources.len(), 1);
    assert!(!renderer.finished().load(Ordering::Relaxed));
}

#[test]
fn render_mixes_multiple_sources() {
    let mut renderer = AudioRenderer::new();

    let mut buffer = [0.0; 4];

    let mut sources: Vec<Box<dyn SampleSource<f32>>> = vec![
        Box::new(MockSource::new(vec![1.0, 2.0, 3.0, 4.0])),
        Box::new(MockSource::new(vec![0.5, 1.0, -1.0, 2.0])),
    ];

    renderer.render(&mut buffer, &mut sources);

    assert_eq!(buffer, [1.5, 3.0, 2.0, 6.0]);
}

#[test]
fn removes_finished_sources() {
    let mut renderer = AudioRenderer::new();

    let mut buffer = [0.0; 4];

    let mut sources: Vec<Box<dyn SampleSource<f32>>> =
        vec![Box::new(MockSource::new(vec![]))];

    renderer.render(&mut buffer, &mut sources);

    assert!(sources.is_empty());
    assert!(renderer.finished().load(Ordering::Relaxed));
}

#[test]
fn removes_failed_sources() {
    let mut renderer = AudioRenderer::new();

    let mut buffer = [0.0; 4];

    let mut sources: Vec<Box<dyn SampleSource<f32>>> =
        vec![Box::new(MockSource::failing())];

    renderer.render(&mut buffer, &mut sources);

    assert!(sources.is_empty());
    assert!(renderer.finished().load(Ordering::Relaxed));
}

#[test]
fn renderer_can_render_different_buffer_sizes() {
    let mut renderer = AudioRenderer::new();

    let mut sources: Vec<Box<dyn SampleSource<f32>>> = vec![
        Box::new(MockSource::new((0..16).map(|x| x as f32).collect())),
    ];

    let mut small = [0.0; 4];
    renderer.render(&mut small, &mut sources);

    assert_eq!(small, [0.0, 1.0, 2.0, 3.0]);

    let mut large = [0.0; 8];
    renderer.render(&mut large, &mut sources);

    assert_eq!(large, [4.0, 5.0, 6.0, 7.0, 8.0, 9.0, 10.0, 11.0]);
}

#[test]
fn renderer_keeps_survivors_in_order_and_clears_buffer() {
    let mut renderer = AudioRenderer::new();
    let flag = renderer.finished();
    let mut buffer = [9.0f32; 3];
    let mut sources: Vec<Box<dyn SampleSource<f32>>> = vec![
        Box::new(MockSource::new(vec![1.0])),
        Box::new(MockSource::failing()),
        Box::new(MockSource::new(vec![])),
        Box::new(MockSource::new(vec![10.0, 20.0, 30.0, 40.0])),
    ];
    renderer.render(&mut buffer, &mut sources);
    assert_eq!(buffer, [11.0, 20.0, 30.0]);
    assert_eq!(sources.len(), 2);

    renderer.render(&mut buffer, &mut sources);
    assert_eq!(buffer, [40.0, 0.0, 0.0]);
    assert_eq!(sources.len(), 1);
    assert!(!flag.load(Ordering::Relaxed));

    renderer.render(&mut buffer, &mut sources);
    assert_eq!(buffer, [0.0, 0.0, 0.0]);
    assert!(sources.is_empty());
    assert!(flag.load(Ordering::Relaxed), "a handle taken earlier sees the flag raised");
}

#[test]
fn renderer_with_no_sources_outputs_silence() {
    let mut renderer = AudioRenderer::new();
    let mut buffer = [5i32, 6, 7];
    let mut sources: Vec<Box<dyn SampleSource<i32>>> = Vec::new();
    renderer.render(&mut buffer, &mut sources);
    assert_eq!(buffer, [0, 0, 0]);
    assert!(renderer.finished().load(Ordering::Relaxed));
}
