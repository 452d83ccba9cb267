use screech::command::{command_named, Command};
use screech::history::{history_capacity, CircularHistory, DelayLine};
use screech::cycles::pseudo_cycles;
use screech::pseudo_cycle::{cycle_peak, fractal_sources, reverse_pseudo_cycles};
use screech::types::{AudioBuffer, AudioMetadata, Sign};

fn signs(v: &[f32]) -> Vec<Sign> {
    v.iter()
        .map(|&s| {
            if s > 0. {
                Sign::Positive
            } else if s < 0. {
                Sign::Negative
            } else {
                Sign::Zero
            }
        })
        .collect()
}

fn buffer(channels: u16, data: Vec<f32>) -> AudioBuffer<f32> {
    AudioBuffer {
        metadata: AudioMetadata {
            channels,
            sample_rate: 44100,
        },
        data,
    }
}

fn reverse(b: AudioBuffer<f32>) -> AudioBuffer<f32> {
    let s = signs(&b.data);
    reverse_pseudo_cycles(b, &s)
}

#[test]
fn reverse_reverses_each_cycle_in_place() {
    let r = reverse(buffer(1, vec![1., -1., 1., -1.]));
    assert_eq!(r.data, vec![-1., 1., -1., 1.]);
    assert_eq!(r.metadata.channels, 1);
    assert_eq!(r.metadata.sample_rate, 44100);
}

#[test]
fn reverse_longer_cycles() {
    let r = reverse(buffer(1, vec![0.1, 0.2, -0.3, 0.4, -0.5, -0.6, 0.7]));
    assert_eq!(r.data, vec![-0.3, 0.2, 0.1, -0.6, -0.5, 0.4, 0.7]);
}

#[test]
fn reverse_keeps_channels_apart() {
    // left: 1, 2, -3 (one cycle); right: -1, 5, -6 (cycles [-1], [5, -6])
    let r = reverse(buffer(2, vec![1., -1., 2., 5., -3., -6., 9.]));
    assert_eq!(r.data, vec![-3., -1., 2., -6., 1., 5., 9.]);
}

#[test]
fn reverse_twice_restores_when_cycles_stay() {
    let original = vec![0.5, 0.25, 0., 0.75, 0.125];
    let once = reverse(buffer(1, original.clone()));
    assert_eq!(once.data, vec![0.125, 0.75, 0., 0.25, 0.5]);
    let twice = reverse(once);
    assert_eq!(twice.data, original);
}

#[test]
fn reverse_twice_can_differ_when_cycles_move() {
    let once = reverse(buffer(1, vec![1., -1., 1., -1.]));
    let twice = reverse(once);
    assert_eq!(twice.data, vec![-1., -1., 1., 1.]);
}

#[test]
fn reverse_empty_buffer() {
    let r = reverse(buffer(2, vec![]));
    assert!(r.data.is_empty());
}

#[test]
fn fractal_depth_one_is_identity_plan() {
    let plan = fractal_sources(5, 1);
    assert_eq!(plan, vec![vec![0], vec![1], vec![2], vec![3], vec![4]]);
}

#[test]
fn fractal_depth_two_plan() {
    let plan = fractal_sources(4, 2);
    assert_eq!(plan, vec![vec![0, 0], vec![1, 2], vec![2, 0], vec![3, 2]]);
}

#[test]
fn fractal_drops_the_remainder_tail() {
    // len 5, depth 2: the half-rate copy is 2 long, laid down twice (offsets 0..4)
    let plan = fractal_sources(5, 2);
    assert_eq!(
        plan,
        vec![vec![0, 0], vec![1, 2], vec![2, 0], vec![3, 2], vec![4]]
    );
    // len 2, depth 3: the third-rate copy is empty
    let plan = fractal_sources(2, 3);
    assert_eq!(plan, vec![vec![0, 0], vec![1, 0]]);
}

#[test]
fn fractal_depth_zero_adds_nothing() {
    assert_eq!(fractal_sources(3, 0), vec![Vec::<usize>::new(); 3]);
    assert!(fractal_sources(0, 4).is_empty());
}

#[test]
fn fractalize_depth_one_reproduces_samples() {
    let data = [0.5f32, -0.25, 0.75, -1.0];
    let plan = fractal_sources(data.len(), 1);
    let out: Vec<f32> = plan
        .iter()
        .map(|srcs| srcs.iter().fold(0.0f32, |acc, &s| acc + data[s] / 1.0))
        .collect();
    assert_eq!(out, data.to_vec());
}

#[test]
fn history_capacity_is_the_smaller_power_shared_out() {
    assert_eq!(history_capacity(1000, 8, 2), Some(128));
    assert_eq!(history_capacity(1000, 12, 2), Some(256));
    assert_eq!(history_capacity(1024, 12, 1), Some(1024));
    assert_eq!(history_capacity(1024, 0, 1), Some(1));
    assert_eq!(history_capacity(12, 200, 3), Some(2));
}

#[test]
fn history_capacity_refuses_empty_histories() {
    assert_eq!(history_capacity(0, 8, 1), None);
    assert_eq!(history_capacity(100, 8, 0), None);
    assert_eq!(history_capacity(3, 10, 4), None);
}

#[test]
fn circular_history_wraps_through_the_mask() {
    let mut h = CircularHistory::new(0.0f32, 4);
    assert_eq!(h.capacity(), 4);
    for v in [1.0, 2.0, 3.0, 4.0, 5.0] {
        h.push(v);
    }
    assert_eq!(h.write, 5);
    assert_eq!(h.at(0), 5.0);
    assert_eq!(h.at(3), 4.0);
    assert_eq!(h.wrapped(6), 3.0);
    h.set(1, 9.0);
    assert_eq!(h.wrapped(5), 9.0);
}

#[test]
fn delay_line_steps_and_wraps() {
    let mut d = DelayLine::new(0i32, 3);
    assert_eq!(d.current(), 0);
    d.store_and_advance(1);
    d.store_and_advance(2);
    d.store_and_advance(3);
    assert_eq!(d.pos, 0);
    assert_eq!(d.current(), 1);
    d.store_and_advance(4);
    assert_eq!(d.cells, vec![4, 2, 3]);
    assert_eq!(d.current(), 2);
}

#[test]
fn file_size_counts_header_and_samples() {
    assert_eq!(buffer(2, vec![0.; 4]).file_size(), 48);
    assert_eq!(buffer(1, vec![]).file_size(), 32);
}

#[test]
fn commands_match_by_prefix_in_order() {
    assert_eq!(command_named("interpolate"), Some(Command::Interpolate));
    assert_eq!(command_named(""), Some(Command::Interpolate));
    assert_eq!(command_named("f"), Some(Command::Fractalize));
    assert_eq!(command_named("fo"), Some(Command::Fold));
    assert_eq!(command_named("tense"), Some(Command::Tense));
    assert_eq!(command_named("tensep"), Some(Command::TensePseudoCycles));
    assert_eq!(command_named("d"), Some(Command::Decimate));
    assert_eq!(command_named("delayr"), Some(Command::DelayRotate));
    assert_eq!(command_named("dc"), Some(Command::Dc));
    assert_eq!(command_named("r"), Some(Command::ReversePseudoCycles));
    assert_eq!(command_named("rem"), Some(Command::RemoveDc));
    assert_eq!(command_named("n"), Some(Command::Normalize));
    assert_eq!(command_named("expandx"), None);
    assert_eq!(command_named("x"), None);
    assert_eq!(command_named("é"), None);
}

#[test]
fn command_names_and_arities() {
    assert_eq!(Command::DelayRotate.name(), "delayrotate");
    assert_eq!(Command::DelayRotate.arity(), 3);
    assert_eq!(Command::DelayPitch.arity(), 2);
    assert_eq!(Command::Gain.arity(), 1);
    assert_eq!(Command::Expand.arity(), 0);
    assert_eq!(Command::Normalize.name(), "normalize");
}

fn keys(v: &[f32]) -> Vec<u32> {
    v.iter().map(|s| s.abs().to_bits()).collect()
}

#[test]
fn peaks_of_alternating_signal() {
    let data = [1., -1., 1., -1.];
    let s = signs(&data);
    let k = keys(&data);
    let peaks: Vec<usize> = pseudo_cycles(&s, 1, 0)
        .into_iter()
        .map(|c| cycle_peak(&k, 1, c))
        .collect();
    assert_eq!(peaks, vec![0, 2]);
    // every cycle already peaks at 1, so dividing by the peak changes nothing
    let expanded: Vec<f32> = data.iter().map(|x| x / data[0].abs()).collect();
    assert_eq!(expanded, vec![1., -1., 1., -1.]);
}

#[test]
fn peak_is_the_largest_magnitude_first_found() {
    // left: 0.2, -0.7, 0.7 | right: 0.1, 0.3, -0.3
    let data = [0.2, 0.1, -0.7, 0.3, 0.7, -0.3];
    let s = signs(&data);
    let k = keys(&data);
    let left = pseudo_cycles(&s, 2, 0);
    assert_eq!(left.len(), 2);
    assert_eq!(cycle_peak(&k, 2, left[0]), 1);
    assert_eq!(cycle_peak(&k, 2, left[1]), 2);
    let right = pseudo_cycles(&s, 2, 1);
    assert_eq!(right.len(), 1);
    assert_eq!(cycle_peak(&k, 2, right[0]), 1);
}

#[test]
fn peak_of_a_silent_cycle_is_its_first_frame() {
    let data = [0., 0., 0.];
    let s = signs(&data);
    let k = keys(&data);
    let c = pseudo_cycles(&s, 1, 0)[0];
    assert_eq!(cycle_peak(&k, 1, c), 0);
    assert!((data[0] / data[0].abs()).is_nan());
}
