use screech::cycles::{pseudo_cycles, CycleCursor, PseudoCycle};
use screech::types::Sign;

fn signs(v: &[f32]) -> Vec<Sign> {
    v.iter()
        .map(|&s| {
            if s > 0. {
                Sign::Positive
            } else if s < 0. {
                Sign::Negative
            } else {
                Sign::Zero
            }
        })
        .collect()
}

fn bounds(cs: &[PseudoCycle]) -> Vec<(usize, usize)> {
    cs.iter().map(|c| (c.start, c.end)).collect()
}

#[test]
fn alternating_signal_has_two_cycles_of_two() {
    let s = signs(&[1., -1., 1., -1.]);
    assert_eq!(bounds(&pseudo_cycles(&s, 1, 0)), vec![(0, 2), (2, 4)]);
}

#[test]
fn silence_is_one_cycle() {
    let s = signs(&[0., 0., 0., 0., 0.]);
    assert_eq!(bounds(&pseudo_cycles(&s, 1, 0)), vec![(0, 5)]);
}

#[test]
fn empty_channel_has_no_cycle() {
    let s: Vec<Sign> = Vec::new();
    assert!(pseudo_cycles(&s, 1, 0).is_empty());
    assert!(pseudo_cycles(&s, 2, 1).is_empty());
}

#[test]
fn zero_goes_to_the_run_under_way() {
    // 0 after a positive run stays in it; 0 after a negative run stays in that.
    let s = signs(&[0.5, 0., -0.5, 0., 0.5, -0.5, 0.]);
    assert_eq!(bounds(&pseudo_cycles(&s, 1, 0)), vec![(0, 4), (4, 7)]);
}

#[test]
fn buffer_ending_mid_phase_gives_a_short_cycle() {
    let s = signs(&[1., 1., -1., 2.]);
    assert_eq!(bounds(&pseudo_cycles(&s, 1, 0)), vec![(0, 3), (3, 4)]);
}

#[test]
fn leading_negative_run_is_a_cycle() {
    let s = signs(&[-1., -2., 3.]);
    assert_eq!(bounds(&pseudo_cycles(&s, 1, 0)), vec![(0, 2), (2, 3)]);
}

#[test]
fn cycles_partition_every_channel() {
    let data = [0.3, -0.1, -0.2, 0.4, 0.0, 0.0, 0.7, -0.9, -0.5, 0.2, 0.1, 0.3, 0.9];
    let s = signs(&data);
    for ch in 0..3 {
        let cs = pseudo_cycles(&s, 3, ch);
        let frames = data.len() / 3;
        assert_eq!(cs[0].start, 0);
        assert_eq!(cs[cs.len() - 1].end, frames);
        for w in cs.windows(2) {
            assert_eq!(w[0].end, w[1].start);
        }
        for c in &cs {
            assert!(c.start < c.end);
            assert_eq!(c.channel, ch);
        }
    }
}

#[test]
fn channels_are_segmented_apart() {
    // left: 1, -1, 1, -1; right: -1, -1, 1, 1
    let s = signs(&[1., -1., -1., -1., 1., 1., -1., 1.]);
    assert_eq!(bounds(&pseudo_cycles(&s, 2, 0)), vec![(0, 2), (2, 4)]);
    assert_eq!(bounds(&pseudo_cycles(&s, 2, 1)), vec![(0, 2), (2, 4)]);
    let s = signs(&[1., -1., 1., -1., 1., -1.]);
    assert_eq!(bounds(&pseudo_cycles(&s, 2, 1)), vec![(0, 3)]);
}

#[test]
fn trailing_partial_frame_is_ignored() {
    let s = signs(&[1., -1., -1., 1., 1.]);
    assert_eq!(bounds(&pseudo_cycles(&s, 2, 0)), vec![(0, 2)]);
    assert_eq!(bounds(&pseudo_cycles(&s, 2, 1)), vec![(0, 1), (1, 2)]);
}

#[test]
fn cursor_walks_forward_and_restarts() {
    let s = signs(&[1., -1., 1., -1.]);
    let mut cursor = CycleCursor::new(&s, 1, 0);
    let first = cursor.next(&s).unwrap();
    assert_eq!((first.start, first.end, first.channel), (0, 2, 0));
    let second = cursor.next(&s).unwrap();
    assert_eq!((second.start, second.end), (2, 4));
    assert!(cursor.next(&s).is_none());
    assert!(cursor.next(&s).is_none());
    cursor.restart();
    assert_eq!(cursor.next(&s), Some(first));
}

#[test]
fn sign_classes() {
    assert!(Sign::Zero.is_non_negative() && Sign::Zero.is_non_positive());
    assert!(Sign::Positive.is_non_negative() && !Sign::Positive.is_non_positive());
    assert!(!Sign::Negative.is_non_negative() && Sign::Negative.is_non_positive());
}
