use fswww::transition::{step_frame, Transition};

fn run_to_end(old: Vec<u8>, new: &[u8], step: u8) -> (Vec<Vec<u8>>, usize) {
    let mut t = Transition::new(old, step).unwrap();
    let mut screen = t.old_img.clone();
    let mut shown = Vec::new();
    let mut frames = 0;
    loop {
        let (pack, done) = t.next_frame(new);
        pack.apply(&mut screen);
        frames += 1;
        for k in 0..screen.len() {
            if k % 4 < 3 {
                assert_eq!(screen[k], t.old_img[k]);
            }
        }
        shown.push(t.old_img.clone());
        if done {
            return (shown, frames);
        }
        assert!(frames < 1000);
    }
}

#[test]
fn zero_step_is_refused() {
    assert!(Transition::new(vec![0; 4], 0).is_none());
    assert!(Transition::new(vec![0; 4], 1).is_some());
}

#[test]
fn single_output_still_image() {
    let old = vec![0u8; 16];
    let new: Vec<u8> = [30u8, 20, 10, 255].repeat(4);
    let (shown, frames) = run_to_end(old, &new, 5);
    assert_eq!(shown.last().unwrap(), &new);
    assert_eq!(shown[0], [5u8, 5, 5, 255].repeat(4));
    // the sixth frame puts the target on screen; the one after it changes
    // nothing and reports the end
    assert_eq!(shown[5], new);
    assert_eq!(frames, 7);
}

#[test]
fn frame_count_within_bound() {
    for step in [1u8, 2, 5, 7, 100, 255] {
        let old = vec![0u8, 255, 128, 255];
        let new = vec![255u8, 0, 3, 255];
        let (shown, frames) = run_to_end(old, &new, step);
        let bound = (255 + step as usize - 1) / step as usize + 1;
        assert!(frames <= bound, "step {} took {} frames", step, frames);
        assert_eq!(shown.last().unwrap(), &new);
    }
}

#[test]
fn unit_step_ends_within_255_frames() {
    let old = vec![0u8, 10, 200, 255];
    let new = vec![254u8, 0, 0, 255];
    let (_, frames) = run_to_end(old, &new, 1);
    assert!(frames <= 255);
}

#[test]
fn distance_never_grows() {
    let old = vec![0u8, 250, 100, 255, 9, 9, 9, 255];
    let new = vec![200u8, 3, 100, 255, 0, 255, 18, 255];
    let mut prev = old.clone();
    let (shown, _) = run_to_end(old, &new, 7);
    for t in shown {
        for k in 0..t.len() {
            if k % 4 < 3 {
                assert!(t[k].abs_diff(new[k]) <= prev[k].abs_diff(new[k]));
            }
        }
        prev = t;
    }
}

#[test]
fn frames_keep_opaque_alpha() {
    let old = vec![1u8, 2, 3, 0, 4, 5, 6, 17];
    let new = vec![100u8, 0, 30, 255, 4, 5, 60, 255];
    let (frame, _) = step_frame(&old, &new, 10);
    assert_eq!(frame[3], new[3]);
    assert_eq!(frame[7], new[7]);
}

#[test]
fn step_snaps_close_channels() {
    let (frame, done) = step_frame(&[10, 10, 10, 255], &[12, 30, 0, 255], 5);
    assert_eq!(frame, vec![12, 15, 5, 255]);
    assert!(!done);
    let (frame, done) = step_frame(&[10, 10, 10, 255], &[12, 8, 14, 255], 5);
    assert_eq!(frame, vec![12, 8, 14, 255]);
    assert!(done);
}
