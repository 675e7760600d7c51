use fswww::codec::BitPack;
use fswww::worker::{delay_ms, drop_outputs, on_signal, AnimationCache, Owners, StopSignal};

fn outs(names: &[&str]) -> Vec<String> {
    names.iter().map(|s| s.to_string()).collect()
}

#[test]
fn partial_preemption_keeps_the_rest() {
    let mut o = outs(&["A", "B", "C"]);
    let exit = on_signal(&mut o, StopSignal::Drop(outs(&["B"])));
    assert!(!exit);
    assert_eq!(o, outs(&["A", "C"]));
}

#[test]
fn total_preemption_exits_before_next_frame() {
    let mut o = outs(&["HDMI-1"]);
    assert!(!on_signal(&mut o, StopSignal::Quiet));
    assert!(on_signal(&mut o, StopSignal::Drop(outs(&["HDMI-1"]))));
    assert!(o.is_empty());
}

#[test]
fn empty_drop_set_is_shutdown() {
    let mut o = outs(&["A", "B"]);
    assert!(drop_outputs(&mut o, &Vec::new()));
    assert_eq!(o, outs(&["A", "B"]));
    assert!(on_signal(&mut o, StopSignal::Disconnected));
}

#[test]
fn delays_use_integer_division() {
    assert_eq!(delay_ms(100, 1), 100);
    assert_eq!(delay_ms(1001, 10), 100);
    assert_eq!(delay_ms(0, 3), 0);
}

#[test]
fn single_frame_animation_does_not_loop() {
    let f0 = vec![1u8, 2, 3, 255];
    let mut cache = AnimationCache::new();
    cache.push(BitPack::pack(&f0, &f0), 100);
    assert!(!cache.loops());
    let f1 = vec![4u8, 5, 6, 255];
    cache.push(BitPack::pack(&f0, &f1), 100);
    assert!(cache.loops());
    assert_eq!(cache.len(), 2);
    let (frame, delay) = cache.frame(1, 4);
    assert_eq!(delay, 100);
    let mut screen = f0.clone();
    frame.apply(&mut screen);
    assert_eq!(screen, f1);
}

#[test]
fn each_output_has_one_owner() {
    let mut owners = Owners::new();
    owners.start(outs(&["A", "B", "C"]));
    owners.start(outs(&["D"]));
    owners.start(outs(&["B"]));
    let mut sets = owners.workers.clone();
    sets.sort();
    assert_eq!(sets, vec![outs(&["A", "C"]), outs(&["B"]), outs(&["D"])]);
    owners.start(outs(&["A", "C", "D"]));
    let mut sets = owners.workers.clone();
    sets.sort();
    assert_eq!(sets, vec![outs(&["A", "C", "D"]), outs(&["B"])]);
    owners.stop(&Vec::new());
    assert!(owners.workers.is_empty());
}
