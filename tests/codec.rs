use fswww::codec::{BitPack, ReadiedPack};

fn lcg(seed: &mut u64) -> u8 {
    *seed = seed.wrapping_mul(6364136223846793005).wrapping_add(1442695040888963407);
    (*seed >> 33) as u8
}

fn opaque_random(seed: &mut u64, pixels: usize) -> Vec<u8> {
    let mut v = Vec::new();
    for _ in 0..pixels {
        v.push(lcg(seed));
        v.push(lcg(seed));
        v.push(lcg(seed));
        v.push(255);
    }
    v
}

fn literal_bytes(p: &BitPack) -> usize {
    p.runs.iter().map(|r| r.lits.len()).sum()
}

#[test]
fn round_trip_small() {
    let a = vec![1u8, 2, 3, 255, 4, 5, 6, 255, 7, 8, 9, 255];
    let b = vec![1u8, 2, 3, 255, 40, 50, 60, 255, 7, 8, 9, 255];
    let p = BitPack::pack(&a, &b);
    let mut buf = a.clone();
    p.apply(&mut buf);
    assert_eq!(buf, b);
}

#[test]
fn round_trip_random_pairs() {
    let mut seed = 7u64;
    for pixels in [0usize, 1, 2, 17, 300, 1000] {
        let a = opaque_random(&mut seed, pixels);
        let mut b = a.clone();
        for i in 0..pixels {
            if lcg(&mut seed) % 3 == 0 {
                b[4 * i] = lcg(&mut seed);
                b[4 * i + 2] = lcg(&mut seed);
            }
        }
        let p = ReadiedPack::new(&a, &b);
        assert_eq!(p.len, a.len());
        let mut buf = a.clone();
        p.apply(&mut buf);
        assert_eq!(buf, b);
    }
}

#[test]
fn round_trip_fully_different() {
    let mut seed = 99u64;
    let a = opaque_random(&mut seed, 600);
    let b: Vec<u8> = a.iter().enumerate().map(|(i, x)| if i % 4 == 3 { *x } else { x.wrapping_add(1) }).collect();
    let p = BitPack::pack(&a, &b);
    assert_eq!(literal_bytes(&p), 3 * 600);
    let mut buf = a.clone();
    p.apply(&mut buf);
    assert_eq!(buf, b);
}

#[test]
fn identical_buffers_pack_to_one_skip_run() {
    let mut seed = 3u64;
    let a = opaque_random(&mut seed, 1000);
    let p = BitPack::pack(&a, &a);
    assert_eq!(p.runs.len(), 1);
    assert_eq!(p.runs[0].skip, 1000);
    assert!(p.runs[0].lits.is_empty());
}

#[test]
fn identical_buffers_have_no_literal_payload() {
    let a = vec![9u8; 64];
    let p = BitPack::pack(&a, &a);
    assert_eq!(literal_bytes(&p), 0);
    let empty: Vec<u8> = Vec::new();
    assert!(BitPack::pack(&empty, &empty).runs.is_empty());
}

#[test]
fn runs_split_at_changes() {
    let a = vec![0u8; 16];
    let mut b = a.clone();
    b[4] = 1;
    b[12] = 2;
    let p = BitPack::pack(&a, &b);
    assert_eq!(p.runs.len(), 2);
    assert_eq!(p.runs[0].skip, 1);
    assert_eq!(p.runs[0].lits, vec![1, 0, 0]);
    assert_eq!(p.runs[1].skip, 1);
    assert_eq!(p.runs[1].lits, vec![2, 0, 0]);
}

#[test]
fn alpha_is_not_carried() {
    let a = vec![0u8, 0, 0, 255];
    let b = vec![0u8, 0, 0, 7];
    let p = BitPack::pack(&a, &b);
    let mut buf = a.clone();
    p.apply(&mut buf);
    assert_eq!(buf, a);
}

#[test]
fn deferred_pack_is_readied_with_length() {
    let a = vec![0u8; 8];
    let b = vec![5u8, 6, 7, 0, 0, 0, 0, 0];
    let p = BitPack::pack(&a, &b);
    let r = p.ready(8);
    assert_eq!(r.len, 8);
    let mut buf = a.clone();
    r.apply(&mut buf);
    assert_eq!(buf, b);
}
