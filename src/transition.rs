use vstd::prelude::*;

use crate::codec::{decode, mix, span, ReadiedPack};

verus! {

/// Distance between two channel values.
pub open spec fn dist(a: u8, b: u8) -> int {
    if a > b {
        a - b
    } else {
        b - a
    }
}

/// One fade step of a single channel from `o` towards `n` by `s`.
pub open spec fn channel_step(o: u8, n: u8, s: u8) -> u8 {
    if dist(o, n) < s {
        n
    } else if o > n {
        (o - s) as u8
    } else {
        (o + s) as u8
    }
}

/// The intermediate buffer of one frame: colour channels stepped, alpha opaque.
pub open spec fn step_buf(o: Seq<u8>, n: Seq<u8>, s: u8) -> Seq<u8> {
    Seq::new(o.len(), |k: int| if k % 4 < 3 { channel_step(o[k], n[k], s) } else { 255u8 })
}

/// Every colour channel of `o` lies within one step of `n`: the frame computed
/// from `o` is the last one.
pub open spec fn settled(o: Seq<u8>, n: Seq<u8>, s: u8) -> bool {
    forall|k: int| 0 <= k < o.len() && k % 4 < 3 ==> #[trigger] dist(o[k], n[k]) < s
}

/// The buffer on screen after `j` frames of a fade from `o` to `n`.
pub open spec fn after_steps(o: Seq<u8>, n: Seq<u8>, s: u8, j: nat) -> Seq<u8>
    decreases j,
{
    if j == 0 {
        o
    } else {
        step_buf(after_steps(o, n, s, (j - 1) as nat), n, s)
    }
}

fn channel_next(o: u8, n: u8, s: u8) -> (r: (u8, bool))
    ensures
        r.0 == channel_step(o, n, s),
        r.1 == (dist(o, n) < s),
{
    let d: u8 = if o > n {
        o - n
    } else {
        n - o
    };
    if d < s {
        (n, true)
    } else if o > n {
        (o - s, false)
    } else {
        (o + s, false)
    }
}

/// Computes the next intermediate buffer of a fade and whether it is the last.
pub fn step_frame(old: &[u8], new: &[u8], step: u8) -> (r: (Vec<u8>, bool))
    requires
        old@.len() == new@.len(),
    ensures
        r.0@ == step_buf(old@, new@, step),
        r.1 == settled(old@, new@, step),
{
    let len = old.len();
    let mut out: Vec<u8> = Vec::with_capacity(len);
    let mut done = true;
    let mut k: usize = 0;
    while k < len
        invariant
            len == old@.len(),
            old@.len() == new@.len(),
            k <= len,
            out@.len() == k,
            forall|j: int| 0 <= j < k ==> out@[j] == step_buf(old@, new@, step)[j],
            done == (forall|j: int| 0 <= j < k && j % 4 < 3 ==> #[trigger] dist(old@[j], new@[j]) < step),
        decreases len - k,
    {
        if k % 4 < 3 {
            let (c, snapped) = channel_next(old[k], new[k], step);
            out.push(c);
            done = done && snapped;
        } else {
            out.push(255u8);
        }
        k = k + 1;
    }
    assert(out@ =~= step_buf(old@, new@, step));
    (out, done)
}

/// The state of a fade in progress: what is on screen now, and the step size.
pub struct Transition {
    pub old_img: Vec<u8>,
    pub step: u8,
}

impl Transition {
    /// Starts a fade from `old_img`; a step of zero would never finish and is refused.
    pub fn new(old_img: Vec<u8>, step: u8) -> (r: Option<Transition>)
        ensures
            r is Some <==> step > 0,
            r matches Some(t) ==> t.old_img@ == old_img@ && t.step == step,
    {
        if step == 0 {
            None
        } else {
            Some(Transition { old_img, step })
        }
    }

    /// Computes the next frame towards `new_img`: the pack from the buffer on
    /// screen to the next intermediate one, and whether this frame is the last.
    /// The intermediate buffer becomes the one on screen.
    pub fn next_frame(&mut self, new_img: &[u8]) -> (r: (ReadiedPack, bool))
        requires
            old(self).old_img@.len() == new_img@.len(),
            new_img@.len() % 4 == 0,
        ensures
            final(self).step == old(self).step,
            final(self).old_img@ == step_buf(old(self).old_img@, new_img@, old(self).step),
            r.1 == settled(old(self).old_img@, new_img@, old(self).step),
            r.0.wf(),
            r.0.len == new_img@.len(),
            span(r.0.pack@) == new_img@.len() / 4,
            decode(r.0.pack@, old(self).old_img@) == mix(
                old(self).old_img@,
                final(self).old_img@,
                (new_img@.len() / 4) as nat,
            ),
    {
        let (frame, done) = step_frame(self.old_img.as_slice(), new_img, self.step);
        let pack = ReadiedPack::new(self.old_img.as_slice(), frame.as_slice());
        self.old_img = frame;
        (pack, done)
    }
}

proof fn lemma_after_len(o: Seq<u8>, n: Seq<u8>, s: u8, j: nat)
    ensures
        after_steps(o, n, s, j).len() == o.len(),
    decreases j,
{
    if j > 0 {
        lemma_after_len(o, n, s, (j - 1) as nat);
    }
}

proof fn lemma_distance_shrinks(o: Seq<u8>, n: Seq<u8>, s: u8, j: nat, k: int)
    requires
        s > 0,
        o.len() == n.len(),
        0 <= k < o.len(),
        k % 4 < 3,
    ensures
        after_steps(o, n, s, j).len() == o.len(),
        dist(after_steps(o, n, s, j)[k], n[k]) == 0 || dist(after_steps(o, n, s, j)[k], n[k]) + j
            * s <= dist(o[k], n[k]),
    decreases j,
{
    if j > 0 {
        let jm = (j - 1) as nat;
        lemma_distance_shrinks(o, n, s, jm, k);
        assert(j * s == jm * s + s) by (nonlinear_arith)
            requires
                j == jm + 1,
        ;
    }
}

/// Every colour channel moves no further from its target in one frame.
pub proof fn lemma_step_monotone(o: Seq<u8>, n: Seq<u8>, s: u8)
    requires
        o.len() == n.len(),
    ensures
        forall|k: int|
            0 <= k < o.len() && k % 4 < 3 ==> #[trigger] dist(step_buf(o, n, s)[k], n[k]) <= dist(
                o[k],
                n[k],
            ),
{
}

/// Every frame of a fade has opaque alpha, so it matches a new buffer whose
/// alpha bytes are all opaque.
pub proof fn lemma_step_alpha(o: Seq<u8>, n: Seq<u8>, s: u8)
    requires
        o.len() == n.len(),
        forall|k: int| 0 <= k < n.len() && k % 4 == 3 ==> #[trigger] n[k] == 255,
    ensures
        forall|k: int| 0 <= k < o.len() && k % 4 == 3 ==> #[trigger] step_buf(o, n, s)[k] == n[k],
{
}

/// A fade with step `s > 0` is settled after `255 / s` frames, so the frame
/// that reports the end is at most frame `255 / s + 1`.
pub proof fn lemma_fade_terminates(o: Seq<u8>, n: Seq<u8>, s: u8)
    requires
        s > 0,
        o.len() == n.len(),
    ensures
        settled(after_steps(o, n, s, (255int / (s as int)) as nat), n, s),
{
    let j = (255int / (s as int)) as nat;
    assert(j * s > 255 - s) by (nonlinear_arith)
        requires
            j == 255int / (s as int),
            s > 0,
    ;
    lemma_after_len(o, n, s, j);
    assert forall|k: int| 0 <= k < after_steps(o, n, s, j).len() && k % 4 < 3 implies #[trigger] dist(
        after_steps(o, n, s, j)[k],
        n[k],
    ) < s by {
        lemma_distance_shrinks(o, n, s, j, k);
    }
}

/// With step 1, a fade in which no channel has to travel the full range of 255
/// is settled after 254 frames, so it ends by frame 255.
pub proof fn lemma_unit_step_terminates(o: Seq<u8>, n: Seq<u8>)
    requires
        o.len() == n.len(),
        forall|k: int| 0 <= k < o.len() && k % 4 < 3 ==> #[trigger] dist(o[k], n[k]) < 255,
    ensures
        settled(after_steps(o, n, 1, 254), n, 1),
{
    lemma_after_len(o, n, 1, 254);
    assert forall|k: int| 0 <= k < after_steps(o, n, 1, 254).len() && k % 4 < 3 implies #[trigger] dist(
        after_steps(o, n, 1, 254)[k],
        n[k],
    ) < 1 by {
        lemma_distance_shrinks(o, n, 1, 254, k);
    }
}

} // verus!
