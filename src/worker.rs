use vstd::prelude::*;

use crate::codec::{runs_wf, span, BitPack};

verus! {

/// The names of a list of outputs.
pub open spec fn names(v: Seq<String>) -> Seq<Seq<char>> {
    v.map_values(|s: String| s@)
}

/// The outputs of `outs` that `to_remove` does not name, in their order.
pub open spec fn kept(outs: Seq<Seq<char>>, to_remove: Seq<Seq<char>>) -> Seq<Seq<char>> {
    outs.filter(|o: Seq<char>| !to_remove.contains(o))
}

/// What a worker finds on its stop channel before it sends a frame.
pub enum StopSignal {
    /// The frame period passed without a message.
    Quiet,
    /// The coordinator asks to drop these outputs; none at all means shut down.
    Drop(Vec<String>),
    /// The coordinator is gone.
    Disconnected,
}

fn named(list: &Vec<String>, o: &String) -> (r: bool)
    ensures
        r == names(list@).contains(o@),
{
    let mut i: usize = 0;
    while i < list.len()
        invariant
            i <= list@.len(),
            forall|j: int| 0 <= j < i ==> list@[j]@ != o@,
        decreases list@.len() - i,
    {
        if list[i] == *o {
            proof {
                assert(names(list@)[i as int] == o@);
            }
            return true;
        }
        i = i + 1;
    }
    proof {
        if names(list@).contains(o@) {
            let j = choose|j: int| 0 <= j < names(list@).len() && names(list@)[j] == o@;
            assert(list@[j]@ == o@);
        }
    }
    false
}

/// Removes from `outputs` every output that `to_remove` names and says whether
/// the worker is to exit: when none is left, or when `to_remove` is empty.
pub fn drop_outputs(outputs: &mut Vec<String>, to_remove: &Vec<String>) -> (exit: bool)
    ensures
        names(final(outputs)@) == kept(names(old(outputs)@), names(to_remove@)),
        exit == (final(outputs)@.len() == 0 || to_remove@.len() == 0),
{
    let ghost orig = outputs@;
    let ghost pred = |o: Seq<char>| !names(to_remove@).contains(o);
    let mut rest: Vec<String> = Vec::new();
    let mut i: usize = 0;
    proof {
        assert(names(orig).take(0) =~= Seq::<Seq<char>>::empty());
        assert(names(rest@) =~= Seq::<Seq<char>>::empty());
    }
    while i < outputs.len()
        invariant
            outputs@ == orig,
            i <= orig.len(),
            names(rest@) == names(orig).take(i as int).filter(pred),
            pred == (|o: Seq<char>| !names(to_remove@).contains(o)),
        decreases orig.len() - i,
    {
        let ghost before = rest@;
        proof {
            let t = names(orig).take(i + 1);
            assert(t.drop_last() =~= names(orig).take(i as int));
            assert(t.last() == orig[i as int]@);
            reveal(Seq::filter);
            assert(t.filter(pred) == (if pred(t.last()) {
                t.drop_last().filter(pred).push(t.last())
            } else {
                t.drop_last().filter(pred)
            }));
        }
        let is_named = named(to_remove, &outputs[i]);
        proof {
            assert(pred(orig[i as int]@) == !is_named);
        }
        if !is_named {
            let o = outputs[i].clone();
            rest.push(o);
            proof {
                assert(names(rest@) =~= names(before).push(orig[i as int]@));
            }
        }
        i = i + 1;
    }
    proof {
        assert(names(orig).take(i as int) =~= names(orig));
    }
    *outputs = rest;
    outputs.len() == 0 || to_remove.len() == 0
}

/// Decides what a worker does with what its stop channel yielded: returns
/// whether it exits before sending the next frame; dropped outputs are removed.
pub fn on_signal(outputs: &mut Vec<String>, signal: StopSignal) -> (exit: bool)
    ensures
        signal is Quiet ==> !exit && final(outputs)@ == old(outputs)@,
        signal is Disconnected ==> exit && final(outputs)@ == old(outputs)@,
        signal matches StopSignal::Drop(d) ==> names(final(outputs)@) == kept(
            names(old(outputs)@),
            names(d@),
        ) && exit == (final(outputs)@.len() == 0 || d@.len() == 0),
{
    match signal {
        StopSignal::Quiet => false,
        StopSignal::Drop(to_remove) => drop_outputs(outputs, &to_remove),
        StopSignal::Disconnected => true,
    }
}

proof fn lemma_kept_member(outs: Seq<Seq<char>>, to_remove: Seq<Seq<char>>, o: Seq<char>)
    requires
        kept(outs, to_remove).contains(o),
    ensures
        outs.contains(o),
        !to_remove.contains(o),
{
    let pred = |x: Seq<char>| !to_remove.contains(x);
    outs.lemma_filter_contains_rev(pred, o);
    let i = choose|i: int| 0 <= i < outs.filter(pred).len() && outs.filter(pred)[i] == o;
    outs.lemma_filter_pred(pred, i);
}

/// The outputs that each live worker draws on.
pub open spec fn owner_sets(ws: Seq<Vec<String>>) -> Seq<Seq<Seq<char>>> {
    ws.map_values(|w: Vec<String>| names(w@))
}

/// No output name belongs to two entries.
pub open spec fn disjoint(ws: Seq<Seq<Seq<char>>>) -> bool {
    forall|i: int, j: int, o: Seq<char>|
        0 <= i < ws.len() && 0 <= j < ws.len() && i != j && #[trigger] ws[i].contains(o)
            ==> !#[trigger] ws[j].contains(o)
}

/// The coordinator's record of which outputs each live worker draws on.
pub struct Owners {
    pub workers: Vec<Vec<String>>,
}

impl Owners {
    /// Every output has at most one worker, and every worker has an output.
    pub open spec fn wf(&self) -> bool {
        &&& disjoint(owner_sets(self.workers@))
        &&& forall|i: int| 0 <= i < self.workers@.len() ==> (#[trigger] self.workers@[i])@.len() > 0
    }

    /// No worker is live.
    pub fn new() -> (r: Owners)
        ensures
            r.wf(),
            r.workers@.len() == 0,
    {
        Owners { workers: Vec::new() }
    }

    /// Sends a drop set to every worker: each one gives up the outputs it names,
    /// and one that is left with none, or that receives an empty set, exits.
    pub fn stop(&mut self, to_stop: &Vec<String>)
        requires
            old(self).wf(),
        ensures
            final(self).wf(),
            to_stop@.len() == 0 ==> final(self).workers@.len() == 0,
            forall|i: int, o: Seq<char>|
                0 <= i < final(self).workers@.len() && #[trigger] owner_sets(
                    final(self).workers@,
                )[i].contains(o) ==> !names(to_stop@).contains(o),
    {
        let mut rest: Vec<Vec<String>> = Vec::new();
        core::mem::swap(&mut self.workers, &mut rest);
        let mut live: Vec<Vec<String>> = Vec::new();
        proof {
            assert(owner_sets(live@) =~= Seq::<Seq<Seq<char>>>::empty());
        }
        while rest.len() > 0
            invariant
                disjoint(owner_sets(rest@)),
                disjoint(owner_sets(live@)),
                forall|i: int, j: int, o: Seq<char>|
                    0 <= i < live@.len() && 0 <= j < rest@.len() && #[trigger] owner_sets(live@)[i].contains(o)
                        ==> !#[trigger] owner_sets(rest@)[j].contains(o),
                forall|i: int, o: Seq<char>|
                    0 <= i < live@.len() && #[trigger] owner_sets(live@)[i].contains(o)
                        ==> !names(to_stop@).contains(o),
                forall|i: int| 0 <= i < live@.len() ==> (#[trigger] live@[i])@.len() > 0,
                to_stop@.len() == 0 ==> live@.len() == 0,
            decreases rest@.len(),
        {
            let ghost before_rest = rest@;
            let ghost before_live = live@;
            let mut w = rest.pop().unwrap();
            let ghost w0 = names(w@);
            proof {
                assert(rest@ =~= before_rest.drop_last());
                assert(owner_sets(rest@) =~= owner_sets(before_rest).drop_last());
                assert(owner_sets(before_rest)[before_rest.len() - 1] == w0);
            }
            let exit = drop_outputs(&mut w, to_stop);
            if !exit {
                live.push(w);
                proof {
                    let ls = owner_sets(live@);
                    assert(ls =~= owner_sets(before_live).push(names(w@)));
                    assert forall|o: Seq<char>| #[trigger] names(w@).contains(o) implies w0.contains(o)
                        && !names(to_stop@).contains(o) by {
                        lemma_kept_member(w0, names(to_stop@), o);
                    }
                    assert forall|i: int, j: int, o: Seq<char>|
                        0 <= i < ls.len() && 0 <= j < ls.len() && i != j && #[trigger] ls[i].contains(o)
                        implies !#[trigger] ls[j].contains(o) by {
                        if i == ls.len() - 1 {
                            assert(w0.contains(o));
                            assert(owner_sets(before_live)[j].contains(o) ==> !owner_sets(before_rest)[before_rest.len() - 1].contains(o));
                        } else if j == ls.len() - 1 {
                            assert(owner_sets(before_live)[i].contains(o));
                            if names(w@).contains(o) {
                                assert(w0.contains(o));
                                assert(owner_sets(before_rest)[before_rest.len() - 1].contains(o));
                            }
                        }
                    }
                    assert forall|i: int, j: int, o: Seq<char>|
                        0 <= i < live@.len() && 0 <= j < rest@.len() && #[trigger] owner_sets(live@)[i].contains(o)
                        implies !#[trigger] owner_sets(rest@)[j].contains(o) by {
                        assert(owner_sets(rest@)[j] == owner_sets(before_rest)[j]);
                        if i == ls.len() - 1 {
                            assert(w0.contains(o));
                            assert(owner_sets(before_rest)[before_rest.len() - 1].contains(o));
                        } else {
                            assert(owner_sets(before_live)[i].contains(o));
                        }
                    }
                    assert forall|i: int, o: Seq<char>|
                        0 <= i < live@.len() && #[trigger] owner_sets(live@)[i].contains(o)
                        implies !names(to_stop@).contains(o) by {
                        if i < ls.len() - 1 {
                            assert(owner_sets(before_live)[i].contains(o));
                        }
                    }
                    assert forall|i: int| 0 <= i < live@.len() implies (#[trigger] live@[i])@.len() > 0 by {
                        if i < ls.len() - 1 {
                            assert(live@[i] == before_live[i]);
                        }
                    }
                }
            }
        }
        self.workers = live;
    }

    /// Records a new worker on `outputs`, after every other worker has been
    /// asked to give them up.
    pub fn start(&mut self, outputs: Vec<String>)
        requires
            old(self).wf(),
            outputs@.len() > 0,
        ensures
            final(self).wf(),
            final(self).workers@.len() > 0,
            names(final(self).workers@.last()@) == names(outputs@),
    {
        self.stop(&outputs);
        let ghost before = self.workers@;
        self.workers.push(outputs);
        proof {
            let ws = owner_sets(self.workers@);
            assert(ws =~= owner_sets(before).push(names(outputs@)));
            assert forall|i: int, j: int, o: Seq<char>|
                0 <= i < ws.len() && 0 <= j < ws.len() && i != j && #[trigger] ws[i].contains(o)
                implies !#[trigger] ws[j].contains(o) by {
                if i == ws.len() - 1 {
                    assert(owner_sets(before)[j].contains(o) ==> !names(outputs@).contains(o));
                } else if j == ws.len() - 1 {
                    assert(owner_sets(before)[i].contains(o));
                }
            }
            assert forall|i: int| 0 <= i < self.workers@.len() implies (#[trigger] self.workers@[i])@.len() > 0 by {
                if i < ws.len() - 1 {
                    assert(self.workers@[i] == before[i]);
                }
            }
        }
    }
}

/// At any moment an output belongs to at most one live worker.
pub proof fn lemma_one_owner(owners: Owners, o: Seq<char>, i: int, j: int)
    requires
        owners.wf(),
        0 <= i < owners.workers@.len(),
        0 <= j < owners.workers@.len(),
        owner_sets(owners.workers@)[i].contains(o),
        owner_sets(owners.workers@)[j].contains(o),
    ensures
        i == j,
{
}

/// A frame delay in whole milliseconds from a ratio of milliseconds.
pub fn delay_ms(numer: u32, denom: u32) -> (r: u64)
    requires
        denom > 0,
    ensures
        r == numer / denom,
{
    (numer / denom) as u64
}

/// The packed frames of an animation and their delays, in play order.
pub struct AnimationCache {
    pub frames: Vec<BitPack>,
    pub delays: Vec<u64>,
}

impl AnimationCache {
    /// Frames and delays pair up, and every frame fits buffers of `len` bytes.
    pub open spec fn wf(&self, len: nat) -> bool {
        &&& self.frames@.len() == self.delays@.len()
        &&& forall|i: int|
            0 <= i < self.frames@.len() ==> runs_wf((#[trigger] self.frames@[i])@) && 4 * span(
                self.frames@[i]@,
            ) <= len
    }

    /// A cache with no frames yet.
    pub fn new() -> (r: AnimationCache)
        ensures
            r.frames@.len() == 0,
            forall|len: nat| r.wf(len),
    {
        AnimationCache { frames: Vec::new(), delays: Vec::new() }
    }

    /// Appends a frame at the end of the play order.
    pub fn push(&mut self, frame: BitPack, delay: u64)
        requires
            old(self).frames@.len() == old(self).delays@.len(),
        ensures
            final(self).frames@ == old(self).frames@.push(frame),
            final(self).delays@ == old(self).delays@.push(delay),
    {
        self.frames.push(frame);
        self.delays.push(delay);
    }

    /// Number of cached frames.
    pub fn len(&self) -> (r: usize)
        ensures
            r == self.frames@.len(),
    {
        self.frames.len()
    }

    /// Whether the animation is replayed after its first pass: only one with
    /// more than one frame is; a single frame has nothing to loop over.
    pub fn loops(&self) -> (r: bool)
        ensures
            r == (self.frames@.len() > 1),
    {
        self.frames.len() > 1
    }

    /// The `i`-th frame, ready for a buffer of `len` bytes, and its delay.
    pub fn frame(&self, i: usize, len: usize) -> (r: (crate::codec::ReadiedPack, u64))
        requires
            self.wf(len as nat),
            i < self.frames@.len(),
        ensures
            r.0.pack@ == self.frames@[i as int]@,
            r.0.len == len,
            r.0.wf(),
            r.1 == self.delays@[i as int],
    {
        (self.frames[i].ready(len), self.delays[i])
    }
}

} // verus!
