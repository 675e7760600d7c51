use vstd::prelude::*;

verus! {

/// One segment of a packed delta: `skip` pixels left as they are, then the
/// colour triples of `lits.len() / 3` pixels written literally.
pub struct Run {
    pub skip: usize,
    pub lits: Vec<u8>,
}

/// A delta between two equal-length pixel buffers, without its target length.
pub struct BitPack {
    pub runs: Vec<Run>,
}

/// A delta that carries the byte length of the buffer it applies to.
pub struct ReadiedPack {
    pub pack: BitPack,
    pub len: usize,
}

/// The mathematical form of a run: pixels skipped and literal colour bytes.
pub open spec fn run_view(r: Run) -> (nat, Seq<u8>) {
    (r.skip as nat, r.lits@)
}

impl View for BitPack {
    type V = Seq<(nat, Seq<u8>)>;

    open spec fn view(&self) -> Seq<(nat, Seq<u8>)> {
        self.runs@.map_values(|r: Run| run_view(r))
    }
}

/// Every run holds whole colour triples.
pub open spec fn runs_wf(runs: Seq<(nat, Seq<u8>)>) -> bool {
    forall|k: int| 0 <= k < runs.len() ==> (#[trigger] runs[k]).1.len() % 3 == 0
}

/// Number of pixels that a sequence of runs covers.
pub open spec fn span(runs: Seq<(nat, Seq<u8>)>) -> nat
    decreases runs.len(),
{
    if runs.len() == 0 {
        0
    } else {
        span(runs.drop_last()) + runs.last().0 + runs.last().1.len() / 3
    }
}

/// `buf` with the colour bytes of the `cnt` pixels from pixel `start` on taken
/// from `lits`; alpha bytes and all other pixels unchanged.
pub open spec fn put_pixels(buf: Seq<u8>, start: nat, lits: Seq<u8>, cnt: nat) -> Seq<u8> {
    Seq::new(
        buf.len(),
        |k: int|
            if start <= k / 4 < start + cnt && k % 4 < 3 {
                lits[3 * (k / 4 - start) + k % 4]
            } else {
                buf[k]
            },
    )
}

/// The effect of one run that starts at pixel `at`.
pub open spec fn apply_run(buf: Seq<u8>, at: nat, r: (nat, Seq<u8>)) -> Seq<u8> {
    put_pixels(buf, at + r.0, r.1, r.1.len() / 3)
}

/// The buffer that results from applying `runs`, in order, to `buf`.
pub open spec fn decode(runs: Seq<(nat, Seq<u8>)>, buf: Seq<u8>) -> Seq<u8>
    decreases runs.len(),
{
    if runs.len() == 0 {
        buf
    } else {
        apply_run(decode(runs.drop_last(), buf), span(runs.drop_last()), runs.last())
    }
}

/// Colour bytes of the first `i` pixels from `b`, everything else from `a`.
pub open spec fn mix(a: Seq<u8>, b: Seq<u8>, i: nat) -> Seq<u8> {
    Seq::new(a.len(), |k: int| if k / 4 < i && k % 4 < 3 { b[k] } else { a[k] })
}

/// Pixel `p` has the same colour triple in `a` and `b`.
pub open spec fn same_colour(a: Seq<u8>, b: Seq<u8>, p: int) -> bool {
    a[4 * p] == b[4 * p] && a[4 * p + 1] == b[4 * p + 1] && a[4 * p + 2] == b[4 * p + 2]
}

/// Every pixel of `a` and `b` has the same alpha byte.
pub open spec fn same_alpha(a: Seq<u8>, b: Seq<u8>) -> bool {
    forall|p: int| 0 <= p < a.len() / 4 ==> #[trigger] a[4 * p + 3] == b[4 * p + 3]
}

proof fn lemma_pixel_in_bounds(len: int, p: int)
    requires
        0 <= p < len / 4,
        len >= 0,
    ensures
        4 * p + 3 < len,
{
}

fn colour_eq(a: &[u8], b: &[u8], p: usize) -> (r: bool)
    requires
        a@.len() == b@.len(),
        a@.len() % 4 == 0,
        p < a@.len() / 4,
    ensures
        r == same_colour(a@, b@, p as int),
{
    proof {
        lemma_pixel_in_bounds(a@.len() as int, p as int);
        assert(a@.len() == a.len());
    }
    a[4 * p] == b[4 * p] && a[4 * p + 1] == b[4 * p + 1] && a[4 * p + 2] == b[4 * p + 2]
}

proof fn lemma_run_extends(
    a: Seq<u8>,
    b: Seq<u8>,
    start: nat,
    skip: nat,
    lits: Seq<u8>,
    end: nat,
)
    requires
        a.len() == b.len(),
        a.len() % 4 == 0,
        end <= a.len() / 4,
        start + skip + lits.len() / 3 == end,
        lits.len() % 3 == 0,
        forall|p: int| start <= p < start + skip ==> same_colour(a, b, p),
        forall|q: int, c: int|
            0 <= q < lits.len() / 3 && 0 <= c < 3 ==> #[trigger] lits[3 * q + c] == b[4 * (
            start + skip + q) + c],
    ensures
        apply_run(mix(a, b, start), start, (skip, lits)) == mix(a, b, end),
{
    let lhs = apply_run(mix(a, b, start), start, (skip, lits));
    let rhs = mix(a, b, end);
    assert forall|k: int| 0 <= k < a.len() implies lhs[k] == rhs[k] by {
        let p = k / 4;
        let c = k % 4;
        assert(k == 4 * p + c);
        if start + skip <= p < end && c < 3 {
            assert(lits[3 * (p - (start + skip)) + c] == b[4 * (start + skip + (p - (start
                + skip))) + c]);
        } else if start <= p < start + skip && c < 3 {
            assert(same_colour(a, b, p));
        }
    }
    assert(lhs =~= rhs);
}

impl BitPack {
    /// Encodes the difference between `a` and `b` as runs of unchanged pixels and
    /// literal colour triples. Alpha bytes are not carried.
    pub fn pack(a: &[u8], b: &[u8]) -> (r: BitPack)
        requires
            a@.len() == b@.len(),
            a@.len() % 4 == 0,
        ensures
            runs_wf(r@),
            span(r@) == a@.len() / 4,
            decode(r@, a@) == mix(a@, b@, (a@.len() / 4) as nat),
            forall|k: int| 0 <= k < r@.len() ==> (#[trigger] r@[k]).0 > 0 || r@[k].1.len() > 0,
            a@.len() == 0 ==> r@.len() == 0,
            a@ == b@ && a@.len() > 0 ==> r@ == seq![((a@.len() / 4) as nat, Seq::<u8>::empty())],
            a@ == b@ ==> forall|k: int| 0 <= k < r@.len() ==> (#[trigger] r@[k]).1.len() == 0,
    {
        let n: usize = a.len() / 4;
        let mut i: usize = 0;
        let mut runs: Vec<Run> = Vec::new();
        proof {
            assert(decode(Seq::<(nat, Seq<u8>)>::empty(), a@) =~= mix(a@, b@, 0));
            assert(runs@.map_values(|r: Run| run_view(r)) =~= Seq::<(nat, Seq<u8>)>::empty());
        }
        while i < n
            invariant
                n == a@.len() / 4,
                a@.len() == b@.len(),
                a@.len() % 4 == 0,
                i <= n,
                runs_wf(runs@.map_values(|r: Run| run_view(r))),
                span(runs@.map_values(|r: Run| run_view(r))) == i,
                decode(runs@.map_values(|r: Run| run_view(r)), a@) == mix(a@, b@, i as nat),
                forall|k: int|
                    0 <= k < runs@.len() ==> (#[trigger] runs@[k]).skip > 0 || runs@[k].lits@.len()
                        > 0,
                i == 0 ==> runs@.len() == 0,
                a@ == b@ ==> (i == 0 || (i == n && runs@.len() == 1 && runs@[0].skip == n
                    && runs@[0].lits@.len() == 0)),
            decreases n - i,
        {
            let start = i;
            let mut skip: usize = 0;
            while i < n && colour_eq(a, b, i)
                invariant
                    n == a@.len() / 4,
                    a@.len() == b@.len(),
                    a@.len() % 4 == 0,
                    start <= i <= n,
                    skip == i - start,
                    forall|p: int| start <= p < i ==> same_colour(a@, b@, p),
                decreases n - i,
            {
                i = i + 1;
                skip = skip + 1;
            }
            proof {
                if a@ == b@ && i < n {
                    assert(same_colour(a@, b@, i as int));
                }
            }
            let lit_start = i;
            let mut lits: Vec<u8> = Vec::new();
            while i < n && !colour_eq(a, b, i)
                invariant
                    n == a@.len() / 4,
                    a@.len() == b@.len(),
                    a@.len() % 4 == 0,
                    lit_start <= i <= n,
                    i == lit_start ==> (i >= n || !same_colour(a@, b@, i as int)),
                    lits@.len() == 3 * (i - lit_start),
                    forall|q: int, c: int|
                        0 <= q < i - lit_start && 0 <= c < 3 ==> #[trigger] lits@[3 * q + c] == b@[4
                            * (lit_start + q) + c],
                decreases n - i,
            {
                proof {
                    lemma_pixel_in_bounds(a@.len() as int, i as int);
                    assert(b@.len() == b.len());
                }
                lits.push(b[4 * i]);
                lits.push(b[4 * i + 1]);
                lits.push(b[4 * i + 2]);
                i = i + 1;
            }
            proof {
                lemma_run_extends(a@, b@, start as nat, skip as nat, lits@, i as nat);
            }
            let ghost prev = runs@;
            runs.push(Run { skip, lits });
            proof {
                let v = runs@.map_values(|r: Run| run_view(r));
                let pv = prev.map_values(|r: Run| run_view(r));
                assert(v.drop_last() =~= pv);
                assert forall|k: int| 0 <= k < v.len() implies (#[trigger] v[k]).1.len() % 3 == 0 by {
                    if k < pv.len() {
                        assert(v[k] == pv[k]);
                    }
                }
            }
        }
        let r = BitPack { runs };
        proof {
            if a@ == b@ && n > 0 {
                assert(r.runs@[0].lits@ =~= Seq::<u8>::empty());
                assert(r@[0] == run_view(r.runs@[0]));
                assert(r@ =~= seq![((a@.len() / 4) as nat, Seq::<u8>::empty())]);
            }
        }
        r
    }
}

proof fn lemma_span_prefix(runs: Seq<(nat, Seq<u8>)>, k: int)
    requires
        0 <= k <= runs.len(),
    ensures
        span(runs.take(k)) <= span(runs),
    decreases runs.len(),
{
    if k < runs.len() {
        lemma_span_prefix(runs.drop_last(), k);
        assert(runs.drop_last().take(k) =~= runs.take(k));
    } else {
        assert(runs.take(k) =~= runs);
    }
}

proof fn lemma_put_one_more(buf: Seq<u8>, cur: Seq<u8>, start: int, lits: Seq<u8>, q: int)
    requires
        0 <= start,
        0 <= q,
        cur == put_pixels(buf, start as nat, lits, q as nat),
        4 * (start + q) + 3 < buf.len(),
        3 * q + 2 < lits.len(),
    ensures
        cur.update(4 * (start + q), lits[3 * q]).update(4 * (start + q) + 1, lits[3 * q + 1]).update(
            4 * (start + q) + 2,
            lits[3 * q + 2],
        ) == put_pixels(buf, start as nat, lits, (q + 1) as nat),
{
    let lhs = cur.update(4 * (start + q), lits[3 * q]).update(
        4 * (start + q) + 1,
        lits[3 * q + 1],
    ).update(4 * (start + q) + 2, lits[3 * q + 2]);
    let rhs = put_pixels(buf, start as nat, lits, (q + 1) as nat);
    assert forall|k: int| 0 <= k < buf.len() implies lhs[k] == rhs[k] by {
        let p = k / 4;
        let c = k % 4;
        assert(k == 4 * p + c);
    }
    assert(lhs =~= rhs);
}

impl BitPack {
    /// Writes the pack's literal pixels into `buf`, leaving every other byte as it is.
    pub fn apply(&self, buf: &mut Vec<u8>)
        requires
            runs_wf(self@),
            4 * span(self@) <= old(buf)@.len(),
        ensures
            final(buf)@ == decode(self@, old(buf)@),
    {
        let ghost orig = buf@;
        let total = buf.len();
        let mut pos: usize = 0;
        let mut k: usize = 0;
        proof {
            assert(self@.take(0) =~= Seq::<(nat, Seq<u8>)>::empty());
        }
        while k < self.runs.len()
            invariant
                runs_wf(self@),
                4 * span(self@) <= orig.len(),
                buf@.len() == orig.len(),
                orig.len() == total,
                0 <= k <= self.runs@.len(),
                self@.len() == self.runs@.len(),
                pos == span(self@.take(k as int)),
                buf@ == decode(self@.take(k as int), orig),
            decreases self.runs@.len() - k,
        {
            let run = &self.runs[k];
            proof {
                lemma_span_prefix(self@, k + 1);
                assert(self@.take(k + 1).drop_last() =~= self@.take(k as int));
                assert(self@[k as int] == run_view(*run));
                assert(self@[k as int].1.len() % 3 == 0);
                assert(self@.take(k + 1).last() == self@[k as int]);
                assert(span(self@.take(k + 1)) == pos + run.skip + run.lits@.len() / 3);
            }
            let start = pos + run.skip;
            let m = run.lits.len() / 3;
            let ghost base = buf@;
            let mut q: usize = 0;
            proof {
                assert(put_pixels(base, start as nat, run.lits@, 0) =~= base);
            }
            while q < m
                invariant
                    buf@.len() == orig.len(),
                    orig.len() == total,
                    4 * (start + m) <= orig.len(),
                    m == run.lits@.len() / 3,
                    run.lits@.len() % 3 == 0,
                    q <= m,
                    buf@ == put_pixels(base, start as nat, run.lits@, q as nat),
                    base.len() == orig.len(),
                decreases m - q,
            {
                proof {
                    lemma_put_one_more(base, buf@, start as int, run.lits@, q as int);
                }
                let at = 4 * (start + q);
                buf.set(at, run.lits[3 * q]);
                buf.set(at + 1, run.lits[3 * q + 1]);
                buf.set(at + 2, run.lits[3 * q + 2]);
                q = q + 1;
            }
            pos = start + m;
            k = k + 1;
        }
        proof {
            assert(self@.take(k as int) =~= self@);
        }
    }

    /// Attaches the byte length of the buffer that the pack applies to.
    pub fn ready(&self, len: usize) -> (r: ReadiedPack)
        requires
            runs_wf(self@),
            4 * span(self@) <= len,
        ensures
            r.pack@ == self@,
            r.len == len,
            r.wf(),
    {
        let mut runs: Vec<Run> = Vec::new();
        let mut k: usize = 0;
        while k < self.runs.len()
            invariant
                k <= self.runs@.len(),
                runs@.len() == k,
                forall|j: int| 0 <= j < k ==> run_view(#[trigger] runs@[j]) == run_view(
                    self.runs@[j],
                ),
            decreases self.runs@.len() - k,
        {
            let run = &self.runs[k];
            let lits = run.lits.clone();
            assert(lits@ =~= run.lits@);
            runs.push(Run { skip: run.skip, lits });
            k = k + 1;
        }
        let pack = BitPack { runs };
        assert(pack@ =~= self@);
        ReadiedPack { pack, len }
    }
}

impl ReadiedPack {
    /// The pack fits the buffer length that it carries.
    pub open spec fn wf(&self) -> bool {
        runs_wf(self.pack@) && 4 * span(self.pack@) <= self.len
    }

    /// Packs the difference between `old` and `new` together with their length.
    pub fn new(old: &[u8], new: &[u8]) -> (r: ReadiedPack)
        requires
            old@.len() == new@.len(),
            old@.len() % 4 == 0,
        ensures
            r.wf(),
            r.len == old@.len(),
            span(r.pack@) == old@.len() / 4,
            decode(r.pack@, old@) == mix(old@, new@, (old@.len() / 4) as nat),
    {
        let pack = BitPack::pack(old, new);
        ReadiedPack { pack, len: old.len() }
    }

    /// Applies the pack to a buffer of the length it was made for.
    pub fn apply(&self, buf: &mut Vec<u8>)
        requires
            self.wf(),
            old(buf)@.len() == self.len,
        ensures
            final(buf)@ == decode(self.pack@, old(buf)@),
    {
        self.pack.apply(buf);
    }
}

/// Round trip: applying `pack(a, b)` to `a` yields `b` whenever the two buffers
/// have the same length in whole pixels and agree on every alpha byte.
pub proof fn lemma_round_trip(a: Seq<u8>, b: Seq<u8>)
    requires
        a.len() == b.len(),
        a.len() % 4 == 0,
        same_alpha(a, b),
    ensures
        mix(a, b, a.len() / 4) == b,
        forall|runs: Seq<(nat, Seq<u8>)>|
            decode(runs, a) == mix(a, b, a.len() / 4) ==> #[trigger] decode(runs, a) == b,
{
    let m = mix(a, b, a.len() / 4);
    assert forall|k: int| 0 <= k < a.len() implies m[k] == b[k] by {
        let p = k / 4;
        assert(k == 4 * p + k % 4);
        if k % 4 == 3 {
            assert(a[4 * p + 3] == b[4 * p + 3]);
        }
    }
    assert(m =~= b);
}

} // verus!
