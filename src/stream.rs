//! The framing pipeline. A `FrameStream` cuts a sample sequence into
//! consecutive frames of the denoiser's frame size, zero-padding the last one,
//! hands them out strictly in order, takes back each denoised frame, and
//! reassembles the output without the padding. The denoiser itself is driven
//! by the caller: one instance per stream, one frame at a time.
use vstd::prelude::*;
use crate::rate::{
    RATE_FACTOR, ceil_div, decimated, downsample, lemma_ceil_div_bounds, lemma_decimate_by_one,
    lemma_decimate_upsampled, upsample_3x, upsampled,
};

verus! {

/// How many frames of size `fs` cover `n` samples.
pub open spec fn frame_count(n: nat, fs: nat) -> nat {
    ceil_div(n, fs)
}

/// How many input samples the first `k` frames cover.
pub open spec fn covered(n: nat, fs: nat, k: nat) -> nat {
    if fs * k < n {
        fs * k
    } else {
        n
    }
}

/// Frame `k` of `s`: the `fs` samples from `fs * k` on, with `zero` past the end.
pub open spec fn padded_frame<T>(s: Seq<T>, fs: nat, zero: T, k: int) -> Seq<T> {
    Seq::new(fs, |i: int| if fs * k + i < s.len() { s[fs * k + i] } else { zero })
}

/// All frames of `s`, in order.
pub open spec fn frames_of<T>(s: Seq<T>, fs: nat, zero: T) -> Seq<Seq<T>> {
    Seq::new(frame_count(s.len(), fs), |k: int| padded_frame(s, fs, zero, k))
}

/// The output of denoised frames `outs` for an input of `n` samples: of frame
/// `k`, only as many samples as the input supplied to it.
pub open spec fn reassembled<T>(outs: Seq<Seq<T>>, n: nat, fs: nat) -> Seq<T>
    decreases outs.len(),
{
    if outs.len() == 0 {
        Seq::empty()
    } else {
        let k = (outs.len() - 1) as nat;
        reassembled(outs.drop_last(), n, fs) + outs.last().take(
            covered(n, fs, k + 1) - covered(n, fs, k),
        )
    }
}

/// With frames of `fs` samples each, the output holds as many samples as
/// the first `outs.len()` frames cover.
pub proof fn lemma_reassembled_len<T>(outs: Seq<Seq<T>>, n: nat, fs: nat)
    requires
        fs > 0,
        outs.len() <= frame_count(n, fs),
        forall|k: int| 0 <= k < outs.len() ==> #[trigger] outs[k].len() == fs,
    ensures
        reassembled(outs, n, fs).len() == covered(n, fs, outs.len()),
    decreases outs.len(),
{
    if outs.len() > 0 {
        let k = (outs.len() - 1) as nat;
        lemma_reassembled_len(outs.drop_last(), n, fs);
        lemma_ceil_div_bounds(n, fs, k as int);
        assert(fs * (k + 1) == fs * k + fs) by (nonlinear_arith);
    }
}

proof fn lemma_frames_prefix<T>(s: Seq<T>, fs: nat, zero: T, k: nat)
    requires
        fs > 0,
        k <= frame_count(s.len(), fs),
    ensures
        reassembled(frames_of(s, fs, zero).take(k as int), s.len(), fs) == s.take(
            covered(s.len(), fs, k) as int,
        ),
    decreases k,
{
    let n = s.len();
    let frames = frames_of(s, fs, zero);
    if k > 0 {
        let j = (k - 1) as nat;
        lemma_frames_prefix(s, fs, zero, j);
        lemma_ceil_div_bounds(n, fs, j as int);
        assert(fs * (j + 1) == fs * j + fs) by (nonlinear_arith);
        assert(frames.take(k as int).drop_last() =~= frames.take(j as int));
        let lo = covered(n, fs, j);
        let hi = covered(n, fs, k);
        assert(frames.take(k as int).last().take(hi - lo) =~= s.subrange(lo as int, hi as int));
        assert(s.take(lo as int) + s.subrange(lo as int, hi as int) =~= s.take(hi as int));
    } else {
        assert(frames.take(0) =~= Seq::<Seq<T>>::empty());
        assert(s.take(0) =~= Seq::<T>::empty());
    }
}

/// Where the denoiser hands every frame back unchanged, the reassembled
/// output is the input itself: the padding of the last frame never shows.
pub proof fn lemma_identity_frames<T>(s: Seq<T>, fs: nat, zero: T)
    requires
        fs > 0,
    ensures
        reassembled(frames_of(s, fs, zero), s.len(), fs) == s,
        decimated(reassembled(frames_of(s, fs, zero), s.len(), fs), 1) == s,
{
    let frames = frames_of(s, fs, zero);
    let m = frame_count(s.len(), fs);
    lemma_frames_prefix(s, fs, zero, m);
    lemma_ceil_div_bounds(s.len(), fs, m as int);
    assert(frames.take(m as int) =~= frames);
    assert(s.take(s.len() as int) =~= s);
    lemma_decimate_by_one(s);
}

/// Where the denoiser hands every frame back unchanged, a stream at the
/// secondary rate returns its input: upsampling, framing, reassembly and
/// decimation compose to the identity, so the output length equals the
/// input length.
pub proof fn lemma_identity_secondary<T, F: Fn(T, T, usize) -> T>(
    s: Seq<T>,
    up: Seq<T>,
    fs: nat,
    zero: T,
    mix: F,
)
    requires
        fs > 0,
        upsampled(s, up, RATE_FACTOR as nat, mix),
    ensures
        decimated(reassembled(frames_of(up, fs, zero), up.len(), fs), RATE_FACTOR as nat) == s,
{
    lemma_identity_frames(up, fs, zero);
    lemma_decimate_upsampled(s, up, RATE_FACTOR as nat, mix);
}

/// One stream through one frame denoiser.
pub struct FrameStream<T> {
    samples: Vec<T>,
    frame_size: usize,
    zero: T,
    factor: usize,
    consumed: usize,
    output: Vec<T>,
    denoised: Ghost<Seq<Seq<T>>>,
}

impl<T: Copy> FrameStream<T> {
    /// The samples at the native rate that are cut into frames.
    pub closed spec fn input(&self) -> Seq<T> {
        self.samples@
    }

    pub closed spec fn frame_size(&self) -> nat {
        self.frame_size as nat
    }

    /// The sample that pads the last frame.
    pub closed spec fn zero(&self) -> T {
        self.zero
    }

    /// The factor by which the reassembled output is decimated.
    pub closed spec fn rate_factor(&self) -> nat {
        self.factor as nat
    }

    /// The denoised frames handed back so far, in order.
    pub closed spec fn denoised(&self) -> Seq<Seq<T>> {
        self.denoised@
    }

    pub open spec fn frames_done(&self) -> nat {
        self.denoised().len()
    }

    pub open spec fn frames_total(&self) -> nat {
        frame_count(self.input().len(), self.frame_size())
    }

    pub closed spec fn wf(&self) -> bool {
        &&& self.frame_size > 0
        &&& self.factor > 0
        &&& self.denoised@.len() <= frame_count(self.samples@.len(), self.frame_size as nat)
        &&& self.consumed == covered(
            self.samples@.len(),
            self.frame_size as nat,
            self.denoised@.len(),
        )
        &&& forall|k: int|
            0 <= k < self.denoised@.len() ==> #[trigger] self.denoised@[k].len()
                == self.frame_size
        &&& self.output@ == reassembled(self.denoised@, self.samples@.len(), self.frame_size as nat)
    }

    /// A stream over samples at the native rate.
    pub fn native(samples: Vec<T>, frame_size: usize, zero: T) -> (r: Self)
        requires
            frame_size > 0,
        ensures
            r.wf(),
            r.input() == samples@,
            r.frame_size() == frame_size,
            r.zero() == zero,
            r.rate_factor() == 1,
            r.denoised() == Seq::<Seq<T>>::empty(),
    {
        FrameStream {
            samples,
            frame_size,
            zero,
            factor: 1,
            consumed: 0,
            output: Vec::new(),
            denoised: Ghost(Seq::empty()),
        }
    }

    /// A stream over samples at the secondary rate: they are upsampled by
    /// the rate factor on the way in, and the output is decimated by it on
    /// the way out.
    pub fn secondary<F: Fn(T, T, usize) -> T>(
        samples: &[T],
        frame_size: usize,
        zero: T,
        mix: F,
    ) -> (r: Self)
        requires
            frame_size > 0,
            RATE_FACTOR * samples@.len() <= usize::MAX,
            forall|a: T, b: T, k: usize| 1 <= k < RATE_FACTOR ==> call_requires(mix, (a, b, k)),
        ensures
            r.wf(),
            upsampled(samples@, r.input(), RATE_FACTOR as nat, mix),
            r.frame_size() == frame_size,
            r.zero() == zero,
            r.rate_factor() == RATE_FACTOR,
            r.denoised() == Seq::<Seq<T>>::empty(),
    {
        let up = upsample_3x(samples, mix);
        FrameStream {
            samples: up,
            frame_size,
            zero,
            factor: RATE_FACTOR,
            consumed: 0,
            output: Vec::new(),
            denoised: Ghost(Seq::empty()),
        }
    }

    /// The next frame to denoise, or `None` once every frame has been
    /// handed back.
    pub fn next_frame(&self) -> (r: Option<Vec<T>>)
        requires
            self.wf(),
        ensures
            r is Some <==> self.frames_done() < self.frames_total(),
            r matches Some(v) ==> v@ == padded_frame(
                self.input(),
                self.frame_size(),
                self.zero(),
                self.frames_done() as int,
            ),
    {
        let n = self.samples.len();
        let fs = self.frame_size;
        proof {
            lemma_ceil_div_bounds(n as nat, fs as nat, self.denoised@.len() as int);
        }
        if self.consumed >= n {
            return None;
        }
        let start = self.consumed;
        let ghost k = self.denoised@.len() as int;
        let mut frame: Vec<T> = Vec::with_capacity(fs);
        let mut i: usize = 0;
        while i < fs
            invariant
                self.wf(),
                n == self.samples@.len(),
                fs == self.frame_size,
                start == fs * k,
                start < n,
                i <= fs,
                frame@ == padded_frame(self.samples@, fs as nat, self.zero, k).take(i as int),
            decreases fs - i,
        {
            if i < n - start {
                frame.push(self.samples[start + i]);
            } else {
                frame.push(self.zero);
            }
            i = i + 1;
            assert(frame@ =~= padded_frame(self.samples@, fs as nat, self.zero, k).take(i as int));
        }
        assert(frame@ =~= padded_frame(self.samples@, fs as nat, self.zero, k));
        Some(frame)
    }

    /// Whether every frame has been denoised and handed back.
    pub fn is_finished(&self) -> (r: bool)
        requires
            self.wf(),
        ensures
            r == (self.frames_done() == self.frames_total()),
    {
        proof {
            lemma_ceil_div_bounds(
                self.samples@.len(),
                self.frame_size as nat,
                self.denoised@.len() as int,
            );
        }
        self.consumed >= self.samples.len()
    }

    /// Takes back the denoised form of the frame that `next_frame` handed
    /// out last, and keeps the part of it that the input supplied.
    pub fn accept(&mut self, frame_out: &[T])
        requires
            old(self).wf(),
            old(self).frames_done() < old(self).frames_total(),
            frame_out@.len() == old(self).frame_size(),
        ensures
            final(self).wf(),
            final(self).input() == old(self).input(),
            final(self).frame_size() == old(self).frame_size(),
            final(self).zero() == old(self).zero(),
            final(self).rate_factor() == old(self).rate_factor(),
            final(self).denoised() == old(self).denoised().push(frame_out@),
    {
        let n = self.samples.len();
        let fs = self.frame_size;
        let ghost k = self.denoised@.len();
        let ghost old_outs = self.denoised@;
        proof {
            lemma_ceil_div_bounds(n as nat, fs as nat, k as int);
        }
        let start = self.consumed;
        let take: usize = if n - start < fs {
            n - start
        } else {
            fs
        };
        assert(start + take == covered(n as nat, fs as nat, k + 1)) by (nonlinear_arith)
            requires
                start == fs * k,
                take == (if n - start < fs { n - start } else { fs as int }),
        ;
        let ghost before = self.output@;
        let ghost s0 = *self;
        let mut i: usize = 0;
        while i < take
            invariant
                self.samples@ == s0.samples@,
                self.frame_size == s0.frame_size,
                self.zero == s0.zero,
                self.factor == s0.factor,
                self.consumed == s0.consumed,
                self.denoised == s0.denoised,
                take <= frame_out@.len(),
                i <= take,
                self.output@ == before + frame_out@.take(i as int),
            decreases take - i,
        {
            self.output.push(frame_out[i]);
            i = i + 1;
            assert(self.output@ =~= before + frame_out@.take(i as int));
        }
        self.consumed = start + take;
        self.denoised = Ghost(old_outs.push(frame_out@));
        assert(self.denoised@.drop_last() =~= old_outs);
    }

    /// The output of the stream: the reassembled denoised frames, decimated
    /// by the rate factor.
    pub fn finish(self) -> (r: Vec<T>)
        requires
            self.wf(),
            self.frames_done() == self.frames_total(),
        ensures
            r@ == decimated(
                reassembled(self.denoised(), self.input().len(), self.frame_size()),
                self.rate_factor(),
            ),
            r@.len() == ceil_div(self.input().len(), self.rate_factor()),
    {
        proof {
            lemma_reassembled_len(self.denoised@, self.samples@.len(), self.frame_size as nat);
            lemma_ceil_div_bounds(
                self.samples@.len(),
                self.frame_size as nat,
                self.denoised@.len() as int,
            );
        }
        downsample(&self.output, self.factor)
    }
}

} // verus!
