//! The rate adapter: linear-interpolation upsampling by an integer factor and
//! decimation back down by the same factor. Both are generic over the sample
//! type; the arithmetic of an interpolated sample is the caller's `mix`.
use vstd::prelude::*;

verus! {

/// The rate factor between the native rate of the denoiser and the
/// secondary rate that the service accepts.
pub const RATE_FACTOR: usize = 3;

/// `out` is the upsampling of `s` by `f`: for each adjacent pair `(a, b)` of
/// `s`, first `a` and then `mix(a, b, k)` for `k` in `1..f`; after the pairs,
/// the last sample of `s` repeated `f` times.
pub open spec fn upsampled<T, F: Fn(T, T, usize) -> T>(
    s: Seq<T>,
    out: Seq<T>,
    f: nat,
    mix: F,
) -> bool {
    &&& out.len() == f * s.len()
    &&& forall|i: int| 0 <= i < s.len() ==> #[trigger] out[f * i] == s[i]
    &&& forall|i: int, k: int|
        0 <= i < s.len() - 1 && 1 <= k < f ==> call_ensures(
            mix,
            (s[i], s[i + 1], k as usize),
            #[trigger] out[f * i + k],
        )
    &&& s.len() > 0 ==> forall|k: int|
        0 <= k < f ==> #[trigger] out[f * (s.len() - 1) + k] == s.last()
}

/// Every `f`-th sample of `s`, starting with the first.
pub open spec fn decimated<T>(s: Seq<T>, f: nat) -> Seq<T>
    recommends
        f > 0,
{
    Seq::new(ceil_div(s.len(), f), |i: int| s[f * i])
}

/// `n / f` rounded up.
pub open spec fn ceil_div(n: nat, f: nat) -> nat
    recommends
        f > 0,
{
    if n == 0 {
        0
    } else {
        ((n - 1) as nat / f + 1) as nat
    }
}

pub(crate) proof fn lemma_ceil_div_bounds(n: nat, f: nat, i: int)
    requires
        f > 0,
        0 <= i,
    ensures
        i < ceil_div(n, f) <==> f * i < n,
{
    if n > 0 {
        let q = (n - 1) as nat / f;
        let r = (n - 1) as nat % f;
        vstd::arithmetic::div_mod::lemma_fundamental_div_mod((n - 1) as int, f as int);
        vstd::arithmetic::div_mod::lemma_mod_pos_bound((n - 1) as int, f as int);
        assert(ceil_div(n, f) == q + 1);
        if i <= q {
            assert(f * i <= f * q) by (nonlinear_arith)
                requires
                    i <= q,
                    f > 0,
            ;
        } else {
            assert(f * i >= f * q + f) by (nonlinear_arith)
                requires
                    i >= q + 1,
                    f > 0,
            ;
        }
    } else {
        assert(f * i >= 0) by (nonlinear_arith)
            requires
                i >= 0,
                f > 0,
        ;
    }
}

/// Upsamples `samples` by `factor`: each adjacent pair `(a, b)` gives `a`
/// followed by `mix(a, b, k)` for `k = 1 .. factor - 1`, and the last sample
/// closes the sequence `factor` times, so `n` samples give `factor * n`.
pub fn upsample<T: Copy, F: Fn(T, T, usize) -> T>(
    samples: &[T],
    factor: usize,
    mix: F,
) -> (r: Vec<T>)
    requires
        factor > 0,
        factor * samples@.len() <= usize::MAX,
        forall|a: T, b: T, k: usize| 1 <= k < factor ==> call_requires(mix, (a, b, k)),
    ensures
        upsampled(samples@, r@, factor as nat, mix),
{
    let n = samples.len();
    let ghost f = factor as int;
    let mut out: Vec<T> = Vec::with_capacity(factor * n);
    if n == 0 {
        assert(f * 0 == 0);
        return out;
    }
    let mut i: usize = 0;
    while i + 1 < n
        invariant
            n == samples@.len(),
            n > 0,
            f == factor,
            factor > 0,
            factor * n <= usize::MAX,
            forall|a: T, b: T, k: usize| 1 <= k < factor ==> call_requires(mix, (a, b, k)),
            i < n,
            out@.len() == f * i,
            forall|j: int| 0 <= j < i ==> #[trigger] out@[f * j] == samples@[j],
            forall|j: int, k: int|
                0 <= j < i && 1 <= k < f ==> call_ensures(
                    mix,
                    (samples@[j], samples@[j + 1], k as usize),
                    #[trigger] out@[f * j + k],
                ),
        decreases n - i,
    {
        assert(f * i + f <= f * n) by (nonlinear_arith)
            requires
                i + 1 < n,
                f > 0,
        ;
        let a = samples[i];
        let b = samples[i + 1];
        let ghost before = out@;
        out.push(a);
        let mut k: usize = 1;
        while k < factor
            invariant
                n == samples@.len(),
                f == factor,
                factor > 0,
                factor * n <= usize::MAX,
                forall|a: T, b: T, k: usize| 1 <= k < factor ==> call_requires(mix, (a, b, k)),
                i + 1 < n,
                a == samples@[i as int],
                b == samples@[i + 1],
                1 <= k <= factor,
                f * i + f <= f * n,
                before.len() == f * i,
                out@.len() == f * i + k,
                out@.take(f * i) == before,
                out@[f * i] == a,
                forall|m: int|
                    1 <= m < k ==> call_ensures(mix, (a, b, m as usize), #[trigger] out@[f * i + m]),
            decreases factor - k,
        {
            let v = mix(a, b, k);
            out.push(v);
            k = k + 1;
            assert(out@.take(f * i) =~= before);
        }
        assert forall|j: int| 0 <= j < i + 1 implies #[trigger] out@[f * j] == samples@[j] by {
            if j < i {
                assert(f * j < f * i) by (nonlinear_arith)
                    requires
                        j < i,
                        f > 0,
                ;
                assert(out@[f * j] == before[f * j]);
            }
        }
        assert forall|j: int, m: int|
            0 <= j < i + 1 && 1 <= m < f implies call_ensures(
            mix,
            (samples@[j], samples@[j + 1], m as usize),
            #[trigger] out@[f * j + m],
        ) by {
            if j < i {
                assert(f * j + m < f * i) by (nonlinear_arith)
                    requires
                        0 <= j < i,
                        0 <= m < f,
                ;
                assert(out@[f * j + m] == before[f * j + m]);
            }
        }
        i = i + 1;
        assert(out@.len() == f * i) by (nonlinear_arith)
            requires
                out@.len() == f * (i - 1) + f,
        ;
    }
    let last = samples[n - 1];
    let ghost before = out@;
    let mut k: usize = 0;
    while k < factor
        invariant
            n == samples@.len(),
            n > 0,
            i == n - 1,
            f == factor,
            factor > 0,
            factor * n <= usize::MAX,
            last == samples@[n - 1],
            0 <= k <= factor,
            before.len() == f * i,
            out@.len() == f * i + k,
            out@.take(f * i) == before,
            forall|m: int| 0 <= m < k ==> #[trigger] out@[f * i + m] == last,
        decreases factor - k,
    {
        assert(f * i + k < f * n) by (nonlinear_arith)
            requires
                i == n - 1,
                k < f,
        ;
        out.push(last);
        k = k + 1;
        assert(out@.take(f * i) =~= before);
    }
    assert(out@.len() == f * n) by (nonlinear_arith)
        requires
            out@.len() == f * i + f,
            i == n - 1,
    ;
    assert forall|j: int| 0 <= j < n implies #[trigger] out@[f * j] == samples@[j] by {
        if j < i {
            assert(f * j < f * i) by (nonlinear_arith)
                requires
                    j < i,
                    f > 0,
            ;
            assert(out@[f * j] == before[f * j]);
        } else {
            assert(out@[f * i + 0] == last);
        }
    }
    assert forall|j: int, m: int|
        0 <= j < n - 1 && 1 <= m < f implies call_ensures(
        mix,
        (samples@[j], samples@[j + 1], m as usize),
        #[trigger] out@[f * j + m],
    ) by {
        assert(f * j + m < f * i) by (nonlinear_arith)
            requires
                0 <= j < i,
                0 <= m < f,
        ;
        assert(out@[f * j + m] == before[f * j + m]);
    }
    out
}

/// Keeps every `factor`-th sample, starting with the first: `n` samples give
/// `ceil(n / factor)`.
pub fn downsample<T: Copy>(samples: &[T], factor: usize) -> (r: Vec<T>)
    requires
        factor > 0,
    ensures
        r@ == decimated(samples@, factor as nat),
        r@.len() == ceil_div(samples@.len(), factor as nat),
{
    let n = samples.len();
    let ghost f = factor as nat;
    let mut out: Vec<T> = Vec::new();
    let count: usize = if n == 0 {
        0
    } else {
        (n - 1) / factor + 1
    };
    let mut i: usize = 0;
    while i < count
        invariant
            n == samples@.len(),
            f == factor,
            factor > 0,
            count == ceil_div(n as nat, f),
            i <= count,
            out@ == decimated(samples@, f).take(i as int),
        decreases count - i,
    {
        proof {
            lemma_ceil_div_bounds(n as nat, f, i as int);
        }
        out.push(samples[factor * i]);
        i = i + 1;
        assert(out@ =~= decimated(samples@, f).take(i as int));
    }
    assert(out@ =~= decimated(samples@, f));
    out
}

/// Upsamples from the secondary rate to the native rate.
pub fn upsample_3x<T: Copy, F: Fn(T, T, usize) -> T>(samples: &[T], mix: F) -> (r: Vec<T>)
    requires
        RATE_FACTOR * samples@.len() <= usize::MAX,
        forall|a: T, b: T, k: usize| 1 <= k < RATE_FACTOR ==> call_requires(mix, (a, b, k)),
    ensures
        upsampled(samples@, r@, RATE_FACTOR as nat, mix),
{
    upsample(samples, RATE_FACTOR, mix)
}

/// Decimates from the native rate to the secondary rate.
pub fn downsample_3x<T: Copy>(samples: &[T]) -> (r: Vec<T>)
    ensures
        r@ == decimated(samples@, RATE_FACTOR as nat),
        r@.len() == ceil_div(samples@.len(), RATE_FACTOR as nat),
{
    downsample(samples, RATE_FACTOR)
}

/// Decimating by one keeps every sample.
pub proof fn lemma_decimate_by_one<T>(s: Seq<T>)
    ensures
        decimated(s, 1) == s,
{
    assert(ceil_div(s.len(), 1) == s.len());
    assert(decimated(s, 1) =~= s);
}

/// Downsampling the upsampling of `s` by the same factor gives back `s`:
/// `f * n` samples decimate to `ceil(f * n / f) = n`, and sample `f * i` of
/// the upsampling is `s[i]`.
pub proof fn lemma_decimate_upsampled<T, F: Fn(T, T, usize) -> T>(
    s: Seq<T>,
    out: Seq<T>,
    f: nat,
    mix: F,
)
    requires
        f > 0,
        upsampled(s, out, f, mix),
    ensures
        ceil_div(out.len(), f) == s.len(),
        decimated(out, f) == s,
{
    let n = s.len();
    if n > 0 {
        lemma_ceil_div_bounds(out.len(), f, n as int);
        lemma_ceil_div_bounds(out.len(), f, (n - 1) as int);
        assert(f * (n - 1) < f * n) by (nonlinear_arith)
            requires
                f > 0,
                n > 0,
        ;
        assert(f * n == out.len());
        assert(ceil_div(out.len(), f) == n);
    } else {
        assert(out.len() == 0) by (nonlinear_arith)
            requires
                out.len() == f * n,
                n == 0,
        ;
    }
    assert(decimated(out, f).len() == n);
    assert forall|i: int| 0 <= i < n implies decimated(out, f)[i] == s[i] by {
        assert(out[f * i] == s[i]);
    }
    assert(decimated(out, f) =~= s);
}

} // verus!
