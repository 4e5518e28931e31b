//! The integer side of loopback capture: how captured bytes split into stereo frames,
//! how the mono signal is cut into overlapping analysis windows, and which samples
//! of a window are sent as the waveform.

use vstd::prelude::*;

verus! {

/// Samples per analysis window (one FFT).
pub const FFT_SIZE: usize = 1024;

/// Samples between the starts of consecutive windows (50% overlap).
pub const HOP_SIZE: usize = 512;

/// Capture sample rate, in Hz.
pub const SAMPLE_RATE: usize = 48_000;

/// Spectrum bins sent per window.
pub const N_BINS_EMITTED: usize = 256;

/// Waveform samples sent per window.
pub const N_WAVE_EMITTED: usize = 256;

/// Buffer duration, in 100 ns units (10 ms), used for per-process loopback, where the
/// device period cannot be queried.
pub const PROC_LOOPBACK_PERIOD_HNS: i64 = 100_000;

/// The buffer duration to ask for: the fixed period for a per-process capture, the
/// device's minimum period for a system-wide one.
pub fn buffer_duration_hns(pid: Option<u32>, device_min_period_hns: i64) -> (r: i64)
    ensures
        pid is Some ==> r == PROC_LOOPBACK_PERIOD_HNS,
        pid is None ==> r == device_min_period_hns,
{
    match pid {
        Some(_) => PROC_LOOPBACK_PERIOD_HNS,
        None => device_min_period_hns,
    }
}

/// The number of bytes that make whole frames among `queued` bytes.
pub fn aligned_len(queued: usize, block_align: usize) -> (r: usize)
    requires
        block_align > 0,
    ensures
        r == queued - queued % block_align,
        r % block_align == 0,
        r <= queued,
        queued - r < block_align,
{
    assert(queued % block_align <= queued) by (nonlinear_arith)
        requires
            block_align > 0,
    {
        assert(queued == block_align * (queued / block_align) + queued % block_align);
        assert(queued / block_align >= 0);
        assert(block_align * (queued / block_align) >= 0);
    }
    let r = queued - queued % block_align;
    assert(r % block_align == 0) by (nonlinear_arith)
        requires
            r == queued - queued % block_align,
            block_align > 0,
    {
        assert(queued == block_align * (queued / block_align) + queued % block_align);
        assert(r == block_align * (queued / block_align));
    }
    r
}

/// The little-endian 32-bit word at byte `i` of `b`.
pub open spec fn le_u32(b: Seq<u8>, i: int) -> int {
    b[i] + 256 * b[i + 1] + 65536 * b[i + 2] + 16777216 * b[i + 3]
}

/// The little-endian word holds byte `i` in its lowest eight bits, byte `i + 1` in the
/// next eight, and so on, and fits in 32 bits.
pub proof fn lemma_le_u32(b: Seq<u8>, i: int)
    requires
        0 <= i,
        i + 4 <= b.len(),
    ensures
        0 <= le_u32(b, i) < 0x1_0000_0000,
        le_u32(b, i) % 256 == b[i],
        (le_u32(b, i) / 256) % 256 == b[i + 1],
        (le_u32(b, i) / 65536) % 256 == b[i + 2],
        le_u32(b, i) / 16777216 == b[i + 3],
{
    let b0 = b[i] as int;
    let b1 = b[i + 1] as int;
    let b2 = b[i + 2] as int;
    let b3 = b[i + 3] as int;
    let w = le_u32(b, i);
    assert(w % 256 == b0 && w / 256 == b1 + 256 * b2 + 65536 * b3) by (nonlinear_arith)
        requires
            w == b0 + 256 * b1 + 65536 * b2 + 16777216 * b3,
            0 <= b0 < 256,
            0 <= b1 < 256,
            0 <= b2 < 256,
            0 <= b3 < 256,
    ;
    assert((w / 256) % 256 == b1 && w / 65536 == b2 + 256 * b3) by (nonlinear_arith)
        requires
            w / 256 == b1 + 256 * b2 + 65536 * b3,
            w >= 0,
            0 <= b1 < 256,
            0 <= b2 < 256,
            0 <= b3 < 256,
    {
        assert(w / 65536 == (w / 256) / 256) by (nonlinear_arith)
            requires
                w >= 0,
        {
            let q = w / 256;
            let r = w % 256;
            let q2 = q / 256;
            let r2 = q % 256;
            assert(w == 256 * q + r && 0 <= r < 256);
            assert(q == 256 * q2 + r2 && 0 <= r2 < 256);
            assert(w == 65536 * q2 + (256 * r2 + r));
        }
    }
    assert((w / 65536) % 256 == b2 && w / 16777216 == b3) by (nonlinear_arith)
        requires
            w / 65536 == b2 + 256 * b3,
            w >= 0,
            0 <= b2 < 256,
            0 <= b3 < 256,
    {
        assert(w / 16777216 == (w / 65536) / 256) by (nonlinear_arith)
            requires
                w >= 0,
        {
            let q = w / 65536;
            let r = w % 65536;
            let q2 = q / 256;
            let r2 = q % 256;
            assert(w == 65536 * q + r && 0 <= r < 65536);
            assert(q == 256 * q2 + r2 && 0 <= r2 < 256);
            assert(w == 16777216 * q2 + (65536 * r2 + r));
        }
    }
}

/// The words at byte `i` of `b`, little-endian.
fn read_le_u32(b: &[u8], i: usize) -> (w: u32)
    requires
        i + 4 <= b.len(),
    ensures
        w == le_u32(b@, i as int),
{
    (b[i] as u32) + 256 * (b[i + 1] as u32) + 65536 * (b[i + 2] as u32) + 16777216 * (b[i + 3] as u32)
}

/// The left and right 32-bit sample words of each frame of interleaved stereo audio:
/// frame `k` starts at byte `k * block_align`, its left sample is the little-endian
/// word there and its right sample the one four bytes on.
pub fn stereo_words(bytes: &[u8], block_align: usize) -> (r: Vec<(u32, u32)>)
    requires
        block_align >= 8,
        bytes.len() % block_align == 0,
    ensures
        r.len() == bytes.len() / block_align,
        forall|k: int|
            0 <= k < r.len() ==> (#[trigger] r@[k]).0 == le_u32(bytes@, k * block_align) && r@[k].1
                == le_u32(bytes@, k * block_align + 4),
{
    let n = bytes.len() / block_align;
    let mut r: Vec<(u32, u32)> = Vec::new();
    let mut k: usize = 0;
    while k < n
        invariant
            n == bytes.len() / block_align,
            block_align >= 8,
            bytes.len() % block_align == 0,
            0 <= k <= n,
            r.len() == k,
            forall|j: int|
                0 <= j < k ==> (#[trigger] r@[j]).0 == le_u32(bytes@, j * block_align) && r@[j].1
                    == le_u32(bytes@, j * block_align + 4),
        decreases n - k,
    {
        assert((k + 1) * block_align <= bytes.len()) by (nonlinear_arith)
            requires
                k < n,
                n == bytes.len() / block_align,
                bytes.len() % block_align == 0,
                block_align > 0,
        {
            assert(bytes.len() == block_align * n);
            assert(k + 1 <= n);
        }
        assert(k * block_align <= (k + 1) * block_align) by (nonlinear_arith)
            requires
                block_align > 0,
        ;
        let start = k * block_align;
        assert(start + 8 <= bytes.len()) by (nonlinear_arith)
            requires
                start == k * block_align,
                (k + 1) * block_align <= bytes.len(),
                block_align >= 8,
        ;
        let left = read_le_u32(bytes, start);
        let right = read_le_u32(bytes, start + 4);
        r.push((left, right));
        k = k + 1;
    }
    r
}

/// How many analysis windows `buffered` samples hold when windows start every
/// `HOP_SIZE` samples and each needs `FFT_SIZE` of them.
pub open spec fn window_count(buffered: int) -> int {
    if buffered < FFT_SIZE {
        0
    } else {
        (buffered - FFT_SIZE) / (HOP_SIZE as int) + 1
    }
}

/// The windows to analyse among `buffered` mono samples, and the samples kept for
/// later: window `k` covers samples `k * HOP_SIZE` to `k * HOP_SIZE + FFT_SIZE`, and
/// the first `windows * HOP_SIZE` samples are then dropped.
pub fn schedule_windows(buffered: usize) -> (r: (usize, usize))
    ensures
        r.0 == window_count(buffered as int),
        r.1 == buffered - r.0 * HOP_SIZE,
        r.1 < FFT_SIZE,
        r.0 > 0 ==> (r.0 - 1) * HOP_SIZE + FFT_SIZE <= buffered,
{
    let mut windows: usize = 0;
    let mut left: usize = buffered;
    while left >= FFT_SIZE
        invariant
            left == buffered - windows * HOP_SIZE,
            windows * HOP_SIZE <= buffered,
            windows > 0 ==> (windows - 1) * HOP_SIZE + FFT_SIZE <= buffered,
            window_count(buffered as int) == windows + window_count(left as int),
        decreases left,
    {
        proof {
            if left >= FFT_SIZE + HOP_SIZE {
                assert((left - FFT_SIZE) / 512 == (left - HOP_SIZE - FFT_SIZE) / 512 + 1);
            } else {
                assert((left - FFT_SIZE) / 512 == 0);
            }
        }
        windows = windows + 1;
        left = left - HOP_SIZE;
    }
    (windows, left)
}

proof fn lemma_div_shift(q: int, t: int)
    requires
        t >= 0,
    ensures
        (512 * q + t) / 512 == q + t / 512,
{
    assert((512 * q + t) / 512 == q + t / 512) by (nonlinear_arith)
        requires
            t >= 0,
    {
        let r = t % 512;
        let p = t / 512;
        assert(t == 512 * p + r && 0 <= r < 512);
        assert(512 * q + t == 512 * (q + p) + r);
    }
}

/// Cutting windows batch by batch, with the samples left over from one read kept for
/// the next, gives as many windows as cutting everything at once: a first batch of
/// `b` samples and `n` more samples read after it.
pub proof fn lemma_windows_carry_over(b: int, n: int)
    requires
        b >= 0,
        n >= 0,
    ensures
        window_count(b) + window_count(b - window_count(b) * HOP_SIZE + n) == window_count(b + n),
{
    if b >= FFT_SIZE {
        let q = (b - 1024) / 512;
        let s = (b - 1024) % 512;
        assert(b - 1024 == 512 * q + s && 0 <= s < 512 && q >= 0) by (nonlinear_arith)
            requires
                b >= 1024,
                q == (b - 1024) / 512,
                s == (b - 1024) % 512,
        ;
        assert(window_count(b) == q + 1);
        assert((q + 1) * 512 == 512 * q + 512) by (nonlinear_arith);
        let rem = b - window_count(b) * HOP_SIZE;
        assert(rem == 512 + s);
        lemma_div_shift(q, s + n);
        if s + n < 512 {
            assert((s + n) / 512 == 0);
        } else {
            lemma_div_shift(1, s + n - 512);
            assert(s + n == 512 * 1 + (s + n - 512));
        }
    }
}

/// `a / b` rounded up.
pub open spec fn ceil_div(a: int, b: int) -> int {
    (a + b - 1) / b
}

proof fn lemma_ceil_div_step(a: int, b: int, k: int)
    requires
        b > 0,
        k >= 0,
        k * b < a <= (k + 1) * b,
    ensures
        ceil_div(a, b) == k + 1,
{
    let q = (a + b - 1) / b;
    let r = (a + b - 1) % b;
    assert(a + b - 1 == b * q + r && 0 <= r < b) by (nonlinear_arith)
        requires
            b > 0,
            q == (a + b - 1) / b,
            r == (a + b - 1) % b,
    ;
    assert(q == k + 1) by (nonlinear_arith)
        requires
            a + b - 1 == b * q + r,
            0 <= r < b,
            k * b < a <= (k + 1) * b,
            b > 0,
    ;
}

proof fn lemma_ceil_div_exact(k: int, b: int)
    requires
        b > 0,
        k >= 0,
    ensures
        ceil_div(k * b, b) == k,
{
    if k == 0 {
        assert(ceil_div(0, b) == 0) by (nonlinear_arith)
            requires
                b > 0,
        ;
    } else {
        assert((k - 1) * b < k * b) by (nonlinear_arith)
            requires
                b > 0,
        ;
        lemma_ceil_div_step(k * b, b, k - 1);
    }
}

/// `a / b` rounded up is the least count of `b`-sized pieces that covers `a`.
pub proof fn lemma_ceil_div(a: int, b: int)
    requires
        a >= 0,
        b > 0,
    ensures
        ceil_div(a, b) >= 0,
        ceil_div(a, b) * b >= a,
        ceil_div(a, b) > 0 ==> (ceil_div(a, b) - 1) * b < a,
{
    let q = (a + b - 1) / b;
    let r = (a + b - 1) % b;
    assert(a + b - 1 == b * q + r && 0 <= r < b) by (nonlinear_arith)
        requires
            b > 0,
            q == (a + b - 1) / b,
            r == (a + b - 1) % b,
    ;
    assert(q >= 0 && q * b >= a && (q > 0 ==> (q - 1) * b < a)) by (nonlinear_arith)
        requires
            a + b - 1 == b * q + r,
            0 <= r < b,
            a >= 0,
            b > 0,
    ;
}

/// Every `step`-th element of `samples`, starting with the first.
pub fn decimate<T: Copy>(samples: &[T], step: usize) -> (r: Vec<T>)
    requires
        step > 0,
    ensures
        r.len() == ceil_div(samples.len() as int, step as int),
        forall|k: int| 0 <= k < r.len() ==> #[trigger] r@[k] == samples@[k * step],
        r.len() * step >= samples.len(),
        r.len() > 0 ==> (r.len() - 1) * step < samples.len(),
{
    proof {
        lemma_ceil_div(samples.len() as int, step as int);
    }
    let mut r: Vec<T> = Vec::new();
    let mut i: usize = 0;
    proof {
        lemma_ceil_div_exact(0, step as int);
    }
    while i < samples.len()
        invariant
            step > 0,
            i <= samples.len(),
            i < samples.len() ==> i == r.len() * step,
            r.len() == ceil_div(i as int, step as int),
            forall|k: int| 0 <= k < r.len() ==> #[trigger] r@[k] == samples@[k * step],
        decreases samples.len() - i,
    {
        let ghost k = r.len() as int;
        r.push(samples[i]);
        if samples.len() - i <= step {
            proof {
                assert((k + 1) * step == k * step + step) by (nonlinear_arith);
                lemma_ceil_div_step(samples.len() as int, step as int, k);
            }
            i = samples.len();
        } else {
            proof {
                assert((k + 1) * step == k * step + step) by (nonlinear_arith);
                lemma_ceil_div_exact(k + 1, step as int);
            }
            i = i + step;
        }
    }
    r
}

} // verus!
