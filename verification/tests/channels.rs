//! The simulated channels.

use syndrome::channel_sim::{next_uniform, splitmix64, AwgnChannel, RayleighBlockChannel};

fn uniform(p: u32) -> f32 {
    f32::from_bits(p) - 1.0
}

fn gaussian(p: u32, q: u32) -> f32 {
    let u1 = uniform(p).max(1e-38_f32);
    let u2 = uniform(q);
    (-2.0 * u1.ln()).sqrt() * (2.0 * core::f32::consts::PI * u2).cos()
}

fn sigma_of(ebno_db: f32, code_rate: f32) -> f32 {
    let ebno_linear = 10.0_f32.powf(ebno_db / 10.0);
    (1.0 / (2.0 * code_rate * ebno_linear)).sqrt()
}

fn receive(x: u32, p: u32, q: u32, sigma: u32) -> u32 {
    let s = f32::from_bits(sigma);
    let r = f32::from_bits(x) + gaussian(p, q) * s;
    (r * (2.0 / (s * s))).to_bits()
}

fn receive_noiseless(x: u32, sigma: u32) -> u32 {
    let s = f32::from_bits(sigma);
    (f32::from_bits(x) * (2.0 / (s * s))).to_bits()
}

fn fading_gain(p: u32, q: u32, u: u32, v: u32) -> u32 {
    let g1 = gaussian(p, q) * core::f32::consts::FRAC_1_SQRT_2;
    let g2 = gaussian(u, v) * core::f32::consts::FRAC_1_SQRT_2;
    (g1 * g1 + g2 * g2).sqrt().to_bits()
}

fn receive_faded(x: u32, h: u32, p: u32, q: u32, sigma: u32) -> u32 {
    let s = f32::from_bits(sigma);
    let gain = f32::from_bits(h);
    let r = gain * f32::from_bits(x) + gaussian(p, q) * s;
    (r * (2.0 * gain / (s * s))).to_bits()
}

fn values(patterns: Vec<u32>) -> Vec<f32> {
    patterns.into_iter().map(f32::from_bits).collect()
}

struct Awgn(AwgnChannel);

impl Awgn {
    fn new(ebno_db: f32, code_rate: f32, seed: u64) -> Self {
        Awgn(AwgnChannel::new(sigma_of(ebno_db, code_rate).to_bits(), seed))
    }

    fn sigma(&self) -> f32 {
        f32::from_bits(self.0.sigma())
    }

    fn transmit(&mut self, bits: &[u8]) -> Vec<f32> {
        values(self.0.transmit(bits, &receive))
    }

    fn transmit_noiseless(&self, bits: &[u8]) -> Vec<f32> {
        values(self.0.transmit_noiseless(bits, &receive_noiseless))
    }

    fn bit_error_rate(decoded: &[u8], original: &[u8]) -> f64 {
        match AwgnChannel::bit_errors(decoded, original) {
            None => 0.0,
            Some((errors, n)) => errors as f64 / n as f64,
        }
    }

    fn count_errors(decoded: &[u8], original: &[u8]) -> usize {
        AwgnChannel::count_errors(decoded, original)
    }
}

struct Rayleigh(RayleighBlockChannel);

impl Rayleigh {
    fn new(ebno_db: f32, code_rate: f32, block_len: usize, seed: u64) -> Self {
        Rayleigh(RayleighBlockChannel::new(
            sigma_of(ebno_db, code_rate).to_bits(),
            block_len,
            seed,
        ))
    }

    fn sigma(&self) -> f32 {
        f32::from_bits(self.0.sigma())
    }

    fn transmit(&mut self, bits: &[u8]) -> Vec<f32> {
        values(self.0.transmit(bits, &fading_gain, &receive_faded))
    }

    fn transmit_with_gains(&mut self, bits: &[u8]) -> (Vec<f32>, Vec<f32>) {
        let (llrs, gains) = self.0.transmit_with_gains(bits, &fading_gain, &receive_faded);
        (values(llrs), values(gains))
    }
}

fn normal_cdf(x: f64) -> f64 {
    0.5 * (1.0 + erf(x / core::f64::consts::SQRT_2))
}

fn erf(x: f64) -> f64 {
    const P: f64 = 0.327_591_1;
    const A: [f64; 5] = [
        0.254_829_592,
        -0.284_496_736,
        1.421_413_741,
        -1.453_152_027,
        1.061_405_429,
    ];
    let sign = if x < 0.0 { -1.0 } else { 1.0 };
    let x = x.abs();
    let t = 1.0 / (1.0 + P * x);
    let poly = t * (A[0] + t * (A[1] + t * (A[2] + t * (A[3] + t * A[4]))));
    sign * (1.0 - poly * (-x * x).exp())
}

#[test]
fn normal_cdf_matches_published_values() {
    for &(x, expected) in &[
        (0.0_f64, 0.500_000_0_f64),
        (1.0, 0.841_344_7),
        (-1.0, 0.158_655_3),
        (1.959_964, 0.975_000_0),
        (-1.959_964, 0.025_000_0),
        (2.575_829, 0.995_000_0),
        (3.0, 0.998_650_1),
        (-3.0, 0.001_349_9),
    ] {
        let got = normal_cdf(x);
        assert!(
            (got - expected).abs() < 2e-7,
            "Phi({x}) = {got}, expected {expected}"
        );
    }
}

fn recover_noise(ch: &Awgn, bits: &[u8], llrs: &[f32]) -> Vec<f64> {
    let sigma_sq = (ch.sigma() as f64) * (ch.sigma() as f64);
    bits.iter()
        .zip(llrs.iter())
        .map(|(&b, &l)| {
            let x = if b == 0 { 1.0_f64 } else { -1.0_f64 };
            (l as f64) * sigma_sq / 2.0 - x
        })
        .collect()
}

#[test]
fn noise_mean_and_variance_match_the_ebn0_calibration() {
    const N: usize = 200_000;
    for &(ebno_db, rate) in &[
        (0.0_f32, 0.5_f32),
        (3.0, 0.5),
        (6.0, 1.0 / 3.0),
        (-2.0, 0.75),
    ] {
        let mut ch = Awgn::new(ebno_db, rate, 0x5EED);
        let sigma = ch.sigma() as f64;
        let bits: Vec<u8> = (0..N).map(|i| (i % 2) as u8).collect();
        let llrs = ch.transmit(&bits);
        let noise = recover_noise(&ch, &bits, &llrs);

        let mean = noise.iter().sum::<f64>() / N as f64;
        let var = noise.iter().map(|n| (n - mean) * (n - mean)).sum::<f64>() / (N - 1) as f64;

        let se_mean = sigma / (N as f64).sqrt();
        assert!(
            mean.abs() < 5.0 * se_mean,
            "Eb/N0={ebno_db} R={rate}: noise mean {mean:.6} exceeds 5 standard errors ({:.6})",
            5.0 * se_mean,
        );

        let expected_var = sigma * sigma;
        let rel_err = (var - expected_var).abs() / expected_var;
        assert!(
            rel_err < 0.02,
            "Eb/N0={ebno_db} R={rate}: noise variance {var:.6} vs expected {expected_var:.6} \
             (relative error {rel_err:.4})",
        );
    }
}

#[test]
fn measured_snr_matches_requested_snr() {
    const N: usize = 200_000;
    for &(ebno_db, rate) in &[
        (0.0_f32, 0.5_f32),
        (2.0, 0.5),
        (5.0, 1.0 / 3.0),
        (8.0, 0.75),
    ] {
        let mut ch = Awgn::new(ebno_db, rate, 0xD1CE);
        let bits: Vec<u8> = (0..N).map(|i| (i % 3 == 0) as u8).collect();
        let llrs = ch.transmit(&bits);
        let noise = recover_noise(&ch, &bits, &llrs);

        let mean = noise.iter().sum::<f64>() / N as f64;
        let var = noise.iter().map(|n| (n - mean) * (n - mean)).sum::<f64>() / (N - 1) as f64;
        let measured_db = 10.0 * (1.0 / (2.0 * rate as f64 * var)).log10();

        assert!(
            (measured_db - ebno_db as f64).abs() < 0.1,
            "requested {ebno_db} dB, measured {measured_db:.4} dB (sigma^2 = {var:.6})",
        );
    }
}

#[test]
fn noise_passes_a_chi_square_normality_test() {
    const N: usize = 200_000;
    let mut ch = Awgn::new(3.0, 0.5, 0xC0FFEE);
    let sigma = ch.sigma() as f64;
    let bits: Vec<u8> = (0..N).map(|i| (i % 2) as u8).collect();
    let llrs = ch.transmit(&bits);
    let noise = recover_noise(&ch, &bits, &llrs);

    let mut edges = Vec::new();
    let mut e = -3.5_f64;
    while e <= 3.5 + 1e-9 {
        edges.push(e);
        e += 0.5;
    }
    let n_bins = edges.len() + 1;
    let mut observed = vec![0usize; n_bins];
    for &x in &noise {
        let z = x / sigma;
        let mut bin = 0usize;
        while bin < edges.len() && z >= edges[bin] {
            bin += 1;
        }
        observed[bin] += 1;
    }

    let mut expected = vec![0.0_f64; n_bins];
    expected[0] = normal_cdf(edges[0]) * N as f64;
    for i in 1..edges.len() {
        expected[i] = (normal_cdf(edges[i]) - normal_cdf(edges[i - 1])) * N as f64;
    }
    expected[n_bins - 1] = (1.0 - normal_cdf(edges[edges.len() - 1])) * N as f64;

    let chi2: f64 = observed
        .iter()
        .zip(expected.iter())
        .map(|(&o, &e)| {
            let d = o as f64 - e;
            d * d / e
        })
        .sum();

    for (i, &e) in expected.iter().enumerate() {
        assert!(
            e >= 5.0,
            "bin {i} expected count {e:.2} too small for a chi-square test"
        );
    }

    let df = n_bins - 1;
    assert_eq!(df, 15, "critical value below is tabulated for 15 df");
    const CHI2_15_DF_UPPER_0_001: f64 = 37.697;
    assert!(
        chi2 < CHI2_15_DF_UPPER_0_001,
        "chi-square statistic {chi2:.3} exceeds the 0.1% critical value \
         {CHI2_15_DF_UPPER_0_001} for {df} df -- noise is not Gaussian",
    );
}

#[test]
fn consecutive_noise_samples_are_uncorrelated() {
    const N: usize = 200_000;
    let mut ch = Awgn::new(4.0, 0.5, 0xA5A5_1234);
    let bits = vec![0u8; N];
    let llrs = ch.transmit(&bits);
    let noise = recover_noise(&ch, &bits, &llrs);

    let mean = noise.iter().sum::<f64>() / N as f64;
    let var = noise.iter().map(|n| (n - mean) * (n - mean)).sum::<f64>() / N as f64;
    let cov: f64 = noise
        .windows(2)
        .map(|w| (w[0] - mean) * (w[1] - mean))
        .sum::<f64>()
        / (N - 1) as f64;
    let rho = cov / var;

    assert!(
        rho.abs() < 5.0 / (N as f64).sqrt(),
        "lag-1 autocorrelation {rho:.5} too large — samples are not independent",
    );
}


#[test]
fn rayleigh_gains_are_unit_power_and_correctly_distributed() {
    const N_BLOCKS: usize = 200_000;
    let mut ch = Rayleigh::new(5.0, 0.5, 1, 0xFADE);
    let bits = vec![0u8; N_BLOCKS];
    let (_, gains) = ch.transmit_with_gains(&bits);
    assert_eq!(gains.len(), N_BLOCKS);

    let n = N_BLOCKS as f64;
    let m1 = gains.iter().map(|&g| g as f64).sum::<f64>() / n;
    let m2 = gains.iter().map(|&g| (g as f64).powi(2)).sum::<f64>() / n;
    let m4 = gains.iter().map(|&g| (g as f64).powi(4)).sum::<f64>() / n;

    let expected_m1 = core::f64::consts::PI.sqrt() / 2.0;
    assert!(
        (m1 - expected_m1).abs() < 0.01,
        "E[h] = {m1:.5}, expected {expected_m1:.5}"
    );
    assert!((m2 - 1.0).abs() < 0.01, "E[h^2] = {m2:.5}, expected 1.0");
    assert!((m4 - 2.0).abs() < 0.05, "E[h^4] = {m4:.5}, expected 2.0");
}

#[test]
fn fading_amplitude_is_constant_within_a_block() {
    let block_len = 16usize;
    let n_blocks = 2_000usize;
    let mut ch = Rayleigh::new(10.0, 0.5, block_len, 0xB10C);
    let bits = vec![0u8; block_len * n_blocks];
    let (llrs, gains) = ch.transmit_with_gains(&bits);
    assert_eq!(gains.len(), n_blocks);

    let sigma_sq = (ch.sigma() as f64) * (ch.sigma() as f64);
    let mut residuals = Vec::with_capacity(llrs.len());
    for (b, chunk) in llrs.chunks(block_len).enumerate() {
        let h = gains[b] as f64;
        for &l in chunk {
            let r = (l as f64) * sigma_sq / (2.0 * h);
            residuals.push(r - h);
        }
    }

    let n = residuals.len() as f64;
    let mean = residuals.iter().sum::<f64>() / n;
    let var = residuals
        .iter()
        .map(|x| (x - mean) * (x - mean))
        .sum::<f64>()
        / (n - 1.0);

    assert!(
        mean.abs() < 5.0 * (sigma_sq / n).sqrt(),
        "residual mean {mean:.5} is biased — the per-block gain is not what was applied",
    );
    let rel_err = (var - sigma_sq).abs() / sigma_sq;
    assert!(
        rel_err < 0.05,
        "residual variance {var:.5} vs expected sigma^2 {sigma_sq:.5} \
         (relative error {rel_err:.4}) — the gain is not constant across each block",
    );

    let distinct = gains
        .iter()
        .filter(|&&g| (g - gains[0]).abs() > 1e-6)
        .count();
    assert!(
        distinct > n_blocks / 2,
        "only {distinct} of {n_blocks} blocks differ from the first — gains are not redrawn",
    );
}

#[test]
fn uncoded_ber_matches_closed_form_on_both_channels() {
    const N: usize = 400_000;
    let ebno = 6.0_f32;
    let rate = 0.5_f32;
    let bits: Vec<u8> = (0..N).map(|i| (i % 2) as u8).collect();

    let mut awgn = Awgn::new(ebno, rate, 0x1111);
    let sigma = awgn.sigma() as f64;
    let awgn_hard: Vec<u8> = awgn
        .transmit(&bits)
        .iter()
        .map(|&l| u8::from(l < 0.0))
        .collect();
    let awgn_ber = Awgn::bit_error_rate(&awgn_hard, &bits);
    let awgn_theory = 1.0 - normal_cdf(1.0 / sigma);
    assert!(
        (awgn_ber - awgn_theory).abs() / awgn_theory < 0.05,
        "AWGN BER {awgn_ber:.5} differs from Q(1/sigma) = {awgn_theory:.5} by more than 5%",
    );

    let mut ray = Rayleigh::new(ebno, rate, 1, 0x2222);
    let ray_sigma = ray.sigma() as f64;
    let ray_hard: Vec<u8> = ray
        .transmit(&bits)
        .iter()
        .map(|&l| u8::from(l < 0.0))
        .collect();
    let ray_ber = Awgn::bit_error_rate(&ray_hard, &bits);
    let gamma_b = 1.0 / (2.0 * ray_sigma * ray_sigma);
    let ray_theory = 0.5 * (1.0 - (gamma_b / (1.0 + gamma_b)).sqrt());
    assert!(
        (ray_ber - ray_theory).abs() / ray_theory < 0.05,
        "Rayleigh BER {ray_ber:.5} differs from the closed form {ray_theory:.5} by more than 5%",
    );

    assert!(
        ray_ber > awgn_ber * 3.0,
        "Rayleigh BER {ray_ber:.5} should be far worse than AWGN {awgn_ber:.5} \
         at the same average Eb/N0",
    );
}

#[test]
fn rayleigh_is_deterministic_for_a_given_seed() {
    let bits: Vec<u8> = (0..500).map(|i| (i % 5 == 0) as u8).collect();
    let a = Rayleigh::new(4.0, 0.5, 12, 31337).transmit(&bits);
    let b = Rayleigh::new(4.0, 0.5, 12, 31337).transmit(&bits);
    assert_eq!(a, b);
    let c = Rayleigh::new(4.0, 0.5, 12, 31338).transmit(&bits);
    assert_ne!(a, c, "different seeds must give different fading");
}

#[test]
fn rayleigh_handles_a_ragged_final_block() {
    let mut ch = Rayleigh::new(5.0, 0.5, 10, 77);
    let (llrs, gains) = ch.transmit_with_gains(&[0u8; 25]);
    assert_eq!(llrs.len(), 25);
    assert_eq!(gains.len(), 3);
}

#[test]
fn all_zero_bits_no_noise_all_positive() {
    let ch = Awgn::new(30.0, 0.5, 42);
    let bits = vec![0u8; 1000];
    let llrs = ch.transmit_noiseless(&bits);
    assert_eq!(llrs.len(), 1000);
    for (i, &l) in llrs.iter().enumerate() {
        assert!(
            l > 0.0,
            "LLR at index {i} was {l} — expected positive for bit 0"
        );
    }
}

#[test]
fn ber_decreases_with_snr() {
    let n = 1000;
    let original: Vec<u8> = (0..n).map(|i| (i % 2) as u8).collect();

    let code_rate = 0.5_f32;

    let mut ch_low = Awgn::new(0.0, code_rate, 1234);
    let llrs_low = ch_low.transmit(&original);
    let decoded_low: Vec<u8> = llrs_low
        .iter()
        .map(|&l| if l >= 0.0 { 0 } else { 1 })
        .collect();
    let ber_low = Awgn::bit_error_rate(&decoded_low, &original);

    let mut ch_high = Awgn::new(10.0, code_rate, 1234);
    let llrs_high = ch_high.transmit(&original);
    let decoded_high: Vec<u8> = llrs_high
        .iter()
        .map(|&l| if l >= 0.0 { 0 } else { 1 })
        .collect();
    let ber_high = Awgn::bit_error_rate(&decoded_high, &original);

    assert!(
        ber_high < ber_low,
        "Expected BER at 10 dB ({ber_high:.4}) < BER at 0 dB ({ber_low:.4})"
    );

    assert!(ber_high < 0.10, "BER at 10 dB too high: {ber_high:.4}");
}

#[test]
fn count_errors_zero_on_identical() {
    let bits: Vec<u8> = (0..64).map(|i| (i % 2) as u8).collect();
    assert_eq!(Awgn::count_errors(&bits, &bits), 0);
}

#[test]
fn ber_one_on_fully_inverted() {
    let original = vec![0u8; 100];
    let decoded = vec![1u8; 100];
    let ber = Awgn::bit_error_rate(&decoded, &original);
    assert!((ber - 1.0).abs() < 1e-12);
}

#[test]
fn deterministic_output_same_seed() {
    let bits = vec![0u8, 1, 0, 1, 0, 0, 1, 1];
    let mut ch1 = Awgn::new(5.0, 0.5, 99);
    let mut ch2 = Awgn::new(5.0, 0.5, 99);
    let llrs1 = ch1.transmit(&bits);
    let llrs2 = ch2.transmit(&bits);
    assert_eq!(llrs1, llrs2);
}

#[test]
fn adjacent_seeds_are_not_identical() {
    let bits: Vec<u8> = (0..256).map(|i| (i % 3 == 0) as u8).collect();
    for (a, b) in [(0u64, 1u64), (2, 3), (4, 5), (100, 101), (1_000, 1_001)] {
        let llrs_a = Awgn::new(3.0, 0.5, a).transmit(&bits);
        let llrs_b = Awgn::new(3.0, 0.5, b).transmit(&bits);
        assert_ne!(
            llrs_a, llrs_b,
            "seeds {a} and {b} produced identical noise; the seed-remapping regression is back"
        );
    }
}

#[test]
fn generator_steps_and_draws() {
    assert_eq!(splitmix64(0), 0xE220_A839_7B1D_CDAF);
    let mut state = 1u64;
    let p = next_uniform(&mut state);
    assert_eq!(state, 0x4082_2041);
    assert_eq!(p, 0x3F80_0000);
    let mut state = splitmix64(42);
    for _ in 0..1000 {
        let u = uniform(next_uniform(&mut state));
        assert!((0.0..1.0).contains(&u));
        assert_ne!(state, 0);
    }
}

#[test]
fn no_common_positions_have_no_rate() {
    assert_eq!(AwgnChannel::bit_errors(&[], &[1, 0]), None);
    assert_eq!(AwgnChannel::bit_errors(&[1, 1, 1], &[1, 0]), Some((1, 2)));
}

#[test]
fn fading_channel_keeps_its_parameters() {
    let ch = Rayleigh::new(3.0, 0.5, 32, 7);
    assert_eq!(ch.0.block_len(), 32);
    let ch = Awgn::new(0.0, 0.5, 1);
    assert!((ch.sigma() - 1.0).abs() < 1e-6);
}

#[test]
fn a_channel_sends_on_where_it_stopped() {
    let bits = vec![0u8, 1, 1, 0, 1, 0];
    let whole = Awgn::new(2.0, 0.5, 11).transmit(&bits);
    let mut ch = Awgn::new(2.0, 0.5, 11);
    let mut parts = ch.transmit(&bits[..2]);
    parts.extend(ch.transmit(&bits[2..]));
    assert_eq!(whole, parts);
}
