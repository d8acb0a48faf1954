use eter_prisma::dsp::kernel::{kernel_fft_len, spectrum_bins, KERNEL_MARGIN};

#[test]
fn fft_len_spread_0_3_s_at_48k() {
    // ceil(0.3 * 48000) = 14400 samples, + margin = 16448 -> 32768
    assert_eq!(kernel_fft_len(14400, 1 << 18), 32768);
}

#[test]
fn fft_len_spread_2_s_at_48k() {
    // 96000 + 2048 = 98048 -> 131072
    assert_eq!(kernel_fft_len(96000, 1 << 18), 131072);
}

#[test]
fn fft_len_capped_by_quality_budget() {
    assert_eq!(kernel_fft_len(96000, 1 << 16), 1 << 16);
    assert_eq!(kernel_fft_len(0, 1024), 1024);
    assert_eq!(kernel_fft_len(5, 1), 1);
}

#[test]
fn fft_len_exact_power_of_two_is_kept() {
    // no spread: the margin alone, already a power of two
    assert_eq!(kernel_fft_len(0, 1 << 18), 2048);
    assert_eq!(kernel_fft_len(2048, 1 << 18), 4096);
}

#[test]
fn fft_len_one_past_a_power_of_two_doubles() {
    assert_eq!(kernel_fft_len(1, 1 << 18), 4096);
    assert_eq!(kernel_fft_len(2049, 1 << 18), 8192);
}

#[test]
fn fft_len_is_smallest_power_of_two_that_fits() {
    for spread in [0usize, 1, 100, 2047, 2048, 30000, 100000, 400000] {
        for cap_exp in [0u32, 4, 11, 12, 16, 18, 20] {
            let cap = 1usize << cap_exp;
            let need = spread + KERNEL_MARGIN;
            let n = kernel_fft_len(spread, cap);
            assert!(n.is_power_of_two());
            assert!(n <= cap);
            assert!(n >= need || n == cap);
            assert!(n / 2 < need);
        }
    }
}

#[test]
fn bins_of_real_spectrum() {
    assert_eq!(spectrum_bins(8), 5);
    assert_eq!(spectrum_bins(7), 4);
    assert_eq!(spectrum_bins(0), 1);
    assert_eq!(spectrum_bins(512), 257);
}
