use anemoi::runtime::metrics::{parse_llama_swap_memory_metrics, parse_sample_line, parse_whole_bytes};


/// The real four-line sample as captured from a llama-swap instance: the
/// two host-RAM samples plus one per-GPU used/total pair in scientific
/// notation. Expected MB values are `bytes / 1024 / 1024` (integer
/// division, as in `bytes_to_mb`):
/// - 101195972608 -> 96508
/// - 59613642752  -> 56852
/// - 20699938816  -> 19741
/// - 21469593600  -> 20475
#[test]
fn real_four_line_sample_parses_to_expected_mb() {
    let text = "llamaswap_memory_total_bytes 101195972608
llamaswap_memory_used_bytes 59613642752
llamaswap_gpu_memory_used_bytes{id=\"0\",name=\"NVIDIA RTX 4000 Ada Generation\",uuid=\"GPU-bae34a68\"} 2.0699938816e+10
llamaswap_gpu_memory_total_bytes{id=\"0\",name=\"NVIDIA RTX 4000 Ada Generation\",uuid=\"GPU-bae34a68\"} 2.14695936e+10";

    let snap = parse_llama_swap_memory_metrics(text);

    assert_eq!(snap.ram_total_mb, Some(96508), "ram_total_mb");
    assert_eq!(snap.ram_used_mb, Some(56852), "ram_used_mb");
    assert_eq!(snap.vram_total_mb, Some(20475), "vram_total_mb");
    assert_eq!(snap.vram_used_mb, Some(19741), "vram_used_mb");
}

/// The GPU samples in the real sample use scientific notation. If the
/// parser dropped non-integer values, these would be `None` and the
/// scheduler would see "no VRAM data" instead of ~20 GB on the card.
#[test]
fn scientific_notation_gpu_samples_are_not_dropped() {
    let text = "llamaswap_gpu_memory_used_bytes{id=\"0\"} 2.0699938816e+10
llamaswap_gpu_memory_total_bytes{id=\"0\"} 2.14695936e+10";

    let snap = parse_llama_swap_memory_metrics(text);

    assert_eq!(snap.vram_used_mb, Some(19741), "vram_used_mb");
    assert_eq!(snap.vram_total_mb, Some(20475), "vram_total_mb");
}

/// Two GPUs (`id=\"0\"` and `id=\"1\"`) must sum across devices, not have
/// the later device overwrite the earlier one.
#[test]
fn two_gpu_devices_sum_rather_than_overwrite() {
    let text = "llamaswap_gpu_memory_used_bytes{id=\"0\"} 1073741824
llamaswap_gpu_memory_used_bytes{id=\"1\"} 1073741824
llamaswap_gpu_memory_total_bytes{id=\"0\"} 2147483648
llamaswap_gpu_memory_total_bytes{id=\"1\"} 2147483648";

    let snap = parse_llama_swap_memory_metrics(text);

    // 1 GiB + 1 GiB = 2048 MB used; 2 GiB + 2 GiB = 4096 MB total.
    assert_eq!(snap.vram_used_mb, Some(2048), "vram_used_mb");
    assert_eq!(snap.vram_total_mb, Some(4096), "vram_total_mb");
}

/// A metric that is absent maps to `None`, never `Some(0)`. A zero would
/// read to the scheduler as "0 MB used", which is a lie it would act on.
#[test]
fn absent_metrics_yield_none_never_some_zero() {
    let snap = parse_llama_swap_memory_metrics("");

    assert_eq!(snap.vram_total_mb, None, "empty input: vram_total_mb");
    assert_eq!(snap.vram_used_mb, None, "empty input: vram_used_mb");
    assert_eq!(snap.ram_total_mb, None, "empty input: ram_total_mb");
    assert_eq!(snap.ram_used_mb, None, "empty input: ram_used_mb");

    // A lone total (no matching used) is an incomplete pair: the whole
    // pair reads `None` — never a bare `Some(total)` with no used, which
    // pressure.rs would read as 0% used, and never a leaked `Some(0)`.
    let snap = parse_llama_swap_memory_metrics("llamaswap_memory_total_bytes 104857600\n");
    assert_eq!(
        snap.ram_total_mb, None,
        "lone total: incomplete pair is unknown"
    );
    assert_eq!(snap.ram_used_mb, None, "ram_used absent");
    assert_eq!(snap.vram_total_mb, None, "vram_total absent");
    assert_eq!(snap.vram_used_mb, None, "vram_used absent");
}

/// `#` HELP/TYPE comment lines and unrelated metric lines are ignored.
#[test]
fn comments_and_unrelated_metrics_are_ignored() {
    let text = "# HELP llamaswap_memory_total_bytes Total system memory in bytes.
# TYPE llamaswap_memory_total_bytes gauge
some_other_metric 42
llamaswap_unrelated_metric 999
llamaswap_memory_total_bytes 209715200
llamaswap_memory_used_bytes 104857600";

    let snap = parse_llama_swap_memory_metrics(text);

    // The complete RAM pair parses through the comments and unrelated
    // lines; nothing spurious is invented.
    assert_eq!(
        snap.ram_used_mb,
        Some(100),
        "unrelated lines do not disturb a complete pair"
    );
    assert_eq!(
        snap.ram_total_mb,
        Some(200),
        "unrelated lines do not disturb a complete pair"
    );
    assert_eq!(snap.vram_total_mb, None);
    assert_eq!(snap.vram_used_mb, None);
}

/// A malformed value is skipped rather than panicking; because the
/// malformed used leaves its pair incomplete, the whole RAM pair reads
/// `None`. A well-formed complete pair on other lines is still parsed.
#[test]
fn malformed_value_is_skipped_not_panicked() {
    let text = "llamaswap_memory_used_bytes not_a_number
llamaswap_memory_total_bytes 104857600
llamaswap_gpu_memory_total_bytes{id=\"0\"} 2147483648
llamaswap_gpu_memory_used_bytes{id=\"0\"} 1073741824";

    let snap = parse_llama_swap_memory_metrics(text);

    assert_eq!(
        snap.ram_used_mb, None,
        "malformed sample is skipped, leaving the pair incomplete"
    );
    assert_eq!(
        snap.ram_total_mb, None,
        "incomplete RAM pair is unknown, not a bare total"
    );
    assert_eq!(
        snap.vram_total_mb,
        Some(2048),
        "a well-formed complete pair on other lines still parses"
    );
    assert_eq!(
        snap.vram_used_mb,
        Some(1024),
        "a well-formed complete pair on other lines still parses"
    );
}

/// A finite value at or above 2^64 must be rejected, not saturated:
/// `f64 as u64` turns `1e30` into `u64::MAX` (17592186044415 MB of
/// fabricated capacity). The line is now skipped, exactly like a
/// negative or non-finite one, so the metric stays `None` (unknown).
#[test]
fn value_at_or_above_2_pow_64_yields_none_not_u64_max() {
    let text = "llamaswap_memory_total_bytes 1e30
llamaswap_memory_used_bytes 18446744073709551616
llamaswap_gpu_memory_total_bytes{id=\"0\"} 1.8446744073709552e+19";

    let snap = parse_llama_swap_memory_metrics(text);

    assert_eq!(
        snap.ram_total_mb, None,
        "1e30 (>= 2^64) is unknown, not saturated"
    );
    assert_eq!(
        snap.ram_used_mb, None,
        "exact 2^64 is unknown, not saturated"
    );
    assert_eq!(
        snap.vram_total_mb, None,
        "scientific-notation 2^64 is unknown, not saturated"
    );

    // Explicitly not the saturated u64::MAX rendered in megabytes.
    let saturated_mb = u64::MAX / 1024 / 1024;
    assert_ne!(snap.ram_total_mb, Some(saturated_mb));
    assert_ne!(snap.ram_used_mb, Some(saturated_mb));
    assert_ne!(snap.vram_total_mb, Some(saturated_mb));
}

/// Two GPU samples whose cross-device sum exceeds u64::MAX leave the
/// total field `None` (unknown) rather than panicking (debug) or
/// wrapping (release). A later sample cannot undo the overflow. Because
/// a total/used pair is all-or-nothing, the overflowed total also blanks
/// the independently-summed used counter for that same pair.
///
/// Values chosen: `18446744073709549568` is the largest `f64` strictly
/// below 2^64 (f64 spacing there is 2^11), and `2048` (= 2^11) is the
/// smallest value that pushes their sum past `u64::MAX`. Each sample is
/// individually in range and exactly representable, so only the *sum*
/// overflows.
#[test]
fn gpu_sum_overflow_yields_none_rather_than_panic_or_wrap() {
    let text = "llamaswap_gpu_memory_total_bytes{id=\"0\"} 18446744073709549568
llamaswap_gpu_memory_total_bytes{id=\"1\"} 2048
llamaswap_gpu_memory_total_bytes{id=\"2\"} 1048576
llamaswap_gpu_memory_used_bytes{id=\"0\"} 1048576
llamaswap_gpu_memory_used_bytes{id=\"1\"} 1048576";

    let snap = parse_llama_swap_memory_metrics(text);

    assert_eq!(
        snap.vram_total_mb, None,
        "sum past u64::MAX is unknown: no panic, no wrap, no sticky repair"
    );
    assert_eq!(
        snap.vram_used_mb, None,
        "all-or-nothing pair: the overflowed total also blanks the used counter"
    );
}

/// Defect 1: a present total with an absent used must blank the whole
/// pair, not leave a bare total that pressure.rs would read as 0% used.
#[test]
fn total_present_used_missing_blanks_whole_pair() {
    let snap = parse_llama_swap_memory_metrics(
        "llamaswap_gpu_memory_total_bytes{id=\"0\"} 2147483648",
    );

    assert_eq!(
        snap.vram_total_mb, None,
        "a total with no used must not stand alone"
    );
    assert_eq!(
        snap.vram_used_mb, None,
        "the pair is unknown, not a fabricated 0% used"
    );
}

/// Defect 1: a malformed used is rejected; the pair is then incomplete,
/// so both VRAM fields read `None`.
#[test]
fn total_present_used_malformed_blanks_whole_pair() {
    let snap = parse_llama_swap_memory_metrics(
        "llamaswap_gpu_memory_total_bytes{id=\"0\"} 2147483648
llamaswap_gpu_memory_used_bytes{id=\"0\"} not_a_number",
    );

    assert_eq!(
        snap.vram_total_mb, None,
        "malformed used leaves the pair incomplete"
    );
    assert_eq!(snap.vram_used_mb, None, "malformed used is rejected");
}

/// Defect 1: the two pairs are independent. A broken VRAM pair must not
/// discard a valid RAM pair, and vice versa.
#[test]
fn broken_vram_pair_leaves_valid_ram_pair_intact() {
    let text = "llamaswap_gpu_memory_total_bytes{id=\"0\"} 2147483648
llamaswap_memory_total_bytes 1073741824
llamaswap_memory_used_bytes 536870912";

    let snap = parse_llama_swap_memory_metrics(text);

    // VRAM pair: total present, used absent -> both None.
    assert_eq!(snap.vram_total_mb, None, "broken VRAM pair: total");
    assert_eq!(snap.vram_used_mb, None, "broken VRAM pair: used");
    // RAM pair: complete -> both parse, independent of the broken VRAM pair.
    assert_eq!(
        snap.ram_total_mb,
        Some(1024),
        "valid RAM pair survives a broken VRAM pair"
    );
    assert_eq!(
        snap.ram_used_mb,
        Some(512),
        "valid RAM pair survives a broken VRAM pair"
    );
}

/// Defect 1: fully valid input still parses to the same values as before.
#[test]
fn fully_valid_input_parses_to_same_values() {
    let text = "llamaswap_memory_total_bytes 101195972608
llamaswap_memory_used_bytes 59613642752
llamaswap_gpu_memory_used_bytes{id=\"0\"} 2.0699938816e+10
llamaswap_gpu_memory_total_bytes{id=\"0\"} 2.14695936e+10";

    let snap = parse_llama_swap_memory_metrics(text);

    assert_eq!(snap.ram_total_mb, Some(96508), "ram_total_mb");
    assert_eq!(snap.ram_used_mb, Some(56852), "ram_used_mb");
    assert_eq!(snap.vram_total_mb, Some(20475), "vram_total_mb");
    assert_eq!(snap.vram_used_mb, Some(19741), "vram_used_mb");
}

/// Per-device pairing: two devices, both halves present for each. The
/// total and used sets are identical ({"0","1"}), so both sums pass and
/// aggregate across devices exactly as before this fix.
#[test]
fn two_devices_both_halves_present_sum_across_devices() {
    let text = "llamaswap_gpu_memory_total_bytes{id=\"0\"} 2147483648
llamaswap_gpu_memory_total_bytes{id=\"1\"} 2147483648
llamaswap_gpu_memory_used_bytes{id=\"0\"} 1073741824
llamaswap_gpu_memory_used_bytes{id=\"1\"} 1073741824";

    let snap = parse_llama_swap_memory_metrics(text);

    // 2 GiB + 2 GiB = 4096 MB total; 1 GiB + 1 GiB = 2048 MB used.
    assert_eq!(
        snap.vram_total_mb,
        Some(4096),
        "both devices complete: totals sum across devices"
    );
    assert_eq!(
        snap.vram_used_mb,
        Some(2048),
        "both devices complete: used sums across devices"
    );
}

/// The defect: two devices, device 1's used sample missing. Previously the
/// aggregate check saw total = 4 GiB (both devices) and used = 1 GiB
/// (device 0 only), both `Some`, and reported the full capacity of both
/// cards against the usage of one — 25% pressure where reality is 50% on
/// the only card whose usage is even known. Now the total set {"0","1"}
/// differs from the used set {"0"}, so the whole VRAM pair reads `None`:
/// unknown, never a full total against a partial used.
#[test]
fn device_missing_used_blanks_the_pair_not_partial_used() {
    let text = "llamaswap_gpu_memory_total_bytes{id=\"0\"} 2147483648
llamaswap_gpu_memory_total_bytes{id=\"1\"} 2147483648
llamaswap_gpu_memory_used_bytes{id=\"0\"} 1073741824";

    let snap = parse_llama_swap_memory_metrics(text);

    assert_eq!(
        snap.vram_total_mb, None,
        "device 1 reported a total but no used: the total and used device sets \
         differ, so the whole pair is unknown — never 4096 MB total against \
         1024 MB used, which reads 25% pressure instead of 50%"
    );
    assert_eq!(
        snap.vram_used_mb, None,
        "the partial used (device 0 only) must not stand against the full total"
    );
}

/// Same as the missing case, but device 1's used sample is malformed
/// (`not_a_number`): the line is skipped, so again only device 0 is in the
/// used set while both devices are in the total set, and the pair blanks.
#[test]
fn device_malformed_used_blanks_the_pair() {
    let text = "llamaswap_gpu_memory_total_bytes{id=\"0\"} 2147483648
llamaswap_gpu_memory_total_bytes{id=\"1\"} 2147483648
llamaswap_gpu_memory_used_bytes{id=\"0\"} 1073741824
llamaswap_gpu_memory_used_bytes{id=\"1\"} not_a_number";

    let snap = parse_llama_swap_memory_metrics(text);

    assert_eq!(
        snap.vram_total_mb, None,
        "malformed device-1 used is rejected, so the total and used device sets \
         differ and the pair is unknown — never the full total against one \
         device's used"
    );
    assert_eq!(
        snap.vram_used_mb, None,
        "a partial used set must not stand against the full total set"
    );
}

/// A GPU sample whose `id` label is absent joins no device bucket: it is
/// skipped entirely, so it cannot corrupt the other device's figures.
/// Here device 0 reports both halves and the unlabeled total is discarded
/// — device 0's numbers come through unchanged.
#[test]
fn gpu_sample_without_id_label_joins_no_device() {
    let text = "llamaswap_gpu_memory_total_bytes 999999999
llamaswap_gpu_memory_total_bytes{id=\"0\"} 2147483648
llamaswap_gpu_memory_used_bytes{id=\"0\"} 1073741824";

    let snap = parse_llama_swap_memory_metrics(text);

    assert_eq!(
        snap.vram_total_mb,
        Some(2048),
        "unlabeled GPU total joins no device bucket; device 0's total stands alone"
    );
    assert_eq!(
        snap.vram_used_mb,
        Some(1024),
        "device 0's used is untouched by the unlabeled sample"
    );

    // Same, with the unlabeled sample on the used side.
    let text = "llamaswap_gpu_memory_total_bytes{id=\"0\"} 2147483648
llamaswap_gpu_memory_used_bytes 999999999
llamaswap_gpu_memory_used_bytes{id=\"0\"} 1073741824";

    let snap = parse_llama_swap_memory_metrics(text);

    assert_eq!(
        snap.vram_total_mb,
        Some(2048),
        "unlabeled GPU used joins no device bucket; device 0's total stands alone"
    );
    assert_eq!(
        snap.vram_used_mb,
        Some(1024),
        "device 0's used is untouched by the unlabeled sample"
    );
}

/// Single device with both halves present: unchanged from today's
/// behavior — the pair parses to exactly the reported values.
#[test]
fn single_device_both_halves_unchanged() {
    let text = "llamaswap_gpu_memory_used_bytes{id=\"0\"} 2.0699938816e+10
llamaswap_gpu_memory_total_bytes{id=\"0\"} 2.14695936e+10";

    let snap = parse_llama_swap_memory_metrics(text);

    assert_eq!(
        snap.vram_used_mb,
        Some(19741),
        "single complete device: used unchanged from pre-fix behavior"
    );
    assert_eq!(
        snap.vram_total_mb,
        Some(20475),
        "single complete device: total unchanged from pre-fix behavior"
    );
}

/// The pairs are independent at every level: a VRAM pair broken by a
/// missing device half must not discard a complete host-RAM pair.
#[test]
fn incomplete_gpu_pair_leaves_host_ram_pair_intact() {
    let text = "llamaswap_memory_total_bytes 1073741824
llamaswap_memory_used_bytes 536870912
llamaswap_gpu_memory_total_bytes{id=\"0\"} 2147483648
llamaswap_gpu_memory_total_bytes{id=\"1\"} 2147483648
llamaswap_gpu_memory_used_bytes{id=\"0\"} 1073741824";

    let snap = parse_llama_swap_memory_metrics(text);

    // VRAM: total set {0,1} vs used set {0} -> pair blanked.
    assert_eq!(
        snap.vram_total_mb, None,
        "device-mismatched VRAM pair: total"
    );
    assert_eq!(snap.vram_used_mb, None, "device-mismatched VRAM pair: used");
    // RAM: unlabeled, complete -> parses independently of the broken VRAM.
    assert_eq!(
        snap.ram_total_mb,
        Some(1024),
        "complete host-RAM pair survives an incomplete GPU pair"
    );
    assert_eq!(
        snap.ram_used_mb,
        Some(512),
        "complete host-RAM pair survives an incomplete GPU pair"
    );
}
/// The defect this rewrite fixes: two totals for `id="0"` and one used
/// for `id="0"`. Sets deduplicate while sums do not, so a set-equality
/// check alone sees {0} == {0} and a running sum sees 4 GiB against 1
/// GiB — a doubled total that reads 25% pressure instead of 50%. The
/// duplicated key blanks the whole pair: unknown, never the doubled
/// total against a single used.
#[test]
fn duplicate_gpu_total_blanks_the_pair_not_a_doubled_total() {
    let text = "llamaswap_gpu_memory_total_bytes{id=\"0\"} 2147483648
llamaswap_gpu_memory_total_bytes{id=\"0\"} 2147483648
llamaswap_gpu_memory_used_bytes{id=\"0\"} 1073741824";

    let snap = parse_llama_swap_memory_metrics(text);

    assert_eq!(
        snap.vram_total_mb, None,
        "two totals for id=0: the duplicated key blanks the pair"
    );
    assert_eq!(
        snap.vram_used_mb, None,
        "the single used must not stand against a doubled total"
    );
    // Specifically not the doubled total (4096 MB) against the single
    // used (1024 MB), which would read 25% pressure instead of 50%.
    assert_ne!(snap.vram_total_mb, Some(4096));
    assert_ne!(snap.vram_used_mb, Some(1024));
}

/// A duplicated host-RAM total is a second, contradictory reading of the
/// same unlabeled gauge: the pair is unknown, never the last-written
/// value standing against a used that was never contradicted.
#[test]
fn duplicate_host_ram_total_blanks_the_pair() {
    let text = "llamaswap_memory_total_bytes 1073741824
llamaswap_memory_total_bytes 2147483648
llamaswap_memory_used_bytes 536870912";

    let snap = parse_llama_swap_memory_metrics(text);

    assert_eq!(
        snap.ram_total_mb, None,
        "duplicated total: neither reading is trusted"
    );
    assert_eq!(
        snap.ram_used_mb, None,
        "all-or-nothing: a contradicted pair blanks both fields"
    );
}

/// The pairs stay independent even under duplication: a VRAM pair blanked
/// by a duplicated total must not discard a complete host-RAM pair.
#[test]
fn duplicate_vram_sample_leaves_valid_ram_pair_intact() {
    let text = "llamaswap_memory_total_bytes 1073741824
llamaswap_memory_used_bytes 536870912
llamaswap_gpu_memory_total_bytes{id=\"0\"} 2147483648
llamaswap_gpu_memory_total_bytes{id=\"0\"} 2147483648
llamaswap_gpu_memory_used_bytes{id=\"0\"} 1073741824";

    let snap = parse_llama_swap_memory_metrics(text);

    assert_eq!(
        snap.vram_total_mb, None,
        "duplicated VRAM total: pair blanked"
    );
    assert_eq!(
        snap.vram_used_mb, None,
        "duplicated VRAM total: pair blanked"
    );
    assert_eq!(
        snap.ram_total_mb,
        Some(1024),
        "complete host-RAM pair survives a duplicated VRAM sample"
    );
    assert_eq!(
        snap.ram_used_mb,
        Some(512),
        "complete host-RAM pair survives a duplicated VRAM sample"
    );
}

/// What std's `f64` reading of a sample value keeps: a finite, whole value
/// in `[0, 2^64)`.
fn f64_whole(tok: &str) -> Option<u64> {
    let v = tok.parse::<f64>().ok()?;
    if !v.is_finite() || v.fract() != 0.0 || !(0.0..18_446_744_073_709_551_616.0).contains(&v) {
        return None;
    }
    Some(v as u64)
}

fn whole(tok: &str) -> Option<u64> {
    parse_whole_bytes(&tok.chars().collect())
}

#[test]
fn sample_values_read_as_the_nearest_binary64_value() {
    let cases = [
        "0", "-0", "+7", "42", "2.0699938816e+10", "2.14695936e+10", "1e-400", "-1e-400", "-1",
        "2.5", "0.5", "1.0000000000000001", "0.99999999999999999", "0.9999999999999999",
        "9007199254740993", "9007199254740995", "4503599627370495.5", "4503599627370496.5",
        "18446744073709550591", "18446744073709550592", "18446744073709551615",
        "18446744073709551616", "1e19", "1.8446744073709550e19", "1e30", "NaN", "inf", "1e", ".5e1",
        "5.", "123.000", "2.4703282292062327e-324", "2.4703282292062328e-324", "4.9e-324", "1e-323",
        "0.000000000000000000000000000000000000000000000000001e51", "12345678901234567890",
        "1e-0000000000000000000000000000000000000000000000000000000000000001", "3e0000000000000000000000000000000000000005",
    ];
    for tok in cases {
        assert_eq!(whole(tok), f64_whole(tok), "{tok}");
    }
}

#[test]
fn value_that_rounds_to_two_pow_64_is_rejected() {
    assert_eq!(whole("18446744073709551615"), None);
    assert_eq!(whole("18446744073709550591"), Some(18_446_744_073_709_549_568));
    assert_eq!(whole("1e-400"), Some(0));
    assert_eq!(whole("9007199254740993"), Some(9_007_199_254_740_992));
    assert_eq!(whole("0.99999999999999999"), Some(1));
    let line: Vec<char> = "llamaswap_gpu_memory_total_bytes{id=\"0\"} 18446744073709551615".chars().collect();
    assert!(parse_sample_line(&line).is_none());
}

#[test]
fn device_whose_total_rounds_to_two_pow_64_is_left_unpaired() {
    let text = "llamaswap_gpu_memory_total_bytes{id=\"0\"} 18446744073709551615
llamaswap_gpu_memory_used_bytes{id=\"0\"} 1048576";
    let snap = parse_llama_swap_memory_metrics(text);
    assert_eq!(snap.vram_total_mb, None);
    assert_eq!(snap.vram_used_mb, None);
}

#[test]
fn each_pair_ignores_the_other_kind_of_line() {
    let ram = "llamaswap_memory_total_bytes 2097152\nllamaswap_memory_used_bytes 1048576";
    let mixed = "# HELP llamaswap_memory_total_bytes host memory
llamaswap_memory_total_bytes 2097152
llamaswap_gpu_memory_total_bytes{id=\"0\"} 4194304
unrelated_metric 12
llamaswap_memory_used_bytes 1048576";
    let a = parse_llama_swap_memory_metrics(ram);
    let b = parse_llama_swap_memory_metrics(mixed);
    assert_eq!((a.ram_total_mb, a.ram_used_mb), (Some(2), Some(1)));
    assert_eq!((b.ram_total_mb, b.ram_used_mb), (a.ram_total_mb, a.ram_used_mb));
    assert_eq!((b.vram_total_mb, b.vram_used_mb), (None, None));
}
