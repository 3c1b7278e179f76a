//! The log that the `log` command keeps: a header, then one entry and one summary per sample.

use crate::clock::Stamp;
use crate::decimal::{dec, decimal, fixed};
use crate::format::{bar, bar_text, fmt_freq, fmt_temp, freq_text, temp_text};
use crate::ieee::{fit, product, whole, Double, Num, Single, Width};
use crate::metrics::{first_or, highest_freq, last_or, lowest_freq, Metrics, SocInfo};
use crate::report::{
    closing_lines, closing_text, fmt_percent, in_percent, machine_lines, machine_text,
    memory_lines, memory_text, percent_text, percentage, powers_lines, powers_text, temps_lines,
    temps_text,
};
use crate::text::{
    align_left, align_right, cat, extend, fill_zeros, join, joined, law_ends_with_separator,
    left_aligned, right_aligned, texts, zero_filled,
};
use vstd::prelude::*;
use vstd::string::StringExecFns;

verus! {

/// How long a sample of the `log` command takes, in milliseconds.
pub const SAMPLE_INTERVAL: u32 = 250;

/// The lowest and the highest frequency.
pub open spec fn range_text(freqs: Seq<u32>) -> Seq<char> {
    dec(first_or(freqs, 0) as nat) + " – "@ + dec(last_or(freqs, 0) as nat) + " MHz"@
}

/// The frequency ranges of the machine.
pub open spec fn ranges_text(soc: SocInfo) -> Seq<Seq<char>> {
    seq![
        "  ── RANGE FREQUENZE DISPONIBILI ───────────────────────────────"@,
        "  "@ + soc.ecpu_label@ + "-Core           : "@ + range_text(soc.ecpu_freqs@),
        "  "@ + soc.pcpu_label@ + "-Core           : "@ + range_text(soc.pcpu_freqs@),
        "  GPU              : "@ + range_text(soc.gpu_freqs@),
        Seq::<char>::empty(),
    ]
}

/// The title of the header, and when and where the log is kept.
pub open spec fn header_opening(path: Seq<char>, now: Stamp) -> Seq<Seq<char>> {
    seq![
        "╔══════════════════════════════════════════════════════════════╗"@,
        "║              INIZIO SESSIONE — macmon log                    ║"@,
        "╚══════════════════════════════════════════════════════════════╝"@,
        Seq::<char>::empty(),
        "  Data/ora inizio  : "@ + now.line_text(),
        "  File di log      : "@ + path,
        "  Intervallo       : 250 ms"@,
        Seq::<char>::empty(),
    ]
}

/// The header, line by line.
pub open spec fn header_text(soc: SocInfo, path: Seq<char>, now: Stamp) -> Seq<Seq<char>> {
    header_opening(path, now) + machine_text(soc, ": "@) + ranges_text(soc) + closing_text()
}

/// The load of a cluster, a bar of its frequency, and the frequency against the highest one.
pub open spec fn cluster_line(
    label: Seq<char>,
    load: Num,
    mhz: u32,
    freqs: Seq<u32>,
    width: nat,
) -> Seq<char> {
    label + "  "@ + percent_text(percentage(load)) + "  "@ + bar_text(
        whole(mhz as nat),
        whole(last_or(freqs, 1) as nat),
        width,
    ) + "   "@ + freq_text(mhz as nat) + " / "@ + freq_text(last_or(freqs, 0) as nat)
}

/// The loads of a sample.
pub open spec fn usage_text(m: Metrics, soc: SocInfo) -> Seq<Seq<char>> {
    let cpu = percentage(m.cpu_usage_pct.num());
    seq![
        "  CPU  utilizzo combinato  "@ + percent_text(cpu) + "  "@ + bar_text(cpu, whole(100), 20),
        cluster_line(
            "    "@ + soc.ecpu_label@ + "-Core"@,
            m.ecpu_usage.1.num(),
            m.ecpu_usage.0,
            soc.ecpu_freqs@,
            16,
        ),
        cluster_line(
            "    "@ + soc.pcpu_label@ + "-Core"@,
            m.pcpu_usage.1.num(),
            m.pcpu_usage.0,
            soc.pcpu_freqs@,
            16,
        ),
        Seq::<char>::empty(),
        cluster_line("  GPU"@, m.gpu_usage.1.num(), m.gpu_usage.0, soc.gpu_freqs@, 20),
        Seq::<char>::empty(),
    ]
}

/// The title of an entry.
pub open spec fn entry_opening(index: nat, now: Stamp) -> Seq<Seq<char>> {
    seq![
        "─────────────────────────────────────────────────────────────"@,
        "  Campione #"@ + left_aligned(dec(index), 6) + "  "@ + now.sample_text(),
        "─────────────────────────────────────────────────────────────"@,
        Seq::<char>::empty(),
    ]
}

/// An entry, line by line.
pub open spec fn entry_text(m: Metrics, soc: SocInfo, index: nat, now: Stamp) -> Seq<Seq<char>> {
    entry_opening(index, now) + usage_text(m, soc) + powers_text(m, true) + temps_text(m.temp)
        + memory_text(m.memory, 0, 16)
}

/// A load in percent with one decimal, in four columns; the percentage is a `binary32` value.
pub open spec fn short_percent(load: Num) -> Seq<char> {
    right_aligned(fixed(fit(Width::Single, product(load, whole(100))), 1), 4) + "%"@
}

/// A sample in one line.
pub open spec fn summary_text(m: Metrics, soc: SocInfo, index: nat) -> Seq<char> {
    "[#"@ + zero_filled(dec(index), 6) + "] CPU "@ + short_percent(m.cpu_usage_pct.num()) + "  "@
        + soc.ecpu_label@ + "-Core "@ + short_percent(m.ecpu_usage.1.num()) + " "@ + freq_text(
        m.ecpu_usage.0 as nat,
    ) + "  "@ + soc.pcpu_label@ + "-Core "@ + short_percent(m.pcpu_usage.1.num()) + " "@
        + freq_text(m.pcpu_usage.0 as nat) + "  GPU "@ + short_percent(m.gpu_usage.1.num()) + " "@
        + freq_text(m.gpu_usage.0 as nat) + "  "@ + fixed(m.all_power.num(), 2) + "W  CPU "@
        + temp_text(m.temp.cpu_temp_avg.num()) + "/GPU "@ + temp_text(m.temp.gpu_temp_avg.num())
}

/// What the terminal shows before the first sample, line by line.
pub open spec fn intro_text(soc: SocInfo, path: Seq<char>) -> Seq<Seq<char>> {
    seq![
        "╔══════════════════════════════════════════════════════════════╗"@,
        "║               macmon — modalità log                         ║"@,
        "╚══════════════════════════════════════════════════════════════╝"@,
        "  Chip     : "@ + soc.chip_name@,
        "  Model ID : "@ + soc.mac_model@,
        "  Log      : "@ + path,
        "  Campione ogni 250 ms — Ctrl+C per fermare"@,
        Seq::<char>::empty(),
    ]
}

/// What the terminal shows after the last sample.
pub open spec fn outro_text(path: Seq<char>) -> Seq<char> {
    "\nFine sessione. Log salvato in: "@ + path
}

fn fmt_range(freqs: &Vec<u32>) -> (r: String)
    ensures
        r@ == range_text(freqs@),
{
    let mut r: String = decimal(lowest_freq(freqs, 0) as u64);
    r.append(" – ");
    r.append(decimal(highest_freq(freqs, 0) as u64).as_str());
    r.append(" MHz");
    r
}

fn ranges_lines(soc: &SocInfo) -> (r: Vec<String>)
    ensures
        texts(r@) == ranges_text(*soc),
{
    let mut ecpu: String = cat("  ", soc.ecpu_label.as_str());
    ecpu.append("-Core           : ");
    ecpu.append(fmt_range(&soc.ecpu_freqs).as_str());
    let mut pcpu: String = cat("  ", soc.pcpu_label.as_str());
    pcpu.append("-Core           : ");
    pcpu.append(fmt_range(&soc.pcpu_freqs).as_str());
    let r: Vec<String> = vec![
        "  ── RANGE FREQUENZE DISPONIBILI ───────────────────────────────".to_owned(),
        ecpu,
        pcpu,
        cat("  GPU              : ", fmt_range(&soc.gpu_freqs).as_str()),
        String::new(),
    ];
    assert(texts(r@) =~= ranges_text(*soc));
    r
}

/// The header of a log that is kept at `path` from `now` on.
pub fn build_session_header(soc: &SocInfo, path: &str, now: &Stamp) -> (r: String)
    ensures
        r@ == joined(header_text(*soc, path@, *now), "\n"@),
{
    let mut lines: Vec<String> = vec![
        "╔══════════════════════════════════════════════════════════════╗".to_owned(),
        "║              INIZIO SESSIONE — macmon log                    ║".to_owned(),
        "╚══════════════════════════════════════════════════════════════╝".to_owned(),
        String::new(),
        cat("  Data/ora inizio  : ", now.line().as_str()),
        cat("  File di log      : ", path),
        "  Intervallo       : 250 ms".to_owned(),
        String::new(),
    ];
    assert(texts(lines@) =~= header_opening(path@, *now));
    extend(&mut lines, machine_lines(soc, ": "));
    extend(&mut lines, ranges_lines(soc));
    extend(&mut lines, closing_lines());
    join(&lines, "\n")
}

fn fmt_cluster(label: &str, load: Single, mhz: u32, freqs: &Vec<u32>, width: usize) -> (r: String)
    requires
        width < 0x20_0000_0000_0000,
    ensures
        r@ == cluster_line(label@, load.num(), mhz, freqs@, width as nat),
{
    let highest: Double = Double::from_u64(highest_freq(freqs, 1) as u64);
    let mut r: String = cat(label, "  ");
    r.append(fmt_percent(in_percent(load)).as_str());
    r.append("  ");
    r.append(bar(Double::from_u64(mhz as u64), highest, width).as_str());
    r.append("   ");
    r.append(fmt_freq(mhz).as_str());
    r.append(" / ");
    r.append(fmt_freq(highest_freq(freqs, 0)).as_str());
    r
}

fn core_label(label: &str) -> (r: String)
    ensures
        r@ == "    "@ + label@ + "-Core"@,
{
    let mut r: String = cat("    ", label);
    r.append("-Core");
    r
}

fn usage_lines(m: &Metrics, soc: &SocInfo) -> (r: Vec<String>)
    ensures
        texts(r@) == usage_text(*m, *soc),
{
    let cpu: Double = in_percent(m.cpu_usage_pct);
    let mut combined: String = cat("  CPU  utilizzo combinato  ", fmt_percent(cpu).as_str());
    combined.append("  ");
    combined.append(bar(cpu, Double::from_u64(100), 20).as_str());
    let ecpu_label: String = core_label(soc.ecpu_label.as_str());
    let pcpu_label: String = core_label(soc.pcpu_label.as_str());
    let r: Vec<String> = vec![
        combined,
        fmt_cluster(ecpu_label.as_str(), m.ecpu_usage.1, m.ecpu_usage.0, &soc.ecpu_freqs, 16),
        fmt_cluster(pcpu_label.as_str(), m.pcpu_usage.1, m.pcpu_usage.0, &soc.pcpu_freqs, 16),
        String::new(),
        fmt_cluster("  GPU", m.gpu_usage.1, m.gpu_usage.0, &soc.gpu_freqs, 20),
        String::new(),
    ];
    assert(texts(r@) =~= usage_text(*m, *soc));
    r
}

/// The entry of the sample `metrics`, the `index`-th of the session, taken at `now`.
pub fn build_entry(metrics: &Metrics, soc: &SocInfo, index: u64, now: &Stamp) -> (r: String)
    ensures
        r@ == joined(entry_text(*metrics, *soc, index as nat, *now), "\n"@),
{
    let mut title: String = cat("  Campione #", align_left(decimal(index).as_str(), 6).as_str());
    title.append("  ");
    title.append(now.sample().as_str());
    let mut lines: Vec<String> = vec![
        "─────────────────────────────────────────────────────────────".to_owned(),
        title,
        "─────────────────────────────────────────────────────────────".to_owned(),
        String::new(),
    ];
    assert(texts(lines@) =~= entry_opening(index as nat, *now));
    extend(&mut lines, usage_lines(metrics, soc));
    extend(&mut lines, powers_lines(metrics, true));
    extend(&mut lines, temps_lines(&metrics.temp));
    extend(&mut lines, memory_lines(&metrics.memory, 0, 16));
    join(&lines, "\n")
}

fn fmt_short_percent(load: Single) -> (r: String)
    ensures
        r@ == short_percent(load.num()),
{
    let p: Single = load.times(Single::from_u16(100));
    cat(align_right(p.fixed(1).as_str(), 4).as_str(), "%")
}

/// The sample `metrics`, the `index`-th of the session, in one line.
pub fn summary(metrics: &Metrics, soc: &SocInfo, index: u64) -> (r: String)
    ensures
        r@ == summary_text(*metrics, *soc, index as nat),
{
    let mut r: String = cat("[#", fill_zeros(decimal(index).as_str(), 6).as_str());
    r.append("] CPU ");
    r.append(fmt_short_percent(metrics.cpu_usage_pct).as_str());
    r.append("  ");
    r.append(soc.ecpu_label.as_str());
    r.append("-Core ");
    r.append(fmt_short_percent(metrics.ecpu_usage.1).as_str());
    r.append(" ");
    r.append(fmt_freq(metrics.ecpu_usage.0).as_str());
    r.append("  ");
    r.append(soc.pcpu_label.as_str());
    r.append("-Core ");
    r.append(fmt_short_percent(metrics.pcpu_usage.1).as_str());
    r.append(" ");
    r.append(fmt_freq(metrics.pcpu_usage.0).as_str());
    r.append("  GPU ");
    r.append(fmt_short_percent(metrics.gpu_usage.1).as_str());
    r.append(" ");
    r.append(fmt_freq(metrics.gpu_usage.0).as_str());
    r.append("  ");
    r.append(metrics.all_power.fixed(2).as_str());
    r.append("W  CPU ");
    r.append(fmt_temp(metrics.temp.cpu_temp_avg).as_str());
    r.append("/GPU ");
    r.append(fmt_temp(metrics.temp.gpu_temp_avg).as_str());
    r
}

/// What the terminal shows before the first sample.
pub fn intro(soc: &SocInfo, path: &str) -> (r: String)
    ensures
        r@ == joined(intro_text(*soc, path@), "\n"@),
{
    let lines: Vec<String> = vec![
        "╔══════════════════════════════════════════════════════════════╗".to_owned(),
        "║               macmon — modalità log                         ║".to_owned(),
        "╚══════════════════════════════════════════════════════════════╝".to_owned(),
        cat("  Chip     : ", soc.chip_name.as_str()),
        cat("  Model ID : ", soc.mac_model.as_str()),
        cat("  Log      : ", path),
        "  Campione ogni 250 ms — Ctrl+C per fermare".to_owned(),
        String::new(),
    ];
    assert(texts(lines@) =~= intro_text(*soc, path@));
    join(&lines, "\n")
}

/// What the terminal shows after the last sample.
pub fn outro(path: &str) -> (r: String)
    ensures
        r@ == outro_text(path@),
{
    cat("\nFine sessione. Log salvato in: ", path)
}

/// Header and entries end with a line break, so that what is put behind them starts on a line of
/// its own.
pub proof fn law_texts_end_their_line(
    soc: SocInfo,
    path: Seq<char>,
    m: Metrics,
    n: nat,
    now: Stamp,
)
    ensures
        joined(header_text(soc, path, now), "\n"@).last() == '\n',
        joined(entry_text(m, soc, n, now), "\n"@).last() == '\n',
{
    reveal_strlit("\n");
    let a = header_text(soc, path, now);
    assert(a.last() == closing_text().last());
    law_ends_with_separator(a, "\n"@);
    let b = entry_text(m, soc, n, now);
    assert(b.last() == memory_text(m.memory, 0, 16).last());
    law_ends_with_separator(b, "\n"@);
}

} // verus!
