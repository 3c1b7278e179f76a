//! The log that the dashboard keeps: a header, one entry per sample, and a footer with the peaks
//! and averages of the session.

use crate::clock::{
    cut_off, duration_text, fmt_duration, law_moment_is_read, lemma_file_text, reads_moment,
    without_spaces, Stamp, UnixTime,
};
use crate::decimal::{dec, decimal, fixed};
use crate::format::{
    bar, bar_text, fmt_gb, fmt_temp, gb_text, law_bar_length, log_fmt_freq, log_fmt_watts,
    log_freq_text, log_watts_text, temp_text,
};
use crate::ieee::{above, fit, product, whole, Double, Num, Single, Width};
use crate::metrics::{highest_freq, last_or, Metrics, SocInfo};
use crate::peaks::{average, PeakStats};
use crate::report::{
    all_freqs_lines, all_freqs_text, closing_lines, closing_text, fmt_percent, in_percent, is_load,
    law_loads_fit_their_columns, machine_lines, machine_text, memory_lines, memory_text,
    percent_text, percentage, powers_lines, powers_text, temps_lines, temps_text,
};
use crate::text::{
    align_left, align_right, cat, extend, join, joined, law_ends_with_separator, law_replaced,
    left_aligned, replace, replaced, right_aligned, texts,
};
use vstd::arithmetic::power2::*;
use vstd::prelude::*;
use vstd::string::StringExecFns;

verus! {

/// The cells of every bar in the log.
pub const BAR_WIDTH: usize = 20;

/// The name of the log file: chip, model, and the moment the session began.
pub open spec fn file_name_text(soc: SocInfo, now: Stamp) -> Seq<char> {
    replaced(soc.chip_name@, ' ', '_') + "-"@ + soc.mac_model@ + "-"@ + now.file_text() + ".txt"@
}

/// The title of the header, and when and where the log is kept.
pub open spec fn header_opening(path: Seq<char>, now: Stamp) -> Seq<Seq<char>> {
    seq![
        "╔══════════════════════════════════════════════════════════════╗"@,
        "║              INIZIO SESSIONE — macmon log                    ║"@,
        "╚══════════════════════════════════════════════════════════════╝"@,
        Seq::<char>::empty(),
        "  Data/ora inizio  : "@ + now.line_text(),
        "  File di log      : "@ + path,
        "  Intervallo       : segue UI (ms variabili)"@,
        Seq::<char>::empty(),
    ]
}

/// The header, line by line.
pub open spec fn header_text(soc: SocInfo, path: Seq<char>, now: Stamp) -> Seq<Seq<char>> {
    header_opening(path, now) + machine_text(soc, ": "@) + all_freqs_text(soc) + closing_text()
}

/// The load of a cluster, a bar of its frequency, and the frequency against the highest one.
pub open spec fn cluster_line(label: Seq<char>, load: Num, mhz: u32, freqs: Seq<u32>) -> Seq<char> {
    "    "@ + left_aligned(label, 16) + " "@ + percent_text(percentage(load)) + "  "@ + bar_text(
        whole(mhz as nat),
        whole(last_or(freqs, 1) as nat),
        BAR_WIDTH as nat,
    ) + "   "@ + log_freq_text(mhz as nat) + " / "@ + log_freq_text(last_or(freqs, 0) as nat)
}

/// The loads of a sample.
pub open spec fn usage_text(m: Metrics, soc: SocInfo) -> Seq<Seq<char>> {
    let cpu = percentage(m.cpu_usage_pct.num());
    seq![
        "  UTILIZZO"@,
        "    "@ + left_aligned("CPU combinato"@, 16) + " "@ + percent_text(cpu) + "  "@ + bar_text(
            cpu,
            whole(100),
            BAR_WIDTH as nat,
        ),
        Seq::<char>::empty(),
        cluster_line(
            "CPU "@ + soc.ecpu_label@ + "-Core"@,
            m.ecpu_usage.1.num(),
            m.ecpu_usage.0,
            soc.ecpu_freqs@,
        ),
        cluster_line(
            "CPU "@ + soc.pcpu_label@ + "-Core"@,
            m.pcpu_usage.1.num(),
            m.pcpu_usage.0,
            soc.pcpu_freqs@,
        ),
        Seq::<char>::empty(),
        cluster_line("GPU"@, m.gpu_usage.1.num(), m.gpu_usage.0, soc.gpu_freqs@),
        Seq::<char>::empty(),
    ]
}

/// The title of an entry.
pub open spec fn entry_opening(index: nat, now: Stamp) -> Seq<Seq<char>> {
    seq![
        Seq::<char>::empty(),
        Seq::<char>::empty(),
        "─────────────────────────────────────────────────────────────"@,
        "  Campione #"@ + left_aligned(dec(index), 6) + "  "@ + now.sample_text(),
        "─────────────────────────────────────────────────────────────"@,
        Seq::<char>::empty(),
    ]
}

/// An entry, line by line.
pub open spec fn entry_text(m: Metrics, soc: SocInfo, index: nat, now: Stamp) -> Seq<Seq<char>> {
    entry_opening(index, now) + usage_text(m, soc) + powers_text(m, false) + temps_text(m.temp)
        + memory_text(m.memory, 7, BAR_WIDTH as nat)
}

/// The peaks of loads, frequencies and powers. That of the system power is left out where its
/// sensor read nothing.
pub open spec fn power_peaks_text(soc: SocInfo, p: PeakStats) -> Seq<Seq<char>> {
    let load = fit(Width::Single, product(p.cpu_usage.num(), whole(100)));
    let head = seq![
        "  ── PICCHI RILEVATI DURANTE LA SESSIONE ───────────────────────"@,
        "  CPU utilizzo max  : "@ + right_aligned(fixed(load, 1), 5) + "%"@,
        "  "@ + soc.ecpu_label@ + "-Core freq max   : "@ + log_freq_text(p.ecpu_freq as nat),
        "  "@ + soc.pcpu_label@ + "-Core freq max   : "@ + log_freq_text(p.pcpu_freq as nat),
        "  GPU freq max      : "@ + log_freq_text(p.gpu_freq as nat),
        Seq::<char>::empty(),
        "  CPU power max     : "@ + log_watts_text(p.cpu_power.num()),
        "  GPU power max     : "@ + log_watts_text(p.gpu_power.num()),
        "  ANE power max     : "@ + log_watts_text(p.ane_power.num()),
        "  SoC totale max    : "@ + log_watts_text(p.all_power.num()),
    ];
    if above(p.sys_power.num(), whole(0)) {
        head.push("  Sistema max       : "@ + log_watts_text(p.sys_power.num()))
    } else {
        head
    }
}

/// The peaks of temperatures and memory.
pub open spec fn heat_peaks_text(p: PeakStats) -> Seq<Seq<char>> {
    seq![
        Seq::<char>::empty(),
        "  CPU temp max      : "@ + temp_text(p.cpu_temp.num()),
        "  GPU temp max      : "@ + temp_text(p.gpu_temp.num()),
        Seq::<char>::empty(),
        "  RAM max           : "@ + gb_text(p.ram_usage as nat),
        Seq::<char>::empty(),
    ]
}

/// The peaks of a session.
pub open spec fn peaks_text(soc: SocInfo, p: PeakStats) -> Seq<Seq<char>> {
    power_peaks_text(soc, p) + heat_peaks_text(p)
}

/// The averages of a session. That of the system power is left out where its sensor read nothing.
pub open spec fn averages_text(p: PeakStats) -> Seq<Seq<char>> {
    let n = p.count as nat;
    let chip = seq![
        "  ── MEDIE DURANTE LA SESSIONE ─────────────────────────────────"@,
        "  CPU power avg     : "@ + log_watts_text(average(p.sum_cpu_power.num(), n)),
        "  GPU power avg     : "@ + log_watts_text(average(p.sum_gpu_power.num(), n)),
        "  ANE power avg     : "@ + log_watts_text(average(p.sum_ane_power.num(), n)),
        "  SoC totale avg    : "@ + log_watts_text(average(p.sum_all_power.num(), n)),
    ];
    let powers = if above(p.sys_power.num(), whole(0)) {
        chip.push("  Sistema avg       : "@ + log_watts_text(average(p.sum_sys_power.num(), n)))
    } else {
        chip
    };
    powers.push(Seq::<char>::empty())
}

/// The title of the footer, how long the session lasted, and what it took in.
pub open spec fn footer_opening(
    path: Seq<char>,
    samples: nat,
    secs: int,
    now: Stamp,
) -> Seq<Seq<char>> {
    seq![
        Seq::<char>::empty(),
        Seq::<char>::empty(),
        "╔══════════════════════════════════════════════════════════════╗"@,
        "║               FINE SESSIONE — macmon log                    ║"@,
        "╚══════════════════════════════════════════════════════════════╝"@,
        Seq::<char>::empty(),
        "  Data/ora fine     : "@ + now.line_text(),
        "  Durata sessione   : "@ + duration_text(secs),
        "  File di log       : "@ + path,
        "  Intervallo        : segue UI (ms variabili)"@,
        "  Campioni totali   : "@ + dec(samples),
        Seq::<char>::empty(),
    ]
}

/// The footer, line by line; the session lasted `secs` whole seconds.
pub open spec fn footer_text(
    soc: SocInfo,
    path: Seq<char>,
    samples: nat,
    p: PeakStats,
    secs: int,
    now: Stamp,
) -> Seq<Seq<char>> {
    footer_opening(path, samples, secs, now) + machine_text(soc, " : "@) + all_freqs_text(soc)
        + peaks_text(soc, p) + averages_text(p) + closing_text()
}

/// The name of the log file.
pub fn log_file_name(soc: &SocInfo, now: &Stamp) -> (r: String)
    ensures
        r@ == file_name_text(*soc, *now),
{
    let mut r: String = replace(soc.chip_name.as_str(), ' ', '_');
    r.append("-");
    r.append(soc.mac_model.as_str());
    r.append("-");
    r.append(now.file().as_str());
    r.append(".txt");
    r
}

/// The header of a log that is kept at `path` from `now` on.
pub fn log_session_header(soc: &SocInfo, path: &str, now: &Stamp) -> (r: String)
    ensures
        r@ == joined(header_text(*soc, path@, *now), "\n"@),
{
    let mut lines: Vec<String> = vec![
        "╔══════════════════════════════════════════════════════════════╗".to_owned(),
        "║              INIZIO SESSIONE — macmon log                    ║".to_owned(),
        "╚══════════════════════════════════════════════════════════════╝".to_owned(),
        String::new(),
        cat("  Data/ora inizio  : ", now.line().as_str()),
        cat("  File di log      : ", path),
        "  Intervallo       : segue UI (ms variabili)".to_owned(),
        String::new(),
    ];
    assert(texts(lines@) =~= header_opening(path@, *now));
    extend(&mut lines, machine_lines(soc, ": "));
    extend(&mut lines, all_freqs_lines(soc));
    extend(&mut lines, closing_lines());
    join(&lines, "\n")
}

fn fmt_cluster(label: &str, load: Single, mhz: u32, freqs: &Vec<u32>) -> (r: String)
    ensures
        r@ == cluster_line(label@, load.num(), mhz, freqs@),
{
    let highest: Double = Double::from_u64(highest_freq(freqs, 1) as u64);
    let mut r: String = cat("    ", align_left(label, 16).as_str());
    r.append(" ");
    r.append(fmt_percent(in_percent(load)).as_str());
    r.append("  ");
    r.append(bar(Double::from_u64(mhz as u64), highest, BAR_WIDTH).as_str());
    r.append("   ");
    r.append(log_fmt_freq(mhz).as_str());
    r.append(" / ");
    r.append(log_fmt_freq(highest_freq(freqs, 0)).as_str());
    r
}

fn core_label(label: &str) -> (r: String)
    ensures
        r@ == "CPU "@ + label@ + "-Core"@,
{
    let mut r: String = cat("CPU ", label);
    r.append("-Core");
    r
}

fn usage_lines(m: &Metrics, soc: &SocInfo) -> (r: Vec<String>)
    ensures
        texts(r@) == usage_text(*m, *soc),
{
    let cpu: Double = in_percent(m.cpu_usage_pct);
    let mut combined: String = cat("    ", align_left("CPU combinato", 16).as_str());
    combined.append(" ");
    combined.append(fmt_percent(cpu).as_str());
    combined.append("  ");
    combined.append(bar(cpu, Double::from_u64(100), BAR_WIDTH).as_str());
    let ecpu_label: String = core_label(soc.ecpu_label.as_str());
    let pcpu_label: String = core_label(soc.pcpu_label.as_str());
    let r: Vec<String> = vec![
        "  UTILIZZO".to_owned(),
        combined,
        String::new(),
        fmt_cluster(ecpu_label.as_str(), m.ecpu_usage.1, m.ecpu_usage.0, &soc.ecpu_freqs),
        fmt_cluster(pcpu_label.as_str(), m.pcpu_usage.1, m.pcpu_usage.0, &soc.pcpu_freqs),
        String::new(),
        fmt_cluster("GPU", m.gpu_usage.1, m.gpu_usage.0, &soc.gpu_freqs),
        String::new(),
    ];
    assert(texts(r@) =~= usage_text(*m, *soc));
    r
}

/// The entry of the sample `metrics`, the `index`-th of the session, taken at `now`.
pub fn log_build_entry(metrics: &Metrics, soc: &SocInfo, index: u64, now: &Stamp) -> (r: String)
    ensures
        r@ == joined(entry_text(*metrics, *soc, index as nat, *now), "\n"@),
{
    let mut title: String = cat("  Campione #", align_left(decimal(index).as_str(), 6).as_str());
    title.append("  ");
    title.append(now.sample().as_str());
    let mut lines: Vec<String> = vec![
        String::new(),
        String::new(),
        "─────────────────────────────────────────────────────────────".to_owned(),
        title,
        "─────────────────────────────────────────────────────────────".to_owned(),
        String::new(),
    ];
    assert(texts(lines@) =~= entry_opening(index as nat, *now));
    extend(&mut lines, usage_lines(metrics, soc));
    extend(&mut lines, powers_lines(metrics, false));
    extend(&mut lines, temps_lines(&metrics.temp));
    extend(&mut lines, memory_lines(&metrics.memory, 7, BAR_WIDTH));
    join(&lines, "\n")
}

fn peaks_lines(soc: &SocInfo, p: &PeakStats) -> (r: Vec<String>)
    ensures
        texts(r@) == peaks_text(*soc, *p),
{
    let load: Single = p.cpu_usage.times(Single::from_u16(100));
    let mut cpu: String = cat(
        "  CPU utilizzo max  : ",
        align_right(load.fixed(1).as_str(), 5).as_str(),
    );
    cpu.append("%");
    let mut ecpu: String = cat("  ", soc.ecpu_label.as_str());
    ecpu.append("-Core freq max   : ");
    ecpu.append(log_fmt_freq(p.ecpu_freq).as_str());
    let mut pcpu: String = cat("  ", soc.pcpu_label.as_str());
    pcpu.append("-Core freq max   : ");
    pcpu.append(log_fmt_freq(p.pcpu_freq).as_str());
    let mut r: Vec<String> = vec![
        "  ── PICCHI RILEVATI DURANTE LA SESSIONE ───────────────────────".to_owned(),
        cpu,
        ecpu,
        pcpu,
        cat("  GPU freq max      : ", log_fmt_freq(p.gpu_freq).as_str()),
        String::new(),
        cat("  CPU power max     : ", log_fmt_watts(p.cpu_power).as_str()),
        cat("  GPU power max     : ", log_fmt_watts(p.gpu_power).as_str()),
        cat("  ANE power max     : ", log_fmt_watts(p.ane_power).as_str()),
        cat("  SoC totale max    : ", log_fmt_watts(p.all_power).as_str()),
    ];
    if p.sys_power.exceeds(Single::from_u16(0)) {
        r.push(cat("  Sistema max       : ", log_fmt_watts(p.sys_power).as_str()));
    }
    assert(texts(r@) =~= power_peaks_text(*soc, *p));
    let rest: Vec<String> = vec![
        String::new(),
        cat("  CPU temp max      : ", fmt_temp(p.cpu_temp).as_str()),
        cat("  GPU temp max      : ", fmt_temp(p.gpu_temp).as_str()),
        String::new(),
        cat("  RAM max           : ", fmt_gb(p.ram_usage).as_str()),
        String::new(),
    ];
    assert(texts(rest@) =~= heat_peaks_text(*p));
    extend(&mut r, rest);
    r
}

fn averages_lines(p: &PeakStats) -> (r: Vec<String>)
    ensures
        texts(r@) == averages_text(*p),
{
    let mut r: Vec<String> = vec![
        "  ── MEDIE DURANTE LA SESSIONE ─────────────────────────────────".to_owned(),
        cat("  CPU power avg     : ", log_fmt_watts(p.avg_cpu_power()).as_str()),
        cat("  GPU power avg     : ", log_fmt_watts(p.avg_gpu_power()).as_str()),
        cat("  ANE power avg     : ", log_fmt_watts(p.avg_ane_power()).as_str()),
        cat("  SoC totale avg    : ", log_fmt_watts(p.avg_all_power()).as_str()),
    ];
    if p.sys_power.exceeds(Single::from_u16(0)) {
        r.push(cat("  Sistema avg       : ", log_fmt_watts(p.avg_sys_power()).as_str()));
    }
    r.push(String::new());
    assert(texts(r@) =~= averages_text(*p));
    r
}

/// The footer of a session that began at `start` and ends at `end`, which the wall clock shows as
/// `now`.
pub fn log_session_footer(
    soc: &SocInfo,
    path: &str,
    samples: u64,
    peaks: &PeakStats,
    start: &UnixTime,
    end: &UnixTime,
    now: &Stamp,
) -> (r: String)
    ensures
        r@ == joined(
            footer_text(
                *soc,
                path@,
                samples as nat,
                *peaks,
                cut_off(end.total() - start.total()),
                *now,
            ),
            "\n"@,
        ),
{
    let secs: i64 = end.seconds_since(start);
    let mut lines: Vec<String> = vec![
        String::new(),
        String::new(),
        "╔══════════════════════════════════════════════════════════════╗".to_owned(),
        "║               FINE SESSIONE — macmon log                    ║".to_owned(),
        "╚══════════════════════════════════════════════════════════════╝".to_owned(),
        String::new(),
        cat("  Data/ora fine     : ", now.line().as_str()),
        cat("  Durata sessione   : ", fmt_duration(secs).as_str()),
        cat("  File di log       : ", path),
        "  Intervallo        : segue UI (ms variabili)".to_owned(),
        cat("  Campioni totali   : ", decimal(samples).as_str()),
        String::new(),
    ];
    assert(texts(lines@) =~= footer_opening(path@, samples as nat, secs as int, *now));
    extend(&mut lines, machine_lines(soc, " : "));
    extend(&mut lines, all_freqs_lines(soc));
    extend(&mut lines, peaks_lines(soc, peaks));
    extend(&mut lines, averages_lines(peaks));
    extend(&mut lines, closing_lines());
    join(&lines, "\n")
}

/// A file name has no space in it, whatever the chip is called, unless the model has one.
pub proof fn law_file_name_is_clean(soc: SocInfo, now: Stamp)
    requires
        without_spaces(soc.mac_model@),
    ensures
        without_spaces(file_name_text(soc, now)),
{
    reveal_strlit("-");
    reveal_strlit(".txt");
    law_replaced(soc.chip_name@, ' ', '_');
    let chip = replaced(soc.chip_name@, ' ', '_');
    assert forall|i: int| 0 <= i < chip.len() implies #[trigger] chip[i] != ' ' by {
        assert(chip.contains(chip[i]));
    }
    lemma_file_text(now);
}

/// A file name gives away the chip, but for its spaces, the model and the moment.
pub proof fn law_file_name_is_read(soc: SocInfo, now: Stamp)
    requires
        now.wf(),
    ensures
        exists|chip: Seq<char>, t: Seq<char>|
            {
                &&& file_name_text(soc, now) == chip + "-"@ + soc.mac_model@ + "-"@ + t + ".txt"@
                &&& #[trigger] names_chip(chip, soc.chip_name@)
                &&& #[trigger] reads_moment(t, now, "_"@, "-"@)
            },
{
    law_replaced(soc.chip_name@, ' ', '_');
    law_moment_is_read(now);
    assert(names_chip(replaced(soc.chip_name@, ' ', '_'), soc.chip_name@));
}

/// The text is a name with an underscore for each space.
pub open spec fn names_chip(t: Seq<char>, name: Seq<char>) -> bool {
    &&& t.len() == name.len()
    &&& forall|i: int|
        0 <= i < t.len() ==> #[trigger] t[i] == if name[i] == ' ' {
            '_'
        } else {
            name[i]
        }
}

/// Header, entries and footer end with a line break, so that what is put behind them starts on a
/// line of its own.
pub proof fn law_texts_end_their_line(
    soc: SocInfo,
    path: Seq<char>,
    m: Metrics,
    n: nat,
    p: PeakStats,
    secs: int,
    now: Stamp,
)
    ensures
        joined(header_text(soc, path, now), "\n"@).last() == '\n',
        joined(entry_text(m, soc, n, now), "\n"@).last() == '\n',
        joined(footer_text(soc, path, n, p, secs, now), "\n"@).last() == '\n',
{
    reveal_strlit("\n");
    let a = header_text(soc, path, now);
    assert(a.last() == closing_text().last());
    law_ends_with_separator(a, "\n"@);
    let b = entry_text(m, soc, n, now);
    assert(b.last() == memory_text(m.memory, 7, BAR_WIDTH as nat).last());
    law_ends_with_separator(b, "\n"@);
    let c = footer_text(soc, path, n, p, secs, now);
    assert(c.last() == closing_text().last());
    law_ends_with_separator(c, "\n"@);
}

/// Twenty cells in brackets from column 29 on.
pub open spec fn has_bar(line: Seq<char>, value: Num, max: Num) -> bool {
    &&& line.len() >= 51
    &&& line.subrange(29, 51) == bar_text(value, max, BAR_WIDTH as nat)
}

proof fn lemma_bar_column(label: Seq<char>, load: Num, value: Num, max: Num, tail: Seq<char>)
    requires
        label.len() <= 16,
        is_load(load),
    ensures
        has_bar(
            "    "@ + left_aligned(label, 16) + " "@ + percent_text(percentage(load)) + "  "@
                + bar_text(value, max, BAR_WIDTH as nat) + tail,
            value,
            max,
        ),
{
    reveal_strlit("    ");
    reveal_strlit(" ");
    reveal_strlit("  ");
    lemma2_to64_rest();
    law_bar_length(value, max, BAR_WIDTH as nat);
    law_loads_fit_their_columns(load);
    let bar = bar_text(value, max, BAR_WIDTH as nat);
    let head = "    "@ + left_aligned(label, 16) + " "@ + percent_text(percentage(load)) + "  "@;
    assert(head.len() == 29);
    assert((head + bar + tail).subrange(29, 51) =~= bar);
}

proof fn lemma_cluster_column(label: Seq<char>, load: Num, mhz: u32, freqs: Seq<u32>)
    requires
        label.len() <= 16,
        is_load(load),
    ensures
        has_bar(
            cluster_line(label, load, mhz, freqs),
            whole(mhz as nat),
            whole(last_or(freqs, 1) as nat),
        ),
{
    let value = whole(mhz as nat);
    let max = whole(last_or(freqs, 1) as nat);
    let tail = "   "@ + log_freq_text(mhz as nat) + " / "@ + log_freq_text(
        last_or(freqs, 0) as nat,
    );
    lemma_bar_column(label, load, value, max, tail);
    let head = "    "@ + left_aligned(label, 16) + " "@ + percent_text(percentage(load)) + "  "@;
    assert(cluster_line(label, load, mhz, freqs) =~= head + bar_text(value, max, BAR_WIDTH as nat)
        + tail);
}

/// The columns of the load table: where loads are between zero and one and cluster labels have at
/// most seven characters, every bar starts in one column and has twenty cells.
pub proof fn law_bars_are_aligned(m: Metrics, soc: SocInfo)
    requires
        is_load(m.cpu_usage_pct.num()),
        is_load(m.ecpu_usage.1.num()),
        is_load(m.pcpu_usage.1.num()),
        is_load(m.gpu_usage.1.num()),
        soc.ecpu_label@.len() <= 7,
        soc.pcpu_label@.len() <= 7,
    ensures
        ({
            let lines = usage_text(m, soc);
            &&& has_bar(lines[1], percentage(m.cpu_usage_pct.num()), whole(100))
            &&& has_bar(
                lines[3],
                whole(m.ecpu_usage.0 as nat),
                whole(last_or(soc.ecpu_freqs@, 1) as nat),
            )
            &&& has_bar(
                lines[4],
                whole(m.pcpu_usage.0 as nat),
                whole(last_or(soc.pcpu_freqs@, 1) as nat),
            )
            &&& has_bar(
                lines[6],
                whole(m.gpu_usage.0 as nat),
                whole(last_or(soc.gpu_freqs@, 1) as nat),
            )
        }),
{
    reveal_strlit("CPU ");
    reveal_strlit("-Core");
    reveal_strlit("GPU");
    reveal_strlit("CPU combinato");
    let cpu = percentage(m.cpu_usage_pct.num());
    lemma_bar_column("CPU combinato"@, m.cpu_usage_pct.num(), cpu, whole(100), Seq::empty());
    let combined = "    "@ + left_aligned("CPU combinato"@, 16) + " "@ + percent_text(cpu) + "  "@
        + bar_text(cpu, whole(100), BAR_WIDTH as nat);
    assert(combined + Seq::<char>::empty() =~= combined);
    lemma_cluster_column(
        "CPU "@ + soc.ecpu_label@ + "-Core"@,
        m.ecpu_usage.1.num(),
        m.ecpu_usage.0,
        soc.ecpu_freqs@,
    );
    lemma_cluster_column(
        "CPU "@ + soc.pcpu_label@ + "-Core"@,
        m.pcpu_usage.1.num(),
        m.pcpu_usage.0,
        soc.pcpu_freqs@,
    );
    lemma_cluster_column("GPU"@, m.gpu_usage.1.num(), m.gpu_usage.0, soc.gpu_freqs@);
}

} // verus!
