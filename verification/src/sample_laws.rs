//! What can be read from the log of samples and from what the terminal shows beside it.

use crate::clock::Stamp;
use crate::decimal::{dec, fixed};
use crate::format::{bar_text, freq_text, law_bar_is_drawn, law_freq_is_read, temp_text};
use crate::ieee::{fit, product, whole, Num, Width};
use crate::log_laws::{
    highest, holds, is_bar, law_machine_is_read, law_memory_is_read, law_powers_are_read,
    law_temperatures_are_read, lemma_five_parts, lemma_holds, lemma_says_heat, lemma_says_load,
    power_lines, reads_machine, reads_memory, reads_powers, reads_temperatures, says_heat,
    says_load, says_title,
};
use crate::metrics::{Metrics, SocInfo};
use crate::reading::{
    counts, field, fits, is_right, law_count_is_read, law_value_is_read, lemma_quotes, quotes,
    reads, tells, trimmed, without_point,
};
use crate::report::{machine_text, memory_text, percentage, powers_text, temps_text};
use crate::sample_log::{
    cluster_line, entry_opening, entry_text, header_text, intro_text, outro_text,
    range_text, ranges_text, short_percent, summary_text, usage_text,
};
use crate::text::{left_aligned, right_aligned, zero_filled};
use vstd::arithmetic::power2::*;
use vstd::prelude::*;

verus! {

/// The text is a frequency: none for zero, whole megahertz below a gigahertz, and gigahertz with two
/// decimals, right to half a hundredth, from there on.
pub open spec fn reads_freq(t: Seq<char>, mhz: nat) -> bool {
    if mhz == 0 {
        trimmed(t) == seq!['N', '/', 'A']
    } else if mhz < 1000 {
        tells(t, Seq::empty(), mhz as int, " MHz  "@)
    } else {
        let n = trimmed(field(t, Seq::empty(), " GHz"@));
        &&& fits(t, Seq::empty(), " GHz"@)
        &&& exists|v: Num| #[trigger] reads(n, v, 2)
        &&& -5 <= 10 * without_point(n, 2) - mhz <= 5
    }
}

/// The first frequency of a table, or zero where it has none.
pub open spec fn lowest(freqs: Seq<u32>) -> nat {
    if freqs.len() > 0 {
        freqs[0] as nat
    } else {
        0
    }
}

/// The line is a label, and the first and the last frequency of a table.
pub open spec fn says_range(line: Seq<char>, label: Seq<char>, freqs: Seq<u32>) -> bool {
    exists|a: Seq<char>, b: Seq<char>|
        {
            &&& line == label + a + " – "@ + b + " MHz"@
            &&& #[trigger] counts(a, lowest(freqs) as int)
            &&& #[trigger] counts(b, highest(freqs, 0) as int)
            &&& is_right(a, 0)
            &&& is_right(b, 0)
        }
}

/// The line is a label, a load in percent, a bar of the frequency against the highest one, and both
/// frequencies.
pub open spec fn says_core(
    line: Seq<char>,
    label: Seq<char>,
    load: Num,
    mhz: nat,
    freqs: Seq<u32>,
    width: nat,
) -> bool {
    exists|a: Seq<char>, b: Seq<char>, c: Seq<char>, d: Seq<char>|
        {
            &&& line == label + "  "@ + a + "%  "@ + b + "   "@ + c + " / "@ + d
            &&& #[trigger] reads(a, percentage(load), 1)
            &&& is_right(a, 5)
            &&& #[trigger] is_bar(b, whole(mhz), whole(highest(freqs, 1)), width)
            &&& #[trigger] reads_freq(c, mhz)
            &&& #[trigger] reads_freq(d, highest(freqs, 0))
        }
}

proof fn lemma_reads_freq(mhz: nat)
    requires
        mhz <= u32::MAX,
    ensures
        reads_freq(freq_text(mhz), mhz),
{
    law_freq_is_read(mhz);
}

proof fn lemma_says_range(label: Seq<char>, freqs: Seq<u32>)
    ensures
        says_range(label + range_text(freqs), label, freqs),
{
    let a = dec(lowest(freqs));
    let b = dec(highest(freqs, 0));
    law_count_is_read(lowest(freqs), 0);
    law_count_is_read(highest(freqs, 0), 0);
    assert(counts(a, lowest(freqs) as int) && counts(b, highest(freqs, 0) as int));
    assert(label + range_text(freqs) =~= label + a + " – "@ + b + " MHz"@);
}

/// A line of the loads: load, bar and frequencies are those of its cluster.
pub proof fn law_core_is_read(label: Seq<char>, load: Num, mhz: u32, freqs: Seq<u32>, width: nat)
    requires
        width <= 20,
    ensures
        says_core(
            cluster_line(label, load, mhz, freqs, width),
            label,
            load,
            mhz as nat,
            freqs,
            width,
        ),
{
    let x = percentage(load);
    let a = right_aligned(fixed(x, 1), 5);
    let b = bar_text(whole(mhz as nat), whole(highest(freqs, 1)), width);
    let c = freq_text(mhz as nat);
    let d = freq_text(highest(freqs, 0));
    law_value_is_read(x, 1, 5);
    lemma_reads_freq(mhz as nat);
    lemma_reads_freq(highest(freqs, 0));
    lemma2_to64_rest();
    law_bar_is_drawn(whole(mhz as nat), whole(highest(freqs, 1)), width);
    assert(is_bar(b, whole(mhz as nat), whole(highest(freqs, 1)), width));
    assert(reads(a, x, 1) && reads_freq(c, mhz as nat) && reads_freq(d, highest(freqs, 0)));
    reveal_strlit("%");
    reveal_strlit("  ");
    reveal_strlit("%  ");
    assert(cluster_line(label, load, mhz, freqs, width) =~= label + "  "@ + a + "%  "@ + b + "   "@
        + c + " / "@ + d);
}

/// Lines from `at` on: the frequency ranges of the machine.
pub open spec fn reads_ranges(l: Seq<Seq<char>>, at: int, soc: SocInfo) -> bool {
    &&& l[at] == "  ── RANGE FREQUENZE DISPONIBILI ───────────────────────────────"@
    &&& says_range(l[at + 1], "  "@ + soc.ecpu_label@ + "-Core           : "@, soc.ecpu_freqs@)
    &&& says_range(l[at + 2], "  "@ + soc.pcpu_label@ + "-Core           : "@, soc.pcpu_freqs@)
    &&& says_range(l[at + 3], "  GPU              : "@, soc.gpu_freqs@)
    &&& l[at + 4].len() == 0
}

/// The frequency ranges, each on its line.
pub proof fn law_ranges_are_read(l: Seq<Seq<char>>, at: int, soc: SocInfo)
    requires
        holds(l, at, ranges_text(soc)),
    ensures
        ranges_text(soc).len() == 5,
        reads_ranges(l, at, soc),
{
    let t = ranges_text(soc);
    lemma_holds(l, at, t);
    lemma_says_range("  "@ + soc.ecpu_label@ + "-Core           : "@, soc.ecpu_freqs@);
    lemma_says_range("  "@ + soc.pcpu_label@ + "-Core           : "@, soc.pcpu_freqs@);
    lemma_says_range("  GPU              : "@, soc.gpu_freqs@);
    assert(t[0] == l[at + 0] && t[1] == l[at + 1] && t[2] == l[at + 2] && t[3] == l[at + 3]
        && t[4] == l[at + 4]);
}

/// The header of a log of samples: when and where it is kept, the machine, and its frequencies.
pub proof fn law_header_is_read(soc: SocInfo, path: Seq<char>, now: Stamp)
    ensures
        ({
            let l = header_text(soc, path, now);
            &&& l.len() == 22
            &&& l[0] == "╔══════════════════════════════════════════════════════════════╗"@
            &&& l[1] == "║              INIZIO SESSIONE — macmon log                    ║"@
            &&& l[2] == "╚══════════════════════════════════════════════════════════════╝"@
            &&& l[3].len() == 0
            &&& quotes(l[4], "  Data/ora inizio  : "@, now.line_text())
            &&& quotes(l[5], "  File di log      : "@, path)
            &&& l[6] == "  Intervallo       : 250 ms"@
            &&& l[7].len() == 0
            &&& reads_machine(l, 8, soc, ": "@)
            &&& reads_ranges(l, 15, soc)
            &&& l[20] == "═══════════════════════════════════════════════════════════════"@
            &&& l[21].len() == 0
        }),
{
    let l = header_text(soc, path, now);
    lemma_quotes("  Data/ora inizio  : "@, now.line_text());
    lemma_quotes("  File di log      : "@, path);
    assert(l.subrange(8, 15) =~= machine_text(soc, ": "@));
    assert(l.subrange(15, 20) =~= ranges_text(soc));
    law_machine_is_read(l, 8, soc, ": "@);
    law_ranges_are_read(l, 15, soc);
}

/// Lines from `at` on: the loads of a sample.
pub open spec fn reads_cores(l: Seq<Seq<char>>, at: int, m: Metrics, soc: SocInfo) -> bool {
    &&& says_load(l[at], "  CPU  utilizzo combinato  "@, m.cpu_usage_pct.num(), 20)
    &&& says_core(
        l[at + 1],
        "    "@ + soc.ecpu_label@ + "-Core"@,
        m.ecpu_usage.1.num(),
        m.ecpu_usage.0 as nat,
        soc.ecpu_freqs@,
        16,
    )
    &&& says_core(
        l[at + 2],
        "    "@ + soc.pcpu_label@ + "-Core"@,
        m.pcpu_usage.1.num(),
        m.pcpu_usage.0 as nat,
        soc.pcpu_freqs@,
        16,
    )
    &&& l[at + 3].len() == 0
    &&& says_core(
        l[at + 4],
        "  GPU"@,
        m.gpu_usage.1.num(),
        m.gpu_usage.0 as nat,
        soc.gpu_freqs@,
        20,
    )
    &&& l[at + 5].len() == 0
}

/// The loads of a sample, each on its line.
pub proof fn law_cores_are_read(l: Seq<Seq<char>>, at: int, m: Metrics, soc: SocInfo)
    requires
        holds(l, at, usage_text(m, soc)),
    ensures
        usage_text(m, soc).len() == 6,
        reads_cores(l, at, m, soc),
{
    let t = usage_text(m, soc);
    let ecpu = "    "@ + soc.ecpu_label@ + "-Core"@;
    let pcpu = "    "@ + soc.pcpu_label@ + "-Core"@;
    lemma_holds(l, at, t);
    lemma_says_load("  CPU  utilizzo combinato  "@, m.cpu_usage_pct.num(), 20);
    law_core_is_read(ecpu, m.ecpu_usage.1.num(), m.ecpu_usage.0, soc.ecpu_freqs@, 16);
    law_core_is_read(pcpu, m.pcpu_usage.1.num(), m.pcpu_usage.0, soc.pcpu_freqs@, 16);
    law_core_is_read("  GPU"@, m.gpu_usage.1.num(), m.gpu_usage.0, soc.gpu_freqs@, 20);
    assert(t[0] == l[at + 0] && t[1] == l[at + 1] && t[2] == l[at + 2] && t[3] == l[at + 3]
        && t[4] == l[at + 4] && t[5] == l[at + 5]);
}

/// The lines of an entry: the title, the loads, the powers, the temperatures and the memory, in this
/// order and nothing else.
#[verifier::spinoff_prover]
#[verifier::rlimit(60)]
proof fn lemma_entry_parts(m: Metrics, soc: SocInfo, index: nat, now: Stamp)
    ensures
        ({
            let l = entry_text(m, soc, index, now);
            let k = 10 + power_lines(m);
            &&& holds(l, 0, entry_opening(index, now))
            &&& holds(l, 4, usage_text(m, soc))
            &&& holds(l, 10, powers_text(m, true))
            &&& holds(l, k, temps_text(m.temp))
            &&& holds(l, k + 4, memory_text(m.memory, 0, 16))
            &&& l.len() == k + 4 + memory_text(m.memory, 0, 16).len()
        }),
{
    lemma_five_parts(
        entry_opening(index, now),
        usage_text(m, soc),
        powers_text(m, true),
        temps_text(m.temp),
        memory_text(m.memory, 0, 16),
    );
}

/// Lines from the first on: the title of an entry between two rules.
pub open spec fn reads_opening(l: Seq<Seq<char>>, index: nat, now: Stamp) -> bool {
    &&& l[0] == "─────────────────────────────────────────────────────────────"@
    &&& says_title(l[1], index, now)
    &&& l[2] == "─────────────────────────────────────────────────────────────"@
    &&& l[3].len() == 0
}

proof fn lemma_opening(l: Seq<Seq<char>>, index: nat, now: Stamp)
    requires
        holds(l, 0, entry_opening(index, now)),
    ensures
        reads_opening(l, index, now),
{
    let t = entry_opening(index, now);
    lemma_holds(l, 0, t);
    law_count_is_read(index, 6);
    assert(counts(left_aligned(dec(index), 6), index as int));
    assert(l[0] == t[0] && l[1] == t[1] && l[2] == t[2] && l[3] == t[3]);
}

/// An entry of a log of samples: its number and its moment, and every reading of the sample on its
/// line. The system power has a line exactly where it is above zero, the swap exactly where there is
/// any.
#[verifier::spinoff_prover]
#[verifier::rlimit(60)]
pub proof fn law_entry_is_read(m: Metrics, soc: SocInfo, index: nat, now: Stamp)
    ensures
        ({
            let l = entry_text(m, soc, index, now);
            let k = 10 + power_lines(m);
            &&& l.len() == k + if m.memory.swap_total > 0 {
                8int
            } else {
                7
            }
            &&& reads_opening(l, index, now)
            &&& reads_cores(l, 4, m, soc)
            &&& reads_powers(l, 10, m, true)
            &&& reads_temperatures(l, k, m.temp)
            &&& reads_memory(l, k + 4, m.memory, 0, 16)
        }),
{
    let l = entry_text(m, soc, index, now);
    let k = 10 + power_lines(m);
    lemma_entry_parts(m, soc, index, now);
    lemma_opening(l, index, now);
    law_cores_are_read(l, 4, m, soc);
    law_powers_are_read(l, 10, m, true);
    law_temperatures_are_read(l, k, m.temp);
    law_memory_is_read(l, k + 4, m.memory, 0, 16);
}

/// The line is the number of a sample, the loads with their frequencies, the power of the chip and
/// the temperatures, which stand in `f` in this order.
pub open spec fn is_summary(
    line: Seq<char>,
    m: Metrics,
    soc: SocInfo,
    index: nat,
    f: Seq<Seq<char>>,
) -> bool {
    &&& line == "[#"@ + f[0] + "] CPU "@ + f[1] + "%  "@ + soc.ecpu_label@ + "-Core "@ + f[2]
        + "% "@ + f[3] + "  "@ + soc.pcpu_label@ + "-Core "@ + f[4] + "% "@ + f[5] + "  GPU "@
        + f[6] + "% "@ + f[7] + "  "@ + f[8] + "W  CPU "@ + f[9] + "/GPU "@ + f[10]
    &&& f[0].len() >= 6
    &&& f[0].len() > 6 ==> f[0][0] != '0'
    &&& counts(f[0], index as int)
    &&& reads(f[1], fit(Width::Single, product(m.cpu_usage_pct.num(), whole(100))), 1)
    &&& reads(f[2], fit(Width::Single, product(m.ecpu_usage.1.num(), whole(100))), 1)
    &&& reads_freq(f[3], m.ecpu_usage.0 as nat)
    &&& reads(f[4], fit(Width::Single, product(m.pcpu_usage.1.num(), whole(100))), 1)
    &&& reads_freq(f[5], m.pcpu_usage.0 as nat)
    &&& reads(f[6], fit(Width::Single, product(m.gpu_usage.1.num(), whole(100))), 1)
    &&& reads_freq(f[7], m.gpu_usage.0 as nat)
    &&& reads(f[8], m.all_power.num(), 2)
    &&& is_right(f[1], 4)
    &&& is_right(f[2], 4)
    &&& is_right(f[4], 4)
    &&& is_right(f[6], 4)
    &&& is_right(f[8], 0)
    &&& says_heat(f[9], Seq::empty(), m.temp.cpu_temp_avg.num())
    &&& says_heat(f[10], Seq::empty(), m.temp.gpu_temp_avg.num())
}

/// A load as the summary shows it, without the sign for percent.
spec fn short_number(load: Num) -> Seq<char> {
    right_aligned(fixed(fit(Width::Single, product(load, whole(100))), 1), 4)
}

/// The fields of a summary.
spec fn summary_fields(m: Metrics, index: nat) -> Seq<Seq<char>> {
    seq![
        zero_filled(dec(index), 6),
        short_number(m.cpu_usage_pct.num()),
        short_number(m.ecpu_usage.1.num()),
        freq_text(m.ecpu_usage.0 as nat),
        short_number(m.pcpu_usage.1.num()),
        freq_text(m.pcpu_usage.0 as nat),
        short_number(m.gpu_usage.1.num()),
        freq_text(m.gpu_usage.0 as nat),
        fixed(m.all_power.num(), 2),
        temp_text(m.temp.cpu_temp_avg.num()),
        temp_text(m.temp.gpu_temp_avg.num()),
    ]
}

proof fn lemma_summary_line(m: Metrics, soc: SocInfo, index: nat)
    ensures
        ({
            let f = summary_fields(m, index);
            summary_text(m, soc, index) == "[#"@ + f[0] + "] CPU "@ + f[1] + "%  "@
                + soc.ecpu_label@ + "-Core "@ + f[2] + "% "@ + f[3] + "  "@ + soc.pcpu_label@
                + "-Core "@ + f[4] + "% "@ + f[5] + "  GPU "@ + f[6] + "% "@ + f[7] + "  "@ + f[8]
                + "W  CPU "@ + f[9] + "/GPU "@ + f[10]
        }),
{
    let f = summary_fields(m, index);
    reveal_strlit("%");
    reveal_strlit(" ");
    reveal_strlit("  ");
    reveal_strlit("% ");
    reveal_strlit("%  ");
    assert("%"@ + "  "@ =~= "%  "@);
    assert("%"@ + " "@ =~= "% "@);
    let a = "[#"@ + f[0] + "] CPU "@;
    let a1 = a + short_percent(m.cpu_usage_pct.num()) + "  "@;
    assert(a1 =~= a + f[1] + "%  "@);
    let b = a1 + soc.ecpu_label@ + "-Core "@;
    let b1 = b + short_percent(m.ecpu_usage.1.num()) + " "@;
    assert(b1 =~= b + f[2] + "% "@);
    let c = b1 + f[3] + "  "@ + soc.pcpu_label@ + "-Core "@;
    let c1 = c + short_percent(m.pcpu_usage.1.num()) + " "@;
    assert(c1 =~= c + f[4] + "% "@);
    let d = c1 + f[5] + "  GPU "@;
    let d1 = d + short_percent(m.gpu_usage.1.num()) + " "@;
    assert(d1 =~= d + f[6] + "% "@);
    let e = d1 + f[7] + "  "@ + f[8] + "W  CPU "@ + f[9] + "/GPU "@ + f[10];
    assert(summary_text(m, soc, index) == e);
}

/// A sample in one line: its number, every load with its frequency, the power of the chip and the
/// temperatures.
pub proof fn law_summary_is_read(m: Metrics, soc: SocInfo, index: nat)
    ensures
        exists|f: Seq<Seq<char>>|
            #[trigger] is_summary(summary_text(m, soc, index), m, soc, index, f),
{
    let f = summary_fields(m, index);
    lemma_summary_line(m, soc, index);
    law_count_is_read(index, 6);
    law_value_is_read(fit(Width::Single, product(m.cpu_usage_pct.num(), whole(100))), 1, 4);
    law_value_is_read(fit(Width::Single, product(m.ecpu_usage.1.num(), whole(100))), 1, 4);
    law_value_is_read(fit(Width::Single, product(m.pcpu_usage.1.num(), whole(100))), 1, 4);
    law_value_is_read(fit(Width::Single, product(m.gpu_usage.1.num(), whole(100))), 1, 4);
    law_value_is_read(m.all_power.num(), 2, 0);
    lemma_reads_freq(m.ecpu_usage.0 as nat);
    lemma_reads_freq(m.pcpu_usage.0 as nat);
    lemma_reads_freq(m.gpu_usage.0 as nat);
    let none = Seq::<char>::empty();
    lemma_says_heat(none, m.temp.cpu_temp_avg.num());
    lemma_says_heat(none, m.temp.gpu_temp_avg.num());
    assert(none + temp_text(m.temp.cpu_temp_avg.num()) =~= temp_text(m.temp.cpu_temp_avg.num()));
    assert(none + temp_text(m.temp.gpu_temp_avg.num()) =~= temp_text(m.temp.gpu_temp_avg.num()));
    assert(is_summary(summary_text(m, soc, index), m, soc, index, f));
}

/// What the terminal shows round the samples names the machine and the log.
pub proof fn law_frame_is_read(soc: SocInfo, path: Seq<char>)
    ensures
        ({
            let l = intro_text(soc, path);
            &&& l.len() == 8
            &&& l[0] == "╔══════════════════════════════════════════════════════════════╗"@
            &&& l[1] == "║               macmon — modalità log                         ║"@
            &&& l[2] == "╚══════════════════════════════════════════════════════════════╝"@
            &&& quotes(l[3], "  Chip     : "@, soc.chip_name@)
            &&& quotes(l[4], "  Model ID : "@, soc.mac_model@)
            &&& quotes(l[5], "  Log      : "@, path)
            &&& l[6] == "  Campione ogni 250 ms — Ctrl+C per fermare"@
            &&& l[7].len() == 0
        }),
        quotes(outro_text(path), "\nFine sessione. Log salvato in: "@, path),
{
    lemma_quotes("  Chip     : "@, soc.chip_name@);
    lemma_quotes("  Model ID : "@, soc.mac_model@);
    lemma_quotes("  Log      : "@, path);
    lemma_quotes("\nFine sessione. Log salvato in: "@, path);
}

} // verus!
