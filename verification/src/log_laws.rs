//! What can be read from the logs.

use crate::app::{self, law_session_so_far, lemma_peaks_track, App};
use crate::clock::{cut_off, duration_text, law_cut_off, Stamp, UnixTime};
use crate::decimal::{dec, fixed, lemma_dec_digits};
use crate::format::{
    bar_text, draws, filled_cells, gb_text, gigabytes, hundredths, law_bar_is_drawn, law_gb_is_read,
    law_gb_shows_hundredths, law_temperature_is_read, law_watts_are_read, log_freq_text,
    log_watts_text, temp_text, watts_text,
};
use crate::ieee::{above, fit, is_zero, one, product, whole, Num, Single, Width};
use crate::metrics::{MemMetrics, Metrics, SocInfo, TempMetrics};
use crate::peaks::{
    all_proper, average, is_fair, is_session, law_averages_are_fair, law_peaks_cover_the_session,
    lemma_peak_is_number, lemma_was_read, was_read, PeakStats,
};
use crate::reading::{
    counts, field, fits, is_left, is_right, law_aligned_is_trimmed, law_count_is_read,
    law_value_is_read, lemma_field, lemma_quotes, quotes, reads, shows, tells, trimmed,
};
use crate::report::{
    all_freqs_text, closing_text, freq_list, law_table_is_read, lists, machine_text, memory_line,
    memory_text, percent_text, percentage, power_text, powers_text, temps_text, use_percentage,
};
use crate::session_log::{
    averages_text, cluster_line, entry_opening, entry_text, footer_opening, footer_text,
    header_text, heat_peaks_text, power_peaks_text, usage_text, BAR_WIDTH,
};
use crate::text::{joined, left_aligned, right_aligned};
use vstd::arithmetic::mul::*;
use vstd::arithmetic::power2::*;
use vstd::prelude::*;

verus! {

/// The line is a label and a power in watts.
pub open spec fn says_watts(line: Seq<char>, label: Seq<char>, w: Num) -> bool {
    &&& shows(line, label, w, 2, " W"@)
    &&& is_right(field(line, label, " W"@), 6)
}

/// The line is a label, and says that there is no reading.
pub open spec fn says_nothing(line: Seq<char>, label: Seq<char>) -> bool {
    &&& fits(line, label, Seq::empty())
    &&& trimmed(field(line, label, Seq::empty())) == seq!['N', '/', 'A']
}

/// The line is a label and a temperature, if one was read.
pub open spec fn says_heat(line: Seq<char>, label: Seq<char>, t: Num) -> bool {
    if is_zero(t) {
        says_nothing(line, label)
    } else {
        shows(line, label, t, 1, "°C"@) && is_right(field(line, label, "°C"@), 5)
    }
}

/// The line is a label and a power; none where `hide_zero` hides one of zero.
pub open spec fn says_power(line: Seq<char>, label: Seq<char>, w: Num, hide_zero: bool) -> bool {
    if hide_zero && is_zero(w) {
        says_nothing(line, label)
    } else {
        says_watts(line, label, w)
    }
}

/// The text is a number of bytes in gigabytes.
pub open spec fn reads_gb(t: Seq<char>, bytes: nat) -> bool {
    shows(trimmed(t), Seq::empty(), gigabytes(bytes), 2, " GB"@)
}

/// The text is a bar of `value` against `max`.
pub open spec fn is_bar(t: Seq<char>, value: Num, max: Num, width: nat) -> bool {
    draws(t, filled_cells(value, max, width), width)
}

/// The line is a label, what is in use and in all, the share in percent, and a bar of the share.
pub open spec fn says_memory(
    line: Seq<char>,
    label: Seq<char>,
    usage: nat,
    total: nat,
    columns: nat,
    width: nat,
) -> bool {
    let share = use_percentage(usage, total);
    exists|a: Seq<char>, b: Seq<char>, c: Seq<char>, d: Seq<char>|
        {
            &&& line == label + a + "  /  "@ + b + "  ("@ + c + "%)  "@ + d
            &&& #[trigger] reads_gb(a, usage)
            &&& #[trigger] reads_gb(b, total)
            &&& is_left(a, columns)
            &&& is_left(b, columns)
            &&& #[trigger] reads(c, share, 1)
            &&& is_right(c, 5)
            &&& #[trigger] is_bar(d, share, whole(100), width)
        }
}

/// The line is a label, a load in percent, and a bar of the load.
pub open spec fn says_load(line: Seq<char>, label: Seq<char>, load: Num, width: nat) -> bool {
    exists|a: Seq<char>, b: Seq<char>|
        {
            &&& line == label + a + "%  "@ + b
            &&& #[trigger] reads(a, percentage(load), 1)
            &&& is_right(a, 5)
            &&& #[trigger] is_bar(b, percentage(load), whole(100), width)
        }
}

/// The last frequency of a table, or `other` where it has none.
pub open spec fn highest(freqs: Seq<u32>, other: nat) -> nat {
    if freqs.len() > 0 {
        freqs[freqs.len() - 1] as nat
    } else {
        other
    }
}

/// The line is a label, a load in percent, a bar of the frequency against the highest one, and both
/// frequencies in megahertz.
pub open spec fn says_cluster(
    line: Seq<char>,
    label: Seq<char>,
    load: Num,
    mhz: nat,
    freqs: Seq<u32>,
) -> bool {
    exists|a: Seq<char>, b: Seq<char>, c: Seq<char>, d: Seq<char>|
        {
            &&& line == label + a + "%  "@ + b + "   "@ + c + " MHz / "@ + d + " MHz"@
            &&& #[trigger] reads(a, percentage(load), 1)
            &&& #[trigger] is_bar(b, whole(mhz), whole(highest(freqs, 1)), 20)
            &&& #[trigger] counts(c, mhz as int)
            &&& #[trigger] counts(d, highest(freqs, 0) as int)
            &&& is_right(a, 5)
            &&& is_right(c, 5)
            &&& is_right(d, 5)
        }
}

/// The line is a label and the cores of the processor: of either kind, and together.
pub open spec fn says_cores(line: Seq<char>, label: Seq<char>, soc: SocInfo) -> bool {
    exists|a: Seq<char>, b: Seq<char>, c: Seq<char>|
        {
            &&& line == label + a + " "@ + soc.ecpu_label@ + "-core + "@ + b + " "@
                + soc.pcpu_label@ + "-core  (tot. "@ + c + ")"@
            &&& #[trigger] counts(a, soc.ecpu_cores as int)
            &&& #[trigger] counts(b, soc.pcpu_cores as int)
            &&& #[trigger] counts(c, soc.ecpu_cores + soc.pcpu_cores)
            &&& is_right(a, 0)
            &&& is_right(b, 0)
            &&& is_right(c, 0)
        }
}

/// The line is a label and a whole table of frequencies.
pub open spec fn says_table(line: Seq<char>, label: Seq<char>, freqs: Seq<u32>) -> bool {
    &&& fits(line, label, " MHz"@)
    &&& lists(field(line, label, " MHz"@), freqs)
}

pub proof fn lemma_says_watts(label: Seq<char>, w: Num)
    ensures
        says_watts(label + log_watts_text(w), label, w),
{
    let s = right_aligned(fixed(w, 2), 6);
    law_value_is_read(w, 2, 6);
    lemma_field(label, s, " W"@);
    assert(label + log_watts_text(w) =~= label + s + " W"@);
}

proof fn lemma_says_nothing(label: Seq<char>, t: Seq<char>)
    requires
        trimmed(t) == seq!['N', '/', 'A'],
    ensures
        says_nothing(label + t, label),
{
    lemma_field(label, t, Seq::empty());
    assert(label + t + Seq::<char>::empty() =~= label + t);
}

pub proof fn lemma_says_power(label: Seq<char>, w: Num, hide_zero: bool)
    ensures
        says_power(label + power_text(w, hide_zero), label, w, hide_zero),
{
    lemma_says_watts(label, w);
    law_watts_are_read(w);
    if hide_zero && is_zero(w) {
        lemma_says_nothing(label, watts_text(w));
    }
}

pub proof fn lemma_says_heat(label: Seq<char>, t: Num)
    ensures
        says_heat(label + temp_text(t), label, t),
{
    law_temperature_is_read(t);
    if is_zero(t) {
        lemma_says_nothing(label, temp_text(t));
    } else {
        let s = right_aligned(fixed(t, 1), 5);
        law_value_is_read(t, 1, 5);
        lemma_field(label, s, "°C"@);
        assert(label + temp_text(t) =~= label + s + "°C"@);
    }
}

/// The line is a label and a frequency in megahertz.
pub open spec fn says_mhz(line: Seq<char>, label: Seq<char>, mhz: nat) -> bool {
    &&& tells(line, label, mhz as int, " MHz"@)
    &&& is_right(field(line, label, " MHz"@), 5)
}

pub proof fn lemma_tells_mhz(label: Seq<char>, mhz: nat)
    ensures
        says_mhz(label + log_freq_text(mhz), label, mhz),
{
    let s = right_aligned(dec(mhz), 5);
    law_count_is_read(mhz, 5);
    lemma_field(label, s, " MHz"@);
    assert(label + log_freq_text(mhz) =~= label + s + " MHz"@);
}

pub proof fn lemma_tells(label: Seq<char>, n: nat, unit: Seq<char>)
    ensures
        tells(label + dec(n) + unit, label, n as int, unit),
        tells(label + dec(n), label, n as int, Seq::empty()),
{
    law_count_is_read(n, 0);
    lemma_field(label, dec(n), unit);
    lemma_field(label, dec(n), Seq::empty());
    assert(label + dec(n) + Seq::<char>::empty() =~= label + dec(n));
}

proof fn lemma_reads_gb(bytes: nat, columns: nat)
    requires
        bytes <= u64::MAX,
    ensures
        reads_gb(left_aligned(gb_text(bytes), columns), bytes),
        is_left(left_aligned(gb_text(bytes), columns), columns),
{
    let t = gb_text(bytes);
    law_gb_is_read(bytes);
    law_gb_shows_hundredths(bytes);
    lemma_dec_digits(hundredths(bytes) / 100);
    reveal_strlit(" GB");
    assert('0' <= t[0] <= '9');
    assert(t.last() == 'B');
    law_aligned_is_trimmed(t, columns);
}

pub proof fn lemma_says_memory(
    label: Seq<char>,
    usage: nat,
    total: nat,
    columns: nat,
    width: nat,
)
    requires
        usage <= u64::MAX,
        total <= u64::MAX,
        width <= 20,
    ensures
        says_memory(
            memory_line(label, usage, total, columns, width),
            label,
            usage,
            total,
            columns,
            width,
        ),
{
    let share = use_percentage(usage, total);
    let a = left_aligned(gb_text(usage), columns);
    let b = left_aligned(gb_text(total), columns);
    let c = right_aligned(fixed(share, 1), 5);
    let d = bar_text(share, whole(100), width);
    lemma_reads_gb(usage, columns);
    lemma_reads_gb(total, columns);
    law_value_is_read(share, 1, 5);
    lemma2_to64_rest();
    law_bar_is_drawn(share, whole(100), width);
    assert(is_bar(d, share, whole(100), width));
    assert(reads_gb(a, usage) && reads_gb(b, total) && reads(c, share, 1));
    reveal_strlit("%");
    reveal_strlit(")  ");
    reveal_strlit("%)  ");
    assert(memory_line(label, usage, total, columns, width) =~= label + a + "  /  "@ + b + "  ("@
        + c + "%)  "@ + d);
}

pub proof fn lemma_says_load(label: Seq<char>, load: Num, width: nat)
    requires
        width <= 20,
    ensures
        says_load(
            label + percent_text(percentage(load)) + "  "@ + bar_text(
                percentage(load),
                whole(100),
                width,
            ),
            label,
            load,
            width,
        ),
{
    let x = percentage(load);
    let a = right_aligned(fixed(x, 1), 5);
    let b = bar_text(x, whole(100), width);
    law_value_is_read(x, 1, 5);
    lemma2_to64_rest();
    law_bar_is_drawn(x, whole(100), width);
    reveal_strlit("%");
    reveal_strlit("  ");
    reveal_strlit("%  ");
    assert(reads(a, x, 1) && is_bar(b, x, whole(100), width));
    assert(label + percent_text(x) + "  "@ + b =~= label + a + "%  "@ + b);
}

/// A line of the load table: load, bar and frequencies are those of its cluster.
pub proof fn law_cluster_is_read(label: Seq<char>, load: Num, mhz: u32, freqs: Seq<u32>)
    ensures
        says_cluster(
            cluster_line(label, load, mhz, freqs),
            "    "@ + left_aligned(label, 16) + " "@,
            load,
            mhz as nat,
            freqs,
        ),
{
    let x = percentage(load);
    let head = "    "@ + left_aligned(label, 16) + " "@;
    let a = right_aligned(fixed(x, 1), 5);
    let b = bar_text(whole(mhz as nat), whole(highest(freqs, 1)), BAR_WIDTH as nat);
    let c = right_aligned(dec(mhz as nat), 5);
    let d = right_aligned(dec(highest(freqs, 0)), 5);
    law_value_is_read(x, 1, 5);
    law_count_is_read(mhz as nat, 5);
    law_count_is_read(highest(freqs, 0), 5);
    lemma2_to64_rest();
    law_bar_is_drawn(whole(mhz as nat), whole(highest(freqs, 1)), BAR_WIDTH as nat);
    assert(is_bar(b, whole(mhz as nat), whole(highest(freqs, 1)), 20));
    assert(reads(a, x, 1) && counts(c, mhz as int) && counts(d, highest(freqs, 0) as int));
    reveal_strlit("%");
    reveal_strlit("  ");
    reveal_strlit("%  ");
    reveal_strlit(" MHz");
    reveal_strlit(" / ");
    reveal_strlit(" MHz / ");
    assert(cluster_line(label, load, mhz, freqs) =~= head + a + "%  "@ + b + "   "@ + c
        + " MHz / "@ + d + " MHz"@);
}

/// Lines from `at` on: the machine, with its name, model, memory and cores.
pub open spec fn reads_machine(l: Seq<Seq<char>>, at: int, soc: SocInfo, sep: Seq<char>) -> bool {
    &&& l[at] == "  ── INFORMAZIONI MACCHINA ─────────────────────────────────────"@
    &&& quotes(l[at + 1], "  Chip             "@ + sep, soc.chip_name@)
    &&& quotes(l[at + 2], "  Model ID         "@ + sep, soc.mac_model@)
    &&& tells(l[at + 3], "  Memoria          "@ + sep, soc.memory_gb as int, " GB"@)
    &&& says_cores(l[at + 4], "  Core CPU         "@ + sep, soc)
    &&& tells(l[at + 5], "  Core GPU         "@ + sep, soc.gpu_cores as int, Seq::empty())
    &&& l[at + 6].len() == 0
}

/// The machine: name, model, memory and cores, each on its line.
pub proof fn law_machine_is_read(l: Seq<Seq<char>>, at: int, soc: SocInfo, sep: Seq<char>)
    requires
        holds(l, at, machine_text(soc, sep)),
    ensures
        machine_text(soc, sep).len() == 7,
        reads_machine(l, at, soc, sep),
{
    let t = machine_text(soc, sep);
    lemma_holds(l, at, t);
    lemma_quotes("  Chip             "@ + sep, soc.chip_name@);
    lemma_quotes("  Model ID         "@ + sep, soc.mac_model@);
    lemma_tells("  Memoria          "@ + sep, soc.memory_gb as nat, " GB"@);
    lemma_tells("  Core GPU         "@ + sep, soc.gpu_cores as nat, Seq::empty());
    let a = dec(soc.ecpu_cores as nat);
    let b = dec(soc.pcpu_cores as nat);
    let c = dec((soc.ecpu_cores + soc.pcpu_cores) as nat);
    law_count_is_read(soc.ecpu_cores as nat, 0);
    law_count_is_read(soc.pcpu_cores as nat, 0);
    law_count_is_read((soc.ecpu_cores + soc.pcpu_cores) as nat, 0);
    assert(counts(a, soc.ecpu_cores as int) && counts(b, soc.pcpu_cores as int) && counts(
        c,
        soc.ecpu_cores + soc.pcpu_cores,
    ));
    assert(says_cores(t[4], "  Core CPU         "@ + sep, soc));
    assert(l[at + 0] == t[0]);
}

/// The lines of `part` stand in `l` from `at` on.
pub open spec fn holds(l: Seq<Seq<char>>, at: int, part: Seq<Seq<char>>) -> bool {
    &&& 0 <= at
    &&& at + part.len() <= l.len()
    &&& l.subrange(at, (at + part.len()) as int) == part
}

pub proof fn lemma_holds(l: Seq<Seq<char>>, at: int, part: Seq<Seq<char>>)
    requires
        holds(l, at, part),
    ensures
        forall|i: int| 0 <= i < part.len() ==> l[at + i] == #[trigger] part[i],
{
    assert forall|i: int| 0 <= i < part.len() implies l[at + i] == #[trigger] part[i] by {
        assert(l.subrange(at, (at + part.len()) as int)[i] == l[at + i]);
    }
}

/// Where each of five parts stands in the whole.
pub proof fn lemma_five_parts(
    a: Seq<Seq<char>>,
    b: Seq<Seq<char>>,
    c: Seq<Seq<char>>,
    d: Seq<Seq<char>>,
    e: Seq<Seq<char>>,
)
    ensures
        ({
            let l = a + b + c + d + e;
            &&& holds(l, 0, a)
            &&& holds(l, a.len() as int, b)
            &&& holds(l, (a.len() + b.len()) as int, c)
            &&& holds(l, (a.len() + b.len() + c.len()) as int, d)
            &&& holds(l, (a.len() + b.len() + c.len() + d.len()) as int, e)
        }),
{
    let l = a + b + c + d + e;
    let i: int = a.len() as int;
    let j: int = i + b.len();
    let k: int = j + c.len();
    let n: int = k + d.len();
    assert(l.subrange(0, i) =~= a);
    assert(l.subrange(i, j) =~= b);
    assert(l.subrange(j, k) =~= c);
    assert(l.subrange(k, n) =~= d);
    assert(l.subrange(n, n + e.len()) =~= e);
}

/// Lines from `at` on: the frequency tables of the machine.
pub open spec fn reads_tables(l: Seq<Seq<char>>, at: int, soc: SocInfo) -> bool {
    &&& l[at] == "  ── RANGE FREQUENZE DISPONIBILI ───────────────────────────────"@
    &&& says_table(l[at + 1], "  "@ + soc.ecpu_label@ + "-Core  : "@, soc.ecpu_freqs@)
    &&& says_table(l[at + 2], "  "@ + soc.pcpu_label@ + "-Core  : "@, soc.pcpu_freqs@)
    &&& says_table(l[at + 3], "  GPU     : "@, soc.gpu_freqs@)
    &&& l[at + 4].len() == 0
}

/// The frequency tables, each on its line, and whole.
pub proof fn law_tables_are_read(l: Seq<Seq<char>>, at: int, soc: SocInfo)
    requires
        holds(l, at, all_freqs_text(soc)),
    ensures
        all_freqs_text(soc).len() == 5,
        reads_tables(l, at, soc),
{
    let a = freq_list(soc.ecpu_freqs@);
    let b = freq_list(soc.pcpu_freqs@);
    let c = freq_list(soc.gpu_freqs@);
    let t = all_freqs_text(soc);
    lemma_holds(l, at, t);
    law_table_is_read(soc.ecpu_freqs@);
    law_table_is_read(soc.pcpu_freqs@);
    law_table_is_read(soc.gpu_freqs@);
    lemma_field("  "@ + soc.ecpu_label@ + "-Core  : "@, a, " MHz"@);
    lemma_field("  "@ + soc.pcpu_label@ + "-Core  : "@, b, " MHz"@);
    lemma_field("  GPU     : "@, c, " MHz"@);
    assert(l[at + 0] == t[0]);
    assert(t[1] == l[at + 1] && t[2] == l[at + 2] && t[3] == l[at + 3] && t[4] == l[at + 4]);
}

/// Lines from `at` on: the powers of a sample, that of the system where it is above zero.
pub open spec fn reads_powers(
    l: Seq<Seq<char>>,
    at: int,
    m: Metrics,
    hide_zero: bool,
) -> bool {
    &&& l[at] == "  CONSUMI"@
    &&& says_power(l[at + 1], "    CPU              : "@, m.cpu_power.num(), hide_zero)
    &&& says_power(l[at + 2], "    GPU              : "@, m.gpu_power.num(), hide_zero)
    &&& says_power(l[at + 3], "    ANE              : "@, m.ane_power.num(), hide_zero)
    &&& says_power(l[at + 4], "    SoC totale       : "@, m.all_power.num(), hide_zero)
    &&& if above(m.sys_power.num(), whole(0)) {
        says_power(l[at + 5], "    Sistema (PSTR)   : "@, m.sys_power.num(), hide_zero)
            && l[at + 6].len() == 0
    } else {
        l[at + 5].len() == 0
    }
}

/// The powers of a sample, each on its line; that of the system exactly where it is above zero.
pub proof fn law_powers_are_read(l: Seq<Seq<char>>, at: int, m: Metrics, hide_zero: bool)
    requires
        holds(l, at, powers_text(m, hide_zero)),
    ensures
        powers_text(m, hide_zero).len() == if above(m.sys_power.num(), whole(0)) {
            7int
        } else {
            6
        },
        reads_powers(l, at, m, hide_zero),
{
    let t = powers_text(m, hide_zero);
    lemma_holds(l, at, t);
    lemma_says_power("    CPU              : "@, m.cpu_power.num(), hide_zero);
    lemma_says_power("    GPU              : "@, m.gpu_power.num(), hide_zero);
    lemma_says_power("    ANE              : "@, m.ane_power.num(), hide_zero);
    lemma_says_power("    SoC totale       : "@, m.all_power.num(), hide_zero);
    lemma_says_power("    Sistema (PSTR)   : "@, m.sys_power.num(), hide_zero);
    assert(l[at + 0] == t[0]);
    assert(t[1] == l[at + 1] && t[2] == l[at + 2] && t[3] == l[at + 3] && t[4] == l[at + 4]
        && t[5] == l[at + 5]);
    if above(m.sys_power.num(), whole(0)) {
        assert(t[6] == l[at + 6]);
    }
}

/// Lines from `at` on: the temperatures of a sample.
pub open spec fn reads_temperatures(l: Seq<Seq<char>>, at: int, t: TempMetrics) -> bool {
    &&& l[at] == "  TEMPERATURE"@
    &&& says_heat(l[at + 1], "    CPU avg          : "@, t.cpu_temp_avg.num())
    &&& says_heat(l[at + 2], "    GPU avg          : "@, t.gpu_temp_avg.num())
    &&& l[at + 3].len() == 0
}

/// The temperatures of a sample, each on its line.
pub proof fn law_temperatures_are_read(l: Seq<Seq<char>>, at: int, t: TempMetrics)
    requires
        holds(l, at, temps_text(t)),
    ensures
        temps_text(t).len() == 4,
        reads_temperatures(l, at, t),
{
    let s = temps_text(t);
    lemma_holds(l, at, s);
    lemma_says_heat("    CPU avg          : "@, t.cpu_temp_avg.num());
    lemma_says_heat("    GPU avg          : "@, t.gpu_temp_avg.num());
    assert(l[at + 0] == s[0]);
    assert(s[1] == l[at + 1] && s[2] == l[at + 2] && s[3] == l[at + 3]);
}

/// Lines from `at` on: the RAM, and the swap where there is any, whatever is in use of it.
pub open spec fn reads_memory(
    l: Seq<Seq<char>>,
    at: int,
    m: MemMetrics,
    columns: nat,
    width: nat,
) -> bool {
    &&& l[at] == "  MEMORIA"@
    &&& says_memory(
        l[at + 1],
        "    RAM   "@,
        m.ram_usage as nat,
        m.ram_total as nat,
        columns,
        width,
    )
    &&& if m.swap_total > 0 {
        &&& says_memory(
            l[at + 2],
            "    SWAP  "@,
            m.swap_usage as nat,
            m.swap_total as nat,
            columns,
            width,
        )
        &&& l[at + 3].len() == 0
    } else {
        l[at + 2].len() == 0
    }
}

/// The memory of a sample: a line for the RAM, and one for the swap exactly where there is any.
pub proof fn law_memory_is_read(
    l: Seq<Seq<char>>,
    at: int,
    m: MemMetrics,
    columns: nat,
    width: nat,
)
    requires
        width <= 20,
        holds(l, at, memory_text(m, columns, width)),
    ensures
        memory_text(m, columns, width).len() == if m.swap_total > 0 {
            4int
        } else {
            3
        },
        reads_memory(l, at, m, columns, width),
{
    let t = memory_text(m, columns, width);
    lemma_holds(l, at, t);
    lemma_says_memory("    RAM   "@, m.ram_usage as nat, m.ram_total as nat, columns, width);
    lemma_says_memory("    SWAP  "@, m.swap_usage as nat, m.swap_total as nat, columns, width);
    assert(l[at + 0] == t[0]);
    assert(t[1] == l[at + 1] && t[2] == l[at + 2]);
    if m.swap_total > 0 {
        assert(t[3] == l[at + 3]);
    }
}

/// The header of a session log: when and where it is kept, the machine, and its frequencies.
pub proof fn law_header_is_read(soc: SocInfo, path: Seq<char>, now: Stamp)
    ensures
        ({
            let l = header_text(soc, path, now);
            &&& l.len() == 22
            &&& l[0] == "╔══════════════════════════════════════════════════════════════╗"@
            &&& l[1] == "║              INIZIO SESSIONE — macmon log                    ║"@
            &&& l[2] == "╚══════════════════════════════════════════════════════════════╝"@
            &&& l[3].len() == 0
            &&& quotes(l[4], "  Data/ora inizio  : "@, now.line_text())
            &&& quotes(l[5], "  File di log      : "@, path)
            &&& l[6] == "  Intervallo       : segue UI (ms variabili)"@
            &&& l[7].len() == 0
            &&& reads_machine(l, 8, soc, ": "@)
            &&& reads_tables(l, 15, soc)
            &&& l[20] == "═══════════════════════════════════════════════════════════════"@
            &&& l[21].len() == 0
        }),
{
    let l = header_text(soc, path, now);
    lemma_quotes("  Data/ora inizio  : "@, now.line_text());
    lemma_quotes("  File di log      : "@, path);
    assert(l.subrange(8, 15) =~= machine_text(soc, ": "@));
    assert(l.subrange(15, 20) =~= all_freqs_text(soc));
    law_machine_is_read(l, 8, soc, ": "@);
    law_tables_are_read(l, 15, soc);
}

/// Lines from `at` on: the load table of a sample.
pub open spec fn reads_loads(l: Seq<Seq<char>>, at: int, m: Metrics, soc: SocInfo) -> bool {
    &&& l[at] == "  UTILIZZO"@
    &&& l[at + 2].len() == 0
    &&& l[at + 5].len() == 0
    &&& l[at + 7].len() == 0
    &&& says_load(
        l[at + 1],
        "    "@ + left_aligned("CPU combinato"@, 16) + " "@,
        m.cpu_usage_pct.num(),
        20,
    )
    &&& says_cluster(
        l[at + 3],
        "    "@ + left_aligned("CPU "@ + soc.ecpu_label@ + "-Core"@, 16) + " "@,
        m.ecpu_usage.1.num(),
        m.ecpu_usage.0 as nat,
        soc.ecpu_freqs@,
    )
    &&& says_cluster(
        l[at + 4],
        "    "@ + left_aligned("CPU "@ + soc.pcpu_label@ + "-Core"@, 16) + " "@,
        m.pcpu_usage.1.num(),
        m.pcpu_usage.0 as nat,
        soc.pcpu_freqs@,
    )
    &&& says_cluster(
        l[at + 6],
        "    "@ + left_aligned("GPU"@, 16) + " "@,
        m.gpu_usage.1.num(),
        m.gpu_usage.0 as nat,
        soc.gpu_freqs@,
    )
}

/// The load table of a sample.
pub proof fn law_loads_are_read(l: Seq<Seq<char>>, at: int, m: Metrics, soc: SocInfo)
    requires
        holds(l, at, usage_text(m, soc)),
    ensures
        usage_text(m, soc).len() == 8,
        reads_loads(l, at, m, soc),
{
    let t = usage_text(m, soc);
    let ecpu = "CPU "@ + soc.ecpu_label@ + "-Core"@;
    let pcpu = "CPU "@ + soc.pcpu_label@ + "-Core"@;
    lemma_holds(l, at, t);
    lemma_says_load(
        "    "@ + left_aligned("CPU combinato"@, 16) + " "@,
        m.cpu_usage_pct.num(),
        20,
    );
    law_cluster_is_read(ecpu, m.ecpu_usage.1.num(), m.ecpu_usage.0, soc.ecpu_freqs@);
    law_cluster_is_read(pcpu, m.pcpu_usage.1.num(), m.pcpu_usage.0, soc.pcpu_freqs@);
    law_cluster_is_read("GPU"@, m.gpu_usage.1.num(), m.gpu_usage.0, soc.gpu_freqs@);
    assert(t[1] == l[at + 1] && t[3] == l[at + 3] && t[4] == l[at + 4] && t[6] == l[at + 6]);
    assert(t[0] == l[at + 0] && t[2] == l[at + 2] && t[5] == l[at + 5] && t[7] == l[at + 7]);
}

/// How many lines the powers of a sample take.
pub open spec fn power_lines(m: Metrics) -> int {
    if above(m.sys_power.num(), whole(0)) {
        7
    } else {
        6
    }
}

/// The lines of an entry: the title, the loads, the powers, the temperatures and the memory, in this
/// order and nothing else.
#[verifier::spinoff_prover]
#[verifier::rlimit(60)]
proof fn lemma_entry_parts(m: Metrics, soc: SocInfo, index: nat, now: Stamp)
    ensures
        ({
            let l = entry_text(m, soc, index, now);
            let k = 14 + power_lines(m);
            &&& holds(l, 0, entry_opening(index, now))
            &&& holds(l, 6, usage_text(m, soc))
            &&& holds(l, 14, powers_text(m, false))
            &&& holds(l, k, temps_text(m.temp))
            &&& holds(l, k + 4, memory_text(m.memory, 7, BAR_WIDTH as nat))
            &&& l.len() == k + 4 + memory_text(m.memory, 7, BAR_WIDTH as nat).len()
        }),
{
    lemma_five_parts(
        entry_opening(index, now),
        usage_text(m, soc),
        powers_text(m, false),
        temps_text(m.temp),
        memory_text(m.memory, 7, BAR_WIDTH as nat),
    );
}

/// The lines are an entry: its number and its moment, and every reading of the sample on its line.
/// The system power has a line exactly where it is above zero, the swap exactly where there is any.
pub open spec fn reads_entry(
    l: Seq<Seq<char>>,
    m: Metrics,
    soc: SocInfo,
    index: nat,
    now: Stamp,
) -> bool {
    let k = 14 + power_lines(m);
    &&& l.len() == k + if m.memory.swap_total > 0 {
        8int
    } else {
        7
    }
    &&& reads_opening(l, index, now)
    &&& reads_loads(l, 6, m, soc)
    &&& reads_powers(l, 14, m, false)
    &&& reads_temperatures(l, k, m.temp)
    &&& reads_memory(l, k + 4, m.memory, 7, 20)
}

/// An entry of a session log is read back.
#[verifier::spinoff_prover]
#[verifier::rlimit(60)]
pub proof fn law_entry_is_read(m: Metrics, soc: SocInfo, index: nat, now: Stamp)
    ensures
        reads_entry(entry_text(m, soc, index, now), m, soc, index, now),
{
    let l = entry_text(m, soc, index, now);
    let k = 14 + power_lines(m);
    lemma_entry_parts(m, soc, index, now);
    lemma_title(l, index, now);
    law_loads_are_read(l, 6, m, soc);
    law_powers_are_read(l, 14, m, false);
    law_temperatures_are_read(l, k, m.temp);
    law_memory_is_read(l, k + 4, m.memory, 7, BAR_WIDTH as nat);
}

/// The title of an entry: its number and its moment.
pub open spec fn says_title(line: Seq<char>, index: nat, now: Stamp) -> bool {
    exists|n: Seq<char>|
        line == "  Campione #"@ + n + "  "@ + now.sample_text() && is_left(n, 6)
            && #[trigger] counts(n, index as int)
}

/// Lines from the first on: the title of an entry between two rules.
pub open spec fn reads_opening(l: Seq<Seq<char>>, index: nat, now: Stamp) -> bool {
    &&& l[0].len() == 0
    &&& l[1].len() == 0
    &&& l[2] == "─────────────────────────────────────────────────────────────"@
    &&& says_title(l[3], index, now)
    &&& l[4] == "─────────────────────────────────────────────────────────────"@
    &&& l[5].len() == 0
}

proof fn lemma_title(l: Seq<Seq<char>>, index: nat, now: Stamp)
    requires
        holds(l, 0, entry_opening(index, now)),
    ensures
        reads_opening(l, index, now),
{
    let t = entry_opening(index, now);
    lemma_holds(l, 0, t);
    law_count_is_read(index, 6);
    assert(counts(left_aligned(dec(index), 6), index as int));
    assert(l[0] == t[0] && l[1] == t[1] && l[2] == t[2] && l[3] == t[3] && l[4] == t[4] && l[5]
        == t[5]);
}

/// Lines from `at` on: the peaks of loads, frequencies and powers, that of the system power where it
/// is above zero.
pub open spec fn reads_peaks(l: Seq<Seq<char>>, at: int, soc: SocInfo, p: PeakStats) -> bool {
    &&& l[at] == "  ── PICCHI RILEVATI DURANTE LA SESSIONE ───────────────────────"@
    &&& l[at + 5].len() == 0
    &&& shows(
        l[at + 1],
        "  CPU utilizzo max  : "@,
        fit(Width::Single, product(p.cpu_usage.num(), whole(100))),
        1,
        "%"@,
    )
    &&& is_right(field(l[at + 1], "  CPU utilizzo max  : "@, "%"@), 5)
    &&& says_mhz(
        l[at + 2],
        "  "@ + soc.ecpu_label@ + "-Core freq max   : "@,
        p.ecpu_freq as nat,
    )
    &&& says_mhz(
        l[at + 3],
        "  "@ + soc.pcpu_label@ + "-Core freq max   : "@,
        p.pcpu_freq as nat,
    )
    &&& says_mhz(l[at + 4], "  GPU freq max      : "@, p.gpu_freq as nat)
    &&& says_watts(l[at + 6], "  CPU power max     : "@, p.cpu_power.num())
    &&& says_watts(l[at + 7], "  GPU power max     : "@, p.gpu_power.num())
    &&& says_watts(l[at + 8], "  ANE power max     : "@, p.ane_power.num())
    &&& says_watts(l[at + 9], "  SoC totale max    : "@, p.all_power.num())
    &&& above(p.sys_power.num(), whole(0)) ==> says_watts(
        l[at + 10],
        "  Sistema max       : "@,
        p.sys_power.num(),
    )
}

/// Lines from `at` on: the peaks of temperatures and memory.
pub open spec fn reads_heat_peaks(l: Seq<Seq<char>>, at: int, p: PeakStats) -> bool {
    &&& l[at].len() == 0
    &&& l[at + 3].len() == 0
    &&& l[at + 5].len() == 0
    &&& says_heat(l[at + 1], "  CPU temp max      : "@, p.cpu_temp.num())
    &&& says_heat(l[at + 2], "  GPU temp max      : "@, p.gpu_temp.num())
    &&& shows(
        l[at + 4],
        "  RAM max           : "@,
        gigabytes(p.ram_usage as nat),
        2,
        " GB"@,
    )
}

/// The peaks of loads, frequencies and powers, each on its line.
pub proof fn law_peaks_are_read(l: Seq<Seq<char>>, at: int, soc: SocInfo, p: PeakStats)
    requires
        holds(l, at, power_peaks_text(soc, p)),
    ensures
        power_peaks_text(soc, p).len() == if above(p.sys_power.num(), whole(0)) {
            11int
        } else {
            10
        },
        reads_peaks(l, at, soc, p),
{
    let t = power_peaks_text(soc, p);
    let load = fit(Width::Single, product(p.cpu_usage.num(), whole(100)));
    lemma_holds(l, at, t);
    law_value_is_read(load, 1, 5);
    lemma_field("  CPU utilizzo max  : "@, right_aligned(fixed(load, 1), 5), "%"@);
    lemma_tells_mhz("  "@ + soc.ecpu_label@ + "-Core freq max   : "@, p.ecpu_freq as nat);
    lemma_tells_mhz("  "@ + soc.pcpu_label@ + "-Core freq max   : "@, p.pcpu_freq as nat);
    lemma_tells_mhz("  GPU freq max      : "@, p.gpu_freq as nat);
    lemma_says_watts("  CPU power max     : "@, p.cpu_power.num());
    lemma_says_watts("  GPU power max     : "@, p.gpu_power.num());
    lemma_says_watts("  ANE power max     : "@, p.ane_power.num());
    lemma_says_watts("  SoC totale max    : "@, p.all_power.num());
    lemma_says_watts("  Sistema max       : "@, p.sys_power.num());
    assert(t[1] == l[at + 1] && t[2] == l[at + 2] && t[3] == l[at + 3] && t[4] == l[at + 4]);
    assert(t[0] == l[at + 0] && t[5] == l[at + 5]);
    assert(t[6] == l[at + 6] && t[7] == l[at + 7] && t[8] == l[at + 8] && t[9] == l[at + 9]);
    if above(p.sys_power.num(), whole(0)) {
        assert(t[10] == l[at + 10]);
    }
}

/// The peaks of temperatures and memory, each on its line.
pub proof fn law_heat_peaks_are_read(l: Seq<Seq<char>>, at: int, p: PeakStats)
    requires
        holds(l, at, heat_peaks_text(p)),
    ensures
        heat_peaks_text(p).len() == 6,
        reads_heat_peaks(l, at, p),
{
    let t = heat_peaks_text(p);
    lemma_holds(l, at, t);
    lemma_says_heat("  CPU temp max      : "@, p.cpu_temp.num());
    lemma_says_heat("  GPU temp max      : "@, p.gpu_temp.num());
    let g = gigabytes(p.ram_usage as nat);
    law_value_is_read(g, 2, 0);
    lemma_field("  RAM max           : "@, fixed(g, 2), " GB"@);
    assert("  RAM max           : "@ + gb_text(p.ram_usage as nat) =~= "  RAM max           : "@
        + fixed(g, 2) + " GB"@);
    assert(t[0] == l[at + 0] && t[3] == l[at + 3] && t[5] == l[at + 5]);
    assert(t[1] == l[at + 1] && t[2] == l[at + 2] && t[4] == l[at + 4]);
}

/// The line is a label and an average: the two-decimal text of a power that lies between zero and
/// the peak of the readings, within one step of `binary32` of their mean.
pub open spec fn says_average(
    line: Seq<char>,
    label: Seq<char>,
    peak: Num,
    samples: Seq<Metrics>,
    reading: spec_fn(Metrics) -> Single,
) -> bool {
    all_proper(samples, reading) ==> exists|v: Num|
        says_watts(line, label, v) && #[trigger] is_fair(v, peak, samples, reading)
}

/// Lines from `at` on: the averages of the powers over the samples, that of the system power where
/// its peak is above zero.
pub open spec fn reads_averages(
    l: Seq<Seq<char>>,
    at: int,
    samples: Seq<Metrics>,
    p: PeakStats,
) -> bool {
    &&& l[at] == "  ── MEDIE DURANTE LA SESSIONE ─────────────────────────────────"@
    &&& l[at + if above(p.sys_power.num(), whole(0)) {
        6int
    } else {
        5
    }].len() == 0
    &&& says_average(
        l[at + 1],
        "  CPU power avg     : "@,
        p.cpu_power.num(),
        samples,
        |m: Metrics| m.cpu_power,
    )
    &&& says_average(
        l[at + 2],
        "  GPU power avg     : "@,
        p.gpu_power.num(),
        samples,
        |m: Metrics| m.gpu_power,
    )
    &&& says_average(
        l[at + 3],
        "  ANE power avg     : "@,
        p.ane_power.num(),
        samples,
        |m: Metrics| m.ane_power,
    )
    &&& says_average(
        l[at + 4],
        "  SoC totale avg    : "@,
        p.all_power.num(),
        samples,
        |m: Metrics| m.all_power,
    )
    &&& above(p.sys_power.num(), whole(0)) ==> says_average(
        l[at + 5],
        "  Sistema avg       : "@,
        p.sys_power.num(),
        samples,
        |m: Metrics| m.sys_power,
    )
}

proof fn lemma_says_average(
    line: Seq<char>,
    label: Seq<char>,
    avg: Num,
    peak: Num,
    samples: Seq<Metrics>,
    reading: spec_fn(Metrics) -> Single,
)
    requires
        line == label + log_watts_text(avg),
        all_proper(samples, reading) ==> is_fair(avg, peak, samples, reading),
    ensures
        says_average(line, label, peak, samples, reading),
{
    lemma_says_watts(label, avg);
}

/// The lines of the averages, by their labels.
proof fn lemma_average_lines(l: Seq<Seq<char>>, at: int, p: PeakStats)
    requires
        holds(l, at, averages_text(p)),
    ensures
        l[at] == "  ── MEDIE DURANTE LA SESSIONE ─────────────────────────────────"@,
        l[at + averages_text(p).len() - 1].len() == 0,
        averages_text(p).len() == if above(p.sys_power.num(), whole(0)) {
            7int
        } else {
            6
        },
        l[at + 1] == "  CPU power avg     : "@ + log_watts_text(
            average(p.sum_cpu_power.num(), p.count as nat),
        ),
        l[at + 2] == "  GPU power avg     : "@ + log_watts_text(
            average(p.sum_gpu_power.num(), p.count as nat),
        ),
        l[at + 3] == "  ANE power avg     : "@ + log_watts_text(
            average(p.sum_ane_power.num(), p.count as nat),
        ),
        l[at + 4] == "  SoC totale avg    : "@ + log_watts_text(
            average(p.sum_all_power.num(), p.count as nat),
        ),
        above(p.sys_power.num(), whole(0)) ==> l[at + 5] == "  Sistema avg       : "@ + log_watts_text(
            average(p.sum_sys_power.num(), p.count as nat),
        ),
{
    let t = averages_text(p);
    lemma_holds(l, at, t);
    assert(t[0] == l[at + 0] && t.last() == l[at + (t.len() - 1)]);
    assert(t[1] == l[at + 1] && t[2] == l[at + 2] && t[3] == l[at + 3] && t[4] == l[at + 4]);
    if above(p.sys_power.num(), whole(0)) {
        assert(t[5] == l[at + 5]);
    }
}

/// The averages of a session, each on its line. Whether the system power was ever above zero decides
/// about its own line, and says nothing about the others.
pub proof fn law_averages_are_read(
    l: Seq<Seq<char>>,
    at: int,
    states: Seq<PeakStats>,
    samples: Seq<Metrics>,
)
    requires
        is_session(states, samples),
        samples.len() < pow2(28),
        holds(l, at, averages_text(states.last())),
    ensures
        averages_text(states.last()).len() == if above(
            states.last().sys_power.num(),
            whole(0),
        ) {
            7int
        } else {
            6
        },
        reads_averages(l, at, samples, states.last()),
{
    let p = states.last();
    let n = samples.len();
    law_peaks_cover_the_session(states, samples);
    lemma_average_lines(l, at, p);
    law_averages_are_fair(states, samples);
    lemma_says_average(
        l[at + 1],
        "  CPU power avg     : "@,
        average(p.sum_cpu_power.num(), n),
        p.cpu_power.num(),
        samples,
        |m: Metrics| m.cpu_power,
    );
    lemma_says_average(
        l[at + 2],
        "  GPU power avg     : "@,
        average(p.sum_gpu_power.num(), n),
        p.gpu_power.num(),
        samples,
        |m: Metrics| m.gpu_power,
    );
    lemma_says_average(
        l[at + 3],
        "  ANE power avg     : "@,
        average(p.sum_ane_power.num(), n),
        p.ane_power.num(),
        samples,
        |m: Metrics| m.ane_power,
    );
    lemma_says_average(
        l[at + 4],
        "  SoC totale avg    : "@,
        average(p.sum_all_power.num(), n),
        p.all_power.num(),
        samples,
        |m: Metrics| m.all_power,
    );
    if above(p.sys_power.num(), whole(0)) {
        lemma_says_average(
            l[at + 5],
            "  Sistema avg       : "@,
            average(p.sum_sys_power.num(), n),
            p.sys_power.num(),
            samples,
            |m: Metrics| m.sys_power,
        );
    }
}

/// The system power was above zero in one of the samples.
pub open spec fn has_system_power(samples: Seq<Metrics>) -> bool {
    exists|i: int| 0 <= i < samples.len() && above((#[trigger] samples[i]).sys_power.num(), whole(0))
}

/// The peak of the system power is above zero exactly where one of the samples was.
pub proof fn law_system_power(states: Seq<PeakStats>, samples: Seq<Metrics>)
    requires
        is_session(states, samples),
    ensures
        above(states.last().sys_power.num(), whole(0)) <==> has_system_power(samples),
{
    let p = states.last();
    let field = |p: PeakStats| p.sys_power;
    let reading = |m: Metrics| m.sys_power;
    lemma_was_read(states, samples, field, reading, samples.len() as int);
    lemma_peak_is_number(states, samples, field, reading, samples.len() as int);
    law_peaks_cover_the_session(states, samples);
    lemma_mul_basics(one() as int);
    if above(p.sys_power.num(), whole(0)) {
        assert(was_read(p.sys_power, samples, reading));
        let i = choose|i: int|
            0 <= i < samples.len() && reading(#[trigger] samples[i]) == p.sys_power;
        assert(above(samples[i].sys_power.num(), whole(0)));
    }
    if has_system_power(samples) {
        let i = choose|i: int|
            0 <= i < samples.len() && above((#[trigger] samples[i]).sys_power.num(), whole(0));
        assert(p.covers(samples[i]));
    }
}

/// Where each of seven parts stands in the whole.
proof fn lemma_seven_parts(
    a: Seq<Seq<char>>,
    b: Seq<Seq<char>>,
    c: Seq<Seq<char>>,
    d: Seq<Seq<char>>,
    e: Seq<Seq<char>>,
    f: Seq<Seq<char>>,
    g: Seq<Seq<char>>,
)
    ensures
        ({
            let l = a + b + c + (d + e) + f + g;
            let k = a.len() + b.len() + c.len() + d.len();
            &&& holds(l, 0, a)
            &&& holds(l, a.len() as int, b)
            &&& holds(l, (a.len() + b.len()) as int, c)
            &&& holds(l, (a.len() + b.len() + c.len()) as int, d)
            &&& holds(l, k as int, e)
            &&& holds(l, (k + e.len()) as int, f)
            &&& holds(l, (k + e.len() + f.len()) as int, g)
        }),
{
    let l = a + b + c + (d + e) + f + g;
    let i: int = a.len() as int;
    let j: int = i + b.len();
    let k: int = j + c.len();
    let n: int = k + d.len();
    let o: int = n + e.len();
    let p: int = o + f.len();
    assert(l.subrange(0, i) =~= a);
    assert(l.subrange(i, j) =~= b);
    assert(l.subrange(j, k) =~= c);
    assert(l.subrange(k, n) =~= d);
    assert(l.subrange(n, o) =~= e);
    assert(l.subrange(o, p) =~= f);
    assert(l.subrange(p, p + g.len()) =~= g);
}

/// The lines of a footer: its sections in this order and nothing else.
#[verifier::spinoff_prover]
#[verifier::rlimit(60)]
proof fn lemma_footer_parts(
    soc: SocInfo,
    path: Seq<char>,
    n: nat,
    p: PeakStats,
    secs: int,
    now: Stamp,
)
    ensures
        ({
            let l = footer_text(soc, path, n, p, secs, now);
            let k: int = 24 + power_peaks_text(soc, p).len() as int;
            &&& holds(l, 0, footer_opening(path, n, secs, now))
            &&& holds(l, 12, machine_text(soc, " : "@))
            &&& holds(l, 19, all_freqs_text(soc))
            &&& holds(l, 24, power_peaks_text(soc, p))
            &&& holds(l, k, heat_peaks_text(p))
            &&& holds(l, k + 6, averages_text(p))
            &&& l.len() == k + 6 + averages_text(p).len() + 2
            &&& holds(l, k + 6 + averages_text(p).len(), closing_text())
        }),
{
    lemma_seven_parts(
        footer_opening(path, n, secs, now),
        machine_text(soc, " : "@),
        all_freqs_text(soc),
        power_peaks_text(soc, p),
        heat_peaks_text(p),
        averages_text(p),
        closing_text(),
    );
}

/// Lines from the first on: when the session ended, how long it lasted, where its log is, and how
/// many samples it took.
pub open spec fn reads_ending(
    l: Seq<Seq<char>>,
    path: Seq<char>,
    n: nat,
    secs: int,
    now: Stamp,
) -> bool {
    &&& l[0].len() == 0
    &&& l[1].len() == 0
    &&& l[2] == "╔══════════════════════════════════════════════════════════════╗"@
    &&& l[3] == "║               FINE SESSIONE — macmon log                    ║"@
    &&& l[4] == "╚══════════════════════════════════════════════════════════════╝"@
    &&& l[5].len() == 0
    &&& l[9] == "  Intervallo        : segue UI (ms variabili)"@
    &&& l[11].len() == 0
    &&& quotes(l[6], "  Data/ora fine     : "@, now.line_text())
    &&& quotes(l[7], "  Durata sessione   : "@, duration_text(secs))
    &&& quotes(l[8], "  File di log       : "@, path)
    &&& tells(l[10], "  Campioni totali   : "@, n as int, Seq::empty())
}

proof fn lemma_ending(l: Seq<Seq<char>>, path: Seq<char>, n: nat, secs: int, now: Stamp)
    requires
        holds(l, 0, footer_opening(path, n, secs, now)),
    ensures
        reads_ending(l, path, n, secs, now),
{
    let t = footer_opening(path, n, secs, now);
    lemma_holds(l, 0, t);
    lemma_quotes("  Data/ora fine     : "@, now.line_text());
    lemma_quotes("  Durata sessione   : "@, duration_text(secs));
    lemma_quotes("  File di log       : "@, path);
    lemma_tells("  Campioni totali   : "@, n, Seq::empty());
    assert(t[0] == l[0] && t[1] == l[1] && t[2] == l[2] && t[3] == l[3] && t[4] == l[4]);
    assert(t[5] == l[5] && t[9] == l[9] && t[11] == l[11]);
    assert(t[6] == l[6] && t[7] == l[7] && t[8] == l[8] && t[10] == l[10]);
}

proof fn lemma_closing(l: Seq<Seq<char>>, at: int)
    requires
        holds(l, at, closing_text()),
    ensures
        l[at] == "═══════════════════════════════════════════════════════════════"@,
        l[at + 1].len() == 0,
{
    let t = closing_text();
    lemma_holds(l, at, t);
    assert(t[0] == l[at + 0] && t[1] == l[at + 1]);
}

/// The lines are a footer: when the session ended, how long it lasted, how many samples it took, the
/// machine and its frequencies, the peaks and the averages, each on its line. The system power has
/// its two lines exactly where one of the samples had one above zero.
pub open spec fn reads_footer(
    l: Seq<Seq<char>>,
    samples: Seq<Metrics>,
    p: PeakStats,
    soc: SocInfo,
    path: Seq<char>,
    secs: int,
    now: Stamp,
) -> bool {
    let s: int = if has_system_power(samples) {
        1
    } else {
        0
    };
    &&& l.len() == 48 + 2 * s
    &&& reads_ending(l, path, samples.len(), secs, now)
    &&& reads_machine(l, 12, soc, " : "@)
    &&& reads_tables(l, 19, soc)
    &&& reads_peaks(l, 24, soc, p)
    &&& reads_heat_peaks(l, 34 + s, p)
    &&& reads_averages(l, 40 + s, samples, p)
    &&& l[46 + 2 * s] == "═══════════════════════════════════════════════════════════════"@
    &&& l[47 + 2 * s].len() == 0
}

/// The footer of a session log is read back.
#[verifier::spinoff_prover]
#[verifier::rlimit(60)]
pub proof fn law_footer_is_read(
    states: Seq<PeakStats>,
    samples: Seq<Metrics>,
    soc: SocInfo,
    path: Seq<char>,
    secs: int,
    now: Stamp,
)
    requires
        is_session(states, samples),
        samples.len() < pow2(28),
    ensures
        reads_footer(
            footer_text(soc, path, samples.len(), states.last(), secs, now),
            samples,
            states.last(),
            soc,
            path,
            secs,
            now,
        ),
{
    let p = states.last();
    let n = samples.len();
    let l = footer_text(soc, path, n, p, secs, now);
    law_system_power(states, samples);
    lemma_footer_parts(soc, path, n, p, secs, now);
    lemma_ending(l, path, n, secs, now);
    law_machine_is_read(l, 12, soc, " : "@);
    law_tables_are_read(l, 19, soc);
    law_peaks_are_read(l, 24, soc, p);
    let k: int = 24 + power_peaks_text(soc, p).len() as int;
    law_heat_peaks_are_read(l, k, p);
    law_averages_are_read(l, k + 6, states, samples);
    lemma_closing(l, k + 6 + averages_text(p).len());
}

/// Over a session the dashboard logs every sample, where it keeps a log at all, and numbers them from
/// one on.
pub proof fn law_entries_are_numbered(
    states: Seq<App>,
    samples: Seq<Metrics>,
    i: int,
    now: Stamp,
)
    requires
        app::is_session(states, samples),
        0 <= i < samples.len(),
    ensures
        states[0].log_path is None ==> states[i].entry_after(samples[i], now) is None,
        states[0].log_path is Some ==> exists|l: Seq<Seq<char>>|
            {
                &&& states[i].entry_after(samples[i], now) == Some(joined(l, "\n"@))
                &&& #[trigger] reads_entry(l, samples[i], states[0].soc, (i + 1) as nat, now)
            },
{
    let m = samples[i];
    law_session_so_far(states, samples, i);
    law_entry_is_read(m, states[0].soc, (i + 1) as nat, now);
    assert(reads_entry(
        entry_text(m, states[0].soc, (i + 1) as nat, now),
        m,
        states[0].soc,
        (i + 1) as nat,
        now,
    ));
}

/// At the end of a session the dashboard logs the footer of all its samples, where it keeps a log.
/// The session lasted the whole seconds from its start to its end, and none where its start is not
/// known.
#[verifier::spinoff_prover]
#[verifier::rlimit(60)]
pub proof fn law_session_is_closed(
    states: Seq<App>,
    samples: Seq<Metrics>,
    end: UnixTime,
    now: Stamp,
)
    requires
        app::is_session(states, samples),
        samples.len() < pow2(28),
    ensures
        states[0].log_path is None ==> states.last().footer(end, now) is None,
        states[0].log_path is Some ==> exists|l: Seq<Seq<char>>, secs: int|
            {
                &&& states.last().footer(end, now) == Some(joined(l, "\n"@))
                &&& #[trigger] reads_footer(
                    l,
                    samples,
                    states.last().peaks,
                    states[0].soc,
                    states[0].log_path->0@,
                    secs,
                    now,
                )
                &&& match states[0].start_time {
                    Some(start) => is_span(secs, start, end),
                    None => secs == 0,
                }
            },
{
    law_session_so_far(states, samples, samples.len() as int);
    let last = states.last();
    if states[0].log_path is Some {
        let path = states[0].log_path->0@;
        let start = match states[0].start_time {
            Some(t) => t,
            None => end,
        };
        let nanos = end.total() - start.total();
        let secs = cut_off(nanos);
        let track = Seq::new(states.len(), |i: int| states[i].peaks);
        lemma_peaks_track(states, samples);
        law_footer_is_read(track, samples, states[0].soc, path, secs, now);
        law_cut_off(nanos);
        assert(track.last() == last.peaks);
        assert(is_span(secs, start, end));
    }
}

/// `secs` are the whole seconds between two moments, negative where the second one comes first.
pub open spec fn is_span(secs: int, start: UnixTime, end: UnixTime) -> bool {
    let nanos = end.total() - start.total();
    &&& nanos >= 0 ==> 0 <= nanos - secs * 1_000_000_000 < 1_000_000_000
    &&& nanos <= 0 ==> 0 <= secs * 1_000_000_000 - nanos < 1_000_000_000
}

} // verus!
