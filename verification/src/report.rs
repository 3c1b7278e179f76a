//! The sections that both logs are made of.

use crate::decimal::{dec, decimal, fixed, law_decimal_reads_back, lemma_dec_digits};
use crate::format::{
    bar, bar_text, fmt_gb, fmt_temp, fmt_watts, gb_text, log_fmt_watts, log_watts_text, temp_text,
    watts_text,
};
use crate::ieee::{
    above, fit, is_zero, law_fit_is_monotone, lemma_integer_fits, one, product, quotient, whole,
    Double, Num, Single, Width,
};
use crate::metrics::{as_double, MemMetrics, Metrics, SocInfo, TempMetrics};
use crate::reading::{
    counts, law_trimmed, lemma_split_separator, lemma_split_text, split, trimmed,
};
use crate::rounding::{
    law_rounding_error, law_rounding_is_monotone, lemma_nearest_exact, lemma_nearest_le,
    lemma_pow2_le, lemma_quantum_le, lemma_rounded_exact, lemma_rounded_le, lemma_rounded_relative,
    lemma_rounded_same, nearest, quantum, reveal_pow2_zero, rounded,
};
use crate::text::{
    align_left, align_right, cat, join, joined, left_aligned, repeated, right_aligned, texts,
};
use vstd::arithmetic::div_mod::*;
use vstd::arithmetic::mul::*;
use vstd::arithmetic::power::*;
use vstd::arithmetic::power2::*;
use vstd::prelude::*;
use vstd::string::StringExecFns;

verus! {

/// A reading in percent.
pub open spec fn percentage(x: Num) -> Num {
    fit(Width::Double, product(x, whole(100)))
}

/// The share of `total` that is in use, in percent; none of a `total` of zero.
pub open spec fn use_percentage(usage: nat, total: nat) -> Num {
    if total > 0 {
        percentage(fit(Width::Double, quotient(as_double(usage), as_double(total))))
    } else {
        whole(0)
    }
}

/// A percentage with one decimal, in five columns.
pub open spec fn percent_text(x: Num) -> Seq<char> {
    right_aligned(fixed(x, 1), 5) + "%"@
}

/// What is known of the machine; `sep` stands between a label and its value.
pub open spec fn machine_text(soc: SocInfo, sep: Seq<char>) -> Seq<Seq<char>> {
    seq![
        "  ── INFORMAZIONI MACCHINA ─────────────────────────────────────"@,
        "  Chip             "@ + sep + soc.chip_name@,
        "  Model ID         "@ + sep + soc.mac_model@,
        "  Memoria          "@ + sep + dec(soc.memory_gb as nat) + " GB"@,
        "  Core CPU         "@ + sep + dec(soc.ecpu_cores as nat) + " "@ + soc.ecpu_label@
            + "-core + "@ + dec(soc.pcpu_cores as nat) + " "@ + soc.pcpu_label@ + "-core  (tot. "@
            + dec((soc.ecpu_cores + soc.pcpu_cores) as nat) + ")"@,
        "  Core GPU         "@ + sep + dec(soc.gpu_cores as nat),
        Seq::<char>::empty(),
    ]
}

/// Frequencies, with a dot between each two.
pub open spec fn freq_list(freqs: Seq<u32>) -> Seq<char> {
    joined(Seq::new(freqs.len(), |i: int| dec(freqs[i] as nat)), " · "@)
}

/// All frequencies that the machine can run at.
pub open spec fn all_freqs_text(soc: SocInfo) -> Seq<Seq<char>> {
    seq![
        "  ── RANGE FREQUENZE DISPONIBILI ───────────────────────────────"@,
        "  "@ + soc.ecpu_label@ + "-Core  : "@ + freq_list(soc.ecpu_freqs@) + " MHz"@,
        "  "@ + soc.pcpu_label@ + "-Core  : "@ + freq_list(soc.pcpu_freqs@) + " MHz"@,
        "  GPU     : "@ + freq_list(soc.gpu_freqs@) + " MHz"@,
        Seq::<char>::empty(),
    ]
}

/// What a header or a footer ends with.
pub open spec fn closing_text() -> Seq<Seq<char>> {
    seq![
        "═══════════════════════════════════════════════════════════════"@,
        Seq::<char>::empty(),
    ]
}

/// A power; `N/A` for zero where `hide_zero` says so.
pub open spec fn power_text(w: Num, hide_zero: bool) -> Seq<char> {
    if hide_zero {
        watts_text(w)
    } else {
        log_watts_text(w)
    }
}

/// The powers of a sample. That of the system is left out where its sensor reads nothing.
pub open spec fn powers_text(m: Metrics, hide_zero: bool) -> Seq<Seq<char>> {
    let chip = seq![
        "  CONSUMI"@,
        "    CPU              : "@ + power_text(m.cpu_power.num(), hide_zero),
        "    GPU              : "@ + power_text(m.gpu_power.num(), hide_zero),
        "    ANE              : "@ + power_text(m.ane_power.num(), hide_zero),
        "    SoC totale       : "@ + power_text(m.all_power.num(), hide_zero),
    ];
    if above(m.sys_power.num(), whole(0)) {
        chip.push("    Sistema (PSTR)   : "@ + power_text(m.sys_power.num(), hide_zero)).push(
            Seq::<char>::empty(),
        )
    } else {
        chip.push(Seq::<char>::empty())
    }
}

/// The temperatures of a sample.
pub open spec fn temps_text(t: TempMetrics) -> Seq<Seq<char>> {
    seq![
        "  TEMPERATURE"@,
        "    CPU avg          : "@ + temp_text(t.cpu_temp_avg.num()),
        "    GPU avg          : "@ + temp_text(t.gpu_temp_avg.num()),
        Seq::<char>::empty(),
    ]
}

/// One kind of memory: in use, in all, the share in percent, and a bar. The amounts take at least
/// `columns` columns.
pub open spec fn memory_line(
    label: Seq<char>,
    usage: nat,
    total: nat,
    columns: nat,
    width: nat,
) -> Seq<char> {
    let share = use_percentage(usage, total);
    label + left_aligned(gb_text(usage), columns) + "  /  "@ + left_aligned(gb_text(total), columns)
        + "  ("@ + percent_text(share) + ")  "@ + bar_text(share, whole(100), width)
}

/// The memory of a sample. The swap is left out where there is none.
pub open spec fn memory_text(m: MemMetrics, columns: nat, width: nat) -> Seq<Seq<char>> {
    let ram = seq![
        "  MEMORIA"@,
        memory_line("    RAM   "@, m.ram_usage as nat, m.ram_total as nat, columns, width),
    ];
    if m.swap_total > 0 {
        ram.push(
            memory_line("    SWAP  "@, m.swap_usage as nat, m.swap_total as nat, columns, width),
        ).push(Seq::<char>::empty())
    } else {
        ram.push(Seq::<char>::empty())
    }
}

/// A reading in percent.
pub fn in_percent(x: Single) -> (r: Double)
    ensures
        r.num() == percentage(x.num()),
{
    Double::from_single(x).times(Double::from_u64(100))
}

/// The share of `total` that is in use, in percent.
pub fn use_in_percent(usage: u64, total: u64) -> (r: Double)
    ensures
        r.num() == use_percentage(usage as nat, total as nat),
{
    if total > 0 {
        Double::from_u64(usage).over(Double::from_u64(total)).times(Double::from_u64(100))
    } else {
        Double::from_u64(0)
    }
}

/// A percentage with one decimal, in five columns.
pub fn fmt_percent(x: Double) -> (r: String)
    ensures
        r@ == percent_text(x.num()),
{
    cat(align_right(x.fixed(1).as_str(), 5).as_str(), "%")
}

/// What is known of the machine.
pub fn machine_lines(soc: &SocInfo, sep: &str) -> (r: Vec<String>)
    ensures
        texts(r@) == machine_text(*soc, sep@),
{
    let mut chip: String = cat("  Chip             ", sep);
    chip.append(soc.chip_name.as_str());
    let mut model: String = cat("  Model ID         ", sep);
    model.append(soc.mac_model.as_str());
    let mut memory: String = cat("  Memoria          ", sep);
    memory.append(decimal(soc.memory_gb as u64).as_str());
    memory.append(" GB");
    let mut cpu: String = cat("  Core CPU         ", sep);
    cpu.append(decimal(soc.ecpu_cores as u64).as_str());
    cpu.append(" ");
    cpu.append(soc.ecpu_label.as_str());
    cpu.append("-core + ");
    cpu.append(decimal(soc.pcpu_cores as u64).as_str());
    cpu.append(" ");
    cpu.append(soc.pcpu_label.as_str());
    cpu.append("-core  (tot. ");
    cpu.append(decimal(soc.ecpu_cores as u64 + soc.pcpu_cores as u64).as_str());
    cpu.append(")");
    let mut gpu: String = cat("  Core GPU         ", sep);
    gpu.append(decimal(soc.gpu_cores as u64).as_str());
    let r: Vec<String> = vec![
        "  ── INFORMAZIONI MACCHINA ─────────────────────────────────────".to_owned(),
        chip,
        model,
        memory,
        cpu,
        gpu,
        String::new(),
    ];
    assert(texts(r@) =~= machine_text(*soc, sep@));
    r
}

/// Frequencies, with a dot between each two.
pub fn fmt_freq_list(freqs: &Vec<u32>) -> (r: String)
    ensures
        r@ == freq_list(freqs@),
{
    let mut pieces: Vec<String> = Vec::new();
    let mut i: usize = 0;
    while i < freqs.len()
        invariant
            i <= freqs.len(),
            pieces.len() == i,
            forall|k: int| 0 <= k < i ==> (#[trigger] pieces@[k])@ == dec(freqs@[k] as nat),
        decreases freqs.len() - i,
    {
        pieces.push(decimal(freqs[i] as u64));
        i = i + 1;
    }
    assert(texts(pieces@) =~= Seq::new(freqs@.len(), |i: int| dec(freqs@[i] as nat)));
    join(&pieces, " · ")
}

/// All frequencies that the machine can run at.
pub fn all_freqs_lines(soc: &SocInfo) -> (r: Vec<String>)
    ensures
        texts(r@) == all_freqs_text(*soc),
{
    let mut ecpu: String = cat("  ", soc.ecpu_label.as_str());
    ecpu.append("-Core  : ");
    ecpu.append(fmt_freq_list(&soc.ecpu_freqs).as_str());
    ecpu.append(" MHz");
    let mut pcpu: String = cat("  ", soc.pcpu_label.as_str());
    pcpu.append("-Core  : ");
    pcpu.append(fmt_freq_list(&soc.pcpu_freqs).as_str());
    pcpu.append(" MHz");
    let mut gpu: String = cat("  GPU     : ", fmt_freq_list(&soc.gpu_freqs).as_str());
    gpu.append(" MHz");
    let r: Vec<String> = vec![
        "  ── RANGE FREQUENZE DISPONIBILI ───────────────────────────────".to_owned(),
        ecpu,
        pcpu,
        gpu,
        String::new(),
    ];
    assert(texts(r@) =~= all_freqs_text(*soc));
    r
}

/// What a header or a footer ends with.
pub fn closing_lines() -> (r: Vec<String>)
    ensures
        texts(r@) == closing_text(),
{
    let r: Vec<String> = vec![
        "═══════════════════════════════════════════════════════════════".to_owned(),
        String::new(),
    ];
    assert(texts(r@) =~= closing_text());
    r
}

fn fmt_power(w: Single, hide_zero: bool) -> (r: String)
    ensures
        r@ == power_text(w.num(), hide_zero),
{
    if hide_zero {
        fmt_watts(w)
    } else {
        log_fmt_watts(w)
    }
}

/// The powers of a sample.
pub fn powers_lines(m: &Metrics, hide_zero: bool) -> (r: Vec<String>)
    ensures
        texts(r@) == powers_text(*m, hide_zero),
{
    let mut r: Vec<String> = vec![
        "  CONSUMI".to_owned(),
        cat("    CPU              : ", fmt_power(m.cpu_power, hide_zero).as_str()),
        cat("    GPU              : ", fmt_power(m.gpu_power, hide_zero).as_str()),
        cat("    ANE              : ", fmt_power(m.ane_power, hide_zero).as_str()),
        cat("    SoC totale       : ", fmt_power(m.all_power, hide_zero).as_str()),
    ];
    if m.sys_power.exceeds(Single::from_u16(0)) {
        r.push(cat("    Sistema (PSTR)   : ", fmt_power(m.sys_power, hide_zero).as_str()));
    }
    r.push(String::new());
    assert(texts(r@) =~= powers_text(*m, hide_zero));
    r
}

/// The temperatures of a sample.
pub fn temps_lines(t: &TempMetrics) -> (r: Vec<String>)
    ensures
        texts(r@) == temps_text(*t),
{
    let r: Vec<String> = vec![
        "  TEMPERATURE".to_owned(),
        cat("    CPU avg          : ", fmt_temp(t.cpu_temp_avg).as_str()),
        cat("    GPU avg          : ", fmt_temp(t.gpu_temp_avg).as_str()),
        String::new(),
    ];
    assert(texts(r@) =~= temps_text(*t));
    r
}

fn fmt_memory_line(label: &str, usage: u64, total: u64, columns: usize, width: usize) -> (r: String)
    requires
        width < 0x20_0000_0000_0000,
    ensures
        r@ == memory_line(label@, usage as nat, total as nat, columns as nat, width as nat),
{
    let share: Double = use_in_percent(usage, total);
    let mut r: String = cat(label, align_left(fmt_gb(usage).as_str(), columns).as_str());
    r.append("  /  ");
    r.append(align_left(fmt_gb(total).as_str(), columns).as_str());
    r.append("  (");
    r.append(fmt_percent(share).as_str());
    r.append(")  ");
    r.append(bar(share, Double::from_u64(100), width).as_str());
    r
}

/// The memory of a sample.
pub fn memory_lines(m: &MemMetrics, columns: usize, width: usize) -> (r: Vec<String>)
    requires
        width < 0x20_0000_0000_0000,
    ensures
        texts(r@) == memory_text(*m, columns as nat, width as nat),
{
    let mut r: Vec<String> = vec![
        "  MEMORIA".to_owned(),
        fmt_memory_line("    RAM   ", m.ram_usage, m.ram_total, columns, width),
    ];
    if m.swap_total > 0 {
        r.push(fmt_memory_line("    SWAP  ", m.swap_usage, m.swap_total, columns, width));
    }
    r.push(String::new());
    assert(texts(r@) =~= memory_text(*m, columns as nat, width as nat));
    r
}

/// A load between zero and one, or a negative zero.
pub open spec fn is_load(x: Num) -> bool {
    x matches Num::Fin { neg, mag } && mag <= one() && (neg ==> mag == 0)
}

/// A load is at most one hundred percent.
pub proof fn lemma_percentage_bound(x: Num)
    requires
        is_load(x),
    ensures
        percentage(x) matches Num::Fin { neg, mag } && mag <= 100 * one() && (neg ==> mag == 0),
{
    lemma_pow2_pos(1074);
    lemma2_to64_rest();
    let mag = x->Fin_mag;
    let n = mag * (100 * one());
    lemma_mul_is_commutative(mag as int, (100 * one()) as int);
    lemma_mul_inequality(mag as int, one() as int, (100 * one()) as int);
    lemma_mul_is_commutative(one() as int, (100 * one()) as int);
    lemma_rounded_le(n, one(), 100, 1074, 53, 0);
    if mag == 0 {
        lemma_mul_basics((100 * one()) as int);
        lemma_mul_basics(one() as int);
        lemma_rounded_le(0, one(), 0, 1074, 53, 0);
    }
    lemma_pow2_adds(53, 1074);
    lemma_pow2_le(53 + 1074, 2098);
    assert(100 * one() < pow2(53) * one()) by (nonlinear_arith)
        requires
            pow2(53) > 100,
            one() > 0,
    ;
}

/// A load takes no more than the five columns it is given.
pub proof fn law_loads_fit_their_columns(x: Num)
    requires
        is_load(x),
    ensures
        percent_text(percentage(x)).len() == 6,
{
    reveal_strlit("%");
    lemma_percentage_bound(x);
    lemma_pow2_pos(1074);
    let p = percentage(x);
    let mag = p->Fin_mag;
    lemma_pow1(10);
    assert(mag * 10 <= 1000 * one());
    lemma_nearest_le(mag * 10, one(), 1000);
    let r = nearest(mag * 10, one());
    reveal_with_fuel(dec, 3);
    assert(dec(r / 10).len() <= 3);
    assert(dec(r % 10).len() == 1);
    if mag == 0 {
        lemma_mul_basics(one() as int);
        lemma_nearest_exact(0, one());
        assert(dec(r / 10).len() == 1);
    }
}

/// The text is a table of frequencies: as many numbers as there are frequencies, each read back,
/// with a dot between each two.
pub open spec fn lists(t: Seq<char>, freqs: Seq<u32>) -> bool {
    let pieces = split(t, '·');
    if freqs.len() == 0 {
        t.len() == 0
    } else {
        &&& pieces.len() == freqs.len()
        &&& forall|i: int|
            0 <= i < freqs.len() ==> counts(#[trigger] pieces[i], freqs[i] as int)
    }
}

/// What stands between two dots.
spec fn table_piece(freqs: Seq<u32>, i: int) -> Seq<char> {
    repeated(
        ' ',
        if i > 0 {
            1
        } else {
            0
        },
    ) + dec(freqs[i] as nat) + repeated(
        ' ',
        if i + 1 < freqs.len() {
            1
        } else {
            0
        },
    )
}

proof fn lemma_table(freqs: Seq<u32>)
    requires
        freqs.len() > 0,
    ensures
        split(freq_list(freqs), '·') == Seq::new(freqs.len(), |i: int| table_piece(freqs, i)),
    decreases freqs.len(),
{
    let n = freqs.len();
    let pieces = Seq::new(n, |i: int| dec(freqs[i] as nat));
    let want = Seq::new(n, |i: int| table_piece(freqs, i));
    let last = dec(freqs.last() as nat);
    let empty = Seq::<char>::empty();
    lemma_dec_digits(freqs.last() as nat);
    if n == 1 {
        lemma_split_text(empty, last, '·');
        assert(empty + last =~= last);
        assert(freq_list(freqs) =~= last);
        assert(want[0] =~= last);
        assert(split(last, '·') =~= want);
    } else {
        let rest = freqs.drop_last();
        lemma_table(rest);
        assert(pieces.drop_last() =~= Seq::new(rest.len(), |i: int| dec(rest[i] as nat)));
        let s = freq_list(rest);
        reveal_strlit(" · ");
        let gap = seq![' '];
        assert(freq_list(freqs) =~= (s + gap).push('·') + (gap + last));
        lemma_split_text(s, gap, '·');
        lemma_split_separator(s + gap, '·');
        lemma_split_text((s + gap).push('·'), gap + last, '·');
        let q = split((s + gap).push('·'), '·');
        assert(empty + (gap + last) =~= gap + last);
        let got = split(freq_list(freqs), '·');
        assert(got == q.drop_last().push(gap + last));
        assert(got.len() == n);
        assert forall|i: int| 0 <= i < n implies #[trigger] got[i] == want[i] by {
            if i == n - 1 {
                assert(want[i] =~= gap + last);
            } else if i == n - 2 {
                assert(want[i] =~= table_piece(rest, i) + gap);
            } else {
                assert(want[i] =~= table_piece(rest, i));
            }
        }
        assert(got =~= want);
    }
}

/// A list of frequencies is read back as the whole table.
pub proof fn law_table_is_read(freqs: Seq<u32>)
    ensures
        lists(freq_list(freqs), freqs),
{
    if freqs.len() > 0 {
        lemma_table(freqs);
        let pieces = split(freq_list(freqs), '·');
        assert forall|i: int| 0 <= i < freqs.len() implies counts(
            #[trigger] pieces[i],
            freqs[i] as int,
        ) by {
            let n = freqs[i] as nat;
            lemma_dec_digits(n);
            law_decimal_reads_back(n);
            law_trimmed(
                if i > 0 {
                    1
                } else {
                    0
                },
                dec(n),
                if i + 1 < freqs.len() {
                    1
                } else {
                    0
                },
            );
        }
    }
}

/// Different tables never give the same list.
pub proof fn law_tables_are_told_apart(a: Seq<u32>, b: Seq<u32>)
    requires
        freq_list(a) == freq_list(b),
    ensures
        a == b,
{
    law_table_is_read(a);
    law_table_is_read(b);
    let t = freq_list(a);
    let pieces = split(t, '·');
    if a.len() == 0 || b.len() == 0 {
        if t.len() == 0 && (a.len() > 0 || b.len() > 0) {
            assert(pieces[0] =~= Seq::<char>::empty());
            assert(trimmed(pieces[0]).len() == 0);
            if a.len() > 0 {
                assert(counts(pieces[0], a[0] as int));
            } else {
                assert(counts(pieces[0], b[0] as int));
            }
        }
        assert(a =~= b);
    } else {
        assert forall|i: int| 0 <= i < a.len() implies a[i] == b[i] by {
            assert(counts(pieces[i], a[i] as int));
            assert(counts(pieces[i], b[i] as int));
        }
        assert(a =~= b);
    }
}

/// A reading in percent is one hundred times the reading, to one part in `2^53`, and has its sign.
pub proof fn law_percentage_is_close(x: Num)
    requires
        x is Fin,
        x->Fin_mag <= pow2(2000),
    ensures
        percentage(x) matches Num::Fin { neg, mag } && neg == x->Fin_neg && (mag - 100 * x->Fin_mag)
            * pow2(53) <= 100 * x->Fin_mag && (100 * x->Fin_mag - mag) * pow2(53) <= 100
            * x->Fin_mag,
{
    let u = one();
    let m = x->Fin_mag;
    lemma_pow2_pos(1074);
    lemma2_to64();
    lemma_pow2_adds(7, 2000);
    lemma_pow2_strictly_increases(2007, 2098);
    lemma_pow2_le(1, 53);
    let n = m * (100 * u);
    let k = 100 * m;
    assert(n * 1 == k * u) by (nonlinear_arith)
        requires
            n == m * (100 * u),
            k == 100 * m,
    ;
    lemma_rounded_same(n, u, k, 1, 53, 0);
    lemma_rounded_relative(k, 53);
    lemma_mul_basics(pow2(2007) as int);
    lemma_rounded_le(k, 1, 1, 2007, 53, 0);
}

/// The same in `binary32`, to half a step.
pub proof fn law_short_percentage_is_close(x: Num)
    requires
        x is Fin,
        x->Fin_mag <= pow2(1190),
    ensures
        fit(Width::Single, product(x, whole(100))) matches Num::Fin { neg, mag } && neg
            == x->Fin_neg && 2 * (mag - 100 * x->Fin_mag) <= pow2(
            quantum(100 * x->Fin_mag, 24, 925),
        ) && 2 * (100 * x->Fin_mag - mag) <= pow2(quantum(100 * x->Fin_mag, 24, 925)),
{
    let u = one();
    let m = x->Fin_mag;
    lemma_pow2_pos(1074);
    lemma2_to64();
    lemma_pow2_adds(7, 1190);
    lemma_pow2_strictly_increases(1197, 1202);
    lemma_pow2_le(1, 24);
    let n = m * (100 * u);
    let k = 100 * m;
    assert(n * 1 == k * u) by (nonlinear_arith)
        requires
            n == m * (100 * u),
            k == 100 * m,
    ;
    lemma_rounded_same(n, u, k, 1, 24, 925);
    law_rounding_error(k, 1, 24, 925);
    lemma_div_basics(k as int);
    let r = rounded(k, 1, 24, 925);
    lemma_mul_basics(r as int);
    lemma_mul_basics(pow2(quantum(k, 24, 925)) as int);
    lemma_mul_basics(pow2(1197) as int);
    lemma_rounded_le(k, 1, 1, 1197, 24, 925);
}

/// `v` is the share that `usage` makes up of `total`: nothing of nothing, one of all, and in between
/// the quotient, to one part in `2^50`.
pub open spec fn is_share(v: Num, usage: nat, total: nat) -> bool {
    &&& v matches Num::Fin { neg, .. } && !neg
    &&& usage == 0 ==> v->Fin_mag == 0
    &&& usage == total ==> v->Fin_mag == one()
    &&& usage <= total ==> {
        &&& v->Fin_mag <= one()
        &&& (v->Fin_mag * total - usage * one()) * pow2(50) <= total * one()
        &&& (usage * one() - v->Fin_mag * total) * pow2(50) <= total * one()
    }
}

/// The quotient of two integers, each rounded to `binary64` first.
pub open spec fn rounded_quotient(usage: nat, total: nat) -> nat {
    rounded(
        rounded(usage * one(), 1, 53, 0) * one(),
        rounded(total * one(), 1, 53, 0),
        53,
        0,
    )
}

pub proof fn lemma_rounded_total(total: nat)
    requires
        0 < total <= u64::MAX,
    ensures
        one() <= rounded(total * one(), 1, 53, 0) <= pow2(64) * one(),
{
    let u = one();
    lemma_pow2_pos(1074);
    lemma_integer_fits(total);
    assert(u * 1 <= (total * u) * 1) by (nonlinear_arith)
        requires
            total >= 1,
            u > 0,
    ;
    law_rounding_is_monotone(u, 1, total * u, 1, 53, 0);
    reveal_pow2_zero();
    lemma_pow2_le(1, 53);
    lemma_mul_basics(u as int);
    lemma_rounded_exact(1, 1074, 53, 0);
}

/// The share is a share.
pub proof fn lemma_is_share(usage: nat, total: nat)
    requires
        0 < total <= u64::MAX,
        usage <= u64::MAX,
    ensures
        rounded_quotient(usage, total) < pow2(2098),
        is_share(
            Num::Fin { neg: false, mag: rounded_quotient(usage, total) },
            usage,
            total,
        ),
{
    let u = one();
    let a = rounded(usage * u, 1, 53, 0);
    let b = rounded(total * u, 1, 53, 0);
    let s = rounded_quotient(usage, total);
    lemma_pow2_pos(1074);
    lemma2_to64();
    lemma2_to64_rest();
    lemma_integer_fits(usage);
    lemma_rounded_total(total);
    reveal_pow2_zero();
    lemma_pow2_le(1, 53);
    lemma_mul_basics(u as int);
    // finite
    lemma_pow2_adds(64, 1074);
    lemma_pow2_strictly_increases(64 + 1074, 2098);
    let top = pow2(64) * u;
    lemma_mul_basics(top as int);
    assert(a * u <= top * b) by (nonlinear_arith)
        requires
            a <= top,
            u <= b,
    ;
    lemma_rounded_le(a * u, b, 1, 64 + 1074, 53, 0);
    if usage == 0 {
        lemma_mul_basics(b as int);
        lemma_rounded_le(0, b, 0, 1074, 53, 0);
        assert(a == 0);
    }
    if usage == total {
        lemma_mul_is_commutative(a as int, u as int);
        lemma_mul_basics((a * u) as int);
        lemma_rounded_same(a * u, b, u, 1, 53, 0);
        lemma_rounded_exact(1, 1074, 53, 0);
    }
    if usage <= total {
        lemma_mul_inequality(usage as int, total as int, u as int);
        lemma_mul_basics((usage * u) as int);
        lemma_mul_basics((total * u) as int);
        law_rounding_is_monotone(usage * u, 1, total * u, 1, 53, 0);
        lemma_mul_inequality(a as int, b as int, u as int);
        lemma_mul_is_commutative(b as int, u as int);
        lemma_rounded_le(a * u, b, 1, 1074, 53, 0);
        law_rounding_error(a * u, b, 53, 0);
        let q = (a * u) / b;
        lemma_div_is_ordered((a * u) as int, (u * b) as int, b as int);
        lemma_div_by_multiple(u as int, b as int);
        lemma_pow2_strictly_increases(1074, 53 + 1022);
        lemma_quantum_le(q, 53, 0, 1022);
        let step = pow2(quantum(q, 53, 0));
        lemma_pow2_le(quantum(q, 53, 0), 1022);
        lemma_pow2_adds(52, 1022);
        lemma_rounded_relative(usage * u, 53);
        lemma_rounded_relative(total * u, 53);
        lemma_share_error(u, usage, total, a, b, s, step);
    }
}

/// The errors of the two integers and of their quotient, put together.
proof fn lemma_share_error(u: nat, usage: nat, total: nat, a: nat, b: nat, s: nat, step: nat)
    requires
        u > 0,
        usage <= total,
        total > 0,
        s <= u,
        step * pow2(52) <= u,
        2 * (a * u - s * b) <= b * step,
        2 * (s * b - a * u) <= b * step,
        (usage * u - a) * pow2(53) <= usage * u,
        (a - usage * u) * pow2(53) <= usage * u,
        (total * u - b) * pow2(53) <= total * u,
        (b - total * u) * pow2(53) <= total * u,
    ensures
        (s * total - usage * u) * pow2(50) <= total * u,
        (usage * u - s * total) * pow2(50) <= total * u,
{
    lemma2_to64();
    lemma2_to64_rest();
    let h = pow2(53);
    let x = s * total - usage * u;
    // x * u = s * (total * u - b) + (s * b - a * u) + (a - usage * u) * u
    let p = total * u - b;
    let q = s * b - a * u;
    let r = a - usage * u;
    assert(x * u == s * p + q + r * u) by (nonlinear_arith)
        requires
            x == s * total - usage * u,
            p == total * u - b,
            q == s * b - a * u,
            r == a - usage * u,
    ;
    let w = total * u;
    assert(usage * u <= w) by (nonlinear_arith)
        requires
            usage <= total,
            w == total * u,
    ;
    assert(s * p * h <= u * w && -(s * p * h) <= u * w) by (nonlinear_arith)
        requires
            0 <= s <= u,
            p * h <= w,
            -p * h <= w,
            w >= 0,
    {
        assert(s * (p * h) <= s * w);
        assert(s * (-p * h) <= s * w);
        assert(s * w <= u * w);
        assert(s * p * h == s * (p * h));
        assert(s * (-p * h) == -(s * p * h));
    }
    assert(r * u * h <= u * w && -(r * u * h) <= u * w) by (nonlinear_arith)
        requires
            r * h <= usage * u,
            -r * h <= usage * u,
            usage * u <= w,
            u > 0,
    {
        assert((r * h) * u <= w * u);
        assert((-r * h) * u <= w * u);
    }
    // b is at most twice the total
    assert(b <= 2 * w) by (nonlinear_arith)
        requires
            -p * h <= w,
            p == w - b,
            h >= 1,
            w >= 0,
            b >= 0,
    ;
    assert(q * h <= 2 * (u * w) && -(q * h) <= 2 * (u * w)) by (nonlinear_arith)
        requires
            2 * q <= b * step,
            -2 * q <= b * step,
            b <= 2 * w,
            2 * (step * pow2(52)) <= 2 * u,
            h == 2 * pow2(52),
            step >= 0,
            w >= 0,
    {
        assert(2 * q * pow2(52) <= (b * step) * pow2(52));
        assert(-2 * q * pow2(52) <= (b * step) * pow2(52));
        assert((b * step) * pow2(52) == b * (step * pow2(52)));
        assert(b * (step * pow2(52)) <= b * u);
        assert(b * u <= (2 * w) * u);
        assert(q * h == 2 * q * pow2(52));
    }
    assert(x * u * h <= 8 * (u * w) && -(x * u * h) <= 8 * (u * w)) by (nonlinear_arith)
        requires
            x * u == s * p + q + r * u,
            s * p * h <= u * w,
            -(s * p * h) <= u * w,
            q * h <= 2 * (u * w),
            -(q * h) <= 2 * (u * w),
            r * u * h <= u * w,
            -(r * u * h) <= u * w,
            u * w >= 0,
    {
        assert(x * u * h == s * p * h + q * h + r * u * h);
    }
    assert(x * pow2(50) <= w && -x * pow2(50) <= w) by (nonlinear_arith)
        requires
            x * u * h <= 8 * (u * w),
            -(x * u * h) <= 8 * (u * w),
            h == 8 * pow2(50),
            u > 0,
    {
        assert(x * u * h == 8 * u * (x * pow2(50)));
    }
}

/// More in use of the same total is never a smaller share.
pub proof fn lemma_share_monotone(a: nat, b: nat, total: nat)
    requires
        0 < total <= u64::MAX,
        a <= b,
    ensures
        rounded_quotient(a, total) <= rounded_quotient(b, total),
{
    let u = one();
    lemma_pow2_pos(1074);
    lemma_rounded_total(total);
    lemma_mul_inequality(a as int, b as int, u as int);
    lemma_mul_basics((a * u) as int);
    lemma_mul_basics((b * u) as int);
    law_rounding_is_monotone(a * u, 1, b * u, 1, 53, 0);
    let x = rounded(a * u, 1, 53, 0);
    let y = rounded(b * u, 1, 53, 0);
    let d = rounded(total * u, 1, 53, 0);
    lemma_mul_inequality(x as int, y as int, u as int);
    lemma_mul_inequality((x * u) as int, (y * u) as int, d as int);
    law_rounding_is_monotone(x * u, d, y * u, d, 53, 0);
}

/// The share of memory in use, in percent: one hundred times a share, where there is a total, and
/// otherwise zero.
pub proof fn law_use_percentage(usage: nat, total: nat)
    requires
        usage <= u64::MAX,
        total <= u64::MAX,
    ensures
        total == 0 ==> use_percentage(usage, total) == whole(0),
        total > 0 ==> exists|v: Num|
            #![trigger is_share(v, usage, total)]
            is_share(v, usage, total) && use_percentage(usage, total) == percentage(v),
        total > 0 && usage == total ==> use_percentage(usage, total) == whole(100),
        usage == 0 ==> is_zero(use_percentage(usage, total)),
{
    lemma_mul_basics(one() as int);
    if total > 0 {
        lemma_integer_fits(usage);
        lemma_integer_fits(total);
        lemma_rounded_total(total);
        lemma_pow2_pos(1074);
        lemma_is_share(usage, total);
        let v = Num::Fin { neg: false, mag: rounded_quotient(usage, total) };
        assert(is_share(v, usage, total));
        assert(use_percentage(usage, total) == percentage(v));
        if usage == total {
            lemma2_to64_rest();
            let u = one();
            let n = u * (100 * u);
            let k = 100 * u;
            assert(n * 1 == k * u) by (nonlinear_arith)
                requires
                    n == u * (100 * u),
                    k == 100 * u,
            ;
            lemma_rounded_same(n, u, k, 1, 53, 0);
            lemma_rounded_exact(100, 1074, 53, 0);
            lemma_pow2_adds(53, 1074);
            lemma_pow2_le(53 + 1074, 2098);
            assert(k < pow2(53) * u) by (nonlinear_arith)
                requires
                    k == 100 * u,
                    pow2(53) > 100,
                    u > 0,
            ;
        }
        if usage == 0 {
            lemma_pow2_le(0, 2000);
            law_percentage_is_close(v);
            lemma_pow2_pos(53);
            let m = percentage(v)->Fin_mag;
            assert(m == 0) by (nonlinear_arith)
                requires
                    (m - 0) * pow2(53) <= 0,
                    pow2(53) > 0,
                    m >= 0,
            ;
        }
    }
}

/// More in use of the same total is never a smaller percentage.
pub proof fn law_use_grows(a: nat, b: nat, total: nat)
    requires
        a <= b <= u64::MAX,
        total <= u64::MAX,
    ensures
        !above(use_percentage(a, total), use_percentage(b, total)),
{
    if total > 0 {
        let u = one();
        lemma_pow2_pos(1074);
        lemma_integer_fits(a);
        lemma_integer_fits(b);
        lemma_integer_fits(total);
        lemma_rounded_total(total);
        lemma_is_share(a, total);
        lemma_is_share(b, total);
        lemma_share_monotone(a, b, total);
        let x = rounded_quotient(a, total);
        let y = rounded_quotient(b, total);
        let h = 100 * u;
        lemma_mul_inequality(x as int, y as int, h as int);
        lemma_mul_inequality((x * h) as int, (y * h) as int, u as int);
        law_fit_is_monotone(Width::Double, x * h, u, y * h, u);
    }
}

} // verus!
