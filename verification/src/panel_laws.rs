//! What can be read from the panels.

use crate::app::App;
use crate::decimal::{dec, fixed};
use crate::format::{gigabytes, lemma_gigabytes};
use crate::ieee::{above, one, whole, Num};
use crate::metrics::SocInfo;
use crate::panels::{
    brand_text, freq_panel, lower_frame, machine_label, memory_panel, power_label, power_panel,
    models, ram_share, title_text, Chart, ChartModel, Panel, ViewType,
};
use crate::reading::{counts, is_right, law_count_is_read, law_value_is_read, reads};
use crate::report::{
    is_share, lemma_is_share, lemma_rounded_total, lemma_share_monotone, percentage,
    rounded_quotient,
};
use crate::rounding::{lemma_rounded_le, lemma_rounded_same, rounded};
use crate::screen::{Area, Places};
use crate::stores::{
    greatest, is_close, is_latest, is_moderate, law_latest_is_smoothed, law_power_statistics, total,
    FreqStore, MemoryStore, PowerStore,
};
use crate::text::right_aligned;
use vstd::arithmetic::mul::*;
use vstd::arithmetic::power2::*;
use vstd::prelude::*;

verus! {

/// The title of a power: its name, the latest value, and in brackets the average and the highest.
pub open spec fn titles_power(
    title: Option<Seq<char>>,
    name: Seq<char>,
    latest: Num,
    average: Num,
    highest: Num,
) -> bool {
    exists|a: Seq<char>, b: Seq<char>, c: Seq<char>|
        {
            &&& title == Some(
                " "@ + (name + " "@ + a + "W ("@ + b + ", "@ + c + ")"@) + " "@,
            )
            &&& #[trigger] reads(a, latest, 2)
            &&& #[trigger] reads(b, average, 2)
            &&& #[trigger] reads(c, highest, 2)
            &&& is_right(a, 0)
            &&& is_right(b, 0)
            &&& is_right(c, 0)
        }
}

/// The title of a load: its name, the load in whole percent, and the frequency in megahertz.
pub open spec fn titles_load(
    title: Option<Seq<char>>,
    name: Seq<char>,
    load: Num,
    mhz: int,
) -> bool {
    exists|a: Seq<char>, b: Seq<char>|
        {
            &&& title == Some(" "@ + (name + " "@ + a + "% @ "@ + b + " MHz"@) + " "@)
            &&& #[trigger] reads(a, percentage(load), 0)
            &&& #[trigger] counts(b, mhz)
            &&& is_right(a, 3)
            &&& is_right(b, 4)
        }
}

/// The title of the RAM: gigabytes in use and in all, and the share in percent.
pub open spec fn titles_ram(
    title: Option<Seq<char>>,
    usage: nat,
    total: nat,
    share: Num,
) -> bool {
    exists|a: Seq<char>, b: Seq<char>, c: Seq<char>|
        {
            &&& title == Some(
                " "@ + ("RAM "@ + a + " / "@ + b + " GB ("@ + c + "%)"@) + " "@,
            )
            &&& #[trigger] reads(a, gigabytes(usage), 2)
            &&& #[trigger] reads(b, gigabytes(total), 1)
            &&& #[trigger] reads(c, percentage(share), 1)
            &&& is_right(a, 4)
            &&& is_right(b, 4)
            &&& is_right(c, 0)
        }
}

/// The title of the swap: gigabytes in use and in all.
pub open spec fn titles_swap(title: Option<Seq<char>>, usage: nat, total: nat) -> bool {
    exists|a: Seq<char>, b: Seq<char>|
        {
            &&& title == Some(" "@ + ("SWAP "@ + a + " / "@ + b + " GB"@) + " "@)
            &&& #[trigger] reads(a, gigabytes(usage), 2)
            &&& #[trigger] reads(b, gigabytes(total), 1)
            &&& is_right(a, 0)
            &&& is_right(b, 0)
        }
}

/// The title of a temperature, where there is one.
pub open spec fn titles_heat(title: Option<Seq<char>>, temp: Num) -> bool {
    if above(temp, whole(0)) {
        exists|a: Seq<char>|
            title == Some(" "@ + (a + "°C"@) + " "@) && is_right(a, 0) && #[trigger] reads(
                a,
                temp,
                1,
            )
    } else {
        title is None
    }
}

/// A chart over time shows `data`, scaled to `max`.
pub open spec fn plots(chart: ChartModel, data: Seq<u64>, max: Option<u64>) -> bool {
    chart matches ChartModel::Sparkline { data: d, max: m } && d == data && m == max
}

/// A gauge shows `ratio`.
pub open spec fn gauges(chart: ChartModel, ratio: Num) -> bool {
    chart matches ChartModel::Gauge { ratio: r } && r == ratio
}

/// A model leaves nothing out: panels of one model agree in place, titles, chart, data and scale.
pub proof fn law_models_are_faithful(a: Panel, b: Panel)
    requires
        a.model() == b.model(),
    ensures
        a.area == b.area,
        is_same_text(a.left, b.left),
        is_same_text(a.right, b.right),
        is_same_text(a.bottom, b.bottom),
        a.chart is Empty <==> b.chart is Empty,
        a.chart matches Chart::Sparkline { data, max } ==> {
            b.chart matches Chart::Sparkline { data: d, max: m } && data@ == d@ && max == m
        },
        a.chart matches Chart::Gauge { ratio } ==> {
            b.chart matches Chart::Gauge { ratio: r } && ratio.num() == r.num()
        },
{
}

/// Both texts are there, and the same, or neither is.
pub open spec fn is_same_text(a: Option<String>, b: Option<String>) -> bool {
    &&& a is Some <==> b is Some
    &&& a is Some ==> a->0@ == b->0@
}

/// So do the models of several panels, one by one.
pub proof fn law_models_are_in_order(v: Seq<Panel>, i: int)
    requires
        0 <= i < v.len(),
    ensures
        models(v).len() == v.len(),
        models(v)[i] == v[i].model(),
{
}

/// The panel of a power names, in this order, its latest value, its average and its highest one,
/// and its temperature where there is one; its chart is the history.
pub proof fn law_power_panel(area: Area, name: Seq<char>, val: PowerStore, temp: Num)
    ensures
        ({
            let p = power_panel(area, name, val, temp);
            &&& p.area == area
            &&& titles_power(
                p.left,
                name,
                val.top_value.num(),
                val.avg_value.num(),
                val.max_value.num(),
            )
            &&& titles_heat(p.right, temp)
            &&& p.bottom is None
            &&& plots(p.chart, val.items@, None)
        }),
{
    lemma_power_title(name, val);
    if above(temp, whole(0)) {
        law_value_is_read(temp, 1, 0);
        reveal_strlit("°C");
        assert(reads(fixed(temp, 1), temp, 1));
    }
}

/// Over the readings: the title of a power reads its name, the newest reading averaged with the one
/// before, and in brackets the mean and the greatest of the readings kept, all in watts.
pub proof fn law_power_title_tells_the_readings(
    area: Area,
    name: Seq<char>,
    before: PowerStore,
    value: Num,
    next: PowerStore,
    temp: Num,
)
    requires
        before.wf(),
        before.advances(value, next),
        is_moderate(value),
        before.items.len() > 0 ==> before.items@[0] < pow2(53),
        total(next.items@) < pow2(53),
    ensures
        exists|latest: Num, average: Num, highest: Num|
            {
                &&& #[trigger] titles_power(
                    power_panel(area, name, next, temp).left,
                    name,
                    latest,
                    average,
                    highest,
                )
                &&& is_latest(latest, before.items@, value)
                &&& is_close(average, total(next.items@) * one(), 1000 * next.items@.len())
                &&& is_close(highest, greatest(next.items@) as nat * one(), 1000)
            },
{
    law_power_panel(area, name, next, temp);
    law_latest_is_smoothed(before, value, next);
    law_power_statistics(before, value, next);
}

proof fn lemma_power_title(name: Seq<char>, val: PowerStore)
    ensures
        titles_power(
            title_text(power_label(name, val)),
            name,
            val.top_value.num(),
            val.avg_value.num(),
            val.max_value.num(),
        ),
{
    let a = val.top_value.num();
    let b = val.avg_value.num();
    let c = val.max_value.num();
    law_value_is_read(a, 2, 0);
    law_value_is_read(b, 2, 0);
    law_value_is_read(c, 2, 0);
    reveal_strlit(" ");
    assert(reads(fixed(a, 2), a, 2) && reads(fixed(b, 2), b, 2) && reads(fixed(c, 2), c, 2));
}

/// The panel of a cluster names its load and its frequency; it shows the loads over time, up to one
/// hundred percent, or the latest load.
pub proof fn law_load_panel(view: ViewType, area: Area, name: Seq<char>, val: FreqStore)
    ensures
        ({
            let p = freq_panel(view, area, name, val);
            &&& p.area == area
            &&& titles_load(p.left, name, val.usage.num(), val.top_value as int)
            &&& p.right is None
            &&& p.bottom is None
            &&& view == ViewType::Sparkline ==> plots(p.chart, val.items@, Some(100))
            &&& view == ViewType::Gauge ==> gauges(p.chart, val.usage.num())
        }),
{
    let x = percentage(val.usage.num());
    let a = right_aligned(fixed(x, 0), 3);
    let b = right_aligned(dec(val.top_value as nat), 4);
    law_value_is_read(x, 0, 3);
    law_count_is_read(val.top_value as nat, 4);
    reveal_strlit(" ");
    assert(reads(a, x, 0) && counts(b, val.top_value as int));
}

/// The share of the RAM in use: zero of none, one of all, the quotient in between, and zero where
/// there is no total.
pub proof fn law_ram_share(val: MemoryStore)
    ensures
        val.ram_total == 0 ==> ram_share(val) == whole(0),
        val.ram_total > 0 ==> is_share(ram_share(val), val.ram_usage as nat, val.ram_total as nat),
{
    lemma_ram_share(val);
    if val.ram_total > 0 {
        lemma_is_share(val.ram_usage as nat, val.ram_total as nat);
    }
}

proof fn lemma_ram_share(val: MemoryStore)
    ensures
        val.ram_total == 0 ==> ram_share(val) == whole(0),
        val.ram_total > 0 ==> ram_share(val) == (Num::Fin {
            neg: false,
            mag: rounded_quotient(val.ram_usage as nat, val.ram_total as nat),
        }),
{
    let u = one();
    let usage = val.ram_usage as nat;
    let total = val.ram_total as nat;
    lemma_gigabytes(usage);
    lemma_gigabytes(total);
    lemma_pow2_pos(1074);
    lemma_pow2_pos(30);
    let a = gigabytes(usage)->Fin_mag;
    let b = gigabytes(total)->Fin_mag;
    let x = rounded(usage * u, 1, 53, 0);
    let y = rounded(total * u, 1, 53, 0);
    let k = pow2(30);
    if total > 0 {
        lemma_rounded_total(total);
        assert(b > 0) by (nonlinear_arith)
            requires
                b * k == y,
                y > 0,
                k > 0,
                b >= 0,
        ;
        assert((a * u) * y == (x * u) * b) by (nonlinear_arith)
            requires
                a * k == x,
                b * k == y,
        ;
        lemma_rounded_same(a * u, b, x * u, y, 53, 0);
        lemma_is_share(usage, total);
    } else {
        lemma_mul_basics(u as int);
        lemma_pow2_pos(53);
        lemma_rounded_le(0, 1, 0, 1074, 53, 0);
        assert(y == 0);
        assert(b == 0) by (nonlinear_arith)
            requires
                b * k == 0,
                k > 0,
        ;
    }
}

/// More RAM in use is never a smaller share.
pub proof fn law_ram_share_grows(a: MemoryStore, b: MemoryStore)
    requires
        a.ram_total == b.ram_total,
        a.ram_usage <= b.ram_usage,
    ensures
        !above(ram_share(a), ram_share(b)),
{
    lemma_ram_share(a);
    lemma_ram_share(b);
    if a.ram_total > 0 {
        lemma_share_monotone(a.ram_usage as nat, b.ram_usage as nat, a.ram_total as nat);
    }
}

/// The panel of the memory names what is in use and in all, of RAM and of swap, and the share of the
/// RAM in use, which is what its gauge shows; its chart is the RAM over time, up to the total.
pub proof fn law_memory_panel(view: ViewType, area: Area, val: MemoryStore)
    ensures
        ({
            let p = memory_panel(view, area, val);
            let usage = val.ram_usage as nat;
            let total = val.ram_total as nat;
            &&& p.area == area
            &&& p.bottom is None
            &&& exists|v: Num|
                {
                    &&& #[trigger] titles_ram(p.left, usage, total, v)
                    &&& total > 0 ==> is_share(v, usage, total)
                    &&& total == 0 ==> v == whole(0)
                    &&& view == ViewType::Gauge ==> gauges(p.chart, v)
                }
            &&& titles_swap(p.right, val.swap_usage as nat, val.swap_total as nat)
            &&& view == ViewType::Sparkline ==> plots(p.chart, val.items@, Some(val.ram_total))
        }),
{
    let p = memory_panel(view, area, val);
    let v = ram_share(val);
    let usage = val.ram_usage as nat;
    let total = val.ram_total as nat;
    law_ram_share(val);
    let a = right_aligned(fixed(gigabytes(usage), 2), 4);
    let b = right_aligned(fixed(gigabytes(total), 1), 4);
    let c = fixed(percentage(v), 1);
    law_value_is_read(gigabytes(usage), 2, 4);
    law_value_is_read(gigabytes(total), 1, 4);
    law_value_is_read(percentage(v), 1, 0);
    reveal_strlit("RAM ");
    reveal_strlit("SWAP ");
    assert(reads(a, gigabytes(usage), 2) && reads(b, gigabytes(total), 1) && reads(
        c,
        percentage(v),
        1,
    ));
    assert(titles_ram(p.left, usage, total, v));
    let x = gigabytes(val.swap_usage as nat);
    let y = gigabytes(val.swap_total as nat);
    law_value_is_read(x, 2, 0);
    law_value_is_read(y, 1, 0);
    assert(reads(fixed(x, 2), x, 2) && reads(fixed(y, 1), y, 1));
}

/// The machine in one line: its name, how many cores of which kind, and its memory.
pub open spec fn names_machine(label: Seq<char>, soc: SocInfo) -> bool {
    exists|a: Seq<char>, b: Seq<char>, c: Seq<char>, d: Seq<char>|
        {
            &&& label == soc.chip_name@ + " ("@ + a + soc.ecpu_label@ + "+"@ + b + soc.pcpu_label@
                + "+"@ + c + "GPU "@ + d + "GB)"@
            &&& #[trigger] counts(a, soc.ecpu_cores as int)
            &&& #[trigger] counts(b, soc.pcpu_cores as int)
            &&& #[trigger] counts(c, soc.gpu_cores as int)
            &&& #[trigger] counts(d, soc.memory_gb as int)
            &&& is_right(a, 0)
            &&& is_right(b, 0)
            &&& is_right(c, 0)
            &&& is_right(d, 0)
        }
}

proof fn lemma_machine(soc: SocInfo)
    ensures
        names_machine(machine_label(soc), soc),
        machine_label(soc).len() > 0,
{
    law_count_is_read(soc.ecpu_cores as nat, 0);
    law_count_is_read(soc.pcpu_cores as nat, 0);
    law_count_is_read(soc.gpu_cores as nat, 0);
    law_count_is_read(soc.memory_gb as nat, 0);
    reveal_strlit(" (");
    assert(counts(dec(soc.ecpu_cores as nat), soc.ecpu_cores as int));
    assert(counts(dec(soc.pcpu_cores as nat), soc.pcpu_cores as int));
    assert(counts(dec(soc.gpu_cores as nat), soc.gpu_cores as int));
    assert(counts(dec(soc.memory_gb as nat), soc.memory_gb as int));
}

/// The frame round the powers names the power of the chip: latest, average and highest; that of the
/// system where its sensor reads something; and, at the bottom, the keys and the interval.
pub proof fn law_lower_frame(area: Area, chip: PowerStore, system: PowerStore, interval: nat)
    ensures
        ({
            let p = lower_frame(area, chip, system, interval);
            &&& p.area == area
            &&& p.chart is Empty
            &&& exists|a: Seq<char>, b: Seq<char>, c: Seq<char>|
                {
                    &&& p.left == Some(
                        " "@ + ("Power: "@ + a + "W (avg "@ + b + "W, max "@ + c + "W)"@) + " "@,
                    )
                    &&& #[trigger] reads(a, chip.top_value.num(), 2)
                    &&& #[trigger] reads(b, chip.avg_value.num(), 2)
                    &&& #[trigger] reads(c, chip.max_value.num(), 2)
                    &&& is_right(a, 0)
                    &&& is_right(b, 0)
                    &&& is_right(c, 0)
                }
            &&& above(system.top_value.num(), whole(0)) ==> titles_power(
                p.right,
                "Total"@,
                system.top_value.num(),
                system.avg_value.num(),
                system.max_value.num(),
            )
            &&& !above(system.top_value.num(), whole(0)) ==> p.right is None
            &&& exists|n: Seq<char>|
                {
                    &&& p.bottom == Some(
                        " 'q' – quit, 'c' – color, 'v' – view | -/+ "@ + n + "ms "@,
                    )
                    &&& #[trigger] counts(n, interval as int)
                    &&& is_right(n, 0)
                }
        }),
{
    let a = chip.top_value.num();
    let b = chip.avg_value.num();
    let c = chip.max_value.num();
    law_value_is_read(a, 2, 0);
    law_value_is_read(b, 2, 0);
    law_value_is_read(c, 2, 0);
    reveal_strlit("Power: ");
    assert(reads(fixed(a, 2), a, 2) && reads(fixed(b, 2), b, 2) && reads(fixed(c, 2), c, 2));
    lemma_power_title("Total"@, system);
    law_count_is_read(interval, 0);
    assert(counts(dec(interval), interval as int));
}

/// What the dashboard shows where: nine panels, drawn in this order, each with the name and the
/// history that belong to it.
pub proof fn law_scene(app: App, name: Seq<char>, version: Seq<char>, p: Places)
    ensures
        ({
            let s = app.scene(brand_text(name, version), p);
            let view = app.cfg.view_type;
            &&& s.len() == 9
            &&& s[0].area == p.upper && s[0].chart is Empty
            &&& s[0].left matches Some(t) && exists|l: Seq<char>|
                t == " "@ + l + " "@ && #[trigger] names_machine(l, app.soc)
            &&& s[0].right == Some(" "@ + (name + " v"@ + version) + " "@)
            &&& s[1].area == p.ecpu && s[2].area == p.pcpu && s[4].area == p.gpu
            &&& titles_load(
                s[1].left,
                app.soc.ecpu_label@ + "-CPU"@,
                app.ecpu_freq.usage.num(),
                app.ecpu_freq.top_value as int,
            )
            &&& titles_load(
                s[2].left,
                app.soc.pcpu_label@ + "-CPU"@,
                app.pcpu_freq.usage.num(),
                app.pcpu_freq.top_value as int,
            )
            &&& titles_load(
                s[4].left,
                "GPU"@,
                app.igpu_freq.usage.num(),
                app.igpu_freq.top_value as int,
            )
            &&& s[3].area == p.memory
            &&& s[3] == memory_panel(view, p.memory, app.mem)
            &&& s[5].area == p.lower
            &&& s[5] == lower_frame(
                p.lower,
                app.all_power,
                app.sys_power,
                app.cfg.interval as nat,
            )
            &&& s[6].area == p.cpu_power && s[7].area == p.gpu_power && s[8].area == p.ane_power
            &&& titles_power(
                s[6].left,
                "CPU"@,
                app.cpu_power.top_value.num(),
                app.cpu_power.avg_value.num(),
                app.cpu_power.max_value.num(),
            )
            &&& titles_power(
                s[7].left,
                "GPU"@,
                app.gpu_power.top_value.num(),
                app.gpu_power.avg_value.num(),
                app.gpu_power.max_value.num(),
            )
            &&& titles_power(
                s[8].left,
                "ANE"@,
                app.ane_power.top_value.num(),
                app.ane_power.avg_value.num(),
                app.ane_power.max_value.num(),
            )
            &&& app.cpu_temp.items@.len() > 0 ==> titles_heat(
                s[6].right,
                app.cpu_temp.items@[0].num(),
            )
            &&& app.cpu_temp.items@.len() == 0 ==> s[6].right is None
            &&& app.gpu_temp.items@.len() > 0 ==> titles_heat(
                s[7].right,
                app.gpu_temp.items@[0].num(),
            )
            &&& app.gpu_temp.items@.len() == 0 ==> s[7].right is None
            &&& s[8].right is None
            &&& plots(s[6].chart, app.cpu_power.items@, None)
            &&& plots(s[7].chart, app.gpu_power.items@, None)
            &&& plots(s[8].chart, app.ane_power.items@, None)
            &&& view == ViewType::Sparkline ==> {
                &&& plots(s[1].chart, app.ecpu_freq.items@, Some(100))
                &&& plots(s[2].chart, app.pcpu_freq.items@, Some(100))
                &&& plots(s[4].chart, app.igpu_freq.items@, Some(100))
            }
            &&& view == ViewType::Gauge ==> {
                &&& gauges(s[1].chart, app.ecpu_freq.usage.num())
                &&& gauges(s[2].chart, app.pcpu_freq.usage.num())
                &&& gauges(s[4].chart, app.igpu_freq.usage.num())
            }
        }),
{
    let view = app.cfg.view_type;
    lemma_machine(app.soc);
    reveal_strlit(" v");
    law_load_panel(view, p.ecpu, app.soc.ecpu_label@ + "-CPU"@, app.ecpu_freq);
    law_load_panel(view, p.pcpu, app.soc.pcpu_label@ + "-CPU"@, app.pcpu_freq);
    law_load_panel(view, p.gpu, "GPU"@, app.igpu_freq);
    law_power_panel(p.cpu_power, "CPU"@, app.cpu_power, app.cpu_temp.latest());
    law_power_panel(p.gpu_power, "GPU"@, app.gpu_power, app.gpu_temp.latest());
    law_power_panel(p.ane_power, "ANE"@, app.ane_power, whole(0));
    lemma_mul_basics(one() as int);
}

} // verus!
