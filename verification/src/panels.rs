//! What the dashboard shows: titles, charts and gauges.

use crate::decimal::{dec, decimal, fixed};
use crate::format::{gigabytes, in_gigabytes};
use crate::ieee::{above, whole, Double, Num, Single};
use crate::metrics::{quotient_or_zero, zero_div, SocInfo};
use crate::report::percentage;
use crate::screen::Area;
use crate::stores::{copied, FreqStore, MemoryStore, PowerStore};
use crate::text::{align_right, cat, right_aligned};
use vstd::prelude::*;
use vstd::string::StringExecFns;

verus! {

/// How loads and memory are drawn.
#[derive(Clone, Copy, Debug, PartialEq, Eq, Structural)]
pub enum ViewType {
    /// As a chart over time.
    Sparkline,
    /// As a gauge of the latest value.
    Gauge,
}

/// What fills a panel.
#[derive(Debug)]
pub enum Chart {
    /// Nothing but the frame.
    Empty,
    /// Values over time, the newest first; scaled to `max`, or to the greatest value.
    Sparkline { data: Vec<u64>, max: Option<u64> },
    /// A share between zero and one.
    Gauge { ratio: Double },
}

/// A frame with titles on its border, and what fills it.
#[derive(Debug)]
pub struct Panel {
    pub area: Area,
    pub left: Option<String>,
    pub right: Option<String>,
    pub bottom: Option<String>,
    pub chart: Chart,
}

/// The content of a [`Chart`].
pub enum ChartModel {
    Empty,
    Sparkline { data: Seq<u64>, max: Option<u64> },
    Gauge { ratio: Num },
}

/// The content of a [`Panel`].
pub struct PanelModel {
    pub area: Area,
    pub left: Option<Seq<char>>,
    pub right: Option<Seq<char>>,
    pub bottom: Option<Seq<char>>,
    pub chart: ChartModel,
}

/// The characters of a string that may be missing.
pub open spec fn chars_of(s: Option<String>) -> Option<Seq<char>> {
    match s {
        Some(t) => Some(t@),
        None => None,
    }
}

impl Chart {
    pub open spec fn model(self) -> ChartModel {
        match self {
            Chart::Empty => ChartModel::Empty,
            Chart::Sparkline { data, max } => ChartModel::Sparkline { data: data@, max },
            Chart::Gauge { ratio } => ChartModel::Gauge { ratio: ratio.num() },
        }
    }
}

impl Panel {
    pub open spec fn model(self) -> PanelModel {
        PanelModel {
            area: self.area,
            left: chars_of(self.left),
            right: chars_of(self.right),
            bottom: chars_of(self.bottom),
            chart: self.chart.model(),
        }
    }
}

/// The contents of panels.
pub open spec fn models(v: Seq<Panel>) -> Seq<PanelModel> {
    Seq::new(v.len(), |i: int| v[i].model())
}

/// A title: the label between two spaces; none for an empty label.
pub open spec fn title_text(label: Seq<char>) -> Option<Seq<char>> {
    if label.len() == 0 {
        None
    } else {
        Some(" "@ + label + " "@)
    }
}

/// A frame with a title on either side.
pub open spec fn framed(
    area: Area,
    left: Seq<char>,
    right: Seq<char>,
    chart: ChartModel,
) -> PanelModel {
    PanelModel { area, left: title_text(left), right: title_text(right), bottom: None, chart }
}

/// A power: the latest, the average and the highest value.
pub open spec fn power_label(label: Seq<char>, val: PowerStore) -> Seq<char> {
    label + " "@ + fixed(val.top_value.num(), 2) + "W ("@ + fixed(val.avg_value.num(), 2) + ", "@
        + fixed(val.max_value.num(), 2) + ")"@
}

/// A temperature on a panel; nothing where the sensor is silent.
pub open spec fn heat_label(temp: Num) -> Seq<char> {
    if above(temp, whole(0)) {
        fixed(temp, 1) + "°C"@
    } else {
        Seq::empty()
    }
}

/// The panel of a power.
pub open spec fn power_panel(area: Area, label: Seq<char>, val: PowerStore, temp: Num) -> PanelModel {
    framed(
        area,
        power_label(label, val),
        heat_label(temp),
        ChartModel::Sparkline { data: val.items@, max: None },
    )
}

/// A load and a frequency.
pub open spec fn freq_label(label: Seq<char>, val: FreqStore) -> Seq<char> {
    label + " "@ + right_aligned(fixed(percentage(val.usage.num()), 0), 3) + "% @ "@
        + right_aligned(dec(val.top_value as nat), 4) + " MHz"@
}

/// The panel of a cluster.
pub open spec fn freq_panel(
    view: ViewType,
    area: Area,
    label: Seq<char>,
    val: FreqStore,
) -> PanelModel {
    framed(
        area,
        freq_label(label, val),
        Seq::empty(),
        match view {
            ViewType::Sparkline => ChartModel::Sparkline { data: val.items@, max: Some(100) },
            ViewType::Gauge => ChartModel::Gauge { ratio: val.usage.num() },
        },
    )
}

/// The share of the RAM that is in use.
pub open spec fn ram_share(val: MemoryStore) -> Num {
    quotient_or_zero(gigabytes(val.ram_usage as nat), gigabytes(val.ram_total as nat))
}

/// The RAM in use.
pub open spec fn ram_label(val: MemoryStore) -> Seq<char> {
    "RAM "@ + right_aligned(fixed(gigabytes(val.ram_usage as nat), 2), 4) + " / "@ + right_aligned(
        fixed(gigabytes(val.ram_total as nat), 1),
        4,
    ) + " GB ("@ + fixed(percentage(ram_share(val)), 1) + "%)"@
}

/// The swap in use.
pub open spec fn swap_label(val: MemoryStore) -> Seq<char> {
    "SWAP "@ + fixed(gigabytes(val.swap_usage as nat), 2) + " / "@ + fixed(
        gigabytes(val.swap_total as nat),
        1,
    ) + " GB"@
}

/// The panel of the memory.
pub open spec fn memory_panel(view: ViewType, area: Area, val: MemoryStore) -> PanelModel {
    framed(
        area,
        ram_label(val),
        swap_label(val),
        match view {
            ViewType::Sparkline => ChartModel::Sparkline {
                data: val.items@,
                max: Some(val.ram_total),
            },
            ViewType::Gauge => ChartModel::Gauge { ratio: ram_share(val) },
        },
    )
}

/// The machine in one line.
pub open spec fn machine_label(soc: SocInfo) -> Seq<char> {
    soc.chip_name@ + " ("@ + dec(soc.ecpu_cores as nat) + soc.ecpu_label@ + "+"@ + dec(
        soc.pcpu_cores as nat,
    ) + soc.pcpu_label@ + "+"@ + dec(soc.gpu_cores as nat) + "GPU "@ + dec(soc.memory_gb as nat)
        + "GB)"@
}

/// The program and its version.
pub open spec fn brand_text(name: Seq<char>, version: Seq<char>) -> Seq<char> {
    name + " v"@ + version
}

/// The power of the chip.
pub open spec fn chip_power_label(val: PowerStore) -> Seq<char> {
    "Power: "@ + fixed(val.top_value.num(), 2) + "W (avg "@ + fixed(val.avg_value.num(), 2)
        + "W, max "@ + fixed(val.max_value.num(), 2) + "W)"@
}

/// The power of the system; nothing where the sensor is silent.
pub open spec fn system_power_label(val: PowerStore) -> Seq<char> {
    if above(val.top_value.num(), whole(0)) {
        power_label("Total"@, val)
    } else {
        Seq::empty()
    }
}

/// The keys, and the interval between samples in milliseconds.
pub open spec fn help_text(interval: nat) -> Seq<char> {
    " 'q' – quit, 'c' – color, 'v' – view | -/+ "@ + dec(interval) + "ms "@
}

/// The frame round the powers.
pub open spec fn lower_frame(
    area: Area,
    chip: PowerStore,
    system: PowerStore,
    interval: nat,
) -> PanelModel {
    PanelModel {
        area,
        left: title_text(chip_power_label(chip)),
        right: title_text(system_power_label(system)),
        bottom: Some(help_text(interval)),
        chart: ChartModel::Empty,
    }
}

fn title(label: &str) -> (r: Option<String>)
    ensures
        chars_of(r) == title_text(label@),
{
    if label.is_empty() {
        None
    } else {
        let mut t: String = cat(" ", label);
        t.append(" ");
        Some(t)
    }
}

/// A frame with a title on either side.
pub fn title_block(area: Area, label_l: &str, label_r: &str, chart: Chart) -> (r: Panel)
    ensures
        r.model() == framed(area, label_l@, label_r@, chart.model()),
{
    Panel { area, left: title(label_l), right: title(label_r), bottom: None, chart }
}

fn fmt_power(label: &str, val: &PowerStore) -> (r: String)
    ensures
        r@ == power_label(label@, *val),
{
    let mut r: String = cat(label, " ");
    r.append(val.top_value.fixed(2).as_str());
    r.append("W (");
    r.append(val.avg_value.fixed(2).as_str());
    r.append(", ");
    r.append(val.max_value.fixed(2).as_str());
    r.append(")");
    r
}

/// The panel of a power.
pub fn get_power_block(area: Area, label: &str, val: &PowerStore, temp: Single) -> (r: Panel)
    ensures
        r.model() == power_panel(area, label@, *val, temp.num()),
{
    let label_l: String = fmt_power(label, val);
    let label_r: String = if temp.exceeds(Single::from_u16(0)) {
        cat(temp.fixed(1).as_str(), "°C")
    } else {
        String::new()
    };
    let chart: Chart = Chart::Sparkline { data: copied(&val.items), max: None };
    title_block(area, label_l.as_str(), label_r.as_str(), chart)
}

/// The panel of a cluster.
pub fn render_freq_block(view: ViewType, area: Area, label: &str, val: &FreqStore) -> (r: Panel)
    ensures
        r.model() == freq_panel(view, area, label@, *val),
{
    let load: Double = val.usage.times(Double::from_u64(100));
    let mut text: String = cat(label, " ");
    text.append(align_right(load.fixed(0).as_str(), 3).as_str());
    text.append("% @ ");
    text.append(align_right(decimal(val.top_value).as_str(), 4).as_str());
    text.append(" MHz");
    let chart: Chart = match view {
        ViewType::Sparkline => Chart::Sparkline { data: copied(&val.items), max: Some(100) },
        ViewType::Gauge => Chart::Gauge { ratio: val.usage },
    };
    let none: String = String::new();
    title_block(area, text.as_str(), none.as_str(), chart)
}

/// The panel of the memory.
pub fn render_mem_block(view: ViewType, area: Area, val: &MemoryStore) -> (r: Panel)
    ensures
        r.model() == memory_panel(view, area, *val),
{
    let used: Double = in_gigabytes(val.ram_usage);
    let all: Double = in_gigabytes(val.ram_total);
    let share: Double = zero_div(used, all);
    let mut ram: String = cat("RAM ", align_right(used.fixed(2).as_str(), 4).as_str());
    ram.append(" / ");
    ram.append(align_right(all.fixed(1).as_str(), 4).as_str());
    ram.append(" GB (");
    ram.append(share.times(Double::from_u64(100)).fixed(1).as_str());
    ram.append("%)");
    let mut swap: String = cat("SWAP ", in_gigabytes(val.swap_usage).fixed(2).as_str());
    swap.append(" / ");
    swap.append(in_gigabytes(val.swap_total).fixed(1).as_str());
    swap.append(" GB");
    let chart: Chart = match view {
        ViewType::Sparkline => Chart::Sparkline {
            data: copied(&val.items),
            max: Some(val.ram_total),
        },
        ViewType::Gauge => Chart::Gauge { ratio: share },
    };
    title_block(area, ram.as_str(), swap.as_str(), chart)
}

/// The machine in one line.
pub fn fmt_machine(soc: &SocInfo) -> (r: String)
    ensures
        r@ == machine_label(*soc),
{
    let mut r: String = cat(soc.chip_name.as_str(), " (");
    r.append(decimal(soc.ecpu_cores as u64).as_str());
    r.append(soc.ecpu_label.as_str());
    r.append("+");
    r.append(decimal(soc.pcpu_cores as u64).as_str());
    r.append(soc.pcpu_label.as_str());
    r.append("+");
    r.append(decimal(soc.gpu_cores as u64).as_str());
    r.append("GPU ");
    r.append(decimal(soc.memory_gb as u64).as_str());
    r.append("GB)");
    r
}

/// The program and its version.
pub fn brand(name: &str, version: &str) -> (r: String)
    ensures
        r@ == brand_text(name@, version@),
{
    let mut r: String = cat(name, " v");
    r.append(version);
    r
}

/// The frame round the powers.
pub fn lower_block(area: Area, chip: &PowerStore, system: &PowerStore, interval: u32) -> (r: Panel)
    ensures
        r.model() == lower_frame(area, *chip, *system, interval as nat),
{
    let mut label_l: String = cat("Power: ", chip.top_value.fixed(2).as_str());
    label_l.append("W (avg ");
    label_l.append(chip.avg_value.fixed(2).as_str());
    label_l.append("W, max ");
    label_l.append(chip.max_value.fixed(2).as_str());
    label_l.append("W)");
    let label_r: String = if system.top_value.exceeds(Double::from_u64(0)) {
        fmt_power("Total", system)
    } else {
        String::new()
    };
    let mut help: String = cat(
        " 'q' – quit, 'c' – color, 'v' – view | -/+ ",
        decimal(interval as u64).as_str(),
    );
    help.append("ms ");
    Panel {
        area,
        left: title(label_l.as_str()),
        right: title(label_r.as_str()),
        bottom: Some(help),
        chart: Chart::Empty,
    }
}

} // verus!
