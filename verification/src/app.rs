//! The dashboard: what it keeps, how a sample changes it, and what it shows.

use crate::clock::{cut_off, Stamp, UnixTime};
use crate::control::{first_interval, starting_interval, Event};
use crate::ieee::{is_zero, one, whole, Double, Num, Single};
use crate::metrics::{Metrics, SocInfo};
use crate::panels::{
    chars_of, fmt_machine, framed, freq_panel, get_power_block, lower_block, lower_frame,
    machine_label, memory_panel, models, power_panel, render_freq_block, render_mem_block,
    title_block, Chart, ChartModel, Panel, PanelModel, ViewType,
};
use crate::peaks::{self, law_peaks_cover_the_session, PeakStats};
use crate::screen::{layout, places, Area, Places};
use crate::session_log::{
    entry_text, footer_text, header_text, log_build_entry, log_session_footer, log_session_header,
};
use crate::stores::{
    is_history, is_latest, is_moderate, law_greatest, law_history, law_latest_is_smoothed,
    law_next_power_is_accepted, milliwatts, nums, percent, pushed, temps_after, trend,
    trend_weight, FreqStore, MemoryStore, PowerStore, TempStore, MAX_SPARKLINE,
};
use crate::text::{cat, joined};
use vstd::arithmetic::mul::*;
use vstd::arithmetic::power2::*;
use vstd::prelude::*;

verus! {

/// What the user can change while the dashboard runs.
#[derive(Clone, Copy, Debug)]
pub struct Config {
    pub view_type: ViewType,
    /// The interval between samples, in milliseconds.
    pub interval: u32,
}

/// The dashboard.
#[derive(Debug)]
pub struct App {
    pub cfg: Config,
    pub soc: SocInfo,
    pub mem: MemoryStore,
    pub cpu_power: PowerStore,
    pub gpu_power: PowerStore,
    pub ane_power: PowerStore,
    pub all_power: PowerStore,
    pub sys_power: PowerStore,
    pub cpu_temp: TempStore,
    pub gpu_temp: TempStore,
    pub ecpu_freq: FreqStore,
    pub pcpu_freq: FreqStore,
    pub igpu_freq: FreqStore,
    /// Where the log is kept.
    pub log_path: Option<String>,
    /// How many entries the log has.
    pub log_counter: u64,
    pub peaks: PeakStats,
    pub start_time: Option<UnixTime>,
}

/// What is to be done about an event.
#[derive(Debug)]
pub enum Action {
    /// Nothing but drawing anew.
    Redraw,
    /// Put the text at the end of the log.
    Append(String),
    /// Turn to the next color.
    NextColor,
    /// Turn to the next way of drawing.
    NextView,
    /// Lengthen the interval between samples.
    Lengthen,
    /// Shorten the interval between samples.
    Shorten,
    /// Stop, after the text, if there is any, was put at the end of the log.
    Stop(Option<String>),
}

impl App {
    /// Every history is within its bounds.
    pub open spec fn wf(self) -> bool {
        &&& self.mem.wf()
        &&& self.cpu_power.wf()
        &&& self.gpu_power.wf()
        &&& self.ane_power.wf()
        &&& self.all_power.wf()
        &&& self.sys_power.wf()
        &&& self.cpu_temp.wf()
        &&& self.gpu_temp.wf()
        &&& self.ecpu_freq.wf()
        &&& self.pcpu_freq.wf()
        &&& self.igpu_freq.wf()
    }

    /// No sample has been taken in.
    pub open spec fn is_fresh(self) -> bool {
        &&& self.mem.is_fresh()
        &&& self.cpu_power.is_fresh()
        &&& self.gpu_power.is_fresh()
        &&& self.ane_power.is_fresh()
        &&& self.all_power.is_fresh()
        &&& self.sys_power.is_fresh()
        &&& self.cpu_temp.items@ == Seq::<Single>::empty()
        &&& self.gpu_temp.items@ == Seq::<Single>::empty()
        &&& self.ecpu_freq.is_fresh()
        &&& self.pcpu_freq.is_fresh()
        &&& self.igpu_freq.is_fresh()
        &&& self.log_counter == 0
        &&& self.peaks.is_fresh()
    }

    /// The sample fits: no counter and no sum of powers leaves 64 bits.
    pub open spec fn accepts(self, m: Metrics) -> bool {
        &&& self.log_counter < u64::MAX
        &&& self.peaks.count < u64::MAX
        &&& self.cpu_power.accepts(m.cpu_power.num())
        &&& self.gpu_power.accepts(m.gpu_power.num())
        &&& self.ane_power.accepts(m.ane_power.num())
        &&& self.all_power.accepts(m.all_power.num())
        &&& self.sys_power.accepts(m.sys_power.num())
    }

    /// `next` is `self` after the sample `m`.
    pub open spec fn advances(self, m: Metrics, next: App) -> bool {
        &&& next.cfg == self.cfg
        &&& next.soc == self.soc
        &&& next.log_path == self.log_path
        &&& next.start_time == self.start_time
        &&& next.log_counter == self.log_counter + 1
        &&& self.peaks.advances(m, next.peaks)
        &&& self.cpu_power.advances(m.cpu_power.num(), next.cpu_power)
        &&& self.gpu_power.advances(m.gpu_power.num(), next.gpu_power)
        &&& self.ane_power.advances(m.ane_power.num(), next.ane_power)
        &&& self.all_power.advances(m.all_power.num(), next.all_power)
        &&& self.sys_power.advances(m.sys_power.num(), next.sys_power)
        &&& self.ecpu_freq.advances(m.ecpu_usage.0 as u64, m.ecpu_usage.1.num(), next.ecpu_freq)
        &&& self.pcpu_freq.advances(m.pcpu_usage.0 as u64, m.pcpu_usage.1.num(), next.pcpu_freq)
        &&& self.igpu_freq.advances(m.gpu_usage.0 as u64, m.gpu_usage.1.num(), next.igpu_freq)
        &&& nums(next.cpu_temp.items@) == temps_after(
            nums(self.cpu_temp.items@),
            m.temp.cpu_temp_avg.num(),
        )
        &&& nums(next.gpu_temp.items@) == temps_after(
            nums(self.gpu_temp.items@),
            m.temp.gpu_temp_avg.num(),
        )
        &&& self.mem.advances(m.memory, next.mem)
    }

    /// The log entry of the sample `m`, where a log is kept.
    pub open spec fn entry_after(self, m: Metrics, now: Stamp) -> Option<Seq<char>> {
        if self.log_path is Some {
            Some(joined(entry_text(m, self.soc, (self.log_counter + 1) as nat, now), "\n"@))
        } else {
            None
        }
    }

    /// The end of the log, where one is kept.
    pub open spec fn footer(self, end: UnixTime, now: Stamp) -> Option<Seq<char>> {
        let start = match self.start_time {
            Some(t) => t,
            None => end,
        };
        match self.log_path {
            Some(path) => Some(
                joined(
                    footer_text(
                        self.soc,
                        path@,
                        self.log_counter as nat,
                        self.peaks,
                        cut_off(end.total() - start.total()),
                        now,
                    ),
                    "\n"@,
                ),
            ),
            None => None,
        }
    }

    /// `next` is `self` after `event`, which asks for `action`.
    pub open spec fn reacts(
        self,
        event: Event,
        end: UnixTime,
        now: Stamp,
        next: App,
        action: Action,
    ) -> bool {
        &&& event !is Update ==> next == self
        &&& match event {
            Event::Update(m) => {
                &&& self.advances(m, next)
                &&& match self.entry_after(m, now) {
                    Some(text) => action matches Action::Append(s) && s@ == text,
                    None => action is Redraw,
                }
            },
            Event::ChangeColor => action is NextColor,
            Event::ChangeView => action is NextView,
            Event::IncInterval => action is Lengthen,
            Event::DecInterval => action is Shorten,
            Event::Tick => action is Redraw,
            Event::Quit => action matches Action::Stop(s) && chars_of(s) == self.footer(end, now),
        }
    }

    /// `self` after the settings were changed to `cfg` as far as `action` asked for it.
    pub open spec fn settled(self, action: Action, cfg: Config) -> App {
        App {
            cfg: Config {
                view_type: if action is NextView {
                    cfg.view_type
                } else {
                    self.cfg.view_type
                },
                interval: match to_share(action, cfg) {
                    Some(interval) => interval,
                    None => self.cfg.interval,
                },
            },
            ..self
        }
    }

    /// What is drawn, in this order, on an area that `p` lays out.
    pub open spec fn scene(self, brand: Seq<char>, p: Places) -> Seq<PanelModel> {
        let view = self.cfg.view_type;
        seq![
            framed(p.upper, machine_label(self.soc), brand, ChartModel::Empty),
            freq_panel(view, p.ecpu, self.soc.ecpu_label@ + "-CPU"@, self.ecpu_freq),
            freq_panel(view, p.pcpu, self.soc.pcpu_label@ + "-CPU"@, self.pcpu_freq),
            memory_panel(view, p.memory, self.mem),
            freq_panel(view, p.gpu, "GPU"@, self.igpu_freq),
            lower_frame(p.lower, self.all_power, self.sys_power, self.cfg.interval as nat),
            power_panel(p.cpu_power, "CPU"@, self.cpu_power, self.cpu_temp.latest()),
            power_panel(p.gpu_power, "GPU"@, self.gpu_power, self.gpu_temp.latest()),
            power_panel(p.ane_power, "ANE"@, self.ane_power, whole(0)),
        ]
    }

    /// A dashboard that keeps its log at `log_path` from `start` on, and the header of the log,
    /// which the wall clock dates `now`.
    pub fn new(
        soc: SocInfo,
        cfg: Config,
        log_path: String,
        start: UnixTime,
        now: &Stamp,
    ) -> (r: (App, String))
        ensures
            r.0.wf(),
            r.0.is_fresh(),
            r.0.cfg == cfg,
            r.0.soc == soc,
            r.0.log_path == Some(log_path),
            r.0.start_time == Some(start),
            r.1@ == joined(header_text(soc, log_path@, *now), "\n"@),
    {
        let header: String = log_session_header(&soc, log_path.as_str(), now);
        let app: App = App {
            cfg,
            soc,
            mem: MemoryStore::new(),
            cpu_power: PowerStore::new(),
            gpu_power: PowerStore::new(),
            ane_power: PowerStore::new(),
            all_power: PowerStore::new(),
            sys_power: PowerStore::new(),
            cpu_temp: TempStore::new(),
            gpu_temp: TempStore::new(),
            ecpu_freq: FreqStore::new(),
            pcpu_freq: FreqStore::new(),
            igpu_freq: FreqStore::new(),
            log_path: Some(log_path),
            log_counter: 0,
            peaks: PeakStats::new(),
            start_time: Some(start),
        };
        (app, header)
    }

    /// Whether the sample fits.
    pub fn can_update(&self, data: &Metrics) -> (r: bool)
        requires
            self.wf(),
        ensures
            r == self.accepts(*data),
    {
        self.log_counter < u64::MAX && self.peaks.count < u64::MAX && self.cpu_power.can_push(
            Double::from_single(data.cpu_power),
        ) && self.gpu_power.can_push(Double::from_single(data.gpu_power))
            && self.ane_power.can_push(Double::from_single(data.ane_power))
            && self.all_power.can_push(Double::from_single(data.all_power))
            && self.sys_power.can_push(Double::from_single(data.sys_power))
    }

    /// Takes a sample in, and gives its log entry where a log is kept.
    pub fn update_metrics(&mut self, data: Metrics, now: &Stamp) -> (r: Option<String>)
        requires
            old(self).wf(),
            old(self).accepts(data),
        ensures
            final(self).wf(),
            old(self).advances(data, *final(self)),
            chars_of(r) == old(self).entry_after(data, *now),
    {
        self.peaks.update(&data);
        self.log_counter = self.log_counter + 1;
        let entry: Option<String> = match &self.log_path {
            Some(_) => Some(log_build_entry(&data, &self.soc, self.log_counter, now)),
            None => None,
        };
        self.cpu_power.push(Double::from_single(data.cpu_power));
        self.gpu_power.push(Double::from_single(data.gpu_power));
        self.ane_power.push(Double::from_single(data.ane_power));
        self.all_power.push(Double::from_single(data.all_power));
        self.sys_power.push(Double::from_single(data.sys_power));
        self.ecpu_freq.push(data.ecpu_usage.0 as u64, Double::from_single(data.ecpu_usage.1));
        self.pcpu_freq.push(data.pcpu_usage.0 as u64, Double::from_single(data.pcpu_usage.1));
        self.igpu_freq.push(data.gpu_usage.0 as u64, Double::from_single(data.gpu_usage.1));
        self.cpu_temp.push(data.temp.cpu_temp_avg);
        self.gpu_temp.push(data.temp.gpu_temp_avg);
        self.mem.push(data.memory);
        entry
    }

    /// What is drawn on `area`, in this order.
    pub fn render(&self, area: Area, brand: &str) -> (r: Vec<Panel>)
        ensures
            models(r@) == self.scene(brand@, layout(area)),
    {
        let p: Places = places(area);
        self.draw(&p, brand)
    }

    /// What is drawn where `p` says, in this order.
    pub fn draw(&self, p: &Places, brand: &str) -> (r: Vec<Panel>)
        ensures
            models(r@) == self.scene(brand@, *p),
    {
        let view: ViewType = self.cfg.view_type;
        let machine: String = fmt_machine(&self.soc);
        let ecpu: String = cat(self.soc.ecpu_label.as_str(), "-CPU");
        let pcpu: String = cat(self.soc.pcpu_label.as_str(), "-CPU");
        let r: Vec<Panel> = vec![
            title_block(p.upper, machine.as_str(), brand, Chart::Empty),
            render_freq_block(view, p.ecpu, ecpu.as_str(), &self.ecpu_freq),
            render_freq_block(view, p.pcpu, pcpu.as_str(), &self.pcpu_freq),
            render_mem_block(view, p.memory, &self.mem),
            render_freq_block(view, p.gpu, "GPU", &self.igpu_freq),
            lower_block(p.lower, &self.all_power, &self.sys_power, self.cfg.interval),
            get_power_block(p.cpu_power, "CPU", &self.cpu_power, self.cpu_temp.last()),
            get_power_block(p.gpu_power, "GPU", &self.gpu_power, self.gpu_temp.last()),
            get_power_block(p.ane_power, "ANE", &self.ane_power, Single::from_u16(0)),
        ];
        assert(models(r@) =~= self.scene(brand@, *p));
        r
    }

    /// Settles the interval that the dashboard starts with, and gives it to be shared with the
    /// sampler.
    pub fn begin(&mut self, interval: Option<u32>) -> (r: u32)
        ensures
            r == final(self).cfg.interval,
            *final(self) == (App {
                cfg: Config {
                    view_type: old(self).cfg.view_type,
                    interval: first_interval(interval, old(self).cfg.interval),
                },
                ..*old(self)
            }),
    {
        self.cfg.interval = starting_interval(interval, self.cfg.interval);
        self.cfg.interval
    }

    /// Takes over what `action` asked to be changed of the settings, from the changed ones, and
    /// gives the interval to be shared with the sampler where that was changed.
    pub fn settle(&mut self, action: &Action, cfg: Config) -> (r: Option<u32>)
        ensures
            *final(self) == old(self).settled(*action, cfg),
            r == to_share(*action, cfg),
    {
        match action {
            Action::NextView => {
                self.cfg.view_type = cfg.view_type;
                None
            },
            Action::Lengthen => {
                self.cfg.interval = cfg.interval;
                Some(cfg.interval)
            },
            Action::Shorten => {
                self.cfg.interval = cfg.interval;
                Some(cfg.interval)
            },
            _ => None,
        }
    }

    /// What an event asks for; `end` and `now` are the moment at which it is handled, on the
    /// system clock and on the wall clock.
    pub fn step(&mut self, event: Event, end: &UnixTime, now: &Stamp) -> (r: Action)
        requires
            old(self).wf(),
            event matches Event::Update(m) ==> old(self).accepts(m),
        ensures
            final(self).wf(),
            old(self).reacts(event, *end, *now, *final(self), r),
    {
        match event {
            Event::Update(data) => match self.update_metrics(data, now) {
                Some(entry) => Action::Append(entry),
                None => Action::Redraw,
            },
            Event::ChangeColor => Action::NextColor,
            Event::ChangeView => Action::NextView,
            Event::IncInterval => Action::Lengthen,
            Event::DecInterval => Action::Shorten,
            Event::Tick => Action::Redraw,
            Event::Quit => {
                let start: UnixTime = match &self.start_time {
                    Some(t) => *t,
                    None => *end,
                };
                match &self.log_path {
                    Some(path) => Action::Stop(
                        Some(
                            log_session_footer(
                                &self.soc,
                                path.as_str(),
                                self.log_counter,
                                &self.peaks,
                                &start,
                                end,
                                now,
                            ),
                        ),
                    ),
                    None => Action::Stop(None),
                }
            },
        }
    }
}

/// The interval to be shared with the sampler, where `action` asked to change it.
pub open spec fn to_share(action: Action, cfg: Config) -> Option<u32> {
    if action is Lengthen || action is Shorten {
        Some(cfg.interval)
    } else {
        None
    }
}

/// `states[i]` is the dashboard before the sample `samples[i]`, from a fresh one on.
pub open spec fn is_session(states: Seq<App>, samples: Seq<Metrics>) -> bool {
    &&& states.len() == samples.len() + 1
    &&& states[0].is_fresh()
    &&& forall|i: int|
        0 <= i < samples.len() ==> states[i].advances(#[trigger] samples[i], states[i + 1])
}

/// Over a session every sample is counted once, in the log as in the peaks; the machine, the
/// settings and the place of the log stay what they were; and the peaks cover every sample.
pub proof fn law_session(states: Seq<App>, samples: Seq<Metrics>)
    requires
        is_session(states, samples),
    ensures
        states.last().log_counter == samples.len(),
        states.last().peaks.count == samples.len(),
        states.last().cfg == states[0].cfg,
        states.last().soc == states[0].soc,
        states.last().log_path == states[0].log_path,
        states.last().start_time == states[0].start_time,
        forall|i: int| 0 <= i < samples.len() ==> states.last().peaks.covers(#[trigger] samples[i]),
{
    lemma_session_frame(states, samples);
    let track = Seq::new(states.len(), |i: int| states[i].peaks);
    lemma_peaks_track(states, samples);
    law_peaks_cover_the_session(track, samples);
    assert(track.last() == states.last().peaks);
}

/// The same at every point of a session.
pub proof fn law_session_so_far(states: Seq<App>, samples: Seq<Metrics>, k: int)
    requires
        is_session(states, samples),
        0 <= k <= samples.len(),
    ensures
        states[k].log_counter == k,
        states[k].cfg == states[0].cfg,
        states[k].soc == states[0].soc,
        states[k].log_path == states[0].log_path,
        states[k].start_time == states[0].start_time,
{
    let a = states.take(k + 1);
    let b = samples.take(k);
    assert forall|i: int| 0 <= i < b.len() implies a[i].advances(#[trigger] b[i], a[i + 1]) by {
        assert(states[i].advances(samples[i], states[i + 1]));
    }
    assert(a[0] == states[0] && a.last() == states[k]);
    lemma_session_frame(a, b);
}

/// The peaks of a session are those of its samples.
pub proof fn lemma_peaks_track(states: Seq<App>, samples: Seq<Metrics>)
    requires
        is_session(states, samples),
    ensures
        peaks::is_session(Seq::new(states.len(), |i: int| states[i].peaks), samples),
{
    let track = Seq::new(states.len(), |i: int| states[i].peaks);
    assert(states[0].is_fresh());
    assert forall|i: int| 0 <= i < samples.len() implies track[i].advances(
        #[trigger] samples[i],
        track[i + 1],
    ) by {
        assert(states[i].advances(samples[i], states[i + 1]));
    }
}

/// After a sample the dashboard shows what the sample says: loads with their frequencies, memory,
/// the temperatures, or what stands in for them where their sensors are silent, and the powers.
pub proof fn law_dashboard_shows_the_sample(before: App, m: Metrics, next: App)
    requires
        before.advances(m, next),
    ensures
        next.ecpu_freq.top_value == m.ecpu_usage.0,
        next.ecpu_freq.usage.num() == m.ecpu_usage.1.num(),
        next.pcpu_freq.top_value == m.pcpu_usage.0,
        next.pcpu_freq.usage.num() == m.pcpu_usage.1.num(),
        next.igpu_freq.top_value == m.gpu_usage.0,
        next.igpu_freq.usage.num() == m.gpu_usage.1.num(),
        next.mem.ram_usage == m.memory.ram_usage,
        next.mem.ram_total == m.memory.ram_total,
        next.mem.swap_usage == m.memory.swap_usage,
        next.mem.swap_total == m.memory.swap_total,
        next.mem.items@.contains(next.mem.max_ram),
        forall|i: int|
            0 <= i < next.mem.items@.len() ==> #[trigger] next.mem.items@[i] <= next.mem.max_ram,
        is_latest_heat(before.cpu_temp, m.temp.cpu_temp_avg, next.cpu_temp),
        is_latest_heat(before.gpu_temp, m.temp.gpu_temp_avg, next.gpu_temp),
        is_latest_power(before.cpu_power, m.cpu_power, next.cpu_power),
        is_latest_power(before.gpu_power, m.gpu_power, next.gpu_power),
        is_latest_power(before.ane_power, m.ane_power, next.ane_power),
        is_latest_power(before.all_power, m.all_power, next.all_power),
        is_latest_power(before.sys_power, m.sys_power, next.sys_power),
{
    law_greatest(next.mem.items@);
    assert(next.mem.items@[0] == m.memory.ram_usage);
    lemma_latest_heat(before.cpu_temp, m.temp.cpu_temp_avg, next.cpu_temp);
    lemma_latest_heat(before.gpu_temp, m.temp.gpu_temp_avg, next.gpu_temp);
    lemma_latest_power(before.cpu_power, m.cpu_power, next.cpu_power);
    lemma_latest_power(before.gpu_power, m.gpu_power, next.gpu_power);
    lemma_latest_power(before.ane_power, m.ane_power, next.ane_power);
    lemma_latest_power(before.all_power, m.all_power, next.all_power);
    lemma_latest_power(before.sys_power, m.sys_power, next.sys_power);
}

/// The temperature shown is the reading; where the sensor is silent, the trend of the readings before
/// it, if it is not zero, and else what was shown.
pub open spec fn is_latest_heat(before: TempStore, value: Single, next: TempStore) -> bool {
    let t = trend(nums(before.items@), trend_weight().num());
    if !is_zero(value.num()) {
        next.latest() == value.num()
    } else if before.items.len() >= 2 && !is_zero(t) {
        next.latest() == t
    } else {
        nums(next.items@) == nums(before.items@)
    }
}

proof fn lemma_latest_heat(before: TempStore, value: Single, next: TempStore)
    requires
        nums(next.items@) == temps_after(nums(before.items@), value.num()),
    ensures
        is_latest_heat(before, value, next),
{
    let items = nums(before.items@);
    let t = trend(items, trend_weight().num());
    lemma_mul_basics(one() as int);
    assert(items.len() == before.items.len());
    if !is_zero(value.num()) {
        assert(nums(next.items@)[0] == value.num());
        assert(nums(next.items@).len() > 0);
    } else if items.len() >= 2 && !is_zero(t) {
        assert(nums(next.items@)[0] == t);
        assert(nums(next.items@).len() > 0);
    }
}

/// The power shown is the reading, averaged with the one before it.
pub open spec fn is_latest_power(before: PowerStore, value: Single, next: PowerStore) -> bool {
    is_moderate(value.num()) && (before.items.len() > 0 ==> before.items@[0] < pow2(53))
        ==> is_latest(next.top_value.num(), before.items@, value.num())
}

proof fn lemma_latest_power(before: PowerStore, value: Single, next: PowerStore)
    requires
        before.advances(value.num(), next),
    ensures
        is_latest_power(before, value, next),
{
    if is_moderate(value.num()) && (before.items.len() > 0 ==> before.items@[0] < pow2(53)) {
        law_latest_is_smoothed(before, value.num(), next);
    }
}

/// What a sample leaves as it was.
spec fn frame(a: App) -> (Config, SocInfo, Option<String>, Option<UnixTime>) {
    (a.cfg, a.soc, a.log_path, a.start_time)
}

proof fn lemma_session_frame(states: Seq<App>, samples: Seq<Metrics>)
    requires
        is_session(states, samples),
    ensures
        states.last().log_counter == samples.len(),
        frame(states.last()) == frame(states[0]),
{
    let track = states.map_values(|a: App| (frame(a), a.log_counter as int));
    assert forall|i: int, j: int|
        0 <= i < track.len() && j == i + 1 && j < track.len() implies (#[trigger] track[j]).0
        == track[i].0 && track[j].1 == (#[trigger] track[i]).1 + 1 by {
        assert(states[i].advances(samples[i], states[i + 1]));
    }
    lemma_counted(track, samples.len() as int);
}

/// What stays the same from each to the next is the same in all; what grows by one counts them.
proof fn lemma_counted<T>(track: Seq<(T, int)>, k: int)
    requires
        0 <= k < track.len(),
        forall|i: int, j: int|
            0 <= i < track.len() && j == i + 1 && j < track.len() ==> (#[trigger] track[j]).0
                == track[i].0 && track[j].1 == (#[trigger] track[i]).1 + 1,
    ensures
        track[k].0 == track[0].0,
        track[k].1 == track[0].1 + k,
    decreases k,
{
    if k > 0 {
        lemma_counted(track, k - 1);
        assert(track[k].0 == track[k - 1].0);
    }
}

/// Every power of the sample is at most a gigawatt.
pub open spec fn is_moderate_sample(m: Metrics) -> bool {
    &&& is_moderate(m.cpu_power.num())
    &&& is_moderate(m.gpu_power.num())
    &&& is_moderate(m.ane_power.num())
    &&& is_moderate(m.all_power.num())
    &&& is_moderate(m.sys_power.num())
}

proof fn lemma_next_is_accepted(
    states: Seq<App>,
    samples: Seq<Metrics>,
    store: spec_fn(App) -> PowerStore,
    value: spec_fn(Metrics) -> Num,
    m: Metrics,
)
    requires
        is_session(states, samples),
        forall|i: int| 0 <= i < samples.len() ==> is_moderate(value(#[trigger] samples[i])),
        is_moderate(value(m)),
        forall|a: App| #[trigger] a.is_fresh() ==> store(a).is_fresh(),
        forall|a: App, x: Metrics, b: App| #[trigger]
            a.advances(x, b) ==> store(a).advances(value(x), store(b)),
    ensures
        store(states.last()).accepts(value(m)),
{
    let track = states.map_values(store);
    let values = samples.map_values(value);
    assert(states[0].is_fresh());
    assert forall|i: int| 0 <= i < values.len() implies track[i].advances(
        #[trigger] values[i],
        track[i + 1],
    ) by {
        assert(states[i].advances(samples[i], states[i + 1]));
    }
    assert forall|i: int| 0 <= i < values.len() implies is_moderate(#[trigger] values[i]) by {
        assert(is_moderate(value(samples[i])));
    }
    law_next_power_is_accepted(track, values, value(m));
    assert(track.last() == store(states.last()));
}

/// A dashboard that has only seen powers of up to a gigawatt takes every further sample with such
/// powers in, as long as its counter can count it.
pub proof fn law_moderate_samples_are_accepted(
    states: Seq<App>,
    samples: Seq<Metrics>,
    m: Metrics,
)
    requires
        is_session(states, samples),
        samples.len() < u64::MAX,
        forall|i: int| 0 <= i < samples.len() ==> is_moderate_sample(#[trigger] samples[i]),
        is_moderate_sample(m),
    ensures
        states.last().accepts(m),
{
    law_session(states, samples);
    lemma_next_is_accepted(
        states,
        samples,
        |a: App| a.cpu_power,
        |x: Metrics| x.cpu_power.num(),
        m,
    );
    lemma_next_is_accepted(
        states,
        samples,
        |a: App| a.gpu_power,
        |x: Metrics| x.gpu_power.num(),
        m,
    );
    lemma_next_is_accepted(
        states,
        samples,
        |a: App| a.ane_power,
        |x: Metrics| x.ane_power.num(),
        m,
    );
    lemma_next_is_accepted(
        states,
        samples,
        |a: App| a.all_power,
        |x: Metrics| x.all_power.num(),
        m,
    );
    lemma_next_is_accepted(
        states,
        samples,
        |a: App| a.sys_power,
        |x: Metrics| x.sys_power.num(),
        m,
    );
}

/// A chart shows `value` of the samples that were taken last, the newest first.
pub open spec fn is_chart(
    items: Seq<u64>,
    samples: Seq<Metrics>,
    value: spec_fn(Metrics) -> u64,
) -> bool {
    is_history(items, samples.map_values(value), MAX_SPARKLINE as nat)
}

proof fn lemma_chart(
    states: Seq<App>,
    samples: Seq<Metrics>,
    items: spec_fn(App) -> Seq<u64>,
    value: spec_fn(Metrics) -> u64,
)
    requires
        is_session(states, samples),
        forall|a: App| #[trigger] a.is_fresh() ==> items(a) == Seq::<u64>::empty(),
        forall|a: App, m: Metrics, b: App| #[trigger]
            a.advances(m, b) ==> items(b) == pushed(items(a), value(m), MAX_SPARKLINE as nat),
    ensures
        is_chart(items(states.last()), samples, value),
{
    let track = states.map_values(items);
    let values = samples.map_values(value);
    assert(states[0].is_fresh());
    assert forall|i: int| 0 <= i < values.len() implies track[i + 1] == pushed(
        track[i],
        #[trigger] values[i],
        MAX_SPARKLINE as nat,
    ) by {
        assert(states[i].advances(samples[i], states[i + 1]));
    }
    law_history(track, values, MAX_SPARKLINE as nat);
}

/// Over a session every chart shows the samples that were taken last, the newest first: powers in
/// milliwatts, loads in percent, memory in bytes.
pub proof fn law_charts_show_the_latest(states: Seq<App>, samples: Seq<Metrics>)
    requires
        is_session(states, samples),
    ensures
        is_chart(
            states.last().cpu_power.items@,
            samples,
            |m: Metrics| milliwatts(m.cpu_power.num()) as u64,
        ),
        is_chart(
            states.last().gpu_power.items@,
            samples,
            |m: Metrics| milliwatts(m.gpu_power.num()) as u64,
        ),
        is_chart(
            states.last().ane_power.items@,
            samples,
            |m: Metrics| milliwatts(m.ane_power.num()) as u64,
        ),
        is_chart(
            states.last().all_power.items@,
            samples,
            |m: Metrics| milliwatts(m.all_power.num()) as u64,
        ),
        is_chart(
            states.last().sys_power.items@,
            samples,
            |m: Metrics| milliwatts(m.sys_power.num()) as u64,
        ),
        is_chart(
            states.last().ecpu_freq.items@,
            samples,
            |m: Metrics| percent(m.ecpu_usage.1.num()) as u64,
        ),
        is_chart(
            states.last().pcpu_freq.items@,
            samples,
            |m: Metrics| percent(m.pcpu_usage.1.num()) as u64,
        ),
        is_chart(
            states.last().igpu_freq.items@,
            samples,
            |m: Metrics| percent(m.gpu_usage.1.num()) as u64,
        ),
        is_chart(states.last().mem.items@, samples, |m: Metrics| m.memory.ram_usage),
{
    lemma_chart(
        states,
        samples,
        |a: App| a.cpu_power.items@,
        |m: Metrics| milliwatts(m.cpu_power.num()) as u64,
    );
    lemma_chart(
        states,
        samples,
        |a: App| a.gpu_power.items@,
        |m: Metrics| milliwatts(m.gpu_power.num()) as u64,
    );
    lemma_chart(
        states,
        samples,
        |a: App| a.ane_power.items@,
        |m: Metrics| milliwatts(m.ane_power.num()) as u64,
    );
    lemma_chart(
        states,
        samples,
        |a: App| a.all_power.items@,
        |m: Metrics| milliwatts(m.all_power.num()) as u64,
    );
    lemma_chart(
        states,
        samples,
        |a: App| a.sys_power.items@,
        |m: Metrics| milliwatts(m.sys_power.num()) as u64,
    );
    lemma_chart(
        states,
        samples,
        |a: App| a.ecpu_freq.items@,
        |m: Metrics| percent(m.ecpu_usage.1.num()) as u64,
    );
    lemma_chart(
        states,
        samples,
        |a: App| a.pcpu_freq.items@,
        |m: Metrics| percent(m.pcpu_usage.1.num()) as u64,
    );
    lemma_chart(
        states,
        samples,
        |a: App| a.igpu_freq.items@,
        |m: Metrics| percent(m.gpu_usage.1.num()) as u64,
    );
    lemma_chart(states, samples, |a: App| a.mem.items@, |m: Metrics| m.memory.ram_usage);
}

/// One turn of the dashboard: an event at a moment, the dashboard after it, what was asked for, and
/// the settings that came of it.
pub struct Turn {
    pub event: Event,
    pub end: UnixTime,
    pub now: Stamp,
    pub stepped: App,
    pub action: Action,
    pub chosen: Config,
}

/// `states[i]` and `shared[i]` are the dashboard and the interval that the sampler goes by before
/// the turn `turns[i]`; at first the interval is the one that was settled.
pub open spec fn is_run(states: Seq<App>, shared: Seq<u32>, turns: Seq<Turn>) -> bool {
    &&& states.len() == turns.len() + 1
    &&& shared.len() == turns.len() + 1
    &&& shared[0] == states[0].cfg.interval
    &&& forall|i: int|
        0 <= i < turns.len() ==> {
            let t = #[trigger] turns[i];
            &&& states[i].reacts(t.event, t.end, t.now, t.stepped, t.action)
            &&& states[i + 1] == t.stepped.settled(t.action, t.chosen)
            &&& shared[i + 1] == match to_share(t.action, t.chosen) {
                Some(interval) => interval,
                None => shared[i],
            }
        }
}

/// The sampler goes by the interval of the settings, after every event. Only the keys that lengthen
/// and shorten the interval change it, only the key for the view changes the view, and a tick
/// changes nothing.
pub proof fn law_interval_is_shared(states: Seq<App>, shared: Seq<u32>, turns: Seq<Turn>)
    requires
        is_run(states, shared, turns),
    ensures
        forall|i: int| 0 <= i < states.len() ==> shared[i] == (#[trigger] states[i]).cfg.interval,
        forall|i: int|
            #![trigger turns[i]]
            0 <= i < turns.len() ==> {
                let event = turns[i].event;
                &&& !(event is IncInterval || event is DecInterval) ==> shared[i + 1] == shared[i]
                    && states[i + 1].cfg.interval == states[i].cfg.interval
                &&& event !is ChangeView ==> states[i + 1].cfg.view_type == states[i].cfg.view_type
                &&& event is Tick || event is ChangeColor || event is Quit ==> states[i + 1]
                    == states[i]
                &&& event is IncInterval || event is DecInterval ==> shared[i + 1]
                    == turns[i].chosen.interval && states[i + 1].cfg.interval
                    == turns[i].chosen.interval
                &&& event is ChangeView ==> states[i + 1].cfg.view_type == turns[i].chosen.view_type
                &&& event is IncInterval <==> turns[i].action is Lengthen
                &&& event is DecInterval <==> turns[i].action is Shorten
                &&& event is ChangeView <==> turns[i].action is NextView
                &&& event is ChangeColor <==> turns[i].action is NextColor
                &&& event is Quit <==> turns[i].action is Stop
            },
{
    assert forall|i: int| 0 <= i < states.len() implies shared[i] == (
    #[trigger] states[i]).cfg.interval by {
        lemma_shared_at(states, shared, turns, i);
    }
}

proof fn lemma_shared_at(states: Seq<App>, shared: Seq<u32>, turns: Seq<Turn>, k: int)
    requires
        is_run(states, shared, turns),
        0 <= k < states.len(),
    ensures
        shared[k] == states[k].cfg.interval,
    decreases k,
{
    if k > 0 {
        lemma_shared_at(states, shared, turns, k - 1);
        let t = turns[k - 1];
        assert(states[k - 1].reacts(t.event, t.end, t.now, t.stepped, t.action));
    }
}

} // verus!
