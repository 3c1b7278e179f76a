use macmon::app::{Action, App, Config};
use macmon::clock::{Stamp, UnixTime};
use macmon::control::Event;
use macmon::ieee::{Double, Single};
use macmon::metrics::{MemMetrics, Metrics, SocInfo, TempMetrics};
use macmon::panels::{brand, Chart, ViewType};
use macmon::peaks::PeakStats;
use macmon::screen::{h_stack, places, Area};
use macmon::session_log::{log_build_entry, log_session_footer, log_session_header};

fn s(x: f32) -> Single {
    Single { bits: x.to_bits() }
}

fn f(x: Double) -> f64 {
    f64::from_bits(x.bits)
}

fn soc() -> SocInfo {
    SocInfo {
        chip_name: "Apple M3".to_string(),
        mac_model: "Mac15,3".to_string(),
        memory_gb: 16,
        ecpu_cores: 4,
        ecpu_label: "E".to_string(),
        ecpu_freqs: vec![744, 2748],
        pcpu_cores: 4,
        pcpu_label: "P".to_string(),
        pcpu_freqs: vec![816, 4056],
        gpu_cores: 10,
        gpu_freqs: vec![338, 1380],
    }
}

fn sample(x: f32) -> Metrics {
    Metrics {
        temp: TempMetrics { cpu_temp_avg: s(45.25), gpu_temp_avg: s(0.0) },
        memory: MemMetrics {
            ram_total: 17_179_869_184,
            ram_usage: 8_589_934_592,
            swap_total: 2_147_483_648,
            swap_usage: 536_870_912,
        },
        ecpu_usage: (1000, s(0.25)),
        pcpu_usage: (4056, s(0.5)),
        gpu_usage: (338, s(0.031)),
        cpu_usage_pct: s(0.4),
        cpu_power: s(x),
        gpu_power: s(0.5),
        ane_power: s(0.0),
        all_power: s(x + 0.5),
        sys_power: s(0.0),
    }
}

fn now() -> Stamp {
    Stamp::new(2026, 4, 11, 14, 23, 7, 1_000_000).unwrap()
}

fn t(secs: i64) -> UnixTime {
    UnixTime::new(secs, 0).unwrap()
}

fn app(view_type: ViewType) -> App {
    let cfg = Config { view_type, interval: 1000 };
    App::new(soc(), cfg, "log.txt".to_string(), t(100), &now()).0
}

fn screen(width: u16, height: u16) -> Area {
    Area { x: 0, y: 0, width, height }
}

fn within(outer: Area, inner: Area) -> bool {
    outer.x <= inner.x
        && outer.y <= inner.y
        && inner.x as u32 + inner.width as u32 <= outer.x as u32 + outer.width as u32
        && inner.y as u32 + inner.height as u32 <= outer.y as u32 + outer.height as u32
}

#[test]
fn halves_side_by_side() {
    let (l, r) = h_stack(Area { x: 3, y: 4, width: 20, height: 6 });
    assert_eq!(l, Area { x: 3, y: 4, width: 10, height: 6 });
    assert_eq!(r, Area { x: 13, y: 4, width: 10, height: 6 });
}

#[test]
fn the_screen_is_laid_out_in_frames() {
    let p = places(screen(92, 36));
    assert_eq!(p.upper, Area { x: 0, y: 0, width: 92, height: 24 });
    assert_eq!(p.lower, Area { x: 0, y: 24, width: 92, height: 12 });
    assert_eq!(p.ecpu, Area { x: 1, y: 1, width: 45, height: 11 });
    assert_eq!(p.pcpu, Area { x: 46, y: 1, width: 45, height: 11 });
    assert_eq!(p.memory, Area { x: 1, y: 12, width: 45, height: 11 });
    assert_eq!(p.gpu, Area { x: 46, y: 12, width: 45, height: 11 });
    assert_eq!(p.cpu_power, Area { x: 1, y: 25, width: 30, height: 10 });
    assert_eq!(p.gpu_power, Area { x: 31, y: 25, width: 30, height: 10 });
    assert_eq!(p.ane_power, Area { x: 61, y: 25, width: 30, height: 10 });
}

#[test]
fn panels_are_on_screen_whatever_its_size() {
    let mut areas = vec![
        Area { x: u16::MAX, y: u16::MAX, width: u16::MAX, height: u16::MAX },
        Area { x: 65_000, y: 65_530, width: 1000, height: 40 },
        Area { x: 0, y: 0, width: u16::MAX, height: u16::MAX },
        Area { x: 17, y: 0, width: 1, height: 1 },
    ];
    for width in 0..12 {
        for height in 0..12 {
            areas.push(Area { x: 5, y: 7, width, height });
        }
    }
    for area in areas {
        let p = places(area);
        assert!(within(area, p.upper) && within(area, p.lower));
        assert_eq!(p.upper.width, area.width);
        for part in [p.ecpu, p.pcpu, p.memory, p.gpu] {
            assert!(within(p.upper, part));
        }
        for part in [p.cpu_power, p.gpu_power, p.ane_power] {
            assert!(within(p.lower, part));
        }
        assert_eq!((p.ecpu.y, p.ecpu.height), (p.pcpu.y, p.pcpu.height));
        assert_eq!((p.memory.y, p.memory.height), (p.gpu.y, p.gpu.height));
        assert_eq!((p.cpu_power.y, p.cpu_power.height), (p.ane_power.y, p.ane_power.height));
    }
}

/// The part of a stretch from share `c` to share `d`, of `t` in all.
fn cut(start: u16, length: u16, c: u64, d: u64, t: u64) -> (u16, u16) {
    let reach = (length as u64).min(65_535 - start as u64);
    let at = |c: u64| start as u64 + (2 * reach * c + t) / (2 * t);
    (at(c) as u16, (at(d) - at(c)) as u16)
}

fn row(area: Area, c: u64, d: u64, t: u64) -> Area {
    let (y, height) = cut(area.y, area.height, c, d, t);
    Area { y, height, ..area }
}

fn column(area: Area, c: u64, d: u64, t: u64) -> Area {
    let (x, width) = cut(area.x, area.width, c, d, t);
    Area { x, width, ..area }
}

fn inside(area: Area) -> Area {
    Area {
        x: if area.width == 0 { area.x } else { area.x.saturating_add(1) },
        y: if area.height == 0 { area.y } else { area.y.saturating_add(1) },
        width: area.width.saturating_sub(2),
        height: area.height.saturating_sub(2),
    }
}

#[test]
fn panels_have_their_shares_whatever_the_size_of_the_screen() {
    let mut areas = vec![
        Area { x: u16::MAX, y: u16::MAX, width: u16::MAX, height: u16::MAX },
        Area { x: 65_000, y: 65_530, width: 1000, height: 40 },
        Area { x: 0, y: 0, width: u16::MAX, height: u16::MAX },
        Area { x: 1, y: 2, width: 65_533, height: 65_531 },
    ];
    for size in 0..400 {
        areas.push(Area { x: 0, y: 0, width: size, height: size });
        areas.push(Area { x: 401 - size, y: 7 * size, width: 3 * size + 1, height: size / 2 });
    }
    for area in areas {
        let p = places(area);
        let (upper, lower) = (row(area, 0, 2, 3), row(area, 2, 3, 3));
        assert_eq!((p.upper, p.lower), (upper, lower));
        let (first, second) = (row(inside(upper), 0, 1, 2), row(inside(upper), 1, 2, 2));
        assert_eq!((p.ecpu, p.pcpu), (column(first, 0, 1, 2), column(first, 1, 2, 2)));
        assert_eq!((p.memory, p.gpu), (column(second, 0, 1, 2), column(second, 1, 2, 2)));
        assert_eq!(p.cpu_power, column(inside(lower), 0, 1, 3));
        assert_eq!(p.gpu_power, column(inside(lower), 1, 2, 3));
        assert_eq!(p.ane_power, column(inside(lower), 2, 3, 3));
    }
}

#[test]
fn neighbours_share_what_does_not_divide() {
    let (l, r) = h_stack(Area { x: 3, y: 4, width: 15, height: 6 });
    assert_eq!(l, Area { x: 3, y: 4, width: 8, height: 6 });
    assert_eq!(r, Area { x: 11, y: 4, width: 7, height: 6 });
    let p = places(screen(12, 8));
    assert_eq!(p.upper, Area { x: 0, y: 0, width: 12, height: 5 });
    assert_eq!(p.lower, Area { x: 0, y: 5, width: 12, height: 3 });
    assert_eq!(p.cpu_power, Area { x: 1, y: 6, width: 3, height: 1 });
    assert_eq!(p.gpu_power, Area { x: 4, y: 6, width: 4, height: 1 });
    assert_eq!(p.ane_power, Area { x: 8, y: 6, width: 3, height: 1 });
}

#[test]
fn a_new_dashboard_starts_its_log() {
    let cfg = Config { view_type: ViewType::Gauge, interval: 700 };
    let (app, header) = App::new(soc(), cfg, "log.txt".to_string(), t(100), &now());
    assert_eq!(header, log_session_header(&soc(), "log.txt", &now()));
    assert_eq!(app.log_path, Some("log.txt".to_string()));
    assert_eq!(app.log_counter, 0);
    assert_eq!(app.peaks.count, 0);
    assert_eq!(app.cfg.interval, 700);
    assert!(app.mem.items.is_empty());
    assert!(app.cpu_temp.items.is_empty());
}

#[test]
fn samples_are_logged_and_kept() {
    let mut app = app(ViewType::Sparkline);
    for i in 1..=130u64 {
        let m = sample(i as f32);
        assert!(app.can_update(&m));
        match app.step(Event::Update(m), &t(200), &now()) {
            Action::Append(text) => assert_eq!(text, log_build_entry(&m, &soc(), i, &now())),
            _ => panic!("no entry"),
        }
        assert_eq!(app.log_counter, i);
        assert_eq!(app.peaks.count, i);
    }
    assert_eq!(app.cpu_power.items.len(), 128);
    assert_eq!(app.cpu_power.items[0], 130_000);
    assert_eq!(f(app.cpu_power.top_value), 129.5);
    assert_eq!(app.ecpu_freq.items[0], 25);
    assert_eq!(app.pcpu_freq.items[0], 50);
    assert_eq!(app.igpu_freq.items[0], 3);
    assert_eq!(app.cpu_temp.items.len(), 8);
    assert!(app.gpu_temp.items.is_empty());
    assert_eq!(app.mem.ram_usage, 8_589_934_592);
    assert_eq!(f32::from_bits(app.peaks.cpu_power.bits), 130.0);
}

#[test]
fn without_a_log_nothing_is_written() {
    let mut app = app(ViewType::Sparkline);
    app.log_path = None;
    assert!(matches!(app.step(Event::Update(sample(1.0)), &t(200), &now()), Action::Redraw));
    assert_eq!(app.log_counter, 1);
    assert!(matches!(app.step(Event::Quit, &t(200), &now()), Action::Stop(None)));
}

#[test]
fn a_sample_that_does_not_fit_is_told() {
    let mut app = app(ViewType::Sparkline);
    let m = sample(f32::INFINITY);
    assert!(app.can_update(&m));
    app.step(Event::Update(m), &t(200), &now());
    assert!(!app.can_update(&sample(1.0)));
    app.log_counter = u64::MAX;
    assert!(!app.can_update(&sample(0.0)));
}

#[test]
fn quitting_ends_the_log() {
    let mut app = app(ViewType::Sparkline);
    let mut peaks = PeakStats::new();
    for x in [3.0, 9.0, 6.0] {
        app.step(Event::Update(sample(x)), &t(150), &now());
        peaks.update(&sample(x));
    }
    let footer = log_session_footer(&soc(), "log.txt", 3, &peaks, &t(100), &t(175), &now());
    match app.step(Event::Quit, &t(175), &now()) {
        Action::Stop(Some(text)) => {
            assert_eq!(text, footer);
            assert!(text.contains("  Durata sessione   : 1m 15s\n"));
            assert!(text.contains("  Campioni totali   : 3\n"));
            assert!(text.contains("  CPU power max     :   9.00 W\n"));
            assert!(text.contains("  CPU power avg     :   6.00 W\n"));
        }
        _ => panic!("no footer"),
    }
    app.start_time = None;
    match app.step(Event::Quit, &t(175), &now()) {
        Action::Stop(Some(text)) => assert!(text.contains("  Durata sessione   : 0s\n")),
        _ => panic!("no footer"),
    }
}

#[test]
fn other_events_change_nothing() {
    let mut app = app(ViewType::Gauge);
    assert!(matches!(app.step(Event::ChangeColor, &t(1), &now()), Action::NextColor));
    assert!(matches!(app.step(Event::ChangeView, &t(1), &now()), Action::NextView));
    assert!(matches!(app.step(Event::IncInterval, &t(1), &now()), Action::Lengthen));
    assert!(matches!(app.step(Event::DecInterval, &t(1), &now()), Action::Shorten));
    assert!(matches!(app.step(Event::Tick, &t(1), &now()), Action::Redraw));
    assert_eq!(app.log_counter, 0);
    assert_eq!(app.cfg.interval, 1000);
    assert_eq!(app.cfg.view_type, ViewType::Gauge);
}

#[test]
fn settings() {
    let mut app = app(ViewType::Gauge);
    assert_eq!(app.begin(Some(20)), 100);
    assert_eq!(app.cfg.interval, 100);
    assert_eq!(app.begin(None), 100);
    assert_eq!(app.begin(Some(20_000)), 10_000);
    assert_eq!(app.cfg.interval, 10_000);
    let chosen = Config { view_type: ViewType::Sparkline, interval: 550 };
    for action in [Action::Redraw, Action::NextColor, Action::Append(String::new())] {
        assert_eq!(app.settle(&action, chosen), None);
        assert_eq!(app.cfg.interval, 10_000);
        assert_eq!(app.cfg.view_type, ViewType::Gauge);
    }
    assert_eq!(app.settle(&Action::NextView, chosen), None);
    assert_eq!(app.cfg.interval, 10_000);
    assert_eq!(app.cfg.view_type, ViewType::Sparkline);
    let chosen = Config { view_type: ViewType::Gauge, interval: 550 };
    assert_eq!(app.settle(&Action::Lengthen, chosen), Some(550));
    assert_eq!(app.cfg.interval, 550);
    assert_eq!(app.cfg.view_type, ViewType::Sparkline);
    let chosen = Config { view_type: ViewType::Gauge, interval: 250 };
    assert_eq!(app.settle(&Action::Shorten, chosen), Some(250));
    assert_eq!(app.cfg.interval, 250);
}

#[test]
fn the_sampler_goes_by_the_interval_of_the_settings() {
    let mut app = app(ViewType::Sparkline);
    let mut shared = app.begin(Some(1000));
    let events = [
        Event::Tick,
        Event::IncInterval,
        Event::ChangeView,
        Event::Update(sample(1.0)),
        Event::IncInterval,
        Event::ChangeColor,
        Event::DecInterval,
    ];
    let mut seen = Vec::new();
    for event in events {
        let action = app.step(event, &t(1), &now());
        let mut chosen = app.cfg;
        match action {
            Action::Lengthen => chosen.interval += 250,
            Action::Shorten => chosen.interval -= 250,
            _ => {}
        }
        if let Some(interval) = app.settle(&action, chosen) {
            shared = interval;
        }
        assert_eq!(shared, app.cfg.interval);
        seen.push(shared);
    }
    assert_eq!(seen, vec![1000, 1250, 1250, 1250, 1500, 1500, 1250]);
}

fn titles(app: &App) -> Vec<(Option<String>, Option<String>, Option<String>)> {
    let panels = app.render(screen(92, 36), &brand("macmon", "0.1.0"));
    panels.iter().map(|p| (p.left.clone(), p.right.clone(), p.bottom.clone())).collect()
}

fn some(text: &str) -> Option<String> {
    Some(text.to_string())
}

#[test]
fn titles_of_an_idle_dashboard() {
    let help = " 'q' – quit, 'c' – color, 'v' – view | -/+ 1000ms ";
    let power = |label: &str| (some(&format!(" {} 0.00W (0.00, 0.00) ", label)), None, None);
    assert_eq!(
        titles(&app(ViewType::Sparkline)),
        vec![
            (some(" Apple M3 (4E+4P+10GPU 16GB) "), some(" macmon v0.1.0 "), None),
            (some(" E-CPU   0% @    0 MHz "), None, None),
            (some(" P-CPU   0% @    0 MHz "), None, None),
            (some(" RAM 0.00 /  0.0 GB (0.0%) "), some(" SWAP 0.00 / 0.0 GB "), None),
            (some(" GPU   0% @    0 MHz "), None, None),
            (some(" Power: 0.00W (avg 0.00W, max 0.00W) "), None, some(help)),
            power("CPU"),
            power("GPU"),
            power("ANE"),
        ]
    );
}

#[test]
fn titles_of_a_busy_dashboard() {
    let mut app = app(ViewType::Sparkline);
    let mut m = sample(3.0);
    m.sys_power = s(7.5);
    app.step(Event::Update(m), &t(1), &now());
    m.cpu_power = s(4.5);
    m.sys_power = s(8.5);
    app.step(Event::Update(m), &t(1), &now());
    let help = " 'q' – quit, 'c' – color, 'v' – view | -/+ 1000ms ";
    assert_eq!(
        titles(&app),
        vec![
            (some(" Apple M3 (4E+4P+10GPU 16GB) "), some(" macmon v0.1.0 "), None),
            (some(" E-CPU  25% @ 1000 MHz "), None, None),
            (some(" P-CPU  50% @ 4056 MHz "), None, None),
            (some(" RAM 8.00 / 16.0 GB (50.0%) "), some(" SWAP 0.50 / 2.0 GB "), None),
            (some(" GPU   3% @  338 MHz "), None, None),
            (
                some(" Power: 3.50W (avg 3.50W, max 3.50W) "),
                some(" Total 8.00W (8.00, 8.50) "),
                some(help)
            ),
            (some(" CPU 3.75W (3.75, 4.50) "), some(" 45.2°C "), None),
            (some(" GPU 0.50W (0.50, 0.50) "), None, None),
            (some(" ANE 0.00W (0.00, 0.00) "), None, None),
        ]
    );
}

#[test]
fn charts_of_either_view() {
    let mut app = app(ViewType::Sparkline);
    app.step(Event::Update(sample(3.0)), &t(1), &now());
    let p = places(screen(92, 36));
    let panels = app.draw(&p, "");
    assert_eq!(panels.len(), 9);
    assert!(panels[0].right.is_none());
    assert_eq!(panels[3].area, p.memory);
    assert_eq!(panels[8].area, p.ane_power);
    assert!(matches!(panels[0].chart, Chart::Empty));
    assert!(matches!(panels[5].chart, Chart::Empty));
    let line = |chart: &Chart| match chart {
        Chart::Sparkline { data, max } => (data.clone(), *max),
        _ => panic!("no line"),
    };
    assert_eq!(line(&panels[1].chart), (vec![25], Some(100)));
    assert_eq!(line(&panels[3].chart), (vec![8_589_934_592], Some(17_179_869_184)));
    assert_eq!(line(&panels[6].chart), (vec![3000], None));
    app.settle(&Action::NextView, Config { view_type: ViewType::Gauge, interval: 1000 });
    let panels = app.draw(&p, "");
    let gauge = |chart: &Chart| match chart {
        Chart::Gauge { ratio } => f(*ratio),
        _ => panic!("no gauge"),
    };
    assert_eq!(gauge(&panels[1].chart), 0.25);
    assert_eq!(gauge(&panels[2].chart), 0.5);
    assert_eq!(gauge(&panels[3].chart), 0.5);
    assert_eq!(gauge(&panels[4].chart), 0.031f32 as f64);
    assert_eq!(line(&panels[6].chart), (vec![3000], None));
}
