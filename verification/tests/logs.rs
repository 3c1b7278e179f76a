use macmon::clock::{Stamp, UnixTime};
use macmon::ieee::Single;
use macmon::metrics::{MemMetrics, Metrics, SocInfo, TempMetrics};
use macmon::peaks::PeakStats;
use macmon::sample_log::{build_entry, build_session_header, intro, outro, summary};
use macmon::session_log::{
    log_build_entry, log_file_name, log_session_footer, log_session_header,
};

const TOP: &str = "╔══════════════════════════════════════════════════════════════╗";
const BOTTOM: &str = "╚══════════════════════════════════════════════════════════════╝";
const RULE: &str = "─────────────────────────────────────────────────────────────";
const CLOSE: &str = "═══════════════════════════════════════════════════════════════";
const BEGIN: &str = "║              INIZIO SESSIONE — macmon log                    ║";
const END: &str = "║               FINE SESSIONE — macmon log                    ║";
const MACHINE: &str = "  ── INFORMAZIONI MACCHINA ─────────────────────────────────────";
const RANGES: &str = "  ── RANGE FREQUENZE DISPONIBILI ───────────────────────────────";
const PEAKS: &str = "  ── PICCHI RILEVATI DURANTE LA SESSIONE ───────────────────────";
const MEANS: &str = "  ── MEDIE DURANTE LA SESSIONE ─────────────────────────────────";

fn s(x: f32) -> Single {
    Single { bits: x.to_bits() }
}

fn soc() -> SocInfo {
    SocInfo {
        chip_name: "Apple M4 Pro".to_string(),
        mac_model: "Mac16,6".to_string(),
        memory_gb: 48,
        ecpu_cores: 4,
        ecpu_label: "E".to_string(),
        ecpu_freqs: vec![1020, 1404, 2592],
        pcpu_cores: 10,
        pcpu_label: "P".to_string(),
        pcpu_freqs: vec![1260, 3000, 4512],
        gpu_cores: 20,
        gpu_freqs: vec![338, 1578],
    }
}

fn bare_soc() -> SocInfo {
    SocInfo {
        chip_name: "".to_string(),
        mac_model: "?".to_string(),
        memory_gb: 0,
        ecpu_cores: 255,
        ecpu_label: "Efficiency".to_string(),
        ecpu_freqs: vec![],
        pcpu_cores: 255,
        pcpu_label: "".to_string(),
        pcpu_freqs: vec![],
        gpu_cores: 0,
        gpu_freqs: vec![],
    }
}

fn now() -> Stamp {
    Stamp::new(2026, 4, 11, 14, 23, 7, 256_000_000).unwrap()
}

/// A sample as plain numbers.
#[derive(Clone, Copy)]
struct Plain {
    temps: [f32; 2],
    ram: [u64; 2],
    swap: [u64; 2],
    mhz: [u32; 3],
    loads: [f32; 3],
    cpu: f32,
    powers: [f32; 5],
}

fn metrics(p: Plain) -> Metrics {
    Metrics {
        temp: TempMetrics { cpu_temp_avg: s(p.temps[0]), gpu_temp_avg: s(p.temps[1]) },
        memory: MemMetrics {
            ram_usage: p.ram[0],
            ram_total: p.ram[1],
            swap_usage: p.swap[0],
            swap_total: p.swap[1],
        },
        ecpu_usage: (p.mhz[0], s(p.loads[0])),
        pcpu_usage: (p.mhz[1], s(p.loads[1])),
        gpu_usage: (p.mhz[2], s(p.loads[2])),
        cpu_usage_pct: s(p.cpu),
        cpu_power: s(p.powers[0]),
        gpu_power: s(p.powers[1]),
        ane_power: s(p.powers[2]),
        all_power: s(p.powers[3]),
        sys_power: s(p.powers[4]),
    }
}

fn plains() -> Vec<Plain> {
    let busy = Plain {
        temps: [61.37, 48.25],
        ram: [33_285_996_544, 51_539_607_552],
        swap: [1_610_612_736, 4_294_967_296],
        mhz: [1404, 4000, 338],
        loads: [0.374, 0.912, 0.055],
        cpu: 0.7364,
        powers: [12.345, 3.005, 0.125, 15.475, 28.9],
    };
    let idle = Plain {
        temps: [0.0, -0.0],
        ram: [0, 0],
        swap: [0, 0],
        mhz: [0, 999, 1000],
        loads: [0.0, 1.0, 0.005],
        cpu: 0.0,
        powers: [0.0, -0.0, 0.0, 0.0, 0.0],
    };
    let odd = Plain {
        temps: [f32::NAN, 123.456],
        ram: [u64::MAX, 3],
        swap: [1, u64::MAX],
        mhz: [u32::MAX, 4513, 7],
        loads: [f32::INFINITY, -0.5, f32::NAN],
        cpu: 12.5,
        powers: [f32::NAN, -1.0, f32::INFINITY, 1e10, 1e-20],
    };
    vec![busy, idle, odd]
}

fn shares(value: f64, max: f64, width: usize) -> String {
    let pct = if max > 0.0 { (value / max).clamp(0.0, 1.0) } else { 0.0 };
    let filled = (pct * width as f64).round() as usize;
    format!("[{}{}]", "█".repeat(filled), "░".repeat(width - filled))
}

fn gb(bytes: u64) -> String {
    format!("{:.2} GB", bytes as f64 / (1u64 << 30) as f64)
}

fn heat(t: f32) -> String {
    if t == 0.0 {
        "  N/A".to_string()
    } else {
        format!("{:5.1}°C", t)
    }
}

fn clock(mhz: u32) -> String {
    if mhz == 0 {
        "    N/A  ".to_string()
    } else if mhz >= 1000 {
        format!("{:6.2} GHz", mhz as f64 / 1000.0)
    } else {
        format!("{:4} MHz  ", mhz)
    }
}

fn pct(usage: u64, total: u64) -> f64 {
    if total > 0 {
        usage as f64 / total as f64 * 100.0
    } else {
        0.0
    }
}

fn machine(soc: &SocInfo, sep: &str) -> Vec<String> {
    vec![
        MACHINE.to_string(),
        format!("  Chip             {}{}", sep, soc.chip_name),
        format!("  Model ID         {}{}", sep, soc.mac_model),
        format!("  Memoria          {}{} GB", sep, soc.memory_gb),
        format!(
            "  Core CPU         {}{} {}-core + {} {}-core  (tot. {})",
            sep,
            soc.ecpu_cores,
            soc.ecpu_label,
            soc.pcpu_cores,
            soc.pcpu_label,
            soc.ecpu_cores as u16 + soc.pcpu_cores as u16
        ),
        format!("  Core GPU         {}{}", sep, soc.gpu_cores),
        String::new(),
    ]
}

fn every(freqs: &[u32]) -> String {
    freqs.iter().map(|f| f.to_string()).collect::<Vec<_>>().join(" · ")
}

fn all_ranges(soc: &SocInfo) -> Vec<String> {
    vec![
        RANGES.to_string(),
        format!("  {}-Core  : {} MHz", soc.ecpu_label, every(&soc.ecpu_freqs)),
        format!("  {}-Core  : {} MHz", soc.pcpu_label, every(&soc.pcpu_freqs)),
        format!("  GPU     : {} MHz", every(&soc.gpu_freqs)),
        String::new(),
    ]
}

fn last(freqs: &[u32], other: u32) -> u32 {
    freqs.last().copied().unwrap_or(other)
}

#[test]
fn file_names() {
    assert_eq!(log_file_name(&soc(), &now()), "Apple_M4_Pro-Mac16,6-2026-04-11_14-23-07.txt");
    assert!(!log_file_name(&soc(), &now()).contains(' '));
    assert_eq!(log_file_name(&bare_soc(), &now()), "-?-2026-04-11_14-23-07.txt");
}

#[test]
fn session_headers() {
    for soc in [soc(), bare_soc()] {
        let mut lines: Vec<String> = vec![
            TOP.into(),
            BEGIN.into(),
            BOTTOM.into(),
            "".into(),
            "  Data/ora inizio  : 2026-04-11 14:23:07".into(),
            "  File di log      : /tmp/a log.txt".into(),
            "  Intervallo       : segue UI (ms variabili)".into(),
            "".into(),
        ];
        lines.extend(machine(&soc, ": "));
        lines.extend(all_ranges(&soc));
        lines.extend([CLOSE.to_string(), String::new()]);
        assert_eq!(log_session_header(&soc, "/tmp/a log.txt", &now()), lines.join("\n"));
    }
}

#[test]
fn sample_headers() {
    for soc in [soc(), bare_soc()] {
        let mut lines: Vec<String> = vec![
            TOP.into(),
            BEGIN.into(),
            BOTTOM.into(),
            "".into(),
            "  Data/ora inizio  : 2026-04-11 14:23:07".into(),
            "  File di log      : /tmp/a log.txt".into(),
            "  Intervallo       : 250 ms".into(),
            "".into(),
        ];
        lines.extend(machine(&soc, ": "));
        let first = |freqs: &[u32]| freqs.first().copied().unwrap_or(0);
        lines.extend([
            RANGES.to_string(),
            format!(
                "  {}-Core           : {} – {} MHz",
                soc.ecpu_label,
                first(&soc.ecpu_freqs),
                last(&soc.ecpu_freqs, 0)
            ),
            format!(
                "  {}-Core           : {} – {} MHz",
                soc.pcpu_label,
                first(&soc.pcpu_freqs),
                last(&soc.pcpu_freqs, 0)
            ),
            format!(
                "  GPU              : {} – {} MHz",
                first(&soc.gpu_freqs),
                last(&soc.gpu_freqs, 0)
            ),
            String::new(),
            CLOSE.to_string(),
            String::new(),
        ]);
        assert_eq!(build_session_header(&soc, "/tmp/a log.txt", &now()), lines.join("\n"));
    }
}

#[test]
fn session_entries() {
    for soc in [soc(), bare_soc()] {
        for p in plains() {
            for index in [1, 1_234_567] {
                let row = |label: &str, load: f32, mhz: u32, freqs: &[u32]| {
                    format!(
                        "    {:<16} {:5.1}%  {}   {:5} MHz / {:5} MHz",
                        label,
                        load as f64 * 100.0,
                        shares(mhz as f64, last(freqs, 1) as f64, 20),
                        mhz,
                        last(freqs, 0)
                    )
                };
                let cpu = p.cpu as f64 * 100.0;
                let mut lines: Vec<String> = vec![
                    "".into(),
                    "".into(),
                    RULE.into(),
                    format!("  Campione #{:<6}  2026-04-11 14:23:07.256", index),
                    RULE.into(),
                    "".into(),
                    "  UTILIZZO".into(),
                    format!("    {:<16} {:5.1}%  {}", "CPU combinato", cpu, shares(cpu, 100.0, 20)),
                    "".into(),
                    row(
                        &format!("CPU {}-Core", soc.ecpu_label),
                        p.loads[0],
                        p.mhz[0],
                        &soc.ecpu_freqs,
                    ),
                    row(
                        &format!("CPU {}-Core", soc.pcpu_label),
                        p.loads[1],
                        p.mhz[1],
                        &soc.pcpu_freqs,
                    ),
                    "".into(),
                    row("GPU", p.loads[2], p.mhz[2], &soc.gpu_freqs),
                    "".into(),
                    "  CONSUMI".into(),
                    format!("    CPU              : {:6.2} W", p.powers[0]),
                    format!("    GPU              : {:6.2} W", p.powers[1]),
                    format!("    ANE              : {:6.2} W", p.powers[2]),
                    format!("    SoC totale       : {:6.2} W", p.powers[3]),
                ];
                if p.powers[4] > 0.0 {
                    lines.push(format!("    Sistema (PSTR)   : {:6.2} W", p.powers[4]));
                }
                let ram = pct(p.ram[0], p.ram[1]);
                lines.extend([
                    String::new(),
                    "  TEMPERATURE".to_string(),
                    format!("    CPU avg          : {}", heat(p.temps[0])),
                    format!("    GPU avg          : {}", heat(p.temps[1])),
                    String::new(),
                    "  MEMORIA".to_string(),
                    format!(
                        "    RAM   {:7}  /  {:7}  ({:5.1}%)  {}",
                        gb(p.ram[0]),
                        gb(p.ram[1]),
                        ram,
                        shares(ram, 100.0, 20)
                    ),
                ]);
                if p.swap[1] > 0 {
                    let swap = pct(p.swap[0], p.swap[1]);
                    lines.push(format!(
                        "    SWAP  {:7}  /  {:7}  ({:5.1}%)  {}",
                        gb(p.swap[0]),
                        gb(p.swap[1]),
                        swap,
                        shares(swap, 100.0, 20)
                    ));
                }
                lines.push(String::new());
                assert_eq!(log_build_entry(&metrics(p), &soc, index, &now()), lines.join("\n"));
            }
        }
    }
}

#[test]
fn sample_entries() {
    let watts = |w: f32| {
        if w == 0.0 {
            "   N/A".to_string()
        } else {
            format!("{:6.2} W", w)
        }
    };
    for soc in [soc(), bare_soc()] {
        for p in plains() {
            for index in [1, 1_234_567] {
                let row = |load: f32, mhz: u32, freqs: &[u32], width: usize| {
                    format!(
                        "{:5.1}%  {}   {} / {}",
                        load as f64 * 100.0,
                        shares(mhz as f64, last(freqs, 1) as f64, width),
                        clock(mhz),
                        clock(last(freqs, 0))
                    )
                };
                let cpu = p.cpu as f64 * 100.0;
                let ecpu = row(p.loads[0], p.mhz[0], &soc.ecpu_freqs, 16);
                let pcpu = row(p.loads[1], p.mhz[1], &soc.pcpu_freqs, 16);
                let mut lines: Vec<String> = vec![
                    RULE.into(),
                    format!("  Campione #{:<6}  2026-04-11 14:23:07.256", index),
                    RULE.into(),
                    "".into(),
                    format!("  CPU  utilizzo combinato  {:5.1}%  {}", cpu, shares(cpu, 100.0, 20)),
                    format!("    {}-Core  {}", soc.ecpu_label, ecpu),
                    format!("    {}-Core  {}", soc.pcpu_label, pcpu),
                    "".into(),
                    format!("  GPU  {}", row(p.loads[2], p.mhz[2], &soc.gpu_freqs, 20)),
                    "".into(),
                    "  CONSUMI".into(),
                    format!("    CPU              : {}", watts(p.powers[0])),
                    format!("    GPU              : {}", watts(p.powers[1])),
                    format!("    ANE              : {}", watts(p.powers[2])),
                    format!("    SoC totale       : {}", watts(p.powers[3])),
                ];
                if p.powers[4] > 0.0 {
                    lines.push(format!("    Sistema (PSTR)   : {}", watts(p.powers[4])));
                }
                let ram = pct(p.ram[0], p.ram[1]);
                lines.extend([
                    String::new(),
                    "  TEMPERATURE".to_string(),
                    format!("    CPU avg          : {}", heat(p.temps[0])),
                    format!("    GPU avg          : {}", heat(p.temps[1])),
                    String::new(),
                    "  MEMORIA".to_string(),
                    format!(
                        "    RAM   {}  /  {}  ({:5.1}%)  {}",
                        gb(p.ram[0]),
                        gb(p.ram[1]),
                        ram,
                        shares(ram, 100.0, 16)
                    ),
                ]);
                if p.swap[1] > 0 {
                    let swap = pct(p.swap[0], p.swap[1]);
                    lines.push(format!(
                        "    SWAP  {}  /  {}  ({:5.1}%)  {}",
                        gb(p.swap[0]),
                        gb(p.swap[1]),
                        swap,
                        shares(swap, 100.0, 16)
                    ));
                }
                lines.push(String::new());
                assert_eq!(build_entry(&metrics(p), &soc, index, &now()), lines.join("\n"));
            }
        }
    }
}

#[test]
fn footers() {
    let t = |secs: i64| UnixTime::new(secs, 0).unwrap();
    for soc in [soc(), bare_soc()] {
        for n in 0..4 {
            let all = plains();
            let taken = &all[..n];
            let mut peaks = PeakStats::new();
            for p in taken {
                peaks.update(&metrics(*p));
            }
            let top = |get: &dyn Fn(&Plain) -> f32| {
                let mut top = 0.0f32;
                for p in taken {
                    if get(p) > top {
                        top = get(p);
                    }
                }
                top
            };
            let mean = |k: usize| {
                let mut sum = 0.0f64;
                for p in taken {
                    sum += p.powers[k] as f64;
                }
                if n > 0 {
                    (sum / n as f64) as f32
                } else {
                    0.0
                }
            };
            let fastest = |k: usize| taken.iter().map(|p| p.mhz[k]).max().unwrap_or(0);
            let mut lines: Vec<String> = vec![
                "".into(),
                "".into(),
                TOP.into(),
                END.into(),
                BOTTOM.into(),
                "".into(),
                "  Data/ora fine     : 2026-04-11 14:23:07".into(),
                "  Durata sessione   : 1h 02m 03s".into(),
                "  File di log       : log.txt".into(),
                "  Intervallo        : segue UI (ms variabili)".into(),
                format!("  Campioni totali   : {}", n),
                "".into(),
            ];
            lines.extend(machine(&soc, " : "));
            lines.extend(all_ranges(&soc));
            lines.extend([
                PEAKS.to_string(),
                format!("  CPU utilizzo max  : {:5.1}%", top(&|p: &Plain| p.cpu) * 100.0),
                format!("  {}-Core freq max   : {:5} MHz", soc.ecpu_label, fastest(0)),
                format!("  {}-Core freq max   : {:5} MHz", soc.pcpu_label, fastest(1)),
                format!("  GPU freq max      : {:5} MHz", fastest(2)),
                String::new(),
                format!("  CPU power max     : {:6.2} W", top(&|p: &Plain| p.powers[0])),
                format!("  GPU power max     : {:6.2} W", top(&|p: &Plain| p.powers[1])),
                format!("  ANE power max     : {:6.2} W", top(&|p: &Plain| p.powers[2])),
                format!("  SoC totale max    : {:6.2} W", top(&|p: &Plain| p.powers[3])),
            ]);
            let system = top(&|p: &Plain| p.powers[4]);
            if system > 0.0 {
                lines.push(format!("  Sistema max       : {:6.2} W", system));
            }
            let ram = taken.iter().map(|p| p.ram[0]).max().unwrap_or(0);
            lines.extend([
                String::new(),
                format!("  CPU temp max      : {}", heat(top(&|p: &Plain| p.temps[0]))),
                format!("  GPU temp max      : {}", heat(top(&|p: &Plain| p.temps[1]))),
                String::new(),
                format!("  RAM max           : {}", gb(ram)),
                String::new(),
                MEANS.to_string(),
                format!("  CPU power avg     : {:6.2} W", mean(0)),
                format!("  GPU power avg     : {:6.2} W", mean(1)),
                format!("  ANE power avg     : {:6.2} W", mean(2)),
                format!("  SoC totale avg    : {:6.2} W", mean(3)),
            ]);
            if system > 0.0 {
                lines.push(format!("  Sistema avg       : {:6.2} W", mean(4)));
            }
            lines.extend([String::new(), CLOSE.to_string(), String::new()]);
            let footer = log_session_footer(
                &soc,
                "log.txt",
                n as u64,
                &peaks,
                &t(1_000),
                &t(1_000 + 3_723),
                &now(),
            );
            assert_eq!(footer, lines.join("\n"));
        }
    }
}

#[test]
fn summaries() {
    for soc in [soc(), bare_soc()] {
        for p in plains() {
            for index in [1u64, 1_234_567] {
                let line = format!(
                    "[#{:06}] CPU {:4.1}%  {}-Core {:4.1}% {}  {}-Core {:4.1}% {}  GPU {:4.1}% {}  {:.2}W  CPU {}/GPU {}",
                    index,
                    p.cpu * 100.0,
                    soc.ecpu_label,
                    p.loads[0] * 100.0,
                    clock(p.mhz[0]),
                    soc.pcpu_label,
                    p.loads[1] * 100.0,
                    clock(p.mhz[1]),
                    p.loads[2] * 100.0,
                    clock(p.mhz[2]),
                    p.powers[3],
                    heat(p.temps[0]),
                    heat(p.temps[1])
                );
                assert_eq!(summary(&metrics(p), &soc, index), line);
            }
        }
    }
}

#[test]
fn a_summary_in_full() {
    assert_eq!(
        summary(&metrics(plains()[0]), &soc(), 42),
        "[#000042] CPU 73.6%  E-Core 37.4%   1.40 GHz  P-Core 91.2%   4.00 GHz  GPU  5.5%  338 MHz    15.48W  CPU  61.4°C/GPU  48.2°C"
    );
}

#[test]
fn the_terminal_is_told_where_the_log_is() {
    let lines = [
        TOP,
        "║               macmon — modalità log                         ║",
        BOTTOM,
        "  Chip     : Apple M4 Pro",
        "  Model ID : Mac16,6",
        "  Log      : /tmp/x.txt",
        "  Campione ogni 250 ms — Ctrl+C per fermare\n",
    ];
    assert_eq!(intro(&soc(), "/tmp/x.txt"), lines.join("\n"));
    assert_eq!(outro("/tmp/x.txt"), "\nFine sessione. Log salvato in: /tmp/x.txt");
}

#[test]
fn texts_end_their_line() {
    let m = metrics(plains()[0]);
    assert!(log_session_header(&soc(), "a", &now()).ends_with('\n'));
    assert!(log_build_entry(&m, &soc(), 1, &now()).ends_with('\n'));
    assert!(build_session_header(&soc(), "a", &now()).ends_with('\n'));
    assert!(build_entry(&m, &soc(), 1, &now()).ends_with('\n'));
}

#[test]
fn bars_of_an_entry_stand_in_one_column() {
    let entry = log_build_entry(&metrics(plains()[0]), &soc(), 1, &now());
    let mut seen = 0;
    for line in entry.lines().skip(6).take(8) {
        if let Some(at) = line.chars().position(|c| c == '[') {
            assert_eq!(at, 29);
            let bar: String = line.chars().skip(29).take(22).collect();
            assert!(bar.ends_with(']'));
            seen += 1;
        }
    }
    assert_eq!(seen, 4);
}
