use macmon::ieee::{Double, Single};
use macmon::metrics::{highest_freq, lowest_freq, zero_div, MemMetrics, Metrics, TempMetrics};
use macmon::peaks::PeakStats;
use macmon::stores::{avg2, FreqStore, MemoryStore, PowerStore, TempStore};

fn d(x: f64) -> Double {
    Double { bits: x.to_bits() }
}

fn f(x: Double) -> f64 {
    f64::from_bits(x.bits)
}

fn s(x: f32) -> Single {
    Single { bits: x.to_bits() }
}

fn g(x: Single) -> f32 {
    f32::from_bits(x.bits)
}

fn same(a: Double, b: f64) -> bool {
    a.bits == b.to_bits() || (b.is_nan() && f(a).is_nan())
}

fn same_single(a: Single, b: f32) -> bool {
    a.bits == b.to_bits() || (b.is_nan() && g(a).is_nan())
}

/// A fixed stream of readings between zero and `top`.
fn readings(n: usize, top: f64) -> Vec<f64> {
    let mut state: u64 = 0x2545_f491_4f6c_dd1d;
    let mut v = Vec::new();
    for _ in 0..n {
        state ^= state << 13;
        state ^= state >> 7;
        state ^= state << 17;
        v.push((state >> 11) as f64 / (1u64 << 53) as f64 * top);
    }
    v
}

#[test]
fn averages_of_two() {
    assert_eq!(f(avg2(d(0.0), d(7.5))), 7.5);
    assert_eq!(f(avg2(d(-0.0), d(7.5))), 7.5);
    assert_eq!(f(avg2(d(1.0), d(2.0))), 1.5);
    assert_eq!(f(avg2(d(4.0), d(0.0))), 2.0);
    for x in readings(60, 40.0) {
        for y in readings(60, 3.0) {
            assert!(same(avg2(d(x), d(y)), (x + y) / 2.0));
        }
    }
    assert!(f(avg2(d(f64::NAN), d(1.0))).is_nan());
    assert_eq!(f(avg2(d(f64::MAX), d(f64::MAX))), f64::INFINITY);
}

#[test]
fn loads_are_kept_in_percent() {
    let mut store = FreqStore::new();
    assert!(store.items.is_empty());
    assert_eq!(store.top_value, 0);
    assert_eq!(f(store.usage), 0.0);
    store.push(2064, d(0.5));
    store.push(3228, d(0.999));
    store.push(600, d(1.0));
    assert_eq!(store.items, vec![100, 99, 50]);
    assert_eq!(store.top_value, 600);
    assert_eq!(f(store.usage), 1.0);
    store.push(1, d(-0.25));
    store.push(2, d(f64::NAN));
    store.push(3, d(f64::INFINITY));
    assert_eq!(store.items, vec![u64::MAX, 0, 0, 100, 99, 50]);
}

#[test]
fn loads_up_to_one_are_a_hundred_percent_at_most() {
    let mut store = FreqStore::new();
    for x in readings(100, 1.0) {
        store.push(0, d(x));
        assert_eq!(store.items[0], (x * 100.0) as u64);
        assert!(store.items[0] <= 100);
    }
    store.push(0, d(f64::from_bits(1.0f64.to_bits() - 1)));
    assert_eq!(store.items[0], 99);
    store.push(0, d(1.0));
    assert_eq!(store.items[0], 100);
}

#[test]
fn charts_keep_the_newest_values() {
    let mut loads = FreqStore::new();
    let mut powers = PowerStore::new();
    let mut memory = MemoryStore::new();
    for i in 0..200u64 {
        loads.push(i, d(i as f64 / 100.0));
        assert!(powers.can_push(d(i as f64)));
        powers.push(d(i as f64));
        memory.push(MemMetrics { ram_total: 1000, ram_usage: i, swap_total: 2, swap_usage: 1 });
    }
    assert_eq!(loads.items.len(), 128);
    assert_eq!(powers.items.len(), 128);
    assert_eq!(memory.items.len(), 128);
    assert_eq!(powers.items[0], 199_000);
    assert_eq!(powers.items[127], 72_000);
    assert_eq!(memory.items[0], 199);
    assert_eq!(memory.items[127], 72);
    assert_eq!(f(powers.max_value), 199.0);
    assert_eq!(f(powers.avg_value), 135.5);
}

#[test]
fn powers_agree_with_the_machine() {
    let mut store = PowerStore::new();
    assert_eq!(f(store.top_value), 0.0);
    assert_eq!(f(store.avg_value), 0.0);
    assert_eq!(f(store.max_value), 0.0);
    let mut items: Vec<u64> = Vec::new();
    for x in readings(300, 45.0) {
        let was_top = if items.is_empty() { 0.0 } else { items[0] as f64 / 1000.0 };
        items.insert(0, (x * 1000.0) as u64);
        items.truncate(128);
        let top = if was_top == 0.0 { x } else { (was_top + x) / 2.0 };
        let avg = items.iter().sum::<u64>() as f64 / items.len() as f64 / 1000.0;
        let max = *items.iter().max().unwrap() as f64 / 1000.0;
        assert!(store.can_push(d(x)));
        store.push(d(x));
        assert_eq!(store.items, items);
        assert!(same(store.top_value, top));
        assert!(same(store.avg_value, avg));
        assert!(same(store.max_value, max));
    }
}

#[test]
fn a_power_that_bursts_the_sum_is_told() {
    let mut store = PowerStore::new();
    assert!(store.can_push(d(f64::INFINITY)));
    store.push(d(f64::INFINITY));
    assert_eq!(store.items, vec![u64::MAX]);
    assert!(!store.can_push(d(0.001)));
    assert!(store.can_push(d(0.0)));
    assert!(store.can_push(d(f64::NAN)));
    assert!(store.can_push(d(-5.0)));
}

#[test]
fn memory_keeps_the_latest_figures() {
    let mut store = MemoryStore::new();
    assert_eq!(store.max_ram, 0);
    store.push(MemMetrics { ram_total: 100, ram_usage: 70, swap_total: 10, swap_usage: 3 });
    store.push(MemMetrics { ram_total: 100, ram_usage: 50, swap_total: 11, swap_usage: 4 });
    assert_eq!(store.items, vec![50, 70]);
    assert_eq!(store.ram_usage, 50);
    assert_eq!(store.ram_total, 100);
    assert_eq!(store.swap_usage, 4);
    assert_eq!(store.swap_total, 11);
    assert_eq!(store.max_ram, 70);
}

#[test]
fn temperatures_follow_their_trend_while_the_sensor_is_silent() {
    let mut store = TempStore::new();
    assert_eq!(g(store.last()), 0.0);
    store.push(s(0.0));
    assert!(store.items.is_empty());
    store.push(s(40.5));
    assert_eq!(g(store.last()), 40.5);
    store.push(s(0.0));
    assert_eq!(store.items.len(), 1);
    store.push(s(50.25));
    store.push(s(-0.0));
    assert_eq!(store.items.len(), 3);
    let (alpha, a, b) = (0.8f32, 40.5f32, 50.25f32);
    assert!(same_single(store.last(), alpha * b + (1.0 - alpha) * a));
}

#[test]
fn trends_agree_with_the_machine() {
    let mut store = TempStore::new();
    let mut items: Vec<f32> = Vec::new();
    for (i, x) in readings(200, 110.0).iter().enumerate() {
        let reading = if i % 5 == 3 { 0.0 } else { *x as f32 };
        for alpha in [0.8f32, 0.0, 1.0, 0.3] {
            let mut ema = 0.0;
            if items.len() >= 2 {
                ema = items[items.len() - 1];
                for item in items.iter().rev().skip(1) {
                    ema = alpha * item + (1.0 - alpha) * ema;
                }
            }
            assert!(same_single(store.trend_ema(s(alpha)), ema));
            if alpha == 0.8 && reading == 0.0 && ema != 0.0 {
                items.insert(0, ema);
                items.truncate(8);
                store.push(s(reading));
                break;
            }
        }
        if reading != 0.0 {
            items.insert(0, reading);
            items.truncate(8);
            store.push(s(reading));
        }
        assert_eq!(store.items.len(), items.len());
        for k in 0..items.len() {
            assert!(same_single(store.items[k], items[k]));
        }
    }
    assert_eq!(items.len(), 8);
}

fn sample(x: f32, mhz: u32, ram: u64) -> Metrics {
    Metrics {
        temp: TempMetrics { cpu_temp_avg: s(x * 2.0), gpu_temp_avg: s(x * 1.5) },
        memory: MemMetrics { ram_total: 1 << 34, ram_usage: ram, swap_total: 0, swap_usage: 0 },
        ecpu_usage: (mhz, s(0.1)),
        pcpu_usage: (mhz + 1, s(0.2)),
        gpu_usage: (mhz + 2, s(0.3)),
        cpu_usage_pct: s(x / 100.0),
        cpu_power: s(x),
        gpu_power: s(x + 1.0),
        ane_power: s(x + 2.0),
        all_power: s(x + 3.0),
        sys_power: s(x + 4.0),
    }
}

#[test]
fn peaks_cover_every_sample() {
    let mut peaks = PeakStats::new();
    assert_eq!(g(peaks.avg_cpu_power()), 0.0);
    let xs: Vec<f32> = readings(50, 60.0).iter().map(|x| *x as f32).collect();
    let mut sums = [0.0f64; 5];
    for (i, x) in xs.iter().enumerate() {
        peaks.update(&sample(*x, (i as u32 * 37) % 50, (i as u64 * 91) % 77));
        for k in 0..5 {
            sums[k] += (x + k as f32) as f64;
        }
    }
    let top = xs.iter().fold(0.0f32, |a, b| a.max(*b));
    assert_eq!(g(peaks.cpu_power), top);
    assert_eq!(g(peaks.gpu_power), top + 1.0);
    assert_eq!(g(peaks.ane_power), top + 2.0);
    assert_eq!(g(peaks.all_power), top + 3.0);
    assert_eq!(g(peaks.sys_power), top + 4.0);
    assert_eq!(g(peaks.cpu_temp), top * 2.0);
    assert_eq!(g(peaks.gpu_temp), top * 1.5);
    assert_eq!(g(peaks.cpu_usage), top / 100.0);
    assert_eq!(peaks.ecpu_freq, 49);
    assert_eq!(peaks.pcpu_freq, 50);
    assert_eq!(peaks.gpu_freq, 51);
    assert_eq!(peaks.ram_usage, (0..50).map(|i| (i * 91) % 77).max().unwrap());
    assert_eq!(peaks.count, 50);
    let avgs = [
        peaks.avg_cpu_power(),
        peaks.avg_gpu_power(),
        peaks.avg_ane_power(),
        peaks.avg_all_power(),
        peaks.avg_sys_power(),
    ];
    for k in 0..5 {
        assert!(same_single(avgs[k], (sums[k] / 50.0) as f32));
    }
}

#[test]
fn peaks_ignore_what_is_not_above_them() {
    let mut peaks = PeakStats::new();
    peaks.update(&sample(f32::NAN, 3, 4));
    peaks.update(&sample(-10.0, 2, 3));
    assert_eq!(g(peaks.cpu_power), 0.0);
    assert_eq!(g(peaks.sys_power), 0.0);
    assert_eq!(peaks.ecpu_freq, 3);
    assert_eq!(peaks.ram_usage, 4);
    assert_eq!(peaks.count, 2);
    assert!(g(peaks.avg_cpu_power()).is_nan());
}

#[test]
fn quotients_by_zero_are_zero() {
    assert_eq!(f(zero_div(d(5.0), d(0.0))), 0.0);
    assert_eq!(f(zero_div(d(5.0), d(-0.0))), 0.0);
    assert_eq!(f(zero_div(d(5.0), d(8.0))), 0.625);
}

#[test]
fn frequency_ranges() {
    let freqs = vec![600, 912, 2592];
    assert_eq!(lowest_freq(&freqs, 7), 600);
    assert_eq!(highest_freq(&freqs, 7), 2592);
    assert_eq!(lowest_freq(&vec![], 7), 7);
    assert_eq!(highest_freq(&vec![], 1), 1);
}

#[test]
fn average_powers_stay_under_the_highest_one() {
    for top in [0.002, 1.0, 45.0, 1e9] {
        let mut store = PowerStore::new();
        for x in readings(300, top) {
            assert!(store.can_push(d(x)));
            store.push(d(x));
            assert!(0.0 <= f(store.avg_value) && f(store.avg_value) <= f(store.max_value));
            assert!(store.items[0] as f64 / 1000.0 <= f(store.max_value));
            assert!(f(store.top_value).is_finite());
        }
    }
    let mut store = PowerStore::new();
    for _ in 0..200 {
        store.push(d(0.123));
        assert!(f(store.avg_value) <= f(store.max_value));
    }
}

#[test]
fn averages_lie_between_zero_and_the_peak() {
    for x in [0.1f32, 1.0 / 3.0, 12.345, 1e-40, 3.0e38, 0.0] {
        let mut peaks = PeakStats::new();
        for n in 1..=500 {
            peaks.update(&Metrics { all_power: s(x), ..sample(1.0, 1, 1) });
            assert_eq!(g(peaks.all_power), x);
            assert!(g(peaks.avg_all_power()) <= x, "{} {}", x, n);
            assert!(g(peaks.avg_all_power()) >= 0.0);
        }
        let step = f32::from_bits(x.to_bits() + 1) - x;
        assert!((g(peaks.avg_all_power()) - x).abs() <= step);
    }
    let xs: Vec<f32> = readings(400, 60.0).iter().map(|x| *x as f32).collect();
    let mut peaks = PeakStats::new();
    for x in &xs {
        peaks.update(&sample(*x, 1, 1));
    }
    let mean = xs.iter().map(|x| *x as f64).sum::<f64>() / 400.0;
    let step = f32::from_bits(peaks.cpu_power.bits + 1) - g(peaks.cpu_power);
    assert!((g(peaks.avg_cpu_power()) as f64 - mean).abs() <= step as f64);
    assert!(g(peaks.avg_cpu_power()) <= g(peaks.cpu_power));
}
