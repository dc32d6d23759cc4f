use rust_mc_bot::schedule::{
    admission_per_tick, admit_now, partition_workers, tick_sleep_millis, worker_done, BotRegistry,
};
use rust_mc_bot::session::Bot;
use rust_mc_bot::worker::Worker;

#[test]
fn partition_ten_over_three() {
    let shares = partition_workers(10, 3);
    let counts: Vec<u32> = shares.iter().map(|s| s.count).collect();
    let offsets: Vec<u32> = shares.iter().map(|s| s.name_offset).collect();
    assert_eq!(counts, vec![4, 3, 3]);
    assert_eq!(offsets, vec![0, 4, 7]);
}

#[test]
fn partition_identities_unique() {
    for (count, workers) in [(10u32, 3u32), (0, 4), (3, 8), (1000, 4), (17, 5)] {
        let shares = partition_workers(count, workers);
        assert_eq!(shares.len(), workers as usize);
        let mut seen = vec![false; count as usize];
        for s in &shares {
            assert!(s.count == count / workers || s.count == count / workers + 1);
            for id in s.name_offset..s.name_offset + s.count {
                assert!(!seen[id as usize]);
                seen[id as usize] = true;
            }
        }
        assert!(seen.iter().all(|b| *b));
    }
}

#[test]
fn admission_rate() {
    assert_eq!(admission_per_tick(250, 4), 63);
    assert_eq!(admission_per_tick(0, 4), 0);
    assert_eq!(admission_per_tick(1, 4), 1);
    assert_eq!(admission_per_tick(u32::MAX, 1), u32::MAX);
    assert_eq!(admit_now(0, 10, 3), 3);
    assert_eq!(admit_now(9, 10, 3), 1);
    assert_eq!(admit_now(10, 10, 3), 0);
}

#[test]
fn ramp_up_thousand_over_four_workers() {
    let shares = partition_workers(1000, 4);
    for s in shares {
        let mut joined = 0u32;
        let mut ticks = 0u32;
        while joined < s.count {
            let n = admit_now(joined, s.count, 1);
            assert!(n <= 1);
            joined += n;
            ticks += 1;
        }
        assert!(ticks <= 250);
    }
}

#[test]
fn tick_pacing() {
    assert_eq!(tick_sleep_millis(0), 50);
    assert_eq!(tick_sleep_millis(20), 30);
    assert_eq!(tick_sleep_millis(50), 0);
    assert_eq!(tick_sleep_millis(80), 0);
    assert!(worker_done(5, 5, 0));
    assert!(!worker_done(4, 5, 0));
    assert!(!worker_done(5, 5, 1));
}

#[test]
fn registry_tokens_unique_and_prune() {
    let mut reg = BotRegistry::new();
    assert!(reg.insert(Bot::new(1, 1)));
    assert!(reg.insert(Bot::new(2, 2)));
    assert!(!reg.insert(Bot::new(1, 9)));
    assert_eq!(reg.len(), 2);
    reg.bots[0].kicked = true;
    let removed = reg.prune_kicked();
    assert_eq!(removed, vec![1]);
    assert_eq!(reg.len(), 1);
    assert_eq!(reg.find(2), Some(0));
    assert_eq!(reg.find(1), None);
}

#[test]
fn worker_admits_joins_and_ends() {
    let mut w = Worker::new(5, 100, 2);
    assert_eq!(w.per_tick, 3);
    let first = w.admit_tick();
    assert_eq!(first, vec![0, 1, 2]);
    let second = w.admit_tick();
    assert_eq!(second, vec![3, 4]);
    assert!(w.admit_tick().is_empty());
    assert_eq!(w.registry.bots[4].name, b"Bot_104".to_vec());
    w.on_writable(3);
    let i = w.registry.find(3).unwrap();
    assert!(w.registry.bots[i].joined);
    assert!(!w.registry.bots[i].unsent_bytes().is_empty());
    let n = w.registry.bots[i].unsent_bytes().len();
    w.mark_written(3, n);
    assert!(w.registry.bots[i].unsent_bytes().is_empty());
    // a Disconnect during login
    w.on_readable(3, &[3, 0, 1, 0]);
    assert!(w.registry.bots[i].kicked);
    w.end_tick();
    assert_eq!(w.tick, 1);
    assert_eq!(w.prune(), vec![3]);
    assert_eq!(w.registry.len(), 4);
    assert!(!w.done());
    for b in w.registry.bots.iter_mut() {
        b.kicked = true;
    }
    w.prune();
    assert!(w.done());
}

#[test]
fn ramp_up_one_per_tick_worker() {
    let shares = partition_workers(1000, 4);
    assert_eq!(shares[0].count, 250);
    let mut w = Worker::with_admission_rate(shares[0].count, shares[0].name_offset, 1);
    let mut ticks = 0u32;
    while w.admitted < w.total {
        let new = w.admit_tick();
        assert!(new.len() <= 1);
        ticks += 1;
        assert_eq!(w.admitted, ticks.min(250));
        assert_eq!(w.registry.len() as u32, w.admitted);
    }
    assert_eq!(ticks, 250);
}
