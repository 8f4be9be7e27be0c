use vmsim::operation::{Operation, SimError};
use vmsim::search::{find_optimal_memory, run_until_write, writes_to_memory};
use vmsim::sim::{Sim, SimState};

fn state(total: u32, reads: u32, writes: u32) -> SimState {
    SimState { total_events: total, read_count: reads, write_count: writes }
}

fn run_lines(n: u32, policy: &str, lines: &[&str]) -> SimState {
    let mut sim = Sim::new(n, &policy.to_string()).unwrap();
    let mut last = sim.state;
    for l in lines {
        last = sim.next_line(l.to_string()).unwrap();
    }
    last
}

fn parse_all(lines: &[&str]) -> Vec<Operation> {
    lines.iter().map(|l| Operation::parse_line(l.to_string()).unwrap()).collect()
}

#[test]
fn new_rejects_zero_pages() {
    assert!(matches!(Sim::new(0, &"lru".to_string()), Err(SimError::InvalidConfiguration)));
}

#[test]
fn new_rejects_unknown_policy() {
    assert!(matches!(Sim::new(4, &"optimal".to_string()), Err(SimError::InvalidConfiguration)));
}

#[test]
fn new_starts_empty() {
    let sim = Sim::new(3, &"fifo".to_string()).unwrap();
    assert_eq!(sim.state, state(0, 0, 0));
    assert_eq!(sim.memory, vec![None, None, None]);
    assert!(sim.page_table.is_empty());
}

#[test]
fn clean_eviction_with_one_slot() {
    for p in ["lru", "fifo", "random"] {
        assert_eq!(run_lines(1, p, &["0 R", "1000 W"]), state(2, 2, 0));
    }
}

#[test]
fn no_eviction_with_two_slots() {
    for p in ["lru", "fifo", "random"] {
        assert_eq!(run_lines(2, p, &["0 R", "1000 W"]), state(2, 2, 0));
    }
}

#[test]
fn dirty_eviction_with_one_slot() {
    for p in ["lru", "fifo", "random"] {
        assert_eq!(run_lines(1, p, &["0 W", "1000 R", "0 R"]), state(3, 3, 1));
    }
}

#[test]
fn dirty_page_entry_is_dropped_on_eviction() {
    let mut sim = Sim::new(1, &"lru".to_string()).unwrap();
    sim.next_line("0 W".to_string()).unwrap();
    sim.next_line("1000 R".to_string()).unwrap();
    assert!(!sim.page_table.contains_key(&0));
    assert_eq!(sim.memory, vec![Some(1)]);
}

#[test]
fn clean_page_entry_stays_after_eviction() {
    let mut sim = Sim::new(1, &"fifo".to_string()).unwrap();
    sim.next_line("0 R".to_string()).unwrap();
    sim.next_line("1000 W".to_string()).unwrap();
    let e = sim.page_table.get(&0).unwrap();
    assert!(!e.is_dirty);
    assert_eq!(e.created_at, 1);
    let e1 = sim.page_table.get(&1).unwrap();
    assert!(e1.is_dirty);
    assert_eq!(e1.last_referenced, 2);
}

#[test]
fn malformed_line_leaves_counters() {
    let mut sim = Sim::new(2, &"lru".to_string()).unwrap();
    sim.next_line("0 R".to_string()).unwrap();
    assert_eq!(sim.next_line("zz R".to_string()), Err(SimError::MalformedTraceLine));
    assert_eq!(sim.state, state(1, 1, 0));
    assert_eq!(sim.memory, vec![Some(0), None]);
}

#[test]
fn malformed_first_line_leaves_counters_at_zero() {
    let mut sim = Sim::new(1, &"fifo".to_string()).unwrap();
    assert_eq!(sim.next_line("zz R".to_string()), Err(SimError::MalformedTraceLine));
    assert_eq!(sim.state, state(0, 0, 0));
}

#[test]
fn hits_do_not_load() {
    assert_eq!(run_lines(1, "lru", &["0 R", "10 W", "fff R", "0 W"]), state(4, 1, 0));
}

#[test]
fn lru_and_fifo_differ() {
    let lines = ["0 W", "1000 W", "0 R", "2000 R"];
    assert_eq!(run_lines(2, "lru", &lines), state(4, 3, 1));
    assert_eq!(run_lines(2, "fifo", &lines), state(4, 3, 1));
    let mut lru = Sim::new(2, &"lru".to_string()).unwrap();
    let mut fifo = Sim::new(2, &"fifo".to_string()).unwrap();
    for l in lines {
        lru.next_line(l.to_string()).unwrap();
        fifo.next_line(l.to_string()).unwrap();
    }
    assert_eq!(lru.memory, vec![Some(0), Some(2)]);
    assert_eq!(fifo.memory, vec![Some(2), Some(1)]);
}

#[test]
fn deterministic_policies_repeat() {
    let lines = ["0 W", "1000 R", "2000 W", "0 R", "3000 W", "1000 W", "2000 R"];
    for p in ["lru", "fifo"] {
        let a = run_lines(2, p, &lines);
        let b = run_lines(2, p, &lines);
        assert_eq!(a, b);
    }
}

#[test]
fn total_events_counts_lines_and_reads_are_bounded() {
    let lines = ["0 W", "1000 R", "2000 W", "0 R", "3000 W", "1000 W", "2000 R"];
    for p in ["lru", "fifo", "random"] {
        for n in 1..5 {
            let s = run_lines(n, p, &lines);
            assert_eq!(s.total_events, 7);
            assert!(s.read_count <= s.total_events);
            assert!(s.write_count <= s.read_count);
        }
    }
}

#[test]
fn enough_memory_means_no_writes() {
    let lines = ["0 W", "1000 W", "2000 W", "0 W", "3000 W", "1000 W", "2000 W"];
    for p in ["lru", "fifo", "random"] {
        let s = run_lines(4, p, &lines);
        assert_eq!(s, state(7, 4, 0));
    }
}

#[test]
fn apply_with_draw_picks_that_slot() {
    let mut sim = Sim::new(2, &"random".to_string()).unwrap();
    for l in ["0 W", "1000 R"] {
        sim.next_line(l.to_string()).unwrap();
    }
    let o = Operation::parse_line("2000 R".to_string()).unwrap();
    let s = sim.apply(&o, 0);
    assert_eq!(s, state(3, 3, 1));
    assert_eq!(sim.memory, vec![Some(2), Some(1)]);
}

#[test]
fn run_processes_every_operation() {
    let ops = parse_all(&["0 W", "1000 R", "0 R"]);
    let mut sim = Sim::new(1, &"lru".to_string()).unwrap();
    assert_eq!(sim.run(&ops), state(3, 3, 1));
}

#[test]
fn run_until_write_stops_early() {
    let ops = parse_all(&["0 W", "1000 R", "0 R"]);
    assert!(run_until_write(&ops, 1, vmsim::evictors::Policy::FirstInFirstOut));
    assert!(!run_until_write(&ops, 2, vmsim::evictors::Policy::FirstInFirstOut));
}

#[test]
fn optimal_memory_is_smallest_clean_size() {
    let ops = parse_all(&["0 W", "1000 W", "2000 W", "0 R", "1000 R", "2000 R"]);
    assert_eq!(find_optimal_memory(&ops, vmsim::evictors::Policy::LeastRecentlyUsed), 3);
    assert_eq!(find_optimal_memory(&ops, vmsim::evictors::Policy::FirstInFirstOut), 3);
    let empty: Vec<Operation> = Vec::new();
    assert_eq!(find_optimal_memory(&empty, vmsim::evictors::Policy::LeastRecentlyUsed), 1);
}

#[test]
fn sweep_records_sizes_until_clean() {
    let mut lines: Vec<String> = Vec::new();
    for round in 0..2 {
        for page in 0..60u32 {
            let code = if round == 0 { "W" } else { "R" };
            lines.push(format!("{:x} {}", page << 12, code));
        }
    }
    let refs: Vec<&str> = lines.iter().map(|s| s.as_str()).collect();
    let ops = parse_all(&refs);
    let r = writes_to_memory(&ops, vmsim::evictors::Policy::LeastRecentlyUsed);
    assert_eq!(r, vec![(50, 60), (100, 0)]);
}
