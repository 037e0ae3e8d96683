use ricesearch::debounce::DebounceTable;

#[test]
fn burst_is_coalesced_into_one_emission() {
    // Window of 3 seconds; f.txt is modified at t = 0, 1, 2 seconds:
    // nothing is ready before t = 5 seconds, and the sweep at 5 seconds
    // emits the path exactly once.
    let mut table = DebounceTable::new(3000);
    let mut emitted: Vec<String> = Vec::new();
    let events: [u64; 3] = [0, 1000, 2000];
    let mut next_event = 0;
    let mut t: u64 = 0;
    while t < 5000 {
        while next_event < events.len() && events[next_event] <= t {
            table.record_event("f.txt", events[next_event]);
            next_event += 1;
        }
        let ready = table.sweep(t);
        assert!(ready.is_empty(), "emitted early at t = {}", t);
        t += 500;
    }
    let ready = table.sweep(5000);
    emitted.extend(ready);
    assert_eq!(emitted, vec!["f.txt".to_string()]);
    // Once emitted, the path is gone until a new event arrives.
    assert!(table.sweep(10000).is_empty());
    assert_eq!(table.pending_count(), 0);
}

#[test]
fn new_event_resets_the_window() {
    let mut table = DebounceTable::new(3000);
    table.record_event("f.txt", 0);
    // A second event at t = 2500 defers eligibility to t = 5500, even
    // though the entry had already aged 2500 of its 3000.
    table.record_event("f.txt", 2500);
    assert!(table.sweep(3000).is_empty());
    assert!(table.sweep(5499).is_empty());
    let ready = table.sweep(5500);
    assert_eq!(ready, vec!["f.txt".to_string()]);
}

#[test]
fn paths_are_debounced_independently() {
    let mut table = DebounceTable::new(1000);
    table.record_event("a.txt", 0);
    table.record_event("b.txt", 600);
    let ready = table.sweep(1000);
    assert_eq!(ready, vec!["a.txt".to_string()]);
    assert_eq!(table.pending_count(), 1);
    let ready = table.sweep(1600);
    assert_eq!(ready, vec!["b.txt".to_string()]);
    assert_eq!(table.pending_count(), 0);
}

#[test]
fn reappearing_path_starts_a_fresh_cycle() {
    let mut table = DebounceTable::new(1000);
    table.record_event("f.txt", 0);
    assert_eq!(table.sweep(1000).len(), 1);
    // A new event after the emission re-creates a fresh pending entry.
    table.record_event("f.txt", 1200);
    assert!(table.sweep(1500).is_empty());
    assert_eq!(table.sweep(2200), vec!["f.txt".to_string()]);
}

#[test]
fn sweep_emits_each_ready_path_once() {
    let mut table = DebounceTable::new(100);
    table.record_event("a", 0);
    table.record_event("b", 0);
    table.record_event("c", 50);
    let mut ready = table.sweep(150);
    ready.sort();
    assert_eq!(ready, vec!["a".to_string(), "b".to_string(), "c".to_string()]);
    assert_eq!(table.pending_count(), 0);
}
