use led_monitor::engine::{App, Engine};
use led_monitor::status::{get_status_fn, Status};

fn probe(name: &str, status: Status) -> (String, Status) {
    (name.to_string(), status)
}

#[test]
fn app_new_keeps_fields() {
    let a = App::new("web".to_string(), Status::Unknown, Some(3));
    assert_eq!(a.name, "web");
    assert_eq!(a.last_status, Status::Unknown);
    assert_eq!(a.led_num, Some(3));
}

#[test]
fn first_tick_assigns_slots_and_notifies() {
    // Two services, pool capacity 2: both get a slot, both transition
    // from Unknown to Online, two requests with operation setOnline.
    let mut e = Engine::new(2);
    let acts = e.tick(vec![probe("a", Status::Online), probe("b", Status::Online)]);
    assert_eq!(acts.len(), 2);
    for act in &acts {
        assert_eq!(act.status, Status::Online);
        assert_eq!(get_status_fn(&act.status), "setOnline");
    }
    assert_eq!(e.tracked_count(), 2);
    let mut slots = vec![
        e.tracked_app(0).led_num.expect("first service should hold a slot"),
        e.tracked_app(1).led_num.expect("second service should hold a slot"),
    ];
    slots.sort();
    assert_eq!(slots, vec![1, 2]);
    assert_eq!(e.free_slots(), 0);
}

#[test]
fn vanished_service_releases_slot() {
    // Continuing from the first tick: b vanishes, its entry goes and its
    // slot comes back; a is unchanged and triggers nothing.
    let mut e = Engine::new(2);
    e.tick(vec![probe("a", Status::Online), probe("b", Status::Online)]);
    let b_slot = {
        let mut found = None;
        for i in 0..e.tracked_count() {
            let app = e.tracked_app(i);
            if app.name == "b" {
                found = app.led_num;
            }
        }
        found.expect("b should hold a slot")
    };
    let acts = e.tick(vec![probe("a", Status::Online)]);
    assert_eq!(acts.len(), 0);
    assert_eq!(e.tracked_count(), 1);
    assert_eq!(e.tracked_app(0).name, "a");
    assert_eq!(e.free_slots(), 1);
    assert!(e.slot_is_free(b_slot));
}

#[test]
fn exhausted_pool_tracks_without_slot() {
    // Capacity 1, two new services: exactly one gets the slot; the other
    // is tracked slotless and its request carries no slot, so no
    // outbound call is made for it.
    let mut e = Engine::new(1);
    let acts = e.tick(vec![probe("x", Status::Online), probe("y", Status::Online)]);
    assert_eq!(acts.len(), 2);
    let with_slot: Vec<_> = acts.iter().filter(|a| a.led_num.is_some()).collect();
    let without_slot: Vec<_> = acts.iter().filter(|a| a.led_num.is_none()).collect();
    assert_eq!(with_slot.len(), 1);
    assert_eq!(without_slot.len(), 1);
    assert_eq!(with_slot[0].led_num, Some(1));
    assert_eq!(e.tracked_count(), 2);
    assert_eq!(e.free_slots(), 0);
}

#[test]
fn repeated_probes_are_idempotent() {
    let mut e = Engine::new(2);
    let probes = vec![probe("a", Status::Online), probe("b", Status::Offline)];
    let first = e.tick(probes.clone());
    assert_eq!(first.len(), 2);
    let count_before = e.tracked_count();
    let free_before = e.free_slots();
    let second = e.tick(probes.clone());
    assert_eq!(second.len(), 0);
    assert_eq!(e.tracked_count(), count_before);
    assert_eq!(e.free_slots(), free_before);
    let third = e.tick(probes);
    assert_eq!(third.len(), 0);
}

#[test]
fn freed_slot_is_reused_same_tick() {
    // Capacity 1: x holds the only slot; when x vanishes and y appears
    // in the same tick, y receives the slot x just gave back.
    let mut e = Engine::new(1);
    e.tick(vec![probe("x", Status::Online)]);
    assert_eq!(e.free_slots(), 0);
    let acts = e.tick(vec![probe("y", Status::Online)]);
    assert_eq!(acts.len(), 1);
    assert_eq!(acts[0].led_num, Some(1));
    assert_eq!(e.tracked_count(), 1);
    assert_eq!(e.tracked_app(0).name, "y");
    assert_eq!(e.tracked_app(0).led_num, Some(1));
}

#[test]
fn assigned_slots_never_exceed_capacity() {
    let mut e = Engine::new(2);
    let acts = e.tick(vec![
        probe("p", Status::Online),
        probe("q", Status::Offline),
        probe("r", Status::Errored),
        probe("s", Status::Online),
    ]);
    assert_eq!(acts.len(), 4);
    let mut assigned = Vec::new();
    for i in 0..e.tracked_count() {
        if let Some(slot) = e.tracked_app(i).led_num {
            assert!(!assigned.contains(&slot));
            assert!((1..=2).contains(&slot));
            assigned.push(slot);
        }
    }
    assert!(assigned.len() <= 2);
    assert_eq!(e.free_slots(), 0);
}

#[test]
fn status_change_notifies_once_per_service() {
    let mut e = Engine::new(2);
    e.tick(vec![probe("a", Status::Online), probe("b", Status::Online)]);
    let acts = e.tick(vec![probe("a", Status::Offline), probe("b", Status::Online)]);
    assert_eq!(acts.len(), 1);
    assert_eq!(acts[0].name, "a");
    assert_eq!(acts[0].status, Status::Offline);
    assert_eq!(get_status_fn(&acts[0].status), "setOffline");
}

#[test]
fn unknown_probe_on_new_service_is_no_transition() {
    let mut e = Engine::new(2);
    let acts = e.tick(vec![probe("a", Status::Unknown)]);
    assert_eq!(acts.len(), 0);
    assert_eq!(e.tracked_count(), 1);
    assert_eq!(e.tracked_app(0).last_status, Status::Unknown);
}
