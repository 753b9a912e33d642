use led_monitor::config::split_commas;
use led_monitor::pool::{SlotPool, DEFAULT_CAPACITY};
use led_monitor::status::{contains_substr, get_status_fn, systemctl_capture_to_status, Status};

#[test]
fn active_text_is_online() {
    let text = "somesvc.service - demo\n   Active: active (running)".to_string();
    assert_eq!(systemctl_capture_to_status(text), Status::Online);
}

#[test]
fn inactive_text_is_offline() {
    let text = "somesvc.service - demo\n   Active: inactive (dead)".to_string();
    assert_eq!(systemctl_capture_to_status(text), Status::Offline);
}

#[test]
fn unrecognized_text_is_errored() {
    let text = "somesvc.service - demo\n   Active: failed".to_string();
    assert_eq!(systemctl_capture_to_status(text), Status::Errored);
    assert_eq!(systemctl_capture_to_status(String::new()), Status::Errored);
}

#[test]
fn substring_search_matches_exactly() {
    assert!(contains_substr("Active: active (running)", "Active: active"));
    assert!(!contains_substr("Active: inactive (dead)", "Active: active"));
    assert!(contains_substr("abc", ""));
    assert!(!contains_substr("ab", "abc"));
}

#[test]
fn status_fn_names_remote_operations() {
    assert_eq!(get_status_fn(&Status::Online), "setOnline");
    assert_eq!(get_status_fn(&Status::Offline), "setOffline");
    assert_eq!(get_status_fn(&Status::Errored), "setOffline");
    assert_eq!(get_status_fn(&Status::Unknown), "setUndefined");
}

#[test]
fn pool_hands_out_all_slots_once() {
    let mut pool = SlotPool::new(DEFAULT_CAPACITY);
    assert_eq!(pool.available_count(), 11);
    let mut seen = Vec::new();
    while let Some(slot) = pool.allocate() {
        assert!((1..=11).contains(&slot));
        assert!(!seen.contains(&slot));
        seen.push(slot);
    }
    assert_eq!(seen.len(), 11);
    assert_eq!(pool.available_count(), 0);
    pool.release(7);
    assert!(pool.is_available(7));
    assert_eq!(pool.allocate(), Some(7));
}

#[test]
fn split_commas_splits_names() {
    let parts = split_commas("alpha,beta,gamma");
    assert_eq!(parts, vec!["alpha", "beta", "gamma"]);
}

#[test]
fn split_commas_keeps_empty_pieces() {
    assert_eq!(split_commas(""), vec![""]);
    assert_eq!(split_commas("a,,b"), vec!["a", "", "b"]);
    assert_eq!(split_commas("trailing,"), vec!["trailing", ""]);
}
