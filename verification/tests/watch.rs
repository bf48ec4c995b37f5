use mclog_capture::{minecraft_ancestor, WatchAction, WatchConfig, WatchEvent, WatchState};
use std::time::Duration;

#[test]
fn default_config() {
    let c = WatchConfig::default();
    assert_eq!(c.identifier, "Test log");
    assert_eq!(c.interval, Duration::from_millis(50));
}

#[test]
fn watcher_reads_only_newer_files() {
    let mut s = WatchState::new();
    assert_eq!(s.step(WatchEvent::FileMissing), WatchAction::Sleep(5));
    assert_eq!(s.step(WatchEvent::Opened { modified: 0 }), WatchAction::Sleep(1));
    assert_eq!(s.step(WatchEvent::Opened { modified: 100 }), WatchAction::ReadFrom(0));
    assert_eq!(s.step(WatchEvent::LineRead { len: 10 }), WatchAction::Continue);
    assert_eq!(s.step(WatchEvent::LineRead { len: 5 }), WatchAction::Continue);
    assert_eq!(s.step(WatchEvent::EndOfFile), WatchAction::Sleep(1));
    assert_eq!(s.byte_offset, 15);
    assert_eq!(s.step(WatchEvent::Opened { modified: 100 }), WatchAction::Sleep(1));
    assert_eq!(s.step(WatchEvent::Opened { modified: 90 }), WatchAction::Sleep(1));
    assert_eq!(s.step(WatchEvent::Opened { modified: 101 }), WatchAction::ReadFrom(15));
    assert_eq!(s.latest_modified, 101);
}

fn parts(v: &[&str]) -> Vec<String> {
    v.iter().map(|s| s.to_string()).collect()
}

#[test]
fn finds_the_nearest_minecraft_directory() {
    assert_eq!(
        minecraft_ancestor(&parts(&["/", "home", "me", ".minecraft", "saves", "w", "datapacks"])),
        Some(4)
    );
    assert_eq!(
        minecraft_ancestor(&parts(&["/", ".minecraft", "a", ".minecraft", "b"])),
        Some(4)
    );
    assert_eq!(minecraft_ancestor(&parts(&["/", ".minecraft"])), Some(2));
    assert_eq!(minecraft_ancestor(&parts(&["/", "home", "me"])), None);
    assert_eq!(minecraft_ancestor(&parts(&[])), None);
}
