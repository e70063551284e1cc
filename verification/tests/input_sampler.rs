use telemetry_sampler::Event;
use telemetry_sampler::InputSampler;
use telemetry_sampler::KeySet;
use telemetry_sampler::MousePos;

fn pos(x: i32, y: i32) -> MousePos {
    MousePos { x, y }
}

fn snap(codes: &[u32]) -> KeySet {
    KeySet::from_codes(&codes.to_vec())
}

#[test]
fn mouse_moves_only_on_change() {
    let mut s = InputSampler::new(false);
    let empty = KeySet::new();
    assert_eq!(s.tick(&empty, pos(0, 0)), vec![]);
    assert_eq!(s.tick(&empty, pos(0, 0)), vec![]);
    assert_eq!(s.tick(&empty, pos(5, 5)), vec![Event::MouseMove { pos: pos(5, 5) }]);
    assert_eq!(s.tick(&empty, pos(5, 5)), vec![]);
    assert_eq!(s.last_mouse(), pos(5, 5));
}

#[test]
fn mouse_idle_variant_reports_idle() {
    let mut s = InputSampler::new(true);
    let empty = KeySet::new();
    assert_eq!(s.tick(&empty, pos(0, 0)), vec![Event::MouseIdle { pos: pos(0, 0) }]);
    assert_eq!(s.tick(&empty, pos(0, 0)), vec![Event::MouseIdle { pos: pos(0, 0) }]);
    assert_eq!(s.tick(&empty, pos(5, 5)), vec![Event::MouseMove { pos: pos(5, 5) }]);
    assert_eq!(s.tick(&empty, pos(5, 5)), vec![Event::MouseIdle { pos: pos(5, 5) }]);
}

#[test]
fn key_edges_single_key() {
    let mut s = InputSampler::new(false);
    let empty = KeySet::new();
    let a = snap(&[65]);
    assert_eq!(s.tick(&a, pos(0, 0)), vec![Event::KeyDown { code: 65 }]);
    assert!(s.is_pressed(65));
    assert_eq!(s.tick(&a, pos(0, 0)), vec![]);
    assert!(s.is_pressed(65));
    assert_eq!(s.tick(&empty, pos(0, 0)), vec![Event::KeyUp { code: 65 }]);
    assert!(!s.is_pressed(65));
    assert_eq!(s.pressed_count(), 0);
}

#[test]
fn key_edges_multiple_keys_ordered() {
    let mut s = InputSampler::new(false);
    assert_eq!(
        s.tick(&snap(&[1, 2]), pos(0, 0)),
        vec![Event::KeyDown { code: 1 }, Event::KeyDown { code: 2 }]
    );
    assert_eq!(
        s.tick(&snap(&[2, 3]), pos(0, 0)),
        vec![Event::KeyDown { code: 3 }, Event::KeyUp { code: 1 }]
    );
    assert_eq!(
        s.tick(&snap(&[]), pos(0, 0)),
        vec![Event::KeyUp { code: 2 }, Event::KeyUp { code: 3 }]
    );
}

#[test]
fn mouse_event_precedes_key_events() {
    let mut s = InputSampler::new(false);
    let ev = s.tick(&snap(&[9]), pos(3, 4));
    assert_eq!(ev, vec![Event::MouseMove { pos: pos(3, 4) }, Event::KeyDown { code: 9 }]);
}

#[test]
fn replay_reconstructs_pressed_set() {
    let snapshots: Vec<Vec<u32>> = vec![
        vec![1, 2],
        vec![2],
        vec![2, 3, 4],
        vec![],
        vec![5],
        vec![5, 1],
    ];
    let mut s = InputSampler::new(false);
    let mut replayed: std::collections::HashSet<u32> = std::collections::HashSet::new();
    for codes in &snapshots {
        let ks = KeySet::from_codes(codes);
        for e in s.tick(&ks, pos(0, 0)) {
            match e {
                Event::KeyDown { code } => {
                    assert!(replayed.insert(code), "duplicate down for {code}");
                }
                Event::KeyUp { code } => {
                    assert!(replayed.remove(&code), "up without down for {code}");
                }
                _ => {}
            }
        }
        let expect: std::collections::HashSet<u32> = codes.iter().copied().collect();
        assert_eq!(replayed, expect);
        for c in codes {
            assert!(s.is_pressed(*c));
        }
        assert_eq!(s.pressed_count(), expect.len());
    }
}

#[test]
fn keyset_deduplicates() {
    let ks = KeySet::from_codes(&vec![5, 5, 7]);
    assert_eq!(ks.len(), 2);
    assert!(ks.contains(5));
    assert!(ks.contains(7));
    assert!(!ks.contains(6));
}

#[test]
fn keyset_insert_is_idempotent() {
    let mut ks = KeySet::new();
    ks.insert(5);
    ks.insert(5);
    ks.insert(9);
    assert_eq!(ks.len(), 2);
    assert_eq!(ks.code_at(0), 5);
    assert_eq!(ks.code_at(1), 9);
}
