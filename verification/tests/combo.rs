use esperto::combo::ComboHandler;
use esperto::config::{ActionDecl, ComboDecl, Config, ModifierDecl};
use esperto::types::{Event, Kind};
use std::collections::VecDeque;

fn modifier(id: &str, keys: Vec<u32>, masking: bool) -> ModifierDecl {
    ModifierDecl { id: id.to_string(), keys, masking }
}

fn action(key: u32, out: Option<u32>, immediate: bool, modified: Vec<(&str, Option<u32>)>) -> ActionDecl<u32> {
    ActionDecl {
        key,
        action: out,
        immediate,
        latching: false,
        modified: modified
            .into_iter()
            .map(|(m, a)| ComboDecl { modifier: m.to_string(), action: a })
            .collect(),
    }
}

fn ev(keycode: u32, kind: Kind) -> Event<u32> {
    Event { keycode, kind, value: 0 }
}

fn drain(h: &mut ComboHandler<u32, VecDeque<Event<u32>>>) -> Vec<(u32, Kind)> {
    let mut out = vec![];
    while let Some(e) = h.events.pop_front() {
        out.push((e.keycode, e.kind));
    }
    out
}

fn shift_config() -> Config<u32> {
    Config {
        modifiers: vec![modifier("shift", vec![10], false)],
        actions: vec![
            action(1, Some(100), false, vec![("shift", Some(200))]),
            action(2, Some(300), false, vec![]),
            action(10, Some(50), false, vec![]),
        ],
    }
}

#[test]
fn plain_key_is_remapped() {
    let mut h = ComboHandler::new(&shift_config());
    assert!(h.handle(Event { keycode: 2, kind: Kind::Down, value: 9 }));
    let e = h.events.pop_front().unwrap();
    assert_eq!((e.keycode, e.kind, e.value), (300, Kind::Down, 9));
    assert!(h.handle(ev(2, Kind::Up)));
    assert_eq!(drain(&mut h), vec![(300, Kind::Up)]);
}

#[test]
fn unknown_key_is_not_handled() {
    let mut h = ComboHandler::new(&shift_config());
    assert!(!h.handle(ev(77, Kind::Down)));
    assert!(!h.handle(ev(77, Kind::Up)));
    assert!(h.events.is_empty());
}

#[test]
fn modified_action_while_modifier_held() {
    let mut h = ComboHandler::new(&shift_config());
    assert!(h.handle(ev(10, Kind::Down)));
    assert_eq!(drain(&mut h), vec![]);
    assert!(h.handle(ev(1, Kind::Down)));
    assert_eq!(drain(&mut h), vec![(200, Kind::Down)]);
    assert!(h.handle(ev(1, Kind::Up)));
    assert_eq!(drain(&mut h), vec![(200, Kind::Up)]);
    // the modifier was used: its own action is not sent on release
    assert!(h.handle(ev(10, Kind::Up)));
    assert_eq!(drain(&mut h), vec![]);
}

#[test]
fn tapped_modifier_sends_its_action_on_release() {
    let mut h = ComboHandler::new(&shift_config());
    assert!(h.handle(ev(10, Kind::Down)));
    assert_eq!(drain(&mut h), vec![]);
    assert!(h.handle(ev(10, Kind::Up)));
    assert_eq!(drain(&mut h), vec![(50, Kind::Down), (50, Kind::Up)]);
}

#[test]
fn unmodified_action_without_modifier() {
    let mut h = ComboHandler::new(&shift_config());
    assert!(h.handle(ev(1, Kind::Down)));
    assert!(h.handle(ev(1, Kind::Up)));
    assert_eq!(drain(&mut h), vec![(100, Kind::Down), (100, Kind::Up)]);
}

#[test]
fn releasing_the_modifier_releases_the_combo() {
    let mut h = ComboHandler::new(&shift_config());
    assert!(h.handle(ev(10, Kind::Down)));
    assert!(h.handle(ev(1, Kind::Down)));
    assert_eq!(drain(&mut h), vec![(200, Kind::Down)]);
    assert!(h.handle(ev(10, Kind::Up)));
    assert_eq!(drain(&mut h), vec![(200, Kind::Up)]);
    // the action key was closed by its modifier
    assert!(h.handle(ev(1, Kind::Up)));
    assert_eq!(drain(&mut h), vec![]);
}

#[test]
fn masking_modifier_hides_plain_keys() {
    let config = Config {
        modifiers: vec![modifier("ctrl", vec![20], true)],
        actions: vec![action(2, Some(300), false, vec![])],
    };
    let mut h = ComboHandler::new(&config);
    assert!(h.handle(ev(20, Kind::Down)));
    assert!(h.handle(ev(2, Kind::Down)));
    assert!(h.handle(ev(2, Kind::Up)));
    assert_eq!(drain(&mut h), vec![]);
    assert!(h.handle(ev(20, Kind::Up)));
    assert!(h.handle(ev(2, Kind::Down)));
    assert_eq!(drain(&mut h), vec![(300, Kind::Down)]);
}

#[test]
fn chord_needs_all_its_keys() {
    let config = Config {
        modifiers: vec![modifier("chord", vec![30, 31], false)],
        actions: vec![action(3, Some(1), false, vec![("chord", Some(400))])],
    };
    let mut h = ComboHandler::new(&config);
    assert!(h.handle(ev(30, Kind::Down)));
    assert!(h.handle(ev(3, Kind::Down)));
    assert!(h.handle(ev(3, Kind::Up)));
    assert_eq!(drain(&mut h), vec![(1, Kind::Down), (1, Kind::Up)]);
    assert!(h.handle(ev(31, Kind::Down)));
    assert!(h.handle(ev(3, Kind::Down)));
    assert_eq!(drain(&mut h), vec![(400, Kind::Down)]);
}

#[test]
fn larger_group_wins_over_its_subgroup() {
    let config = Config {
        modifiers: vec![modifier("a", vec![40], false), modifier("ab", vec![40, 41], false)],
        actions: vec![action(4, Some(2), false, vec![("a", Some(500)), ("ab", Some(600))])],
    };
    let mut h = ComboHandler::new(&config);
    assert!(h.handle(ev(40, Kind::Down)));
    assert!(h.handle(ev(4, Kind::Down)));
    assert!(h.handle(ev(4, Kind::Up)));
    assert_eq!(drain(&mut h), vec![(500, Kind::Down), (500, Kind::Up)]);
    assert!(h.handle(ev(41, Kind::Down)));
    assert!(h.handle(ev(4, Kind::Down)));
    assert_eq!(drain(&mut h), vec![(600, Kind::Down)]);
}

#[test]
fn intersecting_groups_conflict() {
    let config = Config {
        modifiers: vec![modifier("ab", vec![50, 51], false), modifier("bc", vec![51, 52], false)],
        actions: vec![action(5, Some(3), false, vec![("ab", Some(700))])],
    };
    let mut h = ComboHandler::new(&config);
    assert!(h.handle(ev(50, Kind::Down)));
    assert!(h.handle(ev(51, Kind::Down)));
    assert!(h.handle(ev(52, Kind::Down)));
    // both groups are active and unordered: no combo, the plain action goes out
    assert!(h.handle(ev(5, Kind::Down)));
    assert_eq!(drain(&mut h), vec![(3, Kind::Down)]);
}

#[test]
fn passthrough_forwards_unknown_events() {
    let mut h = ComboHandler::new(&shift_config());
    assert!(!h.handle_passthrough(Event { keycode: 77, kind: Kind::Down, value: 5 }));
    let e = h.events.pop_front().unwrap();
    assert_eq!((e.keycode, e.kind, e.value), (77, Kind::Down, 5));
    assert!(h.handle_passthrough(ev(2, Kind::Down)));
    assert_eq!(drain(&mut h), vec![(300, Kind::Down)]);
}

#[test]
fn with_uses_the_given_queue() {
    let mut h = ComboHandler::with(&shift_config(), vec![ev(9, Kind::Up)]);
    assert!(h.handle(ev(2, Kind::Down)));
    let got: Vec<(u32, Kind)> = h.events.iter().map(|e| (e.keycode, e.kind)).collect();
    assert_eq!(got, vec![(9, Kind::Up), (300, Kind::Down)]);
}

#[test]
fn axis_events_are_sent_through() {
    let mut h = ComboHandler::new(&shift_config());
    assert!(h.handle(Event { keycode: 2, kind: Kind::Axis, value: -4 }));
    let e = h.events.pop_front().unwrap();
    assert_eq!((e.keycode, e.kind, e.value), (300, Kind::Axis, -4));
}

#[test]
fn repeated_press_uses_the_cached_resolution() {
    let mut h = ComboHandler::new(&shift_config());
    assert!(h.handle(ev(10, Kind::Down)));
    assert!(h.handle(ev(1, Kind::Down)));
    assert!(h.handle(ev(1, Kind::Up)));
    assert!(h.handle(ev(1, Kind::Down)));
    assert_eq!(drain(&mut h), vec![(200, Kind::Down), (200, Kind::Up), (200, Kind::Down)]);
}

#[test]
fn last_action_declaration_wins() {
    let config = Config {
        modifiers: vec![],
        actions: vec![action(6, Some(1), false, vec![]), action(6, Some(2), false, vec![])],
    };
    let mut h = ComboHandler::new(&config);
    assert!(h.handle(ev(6, Kind::Down)));
    assert_eq!(drain(&mut h), vec![(2, Kind::Down)]);
}

#[test]
fn supergroup_closes_the_combo_of_its_subgroup() {
    let config = Config {
        modifiers: vec![modifier("a", vec![40], false), modifier("ab", vec![40, 41], false)],
        actions: vec![action(4, Some(2), false, vec![("a", Some(500))])],
    };
    let mut h = ComboHandler::new(&config);
    assert!(h.handle(ev(40, Kind::Down)));
    assert!(h.handle(ev(4, Kind::Down)));
    assert_eq!(drain(&mut h), vec![(500, Kind::Down)]);
    // the larger group shadows "a": the combo it modified is released now
    assert!(h.handle(ev(41, Kind::Down)));
    assert_eq!(drain(&mut h), vec![(500, Kind::Up)]);
    assert!(h.handle(ev(4, Kind::Up)));
    assert!(h.handle(ev(41, Kind::Up)));
    assert!(h.handle(ev(40, Kind::Up)));
    assert_eq!(drain(&mut h), vec![]);
}

#[test]
fn chord_swallows_the_tap_actions_of_its_keys() {
    let config = Config {
        modifiers: vec![modifier("chord", vec![30, 31], false)],
        actions: vec![action(30, Some(60), false, vec![])],
    };
    let mut h = ComboHandler::new(&config);
    assert!(h.handle(ev(30, Kind::Down)));
    assert!(h.handle(ev(30, Kind::Up)));
    assert_eq!(drain(&mut h), vec![(60, Kind::Down), (60, Kind::Up)]);
    assert!(h.handle(ev(30, Kind::Down)));
    assert!(h.handle(ev(31, Kind::Down)));
    assert!(h.handle(ev(30, Kind::Up)));
    assert!(h.handle(ev(31, Kind::Up)));
    assert_eq!(drain(&mut h), vec![]);
}

#[test]
fn immediate_modifier_acts_on_press() {
    let config = Config {
        modifiers: vec![modifier("shift", vec![10], false)],
        actions: vec![action(10, Some(50), true, vec![])],
    };
    let mut h = ComboHandler::new(&config);
    assert!(h.handle(ev(10, Kind::Down)));
    assert_eq!(drain(&mut h), vec![(50, Kind::Down)]);
    assert!(h.handle(ev(10, Kind::Up)));
    assert_eq!(drain(&mut h), vec![(50, Kind::Up)]);
}

#[test]
fn queue_shows_the_output_events() {
    let mut h = ComboHandler::new(&shift_config());
    assert!(h.queue().is_empty());
    assert!(h.handle(ev(2, Kind::Down)));
    let got: Vec<(u32, Kind)> = h.queue().iter().map(|e| (e.keycode, e.kind)).collect();
    assert_eq!(got, vec![(300, Kind::Down)]);
}
