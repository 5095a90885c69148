use xcrab::action::Action;
use xcrab::config::{parse_keybind, XcrabConfig, DEFAULT_GAP_SIZE};
use xcrab::errors::XcrabError;
use xcrab::events::{handle_event, XEvent};
use xcrab::frame::{atoms_contain, parse_atom_list, XRequest};
use xcrab::geometry::Dimensions;
use xcrab::tree::XcrabWindowManager;

fn msg(e: XcrabError) -> String {
    e.message()
}

#[test]
fn close_parses_case_insensitively() {
    assert!(matches!(Action::parse("close"), Ok(Action::Close)));
    assert!(matches!(Action::parse("CLOSE"), Ok(Action::Close)));
    assert!(matches!(Action::parse("  Close now"), Ok(Action::Close)));
}

#[test]
fn unknown_action_is_echoed() {
    let e = Action::parse("nonsense").unwrap_err();
    assert_eq!(msg(e), "Unknown action: nonsense");
}

#[test]
fn empty_action_is_refused() {
    let e = Action::parse("   ").unwrap_err();
    assert_eq!(msg(e), "No action provided");
}

#[test]
fn keybind_grammar() {
    let kb = parse_keybind("C-S-a").unwrap();
    assert_eq!(kb.key, 'A');
    assert!(kb.mods.control && kb.mods.shift && !kb.mods.mod1 && !kb.mods.mod4);
    let kb2 = parse_keybind("W-x").unwrap();
    assert_eq!(kb2.key, 'X');
    assert!(kb2.mods.mod4);
    assert_eq!(msg(parse_keybind("").unwrap_err()), "parts must contain at least one character");
    assert_eq!(msg(parse_keybind("CC-x").unwrap_err()), "parts may only contain one character");
    assert_eq!(msg(parse_keybind("B-x").unwrap_err()), "no such modifier: B");
    assert_eq!(msg(parse_keybind("C-S").unwrap_err()), "must specify one normal key");
}

#[test]
fn config_defaults() {
    let c = XcrabConfig::default();
    assert_eq!(c.border_color(), 0xff_00_00);
    assert_eq!(c.focused_color(), 0x00_00_ff);
    assert_eq!(c.border_size(), 5);
    assert_eq!(c.gap_size(), DEFAULT_GAP_SIZE);
    // the outer gap falls back to the inner one
    assert_eq!(c.outer_gap_size(), c.gap_size());
}

#[test]
fn atom_lists_parse_little_endian() {
    let bytes = vec![1, 0, 0, 0, 0x39, 0x05, 0, 0, 0xff];
    let atoms = parse_atom_list(&bytes);
    assert_eq!(atoms, vec![1, 0x539]);
    assert!(atoms_contain(&atoms, 0x539));
    assert!(!atoms_contain(&atoms, 2));
}

fn manager_with_one_client() -> XcrabWindowManager {
    let mut m = XcrabWindowManager::new(
        XcrabConfig::default(),
        Dimensions { x: 0, y: 0, width: 1920, height: 1080 },
    );
    m.add_client(1, 101);
    m
}

#[test]
fn configure_request_on_client_keeps_geometry() {
    let mut m = manager_with_one_client();
    let ev = XEvent::ConfigureRequest {
        window: 1,
        x: 7,
        y: 8,
        width: 300,
        height: 200,
        border_width: 2,
        stack_mode: 0,
    };
    let r = handle_event(&mut m, &ev, 999).unwrap();
    assert_eq!(
        r,
        vec![XRequest::Configure {
            window: 1,
            x: None,
            y: None,
            width: None,
            height: None,
            border_width: Some(2),
            sibling: None,
            stack_mode: Some(0),
            may_not_exist: true,
        }]
    );
    // tree untouched
    assert_eq!(m.get_focused(), Some(1));
}

#[test]
fn configure_request_on_stranger_passes_through() {
    let mut m = manager_with_one_client();
    let ev = XEvent::ConfigureRequest {
        window: 55,
        x: 7,
        y: 8,
        width: 300,
        height: 200,
        border_width: 2,
        stack_mode: 1,
    };
    let r = handle_event(&mut m, &ev, 999).unwrap();
    assert_eq!(
        r,
        vec![XRequest::Configure {
            window: 55,
            x: Some(7),
            y: Some(8),
            width: Some(300),
            height: Some(200),
            border_width: Some(2),
            sibling: None,
            stack_mode: Some(1),
            may_not_exist: true,
        }]
    );
}

#[test]
fn unmap_of_known_client_removes_it() {
    let mut m = manager_with_one_client();
    handle_event(&mut m, &XEvent::UnmapNotify { event: 5, window: 1 }, 999).unwrap();
    assert!(!m.has_client(1));
    // unmap reported on the root is ignored
    let mut m2 = manager_with_one_client();
    handle_event(&mut m2, &XEvent::UnmapNotify { event: 999, window: 1 }, 999).unwrap();
    assert!(m2.has_client(1));
}

#[test]
fn close_action_through_eval() {
    let mut m = manager_with_one_client();
    let r = Action::Close.eval(&mut m);
    assert_eq!(r.last(), Some(&XRequest::KillClient { frame: 101, win: 1 }));
    assert_eq!(m.get_focused(), None);
}

#[test]
fn key_press_runs_the_matching_bind() {
    let mut m = XcrabWindowManager::new(
        XcrabConfig::default(),
        Dimensions { x: 0, y: 0, width: 1920, height: 1080 },
    );
    let kb = parse_keybind("C-q").unwrap();
    m.config.binds.push((kb, Action::Close));
    m.add_client(1, 101);
    // control held (bit 2), num lock on (bit 4, ignored by matching)
    let ev = XEvent::KeyPress { key: Some('Q'), mods: 0b1_0100 };
    let r = handle_event(&mut m, &ev, 999).unwrap();
    assert_eq!(r.last(), Some(&XRequest::KillClient { frame: 101, win: 1 }));
    assert_eq!(m.get_focused(), None);
    // without the modifier nothing matches and nothing happens
    let mut m2 = XcrabWindowManager::new(
        XcrabConfig::default(),
        Dimensions { x: 0, y: 0, width: 1920, height: 1080 },
    );
    m2.config.binds.push((kb, Action::Close));
    m2.add_client(1, 101);
    let r2 = handle_event(&mut m2, &XEvent::KeyPress { key: Some('Q'), mods: 0 }, 999).unwrap();
    assert!(r2.is_empty());
    assert_eq!(m2.get_focused(), Some(1));
}

#[test]
fn button_press_on_stranger_is_ignored() {
    let mut m = manager_with_one_client();
    let r = handle_event(&mut m, &XEvent::ButtonPress { detail: 1, event: 424242 }, 999).unwrap();
    assert!(r.is_empty());
    assert_eq!(m.get_focused(), Some(1));
}
