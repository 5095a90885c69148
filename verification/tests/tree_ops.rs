use xcrab::config::XcrabConfig;
use xcrab::frame::{FramedWindow, XRequest};
use xcrab::geometry::{Dimensions, Direction};
use xcrab::tree::XcrabWindowManager;

fn cfg() -> XcrabConfig {
    XcrabConfig {
        border_color: None,
        focused_color: None,
        border_size: None,
        gap_size: None,
        outer_gap_size: None,
        msg: None,
        binds: Vec::new(),
    }
}

fn screen() -> Dimensions {
    Dimensions { x: 0, y: 0, width: 1920, height: 1080 }
}

fn dims_of(m: &XcrabWindowManager, win: u32) -> Dimensions {
    let key = m.clients.iter().find(|e| e.0 == win).unwrap().1;
    m.nodes[key].as_ref().unwrap().cached_dimensions
}

fn d(x: u16, y: u16, w: u16, h: u16) -> Dimensions {
    Dimensions { x, y, width: w, height: h }
}

#[test]
fn first_client_fills_root() {
    let mut m = XcrabWindowManager::new(cfg(), screen());
    let r = m.add_client(1, 101);
    // the root tile is the screen shrunk by the outer gap
    assert_eq!(dims_of(&m, 1), d(20, 20, 1880, 1040));
    assert_eq!(m.get_focused(), Some(1));
    // frame configured at (20,20) with the border taken out of the size
    assert!(r.contains(&XRequest::Configure {
        window: 101,
        x: Some(20),
        y: Some(20),
        width: Some(1870),
        height: Some(1030),
        border_width: Some(5),
        sibling: None,
        stack_mode: None,
        may_not_exist: false,
    }));
    // the client sits at (-1,-1) inside the frame
    assert!(r.contains(&XRequest::Configure {
        window: 1,
        x: Some(-1),
        y: Some(-1),
        width: Some(1870),
        height: Some(1030),
        border_width: None,
        sibling: None,
        stack_mode: None,
        may_not_exist: true,
    }));
    assert_eq!(r.last(), Some(&XRequest::SetInputFocus { window: Some(1) }));
}

#[test]
fn second_client_splits_horizontally() {
    let mut m = XcrabWindowManager::new(cfg(), screen());
    m.add_client(1, 101);
    m.add_client_direction(2, 102, Direction::Right);
    assert_eq!(dims_of(&m, 1), d(20, 20, 930, 1040));
    assert_eq!(dims_of(&m, 2), d(970, 20, 930, 1040));
    assert_eq!(m.get_focused(), Some(2));
}

#[test]
fn third_client_wraps_the_focused_leaf() {
    let mut m = XcrabWindowManager::new(cfg(), screen());
    m.add_client(1, 101);
    m.add_client_direction(2, 102, Direction::Right);
    m.add_client_direction_immediate(3, 103, Direction::Down);
    // a vertical pane wraps the focused leaf only
    assert_eq!(dims_of(&m, 1), d(20, 20, 930, 1040));
    assert_eq!(dims_of(&m, 2), d(970, 20, 930, 510));
    assert_eq!(dims_of(&m, 3), d(970, 550, 930, 510));
}

#[test]
fn default_direction_wraps_the_root() {
    let mut m = XcrabWindowManager::new(cfg(), screen());
    m.add_client(1, 101);
    m.add_client_direction(2, 102, Direction::Right);
    // no vertical ancestor exists, so the whole root is wrapped
    m.add_client_direction(3, 103, Direction::Down);
    assert_eq!(dims_of(&m, 1), d(20, 20, 930, 510));
    assert_eq!(dims_of(&m, 2), d(970, 20, 930, 510));
    assert_eq!(dims_of(&m, 3), d(20, 550, 1880, 510));
}

#[test]
fn removal_hands_the_column_to_the_survivor() {
    let mut m = XcrabWindowManager::new(cfg(), screen());
    m.add_client(1, 101);
    m.add_client_direction(2, 102, Direction::Right);
    m.add_client_direction_immediate(3, 103, Direction::Down);
    m.remove_client(2).unwrap();
    assert_eq!(dims_of(&m, 1), d(20, 20, 930, 1040));
    assert_eq!(dims_of(&m, 3), d(970, 20, 930, 1040));
}

#[test]
fn removing_only_window_clears_focus() {
    let mut m = XcrabWindowManager::new(cfg(), screen());
    m.add_client(1, 101);
    let r = m.remove_client(1).unwrap();
    assert_eq!(m.get_focused(), None);
    assert!(m.clients.is_empty());
    assert!(r.contains(&XRequest::SetInputFocus { window: None }));
}

#[test]
fn add_then_remove_restores_the_layout() {
    let mut m = XcrabWindowManager::new(cfg(), screen());
    m.add_client(1, 101);
    m.add_client_direction(2, 102, Direction::Right);
    m.set_focus(1).unwrap();
    let d1 = dims_of(&m, 1);
    let d2 = dims_of(&m, 2);
    m.add_client_direction(3, 103, Direction::Right);
    m.remove_client(3).unwrap();
    assert_eq!(dims_of(&m, 1), d1);
    assert_eq!(dims_of(&m, 2), d2);
    assert_eq!(m.get_focused(), Some(1));
    assert_eq!(m.clients.len(), 2);
}

#[test]
fn set_focus_is_idempotent() {
    let mut m = XcrabWindowManager::new(cfg(), screen());
    m.add_client(1, 101);
    m.add_client_direction(2, 102, Direction::Right);
    let r1 = m.set_focus(1).unwrap();
    let c1 = m.clients.clone();
    let d1 = (dims_of(&m, 1), dims_of(&m, 2));
    let r2 = m.set_focus(1).unwrap();
    assert_eq!(r1, r2);
    assert_eq!(m.clients, c1);
    assert_eq!((dims_of(&m, 1), dims_of(&m, 2)), d1);
    assert_eq!(m.get_focused(), Some(1));
}

#[test]
fn destroy_focused_remembers_the_frame() {
    let mut m = XcrabWindowManager::new(cfg(), screen());
    m.add_client(1, 101);
    m.add_client_direction(2, 102, Direction::Right);
    let r = m.destroy_focused_client();
    assert_eq!(r.last(), Some(&XRequest::KillClient { frame: 102, win: 2 }));
    assert!(!m.has_client(2));
    assert_eq!(m.get_focused(), Some(1));
}

#[test]
fn kill_requests_follow_the_protocol() {
    let fw = FramedWindow { frame: 103, win: 3 };
    assert_eq!(fw.kill_requests(true), vec![XRequest::SendDeleteMessage { window: 3 }]);
    assert_eq!(fw.kill_requests(false), vec![XRequest::Destroy { window: 3 }]);
}
