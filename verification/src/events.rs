//! The event dispatcher's decisions: which tree operation each X event or
//! key press asks for, and how client configure requests are censored. The
//! caller reads events from the connection, turns them into plain values,
//! and performs the returned requests.

use vstd::prelude::*;
use crate::action::Action;
use crate::config::{Keybind, KeyButMask};
use crate::errors::XcrabError;
use crate::frame::{Window, XRequest};
use crate::tree::XcrabWindowManager;

verus! {

/// The modifier bits a binding is compared against: shift, control, mod1
/// and mod4; lock and the other mod groups are ignored.
pub const BIND_MODIFIER_BITS: u16 = 0x4D;

/// An X event, reduced to the plain values the decisions need. A map
/// request arrives with the frame window the caller has already created
/// for it; a key press arrives with the character its keycode names and
/// the modifier state it was pressed under.
pub enum XEvent {
    MapRequest { window: Window, frame: Window },
    ConfigureRequest {
        window: Window,
        x: i16,
        y: i16,
        width: u16,
        height: u16,
        border_width: u16,
        stack_mode: u8,
    },
    UnmapNotify { event: Window, window: Window },
    ButtonPress { detail: u8, event: Window },
    KeyPress { key: Option<char>, mods: u16 },
    Other,
}

/// The configure request forwarded for a window: geometry is stripped for
/// managed clients (the manager owns the layout), and the sibling always
/// is (clients supply bogus ones).
pub open spec fn spec_forwarded_configure(
    known: bool,
    window: Window,
    x: i16,
    y: i16,
    width: u16,
    height: u16,
    border_width: u16,
    stack_mode: u8,
) -> XRequest {
    XRequest::Configure {
        window,
        x: if known {
            None
        } else {
            Some(x as i32)
        },
        y: if known {
            None
        } else {
            Some(y as i32)
        },
        width: if known {
            None
        } else {
            Some(width as u32)
        },
        height: if known {
            None
        } else {
            Some(height as u32)
        },
        border_width: Some(border_width as u32),
        sibling: None,
        stack_mode: Some(stack_mode),
        may_not_exist: true,
    }
}

/// A key press triggers the binding when the character and the relevant
/// modifier bits agree.
pub open spec fn spec_bind_matches(kb: Keybind, c: char, mods: u16) -> bool {
    kb.key == c && kb.mods.spec_bits() == mods & BIND_MODIFIER_BITS
}

fn bind_matches(kb: Keybind, c: char, mods: u16) -> (r: bool)
    ensures
        r == spec_bind_matches(kb, c, mods),
{
    kb.key == c && kb.mods.bits() == mods & BIND_MODIFIER_BITS
}

/// Dispatch one event. Map requests adopt the pre-framed window, unmap
/// notifications away from the root drop known clients, a first-button
/// press on a known client focuses it, key presses run the bound actions,
/// configure requests are forwarded censored, and anything else is
/// ignored. Each arm promises exactly what the tree operation it calls
/// promises.
#[verifier::rlimit(100)]
#[verifier::spinoff_prover]
pub fn handle_event(manager: &mut XcrabWindowManager, ev: &XEvent, root: Window) -> (r: Result<
    Vec<XRequest>,
    XcrabError,
>)
    requires
        old(manager).wf(),
        (ev matches XEvent::MapRequest { window, frame } ==> !old(manager).has_client_spec(
            *window,
        ) && old(manager).live_count <= 0xFFFA),
    ensures
        final(manager).wf(),
        (ev matches XEvent::MapRequest { window, frame } ==> (r matches Ok(v)
            && XcrabWindowManager::add_post(
            *old(manager),
            *final(manager),
            *window,
            *frame,
            crate::geometry::Direction::Right,
            v@,
        ))),
        (ev matches XEvent::ConfigureRequest { window, x, y, width, height, border_width, stack_mode }
            ==> (r matches Ok(v) && v@ == seq![
            spec_forwarded_configure(
                old(manager).has_client_spec(*window),
                *window,
                *x,
                *y,
                *width,
                *height,
                *border_width,
                *stack_mode,
            ),
        ] && *final(manager) == *old(manager))),
        (ev matches XEvent::UnmapNotify { event, window } ==> {
            if *event != root && old(manager).has_client_spec(*window) {
                r matches Ok(v) && XcrabWindowManager::remove_post(
                    *old(manager),
                    *final(manager),
                    *window,
                    v@,
                )
            } else {
                r matches Ok(v) && v@.len() == 0 && *final(manager) == *old(manager)
            }
        }),
        (ev matches XEvent::ButtonPress { detail, event } ==> {
            if *detail == 1 && old(manager).has_client_spec(*event) {
                r matches Ok(v) && XcrabWindowManager::set_focus_post(
                    *old(manager),
                    *final(manager),
                    *event,
                    v@,
                )
            } else {
                r matches Ok(v) && v@.len() == 0 && *final(manager) == *old(manager)
            }
        }),
        (ev matches XEvent::KeyPress { key, mods } ==> {
            &&& r is Ok
            &&& ((match key {
                Some(c) => forall|j: int|
                    0 <= j < old(manager).config.binds@.len() ==> !spec_bind_matches(
                        (#[trigger] old(manager).config.binds@[j]).0,
                        *c,
                        *mods,
                    ),
                None => true,
            }) ==> ((r)->Ok_0)@.len() == 0 && *final(manager) == *old(manager))
            &&& (forall|j0: int|
                {
                    &&& 0 <= j0 < old(manager).config.binds@.len()
                    &&& (key matches Some(c) && spec_bind_matches(
                        (#[trigger] old(manager).config.binds@[j0]).0,
                        *c,
                        *mods,
                    ) && (forall|j: int|
                        0 <= j < old(manager).config.binds@.len() && j != j0
                            ==> !spec_bind_matches(
                            (#[trigger] old(manager).config.binds@[j]).0,
                            *c,
                            *mods,
                        )))
                    &&& old(manager).config.binds@[j0].1 is Close
                } ==> XcrabWindowManager::destroy_post(
                    *old(manager),
                    *final(manager),
                    ((r)->Ok_0)@,
                ))
        }),
        (ev is Other ==> (r matches Ok(v) && v@.len() == 0 && *final(manager) == *old(manager))),
{
    match ev {
        XEvent::MapRequest { window, frame } => Ok(manager.add_client(*window, *frame)),
        XEvent::ConfigureRequest { window, x, y, width, height, border_width, stack_mode } => {
            let known = manager.has_client(*window);
            let mut v: Vec<XRequest> = Vec::new();
            v.push(
                XRequest::Configure {
                    window: *window,
                    x: if known {
                        None
                    } else {
                        Some(*x as i32)
                    },
                    y: if known {
                        None
                    } else {
                        Some(*y as i32)
                    },
                    width: if known {
                        None
                    } else {
                        Some(*width as u32)
                    },
                    height: if known {
                        None
                    } else {
                        Some(*height as u32)
                    },
                    border_width: Some(*border_width as u32),
                    sibling: None,
                    stack_mode: Some(*stack_mode),
                    may_not_exist: true,
                },
            );
            proof {
                assert(v@ =~= seq![
                    spec_forwarded_configure(
                        known,
                        *window,
                        *x,
                        *y,
                        *width,
                        *height,
                        *border_width,
                        *stack_mode,
                    ),
                ]);
            }
            Ok(v)
        },
        XEvent::UnmapNotify { event, window } => {
            if *event != root && manager.has_client(*window) {
                manager.remove_client(*window)
            } else {
                Ok(Vec::new())
            }
        },
        XEvent::ButtonPress { detail, event } => {
            if *detail == 1 && manager.has_client(*event) {
                manager.set_focus(*event)
            } else {
                Ok(Vec::new())
            }
        },
        XEvent::KeyPress { key, mods } => {
            match key {
                Some(c) => {
                    let ghost s0 = *manager;
                    let mut r: Vec<XRequest> = Vec::new();
                    let mut j: usize = 0;
                    let n = manager.config.binds.len();
                    while j < n
                        invariant
                            s0 == *old(manager),
                            manager.wf(),
                            n == manager.config.binds@.len(),
                            manager.config == s0.config,
                            manager.screen == s0.screen,
                            0 <= j <= n,
                            (forall|j2: int|
                                0 <= j2 < j ==> !spec_bind_matches(
                                    (#[trigger] s0.config.binds@[j2]).0,
                                    *c,
                                    *mods,
                                )) ==> (r@.len() == 0 && *manager == s0),
                            forall|j0: int|
                                {
                                    &&& 0 <= j0 < j
                                    &&& spec_bind_matches(
                                        (#[trigger] s0.config.binds@[j0]).0,
                                        *c,
                                        *mods,
                                    )
                                    &&& (forall|j2: int|
                                        0 <= j2 < j && j2 != j0 ==> !spec_bind_matches(
                                            (#[trigger] s0.config.binds@[j2]).0,
                                            *c,
                                            *mods,
                                        ))
                                    &&& s0.config.binds@[j0].1 is Close
                                } ==> XcrabWindowManager::destroy_post(s0, *manager, r@),
                        decreases n - j,
                    {
                        let (kb, act) = manager.config.binds[j];
                        if bind_matches(kb, *c, *mods) {
                            let mut rr = act.eval(manager);
                            r.append(&mut rr);
                        }
                        j = j + 1;
                    }
                    Ok(r)
                },
                None => Ok(Vec::new()),
            }
        },
        XEvent::Other => Ok(Vec::new()),
    }
}

} // verus!
