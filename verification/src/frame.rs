//! Framing: the sequences of X requests that wrap a client window in a
//! frame, keep the two in lockstep, and surrender the client on removal.
//! Nothing here talks to a server; each function only says, as data, which
//! requests must be issued in which order. Requests marked `may_not_exist`
//! tolerate the window having vanished (X error code 3) when performed.

use vstd::prelude::*;
use crate::geometry::Dimensions;

verus! {

/// An X window identifier.
pub type Window = u32;

/// X protocol event mask bit: key presses.
pub const KEY_PRESS_MASK: u32 = 0x0000_0001;

/// X protocol event mask bit: button presses.
pub const BUTTON_PRESS_MASK: u32 = 0x0000_0004;

/// X protocol event mask bit: notifications about child windows.
pub const SUBSTRUCTURE_NOTIFY_MASK: u32 = 0x0008_0000;

/// X protocol event mask bit: redirection of child map/configure requests.
pub const SUBSTRUCTURE_REDIRECT_MASK: u32 = 0x0010_0000;

/// One X request, described as plain data. The caller that owns the X
/// connection performs these in order; a request whose `may_not_exist` is
/// true swallows X error code 3 (the window is already gone).
#[derive(Debug, Clone, PartialEq, Eq)]
pub enum XRequest {
    /// Change a window's border pixel color.
    SetBorderColor { window: Window, pixel: u32 },
    /// Configure a window's geometry and stacking; absent fields are left
    /// unchanged by the server.
    Configure {
        window: Window,
        x: Option<i32>,
        y: Option<i32>,
        width: Option<u32>,
        height: Option<u32>,
        border_width: Option<u32>,
        sibling: Option<Window>,
        stack_mode: Option<u8>,
        may_not_exist: bool,
    },
    /// Map a window.
    MapWindow { window: Window, may_not_exist: bool },
    /// Unmap a window.
    UnmapWindow { window: Window, may_not_exist: bool },
    /// Reparent `window` into `parent` at the given offset.
    Reparent { window: Window, parent: Window, x: i16, y: i16, may_not_exist: bool },
    /// Reparent `window` back under the root window at the origin.
    ReparentToRoot { window: Window, may_not_exist: bool },
    /// Insert `window` into the server save-set, or delete it from there.
    ChangeSaveSet { window: Window, insert: bool, may_not_exist: bool },
    /// Select the given event mask on the window.
    SetEventMask { window: Window, mask: u32 },
    /// Destroy a window.
    Destroy { window: Window },
    /// Give keyboard input focus to the window, or to none.
    SetInputFocus { window: Option<Window> },
    /// Send the client the WM_DELETE_WINDOW client message so it may close
    /// itself gracefully.
    SendDeleteMessage { window: Window },
    /// Close the framed client: the performer reads the client's
    /// WM_PROTOCOLS property and expands this with `kill_requests`.
    KillClient { frame: Window, win: Window },
}

/// A client window and the frame the manager wrapped it in.
#[derive(Debug, Clone, Copy, PartialEq, Eq, Structural)]
pub struct FramedWindow {
    pub frame: Window,
    pub win: Window,
}

/// The length left inside a frame once both border edges are taken out,
/// floored at zero.
pub open spec fn inner_len(l: u16, border: u16) -> u32 {
    if l as int >= 2 * border as int {
        (l as int - 2 * border as int) as u32
    } else {
        0
    }
}

impl FramedWindow {
    /// The requests that show a framed client at `dims`: recolor the frame
    /// after the focus, place the frame, place the client inside it. The
    /// client sits at (-1, -1) so the frame's own border is invisible to it.
    pub open spec fn spec_configure_requests(
        self,
        dims: Dimensions,
        focused: Option<Window>,
        border_size: u16,
        border_color: u32,
        focused_color: u32,
    ) -> Seq<XRequest> {
        seq![
            XRequest::SetBorderColor {
                window: self.frame,
                pixel: if focused == Some(self.win) {
                    focused_color
                } else {
                    border_color
                },
            },
            XRequest::Configure {
                window: self.frame,
                x: Some(dims.x as i32),
                y: Some(dims.y as i32),
                width: Some(inner_len(dims.width, border_size)),
                height: Some(inner_len(dims.height, border_size)),
                border_width: Some(border_size as u32),
                sibling: None,
                stack_mode: None,
                may_not_exist: false,
            },
            XRequest::Configure {
                window: self.win,
                x: Some(-1i32),
                y: Some(-1i32),
                width: Some(inner_len(dims.width, border_size)),
                height: Some(inner_len(dims.height, border_size)),
                border_width: None,
                sibling: None,
                stack_mode: None,
                may_not_exist: true,
            },
        ]
    }

    pub fn configure_requests(
        self,
        dims: Dimensions,
        focused: Option<Window>,
        border_size: u16,
        border_color: u32,
        focused_color: u32,
    ) -> (r: Vec<XRequest>)
        ensures
            r@ == self.spec_configure_requests(
                dims,
                focused,
                border_size,
                border_color,
                focused_color,
            ),
    {
        let inset: u32 = 2 * (border_size as u32);
        let w: u32 = if dims.width as u32 >= inset {
            dims.width as u32 - inset
        } else {
            0
        };
        let h: u32 = if dims.height as u32 >= inset {
            dims.height as u32 - inset
        } else {
            0
        };
        let is_focused = match focused {
            Some(f) => f == self.win,
            None => false,
        };
        let mut r: Vec<XRequest> = Vec::new();
        r.push(
            XRequest::SetBorderColor {
                window: self.frame,
                pixel: if is_focused {
                    focused_color
                } else {
                    border_color
                },
            },
        );
        r.push(
            XRequest::Configure {
                window: self.frame,
                x: Some(dims.x as i32),
                y: Some(dims.y as i32),
                width: Some(w),
                height: Some(h),
                border_width: Some(border_size as u32),
                sibling: None,
                stack_mode: None,
                may_not_exist: false,
            },
        );
        r.push(
            XRequest::Configure {
                window: self.win,
                x: Some(-1i32),
                y: Some(-1i32),
                width: Some(w),
                height: Some(h),
                border_width: None,
                sibling: None,
                stack_mode: None,
                may_not_exist: true,
            },
        );
        proof {
            assert(r@ =~= self.spec_configure_requests(
                dims,
                focused,
                border_size,
                border_color,
                focused_color,
            ));
        }
        r
    }

    /// Map the client, then its frame.
    pub open spec fn spec_map_requests(self) -> Seq<XRequest> {
        seq![
            XRequest::MapWindow { window: self.win, may_not_exist: true },
            XRequest::MapWindow { window: self.frame, may_not_exist: false },
        ]
    }

    pub fn map_requests(self) -> (r: Vec<XRequest>)
        ensures
            r@ == self.spec_map_requests(),
    {
        let mut r: Vec<XRequest> = Vec::new();
        r.push(XRequest::MapWindow { window: self.win, may_not_exist: true });
        r.push(XRequest::MapWindow { window: self.frame, may_not_exist: false });
        proof {
            assert(r@ =~= self.spec_map_requests());
        }
        r
    }

    /// Surrender the client: unmap frame and client, reparent the client
    /// back to the root, drop it from the save-set, destroy the frame.
    pub open spec fn spec_unframe_requests(self) -> Seq<XRequest> {
        seq![
            XRequest::UnmapWindow { window: self.frame, may_not_exist: false },
            XRequest::UnmapWindow { window: self.win, may_not_exist: true },
            XRequest::ReparentToRoot { window: self.win, may_not_exist: true },
            XRequest::ChangeSaveSet { window: self.win, insert: false, may_not_exist: true },
            XRequest::Destroy { window: self.frame },
        ]
    }

    pub fn unframe_requests(self) -> (r: Vec<XRequest>)
        ensures
            r@ == self.spec_unframe_requests(),
    {
        let mut r: Vec<XRequest> = Vec::new();
        r.push(XRequest::UnmapWindow { window: self.frame, may_not_exist: false });
        r.push(XRequest::UnmapWindow { window: self.win, may_not_exist: true });
        r.push(XRequest::ReparentToRoot { window: self.win, may_not_exist: true });
        r.push(XRequest::ChangeSaveSet { window: self.win, insert: false, may_not_exist: true });
        r.push(XRequest::Destroy { window: self.frame });
        proof {
            assert(r@ =~= self.spec_unframe_requests());
        }
        r
    }

    /// Close the client: a WM_DELETE_WINDOW message when it advertises the
    /// protocol, a destroy otherwise.
    pub open spec fn spec_kill_requests(self, supports_delete: bool) -> Seq<XRequest> {
        if supports_delete {
            seq![XRequest::SendDeleteMessage { window: self.win }]
        } else {
            seq![XRequest::Destroy { window: self.win }]
        }
    }

    pub fn kill_requests(self, supports_delete: bool) -> (r: Vec<XRequest>)
        ensures
            r@ == self.spec_kill_requests(supports_delete),
    {
        let mut r: Vec<XRequest> = Vec::new();
        if supports_delete {
            r.push(XRequest::SendDeleteMessage { window: self.win });
        } else {
            r.push(XRequest::Destroy { window: self.win });
        }
        proof {
            assert(r@ =~= self.spec_kill_requests(supports_delete));
        }
        r
    }
}

/// Parameters for creating a frame window: the client's geometry, the
/// configured border, background zero.
#[derive(Debug, Clone, Copy, PartialEq, Eq, Structural)]
pub struct FrameParams {
    pub x: i16,
    pub y: i16,
    pub width: u16,
    pub height: u16,
    pub border_width: u16,
    pub border_pixel: u32,
    pub background: u32,
}

/// The frame window is created as a sibling of the client with the client's
/// own geometry; the configured colors only become visible on configure.
pub fn frame_params(x: i16, y: i16, width: u16, height: u16, border_size: u16, border_color: u32)
    -> (r: FrameParams)
    ensures
        r == (FrameParams {
            x,
            y,
            width,
            height,
            border_width: border_size,
            border_pixel: border_color,
            background: 0u32,
        }),
{
    FrameParams { x, y, width, height, border_width: border_size, border_pixel: border_color, background: 0 }
}

/// Once the frame window exists, these requests wire it up: the frame
/// redirects its substructure, the client reports button presses, the
/// client joins the save-set and moves into the frame at the origin.
pub open spec fn spec_frame_setup_requests(win: Window, frame: Window) -> Seq<XRequest> {
    seq![
        XRequest::SetEventMask {
            window: frame,
            mask: SUBSTRUCTURE_REDIRECT_MASK | SUBSTRUCTURE_NOTIFY_MASK,
        },
        XRequest::SetEventMask { window: win, mask: BUTTON_PRESS_MASK },
        XRequest::ChangeSaveSet { window: win, insert: true, may_not_exist: true },
        XRequest::Reparent { window: win, parent: frame, x: 0i16, y: 0i16, may_not_exist: true },
    ]
}

pub fn frame_setup_requests(win: Window, frame: Window) -> (r: Vec<XRequest>)
    ensures
        r@ == spec_frame_setup_requests(win, frame),
{
    let mut r: Vec<XRequest> = Vec::new();
    r.push(
        XRequest::SetEventMask {
            window: frame,
            mask: SUBSTRUCTURE_REDIRECT_MASK | SUBSTRUCTURE_NOTIFY_MASK,
        },
    );
    r.push(XRequest::SetEventMask { window: win, mask: BUTTON_PRESS_MASK });
    r.push(XRequest::ChangeSaveSet { window: win, insert: true, may_not_exist: true });
    r.push(XRequest::Reparent { window: win, parent: frame, x: 0, y: 0, may_not_exist: true });
    proof {
        assert(r@ =~= spec_frame_setup_requests(win, frame));
    }
    r
}

/// The 32-bit atom that starts at entry `i` of a property value, read in
/// the connection's byte order (little-endian on this platform).
pub open spec fn spec_atom_at(b: Seq<u8>, i: int) -> u32 {
    (b[4 * i] as u32) | ((b[4 * i + 1] as u32) << 8) | ((b[4 * i + 2] as u32) << 16) | ((b[4 * i
        + 3] as u32) << 24)
}

/// Parse a property value holding a list of atoms, four bytes each;
/// trailing bytes that do not fill an atom are dropped.
pub fn parse_atom_list(b: &Vec<u8>) -> (r: Vec<u32>)
    ensures
        r@.len() == b@.len() / 4,
        forall|i: int| 0 <= i < r@.len() ==> r@[i] == spec_atom_at(b@, i),
{
    let n = b.len() / 4;
    proof {
        assert(4 * (b@.len() / 4) <= b@.len()) by (nonlinear_arith);
    }
    let mut r: Vec<u32> = Vec::new();
    let mut i: usize = 0;
    while i < n
        invariant
            n == b@.len() / 4,
            4 * n <= b@.len(),
            4 * n <= usize::MAX,
            0 <= i <= n,
            r@.len() == i,
            forall|j: int| 0 <= j < i ==> r@[j] == spec_atom_at(b@, j),
        decreases n - i,
    {
        let a0 = b[4 * i] as u32;
        let a1 = (b[4 * i + 1] as u32) << 8u32;
        let a2 = (b[4 * i + 2] as u32) << 16u32;
        let a3 = (b[4 * i + 3] as u32) << 24u32;
        r.push(a0 | a1 | a2 | a3);
        i = i + 1;
    }
    r
}

/// Whether the parsed WM_PROTOCOLS list names the given atom.
pub fn atoms_contain(atoms: &Vec<u32>, needle: u32) -> (r: bool)
    ensures
        r == atoms@.contains(needle),
{
    let mut i: usize = 0;
    while i < atoms.len()
        invariant
            0 <= i <= atoms@.len(),
            forall|j: int| 0 <= j < i ==> atoms@[j] != needle,
        decreases atoms@.len() - i,
    {
        if atoms[i] == needle {
            return true;
        }
        i = i + 1;
    }
    false
}

} // verus!
