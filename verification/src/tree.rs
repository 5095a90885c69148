//! The layout tree: a stable arena of nodes, each either a pane (ordered
//! children tiled along a direction) or a leaf (one framed client window),
//! with the client table, the focus, and the operations that insert,
//! remove, focus and retile clients. Every operation returns the X request
//! descriptions the caller must perform; nothing here does I/O.
//!
//! Arena slots are never reused: a removed node leaves `None` behind, so a
//! node's index is a stable handle for its whole lifetime.

use vstd::prelude::*;
use vstd::pervasive::VecAdditionalExecFns;
use vstd::pervasive::unreached;
use crate::config::XcrabConfig;
use crate::errors::XcrabError;
use crate::frame::{FramedWindow, Window, XRequest};
use crate::geometry::{dir2, lemma_split_tiles, run_length, run_start, split_slot, Dimensions, Direction, Directionality};

verus! {

/// A pane's body: ordered children, tiled along a direction.
#[derive(Debug)]
pub struct Pane {
    pub children: Vec<usize>,
    pub directionality: Directionality,
}

/// A leaf's body: one framed client.
#[derive(Debug, Clone, Copy)]
pub struct Client {
    pub frame: FramedWindow,
}

/// What a node holds.
#[derive(Debug)]
pub enum RectangleContents {
    Pane(Pane),
    Client(Client),
}

/// One node of the layout tree.
#[derive(Debug)]
pub struct Rectangle {
    pub parent: usize,
    pub cached_dimensions: Dimensions,
    pub contents: RectangleContents,
}

/// The whole manager state.
pub struct XcrabWindowManager {
    /// The node arena; a removed node leaves `None` behind.
    pub nodes: Vec<Option<Rectangle>>,
    /// Client windows, most recently focused first, each with its leaf.
    pub clients: Vec<(Window, usize)>,
    /// The client window that holds keyboard focus.
    pub focused: Option<Window>,
    /// The self-parented node all others descend from.
    pub root: Option<usize>,
    /// How many arena slots are live.
    pub live_count: usize,
    /// The configuration the manager was created with.
    pub config: XcrabConfig,
    /// The screen rectangle the root tile is laid into.
    pub screen: Dimensions,
    /// A topological order of the live nodes: the root first, every other
    /// node after its parent.
    pub ord: Ghost<Seq<usize>>,
}

/// The screen leaves room for the outer gap on every side.
pub open spec fn screen_ok(config: XcrabConfig, screen: Dimensions) -> bool {
    let og = config.spec_outer_gap_size() as int;
    &&& screen.x + og <= 0xFFFF
    &&& screen.y + og <= 0xFFFF
    &&& 2 * og <= screen.width
    &&& 2 * og <= screen.height
}

/// Whether the screen leaves room for the outer gap, decidable by a
/// caller before it builds a manager.
pub fn screen_fits(config: &XcrabConfig, screen: Dimensions) -> (r: bool)
    ensures
        r == screen_ok(*config, screen),
{
    let og = config.outer_gap_size();
    (screen.x as u32 + og as u32 <= 0xFFFF) && (screen.y as u32 + og as u32 <= 0xFFFF) && (2 * (
    og as u32) <= screen.width as u32) && (2 * (og as u32) <= screen.height as u32)
}

/// The rectangle the root tile is laid into: the screen shrunk by the
/// outer gap on all sides.
pub open spec fn spec_root_dims(config: XcrabConfig, screen: Dimensions) -> Dimensions {
    let og = config.spec_outer_gap_size() as int;
    Dimensions {
        x: (screen.x + og) as u16,
        y: (screen.y + og) as u16,
        width: (screen.width - 2 * og) as u16,
        height: (screen.height - 2 * og) as u16,
    }
}

/// Two nodes agree on everything but their cached geometry.
pub open spec fn same_node_structure(x: Rectangle, y: Rectangle) -> bool {
    &&& x.parent == y.parent
    &&& match (x.contents, y.contents) {
        (RectangleContents::Pane(p1), RectangleContents::Pane(p2)) => {
            p1.children@ == p2.children@ && p1.directionality == p2.directionality
        },
        (RectangleContents::Client(c1), RectangleContents::Client(c2)) => c1.frame == c2.frame,
        _ => false,
    }
}

impl XcrabWindowManager {
    /// The arena slot `k` holds a node.
    pub open spec fn live(&self, k: int) -> bool {
        0 <= k < self.nodes@.len() && self.nodes@[k] is Some
    }

    /// The node in slot `k`.
    pub open spec fn node(&self, k: int) -> Rectangle {
        match self.nodes@[k] {
            Some(r) => r,
            None => vstd::pervasive::arbitrary(),
        }
    }

    pub open spec fn parent_of(&self, k: int) -> int {
        self.node(k).parent as int
    }

    pub open spec fn dims_of(&self, k: int) -> Dimensions {
        self.node(k).cached_dimensions
    }

    pub open spec fn is_pane(&self, k: int) -> bool {
        self.node(k).contents is Pane
    }

    pub open spec fn children_of(&self, k: int) -> Seq<usize> {
        match self.node(k).contents {
            RectangleContents::Pane(p) => p.children@,
            RectangleContents::Client(_) => Seq::empty(),
        }
    }

    pub open spec fn dir_of(&self, k: int) -> Directionality {
        match self.node(k).contents {
            RectangleContents::Pane(p) => p.directionality,
            RectangleContents::Client(_) => Directionality::Horizontal,
        }
    }

    pub open spec fn frame_of(&self, k: int) -> FramedWindow {
        match self.node(k).contents {
            RectangleContents::Client(c) => c.frame,
            RectangleContents::Pane(_) => vstd::pervasive::arbitrary(),
        }
    }

    /// The window `win` is a managed client.
    pub open spec fn has_client_spec(&self, win: Window) -> bool {
        exists|i: int| 0 <= i < self.clients@.len() && self.clients@[i].0 == win
    }

    /// The leaf of the client `win`.
    pub open spec fn client_node(&self, win: Window) -> int {
        let i = choose|i: int| 0 <= i < self.clients@.len() && self.clients@[i].0 == win;
        self.clients@[i].1 as int
    }

    /// Position of `k` in the topological order.
    pub open spec fn rank(&self, k: int) -> int {
        self.ord@.index_of(k as usize)
    }

    /// The root exists exactly when the tree is inhabited, and is its own
    /// parent; nothing else is its own parent (that is in `wf_order`).
    pub open spec fn wf_root(&self) -> bool {
        match self.root {
            None => self.nodes@.len() == 0 || (forall|k: int| !(#[trigger] self.live(k))),
            Some(r) => self.live(r as int) && self.parent_of(r as int) == r as int,
        }
    }

    /// Parents are live panes holding their children, and the only
    /// self-parented node is the root.
    pub open spec fn wf_parents(&self) -> bool {
        forall|k: int| #[trigger]
            self.live(k) ==> {
                &&& self.live(self.parent_of(k))
                &&& (self.parent_of(k) == k <==> self.root == Some(k as usize))
                &&& (self.parent_of(k) != k ==> self.is_pane(self.parent_of(k))
                    && self.children_of(self.parent_of(k)).contains(k as usize))
            }
    }

    /// Children lists hold distinct live non-root nodes that point back to
    /// their pane.
    pub open spec fn wf_children(&self) -> bool {
        forall|k: int| #[trigger]
            self.live(k) && self.is_pane(k) ==> {
                &&& self.children_of(k).no_duplicates()
                &&& forall|j: int|
                    0 <= j < self.children_of(k).len() ==> {
                        &&& self.live(#[trigger] self.children_of(k)[j] as int)
                        &&& self.parent_of(self.children_of(k)[j] as int) == k
                        &&& Some(self.children_of(k)[j]) != self.root
                    }
            }
    }

    /// The client table: distinct windows, distinct leaves, each entry a
    /// live leaf holding its window; conversely every leaf is an entry.
    pub open spec fn wf_clients(&self) -> bool {
        &&& forall|i: int, j: int|
            0 <= i < self.clients@.len() && 0 <= j < self.clients@.len() && i != j ==> (
            #[trigger] self.clients@[i].0 != #[trigger] self.clients@[j].0 && self.clients@[i].1
                != self.clients@[j].1)
        &&& forall|i: int|
            0 <= i < self.clients@.len() ==> {
                &&& self.live(#[trigger] self.clients@[i].1 as int)
                &&& !self.is_pane(self.clients@[i].1 as int)
                &&& self.frame_of(self.clients@[i].1 as int).win == self.clients@[i].0
            }
        &&& forall|k: int| #[trigger]
            self.live(k) && !self.is_pane(k) ==> exists|i: int|
                0 <= i < self.clients@.len() && self.clients@[i] == (
                self.frame_of(k).win,
                k as usize,
            )
    }

    /// Focus follows the head of the client table.
    pub open spec fn wf_focus(&self) -> bool {
        self.focused == if self.clients@.len() == 0 {
            None
        } else {
            Some(self.clients@[0].0)
        }
    }

    /// The topological order: exactly the live nodes, no duplicates, the
    /// root first, every other node strictly after its parent.
    pub open spec fn wf_order(&self) -> bool {
        let ord = self.ord@;
        &&& ord.no_duplicates()
        &&& forall|j: int| 0 <= j < ord.len() ==> self.live(#[trigger] ord[j] as int)
        &&& forall|k: int| #[trigger] self.live(k) ==> ord.contains(k as usize)
        &&& (self.root matches Some(r) ==> ord.len() > 0 && ord[0] == r)
        &&& forall|j: int|
            1 <= j < ord.len() ==> {
                &&& self.parent_of(#[trigger] ord[j] as int) != ord[j] as int
                &&& exists|j2: int| 0 <= j2 < j && ord[j2] as int == self.parent_of(ord[j] as int)
            }
    }

    /// Size bookkeeping: the counter matches the order, with room kept
    /// below the 16-bit limit that splitting imposes, and the screen fits
    /// its outer gap.
    pub open spec fn wf_limits(&self) -> bool {
        &&& self.ord@.len() == self.live_count
        &&& self.live_count <= 0xFFFC
        &&& screen_ok(self.config, self.screen)
        &&& (self.clients@.len() == 0 ==> self.root is None)
        &&& (self.root matches Some(r) ==> self.dims_of(r as int) == spec_root_dims(
            self.config,
            self.screen,
        ))
    }

    /// The pane `k` is tiled: its children's rectangles are exactly the
    /// slots of its own rectangle split along its direction.
    pub open spec fn pane_tiled(&self, k: int) -> bool {
        self.is_pane(k) && self.children_of(k).len() > 0 ==> forall|j: int|
            0 <= j < self.children_of(k).len() ==> self.dims_of(
                #[trigger] self.children_of(k)[j] as int,
            ) == split_slot(
                self.dims_of(k),
                self.dir_of(k),
                self.children_of(k).len() as int,
                self.config.spec_gap_size() as int,
                j,
            )
    }

    /// Every pane is tiled except possibly `a` and `b`.
    pub open spec fn tiled_except2(&self, a: int, b: int) -> bool {
        forall|k: int| #[trigger] self.live(k) && k != a && k != b ==> self.pane_tiled(k)
    }

    /// Everything except geometry consistency.
    pub open spec fn wf_base(&self) -> bool {
        &&& self.wf_root()
        &&& self.wf_parents()
        &&& self.wf_children()
        &&& self.wf_clients()
        &&& self.wf_focus()
        &&& self.wf_order()
        &&& self.wf_limits()
    }

    /// The full invariant: every public operation preserves this.
    pub open spec fn wf(&self) -> bool {
        &&& self.wf_base()
        &&& forall|k: int| #[trigger] self.live(k) ==> self.pane_tiled(k)
    }

    /// The non-geometry, non-arena state `a` and `b` share.
    pub open spec fn same_surroundings(a: &Self, b: &Self) -> bool {
        &&& a.clients@ == b.clients@
        &&& a.focused == b.focused
        &&& a.root == b.root
        &&& a.live_count == b.live_count
        &&& a.config == b.config
        &&& a.screen == b.screen
        &&& a.ord == b.ord
    }

    /// `a` and `b` have the same arena shape; only cached geometry may
    /// differ.
    pub open spec fn same_structure(a: &Self, b: &Self) -> bool {
        &&& a.nodes@.len() == b.nodes@.len()
        &&& forall|k: int| 0 <= k < a.nodes@.len() ==> (#[trigger] a.live(k) <==> #[trigger] b.live(
            k,
        ))
        &&& forall|k: int|
            #![trigger a.node(k), b.node(k)]
            a.live(k) && b.live(k) ==> same_node_structure(a.node(k), b.node(k))
    }

    /// A fresh, empty manager.
    pub fn new(config: XcrabConfig, screen: Dimensions) -> (r: Self)
        requires
            screen_ok(config, screen),
        ensures
            r.wf(),
            r.clients@.len() == 0,
            r.focused is None,
            r.root is None,
            r.nodes@.len() == 0,
            r.config == config,
            r.screen == screen,
    {
        XcrabWindowManager {
            nodes: Vec::new(),
            clients: Vec::new(),
            focused: None,
            root: None,
            live_count: 0,
            config,
            screen,
            ord: Ghost(Seq::empty()),
        }
    }

    /// Whether `win` is a managed client window.
    pub fn has_client(&self, win: Window) -> (r: bool)
        ensures
            r == self.has_client_spec(win),
    {
        let mut i: usize = 0;
        while i < self.clients.len()
            invariant
                0 <= i <= self.clients@.len(),
                forall|j: int| 0 <= j < i ==> (#[trigger] self.clients@[j]).0 != win,
            decreases self.clients@.len() - i,
        {
            if self.clients[i].0 == win {
                return true;
            }
            i = i + 1;
        }
        false
    }

    /// The focused client window, if any.
    pub fn get_focused(&self) -> (r: Option<Window>)
        ensures
            r == self.focused,
    {
        self.focused
    }

    /// The slot of the client `win` in the client table.
    fn client_index(&self, win: Window) -> (r: Option<usize>)
        ensures
            match r {
                Some(i) => 0 <= i < self.clients@.len() && self.clients@[i as int].0 == win,
                None => !self.has_client_spec(win),
            },
    {
        let mut i: usize = 0;
        while i < self.clients.len()
            invariant
                0 <= i <= self.clients@.len(),
                forall|j: int| 0 <= j < i ==> (#[trigger] self.clients@[j]).0 != win,
            decreases self.clients@.len() - i,
        {
            if self.clients[i].0 == win {
                return Some(i);
            }
            i = i + 1;
        }
        None
    }

    /// The framed window of a managed client.
    pub fn get_framed_window(&self, window: Window) -> (r: FramedWindow)
        requires
            self.wf(),
            self.has_client_spec(window),
        ensures
            r.win == window,
            exists|k: int|
                self.live(k) && !self.is_pane(k) && #[trigger] self.frame_of(k) == r,
    {
        let i = match self.client_index(window) {
            Some(i) => i,
            None => unreached(),
        };
        let key = self.clients[i].1;
        let node = self.get_node(key);
        match &node.contents {
            RectangleContents::Client(c) => c.frame,
            RectangleContents::Pane(_) => unreached(),
        }
    }

    /// Tell X about the focused window.
    pub fn update_focused(&self) -> (r: Vec<XRequest>)
        ensures
            r@ == seq![XRequest::SetInputFocus { window: self.focused }],
    {
        let mut r: Vec<XRequest> = Vec::new();
        r.push(XRequest::SetInputFocus { window: self.focused });
        proof {
            assert(r@ =~= seq![XRequest::SetInputFocus { window: self.focused }]);
        }
        r
    }

    /// Borrow the node in a live slot.
    fn get_node(&self, key: usize) -> (r: &Rectangle)
        requires
            self.live(key as int),
        ensures
            *r == self.node(key as int),
    {
        match &self.nodes[key] {
            Some(r) => r,
            None => unreached(),
        }
    }

    /// Move the node out of a live slot, leaving it empty.
    fn take_node(&mut self, key: usize) -> (r: Rectangle)
        requires
            old(self).live(key as int),
        ensures
            r == old(self).node(key as int),
            final(self).nodes@ == old(self).nodes@.update(key as int, None),
            final(self).clients == old(self).clients,
            final(self).focused == old(self).focused,
            final(self).root == old(self).root,
            final(self).live_count == old(self).live_count,
            final(self).config == old(self).config,
            final(self).screen == old(self).screen,
            final(self).ord == old(self).ord,
    {
        let mut slot: Option<Rectangle> = None;
        self.nodes.set_and_swap(key, &mut slot);
        match slot {
            Some(r) => r,
            None => unreached(),
        }
    }

    /// Put a node back into a slot.
    fn put_node(&mut self, key: usize, r: Rectangle)
        requires
            key < old(self).nodes@.len(),
        ensures
            final(self).nodes@ == old(self).nodes@.update(key as int, Some(r)),
            final(self).clients == old(self).clients,
            final(self).focused == old(self).focused,
            final(self).root == old(self).root,
            final(self).live_count == old(self).live_count,
            final(self).config == old(self).config,
            final(self).screen == old(self).screen,
            final(self).ord == old(self).ord,
    {
        self.nodes.set(key, Some(r));
    }
}

impl XcrabWindowManager {
    /// Everything `wf_base` asks of the arena shape and the bookkeeping,
    /// without any condition on cached geometry.
    pub open spec fn wf_struct(&self) -> bool {
        &&& self.wf_root()
        &&& self.wf_parents()
        &&& self.wf_children()
        &&& self.wf_clients()
        &&& self.wf_focus()
        &&& self.wf_order()
        &&& self.ord@.len() == self.live_count
        &&& self.live_count <= 0xFFFC
        &&& screen_ok(self.config, self.screen)
        &&& (self.clients@.len() == 0 ==> self.root is None)
    }

    /// The root tile sits in the screen shrunk by the outer gap.
    pub open spec fn root_dims_ok(&self) -> bool {
        self.root matches Some(r) ==> self.dims_of(r as int) == spec_root_dims(
            self.config,
            self.screen,
        )
    }

    proof fn lemma_rank_props(&self, k: int)
        requires
            self.wf_order(),
            self.live(k),
        ensures
            0 <= self.rank(k) < self.ord@.len(),
            self.ord@[self.rank(k)] == k as usize,
    {
        assert(self.ord@.contains(k as usize));
        let i = choose|i: int| 0 <= i < self.ord@.len() && self.ord@[i] == k as usize;
        assert(self.ord@[i] == k as usize);
    }

    /// A pane's child sits strictly after the pane in the topological
    /// order.
    proof fn lemma_child_rank(&self, p: int, c: int)
        requires
            self.wf_struct(),
            self.live(p),
            self.live(c),
            self.parent_of(c) == p,
            self.root != Some(c as usize),
        ensures
            0 <= self.rank(p) < self.rank(c) < self.ord@.len(),
            self.ord@[self.rank(c)] == c as usize,
            self.ord@[self.rank(p)] == p as usize,
    {
        self.lemma_rank_props(p);
        self.lemma_rank_props(c);
        let jc = self.rank(c);
        let jp = self.rank(p);
        if jc == 0 {
            // then c would be the root
            assert(self.root matches Some(r) ==> self.ord@[0] == r);
            assert(false);
        }
        assert(self.parent_of(self.ord@[jc] as int) != self.ord@[jc] as int && exists|j2: int|
            0 <= j2 < jc && self.ord@[j2] as int == self.parent_of(self.ord@[jc] as int));
        let j2 = choose|j2: int|
            0 <= j2 < jc && self.ord@[j2] as int == self.parent_of(self.ord@[jc] as int);
        assert(self.ord@[j2] == p as usize);
        assert(jp == j2);
    }

    /// A pane has fewer children than there are live nodes.
    proof fn lemma_children_bound(&self, p: int)
        requires
            self.wf_struct(),
            self.live(p),
            self.is_pane(p),
        ensures
            self.children_of(p).len() < self.ord@.len(),
    {
        let ch = self.children_of(p);
        let ord = self.ord@;
        ch.unique_seq_to_set();
        ord.unique_seq_to_set();
        let r = self.root->0;
        assert(self.live(r as int));
        assert(ord.contains(r));
        let big = ord.to_set().remove(r);
        assert forall|x: usize| ch.to_set().contains(x) implies big.contains(x) by {
            assert(ch.contains(x));
            let j = choose|j: int| 0 <= j < ch.len() && ch[j] == x;
            assert(self.live(ch[j] as int));
            assert(Some(ch[j]) != self.root);
            assert(ord.contains(x));
        }
        assert(ch.to_set() <= big);
        vstd::set_lib::lemma_len_subset(ch.to_set(), big);
        assert(big.len() == ord.to_set().len() - 1);
    }

    /// The shape-only invariant moves between states with the same shape.
    proof fn lemma_wf_struct_transfer(a: &Self, b: &Self)
        requires
            a.wf_struct(),
            Self::same_structure(a, b),
            Self::same_surroundings(a, b),
        ensures
            b.wf_struct(),
    {
        assert forall|k: int| #[trigger] b.live(k) implies a.live(k) && b.parent_of(k)
            == a.parent_of(k) && (b.is_pane(k) <==> a.is_pane(k)) && b.children_of(k)
            == a.children_of(k) && b.dir_of(k) == a.dir_of(k) && (!a.is_pane(k) ==> b.frame_of(k)
            == a.frame_of(k)) by {
            assert(same_node_structure(a.node(k), b.node(k)));
        }
        assert forall|k: int| #[trigger] a.live(k) implies b.live(k) by {}
        assert(b.wf_root());
        assert forall|k: int| #[trigger] b.live(k) implies {
            &&& b.live(b.parent_of(k))
            &&& (b.parent_of(k) == k <==> b.root == Some(k as usize))
            &&& (b.parent_of(k) != k ==> b.is_pane(b.parent_of(k)) && b.children_of(
                b.parent_of(k),
            ).contains(k as usize))
        } by {
            assert(a.live(k));
            assert(same_node_structure(a.node(k), b.node(k)));
            assert(a.live(a.parent_of(k)));
            assert(same_node_structure(a.node(a.parent_of(k)), b.node(a.parent_of(k))));
        }
        assert(b.wf_parents());
        assert forall|k: int| #[trigger] b.live(k) && b.is_pane(k) implies {
            &&& b.children_of(k).no_duplicates()
            &&& forall|j: int|
                0 <= j < b.children_of(k).len() ==> {
                    &&& b.live(#[trigger] b.children_of(k)[j] as int)
                    &&& b.parent_of(b.children_of(k)[j] as int) == k
                    &&& Some(b.children_of(k)[j]) != b.root
                }
        } by {
            assert(a.live(k) && a.is_pane(k));
            assert(b.children_of(k) == a.children_of(k));
            assert forall|j: int| 0 <= j < b.children_of(k).len() implies {
                &&& b.live(#[trigger] b.children_of(k)[j] as int)
                &&& b.parent_of(b.children_of(k)[j] as int) == k
                &&& Some(b.children_of(k)[j]) != b.root
            } by {
                assert(a.children_of(k)[j] == b.children_of(k)[j]);
                let c = a.children_of(k)[j];
                assert(a.live(c as int) && a.parent_of(c as int) == k && Some(c) != a.root);
                assert(same_node_structure(a.node(c as int), b.node(c as int)));
            }
        }
        assert(b.wf_children());
        assert forall|i: int| 0 <= i < b.clients@.len() implies {
            &&& b.live(#[trigger] b.clients@[i].1 as int)
            &&& !b.is_pane(b.clients@[i].1 as int)
            &&& b.frame_of(b.clients@[i].1 as int).win == b.clients@[i].0
        } by {
            assert(a.clients@[i] == b.clients@[i]);
            let k = a.clients@[i].1 as int;
            assert(a.live(k) && !a.is_pane(k) && a.frame_of(k).win == a.clients@[i].0);
            assert(same_node_structure(a.node(k), b.node(k)));
        }
        assert forall|k: int| #[trigger] b.live(k) && !b.is_pane(k) implies exists|i: int|
            0 <= i < b.clients@.len() && b.clients@[i] == (b.frame_of(k).win, k as usize) by {
            assert(a.live(k) && !a.is_pane(k));
            let i = choose|i: int|
                0 <= i < a.clients@.len() && a.clients@[i] == (a.frame_of(k).win, k as usize);
            assert(b.clients@[i] == (b.frame_of(k).win, k as usize));
        }
        assert(b.wf_clients());
        assert forall|j: int| 0 <= j < b.ord@.len() implies b.live(#[trigger] b.ord@[j] as int) by {
            assert(a.live(a.ord@[j] as int));
        }
        assert forall|j: int| 1 <= j < b.ord@.len() implies {
            &&& b.parent_of(#[trigger] b.ord@[j] as int) != b.ord@[j] as int
            &&& exists|j2: int| 0 <= j2 < j && b.ord@[j2] as int == b.parent_of(b.ord@[j] as int)
        } by {
            assert(a.live(a.ord@[j] as int));
            assert(same_node_structure(a.node(a.ord@[j] as int), b.node(a.ord@[j] as int)));
            let j2 = choose|j2: int|
                0 <= j2 < j && a.ord@[j2] as int == a.parent_of(a.ord@[j] as int);
            assert(b.ord@[j2] as int == b.parent_of(b.ord@[j] as int));
        }
        assert(b.wf_order());
    }
}

impl XcrabWindowManager {
    /// `same_structure` chains.
    proof fn lemma_same_structure_trans(a: &Self, b: &Self, c: &Self)
        requires
            Self::same_structure(a, b),
            Self::same_structure(b, c),
        ensures
            Self::same_structure(a, c),
    {
        assert(a.nodes@.len() == c.nodes@.len());
        assert forall|k: int| 0 <= k < a.nodes@.len() implies (#[trigger] a.live(k)
            <==> #[trigger] c.live(k)) by {
            assert(a.live(k) <==> b.live(k));
            assert(b.live(k) <==> c.live(k));
        }
        assert forall|k: int|
            #![trigger a.node(k), c.node(k)]
            a.live(k) && c.live(k) implies same_node_structure(a.node(k), c.node(k)) by {
            assert(b.live(k));
            assert(same_node_structure(a.node(k), b.node(k)));
            assert(same_node_structure(b.node(k), c.node(k)));
        }
    }

    /// Retile the subtree at `key`: write `dimensions` (or keep the cached
    /// rectangle) into `key`, hand every pane's children their split slots
    /// recursively, and emit the configure requests of every leaf reached.
    /// `excepted` names the panes a caller is itself midway through
    /// retiling; they are left untiled. The ghost result names the nodes
    /// whose geometry may have changed: all live, none ranked above `key`,
    /// each chained to `key` by parents, so everything outside keeps its
    /// geometry.
    fn update_rectangle(
        &mut self,
        key: usize,
        dimensions: Option<Dimensions>,
        excepted: Ghost<Set<int>>,
    ) -> (out: Ghost<Set<int>>)
        requires
            old(self).wf_struct(),
            old(self).root_dims_ok(),
            old(self).live(key as int),
            forall|k: int|
                old(self).live(k) && !excepted@.contains(k) && k != key ==> old(self).pane_tiled(
                    k,
                ),
            dimensions is Some ==> old(self).root != Some(key) && excepted@.contains(
                old(self).parent_of(key as int),
            ),
        ensures
            final(self).wf_struct(),
            final(self).root_dims_ok(),
            Self::same_structure(old(self), final(self)),
            Self::same_surroundings(old(self), final(self)),
            final(self).dims_of(key as int) == (match dimensions {
                Some(d) => d,
                None => old(self).dims_of(key as int),
            }),
            forall|k: int|
                final(self).live(k) && !excepted@.contains(k) ==> final(self).pane_tiled(k),
            out@.contains(key as int),
            forall|k: int| #[trigger]
                out@.contains(k) ==> final(self).live(k) && final(self).rank(k)
                    >= final(self).rank(key as int),
            forall|k: int| #[trigger]
                out@.contains(k) && k != key as int ==> out@.contains(
                    final(self).parent_of(k),
                ) && final(self).parent_of(k) != k,
            forall|k: int|
                final(self).live(k) && !out@.contains(k) ==> final(self).dims_of(k)
                    == old(self).dims_of(k),
        decreases old(self).ord@.len() - old(self).ord@.index_of(key),
    {
        proof {
            self.lemma_rank_props(key as int);
        }
        let ghost orig = *self;
        let mut rect = self.take_node(key);
        let dims = match dimensions {
            Some(d) => d,
            None => rect.cached_dimensions,
        };
        rect.cached_dimensions = dims;
        let mut is_leaf = false;
        let mut children: Vec<usize> = Vec::new();
        let mut dir = Directionality::Horizontal;
        match &rect.contents {
            RectangleContents::Pane(p) => {
                children = copy_children(&p.children);
                dir = p.directionality;
            },
            RectangleContents::Client(_) => {
                is_leaf = true;
            },
        }
        self.put_node(key, rect);
        proof {
            assert forall|k: int| 0 <= k < self.nodes@.len() implies (orig.live(k) <==> self.live(
                k,
            )) by {}
            assert(same_node_structure(orig.node(key as int), self.node(key as int)));
            assert(Self::same_structure(&orig, self));
            assert(Self::same_surroundings(&orig, self));
            Self::lemma_wf_struct_transfer(&orig, self);
            assert(self.root_dims_ok());
            // panes other than `key` and the excepted stay tiled: their own
            // rectangle is unchanged, and a changed child must be `key`,
            // whose parent is then excepted
            assert forall|k: int|
                self.live(k) && !excepted@.contains(k) && k != key as int implies self.pane_tiled(
                    k,
                ) by {
                assert(orig.pane_tiled(k));
                assert(self.children_of(k) == orig.children_of(k));
                if self.is_pane(k) && self.children_of(k).len() > 0 {
                    assert forall|j: int| 0 <= j < self.children_of(k).len() implies self.dims_of(
                        #[trigger] self.children_of(k)[j] as int,
                    ) == orig.dims_of(self.children_of(k)[j] as int) by {
                        let c = self.children_of(k)[j];
                        assert(orig.live(c as int) && orig.parent_of(c as int) == k);
                        if c as int == key as int {
                            assert(orig.parent_of(key as int) == k);
                            assert(dimensions is None);
                        }
                    }
                }
            }
        }
        let ghost mut touched: Set<int> = Set::empty().insert(key as int);
        if !is_leaf {
            if children.len() > 0 {
                proof {
                    self.lemma_children_bound(key as int);
                }
                let gap = self.config.gap_size();
                let slots = dims.split(dir, children.len(), gap);
                let ghost entry = *self;
                let mut j: usize = 0;
                while j < children.len()
                    invariant
                        orig == *old(self),
                        self.wf_struct(),
                        self.root_dims_ok(),
                        Self::same_structure(&orig, self),
                        Self::same_surroundings(&orig, self),
                        0 <= j <= children@.len(),
                        self.live(key as int),
                        self.is_pane(key as int),
                        self.children_of(key as int) == children@,
                        self.dims_of(key as int) == dims,
                        self.dir_of(key as int) == dir,
                        gap == self.config.spec_gap_size(),
                        self.root != Some(key) ==> excepted@.contains(
                            self.parent_of(key as int),
                        ) || dimensions is None,
                        slots@.len() == children@.len(),
                        1 <= children@.len() <= 0xFFFF,
                        forall|i: int|
                            0 <= i < children@.len() ==> slots@[i] == split_slot(
                                dims,
                                dir,
                                children@.len() as int,
                                gap as int,
                                i,
                            ),
                        forall|j2: int|
                            0 <= j2 < j ==> self.dims_of(#[trigger] children@[j2] as int)
                                == slots@[j2],
                        forall|k: int|
                            self.live(k) && !excepted@.contains(k) && k != key as int
                                ==> self.pane_tiled(k),
                        touched.contains(key as int),
                        forall|k: int| #[trigger]
                            touched.contains(k) ==> self.live(k) && self.rank(k) >= self.rank(
                                key as int,
                            ),
                        forall|k: int| #[trigger]
                            touched.contains(k) && k != key as int ==> touched.contains(
                                self.parent_of(k),
                            ) && self.parent_of(k) != k,
                        forall|k: int|
                            self.live(k) && !touched.contains(k) ==> self.dims_of(k)
                                == orig.dims_of(k),
                    decreases children@.len() - j,
                {
                    let ghost prev = *self;
                    let c = children[j];
                    proof {
                        assert(self.children_of(key as int)[j as int] == c);
                        assert(self.live(c as int) && self.parent_of(c as int) == key as int
                            && Some(c) != self.root);
                        self.lemma_child_rank(key as int, c as int);
                        assert(self.ord@ == orig.ord@);
                    }
                    let sub_touched = self.update_rectangle(
                        c,
                        Some(slots[j]),
                        Ghost(excepted@.insert(key as int)),
                    );
                    proof {
                        Self::lemma_same_structure_trans(&orig, &prev, self);
                        // the key itself was not touched: everything touched
                        // ranks at or below the child
                        prev.lemma_child_rank(key as int, c as int);
                        assert(self.rank(key as int) < self.rank(c as int));
                        assert(!sub_touched@.contains(key as int));
                        // already-placed children were not touched either:
                        // a touched node other than `c` has a touched parent
                        assert forall|j2: int| 0 <= j2 < j implies self.dims_of(
                            #[trigger] children@[j2] as int,
                        ) == slots@[j2] by {
                            let cj = children@[j2];
                            assert(self.children_of(key as int).no_duplicates());
                            assert(cj != c);
                            if sub_touched@.contains(cj as int) {
                                assert(sub_touched@.contains(self.parent_of(cj as int)));
                                assert(self.parent_of(cj as int) == key as int);
                                assert(false);
                            }
                            assert(prev.dims_of(cj as int) == slots@[j2]);
                        }
                        touched = touched.union(sub_touched@);
                        assert forall|k: int| #[trigger]
                            touched.contains(k) && k != key as int implies touched.contains(
                            self.parent_of(k),
                        ) && self.parent_of(k) != k by {
                            if sub_touched@.contains(k) {
                                if k == c as int {
                                    assert(self.parent_of(c as int) == key as int);
                                } else {
                                    assert(sub_touched@.contains(self.parent_of(k)));
                                }
                            } else {
                                assert(prev.parent_of(k) == self.parent_of(k));
                            }
                        }
                        assert forall|k: int|
                            self.live(k) && !touched.contains(k) implies self.dims_of(k)
                            == orig.dims_of(k) by {
                            assert(prev.dims_of(k) == orig.dims_of(k));
                        }
                        assert forall|k: int|
                            self.live(k) && !excepted@.contains(k) && k != key as int
                            implies self.pane_tiled(k) by {
                            assert(!excepted@.insert(key as int).contains(k));
                        }
                    }
                    j = j + 1;
                }
                proof {
                    assert(self.pane_tiled(key as int));
                    assert forall|k: int|
                        self.live(k) && !excepted@.contains(k) implies self.pane_tiled(k) by {}
                }
            }
        }
        proof {
            assert forall|k: int|
                self.live(k) && !excepted@.contains(k) implies self.pane_tiled(k) by {
                if k == key as int {
                    assert(self.pane_tiled(k));
                }
            }
        }
        Ghost(touched)
    }
}

/// `inner` lies within `outer`.
pub open spec fn contained_in(inner: Dimensions, outer: Dimensions) -> bool {
    &&& outer.x <= inner.x
    &&& inner.x + inner.width <= outer.x + outer.width
    &&& outer.y <= inner.y
    &&& inner.y + inner.height <= outer.y + outer.height
}

impl XcrabWindowManager {
    /// No pane is too small for its gaps, and none reaches the coordinate
    /// limit: under these bounds the splitting never saturates. A pane
    /// that fails them is laid out with clamped coordinates instead (the
    /// splitting itself never wraps), and the tiling facts below do not
    /// apply to it.
    pub open spec fn healthy(&self) -> bool {
        forall|k: int| #[trigger]
            self.live(k) && self.is_pane(k) && self.children_of(k).len() > 0 ==> {
                &&& self.config.spec_gap_size() * (self.children_of(k).len() - 1) <= run_length(
                    self.dims_of(k),
                    self.dir_of(k),
                )
                &&& run_start(self.dims_of(k), self.dir_of(k)) + run_length(
                    self.dims_of(k),
                    self.dir_of(k),
                ) <= 0xFFFF
            }
    }

    /// A healthy pane's child lies within the pane.
    proof fn lemma_child_contained(s: &Self, p: int, j: int)
        requires
            s.wf(),
            s.healthy(),
            s.live(p),
            s.is_pane(p),
            0 <= j < s.children_of(p).len(),
        ensures
            contained_in(s.dims_of(s.children_of(p)[j] as int), s.dims_of(p)),
    {
        let d = s.dims_of(p);
        let dir = s.dir_of(p);
        let n = s.children_of(p).len() as int;
        let gap = s.config.spec_gap_size() as int;
        s.lemma_children_bound(p);
        lemma_split_tiles(d, dir, n, gap);
        assert(s.pane_tiled(p));
        let c = s.children_of(p)[j];
        assert(s.dims_of(c as int) == split_slot(d, dir, n, gap, j));
        let slot = split_slot(d, dir, n, gap, j);
        assert(run_start(d, dir) <= run_start(slot, dir) && run_start(slot, dir) + run_length(
            slot,
            dir,
        ) <= run_start(d, dir) + run_length(d, dir));
        assert(run_start(slot, dir2(dir)) == run_start(d, dir2(dir)) && run_length(
            slot,
            dir2(dir),
        ) == run_length(d, dir2(dir)));
        assert(contained_in(slot, d));
    }

    /// Every live node's rectangle lies within the root's, as long as
    /// every pane is healthy.
    pub proof fn lemma_within_root(s: &Self, k: int)
        requires
            s.wf(),
            s.healthy(),
            s.live(k),
            s.nodes@.len() <= usize::MAX,
        ensures
            s.root matches Some(rt) && contained_in(s.dims_of(k), s.dims_of(rt as int)),
        decreases s.rank(k),
    {
        s.lemma_rank_props(k);
        if s.root == Some(k as usize) {
        } else {
            let p = s.parent_of(k);
            assert(p != k);
            assert(s.children_of(p).contains(k as usize));
            let j = choose|j: int| 0 <= j < s.children_of(p).len() && s.children_of(p)[j] == k as usize;
            assert(s.children_of(p)[j] as int == k);
            Self::lemma_child_contained(s, p, j);
            assert(contained_in(s.dims_of(k), s.dims_of(p)));
            s.lemma_child_rank(p, k);
            Self::lemma_within_root(s, p);
            let rt = (s.root)->0;
            assert(contained_in(s.dims_of(p), s.dims_of(rt as int)));
            assert(contained_in(s.dims_of(k), s.dims_of(rt as int)));
        }
    }

    /// Two distinct children of a healthy pane are disjoint: along the
    /// split axis the earlier one ends at least one gap before the later
    /// one begins.
    pub proof fn lemma_siblings_disjoint(s: &Self, p: int, a: int, b: int)
        requires
            s.wf(),
            s.healthy(),
            s.live(p),
            s.is_pane(p),
            0 <= a < b < s.children_of(p).len(),
        ensures
            run_start(s.dims_of(s.children_of(p)[a] as int), s.dir_of(p)) + run_length(
                s.dims_of(s.children_of(p)[a] as int),
                s.dir_of(p),
            ) + s.config.spec_gap_size() <= run_start(
                s.dims_of(s.children_of(p)[b] as int),
                s.dir_of(p),
            ),
        decreases b - a,
    {
        let d = s.dims_of(p);
        let dir = s.dir_of(p);
        let n = s.children_of(p).len() as int;
        let gap = s.config.spec_gap_size() as int;
        s.lemma_children_bound(p);
        lemma_split_tiles(d, dir, n, gap);
        assert(s.pane_tiled(p));
        assert(s.dims_of(s.children_of(p)[b] as int) == split_slot(d, dir, n, gap, b));
        assert(s.dims_of(s.children_of(p)[b - 1] as int) == split_slot(d, dir, n, gap, b - 1));
        assert(s.dims_of(s.children_of(p)[a] as int) == split_slot(d, dir, n, gap, a));
        if b == a + 1 {
            assert(run_start(split_slot(d, dir, n, gap, b), dir) == run_start(
                split_slot(d, dir, n, gap, a),
                dir,
            ) + run_length(split_slot(d, dir, n, gap, a), dir) + gap);
        } else {
            Self::lemma_siblings_disjoint(s, p, a, b - 1);
            assert(run_start(split_slot(d, dir, n, gap, b), dir) == run_start(
                split_slot(d, dir, n, gap, b - 1),
                dir,
            ) + run_length(split_slot(d, dir, n, gap, b - 1), dir) + gap);
            assert(run_start(d, dir) <= run_start(split_slot(d, dir, n, gap, b - 1), dir)
                && run_start(split_slot(d, dir, n, gap, b - 1), dir) + run_length(
                split_slot(d, dir, n, gap, b - 1),
                dir,
            ) <= run_start(d, dir) + run_length(d, dir));
        }
    }
}

impl XcrabWindowManager {
    /// The configure requests the subtree at `k` emits when it is retiled:
    /// a leaf emits its own configure triple, a pane the concatenation of
    /// its children's, left to right.
    pub open spec fn subtree_reqs(&self, k: int) -> Seq<XRequest>
        decreases self.ord@.len() - self.rank(k), 1int, 0int
            when self.wf_struct() && self.live(k)
            via Self::subtree_reqs_decreases
    {
        match self.node(k).contents {
            RectangleContents::Client(c) => c.frame.spec_configure_requests(
                self.dims_of(k),
                self.focused,
                self.config.spec_border_size(),
                self.config.spec_border_color(),
                self.config.spec_focused_color(),
            ),
            RectangleContents::Pane(p) => self.children_reqs(k, p.children@.len() as int),
        }
    }

    /// The requests of the first `j` children of the pane `k`.
    pub open spec fn children_reqs(&self, k: int, j: int) -> Seq<XRequest>
        decreases self.ord@.len() - self.rank(k), 0int, j
            when self.wf_struct() && self.live(k) && self.is_pane(k) && 0 <= j
                <= self.children_of(k).len()
            via Self::children_reqs_decreases
    {
        if j <= 0 {
            Seq::empty()
        } else {
            self.children_reqs(k, j - 1) + self.subtree_reqs(self.children_of(k)[j - 1] as int)
        }
    }

    #[via_fn]
    proof fn subtree_reqs_decreases(&self, k: int) {
        self.lemma_rank_props(k);
    }

    #[via_fn]
    proof fn children_reqs_decreases(&self, k: int, j: int) {
        self.lemma_rank_props(k);
        if j > 0 {
            let c = self.children_of(k)[j - 1];
            assert(self.live(c as int) && self.parent_of(c as int) == k && Some(c) != self.root);
            self.lemma_child_rank(k, c as int);
        }
    }

    /// Walk the subtree at `key` and emit, for every leaf in order, the
    /// configure triple that places it at its cached rectangle.
    fn collect_config_requests(&self, key: usize) -> (r: Vec<XRequest>)
        requires
            self.wf_struct(),
            self.live(key as int),
        ensures
            r@ == self.subtree_reqs(key as int),
        decreases self.ord@.len() - self.ord@.index_of(key),
    {
        proof {
            self.lemma_rank_props(key as int);
        }
        let node = self.get_node(key);
        match &node.contents {
            RectangleContents::Client(c) => {
                let r = c.frame.configure_requests(
                    node.cached_dimensions,
                    self.focused,
                    self.config.border_size(),
                    self.config.border_color(),
                    self.config.focused_color(),
                );
                r
            },
            RectangleContents::Pane(p) => {
                let mut r: Vec<XRequest> = Vec::new();
                let mut j: usize = 0;
                while j < p.children.len()
                    invariant
                        self.wf_struct(),
                        self.live(key as int),
                        self.is_pane(key as int),
                        p.children@ == self.children_of(key as int),
                        0 <= j <= p.children@.len(),
                        r@ == self.children_reqs(key as int, j as int),
                    decreases p.children@.len() - j,
                {
                    let c = p.children[j];
                    proof {
                        assert(self.children_of(key as int)[j as int] == c);
                        assert(self.live(c as int) && self.parent_of(c as int) == key as int
                            && Some(c) != self.root);
                        self.lemma_child_rank(key as int, c as int);
                    }
                    let mut sub = self.collect_config_requests(c);
                    r.append(&mut sub);
                    j = j + 1;
                }
                proof {
                    assert(r@ == self.subtree_reqs(key as int));
                }
                r
            },
        }
    }
}

impl XcrabWindowManager {
    /// What `insert_pane_above` does: a fresh pane with `dir` takes the
    /// place of `pivot`, which becomes its only child; when `pivot` was the
    /// root, the pane is the new root. The pane inherits `pivot`'s
    /// rectangle, so every tiling stays intact.
    pub open spec fn pane_above_rel(
        s0: Self,
        s1: Self,
        pivot: int,
        dir: Directionality,
        pane: int,
    ) -> bool {
        &&& pane == s0.nodes@.len()
        &&& s1.nodes@.len() == s0.nodes@.len() + 1
        &&& (forall|k: int| 0 <= k < s0.nodes@.len() ==> (s0.live(k) <==> s1.live(k)))
        &&& s1.live(pane)
        &&& (forall|k: int|
            s0.live(k) && k != pivot && k != s0.parent_of(pivot) ==> s1.node(k) == s0.node(k))
        &&& s1.parent_of(pivot) == pane
        &&& (s1.is_pane(pivot) <==> s0.is_pane(pivot))
        &&& s1.children_of(pivot) == s0.children_of(pivot)
        &&& s1.dir_of(pivot) == s0.dir_of(pivot)
        &&& (!s0.is_pane(pivot) ==> s1.frame_of(pivot) == s0.frame_of(pivot))
        &&& s1.dims_of(pivot) == s0.dims_of(pivot)
        &&& s1.is_pane(pane)
        &&& s1.dir_of(pane) == dir
        &&& s1.children_of(pane) == seq![pivot as usize]
        &&& s1.dims_of(pane) == s0.dims_of(pivot)
        &&& (if s0.root == Some(pivot as usize) {
            s1.parent_of(pane) == pane && s1.root == Some(pane as usize)
        } else {
            let op = s0.parent_of(pivot);
            &&& s1.parent_of(pane) == op
            &&& s1.root == s0.root
            &&& s1.children_of(op) == s0.children_of(op).update(
                s0.children_of(op).index_of(pivot as usize),
                pane as usize,
            )
            &&& s1.parent_of(op) == s0.parent_of(op)
            &&& s1.dims_of(op) == s0.dims_of(op)
            &&& s1.is_pane(op)
            &&& s1.dir_of(op) == s0.dir_of(op)
        })
        &&& s1.clients == s0.clients
        &&& s1.focused == s0.focused
        &&& s1.config == s0.config
        &&& s1.screen == s0.screen
        &&& s1.live_count == s0.live_count + 1
    }

    /// A rectangle split into one slot is handed back whole.
    proof fn lemma_split_single(d: Dimensions, dir: Directionality, gap: int)
        requires
            0 <= gap,
        ensures
            split_slot(d, dir, 1, gap, 0) == d,
    {
        reveal(split_slot);
        assert(gap * 0 == 0);
        let total = crate::geometry::run_length(d, dir);
        assert(total / 1 == total && total % 1 == 0) by (nonlinear_arith);
        assert(0 * (total + gap) == 0) by (nonlinear_arith);
    }

    /// Wrapping a node in a fresh single-child pane keeps the invariant.
    #[verifier::rlimit(100)]
    #[verifier::spinoff_prover]
    proof fn lemma_pane_above_wf(s0: &Self, s1: &Self, pivot: int, dir: Directionality, pane: int)
        requires
            s0.wf(),
            s0.live(pivot),
            s0.live_count <= 0xFFFB,
            Self::pane_above_rel(*s0, *s1, pivot, dir, pane),
            s1.ord@ == s0.ord@.insert(s0.rank(pivot), pane as usize),
        ensures
            s1.wf(),
    {
        let op = s0.parent_of(pivot);
        let r0 = s0.rank(pivot);
        s0.lemma_rank_props(pivot);
        s0.ord@.insert_ensures(r0, pane as usize);
        let ord0 = s0.ord@;
        let ord1 = s1.ord@;
        let was_root = s0.root == Some(pivot as usize);
        assert(s0.root matches Some(rr) && s0.live(rr as int));
        if !was_root {
            assert(r0 >= 1) by {
                if r0 == 0 {
                    assert(ord0[0] == s0.root->0);
                }
            }
            assert(s0.children_of(op).contains(pivot as usize));
            let cidx = s0.children_of(op).index_of(pivot as usize);
            assert(0 <= cidx < s0.children_of(op).len() && s0.children_of(op)[cidx]
                == pivot as usize);
            s0.lemma_child_rank(op, pivot);
        }
        // fresh nodes are not referenced anywhere in s0
        assert forall|k: int| s0.live(k) implies k != pane && s0.parent_of(k) != pane by {}
        assert(!ord0.contains(pane as usize)) by {
            if ord0.contains(pane as usize) {
                let j = choose|j: int| 0 <= j < ord0.len() && ord0[j] == pane as usize;
                assert(s0.live(ord0[j] as int));
            }
        }
        // the new order: no duplicates, exactly the live nodes
        assert(ord1.no_duplicates()) by {
            assert forall|i: int, j: int| 0 <= i < ord1.len() && 0 <= j < ord1.len() && i != j
                implies ord1[i] != ord1[j] by {
                let oi: int = if i < r0 {
                    i
                } else {
                    i - 1
                };
                let oj: int = if j < r0 {
                    j
                } else {
                    j - 1
                };
                if i == r0 {
                    assert(ord1[i] == pane as usize);
                    assert(ord0.contains(ord1[j]) || j == r0);
                } else if j == r0 {
                    assert(ord1[j] == pane as usize);
                    assert(ord0.contains(ord1[i]));
                } else {
                    assert(ord1[i] == ord0[oi] && ord1[j] == ord0[oj] && oi != oj);
                }
            }
        }
        assert forall|j: int| 0 <= j < ord1.len() implies s1.live(#[trigger] ord1[j] as int) by {
            if j != r0 {
                let oj: int = if j < r0 {
                    j
                } else {
                    j - 1
                };
                assert(ord1[j] == ord0[oj]);
                assert(s0.live(ord0[oj] as int));
            }
        }
        assert forall|k: int| #[trigger] s1.live(k) implies ord1.contains(k as usize) by {
            if k == pane {
                assert(ord1[r0] == pane as usize);
            } else {
                assert(s0.live(k));
                assert(ord0.contains(k as usize));
                let j = choose|j: int| 0 <= j < ord0.len() && ord0[j] == k as usize;
                if j < r0 {
                    assert(ord1[j] == k as usize);
                } else {
                    assert(ord1[j + 1] == k as usize);
                }
            }
        }
        // parents appear before their nodes in the new order
        assert forall|j: int| 1 <= j < ord1.len() implies {
            &&& s1.parent_of(#[trigger] ord1[j] as int) != ord1[j] as int
            &&& exists|j2: int| 0 <= j2 < j && ord1[j2] as int == s1.parent_of(ord1[j] as int)
        } by {
            if j == r0 {
                // the new pane; it is not the root here since j >= 1
                assert(ord1[j] == pane as usize);
                assert(r0 >= 1);
                assert(!was_root) by {
                    if was_root {
                        assert(ord0[0] == pivot as usize);
                    }
                }
                assert(s1.parent_of(pane) == op);
                let j2 = choose|j2: int| 0 <= j2 < r0 && ord0[j2] as int == s0.parent_of(pivot);
                assert(ord1[j2] as int == op);
                assert(op != pane);
            } else {
                let oj: int = if j < r0 {
                    j
                } else {
                    j - 1
                };
                let x = ord0[oj];
                assert(ord1[j] == x);
                assert(s0.live(x as int));
                if x as int == pivot {
                    assert(s1.parent_of(pivot) == pane);
                    assert(oj == r0) by {
                        assert(ord0[r0] == pivot as usize);
                    }
                    assert(j == r0 + 1);
                    assert(ord1[r0] == pane as usize);
                    assert(pane != pivot);
                } else {
                    assert(s1.node(x as int) == s0.node(x as int) || x as int == op);
                    assert(s1.parent_of(x as int) == s0.parent_of(x as int));
                    if oj >= 1 {
                        let j2 = choose|j2: int|
                            0 <= j2 < oj && ord0[j2] as int == s0.parent_of(x as int);
                        if j2 < r0 {
                            assert(ord1[j2] as int == s0.parent_of(x as int));
                            assert(j2 < j);
                        } else {
                            assert(ord1[j2 + 1] as int == s0.parent_of(x as int));
                            assert(j2 + 1 < j);
                        }
                    } else {
                        // x would be the old root, which keeps its place
                        assert(ord0[0] == x);
                        assert(s0.root == Some(x));
                        assert(!was_root ==> x as int != pivot);
                        assert(was_root ==> r0 == 0);
                        assert(s0.parent_of(x as int) == x as int);
                        assert(s1.parent_of(x as int) == x as int);
                        assert(false);
                    }
                }
            }
        }
        // root bookkeeping
        assert(s1.root matches Some(rr) ==> ord1.len() > 0 && ord1[0] == rr) by {
            if was_root {
                assert(r0 == 0) by {
                    assert(ord0[0] == pivot as usize);
                }
            } else {
                assert(r0 >= 1);
                assert(ord1[0] == ord0[0]);
            }
        }
        // parent and child clauses node by node
        assert forall|k: int| #[trigger] s1.live(k) implies {
            &&& s1.live(s1.parent_of(k))
            &&& (s1.parent_of(k) == k <==> s1.root == Some(k as usize))
            &&& (s1.parent_of(k) != k ==> s1.is_pane(s1.parent_of(k)) && s1.children_of(
                s1.parent_of(k),
            ).contains(k as usize))
        } by {
            if k == pane {
                if was_root {
                } else {
                    assert(s1.children_of(op)[s0.children_of(op).index_of(pivot as usize)]
                        == pane as usize);
                    assert(op != pane);
                }
            } else if k == pivot {
                assert(s1.children_of(pane)[0] == pivot as usize);
                assert(pane != pivot);
                assert(s1.root != Some(pivot as usize)) by {
                    if was_root {
                    } else {
                        assert(s0.root != Some(pivot as usize));
                    }
                }
            } else {
                assert(s0.live(k));
                let p = s0.parent_of(k);
                assert(s1.parent_of(k) == p) by {
                    if k != op {
                        assert(s1.node(k) == s0.node(k));
                    }
                }
                if p == k {
                    // k is the old root and keeps its self-parent
                    assert(s0.root == Some(k as usize));
                } else if p == pivot {
                    assert(s1.children_of(pivot) == s0.children_of(pivot));
                } else if p == op && !was_root {
                    // k stays in the updated child list
                    let ch0 = s0.children_of(op);
                    let cidx = ch0.index_of(pivot as usize);
                    assert(ch0.contains(k as usize));
                    let kidx = choose|i: int| 0 <= i < ch0.len() && ch0[i] == k as usize;
                    assert(0 <= kidx < ch0.len() && ch0[kidx] == k as usize);
                    assert(kidx != cidx) by {
                        if kidx == cidx {
                            assert(ch0[cidx] == pivot as usize);
                        }
                    }
                    assert(s1.children_of(op)[kidx] == k as usize);
                } else {
                    assert(s1.node(p) == s0.node(p));
                }
                assert(s1.root == Some(k as usize) <==> s0.root == Some(k as usize)) by {
                    if was_root {
                        assert(k != pivot);
                    }
                }
            }
        }
        // children clauses
        assert forall|k: int| #[trigger] s1.live(k) && s1.is_pane(k) implies {
            &&& s1.children_of(k).no_duplicates()
            &&& forall|j: int|
                0 <= j < s1.children_of(k).len() ==> {
                    &&& s1.live(#[trigger] s1.children_of(k)[j] as int)
                    &&& s1.parent_of(s1.children_of(k)[j] as int) == k
                    &&& Some(s1.children_of(k)[j]) != s1.root
                }
        } by {
            if k == pane {
                assert(s1.children_of(pane) == seq![pivot as usize]);
                assert(s1.children_of(pane).no_duplicates());
                assert forall|j: int| 0 <= j < s1.children_of(pane).len() implies {
                    &&& s1.live(#[trigger] s1.children_of(pane)[j] as int)
                    &&& s1.parent_of(s1.children_of(pane)[j] as int) == pane
                    &&& Some(s1.children_of(pane)[j]) != s1.root
                } by {
                    assert(s1.children_of(pane)[j] == pivot as usize);
                    assert(s1.root != Some(pivot as usize)) by {
                        if !was_root {
                            assert(s0.root != Some(pivot as usize));
                        }
                    }
                }
            } else if k == op && !was_root {
                let ch0 = s0.children_of(op);
                let ch1 = s1.children_of(op);
                let cidx = ch0.index_of(pivot as usize);
                assert(ch1 == ch0.update(cidx, pane as usize));
                assert(ch1.no_duplicates()) by {
                    assert forall|i: int, j: int|
                        0 <= i < ch1.len() && 0 <= j < ch1.len() && i != j implies ch1[i]
                        != ch1[j] by {
                        if i == cidx {
                            assert(ch1[j] == ch0[j] && s0.live(ch0[j] as int));
                        } else if j == cidx {
                            assert(ch1[i] == ch0[i] && s0.live(ch0[i] as int));
                        }
                    }
                }
                assert forall|j: int| 0 <= j < ch1.len() implies {
                    &&& s1.live(#[trigger] ch1[j] as int)
                    &&& s1.parent_of(ch1[j] as int) == k
                    &&& Some(ch1[j]) != s1.root
                } by {
                    if j == cidx {
                        assert(ch1[j] == pane as usize);
                        assert(s1.root == s0.root);
                        assert(s0.root matches Some(rr) && s0.live(rr as int) && rr as int
                            != pane);
                    } else {
                        let c = ch0[j];
                        assert(ch1[j] == c);
                        assert(s0.live(c as int) && s0.parent_of(c as int) == op && Some(c)
                            != s0.root);
                        assert(c as int != pivot) by {
                            if c as int == pivot {
                                assert(ch0[j] == ch0[cidx] && j != cidx);
                            }
                        }
                        assert(c as int != op) by {
                            if c as int == op {
                                assert(s0.parent_of(op) == op);
                                assert(s0.root == Some(op as usize));
                            }
                        }
                        assert(s1.node(c as int) == s0.node(c as int));
                    }
                }
            } else {
                // k's child list is unchanged, and so are its children
                assert(s0.live(k) && s0.is_pane(k));
                assert(s1.children_of(k) == s0.children_of(k));
                assert forall|j: int| 0 <= j < s1.children_of(k).len() implies {
                    &&& s1.live(#[trigger] s1.children_of(k)[j] as int)
                    &&& s1.parent_of(s1.children_of(k)[j] as int) == k
                    &&& Some(s1.children_of(k)[j]) != s1.root
                } by {
                    let c = s0.children_of(k)[j];
                    assert(s0.live(c as int) && s0.parent_of(c as int) == k && Some(c)
                        != s0.root);
                    if c as int == pivot {
                        assert(k == op);
                        assert(!was_root) by {
                            if was_root {
                                assert(s0.parent_of(pivot) == pivot);
                                assert(k == pivot);
                                assert(s0.root == Some(k as usize));
                                assert(s0.children_of(k).contains(c));
                            }
                        }
                    }
                    assert(c as int != pivot);
                    if c as int == op && !was_root {
                        assert(s0.parent_of(op) == k && s0.parent_of(pivot) == op);
                        s0.lemma_child_rank(k, op);
                        s0.lemma_child_rank(op, pivot);
                        assert(s1.parent_of(c as int) == k);
                    } else {
                        assert(s1.node(c as int) == s0.node(c as int));
                    }
                    assert(s1.root == Some(c) <==> s0.root == Some(c)) by {
                        if was_root {
                            assert(c as int != pivot);
                        }
                    }
                }
            }
        }
        // clients, focus, limits
        assert forall|i: int| 0 <= i < s1.clients@.len() implies {
            &&& s1.live(#[trigger] s1.clients@[i].1 as int)
            &&& !s1.is_pane(s1.clients@[i].1 as int)
            &&& s1.frame_of(s1.clients@[i].1 as int).win == s1.clients@[i].0
        } by {
            let k = s0.clients@[i].1 as int;
            assert(s0.live(k) && !s0.is_pane(k) && s0.frame_of(k).win == s0.clients@[i].0);
            assert(k != pane);
            if k != pivot && k != op {
                assert(s1.node(k) == s0.node(k));
            }
            if k == op && !was_root {
                assert(s0.is_pane(op));
            }
        }
        assert forall|k: int| #[trigger] s1.live(k) && !s1.is_pane(k) implies exists|i: int|
            0 <= i < s1.clients@.len() && s1.clients@[i] == (s1.frame_of(k).win, k as usize) by {
            assert(k != pane);
            assert(s0.live(k) && !s0.is_pane(k));
            let i = choose|i: int|
                0 <= i < s0.clients@.len() && s0.clients@[i] == (s0.frame_of(k).win, k as usize);
            assert(s1.clients@[i] == (s1.frame_of(k).win, k as usize));
        }
        assert(s1.wf_struct());
        // geometry: the new pane hands its single child the whole rectangle,
        // and everything else keeps both its rectangle and its children's
        assert forall|k: int| #[trigger] s1.live(k) implies s1.pane_tiled(k) by {
            let gap = s1.config.spec_gap_size() as int;
            if k == pane {
                Self::lemma_split_single(s1.dims_of(pane), dir, gap);
            } else if s1.is_pane(k) && s1.children_of(k).len() > 0 {
                assert(s0.live(k) && s0.is_pane(k));
                assert(s0.pane_tiled(k));
                if k == op && !was_root {
                    let ch0 = s0.children_of(op);
                    let ch1 = s1.children_of(op);
                    let cidx = ch0.index_of(pivot as usize);
                    assert forall|j: int| 0 <= j < ch1.len() implies s1.dims_of(
                        #[trigger] ch1[j] as int,
                    ) == split_slot(s1.dims_of(k), s1.dir_of(k), ch1.len() as int, gap, j) by {
                        if j == cidx {
                            assert(ch1[j] == pane as usize);
                            assert(s1.dims_of(pane) == s0.dims_of(pivot));
                            assert(s0.dims_of(pivot) == split_slot(
                                s0.dims_of(op),
                                s0.dir_of(op),
                                ch0.len() as int,
                                gap,
                                cidx,
                            ));
                        } else {
                            let c = ch0[j];
                            assert(ch1[j] == c);
                            assert(c as int != pivot) by {
                                if c as int == pivot {
                                    assert(ch0[j] == ch0[cidx] && j != cidx);
                                }
                            }
                            assert(c as int != op) by {
                                if c as int == op {
                                    assert(s0.parent_of(op) == op);
                                    assert(s0.root == Some(op as usize));
                                }
                            }
                            assert(s1.node(c as int) == s0.node(c as int));
                        }
                    }
                } else {
                    assert(s1.children_of(k) == s0.children_of(k));
                    assert(s1.dims_of(k) == s0.dims_of(k));
                    assert(s1.dir_of(k) == s0.dir_of(k));
                    assert forall|j: int| 0 <= j < s1.children_of(k).len() implies s1.dims_of(
                        #[trigger] s1.children_of(k)[j] as int,
                    ) == split_slot(
                        s1.dims_of(k),
                        s1.dir_of(k),
                        s1.children_of(k).len() as int,
                        gap,
                        j,
                    ) by {
                        let c = s0.children_of(k)[j];
                        assert(s0.live(c as int) && s0.parent_of(c as int) == k);
                        if c as int == pivot {
                            assert(k == op);
                            assert(!was_root) by {
                                if was_root {
                                    assert(s0.parent_of(pivot) == pivot);
                                }
                            }
                            assert(false);
                        }
                        if c as int == op && !was_root {
                            assert(s1.dims_of(c as int) == s0.dims_of(c as int));
                        } else {
                            assert(s1.node(c as int) == s0.node(c as int));
                        }
                    }
                }
            }
        }
    }

    /// Wrap `rect_key` in a fresh pane with the given direction: the pane
    /// takes `rect_key`'s place (and its rectangle), `rect_key` becomes its
    /// only child. When `rect_key` was the root the pane is the new root.
    #[verifier::rlimit(100)]
    #[verifier::spinoff_prover]
    fn insert_pane_above(&mut self, rect_key: usize, directionality: Directionality) -> (r: usize)
        requires
            old(self).wf(),
            old(self).live(rect_key as int),
            old(self).live_count <= 0xFFFB,
        ensures
            final(self).wf(),
            r == old(self).nodes@.len(),
            Self::pane_above_rel(*old(self), *final(self), rect_key as int, directionality, r as int),
    {
        let ghost orig = *self;
        let (parent_key, rect_dims) = {
            let rect = self.get_node(rect_key);
            (rect.parent, rect.cached_dimensions)
        };
        let new_pane_key = self.nodes.len();
        let is_root = parent_key == rect_key;
        let pane_parent = if is_root {
            new_pane_key
        } else {
            parent_key
        };
        let mut chv: Vec<usize> = Vec::new();
        chv.push(rect_key);
        proof {
            assert(chv@ =~= seq![rect_key]);
        }
        self.nodes.push(
            Some(
                Rectangle {
                    parent: pane_parent,
                    cached_dimensions: rect_dims,
                    contents: RectangleContents::Pane(
                        Pane { children: chv, directionality },
                    ),
                },
            ),
        );
        self.live_count = self.live_count + 1;
        let ghost oldrank = orig.rank(rect_key as int);
        proof {
            orig.lemma_rank_props(rect_key as int);
            orig.ord@.insert_ensures(oldrank, new_pane_key);
        }
        self.ord = Ghost(self.ord@.insert(oldrank, new_pane_key));
        if is_root {
            self.root = Some(new_pane_key);
        } else {
            let mut parent_rect = self.take_node(parent_key);
            match &mut parent_rect.contents {
                RectangleContents::Pane(p) => {
                    let idx = position_of(&p.children, rect_key);
                    p.children.set(idx, new_pane_key);
                },
                RectangleContents::Client(_) => {
                    proof {
                        assert(false);
                    }
                },
            }
            self.put_node(parent_key, parent_rect);
        }
        let mut rect = self.take_node(rect_key);
        rect.parent = new_pane_key;
        self.put_node(rect_key, rect);
        proof {
            assert(self.nodes@.len() == orig.nodes@.len() + 1);
            assert forall|k: int| 0 <= k < orig.nodes@.len() implies (#[trigger] orig.live(k)
                <==> #[trigger] self.live(k)) by {
                if k != rect_key as int && k != parent_key as int {
                    assert(self.nodes@[k] == orig.nodes@[k]);
                }
            }
            assert forall|k: int|
                #![trigger orig.node(k)]
                #![trigger self.node(k)]
                orig.live(k) && k != rect_key as int && k != orig.parent_of(rect_key as int)
                implies self.node(k) == orig.node(k) by {
                assert(self.nodes@[k] == orig.nodes@[k]);
            }
            if !is_root {
                let ch0 = orig.children_of(parent_key as int);
                assert(ch0.contains(rect_key));
                let cidx = ch0.index_of(rect_key);
                assert(0 <= cidx < ch0.len() && ch0[cidx] == rect_key);
                assert(self.children_of(parent_key as int) =~= ch0.update(cidx, new_pane_key));
            }
            assert(self.children_of(new_pane_key as int) =~= seq![rect_key]);
            assert(Self::pane_above_rel(
                orig,
                *self,
                rect_key as int,
                directionality,
                new_pane_key as int,
            ));
            Self::lemma_pane_above_wf(
                &orig,
                self,
                rect_key as int,
                directionality,
                new_pane_key as int,
            );
        }
        new_pane_key
    }
}

impl XcrabWindowManager {
    /// What inserting a fresh leaf into a pane does: everything is as
    /// before except that the pane's child list has the leaf at `idx`, the
    /// client table has the window in front, and the focus moved to it.
    pub open spec fn leaf_insert_rel(
        s0: Self,
        s1: Self,
        win: Window,
        fw: FramedWindow,
        anchor: int,
        idx: int,
        leaf: int,
    ) -> bool {
        &&& leaf == s0.nodes@.len()
        &&& s1.nodes@.len() == s0.nodes@.len() + 1
        &&& (forall|k: int| 0 <= k < s0.nodes@.len() ==> (#[trigger] s0.live(k) <==> #[trigger] s1.live(k)))
        &&& s1.live(leaf)
        &&& (forall|k: int|
            #![trigger s0.node(k)]
            #![trigger s1.node(k)]
            s0.live(k) && k != anchor ==> s1.node(k) == s0.node(k))
        &&& s1.parent_of(leaf) == anchor
        &&& !s1.is_pane(leaf)
        &&& s1.frame_of(leaf) == fw
        &&& s1.is_pane(anchor)
        &&& s1.dir_of(anchor) == s0.dir_of(anchor)
        &&& s1.parent_of(anchor) == s0.parent_of(anchor)
        &&& s1.dims_of(anchor) == s0.dims_of(anchor)
        &&& s1.children_of(anchor) == s0.children_of(anchor).insert(idx, leaf as usize)
        &&& s1.clients@ == seq![(win, leaf as usize)] + s0.clients@
        &&& s1.focused == Some(win)
        &&& s1.root == s0.root
        &&& s1.config == s0.config
        &&& s1.screen == s0.screen
        &&& s1.live_count == s0.live_count + 1
    }

    /// Inserting a fresh leaf keeps the topological order well formed.
    #[verifier::rlimit(100)]
    #[verifier::spinoff_prover]
    proof fn lemma_leaf_insert_order(
        s0: &Self,
        s1: &Self,
        win: Window,
        fw: FramedWindow,
        anchor: int,
        idx: int,
        leaf: int,
    )
        requires
            s0.wf(),
            s0.live(anchor),
            s0.is_pane(anchor),
            0 <= idx <= s0.children_of(anchor).len(),
            !s0.has_client_spec(win),
            fw.win == win,
            s0.live_count <= 0xFFFB,
            0 <= leaf <= usize::MAX,
            Self::leaf_insert_rel(*s0, *s1, win, fw, anchor, idx, leaf),
            s1.ord@ == s0.ord@.push(leaf as usize),
        ensures
            s1.wf_order(),
    {
        let ord0 = s0.ord@;
        let ord1 = s1.ord@;
        let ch0 = s0.children_of(anchor);
        let ch1 = s1.children_of(anchor);
        ch0.insert_ensures(idx, leaf as usize);
        assert forall|k: int| s0.live(k) implies k != leaf && s0.parent_of(k) != leaf by {}
        assert(!ord0.contains(leaf as usize)) by {
            if ord0.contains(leaf as usize) {
                let j = choose|j: int| 0 <= j < ord0.len() && ord0[j] == leaf as usize;
                assert(s0.live(ord0[j] as int));
            }
        }
        s0.lemma_rank_props(anchor);
        assert(ord1.no_duplicates()) by {
            assert forall|i: int, j: int| 0 <= i < ord1.len() && 0 <= j < ord1.len() && i != j
                implies ord1[i] != ord1[j] by {
                if i < ord0.len() && j < ord0.len() {
                    assert(ord1[i] == ord0[i] && ord1[j] == ord0[j]);
                } else if i < ord0.len() {
                    assert(ord0.contains(ord0[i]));
                } else {
                    assert(ord0.contains(ord0[j]));
                }
            }
        }
        assert forall|j: int| 0 <= j < ord1.len() implies s1.live(#[trigger] ord1[j] as int) by {
            if j < ord0.len() {
                assert(s0.live(ord0[j] as int));
            }
        }
        assert forall|k: int| #[trigger] s1.live(k) implies ord1.contains(k as usize) by {
            if k == leaf {
                assert(ord1[ord0.len() as int] == leaf as usize);
            } else {
                assert(s0.live(k));
                let j = choose|j: int| 0 <= j < ord0.len() && ord0[j] == k as usize;
                assert(ord1[j] == k as usize);
            }
        }
        assert(s1.root matches Some(rr) ==> ord1.len() > 0 && ord1[0] == rr) by {
            assert(s0.root matches Some(rr2) && s0.live(rr2 as int));
        }
        assert forall|j: int| 1 <= j < ord1.len() implies {
            &&& s1.parent_of(#[trigger] ord1[j] as int) != ord1[j] as int
            &&& exists|j2: int| 0 <= j2 < j && ord1[j2] as int == s1.parent_of(ord1[j] as int)
        } by {
            if j < ord0.len() {
                let x = ord0[j];
                assert(s0.live(x as int));
                assert(s1.parent_of(x as int) == s0.parent_of(x as int)) by {
                    if x as int != anchor {
                        assert(s1.node(x as int) == s0.node(x as int));
                    }
                }
                let j2 = choose|j2: int|
                    0 <= j2 < j && ord0[j2] as int == s0.parent_of(ord0[j] as int);
                assert(ord1[j2] as int == s1.parent_of(ord1[j] as int));
            } else {
                assert(ord1[j] == leaf as usize);
                assert(s1.parent_of(leaf) == anchor && anchor != leaf);
                assert(ord1[s0.rank(anchor)] as int == anchor);
                assert(s0.rank(anchor) < j);
            }
        }
    }

    /// Inserting a fresh leaf keeps parents and child lists well formed.
    #[verifier::rlimit(100)]
    #[verifier::spinoff_prover]
    proof fn lemma_leaf_insert_nodes(
        s0: &Self,
        s1: &Self,
        win: Window,
        fw: FramedWindow,
        anchor: int,
        idx: int,
        leaf: int,
    )
        requires
            s0.wf(),
            s0.live(anchor),
            s0.is_pane(anchor),
            0 <= idx <= s0.children_of(anchor).len(),
            !s0.has_client_spec(win),
            fw.win == win,
            s0.live_count <= 0xFFFB,
            0 <= leaf <= usize::MAX,
            Self::leaf_insert_rel(*s0, *s1, win, fw, anchor, idx, leaf),
            s1.ord@ == s0.ord@.push(leaf as usize),
        ensures
            s1.wf_parents(),
            s1.wf_children(),
    {
        Self::lemma_leaf_insert_children(s0, s1, win, fw, anchor, idx, leaf);
        assert(s1.wf_children());
        let ch0 = s0.children_of(anchor);
        let ch1 = s1.children_of(anchor);
        ch0.insert_ensures(idx, leaf as usize);
        assert forall|k: int| s0.live(k) implies k != leaf && s0.parent_of(k) != leaf by {}
        // parent and child clauses
        assert forall|k: int| #[trigger] s1.live(k) implies {
            &&& s1.live(s1.parent_of(k))
            &&& (s1.parent_of(k) == k <==> s1.root == Some(k as usize))
            &&& (s1.parent_of(k) != k ==> s1.is_pane(s1.parent_of(k)) && s1.children_of(
                s1.parent_of(k),
            ).contains(k as usize))
        } by {
            if k == leaf {
                assert(ch1[idx] == leaf as usize);
                assert(ch1.contains(leaf as usize));
                assert(s0.root matches Some(rr2) && s0.live(rr2 as int));
                assert(s1.root != Some(leaf as usize));
            } else {
                assert(s0.live(k));
                let p = s0.parent_of(k);
                assert(s1.parent_of(k) == p) by {
                    if k != anchor {
                        assert(s1.node(k) == s0.node(k));
                    }
                }
                if p != k {
                    assert(s0.children_of(p).contains(k as usize));
                    if p == anchor {
                        let i0 = choose|i0: int| 0 <= i0 < ch0.len() && ch0[i0] == k as usize;
                        if i0 < idx {
                            assert(ch1[i0] == k as usize);
                        } else {
                            assert(ch1[i0 + 1] == k as usize);
                        }
                        assert(ch1.contains(k as usize));
                    } else {
                        assert(s1.node(p) == s0.node(p));
                    }
                }
            }
        }
    }

    /// Child-list half of the fresh-leaf proof.
    #[verifier::rlimit(100)]
    #[verifier::spinoff_prover]
    proof fn lemma_leaf_insert_children(
        s0: &Self,
        s1: &Self,
        win: Window,
        fw: FramedWindow,
        anchor: int,
        idx: int,
        leaf: int,
    )
        requires
            s0.wf(),
            s0.live(anchor),
            s0.is_pane(anchor),
            0 <= idx <= s0.children_of(anchor).len(),
            !s0.has_client_spec(win),
            fw.win == win,
            s0.live_count <= 0xFFFB,
            0 <= leaf <= usize::MAX,
            Self::leaf_insert_rel(*s0, *s1, win, fw, anchor, idx, leaf),
            s1.ord@ == s0.ord@.push(leaf as usize),
        ensures
            s1.wf_children(),
    {
        let ch0 = s0.children_of(anchor);
        let ch1 = s1.children_of(anchor);
        ch0.insert_ensures(idx, leaf as usize);
        assert(ch1 == ch0.insert(idx, leaf as usize));
        assert(ch1.len() == ch0.len() + 1);
        assert forall|k: int| s0.live(k) implies k != leaf && s0.parent_of(k) != leaf by {}
        // children clauses
        assert forall|k: int| #[trigger] s1.live(k) && s1.is_pane(k) implies {
            &&& s1.children_of(k).no_duplicates()
            &&& forall|j: int|
                0 <= j < s1.children_of(k).len() ==> {
                    &&& s1.live(#[trigger] s1.children_of(k)[j] as int)
                    &&& s1.parent_of(s1.children_of(k)[j] as int) == k
                    &&& Some(s1.children_of(k)[j]) != s1.root
                }
        } by {
            assert(k != leaf);
            assert(s0.live(k) && s0.is_pane(k));
            if k == anchor {
                assert(ch1.no_duplicates()) by {
                    assert forall|i: int, j: int|
                        0 <= i < ch1.len() && 0 <= j < ch1.len() && i != j implies ch1[i]
                        != ch1[j] by {
                        let oi: int = if i < idx {
                            i
                        } else {
                            i - 1
                        };
                        let oj: int = if j < idx {
                            j
                        } else {
                            j - 1
                        };
                        if i == idx {
                            assert(ch1[i] == leaf as usize);
                            assert(ch1[j] == ch0[oj] && s0.live(ch0[oj] as int));
                        } else if j == idx {
                            assert(ch1[j] == leaf as usize);
                            assert(ch1[i] == ch0[oi] && s0.live(ch0[oi] as int));
                        } else {
                            assert(ch1[i] == ch0[oi] && ch1[j] == ch0[oj] && oi != oj);
                        }
                    }
                }
                assert forall|j: int| 0 <= j < ch1.len() implies {
                    &&& s1.live(#[trigger] ch1[j] as int)
                    &&& s1.parent_of(ch1[j] as int) == k
                    &&& Some(ch1[j]) != s1.root
                } by {
                    if j == idx {
                        assert(ch1[j] == leaf as usize);
                        assert(s0.root matches Some(rr2) && s0.live(rr2 as int));
                    } else {
                        let oj: int = if j < idx {
                            j
                        } else {
                            j - 1
                        };
                        let c = ch0[oj];
                        assert(ch1[j] == c);
                        assert(s0.live(c as int) && s0.parent_of(c as int) == k && Some(c)
                            != s0.root);
                        assert(s1.parent_of(c as int) == k) by {
                            if c as int != anchor {
                                assert(s1.node(c as int) == s0.node(c as int));
                            }
                        }
                    }
                }
            } else {
                assert(s1.children_of(k) == s0.children_of(k));
                assert forall|j: int| 0 <= j < s1.children_of(k).len() implies {
                    &&& s1.live(#[trigger] s1.children_of(k)[j] as int)
                    &&& s1.parent_of(s1.children_of(k)[j] as int) == k
                    &&& Some(s1.children_of(k)[j]) != s1.root
                } by {
                    let c = s0.children_of(k)[j];
                    assert(s0.live(c as int) && s0.parent_of(c as int) == k && Some(c)
                        != s0.root);
                    assert(s1.parent_of(c as int) == k) by {
                        if c as int != anchor {
                            assert(s1.node(c as int) == s0.node(c as int));
                        }
                    }
                }
            }
        }
    }

    /// Inserting a fresh leaf keeps the client table well formed.
    #[verifier::rlimit(100)]
    #[verifier::spinoff_prover]
    proof fn lemma_leaf_insert_clients(
        s0: &Self,
        s1: &Self,
        win: Window,
        fw: FramedWindow,
        anchor: int,
        idx: int,
        leaf: int,
    )
        requires
            s0.wf(),
            s0.live(anchor),
            s0.is_pane(anchor),
            0 <= idx <= s0.children_of(anchor).len(),
            !s0.has_client_spec(win),
            fw.win == win,
            s0.live_count <= 0xFFFB,
            0 <= leaf <= usize::MAX,
            Self::leaf_insert_rel(*s0, *s1, win, fw, anchor, idx, leaf),
            s1.ord@ == s0.ord@.push(leaf as usize),
        ensures
            s1.wf_clients(),
    {
        assert forall|k: int| s0.live(k) implies k != leaf && s0.parent_of(k) != leaf by {}
        assert(s1.clients@.len() == s0.clients@.len() + 1);
        assert(s1.clients@[0] == (win, leaf as usize));
        assert forall|i: int| 1 <= i < s1.clients@.len() implies s1.clients@[i] == s0.clients@[i
            - 1] by {}
        assert forall|i: int| 1 <= i < s1.clients@.len() implies s1.clients@[i].0 != win
            && s1.clients@[i].1 != leaf as usize by {
            assert(s1.clients@[i] == s0.clients@[i - 1]);
            assert(s0.live(s0.clients@[i - 1].1 as int));
            if s0.clients@[i - 1].0 == win {
                assert(s0.has_client_spec(win));
            }
        }
        assert forall|i: int, j: int|
            0 <= i < s1.clients@.len() && 0 <= j < s1.clients@.len() && i != j implies (
        #[trigger] s1.clients@[i].0 != #[trigger] s1.clients@[j].0 && s1.clients@[i].1
            != s1.clients@[j].1) by {
            if i >= 1 && j >= 1 {
                assert(s1.clients@[i] == s0.clients@[i - 1] && s1.clients@[j] == s0.clients@[j
                    - 1]);
            }
        }
        Self::lemma_leaf_insert_clients2(s0, s1, win, fw, anchor, idx, leaf);
    }

    /// Second half of the client-table proof: the entries and the leaves
    /// they stand for.
    #[verifier::rlimit(100)]
    #[verifier::spinoff_prover]
    proof fn lemma_leaf_insert_clients2(
        s0: &Self,
        s1: &Self,
        win: Window,
        fw: FramedWindow,
        anchor: int,
        idx: int,
        leaf: int,
    )
        requires
            s0.wf(),
            s0.live(anchor),
            s0.is_pane(anchor),
            0 <= idx <= s0.children_of(anchor).len(),
            !s0.has_client_spec(win),
            fw.win == win,
            s0.live_count <= 0xFFFB,
            0 <= leaf <= usize::MAX,
            Self::leaf_insert_rel(*s0, *s1, win, fw, anchor, idx, leaf),
            s1.ord@ == s0.ord@.push(leaf as usize),
        ensures
            forall|i: int|
                0 <= i < s1.clients@.len() ==> {
                    &&& s1.live(#[trigger] s1.clients@[i].1 as int)
                    &&& !s1.is_pane(s1.clients@[i].1 as int)
                    &&& s1.frame_of(s1.clients@[i].1 as int).win == s1.clients@[i].0
                },
            forall|k: int| #[trigger]
                s1.live(k) && !s1.is_pane(k) ==> exists|i: int|
                    0 <= i < s1.clients@.len() && s1.clients@[i] == (
                    s1.frame_of(k).win,
                    k as usize,
                ),
    {
        assert forall|k: int| s0.live(k) implies k != leaf && s0.parent_of(k) != leaf by {}
        assert(s1.clients@[0] == (win, leaf as usize));
        assert forall|i: int| 1 <= i < s1.clients@.len() implies s1.clients@[i] == s0.clients@[i
            - 1] by {}
        assert forall|i: int| 0 <= i < s1.clients@.len() implies {
            &&& s1.live(#[trigger] s1.clients@[i].1 as int)
            &&& !s1.is_pane(s1.clients@[i].1 as int)
            &&& s1.frame_of(s1.clients@[i].1 as int).win == s1.clients@[i].0
        } by {
            if i >= 1 {
                assert(s1.clients@[i] == s0.clients@[i - 1]);
                let k = s0.clients@[i - 1].1 as int;
                assert(s0.live(k) && !s0.is_pane(k));
                assert(k != anchor);
                assert(s1.node(k) == s0.node(k));
            }
        }
        assert forall|k: int| #[trigger] s1.live(k) && !s1.is_pane(k) implies exists|i: int|
            0 <= i < s1.clients@.len() && s1.clients@[i] == (s1.frame_of(k).win, k as usize) by {
            if k == leaf {
                assert(s1.clients@[0] == (s1.frame_of(leaf).win, leaf as usize));
            } else {
                assert(s0.live(k) && !s0.is_pane(k));
                assert(k != anchor);
                assert(s1.node(k) == s0.node(k));
                let i = choose|i: int|
                    0 <= i < s0.clients@.len() && s0.clients@[i] == (
                    s0.frame_of(k).win,
                    k as usize,
                );
                assert(s1.clients@[i + 1] == (s1.frame_of(k).win, k as usize));
            }
        }
    }

    /// Inserting a fresh leaf keeps everything but the anchor's tiling.
    #[verifier::rlimit(100)]
    #[verifier::spinoff_prover]
    proof fn lemma_leaf_insert_wf(
        s0: &Self,
        s1: &Self,
        win: Window,
        fw: FramedWindow,
        anchor: int,
        idx: int,
        leaf: int,
    )
        requires
            s0.wf(),
            s0.live(anchor),
            s0.is_pane(anchor),
            0 <= idx <= s0.children_of(anchor).len(),
            !s0.has_client_spec(win),
            fw.win == win,
            s0.live_count <= 0xFFFB,
            0 <= leaf <= usize::MAX,
            Self::leaf_insert_rel(*s0, *s1, win, fw, anchor, idx, leaf),
            s1.ord@ == s0.ord@.push(leaf as usize),
        ensures
            s1.wf_struct(),
            s1.root_dims_ok(),
            forall|k: int| s1.live(k) && k != anchor ==> s1.pane_tiled(k),
    {
        Self::lemma_leaf_insert_order(s0, s1, win, fw, anchor, idx, leaf);
        Self::lemma_leaf_insert_nodes(s0, s1, win, fw, anchor, idx, leaf);
        Self::lemma_leaf_insert_clients(s0, s1, win, fw, anchor, idx, leaf);
        assert(s1.wf_struct());
        assert(s1.root_dims_ok()) by {
            let rr = s1.root->0;
            assert(s1.dims_of(rr as int) == s0.dims_of(rr as int)) by {
                if rr as int != anchor {
                    assert(s1.node(rr as int) == s0.node(rr as int));
                }
            }
        }
        // tiling everywhere but the anchor
        assert forall|k: int| s1.live(k) && k != anchor implies s1.pane_tiled(k) by {
            if s1.is_pane(k) && s1.children_of(k).len() > 0 {
                assert(k != leaf);
                assert(s0.live(k) && s0.pane_tiled(k));
                assert(s1.children_of(k) == s0.children_of(k));
                assert(s1.dims_of(k) == s0.dims_of(k)) by {
                    assert(s1.node(k) == s0.node(k));
                }
                assert forall|j: int| 0 <= j < s1.children_of(k).len() implies s1.dims_of(
                    #[trigger] s1.children_of(k)[j] as int,
                ) == split_slot(
                    s1.dims_of(k),
                    s1.dir_of(k),
                    s1.children_of(k).len() as int,
                    s1.config.spec_gap_size() as int,
                    j,
                ) by {
                    let c = s0.children_of(k)[j];
                    assert(s0.live(c as int));
                    assert(s1.dims_of(c as int) == s0.dims_of(c as int)) by {
                        if c as int != anchor {
                            assert(s1.node(c as int) == s0.node(c as int));
                        }
                    }
                }
            }
        }
    }

    /// Insert a fresh leaf for `win` as child `idx` of `anchor`, put the
    /// window in front of the client table, and move the focus to it. The
    /// anchor is left untiled; the caller retiles it.
    #[verifier::rlimit(100)]
    #[verifier::spinoff_prover]
    fn insert_leaf(&mut self, anchor: usize, idx: usize, fw: FramedWindow, win: Window) -> (leaf:
        usize)
        requires
            old(self).wf(),
            old(self).live(anchor as int),
            old(self).is_pane(anchor as int),
            idx <= old(self).children_of(anchor as int).len(),
            !old(self).has_client_spec(win),
            fw.win == win,
            old(self).live_count <= 0xFFFB,
        ensures
            final(self).wf_struct(),
            final(self).root_dims_ok(),
            forall|k: int| final(self).live(k) && k != anchor as int ==> final(self).pane_tiled(k),
            Self::leaf_insert_rel(
                *old(self),
                *final(self),
                win,
                fw,
                anchor as int,
                idx as int,
                leaf as int,
            ),
    {
        let ghost orig = *self;
        let leaf = self.nodes.len();
        self.nodes.push(
            Some(
                Rectangle {
                    parent: anchor,
                    cached_dimensions: Dimensions { x: 0, y: 0, width: 0, height: 0 },
                    contents: RectangleContents::Client(Client { frame: fw }),
                },
            ),
        );
        self.live_count = self.live_count + 1;
        self.ord = Ghost(self.ord@.push(leaf));
        let mut anchor_rect = self.take_node(anchor);
        match &mut anchor_rect.contents {
            RectangleContents::Pane(p) => {
                p.children.insert(idx, leaf);
            },
            RectangleContents::Client(_) => {
                proof {
                    assert(false);
                }
            },
        }
        self.put_node(anchor, anchor_rect);
        self.clients.insert(0, (win, leaf));
        self.focused = Some(win);
        proof {
            assert(self.clients@ =~= seq![(win, leaf)] + orig.clients@);
            assert(self.nodes@.len() == orig.nodes@.len() + 1);
            assert forall|k: int| 0 <= k < orig.nodes@.len() implies (#[trigger] orig.live(k)
                <==> #[trigger] self.live(k)) by {
                if k != anchor as int {
                    assert(self.nodes@[k] == orig.nodes@[k]);
                }
            }
            assert forall|k: int|
                #![trigger orig.node(k)]
                #![trigger self.node(k)]
                orig.live(k) && k != anchor as int implies self.node(k) == orig.node(k) by {
                assert(self.nodes@[k] == orig.nodes@[k]);
            }
            assert(self.children_of(anchor as int) == orig.children_of(anchor as int).insert(
                idx as int,
                leaf,
            ));
            assert(Self::leaf_insert_rel(
                orig,
                *self,
                win,
                fw,
                anchor as int,
                idx as int,
                leaf as int,
            ));
            Self::lemma_leaf_insert_wf(
                &orig,
                self,
                win,
                fw,
                anchor as int,
                idx as int,
                leaf as int,
            );
        }
        leaf
    }
}

impl XcrabWindowManager {
    /// The node the insertion walk stops at, starting from `k`: the first
    /// node on the parent chain whose parent is a pane tiled along
    /// `target`, or the root when no such pane exists. Its parent (or the
    /// pane wrapped around the root) is where a new sibling goes.
    pub open spec fn spec_anchor_child(&self, k: int, target: Directionality) -> int
        decreases self.rank(k)
            when self.wf_struct() && self.live(k)
            via Self::spec_anchor_child_decreases
    {
        let p = self.parent_of(k);
        if p == k {
            k
        } else if self.is_pane(p) && self.dir_of(p) == target {
            k
        } else {
            self.spec_anchor_child(p, target)
        }
    }

    #[via_fn]
    proof fn spec_anchor_child_decreases(&self, k: int, target: Directionality) {
        let p = self.parent_of(k);
        if p != k && !(self.is_pane(p) && self.dir_of(p) == target) {
            assert(self.root != Some(k as usize)) by {
                if self.root == Some(k as usize) {
                    assert(self.parent_of(k) == k);
                }
            }
            self.lemma_child_rank(p, k);
        }
    }

    /// Walk up from `start` until the parent is a pane tiled along
    /// `target`, or the root is reached. The result is the node whose
    /// parent decides: either it is its own parent (the root), or its
    /// parent is the matching pane.
    fn find_anchor_child(&self, start: usize, target: Directionality) -> (r: usize)
        requires
            self.wf(),
            self.live(start as int),
        ensures
            self.live(r as int),
            self.parent_of(r as int) == r as int || (self.is_pane(self.parent_of(r as int))
                && self.dir_of(self.parent_of(r as int)) == target),
            r as int == self.spec_anchor_child(start as int, target),
    {
        let mut child_key = start;
        loop
            invariant
                self.wf(),
                self.live(child_key as int),
                self.spec_anchor_child(start as int, target) == self.spec_anchor_child(
                    child_key as int,
                    target,
                ),
            ensures
                self.live(child_key as int),
                self.parent_of(child_key as int) == child_key as int || (self.is_pane(
                    self.parent_of(child_key as int),
                ) && self.dir_of(self.parent_of(child_key as int)) == target),
                child_key as int == self.spec_anchor_child(start as int, target),
            decreases self.rank(child_key as int),
        {
            let parent_key = self.get_node(child_key).parent;
            if parent_key == child_key {
                proof {
                    assert(self.spec_anchor_child(child_key as int, target) == child_key as int);
                }
                break;
            }
            let matches = {
                let pnode = self.get_node(parent_key);
                match &pnode.contents {
                    RectangleContents::Pane(p) => p.directionality == target,
                    RectangleContents::Client(_) => unreached(),
                }
            };
            if matches {
                proof {
                    assert(self.spec_anchor_child(child_key as int, target) == child_key as int);
                }
                break;
            }
            proof {
                self.lemma_child_rank(parent_key as int, child_key as int);
                assert(self.spec_anchor_child(child_key as int, target) == self.spec_anchor_child(
                    parent_key as int,
                    target,
                ));
            }
            child_key = parent_key;
        }
        child_key
    }

    /// The first client: a single self-parented leaf laid into the screen
    /// shrunk by the outer gap; the requests place it, map it, focus it.
    fn add_first_client(&mut self, win: Window, frame: Window) -> (r: Vec<XRequest>)
        requires
            old(self).wf(),
            old(self).root is None,
        ensures
            final(self).wf(),
            Self::add_first_rel(*old(self), *final(self), win, frame, r@),
    {
        let ghost orig = *self;
        let fw = FramedWindow { frame, win };
        let og = self.config.outer_gap_size();
        let x = self.screen.x + og;
        let y = self.screen.y + og;
        let w = self.screen.width - 2 * og;
        let h = self.screen.height - 2 * og;
        let dims = Dimensions { x, y, width: w, height: h };
        proof {
            assert(dims == spec_root_dims(self.config, self.screen));
            // nothing was live, so the order was empty
            assert(self.ord@.len() == 0) by {
                if self.ord@.len() > 0 {
                    assert(self.live(self.ord@[0] as int));
                }
            }
            assert(self.clients@.len() == 0) by {
                if self.clients@.len() > 0 {
                    assert(self.live(self.clients@[0].1 as int));
                }
            }
        }
        let leaf = self.nodes.len();
        self.nodes.push(
            Some(
                Rectangle {
                    parent: leaf,
                    cached_dimensions: dims,
                    contents: RectangleContents::Client(Client { frame: fw }),
                },
            ),
        );
        self.clients.push((win, leaf));
        self.focused = Some(win);
        self.root = Some(leaf);
        self.live_count = self.live_count + 1;
        let ghost new_ord: Seq<usize> = seq![leaf];
        self.ord = Ghost(new_ord);
        proof {
            assert(self.clients@ =~= seq![(win, leaf)]);
            assert forall|k: int| #[trigger] self.live(k) implies k == leaf as int by {
                if k < leaf as int {
                    assert(!orig.live(k));
                    assert(self.nodes@[k] == orig.nodes@[k]);
                }
            }
            assert(self.ord@[0] == leaf);
            assert(self.ord@.no_duplicates());
            assert forall|k: int| #[trigger] self.live(k) implies self.ord@.contains(
                k as usize,
            ) by {
                assert(self.ord@[0] == leaf);
            }
            assert(self.clients@[0] == (win, leaf));
            assert(self.frame_of(leaf as int).win == win);
            assert forall|k: int| #[trigger] self.live(k) && !self.is_pane(k) implies exists|
                i: int,
            |
                0 <= i < self.clients@.len() && self.clients@[i] == (
                self.frame_of(k).win,
                k as usize,
            ) by {
                assert(self.clients@[0] == (self.frame_of(leaf as int).win, leaf));
            }
            assert(self.wf_root());
            assert(self.wf_parents());
            assert(self.wf_children());
            assert(self.wf_clients());
            assert(self.wf_focus());
            assert(self.wf_order());
            assert(self.wf_limits());
            assert(self.wf());
        }
        let mut r = fw.configure_requests(
            dims,
            self.focused,
            self.config.border_size(),
            self.config.border_color(),
            self.config.focused_color(),
        );
        let mut maps = fw.map_requests();
        r.append(&mut maps);
        r.push(XRequest::SetInputFocus { window: self.focused });
        proof {
            assert(r@ =~= fw.spec_configure_requests(
                spec_root_dims(orig.config, orig.screen),
                Some(win),
                orig.config.spec_border_size(),
                orig.config.spec_border_color(),
                orig.config.spec_focused_color(),
            ) + fw.spec_map_requests() + seq![XRequest::SetInputFocus { window: Some(win) }]);
        }
        r
    }

    /// What creating the first client does, requests included.
    pub open spec fn add_first_rel(
        s0: Self,
        s1: Self,
        win: Window,
        frame: Window,
        r: Seq<XRequest>,
    ) -> bool {
        let leaf = s0.nodes@.len() as int;
        let fw = FramedWindow { frame, win };
        let dims = spec_root_dims(s0.config, s0.screen);
        &&& s1.nodes@.len() == s0.nodes@.len() + 1
        &&& s1.live(leaf)
        &&& !s1.is_pane(leaf)
        &&& s1.frame_of(leaf) == fw
        &&& s1.parent_of(leaf) == leaf
        &&& s1.dims_of(leaf) == dims
        &&& s1.root == Some(leaf as usize)
        &&& s1.clients@ == seq![(win, leaf as usize)]
        &&& s1.focused == Some(win)
        &&& s1.config == s0.config
        &&& s1.screen == s0.screen
        &&& r == fw.spec_configure_requests(
            dims,
            Some(win),
            s0.config.spec_border_size(),
            s0.config.spec_border_color(),
            s0.config.spec_focused_color(),
        ) + fw.spec_map_requests() + seq![XRequest::SetInputFocus { window: Some(win) }]
    }

    /// What adding a client into the pane `anchor` at index `idx` does:
    /// the fresh leaf joined it there, and then only geometry moved.
    pub open spec fn add_existing_rel(
        s0: Self,
        s1: Self,
        win: Window,
        fw: FramedWindow,
        anchor: int,
        idx: int,
    ) -> bool {
        exists|smid: Self|
            {
                &&& #[trigger] Self::leaf_insert_rel(
                    s0,
                    smid,
                    win,
                    fw,
                    anchor,
                    idx,
                    s0.nodes@.len() as int,
                )
                &&& Self::same_structure(&smid, &s1)
                &&& Self::same_surroundings(&smid, &s1)
            }
    }

    /// What adding a client by wrapping `pivot` does: a fresh pane with the
    /// asked direction took `pivot`'s place, the fresh leaf joined it
    /// before or after `pivot`, and then only geometry moved.
    pub open spec fn add_wrapped_rel(
        s0: Self,
        s1: Self,
        win: Window,
        fw: FramedWindow,
        dir: Direction,
        pivot: int,
    ) -> bool {
        let pane = s0.nodes@.len() as int;
        let idx: int = if dir.spec_is_after() {
            1int
        } else {
            0int
        };
        exists|sa: Self, smid: Self|
            {
                &&& #[trigger] Self::pane_above_rel(s0, sa, pivot, dir.spec_directionality(), pane)
                &&& Self::leaf_insert_rel(sa, smid, win, fw, pane, idx, pane + 1)
                &&& #[trigger] Self::same_structure(&smid, &s1)
                &&& Self::same_surroundings(&smid, &s1)
            }
    }

    /// Where a new leaf goes next to `pivot`: right after it for Down and
    /// Right, right before it otherwise.
    pub open spec fn spec_insert_idx(s0: Self, pivot: int, dir: Direction) -> int {
        s0.children_of(s0.parent_of(pivot)).index_of(pivot as usize) + if dir.spec_is_after() {
            1int
        } else {
            0int
        }
    }

    /// The whole contract of an insertion: on an empty tree the first
    /// client fills the root; otherwise the walk from the focused leaf
    /// names the pivot, the nearest pane tiled along the asked direction
    /// (or a fresh pane wrapping the root) takes the new leaf beside it,
    /// and the result retiles that pane, maps the new frame, and focuses it.
    pub open spec fn add_post(
        s0: Self,
        s1: Self,
        win: Window,
        frame: Window,
        dir: Direction,
        r: Seq<XRequest>,
    ) -> bool {
        let fw = FramedWindow { frame, win };
        if s0.clients@.len() == 0 {
            Self::add_first_rel(s0, s1, win, frame, r)
        } else {
            let fleaf = s0.clients@[0].1 as int;
            let target = dir.spec_directionality();
            let pivot = s0.spec_anchor_child(fleaf, target);
            let wrapped = s0.parent_of(pivot) == pivot;
            let anchor: int = if wrapped {
                s0.nodes@.len() as int
            } else {
                s0.parent_of(pivot)
            };
            &&& (if wrapped {
                Self::add_wrapped_rel(s0, s1, win, fw, dir, pivot)
            } else {
                s0.is_pane(anchor) && s0.dir_of(anchor) == target && Self::add_existing_rel(
                    s0,
                    s1,
                    win,
                    fw,
                    anchor,
                    Self::spec_insert_idx(s0, pivot, dir),
                )
            })
            &&& r == s1.subtree_reqs(anchor) + fw.spec_map_requests() + seq![
                XRequest::SetInputFocus { window: Some(win) },
            ]
        }
    }

    /// The contract of the immediate insertion: the pivot is the focused
    /// leaf itself, wrapped in a fresh pane unless its own pane already
    /// runs in the asked direction.
    pub open spec fn add_immediate_post(
        s0: Self,
        s1: Self,
        win: Window,
        frame: Window,
        dir: Direction,
        r: Seq<XRequest>,
    ) -> bool {
        let fw = FramedWindow { frame, win };
        if s0.clients@.len() == 0 {
            Self::add_first_rel(s0, s1, win, frame, r)
        } else {
            let pivot = s0.clients@[0].1 as int;
            let target = dir.spec_directionality();
            let wrapped = s0.parent_of(pivot) == pivot || s0.dir_of(s0.parent_of(pivot)) != target;
            let anchor: int = if wrapped {
                s0.nodes@.len() as int
            } else {
                s0.parent_of(pivot)
            };
            &&& (if wrapped {
                Self::add_wrapped_rel(s0, s1, win, fw, dir, pivot)
            } else {
                Self::add_existing_rel(
                    s0,
                    s1,
                    win,
                    fw,
                    anchor,
                    Self::spec_insert_idx(s0, pivot, dir),
                )
            })
            &&& r == s1.subtree_reqs(anchor) + fw.spec_map_requests() + seq![
                XRequest::SetInputFocus { window: Some(win) },
            ]
        }
    }

    /// Shared tail of every insertion: place the fresh leaf, retile the
    /// anchor, map the new frame, publish the focus. The ghost result is
    /// the state between placing and retiling.
    #[verifier::rlimit(100)]
    #[verifier::spinoff_prover]
    fn finish_insert(&mut self, anchor: usize, idx: usize, fw: FramedWindow, win: Window) -> (out: (
        Vec<XRequest>,
        Ghost<Self>,
    ))
        requires
            old(self).wf(),
            old(self).live(anchor as int),
            old(self).is_pane(anchor as int),
            idx <= old(self).children_of(anchor as int).len(),
            !old(self).has_client_spec(win),
            fw.win == win,
            old(self).live_count <= 0xFFFB,
        ensures
            final(self).wf(),
            final(self).focused == Some(win),
            final(self).has_client_spec(win),
            final(self).config == old(self).config,
            final(self).screen == old(self).screen,
            Self::leaf_insert_rel(
                *old(self),
                out.1@,
                win,
                fw,
                anchor as int,
                idx as int,
                old(self).nodes@.len() as int,
            ),
            Self::same_structure(&out.1@, final(self)),
            Self::same_surroundings(&out.1@, final(self)),
            out.0@ == final(self).subtree_reqs(anchor as int) + fw.spec_map_requests() + seq![
                XRequest::SetInputFocus { window: Some(win) },
            ],
    {
        let ghost s0 = *self;
        let leaf = self.insert_leaf(anchor, idx, fw, win);
        let ghost smid = *self;
        let _touched = self.update_rectangle(anchor, None, Ghost(Set::empty()));
        proof {
            assert forall|k: int| #[trigger] self.live(k) implies self.pane_tiled(k) by {
                assert(!Set::<int>::empty().contains(k));
            }
            assert(self.wf());
        }
        let mut r = self.collect_config_requests(anchor);
        let mut maps = fw.map_requests();
        r.append(&mut maps);
        r.push(XRequest::SetInputFocus { window: self.focused });
        proof {
            assert(self.has_client_spec(win)) by {
                assert(self.clients@[0].0 == win);
            }
            assert(r@ =~= self.subtree_reqs(anchor as int) + fw.spec_map_requests() + seq![
                XRequest::SetInputFocus { window: Some(win) },
            ]);
        }
        (r, Ghost(smid))
    }

    /// Witness form of `add_existing_rel`.
    proof fn lemma_add_existing_intro(
        s0: Self,
        smid: Self,
        s1: Self,
        win: Window,
        fw: FramedWindow,
        anchor: int,
        idx: int,
    )
        requires
            Self::leaf_insert_rel(s0, smid, win, fw, anchor, idx, s0.nodes@.len() as int),
            Self::same_structure(&smid, &s1),
            Self::same_surroundings(&smid, &s1),
        ensures
            Self::add_existing_rel(s0, s1, win, fw, anchor, idx),
    {
    }

    /// Witness form of `add_wrapped_rel`.
    proof fn lemma_add_wrapped_intro(
        s0: Self,
        sa: Self,
        smid: Self,
        s1: Self,
        win: Window,
        fw: FramedWindow,
        dir: Direction,
        pivot: int,
        idx: int,
    )
        requires
            Self::pane_above_rel(s0, sa, pivot, dir.spec_directionality(), s0.nodes@.len() as int),
            Self::leaf_insert_rel(
                sa,
                smid,
                win,
                fw,
                s0.nodes@.len() as int,
                idx,
                sa.nodes@.len() as int,
            ),
            idx == if dir.spec_is_after() {
                1int
            } else {
                0int
            },
            Self::same_structure(&smid, &s1),
            Self::same_surroundings(&smid, &s1),
        ensures
            Self::add_wrapped_rel(s0, s1, win, fw, dir, pivot),
    {
        let pane = s0.nodes@.len() as int;
        let idxl: int = if dir.spec_is_after() {
            1int
        } else {
            0int
        };
        assert(sa.nodes@.len() as int == pane + 1);
        assert(Self::pane_above_rel(s0, sa, pivot, dir.spec_directionality(), pane));
        assert(Self::leaf_insert_rel(sa, smid, win, fw, pane, idxl, pane + 1));
        assert(Self::same_structure(&smid, &s1));
        assert(exists|sa2: Self, smid2: Self|
            {
                &&& #[trigger] Self::pane_above_rel(s0, sa2, pivot, dir.spec_directionality(), pane)
                &&& Self::leaf_insert_rel(sa2, smid2, win, fw, pane, idxl, pane + 1)
                &&& #[trigger] Self::same_structure(&smid2, &s1)
                &&& Self::same_surroundings(&smid2, &s1)
            });
    }

    /// Add a new client in the given direction from the focused window:
    /// the nearest ancestor pane tiled that way takes the new leaf next to
    /// the focused subtree, and the whole pane is retiled; when no such
    /// pane exists, a fresh one wraps the root first.
    #[verifier::rlimit(100)]
    #[verifier::spinoff_prover]
    pub fn add_client_direction(&mut self, win: Window, frame: Window, direction: Direction) -> (r:
        Vec<XRequest>)
        requires
            old(self).wf(),
            !old(self).has_client_spec(win),
            old(self).live_count <= 0xFFFA,
        ensures
            final(self).wf(),
            final(self).has_client_spec(win),
            final(self).focused == Some(win),
            final(self).config == old(self).config,
            final(self).screen == old(self).screen,
            Self::add_post(*old(self), *final(self), win, frame, direction, r@),
    {
        let fw = FramedWindow { frame, win };
        if self.clients.len() == 0 {
            let r = self.add_first_client(win, frame);
            proof {
                assert(final(self).has_client_spec(win)) by {
                    assert(self.clients@[0].0 == win);
                }
            }
            return r;
        }
        let focused_key = self.clients[0].1;
        let target = direction.directionality();
        let child_key = self.find_anchor_child(focused_key, target);
        let parent_key = self.get_node(child_key).parent;
        let ghost s0 = *self;
        let wrapped = parent_key == child_key;
        let anchor: usize;
        let pivot: usize = child_key;
        if wrapped {
            anchor = self.insert_pane_above(child_key, target);
        } else {
            anchor = parent_key;
        }
        let ghost sa = *self;
        let chpos = {
            let anode = self.get_node(anchor);
            match &anode.contents {
                RectangleContents::Pane(p) => position_of(&p.children, pivot),
                RectangleContents::Client(_) => unreached(),
            }
        };
        proof {
            if wrapped {
                assert(sa.children_of(anchor as int) == seq![pivot]);
                assert(chpos == 0);
            } else {
                assert(sa.children_of(anchor as int).no_duplicates());
                assert(sa.children_of(anchor as int).contains(pivot));
                // the first position is the unique one
                assert(s0.children_of(anchor as int).index_of(pivot) == chpos as int) by {
                    let cx = s0.children_of(anchor as int).index_of(pivot);
                    assert(0 <= cx < s0.children_of(anchor as int).len() && s0.children_of(
                        anchor as int,
                    )[cx] == pivot);
                }
            }
        }
        let idx = if direction.is_after() {
            chpos + 1
        } else {
            chpos
        };
        let (r, smid_g) = self.finish_insert(anchor, idx, fw, win);
        proof {
            let smid = smid_g@;
            assert(pivot as int == s0.spec_anchor_child(
                s0.clients@[0].1 as int,
                direction.spec_directionality(),
            ));
            if wrapped {
                assert(s0.root == Some(pivot)) by {
                    assert(s0.parent_of(pivot as int) == pivot as int);
                }
                assert(idx == if direction.spec_is_after() {
                    1int
                } else {
                    0int
                });
                Self::lemma_add_wrapped_intro(
                    s0,
                    sa,
                    smid,
                    *self,
                    win,
                    fw,
                    direction,
                    pivot as int,
                    idx as int,
                );
            } else {
                assert(idx as int == Self::spec_insert_idx(s0, pivot as int, direction));
                Self::lemma_add_existing_intro(
                    s0,
                    smid,
                    *self,
                    win,
                    fw,
                    anchor as int,
                    idx as int,
                );
            }
            assert(Self::add_post(s0, *self, win, frame, direction, r@));
        }
        r
    }

    /// Add a new client. New clients go to the right of the focused one.
    pub fn add_client(&mut self, win: Window, frame: Window) -> (r: Vec<XRequest>)
        requires
            old(self).wf(),
            !old(self).has_client_spec(win),
            old(self).live_count <= 0xFFFA,
        ensures
            final(self).wf(),
            final(self).has_client_spec(win),
            final(self).focused == Some(win),
            final(self).config == old(self).config,
            final(self).screen == old(self).screen,
            Self::add_post(*old(self), *final(self), win, frame, Direction::Right, r@),
    {
        self.add_client_direction(win, frame, Direction::Right)
    }

    /// Add a new client directly beside the focused window, wrapping just
    /// that window in a fresh pane when its own pane does not already run
    /// in the asked direction.
    #[verifier::rlimit(100)]
    #[verifier::spinoff_prover]
    pub fn add_client_direction_immediate(
        &mut self,
        win: Window,
        frame: Window,
        direction: Direction,
    ) -> (r: Vec<XRequest>)
        requires
            old(self).wf(),
            !old(self).has_client_spec(win),
            old(self).live_count <= 0xFFFA,
        ensures
            final(self).wf(),
            final(self).has_client_spec(win),
            final(self).focused == Some(win),
            final(self).config == old(self).config,
            final(self).screen == old(self).screen,
            Self::add_immediate_post(*old(self), *final(self), win, frame, direction, r@),
    {
        let fw = FramedWindow { frame, win };
        if self.clients.len() == 0 {
            let r = self.add_first_client(win, frame);
            proof {
                assert(self.clients@[0].0 == win);
            }
            return r;
        }
        let focused_key = self.clients[0].1;
        let ghost s0 = *self;
        let target = direction.directionality();
        let parent_key = self.get_node(focused_key).parent;
        let parent_matches = if parent_key == focused_key {
            false
        } else {
            let pnode = self.get_node(parent_key);
            match &pnode.contents {
                RectangleContents::Pane(p) => p.directionality == target,
                RectangleContents::Client(_) => unreached(),
            }
        };
        let wrapped = !parent_matches;
        let anchor: usize;
        let pivot: usize = focused_key;
        if wrapped {
            anchor = self.insert_pane_above(focused_key, target);
        } else {
            anchor = parent_key;
        }
        let ghost sa = *self;
        let chpos = {
            let anode = self.get_node(anchor);
            match &anode.contents {
                RectangleContents::Pane(p) => position_of(&p.children, pivot),
                RectangleContents::Client(_) => unreached(),
            }
        };
        proof {
            if wrapped {
                assert(sa.children_of(anchor as int) == seq![pivot]);
                assert(chpos == 0);
            } else {
                assert(sa.children_of(anchor as int).no_duplicates());
                assert(sa.children_of(anchor as int).contains(pivot));
                assert(s0.children_of(anchor as int).index_of(pivot) == chpos as int) by {
                    let cx = s0.children_of(anchor as int).index_of(pivot);
                    assert(0 <= cx < s0.children_of(anchor as int).len() && s0.children_of(
                        anchor as int,
                    )[cx] == pivot);
                }
            }
        }
        let idx = if direction.is_after() {
            chpos + 1
        } else {
            chpos
        };
        let (r, smid_g) = self.finish_insert(anchor, idx, fw, win);
        proof {
            let smid = smid_g@;
            if wrapped {
                assert(idx == if direction.spec_is_after() {
                    1int
                } else {
                    0int
                });
                Self::lemma_add_wrapped_intro(
                    s0,
                    sa,
                    smid,
                    *self,
                    win,
                    fw,
                    direction,
                    pivot as int,
                    idx as int,
                );
            } else {
                assert(idx as int == Self::spec_insert_idx(s0, pivot as int, direction));
                Self::lemma_add_existing_intro(
                    s0,
                    smid,
                    *self,
                    win,
                    fw,
                    anchor as int,
                    idx as int,
                );
            }
            assert(Self::add_immediate_post(s0, *self, win, frame, direction, r@));
        }
        r
    }
}

impl XcrabWindowManager {
    /// A self-parented leaf is alone in the tree.
    proof fn lemma_root_leaf_singleton(&self)
        requires
            self.wf(),
            self.root matches Some(r) && !self.is_pane(r as int),
        ensures
            self.ord@.len() == 1,
            self.clients@.len() == 1,
    {
        let r = (self.root)->0;
        assert(self.ord@[0] == r);
        if self.ord@.len() >= 2 {
            let x = self.ord@[1];
            assert(self.live(x as int));
            let j2 = choose|j2: int|
                0 <= j2 < 1 && self.ord@[j2] as int == self.parent_of(x as int);
            assert(self.parent_of(x as int) == r as int);
            assert(self.is_pane(r as int));
        }
        if self.clients@.len() >= 2 {
            assert(self.live(self.clients@[0].1 as int));
            assert(self.live(self.clients@[1].1 as int));
            assert(self.ord@.contains(self.clients@[0].1));
            assert(self.ord@.contains(self.clients@[1].1));
            let a = choose|a: int| 0 <= a < self.ord@.len() && self.ord@[a] == self.clients@[0].1;
            let b = choose|b: int| 0 <= b < self.ord@.len() && self.ord@[b] == self.clients@[1].1;
            assert(a == 0 && b == 0);
            assert(self.clients@[0].1 == self.clients@[1].1);
        }
        assert(self.clients@.len() >= 1) by {
            assert(self.live(r as int) && !self.is_pane(r as int));
        }
    }

    /// The state right after the removal surgery, before the retile: the
    /// leaf's slot is empty, the pane's child list lost it, the client
    /// table lost its window, focus moved to the table's head, and no
    /// other node changed at all.
    pub open spec fn remove_surgery_rel(
        s0: Self,
        s1: Self,
        win: Window,
        i: int,
        leaf: int,
        p: int,
    ) -> bool {
        &&& 0 <= i < s0.clients@.len()
        &&& s0.clients@[i].0 == win
        &&& leaf == s0.clients@[i].1 as int
        &&& p == s0.parent_of(leaf)
        &&& p != leaf
        &&& s1.nodes@.len() == s0.nodes@.len()
        &&& !s1.live(leaf)
        &&& (forall|k: int| 0 <= k < s0.nodes@.len() && k != leaf ==> (#[trigger] s0.live(k)
            <==> #[trigger] s1.live(k)))
        &&& (forall|k: int|
            #![trigger s0.node(k)]
            #![trigger s1.node(k)]
            s0.live(k) && k != leaf && k != p ==> s1.node(k) == s0.node(k))
        &&& s1.is_pane(p)
        &&& s1.dir_of(p) == s0.dir_of(p)
        &&& s1.parent_of(p) == s0.parent_of(p)
        &&& s1.dims_of(p) == s0.dims_of(p)
        &&& s1.children_of(p) == s0.children_of(p).remove(s0.children_of(p).index_of(leaf as usize))
        &&& s1.clients@ == s0.clients@.remove(i)
        &&& s1.focused == Some(s1.clients@[0].0)
        &&& s1.root == s0.root
        &&& s1.config == s0.config
        &&& s1.screen == s0.screen
        &&& s1.live_count == s0.live_count - 1
    }

    /// Removing the last client empties the whole tree.
    pub open spec fn remove_last_rel(s0: Self, s1: Self, win: Window) -> bool {
        &&& s0.clients@.len() == 1
        &&& s0.clients@[0].0 == win
        &&& s1.nodes@.len() == 0
        &&& s1.clients@.len() == 0
        &&& s1.focused is None
        &&& s1.root is None
        &&& s1.config == s0.config
        &&& s1.screen == s0.screen
    }

    /// What removing a client (other than the last one) does, seen after
    /// the retile: the leaf and its client entry are gone, the pane lost
    /// exactly that child, every other node keeps its shape, the pane and
    /// the root keep their rectangles, and focus is the table's head.
    pub open spec fn remove_rel(s0: Self, s1: Self, win: Window, i: int, leaf: int, p: int) -> bool {
        &&& 0 <= i < s0.clients@.len()
        &&& s0.clients@[i].0 == win
        &&& leaf == s0.clients@[i].1 as int
        &&& p == s0.parent_of(leaf)
        &&& p != leaf
        &&& s1.nodes@.len() == s0.nodes@.len()
        &&& !s1.live(leaf)
        &&& (forall|k: int| 0 <= k < s0.nodes@.len() && k != leaf ==> (#[trigger] s0.live(k)
            <==> #[trigger] s1.live(k)))
        &&& (forall|k: int|
            #![trigger s0.node(k)]
            #![trigger s1.node(k)]
            s0.live(k) && k != leaf && k != p ==> same_node_structure(s0.node(k), s1.node(k)))
        &&& s1.is_pane(p)
        &&& s1.dir_of(p) == s0.dir_of(p)
        &&& s1.parent_of(p) == s0.parent_of(p)
        &&& s1.dims_of(p) == s0.dims_of(p)
        &&& s1.children_of(p) == s0.children_of(p).remove(s0.children_of(p).index_of(leaf as usize))
        &&& s1.clients@ == s0.clients@.remove(i)
        &&& s1.focused == Some(s1.clients@[0].0)
        &&& s1.root == s0.root
        &&& s1.config == s0.config
        &&& s1.screen == s0.screen
        &&& s1.live_count == s0.live_count - 1
    }

    /// The surgery relation survives a retile that keeps the pane's own
    /// rectangle.
    proof fn lemma_remove_rel_weaken(
        s0: &Self,
        smid: &Self,
        s1: &Self,
        win: Window,
        i: int,
        leaf: int,
        p: int,
    )
        requires
            s0.live(p),
            Self::remove_surgery_rel(*s0, *smid, win, i, leaf, p),
            Self::same_structure(smid, s1),
            Self::same_surroundings(smid, s1),
            s1.dims_of(p) == smid.dims_of(p),
        ensures
            Self::remove_rel(*s0, *s1, win, i, leaf, p),
    {
        assert forall|k: int| 0 <= k < s0.nodes@.len() && k != leaf implies (#[trigger] s0.live(k)
            <==> #[trigger] s1.live(k)) by {
            assert(s0.live(k) <==> smid.live(k));
        }
        assert(!s1.live(leaf)) by {
            assert(!smid.live(leaf));
        }
        assert forall|k: int|
            #![trigger s0.node(k)]
            #![trigger s1.node(k)]
            s0.live(k) && k != leaf && k != p implies same_node_structure(
            s0.node(k),
            s1.node(k),
        ) by {
            assert(smid.node(k) == s0.node(k));
            assert(smid.live(k) && s1.live(k));
            assert(same_node_structure(smid.node(k), s1.node(k)));
        }
        assert(p != leaf);
        assert(smid.live(p));
        assert(s1.live(p));
        assert(same_node_structure(smid.node(p), s1.node(p)));
    }
}

impl XcrabWindowManager {
    /// The whole contract of a removal: the leaf's frame is surrendered
    /// first; removing the only client then just clears the focus, while
    /// otherwise the new focus is published if the removed window held it,
    /// and the surviving pane is retiled.
    pub open spec fn remove_post(s0: Self, s1: Self, win: Window, r: Seq<XRequest>) -> bool {
        if s0.clients@.len() <= 1 {
            &&& Self::remove_last_rel(s0, s1, win)
            &&& r == s0.frame_of(s0.clients@[0].1 as int).spec_unframe_requests() + seq![
                XRequest::SetInputFocus { window: None },
            ]
        } else {
            exists|i: int, leaf: int, p: int|
                {
                    &&& #[trigger] Self::remove_rel(s0, s1, win, i, leaf, p)
                    &&& r == s0.frame_of(leaf).spec_unframe_requests() + (if i == 0 {
                        seq![XRequest::SetInputFocus { window: Some(s1.clients@[0].0) }]
                    } else {
                        Seq::<XRequest>::empty()
                    }) + s1.subtree_reqs(p)
                }
        }
    }

    /// The whole contract of closing the focused client: with no focus,
    /// nothing happens; otherwise the focused window is removed exactly as
    /// `remove_post` says, and the very last request asks the remembered
    /// frame's client to be killed.
    pub open spec fn destroy_post(s0: Self, s1: Self, r: Seq<XRequest>) -> bool {
        match s0.focused {
            None => s1 == s0 && r.len() == 0,
            Some(f) => {
                let fw = s0.frame_of(s0.clients@[0].1 as int);
                &&& r.len() >= 1
                &&& r[r.len() - 1] == (XRequest::KillClient { frame: fw.frame, win: fw.win })
                &&& Self::remove_post(s0, s1, f, r.take(r.len() - 1))
            },
        }
    }

    /// Removing a leaf keeps the topological order well formed.
    #[verifier::rlimit(100)]
    #[verifier::spinoff_prover]
    proof fn lemma_leaf_remove_order(s0: &Self, s1: &Self, win: Window, i: int, leaf: int, p: int)
        requires
            s0.wf(),
            s0.nodes@.len() <= usize::MAX,
            Self::remove_surgery_rel(*s0, *s1, win, i, leaf, p),
            s0.clients@.len() >= 2,
            !s0.is_pane(leaf),
            s1.ord@ == s0.ord@.remove(s0.rank(leaf)),
        ensures
            s1.wf_order(),
    {
        let ord0 = s0.ord@;
        let ord1 = s1.ord@;
        assert(s0.live(leaf));
        s0.lemma_rank_props(leaf);
        let rl = s0.rank(leaf);
        ord0.remove_ensures(rl);
        // nothing has the leaf as its parent
        assert forall|k: int| s0.live(k) implies s0.parent_of(k) != leaf by {
            if s0.parent_of(k) == leaf && k != leaf {
                assert(s0.is_pane(leaf));
            }
            if k == leaf {
                assert(s0.root != Some(leaf as usize)) by {
                    if s0.root == Some(leaf as usize) {
                        assert(s0.parent_of(leaf) == leaf);
                    }
                }
            }
        }
        assert(rl >= 1) by {
            if rl == 0 {
                assert(ord0[0] == (s0.root)->0);
                assert(s0.parent_of(leaf) == leaf);
            }
        }
        assert(ord1.no_duplicates()) by {
            assert forall|a: int, b: int| 0 <= a < ord1.len() && 0 <= b < ord1.len() && a != b
                implies ord1[a] != ord1[b] by {
                let oa: int = if a < rl {
                    a
                } else {
                    a + 1
                };
                let ob: int = if b < rl {
                    b
                } else {
                    b + 1
                };
                assert(ord1[a] == ord0[oa] && ord1[b] == ord0[ob] && oa != ob);
            }
        }
        assert forall|j: int| 0 <= j < ord1.len() implies s1.live(#[trigger] ord1[j] as int) by {
            let oj: int = if j < rl {
                j
            } else {
                j + 1
            };
            assert(ord1[j] == ord0[oj]);
            assert(s0.live(ord0[oj] as int));
            assert(ord0[oj] as int != leaf) by {
                if ord0[oj] as int == leaf {
                    assert(ord0[oj] == ord0[rl] && oj != rl);
                }
            }
        }
        assert forall|k: int| #[trigger] s1.live(k) implies ord1.contains(k as usize) by {
            assert(s0.live(k) && k != leaf);
            let j = choose|j: int| 0 <= j < ord0.len() && ord0[j] == k as usize;
            assert(j != rl) by {
                if j == rl {
                    assert(ord0[rl] == leaf as usize);
                    assert(k as usize as int == k && leaf as usize as int == leaf);
                }
            }
            if j < rl {
                assert(ord1[j] == k as usize);
            } else {
                assert(ord1[j - 1] == k as usize);
            }
        }
        assert(s1.root matches Some(rr) ==> ord1.len() > 0 && ord1[0] == rr) by {
            assert(ord1[0] == ord0[0]);
        }
        assert forall|j: int| 1 <= j < ord1.len() implies {
            &&& s1.parent_of(#[trigger] ord1[j] as int) != ord1[j] as int
            &&& exists|j2: int| 0 <= j2 < j && ord1[j2] as int == s1.parent_of(ord1[j] as int)
        } by {
            let oj: int = if j < rl {
                j
            } else {
                j + 1
            };
            let x = ord0[oj];
            assert(ord1[j] == x);
            assert(s0.live(x as int) && x as int != leaf);
            assert(s1.parent_of(x as int) == s0.parent_of(x as int)) by {
                if x as int != p {
                    assert(s1.node(x as int) == s0.node(x as int));
                }
            }
            let j2 = choose|j2: int| 0 <= j2 < oj && ord0[j2] as int == s0.parent_of(x as int);
            assert(j2 != rl) by {
                if j2 == rl {
                    assert(s0.parent_of(x as int) == leaf);
                }
            }
            if j2 < rl {
                assert(ord1[j2] as int == s1.parent_of(ord1[j] as int));
                assert(j2 < j);
            } else {
                assert(ord1[j2 - 1] as int == s1.parent_of(ord1[j] as int));
                assert(j2 - 1 < j);
            }
        }
    }

    /// Removing a leaf keeps parents, children and clients well formed.
    #[verifier::rlimit(100)]
    #[verifier::spinoff_prover]
    proof fn lemma_leaf_remove_nodes(s0: &Self, s1: &Self, win: Window, i: int, leaf: int, p: int)
        requires
            s0.wf(),
            s0.nodes@.len() <= usize::MAX,
            Self::remove_surgery_rel(*s0, *s1, win, i, leaf, p),
            s0.clients@.len() >= 2,
            !s0.is_pane(leaf),
            s1.ord@ == s0.ord@.remove(s0.rank(leaf)),
        ensures
            s1.wf_parents(),
            s1.wf_children(),
    {
        let ch0 = s0.children_of(p);
        let ch1 = s1.children_of(p);
        assert(s0.live(leaf));
        assert(ch0.contains(leaf as usize));
        let ci = ch0.index_of(leaf as usize);
        assert(0 <= ci < ch0.len() && ch0[ci] == leaf as usize);
        ch0.remove_ensures(ci);
        assert forall|k: int| #[trigger] s1.live(k) implies {
            &&& s1.live(s1.parent_of(k))
            &&& (s1.parent_of(k) == k <==> s1.root == Some(k as usize))
            &&& (s1.parent_of(k) != k ==> s1.is_pane(s1.parent_of(k)) && s1.children_of(
                s1.parent_of(k),
            ).contains(k as usize))
        } by {
            assert(s0.live(k) && k != leaf);
            let q = s0.parent_of(k);
            assert(s1.parent_of(k) == q) by {
                if k != p {
                    assert(s1.node(k) == s0.node(k));
                }
            }
            assert(q != leaf) by {
                if q != k {
                    assert(s0.is_pane(q));
                }
            }
            if q != k {
                assert(s0.children_of(q).contains(k as usize));
                if q == p {
                    let kj = choose|kj: int| 0 <= kj < ch0.len() && ch0[kj] == k as usize;
                    assert(kj != ci) by {
                        if kj == ci {
                            assert(ch0[ci] == leaf as usize);
                            assert(k as usize as int == k && leaf as usize as int == leaf);
                        }
                    }
                    if kj < ci {
                        assert(ch1[kj] == k as usize);
                    } else {
                        assert(ch1[kj - 1] == k as usize);
                    }
                    assert(ch1.contains(k as usize));
                } else {
                    assert(s1.node(q) == s0.node(q));
                }
            }
        }
        assert forall|k: int| #[trigger] s1.live(k) && s1.is_pane(k) implies {
            &&& s1.children_of(k).no_duplicates()
            &&& forall|j: int|
                0 <= j < s1.children_of(k).len() ==> {
                    &&& s1.live(#[trigger] s1.children_of(k)[j] as int)
                    &&& s1.parent_of(s1.children_of(k)[j] as int) == k
                    &&& Some(s1.children_of(k)[j]) != s1.root
                }
        } by {
            assert(s0.live(k) && k != leaf && s0.is_pane(k));
            if k == p {
                assert(ch1.no_duplicates()) by {
                    assert forall|a: int, b: int|
                        0 <= a < ch1.len() && 0 <= b < ch1.len() && a != b implies ch1[a]
                        != ch1[b] by {
                        let oa: int = if a < ci {
                            a
                        } else {
                            a + 1
                        };
                        let ob: int = if b < ci {
                            b
                        } else {
                            b + 1
                        };
                        assert(ch1[a] == ch0[oa] && ch1[b] == ch0[ob] && oa != ob);
                    }
                }
                assert forall|j: int| 0 <= j < ch1.len() implies {
                    &&& s1.live(#[trigger] ch1[j] as int)
                    &&& s1.parent_of(ch1[j] as int) == k
                    &&& Some(ch1[j]) != s1.root
                } by {
                    let oj: int = if j < ci {
                        j
                    } else {
                        j + 1
                    };
                    let c = ch0[oj];
                    assert(ch1[j] == c);
                    assert(s0.live(c as int) && s0.parent_of(c as int) == k && Some(c)
                        != s0.root);
                    assert(c as int != leaf) by {
                        if c as int == leaf {
                            assert(ch0[oj] == ch0[ci] && oj != ci);
                        }
                    }
                    assert(s1.parent_of(c as int) == k) by {
                        if c as int != p {
                            assert(s1.node(c as int) == s0.node(c as int));
                        }
                    }
                }
            } else {
                assert(s1.children_of(k) == s0.children_of(k));
                assert forall|j: int| 0 <= j < s1.children_of(k).len() implies {
                    &&& s1.live(#[trigger] s1.children_of(k)[j] as int)
                    &&& s1.parent_of(s1.children_of(k)[j] as int) == k
                    &&& Some(s1.children_of(k)[j]) != s1.root
                } by {
                    let c = s0.children_of(k)[j];
                    assert(s0.live(c as int) && s0.parent_of(c as int) == k && Some(c)
                        != s0.root);
                    assert(c as int != leaf) by {
                        if c as int == leaf {
                            assert(k == p);
                        }
                    }
                    assert(s1.parent_of(c as int) == k) by {
                        if c as int != p {
                            assert(s1.node(c as int) == s0.node(c as int));
                        }
                    }
                }
            }
        }
    }

    /// Removing a leaf keeps the client table well formed, the sizes
    /// right, and every other pane tiled.
    #[verifier::rlimit(100)]
    #[verifier::spinoff_prover]
    proof fn lemma_leaf_remove_rest(s0: &Self, s1: &Self, win: Window, i: int, leaf: int, p: int)
        requires
            s0.wf(),
            s0.nodes@.len() <= usize::MAX,
            Self::remove_surgery_rel(*s0, *s1, win, i, leaf, p),
            s0.clients@.len() >= 2,
            !s0.is_pane(leaf),
            s1.ord@ == s0.ord@.remove(s0.rank(leaf)),
            s1.wf_order(),
            s1.wf_parents(),
            s1.wf_children(),
        ensures
            s1.wf_struct(),
            s1.root_dims_ok(),
            forall|k: int| s1.live(k) && k != p ==> s1.pane_tiled(k),
    {
        Self::lemma_leaf_remove_clients(s0, s1, win, i, leaf, p);
        Self::lemma_leaf_remove_tiling(s0, s1, win, i, leaf, p);
        s0.lemma_rank_props(leaf);
        assert(s1.wf_root()) by {
            let rr = (s0.root)->0;
            assert(s0.live(rr as int));
            assert(rr as int != leaf) by {
                if rr as int == leaf {
                    assert(s0.parent_of(leaf) == leaf);
                }
            }
        }
    }

    /// Removing a leaf keeps the client table well formed.
    #[verifier::rlimit(100)]
    #[verifier::spinoff_prover]
    proof fn lemma_leaf_remove_clients(s0: &Self, s1: &Self, win: Window, i: int, leaf: int, p: int)
        requires
            s0.wf(),
            s0.nodes@.len() <= usize::MAX,
            Self::remove_surgery_rel(*s0, *s1, win, i, leaf, p),
            s0.clients@.len() >= 2,
            !s0.is_pane(leaf),
            s1.ord@ == s0.ord@.remove(s0.rank(leaf)),
        ensures
            s1.wf_clients(),
    {
        s0.clients@.remove_ensures(i);
        assert forall|a: int, b: int|
            0 <= a < s1.clients@.len() && 0 <= b < s1.clients@.len() && a != b implies (
        #[trigger] s1.clients@[a].0 != #[trigger] s1.clients@[b].0 && s1.clients@[a].1
            != s1.clients@[b].1) by {
            let oa: int = if a < i {
                a
            } else {
                a + 1
            };
            let ob: int = if b < i {
                b
            } else {
                b + 1
            };
            assert(s1.clients@[a] == s0.clients@[oa] && s1.clients@[b] == s0.clients@[ob] && oa
                != ob);
        }
        assert forall|a: int| 0 <= a < s1.clients@.len() implies {
            &&& s1.live(#[trigger] s1.clients@[a].1 as int)
            &&& !s1.is_pane(s1.clients@[a].1 as int)
            &&& s1.frame_of(s1.clients@[a].1 as int).win == s1.clients@[a].0
        } by {
            let oa: int = if a < i {
                a
            } else {
                a + 1
            };
            assert(s1.clients@[a] == s0.clients@[oa]);
            let k = s0.clients@[oa].1 as int;
            assert(s0.live(k) && !s0.is_pane(k) && s0.frame_of(k).win == s0.clients@[oa].0);
            assert(k != leaf) by {
                if k == leaf {
                    assert(s0.clients@[oa].1 == s0.clients@[i].1 && oa != i);
                }
            }
            assert(k != p);
            assert(s1.node(k) == s0.node(k));
        }
        assert forall|k: int| #[trigger] s1.live(k) && !s1.is_pane(k) implies exists|a: int|
            0 <= a < s1.clients@.len() && s1.clients@[a] == (s1.frame_of(k).win, k as usize) by {
            assert(s0.live(k) && k != leaf && !s0.is_pane(k));
            assert(k != p);
            assert(s1.node(k) == s0.node(k));
            let a = choose|a: int|
                0 <= a < s0.clients@.len() && s0.clients@[a] == (s0.frame_of(k).win, k as usize);
            assert(a != i) by {
                if a == i {
                    assert(s0.clients@[i].1 == k as usize);
                }
            }
            if a < i {
                assert(s1.clients@[a] == (s1.frame_of(k).win, k as usize));
            } else {
                assert(s1.clients@[a - 1] == (s1.frame_of(k).win, k as usize));
            }
        }
    }

    /// Removing a leaf keeps the root's rectangle and every other pane's
    /// tiling.
    #[verifier::rlimit(100)]
    #[verifier::spinoff_prover]
    proof fn lemma_leaf_remove_tiling(s0: &Self, s1: &Self, win: Window, i: int, leaf: int, p: int)
        requires
            s0.wf(),
            s0.nodes@.len() <= usize::MAX,
            Self::remove_surgery_rel(*s0, *s1, win, i, leaf, p),
            s0.clients@.len() >= 2,
            !s0.is_pane(leaf),
            s1.ord@ == s0.ord@.remove(s0.rank(leaf)),
        ensures
            s1.root_dims_ok(),
            forall|k: int| s1.live(k) && k != p ==> s1.pane_tiled(k),
    {
        assert(s1.root_dims_ok()) by {
            let rr = (s1.root)->0;
            assert(s1.dims_of(rr as int) == s0.dims_of(rr as int)) by {
                if rr as int != p {
                    assert(s1.node(rr as int) == s0.node(rr as int));
                }
            }
        }
        assert forall|k: int| s1.live(k) && k != p implies s1.pane_tiled(k) by {
            if s1.is_pane(k) && s1.children_of(k).len() > 0 {
                assert(s0.live(k) && k != leaf && s0.is_pane(k));
                assert(s1.node(k) == s0.node(k));
                assert(s0.pane_tiled(k));
                assert forall|j: int| 0 <= j < s1.children_of(k).len() implies s1.dims_of(
                    #[trigger] s1.children_of(k)[j] as int,
                ) == split_slot(
                    s1.dims_of(k),
                    s1.dir_of(k),
                    s1.children_of(k).len() as int,
                    s1.config.spec_gap_size() as int,
                    j,
                ) by {
                    let c = s0.children_of(k)[j];
                    assert(s0.live(c as int) && s0.parent_of(c as int) == k);
                    assert(c as int != leaf) by {
                        if c as int == leaf {
                            assert(k == p);
                        }
                    }
                    assert(s1.dims_of(c as int) == s0.dims_of(c as int)) by {
                        if c as int != p {
                            assert(s1.node(c as int) == s0.node(c as int));
                        }
                    }
                }
            }
        }
    }

    /// Remove a client window: surrender its frame, drop its leaf, move
    /// the focus to the most recently focused remaining client, retile the
    /// surviving pane. Removing the only client empties the tree and
    /// clears the focus.
    #[verifier::rlimit(100)]
    #[verifier::spinoff_prover]
    pub fn remove_client(&mut self, win: Window) -> (r: Result<Vec<XRequest>, XcrabError>)
        requires
            old(self).wf(),
        ensures
            final(self).wf(),
            !old(self).has_client_spec(win) ==> (r matches Err(e) && e
                == XcrabError::ClientDoesntExist && *final(self) == *old(self)),
            old(self).has_client_spec(win) ==> (r matches Ok(v) && Self::remove_post(
                *old(self),
                *final(self),
                win,
                v@,
            )),
            old(self).has_client_spec(win) && old(self).clients@.len() == 1
                ==> final(self).focused is None,
    {
        let ghost s0 = *self;
        let i = match self.client_index(win) {
            Some(i) => i,
            None => {
                return Err(XcrabError::ClientDoesntExist);
            },
        };
        let leaf = self.clients[i].1;
        let fw = {
            let node = self.get_node(leaf);
            match &node.contents {
                RectangleContents::Client(c) => c.frame,
                RectangleContents::Pane(_) => unreached(),
            }
        };
        let mut r = fw.unframe_requests();
        if self.clients.len() == 1 {
            self.nodes = Vec::new();
            self.clients.remove(i);
            self.focused = None;
            self.root = None;
            self.live_count = 0;
            let ghost empty_ord: Seq<usize> = Seq::empty();
            self.ord = Ghost(empty_ord);
            r.push(XRequest::SetInputFocus { window: None });
            proof {
                assert(self.clients@.len() == 0);
                assert(self.wf());
                assert(r@ =~= s0.frame_of(s0.clients@[0].1 as int).spec_unframe_requests() + seq![
                    XRequest::SetInputFocus { window: None },
                ]);
            }
            return Ok(r);
        }
        let (p, moved) = self.remove_surgery(win, i, leaf);
        let ghost focus_req: Seq<XRequest> = if i == 0 {
            seq![XRequest::SetInputFocus { window: Some(self.clients@[0].0) }]
        } else {
            Seq::<XRequest>::empty()
        };
        if moved {
            r.push(XRequest::SetInputFocus { window: self.focused });
        }
        let ghost smid = *self;
        let _touched = self.update_rectangle(p, None, Ghost(Set::empty()));
        let mut rr = self.collect_config_requests(p);
        r.append(&mut rr);
        proof {
            assert forall|k: int| #[trigger] self.live(k) implies self.pane_tiled(k) by {
                assert(!Set::<int>::empty().contains(k));
            }
            assert(self.wf());
            assert(s0.live(p as int));
            Self::lemma_remove_rel_weaken(
                &s0,
                &smid,
                self,
                win,
                i as int,
                leaf as int,
                p as int,
            );
            assert(self.clients@[0].0 == smid.clients@[0].0);
            assert(r@ =~= s0.frame_of(leaf as int).spec_unframe_requests() + focus_req
                + self.subtree_reqs(p as int));
            assert(Self::remove_post(s0, *self, win, r@));
        }
        Ok(r)
    }

    /// The arena surgery of a removal: drop the leaf from its pane and the
    /// arena, drop the client entry, move the focus to the table's head.
    /// Returns the surviving pane, and whether the focus moved.
    #[verifier::rlimit(100)]
    #[verifier::spinoff_prover]
    fn remove_surgery(&mut self, win: Window, i: usize, leaf: usize) -> (out: (usize, bool))
        requires
            old(self).wf(),
            old(self).clients@.len() >= 2,
            0 <= i < old(self).clients@.len(),
            old(self).clients@[i as int].0 == win,
            leaf == old(self).clients@[i as int].1,
        ensures
            final(self).wf_struct(),
            final(self).root_dims_ok(),
            forall|k: int| final(self).live(k) && k != out.0 as int ==> final(self).pane_tiled(k),
            final(self).live(out.0 as int),
            Self::remove_surgery_rel(
                *old(self),
                *final(self),
                win,
                i as int,
                leaf as int,
                out.0 as int,
            ),
            out.0 as int == old(self).parent_of(leaf as int),
            out.1 == (i == 0),
    {
        let nodes_len = self.nodes.len();
        proof {
            assert(self.nodes@.len() <= usize::MAX);
        }
        let ghost s0 = *self;
        let p = self.get_node(leaf).parent;
        proof {
            if p == leaf {
                assert(s0.root == Some(leaf));
                s0.lemma_root_leaf_singleton();
            }
            assert(s0.children_of(p as int).contains(leaf));
        }
        let ci = {
            let node = self.get_node(p);
            match &node.contents {
                RectangleContents::Pane(pp) => position_of(&pp.children, leaf),
                RectangleContents::Client(_) => unreached(),
            }
        };
        let mut prect = self.take_node(p);
        match &mut prect.contents {
            RectangleContents::Pane(pp) => {
                pp.children.remove(ci);
            },
            RectangleContents::Client(_) => {
                proof {
                    assert(false);
                }
            },
        }
        self.put_node(p, prect);
        let _dead = self.take_node(leaf);
        self.live_count = self.live_count - 1;
        proof {
            s0.lemma_rank_props(leaf as int);
        }
        self.ord = Ghost(self.ord@.remove(s0.rank(leaf as int)));
        self.clients.remove(i);
        let moved = i == 0;
        if moved {
            self.focused = Some(self.clients[0].0);
        }
        proof {
            assert(i != 0 ==> self.focused == Some(self.clients@[0].0)) by {
                if i != 0 {
                    assert(self.clients@[0] == s0.clients@[0]);
                }
            }
            assert(self.nodes@.len() == s0.nodes@.len());
            assert forall|k: int| 0 <= k < s0.nodes@.len() && k != leaf as int implies (
            #[trigger] s0.live(k) <==> #[trigger] self.live(k)) by {
                if k != p as int {
                    assert(self.nodes@[k] == s0.nodes@[k]);
                }
            }
            assert forall|k: int|
                #![trigger s0.node(k)]
                #![trigger self.node(k)]
                s0.live(k) && k != leaf as int && k != p as int implies self.node(k) == s0.node(
                k,
            ) by {
                assert(self.nodes@[k] == s0.nodes@[k]);
            }
            let ch0 = s0.children_of(p as int);
            assert(ch0.index_of(leaf) == ci as int) by {
                let cx = ch0.index_of(leaf);
                assert(ch0.contains(leaf));
                assert(0 <= cx < ch0.len() && ch0[cx] == leaf);
                assert(ch0.no_duplicates());
            }
            assert(Self::remove_surgery_rel(s0, *self, win, i as int, leaf as int, p as int));
            Self::lemma_leaf_remove_order(&s0, self, win, i as int, leaf as int, p as int);
            Self::lemma_leaf_remove_nodes(&s0, self, win, i as int, leaf as int, p as int);
            Self::lemma_leaf_remove_rest(&s0, self, win, i as int, leaf as int, p as int);
        }
        (p, moved)
    }

    /// When the arena, the order and the root do not change at all, all
    /// the node-side invariants carry over.
    #[verifier::rlimit(100)]
    proof fn lemma_nodes_identical_parts(s0: &Self, s1: &Self)
        requires
            s0.wf(),
            s1.nodes@ == s0.nodes@,
            s1.root == s0.root,
            s1.ord == s0.ord,
            s1.config == s0.config,
        ensures
            s1.wf_root(),
            s1.wf_parents(),
            s1.wf_children(),
            s1.wf_order(),
            forall|k: int| #[trigger] s1.live(k) ==> s1.pane_tiled(k),
    {
        assert forall|k: int| 0 <= k < s0.nodes@.len() implies (#[trigger] s0.live(k)
            <==> #[trigger] s1.live(k)) by {}
        assert forall|k: int|
            #![trigger s0.node(k)]
            #![trigger s1.node(k)]
            0 <= k < s0.nodes@.len() implies s1.node(k) == s0.node(k) by {}
        assert forall|k: int| #[trigger] s1.live(k) implies s1.pane_tiled(k) by {
            assert(s0.live(k));
            assert(s0.pane_tiled(k));
            assert(s1.node(k) == s0.node(k));
            if s1.is_pane(k) && s1.children_of(k).len() > 0 {
                assert forall|j: int| 0 <= j < s1.children_of(k).len() implies s1.dims_of(
                    #[trigger] s1.children_of(k)[j] as int,
                ) == split_slot(
                    s1.dims_of(k),
                    s1.dir_of(k),
                    s1.children_of(k).len() as int,
                    s1.config.spec_gap_size() as int,
                    j,
                ) by {
                    let c = s0.children_of(k)[j];
                    assert(s0.live(c as int));
                    assert(s1.node(c as int) == s0.node(c as int));
                }
            }
        }
        assert forall|k: int| #[trigger] s1.live(k) implies {
            &&& s1.live(s1.parent_of(k))
            &&& (s1.parent_of(k) == k <==> s1.root == Some(k as usize))
            &&& (s1.parent_of(k) != k ==> s1.is_pane(s1.parent_of(k)) && s1.children_of(
                s1.parent_of(k),
            ).contains(k as usize))
        } by {
            assert(s0.live(k));
            assert(s1.node(k) == s0.node(k));
            let q = s0.parent_of(k);
            assert(s0.live(q));
            assert(s1.node(q) == s0.node(q));
        }
        assert forall|k: int| #[trigger] s1.live(k) && s1.is_pane(k) implies {
            &&& s1.children_of(k).no_duplicates()
            &&& forall|j: int|
                0 <= j < s1.children_of(k).len() ==> {
                    &&& s1.live(#[trigger] s1.children_of(k)[j] as int)
                    &&& s1.parent_of(s1.children_of(k)[j] as int) == k
                    &&& Some(s1.children_of(k)[j]) != s1.root
                }
        } by {
            assert(s0.live(k));
            assert(s1.node(k) == s0.node(k));
            assert forall|j: int| 0 <= j < s1.children_of(k).len() implies {
                &&& s1.live(#[trigger] s1.children_of(k)[j] as int)
                &&& s1.parent_of(s1.children_of(k)[j] as int) == k
                &&& Some(s1.children_of(k)[j]) != s1.root
            } by {
                let c = s0.children_of(k)[j];
                assert(s0.live(c as int) && s0.parent_of(c as int) == k && Some(c) != s0.root);
                assert(s1.node(c as int) == s0.node(c as int));
            }
        }
        assert forall|j: int| 0 <= j < s1.ord@.len() implies s1.live(#[trigger] s1.ord@[j] as int) by {
            assert(s0.live(s0.ord@[j] as int));
        }
        assert(s1.ord@ == s0.ord@);
        assert forall|k: int| #[trigger] s1.live(k) implies s1.ord@.contains(k as usize) by {
            assert(s0.live(k));
            assert(s0.ord@.contains(k as usize));
            let j = choose|j: int| 0 <= j < s0.ord@.len() && s0.ord@[j] == k as usize;
            assert(s1.ord@[j] == k as usize);
        }
        assert forall|j: int| 1 <= j < s1.ord@.len() implies {
            &&& s1.parent_of(#[trigger] s1.ord@[j] as int) != s1.ord@[j] as int
            &&& exists|j2: int| 0 <= j2 < j && s1.ord@[j2] as int == s1.parent_of(s1.ord@[j] as int)
        } by {
            assert(s0.live(s0.ord@[j] as int));
            assert(s1.node(s0.ord@[j] as int) == s0.node(s0.ord@[j] as int));
            let j2 = choose|j2: int|
                0 <= j2 < j && s0.ord@[j2] as int == s0.parent_of(s0.ord@[j] as int);
            assert(s1.ord@[j2] as int == s1.parent_of(s1.ord@[j] as int));
        }
        assert(s1.wf_root()) by {
            match s1.root {
                None => {
                    assert forall|k: int| !(#[trigger] s1.live(k)) by {
                        if s1.live(k) {
                            assert(s0.live(k));
                        }
                    }
                },
                Some(rr) => {
                    assert(s0.live(rr as int));
                    assert(s1.node(rr as int) == s0.node(rr as int));
                },
            }
        }
        assert(s1.ord@.no_duplicates()) by {
            assert(s0.ord@.no_duplicates());
        }
        assert(s1.root matches Some(rr2) ==> s1.ord@.len() > 0 && s1.ord@[0] == rr2) by {
            assert(s0.root matches Some(rr3) ==> s0.ord@.len() > 0 && s0.ord@[0] == rr3);
        }
        assert(s1.ord@.no_duplicates());
        assert(forall|j: int| 0 <= j < s1.ord@.len() ==> s1.live(#[trigger] s1.ord@[j] as int));
        assert(forall|k: int| #[trigger] s1.live(k) ==> s1.ord@.contains(k as usize));
        assert(s1.root matches Some(rr4) ==> s1.ord@.len() > 0 && s1.ord@[0] == rr4);
        assert(forall|j: int|
            1 <= j < s1.ord@.len() ==> {
                &&& s1.parent_of(#[trigger] s1.ord@[j] as int) != s1.ord@[j] as int
                &&& exists|j2: int|
                    0 <= j2 < j && s1.ord@[j2] as int == s1.parent_of(s1.ord@[j] as int)
            });
        Self::lemma_wf_order_from_parts(s1);
    }

    /// The order invariant assembled from its clauses.
    proof fn lemma_wf_order_from_parts(s1: &Self)
        requires
            s1.ord@.no_duplicates(),
            forall|j: int| 0 <= j < s1.ord@.len() ==> s1.live(#[trigger] s1.ord@[j] as int),
            forall|k: int| #[trigger] s1.live(k) ==> s1.ord@.contains(k as usize),
            s1.root matches Some(rr5) ==> s1.ord@.len() > 0 && s1.ord@[0] == rr5,
            forall|j: int|
                1 <= j < s1.ord@.len() ==> {
                    &&& s1.parent_of(#[trigger] s1.ord@[j] as int) != s1.ord@[j] as int
                    &&& exists|j2: int|
                        0 <= j2 < j && s1.ord@[j2] as int == s1.parent_of(s1.ord@[j] as int)
                },
        ensures
            s1.wf_order(),
    {
    }

    /// Swapping the head of the client table with entry `i` and focusing
    /// the swapped-in window keeps the invariant; nothing else changed.
    #[verifier::rlimit(100)]
    #[verifier::spinoff_prover]
    proof fn lemma_focus_swap_wf(s0: &Self, s1: &Self, win: Window, i: int)
        requires
            s0.wf(),
            0 <= i < s0.clients@.len(),
            s0.clients@[i].0 == win,
            s1.nodes@ == s0.nodes@,
            s1.clients@ == s0.clients@.update(0, s0.clients@[i]).update(i, s0.clients@[0]),
            s1.focused == Some(win),
            s1.root == s0.root,
            s1.live_count == s0.live_count,
            s1.config == s0.config,
            s1.screen == s0.screen,
            s1.ord == s0.ord,
        ensures
            s1.wf(),
    {
        Self::lemma_nodes_identical_parts(s0, s1);
        assert(s1.clients@.len() == s0.clients@.len());
        assert forall|a: int| 0 <= a < s1.clients@.len() implies s1.clients@[a] == s0.clients@[
            if a == 0 {
                i
            } else if a == i {
                0int
            } else {
                a
            }
        ] by {}
        assert forall|a: int, b: int|
            0 <= a < s1.clients@.len() && 0 <= b < s1.clients@.len() && a != b implies (
        #[trigger] s1.clients@[a].0 != #[trigger] s1.clients@[b].0 && s1.clients@[a].1
            != s1.clients@[b].1) by {
            let oa: int = if a == 0 {
                i
            } else if a == i {
                0int
            } else {
                a
            };
            let ob: int = if b == 0 {
                i
            } else if b == i {
                0int
            } else {
                b
            };
            assert(s1.clients@[a] == s0.clients@[oa] && s1.clients@[b] == s0.clients@[ob] && oa
                != ob);
        }
        assert forall|a: int| 0 <= a < s1.clients@.len() implies {
            &&& s1.live(#[trigger] s1.clients@[a].1 as int)
            &&& !s1.is_pane(s1.clients@[a].1 as int)
            &&& s1.frame_of(s1.clients@[a].1 as int).win == s1.clients@[a].0
        } by {
            let oa: int = if a == 0 {
                i
            } else if a == i {
                0int
            } else {
                a
            };
            assert(s1.clients@[a] == s0.clients@[oa]);
            assert(s0.live(s0.clients@[oa].1 as int));
            assert(s1.node(s0.clients@[oa].1 as int) == s0.node(s0.clients@[oa].1 as int));
        }
        assert forall|k: int| #[trigger] s1.live(k) && !s1.is_pane(k) implies exists|a: int|
            0 <= a < s1.clients@.len() && s1.clients@[a] == (s1.frame_of(k).win, k as usize) by {
            assert(s0.live(k) && !s0.is_pane(k));
            assert(s1.node(k) == s0.node(k));
            let a0 = choose|a0: int|
                0 <= a0 < s0.clients@.len() && s0.clients@[a0] == (s0.frame_of(k).win, k as usize);
            let a1: int = if a0 == 0 {
                i
            } else if a0 == i {
                0int
            } else {
                a0
            };
            assert(s1.clients@[a1] == s0.clients@[a0]);
        }
        assert(s1.wf_clients());
        assert(s1.wf_focus());
        assert(s1.wf_struct());
    }

    /// The emitted requests depend only on the arena, the focus and the
    /// configuration: two states agreeing on those agree on every
    /// subtree's requests.
    proof fn lemma_subtree_reqs_congruent(a: &Self, b: &Self, k: int)
        requires
            a.wf_struct(),
            b.wf_struct(),
            a.nodes@ == b.nodes@,
            a.focused == b.focused,
            a.config == b.config,
            a.ord == b.ord,
            a.live(k),
        ensures
            a.subtree_reqs(k) == b.subtree_reqs(k),
        decreases a.ord@.len() - a.rank(k), 1int, 0int,
    {
        a.lemma_rank_props(k);
        assert(b.node(k) == a.node(k));
        match a.node(k).contents {
            RectangleContents::Client(c) => {},
            RectangleContents::Pane(p) => {
                Self::lemma_children_reqs_congruent(a, b, k, p.children@.len() as int);
            },
        }
    }

    proof fn lemma_children_reqs_congruent(a: &Self, b: &Self, k: int, j: int)
        requires
            a.wf_struct(),
            b.wf_struct(),
            a.nodes@ == b.nodes@,
            a.focused == b.focused,
            a.config == b.config,
            a.ord == b.ord,
            a.live(k),
            a.is_pane(k),
            0 <= j <= a.children_of(k).len(),
        ensures
            a.children_reqs(k, j) == b.children_reqs(k, j),
        decreases a.ord@.len() - a.rank(k), 0int, j,
    {
        a.lemma_rank_props(k);
        assert(b.node(k) == a.node(k));
        if j > 0 {
            Self::lemma_children_reqs_congruent(a, b, k, j - 1);
            let c = a.children_of(k)[j - 1];
            assert(a.live(c as int) && a.parent_of(c as int) == k && Some(c) != a.root);
            a.lemma_child_rank(k, c as int);
            Self::lemma_subtree_reqs_congruent(a, b, c as int);
        }
    }

    /// Focusing the same window again changes nothing and reissues the
    /// same requests: the swap finds the window already at the head of the
    /// table, the arena was never touched, and the requests are a function
    /// of the arena, the focus and the configuration alone.
    pub proof fn lemma_set_focus_idempotent(
        s0: Self,
        s1: Self,
        s2: Self,
        win: Window,
        r1: Seq<XRequest>,
        r2: Seq<XRequest>,
    )
        requires
            s0.wf(),
            s1.wf(),
            s2.wf(),
            Self::set_focus_post(s0, s1, win, r1),
            Self::set_focus_post(s1, s2, win, r2),
        ensures
            s2.clients@ == s1.clients@,
            s2.nodes@ == s1.nodes@,
            s2.focused == s1.focused,
            s2.root == s1.root,
            s2.ord == s1.ord,
            r2 == r1,
    {
        let i = choose|i: int|
            {
                &&& 0 <= i < s0.clients@.len()
                &&& #[trigger] s0.clients@[i].0 == win
                &&& s1.clients@ == s0.clients@.update(0, s0.clients@[i]).update(i, s0.clients@[0])
                &&& r1 == seq![XRequest::SetInputFocus { window: Some(win) }] + s1.subtree_reqs(
                    s1.parent_of(s0.clients@[i].1 as int),
                )
            };
        let i2 = choose|i2: int|
            {
                &&& 0 <= i2 < s1.clients@.len()
                &&& #[trigger] s1.clients@[i2].0 == win
                &&& s2.clients@ == s1.clients@.update(0, s1.clients@[i2]).update(
                    i2,
                    s1.clients@[0],
                )
                &&& r2 == seq![XRequest::SetInputFocus { window: Some(win) }] + s2.subtree_reqs(
                    s2.parent_of(s1.clients@[i2].1 as int),
                )
            };
        // the window is already at the head after the first call
        assert(s1.clients@[0] == s0.clients@[i]);
        assert(i2 == 0) by {
            if i2 != 0 {
                assert(s1.clients@[0].0 == win && s1.clients@[i2].0 == win);
            }
        }
        assert(s2.clients@ =~= s1.clients@);
        let leaf = s0.clients@[i].1 as int;
        assert(s1.clients@[0].1 as int == leaf);
        assert(s2.node(leaf) == s1.node(leaf)) by {
            assert(s0.live(leaf));
        }
        let p = s1.parent_of(leaf);
        assert(s2.parent_of(leaf) == p);
        assert(s1.live(p)) by {
            assert(s1.live(leaf));
        }
        Self::lemma_subtree_reqs_congruent(&s1, &s2, p);
        assert(r2 == r1);
    }

    /// The whole contract of focusing a client: the window swaps with the
    /// head of the table, the arena itself is untouched, and the result is
    /// exactly one focus publication followed by the border-refreshing
    /// configure requests under the focused leaf's pane.
    pub open spec fn set_focus_post(s0: Self, s1: Self, win: Window, r: Seq<XRequest>) -> bool {
        &&& exists|i: int|
            {
                &&& 0 <= i < s0.clients@.len()
                &&& #[trigger] s0.clients@[i].0 == win
                &&& s1.clients@ == s0.clients@.update(0, s0.clients@[i]).update(
                    i,
                    s0.clients@[0],
                )
                &&& r == seq![XRequest::SetInputFocus { window: Some(win) }] + s1.subtree_reqs(
                    s1.parent_of(s0.clients@[i].1 as int),
                )
            }
        &&& s1.nodes@ == s0.nodes@
        &&& s1.focused == Some(win)
        &&& s1.root == s0.root
        &&& s1.live_count == s0.live_count
        &&& s1.config == s0.config
        &&& s1.screen == s0.screen
        &&& s1.ord == s0.ord
    }

    /// Focus a client: bring it to the head of the table, tell X, and
    /// retile its pane so the border colors follow.
    #[verifier::rlimit(100)]
    #[verifier::spinoff_prover]
    pub fn set_focus(&mut self, win: Window) -> (r: Result<Vec<XRequest>, XcrabError>)
        requires
            old(self).wf(),
        ensures
            final(self).wf(),
            !old(self).has_client_spec(win) ==> (r matches Err(e) && e
                == XcrabError::ClientDoesntExist && *final(self) == *old(self)),
            old(self).has_client_spec(win) ==> (r matches Ok(v) && Self::set_focus_post(
                *old(self),
                *final(self),
                win,
                v@,
            )),
    {
        let ghost s0 = *self;
        let i = match self.client_index(win) {
            Some(i) => i,
            None => {
                return Err(XcrabError::ClientDoesntExist);
            },
        };
        let leaf = self.clients[i].1;
        let head = self.clients[0];
        let entry = self.clients[i];
        self.clients.set(0, entry);
        self.clients.set(i, head);
        self.focused = Some(win);
        proof {
            Self::lemma_focus_swap_wf(&s0, self, win, i as int);
        }
        let mut r: Vec<XRequest> = Vec::new();
        r.push(XRequest::SetInputFocus { window: self.focused });
        let p = self.get_node(leaf).parent;
        let mut rr = self.collect_config_requests(p);
        r.append(&mut rr);
        proof {
            assert(r@ =~= seq![XRequest::SetInputFocus { window: Some(win) }]
                + self.subtree_reqs(self.parent_of(s0.clients@[i as int].1 as int)));
            assert(Self::set_focus_post(s0, *self, win, r@));
        }
        Ok(r)
    }

    /// Close the focused client, if any: remove it from the tree first, so
    /// the following unmap notification finds nothing, then ask the caller
    /// to kill the remembered frame.
    pub fn destroy_focused_client(&mut self) -> (r: Vec<XRequest>)
        requires
            old(self).wf(),
        ensures
            final(self).wf(),
            Self::destroy_post(*old(self), *final(self), r@),
            final(self).config == old(self).config,
            final(self).screen == old(self).screen,
    {
        let focused = match self.focused {
            Some(f) => f,
            None => {
                return Vec::new();
            },
        };
        let leaf = self.clients[0].1;
        let fw = {
            let node = self.get_node(leaf);
            match &node.contents {
                RectangleContents::Client(c) => c.frame,
                RectangleContents::Pane(_) => unreached(),
            }
        };
        proof {
            assert(self.clients@[0].0 == focused);
            assert(self.has_client_spec(focused));
        }
        let mut r = match self.remove_client(focused) {
            Ok(v) => v,
            Err(_) => unreached(),
        };
        let ghost before_kill = r@;
        r.push(XRequest::KillClient { frame: fw.frame, win: fw.win });
        proof {
            assert(r@.take(r@.len() - 1) =~= before_kill);
        }
        r
    }
}

/// The position of `x` in `v`.
fn position_of(v: &Vec<usize>, x: usize) -> (r: usize)
    requires
        v@.contains(x),
    ensures
        0 <= r < v@.len(),
        r < usize::MAX,
        v@[r as int] == x,
        forall|j: int| 0 <= j < r ==> v@[j] != x,
{
    let mut i: usize = 0;
    while i < v.len()
        invariant
            0 <= i <= v@.len(),
            v@.contains(x),
            forall|j: int| 0 <= j < i ==> v@[j] != x,
        decreases v@.len() - i,
    {
        if v[i] == x {
            proof {
                assert(i < v@.len() && v@.len() <= usize::MAX);
            }
            return i;
        }
        i = i + 1;
    }
    proof {
        assert(false);
    }
    0
}

/// Copy a list of node handles.
fn copy_children(v: &Vec<usize>) -> (r: Vec<usize>)
    ensures
        r@ == v@,
{
    let mut r: Vec<usize> = Vec::new();
    let mut i: usize = 0;
    while i < v.len()
        invariant
            0 <= i <= v@.len(),
            r@ == v@.subrange(0, i as int),
        decreases v@.len() - i,
    {
        r.push(v[i]);
        i = i + 1;
    }
    proof {
        assert(r@ =~= v@);
    }
    r
}

} // verus!
