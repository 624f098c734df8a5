//! The profiling tab: three call trees and the selection between their boxes, laid out
//! as
//!   initialize        (top, full width)
//!   frame    gpu      (bottom, side by side)
pub mod tree;
pub mod walk;

use vstd::prelude::*;
use crate::log_parser::ProfileNode;
use tree::{collapse_result, down_cursor, expand_result, load_result, same_tree, toggle_result, up_cursor, CallTree};

verus! {

/// The three boxes of the tab.
#[derive(Clone, Copy, PartialEq, Eq, Debug, Structural)]
pub enum ProfBlock {
    Initialize,
    Frame,
    Gpu,
}

/// State of the profiling tab: the selected box, the zoom, and the call trees
/// (initialisation, sampled frame, GPU timings).
pub struct ProfilingState {
    selected: ProfBlock,
    zoomed: bool,
    initialize: CallTree,
    frame: CallTree,
    gpu: CallTree,
}

/// Row of a box in the tab's grid: `initialize` spans the top row, `frame` (left) and
/// `gpu` (right) share the bottom one.
pub open spec fn block_row(b: ProfBlock) -> int {
    if b == ProfBlock::Initialize {
        0
    } else {
        1
    }
}

/// The grid moves: up always reaches `initialize`, the only box of the top row; down
/// reaches the bottom row, entering it at `frame` and staying put inside it; left and
/// right stay in their row, only `gpu` having a box on its left and only `frame` one on
/// its right; left undoes right from `frame`, and right undoes left from `gpu`.
pub proof fn law_block_moves_follow_the_grid(b: ProfBlock)
    ensures
        block_above(b) == ProfBlock::Initialize,
        block_row(block_below(b)) == 1,
        block_row(b) == 1 ==> block_below(b) == b,
        b == ProfBlock::Initialize ==> block_below(b) == ProfBlock::Frame,
        block_row(block_left_of(b)) == block_row(b),
        block_row(block_right_of(b)) == block_row(b),
        block_left_of(b) != ProfBlock::Gpu,
        block_right_of(b) != ProfBlock::Frame,
        b != ProfBlock::Gpu ==> block_left_of(b) == b,
        b != ProfBlock::Frame ==> block_right_of(b) == b,
        b == ProfBlock::Frame ==> block_left_of(block_right_of(b)) == b,
        b == ProfBlock::Gpu ==> block_right_of(block_left_of(b)) == b,
{
}

/// The box above, below, left and right of each box; staying put where there is none.
pub open spec fn block_above(b: ProfBlock) -> ProfBlock {
    match b {
        ProfBlock::Frame | ProfBlock::Gpu => ProfBlock::Initialize,
        ProfBlock::Initialize => ProfBlock::Initialize,
    }
}

pub open spec fn block_below(b: ProfBlock) -> ProfBlock {
    match b {
        ProfBlock::Initialize => ProfBlock::Frame,
        _ => b,
    }
}

pub open spec fn block_left_of(b: ProfBlock) -> ProfBlock {
    match b {
        ProfBlock::Gpu => ProfBlock::Frame,
        _ => b,
    }
}

pub open spec fn block_right_of(b: ProfBlock) -> ProfBlock {
    match b {
        ProfBlock::Frame => ProfBlock::Gpu,
        _ => b,
    }
}

impl ProfilingState {
    pub closed spec fn spec_selected(&self) -> ProfBlock {
        self.selected
    }

    pub closed spec fn spec_zoomed(&self) -> bool {
        self.zoomed
    }

    pub closed spec fn spec_initialize(&self) -> CallTree {
        self.initialize
    }

    pub closed spec fn spec_frame(&self) -> CallTree {
        self.frame
    }

    pub closed spec fn spec_gpu(&self) -> CallTree {
        self.gpu
    }

    /// The tree of box `b`.
    pub open spec fn tree_of(&self, b: ProfBlock) -> CallTree {
        match b {
            ProfBlock::Initialize => self.spec_initialize(),
            ProfBlock::Frame => self.spec_frame(),
            ProfBlock::Gpu => self.spec_gpu(),
        }
    }

    /// The tree of the selected box.
    pub open spec fn selected_tree(&self) -> CallTree {
        self.tree_of(self.spec_selected())
    }

    pub open spec fn wf(&self) -> bool {
        &&& self.spec_initialize().wf()
        &&& self.spec_frame().wf()
        &&& self.spec_gpu().wf()
    }

    /// `other` has the same selection, zoom and trees, but for the tree of box `b`.
    pub open spec fn same_but(&self, other: ProfilingState, b: ProfBlock) -> bool {
        &&& other.spec_selected() == self.spec_selected()
        &&& other.spec_zoomed() == self.spec_zoomed()
        &&& forall|x: ProfBlock| x != b ==> #[trigger] other.tree_of(x) == self.tree_of(x)
    }

    /// `other` has the same trees and zoom.
    pub open spec fn same_trees(&self, other: ProfilingState) -> bool {
        &&& other.spec_zoomed() == self.spec_zoomed()
        &&& other.spec_initialize() == self.spec_initialize()
        &&& other.spec_frame() == self.spec_frame()
        &&& other.spec_gpu() == self.spec_gpu()
    }

    /// `initialize` selected, no zoom, empty trees.
    pub fn new() -> (r: ProfilingState)
        ensures
            r.wf(),
            r.spec_selected() == ProfBlock::Initialize,
            !r.spec_zoomed(),
            r.spec_initialize().spec_nodes().len() == 0,
            r.spec_frame().spec_nodes().len() == 0,
            r.spec_gpu().spec_nodes().len() == 0,
    {
        ProfilingState {
            selected: ProfBlock::Initialize,
            zoomed: false,
            initialize: CallTree::new(),
            frame: CallTree::new(),
            gpu: CallTree::new(),
        }
    }

    /// Loads the whole initialisation tree received from the engine.
    pub fn load_init(&mut self, nodes: Vec<ProfileNode>)
        requires
            old(self).wf(),
        ensures
            final(self).wf(),
            old(self).same_but(*final(self), ProfBlock::Initialize),
            load_result(old(self).spec_initialize(), final(self).spec_initialize(), nodes@),
    {
        self.initialize.load(nodes);
    }

    /// Loads the tree of the last sampled frame (sent periodically).
    pub fn load_frame(&mut self, nodes: Vec<ProfileNode>)
        requires
            old(self).wf(),
        ensures
            final(self).wf(),
            old(self).same_but(*final(self), ProfBlock::Frame),
            load_result(old(self).spec_frame(), final(self).spec_frame(), nodes@),
    {
        self.frame.load(nodes);
    }

    /// Loads the tree of GPU timings (sent regularly).
    pub fn load_gpu(&mut self, nodes: Vec<ProfileNode>)
        requires
            old(self).wf(),
        ensures
            final(self).wf(),
            old(self).same_but(*final(self), ProfBlock::Gpu),
            load_result(old(self).spec_gpu(), final(self).spec_gpu(), nodes@),
    {
        self.gpu.load(nodes);
    }

    /// `↑` in the tree of the selected box.
    pub fn tree_up(&mut self)
        requires
            old(self).wf(),
        ensures
            final(self).wf(),
            old(self).same_but(*final(self), old(self).spec_selected()),
            same_tree(final(self).selected_tree(), old(self).selected_tree()),
            final(self).selected_tree().spec_cursor() == up_cursor(old(self).selected_tree()),
    {
        match self.selected {
            ProfBlock::Initialize => self.initialize.move_up(),
            ProfBlock::Frame => self.frame.move_up(),
            ProfBlock::Gpu => self.gpu.move_up(),
        }
    }

    /// `↓` in the tree of the selected box.
    pub fn tree_down(&mut self)
        requires
            old(self).wf(),
        ensures
            final(self).wf(),
            old(self).same_but(*final(self), old(self).spec_selected()),
            same_tree(final(self).selected_tree(), old(self).selected_tree()),
            final(self).selected_tree().spec_cursor() == down_cursor(old(self).selected_tree()),
    {
        match self.selected {
            ProfBlock::Initialize => self.initialize.move_down(),
            ProfBlock::Frame => self.frame.move_down(),
            ProfBlock::Gpu => self.gpu.move_down(),
        }
    }

    /// `←` in the tree of the selected box: folds, or goes to the parent.
    pub fn tree_left(&mut self)
        requires
            old(self).wf(),
        ensures
            final(self).wf(),
            old(self).same_but(*final(self), old(self).spec_selected()),
            collapse_result(old(self).selected_tree(), final(self).selected_tree()),
    {
        match self.selected {
            ProfBlock::Initialize => self.initialize.collapse(),
            ProfBlock::Frame => self.frame.collapse(),
            ProfBlock::Gpu => self.gpu.collapse(),
        }
    }

    /// `→` in the tree of the selected box: unfolds, or goes to the first child.
    pub fn tree_right(&mut self)
        requires
            old(self).wf(),
        ensures
            final(self).wf(),
            old(self).same_but(*final(self), old(self).spec_selected()),
            expand_result(old(self).selected_tree(), final(self).selected_tree()),
    {
        match self.selected {
            ProfBlock::Initialize => self.initialize.expand(),
            ProfBlock::Frame => self.frame.expand(),
            ProfBlock::Gpu => self.gpu.expand(),
        }
    }

    /// `⏎` in the tree of the selected box: toggles the folding.
    pub fn on_toggle(&mut self)
        requires
            old(self).wf(),
        ensures
            final(self).wf(),
            old(self).same_but(*final(self), old(self).spec_selected()),
            toggle_result(old(self).selected_tree(), final(self).selected_tree()),
    {
        match self.selected {
            ProfBlock::Initialize => self.initialize.toggle(),
            ProfBlock::Frame => self.frame.toggle(),
            ProfBlock::Gpu => self.gpu.toggle(),
        }
    }

    /// Selects the box above (`initialize` from `frame` or `gpu`).
    pub fn block_up(&mut self)
        ensures
            old(self).same_trees(*final(self)),
            final(self).spec_selected() == block_above(old(self).spec_selected()),
            final(self).spec_selected() == ProfBlock::Initialize,
    {
        if matches!(self.selected, ProfBlock::Frame | ProfBlock::Gpu) {
            self.selected = ProfBlock::Initialize;
        }
    }

    /// Selects the box below (`frame` from `initialize`).
    pub fn block_down(&mut self)
        ensures
            old(self).same_trees(*final(self)),
            final(self).spec_selected() == block_below(old(self).spec_selected()),
            block_row(final(self).spec_selected()) == 1,
            old(self).spec_selected() == ProfBlock::Initialize ==> final(self).spec_selected()
                == ProfBlock::Frame,
            old(self).spec_selected() != ProfBlock::Initialize ==> final(self).spec_selected()
                == old(self).spec_selected(),
    {
        if self.selected == ProfBlock::Initialize {
            self.selected = ProfBlock::Frame;
        }
    }

    /// Selects the box on the left (`frame` from `gpu`).
    pub fn block_left(&mut self)
        ensures
            old(self).same_trees(*final(self)),
            final(self).spec_selected() == block_left_of(old(self).spec_selected()),
            final(self).spec_selected() != ProfBlock::Gpu,
            block_row(final(self).spec_selected()) == block_row(old(self).spec_selected()),
            old(self).spec_selected() != ProfBlock::Gpu ==> final(self).spec_selected() == old(
                self,
            ).spec_selected(),
    {
        if self.selected == ProfBlock::Gpu {
            self.selected = ProfBlock::Frame;
        }
    }

    /// Selects the box on the right (`gpu` from `frame`).
    pub fn block_right(&mut self)
        ensures
            old(self).same_trees(*final(self)),
            final(self).spec_selected() == block_right_of(old(self).spec_selected()),
            final(self).spec_selected() != ProfBlock::Frame,
            block_row(final(self).spec_selected()) == block_row(old(self).spec_selected()),
            old(self).spec_selected() != ProfBlock::Frame ==> final(self).spec_selected() == old(
                self,
            ).spec_selected(),
    {
        if self.selected == ProfBlock::Frame {
            self.selected = ProfBlock::Gpu;
        }
    }

    /// The grid moves under their first names: `move_up` is `block_up`.
    pub fn move_up(&mut self)
        ensures
            old(self).same_trees(*final(self)),
            final(self).spec_selected() == block_above(old(self).spec_selected()),
            final(self).spec_selected() == ProfBlock::Initialize,
    {
        self.block_up();
    }

    /// `move_down` is `block_down`.
    pub fn move_down(&mut self)
        ensures
            old(self).same_trees(*final(self)),
            final(self).spec_selected() == block_below(old(self).spec_selected()),
            block_row(final(self).spec_selected()) == 1,
            old(self).spec_selected() == ProfBlock::Initialize ==> final(self).spec_selected()
                == ProfBlock::Frame,
            old(self).spec_selected() != ProfBlock::Initialize ==> final(self).spec_selected()
                == old(self).spec_selected(),
    {
        self.block_down();
    }

    /// `move_left` is `block_left`.
    pub fn move_left(&mut self)
        ensures
            old(self).same_trees(*final(self)),
            final(self).spec_selected() == block_left_of(old(self).spec_selected()),
            final(self).spec_selected() != ProfBlock::Gpu,
            block_row(final(self).spec_selected()) == block_row(old(self).spec_selected()),
            old(self).spec_selected() != ProfBlock::Gpu ==> final(self).spec_selected() == old(
                self,
            ).spec_selected(),
    {
        self.block_left();
    }

    /// `move_right` is `block_right`.
    pub fn move_right(&mut self)
        ensures
            old(self).same_trees(*final(self)),
            final(self).spec_selected() == block_right_of(old(self).spec_selected()),
            final(self).spec_selected() != ProfBlock::Frame,
            block_row(final(self).spec_selected()) == block_row(old(self).spec_selected()),
            old(self).spec_selected() != ProfBlock::Frame ==> final(self).spec_selected() == old(
                self,
            ).spec_selected(),
    {
        self.block_right();
    }

    /// Zooms the selected box to the whole area, or back.
    pub fn toggle_zoom(&mut self)
        ensures
            final(self).spec_zoomed() == !old(self).spec_zoomed(),
            final(self).spec_selected() == old(self).spec_selected(),
            final(self).spec_initialize() == old(self).spec_initialize(),
            final(self).spec_frame() == old(self).spec_frame(),
            final(self).spec_gpu() == old(self).spec_gpu(),
    {
        self.zoomed = !self.zoomed;
    }

    /// The selected box.
    pub fn selected(&self) -> (r: ProfBlock)
        ensures
            r == self.spec_selected(),
    {
        self.selected
    }

    /// Whether the selected box is zoomed.
    pub fn zoomed(&self) -> (r: bool)
        ensures
            r == self.spec_zoomed(),
    {
        self.zoomed
    }

    /// The tree of box `b`.
    pub fn tree(&self, b: ProfBlock) -> (r: &CallTree)
        ensures
            *r == self.tree_of(b),
    {
        match b {
            ProfBlock::Initialize => &self.initialize,
            ProfBlock::Frame => &self.frame,
            ProfBlock::Gpu => &self.gpu,
        }
    }
}

} // verus!
