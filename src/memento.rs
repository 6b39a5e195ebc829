use vstd::prelude::*;
use crate::board::game_wf;
use crate::cell::{Cell, VisibleCell};
use crate::state::State;

verus! {

/// A captured state that an originator can be restored to.
pub trait Memento {}

/// Something whose state can be captured and later restored.
pub trait Originator<G: Memento> {
    /// The originator is in a state that can be captured.
    spec fn originator_wf(&self) -> bool;

    /// `m` holds exactly the captured part of the originator's state.
    spec fn captured_in(&self, m: G) -> bool;

    fn save_memento(&self) -> (r: Box<G>)
        requires
            self.originator_wf(),
        ensures
            self.captured_in(*r),
    ;

    fn restore_from_memento(&mut self, memento: Box<G>)
        ensures
            final(self).originator_wf(),
            final(self).captured_in(*memento),
    ;
}

/// An independent copy of everything a board holds but its seed. It can
/// only be made from a well-formed board, so it is well-formed itself.
pub struct BoardMemento {
    state: State,
    height: u8,
    width: u8,
    initial_mines: u8,
    mines: u8,
    visible_cells: Vec<VisibleCell>,
    cells: Vec<Cell>,
}

impl BoardMemento {
    #[verifier::type_invariant]
    spec fn memento_wf(&self) -> bool {
        game_wf(
            self.state,
            self.height as int,
            self.width as int,
            self.initial_mines as int,
            self.mines as int,
            self.cells@,
            self.visible_cells@,
        )
    }

    pub closed spec fn state_view(&self) -> State {
        self.state
    }

    /// A memento of the given parts of a well-formed game.
    pub(crate) fn from_parts(
        state: State,
        height: u8,
        width: u8,
        initial_mines: u8,
        mines: u8,
        visible_cells: Vec<VisibleCell>,
        cells: Vec<Cell>,
    ) -> (m: BoardMemento)
        requires
            game_wf(
                state,
                height as int,
                width as int,
                initial_mines as int,
                mines as int,
                cells@,
                visible_cells@,
            ),
        ensures
            m.state_view() == state,
            m.height_view() == height,
            m.width_view() == width,
            m.initial_mines_view() == initial_mines,
            m.mines_view() == mines,
            m.visible_view() == visible_cells@,
            m.cells_view() == cells@,
    {
        BoardMemento { state, height, width, initial_mines, mines, visible_cells, cells }
    }

    /// The parts of the memento, which form a well-formed game.
    pub(crate) fn into_parts(self) -> (r: (State, u8, u8, u8, u8, Vec<VisibleCell>, Vec<Cell>))
        ensures
            r.0 == self.state_view(),
            r.1 == self.height_view(),
            r.2 == self.width_view(),
            r.3 == self.initial_mines_view(),
            r.4 == self.mines_view(),
            r.5@ == self.visible_view(),
            r.6@ == self.cells_view(),
            game_wf(r.0, r.1 as int, r.2 as int, r.3 as int, r.4 as int, r.6@, r.5@),
    {
        proof {
            use_type_invariant(&self);
        }
        (
            self.state,
            self.height,
            self.width,
            self.initial_mines,
            self.mines,
            self.visible_cells,
            self.cells,
        )
    }

    pub closed spec fn height_view(&self) -> int {
        self.height as int
    }

    pub closed spec fn width_view(&self) -> int {
        self.width as int
    }

    pub closed spec fn initial_mines_view(&self) -> int {
        self.initial_mines as int
    }

    pub closed spec fn mines_view(&self) -> int {
        self.mines as int
    }

    pub closed spec fn cells_view(&self) -> Seq<Cell> {
        self.cells@
    }

    pub closed spec fn visible_view(&self) -> Seq<VisibleCell> {
        self.visible_cells@
    }
}

impl Memento for BoardMemento {}

/// A stack of captured states: the last one added is the first one handed
/// back.
pub struct Caretaker<G: Memento> {
    mementos: Vec<Box<G>>,
}

impl<G: Memento> Caretaker<G> {
    pub closed spec fn stack(&self) -> Seq<Box<G>> {
        self.mementos@
    }

    pub fn new() -> (r: Self)
        ensures
            r.stack() == Seq::<Box<G>>::empty(),
    {
        Self { mementos: Vec::new() }
    }

    pub fn add_memento(&mut self, memento: Box<G>)
        ensures
            final(self).stack() == old(self).stack().push(memento),
    {
        self.mementos.push(memento);
    }

    /// Takes the most recently added memento off the stack.
    pub fn get_last_memento(&mut self) -> (r: Option<Box<G>>)
        ensures
            old(self).stack().len() == 0 ==> r is None && final(self).stack() == old(self).stack(),
            old(self).stack().len() > 0 ==> r == Some(old(self).stack().last()) && final(self).stack()
                == old(self).stack().drop_last(),
    {
        self.mementos.pop()
    }
}

} // verus!
