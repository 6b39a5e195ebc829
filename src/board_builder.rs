use vstd::prelude::*;
use crate::board::Board;
use crate::grid::lemma_area;

verus! {

/// Whether a board of `height` rows and `width` columns can hold `mines`
/// mines: at least three coordinates stay free for the first reveal.
pub open spec fn valid_config(height: int, width: int, mines: int) -> bool {
    mines <= height * width - 3
}

/// Collects the parameters of a board and checks them before handing it out.
pub struct BoardBuilder {
    board: Board,
}

impl BoardBuilder {
    #[verifier::type_invariant]
    spec fn builder_wf(&self) -> bool {
        self.board.is_fresh(
            self.board.height_view(),
            self.board.width_view(),
            self.board.initial_mines_view(),
        )
    }

    /// The board that `build` hands out.
    pub closed spec fn board_view(&self) -> Board {
        self.board
    }

    pub fn new(height: u8, width: u8, mines: u8) -> (r: Self)
        ensures
            r.board_view().is_fresh(height as int, width as int, mines as int),
            r.board_view().seed_view() == None::<u64>,
    {
        Self { board: Board::new(height, width, mines) }
    }

    /// Fixes the seed of the mine layout, and returns a copy of the builder.
    pub fn set_seed(&mut self, seed: u64) -> (r: Self)
        ensures
            final(self).board_view().same_game(&old(self).board_view()),
            final(self).board_view().seed_view() == Some(seed),
            r.board_view().same_game(&old(self).board_view()),
            r.board_view().seed_view() == Some(seed),
    {
        proof {
            use_type_invariant(&*self);
        }
        let mut board = self.board.copy();
        board.set_seed(Some(seed));
        let r = Self { board: board.copy() };
        self.board = board;
        r
    }

    /// The board, unless its mine count leaves fewer than three free
    /// coordinates.
    pub fn build(&self) -> (r: Result<Board, &'static str>)
        ensures
            r is Ok <==> valid_config(
                self.board_view().height_view(),
                self.board_view().width_view(),
                self.board_view().initial_mines_view(),
            ),
            r matches Ok(b) ==> b.is_fresh(
                self.board_view().height_view(),
                self.board_view().width_view(),
                self.board_view().initial_mines_view(),
            ) && b.seed_view() == self.board_view().seed_view(),
            r matches Err(e) ==> e@ == ("Wrong amount of mines in comparison with width and height")@,
    {
        proof {
            use_type_invariant(&*self);
            lemma_area(self.board.width_view(), self.board.height_view());
        }
        if self.board.get_mines_number() as u32 + 3 > self.board.get_height() as u32
            * self.board.get_width() as u32 {
            proof {
                reveal_strlit("Wrong amount of mines in comparison with width and height");
            }
            return Err("Wrong amount of mines in comparison with width and height");
        }
        Ok(self.board.copy())
    }
}

} // verus!
