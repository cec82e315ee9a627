//! The tape: byte cells and the data pointer.

use crate::token::Token;
use vstd::prelude::*;

verus! {

/// The model of a [`Tape`]: its cells from left to right and the index of
/// the cell under the pointer.
pub struct TapeView {
    pub cells: Seq<u8>,
    pub pointer: int,
}

impl TapeView {
    /// The pointer is on a cell.
    pub open spec fn valid(self) -> bool {
        0 <= self.pointer < self.cells.len()
    }

    /// The tape at the start of a run: one cell that holds 0.
    pub open spec fn blank() -> TapeView {
        TapeView { cells: seq![0u8], pointer: 0 }
    }

    /// The value under the pointer.
    pub open spec fn current(self) -> u8 {
        self.cells[self.pointer]
    }

    /// The tape with `value` in the cell under the pointer.
    pub open spec fn store(self, value: u8) -> TapeView {
        TapeView { cells: self.cells.update(self.pointer, value), pointer: self.pointer }
    }

    /// One more in the cell under the pointer; after 255 comes 0.
    pub open spec fn increment(self) -> TapeView {
        self.store(
            if self.current() == 255 {
                0u8
            } else {
                (self.current() + 1) as u8
            },
        )
    }

    /// One less in the cell under the pointer; before 0 comes 255.
    pub open spec fn decrement(self) -> TapeView {
        self.store(
            if self.current() == 0 {
                255u8
            } else {
                (self.current() - 1) as u8
            },
        )
    }

    /// The pointer one cell to the right. From the last cell it moves onto a
    /// new cell that holds 0.
    pub open spec fn right(self) -> TapeView {
        TapeView {
            cells: if self.pointer == self.cells.len() - 1 {
                self.cells.push(0u8)
            } else {
                self.cells
            },
            pointer: self.pointer + 1,
        }
    }

    /// The pointer one cell to the left. At the first cell the tape grows
    /// instead: a new cell that holds 0 comes in front, and the pointer is
    /// on it.
    pub open spec fn left(self) -> TapeView {
        if self.pointer == 0 {
            TapeView { cells: seq![0u8] + self.cells, pointer: 0 }
        } else {
            TapeView { cells: self.cells, pointer: self.pointer - 1 }
        }
    }

    /// What an instruction does to the tape. The four instructions that
    /// neither change a cell nor move the pointer leave it as it is: a value
    /// that was read is stored by [`TapeView::store`].
    pub open spec fn apply(self, token: Token) -> TapeView {
        match token {
            Token::Increment => self.increment(),
            Token::Decrement => self.decrement(),
            Token::ShiftLeft => self.left(),
            Token::ShiftRight => self.right(),
            Token::Input => self,
            Token::Output => self,
            Token::BeginLoop => self,
            Token::EndLoop => self,
        }
    }

    /// The same instruction `times` times in a row.
    pub open spec fn apply_times(self, token: Token, times: nat) -> TapeView
        decreases times,
    {
        if times == 0 {
            self
        } else {
            self.apply(token).apply_times(token, (times - 1) as nat)
        }
    }
}

impl TapeView {
    /// An instruction leaves the pointer on a cell and takes no cell away.
    pub proof fn lemma_apply_valid(self, token: Token)
        requires
            self.valid(),
        ensures
            self.apply(token).valid(),
            self.apply(token).cells.len() >= self.cells.len(),
    {
    }

    /// Adding 1 `times` times adds `times` modulo 256 to the cell under the
    /// pointer and changes nothing else.
    pub proof fn lemma_increment_times(self, times: nat)
        requires
            self.valid(),
        ensures
            self.apply_times(Token::Increment, times) == self.store(
                ((self.current() + times) % 256) as u8,
            ),
        decreases times,
    {
        if times == 0 {
            assert(self.store(self.current()).cells =~= self.cells);
        } else {
            let once = self.apply(Token::Increment);
            once.lemma_increment_times((times - 1) as nat);
            assert(once.store(((once.current() + times - 1) % 256) as u8).cells =~= self.store(
                ((self.current() + times) % 256) as u8,
            ).cells);
        }
    }

    /// Taking 1 `times` times takes `times` modulo 256 from the cell under
    /// the pointer and changes nothing else.
    pub proof fn lemma_decrement_times(self, times: nat)
        requires
            self.valid(),
        ensures
            self.apply_times(Token::Decrement, times) == self.store(
                ((self.current() - times) % 256) as u8,
            ),
        decreases times,
    {
        if times == 0 {
            assert(self.store(self.current()).cells =~= self.cells);
        } else {
            let once = self.apply(Token::Decrement);
            once.lemma_decrement_times((times - 1) as nat);
            assert(once.store(((once.current() - (times - 1)) % 256) as u8).cells =~= self.store(
                ((self.current() - times) % 256) as u8,
            ).cells);
        }
    }

    /// Adding 1 to a cell 256 times brings the tape back to where it was.
    pub proof fn lemma_increment_cycle(self)
        requires
            self.valid(),
        ensures
            self.apply_times(Token::Increment, 256) == self,
    {
        self.lemma_increment_times(256);
        assert(self.store(self.current()).cells =~= self.cells);
    }

    /// Taking 1 from a cell 256 times brings the tape back to where it was.
    pub proof fn lemma_decrement_cycle(self)
        requires
            self.valid(),
        ensures
            self.apply_times(Token::Decrement, 256) == self,
    {
        self.lemma_decrement_times(256);
        assert(self.store(self.current()).cells =~= self.cells);
    }

    /// Moving left from the first cell leaves the pointer at index 0, on a
    /// new cell that holds 0, and every cell of before one index higher, the
    /// first of them at index 1.
    pub proof fn lemma_left_at_first_cell(self)
        requires
            self.valid(),
            self.pointer == 0,
        ensures
            self.left().valid(),
            self.left().pointer == 0,
            self.left().current() == 0,
            self.left().cells.len() == self.cells.len() + 1,
            forall|i: int| 0 <= i < self.cells.len() ==> self.left().cells[i + 1] == self.cells[i],
    {
    }
}

/// A tape of byte cells that grows at both ends, with the data pointer.
#[derive(Debug)]
pub struct Tape {
    data: Vec<u8>,
    pointer: usize,
}

impl Clone for Tape {
    fn clone(&self) -> (copy: Self)
        ensures
            copy@ == self@,
            self.wf() ==> copy.wf(),
    {
        let data = self.data.clone();
        proof {
            assert(data@ =~= self.data@);
        }
        Tape { data, pointer: self.pointer }
    }
}

impl View for Tape {
    type V = TapeView;

    closed spec fn view(&self) -> TapeView {
        TapeView { cells: self.data@, pointer: self.pointer as int }
    }
}

impl Tape {
    /// The pointer is on a cell. Every tape that this library hands out is
    /// well formed.
    pub closed spec fn wf(&self) -> bool {
        self.pointer < self.data.len()
    }

    /// A well-formed tape has a valid model.
    pub proof fn lemma_wf_valid(&self)
        requires
            self.wf(),
        ensures
            self@.valid(),
    {
    }

    /// A tape of one cell that holds 0, with the pointer on it.
    pub fn new() -> (tape: Tape)
        ensures
            tape.wf(),
            tape@ == TapeView::blank(),
    {
        let mut data: Vec<u8> = Vec::new();
        data.push(0);
        Tape { data, pointer: 0 }
    }

    /// The value under the pointer.
    pub fn get(&self) -> (value: u8)
        requires
            self.wf(),
        ensures
            value == self@.current(),
    {
        self.data[self.pointer]
    }

    /// Puts `value` into the cell under the pointer.
    pub fn set(&mut self, value: u8)
        requires
            old(self).wf(),
        ensures
            final(self).wf(),
            final(self)@ == old(self)@.store(value),
    {
        self.data[self.pointer] = value;
    }

    /// The index of the cell under the pointer.
    pub fn pointer(&self) -> (index: usize)
        ensures
            index == self@.pointer,
    {
        self.pointer
    }

    /// The cells from left to right.
    pub fn cells(&self) -> (cells: &Vec<u8>)
        ensures
            cells@ == self@.cells,
    {
        &self.data
    }

    /// Adds 1 to the cell under the pointer; 255 becomes 0.
    pub fn increment(&mut self)
        requires
            old(self).wf(),
        ensures
            final(self).wf(),
            final(self)@ == old(self)@.increment(),
    {
        let value = self.data[self.pointer];
        if value == 255 {
            self.data[self.pointer] = 0;
        } else {
            self.data[self.pointer] = value + 1;
        }
    }

    /// Takes 1 from the cell under the pointer; 0 becomes 255.
    pub fn decrement(&mut self)
        requires
            old(self).wf(),
        ensures
            final(self).wf(),
            final(self)@ == old(self)@.decrement(),
    {
        let value = self.data[self.pointer];
        if value == 0 {
            self.data[self.pointer] = 255;
        } else {
            self.data[self.pointer] = value - 1;
        }
    }

    /// Moves the pointer one cell to the right, onto a new cell where the
    /// tape ends.
    pub fn shift_right(&mut self)
        requires
            old(self).wf(),
        ensures
            final(self).wf(),
            final(self)@ == old(self)@.right(),
    {
        if self.pointer == self.data.len() - 1 {
            self.data.push(0);
        }
        self.pointer = self.pointer + 1;
    }

    /// Moves the pointer one cell to the left; at the first cell a new cell
    /// is put in front instead.
    pub fn shift_left(&mut self)
        requires
            old(self).wf(),
        ensures
            final(self).wf(),
            final(self)@ == old(self)@.left(),
    {
        if self.pointer > 0 {
            self.pointer = self.pointer - 1;
        } else {
            self.data.insert(0, 0);
            proof {
                assert(self.data@ =~= seq![0u8] + old(self).data@);
            }
        }
    }

    /// Does to the tape what an instruction does to it.
    pub fn apply(&mut self, token: Token)
        requires
            old(self).wf(),
        ensures
            final(self).wf(),
            final(self)@ == old(self)@.apply(token),
    {
        match token {
            Token::Increment => self.increment(),
            Token::Decrement => self.decrement(),
            Token::ShiftLeft => self.shift_left(),
            Token::ShiftRight => self.shift_right(),
            _ => {},
        }
    }
}

} // verus!
