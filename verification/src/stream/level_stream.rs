//! Reading the tables of a level one after the other.
//!
//! A level is a run of table files, each named by its generation. The stream
//! over a level opens the tables in their order, hands on the rows of the
//! table that is open, and moves to the next table when one ends. Opening a
//! table and reading from it are done by the caller: the stream says what to
//! do next, and is told what came of it.
use vstd::prelude::*;

verus! {

/// The generation of a table file.
pub type FileId = u64;

/// What came of the last thing the stream asked for.
#[derive(Debug)]
pub enum LevelEvent<T> {
    /// The table asked for is open.
    Opened,
    /// The open table gave a row.
    Item(T),
    /// The open table has no more rows.
    End,
    /// Opening a table, or reading from it, failed.
    Failed,
}

/// What the stream asks for, or hands out, next.
#[derive(Debug)]
pub enum LevelAction<T> {
    /// Open the table of this generation, over the bounds of the stream.
    Open(FileId),
    /// Read the next row of the open table.
    Read,
    /// This row is the next row of the level.
    Emit(T),
    /// The level cannot be read further.
    Fail,
    /// The level has no more rows.
    Finish,
}

/// Where the stream stands.
#[derive(Debug, Clone, Copy, PartialEq, Eq, Structural)]
pub enum LevelPhase {
    /// The table of this generation is being opened.
    Opening(FileId),
    /// A table is open and is being read.
    Reading,
    /// Nothing more will come.
    Finished,
}

/// The stream as a plain value: where it stands, and the generations that
/// are still to be opened, in their order.
pub struct LevelView {
    pub phase: LevelPhase,
    pub pending: Seq<FileId>,
}

/// The stream after it moved on from a table that ended, or at its start:
/// it opens the next generation, or finishes where none is left.
pub open spec fn advanced<T>(pending: Seq<FileId>) -> (LevelView, LevelAction<T>) {
    if pending.len() > 0 {
        (
            LevelView { phase: LevelPhase::Opening(pending[0]), pending: pending.skip(1) },
            LevelAction::Open(pending[0]),
        )
    } else {
        (LevelView { phase: LevelPhase::Finished, pending }, LevelAction::Finish)
    }
}

/// What the stream does on an event. While a table is being opened, `Opened`
/// starts the reading and `Failed` ends the stream with a failure. While a
/// table is being read, a row is handed on, `End` moves to the next
/// generation and `Failed` ends the stream with a failure. An event that the
/// phase does not wait for changes nothing, and the stream asks again for
/// what it waits for. A finished stream stays finished.
pub open spec fn step<T>(v: LevelView, event: LevelEvent<T>) -> (LevelView, LevelAction<T>) {
    match v.phase {
        LevelPhase::Opening(gen) => match event {
            LevelEvent::Opened => (LevelView { phase: LevelPhase::Reading, ..v }, LevelAction::Read),
            LevelEvent::Failed => (
                LevelView { phase: LevelPhase::Finished, ..v },
                LevelAction::Fail,
            ),
            _ => (v, LevelAction::Open(gen)),
        },
        LevelPhase::Reading => match event {
            LevelEvent::Item(row) => (v, LevelAction::Emit(row)),
            LevelEvent::End => advanced(v.pending),
            LevelEvent::Failed => (
                LevelView { phase: LevelPhase::Finished, ..v },
                LevelAction::Fail,
            ),
            LevelEvent::Opened => (v, LevelAction::Read),
        },
        LevelPhase::Finished => (v, LevelAction::Finish),
    }
}

/// A stream over the tables of a level, within bounds on the key.
#[derive(Debug)]
pub struct LevelStream {
    lower: Option<Vec<u8>>,
    upper: Option<Vec<u8>>,
    gens: Vec<FileId>,
    next: usize,
    phase: LevelPhase,
}

impl LevelStream {
    /// The position of the next generation lies within the generations.
    pub closed spec fn wf(&self) -> bool {
        self.next <= self.gens.len()
    }

    /// The stream as a plain value.
    pub closed spec fn view(&self) -> LevelView {
        LevelView { phase: self.phase, pending: self.gens@.skip(self.next as int) }
    }

    /// The lower bound on the keys, if there is one.
    pub closed spec fn lower(&self) -> Option<Seq<u8>> {
        match self.lower {
            Some(k) => Some(k@),
            None => None,
        }
    }

    /// The upper bound on the keys, if there is one.
    pub closed spec fn upper(&self) -> Option<Seq<u8>> {
        match self.upper {
            Some(k) => Some(k@),
            None => None,
        }
    }

    /// A stream over the generations `gens`, in their order, with what it
    /// asks for first: to open the first generation, or nothing where there
    /// is none.
    pub fn new<T>(gens: Vec<FileId>, lower: Option<Vec<u8>>, upper: Option<Vec<u8>>) -> (r: (
        Self,
        LevelAction<T>,
    ))
        ensures
            r.0.wf(),
            (r.0@, r.1) == advanced::<T>(gens@),
            r.0.lower() == crate::bytes::value_view(lower),
            r.0.upper() == crate::bytes::value_view(upper),
    {
        let mut stream = LevelStream { lower, upper, gens, next: 0, phase: LevelPhase::Finished };
        proof {
            assert(stream.gens@.skip(0) =~= stream.gens@);
        }
        let action = stream.advance();
        (stream, action)
    }

    /// The bounds on the keys of the stream.
    pub fn bounds(&self) -> (r: (Option<&Vec<u8>>, Option<&Vec<u8>>))
        ensures
            crate::key::bound_view(r.0) == self.lower(),
            crate::key::bound_view(r.1) == self.upper(),
    {
        (self.lower.as_ref(), self.upper.as_ref())
    }

    /// Moves to the next generation, or finishes where none is left.
    fn advance<T>(&mut self) -> (action: LevelAction<T>)
        requires
            old(self).wf(),
        ensures
            final(self).wf(),
            (final(self)@, action) == advanced::<T>(old(self)@.pending),
            final(self).lower() == old(self).lower(),
            final(self).upper() == old(self).upper(),
    {
        if self.next < self.gens.len() {
            let gen = self.gens[self.next];
            proof {
                assert(self.gens@.skip(self.next as int).skip(1) =~= self.gens@.skip(self.next + 1));
            }
            self.next = self.next + 1;
            self.phase = LevelPhase::Opening(gen);
            LevelAction::Open(gen)
        } else {
            self.phase = LevelPhase::Finished;
            LevelAction::Finish
        }
    }

    /// Takes what came of the last action and says what to do next.
    pub fn poll_next<T>(&mut self, event: LevelEvent<T>) -> (action: LevelAction<T>)
        requires
            old(self).wf(),
        ensures
            final(self).wf(),
            (final(self)@, action) == step(old(self)@, event),
            final(self).lower() == old(self).lower(),
            final(self).upper() == old(self).upper(),
    {
        match self.phase {
            LevelPhase::Opening(gen) => match event {
                LevelEvent::Opened => {
                    self.phase = LevelPhase::Reading;
                    LevelAction::Read
                },
                LevelEvent::Failed => {
                    self.phase = LevelPhase::Finished;
                    LevelAction::Fail
                },
                _ => LevelAction::Open(gen),
            },
            LevelPhase::Reading => match event {
                LevelEvent::Item(row) => LevelAction::Emit(row),
                LevelEvent::End => self.advance(),
                LevelEvent::Failed => {
                    self.phase = LevelPhase::Finished;
                    LevelAction::Fail
                },
                LevelEvent::Opened => LevelAction::Read,
            },
            LevelPhase::Finished => LevelAction::Finish,
        }
    }
}

} // verus!
