//! The simulation wrapper: the shared game state behind a reader/writer
//! lock.
//!
//! Vote casting and the tick take the write lock; board rendering takes a
//! read lock. The lock invariant keeps every stored state well formed, so
//! every unlock hands the next critical section a state the update
//! algorithm accepts.

use vstd::prelude::*;
use vstd::rwlock::{RwLock, RwLockPredicate};

use crate::board::board_text;
use crate::direction::Direction;
use crate::state::{Inner, MAX_SIZE};

verus! {

/// Lock predicate: every state stored in the lock is well formed and keeps
/// the board size the simulation was created with.
pub struct GamePred {
    pub size: usize,
}

impl RwLockPredicate<Inner> for GamePred {
    open spec fn inv(self, v: Inner) -> bool {
        v.wf() && v.size == self.size
    }
}

/// A running game: the state under a lock, plus the fixed tick period.
/// Scheduling itself (the timer loop) lives with the embedding program; it
/// calls [`Snake::tick`] once per period.
pub struct Snake {
    /// The shared game state; the lock invariant keeps it well formed.
    pub inner: RwLock<Inner, GamePred>,
    /// Tick period in milliseconds, fixed at construction.
    pub interval_ms: u64,
}

impl Snake {
    /// The board size this simulation was created with.
    pub open spec fn spec_size(self) -> usize {
        self.inner.pred().size
    }

    /// Fresh simulation on a `size` board in the starting configuration.
    pub fn new(size: usize, interval_ms: u64) -> (s: Snake)
        requires
            3 <= size <= MAX_SIZE,
        ensures
            s.spec_size() == size,
            s.interval_ms == interval_ms,
    {
        let st = Inner::new(size);
        Snake { inner: RwLock::new(st, Ghost(GamePred { size })), interval_ms }
    }

    /// Casts one vote for `d`: briefly takes the write lock and increments
    /// the tally entry; counts saturate instead of overflowing.
    pub fn add_direction(&self, d: Direction) {
        let (mut st, handle) = self.inner.acquire_write();
        st.record_vote(d);
        handle.release_write(st);
    }

    /// Runs one simulation tick under the write lock.
    pub fn tick(&self) {
        let (mut st, handle) = self.inner.acquire_write();
        st.update();
        handle.release_write(st);
    }

    /// Renders the current board under a read lock: the text of some well
    /// formed state of this game's board size. Read-only.
    pub fn get_board(&self) -> (b: String)
        ensures
            exists|st: Inner|
                st.wf() && st.size == self.spec_size() && b@ == #[trigger] board_text(st),
    {
        let read_handle = self.inner.acquire_read();
        let st = read_handle.borrow();
        let b = st.get_board();
        proof {
            assert(st.wf() && st.size == self.spec_size() && b@ == board_text(*st));
        }
        read_handle.release_read();
        b
    }
}

} // verus!
