//! Branch states.
//!
//! The states of a tree of blocks are kept branch by branch: a branch is a
//! run of consecutive states that starts at an offset, and a new branch
//! starts wherever the tree forks. A state is either present or missing.

use vstd::prelude::*;

verus! {

/// The states of one branch.
#[derive(Debug, Clone, Copy, PartialEq, Eq, Structural)]
pub struct BranchState {
    /// Index of the first state. States before the offset are not in the
    /// branch.
    offset: u64,
    /// Number of states: the states from the offset on, as many as this,
    /// are valid.
    len: u64,
    /// The highest index that was ever appended. Once a state is dropped
    /// it is not below the end of the branch any more, and the branch
    /// takes no further state: a new branch has to be created.
    max_len_ix: u64,
}

/// A range of states, the end not included.
#[derive(Debug, Clone, Copy, PartialEq, Eq, Structural)]
pub struct BranchStateRef {
    pub start: u64,
    pub end: u64,
}

impl BranchState {
    /// Index of the first state.
    pub closed spec fn offset(&self) -> u64 {
        self.offset
    }

    /// Number of states.
    pub closed spec fn len(&self) -> u64 {
        self.len
    }

    /// The highest index that was ever appended.
    pub closed spec fn max_len_ix(&self) -> u64 {
        self.max_len_ix
    }

    /// The end of the branch is an index: the states do not run past
    /// `u64`.
    pub open spec fn wf(&self) -> bool {
        self.offset() + self.len() <= u64::MAX
    }

    /// Whether a state of the branch was dropped, so that the branch takes
    /// no further state.
    pub open spec fn spec_has_deleted_index(&self) -> bool {
        self.max_len_ix() >= self.offset() + self.len()
    }

    /// A branch of one state at `offset`.
    pub fn new_from(offset: u64) -> (r: Self)
        ensures
            r.offset() == offset,
            r.len() == 1,
            r.max_len_ix() == offset,
            offset < u64::MAX ==> r.wf() && !r.spec_has_deleted_index(),
    {
        BranchState { offset, len: 1, max_len_ix: offset }
    }

    /// The range of the states of the branch.
    pub fn state_ref(&self) -> (r: BranchStateRef)
        requires
            self.wf(),
        ensures
            r.start == self.offset(),
            r.end == self.offset() + self.len(),
    {
        BranchStateRef { start: self.offset, end: self.offset + self.len }
    }

    /// Whether a state of the branch was dropped.
    pub fn has_deleted_index(&self) -> (r: bool)
        requires
            self.wf(),
        ensures
            r == self.spec_has_deleted_index(),
    {
        self.max_len_ix >= self.offset + self.len
    }

    /// Appends a state to the branch, unless a state was dropped from it
    /// before. Returns whether the state was appended. A branch that takes
    /// a state must have room for it below `u64::MAX`.
    pub fn add_state(&mut self) -> (r: bool)
        requires
            old(self).wf(),
            !old(self).spec_has_deleted_index() ==> old(self).offset() + old(self).len()
                < u64::MAX,
        ensures
            final(self).wf(),
            r == !old(self).spec_has_deleted_index(),
            final(self).offset() == old(self).offset(),
            r ==> final(self).len() == old(self).len() + 1 && final(self).max_len_ix() == old(
                self,
            ).max_len_ix() + 1,
            !r ==> *final(self) == *old(self),
            final(self).spec_has_deleted_index() == old(self).spec_has_deleted_index(),
    {
        if !self.has_deleted_index() {
            self.len += 1;
            self.max_len_ix += 1;
            true
        } else {
            false
        }
    }

    /// Drops the last state of the branch and returns its index, if the
    /// branch has a state.
    pub fn drop_state(&mut self) -> (r: Option<u64>)
        requires
            old(self).wf(),
        ensures
            final(self).wf(),
            final(self).offset() == old(self).offset(),
            final(self).max_len_ix() == old(self).max_len_ix(),
            match r {
                Some(index) => old(self).len() > 0 && final(self).len() == old(self).len() - 1
                    && index == old(self).offset() + old(self).len() - 1,
                None => old(self).len() == 0 && final(self).len() == 0,
            },
    {
        if self.len > 0 {
            self.len -= 1;
            Some(self.offset + self.len)
        } else {
            None
        }
    }

    /// Whether the branch counts the state at `index` as present: an index
    /// below the offset is not; from the offset on, the index counts as
    /// long as the sum of index and offset stays below the number of
    /// states. The sum has to fit into `u64`.
    pub fn get_state(&self, index: u64) -> (r: bool)
        requires
            index >= self.offset() ==> index + self.offset() <= u64::MAX,
        ensures
            r == (index >= self.offset() && self.len() > index + self.offset()),
    {
        if index < self.offset {
            return false;
        }
        self.len > index + self.offset
    }

    /// The index of the last state, if the branch has a state.
    pub fn latest_ix(&self) -> (r: Option<u64>)
        requires
            self.wf(),
        ensures
            match r {
                Some(index) => self.len() > 0 && index == self.offset() + self.len() - 1,
                None => self.len() == 0,
            },
    {
        if self.len > 0 {
            Some(self.offset + self.len - 1)
        } else {
            None
        }
    }
}

impl Default for BranchState {
    /// A branch of one state at offset 0.
    fn default() -> (r: Self)
        ensures
            r.offset() == 0,
            r.len() == 1,
            r.max_len_ix() == 0,
    {
        Self::new_from(0)
    }
}

impl BranchStateRef {
    /// Whether the state at `index` is in the range.
    pub fn get_state(&self, index: u64) -> (r: bool)
        ensures
            r == (self.start <= index < self.end),
    {
        index < self.end && index >= self.start
    }
}

/// A branch of the tree: its states, its index, and where it forks from.
#[derive(Debug, Clone, Copy, PartialEq, Eq, Structural)]
pub struct StatesBranch {
    /// The key of the branch. Indexes grow and are not used again.
    branch_index: u64,
    origin_branch_index: u64,
    origin_node_index: u64,
    state: BranchState,
}

/// The range of the states of a branch, with the index of the branch.
#[derive(Debug, Clone, Copy, PartialEq, Eq, Structural)]
pub struct BranchStatesRef {
    pub branch_index: u64,
    pub state: BranchStateRef,
}

impl StatesBranch {
    /// The index of the branch.
    pub closed spec fn branch_index(&self) -> u64 {
        self.branch_index
    }

    /// The states of the branch.
    pub closed spec fn state(&self) -> BranchState {
        self.state
    }

    /// A branch with the given index and states that forks from the node
    /// `origin_node_index` of the branch `origin_branch_index`.
    pub fn new(
        branch_index: u64,
        origin_branch_index: u64,
        origin_node_index: u64,
        state: BranchState,
    ) -> (r: Self)
        ensures
            r.branch_index() == branch_index,
            r.state() == state,
    {
        StatesBranch { branch_index, origin_branch_index, origin_node_index, state }
    }

    /// The range of the states of the branch, with its index.
    pub fn branch_ref(&self) -> (r: BranchStatesRef)
        requires
            self.state().wf(),
        ensures
            r.branch_index == self.branch_index(),
            r.state.start == self.state().offset(),
            r.state.end == self.state().offset() + self.state().len(),
    {
        BranchStatesRef { branch_index: self.branch_index, state: self.state.state_ref() }
    }
}

} // verus!
