//! States, transitions and automata, with their well-formedness conditions.

use vstd::prelude::*;

verus! {

/// One vertex of the automaton: a stable index plus the two role flags.
#[derive(Clone, Copy, Debug, PartialEq, Eq, Structural)]
pub struct State {
    pub is_initial: bool,
    pub is_terminal: bool,
    pub index: usize,
}

impl State {
    pub fn new(is_initial: bool, is_terminal: bool, index: usize) -> (s: State)
        ensures
            s == (State { is_initial, is_terminal, index }),
    {
        State { is_initial, is_terminal, index }
    }
}

/// One entry of the transition matrix: a labelled edge with a traversal
/// capacity, or the explicit absence of an edge (`label` is `None`).
///
/// The capacity bounds how often one traversal may use the edge; it is the
/// per-edge termination guard of the traversal functions.
#[derive(Clone, Copy, Debug)]
pub struct Transition {
    pub label: Option<char>,
    pub max_transit: usize,
}

impl Transition {
    /// A real edge, labelled `character`, usable at most `max_transit`
    /// times on one traversal.
    pub fn new(character: char, max_transit: usize) -> (t: Transition)
        ensures
            t.label == Some(character),
            t.max_transit == max_transit,
    {
        Transition { label: Some(character), max_transit }
    }

    /// The absent edge.
    pub fn e() -> (t: Transition)
        ensures
            t.label is None,
    {
        Transition { label: None, max_transit: 0 }
    }
}

/// Every state's stored index is its position in the list.
pub open spec fn dense_indices(states: Seq<State>) -> bool {
    forall|i: int| 0 <= i < states.len() ==> (#[trigger] states[i]).index == i
}

/// Exactly one state is flagged initial.
pub open spec fn unique_initial(states: Seq<State>) -> bool {
    &&& exists|i: int| 0 <= i < states.len() && (#[trigger] states[i]).is_initial
    &&& forall|i: int, j: int|
        0 <= i < states.len() && 0 <= j < states.len() && (#[trigger] states[i]).is_initial
            && (#[trigger] states[j]).is_initial ==> i == j
}

/// The states are indexed densely by their position, and exactly one of
/// them is flagged initial.
pub open spec fn states_wf(states: Seq<State>) -> bool {
    dense_indices(states) && unique_initial(states)
}

/// The matrix is square, with one row and one column per state.
pub open spec fn table_wf(states: Seq<State>, m: Seq<Vec<Transition>>) -> bool {
    &&& m.len() == states.len()
    &&& forall|i: int| 0 <= i < m.len() ==> (#[trigger] m[i])@.len() == states.len()
}

/// The index of the one state flagged initial.
pub open spec fn initial_of(states: Seq<State>) -> int {
    choose|i: int| 0 <= i < states.len() && (#[trigger] states[i]).is_initial
}

/// A configuration fault, found before any traversal starts.
#[derive(Clone, Copy, Debug, PartialEq, Eq, Structural)]
pub enum ConfigError {
    /// The matrix is not square with one row per state.
    DimensionMismatch,
    /// Some state's stored index differs from its position.
    StateIndexMismatch,
    /// No state, or more than one state, is flagged initial.
    InitialStateCount,
    /// The traversal bound is zero.
    InvalidBound,
    /// The requested start state does not exist.
    StartOutOfRange,
}

/// An automaton: its states and its square transition matrix.
#[derive(Debug)]
pub struct Automaton {
    pub states: Vec<State>,
    pub matrix: Vec<Vec<Transition>>,
}

impl Automaton {
    /// The construction invariant: dense indices, exactly one initial
    /// state, square matrix.
    pub open spec fn wf(self) -> bool {
        states_wf(self.states@) && table_wf(self.states@, self.matrix@)
    }

    /// Builds an automaton, rejecting every malformed configuration and
    /// naming the first fault found: the matrix's shape, then the state
    /// numbering, then the initial-state count.
    pub fn new(states: Vec<State>, matrix: Vec<Vec<Transition>>) -> (r: Result<
        Automaton,
        ConfigError,
    >)
        ensures
            match r {
                Ok(a) => {
                    &&& a.wf()
                    &&& a.states@ == states@
                    &&& a.matrix@ == matrix@
                },
                Err(e) => match e {
                    ConfigError::DimensionMismatch => !table_wf(states@, matrix@),
                    ConfigError::StateIndexMismatch => table_wf(states@, matrix@)
                        && !dense_indices(states@),
                    ConfigError::InitialStateCount => table_wf(states@, matrix@) && dense_indices(
                        states@,
                    ) && !unique_initial(states@),
                    _ => false,
                },
            },
    {
        if matrix.len() != states.len() {
            return Err(ConfigError::DimensionMismatch);
        }
        let n = states.len();
        let mut i: usize = 0;
        while i < n
            invariant
                n == states@.len() == matrix@.len(),
                i <= n,
                forall|k: int| 0 <= k < i ==> (#[trigger] matrix@[k])@.len() == n,
            decreases n - i,
        {
            if matrix[i].len() != n {
                return Err(ConfigError::DimensionMismatch);
            }
            i += 1;
        }
        let mut i: usize = 0;
        while i < n
            invariant
                n == states@.len(),
                i <= n,
                table_wf(states@, matrix@),
                forall|k: int| 0 <= k < i ==> (#[trigger] states@[k]).index == k,
            decreases n - i,
        {
            if states[i].index != i {
                return Err(ConfigError::StateIndexMismatch);
            }
            i += 1;
        }
        let mut initial_count: usize = 0;
        let mut i: usize = 0;
        while i < n
            invariant
                n == states@.len(),
                i <= n,
                table_wf(states@, matrix@),
                dense_indices(states@),
                initial_count <= 1,
                (initial_count == 0) == (forall|k: int|
                    0 <= k < i ==> !(#[trigger] states@[k]).is_initial),
                initial_count == 1 ==> exists|k: int|
                    0 <= k < i && (#[trigger] states@[k]).is_initial,
                initial_count <= 1 ==> forall|k: int, l: int|
                    0 <= k < i && 0 <= l < i && (#[trigger] states@[k]).is_initial
                        && (#[trigger] states@[l]).is_initial ==> k == l,
            decreases n - i,
        {
            if states[i].is_initial {
                if initial_count == 1 {
                    return Err(ConfigError::InitialStateCount);
                }
                initial_count += 1;
            }
            i += 1;
        }
        if initial_count == 0 {
            return Err(ConfigError::InitialStateCount);
        }
        Ok(Automaton { states, matrix })
    }

    /// The index of the state flagged initial, resolved from the flag.
    pub fn initial_index(&self) -> (r: usize)
        requires
            self.wf(),
        ensures
            r == initial_of(self.states@),
            r < self.states@.len(),
            self.states@[r as int].is_initial,
    {
        find_initial(&self.states)
    }
}

/// The index of the state flagged initial, resolved from the flag.
pub fn find_initial(states: &Vec<State>) -> (r: usize)
    requires
        states_wf(states@),
    ensures
        r == initial_of(states@),
        r < states@.len(),
        states@[r as int].is_initial,
{
    let n = states.len();
    let mut i: usize = 0;
    while i < n
        invariant
            states_wf(states@),
            n == states@.len(),
            i <= n,
            forall|k: int| 0 <= k < i ==> !(#[trigger] states@[k]).is_initial,
        decreases n - i,
    {
        if states[i].is_initial {
            return i;
        }
        i += 1;
    }
    // unreachable: well-formedness guarantees an initial state
    proof {
        assert(false);
    }
    0
}

} // verus!
