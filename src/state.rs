use vstd::prelude::*;
use crate::common::{Savewarp, SAVEWARP_COUNT};

verus! {

/// The age of the player character.
#[derive(Clone, Copy, Debug, PartialEq, Eq, Hash, Structural)]
pub enum Age {
    Child,
    Adult,
}

/// The in-game time of day, as far as logic distinguishes it.
#[derive(Clone, Copy, Debug, PartialEq, Eq, Hash, Structural)]
pub enum TimeOfDay {
    Noon,
    /// The time at which the gravedigger's tour runs.
    Dampe,
    Midnight,
}

/// Number of distinct global states: ages times times of day times savewarps.
pub const STATE_COUNT: usize = 96;

impl Age {
    /// The other age.
    pub open spec fn flipped(self) -> Age {
        match self {
            Age::Child => Age::Adult,
            Age::Adult => Age::Child,
        }
    }

    pub fn not(self) -> (r: Age)
        ensures
            r == self.flipped(),
    {
        match self {
            Age::Child => Age::Adult,
            Age::Adult => Age::Child,
        }
    }

    pub open spec fn spec_index(self) -> int {
        match self {
            Age::Child => 0,
            Age::Adult => 1,
        }
    }
}

impl TimeOfDay {
    pub open spec fn spec_is_day(self) -> bool {
        self == TimeOfDay::Noon
    }

    /// Noon counts as day; the other two values count as night.
    pub fn is_day(&self) -> (r: bool)
        ensures
            r == self.spec_is_day(),
    {
        match self {
            TimeOfDay::Noon => true,
            TimeOfDay::Dampe => false,
            TimeOfDay::Midnight => false,
        }
    }

    pub fn is_night(&self) -> (r: bool)
        ensures
            r == !self.spec_is_day(),
    {
        !self.is_day()
    }

    pub open spec fn spec_index(self) -> int {
        match self {
            TimeOfDay::Noon => 0,
            TimeOfDay::Dampe => 1,
            TimeOfDay::Midnight => 2,
        }
    }
}

/// World state that changes over a seed and is reversible but persists across savewarps.
#[derive(Clone, Copy, Debug, PartialEq, Eq, Hash, Structural)]
pub struct GlobalState {
    pub age: Age,
    pub time_of_day: TimeOfDay,
    pub savewarp: Savewarp,
}

impl GlobalState {
    /// Position of this state in the enumeration of all states.
    pub open spec fn spec_index(self) -> int {
        self.savewarp.spec_index() * 6 + self.time_of_day.spec_index() * 2 + self.age.spec_index()
    }

    /// The same state with another savewarp.
    pub open spec fn with_savewarp(self, savewarp: Savewarp) -> GlobalState {
        GlobalState { savewarp, ..self }
    }

    /// The same state with another time of day.
    pub open spec fn with_time(self, time_of_day: TimeOfDay) -> GlobalState {
        GlobalState { time_of_day, ..self }
    }

    /// The same state with the other age.
    pub open spec fn with_age_flipped(self) -> GlobalState {
        GlobalState { age: self.age.flipped(), ..self }
    }

    pub fn index(&self) -> (r: usize)
        ensures
            r as int == self.spec_index(),
            r < STATE_COUNT,
    {
        let age: usize = match self.age {
            Age::Child => 0,
            Age::Adult => 1,
        };
        let time: usize = match self.time_of_day {
            TimeOfDay::Noon => 0,
            TimeOfDay::Dampe => 1,
            TimeOfDay::Midnight => 2,
        };
        self.savewarp.index() * 6 + time * 2 + age
    }

    /// The state at position `i` of the enumeration.
    pub fn at(i: usize) -> (r: GlobalState)
        requires
            i < STATE_COUNT,
        ensures
            r.spec_index() == i as int,
    {
        let savewarp = Savewarp::at(i / 6);
        let rest: usize = i % 6;
        let time_of_day = if rest < 2 {
            TimeOfDay::Noon
        } else if rest < 4 {
            TimeOfDay::Dampe
        } else {
            TimeOfDay::Midnight
        };
        let age = if rest % 2 == 0 {
            Age::Child
        } else {
            Age::Adult
        };
        GlobalState { age, time_of_day, savewarp }
    }
}

/// Every state has a position below the count.
pub proof fn lemma_state_index_bounds(s: GlobalState)
    ensures
        0 <= s.spec_index() < STATE_COUNT,
{
}

/// Distinct states have distinct positions.
pub proof fn lemma_state_index_injective(s: GlobalState, t: GlobalState)
    ensures
        s.spec_index() == t.spec_index() ==> s == t,
{
}

/// Every index below the count belongs to some state.
pub proof fn lemma_index_onto(i: int) -> (s: GlobalState)
    requires
        0 <= i < STATE_COUNT,
    ensures
        s.spec_index() == i,
{
    let sw = Savewarp::spec_at(i / 6);
    let rest = i % 6;
    let time = if rest < 2 {
        TimeOfDay::Noon
    } else if rest < 4 {
        TimeOfDay::Dampe
    } else {
        TimeOfDay::Midnight
    };
    let age = if rest % 2 == 0 {
        Age::Child
    } else {
        Age::Adult
    };
    assert(sw.spec_index() == i / 6);
    GlobalState { age, time_of_day: time, savewarp: sw }
}

/// Every global state, as the cross product of the per-field domains, in index order.
pub fn all_states() -> (r: Vec<GlobalState>)
    ensures
        r@.len() == STATE_COUNT,
        forall|i: int| 0 <= i < r@.len() ==> (#[trigger] r@[i]).spec_index() == i,
{
    let ages = [Age::Child, Age::Adult];
    let times = [TimeOfDay::Noon, TimeOfDay::Dampe, TimeOfDay::Midnight];
    let mut r: Vec<GlobalState> = Vec::new();
    let mut w: usize = 0;
    while w < SAVEWARP_COUNT
        invariant
            w <= SAVEWARP_COUNT,
            r@.len() == w * 6,
            ages@ == seq![Age::Child, Age::Adult],
            times@ == seq![TimeOfDay::Noon, TimeOfDay::Dampe, TimeOfDay::Midnight],
            forall|i: int| 0 <= i < r@.len() ==> (#[trigger] r@[i]).spec_index() == i,
        decreases SAVEWARP_COUNT - w,
    {
        let savewarp = Savewarp::at(w);
        let mut t: usize = 0;
        while t < 3
            invariant
                w < SAVEWARP_COUNT,
                t <= 3,
                savewarp.spec_index() == w,
                r@.len() == w * 6 + t * 2,
                ages@ == seq![Age::Child, Age::Adult],
                times@ == seq![TimeOfDay::Noon, TimeOfDay::Dampe, TimeOfDay::Midnight],
                forall|i: int| 0 <= i < r@.len() ==> (#[trigger] r@[i]).spec_index() == i,
            decreases 3 - t,
        {
            let mut a: usize = 0;
            while a < 2
                invariant
                    w < SAVEWARP_COUNT,
                    t < 3,
                    a <= 2,
                    savewarp.spec_index() == w,
                    r@.len() == w * 6 + t * 2 + a,
                    ages@ == seq![Age::Child, Age::Adult],
                    times@ == seq![TimeOfDay::Noon, TimeOfDay::Dampe, TimeOfDay::Midnight],
                    forall|i: int| 0 <= i < r@.len() ==> (#[trigger] r@[i]).spec_index() == i,
                decreases 2 - a,
            {
                r.push(GlobalState { age: ages[a], time_of_day: times[t], savewarp });
                a += 1;
            }
            t += 1;
        }
        w += 1;
    }
    r
}

} // verus!
