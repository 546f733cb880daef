//! What the graphical client decides apart from drawing: the order of its
//! steps, what each is called, and how a typed time is read.
use vstd::prelude::*;
use crate::config::{spec_config_hhmm, parse_hhmm as read_hhmm, trim_str};
use crate::curl::trimmed;

verus! {

/// The steps of building a capsule, in order.
#[derive(Clone, Copy, Debug, PartialEq, Eq, Structural)]
pub enum Step {
    Source,
    Protections,
    Machines,
    Targets,
    Build,
    Run,
}

pub open spec fn step_position(s: Step) -> nat {
    match s {
        Step::Source => 0,
        Step::Protections => 1,
        Step::Machines => 2,
        Step::Targets => 3,
        Step::Build => 4,
        Step::Run => 5,
    }
}

pub open spec fn step_label(s: Step) -> Seq<char> {
    match s {
        Step::Source => "Source"@,
        Step::Protections => "Protections"@,
        Step::Machines => "Machines"@,
        Step::Targets => "Targets"@,
        Step::Build => "Build"@,
        Step::Run => "Run capsule"@,
    }
}

pub open spec fn step_hint(s: Step) -> Seq<char> {
    match s {
        Step::Source => "What to protect"@,
        Step::Protections => "How it unlocks"@,
        Step::Machines => "Where it opens"@,
        Step::Targets => "Which platforms"@,
        Step::Build => "Create the capsule"@,
        Step::Run => "Open a capsule"@,
    }
}

impl Step {
    /// Every step, in the order the client shows them.
    pub fn all() -> (r: Vec<Step>)
        ensures
            r@ == seq![Step::Source, Step::Protections, Step::Machines, Step::Targets, Step::Build, Step::Run],
    {
        vec![Step::Source, Step::Protections, Step::Machines, Step::Targets, Step::Build, Step::Run]
    }

    pub fn label(self) -> (r: &'static str)
        ensures
            r@ == step_label(self),
    {
        match self {
            Step::Source => "Source",
            Step::Protections => "Protections",
            Step::Machines => "Machines",
            Step::Targets => "Targets",
            Step::Build => "Build",
            Step::Run => "Run capsule",
        }
    }

    pub fn hint(self) -> (r: &'static str)
        ensures
            r@ == step_hint(self),
    {
        match self {
            Step::Source => "What to protect",
            Step::Protections => "How it unlocks",
            Step::Machines => "Where it opens",
            Step::Targets => "Which platforms",
            Step::Build => "Create the capsule",
            Step::Run => "Open a capsule",
        }
    }

    /// Where this step stands in `all()`.
    pub fn index(self) -> (r: usize)
        ensures
            r == step_position(self),
            Step::all_spec()[r as int] == self,
    {
        let all = Step::all();
        let mut i: usize = 0;
        while i < all.len()
            invariant
                all@ == Step::all_spec(),
                i <= all@.len(),
                forall|j: int| 0 <= j < i ==> all@[j] != self,
            decreases all@.len() - i,
        {
            if all[i] == self {
                return i;
            }
            i = i + 1;
        }
        0
    }

    pub open spec fn all_spec() -> Seq<Step> {
        seq![Step::Source, Step::Protections, Step::Machines, Step::Targets, Step::Build, Step::Run]
    }
}

/// A time typed into the client, `HH:MM`, in minutes past midnight; nothing
/// when it is not a valid time of day.
pub open spec fn spec_hhmm(s: Seq<char>) -> Option<u32> {
    match spec_config_hhmm(trimmed(s)) {
        Ok(v) => Some(v),
        Err(_) => None,
    }
}

/// Read a typed `HH:MM` into minutes past midnight.
pub fn parse_hhmm(s: &str) -> (r: Option<u32>)
    ensures
        r == spec_hhmm(s@),
        r matches Some(v) ==> v < 1440,
{
    match read_hhmm(trim_str(s)) {
        Ok(v) => Some(v),
        Err(_) => None,
    }
}

} // verus!
