//! A small program over numbers for trying the engine out: a sum with
//! queries above it that an unchanged parity cuts off, a ring of queries
//! that call each other, a chain of any depth, and a query that fails.
use crate::datum::{mix, mixed, models, Datum};
use crate::program::{Plan, Program, Step};
use vstd::prelude::*;

verus! {

/// The queries of the sample program.
#[derive(Clone, Copy, Debug, PartialEq, Eq, Structural)]
pub enum Formula {
    /// The sum of cells 0 and 1; a fault if it does not fit.
    Total,
    /// The parity of `Total`. Notes 100 plus the parity.
    Parity,
    /// Calls `Parity`, then `Total`; worth the total. Notes 200 and 201.
    Both,
    /// Calls `Both`, then `Parity`; worth 0. Notes 300.
    Top,
    /// `Ring(n)` calls `Ring(n + 1)`, and `Ring(2)` calls `Ring(0)`.
    Ring(u8),
    /// `Chain(0)` is worth 7; `Chain(n + 1)` is worth what `Chain(n)` is.
    Chain(u8),
    /// Reads cell 0 and fails with what it holds.
    Broken,
}

impl Datum for Formula {
    type Model = Formula;

    open spec fn model(&self) -> Formula {
        *self
    }

    fn same(&self, other: &Self) -> (b: bool) {
        *self == *other
    }

    fn duplicate(&self) -> (c: Self) {
        *self
    }

    open spec fn digest(model: Formula) -> u64 {
        match model {
            Formula::Total => 0,
            Formula::Parity => 1,
            Formula::Both => 2,
            Formula::Top => 3,
            Formula::Ring(n) => mixed(4, n as u64),
            Formula::Chain(n) => mixed(5, n as u64),
            Formula::Broken => 6,
        }
    }

    fn hash(&self) -> (h: u64) {
        match *self {
            Formula::Total => 0,
            Formula::Parity => 1,
            Formula::Both => 2,
            Formula::Top => 3,
            Formula::Ring(n) => mix(4, n as u64),
            Formula::Chain(n) => mix(5, n as u64),
            Formula::Broken => 6,
        }
    }
}

/// The kind of the note 201.
pub const LOUD: u64 = 1;

/// The kind of every other note.
pub const QUIET: u64 = 0;

/// What the body of each query asks for next.
pub open spec fn formula_plan(key: Formula, answers: Seq<usize>) -> Plan<Formula, usize, usize> {
    match key {
        Formula::Total => if answers.len() == 0 {
            Plan::Read(0)
        } else if answers.len() == 1 {
            Plan::Read(1)
        } else if answers[0] + answers[1] <= usize::MAX {
            Plan::Done((answers[0] + answers[1]) as usize, Seq::empty())
        } else {
            Plan::Fail(answers[0])
        },
        Formula::Parity => if answers.len() == 0 {
            Plan::Call(Formula::Total)
        } else {
            Plan::Done((answers[0] % 2) as usize, seq![(100 + answers[0] % 2) as usize])
        },
        Formula::Both => if answers.len() == 0 {
            Plan::Call(Formula::Parity)
        } else if answers.len() == 1 {
            Plan::Call(Formula::Total)
        } else {
            Plan::Done(answers[1], seq![200usize, 201usize])
        },
        Formula::Top => if answers.len() == 0 {
            Plan::Call(Formula::Both)
        } else if answers.len() == 1 {
            Plan::Call(Formula::Parity)
        } else {
            Plan::Done(0, seq![300usize])
        },
        Formula::Ring(n) => if answers.len() == 0 {
            Plan::Call(
                Formula::Ring(
                    if n >= 2 {
                        0
                    } else {
                        (n + 1) as u8
                    },
                ),
            )
        } else {
            Plan::Done(answers[0], Seq::empty())
        },
        Formula::Chain(n) => if n == 0 {
            Plan::Done(7, Seq::empty())
        } else if answers.len() == 0 {
            Plan::Call(Formula::Chain((n - 1) as u8))
        } else {
            Plan::Done(answers[0], Seq::empty())
        },
        Formula::Broken => if answers.len() == 0 {
            Plan::Read(0)
        } else {
            Plan::Fail(answers[0])
        },
    }
}

fn finish(value: usize, notes: Vec<usize>) -> (s: Step<Formula, usize, usize>)
    ensures
        s.model() == Plan::<Formula, usize, usize>::Done(value, notes@),
{
    proof {
        assert(models(notes@) =~= notes@);
    }
    Step::Done(value, notes)
}

/// The sample program.
pub struct Sample;

impl Program for Sample {
    type Key = Formula;

    type Value = usize;

    type Note = usize;

    open spec fn plan(&self, key: Formula, answers: Seq<usize>) -> Plan<Formula, usize, usize> {
        formula_plan(key, answers)
    }

    fn step(&self, key: &Formula, answers: &Vec<usize>) -> (s: Step<Formula, usize, usize>) {
        proof {
            assert(models(answers@) =~= answers@);
        }
        match *key {
            Formula::Total => {
                if answers.len() == 0 {
                    Step::Read(0)
                } else if answers.len() == 1 {
                    Step::Read(1)
                } else if answers[0] <= usize::MAX - answers[1] {
                    finish(answers[0] + answers[1], Vec::new())
                } else {
                    Step::Fail(answers[0])
                }
            },
            Formula::Parity => {
                if answers.len() == 0 {
                    Step::Call(Formula::Total)
                } else {
                    let parity = answers[0] % 2;
                    let mut notes: Vec<usize> = Vec::new();
                    notes.push(100 + parity);
                    assert(notes@ =~= seq![(100 + answers@[0] % 2) as usize]);
                    finish(parity, notes)
                }
            },
            Formula::Both => {
                if answers.len() == 0 {
                    Step::Call(Formula::Parity)
                } else if answers.len() == 1 {
                    Step::Call(Formula::Total)
                } else {
                    let mut notes: Vec<usize> = Vec::new();
                    notes.push(200);
                    notes.push(201);
                    assert(notes@ =~= seq![200usize, 201usize]);
                    finish(answers[1], notes)
                }
            },
            Formula::Top => {
                if answers.len() == 0 {
                    Step::Call(Formula::Both)
                } else if answers.len() == 1 {
                    Step::Call(Formula::Parity)
                } else {
                    let mut notes: Vec<usize> = Vec::new();
                    notes.push(300);
                    assert(notes@ =~= seq![300usize]);
                    finish(0, notes)
                }
            },
            Formula::Ring(n) => {
                if answers.len() == 0 {
                    Step::Call(
                        Formula::Ring(
                            if n >= 2 {
                                0
                            } else {
                                n + 1
                            },
                        ),
                    )
                } else {
                    finish(answers[0], Vec::new())
                }
            },
            Formula::Chain(n) => {
                if n == 0 {
                    finish(7, Vec::new())
                } else if answers.len() == 0 {
                    Step::Call(Formula::Chain(n - 1))
                } else {
                    finish(answers[0], Vec::new())
                }
            },
            Formula::Broken => {
                if answers.len() == 0 {
                    Step::Read(0)
                } else {
                    Step::Fail(answers[0])
                }
            },
        }
    }

    open spec fn kind(&self, note: usize) -> u64 {
        if note == 201 {
            LOUD
        } else {
            QUIET
        }
    }

    fn kind_of(&self, note: &usize) -> (kind: u64) {
        if *note == 201 {
            LOUD
        } else {
            QUIET
        }
    }
}

} // verus!
