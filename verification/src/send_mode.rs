//! The ways a prompt can be sent.
use vstd::prelude::*;

verus! {

/// What a prompt is sent to work on.
#[derive(Clone, Copy, Debug, PartialEq, Eq, Structural)]
pub enum SendMode {
    /// The code.
    Code,
    /// The spec, and then the code that follows it.
    Both,
    /// The spec.
    Spec,
    /// Nothing: it is a question.
    Ask,
}

impl SendMode {
    /// The name its files are saved under.
    pub open spec fn key_text(self) -> Seq<char> {
        match self {
            SendMode::Code => "code"@,
            SendMode::Both => "combined"@,
            SendMode::Spec => "spec"@,
            SendMode::Ask => "ask"@,
        }
    }

    pub open spec fn label_text(self) -> Seq<char> {
        match self {
            SendMode::Code => "Code"@,
            SendMode::Both => "Chain"@,
            SendMode::Spec => "Spec"@,
            SendMode::Ask => "Ask"@,
        }
    }

    /// The name its files are saved under.
    pub fn key(self) -> (r: &'static str)
        ensures
            r@ == self.key_text(),
    {
        match self {
            SendMode::Code => "code",
            SendMode::Both => "combined",
            SendMode::Spec => "spec",
            SendMode::Ask => "ask",
        }
    }

    /// What its tab is called.
    pub fn label(self) -> (r: &'static str)
        ensures
            r@ == self.label_text(),
    {
        match self {
            SendMode::Code => "Code",
            SendMode::Both => "Chain",
            SendMode::Spec => "Spec",
            SendMode::Ask => "Ask",
        }
    }
}

} // verus!
