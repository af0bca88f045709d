//! What is known of the hidden anchor a prompt is sent as.
use vstd::prelude::*;
use crate::send_mode::SendMode;
use crate::text::views;

verus! {

/// A hidden anchor: the piece of Piton a prompt is compiled from.
pub struct HiddenAnchor {
    pub name: String,
    /// The mode it was sent in, as saved with it.
    pub mode: Option<SendMode>,
    /// The mode its system prompt tells, for one saved before modes were.
    pub told: Option<SendMode>,
    /// The text attached to it.
    pub attached_text: Vec<String>,
}

#[verifier::ext_equal]
pub struct HiddenAnchorView {
    pub name: Seq<char>,
    pub mode: Option<SendMode>,
    pub told: Option<SendMode>,
    pub attached_text: Seq<Seq<char>>,
}

impl View for HiddenAnchor {
    type V = HiddenAnchorView;

    open spec fn view(&self) -> HiddenAnchorView {
        HiddenAnchorView {
            name: self.name@,
            mode: self.mode,
            told: self.told,
            attached_text: views(self.attached_text@),
        }
    }
}

impl HiddenAnchorView {
    /// The mode it was sent in: as saved with it, or as its system prompt
    /// tells.
    pub open spec fn sent_in(self) -> Option<SendMode> {
        if self.mode is Some {
            self.mode
        } else {
            self.told
        }
    }
}

/// The mode an anchor was sent in: as saved with it, or for one saved before
/// modes were, as its system prompt tells.
pub fn anchor_mode(anchor: &HiddenAnchor) -> (r: Option<SendMode>)
    ensures
        r == anchor@.sent_in(),
{
    match anchor.mode {
        Some(mode) => Some(mode),
        None => anchor.told,
    }
}

pub fn copy_texts(texts: &Vec<String>) -> (r: Vec<String>)
    ensures
        views(r@) == views(texts@),
{
    let mut r: Vec<String> = Vec::new();
    let mut i: usize = 0;
    while i < texts.len()
        invariant
            i <= texts@.len(),
            views(r@) == views(texts@).take(i as int),
        decreases texts@.len() - i,
    {
        let ghost before = views(r@);
        r.push(texts[i].clone());
        proof {
            assert(views(r@) =~= before.push(texts@[i as int]@));
            assert(views(texts@).take(i + 1) =~= views(texts@).take(i as int).push(
                texts@[i as int]@,
            ));
        }
        i += 1;
    }
    proof {
        assert(views(texts@).take(texts@.len() as int) =~= views(texts@));
    }
    r
}

impl HiddenAnchor {
    pub fn copy(&self) -> (r: HiddenAnchor)
        ensures
            r@ == self@,
    {
        HiddenAnchor {
            name: self.name.clone(),
            mode: self.mode,
            told: self.told,
            attached_text: copy_texts(&self.attached_text),
        }
    }
}

} // verus!
