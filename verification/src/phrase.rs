//! One spoken utterance attributed to one speaker.

use vstd::prelude::*;

verus! {

/// The mathematical content of a [`Phrase`]: the two character sequences.
#[verifier::ext_equal]
pub struct PhraseV {
    pub text: Seq<char>,
    pub author: Seq<char>,
}

/// One (spoken text, author) pair of a quote's dialogue.
#[derive(Debug, Clone)]
pub struct Phrase {
    pub text: String,
    pub author: String,
}

impl View for Phrase {
    type V = PhraseV;

    open spec fn view(&self) -> PhraseV {
        PhraseV { text: self.text@, author: self.author@ }
    }
}

impl PartialEq for Phrase {
    fn eq(&self, other: &Self) -> (r: bool) {
        self.text == other.text && self.author == other.author
    }
}

impl vstd::std_specs::cmp::PartialEqSpecImpl for Phrase {
    open spec fn obeys_eq_spec() -> bool {
        true
    }

    open spec fn eq_spec(&self, other: &Phrase) -> bool {
        self.text@ == other.text@ && self.author@ == other.author@
    }
}

/// The views of a sequence of phrases.
pub open spec fn phrase_views(d: Seq<Phrase>) -> Seq<PhraseV> {
    d.map_values(|p: Phrase| p@)
}

} // verus!
