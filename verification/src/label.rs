//! Display labels for payloads.

use vstd::prelude::*;

verus! {

/// A payload that can be shown as text.
pub trait Label {
    /// The text that stands for this value.
    spec fn label_spec(&self) -> Seq<char>;

    /// Returns the text that stands for this value.
    fn label(&self) -> (text: String)
        ensures
            text@ == self.label_spec(),
    ;
}

impl Label for String {
    open spec fn label_spec(&self) -> Seq<char> {
        self@
    }

    fn label(&self) -> (text: String) {
        self.clone()
    }
}

} // verus!
