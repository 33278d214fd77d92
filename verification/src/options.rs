//! The options of an extraction.

use vstd::prelude::*;

verus! {

/// The switches of an extraction.
pub struct Switches {
    pub verify: bool,
    pub reset: bool,
    pub force: bool,
}

/// A struct specifying the extract options.
#[derive(Clone, Copy, Debug, PartialEq, Eq)]
pub struct ExtractOptions {
    /// Toggle checksum verification.
    verify: bool,
    /// Toggle reset mode on/off.
    reset: bool,
    /// Toggle checks guarding against overwriting user-modified files.
    force: bool,
}

impl View for ExtractOptions {
    type V = Switches;

    closed spec fn view(&self) -> Switches {
        Switches { verify: self.verify, reset: self.reset, force: self.force }
    }
}

impl ExtractOptions {
    /// Toggle checksum verification.
    pub fn verify(&self) -> (r: bool)
        ensures
            r == self@.verify,
    {
        self.verify
    }

    /// Toggle checksum verification.
    pub fn set_verify(&mut self, value: bool)
        ensures
            final(self)@ == (Switches { verify: value, ..old(self)@ }),
    {
        self.verify = value;
    }

    /// Toggle reset mode on/off.
    pub fn reset(&self) -> (r: bool)
        ensures
            r == self@.reset,
    {
        self.reset
    }

    /// Toggle reset mode on/off.
    pub fn set_reset(&mut self, value: bool)
        ensures
            final(self)@ == (Switches { reset: value, ..old(self)@ }),
    {
        self.reset = value;
    }

    /// Toggle checks guarding against overwriting user-modified files.
    pub fn force(&self) -> (r: bool)
        ensures
            r == self@.force,
    {
        self.force
    }

    /// Toggle checks guarding against overwriting user-modified files.
    pub fn set_force(&mut self, value: bool)
        ensures
            final(self)@ == (Switches { force: value, ..old(self)@ }),
    {
        self.force = value;
    }
}

impl Default for ExtractOptions {
    /// Verification might be expensive, but can help make sure that the
    /// contents of the pack have not been tampered with. The checks of the
    /// working directory are on.
    fn default() -> (r: Self)
        ensures
            r@ == (Switches { verify: true, reset: false, force: false }),
    {
        ExtractOptions { verify: true, reset: false, force: false }
    }
}

} // verus!
