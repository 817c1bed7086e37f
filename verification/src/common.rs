use vstd::prelude::*;

verus! {

/// Quoting state of the scanner that reads or checks a value.
#[derive(Debug, Copy, Clone, PartialEq, Eq, Structural, PartialOrd, Ord, Default)]
pub enum State {
    #[default]
    Unquoted,
    SingleQuoted,
    DoubleQuoted,
}

} // verus!
