use vstd::prelude::*;

verus! {

/// A selector: what a locator ends in, and what an attribute is filed under.
#[derive(Clone, Copy, Debug, PartialEq, Eq, Hash, Structural)]
pub enum Loc {
    /// The body of an object, the object that it decorates.
    Phi,
    /// The context operand of an operation.
    Rho,
    /// The literal payload.
    Delta,
    /// The native operation.
    Lambda,
    /// A positional argument.
    Arg(usize),
    /// An object, named by its id.
    Obj(usize),
}

impl Loc {
    /// Whether an object can bind a locator under this selector.
    pub open spec fn is_attr(self) -> bool {
        self is Phi || self is Rho || self is Arg
    }

    /// Whether an object can bind a locator under this selector.
    #[verifier::when_used_as_spec(is_attr)]
    pub fn binds(self) -> (r: bool)
        ensures
            r == self.is_attr(),
    {
        match self {
            Loc::Phi => true,
            Loc::Rho => true,
            Loc::Arg(_) => true,
            _ => false,
        }
    }
}

/// A path to something that can be dataized: a number of hops, each to the
/// basket that encloses the current one, and the selector applied there.
#[derive(Clone, Copy, Debug, PartialEq, Eq, Hash, Structural)]
pub struct Locator {
    pub hops: usize,
    pub terminal: Loc,
}

impl Locator {
    /// The locator that makes `hops` hops and then applies `terminal`.
    pub fn new(hops: usize, terminal: Loc) -> (r: Locator)
        ensures
            r == (Locator { hops, terminal }),
    {
        Locator { hops, terminal }
    }

    /// The locator that names an object directly.
    pub fn object(id: usize) -> (r: Locator)
        ensures
            r == (Locator { hops: 0, terminal: Loc::Obj(id) }),
    {
        Locator { hops: 0, terminal: Loc::Obj(id) }
    }
}

/// What an object keeps under an attribute: a locator, and whether following
/// it opens a new basket.
#[derive(Clone, Copy, Debug, PartialEq, Eq, Hash, Structural)]
pub struct Binding {
    pub locator: Locator,
    pub applied: bool,
}

} // verus!
