use vstd::prelude::*;
use crate::loc::Loc;
use crate::semantics::{Chain, Frame};

verus! {

/// What a cached scalar is filed under: the object asked and the selector
/// asked of it.
#[derive(Clone, Copy, Debug, PartialEq, Eq, Hash, Structural)]
pub struct Key {
    pub ob: usize,
    pub loc: Loc,
}

/// An activation record: the object that it is bound to, the object whose
/// applied binding opened it, the basket that was active then, and whether
/// the record is still in use.
#[derive(Clone, Copy, Debug, PartialEq, Eq, Structural)]
pub struct Basket {
    pub ob: usize,
    pub host: usize,
    pub psi: Option<usize>,
    pub alive: bool,
}

impl Basket {
    /// The frame that the basket contributes to a chain.
    pub open spec fn frame(self) -> Frame {
        Frame { ob: self.ob, host: self.host }
    }

    /// Whether two records agree in all but being in use.
    pub open spec fn same_place(self, other: Basket) -> bool {
        self.ob == other.ob && self.host == other.host && self.psi == other.psi
    }
}

/// The baskets form a tree under the root, basket 0: every other basket is
/// enclosed by one made before it, and a basket in use is enclosed by one in
/// use.
pub open spec fn is_tree(bs: Seq<Basket>) -> bool {
    &&& bs.len() >= 1
    &&& bs[0].psi is None
    &&& bs[0].alive
    &&& forall|i: int|
        1 <= i < bs.len() ==> {
            &&& (#[trigger] bs[i]).psi is Some
            &&& bs[i].psi->Some_0 < i
            &&& (bs[i].alive ==> bs[bs[i].psi->Some_0 as int].alive)
        }
}

/// Basket `b` with the baskets that enclose it, innermost first.
pub open spec fn chain_of(bs: Seq<Basket>, b: int) -> Chain
    decreases b,
{
    if b < 0 || b >= bs.len() {
        Seq::empty()
    } else {
        seq![bs[b].frame()] + (match bs[b].psi {
            Some(p) => if p < b {
                chain_of(bs, p as int)
            } else {
                Seq::empty()
            },
            None => Seq::empty(),
        })
    }
}

/// The chain of a basket starts with its own frame and goes on with the
/// chain of the basket that encloses it.
pub proof fn lemma_chain_unfold(bs: Seq<Basket>, b: int)
    requires
        is_tree(bs),
        0 <= b < bs.len(),
    ensures
        chain_of(bs, b).len() >= 1,
        chain_of(bs, b)[0] == bs[b].frame(),
        bs[b].psi is None ==> chain_of(bs, b).len() == 1,
        bs[b].psi is Some ==> chain_of(bs, b).skip(1) == chain_of(bs, bs[b].psi->Some_0 as int),
        bs[b].psi is Some ==> chain_of(bs, b).len() >= 2,
    decreases b,
{
    if bs[b].psi is Some {
        let p = bs[b].psi->Some_0 as int;
        assert(b >= 1);
        lemma_chain_unfold(bs, p);
        assert(chain_of(bs, b).skip(1) =~= chain_of(bs, p));
    }
}

/// A chain depends only on the places of the baskets up to its own.
pub proof fn lemma_chain_same(a: Seq<Basket>, c: Seq<Basket>, b: int)
    requires
        0 <= b < a.len() <= c.len(),
        forall|i: int| 0 <= i <= b ==> (#[trigger] a[i]).same_place(c[i]),
    ensures
        chain_of(a, b) == chain_of(c, b),
    decreases b,
{
    match a[b].psi {
        Some(p) => {
            if p < b {
                lemma_chain_same(a, c, p as int);
            }
        },
        None => {},
    }
}

} // verus!
