use vstd::prelude::*;
use crate::atom::Atom;
use crate::basket::Key;
use crate::data::{Data, Error};
use crate::emu::Emu;
use crate::loc::{Loc, Locator};
use crate::machine::{accounted, calc_of, lemma_reduce_accounts, reduce_of, State};
use crate::semantics::{
    eval, eval_agrees, fetch, lemma_eval_same, resolve, run, settled, Chain, Graph, Target,
};

verus! {

/// Dataization is deterministic: two dataizations of one object, in baskets
/// with the same chain of enclosing baskets, that both came to an end came
/// to the same end, whatever depth each was allowed and whatever either
/// engine had cached.
pub proof fn law_determinism(
    g: Graph,
    o: usize,
    chain: Chain,
    d1: nat,
    r1: Result<Data, Error>,
    d2: nat,
    r2: Result<Data, Error>,
)
    requires
        eval_agrees(g, o, chain, d1, r1),
        eval_agrees(g, o, chain, d2, r2),
        settled(r1),
        settled(r2),
    ensures
        r1 == r2,
{
    let f1 = choose|f: nat| eval(g, o, chain, f) == r1;
    let f2 = choose|f: nat| eval(g, o, chain, f) == r2;
    lemma_eval_same(g, o, chain, f1, f2);
}

/// A choice is lazy: once the condition has come to a scalar, the operation
/// comes to whatever the chosen branch comes to, be the other branch broken,
/// empty or endless.
pub proof fn law_lazy_choice(g: Graph, o: usize, chain: Chain, f: nat, x: Data)
    requires
        fetch(g, o, Loc::Rho, chain, f) == Ok::<Data, Error>(x),
    ensures
        x == 1 ==> run(g, Atom::BoolIf, o, chain, f) == fetch(g, o, Loc::Arg(0), chain, f),
        x != 1 ==> run(g, Atom::BoolIf, o, chain, f) == fetch(g, o, Loc::Arg(1), chain, f),
{
}

/// An object that holds a literal and no operation dataizes to that literal
/// in every basket, within any depth but none.
pub proof fn law_literal(g: Graph, o: usize, chain: Chain, f: nat)
    requires
        g.dom().contains(o),
        g[o].lambda is None,
        g[o].delta is Some,
        f >= 1,
    ensures
        eval(g, o, chain, f) == Ok::<Data, Error>(g[o].delta->Some_0),
{
}

/// An object with no body, no literal and no operation cannot be dataized.
pub proof fn law_empty_object(g: Graph, o: usize, chain: Chain, f: nat)
    requires
        g.dom().contains(o),
        g[o].is_abstract(),
        f >= 1,
    ensures
        eval(g, o, chain, f) == Err::<Data, Error>(Error::EmptyObject),
{
}

/// An id that the table does not hold cannot be dataized.
pub proof fn law_unknown_object(g: Graph, o: usize, chain: Chain, f: nat)
    requires
        !g.dom().contains(o),
        f >= 1,
    ensures
        eval(g, o, chain, f) == Err::<Data, Error>(Error::UnknownObject),
{
}

/// A locator that asks for as many hops as the chain has baskets, or more,
/// is a broken closure: the last basket of a chain is the root, which
/// nothing encloses.
pub proof fn law_broken_closure(
    g: Graph,
    loc: Locator,
    o: usize,
    cur: Chain,
    at: Chain,
    n: nat,
)
    requires
        loc.hops > 0,
        cur.len() <= loc.hops,
        n >= 1,
    ensures
        resolve(g, loc, o, cur, at, n) == Err::<Target, Error>(Error::BrokenClosure),
{
}

/// A locator with fewer hops than the chain has baskets is no broken
/// closure.
pub proof fn law_closure_in_reach(
    g: Graph,
    loc: Locator,
    o: usize,
    cur: Chain,
    at: Chain,
    n: nat,
)
    requires
        loc.hops < cur.len(),
        loc.terminal is Obj,
        n >= 1,
    ensures
        resolve(g, loc, o, cur, at, n) == Ok::<Target, Error>(
            Target::Object(
                loc.terminal->Obj_0,
                if loc.hops == 0 {
                    at
                } else {
                    cur.skip(loc.hops - 1)
                },
            ),
        ),
{
}

/// At most once: what a basket has cached under an object and a selector,
/// the engine gives when asked for the pair again, and it touches nothing:
/// no basket is opened, nothing is cached and no counter moves.
pub proof fn law_at_most_once(g: Graph, st: State, o: usize, s: Loc, b: int, d: nat, v: Data)
    requires
        st.live(b),
        st.cached(b, Key { ob: o, loc: s }) == Some(v),
    ensures
        calc_of(g, st, o, s, b, d) == (st, Ok::<Data, Error>(v)),
{
}

/// An operation is invoked at most once for a basket: where the basket has
/// the result cached, reducing the object gives it and touches nothing; the
/// invocations counted stay as they are.
pub proof fn law_invoked_once(g: Graph, st: State, o: usize, b: int, d: nat, v: Data)
    requires
        d > 0,
        g.dom().contains(o),
        g[o].lambda is Some,
        st.cached(b, Key { ob: o, loc: Loc::Lambda }) == Some(v),
    ensures
        reduce_of(g, st, o, b, d) == (st, Ok::<Data, Error>(v)),
{
}

/// Reducing an object that holds a literal and no operation gives the
/// literal and invokes no operation, in whatever state the engine is.
pub proof fn law_literal_is_free(g: Graph, st: State, o: usize, b: int, d: nat)
    requires
        d > 0,
        g.dom().contains(o),
        g[o].lambda is None,
        g[o].delta is Some,
    ensures
        reduce_of(g, st, o, b, d).1 == Ok::<Data, Error>(g[o].delta->Some_0),
        reduce_of(g, st, o, b, d).0.perf.atoms == st.perf.atoms,
        reduce_of(g, st, o, b, d).0.records == st.records,
{
}

/// Hops compose: making `h1 + h2` hops from a chain is making `h1` hops and
/// then `h2` more from where they led, so that an argument is reached
/// through as many levels of nesting as the chain has.
pub proof fn law_hops_compose(
    g: Graph,
    h1: usize,
    h2: usize,
    t: Loc,
    o: usize,
    cur: Chain,
    at: Chain,
    n: nat,
)
    requires
        0 < h1 < cur.len(),
        h1 + h2 <= usize::MAX,
    ensures
        resolve(g, Locator { hops: (h1 + h2) as usize, terminal: t }, o, cur, at, n) == resolve(
            g,
            Locator { hops: h2, terminal: t },
            cur[h1 - 1].host,
            cur.skip(h1 as int),
            cur.skip(h1 - 1),
            n,
        ),
{
    let rest = cur.skip(h1 as int);
    if h1 + h2 < cur.len() {
        assert(rest.skip(h2 as int) =~= cur.skip(h1 + h2));
        if h2 > 0 {
            assert(rest.skip(h2 - 1) =~= cur.skip(h1 + h2 - 1));
        }
    }
}

/// Independent baskets agree: two baskets bound to the same object with the
/// same baskets around them, be they in one engine or in two with the same
/// graph, dataize to the same scalar or fail alike, once both come to an
/// end.
pub proof fn law_independent_baskets(
    a: &Emu,
    ba: int,
    ra: Result<Data, Error>,
    b: &Emu,
    bb: int,
    rb: Result<Data, Error>,
)
    requires
        a.graph() == b.graph(),
        a.live(ba),
        b.live(bb),
        a.chain(ba) == b.chain(bb),
        eval_agrees(a.graph(), a.records()[ba].ob, a.chain(ba), a.allowance() as nat, ra),
        eval_agrees(b.graph(), b.records()[bb].ob, b.chain(bb), b.allowance() as nat, rb),
        settled(ra),
        settled(rb),
    ensures
        ra == rb,
{
    assert(a.chain(ba)[0].ob == a.records()[ba].ob);
    assert(b.chain(bb)[0].ob == b.records()[bb].ob);
    law_determinism(
        a.graph(),
        a.records()[ba].ob,
        a.chain(ba),
        a.allowance() as nat,
        ra,
        b.allowance() as nat,
        rb,
    );
}

/// Baskets are accounted for: a dataization takes no basket away, and it
/// opens exactly as many as it counts `NEW` transitions, one for each
/// applied binding that it follows.
pub proof fn law_baskets_accounted(g: Graph, st: State, o: usize, b: int, d: nat)
    ensures
        accounted(st, reduce_of(g, st, o, b, d).0),
{
    lemma_reduce_accounts(g, st, o, b, d);
}

} // verus!
