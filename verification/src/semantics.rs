//! What the objects of a graph denote. An object is dataized in a basket,
//! and all that matters of a basket is its chain: the basket itself and the
//! baskets around it, each with the object that it is bound to and the
//! object that holds its arguments. The functions here say, for a graph and
//! a chain, what comes of an object: a scalar or a failure. They count
//! depth, and report `DepthExceeded` where the depth allowed is used up; a
//! result other than that stays the same with any greater depth.
use vstd::prelude::*;
use crate::atom::{Atom, Instr, REGISTERS};
use crate::data::{checked_diff, checked_sum, less_flag, Data, Error};
use crate::loc::{Binding, Loc, Locator};
use crate::object::ObjectView;

verus! {

/// The static graph: the objects by their ids.
pub type Graph = Map<usize, ObjectView>;

/// One activation: the object that it is bound to, and the object whose
/// applied binding opened it (the holder of the arguments).
pub struct Frame {
    pub ob: usize,
    pub host: usize,
}

/// A basket with all the baskets that enclose it, innermost first. The last
/// frame is the root basket's, and its `host` means nothing.
pub type Chain = Seq<Frame>;

/// What a locator denotes.
pub enum Target {
    /// An object, to be dataized in the basket whose chain is given.
    Object(usize, Chain),
    /// A literal: nothing is left to do.
    Literal(Data),
}

/// Where the attribute `s` of object `o` is bound: on `o` itself, or on the
/// first object that has it along the bodies that name their object
/// directly (an object offers what the object that it decorates offers).
/// `n` bounds the length of that walk.
pub open spec fn find_attr(g: Graph, o: usize, s: Loc, n: nat) -> Result<(usize, Binding), Error>
    decreases n,
{
    if n == 0 {
        Err(Error::DepthExceeded)
    } else if !g.dom().contains(o) {
        Err(Error::UnknownObject)
    } else {
        match g[o].attr(s) {
            Some(b) => Ok((o, b)),
            None => match g[o].phi {
                Some(Binding { locator: Locator { hops: 0, terminal: Loc::Obj(t) }, .. }) => find_attr(
                    g,
                    t,
                    s,
                    (n - 1) as nat,
                ),
                _ => Err(Error::UnknownAttribute),
            },
        }
    }
}

/// What `loc` denotes for object `o`. Hops start from the chain `cur`; each
/// leads to the basket around and to the object that holds the arguments of
/// the basket left. `at` is the chain of the basket in which an object that
/// the locator names is dataized: the basket that the last hop left, or the
/// one where the resolution began, so that an argument is dataized in the
/// basket that asks for it. A selector that is an attribute is looked up
/// on the object reached and its locator resolved from there; that such a
/// binding is applied plays no part here. `n` bounds the number of bindings
/// followed.
pub open spec fn resolve(g: Graph, loc: Locator, o: usize, cur: Chain, at: Chain, n: nat) -> Result<
    Target,
    Error,
>
    decreases n,
{
    if n == 0 {
        Err(Error::DepthExceeded)
    } else if loc.hops > 0 && cur.len() <= loc.hops {
        Err(Error::BrokenClosure)
    } else {
        let o2 = if loc.hops == 0 {
            o
        } else {
            cur[loc.hops - 1].host
        };
        let cur2 = cur.skip(loc.hops as int);
        let at2 = if loc.hops == 0 {
            at
        } else {
            cur.skip(loc.hops - 1)
        };
        match loc.terminal {
            Loc::Obj(t) => Ok(Target::Object(t, at2)),
            Loc::Delta => if !g.dom().contains(o2) {
                Err(Error::UnknownObject)
            } else {
                match g[o2].delta {
                    Some(d) => Ok(Target::Literal(d)),
                    None => Err(Error::UnknownAttribute),
                }
            },
            Loc::Lambda => if !g.dom().contains(o2) {
                Err(Error::UnknownObject)
            } else if g[o2].lambda is None {
                Err(Error::UnknownAttribute)
            } else {
                Ok(Target::Object(o2, cur2))
            },
            s => match find_attr(g, o2, s, (n - 1) as nat) {
                Err(e) => Err(e),
                Ok((h, b)) => resolve(g, b.locator, h, cur2, at2, (n - 1) as nat),
            },
        }
    }
}

/// The chain of the basket that an applied binding of `host` opens for
/// object `ob` while `chain` is active.
pub open spec fn enter(chain: Chain, ob: usize, host: usize) -> Chain {
    seq![Frame { ob, host }] + chain
}

/// The scalar that object `o` reduces to in the basket with chain `chain`,
/// within `fuel` levels of nesting.
pub open spec fn eval(g: Graph, o: usize, chain: Chain, fuel: nat) -> Result<Data, Error>
    decreases fuel, 0nat,
{
    if fuel == 0 {
        Err(Error::DepthExceeded)
    } else if !g.dom().contains(o) {
        Err(Error::UnknownObject)
    } else if g[o].lambda is Some {
        run(g, g[o].lambda->Some_0, o, chain, (fuel - 1) as nat)
    } else if g[o].delta is Some {
        Ok(g[o].delta->Some_0)
    } else if g[o].phi is Some {
        fetch(g, o, Loc::Phi, chain, (fuel - 1) as nat)
    } else {
        Err(Error::EmptyObject)
    }
}

/// The scalar that selector `s` denotes for object `o` in the basket with
/// chain `chain`. An attribute is found, its locator resolved, and the
/// object that it names dataized: in a new basket where the binding is
/// applied, else in the basket that the resolution gives.
pub open spec fn fetch(g: Graph, o: usize, s: Loc, chain: Chain, fuel: nat) -> Result<Data, Error>
    decreases fuel, 1nat,
{
    if s.is_attr() {
        match find_attr(g, o, s, fuel) {
            Err(e) => Err(e),
            Ok((h, b)) => match resolve(g, b.locator, h, chain, chain, fuel) {
                Err(e) => Err(e),
                Ok(Target::Literal(d)) => Ok(d),
                Ok(Target::Object(t, at)) => if b.applied {
                    eval(g, t, enter(chain, t, o), fuel)
                } else {
                    eval(g, t, at, fuel)
                },
            },
        }
    } else {
        match resolve(g, Locator { hops: 0, terminal: s }, o, chain, chain, fuel) {
            Err(e) => Err(e),
            Ok(Target::Literal(d)) => Ok(d),
            Ok(Target::Object(t, at)) => eval(g, t, at, fuel),
        }
    }
}

/// The scalar that operation `a` of object `o` produces in the basket with
/// chain `chain`.
pub open spec fn run(g: Graph, a: Atom, o: usize, chain: Chain, fuel: nat) -> Result<Data, Error>
    decreases fuel, 2nat,
{
    match a {
        Atom::IntAdd => match fetch(g, o, Loc::Rho, chain, fuel) {
            Err(e) => Err(e),
            Ok(x) => match fetch(g, o, Loc::Arg(0), chain, fuel) {
                Err(e) => Err(e),
                Ok(y) => checked_sum(x, y),
            },
        },
        Atom::IntSub => match fetch(g, o, Loc::Rho, chain, fuel) {
            Err(e) => Err(e),
            Ok(x) => match fetch(g, o, Loc::Arg(0), chain, fuel) {
                Err(e) => Err(e),
                Ok(y) => checked_diff(x, y),
            },
        },
        Atom::IntLess => match fetch(g, o, Loc::Rho, chain, fuel) {
            Err(e) => Err(e),
            Ok(x) => match fetch(g, o, Loc::Arg(0), chain, fuel) {
                Err(e) => Err(e),
                Ok(y) => Ok(less_flag(x, y)),
            },
        },
        Atom::BoolIf => match fetch(g, o, Loc::Rho, chain, fuel) {
            Err(e) => Err(e),
            Ok(x) => if x == 1 {
                fetch(g, o, Loc::Arg(0), chain, fuel)
            } else {
                fetch(g, o, Loc::Arg(1), chain, fuel)
            },
        },
        Atom::IntNeg => match fetch(g, o, Loc::Rho, chain, fuel) {
            Err(e) => Err(e),
            Ok(x) => checked_diff(0, x),
        },
        Atom::Code => if g.dom().contains(o) {
            interp(g, g[o].code, 0, blank_registers(), o, chain, fuel)
        } else {
            Err(Error::UnknownObject)
        },
    }
}

/// The registers as a program finds them: all zero.
pub open spec fn blank_registers() -> Seq<Data> {
    Seq::new(REGISTERS as nat, |i: int| 0i64)
}

/// What the program `code` of object `o` produces from instruction `pc` on,
/// with registers `regs`, in the basket with chain `chain`. An instruction
/// that names no register, a jump that does not lead ahead to an
/// instruction and a program that runs off its end are each an
/// `AtomFailure`.
pub open spec fn interp(
    g: Graph,
    code: Seq<Instr>,
    pc: int,
    regs: Seq<Data>,
    o: usize,
    chain: Chain,
    fuel: nat,
) -> Result<Data, Error>
    decreases fuel, 2nat, code.len() - pc,
{
    if pc < 0 || pc >= code.len() {
        Err(Error::AtomFailure)
    } else {
        match code[pc] {
            Instr::Dataize(s, r) => if r >= regs.len() {
                Err(Error::AtomFailure)
            } else {
                match fetch(g, o, s, chain, fuel) {
                    Err(e) => Err(e),
                    Ok(v) => interp(g, code, pc + 1, regs.update(r as int, v), o, chain, fuel),
                }
            },
            Instr::Add(a, b, r) => if a >= regs.len() || b >= regs.len() || r >= regs.len() {
                Err(Error::AtomFailure)
            } else {
                match checked_sum(regs[a as int], regs[b as int]) {
                    Err(e) => Err(e),
                    Ok(v) => interp(g, code, pc + 1, regs.update(r as int, v), o, chain, fuel),
                }
            },
            Instr::Sub(a, b, r) => if a >= regs.len() || b >= regs.len() || r >= regs.len() {
                Err(Error::AtomFailure)
            } else {
                match checked_diff(regs[a as int], regs[b as int]) {
                    Err(e) => Err(e),
                    Ok(v) => interp(g, code, pc + 1, regs.update(r as int, v), o, chain, fuel),
                }
            },
            Instr::Jump(a, b, t) => if a >= regs.len() || b >= regs.len() {
                Err(Error::AtomFailure)
            } else if regs[a as int] < regs[b as int] {
                if pc < t < code.len() {
                    interp(g, code, t as int, regs, o, chain, fuel)
                } else {
                    Err(Error::AtomFailure)
                }
            } else {
                interp(g, code, pc + 1, regs, o, chain, fuel)
            },
            Instr::Read(a, r) => if a >= regs.len() || r >= regs.len() {
                Err(Error::AtomFailure)
            } else {
                interp(g, code, pc + 1, regs.update(r as int, regs[a as int]), o, chain, fuel)
            },
            Instr::Write(d, r) => if r >= regs.len() {
                Err(Error::AtomFailure)
            } else {
                interp(g, code, pc + 1, regs.update(r as int, d), o, chain, fuel)
            },
            Instr::Return(r) => if r >= regs.len() {
                Err(Error::AtomFailure)
            } else {
                Ok(regs[r as int])
            },
        }
    }
}

/// Whether a result is final: it did not come from running out of depth.
pub open spec fn settled<T>(r: Result<T, Error>) -> bool {
    r != Err::<T, Error>(Error::DepthExceeded)
}

/// A walk that found its end finds the same end with more room.
pub proof fn lemma_find_attr_more(g: Graph, o: usize, s: Loc, n: nat, m: nat)
    requires
        n <= m,
        settled(find_attr(g, o, s, n)),
    ensures
        find_attr(g, o, s, m) == find_attr(g, o, s, n),
    decreases n,
{
    if n > 0 && g.dom().contains(o) && g[o].attr(s) is None {
        match g[o].phi {
            Some(Binding { locator: Locator { hops: 0, terminal: Loc::Obj(t) }, .. }) => {
                lemma_find_attr_more(g, t, s, (n - 1) as nat, (m - 1) as nat);
            },
            _ => {},
        }
    }
}

/// A resolution that came to an end comes to the same end with more room.
pub proof fn lemma_resolve_more(
    g: Graph,
    loc: Locator,
    o: usize,
    cur: Chain,
    at: Chain,
    n: nat,
    m: nat,
)
    requires
        n <= m,
        settled(resolve(g, loc, o, cur, at, n)),
    ensures
        resolve(g, loc, o, cur, at, m) == resolve(g, loc, o, cur, at, n),
    decreases n,
{
    if n > 0 && !(loc.hops > 0 && cur.len() <= loc.hops) {
        let o2 = if loc.hops == 0 {
            o
        } else {
            cur[loc.hops - 1].host
        };
        let cur2 = cur.skip(loc.hops as int);
        let at2 = if loc.hops == 0 {
            at
        } else {
            cur.skip(loc.hops - 1)
        };
        if loc.terminal.is_attr() {
            let s = loc.terminal;
            lemma_find_attr_more(g, o2, s, (n - 1) as nat, (m - 1) as nat);
            match find_attr(g, o2, s, (n - 1) as nat) {
                Err(e) => {},
                Ok((h, b)) => {
                    lemma_resolve_more(g, b.locator, h, cur2, at2, (n - 1) as nat, (m - 1) as nat);
                },
            }
        }
    }
}

/// A dataization that came to an end comes to the same end with more depth.
pub proof fn lemma_eval_more(g: Graph, o: usize, chain: Chain, n: nat, m: nat)
    requires
        n <= m,
        settled(eval(g, o, chain, n)),
    ensures
        eval(g, o, chain, m) == eval(g, o, chain, n),
    decreases n, 0nat,
{
    if n > 0 && g.dom().contains(o) {
        if g[o].lambda is Some {
            lemma_run_more(g, g[o].lambda->Some_0, o, chain, (n - 1) as nat, (m - 1) as nat);
        } else if g[o].delta is Some {
        } else if g[o].phi is Some {
            lemma_fetch_more(g, o, Loc::Phi, chain, (n - 1) as nat, (m - 1) as nat);
        }
    }
}

/// What a selector denotes within some depth, it denotes with more depth.
pub proof fn lemma_fetch_more(g: Graph, o: usize, s: Loc, chain: Chain, n: nat, m: nat)
    requires
        n <= m,
        settled(fetch(g, o, s, chain, n)),
    ensures
        fetch(g, o, s, chain, m) == fetch(g, o, s, chain, n),
    decreases n, 1nat,
{
    if s.is_attr() {
        lemma_find_attr_more(g, o, s, n, m);
        match find_attr(g, o, s, n) {
            Err(e) => {},
            Ok((h, b)) => {
                lemma_resolve_more(g, b.locator, h, chain, chain, n, m);
                match resolve(g, b.locator, h, chain, chain, n) {
                    Ok(Target::Object(t, at)) => {
                        if b.applied {
                            lemma_eval_more(g, t, enter(chain, t, o), n, m);
                        } else {
                            lemma_eval_more(g, t, at, n, m);
                        }
                    },
                    _ => {},
                }
            },
        }
    } else {
        let loc = Locator { hops: 0, terminal: s };
        lemma_resolve_more(g, loc, o, chain, chain, n, m);
        match resolve(g, loc, o, chain, chain, n) {
            Ok(Target::Object(t, at)) => {
                lemma_eval_more(g, t, at, n, m);
            },
            _ => {},
        }
    }
}

/// What an operation produces within some depth, it produces with more depth.
pub proof fn lemma_run_more(g: Graph, a: Atom, o: usize, chain: Chain, n: nat, m: nat)
    requires
        n <= m,
        settled(run(g, a, o, chain, n)),
    ensures
        run(g, a, o, chain, m) == run(g, a, o, chain, n),
    decreases n, 2nat,
{
    if a is Code {
        if g.dom().contains(o) {
            lemma_interp_more(g, g[o].code, 0, blank_registers(), o, chain, n, m);
        }
    } else {
        lemma_fetch_more(g, o, Loc::Rho, chain, n, m);
        match fetch(g, o, Loc::Rho, chain, n) {
            Err(e) => {},
            Ok(x) => {
                match a {
                    Atom::BoolIf => {
                        if x == 1 {
                            lemma_fetch_more(g, o, Loc::Arg(0), chain, n, m);
                        } else {
                            lemma_fetch_more(g, o, Loc::Arg(1), chain, n, m);
                        }
                    },
                    Atom::IntNeg => {},
                    _ => {
                        lemma_fetch_more(g, o, Loc::Arg(0), chain, n, m);
                    },
                }
            },
        }
    }
}

/// What a program produces within some depth, it produces with more depth.
pub proof fn lemma_interp_more(
    g: Graph,
    code: Seq<Instr>,
    pc: int,
    regs: Seq<Data>,
    o: usize,
    chain: Chain,
    n: nat,
    m: nat,
)
    requires
        n <= m,
        settled(interp(g, code, pc, regs, o, chain, n)),
    ensures
        interp(g, code, pc, regs, o, chain, m) == interp(g, code, pc, regs, o, chain, n),
    decreases n, 2nat, code.len() - pc,
{
    if 0 <= pc < code.len() {
        match code[pc] {
            Instr::Dataize(s, r) => {
                if r < regs.len() {
                    lemma_fetch_more(g, o, s, chain, n, m);
                    match fetch(g, o, s, chain, n) {
                        Err(e) => {},
                        Ok(v) => {
                            lemma_interp_more(g, code, pc + 1, regs.update(r as int, v), o, chain, n, m);
                        },
                    }
                }
            },
            Instr::Add(a, b, r) => {
                if a < regs.len() && b < regs.len() && r < regs.len() {
                    match checked_sum(regs[a as int], regs[b as int]) {
                        Err(e) => {},
                        Ok(v) => {
                            lemma_interp_more(g, code, pc + 1, regs.update(r as int, v), o, chain, n, m);
                        },
                    }
                }
            },
            Instr::Sub(a, b, r) => {
                if a < regs.len() && b < regs.len() && r < regs.len() {
                    match checked_diff(regs[a as int], regs[b as int]) {
                        Err(e) => {},
                        Ok(v) => {
                            lemma_interp_more(g, code, pc + 1, regs.update(r as int, v), o, chain, n, m);
                        },
                    }
                }
            },
            Instr::Jump(a, b, t) => {
                if a < regs.len() && b < regs.len() {
                    if regs[a as int] < regs[b as int] {
                        if pc < t < code.len() {
                            lemma_interp_more(g, code, t as int, regs, o, chain, n, m);
                        }
                    } else {
                        lemma_interp_more(g, code, pc + 1, regs, o, chain, n, m);
                    }
                }
            },
            Instr::Read(a, r) => {
                if a < regs.len() && r < regs.len() {
                    lemma_interp_more(
                        g,
                        code,
                        pc + 1,
                        regs.update(r as int, regs[a as int]),
                        o,
                        chain,
                        n,
                        m,
                    );
                }
            },
            Instr::Write(d, r) => {
                if r < regs.len() {
                    lemma_interp_more(g, code, pc + 1, regs.update(r as int, d), o, chain, n, m);
                }
            },
            Instr::Return(r) => {},
        }
    }
}

/// Two dataizations of one object in one chain that both came to an end
/// came to the same end.
pub proof fn lemma_eval_same(g: Graph, o: usize, chain: Chain, n: nat, m: nat)
    requires
        settled(eval(g, o, chain, n)),
        settled(eval(g, o, chain, m)),
    ensures
        eval(g, o, chain, n) == eval(g, o, chain, m),
{
    if n <= m {
        lemma_eval_more(g, o, chain, n, m);
    } else {
        lemma_eval_more(g, o, chain, m, n);
    }
}

/// A selector denotes one thing, whatever the depth within which it is
/// found.
pub proof fn lemma_fetch_same(g: Graph, o: usize, s: Loc, chain: Chain, n: nat, m: nat)
    requires
        settled(fetch(g, o, s, chain, n)),
        settled(fetch(g, o, s, chain, m)),
    ensures
        fetch(g, o, s, chain, n) == fetch(g, o, s, chain, m),
{
    if n <= m {
        lemma_fetch_more(g, o, s, chain, n, m);
    } else {
        lemma_fetch_more(g, o, s, chain, m, n);
    }
}

/// `r` is what dataizing `o` in `chain` comes to: the calculus gives `r`
/// within some depth, or `r` reports that depth `d` does not suffice and the
/// calculus says the same.
pub open spec fn eval_agrees(g: Graph, o: usize, chain: Chain, d: nat, r: Result<Data, Error>) -> bool {
    if settled(r) {
        exists|f: nat| eval(g, o, chain, f) == r
    } else {
        eval(g, o, chain, d) == r
    }
}

/// `r` is what selector `s` of `o` comes to in `chain`, in the sense of
/// `eval_agrees`.
pub open spec fn fetch_agrees(
    g: Graph,
    o: usize,
    s: Loc,
    chain: Chain,
    d: nat,
    r: Result<Data, Error>,
) -> bool {
    if settled(r) {
        exists|f: nat| fetch(g, o, s, chain, f) == r
    } else {
        fetch(g, o, s, chain, d) == r
    }
}

/// `r` is what operation `a` of `o` comes to in `chain`, in the sense of
/// `eval_agrees`.
pub open spec fn run_agrees(
    g: Graph,
    a: Atom,
    o: usize,
    chain: Chain,
    d: nat,
    r: Result<Data, Error>,
) -> bool {
    if settled(r) {
        exists|f: nat| run(g, a, o, chain, f) == r
    } else {
        run(g, a, o, chain, d) == r
    }
}

/// Asking an object for its operation is dataizing it.
pub proof fn lemma_fetch_lambda(g: Graph, o: usize, chain: Chain, f: nat)
    requires
        g.dom().contains(o),
        g[o].lambda is Some,
    ensures
        fetch(g, o, Loc::Lambda, chain, f) == eval(g, o, chain, f),
{
    assert(chain.skip(0) =~= chain);
}

/// Asking an object for its literal gives the literal.
pub proof fn lemma_fetch_delta(g: Graph, o: usize, chain: Chain, f: nat)
    requires
        g.dom().contains(o),
        g[o].delta is Some,
        f >= 1,
    ensures
        fetch(g, o, Loc::Delta, chain, f) == Ok::<Data, Error>(g[o].delta->Some_0),
{
}

/// What the two operands of an operation with two operands give together:
/// the first failure, or the operation applied.
pub open spec fn combine(a: Atom, rx: Result<Data, Error>, ry: Result<Data, Error>) -> Result<
    Data,
    Error,
> {
    match rx {
        Err(e) => Err(e),
        Ok(x) => match ry {
            Err(e) => Err(e),
            Ok(y) => match a {
                Atom::IntAdd => checked_sum(x, y),
                Atom::IntSub => checked_diff(x, y),
                _ => Ok(less_flag(x, y)),
            },
        },
    }
}

/// An operation on two operands comes to what its operands come to,
/// combined.
pub proof fn lemma_run_two(
    g: Graph,
    a: Atom,
    o: usize,
    chain: Chain,
    d: nat,
    rx: Result<Data, Error>,
    ry: Result<Data, Error>,
)
    requires
        a is IntAdd || a is IntSub || a is IntLess,
        fetch_agrees(g, o, Loc::Rho, chain, d, rx),
        rx is Ok ==> fetch_agrees(g, o, Loc::Arg(0), chain, d, ry),
    ensures
        run_agrees(g, a, o, chain, d, combine(a, rx, ry)),
{
    match rx {
        Err(e) => {
            if settled(rx) {
                let f = choose|f: nat| fetch(g, o, Loc::Rho, chain, f) == rx;
                assert(run(g, a, o, chain, f) == combine(a, rx, ry));
            }
        },
        Ok(x) => {
            let fx = choose|f: nat| fetch(g, o, Loc::Rho, chain, f) == rx;
            if settled(ry) {
                let fy = choose|f: nat| fetch(g, o, Loc::Arg(0), chain, f) == ry;
                let f = if fx <= fy {
                    fy
                } else {
                    fx
                };
                lemma_fetch_more(g, o, Loc::Rho, chain, fx, f);
                lemma_fetch_more(g, o, Loc::Arg(0), chain, fy, f);
                assert(run(g, a, o, chain, f) == combine(a, rx, ry));
            } else {
                if settled(fetch(g, o, Loc::Rho, chain, d)) {
                    lemma_fetch_same(g, o, Loc::Rho, chain, d, fx);
                }
            }
        },
    }
}

/// Negation comes to what its operand comes to, taken from zero.
pub proof fn lemma_run_neg(g: Graph, o: usize, chain: Chain, d: nat, rx: Result<Data, Error>)
    requires
        fetch_agrees(g, o, Loc::Rho, chain, d, rx),
    ensures
        run_agrees(
            g,
            Atom::IntNeg,
            o,
            chain,
            d,
            match rx {
                Err(e) => Err(e),
                Ok(x) => checked_diff(0, x),
            },
        ),
{
    if settled(rx) {
        let f = choose|f: nat| fetch(g, o, Loc::Rho, chain, f) == rx;
        assert(run(g, Atom::IntNeg, o, chain, f) == match rx {
            Err(e) => Err(e),
            Ok(x) => checked_diff(0, x),
        });
    }
}

/// A choice comes to what the chosen branch comes to; the other branch has
/// no part in it.
pub proof fn lemma_run_if(
    g: Graph,
    o: usize,
    chain: Chain,
    d: nat,
    rx: Result<Data, Error>,
    ry: Result<Data, Error>,
)
    requires
        fetch_agrees(g, o, Loc::Rho, chain, d, rx),
        rx is Ok ==> fetch_agrees(
            g,
            o,
            if rx->Ok_0 == 1 {
                Loc::Arg(0)
            } else {
                Loc::Arg(1)
            },
            chain,
            d,
            ry,
        ),
    ensures
        run_agrees(
            g,
            Atom::BoolIf,
            o,
            chain,
            d,
            match rx {
                Err(e) => Err(e),
                Ok(x) => ry,
            },
        ),
{
    match rx {
        Err(e) => {
            if settled(rx) {
                let f = choose|f: nat| fetch(g, o, Loc::Rho, chain, f) == rx;
                assert(run(g, Atom::BoolIf, o, chain, f) == rx);
            }
        },
        Ok(x) => {
            let s = if x == 1 {
                Loc::Arg(0)
            } else {
                Loc::Arg(1)
            };
            let fx = choose|f: nat| fetch(g, o, Loc::Rho, chain, f) == rx;
            if settled(ry) {
                let fy = choose|f: nat| fetch(g, o, s, chain, f) == ry;
                let f = if fx <= fy {
                    fy
                } else {
                    fx
                };
                lemma_fetch_more(g, o, Loc::Rho, chain, fx, f);
                lemma_fetch_more(g, o, s, chain, fy, f);
                assert(run(g, Atom::BoolIf, o, chain, f) == ry);
            } else {
                if settled(fetch(g, o, Loc::Rho, chain, d)) {
                    lemma_fetch_same(g, o, Loc::Rho, chain, d, fx);
                }
            }
        },
    }
}

/// Where the binding that a selector leads to names an object, the selector
/// comes to what that object comes to in its basket.
pub proof fn lemma_fetch_lands(
    g: Graph,
    o: usize,
    s: Loc,
    chain: Chain,
    d: nat,
    t: usize,
    place: Chain,
    r: Result<Data, Error>,
)
    requires
        forall|f: nat| f >= d ==> #[trigger] fetch(g, o, s, chain, f) == eval(g, t, place, f),
        eval_agrees(g, t, place, d, r),
    ensures
        fetch_agrees(g, o, s, chain, d, r),
{
    if settled(r) {
        let f0 = choose|f: nat| eval(g, t, place, f) == r;
        let f = if f0 <= d {
            d
        } else {
            f0
        };
        lemma_eval_more(g, t, place, f0, f);
        assert(fetch(g, o, s, chain, f) == r);
    }
}

/// With the depth at which a selector's binding is found and resolved, and
/// with any greater depth, the selector comes to what the object named
/// comes to.
pub proof fn lemma_fetch_path(g: Graph, o: usize, s: Loc, chain: Chain, d: nat, f: nat)
    requires
        f >= d,
        s.is_attr() ==> find_attr(g, o, s, d) is Ok,
        settled(
            resolve(
                g,
                if s.is_attr() {
                    find_attr(g, o, s, d)->Ok_0.1.locator
                } else {
                    Locator { hops: 0, terminal: s }
                },
                if s.is_attr() {
                    find_attr(g, o, s, d)->Ok_0.0
                } else {
                    o
                },
                chain,
                chain,
                d,
            ),
        ),
    ensures
        s.is_attr() ==> find_attr(g, o, s, f) == find_attr(g, o, s, d),
        resolve(
            g,
            if s.is_attr() {
                find_attr(g, o, s, d)->Ok_0.1.locator
            } else {
                Locator { hops: 0, terminal: s }
            },
            if s.is_attr() {
                find_attr(g, o, s, d)->Ok_0.0
            } else {
                o
            },
            chain,
            chain,
            f,
        ) == resolve(
            g,
            if s.is_attr() {
                find_attr(g, o, s, d)->Ok_0.1.locator
            } else {
                Locator { hops: 0, terminal: s }
            },
            if s.is_attr() {
                find_attr(g, o, s, d)->Ok_0.0
            } else {
                o
            },
            chain,
            chain,
            d,
        ),
{
    if s.is_attr() {
        lemma_find_attr_more(g, o, s, d, f);
        let hb = find_attr(g, o, s, d)->Ok_0;
        lemma_resolve_more(g, hb.1.locator, hb.0, chain, chain, d, f);
    } else {
        lemma_resolve_more(g, Locator { hops: 0, terminal: s }, o, chain, chain, d, f);
    }
}

/// `r` is what the program `code` of `o` comes to from instruction `pc`
/// on, in the sense of `eval_agrees`.
pub open spec fn interp_agrees(
    g: Graph,
    code: Seq<Instr>,
    pc: int,
    regs: Seq<Data>,
    o: usize,
    chain: Chain,
    d: nat,
    r: Result<Data, Error>,
) -> bool {
    if settled(r) {
        exists|f: nat| interp(g, code, pc, regs, o, chain, f) == r
    } else {
        interp(g, code, pc, regs, o, chain, d) == r
    }
}

/// A program that dataizes at `pc` comes to the operand's failure, or to
/// what the rest of the program comes to with the operand in its register.
pub proof fn lemma_interp_dataize(
    g: Graph,
    code: Seq<Instr>,
    pc: int,
    regs: Seq<Data>,
    o: usize,
    chain: Chain,
    d: nat,
    rx: Result<Data, Error>,
    r: Result<Data, Error>,
)
    requires
        0 <= pc < code.len(),
        code[pc] is Dataize,
        code[pc]->Dataize_1 < regs.len(),
        fetch_agrees(g, o, code[pc]->Dataize_0, chain, d, rx),
        match rx {
            Err(e) => r == Err::<Data, Error>(e),
            Ok(v) => interp_agrees(
                g,
                code,
                pc + 1,
                regs.update(code[pc]->Dataize_1 as int, v),
                o,
                chain,
                d,
                r,
            ),
        },
    ensures
        interp_agrees(g, code, pc, regs, o, chain, d, r),
{
    let s = code[pc]->Dataize_0;
    let reg = code[pc]->Dataize_1 as int;
    match rx {
        Err(e) => {
            if settled(rx) {
                let f = choose|f: nat| fetch(g, o, s, chain, f) == rx;
                assert(interp(g, code, pc, regs, o, chain, f) == r);
            }
        },
        Ok(v) => {
            let fx = choose|f: nat| fetch(g, o, s, chain, f) == rx;
            let regs2 = regs.update(reg, v);
            let pc2 = pc + 1;
            if settled(r) {
                let fr = choose|f: nat| interp(g, code, pc2, regs2, o, chain, f) == r;
                let f = if fx <= fr {
                    fr
                } else {
                    fx
                };
                lemma_fetch_more(g, o, s, chain, fx, f);
                lemma_interp_more(g, code, pc2, regs2, o, chain, fr, f);
                assert(interp(g, code, pc, regs, o, chain, f) == r);
            } else {
                if settled(fetch(g, o, s, chain, d)) {
                    lemma_fetch_same(g, o, s, chain, d, fx);
                }
            }
        },
    }
}

/// Where an instruction only moves the program on, the program comes to
/// what it comes to from there.
pub proof fn lemma_interp_moves(
    g: Graph,
    code: Seq<Instr>,
    pc: int,
    regs: Seq<Data>,
    pc2: int,
    regs2: Seq<Data>,
    o: usize,
    chain: Chain,
    d: nat,
    r: Result<Data, Error>,
)
    requires
        forall|f: nat| #[trigger]
            interp(g, code, pc, regs, o, chain, f) == interp(g, code, pc2, regs2, o, chain, f),
        interp_agrees(g, code, pc2, regs2, o, chain, d, r),
    ensures
        interp_agrees(g, code, pc, regs, o, chain, d, r),
{
    if settled(r) {
        let f = choose|f: nat| interp(g, code, pc2, regs2, o, chain, f) == r;
        assert(interp(g, code, pc, regs, o, chain, f) == r);
    }
}

} // verus!
