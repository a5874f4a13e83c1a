//! What the engine does. The functions here follow the engine step by step
//! through a state of baskets, caches and counters, and give the state that
//! it ends in with what it hands out: which baskets it opens, what it
//! caches and where, and what it counts.
use vstd::prelude::*;
use crate::atom::{Atom, Instr};
use crate::basket::{Basket, Key};
use crate::data::{checked_diff, Data, Error};
use crate::emu::Place;
use crate::loc::{Binding, Loc, Locator};
use crate::perf::{bump, Perf, Transition};
use crate::semantics::{blank_registers, combine, find_attr, Graph};

verus! {

/// What changes while the engine runs: the baskets by their ids, the cache
/// of each, and the counters.
pub struct State {
    pub records: Seq<Basket>,
    pub caches: Seq<Map<Key, Data>>,
    pub perf: Perf,
}

impl State {
    /// Whether `b` names a basket in use.
    pub open spec fn live(self, b: int) -> bool {
        0 <= b < self.records.len() && self.records[b].alive
    }

    /// What basket `b` has cached under `k`.
    pub open spec fn cached(self, b: int, k: Key) -> Option<Data> {
        if 0 <= b < self.caches.len() && self.caches[b].dom().contains(k) {
            Some(self.caches[b][k])
        } else {
            None
        }
    }

    /// The state after basket `b` has cached `v` under `k`.
    pub open spec fn keep(self, b: int, k: Key, v: Data) -> State {
        State { caches: self.caches.update(b, self.caches[b].insert(k, v)), ..self }
    }

    /// The state after one more invocation of an operation is counted.
    pub open spec fn count_atom(self) -> State {
        State { perf: Perf { atoms: bump(self.perf.atoms), ..self.perf }, ..self }
    }

    /// The state after one more transition of kind `t` is counted.
    pub open spec fn count_hit(self, t: Transition) -> State {
        State { perf: Perf { hits: self.perf.hits.after(t), ..self.perf }, ..self }
    }

    /// The state after a basket is opened: it gets the next id and an empty
    /// cache, and the opening is counted.
    pub open spec fn open_basket(self, ob: usize, host: usize, psi: usize) -> State {
        State {
            records: self.records.push(Basket { ob, host, psi: Some(psi), alive: true }),
            caches: self.caches.push(Map::empty()),
            perf: self.perf,
        }.count_hit(Transition::NEW)
    }
}

/// The root basket as every engine starts with it: bound to object 0, with
/// nothing around it.
pub open spec fn root_basket() -> Basket {
    Basket { ob: 0, host: 0, psi: None, alive: true }
}

/// The state that an engine starts in: the root basket with nothing cached,
/// and the counters given.
pub open spec fn fresh(perf: Perf) -> State {
    State { records: seq![root_basket()], caches: seq![Map::<Key, Data>::empty()], perf }
}

/// Where `hops` hops lead from basket `cur`: the object that holds the
/// arguments there, the basket reached, and the basket that the last hop
/// left; with no hop, `o`, `cur` and `at` as they are.
pub open spec fn climb_of(rs: Seq<Basket>, o: usize, cur: int, at: int, hops: nat) -> Result<
    (usize, int, int),
    Error,
>
    decreases hops,
{
    if hops == 0 {
        Ok((o, cur, at))
    } else if !(0 <= cur < rs.len()) || rs[cur].psi is None {
        Err(Error::BrokenClosure)
    } else {
        climb_of(rs, rs[cur].host, rs[cur].psi->Some_0 as int, cur, (hops - 1) as nat)
    }
}

/// What `loc` denotes for object `o`, with the basket named by its id: see
/// `resolve`, which says the same of chains.
pub open spec fn walk_of(
    g: Graph,
    rs: Seq<Basket>,
    loc: Locator,
    o: usize,
    cur: int,
    at: int,
    n: nat,
) -> Result<Place, Error>
    decreases n,
{
    if n == 0 {
        Err(Error::DepthExceeded)
    } else {
        match climb_of(rs, o, cur, at, loc.hops as nat) {
            Err(e) => Err(e),
            Ok((o2, cur2, at2)) => match loc.terminal {
                Loc::Obj(t) => Ok(Place::Object(t, at2 as usize)),
                Loc::Delta => if !g.dom().contains(o2) {
                    Err(Error::UnknownObject)
                } else {
                    match g[o2].delta {
                        Some(d) => Ok(Place::Literal(d)),
                        None => Err(Error::UnknownAttribute),
                    }
                },
                Loc::Lambda => if !g.dom().contains(o2) {
                    Err(Error::UnknownObject)
                } else if g[o2].lambda is None {
                    Err(Error::UnknownAttribute)
                } else {
                    Ok(Place::Object(o2, cur2 as usize))
                },
                s => match find_attr(g, o2, s, (n - 1) as nat) {
                    Err(e) => Err(e),
                    Ok((h, b)) => walk_of(g, rs, b.locator, h, cur2, at2, (n - 1) as nat),
                },
            },
        }
    }
}

/// The binding that selector `s` of object `o` is followed by: the one found
/// for an attribute; for any other selector, the selector itself, not
/// applied.
pub open spec fn lead_of(g: Graph, o: usize, s: Loc, d: nat) -> Result<(usize, Binding), Error> {
    if s.is_attr() {
        find_attr(g, o, s, d)
    } else {
        Ok((o, Binding { locator: Locator { hops: 0, terminal: s }, applied: false }))
    }
}

/// The engine reducing object `o` in basket `b` with depth `d` left: the
/// state that it ends in and what it gives. An operation whose result the
/// basket has cached is not invoked again; one that is invoked is counted
/// and its result cached under `Lambda`. A literal is given as it is, and
/// copied into the root basket, which is counted, the first time. A body is
/// followed one level deeper.
pub open spec fn reduce_of(g: Graph, st: State, o: usize, b: int, d: nat) -> (
    State,
    Result<Data, Error>,
)
    decreases d, 0nat, 1nat,
{
    if d == 0 {
        (st, Err(Error::DepthExceeded))
    } else if !g.dom().contains(o) {
        (st, Err(Error::UnknownObject))
    } else if g[o].lambda is Some {
        let key = Key { ob: o, loc: Loc::Lambda };
        match st.cached(b, key) {
            Some(v) => (st, Ok(v)),
            None => {
                let (st2, r) = invoke_of(
                    g,
                    st.count_atom(),
                    g[o].lambda->Some_0,
                    o,
                    b,
                    (d - 1) as nat,
                );
                match r {
                    Ok(v) => (st2.keep(b, key, v), r),
                    Err(_) => (st2, r),
                }
            },
        }
    } else if g[o].delta is Some {
        let key = Key { ob: o, loc: Loc::Delta };
        let v = g[o].delta->Some_0;
        if st.cached(0, key) is None {
            (st.keep(0, key, v).count_hit(Transition::CPY), Ok(v))
        } else {
            (st, Ok(v))
        }
    } else if g[o].phi is Some {
        calc_of(g, st, o, Loc::Phi, b, (d - 1) as nat)
    } else {
        (st, Err(Error::EmptyObject))
    }
}

/// The engine computing what selector `s` denotes for object `o` in basket
/// `b` with depth `d` left: the state that it ends in and what it gives.
/// What the basket has cached under the pair is given as it is. Else the
/// binding is found and resolved. An applied binding opens a basket bound
/// to the object named, with `o` as the holder of the arguments and `b`
/// around it, the object is reduced there, and a scalar that comes of it is
/// cached in `b`. A binding that is not applied has the object reduced in
/// the basket that the resolution gives; a body followed so is counted.
pub open spec fn calc_of(g: Graph, st: State, o: usize, s: Loc, b: int, d: nat) -> (
    State,
    Result<Data, Error>,
)
    decreases d, 1nat, 0nat,
{
    let key = Key { ob: o, loc: s };
    if !st.live(b) {
        (st, Err(Error::UnknownBasket))
    } else if st.cached(b, key) is Some {
        (st, Ok(st.cached(b, key)->Some_0))
    } else {
        match lead_of(g, o, s, d) {
            Err(e) => (st, Err(e)),
            Ok((h, bnd)) => match walk_of(g, st.records, bnd.locator, h, b, b, d) {
                Err(e) => (st, Err(e)),
                Ok(Place::Literal(v)) => (st, Ok(v)),
                Ok(Place::Object(t, at)) => land_of(g, st, o, s, b, t, at as int, bnd.applied, d),
            },
        }
    }
}

/// The engine reducing the object `t` that selector `s` of object `o` led
/// to, once basket `b` had nothing cached under the pair: in a new basket
/// where the binding is applied, and then a scalar that comes of it is
/// cached in `b`; else in basket `at`, and then a body followed is counted.
pub open spec fn land_of(
    g: Graph,
    st: State,
    o: usize,
    s: Loc,
    b: int,
    t: usize,
    at: int,
    applied: bool,
    d: nat,
) -> (State, Result<Data, Error>)
    decreases d, 0nat, 2nat,
{
    if applied {
        let (st2, r) = reduce_of(g, st.open_basket(t, o, b as usize), t, st.records.len() as int, d);
        match r {
            Ok(v) => (st2.keep(b, Key { ob: o, loc: s }, v), r),
            Err(_) => (st2, r),
        }
    } else if s is Phi {
        reduce_of(g, st.count_hit(Transition::DEC), t, at, d)
    } else {
        reduce_of(g, st, t, at, d)
    }
}

/// The engine running the program `code` of object `o` from instruction
/// `pc` on, with registers `regs`, in basket `b`.
pub open spec fn interp_of(
    g: Graph,
    st: State,
    code: Seq<Instr>,
    pc: int,
    regs: Seq<Data>,
    o: usize,
    b: int,
    d: nat,
) -> (State, Result<Data, Error>)
    decreases d, 2nat, code.len() - pc,
{
    if pc < 0 || pc >= code.len() {
        (st, Err(Error::AtomFailure))
    } else {
        match code[pc] {
            Instr::Dataize(s, r) => if r >= regs.len() {
                (st, Err(Error::AtomFailure))
            } else {
                let (st2, rx) = calc_of(g, st, o, s, b, d);
                match rx {
                    Err(e) => (st2, Err(e)),
                    Ok(v) => interp_of(g, st2, code, pc + 1, regs.update(r as int, v), o, b, d),
                }
            },
            Instr::Add(a, c, r) => if a >= regs.len() || c >= regs.len() || r >= regs.len() {
                (st, Err(Error::AtomFailure))
            } else {
                match crate::data::checked_sum(regs[a as int], regs[c as int]) {
                    Err(e) => (st, Err(e)),
                    Ok(v) => interp_of(g, st, code, pc + 1, regs.update(r as int, v), o, b, d),
                }
            },
            Instr::Sub(a, c, r) => if a >= regs.len() || c >= regs.len() || r >= regs.len() {
                (st, Err(Error::AtomFailure))
            } else {
                match checked_diff(regs[a as int], regs[c as int]) {
                    Err(e) => (st, Err(e)),
                    Ok(v) => interp_of(g, st, code, pc + 1, regs.update(r as int, v), o, b, d),
                }
            },
            Instr::Jump(a, c, t) => if a >= regs.len() || c >= regs.len() {
                (st, Err(Error::AtomFailure))
            } else if regs[a as int] < regs[c as int] {
                if pc < t < code.len() {
                    interp_of(g, st, code, t as int, regs, o, b, d)
                } else {
                    (st, Err(Error::AtomFailure))
                }
            } else {
                interp_of(g, st, code, pc + 1, regs, o, b, d)
            },
            Instr::Read(a, r) => if a >= regs.len() || r >= regs.len() {
                (st, Err(Error::AtomFailure))
            } else {
                interp_of(g, st, code, pc + 1, regs.update(r as int, regs[a as int]), o, b, d)
            },
            Instr::Write(v, r) => if r >= regs.len() {
                (st, Err(Error::AtomFailure))
            } else {
                interp_of(g, st, code, pc + 1, regs.update(r as int, v), o, b, d)
            },
            Instr::Return(r) => if r >= regs.len() {
                (st, Err(Error::AtomFailure))
            } else {
                (st, Ok(regs[r as int]))
            },
        }
    }
}

/// The engine invoking operation `a` of object `o` in basket `b`: the
/// operands are computed in their order, a later one only where the earlier
/// ones gave scalars, and of a choice only the branch chosen.
pub open spec fn invoke_of(g: Graph, st: State, a: Atom, o: usize, b: int, d: nat) -> (
    State,
    Result<Data, Error>,
)
    decreases d, 3nat, 0nat,
{
    match a {
        Atom::Code => if !st.live(b) {
            (st, Err(Error::UnknownBasket))
        } else if !g.dom().contains(o) {
            (st, Err(Error::UnknownObject))
        } else {
            interp_of(g, st, g[o].code, 0, blank_registers(), o, b, d)
        },
        Atom::IntNeg => {
            let (st1, rx) = calc_of(g, st, o, Loc::Rho, b, d);
            match rx {
                Err(e) => (st1, Err(e)),
                Ok(x) => (st1, checked_diff(0, x)),
            }
        },
        Atom::BoolIf => {
            let (st1, rx) = calc_of(g, st, o, Loc::Rho, b, d);
            match rx {
                Err(e) => (st1, Err(e)),
                Ok(x) => if x == 1 {
                    calc_of(g, st1, o, Loc::Arg(0), b, d)
                } else {
                    calc_of(g, st1, o, Loc::Arg(1), b, d)
                },
            }
        },
        _ => {
            let (st1, rx) = calc_of(g, st, o, Loc::Rho, b, d);
            match rx {
                Err(e) => (st1, Err(e)),
                Ok(x) => {
                    let (st2, ry) = calc_of(g, st1, o, Loc::Arg(0), b, d);
                    (st2, combine(a, rx, ry))
                },
            }
        },
    }
}

/// Between two states no basket has gone, and as many baskets have come as
/// openings were counted, so long as the counter has not filled up.
pub open spec fn accounted(st: State, end: State) -> bool {
    &&& st.records.len() <= end.records.len()
    &&& st.perf.hits.new <= end.perf.hits.new
    &&& end.perf.hits.new < usize::MAX ==> end.records.len() - st.records.len()
        == end.perf.hits.new - st.perf.hits.new
}

/// Reducing an object accounts for the baskets.
pub proof fn lemma_reduce_accounts(g: Graph, st: State, o: usize, b: int, d: nat)
    ensures
        accounted(st, reduce_of(g, st, o, b, d).0),
    decreases d, 0nat, 1nat,
{
    if d > 0 && g.dom().contains(o) {
        if g[o].lambda is Some {
            if st.cached(b, Key { ob: o, loc: Loc::Lambda }) is None {
                lemma_invoke_accounts(g, st.count_atom(), g[o].lambda->Some_0, o, b, (d - 1) as nat);
            }
        } else if g[o].delta is Some {
        } else if g[o].phi is Some {
            lemma_calc_accounts(g, st, o, Loc::Phi, b, (d - 1) as nat);
        }
    }
}

/// Computing what a selector denotes accounts for the baskets.
pub proof fn lemma_calc_accounts(g: Graph, st: State, o: usize, s: Loc, b: int, d: nat)
    ensures
        accounted(st, calc_of(g, st, o, s, b, d).0),
    decreases d, 1nat, 0nat,
{
    if st.live(b) && st.cached(b, Key { ob: o, loc: s }) is None {
        match lead_of(g, o, s, d) {
            Err(e) => {},
            Ok((h, bnd)) => match walk_of(g, st.records, bnd.locator, h, b, b, d) {
                Ok(Place::Object(t, at)) => {
                    lemma_land_accounts(g, st, o, s, b, t, at as int, bnd.applied, d);
                },
                _ => {},
            },
        }
    }
}

/// Reducing the object that a binding led to accounts for the baskets.
pub proof fn lemma_land_accounts(
    g: Graph,
    st: State,
    o: usize,
    s: Loc,
    b: int,
    t: usize,
    at: int,
    applied: bool,
    d: nat,
)
    ensures
        accounted(st, land_of(g, st, o, s, b, t, at, applied, d).0),
    decreases d, 0nat, 2nat,
{
    if applied {
        lemma_reduce_accounts(g, st.open_basket(t, o, b as usize), t, st.records.len() as int, d);
    } else if s is Phi {
        lemma_reduce_accounts(g, st.count_hit(Transition::DEC), t, at, d);
    } else {
        lemma_reduce_accounts(g, st, t, at, d);
    }
}

/// Running a program accounts for the baskets.
pub proof fn lemma_interp_accounts(
    g: Graph,
    st: State,
    code: Seq<Instr>,
    pc: int,
    regs: Seq<Data>,
    o: usize,
    b: int,
    d: nat,
)
    ensures
        accounted(st, interp_of(g, st, code, pc, regs, o, b, d).0),
    decreases d, 2nat, code.len() - pc,
{
    if 0 <= pc < code.len() {
        match code[pc] {
            Instr::Dataize(s, r) => {
                if r < regs.len() {
                    lemma_calc_accounts(g, st, o, s, b, d);
                    let (st2, rx) = calc_of(g, st, o, s, b, d);
                    match rx {
                        Err(e) => {},
                        Ok(v) => {
                            lemma_interp_accounts(
                                g,
                                st2,
                                code,
                                pc + 1,
                                regs.update(r as int, v),
                                o,
                                b,
                                d,
                            );
                        },
                    }
                }
            },
            Instr::Add(a, c, r) => {
                if a < regs.len() && c < regs.len() && r < regs.len() {
                    match crate::data::checked_sum(regs[a as int], regs[c as int]) {
                        Err(e) => {},
                        Ok(v) => {
                            lemma_interp_accounts(
                                g,
                                st,
                                code,
                                pc + 1,
                                regs.update(r as int, v),
                                o,
                                b,
                                d,
                            );
                        },
                    }
                }
            },
            Instr::Sub(a, c, r) => {
                if a < regs.len() && c < regs.len() && r < regs.len() {
                    match checked_diff(regs[a as int], regs[c as int]) {
                        Err(e) => {},
                        Ok(v) => {
                            lemma_interp_accounts(
                                g,
                                st,
                                code,
                                pc + 1,
                                regs.update(r as int, v),
                                o,
                                b,
                                d,
                            );
                        },
                    }
                }
            },
            Instr::Jump(a, c, t) => {
                if a < regs.len() && c < regs.len() {
                    if regs[a as int] < regs[c as int] {
                        if pc < t < code.len() {
                            lemma_interp_accounts(g, st, code, t as int, regs, o, b, d);
                        }
                    } else {
                        lemma_interp_accounts(g, st, code, pc + 1, regs, o, b, d);
                    }
                }
            },
            Instr::Read(a, r) => {
                if a < regs.len() && r < regs.len() {
                    lemma_interp_accounts(
                        g,
                        st,
                        code,
                        pc + 1,
                        regs.update(r as int, regs[a as int]),
                        o,
                        b,
                        d,
                    );
                }
            },
            Instr::Write(v, r) => {
                if r < regs.len() {
                    lemma_interp_accounts(g, st, code, pc + 1, regs.update(r as int, v), o, b, d);
                }
            },
            Instr::Return(r) => {},
        }
    }
}

/// Invoking an operation accounts for the baskets.
pub proof fn lemma_invoke_accounts(g: Graph, st: State, a: Atom, o: usize, b: int, d: nat)
    ensures
        accounted(st, invoke_of(g, st, a, o, b, d).0),
    decreases d, 3nat, 0nat,
{
    match a {
        Atom::Code => {
            if st.live(b) && g.dom().contains(o) {
                lemma_interp_accounts(g, st, g[o].code, 0, blank_registers(), o, b, d);
            }
        },
        _ => {
            lemma_calc_accounts(g, st, o, Loc::Rho, b, d);
            let (st1, rx) = calc_of(g, st, o, Loc::Rho, b, d);
            match rx {
                Err(e) => {},
                Ok(x) => {
                    if a is BoolIf {
                        if x == 1 {
                            lemma_calc_accounts(g, st1, o, Loc::Arg(0), b, d);
                        } else {
                            lemma_calc_accounts(g, st1, o, Loc::Arg(1), b, d);
                        }
                    } else if !(a is IntNeg) {
                        lemma_calc_accounts(g, st1, o, Loc::Arg(0), b, d);
                    }
                },
            }
        },
    }
}

} // verus!
