use vstd::prelude::*;
use crate::data::{diff, less, sum, Data, Error};
use crate::emu::Emu;
use crate::loc::Loc;
use crate::machine::{interp_of, invoke_of};
use crate::semantics::{
    blank_registers, interp, interp_agrees, lemma_interp_dataize, lemma_interp_moves, lemma_run_if,
    lemma_run_neg, lemma_run_two, run_agrees, settled,
};

verus! {

/// A native operation that an object can carry in place of a body.
#[derive(Clone, Copy, Debug, PartialEq, Eq, Hash, Structural)]
pub enum Atom {
    /// The context operand plus the first argument.
    IntAdd,
    /// The context operand minus the first argument.
    IntSub,
    /// `1` where the context operand is below the first argument, else `0`.
    IntLess,
    /// The first argument where the context operand is `1`, else the second.
    BoolIf,
    /// Zero minus the context operand.
    IntNeg,
    /// The object's own program, run by the interpreter.
    Code,
}

/// How many registers a program has.
pub const REGISTERS: usize = 8;

/// One instruction of a program. Registers are named by their index; an
/// index that names no register makes the instruction fail.
#[derive(Clone, Copy, Debug, PartialEq, Eq, Hash, Structural)]
pub enum Instr {
    /// `Dataize(s, r)`: what selector `s` of the object denotes goes to
    /// register `r`.
    Dataize(Loc, usize),
    /// `Add(a, b, r)`: the sum of registers `a` and `b` goes to register `r`.
    Add(usize, usize, usize),
    /// `Sub(a, b, r)`: register `a` minus register `b` goes to register `r`.
    Sub(usize, usize, usize),
    /// `Jump(a, b, t)`: where register `a` is below register `b`, the
    /// program goes on at instruction `t`, which must lie ahead.
    Jump(usize, usize, usize),
    /// `Read(a, r)`: register `a` is copied to register `r`.
    Read(usize, usize),
    /// `Write(d, r)`: the scalar `d` goes to register `r`.
    Write(Data, usize),
    /// `Return(r)`: the program ends with register `r`.
    Return(usize),
}

/// The two operands of an operation of object `ob`, the context operand and
/// the first argument, both taken in basket `bx`, and the operation applied
/// to them.
fn binary(emu: &mut Emu, a: Atom, ob: usize, bx: usize) -> (r: Result<Data, Error>)
    requires
        old(emu).wf(),
        a is IntAdd || a is IntSub || a is IntLess,
    ensures
        final(emu).wf(),
        final(emu).extends(old(emu)),
        !old(emu).live(bx as int) ==> r == Err::<Data, Error>(Error::UnknownBasket)
            && final(emu).same_as(old(emu)),
        old(emu).live(bx as int) ==> run_agrees(
            old(emu).graph(),
            a,
            ob,
            old(emu).chain(bx as int),
            old(emu).allowance() as nat,
            r,
        ),
        final(emu).state() == invoke_of(
            old(emu).graph(),
            old(emu).state(),
            a,
            ob,
            bx as int,
            old(emu).allowance() as nat,
        ).0,
        r == invoke_of(
            old(emu).graph(),
            old(emu).state(),
            a,
            ob,
            bx as int,
            old(emu).allowance() as nat,
        ).1,
    decreases old(emu).allowance(), 2nat, 0nat,
{
    let ghost start = *emu;
    let rx = emu.calc(ob, Loc::Rho, bx);
    match rx {
        Err(e) => {
            proof {
                if start.live(bx as int) {
                    lemma_run_two(
                        start.graph(),
                        a,
                        ob,
                        start.chain(bx as int),
                        start.allowance() as nat,
                        rx,
                        rx,
                    );
                }
            }
            Err(e)
        },
        Ok(x) => {
            let ghost mid = *emu;
            let ry = emu.calc(ob, Loc::Arg(0), bx);
            proof {
                emu.lemma_grows_trans(&mid, &start);
                mid.lemma_grows_chain(&start, bx as int);
                lemma_run_two(
                    start.graph(),
                    a,
                    ob,
                    start.chain(bx as int),
                    start.allowance() as nat,
                    rx,
                    ry,
                );
            }
            match ry {
                Err(e) => Err(e),
                Ok(y) => match a {
                    Atom::IntAdd => sum(x, y),
                    Atom::IntSub => diff(x, y),
                    _ => Ok(less(x, y)),
                },
            }
        },
    }
}

/// The context operand of object `ob` plus its first argument, both taken in
/// basket `bx`. A sum that is no scalar is an `AtomFailure`.
pub fn int_add(emu: &mut Emu, ob: usize, bx: usize) -> (r: Result<Data, Error>)
    requires
        old(emu).wf(),
    ensures
        final(emu).wf(),
        final(emu).extends(old(emu)),
        !old(emu).live(bx as int) ==> r == Err::<Data, Error>(Error::UnknownBasket)
            && final(emu).same_as(old(emu)),
        old(emu).live(bx as int) ==> run_agrees(
            old(emu).graph(),
            Atom::IntAdd,
            ob,
            old(emu).chain(bx as int),
            old(emu).allowance() as nat,
            r,
        ),
        final(emu).state() == invoke_of(
            old(emu).graph(),
            old(emu).state(),
            Atom::IntAdd,
            ob,
            bx as int,
            old(emu).allowance() as nat,
        ).0,
        r == invoke_of(
            old(emu).graph(),
            old(emu).state(),
            Atom::IntAdd,
            ob,
            bx as int,
            old(emu).allowance() as nat,
        ).1,
    decreases old(emu).allowance(), 2nat, 1nat,
{
    binary(emu, Atom::IntAdd, ob, bx)
}

/// The context operand of object `ob` minus its first argument, both taken
/// in basket `bx`. A difference that is no scalar is an `AtomFailure`.
pub fn int_sub(emu: &mut Emu, ob: usize, bx: usize) -> (r: Result<Data, Error>)
    requires
        old(emu).wf(),
    ensures
        final(emu).wf(),
        final(emu).extends(old(emu)),
        !old(emu).live(bx as int) ==> r == Err::<Data, Error>(Error::UnknownBasket)
            && final(emu).same_as(old(emu)),
        old(emu).live(bx as int) ==> run_agrees(
            old(emu).graph(),
            Atom::IntSub,
            ob,
            old(emu).chain(bx as int),
            old(emu).allowance() as nat,
            r,
        ),
        final(emu).state() == invoke_of(
            old(emu).graph(),
            old(emu).state(),
            Atom::IntSub,
            ob,
            bx as int,
            old(emu).allowance() as nat,
        ).0,
        r == invoke_of(
            old(emu).graph(),
            old(emu).state(),
            Atom::IntSub,
            ob,
            bx as int,
            old(emu).allowance() as nat,
        ).1,
    decreases old(emu).allowance(), 2nat, 1nat,
{
    binary(emu, Atom::IntSub, ob, bx)
}

/// `1` where the context operand of object `ob` is below its first
/// argument, `0` where it is not; both are taken in basket `bx`.
pub fn int_less(emu: &mut Emu, ob: usize, bx: usize) -> (r: Result<Data, Error>)
    requires
        old(emu).wf(),
    ensures
        final(emu).wf(),
        final(emu).extends(old(emu)),
        !old(emu).live(bx as int) ==> r == Err::<Data, Error>(Error::UnknownBasket)
            && final(emu).same_as(old(emu)),
        old(emu).live(bx as int) ==> run_agrees(
            old(emu).graph(),
            Atom::IntLess,
            ob,
            old(emu).chain(bx as int),
            old(emu).allowance() as nat,
            r,
        ),
        final(emu).state() == invoke_of(
            old(emu).graph(),
            old(emu).state(),
            Atom::IntLess,
            ob,
            bx as int,
            old(emu).allowance() as nat,
        ).0,
        r == invoke_of(
            old(emu).graph(),
            old(emu).state(),
            Atom::IntLess,
            ob,
            bx as int,
            old(emu).allowance() as nat,
        ).1,
    decreases old(emu).allowance(), 2nat, 1nat,
{
    binary(emu, Atom::IntLess, ob, bx)
}

/// The first argument of object `ob` where its context operand is `1`, the
/// second argument where it is anything else. The branch that is not chosen
/// is not touched.
pub fn bool_if(emu: &mut Emu, ob: usize, bx: usize) -> (r: Result<Data, Error>)
    requires
        old(emu).wf(),
    ensures
        final(emu).wf(),
        final(emu).extends(old(emu)),
        !old(emu).live(bx as int) ==> r == Err::<Data, Error>(Error::UnknownBasket)
            && final(emu).same_as(old(emu)),
        old(emu).live(bx as int) ==> run_agrees(
            old(emu).graph(),
            Atom::BoolIf,
            ob,
            old(emu).chain(bx as int),
            old(emu).allowance() as nat,
            r,
        ),
        final(emu).state() == invoke_of(
            old(emu).graph(),
            old(emu).state(),
            Atom::BoolIf,
            ob,
            bx as int,
            old(emu).allowance() as nat,
        ).0,
        r == invoke_of(
            old(emu).graph(),
            old(emu).state(),
            Atom::BoolIf,
            ob,
            bx as int,
            old(emu).allowance() as nat,
        ).1,
    decreases old(emu).allowance(), 2nat, 1nat,
{
    let ghost start = *emu;
    let rx = emu.calc(ob, Loc::Rho, bx);
    match rx {
        Err(e) => {
            proof {
                if start.live(bx as int) {
                    lemma_run_if(
                        start.graph(),
                        ob,
                        start.chain(bx as int),
                        start.allowance() as nat,
                        rx,
                        rx,
                    );
                }
            }
            Err(e)
        },
        Ok(x) => {
            let ghost mid = *emu;
            let branch = if x == 1 {
                Loc::Arg(0)
            } else {
                Loc::Arg(1)
            };
            let ry = emu.calc(ob, branch, bx);
            proof {
                emu.lemma_grows_trans(&mid, &start);
                mid.lemma_grows_chain(&start, bx as int);
                lemma_run_if(
                    start.graph(),
                    ob,
                    start.chain(bx as int),
                    start.allowance() as nat,
                    rx,
                    ry,
                );
            }
            ry
        },
    }
}

/// Zero minus the context operand of object `ob`, taken in basket `bx`. A
/// difference that is no scalar is an `AtomFailure`.
pub fn int_neg(emu: &mut Emu, ob: usize, bx: usize) -> (r: Result<Data, Error>)
    requires
        old(emu).wf(),
    ensures
        final(emu).wf(),
        final(emu).extends(old(emu)),
        !old(emu).live(bx as int) ==> r == Err::<Data, Error>(Error::UnknownBasket)
            && final(emu).same_as(old(emu)),
        old(emu).live(bx as int) ==> run_agrees(
            old(emu).graph(),
            Atom::IntNeg,
            ob,
            old(emu).chain(bx as int),
            old(emu).allowance() as nat,
            r,
        ),
        final(emu).state() == invoke_of(
            old(emu).graph(),
            old(emu).state(),
            Atom::IntNeg,
            ob,
            bx as int,
            old(emu).allowance() as nat,
        ).0,
        r == invoke_of(
            old(emu).graph(),
            old(emu).state(),
            Atom::IntNeg,
            ob,
            bx as int,
            old(emu).allowance() as nat,
        ).1,
    decreases old(emu).allowance(), 2nat, 1nat,
{
    let ghost start = *emu;
    let rx = emu.calc(ob, Loc::Rho, bx);
    proof {
        if start.live(bx as int) {
            lemma_run_neg(
                start.graph(),
                ob,
                start.chain(bx as int),
                start.allowance() as nat,
                rx,
            );
        }
    }
    match rx {
        Err(e) => Err(e),
        Ok(x) => diff(0, x),
    }
}

/// Runs the program of object `ob` from instruction `pc` on, with the
/// registers `regs`, in basket `bx`.
fn interpret(emu: &mut Emu, ob: usize, bx: usize, pc: usize, regs: Vec<Data>) -> (r: Result<
    Data,
    Error,
>)
    requires
        old(emu).wf(),
        old(emu).live(bx as int),
        old(emu).graph().dom().contains(ob),
    ensures
        final(emu).wf(),
        final(emu).extends(old(emu)),
        interp_agrees(
            old(emu).graph(),
            old(emu).graph()[ob].code,
            pc as int,
            regs@,
            ob,
            old(emu).chain(bx as int),
            old(emu).allowance() as nat,
            r,
        ),
        final(emu).state() == interp_of(
            old(emu).graph(),
            old(emu).state(),
            old(emu).graph()[ob].code,
            pc as int,
            regs@,
            ob,
            bx as int,
            old(emu).allowance() as nat,
        ).0,
        r == interp_of(
            old(emu).graph(),
            old(emu).state(),
            old(emu).graph()[ob].code,
            pc as int,
            regs@,
            ob,
            bx as int,
            old(emu).allowance() as nat,
        ).1,
    decreases old(emu).allowance(), 2nat, old(emu).graph()[ob].code.len() - pc + 2,
{
    let ghost g = emu.graph();
    let ghost code = emu.graph()[ob].code;
    let ghost ch = emu.chain(bx as int);
    let ghost d = emu.allowance() as nat;
    let ghost before = regs@;
    let ghost start = *emu;
    let n = regs.len();
    let mut regs = regs;
    let ins = match emu.instr(ob, pc) {
        None => {
            assert(interp(g, code, pc as int, before, ob, ch, 0) == Err::<Data, Error>(
                Error::AtomFailure,
            ));
            return Err(Error::AtomFailure);
        },
        Some(i) => i,
    };
    match ins {
        Instr::Dataize(s, r) => {
            if r >= n {
                assert(interp(g, code, pc as int, before, ob, ch, 0) == Err::<Data, Error>(
                    Error::AtomFailure,
                ));
                return Err(Error::AtomFailure);
            }
            let rx = emu.calc(ob, s, bx);
            match rx {
                Err(e) => {
                    proof {
                        lemma_interp_dataize(g, code, pc as int, before, ob, ch, d, rx, rx);
                    }
                    Err(e)
                },
                Ok(v) => {
                    regs[r] = v;
                    let ghost mid = *emu;
                    proof {
                        mid.lemma_grows_chain(&start, bx as int);
                    }
                    let res = interpret(emu, ob, bx, pc + 1, regs);
                    proof {
                        emu.lemma_grows_trans(&mid, &start);
                        lemma_interp_dataize(g, code, pc as int, before, ob, ch, d, rx, res);
                    }
                    res
                },
            }
        },
        Instr::Add(a, b, r) => {
            if a >= n || b >= n || r >= n {
                assert(interp(g, code, pc as int, before, ob, ch, 0) == Err::<Data, Error>(
                    Error::AtomFailure,
                ));
                return Err(Error::AtomFailure);
            }
            match sum(regs[a], regs[b]) {
                Err(e) => {
                    assert(interp(g, code, pc as int, before, ob, ch, 0) == Err::<Data, Error>(e));
                    Err(e)
                },
                Ok(v) => {
                    regs[r] = v;
                    let res = interpret(emu, ob, bx, pc + 1, regs);
                    proof {
                        lemma_interp_moves(
                            g,
                            code,
                            pc as int,
                            before,
                            pc + 1,
                            before.update(r as int, v),
                            ob,
                            ch,
                            d,
                            res,
                        );
                    }
                    res
                },
            }
        },
        Instr::Sub(a, b, r) => {
            if a >= n || b >= n || r >= n {
                assert(interp(g, code, pc as int, before, ob, ch, 0) == Err::<Data, Error>(
                    Error::AtomFailure,
                ));
                return Err(Error::AtomFailure);
            }
            match diff(regs[a], regs[b]) {
                Err(e) => {
                    assert(interp(g, code, pc as int, before, ob, ch, 0) == Err::<Data, Error>(e));
                    Err(e)
                },
                Ok(v) => {
                    regs[r] = v;
                    let res = interpret(emu, ob, bx, pc + 1, regs);
                    proof {
                        lemma_interp_moves(
                            g,
                            code,
                            pc as int,
                            before,
                            pc + 1,
                            before.update(r as int, v),
                            ob,
                            ch,
                            d,
                            res,
                        );
                    }
                    res
                },
            }
        },
        Instr::Jump(a, b, t) => {
            if a >= n || b >= n {
                assert(interp(g, code, pc as int, before, ob, ch, 0) == Err::<Data, Error>(
                    Error::AtomFailure,
                ));
                return Err(Error::AtomFailure);
            }
            let next = if regs[a] < regs[b] {
                if t <= pc || emu.instr(ob, t).is_none() {
                    assert(interp(g, code, pc as int, before, ob, ch, 0) == Err::<Data, Error>(
                        Error::AtomFailure,
                    ));
                    return Err(Error::AtomFailure);
                }
                t
            } else {
                pc + 1
            };
            let res = interpret(emu, ob, bx, next, regs);
            proof {
                lemma_interp_moves(g, code, pc as int, before, next as int, before, ob, ch, d, res);
            }
            res
        },
        Instr::Read(a, r) => {
            if a >= n || r >= n {
                assert(interp(g, code, pc as int, before, ob, ch, 0) == Err::<Data, Error>(
                    Error::AtomFailure,
                ));
                return Err(Error::AtomFailure);
            }
            let v = regs[a];
            regs[r] = v;
            let res = interpret(emu, ob, bx, pc + 1, regs);
            proof {
                lemma_interp_moves(
                    g,
                    code,
                    pc as int,
                    before,
                    pc + 1,
                    before.update(r as int, v),
                    ob,
                    ch,
                    d,
                    res,
                );
            }
            res
        },
        Instr::Write(v, r) => {
            if r >= n {
                assert(interp(g, code, pc as int, before, ob, ch, 0) == Err::<Data, Error>(
                    Error::AtomFailure,
                ));
                return Err(Error::AtomFailure);
            }
            regs[r] = v;
            let res = interpret(emu, ob, bx, pc + 1, regs);
            proof {
                lemma_interp_moves(
                    g,
                    code,
                    pc as int,
                    before,
                    pc + 1,
                    before.update(r as int, v),
                    ob,
                    ch,
                    d,
                    res,
                );
            }
            res
        },
        Instr::Return(r) => {
            if r >= n {
                assert(interp(g, code, pc as int, before, ob, ch, 0) == Err::<Data, Error>(
                    Error::AtomFailure,
                ));
                return Err(Error::AtomFailure);
            }
            assert(interp(g, code, pc as int, before, ob, ch, 0) == Ok::<Data, Error>(
                before[r as int],
            ));
            Ok(regs[r])
        },
    }
}

/// Runs the program that object `ob` holds, in basket `bx`: the
/// instructions one after another from the first, on registers that start
/// at zero, until one returns or fails.
pub fn interpreted(emu: &mut Emu, ob: usize, bx: usize) -> (r: Result<Data, Error>)
    requires
        old(emu).wf(),
    ensures
        final(emu).wf(),
        final(emu).extends(old(emu)),
        !old(emu).live(bx as int) ==> r == Err::<Data, Error>(Error::UnknownBasket)
            && final(emu).same_as(old(emu)),
        old(emu).live(bx as int) ==> run_agrees(
            old(emu).graph(),
            Atom::Code,
            ob,
            old(emu).chain(bx as int),
            old(emu).allowance() as nat,
            r,
        ),
        final(emu).state() == invoke_of(
            old(emu).graph(),
            old(emu).state(),
            Atom::Code,
            ob,
            bx as int,
            old(emu).allowance() as nat,
        ).0,
        r == invoke_of(
            old(emu).graph(),
            old(emu).state(),
            Atom::Code,
            ob,
            bx as int,
            old(emu).allowance() as nat,
        ).1,
    decreases old(emu).allowance(), 3nat, 0nat,
{
    if bx >= emu.baskets().len() || !emu.baskets()[bx].alive {
        return Err(Error::UnknownBasket);
    }
    if emu.object(ob).is_none() {
        assert(crate::semantics::run(emu.graph(), Atom::Code, ob, emu.chain(bx as int), 0) == Err::<
            Data,
            Error,
        >(Error::UnknownObject));
        return Err(Error::UnknownObject);
    }
    let mut regs: Vec<Data> = Vec::new();
    while regs.len() < REGISTERS
        invariant
            regs.len() <= REGISTERS,
            regs@ == Seq::new(regs.len() as nat, |i: int| 0i64),
        decreases REGISTERS - regs.len(),
    {
        regs.push(0);
        assert(regs@ =~= Seq::new(regs.len() as nat, |i: int| 0i64));
    }
    assert(regs@ =~= blank_registers());
    let ghost g = emu.graph();
    let ghost ch = emu.chain(bx as int);
    let r = interpret(emu, ob, bx, 0, regs);
    proof {
        if settled(r) {
            let f = choose|f: nat| interp(g, g[ob].code, 0, blank_registers(), ob, ch, f) == r;
            assert(crate::semantics::run(g, Atom::Code, ob, ch, f) == r);
        }
    }
    r
}

} // verus!
