use vstd::prelude::*;
use crate::atom::{Atom, Instr};
use crate::data::{Data, Error};
use crate::loc::Loc;
use crate::semantics::{blank_registers, fetch, interp, run, Chain, Graph};

verus! {

/// The program that does what a native operation does. The interpreter has
/// none for `Code` itself: its program is empty.
pub open spec fn program_of(a: Atom) -> Seq<Instr> {
    match a {
        Atom::IntAdd => seq![
            Instr::Dataize(Loc::Rho, 0),
            Instr::Dataize(Loc::Arg(0), 1),
            Instr::Add(0, 1, 2),
            Instr::Return(2),
        ],
        Atom::IntSub => seq![
            Instr::Dataize(Loc::Rho, 0),
            Instr::Dataize(Loc::Arg(0), 1),
            Instr::Sub(0, 1, 2),
            Instr::Return(2),
        ],
        Atom::IntLess => seq![
            Instr::Dataize(Loc::Rho, 0),
            Instr::Dataize(Loc::Arg(0), 1),
            Instr::Jump(0, 1, 5),
            Instr::Write(0, 2),
            Instr::Return(2),
            Instr::Write(1, 2),
            Instr::Return(2),
        ],
        Atom::BoolIf => seq![
            Instr::Dataize(Loc::Rho, 0),
            Instr::Write(1, 1),
            Instr::Jump(0, 1, 6),
            Instr::Jump(1, 0, 6),
            Instr::Dataize(Loc::Arg(0), 2),
            Instr::Return(2),
            Instr::Dataize(Loc::Arg(1), 2),
            Instr::Return(2),
        ],
        Atom::IntNeg => seq![
            Instr::Dataize(Loc::Rho, 0),
            Instr::Write(0, 1),
            Instr::Sub(1, 0, 2),
            Instr::Return(2),
        ],
        Atom::Code => Seq::empty(),
    }
}

/// Writes the program that does what a native operation does.
pub fn program(a: Atom) -> (r: Vec<Instr>)
    ensures
        r@ == program_of(a),
{
    let mut r: Vec<Instr> = Vec::new();
    match a {
        Atom::IntAdd => {
            r.push(Instr::Dataize(Loc::Rho, 0));
            r.push(Instr::Dataize(Loc::Arg(0), 1));
            r.push(Instr::Add(0, 1, 2));
            r.push(Instr::Return(2));
        },
        Atom::IntSub => {
            r.push(Instr::Dataize(Loc::Rho, 0));
            r.push(Instr::Dataize(Loc::Arg(0), 1));
            r.push(Instr::Sub(0, 1, 2));
            r.push(Instr::Return(2));
        },
        Atom::IntLess => {
            r.push(Instr::Dataize(Loc::Rho, 0));
            r.push(Instr::Dataize(Loc::Arg(0), 1));
            r.push(Instr::Jump(0, 1, 5));
            r.push(Instr::Write(0, 2));
            r.push(Instr::Return(2));
            r.push(Instr::Write(1, 2));
            r.push(Instr::Return(2));
        },
        Atom::BoolIf => {
            r.push(Instr::Dataize(Loc::Rho, 0));
            r.push(Instr::Write(1, 1));
            r.push(Instr::Jump(0, 1, 6));
            r.push(Instr::Jump(1, 0, 6));
            r.push(Instr::Dataize(Loc::Arg(0), 2));
            r.push(Instr::Return(2));
            r.push(Instr::Dataize(Loc::Arg(1), 2));
            r.push(Instr::Return(2));
        },
        Atom::IntNeg => {
            r.push(Instr::Dataize(Loc::Rho, 0));
            r.push(Instr::Write(0, 1));
            r.push(Instr::Sub(1, 0, 2));
            r.push(Instr::Return(2));
        },
        Atom::Code => {},
    }
    assert(r@ =~= program_of(a));
    r
}

/// The programs for the sum, the difference and the negation stand in for
/// their operations.
proof fn lemma_arithmetic_stands_in(g: Graph, a: Atom, o: usize, chain: Chain, f: nat)
    requires
        g.dom().contains(o),
        a is IntAdd || a is IntSub || a is IntNeg,
        g[o].code == program_of(a),
    ensures
        run(g, Atom::Code, o, chain, f) == run(g, a, o, chain, f),
{
    let code = program_of(a);
    let regs = blank_registers();
    assert(code.len() == 4);
    assert(code[0] == Instr::Dataize(Loc::Rho, 0));
    assert(code[3] == Instr::Return(2));
    match fetch(g, o, Loc::Rho, chain, f) {
        Err(e) => {},
        Ok(x) => {
            let r1 = regs.update(0, x);
            assert(interp(g, code, 0, regs, o, chain, f) == interp(g, code, 1, r1, o, chain, f));
            if a is IntNeg {
                assert(code[1] == Instr::Write(0, 1));
                assert(code[2] == Instr::Sub(1, 0, 2));
                let r2 = r1.update(1, 0);
                assert(interp(g, code, 1, r1, o, chain, f) == interp(g, code, 2, r2, o, chain, f));
                match crate::data::checked_diff(0, x) {
                    Err(e) => {},
                    Ok(v) => {
                        let r3 = r2.update(2, v);
                        assert(interp(g, code, 2, r2, o, chain, f) == interp(
                            g,
                            code,
                            3,
                            r3,
                            o,
                            chain,
                            f,
                        ));
                        assert(interp(g, code, 3, r3, o, chain, f) == Ok::<Data, Error>(v));
                    },
                }
            } else {
                assert(code[1] == Instr::Dataize(Loc::Arg(0), 1));
                match fetch(g, o, Loc::Arg(0), chain, f) {
                    Err(e) => {},
                    Ok(y) => {
                        let r2 = r1.update(1, y);
                        assert(interp(g, code, 1, r1, o, chain, f) == interp(
                            g,
                            code,
                            2,
                            r2,
                            o,
                            chain,
                            f,
                        ));
                        let w = if a is IntAdd {
                            assert(code[2] == Instr::Add(0, 1, 2));
                            crate::data::checked_sum(x, y)
                        } else {
                            assert(code[2] == Instr::Sub(0, 1, 2));
                            crate::data::checked_diff(x, y)
                        };
                        match w {
                            Err(e) => {},
                            Ok(v) => {
                                let r3 = r2.update(2, v);
                                assert(interp(g, code, 2, r2, o, chain, f) == interp(
                                    g,
                                    code,
                                    3,
                                    r3,
                                    o,
                                    chain,
                                    f,
                                ));
                                assert(interp(g, code, 3, r3, o, chain, f) == Ok::<Data, Error>(v));
                            },
                        }
                    },
                }
            }
        },
    }
}

/// The program for the comparison stands in for it.
proof fn lemma_less_stands_in(g: Graph, o: usize, chain: Chain, f: nat)
    requires
        g.dom().contains(o),
        g[o].code == program_of(Atom::IntLess),
    ensures
        run(g, Atom::Code, o, chain, f) == run(g, Atom::IntLess, o, chain, f),
{
    let code = program_of(Atom::IntLess);
    let regs = blank_registers();
    assert(code.len() == 7);
    assert(code[0] == Instr::Dataize(Loc::Rho, 0));
    assert(code[1] == Instr::Dataize(Loc::Arg(0), 1));
    assert(code[2] == Instr::Jump(0, 1, 5));
    assert(code[3] == Instr::Write(0, 2));
    assert(code[4] == Instr::Return(2));
    assert(code[5] == Instr::Write(1, 2));
    assert(code[6] == Instr::Return(2));
    match fetch(g, o, Loc::Rho, chain, f) {
        Err(e) => {},
        Ok(x) => {
            let r1 = regs.update(0, x);
            assert(interp(g, code, 0, regs, o, chain, f) == interp(g, code, 1, r1, o, chain, f));
            match fetch(g, o, Loc::Arg(0), chain, f) {
                Err(e) => {},
                Ok(y) => {
                    let r2 = r1.update(1, y);
                    assert(interp(g, code, 1, r1, o, chain, f) == interp(
                        g,
                        code,
                        2,
                        r2,
                        o,
                        chain,
                        f,
                    ));
                    if x < y {
                        let r3 = r2.update(2, 1);
                        assert(interp(g, code, 2, r2, o, chain, f) == interp(
                            g,
                            code,
                            5,
                            r2,
                            o,
                            chain,
                            f,
                        ));
                        assert(interp(g, code, 5, r2, o, chain, f) == interp(
                            g,
                            code,
                            6,
                            r3,
                            o,
                            chain,
                            f,
                        ));
                        assert(interp(g, code, 6, r3, o, chain, f) == Ok::<Data, Error>(1));
                    } else {
                        let r3 = r2.update(2, 0);
                        assert(interp(g, code, 2, r2, o, chain, f) == interp(
                            g,
                            code,
                            3,
                            r2,
                            o,
                            chain,
                            f,
                        ));
                        assert(interp(g, code, 3, r2, o, chain, f) == interp(
                            g,
                            code,
                            4,
                            r3,
                            o,
                            chain,
                            f,
                        ));
                        assert(interp(g, code, 4, r3, o, chain, f) == Ok::<Data, Error>(0));
                    }
                },
            }
        },
    }
}

/// The program for the choice stands in for it.
proof fn lemma_choice_stands_in(g: Graph, o: usize, chain: Chain, f: nat)
    requires
        g.dom().contains(o),
        g[o].code == program_of(Atom::BoolIf),
    ensures
        run(g, Atom::Code, o, chain, f) == run(g, Atom::BoolIf, o, chain, f),
{
    let code = program_of(Atom::BoolIf);
    let regs = blank_registers();
    assert(code.len() == 8);
    assert(code[0] == Instr::Dataize(Loc::Rho, 0));
    assert(code[1] == Instr::Write(1, 1));
    assert(code[2] == Instr::Jump(0, 1, 6));
    assert(code[3] == Instr::Jump(1, 0, 6));
    assert(code[4] == Instr::Dataize(Loc::Arg(0), 2));
    assert(code[5] == Instr::Return(2));
    assert(code[6] == Instr::Dataize(Loc::Arg(1), 2));
    assert(code[7] == Instr::Return(2));
    match fetch(g, o, Loc::Rho, chain, f) {
        Err(e) => {},
        Ok(x) => {
            let r1 = regs.update(0, x);
            let r2 = r1.update(1, 1);
            assert(interp(g, code, 0, regs, o, chain, f) == interp(g, code, 1, r1, o, chain, f));
            assert(interp(g, code, 1, r1, o, chain, f) == interp(g, code, 2, r2, o, chain, f));
            let (at, s) = if x == 1 {
                assert(interp(g, code, 2, r2, o, chain, f) == interp(g, code, 3, r2, o, chain, f));
                assert(interp(g, code, 3, r2, o, chain, f) == interp(g, code, 4, r2, o, chain, f));
                (4int, Loc::Arg(0))
            } else if x < 1 {
                assert(interp(g, code, 2, r2, o, chain, f) == interp(g, code, 6, r2, o, chain, f));
                (6int, Loc::Arg(1))
            } else {
                assert(interp(g, code, 2, r2, o, chain, f) == interp(g, code, 3, r2, o, chain, f));
                assert(interp(g, code, 3, r2, o, chain, f) == interp(g, code, 6, r2, o, chain, f));
                (6int, Loc::Arg(1))
            };
            match fetch(g, o, s, chain, f) {
                Err(e) => {},
                Ok(v) => {
                    let r3 = r2.update(2, v);
                    assert(interp(g, code, at, r2, o, chain, f) == interp(
                        g,
                        code,
                        at + 1,
                        r3,
                        o,
                        chain,
                        f,
                    ));
                    assert(interp(g, code, at + 1, r3, o, chain, f) == Ok::<Data, Error>(v));
                },
            }
        },
    }
}

/// A program can stand in for a native operation: an object that runs the
/// program written for an operation comes to what it would come to with the
/// operation itself, on every graph, in every basket and within every depth.
pub proof fn law_program_stands_in(g: Graph, a: Atom, o: usize, chain: Chain, f: nat)
    requires
        g.dom().contains(o),
        !(a is Code),
        g[o].code == program_of(a),
    ensures
        run(g, Atom::Code, o, chain, f) == run(g, a, o, chain, f),
{
    match a {
        Atom::IntLess => lemma_less_stands_in(g, o, chain, f),
        Atom::BoolIf => lemma_choice_stands_in(g, o, chain, f),
        _ => lemma_arithmetic_stands_in(g, a, o, chain, f),
    }
}

} // verus!
