use eoc::atom::{bool_if, int_add, int_less, int_neg, int_sub, interpreted, Atom, Instr, REGISTERS};
use eoc::code::program;
use eoc::basket::Key;
use eoc::data::{diff, less, sum, Error};
use eoc::emu::{Emu, Opt, Place, DEFAULT_DEPTH};
use eoc::fibo::{fibo, fibo_ops};
use eoc::loc::{Loc, Locator};
use eoc::object::Object;
use eoc::parser::ph;
use eoc::perf::{Perf, Transition};

const FOO: &str = "
    ν0 ↦ ⟦ φ ↦ ν9 ⟧
    ν1 ↦ ⟦ φ ↦ ν2 ⟧
    ν2 ↦ ⟦ λ ↦ bool-if, ρ ↦ ν3, 𝛼0 ↦ ν5, 𝛼1 ↦ ν6 ⟧
    ν3 ↦ ⟦ λ ↦ int-less, ρ ↦ ξ.𝛼0, 𝛼0 ↦ ν4 ⟧
    ν4 ↦ ⟦ Δ ↦ 0x0000 ⟧
    ν5 ↦ ⟦ Δ ↦ 0x002A ⟧
    ν6 ↦ ⟦ φ ↦ ν1(ξ), 𝛼0 ↦ ν7 ⟧
    ν7 ↦ ⟦ λ ↦ int-sub, ρ ↦ ξ.ξ.𝛼0, 𝛼0 ↦ ν8 ⟧
    ν8 ↦ ⟦ Δ ↦ 0x0001 ⟧
    ν9 ↦ ⟦ φ ↦ ν1(ξ), 𝛼0 ↦ ν10 ⟧
    ν10 ↦ ⟦ Δ ↦ 0x0007 ⟧
";

fn binary(op: &str, x: &str, y: &str) -> Emu {
    Emu::from_str(
        format!(
            "ν0 ↦ ⟦ λ ↦ {}, ρ ↦ ν1, 𝛼0 ↦ ν2 ⟧ ν1 ↦ ⟦ Δ ↦ 0x{} ⟧ ν2 ↦ ⟦ Δ ↦ 0x{} ⟧",
            op, x, y
        )
        .as_str(),
    )
    .unwrap()
}

#[test]
fn independent_baskets_give_the_same_scalar() {
    let mut emu = Emu::from_str(FOO).unwrap();
    let first = emu.new(9, 0).unwrap();
    let second = emu.new(9, 0).unwrap();
    assert_ne!(first, second);
    let a = emu.dataize_at(first).unwrap().0;
    let b = emu.dataize_at(second).unwrap().0;
    assert_eq!(42, a);
    assert_eq!(a, b);
    assert_eq!(a, emu.dataize().unwrap().0);
}

#[test]
fn two_engines_give_the_same_scalar() {
    let mut one = Emu::from_str(FOO).unwrap();
    let mut two = Emu::from_str(FOO).unwrap();
    two.opt(Opt::Depth(500));
    assert_eq!(one.dataize().unwrap().0, two.dataize().unwrap().0);
}

#[test]
fn second_dataization_invokes_nothing() {
    let mut emu = binary("int-add", "0002", "0003");
    let first = emu.dataize().unwrap();
    assert_eq!(5, first.0);
    assert_eq!(1, first.1.total_atoms());
    let second = emu.dataize().unwrap();
    assert_eq!(5, second.0);
    assert_eq!(1, second.1.total_atoms());
    assert_eq!(first.1, second.1);
}

#[test]
fn operand_used_twice_is_computed_once() {
    let mut emu = Emu::from_str(
        "
        ν0 ↦ ⟦ λ ↦ int-add, ρ ↦ ν1, 𝛼0 ↦ ν1 ⟧
        ν1 ↦ ⟦ λ ↦ int-add, ρ ↦ ν2, 𝛼0 ↦ ν2 ⟧
        ν2 ↦ ⟦ Δ ↦ 0x0015 ⟧
        ",
    )
    .unwrap();
    let dtz = emu.dataize().unwrap();
    assert_eq!(84, dtz.0);
    assert_eq!(2, dtz.1.total_atoms());
    assert_eq!(Some(42), emu.cache_get(0, Key { ob: 1, loc: Loc::Lambda }));
    assert_eq!(Some(84), emu.cache_get(0, Key { ob: 0, loc: Loc::Lambda }));
    assert_eq!(None, emu.cache_get(0, Key { ob: 1, loc: Loc::Rho }));
}

#[test]
fn applied_binding_is_cached_in_the_parent() {
    let mut emu = Emu::from_str(
        "
        ν0 ↦ ⟦ φ ↦ ν1(ξ), 𝛼0 ↦ ν2 ⟧
        ν1 ↦ ⟦ λ ↦ int-neg, ρ ↦ ξ.𝛼0 ⟧
        ν2 ↦ ⟦ Δ ↦ 0x0005 ⟧
        ",
    )
    .unwrap();
    assert_eq!(Ok(-5), emu.calc(0, Loc::Phi, 0));
    assert_eq!(2, emu.baskets().len());
    assert_eq!(Some(-5), emu.cache_get(0, Key { ob: 0, loc: Loc::Phi }));
    assert_eq!(Ok(-5), emu.calc(0, Loc::Phi, 0));
    assert_eq!(2, emu.baskets().len());
    assert_eq!(1, emu.perf().total_atoms());
    assert_eq!(Some(1), emu.perf().hits.get(&Transition::NEW));
}

#[test]
fn untaken_branch_may_be_empty() {
    let mut emu = Emu::from_str(
        "
        ν0 ↦ ⟦ λ ↦ bool-if, ρ ↦ ν1, 𝛼0 ↦ ν2, 𝛼1 ↦ ν3 ⟧
        ν1 ↦ ⟦ Δ ↦ 0x0001 ⟧
        ν2 ↦ ⟦ Δ ↦ 0x002A ⟧
        ν3 ↦ ⟦ ⟧
        ",
    )
    .unwrap();
    let dtz = emu.dataize().unwrap();
    assert_eq!(42, dtz.0);
    assert_eq!(1, dtz.1.total_atoms());
}

#[test]
fn untaken_branch_may_be_endless() {
    let mut emu = Emu::from_str(
        "
        ν0 ↦ ⟦ λ ↦ bool-if, ρ ↦ ν1, 𝛼0 ↦ ν3, 𝛼1 ↦ ν2 ⟧
        ν1 ↦ ⟦ Δ ↦ 0x0000 ⟧
        ν2 ↦ ⟦ Δ ↦ 0x002A ⟧
        ν3 ↦ ⟦ λ ↦ int-add, ρ ↦ ν3, 𝛼0 ↦ ν3 ⟧
        ",
    )
    .unwrap();
    let dtz = emu.dataize().unwrap();
    assert_eq!(42, dtz.0);
    assert_eq!(1, dtz.1.total_atoms());
}

#[test]
fn taken_branch_that_is_empty_fails() {
    let mut emu = Emu::from_str(
        "
        ν0 ↦ ⟦ λ ↦ bool-if, ρ ↦ ν1, 𝛼0 ↦ ν2, 𝛼1 ↦ ν3 ⟧
        ν1 ↦ ⟦ Δ ↦ 0x0002 ⟧
        ν2 ↦ ⟦ Δ ↦ 0x002A ⟧
        ν3 ↦ ⟦ ⟧
        ",
    )
    .unwrap();
    assert_eq!(Err(Error::EmptyObject), emu.dataize());
}

#[test]
fn literal_round_trip() {
    let mut emu = Emu::empty();
    emu.put(0, Object::dataic(-77));
    let dtz = emu.dataize().unwrap();
    assert_eq!(-77, dtz.0);
    assert_eq!(0, dtz.1.total_atoms());
    assert_eq!(Some(1), dtz.1.hits.get(&Transition::CPY));
    let again = emu.dataize().unwrap();
    assert_eq!(-77, again.0);
    assert_eq!(Some(1), again.1.hits.get(&Transition::CPY));
}

#[test]
fn empty_object_fails() {
    let mut emu = Emu::empty();
    emu.put(0, Object::open());
    assert_eq!(Err(Error::EmptyObject), emu.dataize());
    emu.put(0, Object::open().with(Loc::Rho, Locator::object(0), false));
    assert_eq!(Err(Error::EmptyObject), emu.dataize());
}

#[test]
fn missing_object_fails() {
    let mut emu = Emu::empty();
    assert_eq!(Err(Error::UnknownObject), emu.dataize());
    emu.put(0, Object::open().with(Loc::Phi, Locator::object(5), false));
    assert_eq!(Err(Error::UnknownObject), emu.dataize());
    emu.put(3, Object::dataic(1));
    assert_eq!(Err(Error::UnknownObject), emu.dataize());
}

#[test]
fn too_many_hops_fail() {
    let mut emu = Emu::from_str(
        "
        ν0 ↦ ⟦ φ ↦ ν1(ξ), 𝛼0 ↦ ν2 ⟧
        ν1 ↦ ⟦ φ ↦ ξ.ξ.𝛼0 ⟧
        ν2 ↦ ⟦ Δ ↦ 0x0001 ⟧
        ",
    )
    .unwrap();
    assert_eq!(Err(Error::BrokenClosure), emu.dataize());
    let mut flat = Emu::from_str("ν0 ↦ ⟦ φ ↦ ξ.𝛼0, 𝛼0 ↦ ν0 ⟧").unwrap();
    assert_eq!(Err(Error::BrokenClosure), flat.dataize());
}

#[test]
fn hops_within_the_nesting_resolve() {
    let mut emu = Emu::from_str(
        "
        ν0 ↦ ⟦ φ ↦ ν1(ξ), 𝛼0 ↦ ν2 ⟧
        ν1 ↦ ⟦ φ ↦ ξ.𝛼0, 𝛼1 ↦ φ ⟧
        ν2 ↦ ⟦ Δ ↦ 0x0001 ⟧
        ν3 ↦ ⟦ λ ↦ int-neg, ρ ↦ ν2 ⟧
        ",
    )
    .unwrap();
    let bk = emu.new(1, 0).unwrap();
    let deep = emu.new(3, bk).unwrap();
    assert_eq!(Ok(Place::Object(2, bk)), emu.resolve(Locator::new(1, Loc::Arg(0)), 1, bk, 10));
    assert_eq!(Ok(Place::Object(2, bk)), emu.resolve(Locator::new(0, Loc::Phi), 1, bk, 10));
    assert_eq!(Ok(Place::Object(2, bk)), emu.resolve(Locator::new(0, Loc::Arg(1)), 1, bk, 10));
    assert_eq!(Ok(Place::Object(2, bk)), emu.resolve(Locator::new(2, Loc::Arg(0)), 3, deep, 10));
    assert_eq!(Ok(Place::Object(7, bk)), emu.resolve(Locator::new(1, Loc::Obj(7)), 1, bk, 10));
    assert_eq!(Ok(Place::Object(7, deep)), emu.resolve(Locator::new(1, Loc::Obj(7)), 1, deep, 10));
    assert_eq!(Ok(Place::Object(7, bk)), emu.resolve(Locator::new(2, Loc::Obj(7)), 1, deep, 10));
    assert_eq!(Ok(Place::Object(7, bk)), emu.resolve(Locator::new(0, Loc::Obj(7)), 1, bk, 10));
    assert_eq!(Ok(Place::Object(3, deep)), emu.resolve(Locator::new(0, Loc::Lambda), 3, deep, 10));
    assert_eq!(Ok(Place::Literal(1)), emu.resolve(Locator::new(0, Loc::Delta), 2, bk, 10));
    assert_eq!(
        Err(Error::BrokenClosure),
        emu.resolve(Locator::new(2, Loc::Arg(0)), 1, bk, 10)
    );
    assert_eq!(
        Err(Error::BrokenClosure),
        emu.resolve(Locator::new(3, Loc::Arg(0)), 1, deep, 10)
    );
    assert_eq!(
        Err(Error::UnknownAttribute),
        emu.resolve(Locator::new(0, Loc::Delta), 1, bk, 10)
    );
    assert_eq!(
        Err(Error::UnknownAttribute),
        emu.resolve(Locator::new(0, Loc::Lambda), 1, bk, 10)
    );
    assert_eq!(
        Err(Error::UnknownObject),
        emu.resolve(Locator::new(0, Loc::Delta), 9, bk, 10)
    );
    assert_eq!(
        Err(Error::DepthExceeded),
        emu.resolve(Locator::new(0, Loc::Obj(2)), 1, bk, 0)
    );
    assert_eq!(
        Err(Error::DepthExceeded),
        emu.resolve(Locator::new(0, Loc::Arg(1)), 1, bk, 2)
    );
    assert_eq!(
        Err(Error::UnknownBasket),
        emu.resolve(Locator::new(0, Loc::Obj(2)), 1, 9, 10)
    );
    assert_eq!(1, emu.dataize().unwrap().0);
}

#[test]
fn missing_attribute_fails() {
    let mut emu = Emu::from_str("ν0 ↦ ⟦ λ ↦ int-add, ρ ↦ ν1 ⟧ ν1 ↦ ⟦ Δ ↦ 0x0001 ⟧").unwrap();
    assert_eq!(Err(Error::UnknownAttribute), emu.dataize());
    assert_eq!(Err(Error::UnknownAttribute), emu.calc(0, Loc::Arg(0), 0));
    assert_eq!(Ok(1), emu.calc(0, Loc::Rho, 0));
    assert_eq!(Err(Error::UnknownAttribute), emu.find(1, Loc::Phi, 5));
}

#[test]
fn attribute_is_found_on_the_decorated_object() {
    let emu = Emu::from_str(
        "
        ν0 ↦ ⟦ φ ↦ ν1 ⟧
        ν1 ↦ ⟦ φ ↦ ν2, 𝛼0 ↦ ν1 ⟧
        ν2 ↦ ⟦ Δ ↦ 0x0001, 𝛼3 ↦ ξ.ρ ⟧
        ",
    )
    .unwrap();
    let (holder, binding) = emu.find(0, Loc::Arg(3), 3).unwrap();
    assert_eq!(2, holder);
    assert_eq!(Locator::new(1, Loc::Rho), binding.locator);
    assert!(!binding.applied);
    assert_eq!(1, emu.find(0, Loc::Arg(0), 2).unwrap().0);
    assert_eq!(Err(Error::DepthExceeded), emu.find(0, Loc::Arg(3), 2));
    assert_eq!(Err(Error::UnknownAttribute), emu.find(0, Loc::Arg(4), 9));
    assert_eq!(Err(Error::UnknownObject), emu.find(7, Loc::Arg(4), 9));
}

#[test]
fn unknown_basket_fails() {
    let mut emu = binary("int-add", "0002", "0003");
    assert_eq!(Err(Error::UnknownBasket), emu.dataize_at(1));
    assert_eq!(Err(Error::UnknownBasket), emu.calc(0, Loc::Rho, 4));
    assert_eq!(Err(Error::UnknownBasket), emu.new(0, 9));
    assert_eq!(Err(Error::UnknownBasket), int_add(&mut emu, 0, 2));
    assert_eq!(Err(Error::UnknownBasket), bool_if(&mut emu, 0, 2));
    assert_eq!(Err(Error::UnknownBasket), int_neg(&mut emu, 0, 2));
    assert_eq!(1, emu.baskets().len());
    assert_eq!(Perf::new(), emu.perf());
}

#[test]
fn endless_graph_runs_out_of_depth() {
    let mut emu = Emu::from_str("ν0 ↦ ⟦ φ ↦ ν1 ⟧ ν1 ↦ ⟦ φ ↦ ν0 ⟧").unwrap();
    emu.opt(Opt::Depth(64));
    assert_eq!(Err(Error::DepthExceeded), emu.dataize());
    let mut calls = Emu::from_str("ν0 ↦ ⟦ φ ↦ ν0(ξ) ⟧").unwrap();
    calls.opt(Opt::Depth(16));
    assert_eq!(Err(Error::DepthExceeded), calls.dataize());
    assert_eq!(16, calls.baskets().len());
}

#[test]
fn depth_allowance_decides() {
    let mut emu = Emu::from_str(
        "ν0 ↦ ⟦ φ ↦ ν1 ⟧ ν1 ↦ ⟦ φ ↦ ν2 ⟧ ν2 ↦ ⟦ Δ ↦ 0x0009 ⟧",
    )
    .unwrap();
    emu.opt(Opt::Depth(0));
    assert_eq!(Err(Error::DepthExceeded), emu.dataize());
    emu.opt(Opt::Depth(2));
    assert_eq!(Err(Error::DepthExceeded), emu.dataize());
    emu.opt(Opt::Depth(3));
    assert_eq!(9, emu.dataize().unwrap().0);
    assert_eq!(Some(3), emu.perf().hits.get(&Transition::DEC));
    let mut fresh = Emu::from_str(
        "ν0 ↦ ⟦ φ ↦ ν1 ⟧ ν1 ↦ ⟦ φ ↦ ν2 ⟧ ν2 ↦ ⟦ Δ ↦ 0x0009 ⟧",
    )
    .unwrap();
    assert_eq!(9, fresh.dataize().unwrap().0);
    assert_eq!(Some(2), fresh.perf().hits.get(&Transition::DEC));
    assert_eq!(1000, DEFAULT_DEPTH);
}

#[test]
fn operations_compute() {
    assert_eq!(7, binary("int-add", "0003", "0004").dataize().unwrap().0);
    assert_eq!(-1, binary("int-sub", "0003", "0004").dataize().unwrap().0);
    assert_eq!(1, binary("int-less", "0003", "0004").dataize().unwrap().0);
    assert_eq!(0, binary("int-less", "0004", "0004").dataize().unwrap().0);
    assert_eq!(0, binary("int-less", "0005", "0004").dataize().unwrap().0);
    assert_eq!(-3, binary("int-neg", "0003", "0004").dataize().unwrap().0);
    let mut direct = binary("int-add", "0010", "0001");
    assert_eq!(Ok(17), int_add(&mut direct, 0, 0));
    assert_eq!(Ok(15), int_sub(&mut direct, 0, 0));
    assert_eq!(Ok(0), int_less(&mut direct, 0, 0));
    assert_eq!(Ok(-16), int_neg(&mut direct, 0, 0));
    assert_eq!(Err(Error::UnknownAttribute), bool_if(&mut direct, 0, 0));
    assert_eq!(0, direct.perf().total_atoms());
}

#[test]
fn overflow_is_an_atom_failure() {
    assert_eq!(
        Err(Error::AtomFailure),
        binary("int-add", "7FFFFFFFFFFFFFFF", "0001").dataize()
    );
    assert_eq!(
        Err(Error::AtomFailure),
        binary("int-sub", "8000000000000000", "0001").dataize()
    );
    assert_eq!(
        Err(Error::AtomFailure),
        binary("int-neg", "8000000000000000", "0001").dataize()
    );
    assert_eq!(
        i64::MAX,
        binary("int-add", "7FFFFFFFFFFFFFFE", "0001").dataize().unwrap().0
    );
    assert_eq!(Err(Error::AtomFailure), sum(i64::MAX, 1));
    assert_eq!(Ok(-1), sum(i64::MIN, i64::MAX));
    assert_eq!(Err(Error::AtomFailure), diff(i64::MIN, 1));
    assert_eq!(Ok(-1), diff(i64::MIN, i64::MIN + 1));
    assert_eq!(1, less(-1, 0));
    assert_eq!(0, less(0, 0));
}

#[test]
fn delete_takes_the_enclosed_baskets_too() {
    let mut emu = Emu::from_str(FOO).unwrap();
    assert_eq!(42, emu.dataize().unwrap().0);
    let all = emu.baskets().len();
    assert_eq!(10, all);
    assert!(!emu.delete(0));
    assert!(!emu.delete(all));
    assert!(emu.delete(3));
    let alive: Vec<bool> = emu.baskets().iter().map(|b| b.alive).collect();
    assert_eq!(
        vec![true, true, true, false, false, false, false, false, false, false],
        alive
    );
    assert!(!emu.delete(3));
    assert!(!emu.delete(5));
    assert_eq!(Err(Error::UnknownBasket), emu.dataize_at(4));
    assert_eq!(None, emu.cache_get(3, Key { ob: 2, loc: Loc::Lambda }));
    assert_eq!(Some(42), emu.cache_get(2, Key { ob: 2, loc: Loc::Lambda }));
    assert_eq!(42, emu.dataize_at(2).unwrap().0);
    assert!(emu.delete(1));
    assert_eq!(42, emu.dataize().unwrap().0);
    assert_eq!(10, emu.baskets().len());
    let fresh = emu.new(1, 0).unwrap();
    assert_eq!(10, fresh);
    assert_eq!(Some(0), emu.baskets()[fresh].psi);
    assert_eq!(0, emu.baskets()[fresh].host);
}

#[test]
fn delete_can_be_switched_off() {
    let mut emu = Emu::from_str(FOO).unwrap();
    emu.opt(Opt::DontDelete);
    assert_eq!(42, emu.dataize().unwrap().0);
    assert!(!emu.delete(1));
    assert!(emu.baskets().iter().all(|b| b.alive));
    assert_eq!(9, emu.baskets().iter().filter(|b| b.ob == 1).count());
}

#[test]
fn baskets_record_the_call() {
    let mut emu = Emu::from_str(FOO).unwrap();
    assert_eq!(42, emu.dataize().unwrap().0);
    let b = emu.baskets();
    assert_eq!((0, None), (b[0].ob, b[0].psi));
    assert_eq!((1, 9, Some(0)), (b[1].ob, b[1].host, b[1].psi));
    for k in 2..10 {
        assert_eq!((1, 6, Some(k - 1)), (b[k].ob, b[k].host, b[k].psi));
    }
    assert_eq!(Some(9), emu.perf().hits.get(&Transition::NEW));
    assert_eq!(Some(10), emu.perf().hits.get(&Transition::DEC));
    assert_eq!(26, emu.perf().total_atoms());
}

#[test]
fn put_starts_over() {
    let mut emu = Emu::from_str(FOO).unwrap();
    assert_eq!(42, emu.dataize().unwrap().0);
    emu.put(5, Object::dataic(43));
    assert_eq!(1, emu.baskets().len());
    assert_eq!(None, emu.cache_get(0, Key { ob: 5, loc: Loc::Delta }));
    assert_eq!(43, emu.dataize().unwrap().0);
    assert_eq!(Some(43), emu.object(5).unwrap().delta());
    assert!(emu.object(11).is_none());
    assert_eq!(Some(43), emu.get(5).unwrap().delta());
    assert_eq!(Some(Error::UnknownObject), emu.get(11).err());
    assert_eq!(Some(Error::UnknownObject), emu.get(usize::MAX).err());
}

#[test]
fn fibonacci_numbers() {
    assert_eq!(1, fibo(-3));
    assert_eq!(1, fibo(0));
    assert_eq!(1, fibo(1));
    assert_eq!(2, fibo(2));
    assert_eq!(21, fibo(7));
    assert_eq!(89, fibo(10));
    assert_eq!(2, fibo_ops(1));
    assert_eq!(9, fibo_ops(2));
    assert_eq!(142, fibo_ops(7));
}

#[test]
fn fibonacci_graph_matches_for_small_inputs() {
    for input in 0..10 {
        let mut emu = Emu::from_str(
            format!(
                "
                ν0 ↦ ⟦ φ ↦ ν2 ⟧
                ν1 ↦ ⟦ Δ ↦ 0x{:04X} ⟧
                ν2 ↦ ⟦ φ ↦ ν3(ξ), 𝛼0 ↦ ν1 ⟧
                ν3 ↦ ⟦ φ ↦ ν13 ⟧
                ν5 ↦ ⟦ Δ ↦ 0x0002 ⟧
                ν6 ↦ ⟦ λ ↦ int-sub, ρ ↦ ξ.ξ.𝛼0, 𝛼0 ↦ ν5 ⟧
                ν7 ↦ ⟦ Δ ↦ 0x0001 ⟧
                ν8 ↦ ⟦ λ ↦ int-sub, ρ ↦ ξ.ξ.𝛼0, 𝛼0 ↦ ν7 ⟧
                ν9 ↦ ⟦ φ ↦ ν3(ξ), 𝛼0 ↦ ν8 ⟧
                ν10 ↦ ⟦ φ ↦ ν3(ξ), 𝛼0 ↦ ν6 ⟧
                ν11 ↦ ⟦ λ ↦ int-add, ρ ↦ ν9, 𝛼0 ↦ ν10 ⟧
                ν12 ↦ ⟦ λ ↦ int-less, ρ ↦ ξ.𝛼0, 𝛼0 ↦ ν5 ⟧
                ν13 ↦ ⟦ λ ↦ bool-if, ρ ↦ ν12, 𝛼0 ↦ ν7, 𝛼1 ↦ ν11 ⟧
                ",
                input
            )
            .as_str(),
        )
        .unwrap();
        let dtz = emu.dataize().unwrap();
        assert_eq!(fibo(input), dtz.0);
        assert_eq!(fibo_ops(input), dtz.1.total_atoms());
    }
}

#[test]
fn objects_are_built_by_parts() {
    let o = Object::atomic(Atom::IntAdd)
        .with(Loc::Rho, ph("ξ.𝛼0").unwrap(), false)
        .with(Loc::Arg(1), ph("ν3").unwrap(), true)
        .with(Loc::Arg(1), ph("ν4").unwrap(), false)
        .with(Loc::Delta, ph("ν5").unwrap(), false)
        .with(Loc::Obj(2), ph("ν5").unwrap(), false);
    assert_eq!(Some(Atom::IntAdd), o.lambda());
    assert_eq!(None, o.delta());
    assert_eq!(Locator::new(1, Loc::Arg(0)), o.attr(Loc::Rho).unwrap().locator);
    assert_eq!(Locator::object(4), o.attr(Loc::Arg(1)).unwrap().locator);
    assert!(!o.attr(Loc::Arg(1)).unwrap().applied);
    assert!(o.attr(Loc::Arg(0)).is_none());
    assert!(o.attr(Loc::Phi).is_none());
    assert!(o.attr(Loc::Delta).is_none());
    assert!(o.attr(Loc::Obj(2)).is_none());
    assert!(!o.is_abstract());
    assert!(Object::open().is_abstract());
    assert!(Object::open().with(Loc::Rho, Locator::object(1), false).is_abstract());
    let d = o.literal(5);
    assert_eq!(Some(5), d.delta());
    assert_eq!(None, d.lambda());
    let a = d.operation(Atom::IntNeg);
    assert_eq!(None, a.delta());
    assert_eq!(Some(Atom::IntNeg), a.lambda());
    assert!(Loc::Phi.binds() && Loc::Rho.binds() && Loc::Arg(3).binds());
    assert!(!Loc::Delta.binds() && !Loc::Lambda.binds() && !Loc::Obj(3).binds());
}

#[test]
fn counters_count() {
    let mut p = Perf::new();
    assert_eq!(0, p.total_atoms());
    assert_eq!(None, p.hits.get(&Transition::CPY));
    p.atom();
    p.atom();
    p.hit(Transition::CPY);
    p.hit(Transition::DEC);
    p.hit(Transition::DEC);
    p.hit(Transition::NEW);
    assert_eq!(2, p.total_atoms());
    assert_eq!(Some(1), p.hits.get(&Transition::CPY));
    assert_eq!(Some(2), p.hits.get(&Transition::DEC));
    assert_eq!(Some(1), p.hits.get(&Transition::NEW));
    p.atoms = usize::MAX;
    p.atom();
    assert_eq!(usize::MAX, p.total_atoms());
}

fn fibonacci(input: i64, coded: bool) -> Emu {
    let mut emu = Emu::from_str(
        format!(
            "
            ν0 ↦ ⟦ φ ↦ ν2 ⟧
            ν1 ↦ ⟦ Δ ↦ 0x{:04X} ⟧
            ν2 ↦ ⟦ φ ↦ ν3(ξ), 𝛼0 ↦ ν1 ⟧
            ν3 ↦ ⟦ φ ↦ ν13 ⟧
            ν5 ↦ ⟦ Δ ↦ 0x0002 ⟧
            ν6 ↦ ⟦ λ ↦ int-sub, ρ ↦ ξ.ξ.𝛼0, 𝛼0 ↦ ν5 ⟧
            ν7 ↦ ⟦ Δ ↦ 0x0001 ⟧
            ν8 ↦ ⟦ λ ↦ int-sub, ρ ↦ ξ.ξ.𝛼0, 𝛼0 ↦ ν7 ⟧
            ν9 ↦ ⟦ φ ↦ ν3(ξ), 𝛼0 ↦ ν8 ⟧
            ν10 ↦ ⟦ φ ↦ ν3(ξ), 𝛼0 ↦ ν6 ⟧
            ν11 ↦ ⟦ λ ↦ int-add, ρ ↦ ν9, 𝛼0 ↦ ν10 ⟧
            ν12 ↦ ⟦ λ ↦ int-less, ρ ↦ ξ.𝛼0, 𝛼0 ↦ ν5 ⟧
            ν13 ↦ ⟦ λ ↦ bool-if, ρ ↦ ν12, 𝛼0 ↦ ν7, 𝛼1 ↦ ν11 ⟧
            ",
            input
        )
        .as_str(),
    )
    .unwrap();
    if coded {
        let v = Locator::object;
        let up = |hops: usize| Locator::new(hops, Loc::Arg(0));
        emu.put(
            6,
            Object::coded(program(Atom::IntSub))
                .with(Loc::Rho, up(2), false)
                .with(Loc::Arg(0), v(5), false),
        );
        emu.put(
            8,
            Object::coded(program(Atom::IntSub))
                .with(Loc::Rho, up(2), false)
                .with(Loc::Arg(0), v(7), false),
        );
        emu.put(
            11,
            Object::coded(program(Atom::IntAdd))
                .with(Loc::Rho, v(9), false)
                .with(Loc::Arg(0), v(10), false),
        );
        emu.put(
            12,
            Object::coded(program(Atom::IntLess))
                .with(Loc::Rho, up(1), false)
                .with(Loc::Arg(0), v(5), false),
        );
        emu.put(
            13,
            Object::coded(program(Atom::BoolIf))
                .with(Loc::Rho, v(12), false)
                .with(Loc::Arg(0), v(7), false)
                .with(Loc::Arg(1), v(11), false),
        );
    }
    emu
}

#[test]
fn programs_stand_in_for_operations() {
    for input in 0..9 {
        let native = fibonacci(input, false).dataize().unwrap();
        let coded = fibonacci(input, true).dataize().unwrap();
        assert_eq!(native, coded);
        assert_eq!(fibo(input), coded.0);
        assert_eq!(fibo_ops(input), coded.1.total_atoms());
    }
}

fn run(code: Vec<Instr>) -> Result<i64, Error> {
    let mut emu = Emu::empty();
    emu.put(
        0,
        Object::coded(code)
            .with(Loc::Rho, Locator::object(1), false)
            .with(Loc::Arg(0), Locator::object(2), false),
    );
    emu.put(1, Object::dataic(30));
    emu.put(2, Object::dataic(12));
    interpreted(&mut emu, 0, 0)
}

#[test]
fn programs_compute() {
    assert_eq!(Ok(42), run(program(Atom::IntAdd)));
    assert_eq!(Ok(18), run(program(Atom::IntSub)));
    assert_eq!(Ok(0), run(program(Atom::IntLess)));
    assert_eq!(Ok(-30), run(program(Atom::IntNeg)));
    assert_eq!(Err(Error::UnknownAttribute), run(program(Atom::BoolIf)));
    assert_eq!(Ok(0), run(vec![Instr::Return(7)]));
    assert_eq!(Ok(5), run(vec![Instr::Write(5, 3), Instr::Read(3, 4), Instr::Return(4)]));
    assert_eq!(
        Ok(-18),
        run(vec![
            Instr::Dataize(Loc::Arg(0), 0),
            Instr::Dataize(Loc::Rho, 1),
            Instr::Jump(0, 1, 4),
            Instr::Return(0),
            Instr::Sub(0, 1, 0),
            Instr::Return(0),
        ])
    );
    assert_eq!(
        Ok(12),
        run(vec![
            Instr::Dataize(Loc::Arg(0), 0),
            Instr::Dataize(Loc::Rho, 1),
            Instr::Jump(1, 0, 4),
            Instr::Return(0),
            Instr::Sub(0, 1, 0),
            Instr::Return(0),
        ])
    );
    assert_eq!(Ok(30), run(vec![Instr::Dataize(Loc::Obj(1), 2), Instr::Return(2)]));
    assert_eq!(8, REGISTERS);
}

#[test]
fn broken_programs_fail() {
    assert_eq!(Err(Error::AtomFailure), run(program(Atom::Code)));
    assert_eq!(Err(Error::AtomFailure), run(vec![]));
    assert_eq!(Err(Error::AtomFailure), run(vec![Instr::Write(1, 0)]));
    assert_eq!(Err(Error::AtomFailure), run(vec![Instr::Return(8)]));
    assert_eq!(Err(Error::AtomFailure), run(vec![Instr::Write(1, 8), Instr::Return(0)]));
    assert_eq!(Err(Error::AtomFailure), run(vec![Instr::Read(8, 0), Instr::Return(0)]));
    assert_eq!(Err(Error::AtomFailure), run(vec![Instr::Read(0, 8), Instr::Return(0)]));
    assert_eq!(Err(Error::AtomFailure), run(vec![Instr::Add(0, 1, 8), Instr::Return(0)]));
    assert_eq!(Err(Error::AtomFailure), run(vec![Instr::Sub(0, 9, 1), Instr::Return(0)]));
    assert_eq!(Err(Error::AtomFailure), run(vec![Instr::Jump(8, 0, 1), Instr::Return(0)]));
    assert_eq!(
        Err(Error::AtomFailure),
        run(vec![Instr::Dataize(Loc::Rho, 8), Instr::Return(0)])
    );
    assert_eq!(
        Err(Error::AtomFailure),
        run(vec![Instr::Write(1, 1), Instr::Jump(0, 1, 1), Instr::Return(0)])
    );
    assert_eq!(
        Err(Error::AtomFailure),
        run(vec![Instr::Write(1, 1), Instr::Jump(0, 1, 0), Instr::Return(0)])
    );
    assert_eq!(
        Err(Error::AtomFailure),
        run(vec![Instr::Write(1, 1), Instr::Jump(0, 1, 3), Instr::Return(0)])
    );
    assert_eq!(
        Ok(0),
        run(vec![Instr::Write(1, 1), Instr::Jump(1, 0, 0), Instr::Return(0)])
    );
    assert_eq!(
        Err(Error::AtomFailure),
        run(vec![
            Instr::Write(i64::MAX, 0),
            Instr::Write(1, 1),
            Instr::Add(0, 1, 2),
            Instr::Return(2)
        ])
    );
    assert_eq!(
        Err(Error::UnknownAttribute),
        run(vec![Instr::Dataize(Loc::Arg(1), 0), Instr::Return(0)])
    );
    let mut emu = Emu::empty();
    assert_eq!(Err(Error::UnknownObject), interpreted(&mut emu, 0, 0));
    assert_eq!(Err(Error::UnknownBasket), interpreted(&mut emu, 0, 1));
    emu.put(0, Object::dataic(1));
    assert_eq!(Err(Error::AtomFailure), interpreted(&mut emu, 0, 0));
    assert_eq!(None, emu.instr(0, 0));
    assert_eq!(None, emu.instr(1, 0));
    emu.put(1, Object::coded(vec![Instr::Return(1)]));
    assert_eq!(Some(Instr::Return(1)), emu.instr(1, 0));
    assert_eq!(None, emu.instr(1, 1));
    assert_eq!(Some(Atom::Code), emu.object(1).unwrap().lambda());
}

#[test]
fn default_depth_ends_an_endless_graph() {
    let mut bodies = Emu::from_str("ν0 ↦ ⟦ φ ↦ ν0(ξ) ⟧").unwrap();
    assert_eq!(Err(Error::DepthExceeded), bodies.dataize());
    assert_eq!(DEFAULT_DEPTH, bodies.baskets().len());
    let mut operations = Emu::from_str("ν0 ↦ ⟦ λ ↦ int-add, ρ ↦ ν1, 𝛼0 ↦ ν0 ⟧ ν1 ↦ ⟦ λ ↦ int-neg, ρ ↦ ν0 ⟧").unwrap();
    assert_eq!(Err(Error::DepthExceeded), operations.dataize());
    let mut programs = Emu::empty();
    programs.put(
        0,
        Object::coded(program(Atom::IntNeg)).with(Loc::Rho, Locator::object(0), false),
    );
    assert_eq!(Err(Error::DepthExceeded), programs.dataize());
}
