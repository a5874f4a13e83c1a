use eoc::atom::Atom;
use eoc::data::Error;
use eoc::emu::Emu;
use eoc::lexer::{lex, read_hex, read_number, starts, Token};
use eoc::loc::{Loc, Locator};
use eoc::parser::ph;

#[test]
fn locators_are_read() {
    assert_eq!(Ok(Locator::object(1)), ph("v1"));
    assert_eq!(Ok(Locator::object(12)), ph("ν12"));
    assert_eq!(Ok(Locator::new(1, Loc::Arg(0))), ph("$.0"));
    assert_eq!(Ok(Locator::new(1, Loc::Arg(0))), ph("ξ.𝛼0"));
    assert_eq!(Ok(Locator::new(3, Loc::Arg(17))), ph(" ξ.ξ . ξ.𝛼17 "));
    assert_eq!(Ok(Locator::new(0, Loc::Phi)), ph("φ"));
    assert_eq!(Ok(Locator::new(0, Loc::Phi)), ph("@"));
    assert_eq!(Ok(Locator::new(1, Loc::Rho)), ph("$.^"));
    assert_eq!(Ok(Locator::new(2, Loc::Rho)), ph("ξ.ξ.ρ"));
    assert_eq!(Ok(Locator::new(0, Loc::Delta)), ph("Δ"));
    assert_eq!(Ok(Locator::new(1, Loc::Lambda)), ph("ξ.λ"));
    assert_eq!(Ok(Locator::new(1, Loc::Obj(3))), ph("ξ.ν3"));
    assert_eq!(Ok(Locator::object(999_999_999)), ph("ν999999999"));
    assert_eq!(Ok(Locator::object(7)), ph("ν0000000000007"));
}

#[test]
fn bad_locators_are_refused() {
    for text in [
        "", "ξ", "ξ.", ".ν1", "ν", "ν1 ν2", "ν1.", "ν1(ξ)", "w1", "ν1000000000", "𝛼", "ξ.ξ", "ξξ.𝛼0",
        "ν-1", "0x", "nu1", "ν1x",
    ] {
        assert_eq!(Err(Error::MalformedLocator), ph(text), "{}", text);
    }
}

#[test]
fn texts_are_cut_into_tokens() {
    assert_eq!(
        Ok(vec![
            Token::Obj(2),
            Token::Arrow,
            Token::Open,
            Token::Lambda,
            Token::Arrow,
            Token::Name(Atom::IntAdd),
            Token::Comma,
            Token::Rho,
            Token::Arrow,
            Token::Xi,
            Token::Dot,
            Token::Arg(0),
            Token::Comma,
            Token::Phi,
            Token::Arrow,
            Token::Obj(3),
            Token::LParen,
            Token::Xi,
            Token::RParen,
            Token::Comma,
            Token::Delta,
            Token::Arrow,
            Token::Hex(42),
            Token::Close,
        ]),
        lex("ν2 ↦ ⟦ λ ↦ int-add, ρ ↦ ξ.𝛼0,\tφ↦ν3(ξ),\r\nΔ ↦ 0x002A ⟧".as_bytes())
    );
    assert_eq!(
        Ok(vec![
            Token::Name(Atom::IntSub),
            Token::Name(Atom::IntLess),
            Token::Name(Atom::BoolIf),
            Token::Name(Atom::IntNeg),
            Token::Num(5),
            Token::Xi,
            Token::Phi,
            Token::Rho
        ]),
        lex(b"int-sub int-less bool-if int-neg 5 $ @ ^")
    );
    assert_eq!(Ok(vec![]), lex(b" \n\t "));
    assert_eq!(Err(Error::MalformedLocator), lex(b"int-mul"));
    assert_eq!(Err(Error::MalformedLocator), lex(b"0xG"));
    assert_eq!(Err(Error::MalformedLocator), lex("ν1 ↦ ⟦ x ⟧".as_bytes()));
    assert_eq!(Err(Error::MalformedLocator), lex(&[0xE2, 0x86]));
}

#[test]
fn numbers_are_read() {
    assert_eq!(Some((42, 2)), read_number(b"42", 0));
    assert_eq!(Some((2, 2)), read_number(b"42", 1));
    assert_eq!(None, read_number(b"42", 2));
    assert_eq!(None, read_number(b"x42", 0));
    assert_eq!(Some((999_999_999, 9)), read_number(b"999999999", 0));
    assert_eq!(None, read_number(b"1000000000", 0));
    assert_eq!(Some((1, 11)), read_number(b"00000000001,", 0));
    assert_eq!(Some((42, 2)), read_hex(b"2A", 0));
    assert_eq!(Some((42, 2)), read_hex(b"2a", 0));
    assert_eq!(Some((i64::MAX, 16)), read_hex(b"7FFFFFFFFFFFFFFF", 0));
    assert_eq!(Some((i64::MIN, 16)), read_hex(b"8000000000000000", 0));
    assert_eq!(Some((-1, 16)), read_hex(b"FFFFFFFFFFFFFFFF", 0));
    assert_eq!(Some((-1, 18)), read_hex(b"00FFFFFFFFFFFFFFFF", 0));
    assert_eq!(None, read_hex(b"10000000000000000", 0));
    assert_eq!(None, read_hex(b"", 0));
    assert_eq!(None, read_hex(b"g", 0));
    assert!(starts(b"abc", 1, b"bc"));
    assert!(starts(b"abc", 3, b""));
    assert!(!starts(b"abc", 2, b"cd"));
    assert!(!starts(b"abc", 4, b""));
    assert!(!starts(b"abc", 0, b"ac"));
}

#[test]
fn graphs_are_read() {
    let emu = Emu::from_str(
        "
        ν0 ↦ ⟦ φ ↦ ν3(ξ), 𝛼0 ↦ ν1, 𝛼1 ↦ ξ.ξ.𝛼2 ⟧
        ν1 ↦ ⟦ Δ ↦ 0xFFFFFFFFFFFFFFFE ⟧
        ν3 ↦ ⟦ λ ↦ int-less, ρ ↦ ξ.𝛼0 ⟧
        ν7 ↦ ⟦ ⟧
        ν7 ↦ ⟦ 𝛼0 ↦ ν1 ⟧
        ",
    )
    .unwrap();
    let zero = emu.object(0).unwrap();
    assert!(zero.attr(Loc::Phi).unwrap().applied);
    assert_eq!(Locator::object(3), zero.attr(Loc::Phi).unwrap().locator);
    assert!(!zero.attr(Loc::Arg(0)).unwrap().applied);
    assert_eq!(Locator::new(2, Loc::Arg(2)), zero.attr(Loc::Arg(1)).unwrap().locator);
    assert_eq!(Some(-2), emu.object(1).unwrap().delta());
    assert!(emu.object(2).is_none());
    assert_eq!(Some(Atom::IntLess), emu.object(3).unwrap().lambda());
    assert_eq!(Locator::object(1), emu.object(7).unwrap().attr(Loc::Arg(0)).unwrap().locator);
    assert!(emu.object(8).is_none());
    assert_eq!(1, emu.baskets().len());
    assert!(Emu::from_str("").unwrap().object(0).is_none());
}

#[test]
fn bad_graphs_are_refused() {
    for text in [
        "ν0",
        "ν0 ↦",
        "ν0 ↦ ⟦",
        "ν0 ↦ ⟦ φ ⟧",
        "ν0 ↦ ⟦ φ ↦ ⟧",
        "ν0 ↦ ⟦ φ ↦ ν0",
        "ν0 ↦ ⟦ φ ↦ ν0 ρ ↦ ν0 ⟧",
        "ν0 ↦ ⟦ Δ ↦ ν0 ⟧",
        "ν0 ↦ ⟦ Δ ↦ 42 ⟧",
        "ν0 ↦ ⟦ λ ↦ 0x0001 ⟧",
        "ν0 ↦ ⟦ λ ↦ int-add, Δ ↦ 0x0001 ⟧",
        "ν0 ↦ ⟦ Δ ↦ 0x0001, λ ↦ int-add ⟧",
        "ν0 ↦ ⟦ φ ↦ 0x0001 ⟧",
        "ν0 ↦ ⟦ φ ↦ int-add ⟧",
        "𝛼0 ↦ ⟦ ⟧",
        "ν0 ⟦ ⟧",
        "⟦ ⟧",
        "ν0 ↦ ⟦ ⟧ ⟧",
        "ν0 ↦ ⟦ φ ↦ ν0(ξ ⟧",
        "ν0 ↦ ⟦ foo ↦ ν0 ⟧",
    ] {
        assert_eq!(Some(Error::MalformedLocator), Emu::from_str(text).err(), "{}", text);
    }
    for text in [
        "ν0 ↦ ⟦ ν1 ↦ ν0 ⟧",
        "ν0 ↦ ⟦ ξ ↦ ν0 ⟧",
        "ν0 ↦ ⟦ 3 ↦ ν0 ⟧",
        "ν0 ↦ ⟦ φ ↦ ν0, ↦ ⟧",
        "ν0 ↦ ⟦ φ ↦ ν0, ⟧",
        "ν0 ↦ ⟦ int-add ↦ ν0 ⟧",
    ] {
        assert_eq!(Some(Error::UnknownAttribute), Emu::from_str(text).err(), "{}", text);
    }
    for text in [
        "ν0 ↦ ⟦ φ ↦ ν1 ⟧",
        "ν0 ↦ ⟦ φ ↦ ν0, 𝛼0 ↦ ξ.ν2 ⟧ ν1 ↦ ⟦ ⟧",
        "ν0 ↦ ⟦ 𝛼0 ↦ ν4, 𝛼0 ↦ ν0 ⟧",
    ] {
        assert_eq!(Some(Error::UnknownObject), Emu::from_str(text).err(), "{}", text);
    }
}
