use vstd::prelude::*;
use crate::atom::Atom;
use crate::data::{Data, Error};

verus! {

/// A token of the textual notation.
#[derive(Clone, Copy, Debug, PartialEq, Eq, Structural)]
pub enum Token {
    /// An object id: the letter nu, or `v`, and a number.
    Obj(usize),
    /// A positional argument: the letter alpha and a number.
    Arg(usize),
    /// A bare number.
    Num(usize),
    /// A literal: `0x` and hexadecimal digits.
    Hex(Data),
    /// The name of an operation.
    Name(Atom),
    /// The arrow between a key and its value.
    Arrow,
    /// The opening bracket of an object.
    Open,
    /// The closing bracket of an object.
    Close,
    Comma,
    Dot,
    LParen,
    RParen,
    /// The letter xi, or `$`: one hop to the enclosing basket.
    Xi,
    /// The letter phi, or `@`.
    Phi,
    /// The letter rho, or `^`.
    Rho,
    /// The capital letter delta.
    Delta,
    /// The letter lambda.
    Lambda,
}

/// Whether the bytes `w` stand in `s` at `i`.
pub open spec fn has(s: Seq<u8>, i: int, w: Seq<u8>) -> bool {
    0 <= i && i + w.len() <= s.len() && s.subrange(i, i + w.len()) == w
}

/// Blank, tab, line feed and carriage return separate tokens.
pub open spec fn is_blank(b: u8) -> bool {
    b == 32 || b == 9 || b == 10 || b == 13
}

/// The value of a decimal digit.
pub open spec fn digit_of(b: u8) -> Option<int> {
    if 48 <= b <= 57 {
        Some(b - 48)
    } else {
        None
    }
}

/// The value of a hexadecimal digit, of either case.
pub open spec fn hexit_of(b: u8) -> Option<int> {
    if 48 <= b <= 57 {
        Some(b - 48)
    } else if 97 <= b <= 102 {
        Some(b - 87)
    } else if 65 <= b <= 70 {
        Some(b - 55)
    } else {
        None
    }
}

/// The largest number that the notation can name.
pub open spec fn max_number() -> int {
    999_999_999
}

/// The number that `acc` and the decimal digits from `i` on make, with the
/// place behind them; none where it would pass `max_number()`.
pub open spec fn digits(s: Seq<u8>, i: int, acc: int) -> Option<(int, int)>
    decreases s.len() - i,
{
    if 0 <= i < s.len() && digit_of(s[i]) is Some {
        if acc >= 100_000_000 {
            None
        } else {
            digits(s, i + 1, acc * 10 + digit_of(s[i])->Some_0)
        }
    } else {
        Some((acc, i))
    }
}

/// The number written at `i` in decimal digits, at least one, with the place
/// behind it.
pub open spec fn number(s: Seq<u8>, i: int) -> Option<(int, int)> {
    if 0 <= i < s.len() && digit_of(s[i]) is Some {
        digits(s, i + 1, digit_of(s[i])->Some_0)
    } else {
        None
    }
}

/// The number that `acc` and the hexadecimal digits from `i` on make, with
/// the place behind them; none where it would not fit in 64 bits.
pub open spec fn hexits(s: Seq<u8>, i: int, acc: int) -> Option<(int, int)>
    decreases s.len() - i,
{
    if 0 <= i < s.len() && hexit_of(s[i]) is Some {
        if acc >= 0x1000_0000_0000_0000 {
            None
        } else {
            hexits(s, i + 1, acc * 16 + hexit_of(s[i])->Some_0)
        }
    } else {
        Some((acc, i))
    }
}

/// The number written at `i` in hexadecimal digits, at least one, with the
/// place behind it.
pub open spec fn hex_number(s: Seq<u8>, i: int) -> Option<(int, int)> {
    if 0 <= i < s.len() && hexit_of(s[i]) is Some {
        hexits(s, i + 1, hexit_of(s[i])->Some_0)
    } else {
        None
    }
}

/// The scalar that 64 bits stand for: the upper half of the range is the
/// negative scalars.
pub open spec fn scalar_of(v: int) -> Data {
    if v <= i64::MAX {
        v as Data
    } else {
        (v - 0x1_0000_0000_0000_0000) as Data
    }
}

/// The token that a sign stands for, with the sign's length in bytes.
pub open spec fn sign_at(s: Seq<u8>, i: int) -> Option<(Token, int)> {
    if has(s, i, seq![0xE2u8, 0x86u8, 0xA6u8]) {
        Some((Token::Arrow, 3))
    } else if has(s, i, seq![0xE2u8, 0x9Fu8, 0xA6u8]) {
        Some((Token::Open, 3))
    } else if has(s, i, seq![0xE2u8, 0x9Fu8, 0xA7u8]) {
        Some((Token::Close, 3))
    } else if has(s, i, seq![0xCEu8, 0xBEu8]) {
        Some((Token::Xi, 2))
    } else if has(s, i, seq![0xCFu8, 0x86u8]) {
        Some((Token::Phi, 2))
    } else if has(s, i, seq![0xCFu8, 0x81u8]) {
        Some((Token::Rho, 2))
    } else if has(s, i, seq![0xCEu8, 0x94u8]) {
        Some((Token::Delta, 2))
    } else if has(s, i, seq![0xCEu8, 0xBBu8]) {
        Some((Token::Lambda, 2))
    } else if has(s, i, seq![44u8]) {
        Some((Token::Comma, 1))
    } else if has(s, i, seq![46u8]) {
        Some((Token::Dot, 1))
    } else if has(s, i, seq![40u8]) {
        Some((Token::LParen, 1))
    } else if has(s, i, seq![41u8]) {
        Some((Token::RParen, 1))
    } else if has(s, i, seq![36u8]) {
        Some((Token::Xi, 1))
    } else if has(s, i, seq![64u8]) {
        Some((Token::Phi, 1))
    } else if has(s, i, seq![94u8]) {
        Some((Token::Rho, 1))
    } else {
        None
    }
}

/// The operation that a name stands for, with the name's length in bytes.
pub open spec fn name_at(s: Seq<u8>, i: int) -> Option<(Token, int)> {
    if has(s, i, seq![105u8, 110u8, 116u8, 45u8, 97u8, 100u8, 100u8]) {
        Some((Token::Name(Atom::IntAdd), 7))
    } else if has(s, i, seq![105u8, 110u8, 116u8, 45u8, 115u8, 117u8, 98u8]) {
        Some((Token::Name(Atom::IntSub), 7))
    } else if has(s, i, seq![105u8, 110u8, 116u8, 45u8, 108u8, 101u8, 115u8, 115u8]) {
        Some((Token::Name(Atom::IntLess), 8))
    } else if has(s, i, seq![98u8, 111u8, 111u8, 108u8, 45u8, 105u8, 102u8]) {
        Some((Token::Name(Atom::BoolIf), 7))
    } else if has(s, i, seq![105u8, 110u8, 116u8, 45u8, 110u8, 101u8, 103u8]) {
        Some((Token::Name(Atom::IntNeg), 7))
    } else {
        None
    }
}

/// The token that starts at `i`, with the place behind it. An object id is
/// the letter nu or `v` and a number; an argument is the letter alpha and a
/// number; a literal is `0x` and hexadecimal digits; then come bare
/// numbers, signs and names.
pub open spec fn token_at(s: Seq<u8>, i: int) -> Option<(Token, int)> {
    if has(s, i, seq![0xCEu8, 0xBDu8]) {
        match number(s, i + 2) {
            Some((n, j)) => Some((Token::Obj(n as usize), j)),
            None => None,
        }
    } else if has(s, i, seq![118u8]) {
        match number(s, i + 1) {
            Some((n, j)) => Some((Token::Obj(n as usize), j)),
            None => None,
        }
    } else if has(s, i, seq![0xF0u8, 0x9Du8, 0x9Bu8, 0xBCu8]) {
        match number(s, i + 4) {
            Some((n, j)) => Some((Token::Arg(n as usize), j)),
            None => None,
        }
    } else if has(s, i, seq![48u8, 120u8]) {
        match hex_number(s, i + 2) {
            Some((n, j)) => Some((Token::Hex(scalar_of(n)), j)),
            None => None,
        }
    } else if 0 <= i < s.len() && digit_of(s[i]) is Some {
        match number(s, i) {
            Some((n, j)) => Some((Token::Num(n as usize), j)),
            None => None,
        }
    } else {
        match sign_at(s, i) {
            Some((t, n)) => Some((t, i + n)),
            None => match name_at(s, i) {
                Some((t, n)) => Some((t, i + n)),
                None => None,
            },
        }
    }
}

/// The tokens of `s` from `i` on, behind those in `acc`. Separators are
/// passed over; text that is no token is a `MalformedLocator`.
pub open spec fn tokens_from(s: Seq<u8>, i: int, acc: Seq<Token>) -> Result<Seq<Token>, Error>
    decreases s.len() - i,
{
    if i < 0 || i >= s.len() {
        Ok(acc)
    } else if is_blank(s[i]) {
        tokens_from(s, i + 1, acc)
    } else {
        match token_at(s, i) {
            Some((t, k)) => if i < k <= s.len() {
                tokens_from(s, k, acc.push(t))
            } else {
                Err(Error::MalformedLocator)
            },
            None => Err(Error::MalformedLocator),
        }
    }
}

/// The tokens of a text.
pub open spec fn tokens_of(s: Seq<u8>) -> Result<Seq<Token>, Error> {
    tokens_from(s, 0, Seq::empty())
}

/// Whether the bytes `w` stand in `s` at `i`.
pub fn starts(s: &[u8], i: usize, w: &[u8]) -> (r: bool)
    ensures
        r == has(s@, i as int, w@),
{
    if i > s.len() || w.len() > s.len() - i {
        return false;
    }
    let mut k: usize = 0;
    while k < w.len()
        invariant
            i + w.len() <= s.len(),
            k <= w.len(),
            s@.subrange(i as int, i + k) == w@.take(k as int),
        decreases w.len() - k,
    {
        if s[i + k] != w[k] {
            assert(s@.subrange(i as int, i + w.len())[k as int] != w@[k as int]);
            return false;
        }
        k = k + 1;
        assert(s@.subrange(i as int, i + k) =~= s@.subrange(i as int, i + k - 1).push(
            s@[i + k - 1],
        ));
        assert(w@.take(k as int) =~= w@.take(k - 1).push(w@[k - 1]));
    }
    assert(w@.take(k as int) =~= w@);
    true
}

/// Reads the decimal number at `i`.
pub fn read_number(s: &[u8], i: usize) -> (r: Option<(usize, usize)>)
    ensures
        match r {
            Some((n, j)) => number(s@, i as int) == Some((n as int, j as int)) && i < j <= s.len()
                && n <= max_number(),
            None => number(s@, i as int) is None,
        },
{
    if i >= s.len() || s[i] < 48 || s[i] > 57 {
        return None;
    }
    let mut acc: usize = (s[i] - 48) as usize;
    let mut j: usize = i + 1;
    while j < s.len() && 48 <= s[j] && s[j] <= 57
        invariant
            i < j <= s.len(),
            acc <= max_number(),
            number(s@, i as int) == digits(s@, j as int, acc as int),
        decreases s.len() - j,
    {
        if acc >= 100_000_000 {
            return None;
        }
        acc = acc * 10 + (s[j] - 48) as usize;
        j = j + 1;
    }
    Some((acc, j))
}

/// Reads the hexadecimal number at `i` as a scalar.
pub fn read_hex(s: &[u8], i: usize) -> (r: Option<(Data, usize)>)
    ensures
        match r {
            Some((d, j)) => hex_number(s@, i as int) is Some && d == scalar_of(
                hex_number(s@, i as int)->Some_0.0,
            ) && j == hex_number(s@, i as int)->Some_0.1 && i < j <= s.len(),
            None => hex_number(s@, i as int) is None,
        },
{
    if i >= s.len() {
        return None;
    }
    let first = match hexit(s[i]) {
        Some(h) => h,
        None => {
            return None;
        },
    };
    let mut acc: u64 = first;
    let mut j: usize = i + 1;
    while j < s.len() && hexit(s[j]).is_some()
        invariant
            i < j <= s.len(),
            hex_number(s@, i as int) == hexits(s@, j as int, acc as int),
        decreases s.len() - j,
    {
        if acc >= 0x1000_0000_0000_0000 {
            return None;
        }
        let h = hexit(s[j]).unwrap();
        acc = acc * 16 + h;
        j = j + 1;
    }
    let d: Data = if acc <= 0x7FFF_FFFF_FFFF_FFFF {
        acc as i64
    } else {
        ((acc - 0x8000_0000_0000_0000) as i64) + i64::MIN
    };
    Some((d, j))
}

/// The value of a hexadecimal digit.
pub fn hexit(b: u8) -> (r: Option<u64>)
    ensures
        match r {
            Some(h) => hexit_of(b) == Some(h as int) && h < 16,
            None => hexit_of(b) is None,
        },
{
    if 48 <= b && b <= 57 {
        Some((b - 48) as u64)
    } else if 97 <= b && b <= 102 {
        Some((b - 87) as u64)
    } else if 65 <= b && b <= 70 {
        Some((b - 55) as u64)
    } else {
        None
    }
}

/// Whether the one byte `a` stands in `s` at `i`.
pub fn at1(s: &[u8], i: usize, a: u8) -> (r: bool)
    ensures
        r == has(s@, i as int, seq![a]),
{
    let w: [u8; 1] = [a];
    assert(w@ =~= seq![a]);
    starts(s, i, &w)
}

/// Whether the two bytes `a`, `b` stand in `s` at `i`.
pub fn at2(s: &[u8], i: usize, a: u8, b: u8) -> (r: bool)
    ensures
        r == has(s@, i as int, seq![a, b]),
{
    let w: [u8; 2] = [a, b];
    assert(w@ =~= seq![a, b]);
    starts(s, i, &w)
}

/// Whether the three bytes `a`, `b`, `c` stand in `s` at `i`.
pub fn at3(s: &[u8], i: usize, a: u8, b: u8, c: u8) -> (r: bool)
    ensures
        r == has(s@, i as int, seq![a, b, c]),
{
    let w: [u8; 3] = [a, b, c];
    assert(w@ =~= seq![a, b, c]);
    starts(s, i, &w)
}

/// Whether the four bytes `a`, `b`, `c`, `d` stand in `s` at `i`.
pub fn at4(s: &[u8], i: usize, a: u8, b: u8, c: u8, d: u8) -> (r: bool)
    ensures
        r == has(s@, i as int, seq![a, b, c, d]),
{
    let w: [u8; 4] = [a, b, c, d];
    assert(w@ =~= seq![a, b, c, d]);
    starts(s, i, &w)
}

/// Reads the sign at `i`.
pub fn read_sign(s: &[u8], i: usize) -> (r: Option<(Token, usize)>)
    ensures
        match r {
            Some((t, n)) => sign_at(s@, i as int) == Some((t, n as int)) && 1 <= n && i + n
                <= s.len(),
            None => sign_at(s@, i as int) is None,
        },
{
    if at3(s, i, 0xE2, 0x86, 0xA6) {
        Some((Token::Arrow, 3))
    } else if at3(s, i, 0xE2, 0x9F, 0xA6) {
        Some((Token::Open, 3))
    } else if at3(s, i, 0xE2, 0x9F, 0xA7) {
        Some((Token::Close, 3))
    } else if at2(s, i, 0xCE, 0xBE) {
        Some((Token::Xi, 2))
    } else if at2(s, i, 0xCF, 0x86) {
        Some((Token::Phi, 2))
    } else if at2(s, i, 0xCF, 0x81) {
        Some((Token::Rho, 2))
    } else if at2(s, i, 0xCE, 0x94) {
        Some((Token::Delta, 2))
    } else if at2(s, i, 0xCE, 0xBB) {
        Some((Token::Lambda, 2))
    } else if at1(s, i, 44) {
        Some((Token::Comma, 1))
    } else if at1(s, i, 46) {
        Some((Token::Dot, 1))
    } else if at1(s, i, 40) {
        Some((Token::LParen, 1))
    } else if at1(s, i, 41) {
        Some((Token::RParen, 1))
    } else if at1(s, i, 36) {
        Some((Token::Xi, 1))
    } else if at1(s, i, 64) {
        Some((Token::Phi, 1))
    } else if at1(s, i, 94) {
        Some((Token::Rho, 1))
    } else {
        None
    }
}

/// Whether the word `w`, which is plain ASCII, stands in `s` at `i`.
fn at_word(s: &[u8], i: usize, w: &str) -> (r: bool)
    requires
        w.is_ascii(),
    ensures
        r == has(s@, i as int, Seq::new(w@.len(), |k: int| w@[k] as u8)),
{
    proof {
        vstd::string::is_ascii_spec_bytes(w);
    }
    starts(s, i, w.as_bytes())
}

/// Reads the name of an operation at `i`.
pub fn read_name(s: &[u8], i: usize) -> (r: Option<(Token, usize)>)
    ensures
        match r {
            Some((t, n)) => name_at(s@, i as int) == Some((t, n as int)) && 1 <= n && i + n
                <= s.len(),
            None => name_at(s@, i as int) is None,
        },
{
    proof {
        reveal_strlit("int-add");
        reveal_strlit("int-sub");
        reveal_strlit("int-less");
        reveal_strlit("bool-if");
        reveal_strlit("int-neg");
        assert(Seq::new("int-add"@.len(), |k: int| "int-add"@[k] as u8) =~= seq![
            105u8,
            110u8,
            116u8,
            45u8,
            97u8,
            100u8,
            100u8,
        ]);
        assert(Seq::new("int-sub"@.len(), |k: int| "int-sub"@[k] as u8) =~= seq![
            105u8,
            110u8,
            116u8,
            45u8,
            115u8,
            117u8,
            98u8,
        ]);
        assert(Seq::new("int-less"@.len(), |k: int| "int-less"@[k] as u8) =~= seq![
            105u8,
            110u8,
            116u8,
            45u8,
            108u8,
            101u8,
            115u8,
            115u8,
        ]);
        assert(Seq::new("bool-if"@.len(), |k: int| "bool-if"@[k] as u8) =~= seq![
            98u8,
            111u8,
            111u8,
            108u8,
            45u8,
            105u8,
            102u8,
        ]);
        assert(Seq::new("int-neg"@.len(), |k: int| "int-neg"@[k] as u8) =~= seq![
            105u8,
            110u8,
            116u8,
            45u8,
            110u8,
            101u8,
            103u8,
        ]);
    }
    if at_word(s, i, "int-add") {
        Some((Token::Name(Atom::IntAdd), 7))
    } else if at_word(s, i, "int-sub") {
        Some((Token::Name(Atom::IntSub), 7))
    } else if at_word(s, i, "int-less") {
        Some((Token::Name(Atom::IntLess), 8))
    } else if at_word(s, i, "bool-if") {
        Some((Token::Name(Atom::BoolIf), 7))
    } else if at_word(s, i, "int-neg") {
        Some((Token::Name(Atom::IntNeg), 7))
    } else {
        None
    }
}

/// Reads the token that starts at `i`.
pub fn read_token(s: &[u8], i: usize) -> (r: Option<(Token, usize)>)
    ensures
        match r {
            Some((t, j)) => token_at(s@, i as int) == Some((t, j as int)) && i < j <= s.len(),
            None => token_at(s@, i as int) is None || !(i < token_at(s@, i as int)->Some_0.1
                <= s.len()),
        },
{
    if at2(s, i, 0xCE, 0xBD) {
        assert(i + 2 <= s.len());
        match read_number(s, i + 2) {
            Some((n, j)) => Some((Token::Obj(n), j)),
            None => None,
        }
    } else if at1(s, i, 118) {
        assert(i + 1 <= s.len());
        match read_number(s, i + 1) {
            Some((n, j)) => Some((Token::Obj(n), j)),
            None => None,
        }
    } else if at4(s, i, 0xF0, 0x9D, 0x9B, 0xBC) {
        assert(i + 4 <= s.len());
        match read_number(s, i + 4) {
            Some((n, j)) => Some((Token::Arg(n), j)),
            None => None,
        }
    } else if at2(s, i, 48, 120) {
        assert(i + 2 <= s.len());
        match read_hex(s, i + 2) {
            Some((d, j)) => Some((Token::Hex(d), j)),
            None => None,
        }
    } else if i < s.len() && 48 <= s[i] && s[i] <= 57 {
        match read_number(s, i) {
            Some((n, j)) => Some((Token::Num(n), j)),
            None => None,
        }
    } else {
        match read_sign(s, i) {
            Some((t, n)) => Some((t, i + n)),
            None => match read_name(s, i) {
                Some((t, n)) => Some((t, i + n)),
                None => None,
            },
        }
    }
}

/// Cuts a text into its tokens.
pub fn lex(s: &[u8]) -> (r: Result<Vec<Token>, Error>)
    ensures
        match r {
            Ok(v) => tokens_of(s@) == Ok::<Seq<Token>, Error>(v@),
            Err(e) => tokens_of(s@) == Err::<Seq<Token>, Error>(e),
        },
{
    let mut acc: Vec<Token> = Vec::new();
    let mut i: usize = 0;
    while i < s.len()
        invariant
            i <= s.len(),
            tokens_of(s@) == tokens_from(s@, i as int, acc@),
        decreases s.len() - i,
    {
        let b = s[i];
        if b == 32 || b == 9 || b == 10 || b == 13 {
            i = i + 1;
        } else {
            match read_token(s, i) {
                Some((t, k)) => {
                    acc.push(t);
                    i = k;
                },
                None => {
                    return Err(Error::MalformedLocator);
                },
            }
        }
    }
    Ok(acc)
}

} // verus!
