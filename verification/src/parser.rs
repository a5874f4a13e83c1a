use vstd::prelude::*;
use vstd::string::StringSliceAdditionalSpecFns;
use crate::atom::Atom;
use crate::data::{Data, Error};
use crate::emu::{Emu, DEFAULT_DEPTH};
use crate::machine::fresh;
use crate::lexer::{lex, tokens_of, Token};
use crate::loc::{Binding, Loc, Locator};
use crate::object::{Object, ObjectView};
use crate::perf::Perf;
use crate::semantics::Graph;

verus! {

/// The number of hops written from `i` on, each the letter xi and a dot,
/// added to `n`, with the place behind them.
pub open spec fn hops_at(t: Seq<Token>, i: int, n: int) -> (int, int)
    decreases t.len() - i,
{
    if 0 <= i && i + 1 < t.len() && t[i] == Token::Xi && t[i + 1] == Token::Dot {
        hops_at(t, i + 2, n + 1)
    } else {
        (n, i)
    }
}

/// The selector that a token stands for where a locator ends.
pub open spec fn terminal_of(k: Token) -> Option<Loc> {
    match k {
        Token::Obj(n) => Some(Loc::Obj(n)),
        Token::Arg(n) => Some(Loc::Arg(n)),
        Token::Num(n) => Some(Loc::Arg(n)),
        Token::Phi => Some(Loc::Phi),
        Token::Rho => Some(Loc::Rho),
        Token::Delta => Some(Loc::Delta),
        Token::Lambda => Some(Loc::Lambda),
        _ => None,
    }
}

/// The locator written at `i`: hops, then a selector; with the place behind
/// it.
pub open spec fn locator_at(t: Seq<Token>, i: int) -> Option<(Locator, int)> {
    let (h, j) = hops_at(t, i, 0);
    if 0 <= j < t.len() && terminal_of(t[j]) is Some {
        Some((Locator { hops: h as usize, terminal: terminal_of(t[j])->Some_0 }, j + 1))
    } else {
        None
    }
}

/// The value written at `i`: a locator, applied where the letter xi in
/// round brackets follows it; with the place behind it.
pub open spec fn value_at(t: Seq<Token>, i: int) -> Option<(Binding, int)> {
    match locator_at(t, i) {
        None => None,
        Some((l, j)) => if j + 2 < t.len() && t[j] == Token::LParen && t[j + 1] == Token::Xi && t[j
            + 2] == Token::RParen {
            Some((Binding { locator: l, applied: true }, j + 3))
        } else {
            Some((Binding { locator: l, applied: false }, j))
        },
    }
}

/// One attribute of a declaration.
#[derive(Clone, Copy, Debug)]
pub enum Item {
    Literal(Data),
    Operation(Atom),
    Bound(Loc, Binding),
}

/// The key that a token stands for where a binding begins.
pub open spec fn key_of(k: Token) -> Option<Loc> {
    match k {
        Token::Phi => Some(Loc::Phi),
        Token::Rho => Some(Loc::Rho),
        Token::Arg(n) => Some(Loc::Arg(n)),
        _ => None,
    }
}

/// The attribute written at `i`: a key, the arrow and a value that suits
/// the key; with the place behind it. A token that is no key is an
/// `UnknownAttribute`, anything else amiss a `MalformedLocator`.
pub open spec fn item_at(t: Seq<Token>, i: int) -> Result<(Item, int), Error> {
    if i < 0 || i >= t.len() {
        Err(Error::MalformedLocator)
    } else if !(t[i] is Delta || t[i] is Lambda || key_of(t[i]) is Some) {
        Err(Error::UnknownAttribute)
    } else if i + 2 >= t.len() || t[i + 1] != Token::Arrow {
        Err(Error::MalformedLocator)
    } else if t[i] is Delta {
        match t[i + 2] {
            Token::Hex(d) => Ok((Item::Literal(d), i + 3)),
            _ => Err(Error::MalformedLocator),
        }
    } else if t[i] is Lambda {
        match t[i + 2] {
            Token::Name(a) => Ok((Item::Operation(a), i + 3)),
            _ => Err(Error::MalformedLocator),
        }
    } else {
        match value_at(t, i + 2) {
            Some((b, j)) => Ok((Item::Bound(key_of(t[i])->Some_0, b), j)),
            None => Err(Error::MalformedLocator),
        }
    }
}

/// The object after an attribute is added to it. An object takes a literal
/// or an operation, not both.
pub open spec fn add_item(v: ObjectView, it: Item) -> Result<ObjectView, Error> {
    match it {
        Item::Literal(d) => if v.lambda is Some {
            Err(Error::MalformedLocator)
        } else {
            Ok(ObjectView { delta: Some(d), ..v })
        },
        Item::Operation(a) => if v.delta is Some {
            Err(Error::MalformedLocator)
        } else {
            Ok(ObjectView { lambda: Some(a), ..v })
        },
        Item::Bound(k, b) => Ok(v.bind(k, b)),
    }
}

/// The object ids that the text names so far, extended by what an attribute
/// names: the object of a binding whose locator ends in one.
pub open spec fn add_ref(refs: Seq<usize>, it: Item) -> Seq<usize> {
    match it {
        Item::Bound(_, Binding { locator: Locator { terminal: Loc::Obj(n), .. }, .. }) => refs.push(
            n,
        ),
        _ => refs,
    }
}

/// What a declaration's attributes make of an object, from `i` on:
/// attributes with commas between them, then the closing bracket. Gives the
/// object, the ids named and the place behind the bracket.
pub open spec fn body_at(t: Seq<Token>, i: int, v: ObjectView, refs: Seq<usize>) -> Result<
    (ObjectView, Seq<usize>, int),
    Error,
>
    decreases t.len() - i,
{
    match item_at(t, i) {
        Err(e) => Err(e),
        Ok((it, j)) => match add_item(v, it) {
            Err(e) => Err(e),
            Ok(w) => if !(i < j < t.len()) {
                Err(Error::MalformedLocator)
            } else if t[j] == Token::Comma {
                body_at(t, j + 1, w, add_ref(refs, it))
            } else if t[j] == Token::Close {
                Ok((w, add_ref(refs, it), j + 1))
            } else {
                Err(Error::MalformedLocator)
            },
        },
    }
}

/// The declaration written at `i`: an object id, the arrow, and the
/// attributes in brackets. Gives the id, the object, the ids named and the
/// place behind the declaration.
pub open spec fn decl_at(t: Seq<Token>, i: int, refs: Seq<usize>) -> Result<
    (usize, ObjectView, Seq<usize>, int),
    Error,
> {
    if i < 0 || i + 3 >= t.len() || !(t[i] is Obj) || t[i + 1] != Token::Arrow || t[i + 2]
        != Token::Open {
        Err(Error::MalformedLocator)
    } else if t[i + 3] == Token::Close {
        Ok((t[i]->Obj_0, ObjectView::blank(), refs, i + 4))
    } else {
        match body_at(t, i + 3, ObjectView::blank(), refs) {
            Err(e) => Err(e),
            Ok((v, r, j)) => Ok((t[i]->Obj_0, v, r, j)),
        }
    }
}

/// The graph that the declarations from `i` on make of `g`, a later
/// declaration of an id replacing an earlier one, with all the ids named.
pub open spec fn decls_at(t: Seq<Token>, i: int, g: Graph, refs: Seq<usize>) -> Result<
    (Graph, Seq<usize>),
    Error,
>
    decreases t.len() - i,
{
    if i < 0 || i >= t.len() {
        Ok((g, refs))
    } else {
        match decl_at(t, i, refs) {
            Err(e) => Err(e),
            Ok((id, v, r, j)) => if i < j <= t.len() {
                decls_at(t, j, g.insert(id, v), r)
            } else {
                Err(Error::MalformedLocator)
            },
        }
    }
}

/// Whether the graph holds every object that is named.
pub open spec fn all_declared(g: Graph, refs: Seq<usize>) -> bool {
    forall|k: int| 0 <= k < refs.len() ==> g.dom().contains(#[trigger] refs[k])
}

/// The graph that a text declares. A text that names an object which it
/// does not declare is refused with `UnknownObject`.
pub open spec fn graph_of(s: Seq<u8>) -> Result<Graph, Error> {
    match tokens_of(s) {
        Err(e) => Err(e),
        Ok(t) => match decls_at(t, 0, Map::empty(), Seq::empty()) {
            Err(e) => Err(e),
            Ok((g, refs)) => if all_declared(g, refs) {
                Ok(g)
            } else {
                Err(Error::UnknownObject)
            },
        },
    }
}

/// The locator that a text is, from its first token to its last.
pub open spec fn locator_of(s: Seq<u8>) -> Result<Locator, Error> {
    match tokens_of(s) {
        Err(e) => Err(e),
        Ok(t) => match locator_at(t, 0) {
            Some((l, j)) => if j == t.len() {
                Ok(l)
            } else {
                Err(Error::MalformedLocator)
            },
            None => Err(Error::MalformedLocator),
        },
    }
}

/// Counts the hops written at `i`.
pub fn read_hops(t: &Vec<Token>, i: usize) -> (r: (usize, usize))
    ensures
        hops_at(t@, i as int, 0) == (r.0 as int, r.1 as int),
        i <= r.1,
        i < t.len() ==> r.1 <= t.len(),
{
    let mut n: usize = 0;
    let mut j: usize = i;
    while j < t.len() && t.len() - j > 1 && is_xi(t[j]) && is_dot(t[j + 1])
        invariant
            i <= j,
            i < t.len() ==> j <= t.len(),
            n <= j,
            hops_at(t@, i as int, 0) == hops_at(t@, j as int, n as int),
        decreases t.len() - j,
    {
        n = n + 1;
        j = j + 2;
    }
    (n, j)
}

/// Whether a token is the letter xi.
pub fn is_xi(k: Token) -> (r: bool)
    ensures
        r == (k == Token::Xi),
{
    match k {
        Token::Xi => true,
        _ => false,
    }
}

/// Whether a token is the dot.
pub fn is_dot(k: Token) -> (r: bool)
    ensures
        r == (k == Token::Dot),
{
    match k {
        Token::Dot => true,
        _ => false,
    }
}

/// The selector that a token stands for where a locator ends.
pub fn terminal(k: Token) -> (r: Option<Loc>)
    ensures
        r == terminal_of(k),
{
    match k {
        Token::Obj(n) => Some(Loc::Obj(n)),
        Token::Arg(n) => Some(Loc::Arg(n)),
        Token::Num(n) => Some(Loc::Arg(n)),
        Token::Phi => Some(Loc::Phi),
        Token::Rho => Some(Loc::Rho),
        Token::Delta => Some(Loc::Delta),
        Token::Lambda => Some(Loc::Lambda),
        _ => None,
    }
}

/// Reads the locator written at `i`.
pub fn read_locator(t: &Vec<Token>, i: usize) -> (r: Option<(Locator, usize)>)
    ensures
        match r {
            Some((l, j)) => locator_at(t@, i as int) == Some((l, j as int)) && i < j <= t.len(),
            None => locator_at(t@, i as int) is None,
        },
{
    let (h, j) = read_hops(t, i);
    if j < t.len() {
        match terminal(t[j]) {
            Some(loc) => Some((Locator { hops: h, terminal: loc }, j + 1)),
            None => None,
        }
    } else {
        None
    }
}

/// Reads the value written at `i`.
pub fn read_value(t: &Vec<Token>, i: usize) -> (r: Option<(Binding, usize)>)
    ensures
        match r {
            Some((b, j)) => value_at(t@, i as int) == Some((b, j as int)) && i < j <= t.len(),
            None => value_at(t@, i as int) is None,
        },
{
    match read_locator(t, i) {
        None => None,
        Some((l, j)) => {
            if t.len() - j > 2 {
                let marked = match (t[j], t[j + 1], t[j + 2]) {
                    (Token::LParen, Token::Xi, Token::RParen) => true,
                    _ => false,
                };
                if marked {
                    return Some((Binding { locator: l, applied: true }, j + 3));
                }
            }
            Some((Binding { locator: l, applied: false }, j))
        },
    }
}

/// Reads the attribute written at `i`.
pub fn read_item(t: &Vec<Token>, i: usize) -> (r: Result<(Item, usize), Error>)
    ensures
        match r {
            Ok((it, j)) => item_at(t@, i as int) == Ok::<(Item, int), Error>((it, j as int)) && i
                < j <= t.len(),
            Err(e) => item_at(t@, i as int) == Err::<(Item, int), Error>(e),
        },
{
    if i >= t.len() {
        return Err(Error::MalformedLocator);
    }
    let key: Option<Loc> = match t[i] {
        Token::Phi => Some(Loc::Phi),
        Token::Rho => Some(Loc::Rho),
        Token::Arg(n) => Some(Loc::Arg(n)),
        Token::Delta => None,
        Token::Lambda => None,
        _ => {
            return Err(Error::UnknownAttribute);
        },
    };
    if t.len() - i <= 2 {
        return Err(Error::MalformedLocator);
    }
    match t[i + 1] {
        Token::Arrow => {},
        _ => {
            return Err(Error::MalformedLocator);
        },
    }
    match key {
        Some(k) => match read_value(t, i + 2) {
            Some((b, j)) => Ok((Item::Bound(k, b), j)),
            None => Err(Error::MalformedLocator),
        },
        None => match (t[i], t[i + 2]) {
            (Token::Delta, Token::Hex(d)) => Ok((Item::Literal(d), i + 3)),
            (Token::Lambda, Token::Name(a)) => Ok((Item::Operation(a), i + 3)),
            _ => Err(Error::MalformedLocator),
        },
    }
}

/// Adds an attribute to an object.
pub fn place_item(obj: Object, it: Item) -> (r: Result<Object, Error>)
    ensures
        match r {
            Ok(w) => add_item(obj@, it) == Ok::<ObjectView, Error>(w@),
            Err(e) => add_item(obj@, it) == Err::<ObjectView, Error>(e),
        },
{
    match it {
        Item::Literal(d) => {
            if obj.lambda().is_some() {
                Err(Error::MalformedLocator)
            } else {
                Ok(obj.literal(d))
            }
        },
        Item::Operation(a) => {
            if obj.delta().is_some() {
                Err(Error::MalformedLocator)
            } else {
                Ok(obj.operation(a))
            }
        },
        Item::Bound(k, b) => Ok(obj.with(k, b.locator, b.applied)),
    }
}

/// Notes the object id that an attribute names, if it names one.
pub fn note_ref(refs: &mut Vec<usize>, it: Item)
    ensures
        final(refs)@ == add_ref(old(refs)@, it),
{
    match it {
        Item::Bound(_, Binding { locator: Locator { terminal: Loc::Obj(n), .. }, .. }) => {
            refs.push(n);
        },
        _ => {},
    }
}

/// Reads a declaration's attributes from `i` on, up to the closing bracket.
pub fn read_body(t: &Vec<Token>, i: usize, refs: &mut Vec<usize>) -> (r: Result<
    (Object, usize),
    Error,
>)
    ensures
        match r {
            Ok((w, j)) => body_at(t@, i as int, ObjectView::blank(), old(refs)@) == Ok::<
                (ObjectView, Seq<usize>, int),
                Error,
            >((w@, final(refs)@, j as int)) && i < j <= t.len(),
            Err(e) => body_at(t@, i as int, ObjectView::blank(), old(refs)@) == Err::<
                (ObjectView, Seq<usize>, int),
                Error,
            >(e),
        },
{
    let mut obj = Object::open();
    let mut at: usize = i;
    loop
        invariant
            i <= at,
            body_at(t@, i as int, ObjectView::blank(), old(refs)@) == body_at(
                t@,
                at as int,
                obj@,
                refs@,
            ),
        decreases t.len() - at,
    {
        let (it, j) = match read_item(t, at) {
            Err(e) => {
                return Err(e);
            },
            Ok(x) => x,
        };
        obj = match place_item(obj, it) {
            Err(e) => {
                return Err(e);
            },
            Ok(w) => w,
        };
        if j >= t.len() {
            return Err(Error::MalformedLocator);
        }
        note_ref(refs, it);
        match t[j] {
            Token::Comma => {
                at = j + 1;
            },
            Token::Close => {
                return Ok((obj, j + 1));
            },
            _ => {
                return Err(Error::MalformedLocator);
            },
        }
    }
}

/// Reads the declaration written at `i`.
pub fn read_decl(t: &Vec<Token>, i: usize, refs: &mut Vec<usize>) -> (r: Result<
    (usize, Object, usize),
    Error,
>)
    ensures
        match r {
            Ok((id, w, j)) => decl_at(t@, i as int, old(refs)@) == Ok::<
                (usize, ObjectView, Seq<usize>, int),
                Error,
            >((id, w@, final(refs)@, j as int)) && i < j <= t.len(),
            Err(e) => decl_at(t@, i as int, old(refs)@) == Err::<
                (usize, ObjectView, Seq<usize>, int),
                Error,
            >(e),
        },
{
    if i >= t.len() || t.len() - i <= 3 {
        return Err(Error::MalformedLocator);
    }
    let id = match (t[i], t[i + 1], t[i + 2]) {
        (Token::Obj(n), Token::Arrow, Token::Open) => n,
        _ => {
            return Err(Error::MalformedLocator);
        },
    };
    match t[i + 3] {
        Token::Close => Ok((id, Object::open(), i + 4)),
        _ => match read_body(t, i + 3, refs) {
            Err(e) => Err(e),
            Ok((w, j)) => Ok((id, w, j)),
        },
    }
}

/// Reads a locator from its text: hops, each the letter xi (or `$`) and a
/// dot, then a selector: an object id, the letters phi, rho, delta, lambda
/// (or `@`, `^` for the first two), an argument, or a bare number for an
/// argument.
pub fn ph(text: &str) -> (r: Result<Locator, Error>)
    ensures
        r == locator_of(text.spec_bytes()),
{
    let t = match lex(text.as_bytes()) {
        Err(e) => {
            return Err(e);
        },
        Ok(t) => t,
    };
    match read_locator(&t, 0) {
        Some((l, j)) => if j == t.len() {
            Ok(l)
        } else {
            Err(Error::MalformedLocator)
        },
        None => Err(Error::MalformedLocator),
    }
}

impl Emu {
    /// Builds an engine from the textual notation of a graph: declarations,
    /// each an object id, the arrow and the object's attributes in double
    /// square brackets. Nothing is built from a text that is refused.
    pub fn from_str(text: &str) -> (r: Result<Emu, Error>)
        ensures
            match r {
                Ok(emu) => {
                    &&& graph_of(text.spec_bytes()) == Ok::<Graph, Error>(emu.graph())
                    &&& emu.wf()
                    &&& emu.state() == fresh(Perf::zero())
                    &&& emu.allowance() == DEFAULT_DEPTH
                    &&& !emu.keeps()
                },
                Err(e) => graph_of(text.spec_bytes()) == Err::<Graph, Error>(e),
            },
    {
        let t = match lex(text.as_bytes()) {
            Err(e) => {
                return Err(e);
            },
            Ok(t) => t,
        };
        let mut emu = Emu::empty();
        let mut refs: Vec<usize> = Vec::new();
        let mut i: usize = 0;
        while i < t.len()
            invariant
                i <= t.len(),
                tokens_of(text.spec_bytes()) == Ok::<Seq<Token>, Error>(t@),
                emu.wf(),
                emu.state() == fresh(Perf::zero()),
                emu.allowance() == DEFAULT_DEPTH,
                !emu.keeps(),
                decls_at(t@, 0, Map::empty(), Seq::empty()) == decls_at(
                    t@,
                    i as int,
                    emu.graph(),
                    refs@,
                ),
            decreases t.len() - i,
        {
            let (id, obj, j) = match read_decl(&t, i, &mut refs) {
                Err(e) => {
                    return Err(e);
                },
                Ok(x) => x,
            };
            emu.put(id, obj);
            i = j;
        }
        let mut k: usize = 0;
        while k < refs.len()
            invariant
                k <= refs.len(),
                tokens_of(text.spec_bytes()) == Ok::<Seq<Token>, Error>(t@),
                decls_at(t@, 0, Map::empty(), Seq::empty()) == Ok::<(Graph, Seq<usize>), Error>(
                    (emu.graph(), refs@),
                ),
                forall|n: int| 0 <= n < k ==> emu.graph().dom().contains(#[trigger] refs[n]),
            decreases refs.len() - k,
        {
            if emu.object(refs[k]).is_none() {
                assert(!emu.graph().dom().contains(refs@[k as int]));
                assert(!all_declared(emu.graph(), refs@));
                return Err(Error::UnknownObject);
            }
            k = k + 1;
        }
        Ok(emu)
    }
}

} // verus!
