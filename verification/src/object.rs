use vstd::prelude::*;
use crate::assoc::{as_map, latest, lemma_latest_empty, lemma_latest_push, lemma_latest_step};
use crate::atom::{Atom, Instr};
use crate::data::Data;
use crate::loc::{Binding, Loc, Locator};

verus! {

/// An object as the calculus sees it.
pub struct ObjectView {
    pub delta: Option<Data>,
    pub lambda: Option<Atom>,
    pub phi: Option<Binding>,
    pub rho: Option<Binding>,
    pub args: Map<usize, Binding>,
    pub code: Seq<Instr>,
}

impl ObjectView {
    /// The binding filed under a selector, if there is one.
    pub open spec fn attr(self, loc: Loc) -> Option<Binding> {
        match loc {
            Loc::Phi => self.phi,
            Loc::Rho => self.rho,
            Loc::Arg(n) => if self.args.dom().contains(n) {
                Some(self.args[n])
            } else {
                None
            },
            _ => None,
        }
    }

    /// The object after `binding` is filed under `loc`; selectors that bind
    /// nothing leave it as it is.
    pub open spec fn bind(self, loc: Loc, binding: Binding) -> ObjectView {
        match loc {
            Loc::Phi => ObjectView { phi: Some(binding), ..self },
            Loc::Rho => ObjectView { rho: Some(binding), ..self },
            Loc::Arg(n) => ObjectView { args: self.args.insert(n, binding), ..self },
            _ => self,
        }
    }

    /// An object with no body, no literal and no operation: a placeholder.
    pub open spec fn is_abstract(self) -> bool {
        self.delta is None && self.lambda is None && self.phi is None
    }

    /// The object with no attribute at all.
    pub open spec fn blank() -> ObjectView {
        ObjectView {
            delta: None,
            lambda: None,
            phi: None,
            rho: None,
            args: Map::empty(),
            code: Seq::empty(),
        }
    }
}

/// A static node of the graph: an optional literal, an optional operation,
/// an optional body, an optional context operand and positional arguments.
#[derive(Debug)]
pub struct Object {
    delta: Option<Data>,
    lambda: Option<Atom>,
    phi: Option<Binding>,
    rho: Option<Binding>,
    args: Vec<(usize, Binding)>,
    code: Vec<Instr>,
}

impl View for Object {
    type V = ObjectView;

    closed spec fn view(&self) -> ObjectView {
        ObjectView {
            delta: self.delta,
            lambda: self.lambda,
            phi: self.phi,
            rho: self.rho,
            args: as_map(self.args@),
            code: self.code@,
        }
    }
}

impl Object {
    /// An object holds a literal or an operation, never both.
    #[verifier::type_invariant]
    closed spec fn one_payload(&self) -> bool {
        self.delta is None || self.lambda is None
    }

    /// The object with no attribute: a placeholder that cannot be dataized.
    pub fn open() -> (r: Object)
        ensures
            r@ == ObjectView::blank(),
    {
        proof {
            lemma_latest_empty::<usize, Binding>(0);
        }
        Object {
            delta: None,
            lambda: None,
            phi: None,
            rho: None,
            args: Vec::new(),
            code: Vec::new(),
        }
    }

    /// The object that holds the literal `d` and nothing else.
    pub fn dataic(d: Data) -> (r: Object)
        ensures
            r@ == (ObjectView { delta: Some(d), ..ObjectView::blank() }),
    {
        proof {
            lemma_latest_empty::<usize, Binding>(0);
        }
        Object {
            delta: Some(d),
            lambda: None,
            phi: None,
            rho: None,
            args: Vec::new(),
            code: Vec::new(),
        }
    }

    /// The object that holds the operation `a` and nothing else.
    pub fn atomic(a: Atom) -> (r: Object)
        ensures
            r@ == (ObjectView { lambda: Some(a), ..ObjectView::blank() }),
    {
        proof {
            lemma_latest_empty::<usize, Binding>(0);
        }
        Object {
            delta: None,
            lambda: Some(a),
            phi: None,
            rho: None,
            args: Vec::new(),
            code: Vec::new(),
        }
    }

    /// The object that holds the program `code`, to be run as its operation,
    /// and nothing else.
    pub fn coded(code: Vec<Instr>) -> (r: Object)
        ensures
            r@ == (ObjectView { lambda: Some(Atom::Code), code: code@, ..ObjectView::blank() }),
    {
        proof {
            lemma_latest_empty::<usize, Binding>(0);
        }
        Object { delta: None, lambda: Some(Atom::Code), phi: None, rho: None, args: Vec::new(), code }
    }

    /// Files `locator` under `loc`, replacing what was there. `applied` says
    /// whether following the locator opens a new basket. A selector that
    /// binds nothing (`Delta`, `Lambda`, `Obj`) leaves the object as it is.
    pub fn with(self, loc: Loc, locator: Locator, applied: bool) -> (r: Object)
        ensures
            r@ == self@.bind(loc, Binding { locator, applied }),
    {
        let binding = Binding { locator, applied };
        proof {
            use_type_invariant(&self);
        }
        let Object { delta, lambda, phi, rho, args, code } = self;
        match loc {
            Loc::Phi => Object { delta, lambda, phi: Some(binding), rho, args, code },
            Loc::Rho => Object { delta, lambda, phi, rho: Some(binding), args, code },
            Loc::Arg(n) => {
                let mut args = args;
                proof {
                    lemma_latest_push(args@, n, binding);
                }
                args.push((n, binding));
                Object { delta, lambda, phi, rho, args, code }
            },
            _ => Object { delta, lambda, phi, rho, args, code },
        }
    }

    /// Gives the object the literal `d`; an operation that it held gives way.
    pub fn literal(self, d: Data) -> (r: Object)
        ensures
            r@ == (ObjectView { delta: Some(d), lambda: None, ..self@ }),
    {
        let mut r = self;
        r.lambda = None;
        r.delta = Some(d);
        r
    }

    /// Gives the object the operation `a`; a literal that it held gives way.
    pub fn operation(self, a: Atom) -> (r: Object)
        ensures
            r@ == (ObjectView { lambda: Some(a), delta: None, ..self@ }),
    {
        let mut r = self;
        r.delta = None;
        r.lambda = Some(a);
        r
    }

    /// The literal, if the object holds one; it then holds no operation.
    pub fn delta(&self) -> (r: Option<Data>)
        ensures
            r == self@.delta,
            r is Some ==> self@.lambda is None,
    {
        proof {
            use_type_invariant(self);
        }
        self.delta
    }

    /// The operation, if the object holds one; it then holds no literal.
    pub fn lambda(&self) -> (r: Option<Atom>)
        ensures
            r == self@.lambda,
            r is Some ==> self@.delta is None,
    {
        proof {
            use_type_invariant(self);
        }
        self.lambda
    }

    /// The binding filed under `loc`, if there is one.
    pub fn attr(&self, loc: Loc) -> (r: Option<Binding>)
        ensures
            r == self@.attr(loc),
    {
        match loc {
            Loc::Phi => self.phi,
            Loc::Rho => self.rho,
            Loc::Arg(n) => {
                let mut i: usize = self.args.len();
                assert(self.args@.take(i as int) =~= self.args@);
                while i > 0
                    invariant
                        i <= self.args.len(),
                        loc == Loc::Arg(n),
                        latest(self.args@, n) == latest(self.args@.take(i as int), n),
                    decreases i,
                {
                    i = i - 1;
                    proof {
                        lemma_latest_step(self.args@, n, i as int);
                    }
                    if self.args[i].0 == n {
                        return Some(self.args[i].1);
                    }
                }
                None
            },
            _ => None,
        }
    }

    /// The instruction at place `pc` of the object's program, if the program
    /// is that long.
    pub fn instr(&self, pc: usize) -> (r: Option<Instr>)
        ensures
            r == (if pc < self@.code.len() {
                Some(self@.code[pc as int])
            } else {
                None
            }),
            r is Some ==> pc < usize::MAX,
    {
        if pc < self.code.len() {
            Some(self.code[pc])
        } else {
            None
        }
    }

    /// Whether the object has no body, no literal and no operation.
    pub fn is_abstract(&self) -> (r: bool)
        ensures
            r == self@.is_abstract(),
    {
        self.delta.is_none() && self.lambda.is_none() && self.phi.is_none()
    }
}

} // verus!
