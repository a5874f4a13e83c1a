use vstd::prelude::*;
use crate::assoc::{as_map, latest, lemma_latest_empty, lemma_latest_push, lemma_latest_step};
use crate::basket::{chain_of, is_tree, lemma_chain_same, lemma_chain_unfold, Basket, Key};
use crate::data::{Data, Error};
use crate::loc::{Binding, Loc, Locator};
use crate::machine::{
    calc_of, climb_of, fresh, invoke_of, land_of, reduce_of, root_basket, walk_of, State,
};
use crate::object::Object;
use crate::perf::{Perf, Transition};
use crate::atom::{bool_if, int_add, int_less, int_neg, int_sub, interpreted, Atom, Instr};
use crate::semantics::{
    enter, eval, eval_agrees, fetch, fetch_agrees, find_attr, lemma_fetch_delta, lemma_fetch_lambda,
    lemma_fetch_lands, lemma_fetch_path, lemma_fetch_same, resolve, run_agrees, settled, Chain,
    Graph, Target,
};

verus! {

/// A switch of the engine.
#[derive(Clone, Copy, Debug, PartialEq, Eq, Structural)]
pub enum Opt {
    /// Keep every basket: `delete` does nothing from now on.
    DontDelete,
    /// Allow dataization to nest this deep.
    Depth(usize),
}

/// How deep a dataization may nest unless `Opt::Depth` says otherwise.
pub const DEFAULT_DEPTH: usize = 1000;

/// The scalar `v` is what selector `k.loc` denotes for object `k.ob` in the
/// basket with chain `chain`.
pub open spec fn holds(g: Graph, chain: Chain, k: Key, v: Data) -> bool {
    exists|f: nat| fetch(g, k.ob, k.loc, chain, f) == Ok::<Data, Error>(v)
}

/// Whether basket `a` is basket `b` or encloses it, directly or not.
pub open spec fn encloses(bs: Seq<Basket>, a: int, b: int) -> bool
    decreases b,
{
    if b < 0 || b >= bs.len() {
        false
    } else if a == b {
        true
    } else {
        match bs[b].psi {
            Some(p) => p < b && encloses(bs, a, p as int),
            None => false,
        }
    }
}

/// A basket is enclosed only by baskets made before it.
pub proof fn lemma_encloses_before(bs: Seq<Basket>, a: int, b: int)
    requires
        encloses(bs, a, b),
    ensures
        a <= b,
    decreases b,
{
    if a != b {
        lemma_encloses_before(bs, a, bs[b].psi->Some_0 as int);
    }
}

/// What a dataization hands out: the scalar that the engine gave with the
/// counters of the state that it ended in, or the failure.
pub open spec fn with_counters(end: (State, Result<Data, Error>)) -> Result<(Data, Perf), Error> {
    match end.1 {
        Ok(v) => Ok((v, end.0.perf)),
        Err(e) => Err(e),
    }
}

/// What a locator denotes, as the engine holds it.
#[derive(Clone, Copy, Debug, PartialEq, Eq, Structural)]
pub enum Place {
    /// An object, to be dataized in the basket with the given id.
    Object(usize, usize),
    /// A literal: nothing is left to do.
    Literal(Data),
}

/// The dataization engine: the table of objects, the baskets with their
/// caches, the counters and the switches.
pub struct Emu {
    objects: Vec<Option<Object>>,
    baskets: Vec<Basket>,
    caches: Vec<Vec<(Key, Data)>>,
    perf: Perf,
    depth: usize,
    keep: bool,
}

impl Emu {
    /// The graph that the engine evaluates.
    pub closed spec fn graph(&self) -> Graph {
        Map::new(
            |i: usize| i < self.objects.len() && self.objects[i as int] is Some,
            |i: usize| self.objects[i as int]->Some_0@,
        )
    }

    /// What changes while the engine runs: the baskets, their caches and
    /// the counters.
    pub closed spec fn state(&self) -> State {
        State {
            records: self.baskets@,
            caches: Seq::new(self.caches.len() as nat, |i: int| as_map(self.caches[i]@)),
            perf: self.perf,
        }
    }

    /// The baskets by their ids.
    pub open spec fn records(&self) -> Seq<Basket> {
        self.state().records
    }

    /// What basket `b` has cached.
    pub open spec fn cache(&self, b: int) -> Map<Key, Data> {
        self.state().caches[b]
    }

    /// The counters.
    pub open spec fn counters(&self) -> Perf {
        self.state().perf
    }

    /// How deep a dataization may nest.
    pub closed spec fn allowance(&self) -> usize {
        self.depth
    }

    /// Whether `delete` is switched off.
    pub closed spec fn keeps(&self) -> bool {
        self.keep
    }

    /// Basket `b` with the baskets that enclose it, innermost first.
    pub open spec fn chain(&self, b: int) -> Chain {
        chain_of(self.records(), b)
    }

    /// Whether `b` names a basket in use.
    pub open spec fn live(&self, b: int) -> bool {
        0 <= b < self.records().len() && self.records()[b].alive
    }

    /// Every cached scalar is the one that the calculus gives.
    pub closed spec fn coherent(&self) -> bool {
        forall|b: int, k: Key|
            0 <= b < self.caches.len() ==> match #[trigger] latest(self.caches[b]@, k) {
                Some(v) => holds(self.graph(), chain_of(self.baskets@, b), k, v),
                None => true,
            }
    }

    /// The engine's invariant: the baskets form a tree under the root, each
    /// has its cache, a basket out of use has nothing cached, and the caches
    /// are coherent.
    pub closed spec fn wf(&self) -> bool {
        &&& is_tree(self.baskets@)
        &&& self.caches.len() == self.baskets.len()
        &&& forall|b: int|
            0 <= b < self.baskets.len() && !(#[trigger] self.baskets[b]).alive
                ==> self.caches[b]@ == Seq::<(Key, Data)>::empty()
        &&& self.coherent()
    }

    /// What the invariant says of the baskets and the caches.
    pub proof fn lemma_wf(&self)
        requires
            self.wf(),
        ensures
            is_tree(self.records()),
            self.state().caches.len() == self.records().len(),
            forall|b: int, k: Key|
                0 <= b < self.records().len() && #[trigger] self.cache(b).dom().contains(k)
                    ==> holds(self.graph(), self.chain(b), k, self.cache(b)[k]),
    {
        assert forall|b: int, k: Key|
            0 <= b < self.records().len() && #[trigger] self.cache(b).dom().contains(
                k,
            ) implies holds(self.graph(), self.chain(b), k, self.cache(b)[k]) by {
            assert(latest(self.caches[b]@, k) is Some);
        }
    }

    /// The engine with no object, the root basket bound to object 0 and
    /// nothing cached.
    pub fn empty() -> (r: Emu)
        ensures
            r.wf(),
            r.graph() == Map::<usize, crate::object::ObjectView>::empty(),
            r.state() == fresh(Perf::zero()),
            r.allowance() == DEFAULT_DEPTH,
            !r.keeps(),
    {
        let mut baskets: Vec<Basket> = Vec::new();
        baskets.push(Basket { ob: 0, host: 0, psi: None, alive: true });
        let mut caches: Vec<Vec<(Key, Data)>> = Vec::new();
        caches.push(Vec::new());
        let r = Emu {
            objects: Vec::new(),
            baskets,
            caches,
            perf: Perf::new(),
            depth: DEFAULT_DEPTH,
            keep: false,
        };
        proof {
            assert(r.graph() =~= Map::<usize, crate::object::ObjectView>::empty());
            assert(r.baskets@ =~= seq![root_basket()]);
            assert(r.caches[0]@ =~= Seq::empty());
            lemma_latest_empty::<Key, Data>(Key { ob: 0, loc: Loc::Phi });
            assert(r.state().caches[0] == Map::<Key, Data>::empty());
            assert(r.state().caches =~= fresh(Perf::zero()).caches);
            assert forall|b: int, k: Key| 0 <= b < r.caches.len() implies match #[trigger] latest(
                r.caches[b]@,
                k,
            ) {
                Some(v) => holds(r.graph(), chain_of(r.baskets@, b), k, v),
                None => true,
            } by {
                lemma_latest_empty::<Key, Data>(k);
                assert(r.caches[b]@ =~= Seq::empty());
            }
        }
        r
    }

    /// Sets a switch.
    pub fn opt(&mut self, o: Opt)
        requires
            old(self).wf(),
        ensures
            final(self).wf(),
            final(self).graph() == old(self).graph(),
            final(self).state() == old(self).state(),
            final(self).keeps() == (old(self).keeps() || o is DontDelete),
            final(self).allowance() == (match o {
                Opt::Depth(n) => n,
                Opt::DontDelete => old(self).allowance(),
            }),
    {
        match o {
            Opt::DontDelete => {
                self.keep = true;
            },
            Opt::Depth(n) => {
                self.depth = n;
            },
        }
    }

    /// The counters as they stand.
    pub fn perf(&self) -> (r: Perf)
        ensures
            r == self.counters(),
    {
        self.perf
    }

    /// The baskets by their ids, those no longer in use among them.
    pub fn baskets(&self) -> (r: &Vec<Basket>)
        ensures
            r@ == self.records(),
    {
        &self.baskets
    }
}

impl Emu {
    /// What a place stands for, with the basket's chain in place of its id.
    pub open spec fn target(&self, p: Place) -> Target {
        match p {
            Place::Object(t, b) => Target::Object(t, self.chain(b as int)),
            Place::Literal(d) => Target::Literal(d),
        }
    }

    /// The object with id `o`, if the table holds one.
    pub fn object(&self, o: usize) -> (r: Option<&Object>)
        ensures
            match r {
                Some(x) => self.graph().dom().contains(o) && self.graph()[o] == x@,
                None => !self.graph().dom().contains(o),
            },
    {
        if o < self.objects.len() {
            self.objects[o].as_ref()
        } else {
            None
        }
    }

    /// The object with id `id`, or `UnknownObject` where the table holds
    /// none.
    pub fn get(&self, id: usize) -> (r: Result<&Object, Error>)
        ensures
            match r {
                Ok(x) => self.graph().dom().contains(id) && self.graph()[id] == x@,
                Err(e) => e == Error::UnknownObject && !self.graph().dom().contains(id),
            },
    {
        match self.object(id) {
            Some(x) => Ok(x),
            None => Err(Error::UnknownObject),
        }
    }

    /// Finds where attribute `s` of object `o` is bound, walking at most `n`
    /// objects along the bodies that name their object directly.
    pub fn find(&self, o: usize, s: Loc, n: usize) -> (r: Result<(usize, Binding), Error>)
        ensures
            r == find_attr(self.graph(), o, s, n as nat),
        decreases n,
    {
        if n == 0 {
            return Err(Error::DepthExceeded);
        }
        match self.object(o) {
            None => Err(Error::UnknownObject),
            Some(obj) => match obj.attr(s) {
                Some(b) => Ok((o, b)),
                None => match obj.attr(Loc::Phi) {
                    Some(Binding { locator: Locator { hops: 0, terminal: Loc::Obj(t) }, .. }) => {
                        self.find(t, s, n - 1)
                    },
                    _ => Err(Error::UnknownAttribute),
                },
            },
        }
    }

    /// Makes `hops` hops from basket `cur`, each to the enclosing basket.
    /// Gives the object that holds the arguments there, the basket reached,
    /// and the basket that the last hop left; with no hop, `o`, `cur` and
    /// `at` as they came.
    fn climb(&self, o: usize, cur: usize, at: usize, hops: usize) -> (r: Result<
        (usize, usize, usize),
        Error,
    >)
        requires
            self.wf(),
            self.live(cur as int),
            self.live(at as int),
        ensures
            match r {
                Ok((o2, cur2, at2)) => climb_of(
                    self.records(),
                    o,
                    cur as int,
                    at as int,
                    hops as nat,
                ) == Ok::<(usize, int, int), Error>((o2, cur2 as int, at2 as int)),
                Err(e) => climb_of(self.records(), o, cur as int, at as int, hops as nat) == Err::<
                    (usize, int, int),
                    Error,
                >(e),
            },
            match r {
                Err(e) => e == Error::BrokenClosure && hops > 0 && self.chain(cur as int).len()
                    <= hops,
                Ok((o2, cur2, at2)) => {
                    &&& !(hops > 0 && self.chain(cur as int).len() <= hops)
                    &&& self.live(cur2 as int)
                    &&& self.live(at2 as int)
                    &&& self.chain(cur2 as int) == self.chain(cur as int).skip(hops as int)
                    &&& hops == 0 ==> o2 == o && cur2 == cur && at2 == at
                    &&& hops > 0 ==> o2 == self.chain(cur as int)[hops - 1].host && self.chain(
                        at2 as int,
                    ) == self.chain(cur as int).skip(hops - 1)
                },
            },
    {
        let mut h: usize = 0;
        let mut o2 = o;
        let mut c = cur;
        let mut a = at;
        proof {
            lemma_chain_unfold(self.baskets@, cur as int);
            assert(self.chain(cur as int).skip(0) =~= self.chain(cur as int));
        }
        while h < hops
            invariant
                self.wf(),
                is_tree(self.baskets@),
                h <= hops,
                self.live(c as int),
                self.live(a as int),
                self.live(cur as int),
                self.chain(cur as int).len() > h,
                self.chain(c as int) == self.chain(cur as int).skip(h as int),
                h == 0 ==> o2 == o && c == cur && a == at,
                h > 0 ==> o2 == self.chain(cur as int)[h - 1].host && self.chain(a as int)
                    == self.chain(cur as int).skip(h - 1),
                climb_of(self.baskets@, o, cur as int, at as int, hops as nat) == climb_of(
                    self.baskets@,
                    o2,
                    c as int,
                    a as int,
                    (hops - h) as nat,
                ),
            decreases hops - h,
        {
            proof {
                lemma_chain_unfold(self.baskets@, c as int);
            }
            match self.baskets[c].psi {
                None => {
                    return Err(Error::BrokenClosure);
                },
                Some(p) => {
                    proof {
                        lemma_chain_unfold(self.baskets@, p as int);
                        assert(self.chain(cur as int).skip(h as int).skip(1) =~= self.chain(
                            cur as int,
                        ).skip(h + 1));
                        assert(self.chain(cur as int).skip(h as int)[0] == self.chain(
                            cur as int,
                        )[h as int]);
                    }
                    a = c;
                    o2 = self.baskets[c].host;
                    c = p;
                    h = h + 1;
                },
            }
        }
        Ok((o2, c, a))
    }

    /// Resolves `loc` for object `o` in basket `bk`, following at most `n`
    /// bindings: makes the hops, each to the enclosing basket, and applies
    /// the selector to the object that holds the arguments there. Gives the
    /// object named with the basket to dataize it in, or a literal.
    pub fn resolve(&self, loc: Locator, o: usize, bk: usize, n: usize) -> (r: Result<Place, Error>)
        requires
            self.wf(),
        ensures
            !self.live(bk as int) ==> r == Err::<Place, Error>(Error::UnknownBasket),
            self.live(bk as int) ==> match r {
                Ok(p) => resolve(
                    self.graph(),
                    loc,
                    o,
                    self.chain(bk as int),
                    self.chain(bk as int),
                    n as nat,
                ) == Ok::<Target, Error>(self.target(p)),
                Err(e) => resolve(
                    self.graph(),
                    loc,
                    o,
                    self.chain(bk as int),
                    self.chain(bk as int),
                    n as nat,
                ) == Err::<Target, Error>(e),
            },
            match r {
                Ok(Place::Object(_, b)) => self.live(b as int),
                _ => true,
            },
            self.live(bk as int) ==> r == walk_of(
                self.graph(),
                self.records(),
                loc,
                o,
                bk as int,
                bk as int,
                n as nat,
            ),
    {
        if bk >= self.baskets.len() || !self.baskets[bk].alive {
            return Err(Error::UnknownBasket);
        }
        self.walk(loc, o, bk, bk, n)
    }

    /// The instruction at place `pc` of the program of object `ob`.
    pub fn instr(&self, ob: usize, pc: usize) -> (r: Option<Instr>)
        ensures
            r == (if self.graph().dom().contains(ob) && pc < self.graph()[ob].code.len() {
                Some(self.graph()[ob].code[pc as int])
            } else {
                None
            }),
            r is Some ==> pc < usize::MAX,
    {
        match self.object(ob) {
            Some(obj) => obj.instr(pc),
            None => None,
        }
    }

    /// Resolves `loc` for object `o`: hops start from basket `cur`, and an
    /// object that the locator names is to be dataized in the basket that
    /// the last hop left, or in `at` where no hop was made. At most `n`
    /// bindings are followed.
    fn walk(&self, loc: Locator, o: usize, cur: usize, at: usize, n: usize) -> (r: Result<
        Place,
        Error,
    >)
        requires
            self.wf(),
            self.live(cur as int),
            self.live(at as int),
        ensures
            match r {
                Ok(p) => resolve(
                    self.graph(),
                    loc,
                    o,
                    self.chain(cur as int),
                    self.chain(at as int),
                    n as nat,
                ) == Ok::<Target, Error>(self.target(p)),
                Err(e) => resolve(
                    self.graph(),
                    loc,
                    o,
                    self.chain(cur as int),
                    self.chain(at as int),
                    n as nat,
                ) == Err::<Target, Error>(e),
            },
            match r {
                Ok(Place::Object(_, b)) => self.live(b as int),
                _ => true,
            },
            r == walk_of(self.graph(), self.records(), loc, o, cur as int, at as int, n as nat),
        decreases n,
    {
        if n == 0 {
            return Err(Error::DepthExceeded);
        }
        let (o2, cur2, at2) = match self.climb(o, cur, at, loc.hops) {
            Err(e) => {
                return Err(e);
            },
            Ok(x) => x,
        };
        match loc.terminal {
            Loc::Obj(t) => Ok(Place::Object(t, at2)),
            Loc::Delta => match self.object(o2) {
                None => Err(Error::UnknownObject),
                Some(obj) => match obj.delta() {
                    Some(d) => Ok(Place::Literal(d)),
                    None => Err(Error::UnknownAttribute),
                },
            },
            Loc::Lambda => match self.object(o2) {
                None => Err(Error::UnknownObject),
                Some(obj) => match obj.lambda() {
                    Some(_) => Ok(Place::Object(o2, cur2)),
                    None => Err(Error::UnknownAttribute),
                },
            },
            s => match self.find(o2, s, n - 1) {
                Err(e) => Err(e),
                Ok((h, b)) => self.walk(b.locator, h, cur2, at2, n - 1),
            },
        }
    }
}

impl Emu {
    /// The engine has moved on from `before`, whatever became of the depth
    /// allowance: the graph and the other switch are the same, the baskets
    /// that were there are as they were, what was cached there still is, and
    /// no counter went down.
    pub open spec fn grows(&self, before: &Emu) -> bool {
        &&& self.graph() == before.graph()
        &&& self.keeps() == before.keeps()
        &&& before.records().len() <= self.records().len()
        &&& forall|i: int|
            0 <= i < before.records().len() ==> #[trigger] self.records()[i] == before.records()[i]
        &&& forall|i: int, k: Key|
            0 <= i < before.records().len() && #[trigger] before.cache(i).dom().contains(k)
                ==> self.cache(i).dom().contains(k) && self.cache(i)[k] == before.cache(i)[k]
        &&& before.counters().le(self.counters())
    }

    /// The engine has moved on from `before` and allows the same depth.
    pub open spec fn extends(&self, before: &Emu) -> bool {
        self.grows(before) && self.allowance() == before.allowance()
    }

    /// Nothing that a caller can observe differs from `before`.
    pub open spec fn same_as(&self, before: &Emu) -> bool {
        &&& self.graph() == before.graph()
        &&& self.allowance() == before.allowance()
        &&& self.keeps() == before.keeps()
        &&& self.state() == before.state()
    }

    /// The baskets that were there keep their chains.
    pub proof fn lemma_grows_chain(&self, before: &Emu, b: int)
        requires
            self.grows(before),
            0 <= b < before.records().len(),
        ensures
            self.chain(b) == before.chain(b),
            self.live(b) == before.live(b),
    {
        assert forall|i: int| 0 <= i <= b implies (#[trigger] before.records()[i]).same_place(
            self.records()[i],
        ) by {
            assert(self.records()[i] == before.records()[i]);
        }
        lemma_chain_same(before.records(), self.records(), b);
        assert(self.records()[b] == before.records()[b]);
    }

    /// Moving on twice is moving on.
    pub proof fn lemma_grows_trans(&self, mid: &Emu, before: &Emu)
        requires
            self.grows(mid),
            mid.grows(before),
        ensures
            self.grows(before),
    {
        assert forall|i: int| 0 <= i < before.records().len() implies #[trigger] self.records()[i]
            == before.records()[i] by {
            assert(mid.records()[i] == before.records()[i]);
        }
        assert forall|i: int, k: Key|
            0 <= i < before.records().len() && #[trigger] before.cache(i).dom().contains(
                k,
            ) implies self.cache(i).dom().contains(k) && self.cache(i)[k] == before.cache(i)[k] by {
            assert(mid.cache(i).dom().contains(k));
        }
    }

    /// Sets the depth allowance and touches nothing else.
    fn allow(&mut self, n: usize)
        requires
            old(self).wf(),
        ensures
            final(self).wf(),
            final(self).grows(old(self)),
            final(self).allowance() == n,
            final(self).state() == old(self).state(),
    {
        self.depth = n;
    }

    /// Counts one invocation of an operation, or one transition, and
    /// touches nothing else.
    fn count(&mut self, t: Option<Transition>)
        requires
            old(self).wf(),
        ensures
            final(self).wf(),
            final(self).extends(old(self)),
            final(self).state() == (match t {
                None => old(self).state().count_atom(),
                Some(k) => old(self).state().count_hit(k),
            }),
    {
        match t {
            None => {
                self.perf.atom();
            },
            Some(k) => {
                self.perf.hit(k);
            },
        }
    }

    /// The scalar that basket `b` has cached under `key`, if any.
    pub fn cache_get(&self, b: usize, key: Key) -> (r: Option<Data>)
        requires
            self.wf(),
        ensures
            r == self.state().cached(b as int, key),
    {
        if b >= self.caches.len() {
            return None;
        }
        let list = &self.caches[b];
        let mut i: usize = list.len();
        assert(list@.take(i as int) =~= list@);
        while i > 0
            invariant
                i <= list.len(),
                self.wf(),
                b < self.caches.len(),
                list@ == self.caches[b as int]@,
                latest(list@, key) == latest(list@.take(i as int), key),
            decreases i,
        {
            i = i - 1;
            proof {
                lemma_latest_step(list@, key, i as int);
            }
            let (k, v) = list[i];
            if k == key {
                return Some(v);
            }
        }
        None
    }

    /// Files `v` under `key` in the cache of basket `b`.
    fn cache_put(&mut self, b: usize, key: Key, v: Data)
        requires
            old(self).wf(),
            old(self).live(b as int),
            holds(old(self).graph(), old(self).chain(b as int), key, v),
        ensures
            final(self).wf(),
            final(self).extends(old(self)),
            final(self).state() == old(self).state().keep(b as int, key, v),
    {
        proof {
            lemma_latest_push(self.caches[b as int]@, key, v);
            match latest(self.caches[b as int]@, key) {
                Some(w) => {
                    let g = self.graph();
                    let c = self.chain(b as int);
                    let f1 = choose|f: nat| fetch(g, key.ob, key.loc, c, f) == Ok::<Data, Error>(v);
                    let f2 = choose|f: nat| fetch(g, key.ob, key.loc, c, f) == Ok::<Data, Error>(w);
                    lemma_fetch_same(g, key.ob, key.loc, c, f1, f2);
                },
                None => {},
            }
        }
        let ghost before = self.caches@;
        self.caches[b].push((key, v));
        proof {
            assert(self.caches@.len() == before.len());
            assert(self.caches[b as int]@ == before[b as int]@.push((key, v)));
            assert(forall|i: int| 0 <= i < before.len() && i != b ==> self.caches[i] == before[i]);
            assert(self.state().caches =~= old(self).state().keep(b as int, key, v).caches);
            assert forall|i: int, k: Key| 0 <= i < self.caches.len() implies match #[trigger] latest(
                self.caches[i]@,
                k,
            ) {
                Some(w) => holds(self.graph(), chain_of(self.baskets@, i), k, w),
                None => true,
            } by {
                if i == b {
                    if k != key {
                        assert(latest(self.caches[i]@, k) == latest(before[i]@, k));
                    }
                } else {
                    assert(self.caches[i] == before[i]);
                    assert(latest(self.caches[i]@, k) == latest(before[i]@, k));
                }
            }
        }
    }

    /// Opens a basket bound to `ob`, for the applied binding of `host` that
    /// was followed while basket `psi` was active.
    fn spawn(&mut self, ob: usize, host: usize, psi: usize) -> (r: usize)
        requires
            old(self).wf(),
            old(self).live(psi as int),
        ensures
            final(self).wf(),
            final(self).extends(old(self)),
            r == old(self).records().len(),
            final(self).state() == old(self).state().open_basket(ob, host, psi),
            final(self).chain(r as int) == enter(old(self).chain(psi as int), ob, host),
    {
        let ghost before = *self;
        let r = self.baskets.len();
        self.baskets.push(Basket { ob, host, psi: Some(psi), alive: true });
        self.caches.push(Vec::new());
        self.perf.hit(Transition::NEW);
        proof {
            lemma_latest_empty::<Key, Data>(Key { ob: 0, loc: Loc::Phi });
            assert(self.caches[r as int]@ =~= Seq::empty());
            assert forall|i: int| 0 <= i < r implies chain_of(self.baskets@, i) == chain_of(
                before.baskets@,
                i,
            ) by {
                lemma_chain_same(before.baskets@, self.baskets@, i);
            }
            assert(chain_of(self.baskets@, r as int) =~= enter(
                chain_of(before.baskets@, psi as int),
                ob,
                host,
            ));
            assert forall|i: int, k: Key| 0 <= i < self.caches.len() implies match #[trigger] latest(
                self.caches[i]@,
                k,
            ) {
                Some(w) => holds(self.graph(), chain_of(self.baskets@, i), k, w),
                None => true,
            } by {
                if i < r {
                    assert(self.caches[i] == before.caches[i]);
                    assert(latest(before.caches[i]@, k) == latest(self.caches[i]@, k));
                } else {
                    lemma_latest_empty::<Key, Data>(k);
                }
            }
            assert(self.graph() =~= before.graph());
            assert(self.state().caches =~= before.state().open_basket(ob, host, psi).caches);
        }
        r
    }
}

impl Emu {
    /// Reduces object `o` to a scalar in basket `b`. An operation is invoked
    /// once for a basket and its result kept under `Lambda`; a literal is
    /// copied into the root basket the first time it is met; a body is
    /// followed.
    fn reduce(&mut self, o: usize, b: usize) -> (r: Result<Data, Error>)
        requires
            old(self).wf(),
            old(self).live(b as int),
        ensures
            final(self).wf(),
            final(self).extends(old(self)),
            eval_agrees(
                old(self).graph(),
                o,
                old(self).chain(b as int),
                old(self).allowance() as nat,
                r,
            ),
            final(self).state() == reduce_of(
                old(self).graph(),
                old(self).state(),
                o,
                b as int,
                old(self).allowance() as nat,
            ).0,
            r == reduce_of(
                old(self).graph(),
                old(self).state(),
                o,
                b as int,
                old(self).allowance() as nat,
            ).1,
            old(self).graph().dom().contains(o) && old(self).graph()[o].lambda is Some && r is Ok
                ==> final(self).cache(b as int).dom().contains(Key { ob: o, loc: Loc::Lambda })
                && final(self).cache(b as int)[Key { ob: o, loc: Loc::Lambda }] == r->Ok_0,
        decreases old(self).allowance(), 0nat, 1nat,
    {
        let ghost g = self.graph();
        let ghost ch = self.chain(b as int);
        let d = self.depth;
        if d == 0 {
            return Err(Error::DepthExceeded);
        }
        let (lambda, delta, body) = match self.object(o) {
            None => {
                assert(eval(g, o, ch, 1) == Err::<Data, Error>(Error::UnknownObject));
                return Err(Error::UnknownObject);
            },
            Some(obj) => (obj.lambda(), obj.delta(), obj.attr(Loc::Phi)),
        };
        if let Some(a) = lambda {
            self.operate(a, o, b)
        } else if let Some(v) = delta {
            assert(eval(g, o, ch, 1) == Ok::<Data, Error>(v));
            self.copy(o, v);
            Ok(v)
        } else if body.is_some() {
            let ghost start = *self;
            self.allow(d - 1);
            let ghost mid = *self;
            let r = self.calc(o, Loc::Phi, b);
            let ghost post = *self;
            self.allow(d);
            proof {
                mid.lemma_grows_chain(&start, b as int);
                post.lemma_grows_trans(&mid, &start);
                self.lemma_grows_trans(&post, &start);
                if settled(r) {
                    let f = choose|f: nat| fetch(g, o, Loc::Phi, ch, f) == r;
                    assert(eval(g, o, ch, f + 1) == r);
                } else {
                    assert(eval(g, o, ch, d as nat) == r);
                }
            }
            r
        } else {
            assert(eval(g, o, ch, 1) == Err::<Data, Error>(Error::EmptyObject));
            Err(Error::EmptyObject)
        }
    }

    /// Gives what operation `a` of object `o` comes to in basket `b`: what
    /// the basket has cached under the object's `Lambda`, or else what the
    /// operation, invoked and counted, produces one level deeper; a scalar
    /// that it produces is cached.
    fn operate(&mut self, a: Atom, o: usize, b: usize) -> (r: Result<Data, Error>)
        requires
            old(self).wf(),
            old(self).live(b as int),
            old(self).allowance() > 0,
            old(self).graph().dom().contains(o),
            old(self).graph()[o].lambda == Some(a),
        ensures
            final(self).wf(),
            final(self).extends(old(self)),
            eval_agrees(
                old(self).graph(),
                o,
                old(self).chain(b as int),
                old(self).allowance() as nat,
                r,
            ),
            final(self).state() == reduce_of(
                old(self).graph(),
                old(self).state(),
                o,
                b as int,
                old(self).allowance() as nat,
            ).0,
            r == reduce_of(
                old(self).graph(),
                old(self).state(),
                o,
                b as int,
                old(self).allowance() as nat,
            ).1,
            old(self).graph().dom().contains(o) && old(self).graph()[o].lambda is Some && r is Ok
                ==> final(self).cache(b as int).dom().contains(Key { ob: o, loc: Loc::Lambda })
                && final(self).cache(b as int)[Key { ob: o, loc: Loc::Lambda }] == r->Ok_0,
        decreases old(self).allowance(), 0nat, 0nat,
    {
        let ghost g = self.graph();
        let ghost ch = self.chain(b as int);
        let ghost start = *self;
        let d = self.depth;
        let key = Key { ob: o, loc: Loc::Lambda };
        if let Some(v) = self.cache_get(b, key) {
            proof {
                assert(latest(self.caches[b as int]@, key) == Some(v));
                let f = choose|f: nat| fetch(g, o, Loc::Lambda, ch, f) == Ok::<Data, Error>(v);
                lemma_fetch_lambda(g, o, ch, f);
            }
            return Ok(v);
        }
        self.count(None);
        let ghost counted = *self;
        self.allow(d - 1);
        let ghost mid = *self;
        let r = invoke(self, a, o, b);
        let ghost post = *self;
        self.allow(d);
        proof {
            mid.lemma_grows_trans(&counted, &start);
            mid.lemma_grows_chain(&start, b as int);
            post.lemma_grows_trans(&mid, &start);
            self.lemma_grows_trans(&post, &start);
            self.lemma_grows_chain(&start, b as int);
            if settled(r) {
                let f = choose|f: nat| crate::semantics::run(g, a, o, ch, f) == r;
                assert(eval(g, o, ch, f + 1) == r);
            } else {
                assert(eval(g, o, ch, d as nat) == r);
            }
        }
        if let Ok(v) = r {
            proof {
                let f = choose|f: nat| eval(g, o, ch, f) == r;
                lemma_fetch_lambda(g, o, ch, f);
            }
            let ghost pre = *self;
            self.cache_put(b, key, v);
            proof {
                self.lemma_grows_trans(&pre, &start);
            }
        }
        r
    }

    /// Copies the literal `v` of object `o` into the root basket, and counts
    /// the copy, unless the root basket has it.
    fn copy(&mut self, o: usize, v: Data)
        requires
            old(self).wf(),
            old(self).graph().dom().contains(o),
            old(self).graph()[o].delta == Some(v),
        ensures
            final(self).wf(),
            final(self).extends(old(self)),
            final(self).state() == (if old(self).state().cached(
                0,
                Key { ob: o, loc: Loc::Delta },
            ) is None {
                old(self).state().keep(0, Key { ob: o, loc: Loc::Delta }, v).count_hit(
                    Transition::CPY,
                )
            } else {
                old(self).state()
            }),
    {
        let ghost start = *self;
        let key = Key { ob: o, loc: Loc::Delta };
        if self.cache_get(0, key).is_none() {
            assert(start.state().cached(0, key) is None);
            proof {
                lemma_fetch_delta(self.graph(), o, self.chain(0), 1);
            }
            self.cache_put(0, key, v);
            assert(self.state() == start.state().keep(0, key, v));
            let ghost pre = *self;
            self.count(Some(Transition::CPY));
            assert(self.state() == start.state().keep(0, key, v).count_hit(Transition::CPY));
            proof {
                self.lemma_grows_trans(&pre, &start);
            }
        } else {
            assert(start.state().cached(0, key) is Some);
        }
    }

    /// The scalar that selector `s` denotes for object `ob` in basket `bk`:
    /// what is cached under the pair, or else the attribute found, its
    /// locator resolved and the object that it names reduced, in a new basket
    /// where the binding is applied. The result of an applied binding is
    /// cached in `bk`.
    pub fn calc(&mut self, ob: usize, s: Loc, bk: usize) -> (r: Result<Data, Error>)
        requires
            old(self).wf(),
        ensures
            final(self).wf(),
            final(self).extends(old(self)),
            old(self).live(bk as int) ==> fetch_agrees(
                old(self).graph(),
                ob,
                s,
                old(self).chain(bk as int),
                old(self).allowance() as nat,
                r,
            ),
            final(self).state() == calc_of(
                old(self).graph(),
                old(self).state(),
                ob,
                s,
                bk as int,
                old(self).allowance() as nat,
            ).0,
            r == calc_of(
                old(self).graph(),
                old(self).state(),
                ob,
                s,
                bk as int,
                old(self).allowance() as nat,
            ).1,
        decreases old(self).allowance(), 1nat, 0nat,
    {
        if bk >= self.baskets.len() || !self.baskets[bk].alive {
            return Err(Error::UnknownBasket);
        }
        let ghost g = self.graph();
        let ghost ch = self.chain(bk as int);
        let key = Key { ob, loc: s };
        if let Some(v) = self.cache_get(bk, key) {
            proof {
                assert(latest(self.caches[bk as int]@, key) == Some(v));
            }
            return Ok(v);
        }
        let d = self.depth;
        let (loc, holder, applied) = if s.binds() {
            match self.find(ob, s, d) {
                Err(e) => {
                    return Err(e);
                },
                Ok((h, bnd)) => (bnd.locator, h, bnd.applied),
            }
        } else {
            (Locator { hops: 0, terminal: s }, ob, false)
        };
        match self.walk(loc, holder, bk, bk, d) {
            Err(e) => Err(e),
            Ok(Place::Literal(v)) => Ok(v),
            Ok(Place::Object(t, at)) => {
                let ghost place = if applied {
                    enter(ch, t, ob)
                } else {
                    self.chain(at as int)
                };
                proof {
                    assert forall|f: nat| f >= d implies #[trigger] fetch(g, ob, s, ch, f) == eval(
                        g,
                        t,
                        place,
                        f,
                    ) by {
                        lemma_fetch_path(g, ob, s, ch, d as nat, f);
                    }
                }
                self.land(ob, s, bk, t, at, applied)
            },
        }
    }

    /// Reduces the object `t` that selector `s` of object `ob` led to: in a
    /// new basket where the binding is applied, and then caches a scalar
    /// that comes of it in `bk`; else in basket `at`, counting a body that
    /// is followed so.
    fn land(&mut self, ob: usize, s: Loc, bk: usize, t: usize, at: usize, applied: bool) -> (r:
        Result<Data, Error>)
        requires
            old(self).wf(),
            old(self).live(bk as int),
            old(self).live(at as int),
            forall|f: nat|
                f >= old(self).allowance() ==> #[trigger] fetch(
                    old(self).graph(),
                    ob,
                    s,
                    old(self).chain(bk as int),
                    f,
                ) == eval(
                    old(self).graph(),
                    t,
                    if applied {
                        enter(old(self).chain(bk as int), t, ob)
                    } else {
                        old(self).chain(at as int)
                    },
                    f,
                ),
        ensures
            final(self).wf(),
            final(self).extends(old(self)),
            fetch_agrees(
                old(self).graph(),
                ob,
                s,
                old(self).chain(bk as int),
                old(self).allowance() as nat,
                r,
            ),
            final(self).state() == land_of(
                old(self).graph(),
                old(self).state(),
                ob,
                s,
                bk as int,
                t,
                at as int,
                applied,
                old(self).allowance() as nat,
            ).0,
            r == land_of(
                old(self).graph(),
                old(self).state(),
                ob,
                s,
                bk as int,
                t,
                at as int,
                applied,
                old(self).allowance() as nat,
            ).1,
        decreases old(self).allowance(), 0nat, 2nat,
    {
        let ghost g = self.graph();
        let ghost ch = self.chain(bk as int);
        let ghost start = *self;
        let ghost d = self.depth as nat;
        let key = Key { ob, loc: s };
        if applied {
            let ghost place = enter(ch, t, ob);
            let nb = self.spawn(t, ob, bk);
            let ghost mid = *self;
            let r = self.reduce(t, nb);
            proof {
                self.lemma_grows_trans(&mid, &start);
                self.lemma_grows_chain(&start, bk as int);
                lemma_fetch_lands(g, ob, s, ch, d, t, place, r);
            }
            if let Ok(v) = r {
                let ghost pre = *self;
                self.cache_put(bk, key, v);
                proof {
                    self.lemma_grows_trans(&pre, &start);
                }
            }
            r
        } else {
            let ghost place = self.chain(at as int);
            if let Loc::Phi = s {
                self.count(Some(Transition::DEC));
            }
            let ghost mid = *self;
            proof {
                mid.lemma_grows_chain(&start, at as int);
            }
            let r = self.reduce(t, at);
            proof {
                self.lemma_grows_trans(&mid, &start);
                lemma_fetch_lands(g, ob, s, ch, d, t, place, r);
            }
            r
        }
    }
}

/// Invokes operation `a` of object `ob` in basket `bx`.
fn invoke(emu: &mut Emu, a: Atom, ob: usize, bx: usize) -> (r: Result<Data, Error>)
    requires
        old(emu).wf(),
        old(emu).live(bx as int),
        old(emu).graph().dom().contains(ob),
    ensures
        final(emu).wf(),
        final(emu).extends(old(emu)),
        run_agrees(
            old(emu).graph(),
            a,
            ob,
            old(emu).chain(bx as int),
            old(emu).allowance() as nat,
            r,
        ),
        final(emu).state() == invoke_of(
            old(emu).graph(),
            old(emu).state(),
            a,
            ob,
            bx as int,
            old(emu).allowance() as nat,
        ).0,
        r == invoke_of(
            old(emu).graph(),
            old(emu).state(),
            a,
            ob,
            bx as int,
            old(emu).allowance() as nat,
        ).1,
    decreases old(emu).allowance(), 4nat, 0nat,
{
    match a {
        Atom::IntAdd => int_add(emu, ob, bx),
        Atom::IntSub => int_sub(emu, ob, bx),
        Atom::IntLess => int_less(emu, ob, bx),
        Atom::BoolIf => bool_if(emu, ob, bx),
        Atom::IntNeg => int_neg(emu, ob, bx),
        Atom::Code => interpreted(emu, ob, bx),
    }
}

impl Emu {
    /// Puts `obj` into the table under `id`, in place of what was there. The
    /// graph is no longer the one that the baskets were made for, so the
    /// engine starts over with the root basket alone and nothing cached.
    pub fn put(&mut self, id: usize, obj: Object)
        ensures
            final(self).wf(),
            final(self).graph() == old(self).graph().insert(id, obj@),
            final(self).state() == fresh(old(self).counters()),
            final(self).allowance() == old(self).allowance(),
            final(self).keeps() == old(self).keeps(),
    {
        let ghost g = self.graph();
        while self.objects.len() <= id
            invariant
                self.graph() == g,
                self.perf == old(self).perf,
                self.depth == old(self).depth,
                self.keep == old(self).keep,
            decreases id + 1 - self.objects.len(),
        {
            let ghost before = self.objects@;
            self.objects.push(None);
            proof {
                assert(forall|i: int| 0 <= i < before.len() ==> self.objects[i] == before[i]);
                assert(self.graph() =~= g);
            }
        }
        let ghost before = self.objects@;
        self.objects[id] = Some(obj);
        proof {
            assert(forall|i: int| 0 <= i < before.len() && i != id ==> self.objects[i] == before[i]);
            assert(self.graph() =~= g.insert(id, obj@));
        }
        let mut baskets: Vec<Basket> = Vec::new();
        baskets.push(Basket { ob: 0, host: 0, psi: None, alive: true });
        let mut caches: Vec<Vec<(Key, Data)>> = Vec::new();
        caches.push(Vec::new());
        self.baskets = baskets;
        self.caches = caches;
        proof {
            assert(self.baskets@ =~= seq![root_basket()]);
            lemma_latest_empty::<Key, Data>(Key { ob: 0, loc: Loc::Phi });
            assert(self.caches[0]@ =~= Seq::empty());
            assert(self.state().caches =~= fresh(self.perf).caches);
            assert forall|b: int, k: Key| 0 <= b < self.caches.len() implies match #[trigger] latest(
                self.caches[b]@,
                k,
            ) {
                Some(v) => holds(self.graph(), chain_of(self.baskets@, b), k, v),
                None => true,
            } by {
                lemma_latest_empty::<Key, Data>(k);
                assert(self.caches[b]@ =~= Seq::empty());
            }
        }
    }

    /// Opens a basket bound to object `ob` and enclosed by basket `psi`. The
    /// object that `psi` is bound to holds the arguments that the new basket
    /// sees one hop up. Gives the new basket's id, or `UnknownBasket` where
    /// `psi` names no basket in use.
    pub fn new(&mut self, ob: usize, psi: usize) -> (r: Result<usize, Error>)
        requires
            old(self).wf(),
        ensures
            final(self).wf(),
            final(self).extends(old(self)),
            match r {
                Err(e) => e == Error::UnknownBasket && !old(self).live(psi as int)
                    && final(self).same_as(old(self)),
                Ok(b) => {
                    &&& old(self).live(psi as int)
                    &&& b == old(self).records().len()
                    &&& final(self).state() == old(self).state().open_basket(
                        ob,
                        old(self).records()[psi as int].ob,
                        psi,
                    )
                    &&& final(self).chain(b as int) == enter(
                        old(self).chain(psi as int),
                        ob,
                        old(self).records()[psi as int].ob,
                    )
                },
            },
    {
        if psi >= self.baskets.len() || !self.baskets[psi].alive {
            return Err(Error::UnknownBasket);
        }
        let host = self.baskets[psi].ob;
        Ok(self.spawn(ob, host, psi))
    }

    /// Takes basket `bk` out of use, and with it every basket that it
    /// encloses; their caches are dropped. Nothing happens, and `false` is
    /// returned, where deletion is switched off, where `bk` is the root
    /// basket, and where `bk` names no basket in use.
    pub fn delete(&mut self, bk: usize) -> (r: bool)
        requires
            old(self).wf(),
        ensures
            final(self).wf(),
            final(self).graph() == old(self).graph(),
            final(self).allowance() == old(self).allowance(),
            final(self).keeps() == old(self).keeps(),
            final(self).counters() == old(self).counters(),
            r == (!old(self).keeps() && bk != 0 && old(self).live(bk as int)),
            !r ==> final(self).same_as(old(self)),
            final(self).records().len() == old(self).records().len(),
            r ==> forall|i: int|
                0 <= i < old(self).records().len() ==> {
                    &&& (#[trigger] final(self).records()[i]).same_place(old(self).records()[i])
                    &&& final(self).records()[i].alive == (old(self).records()[i].alive
                        && !encloses(old(self).records(), bk as int, i))
                    &&& final(self).cache(i) == (if encloses(old(self).records(), bk as int, i) {
                        Map::<Key, Data>::empty()
                    } else {
                        old(self).cache(i)
                    })
                },
    {
        if self.keep || bk == 0 || bk >= self.baskets.len() || !self.baskets[bk].alive {
            return false;
        }
        let ghost start = *self;
        let n = self.baskets.len();
        let mut i: usize = bk;
        proof {
            assert forall|j: int| 0 <= j < bk implies !encloses(start.baskets@, bk as int, j) by {
                if encloses(start.baskets@, bk as int, j) {
                    lemma_encloses_before(start.baskets@, bk as int, j);
                }
            }
        }
        while i < n
            invariant
                bk <= i <= n,
                n == start.baskets.len(),
                start.wf(),
                0 < bk,
                self.objects == start.objects,
                self.perf == start.perf,
                self.depth == start.depth,
                self.keep == start.keep,
                self.baskets.len() == n,
                self.caches.len() == n,
                forall|j: int|
                    0 <= j < n ==> (#[trigger] self.baskets[j]).same_place(start.baskets[j]),
                forall|j: int|
                    0 <= j < i ==> (#[trigger] self.baskets[j]).alive == (start.baskets[j].alive
                        && !encloses(start.baskets@, bk as int, j)),
                forall|j: int|
                    0 <= j < i ==> #[trigger] self.caches[j]@ == (if encloses(
                        start.baskets@,
                        bk as int,
                        j,
                    ) {
                        Seq::<(Key, Data)>::empty()
                    } else {
                        start.caches[j]@
                    }),
                forall|j: int| i <= j < n ==> #[trigger] self.baskets[j] == start.baskets[j],
                forall|j: int| i <= j < n ==> #[trigger] self.caches[j] == start.caches[j],
            decreases n - i,
        {
            let rec = self.baskets[i];
            let gone = i == bk || (rec.alive && match rec.psi {
                Some(p) => p < i && !self.baskets[p].alive,
                None => false,
            });
            proof {
                let p = start.baskets[i as int].psi->Some_0 as int;
                assert(start.baskets[i as int].psi is Some && p < i);
                assert(self.baskets[p].alive == (start.baskets[p].alive && !encloses(
                    start.baskets@,
                    bk as int,
                    p,
                )));
                assert(encloses(start.baskets@, bk as int, i as int) == (i == bk || encloses(
                    start.baskets@,
                    bk as int,
                    p,
                )));
            }
            if gone {
                self.baskets[i] = Basket { alive: false, ..rec };
                self.caches[i] = Vec::new();
            }
            i = i + 1;
        }
        proof {
            assert(self.graph() =~= start.graph());
            assert forall|j: int| 0 <= j < n implies chain_of(self.baskets@, j) == chain_of(
                start.baskets@,
                j,
            ) by {
                assert forall|t: int| 0 <= t <= j implies (#[trigger] start.baskets[t]).same_place(
                    self.baskets[t],
                ) by {
                    assert(self.baskets[t].same_place(start.baskets[t]));
                }
                lemma_chain_same(start.baskets@, self.baskets@, j);
            }
            assert forall|b: int, k: Key| 0 <= b < self.caches.len() implies match #[trigger] latest(
                self.caches[b]@,
                k,
            ) {
                Some(v) => holds(self.graph(), chain_of(self.baskets@, b), k, v),
                None => true,
            } by {
                if encloses(start.baskets@, bk as int, b) {
                    lemma_latest_empty::<Key, Data>(k);
                } else {
                    assert(latest(start.caches[b]@, k) == latest(self.caches[b]@, k));
                }
            }
            assert(is_tree(self.baskets@)) by {
                assert(self.baskets[0].same_place(start.baskets[0]));
                assert forall|j: int| 1 <= j < n implies {
                    &&& (#[trigger] self.baskets[j]).psi is Some
                    &&& self.baskets[j].psi->Some_0 < j
                    &&& (self.baskets[j].alive ==> self.baskets[self.baskets[j].psi->Some_0 as int].alive)
                } by {
                    assert(self.baskets[j].same_place(start.baskets[j]));
                    let p = start.baskets[j].psi->Some_0 as int;
                    assert(start.baskets[j].psi is Some && p < j);
                    assert(self.baskets[p].same_place(start.baskets[p]));
                }
            }
            assert forall|j: int| 0 <= j < n implies #[trigger] self.cache(j) == (if encloses(
                start.records(),
                bk as int,
                j,
            ) {
                Map::<Key, Data>::empty()
            } else {
                start.cache(j)
            }) by {
                lemma_latest_empty::<Key, Data>(Key { ob: 0, loc: Loc::Phi });
            }
        }
        true
    }

    /// Reduces the object that basket `bk` is bound to, in that basket.
    /// Gives the scalar with the counters as they then stand.
    pub fn dataize_at(&mut self, bk: usize) -> (r: Result<(Data, Perf), Error>)
        requires
            old(self).wf(),
        ensures
            final(self).wf(),
            final(self).extends(old(self)),
            !old(self).live(bk as int) ==> r == Err::<(Data, Perf), Error>(Error::UnknownBasket)
                && final(self).same_as(old(self)),
            old(self).live(bk as int) ==> eval_agrees(
                old(self).graph(),
                old(self).records()[bk as int].ob,
                old(self).chain(bk as int),
                old(self).allowance() as nat,
                match r {
                    Ok(p) => Ok(p.0),
                    Err(e) => Err(e),
                },
            ),
            old(self).live(bk as int) ==> final(self).state() == reduce_of(
                old(self).graph(),
                old(self).state(),
                old(self).records()[bk as int].ob,
                bk as int,
                old(self).allowance() as nat,
            ).0 && r == with_counters(
                reduce_of(
                    old(self).graph(),
                    old(self).state(),
                    old(self).records()[bk as int].ob,
                    bk as int,
                    old(self).allowance() as nat,
                ),
            ),
            old(self).live(bk as int) ==> old(self).once(bk as int, r),
            old(self).live(bk as int) ==> old(self).gives_literal(bk as int, r),
            old(self).live(bk as int) ==> final(self).keeps_result(
                old(self).records()[bk as int].ob,
                bk as int,
                r,
            ),
    {
        if bk >= self.baskets.len() || !self.baskets[bk].alive {
            return Err(Error::UnknownBasket);
        }
        let ob = self.baskets[bk].ob;
        proof {
            self.lemma_wf();
        }
        match self.reduce(ob, bk) {
            Ok(v) => Ok((v, self.perf)),
            Err(e) => Err(e),
        }
    }

    /// Reduces the root object in the root basket. Gives the scalar with the
    /// counters as they then stand.
    pub fn dataize(&mut self) -> (r: Result<(Data, Perf), Error>)
        requires
            old(self).wf(),
        ensures
            final(self).wf(),
            final(self).extends(old(self)),
            eval_agrees(
                old(self).graph(),
                old(self).records()[0].ob,
                old(self).chain(0),
                old(self).allowance() as nat,
                match r {
                    Ok(p) => Ok(p.0),
                    Err(e) => Err(e),
                },
            ),
            final(self).state() == reduce_of(
                old(self).graph(),
                old(self).state(),
                old(self).records()[0].ob,
                0,
                old(self).allowance() as nat,
            ).0,
            r == with_counters(
                reduce_of(
                    old(self).graph(),
                    old(self).state(),
                    old(self).records()[0].ob,
                    0,
                    old(self).allowance() as nat,
                ),
            ),
            old(self).once(0, r),
            old(self).gives_literal(0, r),
            final(self).keeps_result(old(self).records()[0].ob, 0, r),
    {
        proof {
            self.lemma_wf();
        }
        self.dataize_at(0)
    }

    /// An operation is invoked at most once for a basket: where the object
    /// that basket `b` is bound to carries an operation whose result the
    /// basket has cached, dataizing the basket gives that result and touches
    /// no counter. (`self` is the engine before the call.)
    pub open spec fn once(&self, b: int, r: Result<(Data, Perf), Error>) -> bool {
        let o = self.records()[b].ob;
        let key = Key { ob: o, loc: Loc::Lambda };
        self.allowance() > 0 && self.graph().dom().contains(o) && self.graph()[o].lambda is Some
            && self.cache(b).dom().contains(key) ==> r == Ok::<(Data, Perf), Error>(
            (self.cache(b)[key], self.counters()),
        )
    }

    /// The result of an operation is kept: where object `o` carries an
    /// operation and dataizing basket `b` gave a scalar, the basket has that
    /// scalar cached under the object's `Lambda`. (`self` is the engine after
    /// the call.)
    pub open spec fn keeps_result(&self, o: usize, b: int, r: Result<(Data, Perf), Error>) -> bool {
        let key = Key { ob: o, loc: Loc::Lambda };
        self.graph().dom().contains(o) && self.graph()[o].lambda is Some && r is Ok
            ==> self.cache(b).dom().contains(key) && self.cache(b)[key] == r->Ok_0.0
    }

    /// Where the object that basket `b` is bound to holds a literal and no
    /// operation, dataizing the basket gives the literal and invokes no
    /// operation. (`self` is the engine before the call.)
    pub open spec fn gives_literal(&self, b: int, r: Result<(Data, Perf), Error>) -> bool {
        let o = self.records()[b].ob;
        self.allowance() > 0 && self.graph().dom().contains(o) && self.graph()[o].lambda is None
            && self.graph()[o].delta is Some ==> r is Ok && r->Ok_0.0
            == self.graph()[o].delta->Some_0 && r->Ok_0.1.atoms == self.counters().atoms
    }
}

} // verus!
