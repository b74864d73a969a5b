use vstd::prelude::*;

use crate::command_parser::{BExpr, CmpOp, Command, Const, SExpr, Var};

verus! {

/// Marker for the greatest element of an abstract domain.
pub struct Top;

/// Marker for the least element of an abstract domain.
pub struct Bottom;

/// The operations an abstract domain offers to the analysis.
///
/// Each executable operation is pinned to a specification function of the
/// same meaning, so that the analysis can be described, and proved, over
/// any domain.  `wf` is the domain's own well-formedness; every operation
/// takes well-formed values and returns one.
pub trait AbstractProperties: Sized + Copy {
    spec fn wf(a: Self) -> bool;

    spec fn spec_top() -> Self;

    spec fn spec_bottom() -> Self;

    spec fn spec_from_const(n: i64) -> Self;

    spec fn spec_add(a: Self, b: Self) -> Self;

    spec fn spec_sub(a: Self, b: Self) -> Self;

    spec fn spec_mul(a: Self, b: Self) -> Self;

    spec fn spec_div(a: Self, b: Self) -> Self;

    spec fn spec_neg(a: Self) -> Self;

    spec fn spec_sat(a: Self, op: CmpOp, n: i64) -> bool;

    spec fn spec_refine(a: Self, op: CmpOp, n: i64) -> Self;

    spec fn spec_includes(a: Self, b: Self) -> bool;

    spec fn spec_join(a: Self, b: Self) -> Self;

    spec fn spec_widen(a: Self, b: Self, threshold: Self) -> Self;

    spec fn spec_compare(a: Self, b: Self) -> Option<core::cmp::Ordering>;

    /// No guard holds of `Bottom`, every guard may hold of `Top`, and a guard
    /// that cannot hold refines any value to `Bottom`.
    proof fn lemma_guard_contract(a: Self, op: CmpOp, n: i64)
        ensures
            !Self::spec_sat(Self::spec_bottom(), op, n),
            Self::spec_sat(Self::spec_top(), op, n),
            !Self::spec_sat(a, op, n) ==> Self::spec_refine(a, op, n) == Self::spec_bottom(),
    ;

    /// `Bottom` absorbs the arithmetic.
    proof fn lemma_bottom_absorbs(a: Self)
        ensures
            Self::spec_add(a, Self::spec_bottom()) == Self::spec_bottom(),
            Self::spec_add(Self::spec_bottom(), a) == Self::spec_bottom(),
            Self::spec_sub(a, Self::spec_bottom()) == Self::spec_bottom(),
            Self::spec_sub(Self::spec_bottom(), a) == Self::spec_bottom(),
            Self::spec_mul(a, Self::spec_bottom()) == Self::spec_bottom(),
            Self::spec_mul(Self::spec_bottom(), a) == Self::spec_bottom(),
            Self::spec_div(a, Self::spec_bottom()) == Self::spec_bottom(),
            Self::spec_div(Self::spec_bottom(), a) == Self::spec_bottom(),
            Self::spec_neg(Self::spec_bottom()) == Self::spec_bottom(),
    ;

    /// `Top`, `Bottom` and the injected constants are well formed.
    proof fn lemma_constants_wf(n: i64)
        ensures
            Self::wf(Self::spec_top()),
            Self::wf(Self::spec_bottom()),
            Self::wf(Self::spec_from_const(n)),
    ;

    /// The arithmetic keeps values well formed.
    proof fn lemma_wf_closed(a: Self, b: Self)
        requires
            Self::wf(a),
            Self::wf(b),
        ensures
            Self::wf(Self::spec_add(a, b)),
            Self::wf(Self::spec_sub(a, b)),
            Self::wf(Self::spec_mul(a, b)),
            Self::wf(Self::spec_div(a, b)),
            Self::wf(Self::spec_neg(a)),
    ;

    /// `Top` includes every value, `Bottom` is included in every value and
    /// includes no other, and inclusion is reflexive.
    proof fn lemma_inclusion_bounds(a: Self)
        requires
            Self::wf(a),
        ensures
            Self::spec_includes(Self::spec_top(), a),
            Self::spec_includes(a, Self::spec_bottom()),
            Self::spec_includes(a, a),
            Self::spec_includes(Self::spec_bottom(), a) ==> a == Self::spec_bottom(),
            Self::spec_top() != Self::spec_bottom(),
    ;

    /// The arithmetic is monotone for inclusion.
    proof fn lemma_arithmetic_monotone(a: Self, a2: Self, b: Self, b2: Self)
        requires
            Self::wf(a),
            Self::wf(a2),
            Self::wf(b),
            Self::wf(b2),
            Self::spec_includes(a2, a),
            Self::spec_includes(b2, b),
        ensures
            Self::spec_includes(Self::spec_add(a2, b2), Self::spec_add(a, b)),
            Self::spec_includes(Self::spec_sub(a2, b2), Self::spec_sub(a, b)),
            Self::spec_includes(Self::spec_mul(a2, b2), Self::spec_mul(a, b)),
            Self::spec_includes(Self::spec_div(a2, b2), Self::spec_div(a, b)),
            Self::spec_includes(Self::spec_neg(a2), Self::spec_neg(a)),
    ;

    fn top() -> (r: Self)
        ensures
            r == Self::spec_top(),
            Self::wf(r),
    ;

    fn bottom() -> (r: Self)
        ensures
            r == Self::spec_bottom(),
            Self::wf(r),
    ;

    fn from_const(n: i64) -> (r: Self)
        ensures
            r == Self::spec_from_const(n),
            Self::wf(r),
    ;

    fn is_bottom(a: &Self) -> (r: bool)
        ensures
            r == (*a == Self::spec_bottom()),
    ;

    fn equals(a: &Self, b: &Self) -> (r: bool)
        ensures
            r == (*a == *b),
    ;

    /// The order in which the concrete interpretation compares values.
    fn compare(a: &Self, b: &Self) -> (r: Option<core::cmp::Ordering>)
        ensures
            r == Self::spec_compare(*a, *b),
    ;

    fn add(a: &Self, b: &Self) -> (r: Self)
        requires
            Self::wf(*a),
            Self::wf(*b),
        ensures
            r == Self::spec_add(*a, *b),
            Self::wf(r),
    ;

    fn sub(a: &Self, b: &Self) -> (r: Self)
        requires
            Self::wf(*a),
            Self::wf(*b),
        ensures
            r == Self::spec_sub(*a, *b),
            Self::wf(r),
    ;

    fn mul(a: &Self, b: &Self) -> (r: Self)
        requires
            Self::wf(*a),
            Self::wf(*b),
        ensures
            r == Self::spec_mul(*a, *b),
            Self::wf(r),
    ;

    fn div(a: &Self, b: &Self) -> (r: Self)
        requires
            Self::wf(*a),
            Self::wf(*b),
        ensures
            r == Self::spec_div(*a, *b),
            Self::wf(r),
    ;

    fn neg(a: &Self) -> (r: Self)
        requires
            Self::wf(*a),
        ensures
            r == Self::spec_neg(*a),
            Self::wf(r),
    ;

    fn sat(a: &Self, bexpr: &BExpr) -> (r: bool)
        requires
            Self::wf(*a),
        ensures
            r == Self::spec_sat(*a, bexpr.op(), bexpr.number()),
    ;

    fn refine(a: &Self, bexpr: &BExpr) -> (r: Self)
        requires
            Self::wf(*a),
        ensures
            r == Self::spec_refine(*a, bexpr.op(), bexpr.number()),
            Self::wf(r),
    ;

    fn first_includes_second(a0: &Self, a1: &Self) -> (r: bool)
        requires
            Self::wf(*a0),
            Self::wf(*a1),
        ensures
            r == Self::spec_includes(*a0, *a1),
    ;

    fn join(a0: &Self, a1: &Self) -> (r: Self)
        requires
            Self::wf(*a0),
            Self::wf(*a1),
        ensures
            r == Self::spec_join(*a0, *a1),
            Self::wf(r),
    ;

    fn widen(a0: &Self, a1: &Self, threshold: &Self) -> (r: Self)
        requires
            Self::wf(*a0),
            Self::wf(*a1),
            Self::wf(*threshold),
        ensures
            r == Self::spec_widen(*a0, *a1, *threshold),
            Self::wf(r),
    ;
}

/// The knobs of the loop analysis.
pub struct Params<A> {
    /// How many times a loop body is analysed before the fixpoint iteration.
    pub loop_unrollings: u8,
    /// Whether the fixpoint iteration widens instead of joining.
    pub use_widening: bool,
    /// How many joins take place before widening starts.
    pub widening_delays: u8,
    /// The bounds that widening moves to.
    pub widening_treshold: A,
}

impl<A: AbstractProperties> Params<A> {
    /// No unrolling, no widening, no delay, and `Top` as threshold.
    pub fn no_widening() -> (r: Params<A>)
        ensures
            r.loop_unrollings == 0,
            !r.use_widening,
            r.widening_delays == 0,
            r.widening_treshold == A::spec_top(),
    {
        Params {
            use_widening: false,
            loop_unrollings: 0,
            widening_delays: 0,
            widening_treshold: A::top(),
        }
    }
}

/// The index of the last round of a loop's fixpoint iteration: the iteration
/// stops there even when it has not reached a post-fixpoint.
pub const LAST_ROUND: u32 = 52;

/// The value of `x` in `m`, with `Top` bound to `x` first when it is missing.
pub open spec fn lookup_or_top<A: AbstractProperties>(m: Map<Seq<char>, A>, x: Seq<char>) -> (
    A,
    Map<Seq<char>, A>,
) {
    if m.contains_key(x) {
        (m[x], m)
    } else {
        (A::spec_top(), m.insert(x, A::spec_top()))
    }
}

/// Abstract evaluation of an expression: its value, and the memory with
/// `Top` bound to each variable it read that was missing.
pub open spec fn eval_sexpr<A: AbstractProperties>(e: SExpr, m: Map<Seq<char>, A>) -> (
    A,
    Map<Seq<char>, A>,
)
    decreases e,
{
    match e {
        SExpr::CExpr(c) => (A::spec_from_const(c.value()), m),
        SExpr::VExpr(v) => lookup_or_top(m, v.name()),
        SExpr::Neg(e1) => {
            let (a, m1) = eval_sexpr(*e1, m);
            (A::spec_neg(a), m1)
        },
        SExpr::Add(e1, e2) => {
            let (a1, m1) = eval_sexpr(*e1, m);
            let (a2, m2) = eval_sexpr(*e2, m1);
            (A::spec_add(a1, a2), m2)
        },
        SExpr::Sub(e1, e2) => {
            let (a1, m1) = eval_sexpr(*e1, m);
            let (a2, m2) = eval_sexpr(*e2, m1);
            (A::spec_sub(a1, a2), m2)
        },
        SExpr::Mul(e1, e2) => {
            let (a1, m1) = eval_sexpr(*e1, m);
            let (a2, m2) = eval_sexpr(*e2, m1);
            (A::spec_mul(a1, a2), m2)
        },
        SExpr::Div(e1, e2) => {
            let (a1, m1) = eval_sexpr(*e1, m);
            let (a2, m2) = eval_sexpr(*e2, m1);
            (A::spec_div(a1, a2), m2)
        },
    }
}

/// The memory with every bound variable set to `Bottom`: an unreachable state.
pub open spec fn all_bottom<A: AbstractProperties>(m: Map<Seq<char>, A>) -> Map<Seq<char>, A> {
    Map::new(|k: Seq<char>| m.contains_key(k), |k: Seq<char>| A::spec_bottom())
}

/// Filtering by the guard `x op n`: the value of `x` is refined when the
/// guard may hold, and the whole memory becomes unreachable when it cannot.
pub open spec fn filter_mem<A: AbstractProperties>(
    m: Map<Seq<char>, A>,
    op: CmpOp,
    x: Seq<char>,
    n: i64,
) -> Map<Seq<char>, A> {
    let (a, m1) = lookup_or_top(m, x);
    if A::spec_sat(a, op, n) {
        m1.insert(x, A::spec_refine(a, op, n))
    } else {
        all_bottom(m1)
    }
}

/// Filtering by a guard.
pub open spec fn filter_by<A: AbstractProperties>(m: Map<Seq<char>, A>, b: BExpr) -> Map<
    Seq<char>,
    A,
> {
    filter_mem(m, b.op(), b.ident(), b.number())
}

/// Filtering by the negation of a guard.
pub open spec fn filter_by_not<A: AbstractProperties>(m: Map<Seq<char>, A>, b: BExpr) -> Map<
    Seq<char>,
    A,
> {
    filter_mem(m, crate::command_parser::negate_op(b.op()), b.ident(), b.number())
}

/// The join of two memories: shared variables are joined, the others keep
/// the value of the memory that binds them.
pub open spec fn join_mem<A: AbstractProperties>(m: Map<Seq<char>, A>, o: Map<Seq<char>, A>) -> Map<
    Seq<char>,
    A,
> {
    Map::new(
        |k: Seq<char>| m.contains_key(k) || o.contains_key(k),
        |k: Seq<char>|
            if m.contains_key(k) && o.contains_key(k) {
                A::spec_join(m[k], o[k])
            } else if o.contains_key(k) {
                o[k]
            } else {
                m[k]
            },
    )
}

/// The widening of the previous memory `o` by the next one `m`, variable by
/// variable; a variable bound in one memory only keeps its value.
pub open spec fn widen_mem<A: AbstractProperties>(
    m: Map<Seq<char>, A>,
    o: Map<Seq<char>, A>,
    t: A,
) -> Map<Seq<char>, A> {
    Map::new(
        |k: Seq<char>| m.contains_key(k) || o.contains_key(k),
        |k: Seq<char>|
            if m.contains_key(k) && o.contains_key(k) {
                A::spec_widen(o[k], m[k], t)
            } else if o.contains_key(k) {
                o[k]
            } else {
                m[k]
            },
    )
}

/// Inclusion of memories: each variable bound in both has in `m` a value
/// that includes its value in `o`; a variable missing from `m` is `Top`.
pub open spec fn includes_mem<A: AbstractProperties>(
    m: Map<Seq<char>, A>,
    o: Map<Seq<char>, A>,
) -> bool {
    forall|k: Seq<char>|
        #![trigger o[k], m[k]]
        o.contains_key(k) && m.contains_key(k) ==> A::spec_includes(m[k], o[k])
}

/// The analysis of a command from the memory `m`.
pub open spec fn analyze<A: AbstractProperties>(c: Command, m: Map<Seq<char>, A>, p: Params<A>) -> Map<
    Seq<char>,
    A,
>
    decreases c, 0nat,
{
    match c {
        Command::Skip => m,
        Command::Sequence(c1, c2) => analyze(*c2, analyze(*c1, m, p), p),
        Command::Assign(v, e) => if m.contains_key(v.name()) && m[v.name()] == A::spec_bottom() {
            m
        } else {
            let (a, m1) = eval_sexpr(e, m);
            m1.insert(v.name(), a)
        },
        Command::Input(v) => m.insert(v.name(), A::spec_top()),
        Command::If(b, c1, c2) => {
            let m1 = analyze(*c1, filter_by(m, b), p);
            let m2 = analyze(*c2, filter_by_not(m, b), p);
            join_mem(m2, m1)
        },
        Command::While(b, body) => {
            let m0 = unroll(*body, m, p, p.loop_unrollings as nat);
            filter_by_not(kleene(b, *body, m0, p, 0, 0), b)
        },
    }
}

/// `n` analyses of a loop body, one after the other.
pub open spec fn unroll<A: AbstractProperties>(
    body: Command,
    m: Map<Seq<char>, A>,
    p: Params<A>,
    n: nat,
) -> Map<Seq<char>, A>
    decreases body, n,
{
    if n == 0 {
        m
    } else {
        unroll(body, analyze(body, m, p), p, (n - 1) as nat)
    }
}

/// Whether round `joins` of a fixpoint iteration widens rather than joins.
pub open spec fn widens_now<A: AbstractProperties>(p: Params<A>, joins: nat) -> bool {
    p.use_widening && joins >= p.widening_delays
}

/// One round of the fixpoint iteration of `while (b) { body }` from `m`:
/// filter by the guard, analyse the body, and join (or widen) with `m`.
pub open spec fn kleene_step<A: AbstractProperties>(
    b: BExpr,
    body: Command,
    m: Map<Seq<char>, A>,
    p: Params<A>,
    joins: nat,
) -> Map<Seq<char>, A>
    decreases body, 1nat,
{
    let n = analyze(body, filter_by(m, b), p);
    if widens_now(p, joins) {
        widen_mem(n, m, p.widening_treshold)
    } else {
        join_mem(n, m)
    }
}

/// The fixpoint iteration from round `i` with `joins` joins done: it stops
/// at a post-fixpoint, or after round `LAST_ROUND`.
pub open spec fn kleene<A: AbstractProperties>(
    b: BExpr,
    body: Command,
    m: Map<Seq<char>, A>,
    p: Params<A>,
    i: nat,
    joins: nat,
) -> Map<Seq<char>, A>
    decreases body, 2nat + LAST_ROUND - i,
{
    if i > LAST_ROUND {
        m
    } else {
        let n = kleene_step(b, body, m, p, joins);
        let joins2 = if widens_now(p, joins) {
            joins
        } else {
            joins + 1
        };
        if includes_mem(m, n) || i == LAST_ROUND {
            n
        } else {
            kleene(b, body, n, p, i + 1, joins2)
        }
    }
}

/// An abstract memory: a finite map from variable names to abstract values.
#[derive(Debug)]
pub struct MemoryState<A> {
    keys: Vec<String>,
    vals: Vec<A>,
}

impl<A> MemoryState<A> {
    pub closed spec fn has_key(&self, k: Seq<char>) -> bool {
        exists|i: int| 0 <= i < self.keys.len() && self.keys[i]@ == k
    }

    pub closed spec fn index_of(&self, k: Seq<char>) -> int {
        choose|i: int| 0 <= i < self.keys.len() && self.keys[i]@ == k
    }
}

impl<A> View for MemoryState<A> {
    type V = Map<Seq<char>, A>;

    closed spec fn view(&self) -> Map<Seq<char>, A> {
        Map::new(|k: Seq<char>| self.has_key(k), |k: Seq<char>| self.vals[self.index_of(k)])
    }
}

impl<A: AbstractProperties> MemoryState<A> {
    /// Keys unique, one value per key, every value well formed.
    pub closed spec fn wf(&self) -> bool {
        &&& self.keys.len() == self.vals.len()
        &&& forall|i: int, j: int|
            0 <= i < j < self.keys.len() ==> self.keys[i]@ != self.keys[j]@
        &&& forall|i: int| 0 <= i < self.vals.len() ==> A::wf(#[trigger] self.vals[i])
    }

    proof fn lemma_entry(&self, i: int)
        requires
            self.wf(),
            0 <= i < self.keys.len(),
        ensures
            self@.contains_key(self.keys[i]@),
            self@[self.keys[i]@] == self.vals[i],
            self.index_of(self.keys[i]@) == i,
    {
        let k = self.keys[i]@;
        assert(self.has_key(k));
        let j = self.index_of(k);
        assert(self.keys[j]@ == k);
        if j < i {
            assert(self.keys[j]@ != self.keys[i]@);
        } else if i < j {
            assert(self.keys[i]@ != self.keys[j]@);
        }
    }

    proof fn lemma_values_wf(&self)
        requires
            self.wf(),
        ensures
            forall|k: Seq<char>| #[trigger] self@.contains_key(k) ==> A::wf(self@[k]),
    {
        assert forall|k: Seq<char>| #[trigger] self@.contains_key(k) implies A::wf(self@[k]) by {
            let i = self.index_of(k);
            self.lemma_entry(i);
        }
    }

    /// The empty memory.
    pub fn new() -> (r: MemoryState<A>)
        ensures
            r.wf(),
            r@ == Map::<Seq<char>, A>::empty(),
    {
        let r = MemoryState { keys: Vec::new(), vals: Vec::new() };
        assert(r@ =~= Map::<Seq<char>, A>::empty());
        r
    }

    /// Where `x` is bound, its position.
    fn find(&self, x: &String) -> (r: Option<usize>)
        requires
            self.wf(),
        ensures
            match r {
                Some(i) => i < self.keys.len() && self.keys[i as int]@ == x@,
                None => !self@.contains_key(x@),
            },
    {
        let mut i: usize = 0;
        while i < self.keys.len()
            invariant
                self.wf(),
                i <= self.keys.len(),
                forall|j: int| 0 <= j < i ==> self.keys[j]@ != x@,
            decreases self.keys.len() - i,
        {
            if self.keys[i] == *x {
                return Some(i);
            }
            i += 1;
        }
        None
    }

    /// The value bound to `var`, if any.
    pub fn lookup_var(&self, var: &str) -> (r: Option<&A>)
        requires
            self.wf(),
        ensures
            match r {
                Some(a) => self@.contains_key(var@) && *a == self@[var@],
                None => !self@.contains_key(var@),
            },
    {
        let name = var.to_owned();
        match self.find(&name) {
            Some(i) => {
                proof {
                    self.lemma_entry(i as int);
                }
                Some(&self.vals[i])
            },
            None => None,
        }
    }

    /// Binds `x` to `a`, replacing its value if it is bound.
    pub fn insert(&mut self, x: &String, a: A)
        requires
            old(self).wf(),
            A::wf(a),
        ensures
            final(self).wf(),
            final(self)@ == old(self)@.insert(x@, a),
    {
        match self.find(x) {
            Some(i) => {
                let ghost pre = *self;
                proof {
                    pre.lemma_entry(i as int);
                }
                self.vals.set(i, a);
                assert forall|q: Seq<char>| #[trigger] self.has_key(q) == pre.has_key(q) by {
                    if self.has_key(q) {
                        let j = self.index_of(q);
                        assert(pre.keys[j]@ == q);
                    }
                    if pre.has_key(q) {
                        let j = pre.index_of(q);
                        assert(self.keys[j]@ == q);
                    }
                }
                assert forall|q: Seq<char>| #[trigger] self.has_key(q) implies self.vals[self.index_of(
                    q,
                )] == pre@.insert(x@, a)[q] by {
                    let j = self.index_of(q);
                    self.lemma_entry(j);
                    pre.lemma_entry(j);
                }
                assert(self@ =~= pre@.insert(x@, a));
            },
            None => {
                let ghost pre = *self;
                self.keys.push(x.clone());
                self.vals.push(a);
                assert forall|i: int, j: int|
                    0 <= i < j < self.keys.len() implies self.keys[i]@ != self.keys[j]@ by {
                    if j == pre.keys.len() {
                        pre.lemma_entry(i);
                    }
                }
                assert forall|q: Seq<char>| #[trigger] self.has_key(q) == (pre.has_key(q) || q
                    == x@) by {
                    if self.has_key(q) {
                        let j = self.index_of(q);
                        if j < pre.keys.len() {
                            assert(pre.keys[j]@ == q);
                        }
                    }
                    if pre.has_key(q) {
                        let j = pre.index_of(q);
                        assert(self.keys[j]@ == q);
                    }
                    if q == x@ {
                        assert(self.keys[pre.keys.len() as int]@ == q);
                    }
                }
                assert forall|q: Seq<char>| #[trigger] self.has_key(q) implies self.vals[self.index_of(
                    q,
                )] == pre@.insert(x@, a)[q] by {
                    let j = self.index_of(q);
                    self.lemma_entry(j);
                    if j < pre.keys.len() {
                        pre.lemma_entry(j);
                    }
                }
                assert(self@ =~= pre@.insert(x@, a));
            },
        }
    }

    /// The value of `ident`; `Top` is bound to it first when it is missing.
    fn get_from_state_or_insert_default(&mut self, ident: &String) -> (r: A)
        requires
            old(self).wf(),
        ensures
            final(self).wf(),
            A::wf(r),
            (r, final(self)@) == lookup_or_top(old(self)@, ident@),
    {
        match self.find(ident) {
            Some(i) => {
                proof {
                    self.lemma_entry(i as int);
                }
                self.vals[i]
            },
            None => {
                let t = A::top();
                self.insert(ident, t);
                t
            },
        }
    }

    /// A copy of this memory.
    pub fn copy(&self) -> (r: MemoryState<A>)
        requires
            self.wf(),
        ensures
            r.wf(),
            r@ == self@,
    {
        let mut keys: Vec<String> = Vec::new();
        let mut vals: Vec<A> = Vec::new();
        let mut i: usize = 0;
        while i < self.keys.len()
            invariant
                self.wf(),
                i <= self.keys.len(),
                keys.len() == i,
                vals.len() == i,
                forall|j: int| 0 <= j < i ==> #[trigger] keys[j]@ == self.keys[j]@,
                forall|j: int| 0 <= j < i ==> #[trigger] vals[j] == self.vals[j],
            decreases self.keys.len() - i,
        {
            keys.push(self.keys[i].clone());
            vals.push(self.vals[i]);
            i += 1;
        }
        let r = MemoryState { keys, vals };
        assert forall|q: Seq<char>| #[trigger] r.has_key(q) == self.has_key(q) by {
            if r.has_key(q) {
                let j = r.index_of(q);
                assert(self.keys[j]@ == q);
            }
            if self.has_key(q) {
                let j = self.index_of(q);
                assert(r.keys[j]@ == q);
            }
        }
        assert forall|q: Seq<char>| #[trigger] r.has_key(q) implies r.vals[r.index_of(q)]
            == self@[q] by {
            let j = r.index_of(q);
            r.lemma_entry(j);
            self.lemma_entry(j);
        }
        assert(r@ =~= self@);
        r
    }

    /// Makes the memory unreachable: every bound variable becomes `Bottom`.
    fn set_all_vars_to_bottom(&mut self)
        requires
            old(self).wf(),
        ensures
            final(self).wf(),
            final(self)@ == all_bottom(old(self)@),
    {
        let ghost pre = *self;
        let bot = A::bottom();
        let mut i: usize = 0;
        while i < self.vals.len()
            invariant
                pre.wf(),
                self.keys == pre.keys,
                self.vals.len() == pre.vals.len(),
                i <= self.vals.len(),
                bot == A::spec_bottom(),
                A::wf(bot),
                forall|j: int| 0 <= j < i ==> self.vals[j] == bot,
                forall|j: int| i <= j < self.vals.len() ==> self.vals[j] == pre.vals[j],
            decreases self.vals.len() - i,
        {
            self.vals.set(i, bot);
            i += 1;
        }
        assert forall|q: Seq<char>| #[trigger] self.has_key(q) implies self.vals[self.index_of(q)]
            == bot by {
            let j = self.index_of(q);
        }
        assert(self@ =~= all_bottom(pre@));
    }
}

impl<A: AbstractProperties> MemoryState<A> {
    /// Abstract evaluation of an expression; `Top` is bound to each missing
    /// variable it reads.
    fn interprete_sexpr(&mut self, sexpr: &SExpr) -> (r: A)
        requires
            old(self).wf(),
        ensures
            final(self).wf(),
            A::wf(r),
            (r, final(self)@) == eval_sexpr(*sexpr, old(self)@),
        decreases sexpr,
    {
        match sexpr {
            SExpr::CExpr(Const::Const(number)) => A::from_const(*number),
            SExpr::VExpr(Var::Var(ident)) => self.get_from_state_or_insert_default(ident),
            SExpr::Neg(e) => {
                let a = self.interprete_sexpr(e);
                A::neg(&a)
            },
            SExpr::Add(e1, e2) => {
                let a1 = self.interprete_sexpr(e1);
                let a2 = self.interprete_sexpr(e2);
                A::add(&a1, &a2)
            },
            SExpr::Sub(e1, e2) => {
                let a1 = self.interprete_sexpr(e1);
                let a2 = self.interprete_sexpr(e2);
                A::sub(&a1, &a2)
            },
            SExpr::Mul(e1, e2) => {
                let a1 = self.interprete_sexpr(e1);
                let a2 = self.interprete_sexpr(e2);
                A::mul(&a1, &a2)
            },
            SExpr::Div(e1, e2) => {
                let a1 = self.interprete_sexpr(e1);
                let a2 = self.interprete_sexpr(e2);
                A::div(&a1, &a2)
            },
        }
    }

    /// Filtering by a guard: refines the tested variable where the guard may
    /// hold, makes the memory unreachable where it cannot.
    fn filter(&mut self, bexpr: &BExpr)
        requires
            old(self).wf(),
        ensures
            final(self).wf(),
            final(self)@ == filter_by(old(self)@, *bexpr),
    {
        let ident = bexpr.get_ident();
        let a = self.get_from_state_or_insert_default(ident);
        if A::sat(&a, bexpr) {
            let a_filtered = A::refine(&a, bexpr);
            self.insert(ident, a_filtered);
        } else {
            self.set_all_vars_to_bottom();
        }
    }

    /// Joins `other` into this memory, or widens it by this memory when
    /// `use_widening` holds.
    fn join_state(&mut self, other: &MemoryState<A>, use_widening: bool, widening_treshold: &A)
        requires
            old(self).wf(),
            other.wf(),
            A::wf(*widening_treshold),
        ensures
            final(self).wf(),
            final(self)@ == (if use_widening {
                widen_mem(old(self)@, other@, *widening_treshold)
            } else {
                join_mem(old(self)@, other@)
            }),
    {
        let ghost pre = self@;
        let ghost target = if use_widening {
            widen_mem(pre, other@, *widening_treshold)
        } else {
            join_mem(pre, other@)
        };
        proof {
            other.lemma_values_wf();
        }
        let mut j: usize = 0;
        while j < other.keys.len()
            invariant
                self.wf(),
                other.wf(),
                A::wf(*widening_treshold),
                j <= other.keys.len(),
                target == (if use_widening {
                    widen_mem(pre, other@, *widening_treshold)
                } else {
                    join_mem(pre, other@)
                }),
                forall|k: Seq<char>| #[trigger] other@.contains_key(k) ==> A::wf(other@[k]),
                forall|t: int|
                    0 <= t < j ==> #[trigger] self@.contains_key(other.keys[t]@) && self@[other.keys[t]@]
                        == target[other.keys[t]@],
                forall|k: Seq<char>|
                    (forall|t: int| 0 <= t < j ==> other.keys[t]@ != k) ==> (#[trigger] self@.contains_key(k)
                        == pre.contains_key(k) && (pre.contains_key(k) ==> self@[k] == pre[k])),
            decreases other.keys.len() - j,
        {
            let ghost before = self@;
            let a_other = other.vals[j];
            let ghost k = other.keys[j as int]@;
            proof {
                other.lemma_entry(j as int);
                assert forall|t: int| 0 <= t < j implies other.keys[t]@ != k by {}
            }
            let a_new = match self.find(&other.keys[j]) {
                Some(i) => {
                    let a_self = self.vals[i];
                    proof {
                        self.lemma_entry(i as int);
                        self.lemma_values_wf();
                    }
                    if use_widening {
                        A::widen(&a_other, &a_self, widening_treshold)
                    } else {
                        A::join(&a_self, &a_other)
                    }
                },
                None => a_other,
            };
            assert(a_new == target[k]);
            self.insert(&other.keys[j], a_new);
            j += 1;
            proof {
                assert forall|t: int| 0 <= t < j implies #[trigger] self@.contains_key(
                    other.keys[t]@,
                ) && self@[other.keys[t]@] == target[other.keys[t]@] by {
                    if t < j - 1 {
                        other.lemma_entry(t);
                        assert(other.keys[t]@ != k);
                        assert(before.contains_key(other.keys[t]@));
                    }
                }
                assert forall|q: Seq<char>|
                    (forall|t: int| 0 <= t < j ==> other.keys[t]@ != q) implies (
                    #[trigger] self@.contains_key(q) == pre.contains_key(q) && (pre.contains_key(q)
                        ==> self@[q] == pre[q])) by {
                    assert(other.keys[j - 1]@ != q);
                    assert(forall|t: int| 0 <= t < j - 1 ==> other.keys[t]@ != q);
                    assert(before.contains_key(q) == pre.contains_key(q));
                }
            }
        }
        proof {
            assert forall|q: Seq<char>| #[trigger] self@.contains_key(q) == target.contains_key(q)
                && (self@.contains_key(q) ==> self@[q] == target[q]) by {
                if other@.contains_key(q) {
                    let t = other.index_of(q);
                    other.lemma_entry(t);
                } else {
                    assert forall|t: int| 0 <= t < other.keys.len() implies other.keys[t]@ != q by {
                        other.lemma_entry(t);
                    }
                }
            }
            assert(self@ =~= target);
        }
    }

    /// Whether each variable bound in both memories has here a value that
    /// includes its value in `other`.
    fn includes(&self, other: &MemoryState<A>) -> (r: bool)
        requires
            self.wf(),
            other.wf(),
        ensures
            r == includes_mem(self@, other@),
    {
        proof {
            self.lemma_values_wf();
            other.lemma_values_wf();
        }
        let mut j: usize = 0;
        while j < other.keys.len()
            invariant
                self.wf(),
                other.wf(),
                j <= other.keys.len(),
                forall|k: Seq<char>| #[trigger] self@.contains_key(k) ==> A::wf(self@[k]),
                forall|k: Seq<char>| #[trigger] other@.contains_key(k) ==> A::wf(other@[k]),
                forall|t: int|
                    0 <= t < j ==> #[trigger] self@.contains_key(other.keys[t]@) ==> A::spec_includes(
                        self@[other.keys[t]@],
                        other@[other.keys[t]@],
                    ),
            decreases other.keys.len() - j,
        {
            proof {
                other.lemma_entry(j as int);
            }
            match self.find(&other.keys[j]) {
                Some(i) => {
                    proof {
                        self.lemma_entry(i as int);
                    }
                    if !A::first_includes_second(&self.vals[i], &other.vals[j]) {
                        return false;
                    }
                },
                None => {},
            }
            j += 1;
        }
        proof {
            assert forall|k: Seq<char>|
                other@.contains_key(k) && self@.contains_key(k) implies A::spec_includes(
                self@[k],
                other@[k],
            ) by {
                let t = other.index_of(k);
                other.lemma_entry(t);
                assert(self@.contains_key(other.keys[t]@));
            }
        }
        true
    }
}

impl<A: AbstractProperties> MemoryState<A> {
    /// Analyses the command `c` from this memory, which becomes the abstract
    /// state at the command's exit.
    pub fn analyze_command(&mut self, c: &Command, params: &Params<A>)
        requires
            old(self).wf(),
            A::wf(params.widening_treshold),
        ensures
            final(self).wf(),
            final(self)@ == analyze(*c, old(self)@, *params),
        decreases c,
    {
        match c {
            Command::Skip => {},
            Command::Sequence(c1, c2) => {
                self.analyze_command(c1, params);
                self.analyze_command(c2, params);
            },
            Command::Assign(Var::Var(ident), sexpr) => {
                let reachable = match self.find(ident) {
                    Some(i) => {
                        proof {
                            self.lemma_entry(i as int);
                        }
                        !A::is_bottom(&self.vals[i])
                    },
                    None => true,
                };
                if reachable {
                    let a = self.interprete_sexpr(sexpr);
                    self.insert(ident, a);
                }
            },
            Command::Input(Var::Var(ident)) => {
                let t = A::top();
                self.insert(ident, t);
            },
            Command::If(bexpr, c1, c2) => {
                let mut m1 = self.copy();
                m1.filter(bexpr);
                m1.analyze_command(c1, params);
                let not_b = bexpr.negate();
                self.filter(&not_b);
                self.analyze_command(c2, params);
                self.join_state(&m1, false, &params.widening_treshold);
            },
            Command::While(bexpr, body) => {
                let ghost m_start = self@;
                let mut k: u8 = 0;
                #[verifier::loop_isolation(false)]
                while k < params.loop_unrollings
                    invariant
                        self.wf(),
                        A::wf(params.widening_treshold),
                        k <= params.loop_unrollings,
                        unroll(**body, self@, *params, (params.loop_unrollings - k) as nat)
                            == unroll(**body, m_start, *params, params.loop_unrollings as nat),
                    decreases params.loop_unrollings - k,
                {
                    self.analyze_command(body, params);
                    k += 1;
                }
                assert(self@ == unroll(**body, m_start, *params, params.loop_unrollings as nat));
                let ghost target = kleene(*bexpr, **body, self@, *params, 0, 0);
                let mut i: u32 = 0;
                let mut nr_of_joins: u32 = 0;
                #[verifier::loop_isolation(false)]
                loop
                    invariant
                        self.wf(),
                        i <= LAST_ROUND,
                        nr_of_joins <= i,
                        kleene(*bexpr, **body, self@, *params, i as nat, nr_of_joins as nat)
                            == target,
                    decreases LAST_ROUND - i,
                {
                    let ghost joins0 = nr_of_joins as nat;
                    let prev_m = self.copy();
                    self.filter(bexpr);
                    self.analyze_command(body, params);
                    if params.use_widening && nr_of_joins >= params.widening_delays as u32 {
                        self.join_state(&prev_m, true, &params.widening_treshold);
                    } else {
                        self.join_state(&prev_m, false, &params.widening_treshold);
                        nr_of_joins += 1;
                    }
                    assert(self@ == kleene_step(*bexpr, **body, prev_m@, *params, joins0));
                    if prev_m.includes(self) || i == LAST_ROUND {
                        assert(self@ == target);
                        break;
                    }
                    i += 1;
                }
                assert(self@ == target);
                let not_b = bexpr.negate();
                self.filter(&not_b);
            },
        }
    }
}

/// The memory that a list of bindings describes; a later binding of a
/// variable replaces an earlier one.
pub open spec fn bindings_map<A>(s: Seq<(String, A)>) -> Map<Seq<char>, A>
    decreases s.len(),
{
    if s.len() == 0 {
        Map::empty()
    } else {
        bindings_map(s.drop_last()).insert(s.last().0@, s.last().1)
    }
}

impl<A: AbstractProperties> MemoryState<A> {
    /// The memory holding the given bindings.
    pub fn from_state(state: Vec<(String, A)>) -> (r: MemoryState<A>)
        requires
            forall|i: int| 0 <= i < state.len() ==> A::wf(#[trigger] state[i].1),
        ensures
            r.wf(),
            r@ == bindings_map(state@),
    {
        let mut r = MemoryState::new();
        let mut i: usize = 0;
        while i < state.len()
            invariant
                r.wf(),
                i <= state.len(),
                forall|j: int| 0 <= j < state.len() ==> A::wf(#[trigger] state[j].1),
                r@ == bindings_map(state@.take(i as int)),
            decreases state.len() - i,
        {
            let ghost before = r@;
            r.insert(&state[i].0, state[i].1);
            assert(state@.take(i + 1).drop_last() =~= state@.take(i as int));
            i += 1;
        }
        assert(state@.take(i as int) =~= state@);
        r
    }

    /// Whether the two memories bind the same variables to the same values.
    pub fn same_bindings(&self, other: &MemoryState<A>) -> (r: bool)
        requires
            self.wf(),
            other.wf(),
        ensures
            r == (self@ == other@),
    {
        let mut i: usize = 0;
        while i < self.keys.len()
            invariant
                self.wf(),
                other.wf(),
                i <= self.keys.len(),
                forall|t: int|
                    0 <= t < i ==> (#[trigger] other@.contains_key(self.keys[t]@)) && other@[self.keys[t]@]
                        == self@[self.keys[t]@],
            decreases self.keys.len() - i,
        {
            proof {
                self.lemma_entry(i as int);
            }
            match other.find(&self.keys[i]) {
                Some(j) => {
                    proof {
                        other.lemma_entry(j as int);
                    }
                    if !A::equals(&self.vals[i], &other.vals[j]) {
                        return false;
                    }
                },
                None => {
                    return false;
                },
            }
            i += 1;
            proof {
                assert forall|t: int| 0 <= t < i implies (#[trigger] other@.contains_key(
                    self.keys[t]@,
                )) && other@[self.keys[t]@] == self@[self.keys[t]@] by {
                    if t == i - 1 {
                        self.lemma_entry(t);
                        assert(other@.contains_key(self.keys[t]@));
                        assert(other@[self.keys[t]@] == self@[self.keys[t]@]);
                    } else {
                        assert(0 <= t < i - 1);
                        assert(other@.contains_key(self.keys[t]@));
                    }
                }
            }
        }
        let mut j: usize = 0;
        while j < other.keys.len()
            invariant
                self.wf(),
                other.wf(),
                j <= other.keys.len(),
                forall|t: int| 0 <= t < j ==> #[trigger] self@.contains_key(other.keys[t]@),
            decreases other.keys.len() - j,
        {
            proof {
                other.lemma_entry(j as int);
            }
            match self.find(&other.keys[j]) {
                Some(_) => {},
                None => {
                    return false;
                },
            }
            j += 1;
        }
        proof {
            assert forall|k: Seq<char>| #[trigger] self@.contains_key(k) implies other@.contains_key(k)
                && other@[k] == self@[k] by {
                let t = self.index_of(k);
                self.lemma_entry(t);
            }
            assert forall|k: Seq<char>| #[trigger] other@.contains_key(k) implies self@.contains_key(
                k,
            ) by {
                let t = other.index_of(k);
                other.lemma_entry(t);
            }
            assert(self@ =~= other@);
        }
        true
    }
}

/// Whether the value `a` passes the test `a op n` of the concrete
/// interpretation: the domain's order for `<`, `<=`, `>`, `>=`, and equality
/// with the injected constant for `==` and `!=`.
pub open spec fn passes<A: AbstractProperties>(a: A, op: CmpOp, n: i64) -> bool {
    let c = A::spec_compare(a, A::spec_from_const(n));
    match op {
        CmpOp::GE => c == Some(core::cmp::Ordering::Greater) || c == Some(core::cmp::Ordering::Equal),
        CmpOp::GT => c == Some(core::cmp::Ordering::Greater),
        CmpOp::LE => c == Some(core::cmp::Ordering::Less) || c == Some(core::cmp::Ordering::Equal),
        CmpOp::LT => c == Some(core::cmp::Ordering::Less),
        CmpOp::EQ => a == A::spec_from_const(n),
        CmpOp::NE => a != A::spec_from_const(n),
    }
}

/// The outcome of a guard in the concrete interpretation, and the memory
/// with `Top` bound to the tested variable if it was missing.
pub open spec fn test_guard<A: AbstractProperties>(m: Map<Seq<char>, A>, b: BExpr) -> (
    bool,
    Map<Seq<char>, A>,
) {
    let (a, m1) = lookup_or_top(m, b.ident());
    (passes(a, b.op(), b.number()), m1)
}

/// The concrete interpretation of `c` from `m`, in which each loop may run
/// its body at most `fuel` times in a row; `None` when a loop would go on.
pub open spec fn interp<A: AbstractProperties>(c: Command, m: Map<Seq<char>, A>, fuel: nat) -> Option<
    Map<Seq<char>, A>,
>
    decreases c, 0nat,
{
    match c {
        Command::Skip => Some(m),
        Command::Sequence(c1, c2) => match interp(*c1, m, fuel) {
            Some(m1) => interp(*c2, m1, fuel),
            None => None,
        },
        Command::Assign(v, e) => {
            let (a, m1) = eval_sexpr(e, m);
            Some(m1.insert(v.name(), a))
        },
        Command::Input(v) => Some(m.insert(v.name(), A::spec_top())),
        Command::If(b, c1, c2) => {
            let (t, m1) = test_guard(m, b);
            if t {
                interp(*c1, m1, fuel)
            } else {
                interp(*c2, m1, fuel)
            }
        },
        Command::While(b, body) => run_loop(b, *body, m, fuel, fuel),
    }
}

/// A loop of the concrete interpretation with at most `k` more rounds.
pub open spec fn run_loop<A: AbstractProperties>(
    b: BExpr,
    body: Command,
    m: Map<Seq<char>, A>,
    fuel: nat,
    k: nat,
) -> Option<Map<Seq<char>, A>>
    decreases body, k,
{
    let (t, m1) = test_guard(m, b);
    if !t {
        Some(m1)
    } else if k == 0 {
        None
    } else {
        match interp(body, m1, fuel) {
            Some(m2) => run_loop(b, body, m2, fuel, (k - 1) as nat),
            None => None,
        }
    }
}

impl<A: AbstractProperties> MemoryState<A> {
    /// The outcome of a guard in the concrete interpretation.
    fn interprete_bexpr(&mut self, bexpr: &BExpr) -> (r: bool)
        requires
            old(self).wf(),
        ensures
            final(self).wf(),
            (r, final(self)@) == test_guard(old(self)@, *bexpr),
    {
        let a = self.get_from_state_or_insert_default(bexpr.get_ident());
        let n = A::from_const(bexpr.get_number());
        let c = A::compare(&a, &n);
        match bexpr.cmp_op() {
            CmpOp::GE => matches!(c, Some(core::cmp::Ordering::Greater) | Some(core::cmp::Ordering::Equal)),
            CmpOp::GT => matches!(c, Some(core::cmp::Ordering::Greater)),
            CmpOp::LE => matches!(c, Some(core::cmp::Ordering::Less) | Some(core::cmp::Ordering::Equal)),
            CmpOp::LT => matches!(c, Some(core::cmp::Ordering::Less)),
            CmpOp::EQ => A::equals(&a, &n),
            CmpOp::NE => !A::equals(&a, &n),
        }
    }

    /// Runs the command `c` from this memory as a program over the domain's
    /// values, each loop running its body at most `max_iterations` times in a
    /// row.  The result says whether the run ended; when it did, the memory
    /// is the state at the command's exit.
    pub fn interprete_command(&mut self, c: &Command, max_iterations: u64) -> (r: bool)
        requires
            old(self).wf(),
        ensures
            final(self).wf(),
            r == interp(*c, old(self)@, max_iterations as nat) is Some,
            r ==> final(self)@ == interp(*c, old(self)@, max_iterations as nat)->0,
        decreases c,
    {
        match c {
            Command::Skip => true,
            Command::Sequence(c1, c2) => {
                if !self.interprete_command(c1, max_iterations) {
                    return false;
                }
                self.interprete_command(c2, max_iterations)
            },
            Command::Assign(Var::Var(ident), sexpr) => {
                let a = self.interprete_sexpr(sexpr);
                self.insert(ident, a);
                true
            },
            Command::Input(Var::Var(ident)) => {
                let t = A::top();
                self.insert(ident, t);
                true
            },
            Command::If(bexpr, c1, c2) => {
                if self.interprete_bexpr(bexpr) {
                    self.interprete_command(c1, max_iterations)
                } else {
                    self.interprete_command(c2, max_iterations)
                }
            },
            Command::While(bexpr, body) => {
                let ghost target = interp(*c, self@, max_iterations as nat);
                let mut k: u64 = max_iterations;
                #[verifier::loop_isolation(false)]
                loop
                    invariant
                        self.wf(),
                        k <= max_iterations,
                        run_loop(*bexpr, **body, self@, max_iterations as nat, k as nat) == target,
                    decreases k,
                {
                    if !self.interprete_bexpr(bexpr) {
                        return true;
                    }
                    if k == 0 {
                        return false;
                    }
                    if !self.interprete_command(body, max_iterations) {
                        return false;
                    }
                    k -= 1;
                }
            },
        }
    }
}

/// The value of `x` in `m`; `Top` where `m` does not bind `x`.
pub open spec fn value_of<A: AbstractProperties>(m: Map<Seq<char>, A>, x: Seq<char>) -> A {
    if m.contains_key(x) {
        m[x]
    } else {
        A::spec_top()
    }
}

/// `m` lies below `n`: each variable's value in `n` includes its value in `m`
/// (a missing variable counting as `Top`).
pub open spec fn mem_le<A: AbstractProperties>(m: Map<Seq<char>, A>, n: Map<Seq<char>, A>) -> bool {
    forall|x: Seq<char>| #[trigger] A::spec_includes(value_of(n, x), value_of(m, x))
}

/// Every value bound in `m` is well formed.
pub open spec fn mem_wf<A: AbstractProperties>(m: Map<Seq<char>, A>) -> bool {
    forall|x: Seq<char>| #[trigger] m.contains_key(x) ==> A::wf(m[x])
}

/// Whether a command holds neither a conditional nor a loop.
pub open spec fn guard_free(c: Command) -> bool
    decreases c,
{
    match c {
        Command::Skip => true,
        Command::Sequence(c1, c2) => guard_free(*c1) && guard_free(*c2),
        Command::Assign(_, _) => true,
        Command::Input(_) => true,
        Command::If(_, _, _) => false,
        Command::While(_, _) => false,
    }
}

proof fn lemma_value_wf<A: AbstractProperties>(m: Map<Seq<char>, A>, x: Seq<char>)
    requires
        mem_wf(m),
    ensures
        A::wf(value_of(m, x)),
{
    A::lemma_constants_wf(0);
    if m.contains_key(x) {
        assert(A::wf(m[x]));
    }
}

/// What the evaluation of `e` from `m` and from `n` gives when `m` lies
/// below `n`: values in the same relation, and memories that differ from
/// the memories they started from only by `Top` bound to missing variables.
pub open spec fn eval_related<A: AbstractProperties>(
    e: SExpr,
    m: Map<Seq<char>, A>,
    n: Map<Seq<char>, A>,
) -> bool {
    let (a, m1) = eval_sexpr(e, m);
    let (b, n1) = eval_sexpr(e, n);
    &&& A::wf(a)
    &&& A::wf(b)
    &&& A::spec_includes(b, a)
    &&& mem_wf(m1)
    &&& mem_wf(n1)
    &&& forall|x: Seq<char>| #[trigger] value_of(m1, x) == value_of(m, x)
    &&& forall|x: Seq<char>| #[trigger] value_of(n1, x) == value_of(n, x)
}

proof fn lemma_le_kept<A: AbstractProperties>(
    m: Map<Seq<char>, A>,
    n: Map<Seq<char>, A>,
    m1: Map<Seq<char>, A>,
    n1: Map<Seq<char>, A>,
)
    requires
        mem_le(m, n),
        forall|x: Seq<char>| #[trigger] value_of(m1, x) == value_of(m, x),
        forall|x: Seq<char>| #[trigger] value_of(n1, x) == value_of(n, x),
    ensures
        mem_le(m1, n1),
{
    assert forall|x: Seq<char>| #[trigger] A::spec_includes(value_of(n1, x), value_of(m1, x)) by {
        assert(value_of(m1, x) == value_of(m, x));
        assert(value_of(n1, x) == value_of(n, x));
    }
}

proof fn lemma_eval_monotone<A: AbstractProperties>(
    e: SExpr,
    m: Map<Seq<char>, A>,
    n: Map<Seq<char>, A>,
)
    requires
        mem_wf(m),
        mem_wf(n),
        mem_le(m, n),
    ensures
        eval_related(e, m, n),
    decreases e,
{
    A::lemma_constants_wf(0);
    match e {
        SExpr::CExpr(c) => {
            let k = A::spec_from_const(c.value());
            A::lemma_constants_wf(c.value());
            A::lemma_inclusion_bounds(k);
        },
        SExpr::VExpr(v) => {
            let x = v.name();
            lemma_value_wf(m, x);
            lemma_value_wf(n, x);
            assert(A::spec_includes(value_of(n, x), value_of(m, x)));
            assert forall|y: Seq<char>| #[trigger]
                value_of(eval_sexpr(e, m).1, y) == value_of(m, y) by {}
            assert forall|y: Seq<char>| #[trigger]
                value_of(eval_sexpr(e, n).1, y) == value_of(n, y) by {}
        },
        SExpr::Neg(e1) => {
            lemma_eval_monotone(*e1, m, n);
            let (a, _) = eval_sexpr(*e1, m);
            let (b, _) = eval_sexpr(*e1, n);
            A::lemma_arithmetic_monotone(a, b, a, b);
            A::lemma_wf_closed(a, a);
            A::lemma_wf_closed(b, b);
        },
        SExpr::Add(e1, e2) => {
            lemma_eval_monotone(*e1, m, n);
            let (a1, m1) = eval_sexpr(*e1, m);
            let (b1, n1) = eval_sexpr(*e1, n);
            lemma_le_kept(m, n, m1, n1);
            lemma_eval_monotone(*e2, m1, n1);
            lemma_binary_step(*e2, a1, b1, m, n, m1, n1);
        },
        SExpr::Sub(e1, e2) => {
            lemma_eval_monotone(*e1, m, n);
            let (a1, m1) = eval_sexpr(*e1, m);
            let (b1, n1) = eval_sexpr(*e1, n);
            lemma_le_kept(m, n, m1, n1);
            lemma_eval_monotone(*e2, m1, n1);
            lemma_binary_step(*e2, a1, b1, m, n, m1, n1);
        },
        SExpr::Mul(e1, e2) => {
            lemma_eval_monotone(*e1, m, n);
            let (a1, m1) = eval_sexpr(*e1, m);
            let (b1, n1) = eval_sexpr(*e1, n);
            lemma_le_kept(m, n, m1, n1);
            lemma_eval_monotone(*e2, m1, n1);
            lemma_binary_step(*e2, a1, b1, m, n, m1, n1);
        },
        SExpr::Div(e1, e2) => {
            lemma_eval_monotone(*e1, m, n);
            let (a1, m1) = eval_sexpr(*e1, m);
            let (b1, n1) = eval_sexpr(*e1, n);
            lemma_le_kept(m, n, m1, n1);
            lemma_eval_monotone(*e2, m1, n1);
            lemma_binary_step(*e2, a1, b1, m, n, m1, n1);
        },
    }
}

/// The second half of a binary operation: from related left operands and
/// related evaluations of the right operand, related results.
proof fn lemma_binary_step<A: AbstractProperties>(
    e2: SExpr,
    a1: A,
    b1: A,
    m: Map<Seq<char>, A>,
    n: Map<Seq<char>, A>,
    m1: Map<Seq<char>, A>,
    n1: Map<Seq<char>, A>,
)
    requires
        A::wf(a1),
        A::wf(b1),
        A::spec_includes(b1, a1),
        forall|x: Seq<char>| #[trigger] value_of(m1, x) == value_of(m, x),
        forall|x: Seq<char>| #[trigger] value_of(n1, x) == value_of(n, x),
        eval_related(e2, m1, n1),
    ensures
        ({
            let (a2, m2) = eval_sexpr(e2, m1);
            let (b2, n2) = eval_sexpr(e2, n1);
            &&& A::spec_includes(A::spec_add(b1, b2), A::spec_add(a1, a2))
            &&& A::spec_includes(A::spec_sub(b1, b2), A::spec_sub(a1, a2))
            &&& A::spec_includes(A::spec_mul(b1, b2), A::spec_mul(a1, a2))
            &&& A::spec_includes(A::spec_div(b1, b2), A::spec_div(a1, a2))
            &&& A::wf(A::spec_add(a1, a2)) && A::wf(A::spec_add(b1, b2))
            &&& A::wf(A::spec_sub(a1, a2)) && A::wf(A::spec_sub(b1, b2))
            &&& A::wf(A::spec_mul(a1, a2)) && A::wf(A::spec_mul(b1, b2))
            &&& A::wf(A::spec_div(a1, a2)) && A::wf(A::spec_div(b1, b2))
            &&& mem_wf(m2)
            &&& mem_wf(n2)
            &&& forall|x: Seq<char>| #[trigger] value_of(m2, x) == value_of(m, x)
            &&& forall|x: Seq<char>| #[trigger] value_of(n2, x) == value_of(n, x)
        }),
{
    let (a2, m2) = eval_sexpr(e2, m1);
    let (b2, n2) = eval_sexpr(e2, n1);
    A::lemma_arithmetic_monotone(a1, b1, a2, b2);
    A::lemma_wf_closed(a1, a2);
    A::lemma_wf_closed(b1, b2);
    assert forall|x: Seq<char>| #[trigger] value_of(m2, x) == value_of(m, x) by {
        assert(value_of(m2, x) == value_of(m1, x));
    }
    assert forall|x: Seq<char>| #[trigger] value_of(n2, x) == value_of(n, x) by {
        assert(value_of(n2, x) == value_of(n1, x));
    }
}

/// For commands without conditionals and loops, the analysis is monotone:
/// a memory below another is analysed into a memory below the other's
/// analysis.  (Refinement by a guard and widening are not monotone, so the
/// law does not extend to commands with guards.)
pub proof fn lemma_analysis_monotone<A: AbstractProperties>(
    c: Command,
    m: Map<Seq<char>, A>,
    n: Map<Seq<char>, A>,
    p: Params<A>,
)
    requires
        guard_free(c),
        mem_wf(m),
        mem_wf(n),
        mem_le(m, n),
    ensures
        mem_le(analyze(c, m, p), analyze(c, n, p)),
        mem_wf(analyze(c, m, p)),
        mem_wf(analyze(c, n, p)),
    decreases c,
{
    let t = A::spec_top();
    let bot = A::spec_bottom();
    A::lemma_constants_wf(0);
    A::lemma_inclusion_bounds(t);
    match c {
        Command::Skip => {},
        Command::Sequence(c1, c2) => {
            lemma_analysis_monotone(*c1, m, n, p);
            lemma_analysis_monotone(*c2, analyze(*c1, m, p), analyze(*c1, n, p), p);
        },
        Command::Input(v) => {
            let x = v.name();
            assert forall|y: Seq<char>| #[trigger]
                A::spec_includes(value_of(n.insert(x, t), y), value_of(m.insert(x, t), y)) by {
                if y != x {
                    assert(A::spec_includes(value_of(n, y), value_of(m, y)));
                }
            }
        },
        Command::Assign(v, e) => {
            let x = v.name();
            lemma_eval_monotone(e, m, n);
            let (a, m1) = eval_sexpr(e, m);
            let (b, n1) = eval_sexpr(e, n);
            let mb = m.contains_key(x) && m[x] == bot;
            let nb = n.contains_key(x) && n[x] == bot;
            lemma_value_wf(m, x);
            lemma_value_wf(n, x);
            A::lemma_inclusion_bounds(value_of(m, x));
            A::lemma_inclusion_bounds(b);
            assert(A::spec_includes(value_of(n, x), value_of(m, x)));
            if nb {
                assert(mb);
            } else if mb {
                assert forall|y: Seq<char>| #[trigger]
                    A::spec_includes(value_of(n1.insert(x, b), y), value_of(m, y)) by {
                    if y != x {
                        assert(value_of(n1, y) == value_of(n, y));
                        assert(A::spec_includes(value_of(n, y), value_of(m, y)));
                    }
                }
            } else {
                assert forall|y: Seq<char>| #[trigger]
                    A::spec_includes(value_of(n1.insert(x, b), y), value_of(m1.insert(x, a), y)) by {
                    if y != x {
                        assert(value_of(n1, y) == value_of(n, y));
                        assert(value_of(m1, y) == value_of(m, y));
                        assert(A::spec_includes(value_of(n, y), value_of(m, y)));
                    }
                }
            }
        },
        _ => {},
    }
}

} // verus!
