use vstd::prelude::*;

verus! {

/// The mathematical value of an expression tree.
pub enum Term {
    Sym(Seq<char>),
    Sen(Seq<Term>),
    App(Seq<char>, Seq<Term>),
}

/// An expression tree: a symbol, a run of expressions, or a named call.
#[derive(Debug, PartialEq, Eq, Hash)]
pub enum Expr {
    Symbol(String),
    Sentence(Vec<Expr>),
    Fun(String, Vec<Expr>),
}

/// The terms of a sequence of expressions, element by element.
pub open spec fn views(s: Seq<Expr>) -> Seq<Term>
    decreases s,
{
    Seq::new(s.len(), |i: int| if 0 <= i < s.len() { s[i].view() } else { Term::Sym(seq![]) })
}

/// The canonical text of a term: a symbol is its name, a call is
/// `name(a1, a2, ...)`, a run is its items' texts with nothing between.
pub open spec fn render(t: Term) -> Seq<char>
    decreases t, 0int,
{
    match t {
        Term::Sym(n) => n,
        Term::Sen(ts) => render_run(ts, ts.len() as int),
        Term::App(n, ts) => n + seq!['('] + render_list(ts, ts.len() as int) + seq![')'],
    }
}

/// The texts of the first `n` terms, concatenated.
pub open spec fn render_run(ts: Seq<Term>, n: int) -> Seq<char>
    decreases ts, n,
{
    if n <= 0 || ts.len() < n {
        seq![]
    } else {
        render_run(ts, n - 1) + render(ts[n - 1])
    }
}

/// The texts of the first `n` terms, separated by a comma and a space.
pub open spec fn render_list(ts: Seq<Term>, n: int) -> Seq<char>
    decreases ts, n,
{
    if n <= 0 || ts.len() < n {
        seq![]
    } else if n == 1 {
        render(ts[0])
    } else {
        render_list(ts, n - 1) + seq![',', ' '] + render(ts[n - 1])
    }
}

/// Matches pattern `p` against subject `e`, extending bindings `b`.
/// A symbol in the pattern is a variable: it binds the subject, or, when
/// already bound, requires the bound term to equal the subject. Calls match
/// on equal names and arities, argument by argument. A run of patterns
/// matches a run of subjects of the same length when each pattern item
/// matches every subject item in turn.
pub open spec fn match_term(p: Term, e: Term, b: Map<Seq<char>, Term>) -> Option<Map<Seq<char>, Term>>
    decreases p, 0int,
{
    match p {
        Term::Sym(n) => {
            if b.contains_key(n) {
                if b[n] == e {
                    Some(b)
                } else {
                    None
                }
            } else {
                Some(b.insert(n, e))
            }
        },
        Term::App(n1, ps) => match e {
            Term::App(n2, es) => {
                if n1 == n2 && ps.len() == es.len() {
                    match_pairs(ps, es, ps.len() as int, b)
                } else {
                    None
                }
            },
            _ => None,
        },
        Term::Sen(ps) => match e {
            Term::Sen(es) => {
                if ps.len() == es.len() {
                    match_broadcast(ps, es, ps.len() as int, b)
                } else {
                    None
                }
            },
            _ => None,
        },
    }
}

/// Matches the first `n` patterns of `ps` against the first `n` subjects of
/// `es`, position by position, threading the bindings.
pub open spec fn match_pairs(ps: Seq<Term>, es: Seq<Term>, n: int, b: Map<Seq<char>, Term>) -> Option<
    Map<Seq<char>, Term>,
>
    decreases ps, n,
{
    if n <= 0 || ps.len() < n {
        Some(b)
    } else {
        match match_pairs(ps, es, n - 1, b) {
            Some(b1) => match_term(ps[n - 1], es[n - 1], b1),
            None => None,
        }
    }
}

/// Matches each of the first `n` patterns of `ps` against every term of `es`.
pub open spec fn match_broadcast(ps: Seq<Term>, es: Seq<Term>, n: int, b: Map<Seq<char>, Term>) -> Option<
    Map<Seq<char>, Term>,
>
    decreases ps, n,
{
    if n <= 0 || ps.len() < n {
        Some(b)
    } else {
        match match_broadcast(ps, es, n - 1, b) {
            Some(b1) => match_each(ps[n - 1], es, es.len() as int, b1),
            None => None,
        }
    }
}

/// Matches one pattern against each of the first `m` terms of `es` in turn.
pub open spec fn match_each(p: Term, es: Seq<Term>, m: int, b: Map<Seq<char>, Term>) -> Option<Map<Seq<char>, Term>>
    decreases p, m,
{
    if m <= 0 {
        Some(b)
    } else {
        match match_each(p, es, m - 1, b) {
            Some(b1) => match_term(p, es[m - 1], b1),
            None => None,
        }
    }
}

proof fn lemma_pairs_fail(ps: Seq<Term>, es: Seq<Term>, k: int, n: int, b: Map<Seq<char>, Term>)
    requires
        0 <= k <= n <= ps.len(),
        match_pairs(ps, es, k, b) is None,
    ensures
        match_pairs(ps, es, n, b) is None,
    decreases n - k,
{
    if k < n {
        lemma_pairs_fail(ps, es, k, n - 1, b);
    }
}

proof fn lemma_broadcast_fail(ps: Seq<Term>, es: Seq<Term>, k: int, n: int, b: Map<Seq<char>, Term>)
    requires
        0 <= k <= n <= ps.len(),
        match_broadcast(ps, es, k, b) is None,
    ensures
        match_broadcast(ps, es, n, b) is None,
    decreases n - k,
{
    if k < n {
        lemma_broadcast_fail(ps, es, k, n - 1, b);
    }
}

proof fn lemma_each_fail(p: Term, es: Seq<Term>, k: int, m: int, b: Map<Seq<char>, Term>)
    requires
        0 <= k <= m,
        match_each(p, es, k, b) is None,
    ensures
        match_each(p, es, m, b) is None,
    decreases m - k,
{
    if k < m {
        lemma_each_fail(p, es, k, m - 1, b);
    }
}

impl Expr {
    /// The term that the expression stands for.
    pub open spec fn view(self) -> Term
        decreases self,
    {
        match self {
            Expr::Symbol(s) => Term::Sym(s@),
            Expr::Sentence(v) => Term::Sen(views(v@)),
            Expr::Fun(n, v) => Term::App(n@, views(v@)),
        }
    }

    /// Builds a symbol; as a pattern it acts as a variable.
    pub fn symbol(name: String) -> (r: Expr)
        ensures
            r@ == Term::Sym(name@),
    {
        Expr::Symbol(name)
    }

    /// Builds a named call with the given arguments.
    pub fn function(name: String, args: Vec<Expr>) -> (r: Expr)
        ensures
            r@ == Term::App(name@, views(args@)),
    {
        Expr::Fun(name, args)
    }

    /// Builds a run of expressions with no delimiter.
    pub fn sentence(args: Vec<Expr>) -> (r: Expr)
        ensures
            r@ == Term::Sen(views(args@)),
    {
        Expr::Sentence(args)
    }

    /// Matches `self` as a pattern against `expr`, from no bindings. `None`
    /// when the match fails; no partial bindings are handed out.
    pub fn pattern_match(&self, expr: &Expr) -> (r: Option<Bindings>)
        ensures
            r is Some <==> match_term(self@, expr@, Map::empty()) is Some,
            r matches Some(b) ==> b.wf() && b@ == match_term(self@, expr@, Map::empty())->Some_0,
    {
        let mut bindings = Bindings::new();
        if !Self::pattern_matches(self, expr, &mut bindings) {
            return None;
        }
        Some(bindings)
    }

    fn pattern_matches(pattern: &Expr, expr: &Expr, bindings: &mut Bindings) -> (r: bool)
        requires
            old(bindings).wf(),
        ensures
            final(bindings).wf(),
            r == (match_term(pattern@, expr@, old(bindings)@) is Some),
            r ==> final(bindings)@ == match_term(pattern@, expr@, old(bindings)@)->Some_0,
        decreases pattern,
    {
        let ghost b0 = old(bindings)@;
        match pattern {
            Expr::Symbol(name) => {
                match bindings.get(name.as_str()) {
                    Some(bound) => bound.same(expr),
                    None => {
                        bindings.bind(name.clone(), expr.duplicate());
                        true
                    },
                }
            },
            Expr::Fun(name1, args1) => {
                let (name2, args2) = match expr {
                    Expr::Fun(n, a) => (n, a),
                    _ => {
                        return false;
                    },
                };
                if !name1.eq(name2) || args1.len() != args2.len() {
                    return false;
                }
                let ghost ps = views(args1@);
                let ghost es = views(args2@);
                let mut i: usize = 0;
                while i < args1.len()
                    invariant
                        i <= args1.len() == args2.len(),
                        ps == views(args1@),
                        *pattern == Expr::Fun(*name1, *args1),
                        *expr == Expr::Fun(*name2, *args2),
                        name1@ == name2@,
                        es == views(args2@),
                        bindings.wf(),
                        b0 == old(bindings)@,
                        match_pairs(ps, es, i as int, b0) == Some(bindings@),
                    decreases args1.len() - i,
                {
                    proof {
                        assert(decreases_to!(*args1 => args1@[i as int]));
                    }
                    assert(ps[i as int] == args1@[i as int]@ && es[i as int] == args2@[i as int]@);
                    if !Self::pattern_matches(&args1[i], &args2[i], bindings) {
                        proof {
                            lemma_pairs_fail(ps, es, i + 1, ps.len() as int, b0);
                        }
                        return false;
                    }
                    i = i + 1;
                }
                true
            },
            Expr::Sentence(items1) => {
                let items2 = match expr {
                    Expr::Sentence(a) => a,
                    _ => {
                        return false;
                    },
                };
                if items1.len() != items2.len() {
                    return false;
                }
                let ghost ps = views(items1@);
                let ghost es = views(items2@);
                let mut i: usize = 0;
                while i < items1.len()
                    invariant
                        i <= items1.len() == items2.len(),
                        ps == views(items1@),
                        *pattern == Expr::Sentence(*items1),
                        *expr == Expr::Sentence(*items2),
                        es == views(items2@),
                        bindings.wf(),
                        b0 == old(bindings)@,
                        match_broadcast(ps, es, i as int, b0) == Some(bindings@),
                    decreases items1.len() - i,
                {
                    let ghost bi = bindings@;
                    let mut j: usize = 0;
                    while j < items2.len()
                        invariant
                            i < items1.len(),
                            j <= items2.len() == items1.len(),
                            ps == views(items1@),
                            *pattern == Expr::Sentence(*items1),
                            *expr == Expr::Sentence(*items2),
                        *expr == Expr::Sentence(*items2),
                        *pattern == Expr::Sentence(*items1),
                        *expr == Expr::Sentence(*items2),
                            es == views(items2@),
                            bindings.wf(),
                            b0 == old(bindings)@,
                        b0 == old(bindings)@,
                            match_broadcast(ps, es, i as int, b0) == Some(bi),
                            match_each(ps[i as int], es, j as int, bi) == Some(bindings@),
                        decreases items2.len() - j,
                    {
                        proof {
                            assert(decreases_to!(*items1 => items1@[i as int]));
                        }
                        assert(ps[i as int] == items1@[i as int]@ && es[j as int] == items2@[j as int]@);
                        if !Self::pattern_matches(&items1[i], &items2[j], bindings) {
                            proof {
                                lemma_each_fail(ps[i as int], es, j + 1, es.len() as int, bi);
                                lemma_broadcast_fail(ps, es, i + 1, ps.len() as int, b0);
                            }
                            return false;
                        }
                        j = j + 1;
                    }
                    i = i + 1;
                }
                true
            },
        }
    }

    /// The canonical text of the expression.
    pub fn to_string(&self) -> (r: String)
        ensures
            r@ == render(self@),
        decreases self,
    {
        match self {
            Expr::Symbol(s) => s.clone(),
            Expr::Sentence(items) => {
                let mut out = String::new();
                let ghost ts = views(items@);
                assert forall|k: int| 0 <= k < items.len() implies decreases_to!(self => #[trigger] items@[k]) by {
                    assert(decreases_to!(*items => items@[k]));
                }
                let mut i: usize = 0;
                while i < items.len()
                    invariant
                        i <= items.len(),
                        ts == views(items@),
                        *self == Expr::Sentence(*items),
                        forall|k: int| 0 <= k < items.len() ==> decreases_to!(self => #[trigger] items@[k]),
                        out@ == render_run(ts, i as int),
                    decreases items.len() - i,
                {
                    proof {
                        assert(decreases_to!(*items => items@[i as int]));
                    }
                    let piece = Self::to_string(&items[i]);
                    out.append(piece.as_str());
                    i = i + 1;
                }
                out
            },
            Expr::Fun(name, args) => {
                let mut out = name.clone();
                proof {
                    reveal_strlit("(");
                }
                out.append("(");
                let ghost ts = views(args@);
                assert forall|k: int| 0 <= k < args.len() implies decreases_to!(self => #[trigger] args@[k]) by {
                    assert(decreases_to!(*args => args@[k]));
                }
                let mut i: usize = 0;
                while i < args.len()
                    invariant
                        i <= args.len(),
                        ts == views(args@),
                        *self == Expr::Fun(*name, *args),
                        forall|k: int| 0 <= k < args.len() ==> decreases_to!(self => #[trigger] args@[k]),
                        out@ == name@ + seq!['('] + render_list(ts, i as int),
                    decreases args.len() - i,
                {
                    proof {
                        assert(decreases_to!(*args => args@[i as int]));
                        reveal_strlit(", ");
                    }
                    if i > 0 {
                        out.append(", ");
                    }
                    let piece = Self::to_string(&args[i]);
                    out.append(piece.as_str());
                    i = i + 1;
                }
                proof {
                    reveal_strlit(")");
                }
                out.append(")");
                out
            },
        }
    }

    /// A deep copy: a new tree with the same structure.
    pub fn duplicate(&self) -> (r: Expr)
        ensures
            r@ == self@,
        decreases self,
    {
        match self {
            Expr::Symbol(s) => Expr::Symbol(s.clone()),
            Expr::Sentence(v) => Expr::Sentence(Self::duplicate_all(v)),
            Expr::Fun(n, v) => Expr::Fun(n.clone(), Self::duplicate_all(v)),
        }
    }

    fn duplicate_all(v: &Vec<Expr>) -> (r: Vec<Expr>)
        ensures
            views(r@) == views(v@),
        decreases v,
    {
        let mut r: Vec<Expr> = Vec::with_capacity(v.len());
        let mut i: usize = 0;
        while i < v.len()
            invariant
                i <= v.len(),
                r@.len() == i,
                forall|k: int| 0 <= k < i ==> (#[trigger] r@[k])@ == v@[k]@,
            decreases v.len() - i,
        {
            proof {
                assert(decreases_to!(v => v@[i as int]));
            }
            let c = v[i].duplicate();
            r.push(c);
            i = i + 1;
        }
        assert(views(r@) =~= views(v@));
        r
    }

    /// Structural equality: same shape, same names, same order.
    pub fn same(&self, other: &Expr) -> (r: bool)
        ensures
            r == (self@ == other@),
        decreases self,
    {
        match (self, other) {
            (Expr::Symbol(a), Expr::Symbol(b)) => a.eq(b),
            (Expr::Sentence(xs), Expr::Sentence(ys)) => Self::same_all(xs, ys),
            (Expr::Fun(n, xs), Expr::Fun(m, ys)) => {
                if !n.eq(m) {
                    false
                } else {
                    Self::same_all(xs, ys)
                }
            },
            _ => false,
        }
    }

    fn same_all(xs: &Vec<Expr>, ys: &Vec<Expr>) -> (r: bool)
        ensures
            r == (views(xs@) == views(ys@)),
        decreases xs,
    {
        if xs.len() != ys.len() {
            assert(views(xs@).len() != views(ys@).len());
            return false;
        }
        let mut i: usize = 0;
        while i < xs.len()
            invariant
                i <= xs.len(),
                xs.len() == ys.len(),
                forall|k: int| 0 <= k < i ==> (#[trigger] xs@[k])@ == ys@[k]@,
            decreases xs.len() - i,
        {
            proof {
                assert(decreases_to!(xs => xs@[i as int]));
            }
            if !xs[i].same(&ys[i]) {
                assert(views(xs@)[i as int] != views(ys@)[i as int]);
                return false;
            }
            i = i + 1;
        }
        assert(views(xs@) =~= views(ys@));
        true
    }
}

/// A call renders as its name, an opening parenthesis, its arguments'
/// texts separated by a comma and a space, and a closing parenthesis.
pub proof fn lemma_render_call(name: Seq<char>, args: Seq<Term>)
    ensures
        render(Term::App(name, args)) == name + seq!['('] + render_list(args, args.len() as int) + seq![')'],
        args.len() == 0 ==> render(Term::App(name, args)) == name + seq!['(', ')'],
        args.len() == 1 ==> render(Term::App(name, args)) == name + seq!['('] + render(args[0]) + seq![')'],
        forall|n: int|
            1 < n <= args.len() ==> #[trigger] render_list(args, n) == render_list(args, n - 1) + seq![',', ' ']
                + render(args[n - 1]),
{
    if args.len() == 0 {
        assert(render(Term::App(name, args)) =~= name + seq!['(', ')']);
    }
}

/// Two-variable pattern: `f(x, y)` with distinct variables matches any call
/// `f(a, b)` and binds exactly `x` to `a` and `y` to `b`.
pub proof fn lemma_match_two_variables(f: Seq<char>, x: Seq<char>, y: Seq<char>, a: Term, b: Term)
    requires
        x != y,
    ensures
        match_term(
            Term::App(f, seq![Term::Sym(x), Term::Sym(y)]),
            Term::App(f, seq![a, b]),
            Map::empty(),
        ) == Some(map![x => a, y => b]),
{
    let ps = seq![Term::Sym(x), Term::Sym(y)];
    let es = seq![a, b];
    let e = Map::<Seq<char>, Term>::empty();
    assert(match_pairs(ps, es, 0, e) == Some(e));
    assert(ps[0] == Term::Sym(x) && es[0] == a && ps[1] == Term::Sym(y) && es[1] == b);
    assert(match_term(Term::Sym(x), a, e) == Some(e.insert(x, a)));
    assert(match_pairs(ps, es, 1, e) == Some(e.insert(x, a)));
    assert(!e.insert(x, a).contains_key(y));
    assert(match_term(Term::Sym(y), b, e.insert(x, a)) == Some(e.insert(x, a).insert(y, b)));
    assert(match_pairs(ps, es, 2, e) == Some(e.insert(x, a).insert(y, b)));
    assert(e.insert(x, a).insert(y, b) =~= map![x => a, y => b]);
}

/// A call pattern never matches a call of another name or arity.
pub proof fn lemma_call_mismatch(n1: Seq<char>, ps: Seq<Term>, n2: Seq<char>, es: Seq<Term>, b: Map<Seq<char>, Term>)
    requires
        n1 != n2 || ps.len() != es.len(),
    ensures
        match_term(Term::App(n1, ps), Term::App(n2, es), b) is None,
{
}

/// A variable that occurs twice in a pattern requires equal subterms:
/// `f(x, x)` matches `f(a, b)` exactly when `a` and `b` are equal.
pub proof fn lemma_repeated_variable(f: Seq<char>, x: Seq<char>, a: Term, b: Term)
    ensures
        match_term(
            Term::App(f, seq![Term::Sym(x), Term::Sym(x)]),
            Term::App(f, seq![a, b]),
            Map::empty(),
        ) is Some <==> a == b,
{
    let ps = seq![Term::Sym(x), Term::Sym(x)];
    let es = seq![a, b];
    let e = Map::<Seq<char>, Term>::empty();
    assert(match_pairs(ps, es, 0, e) == Some(e));
    assert(ps[0] == Term::Sym(x) && es[0] == a && ps[1] == Term::Sym(x) && es[1] == b);
    assert(match_term(Term::Sym(x), a, e) == Some(e.insert(x, a)));
    assert(match_pairs(ps, es, 1, e) == Some(e.insert(x, a)));
    assert(e.insert(x, a).contains_key(x) && e.insert(x, a)[x] == a);
    assert(match_pairs(ps, es, 2, e) == match_term(Term::Sym(x), b, e.insert(x, a)));
}

/// Variable bindings made by a match: each name bound at most once.
pub struct Bindings {
    names: Vec<String>,
    values: Vec<Expr>,
}

impl Bindings {
    /// The names are pairwise distinct and each has one value.
    pub closed spec fn wf(&self) -> bool {
        &&& self.names@.len() == self.values@.len()
        &&& forall|i: int, j: int|
            0 <= i < j < self.names@.len() ==> (#[trigger] self.names@[i])@ != (#[trigger] self.names@[j])@
    }

    closed spec fn has(&self, k: Seq<char>) -> bool {
        exists|i: int| 0 <= i < self.names@.len() && (#[trigger] self.names@[i])@ == k
    }

    /// Each bound name with the term it is bound to.
    pub closed spec fn view(&self) -> Map<Seq<char>, Term> {
        Map::new(
            |k: Seq<char>| self.has(k),
            |k: Seq<char>|
                self.values@[choose|i: int| 0 <= i < self.names@.len() && (#[trigger] self.names@[i])@ == k]@,
        )
    }

    /// No name bound.
    pub fn new() -> (r: Bindings)
        ensures
            r.wf(),
            r@ == Map::<Seq<char>, Term>::empty(),
    {
        let r = Bindings { names: Vec::new(), values: Vec::new() };
        assert(r@ =~= Map::<Seq<char>, Term>::empty());
        r
    }

    /// How many names are bound.
    pub fn len(&self) -> (r: usize)
        requires
            self.wf(),
        ensures
            r == self@.len(),
    {
        proof {
            self.lemma_dom_len();
        }
        self.names.len()
    }

    proof fn lemma_dom_len(&self)
        requires
            self.wf(),
        ensures
            self@.dom().finite(),
            self@.dom().len() == self.names@.len(),
    {
        let f = |i: int| self.names@[i]@;
        let idx = Set::new(|i: int| 0 <= i < self.names@.len());
        assert(idx =~= vstd::set_lib::set_int_range(0, self.names@.len() as int));
        vstd::set_lib::lemma_int_range(0, self.names@.len() as int);
        assert forall|k: Seq<char>| #[trigger] self@.dom().contains(k) == idx.map(f).contains(k) by {
            if self.has(k) {
                let j = choose|j: int| 0 <= j < self.names@.len() && (#[trigger] self.names@[j])@ == k;
                assert(idx.contains(j) && f(j) == k);
            }
            if idx.map(f).contains(k) {
                let j = choose|j: int| idx.contains(j) && f(j) == k;
                assert(self.names@[j]@ == k);
            }
        }
        assert(self@.dom() =~= idx.map(f));
        assert(vstd::relations::injective_on(f, idx)) by {
            assert forall|a: int, b: int| idx.contains(a) && idx.contains(b) && #[trigger] f(a) == #[trigger] f(b) implies a == b by {
                if a < b {
                    assert(self.names@[a]@ != self.names@[b]@);
                } else if b < a {
                    assert(self.names@[b]@ != self.names@[a]@);
                }
            }
        }
        vstd::set_lib::lemma_map_size(idx, self@.dom(), f);
    }

    fn find(&self, name: &String) -> (r: Option<usize>)
        requires
            self.wf(),
        ensures
            r is None ==> !self@.contains_key(name@),
            r matches Some(i) ==> i < self.names@.len() && self.names@[i as int]@ == name@
                && self@.contains_key(name@) && self@[name@] == self.values@[i as int]@,
    {
        let mut i: usize = 0;
        while i < self.names.len()
            invariant
                self.wf(),
                i <= self.names@.len(),
                forall|k: int| 0 <= k < i ==> (#[trigger] self.names@[k])@ != name@,
            decreases self.names@.len() - i,
        {
            if self.names[i].eq(name) {
                proof {
                    let c = choose|j: int| 0 <= j < self.names@.len() && (#[trigger] self.names@[j])@ == name@;
                    if c < i {
                        assert(self.names@[c as int]@ != self.names@[i as int]@);
                    } else if c > i {
                        assert(self.names@[i as int]@ != self.names@[c as int]@);
                    }
                }
                return Some(i);
            }
            i = i + 1;
        }
        None
    }

    /// The value bound to `name`, if any.
    pub fn get(&self, name: &str) -> (r: Option<&Expr>)
        requires
            self.wf(),
        ensures
            r is None ==> !self@.contains_key(name@),
            r matches Some(e) ==> self@.contains_key(name@) && e@ == self@[name@],
    {
        let key = String::from_str(name);
        match self.find(&key) {
            Some(i) => Some(&self.values[i]),
            None => None,
        }
    }

    /// Binds a name that is not bound yet.
    fn bind(&mut self, name: String, value: Expr)
        requires
            old(self).wf(),
            !old(self)@.contains_key(name@),
        ensures
            final(self).wf(),
            final(self)@ == old(self)@.insert(name@, value@),
    {
        let ghost pre = *self;
        let ghost k = name@;
        let ghost v = value@;
        self.names.push(name);
        self.values.push(value);
        let ghost n = pre.names@.len() as int;
        assert(self.names@[n]@ == k);
        assert forall|a: Seq<char>| #[trigger] self@.contains_key(a) == pre@.insert(k, v).contains_key(a) by {
            if pre.has(a) {
                let j = choose|j: int| 0 <= j < pre.names@.len() && (#[trigger] pre.names@[j])@ == a;
                assert(self.names@[j] == pre.names@[j]);
            }
            if self.has(a) && a != k {
                let j = choose|j: int| 0 <= j < self.names@.len() && (#[trigger] self.names@[j])@ == a;
                assert(pre.names@[j] == self.names@[j]);
            }
        }
        assert forall|a: Seq<char>| #[trigger] self@.contains_key(a) implies self@[a] == pre@.insert(k, v)[a] by {
            let j = choose|j: int| 0 <= j < self.names@.len() && (#[trigger] self.names@[j])@ == a;
            if a == k {
                if j < n {
                    assert(pre.names@[j]@ == k);
                }
            } else {
                let j0 = choose|j: int| 0 <= j < pre.names@.len() && (#[trigger] pre.names@[j])@ == a;
                assert(self.names@[j0] == pre.names@[j0]);
                if j != j0 {
                    if j < j0 {
                        assert(self.names@[j]@ != self.names@[j0]@);
                    } else {
                        assert(self.names@[j0]@ != self.names@[j]@);
                    }
                }
            }
        }
        assert(self@ =~= pre@.insert(k, v));
    }
}

} // verus!
