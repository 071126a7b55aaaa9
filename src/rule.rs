use vstd::prelude::*;

use crate::expr::{Bindings, Expr, Term, lemma_match_two_variables, match_term, render, views};

verus! {

/// Replaces every bound symbol of `t` by its binding; unbound symbols stay.
pub open spec fn subst(t: Term, b: Map<Seq<char>, Term>) -> Term
    decreases t,
{
    match t {
        Term::Sym(n) => if b.contains_key(n) {
            b[n]
        } else {
            t
        },
        Term::Sen(ts) => Term::Sen(
            Seq::new(ts.len(), |i: int| if 0 <= i < ts.len() { subst(ts[i], b) } else { t }),
        ),
        Term::App(n, ts) => Term::App(
            n,
            Seq::new(ts.len(), |i: int| if 0 <= i < ts.len() { subst(ts[i], b) } else { t }),
        ),
    }
}

/// One rewriting pass of the rule `head = body` over `t`: where the head
/// matches the whole term, the body with the bindings substituted, and no
/// further descent; elsewhere the same node with each child rewritten.
pub open spec fn rewrite(head: Term, body: Term, t: Term) -> Term
    decreases t,
{
    match match_term(head, t, Map::empty()) {
        Some(b) => subst(body, b),
        None => match t {
            Term::Sym(_) => t,
            Term::Sen(ts) => Term::Sen(
                Seq::new(
                    ts.len(),
                    |i: int| if 0 <= i < ts.len() { rewrite(head, body, ts[i]) } else { t },
                ),
            ),
            Term::App(n, ts) => Term::App(
                n,
                Seq::new(
                    ts.len(),
                    |i: int| if 0 <= i < ts.len() { rewrite(head, body, ts[i]) } else { t },
                ),
            ),
        },
    }
}

/// Where the head matches the whole term, the result is the substituted
/// body as it stands: it is not rewritten again, nor are its parts.
pub proof fn lemma_rewrite_outermost(head: Term, body: Term, t: Term)
    requires
        match_term(head, t, Map::empty()) is Some,
    ensures
        rewrite(head, body, t) == subst(body, match_term(head, t, Map::empty())->Some_0),
{
}

/// A symbol of the body that the match did not bind is kept as it is.
pub proof fn lemma_unbound_kept(y: Seq<char>, b: Map<Seq<char>, Term>)
    requires
        !b.contains_key(y),
    ensures
        subst(Term::Sym(y), b) == Term::Sym(y),
{
}

/// The rule `foo(x, y) = bar(y, x)` swaps the two arguments of any call
/// `foo(a, b)`.
pub proof fn lemma_rewrite_swap(foo: Seq<char>, bar: Seq<char>, x: Seq<char>, y: Seq<char>, a: Term, b: Term)
    requires
        x != y,
    ensures
        rewrite(
            Term::App(foo, seq![Term::Sym(x), Term::Sym(y)]),
            Term::App(bar, seq![Term::Sym(y), Term::Sym(x)]),
            Term::App(foo, seq![a, b]),
        ) == Term::App(bar, seq![b, a]),
{
    lemma_match_two_variables(foo, x, y, a, b);
    let m = map![x => a, y => b];
    let s = subst(Term::App(bar, seq![Term::Sym(y), Term::Sym(x)]), m);
    assert(m.contains_key(x) && m[x] == a && m.contains_key(y) && m[y] == b);
    assert(subst(Term::Sym(y), m) == b);
    assert(subst(Term::Sym(x), m) == a);
    assert(s->App_1 =~= seq![b, a]);
}

/// A rewrite rule: a head pattern and a body template.
#[derive(Debug)]
pub struct Rule {
    head: Expr,
    body: Expr,
}

impl Rule {
    /// The head pattern, as a term.
    pub closed spec fn head(&self) -> Term {
        self.head@
    }

    /// The body template, as a term.
    pub closed spec fn body(&self) -> Term {
        self.body@
    }

    /// The rule `head = body`.
    pub fn make(head: Expr, body: Expr) -> (r: Rule)
        ensures
            r.head() == head@,
            r.body() == body@,
    {
        Rule { head, body }
    }

    /// The text `<head> = <body>`.
    pub fn to_string(&self) -> (r: String)
        ensures
            r@ == render(self.head()) + seq![' ', '=', ' '] + render(self.body()),
    {
        let mut out = self.head.to_string();
        proof {
            reveal_strlit(" = ");
        }
        out.append(" = ");
        let b = self.body.to_string();
        out.append(b.as_str());
        out
    }

    /// Applies the rule once over `expr`, outermost first: see `rewrite`.
    pub fn apply_all(&self, expr: Expr) -> (r: Expr)
        ensures
            r@ == rewrite(self.head(), self.body(), expr@),
    {
        self.apply_ref(&expr)
    }

    fn apply_ref(&self, expr: &Expr) -> (r: Expr)
        ensures
            r@ == rewrite(self.head(), self.body(), expr@),
        decreases expr,
    {
        if let Some(bindings) = self.head.pattern_match(expr) {
            return self.substitute_bindings(&bindings, &self.body);
        }
        match expr {
            Expr::Symbol(s) => Expr::Symbol(s.clone()),
            Expr::Sentence(items) => {
                let out = self.apply_each(items);
                assert(views(out@) =~= rewrite(self.head(), self.body(), expr@)->Sen_0);
                Expr::sentence(out)
            },
            Expr::Fun(name, args) => {
                let out = self.apply_each(args);
                assert(views(out@) =~= rewrite(self.head(), self.body(), expr@)->App_1);
                Expr::function(name.clone(), out)
            },
        }
    }

    fn apply_each(&self, items: &Vec<Expr>) -> (r: Vec<Expr>)
        ensures
            r@.len() == items@.len(),
            forall|k: int|
                0 <= k < items@.len() ==> (#[trigger] r@[k])@ == rewrite(
                    self.head(),
                    self.body(),
                    items@[k]@,
                ),
        decreases items,
    {
        let mut out: Vec<Expr> = Vec::with_capacity(items.len());
        let mut i: usize = 0;
        while i < items.len()
            invariant
                i <= items.len(),
                out@.len() == i,
                forall|k: int|
                    0 <= k < i ==> (#[trigger] out@[k])@ == rewrite(self.head(), self.body(), items@[k]@),
            decreases items.len() - i,
        {
            proof {
                assert(decreases_to!(items => items@[i as int]));
            }
            let e = self.apply_ref(&items[i]);
            out.push(e);
            i = i + 1;
        }
        out
    }

    /// Replaces every symbol of `expr` bound in `bindings` by a copy of its
    /// binding; other symbols are kept.
    pub fn substitute_bindings(&self, bindings: &Bindings, expr: &Expr) -> (r: Expr)
        requires
            bindings.wf(),
        ensures
            r@ == subst(expr@, bindings@),
        decreases expr,
    {
        match expr {
            Expr::Symbol(name) => {
                let key = name.as_str();
                assert(key@ == name@);
                match bindings.get(key) {
                    Some(e) => e.duplicate(),
                    None => Expr::Symbol(name.clone()),
                }
            },
            Expr::Sentence(items) => {
                let out = self.substitute_each(bindings, items);
                assert(views(out@) =~= subst(expr@, bindings@)->Sen_0);
                Expr::sentence(out)
            },
            Expr::Fun(name, args) => {
                let out = self.substitute_each(bindings, args);
                assert(views(out@) =~= subst(expr@, bindings@)->App_1);
                Expr::function(name.clone(), out)
            },
        }
    }

    fn substitute_each(&self, bindings: &Bindings, items: &Vec<Expr>) -> (r: Vec<Expr>)
        requires
            bindings.wf(),
        ensures
            r@.len() == items@.len(),
            forall|k: int| 0 <= k < items@.len() ==> (#[trigger] r@[k])@ == subst(items@[k]@, bindings@),
        decreases items,
    {
        let mut out: Vec<Expr> = Vec::with_capacity(items.len());
        let mut i: usize = 0;
        while i < items.len()
            invariant
                bindings.wf(),
                i <= items.len(),
                out@.len() == i,
                forall|k: int| 0 <= k < i ==> (#[trigger] out@[k])@ == subst(items@[k]@, bindings@),
            decreases items.len() - i,
        {
            proof {
                assert(decreases_to!(items => items@[i as int]));
            }
            let e = self.substitute_bindings(bindings, &items[i]);
            out.push(e);
            i = i + 1;
        }
        out
    }
}

} // verus!
