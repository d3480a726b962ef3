//! The dependencies between the variables of a text.
//!
//! For each assignment `x := e`, the pairs (a variable of `e`, `x`); the
//! conditions of the statements around an assignment count as its causes
//! too. An equation ties each variable of one side to each of the other,
//! both ways. Names are compared in lower case.

use vstd::prelude::*;
use crate::lang::ast::{
    arm_view, arms_view, expr_view, exprs_view, lemma_arms_push, lemma_exprs_push, lemma_stmts_push,
    stmt_view, stmts_view, ArmView, Expr, ExprView, Model, Stmt, StmtView,
};
use crate::text::{ascii_lower_seq, chars_eq, chars_of, string_of_chars, sub_chars, to_ascii_lower};

verus! {

/// `a` comes before `b` in the order of their characters.
pub open spec fn seq_lt(a: Seq<char>, b: Seq<char>) -> bool
    decreases a.len(),
{
    if a.len() == 0 {
        b.len() > 0
    } else if b.len() == 0 {
        false
    } else if a[0] != b[0] {
        a[0] < b[0]
    } else {
        seq_lt(a.drop_first(), b.drop_first())
    }
}

/// Pairs ordered by their first text, then by their second.
pub open spec fn pair_lt(a: (Seq<char>, Seq<char>), b: (Seq<char>, Seq<char>)) -> bool {
    seq_lt(a.0, b.0) || (a.0 == b.0 && seq_lt(a.1, b.1))
}

/// Strictly increasing: sorted, and nothing twice.
pub open spec fn increasing(s: Seq<(Seq<char>, Seq<char>)>) -> bool {
    forall|i: int, j: int| 0 <= i < j < s.len() ==> pair_lt(#[trigger] s[i], #[trigger] s[j])
}

pub proof fn lemma_seq_lt_irreflexive(a: Seq<char>)
    ensures
        !seq_lt(a, a),
    decreases a.len(),
{
    if a.len() > 0 {
        lemma_seq_lt_irreflexive(a.drop_first());
    }
}

pub proof fn lemma_seq_lt_transitive(a: Seq<char>, b: Seq<char>, c: Seq<char>)
    requires
        seq_lt(a, b),
        seq_lt(b, c),
    ensures
        seq_lt(a, c),
    decreases a.len(),
{
    if a.len() > 0 && b.len() > 0 && c.len() > 0 && a[0] == b[0] && b[0] == c[0] {
        lemma_seq_lt_transitive(a.drop_first(), b.drop_first(), c.drop_first());
    }
}

pub proof fn lemma_seq_lt_total(a: Seq<char>, b: Seq<char>)
    requires
        a != b,
    ensures
        seq_lt(a, b) || seq_lt(b, a),
    decreases a.len(),
{
    if a.len() > 0 && b.len() > 0 && a[0] == b[0] {
        if a.drop_first() == b.drop_first() {
            assert(a =~= seq![a[0]] + a.drop_first());
            assert(b =~= seq![b[0]] + b.drop_first());
        }
        lemma_seq_lt_total(a.drop_first(), b.drop_first());
    } else if a.len() == 0 && b.len() == 0 {
        assert(a =~= b);
    }
}

pub proof fn lemma_pair_lt_transitive(a: (Seq<char>, Seq<char>), b: (Seq<char>, Seq<char>), c: (Seq<char>, Seq<char>))
    requires
        pair_lt(a, b),
        pair_lt(b, c),
    ensures
        pair_lt(a, c),
{
    if seq_lt(a.0, b.0) && seq_lt(b.0, c.0) {
        lemma_seq_lt_transitive(a.0, b.0, c.0);
    } else if seq_lt(a.0, b.0) {
    } else if seq_lt(b.0, c.0) {
    } else {
        lemma_seq_lt_transitive(a.1, b.1, c.1);
    }
}

pub proof fn lemma_pair_lt_total(a: (Seq<char>, Seq<char>), b: (Seq<char>, Seq<char>))
    requires
        a != b,
    ensures
        pair_lt(a, b) || pair_lt(b, a),
{
    if a.0 != b.0 {
        lemma_seq_lt_total(a.0, b.0);
    } else {
        lemma_seq_lt_total(a.1, b.1);
    }
}

/// The texts of a list of character vectors.
pub open spec fn texts_view(s: Seq<Vec<char>>) -> Seq<Seq<char>> {
    s.map_values(|v: Vec<char>| v@)
}

/// The texts of a list of pairs of character vectors.
pub open spec fn pairs_view(s: Seq<(Vec<char>, Vec<char>)>) -> Seq<(Seq<char>, Seq<char>)> {
    s.map_values(|p: (Vec<char>, Vec<char>)| (p.0@, p.1@))
}

pub(crate) fn seq_less(a: &Vec<char>, b: &Vec<char>) -> (r: bool)
    ensures
        r == seq_lt(a@, b@),
{
    let mut i: usize = 0;
    assert(a@.skip(0) =~= a@);
    assert(b@.skip(0) =~= b@);
    while i < a.len() && i < b.len()
        invariant
            i <= a.len(),
            i <= b.len(),
            seq_lt(a@, b@) == seq_lt(a@.skip(i as int), b@.skip(i as int)),
        decreases a.len() - i,
    {
        if a[i] != b[i] {
            return a[i] < b[i];
        }
        assert(a@.skip(i as int).drop_first() =~= a@.skip(i as int + 1));
        assert(b@.skip(i as int).drop_first() =~= b@.skip(i as int + 1));
        i = i + 1;
    }
    i < b.len()
}

fn pair_less(a: &(Vec<char>, Vec<char>), b: &(Vec<char>, Vec<char>)) -> (r: bool)
    ensures
        r == pair_lt((a.0@, a.1@), (b.0@, b.1@)),
{
    seq_less(&a.0, &b.0) || (chars_eq(&a.0, &b.0) && seq_less(&a.1, &b.1))
}

/// Adds the pair `(a, b)` to the strictly increasing list `out`, where it
/// belongs, unless it is there already.
fn insert_pair(out: &mut Vec<(Vec<char>, Vec<char>)>, a: Vec<char>, b: Vec<char>)
    requires
        increasing(pairs_view(old(out)@)),
    ensures
        increasing(pairs_view(final(out)@)),
        forall|x: (Seq<char>, Seq<char>)|
            pairs_view(final(out)@).contains(x) <==> (pairs_view(old(out)@).contains(x) || x == (a@, b@)),
{
    let ghost old_v = pairs_view(out@);
    let ghost xv = (a@, b@);
    let p = (a, b);
    let mut k: usize = 0;
    while k < out.len() && pair_less(&out[k], &p)
        invariant
            k <= out.len(),
            old_v == pairs_view(out@),
            xv == (p.0@, p.1@),
            forall|i: int| 0 <= i < k ==> pair_lt(#[trigger] old_v[i], xv),
        decreases out.len() - k,
    {
        k = k + 1;
    }
    if k < out.len() && chars_eq(&out[k].0, &p.0) && chars_eq(&out[k].1, &p.1) {
        assert(old_v[k as int] == xv);
        assert forall|x: (Seq<char>, Seq<char>)| old_v.contains(x) || x == xv implies old_v.contains(x) by {
            if x == xv {
                assert(old_v[k as int] == x);
            }
        }
        return;
    }
    proof {
        if k < old_v.len() {
            lemma_pair_lt_total(old_v[k as int], xv);
        }
    }
    out.insert(k, p);
    let ghost new_v = pairs_view(out@);
    assert(new_v =~= old_v.insert(k as int, xv));
    assert forall|i: int, j: int| 0 <= i < j < new_v.len() implies pair_lt(#[trigger] new_v[i], #[trigger] new_v[j]) by {
        if j < k {
        } else if j == k {
        } else if i < k {
            lemma_pair_lt_transitive(old_v[i], xv, old_v[k as int]);
            if j - 1 > k {
                lemma_pair_lt_transitive(old_v[i], old_v[k as int], old_v[j - 1]);
            }
        } else if i == k {
            if j - 1 > k {
                lemma_pair_lt_transitive(xv, old_v[k as int], old_v[j - 1]);
            }
        } else {
        }
    }
    assert forall|x: (Seq<char>, Seq<char>)| new_v.contains(x) <==> (old_v.contains(x) || x == xv) by {
        if new_v.contains(x) {
            let i = choose|i: int| 0 <= i < new_v.len() && new_v[i] == x;
            if i < k {
                assert(old_v[i] == x);
            } else if i > k {
                assert(old_v[i - 1] == x);
            }
        }
        if old_v.contains(x) {
            let i = choose|i: int| 0 <= i < old_v.len() && old_v[i] == x;
            if i < k {
                assert(new_v[i] == x);
            } else {
                assert(new_v[i + 1] == x);
            }
        }
        if x == xv {
            assert(new_v[k as int] == x);
        }
    }
}

/// The variables of an expression, in lower case, in the order they stand.
pub open spec fn vars_of(e: ExprView) -> Seq<Seq<char>>
    decreases e,
{
    match e {
        ExprView::Var(v) => seq![ascii_lower_seq(v)],
        ExprView::Unary(_, a) => vars_of(*a),
        ExprView::Binary(_, a, b) => vars_of(*a) + vars_of(*b),
        ExprView::Call(_, args) => vars_of_all(args),
        _ => Seq::empty(),
    }
}

pub open spec fn vars_of_all(s: Seq<ExprView>) -> Seq<Seq<char>>
    decreases s,
{
    if s.len() == 0 {
        Seq::empty()
    } else {
        vars_of_all(s.subrange(0, s.len() - 1)) + vars_of(s[s.len() - 1])
    }
}

/// The pairs `(f, target)` for each `f` of `from` other than `target`.
pub open spec fn pairs_to(from: Seq<Seq<char>>, target: Seq<char>) -> Seq<(Seq<char>, Seq<char>)>
    decreases from.len(),
{
    if from.len() == 0 {
        Seq::empty()
    } else {
        pairs_to(from.drop_last(), target) + if from.last() != target {
            seq![(from.last(), target)]
        } else {
            Seq::empty()
        }
    }
}

/// `(a, b)` and `(b, a)` for each `b` of `r`.
pub open spec fn both_ways(a: Seq<char>, r: Seq<Seq<char>>) -> Seq<(Seq<char>, Seq<char>)>
    decreases r.len(),
{
    if r.len() == 0 {
        Seq::empty()
    } else {
        both_ways(a, r.drop_last()) + seq![(a, r.last()), (r.last(), a)]
    }
}

/// Each variable of `l` with each of `r`, both ways.
pub open spec fn cross(l: Seq<Seq<char>>, r: Seq<Seq<char>>) -> Seq<(Seq<char>, Seq<char>)>
    decreases l.len(),
{
    if l.len() == 0 {
        Seq::empty()
    } else {
        cross(l.drop_last(), r) + both_ways(l.last(), r)
    }
}

/// The pairs of statements whose conditions around them are `ctx`.
pub open spec fn walk(body: Seq<StmtView>, ctx: Seq<Seq<char>>) -> Seq<(Seq<char>, Seq<char>)>
    decreases body,
{
    if body.len() == 0 {
        Seq::empty()
    } else {
        walk(body.subrange(0, body.len() - 1), ctx) + walk_one(body[body.len() - 1], ctx)
    }
}

pub open spec fn walk_one(st: StmtView, ctx: Seq<Seq<char>>) -> Seq<(Seq<char>, Seq<char>)>
    decreases st,
{
    match st {
        StmtView::Assign { target, value } => pairs_to(ctx + vars_of(value), ascii_lower_seq(target)),
        StmtView::AssignDeferred { target, value } => pairs_to(ctx + vars_of(value), ascii_lower_seq(target)),
        StmtView::If { condition, then_body, else_body } => walk(then_body, ctx + vars_of(condition)) + walk(
            else_body,
            ctx + vars_of(condition),
        ),
        StmtView::While { condition, body } => walk(body, ctx + vars_of(condition)),
        StmtView::DoUntil { body, condition } => walk(body, ctx + vars_of(condition)),
        StmtView::Switch { arms, default } => walk_arms(arms, ctx) + walk(default, ctx),
        StmtView::Equation { left, right } => cross(vars_of(left), vars_of(right)),
        _ => Seq::empty(),
    }
}

pub open spec fn walk_arms(arms: Seq<ArmView>, ctx: Seq<Seq<char>>) -> Seq<(Seq<char>, Seq<char>)>
    decreases arms,
{
    if arms.len() == 0 {
        Seq::empty()
    } else {
        walk_arms(arms.subrange(0, arms.len() - 1), ctx) + walk(
            arms[arms.len() - 1].body,
            ctx + vars_of(arms[arms.len() - 1].condition),
        )
    }
}

/// `out` then `more`, as far as what they hold.
pub open spec fn holds_with(
    after: Seq<(Seq<char>, Seq<char>)>,
    before: Seq<(Seq<char>, Seq<char>)>,
    more: Seq<(Seq<char>, Seq<char>)>,
) -> bool {
    forall|x: (Seq<char>, Seq<char>)| after.contains(x) <==> (before.contains(x) || more.contains(x))
}

pub proof fn lemma_contains_concat(a: Seq<(Seq<char>, Seq<char>)>, b: Seq<(Seq<char>, Seq<char>)>)
    ensures
        forall|x: (Seq<char>, Seq<char>)| (a + b).contains(x) <==> (a.contains(x) || b.contains(x)),
{
    assert forall|x: (Seq<char>, Seq<char>)| (a + b).contains(x) <==> (a.contains(x) || b.contains(x)) by {
        if (a + b).contains(x) {
            let i = choose|i: int| 0 <= i < (a + b).len() && (a + b)[i] == x;
            if i < a.len() {
                assert(a[i] == x);
            } else {
                assert(b[i - a.len()] == x);
            }
        }
        if a.contains(x) {
            let i = choose|i: int| 0 <= i < a.len() && a[i] == x;
            assert((a + b)[i] == x);
        }
        if b.contains(x) {
            let i = choose|i: int| 0 <= i < b.len() && b[i] == x;
            assert((a + b)[i + a.len()] == x);
        }
    }
}

fn copy_chars(v: &Vec<char>) -> (r: Vec<char>)
    ensures
        r@ == v@,
{
    let r = sub_chars(v, 0, v.len());
    assert(v@.subrange(0, v@.len() as int) =~= v@);
    r
}

fn copy_texts(v: &Vec<Vec<char>>) -> (r: Vec<Vec<char>>)
    ensures
        texts_view(r@) == texts_view(v@),
{
    let mut out: Vec<Vec<char>> = Vec::new();
    let mut i: usize = 0;
    while i < v.len()
        invariant
            i <= v.len(),
            texts_view(out@) =~= texts_view(v@).subrange(0, i as int),
        decreases v.len() - i,
    {
        let c = copy_chars(&v[i]);
        let ghost before = out@;
        out.push(c);
        assert(out@ =~= before.push(c));
        assert(texts_view(out@) =~= texts_view(before).push(c@));
        i = i + 1;
    }
    out
}

/// Adds the variables of `e` to `out`.
fn vars(e: &Expr, out: &mut Vec<Vec<char>>)
    ensures
        texts_view(final(out)@) == texts_view(old(out)@) + vars_of(expr_view(*e)),
    decreases e,
{
    match e {
        Expr::Var(v) => {
            let l = to_ascii_lower(&chars_of(v.as_str()));
            out.push(l);
            assert(texts_view(out@) =~= texts_view(old(out)@) + seq![l@]);
        },
        Expr::Unary(_, a) => vars(a, out),
        Expr::Binary(_, a, b) => {
            vars(a, out);
            vars(b, out);
            assert(texts_view(out@) =~= texts_view(old(out)@) + (vars_of(expr_view(**a)) + vars_of(expr_view(**b))));
        },
        Expr::Call(_, args) => vars_all(args, out),
        _ => {
            assert(texts_view(out@) =~= texts_view(old(out)@) + Seq::<Seq<char>>::empty());
        },
    }
}

fn vars_all(args: &Vec<Expr>, out: &mut Vec<Vec<char>>)
    ensures
        texts_view(final(out)@) == texts_view(old(out)@) + vars_of_all(exprs_view(args@)),
    decreases args,
{
    let mut i: usize = 0;
    assert(args@.subrange(0, 0) =~= Seq::<Expr>::empty());
    assert(texts_view(out@) =~= texts_view(old(out)@) + vars_of_all(exprs_view(args@.subrange(0, 0))));
    while i < args.len()
        invariant
            i <= args.len(),
            texts_view(out@) == texts_view(old(out)@) + vars_of_all(exprs_view(args@.subrange(0, i as int))),
        decreases args.len() - i,
    {
        let ghost mid = texts_view(out@);
        vars(&args[i], out);
        proof {
            assert(args@.subrange(0, i as int + 1) =~= args@.subrange(0, i as int).push(args@[i as int]));
            lemma_exprs_push(args@.subrange(0, i as int), args@[i as int]);
            let s = exprs_view(args@.subrange(0, i as int + 1));
            assert(s.subrange(0, s.len() - 1) =~= exprs_view(args@.subrange(0, i as int)));
            assert(texts_view(out@) =~= texts_view(old(out)@) + vars_of_all(exprs_view(args@.subrange(0, i as int + 1))));
        }
        i = i + 1;
    }
    assert(args@.subrange(0, args.len() as int) =~= args@);
}

pub proof fn lemma_contains_one(p: (Seq<char>, Seq<char>))
    ensures
        forall|x: (Seq<char>, Seq<char>)| seq![p].contains(x) <==> x == p,
{
    assert forall|x: (Seq<char>, Seq<char>)| seq![p].contains(x) <==> x == p by {
        if x == p {
            assert(seq![p][0] == x);
        }
    }
}

pub proof fn lemma_holds_trans(
    a: Seq<(Seq<char>, Seq<char>)>,
    b: Seq<(Seq<char>, Seq<char>)>,
    c: Seq<(Seq<char>, Seq<char>)>,
    w1: Seq<(Seq<char>, Seq<char>)>,
    w2: Seq<(Seq<char>, Seq<char>)>,
)
    requires
        holds_with(b, a, w1),
        holds_with(c, b, w2),
    ensures
        holds_with(c, a, w1 + w2),
{
    lemma_contains_concat(w1, w2);
}

/// Adds the pairs `(f, target)` for each `f` of `from` other than `target`.
fn add_pairs_to(from: &Vec<Vec<char>>, target: &Vec<char>, out: &mut Vec<(Vec<char>, Vec<char>)>)
    requires
        increasing(pairs_view(old(out)@)),
    ensures
        increasing(pairs_view(final(out)@)),
        holds_with(pairs_view(final(out)@), pairs_view(old(out)@), pairs_to(texts_view(from@), target@)),
{
    let ghost f = texts_view(from@);
    let mut j: usize = 0;
    assert(f.subrange(0, 0) =~= Seq::<Seq<char>>::empty());
    while j < from.len()
        invariant
            j <= from.len(),
            f == texts_view(from@),
            increasing(pairs_view(out@)),
            holds_with(pairs_view(out@), pairs_view(old(out)@), pairs_to(f.subrange(0, j as int), target@)),
        decreases from.len() - j,
    {
        let ghost mid = pairs_view(out@);
        let ghost g = f.subrange(0, j as int + 1);
        assert(g.drop_last() =~= f.subrange(0, j as int));
        assert(g.last() == from@[j as int]@);
        if !chars_eq(&from[j], target) {
            insert_pair(out, copy_chars(&from[j]), copy_chars(target));
            proof {
                lemma_contains_one((g.last(), target@));
                lemma_holds_trans(pairs_view(old(out)@), mid, pairs_view(out@), pairs_to(f.subrange(0, j as int), target@), seq![(g.last(), target@)]);
            }
        } else {
            proof {
                lemma_holds_trans(pairs_view(old(out)@), mid, pairs_view(out@), pairs_to(f.subrange(0, j as int), target@), Seq::empty());
            }
        }
        j = j + 1;
    }
    assert(f.subrange(0, from.len() as int) =~= f);
}

/// Adds each variable of `l` with each of `r`, both ways.
fn add_cross(l: &Vec<Vec<char>>, r: &Vec<Vec<char>>, out: &mut Vec<(Vec<char>, Vec<char>)>)
    requires
        increasing(pairs_view(old(out)@)),
    ensures
        increasing(pairs_view(final(out)@)),
        holds_with(pairs_view(final(out)@), pairs_view(old(out)@), cross(texts_view(l@), texts_view(r@))),
{
    let ghost lv = texts_view(l@);
    let ghost rv = texts_view(r@);
    let mut i: usize = 0;
    assert(lv.subrange(0, 0) =~= Seq::<Seq<char>>::empty());
    while i < l.len()
        invariant
            i <= l.len(),
            lv == texts_view(l@),
            rv == texts_view(r@),
            increasing(pairs_view(out@)),
            holds_with(pairs_view(out@), pairs_view(old(out)@), cross(lv.subrange(0, i as int), rv)),
        decreases l.len() - i,
    {
        let ghost mid = pairs_view(out@);
        let ghost a = lv[i as int];
        let mut j: usize = 0;
        assert(rv.subrange(0, 0) =~= Seq::<Seq<char>>::empty());
        while j < r.len()
            invariant
                i < l.len(),
                j <= r.len(),
                lv == texts_view(l@),
                rv == texts_view(r@),
                a == lv[i as int],
                increasing(pairs_view(out@)),
                holds_with(pairs_view(out@), mid, both_ways(a, rv.subrange(0, j as int))),
            decreases r.len() - j,
        {
            let ghost m2 = pairs_view(out@);
            let ghost g = rv.subrange(0, j as int + 1);
            assert(g.drop_last() =~= rv.subrange(0, j as int));
            assert(g.last() == r@[j as int]@);
            insert_pair(out, copy_chars(&l[i]), copy_chars(&r[j]));
            let ghost m3 = pairs_view(out@);
            insert_pair(out, copy_chars(&r[j]), copy_chars(&l[i]));
            proof {
                lemma_contains_one((a, g.last()));
                lemma_contains_one((g.last(), a));
                lemma_holds_trans(m2, m3, pairs_view(out@), seq![(a, g.last())], seq![(g.last(), a)]);
                assert(seq![(a, g.last())] + seq![(g.last(), a)] =~= seq![(a, g.last()), (g.last(), a)]);
                lemma_holds_trans(mid, m2, pairs_view(out@), both_ways(a, rv.subrange(0, j as int)), seq![(a, g.last()), (g.last(), a)]);
            }
            j = j + 1;
        }
        proof {
            assert(rv.subrange(0, r.len() as int) =~= rv);
            let h = lv.subrange(0, i as int + 1);
            assert(h.drop_last() =~= lv.subrange(0, i as int));
            lemma_holds_trans(pairs_view(old(out)@), mid, pairs_view(out@), cross(lv.subrange(0, i as int), rv), both_ways(a, rv));
        }
        i = i + 1;
    }
    assert(lv.subrange(0, l.len() as int) =~= lv);
}

/// Adds the pairs of `body`, whose conditions around are `context`.
fn walk_body(body: &Vec<Stmt>, context: &Vec<Vec<char>>, out: &mut Vec<(Vec<char>, Vec<char>)>)
    requires
        increasing(pairs_view(old(out)@)),
    ensures
        increasing(pairs_view(final(out)@)),
        holds_with(pairs_view(final(out)@), pairs_view(old(out)@), walk(stmts_view(body@), texts_view(context@))),
    decreases body,
{
    let ghost ctx = texts_view(context@);
    let mut i: usize = 0;
    assert(body@.subrange(0, 0) =~= Seq::<Stmt>::empty());
    assert(stmts_view(body@.subrange(0, 0)) =~= Seq::<StmtView>::empty());
    while i < body.len()
        invariant
            i <= body.len(),
            ctx == texts_view(context@),
            increasing(pairs_view(out@)),
            holds_with(pairs_view(out@), pairs_view(old(out)@), walk(stmts_view(body@.subrange(0, i as int)), ctx)),
        decreases body.len() - i,
    {
        let ghost mid = pairs_view(out@);
        match &body[i] {
            Stmt::Assign { target, value } => {
                let mut from = copy_texts(context);
                vars(value, &mut from);
                let tgt = to_ascii_lower(&chars_of(target.as_str()));
                add_pairs_to(&from, &tgt, out);
            },
            Stmt::AssignDeferred { target, value } => {
                let mut from = copy_texts(context);
                vars(value, &mut from);
                let tgt = to_ascii_lower(&chars_of(target.as_str()));
                add_pairs_to(&from, &tgt, out);
            },
            Stmt::If { condition, then_body, else_body } => {
                let mut inner = copy_texts(context);
                vars(condition, &mut inner);
                walk_body(then_body, &inner, out);
                let ghost m2 = pairs_view(out@);
                walk_body(else_body, &inner, out);
                proof {
                    lemma_holds_trans(
                        mid,
                        m2,
                        pairs_view(out@),
                        walk(stmts_view(then_body@), texts_view(inner@)),
                        walk(stmts_view(else_body@), texts_view(inner@)),
                    );
                }
            },
            Stmt::While { condition, body: b } => {
                let mut inner = copy_texts(context);
                vars(condition, &mut inner);
                walk_body(b, &inner, out);
            },
            Stmt::DoUntil { body: b, condition } => {
                let mut inner = copy_texts(context);
                vars(condition, &mut inner);
                walk_body(b, &inner, out);
            },
            Stmt::Switch { arms, default } => {
                let ghost av = arms_view(arms@);
                let mut j: usize = 0;
                assert(arms@.subrange(0, 0) =~= Seq::<crate::lang::ast::CaseArm>::empty());
                assert(arms_view(arms@.subrange(0, 0)) =~= Seq::<ArmView>::empty());
                while j < arms.len()
                    invariant
                        j <= arms.len(),
                        i < body.len(),
                        body@[i as int] matches Stmt::Switch { arms: a, .. } && a == *arms,
                        ctx == texts_view(context@),
                        increasing(pairs_view(out@)),
                        holds_with(pairs_view(out@), mid, walk_arms(arms_view(arms@.subrange(0, j as int)), ctx)),
                    decreases arms.len() - j,
                {
                    let ghost m2 = pairs_view(out@);
                    let mut inner = copy_texts(context);
                    vars(&arms[j].condition, &mut inner);
                    walk_body(&arms[j].body, &inner, out);
                    proof {
                        assert(arms@.subrange(0, j as int + 1) =~= arms@.subrange(0, j as int).push(arms@[j as int]));
                        lemma_arms_push(arms@.subrange(0, j as int), arms@[j as int]);
                        let s2 = arms_view(arms@.subrange(0, j as int + 1));
                        assert(s2.subrange(0, s2.len() - 1) =~= arms_view(arms@.subrange(0, j as int)));
                        lemma_holds_trans(
                            mid,
                            m2,
                            pairs_view(out@),
                            walk_arms(arms_view(arms@.subrange(0, j as int)), ctx),
                            walk(stmts_view(arms@[j as int].body@), texts_view(inner@)),
                        );
                    }
                    j = j + 1;
                }
                assert(arms@.subrange(0, arms.len() as int) =~= arms@);
                let ghost m2 = pairs_view(out@);
                walk_body(default, context, out);
                proof {
                    lemma_holds_trans(mid, m2, pairs_view(out@), walk_arms(av, ctx), walk(stmts_view(default@), ctx));
                }
            },
            Stmt::Equation { left, right } => {
                let mut l: Vec<Vec<char>> = Vec::new();
                vars(left, &mut l);
                let mut r: Vec<Vec<char>> = Vec::new();
                vars(right, &mut r);
                assert(texts_view(l@) =~= vars_of(expr_view(*left)));
                assert(texts_view(r@) =~= vars_of(expr_view(*right)));
                add_cross(&l, &r, out);
            },
            _ => {
                assert(holds_with(pairs_view(out@), mid, Seq::empty()));
            },
        }
        proof {
            assert(body@.subrange(0, i as int + 1) =~= body@.subrange(0, i as int).push(body@[i as int]));
            lemma_stmts_push(body@.subrange(0, i as int), body@[i as int]);
            let s2 = stmts_view(body@.subrange(0, i as int + 1));
            assert(s2.subrange(0, s2.len() - 1) =~= stmts_view(body@.subrange(0, i as int)));
            lemma_holds_trans(
                pairs_view(old(out)@),
                mid,
                pairs_view(out@),
                walk(stmts_view(body@.subrange(0, i as int)), ctx),
                walk_one(stmt_view(body@[i as int]), ctx),
            );
        }
        i = i + 1;
    }
    assert(body@.subrange(0, body.len() as int) =~= body@);
}

/// Whatever a statement of a body gives, the body gives.
proof fn lemma_walk_has(body: Seq<StmtView>, ctx: Seq<Seq<char>>, k: int, x: (Seq<char>, Seq<char>))
    requires
        0 <= k < body.len(),
        walk_one(body[k], ctx).contains(x),
    ensures
        walk(body, ctx).contains(x),
    decreases body.len(),
{
    let n = body.len();
    let front = body.subrange(0, n - 1);
    lemma_contains_concat(walk(front, ctx), walk_one(body[n - 1], ctx));
    if k < n - 1 {
        assert(front[k] == body[k]);
        lemma_walk_has(front, ctx, k, x);
    }
}

/// Each variable of `from` other than `target` gives the pair to `target`.
proof fn lemma_pairs_to_has(from: Seq<Seq<char>>, target: Seq<char>, v: Seq<char>)
    requires
        from.contains(v),
        v != target,
    ensures
        pairs_to(from, target).contains((v, target)),
    decreases from.len(),
{
    let i = choose|i: int| 0 <= i < from.len() && from[i] == v;
    assert(from.len() > 0);
    let front = from.drop_last();
    let last_part = if from.last() != target {
        seq![(from.last(), target)]
    } else {
        Seq::<(Seq<char>, Seq<char>)>::empty()
    };
    assert(pairs_to(from, target) == pairs_to(front, target) + last_part);
    lemma_contains_concat(pairs_to(front, target), last_part);
    if from.last() == v {
        assert(last_part[0] == (v, target));
        assert(last_part.contains((v, target)));
    } else {
        assert(i < from.len() - 1);
        assert(front[i] == v);
        lemma_pairs_to_has(front, target, v);
    }
}

/// The conditions of an `if` are causes of what both its branches assign:
/// for a statement `if (c) ... else ... endif` of a body and an assignment
/// `t := e` standing in its `then` branch or in its `else` branch, every
/// variable of `c` other than `t` is a cause of `t` (whatever conditions
/// surround the body).
pub proof fn law_condition_causes_branches(
    body: Seq<StmtView>,
    ctx: Seq<Seq<char>>,
    k: int,
    condition: ExprView,
    then_body: Seq<StmtView>,
    else_body: Seq<StmtView>,
    in_else: bool,
    j: int,
    target: Seq<char>,
    value: ExprView,
    v: Seq<char>,
)
    requires
        0 <= k < body.len(),
        body[k] == (StmtView::If { condition, then_body, else_body }),
        0 <= j < (if in_else { else_body } else { then_body }).len(),
        (if in_else { else_body } else { then_body })[j] == (StmtView::Assign { target, value }),
        vars_of(condition).contains(v),
        v != ascii_lower_seq(target),
    ensures
        walk(body, ctx).contains((v, ascii_lower_seq(target))),
{
    let branch = if in_else { else_body } else { then_body };
    let inner = ctx + vars_of(condition);
    let from = inner + vars_of(value);
    let x = (v, ascii_lower_seq(target));
    let i = choose|i: int| 0 <= i < vars_of(condition).len() && vars_of(condition)[i] == v;
    assert(from[ctx.len() + i] == v);
    lemma_pairs_to_has(from, ascii_lower_seq(target), v);
    assert(walk_one(branch[j], inner).contains(x));
    lemma_walk_has(branch, inner, j, x);
    lemma_contains_concat(walk(then_body, inner), walk(else_body, inner));
    assert(walk_one(body[k], ctx).contains(x));
    lemma_walk_has(body, ctx, k, x);
}

/// An assignment's causes: for a statement `t := e` (or `t :== e`) of a
/// body, every variable of `e`, and every variable of the conditions that
/// surround the body, other than `t` itself, is a cause of `t`.
pub proof fn law_assignment_causes(
    body: Seq<StmtView>,
    ctx: Seq<Seq<char>>,
    k: int,
    deferred: bool,
    target: Seq<char>,
    value: ExprView,
    v: Seq<char>,
)
    requires
        0 <= k < body.len(),
        body[k] == (if deferred {
            StmtView::AssignDeferred { target, value }
        } else {
            StmtView::Assign { target, value }
        }),
        ctx.contains(v) || vars_of(value).contains(v),
        v != ascii_lower_seq(target),
    ensures
        walk(body, ctx).contains((v, ascii_lower_seq(target))),
{
    let from = ctx + vars_of(value);
    if ctx.contains(v) {
        let i = choose|i: int| 0 <= i < ctx.len() && ctx[i] == v;
        assert(from[i] == v);
    } else {
        let i = choose|i: int| 0 <= i < vars_of(value).len() && vars_of(value)[i] == v;
        assert(from[ctx.len() + i] == v);
    }
    lemma_pairs_to_has(from, ascii_lower_seq(target), v);
    lemma_walk_has(body, ctx, k, (v, ascii_lower_seq(target)));
}

/// The condition of a loop is a cause of what its body assigns: for a
/// statement `while (c) ... endwhile` or `do ... until (c)` of a body and an
/// assignment `t := e` in the loop's body, every variable of `c` other than
/// `t` is a cause of `t`.
pub proof fn law_loop_condition_causes_body(
    body: Seq<StmtView>,
    ctx: Seq<Seq<char>>,
    k: int,
    is_do: bool,
    condition: ExprView,
    inner: Seq<StmtView>,
    j: int,
    target: Seq<char>,
    value: ExprView,
    v: Seq<char>,
)
    requires
        0 <= k < body.len(),
        body[k] == (if is_do {
            StmtView::DoUntil { body: inner, condition }
        } else {
            StmtView::While { condition, body: inner }
        }),
        0 <= j < inner.len(),
        inner[j] == (StmtView::Assign { target, value }),
        vars_of(condition).contains(v),
        v != ascii_lower_seq(target),
    ensures
        walk(body, ctx).contains((v, ascii_lower_seq(target))),
{
    let c2 = ctx + vars_of(condition);
    let i = choose|i: int| 0 <= i < vars_of(condition).len() && vars_of(condition)[i] == v;
    assert(c2[ctx.len() + i] == v);
    law_assignment_causes(inner, c2, j, false, target, value, v);
    assert(walk_one(body[k], ctx).contains((v, ascii_lower_seq(target))));
    lemma_walk_has(body, ctx, k, (v, ascii_lower_seq(target)));
}

/// Whatever an arm of a `switch` gives under its own condition, the arms
/// give.
proof fn lemma_arms_have(arms: Seq<ArmView>, ctx: Seq<Seq<char>>, a: int, x: (Seq<char>, Seq<char>))
    requires
        0 <= a < arms.len(),
        walk(arms[a].body, ctx + vars_of(arms[a].condition)).contains(x),
    ensures
        walk_arms(arms, ctx).contains(x),
    decreases arms.len(),
{
    let n = arms.len();
    let front = arms.subrange(0, n - 1);
    lemma_contains_concat(walk_arms(front, ctx), walk(arms[n - 1].body, ctx + vars_of(arms[n - 1].condition)));
    if a < n - 1 {
        assert(front[a] == arms[a]);
        lemma_arms_have(front, ctx, a, x);
    }
}

/// The condition of an arm of a `switch` is a cause of what that arm
/// assigns: for an arm `case c: ...` of a `switch` of a body and an
/// assignment `t := e` in that arm, every variable of `c` other than `t` is
/// a cause of `t`.
pub proof fn law_case_condition_causes_arm(
    body: Seq<StmtView>,
    ctx: Seq<Seq<char>>,
    k: int,
    arms: Seq<ArmView>,
    default: Seq<StmtView>,
    a: int,
    j: int,
    target: Seq<char>,
    value: ExprView,
    v: Seq<char>,
)
    requires
        0 <= k < body.len(),
        body[k] == (StmtView::Switch { arms, default }),
        0 <= a < arms.len(),
        0 <= j < arms[a].body.len(),
        arms[a].body[j] == (StmtView::Assign { target, value }),
        vars_of(arms[a].condition).contains(v),
        v != ascii_lower_seq(target),
    ensures
        walk(body, ctx).contains((v, ascii_lower_seq(target))),
{
    let x = (v, ascii_lower_seq(target));
    let c2 = ctx + vars_of(arms[a].condition);
    let i = choose|i: int| 0 <= i < vars_of(arms[a].condition).len() && vars_of(arms[a].condition)[i] == v;
    assert(c2[ctx.len() + i] == v);
    law_assignment_causes(arms[a].body, c2, j, false, target, value, v);
    lemma_arms_have(arms, ctx, a, x);
    lemma_contains_concat(walk_arms(arms, ctx), walk(default, ctx));
    assert(walk_one(body[k], ctx).contains(x));
    lemma_walk_has(body, ctx, k, x);
}

/// The texts of a list of pairs of strings.
pub open spec fn string_pairs_view(s: Seq<(String, String)>) -> Seq<(Seq<char>, Seq<char>)> {
    s.map_values(|p: (String, String)| (p.0@, p.1@))
}

/// The dependencies of a text: the pairs (cause, variable), in increasing
/// order and each once.
pub fn dependencies(model: &Model) -> (r: Vec<(String, String)>)
    ensures
        increasing(string_pairs_view(r@)),
        forall|x: (Seq<char>, Seq<char>)|
            string_pairs_view(r@).contains(x) <==> walk(stmts_view(model.body@), Seq::empty()).contains(x),
{
    let mut out: Vec<(Vec<char>, Vec<char>)> = Vec::new();
    let context: Vec<Vec<char>> = Vec::new();
    assert(texts_view(context@) =~= Seq::<Seq<char>>::empty());
    walk_body(&model.body, &context, &mut out);
    let ghost pv = pairs_view(out@);
    let mut r: Vec<(String, String)> = Vec::new();
    let mut i: usize = 0;
    while i < out.len()
        invariant
            i <= out.len(),
            pv == pairs_view(out@),
            string_pairs_view(r@) =~= pv.subrange(0, i as int),
        decreases out.len() - i,
    {
        let a = string_of_chars(&out[i].0);
        let b = string_of_chars(&out[i].1);
        let ghost before = r@;
        r.push((a, b));
        assert(r@ =~= before.push((a, b)));
        assert(string_pairs_view(r@) =~= string_pairs_view(before).push((a@, b@)));
        i = i + 1;
    }
    assert(pv.subrange(0, out.len() as int) =~= pv);
    r
}

} // verus!
