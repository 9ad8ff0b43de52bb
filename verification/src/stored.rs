//! How stored types refer to the functions around them.

use vstd::prelude::*;
use crate::ast::{Expr, ExprS, Refinement, Type, TypeHeadS, TypeS, opt_name_view};
use crate::name::{Name, NameS, names_view};
use crate::pi::{PiMode, PiModeS, lemma_close_expr_typed, opt_names_view, pi_expr, pi_walk_pred};
use crate::scope::{free_in_ty, is_free_in_type};
use crate::tree::{expr_refs_view, type_refs_view};

verus! {

/// The binder of a stored function whose codomain still names it.
pub open spec fn own_spelling(t: TypeS) -> Seq<NameS> {
    match t.head {
        TypeHeadS::Fun(Some(b), _) => if t.kids.len() > 0 && free_in_ty(
            b,
            t.kids[t.kids.len() - 1],
        ) {
            seq![b]
        } else {
            Seq::empty()
        },
        _ => Seq::empty(),
    }
}

/// The binders of the stored functions in `t` whose codomains still name them.
pub open spec fn spelled_in_ty(t: TypeS) -> Seq<NameS>
    decreases t, t.kids.len() + t.preds.len() + 1,
{
    own_spelling(t) + spelled_in_kids(t, t.kids.len()) + spelled_in_preds(t, t.preds.len())
}

/// Those in the first `n` components.
pub open spec fn spelled_in_kids(t: TypeS, n: nat) -> Seq<NameS>
    decreases t, n,
{
    if n == 0 || n > t.kids.len() {
        Seq::empty()
    } else {
        spelled_in_kids(t, (n - 1) as nat) + spelled_in_ty(t.kids[n - 1])
    }
}

/// Those in the first `n` predicates.
pub open spec fn spelled_in_preds(t: TypeS, n: nat) -> Seq<NameS>
    decreases t, n,
{
    if n == 0 || n > t.preds.len() {
        Seq::empty()
    } else {
        spelled_in_preds(t, (n - 1) as nat) + spelled_in_expr(t.preds[n - 1])
    }
}

/// Those in the types recorded in a term.
pub open spec fn spelled_in_expr(e: ExprS) -> Seq<NameS>
    decreases e, e.kids.len() + 1,
{
    (if e.tys.len() > 0 {
        spelled_in_ty(e.tys[0])
    } else {
        Seq::empty()
    }) + spelled_in_terms(e, e.kids.len())
}

/// Those in the first `n` subterms.
pub open spec fn spelled_in_terms(e: ExprS, n: nat) -> Seq<NameS>
    decreases e, n,
{
    if n == 0 || n > e.kids.len() {
        Seq::empty()
    } else {
        spelled_in_terms(e, (n - 1) as nat) + spelled_in_expr(e.kids[n - 1])
    }
}

/// The binders of the stored functions in `ty` whose codomains still name them
/// instead of pointing at them.
pub fn name_spelled_stored_binders(ty: &Type) -> (r: Vec<Name>)
    ensures
        names_view(r@) == spelled_in_ty(ty.view()),
    decreases ty.view(),
{
    let ghost tv = ty.view();
    let mut out: Vec<Name> = Vec::new();
    match ty {
        Type::Fun { name: Some(b), fun_kind, domain, codomain } => {
            assert(tv.kids[tv.kids.len() - 1] == codomain.view());
            if is_free_in_type(b, codomain) {
                out.push(b.clone());
            }
        },
        _ => {},
    }
    assert(names_view(out@) =~= own_spelling(tv));
    let ghost own = own_spelling(tv);
    let kids = ty.walk_children();
    assert(kids@.len() == tv.kids.len());
    assert(own + spelled_in_kids(tv, 0) =~= own);
    let mut i: usize = 0;
    while i < kids.len()
        invariant
            i <= kids.len(),
            tv == ty.view(),
            kids@.len() == tv.kids.len(),
            type_refs_view(kids@) == tv.kids,
            names_view(out@) == own + spelled_in_kids(tv, i as nat),
        decreases kids.len() - i,
    {
        assert(kids@[i as int].view() == tv.kids[i as int]);
        assert(decreases_to!(tv => tv.kids[i as int]));
        let ghost before = out@;
        let mut more = name_spelled_stored_binders(kids[i]);
        let ghost added = more@;
        out.append(&mut more);
        assert(names_view(out@) =~= names_view(before) + names_view(added));
        assert(names_view(out@) =~= own + spelled_in_kids(tv, (i + 1) as nat));
        i = i + 1;
    }
    let ghost front = own + spelled_in_kids(tv, tv.kids.len());
    let preds = ty.predicates();
    assert(preds@.len() == tv.preds.len());
    assert(front + spelled_in_preds(tv, 0) =~= front);
    let mut i: usize = 0;
    while i < preds.len()
        invariant
            i <= preds.len(),
            tv == ty.view(),
            preds@.len() == tv.preds.len(),
            expr_refs_view(preds@) == tv.preds,
            names_view(out@) == front + spelled_in_preds(tv, i as nat),
        decreases preds.len() - i,
    {
        assert(preds@[i as int].view() == tv.preds[i as int]);
        assert(decreases_to!(tv => tv.preds[i as int]));
        let ghost before = out@;
        let mut more = spelled_in_term(preds[i]);
        let ghost added = more@;
        out.append(&mut more);
        assert(names_view(out@) =~= names_view(before) + names_view(added));
        assert(names_view(out@) =~= front + spelled_in_preds(tv, (i + 1) as nat));
        i = i + 1;
    }
    out
}

/// The binders of the stored functions in the types a term records whose
/// codomains still name them.
fn spelled_in_term(e: &Expr) -> (r: Vec<Name>)
    ensures
        names_view(r@) == spelled_in_expr(e.view()),
    decreases e.view(),
{
    let ghost ev = e.view();
    assert(ev.tys[0] == e.ty.view());
    assert(decreases_to!(ev => ev.tys[0]));
    let mut out = name_spelled_stored_binders(&e.ty);
    let ghost own = spelled_in_ty(ev.tys[0]);
    let kids = e.children();
    assert(kids@.len() == ev.kids.len());
    assert(own + spelled_in_terms(ev, 0) =~= own);
    let mut i: usize = 0;
    while i < kids.len()
        invariant
            i <= kids.len(),
            ev == e.view(),
            kids@.len() == ev.kids.len(),
            expr_refs_view(kids@) == ev.kids,
            names_view(out@) == own + spelled_in_terms(ev, i as nat),
        decreases kids.len() - i,
    {
        assert(kids@[i as int].view() == ev.kids[i as int]);
        assert(decreases_to!(ev => ev.kids[i as int]));
        let ghost before = out@;
        let mut more = spelled_in_term(kids[i]);
        let ghost added = more@;
        out.append(&mut more);
        assert(names_view(out@) =~= names_view(before) + names_view(added));
        assert(names_view(out@) =~= own + spelled_in_terms(ev, (i + 1) as nat));
        i = i + 1;
    }
    out
}

/// The functions a walk is inside of, innermost last; one without a name still
/// counts.
pub struct RefinementScope {
    pub enclosing: Vec<Option<Name>>,
}

impl RefinementScope {
    pub open spec fn view(&self) -> Seq<Option<NameS>> {
        opt_names_view(self.enclosing@)
    }

    /// Outside every function.
    pub fn new() -> (r: RefinementScope)
        ensures
            r.view() == Seq::<Option<NameS>>::empty(),
    {
        let out = RefinementScope { enclosing: Vec::new() };
        assert(out.view() =~= Seq::empty());
        out
    }

    /// Enters the codomain of a function binding `name`.
    pub fn enter(&mut self, name: Option<Name>)
        ensures
            final(self).view() == old(self).view().push(opt_name_view(name)),
    {
        let ghost before = self.view();
        self.enclosing.push(name);
        assert(self.view() =~= before.push(opt_name_view(name)));
    }

    /// Leaves the codomain entered last.
    pub fn exit(&mut self)
        ensures
            final(self).view() == (if old(self).view().len() > 0 {
                old(self).view().drop_last()
            } else {
                old(self).view()
            }),
    {
        let ghost before = self.view();
        if self.enclosing.len() > 0 {
            let _last = self.enclosing.pop();
            assert(self.view() =~= before.drop_last());
        }
    }

    /// The functions entered.
    pub fn enclosing(&self) -> (r: &Vec<Option<Name>>)
        ensures
            opt_names_view(r@) == self.view(),
    {
        &self.enclosing
    }

    /// The restriction `r` with its references to the functions entered turned
    /// into indices.
    pub fn close(&self, r: &Refinement) -> (c: Refinement)
        ensures
            c.predicate.view() == pi_expr(
                PiModeS::Close(self.view()),
                r.predicate.view(),
                0,
                Seq::empty(),
            ),
    {
        let none: Vec<Name> = Vec::new();
        let mode = PiMode::Close(&self.enclosing);
        proof {
            assert(names_view(none@) =~= Seq::empty());
            lemma_close_expr_typed(mode.view(), r.predicate.view(), 0);
        }
        Refinement::born(pi_walk_pred(&mode, &r.predicate, 0, &none))
    }
}

} // verus!
