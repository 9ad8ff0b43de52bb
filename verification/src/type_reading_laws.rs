//! The laws of how types are printed.

use vstd::prelude::*;
use crate::ast::{
    BaseType, BinOpKind, CompareKind, FieldKeyS, FunKindS, HeadS, HistoryKind, Lit, LitS,
    Openness, Refinement, TypeHeadS, TypeS,
};
use crate::kind_vars::{arrow_text, binders_of};
use crate::layout::{cat2, cat3, cat4, cat5, cat7, cat9};
use crate::name::NameS;
use crate::reading_laws::{in_a_row, lemma_in_a_row, read_lit};
use crate::symbolic::{
    Precedence, ShowS, arrow_layout, flat_texts, is_anonymous_sum, lit_text, pred_texts,
    singleton_of, slot_texts, tag_texts, text, ty_kid_texts, ty_text, witnesses_text,
};
use crate::text::{nat_text, sorted};

verus! {

/// Whether a type is a sum whose parts have no names.
pub open spec fn is_nameless_sum(t: TypeS) -> bool {
    t.head matches TypeHeadS::Variant(keys, _) && forall|i: int|
        0 <= i < keys.len() ==> (#[trigger] keys[i]) is Index
}

/// The parts of a nameless sum, with those of the nameless sums among them in their
/// places.
pub open spec fn summands(t: TypeS) -> Seq<TypeS>
    decreases t, t.kids.len() + 1,
{
    summands_upto(t, t.kids.len())
}

pub open spec fn summands_upto(t: TypeS, n: nat) -> Seq<TypeS>
    decreases t, n,
{
    if n == 0 || n > t.kids.len() {
        Seq::empty()
    } else {
        summands_upto(t, (n - 1) as nat) + (if is_nameless_sum(t.kids[n - 1]) {
            summands(t.kids[n - 1])
        } else {
            seq![t.kids[n - 1]]
        })
    }
}

/// The types as they are printed.
pub open spec fn printed_types(c: ShowS, ts: Seq<TypeS>) -> Seq<Seq<char>> {
    Seq::new(ts.len(), |i: int| ty_text(c, ts[i]))
}

/// What shows that a sum admits more.
pub open spec fn and_more(o: Openness) -> Seq<char> {
    match o {
        Openness::Open => " | …"@,
        Openness::Closed => Seq::empty(),
    }
}

pub open spec fn read_label(k: FieldKeyS) -> Seq<char> {
    match k {
        FieldKeyS::Index(n) => nat_text(n as nat),
        FieldKeyS::Name(s) => s,
    }
}

/// A tag with its payload, which does not show where there is nothing in it, and is in
/// braces.
pub open spec fn read_tag(c: ShowS, k: FieldKeyS, payload: TypeS) -> Seq<char> {
    let shown = ty_text(c, payload);
    if payload.head == TypeHeadS::Base(BaseType::Unit) {
        "`"@ + read_label(k) + Seq::empty()
    } else if shown.len() > 0 && shown[0] == '{' && shown.last() == '}' {
        "`"@ + read_label(k) + shown
    } else {
        "`"@ + read_label(k) + ("{"@ + shown + "}"@)
    }
}

/// Whether a restricted type is that of one literal: its restriction says that what has
/// the type equals it.
pub open spec fn is_that_of(t: TypeS, l: LitS) -> bool {
    t.preds.len() == 1 && t.preds[0].head == HeadS::BinOp(BinOpKind::Compare(CompareKind::Equals))
        && t.preds[0].kids.len() == 2 && t.preds[0].kids[0].head == HeadS::Var(NameS::Elem)
        && t.preds[0].kids[1].head == HeadS::Lit(l)
}

/// The restrictions as they are printed, without types.
pub open spec fn printed_restrictions(c: ShowS, t: TypeS) -> Seq<Seq<char>> {
    Seq::new(
        t.preds.len(),
        |i: int| text(ShowS { types: false, ..c }, t.preds[i], Precedence::Lowest),
    )
}

/// Whether a type has the parts that its form calls for.
pub open spec fn has_its_types(t: TypeS) -> bool {
    match t.head {
        TypeHeadS::Fun(_, kind) => t.kids.len() >= 2,
        TypeHeadS::BoundedHole => t.kids.len() == 1,
        TypeHeadS::Record(names) => t.kids.len() == names.len(),
        TypeHeadS::Variant(keys, _) => t.kids.len() == keys.len(),
        TypeHeadS::Refinement => t.kids.len() == 1,
        TypeHeadS::History(_) => t.kids.len() == 2,
        _ => true,
    }
}

proof fn lemma_summands(c: ShowS, t: TypeS, n: nat)
    requires
        n <= t.kids.len(),
    ensures
        flat_texts(c, t, n) == printed_types(c, summands_upto(t, n)),
    decreases t, n,
{
    if n > 0 {
        lemma_summands(c, t, (n - 1) as nat);
        let kid = t.kids[n - 1];
        let a = summands_upto(t, (n - 1) as nat);
        if is_nameless_sum(kid) {
            assert(is_anonymous_sum(kid));
            lemma_summands(c, kid, kid.kids.len());
            let b = summands_upto(kid, kid.kids.len());
            assert(summands(kid) == b);
            assert(printed_types(c, a + b) =~= printed_types(c, a) + printed_types(c, b));
        } else {
            assert(!is_anonymous_sum(kid));
            assert(printed_types(c, a + seq![kid]) =~= printed_types(c, a) + seq![ty_text(c, kid)]);
        }
    } else {
        assert(printed_types(c, summands_upto(t, 0)) =~= Seq::empty());
        assert(flat_texts(c, t, 0) =~= Seq::empty());
    }
}

/// A nameless sum is printed as all its parts, however they are nested, with bars
/// between them: the nesting of nameless sums does not show.
pub proof fn law_nameless_sums_are_printed_flat(c: ShowS, t: TypeS)
    requires
        is_nameless_sum(t),
        has_its_types(t),
    ensures
        t.head matches TypeHeadS::Variant(_, o) && ty_text(c, t) == in_a_row(
            printed_types(c, summands(t)),
            " | "@,
        ) + and_more(o),
{
    reveal(cat2);
    lemma_summands(c, t, t.kids.len());
    lemma_in_a_row(printed_types(c, summands(t)), " | "@);
}

/// A sum with names is printed as its tags with their payloads, in braces.
pub proof fn law_tags_are_printed_with_their_payloads(
    c: ShowS,
    t: TypeS,
    keys: Seq<FieldKeyS>,
    o: Openness,
)
    requires
        t.head == TypeHeadS::Variant(keys, o),
        !is_nameless_sum(t),
        has_its_types(t),
    ensures
        ty_text(c, t) == "{"@ + in_a_row(
            Seq::new(keys.len(), |i: int| read_tag(c, keys[i], t.kids[i])),
            " | "@,
        ) + and_more(o) + "}"@,
{
    reveal(cat3);
    reveal(cat4);
    let rows = Seq::new(keys.len(), |i: int| read_tag(c, keys[i], t.kids[i]));
    let shown = tag_texts(c, t, keys);
    assert forall|i: int| 0 <= i < keys.len() implies shown[i] == rows[i] by {
        let p = ty_text(c, t.kids[i]);
    }
    assert(shown =~= rows);
    lemma_in_a_row(rows, " | "@);
}

/// A product is printed as its components in order: in parentheses, or with their labels
/// in braces.
pub proof fn law_products_are_printed_in_order(c: ShowS, t: TypeS)
    requires
        has_its_types(t),
    ensures
        t.head is Tuple ==> ty_text(c, t) == "("@ + in_a_row(printed_types(c, t.kids), ", "@) + ")"@,
        t.head matches TypeHeadS::Record(names) ==> ty_text(c, t) == "{"@ + in_a_row(
            Seq::new(names.len(), |i: int| names[i] + ": "@ + ty_text(c, t.kids[i])),
            ", "@,
        ) + "}"@,
{
    reveal(cat3);
    let n = t.kids.len();
    match t.head {
        TypeHeadS::Tuple => {
            assert(ty_kid_texts(c, t, 0, n) =~= printed_types(c, t.kids));
            lemma_in_a_row(printed_types(c, t.kids), ", "@);
        },
        TypeHeadS::Record(names) => {
            let rows = Seq::new(names.len(), |i: int| names[i] + ": "@ + ty_text(c, t.kids[i]));
            assert(slot_texts(c, t, names) =~= rows);
            lemma_in_a_row(rows, ", "@);
        },
        _ => {},
    }
}

/// A restricted type is printed as what it restricts with its restrictions in the order
/// of texts, in braces; that of one literal as what it restricts at the literal.
pub proof fn law_restrictions_are_printed_in_order(c: ShowS, t: TypeS)
    requires
        t.head is Refinement,
        has_its_types(t),
    ensures
        forall|l: LitS| #[trigger]
            is_that_of(t, l) ==> ty_text(c, t) == ty_text(c, t.kids[0]) + "@"@ + read_lit(l),
        (forall|l: LitS| !#[trigger] is_that_of(t, l)) ==> ty_text(c, t) == "{"@ + ty_text(
            c,
            t.kids[0],
        ) + " | "@ + in_a_row(sorted(printed_restrictions(c, t)), ", "@) + "}"@,
{
    reveal(cat3);
    reveal(cat5);
    assert(pred_texts(c, t) =~= printed_restrictions(c, t));
    lemma_in_a_row(sorted(printed_restrictions(c, t)), ", "@);
    match singleton_of(t) {
        Some(l) => {
            assert(is_that_of(t, l));
            assert(lit_text(l) == read_lit(l));
        },
        None => {
            if t.preds.len() == 1 && t.preds[0].kids.len() == 2 && t.preds[0].kids[1].head is Lit {
                assert(!is_that_of(t, t.preds[0].kids[1].head->Lit_0));
            }
        },
    }
}

/// The types of histories, of ranges and of what is not known are printed as follows: a
/// history with what it holds and what indexes it, a range by its last element, a hole by
/// what tells it from others.
pub proof fn law_other_types_are_printed(c: ShowS, t: TypeS)
    requires
        has_its_types(t),
    ensures
        t.head == TypeHeadS::Base(BaseType::Int) ==> ty_text(c, t) == "Int"@,
        t.head == TypeHeadS::Base(BaseType::String) ==> ty_text(c, t) == "String"@,
        t.head == TypeHeadS::Base(BaseType::Bool) ==> ty_text(c, t) == "Bool"@,
        t.head == TypeHeadS::Base(BaseType::Unit) ==> ty_text(c, t) == "Unit"@,
        t.head == TypeHeadS::History(HistoryKind::Overwrite) ==> ty_text(c, t) == "Mut("@ + ty_text(
            c,
            t.kids[0],
        ) + ", "@ + ty_text(c, t.kids[1]) + ")"@,
        t.head == TypeHeadS::History(HistoryKind::Append) ==> ty_text(c, t) == "feed("@ + ty_text(
            c,
            t.kids[1],
        ) + " ⤇ "@ + ty_text(c, t.kids[0]) + ")"@,
        t.head matches TypeHeadS::UIntRange(k) ==> ty_text(c, t) == (if k == 0 {
            "∅"@
        } else {
            "[0, "@ + nat_text((k - 1) as nat) + "]"@
        }),
        t.head is BoundedHole ==> ty_text(c, t) == "<:"@ + ty_text(c, t.kids[0]),
        t.head is Hole ==> ty_text(c, t) == "_"@,
        t.head matches TypeHeadS::SharedHole(id) ==> ty_text(c, t) == "_#"@ + nat_text(id as nat),
        t.head matches TypeHeadS::Infer(v) ==> ty_text(c, t) == "?"@ + nat_text(v.uid as nat),
        t.head matches TypeHeadS::DataSource(s) ==> ty_text(c, t) == "source("@ + s + ")"@,
        t.head matches TypeHeadS::ChanDom(x, _) ==> ty_text(c, t) == "chan("@ + x.base() + ")"@,
        t.head is Txn ==> ty_text(c, t) == "Txn"@,
        t.head matches TypeHeadS::WitnessRef(w) ==> ty_text(c, t) == (if c.ids {
            "σ@"@ + nat_text(w.0.0 as nat)
        } else {
            "σ"@
        }),
{
    reveal(cat2);
    reveal(cat3);
    reveal(cat5);
}

/// A function without witnesses is printed as its domain, its arrow and its codomain in
/// parentheses, the domain under its name where it has one; the codomain is read inside
/// the function, where references to its argument show that name.
pub proof fn law_functions_are_printed_with_their_arrow(
    c: ShowS,
    t: TypeS,
    name: Option<NameS>,
    kind: FunKindS,
)
    requires
        t.head == TypeHeadS::Fun(name, kind),
        t.kids.len() == 2,
        binders_of(kind).len() == 0,
    ensures
        ({
            let inside = ShowS { env: c.env.push(name), ..c };
            let d = ty_text(c, t.kids[0]);
            let r = ty_text(inside, t.kids[1]);
            let arrow = arrow_text(c.kinds, kind);
            ty_text(c, t) == (match name {
                Some(x) => "(("@ + x.base() + ": "@ + d + ") "@ + arrow + " "@ + r + ")"@,
                None => "("@ + d + " "@ + arrow + " "@ + r + ")"@,
            })
        }),
{
    reveal(cat2);
    reveal(cat7);
    reveal(cat9);
    let w = witnesses_text(c, t, binders_of(kind), 0);
    assert(w =~= Seq::empty());
    let shown = ty_text(c, t);
    let rest = arrow_layout(
        name,
        ty_text(c, t.kids[0]),
        arrow_text(c.kinds, kind),
        ty_text(c.crossing(name), t.kids[1]),
    );
    assert(w + rest =~= rest);
}

} // verus!
