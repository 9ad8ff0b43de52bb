//! The law of the streams that a store's replies are fed from.

use vstd::prelude::*;
use crate::ast::FieldKeyS;
use crate::decision::{TapS, commit_project_s};
use crate::history_laws::{lemma_piped_push, lemma_piped_two, lemma_projection};
use crate::make::{fun_ty, proj_field_s, var_s};
use crate::meaning::{Model, Val, Valuation, kids_meant, meant, taken};
use crate::store::{CommitS, F_DECISION, tap_defs, tap_hoists};
use crate::writer_laws::lemma_var_meant;

verus! {

/// What the committed payload of a record holds under `field`.
pub open spec fn replied(record: Val, field: Seq<char>) -> Option<Val> {
    match taken(FieldKeyS::Name("decision"@), record) {
        Some(Val::Tagged(tag, payload)) => if tag == "commit"@ {
            taken(FieldKeyS::Name(field), *payload)
        } else {
            None
        },
        _ => None,
    }
}

/// Each reply of a writer has a stream of its own, which holds at every position what
/// the writer commits under the field of that reply there, and which is fed into the
/// handle that the reply goes to.
pub proof fn law_a_reply_is_fed_what_is_committed_for_it(
    m: Model,
    rho: Valuation,
    c: CommitS,
    taps: Seq<TapS>,
    uid: u64,
    i: int,
    pos: Val,
)
    requires
        0 <= i < taps.len(),
        !(c.name is PiBound),
    ensures
        tap_defs(c, taps, uid).len() == taps.len(),
        tap_hoists(c, taps, uid).len() == taps.len(),
        tap_hoists(c, taps, uid)[i].defer == taps[i].defer,
        tap_hoists(c, taps, uid)[i].tap == tap_defs(c, taps, uid)[i].name,
        tap_hoists(c, taps, uid)[i].tap_ty == tap_defs(c, taps, uid)[i].ty,
        replied((rho(c.name).at)(pos), taps[i].field) matches Some(v) ==> (meant(
            m,
            rho,
            tap_defs(c, taps, uid)[i].def,
        ).at)(pos) == v,
{
    let tap = taps[i];
    let p1 = var_s(c.name, c.ty());
    let p2 = proj_field_s(F_DECISION@, fun_ty(c.rec_ty, c.decision_ty));
    let p3 = commit_project_s(c.decision_ty, c.payload_ty);
    let p4 = proj_field_s(tap.field, fun_ty(c.payload_ty, tap.value.ty()));
    let def = tap_defs(c, taps, uid)[i].def;
    let ds = kids_meant(m, rho, def);
    let d1 = meant(m, rho, p1);
    let d2 = meant(m, rho, p2);
    let d3 = meant(m, rho, p3);
    let d4 = meant(m, rho, p4);
    assert(def.kids =~= seq![p1, p2, p3, p4]);
    assert(ds =~= seq![d1, d2].push(d3).push(d4));
    lemma_piped_two(d1, d2, pos);
    lemma_piped_push(seq![d1, d2], d3, pos);
    lemma_piped_push(seq![d1, d2].push(d3), d4, pos);
    let record = (rho(c.name).at)(pos);
    lemma_var_meant(m, rho, c.name, c.ty());
    match replied(record, tap.field) {
        Some(v) => {
            let decided = taken(FieldKeyS::Name("decision"@), record)->0;
            lemma_projection(m, rho, FieldKeyS::Name("decision"@), fun_ty(c.rec_ty, c.decision_ty), record);
            assert((d2.at)(record) == decided);
            match decided {
                Val::Tagged(tag, payload) => {
                    assert((d3.at)(decided) == *payload);
                    lemma_projection(
                        m,
                        rho,
                        FieldKeyS::Name(tap.field),
                        fun_ty(c.payload_ty, tap.value.ty()),
                        *payload,
                    );
                },
                _ => {},
            }
        },
        None => {},
    }
}

} // verus!
