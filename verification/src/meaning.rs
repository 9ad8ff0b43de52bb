//! What terms mean: the value a term has where its names have values, and what it
//! gives where it is applied.
//!
//! A term that is a function of first-order values, such as a stream, a history or
//! a projection, means what it gives at each value. What the forms that are not
//! read here mean is left to a model: whatever they mean, what a term means is made
//! of what its subterms mean.

use vstd::prelude::*;
use crate::ast::{
    BinOpKind, BuiltinS, ExprS, FieldKeyS, HeadS, LitS, LogicKind, PatternS, UnaryOpKind,
};
use crate::name::NameS;
use crate::scope::scope_of;

verus! {

/// A first-order value.
pub enum Val {
    Unit,
    Bool(bool),
    Int(i64),
    Text(Seq<char>),
    Tuple(Seq<Val>),
    Record(Seq<Seq<char>>, Seq<Val>),
    /// A payload under a tag.
    Tagged(Seq<char>, Box<Val>),
    /// A position of one of several streams, by its number.
    Part(nat, Box<Val>),
    Other(int),
}

/// How a term acts on what it is applied to.
pub enum Act {
    /// On the value, by what it gives there.
    Pointwise,
    /// It takes a component.
    Component(FieldKeyS),
    /// It pairs streams position by position.
    Zip,
    /// It reads histories at the positions of a stream.
    AsOf,
    /// It reads what was last committed before a time.
    Before,
}

/// What a term means: its value, what it gives at each value, what its components
/// mean, and how it acts.
pub struct Meant {
    pub val: Val,
    pub at: spec_fn(Val) -> Val,
    pub parts: Seq<Meant>,
    pub act: Act,
}

/// What the names of a term mean.
pub type Valuation = spec_fn(NameS) -> Meant;

/// What is left open: what a value gives where it is applied, what a reference to an
/// enclosing function means, what the other forms mean, the time at which a position
/// of a stream reads, and which of a stream of commits is read at a time.
pub struct Model {
    pub applied: spec_fn(Val, Val) -> Val,
    pub index: spec_fn(u32) -> Meant,
    pub form: spec_fn(HeadS, Seq<spec_fn(Seq<Meant>) -> Meant>) -> Meant,
    pub time: spec_fn(Meant, Val) -> Val,
    pub before: spec_fn(spec_fn(Val) -> Val, Val, Val) -> Val,
}

impl Model {
    /// What a value means.
    pub open spec fn of(self, v: Val) -> Meant {
        Meant {
            val: v,
            at: |x: Val| (self.applied)(v, x),
            parts: Seq::empty(),
            act: Act::Pointwise,
        }
    }
}

/// Whether a condition holds.
pub open spec fn is_held(d: Meant) -> bool {
    d.val == Val::Bool(true)
}

/// The place of a label.
pub open spec fn label_place(labels: Seq<Seq<char>>, f: Seq<char>, n: nat) -> nat
    decreases labels.len() - n,
{
    if n >= labels.len() || labels[n as int] == f {
        n
    } else {
        label_place(labels, f, n + 1)
    }
}

/// The place of a component of a value.
pub open spec fn place_in(k: FieldKeyS, v: Val) -> Option<int> {
    match (k, v) {
        (FieldKeyS::Index(i), Val::Tuple(vs)) => if i < vs.len() {
            Some(i as int)
        } else {
            None
        },
        (FieldKeyS::Name(f), Val::Record(labels, vs)) => {
            let i = label_place(labels, f, 0);
            if i < labels.len() && i < vs.len() {
                Some(i as int)
            } else {
                None
            }
        },
        _ => None,
    }
}

/// The component of a value.
pub open spec fn taken(k: FieldKeyS, v: Val) -> Option<Val> {
    match (place_in(k, v), v) {
        (Some(i), Val::Tuple(vs)) => Some(vs[i]),
        (Some(i), Val::Record(_, vs)) => Some(vs[i]),
        _ => None,
    }
}

/// The values of what is meant.
pub open spec fn vals(ds: Seq<Meant>) -> Seq<Val> {
    Seq::new(ds.len(), |i: int| ds[i].val)
}

/// What each gives at `x`.
pub open spec fn each_at(ds: Seq<Meant>, x: Val) -> Seq<Val> {
    Seq::new(ds.len(), |i: int| (ds[i].at)(x))
}

/// What the components of `d` give at `x`, in the shape of `d`.
pub open spec fn together(d: Meant, x: Val) -> Val {
    match d.val {
        Val::Record(labels, _) => Val::Record(labels, each_at(d.parts, x)),
        _ => Val::Tuple(each_at(d.parts, x)),
    }
}

/// A history, or each of a record of histories, at a time.
pub open spec fn sampled(d: Meant, time: Val) -> Val {
    match d.val {
        Val::Record(labels, _) => Val::Record(labels, each_at(d.parts, time)),
        _ => (d.at)(time),
    }
}

/// What one gives at what the ones before it give at `x`.
pub open spec fn piped(ds: Seq<Meant>, x: Val) -> Val
    decreases ds.len(),
{
    if ds.len() == 0 {
        x
    } else {
        (ds.last().at)(piped(ds.drop_last(), x))
    }
}

/// What `f` applied to `a` means.
pub open spec fn act_on(m: Model, f: Meant, a: Meant) -> Meant {
    match f.act {
        Act::Pointwise => m.of((f.at)(a.val)),
        Act::Component(k) => match place_in(k, a.val) {
            Some(i) => if i < a.parts.len() {
                a.parts[i]
            } else {
                m.of((f.at)(a.val))
            },
            None => m.of((f.at)(a.val)),
        },
        Act::Zip => Meant { at: |x: Val| together(a, x), ..m.of((m.applied)(f.val, a.val)) },
        Act::AsOf => if a.parts.len() == 2 {
            Meant {
                at: |x: Val| sampled(a.parts[1], (m.time)(a.parts[0], x)),
                ..m.of((m.applied)(f.val, a.val))
            }
        } else {
            m.of((f.at)(a.val))
        },
        Act::Before => if a.parts.len() == 3 {
            m.of((m.before)(a.parts[0].at, a.parts[1].val, a.parts[2].val))
        } else {
            m.of((f.at)(a.val))
        },
    }
}

/// `rho` with `n` meaning `d`.
pub open spec fn setting(rho: Valuation, n: NameS, d: Meant) -> Valuation {
    |k: NameS| if k == n { d } else { rho(k) }
}

/// `rho` with the names `ns` meaning `ds`.
pub open spec fn setting_all(rho: Valuation, ns: Seq<NameS>, ds: Seq<Meant>) -> Valuation {
    |k: NameS| if ns.contains(k) { ds[ns.index_of(k)] } else { rho(k) }
}

/// A form without the handle it writes.
pub open spec fn unhandled(h: HeadS) -> HeadS {
    match h {
        HeadS::Feed(_) => HeadS::Feed(NameS::Elem),
        HeadS::Define(_) => HeadS::Define(NameS::Elem),
        HeadS::MutWrite(_) => HeadS::MutWrite(NameS::Elem),
        _ => h,
    }
}

/// Whether no arm has a pattern.
pub open spec fn guards_only(ps: Seq<Option<PatternS>>) -> bool {
    forall|i: int| 0 <= i < ps.len() ==> (#[trigger] ps[i]) is None
}

/// The meanings of the subterms.
pub open spec fn kids_meant(m: Model, rho: Valuation, e: ExprS) -> Seq<Meant>
    decreases e, 0nat,
{
    Seq::new(
        e.kids.len(),
        |i: int|
            if 0 <= i < e.kids.len() {
                meant(m, rho, e.kids[i])
            } else {
                arbitrary()
            },
    )
}

/// The meanings of the subterms, as functions of what the names bound over them mean.
pub open spec fn kids_open(m: Model, rho: Valuation, e: ExprS) -> Seq<spec_fn(Seq<Meant>) -> Meant>
    decreases e, 0nat,
{
    Seq::new(
        e.kids.len(),
        |i: int|
            if 0 <= i < e.kids.len() {
                |ds: Seq<Meant>| meant(m, setting_all(rho, scope_of(e.head, i), ds), e.kids[i])
            } else {
                arbitrary()
            },
    )
}

/// What a form that is not read here means.
pub open spec fn left_open(m: Model, rho: Valuation, e: ExprS) -> Meant
    decreases e, 1nat,
{
    (m.form)(unhandled(e.head), kids_open(m, rho, e))
}

/// The meaning of the first arm from arm `i` on whose guard holds.
pub open spec fn first_arm(m: Model, rho: Valuation, e: ExprS, i: nat) -> Meant
    decreases e, 2 + (if i < e.kids.len() { e.kids.len() - i } else { 0 }),
{
    if 2 * i + 1 < e.kids.len() {
        if is_held(meant(m, rho, e.kids[(2 * i) as int])) {
            meant(m, rho, e.kids[(2 * i + 1) as int])
        } else {
            first_arm(m, rho, e, i + 1)
        }
    } else {
        left_open(m, rho, e)
    }
}

/// What `e` means where its names mean `rho`.
pub open spec fn meant(m: Model, rho: Valuation, e: ExprS) -> Meant
    decreases e, 3 + e.kids.len(),
{
    let n = e.kids.len();
    match e.head {
        HeadS::Lit(l) => match l {
            LitS::Unit => m.of(Val::Unit),
            LitS::Bool(b) => m.of(Val::Bool(b)),
            LitS::Int(i) => m.of(Val::Int(i)),
            LitS::String(s) => m.of(Val::Text(s)),
        },
        HeadS::Var(x) => match x {
            NameS::PiBound(k, _) => (m.index)(k),
            _ => rho(x),
        },
        HeadS::BinOp(BinOpKind::BoolLogic(LogicKind::And)) if n == 2 => m.of(
            Val::Bool(is_held(meant(m, rho, e.kids[0])) && is_held(meant(m, rho, e.kids[1]))),
        ),
        HeadS::BinOp(BinOpKind::BoolLogic(LogicKind::Or)) if n == 2 => m.of(
            Val::Bool(is_held(meant(m, rho, e.kids[0])) || is_held(meant(m, rho, e.kids[1]))),
        ),
        HeadS::UnaryOp(UnaryOpKind::Not) if n == 1 => m.of(
            Val::Bool(!is_held(meant(m, rho, e.kids[0]))),
        ),
        HeadS::Tuple => {
            let ds = kids_meant(m, rho, e);
            Meant { parts: ds, ..m.of(Val::Tuple(vals(ds))) }
        },
        HeadS::Record(labels) => {
            let ds = kids_meant(m, rho, e);
            Meant { parts: ds, ..m.of(Val::Record(labels, vals(ds))) }
        },
        HeadS::VariantCtor(tag) if n == 1 => m.of(
            Val::Tagged(tag, Box::new(meant(m, rho, e.kids[0]).val)),
        ),
        HeadS::Proj(k) => {
            let d = left_open(m, rho, e);
            Meant {
                val: d.val,
                at: |v: Val|
                    match taken(k, v) {
                        Some(w) => w,
                        None => (d.at)(v),
                    },
                parts: Seq::empty(),
                act: Act::Component(k),
            }
        },
        HeadS::Builtin(b) => {
            let d = left_open(m, rho, e);
            match b {
                BuiltinS::Zip => Meant { act: Act::Zip, ..d },
                BuiltinS::AsOf => Meant { act: Act::AsOf, ..d },
                BuiltinS::GetPrevTxn => Meant { act: Act::Before, ..d },
                BuiltinS::VariantProject(t) => Meant {
                    val: d.val,
                    at: |v: Val|
                        match v {
                            Val::Tagged(u, w) => if u == t { *w } else { (d.at)(v) },
                            _ => (d.at)(v),
                        },
                    parts: Seq::empty(),
                    act: Act::Pointwise,
                },
                _ => Meant { act: Act::Pointwise, ..d },
            }
        },
        HeadS::Apply if n == 2 => act_on(m, meant(m, rho, e.kids[0]), meant(m, rho, e.kids[1])),
        HeadS::Lambda(x) if n == 1 => Meant {
            val: left_open(m, rho, e).val,
            at: |v: Val| meant(m, setting(rho, x, m.of(v)), e.kids[0]).val,
            parts: Seq::empty(),
            act: Act::Pointwise,
        },
        HeadS::Let(x) if n == 2 => meant(
            m,
            setting(rho, x, meant(m, rho, e.kids[0])),
            e.kids[1],
        ),
        HeadS::Compose => {
            let ds = kids_meant(m, rho, e);
            Meant {
                val: left_open(m, rho, e).val,
                at: |v: Val| piped(ds, v),
                parts: Seq::empty(),
                act: Act::Pointwise,
            }
        },
        HeadS::Copair => {
            let ds = kids_meant(m, rho, e);
            let d = left_open(m, rho, e);
            Meant {
                val: d.val,
                at: |v: Val|
                    match v {
                        Val::Part(i, w) => if i < ds.len() {
                            (ds[i as int].at)(*w)
                        } else {
                            (d.at)(v)
                        },
                        _ => (d.at)(v),
                    },
                parts: Seq::empty(),
                act: Act::Pointwise,
            }
        },
        HeadS::Case(false, ps) if guards_only(ps) => first_arm(m, rho, e, 0),
        _ => left_open(m, rho, e),
    }
}

} // verus!
