//! Rendering terms and types.
use vstd::prelude::*;
use vstd::string::StrSliceExecFns;
use crate::ast::{
    AggregateKind, ArithmeticKind, BaseType, BinOpKind, Branch, Builtin, CompareKind, Expr,
    ExprS, FieldKey, FunKind, HistoryKind, Lit, LogicKind, Openness, ProjKey, TransactKey, Type,
    TypeKind, TypedBinding, TypedExprNode, UnaryOpKind, Witness, WriterSite, arm_keys_view,
    arm_types_view, binder_defs_view, binder_names_view, binder_tys_view, branch_kids_view,
    field_exprs_view, field_names_view, field_types_view, footprints_view, key_inits_view,
    key_names_view, opt_name_view, patterns_view, witness_types_view, witnesses_view,
    writer_kids_view,
};
use crate::kind::{BoundsS, KindVars};
use crate::kind_vars::binders_of;
use crate::layout::{put2, put3, put4, put5, put6, put7, put8, put9};
use crate::name::{Name, names_view};
use crate::pi::opt_names_view;
use crate::symbolic::{
    Precedence, ShowS, aggregate_text, arm_text, arm_texts, ascription, bases, braced,
    builtin_text, chain_text, def_texts, field_texts, flat_texts, init_texts, inner,
    is_bare_iterate, key_text, keyword_s, kid_texts, lead, lit_text, op_prec, op_text, plain,
    positional, pred_texts, range_start, range_text, shape_width, singleton_of, slot_texts,
    tag_texts, text, ty_kid_texts, ty_text, var_text, witnesses_text, writer_text, writer_texts,
};
use crate::text::{escape, join, joined, owned, show_i64, show_u64, sort_texts, texts};
use crate::tree::{clone_opt_name, expr_refs_view, lemma_witness_types_prefix, type_refs_view};
use crate::txn_terms::is_true_lit;

verus! {

/// What a rendering is read in.
pub struct Show<'a> {
    /// Whether each term shows its type.
    pub types: bool,
    /// Whether witnesses show their identity.
    pub ids: bool,
    /// What is known of kinds.
    pub kinds: &'a KindVars,
    /// The binders of the functions the rendering is inside of, innermost last.
    pub env: Vec<Option<Name>>,
}

impl<'a> Show<'a> {
    pub open spec fn view(&self) -> ShowS {
        ShowS {
            types: self.types,
            ids: self.ids,
            kinds: self.kinds.view(),
            env: opt_names_view(self.env@),
        }
    }

    /// A rendering outside every function.
    pub fn outside(types: bool, ids: bool, kinds: &'a KindVars) -> (r: Show<'a>)
        ensures
            r.view() == (ShowS { types, ids, kinds: kinds.view(), env: Seq::empty() }),
    {
        let out = Show { types, ids, kinds, env: Vec::new() };
        assert(out.view().env =~= Seq::empty());
        out
    }

    fn copy_env(&self) -> (r: Vec<Option<Name>>)
        ensures
            opt_names_view(r@) == self.view().env,
    {
        let mut out: Vec<Option<Name>> = Vec::new();
        let mut i: usize = 0;
        while i < self.env.len()
            invariant
                i <= self.env.len(),
                out.len() == i,
                forall|j: int|
                    0 <= j < i ==> opt_name_view(#[trigger] out@[j]) == opt_name_view(self.env@[j]),
            decreases self.env.len() - i,
        {
            out.push(clone_opt_name(&self.env[i]));
            i = i + 1;
        }
        assert(opt_names_view(out@) =~= self.view().env);
        out
    }

    /// Inside the function with binder `n`.
    fn crossing(&self, n: &Option<Name>) -> (r: Show<'a>)
        ensures
            r.view() == self.view().crossing(opt_name_view(*n)),
    {
        let mut env = self.copy_env();
        let ghost before = env@;
        env.push(clone_opt_name(n));
        assert(opt_names_view(env@) =~= opt_names_view(before).push(opt_name_view(*n)));
        Show { types: self.types, ids: self.ids, kinds: self.kinds, env }
    }

    fn untyped(&self) -> (r: Show<'a>)
        ensures
            r.view() == self.view().untyped(),
    {
        Show { types: false, ids: self.ids, kinds: self.kinds, env: self.copy_env() }
    }

    fn detached(&self) -> (r: Show<'a>)
        ensures
            r.view() == self.view().detached(),
    {
        Show::outside(false, self.ids, self.kinds)
    }
}

impl BaseType {
    pub fn keyword(&self) -> (r: &'static str)
        ensures
            r@ == keyword_s(*self),
    {
        match self {
            BaseType::Int => "Int",
            BaseType::String => "String",
            BaseType::Bool => "Bool",
            BaseType::Unit => "Unit",
        }
    }
}

fn fmt_lit(l: &Lit) -> (r: String)
    ensures
        r@ == lit_text(l.view()),
{
    match l {
        Lit::Int(n) => show_i64(*n),
        Lit::String(s) => put3("\"", escape(s.as_str()).as_str(), "\""),
        Lit::Bool(b) => if *b { owned("true") } else { owned("false") },
        Lit::Unit => owned("unit"),
    }
}

impl Builtin {
    pub fn name(&self) -> (r: String)
        ensures
            r@ == builtin_text(self.view()),
    {
        match self {
            Builtin::AsOf => owned("as_of"),
            Builtin::AsOfRead => owned("as_of_read"),
            Builtin::AwaitFinal => owned("await_final"),
            Builtin::BeginTxn => owned("begin"),
            Builtin::Box => owned("box"),
            Builtin::Const => owned("const"),
            Builtin::FinalRead => owned("final_read"),
            Builtin::GetPrevTxn => owned("get_prev_txn"),
            Builtin::Iterate => owned("iterate"),
            Builtin::VariantProject(t) => put3("variant_project(`", t.as_str(), ")"),
            Builtin::VariantWrap(t) => put3("variant_wrap(`", t.as_str(), ")"),
            Builtin::Zip => owned("zip"),
        }
    }
}

impl BinOpKind {
    pub fn sym(&self) -> (r: &'static str)
        ensures
            r@ == op_text(*self),
    {
        match self {
            BinOpKind::BoolLogic(LogicKind::And) => "and",
            BinOpKind::BoolLogic(LogicKind::Or) => "or",
            BinOpKind::BoolLogic(LogicKind::Nand) => "nand",
            BinOpKind::BoolLogic(LogicKind::Nor) => "nor",
            BinOpKind::BoolLogic(LogicKind::Xor) => "xor",
            BinOpKind::BoolLogic(LogicKind::Xnor) => "xnor",
            BinOpKind::Compare(CompareKind::Equals) => "==",
            BinOpKind::Compare(CompareKind::NotEquals) => "!=",
            BinOpKind::Compare(CompareKind::Less) => "<",
            BinOpKind::Compare(CompareKind::LessEquals) => "<=",
            BinOpKind::Compare(CompareKind::Greater) => ">",
            BinOpKind::Compare(CompareKind::GreaterEquals) => ">=",
            BinOpKind::Arithmetic(ArithmeticKind::Add) => "+",
            BinOpKind::Arithmetic(ArithmeticKind::AddRefined) => "+",
            BinOpKind::Arithmetic(ArithmeticKind::Sub) => "-",
            BinOpKind::Arithmetic(ArithmeticKind::Mul) => "*",
            BinOpKind::Arithmetic(ArithmeticKind::FloorDiv) => "//",
            BinOpKind::Concat => "++",
        }
    }
}

fn binop_prec(op: &BinOpKind) -> (r: Precedence)
    ensures
        r == op_prec(*op),
{
    match op {
        BinOpKind::BoolLogic(LogicKind::And) => Precedence::And,
        BinOpKind::BoolLogic(LogicKind::Nand) => Precedence::And,
        BinOpKind::BoolLogic(_) => Precedence::Or,
        BinOpKind::Compare(_) => Precedence::Compare,
        BinOpKind::Arithmetic(ArithmeticKind::Mul) => Precedence::Mul,
        BinOpKind::Arithmetic(ArithmeticKind::FloorDiv) => Precedence::Mul,
        BinOpKind::Arithmetic(_) => Precedence::Add,
        BinOpKind::Concat => Precedence::Add,
    }
}

fn fmt_aggregate(k: &AggregateKind) -> (r: &'static str)
    ensures
        r@ == aggregate_text(*k),
{
    match k {
        AggregateKind::Count => "Count",
        AggregateKind::Max => "Max",
        AggregateKind::Min => "Min",
        AggregateKind::Sum => "Sum",
    }
}

impl FieldKey {
    /// The label as it prints.
    pub fn to_text(&self) -> (r: String)
        ensures
            r@ == key_text(self.view()),
    {
        match self {
            FieldKey::Index(n) => show_u64(*n as u64),
            FieldKey::Name(s) => s.clone(),
        }
    }
}

fn fmt_proj_key(k: &ProjKey) -> (r: String)
    ensures
        r@ == key_text(k.view()),
{
    match k {
        ProjKey::Index(n) => show_u64(*n as u64),
        ProjKey::Field(s) => s.clone(),
    }
}

fn fmt_var(c: &Show, n: &Name) -> (r: String)
    ensures
        r@ == var_text(c.view(), n@),
{
    match n {
        Name::PiBound(k, _) => {
            if (*k as usize) < c.env.len() {
                let i: usize = c.env.len() - 1 - (*k as usize);
                assert(c.view().env[i as int] == opt_name_view(c.env@[i as int]));
                match &c.env[i] {
                    Some(b) => b.to_text(),
                    None => n.to_text(),
                }
            } else {
                n.to_text()
            }
        },
        _ => n.to_text(),
    }
}

fn join_names(ns: &Vec<Name>) -> (r: String)
    ensures
        r@ == joined(bases(names_view(ns@)), ", "@),
{
    let mut parts: Vec<String> = Vec::new();
    let mut i: usize = 0;
    while i < ns.len()
        invariant
            i <= ns.len(),
            parts.len() == i,
            forall|j: int| 0 <= j < i ==> (#[trigger] parts@[j])@ == ns@[j]@.base(),
        decreases ns.len() - i,
    {
        parts.push(ns[i].base());
        i = i + 1;
    }
    assert(texts(parts@) =~= bases(names_view(ns@)));
    join(&parts, ", ")
}

/// Whether `e` is `iterate` applied to the predicate that always holds.
fn bare_iterate(e: &Expr) -> (r: bool)
    ensures
        r == is_bare_iterate(e.view()),
{
    let ghost ev = e.view();
    match &e.node {
        TypedExprNode::Apply { function, argument } => {
            assert(ev.kids[0] == function.view() && ev.kids[1] == argument.view());
            match (&function.node, &argument.node) {
                (
                    TypedExprNode::Builtin(Builtin::Iterate),
                    TypedExprNode::Apply { function: f, argument: a },
                ) => {
                    assert(argument.view().kids[0] == f.view());
                    assert(argument.view().kids[1] == a.view());
                    match &f.node {
                        TypedExprNode::Builtin(Builtin::Const) => is_true_lit(a),
                        _ => false,
                    }
                },
                _ => false,
            }
        },
        _ => false,
    }
}

/// The subterms from `from` on, rendered.
fn fmt_kids(c: &Show, e: &Expr, from: usize, min: Precedence) -> (r: Vec<String>)
    requires
        from <= e.view().kids.len(),
    ensures
        texts(r@) == kid_texts(
            c.view(),
            e.view(),
            from as int,
            (e.view().kids.len() - from) as nat,
            min,
        ),
    decreases e.view(), 0int,
{
    let ghost ev = e.view();
    let ghost cv = c.view();
    let kids = e.children();
    assert(kids@.len() == ev.kids.len());
    let mut out: Vec<String> = Vec::new();
    let mut i: usize = from;
    while i < kids.len()
        invariant
            from <= i <= kids.len(),
            ev == e.view(),
            cv == c.view(),
            kids@.len() == ev.kids.len(),
            expr_refs_view(kids@) == ev.kids,
            out.len() == i - from,
            forall|j: int|
                0 <= j < i - from ==> (#[trigger] out@[j])@ == text(cv, ev.kids[from + j], min),
        decreases kids.len() - i,
    {
        assert(kids@[i as int].view() == ev.kids[i as int]);
        out.push(fmt(c, kids[i], min));
        i = i + 1;
    }
    assert(texts(out@) =~= kid_texts(cv, ev, from as int, (ev.kids.len() - from) as nat, min));
    out
}

/// ` : ` and the type, where it is known.
fn fmt_ascription(c: &Show, e: &Expr, ty: &Type, slot: Ghost<int>) -> (r: String)
    requires
        0 <= slot@ < e.view().tys.len(),
        e.view().tys[slot@] == ty.view(),
    ensures
        r@ == ascription(c.view(), e.view(), slot@),
    decreases e.view(), 0int,
{
    if ty.is_unresolved() {
        let out = String::new();
        assert(out@ =~= Seq::empty());
        out
    } else {
        assert(decreases_to!(e.view() => e.view().tys[slot@]));
        put2(" : ", fmt_type(c, ty).as_str())
    }
}

/// The first subterm, and behind `sep` the others.
fn fmt_chain(c: &Show, e: &Expr, prec: Precedence, sep: &str) -> (r: String)
    ensures
        r@ == chain_text(c.view(), e.view(), prec, sep@),
    decreases e.view(), 1int,
{
    let kids = e.children();
    assert(kids@.len() == e.view().kids.len());
    if kids.len() == 0 {
        return owned(sep);
    }
    assert(kids@[0].view() == e.view().kids[0]);
    let rest = fmt_kids(c, e, 1, prec.next_highest());
    put3(fmt(c, kids[0], prec).as_str(), sep, join(&rest, sep).as_str())
}

/// Arm `i` of a case.
fn fmt_arm(c: &Show, e: &Expr, start: usize, branches: &Vec<Branch>, i: usize) -> (r: String)
    requires
        i < branches@.len(),
        e.node matches TypedExprNode::Case { scrutinee, branches: b } && b@ == branches@ && start
            == (if scrutinee is Some { 1int } else { 0int }),
    ensures
        r@ == arm_text(c.view(), e.view(), start as int, patterns_view(branches@), i as int),
    decreases e.view(), 1int,
{
    let ghost ev = e.view();
    let guard = &branches[i].guard;
    let body = &branches[i].body;
    proof {
        let ks = branch_kids_view(branches@);
        assert(ks[2 * i as int] == guard.view());
        assert(ks[2 * i + 1] == body.view());
        assert(ks.len() == 2 * branches@.len());
        if start == 1 {
            assert(ev.kids[1 + 2 * i as int] == ks[2 * i as int]);
            assert(ev.kids[1 + 2 * i + 1] == ks[2 * i + 1]);
        } else {
            assert(ev.kids[2 * i as int] == ks[2 * i as int]);
            assert(ev.kids[2 * i + 1] == ks[2 * i + 1]);
        }
        assert(ev.kids[start + 2 * i] == guard.view());
        assert(ev.kids[start + 2 * i + 1] == body.view());
        assert(decreases_to!(ev => ev.kids[start + 2 * i]));
        assert(decreases_to!(ev => ev.kids[start + 2 * i + 1]));
    }
    match &branches[i].pattern {
        Some(p) => {
            let g = if is_true_lit(guard) {
                let none = String::new();
                assert(none@ =~= Seq::empty());
                none
            } else {
                put2(" if ", fmt(c, guard, Precedence::Lowest).as_str())
            };
            put8(
                "`",
                p.tag.as_str(),
                "(",
                p.binding.name.to_text().as_str(),
                ")",
                g.as_str(),
                " → ",
                fmt(c, body, Precedence::Lowest).as_str(),
            )
        },
        None => {
            put3(fmt(c, guard, Precedence::Lowest).as_str(), " → ", fmt(c, body, Precedence::Lowest).as_str())
        },
    }
}

/// Writer `i` of a store.
fn fmt_transact_writer(
    c: &Show,
    e: &Expr,
    keys: &Vec<TransactKey>,
    writers: &Vec<WriterSite>,
    i: usize,
) -> (r: String)
    requires
        i < writers@.len(),
        e.node matches TypedExprNode::Transact { keys: k, writers: w, domain } && k@ == keys@ && w@
            == writers@,
    ensures
        r@ == writer_text(
            c.view(),
            e.view(),
            keys@.len() as int,
            footprints_view(writers@),
            i as int,
        ),
    decreases e.view(), 1int,
{
    let ghost ev = e.view();
    let source = &writers[i].source;
    let body = &writers[i].body;
    proof {
        let ks = writer_kids_view(writers@);
        let k = keys@.len() as int;
        assert(key_inits_view(keys@).len() == k);
        assert(ks[2 * i as int] == source.view());
        assert(ks[2 * i + 1] == body.view());
        assert(ks.len() == 2 * writers@.len());
        assert(ev.kids[k + 2 * i] == source.view());
        assert(ev.kids[k + 2 * i + 1] == body.view());
        assert(decreases_to!(ev => ev.kids[k + 2 * i]));
        assert(decreases_to!(ev => ev.kids[k + 2 * i + 1]));
    }
    put8("[", join_names(&writers[i].read_keys).as_str(), "]⇒[", join_names(&writers[i].write_keys).as_str(), "] over ", fmt(c, source, Precedence::Lowest).as_str(), " do ", fmt(c, body, Precedence::Lowest).as_str())
}

/// A term where `min` is the loosest precedence that stands without
/// parentheses.
pub fn fmt(c: &Show, e: &Expr, min: Precedence) -> (r: String)
    ensures
        r@ == text(c.view(), e.view(), min),
    decreases e.view(), 6int,
{
    let (p, t) = fmt_inner(c, e);
    if p.level() < min.level() {
        put3("(", t.as_str(), ")")
    } else {
        t
    }
}

/// A term, with the precedence of its form.
pub fn fmt_inner(c: &Show, e: &Expr) -> (r: (Precedence, String))
    ensures
        (r.0, r.1@) == inner(c.view(), e.view()),
    decreases e.view(), 5int,
{
    if bare_iterate(e) {
        return (Precedence::Atom, owned("iterate"));
    }
    let (p, t) = fmt_plain(c, e);
    if c.types {
        assert(e.view().tys[0] == e.ty.view());
        assert(decreases_to!(e.view() => e.view().tys[0]));
        (p, put4(t.as_str(), ":<", fmt_type(c, &e.ty).as_str(), ">"))
    } else {
        (p, t)
    }
}

/// The labelled subterms of a record.
fn fmt_fields(c: &Show, e: &Expr, fs: &Vec<(String, Expr)>) -> (r: Vec<String>)
    requires
        e.node matches TypedExprNode::Record(f) && f@ == fs@,
    ensures
        texts(r@) == field_texts(c.view(), e.view(), field_names_view(fs@)),
    decreases e.view(), 1int,
{
    let ghost ev = e.view();
    let ghost want = field_texts(c.view(), ev, field_names_view(fs@));
    let mut out: Vec<String> = Vec::new();
    let mut i: usize = 0;
    assert(ev.kids == field_exprs_view(fs@));
    while i < fs.len()
        invariant
            i <= fs.len(),
            ev == e.view(),
            ev.kids == field_exprs_view(fs@),
            want == field_texts(c.view(), ev, field_names_view(fs@)),
            out.len() == i,
            forall|j: int| 0 <= j < i ==> (#[trigger] out@[j])@ == want[j],
        decreases fs.len() - i,
    {
        assert(ev.kids[i as int] == fs@[i as int].1.view());
        assert(decreases_to!(ev => ev.kids[i as int]));
        out.push(put3(fs[i].0.as_str(), ": ", fmt(c, &fs[i].1, Precedence::Lowest).as_str()));
        i = i + 1;
    }
    assert(want.len() == fs@.len());
    assert(texts(out@) =~= want);
    out
}

/// The arms of a case.
fn fmt_arms(c: &Show, e: &Expr, start: usize, branches: &Vec<Branch>) -> (r: Vec<String>)
    requires
        e.node matches TypedExprNode::Case { scrutinee, branches: b } && b@ == branches@ && start
            == (if scrutinee is Some { 1int } else { 0int }),
    ensures
        texts(r@) == arm_texts(c.view(), e.view(), start as int, patterns_view(branches@)),
    decreases e.view(), 2int,
{
    let ghost want = arm_texts(c.view(), e.view(), start as int, patterns_view(branches@));
    let mut out: Vec<String> = Vec::new();
    let mut i: usize = 0;
    while i < branches.len()
        invariant
            i <= branches.len(),
            e.node matches TypedExprNode::Case { scrutinee, branches: b } && b@ == branches@
                && start == (if scrutinee is Some { 1int } else { 0int }),
            want == arm_texts(c.view(), e.view(), start as int, patterns_view(branches@)),
            out.len() == i,
            forall|j: int| 0 <= j < i ==> (#[trigger] out@[j])@ == want[j],
        decreases branches.len() - i,
    {
        out.push(fmt_arm(c, e, start, branches, i));
        i = i + 1;
    }
    assert(texts(out@) =~= want);
    out
}

/// The keys of a store with their initial values.
fn fmt_inits(c: &Show, e: &Expr, keys: &Vec<TransactKey>) -> (r: Vec<String>)
    requires
        e.node matches TypedExprNode::Transact { keys: k, writers, domain } && k@ == keys@,
    ensures
        texts(r@) == init_texts(c.view(), e.view(), key_names_view(keys@)),
    decreases e.view(), 2int,
{
    let ghost ev = e.view();
    let ghost want = init_texts(c.view(), ev, key_names_view(keys@));
    let kids = e.children();
    assert(kids@.len() == ev.kids.len());
    assert(key_inits_view(keys@).len() == keys@.len());
    assert(ev.kids.len() >= keys@.len());
    let mut out: Vec<String> = Vec::new();
    let mut i: usize = 0;
    while i < keys.len()
        invariant
            i <= keys.len(),
            ev == e.view(),
            keys@.len() <= ev.kids.len(),
            kids@.len() == ev.kids.len(),
            expr_refs_view(kids@) == ev.kids,
            want == init_texts(c.view(), ev, key_names_view(keys@)),
            out.len() == i,
            forall|j: int| 0 <= j < i ==> (#[trigger] out@[j])@ == want[j],
        decreases keys.len() - i,
    {
        assert(kids@[i as int].view() == ev.kids[i as int]);
        out.push(
            put3(
                keys[i].name.to_text().as_str(),
                " = ",
                fmt(c, kids[i], Precedence::Lowest).as_str(),
            ),
        );
        i = i + 1;
    }
    assert(texts(out@) =~= want);
    out
}

/// The writers of a store.
fn fmt_writers(c: &Show, e: &Expr, keys: &Vec<TransactKey>, writers: &Vec<WriterSite>) -> (r: Vec<
    String,
>)
    requires
        e.node matches TypedExprNode::Transact { keys: k, writers: w, domain } && k@ == keys@ && w@
            == writers@,
    ensures
        texts(r@) == writer_texts(
            c.view(),
            e.view(),
            keys@.len() as int,
            footprints_view(writers@),
        ),
    decreases e.view(), 2int,
{
    let ghost want = writer_texts(
        c.view(),
        e.view(),
        keys@.len() as int,
        footprints_view(writers@),
    );
    let mut out: Vec<String> = Vec::new();
    let mut i: usize = 0;
    while i < writers.len()
        invariant
            i <= writers.len(),
            e.node matches TypedExprNode::Transact { keys: k, writers: w, domain } && k@ == keys@
                && w@ == writers@,
            want == writer_texts(
                c.view(),
                e.view(),
                keys@.len() as int,
                footprints_view(writers@),
            ),
            out.len() == i,
            forall|j: int| 0 <= j < i ==> (#[trigger] out@[j])@ == want[j],
        decreases writers.len() - i,
    {
        out.push(fmt_transact_writer(c, e, keys, writers, i));
        i = i + 1;
    }
    assert(texts(out@) =~= want);
    out
}

/// The definitions of a recursive group.
fn fmt_defs(c: &Show, e: &Expr, bindings: &Vec<(TypedBinding, Expr)>) -> (r: Vec<String>)
    requires
        e.node matches TypedExprNode::LetRec { bindings: b, body } && b@ == bindings@,
    ensures
        texts(r@) == def_texts(c.view(), e.view(), binder_names_view(bindings@)),
    decreases e.view(), 2int,
{
    let ghost ev = e.view();
    let ghost want = def_texts(c.view(), ev, binder_names_view(bindings@));
    let ghost ld = lead(ev);
    let kids = e.children();
    assert(kids@.len() == ev.kids.len());
    assert(binder_defs_view(bindings@).len() == bindings@.len());
    assert(binder_tys_view(bindings@).len() == bindings@.len());
    assert(ev.kids.len() == bindings@.len() + 1);
    assert(ev.tys.len() == ld + bindings@.len());
    let mut out: Vec<String> = Vec::new();
    let mut i: usize = 0;
    while i < bindings.len()
        invariant
            i <= bindings.len(),
            ev == e.view(),
            ld == lead(ev),
            e.node matches TypedExprNode::LetRec { bindings: b, body } && b@ == bindings@,
            ev.kids.len() == bindings@.len() + 1,
            ev.tys.len() == ld + bindings@.len(),
            kids@.len() == ev.kids.len(),
            expr_refs_view(kids@) == ev.kids,
            want == def_texts(c.view(), ev, binder_names_view(bindings@)),
            out.len() == i,
            forall|j: int| 0 <= j < i ==> (#[trigger] out@[j])@ == want[j],
        decreases bindings.len() - i,
    {
        assert(kids@[i as int].view() == ev.kids[i as int]);
        assert(ev.tys[ld + i] == binder_tys_view(bindings@)[i as int]);
        assert(ev.tys[ld + i] == bindings@[i as int].0.ty.view());
        let ty = fmt_ascription(c, e, &bindings[i].0.ty, Ghost(ld + i));
        out.push(
            put4(
                bindings[i].0.name.to_text().as_str(),
                ty.as_str(),
                " = ",
                fmt(c, kids[i], Precedence::Lowest).as_str(),
            ),
        );
        i = i + 1;
    }
    assert(texts(out@) =~= want);
    out
}

/// A value, an operation or a function, its own type aside.
#[verifier::rlimit(40)]
fn fmt_operation(c: &Show, e: &Expr) -> (r: (Precedence, String))
    requires
        e.node is Lit || e.node is Var || e.node is Builtin || e.node is BinOp || e.node is UnaryOp || e.node is Apply || e.node is Cast || e.node is Lambda || e.node is Aggregate || e.node is Source || e.node is Proj || e.node is Compose || e.node is DisjointJoin || e.node is Copair,
    ensures
        (r.0, r.1@) == plain(c.view(), e.view()),
    decreases e.view(), 3int,
{
    let ghost ev = e.view();
    let ghost cv = c.view();
    let low = Precedence::Lowest;
    let kids = e.children();
    assert(kids@.len() == ev.kids.len());
    assert(forall|i: int| 0 <= i < kids@.len() ==> (#[trigger] kids@[i]).view() == ev.kids[i]);
    let ghost ld = lead(ev);
    match &e.node {
        TypedExprNode::Lit(l) => (Precedence::Atom, fmt_lit(l)),
        TypedExprNode::Var(n) => (Precedence::Atom, fmt_var(c, n)),
        TypedExprNode::Builtin(b) => (Precedence::Atom, b.name()),
        TypedExprNode::BinOp { left, op, right } => {
            assert(ev.kids.len() == 2);
            let p = binop_prec(op);
            (p, put5(fmt(c, kids[0], p).as_str(), " ", op.sym(), " ", fmt(c, kids[1], p.next_highest()).as_str()))
        },
        TypedExprNode::UnaryOp(op, _) => {
            assert(ev.kids.len() == 1);
            match op {
                UnaryOpKind::Neg => (
                    Precedence::Unary,
                    put2("-", fmt(c, kids[0], Precedence::Unary).as_str()),
                ),
                UnaryOpKind::Not => (
                    Precedence::Not,
                    put2("not ", fmt(c, kids[0], Precedence::Not).as_str()),
                ),
            }
        },
        TypedExprNode::Apply { function, argument } => {
            assert(ev.kids.len() == 2);
            assert(ev.kids[0] == function.view());
            let is_proj = match &function.node {
                TypedExprNode::Proj(_) => true,
                _ => false,
            };
            let sep = if is_proj {
                proof {
                    reveal_strlit("");
                    assert(""@ =~= Seq::empty());
                }
                ""
            } else {
                " ▷ "
            };
            (
                Precedence::Apply,
                put3(
                    fmt(c, kids[1], Precedence::Apply).as_str(),
                    sep,
                    fmt(c, kids[0], Precedence::Apply.next_highest()).as_str(),
                ),
            )
        },
        TypedExprNode::Cast { value, target } => {
            assert(ev.kids.len() == 1);
            assert(ev.tys[ld] == target.view());
            assert(ev.tys.len() == ld + 1);
            assert(ev.tys[0] == e.ty.view());
            assert(decreases_to!(ev => ev.tys[ld]));
            let arg = fmt(c, kids[0], low);
            if e.ty.is_unresolved() {
                (Precedence::Atom, put5("cast(", fmt_type(c, target).as_str(), ", ", arg.as_str(), ")"))
            } else {
                (Precedence::Atom, put3("cast(", arg.as_str(), ")"))
            }
        },
        TypedExprNode::Lambda { param, body } => {
            assert(ev.kids.len() == 1);
            assert(ev.tys[ld] == param.ty.view());
            (low, put5("λ ", param.name.to_text().as_str(), fmt_ascription(c, e, &param.ty, Ghost(ld)).as_str(), " → ", fmt(c, kids[0], low).as_str()))
        },
        TypedExprNode::Aggregate { input, kind } => {
            assert(ev.kids.len() == 1);
            (low, put4(fmt_aggregate(kind), "(", fmt(c, kids[0], low).as_str(), ")"))
        },
        TypedExprNode::Source(s) => (Precedence::Atom, put3("source(", s.as_str(), ")")),
        TypedExprNode::Proj(k) => (Precedence::Atom, put2(".", fmt_proj_key(k).as_str())),
        TypedExprNode::Compose(_) => (
            Precedence::Compose,
            fmt_chain(c, e, Precedence::Compose, " ≫ "),
        ),
        TypedExprNode::DisjointJoin(_) => (
            Precedence::And,
            fmt_chain(c, e, Precedence::And, " ⊔ "),
        ),
        TypedExprNode::Copair(_) => (Precedence::And, fmt_chain(c, e, Precedence::And, " ⊎ ")),
        _ => (low, String::new()),
    }
}

/// A collection, a choice or a group, its own type aside.
#[verifier::rlimit(40)]
fn fmt_data(c: &Show, e: &Expr) -> (r: (Precedence, String))
    requires
        e.node is List || e.node is Tuple || e.node is Record || e.node is Case || e.node is VariantCtor || e.node is Transact || e.node is LetRec,
    ensures
        (r.0, r.1@) == plain(c.view(), e.view()),
    decreases e.view(), 3int,
{
    let ghost ev = e.view();
    let ghost cv = c.view();
    let low = Precedence::Lowest;
    let kids = e.children();
    assert(kids@.len() == ev.kids.len());
    assert(forall|i: int| 0 <= i < kids@.len() ==> (#[trigger] kids@[i]).view() == ev.kids[i]);
    let ghost ld = lead(ev);
    match &e.node {
        TypedExprNode::List(_) => {
            let parts = fmt_kids(c, e, 0, low);
            (Precedence::Atom, put3("[", join(&parts, ", ").as_str(), "]"))
        },
        TypedExprNode::Tuple(_) => {
            let parts = fmt_kids(c, e, 0, low);
            (Precedence::Atom, put3("(", join(&parts, ", ").as_str(), ")"))
        },
        TypedExprNode::Record(fs) => {
            let parts = fmt_fields(c, e, fs);
            (Precedence::Atom, put3("(", join(&parts, ", ").as_str(), ")"))
        },
        TypedExprNode::Case { scrutinee, branches } => {
            let start: usize = if scrutinee.is_some() { 1 } else { 0 };
            let arms = join(&fmt_arms(c, e, start, branches), "; ");
            if scrutinee.is_some() {
                assert(ev.kids.len() > 0);
                (low, put5("match ", fmt(c, kids[0], low).as_str(), " { ", arms.as_str(), " }"))
            } else {
                (low, put3("{ ", arms.as_str(), " }"))
            }
        },
        TypedExprNode::VariantCtor { tag, payload } => {
            assert(ev.kids.len() == 1);
            (Precedence::Atom, put5("`", tag.as_str(), "(", fmt(c, kids[0], low).as_str(), ")"))
        },
        TypedExprNode::Transact { keys, writers, domain } => {
            let inits = join(&fmt_inits(c, e, keys), ", ");
            let sites = join(&fmt_writers(c, e, keys, writers), "; ");
            (low, put5("transact (", inits.as_str(), ") { ", sites.as_str(), " }"))
        },
        TypedExprNode::LetRec { bindings, body } => {
            assert(binder_defs_view(bindings@).len() == bindings@.len());
            assert(ev.kids.len() == bindings@.len() + 1);
            let defs = join(&fmt_defs(c, e, bindings), "; ");
            (
                low,
                put4(
                    "letrec ",
                    defs.as_str(),
                    "\nin ",
                    fmt(c, kids[kids.len() - 1], low).as_str(),
                ),
            )
        },
        _ => (low, String::new()),
    }
}

/// A binding or a statement, its own type aside.
#[verifier::rlimit(40)]
fn fmt_effect(c: &Show, e: &Expr) -> (r: (Precedence, String))
    requires
        e.node is MutDecl || e.node is Let || e.node is For || e.node is MutWrite || e.node is ExprStmt || e.node is Feed || e.node is Define || e.node is Defer || e.node is Begin || e.node is Error || e.node is Realize,
    ensures
        (r.0, r.1@) == plain(c.view(), e.view()),
    decreases e.view(), 3int,
{
    let ghost ev = e.view();
    let ghost cv = c.view();
    let low = Precedence::Lowest;
    let kids = e.children();
    assert(kids@.len() == ev.kids.len());
    assert(forall|i: int| 0 <= i < kids@.len() ==> (#[trigger] kids@[i]).view() == ev.kids[i]);
    let ghost ld = lead(ev);
    match &e.node {
        TypedExprNode::MutDecl { binding, init, body } => {
            assert(ev.kids.len() == 2);
            assert(ev.tys[ld] == binding.ty.view());
            (low, put6(binding.name.to_text().as_str(), fmt_ascription(c, e, &binding.ty, Ghost(ld)).as_str(), " := ", fmt(c, kids[0], low).as_str(), "\nin ", fmt(c, kids[1], low).as_str()))
        },
        TypedExprNode::Let { binding, bound_expr, body } => {
            assert(ev.kids.len() == 2);
            assert(ev.tys[ld] == binding.ty.view());
            (low, put7("let ", binding.name.to_text().as_str(), fmt_ascription(c, e, &binding.ty, Ghost(ld)).as_str(), " = ", fmt(c, kids[0], low).as_str(), "\nin ", fmt(c, kids[1], low).as_str()))
        },
        TypedExprNode::For { target, iter, body } => {
            assert(ev.kids.len() == 2);
            (low, put6("for ", target.name.to_text().as_str(), " in ", fmt(c, kids[0], Precedence::Apply).as_str(), " do ", fmt(c, kids[1], low).as_str()))
        },
        TypedExprNode::MutWrite { name, value } => {
            assert(ev.kids.len() == 1);
            (low, put3(name.to_text().as_str(), " := ", fmt(c, kids[0], low).as_str()))
        },
        TypedExprNode::ExprStmt { expr, body } => {
            assert(ev.kids.len() == 2);
            let out = put3(fmt(c, kids[0], low).as_str(), "; ", fmt(c, kids[1], low).as_str());
            (low, out)
        },
        TypedExprNode::Feed { name, value } => {
            assert(ev.kids.len() == 1);
            (Precedence::Atom, put5("feed(", name.to_text().as_str(), ", ", fmt(c, kids[0], low).as_str(), ")"))
        },
        TypedExprNode::Define { name, value } => {
            assert(ev.kids.len() == 1);
            (Precedence::Atom, put5("define(", name.to_text().as_str(), ", ", fmt(c, kids[0], low).as_str(), ")"))
        },
        TypedExprNode::Defer => (Precedence::Atom, owned("defer")),
        TypedExprNode::Begin { body } => {
            assert(ev.kids.len() == 1);
            (Precedence::Atom, put3("begin { ", fmt(c, kids[0], low).as_str(), " }"))
        },
        TypedExprNode::Error => (Precedence::Atom, owned("<error>")),
        TypedExprNode::Realize(_) => {
            assert(ev.kids.len() == 1);
            (Precedence::Atom, put3("realize(", fmt(c, kids[0], low).as_str(), ")"))
        },
        _ => (low, String::new()),
    }
}

/// A term, its own type aside.
fn fmt_plain(c: &Show, e: &Expr) -> (r: (Precedence, String))
    ensures
        (r.0, r.1@) == plain(c.view(), e.view()),
    decreases e.view(), 4int,
{
    match &e.node {
        TypedExprNode::List(..) | TypedExprNode::Tuple(..) | TypedExprNode::Record(..) | TypedExprNode::Case { .. } | TypedExprNode::VariantCtor { .. } | TypedExprNode::Transact { .. } | TypedExprNode::LetRec { .. } => fmt_data(c, e),
        TypedExprNode::MutDecl { .. } | TypedExprNode::Let { .. } | TypedExprNode::For { .. } | TypedExprNode::MutWrite { .. } | TypedExprNode::ExprStmt { .. } | TypedExprNode::Feed { .. } | TypedExprNode::Define { .. } | TypedExprNode::Defer | TypedExprNode::Begin { .. } | TypedExprNode::Error | TypedExprNode::Realize(..) => fmt_effect(c, e),
        _ => fmt_operation(c, e),
    }
}

/// The component types from `from` on, `n` of them, rendered.
fn fmt_type_kids(c: &Show, t: &Type, from: usize, n: usize) -> (r: Vec<String>)
    requires
        from + n <= t.view().kids.len(),
    ensures
        texts(r@) == ty_kid_texts(c.view(), t.view(), from as int, n as nat),
    decreases t.view(), 0int,
{
    let ghost tv = t.view();
    let ghost cv = c.view();
    let kids = t.walk_children();
    assert(kids@.len() == tv.kids.len());
    let mut out: Vec<String> = Vec::new();
    let mut i: usize = 0;
    while i < n
        invariant
            i <= n,
            from + n <= tv.kids.len(),
            tv == t.view(),
            cv == c.view(),
            kids@.len() == tv.kids.len(),
            type_refs_view(kids@) == tv.kids,
            out.len() == i,
            forall|j: int| 0 <= j < i ==> (#[trigger] out@[j])@ == ty_text(cv, tv.kids[from + j]),
        decreases n - i,
    {
        assert(kids@[from + i].view() == tv.kids[from + i]);
        assert(decreases_to!(tv => tv.kids[from + i]));
        assert(from + i < kids.len());
        out.push(fmt_type(c, kids[from + i]));
        i = i + 1;
    }
    assert(texts(out@) =~= ty_kid_texts(cv, tv, from as int, n as nat));
    out
}

proof fn lemma_range_start(ws: Seq<Witness>, i: int)
    requires
        0 <= i <= ws.len(),
    ensures
        range_start(witnesses_view(ws), i as nat) == witness_types_view(ws.take(i)).len(),
    decreases i,
{
    if i == 0 {
        assert(ws.take(0) =~= Seq::empty());
    } else {
        lemma_range_start(ws, i - 1);
        assert(ws.take(i).take(i - 1) =~= ws.take(i - 1));
        assert(witness_types_view(ws.take(i)) == witness_types_view(ws.take(i - 1))
            + ws[i - 1].range.types_view());
        assert(ws[i - 1].range.types_view().len() == shape_width(ws[i - 1].range.shape()));
    }
}

proof fn lemma_range_fits(ws: Seq<Witness>, i: int)
    requires
        0 <= i < ws.len(),
    ensures
        range_start(witnesses_view(ws), i as nat) + shape_width(ws[i].range.shape())
            <= witness_types_view(ws).len(),
{
    lemma_range_start(ws, i + 1);
    lemma_witness_types_prefix(ws, i + 1);
    assert(range_start(witnesses_view(ws), (i + 1) as nat) == range_start(
        witnesses_view(ws),
        i as nat,
    ) + shape_width(witnesses_view(ws)[i].shape));
}

/// The range of witness `i` of a function, whose types start at `from`.
fn fmt_range(c: &Show, t: &Type, ws: &Vec<Witness>, i: usize, from: usize) -> (r: String)
    requires
        i < ws@.len(),
        from == range_start(witnesses_view(ws@), i as nat),
        from + shape_width(ws@[i as int].range.shape()) <= t.view().kids.len(),
    ensures
        r@ == range_text(c.view(), t.view(), witnesses_view(ws@), i as int),
    decreases t.view(), 1int,
{
    let d = c.detached();
    match &ws[i].range {
        TypeKind::Enumerated(ts) => {
            let parts = fmt_type_kids(&d, t, from, ts.len());
            put3("[", join(&parts, ", ").as_str(), "]")
        },
        TypeKind::SubtypesOf(_) => {
            let kids = t.walk_children();
            assert(kids@.len() == t.view().kids.len());
            assert(kids@[from as int].view() == t.view().kids[from as int]);
            assert(decreases_to!(t.view() => t.view().kids[from as int]));
            put3("SubtypesOf(", fmt_type(&d, kids[from]).as_str(), ")")
        },
        TypeKind::UIntRanges => owned("UIntRanges"),
        TypeKind::Type => owned("Type"),
    }
}

/// The witnesses of a function.
fn fmt_witnesses(c: &Show, t: &Type, ws: &Vec<Witness>) -> (r: String)
    requires
        witness_types_view(ws@).len() <= t.view().kids.len(),
    ensures
        r@ == witnesses_text(c.view(), t.view(), witnesses_view(ws@), ws@.len()),
    decreases t.view(), 2int,
{
    let ghost wv = witnesses_view(ws@);
    let ghost cv = c.view();
    let ghost tv = t.view();
    let mut out = String::new();
    let mut from: usize = 0;
    let mut i: usize = 0;
    assert(out@ =~= witnesses_text(cv, tv, wv, 0));
    let n: usize = t.walk_children().len();
    while i < ws.len()
        invariant
            n == tv.kids.len(),
            i <= ws.len(),
            wv == witnesses_view(ws@),
            cv == c.view(),
            tv == t.view(),
            witness_types_view(ws@).len() <= tv.kids.len(),
            from == range_start(wv, i as nat),
            out@ == witnesses_text(cv, tv, wv, i as nat),
        decreases ws.len() - i,
    {
        proof {
            lemma_range_fits(ws@, i as int);
        }
        let range = fmt_range(c, t, ws, i, from);
        let id = if c.ids {
            put2("σ@", show_u64(ws[i].id.0.0 as u64).as_str())
        } else {
            owned("σ")
        };
        out = put6(out.as_str(), "Σ (", id.as_str(), " : ", range.as_str(), "). ");
        assert(wv[i as int].shape == ws@[i as int].range.shape());
        assert(wv[i as int].id == ws@[i as int].id);
        from = from + ws[i].range.width();
        i = i + 1;
    }
    out
}

/// Whether every label is a position.
fn all_positions<T>(arms: &Vec<(FieldKey, T)>) -> (r: bool)
    ensures
        r == positional(arm_keys_view(arms@)),
{
    let mut i: usize = 0;
    while i < arms.len()
        invariant
            i <= arms.len(),
            forall|j: int| 0 <= j < i ==> (#[trigger] arm_keys_view(arms@)[j]) is Index,
        decreases arms.len() - i,
    {
        assert(arm_keys_view(arms@)[i as int] == arms@[i as int].0.view());
        match &arms[i].0 {
            FieldKey::Index(_) => {},
            FieldKey::Name(_) => {
                return false;
            },
        }
        i = i + 1;
    }
    true
}

/// The parts of an anonymous sum, flattened.
#[verifier::loop_isolation(false)]
fn synthetic_payloads(c: &Show, t: &Type) -> (r: Vec<String>)
    ensures
        texts(r@) == flat_texts(c.view(), t.view(), t.view().kids.len()),
    decreases t.view(), 2int,
{
    let ghost tv = t.view();
    let ghost cv = c.view();
    let kids = t.walk_children();
    assert(kids@.len() == tv.kids.len());
    let mut out: Vec<String> = Vec::new();
    let mut i: usize = 0;
    assert(texts(out@) =~= flat_texts(cv, tv, 0));
    while i < kids.len()
        invariant
            i <= kids.len(),
            texts(out@) == flat_texts(cv, tv, i as nat),
        decreases kids.len() - i,
    {
        assert(kids@[i as int].view() == tv.kids[i as int]);
        assert(decreases_to!(tv => tv.kids[i as int]));
        let ghost before = out@;
        let anonymous = match kids[i] {
            Type::Variant(arms, _) => all_positions(arms),
            _ => false,
        };
        if anonymous {
            let mut more = synthetic_payloads(c, kids[i]);
            let ghost m = more@;
            out.append(&mut more);
            assert(texts(out@) =~= texts(before) + texts(m));
        } else {
            let s = fmt_type(c, kids[i]);
            let ghost sv = s@;
            out.push(s);
            assert(texts(out@) =~= texts(before) + seq![sv]);
        }
        i = i + 1;
    }
    out
}

/// A text in braces, unless it already is.
fn fmt_braced(p: String) -> (r: String)
    ensures
        r@ == braced(p@),
{
    let n: usize = p.as_str().unicode_len();
    if n > 0 && p.as_str().get_char(0) == '{' && p.as_str().get_char(n - 1) == '}' {
        p
    } else {
        put3("{", p.as_str(), "}")
    }
}

/// The literal a singleton type is pinned to.
fn singleton_value(t: &Type) -> (r: Option<&Lit>)
    ensures
        match r {
            Some(l) => singleton_of(t.view()) == Some(l.view()),
            None => singleton_of(t.view()) is None,
        },
{
    match t {
        Type::Refinement(_, set) => {
            assert(t.view().preds == set.view());
            if set.len() != 1 {
                return None;
            }
            let p = &set.member(0).predicate;
            assert(t.view().preds[0] == p.view());
            match &p.node {
                TypedExprNode::BinOp {
                    left,
                    op: BinOpKind::Compare(CompareKind::Equals),
                    right,
                } => {
                    assert(p.view().kids[0] == left.view());
                    assert(p.view().kids[1] == right.view());
                    match (&left.node, &right.node) {
                        (TypedExprNode::Var(Name::Elem), TypedExprNode::Lit(l)) => Some(l),
                        _ => None,
                    }
                },
                _ => None,
            }
        },
        _ => None,
    }
}

/// The labelled types of a record.
fn fmt_slots(c: &Show, t: &Type, fs: &Vec<(String, Type)>) -> (r: Vec<String>)
    requires
        t matches Type::Record(f) && f@ == fs@,
    ensures
        texts(r@) == slot_texts(c.view(), t.view(), field_names_view(fs@)),
    decreases t.view(), 2int,
{
    let ghost tv = t.view();
    let ghost want = slot_texts(c.view(), tv, field_names_view(fs@));
    assert(tv.kids == field_types_view(fs@));
    let mut out: Vec<String> = Vec::new();
    let mut i: usize = 0;
    while i < fs.len()
        invariant
            i <= fs.len(),
            tv == t.view(),
            tv.kids == field_types_view(fs@),
            want == slot_texts(c.view(), tv, field_names_view(fs@)),
            out.len() == i,
            forall|j: int| 0 <= j < i ==> (#[trigger] out@[j])@ == want[j],
        decreases fs.len() - i,
    {
        assert(tv.kids[i as int] == fs@[i as int].1.view());
        assert(decreases_to!(tv => tv.kids[i as int]));
        out.push(put3(fs[i].0.as_str(), ": ", fmt_type(c, &fs[i].1).as_str()));
        i = i + 1;
    }
    assert(want.len() == fs@.len());
    assert(texts(out@) =~= want);
    out
}

/// The tags of a variant with their payloads.
fn fmt_tags(c: &Show, t: &Type, arms: &Vec<(FieldKey, Type)>) -> (r: Vec<String>)
    requires
        t matches Type::Variant(a, openness) && a@ == arms@,
    ensures
        texts(r@) == tag_texts(c.view(), t.view(), arm_keys_view(arms@)),
    decreases t.view(), 2int,
{
    let ghost tv = t.view();
    let ghost want = tag_texts(c.view(), tv, arm_keys_view(arms@));
    assert(tv.kids == arm_types_view(arms@));
    let mut out: Vec<String> = Vec::new();
    let mut i: usize = 0;
    while i < arms.len()
        invariant
            i <= arms.len(),
            tv == t.view(),
            tv.kids == arm_types_view(arms@),
            want == tag_texts(c.view(), tv, arm_keys_view(arms@)),
            out.len() == i,
            forall|j: int| 0 <= j < i ==> (#[trigger] out@[j])@ == want[j],
        decreases arms.len() - i,
    {
        assert(tv.kids[i as int] == arms@[i as int].1.view());
        assert(decreases_to!(tv => tv.kids[i as int]));
        let payload = match &arms[i].1 {
            Type::Base(BaseType::Unit) => {
                let none = String::new();
                assert(none@ =~= Seq::empty());
                none
            },
            _ => fmt_braced(fmt_type(c, &arms[i].1)),
        };
        out.push(put3("`", arms[i].0.to_text().as_str(), payload.as_str()));
        i = i + 1;
    }
    assert(want.len() == arms@.len());
    assert(texts(out@) =~= want);
    out
}

/// The predicates of a refinement.
fn fmt_preds(c: &Show, t: &Type) -> (r: Vec<String>)
    ensures
        texts(r@) == pred_texts(c.view(), t.view()),
    decreases t.view(), 2int,
{
    let ghost tv = t.view();
    let ghost want = pred_texts(c.view(), tv);
    let d = c.untyped();
    let preds = t.predicates();
    assert(preds@.len() == tv.preds.len());
    let mut out: Vec<String> = Vec::new();
    let mut i: usize = 0;
    while i < preds.len()
        invariant
            i <= preds.len(),
            tv == t.view(),
            d.view() == c.view().untyped(),
            preds@.len() == tv.preds.len(),
            expr_refs_view(preds@) == tv.preds,
            want == pred_texts(c.view(), tv),
            out.len() == i,
            forall|j: int| 0 <= j < i ==> (#[trigger] out@[j])@ == want[j],
        decreases preds.len() - i,
    {
        assert(preds@[i as int].view() == tv.preds[i as int]);
        assert(decreases_to!(tv => tv.preds[i as int]));
        out.push(fmt(&d, preds[i], Precedence::Lowest));
        i = i + 1;
    }
    assert(texts(out@) =~= want);
    out
}

/// A type.
#[verifier::rlimit(60)]
pub fn fmt_type(c: &Show, t: &Type) -> (r: String)
    ensures
        r@ == ty_text(c.view(), t.view()),
    decreases t.view(), 3int,
{
    let ghost tv = t.view();
    let ghost cv = c.view();
    let kids = t.walk_children();
    assert(kids@.len() == tv.kids.len());
    assert(forall|i: int| 0 <= i < kids@.len() ==> (#[trigger] kids@[i]).view() == tv.kids[i]);
    let n: usize = kids.len();
    match t {
        Type::Base(b) => owned(b.keyword()),
        Type::BoundedHole(_) => {
            assert(tv.kids.len() == 1);
            put2("<:", fmt_type(c, kids[0]).as_str())
        },
        Type::UIntRange(k) => if *k == 0 {
            owned("∅")
        } else {
            put3("[0, ", show_u64((*k - 1) as u64).as_str(), "]")
        },
        Type::Fun { name, fun_kind, domain, codomain } => {
            assert(tv.kids.len() == fun_kind.types_view().len() + 2);
            let front = match fun_kind {
                FunKind::Data(Some(ws)) => {
                    assert(fun_kind.types_view() == witness_types_view(ws@));
                    let s = fmt_witnesses(c, t, ws);
                    assert(witnesses_view(ws@) == binders_of(fun_kind.view()));
                    s
                },
                _ => {
                    let s = String::new();
                    assert(binders_of(fun_kind.view()).len() == 0);
                    assert(s@ =~= witnesses_text(cv, tv, binders_of(fun_kind.view()), 0));
                    s
                },
            };
            let inner = c.crossing(name);
            let dom = fmt_type(c, kids[n - 2]);
            let cod = fmt_type(&inner, kids[n - 1]);
            let arrow = fun_kind.arrow(c.kinds);
            let shape = match name {
                Some(x) => put9(
                    "((",
                    x.to_text().as_str(),
                    ": ",
                    dom.as_str(),
                    ") ",
                    arrow,
                    " ",
                    cod.as_str(),
                    ")",
                ),
                None => put7("(", dom.as_str(), " ", arrow, " ", cod.as_str(), ")"),
            };
            put2(front.as_str(), shape.as_str())
        },
        Type::Tuple(_) => {
            let parts = fmt_type_kids(c, t, 0, n);
            put3("(", join(&parts, ", ").as_str(), ")")
        },
        Type::Record(fs) => {
            let parts = fmt_slots(c, t, fs);
            put3("{", join(&parts, ", ").as_str(), "}")
        },
        Type::Variant(arms, openness) => {
            let ghost keys = arm_keys_view(arms@);
            assert(tv.kids == arm_types_view(arms@));
            assert(tv.kids.len() == arms@.len());
            let more = if openness.permits_extra_tags() {
                owned(" | …")
            } else {
                let none = String::new();
                assert(none@ =~= Seq::empty());
                none
            };
            if all_positions(arms) {
                let parts = synthetic_payloads(c, t);
                put2(join(&parts, " | ").as_str(), more.as_str())
            } else {
                let parts = fmt_tags(c, t, arms);
                put4("{", join(&parts, " | ").as_str(), more.as_str(), "}")
            }
        },
        Type::Refinement(_, set) => {
            assert(tv.kids.len() == 1);
            let base = fmt_type(c, kids[0]);
            match singleton_value(t) {
                Some(l) => put3(base.as_str(), "@", fmt_lit(l).as_str()),
                None => {
                    let ordered = sort_texts(fmt_preds(c, t));
                    put5("{", base.as_str(), " | ", join(&ordered, ", ").as_str(), "}")
                },
            }
        },
        Type::Hole => owned("_"),
        Type::SharedHole(id) => put2("_#", show_u64(*id as u64).as_str()),
        Type::Infer(v) => put2("?", show_u64(v.uid as u64).as_str()),
        Type::DataSource(s) => put3("source(", s.as_str(), ")"),
        Type::ChanDom(x, _) => put3("chan(", x.to_text().as_str(), ")"),
        Type::Txn => owned("Txn"),
        Type::History { value, domain, history_kind } => {
            assert(tv.kids.len() == 2);
            let v = fmt_type(c, kids[0]);
            let d = fmt_type(c, kids[1]);
            match history_kind {
                HistoryKind::Overwrite => {
                    put5("Mut(", v.as_str(), ", ", d.as_str(), ")")
                },
                HistoryKind::Append => {
                    put5("feed(", d.as_str(), " ⤇ ", v.as_str(), ")")
                },
            }
        },
        Type::WitnessRef(w) => if c.ids {
            put2("σ@", show_u64(w.0.0 as u64).as_str())
        } else {
            owned("σ")
        },
    }
}

impl Openness {
    /// Whether tags beyond the listed ones are admitted.
    pub fn permits_extra_tags(self) -> (r: bool)
        ensures
            r == (self is Open),
    {
        match self {
            Openness::Open => true,
            Openness::Closed => false,
        }
    }
}

impl Type {
    /// The type as it prints.
    pub fn to_text(&self, kinds: &KindVars) -> (r: String)
        ensures
            r@ == ty_text(
                ShowS { types: false, ids: false, kinds: kinds.view(), env: Seq::empty() },
                self.view(),
            ),
    {
        fmt_type(&Show::outside(false, false, kinds), self)
    }
}

/// The term as it reads.
pub open spec fn symbolic_s(kinds: Seq<BoundsS>, e: ExprS) -> Seq<char> {
    text(ShowS { types: false, ids: false, kinds, env: Seq::empty() }, e, Precedence::Lowest)
}

/// The term as it reads.
pub fn symbolic(expr: &Expr, kinds: &KindVars) -> (r: String)
    ensures
        r@ == symbolic_s(kinds.view(), expr.view()),
{
    fmt(&Show::outside(false, false, kinds), expr, Precedence::Lowest)
}

/// The term as it reads, every subterm with its type.
pub fn symbolic_typed(expr: &Expr, kinds: &KindVars) -> (r: String)
    ensures
        r@ == text(
            ShowS { types: true, ids: false, kinds: kinds.view(), env: Seq::empty() },
            expr.view(),
            Precedence::Lowest,
        ),
{
    fmt(&Show::outside(true, false, kinds), expr, Precedence::Lowest)
}

} // verus!
