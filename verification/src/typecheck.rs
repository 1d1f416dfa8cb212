//! The type checker: folds one untyped expression tree into a configured
//! schema, or reports a precise type error. One depth-first pass; the first
//! error anywhere aborts the whole check.
//!
//! Rules: `exactly`, `at_least` and `at_most` take one natural and make a
//! requirement; `category` takes a string, a requirement expression and a
//! homogeneous list of keyword pairs; `schema` takes two strings (delimiter
//! and empty-category placeholder, the latter unused) and a homogeneous list
//! of categories. A list's type is its first element's; mixed element types
//! are a `HeterogeneousList` error naming the distinct types found. Anything
//! else is `UnknownFunction`, with the arguments themselves typechecked
//! first so the report can name their types.

use vstd::prelude::*;

use crate::config;
use crate::schema::Requirement;
use crate::text::str_eq;
use crate::expr::{ExprU, ExprUView};

verus! {

/// A display name and the stable identifier that appears in filenames.
#[derive(Clone, Debug, Eq, PartialEq)]
pub struct Keyword {
    pub name: String,
    pub id: String,
}

/// The type of a checked expression, as reported in diagnostics.
#[derive(Debug, Eq, PartialEq)]
pub enum Type {
    String,
    Nat,
    Keyword,
    List(Box<Type>),
    Schema,
    Category,
    Requirement,
    Hole,
}

/// Mathematical image of a [`Type`].
#[verifier::ext_equal]
pub ghost enum TypeView {
    String,
    Nat,
    Keyword,
    List(Box<TypeView>),
    Schema,
    Category,
    Requirement,
    Hole,
}

impl View for Type {
    type V = TypeView;

    open spec fn view(&self) -> TypeView
        decreases self,
    {
        match self {
            Type::String => TypeView::String,
            Type::Nat => TypeView::Nat,
            Type::Keyword => TypeView::Keyword,
            Type::List(t) => TypeView::List(Box::new((&**t).view())),
            Type::Schema => TypeView::Schema,
            Type::Category => TypeView::Category,
            Type::Requirement => TypeView::Requirement,
            Type::Hole => TypeView::Hole,
        }
    }
}

impl DeepView for Type {
    type V = TypeView;

    open spec fn deep_view(&self) -> TypeView {
        self.view()
    }
}

/// A typed node. It exists only during the single typecheck pass.
#[derive(Debug, Eq, PartialEq)]
pub enum ExprT {
    SchemaT(config::Schema),
    CategoryT(config::Category),
    KeywordT(Keyword),
    RequirementT(Requirement),
    NatT(u8),
    StringT(String),
    ListT(Vec<ExprT>),
}

/// Mathematical image of an [`ExprT`].
#[verifier::ext_equal]
pub ghost enum ExprTView {
    SchemaT(config::SchemaView),
    CategoryT(config::CategoryView),
    KeywordT { name: Seq<char>, id: Seq<char> },
    RequirementT(Requirement),
    NatT(u8),
    StringT(Seq<char>),
    ListT(Seq<ExprTView>),
}

impl View for ExprT {
    type V = ExprTView;

    open spec fn view(&self) -> ExprTView
        decreases self, 1int,
    {
        match self {
            ExprT::SchemaT(s) => ExprTView::SchemaT(s@),
            ExprT::CategoryT(c) => ExprTView::CategoryT(c@),
            ExprT::KeywordT(k) => ExprTView::KeywordT { name: k.name@, id: k.id@ },
            ExprT::RequirementT(r) => ExprTView::RequirementT(*r),
            ExprT::NatT(n) => ExprTView::NatT(*n),
            ExprT::StringT(s) => ExprTView::StringT(s@),
            ExprT::ListT(items) => ExprTView::ListT(view_exprts(items@)),
        }
    }
}

impl DeepView for ExprT {
    type V = ExprTView;

    open spec fn deep_view(&self) -> ExprTView {
        self.view()
    }
}

/// The views of a sequence of typed nodes, in order.
pub open spec fn view_exprts(s: Seq<ExprT>) -> Seq<ExprTView>
    decreases s, 0int,
{
    if s.len() == 0 {
        Seq::empty()
    } else {
        seq![s[0].view()] + view_exprts(s.drop_first())
    }
}

/// `view_exprts` is the element-wise view.
pub proof fn lemma_view_exprts(s: Seq<ExprT>)
    ensures
        view_exprts(s).len() == s.len(),
        forall|i: int| 0 <= i < s.len() ==> view_exprts(s)[i] == (#[trigger] s[i]).view(),
    decreases s.len(),
{
    if s.len() > 0 {
        lemma_view_exprts(s.drop_first());
        assert forall|i: int| 0 <= i < s.len() implies view_exprts(s)[i] == (
        #[trigger] s[i]).view() by {
            if i == 0 {
                assert(view_exprts(s)[0] == s[0].view());
            } else {
                assert(seq![s[0].view()].len() == 1);
                assert(view_exprts(s) == seq![s[0].view()] + view_exprts(s.drop_first()));
                assert(view_exprts(s)[i] == view_exprts(s.drop_first())[i - 1]);
                assert(s.drop_first()[i - 1] == s[i]);
                assert(view_exprts(s.drop_first())[i - 1] == s.drop_first()[i - 1].view());
            }
        }
    }
}

/// A rejected untyped tree, with enough structure for a precise diagnostic.
#[derive(Debug, Eq, PartialEq)]
pub enum SchemaTypeCheckError {
    ExpectedTopLevelSchema,
    TypeMismatch { expected: Type, got: Type },
    HeterogeneousList(Vec<Type>),
    UnknownFunction { name: String, arg_types: Vec<Type> },
}

/// Mathematical image of a [`SchemaTypeCheckError`].
#[verifier::ext_equal]
pub ghost enum SchemaTypeCheckErrorView {
    ExpectedTopLevelSchema,
    TypeMismatch { expected: TypeView, got: TypeView },
    HeterogeneousList(Seq<TypeView>),
    UnknownFunction { name: Seq<char>, arg_types: Seq<TypeView> },
}

impl View for SchemaTypeCheckError {
    type V = SchemaTypeCheckErrorView;

    open spec fn view(&self) -> SchemaTypeCheckErrorView {
        match self {
            SchemaTypeCheckError::ExpectedTopLevelSchema => {
                SchemaTypeCheckErrorView::ExpectedTopLevelSchema
            },
            SchemaTypeCheckError::TypeMismatch { expected, got } => {
                SchemaTypeCheckErrorView::TypeMismatch { expected: expected@, got: got@ }
            },
            SchemaTypeCheckError::HeterogeneousList(ts) => {
                SchemaTypeCheckErrorView::HeterogeneousList(ts.deep_view())
            },
            SchemaTypeCheckError::UnknownFunction { name, arg_types } => {
                SchemaTypeCheckErrorView::UnknownFunction {
                    name: name@,
                    arg_types: arg_types.deep_view(),
                }
            },
        }
    }
}

// ---------------------------------------------------------------------------
// Specification.
// ---------------------------------------------------------------------------

/// The type of a typed node: a list's type is its first element's, and the
/// empty list is polymorphic.
pub open spec fn spec_type_of(e: ExprTView) -> TypeView
    decreases e,
{
    match e {
        ExprTView::SchemaT(_) => TypeView::Schema,
        ExprTView::RequirementT(_) => TypeView::Requirement,
        ExprTView::CategoryT(_) => TypeView::Category,
        ExprTView::NatT(_) => TypeView::Nat,
        ExprTView::StringT(_) => TypeView::String,
        ExprTView::KeywordT { .. } => TypeView::Keyword,
        ExprTView::ListT(args) => if args.len() == 0 {
            TypeView::List(Box::new(TypeView::Hole))
        } else {
            TypeView::List(Box::new(spec_type_of(args[0])))
        },
    }
}

/// The types of the checked nodes, in order.
pub open spec fn types_of(ts: Seq<ExprTView>) -> Seq<TypeView> {
    Seq::new(ts.len(), |i: int| spec_type_of(ts[i]))
}

/// The distinct types among `ts` from index `i` on, first occurrence first,
/// appended to `acc`.
pub open spec fn dedup_types(ts: Seq<TypeView>, i: int, acc: Seq<TypeView>) -> Seq<TypeView>
    decreases ts.len() - i,
{
    if i < 0 || i >= ts.len() {
        acc
    } else if acc.contains(ts[i]) {
        dedup_types(ts, i + 1, acc)
    } else {
        dedup_types(ts, i + 1, acc.push(ts[i]))
    }
}

/// The requirement kind and bound, separately, as configuration stores them.
pub open spec fn spec_req_parts(r: Requirement) -> (config::Requirement, usize) {
    match r {
        Requirement::Exactly(n) => (config::Requirement::Exactly, n),
        Requirement::AtLeast(n) => (config::Requirement::AtLeast, n),
        Requirement::AtMost(n) => (config::Requirement::AtMost, n),
    }
}

/// The keyword identifiers of a checked keyword list, in order.
pub open spec fn spec_kw_ids(xs: Seq<ExprTView>) -> Seq<Seq<char>> {
    Seq::new(
        xs.len(),
        |i: int|
            match xs[i] {
                ExprTView::KeywordT { id, .. } => id,
                _ => Seq::empty(),
            },
    )
}

/// The category payloads of a checked category list, in order.
pub open spec fn spec_cat_payloads(xs: Seq<ExprTView>) -> Seq<config::CategoryView> {
    Seq::new(
        xs.len(),
        |i: int|
            match xs[i] {
                ExprTView::CategoryT(c) => c,
                _ => vstd::pervasive::arbitrary(),
            },
    )
}

/// Everything `typecheck_` returns for one node.
pub open spec fn spec_typecheck_(e: ExprUView) -> Result<ExprTView, SchemaTypeCheckErrorView>
    decreases e,
{
    match e {
        ExprUView::Nat(x) => Ok(ExprTView::NatT(x)),
        ExprUView::Str(x) => Ok(ExprTView::StringT(x)),
        ExprUView::Keyword { name, id } => Ok(ExprTView::KeywordT { name, id }),
        ExprUView::List(xs) => match spec_tc_list(xs) {
            Err(er) => Err(er),
            Ok(ts) => {
                let types = dedup_types(types_of(ts), 0, Seq::empty());
                if types.len() <= 1 {
                    Ok(ExprTView::ListT(ts))
                } else {
                    Err(SchemaTypeCheckErrorView::HeterogeneousList(types))
                }
            },
        },
        ExprUView::Fn { name, args } => {
            if name == "exactly"@ && args.len() == 1 && args[0] is Nat {
                Ok(ExprTView::RequirementT(Requirement::Exactly(args[0]->Nat_0 as usize)))
            } else if name == "at_least"@ && args.len() == 1 && args[0] is Nat {
                Ok(ExprTView::RequirementT(Requirement::AtLeast(args[0]->Nat_0 as usize)))
            } else if name == "at_most"@ && args.len() == 1 && args[0] is Nat {
                Ok(ExprTView::RequirementT(Requirement::AtMost(args[0]->Nat_0 as usize)))
            } else if name == "category"@ && args.len() == 3 && args[0] is Str && args[1] is Fn
                && args[2] is List {
                match spec_typecheck_(args[1]) {
                    Err(er) => Err(er),
                    Ok(reqt) => match spec_typecheck_(args[2]) {
                        Err(er) => Err(er),
                        Ok(kws) => spec_category_rule(args[0]->Str_0, reqt, kws),
                    },
                }
            } else if name == "schema"@ && args.len() == 3 && args[0] is Str && args[1] is Str
                && args[2] is List {
                match spec_typecheck_(args[2]) {
                    Err(er) => Err(er),
                    Ok(cats) => spec_schema_rule(args[0]->Str_0, cats),
                }
            } else {
                match spec_tc_list(args) {
                    Err(er) => Err(er),
                    Ok(ts) => Err(SchemaTypeCheckErrorView::UnknownFunction {
                        name,
                        arg_types: types_of(ts),
                    }),
                }
            }
        },
    }
}

/// The `category` rule: the requirement must have checked to a requirement
/// and the keyword list to a homogeneous list of keywords; otherwise a
/// mismatch naming what the list checked to.
pub open spec fn spec_category_rule(name: Seq<char>, reqt: ExprTView, kws: ExprTView) -> Result<
    ExprTView,
    SchemaTypeCheckErrorView,
> {
    let t = spec_type_of(kws);
    match (reqt, t, kws) {
        (ExprTView::RequirementT(r), TypeView::List(telem), ExprTView::ListT(xs)) => {
            if *telem is Keyword {
                let parts = spec_req_parts(r);
                Ok(ExprTView::CategoryT(config::CategoryView {
                    name,
                    rtype: parts.0,
                    rvalue: parts.1,
                    values: spec_kw_ids(xs),
                }))
            } else {
                Err(SchemaTypeCheckErrorView::TypeMismatch {
                    expected: TypeView::List(Box::new(TypeView::Keyword)),
                    got: TypeView::List(telem),
                })
            }
        },
        _ => Err(SchemaTypeCheckErrorView::TypeMismatch {
            expected: TypeView::List(Box::new(TypeView::Keyword)),
            got: t,
        }),
    }
}

/// The `schema` rule: the list must have checked to a homogeneous list of
/// categories; otherwise a mismatch naming what it checked to.
pub open spec fn spec_schema_rule(delim: Seq<char>, cats: ExprTView) -> Result<
    ExprTView,
    SchemaTypeCheckErrorView,
> {
    let t = spec_type_of(cats);
    match (t, cats) {
        (TypeView::List(telem), ExprTView::ListT(xs)) => {
            if *telem is Category {
                Ok(ExprTView::SchemaT(config::SchemaView {
                    delim,
                    categories: spec_cat_payloads(xs),
                }))
            } else {
                Err(SchemaTypeCheckErrorView::TypeMismatch {
                    expected: TypeView::List(Box::new(TypeView::Category)),
                    got: TypeView::List(telem),
                })
            }
        },
        _ => Err(SchemaTypeCheckErrorView::TypeMismatch {
            expected: TypeView::List(Box::new(TypeView::Category)),
            got: t,
        }),
    }
}

/// Check the nodes in order; the first error wins.
pub open spec fn spec_tc_list(xs: Seq<ExprUView>) -> Result<
    Seq<ExprTView>,
    SchemaTypeCheckErrorView,
>
    decreases xs,
{
    if xs.len() == 0 {
        Ok(Seq::empty())
    } else {
        match spec_typecheck_(xs[0]) {
            Err(er) => Err(er),
            Ok(t) => match spec_tc_list(xs.drop_first()) {
                Err(er) => Err(er),
                Ok(ts) => Ok(seq![t] + ts),
            },
        }
    }
}

/// Everything `typecheck` returns: the root must reduce to a schema.
pub open spec fn spec_typecheck(e: ExprUView) -> Result<
    config::SchemaView,
    SchemaTypeCheckErrorView,
> {
    match spec_typecheck_(e) {
        Ok(ExprTView::SchemaT(x)) => Ok(x),
        Ok(_) => Err(SchemaTypeCheckErrorView::ExpectedTopLevelSchema),
        Err(er) => Err(er),
    }
}


// ---------------------------------------------------------------------------
// Supporting lemmas.
// ---------------------------------------------------------------------------

/// Deduplication keeps everything it has seen: each remaining input element
/// and each accumulated element appears in the result.
pub proof fn lemma_dedup_contains(ts: Seq<TypeView>, i: int, acc: Seq<TypeView>)
    requires
        0 <= i <= ts.len(),
    ensures
        forall|k: int| i <= k < ts.len() ==> dedup_types(ts, i, acc).contains(#[trigger] ts[k]),
        forall|x: TypeView| acc.contains(x) ==> dedup_types(ts, i, acc).contains(x),
    decreases ts.len() - i,
{
    if i < ts.len() {
        if acc.contains(ts[i]) {
            lemma_dedup_contains(ts, i + 1, acc);
        } else {
            lemma_dedup_contains(ts, i + 1, acc.push(ts[i]));
            assert(acc.push(ts[i])[acc.len() as int] == ts[i]);
            assert(acc.push(ts[i]).contains(ts[i]));
            assert forall|x: TypeView| acc.contains(x) implies dedup_types(ts, i, acc).contains(
                x,
            ) by {
                let idx = choose|idx: int| 0 <= idx < acc.len() && acc[idx] == x;
                assert(acc.push(ts[i])[idx] == x);
                assert(acc.push(ts[i]).contains(x));
            }
        }
    }
}

/// A list whose distinct types number at most one is homogeneous.
pub proof fn lemma_homogeneous_all(ts: Seq<TypeView>)
    requires
        dedup_types(ts, 0, Seq::empty()).len() <= 1,
    ensures
        forall|i: int, j: int|
            0 <= i < ts.len() && 0 <= j < ts.len() ==> #[trigger] ts[i] == #[trigger] ts[j],
{
    lemma_dedup_contains(ts, 0, Seq::empty());
    let d = dedup_types(ts, 0, Seq::empty());
    assert forall|i: int, j: int|
        0 <= i < ts.len() && 0 <= j < ts.len() implies #[trigger] ts[i] == #[trigger] ts[j] by {
        let ii = choose|ii: int| 0 <= ii < d.len() && d[ii] == ts[i];
        let jj = choose|jj: int| 0 <= jj < d.len() && d[jj] == ts[j];
        assert(ii == 0 && jj == 0);
    }
}

/// When every element of a list checks, the whole list checks, element for
/// element.
pub proof fn lemma_tc_list_all_ok(xs: Seq<ExprUView>)
    requires
        forall|k: int| 0 <= k < xs.len() ==> spec_typecheck_(#[trigger] xs[k]) is Ok,
    ensures
        spec_tc_list(xs) is Ok,
        spec_tc_list(xs)->Ok_0.len() == xs.len(),
        forall|k: int|
            0 <= k < xs.len() ==> spec_tc_list(xs)->Ok_0[k] == spec_typecheck_(
                #[trigger] xs[k],
            )->Ok_0,
    decreases xs.len(),
{
    if xs.len() > 0 {
        assert(forall|k: int|
            0 <= k < xs.drop_first().len() ==> spec_typecheck_(#[trigger] xs.drop_first()[k])
                is Ok) by {
            assert(forall|k: int|
                0 <= k < xs.drop_first().len() ==> #[trigger] xs.drop_first()[k] == xs[k + 1]);
        }
        lemma_tc_list_all_ok(xs.drop_first());
        let ts = spec_tc_list(xs)->Ok_0;
        let rest = spec_tc_list(xs.drop_first())->Ok_0;
        assert forall|k: int| 0 <= k < xs.len() implies ts[k] == spec_typecheck_(
            #[trigger] xs[k],
        )->Ok_0 by {
            if k > 0 {
                assert(ts[k] == rest[k - 1]);
                assert(xs.drop_first()[k - 1] == xs[k]);
            }
        }
    }
}

/// Only a list expression checks to a `ListT`, and then its element types
/// deduplicate to at most one.
pub proof fn lemma_list_ok_form(x: ExprUView, ts: Seq<ExprTView>)
    requires
        spec_typecheck_(x) == Ok::<_, SchemaTypeCheckErrorView>(ExprTView::ListT(ts)),
    ensures
        x is List,
        spec_tc_list(x->List_0) == Ok::<_, SchemaTypeCheckErrorView>(ts),
        dedup_types(types_of(ts), 0, Seq::empty()).len() <= 1,
{
    match x {
        ExprUView::List(xs) => {},
        ExprUView::Fn { name, args } => {
            if name == "category"@ && args.len() == 3 && args[0] is Str && args[1] is Fn && args[2]
                is List {
            } else if name == "schema"@ && args.len() == 3 && args[0] is Str && args[1] is Str
                && args[2] is List {
            } else {
            }
        },
        _ => {},
    }
}

/// The view keeps each node's variant.
proof fn lemma_exprt_variant(e: ExprT)
    ensures
        (e@ is RequirementT) == (e is RequirementT),
        (e@ is ListT) == (e is ListT),
        (e@ is SchemaT) == (e is SchemaT),
        (e@ is CategoryT) == (e is CategoryT),
{
    match e {
        ExprT::SchemaT(x) => {
            assert(e@ is SchemaT);
        },
        ExprT::CategoryT(x) => {
            assert(e@ is CategoryT);
        },
        ExprT::KeywordT(x) => {
            assert(e@ is KeywordT);
        },
        ExprT::RequirementT(x) => {
            assert(e@ is RequirementT);
        },
        ExprT::NatT(x) => {
            assert(e@ is NatT);
        },
        ExprT::StringT(x) => {
            assert(e@ is StringT);
        },
        ExprT::ListT(x) => {
            assert(e@ is ListT);
        },
    }
}

/// The view keeps a type's variant.
proof fn lemma_type_variant(t: Type)
    ensures
        (t@ is List) == (t is List),
{
    match t {
        Type::String => {
            assert(t@ is String);
        },
        Type::Nat => {
            assert(t@ is Nat);
        },
        Type::Keyword => {
            assert(t@ is Keyword);
        },
        Type::List(x) => {
            assert(t@ is List);
        },
        Type::Schema => {
            assert(t@ is Schema);
        },
        Type::Category => {
            assert(t@ is Category);
        },
        Type::Requirement => {
            assert(t@ is Requirement);
        },
        Type::Hole => {
            assert(t@ is Hole);
        },
    }
}

/// A node whose type is `Keyword` is a keyword node.
pub proof fn lemma_keyword_typed(e: ExprTView)
    requires
        spec_type_of(e) == TypeView::Keyword,
    ensures
        e is KeywordT,
{
}

/// A node whose type is `Category` is a category node.
pub proof fn lemma_category_typed(e: ExprTView)
    requires
        spec_type_of(e) == TypeView::Category,
    ensures
        e is CategoryT,
{
}

/// A list that mixes a string and a keyword pair, each element itself
/// well-typed, is rejected as heterogeneous, and the report names both the
/// string and the keyword type. Stated for every such list, whatever else it
/// contains.
pub proof fn lemma_heterogeneous_list(xs: Seq<ExprUView>, i: int, j: int)
    requires
        forall|k: int| 0 <= k < xs.len() ==> spec_typecheck_(#[trigger] xs[k]) is Ok,
        0 <= i < xs.len(),
        0 <= j < xs.len(),
        xs[i] is Str,
        xs[j] is Keyword,
    ensures
        spec_typecheck_(ExprUView::List(xs)) matches Err(
            SchemaTypeCheckErrorView::HeterogeneousList(found),
        ) && found.contains(TypeView::String) && found.contains(TypeView::Keyword),
{
    lemma_tc_list_all_ok(xs);
    let ts = spec_tc_list(xs)->Ok_0;
    let types = types_of(ts);
    assert(spec_type_of(ts[i]) == TypeView::String);
    assert(spec_type_of(ts[j]) == TypeView::Keyword);
    assert(types[i] == TypeView::String);
    assert(types[j] == TypeView::Keyword);
    let d = dedup_types(types, 0, Seq::empty());
    lemma_dedup_contains(types, 0, Seq::empty());
    assert(d.contains(TypeView::String));
    assert(d.contains(TypeView::Keyword));
    if d.len() <= 1 {
        let ii = choose|ii: int| 0 <= ii < d.len() && d[ii] == TypeView::String;
        let jj = choose|jj: int| 0 <= jj < d.len() && d[jj] == TypeView::Keyword;
        assert(ii == 0 && jj == 0);
        assert(false);
    }
}

// ---------------------------------------------------------------------------
// Executable checker.
// ---------------------------------------------------------------------------

/// The type of a checked node.
pub fn type_of(e: &ExprT) -> (r: Type)
    ensures
        r@ == spec_type_of(e@),
    decreases *e,
{
    match e {
        ExprT::SchemaT(_) => Type::Schema,
        ExprT::RequirementT(_) => Type::Requirement,
        ExprT::CategoryT(_) => Type::Category,
        ExprT::NatT(_) => Type::Nat,
        ExprT::StringT(_) => Type::String,
        ExprT::KeywordT(_) => Type::Keyword,
        ExprT::ListT(items) => {
            proof {
                lemma_view_exprts(items@);
            }
            if items.len() == 0 {
                let inner = Type::Hole;
                assert(inner@ == TypeView::Hole);
                let r = Type::List(Box::new(inner));
                assert(r@ == spec_type_of(e@));
                r
            } else {
                let inner = type_of(&items[0]);
                assert(inner@ == spec_type_of(view_exprts(items@)[0]));
                let r = Type::List(Box::new(inner));
                assert(r@ == spec_type_of(e@));
                r
            }
        },
    }
}

/// Structural equality of types.
fn type_eq(a: &Type, b: &Type) -> (r: bool)
    ensures
        r == (a@ == b@),
    decreases *a,
{
    match (a, b) {
        (Type::String, Type::String) => true,
        (Type::Nat, Type::Nat) => true,
        (Type::Keyword, Type::Keyword) => true,
        (Type::Schema, Type::Schema) => true,
        (Type::Category, Type::Category) => true,
        (Type::Requirement, Type::Requirement) => true,
        (Type::Hole, Type::Hole) => true,
        (Type::List(x), Type::List(y)) => type_eq(&**x, &**y),
        _ => false,
    }
}

fn vec_contains_type(v: &Vec<Type>, x: &Type) -> (r: bool)
    ensures
        r == v.deep_view().contains(x@),
{
    let mut i: usize = 0;
    while i < v.len()
        invariant
            0 <= i <= v.len(),
            forall|k: int| 0 <= k < i ==> v.deep_view()[k] != x@,
        decreases v.len() - i,
    {
        if type_eq(&v[i], x) {
            assert(v.deep_view()[i as int] == x@);
            assert(v.deep_view().contains(x@));
            return true;
        }
        i = i + 1;
    }
    assert(forall|k: int| 0 <= k < v.deep_view().len() ==> v.deep_view()[k] != x@);
    false
}

/// The distinct types among `types`, first occurrence first.
fn dedup_exec(types: &Vec<Type>) -> (r: Vec<Type>)
    ensures
        r.deep_view() == dedup_types(types.deep_view(), 0, Seq::empty()),
{
    let ghost full = types.deep_view();
    let mut acc: Vec<Type> = Vec::new();
    let mut i: usize = 0;
    proof {
        assert(acc.deep_view() =~= Seq::<TypeView>::empty());
    }
    while i < types.len()
        invariant
            full == types.deep_view(),
            full.len() == types@.len(),
            0 <= i <= types@.len(),
            dedup_types(full, 0, Seq::empty()) == dedup_types(full, i as int, acc.deep_view()),
        decreases types@.len() - i,
    {
        let ghost oldacc = acc.deep_view();
        if !vec_contains_type(&acc, &types[i]) {
            let t = clone_type(&types[i]);
            acc.push(t);
            proof {
                assert(acc.deep_view() =~= oldacc.push(full[i as int]));
            }
        }
        i = i + 1;
    }
    acc
}

/// A structural copy of a type.
fn clone_type(t: &Type) -> (r: Type)
    ensures
        r@ == t@,
    decreases *t,
{
    match t {
        Type::String => Type::String,
        Type::Nat => Type::Nat,
        Type::Keyword => Type::Keyword,
        Type::Schema => Type::Schema,
        Type::Category => Type::Category,
        Type::Requirement => Type::Requirement,
        Type::Hole => Type::Hole,
        Type::List(x) => Type::List(Box::new(clone_type(&**x))),
    }
}

/// The types of the checked nodes, in order.
fn types_of_exec(ts: &Vec<ExprT>) -> (r: Vec<Type>)
    ensures
        r.deep_view() == types_of(ts.deep_view()),
{
    let mut out: Vec<Type> = Vec::new();
    let mut i: usize = 0;
    proof {
        lemma_view_exprts(ts@);
    }
    while i < ts.len()
        invariant
            0 <= i <= ts@.len(),
            ts.deep_view().len() == ts@.len(),
            forall|k: int| 0 <= k < ts@.len() ==> ts.deep_view()[k] == (#[trigger] ts@[k])@,
            out.deep_view().len() == i,
            forall|k: int|
                0 <= k < i ==> out.deep_view()[k] == spec_type_of(#[trigger] ts.deep_view()[k]),
        decreases ts@.len() - i,
    {
        let ghost oldout = out.deep_view();
        let t = type_of(&ts[i]);
        out.push(t);
        proof {
            assert(out.deep_view() =~= oldout.push(t@));
        }
        i = i + 1;
    }
    proof {
        assert(out.deep_view() =~= types_of(ts.deep_view()));
    }
    out
}

/// Check the nodes of a list in order; the first error aborts.
fn tc_list(xs: &Vec<ExprU>) -> (r: Result<Vec<ExprT>, SchemaTypeCheckError>)
    ensures
        match r {
            Ok(ts) => spec_tc_list(crate::expr::view_exprs(xs@)) == Ok::<
                _,
                SchemaTypeCheckErrorView,
            >(ts.deep_view()),
            Err(er) => spec_tc_list(crate::expr::view_exprs(xs@)) == Err::<Seq<ExprTView>, _>(
                er@,
            ),
        },
    decreases xs@, 1int,
{
    let ghost xsv = crate::expr::view_exprs(xs@);
    proof {
        crate::expr::lemma_view_exprs(xs@);
    }
    let mut out: Vec<ExprT> = Vec::new();
    let mut i: usize = 0;
    proof {
        assert(xsv.skip(0) =~= xsv);
        assert(out.deep_view() =~= Seq::<ExprTView>::empty());
        match spec_tc_list(xsv) {
            Ok(rest) => {
                assert(out.deep_view() + rest =~= rest);
            },
            Err(_) => {},
        }
    }
    #[verifier::loop_isolation(true)]
    loop
        invariant_except_break
            xsv == crate::expr::view_exprs(xs@),
            xsv.len() == xs@.len(),
            forall|k: int| 0 <= k < xs@.len() ==> xsv[k] == (#[trigger] xs@[k])@,
            0 <= i <= xs@.len(),
            spec_tc_list(xsv) == match spec_tc_list(xsv.skip(i as int)) {
                Err(er) => Err(er),
                Ok(rest) => Ok(out.deep_view() + rest),
            },
        invariant
            0 <= i <= xs@.len(),
        ensures
            i == xs@.len(),
            spec_tc_list(xsv) == Ok::<_, SchemaTypeCheckErrorView>(out.deep_view()),
        decreases xs@.len() - i,
    {
        if i == xs.len() {
            proof {
                assert(xsv.skip(xs@.len() as int) =~= Seq::<ExprUView>::empty());
                assert(out.deep_view() + Seq::<ExprTView>::empty() =~= out.deep_view());
            }
            break;
        }
        let ghost suffix = xsv.skip(i as int);
        proof {
            assert(suffix[0] == xsv[i as int]);
            assert(suffix.drop_first() =~= xsv.skip(i as int + 1));
        }
        match typecheck_(&xs[i]) {
            Err(er) => {
                return Err(er);
            },
            Ok(t) => {
                let ghost oldout = out.deep_view();
                let ghost tv = t@;
                out.push(t);
                proof {
                    assert(out.deep_view() =~= oldout.push(tv));
                    assert(oldout + (seq![tv] + spec_tc_list(xsv.skip(i as int + 1))->Ok_0)
                        =~= out.deep_view() + spec_tc_list(xsv.skip(i as int + 1))->Ok_0);
                }
            },
        }
        i = i + 1;
    }
    Ok(out)
}

/// Check one node: the heart of the type checker.
pub fn typecheck_(e: &ExprU) -> (r: Result<ExprT, SchemaTypeCheckError>)
    ensures
        match r {
            Ok(t) => spec_typecheck_(e@) == Ok::<_, SchemaTypeCheckErrorView>(t@),
            Err(er) => spec_typecheck_(e@) == Err::<ExprTView, _>(er@),
        },
    decreases *e, 0int,
{
    match e {
        ExprU::NatU(x) => Ok(ExprT::NatT(*x)),
        ExprU::StringU(x) => Ok(ExprT::StringT(x.clone())),
        ExprU::KeywordU { name, id } => Ok(
            ExprT::KeywordT(Keyword { name: name.clone(), id: id.clone() }),
        ),
        ExprU::ListU(xs) => {
            proof {
                crate::expr::lemma_deep_is_view_exprs(*xs);
            }
            match tc_list(xs) {
                Err(er) => Err(er),
                Ok(ts) => {
                    let types = types_of_exec(&ts);
                    let distinct = dedup_exec(&types);
                    if distinct.len() <= 1 {
                        let node = ExprT::ListT(ts);
                        proof {
                            lemma_view_exprts(node->ListT_0@);
                            assert(view_exprts(node->ListT_0@) =~= node->ListT_0.deep_view());
                        }
                        Ok(node)
                    } else {
                        assert(distinct.deep_view().len() == distinct@.len());
                        Err(SchemaTypeCheckError::HeterogeneousList(distinct))
                    }
                },
            }
        },
        ExprU::FnU { name, args } => {
            proof {
                crate::expr::lemma_view_exprs(args@);
                crate::expr::lemma_deep_is_view_exprs(*args);
            }
            let nm = name.as_str();
            if str_eq(nm, "exactly") && args.len() == 1 && matches!(&args[0], ExprU::NatU(_)) {
                match &args[0] {
                    ExprU::NatU(x) => Ok(ExprT::RequirementT(Requirement::Exactly(*x as usize))),
                    _ => {
                        assert(false);
                        unreached()
                    },
                }
            } else if str_eq(nm, "at_least") && args.len() == 1 && matches!(
                &args[0],
                ExprU::NatU(_),
            ) {
                match &args[0] {
                    ExprU::NatU(x) => Ok(ExprT::RequirementT(Requirement::AtLeast(*x as usize))),
                    _ => {
                        assert(false);
                        unreached()
                    },
                }
            } else if str_eq(nm, "at_most") && args.len() == 1 && matches!(
                &args[0],
                ExprU::NatU(_),
            ) {
                match &args[0] {
                    ExprU::NatU(x) => Ok(ExprT::RequirementT(Requirement::AtMost(*x as usize))),
                    _ => {
                        assert(false);
                        unreached()
                    },
                }
            } else if str_eq(nm, "category") && args.len() == 3 && matches!(
                &args[0],
                ExprU::StringU(_),
            ) && matches!(&args[1], ExprU::FnU { .. }) && matches!(&args[2], ExprU::ListU(_)) {
                match typecheck_(&args[1]) {
                    Err(er) => Err(er),
                    Ok(reqt) => match typecheck_(&args[2]) {
                        Err(er) => Err(er),
                        Ok(kws) => {
                            let cname = match &args[0] {
                                ExprU::StringU(sv) => sv.clone(),
                                _ => {
                                    assert(false);
                                    unreached()
                                },
                            };
                            category_rule(cname, reqt, kws)
                        },
                    },
                }
            } else if str_eq(nm, "schema") && args.len() == 3 && matches!(
                &args[0],
                ExprU::StringU(_),
            ) && matches!(&args[1], ExprU::StringU(_)) && matches!(&args[2], ExprU::ListU(_)) {
                match typecheck_(&args[2]) {
                    Err(er) => Err(er),
                    Ok(cats) => {
                        let delim = match &args[0] {
                            ExprU::StringU(sv) => sv.clone(),
                            _ => {
                                assert(false);
                                unreached()
                            },
                        };
                        schema_rule(delim, cats)
                    },
                }
            } else {
                match tc_list(args) {
                    Err(er) => Err(er),
                    Ok(ts) => {
                        let arg_types = types_of_exec(&ts);
                        Err(SchemaTypeCheckError::UnknownFunction { name: name.clone(), arg_types })
                    },
                }
            }
        },
    }
}

/// The `category` rule on already-checked parts.
fn category_rule(name: String, reqt: ExprT, kws: ExprT) -> (r: Result<
    ExprT,
    SchemaTypeCheckError,
>)
    requires
        exists|x: ExprUView| #[trigger] spec_typecheck_(x) == Ok::<
            _,
            SchemaTypeCheckErrorView,
        >(kws@),
    ensures
        match r {
            Ok(t) => spec_category_rule(name@, reqt@, kws@) == Ok::<
                _,
                SchemaTypeCheckErrorView,
            >(t@),
            Err(er) => spec_category_rule(name@, reqt@, kws@) == Err::<ExprTView, _>(er@),
        },
{
    let ghost namev = name@;
    let ghost reqtv = reqt@;
    let ghost kwsv = kws@;
    let t = type_of(&kws);
    assert(t@ == spec_type_of(kwsv));
    match (reqt, t, kws) {
        (ExprT::RequirementT(rq), Type::List(telem), ExprT::ListT(xs)) => {
            proof {
                assert(reqtv == ExprTView::RequirementT(rq));
                lemma_view_exprts(xs@);
                assert(kwsv == ExprTView::ListT(view_exprts(xs@)));
            }
            let ghost xsv = view_exprts(xs@);
            if matches!(*telem, Type::Keyword) {
                proof {
                    assert((*telem)@ == TypeView::Keyword);
                    assert(t@ == spec_type_of(kwsv));
                    assert(spec_type_of(kwsv) == TypeView::List(Box::new(TypeView::Keyword)));
                    assert(xsv.len() > 0 && spec_type_of(xsv[0]) == TypeView::Keyword) by {
                        if xsv.len() == 0 {
                            assert(spec_type_of(kwsv) == TypeView::List(
                                Box::new(TypeView::Hole),
                            ));
                        }
                    }
                    let x = choose|x: ExprUView|
                        #[trigger] spec_typecheck_(x) == Ok::<_, SchemaTypeCheckErrorView>(
                            ExprTView::ListT(xsv),
                        );
                    lemma_list_ok_form(x, xsv);
                    lemma_homogeneous_all(types_of(xsv));
                    assert forall|k: int| 0 <= k < xsv.len() implies xsv[k] is KeywordT by {
                        assert(types_of(xsv)[k] == types_of(xsv)[0]);
                        assert(types_of(xsv)[0] == spec_type_of(xsv[0]));
                        assert(spec_type_of(xsv[k]) == TypeView::Keyword);
                        lemma_keyword_typed(xsv[k]);
                    }
                }
                let mut values: Vec<String> = Vec::new();
                let mut k: usize = 0;
                while k < xs.len()
                    invariant
                        xsv == view_exprts(xs@),
                        xsv.len() == xs@.len(),
                        forall|x: int| 0 <= x < xs@.len() ==> (#[trigger] xs@[x])@ == xsv[x],
                        forall|x: int| 0 <= x < xs@.len() ==> xsv[x] is KeywordT,
                        0 <= k <= xs@.len(),
                        values.deep_view().len() == k,
                        forall|x: int|
                            0 <= x < k ==> #[trigger] values.deep_view()[x] == spec_kw_ids(
                                xsv,
                            )[x],
                    decreases xs@.len() - k,
                {
                    let ghost oldv = values.deep_view();
                    match &xs[k] {
                        ExprT::KeywordT(kw) => {
                            values.push(kw.id.clone());
                            proof {
                                assert(xsv[k as int] == ExprTView::KeywordT {
                                    name: kw.name@,
                                    id: kw.id@,
                                });
                                assert(spec_kw_ids(xsv)[k as int] == kw.id@);
                                assert(values.deep_view() =~= oldv.push(kw.id@));
                            }
                        },
                        _ => {
                            proof {
                                assert(xsv[k as int] is KeywordT);
                            }
                            assert(false);
                            unreached()
                        },
                    }
                    k = k + 1;
                }
                let parts = req_parts(rq);
                let cat = config::Category { name, rtype: parts.0, rvalue: parts.1, values };
                proof {
                    assert(cat@.name == namev);
                    assert(cat@.values =~= spec_kw_ids(xsv));
                    assert(cat@ =~= config::CategoryView {
                        name: namev,
                        rtype: spec_req_parts(rq).0,
                        rvalue: spec_req_parts(rq).1,
                        values: spec_kw_ids(xsv),
                    });
                    assert(reqtv == ExprTView::RequirementT(rq));
                    assert(kwsv == ExprTView::ListT(xsv));
                    assert(spec_category_rule(namev, reqtv, kwsv) == Ok::<
                        _,
                        SchemaTypeCheckErrorView,
                    >(ExprTView::CategoryT(cat@)));
                }
                Ok(ExprT::CategoryT(cat))
            } else {
                proof {
                    lemma_type_variant(*telem);
                }
                let got = Type::List(telem);
                proof {
                    assert(got@ == spec_type_of(kwsv));
                    assert(spec_type_of(kwsv) matches TypeView::List(b) && !(*b is Keyword));
                }
                let inner_expected = Type::Keyword;
                assert(inner_expected@ == TypeView::Keyword);
                let expected = Type::List(Box::new(inner_expected));
                assert(expected@ == TypeView::List(Box::new(TypeView::Keyword)));
                Err(SchemaTypeCheckError::TypeMismatch { expected, got })
            }
        },
        (reqt2, t2, kws2) => {
            proof {
                assert(!(reqt2 is RequirementT && t2 is List && kws2 is ListT));
                lemma_exprt_variant(reqt2);
                lemma_exprt_variant(kws2);
                lemma_type_variant(t2);
                assert(!(reqtv is RequirementT && spec_type_of(kwsv) is List && kwsv
                    is ListT));
            }
            let inner_expected = Type::Keyword;
            assert(inner_expected@ == TypeView::Keyword);
            let expected = Type::List(Box::new(inner_expected));
            assert(expected@ == TypeView::List(Box::new(TypeView::Keyword)));
            Err(SchemaTypeCheckError::TypeMismatch { expected, got: t2 })
        },
    }
}

/// The `schema` rule on already-checked parts.
fn schema_rule(delim: String, cats: ExprT) -> (r: Result<ExprT, SchemaTypeCheckError>)
    requires
        exists|x: ExprUView| #[trigger] spec_typecheck_(x) == Ok::<
            _,
            SchemaTypeCheckErrorView,
        >(cats@),
    ensures
        match r {
            Ok(t) => spec_schema_rule(delim@, cats@) == Ok::<_, SchemaTypeCheckErrorView>(t@),
            Err(er) => spec_schema_rule(delim@, cats@) == Err::<ExprTView, _>(er@),
        },
{
    let ghost delimv = delim@;
    let ghost catsv_whole = cats@;
    let t = type_of(&cats);
    assert(t@ == spec_type_of(catsv_whole));
    match (t, cats) {
        (Type::List(telem), ExprT::ListT(xs)) => {
            proof {
                lemma_view_exprts(xs@);
                assert(catsv_whole == ExprTView::ListT(view_exprts(xs@)));
            }
            let ghost xsv = view_exprts(xs@);
            if matches!(*telem, Type::Category) {
                proof {
                    assert((*telem)@ == TypeView::Category);
                    assert(t@ == spec_type_of(catsv_whole));
                    assert(spec_type_of(catsv_whole) == TypeView::List(
                        Box::new(TypeView::Category),
                    ));
                    assert(xsv.len() > 0 && spec_type_of(xsv[0]) == TypeView::Category) by {
                        if xsv.len() == 0 {
                            assert(spec_type_of(catsv_whole) == TypeView::List(
                                Box::new(TypeView::Hole),
                            ));
                        }
                    }
                    let x = choose|x: ExprUView|
                        #[trigger] spec_typecheck_(x) == Ok::<_, SchemaTypeCheckErrorView>(
                            ExprTView::ListT(xsv),
                        );
                    lemma_list_ok_form(x, xsv);
                    lemma_homogeneous_all(types_of(xsv));
                    assert forall|k: int| 0 <= k < xsv.len() implies xsv[k] is CategoryT by {
                        assert(types_of(xsv)[k] == types_of(xsv)[0]);
                        assert(types_of(xsv)[0] == spec_type_of(xsv[0]));
                        assert(spec_type_of(xsv[k]) == TypeView::Category);
                        lemma_category_typed(xsv[k]);
                    }
                }
                let mut categories: Vec<config::Category> = Vec::new();
                let mut k: usize = 0;
                while k < xs.len()
                    invariant
                        xsv == view_exprts(xs@),
                        xsv.len() == xs@.len(),
                        forall|x: int| 0 <= x < xs@.len() ==> (#[trigger] xs@[x])@ == xsv[x],
                        forall|x: int| 0 <= x < xs@.len() ==> xsv[x] is CategoryT,
                        0 <= k <= xs@.len(),
                        categories@.len() == k,
                        forall|x: int|
                            0 <= x < k ==> (#[trigger] categories@[x])@ == spec_cat_payloads(
                                xsv,
                            )[x],
                    decreases xs@.len() - k,
                {
                    match &xs[k] {
                        ExprT::CategoryT(c) => {
                            let copy = clone_category(c);
                            proof {
                                assert(xsv[k as int] == ExprTView::CategoryT(c@));
                                assert(spec_cat_payloads(xsv)[k as int] == c@);
                            }
                            categories.push(copy);
                        },
                        _ => {
                            proof {
                                assert(xsv[k as int] is CategoryT);
                            }
                            assert(false);
                            unreached()
                        },
                    }
                    k = k + 1;
                }
                let schema = config::Schema { delim, categories };
                proof {
                    assert(schema@.delim == delimv);
                    assert(schema@.categories =~= spec_cat_payloads(xsv));
                    assert(schema@ =~= config::SchemaView {
                        delim: delimv,
                        categories: spec_cat_payloads(xsv),
                    });
                    assert(catsv_whole == ExprTView::ListT(xsv));
                    assert(spec_schema_rule(delimv, catsv_whole) == Ok::<
                        _,
                        SchemaTypeCheckErrorView,
                    >(ExprTView::SchemaT(schema@)));
                }
                Ok(ExprT::SchemaT(schema))
            } else {
                proof {
                    lemma_type_variant(*telem);
                }
                let got = Type::List(telem);
                proof {
                    assert(got@ == spec_type_of(catsv_whole));
                    assert(spec_type_of(catsv_whole) matches TypeView::List(b) && !(*b
                        is Category));
                }
                let inner_expected = Type::Category;
                assert(inner_expected@ == TypeView::Category);
                let expected = Type::List(Box::new(inner_expected));
                assert(expected@ == TypeView::List(Box::new(TypeView::Category)));
                Err(SchemaTypeCheckError::TypeMismatch { expected, got })
            }
        },
        (t2, cats2) => {
            proof {
                assert(!(t2 is List && cats2 is ListT));
                lemma_exprt_variant(cats2);
                lemma_type_variant(t2);
                assert(!(spec_type_of(catsv_whole) is List && catsv_whole is ListT));
            }
            let inner_expected = Type::Category;
            assert(inner_expected@ == TypeView::Category);
            let expected = Type::List(Box::new(inner_expected));
            assert(expected@ == TypeView::List(Box::new(TypeView::Category)));
            Err(SchemaTypeCheckError::TypeMismatch { expected, got: t2 })
        },
    }
}

/// A copy of a configured category; the view is unchanged.
fn clone_category(c: &config::Category) -> (r: config::Category)
    ensures
        r@ == c@,
{
    let mut values: Vec<String> = Vec::new();
    let mut i: usize = 0;
    while i < c.values.len()
        invariant
            0 <= i <= c.values@.len(),
            values@.len() == i,
            forall|j: int| 0 <= j < i ==> values@[j] == c.values@[j],
        decreases c.values@.len() - i,
    {
        values.push(c.values[i].clone());
        i = i + 1;
    }
    assert(values@ =~= c.values@);
    let r = config::Category { name: c.name.clone(), rtype: c.rtype, rvalue: c.rvalue, values };
    proof {
        assert(r@ =~= c@);
    }
    r
}

/// The requirement kind and bound, separately.
fn req_parts(r: Requirement) -> (p: (config::Requirement, usize))
    ensures
        p == spec_req_parts(r),
{
    match r {
        Requirement::Exactly(n) => (config::Requirement::Exactly, n),
        Requirement::AtLeast(n) => (config::Requirement::AtLeast, n),
        Requirement::AtMost(n) => (config::Requirement::AtMost, n),
    }
}

/// Fold an untyped tree into a configured schema, or report the first type
/// error found. Succeeds if and only if the tree checks and its root reduces
/// to a schema.
pub fn typecheck(e: ExprU) -> (r: Result<config::Schema, SchemaTypeCheckError>)
    ensures
        match r {
            Ok(s) => spec_typecheck(e@) == Ok::<_, SchemaTypeCheckErrorView>(s@),
            Err(er) => spec_typecheck(e@) == Err::<config::SchemaView, _>(er@),
        },
{
    match typecheck_(&e) {
        Err(er) => Err(er),
        Ok(t) => match t {
            ExprT::SchemaT(x) => Ok(x),
            _ => Err(SchemaTypeCheckError::ExpectedTopLevelSchema),
        },
    }
}

} // verus!
