//! The untyped expression tree produced by the schema-language parser and
//! consumed by the type checker: function applications, lists, strings,
//! small naturals, and display/identifier keyword pairs.

use vstd::prelude::*;

verus! {

/// One node of the untyped tree.
#[derive(Debug, Eq, PartialEq)]
pub enum ExprU {
    FnU { name: String, args: Vec<ExprU> },
    ListU(Vec<ExprU>),
    StringU(String),
    NatU(u8),
    KeywordU { name: String, id: String },
}

/// Mathematical image of an [`ExprU`].
#[verifier::ext_equal]
pub ghost enum ExprUView {
    Fn { name: Seq<char>, args: Seq<ExprUView> },
    List(Seq<ExprUView>),
    Str(Seq<char>),
    Nat(u8),
    Keyword { name: Seq<char>, id: Seq<char> },
}

impl View for ExprU {
    type V = ExprUView;

    open spec fn view(&self) -> ExprUView
        decreases self, 1int,
    {
        match self {
            ExprU::FnU { name, args } => ExprUView::Fn {
                name: name@,
                args: view_exprs(args@),
            },
            ExprU::ListU(items) => ExprUView::List(view_exprs(items@)),
            ExprU::StringU(s) => ExprUView::Str(s@),
            ExprU::NatU(n) => ExprUView::Nat(*n),
            ExprU::KeywordU { name, id } => ExprUView::Keyword { name: name@, id: id@ },
        }
    }
}

/// The views of a sequence of nodes, in order.
pub open spec fn view_exprs(s: Seq<ExprU>) -> Seq<ExprUView>
    decreases s, 0int,
{
    if s.len() == 0 {
        Seq::empty()
    } else {
        seq![s[0].view()] + view_exprs(s.drop_first())
    }
}

/// `view_exprs` is the element-wise view.
pub proof fn lemma_view_exprs(s: Seq<ExprU>)
    ensures
        view_exprs(s).len() == s.len(),
        forall|i: int| 0 <= i < s.len() ==> view_exprs(s)[i] == (#[trigger] s[i]).view(),
    decreases s.len(),
{
    if s.len() > 0 {
        lemma_view_exprs(s.drop_first());
        assert forall|i: int| 0 <= i < s.len() implies view_exprs(s)[i] == (
        #[trigger] s[i]).view() by {
            if i == 0 {
                assert(view_exprs(s)[0] == s[0].view());
            } else {
                assert(seq![s[0].view()].len() == 1);
                assert(view_exprs(s) == seq![s[0].view()] + view_exprs(s.drop_first()));
                assert(view_exprs(s)[i] == view_exprs(s.drop_first())[i - 1]);
                assert(s.drop_first()[i - 1] == s[i]);
                assert(view_exprs(s.drop_first())[i - 1] == s.drop_first()[i - 1].view());
            }
        }
    }
}

impl DeepView for ExprU {
    type V = ExprUView;

    open spec fn deep_view(&self) -> ExprUView {
        self.view()
    }
}


/// `view_exprs` of a vector's contents is the vector's deep view.
pub proof fn lemma_deep_is_view_exprs(v: Vec<ExprU>)
    ensures
        view_exprs(v@) == v.deep_view(),
{
    lemma_view_exprs(v@);
    assert(view_exprs(v@) =~= v.deep_view());
}

} // verus!
