//! The per-session tag selection: for each category of the schema, the tags
//! in declaration order, each with a selected flag, plus a random salt. The
//! selection is owned and mutated by the caller; the codec only reads it.

use vstd::prelude::*;

use crate::salt::{gen_salt, is_salt};
use crate::schema::{CategoryView, Schema};

verus! {

/// One category of a selection: the category's name and its tags, each with
/// a selected flag, in the category's declared order.
#[derive(Clone, Debug, Eq, PartialEq)]
pub struct UiCategory {
    pub name: String,
    pub values: Vec<(String, bool)>,
}

/// A whole selection: a salt and one [`UiCategory`] per schema category, in
/// schema order.
#[derive(Clone, Debug, Eq, PartialEq)]
pub struct State {
    pub salt: String,
    pub categories: Vec<UiCategory>,
}

/// Mathematical image of a [`UiCategory`].
#[verifier::ext_equal]
pub ghost struct UiCategoryView {
    pub name: Seq<char>,
    pub values: Seq<(Seq<char>, bool)>,
}

/// Mathematical image of a [`State`].
#[verifier::ext_equal]
pub ghost struct StateView {
    pub salt: Seq<char>,
    pub categories: Seq<UiCategoryView>,
}

impl View for UiCategory {
    type V = UiCategoryView;

    open spec fn view(&self) -> UiCategoryView {
        UiCategoryView { name: self.name@, values: self.values.deep_view() }
    }
}

impl DeepView for UiCategory {
    type V = UiCategoryView;

    open spec fn deep_view(&self) -> UiCategoryView {
        self.view()
    }
}

impl View for State {
    type V = StateView;

    open spec fn view(&self) -> StateView {
        StateView { salt: self.salt@, categories: self.categories.deep_view() }
    }
}

/// The selection has exactly the shape of the schema: same categories in the
/// same order, each offering the schema's tags in declared order.
pub open spec fn state_mirrors(st: Seq<UiCategoryView>, cats: Seq<CategoryView>) -> bool {
    &&& st.len() == cats.len()
    &&& forall|i: int| 0 <= i < st.len() ==> (#[trigger] st[i]).name == cats[i].name
    &&& forall|i: int| 0 <= i < st.len() ==> (#[trigger] st[i]).values.len()
        == cats[i].values.len()
    &&& forall|i: int, j: int|
        0 <= i < st.len() && 0 <= j < st[i].values.len() ==> (#[trigger] st[i].values[j]).0
            == cats[i].values[j]
}

/// A fresh selection for `schema`: every tag present and unselected, and a
/// newly drawn salt.
pub fn to_empty_state(schema: &Schema, rng: &mut rand_chacha::ChaCha8Rng) -> (r: State)
    ensures
        state_mirrors(r@.categories, schema@.categories),
        forall|i: int, j: int|
            0 <= i < r@.categories.len() && 0 <= j < r@.categories[i].values.len() ==> (
            #[trigger] r@.categories[i].values[j]).1 == false,
        is_salt(r@.salt),
{
    let salt = gen_salt(rng);
    let cats = schema.categories();
    let mut categories: Vec<UiCategory> = Vec::new();
    let mut i: usize = 0;
    while i < cats.len()
        invariant
            cats@.len() == schema@.categories.len(),
            forall|x: int| 0 <= x < cats@.len() ==> (#[trigger] cats@[x])@ == schema@.categories[x],
            0 <= i <= cats@.len(),
            categories.deep_view().len() == i,
            forall|x: int|
                0 <= x < i ==> (#[trigger] categories.deep_view()[x]).name
                    == schema@.categories[x].name,
            forall|x: int|
                0 <= x < i ==> (#[trigger] categories.deep_view()[x]).values.len()
                    == schema@.categories[x].values.len(),
            forall|x: int, j: int|
                0 <= x < i && 0 <= j < categories.deep_view()[x].values.len() ==> (
                #[trigger] categories.deep_view()[x].values[j]) == (
                schema@.categories[x].values[j],
                false,
            ),
        decreases cats@.len() - i,
    {
        let cat = &cats[i];
        let ghost catv = schema@.categories[i as int];
        let vals = cat.values();
        let mut pairs: Vec<(String, bool)> = Vec::new();
        let mut j: usize = 0;
        while j < vals.len()
            invariant
                vals.deep_view() == catv.values,
                vals@.len() == catv.values.len(),
                0 <= j <= vals@.len(),
                pairs.deep_view().len() == j,
                forall|x: int|
                    0 <= x < j ==> #[trigger] pairs.deep_view()[x] == (catv.values[x], false),
            decreases vals@.len() - j,
        {
            let ghost oldp = pairs.deep_view();
            let tag = vals[j].clone();
            assert(tag@ == catv.values[j as int]);
            pairs.push((tag, false));
            proof {
                assert(pairs.deep_view() =~= oldp.push((catv.values[j as int], false)));
            }
            j = j + 1;
        }
        let ui = UiCategory { name: cat.name().to_owned(), values: pairs };
        assert(ui@.name == catv.name);
        let ghost uiv = ui@;
        let ghost oldc = categories.deep_view();
        categories.push(ui);
        proof {
            assert(categories.deep_view() =~= oldc.push(uiv));
        }
        i = i + 1;
    }
    State { salt, categories }
}

} // verus!
