//! The declarative input form of a schema: plain data as it arrives from a
//! configuration file, before validation.

use vstd::prelude::*;

verus! {

/// Kind of a cardinality requirement; the bound itself sits beside it in
/// [`Category::rvalue`].
#[derive(Clone, Copy, Debug, Eq, Hash, PartialEq)]
pub enum Requirement {
    Exactly,
    AtLeast,
    AtMost,
}

/// One category as configured: display name, requirement kind and bound,
/// and the tags offered for selection.
#[derive(Clone, Debug, Eq, Hash, PartialEq)]
pub struct Category {
    pub name: String,
    pub rtype: Requirement,
    pub rvalue: usize,
    pub values: Vec<String>,
}

/// A whole schema as configured: the filename delimiter and the categories
/// in declaration order.
#[derive(Clone, Debug, Eq, Hash, PartialEq)]
pub struct Schema {
    pub delim: String,
    pub categories: Vec<Category>,
}

/// Mathematical image of a [`Category`].
#[verifier::ext_equal]
pub ghost struct CategoryView {
    pub name: Seq<char>,
    pub rtype: Requirement,
    pub rvalue: usize,
    pub values: Seq<Seq<char>>,
}

/// Mathematical image of a [`Schema`].
#[verifier::ext_equal]
pub ghost struct SchemaView {
    pub delim: Seq<char>,
    pub categories: Seq<CategoryView>,
}

impl View for Category {
    type V = CategoryView;

    open spec fn view(&self) -> CategoryView {
        CategoryView {
            name: self.name@,
            rtype: self.rtype,
            rvalue: self.rvalue,
            values: self.values.deep_view(),
        }
    }
}

impl View for Schema {
    type V = SchemaView;

    open spec fn view(&self) -> SchemaView {
        SchemaView {
            delim: self.delim@,
            categories: Seq::new(self.categories@.len(), |i: int| self.categories@[i]@),
        }
    }
}

} // verus!
