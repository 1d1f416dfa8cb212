//! The validated schema: delimiter, categories, tags and their cardinality
//! requirements. [`Schema::from_config`] is the only way to build a
//! [`Schema`], so every `Schema` satisfies the well-formedness invariant
//! [`wf_schema`] that the filename codec depends on: a non-empty delimiter of
//! allowed characters, non-empty tags unique across the whole schema, no tag
//! containing the delimiter, and no control characters anywhere.

use vstd::prelude::*;

use crate::config;
use crate::error::{Error, ErrorView};
use crate::parse::{SchemaParseError, SchemaParseErrorView};
use crate::typecheck::{SchemaTypeCheckError, SchemaTypeCheckErrorView};
use crate::state::{State, StateView, UiCategory, UiCategoryView};
use crate::text::{contains_substr, has_occurrence, spec_split, split_str, str_eq, vec_contains_str};

verus! {

/// Cardinality requirement on the number of tags selected within a category.
#[derive(Clone, Copy, Debug, Eq, Hash, PartialEq)]
pub enum Requirement {
    Exactly(usize),
    AtLeast(usize),
    AtMost(usize),
}

/// Whether a selected-tag count satisfies a requirement.
pub open spec fn req_satisfied(req: Requirement, count: nat) -> bool {
    match req {
        Requirement::Exactly(n) => count == n as nat,
        Requirement::AtLeast(n) => count >= n as nat,
        Requirement::AtMost(n) => count <= n as nat,
    }
}

impl Requirement {
    /// Whether `count` tags selected in a category satisfy this requirement.
    pub fn satisfied_by(&self, count: usize) -> (r: bool)
        ensures
            r == req_satisfied(*self, count as nat),
    {
        match self {
            Requirement::Exactly(n) => count == *n,
            Requirement::AtLeast(n) => count >= *n,
            Requirement::AtMost(n) => count <= *n,
        }
    }

    /// The requirement described by a configured kind and bound.
    pub fn from_parts(rtype: config::Requirement, rvalue: usize) -> (r: Requirement)
        ensures
            r == req_from_parts(rtype, rvalue),
    {
        match rtype {
            config::Requirement::Exactly => Requirement::Exactly(rvalue),
            config::Requirement::AtLeast => Requirement::AtLeast(rvalue),
            config::Requirement::AtMost => Requirement::AtMost(rvalue),
        }
    }
}

pub open spec fn req_from_parts(rtype: config::Requirement, rvalue: usize) -> Requirement {
    match rtype {
        config::Requirement::Exactly => Requirement::Exactly(rvalue),
        config::Requirement::AtLeast => Requirement::AtLeast(rvalue),
        config::Requirement::AtMost => Requirement::AtMost(rvalue),
    }
}

/// A character is allowed in delimiters and tags when it is not a control
/// character: control characters cannot reliably round-trip through a file
/// system name.
pub open spec fn spec_char_allowed(c: char) -> bool {
    c as u32 >= 32
}

/// One validated category: display name, requirement, and its tags in
/// declaration order.
#[derive(Clone, Debug, Eq, Hash, PartialEq)]
pub struct Category {
    name: String,
    req: Requirement,
    values: Vec<String>,
}

/// A validated schema. Order of categories is significant: it fixes the
/// order of tags in generated filenames.
#[derive(Clone, Debug, Eq, Hash, PartialEq)]
pub struct Schema {
    delim: String,
    categories: Vec<Category>,
}

/// Mathematical image of a [`Category`].
#[verifier::ext_equal]
pub ghost struct CategoryView {
    pub name: Seq<char>,
    pub req: Requirement,
    pub values: Seq<Seq<char>>,
}

/// Mathematical image of a [`Schema`].
#[verifier::ext_equal]
pub ghost struct SchemaView {
    pub delim: Seq<char>,
    pub categories: Seq<CategoryView>,
}

impl View for Category {
    type V = CategoryView;

    closed spec fn view(&self) -> CategoryView {
        CategoryView { name: self.name@, req: self.req, values: self.values.deep_view() }
    }
}

impl View for Schema {
    type V = SchemaView;

    closed spec fn view(&self) -> SchemaView {
        SchemaView {
            delim: self.delim@,
            categories: Seq::new(self.categories@.len(), |i: int| self.categories@[i]@),
        }
    }
}

/// The delimiter is non-empty and all of its characters are allowed.
pub open spec fn wf_delim(d: Seq<char>) -> bool {
    &&& d.len() >= 1
    &&& forall|i: int| 0 <= i < d.len() ==> spec_char_allowed(#[trigger] d[i])
}

/// A category offers at least one tag; every tag is non-empty, free of the
/// delimiter, and made of allowed characters.
pub open spec fn wf_category(c: CategoryView, delim: Seq<char>) -> bool {
    &&& c.values.len() >= 1
    &&& forall|j: int| 0 <= j < c.values.len() ==> (#[trigger] c.values[j]).len() >= 1
    &&& forall|j: int| 0 <= j < c.values.len() ==> !has_occurrence(#[trigger] c.values[j], delim)
    &&& forall|j: int, k: int|
        0 <= j < c.values.len() && 0 <= k < c.values[j].len() ==> spec_char_allowed(
            #[trigger] c.values[j][k],
        )
}

/// No tag appears twice, neither within a category nor across categories.
pub open spec fn tags_unique(cats: Seq<CategoryView>) -> bool {
    forall|i1: int, j1: int, i2: int, j2: int|
        #![trigger cats[i1].values[j1], cats[i2].values[j2]]
        0 <= i1 < cats.len() && 0 <= j1 < cats[i1].values.len() && 0 <= i2 < cats.len() && 0 <= j2
            < cats[i2].values.len() && !(i1 == i2 && j1 == j2) ==> cats[i1].values[j1]
            != cats[i2].values[j2]
}

/// The invariant that validation establishes and the filename codec relies
/// on.
pub open spec fn wf_schema(s: SchemaView) -> bool {
    &&& wf_delim(s.delim)
    &&& forall|i: int|
        0 <= i < s.categories.len() ==> wf_category(#[trigger] s.categories[i], s.delim)
    &&& tags_unique(s.categories)
}

/// The first disallowed character of `s` at or after index `i`, if any.
pub open spec fn first_bad_char(s: Seq<char>, i: int) -> Option<char>
    decreases s.len() - i + 1,
{
    if i < 0 || i >= s.len() {
        None
    } else if !spec_char_allowed(s[i]) {
        Some(s[i])
    } else {
        first_bad_char(s, i + 1)
    }
}

/// The first violation among the tags of one category from index `j` on,
/// given the set of tags `seen` in earlier categories and earlier in this
/// one. Per tag, uniqueness is checked first, then freedom from the
/// delimiter, then the characters.
pub open spec fn check_tags(
    cat_name: Seq<char>,
    values: Seq<Seq<char>>,
    j: int,
    seen: Seq<Seq<char>>,
    delim: Seq<char>,
) -> Option<ErrorView>
    decreases values.len() - j + 1,
{
    if j < 0 || j >= values.len() {
        None
    } else {
        let v = values[j];
        if seen.contains(v) {
            Some(ErrorView::TagsMustBeUnique { category_name: cat_name, duplicated_tag: v })
        } else if has_occurrence(v, delim) {
            Some(ErrorView::DelimiterFoundInTag { category_name: cat_name, tag: v })
        } else if first_bad_char(v, 0) is Some {
            Some(ErrorView::InvalidCharacterInTag(first_bad_char(v, 0)->Some_0))
        } else {
            check_tags(cat_name, values, j + 1, seen.push(v), delim)
        }
    }
}

/// The first violation within one configured category: an empty tag list,
/// then an empty-string tag anywhere in it, then the per-tag checks.
pub open spec fn check_category(
    c: config::CategoryView,
    seen: Seq<Seq<char>>,
    delim: Seq<char>,
) -> Option<ErrorView> {
    if c.values.len() == 0 {
        Some(ErrorView::CategoryWithNoTags { category_name: c.name })
    } else if c.values.contains(Seq::<char>::empty()) {
        Some(ErrorView::EmptyStringNotValidTag)
    } else {
        check_tags(c.name, c.values, 0, seen, delim)
    }
}

/// The first violation among the categories from index `i` on, `seen`
/// holding all tags of earlier categories.
pub open spec fn check_categories(
    cats: Seq<config::CategoryView>,
    i: int,
    seen: Seq<Seq<char>>,
    delim: Seq<char>,
) -> Option<ErrorView>
    decreases cats.len() - i + 1,
{
    if i < 0 || i >= cats.len() {
        None
    } else {
        match check_category(cats[i], seen, delim) {
            Some(e) => Some(e),
            None => check_categories(cats, i + 1, seen + cats[i].values, delim),
        }
    }
}

/// The first violation in a configured schema, in check order: delimiter
/// emptiness, delimiter characters, then the categories in declaration
/// order. `None` means the configuration is valid.
pub open spec fn spec_validate(c: config::SchemaView) -> Option<ErrorView> {
    if c.delim.len() == 0 {
        Some(ErrorView::EmptyDelimiter)
    } else if first_bad_char(c.delim, 0) is Some {
        Some(ErrorView::InvalidCharacterInDelim(first_bad_char(c.delim, 0)->Some_0))
    } else {
        check_categories(c.categories, 0, Seq::empty(), c.delim)
    }
}

/// The validated image of a configured category: same name and tags, the
/// requirement folded into one value.
pub open spec fn conv_category(c: config::CategoryView) -> CategoryView {
    CategoryView { name: c.name, req: req_from_parts(c.rtype, c.rvalue), values: c.values }
}

/// The validated image of a configured schema.
pub open spec fn conv_schema(c: config::SchemaView) -> SchemaView {
    SchemaView {
        delim: c.delim,
        categories: Seq::new(c.categories.len(), |i: int| conv_category(c.categories[i])),
    }
}

proof fn lemma_first_bad_none(s: Seq<char>, i: int)
    requires
        0 <= i,
        first_bad_char(s, i) is None,
    ensures
        forall|k: int| i <= k < s.len() ==> spec_char_allowed(#[trigger] s[k]),
    decreases s.len() - i + 1,
{
    if 0 <= i < s.len() {
        lemma_first_bad_none(s, i + 1);
    }
}

proof fn lemma_check_tags_ok(
    cat_name: Seq<char>,
    values: Seq<Seq<char>>,
    j: int,
    seen: Seq<Seq<char>>,
    delim: Seq<char>,
)
    requires
        0 <= j <= values.len(),
        check_tags(cat_name, values, j, seen, delim) is None,
    ensures
        forall|k: int| j <= k < values.len() ==> !seen.contains(#[trigger] values[k]),
        forall|k1: int, k2: int|
            #![trigger values[k1], values[k2]]
            j <= k1 < k2 < values.len() ==> values[k1] != values[k2],
        forall|k: int| j <= k < values.len() ==> !has_occurrence(#[trigger] values[k], delim),
        forall|k: int, m: int|
            j <= k < values.len() && 0 <= m < values[k].len() ==> spec_char_allowed(
                #[trigger] values[k][m],
            ),
    decreases values.len() - j,
{
    if j < values.len() {
        let v = values[j];
        lemma_first_bad_none(v, 0);
        lemma_check_tags_ok(cat_name, values, j + 1, seen.push(v), delim);
        assert forall|k: int| j <= k < values.len() implies !seen.contains(
            #[trigger] values[k],
        ) by {
            if k > j {
                assert(!seen.push(v).contains(values[k]));
                if seen.contains(values[k]) {
                    let idx = choose|idx: int|
                        0 <= idx < seen.len() && seen[idx] == values[k];
                    assert(seen.push(v)[idx] == values[k]);
                }
            }
        }
        assert forall|k1: int, k2: int|
            #![trigger values[k1], values[k2]]
            j <= k1 < k2 < values.len() implies values[k1] != values[k2] by {
            if k1 == j {
                assert(!seen.push(v).contains(values[k2]));
                assert(seen.push(v)[seen.len() as int] == v);
                if values[k2] == v {
                    assert(seen.push(v).contains(values[k2]));
                }
            }
        }
    }
}

proof fn lemma_check_cats_ok(
    cats: Seq<config::CategoryView>,
    i: int,
    seen: Seq<Seq<char>>,
    delim: Seq<char>,
)
    requires
        0 <= i <= cats.len(),
        check_categories(cats, i, seen, delim) is None,
    ensures
        forall|i2: int|
            i <= i2 < cats.len() ==> wf_category(conv_category(#[trigger] cats[i2]), delim),
        forall|i2: int, j2: int|
            #![trigger cats[i2].values[j2]]
            i <= i2 < cats.len() && 0 <= j2 < cats[i2].values.len() ==> !seen.contains(
                cats[i2].values[j2],
            ),
        forall|i1: int, j1: int, i2: int, j2: int|
            #![trigger cats[i1].values[j1], cats[i2].values[j2]]
            i <= i1 < cats.len() && 0 <= j1 < cats[i1].values.len() && i <= i2 < cats.len() && 0
                <= j2 < cats[i2].values.len() && !(i1 == i2 && j1 == j2) ==> cats[i1].values[j1]
                != cats[i2].values[j2],
    decreases cats.len() - i,
{
    if i < cats.len() {
        let c = cats[i];
        let seen2 = seen + c.values;
        lemma_check_tags_ok(c.name, c.values, 0, seen, delim);
        lemma_check_cats_ok(cats, i + 1, seen2, delim);

        // Tags of category i are non-empty: an empty one would be an
        // empty-string tag, which check_category rejects.
        assert forall|j: int| 0 <= j < c.values.len() implies (#[trigger] c.values[j]).len()
            >= 1 by {
            if c.values[j].len() == 0 {
                assert(c.values[j] =~= Seq::<char>::empty());
                assert(c.values.contains(Seq::<char>::empty()));
            }
        }
        assert(wf_category(conv_category(c), delim));

        // Tags of later categories avoid `seen` and the tags of category i.
        assert forall|i2: int, j2: int|
            #![trigger cats[i2].values[j2]]
            i <= i2 < cats.len() && 0 <= j2 < cats[i2].values.len() implies !seen.contains(
            cats[i2].values[j2],
        ) by {
            if i2 > i {
                assert(!seen2.contains(cats[i2].values[j2]));
                if seen.contains(cats[i2].values[j2]) {
                    let idx = choose|idx: int|
                        0 <= idx < seen.len() && seen[idx] == cats[i2].values[j2];
                    assert(seen2[idx] == cats[i2].values[j2]);
                }
            }
        }
        assert forall|i1: int, j1: int, i2: int, j2: int|
            #![trigger cats[i1].values[j1], cats[i2].values[j2]]
            i <= i1 < cats.len() && 0 <= j1 < cats[i1].values.len() && i <= i2 < cats.len() && 0
                <= j2 < cats[i2].values.len() && !(i1 == i2 && j1 == j2) implies cats[i1].values[j1]
            != cats[i2].values[j2] by {
            if i1 == i && i2 > i {
                assert(!seen2.contains(cats[i2].values[j2]));
                if cats[i1].values[j1] == cats[i2].values[j2] {
                    assert(seen2[seen.len() + j1] == cats[i1].values[j1]);
                }
            } else if i2 == i && i1 > i {
                assert(!seen2.contains(cats[i1].values[j1]));
                if cats[i1].values[j1] == cats[i2].values[j2] {
                    assert(seen2[seen.len() + j2] == cats[i2].values[j2]);
                }
            }
        }
    }
}

/// A configuration that validation accepts converts to a well-formed schema.
pub proof fn lemma_validate_ok_wf(c: config::SchemaView)
    requires
        spec_validate(c) is None,
    ensures
        wf_schema(conv_schema(c)),
{
    lemma_first_bad_none(c.delim, 0);
    lemma_check_cats_ok(c.categories, 0, Seq::empty(), c.delim);
    let s = conv_schema(c);
    assert forall|i: int| 0 <= i < s.categories.len() implies wf_category(
        #[trigger] s.categories[i],
        s.delim,
    ) by {
        assert(s.categories[i] == conv_category(c.categories[i]));
    }
    assert(tags_unique(s.categories)) by {
        assert forall|i1: int, j1: int, i2: int, j2: int|
            #![trigger s.categories[i1].values[j1], s.categories[i2].values[j2]]
            0 <= i1 < s.categories.len() && 0 <= j1 < s.categories[i1].values.len() && 0 <= i2
                < s.categories.len() && 0 <= j2 < s.categories[i2].values.len() && !(i1 == i2 && j1
                == j2) implies s.categories[i1].values[j1] != s.categories[i2].values[j2] by {
            assert(s.categories[i1].values == c.categories[i1].values);
            assert(s.categories[i2].values == c.categories[i2].values);
            assert(c.categories[i1].values[j1] != c.categories[i2].values[j2]);
        }
    }
}

/// Clone every element; the view is unchanged.
fn clone_string_vec(v: &Vec<String>) -> (r: Vec<String>)
    ensures
        r@ =~= v@,
        r.deep_view() =~= v.deep_view(),
{
    let mut r: Vec<String> = Vec::new();
    let mut i: usize = 0;
    while i < v.len()
        invariant
            0 <= i <= v.len(),
            r@.len() == i,
            forall|j: int| 0 <= j < i ==> r@[j] == v@[j],
        decreases v.len() - i,
    {
        r.push(v[i].clone());
        i = i + 1;
    }
    assert(r@ =~= v@);
    r
}

impl Schema {
    /// Whether this schema satisfies the validation invariant.
    pub open spec fn wf(&self) -> bool {
        wf_schema(self@)
    }

    /// Whether `c` may appear in a delimiter or tag.
    pub fn char_allowed(c: char) -> (r: bool)
        ensures
            r == spec_char_allowed(c),
    {
        (c as u32) >= 32 && !(c == '\0')
    }

    /// Validate a configured schema and build the schema the codec works
    /// with. This is the only constructor, so every `Schema` is well-formed.
    /// Returns the first violation found, in check order, if there is one.
    #[verifier::loop_isolation(false)]
    pub fn from_config(config: config::Schema) -> (r: Result<Schema, Error>)
        ensures
            match r {
                Ok(schema) => spec_validate(config@) is None && schema@ == conv_schema(config@)
                    && schema.wf(),
                Err(e) => spec_validate(config@) == Some(e@),
            },
    {
        let ghost cv = config@;
        // Delimiter checks.
        let delim_str = config.delim.as_str();
        let dlen = delim_str.unicode_len();
        if dlen == 0 {
            assert(cv.delim.len() == 0);
            return Err(Error::EmptyDelimiter);
        }
        let mut i: usize = 0;
        while i < dlen
            invariant
                dlen == config.delim@.len(),
                0 <= i <= dlen,
                first_bad_char(config.delim@, 0) == first_bad_char(config.delim@, i as int),
            decreases dlen - i,
        {
            let c = delim_str.get_char(i);
            if !Schema::char_allowed(c) {
                assert(first_bad_char(config.delim@, i as int) == Some(c));
                return Err(Error::InvalidCharacterInDelim(c));
            }
            i = i + 1;
        }
        assert(first_bad_char(cv.delim, 0) is None);

        // Category checks, threading the set of tags seen so far.
        let ghost cats = cv.categories;
        let mut seen: Vec<String> = Vec::new();
        let mut ci: usize = 0;
        proof {
            assert(seen.deep_view() =~= Seq::<Seq<char>>::empty());
            assert(cats.len() == config.categories@.len());
        }
        while ci < config.categories.len()
            invariant
                cats == config@.categories,
                cats.len() == config.categories@.len(),
                forall|x: int| 0 <= x < cats.len() ==> cats[x] == #[trigger] config.categories@[x]@,
                0 <= ci <= cats.len(),
                cv == config@,
                cv.delim.len() >= 1,
                spec_validate(cv) == check_categories(cats, ci as int, seen.deep_view(), cv.delim),
            decreases cats.len() - ci,
        {
            let cat = &config.categories[ci];
            let ghost catv = cats[ci as int];
            let nvals = cat.values.len();
            if nvals == 0 {
                assert(catv.values.len() == 0);
                assert(spec_validate(cv) == Some(
                    ErrorView::CategoryWithNoTags { category_name: catv.name },
                ));
                return Err(Error::CategoryWithNoTags { category_name: cat.name.clone() });
            }
            // Empty-string tag check for the whole category.
            let mut j: usize = 0;
            while j < nvals
                invariant
                    nvals == cat.values@.len(),
                    catv.values.len() == nvals,
                    forall|x: int| 0 <= x < nvals ==> catv.values[x] == #[trigger] cat.values@[x]@,
                    0 <= j <= nvals,
                    forall|x: int| 0 <= x < j ==> (#[trigger] catv.values[x]).len() >= 1,
                decreases nvals - j,
            {
                if cat.values[j].as_str().is_empty() {
                    assert(catv.values[j as int] =~= Seq::<char>::empty());
                    assert(catv.values.contains(Seq::<char>::empty()));
                    assert(spec_validate(cv) == Some(ErrorView::EmptyStringNotValidTag));
                    return Err(Error::EmptyStringNotValidTag);
                }
                j = j + 1;
            }
            proof {
                if catv.values.contains(Seq::<char>::empty()) {
                    let idx = choose|idx: int|
                        0 <= idx < catv.values.len() && catv.values[idx]
                            == Seq::<char>::empty();
                    assert(catv.values[idx].len() >= 1);
                }
            }

            // Per-tag checks in order: uniqueness, delimiter freedom,
            // characters.
            let ghost seen_entry = seen.deep_view();
            proof {
                assert(check_category(catv, seen_entry, cv.delim) == check_tags(
                    catv.name,
                    catv.values,
                    0,
                    seen_entry,
                    cv.delim,
                ));
            }
            let mut j: usize = 0;
            while j < nvals
                invariant
                    nvals == cat.values@.len(),
                    catv.values.len() == nvals,
                    forall|x: int| 0 <= x < nvals ==> catv.values[x] == #[trigger] cat.values@[x]@,
                    0 <= j <= nvals,
                    cv.delim.len() >= 1,
                    cv.delim == config.delim@,
                    check_tags(catv.name, catv.values, 0, seen_entry, cv.delim) == check_tags(
                        catv.name,
                        catv.values,
                        j as int,
                        seen.deep_view(),
                        cv.delim,
                    ),
                    seen.deep_view() =~= seen_entry + catv.values.subrange(0, j as int),
                decreases nvals - j,
            {
                let v = &cat.values[j];
                let ghost vv = catv.values[j as int];
                assert(vv == v@);
                if vec_contains_str(&seen, v.as_str()) {
                    assert(check_tags(catv.name, catv.values, j as int, seen.deep_view(), cv.delim)
                        == Some(
                        ErrorView::TagsMustBeUnique { category_name: catv.name, duplicated_tag: vv },
                    ));
                    return Err(Error::TagsMustBeUnique {
                        category_name: cat.name.clone(),
                        duplicated_tag: v.clone(),
                    });
                }
                if contains_substr(v.as_str(), delim_str) {
                    assert(check_tags(catv.name, catv.values, j as int, seen.deep_view(), cv.delim)
                        == Some(
                        ErrorView::DelimiterFoundInTag { category_name: catv.name, tag: vv },
                    ));
                    return Err(Error::DelimiterFoundInTag {
                        category_name: cat.name.clone(),
                        tag: v.clone(),
                    });
                }
                let vlen = v.as_str().unicode_len();
                let mut k: usize = 0;
                while k < vlen
                    invariant
                        vlen == vv.len(),
                        vv == v@,
                        0 <= k <= vlen,
                        first_bad_char(vv, 0) == first_bad_char(vv, k as int),
                    decreases vlen - k,
                {
                    let c = v.as_str().get_char(k);
                    if !Schema::char_allowed(c) {
                        assert(first_bad_char(vv, k as int) == Some(c));
                        assert(check_tags(
                            catv.name,
                            catv.values,
                            j as int,
                            seen.deep_view(),
                            cv.delim,
                        ) == Some(ErrorView::InvalidCharacterInTag(c)));
                        return Err(Error::InvalidCharacterInTag(c));
                    }
                    k = k + 1;
                }
                assert(first_bad_char(vv, 0) is None);
                let ghost seen_before = seen.deep_view();
                seen.push(v.clone());
                proof {
                    assert(seen.deep_view() =~= seen_before.push(vv));
                    assert(seen.deep_view() =~= seen_entry + catv.values.subrange(
                        0,
                        j as int + 1,
                    ));
                }
                j = j + 1;
            }
            proof {
                assert(check_tags(catv.name, catv.values, nvals as int, seen.deep_view(), cv.delim)
                    is None);
                assert(check_category(catv, seen_entry, cv.delim) is None);
                assert(seen.deep_view() =~= seen_entry + catv.values);
            }
            ci = ci + 1;
        }
        proof {
            assert(check_categories(cats, cats.len() as int, seen.deep_view(), cv.delim) is None);
            assert(spec_validate(cv) is None);
        }

        // Build the validated schema.
        let mut categories: Vec<Category> = Vec::new();
        let mut ci: usize = 0;
        while ci < config.categories.len()
            invariant
                0 <= ci <= config.categories@.len(),
                categories@.len() == ci,
                forall|x: int|
                    0 <= x < ci ==> (#[trigger] categories@[x])@ == conv_category(
                        config.categories@[x]@,
                    ),
            decreases config.categories@.len() - ci,
        {
            let cat = &config.categories[ci];
            let built = Category {
                name: cat.name.clone(),
                req: Requirement::from_parts(cat.rtype, cat.rvalue),
                values: clone_string_vec(&cat.values),
            };
            proof {
                assert(built@ =~= conv_category(config.categories@[ci as int]@));
            }
            categories.push(built);
            ci = ci + 1;
        }
        let schema = Schema { delim: config.delim, categories };
        proof {
            assert(schema@ =~= conv_schema(cv));
            lemma_validate_ok_wf(cv);
        }
        Ok(schema)
    }

    /// The delimiter joining tags in filenames.
    pub fn delim(&self) -> (r: &str)
        ensures
            r@ == self@.delim,
    {
        self.delim.as_str()
    }

    /// The categories in declaration order.
    pub fn categories(&self) -> (r: &Vec<Category>)
        ensures
            r@.len() == self@.categories.len(),
            forall|i: int| 0 <= i < r@.len() ==> (#[trigger] r@[i])@ == self@.categories[i],
    {
        &self.categories
    }
}

impl Category {
    /// The category's display name.
    pub fn name(&self) -> (r: &str)
        ensures
            r@ == self@.name,
    {
        self.name.as_str()
    }

    /// The category's cardinality requirement.
    pub fn req(&self) -> (r: Requirement)
        ensures
            r == self@.req,
    {
        self.req
    }

    /// The category's tags in declaration order.
    pub fn values(&self) -> (r: &Vec<String>)
        ensures
            r.deep_view() == self@.values,
    {
        &self.values
    }
}


/// Parsing a filename back into a selection failed: after the categories
/// greedily consumed their tags, this token was left over. The filename was
/// not produced by this schema or has been altered.
#[derive(Clone, Debug, Eq, PartialEq)]
pub enum FilenameParseError {
    UnexpectedTag(String),
}

/// Mathematical image of a [`FilenameParseError`].
#[verifier::ext_equal]
pub ghost enum FilenameParseErrorView {
    UnexpectedTag(Seq<char>),
}

impl View for FilenameParseError {
    type V = FilenameParseErrorView;

    open spec fn view(&self) -> FilenameParseErrorView {
        match self {
            FilenameParseError::UnexpectedTag(t) => FilenameParseErrorView::UnexpectedTag(t@),
        }
    }
}

/// How many consecutive tokens from index `p` on are members of `values`:
/// the length of the run one category greedily consumes.
pub open spec fn drain_count(tokens: Seq<Seq<char>>, p: int, values: Seq<Seq<char>>) -> int
    decreases tokens.len() - p,
{
    if p < 0 || p >= tokens.len() || !values.contains(tokens[p]) {
        0
    } else {
        1 + drain_count(tokens, p + 1, values)
    }
}

/// Walk the categories in order from token position `p`: each consumes its
/// greedy run and reports its tags as selected exactly when they appear in
/// that run. Returns the rebuilt selection categories and the position after
/// the last run.
pub open spec fn parse_cats(cats: Seq<CategoryView>, tokens: Seq<Seq<char>>, p: int) -> (
    Seq<UiCategoryView>,
    int,
)
    decreases cats.len(),
{
    if cats.len() == 0 {
        (Seq::empty(), p)
    } else {
        let c = cats[0];
        let n = drain_count(tokens, p, c.values);
        let run = tokens.subrange(p, p + n);
        let ui = UiCategoryView {
            name: c.name,
            values: Seq::new(c.values.len(), |j: int| (c.values[j], run.contains(c.values[j]))),
        };
        let rest = parse_cats(cats.drop_first(), tokens, p + n);
        (seq![ui] + rest.0, rest.1)
    }
}

/// Everything `Schema::parse` returns: the input split on the delimiter, the
/// first token taken verbatim as the salt, the categories' greedy runs, and
/// `UnexpectedTag` naming the first leftover token if one remains.
pub open spec fn spec_parse(schema: SchemaView, input: Seq<char>) -> Result<
    StateView,
    FilenameParseErrorView,
> {
    let tokens = spec_split(input, schema.delim);
    let r = parse_cats(schema.categories, tokens, 1);
    if r.1 < tokens.len() {
        Err(FilenameParseErrorView::UnexpectedTag(tokens[r.1]))
    } else {
        Ok(StateView { salt: tokens[0], categories: r.0 })
    }
}

impl Schema {
    /// Parse a filename back into a selection. The input is split on the
    /// delimiter; the first token is taken verbatim as the salt; each
    /// category in schema order greedily consumes the tokens that are its
    /// tags and marks exactly those selected. Succeeds if and only if no
    /// token is left over; otherwise the first leftover token is reported as
    /// `UnexpectedTag`.
    #[verifier::loop_isolation(false)]
    pub fn parse(&self, input: &str) -> (r: Result<State, FilenameParseError>)
        requires
            self.wf(),
        ensures
            match r {
                Ok(st) => spec_parse(self@, input@) == Ok::<_, FilenameParseErrorView>(st@),
                Err(e) => spec_parse(self@, input@) == Err::<StateView, _>(e@),
            },
    {
        let tokens = split_str(input, self.delim());
        let ghost tv = tokens.deep_view();
        proof {
            assert(tv.len() == tokens@.len());
        }
        let salt = tokens[0].clone();
        let ghost catsv = self@.categories;
        let cats = self.categories();
        let mut categories: Vec<UiCategory> = Vec::new();
        let mut p: usize = 1;
        let ghost whole = parse_cats(catsv, tv, 1);
        let mut i: usize = 0;
        proof {
            assert(catsv.skip(0) =~= catsv);
            assert(categories.deep_view() =~= Seq::<UiCategoryView>::empty());
        }
        while i < cats.len()
            invariant
                0 <= i <= catsv.len(),
                1 <= p,
                p <= tv.len() || p == 1,
                whole.0 =~= categories.deep_view() + parse_cats(
                    catsv.skip(i as int),
                    tv,
                    p as int,
                ).0,
                whole.1 == parse_cats(catsv.skip(i as int), tv, p as int).1,
            decreases catsv.len() - i,
        {
            let cat = &cats[i];
            let ghost cv = catsv[i as int];
            let ghost suffix = catsv.skip(i as int);
            proof {
                assert(suffix[0] == cv);
                assert(suffix.drop_first() =~= catsv.skip(i as int + 1));
            }
            let values = cat.values();

            // Greedily consume the run of tokens that are this category's
            // tags.
            let mut q: usize = p;
            #[verifier::loop_isolation(true)]
            loop
                invariant_except_break
                    drain_count(tv, p as int, cv.values) == (q - p) + drain_count(
                        tv,
                        q as int,
                        cv.values,
                    ),
                invariant
                    tokens.deep_view() == tv,
                    tv.len() == tokens@.len(),
                    values.deep_view() == cv.values,
                    p <= q,
                    q <= tv.len() || q == p,
                ensures
                    p <= q,
                    q <= tv.len() || q == p,
                    drain_count(tv, p as int, cv.values) == q - p,
                decreases tv.len() - q,
            {
                if q >= tokens.len() {
                    proof {
                        assert(drain_count(tv, q as int, cv.values) == 0);
                    }
                    break;
                }
                if !vec_contains_str(values, tokens[q].as_str()) {
                    proof {
                        assert(drain_count(tv, q as int, cv.values) == 0);
                    }
                    break;
                }
                q = q + 1;
            }
            let ghost n = drain_count(tv, p as int, cv.values);
            let ghost run = tv.subrange(p as int, p as int + n);

            // Rebuild this category: each declared tag, selected exactly
            // when it appears in the consumed run.
            let mut pairs: Vec<(String, bool)> = Vec::new();
            let mut j: usize = 0;
            while j < values.len()
                invariant
                    0 <= j <= cv.values.len(),
                    p <= q <= tv.len() || q == p,
                    q == p + n,
                    pairs.deep_view().len() == j,
                    forall|x: int|
                        0 <= x < j ==> #[trigger] pairs.deep_view()[x] == (
                            cv.values[x],
                            run.contains(cv.values[x]),
                        ),
                decreases cv.values.len() - j,
            {
                let tag = &values[j];
                let ghost tagv = cv.values[j as int];
                let mut found = false;
                let mut k: usize = p;
                while k < q
                    invariant
                        p <= k <= q,
                        q <= tv.len(),
                        found == exists|x: int| p <= x < k && tv[x] == tagv,
                    decreases q - k,
                {
                    if str_eq(tokens[k].as_str(), tag.as_str()) {
                        found = true;
                        proof {
                            assert(tv[k as int] == tagv);
                        }
                    }
                    k = k + 1;
                }
                proof {
                    if found {
                        let x = choose|x: int| p <= x < q && tv[x] == tagv;
                        assert(run[x - p] == tagv);
                        assert(run.contains(tagv));
                    } else {
                        if run.contains(tagv) {
                            let y = choose|y: int| 0 <= y < run.len() && run[y] == tagv;
                            assert(tv[p + y] == tagv);
                        }
                    }
                }
                let ghost oldpairs = pairs.deep_view();
                pairs.push((tag.clone(), found));
                proof {
                    assert(pairs.deep_view() =~= oldpairs.push((tagv, run.contains(tagv))));
                }
                j = j + 1;
            }
            let ui = UiCategory { name: cat.name().to_owned(), values: pairs };
            let ghost uiv = UiCategoryView {
                name: cv.name,
                values: Seq::new(
                    cv.values.len(),
                    |j: int| (cv.values[j], run.contains(cv.values[j])),
                ),
            };
            proof {
                assert(ui@ =~= uiv);
            }
            let ghost oldcats = categories.deep_view();
            categories.push(ui);
            proof {
                assert(categories.deep_view() =~= oldcats.push(uiv));
                assert(parse_cats(suffix, tv, p as int).0 =~= seq![uiv] + parse_cats(
                    catsv.skip(i as int + 1),
                    tv,
                    p as int + n,
                ).0);
                assert(whole.0 =~= categories.deep_view() + parse_cats(
                    catsv.skip(i as int + 1),
                    tv,
                    p as int + n,
                ).0);
            }
            p = q;
            i = i + 1;
        }
        proof {
            assert(catsv.skip(catsv.len() as int) =~= Seq::<CategoryView>::empty());
            assert(parse_cats(catsv.skip(catsv.len() as int), tv, p as int).0
                =~= Seq::<UiCategoryView>::empty());
            assert(whole.0 =~= categories.deep_view());
            assert(whole.1 == p as int);
        }
        if p < tokens.len() {
            let leftover = tokens[p].clone();
            proof {
                assert(spec_parse(self@, input@) == Err::<StateView, _>(
                    FilenameParseErrorView::UnexpectedTag(tv[p as int]),
                ));
            }
            Err(FilenameParseError::UnexpectedTag(leftover))
        } else {
            let st = State { salt, categories };
            proof {
                assert(st@ =~= StateView { salt: tv[0], categories: whole.0 });
            }
            Ok(st)
        }
    }
}



/// Why a schema source was rejected: by the parser, by the type checker, or
/// by validation.
#[derive(Debug)]
pub enum SchemaError {
    Parse(SchemaParseError),
    Type(SchemaTypeCheckError),
    Validation(Error),
}

/// Mathematical image of a [`SchemaError`].
#[verifier::ext_equal]
pub ghost enum SchemaErrorView {
    Parse(SchemaParseErrorView),
    Type(SchemaTypeCheckErrorView),
    Validation(ErrorView),
}

impl View for SchemaError {
    type V = SchemaErrorView;

    open spec fn view(&self) -> SchemaErrorView {
        match self {
            SchemaError::Parse(e) => SchemaErrorView::Parse(e@),
            SchemaError::Type(e) => SchemaErrorView::Type(e@),
            SchemaError::Validation(e) => SchemaErrorView::Validation(e@),
        }
    }
}

/// Everything `Schema::from_source` returns: the source parsed, the tree
/// checked, the configuration validated and converted.
pub open spec fn spec_from_source(src: Seq<char>) -> Result<SchemaView, SchemaErrorView> {
    match crate::parse::spec_parse_source(src) {
        Err(e) => Err(SchemaErrorView::Parse(e)),
        Ok(tree) => match crate::typecheck::spec_typecheck(tree) {
            Err(e) => Err(SchemaErrorView::Type(e)),
            Ok(cfg) => match spec_validate(cfg) {
                Some(e) => Err(SchemaErrorView::Validation(e)),
                None => Ok(conv_schema(cfg)),
            },
        },
    }
}

impl Schema {
    /// The whole pipeline on one schema source text: parse it, typecheck the
    /// tree, validate the configuration, and return the schema ready for the
    /// filename codec, or the first error of whichever stage rejected it.
    pub fn from_source(src: &str) -> (r: Result<Schema, SchemaError>)
        ensures
            match r {
                Ok(schema) => spec_from_source(src@) == Ok::<_, SchemaErrorView>(schema@)
                    && schema.wf(),
                Err(e) => spec_from_source(src@) == Err::<SchemaView, _>(e@),
            },
    {
        match crate::parse::parse(src) {
            Err(e) => Err(SchemaError::Parse(e)),
            Ok(tree) => match crate::typecheck::typecheck(tree) {
                Err(e) => Err(SchemaError::Type(e)),
                Ok(cfg) => match Schema::from_config(cfg) {
                    Err(e) => Err(SchemaError::Validation(e)),
                    Ok(schema) => Ok(schema),
                },
            },
        }
    }
}


proof fn lemma_all_allowed(s: Seq<char>, i: int)
    requires
        0 <= i,
        forall|k: int| 0 <= k < s.len() ==> spec_char_allowed(#[trigger] s[k]),
    ensures
        first_bad_char(s, i) is None,
    decreases s.len() - i + 1,
{
    if 0 <= i < s.len() {
        lemma_all_allowed(s, i + 1);
    }
}

proof fn lemma_check_tags_complete(
    cat_name: Seq<char>,
    values: Seq<Seq<char>>,
    j: int,
    seen: Seq<Seq<char>>,
    delim: Seq<char>,
)
    requires
        0 <= j <= values.len(),
        forall|k: int| j <= k < values.len() ==> !seen.contains(#[trigger] values[k]),
        forall|k1: int, k2: int|
            #![trigger values[k1], values[k2]]
            j <= k1 < k2 < values.len() ==> values[k1] != values[k2],
        forall|k: int| j <= k < values.len() ==> !has_occurrence(#[trigger] values[k], delim),
        forall|k: int, m: int|
            j <= k < values.len() && 0 <= m < values[k].len() ==> spec_char_allowed(
                #[trigger] values[k][m],
            ),
    ensures
        check_tags(cat_name, values, j, seen, delim) is None,
    decreases values.len() - j,
{
    if j < values.len() {
        let v = values[j];
        lemma_all_allowed(v, 0);
        let seen2 = seen.push(v);
        assert forall|k: int| j + 1 <= k < values.len() implies !seen2.contains(
            #[trigger] values[k],
        ) by {
            if seen2.contains(values[k]) {
                let idx = choose|idx: int| 0 <= idx < seen2.len() && seen2[idx] == values[k];
                if idx < seen.len() {
                    assert(seen.contains(values[k]));
                } else {
                    assert(values[j] == values[k]);
                }
            }
        }
        lemma_check_tags_complete(cat_name, values, j + 1, seen2, delim);
    }
}

proof fn lemma_check_cats_complete(
    cats: Seq<config::CategoryView>,
    i: int,
    seen: Seq<Seq<char>>,
    delim: Seq<char>,
)
    requires
        0 <= i <= cats.len(),
        forall|i2: int| i <= i2 < cats.len() ==> (#[trigger] cats[i2]).values.len() >= 1,
        forall|i2: int, j2: int|
            i <= i2 < cats.len() && 0 <= j2 < cats[i2].values.len() ==> (
            #[trigger] cats[i2].values[j2]).len() >= 1,
        forall|i2: int, j2: int|
            i <= i2 < cats.len() && 0 <= j2 < cats[i2].values.len() ==> !has_occurrence(
                #[trigger] cats[i2].values[j2],
                delim,
            ),
        forall|i2: int, j2: int, m: int|
            i <= i2 < cats.len() && 0 <= j2 < cats[i2].values.len() && 0 <= m
                < cats[i2].values[j2].len() ==> spec_char_allowed(
                #[trigger] cats[i2].values[j2][m],
            ),
        forall|i2: int, j2: int|
            #![trigger cats[i2].values[j2]]
            i <= i2 < cats.len() && 0 <= j2 < cats[i2].values.len() ==> !seen.contains(
                cats[i2].values[j2],
            ),
        forall|i1: int, j1: int, i2: int, j2: int|
            #![trigger cats[i1].values[j1], cats[i2].values[j2]]
            i <= i1 < cats.len() && 0 <= j1 < cats[i1].values.len() && i <= i2 < cats.len() && 0
                <= j2 < cats[i2].values.len() && !(i1 == i2 && j1 == j2) ==> cats[i1].values[j1]
                != cats[i2].values[j2],
    ensures
        check_categories(cats, i, seen, delim) is None,
    decreases cats.len() - i,
{
    if i < cats.len() {
        let c = cats[i];
        if c.values.contains(Seq::<char>::empty()) {
            let idx = choose|idx: int|
                0 <= idx < c.values.len() && c.values[idx] == Seq::<char>::empty();
            assert(c.values[idx].len() >= 1);
        }
        lemma_check_tags_complete(c.name, c.values, 0, seen, delim);
        let seen2 = seen + c.values;
        assert forall|i2: int, j2: int|
            #![trigger cats[i2].values[j2]]
            i + 1 <= i2 < cats.len() && 0 <= j2 < cats[i2].values.len() implies !seen2.contains(
            cats[i2].values[j2],
        ) by {
            if seen2.contains(cats[i2].values[j2]) {
                let idx = choose|idx: int|
                    0 <= idx < seen2.len() && seen2[idx] == cats[i2].values[j2];
                if idx < seen.len() {
                    assert(seen.contains(cats[i2].values[j2]));
                } else {
                    assert(cats[i].values[idx - seen.len()] == cats[i2].values[j2]);
                }
            }
        }
        lemma_check_cats_complete(cats, i + 1, seen2, delim);
    }
}

/// An empty delimiter is always rejected, and as `EmptyDelimiter`.
pub proof fn lemma_rejects_empty_delimiter(c: config::SchemaView)
    requires
        c.delim.len() == 0,
    ensures
        spec_validate(c) == Some(ErrorView::EmptyDelimiter),
{
}

/// Validation accepts exactly the configurations whose image is well-formed:
/// together with `lemma_validate_ok_wf`, the validator rejects a
/// configuration if and only if something is wrong with it.
pub proof fn lemma_validate_accepts(c: config::SchemaView)
    requires
        wf_schema(conv_schema(c)),
    ensures
        spec_validate(c) is None,
{
    let s = conv_schema(c);
    lemma_all_allowed(c.delim, 0);
    assert forall|i2: int, j2: int|
        0 <= i2 < c.categories.len() && 0 <= j2 < c.categories[i2].values.len() implies !Seq::<
        Seq<char>,
    >::empty().contains(#[trigger] c.categories[i2].values[j2]) by {
        if Seq::<Seq<char>>::empty().contains(c.categories[i2].values[j2]) {
            let idx = choose|idx: int|
                0 <= idx < 0 && Seq::<Seq<char>>::empty()[idx] == c.categories[i2].values[j2];
        }
    }
    assert forall|i2: int| 0 <= i2 < c.categories.len() implies (
    #[trigger] c.categories[i2]).values.len() >= 1 by {
        assert(wf_category(s.categories[i2], s.delim));
        assert(s.categories[i2] == conv_category(c.categories[i2]));
    }
    assert forall|i2: int, j2: int|
        0 <= i2 < c.categories.len() && 0 <= j2 < c.categories[i2].values.len() implies (
    #[trigger] c.categories[i2].values[j2]).len() >= 1 && !has_occurrence(
        c.categories[i2].values[j2],
        c.delim,
    ) by {
        assert(wf_category(s.categories[i2], s.delim));
        assert(s.categories[i2] == conv_category(c.categories[i2]));
        assert(s.categories[i2].values[j2] == c.categories[i2].values[j2]);
    }
    assert forall|i2: int, j2: int, m: int|
        0 <= i2 < c.categories.len() && 0 <= j2 < c.categories[i2].values.len() && 0 <= m
            < c.categories[i2].values[j2].len() implies spec_char_allowed(
        #[trigger] c.categories[i2].values[j2][m],
    ) by {
        assert(wf_category(s.categories[i2], s.delim));
        assert(s.categories[i2] == conv_category(c.categories[i2]));
        assert(s.categories[i2].values[j2][m] == c.categories[i2].values[j2][m]);
    }
    assert forall|i1: int, j1: int, i2: int, j2: int|
        #![trigger c.categories[i1].values[j1], c.categories[i2].values[j2]]
        0 <= i1 < c.categories.len() && 0 <= j1 < c.categories[i1].values.len() && 0 <= i2
            < c.categories.len() && 0 <= j2 < c.categories[i2].values.len() && !(i1 == i2 && j1
            == j2) implies c.categories[i1].values[j1] != c.categories[i2].values[j2] by {
        assert(tags_unique(s.categories));
        assert(s.categories[i1] == conv_category(c.categories[i1]));
        assert(s.categories[i2] == conv_category(c.categories[i2]));
        assert(s.categories[i1].values[j1] != s.categories[i2].values[j2]);
    }
    lemma_check_cats_complete(c.categories, 0, Seq::empty(), c.delim);
}

} // verus!
