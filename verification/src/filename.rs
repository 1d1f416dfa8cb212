//! Serializing a tag selection into a filename. For each category in schema
//! order, the selected tags (in declared order) are checked against the
//! category's cardinality requirement and then appended, each followed by
//! the delimiter; a category with nothing selected contributes a single
//! delimiter as an empty placeholder. The name starts with the salt and one
//! delimiter, and the final character is removed at the end, undoing the
//! last delimiter when the delimiter is a single character.

use vstd::prelude::*;

use crate::schema::{req_satisfied, CategoryView, Requirement, Schema, SchemaView};
use crate::state::{State, UiCategory, UiCategoryView};
use crate::text::str_eq;

verus! {

/// Serialization failed: a category's selected-tag count does not meet its
/// requirement. Carries the category, the requirement expected, and the
/// count actually selected.
#[derive(Clone, Debug, Eq, PartialEq)]
pub enum GenerateFilenameError {
    RequirementMismatch { category_name: String, expected: Requirement, selected: usize },
}

/// Mathematical image of a [`GenerateFilenameError`].
#[verifier::ext_equal]
pub ghost enum GenerateFilenameErrorView {
    RequirementMismatch { category_name: Seq<char>, expected: Requirement, selected: nat },
}

impl View for GenerateFilenameError {
    type V = GenerateFilenameErrorView;

    open spec fn view(&self) -> GenerateFilenameErrorView {
        match self {
            GenerateFilenameError::RequirementMismatch { category_name, expected, selected } => {
                GenerateFilenameErrorView::RequirementMismatch {
                    category_name: category_name@,
                    expected: *expected,
                    selected: *selected as nat,
                }
            },
        }
    }
}

/// The tags selected among the first `i` entries of a selection category,
/// in declared order.
pub open spec fn selected_prefix(values: Seq<(Seq<char>, bool)>, i: int) -> Seq<Seq<char>>
    decreases i,
{
    if i <= 0 {
        Seq::empty()
    } else {
        let rest = selected_prefix(values, i - 1);
        if values[i - 1].1 {
            rest.push(values[i - 1].0)
        } else {
            rest
        }
    }
}

/// All tags selected in a selection category, in declared order.
pub open spec fn selected_tags(c: UiCategoryView) -> Seq<Seq<char>> {
    selected_prefix(c.values, c.values.len() as int)
}

/// The first category of `cats` named `name`, if any. Serialization looks
/// categories up by name.
pub open spec fn find_category(cats: Seq<CategoryView>, name: Seq<char>) -> Option<CategoryView>
    decreases cats.len(),
{
    if cats.len() == 0 {
        None
    } else if cats[0].name == name {
        Some(cats[0])
    } else {
        find_category(cats.drop_first(), name)
    }
}

/// Each tag followed by one delimiter, concatenated.
pub open spec fn tags_block(sel: Seq<Seq<char>>, delim: Seq<char>) -> Seq<char>
    decreases sel.len(),
{
    if sel.len() == 0 {
        Seq::empty()
    } else {
        sel[0] + delim + tags_block(sel.drop_first(), delim)
    }
}

/// What one category contributes to the filename body: its selected tags
/// each followed by the delimiter, or a single delimiter when nothing is
/// selected.
pub open spec fn contribution(sel: Seq<Seq<char>>, delim: Seq<char>) -> Seq<char> {
    if sel.len() == 0 {
        delim
    } else {
        tags_block(sel, delim)
    }
}

/// The filename body contributed by the selection categories `cats`, in
/// order, or the first requirement violation. Each category is checked
/// against the requirement of the schema category found under its name;
/// callers guarantee the lookup succeeds.
pub open spec fn encode_cats(schema: SchemaView, cats: Seq<UiCategoryView>) -> Result<
    Seq<char>,
    GenerateFilenameErrorView,
>
    decreases cats.len(),
{
    if cats.len() == 0 {
        Ok(Seq::empty())
    } else {
        let c = cats[0];
        match find_category(schema.categories, c.name) {
            None => Err(vstd::pervasive::arbitrary()),
            Some(def) => {
                let sel = selected_tags(c);
                if !req_satisfied(def.req, sel.len()) {
                    Err(GenerateFilenameErrorView::RequirementMismatch {
                        category_name: c.name,
                        expected: def.req,
                        selected: sel.len(),
                    })
                } else {
                    match encode_cats(schema, cats.drop_first()) {
                        Err(e) => Err(e),
                        Ok(rest) => Ok(contribution(sel, schema.delim) + rest),
                    }
                }
            },
        }
    }
}

/// Everything `selection_to_filename` returns: on success the salt, one
/// delimiter, and the body, with the final character removed.
pub open spec fn spec_selection_to_filename(schema: SchemaView, state: crate::state::StateView) -> Result<
    Seq<char>,
    GenerateFilenameErrorView,
> {
    match encode_cats(schema, state.categories) {
        Err(e) => Err(e),
        Ok(body) => {
            let whole = state.salt + schema.delim + body;
            if whole.len() == 0 {
                Ok(whole)
            } else {
                Ok(whole.drop_last())
            }
        },
    }
}

/// Everything `generate` returns: the body alone, with the final character
/// removed.
pub open spec fn spec_generate(schema: SchemaView, state: crate::state::StateView) -> Result<
    Seq<char>,
    GenerateFilenameErrorView,
> {
    match encode_cats(schema, state.categories) {
        Err(e) => Err(e),
        Ok(body) => {
            if body.len() == 0 {
                Ok(body)
            } else {
                Ok(body.drop_last())
            }
        },
    }
}

/// Every category name of the selection can be looked up in the schema.
/// Selections made from the schema satisfy this by construction.
pub open spec fn names_resolve(schema: SchemaView, cats: Seq<UiCategoryView>) -> bool {
    forall|i: int|
        0 <= i < cats.len() ==> find_category(schema.categories, (#[trigger] cats[i]).name)
            is Some
}

/// The first schema category named `name`.
fn find_category_exec<'a>(schema: &'a Schema, name: &str) -> (r: Option<&'a crate::schema::Category>)
    ensures
        match r {
            Some(def) => find_category(schema@.categories, name@) == Some(def@),
            None => find_category(schema@.categories, name@) is None,
        },
{
    let cats = schema.categories();
    let mut k: usize = 0;
    proof {
        assert(schema@.categories.skip(0) =~= schema@.categories);
    }
    while k < cats.len()
        invariant
            cats@.len() == schema@.categories.len(),
            forall|x: int| 0 <= x < cats@.len() ==> (#[trigger] cats@[x])@ == schema@.categories[x],
            0 <= k <= cats@.len(),
            find_category(schema@.categories, name@) == find_category(
                schema@.categories.skip(k as int),
                name@,
            ),
        decreases cats@.len() - k,
    {
        let ghost suffix = schema@.categories.skip(k as int);
        proof {
            assert(suffix.len() == cats@.len() - k);
            assert(suffix[0] == schema@.categories[k as int]);
            assert(suffix.drop_first() =~= schema@.categories.skip(k as int + 1));
        }
        if str_eq(cats[k].name(), name) {
            return Some(&cats[k]);
        }
        k = k + 1;
    }
    proof {
        assert(schema@.categories.skip(cats@.len() as int).len() == 0);
    }
    None
}

/// The selected tags of one selection category, in declared order.
fn collect_selected(cat: &UiCategory) -> (r: Vec<String>)
    ensures
        r.deep_view() == selected_tags(cat@),
{
    let mut sel: Vec<String> = Vec::new();
    let mut j: usize = 0;
    while j < cat.values.len()
        invariant
            0 <= j <= cat.values@.len(),
            cat@.values.len() == cat.values@.len(),
            forall|x: int| 0 <= x < cat.values@.len() ==> cat@.values[x] == (
                #[trigger] cat.values@[x].0@,
                cat.values@[x].1,
            ),
            sel.deep_view() =~= selected_prefix(cat@.values, j as int),
        decreases cat.values@.len() - j,
    {
        let pair = &cat.values[j];
        if pair.1 {
            let ghost old_sel = sel.deep_view();
            sel.push(pair.0.clone());
            proof {
                assert(sel.deep_view() =~= old_sel.push(cat@.values[j as int].0));
            }
        }
        j = j + 1;
    }
    proof {
        assert(sel.deep_view() =~= selected_tags(cat@));
    }
    sel
}

/// Append the body contributed by the selection categories to `name`, or
/// return the first requirement violation, leaving no partial output with
/// the caller.
#[verifier::loop_isolation(false)]
fn encode_body(schema: &Schema, cats: &Vec<UiCategory>) -> (r: Result<
    String,
    GenerateFilenameError,
>)
    requires
        schema.wf(),
        names_resolve(schema@, cats.deep_view()),
    ensures
        match r {
            Ok(s) => encode_cats(schema@, cats.deep_view()) == Ok::<_, GenerateFilenameErrorView>(
                s@,
            ),
            Err(e) => encode_cats(schema@, cats.deep_view()) == Err::<Seq<char>, _>(e@),
        },
{
    let ghost catsv = cats.deep_view();
    let delim = schema.delim();
    let mut name = String::new();
    let mut i: usize = 0;
    proof {
        assert(catsv.skip(0) =~= catsv);
    }
    while i < cats.len()
        invariant
            0 <= i <= catsv.len(),
            encode_cats(schema@, catsv) == match encode_cats(schema@, catsv.skip(i as int)) {
                Err(e) => Err(e),
                Ok(rest) => Ok(name@ + rest),
            },
        decreases catsv.len() - i,
    {
        let cat = &cats[i];
        let ghost cv = catsv[i as int];
        let ghost suffix = catsv.skip(i as int);
        proof {
            assert(suffix[0] == cv);
            assert(suffix.drop_first() =~= catsv.skip(i as int + 1));
        }
        let def = match find_category_exec(schema, cat.name.as_str()) {
            Some(def) => def,
            None => {
                // names_resolve rules this out.
                proof {
                    assert(find_category(schema@.categories, cv.name) is Some);
                }
                assert(false);
                unreached()
            },
        };
        let sel = collect_selected(cat);
        let ghost selv = selected_tags(cv);
        let req = def.req();
        if !req.satisfied_by(sel.len()) {
            let e = GenerateFilenameError::RequirementMismatch {
                category_name: cat.name.clone(),
                expected: req,
                selected: sel.len(),
            };
            proof {
                assert(encode_cats(schema@, suffix) == Err::<Seq<char>, _>(e@));
            }
            return Err(e);
        }
        // Append this category's contribution.
        let ghost name_entry = name@;
        if sel.len() == 0 {
            name.append(delim);
            proof {
                assert(name@ =~= name_entry + contribution(selv, schema@.delim));
            }
        } else {
            let mut t: usize = 0;
            proof {
                assert(selv.skip(0) =~= selv);
            }
            while t < sel.len()
                invariant
                    0 <= t <= selv.len(),
                    sel.deep_view() == selv,
                    sel@.len() == selv.len(),
                    name@ + tags_block(selv.skip(t as int), schema@.delim) == name_entry
                        + tags_block(selv, schema@.delim),
                decreases selv.len() - t,
            {
                let ghost tag_suffix = selv.skip(t as int);
                proof {
                    assert(tag_suffix[0] == selv[t as int]);
                    assert(tag_suffix.drop_first() =~= selv.skip(t as int + 1));
                }
                let ghost before = name@;
                name.append(sel[t].as_str());
                name.append(delim);
                proof {
                    assert(sel@[t as int]@ == selv[t as int]);
                    assert(name@ =~= before + selv[t as int] + schema@.delim);
                    assert(name@ + tags_block(selv.skip(t as int + 1), schema@.delim)
                        =~= before + tags_block(tag_suffix, schema@.delim));
                }
                t = t + 1;
            }
            proof {
                assert(selv.skip(selv.len() as int) =~= Seq::<Seq<char>>::empty());
                assert(tags_block(selv.skip(selv.len() as int), schema@.delim)
                    =~= Seq::<char>::empty());
                assert(name@ =~= name_entry + tags_block(selv, schema@.delim));
                assert(name@ =~= name_entry + contribution(selv, schema@.delim));
            }
        }
        proof {
            assert(encode_cats(schema@, suffix) == match encode_cats(
                schema@,
                catsv.skip(i as int + 1),
            ) {
                Err(e) => Err(e),
                Ok(rest) => Ok(contribution(selv, schema@.delim) + rest),
            });
            assert forall|rest: Seq<char>| true implies name_entry + (contribution(
                selv,
                schema@.delim,
            ) + rest) =~= name@ + rest by {}
        }
        i = i + 1;
    }
    proof {
        assert(catsv.skip(catsv.len() as int) =~= Seq::<UiCategoryView>::empty());
        assert(encode_cats(schema@, catsv.skip(catsv.len() as int)) == Ok::<
            _,
            GenerateFilenameErrorView,
        >(Seq::<char>::empty()));
        assert(name@ + Seq::<char>::empty() =~= name@);
    }
    Ok(name)
}

/// Serialize a selection against its schema: the salt, then per category in
/// schema order the selected tags each followed by the delimiter (one bare
/// delimiter when a category has no selection), with the final character
/// removed. Succeeds if and only if every category's selected-tag count
/// satisfies the requirement of the schema category of the same name; on the
/// first violation nothing is produced and the violation is reported.
pub fn selection_to_filename(schema: &Schema, state: &State) -> (r: Result<
    String,
    GenerateFilenameError,
>)
    requires
        schema.wf(),
        names_resolve(schema@, state@.categories),
    ensures
        match r {
            Ok(s) => spec_selection_to_filename(schema@, state@) == Ok::<
                _,
                GenerateFilenameErrorView,
            >(s@),
            Err(e) => spec_selection_to_filename(schema@, state@) == Err::<Seq<char>, _>(e@),
        },
{
    let mut name = state.salt.clone();
    name.append(schema.delim());
    match encode_body(schema, &state.categories) {
        Err(e) => Err(e),
        Ok(body) => {
            name.append(body.as_str());
            assert(name@ == state@.salt + schema@.delim + body@);
            // Remove the final character: the last delimiter appended, when
            // the delimiter is one character long.
            let n = name.as_str().unicode_len();
            if n == 0 {
                Ok(name)
            } else {
                let trimmed = name.as_str().substring_char(0, n - 1).to_owned();
                proof {
                    assert(trimmed@ =~= name@.drop_last());
                }
                Ok(trimmed)
            }
        },
    }
}

/// Serialize the category contributions alone, without the salt prefix: per
/// category the selected tags each followed by the delimiter, with the final
/// character removed. Succeeds if and only if every category's selected-tag
/// count satisfies its requirement.
pub fn generate(schema: &Schema, state: &State) -> (r: Result<String, GenerateFilenameError>)
    requires
        schema.wf(),
        names_resolve(schema@, state@.categories),
    ensures
        match r {
            Ok(s) => spec_generate(schema@, state@) == Ok::<_, GenerateFilenameErrorView>(s@),
            Err(e) => spec_generate(schema@, state@) == Err::<Seq<char>, _>(e@),
        },
{
    match encode_body(schema, &state.categories) {
        Err(e) => Err(e),
        Ok(body) => {
            let n = body.as_str().unicode_len();
            if n == 0 {
                Ok(body)
            } else {
                let trimmed = body.as_str().substring_char(0, n - 1).to_owned();
                proof {
                    assert(trimmed@ =~= body@.drop_last());
                }
                Ok(trimmed)
            }
        },
    }
}


/// Serialization succeeds exactly when every selection category's
/// selected-tag count satisfies the requirement of the schema category found
/// under its name.
pub proof fn lemma_encode_ok_iff(schema: SchemaView, cats: Seq<UiCategoryView>)
    requires
        names_resolve(schema, cats),
    ensures
        encode_cats(schema, cats) is Ok <==> forall|i: int|
            0 <= i < cats.len() ==> req_satisfied(
                find_category(schema.categories, (#[trigger] cats[i]).name)->Some_0.req,
                selected_tags(cats[i]).len(),
            ),
    decreases cats.len(),
{
    if cats.len() > 0 {
        let c = cats[0];
        assert(find_category(schema.categories, c.name) is Some);
        let def = find_category(schema.categories, c.name)->Some_0;
        let rest = cats.drop_first();
        assert(names_resolve(schema, rest)) by {
            assert(forall|i: int| 0 <= i < rest.len() ==> #[trigger] rest[i] == cats[i + 1]);
        }
        lemma_encode_ok_iff(schema, rest);
        if req_satisfied(def.req, selected_tags(c).len()) {
            assert(encode_cats(schema, cats) is Ok <==> encode_cats(schema, rest) is Ok);
            if encode_cats(schema, rest) is Ok {
                assert forall|i: int| 0 <= i < cats.len() implies req_satisfied(
                    find_category(schema.categories, (#[trigger] cats[i]).name)->Some_0.req,
                    selected_tags(cats[i]).len(),
                ) by {
                    if i > 0 {
                        assert(rest[i - 1] == cats[i]);
                    }
                }
            } else {
                let i = choose|i: int|
                    0 <= i < rest.len() && !req_satisfied(
                        find_category(schema.categories, (#[trigger] rest[i]).name)->Some_0.req,
                        selected_tags(rest[i]).len(),
                    );
                assert(cats[i + 1] == rest[i]);
                assert(!req_satisfied(
                    find_category(schema.categories, cats[i + 1].name)->Some_0.req,
                    selected_tags(cats[i + 1]).len(),
                ));
            }
        } else {
            assert(encode_cats(schema, cats) is Err);
        }
    }
}

} // verus!
