//! The central correctness property of the filename codec: parsing a
//! generated filename with the same schema reproduces the selection that
//! produced it. Tag uniqueness and delimiter-exclusion, enforced by the
//! validator, are exactly what makes the greedy parse invert the
//! concatenation performed by serialization.

use vstd::prelude::*;

use crate::filename::{
    contribution, encode_cats, selected_prefix, selected_tags, spec_selection_to_filename,
    tags_block, GenerateFilenameErrorView,
};
use crate::schema::{
    drain_count, parse_cats, spec_parse, tags_unique, wf_schema, CategoryView,
    FilenameParseErrorView, SchemaView,
};
use crate::state::{state_mirrors, StateView, UiCategoryView};
use crate::text::{find_from, has_occurrence, occurs_at, spec_join, spec_split};

verus! {

/// The selected tags of all categories, in order, as one token list.
pub open spec fn flatten_selected(cats: Seq<UiCategoryView>) -> Seq<Seq<char>>
    decreases cats.len(),
{
    if cats.len() == 0 {
        Seq::empty()
    } else {
        selected_tags(cats[0]) + flatten_selected(cats.drop_first())
    }
}

/// The index of the selected entry that produced element `x` of
/// `selected_prefix(values, k)`.
spec fn sel_origin(values: Seq<(Seq<char>, bool)>, k: int, x: int) -> int
    decreases k,
{
    if k <= 0 {
        0
    } else {
        let rest = selected_prefix(values, k - 1);
        if values[k - 1].1 && x == rest.len() {
            k - 1
        } else {
            sel_origin(values, k - 1, x)
        }
    }
}

/// Every tag listed by `selected_prefix` is the tag of the selected entry at
/// its origin index.
proof fn lemma_selected_origin(values: Seq<(Seq<char>, bool)>, k: int, x: int)
    requires
        0 <= k <= values.len(),
        0 <= x < selected_prefix(values, k).len(),
    ensures
        ({
            let j = sel_origin(values, k, x);
            0 <= j < k && values[j].1 && values[j].0 == selected_prefix(values, k)[x]
        }),
    decreases k,
{
    if k > 0 {
        let sel = selected_prefix(values, k);
        let rest = selected_prefix(values, k - 1);
        if values[k - 1].1 && x == rest.len() {
            assert(sel[x] == values[k - 1].0);
        } else {
            assert(x < rest.len());
            lemma_selected_origin(values, k - 1, x);
            assert(sel[x] == rest[x]);
        }
    }
}

/// A selected entry's tag is listed by `selected_prefix`.
proof fn lemma_selected_mem(values: Seq<(Seq<char>, bool)>, k: int, j: int)
    requires
        0 <= j < k <= values.len(),
        values[j].1,
    ensures
        selected_prefix(values, k).contains(values[j].0),
    decreases k,
{
    let sel = selected_prefix(values, k);
    let rest = selected_prefix(values, k - 1);
    if j == k - 1 {
        assert(sel[sel.len() - 1] == values[j].0);
    } else {
        lemma_selected_mem(values, k - 1, j);
        let x = choose|x: int| 0 <= x < rest.len() && rest[x] == values[j].0;
        assert(sel[x] == values[j].0);
    }
}

/// `tags_block` distributes over concatenation of token lists.
proof fn lemma_tags_block_concat(a: Seq<Seq<char>>, b: Seq<Seq<char>>, d: Seq<char>)
    ensures
        tags_block(a + b, d) == tags_block(a, d) + tags_block(b, d),
    decreases a.len(),
{
    if a.len() == 0 {
        assert(a + b =~= b);
        assert(tags_block(a, d) + tags_block(b, d) =~= tags_block(b, d));
    } else {
        lemma_tags_block_concat(a.drop_first(), b, d);
        assert((a + b).drop_first() =~= a.drop_first() + b);
        assert((a + b)[0] == a[0]);
        assert(tags_block(a + b, d) =~= tags_block(a, d) + tags_block(b, d));
    }
}

/// A non-empty block is at least one delimiter long.
proof fn lemma_tags_block_len(parts: Seq<Seq<char>>, d: Seq<char>)
    requires
        parts.len() >= 1,
    ensures
        tags_block(parts, d).len() >= d.len(),
{
}

/// When every category has at least one tag selected, the encoded body is
/// the flattened token list, each token followed by one delimiter.
proof fn lemma_encode_body(schema: SchemaView, cats: Seq<UiCategoryView>, body: Seq<char>)
    requires
        encode_cats(schema, cats) == Ok::<_, GenerateFilenameErrorView>(body),
        forall|i: int|
            0 <= i < cats.len() ==> selected_tags(#[trigger] cats[i]).len() >= 1,
    ensures
        body == tags_block(flatten_selected(cats), schema.delim),
    decreases cats.len(),
{
    if cats.len() == 0 {
        assert(flatten_selected(cats) =~= Seq::<Seq<char>>::empty());
        assert(body =~= tags_block(flatten_selected(cats), schema.delim));
    } else {
        let sel = selected_tags(cats[0]);
        let rest = cats.drop_first();
        assert(forall|i: int|
            0 <= i < rest.len() ==> selected_tags(#[trigger] rest[i]).len() >= 1) by {
            assert(forall|i: int| 0 <= i < rest.len() ==> rest[i] == cats[i + 1]);
        }
        let rest_body = encode_cats(schema, rest)->Ok_0;
        lemma_encode_body(schema, rest, rest_body);
        assert(contribution(sel, schema.delim) == tags_block(sel, schema.delim));
        lemma_tags_block_concat(sel, flatten_selected(rest), schema.delim);
        assert(body =~= tags_block(flatten_selected(cats), schema.delim));
    }
}

/// With a single-character delimiter, containing the delimiter as a
/// substring is containing its one character.
proof fn lemma_single_char_occurrence(v: Seq<char>, d: Seq<char>)
    requires
        d.len() == 1,
    ensures
        has_occurrence(v, d) <==> v.contains(d[0]),
{
    if has_occurrence(v, d) {
        let i = choose|i: int| occurs_at(v, d, i);
        assert(v.subrange(i, i + 1)[0] == v[i]);
        assert(v[i] == d[0]);
    }
    if v.contains(d[0]) {
        let i = choose|i: int| 0 <= i < v.len() && v[i] == d[0];
        assert(v.subrange(i, i + 1) =~= d);
        assert(occurs_at(v, d, i));
    }
}

/// With a trailing delimiter after every token, removing the final character
/// of the block turns it into the delimiter-joined token list, provided the
/// delimiter is one character.
proof fn lemma_block_join(parts: Seq<Seq<char>>, d: Seq<char>)
    requires
        parts.len() >= 1,
        d.len() == 1,
    ensures
        tags_block(parts, d).drop_last() == spec_join(parts, d),
    decreases parts.len(),
{
    let block = tags_block(parts, d);
    if parts.len() == 1 {
        assert(tags_block(parts.drop_first(), d) =~= Seq::<char>::empty());
        assert(block =~= parts[0] + d);
        assert(block.drop_last() =~= parts[0]);
    } else {
        let rest = parts.drop_first();
        lemma_block_join(rest, d);
        lemma_tags_block_len(rest, d);
        assert(block =~= parts[0] + d + tags_block(rest, d));
        assert(block.drop_last() =~= parts[0] + d + tags_block(rest, d).drop_last());
        assert(block.drop_last() =~= spec_join(parts, d));
    }
}

/// Splitting on a one-character delimiter inverts joining, as long as no
/// piece contains the delimiter character.
proof fn lemma_split_join(parts: Seq<Seq<char>>, d: Seq<char>)
    requires
        parts.len() >= 1,
        d.len() == 1,
        forall|x: int| 0 <= x < parts.len() ==> !(#[trigger] parts[x]).contains(d[0]),
    ensures
        spec_split(spec_join(parts, d), d) == parts,
    decreases parts.len(),
{
    let s = spec_join(parts, d);
    let p0 = parts[0];
    if parts.len() == 1 {
        assert(s == p0);
        match find_from(s, d, 0) {
            None => {
                assert(spec_split(s, d) =~= parts);
            },
            Some(i) => {
                crate::text::lemma_find_from_some(s, d, 0, i);
                assert(s.subrange(i, i + 1)[0] == s[i]);
                assert(s[i] == d[0]);
                assert(p0.contains(d[0]));
                assert(false);
            },
        }
    } else {
        let rest = parts.drop_first();
        let m = p0.len() as int;
        assert(s =~= p0 + d + spec_join(rest, d));
        // The first occurrence of the delimiter is right after the first
        // piece.
        assert(occurs_at(s, d, m)) by {
            assert(s.subrange(m, m + 1) =~= d);
        }
        match find_from(s, d, 0) {
            None => {
                crate::text::lemma_find_from_none(s, d, 0);
                assert(false);
            },
            Some(i) => {
                crate::text::lemma_find_from_some(s, d, 0, i);
                if i < m {
                    assert(s.subrange(i, i + 1)[0] == s[i]);
                    assert(s[i] == p0[i]);
                    assert(p0.contains(d[0]));
                    assert(false);
                }
                if i > m {
                    assert(!occurs_at(s, d, m));
                    assert(false);
                }
                assert(i == m);
                assert(s.subrange(0, m) =~= p0);
                assert(s.skip(m + 1) =~= spec_join(rest, d));
                assert(forall|x: int|
                    0 <= x < rest.len() ==> !(#[trigger] rest[x]).contains(d[0])) by {
                    assert(forall|x: int| 0 <= x < rest.len() ==> rest[x] == parts[x + 1]);
                }
                lemma_split_join(rest, d);
                assert(spec_split(s, d) =~= seq![p0] + rest);
                assert(seq![p0] + rest =~= parts);
            },
        }
    }
}

/// A run of `n` tokens that all belong to `values`, followed by the end of
/// the tokens or a token outside `values`, drains exactly `n`.
proof fn lemma_drain_exact(tokens: Seq<Seq<char>>, p: int, values: Seq<Seq<char>>, n: int)
    requires
        0 <= p,
        0 <= n,
        p + n <= tokens.len(),
        forall|t: int| p <= t < p + n ==> values.contains(#[trigger] tokens[t]),
        p + n == tokens.len() || !values.contains(tokens[p + n]),
    ensures
        drain_count(tokens, p, values) == n,
    decreases n,
{
    if n == 0 {
    } else {
        assert(values.contains(tokens[p]));
        lemma_drain_exact(tokens, p + 1, values, n - 1);
    }
}

/// The greedy walk over the categories from index `i`, starting at token
/// position `p`, consumes exactly the selected runs and rebuilds the
/// selection categories from `i` on.
proof fn lemma_parse_cats(
    schema: SchemaView,
    state: StateView,
    tokens: Seq<Seq<char>>,
    i: int,
    p: int,
)
    requires
        wf_schema(schema),
        state_mirrors(state.categories, schema.categories),
        forall|x: int|
            0 <= x < state.categories.len() ==> selected_tags(
                #[trigger] state.categories[x],
            ).len() >= 1,
        0 <= i <= state.categories.len(),
        0 <= p <= tokens.len(),
        tokens.skip(p) == flatten_selected(state.categories.skip(i)),
    ensures
        parse_cats(schema.categories.skip(i), tokens, p) == (
            state.categories.skip(i),
            tokens.len() as int,
        ),
    decreases state.categories.len() - i,
{
    let cats = schema.categories;
    let sts = state.categories;
    if i == sts.len() {
        assert(cats.skip(i).len() == 0);
        assert(flatten_selected(sts.skip(i)) =~= Seq::<Seq<char>>::empty());
        assert(tokens.skip(p).len() == 0);
        assert(p == tokens.len());
        assert(parse_cats(cats.skip(i), tokens, p).0 =~= sts.skip(i));
    } else {
        let st = sts[i];
        let def = cats[i];
        let sel = selected_tags(st);
        let n = sel.len() as int;
        let suffix = sts.skip(i);
        assert(suffix[0] == st);
        assert(suffix.drop_first() =~= sts.skip(i + 1));
        assert(flatten_selected(suffix) == sel + flatten_selected(sts.skip(i + 1)));

        // Tokens p..p+n are the selected tags of category i, and each is one
        // of the category's declared tags.
        assert(p + n <= tokens.len()) by {
            assert(tokens.skip(p).len() == flatten_selected(suffix).len());
        }
        assert(forall|t: int| 0 <= t < n ==> #[trigger] tokens[p + t] == sel[t]) by {
            assert(forall|t: int| 0 <= t < n ==> tokens.skip(p)[t] == sel[t]);
        }
        assert forall|t: int| p <= t < p + n implies def.values.contains(#[trigger] tokens[t]) by {
            let x = t - p;
            assert(tokens[p + x] == sel[x]);
            lemma_selected_origin(st.values, st.values.len() as int, x);
            let j = sel_origin(st.values, st.values.len() as int, x);
            assert(st.values[j].0 == def.values[j]);
            assert(def.values[j] == tokens[t]);
        }

        // The token after the run, if any, is a tag of a later category and
        // so, by uniqueness, not a tag of this one.
        assert(p + n == tokens.len() || !def.values.contains(tokens[p + n])) by {
            if p + n < tokens.len() {
                let flat_rest = flatten_selected(sts.skip(i + 1));
                assert(tokens[p + n] == flat_rest[0]) by {
                    assert(tokens.skip(p)[n] == flatten_selected(suffix)[n]);
                }
                assert(i + 1 < sts.len()) by {
                    if i + 1 == sts.len() {
                        assert(flat_rest =~= Seq::<Seq<char>>::empty());
                    }
                }
                let st2 = sts[i + 1];
                let sel2 = selected_tags(st2);
                assert(sel2.len() >= 1);
                assert(flat_rest[0] == sel2[0]) by {
                    assert(flatten_selected(sts.skip(i + 1))[0] == selected_tags(
                        sts.skip(i + 1)[0],
                    )[0]);
                    assert(sts.skip(i + 1)[0] == st2);
                }
                lemma_selected_origin(st2.values, st2.values.len() as int, 0);
                let j2 = sel_origin(st2.values, st2.values.len() as int, 0);
                assert(st2.values[j2].0 == cats[i + 1].values[j2]);
                if def.values.contains(tokens[p + n]) {
                    let j1 = choose|j1: int|
                        0 <= j1 < def.values.len() && def.values[j1] == tokens[p + n];
                    assert(cats[i].values[j1] == cats[i + 1].values[j2]);
                    assert(tags_unique(cats));
                    assert(false);
                }
            }
        }

        lemma_drain_exact(tokens, p, def.values, n);
        let run = tokens.subrange(p, p + n);
        assert(run =~= sel) by {
            assert(forall|t: int| 0 <= t < n ==> run[t] == #[trigger] tokens[p + t]);
        }

        // The rebuilt category equals the original selection category.
        let ui = UiCategoryView {
            name: def.name,
            values: Seq::new(
                def.values.len(),
                |j: int| (def.values[j], run.contains(def.values[j])),
            ),
        };
        assert forall|j: int| 0 <= j < st.values.len() implies ui.values[j] == #[trigger] st
            .values[j] by {
            assert(st.values[j].0 == def.values[j]);
            if st.values[j].1 {
                lemma_selected_mem(st.values, st.values.len() as int, j);
                assert(sel.contains(st.values[j].0));
                assert(run.contains(def.values[j]));
            } else {
                if run.contains(def.values[j]) {
                    let x = choose|x: int| 0 <= x < sel.len() && sel[x] == def.values[j];
                    lemma_selected_origin(st.values, st.values.len() as int, x);
                    let j2 = sel_origin(st.values, st.values.len() as int, x);
                    assert(st.values[j2].0 == def.values[j2]);
                    assert(def.values[j2] == def.values[j]);
                    assert(tags_unique(cats));
                    if j2 != j {
                        assert(cats[i].values[j2] != cats[i].values[j]);
                        assert(false);
                    }
                    assert(st.values[j].1);
                    assert(false);
                }
            }
        }
        assert(ui =~= st);

        // Recurse past this category's run.
        assert(tokens.skip(p + n) == flatten_selected(sts.skip(i + 1))) by {
            assert(tokens.skip(p + n) =~= tokens.skip(p).skip(n));
            assert(tokens.skip(p).skip(n) =~= flatten_selected(sts.skip(i + 1)));
        }
        lemma_parse_cats(schema, state, tokens, i + 1, p + n);
        assert(cats.skip(i)[0] == def);
        assert(cats.skip(i).drop_first() =~= cats.skip(i + 1));
        assert(parse_cats(cats.skip(i), tokens, p).0 =~= sts.skip(i)) by {
            assert(parse_cats(cats.skip(i), tokens, p).0 =~= seq![ui] + sts.skip(i + 1));
            assert(seq![st] + sts.skip(i + 1) =~= sts.skip(i));
        }
    }
}

/// Round trip: parsing a filename produced by `selection_to_filename` with
/// the same schema reproduces the selection exactly, salt included. This
/// holds for every validated schema whose delimiter is a single character,
/// and every selection that mirrors the schema, keeps the delimiter
/// character out of its salt, has at least one tag selected in every
/// category, and serializes successfully (that is, satisfies every
/// category's requirement).
pub proof fn lemma_round_trip(schema: SchemaView, state: StateView, f: Seq<char>)
    requires
        wf_schema(schema),
        state_mirrors(state.categories, schema.categories),
        schema.delim.len() == 1,
        !state.salt.contains(schema.delim[0]),
        forall|i: int|
            0 <= i < state.categories.len() ==> selected_tags(
                #[trigger] state.categories[i],
            ).len() >= 1,
        spec_selection_to_filename(schema, state) == Ok::<_, GenerateFilenameErrorView>(f),
    ensures
        spec_parse(schema, f) == Ok::<_, FilenameParseErrorView>(state),
{
    let d = schema.delim;
    let body = encode_cats(schema, state.categories)->Ok_0;
    let flat = flatten_selected(state.categories);
    lemma_encode_body(schema, state.categories, body);

    // The whole serialized string is a block of tokens, each followed by the
    // delimiter: the salt, then every selected tag in order.
    let parts = seq![state.salt] + flat;
    let whole = state.salt + d + body;
    assert(whole =~= tags_block(parts, d)) by {
        lemma_tags_block_concat(seq![state.salt], flat, d);
        assert(seq![state.salt].drop_first() =~= Seq::<Seq<char>>::empty());
        assert(tags_block(Seq::<Seq<char>>::empty(), d) =~= Seq::<char>::empty());
        assert(tags_block(seq![state.salt], d) =~= state.salt + d);
    }
    assert(whole.len() >= 1) by {
        lemma_tags_block_len(parts, d);
    }
    assert(f == whole.drop_last());
    lemma_block_join(parts, d);
    assert(f == spec_join(parts, d));

    // No part contains the delimiter character: the salt by assumption, the
    // tags by validation.
    assert forall|x: int| 0 <= x < parts.len() implies !(#[trigger] parts[x]).contains(d[0]) by {
        if x > 0 {
            let t = x - 1;
            assert(parts[x] == flat[t]);
            lemma_flat_tags_delim_free(schema, state, t);
        }
    }
    lemma_split_join(parts, d);
    assert(spec_split(f, d) == parts);

    // The greedy parse consumes exactly the selected runs.
    assert(parts.skip(1) =~= flat);
    assert(state.categories.skip(0) =~= state.categories);
    lemma_parse_cats(schema, state, parts, 0, 1);
    assert(schema.categories.skip(0) =~= schema.categories);
    assert(parse_cats(schema.categories, parts, 1) == (state.categories, parts.len() as int));
    assert(parts[0] == state.salt);
    assert(spec_parse(schema, f) == Ok::<_, FilenameParseErrorView>(
        StateView { salt: state.salt, categories: state.categories },
    ));
    assert(StateView { salt: state.salt, categories: state.categories } =~= state);
}

/// Every token of the flattened selection is a schema tag, hence free of the
/// single-character delimiter.
proof fn lemma_flat_tags_delim_free(schema: SchemaView, state: StateView, t: int)
    requires
        wf_schema(schema),
        state_mirrors(state.categories, schema.categories),
        schema.delim.len() == 1,
        0 <= t < flatten_selected(state.categories).len(),
    ensures
        !(flatten_selected(state.categories)[t]).contains(schema.delim[0]),
{
    lemma_flat_tag_origin(state.categories, t);
    let (i, j) = choose|i: int, j: int|
        0 <= i < state.categories.len() && 0 <= j < state.categories[i].values.len() && (
        #[trigger] state.categories[i].values[j]).0 == flatten_selected(state.categories)[t];
    assert(state.categories[i].values[j].0 == schema.categories[i].values[j]);
    assert(!has_occurrence(schema.categories[i].values[j], schema.delim));
    lemma_single_char_occurrence(schema.categories[i].values[j], schema.delim);
}

/// Every token of the flattened selection is the tag of some entry of some
/// category.
proof fn lemma_flat_tag_origin(cats: Seq<UiCategoryView>, t: int)
    requires
        0 <= t < flatten_selected(cats).len(),
    ensures
        exists|i: int, j: int|
            0 <= i < cats.len() && 0 <= j < cats[i].values.len() && (
            #[trigger] cats[i].values[j]).0 == flatten_selected(cats)[t],
    decreases cats.len(),
{
    let flat = flatten_selected(cats);
    let sel = selected_tags(cats[0]);
    if t < sel.len() {
        assert(flat[t] == sel[t]);
        lemma_selected_origin(cats[0].values, cats[0].values.len() as int, t);
        let j = sel_origin(cats[0].values, cats[0].values.len() as int, t);
        assert(0 <= 0 < cats.len() && 0 <= j < cats[0].values.len() && cats[0].values[j].0
            == flat[t]);
    } else {
        let rest = cats.drop_first();
        assert(flat[t] == flatten_selected(rest)[t - sel.len()]);
        lemma_flat_tag_origin(rest, t - sel.len());
        let (i0, j0) = choose|i0: int, j0: int|
            0 <= i0 < rest.len() && 0 <= j0 < rest[i0].values.len() && (
            #[trigger] rest[i0].values[j0]).0 == flatten_selected(rest)[t - sel.len()];
        assert(rest[i0] == cats[i0 + 1]);
        assert(0 <= i0 + 1 < cats.len() && 0 <= j0 < cats[i0 + 1].values.len() && cats[i0
            + 1].values[j0].0 == flat[t]);
    }
}

} // verus!
