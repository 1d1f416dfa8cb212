//! Character-sequence utilities shared by the validator and the filename
//! codec: substring occurrence, splitting on a delimiter, and joining with
//! a delimiter.

use vstd::prelude::*;

verus! {

/// `pat` occurs in `hay` starting at index `i`.
pub open spec fn occurs_at(hay: Seq<char>, pat: Seq<char>, i: int) -> bool {
    &&& 0 <= i
    &&& i + pat.len() <= hay.len()
    &&& hay.subrange(i, i + pat.len()) == pat
}

/// `pat` occurs somewhere in `hay`.
pub open spec fn has_occurrence(hay: Seq<char>, pat: Seq<char>) -> bool {
    exists|i: int| occurs_at(hay, pat, i)
}

/// The first index at or after `i` where `pat` occurs in `hay`, if any.
pub open spec fn find_from(hay: Seq<char>, pat: Seq<char>, i: int) -> Option<int>
    decreases hay.len() - i + 1,
{
    if i + pat.len() > hay.len() {
        None
    } else if occurs_at(hay, pat, i) {
        Some(i)
    } else {
        find_from(hay, pat, i + 1)
    }
}

/// Split `s` on non-overlapping, leftmost-first occurrences of `d`, keeping
/// empty pieces, as `str::split` does with a string pattern. The result
/// always has at least one piece.
pub open spec fn spec_split(s: Seq<char>, d: Seq<char>) -> Seq<Seq<char>>
    decreases s.len(),
{
    if d.len() == 0 {
        seq![s]
    } else {
        match find_from(s, d, 0) {
            None => seq![s],
            Some(i) => if 0 <= i && i + d.len() <= s.len() {
                seq![s.subrange(0, i)] + spec_split(s.skip(i + d.len()), d)
            } else {
                seq![s]
            },
        }
    }
}

/// Join pieces with `d` between each adjacent pair.
pub open spec fn spec_join(parts: Seq<Seq<char>>, d: Seq<char>) -> Seq<char>
    decreases parts.len(),
{
    if parts.len() == 0 {
        Seq::empty()
    } else if parts.len() == 1 {
        parts[0]
    } else {
        parts[0] + d + spec_join(parts.drop_first(), d)
    }
}

pub proof fn lemma_split_len(s: Seq<char>, d: Seq<char>)
    ensures
        spec_split(s, d).len() >= 1,
    decreases s.len(),
{
    if d.len() != 0 {
        match find_from(s, d, 0) {
            None => {},
            Some(i) => {},
        }
    }
}

/// A successful `find_from` names a real occurrence, the first one at or
/// after the starting index.
pub proof fn lemma_find_from_some(hay: Seq<char>, pat: Seq<char>, start: int, i: int)
    requires
        find_from(hay, pat, start) == Some(i),
    ensures
        start <= i,
        occurs_at(hay, pat, i),
        forall|j: int| start <= j < i ==> !occurs_at(hay, pat, j),
    decreases hay.len() - start + 1,
{
    if start + pat.len() > hay.len() {
    } else if occurs_at(hay, pat, start) {
    } else {
        lemma_find_from_some(hay, pat, start + 1, i);
    }
}

/// A failed `find_from` means no occurrence at or after the starting index.
pub proof fn lemma_find_from_none(hay: Seq<char>, pat: Seq<char>, start: int)
    requires
        find_from(hay, pat, start) is None,
    ensures
        forall|j: int| start <= j ==> !occurs_at(hay, pat, j),
    decreases hay.len() - start + 1,
{
    if start + pat.len() > hay.len() {
        assert forall|j: int| start <= j implies !occurs_at(hay, pat, j) by {}
    } else if occurs_at(hay, pat, start) {
    } else {
        lemma_find_from_none(hay, pat, start + 1);
    }
}

/// Character-for-character string equality.
pub fn str_eq(a: &str, b: &str) -> (r: bool)
    ensures
        r == (a@ == b@),
{
    let alen = a.unicode_len();
    let blen = b.unicode_len();
    if alen != blen {
        return false;
    }
    let mut i: usize = 0;
    while i < alen
        invariant
            alen == a@.len(),
            alen == b@.len(),
            0 <= i <= alen,
            forall|j: int| 0 <= j < i ==> a@[j] == b@[j],
        decreases alen - i,
    {
        if a.get_char(i) != b.get_char(i) {
            assert(a@ != b@) by {
                assert(a@[i as int] != b@[i as int]);
            }
            return false;
        }
        i = i + 1;
    }
    assert(a@ =~= b@);
    true
}

/// Whether some element of `v` equals `x`, character for character.
pub fn vec_contains_str(v: &Vec<String>, x: &str) -> (r: bool)
    ensures
        r == v.deep_view().contains(x@),
{
    let mut i: usize = 0;
    while i < v.len()
        invariant
            0 <= i <= v.len(),
            forall|j: int| 0 <= j < i ==> v.deep_view()[j] != x@,
        decreases v.len() - i,
    {
        if str_eq(v[i].as_str(), x) {
            assert(v.deep_view()[i as int] == x@);
            assert(v.deep_view().contains(x@));
            return true;
        }
        i = i + 1;
    }
    assert(forall|j: int| 0 <= j < v.deep_view().len() ==> v.deep_view()[j] != x@);
    false
}

/// Whether `pat` occurs in `hay` starting exactly at `i`.
fn occurs_at_exec(hay: &str, pat: &str, i: usize) -> (r: bool)
    requires
        i + pat@.len() <= hay@.len(),
    ensures
        r == occurs_at(hay@, pat@, i as int),
{
    let hlen = hay.unicode_len();
    let plen = pat.unicode_len();
    let mut j: usize = 0;
    while j < plen
        invariant
            hlen == hay@.len(),
            plen == pat@.len(),
            i + plen <= hlen,
            0 <= j <= plen,
            forall|k: int| 0 <= k < j ==> hay@[i + k] == pat@[k],
        decreases plen - j,
    {
        if hay.get_char(i + j) != pat.get_char(j) {
            assert(!occurs_at(hay@, pat@, i as int)) by {
                assert(hay@.subrange(i as int, i + pat@.len())[j as int] != pat@[j as int]);
            }
            return false;
        }
        j = j + 1;
    }
    assert(hay@.subrange(i as int, i + pat@.len()) =~= pat@);
    true
}

/// The first index at or after `from` where `pat` occurs in `hay`.
pub fn find_occurrence(hay: &str, pat: &str, from: usize) -> (r: Option<usize>)
    requires
        pat@.len() >= 1,
    ensures
        match r {
            Some(i) => find_from(hay@, pat@, from as int) == Some(i as int) && from <= i
                && i + pat@.len() <= hay@.len(),
            None => find_from(hay@, pat@, from as int) is None,
        },
{
    let hlen = hay.unicode_len();
    let plen = pat.unicode_len();
    if from > hlen || plen > hlen - from {
        assert(find_from(hay@, pat@, from as int) is None);
        return None;
    }
    let mut i: usize = from;
    while i <= hlen - plen
        invariant
            hlen == hay@.len(),
            plen == pat@.len(),
            1 <= plen,
            plen <= hlen,
            from <= i,
            i <= hlen - plen + 1,
            find_from(hay@, pat@, from as int) == find_from(hay@, pat@, i as int),
        decreases hlen - i,
    {
        if occurs_at_exec(hay, pat, i) {
            return Some(i);
        }
        i = i + 1;
    }
    assert(find_from(hay@, pat@, i as int) is None);
    None
}

/// Whether `pat` occurs anywhere in `hay`.
pub fn contains_substr(hay: &str, pat: &str) -> (r: bool)
    requires
        pat@.len() >= 1,
    ensures
        r == has_occurrence(hay@, pat@),
{
    match find_occurrence(hay, pat, 0) {
        Some(i) => {
            proof {
                lemma_find_from_some(hay@, pat@, 0, i as int);
            }
            true
        },
        None => {
            proof {
                lemma_find_from_none(hay@, pat@, 0);
                assert forall|j: int| !occurs_at(hay@, pat@, j) by {
                    if j < 0 {
                    } else {
                    }
                }
            }
            false
        },
    }
}

/// Split `s` on `d` as `str::split` does: leftmost-first, non-overlapping,
/// empty pieces kept.
pub fn split_str(s: &str, d: &str) -> (r: Vec<String>)
    requires
        d@.len() >= 1,
    ensures
        r.deep_view() == spec_split(s@, d@),
        r.len() >= 1,
{
    let slen = s.unicode_len();
    let mut parts: Vec<String> = Vec::new();
    let mut start: usize = 0;
    proof {
        assert(s@.skip(0) =~= s@);
        assert(parts.deep_view() =~= Seq::<Seq<char>>::empty());
    }
    loop
        invariant_except_break
            spec_split(s@, d@) =~= parts.deep_view() + spec_split(s@.skip(start as int), d@),
        invariant
            slen == s@.len(),
            d@.len() >= 1,
            0 <= start <= slen,
        ensures
            parts.deep_view() =~= spec_split(s@, d@),
        decreases slen - start,
    {
        let ghost rest = s@.skip(start as int);
        let ghost old_parts = parts.deep_view();
        match find_occurrence(s, d, start) {
            None => {
                proof {
                    lemma_find_shift(s@, d@, start as int);
                    assert(find_from(rest, d@, 0) is None);
                    assert(spec_split(rest, d@) =~= seq![rest]);
                }
                let piece = s.substring_char(start, slen).to_owned();
                assert(piece@ =~= rest);
                parts.push(piece);
                proof {
                    assert(parts.deep_view() =~= old_parts.push(rest));
                    assert(parts.deep_view() =~= spec_split(s@, d@));
                }
                break;
            },
            Some(i) => {
                proof {
                    lemma_find_shift(s@, d@, start as int);
                    assert(find_from(rest, d@, 0) == Some(i - start));
                }
                let piece = s.substring_char(start, i).to_owned();
                proof {
                    assert(piece@ =~= rest.subrange(0, i - start));
                }
                parts.push(piece);
                let dlen = d.unicode_len();
                let ghost old_start = start as int;
                start = i + dlen;
                proof {
                    assert(parts.deep_view() =~= old_parts.push(piece@));
                    assert(rest.skip(i - old_start + d@.len()) =~= s@.skip(start as int));
                    assert(spec_split(rest, d@) =~= seq![piece@] + spec_split(
                        s@.skip(start as int),
                        d@,
                    ));
                    assert(spec_split(s@, d@) =~= parts.deep_view() + spec_split(
                        s@.skip(start as int),
                        d@,
                    ));
                }
            },
        }
    }
    proof {
        lemma_split_len(s@, d@);
        assert(parts.deep_view().len() == parts.len());
    }
    parts
}

/// Occurrences at or after `start` in `hay` are occurrences of the suffix
/// `hay.skip(start)`, shifted by `start`; the first of one is the first of
/// the other.
pub proof fn lemma_find_shift(hay: Seq<char>, pat: Seq<char>, start: int)
    requires
        0 <= start <= hay.len(),
    ensures
        match find_from(hay, pat, start) {
            None => find_from(hay.skip(start), pat, 0) is None,
            Some(i) => find_from(hay.skip(start), pat, 0) == Some(i - start),
        },
{
    lemma_find_shift_aux(hay, pat, start, start);
}

proof fn lemma_find_shift_aux(hay: Seq<char>, pat: Seq<char>, start: int, i: int)
    requires
        0 <= start <= i,
        start <= hay.len(),
    ensures
        match find_from(hay, pat, i) {
            None => find_from(hay.skip(start), pat, i - start) is None,
            Some(j) => find_from(hay.skip(start), pat, i - start) == Some(j - start),
        },
    decreases hay.len() - i + 1,
{
    let rest = hay.skip(start);
    assert(rest.len() == hay.len() - start);
    if i + pat.len() > hay.len() {
        assert(i - start + pat.len() > rest.len());
    } else {
        lemma_occurs_shift(hay, pat, start, i);
        if occurs_at(hay, pat, i) {
        } else {
            lemma_find_shift_aux(hay, pat, start, i + 1);
        }
    }
}

/// An occurrence at `i >= start` in `hay` is an occurrence at `i - start`
/// in `hay.skip(start)`.
pub proof fn lemma_occurs_shift(hay: Seq<char>, pat: Seq<char>, start: int, i: int)
    requires
        0 <= start <= i,
        start <= hay.len(),
        i + pat.len() <= hay.len(),
    ensures
        occurs_at(hay, pat, i) == occurs_at(hay.skip(start), pat, i - start),
{
    let rest = hay.skip(start);
    assert(rest.subrange(i - start, i - start + pat.len()) =~= hay.subrange(i, i + pat.len()));
}

} // verus!
