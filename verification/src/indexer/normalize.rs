//! Normalization of code text: removing byte ranges (comments, docstrings) and
//! renaming tokens to `var<n>` / `func<n>` by order of first appearance.
use crate::indexer::text::{
    append_bytes, apply_edit_list, apply_edits, bytes_to_string, char_boundary, copy_range, decimal,
    decimal_bytes, edit_ok, edits_view, inserts_valid, law_sort_desc_sorted_permutation,
    lemma_apply_edits_valid, lemma_ascii_valid_utf8, lemma_decimal_digits, lemma_splice_valid,
    sort_desc_by_start, sort_ranges_desc, sorted_desc, splice, str_equal, string_bytes, utf8_bytes,
    Edit,
};
use vstd::prelude::*;
use vstd::string::*;
use vstd::utf8::*;

verus! {

broadcast use vstd::utf8::group_utf8_lib;

/// Decodes the bytes of a successful result.
pub open spec fn decoded(r: Option<Seq<u8>>) -> Option<Seq<char>> {
    match r {
        Some(b) => Some(decode_utf8(b)),
        None => None,
    }
}

/// Edits that delete the given ranges.
pub open spec fn removal_edits(rs: Seq<(usize, usize)>) -> Seq<(usize, usize, Seq<u8>)> {
    rs.map_values(|r: (usize, usize)| (r.0, r.1, Seq::<u8>::empty()))
}

/// The code with the given byte ranges deleted one after another, from the
/// range that starts last to the one that starts first; `None` when a deletion
/// is not accepted on the text it applies to.
pub open spec fn stripped(code: Seq<char>, ranges: Seq<(usize, usize)>) -> Option<Seq<char>> {
    decoded(apply_edits(utf8_bytes(code), removal_edits(sort_desc_by_start(ranges))))
}

/// Deletes the byte ranges from the code, from the last start to the first.
pub fn strip_ranges(code: &String, ranges: &Vec<(usize, usize)>) -> (r: Option<String>)
    ensures
        match stripped(code@, ranges@) {
            Some(s) => r matches Some(t) && t@ == s,
            None => r is None,
        },
{
    let sorted = sort_ranges_desc(ranges);
    let mut edits: Vec<Edit> = Vec::new();
    let mut k: usize = 0;
    while k < sorted.len()
        invariant
            k <= sorted@.len(),
            edits@.len() == k,
            edits_view(edits@) == removal_edits(sorted@.take(k as int)),
        decreases sorted@.len() - k,
    {
        let empty: Vec<u8> = Vec::new();
        assert(empty@ =~= Seq::<u8>::empty());
        let ghost prev = edits@;
        edits.push((sorted[k].0, sorted[k].1, empty));
        assert(edits@ == prev.push((sorted@[k as int].0, sorted@[k as int].1, empty)));
        assert forall|i: int| 0 <= i < k + 1 implies #[trigger] edits_view(edits@)[i] == removal_edits(
            sorted@.take(k + 1),
        )[i] by {
            if i < k {
                assert(edits_view(edits@)[i] == edits_view(prev)[i]);
            }
        }
        assert(edits_view(edits@) =~= removal_edits(sorted@.take(k + 1)));
        k = k + 1;
    }
    assert(sorted@.take(sorted@.len() as int) =~= sorted@);
    let ghost es = edits_view(edits@);
    assert forall|i: int| 0 <= i < es.len() implies valid_utf8(#[trigger] es[i].2) by {
        assert(es[i].2 =~= Seq::<u8>::empty());
    }
    let bytes = string_bytes(code);
    match apply_edit_list(bytes, &edits) {
        Some(b) => {
            proof {
                lemma_apply_edits_valid(utf8_bytes(code@), es);
            }
            Some(bytes_to_string(b))
        },
        None => None,
    }
}

/// The bytes of each range of the text.
pub open spec fn token_texts(b: Seq<u8>, toks: Seq<(usize, usize)>) -> Seq<Seq<u8>> {
    toks.map_values(|r: (usize, usize)| b.subrange(r.0 as int, r.1 as int))
}

/// Every range can be sliced out of the text.
pub open spec fn slices_ok(b: Seq<u8>, toks: Seq<(usize, usize)>) -> bool {
    forall|k: int| 0 <= k < toks.len() ==> edit_ok(b, #[trigger] toks[k].0 as int, toks[k].1 as int)
}

/// The distinct texts in order of first appearance.
pub open spec fn first_appearances(texts: Seq<Seq<u8>>) -> Seq<Seq<u8>>
    decreases texts.len(),
{
    if texts.len() == 0 {
        Seq::empty()
    } else {
        let d = first_appearances(texts.drop_last());
        if d.contains(texts.last()) {
            d
        } else {
            d.push(texts.last())
        }
    }
}

/// The index of the first occurrence of `t` in `d`.
pub open spec fn index_in(d: Seq<Seq<u8>>, t: Seq<u8>) -> int
    decreases d.len(),
{
    if d.len() == 0 {
        0
    } else if d[0] == t {
        0
    } else {
        1 + index_in(d.drop_first(), t)
    }
}

/// The name given to the `k`-th token: the prefix and the rank of its text
/// among the distinct texts in order of first appearance, counted from 1.
pub open spec fn token_name(prefix: Seq<u8>, texts: Seq<Seq<u8>>, k: int) -> Seq<u8> {
    prefix + decimal((index_in(first_appearances(texts), texts[k]) + 1) as nat)
}

/// Edits that replace each token by its name.
pub open spec fn renaming_edits(b: Seq<u8>, toks: Seq<(usize, usize)>, prefix: Seq<u8>) -> Seq<
    (usize, usize, Seq<u8>),
> {
    Seq::new(
        toks.len(),
        |k: int| (toks[k].0, toks[k].1, token_name(prefix, token_texts(b, toks), k)),
    )
}

/// The code with each token renamed: the tokens are ordered by decreasing start,
/// `identifier` tokens become `var<n>` and `function` tokens `func<n>`, where `n`
/// numbers the distinct token texts in that order; a token type of another name
/// leaves the code as it is. `None` when a token cannot be sliced out of the code
/// or a replacement is not accepted on the text it applies to.
pub open spec fn replaced(code: Seq<char>, toks: Seq<(usize, usize)>, ty: Seq<char>) -> Option<
    Seq<char>,
> {
    let b = utf8_bytes(code);
    let sorted = sort_desc_by_start(toks);
    if !slices_ok(b, sorted) {
        None
    } else if ty == "identifier"@ {
        decoded(apply_edits(b, renaming_edits(b, sorted, utf8_bytes("var"@))))
    } else if ty == "function"@ {
        decoded(apply_edits(b, renaming_edits(b, sorted, utf8_bytes("func"@))))
    } else {
        Some(code)
    }
}

pub open spec fn texts_view(v: Seq<Vec<u8>>) -> Seq<Seq<u8>> {
    v.map_values(|t: Vec<u8>| t@)
}

/// Whether two byte vectors are equal.
pub fn bytes_equal(a: &Vec<u8>, b: &Vec<u8>) -> (r: bool)
    ensures
        r == (a@ == b@),
{
    if a.len() != b.len() {
        return false;
    }
    let mut i: usize = 0;
    while i < a.len()
        invariant
            i <= a@.len(),
            a@.len() == b@.len(),
            forall|j: int| 0 <= j < i ==> a@[j] == b@[j],
        decreases a@.len() - i,
    {
        if a[i] != b[i] {
            return false;
        }
        i = i + 1;
    }
    assert(a@ =~= b@);
    true
}

/// `index_in` finds the first occurrence.
pub proof fn lemma_index_in_at(d: Seq<Seq<u8>>, t: Seq<u8>, p: int)
    requires
        0 <= p < d.len(),
        d[p] == t,
        forall|i: int| 0 <= i < p ==> d[i] != t,
    ensures
        index_in(d, t) == p,
    decreases p,
{
    if p > 0 {
        assert(d[0] != t);
        lemma_index_in_at(d.drop_first(), t, p - 1);
    }
}

/// `index_in` of a contained text points at it.
pub proof fn lemma_index_in_contains(d: Seq<Seq<u8>>, t: Seq<u8>)
    requires
        d.contains(t),
    ensures
        0 <= index_in(d, t) < d.len(),
        d[index_in(d, t)] == t,
        forall|i: int| 0 <= i < index_in(d, t) ==> d[i] != t,
    decreases d.len(),
{
    if d[0] != t {
        let j = choose|j: int| 0 <= j < d.len() && d[j] == t;
        assert(d.drop_first()[j - 1] == t);
        lemma_index_in_contains(d.drop_first(), t);
        assert forall|i: int| 0 <= i < index_in(d, t) implies d[i] != t by {
            if i > 0 {
                assert(d[i] == d.drop_first()[i - 1]);
            }
        }
    }
}

/// Looks `text` up among the distinct texts, adding it when it is new; returns its index.
pub fn lookup_or_add(seen: &mut Vec<Vec<u8>>, text: Vec<u8>) -> (r: usize)
    ensures
        texts_view(final(seen)@) == if texts_view(old(seen)@).contains(text@) {
            texts_view(old(seen)@)
        } else {
            texts_view(old(seen)@).push(text@)
        },
        r == index_in(texts_view(final(seen)@), text@),
        r < final(seen)@.len(),
{
    let ghost d = texts_view(seen@);
    let mut j: usize = 0;
    while j < seen.len()
        invariant
            j <= seen@.len(),
            d == texts_view(seen@),
            forall|i: int| 0 <= i < j ==> d[i] != text@,
        decreases seen@.len() - j,
    {
        if bytes_equal(&seen[j], &text) {
            proof {
                assert(d[j as int] == seen@[j as int]@);
                lemma_index_in_at(d, text@, j as int);
                assert(d.contains(text@));
            }
            return j;
        }
        j = j + 1;
    }
    let ghost t = text@;
    assert(!d.contains(t));
    let n = seen.len();
    seen.push(text);
    proof {
        assert(texts_view(seen@) =~= d.push(t));
        lemma_index_in_at(d.push(t), t, n as int);
    }
    n
}

/// There are no more distinct texts than texts.
pub proof fn lemma_first_appearances_len(texts: Seq<Seq<u8>>)
    ensures
        first_appearances(texts).len() <= texts.len(),
    decreases texts.len(),
{
    if texts.len() > 0 {
        lemma_first_appearances_len(texts.drop_last());
    }
}

/// `a` is a prefix of `b`.
pub open spec fn prefix_of(a: Seq<Seq<u8>>, b: Seq<Seq<u8>>) -> bool {
    a.len() <= b.len() && forall|i: int| 0 <= i < a.len() ==> a[i] == b[i]
}

/// The first appearances among a prefix of the texts are a prefix of all first appearances.
pub proof fn lemma_first_appearances_prefix(texts: Seq<Seq<u8>>, m: int)
    requires
        0 <= m <= texts.len(),
    ensures
        prefix_of(first_appearances(texts.take(m)), first_appearances(texts)),
    decreases texts.len() - m,
{
    if m < texts.len() {
        lemma_first_appearances_prefix(texts, m + 1);
        assert(texts.take(m + 1).drop_last() =~= texts.take(m));
    } else {
        assert(texts.take(m) =~= texts);
    }
}

/// Each text occurs among the first appearances up to and including it.
pub proof fn lemma_first_appearances_contains(texts: Seq<Seq<u8>>, k: int)
    requires
        0 <= k < texts.len(),
    ensures
        first_appearances(texts.take(k + 1)).contains(texts[k]),
{
    let s = texts.take(k + 1);
    assert(s.drop_last() =~= texts.take(k));
    assert(s.last() == texts[k]);
    let d = first_appearances(s.drop_last());
    if !d.contains(s.last()) {
        assert(d.push(s.last())[d.len() as int] == s.last());
    }
}

/// The index of a text among a prefix that holds it is its index in the whole.
pub proof fn lemma_index_in_prefix(a: Seq<Seq<u8>>, b: Seq<Seq<u8>>, t: Seq<u8>)
    requires
        prefix_of(a, b),
        a.contains(t),
    ensures
        index_in(a, t) == index_in(b, t),
{
    lemma_index_in_contains(a, t);
    let p = index_in(a, t);
    lemma_index_in_at(b, t, p);
}

/// Renames the tokens of the code (see `replaced`).
pub fn replace_token(code: String, tokens: &Vec<(usize, usize)>, token_type: &str) -> (r: Option<
    String,
>)
    ensures
        match replaced(code@, tokens@, token_type@) {
            Some(s) => r matches Some(t) && t@ == s,
            None => r is None,
        },
{
    let bytes = string_bytes(&code);
    let sorted = sort_ranges_desc(tokens);
    let ghost b = bytes@;
    let ghost toks = sorted@;
    let mut k: usize = 0;
    while k < sorted.len()
        invariant
            k <= toks.len(),
            toks == sorted@,
            toks == sort_desc_by_start(tokens@),
            b == bytes@,
            b == utf8_bytes(code@),
            valid_utf8(b),
            forall|j: int| 0 <= j < k ==> edit_ok(b, #[trigger] toks[j].0 as int, toks[j].1 as int),
        decreases toks.len() - k,
    {
        let s = sorted[k].0;
        let e = sorted[k].1;
        if !(s <= e && char_boundary(&bytes, s) && char_boundary(&bytes, e)) {
            assert(!edit_ok(b, toks[k as int].0 as int, toks[k as int].1 as int));
            assert(!slices_ok(b, toks));
            assert(replaced(code@, tokens@, token_type@) is None);
            return None;
        }
        k = k + 1;
    }
    assert(slices_ok(b, toks));
    let prefix: Vec<u8> = if str_equal(token_type, "identifier") {
        "var".as_bytes_vec()
    } else if str_equal(token_type, "function") {
        "func".as_bytes_vec()
    } else {
        return Some(code);
    };
    let ghost texts = token_texts(b, toks);
    let ghost target = renaming_edits(b, toks, prefix@);
    let mut seen: Vec<Vec<u8>> = Vec::new();
    let mut edits: Vec<Edit> = Vec::new();
    k = 0;
    assert(texts.take(0) =~= Seq::<Seq<u8>>::empty());
    while k < sorted.len()
        invariant
            k <= toks.len(),
            toks == sorted@,
            b == bytes@,
            valid_utf8(b),
            valid_utf8(prefix@),
            slices_ok(b, toks),
            texts == token_texts(b, toks),
            target == renaming_edits(b, toks, prefix@),
            texts_view(seen@) == first_appearances(texts.take(k as int)),
            edits@.len() == k,
            edits_view(edits@) == target.take(k as int),
            forall|j: int| 0 <= j < k ==> valid_utf8(#[trigger] edits_view(edits@)[j].2),
        decreases toks.len() - k,
    {
        let s = sorted[k].0;
        let e = sorted[k].1;
        assert(edit_ok(b, toks[k as int].0 as int, toks[k as int].1 as int));
        proof {
            crate::indexer::declarations::lemma_subrange_valid(b, s as int, e as int);
        }
        let text = copy_range(&bytes, s, e);
        assert(text@ == texts[k as int]);
        let idx = lookup_or_add(&mut seen, text);
        proof {
            assert(texts.take(k + 1).drop_last() =~= texts.take(k as int));
            assert(texts.take(k + 1).last() == texts[k as int]);
            lemma_first_appearances_contains(texts, k as int);
            lemma_first_appearances_prefix(texts, k + 1);
            lemma_index_in_prefix(
                first_appearances(texts.take(k + 1)),
                first_appearances(texts),
                texts[k as int],
            );
        }
        proof {
            lemma_first_appearances_len(texts.take(k + 1));
        }
        let number = decimal_bytes(idx + 1);
        let mut name: Vec<u8> = Vec::new();
        append_bytes(&mut name, &prefix);
        append_bytes(&mut name, &number);
        proof {
            lemma_decimal_digits((idx + 1) as nat);
            let digits = decimal((idx + 1) as nat);
            assert forall|i: int| 0 <= i < digits.len() implies #[trigger] digits[i] < 0x80 by {
                assert(48 <= digits[i] <= 57);
            }
            lemma_ascii_valid_utf8(digits);
            valid_utf8_concat(prefix@, digits);
        }
        assert(texts_view(seen@) == first_appearances(texts.take(k + 1)));
        assert(idx == index_in(first_appearances(texts), texts[k as int]));
        assert(name@ == token_name(prefix@, texts, k as int));
        let ghost prev = edits@;
        edits.push((s, e, name));
        assert(edits@ == prev.push((s, e, name)));
        assert forall|i: int| 0 <= i < k + 1 implies #[trigger] edits_view(edits@)[i] == target.take(
            k + 1,
        )[i] by {
            if i < k {
                assert(edits_view(edits@)[i] == edits_view(prev)[i]);
            }
        }
        assert(edits_view(edits@) =~= target.take(k + 1));
        k = k + 1;
    }
    assert(target.take(toks.len() as int) =~= target);
    proof {
        assert(inserts_valid(edits_view(edits@)));
        encode_utf8_valid_utf8(code@);
    }
    match apply_edit_list(bytes, &edits) {
        Some(out) => {
            proof {
                lemma_apply_edits_valid(b, target);
            }
            Some(bytes_to_string(out))
        },
        None => None,
    }
}

/// The ranges of `s` that are not in `ex`, in order.
pub open spec fn without(s: Seq<(usize, usize)>, ex: Seq<(usize, usize)>) -> Seq<(usize, usize)>
    decreases s.len(),
{
    if s.len() == 0 {
        s
    } else if ex.contains(s.last()) {
        without(s.drop_last(), ex)
    } else {
        without(s.drop_last(), ex).push(s.last())
    }
}

/// The name of a text: the prefix and the rank of the text among the distinct
/// texts, in order of first appearance, counted from 1.
pub open spec fn name_for(prefix: Seq<u8>, texts: Seq<Seq<u8>>, t: Seq<u8>) -> Seq<u8> {
    prefix + decimal((index_in(first_appearances(texts), t) + 1) as nat)
}

/// The identifier ranges that are not declared names, then the declared names.
pub open spec fn all_names(all: Seq<(usize, usize)>, decl: Seq<(usize, usize)>) -> Seq<(usize, usize)> {
    without(all, decl) + decl
}

/// The renaming of each identifier range, ordered by decreasing start: a declared
/// name (of a function or class) becomes `func<n>`, `n` numbering the distinct
/// declared names taken from the end of the code; any other identifier becomes
/// `var<n>`, `n` numbering the distinct other identifiers the same way.
pub open spec fn renaming_plan(b: Seq<u8>, all: Seq<(usize, usize)>, decl: Seq<(usize, usize)>) -> Seq<
    (usize, usize, Seq<u8>),
> {
    let ids = sort_desc_by_start(without(all, decl));
    let ds = sort_desc_by_start(decl);
    let merged = sort_desc_by_start(all_names(all, decl));
    Seq::new(
        merged.len(),
        |k: int|
            (
                merged[k].0,
                merged[k].1,
                if decl.contains(merged[k]) {
                    name_for(
                        utf8_bytes("func"@),
                        token_texts(b, ds),
                        b.subrange(merged[k].0 as int, merged[k].1 as int),
                    )
                } else {
                    name_for(
                        utf8_bytes("var"@),
                        token_texts(b, ids),
                        b.subrange(merged[k].0 as int, merged[k].1 as int),
                    )
                },
            ),
    )
}

/// The code with every identifier renamed in place (see `renaming_plan`), the
/// renamings applied from the last start to the first; `None` when an identifier
/// cannot be sliced out of the code or a renaming is not accepted.
pub open spec fn renamed(code: Seq<char>, all: Seq<(usize, usize)>, decl: Seq<(usize, usize)>) -> Option<
    Seq<char>,
> {
    let b = utf8_bytes(code);
    if !slices_ok(b, sort_desc_by_start(all_names(all, decl))) {
        None
    } else {
        decoded(apply_edits(b, renaming_plan(b, all, decl)))
    }
}

/// Whether `r` is one of the ranges.
pub fn contains_range(v: &Vec<(usize, usize)>, r: (usize, usize)) -> (b: bool)
    ensures
        b == v@.contains(r),
{
    let mut i: usize = 0;
    while i < v.len()
        invariant
            i <= v@.len(),
            forall|j: int| 0 <= j < i ==> v@[j] != r,
        decreases v@.len() - i,
    {
        if v[i].0 == r.0 && v[i].1 == r.1 {
            assert(v@[i as int] == r);
            return true;
        }
        i = i + 1;
    }
    false
}

/// Renames every identifier in place: declared names to `func<n>`, the others to
/// `var<n>` (see `renamed`).
pub fn rename_identifiers(code: String, all: &Vec<(usize, usize)>, decl: &Vec<(usize, usize)>) -> (r:
    Option<String>)
    ensures
        match renamed(code@, all@, decl@) {
            Some(s) => r matches Some(t) && t@ == s,
            None => r is None,
        },
{
    let mut kept: Vec<(usize, usize)> = Vec::new();
    let mut i: usize = 0;
    assert(all@.take(0) =~= Seq::<(usize, usize)>::empty());
    while i < all.len()
        invariant
            i <= all@.len(),
            kept@ == without(all@.take(i as int), decl@),
        decreases all@.len() - i,
    {
        assert(all@.take(i + 1).drop_last() =~= all@.take(i as int));
        assert(all@.take(i + 1).last() == all@[i as int]);
        if !contains_range(decl, all[i]) {
            kept.push(all[i]);
        }
        i = i + 1;
    }
    assert(all@.take(all@.len() as int) =~= all@);
    let bytes = string_bytes(&code);
    let ghost b = bytes@;
    let mut both: Vec<(usize, usize)> = Vec::new();
    append_ranges(&mut both, &kept);
    append_ranges(&mut both, decl);
    assert(both@ =~= all_names(all@, decl@));
    let merged = sort_ranges_desc(&both);
    let mut k: usize = 0;
    while k < merged.len()
        invariant
            k <= merged@.len(),
            b == bytes@,
            b == utf8_bytes(code@),
            merged@ == sort_desc_by_start(both@),
            both@ == all_names(all@, decl@),
            valid_utf8(b),
            forall|j: int| 0 <= j < k ==> edit_ok(b, #[trigger] merged@[j].0 as int, merged@[j].1 as int),
        decreases merged@.len() - k,
    {
        let s = merged[k].0;
        let e = merged[k].1;
        if !(s <= e && char_boundary(&bytes, s) && char_boundary(&bytes, e)) {
            assert(!edit_ok(b, merged@[k as int].0 as int, merged@[k as int].1 as int));
            assert(!slices_ok(b, merged@));
            return None;
        }
        k = k + 1;
    }
    assert(slices_ok(b, merged@));
    let ids = sort_ranges_desc(&kept);
    let ds = sort_ranges_desc(decl);
    proof {
        lemma_sort_contains(kept@);
        lemma_sort_contains(decl@);
        lemma_sort_contains(both@);
        assert forall|j: int| 0 <= j < ids@.len() implies edit_ok(b, #[trigger] ids@[j].0 as int, ids@[j].1 as int) by {
            let r = ids@[j];
            assert(ids@.contains(r));
            let a = choose|a: int| 0 <= a < kept@.len() && kept@[a] == r;
            assert(both@[a] == r);
            assert(merged@.contains(r));
            let m = choose|m: int| 0 <= m < merged@.len() && merged@[m] == r;
            assert(edit_ok(b, merged@[m].0 as int, merged@[m].1 as int));
        }
        assert forall|j: int| 0 <= j < ds@.len() implies edit_ok(b, #[trigger] ds@[j].0 as int, ds@[j].1 as int) by {
            let r = ds@[j];
            assert(ds@.contains(r));
            let a = choose|a: int| 0 <= a < decl@.len() && decl@[a] == r;
            assert(both@[kept@.len() + a] == r);
            assert(merged@.contains(r));
            let m = choose|m: int| 0 <= m < merged@.len() && merged@[m] == r;
            assert(edit_ok(b, merged@[m].0 as int, merged@[m].1 as int));
        }
    }
    let var_seen = distinct_texts(&bytes, &ids);
    let func_seen = distinct_texts(&bytes, &ds);
    let var_prefix: Vec<u8> = "var".as_bytes_vec();
    let func_prefix: Vec<u8> = "func".as_bytes_vec();
    let ghost plan = renaming_plan(b, all@, decl@);
    let mut edits: Vec<Edit> = Vec::new();
    k = 0;
    while k < merged.len()
        invariant
            k <= merged@.len(),
            b == bytes@,
            b == utf8_bytes(code@),
            valid_utf8(b),
            slices_ok(b, merged@),
            merged@ == sort_desc_by_start(both@),
            both@ == all_names(all@, decl@),
            kept@ == without(all@, decl@),
            ids@ == sort_desc_by_start(kept@),
            ds@ == sort_desc_by_start(decl@),
            forall|v: (usize, usize)| #[trigger] ids@.contains(v) <==> kept@.contains(v),
            forall|v: (usize, usize)| #[trigger] ds@.contains(v) <==> decl@.contains(v),
            forall|v: (usize, usize)| #[trigger] merged@.contains(v) <==> both@.contains(v),
            texts_view(var_seen@) == first_appearances(token_texts(b, ids@)),
            texts_view(func_seen@) == first_appearances(token_texts(b, ds@)),
            var_prefix@ == utf8_bytes("var"@),
            func_prefix@ == utf8_bytes("func"@),
            plan == renaming_plan(b, all@, decl@),
            edits@.len() == k,
            edits_view(edits@) == plan.take(k as int),
            forall|j: int| 0 <= j < k ==> valid_utf8(#[trigger] edits_view(edits@)[j].2),
        decreases merged@.len() - k,
    {
        let r = merged[k];
        let s = r.0;
        let e = r.1;
        assert(edit_ok(b, merged@[k as int].0 as int, merged@[k as int].1 as int));
        proof {
            crate::indexer::declarations::lemma_subrange_valid(b, s as int, e as int);
        }
        let text = copy_range(&bytes, s, e);
        assert(merged@.contains(r));
        let in_decl = contains_range(decl, r);
        let ghost prefix_v = if in_decl { utf8_bytes("func"@) } else { utf8_bytes("var"@) };
        let idx = if in_decl {
            proof {
                assert(ds@.contains(r));
                let j = choose|j: int| 0 <= j < ds@.len() && ds@[j] == r;
                assert(token_texts(b, ds@)[j] == text@);
                lemma_first_appearances_cover(token_texts(b, ds@), j);
            }
            find_text(&func_seen, &text)
        } else {
            proof {
                assert(both@.contains(r));
                let a = choose|a: int| 0 <= a < both@.len() && both@[a] == r;
                if a >= kept@.len() {
                    assert(decl@[a - kept@.len()] == r);
                }
                assert(kept@[a] == r);
                assert(kept@.contains(r));
                assert(ids@.contains(r));
                let j = choose|j: int| 0 <= j < ids@.len() && ids@[j] == r;
                assert(token_texts(b, ids@)[j] == text@);
                lemma_first_appearances_cover(token_texts(b, ids@), j);
            }
            find_text(&var_seen, &text)
        };
        let number = decimal_bytes(idx + 1);
        let mut name: Vec<u8> = Vec::new();
        if in_decl {
            append_bytes(&mut name, &func_prefix);
        } else {
            append_bytes(&mut name, &var_prefix);
        }
        append_bytes(&mut name, &number);
        proof {
            lemma_decimal_digits((idx + 1) as nat);
            let digits = decimal((idx + 1) as nat);
            assert forall|i: int| 0 <= i < digits.len() implies #[trigger] digits[i] < 0x80 by {
                assert(48 <= digits[i] <= 57);
            }
            lemma_ascii_valid_utf8(digits);
            encode_utf8_valid_utf8("var"@);
            encode_utf8_valid_utf8("func"@);
            valid_utf8_concat(prefix_v, digits);
        }
        assert(name@ == plan[k as int].2);
        let ghost prev = edits@;
        edits.push((s, e, name));
        assert(edits@ == prev.push((s, e, name)));
        assert forall|i: int| 0 <= i < k + 1 implies #[trigger] edits_view(edits@)[i] == plan.take(
            k + 1,
        )[i] by {
            if i < k {
                assert(edits_view(edits@)[i] == edits_view(prev)[i]);
            }
        }
        assert(edits_view(edits@) =~= plan.take(k + 1));
        k = k + 1;
    }
    assert(plan.take(merged@.len() as int) =~= plan);
    proof {
        assert(inserts_valid(edits_view(edits@)));
        encode_utf8_valid_utf8(code@);
    }
    match apply_edit_list(bytes, &edits) {
        Some(out) => {
            proof {
                lemma_apply_edits_valid(b, plan);
            }
            Some(bytes_to_string(out))
        },
        None => None,
    }
}

/// Appends the ranges of `src` to `dst`.
pub fn append_ranges(dst: &mut Vec<(usize, usize)>, src: &Vec<(usize, usize)>)
    ensures
        final(dst)@ == old(dst)@ + src@,
{
    let ghost start = dst@;
    let mut i: usize = 0;
    while i < src.len()
        invariant
            i <= src@.len(),
            dst@ == start + src@.take(i as int),
        decreases src@.len() - i,
    {
        dst.push(src[i]);
        i = i + 1;
        assert(dst@ =~= start + src@.take(i as int));
    }
    assert(src@.take(src@.len() as int) =~= src@);
}

/// Sorting keeps exactly the ranges there are.
pub proof fn lemma_sort_contains(s: Seq<(usize, usize)>)
    ensures
        forall|v: (usize, usize)| #[trigger] sort_desc_by_start(s).contains(v) <==> s.contains(v),
{
    broadcast use vstd::seq_lib::group_to_multiset_ensures;

    law_sort_desc_sorted_permutation(s);
    assert forall|v: (usize, usize)| #[trigger] sort_desc_by_start(s).contains(v) <==> s.contains(v) by {
        assert(sort_desc_by_start(s).to_multiset().count(v) == s.to_multiset().count(v));
    }
}

/// The distinct texts of the ranges, in order of first appearance.
pub fn distinct_texts(bytes: &Vec<u8>, toks: &Vec<(usize, usize)>) -> (r: Vec<Vec<u8>>)
    requires
        valid_utf8(bytes@),
        slices_ok(bytes@, toks@),
    ensures
        texts_view(r@) == first_appearances(token_texts(bytes@, toks@)),
{
    let ghost texts = token_texts(bytes@, toks@);
    let mut seen: Vec<Vec<u8>> = Vec::new();
    let mut k: usize = 0;
    assert(texts.take(0) =~= Seq::<Seq<u8>>::empty());
    while k < toks.len()
        invariant
            k <= toks@.len(),
            valid_utf8(bytes@),
            slices_ok(bytes@, toks@),
            texts == token_texts(bytes@, toks@),
            texts_view(seen@) == first_appearances(texts.take(k as int)),
        decreases toks@.len() - k,
    {
        let s = toks[k].0;
        let e = toks[k].1;
        assert(edit_ok(bytes@, toks@[k as int].0 as int, toks@[k as int].1 as int));
        proof {
            crate::indexer::declarations::lemma_subrange_valid(bytes@, s as int, e as int);
        }
        let text = copy_range(bytes, s, e);
        let _ = lookup_or_add(&mut seen, text);
        assert(texts.take(k + 1).drop_last() =~= texts.take(k as int));
        assert(texts.take(k + 1).last() == texts[k as int]);
        k = k + 1;
    }
    assert(texts.take(toks@.len() as int) =~= texts);
    seen
}

/// The index of a text among distinct texts that hold it.
pub fn find_text(seen: &Vec<Vec<u8>>, text: &Vec<u8>) -> (r: usize)
    requires
        texts_view(seen@).contains(text@),
    ensures
        r == index_in(texts_view(seen@), text@),
        r < seen@.len(),
        r < usize::MAX,
{
    let ghost d = texts_view(seen@);
    proof {
        lemma_index_in_contains(d, text@);
    }
    let mut j: usize = 0;
    while j < seen.len()
        invariant
            j <= seen@.len(),
            d == texts_view(seen@),
            d.contains(text@),
            forall|i: int| 0 <= i < j ==> d[i] != text@,
        decreases seen@.len() - j,
    {
        if bytes_equal(&seen[j], text) {
            proof {
                assert(d[j as int] == seen@[j as int]@);
                lemma_index_in_at(d, text@, j as int);
            }
            return j;
        }
        assert(d[j as int] == seen@[j as int]@);
        j = j + 1;
    }
    assert(false);
    0
}

/// Different numbers have different decimal representations.
pub proof fn lemma_decimal_injective(a: nat, b: nat)
    requires
        decimal(a) == decimal(b),
    ensures
        a == b,
    decreases a,
{
    if a < 10 && b < 10 {
        assert(decimal(a)[0] == decimal(b)[0]);
        assert(decimal(a)[0] == (48 + a) as u8);
        assert(decimal(b)[0] == (48 + b) as u8);
    } else if a < 10 {
        crate::indexer::text::lemma_decimal_digits(b / 10);
        assert(decimal(b).len() >= 2);
        assert(decimal(a).len() == 1);
    } else if b < 10 {
        crate::indexer::text::lemma_decimal_digits(a / 10);
        assert(decimal(a).len() >= 2);
        assert(decimal(b).len() == 1);
    } else {
        let da = decimal(a);
        let db = decimal(b);
        assert(da.last() == db.last());
        assert(a % 10 == b % 10);
        assert(da.drop_last() =~= decimal(a / 10));
        assert(db.drop_last() =~= decimal(b / 10));
        lemma_decimal_injective(a / 10, b / 10);
        assert(a == (a / 10) * 10 + a % 10);
        assert(b == (b / 10) * 10 + b % 10);
    }
}

/// The first appearances hold no text twice.
pub proof fn lemma_first_appearances_distinct(texts: Seq<Seq<u8>>)
    ensures
        first_appearances(texts).no_duplicates(),
    decreases texts.len(),
{
    if texts.len() > 0 {
        lemma_first_appearances_distinct(texts.drop_last());
    }
}

/// Every text occurs among the first appearances.
pub proof fn lemma_first_appearances_cover(texts: Seq<Seq<u8>>, k: int)
    requires
        0 <= k < texts.len(),
    ensures
        first_appearances(texts).contains(texts[k]),
{
    lemma_first_appearances_contains(texts, k);
    lemma_first_appearances_prefix(texts, k + 1);
    let a = first_appearances(texts.take(k + 1));
    let i = choose|i: int| 0 <= i < a.len() && a[i] == texts[k];
    assert(first_appearances(texts)[i] == texts[k]);
}

/// Law: two tokens get the same name exactly when their texts are equal.
pub proof fn law_same_name_iff_same_text(prefix: Seq<u8>, texts: Seq<Seq<u8>>, k1: int, k2: int)
    requires
        0 <= k1 < texts.len(),
        0 <= k2 < texts.len(),
    ensures
        token_name(prefix, texts, k1) == token_name(prefix, texts, k2) <==> texts[k1] == texts[k2],
{
    let d = first_appearances(texts);
    lemma_first_appearances_cover(texts, k1);
    lemma_first_appearances_cover(texts, k2);
    lemma_index_in_contains(d, texts[k1]);
    lemma_index_in_contains(d, texts[k2]);
    let i1 = index_in(d, texts[k1]);
    let i2 = index_in(d, texts[k2]);
    if token_name(prefix, texts, k1) == token_name(prefix, texts, k2) {
        let n1 = decimal((i1 + 1) as nat);
        let n2 = decimal((i2 + 1) as nat);
        assert(n1 =~= token_name(prefix, texts, k1).subrange(prefix.len() as int, token_name(prefix, texts, k1).len() as int));
        assert(n2 =~= token_name(prefix, texts, k2).subrange(prefix.len() as int, token_name(prefix, texts, k2).len() as int));
        lemma_decimal_injective((i1 + 1) as nat, (i2 + 1) as nat);
    }
}

/// Law: every number given lies between 1 and the number of distinct texts, and
/// the first token (the one that starts last) gets number 1.
pub proof fn law_names_numbered_from_one(prefix: Seq<u8>, texts: Seq<Seq<u8>>, k: int)
    requires
        0 <= k < texts.len(),
    ensures
        1 <= index_in(first_appearances(texts), texts[k]) + 1 <= first_appearances(texts).len(),
        token_name(prefix, texts, 0) == prefix + decimal(1),
{
    let d = first_appearances(texts);
    lemma_first_appearances_cover(texts, k);
    lemma_index_in_contains(d, texts[k]);
    lemma_first_appearances_prefix(texts, 1);
    lemma_first_appearances_contains(texts, 0);
    let a = first_appearances(texts.take(1));
    assert(texts.take(1).drop_last() =~= Seq::<Seq<u8>>::empty());
    assert(first_appearances(texts.take(1).drop_last()) =~= Seq::<Seq<u8>>::empty());
    assert(a.len() == 1);
    assert(d[0] == texts[0]);
    lemma_index_in_at(d, texts[0], 0);
}

/// Law: renaming with a token type other than `identifier` or `function` leaves the
/// code unchanged once every token can be sliced out.
pub proof fn law_unknown_type_keeps_code(code: Seq<char>, toks: Seq<(usize, usize)>, ty: Seq<char>)
    requires
        slices_ok(utf8_bytes(code), sort_desc_by_start(toks)),
        ty != "identifier"@,
        ty != "function"@,
    ensures
        replaced(code, toks, ty) == Some(code),
{
}

/// Position `i` lies in one of the ranges.
pub open spec fn in_some_range(rs: Seq<(usize, usize)>, i: int) -> bool {
    exists|k: int| 0 <= k < rs.len() && #[trigger] rs[k].0 <= i && i < rs[k].1
}

/// The bytes before index `n` that lie in none of the ranges, in order.
pub open spec fn kept_bytes(b: Seq<u8>, rs: Seq<(usize, usize)>, n: int) -> Seq<u8>
    decreases n,
{
    if n <= 0 {
        Seq::empty()
    } else if in_some_range(rs, n - 1) {
        kept_bytes(b, rs, n - 1)
    } else {
        kept_bytes(b, rs, n - 1).push(b[n - 1])
    }
}

/// No two of the ranges overlap.
pub open spec fn pairwise_disjoint(rs: Seq<(usize, usize)>) -> bool {
    forall|i: int, j: int|
        0 <= i < rs.len() && 0 <= j < rs.len() && i != j ==> #[trigger] rs[i].1 <= #[trigger] rs[j].0
            || rs[j].1 <= rs[i].0
}

/// Every non-empty range lies after all the ranges that follow it.
pub open spec fn nonempty_after_rest(t: Seq<(usize, usize)>) -> bool {
    forall|i: int, j: int| 0 <= i < j < t.len() && #[trigger] t[i].0 < t[i].1 ==> #[trigger] t[j].1 <= t[i].0
}

proof fn lemma_kept_congruent(
    b1: Seq<u8>,
    rs1: Seq<(usize, usize)>,
    b2: Seq<u8>,
    rs2: Seq<(usize, usize)>,
    n: int,
)
    requires
        forall|i: int| 0 <= i < n ==> b1[i] == b2[i] && in_some_range(rs1, i) == in_some_range(rs2, i),
    ensures
        kept_bytes(b1, rs1, n) == kept_bytes(b2, rs2, n),
    decreases n,
{
    if n > 0 {
        assert(b1[n - 1] == b2[n - 1] && in_some_range(rs1, n - 1) == in_some_range(rs2, n - 1));
        lemma_kept_congruent(b1, rs1, b2, rs2, n - 1);
    }
}

proof fn lemma_kept_uncovered(b: Seq<u8>, rs: Seq<(usize, usize)>, m: int, n: int)
    requires
        0 <= m <= n <= b.len(),
        forall|i: int| m <= i < n ==> !in_some_range(rs, i),
    ensures
        kept_bytes(b, rs, n) == kept_bytes(b, rs, m) + b.subrange(m, n),
    decreases n - m,
{
    if n > m {
        lemma_kept_uncovered(b, rs, m, n - 1);
        assert(!in_some_range(rs, n - 1));
        assert(b.subrange(m, n) =~= b.subrange(m, n - 1).push(b[n - 1]));
    } else {
        assert(b.subrange(m, n) =~= Seq::<u8>::empty());
    }
}

proof fn lemma_kept_covered(b: Seq<u8>, rs: Seq<(usize, usize)>, m: int, n: int)
    requires
        0 <= m <= n,
        forall|i: int| m <= i < n ==> in_some_range(rs, i),
    ensures
        kept_bytes(b, rs, n) == kept_bytes(b, rs, m),
    decreases n - m,
{
    if n > m {
        assert(in_some_range(rs, n - 1));
        lemma_kept_covered(b, rs, m, n - 1);
    }
}

/// Removing `[s, e)` leaves the character boundaries up to `s` as they were.
proof fn lemma_boundary_before_removal(b: Seq<u8>, s: int, e: int, i: int)
    requires
        valid_utf8(b),
        edit_ok(b, s, e),
        0 <= i <= s,
    ensures
        is_char_boundary(splice(b, s, e, Seq::empty()), i) == is_char_boundary(b, i),
{
    let b2 = splice(b, s, e, Seq::empty());
    crate::indexer::declarations::lemma_subrange_valid(b, s, e);
    lemma_splice_valid(b, s, e, Seq::empty());
    assert(b2.len() == b.len() - (e - s));
    if i == 0 {
    } else if i < s {
        is_char_boundary_iff_not_is_continuation_byte(b, i);
        is_char_boundary_iff_not_is_continuation_byte(b2, i);
        assert(b2[i] == b[i]);
    } else if e == b.len() {
        is_char_boundary_start_end_of_seq(b2);
    } else {
        is_char_boundary_iff_not_is_continuation_byte(b, e);
        is_char_boundary_iff_not_is_continuation_byte(b2, s);
        assert(b2[s] == b[e]);
    }
}

pub open spec fn all_edit_ok(b: Seq<u8>, t: Seq<(usize, usize)>) -> bool {
    forall|k: int| 0 <= k < t.len() ==> edit_ok(b, #[trigger] t[k].0 as int, t[k].1 as int)
}

/// Removing ranges ordered by decreasing start, none overlapping the later ones,
/// deletes exactly the bytes in the ranges.
proof fn lemma_remove_sorted(b: Seq<u8>, t: Seq<(usize, usize)>)
    requires
        valid_utf8(b),
        sorted_desc(t),
        nonempty_after_rest(t),
        all_edit_ok(b, t),
    ensures
        apply_edits(b, removal_edits(t)) == Some(kept_bytes(b, t, b.len() as int)),
    decreases t.len(),
{
    if t.len() == 0 {
        lemma_kept_uncovered(b, t, 0, b.len() as int);
        assert(b.subrange(0, b.len() as int) =~= b);
    } else {
        let s0 = t[0].0 as int;
        let e0 = t[0].1 as int;
        let rest = t.drop_first();
        assert(edit_ok(b, s0, e0));
        crate::indexer::declarations::lemma_subrange_valid(b, s0, e0);
        assert(removal_edits(t).drop_first() =~= removal_edits(rest));
        assert(removal_edits(t)[0] == (t[0].0, t[0].1, Seq::<u8>::empty()));
        let b2 = splice(b, s0, e0, Seq::empty());
        lemma_splice_valid(b, s0, e0, Seq::empty());
        assert(sorted_desc(rest)) by {
            assert forall|i: int, j: int| 0 <= i < j < rest.len() implies rest[i].0 >= rest[j].0 by {
                assert(t[i + 1].0 >= t[j + 1].0);
            }
        }
        assert(nonempty_after_rest(rest)) by {
            assert forall|i: int, j: int|
                0 <= i < j < rest.len() && #[trigger] rest[i].0 < rest[i].1 implies #[trigger] rest[j].1
                <= rest[i].0 by {
                assert(t[i + 1] == rest[i]);
                assert(t[j + 1] == rest[j]);
            }
        }
        if s0 == e0 {
            assert(b2 =~= b);
            assert(all_edit_ok(b, rest)) by {
                assert forall|k: int| 0 <= k < rest.len() implies edit_ok(
                    b,
                    #[trigger] rest[k].0 as int,
                    rest[k].1 as int,
                ) by {
                    assert(t[k + 1] == rest[k]);
                }
            }
            lemma_remove_sorted(b, rest);
            assert forall|i: int| 0 <= i < b.len() implies b[i] == b[i] && in_some_range(rest, i)
                == in_some_range(t, i) by {
                if in_some_range(t, i) {
                    let k = choose|k: int| 0 <= k < t.len() && #[trigger] t[k].0 <= i && i < t[k].1;
                    assert(k != 0);
                    assert(rest[k - 1] == t[k]);
                }
                if in_some_range(rest, i) {
                    let k = choose|k: int| 0 <= k < rest.len() && #[trigger] rest[k].0 <= i && i < rest[k].1;
                    assert(t[k + 1] == rest[k]);
                }
            }
            lemma_kept_congruent(b, rest, b, t, b.len() as int);
        } else {
            assert forall|j: int| 0 <= j < rest.len() implies #[trigger] rest[j].1 <= s0 by {
                assert(t[j + 1] == rest[j]);
                assert(0 < j + 1);
            }
            assert(all_edit_ok(b2, rest)) by {
                assert forall|k: int| 0 <= k < rest.len() implies edit_ok(
                    b2,
                    #[trigger] rest[k].0 as int,
                    rest[k].1 as int,
                ) by {
                    assert(t[k + 1] == rest[k]);
                    assert(edit_ok(b, t[k + 1].0 as int, t[k + 1].1 as int));
                    assert(rest[k].1 <= s0);
                    lemma_boundary_before_removal(b, s0, e0, rest[k].0 as int);
                    lemma_boundary_before_removal(b, s0, e0, rest[k].1 as int);
                }
            }
            lemma_remove_sorted(b2, rest);
            // Before s0 both agree.
            assert forall|i: int| 0 <= i < s0 implies b2[i] == b[i] && in_some_range(rest, i)
                == in_some_range(t, i) by {
                if in_some_range(t, i) {
                    let k = choose|k: int| 0 <= k < t.len() && #[trigger] t[k].0 <= i && i < t[k].1;
                    assert(k != 0);
                    assert(rest[k - 1] == t[k]);
                }
                if in_some_range(rest, i) {
                    let k = choose|k: int| 0 <= k < rest.len() && #[trigger] rest[k].0 <= i && i < rest[k].1;
                    assert(t[k + 1] == rest[k]);
                }
            }
            lemma_kept_congruent(b2, rest, b, t, s0);
            // From s0 on, nothing of b2 is removed.
            assert forall|i: int| s0 <= i < b2.len() implies !in_some_range(rest, i) by {
                if in_some_range(rest, i) {
                    let k = choose|k: int| 0 <= k < rest.len() && #[trigger] rest[k].0 <= i && i < rest[k].1;
                    assert(rest[k].1 <= s0);
                }
            }
            lemma_kept_uncovered(b2, rest, s0, b2.len() as int);
            // [s0, e0) is removed from b.
            assert forall|i: int| s0 <= i < e0 implies in_some_range(t, i) by {
                assert(t[0].0 <= i && i < t[0].1);
            }
            lemma_kept_covered(b, t, s0, e0);
            // From e0 on, nothing of b is removed.
            assert forall|i: int| e0 <= i < b.len() implies !in_some_range(t, i) by {
                if in_some_range(t, i) {
                    let k = choose|k: int| 0 <= k < t.len() && #[trigger] t[k].0 <= i && i < t[k].1;
                    if k > 0 {
                        assert(rest[k - 1] == t[k]);
                        assert(rest[k - 1].1 <= s0);
                    }
                }
            }
            lemma_kept_uncovered(b, t, e0, b.len() as int);
            assert(b2.subrange(s0, b2.len() as int) =~= b.subrange(e0, b.len() as int));
        }
    }
}

proof fn lemma_count_two(s: Seq<(usize, usize)>, i: int, j: int)
    requires
        0 <= i < j < s.len(),
        s[i] == s[j],
    ensures
        s.to_multiset().count(s[i]) >= 2,
{
    broadcast use vstd::seq_lib::group_to_multiset_ensures;
    broadcast use vstd::multiset::group_multiset_axioms;

    let r = s.remove(i);
    assert(r[j - 1] == s[j]);
    assert(r.contains(s[i]));
    assert(r.to_multiset().count(s[i]) > 0);
}

proof fn lemma_two_of_count(s: Seq<(usize, usize)>, v: (usize, usize))
    requires
        s.to_multiset().count(v) >= 2,
    ensures
        exists|i: int, j: int| 0 <= i < s.len() && 0 <= j < s.len() && i != j && #[trigger] s[i] == v && #[trigger] s[j] == v,
{
    broadcast use vstd::seq_lib::group_to_multiset_ensures;
    broadcast use vstd::multiset::group_multiset_axioms;

    assert(s.contains(v));
    let a = choose|a: int| 0 <= a < s.len() && s[a] == v;
    let r = s.remove(a);
    assert(r.to_multiset().count(v) > 0);
    assert(r.contains(v));
    let c = choose|c: int| 0 <= c < r.len() && r[c] == v;
    if c < a {
        assert(s[c] == v);
    } else {
        assert(s[c + 1] == v);
    }
}

/// Sorting disjoint ranges keeps them (each range of one is a range of the other),
/// accepted, and makes every non-empty range come after all the ranges that follow it.
pub proof fn lemma_sorted_disjoint(b: Seq<u8>, ranges: Seq<(usize, usize)>)
    requires
        pairwise_disjoint(ranges),
        all_edit_ok(b, ranges),
    ensures
        sorted_desc(sort_desc_by_start(ranges)),
        forall|v: (usize, usize)| #[trigger] sort_desc_by_start(ranges).contains(v) <==> ranges.contains(v),
        all_edit_ok(b, sort_desc_by_start(ranges)),
        nonempty_after_rest(sort_desc_by_start(ranges)),
{
    broadcast use vstd::seq_lib::group_to_multiset_ensures;

    let t = sort_desc_by_start(ranges);
    law_sort_desc_sorted_permutation(ranges);
    assert(t.to_multiset() == ranges.to_multiset());
    assert forall|v: (usize, usize)| #[trigger] t.contains(v) <==> ranges.contains(v) by {
        assert(t.to_multiset().count(v) == ranges.to_multiset().count(v));
    }
    assert(all_edit_ok(b, t)) by {
        assert forall|k: int| 0 <= k < t.len() implies edit_ok(b, #[trigger] t[k].0 as int, t[k].1 as int) by {
            assert(t.contains(t[k]));
            let a = choose|a: int| 0 <= a < ranges.len() && ranges[a] == t[k];
            assert(edit_ok(b, ranges[a].0 as int, ranges[a].1 as int));
        }
    }
    assert(nonempty_after_rest(t)) by {
        assert forall|i: int, j: int| 0 <= i < j < t.len() && #[trigger] t[i].0 < t[i].1 implies #[trigger] t[j].1 <= t[i].0 by {
            assert(t.contains(t[i]));
            assert(t.contains(t[j]));
            let a = choose|a: int| 0 <= a < ranges.len() && ranges[a] == t[i];
            let c = choose|c: int| 0 <= c < ranges.len() && ranges[c] == t[j];
            if a == c {
                lemma_count_two(t, i, j);
                lemma_two_of_count(ranges, t[i]);
                let (x, y) = choose|x: int, y: int| 0 <= x < ranges.len() && 0 <= y < ranges.len() && x != y && #[trigger] ranges[x] == t[i] && #[trigger] ranges[y] == t[i];
                assert(ranges[x].1 <= ranges[y].0 || ranges[y].1 <= ranges[x].0);
            } else {
                assert(ranges[a].1 <= ranges[c].0 || ranges[c].1 <= ranges[a].0);
                assert(t[i].0 >= t[j].0);
            }
        }
    }
}

/// Law: when the ranges do not overlap and each lies between character
/// boundaries of the code, stripping deletes exactly the characters in the
/// ranges and keeps every other one, in order.
pub proof fn law_strip_removes_exactly_the_ranges(code: Seq<char>, ranges: Seq<(usize, usize)>)
    requires
        pairwise_disjoint(ranges),
        all_edit_ok(utf8_bytes(code), ranges),
    ensures
        stripped(code, ranges) == Some(
            decode_utf8(kept_bytes(utf8_bytes(code), ranges, utf8_bytes(code).len() as int)),
        ),
{
    broadcast use vstd::seq_lib::group_to_multiset_ensures;

    let b = utf8_bytes(code);
    let t = sort_desc_by_start(ranges);
    lemma_sorted_disjoint(b, ranges);
    encode_utf8_valid_utf8(code);
    lemma_remove_sorted(b, t);
    assert forall|i: int| 0 <= i < b.len() implies b[i] == b[i] && in_some_range(t, i)
        == in_some_range(ranges, i) by {
        if in_some_range(t, i) {
            let k = choose|k: int| 0 <= k < t.len() && #[trigger] t[k].0 <= i && i < t[k].1;
            assert(t.contains(t[k]));
            let a = choose|a: int| 0 <= a < ranges.len() && ranges[a] == t[k];
            assert(ranges[a].0 <= i && i < ranges[a].1);
        }
        if in_some_range(ranges, i) {
            let k = choose|k: int| 0 <= k < ranges.len() && #[trigger] ranges[k].0 <= i && i < ranges[k].1;
            assert(ranges.contains(ranges[k]));
            assert(t.contains(ranges[k]));
            let a = choose|a: int| 0 <= a < t.len() && t[a] == ranges[k];
            assert(t[a].0 <= i && i < t[a].1);
        }
    }
    lemma_kept_congruent(b, t, b, ranges, b.len() as int);
}

/// The edits that put `names[k]` in place of range `t[k]`.
pub open spec fn edits_of(t: Seq<(usize, usize)>, names: Seq<Seq<u8>>) -> Seq<(usize, usize, Seq<u8>)> {
    Seq::new(t.len(), |k: int| (t[k].0, t[k].1, names[k]))
}

/// For ranges ordered by decreasing start: the text before the range that starts
/// last (with the other ranges substituted in it), that range's name, and the
/// text after that range.
pub open spec fn substituted(b: Seq<u8>, t: Seq<(usize, usize)>, names: Seq<Seq<u8>>) -> Seq<u8>
    decreases t.len(),
{
    if t.len() == 0 {
        b
    } else {
        substituted(b.subrange(0, t[0].0 as int), t.drop_first(), names.drop_first()) + names[0]
            + b.subrange(t[0].1 as int, b.len() as int)
    }
}

/// Each range ends before every range that precedes it starts.
pub open spec fn chained(t: Seq<(usize, usize)>) -> bool {
    forall|i: int, j: int| 0 <= i < j < t.len() ==> #[trigger] t[j].1 <= #[trigger] t[i].0
}

/// Every range ends no later than `n`.
pub open spec fn ends_within(t: Seq<(usize, usize, Seq<u8>)>, n: int) -> bool {
    forall|k: int| 0 <= k < t.len() ==> #[trigger] t[k].1 <= n
}

/// Up to the end of `a`, the character boundaries of `a + c` are those of `a`.
pub proof fn lemma_boundary_concat(a: Seq<u8>, c: Seq<u8>, i: int)
    requires
        valid_utf8(a),
        valid_utf8(c),
        0 <= i <= a.len(),
    ensures
        is_char_boundary(a + c, i) == is_char_boundary(a, i),
{
    let ac = a + c;
    valid_utf8_concat(a, c);
    if i == 0 {
    } else if i < a.len() {
        is_char_boundary_iff_not_is_continuation_byte(a, i);
        is_char_boundary_iff_not_is_continuation_byte(ac, i);
        assert(ac[i] == a[i]);
    } else {
        is_char_boundary_start_end_of_seq(a);
        if c.len() == 0 {
            assert(ac =~= a);
        } else {
            is_char_boundary_start_end_of_seq(c);
            is_char_boundary_iff_not_is_continuation_byte(c, 0);
            is_char_boundary_iff_not_is_continuation_byte(ac, i);
            assert(ac[i] == c[0]);
        }
    }
}

/// Edits that all lie in `a`, each ending before the previous one starts, act on
/// `a + c` as on `a`, leaving `c` in place.
pub proof fn lemma_apply_edits_prefix(a: Seq<u8>, c: Seq<u8>, es: Seq<(usize, usize, Seq<u8>)>)
    requires
        valid_utf8(a),
        valid_utf8(c),
        inserts_valid(es),
        ends_within(es, a.len() as int),
        forall|i: int, j: int| 0 <= i < j < es.len() ==> #[trigger] es[j].1 <= #[trigger] es[i].0,
    ensures
        apply_edits(a + c, es) == match apply_edits(a, es) {
            Some(r) => Some(r + c),
            None => None,
        },
    decreases es.len(),
{
    if es.len() > 0 {
        let s0 = es[0].0 as int;
        let e0 = es[0].1 as int;
        assert(e0 <= a.len());
        if s0 <= e0 {
            lemma_boundary_concat(a, c, s0);
            lemma_boundary_concat(a, c, e0);
        }
        if edit_ok(a, s0, e0) {
            assert(valid_utf8(es[0].2));
            let a2 = splice(a, s0, e0, es[0].2);
            lemma_splice_valid(a, s0, e0, es[0].2);
            assert(splice(a + c, s0, e0, es[0].2) =~= a2 + c);
            let rest = es.drop_first();
            assert(inserts_valid(rest)) by {
                assert forall|i: int| 0 <= i < rest.len() implies valid_utf8(#[trigger] rest[i].2) by {
                    assert(valid_utf8(es[i + 1].2));
                }
            }
            assert(ends_within(rest, a2.len() as int)) by {
                assert forall|k: int| 0 <= k < rest.len() implies #[trigger] rest[k].1 <= a2.len() by {
                    assert(es[k + 1].1 <= es[0].0);
                }
            }
            assert forall|i: int, j: int| 0 <= i < j < rest.len() implies #[trigger] rest[j].1
                <= #[trigger] rest[i].0 by {
                assert(es[j + 1].1 <= es[i + 1].0);
            }
            lemma_apply_edits_prefix(a2, c, rest);
        }
    } else {
    }
}

/// Substituting names for ranges ordered by decreasing start, each ending before
/// the previous one starts, gives `substituted`.
pub proof fn lemma_substitute_sorted(b: Seq<u8>, t: Seq<(usize, usize)>, names: Seq<Seq<u8>>)
    requires
        valid_utf8(b),
        chained(t),
        all_edit_ok(b, t),
        names.len() == t.len(),
        forall|k: int| 0 <= k < names.len() ==> valid_utf8(#[trigger] names[k]),
    ensures
        apply_edits(b, edits_of(t, names)) == Some(substituted(b, t, names)),
    decreases t.len(),
{
    let es = edits_of(t, names);
    if t.len() > 0 {
        let s0 = t[0].0 as int;
        let e0 = t[0].1 as int;
        assert(edit_ok(b, s0, e0));
        crate::indexer::declarations::lemma_subrange_valid(b, s0, e0);
        let a = b.subrange(0, s0);
        let tail = b.subrange(s0, b.len() as int);
        valid_utf8_split(b, s0);
        valid_utf8_split(b, e0);
        let c = names[0] + b.subrange(e0, b.len() as int);
        valid_utf8_concat(names[0], b.subrange(e0, b.len() as int));
        assert(es[0] == (t[0].0, t[0].1, names[0]));
        assert(splice(b, s0, e0, names[0]) =~= a + c);
        let rest = t.drop_first();
        let rnames = names.drop_first();
        assert(es.drop_first() =~= edits_of(rest, rnames));
        assert(b =~= a + tail);
        assert(all_edit_ok(a, rest)) by {
            assert forall|k: int| 0 <= k < rest.len() implies edit_ok(
                a,
                #[trigger] rest[k].0 as int,
                rest[k].1 as int,
            ) by {
                assert(rest[k] == t[k + 1]);
                assert(t[k + 1].1 <= t[0].0);
                assert(edit_ok(b, t[k + 1].0 as int, t[k + 1].1 as int));
                lemma_boundary_concat(a, tail, rest[k].0 as int);
                lemma_boundary_concat(a, tail, rest[k].1 as int);
            }
        }
        assert(chained(rest)) by {
            assert forall|i: int, j: int| 0 <= i < j < rest.len() implies #[trigger] rest[j].1
                <= #[trigger] rest[i].0 by {
                assert(t[j + 1].1 <= t[i + 1].0);
            }
        }
        lemma_substitute_sorted(a, rest, rnames);
        let res = edits_of(rest, rnames);
        assert(inserts_valid(res)) by {
            assert forall|i: int| 0 <= i < res.len() implies valid_utf8(#[trigger] res[i].2) by {
                assert(res[i].2 == names[i + 1]);
            }
        }
        assert(ends_within(res, a.len() as int)) by {
            assert forall|k: int| 0 <= k < res.len() implies #[trigger] res[k].1 <= a.len() by {
                assert(t[k + 1].1 <= t[0].0);
            }
        }
        assert forall|i: int, j: int| 0 <= i < j < res.len() implies #[trigger] res[j].1
            <= #[trigger] res[i].0 by {
            assert(t[j + 1].1 <= t[i + 1].0);
        }
        lemma_apply_edits_prefix(a, c, res);
        assert(substituted(b, t, names) =~= substituted(a, rest, rnames) + c);
    }
}

/// The names given to the tokens, in the order of `t`.
pub open spec fn token_names(b: Seq<u8>, t: Seq<(usize, usize)>, prefix: Seq<u8>) -> Seq<Seq<u8>> {
    Seq::new(t.len(), |k: int| token_name(prefix, token_texts(b, t), k))
}

/// The prefix of the names of a token type.
pub open spec fn type_prefix(ty: Seq<char>) -> Seq<u8> {
    if ty == "identifier"@ {
        utf8_bytes("var"@)
    } else {
        utf8_bytes("func"@)
    }
}

/// Law: when the tokens are non-empty, do not overlap and each lies between
/// character boundaries of the code, renaming puts each token's name in place of
/// the token and keeps all other text.
pub proof fn law_rename_replaces_exactly_the_tokens(code: Seq<char>, toks: Seq<(usize, usize)>, ty: Seq<char>)
    requires
        pairwise_disjoint(toks),
        forall|k: int| 0 <= k < toks.len() ==> #[trigger] toks[k].0 < toks[k].1,
        all_edit_ok(utf8_bytes(code), toks),
        ty == "identifier"@ || ty == "function"@,
    ensures
        replaced(code, toks, ty) == Some(
            decode_utf8(
                substituted(
                    utf8_bytes(code),
                    sort_desc_by_start(toks),
                    token_names(utf8_bytes(code), sort_desc_by_start(toks), type_prefix(ty)),
                ),
            ),
        ),
{
    let b = utf8_bytes(code);
    let t = sort_desc_by_start(toks);
    let prefix = type_prefix(ty);
    let names = token_names(b, t, prefix);
    lemma_sorted_disjoint(b, toks);
    encode_utf8_valid_utf8(code);
    assert(chained(t)) by {
        assert forall|i: int, j: int| 0 <= i < j < t.len() implies #[trigger] t[j].1 <= #[trigger] t[i].0 by {
            assert(t.contains(t[i]));
            let a = choose|a: int| 0 <= a < toks.len() && toks[a] == t[i];
            assert(toks[a].0 < toks[a].1);
        }
    }
    assert(slices_ok(b, t)) by {
        assert forall|k: int| 0 <= k < t.len() implies edit_ok(b, #[trigger] t[k].0 as int, t[k].1 as int) by {
        }
    }
    assert forall|k: int| 0 <= k < names.len() implies valid_utf8(#[trigger] names[k]) by {
        let n = (index_in(first_appearances(token_texts(b, t)), token_texts(b, t)[k]) + 1) as nat;
        crate::indexer::text::lemma_decimal_digits(n);
        let digits = decimal(n);
        assert forall|i: int| 0 <= i < digits.len() implies #[trigger] digits[i] < 0x80 by {
            assert(48 <= digits[i] <= 57);
        }
        lemma_ascii_valid_utf8(digits);
        encode_utf8_valid_utf8("var"@);
        encode_utf8_valid_utf8("func"@);
        valid_utf8_concat(prefix, digits);
    }
    lemma_substitute_sorted(b, t, names);
    assert(renaming_edits(b, t, prefix) =~= edits_of(t, names));
}

/// Law: the identifiers named `var<n>` are exactly the identifier ranges that are
/// not declared names: each range taken is an identifier range and none is a
/// declared name's range, and every identifier range that is not a declared
/// name's is taken.
pub proof fn law_identifier_pass_skips_declared_names(all: Seq<(usize, usize)>, decl: Seq<(usize, usize)>)
    ensures
        forall|k: int| 0 <= k < without(all, decl).len() ==> all.contains(#[trigger] without(all, decl)[k])
            && !decl.contains(without(all, decl)[k]),
        forall|r: (usize, usize)| #[trigger] all.contains(r) && !decl.contains(r) ==> without(all, decl).contains(r),
    decreases all.len(),
{
    if all.len() > 0 {
        let rest = all.drop_last();
        law_identifier_pass_skips_declared_names(rest, decl);
        let w = without(all, decl);
        let wr = without(rest, decl);
        assert forall|k: int| 0 <= k < w.len() implies all.contains(#[trigger] w[k]) && !decl.contains(w[k]) by {
            if k < wr.len() {
                assert(w[k] == wr[k]);
                let j = choose|j: int| 0 <= j < rest.len() && rest[j] == wr[k];
                assert(all[j] == rest[j]);
            } else {
                assert(w[k] == all.last());
                assert(all[all.len() - 1] == all.last());
            }
        }
        assert forall|r: (usize, usize)| #[trigger] all.contains(r) && !decl.contains(r) implies w.contains(r) by {
            let j = choose|j: int| 0 <= j < all.len() && all[j] == r;
            if j < all.len() - 1 {
                assert(rest[j] == r);
                assert(rest.contains(r));
                let i = choose|i: int| 0 <= i < wr.len() && wr[i] == r;
                assert(w[i] == r);
            } else {
                assert(w[w.len() - 1] == r);
            }
        }
    }
}

/// The names that the renaming puts in place of the identifiers, ordered by
/// decreasing start.
pub open spec fn plan_names(b: Seq<u8>, all: Seq<(usize, usize)>, decl: Seq<(usize, usize)>) -> Seq<Seq<u8>> {
    renaming_plan(b, all, decl).map_values(|e: (usize, usize, Seq<u8>)| e.2)
}

/// Law: when the identifier ranges are non-empty, do not overlap and each lies
/// between character boundaries of the code, every identifier is renamed in
/// place and all other text is kept: the text before the identifier that starts
/// last (renamed the same way), that identifier's name, and the text after it.
pub proof fn law_identifiers_renamed_in_place(code: Seq<char>, all: Seq<(usize, usize)>, decl: Seq<(usize, usize)>)
    requires
        pairwise_disjoint(all_names(all, decl)),
        forall|k: int| 0 <= k < all_names(all, decl).len() ==> #[trigger] all_names(all, decl)[k].0 < all_names(all, decl)[k].1,
        all_edit_ok(utf8_bytes(code), all_names(all, decl)),
    ensures
        renamed(code, all, decl) == Some(
            decode_utf8(
                substituted(
                    utf8_bytes(code),
                    sort_desc_by_start(all_names(all, decl)),
                    plan_names(utf8_bytes(code), all, decl),
                ),
            ),
        ),
{
    let b = utf8_bytes(code);
    let both = all_names(all, decl);
    let t = sort_desc_by_start(both);
    let plan = renaming_plan(b, all, decl);
    let names = plan_names(b, all, decl);
    lemma_sorted_disjoint(b, both);
    encode_utf8_valid_utf8(code);
    assert(chained(t)) by {
        assert forall|i: int, j: int| 0 <= i < j < t.len() implies #[trigger] t[j].1 <= #[trigger] t[i].0 by {
            assert(t.contains(t[i]));
            let a = choose|a: int| 0 <= a < both.len() && both[a] == t[i];
            assert(both[a].0 < both[a].1);
        }
    }
    assert(slices_ok(b, t));
    assert forall|k: int| 0 <= k < names.len() implies valid_utf8(#[trigger] names[k]) by {
        let ds = sort_desc_by_start(decl);
        let ids = sort_desc_by_start(without(all, decl));
        let txt = b.subrange(t[k].0 as int, t[k].1 as int);
        let n = if decl.contains(t[k]) {
            (index_in(first_appearances(token_texts(b, ds)), txt) + 1) as nat
        } else {
            (index_in(first_appearances(token_texts(b, ids)), txt) + 1) as nat
        };
        crate::indexer::text::lemma_decimal_digits(n);
        let digits = decimal(n);
        assert forall|i: int| 0 <= i < digits.len() implies #[trigger] digits[i] < 0x80 by {
            assert(48 <= digits[i] <= 57);
        }
        lemma_ascii_valid_utf8(digits);
        encode_utf8_valid_utf8("var"@);
        encode_utf8_valid_utf8("func"@);
        valid_utf8_concat(utf8_bytes("var"@), digits);
        valid_utf8_concat(utf8_bytes("func"@), digits);
        assert(names[k] == plan[k].2);
    }
    lemma_substitute_sorted(b, t, names);
    assert(plan =~= edits_of(t, names));
}

/// Law: within the declared names, and within the other identifiers, two texts
/// get the same name exactly when they are equal.
pub proof fn law_name_for_injective(prefix: Seq<u8>, texts: Seq<Seq<u8>>, k1: int, k2: int)
    requires
        0 <= k1 < texts.len(),
        0 <= k2 < texts.len(),
    ensures
        name_for(prefix, texts, texts[k1]) == name_for(prefix, texts, texts[k2]) <==> texts[k1] == texts[k2],
{
    law_same_name_iff_same_text(prefix, texts, k1, k2);
}


/// Every element of `s` is one of the texts.
pub open spec fn all_in(s: Seq<Seq<u8>>, texts: Seq<Seq<u8>>) -> bool {
    forall|i: int| 0 <= i < s.len() ==> texts.contains(#[trigger] s[i])
}

/// `f` tells apart any two different texts among `texts`.
pub open spec fn injective_on(f: spec_fn(Seq<u8>) -> Seq<u8>, texts: Seq<Seq<u8>>) -> bool {
    forall|a: Seq<u8>, b: Seq<u8>|
        texts.contains(a) && texts.contains(b) && #[trigger] f(a) == #[trigger] f(b) ==> a == b
}

/// The naming of the texts: each text to its name (see `name_for`).
pub open spec fn namer(prefix: Seq<u8>, texts: Seq<Seq<u8>>) -> spec_fn(Seq<u8>) -> Seq<u8> {
    |t: Seq<u8>| name_for(prefix, texts, t)
}

/// The names of the texts, in order.
pub open spec fn names_of(prefix: Seq<u8>, texts: Seq<Seq<u8>>) -> Seq<Seq<u8>> {
    texts.map_values(namer(prefix, texts))
}

/// The first appearances are among the texts.
pub proof fn lemma_first_appearances_in(texts: Seq<Seq<u8>>)
    ensures
        all_in(first_appearances(texts), texts),
    decreases texts.len(),
{
    if texts.len() > 0 {
        let r = texts.drop_last();
        lemma_first_appearances_in(r);
        let d = first_appearances(r);
        let f = first_appearances(texts);
        assert forall|i: int| 0 <= i < f.len() implies texts.contains(#[trigger] f[i]) by {
            if i < d.len() {
                assert(f[i] == d[i]);
                assert(r.contains(d[i]));
                let j = choose|j: int| 0 <= j < r.len() && r[j] == d[i];
                assert(texts[j] == r[j]);
            } else {
                assert(f[i] == texts.last());
                assert(texts[texts.len() - 1] == texts.last());
            }
        }
    }
}

/// Every text is among the texts.
proof fn lemma_all_in_self(texts: Seq<Seq<u8>>)
    ensures
        all_in(texts, texts),
{
    assert forall|i: int| 0 <= i < texts.len() implies texts.contains(#[trigger] texts[i]) by {
        assert(texts[i] == texts[i]);
    }
}

/// Mapping the texts through a function that tells them apart maps their first
/// appearances.
pub proof fn lemma_first_appearances_map(
    texts: Seq<Seq<u8>>,
    f: spec_fn(Seq<u8>) -> Seq<u8>,
    all: Seq<Seq<u8>>,
)
    requires
        all_in(texts, all),
        injective_on(f, all),
    ensures
        first_appearances(texts.map_values(f)) == first_appearances(texts).map_values(f),
    decreases texts.len(),
{
    if texts.len() > 0 {
        let r = texts.drop_last();
        assert(texts.map_values(f).drop_last() =~= r.map_values(f));
        assert(all_in(r, all)) by {
            assert forall|i: int| 0 <= i < r.len() implies all.contains(#[trigger] r[i]) by {
                assert(r[i] == texts[i]);
            }
        }
        lemma_first_appearances_map(r, f, all);
        lemma_first_appearances_in(r);
        let d = first_appearances(r);
        let x = texts.last();
        assert(all.contains(x)) by {
            assert(texts[texts.len() - 1] == x);
        }
        assert(texts.map_values(f).last() == f(x));
        if d.contains(x) {
            let i = choose|i: int| 0 <= i < d.len() && d[i] == x;
            assert(d.map_values(f)[i] == f(x));
        } else {
            if d.map_values(f).contains(f(x)) {
                let i = choose|i: int| 0 <= i < d.len() && d.map_values(f)[i] == f(x);
                assert(r.contains(d[i]));
                let j = choose|j: int| 0 <= j < r.len() && r[j] == d[i];
                assert(all.contains(r[j]));
                assert(f(d[i]) == f(x));
                assert(false);
            }
            assert(d.push(x).map_values(f) =~= d.map_values(f).push(f(x)));
        }
    }
}

/// The index of a mapped text among mapped texts is the index of the text.
pub proof fn lemma_index_in_map(
    d: Seq<Seq<u8>>,
    t: Seq<u8>,
    f: spec_fn(Seq<u8>) -> Seq<u8>,
    all: Seq<Seq<u8>>,
)
    requires
        all_in(d, all),
        all.contains(t),
        injective_on(f, all),
    ensures
        index_in(d.map_values(f), f(t)) == index_in(d, t),
    decreases d.len(),
{
    if d.len() > 0 {
        assert(all.contains(d[0]));
        assert(d.map_values(f)[0] == f(d[0]));
        assert(d.map_values(f).drop_first() =~= d.drop_first().map_values(f));
        assert(all_in(d.drop_first(), all)) by {
            assert forall|i: int| 0 <= i < d.drop_first().len() implies all.contains(
                #[trigger] d.drop_first()[i],
            ) by {
                assert(d.drop_first()[i] == d[i + 1]);
            }
        }
        lemma_index_in_map(d.drop_first(), t, f, all);
    }
}

/// The naming of the texts tells them apart.
pub proof fn lemma_namer_injective(prefix: Seq<u8>, texts: Seq<Seq<u8>>)
    ensures
        injective_on(namer(prefix, texts), texts),
{
    assert forall|a: Seq<u8>, b: Seq<u8>|
        texts.contains(a) && texts.contains(b) && #[trigger] namer(prefix, texts)(a) == #[trigger] namer(
            prefix,
            texts,
        )(b) implies a == b by {
        let k1 = choose|k: int| 0 <= k < texts.len() && texts[k] == a;
        let k2 = choose|k: int| 0 <= k < texts.len() && texts[k] == b;
        law_name_for_injective(prefix, texts, k1, k2);
    }
}

/// Law: the names are a fixed point of the naming: naming the names that the
/// texts were given gives each name itself.
pub proof fn law_names_are_fixed(prefix: Seq<u8>, texts: Seq<Seq<u8>>, k: int)
    requires
        0 <= k < texts.len(),
    ensures
        name_for(prefix, names_of(prefix, texts), names_of(prefix, texts)[k]) == names_of(
            prefix,
            texts,
        )[k],
{
    let f = namer(prefix, texts);
    lemma_namer_injective(prefix, texts);
    lemma_all_in_self(texts);
    lemma_first_appearances_map(texts, f, texts);
    lemma_first_appearances_in(texts);
    assert(texts.contains(texts[k]));
    lemma_index_in_map(first_appearances(texts), texts[k], f, texts);
    assert(names_of(prefix, texts)[k] == f(texts[k]));
}

/// Law: naming does not see which texts the names had: after the texts are
/// replaced through a map that tells them apart, every position gets the name it
/// got before.
pub proof fn law_names_survive_renaming(
    prefix: Seq<u8>,
    texts: Seq<Seq<u8>>,
    h: spec_fn(Seq<u8>) -> Seq<u8>,
    k: int,
)
    requires
        0 <= k < texts.len(),
        injective_on(h, texts),
    ensures
        name_for(prefix, texts.map_values(h), texts.map_values(h)[k]) == name_for(
            prefix,
            texts,
            texts[k],
        ),
{
    lemma_all_in_self(texts);
    lemma_first_appearances_map(texts, h, texts);
    lemma_first_appearances_in(texts);
    assert(texts.contains(texts[k]));
    lemma_index_in_map(first_appearances(texts), texts[k], h, texts);
}

/// Putting back into each range the bytes it already holds keeps the bytes.
pub proof fn lemma_substitute_own_text(b: Seq<u8>, t: Seq<(usize, usize)>, names: Seq<Seq<u8>>)
    requires
        chained(t),
        names.len() == t.len(),
        forall|k: int| 0 <= k < t.len() ==> #[trigger] t[k].0 <= t[k].1 <= b.len(),
        forall|k: int|
            0 <= k < t.len() ==> #[trigger] names[k] == b.subrange(t[k].0 as int, t[k].1 as int),
    ensures
        substituted(b, t, names) == b,
    decreases t.len(),
{
    if t.len() > 0 {
        let a = b.subrange(0, t[0].0 as int);
        let rest = t.drop_first();
        let rn = names.drop_first();
        assert(t[0].0 <= t[0].1 <= b.len());
        assert forall|k: int| 0 <= k < rest.len() implies #[trigger] rest[k].0 <= rest[k].1 <= a.len() by {
            assert(rest[k] == t[k + 1]);
            assert(t[k + 1].0 <= t[k + 1].1);
            assert(t[k + 1].1 <= t[0].0);
        }
        assert forall|k: int| 0 <= k < rest.len() implies #[trigger] rn[k] == a.subrange(
            rest[k].0 as int,
            rest[k].1 as int,
        ) by {
            assert(rest[k] == t[k + 1]);
            assert(rn[k] == names[k + 1]);
            assert(t[k + 1].0 <= t[k + 1].1);
            assert(t[k + 1].1 <= t[0].0);
            assert(a.subrange(rest[k].0 as int, rest[k].1 as int) =~= b.subrange(
                t[k + 1].0 as int,
                t[k + 1].1 as int,
            ));
        }
        assert(chained(rest)) by {
            assert forall|i: int, j: int| 0 <= i < j < rest.len() implies #[trigger] rest[j].1
                <= #[trigger] rest[i].0 by {
                assert(t[j + 1].1 <= t[i + 1].0);
            }
        }
        lemma_substitute_own_text(a, rest, rn);
        assert(names[0] == b.subrange(t[0].0 as int, t[0].1 as int));
        assert(b =~= a + names[0] + b.subrange(t[0].1 as int, b.len() as int));
    }
}

/// Law (normalizing a normal form changes nothing): renaming code whose
/// identifiers already carry the names that a renaming gives keeps the code.
/// Taken by kind and ordered by decreasing start, the identifier ranges that are
/// not declared names hold the `var` names of the texts `ids`, and the declared
/// names hold the `func` names of the texts `decls`, as the renaming of code
/// whose identifiers held `ids` and `decls` left them.
pub proof fn law_renaming_a_normal_form_keeps_it(
    code: Seq<char>,
    all: Seq<(usize, usize)>,
    decl: Seq<(usize, usize)>,
    ids: Seq<Seq<u8>>,
    decls: Seq<Seq<u8>>,
)
    requires
        renamable(code, all, decl),
        token_texts(utf8_bytes(code), sort_desc_by_start(without(all, decl))) == names_of(
            utf8_bytes("var"@),
            ids,
        ),
        token_texts(utf8_bytes(code), sort_desc_by_start(decl)) == names_of(
            utf8_bytes("func"@),
            decls,
        ),
    ensures
        renamed(code, all, decl) == Some(code),
{
    let b = utf8_bytes(code);
    let both = all_names(all, decl);
    let t = sort_desc_by_start(both);
    let ids_r = sort_desc_by_start(without(all, decl));
    let ds = sort_desc_by_start(decl);
    let names = plan_names(b, all, decl);
    let var = utf8_bytes("var"@);
    let func = utf8_bytes("func"@);
    law_identifiers_renamed_in_place(code, all, decl);
    lemma_sorted_disjoint(b, both);
    encode_utf8_valid_utf8(code);
    law_sort_desc_sorted_permutation(both);
    law_sort_desc_sorted_permutation(decl);
    law_sort_desc_sorted_permutation(without(all, decl));
    lemma_sort_contains(both);
    lemma_sort_contains(decl);
    lemma_sort_contains(without(all, decl));
    law_identifier_pass_skips_declared_names(all, decl);
    assert(chained(t)) by {
        assert forall|i: int, j: int| 0 <= i < j < t.len() implies #[trigger] t[j].1 <= #[trigger] t[i].0 by {
            assert(t.contains(t[i]));
            let a = choose|a: int| 0 <= a < both.len() && both[a] == t[i];
            assert(both[a].0 < both[a].1);
        }
    }
    assert forall|k: int| 0 <= k < t.len() implies #[trigger] t[k].0 <= t[k].1 <= b.len() by {
        assert(t.contains(t[k]));
        let a = choose|a: int| 0 <= a < both.len() && both[a] == t[k];
        assert(edit_ok(b, both[a].0 as int, both[a].1 as int));
        crate::indexer::declarations::lemma_subrange_valid(b, t[k].0 as int, t[k].1 as int);
    }
    assert forall|k: int| 0 <= k < t.len() implies #[trigger] names[k] == b.subrange(
        t[k].0 as int,
        t[k].1 as int,
    ) by {
        let txt = b.subrange(t[k].0 as int, t[k].1 as int);
        assert(names[k] == renaming_plan(b, all, decl)[k].2);
        assert(t.contains(t[k]));
        assert(both.contains(t[k]));
        if decl.contains(t[k]) {
            assert(ds.contains(t[k]));
            let j = choose|j: int| 0 <= j < ds.len() && ds[j] == t[k];
            assert(token_texts(b, ds)[j] == txt);
            assert(names_of(func, decls)[j] == txt);
            law_names_are_fixed(func, decls, j);
        } else {
            let a = choose|a: int| 0 <= a < both.len() && both[a] == t[k];
            if a >= without(all, decl).len() {
                assert(both[a] == decl[a - without(all, decl).len()]);
                assert(decl.contains(t[k]));
            }
            assert(without(all, decl)[a] == t[k]);
            assert(without(all, decl).contains(t[k]));
            assert(ids_r.contains(t[k]));
            let j = choose|j: int| 0 <= j < ids_r.len() && ids_r[j] == t[k];
            assert(token_texts(b, ids_r)[j] == txt);
            assert(names_of(var, ids)[j] == txt);
            law_names_are_fixed(var, ids, j);
        }
    }
    assert(names.len() == t.len());
    lemma_substitute_own_text(b, t, names);
}

/// The identifier ranges can be renamed: they are non-empty, do not overlap, and
/// each lies between character boundaries of the code.
pub open spec fn renamable(code: Seq<char>, all: Seq<(usize, usize)>, decl: Seq<(usize, usize)>) -> bool {
    &&& pairwise_disjoint(all_names(all, decl))
    &&& forall|k: int|
        0 <= k < all_names(all, decl).len() ==> #[trigger] all_names(all, decl)[k].0 < all_names(
            all,
            decl,
        )[k].1
    &&& all_edit_ok(utf8_bytes(code), all_names(all, decl))
}

/// Two codes agree outside their ranges (each ordered by decreasing start): the
/// same number of ranges, the same text after the range that starts last, and
/// recursively the same text and ranges before it.
pub open spec fn same_outside(
    b1: Seq<u8>,
    t1: Seq<(usize, usize)>,
    b2: Seq<u8>,
    t2: Seq<(usize, usize)>,
) -> bool
    decreases t1.len(),
{
    if t1.len() == 0 || t2.len() == 0 {
        t1.len() == t2.len() && b1 == b2
    } else {
        &&& b1.subrange(t1[0].1 as int, b1.len() as int) == b2.subrange(t2[0].1 as int, b2.len() as int)
        &&& same_outside(
            b1.subrange(0, t1[0].0 as int),
            t1.drop_first(),
            b2.subrange(0, t2[0].0 as int),
            t2.drop_first(),
        )
    }
}

/// Code `code2` (with identifier ranges `all2`, declared names `decl2`) is code
/// `code1` with the text of every identifier replaced through `h`, which tells
/// the texts of each kind apart, and all other text kept. Ordered by decreasing
/// start, the identifier ranges of the two codes correspond one to one, are
/// declared names alike and hold texts related by `h`; so do the ranges of each
/// kind.
pub open spec fn renamed_through(
    h: spec_fn(Seq<u8>) -> Seq<u8>,
    code1: Seq<char>,
    all1: Seq<(usize, usize)>,
    decl1: Seq<(usize, usize)>,
    code2: Seq<char>,
    all2: Seq<(usize, usize)>,
    decl2: Seq<(usize, usize)>,
) -> bool {
    let b1 = utf8_bytes(code1);
    let b2 = utf8_bytes(code2);
    let t1 = sort_desc_by_start(all_names(all1, decl1));
    let t2 = sort_desc_by_start(all_names(all2, decl2));
    &&& same_outside(b1, t1, b2, t2)
    &&& forall|k: int|
        0 <= k < t1.len() ==> (decl2.contains(#[trigger] t2[k]) <==> decl1.contains(t1[k]))
            && b2.subrange(t2[k].0 as int, t2[k].1 as int) == h(
            b1.subrange(t1[k].0 as int, t1[k].1 as int),
        )
    &&& token_texts(b2, sort_desc_by_start(without(all2, decl2))) == token_texts(
        b1,
        sort_desc_by_start(without(all1, decl1)),
    ).map_values(h)
    &&& token_texts(b2, sort_desc_by_start(decl2)) == token_texts(b1, sort_desc_by_start(decl1)).map_values(h)
    &&& injective_on(h, token_texts(b1, sort_desc_by_start(without(all1, decl1))))
    &&& injective_on(h, token_texts(b1, sort_desc_by_start(decl1)))
}

/// Codes that agree outside their ranges have as many ranges.
pub proof fn lemma_same_outside_len(
    b1: Seq<u8>,
    t1: Seq<(usize, usize)>,
    b2: Seq<u8>,
    t2: Seq<(usize, usize)>,
)
    requires
        same_outside(b1, t1, b2, t2),
    ensures
        t1.len() == t2.len(),
    decreases t1.len(),
{
    if t1.len() > 0 && t2.len() > 0 {
        lemma_same_outside_len(
            b1.subrange(0, t1[0].0 as int),
            t1.drop_first(),
            b2.subrange(0, t2[0].0 as int),
            t2.drop_first(),
        );
    }
}

/// Codes that agree outside their ranges give the same text once the same names
/// are put in the ranges.
pub proof fn lemma_substitute_same_outside(
    b1: Seq<u8>,
    t1: Seq<(usize, usize)>,
    b2: Seq<u8>,
    t2: Seq<(usize, usize)>,
    names: Seq<Seq<u8>>,
)
    requires
        same_outside(b1, t1, b2, t2),
    ensures
        substituted(b1, t1, names) == substituted(b2, t2, names),
    decreases t1.len(),
{
    if t1.len() > 0 && t2.len() > 0 {
        lemma_substitute_same_outside(
            b1.subrange(0, t1[0].0 as int),
            t1.drop_first(),
            b2.subrange(0, t2[0].0 as int),
            t2.drop_first(),
            names.drop_first(),
        );
    }
}

/// Law (renaming identifiers does not change the normal form): when one code
/// is another with the text of every identifier replaced through one map that
/// tells the texts of each kind apart, and all other text kept (see
/// `renamed_through`), both codes are renamed to the same text.
pub proof fn law_renaming_keeps_the_normal_form(
    code1: Seq<char>,
    all1: Seq<(usize, usize)>,
    decl1: Seq<(usize, usize)>,
    code2: Seq<char>,
    all2: Seq<(usize, usize)>,
    decl2: Seq<(usize, usize)>,
    h: spec_fn(Seq<u8>) -> Seq<u8>,
)
    requires
        renamable(code1, all1, decl1),
        renamable(code2, all2, decl2),
        renamed_through(h, code1, all1, decl1, code2, all2, decl2),
    ensures
        renamed(code1, all1, decl1) == renamed(code2, all2, decl2),
{
    let b1 = utf8_bytes(code1);
    let b2 = utf8_bytes(code2);
    let both1 = all_names(all1, decl1);
    let both2 = all_names(all2, decl2);
    let t1 = sort_desc_by_start(both1);
    let t2 = sort_desc_by_start(both2);
    let ids1 = sort_desc_by_start(without(all1, decl1));
    let ds1 = sort_desc_by_start(decl1);
    let n1 = plan_names(b1, all1, decl1);
    let n2 = plan_names(b2, all2, decl2);
    let var = utf8_bytes("var"@);
    let func = utf8_bytes("func"@);
    law_identifiers_renamed_in_place(code1, all1, decl1);
    law_identifiers_renamed_in_place(code2, all2, decl2);
    law_sort_desc_sorted_permutation(both1);
    law_sort_desc_sorted_permutation(both2);
    law_sort_desc_sorted_permutation(decl1);
    law_sort_desc_sorted_permutation(without(all1, decl1));
    lemma_sort_contains(both1);
    lemma_sort_contains(decl1);
    lemma_sort_contains(without(all1, decl1));
    law_identifier_pass_skips_declared_names(all1, decl1);
    lemma_same_outside_len(b1, t1, b2, t2);
    assert forall|k: int| 0 <= k < t1.len() implies #[trigger] n2[k] == n1[k] by {
        let txt1 = b1.subrange(t1[k].0 as int, t1[k].1 as int);
        let txt2 = b2.subrange(t2[k].0 as int, t2[k].1 as int);
        assert(txt2 == h(txt1));
        assert(n1[k] == renaming_plan(b1, all1, decl1)[k].2);
        assert(n2[k] == renaming_plan(b2, all2, decl2)[k].2);
        assert(t1.contains(t1[k]));
        if decl1.contains(t1[k]) {
            assert(decl2.contains(t2[k]));
            assert(ds1.contains(t1[k]));
            let j = choose|j: int| 0 <= j < ds1.len() && ds1[j] == t1[k];
            let tt = token_texts(b1, ds1);
            assert(tt[j] == txt1);
            assert(tt.map_values(h)[j] == txt2);
            law_names_survive_renaming(func, tt, h, j);
        } else {
            assert(!decl2.contains(t2[k]));
            let a = choose|a: int| 0 <= a < both1.len() && both1[a] == t1[k];
            if a >= without(all1, decl1).len() {
                assert(both1[a] == decl1[a - without(all1, decl1).len()]);
                assert(decl1.contains(t1[k]));
            }
            assert(without(all1, decl1)[a] == t1[k]);
            assert(without(all1, decl1).contains(t1[k]));
            assert(ids1.contains(t1[k]));
            let j = choose|j: int| 0 <= j < ids1.len() && ids1[j] == t1[k];
            let tt = token_texts(b1, ids1);
            assert(tt[j] == txt1);
            assert(tt.map_values(h)[j] == txt2);
            law_names_survive_renaming(var, tt, h, j);
        }
    }
    assert(n1 =~= n2);
    lemma_substitute_same_outside(b1, t1, b2, t2, n1);
}

} // verus!
