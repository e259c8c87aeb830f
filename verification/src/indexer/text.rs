//! Byte-level text utilities: UTF-8 aware comparison, slicing, splicing and
//! ordering of byte ranges, all stated over the UTF-8 encoding of a string.
use vstd::prelude::*;
use vstd::string::*;
use vstd::utf8::*;

verus! {

broadcast use vstd::utf8::group_utf8_lib;

/// The UTF-8 bytes of a string's characters.
pub open spec fn utf8_bytes(s: Seq<char>) -> Seq<u8> {
    encode_utf8(s)
}

/// Compares two string slices by their characters.
pub fn str_equal(a: &str, b: &str) -> (r: bool)
    ensures
        r == (a@ == b@),
{
    let ab = a.as_bytes();
    let bb = b.as_bytes();
    if ab.len() != bb.len() {
        return false;
    }
    let n = ab.len();
    let mut i: usize = 0;
    while i < n
        invariant
            n == ab@.len(),
            n == bb@.len(),
            i <= n,
            ab@ == encode_utf8(a@),
            bb@ == encode_utf8(b@),
            forall|j: int| 0 <= j < i ==> ab@[j] == bb@[j],
        decreases n - i,
    {
        if ab[i] != bb[i] {
            return false;
        }
        i = i + 1;
    }
    assert(ab@ =~= bb@);
    assert(a@ == decode_utf8(encode_utf8(a@)));
    assert(b@ == decode_utf8(encode_utf8(b@)));
    true
}

/// The UTF-8 bytes of a string.
pub fn string_bytes(s: &String) -> (r: Vec<u8>)
    ensures
        r@ == utf8_bytes(s@),
{
    s.as_str().as_bytes_vec()
}

/// `String::from_utf8`: std documents that it returns the string whose bytes are
/// the given ones when they are valid UTF-8, and an error otherwise.
#[verifier::external_body]
fn string_from_utf8(bytes: Vec<u8>) -> (r: Option<String>)
    ensures
        r is Some <==> valid_utf8(bytes@),
        r matches Some(s) ==> utf8_bytes(s@) == bytes@,
{
    String::from_utf8(bytes).ok()
}

/// Decodes bytes known to be valid UTF-8 into a string.
pub fn bytes_to_string(bytes: Vec<u8>) -> (r: String)
    requires
        valid_utf8(bytes@),
    ensures
        utf8_bytes(r@) == bytes@,
        r@ == decode_utf8(bytes@),
{
    match string_from_utf8(bytes) {
        Some(s) => s,
        None => {
            assert(false);
            String::new()
        },
    }
}

/// Decodes bytes into a string when they are valid UTF-8.
pub fn bytes_to_string_checked(bytes: Vec<u8>) -> (r: Option<String>)
    ensures
        r is Some <==> valid_utf8(bytes@),
        r matches Some(s) ==> s@ == decode_utf8(bytes@),
{
    let ghost b = bytes@;
    let r = string_from_utf8(bytes);
    proof {
        if r is Some {
            assert(decode_utf8(utf8_bytes(r->0@)) == r->0@);
        }
    }
    r
}

/// Whether `index` is a character boundary of the bytes (known to be valid UTF-8).
pub fn char_boundary(bytes: &Vec<u8>, index: usize) -> (r: bool)
    requires
        valid_utf8(bytes@),
    ensures
        r == is_char_boundary(bytes@, index as int),
{
    if index == 0 {
        true
    } else if index > bytes.len() {
        false
    } else if index == bytes.len() {
        proof {
            is_char_boundary_start_end_of_seq(bytes@);
        }
        true
    } else {
        let b = bytes[index];
        proof {
            is_char_boundary_iff_not_is_continuation_byte(bytes@, index as int);
        }
        !(0x80 <= b && b <= 0xbf)
    }
}

/// The bytes `text[start..end]`.
pub fn copy_range(text: &Vec<u8>, start: usize, end: usize) -> (r: Vec<u8>)
    requires
        start <= end <= text@.len(),
    ensures
        r@ == text@.subrange(start as int, end as int),
{
    let mut r: Vec<u8> = Vec::new();
    let mut i: usize = start;
    while i < end
        invariant
            start <= i <= end <= text@.len(),
            r@ == text@.subrange(start as int, i as int),
        decreases end - i,
    {
        r.push(text[i]);
        i = i + 1;
    }
    r
}

/// Appends all of `src` to `dst`.
pub fn append_bytes(dst: &mut Vec<u8>, src: &Vec<u8>)
    ensures
        final(dst)@ == old(dst)@ + src@,
{
    let mut i: usize = 0;
    let ghost start = dst@;
    while i < src.len()
        invariant
            i <= src@.len(),
            dst@ == start + src@.subrange(0, i as int),
        decreases src@.len() - i,
    {
        dst.push(src[i]);
        i = i + 1;
    }
    assert(src@.subrange(0, src@.len() as int) =~= src@);
}

/// `text` with the bytes in `[start, end)` replaced by `ins`.
pub open spec fn splice(text: Seq<u8>, start: int, end: int, ins: Seq<u8>) -> Seq<u8> {
    text.subrange(0, start) + ins + text.subrange(end, text.len() as int)
}

/// A range that `String::replace_range` accepts on a string with these bytes:
/// ordered, and both ends on character boundaries (hence within the text).
pub open spec fn edit_ok(text: Seq<u8>, start: int, end: int) -> bool {
    &&& start <= end
    &&& is_char_boundary(text, start)
    &&& is_char_boundary(text, end)
}

/// An edit: replace the bytes of a range by new bytes.
pub type Edit = (usize, usize, Vec<u8>);

pub open spec fn edit_view(e: Edit) -> (usize, usize, Seq<u8>) {
    (e.0, e.1, e.2@)
}

pub open spec fn edits_view(es: Seq<Edit>) -> Seq<(usize, usize, Seq<u8>)> {
    es.map_values(|e: Edit| edit_view(e))
}

/// Applies the edits one after another, each to the result of the ones before;
/// `None` as soon as one of them is not accepted on the text it is applied to.
pub open spec fn apply_edits(text: Seq<u8>, edits: Seq<(usize, usize, Seq<u8>)>) -> Option<Seq<u8>>
    decreases edits.len(),
{
    if edits.len() == 0 {
        Some(text)
    } else if edit_ok(text, edits[0].0 as int, edits[0].1 as int) {
        apply_edits(splice(text, edits[0].0 as int, edits[0].1 as int, edits[0].2), edits.drop_first())
    } else {
        None
    }
}

/// Every inserted text is valid UTF-8.
pub open spec fn inserts_valid(edits: Seq<(usize, usize, Seq<u8>)>) -> bool {
    forall|i: int| 0 <= i < edits.len() ==> valid_utf8(#[trigger] edits[i].2)
}

/// Replacing a range between character boundaries by valid UTF-8 keeps the text valid.
pub proof fn lemma_splice_valid(text: Seq<u8>, start: int, end: int, ins: Seq<u8>)
    requires
        valid_utf8(text),
        edit_ok(text, start, end),
        valid_utf8(ins),
    ensures
        valid_utf8(splice(text, start, end, ins)),
{
    valid_utf8_split(text, start);
    valid_utf8_split(text, end);
    valid_utf8_concat(text.subrange(0, start), ins);
    valid_utf8_concat(text.subrange(0, start) + ins, text.subrange(end, text.len() as int));
}

/// Applying valid edits to valid UTF-8 gives valid UTF-8.
pub proof fn lemma_apply_edits_valid(text: Seq<u8>, edits: Seq<(usize, usize, Seq<u8>)>)
    requires
        valid_utf8(text),
        inserts_valid(edits),
    ensures
        apply_edits(text, edits) matches Some(r) ==> valid_utf8(r),
    decreases edits.len(),
{
    if edits.len() > 0 && edit_ok(text, edits[0].0 as int, edits[0].1 as int) {
        assert(valid_utf8(edits[0].2));
        lemma_splice_valid(text, edits[0].0 as int, edits[0].1 as int, edits[0].2);
        assert forall|i: int| 0 <= i < edits.drop_first().len() implies valid_utf8(
            #[trigger] edits.drop_first()[i].2,
        ) by {
            assert(valid_utf8(edits[i + 1].2));
        }
        lemma_apply_edits_valid(
            splice(text, edits[0].0 as int, edits[0].1 as int, edits[0].2),
            edits.drop_first(),
        );
    }
}

/// The bytes of `text` with `[start, end)` replaced by `ins`.
pub fn splice_bytes(text: &Vec<u8>, start: usize, end: usize, ins: &Vec<u8>) -> (r: Vec<u8>)
    requires
        start <= end <= text@.len(),
    ensures
        r@ == splice(text@, start as int, end as int, ins@),
{
    let mut r = copy_range(text, 0, start);
    append_bytes(&mut r, ins);
    let tail = copy_range(text, end, text.len());
    append_bytes(&mut r, &tail);
    r
}

/// Applies the edits in order; `None` exactly when `apply_edits` is `None`.
pub fn apply_edit_list(text: Vec<u8>, edits: &Vec<Edit>) -> (r: Option<Vec<u8>>)
    requires
        valid_utf8(text@),
        inserts_valid(edits_view(edits@)),
    ensures
        match apply_edits(text@, edits_view(edits@)) {
            Some(t) => r matches Some(v) && v@ == t,
            None => r is None,
        },
{
    let ghost all = edits_view(edits@);
    let mut cur = text;
    let mut i: usize = 0;
    assert(all.skip(0) =~= all);
    while i < edits.len()
        invariant
            i <= edits@.len(),
            all == edits_view(edits@),
            inserts_valid(all),
            valid_utf8(cur@),
            apply_edits(text@, all) == apply_edits(cur@, all.skip(i as int)),
        decreases edits@.len() - i,
    {
        let ghost rest = all.skip(i as int);
        assert(rest[0] == edit_view(edits@[i as int]));
        assert(rest.drop_first() =~= all.skip(i + 1));
        let start = edits[i].0;
        let end = edits[i].1;
        if start <= end && char_boundary(&cur, start) && char_boundary(&cur, end) {
            proof {
                assert(valid_utf8(all[i as int].2));
                lemma_splice_valid(cur@, start as int, end as int, edits@[i as int].2@);
            }
            cur = splice_bytes(&cur, start, end, &edits[i].2);
        } else {
            return None;
        }
        i = i + 1;
    }
    assert(all.skip(i as int).len() == 0);
    Some(cur)
}

/// Bytes below 0x80 (ASCII) form valid UTF-8.
pub proof fn lemma_ascii_valid_utf8(s: Seq<u8>)
    requires
        forall|i: int| 0 <= i < s.len() ==> #[trigger] s[i] < 0x80,
    ensures
        valid_utf8(s),
    decreases s.len(),
{
    if s.len() > 0 {
        let b = s[0];
        assert(b < 0x80);
        assert(((b & 0x7F) as u32) < 0xD800) by (bit_vector);
        let rest = s.subrange(1, s.len() as int);
        assert forall|i: int| 0 <= i < rest.len() implies #[trigger] rest[i] < 0x80 by {
            assert(rest[i] == s[i + 1]);
        }
        lemma_ascii_valid_utf8(rest);
        assert(pop_first_scalar(s) =~= rest);
    }
}

/// The decimal digits of `n`, most significant first, as ASCII bytes.
pub open spec fn decimal(n: nat) -> Seq<u8>
    decreases n,
{
    if n < 10 {
        seq![(48 + n) as u8]
    } else {
        decimal(n / 10).push((48 + n % 10) as u8)
    }
}

/// The decimal representation consists of ASCII digits.
pub proof fn lemma_decimal_digits(n: nat)
    ensures
        decimal(n).len() > 0,
        forall|i: int| 0 <= i < decimal(n).len() ==> 48 <= #[trigger] decimal(n)[i] <= 57,
    decreases n,
{
    if n >= 10 {
        lemma_decimal_digits(n / 10);
    }
}

/// Renders `n` in decimal.
pub fn decimal_bytes(n: usize) -> (r: Vec<u8>)
    ensures
        r@ == decimal(n as nat),
    decreases n,
{
    if n < 10 {
        let mut v: Vec<u8> = Vec::new();
        v.push(48u8 + n as u8);
        v
    } else {
        let mut v = decimal_bytes(n / 10);
        v.push(48u8 + (n % 10) as u8);
        v
    }
}

/// The number of leading ranges whose start is at least `key`.
pub open spec fn count_leading_ge(t: Seq<(usize, usize)>, key: usize) -> nat
    decreases t.len(),
{
    if t.len() == 0 {
        0
    } else if t[0].0 >= key {
        1 + count_leading_ge(t.drop_first(), key)
    } else {
        0
    }
}

/// Inserts `x` into `t` (ordered by decreasing start) after every range whose
/// start is at least that of `x`.
pub open spec fn insert_desc(t: Seq<(usize, usize)>, x: (usize, usize)) -> Seq<(usize, usize)> {
    let p = count_leading_ge(t, x.0) as int;
    t.take(p).push(x) + t.skip(p)
}

/// The ranges ordered by decreasing start; ranges with equal starts keep their
/// relative order (a stable sort).
pub open spec fn sort_desc_by_start(s: Seq<(usize, usize)>) -> Seq<(usize, usize)>
    decreases s.len(),
{
    if s.len() == 0 {
        s
    } else {
        insert_desc(sort_desc_by_start(s.drop_last()), s.last())
    }
}

proof fn lemma_count_leading_ge(t: Seq<(usize, usize)>, key: usize, p: int)
    requires
        0 <= p <= t.len(),
        forall|j: int| 0 <= j < p ==> #[trigger] t[j].0 >= key,
        p == t.len() || t[p].0 < key,
    ensures
        count_leading_ge(t, key) == p,
    decreases p,
{
    if p > 0 {
        assert forall|j: int| 0 <= j < p - 1 implies #[trigger] t.drop_first()[j].0 >= key by {
            assert(t[j + 1].0 >= key);
        }
        lemma_count_leading_ge(t.drop_first(), key, p - 1);
    }
}

/// Sorts ranges by decreasing start, stably.
pub fn sort_ranges_desc(v: &Vec<(usize, usize)>) -> (r: Vec<(usize, usize)>)
    ensures
        r@ == sort_desc_by_start(v@),
{
    let mut sorted: Vec<(usize, usize)> = Vec::new();
    let mut k: usize = 0;
    assert(v@.take(0) =~= Seq::<(usize, usize)>::empty());
    while k < v.len()
        invariant
            k <= v@.len(),
            sorted@ == sort_desc_by_start(v@.take(k as int)),
        decreases v@.len() - k,
    {
        let x = v[k];
        let mut p: usize = 0;
        while p < sorted.len() && sorted[p].0 >= x.0
            invariant
                p <= sorted@.len(),
                forall|j: int| 0 <= j < p ==> #[trigger] sorted@[j].0 >= x.0,
            decreases sorted@.len() - p,
        {
            p = p + 1;
        }
        proof {
            lemma_count_leading_ge(sorted@, x.0, p as int);
        }
        let mut next: Vec<(usize, usize)> = Vec::new();
        let mut j: usize = 0;
        while j < p
            invariant
                j <= p <= sorted@.len(),
                next@ == sorted@.take(j as int),
            decreases p - j,
        {
            next.push(sorted[j]);
            j = j + 1;
            assert(next@ =~= sorted@.take(j as int));
        }
        next.push(x);
        let ghost front = next@;
        while j < sorted.len()
            invariant
                p <= j <= sorted@.len(),
                next@ == front + sorted@.subrange(p as int, j as int),
            decreases sorted@.len() - j,
        {
            next.push(sorted[j]);
            j = j + 1;
            assert(next@ =~= front + sorted@.subrange(p as int, j as int));
        }
        proof {
            assert(v@.take(k + 1).drop_last() =~= v@.take(k as int));
            assert(v@.take(k + 1).last() == x);
            assert(sorted@.subrange(p as int, sorted@.len() as int) =~= sorted@.skip(p as int));
            assert(next@ =~= insert_desc(sorted@, x));
        }
        sorted = next;
        k = k + 1;
    }
    assert(v@.take(v@.len() as int) =~= v@);
    sorted
}

/// Ordered by decreasing start.
pub open spec fn sorted_desc(t: Seq<(usize, usize)>) -> bool {
    forall|i: int, j: int| 0 <= i < j < t.len() ==> t[i].0 >= t[j].0
}

proof fn lemma_count_leading_ge_props(t: Seq<(usize, usize)>, key: usize)
    ensures
        count_leading_ge(t, key) <= t.len(),
        forall|j: int| 0 <= j < count_leading_ge(t, key) ==> #[trigger] t[j].0 >= key,
        count_leading_ge(t, key) < t.len() ==> t[count_leading_ge(t, key) as int].0 < key,
    decreases t.len(),
{
    if t.len() > 0 && t[0].0 >= key {
        lemma_count_leading_ge_props(t.drop_first(), key);
        assert forall|j: int| 0 <= j < count_leading_ge(t, key) implies #[trigger] t[j].0 >= key by {
            if j > 0 {
                assert(t[j] == t.drop_first()[j - 1]);
            }
        }
    }
}

proof fn lemma_insert_desc(t: Seq<(usize, usize)>, x: (usize, usize))
    requires
        sorted_desc(t),
    ensures
        sorted_desc(insert_desc(t, x)),
        insert_desc(t, x).to_multiset() == t.to_multiset().insert(x),
{
    lemma_count_leading_ge_props(t, x.0);
    let p = count_leading_ge(t, x.0) as int;
    let r = insert_desc(t, x);
    assert(r =~= t.insert(p, x));
    vstd::seq_lib::to_multiset_insert(t, p, x);
    assert forall|i: int, j: int| 0 <= i < j < r.len() implies r[i].0 >= r[j].0 by {
        if j < p {
        } else if j == p {
        } else if i < p {
            assert(r[j] == t[j - 1]);
        } else if i == p {
            assert(r[j] == t[j - 1]);
            assert(t[p].0 >= t[j - 1].0 || p == j - 1);
        } else {
            assert(r[i] == t[i - 1]);
            assert(r[j] == t[j - 1]);
        }
    }
}

/// Law: sorting keeps every range (as a multiset) and orders them by decreasing start.
pub proof fn law_sort_desc_sorted_permutation(s: Seq<(usize, usize)>)
    ensures
        sorted_desc(sort_desc_by_start(s)),
        sort_desc_by_start(s).to_multiset() == s.to_multiset(),
        sort_desc_by_start(s).len() == s.len(),
    decreases s.len(),
{
    broadcast use vstd::seq_lib::group_to_multiset_ensures;

    if s.len() > 0 {
        law_sort_desc_sorted_permutation(s.drop_last());
        lemma_insert_desc(sort_desc_by_start(s.drop_last()), s.last());
        assert(s.drop_last().push(s.last()) =~= s);
    }
    vstd::seq_lib::to_multiset_len(sort_desc_by_start(s));
    vstd::seq_lib::to_multiset_len(s);
}

} // verus!
