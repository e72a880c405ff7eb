//! Byte-level text utilities: ASCII case folding, whitespace trimming,
//! searching and splitting on separators, decimal rendering, and an
//! association-list map keyed case-insensitively by byte-string names.

use vstd::prelude::*;

verus! {

broadcast use vstd::string::group_string_axioms;

/// ASCII whitespace as recognized by the header grammar.
pub open spec fn is_ws_byte(b: u8) -> bool {
    b == 32 || b == 9 || b == 13 || b == 10
}

/// ASCII lower-casing of one byte; other bytes are untouched.
pub open spec fn lower_byte(b: u8) -> u8 {
    if 65 <= b && b <= 90 {
        (b + 32) as u8
    } else {
        b
    }
}

pub open spec fn lower_bytes(s: Seq<u8>) -> Seq<u8> {
    s.map_values(|b: u8| lower_byte(b))
}

/// The bytes of an ASCII string, character by character.
pub open spec fn bytes_of_str(s: Seq<char>) -> Seq<u8> {
    s.map_values(|c: char| c as u8)
}

/// Index of the first occurrence of `sep` in `s` at or after `from`.
pub open spec fn find_sub_from(s: Seq<u8>, sep: Seq<u8>, from: int) -> Option<int>
    decreases s.len() - from,
    when 0 <= from <= s.len() && sep.len() >= 1
{
    if from + sep.len() > s.len() {
        None
    } else if s.subrange(from, from + sep.len() as int) == sep {
        Some(from)
    } else {
        find_sub_from(s, sep, from + 1)
    }
}

pub open spec fn find_sub(s: Seq<u8>, sep: Seq<u8>) -> Option<int> {
    find_sub_from(s, sep, 0)
}

pub proof fn lemma_find_sub_from_props(s: Seq<u8>, sep: Seq<u8>, from: int)
    requires
        0 <= from <= s.len(),
        sep.len() >= 1,
    ensures
        match find_sub_from(s, sep, from) {
            Some(i) => from <= i && i + sep.len() <= s.len() && s.subrange(
                i,
                i + sep.len() as int,
            ) == sep,
            None => true,
        },
    decreases s.len() - from,
{
    if from + sep.len() <= s.len() && s.subrange(from, from + sep.len() as int) != sep {
        lemma_find_sub_from_props(s, sep, from + 1);
    }
}

/// If `sep` does not occur before `i` but occurs at `i`, the search finds `i`.
pub proof fn lemma_find_sub_from_first(s: Seq<u8>, sep: Seq<u8>, from: int, i: int)
    requires
        0 <= from <= s.len(),
        sep.len() >= 1,
        from <= i,
        i + sep.len() <= s.len(),
        s.subrange(i, i + sep.len() as int) == sep,
        forall|j: int|
            from <= j < i ==> #[trigger] s.subrange(j, j + sep.len() as int) != sep,
    ensures
        find_sub_from(s, sep, from) == Some(i),
    decreases i - from,
{
    if from < i {
        lemma_find_sub_from_first(s, sep, from + 1, i);
    }
}

/// If `sep` occurs nowhere at or after `from`, the search fails.
pub proof fn lemma_find_sub_from_none(s: Seq<u8>, sep: Seq<u8>, from: int)
    requires
        0 <= from <= s.len(),
        sep.len() >= 1,
        forall|j: int|
            from <= j && j + sep.len() <= s.len() ==> #[trigger] s.subrange(j, j + sep.len() as int)
                != sep,
    ensures
        find_sub_from(s, sep, from) is None,
    decreases s.len() - from,
{
    if from + sep.len() <= s.len() {
        lemma_find_sub_from_none(s, sep, from + 1);
    }
}

/// A sequence free of a one-byte separator splits into itself alone.
pub proof fn lemma_split_absent(a: Seq<u8>, sep: Seq<u8>)
    requires
        sep.len() == 1,
        forall|j: int| 0 <= j < a.len() ==> a[j] != sep[0],
    ensures
        split_sub(a, sep) == seq![a],
{
    assert forall|j: int| 0 <= j && j + 1 <= a.len() implies #[trigger] a.subrange(j, j + 1)
        != sep by {
        assert(a.subrange(j, j + 1) =~= seq![a[j]]);
        assert(sep =~= seq![sep[0]]);
    }
    lemma_find_sub_from_none(a, sep, 0);
    assert(a.subrange(0, a.len() as int) =~= a);
}

/// Searching a concatenation past the first part is searching the second.
pub proof fn lemma_find_sub_from_shift(x: Seq<u8>, y: Seq<u8>, sep: Seq<u8>, k: int)
    requires
        sep.len() == 1,
        0 <= k <= y.len(),
    ensures
        find_sub_from(x + y, sep, x.len() + k) == match find_sub_from(y, sep, k) {
            None => None,
            Some(i) => Some(x.len() + i),
        },
    decreases y.len() - k,
{
    let s = x + y;
    if k + 1 <= y.len() {
        assert(s.subrange(x.len() + k, x.len() + k + 1) =~= y.subrange(k, k + 1));
        if y.subrange(k, k + 1) != sep {
            lemma_find_sub_from_shift(x, y, sep, k + 1);
        }
    }
}

/// Splitting a concatenation past the first part is splitting the second.
pub proof fn lemma_split_from_shift(x: Seq<u8>, y: Seq<u8>, sep: Seq<u8>, k: int)
    requires
        sep.len() == 1,
        0 <= k <= y.len(),
    ensures
        split_from(x + y, sep, x.len() + k) == split_from(y, sep, k),
    decreases y.len() - k,
{
    let s = x + y;
    lemma_find_sub_from_shift(x, y, sep, k);
    lemma_find_sub_from_props(y, sep, k);
    match find_sub_from(y, sep, k) {
        None => {
            assert(s.subrange(x.len() + k, s.len() as int) =~= y.subrange(k, y.len() as int));
            assert(split_from(s, sep, x.len() + k) =~= split_from(y, sep, k));
        },
        Some(i) => {
            assert(s.subrange(x.len() + k, x.len() + i) =~= y.subrange(k, i));
            lemma_split_from_shift(x, y, sep, i + 1);
            assert(split_from(s, sep, x.len() + k) =~= split_from(y, sep, k));
        },
    }
}

/// Splitting `a ++ sep ++ b` on a one-byte `sep` absent from `a` yields `a`
/// and then the pieces of `b`.
pub proof fn lemma_split_prepend(a: Seq<u8>, b: Seq<u8>, sep: Seq<u8>)
    requires
        sep.len() == 1,
        forall|j: int| 0 <= j < a.len() ==> a[j] != sep[0],
    ensures
        split_sub(a + sep + b, sep) == seq![a] + split_sub(b, sep),
{
    let s = a + sep + b;
    assert forall|j: int| 0 <= j < a.len() implies #[trigger] s.subrange(j, j + 1) != sep by {
        assert(s.subrange(j, j + 1) =~= seq![a[j]]);
        assert(sep =~= seq![sep[0]]);
    }
    assert(s.subrange(a.len() as int, a.len() + 1 as int) =~= sep);
    lemma_find_sub_from_first(s, sep, 0, a.len() as int);
    assert(s.subrange(0, a.len() as int) =~= a);
    assert(s =~= (a + sep) + b);
    lemma_split_from_shift(a + sep, b, sep, 0);
    assert(split_from(s, sep, 0) =~= seq![a] + split_sub(b, sep));
}

/// The pieces of `s` from `from` on, split on each occurrence of `sep`.
pub open spec fn split_from(s: Seq<u8>, sep: Seq<u8>, from: int) -> Seq<Seq<u8>>
    decreases s.len() - from,
    when 0 <= from <= s.len() && sep.len() >= 1
    via split_from_decreases
{
    match find_sub_from(s, sep, from) {
        None => seq![s.subrange(from, s.len() as int)],
        Some(i) => seq![s.subrange(from, i)] + split_from(s, sep, i + sep.len()),
    }
}

#[via_fn]
proof fn split_from_decreases(s: Seq<u8>, sep: Seq<u8>, from: int) {
    lemma_find_sub_from_props(s, sep, from);
}

/// Splitting on a separator, as `str::split` does: always at least one piece,
/// and the separator itself appears in none of them.
pub open spec fn split_sub(s: Seq<u8>, sep: Seq<u8>) -> Seq<Seq<u8>> {
    split_from(s, sep, 0)
}

pub open spec fn trim_start_spec(s: Seq<u8>) -> Seq<u8>
    decreases s.len(),
{
    if s.len() > 0 && is_ws_byte(s[0]) {
        trim_start_spec(s.drop_first())
    } else {
        s
    }
}

pub open spec fn trim_end_spec(s: Seq<u8>) -> Seq<u8>
    decreases s.len(),
{
    if s.len() > 0 && is_ws_byte(s[s.len() - 1]) {
        trim_end_spec(s.drop_last())
    } else {
        s
    }
}

/// `s` with ASCII whitespace removed from both ends.
pub open spec fn trim_spec(s: Seq<u8>) -> Seq<u8> {
    trim_end_spec(trim_start_spec(s))
}

/// The decimal digits of `n`, most significant first.
pub open spec fn dec_bytes_spec(n: nat) -> Seq<u8>
    decreases n,
{
    if n < 10 {
        seq![(48 + n) as u8]
    } else {
        dec_bytes_spec(n / 10).push((48 + n % 10) as u8)
    }
}

proof fn lemma_trim_start_skip(s: Seq<u8>, a: int)
    requires
        0 <= a <= s.len(),
        forall|j: int| 0 <= j < a ==> is_ws_byte(#[trigger] s[j]),
        a < s.len() ==> !is_ws_byte(s[a]),
    ensures
        trim_start_spec(s) == s.skip(a),
    decreases a,
{
    if a == 0 {
        assert(s.skip(0) =~= s);
    } else {
        lemma_trim_start_skip(s.drop_first(), a - 1);
        assert(s.drop_first().skip(a - 1) =~= s.skip(a));
    }
}

proof fn lemma_trim_end_take(s: Seq<u8>, b: int)
    requires
        0 <= b <= s.len(),
        forall|j: int| b <= j < s.len() ==> is_ws_byte(#[trigger] s[j]),
        b > 0 ==> !is_ws_byte(s[b - 1]),
    ensures
        trim_end_spec(s) == s.take(b),
    decreases s.len() - b,
{
    if b == s.len() {
        assert(s.take(b) =~= s);
    } else {
        lemma_trim_end_take(s.drop_last(), b);
        assert(s.drop_last().take(b) =~= s.take(b));
    }
}

pub fn slice_eq_bytes(a: &[u8], b: &[u8]) -> (r: bool)
    ensures
        r == (a@ == b@),
{
    if a.len() != b.len() {
        return false;
    }
    let mut i: usize = 0;
    while i < a.len()
        invariant
            i <= a.len(),
            a@.len() == b@.len(),
            forall|j: int| 0 <= j < i ==> a@[j] == b@[j],
        decreases a.len() - i,
    {
        if a[i] != b[i] {
            return false;
        }
        i += 1;
    }
    proof {
        assert(a@ =~= b@);
    }
    true
}

/// The bytes of an ASCII string slice.
pub fn str_bytes(s: &str) -> (r: &[u8])
    requires
        vstd::utf8::is_ascii_chars(s@),
    ensures
        r@ == bytes_of_str(s@),
{
    proof {
        vstd::string::is_ascii_spec_bytes(s);
    }
    let r = s.as_bytes();
    proof {
        assert(r@ =~= bytes_of_str(s@));
    }
    r
}

pub fn lower_vec(data: &[u8]) -> (r: Vec<u8>)
    ensures
        r@ == lower_bytes(data@),
{
    let mut v: Vec<u8> = Vec::new();
    let mut i: usize = 0;
    while i < data.len()
        invariant
            i <= data.len(),
            v@ == lower_bytes(data@.take(i as int)),
        decreases data.len() - i,
    {
        let b = data[i];
        let lb: u8 = if 65 <= b && b <= 90 {
            b + 32
        } else {
            b
        };
        v.push(lb);
        proof {
            assert(v@ =~= lower_bytes(data@.take(i + 1)));
        }
        i += 1;
    }
    proof {
        assert(data@.take(data@.len() as int) =~= data@);
    }
    v
}

pub fn copy_range(data: &[u8], a: usize, b: usize) -> (r: Vec<u8>)
    requires
        a <= b,
        b <= data.len(),
    ensures
        r@ == data@.subrange(a as int, b as int),
{
    let mut v: Vec<u8> = Vec::new();
    let mut i: usize = a;
    while i < b
        invariant
            a <= i <= b <= data.len(),
            v@ == data@.subrange(a as int, i as int),
        decreases b - i,
    {
        v.push(data[i]);
        proof {
            assert(v@ =~= data@.subrange(a as int, i + 1));
        }
        i += 1;
    }
    v
}

fn window_eq(data: &[u8], at: usize, sep: &[u8]) -> (r: bool)
    requires
        at + sep.len() <= data.len(),
    ensures
        r == (data@.subrange(at as int, at + sep@.len()) == sep@),
{
    let mut j: usize = 0;
    while j < sep.len()
        invariant
            j <= sep.len(),
            at + sep.len() <= data.len(),
            forall|k: int| 0 <= k < j ==> data@[at + k] == sep@[k],
        decreases sep.len() - j,
    {
        if data[at + j] != sep[j] {
            proof {
                assert(data@.subrange(at as int, at + sep@.len())[j as int] != sep@[j as int]);
            }
            return false;
        }
        j += 1;
    }
    proof {
        assert(data@.subrange(at as int, at + sep@.len()) =~= sep@);
    }
    true
}

pub fn find_sub_slice_from(data: &[u8], sep: &[u8], from: usize) -> (r: Option<usize>)
    requires
        sep.len() >= 1,
        from <= data.len(),
    ensures
        match r {
            Some(i) => from <= i && i + sep@.len() <= data@.len()
                && find_sub_from(data@, sep@, from as int) == Some(i as int),
            None => find_sub_from(data@, sep@, from as int) is None,
        },
{
    let mut i: usize = from;
    loop
        invariant
            from <= i <= data.len(),
            sep.len() >= 1,
            find_sub_from(data@, sep@, from as int) == find_sub_from(data@, sep@, i as int),
        decreases data.len() - i,
    {
        if sep.len() > data.len() - i {
            return None;
        }
        if window_eq(data, i, sep) {
            return Some(i);
        }
        i += 1;
    }
}

pub fn find_sub_slice(data: &[u8], sep: &[u8]) -> (r: Option<usize>)
    requires
        sep.len() >= 1,
    ensures
        match r {
            Some(i) => i + sep@.len() <= data@.len() && find_sub(data@, sep@) == Some(i as int),
            None => find_sub(data@, sep@) is None,
        },
{
    find_sub_slice_from(data, sep, 0)
}

/// The views of a sequence of byte vectors.
pub open spec fn views_of(s: Seq<Vec<u8>>) -> Seq<Seq<u8>> {
    s.map_values(|p: Vec<u8>| p@)
}

pub fn split_slice(data: &[u8], sep: &[u8]) -> (r: Vec<Vec<u8>>)
    requires
        sep.len() >= 1,
    ensures
        views_of(r@) == split_sub(data@, sep@),
        r@.len() >= 1,
{
    let mut parts: Vec<Vec<u8>> = Vec::new();
    let mut cur: usize = 0;
    loop
        invariant
            cur <= data.len(),
            sep.len() >= 1,
            split_sub(data@, sep@) == views_of(parts@) + split_from(data@, sep@, cur as int),
        decreases data.len() - cur,
    {
        let ghost old_parts = parts@;
        match find_sub_slice_from(data, sep, cur) {
            None => {
                let tail = copy_range(data, cur, data.len());
                parts.push(tail);
                proof {
                    assert(views_of(parts@) =~= views_of(old_parts).push(
                        data@.subrange(cur as int, data@.len() as int),
                    ));
                    assert(views_of(old_parts).push(
                        data@.subrange(cur as int, data@.len() as int),
                    ) =~= views_of(old_parts) + split_from(data@, sep@, cur as int));
                }
                return parts;
            },
            Some(i) => {
                let piece = copy_range(data, cur, i);
                parts.push(piece);
                proof {
                    lemma_find_sub_from_props(data@, sep@, cur as int);
                    assert(views_of(parts@) =~= views_of(old_parts).push(
                        data@.subrange(cur as int, i as int),
                    ));
                    assert(views_of(old_parts).push(data@.subrange(cur as int, i as int))
                        + split_from(data@, sep@, i + sep@.len()) =~= views_of(old_parts)
                        + split_from(data@, sep@, cur as int));
                }
                cur = i + sep.len();
            },
        }
    }
}

pub fn trim_slice(data: &[u8]) -> (r: Vec<u8>)
    ensures
        r@ == trim_spec(data@),
{
    let mut a: usize = 0;
    while a < data.len() && (data[a] == 32 || data[a] == 9 || data[a] == 13 || data[a] == 10)
        invariant
            a <= data.len(),
            forall|j: int| 0 <= j < a ==> is_ws_byte(#[trigger] data@[j]),
        decreases data.len() - a,
    {
        a += 1;
    }
    let mut b: usize = data.len();
    while b > a && (data[b - 1] == 32 || data[b - 1] == 9 || data[b - 1] == 13 || data[b - 1]
        == 10)
        invariant
            a <= b <= data.len(),
            forall|j: int| b <= j < data.len() ==> is_ws_byte(#[trigger] data@[j]),
        decreases b,
    {
        b -= 1;
    }
    proof {
        lemma_trim_start_skip(data@, a as int);
        lemma_trim_end_take(data@.skip(a as int), b - a);
        assert(data@.skip(a as int).take(b - a) =~= data@.subrange(a as int, b as int));
    }
    copy_range(data, a, b)
}

/// The decimal digits of `n` as ASCII bytes.
pub fn dec_of(n: usize) -> (r: Vec<u8>)
    ensures
        r@ == dec_bytes_spec(n as nat),
    decreases n,
{
    if n < 10 {
        let mut v: Vec<u8> = Vec::new();
        v.push((48 + n) as u8);
        proof {
            assert(v@ =~= dec_bytes_spec(n as nat));
        }
        v
    } else {
        let mut v = dec_of(n / 10);
        v.push((48 + n % 10) as u8);
        v
    }
}

/// The views of a sequence of name/value pairs.
pub open spec fn pair_views(s: Seq<(Vec<u8>, Vec<u8>)>) -> Seq<(Seq<u8>, Seq<u8>)> {
    s.map_values(|p: (Vec<u8>, Vec<u8>)| (p.0@, p.1@))
}

/// Index of the first entry whose name equals `k` up to ASCII case.
pub open spec fn key_index_ci(s: Seq<(Seq<u8>, Seq<u8>)>, k: Seq<u8>) -> Option<int>
    decreases s.len(),
{
    if s.len() == 0 {
        None
    } else if lower_bytes(s[0].0) == lower_bytes(k) {
        Some(0int)
    } else {
        match key_index_ci(s.drop_first(), k) {
            None => None,
            Some(i) => Some(i + 1),
        }
    }
}

/// The value of the entry named `k`, compared case-insensitively.
pub open spec fn assoc_ci(s: Seq<(Seq<u8>, Seq<u8>)>, k: Seq<u8>) -> Option<Seq<u8>> {
    match key_index_ci(s, k) {
        None => None,
        Some(i) => Some(s[i].1),
    }
}

/// Replace the entry named `k` (up to case) or append a new one.
pub open spec fn upsert_ci(s: Seq<(Seq<u8>, Seq<u8>)>, k: Seq<u8>, v: Seq<u8>) -> Seq<
    (Seq<u8>, Seq<u8>),
> {
    match key_index_ci(s, k) {
        Some(i) => s.update(i, (k, v)),
        None => s.push((k, v)),
    }
}

/// No two entries share a name up to ASCII case.
pub open spec fn entries_unique_ci(s: Seq<(Seq<u8>, Seq<u8>)>) -> bool {
    forall|i: int, j: int|
        0 <= i < j < s.len() ==> lower_bytes((#[trigger] s[i]).0) != lower_bytes(
            (#[trigger] s[j]).0,
        )
}

pub proof fn lemma_key_index_ci_props(s: Seq<(Seq<u8>, Seq<u8>)>, k: Seq<u8>)
    ensures
        match key_index_ci(s, k) {
            Some(i) => 0 <= i < s.len() && lower_bytes(s[i].0) == lower_bytes(k) && forall|j: int|
                0 <= j < i ==> lower_bytes((#[trigger] s[j]).0) != lower_bytes(k),
            None => forall|j: int|
                0 <= j < s.len() ==> lower_bytes((#[trigger] s[j]).0) != lower_bytes(k),
        },
    decreases s.len(),
{
    if s.len() > 0 && lower_bytes(s[0].0) != lower_bytes(k) {
        lemma_key_index_ci_props(s.drop_first(), k);
        match key_index_ci(s.drop_first(), k) {
            Some(i) => {
                assert(s.drop_first()[i] == s[i + 1]);
                assert forall|j: int| 0 <= j < i + 1 implies lower_bytes(
                    (#[trigger] s[j]).0,
                ) != lower_bytes(k) by {
                    if j > 0 {
                        assert(s.drop_first()[j - 1] == s[j]);
                    }
                }
            },
            None => {
                assert forall|j: int| 0 <= j < s.len() implies lower_bytes(
                    (#[trigger] s[j]).0,
                ) != lower_bytes(k) by {
                    if j > 0 {
                        assert(s.drop_first()[j - 1] == s[j]);
                    }
                }
            },
        }
    }
}

pub proof fn lemma_key_index_ci_first(s: Seq<(Seq<u8>, Seq<u8>)>, k: Seq<u8>, i: int)
    requires
        0 <= i < s.len(),
        forall|j: int| 0 <= j < i ==> lower_bytes((#[trigger] s[j]).0) != lower_bytes(k),
        lower_bytes(s[i].0) == lower_bytes(k),
    ensures
        key_index_ci(s, k) == Some(i),
    decreases i,
{
    if i > 0 {
        assert forall|j: int| 0 <= j < i - 1 implies lower_bytes(
            (#[trigger] s.drop_first()[j]).0,
        ) != lower_bytes(k) by {
            assert(s.drop_first()[j] == s[j + 1]);
        }
        assert(s.drop_first()[i - 1] == s[i]);
        lemma_key_index_ci_first(s.drop_first(), k, i - 1);
    }
}

pub proof fn lemma_key_index_ci_none(s: Seq<(Seq<u8>, Seq<u8>)>, k: Seq<u8>)
    requires
        forall|j: int| 0 <= j < s.len() ==> lower_bytes((#[trigger] s[j]).0) != lower_bytes(k),
    ensures
        key_index_ci(s, k) is None,
    decreases s.len(),
{
    if s.len() > 0 {
        assert forall|j: int| 0 <= j < s.len() - 1 implies lower_bytes(
            (#[trigger] s.drop_first()[j]).0,
        ) != lower_bytes(k) by {
            assert(s.drop_first()[j] == s[j + 1]);
        }
        lemma_key_index_ci_none(s.drop_first(), k);
    }
}

/// An upsert never breaks name uniqueness.
pub proof fn lemma_upsert_ci_unique(s: Seq<(Seq<u8>, Seq<u8>)>, k: Seq<u8>, v: Seq<u8>)
    requires
        entries_unique_ci(s),
    ensures
        entries_unique_ci(upsert_ci(s, k, v)),
{
    lemma_key_index_ci_props(s, k);
    match key_index_ci(s, k) {
        Some(i) => {
            let t = s.update(i, (k, v));
            assert forall|a: int, b: int| 0 <= a < b < t.len() implies lower_bytes(
                (#[trigger] t[a]).0,
            ) != lower_bytes((#[trigger] t[b]).0) by {
                assert(lower_bytes(s[i].0) == lower_bytes(k));
            }
        },
        None => {
            let t = s.push((k, v));
            assert forall|a: int, b: int| 0 <= a < b < t.len() implies lower_bytes(
                (#[trigger] t[a]).0,
            ) != lower_bytes((#[trigger] t[b]).0) by {}
        },
    }
}

/// Fold a list of name/value pairs into a map, later pairs overriding
/// earlier ones of the same name.
pub open spec fn fold_upsert(
    acc: Seq<(Seq<u8>, Seq<u8>)>,
    ps: Seq<(Seq<u8>, Seq<u8>)>,
) -> Seq<(Seq<u8>, Seq<u8>)>
    decreases ps.len(),
{
    if ps.len() == 0 {
        acc
    } else {
        fold_upsert(upsert_ci(acc, ps[0].0, ps[0].1), ps.drop_first())
    }
}

pub proof fn lemma_fold_upsert_snoc(
    acc: Seq<(Seq<u8>, Seq<u8>)>,
    ps: Seq<(Seq<u8>, Seq<u8>)>,
    p: (Seq<u8>, Seq<u8>),
)
    ensures
        fold_upsert(acc, ps.push(p)) == upsert_ci(fold_upsert(acc, ps), p.0, p.1),
    decreases ps.len(),
{
    reveal_with_fuel(fold_upsert, 3);
    if ps.len() == 0 {
        assert(ps.push(p)[0] == p);
        assert(ps.push(p).drop_first() =~= Seq::<(Seq<u8>, Seq<u8>)>::empty());
    } else {
        assert(ps.push(p)[0] == ps[0]);
        assert(ps.push(p).drop_first() =~= ps.drop_first().push(p));
        lemma_fold_upsert_snoc(upsert_ci(acc, ps[0].0, ps[0].1), ps.drop_first(), p);
    }
}

pub proof fn lemma_fold_upsert_unique(acc: Seq<(Seq<u8>, Seq<u8>)>, ps: Seq<(Seq<u8>, Seq<u8>)>)
    requires
        entries_unique_ci(acc),
    ensures
        entries_unique_ci(fold_upsert(acc, ps)),
    decreases ps.len(),
{
    if ps.len() > 0 {
        lemma_upsert_ci_unique(acc, ps[0].0, ps[0].1);
        lemma_fold_upsert_unique(upsert_ci(acc, ps[0].0, ps[0].1), ps.drop_first());
    }
}

/// Look a name up, case-insensitively, returning a copy of the value.
pub fn assoc_get(hs: &Vec<(Vec<u8>, Vec<u8>)>, k: &[u8]) -> (r: Option<Vec<u8>>)
    ensures
        match r {
            Some(v) => assoc_ci(pair_views(hs@), k@) == Some(v@),
            None => assoc_ci(pair_views(hs@), k@) is None,
        },
{
    let lk = lower_vec(k);
    let mut i: usize = 0;
    while i < hs.len()
        invariant
            i <= hs.len(),
            lk@ == lower_bytes(k@),
            forall|j: int|
                0 <= j < i ==> lower_bytes((#[trigger] pair_views(hs@)[j]).0) != lower_bytes(k@),
        decreases hs.len() - i,
    {
        let name_low = lower_vec(hs[i].0.as_slice());
        if slice_eq_bytes(name_low.as_slice(), lk.as_slice()) {
            proof {
                lemma_key_index_ci_first(pair_views(hs@), k@, i as int);
            }
            return Some(clone_vec_u8(&hs[i].1));
        }
        i += 1;
    }
    proof {
        lemma_key_index_ci_none(pair_views(hs@), k@);
    }
    None
}

/// Replace the entry named as `k` is, up to case, or append it.
pub fn upsert(hs: &mut Vec<(Vec<u8>, Vec<u8>)>, k: Vec<u8>, v: Vec<u8>)
    ensures
        pair_views(final(hs)@) == upsert_ci(pair_views(old(hs)@), k@, v@),
{
    let lk = lower_vec(k.as_slice());
    let mut i: usize = 0;
    while i < hs.len()
        invariant
            i <= hs.len(),
            hs@ == old(hs)@,
            lk@ == lower_bytes(k@),
            forall|j: int|
                0 <= j < i ==> lower_bytes((#[trigger] pair_views(hs@)[j]).0) != lower_bytes(k@),
        decreases hs.len() - i,
    {
        let name_low = lower_vec(hs[i].0.as_slice());
        if slice_eq_bytes(name_low.as_slice(), lk.as_slice()) {
            proof {
                lemma_key_index_ci_first(pair_views(hs@), k@, i as int);
            }
            let ghost before = pair_views(hs@);
            hs.remove(i);
            hs.insert(i, (k, v));
            proof {
                assert(pair_views(hs@) =~= upsert_ci(before, k@, v@));
            }
            return ;
        }
        i += 1;
    }
    proof {
        lemma_key_index_ci_none(pair_views(hs@), k@);
    }
    let ghost before = pair_views(hs@);
    hs.push((k, v));
    proof {
        assert(pair_views(hs@) =~= upsert_ci(before, k@, v@));
    }
}

/// Index of the first entry whose name equals `k` exactly.
pub open spec fn key_index_cs(s: Seq<(Seq<u8>, Seq<u8>)>, k: Seq<u8>) -> Option<int>
    decreases s.len(),
{
    if s.len() == 0 {
        None
    } else if s[0].0 == k {
        Some(0int)
    } else {
        match key_index_cs(s.drop_first(), k) {
            None => None,
            Some(i) => Some(i + 1),
        }
    }
}

/// Replace the entry named exactly `k` or append a new one. Query keys are
/// plain strings: `a` and `A` are distinct names.
pub open spec fn upsert_cs(s: Seq<(Seq<u8>, Seq<u8>)>, k: Seq<u8>, v: Seq<u8>) -> Seq<
    (Seq<u8>, Seq<u8>),
> {
    match key_index_cs(s, k) {
        Some(i) => s.update(i, (k, v)),
        None => s.push((k, v)),
    }
}

/// No two entries share a name, compared exactly.
pub open spec fn entries_unique_cs(s: Seq<(Seq<u8>, Seq<u8>)>) -> bool {
    forall|i: int, j: int|
        0 <= i < j < s.len() ==> (#[trigger] s[i]).0 != (#[trigger] s[j]).0
}

pub proof fn lemma_key_index_cs_first(s: Seq<(Seq<u8>, Seq<u8>)>, k: Seq<u8>, i: int)
    requires
        0 <= i < s.len(),
        forall|j: int| 0 <= j < i ==> (#[trigger] s[j]).0 != k,
        s[i].0 == k,
    ensures
        key_index_cs(s, k) == Some(i),
    decreases i,
{
    if i > 0 {
        assert forall|j: int| 0 <= j < i - 1 implies (#[trigger] s.drop_first()[j]).0 != k by {
            assert(s.drop_first()[j] == s[j + 1]);
        }
        assert(s.drop_first()[i - 1] == s[i]);
        lemma_key_index_cs_first(s.drop_first(), k, i - 1);
    }
}

pub proof fn lemma_key_index_cs_none(s: Seq<(Seq<u8>, Seq<u8>)>, k: Seq<u8>)
    requires
        forall|j: int| 0 <= j < s.len() ==> (#[trigger] s[j]).0 != k,
    ensures
        key_index_cs(s, k) is None,
    decreases s.len(),
{
    if s.len() > 0 {
        assert forall|j: int| 0 <= j < s.len() - 1 implies (#[trigger] s.drop_first()[j]).0
            != k by {
            assert(s.drop_first()[j] == s[j + 1]);
        }
        lemma_key_index_cs_none(s.drop_first(), k);
    }
}

pub proof fn lemma_key_index_cs_props(s: Seq<(Seq<u8>, Seq<u8>)>, k: Seq<u8>)
    ensures
        match key_index_cs(s, k) {
            Some(i) => 0 <= i < s.len() && s[i].0 == k && forall|j: int|
                0 <= j < i ==> (#[trigger] s[j]).0 != k,
            None => forall|j: int| 0 <= j < s.len() ==> (#[trigger] s[j]).0 != k,
        },
    decreases s.len(),
{
    if s.len() > 0 && s[0].0 != k {
        lemma_key_index_cs_props(s.drop_first(), k);
        match key_index_cs(s.drop_first(), k) {
            Some(i) => {
                assert(s.drop_first()[i] == s[i + 1]);
                assert forall|j: int| 0 <= j < i + 1 implies (#[trigger] s[j]).0 != k by {
                    if j > 0 {
                        assert(s.drop_first()[j - 1] == s[j]);
                    }
                }
            },
            None => {
                assert forall|j: int| 0 <= j < s.len() implies (#[trigger] s[j]).0 != k by {
                    if j > 0 {
                        assert(s.drop_first()[j - 1] == s[j]);
                    }
                }
            },
        }
    }
}

/// An exact-name upsert never breaks exact-name uniqueness.
pub proof fn lemma_upsert_cs_unique(s: Seq<(Seq<u8>, Seq<u8>)>, k: Seq<u8>, v: Seq<u8>)
    requires
        entries_unique_cs(s),
    ensures
        entries_unique_cs(upsert_cs(s, k, v)),
{
    lemma_key_index_cs_props(s, k);
    match key_index_cs(s, k) {
        Some(i) => {
            let t = s.update(i, (k, v));
            assert forall|a: int, b: int| 0 <= a < b < t.len() implies (#[trigger] t[a]).0
                != (#[trigger] t[b]).0 by {
                assert(s[i].0 == k);
            }
        },
        None => {
            let t = s.push((k, v));
            assert forall|a: int, b: int| 0 <= a < b < t.len() implies (#[trigger] t[a]).0
                != (#[trigger] t[b]).0 by {}
        },
    }
}

/// Fold a list of name/value pairs into a map keyed exactly, later pairs
/// overriding earlier ones of the same name.
pub open spec fn fold_upsert_cs(
    acc: Seq<(Seq<u8>, Seq<u8>)>,
    ps: Seq<(Seq<u8>, Seq<u8>)>,
) -> Seq<(Seq<u8>, Seq<u8>)>
    decreases ps.len(),
{
    if ps.len() == 0 {
        acc
    } else {
        fold_upsert_cs(upsert_cs(acc, ps[0].0, ps[0].1), ps.drop_first())
    }
}

pub proof fn lemma_fold_upsert_cs_snoc(
    acc: Seq<(Seq<u8>, Seq<u8>)>,
    ps: Seq<(Seq<u8>, Seq<u8>)>,
    p: (Seq<u8>, Seq<u8>),
)
    ensures
        fold_upsert_cs(acc, ps.push(p)) == upsert_cs(fold_upsert_cs(acc, ps), p.0, p.1),
    decreases ps.len(),
{
    reveal_with_fuel(fold_upsert_cs, 3);
    if ps.len() == 0 {
        assert(ps.push(p)[0] == p);
        assert(ps.push(p).drop_first() =~= Seq::<(Seq<u8>, Seq<u8>)>::empty());
    } else {
        assert(ps.push(p)[0] == ps[0]);
        assert(ps.push(p).drop_first() =~= ps.drop_first().push(p));
        lemma_fold_upsert_cs_snoc(upsert_cs(acc, ps[0].0, ps[0].1), ps.drop_first(), p);
    }
}

pub proof fn lemma_fold_upsert_cs_unique(acc: Seq<(Seq<u8>, Seq<u8>)>, ps: Seq<(Seq<u8>, Seq<u8>)>)
    requires
        entries_unique_cs(acc),
    ensures
        entries_unique_cs(fold_upsert_cs(acc, ps)),
    decreases ps.len(),
{
    if ps.len() > 0 {
        lemma_upsert_cs_unique(acc, ps[0].0, ps[0].1);
        lemma_fold_upsert_cs_unique(upsert_cs(acc, ps[0].0, ps[0].1), ps.drop_first());
    }
}

/// Replace the entry named exactly as `k` is, or append it.
pub fn upsert_exact(hs: &mut Vec<(Vec<u8>, Vec<u8>)>, k: Vec<u8>, v: Vec<u8>)
    ensures
        pair_views(final(hs)@) == upsert_cs(pair_views(old(hs)@), k@, v@),
{
    let mut i: usize = 0;
    while i < hs.len()
        invariant
            i <= hs.len(),
            hs@ == old(hs)@,
            forall|j: int| 0 <= j < i ==> (#[trigger] pair_views(hs@)[j]).0 != k@,
        decreases hs.len() - i,
    {
        if slice_eq_bytes(hs[i].0.as_slice(), k.as_slice()) {
            proof {
                lemma_key_index_cs_first(pair_views(hs@), k@, i as int);
            }
            let ghost before = pair_views(hs@);
            hs.remove(i);
            hs.insert(i, (k, v));
            proof {
                assert(pair_views(hs@) =~= upsert_cs(before, k@, v@));
            }
            return ;
        }
        i += 1;
    }
    proof {
        lemma_key_index_cs_none(pair_views(hs@), k@);
    }
    let ghost before = pair_views(hs@);
    hs.push((k, v));
    proof {
        assert(pair_views(hs@) =~= upsert_cs(before, k@, v@));
    }
}

/// How a push changes case-insensitive lookups: entries already present
/// keep their place, the pushed name becomes visible if it was absent, and
/// other absent names stay absent.
pub proof fn lemma_assoc_ci_push(s: Seq<(Seq<u8>, Seq<u8>)>, k: Seq<u8>, v: Seq<u8>, q: Seq<u8>)
    ensures
        (lower_bytes(q) == lower_bytes(k) && key_index_ci(s, q) is None) ==> assoc_ci(
            s.push((k, v)),
            q,
        ) == Some(v),
        key_index_ci(s, q) matches Some(i) ==> key_index_ci(s.push((k, v)), q) == Some(i)
            && assoc_ci(s.push((k, v)), q) == assoc_ci(s, q),
        (key_index_ci(s, q) is None && lower_bytes(q) != lower_bytes(k)) ==> key_index_ci(
            s.push((k, v)),
            q,
        ) is None,
{
    lemma_key_index_ci_props(s, q);
    let t = s.push((k, v));
    match key_index_ci(s, q) {
        Some(i) => {
            assert(t[i] == s[i]);
            assert forall|j: int| 0 <= j < i implies lower_bytes((#[trigger] t[j]).0)
                != lower_bytes(q) by {
                assert(t[j] == s[j]);
            }
            lemma_key_index_ci_first(t, q, i);
        },
        None => {
            if lower_bytes(q) == lower_bytes(k) {
                assert(t[s.len() as int] == (k, v));
                assert forall|j: int| 0 <= j < s.len() implies lower_bytes(
                    (#[trigger] t[j]).0,
                ) != lower_bytes(q) by {
                    assert(t[j] == s[j]);
                }
                lemma_key_index_ci_first(t, q, s.len() as int);
            } else {
                assert forall|j: int| 0 <= j < t.len() implies lower_bytes(
                    (#[trigger] t[j]).0,
                ) != lower_bytes(q) by {
                    if j < s.len() {
                        assert(t[j] == s[j]);
                    } else {
                        assert(t[j] == (k, v));
                    }
                }
                lemma_key_index_ci_none(t, q);
            }
        },
    }
}

/// Pushing a name that is absent keeps the entries unique.
pub proof fn lemma_push_absent_unique(s: Seq<(Seq<u8>, Seq<u8>)>, k: Seq<u8>, v: Seq<u8>)
    requires
        entries_unique_ci(s),
        key_index_ci(s, k) is None,
    ensures
        entries_unique_ci(s.push((k, v))),
{
    lemma_key_index_ci_props(s, k);
    let t = s.push((k, v));
    assert forall|a: int, b: int| 0 <= a < b < t.len() implies lower_bytes(
        (#[trigger] t[a]).0,
    ) != lower_bytes((#[trigger] t[b]).0) by {
        assert(t[a] == s[a]);
        if b < s.len() {
            assert(t[b] == s[b]);
        } else {
            assert(t[b] == (k, v));
        }
    }
}

/// Append one name/value pair.
pub fn push_pair(hs: &mut Vec<(Vec<u8>, Vec<u8>)>, k: Vec<u8>, v: Vec<u8>)
    ensures
        pair_views(final(hs)@) == pair_views(old(hs)@).push((k@, v@)),
{
    let ghost prev = hs@;
    let ghost kv = (k@, v@);
    hs.push((k, v));
    proof {
        assert(pair_views(prev).len() == prev.len());
        assert forall|j: int| 0 <= j < prev.len() + 1 implies #[trigger] pair_views(hs@)[j]
            == pair_views(prev).push(kv)[j] by {
            assert(hs@[j] == prev.push(hs@[prev.len() as int])[j]);
            if j < prev.len() {
                assert(hs@[j] == prev[j]);
            }
        }
        assert(pair_views(hs@) =~= pair_views(prev).push(kv));
    }
}

/// Append a byte slice to a byte vector.
pub fn extend_bytes(out: &mut Vec<u8>, s: &[u8])
    ensures
        final(out)@ == old(out)@ + s@,
{
    proof {
        assert(old(out)@ + s@.take(0) =~= old(out)@);
    }
    let mut i: usize = 0;
    while i < s.len()
        invariant
            i <= s.len(),
            out@ == old(out)@ + s@.take(i as int),
        decreases s.len() - i,
    {
        out.push(s[i]);
        proof {
            assert(out@ =~= old(out)@ + s@.take(i + 1));
        }
        i += 1;
    }
    proof {
        assert(old(out)@ + s@.take(s@.len() as int) =~= old(out)@ + s@);
    }
}

pub fn contains_byte(data: &[u8], b: u8) -> (r: bool)
    ensures
        r == data@.contains(b),
{
    let mut i: usize = 0;
    while i < data.len()
        invariant
            i <= data.len(),
            forall|j: int| 0 <= j < i ==> data@[j] != b,
        decreases data.len() - i,
    {
        if data[i] == b {
            return true;
        }
        i += 1;
    }
    false
}

pub fn contains_token(tokens: &Vec<Vec<u8>>, t: &[u8]) -> (r: bool)
    ensures
        r == views_of(tokens@).contains(t@),
{
    let mut i: usize = 0;
    while i < tokens.len()
        invariant
            i <= tokens.len(),
            forall|j: int| 0 <= j < i ==> #[trigger] views_of(tokens@)[j] != t@,
        decreases tokens.len() - i,
    {
        if slice_eq_bytes(tokens[i].as_slice(), t) {
            proof {
                assert(views_of(tokens@)[i as int] == t@);
            }
            return true;
        }
        i += 1;
    }
    proof {
        assert forall|j: int| 0 <= j < views_of(tokens@).len() implies #[trigger] views_of(
            tokens@,
        )[j] != t@ by {}
    }
    false
}

/// Copy a byte vector.
pub fn clone_vec_u8(v: &Vec<u8>) -> (r: Vec<u8>)
    ensures
        r@ == v@,
{
    copy_range(v.as_slice(), 0, v.len())
}

pub open spec fn is_prefix_of(p: Seq<u8>, s: Seq<u8>) -> bool {
    p.len() <= s.len() && s.subrange(0, p.len() as int) == p
}

pub fn starts_with_slice(data: &[u8], prefix: &[u8]) -> (r: bool)
    ensures
        r == is_prefix_of(prefix@, data@),
{
    if prefix.len() > data.len() {
        return false;
    }
    window_eq(data, 0, prefix)
}

} // verus!
