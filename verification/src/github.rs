//! The license repository's listings: month folders and file contents.

use vstd::prelude::*;

use base64::Engine;
use vstd::utf8::encode_utf8;

use crate::ordering::{
    insert_pos, is_sorted_desc, is_strict_order, lemma_stable_sort_contains,
    lemma_stable_sort_permutation, lemma_stable_sort_sorted, stable_sort_desc,
};
use crate::text::{
    chars_lt, chars_of, lemma_chars_lt_irreflexive, lemma_chars_lt_total, lemma_chars_lt_transitive, less_chars,
    all_digits, is_digit, parse_u32, parse_u32_chars, str_equals,
};

verus! {

/// An entry of a repository directory listing.
#[derive(Debug, Clone)]
pub struct GitHubEntry {
    /// The file or directory name.
    pub name: String,
    /// `file` or `dir`.
    pub entry_type: String,
    /// Where the raw file can be downloaded, if anywhere.
    pub download_url: Option<String>,
}

/// `name` has the form `YYYY.MM`: four ASCII digits, a `.` and two ASCII digits, with a year
/// from 2018 on and a month from 1 to 12.
pub open spec fn is_month_name(name: Seq<char>) -> bool {
    &&& name.len() == 7
    &&& name[4] == '.'
    &&& all_digits(name.subrange(0, 4))
    &&& all_digits(name.subrange(5, 7))
    &&& match (parse_u32(name.subrange(0, 4)), parse_u32(name.subrange(5, 7))) {
        (Some(year), Some(month)) => year >= 2018 && 1 <= month && month <= 12,
        _ => false,
    }
}

/// The characters of `s` from `from` up to `to`.
fn chars_between(s: &Vec<char>, from: usize, to: usize) -> (r: Vec<char>)
    requires
        from <= to <= s.len(),
    ensures
        r@ == s@.subrange(from as int, to as int),
{
    let mut out: Vec<char> = Vec::new();
    for i in from..to
        invariant
            from <= to <= s.len(),
            out@ == s@.subrange(from as int, i as int),
    {
        out.push(s[i]);
        assert(s@.subrange(from as int, i + 1) =~= s@.subrange(from as int, i as int).push(s@[i as int]));
    }
    out
}

/// Whether every character of `s` is an ASCII digit.
fn only_digits(s: &Vec<char>) -> (r: bool)
    ensures
        r == all_digits(s@),
{
    let mut i: usize = 0;
    while i < s.len()
        invariant
            i <= s.len(),
            forall|t: int| 0 <= t < i ==> is_digit(#[trigger] s@[t]),
        decreases s.len() - i,
    {
        if !('0' <= s[i] && s[i] <= '9') {
            assert(!is_digit(s@[i as int]));
            return false;
        }
        i += 1;
    }
    true
}

/// Whether `name` is a month folder name `YYYY.MM` (see `is_month_name`).
pub fn is_month_folder(name: &str) -> (r: bool)
    ensures
        r == is_month_name(name@),
{
    let cs = chars_of(name);
    if cs.len() != 7 || cs[4] != '.' {
        return false;
    }
    let year_chars = chars_between(&cs, 0, 4);
    let month_chars = chars_between(&cs, 5, 7);
    if !only_digits(&year_chars) || !only_digits(&month_chars) {
        return false;
    }
    match (parse_u32_chars(&year_chars), parse_u32_chars(&month_chars)) {
        (Some(year), Some(month)) => year >= 2018 && month >= 1 && month <= 12,
        _ => false,
    }
}

/// The names of the month folders among `entries`, in listing order.
pub open spec fn month_names(entries: Seq<GitHubEntry>) -> Seq<Seq<char>>
    decreases entries.len(),
{
    if entries.len() == 0 {
        Seq::<Seq<char>>::empty()
    } else {
        let prev = month_names(entries.drop_last());
        let e = entries.last();
        if e.entry_type@ == "dir"@ && is_month_name(e.name@) {
            prev.push(e.name@)
        } else {
            prev
        }
    }
}

/// One name sorts before another.
pub open spec fn name_below() -> spec_fn(Seq<char>, Seq<char>) -> bool {
    |a: Seq<char>, b: Seq<char>| chars_lt(a, b)
}

/// The month folders of a listing, latest first.
pub open spec fn listed_months(entries: Seq<GitHubEntry>) -> Seq<Seq<char>> {
    stable_sort_desc(month_names(entries), name_below())
}

/// The views of a sequence of strings.
pub open spec fn string_views(s: Seq<String>) -> Seq<Seq<char>> {
    s.map_values(|x: String| x@)
}

/// Inserts `x` into the descending list `out` after every name that does not sort before it.
fn insert_name_desc(out: &mut Vec<String>, x: String)
    ensures
        string_views(final(out)@) == string_views(old(out)@).insert(
            insert_pos(string_views(old(out)@), x@, name_below()) as int,
            x@,
        ),
{
    let ghost prev = string_views(out@);
    let xc = chars_of(x.as_str());
    let mut j: usize = 0;
    assert(prev.skip(0) =~= prev);
    loop
        invariant
            j <= out.len(),
            prev == string_views(out@),
            out@ == old(out)@,
            xc@ == x@,
            insert_pos(prev, x@, name_below()) == j + insert_pos(
                prev.skip(j as int),
                x@,
                name_below(),
            ),
        ensures
            j <= out.len(),
            prev == string_views(out@),
            out@ == old(out)@,
            insert_pos(prev, x@, name_below()) == j,
        decreases out.len() - j,
    {
        if j == out.len() {
            assert(prev.skip(j as int).len() == 0);
            break;
        }
        let oc = chars_of(out[j].as_str());
        assert(prev.skip(j as int)[0] == out@[j as int]@);
        if less_chars(&oc, &xc) {
            break;
        }
        assert(prev.skip(j as int).drop_first() =~= prev.skip(j + 1));
        j += 1;
    }
    out.insert(j, x);
    assert(string_views(out@) =~= prev.insert(j as int, x@));
}

/// The month folders among `entries` (directories named `YYYY.MM`), latest first.
pub fn select_months(entries: &[GitHubEntry]) -> (r: Vec<String>)
    ensures
        string_views(r@) == listed_months(entries@),
{
    let mut out: Vec<String> = Vec::new();
    assert(entries@.take(0) =~= Seq::<GitHubEntry>::empty());
    for i in 0..entries.len()
        invariant
            string_views(out@) == stable_sort_desc(
                month_names(entries@.take(i as int)),
                name_below(),
            ),
    {
        let e = &entries[i];
        assert(entries@.take(i + 1).drop_last() =~= entries@.take(i as int));
        assert(entries@.take(i + 1).last() == *e);
        let ghost before = month_names(entries@.take(i as int));
        if str_equals(e.entry_type.as_str(), "dir") && is_month_folder(e.name.as_str()) {
            let name = e.name.clone();
            assert(name@ == e.name@);
            assert(month_names(entries@.take(i + 1)) == before.push(e.name@));
            assert(before.push(e.name@).drop_last() =~= before);
            insert_name_desc(&mut out, name);
        }
    }
    assert(entries@.take(entries@.len() as int) =~= entries@);
    out
}

/// Name order is a strict order.
pub proof fn lemma_name_below_strict()
    ensures
        is_strict_order(name_below()),
{
    assert forall|a: Seq<char>| !#[trigger] (name_below())(a, a) by {
        lemma_chars_lt_irreflexive(a);
    }
    assert forall|a: Seq<char>, b: Seq<char>, c: Seq<char>|
        #[trigger] (name_below())(a, b) && #[trigger] (name_below())(b, c) implies (name_below())(
        a,
        c,
    ) by {
        lemma_chars_lt_transitive(a, b, c);
    }
}

/// Each month name comes from a directory entry of the listing named `YYYY.MM`.
proof fn lemma_month_names_from_entries(entries: Seq<GitHubEntry>, n: Seq<char>)
    requires
        month_names(entries).contains(n),
    ensures
        is_month_name(n),
        exists|i: int|
            0 <= i < entries.len() && (#[trigger] entries[i]).name@ == n && entries[i].entry_type@
                == "dir"@,
    decreases entries.len(),
{
    let pre = entries.drop_last();
    let prev = month_names(pre);
    let e = entries.last();
    let r = month_names(entries);
    let k = choose|k: int| 0 <= k < r.len() && r[k] == n;
    if k < prev.len() {
        assert(prev[k] == n);
        assert(prev.contains(n));
        lemma_month_names_from_entries(pre, n);
        let i = choose|i: int|
            0 <= i < pre.len() && (#[trigger] pre[i]).name@ == n && pre[i].entry_type@ == "dir"@;
        assert(entries[i] == pre[i]);
    } else {
        assert(entries[entries.len() - 1].name@ == n);
    }
}

/// The listed months are the month folders of the listing, each a directory named `YYYY.MM`,
/// latest first.
pub proof fn lemma_listed_months(entries: Seq<GitHubEntry>)
    ensures
        listed_months(entries).to_multiset() == month_names(entries).to_multiset(),
        is_sorted_desc(listed_months(entries), name_below()),
        forall|k: int|
            0 <= k < listed_months(entries).len() ==> is_month_name(
                #[trigger] listed_months(entries)[k],
            ) && exists|i: int|
                0 <= i < entries.len() && (#[trigger] entries[i]).name@ == listed_months(entries)[k]
                    && entries[i].entry_type@ == "dir"@,
{
    lemma_stable_sort_permutation(month_names(entries), name_below());
    lemma_name_below_strict();
    lemma_stable_sort_sorted(month_names(entries), name_below());
    let l = listed_months(entries);
    assert forall|k: int| 0 <= k < l.len() implies is_month_name(#[trigger] l[k]) && exists|i: int|
        0 <= i < entries.len() && (#[trigger] entries[i]).name@ == l[k] && entries[i].entry_type@
            == "dir"@ by {
        lemma_stable_sort_contains(month_names(entries), name_below(), l[k]);
        assert(l.contains(l[k]));
        lemma_month_names_from_entries(entries, l[k]);
    }
}

/// The listed months run from the greatest name down: a later month never sorts after an
/// earlier one in the full character order of names, so the first is the greatest name listed.
pub proof fn lemma_months_latest_first(entries: Seq<GitHubEntry>)
    ensures
        forall|i: int, j: int|
            0 <= i < j < listed_months(entries).len() ==> #[trigger] listed_months(entries)[i]
                == #[trigger] listed_months(entries)[j] || chars_lt(
                listed_months(entries)[j],
                listed_months(entries)[i],
            ),
        forall|k: int|
            0 <= k < listed_months(entries).len() ==> #[trigger] listed_months(entries)[k]
                == listed_months(entries)[0] || chars_lt(
                listed_months(entries)[k],
                listed_months(entries)[0],
            ),
{
    lemma_listed_months(entries);
    let l = listed_months(entries);
    assert forall|i: int, j: int| 0 <= i < j < l.len() implies #[trigger] l[i] == #[trigger] l[j]
        || chars_lt(l[j], l[i]) by {
        assert(!(name_below())(l[i], l[j]));
        lemma_chars_lt_total(l[i], l[j]);
    }
    assert forall|k: int| 0 <= k < l.len() implies #[trigger] l[k] == l[0] || chars_lt(
        l[k],
        l[0],
    ) by {
        if k > 0 {
            assert(!(name_below())(l[0], l[k]));
            lemma_chars_lt_total(l[0], l[k]);
        }
    }
}

/// What the standard Base64 engine (with padding) decodes `input` to, or `None` when it
/// refuses the input.
pub uninterp spec fn base64_standard_decoded(input: Seq<u8>) -> Option<Seq<u8>>;

#[verifier::external_type_specification]
#[verifier::external_body]
pub struct ExBase64DecodeError(base64::DecodeError);

/// Calls `base64::engine::general_purpose::STANDARD.decode`; its result is the named
/// `base64_standard_decoded` of the input.
#[verifier::external_body]
fn decode_base64_standard(input: &[u8]) -> (r: Result<Vec<u8>, base64::DecodeError>)
    ensures
        match r {
            Ok(v) => base64_standard_decoded(input@) == Some(v@),
            Err(_) => base64_standard_decoded(input@) is None,
        },
{
    base64::engine::general_purpose::STANDARD.decode(input)
}

/// Why a downloaded file's content could not be read.
#[derive(Debug, Clone, Copy, PartialEq, Eq, Structural)]
pub enum ContentError {
    /// The content is not valid Base64.
    InvalidBase64,
}

/// `bytes` without its line feeds and carriage returns.
pub open spec fn without_line_breaks(bytes: Seq<u8>) -> Seq<u8>
    decreases bytes.len(),
{
    if bytes.len() == 0 {
        bytes
    } else {
        let prev = without_line_breaks(bytes.drop_last());
        if bytes.last() == 10u8 || bytes.last() == 13u8 {
            prev
        } else {
            prev.push(bytes.last())
        }
    }
}

/// The content's bytes without line feeds and carriage returns.
pub fn strip_line_breaks(content: &str) -> (r: Vec<u8>)
    ensures
        r@ == without_line_breaks(encode_utf8(content@)),
{
    let b = content.as_bytes();
    let mut out: Vec<u8> = Vec::new();
    assert(b@.take(0) =~= Seq::<u8>::empty());
    for i in 0..b.len()
        invariant
            b@ == encode_utf8(content@),
            out@ == without_line_breaks(b@.take(i as int)),
    {
        assert(b@.take(i + 1).drop_last() =~= b@.take(i as int));
        assert(b@.take(i + 1).last() == b@[i as int]);
        if b[i] != 10u8 && b[i] != 13u8 {
            out.push(b[i]);
        }
    }
    assert(b@.take(b@.len() as int) =~= b@);
    out
}

/// The library's reading of a Base64 decoding outcome: the bytes, or `InvalidBase64`.
pub fn decoded_or_error(r: Result<Vec<u8>, base64::DecodeError>) -> (out: Result<Vec<u8>, ContentError>)
    ensures
        match r {
            Ok(v) => out == Ok::<Vec<u8>, ContentError>(v),
            Err(_) => out == Err::<Vec<u8>, ContentError>(ContentError::InvalidBase64),
        },
{
    match r {
        Ok(v) => Ok(v),
        Err(_) => Err(ContentError::InvalidBase64),
    }
}

/// Decodes a file's content as the repository API returns it: Base64 that may be broken
/// into lines.
pub fn decode_file_content(content: &str) -> (r: Result<Vec<u8>, ContentError>)
    ensures
        match r {
            Ok(v) => base64_standard_decoded(without_line_breaks(encode_utf8(content@))) == Some(v@),
            Err(e) => e == ContentError::InvalidBase64 && base64_standard_decoded(
                without_line_breaks(encode_utf8(content@)),
            ) is None,
        },
{
    let cleaned = strip_line_breaks(content);
    decoded_or_error(decode_base64_standard(cleaned.as_slice()))
}

} // verus!
