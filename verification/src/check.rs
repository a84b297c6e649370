//! The decisions of a license check run: which month to use, which product a configured
//! installation root holds, and how many license files a listing offers.

use vstd::prelude::*;

use crate::detect::{
    dir_version, extract_version_from_dir_name, is_file_name_of, kind_of_dir_name,
    opt_string_view, path_file_name, MvtecProduct, ProductInfo, ProductKind,
};
use crate::paths::{
    final_component, is_path_sep, is_portable_path, lemma_windows_final_component_in_path,
    lemma_windows_final_component_last,
    starts_with_two_separators, starts_with_two_seps, windows_file_name, windows_final_component,
};
use crate::github::{lemma_listed_months, listed_months, name_below, string_views, GitHubEntry};
use crate::text::{chars_lt, lemma_chars_lt_irreflexive};
use crate::license::dat_files;
use crate::text::{ends_with_str, str_equals};

verus! {

/// Why a license check cannot go on.
#[derive(Debug, Clone, Copy, PartialEq, Eq, Structural)]
pub enum CheckError {
    /// The repository lists no month folder.
    NoMonths,
    /// The requested month is not among the listed ones.
    UnknownMonth,
    /// The configured installation root gives no version.
    NoVersion,
}

/// The month a check uses: none without months; the requested one when listed; the first
/// (latest) one when none is requested.
pub open spec fn chosen_month(months: Seq<Seq<char>>, requested: Option<Seq<char>>) -> Result<
    Seq<char>,
    CheckError,
> {
    if months.len() == 0 {
        Err(CheckError::NoMonths)
    } else {
        match requested {
            Some(m) => if months.contains(m) {
                Ok(m)
            } else {
                Err(CheckError::UnknownMonth)
            },
            None => Ok(months[0]),
        }
    }
}

/// The view of an optional string slice.
pub open spec fn opt_str_view(s: Option<&str>) -> Option<Seq<char>> {
    match s {
        Some(x) => Some(x@),
        None => None,
    }
}

/// Chooses the month of a check (see `chosen_month`).
pub fn choose_month(months: &Vec<String>, requested: Option<&str>) -> (r: Result<String, CheckError>)
    ensures
        match r {
            Ok(m) => chosen_month(string_views(months@), opt_str_view(requested)) == Ok::<
                Seq<char>,
                CheckError,
            >(m@),
            Err(e) => chosen_month(string_views(months@), opt_str_view(requested)) == Err::<
                Seq<char>,
                CheckError,
            >(e),
        },
{
    let ghost views = string_views(months@);
    if months.len() == 0 {
        return Err(CheckError::NoMonths);
    }
    match requested {
        Some(m) => {
            let mut i: usize = 0;
            while i < months.len()
                invariant
                    i <= months.len(),
                    months.len() > 0,
                    requested == Some(m),
                    views == string_views(months@),
                    forall|t: int| 0 <= t < i ==> views[t] != m@,
                decreases months.len() - i,
            {
                if str_equals(months[i].as_str(), m) {
                    assert(views[i as int] == m@);
                    assert(views.contains(m@));
                    let found = m.to_string();
                    assert(found@ == m@);
                    return Ok(found);
                }
                i += 1;
            }
            proof {
                if views.contains(m@) {
                    let t = choose|t: int| 0 <= t < views.len() && views[t] == m@;
                    assert(views[t] != m@);
                }
            }
            Err(CheckError::UnknownMonth)
        },
        None => Ok(months[0].clone()),
    }
}

/// The number of license files (names ending with `.dat`) in a listing.
pub fn count_dat_files(entries: &[GitHubEntry]) -> (r: usize)
    ensures
        r == dat_files(entries@).len(),
{
    let mut n: usize = 0;
    assert(entries@.take(0) =~= Seq::<GitHubEntry>::empty());
    for i in 0..entries.len()
        invariant
            n == dat_files(entries@.take(i as int)).len(),
            n <= i,
    {
        assert(entries@.take(i + 1).drop_last() =~= entries@.take(i as int));
        assert(entries@.take(i + 1).last() == entries@[i as int]);
        if ends_with_str(entries[i].name.as_str(), ".dat") {
            n += 1;
        }
    }
    assert(entries@.take(entries@.len() as int) =~= entries@);
    n
}

/// The product at a configured installation root whose final component is `dir_name`: its
/// version and kind come from that name; without a name or a version there is none.
pub open spec fn configured_product(root: Seq<char>, dir_name: Option<Seq<char>>) -> Result<
    ProductInfo,
    CheckError,
> {
    match dir_name {
        None => Err(CheckError::NoVersion),
        Some(n) => match dir_version(n) {
            None => Err(CheckError::NoVersion),
            Some(v) => Ok(ProductInfo { root, version: v, kind: kind_of_dir_name(n) }),
        },
    }
}

/// The product at a configured installation root, given the root's final component.
pub fn product_at(root: &str, dir_name: Option<&str>) -> (r: Result<MvtecProduct, CheckError>)
    ensures
        match r {
            Ok(p) => configured_product(root@, opt_str_view(dir_name)) == Ok::<
                ProductInfo,
                CheckError,
            >(p@),
            Err(e) => configured_product(root@, opt_str_view(dir_name)) == Err::<
                ProductInfo,
                CheckError,
            >(e),
        },
{
    match dir_name {
        None => Err(CheckError::NoVersion),
        Some(n) => match extract_version_from_dir_name(n) {
            None => Err(CheckError::NoVersion),
            Some(version) => {
                let kind = ProductKind::from_dir_name(n);
                Ok(MvtecProduct { root: root.to_string(), version, kind })
            },
        },
    }
}

/// The view of a product result.
pub open spec fn product_result_view(r: Result<MvtecProduct, CheckError>) -> Result<
    ProductInfo,
    CheckError,
> {
    match r {
        Ok(p) => Ok(p@),
        Err(e) => Err(e),
    }
}

/// The product at a configured installation root: its final path component decides version and
/// kind (see `configured_product`). A root that does not start with two separators is read as
/// Windows reads it, `/` and `\` both separating components after a drive prefix (see
/// `windows_final_component`); for one that does (a network, device or verbatim prefix),
/// `Path::file_name` decides.
pub fn product_from_root(root: &str) -> (r: Result<MvtecProduct, CheckError>)
    ensures
        match r {
            Ok(p) => p.root@ == root@ && exists|n: Seq<char>|
                n.len() > 0 && crate::text::seq_contains(root@, n) && #[trigger] configured_product(
                    root@,
                    Some(n),
                ) == Ok::<ProductInfo, CheckError>(p@),
            Err(e) => e == CheckError::NoVersion,
        },
        exists|name: Option<Seq<char>>|
            is_file_name_of(root@, name) && #[trigger] configured_product(root@, name)
                == product_result_view(r),
        is_portable_path(root@) ==> product_result_view(r) == configured_product(
            root@,
            final_component(root@),
        ),
        !starts_with_two_seps(root@) ==> product_result_view(r) == configured_product(
            root@,
            windows_final_component(root@),
        ),
{
    if !starts_with_two_separators(root) {
        let name = windows_file_name(root);
        proof {
            lemma_windows_final_component_in_path(root@);
        }
        let ghost nv = windows_final_component(root@);
        let r = product_at(root, name);
        assert(opt_str_view(name) == nv);
        proof {
            if r is Ok {
                let p = r->Ok_0;
                let n = nv->Some_0;
                assert(configured_product(root@, Some(n)) == Ok::<ProductInfo, CheckError>(p@));
            }
        }
        return r;
    }
    let name = path_file_name(root);
    let ghost nv = opt_string_view(name);
    match &name {
        Some(n) => {
            let r = product_at(root, Some(n.as_str()));
            match &r {
                Ok(p) => {
                    assert(configured_product(root@, Some(n@)) == Ok::<ProductInfo, CheckError>(
                        p@,
                    ));
                },
                Err(_) => {},
            }
            assert(configured_product(root@, nv) == product_result_view(r));
            r
        },
        None => {
            let r = product_at(root, None);
            assert(configured_product(root@, nv) == product_result_view(r));
            r
        },
    }
}

/// A configured root whose last component, after its final `/` or `\` and with or without a
/// drive prefix before it, is a name (neither `.` nor `..`) holds the product that name
/// describes: the name's version and kind at that root when the name has a version, and
/// `NoVersion` when it has none.
pub proof fn lemma_root_product_from_last_name(prefix: Seq<char>, sep: char, name: Seq<char>)
    requires
        is_path_sep(sep),
        name.len() > 0,
        name != seq!['.'],
        name != seq!['.', '.'],
        forall|i: int| 0 <= i < name.len() ==> !is_path_sep(#[trigger] name[i]),
    ensures
        ({
            let root = prefix.push(sep) + name;
            &&& dir_version(name) matches Some(v) ==> configured_product(
                root,
                windows_final_component(root),
            ) == Ok::<ProductInfo, CheckError>(
                ProductInfo { root, version: v, kind: kind_of_dir_name(name) },
            )
            &&& dir_version(name) is None ==> configured_product(root, windows_final_component(root))
                == Err::<ProductInfo, CheckError>(CheckError::NoVersion)
        }),
{
    lemma_windows_final_component_last(prefix, sep, name);
}

/// Without a requested month a check uses the latest month of the listing: the first listed,
/// which sorts before no other listed month; a listing without months stops the check.
pub proof fn lemma_default_month_is_latest(entries: Seq<GitHubEntry>)
    ensures
        listed_months(entries).len() == 0 ==> chosen_month(listed_months(entries), None)
            == Err::<Seq<char>, CheckError>(CheckError::NoMonths),
        listed_months(entries).len() > 0 ==> chosen_month(listed_months(entries), None) == Ok::<
            Seq<char>,
            CheckError,
        >(listed_months(entries)[0]) && forall|k: int|
            0 <= k < listed_months(entries).len() ==> !chars_lt(
                listed_months(entries)[0],
                #[trigger] listed_months(entries)[k],
            ),
{
    lemma_listed_months(entries);
    let l = listed_months(entries);
    assert forall|k: int| 0 <= k < l.len() implies !chars_lt(l[0], #[trigger] l[k]) by {
        if k == 0 {
            lemma_chars_lt_irreflexive(l[0]);
        } else {
            assert(!(name_below())(l[0], l[k]));
        }
    }
}

/// The map that a list of (name, content) pairs stands for: later pairs replace earlier ones.
pub open spec fn pairs_map(s: Seq<(Seq<char>, Seq<u8>)>) -> Map<Seq<char>, Seq<u8>>
    decreases s.len(),
{
    if s.len() == 0 {
        Map::empty()
    } else {
        pairs_map(s.drop_last()).insert(s.last().0, s.last().1)
    }
}

/// Downloaded license files by name, so that each file is fetched once per run.
pub struct DownloadCache {
    entries: Vec<(String, Vec<u8>)>,
}

impl DownloadCache {
    /// The stored pairs as plain values, in the order they were stored.
    pub closed spec fn pairs(&self) -> Seq<(Seq<char>, Seq<u8>)> {
        self.entries@.map_values(|e: (String, Vec<u8>)| (e.0@, e.1@))
    }
}

impl View for DownloadCache {
    type V = Map<Seq<char>, Seq<u8>>;

    closed spec fn view(&self) -> Map<Seq<char>, Seq<u8>> {
        pairs_map(self.pairs())
    }
}

/// Pairs after the last one named `n` do not change what `n` maps to.
proof fn lemma_pairs_map_tail(s: Seq<(Seq<char>, Seq<u8>)>, j: int, n: Seq<char>)
    requires
        0 <= j <= s.len(),
        forall|k: int| j <= k < s.len() ==> (#[trigger] s[k]).0 != n,
    ensures
        pairs_map(s).contains_key(n) == pairs_map(s.take(j)).contains_key(n),
        pairs_map(s).contains_key(n) ==> pairs_map(s)[n] == pairs_map(s.take(j))[n],
    decreases s.len() - j,
{
    if j < s.len() {
        assert(s.drop_last().take(j) =~= s.take(j));
        assert forall|k: int| j <= k < s.drop_last().len() implies (#[trigger] s.drop_last()[k]).0
            != n by {
            assert(s.drop_last()[k] == s[k]);
        }
        lemma_pairs_map_tail(s.drop_last(), j, n);
        assert(s[s.len() - 1].0 != n);
    } else {
        assert(s.take(j) =~= s);
    }
}

impl DownloadCache {
    /// An empty cache.
    pub fn new() -> (r: DownloadCache)
        ensures
            r@ == Map::<Seq<char>, Seq<u8>>::empty(),
    {
        let r = DownloadCache { entries: Vec::new() };
        assert(r.pairs() =~= Seq::<(Seq<char>, Seq<u8>)>::empty());
        r
    }

    /// The content stored under `name`, if any.
    pub fn get(&self, name: &str) -> (r: Option<&Vec<u8>>)
        ensures
            match r {
                Some(d) => self@.contains_key(name@) && self@[name@] == d@,
                None => !self@.contains_key(name@),
            },
    {
        let ghost s = self.pairs();
        let mut i: usize = self.entries.len();
        while i > 0
            invariant
                i <= self.entries.len(),
                s == self.pairs(),
                s.len() == self.entries.len(),
                forall|k: int| i <= k < s.len() ==> (#[trigger] s[k]).0 != name@,
            decreases i,
        {
            let e = &self.entries[i - 1];
            if str_equals(e.0.as_str(), name) {
                proof {
                    assert(s[i - 1] == (e.0@, e.1@));
                    lemma_pairs_map_tail(s, i as int, name@);
                    assert(s.take(i as int).drop_last() =~= s.take(i - 1));
                    assert(s.take(i as int).last() == s[i - 1]);
                }
                return Some(&e.1);
            }
            assert(s[i - 1] == (e.0@, e.1@));
            i -= 1;
        }
        proof {
            lemma_pairs_map_tail(s, 0, name@);
            assert(s.take(0) =~= Seq::<(Seq<char>, Seq<u8>)>::empty());
        }
        None
    }

    /// Stores `data` under `name`, replacing what was stored under it.
    pub fn insert(&mut self, name: String, data: Vec<u8>)
        ensures
            final(self)@ == old(self)@.insert(name@, data@),
    {
        let ghost before = self.pairs();
        let ghost pair = (name@, data@);
        self.entries.push((name, data));
        assert(self.pairs() =~= before.push(pair));
        assert(self.pairs().drop_last() =~= before);
    }
}

/// A read after a write gives back what was written, and leaves other names as they were.
pub proof fn lemma_cache_read_after_write(
    m: Map<Seq<char>, Seq<u8>>,
    name: Seq<char>,
    data: Seq<u8>,
    other: Seq<char>,
)
    requires
        other != name,
    ensures
        m.insert(name, data).contains_key(name),
        m.insert(name, data)[name] == data,
        m.insert(name, data).contains_key(other) == m.contains_key(other),
        m.contains_key(other) ==> m.insert(name, data)[other] == m[other],
{
}

} // verus!
