//! Recognising installed MVTec products from their installation directories.

use vstd::prelude::*;
use vstd::string::StrSliceExecFns;
use vstd::utf8::{decode_utf8, encode_utf8, is_char_boundary};

use crate::ordering::{
    insert_pos, is_sorted_desc, is_strict_order, keys_distinct, lemma_stable_sort_contains,
    lemma_stable_sort_keys_distinct, lemma_stable_sort_permutation, lemma_stable_sort_sorted,
    stable_sort_desc,
};
use crate::version::{
    lemma_version_order_reflexive, lemma_version_order_transitive, version_order,
    version_order_of, PartsOrder,
};
use crate::paths::{
    final_component, is_portable_path, lemma_same_path_equivalence,
    lemma_windows_final_component_in_path, path_key, same_path,
    same_path_spec, starts_with_two_separators, starts_with_two_seps, windows_file_name,
    windows_final_component,
};
use crate::text::{
    chars_of, contains_chars, count_leading, find_bytes, first_occurrence, is_digit,
    lemma_first_occurrence_none, lemma_first_occurrence_unique, lowercase_of, seq_contains, eq_ignore_ascii_case, ascii_lowered, is_ascii_text, eq_ignore_ascii_case_str,
    to_lowercase, trim_start_char,
};

verus! {

/// The kinds of MVTec product that an installation directory can hold.
#[derive(Debug, Clone, Copy, PartialEq, Eq, Structural)]
pub enum ProductKind {
    /// Standard Halcon (Steady release).
    HalconSteady,
    /// Halcon Progress release.
    HalconProgress,
    /// Halcon Steady with Deep Learning.
    HalconSteadyDL,
    /// MVTec Deep Learning Tool.
    DeepLearningTool,
    /// Halcon of another or unknown edition.
    HalconOther,
    /// Any other MVTec product.
    Other,
}

/// The kind of product named by a lower-cased directory name.
pub open spec fn kind_of_lower(lower: Seq<char>) -> ProductKind {
    if seq_contains(lower, "deeplearningtool"@) || seq_contains(lower, "deep_learning"@) {
        ProductKind::DeepLearningTool
    } else if seq_contains(lower, "halcon"@) {
        let has_steady = seq_contains(lower, "steady"@);
        let has_progress = seq_contains(lower, "progress"@);
        let has_dl = seq_contains(lower, "-dl"@) || seq_contains(lower, "_dl"@);
        if has_steady && (has_progress || has_dl) {
            ProductKind::HalconSteadyDL
        } else if has_steady {
            ProductKind::HalconSteady
        } else if has_progress {
            ProductKind::HalconProgress
        } else {
            ProductKind::HalconOther
        }
    } else {
        ProductKind::Other
    }
}

/// The kind of product named by a directory name.
pub open spec fn kind_of_dir_name(name: Seq<char>) -> ProductKind {
    kind_of_lower(lowercase_of(name))
}

/// The label under which a kind is shown to the user.
pub open spec fn label_of(kind: ProductKind) -> Seq<char> {
    match kind {
        ProductKind::HalconSteady => "Halcon Steady"@,
        ProductKind::HalconProgress => "Halcon Progress"@,
        ProductKind::HalconSteadyDL => "Halcon Steady + DL"@,
        ProductKind::DeepLearningTool => "Deep Learning Tool"@,
        ProductKind::HalconOther => "Halcon"@,
        ProductKind::Other => "MVTec Product"@,
    }
}

impl ProductKind {
    /// The kind of product named by an already lower-cased directory name.
    pub fn from_lower_name(lower: &str) -> (r: ProductKind)
        ensures
            r == kind_of_lower(lower@),
    {
        let l = chars_of(lower);
        if contains_chars(&l, "deeplearningtool") || contains_chars(&l, "deep_learning") {
            return ProductKind::DeepLearningTool;
        }
        if contains_chars(&l, "halcon") {
            let has_steady = contains_chars(&l, "steady");
            let has_progress = contains_chars(&l, "progress");
            let has_dl = contains_chars(&l, "-dl") || contains_chars(&l, "_dl");
            match (has_steady, has_progress, has_dl) {
                (true, true, _) => ProductKind::HalconSteadyDL,
                (true, false, true) => ProductKind::HalconSteadyDL,
                (true, false, false) => ProductKind::HalconSteady,
                (false, true, _) => ProductKind::HalconProgress,
                (false, false, _) => ProductKind::HalconOther,
            }
        } else {
            ProductKind::Other
        }
    }

    /// Recognises the product kind from an installation directory name, case-insensitively.
    pub fn from_dir_name(name: &str) -> (r: ProductKind)
        ensures
            r == kind_of_dir_name(name@),
            is_ascii_text(name@) ==> r == kind_of_lower(ascii_lowered(name@)),
    {
        let lower = to_lowercase(name);
        ProductKind::from_lower_name(lower.as_str())
    }

    /// The label under which this kind is shown to the user.
    pub fn label(&self) -> (r: &str)
        ensures
            r@ == label_of(*self),
    {
        match self {
            ProductKind::HalconSteady => "Halcon Steady",
            ProductKind::HalconProgress => "Halcon Progress",
            ProductKind::HalconSteadyDL => "Halcon Steady + DL",
            ProductKind::DeepLearningTool => "Deep Learning Tool",
            ProductKind::HalconOther => "Halcon",
            ProductKind::Other => "MVTec Product",
        }
    }
}

/// The bytes of `halcon`, the marker after which a directory name gives its version.
pub open spec fn marker_bytes() -> Seq<u8> {
    seq![104u8, 97u8, 108u8, 99u8, 111u8, 110u8]
}

/// The byte offset just past the first `halcon` in the lower-cased name, if there is one.
pub open spec fn cut_point(lower: Seq<char>) -> Option<int> {
    match first_occurrence(encode_utf8(lower), marker_bytes()) {
        Some(p) => Some(p + 6),
        None => None,
    }
}

/// The name can be cut at `cut_point` of the lower-cased name: the offset lies within the
/// name's bytes on a character boundary.
pub open spec fn cut_is_valid(name: Seq<char>, lower: Seq<char>) -> bool {
    match cut_point(lower) {
        Some(i) => i <= encode_utf8(name).len() && is_char_boundary(encode_utf8(name), i),
        None => true,
    }
}

/// A character that may appear in a version: an ASCII digit or `.`.
pub open spec fn is_version_char(c: char) -> bool {
    is_digit(c) || c == '.'
}

/// The number of leading version characters of `s`.
pub open spec fn version_run(s: Seq<char>) -> nat
    decreases s.len(),
{
    if s.len() > 0 && is_version_char(s[0]) {
        1 + version_run(s.drop_first())
    } else {
        0
    }
}

/// The version that starts a name's tail: leading `-`, then leading `_`, are dropped, and the
/// digits and dots that follow are taken.
pub open spec fn version_prefix(rest: Seq<char>) -> Seq<char> {
    let t = trim_start_char(trim_start_char(rest, '-'), '_');
    t.take(version_run(t) as int)
}

/// The version found in `name` after the first `halcon` of its lower-cased form `lower`, when
/// it is not empty.
pub open spec fn version_in(name: Seq<char>, lower: Seq<char>) -> Option<Seq<char>> {
    match cut_point(lower) {
        None => None,
        Some(i) => {
            let nb = encode_utf8(name);
            let v = version_prefix(decode_utf8(nb.subrange(i, nb.len() as int)));
            if v.len() > 0 {
                Some(v)
            } else {
                None
            }
        },
    }
}

/// The version given by a directory name; `None` when it has none, or when the position of
/// `halcon` in the lower-cased name is no valid cut of the name itself.
pub open spec fn dir_version(name: Seq<char>) -> Option<Seq<char>> {
    dir_version_lowered(name, lowercase_of(name))
}

/// The version given by a directory name whose lower-cased form is `lower` (see `dir_version`).
pub open spec fn dir_version_lowered(name: Seq<char>, lower: Seq<char>) -> Option<Seq<char>> {
    if cut_is_valid(name, lower) {
        version_in(name, lower)
    } else {
        None
    }
}

/// The number of leading version characters of `s` from position `start` on.
fn count_version_chars(s: &Vec<char>, start: usize) -> (r: usize)
    requires
        start <= s.len(),
    ensures
        r == version_run(s@.skip(start as int)),
        start + r <= s.len(),
{
    let mut i: usize = start;
    while i < s.len() && (('0' <= s[i] && s[i] <= '9') || s[i] == '.')
        invariant
            start <= i <= s.len(),
            version_run(s@.skip(start as int)) == (i - start) + version_run(s@.skip(i as int)),
        decreases s.len() - i,
    {
        assert(s@.skip(i as int).drop_first() =~= s@.skip(i + 1));
        assert(s@.skip(i as int)[0] == s@[i as int]);
        i += 1;
    }
    i - start
}

/// The version in `name` after the first `halcon` of `lower`, the lower-cased form of `name`.
pub fn version_after_marker(name: &str, lower: &str) -> (r: Option<String>)
    requires
        cut_is_valid(name@, lower@),
    ensures
        match r {
            Some(v) => version_in(name@, lower@) == Some(v@),
            None => version_in(name@, lower@) is None,
        },
{
    let lb = lower.as_bytes();
    let marker: Vec<u8> = vec![104u8, 97u8, 108u8, 99u8, 111u8, 110u8];
    assert(marker@ =~= marker_bytes());
    match find_bytes(lb, marker.as_slice()) {
        None => {
            proof {
                lemma_first_occurrence_none(lb@, marker_bytes());
            }
            None
        },
        Some(p) => {
            proof {
                lemma_first_occurrence_unique(lb@, marker_bytes(), p as int);
            }
            let total: usize = lb.len();
            assert(p + 6 <= total);
            let i: usize = p + 6;
            let (_, after) = name.split_at(i);
            proof {
                vstd::utf8::encode_utf8_decode_utf8(after@);
            }
            assert(after@ == decode_utf8(
                encode_utf8(name@).subrange(i as int, encode_utf8(name@).len() as int),
            ));
            let cs = chars_of(after);
            let k1: usize = count_leading(&cs, 0, '-');
            let k2: usize = count_leading(&cs, k1, '_');
            let start: usize = k1 + k2;
            let n: usize = count_version_chars(&cs, start);
            assert(cs@.skip(0) =~= cs@);
            assert(trim_start_char(cs@, '-') =~= cs@.skip(k1 as int));
            assert(trim_start_char(cs@.skip(k1 as int), '_') =~= cs@.skip(start as int)) by {
                assert(cs@.skip(k1 as int).skip(k2 as int) =~= cs@.skip(start as int));
            }
            assert(version_prefix(cs@) =~= cs@.subrange(start as int, start + n));
            if n == 0 {
                None
            } else {
                let v = after.substring_char(start, start + n);
                Some(v.to_owned())
            }
        },
    }
}

/// Extracts the version from an installation directory name such as `HALCON-24.11-Progress`.
pub fn extract_version_from_dir_name(name: &str) -> (r: Option<String>)
    ensures
        match r {
            Some(v) => dir_version(name@) == Some(v@),
            None => dir_version(name@) is None,
        },
        is_ascii_text(name@) ==> opt_string_view(r) == dir_version_lowered(
            name@,
            ascii_lowered(name@),
        ),
{
    let lower = to_lowercase(name);
    let lb = lower.as_str().as_bytes();
    let marker: Vec<u8> = vec![104u8, 97u8, 108u8, 99u8, 111u8, 110u8];
    assert(marker@ =~= marker_bytes());
    match find_bytes(lb, marker.as_slice()) {
        None => {
            proof {
                lemma_first_occurrence_none(lb@, marker_bytes());
            }
            None
        },
        Some(p) => {
            proof {
                lemma_first_occurrence_unique(lb@, marker_bytes(), p as int);
            }
            let total: usize = lb.len();
            assert(p + 6 <= total);
            let i: usize = p + 6;
            assert(lb@ == encode_utf8(lowercase_of(name@)));
            if i <= name.as_bytes().len() && name.is_char_boundary(i) {
                version_after_marker(name, lower.as_str())
            } else {
                None
            }
        },
    }
}

/// A detected MVTec product installation.
#[derive(Debug, Clone)]
pub struct MvtecProduct {
    /// The installation directory.
    pub root: String,
    /// The version read from the directory name (`0.0` when it gives none).
    pub version: String,
    /// The kind of product.
    pub kind: ProductKind,
}

/// A product installation as plain values.
pub struct ProductInfo {
    pub root: Seq<char>,
    pub version: Seq<char>,
    pub kind: ProductKind,
}

impl View for MvtecProduct {
    type V = ProductInfo;

    open spec fn view(&self) -> ProductInfo {
        ProductInfo { root: self.root@, version: self.version@, kind: self.kind }
    }
}

/// A directory that may hold a product: its path and its final name component.
#[derive(Debug, Clone)]
pub struct DirCandidate {
    /// The directory's path.
    pub root: String,
    /// The directory's own name (the last component of `root`).
    pub name: String,
}

/// A candidate directory as plain values.
pub struct DirInfo {
    pub root: Seq<char>,
    pub name: Seq<char>,
}

impl View for DirCandidate {
    type V = DirInfo;

    open spec fn view(&self) -> DirInfo {
        DirInfo { root: self.root@, name: self.name@ }
    }
}

/// The views of a sequence of products.
pub open spec fn product_infos(s: Seq<MvtecProduct>) -> Seq<ProductInfo> {
    s.map_values(|p: MvtecProduct| p@)
}

/// The product that a directory holds, judged by its name and the lower-cased form `lower` of
/// that name, if it is a recognisable MVTec product.
pub open spec fn identified_lowered(root: Seq<char>, name: Seq<char>, lower: Seq<char>) -> Option<
    ProductInfo,
> {
    let kind = kind_of_lower(lower);
    if kind == ProductKind::Other && !seq_contains(lower, "halcon"@) {
        None
    } else {
        Some(
            ProductInfo {
                root,
                version: match dir_version(name) {
                    Some(v) => v,
                    None => "0.0"@,
                },
                kind,
            },
        )
    }
}

/// The product that a directory holds, if it is a recognisable MVTec product.
pub open spec fn identified(root: Seq<char>, name: Seq<char>) -> Option<ProductInfo> {
    identified_lowered(root, name, lowercase_of(name))
}

/// Recognises the product installed in the directory `root` whose own name is `dir_name` and
/// whose lower-cased name is `lower`.
pub fn identify_lowered(root: &str, dir_name: &str, lower: &str) -> (r: Option<MvtecProduct>)
    ensures
        match r {
            Some(p) => identified_lowered(root@, dir_name@, lower@) == Some(p@),
            None => identified_lowered(root@, dir_name@, lower@) is None,
        },
{
    let kind = ProductKind::from_lower_name(lower);
    if kind == ProductKind::Other {
        let l = chars_of(lower);
        if !contains_chars(&l, "halcon") {
            return None;
        }
    }
    let version = match extract_version_from_dir_name(dir_name) {
        Some(v) => v,
        None => "0.0".to_string(),
    };
    Some(MvtecProduct { root: root.to_string(), version, kind })
}

/// Recognises the product installed in the directory `root` whose own name is `dir_name`.
pub fn identify_product(root: &str, dir_name: &str) -> (r: Option<MvtecProduct>)
    ensures
        match r {
            Some(p) => identified(root@, dir_name@) == Some(p@),
            None => identified(root@, dir_name@) is None,
        },
{
    let lower = to_lowercase(dir_name);
    identify_lowered(root, dir_name, lower.as_str())
}

/// One version ranks below another.
pub open spec fn product_below() -> spec_fn(ProductInfo, ProductInfo) -> bool {
    |p: ProductInfo, x: ProductInfo| version_order(p.version, x.version) == PartsOrder::Less
}

/// Products sorted by version, newest first; products of equal versions keep their order.
pub open spec fn sorted_by_version(s: Seq<ProductInfo>) -> Seq<ProductInfo> {
    stable_sort_desc(s, product_below())
}

/// Sorts products by version, newest first, keeping the order of products of equal versions.
pub fn sort_products_by_version(v: Vec<MvtecProduct>) -> (r: Vec<MvtecProduct>)
    ensures
        product_infos(r@) == sorted_by_version(product_infos(v@)),
{
    let ghost orig = product_infos(v@);
    let mut rest = v;
    let mut out: Vec<MvtecProduct> = Vec::new();
    let ghost mut k: int = 0;
    assert(orig.take(0) =~= Seq::<ProductInfo>::empty());
    while rest.len() > 0
        invariant
            0 <= k <= orig.len(),
            product_infos(rest@) =~= orig.skip(k),
            product_infos(out@) == sorted_by_version(orig.take(k)),
        decreases rest.len(),
    {
        let ghost old_rest = rest@;
        assert(product_infos(old_rest).len() == old_rest.len());
        assert(k < orig.len());
        let x = rest.remove(0);
        let ghost xi = x@;
        assert(product_infos(old_rest)[0] == xi);
        assert(orig.skip(k)[0] == xi);
        assert forall|i: int| 0 <= i < rest@.len() implies product_infos(rest@)[i] == orig.skip(
            k + 1,
        )[i] by {
            assert(rest@[i] == old_rest[i + 1]);
            assert(product_infos(old_rest)[i + 1] == orig.skip(k)[i + 1]);
        }
        assert(product_infos(rest@) =~= orig.skip(k + 1));
        let ghost prev = product_infos(out@);
        let mut j: usize = 0;
        assert(prev.skip(0) =~= prev);
        while j < out.len() && version_order_of(out[j].version.as_str(), x.version.as_str())
            != PartsOrder::Less
            invariant
                j <= out.len(),
                prev == product_infos(out@),
                xi == x@,
                insert_pos(prev, xi, product_below()) == j + insert_pos(
                    prev.skip(j as int),
                    xi,
                    product_below(),
                ),
            decreases out.len() - j,
        {
            assert(prev.skip(j as int).drop_first() =~= prev.skip(j + 1));
            assert(prev.skip(j as int)[0] == out@[j as int]@);
            j += 1;
        }
        proof {
            if j < out.len() {
                assert(prev.skip(j as int)[0] == out@[j as int]@);
            }
        }
        out.insert(j, x);
        assert(product_infos(out@) =~= prev.insert(j as int, xi));
        assert(orig.take(k + 1).drop_last() =~= orig.take(k));
        assert(orig.take(k + 1).last() == xi);
        proof {
            k = k + 1;
        }
    }
    assert(orig.take(k) =~= orig);
    out
}

/// The version order of products is a strict order.
pub proof fn lemma_product_below_strict()
    ensures
        is_strict_order(product_below()),
{
    assert forall|a: ProductInfo| !#[trigger] (product_below())(a, a) by {
        lemma_version_order_reflexive(a.version);
    }
    assert forall|a: ProductInfo, b: ProductInfo, c: ProductInfo|
        #[trigger] (product_below())(a, b) && #[trigger] (product_below())(b, c) implies (
        product_below())(a, c) by {
        lemma_version_order_transitive(a.version, b.version, c.version);
    }
}

/// Sorting by version keeps every product and yields them newest first.
pub proof fn lemma_sorted_by_version(s: Seq<ProductInfo>)
    ensures
        sorted_by_version(s).to_multiset() == s.to_multiset(),
        is_sorted_desc(sorted_by_version(s), product_below()),
{
    lemma_stable_sort_permutation(s, product_below());
    lemma_product_below_strict();
    lemma_stable_sort_sorted(s, product_below());
}

/// Why no product list could be produced.
#[derive(Debug, Clone, Copy, PartialEq, Eq, Structural)]
pub enum DetectError {
    /// No MVTec product installation was found.
    NoProducts,
}

/// Directories under the MVTec folder that never hold a product.
pub open spec fn is_reserved_dir(name: Seq<char>) -> bool {
    eq_ignore_ascii_case(name, "SoftwareManager"@) || eq_ignore_ascii_case(name, "extensions"@)
}

/// Some product in `s` is installed at the path `root` (compared by components).
pub open spec fn has_root(s: Seq<ProductInfo>, root: Seq<char>) -> bool {
    exists|i: int| 0 <= i < s.len() && same_path_spec((#[trigger] s[i]).root, root)
}

/// What an installation directory comes to as a path.
pub open spec fn root_key() -> spec_fn(ProductInfo) -> (Option<int>, bool, bool, Seq<Seq<char>>) {
    |p: ProductInfo| path_key(p.root)
}

/// The products that scanning adds to `start`: each candidate in turn, skipping reserved
/// directories, unrecognised ones and installations at a path already listed (compared by
/// components, see `same_path_spec`).
pub open spec fn gathered(start: Seq<ProductInfo>, scanned: Seq<DirInfo>) -> Seq<ProductInfo>
    decreases scanned.len(),
{
    if scanned.len() == 0 {
        start
    } else {
        let prev = gathered(start, scanned.drop_last());
        let c = scanned.last();
        if is_reserved_dir(c.name) {
            prev
        } else {
            match identified(c.root, c.name) {
                None => prev,
                Some(p) => if has_root(prev, p.root) {
                    prev
                } else {
                    prev.push(p)
                },
            }
        }
    }
}

/// The product named by the configured installation root, if any.
pub open spec fn configured_products(env: Option<DirInfo>) -> Seq<ProductInfo> {
    match env {
        Some(c) => match identified(c.root, c.name) {
            Some(p) => seq![p],
            None => Seq::<ProductInfo>::empty(),
        },
        None => Seq::<ProductInfo>::empty(),
    }
}

/// All products found: the configured one, then the scanned ones, sorted newest first.
pub open spec fn found_products(env: Option<DirInfo>, scanned: Seq<DirInfo>) -> Seq<ProductInfo> {
    sorted_by_version(gathered(configured_products(env), scanned))
}

/// The view of an optional candidate.
pub open spec fn candidate_info(c: Option<DirCandidate>) -> Option<DirInfo> {
    match c {
        Some(d) => Some(d@),
        None => None,
    }
}

/// The views of candidate directories.
pub open spec fn dir_infos(s: Seq<DirCandidate>) -> Seq<DirInfo> {
    s.map_values(|c: DirCandidate| c@)
}

/// Whether some product in `products` is installed at `root`.
fn has_root_in(products: &Vec<MvtecProduct>, root: &String) -> (r: bool)
    ensures
        r == has_root(product_infos(products@), root@),
{
    let mut j: usize = 0;
    while j < products.len()
        invariant
            j <= products.len(),
            forall|t: int| 0 <= t < j ==> !same_path_spec(products@[t].root@, root@),
        decreases products.len() - j,
    {
        if same_path(products[j].root.as_str(), root.as_str()) {
            assert(product_infos(products@)[j as int].root == products@[j as int].root@);
            return true;
        }
        j += 1;
    }
    proof {
        if has_root(product_infos(products@), root@) {
            let t = choose|t: int|
                0 <= t < product_infos(products@).len() && same_path_spec(
                    (#[trigger] product_infos(products@)[t]).root,
                    root@,
                );
            assert(product_infos(products@)[t].root == products@[t].root@);
        }
    }
    false
}

/// Lists the installed products: the configured installation root (`configured`, already known
/// to exist) first, then the scanned directories in order, skipping reserved and unrecognised
/// directories and installations at a path already listed; the list is sorted newest version first.
pub fn select_products(configured: Option<DirCandidate>, scanned: &Vec<DirCandidate>) -> (r: Result<
    Vec<MvtecProduct>,
    DetectError,
>)
    ensures
        match r {
            Ok(v) => product_infos(v@) == found_products(candidate_info(configured), dir_infos(scanned@))
                && v@.len() > 0,
            Err(e) => e == DetectError::NoProducts && found_products(
                candidate_info(configured),
                dir_infos(scanned@),
            ).len() == 0,
        },
{
    let mut products: Vec<MvtecProduct> = Vec::new();
    let ghost start = configured_products(candidate_info(configured));
    match &configured {
        Some(c) => {
            match identify_product(c.root.as_str(), c.name.as_str()) {
                Some(p) => {
                    products.push(p);
                },
                None => {},
            }
        },
        None => {},
    }
    assert(product_infos(products@) =~= start);
    let ghost infos = dir_infos(scanned@);
    assert(infos.take(0) =~= Seq::<DirInfo>::empty());
    for i in 0..scanned.len()
        invariant
            infos == dir_infos(scanned@),
            product_infos(products@) == gathered(start, infos.take(i as int)),
    {
        let c = &scanned[i];
        assert(infos.take(i + 1).drop_last() =~= infos.take(i as int));
        assert(infos.take(i + 1).last() == c@);
        if eq_ignore_ascii_case_str(c.name.as_str(), "SoftwareManager") || eq_ignore_ascii_case_str(
            c.name.as_str(),
            "extensions",
        ) {
        } else {
            match identify_product(c.root.as_str(), c.name.as_str()) {
                Some(p) => {
                    if !has_root_in(&products, &p.root) {
                        let ghost before = product_infos(products@);
                        let ghost pi = p@;
                        products.push(p);
                        assert(product_infos(products@) =~= before.push(pi));
                    }
                },
                None => {},
            }
        }
    }
    assert(infos.take(scanned.len() as int) =~= infos);
    let ghost all = product_infos(products@);
    let sorted = sort_products_by_version(products);
    proof {
        lemma_stable_sort_permutation(all, product_below());
    }
    if sorted.len() == 0 {
        Err(DetectError::NoProducts)
    } else {
        Ok(sorted)
    }
}

/// What `Path::file_name` may give for `path` on any platform: a final component is a non-empty
/// piece of `path`, and a path in which no platform reads a prefix and which has no `\` has
/// the final component that its pieces between `/` give (see `final_component`).
pub open spec fn is_file_name_of(path: Seq<char>, name: Option<Seq<char>>) -> bool {
    &&& (name matches Some(n) ==> n.len() > 0 && seq_contains(path, n))
    &&& (is_portable_path(path) ==> name == final_component(path))
}

/// The view of an optional string.
pub open spec fn opt_string_view(s: Option<String>) -> Option<Seq<char>> {
    match s {
        Some(x) => Some(x@),
        None => None,
    }
}

/// The version given by an optional final path component.
pub open spec fn version_of_file_name(name: Option<Seq<char>>) -> Option<Seq<char>> {
    match name {
        Some(n) => dir_version(n),
        None => None,
    }
}

/// Calls `Path::file_name` on `path` and converts the final component to a `String`. What the
/// final component is depends on the platform's path separators; the contract states only what
/// holds on every platform (see `is_file_name_of`).
#[verifier::external_body]
pub(crate) fn path_file_name(path: &str) -> (r: Option<String>)
    ensures
        is_file_name_of(path@, opt_string_view(r)),
{
    match std::path::Path::new(path).file_name() {
        Some(n) => Some(n.to_string_lossy().into_owned()),
        None => None,
    }
}

/// Extracts the version from the final component of an installation path: the version that
/// `dir_version` reads from the final component, `None` without one. A path that does not start
/// with two separators is read as Windows reads it, `/` and `\` both separating components after
/// a drive prefix (see `windows_final_component`); for one that does (a network, device or
/// verbatim prefix), `Path::file_name` decides.
pub fn extract_version_from_path(path: &str) -> (r: Option<String>)
    ensures
        match r {
            Some(v) => exists|n: Seq<char>|
                n.len() > 0 && seq_contains(path@, n) && #[trigger] dir_version(n) == Some(v@),
            None => true,
        },
        exists|name: Option<Seq<char>>|
            is_file_name_of(path@, name) && #[trigger] version_of_file_name(name)
                == opt_string_view(r),
        is_portable_path(path@) ==> opt_string_view(r) == version_of_file_name(
            final_component(path@),
        ),
        !starts_with_two_seps(path@) ==> opt_string_view(r) == version_of_file_name(
            windows_final_component(path@),
        ),
{
    if !starts_with_two_separators(path) {
        let name = windows_file_name(path);
        proof {
            lemma_windows_final_component_in_path(path@);
        }
        let ghost nv = windows_final_component(path@);
        return match name {
            Some(n) => {
                let r = extract_version_from_dir_name(n);
                match &r {
                    Some(v) => {
                        assert(dir_version(n@) == Some(v@));
                    },
                    None => {},
                }
                assert(version_of_file_name(nv) == opt_string_view(r));
                r
            },
            None => {
                assert(version_of_file_name(nv) == opt_string_view(None));
                None
            },
        };
    }
    let name = path_file_name(path);
    let ghost nv = opt_string_view(name);
    match name {
        Some(n) => {
            let r = extract_version_from_dir_name(n.as_str());
            match &r {
                Some(v) => {
                    assert(dir_version(n@) == Some(v@));
                },
                None => {},
            }
            assert(version_of_file_name(nv) == opt_string_view(r));
            r
        },
        None => {
            assert(version_of_file_name(nv) == opt_string_view(None));
            None
        },
    }
}

/// The leading version characters of `s` are version characters.
proof fn lemma_version_run(s: Seq<char>)
    ensures
        version_run(s) <= s.len(),
        forall|i: int| 0 <= i < version_run(s) ==> is_version_char(#[trigger] s[i]),
    decreases s.len(),
{
    if s.len() > 0 && is_version_char(s[0]) {
        lemma_version_run(s.drop_first());
        assert forall|i: int| 0 <= i < version_run(s) implies is_version_char(#[trigger] s[i]) by {
            if i > 0 {
                assert(s[i] == s.drop_first()[i - 1]);
            }
        }
    }
}

/// A version read from a directory name is a non-empty run of ASCII digits and dots.
pub proof fn lemma_dir_version_form(name: Seq<char>)
    ensures
        dir_version(name) matches Some(v) ==> v.len() > 0 && forall|i: int|
            0 <= i < v.len() ==> is_version_char(#[trigger] v[i]),
{
    let lower = lowercase_of(name);
    if let Some(i) = cut_point(lower) {
        let nb = encode_utf8(name);
        let rest = decode_utf8(nb.subrange(i, nb.len() as int));
        let t = trim_start_char(trim_start_char(rest, '-'), '_');
        lemma_version_run(t);
        let v = t.take(version_run(t) as int);
        assert forall|k: int| 0 <= k < v.len() implies is_version_char(#[trigger] v[k]) by {
            assert(v[k] == t[k]);
        }
    }
}

/// A directory yields a product exactly when its name is recognised as some MVTec product;
/// the product sits at the directory, has the name's kind and a non-empty version.
pub proof fn lemma_identified(root: Seq<char>, name: Seq<char>)
    ensures
        identified(root, name) is Some <==> kind_of_dir_name(name) != ProductKind::Other,
        identified(root, name) matches Some(p) ==> p.root == root && p.kind == kind_of_dir_name(name)
            && p.version.len() > 0,
{
    reveal_strlit("0.0");
}

/// Every product of `gathered` was identified, at distinct directories.
proof fn lemma_gathered(start: Seq<ProductInfo>, scanned: Seq<DirInfo>)
    requires
        keys_distinct(start, root_key()),
        forall|i: int| 0 <= i < start.len() ==> (#[trigger] start[i]).kind != ProductKind::Other,
    ensures
        keys_distinct(gathered(start, scanned), root_key()),
        forall|i: int|
            0 <= i < gathered(start, scanned).len() ==> (#[trigger] gathered(start, scanned)[i]).kind
                != ProductKind::Other,
    decreases scanned.len(),
{
    if scanned.len() > 0 {
        lemma_gathered(start, scanned.drop_last());
        let prev = gathered(start, scanned.drop_last());
        let c = scanned.last();
        lemma_identified(c.root, c.name);
        if !is_reserved_dir(c.name) {
            if let Some(p) = identified(c.root, c.name) {
                if !has_root(prev, p.root) {
                    let r = prev.push(p);
                    assert forall|i: int, j: int|
                        0 <= i < r.len() && 0 <= j < r.len() && i != j implies (root_key())(
                        #[trigger] r[i],
                    ) != (root_key())(#[trigger] r[j]) by {
                        if i < prev.len() && j < prev.len() {
                            assert(r[i] == prev[i] && r[j] == prev[j]);
                        } else if i < prev.len() {
                            assert(r[i] == prev[i]);
                        } else {
                            assert(r[j] == prev[j]);
                        }
                    }
                    assert forall|i: int| 0 <= i < r.len() implies (#[trigger] r[i]).kind
                        != ProductKind::Other by {
                        if i < prev.len() {
                            assert(r[i] == prev[i]);
                        }
                    }
                }
            }
        }
    }
}

/// The products found: a permutation of the gathered ones, newest version first, at distinct
/// installation directories, and all recognised MVTec products.
pub proof fn lemma_found_products(env: Option<DirInfo>, scanned: Seq<DirInfo>)
    ensures
        found_products(env, scanned).to_multiset() == gathered(
            configured_products(env),
            scanned,
        ).to_multiset(),
        is_sorted_desc(found_products(env, scanned), product_below()),
        keys_distinct(found_products(env, scanned), root_key()),
        forall|i: int|
            0 <= i < found_products(env, scanned).len() ==> (#[trigger] found_products(
                env,
                scanned,
            )[i]).kind != ProductKind::Other,
{
    let start = configured_products(env);
    if let Some(c) = env {
        lemma_identified(c.root, c.name);
    }
    let g = gathered(start, scanned);
    lemma_gathered(start, scanned);
    lemma_sorted_by_version(g);
    lemma_stable_sort_keys_distinct(g, product_below(), root_key());
    let f = found_products(env, scanned);
    assert forall|i: int| 0 <= i < f.len() implies (#[trigger] f[i]).kind != ProductKind::Other by {
        lemma_stable_sort_contains(g, product_below(), f[i]);
        assert(f.contains(f[i]));
        let j = choose|j: int| 0 <= j < g.len() && g[j] == f[i];
        assert(g[j].kind != ProductKind::Other);
    }
}

/// A directory listed in `prev` stays listed when a product is appended.
proof fn lemma_has_root_push(prev: Seq<ProductInfo>, p: ProductInfo, root: Seq<char>)
    requires
        has_root(prev, root),
    ensures
        has_root(prev.push(p), root),
{
    let i = choose|i: int| 0 <= i < prev.len() && same_path_spec((#[trigger] prev[i]).root, root);
    assert(prev.push(p)[i] == prev[i]);
}

/// Scanning keeps every product it starts with listed, and lists every scanned directory that is
/// not reserved and holds a recognised product (at its own path or one with the same
/// components); everything it lists was there at the start or comes from such a directory.
proof fn lemma_gathered_covers(start: Seq<ProductInfo>, scanned: Seq<DirInfo>)
    ensures
        forall|i: int| 0 <= i < start.len() ==> has_root(gathered(start, scanned), (#[trigger] start[i]).root),
        forall|k: int|
            0 <= k < scanned.len() && !is_reserved_dir((#[trigger] scanned[k]).name) && identified(
                scanned[k].root,
                scanned[k].name,
            ) is Some ==> has_root(gathered(start, scanned), scanned[k].root),
        forall|m: int|
            0 <= m < gathered(start, scanned).len() ==> start.contains(
                #[trigger] gathered(start, scanned)[m],
            ) || exists|k: int|
                0 <= k < scanned.len() && !is_reserved_dir((#[trigger] scanned[k]).name)
                    && identified(scanned[k].root, scanned[k].name) == Some(
                    gathered(start, scanned)[m],
                ),
    decreases scanned.len(),
{
    if scanned.len() == 0 {
        assert forall|i: int| 0 <= i < start.len() implies has_root(
            gathered(start, scanned),
            (#[trigger] start[i]).root,
        ) by {
            lemma_same_path_equivalence(start[i].root, start[i].root, start[i].root);
        }
        assert forall|m: int| 0 <= m < gathered(start, scanned).len() implies start.contains(
            #[trigger] gathered(start, scanned)[m],
        ) by {}
    } else {
        let t = scanned.drop_last();
        lemma_gathered_covers(start, t);
        let prev = gathered(start, t);
        let g = gathered(start, scanned);
        let c = scanned.last();
        lemma_identified(c.root, c.name);
        assert forall|r: Seq<char>| has_root(prev, r) implies has_root(g, r) by {
            if !is_reserved_dir(c.name) {
                if let Some(p) = identified(c.root, c.name) {
                    if !has_root(prev, p.root) {
                        lemma_has_root_push(prev, p, r);
                    }
                }
            }
        }
        assert forall|i: int| 0 <= i < start.len() implies has_root(g, (#[trigger] start[i]).root) by {
            assert(has_root(prev, start[i].root));
        }
        assert forall|k: int|
            0 <= k < scanned.len() && !is_reserved_dir((#[trigger] scanned[k]).name) && identified(
                scanned[k].root,
                scanned[k].name,
            ) is Some implies has_root(g, scanned[k].root) by {
            if k < t.len() {
                assert(t[k] == scanned[k]);
                assert(has_root(prev, t[k].root));
            } else {
                assert(scanned[k] == c);
                let p = identified(c.root, c.name)->Some_0;
                if !has_root(prev, p.root) {
                    lemma_same_path_equivalence(p.root, p.root, p.root);
                    assert(g[prev.len() as int] == p);
                }
            }
        }
        assert forall|m: int| 0 <= m < g.len() implies start.contains(#[trigger] g[m]) || exists|
            k: int,
        |
            0 <= k < scanned.len() && !is_reserved_dir((#[trigger] scanned[k]).name)
                && identified(scanned[k].root, scanned[k].name) == Some(g[m]) by {
            if m < prev.len() {
                assert(g[m] == prev[m]);
                if !start.contains(prev[m]) {
                    let k = choose|k: int|
                        0 <= k < t.len() && !is_reserved_dir((#[trigger] t[k]).name) && identified(
                            t[k].root,
                            t[k].name,
                        ) == Some(prev[m]);
                    assert(scanned[k] == t[k]);
                }
            } else {
                assert(scanned[scanned.len() - 1] == c);
            }
        }
    }
}

/// `p` is the product recognised at the directory `c`, if there is one.
pub open spec fn recognised_at(c: Option<DirInfo>, p: ProductInfo) -> bool {
    match c {
        Some(d) => identified(d.root, d.name) == Some(p),
        None => false,
    }
}

/// The product list is complete and holds nothing else: every scanned directory that is not
/// reserved and holds a recognised MVTec product is listed (some product is installed at its path,
/// compared by components), so is the configured root when it holds one, and every listed
/// product is the one recognised at the configured root or at such a scanned directory.
pub proof fn lemma_found_products_complete(env: Option<DirInfo>, scanned: Seq<DirInfo>)
    ensures
        forall|k: int|
            0 <= k < scanned.len() && !is_reserved_dir((#[trigger] scanned[k]).name) && identified(
                scanned[k].root,
                scanned[k].name,
            ) is Some ==> has_root(found_products(env, scanned), scanned[k].root),
        env matches Some(c) ==> (identified(c.root, c.name) is Some ==> has_root(
            found_products(env, scanned),
            c.root,
        )),
        forall|m: int|
            0 <= m < found_products(env, scanned).len() ==> recognised_at(
                env,
                #[trigger] found_products(env, scanned)[m],
            ) || exists|k: int|
                0 <= k < scanned.len() && !is_reserved_dir((#[trigger] scanned[k]).name)
                    && identified(scanned[k].root, scanned[k].name) == Some(
                    found_products(env, scanned)[m],
                ),
{
    let start = configured_products(env);
    let g = gathered(start, scanned);
    let f = found_products(env, scanned);
    lemma_gathered_covers(start, scanned);
    assert forall|r: Seq<char>| has_root(g, r) implies has_root(f, r) by {
        let i = choose|i: int| 0 <= i < g.len() && same_path_spec((#[trigger] g[i]).root, r);
        assert(g.contains(g[i]));
        lemma_stable_sort_contains(g, product_below(), g[i]);
        let j = choose|j: int| 0 <= j < f.len() && f[j] == g[i];
        assert(same_path_spec(f[j].root, r));
    }
    assert forall|k: int|
        0 <= k < scanned.len() && !is_reserved_dir((#[trigger] scanned[k]).name) && identified(
            scanned[k].root,
            scanned[k].name,
        ) is Some implies has_root(f, scanned[k].root) by {
        assert(has_root(g, scanned[k].root));
    }
    if let Some(c) = env {
        if let Some(p) = identified(c.root, c.name) {
            lemma_identified(c.root, c.name);
            assert(start[0] == p);
            assert(has_root(g, start[0].root));
        }
    }
    assert forall|m: int| 0 <= m < f.len() implies recognised_at(env, #[trigger] f[m]) || exists|
        k: int,
    |
        0 <= k < scanned.len() && !is_reserved_dir((#[trigger] scanned[k]).name) && identified(
            scanned[k].root,
            scanned[k].name,
        ) == Some(f[m]) by {
        assert(f.contains(f[m]));
        lemma_stable_sort_contains(g, product_below(), f[m]);
        let i = choose|i: int| 0 <= i < g.len() && g[i] == f[m];
        if start.contains(g[i]) {
            let s0 = choose|s0: int| 0 <= s0 < start.len() && start[s0] == g[i];
            assert(start.len() > 0);
        }
    }
}

} // verus!
