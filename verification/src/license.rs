//! Choosing the license files that a product needs from a month's listing.

use vstd::prelude::*;

use vstd::string::StringExecFns;

use crate::detect::{MvtecProduct, ProductKind};
use crate::github::{string_views, GitHubEntry};
use crate::text::{ascii_lowered, is_ascii_text, chars_of, contains_chars, ends_with_str, has_suffix, lowercase_of, seq_contains, to_lowercase};

verus! {

/// The groups of license files that products collect.
#[derive(Debug, Clone, Copy, PartialEq, Eq, Structural)]
pub enum LicenseGroup {
    /// `license_eval_dlt_*`.
    DeepLearningTool,
    /// `*halcon{VER}_steady_*`, without `-dl`.
    ExactSteady,
    /// `*halcon{VER}_steady-dl_*`.
    ExactSteadyDL,
    /// `*halcon{VER}_*` with `_support_`, without `steady`.
    ExactSupport,
    /// `license_support_halcon_progress_*` and `license_eval_halcon_progress_*`.
    ProgressGeneric,
}

/// The entries that a sequence of references points to.
pub open spec fn derefs(s: Seq<&GitHubEntry>) -> Seq<GitHubEntry> {
    s.map_values(|e: &GitHubEntry| *e)
}

/// The key under which files of a product version are named: `halcon` and the version.
pub open spec fn version_key(version: Seq<char>) -> Seq<char> {
    "halcon"@ + version
}

/// A lower-cased file name `l` belongs to the group, for the version key `key`.
pub open spec fn lowered_in_group(l: Seq<char>, group: LicenseGroup, key: Seq<char>) -> bool {
    match group {
        LicenseGroup::DeepLearningTool => seq_contains(l, "eval_dlt"@),
        LicenseGroup::ExactSteady => seq_contains(l, key + "_steady_"@) && !seq_contains(
            l,
            "steady-dl"@,
        ),
        LicenseGroup::ExactSteadyDL => seq_contains(l, key + "_steady-dl_"@),
        LicenseGroup::ExactSupport => seq_contains(l, key + "_"@) && seq_contains(l, "_support_"@)
            && !seq_contains(l, "steady"@),
        LicenseGroup::ProgressGeneric => seq_contains(l, "halcon_progress"@) && (seq_contains(
            l,
            "support_halcon_progress"@,
        ) || seq_contains(l, "eval_halcon_progress"@)),
    }
}

/// The entry belongs to the group, for the version key `key`, judged by its lower-cased name.
pub open spec fn in_group(e: GitHubEntry, group: LicenseGroup, key: Seq<char>) -> bool {
    lowered_in_group(lowercase_of(e.name@), group, key)
}

/// The files of `files` in the group, in order.
pub open spec fn in_group_files(files: Seq<GitHubEntry>, group: LicenseGroup, key: Seq<char>) -> Seq<
    GitHubEntry,
>
    decreases files.len(),
{
    if files.len() == 0 {
        files
    } else {
        let prev = in_group_files(files.drop_last(), group, key);
        if in_group(files.last(), group, key) {
            prev.push(files.last())
        } else {
            prev
        }
    }
}

/// The license files among `entries`: those whose name ends with `.dat`, in order.
pub open spec fn dat_files(entries: Seq<GitHubEntry>) -> Seq<GitHubEntry>
    decreases entries.len(),
{
    if entries.len() == 0 {
        entries
    } else {
        let prev = dat_files(entries.drop_last());
        if has_suffix(entries.last().name@, ".dat"@) {
            prev.push(entries.last())
        } else {
            prev
        }
    }
}

/// The groups that a kind of product collects, in the order they are collected.
pub open spec fn groups_for(kind: ProductKind) -> Seq<LicenseGroup> {
    match kind {
        ProductKind::DeepLearningTool => seq![
            LicenseGroup::DeepLearningTool,
            LicenseGroup::ProgressGeneric,
        ],
        ProductKind::HalconProgress => seq![
            LicenseGroup::ExactSteady,
            LicenseGroup::ExactSteadyDL,
            LicenseGroup::ExactSupport,
            LicenseGroup::ProgressGeneric,
        ],
        ProductKind::HalconSteady => seq![
            LicenseGroup::ExactSteady,
            LicenseGroup::ExactSteadyDL,
            LicenseGroup::ProgressGeneric,
        ],
        ProductKind::HalconSteadyDL => seq![
            LicenseGroup::ExactSteadyDL,
            LicenseGroup::ExactSteady,
            LicenseGroup::ProgressGeneric,
        ],
        ProductKind::HalconOther | ProductKind::Other => seq![
            LicenseGroup::ExactSteady,
            LicenseGroup::ExactSupport,
            LicenseGroup::ProgressGeneric,
        ],
    }
}

/// The files of each group in `groups`, group after group.
pub open spec fn collected(files: Seq<GitHubEntry>, groups: Seq<LicenseGroup>, key: Seq<char>) -> Seq<
    GitHubEntry,
>
    decreases groups.len(),
{
    if groups.len() == 0 {
        Seq::<GitHubEntry>::empty()
    } else {
        collected(files, groups.drop_last(), key) + in_group_files(files, groups.last(), key)
    }
}

/// Some entry of `s` has the name `name`.
pub open spec fn has_name(s: Seq<GitHubEntry>, name: Seq<char>) -> bool {
    exists|i: int| 0 <= i < s.len() && (#[trigger] s[i]).name@ == name
}

/// `s` with every entry dropped whose name an earlier entry already has.
pub open spec fn dedup_by_name(s: Seq<GitHubEntry>) -> Seq<GitHubEntry>
    decreases s.len(),
{
    if s.len() == 0 {
        s
    } else {
        let prev = dedup_by_name(s.drop_last());
        if has_name(prev, s.last().name@) {
            prev
        } else {
            prev.push(s.last())
        }
    }
}

/// The license files picked for a product of version `version` and kind `kind`.
pub open spec fn picked(entries: Seq<GitHubEntry>, version: Seq<char>, kind: ProductKind) -> Seq<
    GitHubEntry,
> {
    dedup_by_name(collected(dat_files(entries), groups_for(kind), version_key(version)))
}

/// Whether the lower-cased file name `lower` belongs to the group for the version key `key`.
pub fn group_matches(lower: &str, group: LicenseGroup, key: &str) -> (r: bool)
    ensures
        r == lowered_in_group(lower@, group, key@),
{
    let l = chars_of(lower);
    match group {
        LicenseGroup::DeepLearningTool => contains_chars(&l, "eval_dlt"),
        LicenseGroup::ExactSteady => {
            let pattern = key.to_string().concat("_steady_");
            contains_chars(&l, pattern.as_str()) && !contains_chars(&l, "steady-dl")
        },
        LicenseGroup::ExactSteadyDL => {
            let pattern = key.to_string().concat("_steady-dl_");
            contains_chars(&l, pattern.as_str())
        },
        LicenseGroup::ExactSupport => {
            let pattern = key.to_string().concat("_");
            contains_chars(&l, pattern.as_str()) && contains_chars(&l, "_support_")
                && !contains_chars(&l, "steady")
        },
        LicenseGroup::ProgressGeneric => contains_chars(&l, "halcon_progress") && (contains_chars(
            &l,
            "support_halcon_progress",
        ) || contains_chars(&l, "eval_halcon_progress")),
    }
}

/// Whether the entry belongs to the group for the version key `key`.
fn entry_in_group(e: &GitHubEntry, group: LicenseGroup, key: &str) -> (r: bool)
    ensures
        r == in_group(*e, group, key@),
{
    let lower = to_lowercase(e.name.as_str());
    group_matches(lower.as_str(), group, key)
}

/// Appends to `out` the files of `files` in the group, in order.
fn collect_group<'a>(
    files: &[&'a GitHubEntry],
    group: LicenseGroup,
    key: &str,
    out: &mut Vec<&'a GitHubEntry>,
)
    ensures
        derefs(final(out)@) == derefs(old(out)@) + in_group_files(derefs(files@), group, key@),
{
    let ghost start = derefs(out@);
    let ghost fs = derefs(files@);
    assert(fs.take(0) =~= Seq::<GitHubEntry>::empty());
    assert(start + Seq::<GitHubEntry>::empty() =~= start);
    for i in 0..files.len()
        invariant
            fs == derefs(files@),
            derefs(out@) == start + in_group_files(fs.take(i as int), group, key@),
    {
        let e = files[i];
        assert(fs.take(i + 1).drop_last() =~= fs.take(i as int));
        assert(fs.take(i + 1).last() == *e);
        let ghost before = derefs(out@);
        if entry_in_group(e, group, key) {
            out.push(e);
            assert(derefs(out@) =~= before.push(*e));
            assert(start + in_group_files(fs.take(i as int), group, key@).push(*e) =~= (start
                + in_group_files(fs.take(i as int), group, key@)).push(*e));
        }
    }
    assert(fs.take(files@.len() as int) =~= fs);
}

/// Collects `license_eval_dlt_*`.
fn collect_dlt<'a>(files: &[&'a GitHubEntry], out: &mut Vec<&'a GitHubEntry>)
    ensures
        derefs(final(out)@) == derefs(old(out)@) + in_group_files(
            derefs(files@),
            LicenseGroup::DeepLearningTool,
            "halcon"@,
        ),
{
    collect_group(files, LicenseGroup::DeepLearningTool, "halcon", out);
}

/// Collects the steady files (without `-dl`) of exactly this version: `*halcon{VER}_steady_*`.
fn collect_exact_steady<'a>(files: &[&'a GitHubEntry], version: &str, out: &mut Vec<&'a GitHubEntry>)
    ensures
        derefs(final(out)@) == derefs(old(out)@) + in_group_files(
            derefs(files@),
            LicenseGroup::ExactSteady,
            version_key(version@),
        ),
{
    let key = halcon_key(version);
    collect_group(files, LicenseGroup::ExactSteady, key.as_str(), out);
}

/// Collects the steady-dl files of exactly this version: `*halcon{VER}_steady-dl_*`.
fn collect_exact_steady_dl<'a>(
    files: &[&'a GitHubEntry],
    version: &str,
    out: &mut Vec<&'a GitHubEntry>,
)
    ensures
        derefs(final(out)@) == derefs(old(out)@) + in_group_files(
            derefs(files@),
            LicenseGroup::ExactSteadyDL,
            version_key(version@),
        ),
{
    let key = halcon_key(version);
    collect_group(files, LicenseGroup::ExactSteadyDL, key.as_str(), out);
}

/// Collects the basic support files of exactly this version: `*halcon{VER}_*` with
/// `_support_`, without `steady`.
fn collect_exact_support<'a>(
    files: &[&'a GitHubEntry],
    version: &str,
    out: &mut Vec<&'a GitHubEntry>,
)
    ensures
        derefs(final(out)@) == derefs(old(out)@) + in_group_files(
            derefs(files@),
            LicenseGroup::ExactSupport,
            version_key(version@),
        ),
{
    let key = halcon_key(version);
    collect_group(files, LicenseGroup::ExactSupport, key.as_str(), out);
}

/// Collects the generic Progress files: `license_support_halcon_progress_*` and
/// `license_eval_halcon_progress_*`.
fn collect_progress_generic<'a>(files: &[&'a GitHubEntry], out: &mut Vec<&'a GitHubEntry>)
    ensures
        derefs(final(out)@) == derefs(old(out)@) + in_group_files(
            derefs(files@),
            LicenseGroup::ProgressGeneric,
            "halcon"@,
        ),
{
    collect_group(files, LicenseGroup::ProgressGeneric, "halcon", out);
}

/// The version key `halcon{VER}`.
fn halcon_key(version: &str) -> (r: String)
    ensures
        r@ == version_key(version@),
{
    let key = "halcon".to_string();
    key.concat(version)
}

/// Groups whose test ignores the version key give the same files for every key.
proof fn lemma_group_key_irrelevant(
    files: Seq<GitHubEntry>,
    group: LicenseGroup,
    k1: Seq<char>,
    k2: Seq<char>,
)
    requires
        group == LicenseGroup::DeepLearningTool || group == LicenseGroup::ProgressGeneric,
    ensures
        in_group_files(files, group, k1) == in_group_files(files, group, k2),
    decreases files.len(),
{
    if files.len() > 0 {
        lemma_group_key_irrelevant(files.drop_last(), group, k1, k2);
    }
}

/// Collecting one more group appends its files.
proof fn lemma_collected_push(
    files: Seq<GitHubEntry>,
    groups: Seq<LicenseGroup>,
    group: LicenseGroup,
    key: Seq<char>,
)
    ensures
        collected(files, groups.push(group), key) == collected(files, groups, key) + in_group_files(
            files,
            group,
            key,
        ),
{
    assert(groups.push(group).drop_last() =~= groups);
}

/// Whether some entry of `kept` has the name `name`.
fn name_taken(kept: &Vec<&GitHubEntry>, name: &String) -> (r: bool)
    ensures
        r == has_name(derefs(kept@), name@),
{
    let mut j: usize = 0;
    while j < kept.len()
        invariant
            j <= kept.len(),
            forall|t: int| 0 <= t < j ==> kept@[t].name@ != name@,
        decreases kept.len() - j,
    {
        if kept[j].name == *name {
            assert(derefs(kept@)[j as int].name@ == name@);
            return true;
        }
        j += 1;
    }
    proof {
        if has_name(derefs(kept@), name@) {
            let t = choose|t: int|
                0 <= t < derefs(kept@).len() && (#[trigger] derefs(kept@)[t]).name@ == name@;
            assert(kept@[t].name@ == name@);
        }
    }
    false
}

/// Drops every entry whose name an earlier entry already has, keeping the order.
pub fn dedup(entries: &mut Vec<&GitHubEntry>)
    ensures
        derefs(final(entries)@) == dedup_by_name(derefs(old(entries)@)),
{
    let ghost all = derefs(entries@);
    let mut kept: Vec<&GitHubEntry> = Vec::new();
    assert(all.take(0) =~= Seq::<GitHubEntry>::empty());
    for i in 0..entries.len()
        invariant
            all == derefs(entries@),
            derefs(kept@) == dedup_by_name(all.take(i as int)),
    {
        let e = entries[i];
        assert(all.take(i + 1).drop_last() =~= all.take(i as int));
        assert(all.take(i + 1).last() == *e);
        if !name_taken(&kept, &e.name) {
            let ghost before = derefs(kept@);
            kept.push(e);
            assert(derefs(kept@) =~= before.push(*e));
        }
    }
    assert(all.take(all.len() as int) =~= all);
    *entries = kept;
}

/// Collects every license file that a product needs: the files of its exact version, then the
/// generic Progress files (which carry the HDevelop license), with repeated names dropped.
pub fn pick_licenses_for_product<'a>(entries: &'a [GitHubEntry], product: &MvtecProduct) -> (r: Vec<
    &'a GitHubEntry,
>)
    ensures
        derefs(r@) == picked(entries@, product.version@, product.kind),
{
    let mut result: Vec<&'a GitHubEntry> = Vec::new();
    let mut dat_files_vec: Vec<&'a GitHubEntry> = Vec::new();
    assert(entries@.take(0) =~= Seq::<GitHubEntry>::empty());
    for i in 0..entries.len()
        invariant
            derefs(dat_files_vec@) == dat_files(entries@.take(i as int)),
    {
        let e = &entries[i];
        assert(entries@.take(i + 1).drop_last() =~= entries@.take(i as int));
        assert(entries@.take(i + 1).last() == *e);
        if ends_with_str(e.name.as_str(), ".dat") {
            let ghost before = derefs(dat_files_vec@);
            dat_files_vec.push(e);
            assert(derefs(dat_files_vec@) =~= before.push(*e));
        }
    }
    assert(entries@.take(entries@.len() as int) =~= entries@);
    let ghost files = dat_files(entries@);
    let ghost key = version_key(product.version@);
    let ghost e0 = Seq::<LicenseGroup>::empty();
    let ghost z = Seq::<GitHubEntry>::empty();
    assert(derefs(result@) =~= z);
    let version = product.version.as_str();
    proof {
        lemma_group_key_irrelevant(files, LicenseGroup::DeepLearningTool, "halcon"@, key);
        lemma_group_key_irrelevant(files, LicenseGroup::ProgressGeneric, "halcon"@, key);
    }
    match product.kind {
        ProductKind::DeepLearningTool => {
            collect_dlt(&dat_files_vec, &mut result);
            collect_progress_generic(&dat_files_vec, &mut result);
            proof {
                let g1 = e0.push(LicenseGroup::DeepLearningTool);
                let g2 = g1.push(LicenseGroup::ProgressGeneric);
                lemma_collected_push(files, e0, LicenseGroup::DeepLearningTool, key);
                lemma_collected_push(files, g1, LicenseGroup::ProgressGeneric, key);
                assert(groups_for(product.kind) =~= g2);
                assert(z + in_group_files(files, LicenseGroup::DeepLearningTool, key) =~= in_group_files(
                    files,
                    LicenseGroup::DeepLearningTool,
                    key,
                ));
            }
        },
        ProductKind::HalconProgress => {
            collect_exact_steady(&dat_files_vec, version, &mut result);
            collect_exact_steady_dl(&dat_files_vec, version, &mut result);
            collect_exact_support(&dat_files_vec, version, &mut result);
            collect_progress_generic(&dat_files_vec, &mut result);
            proof {
                let g1 = e0.push(LicenseGroup::ExactSteady);
                let g2 = g1.push(LicenseGroup::ExactSteadyDL);
                let g3 = g2.push(LicenseGroup::ExactSupport);
                let g4 = g3.push(LicenseGroup::ProgressGeneric);
                lemma_collected_push(files, e0, LicenseGroup::ExactSteady, key);
                lemma_collected_push(files, g1, LicenseGroup::ExactSteadyDL, key);
                lemma_collected_push(files, g2, LicenseGroup::ExactSupport, key);
                lemma_collected_push(files, g3, LicenseGroup::ProgressGeneric, key);
                assert(groups_for(product.kind) =~= g4);
                assert(z + in_group_files(files, LicenseGroup::ExactSteady, key) =~= in_group_files(
                    files,
                    LicenseGroup::ExactSteady,
                    key,
                ));
            }
        },
        ProductKind::HalconSteady => {
            collect_exact_steady(&dat_files_vec, version, &mut result);
            collect_exact_steady_dl(&dat_files_vec, version, &mut result);
            collect_progress_generic(&dat_files_vec, &mut result);
            proof {
                let g1 = e0.push(LicenseGroup::ExactSteady);
                let g2 = g1.push(LicenseGroup::ExactSteadyDL);
                let g3 = g2.push(LicenseGroup::ProgressGeneric);
                lemma_collected_push(files, e0, LicenseGroup::ExactSteady, key);
                lemma_collected_push(files, g1, LicenseGroup::ExactSteadyDL, key);
                lemma_collected_push(files, g2, LicenseGroup::ProgressGeneric, key);
                assert(groups_for(product.kind) =~= g3);
                assert(z + in_group_files(files, LicenseGroup::ExactSteady, key) =~= in_group_files(
                    files,
                    LicenseGroup::ExactSteady,
                    key,
                ));
            }
        },
        ProductKind::HalconSteadyDL => {
            collect_exact_steady_dl(&dat_files_vec, version, &mut result);
            collect_exact_steady(&dat_files_vec, version, &mut result);
            collect_progress_generic(&dat_files_vec, &mut result);
            proof {
                let g1 = e0.push(LicenseGroup::ExactSteadyDL);
                let g2 = g1.push(LicenseGroup::ExactSteady);
                let g3 = g2.push(LicenseGroup::ProgressGeneric);
                lemma_collected_push(files, e0, LicenseGroup::ExactSteadyDL, key);
                lemma_collected_push(files, g1, LicenseGroup::ExactSteady, key);
                lemma_collected_push(files, g2, LicenseGroup::ProgressGeneric, key);
                assert(groups_for(product.kind) =~= g3);
                assert(z + in_group_files(files, LicenseGroup::ExactSteadyDL, key)
                    =~= in_group_files(files, LicenseGroup::ExactSteadyDL, key));
            }
        },
        ProductKind::HalconOther | ProductKind::Other => {
            collect_exact_steady(&dat_files_vec, version, &mut result);
            collect_exact_support(&dat_files_vec, version, &mut result);
            collect_progress_generic(&dat_files_vec, &mut result);
            proof {
                let g1 = e0.push(LicenseGroup::ExactSteady);
                let g2 = g1.push(LicenseGroup::ExactSupport);
                let g3 = g2.push(LicenseGroup::ProgressGeneric);
                lemma_collected_push(files, e0, LicenseGroup::ExactSteady, key);
                lemma_collected_push(files, g1, LicenseGroup::ExactSupport, key);
                lemma_collected_push(files, g2, LicenseGroup::ProgressGeneric, key);
                assert(groups_for(product.kind) =~= g3);
                assert(z + in_group_files(files, LicenseGroup::ExactSteady, key) =~= in_group_files(
                    files,
                    LicenseGroup::ExactSteady,
                    key,
                ));
            }
        },
    }
    dedup(&mut result);
    result
}

/// How a license file named `name`, lower-cased `l`, is described to the user; other files are
/// shown by name.
pub open spec fn description_lowered(name: Seq<char>, l: Seq<char>) -> Seq<char> {
    if seq_contains(l, "eval_dlt"@) {
        "Deep Learning Tool"@
    } else if seq_contains(l, "steady-dl"@) {
        "Steady + DL"@
    } else if seq_contains(l, "_steady_"@) {
        "Steady"@
    } else if seq_contains(l, "eval_halcon_progress"@) {
        "Progress 评估 (含 HDevelop)"@
    } else if seq_contains(l, "support_halcon_progress"@) {
        "Progress 支持"@
    } else if seq_contains(l, "_support_"@) {
        "Support"@
    } else {
        name
    }
}

/// How a license file is described to the user, judged by its lower-cased name.
pub open spec fn description(name: Seq<char>) -> Seq<char> {
    description_lowered(name, lowercase_of(name))
}

/// Describes the license file `name`, whose lower-cased form is `lower`, for the user.
pub fn describe_lowered(name: &str, lower: &str) -> (r: String)
    ensures
        r@ == description_lowered(name@, lower@),
{
    let l = chars_of(lower);
    if contains_chars(&l, "eval_dlt") {
        "Deep Learning Tool".to_string()
    } else if contains_chars(&l, "steady-dl") {
        "Steady + DL".to_string()
    } else if contains_chars(&l, "_steady_") {
        "Steady".to_string()
    } else if contains_chars(&l, "eval_halcon_progress") {
        "Progress 评估 (含 HDevelop)".to_string()
    } else if contains_chars(&l, "support_halcon_progress") {
        "Progress 支持".to_string()
    } else if contains_chars(&l, "_support_") {
        "Support".to_string()
    } else {
        name.to_string()
    }
}

/// Describes one license file for the user.
pub fn describe_single(name: &str) -> (r: String)
    ensures
        r@ == description(name@),
        is_ascii_text(name@) ==> r@ == description_lowered(name@, ascii_lowered(name@)),
{
    let lower = to_lowercase(name);
    describe_lowered(name, lower.as_str())
}

/// Describes each license file of a bundle for the user, in order.
pub fn describe_bundle(entries: &[&GitHubEntry]) -> (r: Vec<String>)
    ensures
        string_views(r@) == derefs(entries@).map_values(|e: GitHubEntry| description(e.name@)),
{
    let ghost target = derefs(entries@).map_values(|e: GitHubEntry| description(e.name@));
    let mut out: Vec<String> = Vec::new();
    for i in 0..entries.len()
        invariant
            target == derefs(entries@).map_values(|e: GitHubEntry| description(e.name@)),
            target.len() == entries@.len(),
            string_views(out@) =~= target.take(i as int),
    {
        let d = describe_single(entries[i].name.as_str());
        let ghost before = string_views(out@);
        out.push(d);
        assert(string_views(out@) =~= before.push(d@));
        assert(target.take(i + 1) =~= target.take(i as int).push(target[i as int]));
    }
    assert(target.take(entries@.len() as int) =~= target);
    out
}

/// The files of a group are the files of `files` that belong to it.
proof fn lemma_in_group_files_contains(
    files: Seq<GitHubEntry>,
    group: LicenseGroup,
    key: Seq<char>,
    e: GitHubEntry,
)
    ensures
        in_group_files(files, group, key).contains(e) <==> files.contains(e) && in_group(e, group, key),
    decreases files.len(),
{
    if files.len() > 0 {
        let pre = files.drop_last();
        let x = files.last();
        lemma_in_group_files_contains(pre, group, key, e);
        let prev = in_group_files(pre, group, key);
        let r = in_group_files(files, group, key);
        if files.contains(e) && in_group(e, group, key) {
            let i = choose|i: int| 0 <= i < files.len() && files[i] == e;
            if i < files.len() - 1 {
                assert(pre[i] == e);
                assert(pre.contains(e));
                assert(prev.contains(e));
                let j = choose|j: int| 0 <= j < prev.len() && prev[j] == e;
                if in_group(x, group, key) {
                    assert(r[j] == e);
                }
                assert(r.contains(e));
            } else {
                assert(r[prev.len() as int] == e);
                assert(r.contains(e));
            }
        }
        if r.contains(e) {
            let i = choose|i: int| 0 <= i < r.len() && r[i] == e;
            if i < prev.len() {
                assert(prev[i] == e);
                assert(prev.contains(e));
                let j = choose|j: int| 0 <= j < pre.len() && pre[j] == e;
                assert(files[j] == e);
                assert(files.contains(e));
            } else {
                assert(files[files.len() - 1] == e);
                assert(files.contains(e));
            }
        }
    } else {
        assert(in_group_files(files, group, key).len() == 0);
    }
}

/// The license files of a listing are its entries whose name ends with `.dat`.
proof fn lemma_dat_files_contains(entries: Seq<GitHubEntry>, e: GitHubEntry)
    ensures
        dat_files(entries).contains(e) <==> entries.contains(e) && has_suffix(e.name@, ".dat"@),
    decreases entries.len(),
{
    if entries.len() > 0 {
        let pre = entries.drop_last();
        let x = entries.last();
        lemma_dat_files_contains(pre, e);
        let prev = dat_files(pre);
        let r = dat_files(entries);
        if entries.contains(e) && has_suffix(e.name@, ".dat"@) {
            let i = choose|i: int| 0 <= i < entries.len() && entries[i] == e;
            if i < entries.len() - 1 {
                assert(pre[i] == e);
                assert(pre.contains(e));
                assert(prev.contains(e));
                let j = choose|j: int| 0 <= j < prev.len() && prev[j] == e;
                if has_suffix(x.name@, ".dat"@) {
                    assert(r[j] == e);
                }
                assert(r.contains(e));
            } else {
                assert(r[prev.len() as int] == e);
                assert(r.contains(e));
            }
        }
        if r.contains(e) {
            let i = choose|i: int| 0 <= i < r.len() && r[i] == e;
            if i < prev.len() {
                assert(prev[i] == e);
                assert(prev.contains(e));
                let j = choose|j: int| 0 <= j < pre.len() && pre[j] == e;
                assert(entries[j] == e);
                assert(entries.contains(e));
            } else {
                assert(entries[entries.len() - 1] == e);
                assert(entries.contains(e));
            }
        }
    } else {
        assert(dat_files(entries).len() == 0);
    }
}

/// The collected files are the files of `files` that belong to one of the groups.
proof fn lemma_collected_contains(
    files: Seq<GitHubEntry>,
    groups: Seq<LicenseGroup>,
    key: Seq<char>,
    e: GitHubEntry,
)
    ensures
        collected(files, groups, key).contains(e) <==> files.contains(e) && exists|g: int|
            0 <= g < groups.len() && in_group(e, #[trigger] groups[g], key),
    decreases groups.len(),
{
    if groups.len() > 0 {
        let pre = groups.drop_last();
        lemma_collected_contains(files, pre, key, e);
        lemma_in_group_files_contains(files, groups.last(), key, e);
        let a = collected(files, pre, key);
        let b = in_group_files(files, groups.last(), key);
        if (a + b).contains(e) {
            let i = choose|i: int| 0 <= i < (a + b).len() && (a + b)[i] == e;
            if i < a.len() {
                assert(a[i] == e);
                let g = choose|g: int| 0 <= g < pre.len() && in_group(e, #[trigger] pre[g], key);
                assert(groups[g] == pre[g]);
            } else {
                assert(b[i - a.len()] == e);
                assert(in_group(e, groups[groups.len() - 1], key));
            }
        }
        if files.contains(e) && exists|g: int|
            0 <= g < groups.len() && in_group(e, #[trigger] groups[g], key) {
            let g = choose|g: int| 0 <= g < groups.len() && in_group(e, #[trigger] groups[g], key);
            if g < groups.len() - 1 {
                assert(pre[g] == groups[g]);
                let i = choose|i: int| 0 <= i < a.len() && a[i] == e;
                assert((a + b)[i] == e);
            } else {
                let i = choose|i: int| 0 <= i < b.len() && b[i] == e;
                assert((a + b)[a.len() + i] == e);
            }
        }
    } else {
        assert(collected(files, groups, key).len() == 0);
    }
}

/// The name of an entry.
pub open spec fn entry_name() -> spec_fn(GitHubEntry) -> Seq<char> {
    |e: GitHubEntry| e.name@
}

/// Dropping repeated names keeps one entry per name, in order: the result holds only entries
/// of `s`, each name of `s` once, and dropping again changes nothing.
pub proof fn lemma_dedup_by_name(s: Seq<GitHubEntry>)
    ensures
        crate::ordering::keys_distinct(dedup_by_name(s), entry_name()),
        forall|e: GitHubEntry| #[trigger] dedup_by_name(s).contains(e) ==> s.contains(e),
        forall|n: Seq<char>| #[trigger] has_name(s, n) <==> has_name(dedup_by_name(s), n),
        dedup_by_name(dedup_by_name(s)) == dedup_by_name(s),
    decreases s.len(),
{
    if s.len() > 0 {
        let pre = s.drop_last();
        let x = s.last();
        lemma_dedup_by_name(pre);
        let prev = dedup_by_name(pre);
        let r = dedup_by_name(s);
        assert forall|e: GitHubEntry| #[trigger] r.contains(e) implies s.contains(e) by {
            let i = choose|i: int| 0 <= i < r.len() && r[i] == e;
            if i < prev.len() {
                assert(prev[i] == e);
                assert(prev.contains(e));
                let j = choose|j: int| 0 <= j < pre.len() && pre[j] == e;
                assert(s[j] == e);
            } else {
                assert(s[s.len() - 1] == e);
            }
        }
        assert forall|n: Seq<char>| #[trigger] has_name(s, n) <==> has_name(r, n) by {
            if has_name(s, n) {
                let i = choose|i: int| 0 <= i < s.len() && (#[trigger] s[i]).name@ == n;
                if i < s.len() - 1 {
                    assert(pre[i] == s[i]);
                    assert(has_name(pre, n));
                    let j = choose|j: int| 0 <= j < prev.len() && (#[trigger] prev[j]).name@ == n;
                    if !has_name(prev, x.name@) {
                        assert(r[j] == prev[j]);
                    }
                } else if !has_name(prev, x.name@) {
                    assert(r[prev.len() as int] == x);
                }
            }
            if has_name(r, n) {
                let i = choose|i: int| 0 <= i < r.len() && (#[trigger] r[i]).name@ == n;
                if i < prev.len() {
                    assert(r[i] == prev[i]);
                    assert(has_name(prev, n));
                    assert(has_name(pre, n));
                    let j = choose|j: int| 0 <= j < pre.len() && (#[trigger] pre[j]).name@ == n;
                    assert(s[j] == pre[j]);
                } else {
                    assert(s[s.len() - 1].name@ == n);
                }
            }
        }
        assert forall|i: int, j: int| 0 <= i < r.len() && 0 <= j < r.len() && i != j implies (
        entry_name())(#[trigger] r[i]) != (entry_name())(#[trigger] r[j]) by {
            if i < prev.len() && j < prev.len() {
                assert(r[i] == prev[i] && r[j] == prev[j]);
            } else if i < prev.len() {
                assert(r[i] == prev[i]);
                assert(r[j] == x);
            } else {
                assert(r[j] == prev[j]);
                assert(r[i] == x);
            }
        }
        lemma_dedup_of_distinct(r);
    } else {
        assert(dedup_by_name(s) =~= s);
    }
}

/// A sequence without repeated names is its own deduplication.
proof fn lemma_dedup_of_distinct(s: Seq<GitHubEntry>)
    requires
        crate::ordering::keys_distinct(s, entry_name()),
    ensures
        dedup_by_name(s) == s,
    decreases s.len(),
{
    if s.len() > 0 {
        let pre = s.drop_last();
        assert(crate::ordering::keys_distinct(pre, entry_name())) by {
            assert forall|i: int, j: int|
                0 <= i < pre.len() && 0 <= j < pre.len() && i != j implies (entry_name())(
                #[trigger] pre[i],
            ) != (entry_name())(#[trigger] pre[j]) by {
                assert(pre[i] == s[i] && pre[j] == s[j]);
            }
        }
        lemma_dedup_of_distinct(pre);
        if has_name(pre, s.last().name@) {
            let i = choose|i: int| 0 <= i < pre.len() && (#[trigger] pre[i]).name@ == s.last().name@;
            assert(s[i] == pre[i]);
            assert((entry_name())(s[i]) != (entry_name())(s[s.len() - 1]));
        }
        assert(pre.push(s.last()) =~= s);
    }
}

/// The picked licenses: no name twice; each is a `.dat` entry of the listing that belongs to a
/// group the product collects; and every `.dat` entry of such a group is picked by its name. In
/// particular every product receives the generic Progress licenses (which carry HDevelop).
pub proof fn lemma_picked(entries: Seq<GitHubEntry>, version: Seq<char>, kind: ProductKind)
    ensures
        crate::ordering::keys_distinct(picked(entries, version, kind), entry_name()),
        forall|e: GitHubEntry| #[trigger]
            picked(entries, version, kind).contains(e) ==> entries.contains(e) && has_suffix(
                e.name@,
                ".dat"@,
            ) && exists|g: int|
                0 <= g < groups_for(kind).len() && in_group(
                    e,
                    #[trigger] groups_for(kind)[g],
                    version_key(version),
                ),
        forall|e: GitHubEntry, g: int|
            entries.contains(e) && has_suffix(e.name@, ".dat"@) && 0 <= g < groups_for(kind).len()
                && #[trigger] in_group(e, groups_for(kind)[g], version_key(version)) ==> has_name(
                picked(entries, version, kind),
                e.name@,
            ),
        groups_for(kind).contains(LicenseGroup::ProgressGeneric),
{
    let key = version_key(version);
    let files = dat_files(entries);
    let gs = groups_for(kind);
    let c = collected(files, gs, key);
    lemma_dedup_by_name(c);
    assert forall|e: GitHubEntry| #[trigger] picked(entries, version, kind).contains(e) implies entries.contains(e)
        && has_suffix(e.name@, ".dat"@) && exists|g: int|
        0 <= g < gs.len() && in_group(e, #[trigger] gs[g], key) by {
        assert(c.contains(e));
        lemma_collected_contains(files, gs, key, e);
        lemma_dat_files_contains(entries, e);
    }
    assert forall|e: GitHubEntry, g: int|
        entries.contains(e) && has_suffix(e.name@, ".dat"@) && 0 <= g < gs.len()
            && #[trigger] in_group(e, gs[g], key) implies has_name(
        picked(entries, version, kind),
        e.name@,
    ) by {
        lemma_dat_files_contains(entries, e);
        lemma_collected_contains(files, gs, key, e);
        assert(c.contains(e));
        let i = choose|i: int| 0 <= i < c.len() && c[i] == e;
        assert(has_name(c, e.name@));
    }
    assert(gs[gs.len() - 1] == LicenseGroup::ProgressGeneric);
}

} // verus!
