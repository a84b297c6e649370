//! Installing a license file: the steps to take, the backup rotation and the merged bundle.

use vstd::prelude::*;
use vstd::string::StringExecFns;

use crate::text::{decimal_chars, decimal_string};

verus! {

/// How many backups of `license.dat` are kept.
pub const MAX_BACKUPS: u32 = 3;

/// A file of the license directory: the license itself or one of its backups.
#[derive(Debug, Clone, Copy, PartialEq, Eq, Structural)]
pub enum LicenseFile {
    /// `license.dat`.
    Current,
    /// `license.dat.bak` for 0, `license.dat.bak.{k}` for `k` from 1 on.
    Backup(u32),
}

/// The name of a file of the license directory.
pub open spec fn license_file_name(f: LicenseFile) -> Seq<char> {
    match f {
        LicenseFile::Current => "license.dat"@,
        LicenseFile::Backup(k) => if k == 0 {
            "license.dat.bak"@
        } else {
            "license.dat.bak."@ + decimal_chars(k as nat)
        },
    }
}

/// The name of a file of the license directory.
pub fn file_name(f: LicenseFile) -> (r: String)
    ensures
        r@ == license_file_name(f),
{
    match f {
        LicenseFile::Current => "license.dat".to_string(),
        LicenseFile::Backup(k) => {
            if k == 0 {
                "license.dat.bak".to_string()
            } else {
                "license.dat.bak.".to_string().concat(decimal_string(k as u64).as_str())
            }
        },
    }
}

/// The name of the backup in slot `slot`: `license.dat.bak`, `license.dat.bak.1`, ...
pub fn backup_file_name(slot: u32) -> (r: String)
    ensures
        r@ == license_file_name(LicenseFile::Backup(slot)),
{
    file_name(LicenseFile::Backup(slot))
}

/// Moving one file of the license directory onto another.
#[derive(Debug, Clone, Copy, PartialEq, Eq, Structural)]
pub struct Rename {
    pub from: LicenseFile,
    pub to: LicenseFile,
}

/// The moves that shift the backups up, for the loop positions from `i` down to 1: backup
/// `i - 1` moves to backup `i` when it exists.
pub open spec fn backup_shifts(exists: Seq<bool>, i: int) -> Seq<Rename>
    decreases i,
{
    if i < 1 {
        Seq::<Rename>::empty()
    } else {
        let step = if exists[i - 1] {
            seq![Rename { from: LicenseFile::Backup((i - 1) as u32), to: LicenseFile::Backup(i as u32) }]
        } else {
            Seq::<Rename>::empty()
        };
        step + backup_shifts(exists, i - 1)
    }
}

/// The moves that back up `license.dat`, given which backup slots exist: with a first backup
/// present and no `force`, the older backups shift up (the oldest is replaced) before
/// `license.dat` becomes the first backup; otherwise `license.dat` becomes (or replaces) it.
pub open spec fn rotation_plan(exists: Seq<bool>, force: bool) -> Seq<Rename> {
    let last = Rename { from: LicenseFile::Current, to: LicenseFile::Backup(0) };
    if exists[0] && !force {
        backup_shifts(exists, MAX_BACKUPS - 1).push(last)
    } else {
        seq![last]
    }
}

/// Plans the backup of `license.dat` (see `rotation_plan`); `exists[k]` tells whether backup
/// slot `k` exists.
pub fn plan_backup_rotation(exists: &Vec<bool>, force: bool) -> (r: Vec<Rename>)
    requires
        exists.len() == MAX_BACKUPS,
    ensures
        r@ == rotation_plan(exists@, force),
{
    let mut plan: Vec<Rename> = Vec::new();
    if exists[0] && !force {
        let mut i: u32 = MAX_BACKUPS - 1;
        while i >= 1
            invariant
                exists.len() == MAX_BACKUPS,
                i <= MAX_BACKUPS - 1,
                plan@ + backup_shifts(exists@, i as int) == backup_shifts(
                    exists@,
                    MAX_BACKUPS - 1,
                ),
            decreases i,
        {
            let ghost before = plan@;
            let ghost rest = backup_shifts(exists@, i - 1);
            if exists[(i - 1) as usize] {
                plan.push(Rename { from: LicenseFile::Backup(i - 1), to: LicenseFile::Backup(i) });
            }
            assert(plan@ + rest =~= before + backup_shifts(exists@, i as int));
            i = i - 1;
        }
        assert(plan@ + backup_shifts(exists@, 0) =~= plan@);
    }
    plan.push(Rename { from: LicenseFile::Current, to: LicenseFile::Backup(0) });
    plan
}

/// The position of a file in a model of the license directory: `license.dat` at 0, backup
/// `k` at `k + 1`.
pub open spec fn slot_index(f: LicenseFile) -> int {
    match f {
        LicenseFile::Current => 0,
        LicenseFile::Backup(k) => k + 1,
    }
}

/// A model of the license directory after a move: the target takes the source's content and
/// the source is gone.
pub open spec fn apply_rename(state: Seq<Option<int>>, r: Rename) -> Seq<Option<int>> {
    state.update(slot_index(r.to), state[slot_index(r.from)]).update(slot_index(r.from), None)
}

/// The model after the moves in order.
pub open spec fn apply_plan(state: Seq<Option<int>>, plan: Seq<Rename>) -> Seq<Option<int>>
    decreases plan.len(),
{
    if plan.len() == 0 {
        state
    } else {
        apply_plan(apply_rename(state, plan[0]), plan.drop_first())
    }
}

/// The model after `backup_shifts(exists, i)`: backup `k` (at `k + 1`) receives backup `k - 1`
/// when `1 <= k <= i` and that exists, is emptied when it moved up itself, and is otherwise
/// unchanged.
pub open spec fn shifted(state: Seq<Option<int>>, i: int) -> Seq<Option<int>> {
    Seq::new(
        state.len(),
        |t: int|
            if t == 0 {
                state[0]
            } else if 1 <= t - 1 <= i && state[t - 1] is Some {
                state[t - 1]
            } else if t - 1 <= i - 1 && state[t] is Some {
                None
            } else {
                state[t]
            },
    )
}

/// Applying plans in sequence.
proof fn lemma_apply_plan_concat(state: Seq<Option<int>>, p: Seq<Rename>, q: Seq<Rename>)
    ensures
        apply_plan(state, p + q) == apply_plan(apply_plan(state, p), q),
    decreases p.len(),
{
    if p.len() == 0 {
        assert(p + q =~= q);
    } else {
        assert((p + q).drop_first() =~= p.drop_first() + q);
        lemma_apply_plan_concat(apply_rename(state, p[0]), p.drop_first(), q);
    }
}

/// Shifting up to position `i` gives `shifted`.
proof fn lemma_backup_shifts(state: Seq<Option<int>>, exists: Seq<bool>, i: int)
    requires
        state.len() == MAX_BACKUPS + 1,
        exists.len() == MAX_BACKUPS,
        forall|k: int| 0 <= k < MAX_BACKUPS ==> (#[trigger] exists[k] <==> state[k + 1] is Some),
        0 <= i <= MAX_BACKUPS - 1,
    ensures
        apply_plan(state, backup_shifts(exists, i)) == shifted(state, i),
    decreases i, 1int,
{
    if i < 1 {
        assert(shifted(state, i) =~= state);
    } else {
        let step = if exists[i - 1] {
            seq![Rename { from: LicenseFile::Backup((i - 1) as u32), to: LicenseFile::Backup(i as u32) }]
        } else {
            Seq::<Rename>::empty()
        };
        lemma_apply_plan_concat(state, step, backup_shifts(exists, i - 1));
        let s1 = apply_plan(state, step);
        if exists[i - 1] {
            assert(step.drop_first() =~= Seq::<Rename>::empty());
            assert(apply_plan(apply_rename(state, step[0]), Seq::<Rename>::empty()) == apply_rename(
                state,
                step[0],
            ));
            assert(s1 == apply_rename(state, step[0]));
        } else {
            assert(s1 == state);
        }
        // moving backup i-1 up first leaves slots below i to the lower shifts
        lemma_backup_shifts_from(s1, exists, i - 1, state, i);
    }
}

/// The lower shifts, applied after backup `i - 1` moved up, complete `shifted(state, i)`.
proof fn lemma_backup_shifts_from(
    s1: Seq<Option<int>>,
    exists: Seq<bool>,
    j: int,
    state: Seq<Option<int>>,
    i: int,
)
    requires
        state.len() == MAX_BACKUPS + 1,
        exists.len() == MAX_BACKUPS,
        forall|k: int| 0 <= k < MAX_BACKUPS ==> (#[trigger] exists[k] <==> state[k + 1] is Some),
        1 <= i <= MAX_BACKUPS - 1,
        j == i - 1,
        s1 == (if exists[i - 1] {
            apply_rename(
                state,
                Rename { from: LicenseFile::Backup((i - 1) as u32), to: LicenseFile::Backup(i as u32) },
            )
        } else {
            state
        }),
    ensures
        apply_plan(s1, backup_shifts(exists, j)) == shifted(state, i),
    decreases j + 1, 0int,
{
    // the lower shifts only read and write slots up to i, whose existence did not change
    let ex1 = Seq::new(MAX_BACKUPS as nat, |k: int| s1[k + 1] is Some);
    assert(backup_shifts(ex1, j) == backup_shifts(exists, j)) by {
        lemma_backup_shifts_agree(ex1, exists, j);
    }
    lemma_backup_shifts(s1, ex1, j);
    assert(shifted(s1, j) =~= shifted(state, i));
}

/// `backup_shifts` only reads the existence of slots below `i`.
proof fn lemma_backup_shifts_agree(a: Seq<bool>, b: Seq<bool>, i: int)
    requires
        forall|k: int| 0 <= k < i ==> a[k] == b[k],
    ensures
        backup_shifts(a, i) == backup_shifts(b, i),
    decreases i,
{
    if i >= 1 {
        lemma_backup_shifts_agree(a, b, i - 1);
    }
}

/// Backing up `license.dat` moves it to the first backup and leaves no `license.dat`; with a
/// first backup present and no `force`, each backup `k` from 1 on receives backup `k - 1` when
/// that existed (so at most the newest backups are kept and the oldest is replaced); otherwise
/// the later backups are untouched.
pub proof fn lemma_rotation_plan(state: Seq<Option<int>>, exists: Seq<bool>, force: bool)
    requires
        state.len() == MAX_BACKUPS + 1,
        exists.len() == MAX_BACKUPS,
        forall|k: int| 0 <= k < MAX_BACKUPS ==> (#[trigger] exists[k] <==> state[k + 1] is Some),
    ensures
        ({
            let after = apply_plan(state, rotation_plan(exists, force));
            &&& after.len() == state.len()
            &&& after[0] is None
            &&& after[1] == state[0]
            &&& forall|k: int|
                1 <= k < MAX_BACKUPS ==> #[trigger] after[k + 1] == if exists[0] && !force
                    && state[k] is Some {
                    state[k]
                } else {
                    state[k + 1]
                }
        }),
{
    let last = Rename { from: LicenseFile::Current, to: LicenseFile::Backup(0) };
    let single = seq![last];
    assert(single.drop_first() =~= Seq::<Rename>::empty());
    if exists[0] && !force {
        let shifts = backup_shifts(exists, MAX_BACKUPS - 1);
        lemma_backup_shifts(state, exists, MAX_BACKUPS - 1);
        assert(shifts.push(last) =~= shifts + single);
        lemma_apply_plan_concat(state, shifts, single);
        let mid = shifted(state, MAX_BACKUPS - 1);
        assert(apply_plan(mid, single) == apply_plan(apply_rename(mid, last), Seq::<Rename>::empty()));
    } else {
        assert(apply_plan(state, single) == apply_plan(
            apply_rename(state, last),
            Seq::<Rename>::empty(),
        ));
    }
}

/// One step of installing a license file.
#[derive(Debug, Clone, Copy, PartialEq, Eq, Structural)]
pub enum InstallStep {
    /// Create the missing license directory.
    CreateDir,
    /// Report that the license directory would be created (dry run).
    ReportCreateDir,
    /// Back up the existing `license.dat` (see `rotation_plan`).
    BackupExisting,
    /// Write the new `license.dat`.
    WriteLicense,
    /// Report that `license.dat` would be written (dry run).
    ReportWrite,
}

/// The steps of installing a license: create the directory when it is missing, back up an
/// existing `license.dat`, write the new one; a dry run only reports, and backs up nothing.
pub open spec fn install_steps(dir_exists: bool, target_exists: bool, dry_run: bool) -> Seq<InstallStep> {
    let create = if dir_exists {
        Seq::<InstallStep>::empty()
    } else if dry_run {
        seq![InstallStep::ReportCreateDir]
    } else {
        seq![InstallStep::CreateDir]
    };
    let backup = if target_exists && !dry_run {
        seq![InstallStep::BackupExisting]
    } else {
        Seq::<InstallStep>::empty()
    };
    let write = if dry_run {
        seq![InstallStep::ReportWrite]
    } else {
        seq![InstallStep::WriteLicense]
    };
    create + backup + write
}

/// Plans the installation of a license file (see `install_steps`).
pub fn plan_install(dir_exists: bool, target_exists: bool, dry_run: bool) -> (r: Vec<InstallStep>)
    ensures
        r@ == install_steps(dir_exists, target_exists, dry_run),
{
    let mut steps: Vec<InstallStep> = Vec::new();
    if !dir_exists {
        if dry_run {
            steps.push(InstallStep::ReportCreateDir);
        } else {
            steps.push(InstallStep::CreateDir);
        }
    }
    if target_exists && !dry_run {
        steps.push(InstallStep::BackupExisting);
    }
    if dry_run {
        steps.push(InstallStep::ReportWrite);
    } else {
        steps.push(InstallStep::WriteLicense);
    }
    assert(steps@ =~= install_steps(dir_exists, target_exists, dry_run));
    steps
}

/// A step that changes files.
pub open spec fn modifies_files(s: InstallStep) -> bool {
    s == InstallStep::CreateDir || s == InstallStep::BackupExisting || s == InstallStep::WriteLicense
}

/// A dry run changes no file; a real run always writes the license, last.
pub proof fn lemma_install_steps(dir_exists: bool, target_exists: bool, dry_run: bool)
    ensures
        dry_run ==> forall|i: int|
            0 <= i < install_steps(dir_exists, target_exists, dry_run).len() ==> !modifies_files(
                #[trigger] install_steps(dir_exists, target_exists, dry_run)[i],
            ),
        !dry_run ==> install_steps(dir_exists, target_exists, dry_run).last()
            == InstallStep::WriteLicense,
        !dry_run && target_exists ==> install_steps(dir_exists, target_exists, dry_run).contains(
            InstallStep::BackupExisting,
        ),
{
    let s = install_steps(dir_exists, target_exists, dry_run);
    if !dry_run && target_exists {
        if dir_exists {
            assert(s[0] == InstallStep::BackupExisting);
        } else {
            assert(s[1] == InstallStep::BackupExisting);
        }
    }
}

/// The contents of several license files joined into one: each in order, followed by a line
/// feed when it does not already end with one.
pub open spec fn merged(datas: Seq<Seq<u8>>) -> Seq<u8>
    decreases datas.len(),
{
    if datas.len() == 0 {
        Seq::<u8>::empty()
    } else {
        let d = datas.last();
        let tail = if d.len() > 0 && d.last() == 10u8 {
            d
        } else {
            d.push(10u8)
        };
        merged(datas.drop_last()) + tail
    }
}

/// The room a license file takes in a merged bundle: its content, and one byte more for the
/// line feed added when it does not end with one.
pub open spec fn merged_piece_len(d: Seq<u8>) -> int {
    if d.len() > 0 && d.last() == 10u8 {
        d.len() as int
    } else {
        d.len() + 1int
    }
}

/// The room that license files take in a merged bundle together.
pub open spec fn merged_len(datas: Seq<Seq<u8>>) -> int
    decreases datas.len(),
{
    if datas.len() == 0 {
        0
    } else {
        merged_len(datas.drop_last()) + merged_piece_len(datas.last())
    }
}

/// The room that license files take is never negative.
proof fn lemma_merged_len_nonneg(datas: Seq<Seq<u8>>)
    ensures
        merged_len(datas) >= 0,
    decreases datas.len(),
{
    if datas.len() > 0 {
        lemma_merged_len_nonneg(datas.drop_last());
    }
}

/// A merged bundle holds every file, in order and whatever their number: file `i` starts where
/// the files before it end (`merged_len` of them), its bytes come unchanged, a line feed follows
/// it when it does not end with one, and nothing else is in the bundle.
pub proof fn lemma_merged_layout(datas: Seq<Seq<u8>>)
    ensures
        merged(datas).len() == merged_len(datas),
        forall|i: int|
            0 <= i < datas.len() ==> merged_len(datas.take(i)) + merged_piece_len(
                #[trigger] datas[i],
            ) <= merged_len(datas),
        forall|i: int|
            0 <= i < datas.len() ==> merged(datas).subrange(
                merged_len(datas.take(i)),
                merged_len(datas.take(i)) + datas[i].len(),
            ) == #[trigger] datas[i],
        forall|i: int|
            0 <= i < datas.len() && !((#[trigger] datas[i]).len() > 0 && datas[i].last() == 10u8)
                ==> merged(datas)[merged_len(datas.take(i)) + datas[i].len()] == 10u8,
    decreases datas.len(),
{
    if datas.len() > 0 {
        let prev = datas.drop_last();
        lemma_merged_layout(prev);
        let d = datas.last();
        let a = merged(prev);
        let tail = if d.len() > 0 && d.last() == 10u8 {
            d
        } else {
            d.push(10u8)
        };
        let m = merged(datas);
        assert(m == a + tail);
        assert(a.len() == merged_len(prev));
        assert(merged_len(datas) == merged_len(prev) + merged_piece_len(d));
        assert(tail.len() == merged_piece_len(d));
        assert forall|i: int| 0 <= i < datas.len() implies merged_len(datas.take(i))
            + merged_piece_len(#[trigger] datas[i]) <= merged_len(datas) && m.subrange(
            merged_len(datas.take(i)),
            merged_len(datas.take(i)) + datas[i].len(),
        ) == datas[i] && (!(datas[i].len() > 0 && datas[i].last() == 10u8) ==> m[merged_len(
            datas.take(i),
        ) + datas[i].len()] == 10u8) by {
            if i < prev.len() {
                assert(datas.take(i) =~= prev.take(i));
                assert(datas[i] == prev[i]);
                let o = merged_len(prev.take(i));
                lemma_merged_len_nonneg(prev.take(i));
                assert(o + merged_piece_len(prev[i]) <= merged_len(prev));
                assert(a.subrange(o, o + prev[i].len()) == prev[i]);
                assert(m.subrange(o, o + prev[i].len()) =~= a.subrange(o, o + prev[i].len()));
                if !(prev[i].len() > 0 && prev[i].last() == 10u8) {
                    assert(m[o + prev[i].len()] == a[o + prev[i].len()]);
                }
            } else {
                assert(datas.take(i) =~= prev);
                assert(datas[i] == d);
                assert(m.subrange(a.len() as int, (a.len() + d.len()) as int) =~= d);
                if !(d.len() > 0 && d.last() == 10u8) {
                    assert(m[(a.len() + d.len()) as int] == tail[d.len() as int]);
                }
            }
        }
    }
}

/// Merging two lists of files one after the other gives the two merged bundles one after the
/// other.
pub proof fn lemma_merged_concat(a: Seq<Seq<u8>>, b: Seq<Seq<u8>>)
    ensures
        merged(a + b) == merged(a) + merged(b),
    decreases b.len(),
{
    if b.len() == 0 {
        assert(a + b =~= a);
        assert(merged(a) + merged(b) =~= merged(a));
    } else {
        lemma_merged_concat(a, b.drop_last());
        assert((a + b).drop_last() =~= a + b.drop_last());
        assert((a + b).last() == b.last());
        let d = b.last();
        let tail = if d.len() > 0 && d.last() == 10u8 {
            d
        } else {
            d.push(10u8)
        };
        assert(merged(a) + merged(b.drop_last()) + tail =~= merged(a) + (merged(b.drop_last())
            + tail));
    }
}

/// The views of byte vectors.
pub open spec fn byte_views(s: Seq<Vec<u8>>) -> Seq<Seq<u8>> {
    s.map_values(|v: Vec<u8>| v@)
}

/// Appends one license file's content to `out`, followed by a line feed when the content does
/// not end with one.
fn append_license(out: &mut Vec<u8>, d: &Vec<u8>)
    ensures
        final(out)@ == old(out)@ + (if d@.len() > 0 && d@.last() == 10u8 {
            d@
        } else {
            d@.push(10u8)
        }),
{
    let ghost before = out@;
    for j in 0..d.len()
        invariant
            out@ == before + d@.take(j as int),
    {
        out.push(d[j]);
        assert(d@.take(j + 1) =~= d@.take(j as int).push(d@[j as int]));
        assert(before + d@.take(j + 1) =~= (before + d@.take(j as int)).push(d@[j as int]));
    }
    assert(d@.take(d@.len() as int) =~= d@);
    if d.len() == 0 || d[d.len() - 1] != 10u8 {
        out.push(10u8);
        assert(before + d@.push(10u8) =~= (before + d@).push(10u8));
    }
}

/// Joins the contents of several license files into one `license.dat` (see `merged`).
pub fn merge_license_data(datas: &Vec<Vec<u8>>) -> (r: Vec<u8>)
    ensures
        r@ == merged(byte_views(datas@)),
{
    let ghost all = byte_views(datas@);
    let mut out: Vec<u8> = Vec::new();
    assert(all.take(0) =~= Seq::<Seq<u8>>::empty());
    for i in 0..datas.len()
        invariant
            all == byte_views(datas@),
            out@ == merged(all.take(i as int)),
    {
        assert(all.take(i + 1).drop_last() =~= all.take(i as int));
        assert(all.take(i + 1).last() == datas@[i as int]@);
        append_license(&mut out, &datas[i]);
    }
    assert(all.take(all.len() as int) =~= all);
    out
}

/// The views of optional byte vectors.
pub open spec fn download_views(s: Seq<Option<Vec<u8>>>) -> Seq<Option<Seq<u8>>> {
    s.map_values(|o: Option<Vec<u8>>|
        match o {
            Some(v) => Some(v@),
            None => None,
        })
}

/// The contents of downloads that all succeeded.
pub open spec fn downloaded_contents(s: Seq<Option<Seq<u8>>>) -> Seq<Seq<u8>> {
    s.map_values(|o: Option<Seq<u8>>| o.unwrap())
}

/// The license to install for a product from the downloads of its matched files: all of them
/// merged when every download succeeded and there was at least one; nothing otherwise.
pub open spec fn bundle_of(downloads: Seq<Option<Seq<u8>>>) -> Option<Seq<u8>> {
    if downloads.len() > 0 && forall|i: int| 0 <= i < downloads.len() ==> (#[trigger] downloads[i]) is Some {
        Some(merged(downloaded_contents(downloads)))
    } else {
        None
    }
}

/// The license to install from the downloads of a product's matched files (see `bundle_of`).
pub fn bundle_to_install(downloads: &Vec<Option<Vec<u8>>>) -> (r: Option<Vec<u8>>)
    ensures
        match r {
            Some(v) => bundle_of(download_views(downloads@)) == Some(v@),
            None => bundle_of(download_views(downloads@)) is None,
        },
{
    let ghost ds = download_views(downloads@);
    if downloads.len() == 0 {
        return None;
    }
    for i in 0..downloads.len()
        invariant
            ds == download_views(downloads@),
            forall|k: int| 0 <= k < i ==> (#[trigger] ds[k]) is Some,
    {
        match &downloads[i] {
            Some(_) => {},
            None => {
                assert(ds[i as int] is None);
                return None;
            },
        }
    }
    let ghost all = downloaded_contents(ds);
    let mut out: Vec<u8> = Vec::new();
    assert(all.take(0) =~= Seq::<Seq<u8>>::empty());
    for i in 0..downloads.len()
        invariant
            ds == download_views(downloads@),
            all == downloaded_contents(ds),
            forall|k: int| 0 <= k < ds.len() ==> (#[trigger] ds[k]) is Some,
            out@ == merged(all.take(i as int)),
    {
        assert(all.take(i + 1).drop_last() =~= all.take(i as int));
        match &downloads[i] {
            Some(d) => {
                assert(ds[i as int] == Some(d@));
                assert(all.take(i + 1).last() == d@);
                append_license(&mut out, d);
            },
            None => {
                assert(ds[i as int] is None);
            },
        }
    }
    assert(all.take(all.len() as int) =~= all);
    Some(out)
}

} // verus!
