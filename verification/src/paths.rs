//! Equality of installation paths by their components, as Windows paths compare: a drive
//! prefix (a letter and `:`) counts with its letter up to case, `/` and `\` both separate
//! components after it, repeated and trailing separators and `.` components after the first
//! do not count, and a leading separator (a root) does. Network (`\\server\share`) and
//! verbatim (`\\?\`) prefixes are not told apart from ordinary components.

use vstd::prelude::*;

use crate::text::{ascii_fold, char_vec_views, chars_of, occurs_at, seq_contains};
use vstd::string::StrSliceExecFns;

verus! {

/// A path separator.
pub open spec fn is_path_sep(c: char) -> bool {
    c == '/' || c == '\\'
}

/// The pieces of a path between separators, empty pieces included.
pub open spec fn path_pieces(s: Seq<char>) -> Seq<Seq<char>>
    decreases s.len(),
{
    if s.len() == 0 {
        seq![Seq::<char>::empty()]
    } else {
        let p = path_pieces(s.drop_last());
        if is_path_sep(s.last()) {
            p.push(Seq::<char>::empty())
        } else {
            p.update(p.len() - 1, p.last().push(s.last()))
        }
    }
}

/// The single-character piece `.`.
pub open spec fn dot_piece() -> Seq<char> {
    seq!['.']
}

/// A piece that names a component: neither empty nor `.`.
pub open spec fn is_named_piece(x: Seq<char>) -> bool {
    x.len() > 0 && x != dot_piece()
}

/// The pieces that name components, in order.
pub open spec fn named_pieces(pieces: Seq<Seq<char>>) -> Seq<Seq<char>>
    decreases pieces.len(),
{
    if pieces.len() == 0 {
        pieces
    } else {
        let prev = named_pieces(pieces.drop_last());
        if is_named_piece(pieces.last()) {
            prev.push(pieces.last())
        } else {
            prev
        }
    }
}

/// `path` has no `\`, no `:` and does not start with two separators: no platform reads a
/// drive, network or verbatim prefix in it, and every platform separates its components at `/`
/// alone.
pub open spec fn is_portable_path(path: Seq<char>) -> bool {
    &&& !path.contains('\\')
    &&& !path.contains(':')
    &&& !(path.len() >= 2 && path[0] == '/' && path[1] == '/')
}

/// The final component of a path read piece by piece: its last named piece, and none where it
/// has no named piece or where the last one is `..`.
pub open spec fn final_component(path: Seq<char>) -> Option<Seq<char>> {
    let named = named_pieces(path_pieces(path));
    if named.len() == 0 || named.last() == seq!['.', '.'] {
        None
    } else {
        Some(named.last())
    }
}

/// An ASCII letter.
pub open spec fn is_ascii_letter(c: char) -> bool {
    ('a' <= c && c <= 'z') || ('A' <= c && c <= 'Z')
}

/// `s` starts with a drive prefix: an ASCII letter and `:`.
pub open spec fn has_drive(s: Seq<char>) -> bool {
    s.len() >= 2 && is_ascii_letter(s[0]) && s[1] == ':'
}

/// The drive letter of `s` up to ASCII case, if `s` has a drive prefix.
pub open spec fn drive_key(s: Seq<char>) -> Option<int> {
    if has_drive(s) {
        Some(ascii_fold(s[0]))
    } else {
        None
    }
}

/// What follows the drive prefix of `s`; all of `s` without one.
pub open spec fn after_drive(s: Seq<char>) -> Seq<char> {
    if has_drive(s) {
        s.skip(2)
    } else {
        s
    }
}

/// What the components of a path come to: its drive letter up to case, whether what follows
/// the drive starts with a separator (a root), whether it starts with a `.` component, and
/// its named components.
pub open spec fn path_key(s: Seq<char>) -> (Option<int>, bool, bool, Seq<Seq<char>>) {
    let rest = after_drive(s);
    (
        drive_key(s),
        rest.len() > 0 && is_path_sep(rest[0]),
        path_pieces(rest)[0] == dot_piece(),
        named_pieces(path_pieces(rest)),
    )
}

/// Two paths have the same components.
pub open spec fn same_path_spec(a: Seq<char>, b: Seq<char>) -> bool {
    path_key(a) == path_key(b)
}

/// The view of an optional drive key.
pub open spec fn drive_view(d: Option<u32>) -> Option<int> {
    match d {
        Some(x) => Some(x as int),
        None => None,
    }
}

/// What the components of `s` come to (see `path_key`).
fn path_key_of(s: &str) -> (r: (Option<u32>, bool, bool, Vec<Vec<char>>))
    ensures
        (drive_view(r.0), r.1, r.2, char_vec_views(r.3@)) == path_key(s@),
{
    let cs = chars_of(s);
    let drive = cs.len() >= 2 && (('a' <= cs[0] && cs[0] <= 'z') || ('A' <= cs[0] && cs[0]
        <= 'Z')) && cs[1] == ':';
    let k: usize = if drive {
        2
    } else {
        0
    };
    let dkey: Option<u32> = if drive {
        let c = cs[0];
        if 'A' <= c && c <= 'Z' {
            Some(c as u32 + 32)
        } else {
            Some(c as u32)
        }
    } else {
        None
    };
    assert(drive == has_drive(s@));
    assert(cs@.subrange(k as int, cs@.len() as int) =~= after_drive(s@));
    let mut named: Vec<Vec<char>> = Vec::new();
    let mut cur: Vec<char> = Vec::new();
    let mut first_is_dot = false;
    let mut seen_sep = false;
    let ghost mut done: Seq<Seq<char>> = Seq::empty();
    assert(cs@.subrange(k as int, k as int) =~= Seq::<char>::empty());
    assert(done.push(cur@) =~= seq![Seq::<char>::empty()]);
    let mut i: usize = k;
    while i < cs.len()
        invariant
            cs@ == s@,
            k <= i <= cs.len(),
            path_pieces(cs@.subrange(k as int, i as int)) =~= done.push(cur@),
            char_vec_views(named@) == named_pieces(done),
            seen_sep == (done.len() > 0),
            done.len() > 0 ==> first_is_dot == (done[0] == dot_piece()),
        decreases cs.len() - i,
    {
        let c = cs[i];
        assert(cs@.subrange(k as int, i + 1).drop_last() =~= cs@.subrange(k as int, i as int));
        assert(cs@.subrange(k as int, i + 1).last() == c);
        if c == '/' || c == '\\' {
            let keep = cur.len() > 0 && !(cur.len() == 1 && cur[0] == '.');
            assert(keep == is_named_piece(cur@)) by {
                if cur@.len() == 1 && cur@[0] == '.' {
                    assert(cur@ =~= dot_piece());
                }
            }
            if !seen_sep {
                first_is_dot = cur.len() == 1 && cur[0] == '.';
                assert(first_is_dot == (cur@ == dot_piece())) by {
                    if cur@.len() == 1 && cur@[0] == '.' {
                        assert(cur@ =~= dot_piece());
                    }
                }
            }
            let ghost next = done.push(cur@);
            assert(next.drop_last() =~= done);
            let ghost before = char_vec_views(named@);
            if keep {
                let ghost cv = cur@;
                named.push(cur);
                assert(char_vec_views(named@) =~= before.push(cv));
            }
            proof {
                done = next;
            }
            seen_sep = true;
            cur = Vec::new();
        } else {
            let ghost old_cur = cur@;
            cur.push(c);
            assert(done.push(old_cur).update(done.len() as int, cur@) =~= done.push(cur@));
        }
        i += 1;
    }
    let all_pieces_first_dot = if !seen_sep {
        cur.len() == 1 && cur[0] == '.'
    } else {
        first_is_dot
    };
    assert(all_pieces_first_dot == (path_pieces(after_drive(s@))[0] == dot_piece())) by {
        if done.len() == 0 && cur@.len() == 1 && cur@[0] == '.' {
            assert(cur@ =~= dot_piece());
        }
        assert(done.push(cur@)[0] == if done.len() == 0 {
            cur@
        } else {
            done[0]
        });
    }
    let keep = cur.len() > 0 && !(cur.len() == 1 && cur[0] == '.');
    assert(keep == is_named_piece(cur@)) by {
        if cur@.len() == 1 && cur@[0] == '.' {
            assert(cur@ =~= dot_piece());
        }
    }
    let ghost all = done.push(cur@);
    assert(all.drop_last() =~= done);
    let ghost before = char_vec_views(named@);
    if keep {
        let ghost cv = cur@;
        named.push(cur);
        assert(char_vec_views(named@) =~= before.push(cv));
    }
    let rooted = k < cs.len() && (cs[k] == '/' || cs[k] == '\\');
    (dkey, rooted, all_pieces_first_dot, named)
}

/// Whether two character vectors hold the same characters.
fn chars_equal(a: &Vec<char>, b: &Vec<char>) -> (r: bool)
    ensures
        r == (a@ == b@),
{
    if a.len() != b.len() {
        return false;
    }
    let mut i: usize = 0;
    while i < a.len()
        invariant
            a.len() == b.len(),
            i <= a.len(),
            forall|t: int| 0 <= t < i ==> a@[t] == b@[t],
        decreases a.len() - i,
    {
        if a[i] != b[i] {
            return false;
        }
        i += 1;
    }
    assert(a@ =~= b@);
    true
}

/// Whether two paths have the same components (see `path_key`).
pub fn same_path(a: &str, b: &str) -> (r: bool)
    ensures
        r == same_path_spec(a@, b@),
{
    let (ka, ra, da, na) = path_key_of(a);
    let (kb, rb, db, nb) = path_key_of(b);
    let ghost va = char_vec_views(na@);
    let ghost vb = char_vec_views(nb@);
    assert(path_key(a@) == (drive_view(ka), ra, da, va));
    assert(path_key(b@) == (drive_view(kb), rb, db, vb));
    if ka != kb || ra != rb || da != db || na.len() != nb.len() {
        assert(va.len() == na@.len() && vb.len() == nb@.len());
        return false;
    }
    let mut i: usize = 0;
    while i < na.len()
        invariant
            na.len() == nb.len(),
            i <= na.len(),
            va == char_vec_views(na@),
            vb == char_vec_views(nb@),
            forall|t: int| 0 <= t < i ==> va[t] == vb[t],
            path_key(a@) == (drive_view(ka), ra, da, va),
            path_key(b@) == (drive_view(kb), rb, db, vb),
            ka == kb,
        decreases na.len() - i,
    {
        if !chars_equal(&na[i], &nb[i]) {
            assert(va[i as int] != vb[i as int]);
            return false;
        }
        i += 1;
    }
    assert(va =~= vb);
    true
}

/// Path equality is an equivalence: reflexive, symmetric and transitive.
pub proof fn lemma_same_path_equivalence(a: Seq<char>, b: Seq<char>, c: Seq<char>)
    ensures
        same_path_spec(a, a),
        same_path_spec(a, b) == same_path_spec(b, a),
        same_path_spec(a, b) && same_path_spec(b, c) ==> same_path_spec(a, c),
{
}

/// `path` starts with two separators: on Windows a network, device or verbatim prefix.
pub open spec fn starts_with_two_seps(path: Seq<char>) -> bool {
    path.len() >= 2 && is_path_sep(path[0]) && is_path_sep(path[1])
}

/// The final component of `path` as Windows reads a path without a network, device or verbatim
/// prefix: the final component (see `final_component`) of what follows its drive prefix, `/`
/// and `\` both separating components.
pub open spec fn windows_final_component(path: Seq<char>) -> Option<Seq<char>> {
    final_component(after_drive(path))
}

/// Appending a separator and then characters that are no separators opens one new piece that
/// holds those characters.
proof fn lemma_pieces_push_name(q: Seq<char>, sep: char, name: Seq<char>)
    requires
        is_path_sep(sep),
        forall|i: int| 0 <= i < name.len() ==> !is_path_sep(#[trigger] name[i]),
    ensures
        path_pieces(q.push(sep) + name) == path_pieces(q).push(name),
    decreases name.len(),
{
    if name.len() == 0 {
        assert(q.push(sep) + name =~= q.push(sep));
        assert(q.push(sep).drop_last() =~= q);
        assert(name =~= Seq::<char>::empty());
    } else {
        let n0 = name.drop_last();
        lemma_pieces_push_name(q, sep, n0);
        let s = q.push(sep) + name;
        assert(s.drop_last() =~= q.push(sep) + n0);
        assert(s.last() == name.last());
        assert(!is_path_sep(name[name.len() - 1]));
        assert(n0.push(name.last()) =~= name);
        assert(path_pieces(s.drop_last()) == path_pieces(q).push(n0));
        assert(path_pieces(q).push(n0).update(path_pieces(q).len() as int, n0.push(name.last()))
            =~= path_pieces(q).push(name));
    }
}

/// The final component of a path is what follows its last separator when that is a name
/// (neither empty, `.` nor `..`), with or without a drive prefix before it.
pub proof fn lemma_windows_final_component_last(prefix: Seq<char>, sep: char, name: Seq<char>)
    requires
        is_path_sep(sep),
        name.len() > 0,
        name != seq!['.'],
        name != seq!['.', '.'],
        forall|i: int| 0 <= i < name.len() ==> !is_path_sep(#[trigger] name[i]),
    ensures
        windows_final_component(prefix.push(sep) + name) == Some(name),
{
    let root = prefix.push(sep) + name;
    let q = if has_drive(root) {
        prefix.skip(2)
    } else {
        prefix
    };
    if has_drive(root) {
        assert(prefix.len() >= 2) by {
            if prefix.len() == 0 {
                assert(root[0] == sep);
            } else if prefix.len() == 1 {
                assert(root[1] == sep);
            }
        }
        assert(root.skip(2) =~= q.push(sep) + name);
    }
    assert(after_drive(root) == q.push(sep) + name);
    lemma_pieces_push_name(q, sep, name);
    let ps = path_pieces(q).push(name);
    assert(ps.drop_last() =~= path_pieces(q));
    assert(is_named_piece(name));
    assert(named_pieces(ps) == named_pieces(path_pieces(q)).push(name));
}

/// Every piece of a path occurs in it, and the last piece ends it.
proof fn lemma_pieces_occur(s: Seq<char>)
    ensures
        path_pieces(s).len() > 0,
        forall|j: int| 0 <= j < path_pieces(s).len() ==> seq_contains(s, #[trigger] path_pieces(s)[j]),
        path_pieces(s).last().len() <= s.len(),
        s.subrange(s.len() - path_pieces(s).last().len(), s.len() as int) == path_pieces(s).last(),
    decreases s.len(),
{
    if s.len() == 0 {
        assert(s.subrange(0, 0) =~= Seq::<char>::empty());
        assert(occurs_at(s, Seq::<char>::empty(), 0));
    } else {
        let t = s.drop_last();
        lemma_pieces_occur(t);
        let p = path_pieces(t);
        assert forall|j: int| 0 <= j < p.len() && seq_contains(t, p[j]) implies seq_contains(s, p[j]) by {
            let i = choose|i: int| occurs_at(t, p[j], i);
            assert(s.subrange(i, i + p[j].len()) =~= t.subrange(i, i + p[j].len()));
            assert(occurs_at(s, p[j], i));
        }
        if is_path_sep(s.last()) {
            assert(s.subrange(0, 0) =~= Seq::<char>::empty());
            assert(occurs_at(s, Seq::<char>::empty(), 0));
            assert(s.subrange(s.len() as int, s.len() as int) =~= Seq::<char>::empty());
            assert forall|j: int| 0 <= j < path_pieces(s).len() implies seq_contains(
                s,
                #[trigger] path_pieces(s)[j],
            ) by {
                if j < p.len() {
                    assert(path_pieces(s)[j] == p[j]);
                }
            }
        } else {
            let last = p.last().push(s.last());
            let start = s.len() - last.len();
            assert(s.subrange(start, s.len() as int) =~= t.subrange(
                t.len() - p.last().len(),
                t.len() as int,
            ).push(s.last()));
            assert(occurs_at(s, last, start));
            assert forall|j: int| 0 <= j < path_pieces(s).len() implies seq_contains(
                s,
                #[trigger] path_pieces(s)[j],
            ) by {
                if j < p.len() - 1 {
                    assert(path_pieces(s)[j] == p[j]);
                }
            }
        }
    }
}

/// The named pieces are pieces.
proof fn lemma_named_are_pieces(ps: Seq<Seq<char>>)
    ensures
        forall|k: int| 0 <= k < named_pieces(ps).len() ==> is_named_piece(#[trigger] named_pieces(ps)[k]) && ps.contains(named_pieces(ps)[k]),
    decreases ps.len(),
{
    if ps.len() > 0 {
        lemma_named_are_pieces(ps.drop_last());
        let prev = named_pieces(ps.drop_last());
        assert forall|k: int| 0 <= k < named_pieces(ps).len() implies is_named_piece(
            #[trigger] named_pieces(ps)[k],
        ) && ps.contains(named_pieces(ps)[k]) by {
            if k < prev.len() {
                assert(named_pieces(ps)[k] == prev[k]);
                let j = choose|j: int| 0 <= j < ps.drop_last().len() && ps.drop_last()[j] == prev[k];
                assert(ps[j] == prev[k]);
            } else {
                assert(ps[ps.len() - 1] == ps.last());
            }
        }
    }
}

/// The Windows final component of a path is a non-empty piece of it, and on a path that every
/// platform reads alike it is the final component read piece by piece.
pub proof fn lemma_windows_final_component_in_path(path: Seq<char>)
    ensures
        windows_final_component(path) matches Some(n) ==> n.len() > 0 && seq_contains(path, n),
        is_portable_path(path) ==> windows_final_component(path) == final_component(path),
{
    let rest = after_drive(path);
    if is_portable_path(path) && has_drive(path) {
        assert(path.contains(path[1]));
    }
    if let Some(n) = windows_final_component(path) {
        let named = named_pieces(path_pieces(rest));
        lemma_named_are_pieces(path_pieces(rest));
        assert(n == named[named.len() - 1]);
        let j = choose|j: int| 0 <= j < path_pieces(rest).len() && path_pieces(rest)[j] == n;
        lemma_pieces_occur(rest);
        assert(seq_contains(rest, path_pieces(rest)[j]));
        let i = choose|i: int| occurs_at(rest, n, i);
        if has_drive(path) {
            assert(path.subrange(i + 2, i + 2 + n.len()) =~= rest.subrange(i, i + n.len()));
            assert(occurs_at(path, n, i + 2));
        } else {
            assert(occurs_at(path, n, i));
        }
    }
}

/// The final component of `path` as Windows reads it (see `windows_final_component`).
pub fn windows_file_name<'a>(path: &'a str) -> (r: Option<&'a str>)
    ensures
        match r {
            Some(n) => windows_final_component(path@) == Some(n@),
            None => windows_final_component(path@) is None,
        },
{
    let cs = chars_of(path);
    let drive = cs.len() >= 2 && (('a' <= cs[0] && cs[0] <= 'z') || ('A' <= cs[0] && cs[0]
        <= 'Z')) && cs[1] == ':';
    let k: usize = if drive {
        2
    } else {
        0
    };
    assert(drive == has_drive(path@));
    assert(cs@.subrange(k as int, cs@.len() as int) =~= after_drive(path@));
    let mut cur_start: usize = k;
    let mut last_named: Option<(usize, usize)> = None;
    let ghost mut done: Seq<Seq<char>> = Seq::empty();
    assert(cs@.subrange(k as int, k as int) =~= Seq::<char>::empty());
    assert(cs@.subrange(k as int, k as int) =~= cs@.subrange(cur_start as int, k as int));
    let mut i: usize = k;
    while i < cs.len()
        invariant
            cs@ == path@,
            k <= cur_start <= i <= cs.len(),
            path_pieces(cs@.subrange(k as int, i as int)) =~= done.push(
                cs@.subrange(cur_start as int, i as int),
            ),
            match last_named {
                None => named_pieces(done).len() == 0,
                Some((a, b)) => a <= b <= i && named_pieces(done).len() > 0 && named_pieces(
                    done,
                ).last() == cs@.subrange(a as int, b as int),
            },
        decreases cs.len() - i,
    {
        let c = cs[i];
        assert(cs@.subrange(k as int, i + 1).drop_last() =~= cs@.subrange(k as int, i as int));
        assert(cs@.subrange(k as int, i + 1).last() == c);
        let ghost piece = cs@.subrange(cur_start as int, i as int);
        if c == '/' || c == '\\' {
            let len = i - cur_start;
            let keep = len > 0 && !(len == 1 && cs[cur_start] == '.');
            assert(keep == is_named_piece(piece)) by {
                assert(piece.len() == len);
                if len == 1 {
                    assert(piece[0] == cs@[cur_start as int]);
                    assert(dot_piece()[0] == '.');
                    if cs@[cur_start as int] == '.' {
                        assert(piece =~= dot_piece());
                    }
                }
            }
            let ghost next = done.push(piece);
            assert(next.drop_last() =~= done);
            if keep {
                last_named = Some((cur_start, i));
            }
            proof {
                done = next;
            }
            cur_start = i + 1;
            assert(cs@.subrange(cur_start as int, i + 1) =~= Seq::<char>::empty());
        } else {
            assert(cs@.subrange(cur_start as int, i + 1) =~= piece.push(c));
            assert(done.push(piece).update(done.len() as int, piece.push(c)) =~= done.push(
                cs@.subrange(cur_start as int, i + 1),
            ));
        }
        i += 1;
    }
    assert(cs@.subrange(k as int, cs.len() as int) =~= after_drive(path@));
    let ghost piece = cs@.subrange(cur_start as int, cs.len() as int);
    let ghost all = done.push(piece);
    assert(all.drop_last() =~= done);
    let len = cs.len() - cur_start;
    let keep = len > 0 && !(len == 1 && cs[cur_start] == '.');
    assert(keep == is_named_piece(piece)) by {
        assert(piece.len() == len);
        if len == 1 {
            assert(piece[0] == cs@[cur_start as int]);
            assert(dot_piece()[0] == '.');
            if cs@[cur_start as int] == '.' {
                assert(piece =~= dot_piece());
            }
        }
    }
    if keep {
        last_named = Some((cur_start, cs.len()));
    }
    assert(named_pieces(path_pieces(after_drive(path@))) == named_pieces(all));
    match last_named {
        None => None,
        Some((a, b)) => {
            let ghost n = cs@.subrange(a as int, b as int);
            if b - a == 2 && cs[a] == '.' && cs[a + 1] == '.' {
                assert(n =~= seq!['.', '.']);
                None
            } else {
                assert(n != seq!['.', '.']) by {
                    if n == seq!['.', '.'] {
                        assert(n[0] == cs@[a as int] && n[1] == cs@[a + 1]);
                    }
                }
                Some(path.substring_char(a, b))
            }
        },
    }
}

/// Whether `path` starts with two separators (see `starts_with_two_seps`).
pub fn starts_with_two_separators(path: &str) -> (r: bool)
    ensures
        r == starts_with_two_seps(path@),
{
    let cs = chars_of(path);
    cs.len() >= 2 && (cs[0] == '/' || cs[0] == '\\') && (cs[1] == '/' || cs[1] == '\\')
}

} // verus!
