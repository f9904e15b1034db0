//! Which of the files that a directory walk finds are imported.

use crate::order;
use crate::order::sort_paths;
use crate::text;
use vstd::hash_set::StringHashSet;
use vstd::prelude::*;
use vstd::string::*;

verus! {

/// A file that a directory walk found.
#[derive(Debug)]
pub struct FileEntry {
    pub path: String,
    /// The path with links resolved; `path` itself where that fails.
    pub canonical: String,
    /// What follows the last dot of the file name.
    pub extension: Option<String>,
}

/// A directory and the files in it, where it can be read.
#[derive(Debug)]
pub struct DirListing {
    pub path: String,
    pub files: Option<Vec<FileEntry>>,
}

/// Whether the file has the extension.
pub open spec fn has_extension(e: FileEntry, extension: Seq<char>) -> bool {
    match e.extension {
        Some(x) => x@ == extension,
        None => false,
    }
}

/// The canonical paths of the files with the extension.
pub open spec fn canonical_set(entries: Seq<FileEntry>, extension: Seq<char>) -> Set<Seq<char>>
    decreases entries.len(),
{
    if entries.len() == 0 {
        Set::empty()
    } else if has_extension(entries.last(), extension) {
        canonical_set(entries.drop_last(), extension).insert(entries.last().canonical@)
    } else {
        canonical_set(entries.drop_last(), extension)
    }
}

/// The positions of the files with the extension, without those whose canonical
/// path is in `seen` or came before.
pub open spec fn unique_positions(
    entries: Seq<FileEntry>,
    extension: Seq<char>,
    seen: Set<Seq<char>>,
) -> Seq<int>
    decreases entries.len(),
{
    if entries.len() == 0 {
        seq![]
    } else {
        let front = entries.drop_last();
        let before = unique_positions(front, extension, seen);
        let e = entries.last();
        if has_extension(e, extension) && !seen.contains(e.canonical@) && !canonical_set(
            front,
            extension,
        ).contains(e.canonical@) {
            before.push(entries.len() - 1)
        } else {
            before
        }
    }
}

fn has_extension_of(e: &FileEntry, extension: &str) -> (r: bool)
    ensures
        r == has_extension(*e, extension@),
{
    match &e.extension {
        Some(x) => text::same_text(x.as_str(), extension),
        None => false,
    }
}

/// Picks the files with the extension, one for each canonical path, and adds
/// these paths to `seen`.
pub fn pick_unique(entries: &Vec<FileEntry>, extension: &str, seen: &mut StringHashSet) -> (r: Vec<
    usize,
>)
    ensures
        r@.map_values(|i: usize| i as int) == unique_positions(entries@, extension@, old(seen)@),
        final(seen)@ == old(seen)@.union(canonical_set(entries@, extension@)),
        forall|k: int| 0 <= k < r@.len() ==> (#[trigger] r@[k]) < entries@.len(),
{
    let mut out: Vec<usize> = Vec::new();
    let mut i: usize = 0;
    let ghost first = seen@;
    assert(entries@.take(0) == Seq::<FileEntry>::empty());
    assert(out@.map_values(|i: usize| i as int) == Seq::<int>::empty());
    assert(seen@ =~= first.union(Set::empty()));
    while i < entries.len()
        invariant
            first == old(seen)@,
            i <= entries@.len(),
            out@.map_values(|i: usize| i as int) == unique_positions(
                entries@.take(i as int),
                extension@,
                first,
            ),
            seen@ =~= first.union(canonical_set(entries@.take(i as int), extension@)),
            forall|k: int| 0 <= k < out@.len() ==> (#[trigger] out@[k]) < entries@.len(),
        decreases entries@.len() - i,
    {
        assert(entries@.take(i + 1).drop_last() == entries@.take(i as int));
        assert(entries@.take(i + 1).last() == entries@[i as int]);
        let ghost before = out@;
        if has_extension_of(&entries[i], extension) {
            if seen.insert(entries[i].canonical.clone()) {
                out.push(i);
                assert(out@.map_values(|i: usize| i as int) == before.map_values(
                    |i: usize| i as int,
                ).push(i as int));
            }
        }
        i = i + 1;
    }
    assert(entries@.take(entries@.len() as int) == entries@);
    out
}

proof fn lemma_unique_positions(entries: Seq<FileEntry>, extension: Seq<char>, seen: Set<Seq<char>>)
    ensures
        forall|k: int|
            0 <= k < unique_positions(entries, extension, seen).len() ==> {
                let i = #[trigger] unique_positions(entries, extension, seen)[k];
                0 <= i < entries.len() && has_extension(entries[i], extension) && !seen.contains(
                    entries[i].canonical@,
                ) && canonical_set(entries, extension).contains(entries[i].canonical@)
            },
    decreases entries.len(),
{
    if entries.len() > 0 {
        let front = entries.drop_last();
        lemma_unique_positions(front, extension, seen);
        let all = unique_positions(entries, extension, seen);
        let before = unique_positions(front, extension, seen);
        assert forall|k: int| 0 <= k < all.len() implies {
            let i = #[trigger] all[k];
            0 <= i < entries.len() && has_extension(entries[i], extension) && !seen.contains(
                entries[i].canonical@,
            ) && canonical_set(entries, extension).contains(entries[i].canonical@)
        } by {
            if k < before.len() {
                assert(all[k] == before[k]);
                assert(front[before[k]] == entries[before[k]]);
            }
        }
    }
}

/// No two files that are picked have the same canonical path.
pub proof fn law_picked_files_distinct(
    entries: Seq<FileEntry>,
    extension: Seq<char>,
    seen: Set<Seq<char>>,
)
    ensures
        forall|a: int, b: int|
            0 <= a < b < unique_positions(entries, extension, seen).len()
                ==> entries[#[trigger] unique_positions(entries, extension, seen)[a]].canonical@
                != entries[#[trigger] unique_positions(entries, extension, seen)[b]].canonical@,
    decreases entries.len(),
{
    if entries.len() > 0 {
        let front = entries.drop_last();
        law_picked_files_distinct(front, extension, seen);
        lemma_unique_positions(front, extension, seen);
        let all = unique_positions(entries, extension, seen);
        let before = unique_positions(front, extension, seen);
        assert forall|a: int, b: int| 0 <= a < b < all.len() implies entries[#[trigger] all[a]].canonical@
            != entries[#[trigger] all[b]].canonical@ by {
            assert(all[a] == before[a]);
            assert(front[before[a]] == entries[before[a]]);
            if b < before.len() {
                assert(all[b] == before[b]);
                assert(front[before[b]] == entries[before[b]]);
            }
        }
    }
}

/// Every file with the extension is picked, or another file with its canonical
/// path was.
pub proof fn law_every_file_covered(
    entries: Seq<FileEntry>,
    extension: Seq<char>,
    seen: Set<Seq<char>>,
    i: int,
)
    requires
        0 <= i < entries.len(),
        has_extension(entries[i], extension),
        !seen.contains(entries[i].canonical@),
    ensures
        exists|k: int|
            0 <= k < unique_positions(entries, extension, seen).len()
                && entries[#[trigger] unique_positions(entries, extension, seen)[k]].canonical@
                == entries[i].canonical@,
    decreases entries.len(),
{
    let front = entries.drop_last();
    let all = unique_positions(entries, extension, seen);
    let before = unique_positions(front, extension, seen);
    lemma_unique_positions(front, extension, seen);
    if i < entries.len() - 1 {
        assert(front[i] == entries[i]);
        law_every_file_covered(front, extension, seen, i);
        let k = choose|k: int|
            0 <= k < before.len() && front[#[trigger] before[k]].canonical@ == front[i].canonical@;
        assert(all[k] == before[k]);
        assert(front[before[k]] == entries[before[k]]);
    } else if canonical_set(front, extension).contains(entries[i].canonical@) {
        let j = lemma_canonical_witness(front, extension, entries[i].canonical@);
        law_every_file_covered(front, extension, seen, j);
        let k = choose|k: int|
            0 <= k < before.len() && front[#[trigger] before[k]].canonical@ == front[j].canonical@;
        assert(all[k] == before[k]);
        assert(front[before[k]] == entries[before[k]]);
    } else {
        assert(all[all.len() - 1] == i);
    }
}

proof fn lemma_canonical_witness(
    entries: Seq<FileEntry>,
    extension: Seq<char>,
    path: Seq<char>,
) -> (j: int)
    requires
        canonical_set(entries, extension).contains(path),
    ensures
        0 <= j < entries.len(),
        has_extension(entries[j], extension),
        entries[j].canonical@ == path,
    decreases entries.len(),
{
    let last = entries.len() - 1;
    if has_extension(entries.last(), extension) && entries.last().canonical@ == path {
        last
    } else {
        let j = lemma_canonical_witness(entries.drop_last(), extension, path);
        assert(entries.drop_last()[j] == entries[j]);
        j
    }
}

// ---------------------------------------------------------------------------
// Several directories
// ---------------------------------------------------------------------------

/// Pairs of a directory's position with the positions of files in it.
pub open spec fn paired(d: int, positions: Seq<int>) -> Seq<(int, int)> {
    Seq::new(positions.len(), |k: int| (d, positions[k]))
}

/// The files that are picked from a list of directories, as positions of the
/// directory and of the file in it, and the canonical paths known afterwards. A
/// directory that cannot be read has none.
pub open spec fn picked(
    dirs: Seq<DirListing>,
    extension: Seq<char>,
    seen: Set<Seq<char>>,
) -> (Seq<(int, int)>, Set<Seq<char>>)
    decreases dirs.len(),
{
    if dirs.len() == 0 {
        (seq![], seen)
    } else {
        let (before, known) = picked(dirs.drop_last(), extension, seen);
        match dirs.last().files {
            Some(files) => (
                before + paired(dirs.len() - 1, unique_positions(files@, extension, known)),
                known.union(canonical_set(files@, extension)),
            ),
            None => (before, known),
        }
    }
}

/// A list of positions as integers.
pub open spec fn as_positions(v: Seq<(usize, usize)>) -> Seq<(int, int)> {
    Seq::new(v.len(), |k: int| (v[k].0 as int, v[k].1 as int))
}

/// Whether a position is that of a file.
pub open spec fn is_file_at(dirs: Seq<DirListing>, at: (int, int)) -> bool {
    &&& 0 <= at.0 < dirs.len()
    &&& dirs[at.0].files matches Some(files) && 0 <= at.1 < files@.len()
}

/// The file at a position.
pub open spec fn file_at(dirs: Seq<DirListing>, at: (int, int)) -> FileEntry
    recommends
        is_file_at(dirs, at),
{
    dirs[at.0].files->0@[at.1]
}

/// Picks the files with the extension from a list of directories, one for each
/// canonical path, and adds these paths to `seen`.
pub fn pick_unique_files(dirs: &Vec<DirListing>, extension: &str, seen: &mut StringHashSet) -> (r:
    Vec<(usize, usize)>)
    ensures
        as_positions(r@) == picked(dirs@, extension@, old(seen)@).0,
        final(seen)@ == picked(dirs@, extension@, old(seen)@).1,
        forall|k: int|
            0 <= k < r@.len() ==> is_file_at(
                dirs@,
                ((#[trigger] r@[k]).0 as int, r@[k].1 as int),
            ),
{
    let ghost first = seen@;
    let mut out: Vec<(usize, usize)> = Vec::new();
    let mut d: usize = 0;
    assert(dirs@.take(0) == Seq::<DirListing>::empty());
    assert(as_positions(out@) == Seq::<(int, int)>::empty());
    while d < dirs.len()
        invariant
            first == old(seen)@,
            d <= dirs@.len(),
            as_positions(out@) == picked(dirs@.take(d as int), extension@, first).0,
            seen@ == picked(dirs@.take(d as int), extension@, first).1,
            forall|k: int|
                0 <= k < out@.len() ==> is_file_at(
                    dirs@,
                    ((#[trigger] out@[k]).0 as int, out@[k].1 as int),
                ),
        decreases dirs@.len() - d,
    {
        assert(dirs@.take(d + 1).drop_last() == dirs@.take(d as int));
        assert(dirs@.take(d + 1).last() == dirs@[d as int]);
        if let Some(files) = &dirs[d].files {
            let ghost known = seen@;
            let ghost start = out@;
            let chosen = pick_unique(files, extension, seen);
            let ghost positions = unique_positions(files@, extension@, known);
            assert forall|m: int| 0 <= m < chosen@.len() implies chosen@[m] as int
                == positions[m] by {
                assert(chosen@.map_values(|i: usize| i as int)[m] == positions[m]);
            }
            assert(chosen@.len() == positions.len());
            let mut k: usize = 0;
            assert(as_positions(out@) == as_positions(start) + paired(
                d as int,
                positions,
            ).take(0));
            while k < chosen.len()
                invariant
                    d < dirs@.len(),
                    dirs@[d as int].files == Some(*files),
                    k <= chosen@.len(),
                    chosen@.len() == positions.len(),
                    forall|m: int| 0 <= m < chosen@.len() ==> (#[trigger] chosen@[m]) < files@.len(),
                    forall|m: int| 0 <= m < chosen@.len() ==> chosen@[m] as int == positions[m],
                    as_positions(out@) == as_positions(start) + paired(
                        d as int,
                        positions,
                    ).take(k as int),
                    forall|m: int|
                        0 <= m < out@.len() ==> is_file_at(
                            dirs@,
                            ((#[trigger] out@[m]).0 as int, out@[m].1 as int),
                        ),
                decreases chosen@.len() - k,
            {
                let ghost before = out@;
                out.push((d, chosen[k]));
                assert(as_positions(out@) == as_positions(before).push(
                    (d as int, positions[k as int]),
                ));
                assert(paired(d as int, positions).take(k + 1) == paired(d as int, positions).take(
                    k as int,
                ).push((d as int, positions[k as int])));
                k = k + 1;
            }
            assert(paired(d as int, positions).take(positions.len() as int) == paired(
                d as int,
                positions,
            ));
        }
        d = d + 1;
    }
    assert(dirs@.take(dirs@.len() as int) == dirs@);
    out
}

/// The paths of the files that are picked, in the order in which they were found.
pub open spec fn picked_texts(dirs: Seq<DirListing>, extension: Seq<char>) -> Seq<Seq<char>> {
    let positions = picked(dirs, extension, Set::empty()).0;
    Seq::new(positions.len(), |k: int| file_at(dirs, positions[k]).path@)
}

/// The paths of the files that are picked, in ascending order.
pub fn picked_paths(dirs: &Vec<DirListing>, extension: &str) -> (r: Vec<String>)
    ensures
        text::views(r@) == order::sorted(picked_texts(dirs@, extension@)),
        order::is_ascending(text::views(r@)),
        text::views(r@).to_multiset() == picked_texts(dirs@, extension@).to_multiset(),
{
    let mut seen = StringHashSet::new();
    let chosen = pick_unique_files(dirs, extension, &mut seen);
    let ghost positions = picked(dirs@, extension@, Set::empty()).0;
    let mut out: Vec<String> = Vec::new();
    let mut k: usize = 0;
    while k < chosen.len()
        invariant
            as_positions(chosen@) == positions,
            forall|m: int|
                0 <= m < chosen@.len() ==> is_file_at(
                    dirs@,
                    ((#[trigger] chosen@[m]).0 as int, chosen@[m].1 as int),
                ),
            k <= chosen@.len(),
            out@.len() == k,
            forall|m: int|
                0 <= m < k ==> (#[trigger] out@[m])@ == file_at(dirs@, positions[m]).path@,
        decreases chosen@.len() - k,
    {
        let (d, i) = chosen[k];
        assert(is_file_at(dirs@, (chosen@[k as int].0 as int, chosen@[k as int].1 as int)));
        assert(positions[k as int] == (d as int, i as int));
        if let Some(files) = &dirs[d].files {
            out.push(files[i].path.clone());
        }
        k = k + 1;
    }
    assert(text::views(out@) =~= picked_texts(dirs@, extension@));
    sort_paths(out)
}

proof fn lemma_picked_known(dirs: Seq<DirListing>, extension: Seq<char>, seen: Set<Seq<char>>)
    ensures
        forall|k: int|
            0 <= k < picked(dirs, extension, seen).0.len() ==> {
                let at = #[trigger] picked(dirs, extension, seen).0[k];
                is_file_at(dirs, at) && has_extension(file_at(dirs, at), extension) && picked(
                    dirs,
                    extension,
                    seen,
                ).1.contains(file_at(dirs, at).canonical@)
            },
    decreases dirs.len(),
{
    if dirs.len() > 0 {
        let front = dirs.drop_last();
        lemma_picked_known(front, extension, seen);
        let (before, known) = picked(front, extension, seen);
        let (all, after) = picked(dirs, extension, seen);
        if let Some(files) = dirs.last().files {
            lemma_unique_positions(files@, extension, known);
        }
        assert forall|k: int| 0 <= k < all.len() implies {
            let at = #[trigger] all[k];
            is_file_at(dirs, at) && has_extension(file_at(dirs, at), extension) && after.contains(
                file_at(dirs, at).canonical@,
            )
        } by {
            if k < before.len() {
                assert(all[k] == before[k]);
                assert(front[before[k].0] == dirs[before[k].0]);
            } else {
                let positions = unique_positions(dirs.last().files->0@, extension, known);
                assert(all[k] == (dirs.len() - 1, positions[k - before.len()]));
            }
        }
    }
}

/// Files reached by several directories, or through links, are picked once.
pub proof fn law_picked_once(dirs: Seq<DirListing>, extension: Seq<char>, seen: Set<Seq<char>>)
    ensures
        forall|a: int, b: int|
            0 <= a < b < picked(dirs, extension, seen).0.len() ==> file_at(
                dirs,
                #[trigger] picked(dirs, extension, seen).0[a],
            ).canonical@ != file_at(dirs, #[trigger] picked(dirs, extension, seen).0[b]).canonical@,
    decreases dirs.len(),
{
    if dirs.len() > 0 {
        let front = dirs.drop_last();
        law_picked_once(front, extension, seen);
        lemma_picked_known(front, extension, seen);
        let (before, known) = picked(front, extension, seen);
        let all = picked(dirs, extension, seen).0;
        if let Some(files) = dirs.last().files {
            law_picked_files_distinct(files@, extension, known);
            lemma_unique_positions(files@, extension, known);
        }
        assert forall|a: int, b: int| 0 <= a < b < all.len() implies file_at(
            dirs,
            #[trigger] all[a],
        ).canonical@ != file_at(dirs, #[trigger] all[b]).canonical@ by {
            if a < before.len() {
                assert(all[a] == before[a]);
                assert(front[before[a].0] == dirs[before[a].0]);
            }
            if b < before.len() {
                assert(all[b] == before[b]);
                assert(front[before[b].0] == dirs[before[b].0]);
            } else {
                let positions = unique_positions(dirs.last().files->0@, extension, known);
                assert(all[b] == (dirs.len() - 1, positions[b - before.len()]));
                if a >= before.len() {
                    assert(all[a] == (dirs.len() - 1, positions[a - before.len()]));
                }
            }
        }
    }
}

/// Whether a file with the canonical path is picked.
pub open spec fn is_path_picked(
    dirs: Seq<DirListing>,
    extension: Seq<char>,
    seen: Set<Seq<char>>,
    path: Seq<char>,
) -> bool {
    exists|k: int|
        0 <= k < picked(dirs, extension, seen).0.len() && file_at(
            dirs,
            #[trigger] picked(dirs, extension, seen).0[k],
        ).canonical@ == path
}

/// A canonical path that became known is that of a file that is picked.
proof fn lemma_known_is_picked(
    dirs: Seq<DirListing>,
    extension: Seq<char>,
    seen: Set<Seq<char>>,
    path: Seq<char>,
)
    requires
        picked(dirs, extension, seen).1.contains(path),
        !seen.contains(path),
    ensures
        is_path_picked(dirs, extension, seen, path),
    decreases dirs.len(),
{
    let front = dirs.drop_last();
    let (before, known) = picked(front, extension, seen);
    let all = picked(dirs, extension, seen).0;
    if known.contains(path) {
        lemma_known_is_picked(front, extension, seen, path);
        let k = choose|k: int|
            0 <= k < before.len() && file_at(front, #[trigger] before[k]).canonical@ == path;
        lemma_picked_known(front, extension, seen);
        assert(is_file_at(front, before[k]));
        assert(front[before[k].0] == dirs[before[k].0]);
        assert(all[k] == before[k]);
    } else {
        let files = dirs.last().files->0@;
        let positions = unique_positions(files, extension, known);
        let i = lemma_canonical_witness(files, extension, path);
        law_every_file_covered(files, extension, known, i);
        let k = choose|k: int|
            0 <= k < positions.len() && files[#[trigger] positions[k]].canonical@
                == files[i].canonical@;
        assert(all[before.len() + k] == (dirs.len() - 1, positions[k]));
    }
}

/// Every file with the extension, in every directory that can be read, is picked,
/// or another file with its canonical path is.
pub proof fn law_every_listed_file_covered(
    dirs: Seq<DirListing>,
    extension: Seq<char>,
    seen: Set<Seq<char>>,
    at: (int, int),
)
    requires
        is_file_at(dirs, at),
        has_extension(file_at(dirs, at), extension),
        !seen.contains(file_at(dirs, at).canonical@),
    ensures
        is_path_picked(dirs, extension, seen, file_at(dirs, at).canonical@),
{
    lemma_listed_is_known(dirs, extension, seen, at);
    lemma_known_is_picked(dirs, extension, seen, file_at(dirs, at).canonical@);
}

proof fn lemma_listed_is_known(
    dirs: Seq<DirListing>,
    extension: Seq<char>,
    seen: Set<Seq<char>>,
    at: (int, int),
)
    requires
        is_file_at(dirs, at),
        has_extension(file_at(dirs, at), extension),
    ensures
        picked(dirs, extension, seen).1.contains(file_at(dirs, at).canonical@),
    decreases dirs.len(),
{
    let front = dirs.drop_last();
    if at.0 < front.len() {
        assert(front[at.0] == dirs[at.0]);
        lemma_listed_is_known(front, extension, seen, at);
    } else {
        lemma_in_canonical_set(dirs.last().files->0@, extension, at.1);
    }
}

proof fn lemma_in_canonical_set(entries: Seq<FileEntry>, extension: Seq<char>, i: int)
    requires
        0 <= i < entries.len(),
        has_extension(entries[i], extension),
    ensures
        canonical_set(entries, extension).contains(entries[i].canonical@),
    decreases entries.len(),
{
    if i < entries.len() - 1 {
        assert(entries.drop_last()[i] == entries[i]);
        lemma_in_canonical_set(entries.drop_last(), extension, i);
    }
}

/// Of several files with one canonical path the first with the extension is
/// picked.
pub proof fn law_first_of_copies_is_picked(
    entries: Seq<FileEntry>,
    extension: Seq<char>,
    seen: Set<Seq<char>>,
    i: int,
)
    requires
        0 <= i < entries.len(),
        text::opt_view(entries[i].extension) == Some(extension),
        !seen.contains(entries[i].canonical@),
        forall|j: int|
            0 <= j < i && text::opt_view((#[trigger] entries[j]).extension) == Some(extension)
                ==> entries[j].canonical@ != entries[i].canonical@,
    ensures
        unique_positions(entries, extension, seen).contains(i),
    decreases entries.len(),
{
    let front = entries.drop_last();
    let all = unique_positions(entries, extension, seen);
    let before = unique_positions(front, extension, seen);
    if i < front.len() {
        assert(front[i] == entries[i]);
        assert forall|j: int|
            0 <= j < i && text::opt_view((#[trigger] front[j]).extension) == Some(
                extension,
            ) implies front[j].canonical@ != front[i].canonical@ by {
            assert(front[j] == entries[j]);
        }
        law_first_of_copies_is_picked(front, extension, seen, i);
        let k = choose|k: int| 0 <= k < before.len() && before[k] == i;
        assert(all[k] == i);
    } else {
        if canonical_set(front, extension).contains(entries[i].canonical@) {
            let j = lemma_canonical_witness(front, extension, entries[i].canonical@);
            assert(front[j] == entries[j]);
        }
        assert(all[before.len() as int] == i);
    }
}

} // verus!
