//! The order of paths: name by name, from the root down.

use crate::text;
use vstd::prelude::*;
use vstd::string::*;

verus! {

// ---------------------------------------------------------------------------
// The names of a path
// ---------------------------------------------------------------------------

/// Whether a path is one of Windows: it begins with a drive, that is a letter and
/// a colon, with a separator or nothing behind it, or with two backslashes.
pub open spec fn is_windows_path(path: Seq<char>) -> bool {
    ||| path.len() >= 2 && text::is_letter(path[0]) && path[1] == ':' && (path.len() == 2
        || path[2] == '/' || path[2] == '\\')
    ||| path.len() >= 2 && path[0] == '\\' && path[1] == '\\'
}

/// Whether a character separates names; the backslash does in paths of Windows
/// only.
pub open spec fn separates(windows: bool, c: char) -> bool {
    c == '/' || (windows && c == '\\')
}

/// What stands between the separators of a path.
pub open spec fn pieces(windows: bool, path: Seq<char>) -> Seq<Seq<char>>
    decreases path.len(),
{
    if path.len() == 0 {
        seq![seq![]]
    } else {
        let before = pieces(windows, path.drop_last());
        if separates(windows, path.last()) {
            before.push(seq![])
        } else {
            before.update(before.len() - 1, before.last().push(path.last()))
        }
    }
}

/// Whether a piece counts: names do, and so does the dot that a path begins
/// with. An empty first piece, with more behind it, stands for the root. Further
/// dots and empty pieces mean nothing.
pub open spec fn counts(pieces: Seq<Seq<char>>, i: int) -> bool {
    if i == 0 {
        pieces.len() > 1 || pieces[0].len() > 0
    } else {
        pieces[i].len() > 0 && pieces[i] != "."@
    }
}

/// Those of the first `n` pieces that count.
pub open spec fn counted(pieces: Seq<Seq<char>>, n: int) -> Seq<Seq<char>>
    decreases n,
{
    if n <= 0 {
        seq![]
    } else if counts(pieces, n - 1) {
        counted(pieces, n - 1).push(pieces[n - 1])
    } else {
        counted(pieces, n - 1)
    }
}

/// The names of a path from the root down. The root itself is the empty name.
pub open spec fn names(path: Seq<char>) -> Seq<Seq<char>> {
    let all = pieces(is_windows_path(path), path);
    counted(all, all.len() as int)
}

/// The texts that some characters make.
pub open spec fn char_views(v: Seq<Vec<char>>) -> Seq<Seq<char>> {
    Seq::new(v.len(), |i: int| v[i]@)
}

fn pieces_of(windows: bool, path: &Vec<char>) -> (r: Vec<Vec<char>>)
    ensures
        char_views(r@) == pieces(windows, path@),
        r@.len() > 0,
{
    let mut done: Vec<Vec<char>> = Vec::new();
    let mut current: Vec<char> = Vec::new();
    let mut i: usize = 0;
    assert(path@.take(0) == Seq::<char>::empty());
    assert(char_views(done@).push(current@) =~= seq![Seq::<char>::empty()]);
    while i < path.len()
        invariant
            i <= path@.len(),
            char_views(done@).push(current@) == pieces(windows, path@.take(i as int)),
        decreases path@.len() - i,
    {
        assert(path@.take(i + 1).drop_last() == path@.take(i as int));
        assert(path@.take(i + 1).last() == path@[i as int]);
        let ghost before = char_views(done@).push(current@);
        let c = path[i];
        if c == '/' || (windows && c == '\\') {
            done.push(current);
            current = Vec::new();
            assert(char_views(done@) =~= before);
            assert(current@ =~= seq![]);
        } else {
            current.push(c);
            assert(char_views(done@).push(current@) =~= before.update(
                before.len() - 1,
                before.last().push(c),
            ));
        }
        i = i + 1;
    }
    assert(path@.take(path@.len() as int) == path@);
    let ghost views = char_views(done@).push(current@);
    done.push(current);
    assert(char_views(done@) =~= views);
    done
}

/// Reads the names of a path from the root down.
pub fn names_of(path: &str) -> (r: Vec<Vec<char>>)
    ensures
        char_views(r@) == names(path@),
{
    let chars = text::chars_of(path);
    let windows = chars.len() >= 2 && ((text::is_letter_of(chars[0]) && chars[1] == ':' && (
    chars.len() == 2 || chars[2] == '/' || chars[2] == '\\')) || (chars[0] == '\\' && chars[1]
        == '\\'));
    let all = pieces_of(windows, &chars);
    let ghost views = char_views(all@);
    let mut out: Vec<Vec<char>> = Vec::new();
    let mut i: usize = 0;
    assert(char_views(out@) =~= seq![]);
    while i < all.len()
        invariant
            i <= all@.len(),
            views == char_views(all@),
            char_views(out@) == counted(views, i as int),
        decreases all@.len() - i,
    {
        assert(views[i as int] == all@[i as int]@);
        let piece = &all[i];
        let kept = if i == 0 {
            all.len() > 1 || piece.len() > 0
        } else {
            proof {
                reveal_strlit(".");
            }
            if piece.len() == 1 && piece[0] == '.' {
                assert(piece@ =~= "."@);
            }
            piece.len() > 0 && !(piece.len() == 1 && piece[0] == '.')
        };
        if kept {
            let ghost before = out@;
            let name = copy_chars(piece);
            out.push(name);
            assert(char_views(out@) =~= char_views(before).push(name@));
        }
        i = i + 1;
    }
    out
}

fn copy_chars(v: &Vec<char>) -> (r: Vec<char>)
    ensures
        r@ == v@,
{
    let mut out: Vec<char> = Vec::new();
    let mut i: usize = 0;
    while i < v.len()
        invariant
            i <= v@.len(),
            out@ == v@.take(i as int),
        decreases v@.len() - i,
    {
        out.push(v[i]);
        assert(v@.take(i + 1) == v@.take(i as int).push(v@[i as int]));
        i = i + 1;
    }
    assert(v@.take(v@.len() as int) == v@);
    out
}

// ---------------------------------------------------------------------------
// The order
// ---------------------------------------------------------------------------

/// Whether `a` stands before `b` or is equal to it from position `i` on, going
/// by the code points of the characters.
pub open spec fn chars_up(a: Seq<char>, b: Seq<char>, i: int) -> bool
    decreases a.len() - i,
{
    if i >= a.len() {
        true
    } else if i >= b.len() {
        false
    } else if a[i] == b[i] {
        chars_up(a, b, i + 1)
    } else {
        (a[i] as int) < (b[i] as int)
    }
}

/// The root stands before a dot, a dot before two dots, and these before other
/// names.
pub open spec fn rank(name: Seq<char>) -> int {
    if name.len() == 0 {
        0
    } else if name == "."@ {
        1
    } else if name == ".."@ {
        2
    } else {
        3
    }
}

/// Whether the name `a` stands before `b` or is equal to it.
pub open spec fn name_up(a: Seq<char>, b: Seq<char>) -> bool {
    rank(a) < rank(b) || (rank(a) == rank(b) && chars_up(a, b, 0))
}

/// Whether the names `a` stand before `b` or are equal to them from position `i`
/// on.
pub open spec fn names_up(a: Seq<Seq<char>>, b: Seq<Seq<char>>, i: int) -> bool
    decreases a.len() - i,
{
    if i >= a.len() {
        true
    } else if i >= b.len() {
        false
    } else if a[i] == b[i] {
        names_up(a, b, i + 1)
    } else {
        name_up(a[i], b[i])
    }
}

/// Whether the path `a` stands before `b`, or has the same names.
pub open spec fn path_up(a: Seq<char>, b: Seq<char>) -> bool {
    names_up(names(a), names(b), 0)
}

/// Whether paths stand in ascending order.
pub open spec fn is_ascending(paths: Seq<Seq<char>>) -> bool {
    forall|i: int, j: int|
        0 <= i < j < paths.len() ==> path_up(#[trigger] paths[i], #[trigger] paths[j])
}

fn same_chars(a: &Vec<char>, b: &Vec<char>) -> (r: bool)
    ensures
        r == (a@ == b@),
{
    if a.len() != b.len() {
        return false;
    }
    let mut i: usize = 0;
    while i < a.len()
        invariant
            i <= a@.len(),
            a@.len() == b@.len(),
            forall|k: int| 0 <= k < i ==> a@[k] == b@[k],
        decreases a@.len() - i,
    {
        if a[i] != b[i] {
            return false;
        }
        i = i + 1;
    }
    assert(a@ =~= b@);
    true
}

fn are_chars_up(a: &Vec<char>, b: &Vec<char>) -> (r: bool)
    ensures
        r == chars_up(a@, b@, 0),
{
    let mut i: usize = 0;
    while i < a.len()
        invariant
            i <= a@.len(),
            chars_up(a@, b@, 0) == chars_up(a@, b@, i as int),
        decreases a@.len() - i,
    {
        if i >= b.len() {
            return false;
        }
        if a[i] != b[i] {
            return a[i] < b[i];
        }
        i = i + 1;
    }
    true
}

fn rank_of(name: &Vec<char>) -> (r: u8)
    ensures
        r == rank(name@),
{
    proof {
        reveal_strlit(".");
        reveal_strlit("..");
    }
    if name.len() == 0 {
        0
    } else if name.len() == 1 && name[0] == '.' {
        assert(name@ =~= "."@);
        1
    } else if name.len() == 2 && name[0] == '.' && name[1] == '.' {
        assert(name@ =~= ".."@);
        2
    } else {
        3
    }
}

fn are_names_up(a: &Vec<Vec<char>>, b: &Vec<Vec<char>>) -> (r: bool)
    ensures
        r == names_up(char_views(a@), char_views(b@), 0),
{
    let ghost x = char_views(a@);
    let ghost y = char_views(b@);
    let mut i: usize = 0;
    while i < a.len()
        invariant
            i <= a@.len(),
            x == char_views(a@),
            y == char_views(b@),
            names_up(x, y, 0) == names_up(x, y, i as int),
        decreases a@.len() - i,
    {
        if i >= b.len() {
            return false;
        }
        assert(x[i as int] == a@[i as int]@ && y[i as int] == b@[i as int]@);
        if !same_chars(&a[i], &b[i]) {
            let first: u8 = rank_of(&a[i]);
            let second: u8 = rank_of(&b[i]);
            return first < second || (first == second && are_chars_up(&a[i], &b[i]));
        }
        i = i + 1;
    }
    true
}

proof fn lemma_chars_up(a: Seq<char>, b: Seq<char>, c: Seq<char>, i: int)
    requires
        0 <= i,
    ensures
        chars_up(a, b, i) || chars_up(b, a, i),
        chars_up(a, b, i) && chars_up(b, c, i) ==> chars_up(a, c, i),
    decreases a.len() + b.len() - i,
{
    if i < a.len() && i < b.len() {
        lemma_chars_up(a, b, c, i + 1);
    }
}

proof fn lemma_chars_equal(a: Seq<char>, b: Seq<char>, i: int)
    requires
        0 <= i,
        chars_up(a, b, i),
        chars_up(b, a, i),
        forall|k: int| 0 <= k < i && k < a.len() && k < b.len() ==> a[k] == b[k],
        i <= a.len(),
        i <= b.len(),
    ensures
        a == b,
    decreases a.len() - i,
{
    if i < a.len() && i < b.len() {
        lemma_chars_equal(a, b, i + 1);
    } else {
        assert(a =~= b);
    }
}

proof fn lemma_name_up(a: Seq<char>, b: Seq<char>, c: Seq<char>)
    ensures
        name_up(a, b) || name_up(b, a),
        name_up(a, b) && name_up(b, c) ==> name_up(a, c),
        name_up(a, b) && name_up(b, a) ==> a == b,
{
    lemma_chars_up(a, b, c, 0);
    if name_up(a, b) && name_up(b, a) {
        lemma_chars_equal(a, b, 0);
    }
}

proof fn lemma_names_up(a: Seq<Seq<char>>, b: Seq<Seq<char>>, c: Seq<Seq<char>>, i: int)
    requires
        0 <= i,
    ensures
        names_up(a, b, i) || names_up(b, a, i),
        names_up(a, b, i) && names_up(b, c, i) ==> names_up(a, c, i),
    decreases a.len() + b.len() - i,
{
    if i < a.len() && i < b.len() {
        lemma_names_up(a, b, c, i + 1);
        if i < c.len() {
            lemma_name_up(a[i], b[i], c[i]);
            lemma_name_up(b[i], a[i], c[i]);
            lemma_name_up(b[i], c[i], a[i]);
        } else {
            lemma_name_up(a[i], b[i], a[i]);
        }
    }
}

/// Of two paths one stands before the other or has the same names, and of three
/// the first stands before the third where it stands before the second, and the
/// second before the third.
pub proof fn law_paths_are_ordered(a: Seq<char>, b: Seq<char>, c: Seq<char>)
    ensures
        path_up(a, b) || path_up(b, a),
        path_up(a, b) && path_up(b, c) ==> path_up(a, c),
        path_up(a, a),
{
    lemma_names_up(names(a), names(b), names(c), 0);
    lemma_names_up(names(a), names(a), names(a), 0);
}

// ---------------------------------------------------------------------------
// Sorting
// ---------------------------------------------------------------------------

/// A list of paths with one more, behind all that stand before it or have the
/// same names.
pub open spec fn placed(list: Seq<Seq<char>>, path: Seq<char>) -> Seq<Seq<char>>
    decreases list.len(),
{
    if list.len() == 0 || path_up(list.last(), path) {
        list.push(path)
    } else {
        placed(list.drop_last(), path).push(list.last())
    }
}

/// The paths in ascending order. Those with the same names stay in their order.
pub open spec fn sorted(paths: Seq<Seq<char>>) -> Seq<Seq<char>>
    decreases paths.len(),
{
    if paths.len() == 0 {
        paths
    } else {
        placed(sorted(paths.drop_last()), paths.last())
    }
}

proof fn lemma_placed(list: Seq<Seq<char>>, path: Seq<char>)
    requires
        is_ascending(list),
    ensures
        is_ascending(placed(list, path)),
        placed(list, path).to_multiset() == list.to_multiset().insert(path),
        forall|i: int|
            0 <= i < placed(list, path).len() ==> #[trigger] placed(list, path)[i] == path
                || list.contains(placed(list, path)[i]),
    decreases list.len(),
{
    broadcast use vstd::seq_lib::group_to_multiset_ensures;

    let out = placed(list, path);
    if list.len() == 0 || path_up(list.last(), path) {
        assert forall|i: int, j: int| 0 <= i < j < out.len() implies path_up(
            #[trigger] out[i],
            #[trigger] out[j],
        ) by {
            assert(out[i] == list[i]);
            if j < list.len() {
                assert(out[j] == list[j]);
            } else if i < list.len() - 1 {
                assert(path_up(list[i], list[list.len() - 1]));
                law_paths_are_ordered(list[i], list.last(), path);
            }
        }
        assert forall|i: int| 0 <= i < out.len() implies #[trigger] out[i] == path
            || list.contains(out[i]) by {
            if i < list.len() {
                assert(out[i] == list[i]);
            }
        }
    } else {
        let front = list.drop_last();
        let last = list.last();
        assert forall|i: int, j: int| 0 <= i < j < front.len() implies path_up(
            #[trigger] front[i],
            #[trigger] front[j],
        ) by {
            assert(front[i] == list[i] && front[j] == list[j]);
        }
        lemma_placed(front, path);
        law_paths_are_ordered(last, path, path);
        let inner = placed(front, path);
        assert(list =~= front.push(last));
        assert(inner.push(last).to_multiset() == inner.to_multiset().insert(last));
        assert(front.push(last).to_multiset() == front.to_multiset().insert(last));
        assert(front.to_multiset().insert(path).insert(last) =~= front.to_multiset().insert(
            last,
        ).insert(path));
        assert forall|i: int| 0 <= i < inner.len() implies path_up(#[trigger] inner[i], last) && (
        inner[i] == path || list.contains(inner[i])) by {
            if inner[i] != path {
                let k = choose|k: int| 0 <= k < front.len() && front[k] == inner[i];
                assert(list[k] == front[k]);
                assert(path_up(list[k], list[list.len() - 1]));
            }
        }
        assert forall|i: int, j: int| 0 <= i < j < out.len() implies path_up(
            #[trigger] out[i],
            #[trigger] out[j],
        ) by {
            assert(out[i] == inner[i]);
            if j < inner.len() {
                assert(out[j] == inner[j]);
            }
        }
        assert forall|i: int| 0 <= i < out.len() implies #[trigger] out[i] == path
            || list.contains(out[i]) by {
            if i < inner.len() {
                assert(out[i] == inner[i]);
            } else {
                assert(list[list.len() - 1] == out[i]);
            }
        }
    }
}

/// Sorting puts paths in ascending order, and loses, adds and repeats none.
pub proof fn law_sorting_keeps_the_paths(paths: Seq<Seq<char>>)
    ensures
        is_ascending(sorted(paths)),
        sorted(paths).to_multiset() == paths.to_multiset(),
    decreases paths.len(),
{
    broadcast use vstd::seq_lib::group_to_multiset_ensures;

    if paths.len() > 0 {
        let front = paths.drop_last();
        law_sorting_keeps_the_paths(front);
        lemma_placed(sorted(front), paths.last());
        assert(paths =~= front.push(paths.last()));
    }
}

proof fn lemma_placed_at(list: Seq<Seq<char>>, path: Seq<char>, p: int)
    requires
        0 <= p <= list.len(),
        p > 0 ==> path_up(list[p - 1], path),
        forall|i: int| p <= i < list.len() ==> !path_up(#[trigger] list[i], path),
    ensures
        placed(list, path) == list.insert(p, path),
    decreases list.len(),
{
    if p == list.len() {
        assert(list.insert(p, path) == list.push(path));
    } else {
        let front = list.drop_last();
        assert forall|i: int| p <= i < front.len() implies !path_up(#[trigger] front[i], path) by {
            assert(front[i] == list[i]);
        }
        lemma_placed_at(front, path, p);
        assert(list.last() == list[list.len() - 1]);
        assert(list.insert(p, path) == front.insert(p, path).push(list.last()));
    }
}

/// Sorts paths in ascending order.
pub fn sort_paths(paths: Vec<String>) -> (r: Vec<String>)
    ensures
        text::views(r@) == sorted(text::views(paths@)),
        is_ascending(text::views(r@)),
        text::views(r@).to_multiset() == text::views(paths@).to_multiset(),
{
    let ghost all = paths@;
    let ghost views = text::views(all);
    let mut out: Vec<String> = Vec::new();
    let mut keys: Vec<Vec<Vec<char>>> = Vec::new();
    assert(views.take(0) == Seq::<Seq<char>>::empty());
    assert(text::views(out@) =~= seq![]);
    for path in it: paths
        invariant
            it.seq() == all,
            views == text::views(all),
            text::views(out@) == sorted(views.take(it.index())),
            keys@.len() == out@.len(),
            forall|k: int|
                0 <= k < keys@.len() ==> char_views((#[trigger] keys@[k])@) == names(out@[k]@),
    {
        proof {
            assert(views.take(it.index() + 1).drop_last() == views.take(it.index()));
            assert(views.take(it.index() + 1).last() == path@);
        }
        let ghost list = text::views(out@);
        let key = names_of(path.as_str());
        let mut p: usize = out.len();
        while p > 0 && !are_names_up(&keys[p - 1], &key)
            invariant
                p <= out@.len(),
                list == text::views(out@),
                keys@.len() == out@.len(),
                char_views(key@) == names(path@),
                forall|k: int|
                    0 <= k < keys@.len() ==> char_views((#[trigger] keys@[k])@) == names(
                        out@[k]@,
                    ),
                forall|i: int| p <= i < list.len() ==> !path_up(#[trigger] list[i], path@),
            decreases p,
        {
            p = p - 1;
            assert(list[p as int] == out@[p as int]@);
        }
        proof {
            if p > 0 {
                assert(list[p - 1] == out@[p - 1]@);
            }
            lemma_placed_at(list, path@, p as int);
        }
        let ghost keys_before = keys@;
        let ghost text = path@;
        out.insert(p, path);
        keys.insert(p, key);
        assert(text::views(out@) =~= list.insert(p as int, text));
        assert forall|k: int| 0 <= k < keys@.len() implies char_views((#[trigger] keys@[k])@)
            == names(out@[k]@) by {
            if k < p {
                assert(keys@[k] == keys_before[k]);
            } else if k > p {
                assert(keys@[k] == keys_before[k - 1]);
            }
        }
    }
    assert(views.take(views.len() as int) == views);
    proof {
        law_sorting_keeps_the_paths(views);
    }
    out
}

/// Names are in the order of their code points: at the first difference the smaller
/// character comes first, and a name comes before those that it begins.
pub proof fn law_first_difference_decides(a: Seq<char>, b: Seq<char>, i: int)
    requires
        0 <= i <= a.len(),
        i < b.len(),
        a.take(i) == b.take(i),
        i == a.len() || (a[i] as int) < (b[i] as int),
        rank(a) == 3,
        rank(b) == 3,
    ensures
        name_up(a, b),
        !name_up(b, a),
{
    lemma_chars_from(a, b, i, 0);
}

proof fn lemma_chars_from(a: Seq<char>, b: Seq<char>, i: int, k: int)
    requires
        0 <= k <= i <= a.len(),
        i < b.len(),
        a.take(i) == b.take(i),
        i == a.len() || (a[i] as int) < (b[i] as int),
    ensures
        chars_up(a, b, k),
        !chars_up(b, a, k),
    decreases i - k,
{
    if k < i {
        assert(a.take(i)[k] == a[k]);
        assert(b.take(i)[k] == b[k]);
        lemma_chars_from(a, b, i, k + 1);
    }
}

/// Paths are in the order of their names from the root down: a directory comes
/// before what is in it, and at the first name that differs the names decide.
pub proof fn law_first_name_decides(a: Seq<char>, b: Seq<char>, i: int)
    requires
        0 <= i <= names(a).len(),
        i < names(b).len(),
        names(a).take(i) == names(b).take(i),
        i == names(a).len() || (names(a)[i] != names(b)[i] && name_up(names(a)[i], names(b)[i])
            && !name_up(names(b)[i], names(a)[i])),
    ensures
        path_up(a, b),
        !path_up(b, a),
{
    lemma_names_from(names(a), names(b), i, 0);
}

proof fn lemma_names_from(a: Seq<Seq<char>>, b: Seq<Seq<char>>, i: int, k: int)
    requires
        0 <= k <= i <= a.len(),
        i < b.len(),
        a.take(i) == b.take(i),
        i == a.len() || (a[i] != b[i] && name_up(a[i], b[i]) && !name_up(b[i], a[i])),
    ensures
        names_up(a, b, k),
        !names_up(b, a, k),
    decreases i - k,
{
    if k < i {
        assert(a.take(i)[k] == b.take(i)[k]);
        lemma_names_from(a, b, i, k + 1);
    }
}

/// Whether a text is the name of one file: it is not empty, no dot, and holds no
/// separator of any platform.
pub open spec fn is_name(s: Seq<char>) -> bool {
    s.len() > 0 && s != "."@ && !s.contains('/') && !s.contains('\\')
}

proof fn lemma_piece(windows: bool, a: Seq<char>, n: Seq<char>)
    requires
        !n.contains('/'),
        !n.contains('\\'),
    ensures
        pieces(windows, a + seq!['/'] + n) == pieces(windows, a).push(n),
        pieces(windows, a).len() > 0,
        pieces(windows, n) == seq![n],
    decreases n.len(),
{
    lemma_pieces_exist(windows, a);
    let s = a + seq!['/'] + n;
    if n.len() == 0 {
        assert(s.drop_last() =~= a);
        assert(s.last() == '/');
        assert(n =~= Seq::<char>::empty());
        assert(pieces(windows, n) =~= seq![n]);
    } else {
        let front = n.drop_last();
        assert(n.contains(n[n.len() - 1]));
        assert forall|i: int| 0 <= i < front.len() implies front[i] != '/' && front[i] != '\\' by {
            assert(n.contains(n[i]));
        }
        lemma_piece(windows, a, front);
        assert(s.drop_last() =~= a + seq!['/'] + front);
        assert(s.last() == n.last());
        assert(front.push(n.last()) =~= n);
        let before = pieces(windows, a).push(front);
        assert(before.update(before.len() - 1, before.last().push(n.last())) =~= pieces(
            windows,
            a,
        ).push(n));
        let alone = seq![front];
        assert(alone.update(alone.len() - 1, alone.last().push(n.last())) =~= seq![n]);
    }
}

proof fn lemma_pieces_exist(windows: bool, a: Seq<char>)
    ensures
        pieces(windows, a).len() > 0,
        pieces(windows, a).len() == 1 ==> pieces(windows, a)[0] == a,
    decreases a.len(),
{
    if a.len() > 0 {
        lemma_pieces_exist(windows, a.drop_last());
        assert(a.drop_last().push(a.last()) =~= a);
    } else {
        assert(a =~= Seq::<char>::empty());
    }
}

proof fn lemma_counted_more(p: Seq<Seq<char>>, n: Seq<char>, k: int)
    requires
        0 <= k <= p.len(),
        p.len() > 1 || (p.len() == 1 && p[0].len() > 0),
    ensures
        counted(p.push(n), k) == counted(p, k),
    decreases k,
{
    if k > 0 {
        lemma_counted_more(p, n, k - 1);
        assert(p.push(n)[k - 1] == p[k - 1]);
    }
}

/// A file in a directory has the names of the directory and then its own; a dot,
/// or nothing, between two separators is no name.
pub proof fn law_file_is_below_its_directory(dir: Seq<char>, name: Seq<char>)
    requires
        dir.len() > 0,
        is_name(name),
        is_windows_path(dir + seq!['/'] + name) == is_windows_path(dir),
        is_windows_path(dir + seq!['/'] + "."@) == is_windows_path(dir),
        is_windows_path(dir + seq!['/']) == is_windows_path(dir),
    ensures
        names(dir + seq!['/'] + name) == names(dir).push(name),
        names(dir + seq!['/'] + "."@) == names(dir),
        names(dir + seq!['/']) == names(dir),
{
    let w = is_windows_path(dir);
    let p = pieces(w, dir);
    lemma_pieces_exist(w, dir);
    lemma_piece(w, dir, name);
    lemma_counted_more(p, name, p.len() as int);
    assert(p.push(name)[p.len() as int] == name);
    reveal_strlit(".");
    assert(!"."@.contains('/') && !"."@.contains('\\'));
    lemma_piece(w, dir, "."@);
    lemma_counted_more(p, "."@, p.len() as int);
    assert(p.push("."@)[p.len() as int] == "."@);
    let none = Seq::<char>::empty();
    lemma_piece(w, dir, none);
    assert(dir + seq!['/'] + none =~= dir + seq!['/']);
    lemma_counted_more(p, none, p.len() as int);
    assert(p.push(none)[p.len() as int] == none);
}

/// The root comes before a dot, a dot before the directory above, and these before
/// any other name.
pub proof fn law_special_names_come_first(name: Seq<char>)
    requires
        is_name(name),
        name != ".."@,
    ensures
        name_up(seq![], "."@) && !name_up("."@, seq![]),
        name_up("."@, ".."@) && !name_up(".."@, "."@),
        name_up(".."@, name) && !name_up(name, ".."@),
{
    reveal_strlit(".");
    reveal_strlit("..");
    assert("."@.len() == 1 && ".."@.len() == 2);
}

/// A path of Windows begins with a drive or with two backslashes; a path that
/// begins with a slash, or with a name, is none.
pub proof fn law_windows_paths_are_told(path: Seq<char>)
    ensures
        path.len() >= 3 && ('a' <= path[0] <= 'z' || 'A' <= path[0] <= 'Z') && path[1] == ':' && (
        path[2] == '/' || path[2] == '\\') ==> is_windows_path(path),
        path.len() >= 2 && path[0] == '\\' && path[1] == '\\' ==> is_windows_path(path),
        path.len() == 0 || path[0] == '/' || path[0] == '.' || path[0] == '_' ==> !is_windows_path(
            path,
        ),
        path.len() >= 2 && path[1] != ':' && path[1] != '\\' ==> !is_windows_path(path),
        path.len() >= 3 && path[1] == ':' && path[2] != '/' && path[2] != '\\'
            ==> !is_windows_path(path),
{
}

/// In a path of Windows a backslash separates names as a slash does; in any other
/// it is part of a name.
pub proof fn law_backslash_separates_on_windows(a: Seq<char>, n: Seq<char>)
    requires
        !n.contains('/'),
    ensures
        !n.contains('\\') ==> pieces(true, a + seq!['\\'] + n) == pieces(true, a).push(n),
        pieces(false, n) == seq![n],
    decreases n.len(),
{
    lemma_pieces_exist(true, a);
    let s = a + seq!['\\'] + n;
    if n.len() == 0 {
        assert(s.drop_last() =~= a);
        assert(s.last() == '\\');
        assert(n =~= Seq::<char>::empty());
        assert(pieces(false, n) =~= seq![n]);
    } else {
        let front = n.drop_last();
        assert(n.contains(n[n.len() - 1]));
        assert forall|i: int| 0 <= i < front.len() implies front[i] != '/' && (front[i] != '\\'
            || n.contains('\\')) by {
            assert(n.contains(n[i]));
        }
        law_backslash_separates_on_windows(a, front);
        assert(s.drop_last() =~= a + seq!['\\'] + front);
        assert(s.last() == n.last());
        assert(front.push(n.last()) =~= n);
        if !n.contains('\\') {
            let before = pieces(true, a).push(front);
            assert(before.update(before.len() - 1, before.last().push(n.last())) =~= pieces(
                true,
                a,
            ).push(n));
        }
        let alone = seq![front];
        assert(alone.update(alone.len() - 1, alone.last().push(n.last())) =~= seq![n]);
    }
}

} // verus!
