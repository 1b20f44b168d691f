//! Terminal-session bookkeeping: replay `cd` and `ls` output, record every
//! file under its absolute path, and charge each file's size to every
//! ancestor directory.
use vstd::prelude::*;

use crate::text::all_digits;
use crate::text::byte_lines;
use crate::text::bytes_to_chars;
use crate::text::digits_val;
use crate::text::find_char;
use crate::text::first_idx;
use crate::text::lemma_first_idx_char;
use crate::text::lemma_first_idx_props;
use crate::text::parse_digits;
use crate::text::push_char;
use crate::text::split_lines_vec;

verus! {

/// One parsed line of the terminal session.
#[derive(Clone, Debug)]
pub enum Line {
    Cd(String),
    Ls,
    LsFile(u32, String),
    LsDir(String),
}

/// An absolute path: the directory names from the root down.
pub type Path = Seq<Seq<char>>;

/// An association list from paths to sizes; the first entry with a key wins.
pub type SizeMap = Seq<(Path, int)>;

/// The index of the first entry holding key `k`, or `m.len()` if none does.
pub open spec fn key_idx(m: SizeMap, k: Path) -> int
    decreases m.len(),
{
    if m.len() == 0 {
        0
    } else if m[0].0 == k {
        0
    } else {
        1 + key_idx(m.drop_first(), k)
    }
}

/// The size recorded under key `k`, or 0 if none is.
pub open spec fn val_at(m: SizeMap, k: Path) -> int {
    if key_idx(m, k) < m.len() {
        m[key_idx(m, k)].1
    } else {
        0
    }
}

/// Record exactly `v` under key `k`, replacing any earlier record.
pub open spec fn store(m: SizeMap, k: Path, v: int) -> SizeMap {
    if key_idx(m, k) < m.len() {
        m.update(key_idx(m, k), (k, v))
    } else {
        m.push((k, v))
    }
}

/// Add `v` to whatever is recorded under key `k`.
pub open spec fn bump(m: SizeMap, k: Path, v: int) -> SizeMap {
    store(m, k, val_at(m, k) + v)
}

/// The working directory after one `cd`: `/` returns to the root, `..` steps
/// up one level (staying at the root if already there), any other name steps
/// down into it.
pub open spec fn cd_step(cwd: Path, d: Seq<char>) -> Path {
    if d == seq!['/'] {
        Seq::empty()
    } else if d == seq!['.', '.'] {
        if cwd.len() > 0 {
            cwd.drop_last()
        } else {
            cwd
        }
    } else {
        cwd.push(d)
    }
}

/// The file records after replaying the session from line `i` in directory
/// `cwd`, extending the records `files`: each listed file is stored, with
/// size, under its absolute path.
pub open spec fn files_after(lines: Seq<Line>, i: int, cwd: Path, files: SizeMap) -> SizeMap
    decreases lines.len() - i,
{
    if i < 0 || i >= lines.len() {
        files
    } else {
        match lines[i] {
            Line::Cd(d) => files_after(lines, i + 1, cd_step(cwd, d@), files),
            Line::LsFile(size, name) => files_after(
                lines,
                i + 1,
                cwd,
                store(files, cwd.push(name@), size as int),
            ),
            _ => files_after(lines, i + 1, cwd, files),
        }
    }
}

/// Charge one file's size to its first `i` ancestors: the strict prefixes of
/// its path, the root included.
pub open spec fn charge_ancestors(dirs: SizeMap, path: Path, size: int, i: int) -> SizeMap
    decreases path.len() - i,
{
    if i < 0 || i >= path.len() {
        dirs
    } else {
        charge_ancestors(bump(dirs, path.take(i), size), path, size, i + 1)
    }
}

/// The directory sizes after charging the first `j` file records.
pub open spec fn dirs_of(files: SizeMap, j: int) -> SizeMap
    decreases j,
{
    if j <= 0 {
        Seq::empty()
    } else {
        charge_ancestors(dirs_of(files, j - 1), files[j - 1].0, files[j - 1].1, 0)
    }
}

/// The directory size list a terminal session denotes.
pub open spec fn dir_sizes_of(lines: Seq<Line>) -> SizeMap {
    let files = files_after(lines, 0, Seq::empty(), Seq::empty());
    dirs_of(files, files.len() as int)
}

/// Every file size is non-negative.
pub open spec fn sizes_nonneg(m: SizeMap) -> bool {
    forall|i: int| 0 <= i < m.len() ==> (#[trigger] m[i]).1 >= 0
}

proof fn lemma_key_idx_props(m: SizeMap, k: Path)
    ensures
        0 <= key_idx(m, k) <= m.len(),
        forall|i: int| 0 <= i < key_idx(m, k) ==> (#[trigger] m[i]).0 != k,
        key_idx(m, k) < m.len() ==> m[key_idx(m, k)].0 == k,
    decreases m.len(),
{
    if m.len() > 0 && m[0].0 != k {
        lemma_key_idx_props(m.drop_first(), k);
        assert forall|i: int| 0 <= i < key_idx(m, k) implies (#[trigger] m[i]).0 != k by {
            if i >= 1 {
                assert(m.drop_first()[i - 1] == m[i]);
            }
        }
        if key_idx(m, k) < m.len() {
            assert(m.drop_first()[key_idx(m.drop_first(), k)] == m[key_idx(m, k)]);
        }
    }
}

proof fn lemma_key_idx_char(m: SizeMap, k: Path, i: int)
    requires
        0 <= i <= m.len(),
        forall|j: int| 0 <= j < i ==> (#[trigger] m[j]).0 != k,
        i < m.len() ==> m[i].0 == k,
    ensures
        key_idx(m, k) == i,
    decreases m.len(),
{
    if m.len() > 0 && m[0].0 != k {
        assert(forall|j: int| 0 <= j < i - 1 ==> m.drop_first()[j] == m[j + 1]);
        lemma_key_idx_char(m.drop_first(), k, i - 1);
    }
}

/// Bumping one key leaves every other key's value alone and grows that
/// key's value by `v`; it keeps all sizes non-negative when `v` is.
proof fn lemma_bump_vals(m: SizeMap, k: Path, v: int)
    requires
        sizes_nonneg(m),
        v >= 0,
    ensures
        sizes_nonneg(bump(m, k, v)),
        val_at(bump(m, k, v), k) == val_at(m, k) + v,
        forall|k2: Path| k2 != k ==> #[trigger] val_at(bump(m, k, v), k2) == val_at(m, k2),
        val_at(m, k) >= 0,
{
    lemma_key_idx_props(m, k);
    let b = bump(m, k, v);
    let j = key_idx(m, k);
    if j < m.len() {
        lemma_key_idx_char(b, k, j);
    } else {
        lemma_key_idx_char(b, k, j);
    }
    assert forall|k2: Path| k2 != k implies #[trigger] val_at(b, k2) == val_at(m, k2) by {
        lemma_key_idx_props(m, k2);
        let j2 = key_idx(m, k2);
        if j < m.len() {
            // b is m with entry j overwritten by (k, ...)
            lemma_key_idx_char(b, k2, j2);
        } else {
            // b is m with (k, ...) appended
            if j2 < m.len() {
                lemma_key_idx_char(b, k2, j2);
            } else {
                lemma_key_idx_char(b, k2, b.len() as int);
            }
        }
    }
}

/// Charging ancestors never lowers any key's value.
proof fn lemma_charge_monotone(dirs: SizeMap, path: Path, size: int, i: int, k: Path)
    requires
        sizes_nonneg(dirs),
        size >= 0,
    ensures
        sizes_nonneg(charge_ancestors(dirs, path, size, i)),
        val_at(charge_ancestors(dirs, path, size, i), k) >= val_at(dirs, k),
        val_at(dirs, k) >= 0,
    decreases path.len() - i,
{
    lemma_key_idx_props(dirs, k);
    lemma_val_at_nonneg(dirs, k);
    if 0 <= i < path.len() {
        lemma_bump_vals(dirs, path.take(i), size);
        lemma_charge_monotone(bump(dirs, path.take(i), size), path, size, i + 1, k);
    }
}

/// Later charge states never lower any key's value.
proof fn lemma_dirs_of_monotone(files: SizeMap, j1: int, j2: int, k: Path)
    requires
        sizes_nonneg(files),
        0 <= j1 <= j2 <= files.len(),
    ensures
        sizes_nonneg(dirs_of(files, j1)),
        val_at(dirs_of(files, j1), k) <= val_at(dirs_of(files, j2), k),
        val_at(dirs_of(files, j1), k) >= 0,
    decreases j2 - j1,
{
    if j1 == j2 {
        lemma_dirs_nonneg(files, j1);
        lemma_val_at_nonneg(dirs_of(files, j1), k);
    } else {
        lemma_dirs_of_monotone(files, j1, j2 - 1, k);
        lemma_dirs_nonneg(files, j2 - 1);
        lemma_charge_monotone(dirs_of(files, j2 - 1), files[j2 - 1].0, files[j2 - 1].1, 0, k);
    }
}

proof fn lemma_val_at_nonneg(m: SizeMap, k: Path)
    requires
        sizes_nonneg(m),
    ensures
        val_at(m, k) >= 0,
{
    lemma_key_idx_props(m, k);
}

proof fn lemma_dirs_nonneg(files: SizeMap, j: int)
    requires
        sizes_nonneg(files),
        j <= files.len(),
    ensures
        sizes_nonneg(dirs_of(files, j)),
    decreases j,
{
    if j > 0 {
        lemma_dirs_nonneg(files, j - 1);
        lemma_charge_nonneg(dirs_of(files, j - 1), files[j - 1].0, files[j - 1].1, 0);
    }
}

proof fn lemma_charge_nonneg(dirs: SizeMap, path: Path, size: int, i: int)
    requires
        sizes_nonneg(dirs),
        size >= 0,
    ensures
        sizes_nonneg(charge_ancestors(dirs, path, size, i)),
    decreases path.len() - i,
{
    if 0 <= i < path.len() {
        lemma_bump_vals(dirs, path.take(i), size);
        lemma_charge_nonneg(bump(dirs, path.take(i), size), path, size, i + 1);
    }
}

proof fn lemma_files_nonneg(lines: Seq<Line>, i: int, cwd: Path, files: SizeMap)
    requires
        sizes_nonneg(files),
    ensures
        sizes_nonneg(files_after(lines, i, cwd, files)),
    decreases lines.len() - i,
{
    if 0 <= i < lines.len() {
        match lines[i] {
            Line::Cd(d) => {
                lemma_files_nonneg(lines, i + 1, cd_step(cwd, d@), files);
            },
            Line::LsFile(size, name) => {
                let k = cwd.push(name@);
                let f2 = store(files, k, size as int);
                assert(sizes_nonneg(f2)) by {
                    lemma_key_idx_props(files, k);
                    assert forall|j: int| 0 <= j < f2.len() implies (#[trigger] f2[j]).1 >= 0 by {
                        if f2.len() > files.len() && j == files.len() {
                        } else if j != key_idx(files, k) {
                            assert(f2[j] == files[j]);
                        }
                    }
                }
                lemma_files_nonneg(lines, i + 1, cwd, f2);
            },
            _ => {
                lemma_files_nonneg(lines, i + 1, cwd, files);
            },
        }
    }
}

/// The mathematical path a directory name list stands for.
pub open spec fn path_view(p: Seq<String>) -> Path {
    p.map_values(|s: String| s@)
}

/// The mathematical association list an entry vector stands for.
pub open spec fn map_view(v: Seq<(Vec<String>, usize)>) -> SizeMap {
    v.map_values(|e: (Vec<String>, usize)| (path_view(e.0@), e.1 as int))
}

/// Whether two name lists spell the same path.
fn paths_eq(a: &Vec<String>, b: &Vec<String>) -> (r: bool)
    ensures
        r == (path_view(a@) == path_view(b@)),
{
    if a.len() != b.len() {
        proof {
            assert(path_view(a@).len() != path_view(b@).len());
        }
        return false;
    }
    for i in 0..a.len()
        invariant
            a@.len() == b@.len(),
            forall|k: int| 0 <= k < i ==> (#[trigger] a@[k])@ == b@[k]@,
    {
        if !(a[i] == b[i]) {
            proof {
                assert(path_view(a@)[i as int] != path_view(b@)[i as int]);
            }
            return false;
        }
    }
    proof {
        assert(path_view(a@) =~= path_view(b@));
    }
    true
}

/// The index of the first entry with this key, or the length if none.
fn find_key(v: &Vec<(Vec<String>, usize)>, k: &Vec<String>) -> (i: usize)
    ensures
        i == key_idx(map_view(v@), path_view(k@)),
{
    let mut i: usize = 0;
    while i < v.len()
        invariant
            0 <= i <= v@.len(),
            forall|j: int| 0 <= j < i ==> (#[trigger] map_view(v@)[j]).0 != path_view(k@),
        decreases v@.len() - i,
    {
        if paths_eq(&v[i].0, k) {
            proof {
                assert(map_view(v@)[i as int].0 == path_view(k@));
                lemma_key_idx_char(map_view(v@), path_view(k@), i as int);
            }
            return i;
        }
        proof {
            assert(map_view(v@)[i as int].0 != path_view(k@));
        }
        i = i + 1;
    }
    proof {
        lemma_key_idx_char(map_view(v@), path_view(k@), i as int);
    }
    i
}

/// An independent copy of the first `n` names of a path.
fn prefix_clone(p: &Vec<String>, n: usize) -> (r: Vec<String>)
    requires
        n <= p@.len(),
    ensures
        path_view(r@) == path_view(p@).take(n as int),
{
    let mut r: Vec<String> = Vec::new();
    for i in 0..n
        invariant
            n <= p@.len(),
            r@.len() == i,
            forall|k: int| 0 <= k < i ==> (#[trigger] r@[k])@ == p@[k]@,
    {
        r.push(p[i].clone());
    }
    proof {
        assert(path_view(r@) =~= path_view(p@).take(n as int));
    }
    r
}

/// Given the parsed terminal session, find the size of every directory: each
/// file's size counts towards all of its ancestors. One entry per directory,
/// in order of first appearance.
pub fn size_of_dirs(lines: Vec<Line>) -> (r: Vec<usize>)
    requires
        forall|k: Path| #[trigger] val_at(dir_sizes_of(lines@), k) <= usize::MAX,
    ensures
        r@.map_values(|v: usize| v as int) == dir_sizes_of(lines@).map_values(
            |e: (Path, int)| e.1,
        ),
{
    let ghost final_files = files_after(lines@, 0, Seq::empty(), Seq::empty());
    proof {
        lemma_files_nonneg(lines@, 0, Seq::empty(), Seq::empty());
    }
    let mut filesizes: Vec<(Vec<String>, usize)> = Vec::new();
    let mut cwd: Vec<String> = Vec::new();
    proof {
        assert(path_view(cwd@) =~= Seq::<Seq<char>>::empty());
        assert(map_view(filesizes@) =~= Seq::<(Path, int)>::empty());
    }
    for idx in 0..lines.len()
        invariant
            final_files == files_after(lines@, 0, Seq::empty(), Seq::empty()),
            final_files == files_after(
                lines@,
                idx as int,
                path_view(cwd@),
                map_view(filesizes@),
            ),
    {
        match &lines[idx] {
            Line::Cd(d) => {
                if is_word(d, '/', '/', 1) {
                    proof {
                        assert(d@ == seq!['/']);
                    }
                    cwd = Vec::new();
                    proof {
                        assert(path_view(cwd@) =~= Seq::<Seq<char>>::empty());
                    }
                } else if is_word(d, '.', '.', 2) {
                    proof {
                        assert(d@ == seq!['.', '.']);
                    }
                    let ghost pre = path_view(cwd@);
                    let _popped = cwd.pop();
                    proof {
                        if pre.len() > 0 {
                            assert(path_view(cwd@) =~= pre.drop_last());
                        }
                    }
                } else {
                    proof {
                        assert(d@ != seq!['/'] && d@ != seq!['.', '.']);
                    }
                    let ghost pre = path_view(cwd@);
                    cwd.push(d.clone());
                    proof {
                        assert(path_view(cwd@) =~= pre.push(d@));
                    }
                }
            },
            Line::LsFile(size, name) => {
                let mut absolute_path = prefix_clone(&cwd, cwd.len());
                proof {
                    assert(path_view(cwd@).take(cwd@.len() as int) =~= path_view(cwd@));
                }
                let ghost pre = path_view(absolute_path@);
                absolute_path.push(name.clone());
                proof {
                    assert(path_view(absolute_path@) =~= pre.push(name@));
                }
                let sz = *size;
                let j = find_key(&filesizes, &absolute_path);
                let ghost m = map_view(filesizes@);
                let ghost key = path_view(absolute_path@);
                if j < filesizes.len() {
                    filesizes[j] = (absolute_path, sz as usize);
                    proof {
                        assert(map_view(filesizes@) =~= store(m, key, sz as int));
                    }
                } else {
                    filesizes.push((absolute_path, sz as usize));
                    proof {
                        assert(map_view(filesizes@) =~= store(m, key, sz as int));
                    }
                }
            },
            _ => {},
        }
    }
    proof {
        assert(final_files == map_view(filesizes@));
        lemma_files_nonneg(lines@, 0, Seq::empty(), Seq::empty());
    }
    // Track the size of each directory: loop over every file and add its
    // size to the size of each ancestor directory.
    let mut dir_sizes: Vec<(Vec<String>, usize)> = Vec::new();
    for f in 0..filesizes.len()
        invariant
            final_files == dir_sizes_source(lines@),
            final_files == map_view(filesizes@),
            sizes_nonneg(final_files),
            forall|k: Path| #[trigger] val_at(dir_sizes_of(lines@), k) <= usize::MAX,
            dir_sizes_of(lines@) == dirs_of(final_files, final_files.len() as int),
            map_view(dir_sizes@) == dirs_of(final_files, f as int),
    {
        let size = filesizes[f].1;
        let ghost fpath = final_files[f as int].0;
        let ghost fsize = final_files[f as int].1;
        proof {
            assert(fpath == path_view(filesizes@[f as int].0@));
            assert(fsize == size as int);
            assert(fsize >= 0);
        }
        let path_len = filesizes[f].0.len();
        proof {
            lemma_dirs_nonneg(final_files, f as int);
        }
        for i in 0..path_len
            invariant
                final_files == dir_sizes_source(lines@),
                final_files == map_view(filesizes@),
                sizes_nonneg(final_files),
                forall|k: Path| #[trigger] val_at(dir_sizes_of(lines@), k) <= usize::MAX,
                dir_sizes_of(lines@) == dirs_of(final_files, final_files.len() as int),
                0 <= f < filesizes@.len(),
                path_len == filesizes@[f as int].0@.len(),
                fpath == path_view(filesizes@[f as int].0@),
                fsize == filesizes@[f as int].1 as int,
                fsize == final_files[f as int].1,
                size == filesizes@[f as int].1,
                sizes_nonneg(map_view(dir_sizes@)),
                charge_ancestors(dirs_of(final_files, f as int), fpath, fsize, 0)
                    == charge_ancestors(map_view(dir_sizes@), fpath, fsize, i as int),
        {
            let ghost mid = map_view(dir_sizes@);
            let dir = prefix_clone(&filesizes[f].0, i);
            let ghost key = fpath.take(i as int);
            proof {
                assert(path_view(dir@) == key);
                lemma_bump_vals(mid, key, fsize);
                // one unfolding of the remaining charges
                assert(charge_ancestors(mid, fpath, fsize, i as int) == charge_ancestors(
                    bump(mid, key, fsize),
                    fpath,
                    fsize,
                    i + 1,
                ));
                // the value after this bump is at most the final size of
                // this directory
                lemma_charge_monotone(bump(mid, key, fsize), fpath, fsize, i + 1, key);
                assert(charge_ancestors(mid, fpath, fsize, i as int) == dirs_of(
                    final_files,
                    f + 1,
                ));
                lemma_dirs_of_monotone(final_files, f + 1, final_files.len() as int, key);
                assert(val_at(mid, key) + fsize <= val_at(
                    dirs_of(final_files, final_files.len() as int),
                    key,
                ));
                assert(val_at(mid, key) + fsize <= usize::MAX);
            }
            let j = find_key(&dir_sizes, &dir);
            if j < dir_sizes.len() {
                let old_v = dir_sizes[j].1;
                proof {
                    assert(old_v as int == val_at(mid, key)) by {
                        lemma_key_idx_props(mid, key);
                    }
                }
                dir_sizes[j] = (dir, old_v + size);
                proof {
                    assert(map_view(dir_sizes@) =~= bump(mid, key, fsize));
                }
            } else {
                proof {
                    assert(val_at(mid, key) == 0);
                }
                dir_sizes.push((dir, size));
                proof {
                    assert(map_view(dir_sizes@) =~= bump(mid, key, fsize));
                }
            }
        }
        proof {
            assert(charge_ancestors(map_view(dir_sizes@), fpath, fsize, path_len as int)
                == map_view(dir_sizes@));
            assert(map_view(dir_sizes@) == dirs_of(final_files, f + 1));
        }
    }
    let mut r: Vec<usize> = Vec::new();
    for e in 0..dir_sizes.len()
        invariant
            map_view(dir_sizes@) == dirs_of(final_files, final_files.len() as int),
            r@.len() == e,
            forall|k: int| 0 <= k < e ==> #[trigger] r@[k] == dir_sizes@[k].1,
    {
        let v = dir_sizes[e].1;
        r.push(v);
    }
    proof {
        assert(r@.map_values(|v: usize| v as int) =~= dir_sizes_of(lines@).map_values(
            |en: (Path, int)| en.1,
        ));
    }
    r
}

/// The file records the whole session denotes.
pub open spec fn dir_sizes_source(lines: Seq<Line>) -> SizeMap {
    files_after(lines, 0, Seq::empty(), Seq::empty())
}

/// Whether the string is the one- or two-character word made of `c0` and
/// `c1` (`len` 1 uses only `c0`).
fn is_word(s: &String, c0: char, c1: char, len: usize) -> (r: bool)
    requires
        len == 1 || len == 2,
    ensures
        len == 1 ==> r == (s@ == seq![c0]),
        len == 2 ==> r == (s@ == seq![c0, c1]),
{
    let st = s.as_str();
    if st.unicode_len() != len {
        proof {
            assert(s@.len() != len);
        }
        return false;
    }
    if len == 1 {
        let r = st.get_char(0) == c0;
        proof {
            if s@[0] == c0 {
                assert(s@ =~= seq![c0]);
            }
        }
        r
    } else {
        let r = st.get_char(0) == c0 && st.get_char(1) == c1;
        proof {
            if s@[0] == c0 && s@[1] == c1 {
                assert(s@ =~= seq![c0, c1]);
            }
        }
        r
    }
}

/// The sum of the sizes at most 100000 among the first entries.
pub open spec fn small_dir_sum(sizes: Seq<usize>) -> int
    decreases sizes.len(),
{
    if sizes.len() == 0 {
        0
    } else {
        small_dir_sum(sizes.drop_last()) + (if sizes.last() <= 100000 {
            sizes.last() as int
        } else {
            0
        })
    }
}

proof fn lemma_small_dir_sum_bounds(sizes: Seq<usize>)
    ensures
        0 <= small_dir_sum(sizes) <= 100000 * sizes.len(),
    decreases sizes.len(),
{
    if sizes.len() > 0 {
        lemma_small_dir_sum_bounds(sizes.drop_last());
    }
}

/// Find all of the directories with a total size of at most 100000, and sum
/// their total sizes.
pub fn q1(dir_sizes: &[usize]) -> (r: usize)
    requires
        100000 * dir_sizes@.len() <= usize::MAX,
    ensures
        r == small_dir_sum(dir_sizes@),
{
    let mut r: usize = 0;
    for i in 0..dir_sizes.len()
        invariant
            100000 * dir_sizes@.len() <= usize::MAX,
            r == small_dir_sum(dir_sizes@.take(i as int)),
    {
        proof {
            assert(dir_sizes@.take(i + 1).drop_last() =~= dir_sizes@.take(i as int));
            assert(dir_sizes@.take(i + 1).last() == dir_sizes@[i as int]);
            lemma_small_dir_sum_bounds(dir_sizes@.take(i + 1));
            assert(100000 * dir_sizes@.take(i + 1).len() <= 100000 * dir_sizes@.len())
                by (nonlinear_arith)
                requires
                    dir_sizes@.take(i + 1).len() <= dir_sizes@.len(),
            ;
        }
        let size = dir_sizes[i];
        if size <= 100000 {
            r = r + size;
        }
    }
    proof {
        assert(dir_sizes@.take(dir_sizes@.len() as int) =~= dir_sizes@);
    }
    r
}

/// The largest directory size: the bytes in use on the disk.
pub open spec fn max_size(sizes: Seq<usize>) -> int
    decreases sizes.len(),
{
    if sizes.len() <= 1 {
        sizes[0] as int
    } else if sizes.last() as int >= max_size(sizes.drop_last()) {
        sizes.last() as int
    } else {
        max_size(sizes.drop_last())
    }
}

pub proof fn lemma_max_size_props(sizes: Seq<usize>)
    requires
        sizes.len() >= 1,
    ensures
        forall|i: int| 0 <= i < sizes.len() ==> #[trigger] sizes[i] <= max_size(sizes),
        exists|i: int| 0 <= i < sizes.len() && #[trigger] sizes[i] == max_size(sizes),
    decreases sizes.len(),
{
    if sizes.len() == 1 {
        assert(sizes[0] == max_size(sizes));
    } else {
        lemma_max_size_props(sizes.drop_last());
        assert(forall|i: int| 0 <= i < sizes.len() - 1 ==> sizes.drop_last()[i] == sizes[i]);
        if sizes.last() as int >= max_size(sizes.drop_last()) {
            assert(sizes[sizes.len() - 1] == max_size(sizes));
        } else {
            let j = choose|j: int|
                0 <= j < sizes.drop_last().len() && #[trigger] sizes.drop_last()[j] == max_size(
                    sizes.drop_last(),
                );
            assert(sizes[j] == max_size(sizes));
        }
    }
}

/// Find the smallest directory that, if deleted, would free up enough space
/// on the filesystem to run the update, and return its total size. The disk
/// holds 70000000 bytes and the update needs 30000000 of them free, so the
/// deleted directory must hold at least `max - 40000000` bytes, `max` being
/// the bytes in use; `max` must make the deletion both meaningful and
/// possible.
pub fn q2(dir_sizes: &[usize]) -> (r: usize)
    requires
        dir_sizes@.len() >= 1,
        40000000 <= max_size(dir_sizes@) <= 70000000,
    ensures
        dir_sizes@.contains(r),
        r >= max_size(dir_sizes@) - 40000000,
        forall|i: int|
            0 <= i < dir_sizes@.len() && #[trigger] dir_sizes@[i] >= max_size(dir_sizes@)
                - 40000000 ==> r <= dir_sizes@[i],
{
    proof {
        lemma_max_size_props(dir_sizes@);
    }
    let mut bytes_in_use: usize = dir_sizes[0];
    for i in 0..dir_sizes.len()
        invariant
            dir_sizes@.len() >= 1,
            forall|k: int| 0 <= k < i ==> #[trigger] dir_sizes@[k] <= bytes_in_use,
            exists|k: int|
                0 <= k < dir_sizes@.len() && #[trigger] dir_sizes@[k] == bytes_in_use,
    {
        let this = dir_sizes[i];
        if this > bytes_in_use {
            bytes_in_use = this;
        }
    }
    proof {
        lemma_max_size_props(dir_sizes@);
        assert(bytes_in_use as int == max_size(dir_sizes@));
    }
    let bytes_unused = 70000000 - bytes_in_use;
    let bytes_to_delete = 30000000 - bytes_unused;
    let mut best: usize = bytes_in_use;
    for i in 0..dir_sizes.len()
        invariant
            bytes_to_delete == max_size(dir_sizes@) - 40000000,
            dir_sizes@.contains(best),
            best >= bytes_to_delete,
            forall|k: int|
                0 <= k < i && #[trigger] dir_sizes@[k] >= bytes_to_delete ==> best
                    <= dir_sizes@[k],
    {
        let this = dir_sizes[i];
        if this >= bytes_to_delete && this < best {
            proof {
                assert(dir_sizes@[i as int] == this);
            }
            best = this;
        }
    }
    best
}


/// Whether `c` is an ASCII letter.
pub open spec fn is_alpha(c: char) -> bool {
    ('a' <= c && c <= 'z') || ('A' <= c && c <= 'Z')
}

/// A `$ cd NAME` line: the name is `/`, `..`, or a bare directory name.
pub open spec fn is_cd_line(s: Seq<char>) -> bool {
    &&& s.len() >= 6
    &&& s[0] == '$' && s[1] == ' ' && s[2] == 'c' && s[3] == 'd' && s[4] == ' '
    &&& {
        let name = s.skip(5);
        ||| name == seq!['/']
        ||| name == seq!['.', '.']
        ||| (forall|i: int| 0 <= i < name.len() ==> is_alpha(#[trigger] name[i]))
    }
}

/// The directory name of a `$ cd` line.
pub open spec fn cd_name(s: Seq<char>) -> Seq<char> {
    s.skip(5)
}

/// A bare `$ ls` line.
pub open spec fn is_ls_line(s: Seq<char>) -> bool {
    s.len() == 4 && s[0] == '$' && s[1] == ' ' && s[2] == 'l' && s[3] == 's'
}

/// A file listing line: a decimal size, a space, and a file name made of
/// letters and dots.
pub open spec fn is_file_line(s: Seq<char>) -> bool {
    let j = first_idx(s, ' ');
    &&& 1 <= j
    &&& j + 2 <= s.len()
    &&& all_digits(s.take(j))
    &&& 0 <= digits_val(s.take(j)) <= u32::MAX
    &&& (forall|i: int|
        0 <= i < s.skip(j + 1).len() ==> is_alpha(#[trigger] s.skip(j + 1)[i]) || s.skip(j + 1)[i]
            == '.')
}

/// The size of a file listing line.
pub open spec fn file_size(s: Seq<char>) -> int {
    digits_val(s.take(first_idx(s, ' ')))
}

/// The name of a file listing line.
pub open spec fn file_name(s: Seq<char>) -> Seq<char> {
    s.skip(first_idx(s, ' ') + 1)
}

/// A directory listing line: `dir ` and a name of letters.
pub open spec fn is_dir_line(s: Seq<char>) -> bool {
    &&& s.len() >= 5
    &&& s[0] == 'd' && s[1] == 'i' && s[2] == 'r' && s[3] == ' '
    &&& (forall|i: int| 0 <= i < s.skip(4).len() ==> is_alpha(#[trigger] s.skip(4)[i]))
}

/// The name of a directory listing line.
pub open spec fn dir_name(s: Seq<char>) -> Seq<char> {
    s.skip(4)
}

/// A line the terminal session may hold.
pub open spec fn valid_term_line(s: Seq<char>) -> bool {
    is_cd_line(s) || is_ls_line(s) || is_file_line(s) || is_dir_line(s)
}

/// Whether a parsed line records exactly what the input line says.
pub open spec fn line_matches(l: Line, s: Seq<char>) -> bool {
    match l {
        Line::Cd(d) => is_cd_line(s) && d@ == cd_name(s),
        Line::Ls => is_ls_line(s),
        Line::LsFile(size, name) => is_file_line(s) && size as int == file_size(s) && name@
            == file_name(s),
        Line::LsDir(d) => is_dir_line(s) && d@ == dir_name(s),
    }
}

/// The characters `chars[from..to]` as an owned string.
fn chars_to_string(chars: &Vec<char>, from: usize, to: usize) -> (r: String)
    requires
        from <= to <= chars@.len(),
    ensures
        r@ == chars@.subrange(from as int, to as int),
{
    let mut r = String::new();
    for i in from..to
        invariant
            from <= i <= to <= chars@.len(),
            r@ =~= chars@.subrange(from as int, i as int),
    {
        proof {
            assert(chars@.subrange(from as int, i + 1) =~= chars@.subrange(
                from as int,
                i as int,
            ).push(chars@[i as int]));
        }
        push_char(&mut r, chars[i]);
    }
    r
}

/// Parse every line of the terminal session.
pub fn parse_lines(input: &[u8]) -> (r: Vec<Line>)
    requires
        forall|k: int| 0 <= k < byte_lines(input@).len() ==> valid_term_line(
            #[trigger] byte_lines(input@)[k],
        ),
    ensures
        r@.len() == byte_lines(input@).len(),
        forall|k: int| 0 <= k < r@.len() ==> line_matches(#[trigger] r@[k], byte_lines(input@)[k]),
{
    let chars = bytes_to_chars(input);
    let lines = split_lines_vec(&chars);
    let mut r: Vec<Line> = Vec::new();
    for k in 0..lines.len()
        invariant
            lines@.map_values(|line: Vec<char>| line@) == byte_lines(input@),
            forall|j: int| 0 <= j < byte_lines(input@).len() ==> valid_term_line(
                #[trigger] byte_lines(input@)[j],
            ),
            r@.len() == k,
            forall|j: int| 0 <= j < k ==> line_matches(#[trigger] r@[j], byte_lines(input@)[j]),
    {
        let line = &lines[k];
        let ghost s = byte_lines(input@)[k as int];
        proof {
            assert(line@ == s);
            assert(valid_term_line(s));
        }
        let c0 = if line.len() > 0 {
            line[0]
        } else {
            ' '
        };
        let parsed = if c0 == '$' {
            if line[2] == 'c' {
                proof {
                    assert(is_cd_line(s)) by {
                        if is_ls_line(s) || is_file_line(s) || is_dir_line(s) {
                            if is_file_line(s) {
                                lemma_first_idx_props(s, ' ');
                                assert(!crate::text::is_digit('$'));
                                assert(s.take(first_idx(s, ' '))[0] == '$');
                            }
                        }
                    }
                    assert(cd_name(s) =~= s.subrange(5, s.len() as int));
                }
                let name = chars_to_string(line, 5, line.len());
                Line::Cd(name)
            } else {
                proof {
                    assert(is_ls_line(s)) by {
                        if is_file_line(s) {
                            lemma_first_idx_props(s, ' ');
                            assert(!crate::text::is_digit('$'));
                            assert(s.take(first_idx(s, ' '))[0] == '$');
                        }
                    }
                }
                Line::Ls
            }
        } else if c0 >= '0' && c0 <= '9' {
            proof {
                assert(is_file_line(s)) by {
                    assert(s.len() > 0);
                    assert(!is_cd_line(s) && !is_ls_line(s) && !is_dir_line(s));
                }
                lemma_first_idx_props(s, ' ');
            }
            let j = find_char(line, 0, ' ');
            proof {
                lemma_first_idx_char(s, ' ', j as int);
                assert(j == first_idx(s, ' '));
                assert(s.take(j as int) =~= s.subrange(0, j as int));
                assert(file_name(s) =~= s.subrange(j + 1, s.len() as int));
            }
            let size = parse_digits(line, 0, j);
            let name = chars_to_string(line, j + 1, line.len());
            Line::LsFile(size as u32, name)
        } else {
            proof {
                assert(is_dir_line(s)) by {
                    if is_file_line(s) {
                        lemma_first_idx_props(s, ' ');
                        assert(crate::text::is_digit(s.take(first_idx(s, ' '))[0]));
                        assert(s[0] == s.take(first_idx(s, ' '))[0]);
                    }
                }
                assert(dir_name(s) =~= s.subrange(4, s.len() as int));
            }
            let name = chars_to_string(line, 4, line.len());
            Line::LsDir(name)
        };
        r.push(parsed);
    }
    r
}

} // verus!
