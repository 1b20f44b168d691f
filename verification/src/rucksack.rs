//! Rucksack reorganization: find the one item type shared by both halves of
//! each rucksack line (or by each group of three lines) and sum the item
//! priorities.
use vstd::prelude::*;

use crate::text::lines_of;
use crate::text::split_lines;

verus! {

/// Whether `c` is an ASCII letter, the only item labels that exist.
pub open spec fn is_item(c: char) -> bool {
    ('a' <= c && c <= 'z') || ('A' <= c && c <= 'Z')
}

/// The priority of an item: a through z score 1 through 26, A through Z
/// score 27 through 52.
pub open spec fn priority_spec(c: char) -> int {
    if 'A' <= c && c <= 'Z' {
        c as int - 'A' as int + 27
    } else {
        c as int - 'a' as int + 1
    }
}

/// The priority of an item: a through z score 1 through 26, A through Z
/// score 27 through 52.
pub fn priority(c: char) -> (r: u64)
    requires
        is_item(c),
    ensures
        r == priority_spec(c),
        1 <= r <= 52,
{
    let a_upper: u64 = 65;
    let a_lower: u64 = 97;
    let uint: u64 = c as u64;
    if (c as u32) >= 65 && (c as u32) <= 90 {
        uint - a_upper + 27
    } else {
        uint - a_lower + 1
    }
}

/// The distinct characters of `s`, in order of first appearance.
pub fn set(s: &str) -> (r: Vec<char>)
    ensures
        r@.no_duplicates(),
        forall|c: char| r@.contains(c) <==> s@.contains(c),
{
    let n = s.unicode_len();
    let mut r: Vec<char> = Vec::new();
    for i in 0..n
        invariant
            n == s@.len(),
            r@.no_duplicates(),
            forall|c: char| r@.contains(c) <==> s@.take(i as int).contains(c),
    {
        let c = s.get_char(i);
        let mut found = false;
        let mut k: usize = 0;
        while k < r.len()
            invariant
                0 <= k <= r@.len(),
                found <==> (exists|j: int| 0 <= j < k && r@[j] == c),
            decreases r@.len() - k,
        {
            if r[k] == c {
                found = true;
            }
            k = k + 1;
        }
        proof {
            assert(found <==> r@.contains(c));
            assert(s@.take(i + 1).drop_last() =~= s@.take(i as int));
            assert(s@.take(i + 1).last() == c);
            assert forall|d: char| s@.take(i + 1).contains(d) implies s@.take(i as int).contains(d)
                || d == c by {
                let j = choose|j: int| 0 <= j < s@.take(i + 1).len() && #[trigger] s@.take(i + 1)[j] == d;
                if j < i {
                    assert(s@.take(i as int)[j] == d);
                }
            }
            assert forall|d: char| s@.take(i as int).contains(d) implies s@.take(i + 1).contains(
                d,
            ) by {
                let j = choose|j: int| 0 <= j < i && #[trigger] s@.take(i as int)[j] == d;
                assert(s@.take(i + 1)[j] == d);
            }
            assert(s@.take(i + 1).contains(c)) by {
                assert(s@.take(i + 1)[i as int] == c);
            }
        }
        let ghost r_old = r@;
        if !found {
            r.push(c);
        }
        proof {
            if found {
                assert(r@ == r_old);
                assert(r_old.contains(c));
                assert(s@.take(i as int).contains(c));
                assert forall|d: char| r@.contains(d) <==> s@.take(i + 1).contains(d) by {
                    assert(r@.contains(d) <==> s@.take(i as int).contains(d));
                    assert(s@.take(i + 1).contains(d) <==> s@.take(i as int).contains(d) || d
                        == c);
                }
            } else {
                assert(!r_old.contains(c));
                assert forall|d: char| r@.contains(d) implies r_old.contains(d) || d == c by {
                    let j = choose|j: int| 0 <= j < r@.len() && #[trigger] r@[j] == d;
                    if j < r_old.len() {
                        assert(r_old[j] == d);
                    }
                }
                assert forall|d: char| r_old.contains(d) implies r@.contains(d) by {
                    let j = choose|j: int| 0 <= j < r_old.len() && #[trigger] r_old[j] == d;
                    assert(r@[j] == d);
                }
                assert(r@.contains(c)) by {
                    assert(r@[r_old.len() as int] == c);
                }
                assert(r@.no_duplicates()) by {
                    assert forall|p: int, q: int| 0 <= p < q < r@.len() implies r@[p] != r@[q] by {
                        if q < r_old.len() {
                            assert(r_old[p] != r_old[q]);
                        } else {
                            assert(r@[q] == c);
                            assert(r_old.contains(r_old[p]));
                        }
                    }
                }
                assert forall|d: char| r@.contains(d) <==> s@.take(i + 1).contains(d) by {
                    assert(r@.contains(d) <==> r_old.contains(d) || d == c);
                    assert(r_old.contains(d) <==> s@.take(i as int).contains(d));
                    assert(s@.take(i + 1).contains(d) <==> s@.take(i as int).contains(d) || d
                        == c);
                }
            }
        }
    }
    proof {
        assert(s@.take(n as int) =~= s@);
    }
    r
}

/// The one item type that appears in both halves of a rucksack line.
pub open spec fn common_item(l: Seq<char>) -> char {
    choose|c: char|
        #[trigger] l.take((l.len() / 2) as int).contains(c) && l.skip(
            (l.len() / 2) as int,
        ).contains(c)
}

/// A well-formed rucksack line: even length, letters only, and exactly one
/// item type stocked in both halves.
pub open spec fn valid_rucksack(l: Seq<char>) -> bool {
    let half = (l.len() / 2) as int;
    &&& l.len() % 2 == 0
    &&& l.len() > 0
    &&& (forall|i: int| 0 <= i < l.len() ==> is_item(#[trigger] l[i]))
    &&& (exists|c: char| #[trigger] l.take(half).contains(c) && l.skip(half).contains(c))
    &&& (forall|c1: char, c2: char|
        (#[trigger] l.take(half).contains(c1) && l.skip(half).contains(c1)
            && #[trigger] l.take(half).contains(c2) && l.skip(half).contains(c2)) ==> c1 == c2)
}

/// The summed priorities of each line's duplicated item.
pub open spec fn dup_priority_sum(lines: Seq<Seq<char>>) -> int
    decreases lines.len(),
{
    if lines.len() == 0 {
        0
    } else {
        dup_priority_sum(lines.drop_last()) + priority_spec(common_item(lines.last()))
    }
}

proof fn lemma_dup_priority_sum_bounds(lines: Seq<Seq<char>>)
    requires
        forall|i: int| 0 <= i < lines.len() ==> valid_rucksack(#[trigger] lines[i]),
    ensures
        0 <= dup_priority_sum(lines) <= 52 * lines.len(),
    decreases lines.len(),
{
    if lines.len() > 0 {
        assert(forall|i: int|
            0 <= i < lines.drop_last().len() ==> lines.drop_last()[i] == lines[i]);
        lemma_dup_priority_sum_bounds(lines.drop_last());
        let l = lines.last();
        assert(valid_rucksack(l));
        let c = common_item(l);
        let half = (l.len() / 2) as int;
        assert(l.take(half).contains(c) && l.skip(half).contains(c));
        let j = choose|j: int| 0 <= j < l.take(half).len() && #[trigger] l.take(half)[j] == c;
        assert(l[j] == c);
        assert(is_item(c));
        assert(1 <= priority_spec(c) <= 52);
    }
}

/// Find the item duplicated between the two halves of one line.
fn find_common(line: &Vec<char>) -> (c: char)
    requires
        valid_rucksack(line@),
    ensures
        c == common_item(line@),
        is_item(c),
{
    let ghost l = line@;
    let ghost half = (l.len() / 2) as int;
    let h = line.len() / 2;
    for i in 0..h
        invariant
            valid_rucksack(l),
            l == line@,
            half == (l.len() / 2) as int,
            h == l.len() / 2,
            h <= l.len(),
            forall|k: int| 0 <= k < i ==> !l.skip(half).contains(#[trigger] l.take(half)[k]),
    {
        let c = line[i];
        proof {
            assert(l.take(half)[i as int] == c);
        }
        let mut j = h;
        let mut found = false;
        while j < line.len()
            invariant
                h <= j <= l.len(),
                l == line@,
                half == (l.len() / 2) as int,
                h == l.len() / 2,
                found <==> (exists|k: int| half <= k < j && l[k] == c),
            decreases l.len() - j,
        {
            if line[j] == c {
                found = true;
            }
            j = j + 1;
        }
        if found {
            proof {
                let k = choose|k: int| half <= k < l.len() && #[trigger] l[k] == c;
                assert(l.skip(half)[k - half] == c);
                assert(l.skip(half).contains(c));
                assert(l.take(half).contains(c)) by {
                    assert(l.take(half)[i as int] == c);
                }
                let w = common_item(l);
                assert(l.take(half).contains(w) && l.skip(half).contains(w)) by {
                    let e = choose|e: char|
                        #[trigger] l.take(half).contains(e) && l.skip(half).contains(e);
                    assert(l.take(half).contains(e) && l.skip(half).contains(e));
                }
                assert(c == w);
                assert(is_item(c)) by {
                    assert(l[i as int] == c);
                }
            }
            return c;
        }
        proof {
            assert(!l.skip(half).contains(c)) by {
                if l.skip(half).contains(c) {
                    let k = choose|k: int|
                        0 <= k < l.skip(half).len() && #[trigger] l.skip(half)[k] == c;
                    assert(l[k + half] == c);
                }
            }
        }
    }
    proof {
        let e = choose|e: char| #[trigger] l.take(half).contains(e) && l.skip(half).contains(e);
        assert(l.take(half).contains(e));
        let k = choose|k: int| 0 <= k < l.take(half).len() && #[trigger] l.take(half)[k] == e;
        assert(!l.skip(half).contains(l.take(half)[k]));
        assert(false);
    }
    ' '
}

/// Sum the priority of the item duplicated between the halves of every
/// rucksack line.
pub fn q1(input: &str) -> (r: u64)
    requires
        forall|i: int| 0 <= i < lines_of(input@).len() ==> valid_rucksack(
            #[trigger] lines_of(input@)[i],
        ),
        52 * lines_of(input@).len() <= u64::MAX,
    ensures
        r == dup_priority_sum(lines_of(input@)),
{
    let ghost all = lines_of(input@);
    let lines = split_lines(input);
    let mut r: u64 = 0;
    for i in 0..lines.len()
        invariant
            lines@.map_values(|line: Vec<char>| line@) == all,
            forall|k: int| 0 <= k < all.len() ==> valid_rucksack(#[trigger] all[k]),
            52 * all.len() <= u64::MAX,
            r == dup_priority_sum(all.take(i as int)),
    {
        let line = &lines[i];
        proof {
            assert(line@ == all[i as int]);
            assert(all.take(i + 1).drop_last() =~= all.take(i as int));
            assert(all.take(i + 1).last() == all[i as int]);
            assert(forall|k: int| 0 <= k < i ==> all.take(i as int)[k] == all[k]);
            lemma_dup_priority_sum_bounds(all.take(i as int));
            assert(all.take(i as int).len() <= all.len());
            assert(52 * all.take(i as int).len() <= 52 * all.len()) by (nonlinear_arith)
                requires
                    all.take(i as int).len() <= all.len(),
            ;
        }
        let c = find_common(line);
        let p = priority(c);
        r = r + p;
    }
    proof {
        assert(all.take(all.len() as int) =~= all);
    }
    r
}

/// The one item type carried by all three members of a group.
pub open spec fn group_common(a: Seq<char>, b: Seq<char>, c: Seq<char>) -> char {
    choose|d: char| #[trigger] a.contains(d) && b.contains(d) && c.contains(d)
}

/// A well-formed group of three rucksacks: letters only in the first, and
/// exactly one item type common to all three.
pub open spec fn valid_group(a: Seq<char>, b: Seq<char>, c: Seq<char>) -> bool {
    &&& (forall|i: int| 0 <= i < a.len() ==> is_item(#[trigger] a[i]))
    &&& (exists|d: char| #[trigger] a.contains(d) && b.contains(d) && c.contains(d))
    &&& (forall|d1: char, d2: char|
        (#[trigger] a.contains(d1) && b.contains(d1) && c.contains(d1) && #[trigger] a.contains(
            d2,
        ) && b.contains(d2) && c.contains(d2)) ==> d1 == d2)
}

/// Whether the `g`-th group of three consecutive lines is well-formed.
pub open spec fn group_valid_at(lines: Seq<Seq<char>>, g: int) -> bool {
    valid_group(lines[3 * g], lines[3 * g + 1], lines[3 * g + 2])
}

/// The badge of the `g`-th group of three consecutive lines.
pub open spec fn group_badge_at(lines: Seq<Seq<char>>, g: int) -> char {
    group_common(lines[3 * g], lines[3 * g + 1], lines[3 * g + 2])
}

/// The summed badge priorities of the first `g` groups.
pub open spec fn badge_sum(lines: Seq<Seq<char>>, g: int) -> int
    decreases g,
{
    if g <= 0 {
        0
    } else {
        badge_sum(lines, g - 1) + priority_spec(group_badge_at(lines, g - 1))
    }
}

proof fn lemma_badge_sum_bounds(lines: Seq<Seq<char>>, g: int)
    requires
        0 <= g,
        3 * g <= lines.len(),
        forall|k: int| 0 <= k < g ==> #[trigger] group_valid_at(lines, k),
    ensures
        0 <= badge_sum(lines, g) <= 52 * g,
    decreases g,
{
    if g > 0 {
        lemma_badge_sum_bounds(lines, g - 1);
        assert(group_valid_at(lines, g - 1));
        let a = lines[3 * (g - 1)];
        let b = lines[3 * (g - 1) + 1];
        let c = lines[3 * (g - 1) + 2];
        let d = group_badge_at(lines, g - 1);
        assert(a.contains(d) && b.contains(d) && c.contains(d)) by {
            let e = choose|e: char| #[trigger] a.contains(e) && b.contains(e) && c.contains(e);
            assert(a.contains(e) && b.contains(e) && c.contains(e));
        }
        let j = choose|j: int| 0 <= j < a.len() && #[trigger] a[j] == d;
        assert(is_item(d));
    }
}

fn contains_char(v: &Vec<char>, c: char) -> (b: bool)
    ensures
        b == v@.contains(c),
{
    let mut k: usize = 0;
    let mut found = false;
    while k < v.len()
        invariant
            0 <= k <= v@.len(),
            found <==> (exists|j: int| 0 <= j < k && v@[j] == c),
        decreases v@.len() - k,
    {
        if v[k] == c {
            found = true;
        }
        k = k + 1;
    }
    proof {
        if v@.contains(c) {
            let j = choose|j: int| 0 <= j < v@.len() && #[trigger] v@[j] == c;
            assert(found);
        }
    }
    found
}

/// Find the item carried by all three rucksacks of a group.
fn find_badge(a: &Vec<char>, b: &Vec<char>, c: &Vec<char>) -> (d: char)
    requires
        valid_group(a@, b@, c@),
    ensures
        d == group_common(a@, b@, c@),
        is_item(d),
{
    for i in 0..a.len()
        invariant
            valid_group(a@, b@, c@),
            forall|k: int|
                0 <= k < i ==> !(b@.contains(#[trigger] a@[k]) && c@.contains(a@[k])),
    {
        let ch = a[i];
        if contains_char(b, ch) && contains_char(c, ch) {
            proof {
                assert(a@.contains(ch)) by {
                    assert(a@[i as int] == ch);
                }
                let w = group_common(a@, b@, c@);
                assert(a@.contains(w) && b@.contains(w) && c@.contains(w)) by {
                    let e = choose|e: char|
                        #[trigger] a@.contains(e) && b@.contains(e) && c@.contains(e);
                    assert(a@.contains(e) && b@.contains(e) && c@.contains(e));
                }
                assert(ch == w);
            }
            return ch;
        }
    }
    proof {
        let e = choose|e: char| #[trigger] a@.contains(e) && b@.contains(e) && c@.contains(e);
        let j = choose|j: int| 0 <= j < a@.len() && #[trigger] a@[j] == e;
        assert(!(b@.contains(a@[j]) && c@.contains(a@[j])));
        assert(false);
    }
    ' '
}

/// Sum the badge priorities over every complete group of three lines; a
/// trailing incomplete group is ignored.
pub fn q2(input: &str) -> (r: u64)
    requires
        forall|g: int| 0 <= g < lines_of(input@).len() / 3 ==> #[trigger] group_valid_at(
            lines_of(input@),
            g,
        ),
        52 * (lines_of(input@).len() / 3) <= u64::MAX,
    ensures
        r == badge_sum(lines_of(input@), lines_of(input@).len() as int / 3),
{
    let ghost all = lines_of(input@);
    let lines = split_lines(input);
    let groups = lines.len() / 3;
    let mut r: u64 = 0;
    for g in 0..groups
        invariant
            lines@.map_values(|line: Vec<char>| line@) == all,
            groups == all.len() / 3,
            forall|k: int| 0 <= k < groups ==> #[trigger] group_valid_at(all, k),
            52 * groups <= u64::MAX,
            r == badge_sum(all, g as int),
    {
        proof {
            assert(group_valid_at(all, g as int));
            lemma_badge_sum_bounds(all, g as int);
            assert(52 * g <= 52 * groups) by (nonlinear_arith)
                requires
                    0 <= g <= groups,
            ;
        }
        let a = &lines[3 * g];
        let b = &lines[3 * g + 1];
        let c = &lines[3 * g + 2];
        proof {
            assert(a@ == all[3 * g]);
            assert(b@ == all[3 * g + 1]);
            assert(c@ == all[3 * g + 2]);
        }
        let d = find_badge(a, b, c);
        let p = priority(d);
        r = r + p;
    }
    r
}

} // verus!
