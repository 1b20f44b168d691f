//! Small verified text utilities shared by the per-puzzle input readers:
//! splitting an input blob into lines and reading unsigned decimal numbers.
use vstd::prelude::*;

verus! {

/// Whether `c` is an ASCII decimal digit.
pub open spec fn is_digit(c: char) -> bool {
    '0' <= c && c <= '9'
}

/// The numeric value of a digit character.
pub open spec fn digit_val(c: char) -> int {
    c as int - '0' as int
}

/// Whether every character of `s` is an ASCII decimal digit.
pub open spec fn all_digits(s: Seq<char>) -> bool {
    forall|i: int| 0 <= i < s.len() ==> is_digit(#[trigger] s[i])
}

/// The value of a most-significant-first run of decimal digits.
pub open spec fn digits_val(s: Seq<char>) -> int
    decreases s.len(),
{
    if s.len() == 0 {
        0
    } else {
        digits_val(s.drop_last()) * 10 + digit_val(s.last())
    }
}

pub proof fn lemma_digits_val_nonneg(s: Seq<char>)
    requires
        all_digits(s),
    ensures
        digits_val(s) >= 0,
    decreases s.len(),
{
    if s.len() > 0 {
        assert(all_digits(s.drop_last()));
        lemma_digits_val_nonneg(s.drop_last());
    }
}

/// A digit run is worth at least as much as any of its prefixes.
pub proof fn lemma_digits_val_take(s: Seq<char>, i: int)
    requires
        all_digits(s),
        0 <= i <= s.len(),
    ensures
        0 <= digits_val(s.take(i)) <= digits_val(s),
    decreases s.len(),
{
    assert(all_digits(s.take(i)));
    lemma_digits_val_nonneg(s.take(i));
    if i < s.len() {
        assert(s.drop_last().take(i) =~= s.take(i));
        assert(all_digits(s.drop_last()));
        lemma_digits_val_take(s.drop_last(), i);
        lemma_digits_val_nonneg(s.drop_last());
    } else {
        assert(s.take(i) =~= s);
    }
}

/// Read the decimal number written in `chars[from..to]`.
pub fn parse_digits(chars: &Vec<char>, from: usize, to: usize) -> (r: u64)
    requires
        from <= to <= chars@.len(),
        all_digits(chars@.subrange(from as int, to as int)),
        digits_val(chars@.subrange(from as int, to as int)) <= u64::MAX,
    ensures
        r == digits_val(chars@.subrange(from as int, to as int)),
{
    let ghost digits = chars@.subrange(from as int, to as int);
    let mut acc: u64 = 0;
    for i in from..to
        invariant
            from <= i <= to <= chars@.len(),
            digits == chars@.subrange(from as int, to as int),
            all_digits(digits),
            digits_val(digits) <= u64::MAX,
            acc == digits_val(digits.take(i - from)),
    {
        let c = chars[i];
        proof {
            assert(digits[i - from] == chars@[i as int]);
            assert(is_digit(c));
            assert(digits.take(i + 1 - from).drop_last() =~= digits.take(i - from));
            assert(digits.take(i + 1 - from).last() == c);
            lemma_digits_val_take(digits, i + 1 - from);
            lemma_digits_val_nonneg(digits.take(i - from));
        }
        let d = (c as u32) - 48;
        acc = acc * 10 + (d as u64);
    }
    proof {
        assert(digits.take(to - from) =~= digits);
    }
    acc
}

/// The index of the first occurrence of `c` in `s`, or `s.len()` if there is
/// none.
pub open spec fn first_idx(s: Seq<char>, c: char) -> int
    decreases s.len(),
{
    if s.len() == 0 {
        0
    } else if s[0] == c {
        0
    } else {
        1 + first_idx(s.drop_first(), c)
    }
}

/// The first occurrence is in bounds, has no occurrence before it, and is an
/// occurrence itself unless `c` is absent altogether.
pub proof fn lemma_first_idx_props(s: Seq<char>, c: char)
    ensures
        0 <= first_idx(s, c) <= s.len(),
        forall|k: int| 0 <= k < first_idx(s, c) ==> s[k] != c,
        first_idx(s, c) < s.len() ==> s[first_idx(s, c)] == c,
    decreases s.len(),
{
    if s.len() > 0 && s[0] != c {
        lemma_first_idx_props(s.drop_first(), c);
        assert forall|k: int| 0 <= k < first_idx(s, c) implies s[k] != c by {
            if k >= 1 {
                assert(s.drop_first()[k - 1] == s[k]);
            }
        }
        if first_idx(s, c) < s.len() {
            assert(s.drop_first()[first_idx(s.drop_first(), c)] == s[first_idx(s, c)]);
        }
    }
}

/// An index with no occurrence before it, and an occurrence (or the end) at
/// it, is the first occurrence.
pub proof fn lemma_first_idx_char(s: Seq<char>, c: char, i: int)
    requires
        0 <= i <= s.len(),
        forall|k: int| 0 <= k < i ==> s[k] != c,
        i < s.len() ==> s[i] == c,
    ensures
        first_idx(s, c) == i,
    decreases s.len(),
{
    if s.len() > 0 && s[0] != c {
        assert(forall|k: int| 0 <= k < i - 1 ==> s.drop_first()[k] == s[k + 1]);
        lemma_first_idx_char(s.drop_first(), c, i - 1);
    }
}

/// Scan for the first occurrence of `c` at or after `from`.
pub fn find_char(chars: &Vec<char>, from: usize, c: char) -> (i: usize)
    requires
        from <= chars@.len(),
    ensures
        from <= i <= chars@.len(),
        forall|k: int| from <= k < i ==> chars@[k] != c,
        i < chars@.len() ==> chars@[i as int] == c,
{
    let mut i = from;
    while i < chars.len()
        invariant
            from <= i <= chars@.len(),
            forall|k: int| from <= k < i ==> chars@[k] != c,
        decreases chars@.len() - i,
    {
        if chars[i] == c {
            return i;
        }
        i = i + 1;
    }
    i
}

/// A line with a trailing carriage return loses it; any other line is kept
/// whole.
pub open spec fn strip_cr(s: Seq<char>) -> Seq<char> {
    if s.len() > 0 && s.last() == '\r' {
        s.drop_last()
    } else {
        s
    }
}

/// The lines of `s` when `cur` has been read so far on the current line:
/// each newline ends a line, a final fragment counts only if non-empty.
pub open spec fn lines_acc(s: Seq<char>, cur: Seq<char>) -> Seq<Seq<char>>
    decreases s.len(),
{
    if s.len() == 0 {
        if cur.len() == 0 {
            Seq::empty()
        } else {
            seq![strip_cr(cur)]
        }
    } else if s[0] == '\n' {
        seq![strip_cr(cur)] + lines_acc(s.drop_first(), Seq::empty())
    } else {
        lines_acc(s.drop_first(), cur.push(s[0]))
    }
}

/// The lines of an input blob, in order, without their line endings.
pub open spec fn lines_of(s: Seq<char>) -> Seq<Seq<char>> {
    lines_acc(s, Seq::empty())
}

fn finish_line(cur: Vec<char>) -> (r: Vec<char>)
    ensures
        r@ == strip_cr(cur@),
{
    let mut v = cur;
    if v.len() > 0 && v[v.len() - 1] == '\r' {
        let ghost pre = v@;
        v.pop();
        proof {
            assert(v@ =~= strip_cr(pre));
        }
    }
    v
}

/// Split an input blob into its lines.
pub fn split_lines(s: &str) -> (r: Vec<Vec<char>>)
    ensures
        r@.map_values(|line: Vec<char>| line@) == lines_of(s@),
{
    let n = s.unicode_len();
    let mut r: Vec<Vec<char>> = Vec::new();
    let mut cur: Vec<char> = Vec::new();
    proof {
        assert(s@.skip(0) =~= s@);
        assert(cur@ =~= Seq::<char>::empty());
        assert(r@.map_values(|line: Vec<char>| line@) + lines_acc(s@, cur@) =~= lines_acc(
            s@,
            cur@,
        ));
    }
    for i in 0..n
        invariant
            n == s@.len(),
            lines_of(s@) == r@.map_values(|line: Vec<char>| line@) + lines_acc(
                s@.skip(i as int),
                cur@,
            ),
    {
        let c = s.get_char(i);
        proof {
            assert(s@.skip(i as int)[0] == s@[i as int]);
            assert(s@.skip(i as int).drop_first() =~= s@.skip(i + 1));
        }
        if c == '\n' {
            let done = finish_line(cur);
            cur = Vec::new();
            proof {
                let m = r@.map_values(|line: Vec<char>| line@);
                assert(r@.push(done).map_values(|line: Vec<char>| line@) =~= m.push(done@));
                assert(m + (seq![done@] + lines_acc(s@.skip(i + 1), cur@)) =~= m.push(done@)
                    + lines_acc(s@.skip(i + 1), cur@));
            }
            r.push(done);
        } else {
            cur.push(c);
        }
    }
    proof {
        assert(s@.skip(n as int) =~= Seq::<char>::empty());
    }
    if cur.len() > 0 {
        let done = finish_line(cur);
        proof {
            let m = r@.map_values(|line: Vec<char>| line@);
            assert(r@.push(done).map_values(|line: Vec<char>| line@) =~= m.push(done@));
            assert(m + seq![done@] =~= m.push(done@));
        }
        r.push(done);
    }
    r
}

/// Split an already-decoded input blob into its lines.
pub fn split_lines_vec(chars: &Vec<char>) -> (r: Vec<Vec<char>>)
    ensures
        r@.map_values(|line: Vec<char>| line@) == lines_of(chars@),
{
    let n = chars.len();
    let mut r: Vec<Vec<char>> = Vec::new();
    let mut cur: Vec<char> = Vec::new();
    proof {
        assert(chars@.skip(0) =~= chars@);
        assert(cur@ =~= Seq::<char>::empty());
        assert(r@.map_values(|line: Vec<char>| line@) + lines_acc(chars@, cur@) =~= lines_acc(
            chars@,
            cur@,
        ));
    }
    for i in 0..n
        invariant
            n == chars@.len(),
            lines_of(chars@) == r@.map_values(|line: Vec<char>| line@) + lines_acc(
                chars@.skip(i as int),
                cur@,
            ),
    {
        let c = chars[i];
        proof {
            assert(chars@.skip(i as int)[0] == chars@[i as int]);
            assert(chars@.skip(i as int).drop_first() =~= chars@.skip(i + 1));
        }
        if c == '\n' {
            let done = finish_line(cur);
            cur = Vec::new();
            proof {
                let m = r@.map_values(|line: Vec<char>| line@);
                assert(r@.push(done).map_values(|line: Vec<char>| line@) =~= m.push(done@));
                assert(m + (seq![done@] + lines_acc(chars@.skip(i + 1), cur@)) =~= m.push(done@)
                    + lines_acc(chars@.skip(i + 1), cur@));
            }
            r.push(done);
        } else {
            cur.push(c);
        }
    }
    proof {
        assert(chars@.skip(n as int) =~= Seq::<char>::empty());
    }
    if cur.len() > 0 {
        let done = finish_line(cur);
        proof {
            let m = r@.map_values(|line: Vec<char>| line@);
            assert(r@.push(done).map_values(|line: Vec<char>| line@) =~= m.push(done@));
            assert(m + seq![done@] =~= m.push(done@));
        }
        r.push(done);
    }
    r
}

/// The lines of a byte blob, viewed as characters.
pub open spec fn byte_lines(s: Seq<u8>) -> Seq<Seq<char>> {
    lines_of(s.map_values(|b: u8| b as char))
}

/// Relies on String::push: appends the given character to the end of the
/// string.
#[verifier::external_body]
pub fn push_char(s: &mut String, c: char)
    ensures
        final(s)@ == old(s)@.push(c),
{
    s.push(c);
}

/// Decode an ASCII byte blob into its characters.
pub fn bytes_to_chars(s: &[u8]) -> (r: Vec<char>)
    ensures
        r@ == s@.map_values(|b: u8| b as char),
{
    let mut r: Vec<char> = Vec::new();
    for i in 0..s.len()
        invariant
            r@ == s@.subrange(0, i as int).map_values(|b: u8| b as char),
    {
        let b = s[i];
        proof {
            assert(s@.subrange(0, i + 1).drop_last() =~= s@.subrange(0, i as int));
            assert(s@.subrange(0, i + 1).map_values(|bb: u8| bb as char) =~= s@.subrange(
                0,
                i as int,
            ).map_values(|bb: u8| bb as char).push(s@[i as int] as char));
        }
        r.push(b as char);
    }
    proof {
        assert(s@.subrange(0, s@.len() as int) =~= s@);
    }
    r
}

} // verus!
