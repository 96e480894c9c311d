//! Character-level scanning: whitespace, trimming, prefix, substring and
//! whitespace-delimited-word tests, all stated over `Seq<char>` and
//! implemented by verified loops over `&str`.

use vstd::prelude::*;

verus! {

/// Whitespace as this library understands it: the ASCII whitespace
/// characters. Trimming and word splitting are defined over this set.
pub open spec fn is_ws_char(c: char) -> bool {
    c == ' ' || c == '\t' || c == '\n' || c == '\r' || c == '\u{0B}' || c == '\u{0C}'
}

/// `s` with leading whitespace removed.
pub open spec fn ltrim(s: Seq<char>) -> Seq<char>
    decreases s.len(),
{
    if s.len() > 0 && is_ws_char(s[0]) {
        ltrim(s.drop_first())
    } else {
        s
    }
}

/// `s` with trailing whitespace removed.
pub open spec fn rtrim(s: Seq<char>) -> Seq<char>
    decreases s.len(),
{
    if s.len() > 0 && is_ws_char(s.last()) {
        rtrim(s.drop_last())
    } else {
        s
    }
}

/// `s` with whitespace removed from both ends.
pub open spec fn trim_spec(s: Seq<char>) -> Seq<char> {
    rtrim(ltrim(s))
}

/// `w` is a prefix of `s`.
pub open spec fn starts_with_spec(s: Seq<char>, w: Seq<char>) -> bool {
    w.len() <= s.len() && s.take(w.len() as int) == w
}

/// `w` occurs in `s` starting at position `i`.
pub open spec fn occurs_at(s: Seq<char>, w: Seq<char>, i: int) -> bool {
    0 <= i && i + w.len() <= s.len() && s.subrange(i, i + w.len()) == w
}

/// `w` occurs somewhere in `s` as a raw substring.
pub open spec fn has_substr(s: Seq<char>, w: Seq<char>) -> bool {
    exists|i: int| occurs_at(s, w, i)
}

/// `w` occurs in `s` at position `i` bounded by whitespace or the ends of
/// `s`: an occurrence as a separate whitespace-delimited word.
pub open spec fn word_at(s: Seq<char>, w: Seq<char>, i: int) -> bool {
    &&& occurs_at(s, w, i)
    &&& (i == 0 || is_ws_char(s[i - 1]))
    &&& (i + w.len() == s.len() || is_ws_char(s[i + w.len()]))
}

/// `w` occurs in `s` as a separate whitespace-delimited word.
pub open spec fn has_word(s: Seq<char>, w: Seq<char>) -> bool {
    exists|i: int| word_at(s, w, i)
}

/// How often `c` occurs in `s`.
pub open spec fn count_char(s: Seq<char>, c: char) -> nat
    decreases s.len(),
{
    if s.len() == 0 {
        0
    } else {
        count_char(s.drop_last(), c) + if s.last() == c {
            1nat
        } else {
            0nat
        }
    }
}

/// Whether `s` contains the character `c`.
pub fn char_in(s: &str, c: char) -> (r: bool)
    ensures
        r == s@.contains(c),
{
    let n: usize = s.unicode_len();
    let mut i: usize = 0;
    while i < n
        invariant
            i <= n,
            n == s@.len(),
            forall|j: int| 0 <= j < i ==> s@[j] != c,
        decreases n - i,
    {
        if s.get_char(i) == c {
            return true;
        }
        i = i + 1;
    }
    false
}

/// Whether `s` ends with the character `c`.
pub fn ends_with_char(s: &str, c: char) -> (r: bool)
    ensures
        r == (s@.len() > 0 && s@.last() == c),
{
    let n: usize = s.unicode_len();
    if n == 0 {
        false
    } else {
        s.get_char(n - 1) == c
    }
}

/// Whether `w` is a prefix of `s`.
pub fn starts_with_word(s: &str, w: &Vec<char>) -> (r: bool)
    ensures
        r == starts_with_spec(s@, w@),
{
    let n: usize = s.unicode_len();
    let m: usize = w.len();
    if n < m {
        proof {
            assert(!starts_with_spec(s@, w@));
        }
        return false;
    }
    let mut k: usize = 0;
    while k < m
        invariant
            k <= m <= n,
            n == s@.len(),
            m == w@.len(),
            forall|l: int| 0 <= l < k ==> s@[l] == w@[l],
        decreases m - k,
    {
        if s.get_char(k) != w[k] {
            proof {
                assert(s@.take(m as int)[k as int] != w@[k as int]);
            }
            return false;
        }
        k = k + 1;
    }
    proof {
        assert(s@.take(m as int) =~= w@);
    }
    true
}

/// Whether `w` occurs in `s` starting at `i`; a helper for the substring
/// and word scans.
fn matches_at(s: &str, w: &Vec<char>, i: usize) -> (r: bool)
    requires
        i + w@.len() <= s@.len(),
    ensures
        r == occurs_at(s@, w@, i as int),
{
    let n: usize = s.unicode_len();
    let m: usize = w.len();
    let mut k: usize = 0;
    while k < m
        invariant
            k <= m,
            m == w@.len(),
            n == s@.len(),
            i + m <= n,
            forall|l: int| 0 <= l < k ==> s@[i + l] == w@[l],
        decreases m - k,
    {
        if s.get_char(i + k) != w[k] {
            proof {
                assert(s@.subrange(i as int, i + m)[k as int] != w@[k as int]);
            }
            return false;
        }
        k = k + 1;
    }
    proof {
        assert(s@.subrange(i as int, i + m) =~= w@);
    }
    true
}

/// Whether `w` occurs somewhere in `s` as a raw substring.
pub fn substr_in(s: &str, w: &Vec<char>) -> (r: bool)
    requires
        w@.len() >= 1,
    ensures
        r == has_substr(s@, w@),
{
    let n: usize = s.unicode_len();
    let m: usize = w.len();
    if n < m {
        proof {
            assert(forall|i: int| !occurs_at(s@, w@, i));
        }
        return false;
    }
    let mut i: usize = 0;
    while i <= n - m
        invariant
            n == s@.len(),
            m == w@.len(),
            1 <= m <= n,
            i <= n - m + 1,
            forall|j: int| 0 <= j < i ==> !occurs_at(s@, w@, j),
        decreases n - i,
    {
        if matches_at(s, w, i) {
            return true;
        }
        i = i + 1;
    }
    proof {
        assert(forall|j: int| occurs_at(s@, w@, j) ==> 0 <= j <= n - m);
    }
    false
}

/// Whether `w` occurs in `s` as a separate whitespace-delimited word.
pub fn word_in(s: &str, w: &Vec<char>) -> (r: bool)
    requires
        w@.len() >= 1,
    ensures
        r == has_word(s@, w@),
{
    let n: usize = s.unicode_len();
    let m: usize = w.len();
    if n < m {
        proof {
            assert(forall|i: int| !word_at(s@, w@, i));
        }
        return false;
    }
    let mut i: usize = 0;
    while i <= n - m
        invariant
            n == s@.len(),
            m == w@.len(),
            1 <= m <= n,
            i <= n - m + 1,
            forall|j: int| 0 <= j < i ==> !word_at(s@, w@, j),
        decreases n - i,
    {
        let left_ok = if i == 0 {
            true
        } else {
            is_ws(s.get_char(i - 1))
        };
        if left_ok {
            let right_ok = if i + m == n {
                true
            } else {
                is_ws(s.get_char(i + m))
            };
            if right_ok && matches_at(s, w, i) {
                proof {
                    assert(word_at(s@, w@, i as int));
                }
                return true;
            }
        }
        i = i + 1;
    }
    proof {
        assert(forall|j: int| word_at(s@, w@, j) ==> 0 <= j <= n - m);
    }
    false
}

/// Whether `c` is whitespace; the executable face of [`is_ws_char`].
pub fn is_ws(c: char) -> (r: bool)
    ensures
        r == is_ws_char(c),
{
    c == ' ' || c == '\t' || c == '\n' || c == '\r' || c == '\u{0B}' || c == '\u{0C}'
}

/// First index of `line` past its leading whitespace.
fn scan_ws_start(line: &str) -> (a: usize)
    ensures
        a <= line@.len(),
        ltrim(line@) == line@.skip(a as int),
{
    let n: usize = line.unicode_len();
    let mut a: usize = 0;
    proof {
        assert(line@.skip(0) =~= line@);
    }
    while a < n
        invariant
            a <= n,
            n == line@.len(),
            ltrim(line@) == ltrim(line@.skip(a as int)),
        decreases n - a,
    {
        let c = line.get_char(a);
        proof {
            assert(line@.skip(a as int)[0] == line@[a as int]);
        }
        if !is_ws(c) {
            return a;
        }
        proof {
            assert(line@.skip(a as int).drop_first() =~= line@.skip(a + 1));
        }
        a = a + 1;
    }
    proof {
        assert(line@.skip(n as int) =~= Seq::<char>::empty());
    }
    a
}

/// Index of the end of `line@.skip(a)` before its trailing whitespace.
fn scan_ws_end(line: &str, a: usize) -> (b: usize)
    requires
        a <= line@.len(),
    ensures
        a <= b <= line@.len(),
        rtrim(line@.skip(a as int)) == line@.subrange(a as int, b as int),
{
    let n: usize = line.unicode_len();
    let mut b: usize = n;
    proof {
        assert(line@.subrange(a as int, n as int) =~= line@.skip(a as int));
    }
    while b > a
        invariant
            a <= b <= n,
            n == line@.len(),
            rtrim(line@.skip(a as int)) == rtrim(line@.subrange(a as int, b as int)),
        decreases b,
    {
        let c = line.get_char(b - 1);
        proof {
            assert(line@.subrange(a as int, b as int).last() == line@[b - 1]);
        }
        if !is_ws(c) {
            return b;
        }
        proof {
            assert(line@.subrange(a as int, b as int).drop_last() =~= line@.subrange(
                a as int,
                b - 1,
            ));
        }
        b = b - 1;
    }
    proof {
        assert(line@.subrange(a as int, a as int) =~= Seq::<char>::empty());
    }
    b
}

/// The trimmed content of `line`: whitespace stripped from both ends.
pub fn trimmed<'a>(line: &'a str) -> (r: &'a str)
    ensures
        r@ == trim_spec(line@),
{
    let a = scan_ws_start(line);
    let b = scan_ws_end(line, a);
    line.substring_char(a, b)
}

} // verus!
