//! Splitting input text into physical lines and joining output lines with a
//! normalized `\n` terminator. A `\r` that closes a `\r\n` terminator is
//! stripped; a final line terminator is optional and produces no empty line.

use vstd::prelude::*;

verus! {

/// Position of the first `\n` in `s`, or `s.len()` if there is none.
pub open spec fn first_nl(s: Seq<char>) -> nat
    decreases s.len(),
{
    if s.len() == 0 {
        0
    } else if s[0] == '\n' {
        0
    } else {
        1 + first_nl(s.drop_first())
    }
}

/// A line with a trailing `\r` (the remains of a `\r\n` terminator) removed.
pub open spec fn chomp_cr(l: Seq<char>) -> Seq<char> {
    if l.len() > 0 && l.last() == '\r' {
        l.drop_last()
    } else {
        l
    }
}

/// The physical lines of `s`: split at `\n`, a trailing `\r` stripped from
/// each terminated line, and no empty final line for a trailing terminator.
pub open spec fn split_lines_spec(s: Seq<char>) -> Seq<Seq<char>>
    decreases s.len(),
{
    if s.len() == 0 {
        Seq::empty()
    } else {
        let i = first_nl(s);
        if i >= s.len() {
            seq![s]
        } else {
            seq![chomp_cr(s.take(i as int))] + split_lines_spec(s.skip(i + 1 as int))
        }
    }
}

/// The lines of `ls` joined with a single `\n` between each two.
pub open spec fn join_lines(ls: Seq<Seq<char>>) -> Seq<char>
    decreases ls.len(),
{
    if ls.len() == 0 {
        Seq::empty()
    } else if ls.len() == 1 {
        ls[0]
    } else {
        join_lines(ls.drop_last()) + seq!['\n'] + ls.last()
    }
}

/// `first_nl` names the first `\n`: everything before it is not `\n`, and it
/// is in bounds exactly when `s` contains a `\n` at all.
pub proof fn lemma_first_nl(s: Seq<char>)
    ensures
        first_nl(s) <= s.len(),
        forall|j: int| 0 <= j < first_nl(s) ==> s[j] != '\n',
        first_nl(s) < s.len() ==> s[first_nl(s) as int] == '\n',
    decreases s.len(),
{
    if s.len() == 0 {
    } else if s[0] == '\n' {
    } else {
        lemma_first_nl(s.drop_first());
        assert forall|j: int| 0 <= j < first_nl(s) implies s[j] != '\n' by {
            if j > 0 {
                assert(s.drop_first()[j - 1] == s[j]);
            }
        }
        if first_nl(s) < s.len() {
            assert(s.drop_first()[first_nl(s.drop_first()) as int] == s[first_nl(s) as int]);
        }
    }
}

/// If nothing before `k` is a `\n` and `k` is the end or a `\n`, then `k`
/// is `first_nl(s)`.
pub proof fn lemma_first_nl_is(s: Seq<char>, k: int)
    requires
        0 <= k <= s.len(),
        forall|j: int| 0 <= j < k ==> s[j] != '\n',
        k == s.len() || s[k] == '\n',
    ensures
        first_nl(s) == k,
    decreases s.len(),
{
    if s.len() == 0 {
    } else if k == 0 {
        lemma_first_nl(s);
    } else {
        assert(s[0] != '\n');
        assert forall|j: int| 0 <= j < k - 1 implies s.drop_first()[j] != '\n' by {
            assert(s.drop_first()[j] == s[j + 1]);
        }
        if k < s.len() {
            assert(s.drop_first()[k - 1] == s[k]);
        }
        lemma_first_nl_is(s.drop_first(), k - 1);
    }
}

/// Split `content` into its physical lines.
pub fn split_lines(content: &str) -> (r: Vec<String>)
    ensures
        r.deep_view() == split_lines_spec(content@),
{
    let n: usize = content.unicode_len();
    let mut r: Vec<String> = Vec::new();
    let mut start: usize = 0;
    let mut i: usize = 0;
    proof {
        assert(content@.skip(0) =~= content@);
    }
    while i < n
        invariant
            start <= i <= n,
            n == content@.len(),
            forall|j: int| start <= j < i ==> content@[j] != '\n',
            split_lines_spec(content@) == r.deep_view() + split_lines_spec(
                content@.skip(start as int),
            ),
        decreases n - i,
    {
        let c = content.get_char(i);
        if c == '\n' {
            let piece: &str = if i > start && content.get_char(i - 1) == '\r' {
                content.substring_char(start, i - 1)
            } else {
                content.substring_char(start, i)
            };
            proof {
                let rest = content@.skip(start as int);
                assert forall|j: int| 0 <= j < i - start implies rest[j] != '\n' by {
                    assert(rest[j] == content@[start + j]);
                }
                assert(rest[i - start] == content@[i as int]);
                lemma_first_nl_is(rest, i - start);
                assert(rest.take(i - start) =~= content@.subrange(start as int, i as int));
                assert(rest.skip(i - start + 1) =~= content@.skip(i + 1));
                assert(piece@ =~= chomp_cr(content@.subrange(start as int, i as int)));
                assert(split_lines_spec(rest) == seq![chomp_cr(rest.take(i - start))]
                    + split_lines_spec(rest.skip(i - start + 1)));
            }
            let ghost r_prev = r.deep_view();
            let owned = String::from_str(piece);
            r.push(owned);
            proof {
                assert(r.deep_view() =~= r_prev + seq![piece@]);
            }
            start = i + 1;
        }
        i = i + 1;
    }
    if start < n {
        let piece = content.substring_char(start, n);
        proof {
            let rest = content@.skip(start as int);
            assert forall|j: int| 0 <= j < rest.len() implies rest[j] != '\n' by {
                assert(rest[j] == content@[start + j]);
            }
            lemma_first_nl_is(rest, rest.len() as int);
            assert(piece@ =~= rest);
        }
        let ghost r_prev = r.deep_view();
        let owned = String::from_str(piece);
        r.push(owned);
        proof {
            assert(r.deep_view() =~= r_prev + seq![piece@]);
        }
    } else {
        proof {
            assert(content@.skip(start as int) =~= Seq::<char>::empty());
        }
    }
    proof {
        assert(r.deep_view() =~= split_lines_spec(content@));
    }
    r
}

/// Join `lines` with a `\n` between each two.
pub fn join_with_newlines(lines: &Vec<String>) -> (r: String)
    ensures
        r@ == join_lines(lines.deep_view()),
{
    let mut r = String::new();
    let n: usize = lines.len();
    let mut i: usize = 0;
    while i < n
        invariant
            i <= n,
            n == lines.len(),
            r@ == join_lines(lines.deep_view().take(i as int)),
        decreases n - i,
    {
        if i > 0 {
            r.append("\n");
        }
        r.append(lines[i].as_str());
        proof {
            reveal_strlit("\n");
            assert("\n"@ =~= seq!['\n']);
            let lv = lines.deep_view();
            assert(lv.take(i + 1).drop_last() =~= lv.take(i as int));
            assert(lv.take(i + 1).last() == lv[i as int]);
            assert(lv[i as int] == lines@[i as int]@);
            if i == 0 {
                assert(r@ =~= lv[0]);
                assert(join_lines(lv.take(1)) == lv.take(1)[0]);
                assert(lv.take(1)[0] == lv[0]);
            } else {
                assert(join_lines(lv.take(i + 1)) == join_lines(lv.take(i as int)) + seq!['\n']
                    + lv[i as int]);
            }
        }
        i = i + 1;
    }
    proof {
        assert(lines.deep_view().take(n as int) =~= lines.deep_view());
    }
    r
}

} // verus!
