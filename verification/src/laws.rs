//! Properties of the transform, proved once and for all inputs: brace
//! balance, pass-through invariance, no double bracing, idempotence on
//! fully braced input, and the end-of-input flush.

use vstd::prelude::*;

verus! {

use crate::chars::{count_char, is_ws_char, ltrim, rtrim, starts_with_spec, trim_spec};
use crate::lines::{chomp_cr, first_nl, join_lines, lemma_first_nl, split_lines_spec};
use crate::parser::{
    classify_spec,
    ends_with,
    closer_body,
    closer_line_of,
    closers_for,
    flush_closers,
    indent_of,
    is_pass_through,
    opened_line,
    opens_scope_spec,
    popped,
    spaces,
    transform_lines,
    transform_spec,
    Category,
    FrameView,
    ScopeKind,
};

/// How often `c` occurs over all of `ls`.
pub open spec fn count_in_lines(ls: Seq<Seq<char>>, c: char) -> nat
    decreases ls.len(),
{
    if ls.len() == 0 {
        0
    } else {
        count_char(ls[0], c) + count_in_lines(ls.drop_first(), c)
    }
}

/// The pass-through lines of `ls`, in order.
pub open spec fn pass_lines(ls: Seq<Seq<char>>) -> Seq<Seq<char>>
    decreases ls.len(),
{
    if ls.len() == 0 {
        Seq::empty()
    } else {
        (if is_pass_through(ls[0]) {
            seq![ls[0]]
        } else {
            Seq::empty()
        }) + pass_lines(ls.drop_first())
    }
}

proof fn lemma_count_one(x: char, c: char)
    ensures
        count_char(seq![x], c) == if x == c {
            1nat
        } else {
            0nat
        },
{
    assert(count_char(Seq::<char>::empty(), c) == 0);
    assert(seq![x].drop_last() =~= Seq::<char>::empty());
}

proof fn lemma_count_lines_one(l: Seq<char>, c: char)
    ensures
        count_in_lines(seq![l], c) == count_char(l, c),
{
    assert(count_in_lines(Seq::<Seq<char>>::empty(), c) == 0);
    assert(seq![l].drop_first() =~= Seq::<Seq<char>>::empty());
}

proof fn lemma_count_char_add(a: Seq<char>, b: Seq<char>, c: char)
    ensures
        count_char(a + b, c) == count_char(a, c) + count_char(b, c),
    decreases b.len(),
{
    if b.len() == 0 {
        assert(a + b =~= a);
    } else {
        assert((a + b).drop_last() =~= a + b.drop_last());
        assert((a + b).last() == b.last());
        lemma_count_char_add(a, b.drop_last(), c);
    }
}

proof fn lemma_count_in_lines_add(x: Seq<Seq<char>>, y: Seq<Seq<char>>, c: char)
    ensures
        count_in_lines(x + y, c) == count_in_lines(x, c) + count_in_lines(y, c),
    decreases x.len(),
{
    if x.len() == 0 {
        assert(x + y =~= y);
    } else {
        assert((x + y).drop_first() =~= x.drop_first() + y);
        assert((x + y)[0] == x[0]);
        lemma_count_in_lines_add(x.drop_first(), y, c);
    }
}

proof fn lemma_pass_lines_add(x: Seq<Seq<char>>, y: Seq<Seq<char>>)
    ensures
        pass_lines(x + y) == pass_lines(x) + pass_lines(y),
    decreases x.len(),
{
    if x.len() == 0 {
        assert(x + y =~= y);
        assert(pass_lines(x) + pass_lines(y) =~= pass_lines(y));
    } else {
        assert((x + y).drop_first() =~= x.drop_first() + y);
        assert((x + y)[0] == x[0]);
        lemma_pass_lines_add(x.drop_first(), y);
        if is_pass_through(x[0]) {
            assert(seq![x[0]] + (pass_lines(x.drop_first()) + pass_lines(y)) =~= (seq![x[0]]
                + pass_lines(x.drop_first())) + pass_lines(y));
        } else {
            assert(Seq::<Seq<char>>::empty() + (pass_lines(x.drop_first()) + pass_lines(y)) =~= (
            Seq::<Seq<char>>::empty() + pass_lines(x.drop_first())) + pass_lines(y));
        }
    }
}

/// Every character of `spaces(n)` is a space.
proof fn lemma_spaces_shape(n: nat)
    ensures
        spaces(n).len() == n,
        forall|j: int| 0 <= j < n ==> spaces(n)[j] == ' ',
    decreases n,
{
    if n > 0 {
        lemma_spaces_shape((n - 1) as nat);
    }
}

proof fn lemma_count_spaces(n: nat, c: char)
    requires
        c != ' ',
    ensures
        count_char(spaces(n), c) == 0,
    decreases n,
{
    if n > 0 {
        lemma_count_spaces((n - 1) as nat, c);
        lemma_count_char_add(spaces((n - 1) as nat), seq![' '], c);
        lemma_count_one(' ', c);
    }
}

/// A synthetic closing line holds exactly one `}` and no `{`.
proof fn lemma_closer_counts(f: FrameView)
    ensures
        count_char(closer_line_of(f), '{') == 0,
        count_char(closer_line_of(f), '}') == 1,
{
    lemma_count_spaces(f.indent, '{');
    lemma_count_spaces(f.indent, '}');
    lemma_count_char_add(spaces(f.indent), closer_body(f.kind), '{');
    lemma_count_char_add(spaces(f.indent), closer_body(f.kind), '}');
    match f.kind {
        ScopeKind::Ordinary => {
            lemma_count_one('}', '{');
            lemma_count_one('}', '}');
        },
        ScopeKind::Lambda => {
            assert(seq!['}', ';'].drop_last() =~= seq!['}']);
            lemma_count_one('}', '{');
            lemma_count_one('}', '}');
            assert(count_char(seq!['}', ';'], '{') == 0);
            assert(count_char(seq!['}', ';'], '}') == 1);
        },
    }
}

proof fn lemma_flush_counts(stack: Seq<FrameView>)
    ensures
        count_in_lines(flush_closers(stack), '{') == 0,
        count_in_lines(flush_closers(stack), '}') == stack.len(),
    decreases stack.len(),
{
    if stack.len() > 0 {
        lemma_flush_counts(stack.drop_last());
        lemma_closer_counts(stack.last());
        lemma_count_in_lines_add(
            seq![closer_line_of(stack.last())],
            flush_closers(stack.drop_last()),
            '{',
        );
        lemma_count_in_lines_add(
            seq![closer_line_of(stack.last())],
            flush_closers(stack.drop_last()),
            '}',
        );
        lemma_count_lines_one(closer_line_of(stack.last()), '{');
        lemma_count_lines_one(closer_line_of(stack.last()), '}');
    }
}

proof fn lemma_closers_counts(stack: Seq<FrameView>, d: nat)
    ensures
        popped(stack, d).len() <= stack.len(),
        count_in_lines(closers_for(stack, d), '{') == 0,
        count_in_lines(closers_for(stack, d), '}') == stack.len() - popped(stack, d).len(),
    decreases stack.len(),
{
    if stack.len() > 0 && stack.last().indent >= d {
        lemma_closers_counts(stack.drop_last(), d);
        lemma_closer_counts(stack.last());
        lemma_count_in_lines_add(
            seq![closer_line_of(stack.last())],
            closers_for(stack.drop_last(), d),
            '{',
        );
        lemma_count_in_lines_add(
            seq![closer_line_of(stack.last())],
            closers_for(stack.drop_last(), d),
            '}',
        );
        lemma_count_lines_one(closer_line_of(stack.last()), '{');
        lemma_count_lines_one(closer_line_of(stack.last()), '}');
    }
}

proof fn lemma_opened_counts(l: Seq<char>)
    ensures
        count_char(opened_line(l), '{') == count_char(l, '{') + 1,
        count_char(opened_line(l), '}') == count_char(l, '}'),
{
    lemma_count_char_add(l, seq![' ', '{'], '{');
    lemma_count_char_add(l, seq![' ', '{'], '}');
    assert(seq![' ', '{'].drop_last() =~= seq![' ']);
    lemma_count_one(' ', '{');
    lemma_count_one(' ', '}');
    assert(count_char(seq![' ', '{'], '{') == 1);
    assert(count_char(seq![' ', '{'], '}') == 0);
}

/// The balance invariant of the engine: relative to the remaining input,
/// the output's `}` surplus exceeds its `{` surplus by exactly the number
/// of still-open frames.
proof fn lemma_transform_balance(lines: Seq<Seq<char>>, i: int, stack: Seq<FrameView>)
    requires
        0 <= i <= lines.len(),
    ensures
        count_in_lines(transform_lines(lines, i, stack), '}') + count_in_lines(
            lines.skip(i),
            '{',
        ) == count_in_lines(transform_lines(lines, i, stack), '{') + count_in_lines(
            lines.skip(i),
            '}',
        ) + stack.len(),
    decreases lines.len() - i,
{
    if i >= lines.len() {
        lemma_flush_counts(stack);
        assert(lines.skip(i) =~= Seq::<Seq<char>>::empty());
    } else {
        let l = lines[i];
        let t = trim_spec(l);
        assert(lines.skip(i) =~= seq![l] + lines.skip(i + 1));
        lemma_count_in_lines_add(seq![l], lines.skip(i + 1), '{');
        lemma_count_in_lines_add(seq![l], lines.skip(i + 1), '}');
        lemma_count_lines_one(l, '{');
        lemma_count_lines_one(l, '}');
        if !(classify_spec(t) is Code) {
            lemma_transform_balance(lines, i + 1, stack);
            lemma_count_in_lines_add(seq![l], transform_lines(lines, i + 1, stack), '{');
            lemma_count_in_lines_add(seq![l], transform_lines(lines, i + 1, stack), '}');
        } else {
            let d = indent_of(l);
            let rest = popped(stack, d);
            lemma_closers_counts(stack, d);
            match opens_scope_spec(t) {
                Some(k) => {
                    let stack1 = rest.push(FrameView { indent: d, kind: k });
                    lemma_transform_balance(lines, i + 1, stack1);
                    lemma_opened_counts(l);
                    let tail = transform_lines(lines, i + 1, stack1);
                    let mid = seq![opened_line(l)] + tail;
                    lemma_count_in_lines_add(closers_for(stack, d), mid, '{');
                    lemma_count_in_lines_add(closers_for(stack, d), mid, '}');
                    lemma_count_in_lines_add(seq![opened_line(l)], tail, '{');
                    lemma_count_in_lines_add(seq![opened_line(l)], tail, '}');
                    lemma_count_lines_one(opened_line(l), '{');
                    lemma_count_lines_one(opened_line(l), '}');
                    assert(closers_for(stack, d) + seq![opened_line(l)] + tail =~= closers_for(
                        stack,
                        d,
                    ) + mid);
                },
                None => {
                    lemma_transform_balance(lines, i + 1, rest);
                    let tail = transform_lines(lines, i + 1, rest);
                    let mid = seq![l] + tail;
                    lemma_count_in_lines_add(closers_for(stack, d), mid, '{');
                    lemma_count_in_lines_add(closers_for(stack, d), mid, '}');
                    lemma_count_in_lines_add(seq![l], tail, '{');
                    lemma_count_in_lines_add(seq![l], tail, '}');
                    lemma_count_lines_one(l, '{');
                    lemma_count_lines_one(l, '}');
                    assert(closers_for(stack, d) + seq![l] + tail =~= closers_for(stack, d) + mid);
                },
            }
        }
    }
}

proof fn lemma_count_chomp(l: Seq<char>, c: char)
    requires
        c != '\r',
    ensures
        count_char(chomp_cr(l), c) == count_char(l, c),
{
}

proof fn lemma_count_split(s: Seq<char>, c: char)
    requires
        c != '\n',
        c != '\r',
    ensures
        count_char(s, c) == count_in_lines(split_lines_spec(s), c),
    decreases s.len(),
{
    if s.len() == 0 {
    } else {
        lemma_first_nl(s);
        let i = first_nl(s) as int;
        if i >= s.len() {
            assert(split_lines_spec(s) =~= seq![s]);
            lemma_count_lines_one(s, c);
        } else {
            assert(s =~= s.take(i) + seq![s[i]] + s.skip(i + 1));
            assert(s[i] == '\n');
            lemma_count_char_add(s.take(i) + seq![s[i]], s.skip(i + 1), c);
            lemma_count_char_add(s.take(i), seq![s[i]], c);
            lemma_count_one('\n', c);
            lemma_count_chomp(s.take(i), c);
            lemma_count_split(s.skip(i + 1), c);
            lemma_count_in_lines_add(
                seq![chomp_cr(s.take(i))],
                split_lines_spec(s.skip(i + 1)),
                c,
            );
            lemma_count_lines_one(chomp_cr(s.take(i)), c);
        }
    }
}

proof fn lemma_count_join(ls: Seq<Seq<char>>, c: char)
    requires
        c != '\n',
    ensures
        count_char(join_lines(ls), c) == count_in_lines(ls, c),
    decreases ls.len(),
{
    if ls.len() == 0 {
    } else if ls.len() == 1 {
        lemma_count_lines_one(ls[0], c);
        assert(ls =~= seq![ls[0]]);
    } else {
        lemma_count_join(ls.drop_last(), c);
        lemma_count_char_add(join_lines(ls.drop_last()) + seq!['\n'], ls.last(), c);
        lemma_count_char_add(join_lines(ls.drop_last()), seq!['\n'], c);
        lemma_count_one('\n', c);
        assert(ls =~= ls.drop_last() + seq![ls.last()]);
        lemma_count_in_lines_add(ls.drop_last(), seq![ls.last()], c);
        lemma_count_lines_one(ls.last(), c);
    }
}

/// Brace balance: the transform preserves the surplus of `{` over `}`. Each
/// frame pushed adds exactly one `{`, and each frame is closed by exactly one
/// emitted `}` by the time the input ends; in particular, brace-balanced
/// input yields brace-balanced output.
pub proof fn lemma_brace_surplus_preserved(content: Seq<char>)
    ensures
        count_char(transform_spec(content), '{') + count_char(content, '}') == count_char(
            transform_spec(content),
            '}',
        ) + count_char(content, '{'),
        count_char(content, '{') == count_char(content, '}') ==> count_char(
            transform_spec(content),
            '{',
        ) == count_char(transform_spec(content), '}'),
{
    let lines = split_lines_spec(content);
    lemma_transform_balance(lines, 0, Seq::empty());
    assert(lines.skip(0) =~= lines);
    lemma_count_split(content, '{');
    lemma_count_split(content, '}');
    lemma_count_join(transform_lines(lines, 0, Seq::empty()), '{');
    lemma_count_join(transform_lines(lines, 0, Seq::empty()), '}');
}

proof fn lemma_pass_one(l: Seq<char>)
    ensures
        is_pass_through(l) ==> pass_lines(seq![l]) == seq![l],
        !is_pass_through(l) ==> pass_lines(seq![l]) == Seq::<Seq<char>>::empty(),
{
    assert(pass_lines(Seq::<Seq<char>>::empty()) == Seq::<Seq<char>>::empty());
    assert(seq![l].drop_first() =~= Seq::<Seq<char>>::empty());
    if is_pass_through(l) {
        assert(seq![l] + Seq::<Seq<char>>::empty() =~= seq![l]);
    } else {
        assert(Seq::<Seq<char>>::empty() + Seq::<Seq<char>>::empty() =~= Seq::<
            Seq<char>,
        >::empty());
    }
}

/// Prepending all-whitespace text does not change the left trim.
proof fn lemma_ltrim_ws_prefix(p: Seq<char>, b: Seq<char>)
    requires
        forall|j: int| 0 <= j < p.len() ==> is_ws_char(p[j]),
    ensures
        ltrim(p + b) == ltrim(b),
    decreases p.len(),
{
    if p.len() == 0 {
        assert(p + b =~= b);
    } else {
        assert((p + b)[0] == p[0]);
        if p.len() + b.len() > 0 {
            assert((p + b).drop_first() =~= p.drop_first() + b);
            assert(forall|j: int|
                0 <= j < p.drop_first().len() ==> is_ws_char(p.drop_first()[j]));
            lemma_ltrim_ws_prefix(p.drop_first(), b);
        }
    }
}

/// Appending to text whose left trim is nonempty extends the left trim.
proof fn lemma_ltrim_append(a: Seq<char>, b: Seq<char>)
    requires
        ltrim(a).len() > 0,
    ensures
        ltrim(a + b) == ltrim(a) + b,
    decreases a.len(),
{
    if a.len() > 0 && is_ws_char(a[0]) {
        assert((a + b)[0] == a[0]);
        assert((a + b).drop_first() =~= a.drop_first() + b);
        lemma_ltrim_append(a.drop_first(), b);
    } else {
        assert(a.len() > 0);
        assert((a + b)[0] == a[0]);
        assert(ltrim(a + b) == a + b);
    }
}

/// The right trim is a prefix, and everything past it is whitespace.
proof fn lemma_rtrim_shape(v: Seq<char>)
    ensures
        rtrim(v).len() <= v.len(),
        rtrim(v) == v.take(rtrim(v).len() as int),
        forall|j: int| rtrim(v).len() <= j < v.len() ==> is_ws_char(v[j]),
    decreases v.len(),
{
    if v.len() > 0 && is_ws_char(v.last()) {
        lemma_rtrim_shape(v.drop_last());
        assert(v.drop_last().take(rtrim(v).len() as int) =~= v.take(rtrim(v).len() as int));
        assert(forall|j: int|
            rtrim(v).len() <= j < v.len() - 1 ==> v.drop_last()[j] == v[j]);
    } else {
        assert(v.take(v.len() as int) =~= v);
    }
}

/// A synthetic closing line is a Code line, never pass-through.
proof fn lemma_closer_is_code(f: FrameView)
    ensures
        !is_pass_through(closer_line_of(f)),
{
    lemma_spaces_shape(f.indent);
    lemma_ltrim_ws_prefix(spaces(f.indent), closer_body(f.kind));
    let b = closer_body(f.kind);
    assert(b[0] == '}');
    assert(!is_ws_char('}'));
    assert(ltrim(b) == b);
    match f.kind {
        ScopeKind::Ordinary => {
            assert(b.last() == '}');
            assert(rtrim(b) == b);
        },
        ScopeKind::Lambda => {
            assert(b.last() == ';');
            assert(!is_ws_char(';'));
            assert(rtrim(b) == b);
        },
    }
    assert(trim_spec(closer_line_of(f)) == b);
    assert(b.len() < 5);
    assert(classify_spec(b) is Code);
}

/// A Code line stays a Code line when a space and `{` are appended.
proof fn lemma_opened_is_code(l: Seq<char>)
    requires
        classify_spec(trim_spec(l)) is Code,
    ensures
        classify_spec(trim_spec(opened_line(l))) is Code,
{
    let v = ltrim(l);
    let w = rtrim(v);
    assert(w == trim_spec(l));
    assert(w.len() > 0);
    lemma_rtrim_shape(v);
    assert(v.len() > 0);
    lemma_ltrim_append(l, seq![' ', '{']);
    let u = v + seq![' ', '{'];
    assert(ltrim(opened_line(l)) == u);
    assert(u.last() == '{');
    assert(!is_ws_char('{'));
    assert(rtrim(u) == u);
    assert(trim_spec(opened_line(l)) == u);
    assert(forall|j: int| 0 <= j < w.len() ==> u[j] == v[j] && v[j] == w[j]);
    assert(is_ws_char(u[w.len() as int])) by {
        if w.len() < v.len() {
            assert(u[w.len() as int] == v[w.len() as int]);
        } else {
            assert(u[w.len() as int] == ' ');
        }
    }
    assert(u.len() > 0);
    assert(u[0] == w[0]);
    assert(u[0] != '#');
    assert(!(u.len() >= 2 && u[0] == '/' && u[1] == '/')) by {
        if u[0] == '/' {
            if w.len() >= 2 {
                assert(u[1] == w[1]);
            } else {
                assert(u[1] == u[w.len() as int]);
                assert(!is_ws_char('/'));
            }
        }
    }
    let ks = seq!['u', 's', 'i', 'n', 'g'];
    assert(!starts_with_spec(u, ks)) by {
        assert(!is_ws_char('u') && !is_ws_char('s') && !is_ws_char('i') && !is_ws_char('n')
            && !is_ws_char('g'));
        if starts_with_spec(u, ks) {
            if w.len() >= 5 {
                assert(forall|j: int| 0 <= j < 5 ==> w.take(5)[j] == u.take(5)[j]);
                assert(w.take(5) =~= u.take(5));
                assert(starts_with_spec(w, ks));
            } else {
                assert(u.take(5)[w.len() as int] == u[w.len() as int]);
                assert(u.take(5) == ks);
                assert(is_ws_char(ks[w.len() as int]));
            }
        }
    }
    let kt = seq!['t', 'y', 'p', 'e', 'd', 'e', 'f'];
    assert(!starts_with_spec(u, kt)) by {
        assert(!is_ws_char('t') && !is_ws_char('y') && !is_ws_char('p') && !is_ws_char('e')
            && !is_ws_char('d') && !is_ws_char('f'));
        if starts_with_spec(u, kt) {
            if w.len() >= 7 {
                assert(forall|j: int| 0 <= j < 7 ==> w.take(7)[j] == u.take(7)[j]);
                assert(w.take(7) =~= u.take(7));
                assert(starts_with_spec(w, kt));
            } else {
                assert(u.take(7)[w.len() as int] == u[w.len() as int]);
                assert(u.take(7) == kt);
                assert(is_ws_char(kt[w.len() as int]));
            }
        }
    }
    assert(classify_spec(u) is Code);
}

proof fn lemma_flush_no_pass(stack: Seq<FrameView>)
    ensures
        pass_lines(flush_closers(stack)) == Seq::<Seq<char>>::empty(),
    decreases stack.len(),
{
    if stack.len() > 0 {
        lemma_flush_no_pass(stack.drop_last());
        lemma_closer_is_code(stack.last());
        lemma_pass_lines_add(seq![closer_line_of(stack.last())], flush_closers(stack.drop_last()));
        lemma_pass_one(closer_line_of(stack.last()));
        assert(Seq::<Seq<char>>::empty() + Seq::<Seq<char>>::empty() =~= Seq::<
            Seq<char>,
        >::empty());
    }
}

proof fn lemma_closers_no_pass(stack: Seq<FrameView>, d: nat)
    ensures
        pass_lines(closers_for(stack, d)) == Seq::<Seq<char>>::empty(),
    decreases stack.len(),
{
    if stack.len() > 0 && stack.last().indent >= d {
        lemma_closers_no_pass(stack.drop_last(), d);
        lemma_closer_is_code(stack.last());
        lemma_pass_lines_add(
            seq![closer_line_of(stack.last())],
            closers_for(stack.drop_last(), d),
        );
        lemma_pass_one(closer_line_of(stack.last()));
        assert(Seq::<Seq<char>>::empty() + Seq::<Seq<char>>::empty() =~= Seq::<
            Seq<char>,
        >::empty());
    }
}

/// The engine's output carries exactly the input's pass-through lines.
proof fn lemma_transform_pass(lines: Seq<Seq<char>>, i: int, stack: Seq<FrameView>)
    requires
        0 <= i <= lines.len(),
    ensures
        pass_lines(transform_lines(lines, i, stack)) == pass_lines(lines.skip(i)),
    decreases lines.len() - i,
{
    if i >= lines.len() {
        lemma_flush_no_pass(stack);
        assert(lines.skip(i) =~= Seq::<Seq<char>>::empty());
    } else {
        let l = lines[i];
        let t = trim_spec(l);
        assert(lines.skip(i) =~= seq![l] + lines.skip(i + 1));
        lemma_pass_lines_add(seq![l], lines.skip(i + 1));
        lemma_pass_one(l);
        if !(classify_spec(t) is Code) {
            lemma_transform_pass(lines, i + 1, stack);
            lemma_pass_lines_add(seq![l], transform_lines(lines, i + 1, stack));
        } else {
            let d = indent_of(l);
            let rest = popped(stack, d);
            lemma_closers_no_pass(stack, d);
            match opens_scope_spec(t) {
                Some(k) => {
                    let stack1 = rest.push(FrameView { indent: d, kind: k });
                    lemma_transform_pass(lines, i + 1, stack1);
                    let tail = transform_lines(lines, i + 1, stack1);
                    let mid = seq![opened_line(l)] + tail;
                    lemma_pass_lines_add(closers_for(stack, d), mid);
                    lemma_pass_lines_add(seq![opened_line(l)], tail);
                    lemma_opened_is_code(l);
                    lemma_pass_one(opened_line(l));
                    assert(closers_for(stack, d) + seq![opened_line(l)] + tail =~= closers_for(
                        stack,
                        d,
                    ) + mid);
                    assert(Seq::<Seq<char>>::empty() + (Seq::<Seq<char>>::empty() + pass_lines(
                        tail,
                    )) =~= pass_lines(tail));
                    assert(Seq::<Seq<char>>::empty() + pass_lines(lines.skip(i + 1))
                        =~= pass_lines(lines.skip(i + 1)));
                },
                None => {
                    lemma_transform_pass(lines, i + 1, rest);
                    let tail = transform_lines(lines, i + 1, rest);
                    let mid = seq![l] + tail;
                    lemma_pass_lines_add(closers_for(stack, d), mid);
                    lemma_pass_lines_add(seq![l], tail);
                    assert(closers_for(stack, d) + seq![l] + tail =~= closers_for(stack, d) + mid);
                    assert(Seq::<Seq<char>>::empty() + (Seq::<Seq<char>>::empty() + pass_lines(
                        tail,
                    )) =~= pass_lines(tail));
                    assert(Seq::<Seq<char>>::empty() + pass_lines(lines.skip(i + 1))
                        =~= pass_lines(lines.skip(i + 1)));
                },
            }
        }
    }
}

/// Pass-through invariance: the output's pass-through lines are exactly the
/// input's, byte for byte and in their original relative order; scope
/// bookkeeping neither touches nor reorders them, and every synthetic line
/// is a Code line.
pub proof fn lemma_pass_through_invariance(content: Seq<char>)
    ensures
        pass_lines(transform_lines(split_lines_spec(content), 0, Seq::empty())) == pass_lines(
            split_lines_spec(content),
        ),
{
    let lines = split_lines_spec(content);
    lemma_transform_pass(lines, 0, Seq::empty());
    assert(lines.skip(0) =~= lines);
}

/// No double bracing: a Code line whose trimmed content already ends with
/// `{` opens no scope; the transform emits it verbatim and pushes no frame.
pub proof fn lemma_no_double_brace(lines: Seq<Seq<char>>, i: int, stack: Seq<FrameView>)
    requires
        0 <= i < lines.len(),
        classify_spec(trim_spec(lines[i])) is Code,
        ends_with(trim_spec(lines[i]), '{'),
    ensures
        opens_scope_spec(trim_spec(lines[i])) is None,
        transform_lines(lines, i, stack) == closers_for(stack, indent_of(lines[i])) + seq![
            lines[i],
        ] + transform_lines(lines, i + 1, popped(stack, indent_of(lines[i]))),
{
}

proof fn lemma_no_openers_identity(lines: Seq<Seq<char>>, i: int)
    requires
        0 <= i <= lines.len(),
        forall|j: int|
            0 <= j < lines.len() ==> #[trigger] opens_scope_spec(trim_spec(lines[j])) is None,
    ensures
        transform_lines(lines, i, Seq::empty()) == lines.skip(i),
    decreases lines.len() - i,
{
    if i >= lines.len() {
        assert(lines.skip(i) =~= Seq::<Seq<char>>::empty());
        assert(flush_closers(Seq::empty()) == Seq::<Seq<char>>::empty());
    } else {
        let l = lines[i];
        lemma_no_openers_identity(lines, i + 1);
        assert(lines.skip(i) =~= seq![l] + lines.skip(i + 1));
        if classify_spec(trim_spec(l)) is Code {
            let d = indent_of(l);
            assert(popped(Seq::empty(), d) =~= Seq::<FrameView>::empty());
            assert(closers_for(Seq::empty(), d) == Seq::<Seq<char>>::empty());
            assert(opens_scope_spec(trim_spec(l)) is None);
            assert(Seq::<Seq<char>>::empty() + seq![l] + lines.skip(i + 1) =~= seq![l]
                + lines.skip(i + 1));
        }
    }
}

/// Idempotence on fully braced input: if no line of the input triggers the
/// scope-opener detection (as in text whose blocks are all already
/// brace-delimited), the transform returns its input, up to normalized line
/// terminators.
pub proof fn lemma_idempotent_on_braced(content: Seq<char>)
    requires
        forall|j: int|
            0 <= j < split_lines_spec(content).len() ==> #[trigger] opens_scope_spec(
                trim_spec(split_lines_spec(content)[j]),
            ) is None,
    ensures
        transform_spec(content) == join_lines(split_lines_spec(content)),
{
    let lines = split_lines_spec(content);
    lemma_no_openers_identity(lines, 0);
    assert(lines.skip(0) =~= lines);
}

/// End-of-input flush: when the input ends with frames still open, every
/// one of them is closed, innermost (deepest) first, by its own kind's
/// terminator at its origin indentation.
pub proof fn lemma_end_of_input_flush(lines: Seq<Seq<char>>, stack: Seq<FrameView>)
    ensures
        transform_lines(lines, lines.len() as int, stack) == flush_closers(stack),
        flush_closers(stack).len() == stack.len(),
        forall|j: int|
            0 <= j < stack.len() ==> flush_closers(stack)[j] == closer_line_of(
                stack[stack.len() - 1 - j],
            ),
    decreases stack.len(),
{
    if stack.len() > 0 {
        lemma_end_of_input_flush(lines, stack.drop_last());
        assert forall|j: int| 0 <= j < stack.len() implies flush_closers(stack)[j]
            == closer_line_of(stack[stack.len() - 1 - j]) by {
            let f = flush_closers(stack);
            let rest = flush_closers(stack.drop_last());
            assert(f == seq![closer_line_of(stack.last())] + rest);
            if j == 0 {
                assert(f[0] == closer_line_of(stack.last()));
            } else {
                assert(f[j] == rest[j - 1]);
                assert(stack.drop_last()[stack.len() - 1 - j] == stack[stack.len() - 1 - j]);
            }
        }
    }
}

/// Bottom to top, the origin indentations on a stack are non-decreasing.
pub open spec fn stack_monotone(stack: Seq<FrameView>) -> bool {
    forall|j: int, k: int|
        0 <= j <= k < stack.len() ==> stack[j].indent <= stack[k].indent
}

proof fn lemma_popped_is_prefix(stack: Seq<FrameView>, d: nat)
    ensures
        popped(stack, d).len() <= stack.len(),
        popped(stack, d) == stack.take(popped(stack, d).len() as int),
        popped(stack, d).len() > 0 ==> popped(stack, d).last().indent < d,
    decreases stack.len(),
{
    if stack.len() > 0 && stack.last().indent >= d {
        lemma_popped_is_prefix(stack.drop_last(), d);
        assert(stack.drop_last().take(popped(stack, d).len() as int) =~= stack.take(
            popped(stack, d).len() as int,
        ));
    } else {
        assert(stack.take(stack.len() as int) =~= stack);
    }
}

/// The indent-stack invariant: closing every frame at indentation `d` or
/// deeper and then pushing a frame at `d` keeps the stack's origin
/// indentations non-decreasing from bottom to top.
pub proof fn lemma_stack_monotone_preserved(stack: Seq<FrameView>, d: nat, k: ScopeKind)
    requires
        stack_monotone(stack),
    ensures
        stack_monotone(popped(stack, d)),
        stack_monotone(popped(stack, d).push(FrameView { indent: d, kind: k })),
{
    lemma_popped_is_prefix(stack, d);
    let p = popped(stack, d);
    assert(forall|j: int| 0 <= j < p.len() ==> p[j] == stack[j]);
    let q = p.push(FrameView { indent: d, kind: k });
    assert forall|j: int, l: int| 0 <= j <= l < q.len() implies q[j].indent <= q[l].indent by {
        if l < p.len() {
        } else {
            assert(q[l].indent == d);
            if j < p.len() {
                assert(p[j].indent <= p.last().indent);
            }
        }
    }
}

} // verus!
