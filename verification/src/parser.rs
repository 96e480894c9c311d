//! The indentation-to-brace transform engine: line classification, scope
//! opener detection, the indent stack, and the line transformer.

use vstd::prelude::*;

verus! {

use crate::is_indent_char;
use crate::chars::{
    char_in,
    ends_with_char,
    has_substr,
    has_word,
    starts_with_spec,
    starts_with_word,
    substr_in,
    trim_spec,
    trimmed,
    word_in,
};
use crate::lines::{join_lines, join_with_newlines, split_lines, split_lines_spec};

/// The kind of lexical scope a line opens: an ordinary block is closed with
/// `}`, a lambda-expression block with `};`.
#[derive(Clone, Copy, PartialEq, Eq, Structural, Debug)]
pub enum ScopeKind {
    Ordinary,
    Lambda,
}

/// The category of a physical line. Everything but `Code` passes through
/// the transform unchanged and leaves the indent stack untouched.
#[derive(Clone, Copy, PartialEq, Eq, Structural, Debug)]
pub enum Category {
    Blank,
    Directive,
    LineComment,
    UsingOrTypedef,
    Code,
}

/// One open, not-yet-closed lexical scope: the indentation of the line that
/// opened it, and its kind.
#[derive(Clone, Copy, PartialEq, Eq, Structural, Debug)]
pub struct ScopeFrame {
    pub indent: usize,
    pub kind: ScopeKind,
}

/// The mathematical model of a [`ScopeFrame`].
pub struct FrameView {
    pub indent: nat,
    pub kind: ScopeKind,
}

impl View for ScopeFrame {
    type V = FrameView;

    open spec fn view(&self) -> FrameView {
        FrameView { indent: self.indent as nat, kind: self.kind }
    }
}

/// Number of leading space/tab characters of a line.
pub open spec fn indent_of(line: Seq<char>) -> nat
    decreases line.len(),
{
    if line.len() == 0 || !is_indent_char(line[0]) {
        0
    } else {
        1 + indent_of(line.drop_first())
    }
}

/// The category of a line, judged from its trimmed content alone.
pub open spec fn classify_spec(t: Seq<char>) -> Category {
    if t.len() == 0 {
        Category::Blank
    } else if t[0] == '#' {
        Category::Directive
    } else if t.len() >= 2 && t[0] == '/' && t[1] == '/' {
        Category::LineComment
    } else if starts_with_spec(t, seq!['u', 's', 'i', 'n', 'g']) || starts_with_spec(
        t,
        seq!['t', 'y', 'p', 'e', 'd', 'e', 'f'],
    ) {
        Category::UsingOrTypedef
    } else {
        Category::Code
    }
}

/// A pass-through line: any category but `Code`.
pub open spec fn is_pass_through(l: Seq<char>) -> bool {
    !(classify_spec(trim_spec(l)) is Code)
}

/// `t` ends with the character `c`.
pub open spec fn ends_with(t: Seq<char>, c: char) -> bool {
    t.len() > 0 && t.last() == c
}

/// The lambda heuristic: the line contains `[` and `]` somewhere and ends
/// with `)`.
pub open spec fn is_lambda_spec(t: Seq<char>) -> bool {
    t.contains('[') && t.contains(']') && ends_with(t, ')')
}

/// One of the block-introducing keywords occurs as a separate
/// whitespace-delimited word.
pub open spec fn contains_keyword(t: Seq<char>) -> bool {
    ||| has_word(t, seq!['i', 'f'])
    ||| has_word(t, seq!['e', 'l', 's', 'e'])
    ||| has_word(t, seq!['f', 'o', 'r'])
    ||| has_word(t, seq!['w', 'h', 'i', 'l', 'e'])
    ||| has_word(t, seq!['d', 'o'])
    ||| has_word(t, seq!['s', 'w', 'i', 't', 'c', 'h'])
    ||| has_word(t, seq!['t', 'r', 'y'])
    ||| has_word(t, seq!['c', 'a', 't', 'c', 'h'])
    ||| has_word(t, seq!['c', 'l', 'a', 's', 's'])
    ||| has_word(t, seq!['s', 't', 'r', 'u', 'c', 't'])
    ||| has_word(t, seq!['e', 'n', 'u', 'm'])
    ||| has_word(t, seq!['n', 'a', 'm', 'e', 's', 'p', 'a', 'c', 'e'])
    ||| has_word(t, seq!['e', 'x', 't', 'e', 'r', 'n'])
}

/// The function-definition heuristic: parentheses somewhere in the line and
/// none of the loop/branch names anywhere, even as a raw substring.
pub open spec fn is_function_heuristic(t: Seq<char>) -> bool {
    &&& t.contains('(')
    &&& t.contains(')')
    &&& !has_substr(t, seq!['i', 'f'])
    &&& !has_substr(t, seq!['w', 'h', 'i', 'l', 'e'])
    &&& !has_substr(t, seq!['f', 'o', 'r'])
    &&& !has_substr(t, seq!['s', 'w', 'i', 't', 'c', 'h'])
}

/// Whether a Code line's trimmed content opens a scope, and of which kind.
/// A line that already ends with `{` never opens one.
pub open spec fn opens_scope_spec(t: Seq<char>) -> Option<ScopeKind> {
    if ends_with(t, '{') {
        None
    } else if is_lambda_spec(t) {
        Some(ScopeKind::Lambda)
    } else if ends_with(t, ')') || ends_with(t, ':') || contains_keyword(t)
        || is_function_heuristic(t) {
        Some(ScopeKind::Ordinary)
    } else {
        None
    }
}

/// The indentation-to-brace transformer. It holds no state of its own: all
/// state is local to one call of [`BracelessParser::process`].
pub struct BracelessParser;

impl BracelessParser {
    pub fn new() -> Self {
        BracelessParser
    }

    /// Count of leading space/tab characters (spaces and tabs count alike,
    /// with no tab-width expansion).
    pub fn get_indent_level(&self, line: &str) -> (r: usize)
        ensures
            r == indent_of(line@),
            r <= line@.len(),
    {
        let n: usize = line.unicode_len();
        let mut i: usize = 0;
        proof {
            assert(line@.skip(0) =~= line@);
        }
        while i < n
            invariant
                i <= n,
                n == line@.len(),
                indent_of(line@) == i + indent_of(line@.skip(i as int)),
            decreases n - i,
        {
            let c = line.get_char(i);
            proof {
                assert(line@.skip(i as int)[0] == line@[i as int]);
            }
            if !(c == ' ' || c == '\t') {
                proof {
                    assert(indent_of(line@.skip(i as int)) == 0);
                }
                return i;
            }
            proof {
                assert(line@.skip(i as int).drop_first() =~= line@.skip(i + 1));
            }
            i = i + 1;
        }
        proof {
            assert(line@.skip(n as int) =~= Seq::<char>::empty());
        }
        i
    }

    /// The lambda heuristic, on a trimmed line.
    pub fn is_lambda(&self, line: &str) -> (r: bool)
        ensures
            r == is_lambda_spec(line@),
    {
        char_in(line, '[') && char_in(line, ']') && ends_with_char(line, ')')
    }

    /// Whether the trimmed content `line` opens a scope, and of which kind.
    pub fn should_open_scope(&self, line: &str) -> (r: Option<ScopeKind>)
        ensures
            r == opens_scope_spec(line@),
    {
        if ends_with_char(line, '{') {
            return None;
        }
        if self.is_lambda(line) {
            return Some(ScopeKind::Lambda);
        }
        let w_if: Vec<char> = vec!['i', 'f'];
        let w_while: Vec<char> = vec!['w', 'h', 'i', 'l', 'e'];
        let w_for: Vec<char> = vec!['f', 'o', 'r'];
        let w_switch: Vec<char> = vec!['s', 'w', 'i', 't', 'c', 'h'];
        let ends_with_paren = ends_with_char(line, ')');
        let ends_with_colon = ends_with_char(line, ':');
        let keyword = word_in(line, &w_if) || word_in(line, &vec!['e', 'l', 's', 'e']) || word_in(
            line,
            &w_for,
        ) || word_in(line, &w_while) || word_in(line, &vec!['d', 'o']) || word_in(line, &w_switch)
            || word_in(line, &vec!['t', 'r', 'y']) || word_in(line, &vec!['c', 'a', 't', 'c', 'h'])
            || word_in(line, &vec!['c', 'l', 'a', 's', 's']) || word_in(
            line,
            &vec!['s', 't', 'r', 'u', 'c', 't'],
        ) || word_in(line, &vec!['e', 'n', 'u', 'm']) || word_in(
            line,
            &vec!['n', 'a', 'm', 'e', 's', 'p', 'a', 'c', 'e'],
        ) || word_in(line, &vec!['e', 'x', 't', 'e', 'r', 'n']);
        let is_function = char_in(line, '(') && char_in(line, ')') && !substr_in(line, &w_if)
            && !substr_in(line, &w_while) && !substr_in(line, &w_for) && !substr_in(
            line,
            &w_switch,
        );
        if ends_with_paren || ends_with_colon || keyword || is_function {
            Some(ScopeKind::Ordinary)
        } else {
            None
        }
    }
}

/// `n` spaces.
pub open spec fn spaces(n: nat) -> Seq<char>
    decreases n,
{
    if n == 0 {
        Seq::empty()
    } else {
        spaces((n - 1) as nat) + seq![' ']
    }
}

/// The terminator a scope of kind `k` is closed with.
pub open spec fn closer_body(k: ScopeKind) -> Seq<char> {
    match k {
        ScopeKind::Ordinary => seq!['}'],
        ScopeKind::Lambda => seq!['}', ';'],
    }
}

/// The synthetic closing line for frame `f`: its origin indentation in
/// spaces, then the terminator of its kind.
pub open spec fn closer_line_of(f: FrameView) -> Seq<char> {
    spaces(f.indent) + closer_body(f.kind)
}

/// The stack after closing every frame whose origin indentation is not less
/// than the current line's indentation `d`.
pub open spec fn popped(stack: Seq<FrameView>, d: nat) -> Seq<FrameView>
    decreases stack.len(),
{
    if stack.len() > 0 && stack.last().indent >= d {
        popped(stack.drop_last(), d)
    } else {
        stack
    }
}

/// The closing lines emitted before a Code line at indentation `d`,
/// innermost frame first.
pub open spec fn closers_for(stack: Seq<FrameView>, d: nat) -> Seq<Seq<char>>
    decreases stack.len(),
{
    if stack.len() > 0 && stack.last().indent >= d {
        seq![closer_line_of(stack.last())] + closers_for(stack.drop_last(), d)
    } else {
        Seq::empty()
    }
}

/// The closing lines emitted at end of input, innermost frame first.
pub open spec fn flush_closers(stack: Seq<FrameView>) -> Seq<Seq<char>>
    decreases stack.len(),
{
    if stack.len() > 0 {
        seq![closer_line_of(stack.last())] + flush_closers(stack.drop_last())
    } else {
        Seq::empty()
    }
}

/// A scope-opening line as it is emitted: the original line with a space
/// and a `{` appended.
pub open spec fn opened_line(l: Seq<char>) -> Seq<char> {
    l + seq![' ', '{']
}

/// The mathematical model of an executable frame stack.
pub open spec fn stack_view(s: Seq<ScopeFrame>) -> Seq<FrameView> {
    s.map_values(|f: ScopeFrame| f@)
}

/// The output lines produced from `lines[i..]` with `stack` open: the heart
/// of the transform. Pass-through lines are copied; a Code line first closes
/// every frame at indentation not below its own, is emitted (with a space
/// and `{` appended if it opens a scope), and possibly pushes a frame; at
/// end of input the remaining frames are flushed, innermost first.
pub open spec fn transform_lines(lines: Seq<Seq<char>>, i: int, stack: Seq<FrameView>) -> Seq<
    Seq<char>,
>
    decreases lines.len() - i,
{
    if i < 0 || i >= lines.len() {
        flush_closers(stack)
    } else {
        let l = lines[i];
        let t = trim_spec(l);
        if !(classify_spec(t) is Code) {
            seq![l] + transform_lines(lines, i + 1, stack)
        } else {
            let d = indent_of(l);
            let rest = popped(stack, d);
            match opens_scope_spec(t) {
                Some(k) => closers_for(stack, d) + seq![opened_line(l)] + transform_lines(
                    lines,
                    i + 1,
                    rest.push(FrameView { indent: d, kind: k }),
                ),
                None => closers_for(stack, d) + seq![l] + transform_lines(lines, i + 1, rest),
            }
        }
    }
}

/// The whole transform: split into lines, run the engine over them with an
/// empty stack, and join the output lines with a single newline.
pub open spec fn transform_spec(content: Seq<char>) -> Seq<char> {
    join_lines(transform_lines(split_lines_spec(content), 0, Seq::empty()))
}

/// Build the synthetic closing line for `f`.
fn closer_string(f: &ScopeFrame) -> (r: String)
    ensures
        r@ == closer_line_of(f@),
{
    let mut s = String::new();
    let mut j: usize = 0;
    while j < f.indent
        invariant
            j <= f.indent,
            s@ == spaces(j as nat),
        decreases f.indent - j,
    {
        s.append(" ");
        proof {
            reveal_strlit(" ");
            assert(" "@ =~= seq![' ']);
        }
        j = j + 1;
    }
    match f.kind {
        ScopeKind::Ordinary => {
            s.append("}");
            proof {
                reveal_strlit("}");
                assert("}"@ =~= seq!['}']);
            }
        },
        ScopeKind::Lambda => {
            s.append("};");
            proof {
                reveal_strlit("};");
                assert("};"@ =~= seq!['}', ';']);
            }
        },
    }
    s
}

/// Classify a trimmed line.
pub fn classify_line(t: &str) -> (r: Category)
    ensures
        r == classify_spec(t@),
{
    let n: usize = t.unicode_len();
    if n == 0 {
        return Category::Blank;
    }
    let c0 = t.get_char(0);
    if c0 == '#' {
        return Category::Directive;
    }
    if n >= 2 && c0 == '/' && t.get_char(1) == '/' {
        return Category::LineComment;
    }
    if starts_with_word(t, &vec!['u', 's', 'i', 'n', 'g']) || starts_with_word(
        t,
        &vec!['t', 'y', 'p', 'e', 'd', 'e', 'f'],
    ) {
        return Category::UsingOrTypedef;
    }
    Category::Code
}

impl BracelessParser {
    /// Transform one file's whole content. This is a total function over any
    /// text: every line of the result is pinned down by [`transform_spec`].
    pub fn process(&self, content: &str) -> (r: String)
        ensures
            r@ == transform_spec(content@),
    {
        let lines: Vec<String> = split_lines(content);
        let ghost lv: Seq<Seq<char>> = lines.deep_view();
        let ghost total: Seq<Seq<char>> = transform_lines(lv, 0, Seq::empty());
        let n: usize = lines.len();
        let mut out: Vec<String> = Vec::new();
        let mut stack: Vec<ScopeFrame> = Vec::new();
        let mut i: usize = 0;
        proof {
            assert(stack_view(stack@) =~= Seq::<FrameView>::empty());
            assert(out.deep_view() =~= Seq::<Seq<char>>::empty());
            assert(out.deep_view() + transform_lines(lv, 0, stack_view(stack@)) =~= total);
        }
        while i < n
            invariant
                i <= n,
                n == lines.len(),
                lv == lines.deep_view(),
                lv.len() == n,
                total == transform_lines(lv, 0, Seq::<FrameView>::empty()),
                out.deep_view() + transform_lines(lv, i as int, stack_view(stack@)) == total,
            decreases n - i,
        {
            let line_ref: &String = &lines[i];
            proof {
                assert(line_ref@ == lv[i as int]);
            }
            let ghost l = lv[i as int];
            let t: &str = trimmed(line_ref.as_str());
            let cat = classify_line(t);
            if cat == Category::Code {
                let d: usize = self.get_indent_level(line_ref.as_str());
                let ghost sv0 = stack_view(stack@);
                let ghost out0 = out.deep_view();
                while stack.len() > 0 && stack[stack.len() - 1].indent >= d
                    invariant
                        out.deep_view() + closers_for(stack_view(stack@), d as nat) == out0
                            + closers_for(sv0, d as nat),
                        popped(stack_view(stack@), d as nat) == popped(sv0, d as nat),
                    decreases stack.len(),
                {
                    let ghost svc = stack_view(stack@);
                    let ghost outc = out.deep_view();
                    let f: ScopeFrame = stack.pop().unwrap();
                    let cl = closer_string(&f);
                    out.push(cl);
                    proof {
                        assert(svc[svc.len() - 1] == f@);
                        assert(stack_view(stack@) =~= svc.drop_last());
                        assert(closers_for(svc, d as nat) == seq![closer_line_of(f@)]
                            + closers_for(svc.drop_last(), d as nat));
                        assert(out.deep_view() =~= outc + seq![cl@]);
                        assert(out.deep_view() + closers_for(stack_view(stack@), d as nat) =~= outc
                            + closers_for(svc, d as nat));
                    }
                }
                proof {
                    let sv = stack_view(stack@);
                    assert(closers_for(sv, d as nat) =~= Seq::<Seq<char>>::empty());
                    assert(out.deep_view() =~= out0 + closers_for(sv0, d as nat));
                    assert(popped(sv0, d as nat) == sv);
                    assert(d as nat == indent_of(l));
                }
                let opt = self.should_open_scope(t);
                match opt {
                    Some(k) => {
                        let ghost out1 = out.deep_view();
                        let ghost sv1 = stack_view(stack@);
                        let opened = line_ref.clone().concat(" {");
                        out.push(opened);
                        stack.push(ScopeFrame { indent: d, kind: k });
                        proof {
                            reveal_strlit(" {");
                            assert(" {"@ =~= seq![' ', '{']);
                            assert(out.deep_view() =~= out1 + seq![opened_line(l)]);
                            assert(stack_view(stack@) =~= sv1.push(
                                FrameView { indent: d as nat, kind: k },
                            ));
                            assert(transform_lines(lv, i as int, sv0) == closers_for(
                                sv0,
                                indent_of(l),
                            ) + seq![opened_line(l)] + transform_lines(
                                lv,
                                i + 1,
                                popped(sv0, indent_of(l)).push(
                                    FrameView { indent: indent_of(l), kind: k },
                                ),
                            ));
                            assert(out.deep_view() + transform_lines(
                                lv,
                                i + 1,
                                stack_view(stack@),
                            ) =~= out0 + transform_lines(lv, i as int, sv0));
                        }
                    },
                    None => {
                        let ghost out1 = out.deep_view();
                        let copy = line_ref.clone();
                        out.push(copy);
                        proof {
                            assert(out.deep_view() =~= out1 + seq![l]);
                            assert(transform_lines(lv, i as int, sv0) == closers_for(
                                sv0,
                                indent_of(l),
                            ) + seq![l] + transform_lines(lv, i + 1, popped(sv0, indent_of(l))));
                            assert(out.deep_view() + transform_lines(
                                lv,
                                i + 1,
                                stack_view(stack@),
                            ) =~= out0 + transform_lines(lv, i as int, sv0));
                        }
                    },
                }
            } else {
                let ghost out1 = out.deep_view();
                let ghost sv = stack_view(stack@);
                let copy = line_ref.clone();
                out.push(copy);
                proof {
                    assert(!(classify_spec(trim_spec(l)) is Code));
                    assert(transform_lines(lv, i as int, sv) == seq![l] + transform_lines(
                        lv,
                        i + 1,
                        sv,
                    ));
                    assert(out.deep_view() =~= out1 + seq![l]);
                    assert(out.deep_view() + transform_lines(lv, i + 1, stack_view(stack@)) =~= out1
                        + transform_lines(lv, i as int, sv));
                }
            }
            i = i + 1;
        }
        proof {
            assert(transform_lines(lv, n as int, stack_view(stack@)) == flush_closers(
                stack_view(stack@),
            ));
        }
        while stack.len() > 0
            invariant
                out.deep_view() + flush_closers(stack_view(stack@)) == total,
            decreases stack.len(),
        {
            let ghost svc = stack_view(stack@);
            let ghost outc = out.deep_view();
            let f: ScopeFrame = stack.pop().unwrap();
            let cl = closer_string(&f);
            out.push(cl);
            proof {
                assert(svc[svc.len() - 1] == f@);
                assert(stack_view(stack@) =~= svc.drop_last());
                assert(flush_closers(svc) == seq![closer_line_of(f@)] + flush_closers(
                    svc.drop_last(),
                ));
                assert(out.deep_view() =~= outc + seq![cl@]);
                assert(out.deep_view() + flush_closers(stack_view(stack@)) =~= outc + flush_closers(
                    svc,
                ));
            }
        }
        proof {
            assert(flush_closers(stack_view(stack@)) =~= Seq::<Seq<char>>::empty());
            assert(out.deep_view() =~= total);
        }
        join_with_newlines(&out)
    }
}

} // verus!
