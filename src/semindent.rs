//! Reading the indentation structure of a text as a tree of lines and nested
//! blocks, and printing such a tree back with a chosen indentation.

use vstd::prelude::*;
use vstd::string::StrSliceExecFns;
use crate::text::{
    chars_of, is_white, is_white_char, line_ranges, lines_of, white_len, lemma_white_len,
};

verus! {

/// One element of a text structure: a line stripped of its indentation, or a
/// block of elements indented one level deeper than their parent.
#[derive(Debug, PartialEq, Eq)]
pub enum Element<'a> {
    Line(&'a str),
    Subtext(TextStructure<'a>),
}

/// A sequence of elements in document order.
pub type TextStructure<'a> = Vec<Element<'a>>;

/// The mathematical shape of a text structure.
pub enum Shape {
    Line(Seq<char>),
    Sub(Seq<Shape>),
}

impl<'a> Element<'a> {
    pub open spec fn shape(self) -> Shape
        decreases self,
    {
        match self {
            Element::Line(s) => Shape::Line(s@),
            Element::Subtext(v) => Shape::Sub(shapes_of(v@)),
        }
    }
}

/// The shapes of a sequence of elements.
pub open spec fn shapes_of<'a>(v: Seq<Element<'a>>) -> Seq<Shape>
    decreases v,
{
    if v.len() == 0 {
        Seq::<Shape>::empty()
    } else {
        shapes_of(v.subrange(0, v.len() - 1)).push(v.last().shape())
    }
}

pub proof fn lemma_shapes_of<'a>(v: Seq<Element<'a>>)
    ensures
        shapes_of(v).len() == v.len(),
        forall|i: int| 0 <= i < v.len() ==> #[trigger] shapes_of(v)[i] == v[i].shape(),
    decreases v.len(),
{
    if v.len() > 0 {
        let w = v.subrange(0, v.len() - 1);
        lemma_shapes_of(w);
        assert forall|i: int| 0 <= i < v.len() implies #[trigger] shapes_of(v)[i]
            == v[i].shape() by {
            if i < v.len() - 1 {
                assert(w[i] == v[i]);
            }
        }
    }
}

/// The printed lines of one element: a line gets the current indentation in
/// front; a block is printed one increment deeper.
pub open spec fn shape_lines(e: Shape, indent: Seq<char>, inc: Seq<char>) -> Seq<Seq<char>>
    decreases e,
{
    match e {
        Shape::Line(s) => seq![indent + s],
        Shape::Sub(v) => forest_lines(v, indent + inc, inc),
    }
}

/// The printed lines of a sequence of elements, in order.
pub open spec fn forest_lines(v: Seq<Shape>, indent: Seq<char>, inc: Seq<char>) -> Seq<
    Seq<char>,
>
    decreases v,
{
    if v.len() == 0 {
        Seq::<Seq<char>>::empty()
    } else {
        forest_lines(v.subrange(0, v.len() - 1), indent, inc) + shape_lines(v.last(), indent, inc)
    }
}

/// Lines joined into a text, each followed by `'\n'`.
pub open spec fn join_lines(ls: Seq<Seq<char>>) -> Seq<char>
    decreases ls.len(),
{
    if ls.len() == 0 {
        Seq::<char>::empty()
    } else {
        join_lines(ls.drop_last()) + ls.last() + seq!['\n']
    }
}

/// The text that printing `v` with base indentation `indent` and increment
/// `inc` gives.
pub open spec fn render(v: Seq<Shape>, indent: Seq<char>, inc: Seq<char>) -> Seq<char> {
    join_lines(forest_lines(v, indent, inc))
}

pub proof fn lemma_join_lines_append(a: Seq<Seq<char>>, b: Seq<Seq<char>>)
    ensures
        join_lines(a + b) == join_lines(a) + join_lines(b),
    decreases b.len(),
{
    if b.len() == 0 {
        assert(a + b == a);
    } else {
        lemma_join_lines_append(a, b.drop_last());
        assert((a + b).drop_last() == a + b.drop_last());
    }
}

/// Printing the first `k + 1` elements is printing the first `k` and then the
/// next one.
proof fn lemma_render_step(v: Seq<Shape>, k: int, indent: Seq<char>, inc: Seq<char>)
    requires
        0 <= k < v.len(),
    ensures
        render(v.subrange(0, k + 1), indent, inc) == render(v.subrange(0, k), indent, inc)
            + join_lines(shape_lines(v[k], indent, inc)),
{
    let w = v.subrange(0, k + 1);
    assert(w.subrange(0, w.len() - 1) == v.subrange(0, k));
    lemma_join_lines_append(
        forest_lines(v.subrange(0, k), indent, inc),
        shape_lines(v[k], indent, inc),
    );
}

impl<'a> Element<'a> {
    fn to_string(&self, indent: &str, inc: &str) -> (r: String)
        ensures
            r@ == join_lines(shape_lines(self.shape(), indent@, inc@)),
        decreases self,
    {
        match self {
            Element::Line(s) => {
                let mut res = String::from_str(indent);
                res.append(s);
                res.append("\n");
                proof {
                    reveal_strlit("\n");
                    assert("\n"@ == seq!['\n']);
                    let ls = shape_lines(self.shape(), indent@, inc@);
                    assert(ls == seq![indent@ + s@]);
                    assert(ls.drop_last() == Seq::<Seq<char>>::empty());
                    assert(join_lines(ls.drop_last()) == Seq::<char>::empty());
                    assert(Seq::<char>::empty() + ls.last() == ls.last());
                    assert(join_lines(ls) == indent@ + s@ + seq!['\n']);
                }
                res
            },
            Element::Subtext(elements) => {
                let mut deeper = String::from_str(indent);
                deeper.append(inc);
                let res = to_string(elements, deeper.as_str(), inc);
                proof {
                    lemma_shapes_of(elements@);
                }
                res
            },
        }
    }
}

/// Prints `strct` with base indentation `indent`, each nested block `inc`
/// deeper than its parent, every line followed by a newline.
pub fn to_string<'a>(strct: &TextStructure<'a>, indent: &str, inc: &str) -> (r: String)
    ensures
        r@ == render(shapes_of(strct@), indent@, inc@),
    decreases strct,
{
    let mut res = String::new();
    let mut k: usize = 0;
    proof {
        lemma_shapes_of(strct@);
        assert(shapes_of(strct@).subrange(0, 0) == Seq::<Shape>::empty());
    }
    while k < strct.len()
        invariant
            k <= strct@.len(),
            shapes_of(strct@).len() == strct@.len(),
            forall|i: int| 0 <= i < strct@.len() ==> #[trigger] shapes_of(strct@)[i] == strct@[i].shape(),
            res@ == render(shapes_of(strct@).subrange(0, k as int), indent@, inc@),
        decreases strct@.len() - k,
    {
        let piece = strct[k].to_string(indent, inc);
        res.append(piece.as_str());
        proof {
            lemma_render_step(shapes_of(strct@), k as int, indent@, inc@);
        }
        k = k + 1;
    }
    proof {
        assert(shapes_of(strct@).subrange(0, strct@.len() as int) == shapes_of(strct@));
    }
    res
}

/// A structural token of an indented text.
pub enum Tok {
    Indent,
    Line(Seq<char>),
    Dedent,
}

#[derive(Debug, Clone, Copy, PartialEq, Eq)]
enum IndentorToken<'a> {
    Indent,
    Line(&'a str),
    Dedent,
}

impl<'a> IndentorToken<'a> {
    spec fn tok(self) -> Tok {
        match self {
            IndentorToken::Indent => Tok::Indent,
            IndentorToken::Line(s) => Tok::Line(s@),
            IndentorToken::Dedent => Tok::Dedent,
        }
    }
}

spec fn toks<'a>(v: Seq<IndentorToken<'a>>) -> Seq<Tok> {
    Seq::new(v.len(), |i: int| v[i].tok())
}

/// `p` is a prefix of `s`.
pub open spec fn is_prefix(p: Seq<char>, s: Seq<char>) -> bool {
    p.len() <= s.len() && s.subrange(0, p.len() as int) == p
}

/// The entries of `stack` that are prefixes of `s`, in order.
pub open spec fn keep_prefixes(stack: Seq<Seq<char>>, s: Seq<char>) -> Seq<Seq<char>>
    decreases stack.len(),
{
    if stack.len() == 0 {
        Seq::<Seq<char>>::empty()
    } else {
        let k = keep_prefixes(stack.drop_last(), s);
        if is_prefix(stack.last(), s) {
            k.push(stack.last())
        } else {
            k
        }
    }
}

pub proof fn lemma_keep_prefixes(stack: Seq<Seq<char>>, s: Seq<char>)
    requires
        stack.len() >= 1,
        stack[0] == Seq::<char>::empty(),
    ensures
        1 <= keep_prefixes(stack, s).len() <= stack.len(),
        keep_prefixes(stack, s)[0] == Seq::<char>::empty(),
        is_prefix(keep_prefixes(stack, s).last(), s),
    decreases stack.len(),
{
    assert(s.subrange(0, 0) == Seq::<char>::empty());
    if stack.len() > 1 {
        lemma_keep_prefixes(stack.drop_last(), s);
    } else {
        assert(stack.drop_last() == Seq::<Seq<char>>::empty());
    }
}

/// `n` dedent tokens.
pub open spec fn dedents(n: nat) -> Seq<Tok> {
    Seq::new(n, |i: int| Tok::Dedent)
}

/// The new indentation stack and the tokens for one line.
pub open spec fn line_step(stack: Seq<Seq<char>>, line: Seq<char>) -> (Seq<Seq<char>>, Seq<Tok>) {
    let w = white_len(line) as int;
    let content = line.subrange(w, line.len() as int);
    let indent = line.subrange(0, w);
    if content.len() == 0 {
        (stack, seq![Tok::Line(Seq::<char>::empty())])
    } else if indent == stack.last() {
        (stack, seq![Tok::Line(content)])
    } else if is_prefix(stack.last(), indent) {
        (stack.push(indent), seq![Tok::Indent, Tok::Line(content)])
    } else {
        let kept = keep_prefixes(stack, indent);
        let d = (stack.len() - kept.len()) as nat;
        if indent != kept.last() {
            (kept.push(indent), dedents(d) + seq![Tok::Indent, Tok::Line(content)])
        } else {
            (kept, dedents(d) + seq![Tok::Line(content)])
        }
    }
}

/// The tokens of `lines`, read with the indentation stack `stack`.
pub open spec fn tokens_from(stack: Seq<Seq<char>>, lines: Seq<Seq<char>>) -> Seq<Tok>
    decreases lines.len(),
{
    if lines.len() == 0 {
        Seq::<Tok>::empty()
    } else {
        let (next, t) = line_step(stack, lines[0]);
        t + tokens_from(next, lines.drop_first())
    }
}

/// The tokens of a text: its lines read from an empty indentation.
pub open spec fn tokens_of(text: Seq<char>) -> Seq<Tok> {
    tokens_from(seq![Seq::<char>::empty()], lines_of(text))
}

pub proof fn lemma_line_step_stack(stack: Seq<Seq<char>>, line: Seq<char>)
    requires
        stack.len() >= 1,
        stack[0] == Seq::<char>::empty(),
    ensures
        line_step(stack, line).0.len() >= 1,
        line_step(stack, line).0[0] == Seq::<char>::empty(),
{
    let w = white_len(line) as int;
    lemma_white_len(line);
    let indent = line.subrange(0, w);
    lemma_keep_prefixes(stack, indent);
}

/// The characters `v[from..to]`.
pub(crate) fn copy_chars(v: &Vec<char>, from: usize, to: usize) -> (r: Vec<char>)
    requires
        from <= to <= v@.len(),
    ensures
        r@ == v@.subrange(from as int, to as int),
{
    let mut r: Vec<char> = Vec::new();
    let mut i: usize = from;
    while i < to
        invariant
            from <= i <= to <= v@.len(),
            r@ == v@.subrange(from as int, i as int),
        decreases to - i,
    {
        r.push(v[i]);
        i = i + 1;
        proof {
            assert(r@ == v@.subrange(from as int, i as int));
        }
    }
    r
}

pub(crate) fn same_chars(a: &Vec<char>, b: &Vec<char>) -> (r: bool)
    ensures
        r == (a@ == b@),
{
    if a.len() != b.len() {
        return false;
    }
    let mut i: usize = 0;
    while i < a.len()
        invariant
            a@.len() == b@.len(),
            i <= a@.len(),
            forall|j: int| 0 <= j < i ==> a@[j] == b@[j],
        decreases a@.len() - i,
    {
        if a[i] != b[i] {
            return false;
        }
        i = i + 1;
    }
    proof {
        assert(a@ == b@);
    }
    true
}

fn starts_with(s: &Vec<char>, p: &Vec<char>) -> (r: bool)
    ensures
        r == is_prefix(p@, s@),
{
    if p.len() > s.len() {
        return false;
    }
    let mut i: usize = 0;
    while i < p.len()
        invariant
            p@.len() <= s@.len(),
            i <= p@.len(),
            forall|j: int| 0 <= j < i ==> s@[j] == p@[j],
        decreases p@.len() - i,
    {
        if s[i] != p[i] {
            proof {
                assert(s@.subrange(0, p@.len() as int)[i as int] != p@[i as int]);
            }
            return false;
        }
        i = i + 1;
    }
    proof {
        assert(s@.subrange(0, p@.len() as int) == p@);
    }
    true
}

proof fn lemma_white_len_exact(s: Seq<char>, n: int)
    requires
        0 <= n <= s.len(),
        forall|m: int| 0 <= m < n ==> is_white(#[trigger] s[m]),
        n == s.len() || !is_white(s[n]),
    ensures
        white_len(s) == n,
    decreases n,
{
    if n > 0 {
        let t = s.drop_first();
        assert forall|m: int| 0 <= m < n - 1 implies is_white(#[trigger] t[m]) by {
            assert(t[m] == s[m + 1]);
        }
        if n < s.len() {
            assert(t[n - 1] == s[n]);
        }
        lemma_white_len_exact(t, n - 1);
    }
}

/// Number of whitespace characters at the start of `v[from..to]`.
fn white_run(v: &Vec<char>, from: usize, to: usize) -> (r: usize)
    requires
        from <= to <= v@.len(),
    ensures
        r == white_len(v@.subrange(from as int, to as int)),
{
    let mut j: usize = from;
    while j < to && is_white_char(v[j])
        invariant
            from <= j <= to <= v@.len(),
            forall|m: int| from <= m < j ==> is_white(#[trigger] v@[m]),
        decreases to - j,
    {
        j = j + 1;
    }
    proof {
        let l = v@.subrange(from as int, to as int);
        assert forall|m: int| 0 <= m < j - from implies is_white(#[trigger] l[m]) by {
            assert(l[m] == v@[from + m]);
        }
        if j < to {
            assert(l[j - from] == v@[j as int]);
        }
        lemma_white_len_exact(l, j - from);
    }
    j - from
}

proof fn lemma_toks_push<'a>(v: Seq<IndentorToken<'a>>, x: IndentorToken<'a>)
    ensures
        toks(v.push(x)) == toks(v).push(x.tok()),
{
    assert(toks(v.push(x)) =~= toks(v).push(x.tok()));
}

spec fn views(v: Seq<Vec<char>>) -> Seq<Seq<char>> {
    Seq::new(v.len(), |i: int| v[i]@)
}

/// The text of `s` after its leading whitespace.
pub fn strip_whispace_prefix(s: &str) -> (r: &str)
    ensures
        r@ == s@.subrange(white_len(s@) as int, s@.len() as int),
{
    let chars = chars_of(s);
    let w = white_run(&chars, 0, chars.len());
    proof {
        assert(chars@.subrange(0, chars@.len() as int) == s@);
        lemma_white_len(s@);
    }
    s.substring_char(w, chars.len())
}

/// The indentation stack after keeping only the prefixes of `indent`.
fn retain_prefixes(indents: &Vec<Vec<char>>, indent: &Vec<char>) -> (r: Vec<Vec<char>>)
    ensures
        views(r@) == keep_prefixes(views(indents@), indent@),
{
    let ghost stack = views(indents@);
    let mut kept: Vec<Vec<char>> = Vec::new();
    let mut m: usize = 0;
    assert(stack.subrange(0, 0) == Seq::<Seq<char>>::empty());
    assert(views(kept@) == Seq::<Seq<char>>::empty());
    while m < indents.len()
        invariant
            m <= indents@.len(),
            stack == views(indents@),
            views(kept@) == keep_prefixes(stack.subrange(0, m as int), indent@),
        decreases indents@.len() - m,
    {
        let ghost kept0 = kept@;
        assert(stack.subrange(0, m + 1).drop_last() == stack.subrange(0, m as int));
        assert(stack.subrange(0, m + 1).last() == indents@[m as int]@);
        if starts_with(indent, &indents[m]) {
            let c = copy_chars(&indents[m], 0, indents[m].len());
            proof {
                assert(indents@[m as int]@.subrange(0, indents@[m as int]@.len() as int)
                    == indents@[m as int]@);
            }
            kept.push(c);
            assert(views(kept@) == views(kept0).push(c@));
        }
        m = m + 1;
    }
    assert(stack.subrange(0, indents@.len() as int) == stack);
    kept
}

fn tokenize<'a>(text: &'a str) -> (r: Vec<IndentorToken<'a>>)
    ensures
        toks(r@) == tokens_of(text@),
{
    let chars = chars_of(text);
    let ranges = line_ranges(&chars);
    let ghost lines = lines_of(text@);
    let mut indents: Vec<Vec<char>> = Vec::new();
    indents.push(Vec::new());
    let ghost mut stack: Seq<Seq<char>> = seq![Seq::<char>::empty()];
    let mut out: Vec<IndentorToken<'a>> = Vec::new();
    let mut k: usize = 0;
    assert(views(indents@) == stack);
    assert(lines.skip(0) == lines);
    assert(toks(out@) == Seq::<Tok>::empty());
    assert(Seq::<Tok>::empty() + tokens_from(stack, lines) == tokens_from(stack, lines));
    assert forall|j: int| #![trigger ranges@[j]] 0 <= j < ranges@.len() implies {
        &&& ranges@[j].0 <= ranges@[j].1 && ranges@[j].1 <= chars@.len()
        &&& chars@.subrange(ranges@[j].0 as int, ranges@[j].1 as int) == lines_of(chars@)[j]
    } by {
        assert(lines_of(chars@)[j] == lines_of(chars@)[j]);
    }
    while k < ranges.len()
        invariant
            k <= ranges@.len(),
            ranges@.len() == lines.len(),
            chars@ == text@,
            lines == lines_of(text@),
            forall|j: int|
                #![trigger ranges@[j]]
                0 <= j < ranges@.len() ==> {
                    &&& ranges@[j].0 <= ranges@[j].1 && ranges@[j].1 <= chars@.len()
                    &&& chars@.subrange(ranges@[j].0 as int, ranges@[j].1 as int)
                        == lines_of(chars@)[j]
                },
            stack.len() >= 1,
            stack[0] == Seq::<char>::empty(),
            views(indents@) == stack,
            toks(out@) + tokens_from(stack, lines.skip(k as int)) == tokens_of(text@),
        decreases ranges@.len() - k,
    {
        let (a, b) = ranges[k];
        let ghost line = lines[k as int];
        assert(ranges@[k as int] == (a, b));
        assert(chars@.subrange(a as int, b as int) == line);
        let w = white_run(&chars, a, b);
        proof {
            lemma_white_len(line);
            assert(chars@.subrange(a + w, b as int) == line.subrange(w as int, line.len() as int));
        }
        let content = text.substring_char(a + w, b);
        let ghost step = line_step(stack, line);
        let ghost out0 = out@;
        proof {
            lemma_line_step_stack(stack, line);
            let rest = lines.skip(k as int);
            assert(rest[0] == line);
            assert(rest.drop_first() == lines.skip(k + 1));
            assert(tokens_from(stack, rest) == step.1 + tokens_from(step.0, lines.skip(k + 1)));
        }
        if a + w == b {
            assert(content@ == Seq::<char>::empty());
            assert(step.1 == seq![Tok::Line(content@)]);
            out.push(IndentorToken::Line(content));
            proof {
                lemma_toks_push(out0, IndentorToken::Line(content));
            }
            assert(toks(out@) =~= toks(out0) + step.1);
        } else {
            let indent = copy_chars(&chars, a, a + w);
            assert(indent@ == line.subrange(0, w as int));
            let top = indents.len() - 1;
            assert(indents@[top as int]@ == stack.last());
            if same_chars(&indent, &indents[top]) {
                assert(step.1 == seq![Tok::Line(content@)]);
                out.push(IndentorToken::Line(content));
                proof {
                    lemma_toks_push(out0, IndentorToken::Line(content));
                }
                assert(toks(out@) =~= toks(out0) + step.1);
            } else if starts_with(&indent, &indents[top]) {
                assert(step.1 == seq![Tok::Indent, Tok::Line(content@)]);
                indents.push(indent);
                out.push(IndentorToken::Indent);
                let ghost out1 = out@;
                out.push(IndentorToken::Line(content));
                proof {
                    lemma_toks_push(out0, IndentorToken::Indent);
                    lemma_toks_push(out1, IndentorToken::Line(content));
                }
                assert(toks(out@) =~= toks(out0) + step.1);
                assert(views(indents@) =~= step.0);
            } else {
                let kept = retain_prefixes(&indents, &indent);
                proof {
                    lemma_keep_prefixes(stack, indent@);
                }
                let d = indents.len() - kept.len();
                let mut n: usize = 0;
                while n < d
                    invariant
                        n <= d,
                        toks(out@) == toks(out0) + dedents(n as nat),
                    decreases d - n,
                {
                    let ghost o = out@;
                    out.push(IndentorToken::Dedent);
                    proof {
                        lemma_toks_push(o, IndentorToken::Dedent);
                    }
                    n = n + 1;
                    assert(toks(out@) =~= toks(out0) + dedents(n as nat));
                }
                let last = kept.len() - 1;
                assert(kept@[last as int]@ == keep_prefixes(stack, indent@).last());
                let differs = !same_chars(&indent, &kept[last]);
                indents = kept;
                let ghost out1 = out@;
                if differs {
                    indents.push(indent);
                    out.push(IndentorToken::Indent);
                    proof {
                        lemma_toks_push(out1, IndentorToken::Indent);
                    }
                }
                let ghost out2 = out@;
                out.push(IndentorToken::Line(content));
                proof {
                    lemma_toks_push(out2, IndentorToken::Line(content));
                    let d2 = (stack.len() - keep_prefixes(stack, indent@).len()) as nat;
                    assert(d2 == d);
                    if differs {
                        assert(step.1 == dedents(d2) + seq![Tok::Indent, Tok::Line(content@)]);
                    } else {
                        assert(step.1 == dedents(d2) + seq![Tok::Line(content@)]);
                    }
                }
                assert(toks(out@) =~= toks(out0) + step.1);
                assert(views(indents@) =~= step.0);
            }
        }
        proof {
            stack = step.0;
            assert(toks(out@) + tokens_from(stack, lines.skip(k + 1)) == tokens_of(text@));
        }
        k = k + 1;
    }
    proof {
        assert(lines.skip(ranges@.len() as int) == Seq::<Seq<char>>::empty());
        assert(toks(out@) + Seq::<Tok>::empty() == toks(out@));
    }
    out
}

/// The elements read from `t` starting at token `i`, up to the first unmatched
/// dedent or the end, and the position after what was read: a line token adds a
/// line, an indent token opens a block that its matching dedent closes.
pub open spec fn build_from(t: Seq<Tok>, i: int) -> (Seq<Shape>, int)
    decreases t.len() - i,
{
    if i < 0 || i >= t.len() {
        (Seq::<Shape>::empty(), t.len() as int)
    } else {
        match t[i] {
            Tok::Dedent => (Seq::<Shape>::empty(), i + 1),
            Tok::Line(s) => {
                let (rest, j) = build_from(t, i + 1);
                (seq![Shape::Line(s)] + rest, j)
            },
            Tok::Indent => {
                let (sub, j) = build_from(t, i + 1);
                if j <= i || j > t.len() {
                    (seq![Shape::Sub(sub)], j)
                } else {
                    let (rest, k) = build_from(t, j);
                    (seq![Shape::Sub(sub)] + rest, k)
                }
            },
        }
    }
}

proof fn lemma_build_from_advances(t: Seq<Tok>, i: int)
    requires
        0 <= i <= t.len(),
    ensures
        i < t.len() ==> i < build_from(t, i).1,
        build_from(t, i).1 <= t.len(),
        i == t.len() ==> build_from(t, i).1 == t.len(),
    decreases t.len() - i,
{
    if i < t.len() {
        lemma_build_from_advances(t, i + 1);
        match t[i] {
            Tok::Indent => {
                let j = build_from(t, i + 1).1;
                lemma_build_from_advances(t, j);
            },
            _ => {},
        }
    }
}

/// The structure of a text read from its indentation.
pub open spec fn parse(text: Seq<char>) -> Seq<Shape> {
    build_from(tokens_of(text), 0).0
}

proof fn lemma_shapes_of_push<'a>(v: Seq<Element<'a>>, e: Element<'a>)
    ensures
        shapes_of(v.push(e)) == shapes_of(v).push(e.shape()),
{
    assert(v.push(e).subrange(0, v.len() as int) == v);
}

fn get_tree<'a>(tokens: &Vec<IndentorToken<'a>>, pos: &mut usize) -> (r: TextStructure<'a>)
    requires
        *old(pos) <= tokens@.len(),
    ensures
        shapes_of(r@) == build_from(toks(tokens@), *old(pos) as int).0,
        *final(pos) as int == build_from(toks(tokens@), *old(pos) as int).1,
    decreases tokens@.len() - *old(pos),
{
    let ghost t = toks(tokens@);
    let ghost p0 = *pos as int;
    let mut res: Vec<Element<'a>> = Vec::new();
    proof {
        lemma_build_from_advances(t, p0);
        assert(Seq::<Shape>::empty() + build_from(t, p0).0 == build_from(t, p0).0);
    }
    while *pos < tokens.len()
        invariant
            *pos <= tokens@.len(),
            t == toks(tokens@),
            shapes_of(res@) + build_from(t, *pos as int).0 == build_from(t, p0).0,
            build_from(t, *pos as int).1 == build_from(t, p0).1,
            p0 <= *pos,
            p0 == *old(pos),
        decreases tokens@.len() - *pos,
    {
        let q = *pos;
        let ghost res0 = res@;
        proof {
            lemma_build_from_advances(t, q as int + 1);
        }
        let tok = tokens[q];
        *pos = q + 1;
        match tok {
            IndentorToken::Dedent => {
                assert(t[q as int] == Tok::Dedent);
                assert(shapes_of(res@) + Seq::<Shape>::empty() == shapes_of(res@));
                return res;
            },
            IndentorToken::Line(s) => {
                res.push(Element::Line(s));
                proof {
                    lemma_shapes_of_push(res0, Element::Line(s));
                    let rest = build_from(t, q + 1).0;
                    assert(shapes_of(res@) + rest =~= shapes_of(res0) + (seq![Shape::Line(s@)]
                        + rest));
                }
            },
            IndentorToken::Indent => {
                let sub = get_tree(tokens, pos);
                let ghost j = *pos as int;
                proof {
                    lemma_build_from_advances(t, j);
                }
                res.push(Element::Subtext(sub));
                proof {
                    lemma_shapes_of_push(res0, Element::Subtext(sub));
                    let rest = build_from(t, j).0;
                    assert(shapes_of(res@) + rest =~= shapes_of(res0) + (seq![
                        Shape::Sub(shapes_of(sub@)),
                    ] + rest));
                }
            },
        }
    }
    proof {
        assert(shapes_of(res@) + Seq::<Shape>::empty() == shapes_of(res@));
    }
    res
}

/// Reads the indentation structure of `text`.
pub fn parse_indented_text<'a>(text: &'a str) -> (r: TextStructure<'a>)
    ensures
        shapes_of(r@) == parse(text@),
{
    let tokens = tokenize(text);
    let mut pos: usize = 0;
    get_tree(&tokens, &mut pos)
}

} // verus!
