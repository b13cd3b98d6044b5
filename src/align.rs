//! Re-indenting the content of a marked code block with the canonical
//! increment, under the prefix of the line that opens the block.

use vstd::prelude::*;
use crate::semindent::{
    build_from, forest_lines, is_prefix, join_lines, lemma_shapes_of, line_step, parse,
    parse_indented_text, render, shape_lines, shapes_of, to_string, tokens_from, Element, Shape,
    Tok,
};
use crate::text::{is_white, lines_of, white_len};

verus! {

/// The canonical indentation increment: three spaces.
pub open spec fn unit() -> Seq<char> {
    seq![' ', ' ', ' ']
}

/// A structure made of one block alone stands for that block's elements; any
/// other structure stands for itself.
pub open spec fn unwrap_single(v: Seq<Shape>) -> Seq<Shape> {
    if v.len() == 1 && v[0] is Sub {
        v[0]->Sub_0
    } else {
        v
    }
}

/// The content of a code block re-printed with the canonical increment under
/// `prefix`.
pub open spec fn aligned(prefix: Seq<char>, content: Seq<char>) -> Seq<char> {
    render(unwrap_single(parse(content)), prefix, unit())
}

/// Re-prints `content` with the canonical increment, every line starting
/// with `prefix`; a content that is one indented block as a whole loses that
/// indentation.
pub fn align(prefix: &str, content: &str) -> (r: String)
    ensures
        r@ == aligned(prefix@, content@),
{
    let sem = parse_indented_text(content);
    proof {
        reveal_strlit("   ");
        assert("   "@ == unit());
        lemma_shapes_of(sem@);
    }
    if sem.len() == 1 {
        match &sem[0] {
            Element::Subtext(inner) => {
                return to_string(inner, prefix, "   ");
            },
            _ => {},
        }
    }
    to_string(&sem, prefix, "   ")
}

proof fn lemma_prefix_concat(p: Seq<char>, q: Seq<char>, s: Seq<char>)
    requires
        is_prefix(p + q, s),
    ensures
        is_prefix(p, s),
{
    assert(s.subrange(0, p.len() as int) == s.subrange(0, (p + q).len() as int).subrange(
        0,
        p.len() as int,
    ));
    assert((p + q).subrange(0, p.len() as int) == p);
}

proof fn lemma_shape_lines_prefixed(e: Shape, indent: Seq<char>, inc: Seq<char>)
    ensures
        forall|i: int|
            0 <= i < shape_lines(e, indent, inc).len() ==> is_prefix(
                indent,
                #[trigger] shape_lines(e, indent, inc)[i],
            ),
    decreases e,
{
    match e {
        Shape::Line(s) => {
            assert((indent + s).subrange(0, indent.len() as int) == indent);
        },
        Shape::Sub(v) => {
            lemma_forest_lines_prefixed(v, indent + inc, inc);
            assert forall|i: int| 0 <= i < shape_lines(e, indent, inc).len() implies is_prefix(
                indent,
                #[trigger] shape_lines(e, indent, inc)[i],
            ) by {
                assert(shape_lines(e, indent, inc)[i] == forest_lines(v, indent + inc, inc)[i]);
                lemma_prefix_concat(indent, inc, shape_lines(e, indent, inc)[i]);
            }
        },
    }
}

proof fn lemma_forest_lines_prefixed(v: Seq<Shape>, indent: Seq<char>, inc: Seq<char>)
    ensures
        forall|i: int|
            0 <= i < forest_lines(v, indent, inc).len() ==> is_prefix(
                indent,
                #[trigger] forest_lines(v, indent, inc)[i],
            ),
    decreases v,
{
    if v.len() > 0 {
        let w = v.subrange(0, v.len() - 1);
        lemma_forest_lines_prefixed(w, indent, inc);
        lemma_shape_lines_prefixed(v.last(), indent, inc);
        let a = forest_lines(w, indent, inc);
        let b = shape_lines(v.last(), indent, inc);
        assert forall|i: int| 0 <= i < forest_lines(v, indent, inc).len() implies is_prefix(
            indent,
            #[trigger] forest_lines(v, indent, inc)[i],
        ) by {
            if i < a.len() {
                assert((a + b)[i] == a[i]);
            } else {
                assert((a + b)[i] == b[i - a.len()]);
            }
        }
    }
}

/// Every line that aligning prints begins with the prefix of the block's
/// opening line.
pub proof fn lemma_aligned_lines_prefixed(prefix: Seq<char>, content: Seq<char>)
    ensures
        forall|i: int|
            0 <= i < forest_lines(unwrap_single(parse(content)), prefix, unit()).len()
                ==> is_prefix(
                prefix,
                #[trigger] forest_lines(unwrap_single(parse(content)), prefix, unit())[i],
            ),
{
    lemma_forest_lines_prefixed(unwrap_single(parse(content)), prefix, unit());
}

/// A content whose structure is one indented block as a whole is printed as
/// that block's elements under the prefix: its own indentation is dropped
/// before the canonical increment is applied.
pub proof fn lemma_single_block_unwrapped(prefix: Seq<char>, content: Seq<char>, inner: Seq<Shape>)
    requires
        parse(content) == seq![Shape::Sub(inner)],
    ensures
        aligned(prefix, content) == render(inner, prefix, unit()),
{
}

proof fn lemma_white_len_of_indented(i: Seq<char>, c: Seq<char>)
    requires
        forall|k: int| 0 <= k < i.len() ==> is_white(#[trigger] i[k]),
        c.len() > 0,
        !is_white(c[0]),
    ensures
        white_len(i + c) == i.len(),
    decreases i.len(),
{
    if i.len() > 0 {
        assert((i + c)[0] == i[0]);
        assert((i + c).drop_first() == i.drop_first() + c);
        lemma_white_len_of_indented(i.drop_first(), c);
    } else {
        assert(i + c == c);
    }
}

/// A line of whitespace alone.
pub open spec fn is_blank(l: Seq<char>) -> bool {
    white_len(l) == l.len()
}

/// A line `ind + c`, with the content `c` not starting with whitespace.
pub open spec fn indented_by(ind: Seq<char>, l: Seq<char>) -> bool {
    &&& l.len() > ind.len()
    &&& l.subrange(0, ind.len() as int) == ind
    &&& !is_white(l[ind.len() as int])
}

/// Each line is blank or indented by exactly `ind`.
pub open spec fn indented_lines(ind: Seq<char>, ls: Seq<Seq<char>>) -> bool {
    forall|k: int| 0 <= k < ls.len() ==> is_blank(#[trigger] ls[k]) || indented_by(ind, ls[k])
}

/// The contents of lines that are blank or start with `ind`: a blank line
/// becomes empty, another loses `ind`.
pub open spec fn contents(ind: Seq<char>, ls: Seq<Seq<char>>) -> Seq<Seq<char>> {
    Seq::new(
        ls.len(),
        |k: int|
            if is_blank(ls[k]) {
                Seq::<char>::empty()
            } else {
                ls[k].subrange(ind.len() as int, ls[k].len() as int)
            },
    )
}

proof fn lemma_split_line(ind: Seq<char>, l: Seq<char>)
    requires
        l.len() > ind.len(),
        l.subrange(0, ind.len() as int) == ind,
        forall|k: int| 0 <= k < ind.len() ==> is_white(#[trigger] ind[k]),
        !is_white(l[ind.len() as int]),
    ensures
        white_len(l) == ind.len(),
        l.subrange(0, white_len(l) as int) == ind,
        l.subrange(white_len(l) as int, l.len() as int).len() > 0,
{
    let c = l.subrange(ind.len() as int, l.len() as int);
    assert(l == ind + c);
    assert(c[0] == l[ind.len() as int]);
    lemma_white_len_of_indented(ind, c);
}

proof fn lemma_tokens_same_level(stack: Seq<Seq<char>>, ind: Seq<char>, ls: Seq<Seq<char>>)
    requires
        stack.len() >= 1,
        stack.last() == ind,
        forall|k: int| 0 <= k < ind.len() ==> is_white(#[trigger] ind[k]),
        indented_lines(ind, ls),
    ensures
        tokens_from(stack, ls) == Seq::new(
            ls.len(),
            |k: int| Tok::Line(contents(ind, ls)[k]),
        ),
    decreases ls.len(),
{
    if ls.len() > 0 {
        let rest = ls.drop_first();
        assert(indented_lines(ind, rest)) by {
            assert forall|k: int| 0 <= k < rest.len() implies is_blank(#[trigger] rest[k])
                || indented_by(ind, rest[k]) by {
                assert(rest[k] == ls[k + 1]);
            }
        }
        assert(is_blank(ls[0]) || indented_by(ind, ls[0]));
        if !is_blank(ls[0]) {
            lemma_split_line(ind, ls[0]);
        }
        lemma_tokens_same_level(stack, ind, rest);
        assert(line_step(stack, ls[0]).0 == stack);
        assert(tokens_from(stack, ls) =~= Seq::new(
            ls.len(),
            |k: int| Tok::Line(contents(ind, ls)[k]),
        ));
    } else {
        assert(tokens_from(stack, ls) =~= Seq::new(
            ls.len(),
            |k: int| Tok::Line(contents(ind, ls)[k]),
        ));
    }
}

proof fn lemma_build_lines(t: Seq<Tok>, i: int, cs: Seq<Seq<char>>)
    requires
        0 <= i <= t.len(),
        t.len() - i == cs.len(),
        forall|k: int| 0 <= k < cs.len() ==> #[trigger] t[i + k] == Tok::Line(cs[k]),
    ensures
        build_from(t, i) == (Seq::new(cs.len(), |k: int| Shape::Line(cs[k])), t.len() as int),
    decreases t.len() - i,
{
    if i < t.len() {
        assert(t[i + 0] == Tok::Line(cs[0]));
        let rest = cs.drop_first();
        assert forall|k: int| 0 <= k < rest.len() implies #[trigger] t[(i + 1) + k] == Tok::Line(
            rest[k],
        ) by {
            assert(t[i + (k + 1)] == Tok::Line(cs[k + 1]));
        }
        lemma_build_lines(t, i + 1, rest);
        assert(seq![Shape::Line(cs[0])] + Seq::new(rest.len(), |k: int| Shape::Line(rest[k]))
            =~= Seq::new(cs.len(), |k: int| Shape::Line(cs[k])));
    } else {
        assert(Seq::new(cs.len(), |k: int| Shape::Line(cs[k])) =~= Seq::<Shape>::empty());
    }
}

proof fn lemma_lines_at(cs: Seq<Seq<char>>, p: Seq<char>, inc: Seq<char>)
    ensures
        forest_lines(Seq::new(cs.len(), |k: int| Shape::Line(cs[k])), p, inc) == Seq::new(
            cs.len(),
            |k: int| p + cs[k],
        ),
    decreases cs.len(),
{
    let v = Seq::new(cs.len(), |k: int| Shape::Line(cs[k]));
    if cs.len() > 0 {
        let w = cs.drop_last();
        assert(v.subrange(0, v.len() - 1) == Seq::new(w.len(), |k: int| Shape::Line(w[k])));
        lemma_lines_at(w, p, inc);
        assert(v.last() == Shape::Line(cs[cs.len() - 1]));
        assert(shape_lines(v.last(), p, inc) == seq![p + cs[cs.len() - 1]]);
        assert(forest_lines(v, p, inc) =~= Seq::new(cs.len(), |k: int| p + cs[k]));
    } else {
        assert(Seq::new(cs.len(), |k: int| p + cs[k]) =~= Seq::<Seq<char>>::empty());
    }
}

/// A content whose first line and every other non-blank line carry one same
/// non-empty whitespace indentation, and no more, is printed with that
/// indentation dropped: each line's text under the prefix, a blank line as
/// the prefix alone.
pub proof fn lemma_uniform_block_unwrapped(prefix: Seq<char>, ind: Seq<char>, content: Seq<char>)
    requires
        ind.len() > 0,
        forall|k: int| 0 <= k < ind.len() ==> is_white(#[trigger] ind[k]),
        lines_of(content).len() > 0,
        indented_by(ind, lines_of(content)[0]),
        indented_lines(ind, lines_of(content)),
    ensures
        aligned(prefix, content) == join_lines(
            Seq::new(
                lines_of(content).len(),
                |k: int| prefix + contents(ind, lines_of(content))[k],
            ),
        ),
{
    let ls = lines_of(content);
    let cs = contents(ind, ls);
    let base = seq![Seq::<char>::empty()];
    lemma_split_line(ind, ls[0]);
    assert(!is_blank(ls[0]));
    let w = white_len(ls[0]) as int;
    assert(ls[0].subrange(0, w) != base.last());
    assert(ind.subrange(0, 0) == Seq::<char>::empty());
    let stack = base.push(ind);
    assert(line_step(base, ls[0]) == (stack, seq![Tok::Indent, Tok::Line(cs[0])]));
    let rest = ls.drop_first();
    assert(indented_lines(ind, rest)) by {
        assert forall|k: int| 0 <= k < rest.len() implies is_blank(#[trigger] rest[k])
            || indented_by(ind, rest[k]) by {
            assert(rest[k] == ls[k + 1]);
        }
    }
    lemma_tokens_same_level(stack, ind, rest);
    let t = crate::semindent::tokens_of(content);
    assert(contents(ind, rest) =~= cs.drop_first());
    assert(t =~= seq![Tok::Indent] + Seq::new(cs.len(), |k: int| Tok::Line(cs[k])));
    lemma_build_lines(t, 1, cs);
    let lines = Seq::new(cs.len(), |k: int| Shape::Line(cs[k]));
    assert(t[0] == Tok::Indent);
    assert(build_from(t, t.len() as int) == (Seq::<Shape>::empty(), t.len() as int));
    assert(seq![Shape::Sub(lines)] + Seq::<Shape>::empty() == seq![Shape::Sub(lines)]);
    assert(build_from(t, 0) == (seq![Shape::Sub(lines)], t.len() as int));
    assert(parse(content) == seq![Shape::Sub(lines)]);
    lemma_lines_at(cs, prefix, unit());
}

} // verus!
