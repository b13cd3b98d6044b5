//! Dropping a common indentation: a content whose lines all start with one
//! same whitespace run reads as one block holding the content without it.

use vstd::prelude::*;
use crate::align::{aligned, indented_by, is_blank, unit, unwrap_single};
use crate::semindent::{
    build_from, dedents, is_prefix, keep_prefixes, line_step, parse, render, tokens_from, Shape,
    Tok,
};
use crate::text::{is_white, lines_of, white_len};

verus! {

/// The position after the first dedent of `u` from `i` on that closes no
/// indent opened since, starting `h` levels deep; the end if there is none.
pub open spec fn exit_at(u: Seq<Tok>, i: int, h: nat) -> int
    decreases u.len() - i,
{
    if i < 0 || i >= u.len() {
        u.len() as int
    } else {
        match u[i] {
            Tok::Dedent => if h == 0 {
                i + 1
            } else {
                exit_at(u, i + 1, (h - 1) as nat)
            },
            Tok::Indent => exit_at(u, i + 1, h + 1),
            Tok::Line(_) => exit_at(u, i + 1, h),
        }
    }
}

proof fn lemma_exit_bounds(u: Seq<Tok>, i: int, h: nat)
    requires
        0 <= i <= u.len(),
    ensures
        i < u.len() ==> i < exit_at(u, i, h),
        exit_at(u, i, h) <= u.len(),
    decreases u.len() - i,
{
    if i < u.len() {
        match u[i] {
            Tok::Dedent => if h > 0 {
                lemma_exit_bounds(u, i + 1, (h - 1) as nat);
            },
            Tok::Indent => lemma_exit_bounds(u, i + 1, h + 1),
            Tok::Line(_) => lemma_exit_bounds(u, i + 1, h),
        }
    }
}

proof fn lemma_exit_compose(u: Seq<Tok>, i: int, h: nat)
    requires
        0 <= i <= u.len(),
    ensures
        exit_at(u, i, h + 1) == exit_at(u, exit_at(u, i, 0), h),
    decreases u.len() - i,
{
    if i < u.len() {
        match u[i] {
            Tok::Dedent => {},
            Tok::Indent => {
                lemma_exit_compose(u, i + 1, h + 1);
                lemma_exit_compose(u, i + 1, 0);
                let j = exit_at(u, i + 1, 0);
                lemma_exit_bounds(u, i + 1, 0);
                lemma_exit_compose(u, j, h);
            },
            Tok::Line(_) => {
                lemma_exit_compose(u, i + 1, h);
            },
        }
    }
}

proof fn lemma_build_exit(u: Seq<Tok>, i: int)
    requires
        0 <= i <= u.len(),
    ensures
        build_from(u, i).1 == exit_at(u, i, 0),
    decreases u.len() - i,
{
    if i < u.len() {
        match u[i] {
            Tok::Dedent => {},
            Tok::Indent => {
                lemma_build_exit(u, i + 1);
                lemma_exit_bounds(u, i + 1, 0);
                let j = exit_at(u, i + 1, 0);
                lemma_build_exit(u, j);
                lemma_exit_compose(u, i + 1, 0);
            },
            Tok::Line(_) => {
                lemma_build_exit(u, i + 1);
            },
        }
    }
}

proof fn lemma_exit_shift(p: Seq<Tok>, u: Seq<Tok>, i: int, h: nat)
    requires
        0 <= i <= u.len(),
    ensures
        exit_at(p + u, p.len() + i, h) == p.len() + exit_at(u, i, h),
    decreases u.len() - i,
{
    if i < u.len() {
        assert((p + u)[p.len() + i] == u[i]);
        match u[i] {
            Tok::Dedent => if h > 0 {
                lemma_exit_shift(p, u, i + 1, (h - 1) as nat);
            },
            Tok::Indent => lemma_exit_shift(p, u, i + 1, h + 1),
            Tok::Line(_) => lemma_exit_shift(p, u, i + 1, h),
        }
    }
}

proof fn lemma_build_shift(p: Seq<Tok>, u: Seq<Tok>, i: int)
    requires
        0 <= i <= u.len(),
    ensures
        build_from(p + u, p.len() + i) == (build_from(u, i).0, build_from(u, i).1 + p.len()),
    decreases u.len() - i,
{
    let t = p + u;
    if i < u.len() {
        assert(t[p.len() + i] == u[i]);
        lemma_build_shift(p, u, i + 1);
        match u[i] {
            Tok::Indent => {
                let j = build_from(u, i + 1).1;
                lemma_build_exit(u, i + 1);
                lemma_exit_bounds(u, i + 1, 0);
                lemma_build_shift(p, u, j);
            },
            _ => {},
        }
    }
}

proof fn lemma_exit_dedents(u: Seq<Tok>, i: int, n: nat, h: nat)
    requires
        0 <= i,
        i + n <= u.len(),
        n <= h,
        forall|k: int| 0 <= k < n ==> #[trigger] u[i + k] == Tok::Dedent,
    ensures
        exit_at(u, i, h) == exit_at(u, i + n, (h - n) as nat),
    decreases n,
{
    if n > 0 {
        assert(u[i + 0] == Tok::Dedent);
        assert forall|k: int| 0 <= k < n - 1 implies #[trigger] u[(i + 1) + k] == Tok::Dedent by {
            assert(u[i + (k + 1)] == Tok::Dedent);
        }
        lemma_exit_dedents(u, i + 1, (n - 1) as nat, (h - 1) as nat);
    }
}

/// The tokens of lines read from an indentation stack never close more
/// levels than the stack holds above its base.
proof fn lemma_tokens_balanced(st: Seq<Seq<char>>, ls: Seq<Seq<char>>)
    requires
        st.len() >= 1,
        st[0] == Seq::<char>::empty(),
    ensures
        exit_at(tokens_from(st, ls), 0, (st.len() - 1) as nat) == tokens_from(st, ls).len(),
    decreases ls.len(),
{
    let u = tokens_from(st, ls);
    let h = (st.len() - 1) as nat;
    if ls.len() > 0 {
        let l = ls[0];
        let step = line_step(st, l);
        let r = tokens_from(step.0, ls.drop_first());
        crate::semindent::lemma_line_step_stack(st, l);
        lemma_tokens_balanced(step.0, ls.drop_first());
        assert(u == step.1 + r);
        let t0 = step.1;
        let h2 = (step.0.len() - 1) as nat;
        lemma_exit_shift(t0, r, 0, h2);
        let w = white_len(l) as int;
        crate::text::lemma_white_len(l);
        let content = l.subrange(w, l.len() as int);
        let indent = l.subrange(0, w);
        if content.len() == 0 || indent == st.last() {
            assert(u[0] == t0[0]);
            assert(t0.len() == 1);
            assert(exit_at(u, 0, h) == exit_at(u, 1, h));
        } else if is_prefix(st.last(), indent) {
            assert(u[0] == t0[0]);
            assert(u[1] == t0[1]);
            assert(t0.len() == 2);
            assert(exit_at(u, 0, h) == exit_at(u, 1, h + 1));
            assert(exit_at(u, 1, h + 1) == exit_at(u, 2, h + 1));
        } else {
            let kept = keep_prefixes(st, indent);
            crate::semindent::lemma_keep_prefixes(st, indent);
            let d = (st.len() - kept.len()) as nat;
            assert forall|k: int| 0 <= k < d implies #[trigger] u[0 + k] == Tok::Dedent by {
                assert(u[0 + k] == t0[k]);
            }
            lemma_exit_dedents(u, 0, d, h);
            assert(u[d as int] == t0[d as int]);
            let hd = (h - d) as nat;
            if indent != kept.last() {
                assert(u[d + 1int] == t0[d + 1int]);
                assert(t0.len() == d + 2);
                assert(h2 == hd + 1);
                assert(exit_at(u, d as int, hd) == exit_at(u, d + 1int, hd + 1));
                assert(exit_at(u, d + 1int, hd + 1) == exit_at(u, d + 2int, hd + 1));
            } else {
                assert(t0.len() == d + 1);
                assert(h2 == hd);
                assert(exit_at(u, d as int, hd) == exit_at(u, d + 1int, hd));
            }
        }
    } else {
        assert(u.len() == 0);
    }
}

/// The indentation stack read after a common indentation `w`.
pub open spec fn shift_stack(w: Seq<char>, st: Seq<Seq<char>>) -> Seq<Seq<char>> {
    seq![Seq::<char>::empty()] + Seq::new(st.len(), |j: int| w + st[j])
}

/// A line without the common indentation `w`; a blank line emptied.
pub open spec fn strip_line(w: Seq<char>, l: Seq<char>) -> Seq<char> {
    if is_blank(l) {
        Seq::<char>::empty()
    } else {
        l.subrange(w.len() as int, l.len() as int)
    }
}

pub open spec fn strip_lines(w: Seq<char>, ls: Seq<Seq<char>>) -> Seq<Seq<char>> {
    Seq::new(ls.len(), |k: int| strip_line(w, ls[k]))
}

/// Every line blank or starting with `w`.
pub open spec fn all_start_with(w: Seq<char>, ls: Seq<Seq<char>>) -> bool {
    forall|k: int|
        0 <= k < ls.len() ==> is_blank(#[trigger] ls[k]) || (ls[k].len() >= w.len()
            && ls[k].subrange(0, w.len() as int) == w)
}

/// The structure read from lines.
pub open spec fn parse_lines(ls: Seq<Seq<char>>) -> Seq<Shape> {
    build_from(tokens_from(seq![Seq::<char>::empty()], ls), 0).0
}

pub open spec fn white_run(w: Seq<char>) -> bool {
    forall|k: int| 0 <= k < w.len() ==> is_white(#[trigger] w[k])
}

proof fn lemma_white_len_concat(w: Seq<char>, y: Seq<char>)
    requires
        white_run(w),
    ensures
        white_len(w + y) == w.len() + white_len(y),
    decreases w.len(),
{
    if w.len() > 0 {
        assert((w + y)[0] == w[0]);
        assert((w + y).drop_first() == w.drop_first() + y);
        assert(white_run(w.drop_first())) by {
            assert forall|k: int| 0 <= k < w.drop_first().len() implies is_white(
                #[trigger] w.drop_first()[k],
            ) by {
                assert(w.drop_first()[k] == w[k + 1]);
            }
        }
        lemma_white_len_concat(w.drop_first(), y);
    } else {
        assert(w + y == y);
    }
}

proof fn lemma_concat_eq(w: Seq<char>, a: Seq<char>, b: Seq<char>)
    ensures
        (w + a == w + b) == (a == b),
{
    if w + a == w + b {
        assert(a == (w + a).subrange(w.len() as int, (w + a).len() as int));
        assert(b == (w + b).subrange(w.len() as int, (w + b).len() as int));
    }
}

proof fn lemma_prefix_shift(w: Seq<char>, a: Seq<char>, i: Seq<char>)
    ensures
        is_prefix(w + a, w + i) == is_prefix(a, i),
{
    if a.len() <= i.len() {
        assert((w + i).subrange(0, (w + a).len() as int) == w + i.subrange(0, a.len() as int));
        lemma_concat_eq(w, i.subrange(0, a.len() as int), a);
    }
}

proof fn lemma_keep_shift(w: Seq<char>, st: Seq<Seq<char>>, i: Seq<char>)
    ensures
        keep_prefixes(shift_stack(w, st), w + i) == shift_stack(w, keep_prefixes(st, i)),
    decreases st.len(),
{
    let s = shift_stack(w, st);
    if st.len() == 0 {
        assert(s == seq![Seq::<char>::empty()]);
        assert(s.drop_last() == Seq::<Seq<char>>::empty());
        assert((w + i).subrange(0, 0) == Seq::<char>::empty());
        assert(is_prefix(s.last(), w + i));
        assert(keep_prefixes(s.drop_last(), w + i) == Seq::<Seq<char>>::empty());
        assert(keep_prefixes(s, w + i) =~= seq![Seq::<char>::empty()]);
        assert(keep_prefixes(st, i) == Seq::<Seq<char>>::empty());
        assert(shift_stack(w, Seq::<Seq<char>>::empty()) =~= seq![Seq::<char>::empty()]);
    } else {
        let d = st.drop_last();
        assert(s.drop_last() =~= shift_stack(w, d));
        assert(s.last() == w + st.last());
        lemma_keep_shift(w, d, i);
        lemma_prefix_shift(w, st.last(), i);
        let k = keep_prefixes(d, i);
        assert(keep_prefixes(s.drop_last(), w + i) == shift_stack(w, k));
        if is_prefix(st.last(), i) {
            assert(keep_prefixes(st, i) == k.push(st.last()));
            assert(keep_prefixes(s, w + i) == shift_stack(w, k).push(w + st.last()));
            assert(shift_stack(w, k).push(w + st.last()) =~= shift_stack(w, k.push(st.last())));
        } else {
            assert(keep_prefixes(st, i) == k);
            assert(keep_prefixes(s, w + i) == shift_stack(w, k));
        }
    }
}

proof fn lemma_step_shift(w: Seq<char>, st: Seq<Seq<char>>, l: Seq<char>)
    requires
        st.len() >= 1,
        st[0] == Seq::<char>::empty(),
        white_run(w),
        is_blank(l) || (l.len() >= w.len() && l.subrange(0, w.len() as int) == w),
    ensures
        line_step(shift_stack(w, st), l) == (
            shift_stack(w, line_step(st, strip_line(w, l)).0),
            line_step(st, strip_line(w, l)).1,
        ),
{
    let r = shift_stack(w, st);
    assert(r.last() == w + st.last());
    if is_blank(l) {
        assert(white_len(Seq::<char>::empty()) == 0);
    } else {
        let y = l.subrange(w.len() as int, l.len() as int);
        assert(l == w + y);
        lemma_white_len_concat(w, y);
        crate::text::lemma_white_len(y);
        let wy = white_len(y) as int;
        assert(l.subrange(0, w.len() + wy) == w + y.subrange(0, wy));
        assert(l.subrange(w.len() + wy, l.len() as int) == y.subrange(wy, y.len() as int));
        let iy = y.subrange(0, wy);
        lemma_concat_eq(w, iy, st.last());
        lemma_prefix_shift(w, st.last(), iy);
        assert(r.push(w + iy) =~= shift_stack(w, st.push(iy)));
        let ks = keep_prefixes(st, iy);
        crate::semindent::lemma_keep_prefixes(st, iy);
        lemma_keep_shift(w, st, iy);
        assert(shift_stack(w, ks).last() == w + ks.last());
        lemma_concat_eq(w, iy, ks.last());
        assert(shift_stack(w, ks).push(w + iy) =~= shift_stack(w, ks.push(iy)));
    }
}

proof fn lemma_tokens_shift(w: Seq<char>, st: Seq<Seq<char>>, ls: Seq<Seq<char>>)
    requires
        st.len() >= 1,
        st[0] == Seq::<char>::empty(),
        white_run(w),
        all_start_with(w, ls),
    ensures
        tokens_from(shift_stack(w, st), ls) == tokens_from(st, strip_lines(w, ls)),
    decreases ls.len(),
{
    if ls.len() > 0 {
        let sl = strip_lines(w, ls);
        assert(sl[0] == strip_line(w, ls[0]));
        assert(sl.drop_first() =~= strip_lines(w, ls.drop_first()));
        lemma_step_shift(w, st, ls[0]);
        crate::semindent::lemma_line_step_stack(st, sl[0]);
        let rest = ls.drop_first();
        assert(all_start_with(w, rest)) by {
            assert forall|k: int| 0 <= k < rest.len() implies is_blank(#[trigger] rest[k]) || (
            rest[k].len() >= w.len() && rest[k].subrange(0, w.len() as int) == w) by {
                assert(rest[k] == ls[k + 1]);
            }
        }
        lemma_tokens_shift(w, line_step(st, sl[0]).0, rest);
    } else {
        assert(strip_lines(w, ls).len() == 0);
    }
}

/// A content whose first line is indented by exactly the non-empty
/// whitespace run `w`, and whose other non-blank lines all start with `w`,
/// is printed as its lines without `w` (blank lines emptied) would be: the
/// common indentation is dropped before the canonical increment is applied.
pub proof fn lemma_common_indent_dropped(prefix: Seq<char>, w: Seq<char>, content: Seq<char>)
    requires
        w.len() > 0,
        white_run(w),
        lines_of(content).len() > 0,
        indented_by(w, lines_of(content)[0]),
        all_start_with(w, lines_of(content)),
    ensures
        aligned(prefix, content) == render(
            parse_lines(strip_lines(w, lines_of(content))),
            prefix,
            unit(),
        ),
{
    let ls = lines_of(content);
    let base = seq![Seq::<char>::empty()];
    let l0 = ls[0];
    let x = l0.subrange(w.len() as int, l0.len() as int);
    assert(l0 == w + x);
    assert(x[0] == l0[w.len() as int]);
    lemma_white_len_concat(w, x);
    assert(white_len(x) == 0);
    assert(l0.subrange(0, w.len() as int) == w);
    assert(w.subrange(0, 0) == Seq::<char>::empty());
    assert(!is_blank(l0));
    assert(line_step(base, l0) == (base.push(w), seq![Tok::Indent, Tok::Line(x)]));
    assert(base.push(w) =~= shift_stack(w, base));
    let rest = ls.drop_first();
    assert(all_start_with(w, rest)) by {
        assert forall|k: int| 0 <= k < rest.len() implies is_blank(#[trigger] rest[k]) || (
        rest[k].len() >= w.len() && rest[k].subrange(0, w.len() as int) == w) by {
            assert(rest[k] == ls[k + 1]);
        }
    }
    lemma_tokens_shift(w, base, rest);
    let sl = strip_lines(w, ls);
    assert(sl[0] == x);
    assert(sl.drop_first() =~= strip_lines(w, rest));
    assert(x.subrange(0, 0) == Seq::<char>::empty());
    assert(x.subrange(0, x.len() as int) == x);
    assert(line_step(base, x) == (base, seq![Tok::Line(x)]));
    let ts = tokens_from(base, sl);
    let t = crate::semindent::tokens_of(content);
    assert(t =~= seq![Tok::Indent] + ts);
    lemma_tokens_balanced(base, sl);
    lemma_build_exit(ts, 0);
    lemma_build_shift(seq![Tok::Indent], ts, 0);
    assert(t[0] == Tok::Indent);
    assert(build_from(t, t.len() as int) == (Seq::<Shape>::empty(), t.len() as int));
    let sub = build_from(ts, 0).0;
    assert(seq![Shape::Sub(sub)] + Seq::<Shape>::empty() == seq![Shape::Sub(sub)]);
    assert(parse(content) == seq![Shape::Sub(sub)]);
}

} // verus!
