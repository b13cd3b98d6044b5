//! The metadata block that may open a chapter: a first line `---`, the
//! metadata lines, and a closing line `---`.

use vstd::prelude::*;
use crate::semindent::{copy_chars, same_chars};
use crate::text::{chars_of, line_ranges, lines_of, string_of};

verus! {

/// Settings of the extensions preprocessor.
pub struct ExtConfig {
    pub title: String,
}

pub open spec fn dashes() -> Seq<char> {
    seq!['-', '-', '-']
}

/// The lines before the first delimiter line.
pub open spec fn until_delim(ls: Seq<Seq<char>>) -> Seq<Seq<char>>
    decreases ls.len(),
{
    if ls.len() == 0 || ls[0] == dashes() {
        Seq::<Seq<char>>::empty()
    } else {
        seq![ls[0]] + until_delim(ls.drop_first())
    }
}

/// The lines after the first delimiter line; none when there is no delimiter.
pub open spec fn after_delim(ls: Seq<Seq<char>>) -> Seq<Seq<char>>
    decreases ls.len(),
{
    if ls.len() == 0 {
        Seq::<Seq<char>>::empty()
    } else if ls[0] == dashes() {
        ls.drop_first()
    } else {
        after_delim(ls.drop_first())
    }
}

/// Lines joined with `'\n'` between them.
pub open spec fn join_nl(ls: Seq<Seq<char>>) -> Seq<char>
    decreases ls.len(),
{
    if ls.len() == 0 {
        Seq::<char>::empty()
    } else if ls.len() == 1 {
        ls[0]
    } else {
        join_nl(ls.drop_last()) + seq!['\n'] + ls.last()
    }
}

/// The text opens with a metadata block.
pub open spec fn opens_with_meta(s: Seq<char>) -> bool {
    lines_of(s).len() > 0 && lines_of(s)[0] == dashes()
}

/// The metadata text of a chapter, if it opens with a metadata block.
pub open spec fn meta_text(s: Seq<char>) -> Option<Seq<char>> {
    if opens_with_meta(s) {
        Some(join_nl(until_delim(lines_of(s).drop_first())))
    } else {
        None
    }
}

/// A chapter without its metadata block.
pub open spec fn body_text(s: Seq<char>) -> Seq<char> {
    if opens_with_meta(s) {
        join_nl(after_delim(lines_of(s).drop_first()))
    } else {
        s
    }
}

/// The lines of `c` given by `ranges[from..to]`, joined with newlines.
fn join_ranges(c: &Vec<char>, ranges: &Vec<(usize, usize)>, from: usize, to: usize) -> (r: String)
    requires
        from <= to <= ranges@.len(),
        forall|k: int|
            #![trigger ranges@[k]]
            0 <= k < ranges@.len() ==> ranges@[k].0 <= ranges@[k].1 && ranges@[k].1 <= c@.len(),
    ensures
        r@ == join_nl(
            Seq::new(
                (to - from) as nat,
                |k: int| c@.subrange(ranges@[from + k].0 as int, ranges@[from + k].1 as int),
            ),
        ),
{
    let ghost ls = Seq::new(
        (to - from) as nat,
        |k: int| c@.subrange(ranges@[from + k].0 as int, ranges@[from + k].1 as int),
    );
    let mut out: Vec<char> = Vec::new();
    let mut i: usize = from;
    assert(ls.subrange(0, 0) == Seq::<Seq<char>>::empty());
    while i < to
        invariant
            from <= i <= to <= ranges@.len(),
            forall|k: int|
                #![trigger ranges@[k]]
                0 <= k < ranges@.len() ==> ranges@[k].0 <= ranges@[k].1 && ranges@[k].1
                    <= c@.len(),
            ls == Seq::new(
                (to - from) as nat,
                |k: int| c@.subrange(ranges@[from + k].0 as int, ranges@[from + k].1 as int),
            ),
            out@ == join_nl(ls.subrange(0, i - from)),
        decreases to - i,
    {
        let ghost o = out@;
        if i > from {
            out.push('\n');
        }
        let (a, b) = ranges[i];
        let mut j: usize = a;
        let ghost o2 = out@;
        while j < b
            invariant
                a <= j <= b <= c@.len(),
                out@ == o2 + c@.subrange(a as int, j as int),
            decreases b - j,
        {
            out.push(c[j]);
            j = j + 1;
            assert(out@ =~= o2 + c@.subrange(a as int, j as int));
        }
        proof {
            let p = ls.subrange(0, i + 1 - from);
            assert(p.drop_last() == ls.subrange(0, i - from));
            assert(p.last() == c@.subrange(a as int, b as int));
            assert(out@ =~= join_nl(p));
        }
        i = i + 1;
    }
    assert(ls.subrange(0, to - from) == ls);
    string_of(&out)
}

fn is_dashes(c: &Vec<char>, a: usize, b: usize) -> (r: bool)
    requires
        a <= b <= c@.len(),
    ensures
        r == (c@.subrange(a as int, b as int) == dashes()),
{
    let l = copy_chars(c, a, b);
    let mut d: Vec<char> = Vec::new();
    d.push('-');
    d.push('-');
    d.push('-');
    assert(d@ == dashes());
    same_chars(&l, &d)
}

proof fn lemma_delim(ls: Seq<Seq<char>>, from: int, k: int)
    requires
        0 <= from <= k <= ls.len(),
        forall|j: int| from <= j < k ==> ls[j] != dashes(),
        k < ls.len() ==> ls[k] == dashes(),
    ensures
        until_delim(ls.subrange(from, ls.len() as int)) == ls.subrange(from, k),
        after_delim(ls.subrange(from, ls.len() as int)) == if k < ls.len() {
            ls.subrange(k + 1, ls.len() as int)
        } else {
            Seq::<Seq<char>>::empty()
        },
    decreases k - from,
{
    let t = ls.subrange(from, ls.len() as int);
    if from < k {
        assert(t[0] == ls[from]);
        assert(t.drop_first() == ls.subrange(from + 1, ls.len() as int));
        lemma_delim(ls, from + 1, k);
        assert(seq![ls[from]] + ls.subrange(from + 1, k) == ls.subrange(from, k));
    } else if k < ls.len() {
        assert(t[0] == ls[k]);
        assert(t.drop_first() == ls.subrange(k + 1, ls.len() as int));
    }
}

/// Index of the first delimiter line from `from` on, or the number of lines.
fn find_delim(c: &Vec<char>, ranges: &Vec<(usize, usize)>, from: usize) -> (k: usize)
    requires
        from <= ranges@.len(),
        forall|j: int|
            #![trigger ranges@[j]]
            0 <= j < ranges@.len() ==> ranges@[j].0 <= ranges@[j].1 && ranges@[j].1 <= c@.len(),
    ensures
        from <= k <= ranges@.len(),
        forall|j: int|
            from <= j < k ==> c@.subrange(ranges@[j].0 as int, ranges@[j].1 as int) != dashes(),
        k < ranges@.len() ==> c@.subrange(ranges@[k as int].0 as int, ranges@[k as int].1 as int)
            == dashes(),
{
    let mut k: usize = from;
    while k < ranges.len() && !is_dashes(c, ranges[k].0, ranges[k].1)
        invariant
            from <= k <= ranges@.len(),
            forall|j: int|
                #![trigger ranges@[j]]
                0 <= j < ranges@.len() ==> ranges@[j].0 <= ranges@[j].1 && ranges@[j].1
                    <= c@.len(),
            forall|j: int|
                from <= j < k ==> c@.subrange(ranges@[j].0 as int, ranges@[j].1 as int)
                    != dashes(),
        decreases ranges@.len() - k,
    {
        k = k + 1;
    }
    k
}

/// The metadata text that opens `content`: the lines between the first line,
/// `---`, and the next line `---` (or the end), joined with newlines.
pub fn get_meta(content: &str) -> (r: Option<String>)
    ensures
        r matches Some(m) ==> meta_text(content@) == Some(m@),
        r is None ==> meta_text(content@) is None,
{
    let c = chars_of(content);
    let ranges = line_ranges(&c);
    let ghost ls = lines_of(c@);
    assert forall|j: int| #![trigger ranges@[j]] 0 <= j < ranges@.len() implies ranges@[j].0
        <= ranges@[j].1 && ranges@[j].1 <= c@.len() && c@.subrange(
        ranges@[j].0 as int,
        ranges@[j].1 as int,
    ) == ls[j] by {
        assert(lines_of(c@)[j] == ls[j]);
    }
    if ranges.len() == 0 || !is_dashes(&c, ranges[0].0, ranges[0].1) {
        return None;
    }
    let k = find_delim(&c, &ranges, 1);
    proof {
        lemma_delim(ls, 1, k as int);
        assert(ls.drop_first() == ls.subrange(1, ls.len() as int));
    }
    let m = join_ranges(&c, &ranges, 1, k);
    proof {
        let js = Seq::new(
            (k - 1) as nat,
            |j: int| c@.subrange(ranges@[1 + j].0 as int, ranges@[1 + j].1 as int),
        );
        assert(js =~= ls.subrange(1, k as int));
    }
    Some(m)
}

/// Removes the metadata block that opens `content`, with its closing line;
/// what follows is kept, its lines joined with newlines. A content that does
/// not open with a metadata block is left as it is.
pub fn remove_meta(content: &mut String)
    ensures
        final(content)@ == body_text(old(content)@),
{
    let c = chars_of(content.as_str());
    let ranges = line_ranges(&c);
    let ghost ls = lines_of(c@);
    assert forall|j: int| #![trigger ranges@[j]] 0 <= j < ranges@.len() implies ranges@[j].0
        <= ranges@[j].1 && ranges@[j].1 <= c@.len() && c@.subrange(
        ranges@[j].0 as int,
        ranges@[j].1 as int,
    ) == ls[j] by {
        assert(lines_of(c@)[j] == ls[j]);
    }
    if ranges.len() == 0 || !is_dashes(&c, ranges[0].0, ranges[0].1) {
        return;
    }
    let k = find_delim(&c, &ranges, 1);
    proof {
        lemma_delim(ls, 1, k as int);
        assert(ls.drop_first() == ls.subrange(1, ls.len() as int));
    }
    if k < ranges.len() {
        let m = join_ranges(&c, &ranges, k + 1, ranges.len());
        proof {
            let js = Seq::new(
                (ranges@.len() - (k + 1)) as nat,
                |j: int| c@.subrange(ranges@[k + 1 + j].0 as int, ranges@[k + 1 + j].1 as int),
            );
            assert(js =~= ls.subrange(k + 1, ls.len() as int));
        }
        *content = m;
    } else {
        *content = String::new();
    }
}

} // verus!
