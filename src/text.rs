//! Character-level helpers shared by the parser and the document rewriter:
//! whitespace classification, line splitting and string conversion.

use vstd::prelude::*;
use vstd::string::StrSliceExecFns;

verus! {

/// The Unicode `White_Space` property, as used by `char::is_whitespace`.
pub open spec fn is_white(c: char) -> bool {
    let u = c as u32;
    (9 <= u && u <= 13) || u == 32 || u == 0x85 || u == 0xA0 || u == 0x1680 || (0x2000 <= u
        && u <= 0x200A) || u == 0x2028 || u == 0x2029 || u == 0x202F || u == 0x205F || u
        == 0x3000
}

/// Whether `c` is a whitespace character.
pub fn is_white_char(c: char) -> (r: bool)
    ensures
        r == is_white(c),
{
    let u = c as u32;
    (9 <= u && u <= 13) || u == 32 || u == 0x85 || u == 0xA0 || u == 0x1680 || (0x2000 <= u
        && u <= 0x200A) || u == 0x2028 || u == 0x2029 || u == 0x202F || u == 0x205F || u
        == 0x3000
}

/// Number of leading whitespace characters of `s`.
pub open spec fn white_len(s: Seq<char>) -> nat
    decreases s.len(),
{
    if s.len() > 0 && is_white(s[0]) {
        1 + white_len(s.drop_first())
    } else {
        0
    }
}

pub proof fn lemma_white_len(s: Seq<char>)
    ensures
        white_len(s) <= s.len(),
        forall|k: int| 0 <= k < white_len(s) ==> is_white(#[trigger] s[k]),
        white_len(s) < s.len() ==> !is_white(s[white_len(s) as int]),
    decreases s.len(),
{
    if s.len() > 0 && is_white(s[0]) {
        lemma_white_len(s.drop_first());
        assert forall|k: int| 0 <= k < white_len(s) implies is_white(#[trigger] s[k]) by {
            if k > 0 {
                assert(s[k] == s.drop_first()[k - 1]);
            }
        }
    }
}

/// The pieces of `s` between its `'\n'` characters: one more than there are
/// newlines.
pub open spec fn pieces(s: Seq<char>) -> Seq<Seq<char>>
    decreases s.len(),
{
    if s.len() == 0 {
        seq![Seq::<char>::empty()]
    } else {
        let p = pieces(s.drop_last());
        if s.last() == '\n' {
            p.push(Seq::<char>::empty())
        } else {
            p.update(p.len() - 1, p.last().push(s.last()))
        }
    }
}

pub proof fn lemma_pieces_len(s: Seq<char>)
    ensures
        pieces(s).len() >= 1,
    decreases s.len(),
{
    if s.len() > 0 {
        lemma_pieces_len(s.drop_last());
    }
}

/// A piece without the `'\r'` of a `"\r\n"` line ending.
pub open spec fn trim_cr(l: Seq<char>) -> Seq<char> {
    if l.len() > 0 && l.last() == '\r' {
        l.drop_last()
    } else {
        l
    }
}

/// The lines of `s`, as `str::lines` gives them: split at `"\n"` or `"\r\n"`,
/// the final line ending optional, so that an empty text has no line and a
/// text ending with a newline has no empty last line.
pub open spec fn lines_of(s: Seq<char>) -> Seq<Seq<char>> {
    let p = pieces(s);
    let n = if p.last().len() == 0 {
        p.len() - 1
    } else {
        p.len() as int
    };
    Seq::new(n as nat, |k: int| if k + 1 < p.len() { trim_cr(p[k]) } else { p[k] })
}

/// The characters of `s`.
pub fn chars_of(s: &str) -> (r: Vec<char>)
    ensures
        r@ == s@,
{
    let mut r: Vec<char> = Vec::new();
    for c in it: s.chars()
        invariant
            r@ == it.seq().subrange(0, it.index() as int),
            it.seq() == s@,
    {
        r.push(c);
    }
    r
}

/// The character ranges `[start, end)` of the lines of `s`.
pub fn line_ranges(s: &Vec<char>) -> (r: Vec<(usize, usize)>)
    ensures
        r@.len() == lines_of(s@).len(),
        forall|k: int|
            0 <= k < r@.len() ==> {
                &&& r@[k].0 <= r@[k].1 && r@[k].1 <= s@.len()
                &&& s@.subrange(r@[k].0 as int, r@[k].1 as int) == #[trigger] lines_of(s@)[k]
            },
{
    let mut r: Vec<(usize, usize)> = Vec::new();
    let mut start: usize = 0;
    let mut i: usize = 0;
    while i < s.len()
        invariant
            start <= i <= s@.len(),
            pieces(s@.subrange(0, i as int)).len() == r@.len() + 1,
            pieces(s@.subrange(0, i as int)).last() == s@.subrange(start as int, i as int),
            forall|k: int|
                #![trigger r@[k]]
                0 <= k < r@.len() ==> {
                    &&& r@[k].0 <= r@[k].1 && r@[k].1 <= s@.len()
                    &&& s@.subrange(r@[k].0 as int, r@[k].1 as int) == trim_cr(
                        pieces(s@.subrange(0, i as int))[k],
                    )
                },
        decreases s@.len() - i,
    {
        let ghost pre = s@.subrange(0, i as int);
        let ghost next = s@.subrange(0, i + 1);
        let ghost r0 = r@;
        assert(next.drop_last() == pre);
        assert(next.last() == s@[i as int]);
        if s[i] == '\n' {
            let end = if i > start && s[i - 1] == '\r' {
                i - 1
            } else {
                i
            };
            proof {
                let l = s@.subrange(start as int, i as int);
                if i > start && s@[i - 1] == '\r' {
                    assert(l.drop_last() == s@.subrange(start as int, end as int));
                }
                assert(trim_cr(l) == s@.subrange(start as int, end as int));
            }
            r.push((start, end));
            start = i + 1;
        }
        i = i + 1;
        proof {
            let p = pieces(s@.subrange(0, i as int));
            lemma_pieces_len(pre);
            assert(p.last() == s@.subrange(start as int, i as int));
            assert forall|k: int| #![trigger r@[k]] 0 <= k < r@.len() implies {
                &&& r@[k].0 <= r@[k].1 && r@[k].1 <= s@.len()
                &&& s@.subrange(r@[k].0 as int, r@[k].1 as int) == trim_cr(
                    pieces(s@.subrange(0, i as int))[k],
                )
            } by {
                assert(pieces(next)[k] == pieces(pre)[k]);
                if k < r0.len() {
                    assert(r@[k] == r0[k]);
                }
            }
        }
    }
    proof {
        assert(s@.subrange(0, s@.len() as int) == s@);
    }
    proof {
        lemma_pieces_len(s@);
    }
    if start < s.len() {
        r.push((start, s.len()));
    }
    proof {
        let p = pieces(s@);
        assert forall|k: int| 0 <= k < r@.len() implies {
            &&& r@[k].0 <= r@[k].1 && r@[k].1 <= s@.len()
            &&& s@.subrange(r@[k].0 as int, r@[k].1 as int) == #[trigger] lines_of(s@)[k]
        } by {
            assert(pieces(s@.subrange(0, s@.len() as int)) == p);
            if k + 1 >= p.len() {
                assert(s@.subrange(start as int, s@.len() as int) == p[k]);
            }
        }
    }
    r
}

/// Relies on `FromIterator<char>` for `String`: the string holds the
/// characters in order.
#[verifier::external_body]
pub(crate) fn string_of(v: &Vec<char>) -> (r: String)
    ensures
        r@ == v@,
{
    v.iter().collect()
}

/// The lines of `s`, as views into it.
pub fn split_lines<'a>(s: &'a str) -> (r: Vec<&'a str>)
    ensures
        r@.len() == lines_of(s@).len(),
        forall|k: int| 0 <= k < r@.len() ==> #[trigger] r@[k]@ == lines_of(s@)[k],
{
    let c = chars_of(s);
    let ranges = line_ranges(&c);
    let mut r: Vec<&'a str> = Vec::new();
    let mut k: usize = 0;
    assert forall|j: int| #![trigger ranges@[j]] 0 <= j < ranges@.len() implies {
        &&& ranges@[j].0 <= ranges@[j].1 && ranges@[j].1 <= c@.len()
        &&& c@.subrange(ranges@[j].0 as int, ranges@[j].1 as int) == lines_of(c@)[j]
    } by {
        assert(lines_of(c@)[j] == lines_of(c@)[j]);
    }
    while k < ranges.len()
        invariant
            k <= ranges@.len(),
            c@ == s@,
            r@.len() == k,
            ranges@.len() == lines_of(c@).len(),
            forall|j: int|
                #![trigger ranges@[j]]
                0 <= j < ranges@.len() ==> {
                    &&& ranges@[j].0 <= ranges@[j].1 && ranges@[j].1 <= c@.len()
                    &&& c@.subrange(ranges@[j].0 as int, ranges@[j].1 as int) == lines_of(c@)[j]
                },
            forall|j: int| 0 <= j < k ==> #[trigger] r@[j]@ == lines_of(s@)[j],
        decreases ranges@.len() - k,
    {
        let (a, b) = ranges[k];
        assert(ranges@[k as int] == (a, b));
        r.push(s.substring_char(a, b));
        k = k + 1;
    }
    r
}

} // verus!
