//! Rewriting a markdown document: every code block whose fence carries the
//! `align` marker is replaced by its re-indented form, everything else is kept
//! byte for byte.

use vstd::prelude::*;
use vstd::string::StrSliceExecFns;
use crate::align::{align, aligned};
use crate::semindent::copy_chars;
use crate::text::{chars_of, is_white, is_white_char, pieces, string_of};

verus! {

/// A code block of a parsed document: its byte range `[start, end)` in the
/// document, the language and meta strings of its fence, and its content.
pub struct CodeBlock {
    pub start: usize,
    pub end: usize,
    pub lang: Option<String>,
    pub meta: Option<String>,
    pub value: String,
}

pub open spec fn opt_view(o: Option<String>) -> Option<Seq<char>> {
    match o {
        Some(s) => Some(s@),
        None => None,
    }
}

/// The marker word that opts a code block in.
pub open spec fn marker() -> Seq<char> {
    seq!['a', 'l', 'i', 'g', 'n']
}

/// The marker stands at `i` in `m` as a word of its own.
pub open spec fn marker_at(m: Seq<char>, i: int) -> bool {
    &&& 0 <= i
    &&& i + 5 <= m.len()
    &&& m.subrange(i, i + 5) == marker()
    &&& (i == 0 || is_white(m[i - 1]))
    &&& (i + 5 == m.len() || is_white(m[i + 5]))
}

/// A meta string that holds the marker as a whitespace-separated word.
pub open spec fn is_marked(meta: Option<Seq<char>>) -> bool {
    meta is Some && exists|i: int| #[trigger] marker_at(meta->0, i)
}

/// Whether the meta string of a fence holds the marker.
pub fn has_marker(meta: &Option<String>) -> (r: bool)
    ensures
        r == is_marked(opt_view(*meta)),
{
    match meta {
        None => false,
        Some(m) => {
            let c = chars_of(m.as_str());
            assert(opt_view(*meta) == Some(m@));
            if c.len() < 5 {
                return false;
            }
            let mut i: usize = 0;
            while i <= c.len() - 5
                invariant
                    c@ == m@,
                    c@.len() >= 5,
                    opt_view(*meta) == Some(m@),
                    forall|j: int| 0 <= j < i ==> !marker_at(m@, j),
                decreases c@.len() - i,
            {
                if c[i] == 'a' && c[i + 1] == 'l' && c[i + 2] == 'i' && c[i + 3] == 'g' && c[i
                    + 4] == 'n' && (i == 0 || is_white_char(c[i - 1])) && (i + 5 == c.len()
                    || is_white_char(c[i + 5])) {
                    proof {
                        assert(m@.subrange(i as int, i + 5) == marker());
                        let o: Option<Seq<char>> = Some(m@);
                        assert(marker_at(o->0, i as int));
                    }
                    return true;
                }
                proof {
                    if m@.subrange(i as int, i + 5) == marker() {
                        assert(m@[i + 0] == m@.subrange(i as int, i + 5)[0]);
                        assert(m@[i + 1] == m@.subrange(i as int, i + 5)[1]);
                        assert(m@[i + 2] == m@.subrange(i as int, i + 5)[2]);
                        assert(m@[i + 3] == m@.subrange(i as int, i + 5)[3]);
                        assert(m@[i + 4] == m@.subrange(i as int, i + 5)[4]);
                    }
                }
                i = i + 1;
            }
            false
        },
    }
}

/// Bytes of the UTF-8 encoding of `c`.
pub open spec fn utf8_width(c: char) -> nat {
    let u = c as u32;
    if u < 0x80 {
        1
    } else if u < 0x800 {
        2
    } else if u < 0x10000 {
        3
    } else {
        4
    }
}

/// Bytes of the UTF-8 encoding of `s`.
pub open spec fn byte_len(s: Seq<char>) -> nat
    decreases s.len(),
{
    if s.len() == 0 {
        0
    } else {
        byte_len(s.drop_last()) + utf8_width(s.last())
    }
}

proof fn lemma_byte_len_grows(s: Seq<char>, i: int, j: int)
    requires
        0 <= i < j <= s.len(),
    ensures
        byte_len(s.subrange(0, i)) < byte_len(s.subrange(0, j)),
    decreases j - i,
{
    assert(s.subrange(0, j).drop_last() == s.subrange(0, j - 1));
    if i < j - 1 {
        lemma_byte_len_grows(s, i, j - 1);
    }
}

/// The character index at which byte offset `b` of `s` falls, if it falls on
/// a character boundary.
pub open spec fn char_index(s: Seq<char>, b: int) -> Option<int> {
    if exists|i: int| 0 <= i <= s.len() && byte_len(s.subrange(0, i)) == b {
        Some(choose|i: int| 0 <= i <= s.len() && byte_len(s.subrange(0, i)) == b)
    } else {
        None
    }
}

fn find_char_index(s: &Vec<char>, b: usize) -> (r: Option<usize>)
    ensures
        match r {
            Some(i) => char_index(s@, b as int) == Some(i as int),
            None => char_index(s@, b as int) is None,
        },
{
    let mut i: usize = 0;
    let mut acc: usize = 0;
    assert(s@.subrange(0, 0) == Seq::<char>::empty());
    while i <= s.len()
        invariant
            i <= s@.len() + 1,
            i <= s@.len() ==> acc == byte_len(s@.subrange(0, i as int)),
            acc <= b,
            forall|j: int| 0 <= j < i && j <= s@.len() ==> byte_len(s@.subrange(0, j)) < b,
        decreases s@.len() + 1 - i,
    {
        if acc == b {
            proof {
                assert forall|j: int| 0 <= j <= s@.len() && byte_len(s@.subrange(0, j)) == b
                    implies j == i by {
                    if j < i {
                    } else if j > i {
                        lemma_byte_len_grows(s@, i as int, j);
                    }
                }
            }
            return Some(i);
        }
        if i == s.len() {
            return None;
        }
        let c = s[i];
        let u = c as u32;
        let w: usize = if u < 0x80 {
            1
        } else if u < 0x800 {
            2
        } else if u < 0x10000 {
            3
        } else {
            4
        };
        proof {
            assert(s@.subrange(0, i + 1).drop_last() == s@.subrange(0, i as int));
        }
        if w > b - acc {
            proof {
                assert forall|j: int| 0 <= j <= s@.len() implies byte_len(s@.subrange(0, j))
                    != b by {
                    if j > i + 1 {
                        lemma_byte_len_grows(s@, i + 1, j);
                    }
                }
            }
            return None;
        }
        acc = acc + w;
        i = i + 1;
    }
    None
}

proof fn lemma_pieces_last(s: Seq<char>, k: int)
    requires
        0 <= k <= s.len(),
        k == 0 || s[k - 1] == '\n',
        forall|j: int| k <= j < s.len() ==> s[j] != '\n',
    ensures
        pieces(s).last() == s.subrange(k, s.len() as int),
    decreases s.len(),
{
    if s.len() > k {
        let t = s.drop_last();
        assert forall|j: int| k <= j < t.len() implies t[j] != '\n' by {
            assert(t[j] == s[j]);
        }
        if k > 0 {
            assert(t[k - 1] == s[k - 1]);
        }
        lemma_pieces_last(t, k);
        crate::text::lemma_pieces_len(t);
        assert(s.subrange(k, s.len() as int) == t.subrange(k, t.len() as int).push(s.last()));
    } else if s.len() > 0 {
        assert(s.last() == '\n');
    }
}

/// The text before offset `start` on the line where `start` stands: what
/// encloses a block opened there, such as a quotation marker.
pub open spec fn line_prefix_of(text: Seq<char>, start: int) -> Seq<char> {
    pieces(text.subrange(0, start)).last()
}

fn line_prefix(chars: &Vec<char>, start: usize) -> (r: String)
    requires
        start <= chars@.len(),
    ensures
        r@ == line_prefix_of(chars@, start as int),
{
    let mut i: usize = start;
    while i > 0 && chars[i - 1] != '\n'
        invariant
            i <= start <= chars@.len(),
            forall|j: int| i <= j < start ==> chars@[j] != '\n',
        decreases i,
    {
        i = i - 1;
    }
    proof {
        let pre = chars@.subrange(0, start as int);
        assert forall|j: int| i <= j < pre.len() implies pre[j] != '\n' by {
            assert(pre[j] == chars@[j]);
        }
        if i > 0 {
            assert(pre[i - 1] == chars@[i - 1]);
        }
        lemma_pieces_last(pre, i as int);
        assert(pre.subrange(i as int, start as int) == chars@.subrange(i as int, start as int));
    }
    let p = copy_chars(chars, i, start);
    string_of(&p)
}

pub open spec fn fence() -> Seq<char> {
    seq!['`', '`', '`']
}

/// The info string of a fence: the language, then the meta string after a
/// space; no info without a language.
pub open spec fn fence_info(lang: Option<Seq<char>>, meta: Option<Seq<char>>) -> Seq<char> {
    match lang {
        Some(l) => match meta {
            Some(m) => l + seq![' '] + m,
            None => l,
        },
        None => Seq::<char>::empty(),
    }
}

/// The text that replaces block `b`, which starts at character `start` of
/// `text`: the opening fence, the aligned content under the line's prefix,
/// and the closing fence under the same prefix.
pub open spec fn replacement(text: Seq<char>, start: int, b: CodeBlock) -> Seq<char> {
    let p = line_prefix_of(text, start);
    fence() + fence_info(opt_view(b.lang), opt_view(b.meta)) + seq!['\n'] + aligned(p, b.value@)
        + p + fence()
}

fn block_text(chars: &Vec<char>, start: usize, b: &CodeBlock) -> (r: String)
    requires
        start <= chars@.len(),
    ensures
        r@ == replacement(chars@, start as int, *b),
{
    let p = line_prefix(chars, start);
    let mut r = String::from_str("```");
    match &b.lang {
        Some(l) => {
            r.append(l.as_str());
            match &b.meta {
                Some(m) => {
                    r.append(" ");
                    r.append(m.as_str());
                },
                None => {},
            }
        },
        None => {},
    }
    r.append("\n");
    let body = align(p.as_str(), b.value.as_str());
    r.append(body.as_str());
    r.append(p.as_str());
    r.append("```");
    proof {
        reveal_strlit("```");
        reveal_strlit(" ");
        reveal_strlit("\n");
        assert("```"@ == fence());
        assert(" "@ == seq![' ']);
        assert("\n"@ == seq!['\n']);
        let info = fence_info(opt_view(b.lang), opt_view(b.meta));
        assert(r@ =~= fence() + info + seq!['\n'] + aligned(p@, b.value@) + p@ + fence());
    }
    r
}

/// The edit for block `b` of `text`: its character range and its
/// replacement, for a marked block whose byte offsets fall on character
/// boundaries in order.
pub open spec fn block_edit(text: Seq<char>, b: CodeBlock) -> Option<(int, int, Seq<char>)> {
    if !is_marked(opt_view(b.meta)) {
        None
    } else {
        match char_index(text, b.start as int) {
            Some(s) => match char_index(text, b.end as int) {
                Some(e) => if s <= e {
                    Some((s, e, replacement(text, s, b)))
                } else {
                    None
                },
                None => None,
            },
            None => None,
        }
    }
}

/// The edits of the blocks, in the blocks' order.
pub open spec fn edits_of(text: Seq<char>, blocks: Seq<CodeBlock>) -> Seq<(int, int, Seq<char>)>
    decreases blocks.len(),
{
    if blocks.len() == 0 {
        Seq::<(int, int, Seq<char>)>::empty()
    } else {
        let r = edits_of(text, blocks.drop_last());
        match block_edit(text, blocks.last()) {
            Some(e) => r.push(e),
            None => r,
        }
    }
}

/// `x` placed after every edit of `s` that starts no later than it.
pub open spec fn insert_by_start(s: Seq<(int, int, Seq<char>)>, x: (int, int, Seq<char>)) -> Seq<
    (int, int, Seq<char>),
>
    decreases s.len(),
{
    if s.len() == 0 {
        seq![x]
    } else if s.last().0 > x.0 {
        insert_by_start(s.drop_last(), x).push(s.last())
    } else {
        s.push(x)
    }
}

/// The edits ordered by start, edits with equal starts in their first order.
pub open spec fn sort_by_start(s: Seq<(int, int, Seq<char>)>) -> Seq<(int, int, Seq<char>)>
    decreases s.len(),
{
    if s.len() == 0 {
        s
    } else {
        insert_by_start(sort_by_start(s.drop_last()), s.last())
    }
}

/// `text` from `cursor` on, with the edits applied in order: the text up to
/// an edit's start is kept, the edit's range is replaced, and an edit that
/// starts before the end of the one applied last is passed over.
pub open spec fn splice(text: Seq<char>, edits: Seq<(int, int, Seq<char>)>, cursor: int) -> Seq<
    char,
>
    decreases edits.len(),
{
    if edits.len() == 0 {
        text.subrange(cursor, text.len() as int)
    } else {
        let e = edits[0];
        if e.0 < cursor || e.1 < e.0 || e.1 > text.len() {
            splice(text, edits.drop_first(), cursor)
        } else {
            text.subrange(cursor, e.0) + e.2 + splice(text, edits.drop_first(), e.1)
        }
    }
}

/// The document `text` with its marked blocks aligned.
pub open spec fn rewritten(text: Seq<char>, blocks: Seq<CodeBlock>) -> Seq<char> {
    splice(text, sort_by_start(edits_of(text, blocks)), 0)
}

pub open spec fn ev(e: (usize, usize, String)) -> (int, int, Seq<char>) {
    (e.0 as int, e.1 as int, e.2@)
}

pub open spec fn eviews(v: Seq<(usize, usize, String)>) -> Seq<(int, int, Seq<char>)> {
    Seq::new(v.len(), |i: int| ev(v[i]))
}

fn insert_edit(v: &mut Vec<(usize, usize, String)>, x: (usize, usize, String))
    ensures
        eviews(final(v)@) == insert_by_start(eviews(old(v)@), ev(x)),
{
    let ghost s = eviews(v@);
    let mut i: usize = v.len();
    assert(s.subrange(0, s.len() as int) == s);
    assert(s.subrange(s.len() as int, s.len() as int) == Seq::<(int, int, Seq<char>)>::empty());
    while i > 0 && v[i - 1].0 > x.0
        invariant
            i <= v@.len(),
            s == eviews(v@),
            insert_by_start(s, ev(x)) == insert_by_start(s.subrange(0, i as int), ev(x))
                + s.subrange(i as int, s.len() as int),
        decreases i,
    {
        let ghost a = s.subrange(0, i as int);
        assert(a.drop_last() == s.subrange(0, i - 1));
        assert(a.last() == s[i - 1]);
        assert(s.subrange(i - 1, s.len() as int) == seq![s[i - 1]] + s.subrange(
            i as int,
            s.len() as int,
        ));
        assert(insert_by_start(s.subrange(0, i - 1), ev(x)).push(s[i - 1]) + s.subrange(
            i as int,
            s.len() as int,
        ) =~= insert_by_start(s.subrange(0, i - 1), ev(x)) + s.subrange(i - 1, s.len() as int));
        i = i - 1;
    }
    proof {
        let a = s.subrange(0, i as int);
        if i > 0 {
            assert(a.last() == s[i - 1]);
        }
    }
    v.insert(i, x);
    proof {
        assert(eviews(v@) =~= s.subrange(0, i as int).push(ev(x)) + s.subrange(
            i as int,
            s.len() as int,
        ));
    }
}

/// Rewrites `text`, whose code blocks are `blocks`: each marked block whose
/// offsets fall on character boundaries is replaced by its aligned form, in
/// the order of the blocks' starts, and all other text is kept as it is.
pub fn rewrite_blocks(text: &str, blocks: &Vec<CodeBlock>) -> (r: String)
    ensures
        r@ == rewritten(text@, blocks@),
{
    let chars = chars_of(text);
    let mut edits: Vec<(usize, usize, String)> = Vec::new();
    let mut k: usize = 0;
    assert(blocks@.subrange(0, 0) == Seq::<CodeBlock>::empty());
    assert(eviews(edits@) =~= Seq::<(int, int, Seq<char>)>::empty());
    while k < blocks.len()
        invariant
            k <= blocks@.len(),
            chars@ == text@,
            eviews(edits@) == sort_by_start(edits_of(text@, blocks@.subrange(0, k as int))),
        decreases blocks@.len() - k,
    {
        let b = &blocks[k];
        let ghost pre = blocks@.subrange(0, k + 1);
        assert(pre.drop_last() == blocks@.subrange(0, k as int));
        assert(pre.last() == *b);
        let ghost before = edits_of(text@, blocks@.subrange(0, k as int));
        let mut added = false;
        if has_marker(&b.meta) {
            let s = find_char_index(&chars, b.start);
            let e = find_char_index(&chars, b.end);
            match s {
                Some(si) => match e {
                    Some(ei) => {
                        if si <= ei {
                            let t = block_text(&chars, si, b);
                            proof {
                                let x = (si as int, ei as int, t@);
                                assert(block_edit(text@, *b) == Some(x));
                                assert(edits_of(text@, pre) == before.push(x));
                                assert(before.push(x).drop_last() == before);
                            }
                            insert_edit(&mut edits, (si, ei, t));
                            added = true;
                        }
                    },
                    None => {},
                },
                None => {},
            }
        }
        proof {
            if !added {
                assert(block_edit(text@, *b) is None);
                assert(edits_of(text@, pre) == before);
            }
        }
        k = k + 1;
    }
    assert(blocks@.subrange(0, blocks@.len() as int) == blocks@);
    let ghost all = eviews(edits@);
    let mut res = String::new();
    let mut cursor: usize = 0;
    let mut j: usize = 0;
    assert(all.skip(0) == all);
    assert(Seq::<char>::empty() + splice(text@, all, 0) == splice(text@, all, 0));
    while j < edits.len()
        invariant
            j <= edits@.len(),
            chars@ == text@,
            all == eviews(edits@),
            cursor <= text@.len(),
            splice(text@, all, 0) == res@ + splice(text@, all.skip(j as int), cursor as int),
        decreases edits@.len() - j,
    {
        let s = edits[j].0;
        let e = edits[j].1;
        let ghost rest = all.skip(j as int);
        assert(rest[0] == all[j as int]);
        assert(rest.drop_first() == all.skip(j + 1));
        if s >= cursor && s <= e && e <= chars.len() {
            let kept = text.substring_char(cursor, s);
            res.append(kept);
            res.append(edits[j].2.as_str());
            proof {
                assert(res@ + splice(text@, all.skip(j + 1), e as int) =~= res@.subrange(
                    0,
                    res@.len() - kept@.len() - edits@[j as int].2@.len(),
                ) + splice(text@, rest, cursor as int));
            }
            cursor = e;
        }
        j = j + 1;
    }
    let tail = text.substring_char(cursor, chars.len());
    res.append(tail);
    proof {
        assert(all.skip(edits@.len() as int) == Seq::<(int, int, Seq<char>)>::empty());
    }
    res
}

proof fn lemma_no_edits(text: Seq<char>, blocks: Seq<CodeBlock>)
    requires
        forall|i: int| 0 <= i < blocks.len() ==> !is_marked(opt_view(#[trigger] blocks[i].meta)),
    ensures
        edits_of(text, blocks) == Seq::<(int, int, Seq<char>)>::empty(),
    decreases blocks.len(),
{
    if blocks.len() > 0 {
        let t = blocks.drop_last();
        assert forall|i: int| 0 <= i < t.len() implies !is_marked(opt_view(#[trigger] t[i].meta)) by {
            assert(t[i] == blocks[i]);
        }
        lemma_no_edits(text, t);
        assert(!is_marked(opt_view(blocks[blocks.len() - 1].meta)));
    }
}

/// A document none of whose code blocks carries the marker is left exactly
/// as it is.
pub proof fn lemma_unmarked_unchanged(text: Seq<char>, blocks: Seq<CodeBlock>)
    requires
        forall|i: int| 0 <= i < blocks.len() ==> !is_marked(opt_view(#[trigger] blocks[i].meta)),
    ensures
        rewritten(text, blocks) == text,
{
    lemma_no_edits(text, blocks);
    assert(text.subrange(0, text.len() as int) == text);
}

/// Two edits in order, the second starting at or after the end of the first,
/// give the text before the first, the first replacement, the text between
/// them, the second replacement and the text after the second, each region
/// unchanged.
pub proof fn lemma_splice_two(
    text: Seq<char>,
    a: (int, int, Seq<char>),
    b: (int, int, Seq<char>),
)
    requires
        0 <= a.0 <= a.1 <= b.0 <= b.1 <= text.len(),
    ensures
        splice(text, seq![a, b], 0) == text.subrange(0, a.0) + a.2 + text.subrange(a.1, b.0) + b.2
            + text.subrange(b.1, text.len() as int),
{
    let e = seq![a, b];
    assert(e.drop_first() == seq![b]);
    assert(seq![b].drop_first() == Seq::<(int, int, Seq<char>)>::empty());
    assert(seq![b][0] == b);
    assert(e[0] == a);
    assert(splice(text, Seq::<(int, int, Seq<char>)>::empty(), b.1) == text.subrange(
        b.1,
        text.len() as int,
    ));
    assert(splice(text, seq![b], a.1) == text.subrange(a.1, b.0) + b.2 + text.subrange(
        b.1,
        text.len() as int,
    ));
}

/// The text from `cursor` on with every edit applied, none passed over.
pub open spec fn interleave(text: Seq<char>, edits: Seq<(int, int, Seq<char>)>, cursor: int) -> Seq<
    char,
>
    decreases edits.len(),
{
    if edits.len() == 0 {
        text.subrange(cursor, text.len() as int)
    } else {
        text.subrange(cursor, edits[0].0) + edits[0].2 + interleave(
            text,
            edits.drop_first(),
            edits[0].1,
        )
    }
}

/// Edits in order and apart, each within the text and after `cursor`, are
/// all applied, each exactly once: the result is the text before the first,
/// each replacement followed by the unchanged text up to the next edit, and
/// the unchanged text after the last.
pub proof fn lemma_splice_ordered(
    text: Seq<char>,
    edits: Seq<(int, int, Seq<char>)>,
    cursor: int,
)
    requires
        0 <= cursor,
        forall|i: int| 0 <= i < edits.len() ==> #[trigger] edits[i].0 <= edits[i].1,
        forall|i: int| 0 < i < edits.len() ==> edits[i - 1].1 <= #[trigger] edits[i].0,
        edits.len() > 0 ==> cursor <= edits[0].0,
        edits.len() > 0 ==> edits[edits.len() - 1].1 <= text.len(),
    ensures
        splice(text, edits, cursor) == interleave(text, edits, cursor),
    decreases edits.len(),
{
    if edits.len() > 0 {
        let rest = edits.drop_first();
        assert forall|i: int| 0 <= i < rest.len() implies #[trigger] rest[i].0 <= rest[i].1 by {
            assert(rest[i] == edits[i + 1]);
        }
        assert forall|i: int| 0 < i < rest.len() implies rest[i - 1].1 <= #[trigger] rest[i].0 by {
            assert(rest[i] == edits[i + 1]);
            assert(rest[i - 1] == edits[i]);
        }
        assert forall|i: int| 0 <= i < edits.len() implies #[trigger] edits[i].1 <= edits[edits.len()
            - 1].1 by {
            lemma_ends_ordered(edits, i);
        }
        if rest.len() > 0 {
            assert(rest[0] == edits[1]);
            assert(rest[rest.len() - 1] == edits[edits.len() - 1]);
        }
        lemma_splice_ordered(text, rest, edits[0].1);
    }
}

proof fn lemma_ends_ordered(edits: Seq<(int, int, Seq<char>)>, i: int)
    requires
        0 <= i < edits.len(),
        forall|k: int| 0 <= k < edits.len() ==> #[trigger] edits[k].0 <= edits[k].1,
        forall|k: int| 0 < k < edits.len() ==> edits[k - 1].1 <= #[trigger] edits[k].0,
    ensures
        edits[i].1 <= edits[edits.len() - 1].1,
    decreases edits.len() - i,
{
    if i < edits.len() - 1 {
        assert(edits[i + 1].0 <= edits[i + 1].1);
        lemma_ends_ordered(edits, i + 1);
    }
}

} // verus!
