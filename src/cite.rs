//! Citations: `[@key]` marks become links to the key's anchor, and the cited
//! entries of the chapter's bibliography are listed at its end.

use vstd::prelude::*;
use regex::Regex;
use crate::front_matter::ExtConfig;
use crate::semindent::same_chars;
use crate::text::chars_of;

verus! {

#[verifier::external_type_specification]
#[verifier::external_body]
pub struct ExRegex(regex::Regex);

#[verifier::external_type_specification]
#[verifier::external_body]
pub struct ExRegexError(regex::Error);

/// Relies on `regex::Regex::new`: compiles the pattern, or reports why not.
#[verifier::external_body]
fn compile(pattern: &str) -> (r: Result<Regex, regex::Error>) {
    Regex::new(pattern)
}

/// Relies on `regex::Regex::replace_all`: `text` with every match replaced.
#[verifier::external_body]
fn replace_all(re: &Regex, text: &str, rep: &str) -> (r: String) {
    re.replace_all(text, rep).into_owned()
}

/// Relies on `regex::Regex::captures_iter`: the text of the first group of
/// each match, in order.
#[verifier::external_body]
fn first_groups(re: &Regex, text: &str) -> (r: Vec<String>) {
    re.captures_iter(text).map(|c| c.get(1).map_or(String::new(), |m| m.as_str().to_string())).collect()
}

/// An entry of a bibliography.
pub struct BibEntry {
    pub id: String,
    pub title: String,
    pub url: Option<String>,
    /// The authors' family names.
    pub authors: Vec<String>,
}

/// The title of an entry, as a link where the entry has an address.
pub open spec fn title_link(e: BibEntry) -> Seq<char> {
    match e.url {
        Some(u) => "["@ + e.title@ + "]("@ + u@ + ")"@,
        None => e.title@,
    }
}

/// The authors, each after a comma.
pub open spec fn authors_text(a: Seq<String>) -> Seq<char>
    decreases a.len(),
{
    if a.len() == 0 {
        Seq::<char>::empty()
    } else {
        authors_text(a.drop_last()) + ", "@ + a.last()@
    }
}

/// The line of the references list for an entry: its anchor, its title and
/// authors, and its key.
pub open spec fn entry_line(e: BibEntry) -> Seq<char> {
    "* <a id=\""@ + e.id@ + "\"></a> *"@ + title_link(e) + "*"@ + authors_text(e.authors@)
        + " ("@ + e.id@ + ")\n"@
}

pub open spec fn is_cited(refs: Seq<String>, id: Seq<char>) -> bool {
    exists|i: int| 0 <= i < refs.len() && #[trigger] refs[i]@ == id
}

/// The lines of the cited entries, in the bibliography's order.
pub open spec fn cited_lines(refs: Seq<String>, bib: Seq<BibEntry>) -> Seq<char>
    decreases bib.len(),
{
    if bib.len() == 0 {
        Seq::<char>::empty()
    } else if is_cited(refs, bib.last().id@) {
        cited_lines(refs, bib.drop_last()) + entry_line(bib.last())
    } else {
        cited_lines(refs, bib.drop_last())
    }
}

/// The references section: nothing when nothing is cited, else a heading
/// with the configured title and the cited entries.
pub open spec fn references_section(title: Seq<char>, refs: Seq<String>, bib: Seq<BibEntry>) -> Seq<
    char,
> {
    if refs.len() == 0 {
        Seq::<char>::empty()
    } else {
        "\n\n## "@ + title + "\n\n"@ + cited_lines(refs, bib)
    }
}

fn cited(refs: &Vec<String>, id: &String) -> (r: bool)
    ensures
        r == is_cited(refs@, id@),
{
    let ic = chars_of(id.as_str());
    let mut i: usize = 0;
    while i < refs.len()
        invariant
            i <= refs@.len(),
            ic@ == id@,
            forall|j: int| 0 <= j < i ==> refs@[j]@ != id@,
        decreases refs@.len() - i,
    {
        let rc = chars_of(refs[i].as_str());
        if same_chars(&rc, &ic) {
            assert(refs@[i as int]@ == id@);
            return true;
        }
        i = i + 1;
    }
    false
}

fn entry_text(e: &BibEntry) -> (r: String)
    ensures
        r@ == entry_line(*e),
{
    let mut r = String::from_str("* <a id=\"");
    r.append(e.id.as_str());
    r.append("\"></a> *");
    match &e.url {
        Some(u) => {
            r.append("[");
            r.append(e.title.as_str());
            r.append("](");
            r.append(u.as_str());
            r.append(")");
        },
        None => {
            r.append(e.title.as_str());
        },
    }
    r.append("*");
    let ghost head = r@;
    let mut k: usize = 0;
    assert(e.authors@.subrange(0, 0) == Seq::<String>::empty());
    assert(head + Seq::<char>::empty() == head);
    while k < e.authors.len()
        invariant
            k <= e.authors@.len(),
            r@ == head + authors_text(e.authors@.subrange(0, k as int)),
        decreases e.authors@.len() - k,
    {
        r.append(", ");
        r.append(e.authors[k].as_str());
        proof {
            let p = e.authors@.subrange(0, k + 1);
            assert(p.drop_last() == e.authors@.subrange(0, k as int));
            assert(r@ =~= head + authors_text(p));
        }
        k = k + 1;
    }
    assert(e.authors@.subrange(0, e.authors@.len() as int) == e.authors@);
    r.append(" (");
    r.append(e.id.as_str());
    r.append(")\n");
    assert(r@ =~= entry_line(*e));
    r
}

/// The references section for the keys `refs` cited in a chapter.
pub fn references(title: &str, refs: &Vec<String>, bib: &Vec<BibEntry>) -> (r: String)
    ensures
        r@ == references_section(title@, refs@, bib@),
{
    if refs.len() == 0 {
        return String::new();
    }
    let mut r = String::from_str("\n\n## ");
    r.append(title);
    r.append("\n\n");
    let ghost head = r@;
    let mut k: usize = 0;
    assert(bib@.subrange(0, 0) == Seq::<BibEntry>::empty());
    assert(head + Seq::<char>::empty() == head);
    while k < bib.len()
        invariant
            k <= bib@.len(),
            r@ == head + cited_lines(refs@, bib@.subrange(0, k as int)),
        decreases bib@.len() - k,
    {
        let ghost r0 = r@;
        let ghost p = bib@.subrange(0, k + 1);
        assert(p.drop_last() == bib@.subrange(0, k as int));
        assert(p.last() == bib@[k as int]);
        if cited(refs, &bib[k].id) {
            let line = entry_text(&bib[k]);
            r.append(line.as_str());
            assert(r@ =~= head + cited_lines(refs@, p));
        }
        k = k + 1;
    }
    assert(bib@.subrange(0, bib@.len() as int) == bib@);
    r
}

/// Links the citations of `content` and appends the references section for
/// the entries of `bib` that it cites. Without a bibliography the content is
/// returned as it is.
pub fn cite_proc(config: &ExtConfig, bib: &Option<Vec<BibEntry>>, content: &str) -> (r: String)
    ensures
        bib is None ==> r@ == content@,
        bib matches Some(b) ==> (r@ == content@ || exists|linked: Seq<char>, refs: Seq<String>|
            r@ == linked + references_section(config.title@, refs, b@)),
{
    match bib {
        None => String::from_str(content),
        Some(b) => match compile("\\[@([a-zA-Z0-9\\-_]*)\\]") {
            Ok(re) => {
                let linked = replace_all(&re, content, "[$1](#$1)");
                let refs = first_groups(&re, content);
                let section = references(config.title.as_str(), &refs, b);
                let mut r = linked;
                let ghost l = r@;
                r.append(section.as_str());
                assert(r@ == l + references_section(config.title@, refs@, b@));
                r
            },
            Err(_) => String::from_str(content),
        },
    }
}

} // verus!
