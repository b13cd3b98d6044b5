use mdbook_align::cite::{cite_proc, references, BibEntry};
use mdbook_align::front_matter::ExtConfig;

fn entry(id: &str, url: Option<&str>, authors: &[&str]) -> BibEntry {
    BibEntry {
        id: id.to_string(),
        title: format!("Title {id}"),
        url: url.map(|u| u.to_string()),
        authors: authors.iter().map(|a| a.to_string()).collect(),
    }
}

#[test]
fn references_of_cited_entries_only() {
    let bib = vec![
        entry("a", Some("http://x"), &["Doe", "Roe"]),
        entry("b", None, &[]),
        entry("c", None, &["Poe"]),
    ];
    let refs = vec!["c".to_string(), "a".to_string()];
    let expected = "\n\n## Refs\n\n* <a id=\"a\"></a> *[Title a](http://x)*, Doe, Roe (a)\n* <a id=\"c\"></a> *Title c*, Poe (c)\n";
    assert_eq!(expected, references("Refs", &refs, &bib));
}

#[test]
fn no_citation_no_section() {
    let bib = vec![entry("a", None, &[])];
    assert_eq!("", references("Refs", &Vec::new(), &bib));
}

#[test]
fn citations_linked_and_listed() {
    let config = ExtConfig { title: "Refs".to_string() };
    let bib = Some(vec![entry("k-1", None, &["Doe"]), entry("z", None, &[])]);
    let out = cite_proc(&config, &bib, "See [@k-1].");
    assert_eq!(
        "See [k-1](#k-1).\n\n## Refs\n\n* <a id=\"k-1\"></a> *Title k-1*, Doe (k-1)\n",
        out
    );
}

#[test]
fn without_bibliography_content_kept() {
    let config = ExtConfig { title: "Refs".to_string() };
    assert_eq!("See [@x].", cite_proc(&config, &None, "See [@x]."));
}

#[test]
fn bibliography_without_citation_links_nothing() {
    let config = ExtConfig { title: "Refs".to_string() };
    let bib = Some(vec![entry("a", None, &[])]);
    assert_eq!("plain", cite_proc(&config, &bib, "plain"));
}
