use mdbook_align::checklist::{reco_description, reco_of, Checklist, RecoCheck};
use mdbook_align::front_matter::{get_meta, remove_meta, ExtConfig};

#[test]
fn new_checklist_is_empty() {
    let c = Checklist::new();
    assert_eq!("Checklist", c.title);
    assert!(c.data.is_empty());
    assert_eq!("# Checklist\n\n\n\n", c.content());
}

#[test]
fn insert_groups_by_path() {
    let mut c = Checklist::new();
    c.insert("Intro", "intro.md", "r1".to_string(), "Do this".to_string());
    c.insert("Other", "other.md", "r2".to_string(), "Do that".to_string());
    c.insert("Intro again", "intro.md", "r3".to_string(), "And this".to_string());
    assert_eq!(2, c.data.len());
    assert_eq!("Intro", c.data[0].0);
    assert_eq!(2, c.data[0].2.len());
    assert_eq!("r3", c.data[0].2[1].name);
    assert_eq!(1, c.data[1].2.len());
}

#[test]
fn content_lists_and_links() {
    let mut c = Checklist::new();
    c.set_title("Recos".to_string());
    c.insert("Intro", "intro.md", "r1".to_string(), "T - Do this".to_string());
    c.insert("Other", "other.md", "r2".to_string(), "T - Do that".to_string());
    let expected = "# Recos\n\n\n - Intro:\n   - [ ] T - Do this ([r1])\n\n - Other:\n   - [ ] T - Do that ([r2])\n\n\n[r1]: intro.md#r1\n[r2]: other.md#r2\n";
    assert_eq!(expected, c.content());
}

#[test]
fn meta_block_read() {
    let text = "---\nreferences:\n  - id: a\n---\nbody\nmore";
    assert_eq!(Some("references:\n  - id: a".to_string()), get_meta(text));
    assert_eq!(None, get_meta("no meta\n---\n"));
    assert_eq!(None, get_meta(""));
}

#[test]
fn meta_block_without_end_reads_to_the_end() {
    assert_eq!(Some("a: 1\nb: 2".to_string()), get_meta("---\na: 1\nb: 2\n"));
}

#[test]
fn meta_block_removed() {
    let mut text = "---\nk: v\n---\nbody\nmore\n".to_string();
    remove_meta(&mut text);
    assert_eq!("body\nmore", text);
    let mut plain = "plain\n---\n".to_string();
    remove_meta(&mut plain);
    assert_eq!("plain\n---\n", plain);
    let mut open = "---\nk: v\n".to_string();
    remove_meta(&mut open);
    assert_eq!("", open);
}

#[test]
fn ext_config_holds_title() {
    let c = ExtConfig { title: "Bibliography".to_string() };
    assert_eq!("Bibliography", c.title);
}

#[test]
fn reco_decisions() {
    use_reco();
}

fn s(x: &str) -> Option<String> {
    Some(x.to_string())
}

fn use_reco() {
    assert!(matches!(reco_of(s("other"), s("i"), s("t"), s("x")), RecoCheck::NotReco));
    assert!(matches!(reco_of(None, s("i"), s("t"), s("x")), RecoCheck::NotReco));
    assert!(matches!(reco_of(s("reco"), None, s("t"), s("x")), RecoCheck::MissingId));
    assert!(matches!(reco_of(s("reco"), s("i"), None, s("x")), RecoCheck::MissingType));
    assert!(matches!(reco_of(s("reco"), s("i"), s("t"), None), RecoCheck::MissingTitle));
    match reco_of(s("reco"), s("i"), s("Rule"), s("Be nice")) {
        RecoCheck::Found(r) => {
            assert_eq!("i", r.id);
            assert_eq!("Rule - Be nice", reco_description(&r));
        }
        _ => panic!("expected a recommendation"),
    }
}
