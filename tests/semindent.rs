use mdbook_align::semindent::{parse_indented_text, strip_whispace_prefix, to_string, Element};
use mdbook_align::semindent::Element::{Line, Subtext};
use mdbook_align::text::split_lines;

#[test]
fn test_wtrip_prefix() {
    assert_eq!("", strip_whispace_prefix("   "));
    assert_eq!("coucou", strip_whispace_prefix("coucou"));
    assert_eq!("coucou", strip_whispace_prefix(" coucou"));
    assert_eq!("coucou", strip_whispace_prefix("  coucou"));
}

#[test]
fn test_lines_ending_with_newline() {
    let text = "foo\r\nbar\n\nbaz\n";
    let lines = split_lines(text);
    let mut lines = lines.into_iter();

    assert_eq!(Some("foo"), lines.next());
    assert_eq!(Some("bar"), lines.next());
    assert_eq!(Some(""), lines.next());
    assert_eq!(Some("baz"), lines.next());

    assert_eq!(None, lines.next());
}

#[test]
fn test_lines_ending_with_many_newline() {
    let text = "foo\r\nbar\n\nbaz\n\n";
    let lines = split_lines(text);
    let mut lines = lines.into_iter();

    assert_eq!(Some("foo"), lines.next());
    assert_eq!(Some("bar"), lines.next());
    assert_eq!(Some(""), lines.next());
    assert_eq!(Some("baz"), lines.next());
    assert_eq!(Some(""), lines.next());

    assert_eq!(None, lines.next());
}

#[test]
fn test_lines() {
    let text = "foo\r\nbar\n\nbaz";
    let lines = split_lines(text);
    let mut lines = lines.into_iter();

    assert_eq!(Some("foo"), lines.next());
    assert_eq!(Some("bar"), lines.next());
    assert_eq!(Some(""), lines.next());
    assert_eq!(Some("baz"), lines.next());

    assert_eq!(None, lines.next());
}

#[test]
fn last_line() {
    assert_eq!(vec![] as Vec<&str>, split_lines(""));
}

#[test]
fn lines_keep_lone_carriage_return() {
    assert_eq!(vec!["a", "\rb\r"], split_lines("a\r\n\rb\r"));
}

#[test]
fn parse() {
    let text = r#"coucou
plop
    plap
    plip
        plup
plaf

"#;
    let sem = parse_indented_text(text);
    assert_eq!(Element::Line("coucou"), sem[0]);
    assert_eq!(Element::Line("plop"), sem[1]);
    assert_eq!(
        Element::Subtext(vec![
            Element::Line("plap"),
            Element::Line("plip"),
            Element::Subtext(vec![Element::Line("plup")])
        ]),
        sem[2]
    );
    assert_eq!(Element::Line("plaf"), sem[3]);
    assert_eq!(Element::Line(""), sem[4]);
    assert_eq!(5, sem.len())
}

#[test]
fn border_cases() {
    assert_eq!(Vec::<Element>::new(), parse_indented_text(""));
    assert_eq!(vec![Element::Line("")], parse_indented_text("   "));
    assert_eq!(
        vec![
            Element::Subtext(vec![Element::Line("coucou")]),
            Element::Subtext(vec![Element::Line("plop")])
        ],
        parse_indented_text("   coucou\n plop")
    );
    assert_eq!(
        vec![
            Element::Subtext(vec![Element::Line("coucou")]),
            Element::Line("plop"),
        ],
        parse_indented_text("   coucou\nplop")
    );
}

#[test]
fn pretty_print() {
    let sem = vec![
        Line("a"),
        Line("b"),
        Subtext(vec![
            Line("c"),
            Subtext(vec![Line("d")]),
            Line("e"),
            Subtext(vec![Line("f")]),
        ]),
        Line("g"),
    ];
    let expected = r#"a
b
   c
      d
   e
      f
g
"#;
    assert_eq!(expected, to_string(&sem, "", "   "))
}

#[test]
fn round_trip_single_unit() {
    let text = "a\n  b\n    c\n  d\ne\n";
    let sem = parse_indented_text(text);
    assert_eq!(text, to_string(&sem, "", "  "));
}

#[test]
fn dedent_to_unknown_level_opens_block() {
    let sem = parse_indented_text("a\n    b\n  c\n");
    assert_eq!(
        vec![
            Element::Line("a"),
            Element::Subtext(vec![Element::Line("b")]),
            Element::Subtext(vec![Element::Line("c")]),
        ],
        sem
    );
}

#[test]
fn blank_lines_do_not_change_level() {
    let sem = parse_indented_text("  a\n\n  b\n");
    assert_eq!(
        vec![Element::Subtext(vec![
            Element::Line("a"),
            Element::Line(""),
            Element::Line("b"),
        ])],
        sem
    );
}

#[test]
fn mixed_tabs_and_spaces_collapse() {
    let sem = parse_indented_text("a\n\tb\n  c\n");
    assert_eq!(
        vec![
            Element::Line("a"),
            Element::Subtext(vec![Element::Line("b")]),
            Element::Subtext(vec![Element::Line("c")]),
        ],
        sem
    );
}

#[test]
fn strip_unicode_whitespace() {
    assert_eq!("x", strip_whispace_prefix("\u{3000}\t x"));
}
