use mdbook_align::rewrite::{has_marker, rewrite_blocks, CodeBlock};
use mdbook_align::scan::rewrite;

#[test]
fn align_drops_wrapping_level() {
    let out = mdbook_align::align::align("", "    fn main(){println!(\"Hello, World\")}\n");
    assert_eq!("fn main(){println!(\"Hello, World\")}\n", out);
}

#[test]
fn align_under_quote_prefix() {
    let out = mdbook_align::align::align("> ", "    fn main(){println!(\"Hello, World\")}\n");
    assert_eq!("> fn main(){println!(\"Hello, World\")}\n", out);
}

#[test]
fn align_prefixes_every_line() {
    let out = mdbook_align::align::align("> ", "a\n    b\n        c\nd");
    assert_eq!("> a\n>    b\n>       c\n> d\n", out);
    for line in out.lines() {
        assert!(line.starts_with("> "));
    }
}

#[test]
fn align_strips_common_indentation() {
    assert_eq!("a\n   b\nc\n", mdbook_align::align::align("", "  a\n    b\n  c\n"));
}

#[test]
fn align_keeps_two_top_level_blocks() {
    assert_eq!("   a\n   b\n", mdbook_align::align::align("", "   a\n b"));
}

#[test]
fn align_is_idempotent_on_aligned_text() {
    let once = mdbook_align::align::align("", "x\n   y\nz\n");
    assert_eq!("x\n   y\nz\n", once);
    assert_eq!(once, mdbook_align::align::align("", &once));
}

#[test]
fn marker_detection() {
    assert!(has_marker(&Some("rust align".to_string())));
    assert!(has_marker(&Some("align".to_string())));
    assert!(has_marker(&Some("title=\"x\" align fgfg".to_string())));
    assert!(!has_marker(&Some("aligned".to_string())));
    assert!(!has_marker(&Some("rust,align".to_string())));
    assert!(!has_marker(&Some("rust,noplaypen".to_string())));
    assert!(!has_marker(&None));
}

#[test]
fn align() {
    let content = r#"# Ceci est le titre

Ceci est un paragraphe

```rust align
    fn main(){println!("Hello, World")}
```

fin
"#;

    let expected = r#"# Ceci est le titre

Ceci est un paragraphe

```rust align
fn main(){println!("Hello, World")}
```

fin
"#;
    let result = rewrite(content);
    assert!(result.is_ok());
    assert_eq!(expected, result.ok().unwrap());
}

#[test]
fn align_nested() {
    let content = r#"# Ceci est le titre

Ceci est un paragraphe

> Début de citation
> 
> ```rust align
>     fn main(){println!("Hello, World")}
> ```
> fin de citation

fin
"#;

    let expected = r#"# Ceci est le titre

Ceci est un paragraphe

> Début de citation
> 
> ```rust align
> fn main(){println!("Hello, World")}
> ```
> fin de citation

fin
"#;
    let result = rewrite(content);
    assert!(result.is_ok());
    assert_eq!(expected, result.ok().unwrap());
}

#[test]
fn no_align() {
    let content = r#"# Ceci est le titre

Ceci est un paragraphe

```rust
    fn main(){println!("Hello, World")}
```

fin
"#;

    let expected = content;
    let result = rewrite(content);
    assert!(result.is_ok());
    assert_eq!(expected, result.ok().unwrap());
}

#[test]
fn unmarked_meta_document_unchanged() {
    let content = "text\n\n```rust,noplaypen\n    let x = 1;\n```\n";
    assert_eq!(content, rewrite(content).ok().unwrap());
}

#[test]
fn two_marked_blocks_keep_surrounding_text() {
    let content = "A\n```c align\n  x\n```\nB\n```c align\n    y\n```\nC\n";
    let expected = "A\n```c align\nx\n```\nB\n```c align\ny\n```\nC\n";
    assert_eq!(expected, rewrite(content).ok().unwrap());
}

fn block(start: usize, end: usize, meta: &str, value: &str) -> CodeBlock {
    CodeBlock {
        start,
        end,
        lang: Some("c".to_string()),
        meta: Some(meta.to_string()),
        value: value.to_string(),
    }
}

#[test]
fn blocks_applied_by_start_order() {
    let text = "0123456789";
    let blocks = vec![block(6, 8, "align", "y"), block(1, 3, "align", "x")];
    assert_eq!(
        "0```c align\n0x\n0```345```c align\n012345y\n012345```89",
        rewrite_blocks(text, &blocks)
    );
}

#[test]
fn overlapping_block_passed_over() {
    let text = "0123456789";
    let blocks = vec![block(1, 5, "align", "x"), block(3, 7, "align", "y")];
    assert_eq!("0```c align\n0x\n0```56789", rewrite_blocks(text, &blocks));
}

#[test]
fn block_without_language_has_bare_fence() {
    let text = "ab";
    let blocks = vec![CodeBlock {
        start: 1,
        end: 2,
        lang: None,
        meta: Some("align".to_string()),
        value: "z".to_string(),
    }];
    assert_eq!("a```\naz\na```", rewrite_blocks(text, &blocks));
}

#[test]
fn unmarked_blocks_change_nothing() {
    let text = "0123456789";
    let blocks = vec![block(1, 3, "rust", "x")];
    assert_eq!(text, rewrite_blocks(text, &blocks));
}

#[test]
fn offset_inside_a_character_skipped() {
    let text = "é123";
    let blocks = vec![block(1, 3, "align", "x")];
    assert_eq!(text, rewrite_blocks(text, &blocks));
}

#[test]
fn byte_offsets_after_multibyte_text() {
    let text = "é12";
    let blocks = vec![block(2, 3, "align", "x")];
    assert_eq!("é```c align\néx\né```2", rewrite_blocks(text, &blocks));
}

#[test]
fn align_strips_common_indentation_with_blank_and_deeper_lines() {
    assert_eq!(
        "> a\n> \n>    b\n> c\n",
        mdbook_align::align::align("> ", "  a\n\n    b\n  c\n")
    );
}
