use commit_review::diff::parse;
use commit_review::syntax::{highlight, highlight_with, line_spans, rgb, Assets, Rgba, Syntax};

fn assets() -> Assets {
    Assets::new().expect("the theme's selectors are read")
}

#[test]
fn highlights_supported_files() {
    let files = parse(
        "diff --git a/main.rs b/main.rs\n--- a/main.rs\n+++ b/main.rs\n@@ -1 +1 @@\n-fn old() {}\n+fn new() {}\n",
    );
    let assets = assets();
    let highlighted = highlight(&files[0], &assets);
    assert_eq!(highlighted.lines.len(), 2);
    assert!((0..2).all(|line| highlighted.line(line).len() > 1));
}

#[test]
fn spans_cover_each_line_end_to_end() {
    let files = parse(
        "diff --git a/lib.rs b/lib.rs\n--- a/lib.rs\n+++ b/lib.rs\n@@ -1,2 +1,2 @@\n let s = \"é\";\n-fn old() {}\n+fn new() -> u8 { 1 }\n",
    );
    let assets = assets();
    let highlighted = highlight(&files[0], &assets);
    let texts = ["let s = \"é\";", "fn old() {}", "fn new() -> u8 { 1 }"];
    assert_eq!(highlighted.lines.len(), 3);
    for (index, text) in texts.iter().enumerate() {
        let spans = highlighted.line(index);
        assert!(!spans.is_empty());
        assert_eq!(spans[0].range.start, 0);
        assert_eq!(spans[spans.len() - 1].range.end, text.len());
        for pair in spans.windows(2) {
            assert_eq!(pair[0].range.end, pair[1].range.start);
        }
    }
    assert!(highlighted.line(3).is_empty());
}

#[test]
fn binary_and_unknown_files_get_no_colors() {
    let files = parse(
        "diff --git a/img.png b/img.png\nBinary files a/img.png and b/img.png differ\ndiff --git a/notes.zzqq b/notes.zzqq\n--- a/notes.zzqq\n+++ b/notes.zzqq\n@@ -1 +1 @@\n-a\n+b\n",
    );
    let assets = assets();
    let binary = highlight(&files[0], &assets);
    assert!(binary.lines.is_empty() && binary.spans.is_empty());
    let unknown = highlight(&files[1], &assets);
    assert!(unknown.lines.is_empty() && unknown.spans.is_empty());
}

#[test]
fn piece_spans_follow_the_bytes_of_each_piece() {
    let red = rgb(255, 0, 0);
    let blue = Rgba { red: 0, green: 0, blue: 255, alpha: 128 };
    let pieces = vec![(red, "fn".to_string()), (blue, " é".to_string()), (red, String::new())];
    let spans = line_spans(&pieces);
    assert_eq!(spans.len(), 3);
    assert_eq!((spans[0].range.start, spans[0].range.end, spans[0].color), (0, 2, red));
    assert_eq!((spans[1].range.start, spans[1].range.end, spans[1].color), (2, 5, blue));
    assert_eq!((spans[2].range.start, spans[2].range.end, spans[2].color), (5, 5, red));
}

#[test]
fn a_file_known_by_its_name_is_colored() {
    let files = parse("diff --git a/sub/Makefile b/sub/Makefile\n--- a/sub/Makefile\n+++ b/sub/Makefile\n@@ -1 +1 @@\n-all: build\n+all: test\n");
    let assets = assets();
    let highlighted = highlight(&files[0], &assets);
    assert_eq!(highlighted.lines.len(), 2);
    assert!(!highlighted.line(0).is_empty());
}

#[test]
fn the_theme_colors_seven_kinds_of_scope() {
    let rules = commit_review::syntax::theme_rules();
    assert_eq!(rules.len(), 7);
    assert_eq!(rules[0].0, "comment");
    assert_eq!(rules[0].1, rgb(151, 155, 137));
    assert_eq!(rules[2].1, rgb(143, 187, 194));
    assert_eq!(rules[6].0, "entity.other.attribute-name");
}

#[test]
fn a_found_syntax_colors_every_line_on_character_boundaries() {
    let files = parse(
        "diff --git a/main.rs b/main.rs\n--- a/main.rs\n+++ b/main.rs\n@@ -1 +1 @@\n-fn old() {}\n+fn new() {}\n",
    );
    let assets = assets();
    let highlighted = highlight(&files[0], &assets);
    assert_eq!(highlighted.lines.len(), 2);
    for i in 0..2 {
        let spans = highlighted.line(i);
        assert!(spans.len() > 1);
        assert_eq!(spans[0].range.start, 0);
        assert!(spans.windows(2).all(|w| w[0].range.end == w[1].range.start));
        assert_eq!(spans.last().unwrap().range.end, 11);
    }
    assert!(highlighted.line(2).is_empty());
    let syntax = Syntax::find(&assets, "rs").expect("syntect knows Rust");
    let again = highlight_with(&files[0], &assets, &syntax);
    assert_eq!(again.lines, highlighted.lines);
    assert!(Syntax::find(&assets, "zzqq").is_none());
    let text = "let é = \"ü\";";
    let multi = parse(&format!("diff --git a/x.rs b/x.rs\n--- a/x.rs\n+++ b/x.rs\n@@ -1 +1 @@\n-a\n+{text}\n"));
    let colored = highlight(&multi[0], &assets);
    for span in colored.line(1) {
        assert!(text.is_char_boundary(span.range.start) && text.is_char_boundary(span.range.end));
    }
}

#[test]
fn highlighted_comments_take_the_theme_color_of_comments() {
    let files = parse(
        "diff --git a/main.rs b/main.rs\n--- a/main.rs\n+++ b/main.rs\n@@ -1 +1 @@\n-// old note\n+// new note\n",
    );
    let assets = assets();
    let highlighted = highlight(&files[0], &assets);
    let muted = rgb(151, 155, 137);
    for line in 0..2 {
        let spans = highlighted.line(line);
        assert!(!spans.is_empty());
        assert!(spans.iter().all(|span| span.color == muted));
    }
}
