use docindex::contents::File;
use docindex::contents::has_file_extension;
use docindex::contents::split_lines;
use docindex::errors::EmbeddingError;
use docindex::errors::NotAvailableError;
use docindex::errors::SetupError;

fn parsed(text: &str) -> Vec<String> {
    let mut f = File::new(String::from("doc.mdx"), String::from(text));
    f.parse();
    f.sentences
}

#[test]
fn new_file_has_no_sentences() {
    let f = File::new(String::from("a.mdx"), String::from("body"));
    assert_eq!(f.path, "a.mdx");
    assert_eq!(f.contents, "body");
    assert!(f.sentences.is_empty());
}

#[test]
fn split_lines_basic() {
    let lines = split_lines("a\nb");
    assert_eq!(lines, vec!["a".to_string(), "b".to_string()]);
    let lines = split_lines("a\nb\n");
    assert_eq!(lines, vec!["a".to_string(), "b".to_string()]);
    let lines = split_lines("");
    assert!(lines.is_empty());
    let lines = split_lines("a\r\nb\r\n");
    assert_eq!(lines, vec!["a".to_string(), "b".to_string()]);
    let lines = split_lines("\n\n");
    assert_eq!(lines, vec!["".to_string(), "".to_string()]);
}

#[test]
fn end_to_end_scenario_chunks() {
    let chunks = parsed("# Title\n\nHello world.\n\n```py\nprint(1)\n```\n");
    assert_eq!(chunks, vec![
        "Hello world.\n".to_string(),
        "```py\nprint(1)\n```\n".to_string(),
    ]);
}

#[test]
fn front_matter_is_elided() {
    let chunks = parsed("---\ntitle: intro\nauthor: me\n---\n# Heading\n\nHello there.\n\n");
    assert_eq!(chunks, vec!["Hello there.\n".to_string()]);
}

#[test]
fn front_matter_inside_prose_is_text() {
    let chunks = parsed("para\n---\nmore\n\n");
    assert_eq!(chunks, vec!["para\n---\nmore\n".to_string()]);
}

#[test]
fn unterminated_code_block_is_dropped() {
    let chunks = parsed("intro text\n\n```py\nprint(1)\n");
    assert_eq!(chunks, vec!["intro text\n".to_string()]);
}

#[test]
fn unterminated_paragraph_is_dropped() {
    let chunks = parsed("first one\n\nsecond paragraph\nstill open");
    assert_eq!(chunks, vec!["first one\n".to_string()]);
}

#[test]
fn code_block_is_verbatim() {
    let chunks = parsed("```lang\nfoo\nbar\n```\n");
    assert_eq!(chunks, vec!["```lang\nfoo\nbar\n```\n".to_string()]);
}

#[test]
fn segmentation_is_deterministic() {
    let text = "---\nx\n---\n# H\n\npara one\n\n```c\nint x;\n```\n\ntail";
    let a = parsed(text);
    let b = parsed(text);
    assert_eq!(a, b);
}

#[test]
fn parse_twice_gives_same_chunks() {
    let mut f = File::new(String::from("doc.mdx"), String::from("one\n\ntwo\n\n"));
    f.parse();
    let first = f.sentences.clone();
    f.parse();
    assert_eq!(f.sentences, first);
    assert_eq!(first, vec!["one\n".to_string(), "two\n".to_string()]);
}

#[test]
fn headings_and_blanks_emit_nothing() {
    let chunks = parsed("# a\n\n## b\n\n\n# c\n");
    assert!(chunks.is_empty());
    let chunks = parsed("");
    assert!(chunks.is_empty());
}

#[test]
fn crlf_lines_are_normalized() {
    let chunks = parsed("a\r\nb\r\n\r\n");
    assert_eq!(chunks, vec!["a\nb\n".to_string()]);
}

#[test]
fn extension_filter() {
    assert!(has_file_extension("docs/guide.mdx", ".mdx"));
    assert!(!has_file_extension("docs/guide.md", ".mdx"));
    assert!(!has_file_extension("x", ".mdx"));
    assert!(has_file_extension("a.mdx", ""));
    assert!(has_file_extension(".mdx", ".mdx"));
}

#[test]
fn error_messages() {
    assert_eq!(NotAvailableError.message(), "File 'not available' error");
    assert_eq!(SetupError("OPENAI Key not available").message(), "Error: OPENAI Key not available");
    assert_eq!(EmbeddingError.message(), "Embedding error");
}
