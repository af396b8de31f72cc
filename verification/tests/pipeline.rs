use docindex::contents::File;
use docindex::pipeline::Action;
use docindex::pipeline::Event;
use docindex::pipeline::IndexPoint;
use docindex::pipeline::Run;
use docindex::pipeline::upsert_plan;
use std::collections::HashMap;

fn doc(path: &str, text: &str) -> File {
    let mut f = File::new(String::from(path), String::from(text));
    f.parse();
    f
}

/// Drives a run to completion against an in-memory collection, with an
/// embedder that returns one vector per submitted chunk. Returns the
/// upserted records in upsert order, or `Err` if the run aborted.
fn drive(
    docs: Vec<File>,
    collection: &mut HashMap<u64, String>,
) -> Result<Vec<IndexPoint>, ()> {
    let mut run = Run::new(docs).unwrap();
    let mut log = Vec::new();
    loop {
        match run.action() {
            Action::Reset => {
                collection.clear();
                run.step(Event::ResetOk);
            }
            Action::EmbedDoc { doc } => {
                assert!(doc < run.doc_count());
                let count = run.batch_texts(doc).len();
                run.step(Event::EmbedOk { count });
            }
            Action::UpsertPoint { point } => {
                collection.insert(point.id, point.path.clone());
                log.push(point);
                run.step(Event::UpsertOk);
            }
            Action::Finish => return Ok(log),
            Action::Abort => return Err(()),
        }
    }
}

#[test]
fn plan_ids_are_sequential_and_aligned() {
    let files = vec![doc("a.mdx", "one\n\ntwo\n\n"), doc("b.mdx", "x\n\n")];
    let plan = upsert_plan(&files);
    assert_eq!(plan.len(), 3);
    let got: Vec<(u64, &str, usize, usize)> = plan
        .iter()
        .map(|p| (p.id, p.path.as_str(), p.doc, p.chunk))
        .collect();
    assert_eq!(got, vec![
        (0, "a.mdx", 0, 0),
        (1, "a.mdx", 0, 1),
        (2, "b.mdx", 1, 0),
    ]);
}

#[test]
fn plan_identifiers_are_unique() {
    let files = vec![
        doc("a.mdx", "p\n\nq\n\nr\n\n"),
        doc("b.mdx", "# only a heading\n"),
        doc("c.mdx", "```\ncode\n```\n"),
    ];
    let plan = upsert_plan(&files);
    assert_eq!(plan.len(), 4);
    for (k, p) in plan.iter().enumerate() {
        assert_eq!(p.id, k as u64);
    }
}

#[test]
fn end_to_end_run() {
    let mut collection = HashMap::new();
    let files = vec![doc("docs/example.mdx", "# Title\n\nHello world.\n\n```py\nprint(1)\n```\n")];
    let log = drive(files, &mut collection).unwrap();
    assert_eq!(log.len(), 2);
    assert_eq!(log[0].id, 0);
    assert_eq!(log[0].path, "docs/example.mdx");
    assert_eq!(log[0].chunk, 0);
    assert_eq!(log[1].id, 1);
    assert_eq!(log[1].path, "docs/example.mdx");
    assert_eq!(log[1].chunk, 1);
    assert_eq!(collection.len(), 2);
    assert_eq!(collection[&0], "docs/example.mdx");
    assert_eq!(collection[&1], "docs/example.mdx");
}

#[test]
fn reset_removes_earlier_records() {
    let mut collection = HashMap::new();
    collection.insert(0, String::from("stale.mdx"));
    collection.insert(5, String::from("stale.mdx"));
    collection.insert(99, String::from("stale.mdx"));
    let files = vec![doc("fresh.mdx", "hello\n\n")];
    let log = drive(files, &mut collection).unwrap();
    assert_eq!(log.len(), 1);
    assert_eq!(collection.len(), 1);
    assert_eq!(collection[&0], "fresh.mdx");
    assert!(!collection.contains_key(&5));
    assert!(!collection.contains_key(&99));
}

#[test]
fn zero_chunk_document_contributes_nothing() {
    let mut collection = HashMap::new();
    let files = vec![
        doc("a.mdx", "first\n\n"),
        doc("empty.mdx", "# heading only\n"),
        doc("b.mdx", "second\n\n"),
    ];
    let log = drive(files, &mut collection).unwrap();
    assert_eq!(log.len(), 2);
    assert_eq!(log[0].id, 0);
    assert_eq!(log[0].path, "a.mdx");
    assert_eq!(log[1].id, 1);
    assert_eq!(log[1].path, "b.mdx");
}

#[test]
fn empty_corpus_finishes_after_reset() {
    let mut collection = HashMap::new();
    collection.insert(7, String::from("stale.mdx"));
    let log = drive(Vec::new(), &mut collection).unwrap();
    assert!(log.is_empty());
    assert!(collection.is_empty());
}

#[test]
fn mismatched_vector_count_aborts() {
    let mut run = Run::new(vec![doc("a.mdx", "hello\n\n")]).unwrap();
    assert!(matches!(run.action(), Action::Reset));
    run.step(Event::ResetOk);
    let count = match run.action() {
        Action::EmbedDoc { doc } => run.batch_texts(doc).len(),
        _ => panic!("expected an embed action"),
    };
    run.step(Event::EmbedOk { count: count + 1 });
    assert!(matches!(run.action(), Action::Abort));
}

#[test]
fn failed_reset_aborts() {
    let mut run = Run::new(vec![doc("a.mdx", "hello\n\n")]).unwrap();
    assert!(matches!(run.action(), Action::Reset));
    run.step(Event::CallFailed);
    assert!(matches!(run.action(), Action::Abort));
}

#[test]
fn failed_upsert_aborts() {
    let mut run = Run::new(vec![doc("a.mdx", "hello\n\n")]).unwrap();
    run.step(Event::ResetOk);
    let count = match run.action() {
        Action::EmbedDoc { doc } => run.batch_texts(doc).len(),
        _ => panic!("expected an embed action"),
    };
    run.step(Event::EmbedOk { count });
    assert!(matches!(run.action(), Action::UpsertPoint { .. }));
    run.step(Event::CallFailed);
    assert!(matches!(run.action(), Action::Abort));
}
