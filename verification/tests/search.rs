use disktracker::drain::{drain_batch, FactChange, PendingMutation};
use disktracker::facts::{FactRow, FactTable};
use disktracker::model::{DaemonState, Fact};
use disktracker::search::{
    all_live, attribute_names, build_tiers, document_uid, escape_re, execute_search, extension,
    index_document, keys_to_check, lookup_query, reconcile_search_results, split_words, Clause,
    Field, FileKey, HitKey, IndexPass, SearchRequest,
};
use disktracker::snapshots::{check_label_free, handle_snapshot_create, ExistingSnapshot};
use std::collections::HashMap;

fn request(query: &str) -> SearchRequest {
    SearchRequest {
        query: query.to_string(),
        path: None,
        ext: None,
        volume: None,
        min_size: None,
        max_size: None,
        modified_after: None,
        modified_before: None,
        hidden: None,
        system: None,
        advanced: true,
    }
}

#[test]
fn texts_become_patterns_and_words() {
    assert_eq!(escape_re("a.b*(c)"), "a\\.b\\*\\(c\\)");
    assert_eq!(split_words("  two  words "), vec!["two", "words"]);
    assert_eq!(extension("archive.tar.GZ").to_lowercase(), "gz");
    assert_eq!(extension(".bashrc"), "");
    assert_eq!(extension("none"), "");
    assert_eq!(document_uid("C:", 5), "C:-5");
    assert_eq!(attribute_names(1 | 2 | 1024), vec!["readonly", "hidden", "reparse"]);
    assert!(attribute_names(8).is_empty());
}

#[test]
fn a_query_has_tiers() {
    let tiers = build_tiers("important");
    assert!(!tiers.is_empty());
    assert_eq!(tiers[0].boost, 100);
    assert!(matches!(&tiers[0].clauses[0], Clause::Parsed { text, .. } if text == "\"important\""));
    let has = tiers.iter().flat_map(|t| t.clauses.iter()).any(|c| {
        matches!(c, Clause::Term { field: Field::Name, text } if text == "important")
    });
    assert!(has);
    let plan = execute_search(&request("README"));
    let lower = plan.tiers.iter().flat_map(|t| t.clauses.iter()).any(|c| {
        matches!(c, Clause::Term { field: Field::Name, text } if text == "readme")
    });
    assert!(lower);
}

/// The names of documents that a plan for plain text finds: those that its pattern, which
/// holds no special characters here, occurs in.
fn found(query: &str, names: &[&str]) -> Vec<String> {
    let mut r = request(query);
    r.advanced = false;
    let plan = execute_search(&r);
    assert!(plan.tiers.is_empty());
    assert_eq!(plan.filters.len(), 1);
    assert!(plan.filters[0].must);
    let Clause::Regex { field: Field::NameLower, pattern } = &plan.filters[0].clause else {
        panic!("a pattern is asked for");
    };
    assert_eq!(*pattern, format!(".*{}.*", query.to_lowercase()));
    let part = pattern.strip_prefix(".*").unwrap().strip_suffix(".*").unwrap();
    names
        .iter()
        .map(|name| {
            let fact = Fact {
                volume: "C:".to_string(),
                file_id: 3,
                parent_file_id: 2,
                name: name.to_string(),
                is_directory: false,
                size: 100,
                created_at: String::new(),
                modified_at: String::new(),
                attributes: 0,
            };
            index_document(&fact, &FactTable::build(&Vec::new()), IndexPass::Rebuild)
        })
        .filter(|d| d.name_lower.contains(part))
        .map(|d| d.name)
        .collect()
}

#[test]
fn test_exact_substring_search() {
    let names = ["MyImportantFile.txt", "readme.md", "DRAFT_PROPOSAL.docx"];
    assert_eq!(found("important", &names), vec!["MyImportantFile.txt"]);
    assert_eq!(found("README", &names), vec!["readme.md"]);
    assert_eq!(found("draft_proposal", &names), vec!["DRAFT_PROPOSAL.docx"]);
    assert_eq!(found("imptnt", &names).len(), 0);
}

#[test]
fn filters_are_part_of_the_plan() {
    let mut r = request("*");
    r.min_size = Some(10);
    r.hidden = Some(false);
    let plan = execute_search(&r);
    assert!(plan.filters.iter().any(|f| matches!(f.clause, Clause::Size { from: 10, .. })));
    assert!(plan.filters.iter().any(|f| {
        !f.must && matches!(&f.clause, Clause::Term { field: Field::Attributes, text } if text == "hidden")
    }));
}

#[test]
fn documents_describe_files() {
    let rows = vec![
        FactRow { file_id: 1, parent_file_id: 1, name: "C:".to_string(), is_directory: true, size: 0 },
        FactRow { file_id: 2, parent_file_id: 1, name: "docs".to_string(), is_directory: true, size: 0 },
    ];
    let fact = Fact {
        volume: "C:".to_string(),
        file_id: 3,
        parent_file_id: 2,
        name: "Read.ME".to_string(),
        is_directory: false,
        size: 8,
        created_at: String::new(),
        modified_at: "1970-01-01T00:01:00Z".to_string(),
        attributes: 2,
    };
    let d = index_document(&fact, &FactTable::build(&rows), IndexPass::Rebuild);
    assert_eq!(d.path, "docs");
    assert_eq!((d.name_lower.as_str(), d.ext.as_str()), ("read.me", "me"));
    assert_eq!((d.modified_at, d.size, d.uid.as_str()), (60, 8, "C:-3"));
    assert_eq!(d.attributes, vec!["hidden"]);
    let odd = Fact { modified_at: "never".to_string(), ..fact };
    let d = index_document(&odd, &FactTable::build(&Vec::new()), IndexPass::Update { now: 77 });
    assert_eq!((d.modified_at, d.path.as_str()), (77, ""));
}

#[test]
fn hits_that_are_gone_are_stale() {
    let hit = |volume: Option<&str>, file_id: Option<u64>| HitKey {
        volume: volume.map(|v| v.to_string()),
        file_id,
    };
    let hits = vec![hit(Some("C:"), Some(1)), hit(Some("C:"), Some(2)), hit(None, Some(3))];
    assert_eq!(keys_to_check(&hits).len(), 2);
    let existing = vec![FileKey { volume: "C:".to_string(), file_id: 2 }];
    let (alive, stale) = reconcile_search_results(&hits, &existing);
    assert_eq!(alive.len() + stale.len(), 3);
    assert!(alive.contains(&1) && stale.contains(&0));
    assert!(lookup_query(2).starts_with("SELECT volume, file_id FROM facts WHERE "));
    assert!(all_live(&vec![DaemonState::Live]));
    assert!(!all_live(&vec![]));
    assert!(!all_live(&vec![DaemonState::Live, DaemonState::Starting]));
}

#[test]
fn a_batch_is_replayed_in_order() {
    let m = |sequence: i64, kind: &str, size_delta: i64| PendingMutation {
        sequence,
        file_id: 4,
        parent_file_id: 1,
        name: "f".to_string(),
        kind: kind.to_string(),
        is_directory: false,
        size_delta,
        at: "now".to_string(),
    };
    let batch = vec![m(7, "Created", 10), m(8, "Modified", 25), m(9, "Deleted", 0), m(10, "Created", 3)];
    let mut sizes = HashMap::new();
    sizes.insert(4, 6);
    let b = drain_batch(&batch, sizes, &vec![None; 4], 2);
    assert_eq!(b.last_sequence, 10);
    let deltas: Vec<Option<i64>> = b.replays.iter().map(|r| r.delta).collect();
    assert_eq!(deltas, vec![Some(4), Some(15), Some(-25), Some(3)]);
    assert!(matches!(b.replays[2].change, FactChange::Remove { file_id: 4 }));
    assert_eq!(drain_batch(&Vec::new(), HashMap::new(), &Vec::new(), 2).last_sequence, 2);
}

#[test]
fn snapshots_are_asked_for() {
    let s = |t: &str| t.to_string();
    let known = vec![s("C:"), s("D:")];
    let r = handle_snapshot_create(&vec![s("c:")], &known, Some(" x ")).unwrap();
    assert_eq!(r.volumes, vec!["C:"]);
    assert_eq!(r.label.as_deref(), Some("x"));
    let e = |v: Vec<String>, l: Option<&str>| handle_snapshot_create(&v, &known, l).unwrap_err();
    assert_eq!(e(vec![], None), "Missing volumes parameter");
    assert_eq!(e(vec![s("c:"), s("e:"), s("f:")], None), "Volume E: is not registered.");
    assert_eq!(e(vec![s("d:")], Some("  ")), "Label cannot be empty");
    assert!(check_label_free("x", &None, 0, 0).is_ok());
    let x = Some(ExistingSnapshot { id: s("p1"), created_at: s("1970-01-01T00:00:00Z") });
    let e = check_label_free("x", &x, 120, 0).unwrap_err();
    assert!(e.contains("\"x\" already exists (created 2 minutes ago, id p1)"));
}
