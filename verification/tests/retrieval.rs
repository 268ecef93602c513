use whytchat_core::rag::{
    build_context, chunks_json_path, classify_extension, create_dataset_entry, dataset_dir,
    dataset_id_for, delete_dataset_entry, embeds_json_path, file_section, folder_supported,
    ingest_outcome, registry_has, registry_path, remove_dataset, url_section, DatasetInfo,
    FileKind, RagError,
};
use whytchat_core::rank::{cosine_score, rank_hits, SCALE};

#[test]
fn dataset_paths_are_rooted_and_scoped() {
    assert_eq!(registry_path("/data/rag"), "/data/rag/datasets.json");
    assert_eq!(dataset_dir("/data/rag", "ds_1"), "/data/rag/ds_1");
    assert_eq!(chunks_json_path("/data/rag", "ds_1"), "/data/rag/ds_1/chunks.json");
    assert_eq!(embeds_json_path("/data/rag", "ds_1"), "/data/rag/ds_1/embeddings.json");
}

#[test]
fn dataset_id_derives_from_the_creation_instant() {
    assert_eq!(dataset_id_for(1700000000123), "ds_1700000000123");
}

#[test]
fn creating_a_dataset_appends_it_to_the_registry() {
    let (list, info) = create_dataset_entry(
        Vec::new(),
        "notes".to_string(),
        1700000000123,
        "2023-11-14T22:13:20Z".to_string(),
    );
    assert_eq!(list.len(), 1);
    assert_eq!(info.id, "ds_1700000000123");
    assert_eq!(info.name, "notes");
    assert_eq!(info.created_at, "2023-11-14T22:13:20Z");
    assert_eq!(info.updated_at, "2023-11-14T22:13:20Z");
    assert_eq!(list[0].id, info.id);
}

#[test]
fn deleting_a_dataset_removes_only_that_id() {
    let mk = |id: &str| DatasetInfo {
        id: id.to_string(),
        name: id.to_string(),
        created_at: String::new(),
        updated_at: String::new(),
    };
    let list = vec![mk("a"), mk("b"), mk("a"), mk("c")];
    let rest = remove_dataset(list, "a");
    let ids: Vec<&str> = rest.iter().map(|d| d.id.as_str()).collect();
    assert_eq!(ids, vec!["b", "c"]);
}

#[test]
fn deleting_an_unknown_dataset_is_not_found() {
    let mk = |id: &str| DatasetInfo {
        id: id.to_string(),
        name: id.to_string(),
        created_at: String::new(),
        updated_at: String::new(),
    };
    let list = vec![mk("a"), mk("b")];
    assert!(registry_has(&list, "a"));
    assert!(!registry_has(&list, "z"));
    match delete_dataset_entry(list, "z") {
        Ok(_) => panic!("an unknown id must be NotFound"),
        Err((back, e)) => {
            assert_eq!(e, RagError::NotFound);
            assert_eq!(back.len(), 2);
        }
    }
    let list = vec![mk("a"), mk("b")];
    let remaining = delete_dataset_entry(list, "a").unwrap();
    let ids: Vec<&str> = remaining.iter().map(|d| d.id.as_str()).collect();
    assert_eq!(ids, vec!["b"]);
}

#[test]
fn embedding_count_must_match_chunk_count() {
    assert_eq!(ingest_outcome(3, 3).unwrap().chunks, 3);
    assert_eq!(ingest_outcome(3, 2).unwrap_err(), RagError::EmbeddingSizeMismatch);
    assert_eq!(ingest_outcome(0, 1).unwrap_err(), RagError::EmbeddingSizeMismatch);
}

#[test]
fn context_joins_chunks_with_separator_up_to_the_cap() {
    let chunks = vec!["alpha".to_string(), "beta".to_string()];
    let ctx = build_context(&chunks);
    assert_eq!(ctx, "alpha\n\n---\n\nbeta\n\n---");
    let empty: Vec<String> = Vec::new();
    assert_eq!(build_context(&empty), "");
}

#[test]
fn context_stops_before_the_cap_is_exceeded() {
    let big: String = std::iter::repeat('x').take(2999).collect();
    let chunks = vec![big.clone(), "more".to_string()];
    let ctx = build_context(&chunks);
    // the second chunk would push the total past 3000 and is left out
    assert!(ctx.starts_with(&big));
    assert!(!ctx.contains("more"));
    // an oversized first chunk yields an empty context
    let oversized: String = std::iter::repeat('y').take(3001).collect();
    assert_eq!(build_context(&vec![oversized]), "");
}

#[test]
fn extensions_choose_their_reader_case_insensitively() {
    assert_eq!(classify_extension("txt"), FileKind::PlainText);
    assert_eq!(classify_extension("MD"), FileKind::PlainText);
    assert_eq!(classify_extension("PDF"), FileKind::Pdf);
    assert_eq!(classify_extension("Htm"), FileKind::Html);
    assert_eq!(classify_extension("docx"), FileKind::Docx);
    assert_eq!(classify_extension("exe"), FileKind::Other);
    assert!(folder_supported("csv"));
    assert!(folder_supported("HTML"));
    assert!(!folder_supported("bin"));
}

#[test]
fn sections_carry_their_headers() {
    assert_eq!(
        file_section("/tmp/a.txt", "body"),
        "\n=== File: /tmp/a.txt ===\nbody\n\n"
    );
    assert_eq!(
        url_section("https://x/y", "body"),
        "\n=== URL: https://x/y ===\nbody\n\n"
    );
}

#[test]
fn identical_vectors_score_the_full_scale() {
    let q = vec![3_000_000i64 / 5, 4_000_000i64 / 5];
    assert_eq!(cosine_score(&q, &q), SCALE as i128);
}

#[test]
fn orthogonal_vectors_score_zero() {
    let q = vec![1_000_000i64, 0];
    let v = vec![0i64, 1_000_000];
    assert_eq!(cosine_score(&q, &v), 0);
}

#[test]
fn zero_norm_vectors_score_zero_not_an_error() {
    let q = vec![1_000_000i64, 0];
    let z = vec![0i64, 0];
    assert_eq!(cosine_score(&q, &z), 0);
    assert_eq!(cosine_score(&z, &z), 0);
}

#[test]
fn opposite_vectors_score_negative_full_scale() {
    let q = vec![1_000_000i64];
    let v = vec![-1_000_000i64];
    assert_eq!(cosine_score(&q, &v), -(SCALE as i128));
}

#[test]
fn ranking_prefers_identical_vectors_in_ingestion_order() {
    let query = vec![1_000_000i64, 0];
    let chunks = vec!["first twin".to_string(), "second twin".to_string(), "stranger".to_string()];
    let embeds = vec![
        vec![1_000_000i64, 0],
        vec![1_000_000i64, 0],
        vec![0i64, 1_000_000],
    ];
    let hits = rank_hits(&chunks, &embeds, &query, 3);
    assert_eq!(hits.len(), 3);
    // the two identical ones come first, in original ingestion order
    assert_eq!(hits[0].text, "first twin");
    assert_eq!(hits[1].text, "second twin");
    assert_eq!(hits[0].score, SCALE as i128);
    assert_eq!(hits[1].score, SCALE as i128);
    // the orthogonal one scores zero and ranks last
    assert_eq!(hits[2].text, "stranger");
    assert_eq!(hits[2].score, 0);

    // top-2 holds exactly the two identical ones
    let top2 = rank_hits(&chunks, &embeds, &query, 2);
    assert_eq!(top2.len(), 2);
    assert_eq!(top2[0].text, "first twin");
    assert_eq!(top2[1].text, "second twin");
}

#[test]
fn ranking_edge_cases_yield_empty_results() {
    let query = vec![1_000_000i64];
    let chunks: Vec<String> = Vec::new();
    let embeds: Vec<Vec<i64>> = Vec::new();
    assert_eq!(rank_hits(&chunks, &embeds, &query, 5).len(), 0);
    let chunks = vec!["a".to_string()];
    let embeds = vec![vec![1_000_000i64]];
    assert_eq!(rank_hits(&chunks, &embeds, &query, 0).len(), 0);
}

#[test]
fn ranking_orders_by_descending_score() {
    let query = vec![1_000_000i64, 0];
    let chunks = vec!["low".to_string(), "high".to_string(), "mid".to_string()];
    let embeds = vec![
        vec![100_000i64, 990_000],
        vec![1_000_000i64, 10_000],
        vec![500_000i64, 500_000],
    ];
    let hits = rank_hits(&chunks, &embeds, &query, 3);
    assert_eq!(hits[0].text, "high");
    assert_eq!(hits[1].text, "mid");
    assert_eq!(hits[2].text, "low");
    assert!(hits[0].score > hits[1].score && hits[1].score > hits[2].score);
}
