use quickwit::root::{
    collect_hits, extract_page, fetch_docs_jobs, fetch_docs_request,
    group_partial_hits_by_split, leaf_search_jobs, leaf_search_request, merge_leaf_search_results,
    merge_partial_hits, search_request_with_offset_0, FetchDocsResult, Hit, LeafSearchResult,
    PartialHit, SearchRequest, SplitMetadata,
};

fn hit(value: u64, split: &str, ord: u32) -> PartialHit {
    PartialHit {
        sorting_field_value: value,
        split: split.to_string(),
        segment_ord: ord,
        doc_id: ord,
    }
}

#[test]
fn test_root_merge_partial_hits() {
    let p1 = PartialHit {
        sorting_field_value: 9,
        split: "split1".to_string(),
        segment_ord: 1,
        doc_id: 1,
    };
    let p2 = PartialHit {
        sorting_field_value: 7,
        split: "split1".to_string(),
        segment_ord: 2,
        doc_id: 2,
    };
    let p3 = PartialHit {
        sorting_field_value: 5,
        split: "split1".to_string(),
        segment_ord: 3,
        doc_id: 3,
    };
    let p4 = PartialHit {
        sorting_field_value: 3,
        split: "split1".to_string(),
        segment_ord: 4,
        doc_id: 4,
    };
    let p5 = PartialHit {
        sorting_field_value: 1,
        split: "split1".to_string(),
        segment_ord: 5,
        doc_id: 5,
    };

    let p6 = PartialHit {
        sorting_field_value: 8,
        split: "split2".to_string(),
        segment_ord: 6,
        doc_id: 6,
    };
    let p7 = PartialHit {
        sorting_field_value: 6,
        split: "split2".to_string(),
        segment_ord: 7,
        doc_id: 7,
    };
    let p8 = PartialHit {
        sorting_field_value: 4,
        split: "split2".to_string(),
        segment_ord: 8,
        doc_id: 8,
    };
    let p9 = PartialHit {
        sorting_field_value: 2,
        split: "split2".to_string(),
        segment_ord: 9,
        doc_id: 9,
    };
    let p10 = PartialHit {
        sorting_field_value: 0,
        split: "split2".to_string(),
        segment_ord: 10,
        doc_id: 10,
    };

    let partial_hits1 = vec![p1.clone(), p2.clone(), p3.clone(), p4.clone(), p5.clone()];
    let partial_hits2 = vec![p6.clone(), p7.clone(), p8.clone(), p9.clone(), p10.clone()];

    let merged_partial_hits = merge_partial_hits(partial_hits1, partial_hits2);

    assert_eq!(
        merged_partial_hits,
        vec![p1, p6, p2, p7, p3, p8, p4, p9, p5, p10]
    );
}

#[test]
fn merge_partial_hits_puts_ties_first_list_first() {
    let a = vec![hit(5, "a", 1), hit(3, "a", 2)];
    let b = vec![hit(5, "b", 3), hit(3, "b", 4), hit(1, "b", 5)];
    let merged = merge_partial_hits(a, b);
    assert_eq!(
        merged,
        vec![hit(5, "a", 1), hit(5, "b", 3), hit(3, "a", 2), hit(3, "b", 4), hit(1, "b", 5)]
    );
}

#[test]
fn merge_partial_hits_with_an_empty_list() {
    let a = vec![hit(2, "a", 1), hit(1, "a", 2)];
    assert_eq!(merge_partial_hits(a.clone(), Vec::new()), a);
    assert_eq!(merge_partial_hits(Vec::new(), a.clone()), a);
    assert_eq!(merge_partial_hits(Vec::new(), Vec::new()), Vec::<PartialHit>::new());
}

#[test]
fn merge_partial_hits_interleaves_unsorted_lists() {
    let a = vec![hit(1, "a", 1), hit(9, "a", 2)];
    let b = vec![hit(2, "b", 3), hit(8, "b", 4)];
    let merged = merge_partial_hits(a, b);
    assert_eq!(
        merged,
        vec![hit(2, "b", 3), hit(8, "b", 4), hit(1, "a", 1), hit(9, "a", 2)]
    );
}

#[test]
fn merge_partial_hits_keeps_every_hit() {
    let a = vec![hit(10, "a", 1), hit(4, "a", 2), hit(4, "a", 3)];
    let b = vec![hit(7, "b", 4), hit(4, "b", 5)];
    let merged = merge_partial_hits(a, b);
    assert_eq!(merged.len(), 5);
    let values: Vec<u64> = merged.iter().map(|h| h.sorting_field_value).collect();
    assert_eq!(values, vec![10, 7, 4, 4, 4]);
}

#[test]
fn leaf_search_jobs_one_per_distinct_split() {
    let splits = vec![
        SplitMetadata { split_id: "s1".to_string() },
        SplitMetadata { split_id: "s2".to_string() },
        SplitMetadata { split_id: "s1".to_string() },
    ];
    let jobs = leaf_search_jobs(&splits);
    assert_eq!(jobs.len(), 2);
    assert_eq!(jobs[0].split, "s1");
    assert_eq!(jobs[1].split, "s2");
    assert!(jobs.iter().all(|job| job.cost == 1));
}

fn request(start_offset: u64, max_hits: u64) -> SearchRequest {
    SearchRequest {
        index_id: "wiki".to_string(),
        query: "title:foo".to_string(),
        search_fields: vec!["title".to_string()],
        start_timestamp: Some(10),
        end_timestamp: None,
        max_hits,
        start_offset,
    }
}

#[test]
fn search_request_with_offset_0_asks_for_the_whole_prefix() {
    let leaf_request = search_request_with_offset_0(&request(20, 10));
    assert_eq!(leaf_request.start_offset, 0);
    assert_eq!(leaf_request.max_hits, 30);
    assert_eq!(leaf_request.index_id, "wiki");
    assert_eq!(leaf_request.query, "title:foo");
    assert_eq!(leaf_request.search_fields, vec!["title".to_string()]);
    assert_eq!(leaf_request.start_timestamp, Some(10));
}

#[test]
fn leaf_search_request_lists_the_job_splits() {
    let splits = vec![
        SplitMetadata { split_id: "s1".to_string() },
        SplitMetadata { split_id: "s2".to_string() },
    ];
    let jobs = leaf_search_jobs(&splits);
    let leaf_request = leaf_search_request(&request(0, 5), &jobs);
    assert_eq!(leaf_request.split_uris, vec!["s1".to_string(), "s2".to_string()]);
    assert_eq!(leaf_request.search_request, Some(request(0, 5)));
}

#[test]
fn merge_leaf_search_results_skips_failures() {
    let responses = vec![
        Ok(LeafSearchResult { num_hits: 3, partial_hits: vec![hit(9, "a", 1), hit(2, "a", 2)] }),
        Err("leaf down".to_string()),
        Ok(LeafSearchResult { num_hits: 4, partial_hits: vec![hit(5, "b", 3)] }),
    ];
    let merged = merge_leaf_search_results(responses);
    assert_eq!(merged.num_hits, 7);
    assert_eq!(merged.partial_hits, vec![hit(9, "a", 1), hit(5, "b", 3), hit(2, "a", 2)]);
}

#[test]
fn extract_page_cuts_to_what_there_is() {
    let hits: Vec<PartialHit> = (0..5).map(|i| hit(10 - i, "a", i as u32)).collect();
    assert_eq!(extract_page(hits.clone(), 1, 2), hits[1..3].to_vec());
    assert_eq!(extract_page(hits.clone(), 3, 10), hits[3..5].to_vec());
    assert_eq!(extract_page(hits.clone(), 7, 2), Vec::<PartialHit>::new());
    assert_eq!(extract_page(hits.clone(), 0, 0), Vec::<PartialHit>::new());
}

#[test]
fn group_partial_hits_by_split_keeps_order() {
    let hits = vec![hit(9, "b", 1), hit(8, "a", 2), hit(7, "b", 3)];
    let groups = group_partial_hits_by_split(&hits);
    assert_eq!(groups.len(), 2);
    assert_eq!(groups[0].split, "b");
    assert_eq!(groups[0].partial_hits, vec![hit(9, "b", 1), hit(7, "b", 3)]);
    assert_eq!(groups[1].split, "a");
    assert_eq!(groups[1].partial_hits, vec![hit(8, "a", 2)]);

    let metadata = vec![
        SplitMetadata { split_id: "a".to_string() },
        SplitMetadata { split_id: "b".to_string() },
    ];
    let jobs = fetch_docs_jobs(&groups, &metadata);
    assert_eq!(jobs.len(), 2);
    assert_eq!(jobs[0].split, "b");
    assert_eq!(jobs[1].split, "a");

    let request = fetch_docs_request(&groups, &"b".to_string(), &"wiki".to_string()).unwrap();
    assert_eq!(request.index_id, "wiki");
    assert_eq!(request.partial_hits, vec![hit(9, "b", 1), hit(7, "b", 3)]);
    assert!(fetch_docs_request(&groups, &"c".to_string(), &"wiki".to_string()).is_none());
}

#[test]
fn collect_hits_skips_failures() {
    let doc = |json: &str| Hit { json: json.to_string(), partial_hit: None };
    let responses = vec![
        Ok(FetchDocsResult { hits: vec![doc("1"), doc("2")] }),
        Err("fetch failed".to_string()),
        Ok(FetchDocsResult { hits: vec![doc("3")] }),
    ];
    assert_eq!(collect_hits(responses), vec![doc("1"), doc("2"), doc("3")]);
}
