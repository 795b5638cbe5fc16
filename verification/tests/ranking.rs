use git_shell::rank::{remove_markers, search, HL_END, HL_START};

fn repos(list: &[&str]) -> Vec<String> {
    list.iter().map(|s| s.to_string()).collect()
}

#[test]
fn empty_query_lists_everything_in_order() {
    let candidates = repos(&["alpha", "beta", "gamma"]);
    let items = search(&String::new(), &candidates);
    assert_eq!(items.len(), 3);
    for (i, item) in items.iter().enumerate() {
        assert_eq!(item.item_key, i);
        assert_eq!(item.text, candidates[i]);
        assert!(item.match_info.spans.is_empty());
    }
}

#[test]
fn scenario_apple_banana_grape() {
    // Query "ap": "apple" matches with a contiguous run over its first
    // two characters; "banana" has no "ap" subsequence and is dropped.
    // "grape" does contain "a" then "p" in order, so the matcher keeps
    // it too.
    let candidates = repos(&["apple", "banana", "grape"]);
    let items = search(&String::from("ap"), &candidates);
    assert!(items.iter().all(|it| it.item_key != 1));
    let apple = items.iter().find(|it| it.item_key == 0).expect("apple ranked");
    assert_eq!(apple.match_info.spans, vec![(0, 2)]);
    assert_eq!(apple.text, format!("{}ap{}ple", HL_START, HL_END));
    assert!(items.iter().any(|it| it.item_key == 2));
}

#[test]
fn unmatched_query_gives_empty_ranking() {
    let candidates = repos(&["alpha", "beta"]);
    let items = search(&String::from("zzz"), &candidates);
    assert!(items.is_empty());
}

#[test]
fn equal_candidates_keep_original_order() {
    // Two identical candidates score identically; the ranked output
    // keeps their original relative order.
    let candidates = repos(&["same/path", "same/path"]);
    let items = search(&String::from("path"), &candidates);
    assert_eq!(items.len(), 2);
    assert_eq!(items[0].item_key, 0);
    assert_eq!(items[1].item_key, 1);
    assert_eq!(items[0].match_info.score, items[1].match_info.score);
}

#[test]
fn scores_descend() {
    let candidates = repos(&["x_a_x_b_x_c", "abc", "cabinet_abc"]);
    let items = search(&String::from("abc"), &candidates);
    assert!(items.len() >= 2);
    for w in items.windows(2) {
        assert!(
            w[0].match_info.score > w[1].match_info.score
                || (w[0].match_info.score == w[1].match_info.score
                    && w[0].item_key < w[1].item_key)
        );
    }
    // The exact short match ranks first.
    assert_eq!(items[0].item_key, 1);
}

#[test]
fn highlight_round_trip_single_span() {
    let candidates = repos(&["apple"]);
    let items = search(&String::from("ap"), &candidates);
    assert_eq!(items.len(), 1);
    assert_ne!(items[0].text, "apple");
    assert_eq!(remove_markers(&items[0].text), "apple");
}

#[test]
fn highlight_round_trip_many_spans() {
    let candidates = repos(&["some/deep/repo", "another"]);
    for query in ["sdr", "seo", "p", "o"] {
        let items = search(&String::from(query), &candidates);
        for item in &items {
            assert_eq!(remove_markers(&item.text), candidates[item.item_key]);
        }
    }
}

#[test]
fn remove_markers_leaves_plain_text_alone() {
    assert_eq!(remove_markers("plain/text"), "plain/text");
    assert_eq!(remove_markers(""), "");
    let marked = format!("{}ab{}cd", HL_START, HL_END);
    assert_eq!(remove_markers(&marked), "abcd");
}
