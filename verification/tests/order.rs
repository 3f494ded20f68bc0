use enargeia::order::{
    rank_ascending, rank_descending, rank_texts_descending, sort_pairs, sort_texts,
};

fn texts(list: &[&str]) -> Vec<String> {
    list.iter().map(|s| s.to_string()).collect()
}

fn dates(list: &[Option<&str>]) -> Vec<Option<String>> {
    list.iter().map(|d| d.map(|s| s.to_string())).collect()
}

#[test]
fn sorting_keeps_each_text_once_in_order() {
    let mut expected = texts(&["b", "a", "c", "a"]);
    expected.sort();
    expected.dedup();
    assert_eq!(sort_texts(&texts(&["b", "a", "c", "a"])), expected);
    let pairs = vec![("token", "b".to_string()), ("norm", "z".to_string()), ("token", "b".to_string())];
    assert_eq!(sort_pairs(&pairs), vec![("norm", "z".to_string()), ("token", "b".to_string())]);
}

#[test]
fn ranking_is_stable() {
    assert_eq!(rank_descending(&vec![3, 9, 3, -1, 9]), vec![1, 4, 0, 2, 3]);
    let keys = dates(&[Some("2026"), None, Some("2025"), None]);
    assert_eq!(rank_ascending(&keys), vec![1, 3, 2, 0]);
    assert_eq!(rank_texts_descending(&keys), vec![0, 2, 1, 3]);
}
