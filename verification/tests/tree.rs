use cache_aware_router::tree::Tree;

fn found(tree: &mut Tree, text: &str) -> (String, usize, usize) {
    let result = tree.prefix_match_with_counts(text);
    (result.tenant, result.matched_char_count, result.input_char_count)
}

#[test]
fn a_new_tree_is_empty() {
    let mut tree = Tree::new();
    assert!(tree.is_empty());
    assert!(!tree.has_tenant("w1"));
    assert_eq!(tree.tenant_size("w1"), 0);
    assert_eq!(found(&mut tree, "abc"), ("empty".to_string(), 0, 3));
    assert_eq!(found(&mut tree, ""), ("empty".to_string(), 0, 0));
}

#[test]
fn an_empty_text_makes_a_tenant_take_part() {
    let mut tree = Tree::new();
    tree.insert("", "w1");
    assert!(!tree.is_empty());
    assert!(tree.has_tenant("w1"));
    assert!(!tree.has_tenant("w2"));
    assert_eq!(tree.tenant_size("w1"), 0);
    assert_eq!(found(&mut tree, "abc"), ("w1".to_string(), 0, 3));
}

#[test]
fn an_inserted_text_is_found_by_its_tenant() {
    let mut tree = Tree::new();
    tree.insert("", "w1");
    tree.insert("hello world", "w2");
    tree.insert("", "w3");
    assert_eq!(found(&mut tree, "hello world"), ("w2".to_string(), 11, 11));
    assert_eq!(found(&mut tree, "hello"), ("w2".to_string(), 5, 5));
    assert_eq!(found(&mut tree, "hello there"), ("w2".to_string(), 6, 11));
    assert_eq!(found(&mut tree, "hello world!"), ("w2".to_string(), 11, 12));
}

#[test]
fn the_tenant_that_used_a_text_last_is_found() {
    let mut tree = Tree::new();
    tree.insert("abc", "w1");
    tree.insert("abc", "w2");
    assert_eq!(found(&mut tree, "abc").0, "w2");
    tree.insert("abc", "w1");
    assert_eq!(found(&mut tree, "abc").0, "w1");
    tree.insert("abd", "w2");
    assert_eq!(found(&mut tree, "abc").0, "w1");
    assert_eq!(found(&mut tree, "abd").0, "w2");
}

#[test]
fn a_lookup_counts_as_a_use() {
    let mut tree = Tree::new();
    tree.insert("abc", "w1");
    tree.insert("abd", "w2");
    assert_eq!(found(&mut tree, "ab").0, "w2");
    assert_eq!(found(&mut tree, "abc").0, "w1");
    assert_eq!(found(&mut tree, "ab").0, "w1");
}

#[test]
fn sizes_count_every_cached_prefix_once() {
    let mut tree = Tree::new();
    tree.insert("abc", "w1");
    assert_eq!(tree.tenant_size("w1"), 3);
    tree.insert("abd", "w1");
    assert_eq!(tree.tenant_size("w1"), 4);
    tree.insert("abc", "w1");
    assert_eq!(tree.tenant_size("w1"), 4);
    tree.insert("ab", "w2");
    assert_eq!(tree.tenant_size("w2"), 2);
    tree.insert("a", "w3");
    assert_eq!(tree.tenant_size("w3"), 1);
    assert_eq!(tree.tenant_size("w1"), 4);
    assert_eq!(tree.tenant_size("w2"), 2);
}

#[test]
fn lengths_are_counted_in_characters() {
    let mut tree = Tree::new();
    tree.insert("grüße", "w1");
    assert_eq!(tree.tenant_size("w1"), 5);
    assert_eq!(found(&mut tree, "grün"), ("w1".to_string(), 3, 4));
}

#[test]
fn a_removed_tenant_leaves_the_others_alone() {
    let mut tree = Tree::new();
    tree.insert("abc", "w1");
    tree.insert("ab", "w2");
    tree.remove_tenant("w1");
    assert!(!tree.has_tenant("w1"));
    assert_eq!(tree.tenant_size("w1"), 0);
    assert!(tree.has_tenant("w2"));
    assert_eq!(tree.tenant_size("w2"), 2);
    assert_eq!(found(&mut tree, "abc"), ("w2".to_string(), 2, 3));
    tree.remove_tenant("w3");
    assert_eq!(tree.tenant_size("w2"), 2);
    tree.remove_tenant("w2");
    assert!(tree.is_empty());
    assert_eq!(found(&mut tree, "abc"), ("empty".to_string(), 0, 3));
}

#[test]
fn an_eviction_gives_up_what_was_not_used_for_the_longest_time() {
    let mut tree = Tree::new();
    tree.insert("aaaa", "w1");
    tree.insert("bbbb", "w1");
    tree.insert("cccc", "w1");
    assert_eq!(found(&mut tree, "aaaa").1, 4);
    tree.evict_tenant_by_size(8);
    assert_eq!(tree.tenant_size("w1"), 8);
    assert_eq!(found(&mut tree, "bbbb").1, 0);
    assert_eq!(found(&mut tree, "aaaa").1, 4);
    assert_eq!(found(&mut tree, "cccc").1, 4);
}

#[test]
fn an_eviction_gives_up_leaves_before_what_leads_to_them() {
    let mut tree = Tree::new();
    tree.insert("abcd", "w1");
    tree.insert("abxy", "w1");
    assert_eq!(tree.tenant_size("w1"), 6);
    tree.evict_tenant_by_size(5);
    assert_eq!(tree.tenant_size("w1"), 4);
    assert_eq!(found(&mut tree, "abcd").1, 2);
    assert_eq!(found(&mut tree, "abxy").1, 4);
}

#[test]
fn an_eviction_spares_tenants_within_the_limit() {
    let mut tree = Tree::new();
    tree.insert("abcdef", "w1");
    tree.insert("abc", "w2");
    tree.evict_tenant_by_size(3);
    assert_eq!(tree.tenant_size("w2"), 3);
    assert!(tree.tenant_size("w1") <= 3);
    assert!(tree.has_tenant("w1"));
    assert_eq!(found(&mut tree, "abcdef").1, 3);
}

#[test]
fn an_eviction_to_nothing_keeps_the_tenants() {
    let mut tree = Tree::new();
    tree.insert("abc", "w1");
    tree.evict_tenant_by_size(0);
    assert_eq!(tree.tenant_size("w1"), 0);
    assert!(tree.has_tenant("w1"));
    assert!(!tree.is_empty());
    assert_eq!(found(&mut tree, "abc"), ("w1".to_string(), 0, 3));
}
