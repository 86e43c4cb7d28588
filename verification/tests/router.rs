use composite_dispatch::router::{group_tokens, route};

fn toks(xs: &[&str]) -> Vec<String> {
    xs.iter().map(|x| x.to_string()).collect()
}

#[test]
fn group_tokens_splits_on_hyphens() {
    let tokens = toks(&["--a", "x", "y", "--b", "z"]);
    let groups = group_tokens(&tokens);
    assert_eq!(groups.len(), 2);
    assert_eq!(groups[0], toks(&["--a", "x", "y"]));
    assert_eq!(groups[1], toks(&["--b", "z"]));
}

#[test]
fn group_tokens_empty_input() {
    let tokens: Vec<String> = Vec::new();
    let groups = group_tokens(&tokens);
    assert!(groups.is_empty());
}

#[test]
fn grouping_completeness_concrete() {
    // Flattening the groups reconstructs the original sequence exactly.
    let tokens = toks(&["-q", "--http-base", "/", "a", "--listen", "127.0.0.1:3000"]);
    let groups = group_tokens(&tokens);
    let flat: Vec<String> = groups.into_iter().flatten().collect();
    assert_eq!(flat, tokens);
}

#[test]
fn route_rewrites_selected_groups() {
    let args = toks(&["--http-base", "/api", "--redis-address", "redis://y", "--other-common"]);
    assert_eq!(route(&args, "http"), toks(&["--base", "/api"]));
    assert_eq!(route(&args, "redis"), toks(&["--address", "redis://y"]));
}

#[test]
fn route_keeps_group_tails_unchanged() {
    let args = toks(&["--http-env", "A=1", "B=2", "--verbose"]);
    assert_eq!(route(&args, "http"), toks(&["--env", "A=1", "B=2"]));
}

#[test]
fn route_is_deterministic() {
    let args = toks(&["--http-base", "/api", "--redis-address", "x"]);
    let first = route(&args, "http");
    let second = route(&args, "http");
    assert_eq!(first, second);
}

#[test]
fn route_selectivity_no_match_is_empty() {
    let args = toks(&["--redis-address", "x", "--verbose", "--sqs-queue", "q"]);
    assert!(route(&args, "http").is_empty());
}

#[test]
fn route_empty_input_is_empty() {
    let args: Vec<String> = Vec::new();
    assert!(route(&args, "http").is_empty());
}

#[test]
fn route_drops_common_flags() {
    // There is no broadcast mechanism: a group with no type prefix is
    // dropped for every type.
    let args = toks(&["--quiet", "--http-base", "/"]);
    assert_eq!(route(&args, "http"), toks(&["--base", "/"]));
    assert_eq!(route(&args, "redis"), Vec::<String>::new());
}
