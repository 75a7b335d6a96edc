use gtr::settings::{add_branches, parse_branches, remove, render_branches};

fn b(s: &str) -> Vec<u8> {
    s.as_bytes().to_vec()
}

#[test]
fn export_settings_adds_entries_to_settings() {
    let mut branches: Vec<Vec<u8>> = vec![b("testA"), b("testB")];
    branches.sort();
    let mut more_branches: Vec<Vec<u8>> = vec![b("testC"), b("testB"), b("testD")];
    more_branches.sort();
    let mut res_branches: Vec<Vec<u8>> = vec![b("testA"), b("testB"), b("testC"), b("testD")];
    res_branches.sort();

    let stored: Vec<Vec<u8>> = Vec::new();
    let stored = add_branches(&stored, &branches);
    assert!(stored.eq(&branches));

    let stored = add_branches(&stored, &more_branches);
    assert!(stored.eq(&res_branches));

    let stored = remove(&stored, &res_branches);
    assert!(stored.concat().eq(b""));
}

#[test]
fn adds_and_removes_branches_in_settings() {
    let mut branches: Vec<Vec<u8>> = vec![b("testA"), b("testB")];
    branches.sort();
    let mut more_branches: Vec<Vec<u8>> = vec![b("testC"), b("testB"), b("testD")];
    more_branches.sort();
    let mut res_branches: Vec<Vec<u8>> = vec![b("testA"), b("testB"), b("testC"), b("testD")];
    res_branches.sort();

    let stored: Vec<Vec<u8>> = Vec::new();
    let stored = add_branches(&stored, &branches);
    let res = stored.clone();
    println!("{res:#?}, {branches:#?}");
    assert!(res.eq(&branches));

    let stored = add_branches(&stored, &more_branches);
    assert!(stored.eq(&res_branches));

    let stored = remove(&stored, &res_branches);
    assert!(stored.concat().eq(b""));
}

#[test]
fn exporter_adds_entries_to_settings() {
    let mut branches: Vec<Vec<u8>> = vec![b("testA"), b("testB")];
    branches.sort();
    let mut more_branches: Vec<Vec<u8>> = vec![b("testC"), b("testB"), b("testD")];
    more_branches.sort();
    let mut res_branches: Vec<Vec<u8>> = vec![b("testA"), b("testB"), b("testC"), b("testD")];
    res_branches.sort();

    let stored: Vec<Vec<u8>> = Vec::new();
    let stored = add_branches(&stored, &branches);
    let res = stored.clone();
    println!("{res:#?}, {branches:#?}");
    assert!(res.eq(&branches));

    let stored = add_branches(&stored, &more_branches);
    assert!(stored.eq(&res_branches));

    let stored = remove(&stored, &res_branches);
    assert!(stored.concat().eq(b""));
}

#[test]
fn add_branches_sorts_and_deduplicates() {
    let old = vec![b("zeta"), b("alpha")];
    let new = vec![b("alpha"), b("beta")];
    let merged = add_branches(&old, &new);
    assert_eq!(merged, vec![b("alpha"), b("beta"), b("zeta")]);
}

#[test]
fn remove_drops_only_named_branches() {
    let old = vec![b("alpha"), b("beta"), b("gamma")];
    let del = vec![b("beta"), b("missing")];
    let kept = remove(&old, &del);
    assert_eq!(kept, vec![b("alpha"), b("gamma")]);
}

#[test]
fn parse_branches_keeps_nonempty_lines() {
    assert_eq!(
        parse_branches(b"alpha\n\nbeta\n"),
        vec![b("alpha"), b("beta")]
    );
    assert_eq!(parse_branches(b""), Vec::<Vec<u8>>::new());
}

#[test]
fn render_branches_joins_with_newlines() {
    assert_eq!(
        render_branches(&vec![b("alpha"), b("beta")]),
        b("alpha\nbeta")
    );
    assert_eq!(render_branches(&Vec::new()), b(""));
}

#[test]
fn stored_form_is_canonical() {
    // Two stores holding the same branches hold the same bytes, whatever
    // order and duplication the inputs came with.
    let one = add_branches(&vec![b("beta"), b("alpha")], &vec![b("gamma")]);
    let other = add_branches(
        &vec![b("gamma"), b("alpha"), b("gamma")],
        &vec![b("beta"), b("alpha")],
    );
    assert_eq!(one, other);
    assert_eq!(render_branches(&one), render_branches(&other));
}

#[test]
fn stored_form_round_trips() {
    let branches = vec![b("alpha"), b("beta"), b("gamma")];
    let rendered = render_branches(&branches);
    assert_eq!(parse_branches(rendered.as_slice()), branches);
}
