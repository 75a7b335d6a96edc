use gtr::git::{
    gitignore_with_gtr, gtr_ignored, pack_file_name, parse_ls_remote, ref_names,
    select_exsiting_branches,
};

fn b(s: &str) -> Vec<u8> {
    s.as_bytes().to_vec()
}

fn find_hash<'a>(refs: &'a [gtr::git::Ref], name: &str) -> Option<&'a Vec<u8>> {
    refs.iter()
        .find(|r| r.name == name.as_bytes())
        .map(|r| &r.hash)
}

#[test]
fn parse_ls_remote_maps_names_to_hashes() {
    let output = b"66ef7ea67c18d2341afb8c1521afbab31014e62f\tHEAD\n\
                   66ef7ea67c18d2341afb8c1521afbab31014e62f\trefs/heads/master\n\
                   da13823f7206ed470cdab7c98285cd706ae1dcbe\trefs/heads/dev\n";
    let refs = parse_ls_remote(output);
    assert_eq!(refs.len(), 3);
    assert_eq!(
        find_hash(&refs, "HEAD").unwrap(),
        &b("66ef7ea67c18d2341afb8c1521afbab31014e62f")
    );
    assert_eq!(
        find_hash(&refs, "refs/heads/master").unwrap(),
        &b("66ef7ea67c18d2341afb8c1521afbab31014e62f")
    );
    assert_eq!(
        find_hash(&refs, "refs/heads/dev").unwrap(),
        &b("da13823f7206ed470cdab7c98285cd706ae1dcbe")
    );
}

#[test]
fn parse_ls_remote_later_line_wins() {
    let output = b"aaaa\trefs/heads/master\nbbbb\trefs/heads/master\n";
    let refs = parse_ls_remote(output);
    assert_eq!(refs.len(), 1);
    assert_eq!(find_hash(&refs, "refs/heads/master").unwrap(), &b("bbbb"));
}

#[test]
fn parse_ls_remote_of_empty_output() {
    let refs = parse_ls_remote(b"");
    assert_eq!(refs.len(), 0);
}

#[test]
fn ref_names_lists_names_in_order() {
    let output = b"aaaa\tHEAD\nbbbb\trefs/heads/dev\n";
    let refs = parse_ls_remote(output);
    let names = ref_names(&refs);
    assert_eq!(names, vec![b("HEAD"), b("refs/heads/dev")]);
}

#[test]
fn select_exsiting_branches_intersects() {
    let available = vec![b("refs/heads/master"), b("refs/heads/dev"), b("HEAD")];
    let requested = vec![b("master"), b("missing"), b("dev")];
    let selected = select_exsiting_branches(&available, &requested);
    assert_eq!(selected, vec![b("refs/heads/master"), b("refs/heads/dev")]);
}

#[test]
fn selection_ignores_order_and_duplicates() {
    let available = vec![b("refs/heads/master"), b("refs/heads/dev"), b("HEAD")];
    let shuffled = vec![b("HEAD"), b("refs/heads/dev"), b("refs/heads/master")];
    let requested = vec![b("master"), b("dev")];
    let noisy = vec![b("dev"), b("dev"), b("master"), b("master"), b("dev")];

    let mut first: Vec<Vec<u8>> = select_exsiting_branches(&available, &requested);
    let mut second: Vec<Vec<u8>> = select_exsiting_branches(&shuffled, &noisy);
    first.sort();
    second.sort();
    assert_eq!(first, second);
    assert_eq!(first, vec![b("refs/heads/dev"), b("refs/heads/master")]);
}

#[test]
fn gtr_ignored_looks_for_a_whole_line() {
    assert!(gtr_ignored(b"target\n.gtr\nnotes"));
    assert!(!gtr_ignored(b"target\n.gtrx\nnotes"));
    assert!(!gtr_ignored(b""));
    assert!(gtr_ignored(b".gtr"));
}

#[test]
fn gitignore_with_gtr_appends_one_line() {
    assert_eq!(gitignore_with_gtr(b"target"), b("target\n.gtr"));
    assert_eq!(gitignore_with_gtr(b""), b("\n.gtr"));
}

#[test]
fn pack_file_name_appends_the_extension() {
    assert_eq!(pack_file_name("da13"), "da13.pack");
}
