use wgsl_flatten::resolve::load;
use wgsl_flatten::resolve::Outcome;
use wgsl_flatten::resolve::Request;
use wgsl_flatten::resolve::ResolveError;
use wgsl_flatten::tree::SourceTree;

/// A directive line: the ten prefix bytes (hash, the eight-letter keyword,
/// a space, a double quote), the path, and the closing quote.
fn directive(path: &str) -> Vec<u8> {
    let mut v: Vec<u8> = vec![35, 105, 110, 99, 108, 117, 100, 101, 32, 34];
    v.extend_from_slice(path.as_bytes());
    v.push(34);
    v
}

fn join_lines(lines: &[Vec<u8>]) -> Vec<u8> {
    let mut out: Vec<u8> = Vec::new();
    for (i, l) in lines.iter().enumerate() {
        if i > 0 {
            out.push(10);
        }
        out.extend_from_slice(l);
    }
    out
}

#[test]
fn order_preserved_around_directive() {
    let mut t = SourceTree::new();
    let root = t.add_file(b"/s/root.wgsl".to_vec());
    let x = t.add_file(b"/s/x.inc".to_vec());
    t.set_file_text(
        root,
        join_lines(&[b"line1".to_vec(), directive("x.inc"), b"line3".to_vec()]),
    );
    t.set_file_text(x, b"xa\nxb".to_vec());
    t.add_link(b"/s".to_vec(), b"x.inc".to_vec(), x);
    match load(&t, root) {
        Outcome::Resolved(b) => {
            // The directive site receives the target file's flattened
            // text (every line of it newline-terminated) plus the site's
            // own newline.
            assert_eq!(b.text, b"line1\nxa\nxb\n\nline3\n".to_vec());
            assert_eq!(b.deps, vec![root, x]);
        }
        _ => panic!("expected resolution to finish"),
    }
}

#[test]
fn trailing_newline_is_normalized() {
    let mut t = SourceTree::new();
    let root = t.add_file(b"/s/root.wgsl".to_vec());
    t.set_file_text(root, b"a\nb\n".to_vec());
    match load(&t, root) {
        Outcome::Resolved(b) => assert_eq!(b.text, b"a\nb\n".to_vec()),
        _ => panic!("expected resolution to finish"),
    }
}

#[test]
fn empty_file_flattens_to_empty_text() {
    let mut t = SourceTree::new();
    let root = t.add_file(b"/s/root.wgsl".to_vec());
    t.set_file_text(root, Vec::new());
    match load(&t, root) {
        Outcome::Resolved(b) => {
            assert_eq!(b.text, Vec::<u8>::new());
            assert_eq!(b.deps, vec![root]);
        }
        _ => panic!("expected resolution to finish"),
    }
}

#[test]
fn malformed_directive_cites_line() {
    let mut t = SourceTree::new();
    let root = t.add_file(b"/s/root.wgsl".to_vec());
    let mut bad: Vec<u8> = vec![35, 105, 110, 99, 108, 117, 100, 101, 32, 34];
    bad.extend_from_slice(b"unterminated");
    t.set_file_text(root, join_lines(&[b"ok line".to_vec(), bad]));
    match load(&t, root) {
        Outcome::Failed(ResolveError::Malformed { path, line }) => {
            assert_eq!(path, b"/s/root.wgsl".to_vec());
            assert_eq!(line, 2);
        }
        _ => panic!("expected a malformed-directive failure"),
    }
}

#[test]
fn unresolvable_path_cites_site_and_cause() {
    let mut t = SourceTree::new();
    let root = t.add_file(b"/s/root.wgsl".to_vec());
    t.set_file_text(root, directive("missing.inc"));
    t.add_broken_link(
        b"/s".to_vec(),
        b"missing.inc".to_vec(),
        b"no such file or directory".to_vec(),
    );
    match load(&t, root) {
        Outcome::Failed(ResolveError::Unresolvable { path, line, cause }) => {
            assert_eq!(path, b"/s/root.wgsl".to_vec());
            assert_eq!(line, 1);
            assert_eq!(cause, b"no such file or directory".to_vec());
        }
        _ => panic!("expected an unresolvable-path failure"),
    }
}

#[test]
fn unreadable_file_cites_that_file_not_the_root() {
    let mut t = SourceTree::new();
    let root = t.add_file(b"/s/root.wgsl".to_vec());
    let gone = t.add_file(b"/s/gone.inc".to_vec());
    t.set_file_text(root, directive("gone.inc"));
    t.set_file_unreadable(gone, b"permission denied".to_vec());
    t.add_link(b"/s".to_vec(), b"gone.inc".to_vec(), gone);
    match load(&t, root) {
        Outcome::Failed(ResolveError::Unreadable { path, cause }) => {
            assert_eq!(path, b"/s/gone.inc".to_vec());
            assert_eq!(cause, b"permission denied".to_vec());
        }
        _ => panic!("expected an unreadable-file failure"),
    }
}

#[test]
fn cycle_is_detected_without_divergence() {
    let mut t = SourceTree::new();
    let a = t.add_file(b"/s/a.wgsl".to_vec());
    let b = t.add_file(b"/s/b.wgsl".to_vec());
    t.set_file_text(a, directive("b.wgsl"));
    t.set_file_text(b, directive("a.wgsl"));
    t.add_link(b"/s".to_vec(), b"b.wgsl".to_vec(), b);
    t.add_link(b"/s".to_vec(), b"a.wgsl".to_vec(), a);
    match load(&t, a) {
        Outcome::Failed(ResolveError::Circular { path }) => {
            assert_eq!(path, b"/s/a.wgsl".to_vec());
        }
        _ => panic!("expected a circular-inclusion failure"),
    }
}

#[test]
fn self_cycle_is_detected() {
    let mut t = SourceTree::new();
    let a = t.add_file(b"/s/a.wgsl".to_vec());
    t.set_file_text(a, directive("a.wgsl"));
    t.add_link(b"/s".to_vec(), b"a.wgsl".to_vec(), a);
    match load(&t, a) {
        Outcome::Failed(ResolveError::Circular { path }) => {
            assert_eq!(path, b"/s/a.wgsl".to_vec());
        }
        _ => panic!("expected a circular-inclusion failure"),
    }
}

/// Drives `load` the way a build step would: every open question is
/// answered from the given disk image, and content reads are counted.
fn drive(disk: &[(&str, Vec<u8>)], root_path: &str) -> (Outcome, Vec<usize>) {
    let mut t = SourceTree::new();
    let mut paths: Vec<String> = Vec::new();
    let root = t.add_file(root_path.as_bytes().to_vec());
    paths.push(root_path.to_string());
    let mut reads: Vec<usize> = vec![0; disk.len() + 1];
    loop {
        match load(&t, root) {
            Outcome::Blocked(Request::Content { file }) => {
                reads[file] += 1;
                let p = paths[file].clone();
                match disk.iter().find(|(dp, _)| *dp == p) {
                    Some((_, content)) => t.set_file_text(file, content.clone()),
                    None => t.set_file_unreadable(file, b"no such file".to_vec()),
                }
            }
            Outcome::Blocked(Request::Path { dir, rel }) => {
                let full = format!(
                    "{}/{}",
                    String::from_utf8(dir.clone()).unwrap(),
                    String::from_utf8(rel.clone()).unwrap()
                );
                let idx = match t.find_file(&full.as_bytes().to_vec()) {
                    Some(i) => i,
                    None => {
                        let i = t.add_file(full.as_bytes().to_vec());
                        paths.push(full.clone());
                        i
                    }
                };
                t.add_link(dir, rel, idx);
            }
            done => return (done, reads),
        }
    }
}

#[test]
fn diamond_reads_each_file_once_and_splices_in_place() {
    let disk: Vec<(&str, Vec<u8>)> = vec![
        (
            "/s/a.wgsl",
            join_lines(&[directive("b.wgsl"), directive("c.wgsl")]),
        ),
        ("/s/b.wgsl", directive("d.wgsl")),
        ("/s/c.wgsl", directive("d.wgsl")),
        ("/s/d.wgsl", b"dd1\ndd2".to_vec()),
    ];
    let (outcome, reads) = drive(&disk, "/s/a.wgsl");
    match outcome {
        Outcome::Resolved(b) => {
            assert_eq!(b.text, b"dd1\ndd2\n\n\ndd1\ndd2\n\n\n".to_vec());
            assert_eq!(b.deps, vec![0, 1, 2, 3]);
        }
        _ => panic!("expected resolution to finish"),
    }
    for (i, n) in reads.iter().enumerate().take(4) {
        assert_eq!(*n, 1, "file {} read more than once", i);
    }
}

#[test]
fn dependency_set_is_complete_and_duplicate_free() {
    let disk: Vec<(&str, Vec<u8>)> = vec![
        (
            "/s/root.wgsl",
            join_lines(&[directive("b.wgsl"), directive("c.wgsl")]),
        ),
        ("/s/b.wgsl", directive("d.wgsl")),
        ("/s/c.wgsl", b"c only".to_vec()),
        ("/s/d.wgsl", b"d only".to_vec()),
    ];
    let (outcome, _) = drive(&disk, "/s/root.wgsl");
    match outcome {
        Outcome::Resolved(b) => {
            assert_eq!(b.deps, vec![0, 1, 2, 3]);
        }
        _ => panic!("expected resolution to finish"),
    }
}

#[test]
fn missing_root_is_reported_against_the_root() {
    let disk: Vec<(&str, Vec<u8>)> = Vec::new();
    let (outcome, _) = drive(&disk, "/s/root.wgsl");
    match outcome {
        Outcome::Failed(ResolveError::Unreadable { path, .. }) => {
            assert_eq!(path, b"/s/root.wgsl".to_vec());
        }
        _ => panic!("expected an unreadable-file failure"),
    }
}

#[test]
fn bytes_after_closing_quote_are_ignored() {
    let mut t = SourceTree::new();
    let root = t.add_file(b"/s/root.wgsl".to_vec());
    let x = t.add_file(b"/s/x.inc".to_vec());
    let mut line = directive("x.inc");
    line.extend_from_slice(b" trailing junk");
    t.set_file_text(root, line);
    t.set_file_text(x, b"xa".to_vec());
    t.add_link(b"/s".to_vec(), b"x.inc".to_vec(), x);
    match load(&t, root) {
        Outcome::Resolved(b) => assert_eq!(b.text, b"xa\n\n".to_vec()),
        _ => panic!("expected resolution to finish"),
    }
}

#[test]
fn find_file_reports_known_paths_only() {
    let mut t = SourceTree::new();
    let a = t.add_file(b"/s/a.wgsl".to_vec());
    assert_eq!(t.find_file(&b"/s/a.wgsl".to_vec()), Some(a));
    assert_eq!(t.find_file(&b"/s/other.wgsl".to_vec()), None);
}
