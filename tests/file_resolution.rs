use program_structure::file_stack::{normalize_path, path_eq, FileStack, IncludeDirective, PathComponent};

fn path(text: &str) -> Vec<PathComponent> {
    let mut out = Vec::new();
    if text.starts_with('/') {
        out.push(PathComponent::RootDir);
    }
    for part in text.split('/') {
        match part {
            "" => {}
            "." => out.push(PathComponent::CurDir),
            ".." => out.push(PathComponent::ParentDir),
            p => out.push(PathComponent::Normal(p.as_bytes().to_vec())),
        }
    }
    out
}

fn directive(text: &str, start: usize) -> IncludeDirective {
    IncludeDirective { path: path(text), file_id: 5, location_start: start, location_end: start + 10 }
}

fn same(a: &Vec<PathComponent>, b: &str) -> bool {
    path_eq(a, &path(b))
}

#[test]
fn normalization_resolves_dots() {
    assert!(same(&normalize_path(&path("/src/./lib/../main.circom")), "/src/main.circom"));
    assert!(same(&normalize_path(&path("../a.circom")), "a.circom"));
    assert!(same(&normalize_path(&path("/../a.circom")), "/a.circom"));
    assert!(!same(&normalize_path(&path("/src/lib/x.circom")), "/src/x.circom"));
}

#[test]
fn diamond_inclusion_hands_the_file_out_once() {
    let mut files = FileStack::new(vec![path("/p/main.circom")]);
    let mut handed = Vec::new();
    while let Some(next) = files.take_next() {
        let name = String::from_utf8(match next.last() {
            Some(PathComponent::Normal(n)) => n.clone(),
            _ => panic!("file path"),
        })
        .unwrap();
        let targets: Vec<&str> = match name.as_str() {
            "main.circom" => vec!["left.circom", "right.circom"],
            "left.circom" | "right.circom" => vec!["./shared.circom"],
            _ => vec![],
        };
        for t in targets {
            assert!(files.add_include(&directive(t, 0), true).is_ok());
        }
        handed.push(name);
    }
    assert_eq!(handed.iter().filter(|n| n.as_str() == "shared.circom").count(), 1);
    assert_eq!(handed.len(), 4);
}

#[test]
fn missing_target_reports_its_place() {
    let mut files = FileStack::new(vec![path("/p/main.circom")]);
    assert!(files.take_next().is_some());
    match files.add_include(&directive("missing.circom", 42), false) {
        Err(e) => {
            assert!(same(&e.path, "missing.circom"));
            assert_eq!(e.file_id, 5);
            assert_eq!(e.location_start, 42);
            assert_eq!(e.location_end, 52);
        }
        Ok(()) => panic!("a missing target must fail"),
    }
    assert!(files.take_next().is_none());
}

#[test]
fn self_inclusion_terminates() {
    let mut files = FileStack::new(vec![path("/p/a.circom")]);
    let first = files.take_next().expect("the input file");
    assert!(same(&first, "/p/a.circom"));
    assert!(same(&files.resolve_include(&path("a.circom")), "/p/a.circom"));
    assert!(files.add_include(&directive("a.circom", 0), true).is_ok());
    assert!(files.take_next().is_none());
}

#[test]
fn user_inputs_are_remembered() {
    let mut files = FileStack::new(vec![path("/p/a.circom"), path("/p/b.circom")]);
    assert!(files.is_user_input(&path("/p/a.circom")));
    assert!(!files.is_user_input(&path("/p/c.circom")));
    let next = files.take_next().unwrap();
    assert!(same(&next, "/p/b.circom"));
    assert!(files.add_include(&directive("../q/c.circom", 0), true).is_ok());
    assert!(same(&files.take_next().unwrap(), "/q/c.circom"));
    assert!(!files.is_user_input(&path("/q/c.circom")));
}
