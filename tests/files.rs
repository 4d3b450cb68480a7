use stash::{digest, Catalog, File, StashError};

fn create_file(
    catalog: &mut Catalog,
    name: &str,
    tags: &[&str],
    replace: bool,
    content: &[u8],
    now: i64,
) -> (Result<File, StashError>, bool) {
    let hash = digest(content);
    let tags: Vec<String> = tags.iter().map(|t| t.to_string()).collect();
    match catalog.commit(name, content.len() as u64, &hash, &tags, replace, now) {
        Ok(c) => (Ok(c.file), c.stored),
        Err(e) => (Err(e), false),
    }
}

#[test]
fn file_cas() {
    let mut c = Catalog::new();
    let (file1, s1) = create_file(&mut c, "f1", &["t1", "t2"], false, b"hello", 1);
    let (file2, s2) = create_file(&mut c, "f2", &["t2", "t3"], false, b"world", 2);
    let (file3, s3) = create_file(&mut c, "f3", &["t3", "t4"], false, b"hello", 3);
    let (file4, _) = create_file(&mut c, "f3", &["t3", "t4"], false, b"foo", 4);
    let (file1, file2, file3) = (file1.unwrap(), file2.unwrap(), file3.unwrap());

    assert_eq!(file4, Err(StashError::FileAlreadyExists));
    assert_eq!(file4.unwrap_err().message(), "File already exists");

    // only the first commit of a content stores it
    assert!(s1 && s2 && !s3);
    assert_eq!(file1.size, file3.size);
    assert_eq!(file1.hash, file3.hash);

    assert_eq!(c.describe("f1").unwrap().tags, vec!["t1".to_string(), "t2".to_string()]);
    assert_eq!(c.describe("f2").unwrap().tags, vec!["t2".to_string(), "t3".to_string()]);
    assert_eq!(c.describe("f3").unwrap().tags, vec!["t3".to_string(), "t4".to_string()]);

    assert_eq!(c.delete("f1"), Ok(()));
    assert_eq!(c.describe("f1"), Err(StashError::NoSuchFile));
    assert_eq!(c.describe("f1").unwrap_err().message(), "No such file");

    // the content of f1 is still referenced by f3
    assert_eq!(c.collect_garbage(), Vec::<String>::new());
    assert_eq!(c.delete("f3"), Ok(()));
    assert_eq!(c.collect_garbage(), vec![file1.hash.clone()]);
    assert_eq!(c.collect_garbage(), Vec::<String>::new());
    assert_eq!(c.describe("f2").unwrap().hash, file2.hash);
}

#[test]
fn file_lookup() {
    let mut c = Catalog::new();
    let file1 = create_file(&mut c, "dir1/f1", &["t1"], false, b"hello", 1).0.unwrap();
    let file2 = create_file(&mut c, "dir1/f2", &["t2"], false, b"world", 2).0.unwrap();
    let file3 = create_file(&mut c, "dir2/f3", &["t1", "t3"], false, b"hello", 3).0.unwrap();

    assert_eq!(c.list("t1", None).unwrap(), vec![file1.clone(), file3.clone()]);
    assert_eq!(c.list("t1", Some("dir1/")).unwrap(), vec![file1.clone()]);
    assert_eq!(c.list("t2", None).unwrap(), vec![file2.clone()]);
    assert_eq!(c.list("t3", None).unwrap(), vec![file3.clone()]);
    assert_eq!(c.search("t1", "f").unwrap(), vec![file1.clone(), file3.clone()]);
    assert_eq!(c.search("t1", "f3").unwrap(), vec![file3.clone()]);
}

#[test]
fn file_replace() {
    let mut c = Catalog::new();
    let file1 = create_file(&mut c, "hello-1", &["test"], false, b"hello", 1).0.unwrap();
    let file2 = create_file(&mut c, "hello-2", &["test"], false, b"hello", 2).0.unwrap();
    assert_eq!(c.list("test", None).unwrap(), vec![file1.clone(), file2.clone()]);

    let file3 = create_file(&mut c, "hello-1", &["test"], false, b"world", 3).0;
    assert_eq!(file3.unwrap_err().message(), "File already exists");

    let (file3, stored) = create_file(&mut c, "hello-1", &["test"], true, b"world", 4);
    let file3 = file3.unwrap();
    assert!(stored);
    assert_eq!(c.list("test", None).unwrap(), vec![file3, file2]);
}

#[test]
fn tags() {
    let mut c = Catalog::new();
    assert!(c.all_tags().is_empty());
    create_file(&mut c, "f", &["t1"], false, b"hello", 1).0.unwrap();
    assert_eq!(c.all_tags(), vec!["t1".to_string()]);
}

#[test]
fn all_tags_sorted_and_unique() {
    let mut c = Catalog::new();
    create_file(&mut c, "a", &["zeta", "alpha"], false, b"1", 1).0.unwrap();
    create_file(&mut c, "b", &["mid", "alpha"], false, b"2", 2).0.unwrap();
    assert_eq!(c.all_tags(), vec!["alpha".to_string(), "mid".to_string(), "zeta".to_string()]);
}

#[test]
fn commit_tag_errors() {
    let mut c = Catalog::new();
    let (r, _) = create_file(&mut c, "x", &[], false, b"1", 1);
    assert_eq!(r, Err(StashError::NoTags));
    let (r, _) = create_file(&mut c, "x", &["ok", ";notvalid", "Bad"], false, b"1", 1);
    assert_eq!(r.clone(), Err(StashError::InvalidTag(";notvalid".to_string())));
    assert_eq!(r.unwrap_err().message(), "Invalid tag ;notvalid");
    // nothing was recorded
    assert!(c.all_tags().is_empty());
    assert_eq!(c.describe("x"), Err(StashError::NoSuchFile));
}

#[test]
fn commit_scenario_hello_world() {
    let mut c = Catalog::new();
    let (f, stored) = create_file(&mut c, "test-file", &["t2", "t1"], false, b"hello world", 9);
    let f = f.unwrap();
    assert!(stored);
    assert_eq!(f.size, 11);
    assert_eq!(f.created, 9);
    assert_eq!(f.hash, "b94d27b9934d3e08a52e52d7da7dabfac484efe37a5380ee9088f7ace2efcde9");
    let d = c.describe("test-file").unwrap();
    assert_eq!(d.tags, vec!["t1".to_string(), "t2".to_string()]);
    assert_eq!(d.size, 11);
}

#[test]
fn list_edge_cases() {
    let mut c = Catalog::new();
    create_file(&mut c, "b", &["t"], false, b"1", 1).0.unwrap();
    create_file(&mut c, "a", &["t"], false, b"2", 2).0.unwrap();
    create_file(&mut c, "ab", &["t", "t"], false, b"3", 3).0.unwrap();
    let names = |v: Vec<File>| v.into_iter().map(|f| f.name).collect::<Vec<_>>();
    assert_eq!(names(c.list("t", None).unwrap()), vec!["a", "ab", "b"]);
    assert_eq!(names(c.list("t", Some("a")).unwrap()), vec!["a", "ab"]);
    assert_eq!(names(c.list("t", Some("")).unwrap()), vec!["a", "ab", "b"]);
    assert_eq!(names(c.search("t", "b").unwrap()), vec!["ab", "b"]);
    assert_eq!(names(c.search("t", "").unwrap()), vec!["a", "ab", "b"]);
    assert!(c.list("nope", None).unwrap().is_empty());
    assert_eq!(c.list("Bad", None), Err(StashError::InvalidTag("Bad".to_string())));
    assert_eq!(c.search(";x", "a"), Err(StashError::InvalidTag(";x".to_string())));
    assert_eq!(c.describe("ab").unwrap().tags, vec!["t".to_string(), "t".to_string()]);
}

#[test]
fn delete_missing_file() {
    let mut c = Catalog::new();
    assert_eq!(c.delete("nope"), Err(StashError::NoSuchFile));
}

#[test]
fn files_export_in_name_order() {
    let mut c = Catalog::new();
    create_file(&mut c, "b", &["t2", "t1"], false, b"1", 10).0.unwrap();
    create_file(&mut c, "a", &["t3"], false, b"2", 20).0.unwrap();
    let files = c.files();
    assert_eq!(files.len(), 2);
    assert_eq!(files[0].name, "a");
    assert_eq!(files[0].created, 20);
    assert_eq!(files[1].name, "b");
    assert_eq!(files[1].tags, vec!["t1".to_string(), "t2".to_string()]);
    assert_eq!(files[1].hash, digest(b"1"));

    // committing the export again rebuilds the same files
    let mut d = Catalog::new();
    for f in files.iter() {
        d.commit(&f.name, f.size, &f.hash, &f.tags, false, f.created).unwrap();
    }
    assert_eq!(d.files(), files);
}

#[test]
fn check_commit_predicts_commit() {
    let mut c = Catalog::new();
    let h = digest(b"hello");
    let tags = vec!["t1".to_string()];
    assert_eq!(c.check_commit("f1", &h, &tags, false), Ok(true));
    c.commit("f1", 5, &h, &tags, false, 1).unwrap();
    assert_eq!(c.check_commit("f2", &h, &tags, false), Ok(false));
    assert_eq!(c.check_commit("f1", &h, &tags, false), Err(StashError::FileAlreadyExists));
    assert_eq!(c.check_commit("f1", &h, &tags, true), Ok(false));
    assert_eq!(c.check_commit("f1", &h, &vec![], true), Err(StashError::NoTags));
    assert_eq!(
        c.check_commit("f1", &h, &vec!["x".to_string(), "Y".to_string()], true),
        Err(StashError::InvalidTag("Y".to_string()))
    );
    assert_eq!(c.check_commit("f9", &digest(b"other"), &tags, false), Ok(true));
}
