use just_orm::directory::{Directory, StoredFile};

fn names(dir: &Directory) -> Vec<String> {
    dir.files.iter().map(|f| f.name.clone()).collect()
}

#[test]
fn new_directory_has_no_files() {
    let dir = Directory::new();
    assert!(dir.files.is_empty());
    assert_eq!(dir.read("a"), None);
    assert_eq!(dir.index_of("a"), None);
}

#[test]
fn write_appends_a_new_file_and_replaces_an_old_one_in_place() {
    let mut dir = Directory::new();
    dir.write("a".to_string(), "1".to_string());
    dir.write("b".to_string(), "2".to_string());
    dir.write("c".to_string(), "3".to_string());
    dir.write("b".to_string(), "4".to_string());
    assert_eq!(names(&dir), vec!["a", "b", "c"]);
    assert_eq!(dir.read("a"), Some(&"1".to_string()));
    assert_eq!(dir.read("b"), Some(&"4".to_string()));
    assert_eq!(dir.read("c"), Some(&"3".to_string()));
    assert_eq!(dir.index_of("c"), Some(2));
}

#[test]
fn remove_takes_the_file_out_and_keeps_the_order() {
    let mut dir = Directory::new();
    dir.write("a".to_string(), "1".to_string());
    dir.write("b".to_string(), "2".to_string());
    dir.write("c".to_string(), "3".to_string());
    dir.remove("b");
    assert_eq!(names(&dir), vec!["a", "c"]);
    assert_eq!(dir.read("b"), None);
    dir.remove("missing");
    assert_eq!(names(&dir), vec!["a", "c"]);
}

#[test]
fn clone_of_a_directory_holds_the_same_files() {
    let dir = Directory {
        files: vec![StoredFile { name: "a".to_string(), text: "1".to_string() }],
    };
    let copy = dir.clone();
    assert_eq!(names(&copy), vec!["a"]);
    assert_eq!(copy.read("a"), Some(&"1".to_string()));
    let file = dir.files[0].clone();
    assert_eq!((file.name.as_str(), file.text.as_str()), ("a", "1"));
}
