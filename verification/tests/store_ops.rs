use urlstore::store::FolderSet;

#[test]
fn test_folders() {
    let mut fs = FolderSet::new();
    fs.add_folder("bonjour");
    let _ = fs.set_in_folder("bonjour", "var1", "url1");
    let _ = fs.set_in_folder("bonjour", "var2", "url2");
    fs.add_folder("caca");
    let _ = fs.set_in_folder("caca", "varname1", "urlname1");
    println!("{}", fs.serialize());
}

#[test]
fn add_folder_is_idempotent() {
    let mut fs = FolderSet::new();
    fs.add_folder("x");
    let _ = fs.set_in_folder("x", "a", "u1");
    fs.add_folder("x");
    assert!(fs.contains_folder("x"));
    let names = fs.list_folder("x");
    assert_eq!(names.len(), 1);
    assert_eq!(names[0], "a");
    assert_eq!(fs.get("x", "a"), Some(&String::from("u1")));
}

#[test]
fn remove_folder_matches_exact_names() {
    let mut fs = FolderSet::new();
    fs.add_folder("alpha");
    fs.add_folder("alphabeta");
    let _ = fs.set_in_folder("alpha", "k", "u1");
    let _ = fs.set_in_folder("alphabeta", "k", "u2");
    assert!(fs.remove_folder("alpha"));
    assert!(!fs.contains_folder("alpha"));
    assert_eq!(fs.get("alpha", "k"), None);
    assert!(fs.contains_folder("alphabeta"));
    assert_eq!(fs.get("alphabeta", "k"), Some(&String::from("u2")));
    assert_eq!(fs.list_folder("alphabeta"), vec![String::from("k")]);
}

#[test]
fn get_in_missing_folder_is_absent() {
    let mut fs = FolderSet::new();
    fs.add_folder("somewhere");
    let _ = fs.set_in_folder("somewhere", "k", "u");
    assert_eq!(fs.get("nope", "k"), None);
}

#[test]
fn list_folder_is_scoped_to_one_folder() {
    let mut fs = FolderSet::new();
    fs.add_folder("f");
    fs.add_folder("g");
    let _ = fs.set_in_folder("f", "a", "u1");
    let _ = fs.set_in_folder("f", "b", "u2");
    let _ = fs.set_in_folder("g", "a", "u3");
    let mut names = fs.list_folder("f");
    names.sort();
    assert_eq!(names, vec![String::from("a"), String::from("b")]);
    assert_eq!(fs.list_folder("g"), vec![String::from("a")]);
}

#[test]
fn set_overwrites_and_get_reads_back() {
    let mut fs = FolderSet::new();
    fs.add_folder("f");
    assert_eq!(fs.set_in_folder("f", "a", "u1"), Some(()));
    assert_eq!(fs.set_in_folder("f", "a", "u2"), Some(()));
    assert_eq!(fs.get("f", "a"), Some(&String::from("u2")));
    assert_eq!(fs.list_folder("f"), vec![String::from("a")]);
}

#[test]
fn set_does_not_require_registration() {
    let mut fs = FolderSet::new();
    let _ = fs.set_in_folder("ghost_dir", "a", "u");
    assert!(!fs.contains_folder("ghost_dir"));
    assert_eq!(fs.get("ghost_dir", "a"), Some(&String::from("u")));
    assert_eq!(fs.list_folder("ghost_dir"), vec![String::from("a")]);
    assert!(fs.is_empty());
}

#[test]
fn remove_entry_returns_value_once() {
    let mut fs = FolderSet::new();
    fs.add_folder("f");
    let _ = fs.set_in_folder("f", "a", "u1");
    let _ = fs.set_in_folder("f", "b", "u2");
    assert_eq!(fs.remove_entry("f", "a"), Some(String::from("u1")));
    assert_eq!(fs.remove_entry("f", "a"), None);
    assert_eq!(fs.get("f", "a"), None);
    assert_eq!(fs.get("f", "b"), Some(&String::from("u2")));
    assert_eq!(fs.remove_entry("f", "b"), Some(String::from("u2")));
    assert_eq!(fs.list_folder("f"), Vec::<String>::new());
    assert!(fs.contains_folder("f"));
}

#[test]
fn remove_entry_in_missing_folder_is_absent() {
    let mut fs = FolderSet::new();
    assert_eq!(fs.remove_entry("f", "a"), None);
}

#[test]
fn is_empty_tracks_registered_folders() {
    let mut fs = FolderSet::new();
    assert!(fs.is_empty());
    fs.add_folder("f");
    assert!(!fs.is_empty());
    assert!(fs.remove_folder("f"));
    assert!(fs.is_empty());
}

#[test]
fn folder_names_lists_registrations_only() {
    let mut fs = FolderSet::new();
    fs.add_folder("b");
    fs.add_folder("a");
    fs.add_folder("a");
    let _ = fs.set_in_folder("unregistered", "k", "v");
    let mut names = fs.folder_names();
    names.sort();
    assert_eq!(names, vec![String::from("a"), String::from("b")]);
}

#[test]
fn remove_folder_reports_registration() {
    let mut fs = FolderSet::new();
    fs.add_folder("f");
    assert!(fs.remove_folder("f"));
    assert!(!fs.remove_folder("f"));
    let _ = fs.set_in_folder("g", "a", "u");
    assert!(!fs.remove_folder("g"));
    assert_eq!(fs.get("g", "a"), None);
}
