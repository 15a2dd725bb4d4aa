use urlstore::store::FolderSet;

#[test]
fn test_from_str_folder() {
    let mut fs = FolderSet::new();
    fs.add_folder("bonjour");
    let _ = fs.set_in_folder("bonjour", "var1", "url1");
    let _ = fs.set_in_folder("bonjour", "var2", "url2");
    fs.add_folder("caca");
    let _ = fs.set_in_folder("caca", "varname1", "urlname1");
    let s = fs.serialize();
    println!("s: `{}`", s);
    match FolderSet::parse(s.as_str()) {
        Ok(f2) => println!("caca-> \n{} ", f2.serialize()),
        Err(why) => println!("Got an error, {}", why.cause),
    }
}

#[test]
fn serialize_writes_the_documented_format() {
    let mut fs = FolderSet::new();
    fs.add_folder("bonjour");
    let _ = fs.set_in_folder("bonjour", "var1", "url1");
    assert_eq!(fs.serialize(), "F\tbonjour\nE\tbonjour\tvar1\turl1\n");
}

#[test]
fn serialize_then_parse_rebuilds_the_store() {
    let mut fs = FolderSet::new();
    fs.add_folder("bonjour");
    let _ = fs.set_in_folder("bonjour", "var1", "url1");
    let _ = fs.set_in_folder("bonjour", "var2", "url2");
    fs.add_folder("caca");
    let _ = fs.set_in_folder("caca", "varname1", "urlname1");
    let text = fs.serialize();
    let back = FolderSet::parse(text.as_str()).expect("serialized text must parse");
    assert_eq!(back.get("bonjour", "var1"), Some(&String::from("url1")));
    assert_eq!(back.get("caca", "varname1"), Some(&String::from("urlname1")));
    let mut names = back.list_folder("bonjour");
    names.sort();
    assert_eq!(names, vec![String::from("var1"), String::from("var2")]);
    assert!(back.contains_folder("bonjour"));
    assert!(back.contains_folder("caca"));
    assert_eq!(back.serialize(), text);
}

#[test]
fn round_trip_keeps_unregistered_entries_and_empty_folders() {
    let mut fs = FolderSet::new();
    fs.add_folder("registered_but_empty");
    let _ = fs.set_in_folder("never_registered", "a", "u");
    let back = FolderSet::parse(fs.serialize().as_str()).expect("must parse");
    assert!(back.contains_folder("registered_but_empty"));
    assert_eq!(back.list_folder("registered_but_empty"), Vec::<String>::new());
    assert!(!back.contains_folder("never_registered"));
    assert_eq!(back.get("never_registered", "a"), Some(&String::from("u")));
}

#[test]
fn round_trip_keeps_empty_names_and_values() {
    let mut fs = FolderSet::new();
    fs.add_folder("");
    let _ = fs.set_in_folder("", "", "");
    let back = FolderSet::parse(fs.serialize().as_str()).expect("must parse");
    assert!(back.contains_folder(""));
    assert_eq!(back.get("", ""), Some(&String::from("")));
    assert_eq!(back.list_folder(""), vec![String::from("")]);
}

#[test]
fn empty_text_parses_to_the_empty_store() {
    let fs = FolderSet::parse("").expect("empty text is valid");
    assert!(fs.is_empty());
    assert_eq!(fs.serialize(), "");
}

#[test]
fn parse_accepts_entries_without_registration() {
    let fs = FolderSet::parse("E\tf\ta\tu\n").expect("must parse");
    assert!(!fs.contains_folder("f"));
    assert_eq!(fs.get("f", "a"), Some(&String::from("u")));
    assert_eq!(fs.list_folder("f"), vec![String::from("a")]);
}

#[test]
fn parse_rejects_an_unterminated_line() {
    let err = FolderSet::parse("F\tbonjour").expect_err("must be rejected");
    assert_eq!(err.line, 1);
    assert!(!err.cause.is_empty());
}

#[test]
fn parse_rejects_an_unknown_tag() {
    let err = FolderSet::parse("F\tok\nX\tbad\n").expect_err("must be rejected");
    assert_eq!(err.line, 2);
    assert!(!err.cause.is_empty());
}

#[test]
fn parse_rejects_wrong_field_counts() {
    assert!(FolderSet::parse("E\tf\ta\n").is_err());
    assert!(FolderSet::parse("E\tf\ta\tu\textra\n").is_err());
    assert!(FolderSet::parse("F\ta\tb\n").is_err());
    assert!(FolderSet::parse("\n").is_err());
    assert!(FolderSet::parse("F\n").is_err());
}

#[test]
fn parse_replays_lines_in_order() {
    let fs = FolderSet::parse("E\tf\ta\tu1\nE\tf\ta\tu2\nF\tf\n").expect("must parse");
    assert!(fs.contains_folder("f"));
    assert_eq!(fs.get("f", "a"), Some(&String::from("u2")));
}
