use trojan_ui::paths::{
    file_extension_of, find_process, find_process_candidates, get_files, join_path,
    split_search_path,
};

fn strings(v: &[&str]) -> Vec<String> {
    v.iter().map(|s| s.to_string()).collect()
}

#[test]
fn split_keeps_empty_entries() {
    assert_eq!(split_search_path("/usr/bin:/bin"), strings(&["/usr/bin", "/bin"]));
    assert_eq!(split_search_path("a::b:"), strings(&["a", "", "b", ""]));
    assert_eq!(split_search_path(""), strings(&[""]));
}

#[test]
fn split_then_join_gives_back_value() {
    // law: joining the entries with ':' gives back the value
    for value in ["/usr/bin:/bin", "a::b:", "", ":", "no-colon"] {
        assert_eq!(split_search_path(value).join(":"), value);
    }
}

#[test]
fn join_like_a_path() {
    assert_eq!(join_path("/usr/bin", "trojan"), "/usr/bin/trojan");
    assert_eq!(join_path("/usr/bin/", "trojan"), "/usr/bin/trojan");
    assert_eq!(join_path("", "trojan"), "trojan");
    assert_eq!(join_path("/usr/bin", "/opt/trojan"), "/opt/trojan");
    for (d, n) in [("/usr/bin", "trojan"), ("a/", "b"), ("", "x"), ("/a", "/b"), ("a", "")] {
        let mut p = std::path::PathBuf::from(d);
        p.push(n);
        assert_eq!(join_path(d, n), p.to_str().unwrap());
    }
}

#[test]
fn candidates_in_order() {
    assert_eq!(
        find_process_candidates("trojan", Some("/home/u"), Some("/opt/app"), Some("/usr/bin:/bin")),
        strings(&["/opt/app/trojan", "/usr/bin/trojan", "/bin/trojan"])
    );
    assert_eq!(find_process_candidates("trojan", None, None, None), Vec::<String>::new());
}

#[test]
fn empty_and_relative_entries_use_working_directory() {
    assert_eq!(
        find_process_candidates("trojan", Some("/home/u"), None, Some("")),
        strings(&["/home/u/trojan"])
    );
    assert_eq!(
        find_process_candidates("trojan", Some("/home/u/"), Some("app"), Some("bin::/bin")),
        strings(&["/home/u/app/trojan", "/home/u/bin/trojan", "/home/u/trojan", "/bin/trojan"])
    );
    // without a known working directory, relative entries stay relative
    assert_eq!(
        find_process_candidates("trojan", None, None, Some("bin::/bin")),
        strings(&["bin/trojan", "trojan", "/bin/trojan"])
    );
}

#[test]
fn found_path_is_absolute() {
    // law: whatever the search path holds, a found executable is absolute
    // and names the program
    for path_var in ["", "bin", ":x:/usr/bin:", "/a/:b/c"] {
        let c = find_process_candidates("prog", Some("/w"), None, Some(path_var));
        for k in 0..c.len() {
            let mut flags = vec![false; c.len()];
            flags[k] = true;
            let found = find_process(&c, &flags);
            assert!(std::path::Path::new(&found).is_absolute());
            assert!(found.ends_with("/prog"));
        }
    }
}

#[test]
fn first_existing_candidate() {
    let c = strings(&["/opt/app/trojan", "/usr/bin/trojan", "/bin/trojan"]);
    assert_eq!(find_process(&c, &vec![false, true, true]), "/usr/bin/trojan");
    assert_eq!(find_process(&c, &vec![true, false, true]), "/opt/app/trojan");
    assert_eq!(find_process(&c, &vec![false, false, false]), "");
    assert_eq!(find_process(&vec![], &vec![]), "");
}

#[test]
fn extensions() {
    assert_eq!(file_extension_of("a.json"), Some("json".to_string()));
    assert_eq!(file_extension_of("a.tar.gz"), Some("gz".to_string()));
    assert_eq!(file_extension_of("a."), Some("".to_string()));
    assert_eq!(file_extension_of(".bashrc"), None);
    assert_eq!(file_extension_of("noext"), None);
    assert_eq!(file_extension_of(".."), None);
    assert_eq!(file_extension_of("..x"), Some("x".to_string()));
    for name in ["a.json", "a.tar.gz", "a.", ".bashrc", "noext", "..x", "x.y.", "..."] {
        let expected = std::path::Path::new(name)
            .extension()
            .map(|e| e.to_str().unwrap().to_string());
        assert_eq!(file_extension_of(name), expected, "on {}", name);
    }
}

#[test]
fn files_with_suffix() {
    let names = strings(&["a.json", "b.txt", ".json", "c.json", "d.json.bak", "dir.json"]);
    let is_file = vec![true, true, true, true, true, false];
    assert_eq!(get_files(&names, &is_file, "json"), strings(&["a.json", "c.json"]));
    assert_eq!(get_files(&names, &is_file, "md"), Vec::<String>::new());
}
