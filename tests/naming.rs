use sass_rocket_fairing::{css_file_name, output_path, parent_and_name};

#[test]
fn css_name_replaces_extension() {
    assert_eq!(css_file_name("main.scss"), "main.css");
    assert_eq!(css_file_name("theme.sass"), "theme.css");
}

#[test]
fn css_name_keeps_inner_dots() {
    assert_eq!(css_file_name("a.b.scss"), "a.b.css");
}

#[test]
fn css_name_adds_missing_extension() {
    assert_eq!(css_file_name("plain"), "plain.css");
    assert_eq!(css_file_name("trailing."), "trailing.css");
}

#[test]
fn css_name_of_dotfile_keeps_whole_name() {
    assert_eq!(css_file_name(".hidden"), ".hidden.css");
}

#[test]
fn css_name_agrees_with_std_set_extension() {
    for name in ["x.scss", "a.b.c", "noext", ".dot", "end.", "é.scss"] {
        let mut p = std::path::PathBuf::new();
        p.push(name);
        p.set_extension("css");
        assert_eq!(css_file_name(name), p.to_str().unwrap());
    }
}

#[test]
fn output_path_adds_one_separator() {
    assert_eq!(output_path("/out", "a.css"), "/out/a.css");
    assert_eq!(output_path("/out/", "a.css"), "/out/a.css");
    assert_eq!(output_path("", "a.css"), "a.css");
}

#[test]
fn parent_and_name_splits_last_component() {
    let s = |a: &str, b: &str| Some((a.to_string(), b.to_string()));
    assert_eq!(parent_and_name("static/css"), s("static", "css"));
    assert_eq!(parent_and_name("static/css//"), s("static", "css"));
    assert_eq!(parent_and_name("css"), s(".", "css"));
    assert_eq!(parent_and_name("/css"), s("/", "css"));
    assert_eq!(parent_and_name("/a/b/c"), s("/a/b", "c"));
    assert_eq!(parent_and_name("a/.."), None);
    assert_eq!(parent_and_name("a/."), None);
    assert_eq!(parent_and_name("/"), None);
    assert_eq!(parent_and_name(""), None);
}
