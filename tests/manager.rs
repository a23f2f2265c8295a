use sass_rocket_fairing::{
    compile_outcomes, settle_output_dir, ConfigError, Context, ContextManager, DirRole, EntryKind, SassBackend,
    SourceEntry,
};

fn backend() -> SassBackend {
    SassBackend::RSass(rsass::output::Format::default())
}

fn context(css_dir: &str) -> Context {
    Context { sass_dir: "/src".to_string(), css_dir: css_dir.to_string(), backend: backend() }
}

#[test]
fn from_normalized_accepts_both_dirs() {
    let r = Context::from_normalized(
        "static/sass",
        "static/css",
        Ok("/app/static/sass".to_string()),
        Ok("/app/static/css".to_string()),
        backend(),
    );
    let ctx = r.ok().unwrap();
    assert_eq!(ctx.sass_dir, "/app/static/sass");
    assert_eq!(ctx.css_dir, "/app/static/css");
}

#[test]
fn from_normalized_names_bad_sass_dir_first() {
    let r = Context::from_normalized(
        "nope",
        "also_nope",
        Err("not found".to_string()),
        Err("other".to_string()),
        backend(),
    );
    assert_eq!(
        r.err().unwrap(),
        ConfigError { role: DirRole::Sass, path: "nope".to_string(), cause: "not found".to_string() }
    );
}

#[test]
fn from_normalized_names_bad_css_dir() {
    let r = Context::from_normalized(
        "static/sass",
        "missing",
        Ok("/app/static/sass".to_string()),
        Err("denied".to_string()),
        backend(),
    );
    assert_eq!(
        r.err().unwrap(),
        ConfigError { role: DirRole::Css, path: "missing".to_string(), cause: "denied".to_string() }
    );
}

#[test]
fn initialize_fails_on_missing_source_dir() {
    let r = Context::initialize("/no/such/sass/dir/here", "/tmp", backend());
    let e = r.err().unwrap();
    assert_eq!(e.role, DirRole::Sass);
    assert_eq!(e.path, "/no/such/sass/dir/here");
    assert!(!e.cause.is_empty());
}

#[test]
fn initialize_fails_when_output_parent_is_missing() {
    let r = Context::initialize("/tmp", "/no/such/css/dir/here", backend());
    let e = r.err().unwrap();
    assert_eq!(e.role, DirRole::Css);
    assert_eq!(e.path, "/no/such/css/dir/here");
}

#[test]
fn initialize_accepts_output_dir_not_yet_made() {
    let r = Context::initialize("/tmp/..", "/tmp/../tmp/sass_output_not_made_yet_7", backend());
    let ctx = r.ok().unwrap();
    assert_eq!(ctx.sass_dir, "/");
    assert!(ctx.css_dir.starts_with('/'));
    assert!(ctx.css_dir.ends_with("/sass_output_not_made_yet_7"));
    assert!(!ctx.css_dir.contains(".."));
}

#[test]
fn initialize_rejects_empty_dirs() {
    assert_eq!(Context::initialize("", "/tmp", backend()).err().unwrap().role, DirRole::Sass);
    assert_eq!(Context::initialize("/tmp", "", backend()).err().unwrap().role, DirRole::Css);
}

#[test]
fn settle_output_dir_prefers_direct_result() {
    let r = settle_output_dir("out", Ok("/app/out".to_string()), Err("x".to_string()));
    assert_eq!(r, Ok("/app/out".to_string()));
}

#[test]
fn settle_output_dir_joins_missing_dir_onto_parent() {
    let r = settle_output_dir("static/css/", Err("missing".to_string()), Ok("/app/static".to_string()));
    assert_eq!(r, Ok("/app/static/css".to_string()));
}

#[test]
fn settle_output_dir_keeps_direct_error() {
    let r = settle_output_dir("static/css", Err("missing".to_string()), Err("gone".to_string()));
    assert_eq!(r, Err("missing".to_string()));
    let r = settle_output_dir("static/..", Err("missing".to_string()), Ok("/app".to_string()));
    assert_eq!(r, Err("missing".to_string()));
}

#[test]
fn initialize_normalizes_both_dirs() {
    let r = Context::initialize("/tmp/..", "/tmp/../tmp", backend());
    let ctx = r.ok().unwrap();
    assert_eq!(ctx.sass_dir, "/");
    assert!(ctx.css_dir.starts_with('/'));
    assert!(!ctx.css_dir.contains(".."));
}

#[test]
fn unwatched_manager_never_reloads() {
    let m = ContextManager::new(context("/out"), false);
    assert!(!m.is_reloading());
    assert!(!m.reload_if_needed(0));
    assert!(!m.reload_if_needed(1));
    assert!(!m.reload_if_needed(usize::MAX));
}

#[test]
fn watched_manager_reloads_on_pending_events() {
    let m = ContextManager::new(context("/out"), true);
    assert!(m.is_reloading());
    assert!(!m.reload_if_needed(0));
    assert!(m.reload_if_needed(1));
    assert!(m.reload_if_needed(7));
}

#[test]
fn replacing_context_keeps_watch_state() {
    let mut m = ContextManager::new(context("/out"), true);
    m.context_mut(context("/elsewhere"));
    assert_eq!(m.context().css_dir, "/elsewhere");
    assert!(m.is_reloading());
}

fn source(path: &str, name: &str) -> SourceEntry {
    SourceEntry { path: path.to_string(), name: Some(name.to_string()), kind: EntryKind::File }
}

fn fake_compiler(path: String) -> Result<String, String> {
    if path.ends_with("broken.scss") {
        Err(format!("syntax error in {}", path))
    } else {
        Ok(format!("/* {} */", path))
    }
}

#[test]
fn compile_all_hands_each_path_to_compiler() {
    let m = ContextManager::new(context("/out"), false);
    let entries = vec![source("/src/a.scss", "a.scss"), source("/src/b.scss", "b.scss")];
    let pass = m.compile_all(&entries, fake_compiler);
    assert_eq!(pass.assets().len(), 2);
    assert_eq!(pass.assets()[0].css, "/* /src/a.scss */");
    assert_eq!(pass.assets()[1].css, "/* /src/b.scss */");
}

#[test]
fn compile_all_keeps_main_walked_before_broken() {
    let m = ContextManager::new(context("/out"), false);
    let entries = vec![source("/src/main.scss", "main.scss"), source("/src/broken.scss", "broken.scss")];
    let (pass, files) = m.compile_all_and_write(&entries, fake_compiler);
    assert_eq!(pass.failure().as_ref().unwrap().file_name, "broken.scss");
    assert_eq!(pass.failure().as_ref().unwrap().diagnostic, "syntax error in /src/broken.scss");
    assert_eq!(files.len(), 1);
    assert_eq!(files[0].path, "/out/main.css");
    assert_eq!(files[0].contents, "/* /src/main.scss */");
}

#[test]
fn compile_all_stops_before_main_walked_after_broken() {
    let m = ContextManager::new(context("/out"), false);
    let entries = vec![source("/src/broken.scss", "broken.scss"), source("/src/main.scss", "main.scss")];
    let calls = std::cell::Cell::new(0usize);
    let (pass, files) = m.compile_all_and_write(&entries, |p: String| {
        calls.set(calls.get() + 1);
        fake_compiler(p)
    });
    assert_eq!(calls.get(), 1);
    assert!(pass.assets().is_empty());
    assert!(files.is_empty());
}

#[test]
fn compile_all_shared_base_name_last_wins() {
    let m = ContextManager::new(context("/out"), false);
    let entries = vec![source("/src/a/x.scss", "x.scss"), source("/src/b/x.scss", "x.scss")];
    let (pass, files) = m.compile_all_and_write(&entries, fake_compiler);
    assert_eq!(pass.assets().len(), 1);
    assert_eq!(pass.assets()[0].name, "x.scss");
    assert_eq!(files.len(), 1);
    assert_eq!(files[0].path, "/out/x.css");
    assert_eq!(files[0].contents, "/* /src/b/x.scss */");
}

#[test]
fn compile_all_of_empty_walk_writes_nothing() {
    let m = ContextManager::new(context("/out"), true);
    let (pass, files) = m.compile_all_and_write(&vec![], fake_compiler);
    assert!(pass.assets().is_empty());
    assert!(pass.failure().is_none());
    assert!(files.is_empty());
}

#[test]
fn compile_all_stops_at_unreadable_source() {
    let m = ContextManager::new(context("/out"), false);
    let entries = vec![
        SourceEntry {
            path: "/no/such/dir".to_string(),
            name: Some("dir".to_string()),
            kind: EntryKind::Directory,
        },
        source("/no/such/dir/a.scss", "a.scss"),
        source("/no/such/dir/b.scss", "b.scss"),
    ];
    let pass = m.compile_all(&entries, |p: String| {
        if p.ends_with("a.scss") { Err("cannot read".to_string()) } else { Ok(String::new()) }
    });
    assert!(pass.assets().is_empty());
    assert_eq!(pass.failure().as_ref().unwrap().file_name, "a.scss");
    assert!(m.write_compiled(&pass).is_empty());
}

#[test]
fn change_while_live_rewrites_every_output() {
    let m = ContextManager::new(context("/out"), true);
    let entries = vec![
        SourceEntry {
            path: "/src/a.scss".to_string(),
            name: Some("a.scss".to_string()),
            kind: EntryKind::File,
        },
        SourceEntry {
            path: "/src/b.scss".to_string(),
            name: Some("b.scss".to_string()),
            kind: EntryKind::File,
        },
    ];
    let before = compile_outcomes(&entries, &vec![Ok("a{b:c}".to_string()), Ok("p{q:r}".to_string())]);
    assert_eq!(m.write_compiled(&before).len(), 2);
    assert!(m.reload_if_needed(1));
    let after = compile_outcomes(&entries, &vec![Ok("a{b:d}".to_string()), Ok("p{q:r}".to_string())]);
    let files = m.write_compiled(&after);
    assert_eq!(files.len(), 2);
    assert_eq!(files[0].path, "/out/a.css");
    assert_eq!(files[0].contents, "a{b:d}");
    assert_eq!(files[1].path, "/out/b.css");
    assert_eq!(files[1].contents, "p{q:r}");
}
