use rig::arrange;
use rig::config::{decimal_text, decode_flat, decode_structured, ConfigError, ConfigValue};
use rig::project::{Configuration, Project, RenameTable, TreeEntry};
use rig::template::Params;

const G8_PROPS: &str = r#"
        name = value1
        bar = baz!
        package = com.example.me
    "#;

const TOML: &str = r#"
        name = "My Project"
        package = "deep.pkg.path"
        will_be_ignored = [4, 5, 6, 7]
        module_name = "quux"
    "#;

/// The entries that a depth-first walk of a tree holding `dirs` (each with
/// its parents) and `files` yields, parents first, the root included.
fn tree(dirs: &[&str], files: &[&str]) -> Vec<TreeEntry> {
    let mut seen: Vec<Vec<String>> = Vec::new();
    let mut out = vec![TreeEntry { segments: Vec::new(), is_dir: true }];
    for d in dirs {
        let parts: Vec<String> = d.split('/').map(|s| s.to_string()).collect();
        for n in 1..=parts.len() {
            let prefix = parts[..n].to_vec();
            if !seen.contains(&prefix) {
                seen.push(prefix.clone());
                out.push(TreeEntry { segments: prefix, is_dir: true });
            }
        }
    }
    for f in files {
        let parts: Vec<String> = f.split('/').map(|s| s.to_string()).collect();
        out.push(TreeEntry { segments: parts, is_dir: false });
    }
    out
}

/// The paths that generating `entries` creates, intermediate directories
/// included.
fn generated(project: &Project, params: &Params, entries: &[TreeEntry]) -> Vec<String> {
    let entries: Vec<TreeEntry> = entries
        .iter()
        .map(|e| TreeEntry { segments: e.segments.clone(), is_dir: e.is_dir })
        .collect();
    let mut paths = Vec::new();
    for placement in project.plan_tree(&entries, params) {
        let full = placement.dest.join("/");
        let parts: Vec<&str> = full.split('/').collect();
        for n in 1..=parts.len() {
            let p = parts[..n].join("/");
            if !paths.contains(&p) {
                paths.push(p);
            }
        }
    }
    paths
}

/// The entries below `inner` of a tree, with paths taken relative to it.
fn below(entries: Vec<TreeEntry>, inner: &[&str]) -> Vec<TreeEntry> {
    entries
        .into_iter()
        .filter(|e| e.segments.len() >= inner.len() && e.segments[..inner.len()].iter().zip(inner).all(|(a, b)| a == b))
        .map(|e| TreeEntry { segments: e.segments[inner.len()..].to_vec(), is_dir: e.is_dir })
        .collect()
}

#[test]
fn simple_project() {
    let rust_dirs = vec!["src/sample", "src/sample/$package$", "ci"];
    let entries = tree(&rust_dirs, &["Rig.toml"]);

    let project = Project::new(None, Configuration::Toml, false);
    let params = project.default_params(Some(TOML.as_bytes())).ok().unwrap();
    assert_eq!(params.get("name"), Some(&"My Project".to_owned()));
    assert_eq!(params.get("module_name"), Some(&"quux".to_owned()));
    assert!(params.get("will_be_ignored").is_none());

    let made = generated(&project, &params, &entries);

    let expected = vec!["ci", "src/sample", "src/sample/deep.pkg.path"];
    for goal in &expected {
        assert!(made.contains(&goal.to_string()));
    }
    assert!(!made.contains(&"Rig.toml".to_string()));
}

#[test]
fn giter8_project() {
    let g8_dirs = vec!["src/main/g8", "src/main/g8/project", "src/main/g8/src/main/scala/$package$"];
    let all = tree(&g8_dirs, &["src/main/g8/default.properties"]);

    let project = Project::new_g8(Some("src/main/g8"));
    assert_eq!(project.resolve_root_dir("/clone", true), "/clone/src/main/g8");
    let entries = below(all, &["src", "main", "g8"]);

    let params = project.default_params(Some(G8_PROPS.as_bytes())).ok().unwrap();
    assert_eq!(params.get("name"), Some(&"value1".to_owned()));

    let made = generated(&project, &params, &entries);

    let expected = vec![
        "project",
        "src/main/scala/com",
        "src/main/scala/com/example",
        "src/main/scala/com/example/me",
    ];
    for goal in &expected {
        assert!(made.contains(&goal.to_string()));
    }
    assert!(!made.contains(&"default.properties".to_string()));
}

fn segs(p: &[&str]) -> Vec<String> {
    p.iter().map(|s| s.to_string()).collect()
}

#[test]
fn package_rename_reaches_children() {
    let project = Project::new(None, Configuration::Toml, true);
    let mut params = Params::new();
    params.insert("package".to_string(), "x.y".to_string());
    let mut table = RenameTable::new();
    let dir = project.resolve_dirname(&segs(&["a", "$package$"]), &mut table, &params);
    assert_eq!(dir, segs(&["a", "x/y"]));
    let file = project.resolve_dirname(&segs(&["a", "$package$", "file.txt"]), &mut table, &params);
    assert_eq!(file, segs(&["a", "x/y", "file.txt"]));
    assert_eq!(dir.join("/"), "a/x/y");
    assert_eq!(file.join("/"), "a/x/y/file.txt");
}

#[test]
fn package_without_force_stays_dotted() {
    let project = Project::new(None, Configuration::Toml, false);
    let mut params = Params::new();
    params.insert("package".to_string(), "x.y".to_string());
    let mut table = RenameTable::new();
    let dir = project.resolve_dirname(&segs(&["$package$"]), &mut table, &params);
    assert_eq!(dir, segs(&["x.y"]));
    assert_eq!(table.lookup("$package$"), "x.y");
    assert_eq!(table.lookup("other"), "other");
}

#[test]
fn path_style_name_with_transforms() {
    let project = Project::new(None, Configuration::Toml, false);
    let mut params = Params::new();
    params.insert("twitter_id".to_string(), "bar3s%Ye".to_string());
    let mut table = RenameTable::new();
    let dir = project.resolve_dirname(&segs(&["$twitter_id__word_cap$"]), &mut table, &params);
    assert_eq!(dir, segs(&["Bar3sye"]));
}

#[test]
fn walk_skips_root_config_and_git() {
    let project = Project::new(None, Configuration::Toml, false);
    assert!(project.skips(&segs(&[]), true));
    assert!(project.skips(&segs(&["Rig.toml"]), false));
    assert!(!project.skips(&segs(&["sub", "Rig.toml"]), false));
    assert!(project.skips(&segs(&[".git"]), true));
    assert!(!project.skips(&segs(&[".git"]), false));
    assert!(project.skips(&segs(&[".git", "HEAD"]), false));
    assert!(project.skips(&segs(&["a", ".git", "objects"]), true));
    assert!(!project.skips(&segs(&["a", "b.git"]), true));
    let g8 = Project::new_g8(None);
    assert!(g8.skips(&segs(&["default.properties"]), false));
    assert!(!g8.skips(&segs(&["Rig.toml"]), false));
}

#[test]
fn plan_tree_places_entries_in_order() {
    let project = Project::new(None, Configuration::Toml, true);
    let mut params = Params::new();
    params.insert("package".to_string(), "com.acme".to_string());
    params.insert("name".to_string(), "demo".to_string());
    let entries = vec![
        TreeEntry { segments: segs(&[]), is_dir: true },
        TreeEntry { segments: segs(&["Rig.toml"]), is_dir: false },
        TreeEntry { segments: segs(&[".git"]), is_dir: true },
        TreeEntry { segments: segs(&[".git", "config"]), is_dir: false },
        TreeEntry { segments: segs(&["$package$"]), is_dir: true },
        TreeEntry { segments: segs(&["$package$", "$name$.rs"]), is_dir: false },
    ];
    let plan = project.plan_tree(&entries, &params);
    assert_eq!(plan.len(), 2);
    assert_eq!(plan[0].entry, 4);
    assert_eq!(plan[0].dest, segs(&["com/acme"]));
    assert!(plan[0].is_dir);
    assert_eq!(plan[1].entry, 5);
    assert_eq!(plan[1].dest, segs(&["com/acme", "demo.rs"]));
    assert!(!plan[1].is_dir);
}

#[test]
fn root_dir_resolution() {
    let project = Project::new(Some("src/main/g8"), Configuration::JavaProps, false);
    assert_eq!(project.resolve_root_dir("/tmp/clone", true), "/tmp/clone/src/main/g8");
    assert_eq!(project.resolve_root_dir("/tmp/clone/", true), "/tmp/clone/src/main/g8");
    assert_eq!(project.resolve_root_dir("/tmp/clone", false), "/tmp/clone");
    let mut plain = Project::new(None, Configuration::Toml, false);
    assert_eq!(plain.resolve_root_dir("/tmp/clone", true), "/tmp/clone");
    plain.set_root_dir("inner");
    assert_eq!(plain.resolve_root_dir("/tmp/clone", true), "/tmp/clone/inner");
}

#[test]
fn config_names() {
    assert_eq!(Project::new(None, Configuration::Toml, false).config_name(), "Rig.toml");
    assert_eq!(Project::new_g8(None).config_name(), "default.properties");
}

#[test]
fn default_params_errors() {
    let project = Project::new(None, Configuration::Toml, false);
    assert!(matches!(project.default_params(None), Err(ConfigError::IoFailure)));
    assert!(matches!(project.default_params(Some("= = =".as_bytes())), Err(ConfigError::ConfigDecodeFailure)));
    assert!(matches!(decode_structured("not toml ["), Err(ConfigError::ConfigDecodeFailure)));
    assert!(matches!(decode_flat("bad = \\uZZZZ".as_bytes()), Err(ConfigError::ConfigDecodeFailure)));
}

#[test]
fn defaults_need_utf8_toml_but_not_properties() {
    let toml = Project::new(None, Configuration::Toml, false);
    assert!(matches!(toml.default_params(Some(&[b'a', b'=', 0xff])), Err(ConfigError::ConfigDecodeFailure)));
    let props = Project::new_g8(None);
    let p = props.default_params(Some(&[b'k', b'=', 0xe9])).ok().unwrap();
    assert_eq!(p.get("k"), Some(&"\u{e9}".to_string()));
}

#[test]
fn toml_scalars_become_text() {
    let p = decode_structured("a = 1\nb = true\nc = -42\nd = \"s\"\ne = { x = 1 }\nf = 1.5")
        .ok()
        .unwrap();
    assert_eq!(p.get("a"), Some(&"1".to_string()));
    assert_eq!(p.get("b"), Some(&"true".to_string()));
    assert_eq!(p.get("c"), Some(&"-42".to_string()));
    assert_eq!(p.get("d"), Some(&"s".to_string()));
    assert_eq!(p.get("e"), None);
    assert_eq!(p.get("f"), Some(&"1.5".to_string()));
}

#[test]
fn convert_toml_keeps_scalars() {
    let entries = vec![
        ("t".to_string(), ConfigValue::Text("x".to_string())),
        ("i".to_string(), ConfigValue::Integer(7)),
        ("b".to_string(), ConfigValue::Boolean(false)),
        ("n".to_string(), ConfigValue::Nested),
        ("d".to_string(), ConfigValue::Datetime("1979-05-27".to_string())),
    ];
    let p = Params::convert_toml(&entries);
    assert_eq!(p.get("t"), Some(&"x".to_string()));
    assert_eq!(p.get("i"), Some(&"7".to_string()));
    assert_eq!(p.get("b"), Some(&"false".to_string()));
    assert_eq!(p.get("n"), None);
    assert_eq!(p.get("d"), Some(&"1979-05-27".to_string()));
}

#[test]
fn properties_decode() {
    let p = decode_flat(G8_PROPS.as_bytes()).ok().unwrap();
    assert_eq!(p.get("name"), Some(&"value1".to_string()));
    assert_eq!(p.get("bar"), Some(&"baz!".to_string()));
    assert_eq!(p.get("package"), Some(&"com.example.me".to_string()));
}

#[test]
fn decimal_text_edges() {
    assert_eq!(decimal_text(0), "0");
    assert_eq!(decimal_text(10), "10");
    assert_eq!(decimal_text(-7), "-7");
    assert_eq!(decimal_text(i64::MAX), i64::MAX.to_string());
    assert_eq!(decimal_text(i64::MIN), i64::MIN.to_string());
}

#[test]
fn arrange_alter_root() {
    let mut p = arrange::Project::default();
    assert_eq!(p.root_dir, ".");
    assert!(p.template_dir.is_none());
    assert_eq!(p.config_format, arrange::ConfigFormat::Toml);
    p.alter_root("src/main/g8");
    assert_eq!(p.template_dir.as_deref(), Some("src/main/g8"));
}
