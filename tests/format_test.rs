use rig::format::Formatter;

const W: &str = "Fabulous Is Rust";

#[test]
fn lower_case() {
    assert_eq!(rig::format::format(W, "lower".into()), "fabulous is rust");
}

#[test]
fn upper_case() {
    assert_eq!(rig::format::format(W, "upper".into()), "FABULOUS IS RUST");
}

#[test]
fn capitalize() {
    assert_eq!(rig::format::format(&W.to_lowercase(), "cap".into()), "Fabulous is rust");
}

#[test]
fn decapitalize() {
    assert_eq!(rig::format::format(W, "decap".into()), "fabulous Is Rust");
}

#[test]
fn start_case() {
    assert_eq!(rig::format::format(&W.to_lowercase(), "start".into()), W);
}

#[test]
fn word_only() {
    let includes_ctrls = "_!$what'is-this@charac#ters??";
    assert_eq!(rig::format::format(includes_ctrls, "word".into()), "_whatisthischaracters");
}

#[test]
fn hyphenate() {
    assert_eq!(rig::format::format(W, "hyphen".into()), "Fabulous-Is-Rust");
}

#[test]
fn upper_camel() {
    assert_eq!(rig::format::format(W, "Camel".into()), "FabulousIsRust");
}

#[test]
fn lower_camel() {
    assert_eq!(rig::format::format(W, "camel".into()), "fabulousIsRust");
}

#[test]
fn normalize() {
    assert_eq!(rig::format::format(W, "norm".into()), "fabulous-is-rust");
}

#[test]
fn snake_case() {
    assert_eq!(rig::format::format(W, "snake".into()), "Fabulous_Is_Rust");
}

#[test]
fn directory_path() {
    let p = "path.to.my.directory";
    assert_eq!(rig::format::format(p, "packaged".into()), "path/to/my/directory");
}

#[test]
fn add_random() {
    let len = W.len();
    let added = rig::format::format(W, "random".into());
    assert_eq!(added.len(), len + 33); // 32 random characters and a '-'
    for c in added[32..].chars() {
        assert!(c.is_alphanumeric() && c.is_ascii());
    }
}

#[test]
fn add_random_keeps_text_and_dash() {
    let added = rig::format::format(W, Formatter::AddRandom);
    assert!(added.starts_with("Fabulous Is Rust-"));
    assert!(added[W.len() + 1..].chars().all(|c| c.is_ascii_alphanumeric()));
}

#[test]
fn synonyms_and_unknown_names() {
    assert_eq!(Formatter::from("lowercase"), Formatter::LowerCase);
    assert_eq!(Formatter::from("hyphnate"), Formatter::Hyphenate);
    assert_eq!(Formatter::from("package-dir"), Formatter::DirectoryPath);
    assert_eq!(Formatter::from("generate-random"), Formatter::AddRandom);
    assert_eq!(Formatter::from("no-such-transform"), Formatter::Ident);
    assert_eq!(rig::format::format(W, Formatter::Ident), W);
}

#[test]
fn capitalize_and_decapitalize_empty() {
    assert_eq!(rig::format::format("", Formatter::Capitalize), "");
    assert_eq!(rig::format::format("", Formatter::Decapitalize), "");
}

#[test]
fn whitespace_runs_collapse() {
    assert_eq!(rig::format::format("  a \t b\n c  ", Formatter::Hyphenate), "a-b-c");
    assert_eq!(rig::format::format("  Big   Deal ", Formatter::Normalize), "big-deal");
    assert_eq!(rig::format::format("hello   wide world", Formatter::StartCase), "Hello Wide World");
}

#[test]
fn snake_case_turns_dots_and_dashes() {
    assert_eq!(rig::format::format("a..b--c d", Formatter::SnakeCase), "a_b_c_d");
}

#[test]
fn directory_path_collapses_dots() {
    assert_eq!(rig::format::format("com..example...me", Formatter::DirectoryPath), "com/example/me");
}

#[test]
fn camel_without_space_only_strips() {
    assert_eq!(rig::format::format("my-proj_Name", Formatter::UpperCamel), "myproj_Name");
    assert_eq!(rig::format::format("my-proj_Name", Formatter::LowerCamel), "myproj_Name");
    assert_eq!(rig::format::format("MY big-app", Formatter::LowerCamel), "myBigapp");
    assert_eq!(rig::format::format("   ", Formatter::UpperCamel), "");
}

#[test]
fn word_chars_drop_spaces() {
    assert_eq!(rig::format::format("a b-c", Formatter::WordChar), "abc");
}
