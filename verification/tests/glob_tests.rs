use pathstr::glob;

#[test]
fn valid_is_globs() {
    assert_eq!(glob::is_glob("!foo.js", true), true);
    assert_eq!(glob::is_glob("*.js", true), true);
    assert_eq!(glob::is_glob("**/abc.js", true), true);
    assert_eq!(glob::is_glob("abc/*.js", true), true);
    assert_eq!(glob::is_glob("abc/(aaa|bbb).js", true), true);
    assert_eq!(glob::is_glob("abc/[a-z].js", true), true);
    assert_eq!(glob::is_glob("abc/{a,b}.js", true), true);
}

#[test]
fn invalid_is_globs() {
    assert_eq!(glob::is_glob("abc.js", true), false);
    assert_eq!(glob::is_glob("abc/def/ghi.js", true), false);
    assert_eq!(glob::is_glob("foo.js", true), false);
    assert_eq!(glob::is_glob("abc/@.js", true), false);
    assert_eq!(glob::is_glob("abc/+.js", true), false);
    assert_eq!(glob::is_glob("abc/?.js", true), false);
}

#[test]
fn strict_demands_a_closing_counterpart() {
    assert_eq!(glob::is_glob("abc/[a-z.js", true), false);
    assert_eq!(glob::is_glob("abc/[a-z.js", false), true);
    assert_eq!(glob::is_glob("abc/{a,b.js", true), false);
    assert_eq!(glob::is_glob("abc/(aaa.js", true), false);
    assert_eq!(glob::is_glob("abc/(?:aaa).js", true), true);
    assert_eq!(glob::is_glob("abc/(aaa).js", true), false);
}

#[test]
fn escapes_never_count_as_tokens() {
    assert_eq!(glob::is_glob("a\\*b", false), false);
    assert_eq!(glob::is_glob("a\\*b", true), false);
    assert_eq!(glob::is_glob("a\\[x\\]b", false), false);
    assert_eq!(glob::is_glob("a*\\b", false), true);
    assert_eq!(glob::is_glob("\\", false), false);
}

#[test]
fn plain_text_is_never_a_glob() {
    for pattern in ["abc", "a/b/c.js", "A-Z_0.9/x", "", "...", "a_b-c"] {
        assert_eq!(glob::is_glob(pattern, false), false);
        assert_eq!(glob::is_glob(pattern, true), false);
    }
}

#[test]
fn glob_parent_scenarios() {
    assert_eq!(glob::glob_parent("abc/*.js"), String::from("abc"));
    assert_eq!(glob::glob_parent("abc/{a,b}.js"), String::from("abc"));
    assert_eq!(glob::glob_parent("abc/[a-z].js"), String::from("abc"));
    assert_eq!(glob::glob_parent("a/b/c"), String::from("a/b"));
    assert_eq!(glob::glob_parent("{a,b/c}"), String::from("."));
    assert_eq!(glob::glob_parent("*.js"), String::from("."));
    assert_eq!(glob::glob_parent("/*.js"), String::from("//"));
}

#[test]
fn glob_parent_output_is_never_a_glob() {
    for pattern in [
        "abc/*.js",
        "a}b/c",
        "x/**/{a,b}/c?.js",
        "..//*",
        "(a|b)/c",
        "!neg/*.txt",
    ] {
        let out = glob::glob_parent(pattern);
        assert_eq!(glob::is_glob(&out, false), false);
    }
}

#[test]
fn glob_parent_never_ends_in_dot_dot() {
    let out = glob::glob_parent("../x/*.js");
    assert!(!out.ends_with(".."));
    assert_eq!(glob::glob_parent("a/../*.js"), String::from("a"));
}

#[test]
fn loose_parent_path_falls_back() {
    assert_eq!(glob::parent_path(""), String::from("."));
    assert_eq!(glob::parent_path("abc"), String::from("."));
    assert_eq!(glob::parent_path("/"), String::from("/"));
    assert_eq!(glob::parent_path("/a"), String::from("//"));
    assert_eq!(glob::parent_path("a/b/c"), String::from("a/b"));
    assert_eq!(glob::parent_path("a/b/"), String::from("a"));
    assert_eq!(glob::parent_path("//a"), String::from("/"));
}

#[test]
fn negation_scenarios() {
    assert_eq!(glob::is_negated_glob("!foo.js"), true);
    assert_eq!(glob::is_negated_glob("!(foo).js"), false);
    assert_eq!(glob::is_negated_glob("foo.js"), false);
    assert_eq!(glob::is_negated_glob("!"), true);
    let n = glob::Negation {
        negated: true,
        pattern: "foo.js",
        original: "!foo.js",
    };
    assert!(n.negated);
    assert_eq!(n.pattern, "foo.js");
    assert_eq!(n.original, "!foo.js");
}

#[test]
fn glob_join_and_to_absolute() {
    assert_eq!(glob::join("abc/", "*.js"), String::from("abc/*.js"));
    assert_eq!(glob::join("abc", "/*.js"), String::from("abc/*.js"));
    assert_eq!(glob::join("abc", "*.js"), String::from("abc/*.js"));
    assert_eq!(glob::to_absolute("/x/*.js", "/cwd"), String::from("/x/*.js"));
    assert_eq!(glob::to_absolute("*.js", "/cwd"), String::from("/cwd/*.js"));
    assert!(glob::is_absolute("/a"));
    assert!(!glob::is_absolute("a"));
}

#[test]
fn to_absolute_glob_normalises() {
    assert_eq!(
        glob::to_absolute_glob("./x/*.js", "/cwd"),
        String::from("/cwd/x/*.js")
    );
    assert_eq!(glob::to_absolute_glob(".", "/cwd"), String::from(""));
    assert_eq!(glob::to_absolute_glob("./.", "/cwd"), String::from(""));
    assert_eq!(
        glob::to_absolute_glob("/abs/*.js", "/cwd"),
        String::from("/abs/*.js")
    );
    assert_eq!(
        glob::to_absolute_glob("x", "/cwd"),
        String::from("/cwd/x")
    );
    assert_eq!(glob::to_absolute_glob("./", "/cwd"), String::from("/cwd"));
}
