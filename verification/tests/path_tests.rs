use pathstr::extname;
use pathstr::filename;
use pathstr::join;
use pathstr::join_slice;
use pathstr::parent;
use pathstr::utils;
use pathstr::ErrorKind;

#[test]
fn lib_join_test() {
    let path = "/test";
    assert_eq!(
        join(path, "test/me.txt").unwrap(),
        String::from("/test/test/me.txt")
    );

    assert_eq!(join(path, "../me.txt").unwrap(), String::from("/me.txt"));
    assert_eq!(join(path, ".").unwrap(), String::from("/test"));
    assert_eq!(join(path, "..").unwrap(), String::from("/"));
    assert_eq!(join(path, "../../me.txt").is_err(), true);
}

#[test]
fn lib_extname_test() {
    assert_eq!(extname("test.exe"), Some(String::from("exe")));
    assert_eq!(extname("yggdrasil/test.exe"), Some(String::from("exe")));
    assert_eq!(extname("yggdrasil/test"), None);
    assert_eq!(extname("."), None);
    assert_eq!(extname(".."), None);
}

#[test]
fn lib_parent_test() {
    assert_eq!(parent("test.exe"), Some(String::from("")));
    assert_eq!(
        parent("yggdrasil/test.exe"),
        Some(String::from("yggdrasil/"))
    );
    assert_eq!(
        parent("yggdrasil/test/visse"),
        Some(String::from("yggdrasil/test/"))
    );
    assert_eq!(parent("."), None);
    assert_eq!(parent(".."), None);
}

#[test]
fn lib_filename_test() {
    assert_eq!(filename("test.exe"), Some(String::from("test.exe")));
    assert_eq!(
        filename("yggdrasil/test.exe"),
        Some(String::from("test.exe"))
    );
    assert_eq!(
        filename("yggdrasil/test/visse"),
        Some(String::from("visse"))
    );
    assert_eq!(filename("."), None);
    assert_eq!(filename(".."), None);
}

#[test]
fn utils_join_test() {
    let path = "/test";
    assert_eq!(
        utils::resolve(path, "test/me.txt").expect("join"),
        String::from("/test/test/me.txt")
    );

    assert_eq!(
        utils::resolve(path, "../me.txt").expect("parent"),
        String::from("/me.txt")
    );
    assert_eq!(
        utils::resolve(path, ".").expect("this"),
        String::from("/test")
    );
    assert_eq!(
        utils::resolve(path, "..").expect("parent"),
        String::from("/")
    );
    assert!(utils::resolve(path, "../../me.txt").is_err());
}

#[test]
fn utils_extname_test() {
    assert_eq!(utils::extname("test.exe"), Some(".exe"));
    assert_eq!(utils::extname("yggdrasil/test.exe"), Some(".exe"));
    assert_eq!(utils::extname("yggdrasil/test"), None);
    assert_eq!(utils::extname("yggdrasil/.test"), None);
    assert_eq!(utils::extname(".yggdrasil/test"), None);
    assert_eq!(utils::extname("./yggdrasil/test"), None);
    assert_eq!(utils::extname("."), None);
    assert_eq!(utils::extname(".."), None);
}

#[test]
fn setextname_test() {
    assert_eq!(utils::set_extname("test", "exe"), String::from("test.exe"));
    assert_eq!(
        utils::set_extname("yggdrasil/test.exe", "txt"),
        String::from("yggdrasil/test.txt")
    );
    assert_eq!(
        utils::set_extname("yggdrasil/test", ".md"),
        String::from("yggdrasil/test.md")
    );
}

#[test]
fn utils_parent_test() {
    assert_eq!(utils::parent_path("test.exe"), Some(""));
    assert_eq!(utils::parent_path("yggdrasil/test.exe"), Some("yggdrasil/"));
    assert_eq!(
        utils::parent_path("yggdrasil/test/visse"),
        Some("yggdrasil/test/")
    );
    assert_eq!(utils::parent_path("."), None);
    assert_eq!(utils::parent_path(".."), None);
}

#[test]
fn test_resolve() {
    assert_eq!(utils::resolve("/test", "../").unwrap().as_str(), "/");
    assert_eq!(
        utils::resolve("/test/rapper", "../").unwrap().as_str(),
        "/test/"
    );
    assert_eq!(
        utils::resolve("/test/rapper", "../../").unwrap().as_str(),
        "/"
    );
    assert!(utils::resolve("/test", "../../").is_err())
}

#[test]
fn utils_filename_test() {
    assert_eq!(utils::filename("test.exe"), Some("test.exe"));
    assert_eq!(utils::filename("yggdrasil/test.exe"), Some("test.exe"));
    assert_eq!(utils::filename("yggdrasil/test/visse"), Some("visse"));
    assert_eq!(utils::filename("yggdrasil/test/visse/"), None);
    assert_eq!(utils::filename("."), None);
    assert_eq!(utils::filename(".."), None);
}

#[test]
fn set_filename_test() {
    assert_eq!(utils::set_filename("test/", "test.exe"), "test/test.exe");
    assert_eq!(utils::set_filename("test", "test.exe"), "test.exe");
    assert_eq!(utils::set_filename("test/free", "test.exe"), "test/test.exe");
    assert_eq!(
        utils::set_filename("test/free/", "test.exe"),
        "test/free/test.exe"
    );

    assert_eq!(utils::set_filename("", "test.exe"), "test.exe");
}

#[test]
fn resolve_dot_twice_equals_once() {
    let once = utils::resolve("/some/root", ".").unwrap();
    let twice = utils::resolve(&once, ".").unwrap();
    assert_eq!(twice, once);
    assert_eq!(once, String::from("/some/root"));
}

#[test]
fn resolve_exhausts_ancestors_exactly() {
    assert!(utils::resolve("/a", "../../x").is_err());
    assert_eq!(utils::resolve("/a", "../x").unwrap(), String::from("/x"));
    assert_eq!(
        utils::resolve("/a/b", "../../x").unwrap(),
        String::from("/x")
    );
    assert_eq!(
        utils::resolve("/a/b", "../x").unwrap(),
        String::from("/a/x")
    );
    let step1 = utils::resolve("/a/b", "..").unwrap();
    assert_eq!(step1, String::from("/a/"));
    let step2 = utils::resolve(&step1, "..").unwrap();
    assert_eq!(step2, String::from("/"));
    assert!(utils::resolve(&step2, "..").is_err());
}

#[test]
fn resolve_error_kind_is_unknown() {
    let err = utils::resolve("/test", "../../me.txt").unwrap_err();
    assert_eq!(err.kind(), &ErrorKind::Unknown);
    let err = utils::resolve(".", "..").unwrap_err();
    assert_eq!(err.kind(), &ErrorKind::Unknown);
}

#[test]
fn join_keeps_single_separator() {
    assert_eq!(utils::join("a/", "b"), String::from("a/b"));
    assert_eq!(utils::join("a", "/b"), String::from("a/b"));
    assert_eq!(utils::join("a", "b"), String::from("a/b"));
    assert_eq!(utils::join("a/", "/b"), String::from("a/b"));
    assert_eq!(utils::join("/", "b"), String::from("/b"));
    assert_eq!(utils::join("", "b"), String::from("b"));
    assert_eq!(utils::join("a", ""), String::from("a"));
    assert!(!utils::join("x/y/", "z").contains("//"));
    assert!(!utils::join("x/y", "/z").contains("//"));
}

#[test]
fn join_slice_folds_resolution() {
    let cmps = vec![String::from("b"), String::from("../c")];
    assert_eq!(join_slice("/a", &cmps).unwrap(), String::from("/a/c"));
    let escaping = vec![String::from(".."), String::from("..")];
    assert!(join_slice("/a", &escaping).is_err());
    let none: Vec<String> = vec![];
    assert_eq!(join_slice("/a", &none).unwrap(), String::from("/a"));
}

#[test]
fn to_absolute_keeps_absolute_and_resolves_relative() {
    assert_eq!(
        utils::to_absolute("/already", "/cwd").unwrap(),
        String::from("/already")
    );
    assert_eq!(
        utils::to_absolute("x/y", "/cwd").unwrap(),
        String::from("/cwd/x/y")
    );
    assert_eq!(
        utils::to_absolute("../x", "/cwd/deep").unwrap(),
        String::from("/cwd/x")
    );
    assert!(utils::is_absolute("/a"));
    assert!(!utils::is_absolute("a"));
    assert!(!utils::is_absolute(""));
}

#[test]
fn set_extname_edge_cases() {
    assert_eq!(utils::set_extname("file.tar", "gz"), String::from("file.gz"));
    assert_eq!(utils::set_extname("file", ""), String::from("file"));
    assert_eq!(utils::set_extname("a.txt", ""), String::from("a.txt"));
    assert_eq!(utils::set_extname("dir/.hidden", "md"), String::from("dir/.hidden.md"));
}

#[test]
fn parent_path_edge_cases() {
    assert_eq!(utils::parent_path(""), None);
    assert_eq!(utils::parent_path("/"), None);
    assert_eq!(utils::parent_path("//"), Some(""));
    assert_eq!(utils::parent_path("/test"), Some("/"));
    assert_eq!(utils::parent_path("/test/"), Some("/"));
    assert_eq!(utils::parent_path("x//"), Some(""));
    assert_eq!(utils::parent_path("a//b"), Some("a//"));
}

#[test]
fn relative_base_shrinks_to_empty() {
    assert_eq!(utils::resolve("a", "..").unwrap(), String::from(""));
    assert_eq!(utils::resolve("a/b", "../..").unwrap(), String::from(""));
    assert_eq!(utils::resolve("a", "../x").unwrap(), String::from("x"));
    assert!(utils::resolve("a", "../..").is_err());
    assert!(utils::resolve("", "..").is_err());
}

#[test]
fn lax_extname_crosses_segments() {
    assert_eq!(extname("test."), Some(String::from("")));
    assert_eq!(extname("a.b/c"), Some(String::from("b/c")));
    assert_eq!(extname("nodots"), None);
}

#[test]
fn lax_filename_of_directory_is_empty() {
    assert_eq!(filename("yggdrasil/test/visse/"), Some(String::from("")));
    assert_eq!(filename(""), None);
    assert_eq!(filename("/"), None);
}
