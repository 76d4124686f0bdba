use relaydrop::paths::{file_name, join, safe_relpath, safe_relpath_on, to_plain, Platform};

#[test]
fn safe_paths_keep_only_names() {
    assert_eq!(safe_relpath("a/b/x.txt"), "a/b/x.txt");
    assert_eq!(safe_relpath("../../etc/passwd"), "etc/passwd");
    assert_eq!(safe_relpath("/etc/passwd"), "etc/passwd");
    assert_eq!(safe_relpath("a/../b/./c//d/"), "a/b/c/d");
    assert_eq!(safe_relpath("..."), "...");
    assert_eq!(safe_relpath("a\\..\\b"), "a\\..\\b");
}

#[test]
fn nothing_left_gets_a_stand_in() {
    for path in ["", "/", ".", "..", "../..", "./../", "//"] {
        assert_eq!(safe_relpath(path), "received.bin");
    }
}

#[test]
fn safe_twice_is_safe_once() {
    for path in ["", "../a", "x/./y", "/é/../ü"] {
        let once = safe_relpath(path);
        assert_eq!(safe_relpath(&once), once);
    }
}

#[test]
fn last_components() {
    assert_eq!(file_name("/tmp/data"), Some("data".to_string()));
    assert_eq!(file_name("data/"), Some("data".to_string()));
    assert_eq!(file_name("data/."), Some("data".to_string()));
    assert_eq!(file_name("./x"), Some("x".to_string()));
    assert_eq!(file_name(".."), None);
    assert_eq!(file_name("a/.."), None);
    assert_eq!(file_name("/"), None);
    assert_eq!(file_name("."), None);
    assert_eq!(file_name(""), None);
}

#[test]
fn last_components_agree_with_std() {
    for path in ["a", "a/b", "a/b/", "a//b", "./a", "a/.", "..", "a/..", "/", "", ".", "/a/./b/"] {
        let std_name = std::path::Path::new(path).file_name().map(|s| s.to_string_lossy().to_string());
        assert_eq!(file_name(path), std_name);
    }
}

#[test]
fn safe_paths_agree_with_std() {
    for path in ["a/b", "../a", "/x/../y", "a/./b", "./c", "x//y", "é/ü", "..a/b.."] {
        let mut out = std::path::PathBuf::new();
        for c in std::path::Path::new(path).components() {
            if let std::path::Component::Normal(s) = c {
                out.push(s);
            }
        }
        assert_eq!(safe_relpath(path), out.to_string_lossy());
    }
}

#[test]
fn joining() {
    assert_eq!(join("a", "b"), "a/b");
    assert_eq!(join("a/", "b"), "a/b");
    assert_eq!(join("", "b"), "b");
    assert_eq!(join("a", "/b"), "/b");
    assert_eq!(join("a", ""), "a/");
}

#[test]
fn windows_paths_are_safe_too() {
    let safe = |rel: &str| safe_relpath_on(Platform::Windows, rel);
    assert_eq!(safe("a\\b/c"), "a/b/c");
    assert_eq!(safe("..\\..\\x"), "x");
    assert_eq!(safe("C:\\Windows\\x"), "Windows/x");
    assert_eq!(safe("c:x"), "x");
    assert_eq!(safe("C:D:\\x"), "x");
    assert_eq!(safe("12:30.txt"), "12:30.txt");
    assert_eq!(safe("12:31.txt"), "12:31.txt");
    assert_eq!(safe("d/a:b.txt"), "d/a:b.txt");
    assert_eq!(safe("..\\D:x"), "x");
    assert_eq!(safe("\\\\s\\h\\x"), "x");
    assert_eq!(safe("//s/h/a/b"), "a/b");
    assert_eq!(safe("\\\\?\\C:\\a\\b"), "a/b");
    assert_eq!(safe("\\\\?\\UNC\\s\\h\\x"), "x");
    assert_eq!(safe("\\\\.\\COM42"), "received.bin");
    assert_eq!(safe("\\\\server"), "server");
    assert_eq!(safe("C:"), "received.bin");
    assert_eq!(safe("\\"), "received.bin");
    for rel in ["a\\..\\b", "C:\\x:y", "plain"] {
        assert_eq!(safe(&safe(rel)), safe(rel));
    }
}

#[test]
fn unix_keeps_what_means_nothing_there() {
    assert_eq!(safe_relpath_on(Platform::Unix, "..\\x"), "..\\x");
    assert_eq!(safe_relpath_on(Platform::Unix, "C:x/y"), safe_relpath("C:x/y"));
    assert_eq!(safe_relpath("C:x/y"), "C:x/y");
}

#[test]
fn plain_forms() {
    assert_eq!(to_plain(Platform::Unix, "a\\b"), "a\\b");
    assert_eq!(to_plain(Platform::Windows, "a\\b/c"), "a/b/c");
    assert_eq!(to_plain(Platform::Windows, "D:\\data"), "/data");
    assert_eq!(to_plain(Platform::Windows, "1:\\x"), "1:/x");
    assert_eq!(to_plain(Platform::Windows, "\\\\s\\h\\d\\e"), "d/e");
    assert_eq!(to_plain(Platform::Windows, "\\\\s\\h"), "");
    assert_eq!(file_name(&to_plain(Platform::Windows, "D:\\me\\data\\")), Some("data".to_string()));
}
