//! Where files lie.

use udemyget::config::{
    config_dir, config_dir_in, config_file_in, config_path, cookie_file_display,
    cookie_file_display_in, cookie_file_path, cookie_in_file, cookie_placeholder,
    default_output_dir, default_output_dir_in, is_absolute_path, join_path, lecture_file_in,
    lecture_output_path, lecture_output_path_in, part_path, shorten_path, strip_base, Config,
    PathStyle,
};

fn some(s: &str) -> Option<String> {
    Some(s.to_string())
}

#[test]
fn styles_follow_the_separator() {
    assert_eq!(PathStyle::with_separator('/'), PathStyle::Unix);
    assert_eq!(PathStyle::with_separator('\\'), PathStyle::Windows);
    assert_eq!(PathStyle::with_separator(':'), PathStyle::Unix);
}

#[test]
fn names_are_joined() {
    assert_eq!(join_path(PathStyle::Unix, "/a", "b"), "/a/b");
    assert_eq!(join_path(PathStyle::Unix, "/a/", "b"), "/a/b");
    assert_eq!(join_path(PathStyle::Unix, "", "b"), "b");
    assert_eq!(join_path(PathStyle::Unix, "/a", ""), "/a/");
    assert_eq!(join_path(PathStyle::Unix, "C:", "b"), "C:/b");
    assert_eq!(join_path(PathStyle::Windows, "C:\\a", "b"), "C:\\a\\b");
    assert_eq!(join_path(PathStyle::Windows, "C:/a/", "b"), "C:/a/b");
    assert_eq!(join_path(PathStyle::Windows, "C:", "b"), "C:b");
    // After `\\\\?\\` a slash is part of a name.
    assert_eq!(join_path(PathStyle::Windows, "\\\\?\\C:\\a/", "b"), "\\\\?\\C:\\a/\\b");
    assert_eq!(join_path(PathStyle::Windows, "\\\\?\\C:\\a\\", "b"), "\\\\?\\C:\\a\\b");
    assert_eq!(join_path(PathStyle::Windows, "\\\\?\\C:", "b"), "\\\\?\\C:\\b");
    assert_eq!(join_path(PathStyle::Unix, "\\\\?\\a/", "b"), "\\\\?\\a/b");
}

#[test]
fn joining_agrees_with_the_standard_library() {
    for base in ["", "a", "a/", "/", "/x/y", "."] {
        for name in ["", "n", "n.txt", "..."] {
            let std_path = std::path::Path::new(base).join(name);
            if std::path::MAIN_SEPARATOR == '/' {
                assert_eq!(join_path(PathStyle::Unix, base, name), std_path.to_string_lossy());
            }
        }
    }
}

#[test]
fn stripping_agrees_with_the_standard_library() {
    if std::path::MAIN_SEPARATOR != '/' {
        return;
    }
    let paths = [
        "/home/u/.config/x", "/home//u/./.config//x", "/homes/u/x", "/home/u", "home/u/x", "./home/u",
        ".", "./", "", "/", "//", "/./", "/home/u/", "/home/u/.", "/home/u/x/./", "./.", "..", "../x",
        "/..", "home/..", ".x", "x.", "/home/u/x.", "a/./b/.", "././home",
    ];
    let bases = [
        "/home/u", "/home/u/", "/home/./u", "/", "home", "/home/u/.config/x/y", ".", "./", "", "./home",
        "..", "a", "/home/.", "//home", "/./home",
    ];
    for path in paths {
        for base in bases {
            let want = std::path::Path::new(path)
                .strip_prefix(base)
                .ok()
                .map(|p| p.to_string_lossy().into_owned());
            assert_eq!(strip_base(PathStyle::Unix, path, base), want, "{path} {base}");
        }
    }
}

#[test]
fn drives_and_shares_are_told_apart() {
    let strip = |path: &str, base: &str| strip_base(PathStyle::Windows, path, base);
    assert_eq!(strip("c:\\u\\x", "C:\\u"), some("x"));
    assert_eq!(strip("C:\\u\\x", "c:/u/"), some("x"));
    assert_eq!(strip("C:\\U\\x", "C:\\u"), None);
    assert_eq!(strip("D:\\u\\x", "C:\\u"), None);
    assert_eq!(strip("C:u\\x", "C:\\u"), None);
    assert_eq!(strip("C:\\u\\x\\", "c:"), some("\\u\\x"));
    assert_eq!(strip("C:u", ""), some("C:u"));
    assert_eq!(strip("\\\\s\\t\\x", "//s/t"), some("x"));
    assert_eq!(strip("\\\\s\\t\\x", "\\s\\t"), None);
    assert_eq!(strip("\\\\?\\c:\\u\\x", "\\\\?\\C:\\u"), some("x"));
    assert_eq!(strip("\\\\?\\C:\\u\\.\\x", "\\\\?\\C:\\u\\"), some(".\\x"));
    assert_eq!(strip("\\\\?\\C:\\u/x", "\\\\?\\C:\\u"), None);
    assert_eq!(strip("\\\\?\\C:\\u\\x", "C:\\u"), None);
    assert_eq!(strip("\\\\?\\UNC\\s\\t\\x", "\\\\?\\UNC\\s\\t"), some("x"));
}

#[test]
fn absolute_paths_are_known() {
    for path in ["/", "/a", "a", "", ".", "./a", "//a", "C:\\a"] {
        if std::path::MAIN_SEPARATOR == '/' {
            let want = std::path::Path::new(path).is_absolute();
            assert_eq!(is_absolute_path(PathStyle::Unix, path), want, "{path}");
        }
    }
    for path in ["C:\\", "c:/a", "\\\\server\\share", "\\\\server\\share\\a", "\\\\?\\C:\\a"] {
        assert!(is_absolute_path(PathStyle::Windows, path), "{path}");
    }
    for path in ["C:", "C:a", "\\a", "/a", "a", "", "\\\\", "\\\\server", "\\\\server\\", "1:\\a"] {
        assert!(!is_absolute_path(PathStyle::Windows, path), "{path}");
    }
}

#[test]
fn settings_lie_below_the_directory_of_the_platform() {
    let style = PathStyle::Unix;
    assert_eq!(config_dir_in(style, "/w", some("/h/.config")), "/h/.config/udemyget");
    assert_eq!(
        config_file_in(style, "/w", some("/h/.config"), "cookies.txt"),
        "/h/.config/udemyget/cookies.txt"
    );
    assert_eq!(config_file_in(style, "/w", None, "config.json"), "/w/udemyget/config.json");
    assert_eq!(config_dir_in(style, "/w/", some("h/.config")), "/w/h/.config/udemyget");
    assert_eq!(config_file_in(style, ".", None, "config.json"), "./udemyget/config.json");
    assert_eq!(
        config_file_in(PathStyle::Windows, "D:\\w", some("C:\\R"), "cookies.txt"),
        "C:\\R\\udemyget\\cookies.txt"
    );
    assert_eq!(
        config_file_in(PathStyle::Windows, "D:\\w", None, "cookies.txt"),
        "D:\\w\\udemyget\\cookies.txt"
    );
}

#[test]
fn settings_of_this_platform_lie_together() {
    let here = if std::path::MAIN_SEPARATOR == '/' { "/w" } else { "C:\\w" };
    let dir = config_dir(here);
    assert!(dir.ends_with("udemyget"), "{dir}");
    let sep = std::path::MAIN_SEPARATOR;
    assert_eq!(config_path(here), format!("{dir}{sep}config.json"));
    assert_eq!(cookie_file_path(here), format!("{dir}{sep}cookies.txt"));
    assert!(std::path::Path::new(&cookie_file_path(here)).is_absolute());
    assert!(cookie_file_display(here).ends_with(&format!("udemyget{sep}cookies.txt")));
    if let Some(platform) = dirs::config_dir() {
        let want = std::path::Path::new(here).join(platform).join("udemyget");
        assert_eq!(std::path::PathBuf::from(dir), want);
    }
}

#[test]
fn cookie_files_are_displayed_below_home() {
    assert_eq!(
        cookie_file_display_in(PathStyle::Unix, "/w", some("/home/u/.config"), some("/home/u")),
        "~/.config/udemyget/cookies.txt"
    );
    assert_eq!(
        cookie_file_display_in(
            PathStyle::Unix,
            "/w",
            some("/Users/u/Library/Application Support"),
            some("/Users/u")
        ),
        "~/Library/Application Support/udemyget/cookies.txt"
    );
    assert_eq!(
        cookie_file_display_in(
            PathStyle::Windows,
            "C:\\w",
            some("C:\\Users\\u\\AppData\\Roaming"),
            some("c:\\Users\\u")
        ),
        "~\\AppData\\Roaming\\udemyget\\cookies.txt"
    );
    // A home directory that is not written as an absolute path is seen from here.
    assert_eq!(
        cookie_file_display_in(PathStyle::Unix, "/w", some("h/.config"), some("h")),
        "~/.config/udemyget/cookies.txt"
    );
    assert_eq!(
        cookie_file_display_in(PathStyle::Unix, "/w", None, None),
        "/w/udemyget/cookies.txt"
    );
}

#[test]
fn home_is_shortened() {
    let path = "/home/u/.config/udemyget/cookies.txt".to_string();
    assert_eq!(
        shorten_path(PathStyle::Unix, path.clone(), &some("/home/u")),
        "~/.config/udemyget/cookies.txt"
    );
    assert_eq!(
        shorten_path(PathStyle::Unix, path.clone(), &some("/home/u/")),
        "~/.config/udemyget/cookies.txt"
    );
    assert_eq!(shorten_path(PathStyle::Unix, path.clone(), &some("/home/uv")), path);
    assert_eq!(shorten_path(PathStyle::Unix, path.clone(), &None), path);
    assert_eq!(
        shorten_path(
            PathStyle::Windows,
            "C:\\Users\\u\\AppData\\Roaming\\udemyget\\cookies.txt".to_string(),
            &some("C:\\Users\\u")
        ),
        "~\\AppData\\Roaming\\udemyget\\cookies.txt"
    );
    assert_eq!(
        shorten_path(
            PathStyle::Unix,
            "/Users/u/Library/Application Support/udemyget/cookies.txt".to_string(),
            &some("/Users/u")
        ),
        "~/Library/Application Support/udemyget/cookies.txt"
    );
}

#[test]
fn cookie_files_are_trimmed() {
    assert_eq!(cookie_in_file(" \n a=b; c=d\t\r\n"), Ok("a=b; c=d".to_string()));
    assert_eq!(cookie_in_file(" \n\u{3000}"), Err("file is empty".to_string()));
    assert_eq!(cookie_in_file(""), Err("file is empty".to_string()));
}

#[test]
fn placeholder_explains_itself() {
    let text = cookie_placeholder();
    assert_eq!(text.lines().count(), 7);
    assert!(text.lines().all(|l| l.starts_with('#')));
    assert!(text.starts_with(
        "# Paste your Udemy Cookie header value on the line below and save.\n# How to get it:\n"
    ));
    assert!(text.ends_with("#   5. Replace this entire comment with that value and save.\n"));
}

#[test]
fn downloads_go_to_a_directory_of_their_own() {
    let style = PathStyle::Unix;
    assert_eq!(default_output_dir_in(style, some("/h/Downloads"), some("/h")), "/h/Downloads/Udemy");
    assert_eq!(default_output_dir_in(style, None, some("/h")), "/h/Downloads/Udemy");
    assert_eq!(default_output_dir_in(style, some("/data"), some("/h")), "/data/Udemy");
    assert_eq!(default_output_dir_in(style, None, None), "./Udemy");
    assert!(default_output_dir().ends_with("Udemy"));
    let config = Config::default();
    assert_eq!(config.cookie, "");
    assert_eq!(config.output_dir, default_output_dir());
}

#[test]
fn lectures_have_a_place() {
    assert_eq!(
        lecture_output_path_in(
            PathStyle::Unix,
            "/out",
            "Course Title",
            1,
            "Chapter Title",
            2,
            "Another Lecture"
        ),
        "/out/Course Title/01. Chapter Title/002. Another Lecture.mp4"
    );
    assert_eq!(
        lecture_output_path_in(PathStyle::Windows, "C:\\o", "C", 100, "D", 1000, "E"),
        "C:\\o\\C\\100. D\\1000. E.mp4"
    );
}

#[test]
fn clean_titles_are_numbered() {
    assert_eq!(
        lecture_file_in(PathStyle::Unix, "/o/c", 7, "d", 8, "e"),
        "/o/c/07. d/008. e.mp4"
    );
}

#[test]
fn titles_do_not_lead_elsewhere() {
    assert_eq!(
        lecture_output_path_in(PathStyle::Unix, "/out", "../a/b: c?", 3, "..", 4, "/x\n*"),
        "/out/..ab c/03. /004. x.mp4"
    );
    assert_eq!(
        lecture_output_path_in(PathStyle::Unix, "/out", "..", 3, "a", 4, "b"),
        "/out/03. a/004. b.mp4"
    );
    assert_eq!(
        lecture_output_path_in(PathStyle::Windows, "o", "con", 3, "dots..", 4, "b"),
        "o\\03. dots\\004. b.mp4"
    );
    assert_eq!(
        lecture_output_path_in(PathStyle::Unix, "o", "con", 3, "dots..", 4, "b"),
        "o/con/03. dots../004. b.mp4"
    );
}

#[test]
fn lectures_with_other_numbers_have_other_paths() {
    let mut seen: Vec<String> = Vec::new();
    for chapter in [1u32, 2, 12, 112] {
        for lecture in [1u32, 2, 12, 1112] {
            let p = lecture_output_path_in(PathStyle::Unix, "/o", "c", chapter, "x", lecture, "y");
            assert!(!seen.contains(&p));
            seen.push(p);
        }
    }
}

#[test]
fn paths_of_this_platform_use_its_separator() {
    let sep = std::path::MAIN_SEPARATOR;
    assert_eq!(
        lecture_output_path("out", "c", 1, "d", 2, "e"),
        format!("out{sep}c{sep}01. d{sep}002. e.mp4")
    );
}

#[test]
fn unfinished_files_have_a_suffix() {
    assert_eq!(part_path("/o/a.mp4"), "/o/a.mp4.part");
}
