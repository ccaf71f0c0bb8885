use squircle_icon_rs::cache::LookupCache;
use squircle_icon_rs::lookup::{
    candidate_names, has_graphic_ext, icon_search_roots_with, path_join, root_candidates,
    split_on_colon, symbolic_names,
};
use squircle_icon_rs::search::{resolve_icon, resolve_icon_uncached};
use std::path::Path;

fn list_entries(dir: String) -> Vec<String> {
    match Path::new(&dir).read_dir() {
        Ok(entries) => entries.flatten().map(|e| e.file_name().to_string_lossy().into_owned()).collect(),
        Err(_) => Vec::new(),
    }
}

fn system_roots() -> Vec<String> {
    let candidates = root_candidates(None, None, None);
    icon_search_roots_with(candidates, &|p: String| Path::new(&p).is_dir())
}

fn resolve(name: &str) -> Option<String> {
    let mut cache = LookupCache::new();
    let roots = system_roots();
    resolve_icon(
        &mut cache,
        name,
        &roots,
        &|p: String| Path::new(&p).is_file(),
        &|p: String| Path::new(&p).is_dir(),
        &list_entries,
    )
}

#[test]
fn test_resolve_moonlight_or_common_icon() {
    let resolved = resolve("moonlight");
    if Path::new("/usr/share/icons/hicolor/scalable/apps/moonlight.svg").is_file() {
        assert!(resolved.is_some());
        assert!(resolved.unwrap().contains("moonlight"));
    }
}

#[test]
fn test_resolve_network_wired_and_devices() {
    let r = resolve("network-wired");
    println!("resolve_icon('network-wired') -> {:?}", r);
    assert!(r.is_some(), "network-wired should be resolved");
    let path = r.unwrap();
    assert!(Path::new(&path).is_file());
}

#[test]
fn test_resolve_bottles() {
    println!("icon_search_roots: {:?}", system_roots());
    let r1 = resolve("bottles");
    println!("resolve_icon('bottles') -> {:?}", r1);
    let r2 = resolve("com.usebottles.bottles");
    println!("resolve_icon('com.usebottles.bottles') -> {:?}", r2);
}

#[test]
fn test_icon_search_roots_not_empty() {
    let roots = system_roots();
    assert!(!roots.is_empty(), "Should discover at least one system icon directory");
}

#[test]
fn join_paths() {
    assert_eq!(path_join("/usr/share", "icons"), "/usr/share/icons");
    assert_eq!(path_join("/usr/share/", "icons"), "/usr/share/icons");
    assert_eq!(path_join("", "icons"), "icons");
    assert_eq!(path_join("/usr/share", "/abs/x.svg"), "/abs/x.svg");
}

#[test]
fn names_and_extensions() {
    assert_eq!(candidate_names("com.usebottles.bottles"), vec!["com.usebottles.bottles", "bottles"]);
    assert_eq!(candidate_names("bottles"), vec!["bottles"]);
    assert_eq!(candidate_names("trailing."), vec!["trailing."]);
    assert!(has_graphic_ext("icon.SVG"));
    assert!(has_graphic_ext("/x/y/icon.jpeg"));
    assert!(!has_graphic_ext("org.gnome.Nautilus"));
    assert!(!has_graphic_ext(".svg"));
    let names = vec!["a".to_string(), "b-symbolic".to_string(), "c".to_string()];
    assert_eq!(symbolic_names(&names), vec!["a-symbolic", "c-symbolic"]);
}

#[test]
fn xdg_root_candidates() {
    assert_eq!(split_on_colon("a::b"), vec!["a", "", "b"]);
    assert_eq!(split_on_colon(""), vec![""]);
    let roots = root_candidates(Some("/home/u"), None, Some("/opt/share: :/usr/share"));
    assert_eq!(
        roots,
        vec![
            "/home/u/.icons",
            "/home/u/.local/share/icons",
            "/opt/share/icons",
            "/usr/share/icons",
            "/home/u/.local/share/flatpak/exports/share/icons",
            "/home/u/.local/share/flatpak/appstream/flathub/x86_64/active/icons",
            "/var/lib/flatpak/exports/share/icons",
            "/var/lib/flatpak/appstream/flathub/x86_64/active/icons",
            "/usr/share/pixmaps",
            "/home/u/.local/share/pixmaps",
        ]
    );
    let roots = root_candidates(None, Some("/data"), None);
    assert_eq!(
        roots,
        vec![
            "/data/icons",
            "/usr/local/share/icons",
            "/usr/share/icons",
            "/var/lib/flatpak/exports/share/icons",
            "/var/lib/flatpak/appstream/flathub/x86_64/active/icons",
            "/usr/share/pixmaps",
        ]
    );
}

#[test]
fn search_roots_keep_existing_once() {
    let candidates = vec!["/a".to_string(), "/b".to_string(), "/a/".to_string(), "/c".to_string()];
    let kept = icon_search_roots_with(candidates, &|p: String| p != "/b");
    assert_eq!(kept, vec!["/a", "/c"]);
}

#[test]
fn resolution_order_with_a_fake_tree() {
    let files = vec![
        "/r/hicolor/48x48/apps/foo.png".to_string(),
        "/r/hicolor/scalable/apps/foo.svg".to_string(),
        "/p/pixmaps/bar.xpm".to_string(),
        "/r/hicolor/scalable/apps/baz-symbolic.svg".to_string(),
    ];
    let dirs = vec!["/r".to_string(), "/r/hicolor".to_string(), "/p/pixmaps".to_string()];
    let listing = |d: String| -> Vec<String> {
        if d == "/r/hicolor/scalable/apps" {
            vec!["org.example.qux.svg".to_string()]
        } else {
            Vec::new()
        }
    };
    let roots = vec!["/p/pixmaps".to_string(), "/r".to_string()];
    let is_file = |p: String| files.contains(&p);
    let is_dir = |p: String| dirs.contains(&p);
    // Scalable SVGs come before raster sizes.
    assert_eq!(
        resolve_icon_uncached("foo", &roots, &is_file, &is_dir, &listing),
        Some("/r/hicolor/scalable/apps/foo.svg".to_string())
    );
    // Pixmaps roots come first, with extensions tried after the bare name.
    assert_eq!(resolve_icon_uncached("bar", &roots, &is_file, &is_dir, &listing), Some("/p/pixmaps/bar.xpm".to_string()));
    // Reverse-DNS files are found for a short name.
    assert_eq!(
        resolve_icon_uncached("qux", &roots, &is_file, &is_dir, &listing),
        Some("/r/hicolor/scalable/apps/org.example.qux.svg".to_string())
    );
    // Symbolic variants come last.
    assert_eq!(
        resolve_icon_uncached("baz", &roots, &is_file, &is_dir, &listing),
        Some("/r/hicolor/scalable/apps/baz-symbolic.svg".to_string())
    );
    // A reverse-DNS name falls back to its last segment.
    assert_eq!(
        resolve_icon_uncached("com.example.foo", &roots, &is_file, &is_dir, &listing),
        Some("/r/hicolor/scalable/apps/foo.svg".to_string())
    );
    // A name with a graphic extension is not extended again.
    assert_eq!(resolve_icon_uncached("bar.png", &roots, &is_file, &is_dir, &listing), None);
    // Nothing found.
    assert_eq!(resolve_icon_uncached("nothing", &roots, &is_file, &is_dir, &listing), None);
}

#[test]
fn lookup_cache_answers_again() {
    let mut cache = LookupCache::new();
    let roots = vec!["/r".to_string()];
    let yes = |p: String| p == "/r/hicolor/scalable/apps/foo.svg";
    let dirs = |p: String| p == "/r/hicolor" || p == "/r";
    let none = |_d: String| -> Vec<String> { Vec::new() };
    let first = resolve_icon(&mut cache, "  foo ", &roots, &yes, &dirs, &none);
    assert_eq!(first, Some("/r/hicolor/scalable/apps/foo.svg".to_string()));
    // The cached answer is given again even where the file system now says no.
    let no = |_p: String| false;
    let second = resolve_icon(&mut cache, "foo", &roots, &no, &dirs, &none);
    assert_eq!(second, first);
    assert_eq!(cache.get("foo"), Some(Some("/r/hicolor/scalable/apps/foo.svg".to_string())));
    assert_eq!(resolve_icon(&mut cache, "   ", &roots, &yes, &dirs, &none), None);
    assert_eq!(cache.get(""), None);
}

#[test]
fn resolution_phases_in_order() {
    let files = vec![
        "/icons/x.svg".to_string(),
        "/r/breeze/apps/48/kde.svg".to_string(),
        "/r/hicolor/apps/48/kde.png".to_string(),
        "/r/256x256/flat.png".to_string(),
        "/r/hicolor/256x256/apps/flat.png".to_string(),
    ];
    let dirs = vec!["/r/hicolor".to_string(), "/r/breeze".to_string(), "/r/256x256".to_string()];
    let roots = vec!["/r".to_string()];
    let is_file = |p: String| files.contains(&p);
    let is_dir = |p: String| dirs.contains(&p);
    let none = |_d: String| -> Vec<String> { Vec::new() };
    // A name that is itself a file path is taken as it is.
    assert_eq!(resolve_icon_uncached("/icons/x.svg", &roots, &is_file, &is_dir, &none), Some("/icons/x.svg".to_string()));
    // Themes are searched in order (hicolor before breeze), here in the
    // <category>/<size> layout.
    assert_eq!(
        resolve_icon_uncached("kde", &roots, &is_file, &is_dir, &none),
        Some("/r/hicolor/apps/48/kde.png".to_string())
    );
    // Theme trees come before the <root>/<size> directories.
    assert_eq!(
        resolve_icon_uncached("flat", &roots, &is_file, &is_dir, &none),
        Some("/r/hicolor/256x256/apps/flat.png".to_string())
    );
    // A <root>/<size> directory is searched when no theme has the name.
    let dirs_only_size = vec!["/r/256x256".to_string()];
    let is_dir2 = |p: String| dirs_only_size.contains(&p);
    assert_eq!(
        resolve_icon_uncached("flat", &roots, &is_file, &is_dir2, &none),
        Some("/r/256x256/flat.png".to_string())
    );
    // A missing theme directory hides the files under it.
    let no_dirs = |_p: String| false;
    assert_eq!(resolve_icon_uncached("kde", &roots, &is_file, &no_dirs, &none), None);
}

#[test]
fn search_result_is_reported_and_repeatable() {
    let files = vec!["/r/hicolor/scalable/apps/app.svg".to_string()];
    let dirs = vec!["/r/hicolor".to_string()];
    let roots = vec!["/r".to_string()];
    let is_file = |p: String| files.contains(&p);
    let is_dir = |p: String| dirs.contains(&p);
    let listing = |d: String| -> Vec<String> {
        if d == "/r/hicolor/48x48/apps" {
            vec!["README".to_string(), "org.example.tool.png".to_string(), "x.tool.svg".to_string()]
        } else {
            Vec::new()
        }
    };
    let first = resolve_icon_uncached("app", &roots, &is_file, &is_dir, &listing);
    let second = resolve_icon_uncached("app", &roots, &is_file, &is_dir, &listing);
    assert_eq!(first, second);
    assert!(files.contains(first.as_ref().unwrap()));
    // A listed reverse-DNS entry is reported under its directory; the first
    // matching entry of the listing wins.
    assert_eq!(
        resolve_icon_uncached("tool", &roots, &is_file, &is_dir, &listing),
        Some("/r/hicolor/48x48/apps/org.example.tool.png".to_string())
    );
    // A name with a dot is not looked for among reverse-DNS entries.
    assert_eq!(resolve_icon_uncached("a.tool", &roots, &is_file, &is_dir, &listing), None);
}

#[test]
fn blank_names_resolve_to_nothing() {
    let mut cache = LookupCache::new();
    let roots = vec!["/r".to_string()];
    let yes = |_p: String| true;
    let none = |_d: String| -> Vec<String> { Vec::new() };
    for blank in ["", "   ", "\t\n", "\u{a0}\u{3000}"] {
        assert_eq!(resolve_icon(&mut cache, blank, &roots, &yes, &yes, &none), None);
        assert_eq!(cache.get(blank), None);
    }
}
