use steam_vdf::discovery::app_from_state;
use steam_vdf::discovery::apps_from_manifests;
use steam_vdf::discovery::common_dir;
use steam_vdf::discovery::find_app_library;
use steam_vdf::discovery::library_paths;
use steam_vdf::discovery::manifest_path;
use steam_vdf::discovery::sort_apps;
use steam_vdf::discovery::steam_dir;
use steam_vdf::discovery::steam_dir_macos;
use steam_vdf::vdf_parse;

fn manifest(appid: &str, name: &str, size: Option<&str>, dir: &str) -> String {
    let size_line = match size {
        Some(s) => format!("\"SizeOnDisk\" \"{s}\""),
        None => String::new(),
    };
    format!(
        "\"AppState\" {{ \"appid\" \"{appid}\" \"name\" \"{name}\" {size_line} \"installdir\" \"{dir}\" }}"
    )
}

#[test]
fn steam_dir_paths() {
    assert_eq!(steam_dir("/home/u"), "/home/u/.steam/steam");
    assert_eq!(
        steam_dir_macos("/Users/u"),
        "/Users/u/Library/Application Support/Steam"
    );
}

#[test]
fn manifest_and_common_paths() {
    assert_eq!(
        manifest_path("/lib", 55500),
        "/lib/steamapps/appmanifest_55500.acf"
    );
    assert_eq!(manifest_path("/lib", 0), "/lib/steamapps/appmanifest_0.acf");
    assert_eq!(common_dir("/lib"), "/lib/steamapps/common");
}

#[test]
fn library_paths_from_index() {
    let lib = vdf_parse(
        r#"
        "libraryfolders"
        {
            "0" { "path" "/mnt/fast" }
            "1" { "label" "no path here" }
            "2" { "path" "/mnt/slow" }
        }
        "#,
    )
    .unwrap();
    let paths = library_paths(&lib);
    assert_eq!(paths, vec!["/mnt/fast/steamapps", "/mnt/slow/steamapps"]);
}

#[test]
fn project_one_manifest() {
    let ast = vdf_parse(&manifest("55500", "Test Game", Some("123"), "tg")).unwrap();
    let app = app_from_state(&ast, "/lib/steamapps/common").unwrap();
    assert_eq!(app.app_id, 55500);
    assert_eq!(app.name, "Test Game");
    assert_eq!(app.size_on_disk, 123);
    assert_eq!(app.path, "/lib/steamapps/common/tg");
}

#[test]
fn missing_field_is_skipped_not_fatal() {
    let good1 = vdf_parse(&manifest("10", "A", Some("1"), "a")).unwrap();
    let bad = vdf_parse(&manifest("20", "B", None, "b")).unwrap();
    let good2 = vdf_parse(&manifest("30", "C", Some("3"), "c")).unwrap();
    let manifests = vec![good1, bad, good2];
    let apps = apps_from_manifests(&manifests, "/lib/common");
    assert_eq!(apps.len(), 2);
    assert_eq!(apps[0].app_id, 10);
    assert_eq!(apps[1].app_id, 30);
}

#[test]
fn apps_sort_ascending_by_id() {
    let a = vdf_parse(&manifest("30", "C", Some("3"), "c")).unwrap();
    let b = vdf_parse(&manifest("10", "A", Some("1"), "a")).unwrap();
    let c = vdf_parse(&manifest("20", "B", Some("2"), "b")).unwrap();
    let manifests = vec![a, b, c];
    let apps = sort_apps(apps_from_manifests(&manifests, "/r"));
    let ids: Vec<u64> = apps.iter().map(|a| a.app_id).collect();
    assert_eq!(ids, vec![10, 20, 30]);
}

#[test]
fn find_library_for_app() {
    let lib = vdf_parse(
        r#"
        "libraryfolders"
        {
            "0"
            {
                "path" "/mnt/one"
                "apps" { "10" "0" "20" "0" }
            }
            "1"
            {
                "path" "/mnt/two"
                "apps" { "55500" "0" }
            }
        }
        "#,
    )
    .unwrap();
    assert_eq!(find_app_library(&lib, 55500).as_deref(), Some("/mnt/two"));
    assert_eq!(find_app_library(&lib, 20).as_deref(), Some("/mnt/one"));
}

#[test]
fn absent_app_is_not_found_never_defaulted() {
    let lib = vdf_parse(
        r#"
        "libraryfolders"
        {
            "0"
            {
                "path" "/mnt/one"
                "apps" { "10" "0" }
            }
        }
        "#,
    )
    .unwrap();
    assert!(find_app_library(&lib, 99999).is_none());
}

#[test]
fn negative_sizes_wrap_as_unsigned() {
    let ast = vdf_parse(&manifest("5", "N", Some("-1"), "n")).unwrap();
    let app = app_from_state(&ast, "/r").unwrap();
    assert_eq!(app.size_on_disk, u64::MAX);
}
