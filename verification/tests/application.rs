use fortnite_downloader::application::{checked_total_size, filter_files, gibibytes, total_file_size, Application};
use fortnite_downloader::tags::collect_tags;
use fortnite_downloader::model::{FileEntry, ManifestModel, ShaHash};
use fortnite_downloader::text_map::TextMap;

fn file(name: &str, size: u32, tags: &[&str]) -> FileEntry {
    FileEntry {
        filename: name.to_string(),
        file_size: size,
        sha_hash: ShaHash::new([0u8; 20]),
        install_tags: tags.iter().map(|t| t.to_string()).collect(),
        chunk_parts: vec![],
    }
}

fn names(files: &[FileEntry]) -> Vec<String> {
    files.iter().map(|f| f.filename.clone()).collect()
}

fn sample_files() -> Vec<FileEntry> {
    vec![
        file("base.pak", 100, &[]),
        file("lang_de.pak", 20, &["lang_de", "optional"]),
        file("lang_fr.pak", 30, &["lang_fr"]),
        file("hd.pak", 50, &["chunk0", "hd_textures"]),
        file("internal.pak", 7, &["chunk1"]),
    ]
}

fn manifest() -> ManifestModel {
    ManifestModel {
        app_name: "Fortnite".to_string(),
        build_version: "++Fortnite+Release".to_string(),
        files: sample_files(),
        chunks: vec![],
    }
}

#[test]
fn tags_are_sorted_unique_and_skip_chunk_groups() {
    let mut files = sample_files();
    files.push(file("more.pak", 1, &["optional", "lang_de", "Zulu", "achunkb"]));
    let tags = collect_tags(&files);
    assert_eq!(tags, vec!["Zulu", "hd_textures", "lang_de", "lang_fr", "optional"]);
}

#[test]
fn tags_of_files_without_tags_are_empty() {
    let tags = collect_tags(&vec![file("a", 1, &[]), file("b", 2, &[])]);
    assert!(tags.is_empty());
}

#[test]
fn mandatory_files_are_always_selected() {
    let files = sample_files();
    let choices: TextMap<bool> = TextMap::new();
    assert_eq!(names(&filter_files(&files, &choices)), vec!["base.pak"]);
}

#[test]
fn a_selected_tag_selects_its_files() {
    let files = sample_files();
    let mut choices: TextMap<bool> = TextMap::new();
    choices.insert("lang_fr".to_string(), true);
    choices.insert("optional".to_string(), false);
    assert_eq!(names(&filter_files(&files, &choices)), vec!["base.pak", "lang_fr.pak"]);
    choices.insert("optional".to_string(), true);
    assert_eq!(names(&filter_files(&files, &choices)), vec!["base.pak", "lang_de.pak", "lang_fr.pak"]);
}

#[test]
fn default_application_state() {
    let app = Application::default();
    assert!(app.tags.is_none());
    assert!(app.manifest.is_none());
    assert_eq!(app.max_threads, 3);
    assert_eq!(app.max_chunk_concurrency, 15);
    assert_eq!(app.base_url, "https://epicgames-download1.akamaized.net/Builds/Fortnite/CloudDir/ChunksV4");
    assert_eq!(app.files_number, 0);
    assert_eq!(app.game_size, 0);
    assert!(!app.ignore_corrupted_files);
    assert!(app.get_filtered_files().is_empty());
}

#[test]
fn receiving_a_manifest_selects_every_offered_tag() {
    let mut app = Application::default();
    app.receive_manifest(manifest()).unwrap();
    assert_eq!(app.tags.clone().unwrap(), vec!["hd_textures", "lang_de", "lang_fr", "optional"]);
    assert!(app.is_tag_selected(&"lang_de".to_string()));
    assert!(!app.is_tag_selected(&"chunk0".to_string()));
    assert_eq!(names(&app.get_filtered_files()), vec!["base.pak", "lang_de.pak", "lang_fr.pak", "hd.pak"]);
    assert_eq!(app.files_number, 4);
    assert_eq!(app.game_size, 200);
}

#[test]
fn deselecting_tags_shrinks_the_selection() {
    let mut app = Application::default();
    app.receive_manifest(manifest()).unwrap();
    assert_eq!(app.select_tag("hd_textures".to_string(), false), Ok(Some((3, 150))));
    assert_eq!(app.select_tag("lang_de".to_string(), false), Ok(Some((3, 150))));
    assert_eq!(app.select_tag("optional".to_string(), false), Ok(Some((2, 130))));
    assert_eq!(app.select_tag("optional".to_string(), true), Ok(Some((3, 150))));
    assert!(app.is_tag_selected(&"optional".to_string()));
    assert!(!app.is_tag_selected(&"lang_de".to_string()));
}

#[test]
fn empty_selection_keeps_the_last_sizes() {
    let mut app = Application::default();
    app.receive_manifest(ManifestModel {
        app_name: String::new(),
        build_version: String::new(),
        files: vec![file("a", 5, &["x"])],
        chunks: vec![],
    })
    .unwrap();
    assert_eq!((app.files_number, app.game_size), (1, 5));
    assert_eq!(app.select_tag("x".to_string(), false), Ok(None));
    assert_eq!((app.files_number, app.game_size), (1, 5));
    assert_eq!(app.calculate_game_files_size(), Ok(None));
}

#[test]
fn ready_to_download_needs_everything() {
    let mut app = Application::default();
    assert!(!app.ready_to_download(true));
    app.receive_manifest(manifest()).unwrap();
    assert!(app.ready_to_download(true));
    assert!(!app.ready_to_download(false));
    app.max_threads = 0;
    assert!(!app.ready_to_download(true));
    app.max_threads = 2;
    app.base_url = String::new();
    assert!(!app.ready_to_download(true));
}

#[test]
fn sizes_and_counts() {
    let mut app = Application::default();
    app.receive_manifest(manifest()).unwrap();
    assert_eq!(app.max_downloads(), 45);
    assert_eq!(app.remaining_size(50), 150);
    assert_eq!(gibibytes(3 * 1024 * 1024 * 1024 + 5), 3);
    assert_eq!(gibibytes(1024 * 1024 * 1024 - 1), 0);
    assert_eq!(total_file_size(&sample_files()), 207);
    assert_eq!(checked_total_size(&sample_files()), Some(207));
}

#[test]
fn download_plan_has_the_selection_and_all_chunks() {
    let mut app = Application::default();
    app.receive_manifest(manifest()).unwrap();
    app.select_tag("lang_fr".to_string(), false).unwrap();
    let (files, chunks) = app.download_plan();
    assert_eq!(names(&files), vec!["base.pak", "lang_de.pak", "hd.pak"]);
    assert!(chunks.is_empty());
}

#[test]
fn wider_choices_keep_the_narrow_selection_in_order() {
    let files = sample_files();
    let mut narrow: TextMap<bool> = TextMap::new();
    narrow.insert("lang_fr".to_string(), true);
    let mut wide: TextMap<bool> = TextMap::new();
    wide.insert("lang_fr".to_string(), true);
    wide.insert("optional".to_string(), true);
    wide.insert("hd_textures".to_string(), true);
    let a = names(&filter_files(&files, &narrow));
    let b = names(&filter_files(&files, &wide));
    assert_eq!(a, vec!["base.pak", "lang_fr.pak"]);
    assert_eq!(b, vec!["base.pak", "lang_de.pak", "lang_fr.pak", "hd.pak"]);
    let mut it = b.iter();
    assert!(a.iter().all(|x| it.any(|y| y == x)));
}
