use transcriber::records::FileRecord;
use transcriber::runner::{plan_folder, MediaSourceConfig};

fn rec(name: &str, path: &str, modified: u64, size: u64) -> FileRecord {
    FileRecord::new(name.to_string(), path.to_string(), modified, size)
}

#[test]
fn voice_memos_configuration() {
    let c = MediaSourceConfig::voice_memos("/home/u");
    assert_eq!(
        c.source_root,
        "/home/u/Library/Group Containers/group.com.apple.VoiceMemos.shared/Recordings"
    );
    assert_eq!(c.output_root, "/home/u/eunoia/*local.data/AppleVoiceMemos/");
    assert_eq!(c.extension, "m4a");
    assert_eq!(c.max_depth, 1);
    assert_eq!(c.min_size, 0);
}

#[test]
fn photos_library_configuration() {
    let c = MediaSourceConfig::photos_library("/home/u");
    assert_eq!(c.source_root, "/home/u/Pictures/Photos Library.photoslibrary/originals");
    assert_eq!(c.output_root, "/home/u/eunoia/*local.data/ApplePhotosLibrary/");
    assert_eq!(c.extension, "mov");
    assert_eq!(c.max_depth, 2);
    assert_eq!(c.min_size, 9999999);
}

#[test]
fn plan_selects_only_files_needing_work() {
    let config = MediaSourceConfig {
        source_root: "/src".to_string(),
        output_root: "/out/".to_string(),
        extension: "m4a".to_string(),
        max_depth: 1,
        min_size: 100,
    };
    let sources = vec![
        rec("fresh.m4a", "/src/fresh.m4a", 300, 5000),
        rec("done.m4a", "/src/done.m4a", 100, 5000),
        rec("tiny.m4a", "/src/tiny.m4a", 300, 10),
        rec("video.mov", "/src/video.mov", 300, 5000),
    ];
    let outputs = vec![rec("done.txt", "/out/done.txt", 200, 42)];
    let jobs = plan_folder(&config, &sources, &outputs);
    assert_eq!(jobs.len(), 1);
    assert_eq!(jobs[0].media_file_path, "/src/fresh.m4a");
    assert_eq!(jobs[0].output_path_stem, "/out/fresh");
}

#[test]
fn plan_on_completed_tree_is_empty() {
    let config = MediaSourceConfig {
        source_root: "/src".to_string(),
        output_root: "/out/".to_string(),
        extension: "m4a".to_string(),
        max_depth: 1,
        min_size: 0,
    };
    let sources = vec![rec("a.m4a", "/src/a.m4a", 100, 5000)];
    let outputs = vec![rec("a.txt", "/out/a.txt", 150, 42)];
    let jobs = plan_folder(&config, &sources, &outputs);
    assert!(jobs.is_empty());
}

#[test]
fn plan_keeps_scan_order() {
    let config = MediaSourceConfig {
        source_root: "/src".to_string(),
        output_root: "/out/".to_string(),
        extension: "m4a".to_string(),
        max_depth: 1,
        min_size: 0,
    };
    let sources = vec![
        rec("b.m4a", "/src/b.m4a", 100, 5000),
        rec("a.m4a", "/src/a.m4a", 100, 5000),
    ];
    let outputs: Vec<FileRecord> = Vec::new();
    let jobs = plan_folder(&config, &sources, &outputs);
    assert_eq!(jobs.len(), 2);
    assert_eq!(jobs[0].output_path_stem, "/out/b");
    assert_eq!(jobs[1].output_path_stem, "/out/a");
}
