use reinlinsen::compose::compose;
use reinlinsen::compose::compose_with;
use reinlinsen::compose::LayerEntry;
use reinlinsen::diff::layer_info;
use reinlinsen::entry::classify;
use reinlinsen::entry::entry_action;
use reinlinsen::entry::EntryAction;
use reinlinsen::entry::EntryKind;
use reinlinsen::error::Error;
use reinlinsen::model::check_history_alignment;
use reinlinsen::model::layer_commands;
use reinlinsen::model::single_manifest;
use reinlinsen::model::Config;
use reinlinsen::model::HistoryEntry;
use reinlinsen::model::Manifest;
use reinlinsen::paths::base_name;
use reinlinsen::paths::clean_path;
use reinlinsen::paths::name_from_image;
use reinlinsen::resolve::convert_layer_num;

fn manifest_with_layers(n: usize) -> Manifest {
    let mut layers = Vec::new();
    for i in 0..n {
        layers.push(format!("layer{i}/layer.tar"));
    }
    Manifest { config: String::from("config.json"), repo_tags: None, layers }
}

fn history_entry(empty_layer: bool, created_by: &str) -> HistoryEntry {
    HistoryEntry {
        empty_layer,
        created: String::new(),
        created_by: String::from(created_by),
        comment: String::new(),
    }
}

fn entry(path: &str, data: &[u8]) -> LayerEntry {
    LayerEntry { path: String::from(path), data: data.to_vec() }
}

fn clone_layer(l: &Vec<LayerEntry>) -> Vec<LayerEntry> {
    l.iter().map(|e| LayerEntry { path: e.path.clone(), data: e.data.clone() }).collect()
}

#[test]
fn resolve_in_range() {
    let m = manifest_with_layers(3);
    assert_eq!(convert_layer_num(&m, 0), Ok(0));
    assert_eq!(convert_layer_num(&m, 1), Ok(1));
    assert_eq!(convert_layer_num(&m, 2), Ok(2));
}

#[test]
fn resolve_negative_indexing() {
    let m = manifest_with_layers(3);
    assert_eq!(convert_layer_num(&m, -1), Ok(2));
    assert_eq!(convert_layer_num(&m, -2), Ok(1));
    assert_eq!(convert_layer_num(&m, -3), Ok(0));
}

#[test]
fn resolve_newest_reachable_both_ways() {
    let m = manifest_with_layers(5);
    assert_eq!(convert_layer_num(&m, -1), convert_layer_num(&m, 4));
}

#[test]
fn resolve_out_of_range() {
    let m = manifest_with_layers(3);
    assert_eq!(convert_layer_num(&m, 3), Err(Error::IndexOutOfRange));
    assert_eq!(convert_layer_num(&m, -4), Err(Error::IndexOutOfRange));
    assert_eq!(convert_layer_num(&m, i16::MAX), Err(Error::IndexOutOfRange));
    assert_eq!(convert_layer_num(&m, i16::MIN), Err(Error::IndexOutOfRange));
}

#[test]
fn resolve_empty_layer_list() {
    let m = manifest_with_layers(0);
    assert_eq!(convert_layer_num(&m, 0), Err(Error::IndexOutOfRange));
    assert_eq!(convert_layer_num(&m, -1), Err(Error::IndexOutOfRange));
}

#[test]
fn clean_path_strips_root() {
    assert_eq!(clean_path("/etc/passwd").unwrap(), "etc/passwd");
    assert_eq!(clean_path("etc/passwd").unwrap(), "etc/passwd");
    assert_eq!(clean_path("//double").unwrap(), "double");
    assert_eq!(clean_path("/").unwrap(), "");
    assert_eq!(clean_path("").unwrap(), "");
}

#[test]
fn image_names() {
    assert_eq!(name_from_image("ubuntu"), "ubuntu");
    assert_eq!(name_from_image("ubuntu:22.04"), "ubuntu");
    assert_eq!(name_from_image("library/ubuntu"), "ubuntu");
    assert_eq!(name_from_image("registry.io:5000/library/ubuntu:latest"), "ubuntu");
    assert_eq!(name_from_image("registry.io:5000/tool"), "tool");
}

#[test]
fn classify_regular_and_whiteout() {
    assert!(matches!(classify("a/b.txt"), EntryKind::Regular));
    assert!(matches!(classify("a/b/"), EntryKind::Regular));
    match classify("a/.wh.c.txt") {
        EntryKind::Whiteout { target } => assert_eq!(target, "a/c.txt"),
        _ => panic!("expected a whiteout"),
    }
    match classify(".wh.top") {
        EntryKind::Whiteout { target } => assert_eq!(target, "top"),
        _ => panic!("expected a whiteout"),
    }
}

#[test]
fn classify_edge_names() {
    assert!(matches!(classify(""), EntryKind::Skipped));
    assert!(matches!(classify("/"), EntryKind::Skipped));
    // A bare sentinel with an empty remainder is not a whiteout.
    assert!(matches!(classify(".wh."), EntryKind::Regular));
    assert!(matches!(classify("a/.wh."), EntryKind::Regular));
}

#[test]
fn diff_report() {
    let paths = vec![
        String::from("a/b.txt"),
        String::from("a/.wh.c.txt"),
        String::from(""),
    ];
    let info = layer_info(&paths);
    assert_eq!(info.additions, vec![String::from("a/b.txt")]);
    assert_eq!(info.deletions, vec![String::from("a/c.txt")]);
}

#[test]
fn diff_report_keeps_archive_order() {
    let paths = vec![
        String::from(".wh.old"),
        String::from("bin/sh"),
        String::from("etc/hosts"),
        String::from("etc/.wh.motd"),
    ];
    let info = layer_info(&paths);
    assert_eq!(info.additions, vec![String::from("bin/sh"), String::from("etc/hosts")]);
    assert_eq!(info.deletions, vec![String::from("old"), String::from("etc/motd")]);
}

#[test]
fn manifest_count_must_be_one() {
    let err = single_manifest(Vec::new());
    assert!(matches!(err, Err(Error::ParseError)));
    let err = single_manifest(vec![manifest_with_layers(1), manifest_with_layers(2)]);
    assert!(matches!(err, Err(Error::ParseError)));
    let ok = single_manifest(vec![manifest_with_layers(2)]).unwrap();
    assert_eq!(ok.layers.len(), 2);
}

#[test]
fn history_alignment() {
    let config = Config {
        architecture: String::from("amd64"),
        history: vec![
            history_entry(false, "ADD rootfs"),
            history_entry(true, "ENV PATH=/bin"),
            history_entry(false, "RUN build"),
        ],
        os: String::from("linux"),
    };
    assert!(check_history_alignment(&config, &manifest_with_layers(2)).is_ok());
    assert_eq!(
        check_history_alignment(&config, &manifest_with_layers(3)),
        Err(Error::ParseError)
    );
}

#[test]
fn clean_history_filters_empty_layers() {
    let config = Config {
        architecture: String::from("amd64"),
        history: vec![
            history_entry(true, "LABEL a=b"),
            history_entry(false, "ADD rootfs"),
            history_entry(false, "RUN build"),
            history_entry(true, "CMD sh"),
        ],
        os: String::from("linux"),
    };
    let kept = config.clean_history();
    assert_eq!(kept.len(), 2);
    assert_eq!(kept[0].created_by, "ADD rootfs");
    assert_eq!(kept[1].created_by, "RUN build");
}

#[test]
fn layer_commands_by_position() {
    let config = Config {
        architecture: String::from("arm64"),
        history: vec![
            history_entry(false, "ADD rootfs"),
            history_entry(true, "ENV X=1"),
            history_entry(false, "RUN build"),
        ],
        os: String::from("linux"),
    };
    let cmds = layer_commands(&manifest_with_layers(2), &config).unwrap();
    assert_eq!(cmds, vec![String::from("ADD rootfs"), String::from("RUN build")]);
    assert_eq!(
        layer_commands(&manifest_with_layers(1), &config),
        Err(Error::ParseError)
    );
}

#[test]
fn whiteout_deletes_with_two_layers() {
    let layer_a = vec![entry("x/file", b"hello")];
    let layer_b = vec![entry("x/.wh.file", b"")];
    let tree = compose(&vec![layer_a, layer_b]).unwrap();
    assert!(tree.lookup("x/file").is_none());
    assert!(tree.lookup("x/.wh.file").is_none());
}

#[test]
fn whiteout_kept_verbatim_in_single_layer() {
    let layer_b = vec![entry("x/.wh.file", b"")];
    let tree = compose(&vec![layer_b]).unwrap();
    assert!(tree.lookup("x/.wh.file").is_some());
    assert!(tree.lookup("x/file").is_none());
}

#[test]
fn whiteout_deletes_whole_subtree() {
    let layer_a = vec![entry("d/f1", b"1"), entry("d/sub/f2", b"2"), entry("dz", b"3")];
    let layer_b = vec![entry(".wh.d", b"")];
    let tree = compose(&vec![layer_a, layer_b]).unwrap();
    assert!(tree.lookup("d/f1").is_none());
    assert!(tree.lookup("d/sub/f2").is_none());
    // A sibling whose name merely extends the target survives.
    assert_eq!(tree.lookup("dz").unwrap().as_slice(), &b"3"[..]);
}

#[test]
fn whiteout_target_missing_aborts() {
    let layer_a = vec![entry("a", b"1")];
    let layer_b = vec![entry(".wh.b", b"")];
    assert!(matches!(
        compose(&vec![layer_a, layer_b]),
        Err(Error::WhiteoutTargetMissing)
    ));
}

#[test]
fn later_write_shadows_earlier() {
    let layer_a = vec![entry("etc/conf", b"old")];
    let layer_b = vec![entry("etc/conf", b"new")];
    let tree = compose(&vec![layer_a, layer_b]).unwrap();
    assert_eq!(tree.lookup("etc/conf").unwrap().as_slice(), &b"new"[..]);
}

#[test]
fn composition_is_deterministic() {
    let layers = vec![
        vec![entry("a", b"1"), entry("b/c", b"2")],
        vec![entry(".wh.a", b""), entry("b/d", b"3")],
    ];
    let t1 = compose(&layers).unwrap();
    let t2 = compose(&layers).unwrap();
    for p in ["a", "b/c", "b/d"] {
        assert_eq!(t1.lookup(p), t2.lookup(p));
    }
    assert!(t1.lookup("a").is_none());
    assert_eq!(t1.lookup("b/c").unwrap().as_slice(), &b"2"[..]);
    assert_eq!(t1.lookup("b/d").unwrap().as_slice(), &b"3"[..]);
}

#[test]
fn stacked_prefix_matches_full_dump_prefix() {
    let l0 = vec![entry("base", b"0"), entry("tmp/junk", b"j")];
    let l1 = vec![entry("tmp/.wh.junk", b""), entry("app", b"1")];
    let l2 = vec![entry("extra", b"2")];
    // Dumping layer 1 with stacking composes layers 0 and 1.
    let stacked = compose(&vec![clone_layer(&l0), clone_layer(&l1)]).unwrap();
    let full = compose(&vec![l0, l1, l2]).unwrap();
    // The last layer only adds `extra`, so the stacked tree is the full
    // dump with that addition discarded.
    assert_eq!(stacked.lookup("base"), full.lookup("base"));
    assert_eq!(stacked.lookup("app"), full.lookup("app"));
    assert_eq!(stacked.lookup("tmp/junk"), full.lookup("tmp/junk"));
    assert!(stacked.lookup("tmp/junk").is_none());
    assert!(stacked.lookup("extra").is_none());
    assert_eq!(full.lookup("extra").unwrap().as_slice(), &b"2"[..]);
}

#[test]
fn single_layer_flag_matches_range_length() {
    // `compose_with` exposes the deletion fork explicitly: the same single
    // layer composes differently with deletion out of force and in force.
    let kept = compose_with(&vec![vec![entry("x", b"1"), entry(".wh.x", b"")]], false).unwrap();
    assert!(kept.lookup(".wh.x").is_some());
    assert_eq!(kept.lookup("x").unwrap().as_slice(), &b"1"[..]);
    let deleted = compose_with(&vec![vec![entry("x", b"1"), entry(".wh.x", b"")]], true).unwrap();
    assert!(deleted.lookup(".wh.x").is_none());
    assert!(deleted.lookup("x").is_none());
}

#[test]
fn base_names() {
    assert_eq!(base_name("a/b.txt"), "b.txt");
    assert_eq!(base_name("a/b/"), "b");
    assert_eq!(base_name("top"), "top");
    assert_eq!(base_name("/"), "");
    assert_eq!(base_name(""), "");
}

#[test]
fn entry_action_follows_deletion_flag() {
    match entry_action("a/.wh.c", true) {
        EntryAction::Delete { target } => assert_eq!(target, "a/c"),
        _ => panic!("expected a deletion"),
    }
    assert!(matches!(entry_action("a/.wh.c", false), EntryAction::Unpack));
    assert!(matches!(entry_action("a/b", true), EntryAction::Unpack));
    assert!(matches!(entry_action("", true), EntryAction::Skip));
}
