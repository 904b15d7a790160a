use ccc::explorer::base64::{base64_decode, base64_encode};
use ccc::explorer::download::unique_download_path;
use ccc::explorer::listing::{list_local, parse_find_output, DirEntry, EntryKind};
use ccc::explorer::local::{LocalFileSource, RgRun, SearchError};
use ccc::explorer::path_guard::{
    check_no_escape_syntax, join_within_root_local, join_within_root_remote, local_candidate,
    GuardError,
};
use ccc::explorer::preview::{
    classify_path, guess_image_mime, guess_language, strip_whitespace, LocalRead, PathCategory,
    PreviewError, PreviewStep,
};
use ccc::explorer::remote::{shq, RemoteError, RemoteFileSource, RemoteRun, StatError};
use ccc::explorer::ripgrep::{is_binary_head, parse_rg_json, relativize};
use ccc::explorer::source::{
    check_download, make_source, summarize_copy, CopyRun, FileSource, InstanceKind, SourceChoice,
    SourceError,
};
use ccc::explorer::types::{Preview, PreviewOpts, SearchOpts};

fn v(args: &[&str]) -> Vec<String> {
    args.iter().map(|s| s.to_string()).collect()
}

fn remote(user_cm: bool) -> RemoteFileSource {
    RemoteFileSource::new("box".into(), "/srv/app".into(), Some(user_cm)).ok().unwrap()
}

fn local() -> LocalFileSource {
    LocalFileSource::new("/srv/app", Some("/srv/app".into())).ok().unwrap()
}

#[test]
fn base64_round_trip_small() {
    assert_eq!(base64_encode(b""), "");
    assert_eq!(base64_encode(b"f"), "Zg==");
    assert_eq!(base64_encode(b"fo"), "Zm8=");
    assert_eq!(base64_encode(b"foo"), "Zm9v");
    assert_eq!(base64_encode(b"foob"), "Zm9vYg==");
    assert_eq!(base64_encode(b"fooba"), "Zm9vYmE=");
    assert_eq!(base64_encode(b"foobar"), "Zm9vYmFy");
}

#[test]
fn classify_extensions() {
    assert!(matches!(classify_path("a.md"), PathCategory::Markdown));
    assert!(matches!(classify_path("a.png"), PathCategory::Image));
    assert!(matches!(classify_path("a.pdf"), PathCategory::Pdf));
    assert!(matches!(classify_path("a.zip"), PathCategory::KnownBinary));
    assert!(matches!(classify_path("a.rs"), PathCategory::Text));
    assert!(matches!(classify_path("README"), PathCategory::Text));
}

#[test]
fn rejects_parent_dir() {
    let r = join_within_root_remote("/srv/app", "src/../etc/passwd");
    assert!(r.is_err());
}

#[test]
fn rejects_absolute_path() {
    let r = join_within_root_remote("/srv/app", "/etc/passwd");
    assert!(r.is_ok());
}

#[test]
fn accepts_normal_relative() {
    let r = join_within_root_remote("/srv/app", "src/main.rs").unwrap();
    assert_eq!(r, "/srv/app/src/main.rs");
}

#[test]
fn empty_rel_is_root() {
    let r = join_within_root_remote("/srv/app", "").unwrap();
    assert_eq!(r, "/srv/app");
}

#[test]
fn rejects_double_dot_mid() {
    let r = join_within_root_remote("/srv/app", "a/../b");
    assert!(r.is_err());
}

#[test]
fn parses_find_output() {
    let out = "d\t4096\tsrc\nf\t1234\tREADME.md\nf\t0\t.gitignore\nl\t12\tsymlink\n";
    let nodes = parse_find_output(out, "");
    assert_eq!(nodes.len(), 4);
    assert!(nodes[0].is_dir && nodes[0].name == "src");
    let dot = nodes.iter().find(|n| n.name == ".gitignore").unwrap();
    assert!(dot.hidden);
}

#[test]
fn shq_basic() {
    assert_eq!(shq("foo"), "'foo'");
    assert_eq!(shq("it's"), "'it'\\''s'");
    assert_eq!(shq("/a b/c"), "'/a b/c'");
}

#[test]
fn base64_decode_round_trip() {
    let decoded = base64_decode("Zm9vYmFy");
    assert_eq!(decoded, b"foobar");
    let decoded = base64_decode("Zm9v");
    assert_eq!(decoded, b"foo");
    let decoded = base64_decode("Zg==");
    assert_eq!(decoded, b"f");
    let decoded = base64_decode("Zm8=");
    assert_eq!(decoded, b"fo");
}

#[test]
fn base64_skips_whitespace() {
    let decoded = base64_decode("Zm9v\nYmFy\n");
    assert_eq!(decoded, b"foobar");
}

#[test]
fn binary_head_detects_nul() {
    assert!(is_binary_head(&[1, 2, 0, 4]));
    assert!(!is_binary_head(b"hello world"));
}

#[test]
fn parses_match_lines() {
    let stdout = r#"{"type":"begin","data":{"path":{"text":"/r/src/main.rs"}}}
{"type":"match","data":{"path":{"text":"/r/src/main.rs"},"lines":{"text":"fn main() {\n"},"line_number":3,"absolute_offset":42,"submatches":[{"match":{"text":"main"},"start":3,"end":7}]}}
{"type":"end","data":{"path":{"text":"/r/src/main.rs"},"binary_offset":null,"stats":{}}}
"#;
    let hits = parse_rg_json(stdout.as_bytes(), "/r", 10).ok().unwrap();
    assert_eq!(hits.len(), 1);
    assert_eq!(hits[0].path, "src/main.rs");
    assert_eq!(hits[0].line_number, 3);
    assert_eq!(hits[0].line, "fn main() {");
    assert_eq!(hits[0].match_start, 3);
    assert_eq!(hits[0].match_end, 7);
}

#[test]
fn truncates_to_max() {
    let line = r#"{"type":"match","data":{"path":{"text":"/r/a.txt"},"lines":{"text":"x"},"line_number":1,"submatches":[{"start":0,"end":1}]}}"#;
    let many: String = (0..5).map(|_| line).collect::<Vec<_>>().join("\n");
    let hits = parse_rg_json(many.as_bytes(), "/r", 3).ok().unwrap();
    assert_eq!(hits.len(), 3);
}

#[test]
fn parts_of_a_hit_may_stand_in_a_list() {
    let hits = |row: &str| parse_rg_json(row.as_bytes(), "/r", 3).ok().unwrap();
    let found = hits(r#"["match",[["/r/a.txt"],7,["x\n"],[[2,5],{"start":6,"end":7}]]]"#);
    assert_eq!(found.len(), 1);
    assert_eq!(found[0].path, "a.txt");
    assert_eq!(found[0].line_number, 7);
    assert_eq!(found[0].line, "x");
    assert_eq!((found[0].match_start, found[0].match_end), (2, 5));
    // The last part of a list may be missing; the first ones may not.
    let found = hits(r#"{"type":"match","data":[[],7,[null]]}"#);
    assert_eq!(found.len(), 1);
    assert_eq!((found[0].path.as_str(), found[0].line.as_str()), ("", ""));
    assert!(hits(r#"["match",[["/r/a.txt"],7]]"#).is_empty());
    // A list with too many parts is no record.
    assert!(hits(r#"["match",[["/r/a.txt"],7,["x"],[]],1]"#).is_empty());
    assert!(hits(r#"["match",[["/r/a.txt",1],7,["x"],[]]]"#).is_empty());
    assert!(hits(r#"["match",[["/r/a.txt"],7,["x"],[[1,2,3]]]]"#).is_empty());
    assert!(hits(r#"["match",[["/r/a.txt"],7,["x"],[],0]]"#).is_empty());
    assert!(hits(r#"["begin",[["/r/a.txt"],7,["x"],[]]]"#).is_empty());
    assert!(hits(r#"["match"]"#).is_empty());
    assert!(hits(r#"["match",null]"#).is_empty());
}

#[test]
fn output_of_a_search_must_be_text() {
    assert!(parse_rg_json(&[0xff, 0xfe], "/r", 3).is_err());
    assert_eq!(relativize("/r/a", "/r/"), "a");
    assert_eq!(relativize("./a", "/r"), "a");
    assert_eq!(relativize("/r", "/r"), "");
    assert_eq!(relativize("/other/a", "/r"), "/other/a");
}

#[test]
fn every_byte_survives_base64() {
    let all: Vec<u8> = (0..=255).collect();
    assert_eq!(base64_decode(&base64_encode(&all)), all);
    assert_eq!(base64_decode("!Zm#9v"), b"foo");
    assert_eq!(strip_whitespace(b" Zm\n9v\t"), "Zm9v");
}

#[test]
fn guard_tells_why() {
    assert_eq!(check_no_escape_syntax("a/b"), Ok(()));
    assert_eq!(check_no_escape_syntax("/a"), Err(GuardError::Absolute));
    assert_eq!(check_no_escape_syntax("a/.."), Err(GuardError::Climbs));
    assert_eq!(join_within_root_remote("srv/", "/a").unwrap(), "srv/a");
}

#[test]
fn local_path_is_resolved_below_the_root() {
    let root = Some("/real".to_string());
    assert_eq!(local_candidate("/real", "/a"), "/real/a");
    let inside = Some("/real/a".to_string());
    assert_eq!(
        join_within_root_local("/r", "a", &root, &inside),
        Ok("/real/a".to_string())
    );
    let outside = Some("/realm/a".to_string());
    assert_eq!(
        join_within_root_local("/r", "a", &root, &outside),
        Err(GuardError::Outside)
    );
    assert_eq!(
        join_within_root_local("/r", "a", &root, &None),
        Ok("/real/a".to_string())
    );
    assert_eq!(
        join_within_root_local("/r", "a", &None, &None),
        Err(GuardError::UnresolvedRoot)
    );
    assert_eq!(
        join_within_root_local("r", "a", &root, &None),
        Err(GuardError::RelativeRoot)
    );
    assert_eq!(
        join_within_root_local("/r", "../a", &root, &None),
        Err(GuardError::Climbs)
    );
}

#[test]
fn names_tell_the_kind() {
    assert_eq!(guess_image_mime("a.JPG").as_deref(), Some("image/jpeg"));
    assert_eq!(guess_image_mime("a.txt"), None);
    assert_eq!(guess_language("a.rs").as_deref(), Some("rs"));
    assert_eq!(classify_path("a.PNG"), PathCategory::Image);
    assert_eq!(classify_path(".png"), PathCategory::Text);
}

#[test]
fn directories_are_listed_first() {
    let entries = vec![
        DirEntry {
            name: "b".into(),
            kind: EntryKind::File { size: Some(3) },
        },
        DirEntry {
            name: "a".into(),
            kind: EntryKind::File { size: None },
        },
        DirEntry {
            name: "z".into(),
            kind: EntryKind::Dir,
        },
        DirEntry {
            name: "y".into(),
            kind: EntryKind::LinkToDir,
        },
    ];
    let nodes = list_local("sub", &entries);
    let names: Vec<&str> = nodes.iter().map(|n| n.name.as_str()).collect();
    assert_eq!(names, vec!["y", "z", "a", "b"]);
    assert_eq!(nodes[2].path, "sub/a");
    assert_eq!(nodes[3].size, Some(3));
}

#[test]
fn downloads_get_a_free_name() {
    let at = |n| unique_download_path("/home/me", "dir/a.tar.gz", n);
    assert_eq!(at(0).as_deref(), Some("/home/me/Downloads/a.tar.gz"));
    assert_eq!(at(1).as_deref(), Some("/home/me/Downloads/a.tar (1).gz"));
    assert_eq!(at(999).as_deref(), Some("/home/me/Downloads/a.tar (999).gz"));
    assert_eq!(at(1000), None);
    assert_eq!(
        unique_download_path("/home/me", ".env", 2).as_deref(),
        Some("/home/me/Downloads/.env (2)")
    );
    assert_eq!(
        unique_download_path("/home/me", "..", 0).as_deref(),
        Some("/home/me/Downloads/download")
    );
}

#[test]
fn local_text_is_shown_in_steps() {
    let src = local();
    let opts = PreviewOpts {
        text_limit: 4,
        image_limit: 4,
        pdf_limit: 4,
    };
    let meta = |size| LocalRead::Meta {
        is_dir: false,
        size,
    };
    let bytes = |data: &[u8], total| LocalRead::Bytes {
        data: data.to_vec(),
        total,
    };
    let at = src.read_preview("a.rs", &opts, PreviewStep::Size, meta(6)).ok().unwrap();
    assert!(matches!(at, PreviewStep::Head { size: 6 }));
    let at = src.read_preview("a.rs", &opts, at, bytes(b"abcd", 6)).ok().unwrap();
    assert!(matches!(at, PreviewStep::Body { size: 6 }));
    match src.read_preview("a.rs", &opts, at, bytes(b"abcd", 6)).ok().unwrap() {
        PreviewStep::Done(Preview::Text {
            content,
            language,
            truncated,
            size,
        }) => {
            assert_eq!(content, "abcd");
            assert_eq!(language.as_deref(), Some("rs"));
            assert!(truncated);
            assert_eq!(size, 6);
        }
        other => panic!("{other:?}"),
    }
    let dir = LocalRead::Meta {
        is_dir: true,
        size: 0,
    };
    assert_eq!(
        src.read_preview("a", &opts, PreviewStep::Size, dir).err(),
        Some(PreviewError::Directory)
    );
    let at = src.read_preview("a.png", &opts, PreviewStep::Size, meta(5)).ok().unwrap();
    assert!(matches!(
        at,
        PreviewStep::Done(Preview::TooLarge { size: 5, limit: 4 })
    ));
    let at = src.read_preview("a.png", &opts, PreviewStep::Size, meta(3)).ok().unwrap();
    match src.read_preview("a.png", &opts, at, bytes(b"foo", 3)).ok().unwrap() {
        PreviewStep::Done(Preview::Image { mime, base64, .. }) => {
            assert_eq!(mime, "image/png");
            assert_eq!(base64, "Zm9v");
        }
        other => panic!("{other:?}"),
    }
    let at = PreviewStep::Head { size: 2 };
    let at = src.read_preview("a", &opts, at, bytes(b"a\0", 2)).ok().unwrap();
    assert!(matches!(at, PreviewStep::Done(Preview::Binary { .. })));
}

#[test]
fn remote_file_is_shown_like_a_local_one() {
    let src = remote(false);
    let opts = PreviewOpts::default();
    let at = src.read_preview("a.md", &opts, PreviewStep::Size, b"3\n").ok().unwrap();
    assert!(matches!(at, PreviewStep::Body { size: 3 }));
    match src.read_preview("a.md", &opts, at, b"Zm9v\n").ok().unwrap() {
        PreviewStep::Done(Preview::Markdown {
            content, truncated, ..
        }) => {
            assert_eq!(content, "foo");
            assert!(!truncated);
        }
        other => panic!("{other:?}"),
    }
    assert_eq!(
        src.read_preview("a.md", &opts, PreviewStep::Size, b"x\n").err(),
        Some(PreviewError::BadSize)
    );
    let head = src
        .preview_command("a b.md", &opts, &PreviewStep::Head { size: 3 })
        .ok()
        .unwrap();
    assert_eq!(
        head.as_deref(),
        Some("head -c 8192 -- '/srv/app/a b.md' | base64")
    );
    let done = PreviewStep::Done(Preview::Binary {
        size: 1,
        mime: None,
    });
    assert!(src.preview_command("a", &opts, &done).ok().unwrap().is_none());
    assert!(src
        .preview_command("../a", &opts, &PreviewStep::Size)
        .is_err());
}

#[test]
fn remote_commands_go_through_the_shared_connection() {
    let own = remote(false).ssh_exec("true");
    assert!(own.iter().any(|a| a.starts_with("ControlPath=")));
    assert_eq!(own[own.len() - 2..], v(&["box", "true"])[..]);
    let users = remote(true).ssh_exec("true");
    assert_eq!(users, v(&["-T", "-o", "BatchMode=yes", "box", "true"]));
    assert_eq!(
        remote(true).master_check(),
        v(&["-O", "check", "box"])
    );
    assert!(remote(true).control_path_args().is_empty());
    let said = |success, stderr: &str| RemoteRun::Ended {
        success,
        stdout: Vec::new(),
        stderr: stderr.as_bytes().to_vec(),
    };
    let src = remote(true);
    assert!(src.ensure_master(&said(false, "Master running (pid=1)")).is_ok());
    assert!(matches!(
        src.ensure_master(&said(false, "no")),
        Err(RemoteError::NotConnected)
    ));
    assert!(matches!(
        src.ensure_master(&RemoteRun::NotStarted),
        Err(RemoteError::NotStarted)
    ));
    match RemoteFileSource::output(said(false, " bad \n")) {
        Err(RemoteError::Failed(e)) => assert_eq!(e, "bad"),
        _ => panic!("a failed command has no output"),
    }
    assert!(src.list_command("sub").ok().unwrap().starts_with("cd '/srv/app/sub' && find ."));
    assert!(src.stat_command_for("a").ok().unwrap().starts_with("stat -c '%s' -- '/srv/app/a'"));
}

#[test]
fn roots_are_checked() {
    assert!(matches!(
        RemoteFileSource::new("box".into(), " ".into(), Some(true)),
        Err(SourceError::BlankDirectory)
    ));
    assert!(matches!(
        LocalFileSource::new("/app", None),
        Err(SourceError::UnresolvedRoot)
    ));
    assert!(matches!(
        LocalFileSource::new("app", Some("/app".into())),
        Err(SourceError::RelativeRoot)
    ));
}

#[test]
fn remote_stat_reads_size_and_head() {
    let meta = RemoteFileSource::stat(b"3\nZm9v\n").ok().unwrap();
    assert_eq!(meta.size, 3);
    assert!(!meta.is_binary);
    assert!(RemoteFileSource::stat(b"1\nAA==\n").ok().unwrap().is_binary);
    assert_eq!(RemoteFileSource::stat(b"").err(), Some(StatError::Empty));
    assert_eq!(RemoteFileSource::stat(b"x\n").err(), Some(StatError::BadSize));
    assert!(LocalFileSource::stat(1, &Some(vec![0])).is_binary);
    assert!(!LocalFileSource::stat(1, &None).is_binary);
    let nodes = remote(true).list_directory("", b"f\t1\ta\nd\t2\tb\n");
    assert_eq!(nodes[0].name, "b");
}

#[test]
fn searches_name_their_command() {
    let glob = Some("*.rs".to_string());
    let cmd = local().search("fn", &glob).unwrap();
    assert_eq!(cmd.program, "rg");
    assert_eq!(
        cmd.args,
        v(&[
            "--json",
            "--max-count",
            "20",
            "--max-columns",
            "300",
            "-S",
            "--glob",
            "*.rs",
            "--",
            "fn",
            "/srv/app"
        ])
    );
    assert!(local().search("  ", &None).is_none());
    let cmd = remote(true).search("it's", &None).unwrap();
    assert_eq!(cmd.program, "ssh");
    assert!(cmd.args.last().unwrap().ends_with(" -- 'it'\\''s' ."));
    let none = RgRun {
        success: false,
        code: Some(1),
        stdout: Vec::new(),
        stderr: Vec::new(),
    };
    let opts = SearchOpts::default();
    assert_eq!(local().search_result(none, &opts).ok().unwrap().len(), 0);
    let bad = RgRun {
        success: false,
        code: Some(2),
        stdout: Vec::new(),
        stderr: b"bad".to_vec(),
    };
    assert!(matches!(
        local().search_result(bad, &opts),
        Err(SearchError::Failed(_))
    ));
    let garbled = RgRun {
        success: true,
        code: Some(0),
        stdout: vec![0xff],
        stderr: Vec::new(),
    };
    assert!(matches!(
        local().search_result(garbled, &opts),
        Err(SearchError::NotText)
    ));
    let said = |stderr: &str| RemoteRun::Ended {
        success: false,
        stdout: Vec::new(),
        stderr: stderr.as_bytes().to_vec(),
    };
    assert!(matches!(
        remote(true).search_result(said("sh: rg: not found"), &opts),
        Err(SearchError::NoRipgrep)
    ));
    assert!(matches!(
        remote(true).search_result(said("other"), &opts),
        Err(SearchError::NotRun(_))
    ));
    assert!(matches!(
        remote(true).search_result(RemoteRun::NotStarted, &opts),
        Err(SearchError::NotStarted)
    ));
}

#[test]
fn copies_name_their_command() {
    let cmd = local().copy_into("/a", "/srv/app/sub");
    assert_eq!(cmd.program, "cp");
    assert_eq!(cmd.args, v(&["-aR", "--", "/a", "/srv/app/sub"]));
    let cmd = remote(true).copy_into("/a", "/srv/app/sub/");
    assert_eq!(cmd.program, "rsync");
    assert_eq!(cmd.args.last().unwrap(), "box:/srv/app/sub/");
    let cmd = remote(false).download_to("/srv/app/a", "/home/me/a");
    assert!(cmd.args[3].contains("ControlPath="));
    assert_eq!(cmd.args[5..], v(&["box:/srv/app/a", "/home/me/a"])[..]);
}

#[test]
fn copies_are_summed_up() {
    let runs = vec![
        CopyRun::Done,
        CopyRun::Failed {
            status: "exit status: 1".into(),
            stderr: " ".into(),
        },
        CopyRun::NotStarted("gone".into()),
    ];
    let s = summarize_copy("cp", &v(&["/a", "/b", "/c"]), &runs, "sub");
    assert_eq!(s.copied, 1);
    assert_eq!(s.dest_rel, "sub");
    assert_eq!(s.failed[0].source, "/b");
    assert_eq!(s.failed[0].error, "cp 失敗 (status=exit status: 1)");
    assert_eq!(s.failed[1].error, "cp 起動失敗: gone");
    assert_eq!(check_download("cp", &runs[0]), Ok(()));
    assert_eq!(
        check_download("cp", &runs[1]),
        Err("cp 失敗: status=exit status: 1".to_string())
    );
    assert_eq!(
        check_download("cp", &runs[2]),
        Err("cp の起動に失敗しました".to_string())
    );
}

#[test]
fn source_follows_the_instance() {
    let dir = || Some("/srv".to_string());
    let host = || Some("box".to_string());
    match make_source(InstanceKind::Remote, dir(), host(), Some("/other".into())) {
        Ok(SourceChoice::Remote { alias, root }) => {
            assert_eq!(alias, "box");
            assert_eq!(root, "/other");
        }
        other => panic!("{other:?}"),
    }
    match make_source(InstanceKind::Local, dir(), host(), Some(" ".into())) {
        Ok(SourceChoice::Local { root }) => assert_eq!(root, "/srv"),
        other => panic!("{other:?}"),
    }
    assert_eq!(
        make_source(InstanceKind::Local, None, None, None).err(),
        Some(SourceError::NoDirectory)
    );
    assert_eq!(
        make_source(InstanceKind::Local, Some(" ".into()), None, None).err(),
        Some(SourceError::BlankDirectory)
    );
    assert_eq!(
        make_source(InstanceKind::Remote, dir(), None, None).err(),
        Some(SourceError::NoHost)
    );
}
