use std::path::{Component, Path};

use ccc::archive::compress::{text_of_bytes, CodecError};
use ccc::archive::dicts::{train, DictError};
use ccc::bytes::{lossy_text, part, text_of};
use ccc::cli::memory::{validate_restore_dest, MemoryError};
use ccc::cli::ssh::{cmd_heal, read_request, Request};
use ccc::explorer::listing::{list_local, DirEntry, EntryKind};
use ccc::explorer::preview::{preview_local, LocalRead, PreviewStep};
use ccc::explorer::types::{Preview, PreviewOpts};
use ccc::hook_receiver::events::HookEventKind;
use ccc::hook_setup::binary::{Platform, PlatformError};
use ccc::hook_setup::settings_json::{read_settings, SettingsError};
use ccc::json::{parse, Json};
use ccc::number::{
    parse_i64, parse_u16, parse_u32, parse_u64, show_hex, show_i64, show_padded, show_u64,
};
use ccc::order::{is_text_before, reversed, sorted_texts};
use ccc::pathname::{
    begins_at_root, join_path, path_components, path_extension, path_file_name, split_name,
};
use ccc::split::{
    contains, contains_char, ends_with, join, lines, replace_char, rsplit_once, rsplit_once_str,
    split, split_once, split_once_str, starts_with, strip_prefix, words,
};
use ccc::sshkit::heal::HealOutcome;
use ccc::text::{
    chars_of, copy_first, in_list, is_blank, is_white, lower_char, pad_left, pad_right, same,
    same_opt, string_of, to_lower, trim, trim_end_char, trim_start_char,
};

const TEXTS: &[&str] = &[
    "",
    " ",
    "/",
    "//",
    "a",
    "a/b",
    "/a//b/",
    "./a/.",
    "../a",
    "a/..",
    ".b",
    "a.b.c",
    "a.",
    "a\nb\r\n\nc",
    "\n",
    "  会議 で\u{3000}x\t",
    "ÄÖ ab",
    "x-y-z",
    "~/w",
    "a:b:c",
];

#[test]
fn every_white_character_is_known() {
    for n in 0..=0x10ffffu32 {
        if let Some(c) = char::from_u32(n) {
            assert_eq!(is_white(c), c.is_whitespace(), "{n:x}");
            assert_eq!(lower_char(c), c.to_ascii_lowercase());
        }
    }
}

#[test]
fn texts_are_cut_as_the_standard_library_does() {
    for s in TEXTS {
        assert_eq!(trim(s), s.trim());
        assert_eq!(is_blank(s), s.trim().is_empty());
        assert_eq!(trim_end_char(s, '/'), s.trim_end_matches('/'));
        assert_eq!(trim_start_char(s, '/'), s.trim_start_matches('/'));
        assert_eq!(to_lower(s), s.to_ascii_lowercase());
        assert_eq!(lines(s), s.lines().collect::<Vec<_>>());
        assert_eq!(words(s), s.split_whitespace().collect::<Vec<_>>());
        assert_eq!(pad_left(s, 6), format!("{s:>6}"));
        assert_eq!(pad_right(s, 6), format!("{s:<6}"));
        assert_eq!(chars_of(s), s.chars().collect::<Vec<_>>());
        for c in ['/', '.', 'a', '\n', '-', ':'] {
            assert_eq!(split(s, c), s.split(c).collect::<Vec<_>>());
            let pair = |p: Option<(&str, &str)>| p.map(|(a, b)| (a.to_string(), b.to_string()));
            assert_eq!(split_once(s, c), pair(s.split_once(c)));
            assert_eq!(rsplit_once(s, c), pair(s.rsplit_once(c)));
            assert_eq!(contains_char(s, c), s.contains(c));
            assert_eq!(replace_char(s, c, "<>"), s.replace(c, "<>"));
        }
        for p in ["", "a", "/", "a/", "./", "b"] {
            assert_eq!(starts_with(s, p), s.starts_with(p));
            assert_eq!(ends_with(s, p), s.ends_with(p));
            assert_eq!(contains(s, p), s.contains(p));
            assert_eq!(strip_prefix(s, p).as_deref(), s.strip_prefix(p));
            if !p.is_empty() {
                let pair = |x: Option<(&str, &str)>| x.map(|(a, b)| (a.to_string(), b.to_string()));
                assert_eq!(split_once_str(s, p), pair(s.split_once(p)));
                assert_eq!(rsplit_once_str(s, p), pair(s.rsplit_once(p)));
            }
        }
        for t in TEXTS {
            assert_eq!(same(s, t), s == t);
            assert_eq!(is_text_before(s, t), s < t);
        }
    }
    let v: Vec<String> = TEXTS.iter().map(|s| s.to_string()).collect();
    assert_eq!(join(&v, ", "), TEXTS.join(", "));
    assert!(in_list(&v, "a/b") && !in_list(&v, "b/a"));
    let sorted: std::collections::BTreeSet<String> = v.iter().cloned().collect();
    assert_eq!(sorted_texts(&v), sorted.into_iter().collect::<Vec<_>>());
    assert_eq!(reversed(vec![1, 2, 3]), vec![3, 2, 1]);
    assert_eq!(string_of(&chars_of("会議で"), 1, 3), "議で");
    assert_eq!(copy_first(&None, &Some("b".into())).as_deref(), Some("b"));
    assert!(same_opt(&None, &None) && !same_opt(&Some("".into()), &None));
}

#[test]
fn paths_are_read_as_the_standard_library_does() {
    for s in TEXTS {
        let p = Path::new(s);
        assert_eq!(begins_at_root(s), p.is_absolute());
        let parts: Vec<String> = p
            .components()
            .filter(|c| !matches!(c, Component::RootDir | Component::CurDir))
            .map(|c| c.as_os_str().to_string_lossy().to_string())
            .collect();
        assert_eq!(path_components(s), parts, "{s}");
        let name = p.file_name().map(|n| n.to_string_lossy().to_string());
        assert_eq!(path_file_name(s), name, "{s}");
        let ext = p.extension().map(|n| n.to_string_lossy().to_string());
        assert_eq!(path_extension(s), ext, "{s}");
        for t in TEXTS {
            assert_eq!(join_path(s, t), p.join(t).to_string_lossy());
        }
    }
    assert_eq!(split_name("a.tar.gz"), ("a.tar".into(), Some("gz".into())));
    assert_eq!(split_name(".profile"), (".profile".into(), None));
}

#[test]
fn numbers_are_read_and_shown() {
    for s in [
        "", "0", "+7", "-7", "-0", "00012", "65535", "65536", "4294967295", "4294967296",
        "18446744073709551615", "18446744073709551616", "9223372036854775807",
        "-9223372036854775808", "-9223372036854775809", "1 ", "x", "+", "-", "１",
    ] {
        assert_eq!(parse_u16(s), s.parse().ok(), "{s}");
        assert_eq!(parse_u32(s), s.parse().ok(), "{s}");
        assert_eq!(parse_u64(s), s.parse().ok(), "{s}");
        assert_eq!(parse_i64(s), s.parse().ok(), "{s}");
    }
    for n in [0u64, 1, 9, 10, 12345, u64::MAX] {
        assert_eq!(show_u64(n), n.to_string());
        assert_eq!(show_padded(n, 4), format!("{n:04}"));
    }
    for n in [0i64, -1, 42, i64::MAX, i64::MIN] {
        assert_eq!(show_i64(n), n.to_string());
    }
    assert_eq!(show_hex(&[0, 0x0f, 0xa0, 0xff], 3), "000fa0");
}

#[test]
fn bytes_become_text() {
    assert_eq!(text_of("会議".into()).as_deref(), Some("会議"));
    assert_eq!(text_of(vec![0xff]), None);
    assert_eq!(lossy_text(b"a\xffb"), "a\u{fffd}b");
    assert_eq!(part(b"abcd", 1, 3), b"bc");
    assert_eq!(text_of_bytes(Some(vec![0xff])), Err(CodecError::NotUtf8));
    assert_eq!(text_of_bytes(None), Err(CodecError::Decompress));
}

#[test]
fn refusals_tell_why() {
    let tiny: Vec<Vec<u8>> = vec![vec![1]];
    assert_eq!(train(&tiny, 8).err(), Some(DictError::Train));
    assert!(matches!(
        validate_restore_dest("/r", "p", "../x"),
        Err(MemoryError::Escapes)
    ));
    assert!(matches!(
        validate_restore_dest("/r", "p", "a/.credentials.json"),
        Err(MemoryError::Credentials)
    ));
    assert!(matches!(
        Platform::from_uname("garbage"),
        Err(PlatformError::Malformed)
    ));
    match Platform::from_uname("FreeBSD amd64") {
        Err(PlatformError::Unsupported { os, arch }) => assert_eq!((os, arch), ("FreeBSD".into(), "amd64".into())),
        _ => panic!("no binary for this system"),
    }
    assert!(matches!(
        Platform::host("plan9", "mips"),
        Err(PlatformError::UnsupportedHost)
    ));
    assert_eq!(
        read_settings(&Some("{".into())).err(),
        Some(SettingsError::NotJson)
    );
    assert!(matches!(read_request(&Vec::new()), Request::Help));
    assert_eq!(cmd_heal(Some(HealOutcome::Indeterminate)), 0);
    assert_eq!(cmd_heal(Some(HealOutcome::NeedsMasterRebuild)), 1);
}

#[test]
fn every_kind_of_entry_is_listed() {
    let entry = |name: &str, kind| DirEntry {
        name: name.into(),
        kind,
    };
    let nodes = list_local(
        "d/",
        &vec![
            entry("f", EntryKind::LinkToFile { size: 3 }),
            entry("gone", EntryKind::Unknown),
            entry("pipe", EntryKind::LinkToOther),
            entry("sub", EntryKind::LinkToDir),
        ],
    );
    let shown: Vec<_> = nodes
        .iter()
        .map(|n| (n.path.as_str(), n.is_dir, n.size))
        .collect();
    assert_eq!(
        shown,
        vec![
            ("d/sub", true, None),
            ("d/f", false, Some(3)),
            ("d/pipe", false, None)
        ]
    );
}

#[test]
fn documents_are_shown_whole() {
    let opts = PreviewOpts::default();
    let meta = LocalRead::Meta {
        is_dir: false,
        size: 3,
    };
    let at = preview_local("a.pdf", &opts, PreviewStep::Size, meta).ok().unwrap();
    assert!(matches!(at, PreviewStep::Whole { size: 3 }));
    let bytes = LocalRead::Bytes {
        data: b"pdf".to_vec(),
        total: 3,
    };
    match preview_local("a.pdf", &opts, at, bytes).ok().unwrap() {
        PreviewStep::Done(Preview::Pdf { base64, size }) => {
            assert_eq!(base64, "cGRm");
            assert_eq!(size, 3);
        }
        other => panic!("{other:?}"),
    }
}

#[test]
fn every_event_has_its_name() {
    for (name, kind) in [
        ("UserPromptSubmit", HookEventKind::UserPromptSubmit),
        ("PreToolUse", HookEventKind::PreToolUse),
        ("PostToolUse", HookEventKind::PostToolUse),
        ("Notification", HookEventKind::Notification),
        ("StopFailure", HookEventKind::StopFailure),
    ] {
        assert_eq!(HookEventKind::from_str(name), kind);
        assert_eq!(kind.name(), name);
    }
    assert!(matches!(parse("true"), Some(Json::Bool(true))));
    assert!(matches!(parse("7"), Some(Json::Number(_))));
}
