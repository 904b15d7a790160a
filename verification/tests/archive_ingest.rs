use ccc::archive::hooks::{
    encode_payload, record_event, record_instance_start, record_session_start, InstanceMeta, Seen,
};
use ccc::archive::compress::decode_blob_to_string;
use ccc::archive::fts::{tokens_to_emit, Segmented};
use ccc::archive::lexicon::Token;
use ccc::archive::ingest::{
    ingest_file, open_batch, read_last_ai_title, read_start_cwd, repair_session_ai_title,
    repair_session_start_cwd, start_offset, Batch, Ingested, Known, SessionFields,
};
use ccc::archive::memory::MemoryStats;
use ccc::archive::scan::{collect_session_ids, ingest_pulled, is_transcript, scan_projects};
use ccc::archive::schema::{
    migrate, upgrade_compression_dicts_to_v4, Columns, OldDict, Step, SCHEMA_VERSION,
};
use ccc::archive::sync::{
    apply_remote_attribution, check_rsync, infer_attribution, normalize_dir, pull_profile,
    pull_session, staging_profile_dir, Candidate, Origin, RsyncError, RsyncRun,
};
use ccc::archive::transcript::{derive_project, is_noise_prompt, truncate};
use ccc::calendar::{civil_from_days, days_from_civil, fmt_ts, iso8601_to_unix_ms};
use ccc::json::parse;

fn v(args: &[&str]) -> Vec<String> {
    args.iter().map(|s| s.to_string()).collect()
}

fn some(s: &str) -> Option<String> {
    Some(s.to_string())
}

fn fresh() -> SessionFields {
    SessionFields {
        cwd: None,
        project: None,
        summary: None,
    }
}

fn batch(lines: &[&str]) -> Batch {
    let mut text = String::new();
    for l in lines {
        text.push_str(l);
        text.push('\n');
    }
    open_batch(text.as_bytes(), 0)
}

fn take(b: &Batch, known: &Vec<Known>, stored: Vec<SessionFields>) -> Ingested {
    ingest_file(b, known, &stored, None).ok().unwrap()
}

fn first_take(b: &Batch) -> Ingested {
    let stored = b.metas.iter().map(|_| fresh()).collect();
    take(b, &Vec::new(), stored)
}

#[test]
fn iso8601_known_value() {
    assert_eq!(
        iso8601_to_unix_ms("2026-05-25T02:08:56.883Z"),
        Some(1779674936883)
    );
    assert_eq!(iso8601_to_unix_ms("1970-01-01T00:00:00.000Z"), Some(0));
}

#[test]
fn days_and_dates_agree() {
    assert_eq!(days_from_civil(1970, 1, 1), 0);
    assert_eq!(civil_from_days(0), (1970, 1, 1));
    assert_eq!(days_from_civil(2000, 3, 1), 11017);
    for z in [-800000, -1, 59, 60, 11016, 20598, 400000] {
        let (y, m, d) = civil_from_days(z);
        assert_eq!(days_from_civil(y, m, d), z as i128);
    }
    assert_eq!(fmt_ts(1779674936883), "2026-05-25 02:08");
    assert_eq!(iso8601_to_unix_ms("2026-05-25"), None);
}

#[test]
fn batch_is_taken_in() {
    let b = batch(&[
        r#"{"type":"user","sessionId":"s1","uuid":"u1","timestamp":"2026-05-25T02:00:00.000Z","cwd":"/Users/h/mydocs/ccc","message":{"role":"user","content":"設計をレビューして"}}"#,
        r#"{"type":"assistant","sessionId":"s1","uuid":"a1","parentUuid":"u1","timestamp":"2026-05-25T02:00:05.000Z","message":{"content":[{"type":"thinking","thinking":"..."},{"type":"text","text":"会議の結論をまとめます"},{"type":"tool_use","name":"Write","input":{}}]}}"#,
        r#"{"type":"ai-title","sessionId":"s1","aiTitle":"設計レビュー"}"#,
    ]);
    let got = first_take(&b);
    assert_eq!(got.rows.len(), 2);
    assert_eq!(got.rows[0].seq, 0);
    assert_eq!(got.rows[1].seq, 1);
    let s = &got.sessions[0];
    assert_eq!(s.cwd.as_deref(), Some("/Users/h/mydocs/ccc"));
    assert_eq!(s.project.as_deref(), Some("ccc"));
    assert_eq!(s.summary.as_deref(), Some("設計レビュー"));
    let m = b.lines[1].message.as_ref().unwrap();
    assert_eq!(m.msg_type, "text");
    assert_eq!(m.tool_name.as_deref(), Some("Write"));
    assert_eq!(m.ts, Some(1779674405000));
    assert_eq!(
        decode_blob_to_string(&got.rows[1].raw_zstd).unwrap(),
        b.lines[1].raw
    );
}

#[test]
fn summary_skips_noise_prompts() {
    let b = batch(&[
        r#"{"type":"user","sessionId":"s4","uuid":"u1","timestamp":"2026-05-25T02:00:00.000Z","message":{"role":"user","content":"<local-command-caveat>Caveat: ...</local-command-caveat>"}}"#,
        r#"{"type":"user","sessionId":"s4","uuid":"u2","timestamp":"2026-05-25T02:00:01.000Z","message":{"role":"user","content":"設計をレビューして"}}"#,
    ]);
    let got = first_take(&b);
    assert_eq!(got.sessions[0].summary.as_deref(), Some("設計をレビューして"));
    assert!(is_noise_prompt("<local-command-stdout></local-command-stdout>"));
    assert!(!is_noise_prompt("hello"));
}

#[test]
fn system_content_extracted_but_pure_meta_has_no_text() {
    let b = batch(&[
        r#"{"type":"system","subtype":"away_summary","sessionId":"s5","uuid":"y1","timestamp":"2026-05-25T02:00:00.000Z","content":"緑背景が出ない問題を修正中"}"#,
        r#"{"type":"system","subtype":"stop_hook_summary","sessionId":"s5","uuid":"y2","timestamp":"2026-05-25T02:00:01.000Z","hookCount":2}"#,
        r#"{"type":"system","subtype":"local_command","sessionId":"s5","uuid":"y3","timestamp":"2026-05-25T02:00:02.000Z","content":"<local-command-stdout></local-command-stdout>"}"#,
    ]);
    assert_eq!(first_take(&b).rows.len(), 3);
    let text = |i: usize| b.lines[i].message.as_ref().unwrap().text.as_deref();
    assert_eq!(text(0), Some("緑背景が出ない問題を修正中"));
    assert_eq!(text(1), None);
    assert_eq!(text(2), None);
}

#[test]
fn ingest_is_incremental_and_idempotent() {
    let line = r#"{"type":"user","sessionId":"s2","uuid":"u1","timestamp":"2026-05-25T02:00:00.000Z","message":{"role":"user","content":"hello"}}"#;
    let more = r#"{"type":"assistant","sessionId":"s2","uuid":"a1","timestamp":"2026-05-25T02:00:05.000Z","message":{"content":[{"type":"text","text":"hi"}]}}"#;
    let b = batch(&[line]);
    assert_eq!(first_take(&b).rows.len(), 1);
    let len = b.new_offset;
    assert_eq!(start_offset(len, len as i64, len as i64), None);
    let known = vec![Known {
        session_id: "s2".into(),
        count: 1,
        span: first_take(&b).totals[0].span,
        uuids: v(&["u1"]),
    }];
    let again = take(&batch(&[line]), &known, vec![fresh()]);
    assert_eq!(again.rows.len(), 0);
    let grown = len + more.len() as u64 + 1;
    assert_eq!(start_offset(grown, len as i64, len as i64), Some(len));
    let next = take(&batch(&[more]), &known, vec![fresh()]);
    assert_eq!(next.rows.len(), 1);
    assert_eq!(next.rows[0].seq, 1);
    assert_eq!(next.totals[0].count, 2);
    assert_eq!(next.totals[0].span.first, known[0].span.first);
    assert_eq!(
        next.totals[0].span.last.unwrap() - next.totals[0].span.first.unwrap(),
        5000
    );
    assert_eq!(again.totals[0].count, 1);
    assert_eq!(start_offset(5, 100, 100), Some(0));
}

#[test]
fn cwd_keeps_session_start_value_across_batches() {
    let first = batch(&[
        r#"{"type":"user","sessionId":"s6","uuid":"u1","timestamp":"2026-05-25T02:00:00.000Z","cwd":"/work/ccc","message":{"role":"user","content":"開始"}}"#,
    ]);
    let got = first_take(&first);
    let second = batch(&[
        r#"{"type":"user","sessionId":"s6","uuid":"u2","timestamp":"2026-05-25T02:10:00.000Z","cwd":"/work/ccc/src-tauri","message":{"role":"user","content":"サブディレクトリで作業"}}"#,
    ]);
    let got = take(&second, &Vec::new(), got.sessions);
    assert_eq!(got.sessions[0].cwd.as_deref(), Some("/work/ccc"));
    assert_eq!(got.sessions[0].project.as_deref(), Some("ccc"));
}

#[test]
fn repair_fixes_overwritten_cwd() {
    let line = r#"{"type":"user","sessionId":"s7","uuid":"u1","timestamp":"2026-05-25T02:00:00.000Z","cwd":"/work/ccc","message":{"role":"user","content":"開始"}}"#;
    let (id, cwd) = read_start_cwd(line.as_bytes(), &some("s7")).unwrap();
    assert_eq!(id, "s7");
    let stored = SessionFields {
        cwd: some("/work/ccc/src-tauri"),
        project: some("src-tauri"),
        summary: None,
    };
    let mended = repair_session_start_cwd(&stored, &cwd).unwrap();
    assert_eq!(mended.cwd.as_deref(), Some("/work/ccc"));
    assert_eq!(mended.project.as_deref(), Some("ccc"));
    assert!(repair_session_start_cwd(&mended, &cwd).is_none());
}

#[test]
fn partial_last_line_is_held_until_complete() {
    let line = r#"{"type":"user","sessionId":"s3","uuid":"u1","timestamp":"2026-05-25T02:00:00.000Z","message":{"content":"x"}}"#;
    let b = open_batch(line.as_bytes(), 7);
    assert_eq!(b.lines.len(), 0);
    assert_eq!(b.new_offset, 7);
    let whole = format!("{line}\n");
    let b = open_batch(whole.as_bytes(), 7);
    assert_eq!(first_take(&b).rows.len(), 1);
    assert_eq!(b.new_offset, 7 + whole.len() as u64);
}

#[test]
fn ai_title_in_later_batch_overwrites_first_user_summary() {
    let first = batch(&[
        r#"{"type":"user","sessionId":"s-late-title","uuid":"u1","timestamp":"2026-05-25T02:00:00.000Z","message":{"role":"user","content":"設計をレビューして"}}"#,
    ]);
    let got = first_take(&first);
    assert_eq!(got.sessions[0].summary.as_deref(), Some("設計をレビューして"));
    let second = batch(&[
        r#"{"type":"ai-title","sessionId":"s-late-title","aiTitle":"設計レビュー"}"#,
    ]);
    let got = take(&second, &Vec::new(), got.sessions);
    assert_eq!(got.sessions[0].summary.as_deref(), Some("設計レビュー"));
}

#[test]
fn repair_backfills_ai_title_from_transcript() {
    let file = concat_lines(&[
        r#"{"type":"user","sessionId":"s-stuck","uuid":"u1","timestamp":"2026-05-25T02:00:00.000Z","message":{"role":"user","content":"設計をレビューして"}}"#,
        r#"{"type":"ai-title","sessionId":"s-stuck","aiTitle":"設計レビュー"}"#,
    ]);
    let (id, title) = read_last_ai_title(file.as_bytes(), &None).unwrap();
    assert_eq!(id, "s-stuck");
    let stored = SessionFields {
        cwd: None,
        project: None,
        summary: some("設計をレビューして"),
    };
    let mended = repair_session_ai_title(&stored, &title).unwrap();
    assert_eq!(mended.summary.as_deref(), Some("設計レビュー"));
    assert!(repair_session_ai_title(&mended, &title).is_none());
}

fn concat_lines(lines: &[&str]) -> String {
    lines.iter().map(|l| format!("{l}\n")).collect()
}

#[test]
fn unreadable_rows_are_passed_over() {
    let b = open_batch(b"broken\n\n\xff\xfe\n{\"a\":1}\n", 0);
    assert_eq!(b.lines.len(), 0);
    assert_eq!(b.new_offset, 19);
}

#[test]
fn small_texts_are_derived() {
    assert_eq!(derive_project("/a/b/").as_deref(), Some("b"));
    assert_eq!(derive_project("/"), None);
    assert_eq!(truncate("abc", 2), "ab…");
    assert_eq!(truncate("abc", 3), "abc");
}

fn candidate(id: &str, dir: &str, window: Option<(i64, i64)>) -> Candidate {
    Candidate {
        instance_id: id.into(),
        name: some(id),
        host_alias: some("h"),
        agent_profile: some("p"),
        directory: some(dir),
        window,
    }
}

fn seed_instances() -> Vec<Candidate> {
    vec![candidate("i1", "/work/a", None), candidate("i2", "/work/b", None)]
}

#[test]
fn infer_no_candidates_is_host() {
    let a = infer_attribution(&Vec::new(), "h", "p", Some("/work/a"), Some(100));
    assert_eq!(a.attribution, "host");
    assert!(a.instance_id.is_none() && a.instance_name.is_none());
}

#[test]
fn infer_unique_cwd_is_inferred() {
    let a = infer_attribution(&seed_instances(), "h", "p", Some("/work/a/"), Some(100));
    assert_eq!(a.attribution, "inferred");
    assert_eq!(a.instance_id.as_deref(), Some("i1"));
    assert_eq!(a.instance_name.as_deref(), Some("i1"));
}

#[test]
fn infer_no_cwd_match_is_host() {
    let a = infer_attribution(&seed_instances(), "h", "p", Some("/work/zzz"), Some(100));
    assert_eq!(a.attribution, "host");
}

#[test]
fn infer_time_window_disambiguates_same_cwd() {
    let cs = vec![
        candidate("i1", "/work/a", Some((0, 50))),
        candidate("i2", "/work/a", Some((100, 200))),
    ];
    let a = infer_attribution(&cs, "h", "p", Some("/work/a"), Some(150));
    assert_eq!(a.attribution, "inferred");
    assert_eq!(a.instance_id.as_deref(), Some("i2"));
    let b = infer_attribution(&cs, "h", "p", Some("/work/a"), Some(99_999_999));
    assert_eq!(b.attribution, "host");
}

fn origin(attribution: Option<&str>) -> Origin {
    Origin {
        kind: None,
        host_alias: None,
        agent_profile: None,
        attribution: attribution.map(|s| s.to_string()),
        instance_id: None,
        instance_name: some("authoritative"),
    }
}

#[test]
fn hook_attribution_is_not_overwritten() {
    let cs = vec![Candidate {
        name: some("other"),
        ..candidate("iX", "/work/a", None)
    }];
    let guess = infer_attribution(&cs, "h", "p", Some("/work/a"), Some(100));
    let o = apply_remote_attribution(&origin(Some("hook")), "h", "p", &guess);
    assert_eq!(o.attribution.as_deref(), Some("hook"));
    assert_eq!(o.instance_name.as_deref(), Some("authoritative"));
    let o = apply_remote_attribution(&origin(None), "h", "p", &guess);
    assert_eq!(o.kind.as_deref(), Some("remote"));
    assert_eq!(o.host_alias.as_deref(), Some("h"));
    assert_eq!(o.attribution.as_deref(), Some("inferred"));
    assert_eq!(o.instance_name.as_deref(), Some("other"));
}

#[test]
fn directories_are_normalised() {
    assert_eq!(normalize_dir("/a/b//"), "/a/b");
    assert_eq!(normalize_dir("///"), "/");
    assert_eq!(normalize_dir(""), "/");
}

#[test]
fn pulls_never_take_credentials() {
    let args = pull_profile("helper", "h", "p", "/stage");
    assert_eq!(args[3], "--exclude=.credentials.json");
    assert!(args.contains(&"--include=HELPER.md".to_string()));
    assert_eq!(args[11], "h:.ccc/agent_settings/helper/p/");
    assert_eq!(args[12], "/stage/");
    let p = pull_session("helper", "h", "p", "/home/u/x/projects/e/s.jsonl", "/stage").unwrap();
    assert_eq!(
        p.file[3],
        "h:.ccc/agent_settings/helper/p/./projects/e/s.jsonl"
    );
    assert_eq!(
        p.dir.unwrap()[3],
        "h:.ccc/agent_settings/helper/p/./projects/e/s/"
    );
    assert!(pull_session("helper", "h", "p", "/tmp/s.jsonl", "/stage").is_none());
    assert_eq!(staging_profile_dir("/r", "h", "p"), "/r/h/p");
}

#[test]
fn ends_of_rsync_are_told_apart() {
    assert_eq!(check_rsync(RsyncRun::Exited(Some(0))), Ok(()));
    assert_eq!(
        check_rsync(RsyncRun::Exited(Some(127))),
        Err(RsyncError::MissingRemote)
    );
    assert_eq!(
        check_rsync(RsyncRun::Exited(Some(23))),
        Err(RsyncError::Failed(Some(23)))
    );
    assert_eq!(
        check_rsync(RsyncRun::Exited(None)),
        Err(RsyncError::Failed(None))
    );
    assert_eq!(check_rsync(RsyncRun::NotFound), Err(RsyncError::MissingLocal));
    assert_eq!(check_rsync(RsyncRun::Failed), Err(RsyncError::NotStarted));
}

#[test]
fn session_start_sets_hook_attribution() {
    let meta = InstanceMeta {
        instance_id: "i1".into(),
        name: some("my-ec2"),
        kind: some("remote"),
        host_alias: some("ec2-training"),
        agent_profile: some("default"),
        directory: some("/home/u/proj"),
    };
    let s = record_session_start(&None, &meta, &some("startup"), 1000);
    assert_eq!(s.instance_name.as_deref(), Some("my-ec2"));
    assert_eq!(s.attribution.as_deref(), Some("hook"));
    assert_eq!(s.kind.as_deref(), Some("remote"));
    assert_eq!(s.cwd.as_deref(), Some("/home/u/proj"));
    assert_eq!(s.project.as_deref(), Some("proj"));
    let none = Seen {
        first: None,
        last: None,
    };
    let seen = record_event(none, 1000);
    assert_eq!((seen.first, seen.last), (Some(1000), Some(1000)));
    let i = record_instance_start(&None, &meta, 1000);
    assert_eq!(i.directory.as_deref(), Some("/home/u/proj"));
    assert_eq!((i.seen.first, i.seen.last), (Some(1000), Some(1000)));
    let z = encode_payload(&parse(r#"{"a":1}"#).unwrap(), None).unwrap();
    assert_eq!(decode_blob_to_string(&z).unwrap(), r#"{"a":1}"#);
}

#[test]
fn span_grows_both_ways() {
    let s = record_event(
        Seen {
            first: Some(10),
            last: Some(20),
        },
        5,
    );
    assert_eq!((s.first, s.last), (Some(5), Some(20)));
    let s = record_event(s, 30);
    assert_eq!((s.first, s.last), (Some(5), Some(30)));
}

fn columns(messages: &[&str], events: &[&str], dicts: &[&str]) -> Columns {
    Columns {
        messages: v(messages),
        events: v(events),
        compression_dicts: v(dicts),
    }
}

#[test]
fn migration_is_idempotent() {
    let current = columns(&["id", "raw_zstd"], &["payload_zstd"], &["kind", "dict_blob"]);
    assert!(migrate(&current).is_empty());
    assert_eq!(SCHEMA_VERSION, 4);
}

#[test]
fn v3_to_v4_keeps_active_dict_and_drops_others() {
    let old = columns(
        &["raw_zstd", "raw_dict_id"],
        &["payload_zstd", "payload_dict_id"],
        &["id", "kind", "dict_blob", "is_active"],
    );
    assert_eq!(
        migrate(&old),
        vec![Step::RebuildDicts, Step::DropRawDictId, Step::DropPayloadDictId]
    );
    let dict = |kind: &str, is_active| OldDict {
        kind: kind.into(),
        is_active,
    };
    let rows = vec![dict("raw", 1), dict("payload", 1), dict("raw", 0)];
    assert_eq!(upgrade_compression_dicts_to_v4(&rows), Ok(vec![0, 1]));
    let twice = vec![dict("raw", 1), dict("raw", 1)];
    assert_eq!(upgrade_compression_dicts_to_v4(&twice), Err(1));
    let first = columns(&["raw"], &[], &[]);
    assert_eq!(migrate(&first), vec![Step::AddRawZstd, Step::AddPayloadZstd]);
}

#[test]
fn directories_of_transcripts_are_summed_up() {
    assert!(is_transcript("/p/e/s1.jsonl"));
    assert!(!is_transcript("/p/e/s1.json"));
    assert!(!is_transcript("/p/e/.jsonl"));
    let ids = collect_session_ids(&v(&["/p/e/s1.jsonl", "/p/e/x.txt", "/p/f/s2.jsonl"]));
    assert_eq!(ids, v(&["s1", "s2"]));
    let scan = scan_projects(&vec![Some(3), None, Some(4)]);
    assert_eq!((scan.files, scan.new_messages), (3, 7));
    let memory = MemoryStats {
        scanned: 2,
        new_versions: 1,
    };
    let p = ingest_pulled(scan, &ids, memory);
    assert_eq!((p.files, p.new_messages, p.sessions, p.memory_new), (3, 7, 2, 1));
}

#[test]
fn index_gets_the_words_that_are_not_empty() {
    let token = |s: &str| Token {
        surface: s.into(),
        byte_start: 0,
        byte_end: s.len(),
    };
    let s = Segmented::Tokens(vec![token("設計"), token(""), token("の")]);
    assert_eq!(tokens_to_emit(&s).ok(), Some(vec![0, 2]));
    assert_eq!(tokens_to_emit(&Segmented::NotText).ok(), Some(Vec::new()));
    assert!(tokens_to_emit(&Segmented::Failed).is_err());
}
