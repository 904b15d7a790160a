use std::borrow::Cow;

use ccc::archive::compress::{
    decode_blob_to_string, decode_blob_to_string_with_dict, encode_str, encode_str_with_dict,
    max_decompress_size, prepare_decoder, prepare_encoder, CodecError,
};
use ccc::archive::dicts::{
    collect_training_samples, invalidate_cache, prepare, read_stored, recompress, retrain_kind,
    table_for, train, DictError, Stored, KIND_PAYLOAD, KIND_RAW,
};
use ccc::archive::strip::{is_empty_thinking, strip_empty_thinking_blocks};
use ccc::digest::sha256_hex;
use ccc::json::{parse, to_pretty, to_text, Json};

const ZSTD_MAGIC: [u8; 4] = [0x28, 0xb5, 0x2f, 0xfd];

#[test]
fn roundtrip_str() {
    let s = "設計のレビューを会議で決めた".repeat(20);
    let z = encode_str(&s).unwrap();
    assert!(z.len() < s.len());
    assert_eq!(decode_blob_to_string(&z).unwrap(), s);
}

#[test]
fn legacy_plain_utf8_is_returned_as_is() {
    let s = b"plain utf-8 line\n";
    assert_eq!(decode_blob_to_string(s).unwrap(), "plain utf-8 line\n");
}

#[test]
fn empty_string_roundtrips() {
    let z = encode_str("").unwrap();
    assert_eq!(&z[..4], &ZSTD_MAGIC);
    assert_eq!(decode_blob_to_string(&z).unwrap(), "");
}

#[test]
fn dict_roundtrip() {
    let samples: Vec<String> = (0..20)
        .map(|i| {
            format!(
                r#"{{"type":"assistant","sessionId":"s{i:02}","message":{{"content":[{{"type":"text","text":"sample {i}"}}]}}}}"#
            )
        })
        .collect();
    let bufs: Vec<&[u8]> = samples.iter().map(|s| s.as_bytes()).collect();
    let dict_blob = zstd::dict::from_samples(&bufs, 4096).unwrap();
    let enc = prepare_encoder(&dict_blob).ok().unwrap();
    let dec = prepare_decoder(&dict_blob).ok().unwrap();

    let target = r#"{"type":"assistant","sessionId":"sXX","message":{"content":[{"type":"text","text":"target"}]}}"#;
    let z = encode_str_with_dict(target, &enc).unwrap();
    let back = decode_blob_to_string_with_dict(&z, &dec).unwrap();
    assert_eq!(back, target);
}

#[test]
fn json_like_payload_compresses_well() {
    let text = "okay, here's the plan: ".to_string() + &"a".repeat(500);
    let line = to_text(&Json::Object(vec![
        ("type".into(), Json::Text("assistant".into())),
        ("sessionId".into(), Json::Text("01J9F0XYZABCDE".into())),
        (
            "message".into(),
            Json::Object(vec![(
                "content".into(),
                Json::Array(vec![
                    Json::Object(vec![
                        ("type".into(), Json::Text("text".into())),
                        ("text".into(), Json::Text(text)),
                    ]),
                    Json::Object(vec![
                        ("type".into(), Json::Text("tool_use".into())),
                        ("name".into(), Json::Text("Edit".into())),
                        (
                            "input".into(),
                            Json::Object(vec![(
                                "file_path".into(),
                                Json::Text("/a/b/c.rs".into()),
                            )]),
                        ),
                    ]),
                ]),
            )]),
        ),
    ]));
    let z = encode_str(&line).unwrap();
    assert!(z.len() * 3 < line.len());
    assert_eq!(decode_blob_to_string(&z).unwrap(), line);
}

#[test]
fn damaged_frames_are_refused() {
    assert_eq!(
        decode_blob_to_string(&[0x28, 0xb5, 0x2f, 0xfd, 1, 2, 3]).err(),
        Some(CodecError::Decompress)
    );
    assert!(decode_blob_to_string(&[0xff, 0xfe]).is_err());
    assert_eq!(max_decompress_size(1), 65536);
    assert_eq!(max_decompress_size(2048), 131072);
    assert_eq!(max_decompress_size(usize::MAX), 33554432);
}

fn stored(texts: &[String]) -> Vec<Stored> {
    texts
        .iter()
        .enumerate()
        .map(|(i, t)| Stored {
            id: i as i64,
            blob: encode_str(t).unwrap(),
        })
        .collect()
}

fn blobs(rows: &[Stored]) -> Vec<Vec<u8>> {
    rows.iter().map(|r| r.blob.clone()).collect()
}

#[test]
fn retrain_full_cycle_dict_only() {
    let texts: Vec<String> = (0..30)
        .map(|i| {
            format!(
                r#"{{"type":"assistant","sessionId":"s1","uuid":"u{i:02}","message":{{"content":[{{"type":"text","text":"hello{i}"}}]}}}}"#
            )
        })
        .collect();
    let rows = stored(&texts);
    let samples = collect_training_samples(&blobs(&rows), None);
    let new = retrain_kind(KIND_RAW, &samples, 4096, None, &rows).ok().unwrap();
    assert_eq!(new.stats.recompress.processed, 30);
    assert_eq!((new.table.as_str(), new.column.as_str()), ("messages", "raw_zstd"));
    let dec = prepare_decoder(&new.blob).ok().unwrap();
    assert_eq!(new.rows.len(), 30);
    for (i, r) in new.rows.iter().enumerate() {
        assert_eq!(r.id, i as i64);
        let raw = read_stored(&r.blob, Some(&dec)).unwrap();
        assert!(raw.contains(&format!("hello{i}")));
        assert_eq!(raw, texts[i]);
    }
}

#[test]
fn retrain_replaces_old_dict_and_keeps_roundtrip() {
    let texts: Vec<String> = (0..20)
        .map(|i| format!(r#"{{"sessionId":"s1","uuid":"u{i}","content":"hello{i}"}}"#))
        .collect();
    let rows = stored(&texts);
    let samples = collect_training_samples(&blobs(&rows), None);
    let a = retrain_kind(KIND_RAW, &samples, 4096, None, &rows).ok().unwrap();
    let dec_a = prepare_decoder(&a.blob).ok().unwrap();

    let samples2 = collect_training_samples(&blobs(&a.rows), Some(&dec_a));
    assert_eq!(samples2.len(), 20);
    let b = retrain_kind(KIND_RAW, &samples2, 4096, Some(&dec_a), &a.rows).ok().unwrap();
    let dec_b = prepare_decoder(&b.blob).ok().unwrap();
    assert_eq!(b.rows.len(), 20);
    for (i, r) in b.rows.iter().enumerate() {
        assert_eq!(read_stored(&r.blob, Some(&dec_b)).unwrap(), texts[i]);
    }
}

#[test]
fn training_tells_what_is_missing() {
    let none: Vec<Stored> = Vec::new();
    assert_eq!(
        retrain_kind(KIND_RAW, &Vec::new(), 4096, None, &none).err(),
        Some(DictError::NoSamples)
    );
    assert_eq!(train(&Vec::new(), 4096).err(), Some(DictError::NoSamples));
    let samples: Vec<Vec<u8>> = (0..30)
        .map(|i| format!("a sample of some length, number {i}").into_bytes())
        .collect();
    assert_eq!(
        retrain_kind("other", &samples, 4096, None, &none).err(),
        Some(DictError::UnknownKind)
    );
    assert_eq!(table_for("other").err(), Some(DictError::UnknownKind));
    assert_eq!(
        table_for(KIND_PAYLOAD).ok(),
        Some(("events".to_string(), "payload_zstd".to_string()))
    );
    let bad = vec![Stored {
        id: 1,
        blob: vec![0x28, 0xb5, 0x2f, 0xfd, 9],
    }];
    assert_eq!(
        retrain_kind(KIND_RAW, &samples, 4096, None, &bad).err(),
        Some(DictError::Codec(CodecError::Decompress))
    );
}

#[test]
fn prepared_dictionaries_are_dropped_by_kind() {
    let samples: Vec<Vec<u8>> = (0..40)
        .map(|i| format!("another sample of some length, number {i}").into_bytes())
        .collect();
    let t = train(&samples, 2048).ok().unwrap();
    assert_eq!(t.summary.sample_count, 40);
    assert_eq!(t.summary.blob_len, t.blob.len());
    let cache = vec![
        prepare(KIND_RAW, &t.blob).ok().unwrap(),
        prepare(KIND_PAYLOAD, &t.blob).ok().unwrap(),
    ];
    let z = encode_str_with_dict("text", &cache[0].encoder).unwrap();
    assert_eq!(read_stored(&z, Some(&cache[0].decoder)).unwrap(), "text");
    let plain = encode_str("text").unwrap();
    let again = recompress(&plain, None, &cache[0].encoder).unwrap();
    assert_eq!(read_stored(&again, Some(&cache[0].decoder)).unwrap(), "text");
    let left = invalidate_cache(cache, KIND_RAW);
    assert_eq!(left.len(), 1);
    assert_eq!(left[0].kind, KIND_PAYLOAD);
}

#[test]
fn strips_empty_thinking_and_keeps_others() {
    let raw = r#"{"type":"assistant","sessionId":"s1","uuid":"u1","message":{"role":"assistant","content":[
            {"type":"thinking","thinking":"","signature":"AAAAlongbase64payload"},
            {"type":"redacted_thinking","data":"AAAA"},
            {"type":"text","text":"了解です"},
            {"type":"tool_use","name":"Bash","input":{"cmd":"ls"}}
        ]}}"#;
    let stripped = strip_empty_thinking_blocks(raw);
    assert!(stripped.len() < raw.len());
    let v = parse(&stripped).unwrap();
    let content = v.get("message").unwrap().get_array("content").unwrap();
    assert_eq!(content.len(), 2);
    assert_eq!(content[0].get_str("type"), Some("text"));
    assert_eq!(content[1].get_str("type"), Some("tool_use"));
    assert!(matches!(
        strip_empty_thinking_blocks(&stripped),
        Cow::Borrowed(_)
    ));
}

#[test]
fn keeps_thinking_with_body() {
    let raw = r#"{"type":"assistant","message":{"content":[
            {"type":"thinking","thinking":"まず方針を整理する..."},
            {"type":"text","text":"はい"}
        ]}}"#;
    let stripped = strip_empty_thinking_blocks(raw);
    assert!(matches!(stripped, Cow::Borrowed(_)));
    assert_eq!(&*stripped, raw);
}

#[test]
fn whitespace_only_thinking_is_treated_as_empty() {
    let raw = r#"{"type":"assistant","message":{"content":[
            {"type":"thinking","thinking":"   \n  ","signature":"x"},
            {"type":"text","text":"はい"}
        ]}}"#;
    let stripped = strip_empty_thinking_blocks(raw);
    let v = parse(&stripped).unwrap();
    let content = v.get("message").unwrap().get_array("content").unwrap();
    assert_eq!(content.len(), 1);
    assert_eq!(content[0].get_str("type"), Some("text"));
    assert!(is_empty_thinking(&parse(r#"{"type":"thinking"}"#).unwrap()));
}

#[test]
fn non_message_rows_are_unchanged() {
    let cases = [
        r#"{"type":"user","sessionId":"s1","message":{"role":"user","content":"hi"}}"#,
        r#"{"type":"system","subtype":"away_summary","content":"x"}"#,
    ];
    for c in cases {
        let s = strip_empty_thinking_blocks(c);
        assert!(matches!(s, Cow::Borrowed(_)));
        assert_eq!(&*s, c);
    }
}

#[test]
fn broken_json_is_returned_as_is() {
    let raw = "not json{{";
    let s = strip_empty_thinking_blocks(raw);
    assert!(matches!(s, Cow::Borrowed(_)));
    assert_eq!(&*s, raw);
}

#[test]
fn json_is_read_and_written() {
    let text = r#"{"a":[1,-2,true,null,"x\ny"],"b":{"c":"d"}}"#;
    let v = parse(text).unwrap();
    assert_eq!(to_text(&v), text);
    assert_eq!(v.get("b").unwrap().get_str("c"), Some("d"));
    assert_eq!(v.get_array("a").unwrap()[0].as_str(), None);
    assert!(to_pretty(&v).unwrap().starts_with("{\n  \"a\": ["));
    assert!(parse("{\"a\":}").is_none());
    let twice = parse(r#"{"a":1,"a":2}"#).unwrap();
    assert_eq!(twice.get_whole("a"), Some(2));
    assert!(parse(r#"{"t":true}"#).unwrap().get_true("t"));
}

#[test]
fn digest_is_sha256() {
    assert_eq!(
        sha256_hex(b"abc"),
        "ba7816bf8f01cfea414140de5dae2223b00361a396177a9cb410ff61f20015ad"
    );
}

#[test]
fn damaged_dictionary_is_refused() {
    let damaged = [0x37, 0xa4, 0x30, 0xec, 1, 2, 3, 4, 5, 6, 7, 8];
    assert_eq!(prepare_encoder(&damaged).err(), Some(CodecError::Dictionary));
    assert_eq!(prepare_decoder(&damaged).err(), Some(CodecError::Dictionary));
    assert!(prepare_encoder(b"any other bytes").is_ok());
}
