use winnow_core::buckets::{
    bucket_folder_names, buckets_from_config, config_file, default_reject, discover_buckets, is_key_taken,
    next_free_key, render_buckets, Bucket, BucketError, RawBucket, RawConfig, RawReject, CONFIG_NAME,
    session_buckets,
};

fn bucket(name: &str, key: &str, folder: &str) -> Bucket {
    Bucket { name: name.into(), key: key.into(), folder: folder.into(), is_reject: false }
}

fn text(v: Option<&toml::Value>) -> Option<String> {
    v.and_then(|x| x.as_str()).map(|s| s.to_string())
}

/// The tables of a config file, read with the `toml` crate.
fn raw_config(src: &str) -> RawConfig {
    let doc: toml::Value = toml::from_str(src).expect("valid toml");
    let reject = doc.get("reject").map(|r| RawReject {
        name: text(r.get("name")),
        key: text(r.get("key")),
        folder: text(r.get("folder")),
    });
    let mut bucket = Vec::new();
    if let Some(list) = doc.get("bucket").and_then(|b| b.as_array()) {
        for b in list {
            bucket.push(RawBucket {
                name: text(b.get("name")).expect("bucket name"),
                key: text(b.get("key")).expect("bucket key"),
                folder: text(b.get("folder")),
            });
        }
    }
    RawConfig { reject, bucket }
}

#[test]
fn next_free_key_skips_taken_and_runs_out() {
    let mut b = vec![default_reject()];
    for k in ["1", "3"] {
        b.push(Bucket { name: k.into(), key: k.into(), folder: format!("_{k}"), is_reject: false });
    }
    assert_eq!(next_free_key(&b), "2");
    for k in 1..=9 {
        b.push(Bucket { name: format!("x{k}"), key: k.to_string(), folder: String::new(), is_reject: false });
    }
    assert_eq!(next_free_key(&b), "");
}

#[test]
fn discovers_underscore_folders_with_free_keys() {
    let names: Vec<String> =
        ["_rejected", "_spall", "_crack", "plain", "_"].iter().map(|s| s.to_string()).collect();
    let mut b = vec![default_reject()];
    discover_buckets(names, &mut b);
    let got: Vec<(&str, &str)> = b.iter().map(|b| (b.name.as_str(), b.key.as_str())).collect();
    assert_eq!(got, vec![("reject", "Delete"), ("crack", "1"), ("spall", "2")]);
}

#[test]
fn save_then_load_roundtrip() {
    let b = vec![
        default_reject(),
        Bucket { name: "cr\"ack".into(), key: "1".into(), folder: "_crack".into(), is_reject: false },
        Bucket { name: "a".into(), key: "".into(), folder: "_a".into(), is_reject: false },
        Bucket { name: "b".into(), key: "".into(), folder: "_b".into(), is_reject: false },
    ];
    let saved = render_buckets(&b);
    let loaded = buckets_from_config(&raw_config(&saved)).ok().expect("loads");
    assert_eq!(loaded, b);
}

#[test]
fn no_config_gives_reject_only() {
    let buckets = buckets_from_config(&RawConfig { reject: None, bucket: Vec::new() }).ok().unwrap();
    assert_eq!(buckets.len(), 1);
    assert!(buckets[0].is_reject);
    assert_eq!(buckets[0].key, "Delete");
}

#[test]
fn parses_config_with_buckets() {
    let raw = raw_config(
        "[[bucket]]\nname=\"crack\"\nkey=\"1\"\nfolder=\"_crack\"\n\n[[bucket]]\nname=\"spall\"\nkey=\"2\"\n",
    );
    let buckets = buckets_from_config(&raw).ok().unwrap();
    assert_eq!(buckets.len(), 3);
    assert_eq!(buckets[1].name, "crack");
    assert_eq!(buckets[1].key, "1");
    assert_eq!(buckets[2].folder, "_spall"); // defaulted from name
}

#[test]
fn duplicate_key_errors() {
    let raw = raw_config("[[bucket]]\nname=\"a\"\nkey=\"Delete\"\nfolder=\"_a\"\n");
    assert!(buckets_from_config(&raw).is_err());
}

#[test]
fn duplicate_key_error_names_the_key_and_ignores_case() {
    let raw = raw_config("[[bucket]]\nname=\"a\"\nkey=\"x\"\n\n[[bucket]]\nname=\"b\"\nkey=\"X\"\n");
    match buckets_from_config(&raw) {
        Err(e) => {
            assert!(matches!(&e, BucketError::DuplicateKey(k) if k == "X"));
            assert_eq!(e.message(), "bucket reuses hotkey 'X'");
        }
        Ok(_) => panic!("expected an error"),
    }
}

#[test]
fn empty_keys_may_repeat() {
    let raw = raw_config("[[bucket]]\nname=\"a\"\nkey=\"\"\n\n[[bucket]]\nname=\"b\"\nkey=\"\"\n");
    let buckets = buckets_from_config(&raw).ok().unwrap();
    assert_eq!(buckets.len(), 3);
}

#[test]
fn reject_table_fields_default_one_by_one() {
    let raw = raw_config("[reject]\nkey=\"r\"\n");
    let buckets = buckets_from_config(&raw).ok().unwrap();
    assert_eq!(buckets[0].name, "reject");
    assert_eq!(buckets[0].key, "r");
    assert_eq!(buckets[0].folder, "_rejected");
    assert!(buckets[0].is_reject);
}

#[test]
fn toml_error_message() {
    assert_eq!(BucketError::Toml("bad".into()).message(), "invalid .winnow.toml: bad");
}

#[test]
fn saved_config_text_quotes_values() {
    let text = render_buckets(&[default_reject(), bucket("cr\"ack", "1", "_crack")]);
    assert_eq!(
        text,
        "# Buckets for winnow. Edited by the app; hand edits are fine too.\n\n[reject]\nname = \"reject\"\nkey = \"Delete\"\nfolder = \"_rejected\"\n\n[[bucket]]\nname = 'cr\"ack'\nkey = \"1\"\nfolder = \"_crack\"\n"
    );
}

#[test]
fn key_taken_ignores_case() {
    let b = vec![default_reject(), bucket("c", "C", "_c")];
    assert!(is_key_taken(&b, "delete"));
    assert!(is_key_taken(&b, "c"));
    assert!(!is_key_taken(&b, "1"));
}

#[test]
fn free_key_is_unused_digit() {
    let mut b = vec![default_reject()];
    let mut seen = Vec::new();
    for _ in 0..9 {
        let k = next_free_key(&b);
        assert_eq!(k.len(), 1);
        assert!(!is_key_taken(&b, &k));
        seen.push(k.clone());
        b.push(bucket(&format!("n{k}"), &k, ""));
    }
    assert_eq!(seen, vec!["1", "2", "3", "4", "5", "6", "7", "8", "9"]);
    assert_eq!(next_free_key(&b), "");
}

#[test]
fn discovery_keeps_existing_and_covers_every_folder() {
    let mut b = vec![default_reject(), bucket("keep", "1", "_keep")];
    let names: Vec<String> = ["_zeta", "_keep", "_alpha", "x"].iter().map(|s| s.to_string()).collect();
    discover_buckets(names, &mut b);
    assert_eq!(b[0], default_reject());
    assert_eq!(b[1], bucket("keep", "1", "_keep"));
    assert_eq!(b[2], bucket("alpha", "2", "_alpha"));
    assert_eq!(b[3], bucket("zeta", "3", "_zeta"));
    assert_eq!(b.len(), 4);
}

#[test]
fn target_dir_and_config_file() {
    let b = bucket("c", "1", "_c");
    assert_eq!(b.target_dir("/data/root"), "/data/root/_c");
    assert_eq!(bucket("c", "1", "/abs/c").target_dir("/data/root"), "/abs/c");
    assert_eq!(config_file("/data/root", None), format!("/data/root/{CONFIG_NAME}"));
    assert_eq!(config_file("/data/root", Some("/etc/w.toml")), "/etc/w.toml");
}

#[test]
fn folder_names_only_for_buckets_under_root() {
    let b = vec![default_reject(), bucket("c", "1", "_c"), bucket("d", "2", "/elsewhere/_d")];
    assert_eq!(bucket_folder_names(&b, &[true, true, false]), vec!["_rejected", "_c"]);
}

#[test]
fn saved_buckets_load_back_the_same() {
    let b = vec![
        Bucket { name: "rej".into(), key: "BackSpace".into(), folder: "_gone".into(), is_reject: true },
        bucket("a", "1", "_a"),
        bucket("b", "", "elsewhere/b"),
        bucket("c", "", "_c"),
    ];
    assert_eq!(buckets_from_config(&raw_config(&render_buckets(&b))).ok().unwrap(), b);
}

#[test]
fn config_disables_discovery() {
    let buckets = session_buckets(vec![default_reject()], true, vec!["_cache".to_string()]);
    assert_eq!(buckets.len(), 1);
}

#[test]
fn without_config_folders_are_discovered() {
    let folders = vec!["_cache".to_string(), "plain".to_string()];
    let buckets = session_buckets(vec![default_reject()], false, folders);
    assert_eq!(buckets.len(), 2);
    assert_eq!(buckets[1].name, "cache");
    assert_eq!(buckets[1].folder, "_cache");
    assert_eq!(buckets[1].key, "1");
}
