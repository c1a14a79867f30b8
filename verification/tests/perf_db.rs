use phantora::cuda_call::CudaMemcpyKind;
use phantora::duration::Duration;
use phantora::json::{json_text, parse_json, Json};
use phantora::perf_db::call_json::{call_value, read_call};
use phantora::perf_db::codec::{
    compact_value, dtype_from_code, dtype_to_code, expand_value, find_period, sort_object_keys,
};
use phantora::perf_db::csv_io::write_table;
use phantora::perf_db::manifest::{read_manifest, write_manifest};
use phantora::perf_db::rows::{
    memcpy_kind_from_str, memcpy_kind_str, read_compute_row, read_flash_row, read_key,
    read_memcpy_row, read_sequence_row, write_key, LoadError,
};
use phantora::perf_db::{DbFiles, FlashAttnKey, PerfDb};
use phantora::torch_call::{Kind, TensorInfo, TorchArg, TorchCallInfo, TorchOp};

fn ti(shape: &[i64], dtype: Kind) -> TensorInfo {
    TensorInfo { shape: shape.to_vec(), dtype }
}

fn t(shape: &[i64], dtype: Kind) -> TorchArg {
    TorchArg::Tensor(ti(shape, dtype))
}

fn call(op: TorchOp, args: Vec<TorchArg>) -> TorchCallInfo {
    TorchCallInfo { op, args }
}

fn heads() -> TorchArg {
    t(&[2, 32, 1024, 128], Kind::BFloat16)
}

fn sdpa(mask: Option<TensorInfo>, causal: bool, gqa: bool) -> TorchCallInfo {
    call(
        TorchOp::SDPA,
        vec![
            heads(),
            heads(),
            heads(),
            TorchArg::Optional(mask),
            TorchArg::Flag(causal),
            TorchArg::Flag(gqa),
        ],
    )
}

fn efficient_backward(bias: Option<TensorInfo>, causal: bool) -> TorchCallInfo {
    call(
        TorchOp::SDPAEfficientBackward,
        vec![heads(), heads(), heads(), TorchArg::Optional(bias), TorchArg::Flag(causal)],
    )
}

fn foreach_call() -> TorchCallInfo {
    call(
        TorchOp::ForeachAddCMul_,
        vec![
            TorchArg::List(vec![
                ti(&[1572864], Kind::Float),
                ti(&[3145728], Kind::Float),
                ti(&[1572864], Kind::Float),
                ti(&[3145728], Kind::Float),
            ]),
            TorchArg::List(vec![ti(&[1572864], Kind::Float), ti(&[3145728], Kind::Float)]),
            TorchArg::List(vec![ti(&[16], Kind::Float)]),
        ],
    )
}

fn recorded_calls() -> Vec<(TorchCallInfo, u64)> {
    vec![
        (
            call(
                TorchOp::MM,
                vec![t(&[1024, 1024], Kind::Float), t(&[1024, 1024], Kind::Float)],
            ),
            1_234_000,
        ),
        (
            call(
                TorchOp::Linear,
                vec![
                    t(&[8, 1024, 4096], Kind::BFloat16),
                    t(&[4096, 4096], Kind::BFloat16),
                    TorchArg::Optional(Some(ti(&[4096], Kind::BFloat16))),
                ],
            ),
            5_678_000,
        ),
        (
            call(
                TorchOp::Softmax,
                vec![t(&[1, 64, 1024, 1024], Kind::Float), TorchArg::Int(-1)],
            ),
            42_000,
        ),
        (sdpa(None, true, false), 9_000),
        (sdpa(Some(ti(&[2, 1, 1024, 1024], Kind::BFloat16)), false, true), 11_000),
        (efficient_backward(Some(ti(&[2, 32, 1024, 1024], Kind::BFloat16)), false), 13_000),
        (efficient_backward(None, true), 14_000),
        (foreach_call(), 28_800),
    ]
}

fn flash_key() -> FlashAttnKey {
    FlashAttnKey {
        is_fwd: true,
        is_bf16: true,
        batch_size: 8,
        seqlen_q: 4096,
        seqlen_k: 4096,
        num_heads: 32,
        num_heads_k: 32,
        head_size: 128,
        window_size_left: -1,
        window_size_right: -1,
        is_causal: true,
    }
}

fn nanos(n: u64) -> Duration {
    Duration::from_nanos(n)
}

fn sample_db() -> PerfDb {
    let mut db = PerfDb::default();
    db.gpu_name = "NVIDIA L40S".to_string();
    for (key, time) in recorded_calls() {
        db.compute.insert(key, nanos(time));
    }
    db.memcpy.insert((CudaMemcpyKind::HostToDevice, 1_048_576), nanos(45_600));
    db.memcpy.insert((CudaMemcpyKind::DeviceToDevice, 4096), nanos(1_200));
    db.flash_attn.insert(flash_key(), nanos(890_000));
    db.sequence.insert(0x1234_5678_9abc_def0, vec![nanos(10), nanos(20), nanos(30)]);
    db
}

fn load(files: &DbFiles) -> PerfDb {
    match PerfDb::load(files) {
        Ok(db) => db,
        Err(_) => panic!("load"),
    }
}

fn text(bytes: &Option<Vec<u8>>) -> String {
    String::from_utf8(bytes.clone().unwrap()).unwrap()
}

fn same_tables(a: &PerfDb, b: &PerfDb) {
    assert_eq!(a.gpu_name, b.gpu_name);
    assert_eq!(a.compute.len(), b.compute.len());
    for i in 0..a.compute.len() {
        let key = a.compute.key_at(i);
        assert_eq!(a.compute.get(key), b.compute.get(key));
    }
    assert_eq!(a.memcpy.len(), b.memcpy.len());
    for i in 0..a.memcpy.len() {
        let key = a.memcpy.key_at(i);
        assert_eq!(a.memcpy.get(key), b.memcpy.get(key));
    }
    assert_eq!(a.flash_attn.len(), b.flash_attn.len());
    for i in 0..a.flash_attn.len() {
        let key = a.flash_attn.key_at(i);
        assert_eq!(a.flash_attn.get(key), b.flash_attn.get(key));
    }
    assert_eq!(a.sequence.len(), b.sequence.len());
    for i in 0..a.sequence.len() {
        let key = a.sequence.key_at(i);
        assert_eq!(a.sequence.get(key), b.sequence.get(key));
    }
}

#[test]
fn perf_db_csv_round_trip() {
    let db = sample_db();
    assert!(db.is_well_formed());
    let loaded = load(&db.save());
    same_tables(&db, &loaded);
    assert_eq!(loaded.gpu_name, "NVIDIA L40S");
    for (key, time) in recorded_calls() {
        assert_eq!(loaded.compute.get(&key), Some(&nanos(time)));
    }
    assert_eq!(
        loaded.memcpy.get(&(CudaMemcpyKind::HostToDevice, 1_048_576)),
        Some(&nanos(45_600))
    );
    assert_eq!(loaded.memcpy.get(&(CudaMemcpyKind::DeviceToDevice, 4096)), Some(&nanos(1_200)));
    assert_eq!(loaded.flash_attn.get(&flash_key()), Some(&nanos(890_000)));
    assert_eq!(
        loaded.sequence.get(&0x1234_5678_9abc_def0),
        Some(&vec![nanos(10), nanos(20), nanos(30)])
    );
}

#[test]
fn canonical_serialization() {
    let ser = |c: &TorchCallInfo| json_text(sort_object_keys(compact_value(call_value(c))));
    let no_mask = ser(&sdpa(None, true, false));
    assert_eq!(
        no_mask,
        r#"{"SDPA":{"causal":true,"gqa":false,"k":["bf16",[2,32,1024,128]],"q":["bf16",[2,32,1024,128]],"v":["bf16",[2,32,1024,128]]}}"#
    );
    let with_mask = ser(&sdpa(Some(ti(&[2, 1, 1024, 1024], Kind::BFloat16)), false, false));
    assert!(
        with_mask.contains(r#""mask":["bf16",[2,1,1024,1024]]"#),
        "Some mask must be kept: {with_mask}"
    );
}

#[test]
fn migrated_database_is_unchanged() {
    let before = load(&sample_db().save());
    let files = before.save();
    let after = load(&files);
    same_tables(&before, &after);
    assert_eq!(text(&files.compute), text(&sample_db().save().compute));
    assert_eq!(files.manifest, sample_db().save().manifest);
}

#[test]
fn files_forget_the_order_of_entries() {
    let mut db = PerfDb::default();
    db.gpu_name = "NVIDIA L40S".to_string();
    let mut calls = recorded_calls();
    calls.reverse();
    for (key, time) in calls {
        db.compute.insert(key, nanos(time));
    }
    db.memcpy.insert((CudaMemcpyKind::DeviceToDevice, 4096), nanos(1_200));
    db.memcpy.insert((CudaMemcpyKind::HostToDevice, 1_048_576), nanos(45_600));
    assert_eq!(text(&db.save().compute), text(&sample_db().save().compute));
    assert_eq!(text(&db.save().memcpy), text(&sample_db().save().memcpy));
}

#[test]
fn keys_are_written_in_short_form() {
    let keys: Vec<String> = recorded_calls().iter().map(|c| write_key(&c.0)).collect();
    assert_eq!(keys[0], r#"{"MM":{"R":[2,[["f32",[1024,1024]]]]}}"#);
    assert_eq!(
        keys[1],
        r#"{"Linear":[["bf16",[8,1024,4096]],["bf16",[4096,4096]],["bf16",[4096]]]}"#
    );
    assert_eq!(keys[2], r#"{"Softmax":[["f32",[1,64,1024,1024]],-1]}"#);
    assert_eq!(
        keys[7],
        r#"{"ForeachAddCMul_":[{"R":[2,[["f32",[1572864]],["f32",[3145728]]]]},[["f32",[1572864]],["f32",[3145728]]],[["f32",[16]]]]}"#
    );
    for (key, c) in keys.iter().zip(recorded_calls()) {
        match read_key(key) {
            Ok(back) => assert_eq!(back, c.0),
            Err(_) => panic!("{key}"),
        }
    }
}

#[test]
fn empty_tables_are_left_out() {
    let mut db = PerfDb::default();
    db.gpu_name = "GPU".to_string();
    let files = db.save();
    assert_eq!(text(&files.compute), "key,nanos\n");
    assert_eq!(text(&files.memcpy), "kind,size_bytes,nanos\n");
    assert!(files.flash_attn.is_none());
    assert!(files.sequence.is_none());
    same_tables(&db, &load(&files));
}

#[test]
fn tables_have_headers_and_sorted_rows() {
    let files = sample_db().save();
    assert_eq!(
        text(&files.memcpy),
        "kind,size_bytes,nanos\nDeviceToDevice,4096,1200\nHostToDevice,1048576,45600\n"
    );
    assert_eq!(
        text(&files.flash_attn),
        "is_fwd,is_bf16,batch,seqlen_q,seqlen_k,num_heads,num_heads_k,head_size,win_left,win_right,is_causal,nanos\ntrue,true,8,4096,4096,32,32,128,-1,-1,true,890000\n"
    );
    assert_eq!(text(&files.sequence), "seq_hash,nanos\n1311768467463790320,10;20;30\n");
    let compute = text(&files.compute);
    let lines: Vec<&str> = compute.lines().collect();
    assert_eq!(lines[0], "key,nanos");
    assert_eq!(lines.len(), 9);
    assert!(lines[1].starts_with(r#""{""ForeachAddCMul_"""#));
    assert!(lines[1].ends_with(",28800"));
}

#[test]
fn manifest_describes_the_database() {
    let manifest = sample_db().save().manifest.unwrap();
    assert_eq!(
        manifest,
        "# Phantora performance database\n\n- **GPU:** NVIDIA L40S\n- **Schema version:** 1\n- **compute entries:** 8\n- **sequence entries:** 1\n- **memcpy entries:** 2\n- **flash_attn entries:** 1\n\nRecorded with `--record-perf-db <dir>`. Replay with `--perf-db <dir>` (no GPU required). Each `*.csv` is one timing table (values in nanoseconds); the `compute.csv` `key` is the `TorchCallInfo` as compacted JSON (tensors as `[code,[dims]]`, repeated-tensor lists as `{\"R\":[k,[period]]}`).\n"
    );
    assert_eq!(read_manifest(&manifest), "NVIDIA L40S");
    assert_eq!(read_manifest("nothing here"), "");
    assert_eq!(read_manifest("- **GPU:** A \r\n- **GPU:**  B\t\n"), "B");
    assert_eq!(read_manifest(&write_manifest("H100", 1, 2, 3, 4)), "H100");
}

#[test]
fn missing_files_are_empty_tables() {
    let files =
        DbFiles { compute: None, memcpy: None, flash_attn: None, sequence: None, manifest: None };
    same_tables(&PerfDb::default(), &load(&files));
}

fn only_compute(rows: &str) -> Result<PerfDb, LoadError> {
    PerfDb::load(&DbFiles {
        compute: Some(rows.as_bytes().to_vec()),
        memcpy: None,
        flash_attn: None,
        sequence: None,
        manifest: None,
    })
}

#[test]
fn rows_with_an_operator_column_are_read() {
    let rows = "op,key,nanos\nNeg,\"{\"\"Neg\"\":[\"\"f16\"\",[2,3]]}\",7\n";
    match only_compute(rows) {
        Ok(db) => {
            let key = call(TorchOp::Neg, vec![t(&[2, 3], Kind::Half)]);
            assert_eq!(db.compute.get(&key), Some(&nanos(7)));
        }
        Err(_) => panic!("load"),
    }
}

#[test]
fn the_later_of_two_rows_counts() {
    let rows = "key,nanos\n\"{\"\"Neg\"\":[\"\"f16\"\",[2]]}\",7\n\"{\"\"Neg\"\":{\"\"shape\"\":[2],\"\"dtype\"\":\"\"Half\"\"}}\",8\n";
    match only_compute(rows) {
        Ok(db) => {
            let key = call(TorchOp::Neg, vec![t(&[2], Kind::Half)]);
            assert_eq!(db.compute.len(), 1);
            assert_eq!(db.compute.get(&key), Some(&nanos(8)));
        }
        Err(_) => panic!("load"),
    }
}

#[test]
fn unreadable_rows_are_told_apart() {
    assert!(matches!(only_compute("key,nanos\n{,1\n"), Err(LoadError::BadJson)));
    assert!(matches!(only_compute("key,nanos\n1,1\n"), Err(LoadError::BadKey)));
    assert!(matches!(only_compute("key,nanos\n\"{\"\"Nope\"\":1}\",1\n"), Err(LoadError::BadKey)));
    assert!(matches!(
        only_compute("key,nanos\n\"{\"\"Neg\"\":[\"\"f16\"\",[2]]}\",x\n"),
        Err(LoadError::BadNumber)
    ));
    assert!(matches!(only_compute("key,nanos\na,b,c,d\n"), Err(LoadError::Csv)));
    let row = |fields: &[&str]| fields.iter().map(|f| f.to_string()).collect::<Vec<String>>();
    assert!(matches!(read_compute_row(&row(&["x"])), Err(LoadError::ShortRow)));
    assert!(matches!(read_memcpy_row(&row(&["HostToDevice", "1"])), Err(LoadError::ShortRow)));
    match read_memcpy_row(&row(&["Sideways", "1", "2"])) {
        Err(LoadError::UnknownKind(kind)) => assert_eq!(kind, "Sideways"),
        other => panic!("{other:?}"),
    }
    assert!(matches!(read_flash_row(&row(&["maybe"])), Err(LoadError::BadFlag)));
    assert!(matches!(read_sequence_row(&row(&["1", "2;x"])), Err(LoadError::BadNumber)));
    match read_sequence_row(&row(&["1", "2;;3"])) {
        Ok((hash, times)) => {
            assert_eq!(hash, 1);
            assert_eq!(times, vec![nanos(2), nanos(3)]);
        }
        Err(_) => panic!("row"),
    }
}

#[test]
fn names_of_copies_are_read_back() {
    let kinds = [
        CudaMemcpyKind::HostToHost,
        CudaMemcpyKind::HostToDevice,
        CudaMemcpyKind::PinnedHostToDevice,
        CudaMemcpyKind::DeviceToHost,
        CudaMemcpyKind::DeviceToPinnedHost,
        CudaMemcpyKind::DeviceToDevice,
    ];
    for kind in kinds {
        assert_eq!(memcpy_kind_from_str(memcpy_kind_str(kind)), Some(kind));
    }
    assert_eq!(memcpy_kind_from_str("nothing"), None);
}

#[test]
fn codes_of_element_types_are_read_back() {
    assert_eq!(dtype_to_code("BFloat16"), Some("bf16"));
    assert_eq!(dtype_from_code("bf16"), Some("BFloat16"));
    assert_eq!(dtype_to_code("QInt8"), None);
    assert_eq!(dtype_from_code("nope"), None);
}

fn json(s: &str) -> Json {
    parse_json(s).unwrap()
}

#[test]
fn values_are_compacted_and_expanded() {
    let full = r#"{"a":[{"shape":[1,2],"dtype":"Float"},{"shape":[1,2],"dtype":"Float"}]}"#;
    let short = r#"{"a":{"R":[2,[["f32",[1,2]]]]}}"#;
    assert_eq!(json_text(compact_value(json(full))), short);
    assert_eq!(json_text(expand_value(json(short))), full);
    assert_eq!(
        json_text(compact_value(json(r#"{"dtype":"QInt8","shape":[1]}"#))),
        r#"{"dtype":"QInt8","shape":[1]}"#
    );
    assert_eq!(json_text(compact_value(json("[1.5,1.5,null,true]"))), "[1.5,1.5,null,true]");
    assert_eq!(
        json_text(sort_object_keys(json(r#"{"b":{"z":1,"y":[{"d":2,"c":3}]},"a":-4}"#))),
        r#"{"a":-4,"b":{"y":[{"c":3,"d":2}],"z":1}}"#
    );
}

#[test]
fn the_order_of_entries_is_forgotten() {
    let sorted = |s: &str| json_text(sort_object_keys(json(s)));
    let one = sorted(r#"{"b":[{"d":2,"c":3}],"a":{"y":1,"x":-4}}"#);
    assert_eq!(one, sorted(r#"{"a":{"x":-4,"y":1},"b":[{"c":3,"d":2}]}"#));
    assert_eq!(one, r#"{"a":{"x":-4,"y":1},"b":[{"c":3,"d":2}]}"#);
    assert_eq!(sorted(&one), one);
}

#[test]
fn an_unknown_kind_of_copy_is_named() {
    let load = |rows: &str| {
        PerfDb::load(&DbFiles {
            compute: None,
            memcpy: Some(rows.as_bytes().to_vec()),
            flash_attn: None,
            sequence: None,
            manifest: None,
        })
    };
    match load("kind,size_bytes,nanos\nHostToDevice,1,2\nSideways,x,2\nUpwards,1,2\n") {
        Err(e) => assert_eq!(e.text(), "unknown memcpy kind: Sideways"),
        Ok(_) => panic!("load"),
    }
    match load("kind,size_bytes,nanos\nHostToDevice,x,2\nSideways,1,2\n") {
        Err(e) => assert_eq!(e.text(), "invalid number"),
        Ok(_) => panic!("load"),
    }
    assert_eq!(LoadError::Csv.text(), "malformed CSV row");
    assert_eq!(LoadError::ShortRow.text(), "too few fields in a row");
    assert_eq!(LoadError::BadJson.text(), "key is not JSON");
    assert_eq!(LoadError::BadKey.text(), "key is not a call");
    assert_eq!(LoadError::BadFlag.text(), "invalid flag");
}

#[test]
fn the_shortest_period_is_found() {
    let items = |s: &str| match json(s) {
        Json::Array(v) => v,
        _ => panic!("no array"),
    };
    let (n, period) = find_period(&items("[1,2,1,2,1,2]")).unwrap();
    assert_eq!(n, 3);
    assert_eq!(json_text(Json::Array(period)), "[1,2]");
    assert!(find_period(&items("[1,2,1]")).is_none());
    assert!(find_period(&items("[1]")).is_none());
    assert!(find_period(&items("[]")).is_none());
}

#[test]
fn json_texts_that_are_none_are_refused() {
    assert!(parse_json("").is_none());
    assert!(parse_json("{\"a\":}").is_none());
    assert_eq!(json_text(json(" { \"a\" : [ 1 , -2 , \"x\\n\" ] } ")), r#"{"a":[1,-2,"x\n"]}"#);
    assert_eq!(json_text(json("18446744073709551615")), "18446744073709551615");
}

#[test]
fn calls_with_wrong_arguments_are_no_calls() {
    assert!(read_call(&json(r#"{"Neg":{"shape":[1],"dtype":"Float"}}"#)).is_some());
    assert!(read_call(&json(r#"{"Neg":{"shape":[1],"dtype":"Quad"}}"#)).is_none());
    assert!(read_call(&json(r#"{"MM":[{"shape":[1],"dtype":"Float"}]}"#)).is_none());
    assert!(read_call(&json(r#"{"Softmax":[{"shape":[1],"dtype":"Float"},true]}"#)).is_none());
    assert!(read_call(&json("[]")).is_none());
}

#[test]
fn a_database_with_wrong_calls_is_told() {
    let mut db = PerfDb::default();
    db.compute.insert(call(TorchOp::MM, vec![]), nanos(1));
    assert!(!db.is_well_formed());
}

#[test]
fn tables_are_quoted_where_needed() {
    let rows = vec![
        vec!["a".to_string(), "b".to_string()],
        vec!["x,\"y\"".to_string(), "1\n2".to_string()],
    ];
    assert_eq!(
        String::from_utf8(write_table(&rows)).unwrap(),
        "a,b\n\"x,\"\"y\"\"\",\"1\n2\"\n"
    );
}
