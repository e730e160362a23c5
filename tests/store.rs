use json_patch_db::database::{worker, Database, DbError, Doc, Message, Step};
use json_patch_db::patch::{locate, Op, Patch, PatchError};
use json_patch_db::patch_helpers::prefix_patch_paths;
use json_patch_db::patch_log::{LogError, MultiLog};
use json_patch_db::value::Value;
use json_patch_db::wire::{parse_pointer, write_pointer, InvalidOpError, InvalidPatchError};

fn s(x: &str) -> String {
    x.to_string()
}

fn num(x: &str) -> Value {
    Value::Number(s(x))
}

fn text(x: &str) -> Value {
    Value::String(s(x))
}

fn obj(members: Vec<(&str, Value)>) -> Value {
    Value::Object(members.into_iter().map(|(k, v)| (s(k), v)).collect())
}

fn path(p: &[&str]) -> Vec<String> {
    p.iter().map(|x| x.to_string()).collect()
}

/// Plays one HTTP-style request against the store, without files.
fn request(db: &mut Database, method: &str, uri: &str, body: Option<Value>) -> Result<Value, DbError> {
    let mut parts = parse_pointer(uri);
    let id = parts.remove(0);
    if method == "GET" {
        return db.find_in_doc(&id, &parts);
    }
    let patch = match method {
        "PATCH" => Patch::from_value(body.unwrap()).map_err(DbError::InvalidPatchError)?,
        "PUT" => Patch { ops: vec![Op::Add(vec![], body.unwrap())] },
        _ => Patch { ops: vec![Op::Remove(vec![])] },
    };
    let pending = db.patch_doc(&id, None, patch, &parts)?;
    db.commit(pending)
}

fn add(p: &str, v: Value) -> Value {
    obj(vec![("op", text("add")), ("path", text(p)), ("value", v)])
}

#[test]
fn documented_session() {
    let mut db = Database::open("logs");
    // a new document holds null, so a scoped put cannot add under it, but it
    // does create the document
    let first = request(&mut db, "PUT", "/docs/a", Some(obj(vec![("x", num("1"))])));
    assert!(matches!(first, Err(DbError::PatchError(PatchError::NotContainer))));
    assert!(db.contains("docs"));
    request(&mut db, "PUT", "/docs", Some(obj(vec![]))).unwrap();
    request(&mut db, "PUT", "/docs/a", Some(obj(vec![("x", num("1"))]))).unwrap();
    assert!(request(&mut db, "GET", "/docs/a/x", None).unwrap().equals(&num("1")));
    request(&mut db, "PATCH", "/docs/a", Some(Value::Array(vec![add("/y", Value::Array(vec![num("1"), num("2")]))]))).unwrap();
    request(&mut db, "PATCH", "/docs/a", Some(Value::Array(vec![add("/y/-", num("3"))]))).unwrap();
    let y = request(&mut db, "GET", "/docs/a/y", None).unwrap();
    assert!(y.equals(&Value::Array(vec![num("1"), num("2"), num("3")])));
    request(&mut db, "DELETE", "/docs/a/y/0", None).unwrap();
    let y = request(&mut db, "GET", "/docs/a/y", None).unwrap();
    assert!(y.equals(&Value::Array(vec![num("2"), num("3")])));
}

#[test]
fn get_on_missing_document_creates_nothing() {
    let mut db = Database::open("logs");
    let r = request(&mut db, "GET", "/docs/missing/x", None);
    assert!(matches!(r, Err(DbError::DocumentDoesNotExist)));
    assert!(!db.contains("docs"));
    // an unscoped patch may not create a document either
    let r = request(&mut db, "PUT", "/fresh", Some(num("1")));
    assert!(matches!(r, Err(DbError::DocumentDoesNotExist)));
    assert!(!db.contains("fresh"));
}

#[test]
fn missing_path_in_document() {
    let mut db = Database::open("logs");
    db.load("d", None, true).unwrap();
    let p = db.prepare_patch("d", Patch { ops: vec![Op::Add(vec![], obj(vec![]))] }, &[]).unwrap();
    db.commit(p).unwrap();
    assert!(matches!(db.find_in_doc("d", &path(&["nope"])), Err(DbError::PathDoesNotExist)));
}

#[test]
fn failed_patch_changes_nothing() {
    let mut db = Database::open("logs");
    db.load("d", None, true).unwrap();
    let p = db.prepare_patch("d", Patch { ops: vec![Op::Add(vec![], obj(vec![("a", num("1"))]))] }, &[]).unwrap();
    db.commit(p).unwrap();
    let bad = Patch { ops: vec![Op::Add(path(&["b"]), num("2")), Op::Remove(path(&["zzz"]))] };
    assert!(matches!(db.prepare_patch("d", bad, &[]), Err(DbError::PatchError(PatchError::PathNotFound))));
    assert!(db.find_in_doc("d", &[]).unwrap().equals(&obj(vec![("a", num("1"))])));
}

#[test]
fn replay_restores_value_and_version() {
    let mut db = Database::open("logs");
    db.load("d", None, true).unwrap();
    let mut log: Vec<Value> = Vec::new();
    let patches = vec![
        Patch { ops: vec![Op::Add(vec![], obj(vec![]))] },
        Patch { ops: vec![Op::Add(path(&["a"]), Value::Array(vec![]))] },
        Patch { ops: vec![Op::Add(path(&["-"]), num("7"))] },
        Patch { ops: vec![Op::Copy(path(&["b"]), path(&["a"]))] },
    ];
    let prefixes = vec![path(&[]), path(&[]), path(&["a"]), path(&[])];
    for (p, pre) in patches.into_iter().zip(prefixes) {
        let pending = db.prepare_patch("d", p, &pre).unwrap();
        log.push(pending.entry());
        db.commit(pending).unwrap();
    }
    let doc = Doc::from_log(&log).unwrap();
    assert_eq!(doc.version(), 4);
    let now = db.find_in_doc("d", &[]).unwrap();
    assert!(doc.value().equals(&now));
    assert!(now.equals(&obj(vec![("a", Value::Array(vec![num("7")])), ("b", Value::Array(vec![num("7")]))])));
    // a second store loads the same document from the log
    let mut other = Database::open("logs");
    other.load("d", Some(log), false).unwrap();
    assert!(other.find_in_doc("d", &[]).unwrap().equals(&now));
}

#[test]
fn broken_log_fails_load() {
    let bad_entry = vec![num("1")];
    assert!(matches!(Doc::from_log(&bad_entry), Err(DbError::InvalidPatchError(InvalidPatchError::MustBeArray))));
    let not_applying = vec![Value::Array(vec![obj(vec![("op", text("remove")), ("path", text("/x"))])])];
    assert!(matches!(Doc::from_log(&not_applying), Err(DbError::PatchError(PatchError::NotContainer))));
    let mut db = Database::open("logs");
    assert!(db.load("d", Some(not_applying), true).is_err());
    assert!(!db.contains("d"));
    assert!(matches!(db.load("d", None, false), Err(DbError::DocumentDoesNotExist)));
}

#[test]
fn loading_twice_keeps_the_first_document() {
    let mut db = Database::open("logs");
    db.load("d", None, true).unwrap();
    let p = db.prepare_patch("d", Patch { ops: vec![Op::Add(vec![], num("1"))] }, &[]).unwrap();
    db.commit(p).unwrap();
    let log = vec![Value::Array(vec![obj(vec![("op", text("add")), ("path", text("")), ("value", num("2"))])])];
    db.load("d", Some(log), true).unwrap();
    assert!(db.find_in_doc("d", &[]).unwrap().equals(&num("1")));
}

#[test]
fn scoped_patch_equals_prefixed_patch() {
    let base = obj(vec![("s", obj(vec![("k", Value::Array(vec![num("1")]))]))]);
    let q = || Patch {
        ops: vec![
            Op::Add(path(&["n"]), num("2")),
            Op::Replace(path(&["k", "0"]), num("5")),
            Op::Copy(path(&["c"]), path(&["n"])),
            Op::Move(path(&["m"]), path(&["c"])),
            Op::Remove(path(&["n"])),
        ],
    };
    let mut one = Database::open("logs");
    one.load("d", None, true).unwrap();
    let p = one.prepare_patch("d", Patch { ops: vec![Op::Add(vec![], base.deep_copy())] }, &[]).unwrap();
    one.commit(p).unwrap();
    let mut two = Database::open("logs");
    two.load("d", None, true).unwrap();
    let p = two.prepare_patch("d", Patch { ops: vec![Op::Add(vec![], base.deep_copy())] }, &[]).unwrap();
    two.commit(p).unwrap();
    let scoped = one.prepare_patch("d", q(), &path(&["s"])).unwrap();
    let sub = one.commit(scoped).unwrap();
    let prefixed = prefix_patch_paths(&path(&["s"]), q());
    let unscoped = two.prepare_patch("d", prefixed, &[]).unwrap();
    two.commit(unscoped).unwrap();
    let a = one.find_in_doc("d", &[]).unwrap();
    assert!(a.equals(&two.find_in_doc("d", &[]).unwrap()));
    assert!(sub.equals(&obj(vec![("k", Value::Array(vec![num("5")])), ("m", num("2"))])));
}

#[test]
fn stale_commit_is_refused() {
    let mut db = Database::open("logs");
    db.load("d", None, true).unwrap();
    let first = db.prepare_patch("d", Patch { ops: vec![Op::Add(vec![], num("1"))] }, &[]).unwrap();
    let second = db.prepare_patch("d", Patch { ops: vec![Op::Add(vec![], num("2"))] }, &[]).unwrap();
    db.commit(first).unwrap();
    assert!(matches!(db.commit(second), Err(DbError::StaleCommit)));
    assert!(db.find_in_doc("d", &[]).unwrap().equals(&num("1")));
}

#[test]
fn commit_reports_missing_scope() {
    let mut db = Database::open("logs");
    db.load("d", None, true).unwrap();
    let p = db.prepare_patch("d", Patch { ops: vec![Op::Add(vec![], obj(vec![("a", num("1"))]))] }, &[]).unwrap();
    db.commit(p).unwrap();
    let p = db.prepare_patch("d", Patch { ops: vec![Op::Remove(vec![])] }, &path(&["a"])).unwrap();
    assert!(matches!(db.commit(p), Err(DbError::PathDoesNotExist)));
    assert!(db.find_in_doc("d", &[]).unwrap().equals(&obj(vec![])));
}

#[test]
fn worker_steps() {
    let mut db = Database::open("logs");
    db.load("d", None, true).unwrap();
    assert!(matches!(worker(&mut db, Message::Quit), Step::Stop));
    match worker(&mut db, Message::Patch(s("d"), Patch { ops: vec![Op::Add(vec![], num("3"))] }, vec![], None)) {
        Step::Reply(Ok(p)) => {
            assert_eq!(p.id(), "d");
            db.commit(p).unwrap();
        },
        _ => panic!("expected a pending patch"),
    }
    assert!(db.find_in_doc("d", &[]).unwrap().equals(&num("3")));
    assert!(matches!(worker(&mut db, Message::Patch(s("x"), Patch { ops: vec![] }, vec![], None)), Step::Reply(Err(DbError::DocumentDoesNotExist))));
    // a scoped message creates its document
    let created = worker(&mut db, Message::Patch(s("y"), Patch { ops: vec![Op::Test(vec![], Value::Null)] }, path(&["k"]), None));
    assert!(matches!(created, Step::Reply(Err(DbError::PatchError(PatchError::PathNotFound)))));
    assert!(db.contains("y"));
}

#[test]
fn log_files_and_records() {
    let logs = MultiLog::new(s("logs"));
    assert_eq!(logs.writer("doc"), "logs/doc");
    assert_eq!(logs.write("doc", b"[1]"), Ok(b"[1]\n".to_vec()));
    assert_eq!(logs.write("doc", b"[1]\n[2]"), Err(LogError::LineBreak));
    let db = Database::open("dir");
    assert_eq!(db.log_file("x"), "dir/x");
}

#[test]
fn pointers() {
    assert_eq!(parse_pointer(""), Vec::<String>::new());
    assert_eq!(parse_pointer("/a/0/b"), path(&["a", "0", "b"]));
    assert_eq!(parse_pointer("/"), path(&[""]));
    assert_eq!(parse_pointer("/a//b/"), path(&["a", "", "b", ""]));
    assert_eq!(write_pointer(&path(&["a", "0"])), "/a/0");
    assert_eq!(write_pointer(&path(&[])), "");
}

#[test]
fn operation_shapes() {
    let bad = |v: Value| Op::from_value(v).unwrap_err();
    assert!(matches!(bad(obj(vec![("path", text("/a"))])), InvalidOpError::MissingProperty(k) if k == "op"));
    assert!(matches!(bad(num("1")), InvalidOpError::MissingProperty(k) if k == "op"));
    assert!(matches!(bad(obj(vec![("op", num("1")), ("path", text("/a"))])), InvalidOpError::MustBeString(k) if k == "op"));
    assert!(matches!(bad(obj(vec![("op", text("add"))])), InvalidOpError::MissingProperty(k) if k == "path"));
    assert!(matches!(bad(obj(vec![("op", text("add")), ("path", text("/a"))])), InvalidOpError::MissingProperty(k) if k == "value"));
    assert!(matches!(bad(obj(vec![("op", text("move")), ("path", text("/a"))])), InvalidOpError::MissingProperty(k) if k == "from"));
    assert!(matches!(bad(obj(vec![("op", text("copy")), ("path", text("/a")), ("from", Value::Null)])), InvalidOpError::MustBeString(k) if k == "from"));
    assert!(matches!(bad(obj(vec![("op", text("jump")), ("path", text("/a"))])), InvalidOpError::UnknownOp(k) if k == "jump"));
    assert!(matches!(Patch::from_value(obj(vec![])), Err(InvalidPatchError::MustBeArray)));
    let two = Value::Array(vec![add("/a", num("1")), obj(vec![("op", text("remove"))])]);
    assert!(matches!(Patch::from_value(two), Err(InvalidPatchError::BadOp(1, InvalidOpError::MissingProperty(_)))));
}

#[test]
fn operations_survive_their_wire_form() {
    let ops = vec![
        Op::Add(path(&["a", "0"]), obj(vec![("k", Value::Bool(true))])),
        Op::Remove(path(&["a"])),
        Op::Replace(path(&[]), text("t")),
        Op::Copy(path(&["x"]), path(&["y", "z"])),
        Op::Move(path(&["p"]), path(&["q"])),
        Op::Test(path(&["r"]), Value::Null),
    ];
    let patch = Patch { ops };
    let wire = patch.to_value();
    let back = Patch::from_value(wire).unwrap();
    assert_eq!(back.ops.len(), 6);
    for (a, b) in patch.ops.iter().zip(back.ops.iter()) {
        assert!(a.to_value().equals(&b.to_value()));
    }
    let one = Op::Copy(path(&["x"]), path(&["y", "z"])).to_value();
    assert!(one.equals(&obj(vec![("op", text("copy")), ("path", text("/x")), ("from", text("/y/z"))])));
    match Op::from_value(one).unwrap() {
        Op::Copy(to, from) => {
            assert_eq!(to, path(&["x"]));
            assert_eq!(from, path(&["y", "z"]));
        },
        other => panic!("unexpected {:?}", other),
    }
}

#[test]
fn scoped_request_creates_document() {
    let mut db = Database::open("logs");
    let patch = Patch { ops: vec![Op::Test(vec![], Value::Null)] };
    let p = db.patch_doc("d", None, patch, &path(&["a"]));
    // the document now exists at null; the scoped test finds nothing at /a
    assert!(matches!(p, Err(DbError::PatchError(PatchError::PathNotFound))));
    assert!(db.contains("d"));
    assert!(db.find_in_doc("d", &[]).unwrap().equals(&Value::Null));
    let unscoped = db.patch_doc("e", None, Patch { ops: vec![] }, &[]);
    assert!(matches!(unscoped, Err(DbError::DocumentDoesNotExist)));
    assert!(!db.contains("e"));
    let log = vec![Value::Array(vec![add("", obj(vec![]))])];
    let p = db.patch_doc("f", Some(log), Patch { ops: vec![Op::Add(path(&["k"]), num("1"))] }, &[]).unwrap();
    assert_eq!(p.id(), "f");
    db.commit(p).unwrap();
    assert!(db.find_in_doc("f", &path(&["k"])).unwrap().equals(&num("1")));
}

#[test]
fn unloggable_path_is_refused() {
    let mut db = Database::open("logs");
    db.load("d", None, true).unwrap();
    let bad = Patch { ops: vec![Op::Add(path(&["a/b"]), num("1"))] };
    assert!(matches!(db.prepare_patch("d", bad, &[]), Err(DbError::UnloggablePath)));
    let ok = Patch { ops: vec![Op::Add(path(&[]), num("1"))] };
    assert!(matches!(db.prepare_patch("d", ok, &path(&["x/y"])), Err(DbError::UnloggablePath)));
    assert!(db.find_in_doc("d", &[]).unwrap().equals(&Value::Null));
}

#[test]
fn load_errors_name_their_cause() {
    let bad = vec![Value::Array(vec![]), num("5")];
    assert!(matches!(Doc::open_log(Some(bad), false), Err(DbError::InvalidPatchError(InvalidPatchError::MustBeArray))));
    let failing = vec![Value::Array(vec![add("/a", num("1"))])];
    assert!(matches!(Doc::open_log(Some(failing), true), Err(DbError::PatchError(PatchError::NotContainer))));
    assert!(matches!(Doc::open_log(None, false), Err(DbError::DocumentDoesNotExist)));
    let fresh = Doc::open_log(None, true).unwrap();
    assert_eq!(fresh.version(), 0);
    assert!(fresh.value().equals(&Value::Null));
    let mut db = Database::open("logs");
    assert!(db.insert_doc("d", fresh));
    assert!(!db.insert_doc("d", Doc::new()));
    assert!(db.contains("d"));
}
