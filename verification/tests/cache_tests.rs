use vrun::cache::{compile_if_needed, fnv1a_hash, is_up_to_date, read_cache, update_cache, write_cache, CompileStep, HashCache};

fn s(x: &str) -> String {
    x.to_string()
}

#[test]
fn fnv1a_of_known_inputs() {
    assert_eq!(fnv1a_hash(b""), 0xcbf29ce484222325);
    assert_eq!(fnv1a_hash(b"a"), 0xaf63dc4c8601ec8c);
    assert_eq!(fnv1a_hash(b"foobar"), 0x85944171f73967e8);
}

#[test]
fn cache_lines_are_read() {
    let c = read_cache("0123456789abcdef /a/b.cpp\n00000000000000ff /x y.cpp\n");
    assert_eq!(c.len(), 2);
    assert_eq!(c.get("/a/b.cpp"), Some(0x0123456789abcdef));
    assert_eq!(c.get("/x y.cpp"), Some(0xff));
    assert_eq!(c.get("/c.cpp"), None);
}

#[test]
fn one_line_cache_file() {
    let c = read_cache("00000000000000ff /a\n");
    assert_eq!(c.len(), 1);
    assert_eq!(c.get("/a"), Some(0xff));
}

#[test]
fn bad_lines_are_skipped_and_the_later_line_wins() {
    let c = read_cache("00000000000000ff /a/b.cpp\nnospace\nxyz /c.cpp\n0000000000000001 /a/b.cpp\n");
    assert_eq!(c.len(), 1);
    assert_eq!(c.get("/a/b.cpp"), Some(1));
    assert_eq!(c.get("/c.cpp"), None);
}

#[test]
fn malformed_cache_lines_are_skipped() {
    let c = read_cache("zz /x\nnospace\n\n+1 /p\n+ /q\n10000000000000000 /big\nFF /upper\r\n");
    assert_eq!(c.get("/x"), None);
    assert_eq!(c.get("/p"), Some(1));
    assert_eq!(c.get("/q"), None);
    assert_eq!(c.get("/big"), None);
    assert_eq!(c.get("/upper"), Some(255));
    assert_eq!(c.len(), 2);
}

#[test]
fn later_line_wins() {
    let c = read_cache("1 /e\n2 /e\n");
    assert_eq!(c.len(), 1);
    assert_eq!(c.get("/e"), Some(2));
}

#[test]
fn documented_lines_are_written() {
    let mut c = HashCache::new();
    assert_eq!(write_cache(&c), "");
    c.insert(s("/a.cpp"), 255);
    assert_eq!(write_cache(&c), "00000000000000ff /a.cpp\n");
}

#[test]
fn cache_written_and_read_back() {
    let mut c = HashCache::new();
    c.insert(s("/p/temp/main"), 0xdeadbeef);
    c.insert(s("/p/temp/x y"), u64::MAX);
    let text = write_cache(&c);
    assert_eq!(text, "00000000deadbeef /p/temp/main\nffffffffffffffff /p/temp/x y\n");
    let back = read_cache(&text);
    assert_eq!(back.get("/p/temp/main"), Some(0xdeadbeef));
    assert_eq!(back.get("/p/temp/x y"), Some(u64::MAX));
    assert_eq!(write_cache(&back), text);
}

#[test]
fn update_replaces_and_keeps_others() {
    let first = update_cache("", "/t/main", 7);
    assert_eq!(first, "0000000000000007 /t/main\n");
    let second = update_cache(&first, "/t/other", 9);
    let third = update_cache(&second, "/t/main", 8);
    let c = read_cache(&third);
    assert_eq!(c.get("/t/main"), Some(8));
    assert_eq!(c.get("/t/other"), Some(9));
    assert_eq!(third, "0000000000000008 /t/main\n0000000000000009 /t/other\n");
}

#[test]
fn up_to_date_after_update() {
    let content = update_cache("0000000000000001 /other\n", "/t/main", 42);
    assert!(is_up_to_date(true, Some(42), &content, "/t/main"));
    assert!(!is_up_to_date(false, Some(42), &content, "/t/main"));
    assert!(!is_up_to_date(true, Some(41), &content, "/t/main"));
    assert!(!is_up_to_date(true, None, &content, "/t/main"));
    assert!(!is_up_to_date(true, Some(42), "", "/t/main"));
    assert!(!is_up_to_date(true, Some(42), &content, "/t/other"));
}

#[test]
fn shared_binary_is_rebuilt_for_the_other_source() {
    let after_a = update_cache("", "/d/temp/main", 100);
    let after_b = update_cache(&after_a, "/d/temp/main", 200);
    assert_eq!(after_b, "00000000000000c8 /d/temp/main\n");
    assert_eq!(compile_if_needed(false, true, Some(100), &after_b, "/d/temp/main"), CompileStep::Compile);
    assert_eq!(compile_if_needed(false, true, Some(200), &after_b, "/d/temp/main"), CompileStep::UpToDate);
}

#[test]
fn compile_decisions() {
    let content = update_cache("", "/e", 3);
    assert_eq!(compile_if_needed(true, false, None, "", "/e"), CompileStep::MissingBinary);
    assert_eq!(compile_if_needed(true, true, None, "", "/e"), CompileStep::ReuseBinary);
    assert_eq!(compile_if_needed(false, true, Some(3), &content, "/e"), CompileStep::UpToDate);
    assert_eq!(compile_if_needed(false, true, Some(4), &content, "/e"), CompileStep::Compile);
    assert_eq!(compile_if_needed(false, false, Some(3), &content, "/e"), CompileStep::Compile);
}
