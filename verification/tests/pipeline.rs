use swallow::clangize::{gcc_clangized_options, gcc_toolchain_from_prog, trimmed_stdout, Clangizer};
use swallow::codec::{decode_record, encode_record, Cmdline};
use swallow::emit::{join_space, render_database, render_entry};
use swallow::hook::{has_output_token, hook_verdict, should_capture, HookReturn};
use swallow::pattern::matches_compiler_name;
use swallow::server::{capture_from_invocation, decode_connection, filename_from_args};

fn strings(parts: &[&str]) -> Vec<String> {
    parts.iter().map(|p| p.to_string()).collect()
}

#[test]
fn nonmatching_names_pass_through() {
    for name in [
        "ls",
        "make",
        "clang",
        "gc",
        "accc",
        "ggcc",
        "gcc2",
        "/usr/bin/ld",
        "gcc-",
        "gcc-4.9.2.1",
        "gcc-4..2",
        "++",
        "cc-o2",
    ] {
        assert!(!matches_compiler_name(name), "{name} should not match");
        let argv = strings(&[name, "-o", "a.out", "a.c"]);
        assert!(!should_capture(&argv));
        assert_eq!(hook_verdict(should_capture(&argv), true), HookReturn::CallReal);
    }
}

#[test]
fn matching_names() {
    for name in [
        "cc",
        "gcc",
        "g++",
        "c++",
        "/usr/bin/gcc",
        "/usr/bin/c++",
        "some/dir/cc",
        "arm-linux-gnueabi-gcc",
        "x86_64-c++",
        "gcc-7",
        "gcc-4.9",
        "gcc-4.9.2",
        "/opt/cross/bin/aarch64-linux-gnu-g++-10.2",
        "-gcc",
    ] {
        assert!(matches_compiler_name(name), "{name} should match");
    }
}

#[test]
fn missing_output_flag_passes_through() {
    let argv = strings(&["gcc", "--version"]);
    assert!(!has_output_token(&argv));
    assert!(!should_capture(&argv));
    assert_eq!(hook_verdict(should_capture(&argv), true), HookReturn::CallReal);
    // a prefix is not the exact token
    let argv = strings(&["gcc", "-o2", "-output", "x.c"]);
    assert!(!has_output_token(&argv));
}

#[test]
fn capture_verdicts() {
    let argv = strings(&["gcc", "-o", "a.out", "a.c"]);
    assert!(should_capture(&argv));
    assert_eq!(hook_verdict(true, true), HookReturn::Success);
    assert_eq!(hook_verdict(true, false), HookReturn::CallReal);
    assert_eq!(hook_verdict(false, true), HookReturn::CallReal);
    assert_eq!(hook_verdict(false, false), HookReturn::CallReal);
}

#[test]
fn empty_argv_passes_through() {
    let argv: Vec<String> = Vec::new();
    assert!(!should_capture(&argv));
}

#[test]
fn wire_record_round_trip() {
    let record = Cmdline {
        prog: "/usr/bin/gcc".to_string(),
        argv: strings(&["gcc", "-o", "a.out", "a.c"]),
        dir: "/home/user/project".to_string(),
    };
    let bytes = encode_record(&record);
    let (back, end) = decode_record(&bytes, 0).expect("decodes");
    assert_eq!(end, bytes.len());
    assert_eq!(back.prog, record.prog);
    assert_eq!(back.argv, record.argv);
    assert_eq!(back.dir, record.dir);
}

#[test]
fn wire_record_exact_bytes() {
    let record = Cmdline { prog: "a".to_string(), argv: strings(&["b"]), dir: "c".to_string() };
    let bytes = encode_record(&record);
    let expected: Vec<u8> = vec![
        1, 0, 0, 0, 0, 0, 0, 0, b'a', // prog
        1, 0, 0, 0, 0, 0, 0, 0, // one argument
        1, 0, 0, 0, 0, 0, 0, 0, b'b', // the argument
        1, 0, 0, 0, 0, 0, 0, 0, b'c', // dir
    ];
    assert_eq!(bytes, expected);
}

#[test]
fn wire_records_are_self_delimiting() {
    let first = Cmdline {
        prog: "cc".to_string(),
        argv: strings(&["cc", "-o", "x", "x.c"]),
        dir: "/d1".to_string(),
    };
    let second = Cmdline {
        prog: "g++".to_string(),
        argv: strings(&["g++", "-o", "y", "y.cpp"]),
        dir: "/d2".to_string(),
    };
    let mut bytes = encode_record(&first);
    bytes.extend_from_slice(&encode_record(&second));
    let (b1, p1) = decode_record(&bytes, 0).expect("first decodes");
    let (b2, p2) = decode_record(&bytes, p1).expect("second decodes");
    assert_eq!(p2, bytes.len());
    assert_eq!(b1.prog, "cc");
    assert_eq!(b2.prog, "g++");
    assert_eq!(b2.argv, second.argv);
    assert_eq!(b2.dir, "/d2");
}

#[test]
fn truncated_record_is_rejected() {
    let record = Cmdline {
        prog: "cc".to_string(),
        argv: strings(&["cc", "-o", "x", "x.c"]),
        dir: "/d".to_string(),
    };
    let mut bytes = encode_record(&record);
    bytes.pop();
    assert!(decode_record(&bytes, 0).is_none());
    assert!(decode_record(&Vec::new(), 0).is_none());
    assert!(decode_record(&vec![0xff; 7], 0).is_none());
}

#[test]
fn non_utf8_field_is_rejected() {
    let mut bytes: Vec<u8> = vec![2, 0, 0, 0, 0, 0, 0, 0, 0xff, 0xfe];
    bytes.extend_from_slice(&[0; 8]);
    assert!(decode_record(&bytes, 0).is_none());
}

#[test]
fn filter_drops_invocation_without_source() {
    let args = strings(&["gcc", "-o", "a.out", "a.o", "b.o"]);
    assert!(filename_from_args(&args).is_none());
    let inv = Cmdline { prog: "gcc".to_string(), argv: args, dir: "/w".to_string() };
    assert!(capture_from_invocation(inv).is_none());
}

#[test]
fn filter_keeps_single_source_and_rewrites_argv0() {
    let inv = Cmdline {
        prog: "/usr/bin/gcc".to_string(),
        argv: strings(&["gcc", "-o", "a.out", "a.c"]),
        dir: "/work".to_string(),
    };
    let cc = capture_from_invocation(inv).expect("kept");
    assert_eq!(cc.file, "a.c");
    assert_eq!(cc.directory, "/work");
    assert_eq!(cc.command, strings(&["/usr/bin/gcc", "-o", "a.out", "a.c"]));
}

#[test]
fn filter_takes_first_source_case_insensitively() {
    let args = strings(&["CC", "-o", "out", "Main.CPP", "other.c"]);
    assert_eq!(filename_from_args(&args).as_deref(), Some("Main.CPP"));
    let args = strings(&["cc", "x.C"]);
    assert_eq!(filename_from_args(&args).as_deref(), Some("x.C"));
    // a name merely containing the suffix does not count
    let args = strings(&["cc", "x.cc", "x.cpp.bak"]);
    assert!(filename_from_args(&args).is_none());
}

#[test]
fn connection_decode_filters_and_keeps_order() {
    let compile = Cmdline {
        prog: "cc".to_string(),
        argv: strings(&["cc", "-o", "a.out", "a.c"]),
        dir: "/w".to_string(),
    };
    let link = Cmdline {
        prog: "cc".to_string(),
        argv: strings(&["cc", "-o", "a.out", "a.o"]),
        dir: "/w".to_string(),
    };
    let second = Cmdline {
        prog: "c++".to_string(),
        argv: strings(&["c++", "-o", "b", "b.cpp"]),
        dir: "/w2".to_string(),
    };
    let mut bytes = encode_record(&compile);
    bytes.extend_from_slice(&encode_record(&link));
    bytes.extend_from_slice(&encode_record(&second));
    let captured = decode_connection(&bytes);
    assert_eq!(captured.len(), 2);
    assert_eq!(captured[0].file, "a.c");
    assert_eq!(captured[1].file, "b.cpp");
    assert_eq!(captured[1].directory, "/w2");
}

#[test]
fn connection_decode_stops_at_garbage() {
    let compile = Cmdline {
        prog: "cc".to_string(),
        argv: strings(&["cc", "-o", "a.out", "a.c"]),
        dir: "/w".to_string(),
    };
    let mut bytes = encode_record(&compile);
    bytes.extend_from_slice(&[0xff, 0xff, 0xff]);
    let captured = decode_connection(&bytes);
    assert_eq!(captured.len(), 1);
    assert_eq!(captured[0].file, "a.c");
    assert!(decode_connection(&Vec::new()).is_empty());
}

#[test]
fn trimmed_stdout_trims_and_rejects() {
    assert_eq!(trimmed_stdout(b"abc\n".to_vec()).as_deref(), Some("abc"));
    assert_eq!(trimmed_stdout(b"a b\t\r\n ".to_vec()).as_deref(), Some("a b"));
    assert_eq!(trimmed_stdout(b"x".to_vec()).as_deref(), Some("x"));
    assert!(trimmed_stdout(b"".to_vec()).is_none());
    assert!(trimmed_stdout(b" \n\t".to_vec()).is_none());
    assert!(trimmed_stdout(vec![0xff, 0xfe]).is_none());
}

#[test]
fn toolchain_is_two_levels_up() {
    assert_eq!(gcc_toolchain_from_prog("/usr/bin/gcc").as_deref(), Some("/usr"));
    assert_eq!(gcc_toolchain_from_prog("/opt/cross/bin/arm-gcc").as_deref(), Some("/opt/cross"));
    assert_eq!(gcc_toolchain_from_prog("bin/gcc").as_deref(), Some(""));
    assert_eq!(gcc_toolchain_from_prog("/gcc").as_deref(), None);
    assert_eq!(gcc_toolchain_from_prog("gcc").as_deref(), None);
    assert_eq!(gcc_toolchain_from_prog("").as_deref(), None);
}

#[test]
fn options_from_probe_outputs() {
    let opts = gcc_clangized_options(
        "/usr/bin/gcc",
        Some(b"/sysroot\n".to_vec()),
        Some(b"x86_64-linux-gnu\n".to_vec()),
    );
    assert_eq!(
        opts,
        strings(&["--sysroot=/sysroot", "-target", "x86_64-linux-gnu", "--gcc-toolchain=/usr"])
    );
}

#[test]
fn failed_sysroot_probe_omits_only_that_flag() {
    let opts = gcc_clangized_options("gcc", None, Some(b"arm-linux-gnueabi\n".to_vec()));
    assert_eq!(opts, strings(&["-target", "arm-linux-gnueabi"]));
    assert!(opts.iter().any(|o| o == "-target"));
    assert!(opts.iter().all(|o| !o.starts_with("--sysroot")));
}

#[test]
fn blank_probe_output_omits_flag() {
    let opts = gcc_clangized_options("gcc", Some(b"\n".to_vec()), None);
    assert!(opts.is_empty());
}

#[test]
fn rewrite_uses_cache_on_second_call() {
    let mut clangizer = Clangizer::new();
    let prog = "/usr/bin/gcc";
    assert!(clangizer.needs_probe(prog));
    clangizer.record_probe(prog, None, Some(b"x86_64-linux-gnu\n".to_vec()));
    assert!(!clangizer.needs_probe(prog));
    let argv = strings(&["/usr/bin/gcc", "-o", "a.out", "a.c"]);
    let first = clangizer.clangize(argv.clone());
    assert_eq!(
        first,
        strings(&["clang", "-o", "a.out", "a.c", "-target", "x86_64-linux-gnu", "--gcc-toolchain=/usr"])
    );
    // still cached: no new probe outcome can displace the first one
    assert!(!clangizer.needs_probe(prog));
    clangizer.record_probe(prog, Some(b"/other\n".to_vec()), None);
    let second = clangizer.clangize(argv);
    assert_eq!(first, second);
    // a different driver path keeps its own entry
    assert!(clangizer.needs_probe("/usr/bin/g++"));
}

#[test]
fn rewrite_with_target_but_no_sysroot() {
    let mut clangizer = Clangizer::new();
    clangizer.record_probe("gcc", None, Some(b"aarch64-linux-gnu\n".to_vec()));
    let rewritten = clangizer.clangize(strings(&["gcc", "-o", "a.out", "a.c"]));
    assert!(rewritten.iter().any(|a| a == "-target"));
    assert!(rewritten.iter().all(|a| !a.starts_with("--sysroot=")));
}

#[test]
fn join_space_joins() {
    assert_eq!(join_space(&strings(&["cc", "-o", "a", "a.c"])), "cc -o a a.c");
    assert_eq!(join_space(&strings(&["one"])), "one");
    assert_eq!(join_space(&Vec::new()), "");
}

#[test]
fn entry_rendering_escapes() {
    let entry = render_entry("/w", "cc -o a a.c", "a.c");
    assert_eq!(entry, "{\"directory\":\"/w\",\"command\":\"cc -o a a.c\",\"file\":\"a.c\"}");
    let tricky = render_entry("/a\"b", "x\\y", "a\nb\u{1}.c");
    assert_eq!(
        tricky,
        "{\"directory\":\"/a\\\"b\",\"command\":\"x\\\\y\",\"file\":\"a\\nb\\u0001.c\"}"
    );
    let parsed: serde_json::Value = serde_json::from_str(&tricky).expect("valid JSON");
    assert_eq!(parsed["directory"].as_str(), Some("/a\"b"));
    assert_eq!(parsed["command"].as_str(), Some("x\\y"));
    assert_eq!(parsed["file"].as_str(), Some("a\nb\u{1}.c"));
}

#[test]
fn database_rendering_is_valid_json() {
    let entries = vec![
        render_entry("/w", "cc -o a a.c", "a.c"),
        render_entry("/w", "c++ -o b b.cpp", "b.cpp"),
    ];
    let db = render_database(&entries);
    let parsed: serde_json::Value = serde_json::from_str(&db).expect("valid JSON array");
    assert_eq!(parsed.as_array().map(|a| a.len()), Some(2));
    assert_eq!(parsed[1]["file"].as_str(), Some("b.cpp"));
    // an interrupted run that wrote no record still leaves a valid array
    let empty = render_database(&Vec::new());
    let parsed: serde_json::Value = serde_json::from_str(&empty).expect("valid empty array");
    assert_eq!(parsed.as_array().map(|a| a.len()), Some(0));
}

#[test]
fn end_to_end_single_stub_compile() {
    // the monitored child runs `cc -o a.out a.c` in /work; the interceptor
    // decides, encodes, and the collecting side ingests and renders
    let argv = strings(&["cc", "-o", "a.out", "a.c"]);
    assert!(should_capture(&argv));
    let record = Cmdline { prog: "cc".to_string(), argv, dir: "/work".to_string() };
    let wire = encode_record(&record);
    let captured = decode_connection(&wire);
    assert_eq!(captured.len(), 1);
    let cc = &captured[0];
    assert_eq!(cc.file, "a.c");
    assert_eq!(cc.directory, "/work");
    let command = join_space(&cc.command);
    assert!(command.starts_with("cc"));
    let entry = render_entry(&cc.directory, &command, &cc.file);
    let db = render_database(&vec![entry]);
    let parsed: serde_json::Value = serde_json::from_str(&db).expect("valid JSON");
    assert_eq!(parsed[0]["directory"].as_str(), Some("/work"));
    assert_eq!(parsed[0]["command"].as_str(), Some("cc -o a.out a.c"));
    assert_eq!(parsed[0]["file"].as_str(), Some("a.c"));
}
