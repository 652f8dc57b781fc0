use qack::config::Config;
use qack::launch::{compiler_args, is_zig_binary_name, run_path, temp_c_name};
use qack::preprocessor::{read_lines, source_file_name, SourceLine};

fn config(input: &str, output: Option<&str>) -> Config {
    Config {
        input: input.to_string(),
        output: output.map(|o| o.to_string()),
        verbose: false,
        keep_temp: false,
        run: false,
        test: false,
    }
}

#[test]
fn final_output_strips_extension() {
    let c = config("prog.qa", None);
    assert_eq!(c.final_output(false), "prog");
    assert_eq!(c.final_output(true), "prog.exe");
    let d = config("a.qa.qa", None);
    assert_eq!(d.final_output(false), "a");
    assert_eq!(d.final_output(true), "a.exe.exe");
}

#[test]
fn final_output_keeps_requested_name() {
    let c = config("prog.qa", Some("bin"));
    assert_eq!(c.final_output(false), "bin");
    assert_eq!(c.final_output(true), "bin");
}

#[test]
fn final_output_without_extension() {
    assert_eq!(config("plain", None).final_output(false), "plain");
}

#[test]
fn source_file_names() {
    assert_eq!(source_file_name("\"lib\";"), "lib.qa");
    assert_eq!(source_file_name(" main.qa "), "main.qa");
    assert_eq!(source_file_name("dir/x"), "dir/x.qa");
    assert_eq!(source_file_name(""), ".qa");
    for p in ["a", "a.qa", " \"b\" ;", ""] {
        assert!(source_file_name(p).ends_with(".qa"));
    }
}

#[test]
fn lines_imports_and_comments() {
    let lines = read_lines("import \"util\";\nset x = 1 # note\nprint(\"# not\") // c\r\n");
    assert_eq!(lines.len(), 3);
    assert!(matches!(&lines[0], SourceLine::Import(p) if p == " \"util\";"));
    assert!(matches!(&lines[1], SourceLine::Code(c) if c == "set x = 1 "));
    assert!(matches!(&lines[2], SourceLine::Code(c) if c == "print(\"# not\") "));
}

#[test]
fn lines_edges() {
    assert_eq!(read_lines("").len(), 0);
    let l = read_lines("a\n\nb\r");
    assert_eq!(l.len(), 3);
    assert!(matches!(&l[0], SourceLine::Code(c) if c == "a"));
    assert!(matches!(&l[1], SourceLine::Code(c) if c.is_empty()));
    assert!(matches!(&l[2], SourceLine::Code(c) if c == "b\r"));
    let m = read_lines("  import x\n/ /a//b\n\"#\"#");
    assert!(matches!(&m[0], SourceLine::Import(p) if p == " x"));
    assert!(matches!(&m[1], SourceLine::Code(c) if c == "/ /a"));
    assert!(matches!(&m[2], SourceLine::Code(c) if c == "\"#\""));
}

#[test]
fn run_paths() {
    assert_eq!(run_path(&"a.out".to_string()), "./a.out");
    assert_eq!(run_path(&"bin/x".to_string()), "bin/x");
    assert_eq!(run_path(&"C:\\x".to_string()), "C:\\x");
    for o in ["a", "b/c", "d\\e"] {
        let p = run_path(&o.to_string());
        assert!(p.contains('/') || p.contains('\\'));
    }
}

#[test]
fn temp_names() {
    assert_eq!(temp_c_name(0), "temp_0.c");
    assert_eq!(temp_c_name(9), "temp_9.c");
    assert_eq!(temp_c_name(10), "temp_10.c");
    assert_eq!(temp_c_name(1234567890123), "temp_1234567890123.c");
    assert_eq!(temp_c_name(u128::MAX), "temp_340282366920938463463374607431768211455.c");
}

#[test]
fn c_compiler_arguments() {
    let a = compiler_args(&"t.c".to_string(), &"t".to_string(), false);
    assert_eq!(a, vec!["t.c", "-o", "t", "-Os", "-s"]);
    let b = compiler_args(&"t.c".to_string(), &"t".to_string(), true);
    assert_eq!(b, vec!["t.c", "-o", "t", "-Os", "-s", "-v"]);
}

#[test]
fn zig_names() {
    assert!(is_zig_binary_name("zig"));
    assert!(is_zig_binary_name("zig.exe"));
    assert!(!is_zig_binary_name("zigx"));
    assert!(!is_zig_binary_name(""));
}
