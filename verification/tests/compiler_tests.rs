use qack::compiler::{can_compile, compile, compile_for, fix_vars};

const UNIX_PRELUDE: &str = "#include <stdio.h>\n#include <stdlib.h>\n#include <unistd.h>\n#define _qa_sleep(ms) usleep((ms) * 1000)\nvoid _qa_clear() { int c; while ((c = getchar()) != '\\n' && c != EOF); }\n\n";
const WINDOWS_PRELUDE: &str = "#include <stdio.h>\n#include <stdlib.h>\n#include <windows.h>\n#define _qa_sleep(ms) Sleep(ms)\nvoid _qa_clear() { int c; while ((c = getchar()) != '\\n' && c != EOF); }\n\n";

fn program(prelude: &str, globals: &str, functions: &str, calls: &str) -> String {
    format!("{}{}{}\nint main() {{\n{}\n    return 0;\n}}", prelude, globals, functions, calls)
}

#[test]
fn fix_vars_renames_names_and_keeps_literals() {
    assert_eq!(fix_vars("5 = 5 + 3"), "v5 = 5 + 3");
    assert_eq!(fix_vars("x = 10"), "x = 10");
    assert_eq!(fix_vars("(5)"), "(v5)");
    assert_eq!(fix_vars("55 5"), "v55 v5");
}

#[test]
fn fix_vars_minus_signs() {
    assert_eq!(fix_vars("-"), "-");
    assert_eq!(fix_vars("-5"), "v-5");
    assert_eq!(fix_vars("a-b"), "a-b");
    assert_eq!(fix_vars("1 - 2"), "v1 - 2");
}

#[test]
fn fix_vars_normalises_spacing() {
    assert_eq!(fix_vars("  1   2  "), "v1 v2");
    assert_eq!(fix_vars("1\t\u{3000}2\n"), "v1 v2");
    assert_eq!(fix_vars(""), "");
    assert_eq!(fix_vars("   "), "");
}

#[test]
fn fix_vars_mixed_words_stay() {
    assert_eq!(fix_vars("10,20"), "10,20");
    assert_eq!(fix_vars("_qa_sleep(5)"), "_qa_sleep(5)");
    assert_eq!(fix_vars("f(1, 2)"), "f(1, v2)");
}

#[test]
fn fix_vars_non_ascii_numerals() {
    // Arabic-Indic three and the Roman numeral twelve are numeric.
    assert_eq!(fix_vars("\u{663}"), "v\u{663}");
    assert_eq!(fix_vars("\u{216b} = 1"), "v\u{216b} = 1");
    // A letter beyond ASCII is alphanumeric but not numeric.
    assert_eq!(fix_vars("\u{e9}5"), "\u{e9}5");
}

#[test]
fn fix_vars_is_idempotent_on_examples() {
    for line in ["5 = 5 + 3", "(5) + 7", "-5 - 3", "  1   2  ", "x = 1 , 2", "\u{663}"] {
        let once = fix_vars(line);
        assert_eq!(fix_vars(&once), once);
    }
}

#[test]
fn compile_globals_and_function() {
    let src = "set 64 big = 100;\nset 5 = 3;\nfun add(1, 2) {\nprint(1)\n};\nexec(add, 1, 2);\n";
    let expected = program(
        UNIX_PRELUDE,
        "long long big = 100;\nint v5 = 3;\n",
        "void add(int v1, int v2) {\n    printf(\"%lld\\n\", (long long)(v1));\n}\n\n",
        "    add(v1, v2);\n",
    );
    assert_eq!(compile_for(&src.to_string(), false), Some(expected));
}

#[test]
fn compile_if_else_and_strings() {
    let src = "fun check(1) {\nif 1 = 0 {\nprint(\"zero\")\n} else {\nprint(1)\n}\n};";
    let expected = program(
        UNIX_PRELUDE,
        "",
        "void check(int v1) {\n    if (v1 == 0) {\n    printf(\"%s\\n\", \"zero\");\n    } else {\n    printf(\"%lld\\n\", (long long)(v1));\n    }\n}\n\n",
        "",
    );
    assert_eq!(compile_for(&src.to_string(), false), Some(expected));
}

#[test]
fn compile_loops_input_sleep_clear() {
    let src = "fun run() {\nloop {\ninput(7)\nif 7 > 3 and 7 < 9 {\nbreak\n}\nelif 7 = 1 or 7 >= 2 {\nsleep(5)\n}\nclear\nset 32 8 = 7\n8 = 8 + 1\n}\n};\nexec(run);";
    let expected = program(
        UNIX_PRELUDE,
        "",
        "void run(void) {\n    while (1) {\n    scanf(\"%lld\", &v7);\n    if (v7 > 3 && v7 < 9) {\n    break;\n    }\n    } else if (v7 = 1 || v7 >= 2) {\n    _qa_sleep(5);\n    }\n    _qa_clear();\n    int v8 = 7;\n    v8 = 8 + 1;\n    }\n}\n\n",
        "    run();\n",
    );
    assert_eq!(compile_for(&src.to_string(), false), Some(expected));
}

#[test]
fn compile_empty_program() {
    assert_eq!(compile_for(&String::new(), false), Some(program(UNIX_PRELUDE, "", "", "")));
}

#[test]
fn compile_for_windows_changes_only_prelude() {
    let src = "set 64 big = 100;\nexec(go);".to_string();
    let unix = compile_for(&src, false).unwrap();
    let windows = compile_for(&src, true).unwrap();
    assert!(unix.starts_with(UNIX_PRELUDE));
    assert!(windows.starts_with(WINDOWS_PRELUDE));
    assert_eq!(&unix[UNIX_PRELUDE.len()..], &windows[WINDOWS_PRELUDE.len()..]);
    assert_eq!(&unix[UNIX_PRELUDE.len()..], "long long big = 100;\n\nint main() {\n    go();\n\n    return 0;\n}");
}

#[test]
fn compile_follows_the_platform_flag() {
    let src = "exec(go);".to_string();
    assert_eq!(Some(compile(src.clone(), false)), compile_for(&src, false));
    assert_eq!(Some(compile(src.clone(), true)), compile_for(&src, true));
    assert!(compile(src.clone(), false).starts_with(UNIX_PRELUDE));
    assert!(compile(src, true).starts_with(WINDOWS_PRELUDE));
}

#[test]
fn compile_rejects_parameters_after_their_end() {
    let src = "fun f)( {\n};".to_string();
    assert!(!can_compile(&src));
    assert_eq!(compile_for(&src, false), None);
    assert_eq!(compile_for(&src, true), None);
}

#[test]
fn compile_rejects_exec_without_arguments() {
    let src = "exec)(;".to_string();
    assert!(!can_compile(&src));
    assert_eq!(compile_for(&src, false), None);
}

#[test]
fn compile_rejects_print_without_closing_paren() {
    let src = "fun f() {\nprint(1\n};".to_string();
    assert!(!can_compile(&src));
    assert_eq!(compile_for(&src, true), None);
}

#[test]
fn compile_rejects_input_without_closing_paren() {
    let src = "fun f() {\ninput(1\n};".to_string();
    assert!(!can_compile(&src));
}

#[test]
fn compile_rejects_body_end_before_start() {
    let src = "x};{".to_string();
    assert!(!can_compile(&src));
    assert_eq!(compile_for(&src, false), None);
}

#[test]
fn compile_program_without_globals_keeps_statements() {
    let src = "exec(a);exec(b, 1)".to_string();
    let expected = program(UNIX_PRELUDE, "", "", "    a();\n    b(v1);\n");
    assert_eq!(compile_for(&src, false), Some(expected));
}

#[test]
fn compile_program_of_calls_only() {
    let src = "  exec(a, 1) ; print(2); exec(b)\n".to_string();
    let expected = program(UNIX_PRELUDE, "", "", "    a(v1);\n    b();\n");
    assert_eq!(compile_for(&src, false), Some(expected));
    let bad = " x; exec)(".to_string();
    assert!(!can_compile(&bad));
}
