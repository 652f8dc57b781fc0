//! Compilation of Qa source text into C source text.
use vstd::prelude::*;

use crate::text::{
    back_run_len, char_numeric, chars_of, concat_map, contains, contains_char, ends_with_char,
    find, first_match, has_sub, is_numeric, is_symbol, is_ws, join, join_with, last_match,
    law_split_join, lemma_back_run_len, lemma_back_run_len_at, lemma_concat_map_empty,
    lemma_concat_map_step, lemma_first_match, lemma_first_match_at, lemma_last_match,
    lemma_run_len, lemma_run_len_at, lemma_split_on_len, lemma_texts_push, lemma_words_join,
    lemma_words_shape, matches_at, no_ws, push_all, replace, replace_all, replace_first,
    replacen_one, rfind, run_len, same, single, slice, split, split_on, split_words,
    starts_with, symbol_pred, texts, to_string, trim, trim_by, trim_with, trim_ws, words, Strip,
};

verus! {

// ---------------------------------------------------------------------------
// Variable names
// ---------------------------------------------------------------------------

/// A word whose core (the word without surrounding symbols) is made of
/// numeric characters, where a `-` counts only in a core longer than one
/// character. Such words name variables.
pub open spec fn numeric_like(w: Seq<char>) -> bool {
    &&& w.len() > 0
    &&& forall|j: int|
        0 <= j < w.len() ==> char_numeric(#[trigger] w[j]) || (w[j] == '-' && w.len() > 1)
}

/// The operator words after which a number stays a literal.
pub open spec fn is_operator(w: Seq<char>) -> bool {
    ||| w == "="@
    ||| w == "<"@
    ||| w == ">"@
    ||| w == "<="@
    ||| w == ">="@
    ||| w == "=="@
    ||| w == "+"@
    ||| w == "-"@
    ||| w == "*"@
    ||| w == "/"@
    ||| w == ","@
}

/// The core of a word: the word without its leading and trailing symbols.
pub open spec fn word_core(w: Seq<char>) -> Seq<char> {
    trim_by(w, symbol_pred())
}

/// One word after renaming: a numeric-like word that does not follow an
/// operator has each occurrence of its core prefixed with `v`.
pub open spec fn fix_word(w: Seq<char>, after_operator: bool) -> Seq<char> {
    if numeric_like(word_core(w)) && !after_operator {
        replace_all(w, word_core(w), seq!['v'] + word_core(w))
    } else {
        w
    }
}

/// The words of a line after renaming.
pub open spec fn fixed_words(ws: Seq<Seq<char>>) -> Seq<Seq<char>> {
    Seq::new(ws.len(), |i: int| fix_word(ws[i], i > 0 && is_operator(ws[i - 1])))
}

/// A line whose numeric names are turned into C identifiers: its words,
/// renamed, joined by single spaces.
pub open spec fn fixed_vars(c: Seq<char>) -> Seq<char> {
    join(fixed_words(words(c)), seq![' '])
}

/// Whether `w` is an operator word.
fn is_operator_word(w: &Vec<char>) -> (r: bool)
    ensures
        r == is_operator(w@),
{
    same(w, &chars_of("=")) || same(w, &chars_of("<")) || same(w, &chars_of(">")) || same(
        w,
        &chars_of("<="),
    ) || same(w, &chars_of(">=")) || same(w, &chars_of("==")) || same(w, &chars_of("+"))
        || same(w, &chars_of("-")) || same(w, &chars_of("*")) || same(w, &chars_of("/")) || same(
        w,
        &chars_of(","),
    )
}

/// Whether `w` is made of numeric characters (and `-` when longer than one).
fn is_numeric_like(w: &Vec<char>) -> (r: bool)
    ensures
        r == numeric_like(w@),
{
    if w.len() == 0 {
        return false;
    }
    let mut i: usize = 0;
    while i < w.len()
        invariant
            0 < w.len(),
            i <= w.len(),
            forall|j: int|
                0 <= j < i ==> char_numeric(#[trigger] w@[j]) || (w@[j] == '-' && w@.len()
                    > 1),
        decreases w.len() - i,
    {
        if !(is_numeric(w[i]) || (w[i] == '-' && w.len() > 1)) {
            return false;
        }
        i += 1;
    }
    true
}

/// One word, renamed.
fn fix_one(w: &Vec<char>, after_operator: bool) -> (r: Vec<char>)
    ensures
        r@ == fix_word(w@, after_operator),
{
    let clean = trim_with(w, Strip::Symbol);
    if is_numeric_like(&clean) && !after_operator {
        let mut name = vec!['v'];
        push_all(&mut name, &clean);
        assert(name@ =~= seq!['v'] + clean@);
        replace(w, &clean, &name)
    } else {
        assert(w@.subrange(0, w@.len() as int) =~= w@);
        slice(w, 0, w.len())
    }
}

/// The line `c` with its numeric names turned into identifiers.
fn fix_vars_chars(c: &Vec<char>) -> (r: Vec<char>)
    ensures
        r@ == fixed_vars(c@),
{
    let ws = split_words(c);
    let ghost fw = fixed_words(texts(ws@));
    let mut out: Vec<Vec<char>> = Vec::new();
    let mut i: usize = 0;
    while i < ws.len()
        invariant
            i <= ws.len(),
            fw == fixed_words(texts(ws@)),
            texts(out@) == fw.take(i as int),
        decreases ws.len() - i,
    {
        let after_operator = i > 0 && is_operator_word(&ws[i - 1]);
        assert(texts(ws@)[i as int] == ws@[i as int]@);
        assert(i > 0 ==> texts(ws@)[i - 1] == ws@[i - 1]@);
        let w = fix_one(&ws[i], after_operator);
        proof {
            lemma_texts_push(out@, w);
            assert(fw.take(i + 1) =~= fw.take(i as int).push(w@));
        }
        out.push(w);
        i += 1;
    }
    assert(fw.take(ws.len() as int) =~= fw);
    let space = vec![' '];
    assert(space@ =~= seq![' ']);
    join_with(&out, &space)
}

/// Turns the numeric names in `c` into C identifiers by prefixing them with
/// `v`; numbers that follow an operator stay literals. The words of `c` come
/// back joined by single spaces.
pub fn fix_vars(c: &str) -> (r: String)
    ensures
        r@ == fixed_vars(c@),
{
    let v = chars_of(c);
    to_string(&fix_vars_chars(&v))
}


// ---------------------------------------------------------------------------
// Statements
// ---------------------------------------------------------------------------

/// A `set` statement as a C declaration: `set 64` declares a `long long`,
/// `set 32` and plain `set` an `int`; names are then renamed.
pub open spec fn set_decl(c: Seq<char>) -> Seq<char> {
    let declared = if "set 64"@.is_prefix_of(c) {
        replace_first(c, "set 64"@, "long long"@)
    } else if "set 32"@.is_prefix_of(c) {
        replace_first(c, "set 32"@, "int"@)
    } else {
        replace_first(c, "set"@, "int"@)
    };
    fixed_vars(declared)
}

/// A `set` statement as a C declaration.
fn process_set(c: &Vec<char>) -> (r: Vec<char>)
    ensures
        r@ == set_decl(c@),
{
    let declared = if starts_with(c, &chars_of("set 64")) {
        replacen_one(c, &chars_of("set 64"), &chars_of("long long"))
    } else if starts_with(c, &chars_of("set 32")) {
        replacen_one(c, &chars_of("set 32"), &chars_of("int"))
    } else {
        replacen_one(c, &chars_of("set"), &chars_of("int"))
    };
    fix_vars_chars(&declared)
}

/// Where the arguments of an `exec` line start: after its first `(`, or
/// after its first character when it has none.
pub open spec fn exec_args_start(cmd: Seq<char>) -> int {
    match first_match(cmd, seq!['(']) {
        Some(i) => i + 1,
        None => 1,
    }
}

/// Where the arguments of an `exec` line end: at its last `)`, or at its end
/// when it has none.
pub open spec fn exec_args_end(cmd: Seq<char>) -> int {
    match last_match(cmd, seq![')']) {
        Some(j) => j,
        None => cmd.len() as int,
    }
}

/// An `exec` line can be compiled: its arguments do not end before they
/// start, and, where it has no `(`, its first character (after which the
/// arguments then start) is a single byte.
pub open spec fn exec_line_ok(cmd: Seq<char>) -> bool {
    &&& exec_args_start(cmd) <= exec_args_end(cmd)
    &&& first_match(cmd, seq!['(']) is None ==> cmd[0] <= '\u{7f}'
}

/// An `exec` line as a C call: the renamed arguments up to the first comma
/// name the function, the rest are its arguments.
pub open spec fn exec_call(cmd: Seq<char>) -> Seq<char> {
    let call = fixed_vars(cmd.subrange(exec_args_start(cmd), exec_args_end(cmd)));
    match first_match(call, seq![',']) {
        Some(k) => trim(call.take(k)) + "("@ + trim(call.skip(k + 1)) + ")"@,
        None => trim(call) + "()"@,
    }
}

/// An `exec` line as a C call, or `None` where it cannot be compiled.
fn process_exec_line(cmd: &Vec<char>) -> (r: Option<Vec<char>>)
    ensures
        r is Some <==> exec_line_ok(cmd@),
        r matches Some(v) ==> v@ == exec_call(cmd@),
{
    proof {
        lemma_first_match(cmd@, seq!['(']);
        lemma_last_match(cmd@, seq![')']);
    }
    let start = match find(cmd, &single('(')) {
        Some(i) => {
            assert(first_match(cmd@, seq!['(']) == Some(i as int));
            assert(i < cmd.len());
            i + 1
        },
        None => {
            if cmd.len() == 0 || cmd[0] > '\u{7f}' {
                return None;
            }
            1
        },
    };
    let end = match rfind(cmd, &single(')')) {
        Some(j) => j,
        None => cmd.len(),
    };
    if start > end {
        return None;
    }
    let inner = slice(cmd, start, end);
    let call = fix_vars_chars(&inner);
    proof {
        lemma_first_match(call@, seq![',']);
    }
    match find(&call, &single(',')) {
        Some(k) => {
            assert(first_match(call@, seq![',']) == Some(k as int));
            assert(k < call.len());
            let mut out = trim_ws(&slice(&call, 0, k));
            push_all(&mut out, &chars_of("("));
            push_all(&mut out, &trim_ws(&slice(&call, k + 1, call.len())));
            push_all(&mut out, &chars_of(")"));
            assert(call@.subrange(0, k as int) =~= call@.take(k as int));
            assert(call@.subrange(k + 1, call@.len() as int) =~= call@.skip(k + 1));
            Some(out)
        },
        None => {
            let mut out = trim_ws(&call);
            push_all(&mut out, &chars_of("()"));
            Some(out)
        },
    }
}

/// The keyword that opens a condition: `elif` where the line has one, else `if`.
pub open spec fn cond_keyword(t: Seq<char>) -> Seq<char> {
    if has_sub(t, "elif"@) {
        "elif"@
    } else {
        "if"@
    }
}

/// The condition of a Qa `if` or `elif` line as written: the text between the
/// first and second keyword, without braces, renamed, with `and`/`or` spelt
/// `&&`/`||`.
pub open spec fn spelt_condition(t: Seq<char>) -> Seq<char> {
    let raw = trim(replace_all(split_on(t, cond_keyword(t))[1], seq!['{'], Seq::empty()));
    replace_all(replace_all(fixed_vars(raw), " and "@, " && "@), " or "@, " || "@)
}

/// The C condition of a Qa `if` or `elif` line: the condition as written,
/// where a single `=` is read as a comparison.
pub open spec fn condition(t: Seq<char>) -> Seq<char> {
    let f = spelt_condition(t);
    if f.contains('=') && !has_sub(f, ">="@) && !has_sub(f, "<="@) && !has_sub(f, "=="@) {
        replace_all(f, "="@, "=="@)
    } else {
        f
    }
}

/// A line holding `if`, `elif` or `else` as the C line that opens the branch.
pub open spec fn logic_line(c: Seq<char>) -> Seq<char> {
    let t = trim(c);
    if has_sub(t, "if"@) || has_sub(t, "elif"@) {
        if has_sub(t, "elif"@) {
            "} else if ("@ + condition(t) + ") {"@
        } else {
            "if ("@ + condition(t) + ") {"@
        }
    } else if has_sub(t, "else"@) {
        "} else {"@
    } else {
        c
    }
}

/// The C condition of an `if` or `elif` line.
fn condition_of(t: &Vec<char>) -> (r: Vec<char>)
    requires
        has_sub(t@, cond_keyword(t@)),
    ensures
        r@ == condition(t@),
{
    let kw = if contains(t, &chars_of("elif")) {
        chars_of("elif")
    } else {
        chars_of("if")
    };
    proof {
        reveal_strlit("elif");
        reveal_strlit("if");
        lemma_split_on_len(t@, kw@);
    }
    let parts = split(t, &kw);
    assert(texts(parts@)[1] == parts@[1]@);
    let raw = trim_ws(&replace(&parts[1], &single('{'), &Vec::new()));
    proof {
        reveal_strlit(" and ");
        reveal_strlit(" or ");
        reveal_strlit("=");
    }
    let f0 = replace(&fix_vars_chars(&raw), &chars_of(" and "), &chars_of(" && "));
    let f = replace(&f0, &chars_of(" or "), &chars_of(" || "));
    if contains_char(&f, '=') && !contains(&f, &chars_of(">=")) && !contains(&f, &chars_of("<="))
        && !contains(&f, &chars_of("==")) {
        replace(&f, &chars_of("="), &chars_of("=="))
    } else {
        f
    }
}

/// An `if`, `elif` or `else` line as the C line that opens its branch.
fn process_logic(c: &Vec<char>) -> (r: Vec<char>)
    ensures
        r@ == logic_line(c@),
{
    let t = trim_ws(c);
    let has_elif = contains(&t, &chars_of("elif"));
    if contains(&t, &chars_of("if")) || has_elif {
        let f = condition_of(&t);
        let mut out = if has_elif {
            chars_of("} else if (")
        } else {
            chars_of("if (")
        };
        push_all(&mut out, &f);
        push_all(&mut out, &chars_of(") {"));
        out
    } else if contains(&t, &chars_of("else")) {
        chars_of("} else {")
    } else {
        assert(c@.subrange(0, c@.len() as int) =~= c@);
        slice(c, 0, c.len())
    }
}

/// Where the text of a `print(` or `input(` call ends: at the line's last `)`.
pub open spec fn close_paren(c: Seq<char>) -> int {
    match last_match(c, ")"@) {
        Some(r) => r,
        None => 0,
    }
}

/// A call opened by `open` (`print(` or `input(`) can be compiled: it is
/// absent, or the line's last `)` stands after it.
pub open spec fn call_ok(c: Seq<char>, open: Seq<char>) -> bool {
    match first_match(c, open) {
        Some(s) => match last_match(c, ")"@) {
            Some(r) => s + 6 <= r,
            None => false,
        },
        None => true,
    }
}

/// A `print(...)` line as a `printf` call: text in quotes is printed as a
/// string, anything else as a renamed number.
pub open spec fn print_line(c: Seq<char>) -> Seq<char> {
    match first_match(c, "print("@) {
        Some(s) => {
            let content = c.subrange(s + 6, close_paren(c));
            if content.contains('"') {
                "printf(\"%s\\n\", "@ + content + ");"@
            } else {
                "printf(\"%lld\\n\", (long long)("@ + fixed_vars(content) + "));"@
            }
        },
        None => c,
    }
}

/// All characters of `v` are numeric.
pub open spec fn all_numeric(v: Seq<char>) -> bool {
    forall|j: int| 0 <= j < v.len() ==> char_numeric(#[trigger] v[j])
}

/// An `input(...)` line as a `scanf` call into the named variable.
pub open spec fn input_line(c: Seq<char>) -> Seq<char> {
    match first_match(c, "input("@) {
        Some(s) => {
            let var = trim(c.subrange(s + 6, close_paren(c)));
            let name = if all_numeric(var) {
                "v"@ + var
            } else {
                var
            };
            "scanf(\"%lld\", &"@ + name + ")"@
        },
        None => c,
    }
}

/// The text between `s + 6` and the last `)` of `c`, where the call is well formed.
fn call_text(c: &Vec<char>, open: &Vec<char>) -> (r: Option<(usize, Vec<char>)>)
    ensures
        r is Some <==> (first_match(c@, open@) is Some && call_ok(c@, open@)),
        r matches Some((s, t)) ==> {
            &&& first_match(c@, open@) == Some(s as int)
            &&& t@ == c@.subrange(s + 6, close_paren(c@))
        },
{
    proof {
        lemma_first_match(c@, open@);
        lemma_last_match(c@, ")"@);
    }
    match find(c, open) {
        Some(s) => match rfind(c, &chars_of(")")) {
            Some(r) => {
                if s <= r && r - s >= 6 {
                    Some((s, slice(c, s + 6, r)))
                } else {
                    None
                }
            },
            None => None,
        },
        None => None,
    }
}

/// Whether the call opened by `open` in `c` is absent or closed by a `)`
/// at least six places after it.
fn call_closed(c: &Vec<char>, open: &Vec<char>) -> (r: bool)
    ensures
        r == call_ok(c@, open@),
{
    proof {
        lemma_first_match(c@, open@);
        lemma_last_match(c@, ")"@);
    }
    match find(c, open) {
        Some(s) => match rfind(c, &chars_of(")")) {
            Some(r) => s <= r && r - s >= 6,
            None => false,
        },
        None => true,
    }
}

/// A `print(...)` line as a `printf` call.
fn process_print(c: &Vec<char>) -> (r: Vec<char>)
    requires
        call_ok(c@, "print("@),
    ensures
        r@ == print_line(c@),
{
    let open = chars_of("print(");
    match call_text(c, &open) {
        Some((_s, content)) => {
            if contains_char(&content, '"') {
                let mut out = chars_of("printf(\"%s\\n\", ");
                push_all(&mut out, &content);
                push_all(&mut out, &chars_of(");"));
                out
            } else {
                let mut out = chars_of("printf(\"%lld\\n\", (long long)(");
                push_all(&mut out, &fix_vars_chars(&content));
                push_all(&mut out, &chars_of("));"));
                out
            }
        },
        None => {
            assert(c@.subrange(0, c@.len() as int) =~= c@);
            slice(c, 0, c.len())
        },
    }
}

/// Whether every character of `v` is numeric.
fn is_all_numeric(v: &Vec<char>) -> (r: bool)
    ensures
        r == all_numeric(v@),
{
    let mut i: usize = 0;
    while i < v.len()
        invariant
            i <= v.len(),
            forall|j: int| 0 <= j < i ==> char_numeric(#[trigger] v@[j]),
        decreases v.len() - i,
    {
        if !is_numeric(v[i]) {
            return false;
        }
        i += 1;
    }
    true
}

/// An `input(...)` line as a `scanf` call.
fn process_input(c: &Vec<char>) -> (r: Vec<char>)
    requires
        call_ok(c@, "input("@),
    ensures
        r@ == input_line(c@),
{
    let open = chars_of("input(");
    match call_text(c, &open) {
        Some((_s, text)) => {
            let var = trim_ws(&text);
            let name = if is_all_numeric(&var) {
                let mut n = chars_of("v");
                push_all(&mut n, &var);
                n
            } else {
                var
            };
            let mut out = chars_of("scanf(\"%lld\", &");
            push_all(&mut out, &name);
            push_all(&mut out, &chars_of(")"));
            out
        },
        None => {
            assert(c@.subrange(0, c@.len() as int) =~= c@);
            slice(c, 0, c.len())
        },
    }
}

/// One `;`-separated piece of text outside functions, as a call in `main`
/// when it is an `exec` statement, else as nothing.
pub open spec fn exec_piece(p: Seq<char>) -> Seq<char> {
    let t = trim(p);
    if "exec"@.is_prefix_of(t) {
        "    "@ + exec_call(t) + ";\n"@
    } else {
        seq![]
    }
}

/// A piece can be compiled: it is no `exec` statement, or one whose arguments
/// do not end before they start.
pub open spec fn exec_piece_ok(p: Seq<char>) -> bool {
    let t = trim(p);
    "exec"@.is_prefix_of(t) ==> exec_line_ok(t)
}

/// `exec_piece`, as a function value.
pub open spec fn exec_piece_fn() -> spec_fn(Seq<char>) -> Seq<char> {
    |p: Seq<char>| exec_piece(p)
}

/// The calls in `main` that the `exec` statements of `s` make.
pub open spec fn exec_calls(s: Seq<char>) -> Seq<char> {
    concat_map(split_on(s, seq![';']), exec_piece_fn())
}

/// Every `exec` statement of `s` can be compiled.
pub open spec fn exec_calls_ok(s: Seq<char>) -> bool {
    forall|i: int|
        0 <= i < split_on(s, seq![';']).len() ==> exec_piece_ok(
            #[trigger] split_on(s, seq![';'])[i],
        )
}

/// The calls in `main` that the `exec` statements of `s` make, or `None`
/// where one cannot be compiled.
fn process_execs(s: &Vec<char>) -> (r: Option<Vec<char>>)
    ensures
        r is Some <==> exec_calls_ok(s@),
        r matches Some(v) ==> v@ == exec_calls(s@),
{
    let parts = split(s, &single(';'));
    let ghost ps = texts(parts@);
    let mut out: Vec<char> = Vec::new();
    let mut i: usize = 0;
    proof {
        lemma_concat_map_empty(ps, exec_piece_fn());
    }
    while i < parts.len()
        invariant
            i <= parts.len(),
            ps == texts(parts@),
            ps == split_on(s@, seq![';']),
            out@ == concat_map(ps.take(i as int), exec_piece_fn()),
            forall|j: int| 0 <= j < i ==> exec_piece_ok(#[trigger] ps[j]),
        decreases parts.len() - i,
    {
        proof {
            lemma_concat_map_step(ps, exec_piece_fn(), i as int);
        }
        assert(ps[i as int] == parts@[i as int]@);
        let t = trim_ws(&parts[i]);
        if starts_with(&t, &chars_of("exec")) {
            match process_exec_line(&t) {
                Some(call) => {
                    push_all(&mut out, &chars_of("    "));
                    push_all(&mut out, &call);
                    push_all(&mut out, &chars_of(";\n"));
                },
                None => {
                    return None;
                },
            }
        }
        i += 1;
    }
    proof {
        lemma_concat_map_empty(ps, exec_piece_fn());
    }
    Some(out)
}


// ---------------------------------------------------------------------------
// Function bodies
// ---------------------------------------------------------------------------

/// A trimmed body line after the rewrites that come before it becomes C:
/// conditions, `loop`, `break`, `clear` and `sleep(`.
pub open spec fn line_cmd(c0: Seq<char>) -> Seq<char> {
    let c1 = if has_sub(c0, "if"@) || has_sub(c0, "elif"@) || has_sub(c0, "else"@) {
        logic_line(c0)
    } else {
        c0
    };
    let c2 = if has_sub(c1, "loop {"@) {
        replace_all(c1, "loop {"@, "while (1) {"@)
    } else {
        c1
    };
    let c3 = if has_sub(c2, "break"@) {
        "break"@
    } else {
        c2
    };
    let c4 = if has_sub(c3, "clear"@) {
        "_qa_clear()"@
    } else {
        c3
    };
    if "sleep("@.is_prefix_of(c4) {
        replace_all(c4, "sleep("@, "_qa_sleep("@)
    } else {
        c4
    }
}

/// A body line that produces no C line: blank, or a lone `;`.
pub open spec fn skipped_line(line: Seq<char>) -> bool {
    let c0 = trim(line);
    c0.len() == 0 || c0 == ";"@
}

/// A rewritten body line as C: `exec` calls, and, on lines without braces,
/// `set`, `print(` and `input(` statements and renamed expressions.
pub open spec fn c_statement(c: Seq<char>) -> Seq<char> {
    if "exec"@.is_prefix_of(c) {
        exec_call(c)
    } else if !c.contains('{') && !c.contains('}') {
        if "set"@.is_prefix_of(c) {
            set_decl(c)
        } else if "print"@.is_prefix_of(c) {
            print_line(c)
        } else if "input"@.is_prefix_of(c) {
            input_line(c)
        } else {
            fixed_vars(c)
        }
    } else {
        c
    }
}

/// A rewritten body line can be compiled.
pub open spec fn statement_ok(c: Seq<char>) -> bool {
    if "exec"@.is_prefix_of(c) {
        exec_line_ok(c)
    } else if !c.contains('{') && !c.contains('}') {
        if "set"@.is_prefix_of(c) {
            true
        } else if "print"@.is_prefix_of(c) {
            call_ok(c, "print("@)
        } else if "input"@.is_prefix_of(c) {
            call_ok(c, "input("@)
        } else {
            true
        }
    } else {
        true
    }
}

/// A C statement ends with `;` unless it is empty or ends a block line.
pub open spec fn terminated(c: Seq<char>) -> Seq<char> {
    if c.len() > 0 && !ends_with_char(c, ';') && !ends_with_char(c, '{') && !ends_with_char(
        c,
        '}',
    ) {
        c.push(';')
    } else {
        c
    }
}

/// A body line as an indented C line.
pub open spec fn line_text(line: Seq<char>) -> Seq<char> {
    if skipped_line(line) {
        seq![]
    } else {
        "    "@ + terminated(c_statement(line_cmd(trim(line)))) + "\n"@
    }
}

/// A body line can be compiled.
pub open spec fn line_ok(line: Seq<char>) -> bool {
    skipped_line(line) || statement_ok(line_cmd(trim(line)))
}

/// `line_text`, as a function value.
pub open spec fn line_text_fn() -> spec_fn(Seq<char>) -> Seq<char> {
    |l: Seq<char>| line_text(l)
}

/// Whether `c` ends with `x`.
fn ends_with(c: &Vec<char>, x: char) -> (r: bool)
    ensures
        r == ends_with_char(c@, x),
{
    c.len() > 0 && c[c.len() - 1] == x
}

/// A trimmed body line after the rewrites before it becomes C.
fn rewrite_line(c0: &Vec<char>) -> (r: Vec<char>)
    ensures
        r@ == line_cmd(c0@),
{
    let c1 = if contains(c0, &chars_of("if")) || contains(c0, &chars_of("elif")) || contains(
        c0,
        &chars_of("else"),
    ) {
        process_logic(c0)
    } else {
        slice(c0, 0, c0.len())
    };
    assert(c0@.subrange(0, c0@.len() as int) =~= c0@);
    proof {
        reveal_strlit("loop {");
        reveal_strlit("sleep(");
    }
    let c2 = if contains(&c1, &chars_of("loop {")) {
        replace(&c1, &chars_of("loop {"), &chars_of("while (1) {"))
    } else {
        c1
    };
    let c3 = if contains(&c2, &chars_of("break")) {
        chars_of("break")
    } else {
        c2
    };
    let c4 = if contains(&c3, &chars_of("clear")) {
        chars_of("_qa_clear()")
    } else {
        c3
    };
    if starts_with(&c4, &chars_of("sleep(")) {
        replace(&c4, &chars_of("sleep("), &chars_of("_qa_sleep("))
    } else {
        c4
    }
}

/// A rewritten body line as C, or `None` where it cannot be compiled.
fn convert_statement(c: &Vec<char>) -> (r: Option<Vec<char>>)
    ensures
        r is Some <==> statement_ok(c@),
        r matches Some(v) ==> v@ == c_statement(c@),
{
    if starts_with(c, &chars_of("exec")) {
        process_exec_line(c)
    } else if !contains_char(c, '{') && !contains_char(c, '}') {
        if starts_with(c, &chars_of("set")) {
            Some(process_set(c))
        } else if starts_with(c, &chars_of("print")) {
            if call_closed(c, &chars_of("print(")) {
                Some(process_print(c))
            } else {
                None
            }
        } else if starts_with(c, &chars_of("input")) {
            if call_closed(c, &chars_of("input(")) {
                Some(process_input(c))
            } else {
                None
            }
        } else {
            Some(fix_vars_chars(c))
        }
    } else {
        assert(c@.subrange(0, c@.len() as int) =~= c@);
        Some(slice(c, 0, c.len()))
    }
}

/// A body line as an indented C line, or `None` where it cannot be compiled.
fn convert_line(line: &Vec<char>) -> (r: Option<Vec<char>>)
    ensures
        r is Some <==> line_ok(line@),
        r matches Some(v) ==> v@ == line_text(line@),
{
    let c0 = trim_ws(line);
    if c0.len() == 0 || same(&c0, &chars_of(";")) {
        return Some(Vec::new());
    }
    let c5 = rewrite_line(&c0);
    let mut c = match convert_statement(&c5) {
        Some(c) => c,
        None => {
            return None;
        },
    };
    if c.len() > 0 && !ends_with(&c, ';') && !ends_with(&c, '{') && !ends_with(&c, '}') {
        c.push(';');
    }
    let mut out = chars_of("    ");
    push_all(&mut out, &c);
    push_all(&mut out, &chars_of("\n"));
    Some(out)
}

/// Where the parameter list of a function head ends: at its last `)`, or at
/// its end when it has none.
pub open spec fn head_close(h: Seq<char>) -> int {
    match last_match(h, seq![')']) {
        Some(c) => c,
        None => h.len() as int,
    }
}

/// A function head can be compiled: its parameters do not end before they start.
pub open spec fn head_ok(h: Seq<char>) -> bool {
    match first_match(h, seq!['(']) {
        Some(open) => open + 1 <= head_close(h),
        None => true,
    }
}

/// A function head `name(a, b)` as a C head `void name(int a, int b)`;
/// without parameters it takes `void`.
pub open spec fn head_text(h: Seq<char>) -> Seq<char> {
    match first_match(h, seq!['(']) {
        Some(open) => {
            let fixed = fixed_vars(h.subrange(open + 1, head_close(h)));
            let typed = if trim(fixed).len() == 0 {
                "void"@
            } else {
                replace_all("int "@ + fixed, ","@, ", int"@)
            };
            "void "@ + h.take(open) + "("@ + typed + ")"@
        },
        None => "void "@ + h + "(void)"@,
    }
}

/// A function head as a C head, or `None` where its parameters end before they start.
fn process_head(h: &Vec<char>) -> (r: Option<Vec<char>>)
    ensures
        r is Some <==> head_ok(h@),
        r matches Some(v) ==> v@ == head_text(h@),
{
    proof {
        lemma_first_match(h@, seq!['(']);
        lemma_last_match(h@, seq![')']);
        reveal_strlit(",");
    }
    match find(h, &single('(')) {
        Some(open) => {
            assert(first_match(h@, seq!['(']) == Some(open as int));
            assert(open < h.len());
            let close = match rfind(h, &single(')')) {
                Some(c) => c,
                None => h.len(),
            };
            if close < open + 1 {
                return None;
            }
            let fixed = fix_vars_chars(&slice(h, open + 1, close));
            let typed = if trim_ws(&fixed).len() == 0 {
                chars_of("void")
            } else {
                let mut s = chars_of("int ");
                push_all(&mut s, &fixed);
                replace(&s, &chars_of(","), &chars_of(", int"))
            };
            let mut out = chars_of("void ");
            push_all(&mut out, &slice(h, 0, open));
            push_all(&mut out, &chars_of("("));
            push_all(&mut out, &typed);
            push_all(&mut out, &chars_of(")"));
            assert(h@.subrange(0, open as int) =~= h@.take(open as int));
            Some(out)
        },
        None => {
            let mut out = chars_of("void ");
            push_all(&mut out, h);
            push_all(&mut out, &chars_of("(void)"));
            Some(out)
        },
    }
}

/// The lines of the body of the function block `t`, between its first `{`
/// (at `sb`) and its last `};` (at `eb`).
pub open spec fn body_lines(t: Seq<char>, sb: int, eb: int) -> Seq<Seq<char>> {
    split_on(t.subrange(sb + 1, eb), seq!['\n'])
}

/// The C function that the block `t` defines.
pub open spec fn function_text(t: Seq<char>, sb: int, eb: int) -> Seq<char> {
    head_text(trim(t.take(sb))) + " {\n"@ + concat_map(body_lines(t, sb, eb), line_text_fn())
        + "}\n\n"@
}

/// A function block can be compiled: its body ends after it starts, and its
/// head, lines and following calls can be compiled.
pub open spec fn function_ok(t: Seq<char>, sb: int, eb: int) -> bool {
    &&& sb < eb
    &&& head_ok(trim(t.take(sb)))
    &&& forall|i: int|
        0 <= i < body_lines(t, sb, eb).len() ==> line_ok(#[trigger] body_lines(t, sb, eb)[i])
    &&& exec_calls_ok(t.skip(eb + 2))
}

/// The C function of the block `t` and the calls that follow it, or `None`
/// where part of it cannot be compiled.
fn process_function(t: &Vec<char>, sb: usize, eb: usize) -> (r: Option<(Vec<char>, Vec<char>)>)
    requires
        sb < t.len(),
        eb + 2 <= t.len(),
    ensures
        r is Some <==> function_ok(t@, sb as int, eb as int),
        r matches Some((f, calls)) ==> {
            &&& f@ == function_text(t@, sb as int, eb as int)
            &&& calls@ == exec_calls(t@.skip(eb + 2))
        },
{
    if eb <= sb {
        return None;
    }
    let head = match process_head(&trim_ws(&slice(t, 0, sb))) {
        Some(h) => h,
        None => {
            assert(t@.subrange(0, sb as int) =~= t@.take(sb as int));
            return None;
        },
    };
    assert(t@.subrange(0, sb as int) =~= t@.take(sb as int));
    let lines = split(&slice(t, sb + 1, eb), &single('\n'));
    let ghost ls = texts(lines@);
    let mut body: Vec<char> = Vec::new();
    let mut i: usize = 0;
    proof {
        lemma_concat_map_empty(ls, line_text_fn());
    }
    while i < lines.len()
        invariant
            i <= lines.len(),
            ls == texts(lines@),
            ls == body_lines(t@, sb as int, eb as int),
            body@ == concat_map(ls.take(i as int), line_text_fn()),
            forall|j: int| 0 <= j < i ==> line_ok(#[trigger] ls[j]),
        decreases lines.len() - i,
    {
        proof {
            lemma_concat_map_step(ls, line_text_fn(), i as int);
        }
        assert(ls[i as int] == lines@[i as int]@);
        match convert_line(&lines[i]) {
            Some(l) => push_all(&mut body, &l),
            None => {
                return None;
            },
        }
        i += 1;
    }
    proof {
        lemma_concat_map_empty(ls, line_text_fn());
    }
    let calls = match process_execs(&slice(t, eb + 2, t.len())) {
        Some(c) => c,
        None => {
            assert(t@.subrange(eb + 2, t@.len() as int) =~= t@.skip(eb + 2));
            return None;
        },
    };
    assert(t@.subrange(eb + 2, t@.len() as int) =~= t@.skip(eb + 2));
    let mut f = head;
    push_all(&mut f, &chars_of(" {\n"));
    push_all(&mut f, &body);
    push_all(&mut f, &chars_of("}\n\n"));
    Some((f, calls))
}


// ---------------------------------------------------------------------------
// Programs
// ---------------------------------------------------------------------------

/// A top-level statement that declares a global: it starts with `set` and
/// holds no `{`.
pub open spec fn is_global(t: Seq<char>) -> bool {
    "set"@.is_prefix_of(t) && !t.contains('{')
}

/// The C declaration that a top-level statement contributes to the globals.
pub open spec fn global_decl(part: Seq<char>) -> Seq<char> {
    let t = trim(part);
    if is_global(t) {
        set_decl(t) + ";\n"@
    } else {
        seq![]
    }
}

/// What a top-level statement leaves for the functions and calls: itself with
/// its `;`, unless it declared a global.
pub open spec fn kept(part: Seq<char>) -> Seq<char> {
    if is_global(trim(part)) {
        seq![]
    } else {
        part.push(';')
    }
}

/// `global_decl`, as a function value.
pub open spec fn global_decl_fn() -> spec_fn(Seq<char>) -> Seq<char> {
    |p: Seq<char>| global_decl(p)
}

/// `kept`, as a function value.
pub open spec fn kept_fn() -> spec_fn(Seq<char>) -> Seq<char> {
    |p: Seq<char>| kept(p)
}

/// The `;`-separated statements of a program.
pub open spec fn statements(source: Seq<char>) -> Seq<Seq<char>> {
    split_on(source, seq![';'])
}

/// The global declarations of a program, in order.
pub open spec fn globals(source: Seq<char>) -> Seq<char> {
    concat_map(statements(source), global_decl_fn())
}

/// The program without its global declarations.
pub open spec fn remaining(source: Seq<char>) -> Seq<char> {
    concat_map(statements(source), kept_fn())
}

/// The program split at each `fun `.
pub open spec fn blocks(source: Seq<char>) -> Seq<Seq<char>> {
    split_on(remaining(source), "fun "@)
}

/// What one block contributes: a C function where it has a `{` and a `};`,
/// and the calls in `main` of the `exec` statements that follow the function
/// (or that make up the block, where it defines none).
pub open spec fn block_parts(b: Seq<char>) -> (Seq<char>, Seq<char>) {
    let t = trim(b);
    if t.len() == 0 {
        (seq![], seq![])
    } else {
        match first_match(t, seq!['{']) {
            Some(sb) => match last_match(t, "};"@) {
                Some(eb) => (function_text(t, sb, eb), exec_calls(t.skip(eb + 2))),
                None => (seq![], exec_calls(t)),
            },
            None => (seq![], exec_calls(t)),
        }
    }
}

/// A block can be compiled.
pub open spec fn block_ok(b: Seq<char>) -> bool {
    let t = trim(b);
    if t.len() == 0 {
        true
    } else {
        match first_match(t, seq!['{']) {
            Some(sb) => match last_match(t, "};"@) {
                Some(eb) => function_ok(t, sb, eb),
                None => exec_calls_ok(t),
            },
            None => exec_calls_ok(t),
        }
    }
}

/// The function of a block, as a function value.
pub open spec fn block_function_fn() -> spec_fn(Seq<char>) -> Seq<char> {
    |b: Seq<char>| block_parts(b).0
}

/// The calls of a block, as a function value.
pub open spec fn block_calls_fn() -> spec_fn(Seq<char>) -> Seq<char> {
    |b: Seq<char>| block_parts(b).1
}

/// The C functions of a program, in order.
pub open spec fn functions(source: Seq<char>) -> Seq<char> {
    concat_map(blocks(source), block_function_fn())
}

/// The calls that make up the body of `main`, in order.
pub open spec fn main_calls(source: Seq<char>) -> Seq<char> {
    concat_map(blocks(source), block_calls_fn())
}

/// The include and the `_qa_sleep` macro for the host platform.
pub open spec fn sleep_header(windows: bool) -> Seq<char> {
    if windows {
        "#include <windows.h>\n#define _qa_sleep(ms) Sleep(ms)"@
    } else {
        "#include <unistd.h>\n#define _qa_sleep(ms) usleep((ms) * 1000)"@
    }
}

/// The text that opens every C program: includes, `_qa_sleep` and `_qa_clear`.
pub open spec fn prelude(windows: bool) -> Seq<char> {
    "#include <stdio.h>\n#include <stdlib.h>\n"@ + sleep_header(windows)
        + "\nvoid _qa_clear() { int c; while ((c = getchar()) != '\\n' && c != EOF); }\n\n"@
}

/// The C program for the Qa program `source`.
pub open spec fn compiled(source: Seq<char>, windows: bool) -> Seq<char> {
    prelude(windows) + globals(source) + functions(source) + "\nint main() {\n"@ + main_calls(
        source,
    ) + "\n    return 0;\n}"@
}

/// A Qa program can be compiled: every block can.
pub open spec fn compile_ok(source: Seq<char>) -> bool {
    forall|i: int| 0 <= i < blocks(source).len() ==> block_ok(#[trigger] blocks(source)[i])
}

/// The include and `_qa_sleep` macro for Windows (`windows`) or other hosts.
fn get_os_sleep_header(windows: bool) -> (r: &'static str)
    ensures
        r@ == sleep_header(windows),
{
    if windows {
        "#include <windows.h>\n#define _qa_sleep(ms) Sleep(ms)"
    } else {
        "#include <unistd.h>\n#define _qa_sleep(ms) usleep((ms) * 1000)"
    }
}

/// The C function and calls of one block, or `None` where it cannot be compiled.
fn process_block(b: &Vec<char>) -> (r: Option<(Vec<char>, Vec<char>)>)
    ensures
        r is Some <==> block_ok(b@),
        r matches Some((f, c)) ==> f@ == block_parts(b@).0 && c@ == block_parts(b@).1,
{
    let t = trim_ws(b);
    if t.len() == 0 {
        return Some((Vec::new(), Vec::new()));
    }
    proof {
        lemma_first_match(t@, seq!['{']);
        lemma_last_match(t@, "};"@);
        reveal_strlit("};");
    }
    if let Some(sb) = find(&t, &single('{')) {
        if let Some(eb) = rfind(&t, &chars_of("};")) {
            assert(first_match(t@, seq!['{']) == Some(sb as int));
            assert(last_match(t@, "};"@) == Some(eb as int));
            return process_function(&t, sb, eb);
        }
    }
    match process_execs(&t) {
        Some(c) => Some((Vec::new(), c)),
        None => None,
    }
}

/// The C program for `src`, or `None` where a block cannot be compiled.
fn compile_chars(src: &Vec<char>, windows: bool) -> (r: Option<Vec<char>>)
    ensures
        r is Some <==> compile_ok(src@),
        r matches Some(v) ==> v@ == compiled(src@, windows),
{
    let mut c_globals = chars_of("#include <stdio.h>\n#include <stdlib.h>\n");
    push_all(&mut c_globals, &chars_of(get_os_sleep_header(windows)));
    push_all(
        &mut c_globals,
        &chars_of("\nvoid _qa_clear() { int c; while ((c = getchar()) != '\\n' && c != EOF); }\n\n"),
    );
    let ghost start = c_globals@;
    assert(start == prelude(windows));
    let mut remaining_text: Vec<char> = Vec::new();
    let parts = split(src, &single(';'));
    let ghost ps = texts(parts@);
    proof {
        lemma_concat_map_empty(ps, global_decl_fn());
        lemma_concat_map_empty(ps, kept_fn());
    }
    let mut i: usize = 0;
    while i < parts.len()
        invariant
            i <= parts.len(),
            ps == texts(parts@),
            ps == statements(src@),
            start == prelude(windows),
            c_globals@ == start + concat_map(ps.take(i as int), global_decl_fn()),
            remaining_text@ == concat_map(ps.take(i as int), kept_fn()),
        decreases parts.len() - i,
    {
        proof {
            lemma_concat_map_step(ps, global_decl_fn(), i as int);
            lemma_concat_map_step(ps, kept_fn(), i as int);
        }
        assert(ps[i as int] == parts@[i as int]@);
        let t = trim_ws(&parts[i]);
        if starts_with(&t, &chars_of("set")) && !contains_char(&t, '{') {
            push_all(&mut c_globals, &process_set(&t));
            push_all(&mut c_globals, &chars_of(";\n"));
        } else {
            push_all(&mut remaining_text, &parts[i]);
            remaining_text.push(';');
        }
        i += 1;
    }
    proof {
        lemma_concat_map_empty(ps, global_decl_fn());
        reveal_strlit("fun ");
    }
    let bs = split(&remaining_text, &chars_of("fun "));
    let ghost bl = texts(bs@);
    let mut c_functions: Vec<char> = Vec::new();
    let mut calls: Vec<char> = Vec::new();
    proof {
        lemma_concat_map_empty(bl, block_function_fn());
        lemma_concat_map_empty(bl, block_calls_fn());
    }
    let mut k: usize = 0;
    while k < bs.len()
        invariant
            k <= bs.len(),
            bl == texts(bs@),
            bl == blocks(src@),
            c_functions@ == concat_map(bl.take(k as int), block_function_fn()),
            calls@ == concat_map(bl.take(k as int), block_calls_fn()),
            forall|j: int| 0 <= j < k ==> block_ok(#[trigger] bl[j]),
        decreases bs.len() - k,
    {
        proof {
            lemma_concat_map_step(bl, block_function_fn(), k as int);
            lemma_concat_map_step(bl, block_calls_fn(), k as int);
        }
        assert(bl[k as int] == bs@[k as int]@);
        match process_block(&bs[k]) {
            Some((f, c)) => {
                push_all(&mut c_functions, &f);
                push_all(&mut calls, &c);
            },
            None => {
                return None;
            },
        }
        k += 1;
    }
    proof {
        lemma_concat_map_empty(bl, block_function_fn());
        lemma_concat_map_empty(bl, block_calls_fn());
    }
    let mut out = c_globals;
    push_all(&mut out, &c_functions);
    push_all(&mut out, &chars_of("\nint main() {\n"));
    push_all(&mut out, &calls);
    push_all(&mut out, &chars_of("\n    return 0;\n}"));
    Some(out)
}

/// Compiles the Qa program `source` to C for a Windows host (`windows`) or
/// another host.
pub fn compile(source: String, windows: bool) -> (r: String)
    requires
        compile_ok(source@),
    ensures
        r@ == compiled(source@, windows),
{
    let src = chars_of(source.as_str());
    to_string(&compile_chars(&src, windows).unwrap())
}

/// Whether the Qa program `source` can be compiled (on any host alike).
pub fn can_compile(source: &String) -> (r: bool)
    ensures
        r == compile_ok(source@),
{
    compile_chars(&chars_of(source.as_str()), false).is_some()
}

/// The C program for `source` on a Windows host (`windows`) or another host,
/// or `None` where a block cannot be compiled.
pub fn compile_for(source: &String, windows: bool) -> (r: Option<String>)
    ensures
        r is Some <==> compile_ok(source@),
        r matches Some(c) ==> c@ == compiled(source@, windows),
{
    if can_compile(source) {
        Some(compile(source.clone(), windows))
    } else {
        None
    }
}

// ---------------------------------------------------------------------------
// Laws of renaming
// ---------------------------------------------------------------------------

/// A renamed word is its leading symbols, `v`, its core, and its trailing
/// symbols.
proof fn lemma_renamed_word(w: Seq<char>)
    requires
        numeric_like(word_core(w)),
    ensures
        ({
            let a = run_len(w, symbol_pred()) as int;
            let cl = word_core(w);
            &&& a + cl.len() <= w.len()
            &&& w.subrange(a, a + cl.len()) == cl
            &&& replace_all(w, cl, seq!['v'] + cl) == w.take(a) + (seq!['v'] + cl) + w.skip(
                a + cl.len(),
            )
            &&& forall|j: int| 0 <= j < a ==> is_symbol(#[trigger] w[j])
            &&& forall|j: int| a + cl.len() <= j < w.len() ==> is_symbol(#[trigger] w[j])
            &&& !is_symbol(cl[0])
            &&& !is_symbol(cl.last())
        }),
{
    let f = symbol_pred();
    let a = run_len(w, f) as int;
    let t = w.skip(a);
    let b = back_run_len(t, f) as int;
    let cl = word_core(w);
    let r = seq!['v'] + cl;
    lemma_run_len(w, f);
    lemma_back_run_len(t, f);
    assert(cl == t.take(t.len() - b));
    assert(t[0] == w[a]);
    assert(cl[0] == t[0]);
    assert(cl.last() == t[t.len() - b - 1]);
    assert(w.subrange(a, a + cl.len()) =~= cl);
    assert forall|j: int| a + cl.len() <= j < w.len() implies is_symbol(#[trigger] w[j]) by {
        assert(w[j] == t[j - a]);
        assert(f(t[j - a]));
    }
    assert forall|j: int| 0 <= j < a implies is_symbol(#[trigger] w[j]) by {
        assert(f(w[j]));
    }
    assert forall|j: int| 0 <= j < a implies !matches_at(w, cl, j) by {
        if matches_at(w, cl, j) {
            assert(w.subrange(j, j + cl.len())[0] == w[j]);
        }
    }
    lemma_first_match_at(w, cl, a);
    let post = w.skip(a + cl.len());
    assert forall|j: int| !matches_at(post, cl, j) by {
        if matches_at(post, cl, j) {
            assert(post.subrange(j, j + cl.len())[0] == post[j]);
            assert(post[j] == w[a + cl.len() + j]);
        }
    }
    lemma_first_match(post, cl);
    assert(replace_all(post, cl, r) == post);
}

/// A renamed word keeps its shape under a second renaming, whatever precedes it.
proof fn lemma_renamed_word_fixed(w: Seq<char>, after_operator: bool)
    requires
        numeric_like(word_core(w)),
        w.len() > 0,
        no_ws(w),
    ensures
        ({
            let renamed = replace_all(w, word_core(w), seq!['v'] + word_core(w));
            &&& fix_word(renamed, after_operator) == renamed
            &&& word_core(renamed) == seq!['v'] + word_core(w)
            &&& renamed.len() > 0
            &&& no_ws(renamed)
        }),
{
    let f = symbol_pred();
    let a = run_len(w, f) as int;
    let cl = word_core(w);
    let r = seq!['v'] + cl;
    lemma_renamed_word(w);
    let pre = w.take(a);
    let post = w.skip(a + cl.len());
    let x = pre + r + post;
    assert(x[a] == 'v');
    assert forall|j: int| 0 <= j < a implies f(#[trigger] x[j]) by {
        assert(x[j] == w[j]);
    }
    lemma_run_len_at(x, f, a);
    let t = x.skip(a);
    assert(t =~= r + post);
    assert forall|m: int| r.len() <= m < t.len() implies f(#[trigger] t[m]) by {
        assert(t[m] == w[a + cl.len() + m - r.len()]);
    }
    assert(t[r.len() - 1] == cl.last());
    lemma_back_run_len_at(t, f, r.len() as int);
    assert(word_core(x) =~= r);
    assert(!numeric_like(r)) by {
        assert(r[0] == 'v');
    }
    assert forall|j: int| 0 <= j < x.len() implies !is_ws(#[trigger] x[j]) by {
        if j < a {
            assert(x[j] == w[j]);
        } else if j == a {
        } else if j <= a + cl.len() {
            assert(x[j] == cl[j - a - 1]);
            assert(cl[j - a - 1] == w[j - 1]);
        } else {
            assert(x[j] == w[j - 1]);
        }
    }
}

/// An operator word is never renamed.
proof fn lemma_operator_kept(w: Seq<char>)
    requires
        is_operator(w),
    ensures
        !numeric_like(word_core(w)),
{
    let f = symbol_pred();
    reveal_strlit("=");
    reveal_strlit("<");
    reveal_strlit(">");
    reveal_strlit("<=");
    reveal_strlit(">=");
    reveal_strlit("==");
    reveal_strlit("+");
    reveal_strlit("-");
    reveal_strlit("*");
    reveal_strlit("/");
    reveal_strlit(",");
    if w == "-"@ {
        assert(!f(w[0]));
        lemma_run_len_at(w, f, 0);
        assert(w.skip(0) =~= w);
        lemma_back_run_len_at(w, f, 1);
        assert(word_core(w) =~= w);
        assert(!char_numeric(w[0]));
    } else {
        assert forall|j: int| 0 <= j < w.len() implies f(#[trigger] w[j]) by {}
        lemma_run_len_at(w, f, w.len() as int);
        assert(word_core(w).len() == 0);
    }
}

/// Renaming is idempotent: the names it makes are never renamed again, and
/// the words it leaves alone stay alone.
pub proof fn law_fix_vars_idempotent(c: Seq<char>)
    ensures
        fixed_vars(fixed_vars(c)) == fixed_vars(c),
        words(fixed_vars(c)) == fixed_words(words(c)),
{
    let ws = words(c);
    let fw = fixed_words(ws);
    lemma_words_shape(c);
    assert forall|i: int| 0 <= i < fw.len() implies (#[trigger] fw[i]).len() > 0 && no_ws(
        fw[i],
    ) by {
        let after = i > 0 && is_operator(ws[i - 1]);
        if numeric_like(word_core(ws[i])) && !after {
            lemma_renamed_word_fixed(ws[i], false);
        }
    }
    lemma_words_join(fw);
    assert forall|i: int| 0 <= i < fw.len() implies fix_word(
        fw[i],
        i > 0 && is_operator(fw[i - 1]),
    ) == #[trigger] fw[i] by {
        let after = i > 0 && is_operator(ws[i - 1]);
        let after2 = i > 0 && is_operator(fw[i - 1]);
        if numeric_like(word_core(ws[i])) && !after {
            lemma_renamed_word_fixed(ws[i], after2);
        } else if numeric_like(word_core(ws[i])) {
            lemma_operator_kept(ws[i - 1]);
            assert(fw[i - 1] == ws[i - 1]);
        }
    }
    assert(fixed_words(fw) =~= fw);
}

/// A renamed word names the identifier `v` followed by its old core, and
/// the symbols around the core stay.
pub proof fn law_renamed_word(w: Seq<char>)
    requires
        numeric_like(word_core(w)),
        w.len() > 0,
        no_ws(w),
    ensures
        word_core(fix_word(w, false)) == seq!['v'] + word_core(w),
        fix_word(w, false) == w.take(run_len(w, symbol_pred()) as int) + (seq!['v'] + word_core(
            w,
        )) + w.skip((run_len(w, symbol_pred()) + word_core(w).len()) as int),
{
    lemma_renamed_word(w);
    lemma_renamed_word_fixed(w, false);
}

/// Renaming keeps the number of words of a line.
pub proof fn law_fix_vars_keeps_words(c: Seq<char>)
    ensures
        words(fixed_vars(c)).len() == words(c).len(),
{
    law_fix_vars_idempotent(c);
}


// ---------------------------------------------------------------------------
// Laws of compilation
// ---------------------------------------------------------------------------

/// Every C statement that a body line becomes is empty or ends with `;`, `{`
/// or `}`.
pub proof fn law_statements_terminated(c: Seq<char>)
    ensures
        terminated(c).len() == 0 || ends_with_char(terminated(c), ';') || ends_with_char(
            terminated(c),
            '{',
        ) || ends_with_char(terminated(c), '}'),
{
}

/// The host platform changes only the sleep header: the programs compiled for
/// Windows and for other hosts agree after their preludes.
pub proof fn law_platform_changes_only_prelude(source: Seq<char>)
    ensures
        compiled(source, true).skip(prelude(true).len() as int) == compiled(source, false).skip(
            prelude(false).len() as int,
        ),
        compiled(source, true).take(prelude(true).len() as int) == prelude(true),
        compiled(source, false).take(prelude(false).len() as int) == prelude(false),
{
    let body = globals(source) + functions(source) + "\nint main() {\n"@ + main_calls(source)
        + "\n    return 0;\n}"@;
    assert(compiled(source, true) =~= prelude(true) + body);
    assert(compiled(source, false) =~= prelude(false) + body);
    assert((prelude(true) + body).skip(prelude(true).len() as int) =~= body);
    assert((prelude(false) + body).skip(prelude(false).len() as int) =~= body);
    assert((prelude(true) + body).take(prelude(true).len() as int) =~= prelude(true));
    assert((prelude(false) + body).take(prelude(false).len() as int) =~= prelude(false));
}

/// Statements that declare no global are kept, each with its `;`.
proof fn lemma_kept_all(ps: Seq<Seq<char>>)
    requires
        ps.len() > 0,
        forall|i: int| 0 <= i < ps.len() ==> !is_global(trim(#[trigger] ps[i])),
    ensures
        concat_map(ps, kept_fn()) == join(ps, seq![';']).push(';'),
    decreases ps.len(),
{
    if ps.len() == 1 {
        assert(ps.drop_last().len() == 0);
        assert(concat_map(ps.drop_last(), kept_fn()) =~= Seq::<char>::empty());
        assert(concat_map(ps, kept_fn()) =~= ps[0].push(';'));
    } else {
        let d = ps.drop_last();
        assert forall|i: int| 0 <= i < d.len() implies !is_global(trim(#[trigger] d[i])) by {
            assert(d[i] == ps[i]);
        }
        lemma_kept_all(d);
        assert(!is_global(trim(ps.last())));
        assert(concat_map(ps, kept_fn()) =~= join(d, seq![';']).push(';') + ps.last().push(';'));
        assert(join(ps, seq![';']) == join(d, seq![';']) + seq![';'] + ps.last());
        assert(join(d, seq![';']).push(';') + ps.last().push(';') =~= (join(d, seq![';'])
            + seq![';'] + ps.last()).push(';'));
    }
}

/// A program none of whose statements declares a global reaches its
/// functions and calls whole, with a `;` after it, and declares no global.
pub proof fn law_program_without_globals(source: Seq<char>)
    requires
        forall|i: int|
            0 <= i < statements(source).len() ==> !is_global(trim(#[trigger] statements(source)[i])),
    ensures
        remaining(source) == source.push(';'),
        globals(source).len() == 0,
{
    let ps = statements(source);
    crate::text::lemma_split_on_len(source, seq![';']);
    lemma_kept_all(ps);
    law_split_join(source, seq![';']);
    lemma_no_globals(ps);
}

/// Statements that declare no global contribute no declaration.
proof fn lemma_no_globals(ps: Seq<Seq<char>>)
    requires
        forall|i: int| 0 <= i < ps.len() ==> !is_global(trim(#[trigger] ps[i])),
    ensures
        concat_map(ps, global_decl_fn()).len() == 0,
    decreases ps.len(),
{
    if ps.len() > 0 {
        let d = ps.drop_last();
        assert forall|i: int| 0 <= i < d.len() implies !is_global(trim(#[trigger] d[i])) by {
            assert(d[i] == ps[i]);
        }
        lemma_no_globals(d);
        assert(!is_global(trim(ps.last())));
    }
}


/// A line holding neither `if` nor `else` is left as it is, untrimmed, by
/// the branch rewrite.
pub proof fn law_logic_keeps_plain_lines(c: Seq<char>)
    requires
        !has_sub(c, "if"@),
        !has_sub(c, "else"@),
    ensures
        logic_line(c) == c,
{
    reveal_strlit("if");
    reveal_strlit("elif");
    crate::text::lemma_trim_by_sub(c, crate::text::ws_pred(), "if"@);
    crate::text::lemma_trim_by_sub(c, crate::text::ws_pred(), "elif"@);
    crate::text::lemma_trim_by_sub(c, crate::text::ws_pred(), "else"@);
    if has_sub(c, "elif"@) {
        let i = choose|i: int| matches_at(c, "elif"@, i);
        assert(c.subrange(i, i + 4) == "elif"@);
        assert(c[i + 2] == c.subrange(i, i + 4)[2]);
        assert(c[i + 3] == c.subrange(i, i + 4)[3]);
        assert(c.subrange(i + 2, i + 4) =~= "if"@);
        assert(matches_at(c, "if"@, i + 2));
    }
}

/// A line without `print(` is left as it is by the `print` rewrite, and a
/// line without `input(` by the `input` rewrite.
pub proof fn law_calls_absent_keep_line(c: Seq<char>)
    ensures
        !has_sub(c, "print("@) ==> call_ok(c, "print("@) && print_line(c) == c,
        !has_sub(c, "input("@) ==> call_ok(c, "input("@) && input_line(c) == c,
{
    lemma_first_match(c, "print("@);
    lemma_first_match(c, "input("@);
}


/// Concatenations agree where the images agree element by element.
proof fn lemma_concat_map_pointwise(
    xs: Seq<Seq<char>>,
    ys: Seq<Seq<char>>,
    f: spec_fn(Seq<char>) -> Seq<char>,
)
    requires
        xs.len() == ys.len(),
        forall|i: int| 0 <= i < xs.len() ==> f(#[trigger] xs[i]) == f(ys[i]),
    ensures
        concat_map(xs, f) == concat_map(ys, f),
    decreases xs.len(),
{
    if xs.len() > 0 {
        let dx = xs.drop_last();
        let dy = ys.drop_last();
        assert forall|i: int| 0 <= i < dx.len() implies f(#[trigger] dx[i]) == f(dy[i]) by {
            assert(dx[i] == xs[i]);
            assert(dy[i] == ys[i]);
        }
        lemma_concat_map_pointwise(dx, dy, f);
        assert(f(xs[xs.len() - 1]) == f(ys[ys.len() - 1]));
    }
}

/// An empty piece makes no call and can be compiled.
proof fn lemma_exec_piece_empty()
    ensures
        exec_piece(Seq::<char>::empty()) == Seq::<char>::empty(),
        exec_piece_ok(Seq::<char>::empty()),
{
    reveal_strlit("exec");
    let e = Seq::<char>::empty();
    assert(trim(e) =~= e);
}

/// A `;` after the last statement adds no call.
proof fn lemma_exec_calls_push(x: Seq<char>)
    ensures
        exec_calls(x.push(';')) == exec_calls(x),
        exec_calls_ok(x.push(';')) == exec_calls_ok(x),
{
    crate::text::lemma_split_push(x, ';');
    lemma_exec_piece_empty();
    let xs = split_on(x, seq![';']);
    let e = Seq::<char>::empty();
    assert(xs.push(e).drop_last() =~= xs);
    assert(xs.push(e).last() == e);
    assert(exec_calls(x.push(';')) == concat_map(xs, exec_piece_fn()) + exec_piece(e));
    assert(exec_calls(x.push(';')) =~= exec_calls(x));
    assert(exec_calls_ok(x.push(';')) == exec_calls_ok(x)) by {
        let ys = split_on(x.push(';'), seq![';']);
        assert(ys == xs.push(e));
        if exec_calls_ok(x) {
            assert forall|i: int| 0 <= i < ys.len() implies exec_piece_ok(#[trigger] ys[i]) by {
                if i < xs.len() {
                    assert(ys[i] == xs[i]);
                }
            }
        }
        if exec_calls_ok(x.push(';')) {
            assert forall|i: int| 0 <= i < xs.len() implies exec_piece_ok(#[trigger] xs[i]) by {
                assert(ys[i] == xs[i]);
            }
        }
    }
}

/// Leading whitespace changes no call.
proof fn lemma_exec_calls_ws_prefix(w: Seq<char>, y: Seq<char>)
    requires
        forall|j: int| 0 <= j < w.len() ==> is_ws(#[trigger] w[j]),
    ensures
        exec_calls(w + y) == exec_calls(y),
        exec_calls_ok(w + y) == exec_calls_ok(y),
{
    assert forall|j: int| 0 <= j < w.len() implies #[trigger] w[j] != ';' by {
        assert(is_ws(w[j]));
    }
    crate::text::lemma_split_prefix(w, y, ';');
    let ys = split_on(y, seq![';']);
    let xs = split_on(w + y, seq![';']);
    assert forall|j: int| 0 <= j < w.len() implies crate::text::ws_pred()(#[trigger] w[j]) by {
        assert(is_ws(w[j]));
    }
    crate::text::lemma_trim_by_prefix(w, ys[0], crate::text::ws_pred());
    assert(trim(xs[0]) == trim(ys[0]));
    assert forall|i: int| 0 <= i < xs.len() implies exec_piece_fn()(#[trigger] xs[i])
        == exec_piece_fn()(ys[i]) && (exec_piece_ok(xs[i]) == exec_piece_ok(ys[i])) by {
        if i > 0 {
            assert(xs[i] == ys[i]);
        }
    }
    lemma_concat_map_pointwise(xs, ys, exec_piece_fn());
    if exec_calls_ok(y) {
        assert forall|i: int| 0 <= i < xs.len() implies exec_piece_ok(#[trigger] xs[i]) by {
            assert(exec_piece_ok(xs[i]) == exec_piece_ok(ys[i]));
        }
    }
    if exec_calls_ok(w + y) {
        assert forall|i: int| 0 <= i < ys.len() implies exec_piece_ok(#[trigger] ys[i]) by {
            assert(exec_piece_ok(xs[i]) == exec_piece_ok(ys[i]));
        }
    }
}

/// A program with no `{`, no `set` and no `fun ` is made of calls alone: it
/// compiles exactly when each of its `exec` statements does, and it compiles
/// to the prelude and a `main` that makes its `exec` calls in order.
pub proof fn law_program_of_calls(source: Seq<char>, windows: bool)
    requires
        !source.contains('{'),
        !has_sub(source, "set"@),
        !has_sub(source, "fun "@),
    ensures
        compile_ok(source) == exec_calls_ok(source),
        compiled(source, windows) == prelude(windows) + "\nint main() {\n"@ + exec_calls(source)
            + "\n    return 0;\n}"@,
{
    reveal_strlit("set");
    reveal_strlit("fun ");
    let ps = statements(source);
    crate::text::lemma_split_pieces_sub(source, seq![';'], "set"@);
    assert forall|i: int| 0 <= i < ps.len() implies !is_global(trim(#[trigger] ps[i])) by {
        let t = trim(ps[i]);
        if "set"@.is_prefix_of(t) {
            assert(t.subrange(0, 3) =~= "set"@);
            assert(matches_at(t, "set"@, 0));
            crate::text::lemma_trim_by_sub(ps[i], crate::text::ws_pred(), "set"@);
        }
    }
    law_program_without_globals(source);
    let b = source.push(';');
    assert(remaining(source) == b);
    assert(!has_sub(b, "fun "@)) by {
        if has_sub(b, "fun "@) {
            let i = choose|i: int| matches_at(b, "fun "@, i);
            if i + 4 <= source.len() {
                assert(source.subrange(i, i + 4) =~= b.subrange(i, i + 4));
                assert(matches_at(source, "fun "@, i));
            } else {
                assert(b.subrange(i, i + 4)[3] == b[i + 3]);
            }
        }
    }
    lemma_first_match(b, "fun "@);
    assert(blocks(source) == seq![b]);
    let a = run_len(b, crate::text::ws_pred());
    lemma_run_len(b, crate::text::ws_pred());
    assert(a < b.len()) by {
        if a == b.len() {
            assert(crate::text::ws_pred()(b[b.len() - 1]));
        }
    }
    let t = b.skip(a as int);
    assert(t.last() == ';');
    assert(back_run_len(t, crate::text::ws_pred()) == 0);
    assert(trim(b) =~= t);
    assert(t.len() > 0);
    crate::text::lemma_sub_of_subrange(b, a as int, b.len() as int, seq!['{']);
    assert(t =~= b.subrange(a as int, b.len() as int));
    assert(!has_sub(b, seq!['{'])) by {
        if has_sub(b, seq!['{']) {
            let i = choose|i: int| matches_at(b, seq!['{'], i);
            crate::text::lemma_match_char(b, '{', i);
            assert(source[i] == '{');
        }
    }
    lemma_first_match(t, seq!['{']);
    assert(block_parts(b) == (Seq::<char>::empty(), exec_calls(t)));
    assert(block_ok(b) == exec_calls_ok(t));
    assert forall|j: int| 0 <= j < b.take(a as int).len() implies is_ws(
        #[trigger] b.take(a as int)[j],
    ) by {
        assert(crate::text::ws_pred()(b[j]));
    }
    assert(b =~= b.take(a as int) + t);
    lemma_exec_calls_ws_prefix(b.take(a as int), t);
    lemma_exec_calls_push(source);
    let bs = seq![b];
    assert(bs.drop_last() =~= Seq::<Seq<char>>::empty());
    assert(bs.last() == b);
    assert(concat_map(bs.drop_last(), block_function_fn()) == Seq::<char>::empty());
    assert(concat_map(bs.drop_last(), block_calls_fn()) == Seq::<char>::empty());
    assert(block_function_fn()(b) == Seq::<char>::empty());
    assert(block_calls_fn()(b) == exec_calls(t));
    assert(functions(source) =~= Seq::<char>::empty());
    assert(main_calls(source) =~= exec_calls(t));
    assert(compile_ok(source) == block_ok(b));
    assert(globals(source) =~= Seq::<char>::empty());
}


// ---------------------------------------------------------------------------
// Laws of statements
// ---------------------------------------------------------------------------

/// A number that follows one of the operator words `=`, `<`, `>`, `<=`, `>=`,
/// `==`, `+`, `-`, `*`, `/` or `,` stays a literal: renaming leaves that word
/// of the line as it is.
pub proof fn law_number_after_operator_stays(c: Seq<char>, i: int)
    requires
        0 < i < words(c).len(),
        ({
            let op = words(c)[i - 1];
            ||| op == "="@
            ||| op == "<"@
            ||| op == ">"@
            ||| op == "<="@
            ||| op == ">="@
            ||| op == "=="@
            ||| op == "+"@
            ||| op == "-"@
            ||| op == "*"@
            ||| op == "/"@
            ||| op == ","@
        }),
    ensures
        words(fixed_vars(c))[i] == words(c)[i],
{
    law_fix_vars_idempotent(c);
}

/// A number that follows no operator word is a variable: where the word
/// before it is none of `=`, `<`, `>`, `<=`, `>=`, `==`, `+`, `-`, `*`, `/`
/// and `,`, or where it opens the line, a word whose core is numeric gets
/// the core `v` followed by its old core.
pub proof fn law_number_elsewhere_renamed(c: Seq<char>, i: int)
    requires
        0 <= i < words(c).len(),
        numeric_like(word_core(words(c)[i])),
        i > 0 ==> ({
            let op = words(c)[i - 1];
            &&& op != "="@
            &&& op != "<"@
            &&& op != ">"@
            &&& op != "<="@
            &&& op != ">="@
            &&& op != "=="@
            &&& op != "+"@
            &&& op != "-"@
            &&& op != "*"@
            &&& op != "/"@
            &&& op != ","@
        }),
    ensures
        word_core(words(fixed_vars(c))[i]) == seq!['v'] + word_core(words(c)[i]),
{
    law_fix_vars_idempotent(c);
    lemma_words_shape(c);
    law_renamed_word(words(c)[i]);
}

/// Every parameter of a function is declared `int`: the C head of
/// `name(params)` is `void name(`, then `int ` before the renamed parameters
/// and `, int` in place of each comma between them, then `)`. A function
/// whose parameters are blank takes `void`.
pub proof fn law_head_declares_every_parameter(name: Seq<char>, params: Seq<char>)
    requires
        !name.contains('('),
        !params.contains(')'),
    ensures
        trim(fixed_vars(params)).len() > 0 ==> head_text(name + "("@ + params + ")"@) == "void "@
            + name + "("@ + "int "@ + join(split_on(fixed_vars(params), ","@), ", int"@) + ")"@,
        trim(fixed_vars(params)).len() == 0 ==> head_text(name + "("@ + params + ")"@) == "void "@
            + name + "(void)"@,
{
    reveal_strlit("(");
    reveal_strlit(")");
    reveal_strlit(",");
    reveal_strlit("int ");
    reveal_strlit("void");
    reveal_strlit("(void)");
    let h = name + "("@ + params + ")"@;
    let n = name.len() as int;
    assert forall|j: int| 0 <= j < n implies !matches_at(h, seq!['('], j) by {
        crate::text::lemma_match_char(h, '(', j);
        assert(h[j] == name[j]);
    }
    crate::text::lemma_match_char(h, '(', n);
    crate::text::lemma_first_match_at(h, seq!['('], n);
    crate::text::lemma_match_char(h, ')', h.len() - 1);
    assert(last_match(h, seq![')']) == Some(h.len() - 1));
    assert(h.subrange(n + 1, h.len() - 1) =~= params);
    assert(h.take(n) =~= name);
    let fixed = fixed_vars(params);
    assert(","@ =~= seq![',']);
    crate::text::lemma_replace_prefix("int "@, fixed, ',', ", int"@);
    crate::text::law_replace_is_split_join(fixed, seq![','], ", int"@);
    if trim(fixed).len() > 0 {
        assert(head_text(h) =~= "void "@ + name + "("@ + "int "@ + join(
            split_on(fixed, ","@),
            ", int"@,
        ) + ")"@);
    } else {
        assert(head_text(h) =~= "void "@ + name + "(void)"@);
    }
}

/// Reading each lone `=` as `==` makes no `===`: where a text has no `==`,
/// its `=` signs doubled never stand three in a row, and the result opens
/// with `=` only where the text does.
proof fn lemma_doubled_equals(s: Seq<char>)
    requires
        !has_sub(s, "=="@),
    ensures
        !has_sub(replace_all(s, "="@, "=="@), "==="@),
        ({
            let r = replace_all(s, "="@, "=="@);
            r.len() > 0 && r[0] == '=' ==> s.len() > 0 && s[0] == '='
        }),
    decreases s.len(),
{
    reveal_strlit("=");
    reveal_strlit("==");
    reveal_strlit("===");
    let r = replace_all(s, "="@, "=="@);
    lemma_first_match(s, "="@);
    match first_match(s, "="@) {
        Some(i) => {
            let a = s.take(i);
            let rest = s.skip(i + 1);
            assert(!has_sub(rest, "=="@)) by {
                crate::text::lemma_sub_of_subrange(s, i + 1, s.len() as int, "=="@);
                assert(rest =~= s.subrange(i + 1, s.len() as int));
            }
            lemma_doubled_equals(rest);
            let r2 = replace_all(rest, "="@, "=="@);
            assert(r == a + "=="@ + r2);
            assert forall|j: int| 0 <= j < i implies #[trigger] s[j] != '=' by {
                crate::text::lemma_match_char(s, '=', j);
                assert("="@ =~= seq!['=']);
            }
            assert(s.subrange(i, i + 1) == "="@);
            assert(s[i] == s.subrange(i, i + 1)[0]);
            assert(rest.len() > 0 ==> rest[0] != '=') by {
                if rest.len() > 0 && rest[0] == '=' {
                    assert(s[i + 1] == rest[0]);
                    assert(s.subrange(i, i + 2) =~= "=="@);
                    assert(matches_at(s, "=="@, i));
                }
            }
            assert(r2.len() > 0 ==> r2[0] != '=');
            if has_sub(r, "==="@) {
                let j = choose|j: int| matches_at(r, "==="@, j);
                let m = r.subrange(j, j + 3);
                assert(m[0] == r[j] && m[1] == r[j + 1] && m[2] == r[j + 2]);
                if j < i {
                    assert(r[j] == s[j]);
                } else if j <= i + 1 {
                    assert(r[i + 2] == r2[0]);
                } else {
                    assert(r2.subrange(j - i - 2, j - i + 1) =~= m);
                    assert(matches_at(r2, "==="@, j - i - 2));
                }
            }
            if r.len() > 0 && r[0] == '=' && i > 0 {
                assert(r[0] == s[0]);
            }
        },
        None => {
            assert(r == s);
            assert forall|j: int| 0 <= j < s.len() implies #[trigger] s[j] != '=' by {
                crate::text::lemma_match_char(s, '=', j);
                assert("="@ =~= seq!['=']);
            }
            crate::text::lemma_char_absent(s, "==="@, 0);
        },
    }
}

/// A condition that already compares with `==`, `>=` or `<=`, or holds no
/// `=`, is kept as written; in any other, each `=` is read as the comparison
/// `==`. The C condition holds `===` only where the written one does.
pub proof fn law_condition_keeps_comparisons(t: Seq<char>)
    ensures
        ({
            let f = spelt_condition(t);
            (has_sub(f, "=="@) || has_sub(f, ">="@) || has_sub(f, "<="@) || !f.contains('='))
                ==> condition(t) == f
        }),
        ({
            let f = spelt_condition(t);
            (!has_sub(f, "=="@) && !has_sub(f, ">="@) && !has_sub(f, "<="@) && f.contains('='))
                ==> condition(t) == join(split_on(f, "="@), "=="@)
        }),
        has_sub(condition(t), "==="@) ==> has_sub(spelt_condition(t), "==="@),
{
    reveal_strlit("=");
    reveal_strlit("==");
    reveal_strlit("===");
    let f = spelt_condition(t);
    crate::text::law_replace_is_split_join(f, "="@, "=="@);
    if !has_sub(f, "=="@) {
        lemma_doubled_equals(f);
    }
}

/// `input(x)` reads into the variable that `x` names, trimmed: a name that is
/// not all numeric is read into as it stands, and only an all-numeric name
/// gets the `v` that makes it an identifier.
pub proof fn law_input_reads_into_name(x: Seq<char>)
    ensures
        call_ok("input("@ + x + ")"@, "input("@),
        (exists|j: int| 0 <= j < trim(x).len() && !char_numeric(#[trigger] trim(x)[j]))
            ==> input_line("input("@ + x + ")"@) == "scanf(\"%lld\", &"@ + trim(x) + ")"@,
        (forall|j: int| 0 <= j < trim(x).len() ==> char_numeric(#[trigger] trim(x)[j]))
            ==> input_line("input("@ + x + ")"@) == "scanf(\"%lld\", &v"@ + trim(x) + ")"@,
{
    reveal_strlit("input(");
    reveal_strlit(")");
    reveal_strlit("v");
    reveal_strlit("scanf(\"%lld\", &");
    reveal_strlit("scanf(\"%lld\", &v");
    let c = "input("@ + x + ")"@;
    assert(c.subrange(0, 6) =~= "input("@);
    crate::text::lemma_first_match_at(c, "input("@, 0);
    assert(c.subrange(c.len() - 1, c.len() as int) =~= ")"@);
    assert(last_match(c, ")"@) == Some(c.len() - 1));
    assert(c.subrange(6, c.len() - 1) =~= x);
    let v = trim(x);
    if all_numeric(v) {
        assert(input_line(c) =~= "scanf(\"%lld\", &v"@ + v + ")"@);
    }
}

/// An `exec` statement in a function body makes the same C call as it does
/// outside functions, where its line holds none of the other words that a
/// body line is rewritten for (`if`, `else`, `loop {`, `break`, `clear`).
pub proof fn law_exec_line_in_body_as_in_main(line: Seq<char>)
    requires
        "exec"@.is_prefix_of(trim(line)),
        !has_sub(line, "if"@),
        !has_sub(line, "else"@),
        !has_sub(line, "loop {"@),
        !has_sub(line, "break"@),
        !has_sub(line, "clear"@),
    ensures
        line_ok(line) == exec_piece_ok(line),
        line_text(line) == exec_piece(line),
{
    reveal_strlit("exec");
    reveal_strlit("if");
    reveal_strlit("elif");
    reveal_strlit("sleep(");
    reveal_strlit(";");
    reveal_strlit("(");
    reveal_strlit(")");
    reveal_strlit("()");
    reveal_strlit("\n");
    reveal_strlit(";\n");
    let c0 = trim(line);
    let ws = crate::text::ws_pred();
    crate::text::lemma_trim_by_sub(line, ws, "if"@);
    crate::text::lemma_trim_by_sub(line, ws, "else"@);
    crate::text::lemma_trim_by_sub(line, ws, "loop {"@);
    crate::text::lemma_trim_by_sub(line, ws, "break"@);
    crate::text::lemma_trim_by_sub(line, ws, "clear"@);
    assert(!has_sub(c0, "elif"@)) by {
        if has_sub(c0, "elif"@) {
            let i = choose|i: int| matches_at(c0, "elif"@, i);
            assert(c0.subrange(i, i + 4) == "elif"@);
            assert(c0[i + 2] == c0.subrange(i, i + 4)[2]);
            assert(c0[i + 3] == c0.subrange(i, i + 4)[3]);
            assert(c0.subrange(i + 2, i + 4) =~= "if"@);
            assert(matches_at(c0, "if"@, i + 2));
        }
    }
    assert(c0[0] == 'e') by {
        assert(c0.subrange(0, 4) == "exec"@);
        assert(c0[0] == c0.subrange(0, 4)[0]);
    }
    assert(!"sleep("@.is_prefix_of(c0)) by {
        if "sleep("@.is_prefix_of(c0) {
            assert(c0.subrange(0, 6) == "sleep("@);
            assert(c0[0] == c0.subrange(0, 6)[0]);
        }
    }
    assert(line_cmd(c0) == c0);
    assert(!skipped_line(line)) by {
        if c0 == ";"@ {
            assert(c0.len() == 1);
        }
    }
    let e = exec_call(c0);
    assert(e.len() > 0 && e.last() == ')') by {
        let call = fixed_vars(c0.subrange(exec_args_start(c0), exec_args_end(c0)));
        match first_match(call, seq![',']) {
            Some(k) => {
                assert(e == trim(call.take(k)) + "("@ + trim(call.skip(k + 1)) + ")"@);
            },
            None => {
                assert(e == trim(call) + "()"@);
            },
        }
    }
    assert(terminated(e) == e.push(';'));
    assert(line_text(line) =~= exec_piece(line));
}


// ---------------------------------------------------------------------------
// Laws of body lines
// ---------------------------------------------------------------------------

/// A single word whose core opens with a character that is neither numeric
/// nor `-` is not renamed.
proof fn lemma_word_kept(w: Seq<char>, a: int)
    requires
        0 <= a < w.len(),
        no_ws(w),
        forall|j: int| 0 <= j < a ==> is_symbol(#[trigger] w[j]),
        !is_symbol(w[a]),
        !char_numeric(w[a]),
        w[a] != '-',
    ensures
        fixed_vars(w) == w,
{
    let f = symbol_pred();
    lemma_words_join(seq![w]);
    assert(join(seq![w], seq![' ']) == w);
    assert(words(w) == seq![w]);
    lemma_run_len_at(w, f, a);
    let t = w.skip(a);
    lemma_back_run_len(t, f);
    assert(t[0] == w[a]);
    let cl = word_core(w);
    assert(cl == t.take(t.len() - back_run_len(t, f)));
    if cl.len() > 0 {
        assert(cl[0] == w[a]);
    }
    assert(!numeric_like(cl));
    assert(fixed_words(seq![w]) =~= seq![w]);
}

/// A text without `if` has no `elif`.
proof fn lemma_no_elif(c: Seq<char>)
    requires
        !has_sub(c, "if"@),
    ensures
        !has_sub(c, "elif"@),
{
    reveal_strlit("if");
    reveal_strlit("elif");
    if has_sub(c, "elif"@) {
        let i = choose|i: int| matches_at(c, "elif"@, i);
        assert(c.subrange(i, i + 4) == "elif"@);
        assert(c[i + 2] == c.subrange(i, i + 4)[2]);
        assert(c[i + 3] == c.subrange(i, i + 4)[3]);
        assert(c.subrange(i + 2, i + 4) =~= "if"@);
        assert(matches_at(c, "if"@, i + 2));
    }
}

/// A text does not open with a pattern whose first character differs from its own.
proof fn lemma_not_prefix(p: Seq<char>, s: Seq<char>)
    requires
        p.len() > 0,
        s.len() > 0,
        p[0] != s[0],
    ensures
        !p.is_prefix_of(s),
{
    if p.is_prefix_of(s) {
        assert(s.subrange(0, p.len() as int)[0] == s[0]);
    }
}

/// A body line holding `else` and no `if` opens the other branch:
/// it becomes `} else {`.
pub proof fn law_else_line(line: Seq<char>)
    requires
        has_sub(trim(line), "else"@),
        !has_sub(trim(line), "if"@),
    ensures
        line_ok(line),
        line_text(line) == "    } else {\n"@,
{
    reveal_strlit("else");
    reveal_strlit("} else {");
    reveal_strlit("loop {");
    reveal_strlit("break");
    reveal_strlit("clear");
    reveal_strlit("sleep(");
    reveal_strlit(";");
    reveal_strlit("    ");
    reveal_strlit("\n");
    reveal_strlit("    } else {\n");
    let c0 = trim(line);
    lemma_no_elif(c0);
    crate::text::lemma_trim_twice(line);
    assert(logic_line(c0) == "} else {"@);
    let e = "} else {"@;
    crate::text::lemma_char_absent(e, "loop {"@, 1);
    crate::text::lemma_char_absent(e, "break"@, 0);
    crate::text::lemma_char_absent(e, "clear"@, 0);
    reveal_strlit("exec");
    lemma_not_prefix("sleep("@, e);
    lemma_not_prefix("exec"@, e);
    assert(line_cmd(c0) == e);
    assert(e.contains('{')) by {
        assert(e[7] == '{');
    }
    assert(!skipped_line(line)) by {
        let i = choose|i: int| matches_at(c0, "else"@, i);
        assert(c0.len() >= 4);
    }
    assert(line_text(line) =~= "    } else {\n"@);
}

/// A body line holding `break` (and no `if`, `else` or `loop {`) leaves the
/// loop: it becomes `break;`.
pub proof fn law_break_line(line: Seq<char>)
    requires
        has_sub(trim(line), "break"@),
        !has_sub(trim(line), "if"@),
        !has_sub(trim(line), "else"@),
        !has_sub(trim(line), "loop {"@),
    ensures
        line_ok(line),
        line_text(line) == "    break;\n"@,
{
    reveal_strlit("break");
    reveal_strlit("clear");
    reveal_strlit("sleep(");
    reveal_strlit("exec");
    reveal_strlit("set");
    reveal_strlit("print");
    reveal_strlit("input");
    reveal_strlit(";");
    reveal_strlit("    ");
    reveal_strlit("\n");
    reveal_strlit("    break;\n");
    let c0 = trim(line);
    lemma_no_elif(c0);
    let b = "break"@;
    crate::text::lemma_char_absent(b, "clear"@, 0);
    lemma_not_prefix("sleep("@, b);
    assert(line_cmd(c0) == b);
    lemma_not_prefix("exec"@, b);
    lemma_not_prefix("set"@, b);
    lemma_not_prefix("print"@, b);
    lemma_not_prefix("input"@, b);
    assert(!b.contains('{'));
    assert(!b.contains('}'));
    assert(no_ws(b));
    assert(!is_symbol(b[0]));
    lemma_word_kept(b, 0);
    assert(c_statement(b) == b);
    assert(terminated(b) == b.push(';'));
    assert(!skipped_line(line)) by {
        let i = choose|i: int| matches_at(c0, "break"@, i);
        assert(c0.len() >= 5);
    }
    assert(line_text(line) =~= "    break;\n"@);
}

/// A body line holding `clear` (and no `if`, `else`, `loop {` or `break`)
/// empties the input: it becomes `_qa_clear();`.
pub proof fn law_clear_line(line: Seq<char>)
    requires
        has_sub(trim(line), "clear"@),
        !has_sub(trim(line), "if"@),
        !has_sub(trim(line), "else"@),
        !has_sub(trim(line), "loop {"@),
        !has_sub(trim(line), "break"@),
    ensures
        line_ok(line),
        line_text(line) == "    _qa_clear();\n"@,
{
    reveal_strlit("clear");
    reveal_strlit("_qa_clear()");
    reveal_strlit("sleep(");
    reveal_strlit("exec");
    reveal_strlit("set");
    reveal_strlit("print");
    reveal_strlit("input");
    reveal_strlit(";");
    reveal_strlit("    ");
    reveal_strlit("\n");
    reveal_strlit("    _qa_clear();\n");
    let c0 = trim(line);
    lemma_no_elif(c0);
    let q = "_qa_clear()"@;
    lemma_not_prefix("sleep("@, q);
    assert(line_cmd(c0) == q);
    lemma_not_prefix("exec"@, q);
    lemma_not_prefix("set"@, q);
    lemma_not_prefix("print"@, q);
    lemma_not_prefix("input"@, q);
    assert(!q.contains('{'));
    assert(!q.contains('}'));
    assert(no_ws(q));
    assert(is_symbol(q[0]));
    assert(!is_symbol(q[1]));
    lemma_word_kept(q, 1);
    assert(c_statement(q) == q);
    assert(terminated(q) == q.push(';'));
    assert(!skipped_line(line)) by {
        let i = choose|i: int| matches_at(c0, "clear"@, i);
        assert(c0.len() >= 5);
    }
    assert(line_text(line) =~= "    _qa_clear();\n"@);
}

/// A pattern whose first character is absent from `h` occurs in `h + b` only
/// where it occurs in `b`.
proof fn lemma_sub_in_tail(h: Seq<char>, b: Seq<char>, p: Seq<char>)
    requires
        p.len() > 0,
        forall|j: int| 0 <= j < h.len() ==> #[trigger] h[j] != p[0],
    ensures
        has_sub(h + b, p) ==> has_sub(b, p),
{
    let s = h + b;
    if has_sub(s, p) {
        let i = choose|i: int| matches_at(s, p, i);
        assert(s.subrange(i, i + p.len())[0] == s[i]);
        assert(i >= h.len());
        assert(b.subrange(i - h.len(), i - h.len() + p.len()) =~= s.subrange(i, i + p.len()));
        assert(matches_at(b, p, i - h.len()));
    }
}

/// A body line that opens with `loop {` opens an endless loop: `while (1) {`
/// takes the place of `loop {`, and the rest of the line stays.
pub proof fn law_loop_line(b: Seq<char>)
    requires
        !has_sub(b, "loop {"@),
        !has_sub("loop {"@ + b, "if"@),
        !has_sub("loop {"@ + b, "else"@),
        !has_sub("loop {"@ + b, "break"@),
        !has_sub("loop {"@ + b, "clear"@),
    ensures
        line_cmd("loop {"@ + b) == "while (1) {"@ + b,
{
    reveal_strlit("loop {");
    reveal_strlit("while (1) {");
    reveal_strlit("sleep(");
    let c = "loop {"@ + b;
    lemma_no_elif(c);
    assert(c.subrange(0, 6) =~= "loop {"@);
    crate::text::lemma_first_match_at(c, "loop {"@, 0);
    assert(c.skip(6) =~= b);
    lemma_first_match(b, "loop {"@);
    let w = "while (1) {"@ + b;
    assert(first_match(c, "loop {"@) == Some(0int));
    assert(replace_all(b, "loop {"@, "while (1) {"@) == b);
    assert(c.take(0) =~= Seq::<char>::empty());
    assert(replace_all(c, "loop {"@, "while (1) {"@) == c.take(0) + "while (1) {"@ + replace_all(
        c.skip(6),
        "loop {"@,
        "while (1) {"@,
    ));
    assert(replace_all(c, "loop {"@, "while (1) {"@) =~= w);
    lemma_not_prefix("sleep("@, w);
    reveal_strlit("break");
    reveal_strlit("clear");
    lemma_sub_in_tail("while (1) {"@, b, "break"@);
    lemma_sub_in_tail("while (1) {"@, b, "clear"@);
    crate::text::lemma_sub_of_subrange(c, 6, c.len() as int, "break"@);
    crate::text::lemma_sub_of_subrange(c, 6, c.len() as int, "clear"@);
    assert(c.subrange(6, c.len() as int) =~= b);
}

/// A body line that opens with `sleep(` pauses: it calls `_qa_sleep(` in its
/// place, and the rest of the line stays.
pub proof fn law_sleep_line(x: Seq<char>)
    requires
        !has_sub(x, "sleep("@),
        !has_sub("sleep("@ + x, "if"@),
        !has_sub("sleep("@ + x, "else"@),
        !has_sub("sleep("@ + x, "loop {"@),
        !has_sub("sleep("@ + x, "break"@),
        !has_sub("sleep("@ + x, "clear"@),
    ensures
        line_cmd("sleep("@ + x) == "_qa_sleep("@ + x,
{
    reveal_strlit("sleep(");
    reveal_strlit("_qa_sleep(");
    let c = "sleep("@ + x;
    lemma_no_elif(c);
    assert(c.subrange(0, 6) =~= "sleep("@);
    crate::text::lemma_first_match_at(c, "sleep("@, 0);
    assert(c.skip(6) =~= x);
    lemma_first_match(x, "sleep("@);
    assert(first_match(c, "sleep("@) == Some(0int));
    assert(replace_all(x, "sleep("@, "_qa_sleep("@) == x);
    assert(c.take(0) =~= Seq::<char>::empty());
    assert(replace_all(c, "sleep("@, "_qa_sleep("@) == c.take(0) + "_qa_sleep("@ + replace_all(
        c.skip(6),
        "sleep("@,
        "_qa_sleep("@,
    ));
    assert(replace_all(c, "sleep("@, "_qa_sleep("@) =~= "_qa_sleep("@ + x);
}

/// The condition of `if cond {` is `cond`, trimmed and renamed, with `and`
/// and `or` spelt `&&` and `||`, where `cond` holds no `if` and no `{`.
pub proof fn law_if_condition(cond: Seq<char>)
    requires
        !has_sub(cond, "if"@),
        !cond.contains('{'),
    ensures
        spelt_condition("if"@ + cond + "{"@) == replace_all(
            replace_all(fixed_vars(trim(cond)), " and "@, " && "@),
            " or "@,
            " || "@,
        ),
{
    reveal_strlit("if");
    reveal_strlit("elif");
    reveal_strlit("{");
    let r = cond + "{"@;
    let t = "if"@ + r;
    assert(!has_sub(r, "if"@)) by {
        if has_sub(r, "if"@) {
            let i = choose|i: int| matches_at(r, "if"@, i);
            assert(r.subrange(i, i + 2)[1] == r[i + 1]);
            if i + 2 <= cond.len() {
                assert(cond.subrange(i, i + 2) =~= r.subrange(i, i + 2));
                assert(matches_at(cond, "if"@, i));
            }
        }
    }
    assert(!has_sub(t, "elif"@)) by {
        if has_sub(t, "elif"@) {
            let i = choose|i: int| matches_at(t, "elif"@, i);
            assert(t.subrange(i, i + 4)[2] == t[i + 2]);
            assert(t.subrange(i, i + 4)[3] == t[i + 3]);
            assert(r[i] == t[i + 2]);
            assert(r[i + 1] == t[i + 3]);
            assert(r.subrange(i, i + 2) =~= "if"@);
            assert(matches_at(r, "if"@, i));
        }
    }
    assert(cond_keyword(t) == "if"@);
    assert(t.subrange(0, 2) =~= "if"@);
    crate::text::lemma_first_match_at(t, "if"@, 0);
    assert(t.skip(2) =~= r);
    lemma_first_match(r, "if"@);
    assert(split_on(r, "if"@) == seq![r]);
    assert(split_on(t, "if"@)[1] == r);
    assert forall|j: int| 0 <= j < cond.len() implies #[trigger] cond[j] != '{' by {}
    crate::text::lemma_replace_prefix(cond, seq!['{'], '{', Seq::empty());
    let e = Seq::<char>::empty();
    assert(seq!['{'].subrange(0, 1) =~= seq!['{']);
    crate::text::lemma_first_match_at(seq!['{'], seq!['{'], 0);
    assert(seq!['{'].skip(1) =~= e);
    lemma_first_match(e, seq!['{']);
    assert(!has_sub(e, seq!['{']));
    assert(replace_all(e, seq!['{'], e) == e);
    assert(seq!['{'].take(0) =~= e);
    assert(replace_all(seq!['{'], seq!['{'], e) =~= e);
    assert("{"@ =~= seq!['{']);
    assert(replace_all(r, seq!['{'], e) =~= cond);
    assert(t =~= "if"@ + cond + "{"@);
    assert(split_on(t, cond_keyword(t))[1] == r);
}


/// `print(x)` prints `x` as text when it holds a quote, and otherwise as the
/// number that `x`, renamed, evaluates to.
pub proof fn law_print_prints_content(x: Seq<char>)
    ensures
        call_ok("print("@ + x + ")"@, "print("@),
        x.contains('"') ==> print_line("print("@ + x + ")"@) == "printf(\"%s\\n\", "@ + x
            + ");"@,
        !x.contains('"') ==> print_line("print("@ + x + ")"@) == "printf(\"%lld\\n\", (long long)("@
            + fixed_vars(x) + "));"@,
{
    reveal_strlit("print(");
    reveal_strlit(")");
    let c = "print("@ + x + ")"@;
    assert(c.subrange(0, 6) =~= "print("@);
    crate::text::lemma_first_match_at(c, "print("@, 0);
    assert(c.subrange(c.len() - 1, c.len() as int) =~= ")"@);
    assert(last_match(c, ")"@) == Some(c.len() - 1));
    assert(c.subrange(6, c.len() - 1) =~= x);
}

/// `set 64 x` declares a `long long`, `set 32 x` an `int`, and any other
/// `set x` an `int`; the declaration is then renamed.
pub proof fn law_set_declares(x: Seq<char>)
    ensures
        set_decl("set 64"@ + x) == fixed_vars("long long"@ + x),
        set_decl("set 32"@ + x) == fixed_vars("int"@ + x),
        !" 64"@.is_prefix_of(x) && !" 32"@.is_prefix_of(x) ==> set_decl("set"@ + x) == fixed_vars(
            "int"@ + x,
        ),
{
    reveal_strlit("set 64");
    reveal_strlit("set 32");
    reveal_strlit("set");
    reveal_strlit(" 64");
    reveal_strlit(" 32");
    let a = "set 64"@ + x;
    let b = "set 32"@ + x;
    let c = "set"@ + x;
    assert(a.subrange(0, 6) =~= "set 64"@);
    assert(b.subrange(0, 6) =~= "set 32"@);
    assert(c.subrange(0, 3) =~= "set"@);
    crate::text::lemma_first_match_at(a, "set 64"@, 0);
    crate::text::lemma_first_match_at(b, "set 32"@, 0);
    crate::text::lemma_first_match_at(c, "set"@, 0);
    assert(a.skip(6) =~= x);
    assert(b.skip(6) =~= x);
    assert(c.skip(3) =~= x);
    assert(b.subrange(0, 6) != "set 64"@) by {
        assert(b.subrange(0, 6)[4] != "set 64"@[4]);
    }
    assert(replace_first(a, "set 64"@, "long long"@) =~= "long long"@ + x);
    assert(replace_first(b, "set 32"@, "int"@) =~= "int"@ + x);
    assert(replace_first(c, "set"@, "int"@) =~= "int"@ + x);
    if !" 64"@.is_prefix_of(x) && !" 32"@.is_prefix_of(x) {
        assert(!"set 64"@.is_prefix_of(c)) by {
            if "set 64"@.is_prefix_of(c) {
                assert(c.subrange(0, 6) == "set 64"@);
                assert(x.subrange(0, 3) =~= c.subrange(0, 6).subrange(3, 6));
                assert(" 64"@ =~= "set 64"@.subrange(3, 6));
                assert(" 64"@.is_prefix_of(x));
            }
        }
        assert(!"set 32"@.is_prefix_of(c)) by {
            if "set 32"@.is_prefix_of(c) {
                assert(c.subrange(0, 6) == "set 32"@);
                assert(x.subrange(0, 3) =~= c.subrange(0, 6).subrange(3, 6));
                assert(" 32"@ =~= "set 32"@.subrange(3, 6));
                assert(" 32"@.is_prefix_of(x));
            }
        }
    }
}

/// `exec(args)`, where `args` holds no `)`, calls the function that the
/// renamed `args` name before their first comma, with the rest as its
/// arguments, or with none where they hold no comma.
pub proof fn law_exec_calls_named_function(args: Seq<char>)
    requires
        !args.contains(')'),
    ensures
        exec_line_ok("exec("@ + args + ")"@),
        ({
            let call = fixed_vars(args);
            let ps = split_on(call, ","@);
            &&& ps.len() == 1 ==> exec_call("exec("@ + args + ")"@) == trim(call) + "()"@
            &&& ps.len() > 1 ==> exec_call("exec("@ + args + ")"@) == trim(ps[0]) + "("@ + trim(
                call.skip(ps[0].len() as int + 1),
            ) + ")"@
        }),
{
    reveal_strlit("exec(");
    reveal_strlit(")");
    reveal_strlit(",");
    let c = "exec("@ + args + ")"@;
    assert forall|j: int| 0 <= j < 4 implies !matches_at(c, seq!['('], j) by {
        crate::text::lemma_match_char(c, '(', j);
    }
    crate::text::lemma_match_char(c, '(', 4);
    crate::text::lemma_first_match_at(c, seq!['('], 4);
    crate::text::lemma_match_char(c, ')', c.len() - 1);
    assert(last_match(c, seq![')']) == Some(c.len() - 1));
    assert(c.subrange(5, c.len() - 1) =~= args);
    let call = fixed_vars(args);
    assert(","@ =~= seq![',']);
    lemma_first_match(call, seq![',']);
    crate::text::lemma_split_on_len(call, seq![',']);
    if let Some(k) = first_match(call, seq![',']) {
        assert(split_on(call, seq![','])[0] == call.take(k));
    } else {
        assert(split_on(call, seq![',']) == seq![call]);
    }
}


/// A line holding `elif` continues a chain of branches with
/// `} else if (cond) {`, a line holding `if` alone opens one with
/// `if (cond) {`, and a line holding `else` and no `if` closes it with
/// `} else {`, whatever else the line holds.
pub proof fn law_branch_lines(c: Seq<char>)
    ensures
        has_sub(trim(c), "elif"@) ==> logic_line(c) == "} else if ("@ + condition(trim(c))
            + ") {"@,
        has_sub(trim(c), "if"@) && !has_sub(trim(c), "elif"@) ==> logic_line(c) == "if ("@
            + condition(trim(c)) + ") {"@,
        has_sub(trim(c), "else"@) && !has_sub(trim(c), "if"@) ==> logic_line(c) == "} else {"@,
{
    if !has_sub(trim(c), "if"@) {
        lemma_no_elif(trim(c));
    }
}

} // verus!
