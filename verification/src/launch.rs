//! The decisions around building and running the compiled program: file
//! names, the C compiler's arguments, and how the binary is started.
use vstd::prelude::*;

use crate::text::{chars_of, contains_char, push_all, same, to_string};

verus! {

/// The path that runs the binary `output`: the name itself when it holds a
/// directory separator, else the name in the current directory.
pub open spec fn run_path_of(output: Seq<char>) -> Seq<char> {
    if output.contains('/') || output.contains('\\') {
        output
    } else {
        "./"@ + output
    }
}

/// The path that runs the binary `output`.
pub fn run_path(output: &String) -> (r: String)
    ensures
        r@ == run_path_of(output@),
{
    let o = chars_of(output.as_str());
    if contains_char(&o, '/') || contains_char(&o, '\\') {
        output.clone()
    } else {
        let mut p = chars_of("./");
        push_all(&mut p, &o);
        to_string(&p)
    }
}

/// The decimal digits of `n`, most significant first.
pub open spec fn decimal(n: nat) -> Seq<char>
    decreases n,
{
    if n < 10 {
        seq![digit_char(n)]
    } else {
        decimal(n / 10).push(digit_char(n % 10))
    }
}

/// The character of the decimal digit `d`.
pub open spec fn digit_char(d: nat) -> char {
    if d == 0 {
        '0'
    } else if d == 1 {
        '1'
    } else if d == 2 {
        '2'
    } else if d == 3 {
        '3'
    } else if d == 4 {
        '4'
    } else if d == 5 {
        '5'
    } else if d == 6 {
        '6'
    } else if d == 7 {
        '7'
    } else if d == 8 {
        '8'
    } else {
        '9'
    }
}

fn digit(d: u128) -> (c: char)
    requires
        d < 10,
    ensures
        c == digit_char(d as nat),
{
    if d == 0 {
        '0'
    } else if d == 1 {
        '1'
    } else if d == 2 {
        '2'
    } else if d == 3 {
        '3'
    } else if d == 4 {
        '4'
    } else if d == 5 {
        '5'
    } else if d == 6 {
        '6'
    } else if d == 7 {
        '7'
    } else if d == 8 {
        '8'
    } else {
        '9'
    }
}

fn decimal_of(n: u128) -> (r: Vec<char>)
    ensures
        r@ == decimal(n as nat),
    decreases n,
{
    if n < 10 {
        let r = vec![digit(n)];
        assert(r@ =~= seq![digit_char(n as nat)]);
        r
    } else {
        let mut r = decimal_of(n / 10);
        r.push(digit(n % 10));
        r
    }
}

/// The name of the C file written for a build started at `nanos`
/// nanoseconds after the epoch: `temp_<nanos>.c`.
pub fn temp_c_name(nanos: u128) -> (r: String)
    ensures
        r@ == "temp_"@ + decimal(nanos as nat) + ".c"@,
{
    let mut name = chars_of("temp_");
    push_all(&mut name, &decimal_of(nanos));
    push_all(&mut name, &chars_of(".c"));
    to_string(&name)
}

/// The arguments with which a C compiler builds `input` into `output`,
/// optimised for size and stripped, and verbose when asked.
pub open spec fn cc_args(input: Seq<char>, output: Seq<char>, verbose: bool) -> Seq<Seq<char>> {
    let args = seq![input, "-o"@, output, "-Os"@, "-s"@];
    if verbose {
        args.push("-v"@)
    } else {
        args
    }
}

/// The arguments for the C compiler.
pub fn compiler_args(input: &String, output: &String, verbose: bool) -> (r: Vec<String>)
    ensures
        r@.map_values(|a: String| a@) == cc_args(input@, output@, verbose),
{
    let mut args: Vec<String> = Vec::new();
    args.push(input.clone());
    args.push(to_string(&chars_of("-o")));
    args.push(output.clone());
    args.push(to_string(&chars_of("-Os")));
    args.push(to_string(&chars_of("-s")));
    if verbose {
        args.push(to_string(&chars_of("-v")));
    }
    assert(args@.map_values(|a: String| a@) =~= cc_args(input@, output@, verbose));
    args
}

/// The file names under which the bundled C compiler is found.
pub open spec fn is_zig_name(name: Seq<char>) -> bool {
    name == "zig"@ || name == "zig.exe"@
}

/// Whether a file name is that of the bundled C compiler.
pub fn is_zig_binary_name(name: &str) -> (r: bool)
    ensures
        r == is_zig_name(name@),
{
    let n = chars_of(name);
    same(&n, &chars_of("zig")) || same(&n, &chars_of("zig.exe"))
}


/// The path that runs a binary always holds a directory separator, so the
/// binary is never looked up on the search path.
pub proof fn law_run_path_has_separator(output: Seq<char>)
    ensures
        run_path_of(output).contains('/') || run_path_of(output).contains('\\'),
{
    reveal_strlit("./");
    if !(output.contains('/') || output.contains('\\')) {
        assert(run_path_of(output)[1] == '/');
    }
}

} // verus!
