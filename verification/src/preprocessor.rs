//! The text-level steps of loading a Qa source: naming the file, splitting it
//! into lines, following `import` lines and dropping comments.
use vstd::prelude::*;

use crate::text::{
    chars_of, ends_with, push_all, replace, replace_all, single, slice, split, split_on,
    starts_with, texts, to_string, trim, trim_ws,
};

verus! {

/// The file that a path names: the path without `;` and `"`, trimmed, with
/// `.qa` appended unless it already ends so.
pub open spec fn source_path(path: Seq<char>) -> Seq<char> {
    let p = trim(replace_all(replace_all(path, ";"@, Seq::empty()), "\""@, Seq::empty()));
    if ".qa"@.is_suffix_of(p) {
        p
    } else {
        p + ".qa"@
    }
}

/// The name of the file that `path` names.
pub fn source_file_name(path: &str) -> (r: String)
    ensures
        r@ == source_path(path@),
{
    proof {
        reveal_strlit(";");
        reveal_strlit("\"");
    }
    let p0 = replace(&chars_of(path), &chars_of(";"), &Vec::new());
    let p1 = replace(&p0, &chars_of("\""), &Vec::new());
    let mut p = trim_ws(&p1);
    if !ends_with(&p, &chars_of(".qa")) {
        push_all(&mut p, &chars_of(".qa"));
    }
    to_string(&p)
}

/// A line without one trailing carriage return.
pub open spec fn strip_cr(l: Seq<char>) -> Seq<char> {
    if l.len() > 0 && l.last() == '\r' {
        l.drop_last()
    } else {
        l
    }
}

/// The lines of a text (what `str::lines` yields): the pieces between line
/// feeds, each without the carriage return before its line feed; a last
/// empty piece is no line.
pub open spec fn text_lines(s: Seq<char>) -> Seq<Seq<char>> {
    let ps = split_on(s, seq!['\n']);
    let ended = ps.drop_last().map_values(|l: Seq<char>| strip_cr(l));
    if ps.last().len() == 0 {
        ended
    } else {
        ended.push(ps.last())
    }
}

/// The number of times `c` occurs in `s`.
pub open spec fn count_char(s: Seq<char>, c: char) -> nat
    decreases s.len(),
{
    if s.len() == 0 {
        0
    } else {
        count_char(s.drop_last(), c) + if s.last() == c {
            1nat
        } else {
            0nat
        }
    }
}

/// A comment starts at index `i`: a `#` or `//` there is not inside quotes.
pub open spec fn comment_at(line: Seq<char>, i: int) -> bool {
    &&& count_char(line.take(i + 1), '"') % 2 == 0
    &&& (line[i] == '#' || (line[i] == '/' && i + 1 < line.len() && line[i + 1] == '/'))
}

/// The first index at or after `i` where a comment starts, or the line's length.
pub open spec fn comment_from(line: Seq<char>, i: int) -> int
    decreases line.len() - i,
{
    if i < 0 || i >= line.len() {
        line.len() as int
    } else if comment_at(line, i) {
        i
    } else {
        comment_from(line, i + 1)
    }
}

/// The line without its comment.
pub open spec fn code_part(line: Seq<char>) -> Seq<char> {
    line.take(comment_from(line, 0))
}

/// The file that an `import` line names, if the line is one.
pub open spec fn import_target(line: Seq<char>) -> Option<Seq<char>> {
    let t = trim(line);
    if "import"@.is_prefix_of(t) {
        Some(t.skip(6))
    } else {
        None
    }
}

/// One line of a Qa source: an import of another file, or code.
pub enum SourceLine {
    Import(String),
    Code(String),
}

/// `out` is `line` classified: its import target, or its code without comment.
pub open spec fn classified(out: SourceLine, line: Seq<char>) -> bool {
    match out {
        SourceLine::Import(p) => import_target(line) == Some(p@),
        SourceLine::Code(c) => import_target(line) is None && c@ == code_part(line),
    }
}

/// `line` without its comment: what precedes the first `#` or `//` that is
/// not inside double quotes.
fn strip_comment(line: &Vec<char>) -> (r: Vec<char>)
    ensures
        r@ == code_part(line@),
{
    let mut q = false;
    let mut i: usize = 0;
    while i < line.len()
        invariant
            i <= line.len(),
            comment_from(line@, 0) == comment_from(line@, i as int),
            q == (count_char(line@.take(i as int), '"') % 2 == 1),
        decreases line.len() - i,
    {
        assert(line@.take(i + 1).drop_last() =~= line@.take(i as int));
        if line[i] == '"' {
            q = !q;
        }
        if !q && (line[i] == '#' || (line[i] == '/' && i + 1 < line.len() && line[i + 1] == '/')) {
            assert(line@.subrange(0, i as int) =~= line@.take(i as int));
            return slice(line, 0, i);
        }
        i += 1;
    }
    assert(line@.subrange(0, line@.len() as int) =~= line@.take(line@.len() as int));
    slice(line, 0, line.len())
}

fn classify(line: &Vec<char>) -> (r: SourceLine)
    ensures
        classified(r, line@),
{
    let t = trim_ws(line);
    proof {
        reveal_strlit("import");
    }
    if starts_with(&t, &chars_of("import")) {
        let target = slice(&t, 6, t.len());
        assert(target@ =~= t@.skip(6));
        SourceLine::Import(to_string(&target))
    } else {
        SourceLine::Code(to_string(&strip_comment(line)))
    }
}

/// The lines of a Qa source, each an import or code without its comment.
pub fn read_lines(content: &str) -> (r: Vec<SourceLine>)
    ensures
        r.len() == text_lines(content@).len(),
        forall|i: int| 0 <= i < r.len() ==> classified(#[trigger] r@[i], text_lines(content@)[i]),
{
    let pieces = split(&chars_of(content), &single('\n'));
    let ghost ps = texts(pieces@);
    let ghost ls = text_lines(content@);
    let n = pieces.len();
    assert(n >= 1) by {
        crate::text::lemma_split_on_len(content@, seq!['\n']);
    }
    let last_empty = pieces[n - 1].len() == 0;
    let count = if last_empty {
        n - 1
    } else {
        n
    };
    assert(ps.last() == pieces@[n - 1]@);
    assert(ls.len() == count);
    let mut out: Vec<SourceLine> = Vec::new();
    let mut i: usize = 0;
    while i < count
        invariant
            i <= count,
            count <= n == pieces.len(),
            ps == texts(pieces@),
            ps == split_on(content@, seq!['\n']),
            ls == text_lines(content@),
            ls.len() == count,
            last_empty == (ps.last().len() == 0),
            last_empty ==> count == n - 1,
            !last_empty ==> count == n,
            out.len() == i,
            forall|j: int| 0 <= j < i ==> classified(#[trigger] out@[j], ls[j]),
        decreases count - i,
    {
        assert(ps[i as int] == pieces@[i as int]@);
        let piece = &pieces[i];
        let line = if i + 1 < n && piece.len() > 0 && piece[piece.len() - 1] == '\r' {
            slice(piece, 0, piece.len() - 1)
        } else {
            slice(piece, 0, piece.len())
        };
        proof {
            if i + 1 < n {
                assert(ls[i as int] == strip_cr(ps[i as int]));
                assert(line@ =~= strip_cr(ps[i as int]));
            } else {
                assert(ls[i as int] == ps.last());
                assert(line@ =~= ps[i as int]);
            }
        }
        out.push(classify(&line));
        i += 1;
    }
    out
}

/// A `#` or `//` inside double quotes does not start a comment, and the code
/// of a line is what precedes its first comment.
pub proof fn law_code_part_is_prefix(line: Seq<char>)
    ensures
        code_part(line).is_prefix_of(line),
        code_part(line).len() < line.len() ==> comment_at(line, code_part(line).len() as int),
{
    lemma_comment_from(line, 0);
    assert(code_part(line) =~= line.subrange(0, code_part(line).len() as int));
}

proof fn lemma_comment_from(line: Seq<char>, i: int)
    requires
        0 <= i <= line.len(),
    ensures
        i <= comment_from(line, i) <= line.len(),
        comment_from(line, i) < line.len() ==> comment_at(line, comment_from(line, i)),
        forall|j: int| i <= j < comment_from(line, i) ==> !comment_at(line, j),
    decreases line.len() - i,
{
    if i < line.len() && !comment_at(line, i) {
        lemma_comment_from(line, i + 1);
    }
}


/// The file that a path names always ends with `.qa`.
pub proof fn law_source_path_is_qa(path: Seq<char>)
    ensures
        ".qa"@.is_suffix_of(source_path(path)),
{
    let p = trim(replace_all(replace_all(path, ";"@, Seq::empty()), "\""@, Seq::empty()));
    if !".qa"@.is_suffix_of(p) {
        assert((p + ".qa"@).subrange(p.len() as int, (p.len() + ".qa"@.len()) as int) =~= ".qa"@);
    }
}

} // verus!
