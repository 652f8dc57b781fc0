//! Character-sequence operations used by the compiler: searching, splitting,
//! trimming, replacing and joining, each specified over `Seq<char>` and
//! implemented over `Vec<char>`.
use vstd::prelude::*;

verus! {

// ---------------------------------------------------------------------------
// Character classes
// ---------------------------------------------------------------------------

/// The Unicode `White_Space` property, which is what `char::is_whitespace` tests.
pub open spec fn is_ws(c: char) -> bool {
    ||| ('\u{9}' <= c && c <= '\u{d}')
    ||| c == ' '
    ||| c == '\u{85}'
    ||| c == '\u{a0}'
    ||| c == '\u{1680}'
    ||| ('\u{2000}' <= c && c <= '\u{200a}')
    ||| c == '\u{2028}'
    ||| c == '\u{2029}'
    ||| c == '\u{202f}'
    ||| c == '\u{205f}'
    ||| c == '\u{3000}'
}

/// Whether `c` is whitespace.
pub fn is_whitespace(c: char) -> (r: bool)
    ensures
        r == is_ws(c),
{
    ('\u{9}' <= c && c <= '\u{d}') || c == ' ' || c == '\u{85}' || c == '\u{a0}' || c
        == '\u{1680}' || ('\u{2000}' <= c && c <= '\u{200a}') || c == '\u{2028}' || c
        == '\u{2029}' || c == '\u{202f}' || c == '\u{205f}' || c == '\u{3000}'
}

/// What `char::is_alphanumeric` returns for a character beyond ASCII: whether
/// it has the Unicode property `Alphabetic` or a general category of numbers.
pub uninterp spec fn non_ascii_alphanumeric(c: char) -> bool;

/// What `char::is_numeric` returns for a character beyond ASCII: whether it
/// has one of the Unicode general categories `Nd`, `Nl` or `No`.
pub uninterp spec fn non_ascii_numeric(c: char) -> bool;

/// An ASCII decimal digit.
pub open spec fn is_ascii_digit(c: char) -> bool {
    '0' <= c && c <= '9'
}

/// An ASCII digit or Latin letter.
pub open spec fn is_ascii_alnum(c: char) -> bool {
    ||| is_ascii_digit(c)
    ||| ('a' <= c && c <= 'z')
    ||| ('A' <= c && c <= 'Z')
}

/// Whether `c` is alphanumeric: in ASCII the digits and the Latin letters.
pub open spec fn char_alphanumeric(c: char) -> bool {
    if c <= '\u{7f}' {
        is_ascii_alnum(c)
    } else {
        non_ascii_alphanumeric(c)
    }
}

/// Whether `c` is numeric: in ASCII the decimal digits.
pub open spec fn char_numeric(c: char) -> bool {
    if c <= '\u{7f}' {
        is_ascii_digit(c)
    } else {
        non_ascii_numeric(c)
    }
}

/// Calls `char::is_alphanumeric`. For ASCII the contract states the Unicode
/// tables' answer (the digits and the Latin letters); beyond ASCII the result
/// is named `non_ascii_alphanumeric`, since the tables take pages.
#[verifier::external_body]
pub fn is_alphanumeric(c: char) -> (r: bool)
    ensures
        c <= '\u{7f}' ==> r == is_ascii_alnum(c),
        '\u{7f}' < c ==> r == non_ascii_alphanumeric(c),
{
    c.is_alphanumeric()
}

/// Calls `char::is_numeric`. For ASCII the contract states the Unicode
/// tables' answer (the decimal digits); beyond ASCII the result is named
/// `non_ascii_numeric`, since the tables take pages.
#[verifier::external_body]
pub fn is_numeric(c: char) -> (r: bool)
    ensures
        c <= '\u{7f}' ==> r == is_ascii_digit(c),
        '\u{7f}' < c ==> r == non_ascii_numeric(c),
{
    c.is_numeric()
}

// ---------------------------------------------------------------------------
// Searching
// ---------------------------------------------------------------------------

/// `p` occurs in `s` starting at index `i`.
pub open spec fn matches_at(s: Seq<char>, p: Seq<char>, i: int) -> bool {
    0 <= i && i + p.len() <= s.len() && s.subrange(i, i + p.len()) == p
}

/// `p` occurs somewhere in `s`.
pub open spec fn has_sub(s: Seq<char>, p: Seq<char>) -> bool {
    exists|i: int| matches_at(s, p, i)
}

/// The first index at or after `i` where `p` occurs in `s`.
pub open spec fn find_from(s: Seq<char>, p: Seq<char>, i: int) -> Option<int>
    decreases s.len() + 1 - i,
{
    if i < 0 || i + p.len() > s.len() {
        None
    } else if matches_at(s, p, i) {
        Some(i)
    } else {
        find_from(s, p, i + 1)
    }
}

/// The first index where `p` occurs in `s` (what `str::find` returns).
pub open spec fn first_match(s: Seq<char>, p: Seq<char>) -> Option<int> {
    find_from(s, p, 0)
}

/// The last index at or before `i` where `p` occurs in `s`.
pub open spec fn find_back(s: Seq<char>, p: Seq<char>, i: int) -> Option<int>
    decreases i + 1,
{
    if i < 0 {
        None
    } else if matches_at(s, p, i) {
        Some(i)
    } else {
        find_back(s, p, i - 1)
    }
}

/// The last index where `p` occurs in `s` (what `str::rfind` returns).
pub open spec fn last_match(s: Seq<char>, p: Seq<char>) -> Option<int> {
    find_back(s, p, s.len() - p.len())
}

/// An optional index as an optional integer.
pub open spec fn opt_int(r: Option<usize>) -> Option<int> {
    match r {
        Some(i) => Some(i as int),
        None => None,
    }
}

/// A search from `i` finds the first occurrence at or after `i`.
pub proof fn lemma_find_from(s: Seq<char>, p: Seq<char>, i: int)
    requires
        0 <= i,
    ensures
        find_from(s, p, i) matches Some(k) ==> {
            &&& i <= k
            &&& matches_at(s, p, k)
            &&& forall|j: int| i <= j < k ==> !matches_at(s, p, j)
        },
        find_from(s, p, i) is None ==> forall|j: int| i <= j ==> !matches_at(s, p, j),
    decreases s.len() + 1 - i,
{
    if i + p.len() > s.len() {
    } else if matches_at(s, p, i) {
    } else {
        lemma_find_from(s, p, i + 1);
    }
}

/// `first_match` finds the first occurrence, and finds one exactly when `p` occurs.
pub proof fn lemma_first_match(s: Seq<char>, p: Seq<char>)
    ensures
        first_match(s, p) matches Some(k) ==> {
            &&& 0 <= k
            &&& k + p.len() <= s.len()
            &&& matches_at(s, p, k)
            &&& forall|j: int| 0 <= j < k ==> !matches_at(s, p, j)
        },
        first_match(s, p) is None <==> !has_sub(s, p),
{
    lemma_find_from(s, p, 0);
}

/// A backward search from `i` finds the last occurrence at or before `i`.
pub proof fn lemma_find_back(s: Seq<char>, p: Seq<char>, i: int)
    ensures
        find_back(s, p, i) matches Some(k) ==> {
            &&& k <= i
            &&& matches_at(s, p, k)
            &&& forall|j: int| k < j <= i ==> !matches_at(s, p, j)
        },
        find_back(s, p, i) is None ==> forall|j: int| j <= i ==> !matches_at(s, p, j),
    decreases i + 1,
{
    if i >= 0 && !matches_at(s, p, i) {
        lemma_find_back(s, p, i - 1);
    }
}

/// `last_match` finds the last occurrence, and finds one exactly when `p` occurs.
pub proof fn lemma_last_match(s: Seq<char>, p: Seq<char>)
    ensures
        last_match(s, p) matches Some(k) ==> {
            &&& 0 <= k
            &&& k + p.len() <= s.len()
            &&& matches_at(s, p, k)
            &&& forall|j: int| k < j ==> !matches_at(s, p, j)
        },
        last_match(s, p) is None <==> !has_sub(s, p),
{
    lemma_find_back(s, p, s.len() - p.len());
}

/// Whether `p` occurs in `s` at index `i`.
pub fn matches_at_exec(s: &Vec<char>, p: &Vec<char>, i: usize) -> (r: bool)
    requires
        i <= s.len(),
    ensures
        r == matches_at(s@, p@, i as int),
{
    if p.len() > s.len() - i {
        return false;
    }
    let mut j: usize = 0;
    while j < p.len()
        invariant
            0 <= j <= p.len(),
            i + p.len() <= s.len(),
            forall|k: int| 0 <= k < j ==> s@[i + k] == p@[k],
        decreases p.len() - j,
    {
        if s[i + j] != p[j] {
            assert(s@.subrange(i as int, i + p.len())[j as int] != p@[j as int]);
            return false;
        }
        j += 1;
    }
    assert(s@.subrange(i as int, i + p.len()) =~= p@);
    true
}

/// The first index where `p` occurs in `s`.
pub fn find(s: &Vec<char>, p: &Vec<char>) -> (r: Option<usize>)
    ensures
        opt_int(r) == first_match(s@, p@),
{
    if p.len() > s.len() {
        return None;
    }
    let last = s.len() - p.len();
    let mut i: usize = 0;
    loop
        invariant
            p.len() <= s.len(),
            last == s.len() - p.len(),
            i <= last,
            find_from(s@, p@, 0) == find_from(s@, p@, i as int),
        decreases last - i,
    {
        if matches_at_exec(s, p, i) {
            return Some(i);
        }
        if i == last {
            assert(find_from(s@, p@, i + 1) is None);
            return None;
        }
        i += 1;
    }
}

/// The last index where `p` occurs in `s`.
pub fn rfind(s: &Vec<char>, p: &Vec<char>) -> (r: Option<usize>)
    ensures
        opt_int(r) == last_match(s@, p@),
{
    if p.len() > s.len() {
        return None;
    }
    let mut i: usize = s.len() - p.len();
    loop
        invariant
            p.len() <= s.len(),
            i <= s.len() - p.len(),
            last_match(s@, p@) == find_back(s@, p@, i as int),
        decreases i,
    {
        if matches_at_exec(s, p, i) {
            return Some(i);
        }
        if i == 0 {
            assert(find_back(s@, p@, -1) is None);
            return None;
        }
        i -= 1;
    }
}

/// Whether `p` occurs in `s`.
pub fn contains(s: &Vec<char>, p: &Vec<char>) -> (r: bool)
    ensures
        r == has_sub(s@, p@),
{
    proof {
        lemma_first_match(s@, p@);
    }
    find(s, p).is_some()
}

/// Whether the character `c` occurs in `s`.
pub fn contains_char(s: &Vec<char>, c: char) -> (r: bool)
    ensures
        r == s@.contains(c),
{
    let mut i: usize = 0;
    while i < s.len()
        invariant
            i <= s.len(),
            forall|k: int| 0 <= k < i ==> s@[k] != c,
        decreases s.len() - i,
    {
        if s[i] == c {
            return true;
        }
        i += 1;
    }
    false
}

/// Whether `s` starts with `p`.
pub fn starts_with(s: &Vec<char>, p: &Vec<char>) -> (r: bool)
    ensures
        r == p@.is_prefix_of(s@),
{
    let r = matches_at_exec(s, p, 0);
    proof {
        if r {
            assert(s@.subrange(0, p@.len() as int) =~= s@.take(p@.len() as int));
        } else if p@.len() <= s@.len() {
            assert(s@.subrange(0, p@.len() as int) =~= s@.take(p@.len() as int));
        }
    }
    r
}

pub open spec fn ends_with_char(s: Seq<char>, c: char) -> bool {
    s.len() > 0 && s.last() == c
}

/// Whether two character sequences are equal.
pub fn same(a: &Vec<char>, b: &Vec<char>) -> (r: bool)
    ensures
        r == (a@ == b@),
{
    if a.len() != b.len() {
        return false;
    }
    let r = matches_at_exec(a, b, 0);
    proof {
        if r {
            assert(a@.subrange(0, b@.len() as int) =~= a@);
        } else {
            assert(a@.subrange(0, b@.len() as int) =~= a@);
        }
    }
    r
}

// ---------------------------------------------------------------------------
// Building
// ---------------------------------------------------------------------------

/// The characters of a string slice, in order.
pub fn chars_of(s: &str) -> (r: Vec<char>)
    ensures
        r@ == s@,
{
    broadcast use vstd::string::group_string_axioms;

    let mut r: Vec<char> = Vec::new();
    for c in it: s.chars()
        invariant
            it.seq() == s@,
            r@ == it.history(),
    {
        r.push(c);
    }
    r
}

/// The characters of `s` from index `i` up to, not including, index `j`.
pub fn slice(s: &Vec<char>, i: usize, j: usize) -> (r: Vec<char>)
    requires
        i <= j <= s.len(),
    ensures
        r@ == s@.subrange(i as int, j as int),
{
    let mut r: Vec<char> = Vec::new();
    assert(r@ =~= s@.subrange(i as int, i as int));
    let mut k = i;
    while k < j
        invariant
            i <= k <= j <= s.len(),
            r@ == s@.subrange(i as int, k as int),
        decreases j - k,
    {
        r.push(s[k]);
        k += 1;
        assert(r@ =~= s@.subrange(i as int, k as int));
    }
    r
}

/// Appends the characters of `x` to `out`.
pub fn push_all(out: &mut Vec<char>, x: &Vec<char>)
    ensures
        final(out)@ == old(out)@ + x@,
{
    let ghost start = out@;
    let mut k: usize = 0;
    while k < x.len()
        invariant
            k <= x.len(),
            out@ == start + x@.take(k as int),
        decreases x.len() - k,
    {
        out.push(x[k]);
        k += 1;
        assert(out@ =~= start + x@.take(k as int));
    }
    assert(x@.take(x.len() as int) =~= x@);
}



// ---------------------------------------------------------------------------
// Trimming
// ---------------------------------------------------------------------------

/// The number of leading characters of `s` that satisfy `f`.
pub open spec fn run_len(s: Seq<char>, f: spec_fn(char) -> bool) -> nat
    decreases s.len(),
{
    if s.len() > 0 && f(s[0]) {
        1 + run_len(s.drop_first(), f)
    } else {
        0
    }
}

/// The number of trailing characters of `s` that satisfy `f`.
pub open spec fn back_run_len(s: Seq<char>, f: spec_fn(char) -> bool) -> nat
    decreases s.len(),
{
    if s.len() > 0 && f(s.last()) {
        1 + back_run_len(s.drop_last(), f)
    } else {
        0
    }
}

/// `s` without its leading and trailing characters that satisfy `f`
/// (what `str::trim_matches` returns for a character predicate).
pub open spec fn trim_by(s: Seq<char>, f: spec_fn(char) -> bool) -> Seq<char> {
    let t = s.skip(run_len(s, f) as int);
    t.take(t.len() - back_run_len(t, f))
}

/// Whitespace, as a predicate.
pub open spec fn ws_pred() -> spec_fn(char) -> bool {
    |c: char| is_ws(c)
}

/// Anything but whitespace, as a predicate.
pub open spec fn not_ws_pred() -> spec_fn(char) -> bool {
    |c: char| !is_ws(c)
}

/// A character that is neither alphanumeric nor `-`.
pub open spec fn is_symbol(c: char) -> bool {
    !char_alphanumeric(c) && c != '-'
}

/// Symbols, as a predicate.
pub open spec fn symbol_pred() -> spec_fn(char) -> bool {
    |c: char| is_symbol(c)
}

/// `s` without leading and trailing whitespace (what `str::trim` returns).
pub open spec fn trim(s: Seq<char>) -> Seq<char> {
    trim_by(s, ws_pred())
}

/// The leading run satisfies `f` and stops at a character that does not.
pub proof fn lemma_run_len(s: Seq<char>, f: spec_fn(char) -> bool)
    ensures
        run_len(s, f) <= s.len(),
        forall|j: int| 0 <= j < run_len(s, f) ==> f(#[trigger] s[j]),
        run_len(s, f) < s.len() ==> !f(s[run_len(s, f) as int]),
    decreases s.len(),
{
    if s.len() > 0 && f(s[0]) {
        lemma_run_len(s.drop_first(), f);
        assert forall|j: int| 0 <= j < run_len(s, f) implies f(#[trigger] s[j]) by {
            if j > 0 {
                assert(s[j] == s.drop_first()[j - 1]);
            }
        }
    }
}

/// A leading run that stops at `i` has length `i`.
pub proof fn lemma_run_len_at(s: Seq<char>, f: spec_fn(char) -> bool, i: int)
    requires
        0 <= i <= s.len(),
        forall|j: int| 0 <= j < i ==> f(#[trigger] s[j]),
        i == s.len() || !f(s[i]),
    ensures
        run_len(s, f) == i,
    decreases i,
{
    if i > 0 {
        assert forall|j: int| 0 <= j < i - 1 implies f(#[trigger] s.drop_first()[j]) by {
            assert(s.drop_first()[j] == s[j + 1]);
        }
        if i < s.len() {
            assert(s.drop_first()[i - 1] == s[i]);
        }
        lemma_run_len_at(s.drop_first(), f, i - 1);
    }
}

/// A trailing run that starts at `m` has length `s.len() - m`.
pub proof fn lemma_back_run_len_at(s: Seq<char>, f: spec_fn(char) -> bool, m: int)
    requires
        0 <= m <= s.len(),
        forall|j: int| m <= j < s.len() ==> f(#[trigger] s[j]),
        m == 0 || !f(s[m - 1]),
    ensures
        back_run_len(s, f) == s.len() - m,
    decreases s.len(),
{
    if m < s.len() {
        let d = s.drop_last();
        assert forall|j: int| m <= j < d.len() implies f(#[trigger] d[j]) by {
            assert(d[j] == s[j]);
        }
        if m > 0 {
            assert(d[m - 1] == s[m - 1]);
        }
        lemma_back_run_len_at(d, f, m);
    }
}

/// Which characters `trim_with` removes.
pub enum Strip {
    Space,
    Symbol,
}

/// The characters of kind `k`, as a predicate.
pub open spec fn strip_pred(k: Strip) -> spec_fn(char) -> bool {
    match k {
        Strip::Space => ws_pred(),
        Strip::Symbol => symbol_pred(),
    }
}

/// Whether `c` is of kind `k`.
fn strip_test(k: &Strip, c: char) -> (r: bool)
    ensures
        r == strip_pred(*k)(c),
{
    match k {
        Strip::Space => is_whitespace(c),
        Strip::Symbol => !is_alphanumeric(c) && c != '-',
    }
}

/// `s` without the leading and trailing characters of kind `k`.
pub fn trim_with(s: &Vec<char>, k: Strip) -> (r: Vec<char>)
    ensures
        r@ == trim_by(s@, strip_pred(k)),
{
    let ghost f = strip_pred(k);
    let mut i: usize = 0;
    while i < s.len() && strip_test(&k, s[i])
        invariant
            i <= s.len(),
            f == strip_pred(k),
            forall|j: int| 0 <= j < i ==> f(#[trigger] s@[j]),
        decreases s.len() - i,
    {
        i += 1;
    }
    proof {
        lemma_run_len_at(s@, f, i as int);
    }
    let mut j: usize = s.len();
    while j > i && strip_test(&k, s[j - 1])
        invariant
            i <= j <= s.len(),
            f == strip_pred(k),
            forall|m: int| j <= m < s.len() ==> f(#[trigger] s@[m]),
        decreases j,
    {
        j -= 1;
    }
    proof {
        let t = s@.skip(i as int);
        assert forall|m: int| j - i <= m < t.len() implies f(#[trigger] t[m]) by {
            assert(t[m] == s@[m + i]);
        }
        if j > i {
            assert(t[j - i - 1] == s@[j - 1]);
        }
        lemma_back_run_len_at(t, f, j - i);
        assert(t.take(t.len() - back_run_len(t, f)) =~= s@.subrange(i as int, j as int));
    }
    slice(s, i, j)
}

/// `s` without leading and trailing whitespace.
pub fn trim_ws(s: &Vec<char>) -> (r: Vec<char>)
    ensures
        r@ == trim(s@),
{
    trim_with(s, Strip::Space)
}

// ---------------------------------------------------------------------------
// Sequences of texts
// ---------------------------------------------------------------------------

/// The texts held by a sequence of character vectors.
pub open spec fn texts(v: Seq<Vec<char>>) -> Seq<Seq<char>> {
    v.map_values(|x: Vec<char>| x@)
}

/// Pushing a text onto a vector pushes its view.
pub proof fn lemma_texts_push(v: Seq<Vec<char>>, x: Vec<char>)
    ensures
        texts(v.push(x)) == texts(v).push(x@),
{
    assert(texts(v.push(x)) =~= texts(v).push(x@));
}

/// The whitespace-separated words of `s` (what `str::split_whitespace` yields).
pub open spec fn words(s: Seq<char>) -> Seq<Seq<char>>
    decreases s.len(),
{
    let t = s.skip(run_len(s, ws_pred()) as int);
    if t.len() == 0 {
        seq![]
    } else {
        let k = run_len(t, not_ws_pred());
        proof {
            lemma_run_len(s, ws_pred());
            lemma_run_len(t, not_ws_pred());
        }
        seq![t.take(k as int)] + words(t.skip(k as int))
    }
}

/// The words of `s`, split at runs of whitespace.
pub fn split_words(s: &Vec<char>) -> (r: Vec<Vec<char>>)
    ensures
        texts(r@) == words(s@),
{
    let mut out: Vec<Vec<char>> = Vec::new();
    let mut pos: usize = 0;
    assert(s@.skip(0) =~= s@);
    assert(texts(out@) =~= Seq::<Seq<char>>::empty());
    loop
        invariant
            pos <= s.len(),
            words(s@) == texts(out@) + words(s@.skip(pos as int)),
        decreases s.len() - pos,
    {
        let ghost u = s@.skip(pos as int);
        let mut a: usize = pos;
        while a < s.len() && is_whitespace(s[a])
            invariant
                pos <= a <= s.len(),
                forall|j: int| pos <= j < a ==> is_ws(#[trigger] s@[j]),
            decreases s.len() - a,
        {
            a += 1;
        }
        proof {
            assert forall|j: int| 0 <= j < a - pos implies ws_pred()(#[trigger] u[j]) by {
                assert(u[j] == s@[j + pos]);
            }
            if a < s.len() {
                assert(u[a - pos] == s@[a as int]);
            }
            lemma_run_len_at(u, ws_pred(), a - pos);
        }
        if a == s.len() {
            assert(u.skip(a - pos).len() == 0);
            assert(words(u) =~= Seq::<Seq<char>>::empty());
            assert(words(s@) =~= texts(out@));
            return out;
        }
        let mut b: usize = a;
        while b < s.len() && !is_whitespace(s[b])
            invariant
                a <= b <= s.len(),
                forall|j: int| a <= j < b ==> !is_ws(#[trigger] s@[j]),
            decreases s.len() - b,
        {
            b += 1;
        }
        proof {
            let t = u.skip(a - pos);
            assert(t =~= s@.skip(a as int));
            assert forall|j: int| 0 <= j < b - a implies not_ws_pred()(#[trigger] t[j]) by {
                assert(t[j] == s@[j + a]);
            }
            if b < s.len() {
                assert(t[b - a] == s@[b as int]);
            }
            lemma_run_len_at(t, not_ws_pred(), b - a);
            assert(t.take(b - a) =~= s@.subrange(a as int, b as int));
            assert(t.skip(b - a) =~= s@.skip(b as int));
        }
        let w = slice(s, a, b);
        proof {
            lemma_texts_push(out@, w);
        }
        out.push(w);
        pos = b;
    }
}

/// The texts of `ws` with `sep` between each two neighbours
/// (what `[&str]::join` returns).
pub open spec fn join(ws: Seq<Seq<char>>, sep: Seq<char>) -> Seq<char>
    decreases ws.len(),
{
    if ws.len() == 0 {
        seq![]
    } else if ws.len() == 1 {
        ws[0]
    } else {
        join(ws.drop_last(), sep) + sep + ws.last()
    }
}

/// The texts of `ws` joined by `sep`.
pub fn join_with(ws: &Vec<Vec<char>>, sep: &Vec<char>) -> (r: Vec<char>)
    ensures
        r@ == join(texts(ws@), sep@),
{
    let mut out: Vec<char> = Vec::new();
    let mut i: usize = 0;
    assert(texts(ws@).take(0) =~= Seq::<Seq<char>>::empty());
    while i < ws.len()
        invariant
            i <= ws.len(),
            out@ == join(texts(ws@).take(i as int), sep@),
        decreases ws.len() - i,
    {
        proof {
            assert(texts(ws@).take(i + 1).drop_last() =~= texts(ws@).take(i as int));
            if i == 0 {
                assert(texts(ws@).take(1) =~= seq![ws@[0]@]);
            }
        }
        if i > 0 {
            push_all(&mut out, sep);
        }
        push_all(&mut out, &ws[i]);
        i += 1;
    }
    assert(texts(ws@).take(ws.len() as int) =~= texts(ws@));
    out
}

/// The pieces of `s` between the occurrences of `p`, found from the left
/// without overlap (what `str::split` yields for a non-empty pattern).
pub open spec fn split_on(s: Seq<char>, p: Seq<char>) -> Seq<Seq<char>>
    recommends
        p.len() > 0,
    decreases s.len(),
{
    match first_match(s, p) {
        Some(i) => if p.len() > 0 {
            proof {
                lemma_first_match(s, p);
            }
            seq![s.take(i)] + split_on(s.skip(i + p.len()), p)
        } else {
            seq![s]
        },
        None => seq![s],
    }
}

/// The pieces of `s` between the occurrences of the non-empty pattern `p`.
pub fn split(s: &Vec<char>, p: &Vec<char>) -> (r: Vec<Vec<char>>)
    requires
        p.len() > 0,
    ensures
        texts(r@) == split_on(s@, p@),
{
    let mut out: Vec<Vec<char>> = Vec::new();
    let mut rest = slice(s, 0, s.len());
    assert(s@.subrange(0, s@.len() as int) =~= s@);
    assert(texts(out@) =~= Seq::<Seq<char>>::empty());
    loop
        invariant
            p.len() > 0,
            split_on(s@, p@) == texts(out@) + split_on(rest@, p@),
        decreases rest.len(),
    {
        proof {
            lemma_first_match(rest@, p@);
        }
        match find(&rest, p) {
            Some(i) => {
                let piece = slice(&rest, 0, i);
                assert(piece@ =~= rest@.take(i as int));
                let next = slice(&rest, i + p.len(), rest.len());
                assert(next@ =~= rest@.skip(i + p.len()));
                proof {
                    lemma_texts_push(out@, piece);
                }
                out.push(piece);
                rest = next;
            },
            None => {
                proof {
                    lemma_texts_push(out@, rest);
                }
                out.push(rest);
                return out;
            },
        }
    }
}

/// `s` with every occurrence of `p`, found from the left without overlap,
/// replaced by `r` (what `str::replace` returns for a non-empty pattern).
pub open spec fn replace_all(s: Seq<char>, p: Seq<char>, r: Seq<char>) -> Seq<char>
    recommends
        p.len() > 0,
    decreases s.len(),
{
    match first_match(s, p) {
        Some(i) => if p.len() > 0 {
            proof {
                lemma_first_match(s, p);
            }
            s.take(i) + r + replace_all(s.skip(i + p.len()), p, r)
        } else {
            s
        },
        None => s,
    }
}

/// `s` with its first occurrence of `p` replaced by `r`
/// (what `str::replacen` returns with a count of one).
pub open spec fn replace_first(s: Seq<char>, p: Seq<char>, r: Seq<char>) -> Seq<char> {
    match first_match(s, p) {
        Some(i) => s.take(i) + r + s.skip(i + p.len()),
        None => s,
    }
}

/// `s` with every occurrence of the non-empty pattern `p` replaced by `r`.
pub fn replace(s: &Vec<char>, p: &Vec<char>, r: &Vec<char>) -> (out: Vec<char>)
    requires
        p.len() > 0,
    ensures
        out@ == replace_all(s@, p@, r@),
{
    let mut out: Vec<char> = Vec::new();
    let mut rest = slice(s, 0, s.len());
    assert(s@.subrange(0, s@.len() as int) =~= s@);
    loop
        invariant
            p.len() > 0,
            replace_all(s@, p@, r@) == out@ + replace_all(rest@, p@, r@),
        decreases rest.len(),
    {
        proof {
            lemma_first_match(rest@, p@);
        }
        match find(&rest, p) {
            Some(i) => {
                let piece = slice(&rest, 0, i);
                assert(piece@ =~= rest@.take(i as int));
                let next = slice(&rest, i + p.len(), rest.len());
                assert(next@ =~= rest@.skip(i + p.len()));
                push_all(&mut out, &piece);
                push_all(&mut out, r);
                rest = next;
            },
            None => {
                push_all(&mut out, &rest);
                return out;
            },
        }
    }
}

/// `s` with its first occurrence of `p` replaced by `r`.
pub fn replacen_one(s: &Vec<char>, p: &Vec<char>, r: &Vec<char>) -> (out: Vec<char>)
    ensures
        out@ == replace_first(s@, p@, r@),
{
    proof {
        lemma_first_match(s@, p@);
    }
    match find(s, p) {
        Some(i) => {
            assert(first_match(s@, p@) == Some(i as int));
            assert(i + p.len() <= s.len());
            let mut out = slice(s, 0, i);
            push_all(&mut out, r);
            let tail = slice(s, i + p.len(), s.len());
            push_all(&mut out, &tail);
            assert(out@ =~= s@.take(i as int) + r@ + s@.skip(i + p.len()));
            out
        },
        None => slice(s, 0, s.len()),
    }
}

/// The concatenation of `f` applied to each element of `xs`, in order.
pub open spec fn concat_map(xs: Seq<Seq<char>>, f: spec_fn(Seq<char>) -> Seq<char>) -> Seq<char>
    decreases xs.len(),
{
    if xs.len() == 0 {
        seq![]
    } else {
        concat_map(xs.drop_last(), f) + f(xs.last())
    }
}

/// Taking one more element appends its image.
pub proof fn lemma_concat_map_step(xs: Seq<Seq<char>>, f: spec_fn(Seq<char>) -> Seq<char>, i: int)
    requires
        0 <= i < xs.len(),
    ensures
        concat_map(xs.take(i + 1), f) == concat_map(xs.take(i), f) + f(xs[i]),
{
    assert(xs.take(i + 1).drop_last() =~= xs.take(i));
}

/// Nothing is concatenated from no elements, and taking all elements is the whole.
pub proof fn lemma_concat_map_empty(xs: Seq<Seq<char>>, f: spec_fn(Seq<char>) -> Seq<char>)
    ensures
        concat_map(xs.take(0), f) == Seq::<char>::empty(),
        xs.take(xs.len() as int) == xs,
{
    assert(xs.take(xs.len() as int) =~= xs);
}


// ---------------------------------------------------------------------------
// Strings
// ---------------------------------------------------------------------------

/// Calls `String::push`, which appends the character `c` to the end of `s`.
#[verifier::external_body]
fn push_char(s: &mut String, c: char)
    ensures
        final(s)@ == old(s)@.push(c),
{
    s.push(c)
}

/// A `String` holding the characters of `v`.
pub fn to_string(v: &Vec<char>) -> (r: String)
    ensures
        r@ == v@,
{
    let mut r = String::new();
    let mut k: usize = 0;
    while k < v.len()
        invariant
            k <= v.len(),
            r@ == v@.take(k as int),
        decreases v.len() - k,
    {
        push_char(&mut r, v[k]);
        k += 1;
        assert(r@ =~= v@.take(k as int));
    }
    assert(v@.take(v.len() as int) =~= v@);
    r
}


/// The one-character sequence `c`.
pub fn single(c: char) -> (r: Vec<char>)
    ensures
        r@ == seq![c],
{
    let r = vec![c];
    assert(r@ =~= seq![c]);
    r
}

/// Splitting gives at least one piece, and two where the pattern occurs.
pub proof fn lemma_split_on_len(s: Seq<char>, p: Seq<char>)
    requires
        p.len() > 0,
    ensures
        split_on(s, p).len() >= 1,
        has_sub(s, p) ==> split_on(s, p).len() >= 2,
    decreases s.len(),
{
    lemma_first_match(s, p);
    if let Some(i) = first_match(s, p) {
        lemma_split_on_len(s.skip(i + p.len()), p);
    }
}

/// Whether `s` ends with `p`.
pub fn ends_with(s: &Vec<char>, p: &Vec<char>) -> (r: bool)
    ensures
        r == p@.is_suffix_of(s@),
{
    if p.len() > s.len() {
        return false;
    }
    let r = matches_at_exec(s, p, s.len() - p.len());
    proof {
        if r {
            assert(p@ =~= s@.subrange(s@.len() - p@.len(), s@.len() as int));
        } else {
            assert(s@.subrange(s@.len() - p@.len(), s@.len() - p@.len() + p@.len()) =~= s@.subrange(
                s@.len() - p@.len(),
                s@.len() as int,
            ));
        }
    }
    r
}


// ---------------------------------------------------------------------------
// Laws of the sequence operations
// ---------------------------------------------------------------------------

/// No character of `x` is whitespace.
pub open spec fn no_ws(x: Seq<char>) -> bool {
    forall|j: int| 0 <= j < x.len() ==> !is_ws(#[trigger] x[j])
}

/// The trailing run satisfies `f` and starts after a character that does not.
pub proof fn lemma_back_run_len(s: Seq<char>, f: spec_fn(char) -> bool)
    ensures
        back_run_len(s, f) <= s.len(),
        forall|j: int| s.len() - back_run_len(s, f) <= j < s.len() ==> f(#[trigger] s[j]),
        back_run_len(s, f) < s.len() ==> !f(s[s.len() - back_run_len(s, f) - 1]),
    decreases s.len(),
{
    if s.len() > 0 && f(s.last()) {
        let d = s.drop_last();
        lemma_back_run_len(d, f);
        assert forall|j: int| s.len() - back_run_len(s, f) <= j < s.len() implies f(
            #[trigger] s[j],
        ) by {
            if j < s.len() - 1 {
                assert(s[j] == d[j]);
            }
        }
        if back_run_len(s, f) < s.len() {
            assert(s[s.len() - back_run_len(s, f) - 1] == d[d.len() - back_run_len(d, f) - 1]);
        }
    }
}

/// The first occurrence of `p` in `s` is at `k` when `p` occurs there and
/// nowhere before.
pub proof fn lemma_first_match_at(s: Seq<char>, p: Seq<char>, k: int)
    requires
        matches_at(s, p, k),
        forall|j: int| 0 <= j < k ==> !matches_at(s, p, j),
    ensures
        first_match(s, p) == Some(k),
{
    lemma_first_match(s, p);
    if let Some(m) = first_match(s, p) {
        if m < k {
            assert(!matches_at(s, p, m));
        } else if m > k {
            assert(!matches_at(s, p, k));
        }
    }
}

/// Joining a list of at least two texts puts the first one, then the
/// separator, then the rest joined.
pub proof fn lemma_join_front(ws: Seq<Seq<char>>, sep: Seq<char>)
    requires
        ws.len() >= 2,
    ensures
        join(ws, sep) == ws[0] + sep + join(ws.drop_first(), sep),
    decreases ws.len(),
{
    if ws.len() == 2 {
        assert(ws.drop_last().len() == 1);
        assert(ws.drop_first().len() == 1);
        assert(ws.drop_first()[0] == ws.last());
        assert(join(ws.drop_last(), sep) == ws.drop_last()[0]);
        assert(join(ws.drop_first(), sep) == ws.drop_first()[0]);
        assert(join(ws, sep) == join(ws.drop_last(), sep) + sep + ws.last());
    } else {
        lemma_join_front(ws.drop_last(), sep);
        assert(ws.drop_last().drop_first() =~= ws.drop_first().drop_last());
        assert(ws.drop_first().last() == ws.last());
        assert(ws.drop_last()[0] == ws[0]);
        let a = ws[0];
        let m = join(ws.drop_first().drop_last(), sep);
        assert(join(ws.drop_first(), sep) == m + sep + ws.drop_first().last());
        assert(join(ws, sep) == join(ws.drop_last(), sep) + sep + ws.last());
        assert(a + sep + m + sep + ws.last() =~= a + sep + (m + sep + ws.last()));
    }
}

/// Leading whitespace does not change the words.
proof fn lemma_words_ws_front(c: char, y: Seq<char>)
    requires
        is_ws(c),
    ensures
        words(seq![c] + y) == words(y),
{
    let s = seq![c] + y;
    assert(s.drop_first() =~= y);
    assert(s[0] == c);
    assert(run_len(s, ws_pred()) == 1 + run_len(y, ws_pred()));
    lemma_run_len(y, ws_pred());
    assert(s.skip(run_len(s, ws_pred()) as int) =~= y.skip(run_len(y, ws_pred()) as int));
}

/// A word followed by whitespace or nothing is the first word.
proof fn lemma_words_word_front(x: Seq<char>, rest: Seq<char>)
    requires
        x.len() > 0,
        no_ws(x),
        rest.len() == 0 || is_ws(rest[0]),
    ensures
        words(x + rest) == seq![x] + words(rest),
{
    let s = x + rest;
    assert(s[0] == x[0]);
    lemma_run_len_at(s, ws_pred(), 0);
    assert(s.skip(0) =~= s);
    assert forall|j: int| 0 <= j < x.len() implies not_ws_pred()(#[trigger] s[j]) by {
        assert(s[j] == x[j]);
    }
    if rest.len() > 0 {
        assert(s[x.len() as int] == rest[0]);
    }
    lemma_run_len_at(s, not_ws_pred(), x.len() as int);
    assert(s.take(x.len() as int) =~= x);
    assert(s.skip(x.len() as int) =~= rest);
}

/// Every word is non-empty and holds no whitespace.
pub proof fn lemma_words_shape(s: Seq<char>)
    ensures
        forall|i: int|
            0 <= i < words(s).len() ==> (#[trigger] words(s)[i]).len() > 0 && no_ws(words(s)[i]),
    decreases s.len(),
{
    let t = s.skip(run_len(s, ws_pred()) as int);
    lemma_run_len(s, ws_pred());
    if t.len() > 0 {
        lemma_run_len(t, not_ws_pred());
        let k = run_len(t, not_ws_pred());
        lemma_words_shape(t.skip(k as int));
        let w = t.take(k as int);
        assert forall|j: int| 0 <= j < w.len() implies !is_ws(#[trigger] w[j]) by {
            assert(w[j] == t[j]);
            assert(not_ws_pred()(t[j]));
        }
        assert forall|i: int| 0 <= i < words(s).len() implies (#[trigger] words(s)[i]).len() > 0
            && no_ws(words(s)[i]) by {
            if i > 0 {
                assert(words(s)[i] == words(t.skip(k as int))[i - 1]);
            }
        }
    }
}

/// The words of texts joined by single spaces are those texts, when each is
/// a non-empty text without whitespace.
pub proof fn lemma_words_join(ws: Seq<Seq<char>>)
    requires
        forall|i: int| 0 <= i < ws.len() ==> (#[trigger] ws[i]).len() > 0 && no_ws(ws[i]),
    ensures
        words(join(ws, seq![' '])) == ws,
    decreases ws.len(),
{
    let sep = seq![' '];
    if ws.len() == 0 {
        assert(words(Seq::<char>::empty()) =~= Seq::<Seq<char>>::empty());
    } else if ws.len() == 1 {
        lemma_words_word_front(ws[0], Seq::empty());
        assert(ws[0] + Seq::<char>::empty() =~= ws[0]);
        assert(words(Seq::<char>::empty()) =~= Seq::<Seq<char>>::empty());
        assert(seq![ws[0]] + Seq::<Seq<char>>::empty() =~= ws);
    } else {
        lemma_join_front(ws, sep);
        let tail = ws.drop_first();
        assert forall|i: int| 0 <= i < tail.len() implies (#[trigger] tail[i]).len() > 0 && no_ws(
            tail[i],
        ) by {
            assert(tail[i] == ws[i + 1]);
        }
        lemma_words_join(tail);
        let rest = sep + join(tail, sep);
        assert(join(ws, sep) =~= ws[0] + rest);
        assert(rest[0] == ' ');
        lemma_words_word_front(ws[0], rest);
        lemma_words_ws_front(' ', join(tail, sep));
        assert(seq![ws[0]] + tail =~= ws);
    }
}

/// Splitting at a non-empty pattern and joining the pieces with it gives the
/// text back.
pub proof fn law_split_join(s: Seq<char>, p: Seq<char>)
    requires
        p.len() > 0,
    ensures
        join(split_on(s, p), p) == s,
    decreases s.len(),
{
    lemma_first_match(s, p);
    if let Some(i) = first_match(s, p) {
        let rest = s.skip(i + p.len());
        law_split_join(rest, p);
        lemma_split_on_len(rest, p);
        let sp = split_on(s, p);
        assert(sp == seq![s.take(i)] + split_on(rest, p));
        lemma_join_front(sp, p);
        assert(sp.drop_first() =~= split_on(rest, p));
        assert(s.subrange(i, i + p.len()) == p);
        assert(s =~= s.take(i) + p + rest);
    }
}


/// A pattern that occurs in a trimmed text occurs in the text.
pub proof fn lemma_trim_by_sub(s: Seq<char>, f: spec_fn(char) -> bool, p: Seq<char>)
    ensures
        has_sub(trim_by(s, f), p) ==> has_sub(s, p),
{
    if has_sub(trim_by(s, f), p) {
        let a = run_len(s, f) as int;
        let t = s.skip(a);
        let u = trim_by(s, f);
        lemma_run_len(s, f);
        lemma_back_run_len(t, f);
        let i = choose|i: int| matches_at(u, p, i);
        assert(s.subrange(i + a, i + a + p.len()) =~= u.subrange(i, i + p.len()));
        assert(matches_at(s, p, i + a));
    }
}


/// A one-character pattern occurs at `j` exactly when that character stands there.
pub proof fn lemma_match_char(s: Seq<char>, c: char, j: int)
    ensures
        matches_at(s, seq![c], j) == (0 <= j < s.len() && s[j] == c),
{
    if 0 <= j < s.len() {
        assert(s.subrange(j, j + 1)[0] == s[j]);
        if s[j] == c {
            assert(s.subrange(j, j + 1) =~= seq![c]);
        }
    }
}

/// A pattern that occurs in a part of a text occurs in the text.
pub proof fn lemma_sub_of_subrange(s: Seq<char>, lo: int, hi: int, r: Seq<char>)
    requires
        0 <= lo <= hi <= s.len(),
    ensures
        has_sub(s.subrange(lo, hi), r) ==> has_sub(s, r),
{
    if has_sub(s.subrange(lo, hi), r) {
        let u = s.subrange(lo, hi);
        let i = choose|i: int| matches_at(u, r, i);
        assert(s.subrange(lo + i, lo + i + r.len()) =~= u.subrange(i, i + r.len()));
        assert(matches_at(s, r, lo + i));
    }
}

/// A pattern that occurs in a piece of a split occurs in the text.
pub proof fn lemma_split_pieces_sub(s: Seq<char>, p: Seq<char>, r: Seq<char>)
    requires
        p.len() > 0,
    ensures
        forall|k: int|
            0 <= k < split_on(s, p).len() && has_sub(#[trigger] split_on(s, p)[k], r) ==> has_sub(
                s,
                r,
            ),
    decreases s.len(),
{
    lemma_first_match(s, p);
    if let Some(i) = first_match(s, p) {
        let rest = s.skip(i + p.len());
        lemma_split_pieces_sub(rest, p, r);
        lemma_sub_of_subrange(s, 0, i, r);
        lemma_sub_of_subrange(s, i + p.len(), s.len() as int, r);
        assert(s.take(i) =~= s.subrange(0, i));
        assert(rest =~= s.subrange(i + p.len(), s.len() as int));
        let sp = split_on(s, p);
        assert forall|k: int| 0 <= k < sp.len() && has_sub(#[trigger] sp[k], r) implies has_sub(
            s,
            r,
        ) by {
            if k > 0 {
                assert(sp[k] == split_on(rest, p)[k - 1]);
            }
        }
    }
}

/// Characters that all satisfy `f` lengthen the leading run by their number.
pub proof fn lemma_run_len_prefix(w: Seq<char>, y: Seq<char>, f: spec_fn(char) -> bool)
    requires
        forall|j: int| 0 <= j < w.len() ==> f(#[trigger] w[j]),
    ensures
        run_len(w + y, f) == w.len() + run_len(y, f),
    decreases w.len(),
{
    if w.len() > 0 {
        assert((w + y)[0] == w[0]);
        assert((w + y).drop_first() =~= w.drop_first() + y);
        assert forall|j: int| 0 <= j < w.drop_first().len() implies f(
            #[trigger] w.drop_first()[j],
        ) by {
            assert(w.drop_first()[j] == w[j + 1]);
        }
        lemma_run_len_prefix(w.drop_first(), y, f);
    }
}

/// Trimming ignores a prefix of characters that would be trimmed.
pub proof fn lemma_trim_by_prefix(w: Seq<char>, y: Seq<char>, f: spec_fn(char) -> bool)
    requires
        forall|j: int| 0 <= j < w.len() ==> f(#[trigger] w[j]),
    ensures
        trim_by(w + y, f) == trim_by(y, f),
{
    lemma_run_len_prefix(w, y, f);
    lemma_run_len(y, f);
    assert((w + y).skip((w.len() + run_len(y, f)) as int) =~= y.skip(run_len(y, f) as int));
}

/// Splitting a text with the separator appended gives one more, empty, piece.
pub proof fn lemma_split_push(x: Seq<char>, c: char)
    ensures
        split_on(x.push(c), seq![c]) == split_on(x, seq![c]).push(Seq::<char>::empty()),
    decreases x.len(),
{
    let p = seq![c];
    let xc = x.push(c);
    lemma_first_match(x, p);
    lemma_first_match(xc, p);
    if let Some(i) = first_match(x, p) {
        assert forall|j: int| 0 <= j < i implies !matches_at(xc, p, j) by {
            lemma_match_char(xc, c, j);
            lemma_match_char(x, c, j);
        }
        lemma_match_char(xc, c, i);
        lemma_match_char(x, c, i);
        lemma_first_match_at(xc, p, i);
        let rest = x.skip(i + 1);
        lemma_split_push(rest, c);
        assert(xc.take(i) =~= x.take(i));
        assert(xc.skip(i + 1) =~= rest.push(c));
        assert(seq![x.take(i)] + split_on(rest, p).push(Seq::<char>::empty()) =~= (seq![x.take(i)]
            + split_on(rest, p)).push(Seq::<char>::empty()));
    } else {
        assert forall|j: int| 0 <= j < x.len() implies !matches_at(xc, p, j) by {
            lemma_match_char(xc, c, j);
            lemma_match_char(x, c, j);
        }
        lemma_match_char(xc, c, x.len() as int);
        lemma_first_match_at(xc, p, x.len() as int);
        assert(xc.take(x.len() as int) =~= x);
        assert(xc.skip((x.len() + 1) as int) =~= Seq::<char>::empty());
        assert(first_match(Seq::<char>::empty(), p) is None);
        assert(split_on(Seq::<char>::empty(), p) == seq![Seq::<char>::empty()]);
        assert(seq![x] + seq![Seq::<char>::empty()] =~= seq![x].push(Seq::<char>::empty()));
    }
}

/// A prefix without the separator joins the first piece of a split.
pub proof fn lemma_split_prefix(w: Seq<char>, y: Seq<char>, c: char)
    requires
        forall|j: int| 0 <= j < w.len() ==> #[trigger] w[j] != c,
    ensures
        split_on(y, seq![c]).len() >= 1,
        split_on(w + y, seq![c]) == split_on(y, seq![c]).update(
            0,
            w + split_on(y, seq![c])[0],
        ),
{
    let p = seq![c];
    let s = w + y;
    lemma_split_on_len(y, p);
    lemma_first_match(y, p);
    lemma_first_match(s, p);
    if let Some(i) = first_match(y, p) {
        assert forall|j: int| 0 <= j < w.len() + i implies !matches_at(s, p, j) by {
            lemma_match_char(s, c, j);
            if j >= w.len() {
                lemma_match_char(y, c, j - w.len());
                assert(s[j] == y[j - w.len()]);
            } else {
                assert(s[j] == w[j]);
            }
        }
        lemma_match_char(s, c, w.len() + i);
        lemma_match_char(y, c, i);
        lemma_first_match_at(s, p, w.len() + i);
        assert(s.take(w.len() + i) =~= w + y.take(i));
        assert(s.skip(w.len() + i + 1) =~= y.skip(i + 1));
        assert(split_on(s, p) =~= split_on(y, p).update(0, w + split_on(y, p)[0]));
    } else {
        assert forall|j: int| !matches_at(s, p, j) by {
            lemma_match_char(s, c, j);
            lemma_match_char(y, c, j - w.len());
            if 0 <= j < w.len() {
                assert(s[j] == w[j]);
            } else if w.len() <= j < s.len() {
                assert(s[j] == y[j - w.len()]);
            }
        }
        assert(split_on(s, p) =~= split_on(y, p).update(0, w + split_on(y, p)[0]));
    }
}

/// Replacing every occurrence of a non-empty pattern is splitting the text
/// at it and joining the pieces with the replacement.
pub proof fn law_replace_is_split_join(s: Seq<char>, p: Seq<char>, r: Seq<char>)
    requires
        p.len() > 0,
    ensures
        replace_all(s, p, r) == join(split_on(s, p), r),
    decreases s.len(),
{
    lemma_first_match(s, p);
    if let Some(i) = first_match(s, p) {
        let rest = s.skip(i + p.len());
        law_replace_is_split_join(rest, p, r);
        lemma_split_on_len(rest, p);
        let sp = split_on(s, p);
        assert(sp == seq![s.take(i)] + split_on(rest, p));
        lemma_join_front(sp, r);
        assert(sp.drop_first() =~= split_on(rest, p));
    }
}

/// Joining pieces whose first one is lengthened at its front lengthens the
/// joined text at its front.
pub proof fn lemma_join_first_prefixed(xs: Seq<Seq<char>>, w: Seq<char>, sep: Seq<char>)
    requires
        xs.len() >= 1,
    ensures
        join(xs.update(0, w + xs[0]), sep) == w + join(xs, sep),
    decreases xs.len(),
{
    let ys = xs.update(0, w + xs[0]);
    if xs.len() >= 2 {
        lemma_join_first_prefixed(xs.drop_last(), w, sep);
        assert(ys.drop_last() =~= xs.drop_last().update(0, w + xs.drop_last()[0]));
        assert(ys.last() == xs.last());
        assert(w + join(xs.drop_last(), sep) + sep + xs.last() =~= w + (join(xs.drop_last(), sep)
            + sep + xs.last()));
    }
}

/// A prefix without the character `c` is kept in front when every `c` is replaced.
pub proof fn lemma_replace_prefix(w: Seq<char>, y: Seq<char>, c: char, r: Seq<char>)
    requires
        forall|j: int| 0 <= j < w.len() ==> #[trigger] w[j] != c,
    ensures
        replace_all(w + y, seq![c], r) == w + replace_all(y, seq![c], r),
{
    lemma_split_prefix(w, y, c);
    law_replace_is_split_join(w + y, seq![c], r);
    law_replace_is_split_join(y, seq![c], r);
    lemma_join_first_prefixed(split_on(y, seq![c]), w, r);
}

/// Trimming a trimmed text changes nothing.
pub proof fn lemma_trim_twice(s: Seq<char>)
    ensures
        trim(trim(s)) == trim(s),
{
    let f = ws_pred();
    let a = run_len(s, f) as int;
    let u = s.skip(a);
    let t = trim(s);
    lemma_run_len(s, f);
    lemma_back_run_len(u, f);
    if t.len() > 0 {
        assert(t[0] == s[a]);
        assert(t.last() == u[u.len() - back_run_len(u, f) - 1]);
        lemma_run_len_at(t, f, 0);
        lemma_back_run_len_at(t, f, t.len() as int);
        assert(t.skip(0) =~= t);
        assert(t.take(t.len() as int) =~= t);
    } else {
        assert(t.skip(0).take(0) =~= t);
    }
}

/// A pattern does not occur where one of its characters does not.
pub proof fn lemma_char_absent(s: Seq<char>, p: Seq<char>, k: int)
    requires
        0 <= k < p.len(),
        forall|j: int| 0 <= j < s.len() ==> s[j] != p[k],
    ensures
        !has_sub(s, p),
{
    if has_sub(s, p) {
        let i = choose|i: int| matches_at(s, p, i);
        assert(s.subrange(i, i + p.len())[k] == s[i + k]);
    }
}

} // verus!
