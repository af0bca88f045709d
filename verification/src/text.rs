//! Text as sequences of characters: the searching, splitting and trimming that
//! the rest of the library is written in.
use vstd::prelude::*;

verus! {

// ---------------------------------------------------------------------------
// What std does to text
// ---------------------------------------------------------------------------

/// `String::push`: the character given is added to the end of the string.
pub assume_specification[ String::push ](s: &mut String, c: char)
    ensures
        final(s)@ == old(s)@.push(c),
;

/// Whether a character is alphabetic or numeric, as Unicode's character
/// database has it.
pub uninterp spec fn alphanumeric(c: char) -> bool;

/// `char::is_alphanumeric`: a fixed property of the character, which in ASCII
/// the letters and digits have and nothing else does.
pub assume_specification[ char::is_alphanumeric ](c: char) -> (b: bool)
    ensures
        b == alphanumeric(c),
        (c as u32) < 128 ==> b == ascii_alphanumeric(c),
;

// ---------------------------------------------------------------------------
// Characters
// ---------------------------------------------------------------------------

pub open spec fn ascii_upper(c: char) -> bool {
    'A' <= c && c <= 'Z'
}

pub open spec fn ascii_lower(c: char) -> bool {
    'a' <= c && c <= 'z'
}

pub open spec fn ascii_digit(c: char) -> bool {
    '0' <= c && c <= '9'
}

pub open spec fn ascii_alphanumeric(c: char) -> bool {
    ascii_upper(c) || ascii_lower(c) || ascii_digit(c)
}

/// Whether names are written with a character: a letter, a digit or `_`.
pub open spec fn name_char(c: char) -> bool {
    if (c as u32) < 128 {
        ascii_alphanumeric(c) || c == '_'
    } else {
        alphanumeric(c)
    }
}

/// The characters with Unicode's `White_Space` property.
pub open spec fn white(c: char) -> bool {
    ||| ('\u{9}' <= c && c <= '\u{d}')
    ||| c == ' '
    ||| c == '\u{85}'
    ||| c == '\u{a0}'
    ||| c == '\u{1680}'
    ||| ('\u{2000}' <= c && c <= '\u{200a}')
    ||| c == '\u{2028}'
    ||| c == '\u{2029}'
    ||| c == '\u{202f}'
    ||| c == '\u{205f}'
    ||| c == '\u{3000}'
}

pub fn is_ascii_upper(c: char) -> (b: bool)
    ensures
        b == ascii_upper(c),
{
    'A' <= c && c <= 'Z'
}

pub fn is_ascii_digit(c: char) -> (b: bool)
    ensures
        b == ascii_digit(c),
{
    '0' <= c && c <= '9'
}

pub fn is_ascii_alphanumeric(c: char) -> (b: bool)
    ensures
        b == ascii_alphanumeric(c),
{
    ('A' <= c && c <= 'Z') || ('a' <= c && c <= 'z') || ('0' <= c && c <= '9')
}

pub fn is_white(c: char) -> (b: bool)
    ensures
        b == white(c),
{
    ('\u{9}' <= c && c <= '\u{d}') || c == ' ' || c == '\u{85}' || c == '\u{a0}' || c == '\u{1680}'
        || ('\u{2000}' <= c && c <= '\u{200a}') || c == '\u{2028}' || c == '\u{2029}' || c
        == '\u{202f}' || c == '\u{205f}' || c == '\u{3000}'
}

// ---------------------------------------------------------------------------
// To and from strings
// ---------------------------------------------------------------------------

/// The characters of a string.
pub fn chars_of(s: &str) -> (v: Vec<char>)
    ensures
        v@ == s@,
{
    let mut v: Vec<char> = Vec::new();
    for c in it: s.chars()
        invariant
            it.seq() == s@,
            v@ == s@.take(it.index() as int),
    {
        proof {
            assert(s@.take(it.index() + 1) =~= s@.take(it.index() as int).push(c));
        }
        v.push(c);
    }
    proof {
        assert(s@.take(s@.len() as int) =~= s@);
    }
    v
}

/// The string of some characters.
pub fn string_of(v: &[char]) -> (s: String)
    ensures
        s@ == v@,
{
    let mut s = String::new();
    let mut i: usize = 0;
    while i < v.len()
        invariant
            i <= v@.len(),
            s@ == v@.take(i as int),
        decreases v@.len() - i,
    {
        proof {
            assert(v@.take(i + 1) =~= v@.take(i as int).push(v@[i as int]));
        }
        s.push(v[i]);
        i += 1;
    }
    proof {
        assert(v@.take(v@.len() as int) =~= v@);
    }
    s
}

/// Whether two strings have the same characters.
pub fn same(a: &str, b: &str) -> (r: bool)
    ensures
        r == (a@ == b@),
{
    a.to_owned() == b.to_owned()
}

/// Whether characters are those of a string.
pub fn spells(v: &[char], s: &str) -> (r: bool)
    ensures
        r == (v@ == s@),
{
    let w = chars_of(s);
    if v.len() != w.len() {
        return false;
    }
    let mut i: usize = 0;
    while i < v.len()
        invariant
            i <= v@.len(),
            v@.len() == w@.len(),
            w@ == s@,
            forall|k: int| 0 <= k < i ==> v@[k] == w@[k],
        decreases v@.len() - i,
    {
        if v[i] != w[i] {
            return false;
        }
        i += 1;
    }
    proof {
        assert(v@ =~= w@);
    }
    true
}

/// The characters from `from` up to `to`.
pub fn piece(v: &[char], from: usize, to: usize) -> (r: Vec<char>)
    requires
        from <= to <= v@.len(),
    ensures
        r@ == v@.subrange(from as int, to as int),
{
    let mut r: Vec<char> = Vec::new();
    let mut i: usize = from;
    while i < to
        invariant
            from <= i <= to <= v@.len(),
            r@ == v@.subrange(from as int, i as int),
        decreases to - i,
    {
        proof {
            assert(v@.subrange(from as int, i + 1) =~= v@.subrange(from as int, i as int).push(
                v@[i as int],
            ));
        }
        r.push(v[i]);
        i += 1;
    }
    r
}

// ---------------------------------------------------------------------------
// Runs of characters
// ---------------------------------------------------------------------------

/// A kind of character, to skip over or stop at.
#[derive(Clone, Copy)]
pub enum Class {
    Is(char),
    Not(char),
    White,
    Visible,
    /// A space or a tab.
    Blank,
    Digit,
    /// What names are written with: letters, digits and `_`.
    Name,
    /// Anything but what starts a pattern: `*`, `?`, `[` or `{`.
    Literal,
}

impl Class {
    pub open spec fn has(self, c: char) -> bool {
        match self {
            Class::Is(x) => c == x,
            Class::Not(x) => c != x,
            Class::White => white(c),
            Class::Visible => !white(c),
            Class::Blank => c == ' ' || c == '\t',
            Class::Digit => ascii_digit(c),
            Class::Name => name_char(c),
            Class::Literal => c != '*' && c != '?' && c != '[' && c != '{',
        }
    }

    pub fn holds(self, c: char) -> (b: bool)
        ensures
            b == self.has(c),
    {
        match self {
            Class::Is(x) => c == x,
            Class::Not(x) => c != x,
            Class::White => is_white(c),
            Class::Visible => !is_white(c),
            Class::Blank => c == ' ' || c == '\t',
            Class::Digit => is_ascii_digit(c),
            Class::Name => c.is_alphanumeric() || c == '_',
            Class::Literal => c != '*' && c != '?' && c != '[' && c != '{',
        }
    }
}

/// Where the run of `class` starting at `i` ends.
pub open spec fn run_end(s: Seq<char>, class: Class, i: int) -> int
    decreases s.len() - i,
{
    if 0 <= i < s.len() && class.has(s[i]) {
        run_end(s, class, i + 1)
    } else {
        i
    }
}

/// Where the run of `class` ending at `i` starts.
pub open spec fn run_start(s: Seq<char>, class: Class, i: int) -> int
    decreases i,
{
    if 0 < i <= s.len() && class.has(s[i - 1]) {
        run_start(s, class, i - 1)
    } else {
        i
    }
}

pub broadcast proof fn lemma_run_end(s: Seq<char>, class: Class, i: int)
    requires
        0 <= i <= s.len(),
    ensures
        i <= (#[trigger] run_end(s, class, i)) <= s.len(),
        forall|k: int| i <= k < run_end(s, class, i) ==> class.has(#[trigger] s[k]),
        run_end(s, class, i) < s.len() ==> !class.has(s[run_end(s, class, i)]),
    decreases s.len() - i,
{
    if i < s.len() && class.has(s[i]) {
        lemma_run_end(s, class, i + 1);
    }
}

pub broadcast proof fn lemma_run_start(s: Seq<char>, class: Class, i: int)
    requires
        0 <= i <= s.len(),
    ensures
        0 <= (#[trigger] run_start(s, class, i)) <= i,
        forall|k: int| run_start(s, class, i) <= k < i ==> class.has(#[trigger] s[k]),
        run_start(s, class, i) > 0 ==> !class.has(s[run_start(s, class, i) - 1]),
    decreases i,
{
    if 0 < i && class.has(s[i - 1]) {
        lemma_run_start(s, class, i - 1);
    }
}

pub broadcast group group_runs {
    lemma_run_end,
    lemma_run_start,
}

pub fn end_of_run(v: &[char], class: Class, from: usize) -> (i: usize)
    requires
        from <= v@.len(),
    ensures
        i == run_end(v@, class, from as int),
        from <= i <= v@.len(),
{
    let mut i: usize = from;
    while i < v.len() && class.holds(v[i])
        invariant
            from <= i <= v@.len(),
            run_end(v@, class, i as int) == run_end(v@, class, from as int),
        decreases v@.len() - i,
    {
        i += 1;
    }
    i
}

pub fn start_of_run(v: &[char], class: Class, to: usize) -> (i: usize)
    requires
        to <= v@.len(),
    ensures
        i == run_start(v@, class, to as int),
        i <= to,
{
    let mut i: usize = to;
    while i > 0 && class.holds(v[i - 1])
        invariant
            i <= to <= v@.len(),
            run_start(v@, class, i as int) == run_start(v@, class, to as int),
        decreases i,
    {
        i -= 1;
    }
    i
}

// ---------------------------------------------------------------------------
// Trimming
// ---------------------------------------------------------------------------

/// `s` without the run of `class` it starts with.
pub open spec fn trim_start_of(s: Seq<char>, class: Class) -> Seq<char> {
    s.skip(run_end(s, class, 0))
}

/// `s` without the run of `class` it ends with.
pub open spec fn trim_end_of(s: Seq<char>, class: Class) -> Seq<char> {
    s.take(run_start(s, class, s.len() as int))
}

pub open spec fn trim_end(s: Seq<char>) -> Seq<char> {
    trim_end_of(s, Class::White)
}

/// `s` without the white space around it.
pub open spec fn trim(s: Seq<char>) -> Seq<char> {
    trim_end(trim_start_of(s, Class::White))
}

pub fn trimmed_start_of(v: &[char], class: Class) -> (r: Vec<char>)
    ensures
        r@ == trim_start_of(v@, class),
{
    let i = end_of_run(v, class, 0);
    let r = piece(v, i, v.len());
    proof {
        assert(r@ =~= v@.skip(i as int));
    }
    r
}

pub fn trimmed_end_of(v: &[char], class: Class) -> (r: Vec<char>)
    ensures
        r@ == trim_end_of(v@, class),
{
    let i = start_of_run(v, class, v.len());
    let r = piece(v, 0, i);
    proof {
        assert(r@ =~= v@.take(i as int));
    }
    r
}

pub fn trimmed(v: &[char]) -> (r: Vec<char>)
    ensures
        r@ == trim(v@),
{
    let rest = trimmed_start_of(v, Class::White);
    trimmed_end_of(&rest, Class::White)
}

/// Whether there is nothing but white space in `s`.
pub open spec fn all_white(s: Seq<char>) -> bool {
    forall|k: int| 0 <= k < s.len() ==> white(#[trigger] s[k])
}

pub fn is_all_white(v: &[char]) -> (b: bool)
    ensures
        b == all_white(v@),
{
    broadcast use group_runs;

    let i = end_of_run(v, Class::White, 0);
    i == v.len()
}

/// Trimming leaves nothing exactly of what is all white space.
pub proof fn lemma_trim_empty(s: Seq<char>)
    ensures
        (trim(s).len() == 0) == all_white(s),
{
    broadcast use group_runs;

    let rest = trim_start_of(s, Class::White);
    let i = run_end(s, Class::White, 0);
    if i < s.len() {
        assert(rest[0] == s[i]);
        let j = run_start(rest, Class::White, rest.len() as int);
        if j == 0 {
            assert(Class::White.has(rest[0]));
        }
    }
}

/// Trimmed text neither starts nor ends with white space.
pub proof fn lemma_trim_ends(s: Seq<char>)
    ensures
        trim(s).len() > 0 ==> !white(trim(s)[0]) && !white(trim(s).last()),
        trim(s).len() <= s.len(),
{
    broadcast use group_runs;

    let rest = trim_start_of(s, Class::White);
    if trim(s).len() > 0 {
        assert(rest[0] == s[run_end(s, Class::White, 0)]);
        assert(trim(s)[0] == rest[0]);
    }
}

/// Trimming what has no white space at its ends changes nothing.
pub proof fn lemma_trim_fixed(s: Seq<char>)
    requires
        s.len() > 0 ==> !white(s[0]) && !white(s.last()),
    ensures
        trim(s) == s,
{
    assert(s.skip(0) =~= s);
    assert(s.take(s.len() as int) =~= s);
}

// ---------------------------------------------------------------------------
// Splitting
// ---------------------------------------------------------------------------

/// The texts of some strings, or of some vectors of characters.
pub open spec fn views<T: View<V = Seq<char>>>(v: Seq<T>) -> Seq<Seq<char>> {
    v.map_values(|t: T| t@)
}

pub open spec fn split_from(s: Seq<char>, c: char, i: int) -> Seq<Seq<char>>
    decreases s.len() - i,
{
    let n = run_end(s, Class::Not(c), i);
    if n < i || i < 0 || n >= s.len() {
        seq![s.skip(i)]
    } else {
        seq![s.subrange(i, n)] + split_from(s, c, n + 1)
    }
}

/// The pieces of `s` between the `c`s in it: one more than there are `c`s.
pub open spec fn split(s: Seq<char>, c: char) -> Seq<Seq<char>> {
    split_from(s, c, 0)
}

pub fn split_at_char(v: &[char], c: char) -> (r: Vec<Vec<char>>)
    ensures
        views(r@) == split(v@, c),
{
    broadcast use group_runs;

    let mut r: Vec<Vec<char>> = Vec::new();
    let mut i: usize = 0;
    proof {
        assert(views(r@) + split_from(v@, c, 0) =~= split(v@, c));
    }
    loop
        invariant
            i <= v@.len(),
            views(r@) + split_from(v@, c, i as int) == split(v@, c),
        decreases v@.len() - i,
    {
        broadcast use group_runs;

        let n = end_of_run(v, Class::Not(c), i);
        let next = piece(v, i, n);
        let ghost before = views(r@);
        r.push(next);
        proof {
            assert(views(r@) =~= before.push(next@));
        }
        if n >= v.len() {
            proof {
                assert(next@ =~= v@.skip(i as int));
                assert(views(r@) =~= before + seq![v@.skip(i as int)]);
            }
            return r;
        }
        proof {
            assert(views(r@) + split_from(v@, c, n + 1) =~= before + (seq![next@] + split_from(
                v@,
                c,
                n + 1,
            )));
        }
        i = n + 1;
    }
}

/// A line without the carriage return that may end it.
pub open spec fn chomp(line: Seq<char>) -> Seq<char> {
    if line.len() > 0 && line.last() == '\r' {
        line.drop_last()
    } else {
        line
    }
}

pub open spec fn lines_from(s: Seq<char>, i: int) -> Seq<Seq<char>>
    decreases s.len() - i,
{
    let n = run_end(s, Class::Not('\n'), i);
    if i < 0 || i >= s.len() || n < i {
        seq![]
    } else if n >= s.len() {
        seq![s.skip(i)]
    } else {
        seq![chomp(s.subrange(i, n))] + lines_from(s, n + 1)
    }
}

/// The lines of `s`, each without the `\n` or `\r\n` that ends it.
pub open spec fn lines(s: Seq<char>) -> Seq<Seq<char>> {
    lines_from(s, 0)
}

pub fn lines_of(v: &[char]) -> (r: Vec<Vec<char>>)
    ensures
        views(r@) == lines(v@),
{
    broadcast use group_runs;

    let mut r: Vec<Vec<char>> = Vec::new();
    let mut i: usize = 0;
    proof {
        assert(views(r@) + lines_from(v@, 0) =~= lines(v@));
    }
    while i < v.len()
        invariant
            i <= v@.len(),
            views(r@) + lines_from(v@, i as int) == lines(v@),
        decreases v@.len() - i,
    {
        broadcast use group_runs;

        let n = end_of_run(v, Class::Not('\n'), i);
        let ghost before = views(r@);
        if n >= v.len() {
            let last = piece(v, i, n);
            r.push(last);
            proof {
                assert(last@ =~= v@.skip(i as int));
                assert(views(r@) =~= before + lines_from(v@, i as int));
                assert(views(r@) + lines_from(v@, n as int) =~= views(r@));
            }
            i = n;
        } else {
            let mut line = piece(v, i, n);
            if line.len() > 0 && line[line.len() - 1] == '\r' {
                line.pop();
            }
            proof {
                assert(line@ =~= chomp(v@.subrange(i as int, n as int)));
            }
            r.push(line);
            proof {
                assert(views(r@) =~= before.push(line@));
                assert(views(r@) + lines_from(v@, n + 1) =~= before + (seq![line@] + lines_from(
                    v@,
                    n + 1,
                )));
            }
            i = n + 1;
        }
    }
    proof {
        assert(views(r@) + lines_from(v@, i as int) =~= views(r@));
    }
    r
}

pub open spec fn words_from(s: Seq<char>, i: int) -> Seq<Seq<char>>
    decreases s.len() - i,
{
    let a = run_end(s, Class::White, i);
    let b = run_end(s, Class::Visible, a);
    if i < 0 || a < i || b <= a || b > s.len() {
        seq![]
    } else {
        seq![s.subrange(a, b)] + words_from(s, b)
    }
}

/// The words of `s`, white space between them.
pub open spec fn words(s: Seq<char>) -> Seq<Seq<char>> {
    words_from(s, 0)
}

pub fn words_of(v: &[char]) -> (r: Vec<Vec<char>>)
    ensures
        views(r@) == words(v@),
{
    let mut r: Vec<Vec<char>> = Vec::new();
    let mut i: usize = 0;
    proof {
        assert(views(r@) + words_from(v@, 0) =~= words(v@));
    }
    loop
        invariant
            i <= v@.len(),
            views(r@) + words_from(v@, i as int) == words(v@),
        decreases v@.len() - i,
    {
        broadcast use group_runs;

        let a = end_of_run(v, Class::White, i);
        let b = end_of_run(v, Class::Visible, a);
        if a >= v.len() {
            proof {
                assert(views(r@) + words_from(v@, i as int) =~= views(r@));
            }
            return r;
        }
        let word = piece(v, a, b);
        let ghost before = views(r@);
        r.push(word);
        proof {
            assert(b > a) by {
                assert(!Class::White.has(v@[a as int]));
            }
            assert(views(r@) =~= before.push(word@));
            assert(views(r@) + words_from(v@, b as int) =~= before + (seq![word@] + words_from(
                v@,
                b as int,
            )));
        }
        i = b;
    }
}

// ---------------------------------------------------------------------------
// Finding
// ---------------------------------------------------------------------------

/// Whether `pattern` stands at `i` in `s`.
pub open spec fn stands_at(s: Seq<char>, pattern: Seq<char>, i: int) -> bool {
    0 <= i && i + pattern.len() <= s.len() && s.subrange(i, i + pattern.len()) == pattern
}

pub fn is_at(v: &[char], pattern: &[char], i: usize) -> (b: bool)
    requires
        i <= v@.len(),
    ensures
        b == stands_at(v@, pattern@, i as int),
{
    let len: usize = v.len();
    if len - i < pattern.len() {
        return false;
    }
    let mut k: usize = 0;
    while k < pattern.len()
        invariant
            k <= pattern@.len(),
            i + pattern@.len() <= v@.len(),
            len == v@.len(),
            forall|j: int| 0 <= j < k ==> v@[i + j] == pattern@[j],
        decreases pattern@.len() - k,
    {
        if v[i + k] != pattern[k] {
            proof {
                let part = v@.subrange(i as int, i + pattern@.len());
                assert(part[k as int] == v@[i + k]);
            }
            return false;
        }
        k += 1;
    }
    proof {
        assert(v@.subrange(i as int, i + pattern@.len()) =~= pattern@);
    }
    true
}

/// The first place at or after `i` where `pattern` stands, or the length of
/// `s` if there is none.
pub open spec fn find_from(s: Seq<char>, pattern: Seq<char>, i: int) -> int
    decreases s.len() - i,
{
    if i < 0 || i >= s.len() || stands_at(s, pattern, i) {
        i
    } else {
        find_from(s, pattern, i + 1)
    }
}

/// What stands nowhere from `i` on is not found.
pub proof fn lemma_find_none(s: Seq<char>, pattern: Seq<char>, i: int)
    requires
        0 <= i <= s.len(),
        forall|k: int| i <= k < s.len() ==> !stands_at(s, pattern, k),
    ensures
        find_from(s, pattern, i) == s.len(),
    decreases s.len() - i,
{
    if i < s.len() {
        lemma_find_none(s, pattern, i + 1);
    }
}

pub fn index_of(v: &[char], pattern: &[char], from: usize) -> (i: usize)
    requires
        from <= v@.len(),
    ensures
        i == find_from(v@, pattern@, from as int),
        from <= i <= v@.len(),
        i < v@.len() ==> stands_at(v@, pattern@, i as int),
        forall|k: int| from <= k < i ==> !stands_at(v@, pattern@, k),
{
    let mut i: usize = from;
    while i < v.len() && !is_at(v, pattern, i)
        invariant
            from <= i <= v@.len(),
            find_from(v@, pattern@, i as int) == find_from(v@, pattern@, from as int),
            forall|k: int| from <= k < i ==> !stands_at(v@, pattern@, k),
        decreases v@.len() - i,
    {
        i += 1;
    }
    i
}

pub fn starts_with(v: &[char], prefix: &str) -> (b: bool)
    ensures
        b == prefix@.is_prefix_of(v@),
{
    let p = chars_of(prefix);
    is_at(v, &p, 0)
}

pub fn ends_with(v: &[char], suffix: &str) -> (b: bool)
    ensures
        b == suffix@.is_suffix_of(v@),
{
    let p = chars_of(suffix);
    p.len() <= v.len() && is_at(v, &p, v.len() - p.len())
}

/// `s` with each `pattern` in it, from the left, replaced with `with`.
pub open spec fn replace(s: Seq<char>, pattern: Seq<char>, with: Seq<char>) -> Seq<char>
    decreases s.len(),
{
    if pattern.len() == 0 || s.len() < pattern.len() {
        s
    } else if stands_at(s, pattern, 0) {
        with + replace(s.skip(pattern.len() as int), pattern, with)
    } else {
        seq![s[0]] + replace(s.skip(1), pattern, with)
    }
}

pub fn replaced(v: &[char], pattern: &[char], with: &[char]) -> (r: Vec<char>)
    requires
        pattern@.len() > 0,
    ensures
        r@ == replace(v@, pattern@, with@),
{
    let mut r: Vec<char> = Vec::new();
    let mut i: usize = 0;
    proof {
        assert(v@.skip(0) =~= v@);
        assert(r@ + replace(v@.skip(0), pattern@, with@) =~= replace(v@, pattern@, with@));
    }
    while i < v.len()
        invariant
            i <= v@.len(),
            pattern@.len() > 0,
            r@ + replace(v@.skip(i as int), pattern@, with@) == replace(v@, pattern@, with@),
        decreases v@.len() - i,
    {
        let ghost rest = v@.skip(i as int);
        let ghost before = r@;
        if is_at(v, pattern, i) {
            push_all(&mut r, with);
            i += pattern.len();
            proof {
                assert(rest.subrange(0, pattern@.len() as int) =~= pattern@);
                assert(rest.skip(pattern@.len() as int) =~= v@.skip(i as int));
                assert(r@ + replace(v@.skip(i as int), pattern@, with@) =~= before + (with@
                    + replace(v@.skip(i as int), pattern@, with@)));
            }
        } else {
            let c = v[i];
            r.push(c);
            i += 1;
            proof {
                assert(rest.skip(1) =~= v@.skip(i as int));
                if rest.len() < pattern@.len() {
                    assert(replace(rest.skip(1), pattern@, with@) == rest.skip(1));
                    assert(seq![c] + rest.skip(1) =~= rest);
                } else {
                    assert(v@.subrange(i - 1, i - 1 + pattern@.len()) =~= rest.subrange(
                        0,
                        pattern@.len() as int,
                    ));
                }
                assert(r@ + replace(v@.skip(i as int), pattern@, with@) =~= before + (seq![c]
                    + replace(v@.skip(i as int), pattern@, with@)));
            }
        }
    }
    proof {
        assert(r@ + replace(v@.skip(i as int), pattern@, with@) =~= r@);
    }
    r
}

// ---------------------------------------------------------------------------
// Building
// ---------------------------------------------------------------------------

pub fn push_all(out: &mut Vec<char>, v: &[char])
    ensures
        final(out)@ == old(out)@ + v@,
{
    let mut i: usize = 0;
    proof {
        assert(old(out)@ + v@.take(0) =~= old(out)@);
    }
    while i < v.len()
        invariant
            i <= v@.len(),
            out@ == old(out)@ + v@.take(i as int),
        decreases v@.len() - i,
    {
        proof {
            assert(old(out)@ + v@.take(i + 1) =~= (old(out)@ + v@.take(i as int)).push(
                v@[i as int],
            ));
        }
        out.push(v[i]);
        i += 1;
    }
    proof {
        assert(v@.take(v@.len() as int) =~= v@);
    }
}

pub fn push_str(out: &mut Vec<char>, s: &str)
    ensures
        final(out)@ == old(out)@ + s@,
{
    let v = chars_of(s);
    push_all(out, &v);
}

/// The parts with `between` between them.
pub open spec fn join(parts: Seq<Seq<char>>, between: Seq<char>) -> Seq<char>
    decreases parts.len(),
{
    if parts.len() == 0 {
        seq![]
    } else if parts.len() == 1 {
        parts[0]
    } else {
        join(parts.drop_last(), between) + between + parts.last()
    }
}

pub fn joined(parts: &Vec<Vec<char>>, between: &str) -> (r: Vec<char>)
    ensures
        r@ == join(views(parts@), between@),
{
    let mut r: Vec<char> = Vec::new();
    let mut i: usize = 0;
    let ghost all = views(parts@);
    while i < parts.len()
        invariant
            i <= parts@.len(),
            all == views(parts@),
            r@ == join(all.take(i as int), between@),
        decreases parts@.len() - i,
    {
        if i > 0 {
            push_str(&mut r, between);
        }
        push_all(&mut r, &parts[i]);
        i += 1;
        proof {
            assert(all.take(i as int).drop_last() =~= all.take(i - 1));
            assert(all.take(i as int).last() == parts@[i - 1]@);
            if i == 1 {
                assert(r@ =~= all.take(1)[0]);
            }
        }
    }
    proof {
        assert(all.take(all.len() as int) =~= all);
    }
    r
}

/// The parts one after the other.
pub open spec fn concat(parts: Seq<Seq<char>>) -> Seq<char>
    decreases parts.len(),
{
    if parts.len() == 0 {
        seq![]
    } else {
        concat(parts.drop_last()) + parts.last()
    }
}

pub fn concat_of(parts: Vec<&str>) -> (r: String)
    ensures
        r@ == concat(views(parts@)),
{
    let ghost all = views(parts@);
    let mut r: Vec<char> = Vec::new();
    let mut i: usize = 0;
    proof {
        assert(r@ =~= concat(all.take(0)));
    }
    while i < parts.len()
        invariant
            i <= parts@.len(),
            all == views(parts@),
            r@ == concat(all.take(i as int)),
        decreases parts@.len() - i,
    {
        push_str(&mut r, parts[i]);
        i += 1;
        proof {
            assert(all.take(i as int).drop_last() =~= all.take(i - 1));
            assert(all.take(i as int).last() == parts@[i - 1]@);
        }
    }
    proof {
        assert(all.take(all.len() as int) =~= all);
    }
    string_of(&r)
}

/// `c` so many times.
pub open spec fn repeat(c: char, n: nat) -> Seq<char> {
    Seq::new(n, |i: int| c)
}

pub fn repeated(c: char, n: usize) -> (r: Vec<char>)
    ensures
        r@ == repeat(c, n as nat),
{
    let mut r: Vec<char> = Vec::new();
    let mut i: usize = 0;
    while i < n
        invariant
            i <= n,
            r@ == repeat(c, i as nat),
        decreases n - i,
    {
        r.push(c);
        i += 1;
        proof {
            assert(r@ =~= repeat(c, i as nat));
        }
    }
    r
}

/// The digit for a number below ten.
pub open spec fn digit(n: nat) -> char {
    ('0' as u8 + n) as char
}

/// `n` in decimal.
pub open spec fn decimal(n: nat) -> Seq<char>
    decreases n,
{
    if n < 10 {
        seq![digit(n)]
    } else {
        decimal(n / 10).push(digit(n % 10))
    }
}

pub fn decimal_of(n: u128) -> (r: Vec<char>)
    ensures
        r@ == decimal(n as nat),
    decreases n,
{
    if n < 10 {
        let mut r: Vec<char> = Vec::new();
        r.push((48u8 + (n as u8)) as char);
        proof {
            assert(r@ =~= decimal(n as nat));
        }
        r
    } else {
        let mut r = decimal_of(n / 10);
        r.push((48u8 + ((n % 10) as u8)) as char);
        r
    }
}

// ---------------------------------------------------------------------------
// Order
// ---------------------------------------------------------------------------

/// Whether `a` comes before `b`, as words do in a dictionary.
pub open spec fn comes_before(a: Seq<char>, b: Seq<char>) -> bool
    decreases b.len(),
{
    if b.len() == 0 {
        false
    } else if a.len() == 0 {
        true
    } else if a[0] != b[0] {
        a[0] < b[0]
    } else {
        comes_before(a.skip(1), b.skip(1))
    }
}

pub fn is_before(a: &[char], b: &[char]) -> (r: bool)
    ensures
        r == comes_before(a@, b@),
{
    let mut i: usize = 0;
    proof {
        assert(a@.skip(0) =~= a@);
        assert(b@.skip(0) =~= b@);
    }
    while i < b.len()
        invariant
            i <= b@.len(),
            i <= a@.len(),
            comes_before(a@, b@) == comes_before(a@.skip(i as int), b@.skip(i as int)),
        decreases b@.len() - i,
    {
        if i == a.len() {
            return true;
        }
        if a[i] != b[i] {
            return a[i] < b[i];
        }
        proof {
            assert(a@.skip(i as int).skip(1) =~= a@.skip(i + 1));
            assert(b@.skip(i as int).skip(1) =~= b@.skip(i + 1));
        }
        i += 1;
    }
    false
}

/// Of two texts that differ, one comes before the other, and not both.
pub proof fn lemma_before_total(a: Seq<char>, b: Seq<char>)
    ensures
        a != b ==> comes_before(a, b) != comes_before(b, a),
        !comes_before(a, a),
    decreases b.len(),
{
    if a.len() > 0 {
        lemma_before_total_step(a);
    }
    if a.len() > 0 && b.len() > 0 && a[0] == b[0] {
        lemma_before_total(a.skip(1), b.skip(1));
        if a.skip(1) == b.skip(1) {
            assert(a =~= seq![a[0]] + a.skip(1));
            assert(b =~= seq![b[0]] + b.skip(1));
        }
    } else if a.len() == 0 && b.len() == 0 {
        assert(a =~= b);
    }
}

proof fn lemma_before_total_step(a: Seq<char>)
    ensures
        !comes_before(a, a),
    decreases a.len(),
{
    if a.len() > 0 {
        lemma_before_total_step(a.skip(1));
    }
}

pub proof fn lemma_before_transitive(a: Seq<char>, b: Seq<char>, c: Seq<char>)
    requires
        comes_before(a, b),
        comes_before(b, c),
    ensures
        comes_before(a, c),
    decreases c.len(),
{
    if a.len() > 0 && b.len() > 0 && c.len() > 0 && a[0] == b[0] && b[0] == c[0] {
        lemma_before_transitive(a.skip(1), b.skip(1), c.skip(1));
    }
}

// ---------------------------------------------------------------------------
// Splitting what was joined
// ---------------------------------------------------------------------------

proof fn lemma_run_end_shift(s: Seq<char>, class: Class, i: int, k: int)
    requires
        0 <= i <= s.len(),
        0 <= k <= s.len() - i,
    ensures
        run_end(s, class, i + k) == i + run_end(s.skip(i), class, k),
    decreases s.len() - i - k,
{
    if i + k < s.len() && class.has(s[i + k]) {
        assert(s.skip(i)[k] == s[i + k]);
        lemma_run_end_shift(s, class, i, k + 1);
    } else if i + k < s.len() {
        assert(s.skip(i)[k] == s[i + k]);
    }
}

proof fn lemma_split_shift(s: Seq<char>, c: char, i: int, k: int)
    requires
        0 <= i <= s.len(),
        0 <= k <= s.len() - i,
    ensures
        split_from(s, c, i + k) == split_from(s.skip(i), c, k),
    decreases s.len() - i - k,
{
    broadcast use group_runs;

    lemma_run_end_shift(s, Class::Not(c), i, k);
    let n = run_end(s, Class::Not(c), i + k);
    if n >= s.len() {
        assert(s.skip(i + k) =~= s.skip(i).skip(k));
    } else {
        assert(s.subrange(i + k, n) =~= s.skip(i).subrange(k, n - i));
        lemma_split_shift(s, c, i, n + 1 - i);
    }
}

/// What comes before the first `c` is the first piece, and splitting goes on
/// after it.
pub proof fn lemma_split_first(a: Seq<char>, c: char, b: Seq<char>)
    requires
        !a.contains(c),
    ensures
        split(a.push(c) + b, c) == seq![a] + split(b, c),
{
    let s = a.push(c) + b;
    let n = a.len() as int;
    lemma_run_end_is(s, Class::Not(c), 0, n);
    assert(s.subrange(0, n) =~= a);
    assert(s.skip(n + 1) =~= b);
    lemma_split_shift(s, c, n + 1, 0);
}

/// Text without a `c` is one piece.
pub proof fn lemma_split_whole(a: Seq<char>, c: char)
    requires
        !a.contains(c),
    ensures
        split(a, c) == seq![a],
{
    lemma_run_end_is(a, Class::Not(c), 0, a.len() as int);
    assert(a.skip(0) =~= a);
}

/// A run ends where it first stops.
pub proof fn lemma_run_end_is(s: Seq<char>, class: Class, i: int, end: int)
    requires
        0 <= i <= end <= s.len(),
        forall|k: int| i <= k < end ==> class.has(#[trigger] s[k]),
        end < s.len() ==> !class.has(s[end]),
    ensures
        run_end(s, class, i) == end,
    decreases end - i,
{
    if i < end {
        lemma_run_end_is(s, class, i + 1, end);
    }
}

/// The first part comes first.
pub proof fn lemma_join_first(parts: Seq<Seq<char>>, between: Seq<char>)
    requires
        parts.len() > 1,
    ensures
        join(parts, between) == parts[0] + between + join(parts.skip(1), between),
    decreases parts.len(),
{
    if parts.len() == 2 {
        assert(join(parts.drop_last(), between) == parts[0]);
        assert(join(parts.skip(1), between) == parts[1]);
    } else {
        lemma_join_first(parts.drop_last(), between);
        assert(parts.drop_last().skip(1) =~= parts.skip(1).drop_last());
        assert(parts.drop_last()[0] == parts[0]);
        assert(parts.skip(1).last() == parts.last());
        let rest = join(parts.skip(1).drop_last(), between);
        assert(parts[0] + between + rest + between + parts.last() =~= parts[0] + between + (rest
            + between + parts.last()));
    }
}

/// Pieces without a `c`, joined with `c`s, split back into themselves.
pub proof fn lemma_split_join(parts: Seq<Seq<char>>, c: char)
    requires
        parts.len() > 0,
        forall|k: int| 0 <= k < parts.len() ==> !(#[trigger] parts[k]).contains(c),
    ensures
        split(join(parts, seq![c]), c) == parts,
    decreases parts.len(),
{
    if parts.len() == 1 {
        lemma_split_whole(parts[0], c);
        assert(seq![parts[0]] =~= parts);
    } else {
        let rest = parts.skip(1);
        lemma_join_first(parts, seq![c]);
        assert forall|k: int| 0 <= k < rest.len() implies !(#[trigger] rest[k]).contains(c) by {
            assert(rest[k] == parts[k + 1]);
        }
        lemma_split_join(rest, c);
        assert(parts[0] + seq![c] + join(rest, seq![c]) =~= parts[0].push(c) + join(
            rest,
            seq![c],
        ));
        lemma_split_first(parts[0], c, join(rest, seq![c]));
        assert(seq![parts[0]] + rest =~= parts);
    }
}

/// No piece has a `c` in it.
pub proof fn lemma_split_pieces(s: Seq<char>, c: char, i: int)
    requires
        0 <= i <= s.len(),
    ensures
        forall|k: int|
            0 <= k < split_from(s, c, i).len() ==> !(#[trigger] split_from(s, c, i)[k]).contains(c),
    decreases s.len() - i,
{
    broadcast use group_runs;

    let n = run_end(s, Class::Not(c), i);
    let first = if n >= s.len() {
        s.skip(i)
    } else {
        s.subrange(i, n)
    };
    assert(!first.contains(c)) by {
        if first.contains(c) {
            let k = choose|k: int| 0 <= k < first.len() && first[k] == c;
            assert(Class::Not(c).has(s[i + k]));
        }
    }
    if n < s.len() {
        lemma_split_pieces(s, c, n + 1);
        let rest = split_from(s, c, n + 1);
        let all = split_from(s, c, i);
        assert forall|k: int| 0 <= k < all.len() implies !(#[trigger] all[k]).contains(c) by {
            if k > 0 {
                assert(all[k] == rest[k - 1]);
            }
        }
    }
}

} // verus!
