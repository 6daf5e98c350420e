//! Character-level text handling shared by the address parsers: the
//! whitespace class, trimming, splitting into lines, pieces and words, and
//! the conversions between `&str`/`String` and character vectors.
use vstd::prelude::*;

verus! {

broadcast use vstd::seq_lib::group_seq_properties;

// ---------------------------------------------------------------------------
// Specifications
// ---------------------------------------------------------------------------

/// The Unicode `White_Space` property (PropList.txt), which is what
/// `char::is_whitespace` tests.
pub open spec fn is_ws(c: char) -> bool {
    ||| ('\u{9}' <= c && c <= '\u{d}')
    ||| c == ' '
    ||| c == '\u{85}'
    ||| c == '\u{a0}'
    ||| c == '\u{1680}'
    ||| ('\u{2000}' <= c && c <= '\u{200a}')
    ||| c == '\u{2028}'
    ||| c == '\u{2029}'
    ||| c == '\u{202f}'
    ||| c == '\u{205f}'
    ||| c == '\u{3000}'
}

/// `s` without its trailing whitespace.
pub open spec fn trim_end(s: Seq<char>) -> Seq<char>
    decreases s.len(),
{
    if s.len() > 0 && is_ws(s.last()) {
        trim_end(s.drop_last())
    } else {
        s
    }
}

/// `s` without its leading whitespace.
pub open spec fn trim_start(s: Seq<char>) -> Seq<char>
    decreases s.len(),
{
    if s.len() > 0 && is_ws(s[0]) {
        trim_start(s.drop_first())
    } else {
        s
    }
}

/// `s` without leading and trailing whitespace.
pub open spec fn trim(s: Seq<char>) -> Seq<char> {
    trim_start(trim_end(s))
}

/// The pieces of `s` between occurrences of `sep`, in order; there is
/// always one more piece than there are separators.
pub open spec fn split_on<T>(s: Seq<T>, sep: T) -> Seq<Seq<T>>
    decreases s.len(),
{
    if s.len() == 0 {
        seq![Seq::empty()]
    } else {
        let p = split_on(s.drop_last(), sep);
        if s.last() == sep {
            p.push(Seq::empty())
        } else {
            p.update(p.len() - 1, p.last().push(s.last()))
        }
    }
}

/// The parts concatenated with one `sep` between neighbours.
pub open spec fn join<T>(parts: Seq<Seq<T>>, sep: T) -> Seq<T>
    decreases parts.len(),
{
    if parts.len() == 0 {
        Seq::empty()
    } else if parts.len() == 1 {
        parts[0]
    } else {
        join(parts.drop_last(), sep).push(sep) + parts.last()
    }
}

/// The maximal runs of consecutive items of `s` that satisfy `keep`, in order.
pub open spec fn runs<T>(s: Seq<T>, keep: spec_fn(T) -> bool) -> Seq<Seq<T>>
    decreases s.len(),
{
    if s.len() == 0 {
        Seq::empty()
    } else {
        let r = runs(s.drop_last(), keep);
        if !keep(s.last()) {
            r
        } else if s.len() > 1 && keep(s[s.len() - 2]) {
            r.update(r.len() - 1, r.last().push(s.last()))
        } else {
            r.push(seq![s.last()])
        }
    }
}

/// The whitespace-separated words of `s` (what `str::split_whitespace` yields).
pub open spec fn words_of(s: Seq<char>) -> Seq<Seq<char>> {
    runs(s, |c: char| !is_ws(c))
}

/// A line without the carriage return of a `\r\n` ending.
pub open spec fn strip_cr(l: Seq<char>) -> Seq<char> {
    if l.len() > 0 && l.last() == '\r' {
        l.drop_last()
    } else {
        l
    }
}

/// Each line without the carriage return of a `\r\n` ending.
pub open spec fn strip_crs(ls: Seq<Seq<char>>) -> Seq<Seq<char>> {
    ls.map_values(|l: Seq<char>| strip_cr(l))
}

/// The lines of `s` as `str::lines` yields them: split at `\n`, a `\r`
/// right before a `\n` dropped, and no empty line after a final `\n`.
pub open spec fn lines_of(s: Seq<char>) -> Seq<Seq<char>> {
    let p = split_on(s, '\n');
    let body = strip_crs(p.drop_last());
    if p.last().len() == 0 {
        body
    } else {
        body.push(p.last())
    }
}

/// The trimmed lines of `s` that are not blank, in order.
pub open spec fn content_lines(s: Seq<char>) -> Seq<Seq<char>> {
    lines_of(s).map_values(|l: Seq<char>| trim(l)).filter(|t: Seq<char>| t.len() > 0)
}

/// The position of the last occurrence of `c` in `s`.
pub open spec fn last_index_of(s: Seq<char>, c: char) -> Option<int>
    decreases s.len(),
{
    if s.len() == 0 {
        None
    } else if s.last() == c {
        Some(s.len() - 1)
    } else {
        last_index_of(s.drop_last(), c)
    }
}

/// The position of the first occurrence of `c` in `s`.
pub open spec fn first_index_of(s: Seq<char>, c: char) -> Option<int>
    decreases s.len(),
{
    if s.len() == 0 {
        None
    } else if s[0] == c {
        Some(0)
    } else {
        match first_index_of(s.drop_first(), c) {
            Some(i) => Some(i + 1),
            None => None,
        }
    }
}

/// The position of the first whitespace character of `s`.
pub open spec fn first_ws_index(s: Seq<char>) -> Option<int>
    decreases s.len(),
{
    if s.len() == 0 {
        None
    } else if is_ws(s[0]) {
        Some(0)
    } else {
        match first_ws_index(s.drop_first()) {
            Some(i) => Some(i + 1),
            None => None,
        }
    }
}

/// The characters of `s` that are not whitespace, in order.
pub open spec fn without_ws(s: Seq<char>) -> Seq<char> {
    s.filter(|c: char| !is_ws(c))
}

/// The position of the last whitespace character of `s`.
pub open spec fn last_ws_index(s: Seq<char>) -> Option<int>
    decreases s.len(),
{
    if s.len() == 0 {
        None
    } else if is_ws(s.last()) {
        Some(s.len() - 1)
    } else {
        last_ws_index(s.drop_last())
    }
}

/// The views of a sequence of character vectors.
pub open spec fn views(v: Seq<Vec<char>>) -> Seq<Seq<char>> {
    v.map_values(|x: Vec<char>| x@)
}

/// ASCII digit `0`-`9`.
pub open spec fn is_digit(c: char) -> bool {
    '0' <= c && c <= '9'
}

/// ASCII letter.
pub open spec fn is_letter(c: char) -> bool {
    ('a' <= c && c <= 'z') || ('A' <= c && c <= 'Z')
}

/// Every character of `s` is an ASCII digit, and there is at least one.
pub open spec fn all_digits(s: Seq<char>) -> bool {
    s.len() > 0 && forall|i: int| 0 <= i < s.len() ==> is_digit(#[trigger] s[i])
}

/// Every character of `s` is ASCII.
pub open spec fn all_ascii(s: Seq<char>) -> bool {
    forall|i: int| 0 <= i < s.len() ==> (#[trigger] s[i] as u32) < 0x80
}

/// The ASCII uppercase form of one character.
pub open spec fn ascii_upper_char(c: char) -> char {
    if 'a' <= c && c <= 'z' {
        ((c as u32) - 32) as char
    } else {
        c
    }
}

/// The ASCII lowercase form of one character.
pub open spec fn ascii_lower_char(c: char) -> char {
    if 'A' <= c && c <= 'Z' {
        ((c as u32) + 32) as char
    } else {
        c
    }
}

/// The full Unicode uppercase mapping of a string that holds some
/// non-ASCII character: what `str::to_uppercase` returns for it.
pub uninterp spec fn unicode_uppercase(s: Seq<char>) -> Seq<char>;

/// The full Unicode lowercase mapping of a string that holds some
/// non-ASCII character: what `str::to_lowercase` returns for it.
pub uninterp spec fn unicode_lowercase(s: Seq<char>) -> Seq<char>;

/// Uppercase form of a string: the ASCII mapping on ASCII text, the
/// Unicode mapping otherwise.
pub open spec fn uppercase_of(s: Seq<char>) -> Seq<char> {
    if all_ascii(s) {
        s.map_values(|c: char| ascii_upper_char(c))
    } else {
        unicode_uppercase(s)
    }
}

/// Lowercase form of a string: the ASCII mapping on ASCII text, the
/// Unicode mapping otherwise.
pub open spec fn lowercase_of(s: Seq<char>) -> Seq<char> {
    if all_ascii(s) {
        s.map_values(|c: char| ascii_lower_char(c))
    } else {
        unicode_lowercase(s)
    }
}

// ---------------------------------------------------------------------------
// Calls into std
// ---------------------------------------------------------------------------

/// `String::push`: appends one character to the end of the string.
#[verifier::external_body]
fn push_char(s: &mut String, c: char)
    ensures
        final(s)@ == old(s)@.push(c),
{
    s.push(c);
}

/// `str::to_uppercase`. Claimed: on ASCII text it maps `a`-`z` to `A`-`Z`
/// and keeps every other character; on other text it returns the Unicode
/// uppercase mapping of the whole string, which is only named here.
#[verifier::external_body]
fn std_to_uppercase(s: &str) -> (r: String)
    ensures
        r@ == uppercase_of(s@),
        !all_ascii(s@) ==> r@ == unicode_uppercase(s@),
{
    s.to_uppercase()
}

/// `str::to_lowercase`. Claimed: on ASCII text it maps `A`-`Z` to `a`-`z`
/// and keeps every other character; on other text it returns the Unicode
/// lowercase mapping of the whole string, which is only named here.
#[verifier::external_body]
fn std_to_lowercase(s: &str) -> (r: String)
    ensures
        r@ == lowercase_of(s@),
        !all_ascii(s@) ==> r@ == unicode_lowercase(s@),
{
    s.to_lowercase()
}

/// The hexadecimal digits, lowercase.
pub open spec fn hex_digits() -> Seq<char> {
    seq!['0', '1', '2', '3', '4', '5', '6', '7', '8', '9', 'a', 'b', 'c', 'd', 'e', 'f']
}

/// How `str`'s `Debug` implementation writes one ASCII character: the
/// escapes `\0`, `\t`, `\r`, `\n`, `\\` and `\"`; other control characters
/// (and DEL) as `\u{..}` with the fewest lowercase hex digits; every other
/// character as it is.
pub open spec fn ascii_debug_escape(c: char) -> Seq<char> {
    if c == '\0' {
        seq!['\\', '0']
    } else if c == '\t' {
        seq!['\\', 't']
    } else if c == '\r' {
        seq!['\\', 'r']
    } else if c == '\n' {
        seq!['\\', 'n']
    } else if c == '\\' {
        seq!['\\', '\\']
    } else if c == '"' {
        seq!['\\', '"']
    } else if (c as u32) < 0x10 {
        seq!['\\', 'u', '{', hex_digits()[(c as u32) as int], '}']
    } else if (c as u32) < 0x20 || (c as u32) == 0x7f {
        seq![
            '\\',
            'u',
            '{',
            hex_digits()[((c as u32) / 16) as int],
            hex_digits()[((c as u32) % 16) as int],
            '}',
        ]
    } else {
        seq![c]
    }
}

/// The characters of ASCII text, each as `str`'s `Debug` writes it.
pub open spec fn ascii_debug_body(s: Seq<char>) -> Seq<char>
    decreases s.len(),
{
    if s.len() == 0 {
        Seq::empty()
    } else {
        ascii_debug_body(s.drop_last()) + ascii_debug_escape(s.last())
    }
}

/// What `format!("{:?}", s)` gives for text holding some non-ASCII
/// character: `s` in double quotes, with the escapes of `str`'s `Debug`.
pub uninterp spec fn debug_quoted(s: Seq<char>) -> Seq<char>;

/// What `format!("{:?}", s)` gives for a string: on ASCII text, `s` in
/// double quotes with each character written as `ascii_debug_escape`
/// says; on other text the named `debug_quoted`.
pub open spec fn debug_text(s: Seq<char>) -> Seq<char> {
    if all_ascii(s) {
        seq!['"'] + ascii_debug_body(s) + seq!['"']
    } else {
        debug_quoted(s)
    }
}

/// `<str as Debug>::fmt`, through `format!("{:?}", s)`. Claimed: the result
/// depends on `s` alone; on ASCII text it is `s` quoted with the escapes of
/// `ascii_debug_escape`; on other text it is only named.
#[verifier::external_body]
pub(crate) fn debug_quote(s: &str) -> (r: String)
    ensures
        r@ == debug_text(s@),
        !all_ascii(s@) ==> r@ == debug_quoted(s@),
{
    format!("{:?}", s)
}

// ---------------------------------------------------------------------------
// Conversions
// ---------------------------------------------------------------------------

/// The characters of `s`, in order.
pub fn chars_of(s: &str) -> (v: Vec<char>)
    ensures
        v@ == s@,
{
    let mut v: Vec<char> = Vec::new();
    for c in it: s.chars()
        invariant
            v@ == it.seq().take(it.index() as int),
    {
        v.push(c);
    }
    v
}

/// A `String` holding exactly the characters of `v`.
pub fn string_of(v: &[char]) -> (s: String)
    ensures
        s@ == v@,
{
    let mut s = String::new();
    push_all(&mut s, v);
    s
}

/// Appends the characters of `v` to `s`.
pub fn push_all(s: &mut String, v: &[char])
    ensures
        final(s)@ == old(s)@ + v@,
{
    let mut i: usize = 0;
    while i < v.len()
        invariant
            i <= v@.len(),
            s@ == old(s)@ + v@.take(i as int),
        decreases v@.len() - i,
    {
        push_char(s, v[i]);
        i = i + 1;
        assert(v@.take(i as int) == v@.take((i - 1) as int).push(v@[i - 1]));
    }
    assert(v@.take(v@.len() as int) == v@);
}

/// Appends the characters of `t` to `s`.
pub fn push_str(s: &mut String, t: &str)
    ensures
        final(s)@ == old(s)@ + t@,
{
    let v = chars_of(t);
    push_all(s, v.as_slice());
}

/// Appends one character to `s`.
pub fn push_one(s: &mut String, c: char)
    ensures
        final(s)@ == old(s)@.push(c),
{
    push_char(s, c);
}

/// The uppercase form of `v` (see `uppercase_of`).
pub fn to_uppercase(v: &[char]) -> (r: Vec<char>)
    ensures
        r@ == uppercase_of(v@),
{
    let s = string_of(v);
    let u = std_to_uppercase(s.as_str());
    chars_of(u.as_str())
}

/// The lowercase form of `v` (see `lowercase_of`).
pub fn to_lowercase(v: &[char]) -> (r: Vec<char>)
    ensures
        r@ == lowercase_of(v@),
{
    let s = string_of(v);
    let l = std_to_lowercase(s.as_str());
    chars_of(l.as_str())
}

/// The characters `s[lo..hi]`.
pub fn copy_range(s: &[char], lo: usize, hi: usize) -> (v: Vec<char>)
    requires
        lo <= hi <= s@.len(),
    ensures
        v@ == s@.subrange(lo as int, hi as int),
{
    let mut v: Vec<char> = Vec::new();
    let mut i: usize = lo;
    while i < hi
        invariant
            lo <= i <= hi <= s@.len(),
            v@ == s@.subrange(lo as int, i as int),
        decreases hi - i,
    {
        v.push(s[i]);
        i = i + 1;
    }
    v
}

/// Whether `a` and `b` hold the same characters.
pub fn same_chars(a: &[char], b: &[char]) -> (r: bool)
    ensures
        r == (a@ == b@),
{
    if a.len() != b.len() {
        return false;
    }
    let mut i: usize = 0;
    while i < a.len()
        invariant
            a@.len() == b@.len(),
            i <= a@.len(),
            forall|j: int| 0 <= j < i ==> a@[j] == b@[j],
        decreases a@.len() - i,
    {
        if a[i] != b[i] {
            return false;
        }
        i = i + 1;
    }
    assert(a@ =~= b@);
    true
}

// ---------------------------------------------------------------------------
// Character classes
// ---------------------------------------------------------------------------

/// `char::is_whitespace`.
pub fn is_whitespace(c: char) -> (r: bool)
    ensures
        r == is_ws(c),
{
    ('\u{9}' <= c && c <= '\u{d}') || c == ' ' || c == '\u{85}' || c == '\u{a0}' || c
        == '\u{1680}' || ('\u{2000}' <= c && c <= '\u{200a}') || c == '\u{2028}' || c
        == '\u{2029}' || c == '\u{202f}' || c == '\u{205f}' || c == '\u{3000}'
}

/// `char::is_ascii_digit`.
pub fn is_ascii_digit(c: char) -> (r: bool)
    ensures
        r == is_digit(c),
{
    '0' <= c && c <= '9'
}

/// `char::is_ascii_alphabetic`.
pub fn is_ascii_letter(c: char) -> (r: bool)
    ensures
        r == is_letter(c),
{
    ('a' <= c && c <= 'z') || ('A' <= c && c <= 'Z')
}

/// Whether `s` is a non-empty run of ASCII digits.
pub fn digits_only(s: &[char]) -> (r: bool)
    ensures
        r == all_digits(s@),
{
    if s.len() == 0 {
        return false;
    }
    let mut i: usize = 0;
    while i < s.len()
        invariant
            i <= s@.len(),
            forall|j: int| 0 <= j < i ==> is_digit(#[trigger] s@[j]),
        decreases s@.len() - i,
    {
        if !is_ascii_digit(s[i]) {
            return false;
        }
        i = i + 1;
    }
    true
}

// ---------------------------------------------------------------------------
// Trimming
// ---------------------------------------------------------------------------

/// The length of `s` once its trailing whitespace is dropped.
pub fn trim_end_len(s: &[char]) -> (n: usize)
    ensures
        n <= s@.len(),
        s@.take(n as int) == trim_end(s@),
{
    let mut n: usize = s.len();
    assert(s@.take(n as int) == s@);
    while n > 0 && is_whitespace(s[n - 1])
        invariant
            n <= s@.len(),
            trim_end(s@) == trim_end(s@.take(n as int)),
        decreases n,
    {
        assert(s@.take(n as int).drop_last() == s@.take((n - 1) as int));
        n = n - 1;
    }
    n
}

/// Where `s[lo..hi]` starts once its leading whitespace is dropped.
pub fn skip_ws(s: &[char], lo: usize, hi: usize) -> (k: usize)
    requires
        lo <= hi <= s@.len(),
    ensures
        lo <= k <= hi,
        s@.subrange(k as int, hi as int) == trim_start(s@.subrange(lo as int, hi as int)),
{
    let mut k: usize = lo;
    while k < hi && is_whitespace(s[k])
        invariant
            lo <= k <= hi <= s@.len(),
            trim_start(s@.subrange(lo as int, hi as int)) == trim_start(
                s@.subrange(k as int, hi as int),
            ),
        decreases hi - k,
    {
        assert(s@.subrange(k as int, hi as int).drop_first() == s@.subrange(
            k + 1,
            hi as int,
        ));
        k = k + 1;
    }
    k
}

/// `s` without trailing whitespace.
pub fn trim_end_chars(s: &[char]) -> (v: Vec<char>)
    ensures
        v@ == trim_end(s@),
{
    let n = trim_end_len(s);
    copy_range(s, 0, n)
}

/// `s` without leading and trailing whitespace.
pub fn trim_chars(s: &[char]) -> (v: Vec<char>)
    ensures
        v@ == trim(s@),
{
    let n = trim_end_len(s);
    let k = skip_ws(s, 0, n);
    assert(s@.subrange(0, n as int) == s@.take(n as int));
    copy_range(s, k, n)
}

// ---------------------------------------------------------------------------
// Splitting and joining
// ---------------------------------------------------------------------------

/// The pieces of `s` between occurrences of `sep` (`str::split`).
pub fn split_chars(s: &[char], sep: char) -> (parts: Vec<Vec<char>>)
    ensures
        views(parts@) == split_on(s@, sep),
{
    let mut done: Vec<Vec<char>> = Vec::new();
    let mut cur: Vec<char> = Vec::new();
    let mut i: usize = 0;
    assert(s@.take(0) == Seq::<char>::empty());
    assert(views(done@).push(cur@) == split_on(s@.take(0), sep));
    while i < s.len()
        invariant
            i <= s@.len(),
            views(done@).push(cur@) == split_on(s@.take(i as int), sep),
        decreases s@.len() - i,
    {
        let c = s[i];
        assert(s@.take(i + 1).drop_last() == s@.take(i as int));
        assert(s@.take(i + 1).last() == c);
        if c == sep {
            done.push(cur);
            cur = Vec::new();
            assert(views(done@).push(cur@) =~= split_on(s@.take(i + 1), sep));
        } else {
            cur.push(c);
            assert(views(done@).push(cur@) =~= split_on(s@.take(i + 1), sep));
        }
        i = i + 1;
    }
    assert(s@.take(s@.len() as int) == s@);
    done.push(cur);
    done
}

/// `parts` joined with one `sep` between neighbours.
pub fn join_chars(parts: &Vec<Vec<char>>, sep: char) -> (v: Vec<char>)
    ensures
        v@ == join(views(parts@), sep),
{
    let mut v: Vec<char> = Vec::new();
    let mut i: usize = 0;
    while i < parts.len()
        invariant
            i <= parts@.len(),
            v@ == join(views(parts@).take(i as int), sep),
        decreases parts@.len() - i,
    {
        let ghost prev = v@;
        if i > 0 {
            v.push(sep);
        }
        let p = &parts[i];
        let mut j: usize = 0;
        while j < p.len()
            invariant
                j <= p@.len(),
                v@ == (if i > 0 { prev.push(sep) } else { prev }) + p@.take(j as int),
            decreases p@.len() - j,
        {
            v.push(p[j]);
            j = j + 1;
            assert(p@.take(j as int) == p@.take((j - 1) as int).push(p@[j - 1]));
        }
        assert(p@.take(p@.len() as int) == p@);
        assert(views(parts@).take(i + 1).drop_last() == views(parts@).take(i as int));
        assert(views(parts@).take(i + 1).last() == p@);
        if i == 0 {
            assert(views(parts@).take(1) == seq![p@]);
        }
        i = i + 1;
    }
    assert(views(parts@).take(parts@.len() as int) == views(parts@));
    v
}

/// The whitespace-separated words of `s` (`str::split_whitespace`).
pub fn split_words(s: &[char]) -> (words: Vec<Vec<char>>)
    ensures
        views(words@) == words_of(s@),
{
    let ghost keep = |c: char| !is_ws(c);
    let mut done: Vec<Vec<char>> = Vec::new();
    let mut cur: Vec<char> = Vec::new();
    let mut i: usize = 0;
    assert(s@.take(0) == Seq::<char>::empty());
    while i < s.len()
        invariant
            i <= s@.len(),
            keep == (|c: char| !is_ws(c)),
            runs(s@.take(i as int), keep) == (if cur@.len() > 0 {
                views(done@).push(cur@)
            } else {
                views(done@)
            }),
            cur@.len() > 0 <==> (i > 0 && !is_ws(s@[i - 1])),
        decreases s@.len() - i,
    {
        let c = s[i];
        assert(s@.take(i + 1).drop_last() == s@.take(i as int));
        assert(s@.take(i + 1).last() == c);
        if i > 0 {
            assert(s@.take(i + 1)[i - 1] == s@[i - 1]);
        }
        if is_whitespace(c) {
            if cur.len() > 0 {
                done.push(cur);
                cur = Vec::new();
            }
            assert(runs(s@.take(i + 1), keep) =~= views(done@));
        } else {
            cur.push(c);
            if cur.len() == 1 {
                assert(cur@ =~= seq![c]);
            }
            assert(runs(s@.take(i + 1), keep) =~= views(done@).push(cur@));
        }
        i = i + 1;
    }
    assert(s@.take(s@.len() as int) == s@);
    if cur.len() > 0 {
        done.push(cur);
    }
    assert(views(done@) =~= words_of(s@));
    done
}

/// The lines of `s` (`str::lines`).
pub fn split_lines(s: &[char]) -> (lines: Vec<Vec<char>>)
    ensures
        views(lines@) == lines_of(s@),
{
    let parts = split_chars(s, '\n');
    let ghost p = split_on(s@, '\n');
    proof {
        lemma_split_on_nonempty(s@, '\n');
    }
    let n = parts.len() - 1;
    let mut lines: Vec<Vec<char>> = Vec::new();
    let mut i: usize = 0;
    while i < n
        invariant
            n + 1 == parts@.len(),
            p == views(parts@),
            i <= n,
            views(lines@) == strip_crs(p.drop_last()).take(i as int),
        decreases n - i,
    {
        let l = &parts[i];
        let mut k = l.len();
        if k > 0 && l[k - 1] == '\r' {
            k = k - 1;
        }
        let piece = copy_range(l.as_slice(), 0, k);
        assert(piece@ == strip_cr(l@));
        assert(p[i as int] == l@);
        assert(strip_crs(p.drop_last())[i as int] == piece@);
        let ghost before = views(lines@);
        let ghost pv = piece@;
        lines.push(piece);
        assert(views(lines@) =~= before.push(pv));
        assert(strip_crs(p.drop_last()).take(i + 1) =~= strip_crs(p.drop_last()).take(
            i as int,
        ).push(pv));
        i = i + 1;
        assert(views(lines@) =~= strip_crs(p.drop_last()).take(
            i as int,
        ));
    }
    assert(strip_crs(p.drop_last()).take(n as int) =~= strip_crs(p.drop_last()));
    let last = &parts[n];
    if last.len() > 0 {
        let piece = copy_range(last.as_slice(), 0, last.len());
        lines.push(piece);
    }
    assert(views(lines@) =~= lines_of(s@));
    lines
}

/// `split_on` always yields at least one piece.
pub proof fn lemma_split_on_nonempty<T>(s: Seq<T>, sep: T)
    ensures
        split_on(s, sep).len() >= 1,
    decreases s.len(),
{
    if s.len() > 0 {
        lemma_split_on_nonempty(s.drop_last(), sep);
    }
}

/// The trimmed, non-blank lines of `s`.
pub fn content_lines_of(s: &[char]) -> (lines: Vec<Vec<char>>)
    ensures
        views(lines@) == content_lines(s@),
{
    let raw = split_lines(s);
    let ghost trimmed = views(raw@).map_values(|l: Seq<char>| trim(l));
    let ghost pred = |t: Seq<char>| t.len() > 0;
    let mut out: Vec<Vec<char>> = Vec::new();
    let mut i: usize = 0;
    assert(trimmed.take(0) =~= Seq::<Seq<char>>::empty());
    proof {
        reveal(Seq::filter);
    }
    while i < raw.len()
        invariant
            i <= raw@.len(),
            trimmed == views(raw@).map_values(|l: Seq<char>| trim(l)),
            pred == (|t: Seq<char>| t.len() > 0),
            views(out@) == trimmed.take(i as int).filter(pred),
        decreases raw@.len() - i,
    {
        let t = trim_chars(raw[i].as_slice());
        proof {
            assert(trimmed.take(i + 1) == trimmed.take(i as int).push(t@));
            trimmed.take(i as int).lemma_filter_push(t@, pred);
        }
        if t.len() > 0 {
            out.push(t);
        }
        i = i + 1;
        assert(views(out@) =~= trimmed.take(i as int).filter(pred));
    }
    assert(trimmed.take(raw@.len() as int) == trimmed);
    out
}

/// The position of the last `c` in `s` (`str::rfind`, counted in characters).
pub fn find_last(s: &[char], c: char) -> (r: Option<usize>)
    ensures
        r matches Some(i) ==> last_index_of(s@, c) == Some(i as int) && i < s@.len(),
        r is None ==> last_index_of(s@, c) is None,
{
    let mut n: usize = s.len();
    assert(s@.take(n as int) == s@);
    while n > 0
        invariant
            n <= s@.len(),
            last_index_of(s@, c) == last_index_of(s@.take(n as int), c),
        decreases n,
    {
        if s[n - 1] == c {
            return Some(n - 1);
        }
        assert(s@.take(n as int).drop_last() == s@.take((n - 1) as int));
        n = n - 1;
    }
    None
}

/// What `first_index_of` finds: the first occurrence, or none at all.
pub proof fn lemma_first_index_of(s: Seq<char>, c: char)
    ensures
        first_index_of(s, c) matches Some(k) ==> {
            &&& 0 <= k < s.len()
            &&& s[k] == c
            &&& forall|j: int| 0 <= j < k ==> s[j] != c
        },
        first_index_of(s, c) is None ==> forall|j: int| 0 <= j < s.len() ==> s[j] != c,
    decreases s.len(),
{
    if s.len() > 0 {
        lemma_first_index_of(s.drop_first(), c);
        if s[0] != c {
            assert forall|j: int| 1 <= j < s.len() implies s[j] == s.drop_first()[j - 1] by {}
        }
    }
}

/// The position of the first `c` in `s` (`str::find`, counted in characters).
pub fn find_first(s: &[char], c: char) -> (r: Option<usize>)
    ensures
        r matches Some(i) ==> first_index_of(s@, c) == Some(i as int) && i < s@.len(),
        r is None ==> first_index_of(s@, c) is None,
{
    let mut i: usize = 0;
    while i < s.len()
        invariant
            i <= s@.len(),
            forall|j: int| 0 <= j < i ==> s@[j] != c,
        decreases s@.len() - i,
    {
        if s[i] == c {
            proof {
                lemma_first_index_of(s@, c);
                if first_index_of(s@, c) != Some(i as int) {
                    assert(s@[i as int] == c);
                }
            }
            return Some(i);
        }
        i = i + 1;
    }
    proof {
        lemma_first_index_of(s@, c);
    }
    None
}

/// The position of the first whitespace character in `s`.
pub fn find_first_ws(s: &[char]) -> (r: Option<usize>)
    ensures
        r matches Some(i) ==> first_ws_index(s@) == Some(i as int) && i < s@.len(),
        r is None ==> first_ws_index(s@) is None,
{
    let mut i: usize = 0;
    while i < s.len()
        invariant
            i <= s@.len(),
            first_ws_index(s@) == (match first_ws_index(s@.skip(i as int)) {
                Some(k) => Some(k + i),
                None => None,
            }),
        decreases s@.len() - i,
    {
        assert(s@.skip(i as int)[0] == s@[i as int]);
        if is_whitespace(s[i]) {
            return Some(i);
        }
        assert(s@.skip(i as int).drop_first() == s@.skip(i + 1));
        i = i + 1;
    }
    None
}

/// `s` with its whitespace characters removed.
pub fn remove_ws(s: &[char]) -> (r: Vec<char>)
    ensures
        r@ == without_ws(s@),
{
    let ghost pred = |c: char| !is_ws(c);
    let mut out: Vec<char> = Vec::new();
    let mut i: usize = 0;
    proof {
        reveal(Seq::filter);
    }
    assert(s@.take(0) =~= Seq::<char>::empty());
    while i < s.len()
        invariant
            i <= s@.len(),
            pred == (|c: char| !is_ws(c)),
            out@ == s@.take(i as int).filter(pred),
        decreases s@.len() - i,
    {
        proof {
            assert(s@.take(i + 1) == s@.take(i as int).push(s@[i as int]));
            s@.take(i as int).lemma_filter_push(s@[i as int], pred);
        }
        if !is_whitespace(s[i]) {
            out.push(s[i]);
        }
        i = i + 1;
    }
    assert(s@.take(s@.len() as int) == s@);
    out
}

/// The position of the last whitespace character in `s[..n]`.
pub fn find_last_ws(s: &[char], n: usize) -> (r: Option<usize>)
    requires
        n <= s@.len(),
    ensures
        r matches Some(i) ==> last_ws_index(s@.take(n as int)) == Some(i as int) && i < n,
        r is None ==> last_ws_index(s@.take(n as int)) is None,
{
    let mut m: usize = n;
    while m > 0
        invariant
            m <= n <= s@.len(),
            last_ws_index(s@.take(n as int)) == last_ws_index(s@.take(m as int)),
        decreases m,
    {
        if is_whitespace(s[m - 1]) {
            return Some(m - 1);
        }
        assert(s@.take(m as int).drop_last() == s@.take((m - 1) as int));
        m = m - 1;
    }
    None
}

// ---------------------------------------------------------------------------
// Facts
// ---------------------------------------------------------------------------

/// `x` occurs nowhere in `s`.
pub open spec fn lacks<T>(s: Seq<T>, x: T) -> bool {
    forall|j: int| 0 <= j < s.len() ==> #[trigger] s[j] != x
}

/// `s` neither starts nor ends with whitespace.
pub open spec fn is_trimmed(s: Seq<char>) -> bool {
    s.len() > 0 ==> !is_ws(s[0]) && !is_ws(s.last())
}

/// The pieces of `split_on` hold no separator.
pub proof fn lemma_split_on_pieces<T>(s: Seq<T>, sep: T)
    ensures
        split_on(s, sep).len() >= 1,
        forall|i: int| 0 <= i < split_on(s, sep).len() ==> lacks(#[trigger] split_on(s, sep)[i], sep),
    decreases s.len(),
{
    if s.len() > 0 {
        lemma_split_on_pieces(s.drop_last(), sep);
        let p = split_on(s.drop_last(), sep);
        if s.last() != sep {
            assert forall|i: int| 0 <= i < split_on(s, sep).len() implies lacks(
                #[trigger] split_on(s, sep)[i],
                sep,
            ) by {
                if i == p.len() - 1 {
                    assert(lacks(p[i], sep));
                    assert forall|j: int| 0 <= j < split_on(s, sep)[i].len() implies #[trigger] split_on(
                        s,
                        sep,
                    )[i][j] != sep by {
                        if j < p[i].len() {
                            assert(split_on(s, sep)[i][j] == p[i][j]);
                        }
                    }
                }
            }
        } else {
            assert forall|i: int| 0 <= i < split_on(s, sep).len() implies lacks(
                #[trigger] split_on(s, sep)[i],
                sep,
            ) by {
                if i < p.len() {
                    assert(split_on(s, sep)[i] == p[i]);
                }
            }
        }
    }
}

/// A sequence without the separator is one piece.
pub proof fn lemma_split_on_lacking<T>(s: Seq<T>, sep: T)
    requires
        lacks(s, sep),
    ensures
        split_on(s, sep) == seq![s],
    decreases s.len(),
{
    if s.len() > 0 {
        let d = s.drop_last();
        assert forall|j: int| 0 <= j < d.len() implies #[trigger] d[j] != sep by {
            assert(d[j] == s[j]);
        }
        lemma_split_on_lacking(d, sep);
        assert(s[s.len() - 1] != sep);
        assert(d.push(s.last()) =~= s);
        assert(split_on(s, sep) =~= seq![s]);
    } else {
        assert(s =~= Seq::<T>::empty());
    }
}

/// Appending separator-free text extends the last piece.
pub proof fn lemma_split_on_append<T>(a: Seq<T>, y: Seq<T>, sep: T)
    requires
        lacks(y, sep),
    ensures
        split_on(a + y, sep) == split_on(a, sep).update(
            split_on(a, sep).len() - 1,
            split_on(a, sep).last() + y,
        ),
    decreases y.len(),
{
    lemma_split_on_pieces(a, sep);
    let p = split_on(a, sep);
    if y.len() == 0 {
        assert(a + y =~= a);
        assert(p.last() + y =~= p.last());
        assert(p.update(p.len() - 1, p.last()) =~= p);
    } else {
        let d = y.drop_last();
        assert forall|j: int| 0 <= j < d.len() implies #[trigger] d[j] != sep by {
            assert(d[j] == y[j]);
        }
        lemma_split_on_append(a, d, sep);
        assert((a + y).drop_last() =~= a + d);
        assert((a + y).last() == y.last());
        assert(y[y.len() - 1] != sep);
        let q = split_on(a + d, sep);
        assert(q == p.update(p.len() - 1, p.last() + d));
        assert((p.last() + d).push(y.last()) =~= p.last() + y);
        assert(split_on(a + y, sep) =~= p.update(p.len() - 1, p.last() + y));
    }
}

/// Splitting a join of separator-free parts gives the parts back.
pub proof fn lemma_split_on_join<T>(ps: Seq<Seq<T>>, sep: T)
    requires
        ps.len() >= 1,
        forall|i: int| 0 <= i < ps.len() ==> lacks(#[trigger] ps[i], sep),
    ensures
        split_on(join(ps, sep), sep) == ps,
    decreases ps.len(),
{
    if ps.len() == 1 {
        lemma_split_on_lacking(ps[0], sep);
        assert(ps =~= seq![ps[0]]);
    } else {
        let init = ps.drop_last();
        assert(forall|i: int| 0 <= i < init.len() ==> #[trigger] init[i] == ps[i]);
        lemma_split_on_join(init, sep);
        let x = join(init, sep);
        assert(lacks(ps.last(), sep));
        lemma_split_on_append(x.push(sep), ps.last(), sep);
        assert(x.push(sep).drop_last() =~= x);
        assert(split_on(x.push(sep), sep) == init.push(Seq::<T>::empty()));
        assert(Seq::<T>::empty() + ps.last() =~= ps.last());
        assert(split_on(join(ps, sep), sep) =~= ps);
    }
}

/// The lines of text made of lines joined with `\n`.
pub proof fn lemma_lines_of_join(ls: Seq<Seq<char>>)
    requires
        ls.len() >= 1,
        forall|i: int| 0 <= i < ls.len() ==> lacks(#[trigger] ls[i], '\n'),
        ls.last().len() > 0,
    ensures
        lines_of(join(ls, '\n')) == strip_crs(ls.drop_last()).push(ls.last()),
{
    lemma_split_on_join(ls, '\n');
}

/// The lines of `s` hold no `\n`.
pub proof fn lemma_lines_of_lack_newline(s: Seq<char>)
    ensures
        forall|i: int| 0 <= i < lines_of(s).len() ==> lacks(#[trigger] lines_of(s)[i], '\n'),
{
    let p = split_on(s, '\n');
    lemma_split_on_pieces(s, '\n');
    assert forall|i: int| 0 <= i < lines_of(s).len() implies lacks(#[trigger] lines_of(s)[i], '\n') by {
        if i < p.len() - 1 {
            assert(lines_of(s)[i] == strip_cr(p[i]));
            assert(lacks(p[i], '\n'));
            assert forall|j: int| 0 <= j < strip_cr(p[i]).len() implies #[trigger] strip_cr(p[i])[j]
                != '\n' by {
                assert(strip_cr(p[i])[j] == p[i][j]);
            }
        } else {
            assert(lines_of(s)[i] == p.last());
            assert(lacks(p[p.len() - 1], '\n'));
        }
    }
}

/// `trim_end(s)` is a prefix of `s`, ending (if not empty) in a
/// non-whitespace character.
pub proof fn lemma_trim_end(s: Seq<char>)
    ensures
        trim_end(s).len() <= s.len(),
        trim_end(s) == s.take(trim_end(s).len() as int),
        trim_end(s).len() > 0 ==> !is_ws(trim_end(s).last()),
    decreases s.len(),
{
    if s.len() > 0 && is_ws(s.last()) {
        lemma_trim_end(s.drop_last());
        assert(s.drop_last().take(trim_end(s).len() as int) =~= s.take(trim_end(s).len() as int));
    } else {
        assert(s.take(s.len() as int) =~= s);
    }
}

/// `trim_start(s)` is a suffix of `s`, starting (if not empty) with a
/// non-whitespace character.
pub proof fn lemma_trim_start(s: Seq<char>)
    ensures
        trim_start(s).len() <= s.len(),
        trim_start(s) == s.skip(s.len() - trim_start(s).len()),
        trim_start(s).len() > 0 ==> !is_ws(trim_start(s)[0]),
    decreases s.len(),
{
    if s.len() > 0 && is_ws(s[0]) {
        lemma_trim_start(s.drop_first());
        assert(s.drop_first().skip(s.drop_first().len() - trim_start(s).len()) =~= s.skip(
            s.len() - trim_start(s).len(),
        ));
    } else {
        assert(s.skip(0) =~= s);
    }
}

/// Where `trim(s)` starts in `s`.
pub open spec fn trim_offset(s: Seq<char>) -> int {
    trim_end(s).len() - trim(s).len()
}

/// `trim(s)` is a stretch of `s` that neither starts nor ends with
/// whitespace.
pub proof fn lemma_trim(s: Seq<char>)
    ensures
        is_trimmed(trim(s)),
        0 <= trim_offset(s),
        trim_offset(s) + trim(s).len() <= s.len(),
        s.subrange(trim_offset(s), trim_offset(s) + trim(s).len()) == trim(s),
{
    let t = trim_end(s);
    lemma_trim_end(s);
    lemma_trim_start(t);
    let n = t.len() as int;
    let m = trim(s).len() as int;
    assert(t.skip(n - m) =~= s.subrange(n - m, n));
    if m > 0 {
        assert(trim(s).last() == t[n - 1]);
    }
}

/// Text that neither starts nor ends with whitespace is its own trim.
pub proof fn lemma_trim_fixed(s: Seq<char>)
    requires
        is_trimmed(s),
    ensures
        trim(s) == s,
{
}

/// A `\r` before the line end is trimmed away anyway.
pub proof fn lemma_trim_strip_cr(l: Seq<char>)
    ensures
        trim(strip_cr(l)) == trim(l),
{
}

/// A stretch of `s` lacks what `s` lacks.
pub proof fn lemma_subrange_lacks<T>(s: Seq<T>, x: T, i: int, j: int)
    requires
        lacks(s, x),
        0 <= i <= j <= s.len(),
    ensures
        lacks(s.subrange(i, j), x),
{
    assert forall|k: int| 0 <= k < s.subrange(i, j).len() implies #[trigger] s.subrange(i, j)[k]
        != x by {
        assert(s.subrange(i, j)[k] == s[i + k]);
    }
}

/// Filtering keeps a sequence whose items all pass.
pub proof fn lemma_filter_all<T>(s: Seq<T>, pred: spec_fn(T) -> bool)
    requires
        forall|i: int| 0 <= i < s.len() ==> pred(#[trigger] s[i]),
    ensures
        s.filter(pred) == s,
    decreases s.len(),
{
    reveal(Seq::filter);
    if s.len() > 0 {
        lemma_filter_all(s.drop_last(), pred);
        assert(s.drop_last().push(s.last()) =~= s);
    }
}

/// The content lines of `s` are non-empty, trimmed, and hold no `\n`.
pub proof fn lemma_content_lines(s: Seq<char>)
    ensures
        forall|i: int|
            0 <= i < content_lines(s).len() ==> {
                &&& (#[trigger] content_lines(s)[i]).len() > 0
                &&& is_trimmed(content_lines(s)[i])
                &&& lacks(content_lines(s)[i], '\n')
            },
{
    let m = lines_of(s).map_values(|l: Seq<char>| trim(l));
    let pred = |t: Seq<char>| t.len() > 0;
    lemma_lines_of_lack_newline(s);
    assert forall|i: int| 0 <= i < content_lines(s).len() implies {
        &&& (#[trigger] content_lines(s)[i]).len() > 0
        &&& is_trimmed(content_lines(s)[i])
        &&& lacks(content_lines(s)[i], '\n')
    } by {
        let x = content_lines(s)[i];
        assert(m.filter(pred).contains(x));
        m.lemma_filter_contains_rev(pred, x);
        m.lemma_filter_pred(pred, i);
        let j = choose|j: int| 0 <= j < m.len() && m[j] == x;
        let l = lines_of(s)[j];
        assert(x == trim(l));
        lemma_trim(l);
        assert(lacks(l, '\n'));
        lemma_subrange_lacks(l, '\n', trim_offset(l), trim_offset(l) + trim(l).len());
    }
}

/// A run of kept items is one run.
pub proof fn lemma_runs_all<T>(s: Seq<T>, keep: spec_fn(T) -> bool)
    requires
        s.len() > 0,
        forall|i: int| 0 <= i < s.len() ==> keep(#[trigger] s[i]),
    ensures
        runs(s, keep) == seq![s],
    decreases s.len(),
{
    if s.len() > 1 {
        let d = s.drop_last();
        assert forall|i: int| 0 <= i < d.len() implies keep(#[trigger] d[i]) by {
            assert(d[i] == s[i]);
        }
        lemma_runs_all(d, keep);
        assert(keep(s[s.len() - 2]));
        assert(keep(s[s.len() - 1]));
        assert(d.push(s.last()) =~= s);
        assert(runs(s, keep) =~= seq![s]);
    } else {
        assert(keep(s[0]));
        assert(s.drop_last() =~= Seq::<T>::empty());
        assert(runs(s.drop_last(), keep) == Seq::<Seq<T>>::empty());
        assert(seq![s.last()] =~= s);
        assert(runs(s, keep) =~= seq![s]);
    }
}

/// A run of kept items after a dropped item (or at the start) is a new run.
pub proof fn lemma_runs_append<T>(y: Seq<T>, b: Seq<T>, keep: spec_fn(T) -> bool)
    requires
        y.len() == 0 || !keep(y.last()),
        b.len() > 0,
        forall|i: int| 0 <= i < b.len() ==> keep(#[trigger] b[i]),
    ensures
        runs(y + b, keep) == runs(y, keep).push(b),
    decreases b.len(),
{
    if b.len() == 1 {
        assert((y + b).drop_last() =~= y);
        assert((y + b).last() == b[0]);
        if y.len() > 0 {
            assert((y + b)[(y + b).len() - 2] == y.last());
        }
        assert(seq![b[0]] =~= b);
    } else {
        let b0 = b.drop_last();
        assert(forall|i: int| 0 <= i < b0.len() ==> #[trigger] b0[i] == b[i]);
        lemma_runs_append(y, b0, keep);
        assert((y + b).drop_last() =~= y + b0);
        assert((y + b).last() == b.last());
        assert((y + b)[(y + b).len() - 2] == b[b.len() - 2]);
        assert(keep(b[b.len() - 2]));
        assert(b0.push(b.last()) =~= b);
        assert(runs(y + b, keep) =~= runs(y, keep).push(b));
    }
}


/// Joining the pieces of a split gives the text back.
pub proof fn lemma_join_split<T>(s: Seq<T>, sep: T)
    ensures
        join(split_on(s, sep), sep) == s,
    decreases s.len(),
{
    if s.len() == 0 {
        assert(split_on(s, sep) == seq![Seq::<T>::empty()]);
        assert(s =~= Seq::<T>::empty());
    } else {
        let d = s.drop_last();
        lemma_join_split(d, sep);
        lemma_split_on_pieces(d, sep);
        let p = split_on(d, sep);
        if s.last() == sep {
            assert(p.push(Seq::empty()).drop_last() =~= p);
            assert(join(p.push(Seq::empty()), sep) =~= join(p, sep).push(sep));
            assert(d.push(sep) =~= s);
        } else {
            lemma_join_extend_last(p, seq![s.last()], sep);
            assert(p.last().push(s.last()) =~= p.last() + seq![s.last()]);
            assert(d + seq![s.last()] =~= s);
        }
    }
}

/// Extending the last part extends the join.
pub proof fn lemma_join_extend_last<T>(ps: Seq<Seq<T>>, y: Seq<T>, sep: T)
    requires
        ps.len() >= 1,
    ensures
        join(ps.update(ps.len() - 1, ps.last() + y), sep) == join(ps, sep) + y,
{
    let q = ps.update(ps.len() - 1, ps.last() + y);
    if ps.len() == 1 {
        assert(q[0] == ps[0] + y);
    } else {
        assert(q.drop_last() =~= ps.drop_last());
        assert(join(q, sep) =~= join(ps, sep) + y);
    }
}

/// A join starts with its first part, followed by the separator when
/// there are more parts.
pub proof fn lemma_join_prefix<T>(ps: Seq<Seq<T>>, sep: T)
    requires
        ps.len() >= 1,
    ensures
        join(ps, sep).len() >= ps[0].len(),
        forall|j: int| 0 <= j < ps[0].len() ==> #[trigger] join(ps, sep)[j] == ps[0][j],
        ps.len() > 1 ==> join(ps, sep).len() > ps[0].len() && join(ps, sep)[ps[0].len() as int]
            == sep,
    decreases ps.len(),
{
    if ps.len() > 1 {
        let d = ps.drop_last();
        lemma_join_prefix(d, sep);
        assert(d[0] == ps[0]);
        let x = join(d, sep);
        assert(join(ps, sep) == x.push(sep) + ps.last());
        assert forall|j: int| 0 <= j < ps[0].len() implies #[trigger] join(ps, sep)[j] == ps[0][j] by {
            assert(join(ps, sep)[j] == x[j]);
        }
        if d.len() > 1 {
            assert(join(ps, sep)[ps[0].len() as int] == x[ps[0].len() as int]);
        } else {
            assert(x == ps[0]);
        }
    }
}

/// A join lacks what its parts and separator lack.
pub proof fn lemma_join_lacks<T>(ps: Seq<Seq<T>>, sep: T, x: T)
    requires
        sep != x,
        forall|i: int| 0 <= i < ps.len() ==> lacks(#[trigger] ps[i], x),
    ensures
        lacks(join(ps, sep), x),
    decreases ps.len(),
{
    if ps.len() > 1 {
        let d = ps.drop_last();
        assert(forall|i: int| 0 <= i < d.len() ==> #[trigger] d[i] == ps[i]);
        lemma_join_lacks(d, sep, x);
        let j = join(d, sep);
        assert(lacks(ps.last(), x));
        assert forall|k: int| 0 <= k < join(ps, sep).len() implies #[trigger] join(ps, sep)[k]
            != x by {
            if k < j.len() {
                assert(join(ps, sep)[k] == j[k]);
            } else if k > j.len() {
                assert(join(ps, sep)[k] == ps.last()[k - j.len() - 1]);
            }
        }
    } else if ps.len() == 1 {
        assert(lacks(ps[0], x));
    }
}

/// The pieces of a split lack what the text lacks.
pub proof fn lemma_split_on_pieces_lack<T>(s: Seq<T>, sep: T, x: T)
    requires
        lacks(s, x),
    ensures
        forall|i: int| 0 <= i < split_on(s, sep).len() ==> lacks(#[trigger] split_on(s, sep)[i], x),
    decreases s.len(),
{
    if s.len() > 0 {
        let d = s.drop_last();
        assert forall|j: int| 0 <= j < d.len() implies #[trigger] d[j] != x by {
            assert(d[j] == s[j]);
        }
        lemma_split_on_pieces_lack(d, sep, x);
        lemma_split_on_pieces(d, sep);
        let p = split_on(d, sep);
        assert(s[s.len() - 1] != x);
        assert forall|i: int| 0 <= i < split_on(s, sep).len() implies lacks(
            #[trigger] split_on(s, sep)[i],
            x,
        ) by {
            if i < p.len() && !(s.last() != sep && i == p.len() - 1) {
                assert(split_on(s, sep)[i] == p[i]);
            } else if i < p.len() {
                assert(lacks(p[i], x));
                assert forall|k: int| 0 <= k < split_on(s, sep)[i].len() implies #[trigger] split_on(
                    s,
                    sep,
                )[i][k] != x by {
                    if k < p[i].len() {
                        assert(split_on(s, sep)[i][k] == p[i][k]);
                    }
                }
            }
        }
    }
}

/// `last_index_of` finds a marker followed only by text without it.
pub proof fn lemma_last_index_after(a: Seq<char>, c: char, b: Seq<char>)
    requires
        lacks(b, c),
    ensures
        last_index_of(a.push(c) + b, c) == Some(a.len() as int),
    decreases b.len(),
{
    if b.len() == 0 {
        assert(a.push(c) + b =~= a.push(c));
    } else {
        let d = b.drop_last();
        assert forall|j: int| 0 <= j < d.len() implies #[trigger] d[j] != c by {
            assert(d[j] == b[j]);
        }
        lemma_last_index_after(a, c, d);
        assert((a.push(c) + b).drop_last() =~= a.push(c) + d);
        assert(b[b.len() - 1] != c);
    }
}

/// A single space in front of trimmed text is trimmed away.
pub proof fn lemma_trim_lead_space(x: Seq<char>)
    requires
        x.len() > 0,
        is_trimmed(x),
    ensures
        trim(seq![' '] + x) == x,
{
    let y = seq![' '] + x;
    assert(y.last() == x.last());
    assert(trim_end(y) == y);
    assert(y.drop_first() =~= x);
    assert(trim_start(y) == trim_start(x));
}


/// A separator joins the pieces of the text before it and after it.
pub proof fn lemma_split_on_concat<T>(a: Seq<T>, b: Seq<T>, sep: T)
    ensures
        split_on(a.push(sep) + b, sep) == split_on(a, sep) + split_on(b, sep),
    decreases b.len(),
{
    if b.len() == 0 {
        assert(a.push(sep) + b =~= a.push(sep));
        assert(a.push(sep).drop_last() =~= a);
        assert(split_on(b, sep) == seq![Seq::<T>::empty()]);
        assert(split_on(a, sep) + split_on(b, sep) =~= split_on(a, sep).push(Seq::empty()));
    } else {
        let d = b.drop_last();
        lemma_split_on_concat(a, d, sep);
        lemma_split_on_pieces(d, sep);
        assert((a.push(sep) + b).drop_last() =~= a.push(sep) + d);
        assert((a.push(sep) + b).last() == b.last());
        let p = split_on(a, sep);
        let q = split_on(d, sep);
        if b.last() == sep {
            assert(split_on(a.push(sep) + b, sep) =~= p + q.push(Seq::empty()));
        } else {
            assert((p + q).last() == q.last());
            assert(split_on(a.push(sep) + b, sep) =~= p + q.update(q.len() - 1, q.last().push(b.last())));
        }
    }
}

/// A run of kept items ending the sequence makes a run.
pub proof fn lemma_runs_nonempty<T>(s: Seq<T>, keep: spec_fn(T) -> bool)
    requires
        s.len() > 0,
        keep(s.last()),
    ensures
        runs(s, keep).len() > 0,
    decreases s.len(),
{
    if s.len() > 1 && keep(s[s.len() - 2]) {
        lemma_runs_nonempty(s.drop_last(), keep);
    }
}

/// Whitespace around `s` does not change its words.
pub proof fn lemma_words_of_trim(s: Seq<char>)
    ensures
        words_of(trim(s)) == words_of(s),
{
    lemma_words_of_trim_end(s);
    lemma_words_of_trim_start(trim_end(s));
}

proof fn lemma_words_of_trim_end(s: Seq<char>)
    ensures
        words_of(trim_end(s)) == words_of(s),
    decreases s.len(),
{
    if s.len() > 0 && is_ws(s.last()) {
        lemma_words_of_trim_end(s.drop_last());
    }
}

proof fn lemma_words_of_trim_start(s: Seq<char>)
    ensures
        words_of(trim_start(s)) == words_of(s),
    decreases s.len(),
{
    if s.len() > 0 && is_ws(s[0]) {
        let keep = |c: char| !is_ws(c);
        let y = s.drop_first();
        lemma_words_of_trim_start(y);
        lemma_runs_break(Seq::<char>::empty(), s[0], y, keep);
        assert(Seq::<char>::empty().push(s[0]) + y =~= s);
        assert(runs(Seq::<char>::empty(), keep) + runs(y, keep) =~= runs(y, keep));
    }
}

/// A dropped item separates the runs before it from those after it.
pub proof fn lemma_runs_break<T>(x: Seq<T>, d: T, y: Seq<T>, keep: spec_fn(T) -> bool)
    requires
        !keep(d),
    ensures
        runs(x.push(d) + y, keep) == runs(x, keep) + runs(y, keep),
    decreases y.len(),
{
    let z = x.push(d) + y;
    if y.len() == 0 {
        assert(z =~= x.push(d));
        assert(x.push(d).drop_last() =~= x);
        assert(runs(x, keep) + runs(y, keep) =~= runs(x, keep));
    } else {
        let yd = y.drop_last();
        lemma_runs_break(x, d, yd, keep);
        assert(z.drop_last() =~= x.push(d) + yd);
        assert(z.last() == y.last());
        let r = runs(x, keep);
        let q = runs(yd, keep);
        if keep(y.last()) {
            if y.len() > 1 {
                assert(z[z.len() - 2] == y[y.len() - 2]);
                assert(yd.last() == y[y.len() - 2]);
            } else {
                assert(z[z.len() - 2] == d);
            }
            if y.len() > 1 && keep(y[y.len() - 2]) {
                lemma_runs_nonempty(yd, keep);
                assert((r + q).last() == q.last());
                assert(runs(z, keep) =~= r + q.update(q.len() - 1, q.last().push(y.last())));
            } else {
                assert(runs(z, keep) =~= r + q.push(seq![y.last()]));
            }
        } else {
            assert(runs(z, keep) =~= r + q);
        }
    }
}

/// Every run is non-empty and made of kept items that satisfy what every
/// item of the sequence satisfies.
pub proof fn lemma_runs_items<T>(s: Seq<T>, keep: spec_fn(T) -> bool, p: spec_fn(T) -> bool)
    requires
        forall|k: int| 0 <= k < s.len() ==> p(#[trigger] s[k]),
    ensures
        forall|i: int|
            0 <= i < runs(s, keep).len() ==> (#[trigger] runs(s, keep)[i]).len() > 0 && forall|
                j: int,
            |
                0 <= j < runs(s, keep)[i].len() ==> keep(#[trigger] runs(s, keep)[i][j]) && p(
                    runs(s, keep)[i][j],
                ),
    decreases s.len(),
{
    if s.len() > 0 {
        let d = s.drop_last();
        assert(forall|k: int| 0 <= k < d.len() ==> #[trigger] d[k] == s[k]);
        lemma_runs_items(d, keep, p);
        assert(p(s[s.len() - 1]));
        let r = runs(d, keep);
        if keep(s.last()) && s.len() > 1 && keep(s[s.len() - 2]) {
            lemma_runs_nonempty(d, keep);
            let u = runs(s, keep);
            assert forall|i: int| 0 <= i < u.len() implies (#[trigger] u[i]).len() > 0 && forall|
                j: int,
            |
                0 <= j < u[i].len() ==> keep(#[trigger] u[i][j]) && p(u[i][j]) by {
                if i == r.len() - 1 {
                    assert forall|j: int| 0 <= j < u[i].len() implies keep(#[trigger] u[i][j]) && p(
                        u[i][j],
                    ) by {
                        if j < r[i].len() {
                            assert(u[i][j] == r[i][j]);
                        }
                    }
                } else {
                    assert(u[i] == r[i]);
                }
            }
        } else if keep(s.last()) {
            let u = runs(s, keep);
            assert forall|i: int| 0 <= i < u.len() implies (#[trigger] u[i]).len() > 0 && forall|
                j: int,
            |
                0 <= j < u[i].len() ==> keep(#[trigger] u[i][j]) && p(u[i][j]) by {
                if i < r.len() {
                    assert(u[i] == r[i]);
                }
            }
        }
    }
}

/// Two words separated by one space.
pub proof fn lemma_two_words(a: Seq<char>, b: Seq<char>)
    requires
        a.len() > 0,
        b.len() > 0,
        forall|i: int| 0 <= i < a.len() ==> !is_ws(#[trigger] a[i]),
        forall|i: int| 0 <= i < b.len() ==> !is_ws(#[trigger] b[i]),
    ensures
        words_of(a.push(' ') + b) == seq![a, b],
{
    let keep = |c: char| !is_ws(c);
    lemma_runs_all(a, keep);
    assert(a.push(' ').drop_last() =~= a);
    assert(runs(a.push(' '), keep) == runs(a, keep));
    lemma_runs_append(a.push(' '), b, keep);
}

} // verus!
