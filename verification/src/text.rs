//! Small text utilities shared by the planners: decimal rendering of integers and
//! character-level helpers on `String`.

use vstd::prelude::*;

verus! {

/// The character of a decimal digit.
pub open spec fn digit_char(d: int) -> char {
    if d == 0 { '0' }
    else if d == 1 { '1' }
    else if d == 2 { '2' }
    else if d == 3 { '3' }
    else if d == 4 { '4' }
    else if d == 5 { '5' }
    else if d == 6 { '6' }
    else if d == 7 { '7' }
    else if d == 8 { '8' }
    else { '9' }
}

/// The shortest decimal rendering of a natural number.
pub open spec fn decimal(n: nat) -> Seq<char>
    decreases n,
{
    if n < 10 {
        seq![digit_char(n as int)]
    } else {
        decimal(n / 10).push(digit_char((n % 10) as int))
    }
}

/// The decimal rendering of an integer, with a leading `-` when negative.
pub open spec fn signed_decimal(n: int) -> Seq<char> {
    if n < 0 { seq!['-'] + decimal((-n) as nat) } else { decimal(n as nat) }
}

/// Appends one character to a string (`String::push`).
#[verifier::external_body]
pub(crate) fn push_char(s: &mut String, c: char)
    ensures
        final(s)@ == old(s)@.push(c),
{
    s.push(c);
}

pub fn digit(d: u64) -> (c: char)
    requires
        d < 10,
    ensures
        c == digit_char(d as int),
{
    if d == 0 { '0' }
    else if d == 1 { '1' }
    else if d == 2 { '2' }
    else if d == 3 { '3' }
    else if d == 4 { '4' }
    else if d == 5 { '5' }
    else if d == 6 { '6' }
    else if d == 7 { '7' }
    else if d == 8 { '8' }
    else { '9' }
}

/// Appends the decimal rendering of `n` to `s`.
pub fn push_decimal(s: &mut String, n: u64)
    ensures
        final(s)@ == old(s)@ + decimal(n as nat),
    decreases n,
{
    if n >= 10 {
        push_decimal(s, n / 10);
    }
    push_char(s, digit(n % 10));
    proof {
        if n >= 10 {
            assert(old(s)@ + decimal(n as nat) =~= (old(s)@ + decimal((n / 10) as nat)).push(
                digit_char((n % 10) as int),
            ));
        } else {
            assert(old(s)@ + decimal(n as nat) =~= old(s)@.push(digit_char(n as int)));
        }
    }
}

/// Appends the signed decimal rendering of `n` to `s`.
pub fn push_signed_decimal(s: &mut String, n: i64)
    ensures
        final(s)@ == old(s)@ + signed_decimal(n as int),
{
    if n < 0 {
        push_char(s, '-');
        let magnitude: u64 = if n == i64::MIN { 9_223_372_036_854_775_808u64 } else { (-n) as u64 };
        push_decimal(s, magnitude);
        assert(old(s)@ + signed_decimal(n as int) =~= old(s)@.push('-') + decimal(magnitude as nat));
    } else {
        push_decimal(s, n as u64);
    }
}

/// The decimal rendering of `n` as a new string.
pub fn decimal_string(n: u64) -> (s: String)
    ensures
        s@ == decimal(n as nat),
{
    let mut s = String::new();
    push_decimal(&mut s, n);
    assert(s@ =~= decimal(n as nat));
    s
}


/// Whether two texts are the same.
pub fn text_equal(a: &str, b: &str) -> (r: bool)
    ensures
        r == (a@ == b@),
{
    let la = a.unicode_len();
    let lb = b.unicode_len();
    if la != lb {
        return false;
    }
    let mut i: usize = 0;
    while i < la
        invariant
            la == a@.len(),
            lb == b@.len(),
            la == lb,
            i <= la,
            forall|k: int| 0 <= k < i ==> a@[k] == b@[k],
        decreases la - i,
    {
        if a.get_char(i) != b.get_char(i) {
            return false;
        }
        i += 1;
    }
    assert(a@ =~= b@);
    true
}

/// Whether `s` ends with `suffix`.
pub open spec fn ends_with(s: Seq<char>, suffix: Seq<char>) -> bool {
    suffix.len() <= s.len() && s.subrange(s.len() - suffix.len(), s.len() as int) == suffix
}

/// Whether `s` ends with `suffix`.
pub fn text_ends_with(s: &str, suffix: &str) -> (r: bool)
    ensures
        r == ends_with(s@, suffix@),
{
    let ls = s.unicode_len();
    let lf = suffix.unicode_len();
    if lf > ls {
        return false;
    }
    let off = ls - lf;
    let mut i: usize = 0;
    while i < lf
        invariant
            ls == s@.len(),
            lf == suffix@.len(),
            off == ls - lf,
            i <= lf,
            forall|k: int| 0 <= k < i ==> s@[off + k] == suffix@[k],
        decreases lf - i,
    {
        if s.get_char(off + i) != suffix.get_char(i) {
            assert(s@.subrange(off as int, ls as int)[i as int] != suffix@[i as int]);
            return false;
        }
        i += 1;
    }
    assert(s@.subrange(off as int, ls as int) =~= suffix@);
    true
}

/// ASCII lower case of one character; every other character is unchanged.
pub open spec fn ascii_lower(c: char) -> char {
    if 'A' <= c && c <= 'Z' {
        ((c as u32) + 32) as char
    } else {
        c
    }
}

/// ASCII lower case of a text.
pub open spec fn lower_text(s: Seq<char>) -> Seq<char> {
    s.map_values(|c: char| ascii_lower(c))
}

fn lower_code(c: char) -> (r: u32)
    ensures
        r == ascii_lower(c) as u32,
{
    let code = c as u32;
    if 65 <= code && code <= 90 {
        code + 32
    } else {
        code
    }
}

/// Whether `s` ends with `suffix` when both are put in ASCII lower case.
pub fn text_ends_with_ignoring_ascii_case(s: &str, suffix: &str) -> (r: bool)
    ensures
        r == ends_with(lower_text(s@), lower_text(suffix@)),
{
    let ls = s.unicode_len();
    let lf = suffix.unicode_len();
    if lf > ls {
        return false;
    }
    let off = ls - lf;
    let ghost ws = lower_text(s@);
    let ghost wf = lower_text(suffix@);
    let mut i: usize = 0;
    while i < lf
        invariant
            ls == s@.len(),
            lf == suffix@.len(),
            off == ls - lf,
            ws == lower_text(s@),
            wf == lower_text(suffix@),
            i <= lf,
            forall|k: int| 0 <= k < i ==> ws[off + k] == wf[k],
        decreases lf - i,
    {
        let a = lower_code(s.get_char(off + i));
        let b = lower_code(suffix.get_char(i));
        proof {
            assert(ws[off + i] == ascii_lower(s@[off + i]));
            assert(wf[i as int] == ascii_lower(suffix@[i as int]));
        }
        if a != b {
            assert(ws.subrange(off as int, ls as int)[i as int] != wf[i as int]);
            return false;
        }
        i += 1;
    }
    assert(ws.subrange(off as int, ls as int) =~= wf);
    true
}

/// Unicode `White_Space`, the characters `char::is_whitespace` accepts.
pub open spec fn is_white_space(c: char) -> bool {
    let x = c as u32;
    (0x9 <= x && x <= 0xD) || x == 0x20 || x == 0x85 || x == 0xA0 || x == 0x1680 || (0x2000 <= x && x
        <= 0x200A) || x == 0x2028 || x == 0x2029 || x == 0x202F || x == 0x205F || x == 0x3000
}

fn white_space(c: char) -> (r: bool)
    ensures
        r == is_white_space(c),
{
    let x = c as u32;
    (0x9 <= x && x <= 0xD) || x == 0x20 || x == 0x85 || x == 0xA0 || x == 0x1680 || (0x2000 <= x && x
        <= 0x200A) || x == 0x2028 || x == 0x2029 || x == 0x202F || x == 0x205F || x == 0x3000
}

/// The text with leading and trailing white space removed (`str::trim`).
pub open spec fn trim_spec(s: Seq<char>) -> Seq<char> {
    let start = first_non_space(s, 0);
    let end = last_non_space_end(s, s.len() as int);
    if start >= end { Seq::empty() } else { s.subrange(start, end) }
}

/// The index of the first non-white-space character at or after `from`, or the length.
pub open spec fn first_non_space(s: Seq<char>, from: int) -> int
    decreases s.len() - from,
{
    if from >= s.len() || from < 0 {
        s.len() as int
    } else if !is_white_space(s[from]) {
        from
    } else {
        first_non_space(s, from + 1)
    }
}

/// One past the last non-white-space character before `to`, or zero.
pub open spec fn last_non_space_end(s: Seq<char>, to: int) -> int
    decreases to,
{
    if to <= 0 || to > s.len() {
        0
    } else if !is_white_space(s[to - 1]) {
        to
    } else {
        last_non_space_end(s, to - 1)
    }
}

proof fn lemma_first_non_space(s: Seq<char>, from: int)
    requires
        0 <= from <= s.len(),
    ensures
        from <= first_non_space(s, from) <= s.len(),
        forall|k: int| from <= k < first_non_space(s, from) ==> is_white_space(#[trigger] s[k]),
        first_non_space(s, from) < s.len() ==> !is_white_space(s[first_non_space(s, from)]),
    decreases s.len() - from,
{
    if from < s.len() && is_white_space(s[from]) {
        lemma_first_non_space(s, from + 1);
    }
}

proof fn lemma_last_non_space_end(s: Seq<char>, to: int)
    requires
        0 <= to <= s.len(),
    ensures
        0 <= last_non_space_end(s, to) <= to,
        forall|k: int| last_non_space_end(s, to) <= k < to ==> is_white_space(#[trigger] s[k]),
        last_non_space_end(s, to) > 0 ==> !is_white_space(s[last_non_space_end(s, to) - 1]),
    decreases to,
{
    if to > 0 && is_white_space(s[to - 1]) {
        lemma_last_non_space_end(s, to - 1);
    }
}

/// Removes leading and trailing white space.
pub fn trim(s: &str) -> (r: &str)
    ensures
        r@ == trim_spec(s@),
{
    let n = s.unicode_len();
    let mut start: usize = 0;
    while start < n && white_space(s.get_char(start))
        invariant
            n == s@.len(),
            start <= n,
            first_non_space(s@, 0) == first_non_space(s@, start as int),
        decreases n - start,
    {
        start += 1;
    }
    let mut end: usize = n;
    while end > 0 && white_space(s.get_char(end - 1))
        invariant
            n == s@.len(),
            end <= n,
            last_non_space_end(s@, n as int) == last_non_space_end(s@, end as int),
        decreases end,
    {
        end -= 1;
    }
    if start >= end {
        s.substring_char(0, 0)
    } else {
        s.substring_char(start, end)
    }
}

/// Whether `s` holds the character `c`.
pub fn text_contains_char(s: &str, c: char) -> (r: bool)
    ensures
        r == s@.contains(c),
{
    let n = s.unicode_len();
    let mut i: usize = 0;
    while i < n
        invariant
            n == s@.len(),
            i <= n,
            forall|k: int| 0 <= k < i ==> s@[k] != c,
        decreases n - i,
    {
        if s.get_char(i) == c {
            return true;
        }
        i += 1;
    }
    false
}

/// Lexicographic order on text by code point — the order of `String`'s `Ord`, since
/// UTF-8 preserves code-point order byte for byte.
pub open spec fn text_lt(a: Seq<char>, b: Seq<char>) -> bool
    decreases a.len(),
{
    if a.len() == 0 {
        b.len() > 0
    } else if b.len() == 0 {
        false
    } else if a[0] != b[0] {
        (a[0] as int) < (b[0] as int)
    } else {
        text_lt(a.drop_first(), b.drop_first())
    }
}

pub proof fn lemma_text_lt_transitive(a: Seq<char>, b: Seq<char>, c: Seq<char>)
    requires
        text_lt(a, b),
        text_lt(b, c),
    ensures
        text_lt(a, c),
    decreases a.len(),
{
    if a.len() > 0 && b.len() > 0 && c.len() > 0 && a[0] == b[0] && b[0] == c[0] {
        lemma_text_lt_transitive(a.drop_first(), b.drop_first(), c.drop_first());
    }
}

pub proof fn lemma_text_lt_total(a: Seq<char>, b: Seq<char>)
    requires
        a != b,
    ensures
        text_lt(a, b) || text_lt(b, a),
    decreases a.len(),
{
    if a.len() > 0 && b.len() > 0 && a[0] == b[0] {
        if a.drop_first() == b.drop_first() {
            assert(a =~= seq![a[0]] + a.drop_first());
            assert(b =~= seq![b[0]] + b.drop_first());
        }
        lemma_text_lt_total(a.drop_first(), b.drop_first());
    } else if a.len() > 0 && b.len() > 0 {
        assert((a[0] as int) != (b[0] as int));
    } else if a.len() == 0 && b.len() == 0 {
        assert(a =~= b);
    }
}

/// Whether `a` orders before `b`.
pub fn text_less(a: &str, b: &str) -> (r: bool)
    ensures
        r == text_lt(a@, b@),
{
    let la = a.unicode_len();
    let lb = b.unicode_len();
    let mut i: usize = 0;
    proof {
        assert(a@.skip(0) =~= a@);
        assert(b@.skip(0) =~= b@);
    }
    while i < la && i < lb
        invariant
            la == a@.len(),
            lb == b@.len(),
            i <= la,
            i <= lb,
            text_lt(a@, b@) == text_lt(a@.skip(i as int), b@.skip(i as int)),
        decreases la - i,
    {
        let ca = a.get_char(i);
        let cb = b.get_char(i);
        proof {
            assert(a@.skip(i as int)[0] == ca);
            assert(b@.skip(i as int)[0] == cb);
            assert(a@.skip(i as int).drop_first() =~= a@.skip(i + 1));
            assert(b@.skip(i as int).drop_first() =~= b@.skip(i + 1));
        }
        if ca != cb {
            return (ca as u32) < (cb as u32);
        }
        i += 1;
    }
    i < lb
}


/// The texts of a list of strings.
pub open spec fn texts(v: Seq<String>) -> Seq<Seq<char>> {
    v.map_values(|s: String| s@)
}

/// Strictly increasing text order, hence no text twice.
pub open spec fn strictly_sorted(v: Seq<Seq<char>>) -> bool {
    forall|i: int, j: int| 0 <= i < j < v.len() ==> text_lt(#[trigger] v[i], #[trigger] v[j])
}

/// Inserts `s` into a strictly sorted list of strings, unless its text is already
/// there.
pub fn insert_sorted(v: &mut Vec<String>, s: String)
    requires
        strictly_sorted(texts(old(v)@)),
    ensures
        strictly_sorted(texts(final(v)@)),
        texts(final(v)@).to_set() == texts(old(v)@).to_set().insert(s@),
{
    let ghost old_t = texts(v@);
    let mut p: usize = 0;
    let mut scanning = true;
    while scanning && p < v.len()
        invariant
            p <= v@.len(),
            old_t == texts(v@),
            strictly_sorted(old_t),
            forall|k: int| 0 <= k < p ==> text_lt(#[trigger] old_t[k], s@),
            !scanning ==> p < v@.len() && !text_lt(old_t[p as int], s@),
        decreases v@.len() - p, if scanning { 1int } else { 0int },
    {
        if text_less(v[p].as_str(), s.as_str()) {
            p += 1;
        } else {
            scanning = false;
        }
    }
    if p < v.len() && v[p] == s {
        proof {
            assert(old_t[p as int] == s@);
            assert(old_t.to_set().insert(s@) =~= old_t.to_set());
        }
        return;
    }
    proof {
        if p < v@.len() {
            assert(!text_lt(old_t[p as int], s@));
            assert(old_t[p as int] != s@);
            lemma_text_lt_total(old_t[p as int], s@);
        }
    }
    v.insert(p, s);
    proof {
        let new_t = texts(v@);
        assert(new_t =~= old_t.insert(p as int, s@));
        assert forall|i: int, j: int| 0 <= i < j < new_t.len() implies text_lt(#[trigger] new_t[i], #[trigger] new_t[j]) by {
            if j < p {
                assert(new_t[i] == old_t[i] && new_t[j] == old_t[j]);
            } else if j == p {
                assert(new_t[i] == old_t[i]);
            } else if i == p {
                assert(new_t[j] == old_t[j - 1]);
                if j - 1 > p {
                    lemma_text_lt_transitive(s@, old_t[p as int], old_t[j - 1]);
                }
            } else if i < p {
                assert(new_t[i] == old_t[i] && new_t[j] == old_t[j - 1]);
            } else {
                assert(new_t[i] == old_t[i - 1] && new_t[j] == old_t[j - 1]);
            }
        }
        assert(new_t.to_set() =~= old_t.to_set().insert(s@)) by {
            assert forall|x: Seq<char>| new_t.to_set().contains(x) <==> old_t.to_set().insert(s@).contains(x) by {
                if new_t.contains(x) {
                    let k = choose|k: int| 0 <= k < new_t.len() && new_t[k] == x;
                    if k < p {
                        assert(old_t[k] == x);
                    } else if k > p {
                        assert(old_t[k - 1] == x);
                    }
                }
                if old_t.contains(x) {
                    let k = choose|k: int| 0 <= k < old_t.len() && old_t[k] == x;
                    if k < p {
                        assert(new_t[k] == x);
                    } else {
                        assert(new_t[k + 1] == x);
                    }
                }
                if x == s@ {
                    assert(new_t[p as int] == x);
                }
            }
        }
    }
}

// ---------------------------------------------------------------------------
// Paths
// ---------------------------------------------------------------------------

/// A path that every platform reads alike: no `\`, no `:` and no leading `//` (which
/// some platforms read as a drive, a separator or a network share).
pub open spec fn portable_path(p: Seq<char>) -> bool {
    !p.contains('\\') && !p.contains(':') && !(p.len() >= 2 && p[0] == '/' && p[1] == '/')
}

/// The `/`-separated pieces of a text, empty ones included.
pub open spec fn path_pieces(p: Seq<char>) -> Seq<Seq<char>>
    decreases p.len(),
{
    if p.len() == 0 {
        seq![Seq::empty()]
    } else {
        let ps = path_pieces(p.drop_last());
        if p.last() == '/' {
            ps.push(Seq::empty())
        } else {
            ps.update(ps.len() - 1, ps.last().push(p.last()))
        }
    }
}

/// The last piece that names something: not empty and not `.`.
pub open spec fn last_named_piece(ps: Seq<Seq<char>>) -> Option<Seq<char>>
    decreases ps.len(),
{
    if ps.len() == 0 {
        None
    } else if ps.last().len() > 0 && ps.last() != seq!['.'] {
        Some(ps.last())
    } else {
        last_named_piece(ps.drop_last())
    }
}

/// The final component of a portable path, as `Path::file_name` gives it: the last
/// piece that is neither empty nor `.`, or nothing when that piece is `..` or there is
/// none.
pub open spec fn file_name_spec(p: Seq<char>) -> Option<Seq<char>> {
    match last_named_piece(path_pieces(p)) {
        Some(n) => if n == seq!['.', '.'] {
            None
        } else {
            Some(n)
        },
        None => None,
    }
}

/// The index of the last `.` of a text, or -1.
pub open spec fn last_dot(n: Seq<char>) -> int
    decreases n.len(),
{
    if n.len() == 0 {
        -1
    } else if n.last() == '.' {
        n.len() - 1
    } else {
        last_dot(n.drop_last())
    }
}

/// A file name's stem, as `Path::file_stem` gives it: the part before the final `.`,
/// or the whole name when it has no `.` other than a leading one.
pub open spec fn stem_of_name(n: Seq<char>) -> Seq<char> {
    if last_dot(n) > 0 {
        n.take(last_dot(n))
    } else {
        n
    }
}

} // verus!
