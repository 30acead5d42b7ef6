//! Character-sequence operations on strings, each with its meaning stated
//! over `Seq<char>`.
use vstd::prelude::*;

verus! {

/// Appends one character to a string (`String::push`).
#[verifier::external_body]
pub(crate) fn push_char(s: &mut String, c: char)
    ensures
        final(s)@ == old(s)@.push(c),
{
    s.push(c);
}

/// Unicode `White_Space` membership, which `char::is_whitespace` decides:
/// tab to carriage return, space, next line, no-break space, Ogham space
/// mark, the spaces from en quad to hair space, line and paragraph
/// separators, narrow no-break space, medium mathematical space and
/// ideographic space.
pub open spec fn is_white(c: char) -> bool {
    let u = c as u32;
    ||| 0x9 <= u <= 0xD
    ||| u == 0x20
    ||| u == 0x85
    ||| u == 0xA0
    ||| u == 0x1680
    ||| 0x2000 <= u <= 0x200A
    ||| u == 0x2028
    ||| u == 0x2029
    ||| u == 0x202F
    ||| u == 0x205F
    ||| u == 0x3000
}

/// Unicode `Uppercase` membership beyond ASCII, as `char::is_uppercase`
/// decides it.
pub uninterp spec fn upper_beyond_ascii(c: char) -> bool;

/// Unicode `Alphabetic` or `Numeric` membership beyond ASCII, as
/// `char::is_alphanumeric` decides it.
pub uninterp spec fn alnum_beyond_ascii(c: char) -> bool;

/// Unicode `Uppercase` membership: among ASCII characters, exactly `A` to `Z`.
pub open spec fn is_upper(c: char) -> bool {
    let u = c as u32;
    if u < 0x80 {
        0x41 <= u <= 0x5A
    } else {
        upper_beyond_ascii(c)
    }
}

/// Unicode `Alphabetic` or `Numeric` membership: among ASCII characters,
/// exactly the letters and the digits.
pub open spec fn is_alnum(c: char) -> bool {
    let u = c as u32;
    if u < 0x80 {
        0x41 <= u <= 0x5A || 0x61 <= u <= 0x7A || 0x30 <= u <= 0x39
    } else {
        alnum_beyond_ascii(c)
    }
}

/// Whether a character is white space as `char::is_whitespace` decides it
/// (see `is_white`).
pub(crate) fn char_is_whitespace(c: char) -> (r: bool)
    ensures
        r == is_white(c),
{
    let u = c as u32;
    (0x9 <= u && u <= 0xD) || u == 0x20 || u == 0x85 || u == 0xA0 || u == 0x1680 || (0x2000 <= u && u <= 0x200A)
        || u == 0x2028 || u == 0x2029 || u == 0x202F || u == 0x205F || u == 0x3000
}

/// `char::is_uppercase`: the Unicode `Uppercase` property, which among ASCII
/// characters holds exactly of `A` to `Z`.
#[verifier::external_body]
pub(crate) fn char_is_uppercase(c: char) -> (r: bool)
    ensures
        r == is_upper(c),
        (c as u32) >= 0x80 ==> r == upper_beyond_ascii(c),
{
    c.is_uppercase()
}

/// `char::is_alphanumeric`: the Unicode `Alphabetic` or `Numeric` property,
/// which among ASCII characters holds exactly of the letters and digits.
#[verifier::external_body]
pub(crate) fn char_is_alphanumeric(c: char) -> (r: bool)
    ensures
        r == is_alnum(c),
        (c as u32) >= 0x80 ==> r == alnum_beyond_ascii(c),
{
    c.is_alphanumeric()
}

/// The characters of a string.
pub fn chars_of(s: &str) -> (r: Vec<char>)
    ensures
        r@ == s@,
{
    let mut r: Vec<char> = Vec::new();
    for c in it: s.chars()
        invariant
            r@ == it.seq().take(it.index() as int),
    {
        r.push(c);
    }
    assert(r@ == s@);
    r
}

} // verus!

verus! {

/// `p` occurs in `s` starting at index `i`.
pub open spec fn occurs_at(s: Seq<char>, p: Seq<char>, i: int) -> bool {
    &&& 0 <= i
    &&& i + p.len() <= s.len()
    &&& forall|j: int| 0 <= j < p.len() ==> #[trigger] s[i + j] == p[j]
}

/// The first index at or after `from` where `p` occurs in `s`, or -1.
pub open spec fn first_from(s: Seq<char>, p: Seq<char>, from: int) -> int
    decreases s.len() - from,
{
    if from < 0 || from + p.len() > s.len() {
        -1
    } else if occurs_at(s, p, from) {
        from
    } else {
        first_from(s, p, from + 1)
    }
}

/// `p` occurs somewhere in `s`.
pub open spec fn contains_seq(s: Seq<char>, p: Seq<char>) -> bool {
    first_from(s, p, 0) >= 0
}

pub open spec fn starts_with(s: Seq<char>, p: Seq<char>) -> bool {
    p.len() <= s.len() && s.subrange(0, p.len() as int) == p
}

pub open spec fn ends_with(s: Seq<char>, p: Seq<char>) -> bool {
    p.len() <= s.len() && s.subrange(s.len() - p.len(), s.len() as int) == p
}

/// The last piece of `s` split on `p` (`s.split(p).last()`): what follows the
/// last of the non-overlapping occurrences of `p` found from the left.
pub open spec fn last_piece(s: Seq<char>, p: Seq<char>) -> Seq<char>
    decreases s.len(),
{
    let i = first_from(s, p, 0);
    proof { lemma_first_from_bounds(s, p, 0); }
    if p.len() == 0 || i < 0 {
        s
    } else {
        last_piece(s.skip(i + p.len()), p)
    }
}

/// The first piece of `s` split on `p` (`s.split(p).next()`).
pub open spec fn first_piece(s: Seq<char>, p: Seq<char>) -> Seq<char> {
    let i = first_from(s, p, 0);
    if p.len() == 0 || i < 0 {
        s
    } else {
        s.subrange(0, i)
    }
}

/// All pieces of `s` split on `p` (`s.split(p)`).
pub open spec fn pieces(s: Seq<char>, p: Seq<char>) -> Seq<Seq<char>>
    decreases s.len(),
{
    let i = first_from(s, p, 0);
    proof { lemma_first_from_bounds(s, p, 0); }
    if p.len() == 0 || i < 0 {
        seq![s]
    } else {
        seq![s.subrange(0, i)] + pieces(s.skip(i + p.len()), p)
    }
}

/// `s.trim_start_matches(p)`: `s` with every leading repetition of `p` removed.
pub open spec fn strip_leading(s: Seq<char>, p: Seq<char>) -> Seq<char>
    decreases s.len(),
{
    if p.len() > 0 && starts_with(s, p) {
        strip_leading(s.skip(p.len() as int), p)
    } else {
        s
    }
}

/// `s.trim_end_matches(p)`: `s` with every trailing repetition of `p` removed.
pub open spec fn strip_trailing(s: Seq<char>, p: Seq<char>) -> Seq<char>
    decreases s.len(),
{
    if p.len() > 0 && ends_with(s, p) {
        strip_trailing(s.subrange(0, s.len() - p.len()), p)
    } else {
        s
    }
}

/// `s.trim()`: leading and trailing white space removed.
pub open spec fn trim_white(s: Seq<char>) -> Seq<char>
    decreases s.len(),
{
    if s.len() > 0 && is_white(s[0]) {
        trim_white(s.drop_first())
    } else if s.len() > 0 && is_white(s.last()) {
        trim_white(s.drop_last())
    } else {
        s
    }
}

/// `s.replace(from, to)`: every non-overlapping occurrence of `from`, found
/// from the left, replaced by `to`.
pub open spec fn replace_all(s: Seq<char>, from: Seq<char>, to: Seq<char>) -> Seq<char>
    decreases s.len(),
{
    let i = first_from(s, from, 0);
    proof { lemma_first_from_bounds(s, from, 0); }
    if from.len() == 0 || i < 0 {
        s
    } else {
        s.subrange(0, i) + to + replace_all(s.skip(i + from.len()), from, to)
    }
}

/// The pieces joined with `sep` between consecutive ones (`join`).
pub open spec fn join(parts: Seq<Seq<char>>, sep: Seq<char>) -> Seq<char>
    decreases parts.len(),
{
    if parts.len() == 0 {
        seq![]
    } else if parts.len() == 1 {
        parts[0]
    } else {
        join(parts.drop_last(), sep) + sep + parts.last()
    }
}

/// Whether `p + e` ends with a suffix no longer than `e` is decided by `e`.
pub proof fn lemma_ends_with_concat(p: Seq<char>, e: Seq<char>, x: Seq<char>)
    requires
        x.len() <= e.len(),
    ensures
        ends_with(p + e, x) == ends_with(e, x),
{
    let pe = p + e;
    assert(pe.subrange(pe.len() - x.len(), pe.len() as int) =~= e.subrange(e.len() - x.len(), e.len() as int));
}

/// A text that does not end with `x` keeps its end.
pub proof fn lemma_strip_trailing_absent(t: Seq<char>, x: Seq<char>)
    requires
        !ends_with(t, x),
    ensures
        strip_trailing(t, x) == t,
{
}

/// Removing the trailing repetitions of `x` from `p + x` is removing them
/// from `p`.
pub proof fn lemma_strip_trailing_concat(p: Seq<char>, x: Seq<char>)
    requires
        x.len() > 0,
    ensures
        strip_trailing(p + x, x) == strip_trailing(p, x),
{
    let px = p + x;
    assert(px.subrange(px.len() - x.len(), px.len() as int) =~= x);
    assert(px.subrange(0, px.len() - x.len()) =~= p);
}

/// No occurrence of `f` in `x + y` begins in `x` and ends in `y`.
pub open spec fn no_straddle(x: Seq<char>, y: Seq<char>, f: Seq<char>) -> bool {
    forall|i: int| 0 <= i < x.len() && x.len() < i + f.len() ==> !#[trigger] occurs_at(x + y, f, i)
}

proof fn lemma_first_from_within(x: Seq<char>, y: Seq<char>, f: Seq<char>, from: int)
    requires
        0 <= from,
        first_from(x, f, from) >= 0,
    ensures
        first_from(x + y, f, from) == first_from(x, f, from),
    decreases x.len() - from,
{
    let xy = x + y;
    assert(from + f.len() <= x.len());
    assert forall|j: int| 0 <= j < f.len() implies #[trigger] xy[from + j] == x[from + j] by {}
    if !occurs_at(x, f, from) {
        if occurs_at(xy, f, from) {
            assert forall|j: int| 0 <= j < f.len() implies #[trigger] x[from + j] == f[j] by {
                assert(xy[from + j] == f[j]);
            }
            assert(false);
        }
        lemma_first_from_within(x, y, f, from + 1);
    }
}

proof fn lemma_first_from_after(x: Seq<char>, y: Seq<char>, f: Seq<char>, j: int)
    requires
        0 <= j,
    ensures
        first_from(x + y, f, x.len() + j) == (if first_from(y, f, j) < 0 { -1 } else { x.len() + first_from(y, f, j) }),
    decreases y.len() - j,
{
    let xy = x + y;
    if j + f.len() <= y.len() {
        assert forall|k: int| 0 <= k < f.len() implies #[trigger] xy[x.len() + j + k] == y[j + k] by {}
        if occurs_at(y, f, j) {
            assert(occurs_at(xy, f, x.len() + j)) by {
                assert forall|k: int| 0 <= k < f.len() implies #[trigger] xy[x.len() + j + k] == f[k] by {
                    assert(y[j + k] == f[k]);
                }
            }
        } else {
            if occurs_at(xy, f, x.len() + j) {
                assert forall|k: int| 0 <= k < f.len() implies #[trigger] y[j + k] == f[k] by {
                    assert(xy[x.len() + j + k] == f[k]);
                }
                assert(false);
            }
            lemma_first_from_after(x, y, f, j + 1);
        }
    }
}

proof fn lemma_first_from_skip_x(x: Seq<char>, y: Seq<char>, f: Seq<char>, from: int)
    requires
        0 <= from <= x.len(),
        first_from(x, f, from) < 0,
        no_straddle(x, y, f),
    ensures
        first_from(x + y, f, from) == first_from(x + y, f, x.len() as int),
    decreases x.len() - from,
{
    let xy = x + y;
    if from < x.len() {
        if from + f.len() <= x.len() {
            assert forall|j: int| 0 <= j < f.len() implies #[trigger] xy[from + j] == x[from + j] by {}
            if occurs_at(xy, f, from) {
                assert forall|j: int| 0 <= j < f.len() implies #[trigger] x[from + j] == f[j] by {
                    assert(xy[from + j] == f[j]);
                }
                assert(false);
            }
        } else {
            assert(!occurs_at(xy, f, from));
        }
        lemma_first_from_skip_x(x, y, f, from + 1);
    }
}

/// Replacing in `x + y` is replacing in `x` and in `y`, when no occurrence
/// of the pattern spans the two.
pub proof fn lemma_replace_all_concat(x: Seq<char>, y: Seq<char>, f: Seq<char>, t: Seq<char>)
    requires
        f.len() > 0,
        no_straddle(x, y, f),
    ensures
        replace_all(x + y, f, t) == replace_all(x, f, t) + replace_all(y, f, t),
    decreases x.len(),
{
    let xy = x + y;
    let i = first_from(x, f, 0);
    lemma_first_from_bounds(x, f, 0);
    lemma_first_from_bounds(xy, f, 0);
    if i >= 0 {
        lemma_first_from_within(x, y, f, 0);
        let x2 = x.skip(i + f.len());
        assert(xy.subrange(0, i) =~= x.subrange(0, i));
        assert(xy.skip(i + f.len()) =~= x2 + y);
        assert forall|k: int| 0 <= k < x2.len() && x2.len() < k + f.len() implies !#[trigger] occurs_at(x2 + y, f, k) by {
            if occurs_at(x2 + y, f, k) {
                assert forall|j: int| 0 <= j < f.len() implies #[trigger] xy[i + f.len() + k + j] == f[j] by {
                    assert((x2 + y)[k + j] == xy[i + f.len() + k + j]);
                }
                assert(occurs_at(xy, f, i + f.len() + k));
            }
        }
        lemma_replace_all_concat(x2, y, f, t);
        assert(replace_all(xy, f, t) =~= replace_all(x, f, t) + replace_all(y, f, t));
    } else {
        lemma_first_from_skip_x(x, y, f, 0);
        lemma_first_from_after(x, y, f, 0);
        let k = first_from(y, f, 0);
        lemma_first_from_bounds(y, f, 0);
        if k >= 0 {
            assert(xy.subrange(0, x.len() + k) =~= x + y.subrange(0, k));
            assert(xy.skip(x.len() + k + f.len()) =~= y.skip(k + f.len()));
            assert(replace_all(xy, f, t) =~= replace_all(x, f, t) + replace_all(y, f, t));
        }
    }
}

/// A one-character pattern never spans two texts.
pub proof fn lemma_no_straddle_single(x: Seq<char>, y: Seq<char>, f: Seq<char>)
    requires
        f.len() == 1,
    ensures
        no_straddle(x, y, f),
{
}

/// A text in which the pattern's character does not occur is left as it is.
pub proof fn lemma_replace_all_absent(s: Seq<char>, f: Seq<char>, t: Seq<char>)
    requires
        f.len() == 1,
        forall|i: int| 0 <= i < s.len() ==> s[i] != f[0],
    ensures
        replace_all(s, f, t) == s,
{
    lemma_first_from_bounds(s, f, 0);
    if first_from(s, f, 0) >= 0 {
        let i = first_from(s, f, 0);
        assert(s[i + 0] == f[0]);
    }
}

pub proof fn lemma_first_from_bounds(s: Seq<char>, p: Seq<char>, from: int)
    ensures
        first_from(s, p, from) == -1 || (from <= first_from(s, p, from) && occurs_at(s, p, first_from(s, p, from))),
    decreases s.len() - from,
{
    if !(from < 0 || from + p.len() > s.len()) && !occurs_at(s, p, from) {
        lemma_first_from_bounds(s, p, from + 1);
    }
}

/// Whether `p` occurs in `s` at index `i`.
pub fn matches_at(s: &[char], p: &[char], i: usize) -> (r: bool)
    ensures
        r == occurs_at(s@, p@, i as int),
{
    if i > s.len() || p.len() > s.len() - i {
        return false;
    }
    let mut j: usize = 0;
    while j < p.len()
        invariant
            i + p.len() <= s.len(),
            j <= p@.len(),
            forall|k: int| 0 <= k < j ==> #[trigger] s@[i + k] == p@[k],
        decreases p@.len() - j,
    {
        if s[i + j] != p[j] {
            assert(s@[i + j as int] != p@[j as int]);
            return false;
        }
        j = j + 1;
    }
    true
}

/// The first index at or after `from` where `p` occurs in `s`.
pub fn find_from(s: &[char], p: &[char], from: usize) -> (r: Option<usize>)
    ensures
        r matches Some(i) ==> first_from(s@, p@, from as int) == i,
        r is None ==> first_from(s@, p@, from as int) == -1,
{
    let mut i = from;
    while i <= s.len() && p.len() <= s.len() - i
        invariant
            from <= i,
            first_from(s@, p@, from as int) == first_from(s@, p@, i as int),
        decreases s@.len() + 1 - i,
    {
        if matches_at(s, p, i) {
            return Some(i);
        }
        i = i + 1;
    }
    None
}

/// A string holding the given characters.
pub fn string_from(v: &[char]) -> (r: String)
    ensures
        r@ == v@,
{
    let mut r = String::new();
    let mut i: usize = 0;
    while i < v.len()
        invariant
            i <= v@.len(),
            r@ == v@.subrange(0, i as int),
        decreases v@.len() - i,
    {
        push_char(&mut r, v[i]);
        i = i + 1;
        assert(r@ =~= v@.subrange(0, i as int));
    }
    assert(v@.subrange(0, v@.len() as int) =~= v@);
    r
}

/// The characters `s[start..end]`.
pub fn sub_chars(s: &[char], start: usize, end: usize) -> (r: Vec<char>)
    requires
        start <= end <= s@.len(),
    ensures
        r@ == s@.subrange(start as int, end as int),
{
    let mut r: Vec<char> = Vec::new();
    let mut i = start;
    while i < end
        invariant
            start <= i <= end,
            end <= s@.len(),
            r@ == s@.subrange(start as int, i as int),
        decreases end - i,
    {
        r.push(s[i]);
        i = i + 1;
        assert(r@ =~= s@.subrange(start as int, i as int));
    }
    r
}

/// Whether two character sequences are equal.
pub fn chars_eq(a: &[char], b: &[char]) -> (r: bool)
    ensures
        r == (a@ == b@),
{
    if a.len() != b.len() {
        return false;
    }
    let mut i: usize = 0;
    while i < a.len()
        invariant
            a@.len() == b@.len(),
            i <= a@.len(),
            forall|k: int| 0 <= k < i ==> a@[k] == b@[k],
        decreases a@.len() - i,
    {
        if a[i] != b[i] {
            return false;
        }
        i = i + 1;
    }
    assert(a@ =~= b@);
    true
}

/// Whether two strings are equal.
pub fn str_eq(a: &str, b: &str) -> (r: bool)
    ensures
        r == (a@ == b@),
{
    let x = chars_of(a);
    let y = chars_of(b);
    chars_eq(x.as_slice(), y.as_slice())
}

/// Whether `s` starts with `p`.
pub fn has_prefix(s: &[char], p: &[char]) -> (r: bool)
    ensures
        r == starts_with(s@, p@),
{
    let r = matches_at(s, p, 0);
    proof {
        if r {
            assert forall|j: int| 0 <= j < p@.len() implies s@.subrange(0, p@.len() as int)[j] == p@[j] by {
                assert(s@[0 + j] == p@[j]);
            }
            assert(s@.subrange(0, p@.len() as int) =~= p@);
        } else if p@.len() <= s@.len() && s@.subrange(0, p@.len() as int) == p@ {
            assert forall|j: int| 0 <= j < p@.len() implies #[trigger] s@[0 + j] == p@[j] by {
                assert(s@.subrange(0, p@.len() as int)[j] == s@[j]);
            }
        }
    }
    r
}

/// Whether `s` ends with `p`.
pub fn has_suffix(s: &[char], p: &[char]) -> (r: bool)
    ensures
        r == ends_with(s@, p@),
{
    if p.len() > s.len() {
        return false;
    }
    let k = s.len() - p.len();
    let r = matches_at(s, p, k);
    proof {
        if r {
            assert(s@.subrange(k as int, s@.len() as int) =~= p@) by {
                assert forall|j: int| 0 <= j < p@.len() implies s@.subrange(k as int, s@.len() as int)[j] == p@[j] by {
                    assert(s@[k + j] == p@[j]);
                }
            }
        } else if s@.subrange(k as int, s@.len() as int) == p@ {
            assert forall|j: int| 0 <= j < p@.len() implies #[trigger] s@[k + j] == p@[j] by {
                assert(s@.subrange(k as int, s@.len() as int)[j] == s@[k + j]);
            }
        }
    }
    r
}

/// Whether `p` occurs in `s`.
pub fn has_seq(s: &[char], p: &[char]) -> (r: bool)
    ensures
        r == contains_seq(s@, p@),
{
    find_from(s, p, 0).is_some()
}

/// Whether the character `c` occurs in `s`.
pub fn has_char(s: &[char], c: char) -> (r: bool)
    ensures
        r == s@.contains(c),
{
    let mut i: usize = 0;
    while i < s.len()
        invariant
            i <= s@.len(),
            forall|k: int| 0 <= k < i ==> s@[k] != c,
        decreases s@.len() - i,
    {
        if s[i] == c {
            assert(s@[i as int] == c);
            return true;
        }
        i = i + 1;
    }
    false
}

} // verus!

verus! {

/// `s.split(p).last()`.
pub fn last_piece_of(s: &[char], p: &[char]) -> (r: Vec<char>)
    ensures
        r@ == last_piece(s@, p@),
{
    if p.len() == 0 {
        return sub_chars(s, 0, s.len());
    }
    let mut pos: usize = 0;
    assert(s@.skip(0) =~= s@);
    loop
        invariant
            p@.len() > 0,
            pos <= s@.len(),
            last_piece(s@, p@) == last_piece(s@.skip(pos as int), p@),
        decreases s@.len() - pos,
    {
        let rest = sub_chars(s, pos, s.len());
        assert(rest@ == s@.skip(pos as int));
        match find_from(rest.as_slice(), p, 0) {
            Some(i) => {
                proof {
                    lemma_first_from_bounds(rest@, p@, 0);
                    assert(rest@.skip(i + p@.len()) =~= s@.skip(pos + i + p@.len()));
                }
                pos = pos + i + p.len();
            },
            None => {
                return rest;
            },
        }
    }
}

/// `s.split(p).next()`.
pub fn first_piece_of(s: &[char], p: &[char]) -> (r: Vec<char>)
    ensures
        r@ == first_piece(s@, p@),
{
    if p.len() == 0 {
        return sub_chars(s, 0, s.len());
    }
    match find_from(s, p, 0) {
        Some(i) => {
            proof { lemma_first_from_bounds(s@, p@, 0); }
            sub_chars(s, 0, i)
        },
        None => sub_chars(s, 0, s.len()),
    }
}

/// `s.split(p)` collected.
pub fn pieces_of(s: &[char], p: &[char]) -> (r: Vec<Vec<char>>)
    requires
        p@.len() > 0,
    ensures
        r@.map_values(|v: Vec<char>| v@) == pieces(s@, p@),
{
    let mut out: Vec<Vec<char>> = Vec::new();
    let mut pos: usize = 0;
    assert(s@.skip(0) =~= s@);
    assert(out@.map_values(|v: Vec<char>| v@) + pieces(s@, p@) =~= pieces(s@, p@));
    loop
        invariant
            p@.len() > 0,
            pos <= s@.len(),
            pieces(s@, p@) == out@.map_values(|v: Vec<char>| v@) + pieces(s@.skip(pos as int), p@),
        decreases s@.len() - pos,
    {
        let rest = sub_chars(s, pos, s.len());
        assert(rest@ == s@.skip(pos as int));
        let ghost before = out@.map_values(|v: Vec<char>| v@);
        match find_from(rest.as_slice(), p, 0) {
            Some(i) => {
                proof {
                    lemma_first_from_bounds(rest@, p@, 0);
                    assert(rest@.skip(i + p@.len()) =~= s@.skip(pos + i + p@.len()));
                }
                let piece = sub_chars(rest.as_slice(), 0, i);
                out.push(piece);
                proof {
                    assert(out@.map_values(|v: Vec<char>| v@) =~= before.push(piece@));
                    assert(seq![piece@] + pieces(s@.skip(pos + i + p@.len()), p@) == pieces(rest@, p@));
                    assert(before + pieces(rest@, p@) =~= before.push(piece@) + pieces(s@.skip(pos + i + p@.len()), p@));
                }
                pos = pos + i + p.len();
            },
            None => {
                out.push(rest);
                proof {
                    assert(out@.map_values(|v: Vec<char>| v@) =~= before.push(rest@));
                    assert(before + pieces(rest@, p@) =~= before.push(rest@));
                }
                return out;
            },
        }
    }
}

/// `s.trim_start_matches(p)`.
pub fn strip_leading_of(s: &[char], p: &[char]) -> (r: Vec<char>)
    ensures
        r@ == strip_leading(s@, p@),
{
    if p.len() == 0 {
        return sub_chars(s, 0, s.len());
    }
    let mut pos: usize = 0;
    assert(s@.skip(0) =~= s@);
    while pos <= s.len() && p.len() <= s.len() - pos && matches_at(s, p, pos)
        invariant
            p@.len() > 0,
            pos <= s@.len(),
            strip_leading(s@, p@) == strip_leading(s@.skip(pos as int), p@),
        decreases s@.len() - pos,
    {
        proof {
            let t = s@.skip(pos as int);
            assert forall|j: int| 0 <= j < p@.len() implies t.subrange(0, p@.len() as int)[j] == p@[j] by {
                assert(s@[pos + j] == p@[j]);
            }
            assert(t.subrange(0, p@.len() as int) =~= p@);
            assert(t.skip(p@.len() as int) =~= s@.skip(pos + p@.len()));
        }
        pos = pos + p.len();
    }
    proof {
        let t = s@.skip(pos as int);
        if starts_with(t, p@) {
            assert forall|j: int| 0 <= j < p@.len() implies #[trigger] s@[pos + j] == p@[j] by {
                assert(t.subrange(0, p@.len() as int)[j] == t[j]);
            }
        }
    }
    sub_chars(s, pos, s.len())
}

/// `s.trim_end_matches(p)`.
pub fn strip_trailing_of(s: &[char], p: &[char]) -> (r: Vec<char>)
    ensures
        r@ == strip_trailing(s@, p@),
{
    if p.len() == 0 {
        return sub_chars(s, 0, s.len());
    }
    let mut end: usize = s.len();
    assert(s@.subrange(0, s@.len() as int) =~= s@);
    loop
        invariant
            p@.len() > 0,
            end <= s@.len(),
            strip_trailing(s@, p@) == strip_trailing(s@.subrange(0, end as int), p@),
        decreases end,
    {
        let t = sub_chars(s, 0, end);
        if has_suffix(t.as_slice(), p) {
            assert(t@.subrange(0, t@.len() - p@.len()) =~= s@.subrange(0, end - p@.len()));
            end = end - p.len();
        } else {
            return t;
        }
    }
}

/// `s.trim()`.
pub fn trim_of(s: &[char]) -> (r: Vec<char>)
    ensures
        r@ == trim_white(s@),
{
    let mut start: usize = 0;
    let mut end: usize = s.len();
    assert(s@.subrange(0, s@.len() as int) =~= s@);
    while start < end && char_is_whitespace(s[start])
        invariant
            start <= end <= s@.len(),
            end == s@.len(),
            trim_white(s@) == trim_white(s@.subrange(start as int, end as int)),
        decreases end - start,
    {
        assert(s@.subrange(start as int, end as int).drop_first() =~= s@.subrange(start + 1, end as int));
        start = start + 1;
    }
    while start < end && char_is_whitespace(s[end - 1])
        invariant
            start <= end <= s@.len(),
            start == end || !is_white(s@[start as int]),
            trim_white(s@) == trim_white(s@.subrange(start as int, end as int)),
        decreases end - start,
    {
        let ghost t = s@.subrange(start as int, end as int);
        assert(t.drop_last() =~= s@.subrange(start as int, end - 1));
        assert(t[0] == s@[start as int]);
        end = end - 1;
    }
    sub_chars(s, start, end)
}

/// `s.replace(from, to)`.
pub fn replace_of(s: &[char], from: &[char], to: &[char]) -> (r: Vec<char>)
    ensures
        r@ == replace_all(s@, from@, to@),
{
    if from.len() == 0 {
        return sub_chars(s, 0, s.len());
    }
    let mut out: Vec<char> = Vec::new();
    let mut pos: usize = 0;
    assert(s@.skip(0) =~= s@);
    assert(out@ + replace_all(s@, from@, to@) =~= replace_all(s@, from@, to@));
    loop
        invariant
            from@.len() > 0,
            pos <= s@.len(),
            replace_all(s@, from@, to@) == out@ + replace_all(s@.skip(pos as int), from@, to@),
        decreases s@.len() - pos,
    {
        let rest = sub_chars(s, pos, s.len());
        assert(rest@ == s@.skip(pos as int));
        match find_from(rest.as_slice(), from, 0) {
            Some(i) => {
                proof {
                    lemma_first_from_bounds(rest@, from@, 0);
                    assert(rest@.skip(i + from@.len()) =~= s@.skip(pos + i + from@.len()));
                }
                let ghost before = out@;
                let head = sub_chars(rest.as_slice(), 0, i);
                append_chars(&mut out, head.as_slice());
                append_chars(&mut out, to);
                assert(out@ == before + head@ + to@);
                assert(before + replace_all(rest@, from@, to@) =~= out@ + replace_all(s@.skip(pos + i + from@.len()), from@, to@));
                pos = pos + i + from.len();
            },
            None => {
                let ghost before = out@;
                append_chars(&mut out, rest.as_slice());
                return out;
            },
        }
    }
}

/// Appends the characters of `t` to `v`.
pub fn append_chars(v: &mut Vec<char>, t: &[char])
    ensures
        final(v)@ == old(v)@ + t@,
{
    let ghost start = v@;
    let mut i: usize = 0;
    while i < t.len()
        invariant
            i <= t@.len(),
            v@ == start + t@.subrange(0, i as int),
        decreases t@.len() - i,
    {
        v.push(t[i]);
        i = i + 1;
        assert(v@ =~= start + t@.subrange(0, i as int));
    }
    assert(t@.subrange(0, t@.len() as int) =~= t@);
}

/// The parts joined with `sep` in between.
pub fn join_of(parts: &Vec<Vec<char>>, sep: &[char]) -> (r: Vec<char>)
    ensures
        r@ == join(parts@.map_values(|v: Vec<char>| v@), sep@),
{
    let ghost ps = parts@.map_values(|v: Vec<char>| v@);
    let mut out: Vec<char> = Vec::new();
    let mut i: usize = 0;
    while i < parts.len()
        invariant
            i <= parts@.len(),
            ps == parts@.map_values(|v: Vec<char>| v@),
            out@ == join(ps.subrange(0, i as int), sep@),
        decreases parts@.len() - i,
    {
        let ghost pre = ps.subrange(0, i as int);
        assert(ps.subrange(0, i + 1).drop_last() =~= pre);
        assert(ps.subrange(0, i + 1).last() == parts@[i as int]@);
        if i > 0 {
            append_chars(&mut out, sep);
        } else {
            assert(pre.len() == 0);
            assert(out@ =~= Seq::<char>::empty());
        }
        append_chars(&mut out, parts[i].as_slice());
        i = i + 1;
        proof {
            if i == 1 {
                assert(ps.subrange(0, 1) =~= seq![ps[0]]);
                assert(out@ =~= ps[0]);
            }
        }
    }
    assert(ps.subrange(0, parts@.len() as int) =~= ps);
    out
}

/// The concatenation of the characters of `a` and `b`.
pub fn cat(a: &[char], b: &[char]) -> (r: Vec<char>)
    ensures
        r@ == a@ + b@,
{
    let mut v = sub_chars(a, 0, a.len());
    assert(a@.subrange(0, a@.len() as int) =~= a@);
    append_chars(&mut v, b);
    v
}

/// The string `a` followed by `sep` and `b` (`format!("{}{}{}", a, sep, b)`).
pub fn cat3(a: &str, sep: &str, b: &str) -> (r: String)
    ensures
        r@ == a@ + sep@ + b@,
{
    let x = chars_of(a);
    let y = chars_of(sep);
    let z = chars_of(b);
    let xy = cat(x.as_slice(), y.as_slice());
    let xyz = cat(xy.as_slice(), z.as_slice());
    string_from(xyz.as_slice())
}

} // verus!

verus! {

/// The one-character sequence `[c]`.
pub fn single(c: char) -> (v: Vec<char>)
    ensures
        v@ == seq![c],
{
    let mut v = Vec::new();
    v.push(c);
    assert(v@ =~= seq![c]);
    v
}

} // verus!

verus! {

/// The search from `from` stops at or before any occurrence at or after it.
pub proof fn lemma_first_from_finds(s: Seq<char>, p: Seq<char>, from: int, k: int)
    requires
        0 <= from <= k,
        occurs_at(s, p, k),
    ensures
        from <= first_from(s, p, from) <= k,
    decreases k - from,
{
    if !occurs_at(s, p, from) {
        lemma_first_from_finds(s, p, from + 1, k);
    }
}

/// A character occurs in a sequence exactly when the one-character sequence
/// does.
pub proof fn lemma_contains_char(s: Seq<char>, c: char)
    ensures
        s.contains(c) <==> first_from(s, seq![c], 0) >= 0,
{
    lemma_first_from_bounds(s, seq![c], 0);
    if s.contains(c) {
        let k = choose|k: int| 0 <= k < s.len() && s[k] == c;
        assert forall|j: int| 0 <= j < 1 implies #[trigger] s[k + j] == seq![c][j] by {}
        lemma_first_from_finds(s, seq![c], 0, k);
    }
    if first_from(s, seq![c], 0) >= 0 {
        let k = first_from(s, seq![c], 0);
        assert(s[k + 0] == seq![c][0]);
    }
}

} // verus!
