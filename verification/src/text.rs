use vstd::prelude::*;

verus! {

/// `pat` occurs in `s` starting at position `i`.
pub open spec fn occurs_at(s: Seq<char>, pat: Seq<char>, i: int) -> bool {
    0 <= i && i + pat.len() <= s.len() && s.subrange(i, i + pat.len()) == pat
}

/// `pat` occurs somewhere in `s`. The empty pattern occurs in every text.
pub open spec fn contains(s: Seq<char>, pat: Seq<char>) -> bool {
    exists|i: int| occurs_at(s, pat, i)
}

/// `s` ends with `suffix`.
pub open spec fn ends_with(s: Seq<char>, suffix: Seq<char>) -> bool {
    suffix.len() <= s.len() && s.subrange(s.len() - suffix.len(), s.len() as int) == suffix
}

/// The characters of `s`, in order.
pub fn chars_of(s: &str) -> (out: Vec<char>)
    ensures
        out@ == s@,
{
    let mut out: Vec<char> = Vec::new();
    for c in iter: s.chars()
        invariant
            iter.seq() == s@,
            out@ == iter.seq().take(iter.index() as int),
    {
        out.push(c);
    }
    out
}

/// Whether `pat` occurs in `s` at position `i`.
pub fn matches_at(s: &[char], pat: &[char], i: usize) -> (b: bool)
    ensures
        b == occurs_at(s@, pat@, i as int),
{
    if pat.len() > s.len() || i > s.len() - pat.len() {
        return false;
    }
    let mut j: usize = 0;
    while j < pat.len()
        invariant
            j <= pat.len(),
            i + pat.len() <= s.len(),
            forall|k: int| 0 <= k < j ==> s@[i + k] == pat@[k],
        decreases pat.len() - j,
    {
        if s[i + j] != pat[j] {
            assert(s@.subrange(i as int, i + pat.len())[j as int] != pat@[j as int]);
            return false;
        }
        j += 1;
    }
    assert(s@.subrange(i as int, i + pat.len()) =~= pat@);
    true
}

/// Whether `pat` occurs anywhere in `s`.
pub fn occurs_in(s: &[char], pat: &[char]) -> (b: bool)
    ensures
        b == contains(s@, pat@),
{
    if pat.len() > s.len() {
        assert forall|i: int| !occurs_at(s@, pat@, i) by {}
        return false;
    }
    let last: usize = s.len() - pat.len();
    let mut i: usize = 0;
    loop
        invariant
            last == s.len() - pat.len(),
            i <= last,
            forall|k: int| 0 <= k < i ==> !occurs_at(s@, pat@, k),
        decreases last - i,
    {
        if matches_at(s, pat, i) {
            return true;
        }
        if i == last {
            assert forall|k: int| !occurs_at(s@, pat@, k) by {}
            return false;
        }
        i += 1;
    }
}

/// Whether `a` and `b` hold the same characters.
pub fn same(a: &[char], b: &[char]) -> (r: bool)
    ensures
        r == (a@ == b@),
{
    if a.len() != b.len() {
        return false;
    }
    let r = matches_at(a, b, 0);
    assert(a@.subrange(0, a@.len() as int) =~= a@);
    r
}

/// Whether `s` ends with `suffix`.
pub fn ends_in(s: &[char], suffix: &[char]) -> (b: bool)
    ensures
        b == ends_with(s@, suffix@),
{
    if suffix.len() > s.len() {
        return false;
    }
    matches_at(s, suffix, s.len() - suffix.len())
}

/// Start of the first occurrence of the non-empty `pat` in `s` at or after
/// `from`; `s.len() + 1` when there is none.
pub open spec fn first_from(s: Seq<char>, pat: Seq<char>, from: int) -> int
    decreases s.len() - from,
{
    if pat.len() == 0 || from < 0 || from + pat.len() > s.len() {
        s.len() as int + 1
    } else if occurs_at(s, pat, from) {
        from
    } else {
        first_from(s, pat, from + 1)
    }
}

/// The pieces of `s` from position `from` on, cut at each occurrence of `pat`,
/// taken from left to right without overlap.
pub open spec fn split_from(s: Seq<char>, pat: Seq<char>, from: int) -> Seq<Seq<char>>
    decreases s.len() - from,
{
    let k = first_from(s, pat, from);
    if pat.len() == 0 || from < 0 || from > s.len() {
        Seq::empty()
    } else if k < from || k + pat.len() > s.len() {
        seq![s.subrange(from, s.len() as int)]
    } else {
        seq![s.subrange(from, k)] + split_from(s, pat, k + pat.len())
    }
}

/// The pieces of `s` between the occurrences of the non-empty separator
/// `pat`. A text without the separator is its own single piece, and a text
/// that ends in the separator has an empty last piece.
pub open spec fn split(s: Seq<char>, pat: Seq<char>) -> Seq<Seq<char>> {
    split_from(s, pat, 0)
}

/// The views of a list of string slices.
pub open spec fn views(v: Seq<&str>) -> Seq<Seq<char>> {
    Seq::new(v.len(), |i: int| v[i]@)
}

/// The views of a list of strings.
pub open spec fn string_views(v: Seq<String>) -> Seq<Seq<char>> {
    Seq::new(v.len(), |i: int| v[i]@)
}

/// The parts of `s` that the char ranges `r` select.
pub open spec fn pieces(s: Seq<char>, r: Seq<(usize, usize)>) -> Seq<Seq<char>> {
    Seq::new(r.len(), |k: int| s.subrange(r[k].0 as int, r[k].1 as int))
}

/// The char ranges of the pieces of `s` cut at `pat`.
fn split_ranges(s: &[char], pat: &[char]) -> (out: Vec<(usize, usize)>)
    requires
        pat@.len() > 0,
    ensures
        pieces(s@, out@) == split(s@, pat@),
        forall|k: int| 0 <= k < out@.len() ==> (#[trigger] out@[k]).0 <= out@[k].1 <= s@.len(),
{
    let mut out: Vec<(usize, usize)> = Vec::new();
    let mut start: usize = 0;
    let mut i: usize = 0;
    while pat.len() <= s.len() && i <= s.len() - pat.len()
        invariant
            pat@.len() > 0,
            start <= i <= s@.len(),
            first_from(s@, pat@, start as int) == first_from(s@, pat@, i as int),
            forall|k: int|
                0 <= k < out@.len() ==> (#[trigger] out@[k]).0 <= out@[k].1 <= s@.len(),
            split(s@, pat@) =~= pieces(s@, out@) + split_from(s@, pat@, start as int),
        decreases s@.len() - i,
    {
        if matches_at(s, pat, i) {
            out.push((start, i));
            i += pat.len();
            start = i;
        } else {
            i += 1;
        }
    }
    out.push((start, s.len()));
    assert(pieces(s@, out@) =~= split(s@, pat@));
    out
}

/// Cuts `s` at each occurrence of the non-empty separator `pat`.
pub fn split_str<'a>(s: &'a str, pat: &[char]) -> (out: Vec<&'a str>)
    requires
        pat@.len() > 0,
    ensures
        views(out@) == split(s@, pat@),
{
    let chars = chars_of(s);
    let ranges = split_ranges(chars.as_slice(), pat);
    let mut out: Vec<&'a str> = Vec::new();
    let mut k: usize = 0;
    while k < ranges.len()
        invariant
            k <= ranges@.len(),
            out@.len() == k,
            forall|j: int|
                0 <= j < ranges@.len() ==> (#[trigger] ranges@[j]).0 <= ranges@[j].1 <= s@.len(),
            forall|j: int|
                0 <= j < k ==> (#[trigger] out@[j])@ == s@.subrange(
                    ranges@[j].0 as int,
                    ranges@[j].1 as int,
                ),
        decreases ranges@.len() - k,
    {
        let r = ranges[k];
        out.push(s.substring_char(r.0, r.1));
        k += 1;
    }
    assert(views(out@) =~= pieces(s@, ranges@));
    out
}

/// The characters with the Unicode property `White_Space`.
pub open spec fn is_white_space(c: char) -> bool {
    let n = c as u32;
    (0x09 <= n <= 0x0D) || n == 0x20 || n == 0x85 || n == 0xA0 || n == 0x1680 || (0x2000 <= n
        <= 0x200A) || n == 0x2028 || n == 0x2029 || n == 0x202F || n == 0x205F || n == 0x3000
}

/// Whether a character is dropped from the ends of a text: a given character
/// when `what` names one, white space when it names none.
pub open spec fn strips(what: Option<char>, c: char) -> bool {
    match what {
        Some(q) => c == q,
        None => is_white_space(c),
    }
}

/// `s` without its longest prefix of stripped characters.
pub open spec fn strip_front(s: Seq<char>, what: Option<char>) -> Seq<char>
    decreases s.len(),
{
    if s.len() > 0 && strips(what, s[0]) {
        strip_front(s.skip(1), what)
    } else {
        s
    }
}

/// `s` without its longest suffix of stripped characters.
pub open spec fn strip_back(s: Seq<char>, what: Option<char>) -> Seq<char>
    decreases s.len(),
{
    if s.len() > 0 && strips(what, s.last()) {
        strip_back(s.drop_last(), what)
    } else {
        s
    }
}

/// `s` without leading and trailing white space.
pub open spec fn trim(s: Seq<char>) -> Seq<char> {
    strip_back(strip_front(s, None), None)
}

/// `s` without the leading and trailing run of the character `q`.
pub open spec fn trim_matches(s: Seq<char>, q: char) -> Seq<char> {
    strip_back(strip_front(s, Some(q)), Some(q))
}

/// Whether `c` is white space.
pub fn white_space(c: char) -> (b: bool)
    ensures
        b == is_white_space(c),
{
    let n: u32 = c as u32;
    (0x09 <= n && n <= 0x0D) || n == 0x20 || n == 0x85 || n == 0xA0 || n == 0x1680 || (0x2000 <= n
        && n <= 0x200A) || n == 0x2028 || n == 0x2029 || n == 0x202F || n == 0x205F || n == 0x3000
}

fn is_stripped(what: Option<char>, c: char) -> (b: bool)
    ensures
        b == strips(what, c),
{
    match what {
        Some(q) => c == q,
        None => white_space(c),
    }
}

/// The char range of `s` that is left when the stripped characters are taken
/// from both ends.
fn strip_bounds(s: &[char], what: Option<char>) -> (r: (usize, usize))
    ensures
        r.0 <= r.1 <= s@.len(),
        s@.subrange(r.0 as int, r.1 as int) == strip_back(strip_front(s@, what), what),
{
    let mut a: usize = 0;
    assert(s@.skip(0) =~= s@);
    while a < s.len() && is_stripped(what, s[a])
        invariant
            a <= s@.len(),
            strip_front(s@, what) == strip_front(s@.skip(a as int), what),
        decreases s@.len() - a,
    {
        assert(s@.skip(a as int).skip(1) =~= s@.skip(a + 1));
        a += 1;
    }
    assert(strip_front(s@, what) == s@.skip(a as int));
    let mut b: usize = s.len();
    assert(s@.skip(a as int) =~= s@.subrange(a as int, b as int));
    while b > a && is_stripped(what, s[b - 1])
        invariant
            a <= b <= s@.len(),
            strip_back(strip_front(s@, what), what) == strip_back(
                s@.subrange(a as int, b as int),
                what,
            ),
        decreases b,
    {
        assert(s@.subrange(a as int, b as int).drop_last() =~= s@.subrange(a as int, b - 1));
        b -= 1;
    }
    (a, b)
}

/// `s` without leading and trailing white space.
pub fn trim_str<'a>(s: &'a str) -> (out: &'a str)
    ensures
        out@ == trim(s@),
{
    let chars = chars_of(s);
    let r = strip_bounds(chars.as_slice(), None);
    s.substring_char(r.0, r.1)
}

/// `s` without the leading and trailing run of the character `q`.
pub fn trim_matches_str<'a>(s: &'a str, q: char) -> (out: &'a str)
    ensures
        out@ == trim_matches(s@, q),
{
    let chars = chars_of(s);
    let r = strip_bounds(chars.as_slice(), Some(q));
    s.substring_char(r.0, r.1)
}

/// The character of a decimal digit.
pub open spec fn digit_char(d: nat) -> char {
    if d == 0 {
        '0'
    } else if d == 1 {
        '1'
    } else if d == 2 {
        '2'
    } else if d == 3 {
        '3'
    } else if d == 4 {
        '4'
    } else if d == 5 {
        '5'
    } else if d == 6 {
        '6'
    } else if d == 7 {
        '7'
    } else if d == 8 {
        '8'
    } else {
        '9'
    }
}

/// The decimal digits of `n`, without zeros in front.
pub open spec fn digits(n: nat) -> Seq<char>
    decreases n,
{
    if n < 10 {
        seq![digit_char(n)]
    } else {
        digits(n / 10).push(digit_char(n % 10))
    }
}

/// The text of one decimal digit.
fn digit_str(d: usize) -> (s: &'static str)
    requires
        d < 10,
    ensures
        s@ == seq![digit_char(d as nat)],
{
    proof {
        reveal_strlit("0");
        reveal_strlit("1");
        reveal_strlit("2");
        reveal_strlit("3");
        reveal_strlit("4");
        reveal_strlit("5");
        reveal_strlit("6");
        reveal_strlit("7");
        reveal_strlit("8");
        reveal_strlit("9");
    }
    let s = if d == 0 {
        "0"
    } else if d == 1 {
        "1"
    } else if d == 2 {
        "2"
    } else if d == 3 {
        "3"
    } else if d == 4 {
        "4"
    } else if d == 5 {
        "5"
    } else if d == 6 {
        "6"
    } else if d == 7 {
        "7"
    } else if d == 8 {
        "8"
    } else {
        "9"
    };
    assert(s@ =~= seq![digit_char(d as nat)]);
    s
}

/// `n` in decimal digits.
pub fn decimal_text(n: usize) -> (text: String)
    ensures
        text@ == digits(n as nat),
    decreases n,
{
    if n < 10 {
        String::from_str(digit_str(n))
    } else {
        let mut text = decimal_text(n / 10);
        text.append(digit_str(n % 10));
        assert(text@ =~= digits(n as nat));
        text
    }
}

/// The pieces of `parts` with `pat` between them.
pub open spec fn join(parts: Seq<Seq<char>>, pat: Seq<char>) -> Seq<char>
    decreases parts.len(),
{
    if parts.len() == 0 {
        Seq::empty()
    } else if parts.len() == 1 {
        parts[0]
    } else {
        parts[0] + pat + join(parts.skip(1), pat)
    }
}

/// Where `first_from` finds an occurrence, it is one at or after `from`.
proof fn lemma_first_from_found(s: Seq<char>, pat: Seq<char>, from: int)
    requires
        first_from(s, pat, from) <= s.len(),
    ensures
        from <= first_from(s, pat, from),
        occurs_at(s, pat, first_from(s, pat, from)),
        pat.len() > 0,
    decreases s.len() - from,
{
    if pat.len() == 0 || from < 0 || from + pat.len() > s.len() {
    } else if occurs_at(s, pat, from) {
    } else {
        lemma_first_from_found(s, pat, from + 1);
    }
}

/// No occurrence starts between `from` and what `first_from` finds.
proof fn lemma_first_from_is_first(s: Seq<char>, pat: Seq<char>, from: int, j: int)
    requires
        pat.len() > 0,
        0 <= from <= j < first_from(s, pat, from),
    ensures
        !occurs_at(s, pat, j),
    decreases j - from,
{
    if from + pat.len() > s.len() {
    } else if occurs_at(s, pat, from) {
    } else if j > from {
        lemma_first_from_is_first(s, pat, from + 1, j);
    }
}

/// From a position within the text, a split gives at least one piece.
proof fn lemma_split_from_nonempty(s: Seq<char>, pat: Seq<char>, from: int)
    requires
        pat.len() > 0,
        0 <= from <= s.len(),
    ensures
        split_from(s, pat, from).len() >= 1,
{
}

proof fn lemma_split_from_joins(s: Seq<char>, pat: Seq<char>, from: int)
    requires
        pat.len() > 0,
        0 <= from <= s.len(),
    ensures
        join(split_from(s, pat, from), pat) == s.skip(from),
    decreases s.len() - from,
{
    let k = first_from(s, pat, from);
    if k < from || k + pat.len() > s.len() {
        assert(s.subrange(from, s.len() as int) =~= s.skip(from));
    } else {
        lemma_first_from_found(s, pat, from);
        let next = k + pat.len();
        let rest = split_from(s, pat, next);
        lemma_split_from_joins(s, pat, next);
        lemma_split_from_nonempty(s, pat, next);
        let all = seq![s.subrange(from, k)] + rest;
        assert(all.skip(1) =~= rest);
        assert(all[0] == s.subrange(from, k));
        assert(s.subrange(from, k) + pat + s.skip(next) =~= s.skip(from)) by {
            assert(pat == s.subrange(k, next));
        }
    }
}

/// The pieces of a text, with the separator between them again, are the
/// text.
pub proof fn law_split_joins(s: Seq<char>, pat: Seq<char>)
    requires
        pat.len() > 0,
    ensures
        split(s, pat).len() >= 1,
        join(split(s, pat), pat) == s,
{
    lemma_split_from_joins(s, pat, 0);
    assert(s.skip(0) =~= s);
}

proof fn lemma_split_from_pieces_free(s: Seq<char>, pat: Seq<char>, from: int, i: int)
    requires
        pat.len() > 0,
        0 <= from <= s.len(),
        0 <= i < split_from(s, pat, from).len(),
    ensures
        !contains(split_from(s, pat, from)[i], pat),
    decreases s.len() - from,
{
    let k = first_from(s, pat, from);
    if k < from || k + pat.len() > s.len() {
        let piece = s.subrange(from, s.len() as int);
        assert forall|o: int| !occurs_at(piece, pat, o) by {
            if occurs_at(piece, pat, o) {
                assert(piece.subrange(o, o + pat.len()) =~= s.subrange(
                    from + o,
                    from + o + pat.len(),
                ));
                assert(occurs_at(s, pat, from + o));
                if k <= s.len() {
                    lemma_first_from_found(s, pat, from);
                } else {
                    lemma_first_from_is_first(s, pat, from, from + o);
                }
            }
        }
    } else {
        lemma_first_from_found(s, pat, from);
        let rest = split_from(s, pat, k + pat.len());
        if i == 0 {
            let piece = s.subrange(from, k);
            assert(split_from(s, pat, from)[0] == piece);
            assert forall|o: int| !occurs_at(piece, pat, o) by {
                if occurs_at(piece, pat, o) {
                    assert(piece.subrange(o, o + pat.len()) =~= s.subrange(
                        from + o,
                        from + o + pat.len(),
                    ));
                    assert(occurs_at(s, pat, from + o));
                    lemma_first_from_is_first(s, pat, from, from + o);
                }
            }
        } else {
            assert(split_from(s, pat, from)[i] == rest[i - 1]);
            lemma_split_from_pieces_free(s, pat, k + pat.len(), i - 1);
        }
    }
}

/// No piece of a split holds the separator.
pub proof fn law_split_pieces_free(s: Seq<char>, pat: Seq<char>)
    requires
        pat.len() > 0,
    ensures
        forall|i: int|
            0 <= i < split(s, pat).len() ==> !contains(#[trigger] split(s, pat)[i], pat),
{
    assert forall|i: int| 0 <= i < split(s, pat).len() implies !contains(
        #[trigger] split(s, pat)[i],
        pat,
    ) by {
        lemma_split_from_pieces_free(s, pat, 0, i);
    }
}

/// A text without the separator is its own single piece.
pub proof fn law_split_without_separator(s: Seq<char>, pat: Seq<char>)
    requires
        pat.len() > 0,
        !contains(s, pat),
    ensures
        split(s, pat) == seq![s],
{
    if first_from(s, pat, 0) <= s.len() {
        lemma_first_from_found(s, pat, 0);
    }
    assert(s.subrange(0, s.len() as int) =~= s);
}

proof fn lemma_strip_front_is_suffix(s: Seq<char>, what: Option<char>)
    ensures
        exists|a: int|
            0 <= a <= s.len() && #[trigger] s.skip(a) == strip_front(s, what) && (forall|i: int|
                0 <= i < a ==> strips(what, #[trigger] s[i])),
        strip_front(s, what).len() > 0 ==> !strips(what, strip_front(s, what)[0]),
    decreases s.len(),
{
    if s.len() > 0 && strips(what, s[0]) {
        lemma_strip_front_is_suffix(s.skip(1), what);
        let t = s.skip(1);
        let a = choose|a: int|
            0 <= a <= t.len() && #[trigger] t.skip(a) == strip_front(t, what) && (forall|i: int|
                0 <= i < a ==> strips(what, #[trigger] t[i]));
        assert(s.skip(a + 1) =~= t.skip(a));
        assert forall|i: int| 0 <= i < a + 1 implies strips(what, #[trigger] s[i]) by {
            if i > 0 {
                assert(s[i] == t[i - 1]);
            }
        }
    } else {
        assert(s.skip(0) =~= s);
    }
}

proof fn lemma_strip_back_is_prefix(s: Seq<char>, what: Option<char>)
    ensures
        exists|b: int|
            0 <= b <= s.len() && #[trigger] s.take(b) == strip_back(s, what) && (forall|i: int|
                b <= i < s.len() ==> strips(what, #[trigger] s[i])),
        strip_back(s, what).len() > 0 ==> !strips(what, strip_back(s, what).last()),
    decreases s.len(),
{
    if s.len() > 0 && strips(what, s.last()) {
        lemma_strip_back_is_prefix(s.drop_last(), what);
        let t = s.drop_last();
        let b = choose|b: int|
            0 <= b <= t.len() && #[trigger] t.take(b) == strip_back(t, what) && (forall|i: int|
                b <= i < t.len() ==> strips(what, #[trigger] t[i]));
        assert(s.take(b) =~= t.take(b));
        assert forall|i: int| b <= i < s.len() implies strips(what, #[trigger] s[i]) by {
            if i < t.len() {
                assert(s[i] == t[i]);
            }
        }
    } else {
        assert(s.take(s.len() as int) =~= s);
    }
}

/// A trimmed text is a part of the text, what was cut off at either end is
/// white space, and neither end of what is left is white space.
pub proof fn law_trim(s: Seq<char>)
    ensures
        exists|a: int, b: int|
            0 <= a <= b <= s.len() && #[trigger] s.subrange(a, b) == trim(s) && (forall|i: int|
                0 <= i < a || b <= i < s.len() ==> is_white_space(#[trigger] s[i])),
        trim(s).len() > 0 ==> !is_white_space(trim(s)[0]) && !is_white_space(trim(s).last()),
{
    lemma_strips_both_ends(s, None);
}

/// A text without the quotes at its ends is a part of the text, what was
/// cut off at either end is the quote, and neither end of what is left is
/// the quote.
pub proof fn law_trim_matches(s: Seq<char>, q: char)
    ensures
        exists|a: int, b: int|
            0 <= a <= b <= s.len() && #[trigger] s.subrange(a, b) == trim_matches(s, q) && (
            forall|i: int| 0 <= i < a || b <= i < s.len() ==> #[trigger] s[i] == q),
        trim_matches(s, q).len() > 0 ==> trim_matches(s, q)[0] != q && trim_matches(s, q).last()
            != q,
{
    lemma_strips_both_ends(s, Some(q));
    let (a, b) = choose|a: int, b: int|
        0 <= a <= b <= s.len() && #[trigger] s.subrange(a, b) == strip_back(
            strip_front(s, Some(q)),
            Some(q),
        ) && (forall|i: int|
            0 <= i < a || b <= i < s.len() ==> strips(Some(q), #[trigger] s[i]));
    assert(s.subrange(a, b) == trim_matches(s, q));
}

proof fn lemma_strips_both_ends(s: Seq<char>, what: Option<char>)
    ensures
        exists|a: int, b: int|
            0 <= a <= b <= s.len() && #[trigger] s.subrange(a, b) == strip_back(
                strip_front(s, what),
                what,
            ) && (forall|i: int|
                0 <= i < a || b <= i < s.len() ==> strips(what, #[trigger] s[i])),
        strip_back(strip_front(s, what), what).len() > 0 ==> !strips(
            what,
            strip_back(strip_front(s, what), what)[0],
        ) && !strips(what, strip_back(strip_front(s, what), what).last()),
{
    lemma_strip_front_is_suffix(s, what);
    let a = choose|a: int|
        0 <= a <= s.len() && #[trigger] s.skip(a) == strip_front(s, what) && (forall|i: int|
            0 <= i < a ==> strips(what, #[trigger] s[i]));
    let t = s.skip(a);
    lemma_strip_back_is_prefix(t, what);
    let n = choose|n: int|
        0 <= n <= t.len() && #[trigger] t.take(n) == strip_back(t, what) && (forall|i: int|
            n <= i < t.len() ==> strips(what, #[trigger] t[i]));
    let b = a + n;
    assert(s.subrange(a, b) =~= t.take(n));
    assert forall|i: int| 0 <= i < a || b <= i < s.len() implies strips(
        what,
        #[trigger] s[i],
    ) by {
        if i >= b {
            assert(s[i] == t[i - a]);
        }
    }
    if t.take(n).len() > 0 {
        assert(t.take(n)[0] == t[0]);
    }
}

} // verus!
