//! Verified helpers over `&str` and its `Seq<char>` view: equality,
//! character search, slicing and simple predicates that the decoder and the
//! matching engine share.

use vstd::prelude::*;

verus! {

/// Relies on `String::push` from std: appending one character at the end.
pub assume_specification[ String::push ](s: &mut String, ch: char)
    ensures
        final(s)@ == old(s)@.push(ch),
;

/// Equality of two string slices, decided character by character.
pub fn str_eq(a: &str, b: &str) -> (r: bool)
    ensures
        r == (a@ == b@),
{
    let la = a.unicode_len();
    let lb = b.unicode_len();
    if la != lb {
        assert(a@ != b@) by {
            assert(a@.len() != b@.len());
        }
        return false;
    }
    let mut i: usize = 0;
    while i < la
        invariant
            i <= la,
            la == a@.len(),
            lb == b@.len(),
            la == lb,
            forall|k: int| 0 <= k < i ==> a@[k] == b@[k],
        decreases la - i,
    {
        if a.get_char(i) != b.get_char(i) {
            return false;
        }
        i += 1;
    }
    proof {
        assert(a@ =~= b@);
    }
    true
}

/// First index of `c` in `s` at or after `from`, or `s.len()` if absent.
pub open spec fn spec_find_char(s: Seq<char>, c: char, from: int) -> int
    decreases s.len() - from,
{
    if from < 0 || from >= s.len() {
        s.len() as int
    } else if s[from] == c {
        from
    } else {
        spec_find_char(s, c, from + 1)
    }
}

pub proof fn lemma_find_char(s: Seq<char>, c: char, from: int)
    requires
        0 <= from <= s.len(),
    ensures
        from <= spec_find_char(s, c, from) <= s.len(),
        spec_find_char(s, c, from) < s.len() ==> s[spec_find_char(s, c, from)] == c,
        forall|k: int| from <= k < spec_find_char(s, c, from) ==> s[k] != c,
    decreases s.len() - from,
{
    if from < s.len() && s[from] != c {
        lemma_find_char(s, c, from + 1);
    }
}

/// Last index of `c` in `s` strictly before `upto`, or -1 if absent there.
pub open spec fn spec_rfind_char(s: Seq<char>, c: char, upto: int) -> int
    decreases upto,
{
    if upto <= 0 || upto > s.len() {
        -1
    } else if s[upto - 1] == c {
        upto - 1
    } else {
        spec_rfind_char(s, c, upto - 1)
    }
}

pub proof fn lemma_rfind_char(s: Seq<char>, c: char, upto: int)
    requires
        0 <= upto <= s.len(),
    ensures
        -1 <= spec_rfind_char(s, c, upto) < upto,
        spec_rfind_char(s, c, upto) >= 0 ==> s[spec_rfind_char(s, c, upto)] == c,
        forall|k: int| spec_rfind_char(s, c, upto) < k < upto ==> s[k] != c,
    decreases upto,
{
    if upto > 0 && s[upto - 1] != c {
        lemma_rfind_char(s, c, upto - 1);
    }
}

/// Executable scan for the first occurrence of `c` at or after `from`.
pub fn find_char(s: &str, c: char, from: usize) -> (r: usize)
    requires
        from <= s@.len(),
    ensures
        r == spec_find_char(s@, c, from as int),
{
    let len = s.unicode_len();
    let mut i: usize = from;
    while i < len
        invariant
            from <= i <= len,
            len == s@.len(),
            spec_find_char(s@, c, from as int) == spec_find_char(s@, c, i as int),
        decreases len - i,
    {
        if s.get_char(i) == c {
            return i;
        }
        i += 1;
    }
    len
}

/// Executable scan for the last occurrence of `c` strictly before `upto`;
/// `None` when `c` does not occur there.
pub fn rfind_char(s: &str, c: char, upto: usize) -> (r: Option<usize>)
    requires
        upto <= s@.len(),
    ensures
        match r {
            Some(i) => spec_rfind_char(s@, c, upto as int) == i as int,
            None => spec_rfind_char(s@, c, upto as int) == -1,
        },
{
    let mut i: usize = upto;
    while i > 0
        invariant
            i <= upto,
            upto <= s@.len(),
            spec_rfind_char(s@, c, upto as int) == spec_rfind_char(s@, c, i as int),
        decreases i,
    {
        if s.get_char(i - 1) == c {
            return Some(i - 1);
        }
        i -= 1;
    }
    None
}

/// The characters that count as whitespace when lines and keys are trimmed,
/// mirroring the White_Space property that `char::is_whitespace` tests.
pub open spec fn is_space_char(c: char) -> bool {
    c == ' ' || c == '\t' || c == '\n' || c == '\r' || c == '\u{0B}' || c == '\u{0C}'
        || c == '\u{85}' || c == '\u{A0}' || c == '\u{1680}' || c == '\u{2000}'
        || c == '\u{2001}' || c == '\u{2002}' || c == '\u{2003}' || c == '\u{2004}'
        || c == '\u{2005}' || c == '\u{2006}' || c == '\u{2007}' || c == '\u{2008}'
        || c == '\u{2009}' || c == '\u{200A}' || c == '\u{2028}' || c == '\u{2029}'
        || c == '\u{202F}' || c == '\u{205F}' || c == '\u{3000}'
}

pub fn space_char(c: char) -> (r: bool)
    ensures
        r == is_space_char(c),
{
    c == ' ' || c == '\t' || c == '\n' || c == '\r' || c == '\u{0B}' || c == '\u{0C}'
        || c == '\u{85}' || c == '\u{A0}' || c == '\u{1680}' || c == '\u{2000}'
        || c == '\u{2001}' || c == '\u{2002}' || c == '\u{2003}' || c == '\u{2004}'
        || c == '\u{2005}' || c == '\u{2006}' || c == '\u{2007}' || c == '\u{2008}'
        || c == '\u{2009}' || c == '\u{200A}' || c == '\u{2028}' || c == '\u{2029}'
        || c == '\u{202F}' || c == '\u{205F}' || c == '\u{3000}'
}

/// Index of the first non-whitespace character, or the length.
pub open spec fn spec_trim_start(s: Seq<char>, from: int) -> int
    decreases s.len() - from,
{
    if from < 0 || from >= s.len() {
        s.len() as int
    } else if is_space_char(s[from]) {
        spec_trim_start(s, from + 1)
    } else {
        from
    }
}

/// One past the last non-whitespace character, or 0.
pub open spec fn spec_trim_end(s: Seq<char>, upto: int) -> int
    decreases upto,
{
    if upto <= 0 || upto > s.len() {
        0
    } else if is_space_char(s[upto - 1]) {
        spec_trim_end(s, upto - 1)
    } else {
        upto
    }
}

/// The view of a trimmed string.
pub open spec fn spec_trim(s: Seq<char>) -> Seq<char> {
    let a = spec_trim_start(s, 0);
    let b = spec_trim_end(s, s.len() as int);
    if a <= b {
        s.subrange(a, b)
    } else {
        Seq::empty()
    }
}

pub proof fn lemma_trim_start(s: Seq<char>, from: int)
    requires
        0 <= from <= s.len(),
    ensures
        from <= spec_trim_start(s, from) <= s.len(),
    decreases s.len() - from,
{
    if from < s.len() && is_space_char(s[from]) {
        lemma_trim_start(s, from + 1);
    }
}

pub proof fn lemma_trim_end(s: Seq<char>, upto: int)
    requires
        0 <= upto <= s.len(),
    ensures
        0 <= spec_trim_end(s, upto) <= upto,
    decreases upto,
{
    if upto > 0 && is_space_char(s[upto - 1]) {
        lemma_trim_end(s, upto - 1);
    }
}

/// Trim leading and trailing whitespace.
pub fn trim(s: &str) -> (r: &str)
    ensures
        r@ == spec_trim(s@),
{
    let len = s.unicode_len();
    let mut a: usize = 0;
    while a < len && space_char(s.get_char(a))
        invariant
            a <= len,
            len == s@.len(),
            spec_trim_start(s@, 0) == spec_trim_start(s@, a as int),
        decreases len - a,
    {
        a += 1;
    }
    proof {
        assert(spec_trim_start(s@, 0) == a as int);
    }
    let mut b: usize = len;
    while b > 0 && space_char(s.get_char(b - 1))
        invariant
            b <= len,
            len == s@.len(),
            spec_trim_end(s@, len as int) == spec_trim_end(s@, b as int),
        decreases b,
    {
        b -= 1;
    }
    proof {
        assert(spec_trim_end(s@, len as int) == b as int);
    }
    if a <= b {
        s.substring_char(a, b)
    } else {
        proof {
            lemma_trim_start(s@, 0);
            lemma_trim_end(s@, s@.len() as int);
        }
        let r = s.substring_char(0, 0);
        proof {
            assert(r@ =~= Seq::<char>::empty());
        }
        r
    }
}

/// A text that equals its own trimming does not begin with whitespace.
pub proof fn lemma_trim_id(s: Seq<char>)
    requires
        spec_trim(s) == s,
        s.len() > 0,
    ensures
        !is_space_char(s[0]),
{
    lemma_trim_start(s, 0);
    lemma_trim_end(s, s.len() as int);
    let a = spec_trim_start(s, 0);
    let b = spec_trim_end(s, s.len() as int);
    if is_space_char(s[0]) {
        lemma_trim_start(s, 1);
        assert(a == spec_trim_start(s, 1));
        assert(a >= 1);
        if a <= b {
            assert(spec_trim(s).len() == b - a);
        } else {
            assert(spec_trim(s).len() == 0);
        }
    }
}

/// All-whitespace prefixes: an empty trim-end means whitespace throughout.
proof fn lemma_trim_end_zero(s: Seq<char>, upto: int)
    requires
        0 <= upto <= s.len(),
        spec_trim_end(s, upto) == 0,
    ensures
        forall|k: int| 0 <= k < upto ==> is_space_char(s[k]),
    decreases upto,
{
    if upto > 0 {
        assert(is_space_char(s[upto - 1]));
        lemma_trim_end_zero(s, upto - 1);
    }
}

/// A text that starts with a non-whitespace character trims to something.
pub proof fn lemma_trim_nonblank(s: Seq<char>)
    requires
        s.len() > 0,
        !is_space_char(s[0]),
    ensures
        spec_trim(s).len() > 0,
{
    assert(spec_trim_start(s, 0) == 0);
    lemma_trim_end(s, s.len() as int);
    let b = spec_trim_end(s, s.len() as int);
    if b == 0 {
        lemma_trim_end_zero(s, s.len() as int);
    }
}

/// The first occurrence is where the first occurrence is.
pub proof fn lemma_find_char_at(s: Seq<char>, c: char, p: int)
    requires
        0 <= p < s.len(),
        s[p] == c,
        forall|k: int| 0 <= k < p ==> s[k] != c,
    ensures
        spec_find_char(s, c, 0) == p,
{
    lemma_find_char(s, c, 0);
    let f = spec_find_char(s, c, 0);
    if f < p {
        assert(s[f] == c);
    } else if f > p {
        assert(s[p] != c);
    }
}

/// Whether `pat` occurs in `s` starting at `i`.
pub open spec fn matches_at(s: Seq<char>, pat: Seq<char>, i: int) -> bool {
    &&& 0 <= i
    &&& i + pat.len() <= s.len()
    &&& s.subrange(i, i + pat.len()) == pat
}

/// The last index at which `pat` occurs strictly before `upto`, or -1.
pub open spec fn spec_rfind_sub(s: Seq<char>, pat: Seq<char>, upto: int) -> int
    decreases upto + 1,
{
    if upto < 0 {
        -1
    } else if matches_at(s, pat, upto) {
        upto
    } else {
        spec_rfind_sub(s, pat, upto - 1)
    }
}

pub proof fn lemma_rfind_sub(s: Seq<char>, pat: Seq<char>, upto: int)
    requires
        -1 <= upto < s.len(),
    ensures
        -1 <= spec_rfind_sub(s, pat, upto) <= upto,
        spec_rfind_sub(s, pat, upto) >= 0 ==> matches_at(s, pat, spec_rfind_sub(s, pat, upto)),
        forall|k: int| spec_rfind_sub(s, pat, upto) < k <= upto ==> !matches_at(s, pat, k),
    decreases upto + 1,
{
    if upto >= 0 && !matches_at(s, pat, upto) {
        lemma_rfind_sub(s, pat, upto - 1);
    }
}

/// Whether `pat` occurs at `i` in `s`, decided character by character.
pub fn check_match(s: &str, pat: &str, i: usize) -> (r: bool)
    requires
        i + pat@.len() <= s@.len(),
    ensures
        r == matches_at(s@, pat@, i as int),
{
    let slen = s.unicode_len();
    let plen = pat.unicode_len();
    let mut j: usize = 0;
    while j < plen
        invariant
            j <= plen,
            plen == pat@.len(),
            slen == s@.len(),
            i + plen <= slen,
            forall|k: int| 0 <= k < j ==> s@[i + k] == pat@[k],
        decreases plen - j,
    {
        if s.get_char(i + j) != pat.get_char(j) {
            proof {
                assert(s@.subrange(i as int, i + plen)[j as int] == s@[i + j]);
            }
            return false;
        }
        j += 1;
    }
    proof {
        assert(s@.subrange(i as int, i + plen) =~= pat@);
    }
    true
}

/// Search backwards for the last occurrence of `pat` in `s`.
pub fn rfind_sub(s: &str, pat: &str) -> (r: Option<usize>)
    requires
        pat@.len() >= 1,
    ensures
        ({
            let u = s@.len() - pat@.len();
            match r {
                Some(i) => spec_rfind_sub(s@, pat@, u) == i as int,
                None => spec_rfind_sub(s@, pat@, u) == -1,
            }
        }),
{
    let slen = s.unicode_len();
    let plen = pat.unicode_len();
    if plen > slen {
        return None;
    }
    let mut i: usize = slen - plen + 1;
    while i > 0
        invariant
            i <= slen - plen + 1,
            slen == s@.len(),
            plen == pat@.len(),
            plen <= slen,
            spec_rfind_sub(s@, pat@, s@.len() - pat@.len()) == spec_rfind_sub(
                s@,
                pat@,
                i as int - 1,
            ),
        decreases i,
    {
        if check_match(s, pat, i - 1) {
            return Some(i - 1);
        }
        i -= 1;
    }
    None
}

/// A line-terminated piece with one trailing carriage return removed.
pub open spec fn strip_cr(l: Seq<char>) -> Seq<char> {
    if l.len() > 0 && l[l.len() - 1] == '\r' {
        l.drop_last()
    } else {
        l
    }
}

/// The lines of a text: split at every newline, a carriage return before a
/// newline removed, and no final empty piece after a terminal newline.
pub open spec fn spec_lines(s: Seq<char>) -> Seq<Seq<char>>
    decreases s.len() via spec_lines_decreases
{
    if s.len() == 0 {
        Seq::empty()
    } else {
        let i = spec_find_char(s, '\n', 0);
        if i == s.len() {
            seq![s]
        } else {
            seq![strip_cr(s.take(i))] + spec_lines(s.skip(i + 1))
        }
    }
}

#[via_fn]
proof fn spec_lines_decreases(s: Seq<char>) {
    if s.len() > 0 {
        lemma_find_char(s, '\n', 0);
    }
}

/// Split a text into its lines.
pub fn split_lines(s: &str) -> (r: Vec<String>)
    ensures
        r@.map_values(|l: String| l@) == spec_lines(s@),
{
    let mut out: Vec<String> = Vec::new();
    let mut pos: usize = 0;
    let len = s.unicode_len();
    proof {
        assert(s@.skip(0) =~= s@);
        assert(out@.map_values(|l: String| l@) =~= Seq::<Seq<char>>::empty());
        assert(Seq::<Seq<char>>::empty() + spec_lines(s@) =~= spec_lines(s@));
    }
    while pos < len
        invariant
            pos <= len,
            len == s@.len(),
            spec_lines(s@) == out@.map_values(|l: String| l@) + spec_lines(s@.skip(pos as int)),
        decreases len - pos,
    {
        let ghost rest = s@.skip(pos as int);
        let i = find_char(s, '\n', pos);
        proof {
            lemma_find_char(s@, '\n', pos as int);
            assert(spec_find_char(rest, '\n', 0) == spec_find_char(s@, '\n', pos as int)
                - pos) by {
                lemma_find_char_shift(s@, '\n', pos as int, 0);
            }
        }
        let end: usize = if i < len && i > pos && s.get_char(i - 1) == '\r' {
            i - 1
        } else {
            i
        };
        let ghost old_out = out@;
        let piece = s.substring_char(pos, end);
        out.push(String::from_str(piece));
        proof {
            let ri = spec_find_char(rest, '\n', 0);
            if i == len {
                // final unterminated piece: no carriage-return stripping
                assert(ri == rest.len());
                assert(spec_lines(rest) =~= seq![rest]);
                assert(piece@ =~= rest);
                assert(out@.map_values(|l: String| l@) =~= old_out.map_values(|l: String| l@)
                    + seq![rest]);
                assert(s@.skip(len as int) =~= Seq::<char>::empty());
            } else {
                assert(ri == i - pos);
                assert(ri < rest.len());
                assert(rest.take(ri) =~= s@.subrange(pos as int, i as int));
                assert(strip_cr(rest.take(ri)) =~= s@.subrange(pos as int, end as int));
                assert(piece@ == strip_cr(rest.take(ri)));
                assert(spec_lines(rest) == seq![strip_cr(rest.take(ri))] + spec_lines(
                    rest.skip(ri + 1),
                ));
                assert(rest.skip(ri + 1) =~= s@.skip(i + 1));
                assert(out@.map_values(|l: String| l@) =~= old_out.map_values(|l: String| l@)
                    + seq![piece@]);
            }
        }
        pos = if i < len {
            i + 1
        } else {
            len
        };
    }
    proof {
        assert(s@.skip(pos as int).len() == 0);
        assert(spec_lines(s@.skip(pos as int)) =~= Seq::<Seq<char>>::empty());
        assert(out@.map_values(|l: String| l@) + Seq::<Seq<char>>::empty() =~= out@.map_values(
            |l: String| l@,
        ));
    }
    out
}

/// Searching from an offset into `s` equals searching the suffix.
pub proof fn lemma_find_char_shift(s: Seq<char>, c: char, pos: int, k: int)
    requires
        0 <= pos,
        0 <= k,
        pos + k <= s.len(),
    ensures
        spec_find_char(s, c, pos + k) - pos == spec_find_char(s.skip(pos), c, k),
    decreases s.len() - pos - k,
{
    let rest = s.skip(pos);
    if pos + k < s.len() {
        assert(rest[k] == s[pos + k]);
        if s[pos + k] != c {
            lemma_find_char_shift(s, c, pos, k + 1);
        }
    }
}

/// The pieces of `s` split at every occurrence of `c`; a trailing separator
/// yields a final empty piece, and an empty input one empty piece.
pub open spec fn spec_split(s: Seq<char>, c: char) -> Seq<Seq<char>>
    decreases s.len() via spec_split_decreases
{
    let i = spec_find_char(s, c, 0);
    if i == s.len() {
        seq![s]
    } else {
        seq![s.take(i)] + spec_split(s.skip(i + 1), c)
    }
}

#[via_fn]
proof fn spec_split_decreases(s: Seq<char>, c: char) {
    lemma_find_char(s, c, 0);
}

/// Split a string at every occurrence of `c`.
pub fn split_str(s: &str, c: char) -> (r: Vec<String>)
    ensures
        r@.map_values(|l: String| l@) == spec_split(s@, c),
        r@.len() >= 1,
{
    let mut out: Vec<String> = Vec::new();
    let mut pos: usize = 0;
    let len = s.unicode_len();
    proof {
        assert(s@.skip(0) =~= s@);
        assert(out@.map_values(|l: String| l@) =~= Seq::<Seq<char>>::empty());
        assert(Seq::<Seq<char>>::empty() + spec_split(s@, c) =~= spec_split(s@, c));
    }
    loop
        invariant_except_break
            pos <= len,
            len == s@.len(),
            spec_split(s@, c) == out@.map_values(|l: String| l@) + spec_split(
                s@.skip(pos as int),
                c,
            ),
        ensures
            spec_split(s@, c) == out@.map_values(|l: String| l@),
        decreases len - pos + 1,
    {
        let ghost rest = s@.skip(pos as int);
        let i = find_char(s, c, pos);
        proof {
            lemma_find_char(s@, c, pos as int);
            assert(spec_find_char(rest, c, 0) == spec_find_char(s@, c, pos as int) - pos) by {
                lemma_find_char_shift(s@, c, pos as int, 0);
            }
        }
        let ghost old_out = out@;
        let piece = s.substring_char(pos, i);
        out.push(String::from_str(piece));
        proof {
            let ri = spec_find_char(rest, c, 0);
            if i == len {
                assert(ri == rest.len());
                assert(spec_split(rest, c) =~= seq![rest]);
                assert(piece@ =~= rest);
                assert(out@.map_values(|l: String| l@) =~= old_out.map_values(|l: String| l@)
                    + seq![rest]);
            } else {
                assert(ri < rest.len());
                assert(rest.take(ri) =~= s@.subrange(pos as int, i as int));
                assert(piece@ == rest.take(ri));
                assert(spec_split(rest, c) == seq![rest.take(ri)] + spec_split(
                    rest.skip(ri + 1),
                    c,
                ));
                assert(rest.skip(ri + 1) =~= s@.skip(i + 1));
                assert(out@.map_values(|l: String| l@) =~= old_out.map_values(|l: String| l@)
                    + seq![piece@]);
            }
        }
        if i == len {
            proof {
                assert(out@.map_values(|l: String| l@) + Seq::<Seq<char>>::empty()
                    =~= out@.map_values(|l: String| l@));
            }
            break ;
        }
        pos = i + 1;
    }
    proof {
        lemma_split_len(s@, c);
    }
    out
}

/// A split has at least one piece.
pub proof fn lemma_split_len(s: Seq<char>, c: char)
    ensures
        spec_split(s, c).len() >= 1,
{
    lemma_find_char(s, c, 0);
}

/// ASCII-case-insensitive equality of two characters.
pub open spec fn eq_ign_char(a: char, b: char) -> bool {
    ||| a == b
    ||| (65 <= (a as u32) <= 90 && (b as u32) == (a as u32) + 32)
    ||| (65 <= (b as u32) <= 90 && (a as u32) == (b as u32) + 32)
}

/// ASCII-case-insensitive equality of two texts.
pub open spec fn eq_ign(a: Seq<char>, b: Seq<char>) -> bool {
    a.len() == b.len() && forall|i: int| 0 <= i < a.len() ==> eq_ign_char(a[i], b[i])
}

/// Compare two strings ignoring ASCII case.
pub fn str_eq_ignore_ascii_case(a: &str, b: &str) -> (r: bool)
    ensures
        r == eq_ign(a@, b@),
{
    let la = a.unicode_len();
    let lb = b.unicode_len();
    if la != lb {
        return false;
    }
    let mut i: usize = 0;
    while i < la
        invariant
            i <= la,
            la == a@.len(),
            lb == b@.len(),
            la == lb,
            forall|k: int| 0 <= k < i ==> eq_ign_char(a@[k], b@[k]),
        decreases la - i,
    {
        let ca = a.get_char(i);
        let cb = b.get_char(i);
        let ua = ca as u32;
        let ub = cb as u32;
        let same = ca == cb || (65 <= ua && ua <= 90 && ub == ua + 32) || (65 <= ub && ub <= 90
            && ua == ub + 32);
        if !same {
            return false;
        }
        i += 1;
    }
    true
}

/// ASCII whitespace, as the whitespace-splitting of command lines uses it.
pub open spec fn is_ascii_ws(c: char) -> bool {
    c == ' ' || c == '\t' || c == '\n' || c == '\r' || c == '\u{0C}'
}

/// First index at or after `from` holding ASCII whitespace, or the length.
pub open spec fn spec_find_ws(s: Seq<char>, from: int) -> int
    decreases s.len() - from,
{
    if from < 0 || from >= s.len() {
        s.len() as int
    } else if is_ascii_ws(s[from]) {
        from
    } else {
        spec_find_ws(s, from + 1)
    }
}

pub proof fn lemma_find_ws(s: Seq<char>, from: int)
    requires
        0 <= from <= s.len(),
    ensures
        from <= spec_find_ws(s, from) <= s.len(),
        spec_find_ws(s, from) < s.len() ==> is_ascii_ws(s[spec_find_ws(s, from)]),
        forall|k: int| from <= k < spec_find_ws(s, from) ==> !is_ascii_ws(s[k]),
    decreases s.len() - from,
{
    if from < s.len() && !is_ascii_ws(s[from]) {
        lemma_find_ws(s, from + 1);
    }
}

/// Searching from an offset into `s` equals searching the suffix.
pub proof fn lemma_find_ws_shift(s: Seq<char>, pos: int, k: int)
    requires
        0 <= pos,
        0 <= k,
        pos + k <= s.len(),
    ensures
        spec_find_ws(s, pos + k) - pos == spec_find_ws(s.skip(pos), k),
    decreases s.len() - pos - k,
{
    let rest = s.skip(pos);
    if pos + k < s.len() {
        assert(rest[k] == s[pos + k]);
        if !is_ascii_ws(s[pos + k]) {
            lemma_find_ws_shift(s, pos, k + 1);
        }
    }
}

/// The ASCII-whitespace-delimited tokens of a text, in order, with empty
/// pieces dropped.
pub open spec fn ws_tokens(s: Seq<char>) -> Seq<Seq<char>>
    decreases s.len() via ws_tokens_decreases
{
    if s.len() == 0 {
        Seq::empty()
    } else if is_ascii_ws(s[0]) {
        ws_tokens(s.drop_first())
    } else {
        let e = spec_find_ws(s, 0);
        seq![s.take(e)] + ws_tokens(s.skip(e))
    }
}

#[via_fn]
proof fn ws_tokens_decreases(s: Seq<char>) {
    if s.len() > 0 && !is_ascii_ws(s[0]) {
        lemma_find_ws(s, 0);
        assert(spec_find_ws(s, 0) >= 1);
    }
}

pub fn ascii_ws(c: char) -> (r: bool)
    ensures
        r == is_ascii_ws(c),
{
    c == ' ' || c == '\t' || c == '\n' || c == '\r' || c == '\u{0C}'
}

/// Split a text into its ASCII-whitespace-delimited tokens.
pub fn split_ws_tokens(s: &str) -> (r: Vec<String>)
    ensures
        r@.map_values(|t: String| t@) == ws_tokens(s@),
{
    let mut out: Vec<String> = Vec::new();
    let len = s.unicode_len();
    let mut pos: usize = 0;
    proof {
        assert(s@.skip(0) =~= s@);
        assert(out@.map_values(|t: String| t@) =~= Seq::<Seq<char>>::empty());
        assert(Seq::<Seq<char>>::empty() + ws_tokens(s@) =~= ws_tokens(s@));
    }
    while pos < len
        invariant
            pos <= len,
            len == s@.len(),
            ws_tokens(s@) == out@.map_values(|t: String| t@) + ws_tokens(s@.skip(pos as int)),
        decreases len - pos,
    {
        let ghost rest = s@.skip(pos as int);
        let c = s.get_char(pos);
        proof {
            assert(rest[0] == c);
        }
        if ascii_ws(c) {
            proof {
                assert(rest.drop_first() =~= s@.skip(pos as int + 1));
            }
            pos += 1;
        } else {
            let e = ({
                let mut e: usize = pos;
                while e < len && !ascii_ws(s.get_char(e))
                    invariant
                        pos <= e <= len,
                        len == s@.len(),
                        spec_find_ws(s@, pos as int) == spec_find_ws(s@, e as int),
                    decreases len - e,
                {
                    e += 1;
                }
                e
            });
            proof {
                assert(spec_find_ws(s@, pos as int) == e as int);
                lemma_find_ws_shift(s@, pos as int, 0);
                assert(spec_find_ws(rest, 0) == e - pos);
            }
            let tok = s.substring_char(pos, e);
            let ghost old_out = out@;
            out.push(String::from_str(tok));
            proof {
                assert(tok@ =~= rest.take(e - pos));
                assert(rest.skip(e - pos) =~= s@.skip(e as int));
                assert(ws_tokens(rest) == seq![rest.take(e - pos)] + ws_tokens(rest.skip(
                    e - pos,
                )));
                assert(out@.map_values(|t: String| t@) =~= old_out.map_values(|t: String| t@)
                    + seq![tok@]);
                assert(old_out.map_values(|t: String| t@) + (seq![tok@] + ws_tokens(
                    s@.skip(e as int),
                )) =~= (old_out.map_values(|t: String| t@) + seq![tok@]) + ws_tokens(
                    s@.skip(e as int),
                ));
            }
            pos = e;
        }
    }
    proof {
        assert(s@.skip(len as int).len() == 0);
        assert(ws_tokens(s@.skip(len as int)) =~= Seq::<Seq<char>>::empty());
        assert(out@.map_values(|t: String| t@) + Seq::<Seq<char>>::empty() =~= out@.map_values(
            |t: String| t@,
        ));
    }
    out
}

} // verus!
