//! The matching engine, identifier side: scoring candidate identifiers
//! against entries by longest-common-substring ratio, and selecting the best
//! entry under a confidence policy.
//!
//! Scores are fixed-point fractions of [`SCORE_SCALE`]: `SCORE_SCALE` stands
//! for a similarity of one, 0 for none.

use crate::entry::{de_group_name, file_stem_of, g_entry, last_dot_segment, DesktopEntry, EntryView};
use crate::strutil::{eq_ign, split_ws_tokens, str_eq, str_eq_ignore_ascii_case, ws_tokens};
use vstd::prelude::*;

verus! {

/// The denominator of all scores: a score of `SCORE_SCALE` means identical.
pub const SCORE_SCALE: u64 = 1000000;

/// What is subtracted from a candidate's score when it matched only the
/// identifier's last dot-separated segment.
pub const SEGMENT_PENALTY: u64 = 50000;

/// What is subtracted from a candidate's score when it matched only the
/// entry's command line.
pub const EXEC_PENALTY: u64 = 50000;

/// Above this score an entry counts as a perfect match and the scan stops.
pub const PERFECT_SCORE: u64 = 990000;

/// Whether `a` and `b` share a common substring of length `k`.
pub open spec fn spec_has_common(a: Seq<char>, b: Seq<char>, k: int) -> bool {
    0 <= k && exists|i: int, j: int|
        #![trigger a.subrange(i, i + k), b.subrange(j, j + k)]
        0 <= i && i + k <= a.len() && 0 <= j && j + k <= b.len() && a.subrange(i, i + k)
            == b.subrange(j, j + k)
}

/// The largest `k2 <= k` such that a common substring of length `k2` exists.
pub open spec fn lcs_from(a: Seq<char>, b: Seq<char>, k: int) -> int
    decreases k + 1,
{
    if k <= 0 {
        0
    } else if spec_has_common(a, b, k) {
        k
    } else {
        lcs_from(a, b, k - 1)
    }
}

/// The length of the longest common substring.
pub open spec fn spec_lcs(a: Seq<char>, b: Seq<char>) -> int {
    lcs_from(a, b, if a.len() <= b.len() { a.len() as int } else { b.len() as int })
}

/// The longest-common-substring ratio, scaled: `lcs * SCORE_SCALE /
/// max(|a|, |b|)`; two empty texts count as identical.
pub open spec fn spec_lcs_ratio(a: Seq<char>, b: Seq<char>) -> int {
    let m = if a.len() >= b.len() { a.len() as int } else { b.len() as int };
    if m == 0 {
        SCORE_SCALE as int
    } else {
        spec_lcs(a, b) * (SCORE_SCALE as int) / m
    }
}

/// A ratio with a penalty subtracted, clamped to non-negative.
pub open spec fn spec_penalized(r: int, pen: int) -> int {
    if r >= pen {
        r - pen
    } else {
        0
    }
}

/// The score of one candidate pattern against one entry: the best of the
/// identifier itself, its last dot-separated segment (penalized), the
/// startup window class, and the command line (penalized).
pub open spec fn spec_entry_score(p: Seq<char>, ev: EntryView) -> int {
    let s1 = spec_lcs_ratio(p, ev.appid);
    let s2 = spec_penalized(
        spec_lcs_ratio(p, last_dot_segment(ev.appid)),
        SEGMENT_PENALTY as int,
    );
    let s3 = match g_entry(ev.groups, de_group_name(), "StartupWMClass"@) {
        Some(w) => spec_lcs_ratio(p, w),
        None => 0,
    };
    let s4 = match g_entry(ev.groups, de_group_name(), "Exec"@) {
        Some(x) => spec_penalized(spec_lcs_ratio(p, x), EXEC_PENALTY as int),
        None => 0,
    };
    let m12 = if s1 >= s2 { s1 } else { s2 };
    let m34 = if s3 >= s4 { s3 } else { s4 };
    if m12 >= m34 { m12 } else { m34 }
}

/// The best score of any candidate pattern against one entry; 0 when there
/// are no patterns.
pub open spec fn spec_candidates_score(ps: Seq<Seq<char>>, ev: EntryView) -> int
    decreases ps.len(),
{
    if ps.len() == 0 {
        0
    } else {
        let rest = spec_candidates_score(ps.drop_first(), ev);
        let s = spec_entry_score(ps[0], ev);
        if s >= rest { s } else { rest }
    }
}

/// The scan over the candidate entries from index `i` with the running
/// best score, best index and second-best score; the scan stops early once
/// the best exceeds [`PERFECT_SCORE`].  Returns (best, best index, second).
pub open spec fn spec_scan(
    entries: Seq<EntryView>,
    ps: Seq<Seq<char>>,
    i: int,
    best: int,
    bi: int,
    second: int,
) -> (int, int, int)
    decreases entries.len() - i,
{
    if i < 0 || i >= entries.len() {
        (best, bi, second)
    } else {
        let s = spec_candidates_score(ps, entries[i]);
        let nb = if s > best { s } else { best };
        let nbi = if s > best { i } else { bi };
        let ns = if s > best {
            best
        } else if s > second {
            s
        } else {
            second
        };
        if nb > PERFECT_SCORE as int {
            (nb, nbi, ns)
        } else {
            spec_scan(entries, ps, i + 1, nb, nbi, ns)
        }
    }
}

/// Whether the policy accepts the scan's outcome: the best score beats the
/// minimum, or the configured entropy rule does — the gap between best and
/// second-best exceeds its threshold while the best beats its own minimum.
pub open spec fn spec_accepted(best: int, second: int, opts: MatchOptionsView) -> bool {
    ||| best > opts.min_score
    ||| match opts.entropy {
        Some((min_entropy, min_score)) => best - second > min_entropy && best > min_score,
        None => false,
    }
}

/// The confidence policy of the identifier match.
pub struct MatchOptions {
    /// The score the best entry must exceed to be accepted outright.
    pub min_score: u64,
    /// An optional fallback: (minimal gap to the second-best score, minimal
    /// best score) under which a below-minimum best is still accepted.
    pub entropy: Option<(u64, u64)>,
}

/// The model of the confidence policy, over unbounded integers.
pub struct MatchOptionsView {
    pub min_score: int,
    pub entropy: Option<(int, int)>,
}

impl View for MatchOptions {
    type V = MatchOptionsView;

    open spec fn view(&self) -> MatchOptionsView {
        MatchOptionsView {
            min_score: self.min_score as int,
            entropy: match self.entropy {
                Some(p) => Some((p.0 as int, p.1 as int)),
                None => None,
            },
        }
    }
}

impl Default for MatchOptions {
    /// A minimum score of 0.7 with no entropy fallback.
    fn default() -> (r: Self)
        ensures
            r.min_score == 700000,
            r.entropy is None,
    {
        MatchOptions { min_score: 700000, entropy: None }
    }
}

/// Whether `a` and `b` agree on `k` characters from `i` and `j`.
fn eq_at(a: &str, b: &str, i: usize, j: usize, k: usize) -> (r: bool)
    requires
        i + k <= a@.len(),
        j + k <= b@.len(),
    ensures
        r == (a@.subrange(i as int, i + k) == b@.subrange(j as int, j + k)),
{
    let la = a.unicode_len();
    let lb = b.unicode_len();
    let mut n: usize = 0;
    while n < k
        invariant
            n <= k,
            la == a@.len(),
            lb == b@.len(),
            i + k <= la,
            j + k <= lb,
            forall|t: int| 0 <= t < n ==> #[trigger] a@[i + t] == b@[j + t],
        decreases k - n,
    {
        if a.get_char(i + n) != b.get_char(j + n) {
            proof {
                assert(a@.subrange(i as int, i + k)[n as int] == a@[i + n]);
                assert(b@.subrange(j as int, j + k)[n as int] == b@[j + n]);
            }
            return false;
        }
        n += 1;
    }
    proof {
        assert forall|t: int| 0 <= t < k implies #[trigger] a@.subrange(i as int, i + k)[t]
            == b@.subrange(j as int, j + k)[t] by {
            assert(a@[i + t] == b@[j + t]);
        }
        assert(a@.subrange(i as int, i + k) =~= b@.subrange(j as int, j + k));
    }
    true
}

/// Whether some common substring of length `k` exists.
fn common_at_len(a: &str, b: &str, k: usize) -> (r: bool)
    requires
        k >= 1,
    ensures
        r == spec_has_common(a@, b@, k as int),
{
    let la = a.unicode_len();
    let lb = b.unicode_len();
    if k > la || k > lb {
        return false;
    }
    let mut i: usize = 0;
    while i <= la - k
        invariant
            la == a@.len(),
            lb == b@.len(),
            1 <= k <= la,
            k <= lb,
            i <= la - k + 1,
            forall|ii: int, jj: int|
                #![trigger a@.subrange(ii, ii + k), b@.subrange(jj, jj + k)]
                0 <= ii < i && 0 <= jj && jj + k <= lb ==> a@.subrange(ii, ii + k) != b@.subrange(
                    jj,
                    jj + k,
                ),
        decreases la - k - i + 1,
    {
        let mut j: usize = 0;
        while j <= lb - k
            invariant
                la == a@.len(),
                lb == b@.len(),
                1 <= k <= la,
                k <= lb,
                j <= lb - k + 1,
                i + k <= la,
                forall|ii: int, jj: int|
                    #![trigger a@.subrange(ii, ii + k), b@.subrange(jj, jj + k)]
                    0 <= ii < i && 0 <= jj && jj + k <= lb ==> a@.subrange(ii, ii + k)
                        != b@.subrange(jj, jj + k),
                forall|jj: int|
                    #![trigger b@.subrange(jj, jj + k)]
                    0 <= jj < j ==> a@.subrange(i as int, i + k) != b@.subrange(jj, jj + k),
            decreases lb - k - j + 1,
        {
            if eq_at(a, b, i, j, k) {
                return true;
            }
            j += 1;
        }
        i += 1;
    }
    proof {
        assert forall|ii: int, jj: int|
            #![trigger a@.subrange(ii, ii + k), b@.subrange(jj, jj + k)]
            0 <= ii && ii + k <= la && 0 <= jj && jj + k <= lb implies a@.subrange(ii, ii + k)
            != b@.subrange(jj, jj + k) by {
            assert(ii < i);
        }
    }
    false
}

/// The length of the longest common substring of `a` and `b`.
pub fn lcs_len(a: &str, b: &str) -> (r: usize)
    ensures
        r == spec_lcs(a@, b@),
{
    let la = a.unicode_len();
    let lb = b.unicode_len();
    let min = if la < lb {
        la
    } else {
        lb
    };
    let mut k = min;
    while k > 0
        invariant
            k <= min,
            la == a@.len(),
            lb == b@.len(),
            min == (if la <= lb { la } else { lb }),
            spec_lcs(a@, b@) == lcs_from(a@, b@, k as int),
        decreases k,
    {
        if common_at_len(a, b, k) {
            return k;
        }
        k -= 1;
    }
    0
}

/// The longest-common-substring ratio of two texts, scaled.
pub fn lcs_ratio(a: &str, b: &str) -> (r: u64)
    ensures
        r == spec_lcs_ratio(a@, b@),
        r <= SCORE_SCALE,
{
    let la = a.unicode_len();
    let lb = b.unicode_len();
    let m = if la >= lb {
        la
    } else {
        lb
    };
    if m == 0 {
        return SCORE_SCALE;
    }
    let l = lcs_len(a, b);
    proof {
        lemma_lcs_bound(a@, b@);
        assert(l <= m);
        assert(l as int * SCORE_SCALE as int <= m as int * SCORE_SCALE as int) by (nonlinear_arith)
            requires
                l as int <= m as int,
        ;
        assert(l as int * SCORE_SCALE as int / m as int <= SCORE_SCALE as int)
            by (nonlinear_arith)
            requires
                m as int >= 1,
                l as int * SCORE_SCALE as int <= m as int * SCORE_SCALE as int,
        ;
        vstd::arithmetic::div_mod::lemma_div_is_ordered_by_denominator(
            l as int * SCORE_SCALE as int,
            1,
            1,
        );
    }
    let num = (l as u128) * (SCORE_SCALE as u128);
    let q = num / (m as u128);
    proof {
        assert(q == l as int * SCORE_SCALE as int / m as int) by (nonlinear_arith)
            requires
                m as int >= 1,
                num == l as int * SCORE_SCALE as int,
                q == num as int / m as int,
        ;
    }
    q as u64
}

/// The longest common substring is no longer than either text.
pub proof fn lemma_lcs_bound(a: Seq<char>, b: Seq<char>)
    ensures
        0 <= spec_lcs(a, b),
        spec_lcs(a, b) <= a.len(),
        spec_lcs(a, b) <= b.len(),
{
    let min: int = if a.len() <= b.len() {
        a.len() as int
    } else {
        b.len() as int
    };
    lemma_lcs_from_bound(a, b, min);
}

proof fn lemma_lcs_from_bound(a: Seq<char>, b: Seq<char>, k: int)
    ensures
        0 <= lcs_from(a, b, k),
        lcs_from(a, b, k) <= (if k >= 0 { k } else { 0 }),
    decreases k + 1,
{
    if k > 0 && !spec_has_common(a, b, k) {
        lemma_lcs_from_bound(a, b, k - 1);
    }
}

impl DesktopEntry {
    /// The score of one candidate pattern against this entry.
    pub fn match_score(&self, pattern: &str) -> (r: u64)
        ensures
            r == spec_entry_score(pattern@, self@),
            r <= SCORE_SCALE,
    {
        let s1 = lcs_ratio(pattern, self.appid.as_str());
        let alen = self.appid.as_str().unicode_len();
        let seg_start: usize = match crate::strutil::rfind_char(self.appid.as_str(), '.', alen) {
            Some(k) => {
                proof {
                    crate::strutil::lemma_rfind_char(self@.appid, '.', alen as int);
                }
                k + 1
            },
            None => 0,
        };
        let seg = self.appid.as_str().substring_char(seg_start, alen);
        proof {
            assert(seg@ =~= last_dot_segment(self@.appid));
        }
        let s2r = lcs_ratio(pattern, seg);
        let s2 = if s2r >= SEGMENT_PENALTY {
            s2r - SEGMENT_PENALTY
        } else {
            0
        };
        let s3 = match self.startup_wm_class() {
            Some(w) => lcs_ratio(pattern, w),
            None => 0,
        };
        let s4 = match self.exec() {
            Some(x) => {
                let xr = lcs_ratio(pattern, x);
                if xr >= EXEC_PENALTY {
                    xr - EXEC_PENALTY
                } else {
                    0
                }
            },
            None => 0,
        };
        let m12 = if s1 >= s2 {
            s1
        } else {
            s2
        };
        let m34 = if s3 >= s4 {
            s3
        } else {
            s4
        };
        if m12 >= m34 {
            m12
        } else {
            m34
        }
    }
}

/// The views of a list of candidate patterns.
pub open spec fn patterns_view(ps: &Vec<String>) -> Seq<Seq<char>> {
    ps@.map_values(|s: String| s@)
}

/// The views of a list of entries.
pub open spec fn entries_view(es: &Vec<DesktopEntry>) -> Seq<EntryView> {
    es@.map_values(|e: DesktopEntry| e@)
}

/// The best score of any candidate pattern against one entry.
fn candidates_score(patterns: &Vec<String>, e: &DesktopEntry) -> (r: u64)
    ensures
        r == spec_candidates_score(patterns_view(patterns), e@),
        r <= SCORE_SCALE,
{
    let ghost psv = patterns_view(patterns);
    let n = patterns.len();
    let mut best: u64 = 0;
    let mut i: usize = n;
    proof {
        assert(psv.skip(n as int) =~= Seq::<Seq<char>>::empty());
    }
    while i > 0
        invariant
            i <= n,
            n == patterns@.len(),
            psv == patterns_view(patterns),
            best <= SCORE_SCALE,
            best == spec_candidates_score(psv.skip(i as int), e@),
        decreases i,
    {
        i -= 1;
        let s = e.match_score(patterns[i].as_str());
        proof {
            assert(psv.skip(i as int)[0] == patterns@[i as int]@);
            assert(psv.skip(i as int).drop_first() =~= psv.skip(i as int + 1));
        }
        if s >= best {
            best = s;
        }
    }
    proof {
        assert(psv.skip(0) =~= psv);
    }
    best
}

/// Select the entry that best matches any of the candidate identifier
/// patterns, under the confidence policy: the first highest-scoring entry
/// wins ties, the scan stops at a near-perfect score, and the result is
/// `None` when the policy rejects the best score.
pub fn best_identifier_match<'a>(
    patterns: &Vec<String>,
    entries: &'a Vec<DesktopEntry>,
    opts: &MatchOptions,
) -> (r: Option<&'a DesktopEntry>)
    ensures
        ({
            let (best, bi, second) = spec_scan(
                entries_view(entries),
                patterns_view(patterns),
                0,
                -1,
                -1,
                -1,
            );
            if spec_accepted(best, second, opts@) {
                r matches Some(e) && 0 <= bi < entries@.len() && e@ == entries@[bi]@
            } else {
                r is None
            }
        }),
{
    let ghost esv = entries_view(entries);
    let ghost psv = patterns_view(patterns);
    let n = entries.len();
    let mut best: i128 = -1;
    let mut bi: i128 = -1;
    let mut second: i128 = -1;
    let mut i: usize = 0;
    let mut stopped = false;
    while i < n && !stopped
        invariant
            i <= n,
            n == entries@.len(),
            esv == entries_view(entries),
            psv == patterns_view(patterns),
            -1 <= best <= SCORE_SCALE,
            -1 <= second <= best,
            best >= 0 ==> 0 <= bi < i,
            best == -1 ==> bi == -1 && i == 0,
            stopped ==> best > PERFECT_SCORE,
            spec_scan(esv, psv, 0, -1, -1, -1) == (if stopped {
                (best as int, bi as int, second as int)
            } else {
                spec_scan(esv, psv, i as int, best as int, bi as int, second as int)
            }),
        decreases n - i,
    {
        let ghost ob = best as int;
        let ghost obi = bi as int;
        let ghost os = second as int;
        let s = candidates_score(patterns, &entries[i]) as i128;
        proof {
            assert(esv[i as int] == entries@[i as int]@);
            assert(s as int == spec_candidates_score(psv, esv[i as int]));
        }
        if s > best {
            second = best;
            best = s;
            bi = i as i128;
        } else if s > second {
            second = s;
        }
        if best > PERFECT_SCORE as i128 {
            stopped = true;
        }
        proof {
            let step = spec_scan(esv, psv, i as int, ob, obi, os);
            assert(step == (if best as int > PERFECT_SCORE as int {
                (best as int, bi as int, second as int)
            } else {
                spec_scan(esv, psv, i as int + 1, best as int, bi as int, second as int)
            }));
        }
        i += 1;
    }
    proof {
        if !stopped {
            assert(spec_scan(esv, psv, n as int, best as int, bi as int, second as int) == (
            best as int,
            bi as int,
            second as int,
            ));
        }
    }
    let accept = best > opts.min_score as i128 || (match opts.entropy {
        Some((min_entropy, min_score)) => best - second > min_entropy as i128 && best
            > min_score as i128,
        None => false,
    });
    if accept {
        proof {
            assert(spec_accepted(best as int, second as int, opts@));
        }
        if bi >= 0 {
            Some(&entries[bi as usize])
        } else {
            proof {
                assert(false);
            }
            None
        }
    } else {
        None
    }
}

/// What lowercasing a text yields.  The mapping belongs to the Unicode
/// tables of the standard library; only the outcome is named here.
pub uninterp spec fn lower_of(s: Seq<char>) -> Seq<char>;

/// Relies on `str::to_lowercase`: the result depends on the characters
/// alone, and an empty text stays empty.
#[verifier::external_body]
pub(crate) fn lowercase(s: &str) -> (r: String)
    ensures
        r@ == lower_of(s@),
        s@.len() == 0 ==> r@.len() == 0,
{
    s.to_lowercase()
}

/// Whether an entry answers to a lowercased identifier: by its own
/// lowercased identifier, or its lowercased startup window class.
pub open spec fn appid_answers(ev: EntryView, q: Seq<char>) -> bool {
    ||| lower_of(ev.appid) == q
    ||| match g_entry(ev.groups, de_group_name(), "StartupWMClass"@) {
        Some(w) => lower_of(w) == q,
        None => false,
    }
}

/// The first entry whose identifier or startup window class equals the
/// query, compared lowercased.
pub fn find_entry_from_appid<'a>(entries: &'a Vec<DesktopEntry>, appid: &str) -> (r: Option<
    &'a DesktopEntry,
>)
    ensures
        match r {
            Some(e) => exists|i: int|
                0 <= i < entries@.len() && e@ == #[trigger] entries@[i]@ && appid_answers(
                    entries@[i]@,
                    lower_of(appid@),
                ) && (forall|j: int|
                    0 <= j < i ==> !appid_answers(#[trigger] entries@[j]@, lower_of(appid@))),
            None => forall|i: int|
                0 <= i < entries@.len() ==> !appid_answers(
                    #[trigger] entries@[i]@,
                    lower_of(appid@),
                ),
        },
{
    let q = lowercase(appid);
    let n = entries.len();
    let mut i: usize = 0;
    while i < n
        invariant
            i <= n,
            n == entries@.len(),
            q@ == lower_of(appid@),
            forall|j: int| 0 <= j < i ==> !appid_answers(#[trigger] entries@[j]@, lower_of(appid@)),
        decreases n - i,
    {
        let e = &entries[i];
        let el = lowercase(e.appid.as_str());
        if str_eq(el.as_str(), q.as_str()) {
            return Some(e);
        }
        let wm_hit = match e.startup_wm_class() {
            Some(w) => {
                let wl = lowercase(w);
                str_eq(wl.as_str(), q.as_str())
            },
            None => false,
        };
        if wm_hit {
            return Some(e);
        }
        i += 1;
    }
    None
}

/// One search tier of the identifier lookup, strongest first: startup
/// window class, identifier or file stem, unlocalized name, whole command
/// line, first word of the command line — all ignoring ASCII case.
pub open spec fn tier_match(ev: EntryView, q: Seq<char>, t: int) -> bool {
    if t == 1 {
        match g_entry(ev.groups, de_group_name(), "StartupWMClass"@) {
            Some(w) => eq_ign(w, q),
            None => false,
        }
    } else if t == 2 {
        eq_ign(q, ev.appid) || match file_stem_of(ev.path) {
            Some(n) => eq_ign(n, q) || eq_ign(last_dot_segment(q), n),
            None => false,
        }
    } else if t == 3 {
        match g_entry(ev.groups, de_group_name(), "Name"@) {
            Some(n) => eq_ign(n, q),
            None => false,
        }
    } else if t == 4 {
        match g_entry(ev.groups, de_group_name(), "Exec"@) {
            Some(x) => eq_ign(x, q),
            None => false,
        }
    } else if t == 5 {
        match g_entry(ev.groups, de_group_name(), "Exec"@) {
            Some(x) => ws_tokens(x).len() > 0 && eq_ign(ws_tokens(x)[0], q),
            None => false,
        }
    } else {
        false
    }
}

/// Whether any entry matches at one tier.
pub open spec fn tier_found(esv: Seq<EntryView>, q: Seq<char>, t: int) -> bool {
    exists|i: int| 0 <= i < esv.len() && tier_match(#[trigger] esv[i], q, t)
}

impl DesktopEntry {
    /// Whether this entry matches the query at one search tier.
    fn tier_matches(&self, q: &str, t: u8) -> (r: bool)
        requires
            1 <= t <= 5,
        ensures
            r == tier_match(self@, q@, t as int),
    {
        if t == 1 {
            self.matches_wm_class(q)
        } else if t == 2 {
            self.matches_id(q)
        } else if t == 3 {
            self.matches_name(q)
        } else if t == 4 {
            match self.exec() {
                Some(x) => str_eq_ignore_ascii_case(x, q),
                None => false,
            }
        } else {
            match self.exec() {
                Some(x) => {
                    let toks = split_ws_tokens(x);
                    if toks.len() > 0 {
                        proof {
                            assert(toks@.map_values(|s: String| s@)[0] == toks@[0]@);
                        }
                        str_eq_ignore_ascii_case(toks[0].as_str(), q)
                    } else {
                        false
                    }
                },
                None => false,
            }
        }
    }
}

/// The first entry matching at one tier.
fn find_tier<'a>(entries: &'a Vec<DesktopEntry>, q: &str, t: u8) -> (r: Option<&'a DesktopEntry>)
    requires
        1 <= t <= 5,
    ensures
        match r {
            Some(e) => exists|i: int|
                0 <= i < entries@.len() && e@ == #[trigger] entries@[i]@ && tier_match(
                    entries@[i]@,
                    q@,
                    t as int,
                ) && (forall|j: int|
                    0 <= j < i ==> !tier_match(#[trigger] entries@[j]@, q@, t as int)),
            None => !tier_found(entries@.map_values(|e: DesktopEntry| e@), q@, t as int),
        },
{
    let n = entries.len();
    let mut i: usize = 0;
    while i < n
        invariant
            i <= n,
            1 <= t <= 5,
            n == entries@.len(),
            forall|j: int| 0 <= j < i ==> !tier_match(#[trigger] entries@[j]@, q@, t as int),
        decreases n - i,
    {
        if entries[i].tier_matches(q, t) {
            return Some(&entries[i]);
        }
        i += 1;
    }
    proof {
        let esv = entries@.map_values(|e: DesktopEntry| e@);
        assert forall|i2: int| 0 <= i2 < esv.len() implies !tier_match(
            #[trigger] esv[i2],
            q@,
            t as int,
        ) by {
            assert(esv[i2] == entries@[i2]@);
        }
    }
    None
}

/// Case-insensitive lookup of an entry by an application identifier,
/// searching tier by tier: a matching startup window class first, then the
/// identifier or file name, the entry's name, the exact command line, and
/// finally the command line's first word.
pub fn find_app_by_id<'a>(entries: &'a Vec<DesktopEntry>, app_id: &str) -> (r: Option<
    &'a DesktopEntry,
>)
    ensures
        ({
            let esv = entries@.map_values(|e: DesktopEntry| e@);
            match r {
                Some(e) => exists|t: int, i: int|
                    1 <= t <= 5 && 0 <= i < esv.len() && #[trigger] tier_match(esv[i], app_id@, t)
                        && e@ == esv[i] && (forall|t2: int| 1 <= t2 < t ==> !tier_found(esv, app_id@, t2))
                        && (forall|j: int| 0 <= j < i ==> !tier_match(#[trigger] esv[j], app_id@, t)),
                None => forall|t: int| 1 <= t <= 5 ==> !tier_found(esv, app_id@, t),
            }
        }),
{
    let ghost esv = entries@.map_values(|e: DesktopEntry| e@);
    proof {
        assert(forall|i: int| 0 <= i < esv.len() ==> #[trigger] esv[i] == entries@[i]@);
    }
    let mut t: u8 = 1;
    while t <= 5
        invariant
            1 <= t <= 6,
            esv == entries@.map_values(|e: DesktopEntry| e@),
            forall|t2: int| 1 <= t2 < t ==> !tier_found(esv, app_id@, t2),
        decreases 6 - t,
    {
        match find_tier(entries, app_id, t) {
            Some(e) => {
                proof {
                    let i = choose|i: int|
                        0 <= i < entries@.len() && e@ == #[trigger] entries@[i]@ && tier_match(
                            entries@[i]@,
                            app_id@,
                            t as int,
                        ) && (forall|j: int|
                            0 <= j < i ==> !tier_match(#[trigger] entries@[j]@, app_id@, t as int));
                    assert(esv[i] == entries@[i]@);
                    assert(tier_match(esv[i], app_id@, t as int));
                    assert forall|j: int| 0 <= j < i implies !tier_match(
                        #[trigger] esv[j],
                        app_id@,
                        t as int,
                    ) by {
                        assert(esv[j] == entries@[j]@);
                    }
                }
                return Some(e);
            },
            None => (),
        }
        t += 1;
    }
    None
}

} // verus!
