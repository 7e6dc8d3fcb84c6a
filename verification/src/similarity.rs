//! A Jaro-Winkler string similarity in fixed point: greedy matching inside
//! a sliding window, a transposition count, and a common-prefix boost.
//!
//! The score is a fraction of [`crate::matching::SCORE_SCALE`], computed as
//! the sum of the three scaled Jaro terms, each rounded down.

use crate::matching::SCORE_SCALE;
use vstd::prelude::*;

verus! {

/// The matching window around each position.
pub open spec fn jw_window(l1: int, l2: int) -> int {
    let m = if l1 >= l2 {
        l1
    } else {
        l2
    };
    if m / 2 >= 1 {
        m / 2 - 1
    } else {
        0
    }
}

/// The first free position in `[j, hi)` of `s2` that matches `s1[i]`, or -1.
pub open spec fn find_free(
    s1: Seq<char>,
    s2: Seq<char>,
    i: int,
    used: Seq<bool>,
    j: int,
    hi: int,
) -> int
    decreases hi - j,
{
    if j < 0 || j >= hi || hi > s2.len() || hi > used.len() {
        -1
    } else if !used[j] && s2[j] == s1[i] {
        j
    } else {
        find_free(s1, s2, i, used, j + 1, hi)
    }
}

/// The greedy matching pass: for each position of `s1` in order, claim the
/// first free matching position of `s2` inside the window.  Returns the
/// claimed-position flags over `s2` and the matched characters of `s1`.
pub open spec fn jw_fold(
    s1: Seq<char>,
    s2: Seq<char>,
    i: int,
    used: Seq<bool>,
    m1: Seq<char>,
) -> (Seq<bool>, Seq<char>)
    decreases s1.len() - i,
{
    if i < 0 || i >= s1.len() {
        (used, m1)
    } else {
        let w = jw_window(s1.len() as int, s2.len() as int);
        let lo = if i - w > 0 {
            i - w
        } else {
            0
        };
        let hi = if i + w + 1 < s2.len() {
            i + w + 1
        } else {
            s2.len() as int
        };
        let j = find_free(s1, s2, i, used, lo, hi);
        if j >= 0 {
            jw_fold(s1, s2, i + 1, used.update(j, true), m1.push(s1[i]))
        } else {
            jw_fold(s1, s2, i + 1, used, m1)
        }
    }
}

/// The claimed characters of `s2`, in position order, from `j` on.
pub open spec fn jw_collect(s2: Seq<char>, used: Seq<bool>, j: int) -> Seq<char>
    decreases s2.len() - j,
{
    if j < 0 || j >= s2.len() {
        Seq::empty()
    } else {
        let rest = jw_collect(s2, used, j + 1);
        if j < used.len() && used[j] {
            seq![s2[j]] + rest
        } else {
            rest
        }
    }
}

/// How many aligned positions of the two matched-character lists disagree.
pub open spec fn mismatch_count(a: Seq<char>, b: Seq<char>, idx: int) -> int
    decreases a.len() - idx,
{
    if idx < 0 || idx >= a.len() || idx >= b.len() {
        0
    } else {
        (if a[idx] != b[idx] {
            1int
        } else {
            0int
        }) + mismatch_count(a, b, idx + 1)
    }
}

/// The scaled Jaro similarity: the sum of the three scaled thirds, each
/// rounded down.  Two empty texts count as identical; one empty text as
/// entirely dissimilar.
pub open spec fn spec_jaro(s1: Seq<char>, s2: Seq<char>) -> int {
    let l1 = s1.len() as int;
    let l2 = s2.len() as int;
    if l1 == 0 && l2 == 0 {
        SCORE_SCALE as int
    } else if l1 == 0 || l2 == 0 {
        0
    } else {
        let fm = jw_fold(s1, s2, 0, Seq::new(s2.len(), |i: int| false), Seq::empty());
        let m = fm.1.len() as int;
        if m == 0 {
            0
        } else {
            let m2 = jw_collect(s2, fm.0, 0);
            let k = mismatch_count(fm.1, m2, 0);
            SCORE_SCALE as int * m / (3 * l1) + SCORE_SCALE as int * m / (3 * l2) + SCORE_SCALE
                as int * (2 * m - k) / (6 * m)
        }
    }
}

/// The length of the common prefix, counted from `i`.
pub open spec fn common_prefix(s1: Seq<char>, s2: Seq<char>, i: int) -> int
    decreases s1.len() - i,
{
    if i < 0 || i >= s1.len() || i >= s2.len() {
        i
    } else if s1[i] == s2[i] {
        common_prefix(s1, s2, i + 1)
    } else {
        i
    }
}

/// The scaled Jaro-Winkler similarity: the Jaro score boosted by a tenth of
/// its complement per shared prefix character, up to four.
pub open spec fn spec_jaro_winkler(s1: Seq<char>, s2: Seq<char>) -> int {
    let j = spec_jaro(s1, s2);
    let p0 = common_prefix(s1, s2, 0);
    let p = if p0 > 4 {
        4
    } else {
        p0
    };
    j + p * 100000 * (SCORE_SCALE as int - j) / (SCORE_SCALE as int)
}

/// Updating one in-range flag from false to true grows the claimed list by
/// one character, seen from any position at or before it.
proof fn lemma_collect_update(s2: Seq<char>, used: Seq<bool>, j: int, pos: int)
    requires
        used.len() == s2.len(),
        0 <= j < s2.len(),
        !used[j],
        0 <= pos <= s2.len(),
    ensures
        jw_collect(s2, used.update(j, true), pos).len() == jw_collect(s2, used, pos).len() + (
        if pos <= j {
            1int
        } else {
            0int
        }),
    decreases s2.len() - pos,
{
    if pos < s2.len() {
        lemma_collect_update(s2, used, j, pos + 1);
    }
}

/// The claimed list is never longer than the text it comes from.
proof fn lemma_collect_le(s2: Seq<char>, used: Seq<bool>, pos: int)
    requires
        0 <= pos <= s2.len(),
    ensures
        0 <= jw_collect(s2, used, pos).len() <= s2.len() - pos,
    decreases s2.len() - pos,
{
    if pos < s2.len() {
        lemma_collect_le(s2, used, pos + 1);
    }
}

/// With no flag set, nothing is claimed.
proof fn lemma_collect_empty(s2: Seq<char>, pos: int)
    requires
        0 <= pos <= s2.len(),
    ensures
        jw_collect(s2, Seq::new(s2.len(), |i: int| false), pos).len() == 0,
    decreases s2.len() - pos,
{
    if pos < s2.len() {
        lemma_collect_empty(s2, pos + 1);
    }
}

/// A found position is free and inside the window.
proof fn lemma_find_free(s1: Seq<char>, s2: Seq<char>, i: int, used: Seq<bool>, j: int, hi: int)
    ensures
        ({
            let r = find_free(s1, s2, i, used, j, hi);
            r >= 0 ==> j <= r < hi && hi <= s2.len() && hi <= used.len() && !used[r] && s2[r]
                == s1[i]
        }),
    decreases hi - j,
{
    if !(j < 0 || j >= hi || hi > s2.len() || hi > used.len()) {
        if !(!used[j] && s2[j] == s1[i]) {
            lemma_find_free(s1, s2, i, used, j + 1, hi);
        }
    }
}

/// The matched list grows by at most one per position of `s1`, and the
/// claimed list stays aligned with it.
proof fn lemma_fold_shape(s1: Seq<char>, s2: Seq<char>, i: int, used: Seq<bool>, m1: Seq<char>)
    requires
        0 <= i <= s1.len(),
        used.len() == s2.len(),
    ensures
        ({
            let fm = jw_fold(s1, s2, i, used, m1);
            &&& fm.1.len() <= m1.len() + (s1.len() - i)
            &&& fm.0.len() == s2.len()
            &&& jw_collect(s2, fm.0, 0).len() == jw_collect(s2, used, 0).len() + (fm.1.len()
                - m1.len())
            &&& fm.1.len() >= m1.len()
        }),
    decreases s1.len() - i,
{
    if i < s1.len() {
        let w = jw_window(s1.len() as int, s2.len() as int);
        let lo = if i - w > 0 {
            i - w
        } else {
            0
        };
        let hi = if i + w + 1 < s2.len() {
            i + w + 1
        } else {
            s2.len() as int
        };
        let j = find_free(s1, s2, i, used, lo, hi);
        lemma_find_free(s1, s2, i, used, lo, hi);
        if j >= 0 {
            lemma_collect_update(s2, used, j, 0);
            lemma_fold_shape(s1, s2, i + 1, used.update(j, true), m1.push(s1[i]));
        } else {
            lemma_fold_shape(s1, s2, i + 1, used, m1);
        }
    }
}

/// A mismatch count is between zero and the shorter list's length.
proof fn lemma_mismatch_le(a: Seq<char>, b: Seq<char>, idx: int)
    requires
        0 <= idx,
    ensures
        0 <= mismatch_count(a, b, idx) <= (if a.len() - idx >= 0 {
            a.len() - idx
        } else {
            0
        }),
    decreases a.len() - idx,
{
    if idx < a.len() && idx < b.len() {
        lemma_mismatch_le(a, b, idx + 1);
    }
}

/// The scaled Jaro score lies within the scale.
pub proof fn lemma_jaro_bounds(s1: Seq<char>, s2: Seq<char>)
    ensures
        0 <= spec_jaro(s1, s2) <= SCORE_SCALE,
{
    let l1 = s1.len() as int;
    let l2 = s2.len() as int;
    if l1 > 0 && l2 > 0 {
        let init = Seq::new(s2.len(), |i: int| false);
        let fm = jw_fold(s1, s2, 0, init, Seq::empty());
        let m = fm.1.len() as int;
        if m != 0 {
            lemma_fold_shape(s1, s2, 0, init, Seq::empty());
            lemma_collect_empty(s2, 0);
            lemma_collect_le(s2, fm.0, 0);
            let m2 = jw_collect(s2, fm.0, 0);
            let k = mismatch_count(fm.1, m2, 0);
            lemma_mismatch_le(fm.1, m2, 0);
            assert(m <= l1);
            assert(m2.len() == m);
            assert(m <= l2);
            assert(0 <= k <= m);
            let t1 = SCORE_SCALE as int * m / (3 * l1);
            let t2 = SCORE_SCALE as int * m / (3 * l2);
            let t3 = SCORE_SCALE as int * (2 * m - k) / (6 * m);
            assert(0 <= t1 && t1 <= 333333) by (nonlinear_arith)
                requires
                    1 <= m <= l1,
                    t1 == 1000000 * m / (3 * l1),
            ;
            assert(0 <= t2 && t2 <= 333333) by (nonlinear_arith)
                requires
                    1 <= m <= l2,
                    t2 == 1000000 * m / (3 * l2),
            ;
            assert(0 <= t3 && t3 <= 333333) by (nonlinear_arith)
                requires
                    1 <= m,
                    0 <= k <= m,
                    t3 == 1000000 * (2 * m - k) / (6 * m),
            ;
        }
    }
}

/// The boosted score still lies within the scale.
pub proof fn lemma_jw_bounds(s1: Seq<char>, s2: Seq<char>)
    ensures
        0 <= spec_jaro_winkler(s1, s2) <= SCORE_SCALE,
{
    lemma_jaro_bounds(s1, s2);
    let j = spec_jaro(s1, s2);
    let p0 = common_prefix(s1, s2, 0);
    let p = if p0 > 4 {
        4int
    } else {
        p0
    };
    lemma_common_prefix_bounds(s1, s2, 0);
    let boost = p * 100000 * (SCORE_SCALE as int - j) / (SCORE_SCALE as int);
    assert(0 <= boost && boost <= SCORE_SCALE as int - j) by (nonlinear_arith)
        requires
            0 <= p <= 4,
            0 <= j <= 1000000,
            boost == p * 100000 * (1000000 - j) / 1000000,
    ;
}

/// The common prefix length is between `i` and both lengths.
proof fn lemma_common_prefix_bounds(s1: Seq<char>, s2: Seq<char>, i: int)
    requires
        0 <= i,
        i <= s1.len() || i <= s2.len() || i >= 0,
    ensures
        common_prefix(s1, s2, i) >= i,
    decreases s1.len() - i,
{
    if 0 <= i && i < s1.len() && i < s2.len() && s1[i] == s2[i] {
        lemma_common_prefix_bounds(s1, s2, i + 1);
    }
}

/// The scaled Jaro-Winkler similarity of two texts.
pub fn jaro_winkler_scaled(a: &str, b: &str) -> (r: u64)
    ensures
        r == spec_jaro_winkler(a@, b@),
        r <= SCORE_SCALE,
{
    let l1 = a.unicode_len();
    let l2 = b.unicode_len();
    proof {
        lemma_jw_bounds(a@, b@);
        lemma_jaro_bounds(a@, b@);
    }
    let jaro: u64 = if l1 == 0 && l2 == 0 {
        SCORE_SCALE
    } else if l1 == 0 || l2 == 0 {
        0
    } else {
        let maxl = if l1 >= l2 {
            l1
        } else {
            l2
        };
        let w: usize = if maxl / 2 >= 1 {
            maxl / 2 - 1
        } else {
            0
        };
        proof {
            assert(w as int == jw_window(l1 as int, l2 as int));
        }
        let mut flags: Vec<bool> = Vec::new();
        let mut fi: usize = 0;
        while fi < l2
            invariant
                fi <= l2,
                flags@.len() == fi,
                forall|t: int| 0 <= t < fi ==> !flags@[t],
            decreases l2 - fi,
        {
            flags.push(false);
            fi += 1;
        }
        let ghost init = Seq::new(b@.len(), |i: int| false);
        proof {
            assert(flags@ =~= init);
        }
        let mut m1: Vec<char> = Vec::new();
        let mut i: usize = 0;
        while i < l1
            invariant
                i <= l1,
                l1 == a@.len(),
                l2 == b@.len(),
                w as int == jw_window(l1 as int, l2 as int),
                flags@.len() == l2,
                init == Seq::new(b@.len(), |t: int| false),
                jw_fold(a@, b@, 0, init, Seq::empty()) == jw_fold(a@, b@, i as int, flags@, m1@),
            decreases l1 - i,
        {
            let lo: usize = if i > w {
                i - w
            } else {
                0
            };
            let hi: usize = if l2 > w && i < l2 - w - 1 {
                i + w + 1
            } else {
                l2
            };
            proof {
                assert(lo as int == (if i as int - w as int > 0 {
                    i as int - w as int
                } else {
                    0int
                }));
                assert(hi as int == (if i as int + w as int + 1 < l2 as int {
                    i as int + w as int + 1
                } else {
                    l2 as int
                }));
            }
            let c = a.get_char(i);
            let mut found: bool = false;
            let mut found_at: usize = 0;
            if lo < hi {
                let mut j: usize = lo;
                while j < hi && !found
                    invariant
                        lo <= j <= hi,
                        hi <= l2,
                        l2 == b@.len(),
                        l1 == a@.len(),
                        i < l1,
                        c == a@[i as int],
                        flags@.len() == l2,
                        !found ==> find_free(a@, b@, i as int, flags@, lo as int, hi as int)
                            == find_free(a@, b@, i as int, flags@, j as int, hi as int),
                        found ==> lo <= found_at < hi && find_free(
                            a@,
                            b@,
                            i as int,
                            flags@,
                            lo as int,
                            hi as int,
                        ) == found_at as int,
                    decreases hi - j + (if found {
                        0int
                    } else {
                        1int
                    }),
                {
                    if !flags[j] && b.get_char(j) == c {
                        found = true;
                        found_at = j;
                    } else {
                        j += 1;
                    }
                }
                proof {
                    if !found {
                        assert(find_free(a@, b@, i as int, flags@, hi as int, hi as int) == -1);
                    }
                }
            } else {
                proof {
                    assert(find_free(a@, b@, i as int, flags@, lo as int, hi as int) == -1);
                }
            }
            let ghost flags0 = flags@;
            let ghost m10 = m1@;
            if found {
                flags[found_at] = true;
                m1.push(c);
                proof {
                    assert(flags@ =~= flags0.update(found_at as int, true));
                    assert(m1@ =~= m10.push(a@[i as int]));
                }
            }
            i += 1;
        }
        let m = m1.len();
        if m == 0 {
            0
        } else {
            // collect the claimed characters of `b` in position order
            let mut m2: Vec<char> = Vec::new();
            let mut j: usize = 0;
            proof {
                assert(m2@ + jw_collect(b@, flags@, 0) =~= jw_collect(b@, flags@, 0));
            }
            while j < l2
                invariant
                    j <= l2,
                    l2 == b@.len(),
                    flags@.len() == l2,
                    jw_collect(b@, flags@, 0) == m2@ + jw_collect(b@, flags@, j as int),
                decreases l2 - j,
            {
                let ghost m20 = m2@;
                if flags[j] {
                    m2.push(b.get_char(j));
                    proof {
                        assert(jw_collect(b@, flags@, j as int) == seq![b@[j as int]]
                            + jw_collect(b@, flags@, j as int + 1));
                        assert(m20 + (seq![b@[j as int]] + jw_collect(b@, flags@, j as int + 1))
                            =~= m2@ + jw_collect(b@, flags@, j as int + 1));
                    }
                }
                j += 1;
            }
            proof {
                assert(jw_collect(b@, flags@, l2 as int) =~= Seq::<char>::empty());
                assert(m2@ + Seq::<char>::empty() =~= m2@);
            }
            // count the aligned disagreements
            let mlen = if m <= m2.len() {
                m
            } else {
                m2.len()
            };
            let mut k: u64 = 0;
            let mut idx: usize = 0;
            while idx < mlen
                invariant
                    idx <= mlen,
                    mlen == (if m1@.len() <= m2@.len() {
                        m1@.len()
                    } else {
                        m2@.len()
                    }),
                    k <= idx,
                    mismatch_count(m1@, m2@, 0) == k + mismatch_count(m1@, m2@, idx as int),
                decreases mlen - idx,
            {
                if m1[idx] != m2[idx] {
                    k += 1;
                }
                idx += 1;
            }
            proof {
                assert(mismatch_count(m1@, m2@, mlen as int) == 0);
            }
            proof {
                assert(jw_fold(a@, b@, 0, init, Seq::empty()) == (flags@, m1@));
                lemma_fold_shape(a@, b@, 0, init, Seq::empty());
                lemma_collect_empty(b@, 0);
                lemma_collect_le(b@, flags@, 0);
                assert(m1@.len() <= l1);
                assert(jw_collect(b@, flags@, 0).len() == m1@.len());
                assert(m1@.len() <= l2);
                assert(m2@ == jw_collect(b@, flags@, 0));
            }
            let mu = m as u128;
            let ku = k as u128;
            let l1u = l1 as u128;
            let l2u = l2 as u128;
            let su = SCORE_SCALE as u128;
            let t1 = su * mu / (3 * l1u);
            let t2 = su * mu / (3 * l2u);
            let t3 = su * (2 * mu - ku) / (6 * mu);
            proof {
                assert(t1 as int == SCORE_SCALE as int * m as int / (3 * l1 as int))
                    by (nonlinear_arith)
                    requires
                        l1u > 0,
                        mu == m as int,
                        l1u == l1 as int,
                        su == SCORE_SCALE as int,
                        t1 == su * mu / (3 * l1u),
                ;
                assert(t2 as int == SCORE_SCALE as int * m as int / (3 * l2 as int))
                    by (nonlinear_arith)
                    requires
                        l2u > 0,
                        mu == m as int,
                        l2u == l2 as int,
                        su == SCORE_SCALE as int,
                        t2 == su * mu / (3 * l2u),
                ;
                assert(ku <= mu) by {
                    lemma_mismatch_le(m1@, m2@, 0);
                }
                assert(t3 as int == SCORE_SCALE as int * (2 * m as int - k as int) / (6
                    * m as int)) by (nonlinear_arith)
                    requires
                        mu > 0,
                        ku <= mu,
                        mu == m as int,
                        ku == k as int,
                        su == SCORE_SCALE as int,
                        t3 == su * (2 * mu - ku) / (6 * mu),
                ;
                assert(t1 <= 333333 && t2 <= 333333 && t3 <= 333333) by (nonlinear_arith)
                    requires
                        l1u > 0,
                        l2u > 0,
                        mu > 0,
                        mu <= l1u,
                        mu <= l2u,
                        ku <= mu,
                        su == 1000000,
                        t1 == su * mu / (3 * l1u),
                        t2 == su * mu / (3 * l2u),
                        t3 == su * (2 * mu - ku) / (6 * mu),
                ;
            }
            (t1 + t2 + t3) as u64
        }
    };
    // the common-prefix boost
    let minl = if l1 <= l2 {
        l1
    } else {
        l2
    };
    let mut p: usize = 0;
    while p < minl && p < 4 && a.get_char(p) == b.get_char(p)
        invariant
            p <= minl,
            p <= 4,
            minl == (if l1 <= l2 {
                l1
            } else {
                l2
            }),
            l1 == a@.len(),
            l2 == b@.len(),
            common_prefix(a@, b@, 0) == common_prefix(a@, b@, p as int) || (p == 4
                && common_prefix(a@, b@, 0) >= 4),
        decreases minl - p,
    {
        p += 1;
        proof {
            if p == 4 {
                lemma_common_prefix_bounds(a@, b@, 4);
                assert(common_prefix(a@, b@, 0) >= 4 || common_prefix(a@, b@, 0)
                    == common_prefix(a@, b@, 4));
            }
        }
    }
    let ghost p0 = common_prefix(a@, b@, 0);
    let ghost pcap = if p0 > 4 {
        4int
    } else {
        p0
    };
    proof {
        if p < 4 {
            assert(common_prefix(a@, b@, p as int) == p);
            assert(p0 == p as int);
        } else {
            assert(p0 >= 4 || p0 == common_prefix(a@, b@, 4));
            if p0 < 4 {
                assert(common_prefix(a@, b@, 4) >= 4) by {
                    lemma_common_prefix_bounds(a@, b@, 4);
                }
            }
        }
        assert(pcap == p as int);
    }
    let boost = ((p as u64) * 100000 * (SCORE_SCALE - jaro)) / SCORE_SCALE;
    proof {
        assert(boost as int == pcap * 100000 * (SCORE_SCALE as int - jaro as int) / (
        SCORE_SCALE as int)) by (nonlinear_arith)
            requires
                pcap == p as int,
                0 <= p <= 4,
                jaro <= SCORE_SCALE,
                SCORE_SCALE == 1000000,
                boost == (p as int) * 100000 * (SCORE_SCALE as int - jaro as int) / (
                SCORE_SCALE as int),
        ;
        assert(boost as int <= SCORE_SCALE as int - jaro as int) by (nonlinear_arith)
            requires
                0 <= pcap <= 4,
                0 <= jaro as int <= 1000000,
                boost as int == pcap * 100000 * (1000000 - jaro as int) / 1000000,
        ;
    }
    jaro + boost
}

} // verus!
