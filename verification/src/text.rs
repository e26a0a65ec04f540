use vstd::prelude::*;

verus! {

/// `pat` occurs in `s` starting at position `t`.
pub open spec fn match_at(s: Seq<char>, pat: Seq<char>, t: int) -> bool {
    0 <= t && t + pat.len() <= s.len() && s.subrange(t, t + pat.len() as int) == pat
}

/// `pat` occurs somewhere in `s`.
pub open spec fn contains_seq(s: Seq<char>, pat: Seq<char>) -> bool {
    exists|t: int| match_at(s, pat, t)
}

/// `s` with every occurrence of `pat` replaced by `rep`: the left-to-right,
/// non-overlapping scan of `str::replace`.
pub open spec fn replace_all(s: Seq<char>, pat: Seq<char>, rep: Seq<char>) -> Seq<char>
    decreases s.len(),
{
    if pat.len() == 0 || s.len() < pat.len() {
        s
    } else if s.subrange(0, pat.len() as int) == pat {
        rep + replace_all(s.skip(pat.len() as int), pat, rep)
    } else {
        seq![s[0]] + replace_all(s.skip(1), pat, rep)
    }
}

proof fn lemma_match_at_skip(s: Seq<char>, pat: Seq<char>, off: int, t: int)
    requires
        0 <= off <= s.len(),
        0 <= t,
    ensures
        match_at(s.skip(off), pat, t) <==> match_at(s, pat, off + t),
{
    if t + pat.len() <= s.len() - off {
        assert(s.skip(off).subrange(t, t + pat.len() as int) =~= s.subrange(
            off + t,
            off + t + pat.len() as int,
        ));
    }
}

/// Where no occurrence of `pat` starts before position `k`, the first `k`
/// characters pass through the replacement unchanged.
proof fn lemma_replace_skip(s: Seq<char>, pat: Seq<char>, rep: Seq<char>, k: int)
    requires
        0 < pat.len(),
        0 <= k <= s.len(),
        forall|t: int| 0 <= t < k ==> !match_at(s, pat, t),
    ensures
        replace_all(s, pat, rep) == s.subrange(0, k) + replace_all(s.skip(k), pat, rep),
    decreases k,
{
    if k == 0 {
        assert(s.skip(0) =~= s);
        assert(s.subrange(0, 0) + replace_all(s, pat, rep) =~= replace_all(s, pat, rep));
    } else if s.len() < pat.len() {
        assert(s.skip(k).len() < pat.len());
        assert(replace_all(s.skip(k), pat, rep) == s.skip(k));
        assert(s.subrange(0, k) + s.skip(k) =~= s);
    } else {
        assert(!match_at(s, pat, 0));
        assert(s.subrange(0, pat.len() as int) != pat);
        assert(replace_all(s, pat, rep) == seq![s[0]] + replace_all(s.skip(1), pat, rep));
        assert forall|t: int| 0 <= t < k - 1 implies !match_at(s.skip(1), pat, t) by {
            lemma_match_at_skip(s, pat, 1, t);
        }
        lemma_replace_skip(s.skip(1), pat, rep, k - 1);
        assert(s.skip(1).skip(k - 1) =~= s.skip(k));
        assert(s.skip(1).subrange(0, k - 1) =~= s.subrange(1, k));
        assert(seq![s[0]] + (s.subrange(1, k) + replace_all(s.skip(k), pat, rep)) =~= s.subrange(
            0,
            k,
        ) + replace_all(s.skip(k), pat, rep));
    }
}

/// Whether `pat` starts at position `t` of `s`.
fn match_at_exec(s: &str, pat: &str, t: usize, s_len: usize, pat_len: usize) -> (r: bool)
    requires
        s_len == s@.len(),
        pat_len == pat@.len(),
        t + pat_len <= s_len,
    ensures
        r == match_at(s@, pat@, t as int),
{
    let mut q: usize = 0;
    while q < pat_len
        invariant
            q <= pat_len,
            s_len == s@.len(),
            pat_len == pat@.len(),
            t + pat_len <= s_len,
            forall|x: int| 0 <= x < q as int ==> s@[t as int + x] == pat@[x],
        decreases pat_len - q,
    {
        if s.get_char(t + q) != pat.get_char(q) {
            proof {
                if match_at(s@, pat@, t as int) {
                    assert(s@.subrange(t as int, t as int + pat@.len() as int)[q as int] == s@[t
                        as int + q as int]);
                }
            }
            return false;
        }
        q += 1;
    }
    proof {
        assert(s@.subrange(t as int, t as int + pat@.len() as int) =~= pat@);
    }
    true
}

/// `s` with every occurrence of `pat` replaced by `rep`, as `str::replace`
/// does it: scanning left to right over non-overlapping occurrences.
pub fn replace_pattern(s: &str, pat: &str, rep: &str) -> (r: String)
    requires
        pat@.len() > 0,
    ensures
        r@ == replace_all(s@, pat@, rep@),
{
    let s_len = s.unicode_len();
    let pat_len = pat.unicode_len();
    let mut out = String::new();
    let mut seg: usize = 0;
    let mut i: usize = 0;
    proof {
        assert(s@.skip(0) =~= s@);
        assert(out@ + replace_all(s@, pat@, rep@) =~= replace_all(s@, pat@, rep@));
    }
    while i < s_len
        invariant
            seg <= i,
            i <= s_len,
            s_len == s@.len(),
            pat_len == pat@.len(),
            pat@.len() > 0,
            forall|t: int| seg as int <= t < i as int ==> !match_at(s@, pat@, t),
            replace_all(s@, pat@, rep@) == out@ + replace_all(s@.skip(seg as int), pat@, rep@),
        decreases s_len - i,
    {
        let is_match = if pat_len <= s_len - i {
            match_at_exec(s, pat, i, s_len, pat_len)
        } else {
            false
        };
        if is_match {
            proof {
                assert forall|t: int| 0 <= t < i as int - seg as int implies !match_at(
                    s@.skip(seg as int),
                    pat@,
                    t,
                ) by {
                    lemma_match_at_skip(s@, pat@, seg as int, t);
                }
                lemma_replace_skip(s@.skip(seg as int), pat@, rep@, i as int - seg as int);
                assert(s@.skip(seg as int).subrange(0, i as int - seg as int) =~= s@.subrange(
                    seg as int,
                    i as int,
                ));
                assert(s@.skip(seg as int).skip(i as int - seg as int) =~= s@.skip(i as int));
                // the occurrence at `i` is replaced
                assert(s@.skip(i as int).subrange(0, pat@.len() as int) =~= s@.subrange(
                    i as int,
                    i as int + pat@.len() as int,
                ));
                assert(s@.skip(i as int).skip(pat@.len() as int) =~= s@.skip(
                    i as int + pat@.len() as int,
                ));
                assert(replace_all(s@.skip(i as int), pat@, rep@) == rep@ + replace_all(
                    s@.skip(i as int + pat@.len() as int),
                    pat@,
                    rep@,
                ));
            }
            out.append(s.substring_char(seg, i));
            out.append(rep);
            i = i + pat_len;
            seg = i;
        } else {
            proof {
                assert(!match_at(s@, pat@, i as int));
            }
            i = i + 1;
        }
    }
    proof {
        assert forall|t: int| 0 <= t < s_len as int - seg as int implies !match_at(
            s@.skip(seg as int),
            pat@,
            t,
        ) by {
            lemma_match_at_skip(s@, pat@, seg as int, t);
        }
        lemma_replace_skip(s@.skip(seg as int), pat@, rep@, s_len as int - seg as int);
        assert(s@.skip(seg as int).subrange(0, s_len as int - seg as int) =~= s@.subrange(
            seg as int,
            s_len as int,
        ));
        assert(s@.skip(seg as int).skip(s_len as int - seg as int).len() == 0);
        assert(replace_all(s@.skip(seg as int).skip(s_len as int - seg as int), pat@, rep@)
            == s@.skip(seg as int).skip(s_len as int - seg as int));
        assert(s@.subrange(seg as int, s_len as int) + s@.skip(seg as int).skip(
            s_len as int - seg as int,
        ) =~= s@.subrange(seg as int, s_len as int));
    }
    out.append(s.substring_char(seg, s_len));
    out
}

} // verus!
