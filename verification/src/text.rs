//! Token-level text handling: hypotheses are split on ASCII whitespace and
//! joined with single spaces; no Unicode normalization is applied.

use vstd::prelude::*;

verus! {

/// The ASCII whitespace characters that delimit tokens.
pub open spec fn is_ascii_ws(c: char) -> bool {
    c == ' ' || c == '\t' || c == '\n' || c == '\r' || c == '\u{c}'
}

/// Tokenization as a left-to-right fold: `toks` are the tokens already
/// finished, `cur` the token currently being read, `s` the characters still
/// to come.
pub open spec fn tokenize_from(toks: Seq<Seq<char>>, cur: Seq<char>, s: Seq<char>) -> Seq<
    Seq<char>,
>
    decreases s.len(),
{
    if s.len() == 0 {
        if cur.len() == 0 {
            toks
        } else {
            toks.push(cur)
        }
    } else if is_ascii_ws(s[0]) {
        if cur.len() == 0 {
            tokenize_from(toks, cur, s.drop_first())
        } else {
            tokenize_from(toks.push(cur), Seq::empty(), s.drop_first())
        }
    } else {
        tokenize_from(toks, cur.push(s[0]), s.drop_first())
    }
}

/// The tokens of `s`: maximal runs of non-whitespace characters, in order.
pub open spec fn tokenize_spec(s: Seq<char>) -> Seq<Seq<char>> {
    tokenize_from(Seq::empty(), Seq::empty(), s)
}

/// The tokens joined by single spaces; empty when there are none.
pub open spec fn join_spec(toks: Seq<Seq<char>>) -> Seq<char>
    decreases toks.len(),
{
    if toks.len() == 0 {
        Seq::empty()
    } else if toks.len() == 1 {
        toks[0]
    } else {
        toks[0] + seq![' '] + join_spec(toks.drop_first())
    }
}

/// Appending one token to a join appends a separator exactly when the join
/// was not empty of tokens.
pub proof fn lemma_join_push(toks: Seq<Seq<char>>, t: Seq<char>)
    ensures
        join_spec(toks.push(t)) == if toks.len() == 0 {
            t
        } else {
            join_spec(toks) + seq![' '] + t
        },
    decreases toks.len(),
{
    let p = toks.push(t);
    if toks.len() == 0 {
        assert(p.len() == 1);
        assert(p[0] == t);
    } else if toks.len() == 1 {
        assert(p.len() == 2);
        assert(p[0] == toks[0]);
        assert(p.drop_first() =~= seq![t]);
        assert(join_spec(p.drop_first()) == t);
    } else {
        assert(p.drop_first() =~= toks.drop_first().push(t));
        lemma_join_push(toks.drop_first(), t);
        assert(p[0] == toks[0]);
        assert(join_spec(p) == p[0] + seq![' '] + join_spec(p.drop_first()));
        assert(toks[0] + seq![' '] + (join_spec(toks.drop_first()) + seq![' '] + t) =~= (toks[0]
            + seq![' '] + join_spec(toks.drop_first())) + seq![' '] + t);
    }
}

/// Split `s` on ASCII whitespace into its tokens.
pub fn tokenize(s: &str) -> (r: Vec<String>)
    ensures
        r.deep_view() == tokenize_spec(s@),
{
    let n = s.unicode_len();
    let mut toks: Vec<String> = Vec::new();
    let mut start: usize = 0;
    let mut in_tok: bool = false;
    let mut i: usize = 0;
    proof {
        assert(toks.deep_view() =~= Seq::<Seq<char>>::empty());
        assert(s@.skip(0) =~= s@);
    }
    while i < n
        invariant
            n == s@.len(),
            i <= n,
            in_tok ==> start < i,
            in_tok ==> tokenize_from(
                toks.deep_view(),
                s@.subrange(start as int, i as int),
                s@.skip(i as int),
            ) == tokenize_spec(s@),
            !in_tok ==> tokenize_from(toks.deep_view(), Seq::empty(), s@.skip(i as int))
                == tokenize_spec(s@),
        decreases n - i,
    {
        let c = s.get_char(i);
        let ws = c == ' ' || c == '\t' || c == '\n' || c == '\r' || c == '\u{c}';
        proof {
            assert(s@.skip(i as int).drop_first() =~= s@.skip(i + 1));
            assert(s@.skip(i as int)[0] == s@[i as int]);
            assert(ws == is_ascii_ws(s@[i as int]));
        }
        if ws {
            if in_tok {
                let ghost dv0 = toks.deep_view();
                let ghost cur = s@.subrange(start as int, i as int);
                let tok = s.substring_char(start, i).to_owned();
                toks.push(tok);
                proof {
                    assert(toks.deep_view() =~= dv0.push(cur));
                    assert(tokenize_from(dv0, cur, s@.skip(i as int)) == tokenize_from(
                        dv0.push(cur),
                        Seq::empty(),
                        s@.skip(i + 1),
                    ));
                }
                in_tok = false;
            } else {
                proof {
                    assert(tokenize_from(toks.deep_view(), Seq::empty(), s@.skip(i as int))
                        == tokenize_from(toks.deep_view(), Seq::empty(), s@.skip(i + 1)));
                }
            }
        } else {
            if in_tok {
                proof {
                    let cur = s@.subrange(start as int, i as int);
                    assert(cur.push(s@[i as int]) =~= s@.subrange(start as int, i + 1));
                    assert(tokenize_from(toks.deep_view(), cur, s@.skip(i as int))
                        == tokenize_from(
                        toks.deep_view(),
                        cur.push(s@[i as int]),
                        s@.skip(i + 1),
                    ));
                }
            } else {
                start = i;
                in_tok = true;
                proof {
                    assert(Seq::<char>::empty().push(s@[i as int]) =~= s@.subrange(
                        i as int,
                        i + 1,
                    ));
                    assert(tokenize_from(toks.deep_view(), Seq::empty(), s@.skip(i as int))
                        == tokenize_from(
                        toks.deep_view(),
                        Seq::<char>::empty().push(s@[i as int]),
                        s@.skip(i + 1),
                    ));
                }
            }
        }
        i += 1;
    }
    proof {
        assert(s@.skip(n as int) =~= Seq::<char>::empty());
    }
    if in_tok {
        let ghost dv0 = toks.deep_view();
        let tok = s.substring_char(start, n).to_owned();
        toks.push(tok);
        proof {
            assert(toks.deep_view() =~= dv0.push(s@.subrange(start as int, n as int)));
        }
    }
    toks
}

/// Join tokens with single spaces.
pub fn tokens_to_text(tokens: &Vec<String>) -> (r: String)
    ensures
        r@ == join_spec(tokens.deep_view()),
{
    let mut out = String::new();
    let mut idx: usize = 0;
    proof {
        reveal_strlit(" ");
    }
    while idx < tokens.len()
        invariant
            idx <= tokens.len(),
            out@ == join_spec(tokens.deep_view().take(idx as int)),
            " "@ == seq![' '],
        decreases tokens.len() - idx,
    {
        proof {
            let dv = tokens.deep_view();
            assert(dv.take(idx + 1) =~= dv.take(idx as int).push(dv[idx as int]));
            lemma_join_push(dv.take(idx as int), dv[idx as int]);
        }
        if idx > 0 {
            out.append(" ");
        }
        out.append(tokens[idx].as_str());
        idx += 1;
    }
    proof {
        assert(tokens.deep_view().take(tokens.len() as int) =~= tokens.deep_view());
    }
    out
}

/// The longest common prefix length of two token sequences.
pub open spec fn lcp_spec(a: Seq<Seq<char>>, b: Seq<Seq<char>>) -> nat
    decreases a.len(),
{
    if a.len() == 0 || b.len() == 0 || a[0] != b[0] {
        0
    } else {
        1 + lcp_spec(a.drop_first(), b.drop_first())
    }
}

/// The common prefix is pinned down by pointwise equality up to the first
/// mismatch (or the end of either sequence).
pub proof fn lemma_lcp_from_pointwise(a: Seq<Seq<char>>, b: Seq<Seq<char>>, n: nat)
    requires
        n <= a.len(),
        n <= b.len(),
        forall|j: int| 0 <= j < n ==> a[j] == b[j],
        n == a.len() || n == b.len() || a[n as int] != b[n as int],
    ensures
        n == lcp_spec(a, b),
    decreases n,
{
    if n == 0 {
    } else {
        assert(a[0] == b[0]);
        let a1 = a.drop_first();
        let b1 = b.drop_first();
        assert(forall|j: int| 0 <= j < n - 1 ==> a1[j] == b1[j]);
        lemma_lcp_from_pointwise(a1, b1, (n - 1) as nat);
    }
}

/// Longest common prefix length of two token vectors.
pub fn lcp_len(a: &Vec<String>, b: &Vec<String>) -> (r: usize)
    ensures
        r == lcp_spec(a.deep_view(), b.deep_view()),
        r <= a.len(),
        r <= b.len(),
{
    let limit = if a.len() < b.len() {
        a.len()
    } else {
        b.len()
    };
    let mut n: usize = 0;
    while n < limit && a[n] == b[n]
        invariant
            n <= limit,
            limit <= a.len(),
            limit <= b.len(),
            limit == a.len() || limit == b.len(),
            forall|j: int| 0 <= j < n ==> a.deep_view()[j] == b.deep_view()[j],
        decreases limit - n,
    {
        n += 1;
    }
    proof {
        lemma_lcp_from_pointwise(a.deep_view(), b.deep_view(), n as nat);
    }
    n
}

/// Whether the last `k` committed tokens equal the first `k` hypothesis
/// tokens.
pub open spec fn overlap_at(c: Seq<Seq<char>>, t: Seq<Seq<char>>, k: int) -> bool {
    c.subrange(c.len() - k, c.len() as int) == t.subrange(0, k)
}

/// The largest overlap length that is at most `k`.
pub open spec fn overlap_len_upto(c: Seq<Seq<char>>, t: Seq<Seq<char>>, k: nat) -> nat
    decreases k,
{
    if k == 0 {
        0
    } else if overlap_at(c, t, k as int) {
        k
    } else {
        overlap_len_upto(c, t, (k - 1) as nat)
    }
}

/// The largest `k` such that the committed tokens end with the first `k`
/// hypothesis tokens.
pub open spec fn overlap_len_spec(c: Seq<Seq<char>>, t: Seq<Seq<char>>) -> nat {
    overlap_len_upto(c, t, if c.len() < t.len() {
        c.len()
    } else {
        t.len()
    })
}

/// The hypothesis with its committed overlap removed.
pub open spec fn strip_overlap_spec(c: Seq<Seq<char>>, t: Seq<Seq<char>>) -> Seq<Seq<char>> {
    t.skip(overlap_len_spec(c, t) as int)
}

fn suffix_matches_prefix(c: &Vec<String>, t: &Vec<String>, k: usize) -> (r: bool)
    requires
        1 <= k <= c.len(),
        k <= t.len(),
    ensures
        r == overlap_at(c.deep_view(), t.deep_view(), k as int),
{
    let base = c.len() - k;
    let mut j: usize = 0;
    let mut ok = true;
    while j < k
        invariant
            j <= k,
            k <= c.len(),
            k <= t.len(),
            base == c.len() - k,
            ok ==> forall|m: int| 0 <= m < j ==> c.deep_view()[base + m] == t.deep_view()[m],
            !ok ==> !overlap_at(c.deep_view(), t.deep_view(), k as int),
        decreases k - j,
    {
        proof {
            let cd = c.deep_view();
            let td = t.deep_view();
            if !ok {
            } else {
                assert(overlap_at(cd, td, k as int) ==> cd.subrange(
                    cd.len() - k,
                    cd.len() as int,
                )[j as int] == td.subrange(0, k as int)[j as int]);
            }
        }
        if ok && !(c[base + j] == t[j]) {
            ok = false;
        }
        j += 1;
    }
    proof {
        if ok {
            let cd = c.deep_view();
            let td = t.deep_view();
            assert(cd.subrange(cd.len() - k, cd.len() as int) =~= td.subrange(0, k as int));
        }
    }
    ok
}

/// Drop from the front of `tokens` the longest run that duplicates a suffix
/// of `committed`.
pub fn strip_committed_overlap(committed: &Vec<String>, tokens: &Vec<String>) -> (r: Vec<String>)
    ensures
        r.deep_view() == strip_overlap_spec(committed.deep_view(), tokens.deep_view()),
{
    let limit = if committed.len() < tokens.len() {
        committed.len()
    } else {
        tokens.len()
    };
    let mut overlap: usize = 0;
    let mut k = limit;
    let mut done = false;
    while !done && k >= 1
        invariant
            k <= limit,
            limit <= committed.len(),
            limit <= tokens.len(),
            !done ==> overlap == 0 && overlap_len_upto(
                committed.deep_view(),
                tokens.deep_view(),
                limit as nat,
            ) == overlap_len_upto(committed.deep_view(), tokens.deep_view(), k as nat),
            overlap <= limit,
            done ==> overlap == overlap_len_upto(
                committed.deep_view(),
                tokens.deep_view(),
                limit as nat,
            ),
        decreases k, (if done {
            0int
        } else {
            1int
        }),
    {
        if suffix_matches_prefix(committed, tokens, k) {
            overlap = k;
            done = true;
        } else {
            k -= 1;
        }
    }
    proof {
        if !done {
            assert(overlap_len_upto(committed.deep_view(), tokens.deep_view(), 0nat) == 0);
        }
        assert(overlap == overlap_len_spec(committed.deep_view(), tokens.deep_view()));
    }
    let mut r: Vec<String> = Vec::new();
    let mut idx = overlap;
    proof {
        assert(r.deep_view() =~= tokens.deep_view().subrange(overlap as int, overlap as int));
    }
    while idx < tokens.len()
        invariant
            overlap <= idx <= tokens.len(),
            r.deep_view() =~= tokens.deep_view().subrange(overlap as int, idx as int),
        decreases tokens.len() - idx,
    {
        let ghost dv0 = r.deep_view();
        r.push(tokens[idx].clone());
        proof {
            assert(r.deep_view() =~= dv0.push(tokens.deep_view()[idx as int]));
            assert(r.deep_view() =~= tokens.deep_view().subrange(overlap as int, idx + 1));
        }
        idx += 1;
    }
    proof {
        assert(tokens.deep_view().subrange(overlap as int, tokens.len() as int)
            =~= tokens.deep_view().skip(overlap as int));
    }
    r
}

/// `s` without leading ASCII whitespace.
pub open spec fn trim_start_spec(s: Seq<char>) -> Seq<char>
    decreases s.len(),
{
    if s.len() > 0 && is_ascii_ws(s[0]) {
        trim_start_spec(s.drop_first())
    } else {
        s
    }
}

/// `s` without trailing ASCII whitespace.
pub open spec fn trim_end_spec(s: Seq<char>) -> Seq<char>
    decreases s.len(),
{
    if s.len() > 0 && is_ascii_ws(s.last()) {
        trim_end_spec(s.drop_last())
    } else {
        s
    }
}

/// `s` without leading and trailing ASCII whitespace.
pub open spec fn trim_spec(s: Seq<char>) -> Seq<char> {
    trim_end_spec(trim_start_spec(s))
}

proof fn lemma_trim_start_skip(s: Seq<char>, a: nat)
    requires
        a <= s.len(),
        forall|j: int| 0 <= j < a ==> is_ascii_ws(#[trigger] s[j]),
        a == s.len() || !is_ascii_ws(s[a as int]),
    ensures
        trim_start_spec(s) == s.skip(a as int),
    decreases a,
{
    if a == 0 {
        assert(s.skip(0) =~= s);
    } else {
        assert(is_ascii_ws(s[0]));
        let s1 = s.drop_first();
        assert(forall|j: int| 0 <= j < a - 1 ==> is_ascii_ws(#[trigger] s1[j]));
        lemma_trim_start_skip(s1, (a - 1) as nat);
        assert(s1.skip(a - 1) =~= s.skip(a as int));
    }
}

proof fn lemma_trim_end_take(s: Seq<char>, b: nat)
    requires
        b <= s.len(),
        forall|j: int| b <= j < s.len() ==> is_ascii_ws(#[trigger] s[j]),
        b == 0 || !is_ascii_ws(s[b - 1]),
    ensures
        trim_end_spec(s) == s.take(b as int),
    decreases s.len(),
{
    if b == s.len() {
        if s.len() > 0 && is_ascii_ws(s.last()) {
            assert(false);
        }
        assert(s.take(b as int) =~= s);
    } else {
        assert(is_ascii_ws(s.last()));
        let s1 = s.drop_last();
        assert(forall|j: int| b <= j < s1.len() ==> is_ascii_ws(#[trigger] s1[j]));
        lemma_trim_end_take(s1, b);
        assert(s1.take(b as int) =~= s.take(b as int));
    }
}

/// A copy of `s` with leading and trailing ASCII whitespace removed.
pub fn trim_ascii(s: &str) -> (r: String)
    ensures
        r@ == trim_spec(s@),
{
    let n = s.unicode_len();
    let mut a: usize = 0;
    while a < n && is_ws_char(s.get_char(a))
        invariant
            a <= n,
            n == s@.len(),
            forall|j: int| 0 <= j < a ==> is_ascii_ws(#[trigger] s@[j]),
        decreases n - a,
    {
        a += 1;
    }
    let mut b: usize = n;
    while b > a && is_ws_char(s.get_char(b - 1))
        invariant
            a <= b <= n,
            n == s@.len(),
            forall|j: int| 0 <= j < a ==> is_ascii_ws(#[trigger] s@[j]),
            a == n || !is_ascii_ws(s@[a as int]),
            forall|j: int| b <= j < n ==> is_ascii_ws(#[trigger] s@[j]),
        decreases b,
    {
        b -= 1;
    }
    let r = s.substring_char(a, b).to_owned();
    proof {
        lemma_trim_start_skip(s@, a as nat);
        let t = s@.skip(a as int);
        assert(forall|j: int| b - a <= j < t.len() ==> is_ascii_ws(#[trigger] t[j]));
        if b > a {
            assert(!is_ascii_ws(t[b - a - 1]));
        }
        lemma_trim_end_take(t, (b - a) as nat);
        assert(t.take(b - a) =~= s@.subrange(a as int, b as int));
    }
    r
}

/// Whether `c` is ASCII whitespace.
pub fn is_ws_char(c: char) -> (r: bool)
    ensures
        r == is_ascii_ws(c),
{
    c == ' ' || c == '\t' || c == '\n' || c == '\r' || c == '\u{c}'
}

/// The display text for a committed prefix and a pending tail: each is
/// trimmed, empty parts are elided, and the rest joined by a single space.
pub open spec fn combine_spec(c: Seq<char>, p: Seq<char>) -> Seq<char> {
    let ct = trim_spec(c);
    let pt = trim_spec(p);
    if ct.len() == 0 && pt.len() == 0 {
        Seq::empty()
    } else if pt.len() == 0 {
        ct
    } else if ct.len() == 0 {
        pt
    } else {
        ct + seq![' '] + pt
    }
}

/// Compose the display string from committed and pending text.
pub fn combine_committed_partial(committed: &str, partial: &str) -> (r: String)
    ensures
        r@ == combine_spec(committed@, partial@),
{
    let ct = trim_ascii(committed);
    let pt = trim_ascii(partial);
    proof {
        reveal_strlit(" ");
    }
    if ct.unicode_len() == 0 {
        pt
    } else if pt.unicode_len() == 0 {
        ct
    } else {
        let mut out = ct;
        out.append(" ");
        out.append(pt.as_str());
        proof {
            assert(" "@ =~= seq![' ']);
        }
        out
    }
}

/// Two characters are equal up to ASCII case.
pub open spec fn chars_eq_ci(a: char, b: char) -> bool {
    a == b || (65 <= a as int <= 90 && b as int == a as int + 32) || (65 <= b as int <= 90
        && a as int == b as int + 32)
}

/// Two strings are equal up to ASCII case.
pub open spec fn str_eq_ci(a: Seq<char>, b: Seq<char>) -> bool {
    a.len() == b.len() && forall|i: int| 0 <= i < a.len() ==> chars_eq_ci(#[trigger] a[i], b[i])
}

/// Compare two strings ignoring ASCII case.
pub fn eq_ignore_ascii_case_str(a: &str, b: &str) -> (r: bool)
    ensures
        r == str_eq_ci(a@, b@),
{
    let na = a.unicode_len();
    let nb = b.unicode_len();
    if na != nb {
        return false;
    }
    let mut i: usize = 0;
    while i < na
        invariant
            i <= na,
            na == a@.len(),
            na == b@.len(),
            forall|j: int| 0 <= j < i ==> chars_eq_ci(#[trigger] a@[j], b@[j]),
        decreases na - i,
    {
        let ca = a.get_char(i);
        let cb = b.get_char(i);
        let ua = ca as u32;
        let ub = cb as u32;
        let same = ca == cb || (65 <= ua && ua <= 90 && ub == ua + 32) || (65 <= ub && ub <= 90
            && ua == ub + 32);
        if !same {
            return false;
        }
        i += 1;
    }
    true
}

/// The joined display of transcription segments: each segment is trimmed,
/// empty ones are dropped, and the rest joined by single spaces.
pub open spec fn clean_join_spec(segs: Seq<Seq<char>>) -> Seq<char>
    decreases segs.len(),
{
    if segs.len() == 0 {
        Seq::empty()
    } else {
        let pre = clean_join_spec(segs.drop_last());
        let t = trim_spec(segs.last());
        if t.len() == 0 {
            pre
        } else if pre.len() == 0 {
            t
        } else {
            pre + seq![' '] + t
        }
    }
}

/// Join transcription segments, trimming each and skipping empty ones.
pub fn join_segments(segments: &Vec<String>) -> (r: String)
    ensures
        r@ == clean_join_spec(segments.deep_view()),
{
    let mut out = String::new();
    let mut i: usize = 0;
    proof {
        reveal_strlit(" ");
        assert(segments.deep_view().take(0) =~= Seq::<Seq<char>>::empty());
    }
    while i < segments.len()
        invariant
            i <= segments@.len(),
            " "@ == seq![' '],
            out@ == clean_join_spec(segments.deep_view().take(i as int)),
        decreases segments@.len() - i,
    {
        proof {
            let dv = segments.deep_view();
            assert(dv.take(i + 1).drop_last() =~= dv.take(i as int));
            assert(dv.take(i + 1).last() == dv[i as int]);
        }
        let t = trim_ascii(segments[i].as_str());
        if !t.as_str().is_empty() {
            if !out.as_str().is_empty() {
                out.append(" ");
            }
            out.append(t.as_str());
        }
        i += 1;
    }
    proof {
        assert(segments.deep_view().take(segments@.len() as int) =~= segments.deep_view());
    }
    out
}

} // verus!
