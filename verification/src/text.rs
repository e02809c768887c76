//! Text utilities: whitespace tokenization, splitting on a delimiter,
//! trimming a repeated edge character, and character replacement, each
//! with a specification over sequences of characters.

use vstd::prelude::*;

verus! {

/// The whitespace characters the tokenizer splits on (the ASCII ones;
/// ARP utility output contains no other whitespace).
pub open spec fn is_space(c: char) -> bool {
    c == ' ' || c == '\t' || c == '\n' || c == '\r' || c == '\u{b}' || c == '\u{c}'
}

/// Executable test for [`is_space`].
pub fn char_is_space(c: char) -> (r: bool)
    ensures
        r == is_space(c),
{
    c == ' ' || c == '\t' || c == '\n' || c == '\r' || c == '\u{b}' || c == '\u{c}'
}

/// Length of the maximal non-whitespace prefix of `s`.
pub open spec fn token_len(s: Seq<char>) -> nat
    decreases s.len(),
{
    if s.len() == 0 || is_space(s[0]) {
        0
    } else {
        1 + token_len(s.skip(1))
    }
}

pub proof fn lemma_token_len_le(s: Seq<char>)
    ensures
        token_len(s) <= s.len(),
    decreases s.len(),
{
    if s.len() > 0 && !is_space(s[0]) {
        lemma_token_len_le(s.skip(1));
    }
}

/// If the first `k` characters are non-whitespace and character `k` (if any)
/// is whitespace, the maximal non-whitespace prefix has length exactly `k`.
pub proof fn lemma_token_len_is(s: Seq<char>, k: int)
    requires
        0 <= k <= s.len(),
        forall|m: int| 0 <= m < k ==> !is_space(s[m]),
        k == s.len() || is_space(s[k]),
    ensures
        token_len(s) == k,
    decreases k,
{
    if k == 0 {
    } else {
        assert(!is_space(s[0]));
        lemma_token_len_is(s.skip(1), k - 1);
    }
}

/// The whitespace-separated tokens of `s`, in order, with empty tokens
/// impossible: what `split_whitespace` yields.
pub open spec fn spec_tokens(s: Seq<char>) -> Seq<Seq<char>>
    decreases s.len(),
    via spec_tokens_decreases
{
    if s.len() == 0 {
        Seq::empty()
    } else if is_space(s[0]) {
        spec_tokens(s.skip(1))
    } else {
        seq![s.take(token_len(s) as int)] + spec_tokens(s.skip(token_len(s) as int))
    }
}

#[via_fn]
proof fn spec_tokens_decreases(s: Seq<char>) {
    lemma_token_len_le(s);
}

/// The views of a vector of strings.
pub open spec fn views_of(ts: Seq<String>) -> Seq<Seq<char>> {
    ts.map_values(|t: String| t@)
}

/// Splits `s` at whitespace into its tokens, exactly the tokens of
/// [`spec_tokens`].
pub fn split_whitespace_tokens(s: &str) -> (tokens: Vec<String>)
    ensures
        views_of(tokens@) == spec_tokens(s@),
{
    let n: usize = s.unicode_len();
    let mut tokens: Vec<String> = Vec::new();
    let mut i: usize = 0;
    proof {
        assert(views_of(tokens@) =~= Seq::<Seq<char>>::empty());
        assert(s@.skip(0) =~= s@);
    }
    while i < n
        invariant
            n == s@.len(),
            i <= n,
            spec_tokens(s@) == views_of(tokens@) + spec_tokens(s@.skip(i as int)),
        decreases n - i,
    {
        let c = s.get_char(i);
        if char_is_space(c) {
            proof {
                assert(s@.skip(i as int).skip(1) =~= s@.skip(i as int + 1));
                assert(is_space(s@.skip(i as int)[0]));
            }
            i += 1;
        } else {
            let start = i;
            let mut j: usize = i + 1;
            while j < n && !char_is_space(s.get_char(j))
                invariant
                    n == s@.len(),
                    start < j <= n,
                    forall|m: int| start <= m < j ==> !is_space(s@[m]),
                decreases n - j,
            {
                j += 1;
            }
            let tok = s.substring_char(start, j).to_owned();
            proof {
                let sub = s@.skip(start as int);
                assert forall|m: int| 0 <= m < j - start implies !is_space(sub[m]) by {
                    assert(sub[m] == s@[start + m]);
                }
                if j < n {
                    assert(sub[j - start] == s@[j as int]);
                }
                lemma_token_len_is(sub, j - start);
                assert(sub.take(j - start) =~= s@.subrange(start as int, j as int));
                assert(sub.skip(j - start) =~= s@.skip(j as int));
                assert(spec_tokens(sub) == seq![s@.subrange(start as int, j as int)]
                    + spec_tokens(s@.skip(j as int)));
                assert(views_of(tokens@.push(tok)) =~= views_of(tokens@) + seq![tok@]);
                assert(views_of(tokens@) + seq![tok@] + spec_tokens(s@.skip(j as int))
                    =~= views_of(tokens@) + spec_tokens(sub));
            }
            tokens.push(tok);
            i = j;
        }
    }
    proof {
        assert(s@.skip(i as int) =~= Seq::<char>::empty());
        assert(spec_tokens(s@) =~= views_of(tokens@));
    }
    tokens
}

/// Length of the maximal prefix of `s` free of the delimiter `d`.
pub open spec fn seg_len(s: Seq<char>, d: char) -> nat
    decreases s.len(),
{
    if s.len() == 0 || s[0] == d {
        0
    } else {
        1 + seg_len(s.skip(1), d)
    }
}

pub proof fn lemma_seg_len_le(s: Seq<char>, d: char)
    ensures
        seg_len(s, d) <= s.len(),
    decreases s.len(),
{
    if s.len() > 0 && s[0] != d {
        lemma_seg_len_le(s.skip(1), d);
    }
}

/// If the first `k` characters differ from `d` and character `k` (if any)
/// is `d`, the maximal `d`-free prefix has length exactly `k`.
pub proof fn lemma_seg_len_is(s: Seq<char>, d: char, k: int)
    requires
        0 <= k <= s.len(),
        forall|m: int| 0 <= m < k ==> s[m] != d,
        k == s.len() || s[k] == d,
    ensures
        seg_len(s, d) == k,
    decreases k,
{
    if k > 0 {
        lemma_seg_len_is(s.skip(1), d, k - 1);
    }
}

/// The segments of `s` between occurrences of the delimiter `d`, empty
/// segments kept: what `split(d)` yields. The empty text has one (empty)
/// segment.
pub open spec fn spec_split(s: Seq<char>, d: char) -> Seq<Seq<char>>
    decreases s.len(),
    via spec_split_decreases
{
    if seg_len(s, d) == s.len() {
        seq![s]
    } else {
        seq![s.take(seg_len(s, d) as int)] + spec_split(s.skip(seg_len(s, d) as int + 1), d)
    }
}

#[via_fn]
proof fn spec_split_decreases(s: Seq<char>, d: char) {
    lemma_seg_len_le(s, d);
}

/// Splits `s` at every occurrence of `d`, exactly the segments of
/// [`spec_split`].
pub fn split_char(s: &str, d: char) -> (segs: Vec<String>)
    ensures
        views_of(segs@) == spec_split(s@, d),
{
    let n: usize = s.unicode_len();
    let mut segs: Vec<String> = Vec::new();
    let mut i: usize = 0;
    proof {
        assert(views_of(segs@) =~= Seq::<Seq<char>>::empty());
        assert(s@.skip(0) =~= s@);
    }
    loop
        invariant
            n == s@.len(),
            i <= n,
            spec_split(s@, d) == views_of(segs@) + spec_split(s@.skip(i as int), d),
        decreases n - i,
    {
        let start = i;
        let mut j: usize = i;
        while j < n && s.get_char(j) != d
            invariant
                n == s@.len(),
                start <= j <= n,
                forall|m: int| start <= m < j ==> s@[m] != d,
            decreases n - j,
        {
            j += 1;
        }
        let seg = s.substring_char(start, j).to_owned();
        proof {
            let sub = s@.skip(start as int);
            assert forall|m: int| 0 <= m < j - start implies sub[m] != d by {
                assert(sub[m] == s@[start + m]);
            }
            if j < n {
                assert(sub[j - start] == s@[j as int]);
            }
            lemma_seg_len_is(sub, d, j - start);
            assert(sub.take(j - start) =~= s@.subrange(start as int, j as int));
            assert(views_of(segs@.push(seg)) =~= views_of(segs@) + seq![seg@]);
        }
        segs.push(seg);
        if j == n {
            proof {
                let sub = s@.skip(start as int);
                assert(seg_len(sub, d) == sub.len());
                assert(spec_split(sub, d) == seq![sub]);
                assert(sub =~= s@.subrange(start as int, j as int));
                assert(views_of(segs@) =~= views_of(segs@).drop_last() + seq![seg@]);
                assert(spec_split(s@, d) =~= views_of(segs@));
            }
            return segs;
        }
        proof {
            let sub = s@.skip(start as int);
            assert(sub.skip(j - start + 1) =~= s@.skip(j as int + 1));
            assert(spec_split(sub, d) == seq![s@.subrange(start as int, j as int)]
                + spec_split(s@.skip(j as int + 1), d));
            assert(views_of(segs@) + spec_split(s@.skip(j as int + 1), d)
                =~= views_of(segs@.drop_last()) + spec_split(sub, d));
        }
        i = j + 1;
    }
}

/// `s` with every leading `c` removed.
pub open spec fn strip_leading(s: Seq<char>, c: char) -> Seq<char>
    decreases s.len(),
{
    if s.len() > 0 && s[0] == c {
        strip_leading(s.skip(1), c)
    } else {
        s
    }
}

/// `s` with every trailing `c` removed.
pub open spec fn strip_trailing(s: Seq<char>, c: char) -> Seq<char>
    decreases s.len(),
{
    if s.len() > 0 && s[s.len() - 1] == c {
        strip_trailing(s.take(s.len() - 1), c)
    } else {
        s
    }
}

proof fn lemma_strip_leading_at(s: Seq<char>, c: char, a: int)
    requires
        0 <= a <= s.len(),
        forall|k: int| 0 <= k < a ==> s[k] == c,
        a == s.len() || s[a] != c,
    ensures
        strip_leading(s, c) == s.skip(a),
    decreases a,
{
    if a == 0 {
        assert(s.skip(0) =~= s);
    } else {
        lemma_strip_leading_at(s.skip(1), c, a - 1);
        assert(s.skip(1).skip(a - 1) =~= s.skip(a));
    }
}

proof fn lemma_strip_trailing_at(s: Seq<char>, c: char, b: int)
    requires
        0 <= b <= s.len(),
        forall|k: int| b <= k < s.len() ==> s[k] == c,
        b == 0 || s[b - 1] != c,
    ensures
        strip_trailing(s, c) == s.take(b),
    decreases s.len(),
{
    if b == s.len() {
        if s.len() > 0 && s[s.len() - 1] == c {
            assert(s[b - 1] == c);
            assert(false);
        }
        assert(s.take(b) =~= s);
    } else {
        assert(s[s.len() - 1] == c);
        lemma_strip_trailing_at(s.take(s.len() - 1), c, b);
        assert(s.take(s.len() - 1).take(b) =~= s.take(b));
    }
}

/// Removes every leading `lead` and, from what remains, every trailing
/// `trail`.
pub fn strip_edges(s: &str, lead: char, trail: char) -> (r: String)
    ensures
        r@ == strip_trailing(strip_leading(s@, lead), trail),
{
    let n: usize = s.unicode_len();
    let mut a: usize = 0;
    while a < n && s.get_char(a) == lead
        invariant
            n == s@.len(),
            a <= n,
            forall|k: int| 0 <= k < a ==> s@[k] == lead,
        decreases n - a,
    {
        a += 1;
    }
    let mut b: usize = n;
    while b > a && s.get_char(b - 1) == trail
        invariant
            n == s@.len(),
            a <= b <= n,
            forall|k: int| b <= k < n ==> s@[k] == trail,
        decreases b,
    {
        b -= 1;
    }
    proof {
        lemma_strip_leading_at(s@, lead, a as int);
        let sub = s@.skip(a as int);
        assert forall|k: int| b - a <= k < sub.len() implies sub[k] == trail by {
            assert(sub[k] == s@[a + k]);
        }
        if b > a {
            assert(sub[b - a - 1] == s@[b as int - 1]);
        }
        lemma_strip_trailing_at(sub, trail, b - a);
        assert(sub.take(b - a) =~= s@.subrange(a as int, b as int));
    }
    s.substring_char(a, b).to_owned()
}

/// `s` with every `from` replaced by `to`.
pub open spec fn replace_char(s: Seq<char>, from: char, to: char) -> Seq<char> {
    s.map_values(|c: char| if c == from { to } else { c })
}

/// Builds the text of [`replace_char`]: `s` with every `from` rewritten
/// to `to`.
pub fn replace_char_exec(s: &str, from: char, to: &str) -> (r: String)
    requires
        to@.len() == 1,
    ensures
        r@ == replace_char(s@, from, to@[0]),
{
    let n: usize = s.unicode_len();
    let mut out = String::new();
    let mut i: usize = 0;
    proof {
        assert(out@ =~= replace_char(s@.take(0), from, to@[0]));
    }
    while i < n
        invariant
            n == s@.len(),
            i <= n,
            to@.len() == 1,
            out@ == replace_char(s@.take(i as int), from, to@[0]),
        decreases n - i,
    {
        let c = s.get_char(i);
        if c == from {
            out.append(to);
        } else {
            out.append(s.substring_char(i, i + 1));
        }
        proof {
            assert(s@.subrange(i as int, i as int + 1) =~= seq![s@[i as int]]);
            assert(out@ =~= replace_char(s@.take(i as int + 1), from, to@[0]));
        }
        i += 1;
    }
    proof {
        assert(s@.take(n as int) =~= s@);
    }
    out
}

/// Whether `s` contains the character `c`, decided by one pass.
pub fn contains_char(s: &str, c: char) -> (r: bool)
    ensures
        r == s@.contains(c),
{
    let n: usize = s.unicode_len();
    let mut i: usize = 0;
    while i < n
        invariant
            n == s@.len(),
            i <= n,
            forall|k: int| 0 <= k < i ==> s@[k] != c,
        decreases n - i,
    {
        if s.get_char(i) == c {
            assert(s@[i as int] == c);
            return true;
        }
        i += 1;
    }
    false
}

} // verus!
