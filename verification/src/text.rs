//! Word normalisation shared by every label parser: surrounding white space is
//! removed (Unicode `White_Space`, as `str::trim` does) and ASCII capitals are
//! folded to lower case (as `str::to_ascii_lowercase` does).

use vstd::prelude::*;

verus! {

/// The Unicode `White_Space` property.
pub open spec fn is_white_space(c: char) -> bool {
    let u = c as u32;
    ||| 0x9 <= u <= 0xD
    ||| u == 0x20
    ||| u == 0x85
    ||| u == 0xA0
    ||| u == 0x1680
    ||| 0x2000 <= u <= 0x200A
    ||| u == 0x2028
    ||| u == 0x2029
    ||| u == 0x202F
    ||| u == 0x205F
    ||| u == 0x3000
}

/// `s` without its leading white space.
pub open spec fn trim_start(s: Seq<char>) -> Seq<char>
    decreases s.len(),
{
    if s.len() > 0 && is_white_space(s[0]) {
        trim_start(s.drop_first())
    } else {
        s
    }
}

/// `s` without its trailing white space.
pub open spec fn trim_end(s: Seq<char>) -> Seq<char>
    decreases s.len(),
{
    if s.len() > 0 && is_white_space(s.last()) {
        trim_end(s.drop_last())
    } else {
        s
    }
}

/// `s` without white space at either end.
pub open spec fn trimmed(s: Seq<char>) -> Seq<char> {
    trim_end(trim_start(s))
}

/// ASCII capital letters folded to lower case; every other character kept.
pub open spec fn ascii_lower(c: char) -> char {
    if 'A' <= c <= 'Z' {
        ((c as u32) + 32) as char
    } else {
        c
    }
}

/// The normal form in which every label of this crate is compared.
pub open spec fn normalised(s: Seq<char>) -> Seq<char> {
    trimmed(s).map_values(|c: char| ascii_lower(c))
}

/// A word with no white space and no ASCII capital is its own normal form.
pub proof fn lemma_normalised_plain(s: Seq<char>)
    requires
        forall|i: int| 0 <= i < s.len() ==> !is_white_space(#[trigger] s[i]) && !('A' <= s[i] <= 'Z'),
    ensures
        normalised(s) == s,
{
    assert(trim_start(s) == s);
    assert(trim_end(s) == s);
    assert(s.map_values(|c: char| ascii_lower(c)) =~= s);
}

proof fn lemma_trim_start_skips(pre: Seq<char>, t: Seq<char>)
    requires
        forall|k: int| 0 <= k < pre.len() ==> is_white_space(#[trigger] pre[k]),
    ensures
        trim_start(pre + t) == trim_start(t),
    decreases pre.len(),
{
    if pre.len() > 0 {
        assert((pre + t)[0] == pre[0]);
        assert((pre + t).drop_first() =~= pre.drop_first() + t);
        assert forall|k: int| 0 <= k < pre.drop_first().len() implies is_white_space(
            #[trigger] pre.drop_first()[k],
        ) by {
            assert(pre.drop_first()[k] == pre[k + 1]);
        }
        lemma_trim_start_skips(pre.drop_first(), t);
    } else {
        assert(pre + t =~= t);
    }
}

proof fn lemma_trim_end_skips(t: Seq<char>, post: Seq<char>)
    requires
        forall|k: int| 0 <= k < post.len() ==> is_white_space(#[trigger] post[k]),
    ensures
        trim_end(t + post) == trim_end(t),
    decreases post.len(),
{
    if post.len() > 0 {
        assert((t + post).last() == post.last());
        assert(is_white_space(post[post.len() - 1]));
        assert((t + post).drop_last() =~= t + post.drop_last());
        assert forall|k: int| 0 <= k < post.drop_last().len() implies is_white_space(
            #[trigger] post.drop_last()[k],
        ) by {
            assert(post.drop_last()[k] == post[k]);
        }
        lemma_trim_end_skips(t, post.drop_last());
    } else {
        assert(t + post =~= t);
    }
}

proof fn lemma_trimmed_padding(pre: Seq<char>, w: Seq<char>, post: Seq<char>)
    requires
        forall|k: int| 0 <= k < pre.len() ==> is_white_space(#[trigger] pre[k]),
        forall|k: int| 0 <= k < post.len() ==> is_white_space(#[trigger] post[k]),
    ensures
        trimmed(pre + w + post) == trimmed(w),
    decreases w.len(),
{
    assert(pre + w + post =~= pre + (w + post));
    lemma_trim_start_skips(pre, w + post);
    if w.len() > 0 && !is_white_space(w[0]) {
        assert((w + post)[0] == w[0]);
        assert(trim_start(w + post) == w + post);
        assert(trim_start(w) == w);
        lemma_trim_end_skips(w, post);
    } else if w.len() == 0 {
        assert(w + post =~= post);
        lemma_trim_start_skips(post, Seq::empty());
        assert(post + Seq::<char>::empty() =~= post);
    } else {
        assert((w + post).drop_first() =~= w.drop_first() + post);
        lemma_trimmed_padding(Seq::empty(), w.drop_first(), post);
        assert(Seq::<char>::empty() + w.drop_first() + post =~= w.drop_first() + post);
        assert(trim_start(w + post) == trim_start(w.drop_first() + post));
        assert(trim_start(w) == trim_start(w.drop_first()));
    }
}

/// Surrounding white space never matters: a word padded with white space on
/// either side normalises as the word does, which, when the word neither
/// starts nor ends with white space, is the word with its ASCII capitals
/// folded to lower case; and white space alone normalises to nothing.
pub proof fn normalised_ignores_padding(pre: Seq<char>, w: Seq<char>, post: Seq<char>)
    requires
        forall|k: int| 0 <= k < pre.len() ==> is_white_space(#[trigger] pre[k]),
        forall|k: int| 0 <= k < post.len() ==> is_white_space(#[trigger] post[k]),
    ensures
        normalised(pre + w + post) == normalised(w),
        w.len() > 0 && !is_white_space(w[0]) && !is_white_space(w.last()) ==> normalised(w)
            == w.map_values(|c: char| ascii_lower(c)),
        normalised(pre) == Seq::<char>::empty(),
{
    lemma_trimmed_padding(pre, w, post);
    lemma_trim_start_skips(pre, Seq::empty());
    assert(pre + Seq::<char>::empty() =~= pre);
    if w.len() > 0 && !is_white_space(w[0]) && !is_white_space(w.last()) {
        assert(trim_start(w) == w);
        assert(trim_end(w) == w);
    }
}

/// Whether `c` is Unicode white space.
pub fn is_white_space_char(c: char) -> (b: bool)
    ensures
        b == is_white_space(c),
{
    let u = c as u32;
    (0x9 <= u && u <= 0xD) || u == 0x20 || u == 0x85 || u == 0xA0 || u == 0x1680 || (0x2000 <= u
        && u <= 0x200A) || u == 0x2028 || u == 0x2029 || u == 0x202F || u == 0x205F || u == 0x3000
}

/// `c` with an ASCII capital folded to lower case.
pub fn lower_char(c: char) -> (r: char)
    ensures
        r == ascii_lower(c),
{
    if 'A' <= c && c <= 'Z' {
        let b = c as u8;
        (b + 32) as char
    } else {
        c
    }
}

/// The characters of `s`, in order.
pub fn chars_of(s: &str) -> (r: Vec<char>)
    ensures
        r@ == s@,
{
    let n = s.unicode_len();
    let mut out: Vec<char> = Vec::new();
    let mut i: usize = 0;
    while i < n
        invariant
            n == s@.len(),
            i <= n,
            out@ == s@.subrange(0, i as int),
        decreases n - i,
    {
        let c = s.get_char(i);
        out.push(c);
        i = i + 1;
    }
    out
}

/// The normal form of `s`: trimmed, then ASCII-lower-cased.
pub fn normalise(s: &str) -> (r: Vec<char>)
    ensures
        r@ == normalised(s@),
{
    let cs = chars_of(s);
    let n = cs.len();
    let mut lo: usize = 0;
    assert(s@.subrange(0, n as int) =~= s@);
    while lo < n && is_white_space_char(cs[lo])
        invariant
            cs@ == s@,
            n == cs.len(),
            lo <= n,
            trim_start(s@) == trim_start(s@.subrange(lo as int, n as int)),
        decreases n - lo,
    {
        assert(s@.subrange(lo as int, n as int).drop_first() =~= s@.subrange(lo + 1, n as int));
        lo = lo + 1;
    }
    assert(trim_start(s@) == s@.subrange(lo as int, n as int));
    let mut hi: usize = n;
    while hi > lo && is_white_space_char(cs[hi - 1])
        invariant
            cs@ == s@,
            n == cs.len(),
            lo <= hi <= n,
            trimmed(s@) == trim_end(s@.subrange(lo as int, hi as int)),
        decreases hi - lo,
    {
        assert(s@.subrange(lo as int, hi as int).drop_last() =~= s@.subrange(lo as int, hi - 1));
        hi = hi - 1;
    }
    assert(trimmed(s@) == s@.subrange(lo as int, hi as int));
    let mut out: Vec<char> = Vec::new();
    let mut i: usize = lo;
    while i < hi
        invariant
            cs@ == s@,
            n == cs.len(),
            lo <= i <= hi <= n,
            out@ == s@.subrange(lo as int, i as int).map_values(|c: char| ascii_lower(c)),
        decreases hi - i,
    {
        let c = lower_char(cs[i]);
        out.push(c);
        proof {
            assert(s@.subrange(lo as int, i + 1) =~= s@.subrange(lo as int, i as int).push(s@[i as int]));
        }
        i = i + 1;
        assert(out@ =~= s@.subrange(lo as int, i as int).map_values(|c: char| ascii_lower(c)));
    }
    out
}

/// Whether the characters `w` spell exactly the word `lit`.
pub fn spells(w: &Vec<char>, lit: &str) -> (b: bool)
    ensures
        b == (w@ == lit@),
{
    let n = lit.unicode_len();
    if w.len() != n {
        return false;
    }
    let mut i: usize = 0;
    while i < n
        invariant
            n == lit@.len(),
            n == w.len(),
            i <= n,
            forall|j: int| 0 <= j < i ==> w@[j] == lit@[j],
        decreases n - i,
    {
        if w[i] != lit.get_char(i) {
            return false;
        }
        i = i + 1;
    }
    assert(w@ =~= lit@);
    true
}

} // verus!
