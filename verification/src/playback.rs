//! Playing a recording back: cleaning up the recorded text, choosing the
//! clouds that a label filter lets through, and timing each cloud.

use vstd::prelude::*;
use vstd::string::StrSliceExecFns;

verus! {

/// `needle` occurs in `hay` at position `i`.
pub open spec fn occurs_at<T>(hay: Seq<T>, needle: Seq<T>, i: int) -> bool {
    0 <= i && i + needle.len() <= hay.len() && hay.subrange(i, i + needle.len()) == needle
}

/// `needle` occurs somewhere in `hay`.
pub open spec fn contains_text(hay: Seq<char>, needle: Seq<char>) -> bool {
    exists|i: int| #[trigger] occurs_at(hay, needle, i)
}

/// `s` with every occurrence of `pat` replaced by `rep`, scanning from the
/// left and never looking into a replacement.
pub open spec fn replaced(s: Seq<u8>, pat: Seq<u8>, rep: Seq<u8>) -> Seq<u8>
    decreases s.len(),
{
    if s.len() == 0 {
        Seq::empty()
    } else if pat.len() > 0 && occurs_at(s, pat, 0) {
        rep + replaced(s.subrange(pat.len() as int, s.len() as int), pat, rep)
    } else {
        seq![s[0]] + replaced(s.drop_first(), pat, rep)
    }
}

/// The bytes of the JSON literal `null`.
pub open spec fn null_bytes() -> Seq<u8> {
    seq![0x6eu8, 0x75u8, 0x6cu8, 0x6cu8]
}

/// The bytes of the number `0.0`.
pub open spec fn zero_bytes() -> Seq<u8> {
    seq![0x30u8, 0x2eu8, 0x30u8]
}

/// `pat` occurs in `s` at `i`, checked byte by byte.
fn matches_at(s: &[u8], pat: &[u8], i: usize) -> (r: bool)
    requires
        i <= s@.len(),
    ensures
        r == occurs_at(s@, pat@, i as int),
{
    let n = s.len();
    if pat.len() > n - i {
        return false;
    }
    let mut k: usize = 0;
    while k < pat.len()
        invariant
            0 <= k <= pat@.len(),
            n == s@.len(),
            i + pat@.len() <= n,
            forall|l: int| 0 <= l < k ==> s@[i + l] == pat@[l],
        decreases pat@.len() - k,
    {
        if s[i + k] != pat[k] {
            assert(s@.subrange(i as int, i + pat@.len())[k as int] != pat@[k as int]);
            return false;
        }
        k += 1;
    }
    assert(s@.subrange(i as int, i + pat@.len()) =~= pat@);
    true
}

proof fn lemma_replaced_step(s: Seq<u8>, i: int, pat: Seq<u8>, rep: Seq<u8>)
    requires
        0 <= i < s.len(),
        pat.len() > 0,
    ensures
        occurs_at(s, pat, i) ==> replaced(s.subrange(i, s.len() as int), pat, rep) == rep + replaced(
            s.subrange(i + pat.len(), s.len() as int),
            pat,
            rep,
        ),
        !occurs_at(s, pat, i) ==> replaced(s.subrange(i, s.len() as int), pat, rep) == seq![s[i]]
            + replaced(s.subrange(i + 1, s.len() as int), pat, rep),
{
    let t = s.subrange(i, s.len() as int);
    if occurs_at(s, pat, i) {
        assert(t.subrange(0, pat.len() as int) =~= s.subrange(i, i + pat.len()));
        assert(t.subrange(pat.len() as int, t.len() as int) =~= s.subrange(i + pat.len(), s.len() as int));
    } else {
        if i + pat.len() <= s.len() {
            assert(t.subrange(0, pat.len() as int) =~= s.subrange(i, i + pat.len()));
        }
        assert(t.drop_first() =~= s.subrange(i + 1, s.len() as int));
    }
}

/// Every occurrence of `pat` in `s` replaced by `rep`.
fn replace_all(s: &[u8], pat: &[u8], rep: &[u8]) -> (r: Vec<u8>)
    requires
        pat@.len() > 0,
    ensures
        r@ == replaced(s@, pat@, rep@),
{
    let n = s.len();
    let mut out: Vec<u8> = Vec::new();
    let mut i: usize = 0;
    assert(s@.subrange(0, n as int) =~= s@);
    while i < n
        invariant
            n == s@.len(),
            0 <= i <= n,
            pat@.len() > 0,
            replaced(s@, pat@, rep@) == out@ + replaced(s@.subrange(i as int, n as int), pat@, rep@),
        decreases n - i,
    {
        proof {
            lemma_replaced_step(s@, i as int, pat@, rep@);
        }
        let ghost before = out@;
        if matches_at(s, pat, i) {
            let mut k: usize = 0;
            while k < rep.len()
                invariant
                    0 <= k <= rep@.len(),
                    out@ == before + rep@.subrange(0, k as int),
                decreases rep@.len() - k,
            {
                out.push(rep[k]);
                proof {
                    assert(rep@.subrange(0, k + 1) =~= rep@.subrange(0, k as int).push(rep@[k as int]));
                }
                k += 1;
            }
            proof {
                assert(rep@.subrange(0, rep@.len() as int) =~= rep@);
                assert(before + (rep@ + replaced(s@.subrange(i + pat@.len(), n as int), pat@, rep@))
                    =~= out@ + replaced(s@.subrange(i + pat@.len(), n as int), pat@, rep@));
            }
            i = i + pat.len();
        } else {
            out.push(s[i]);
            proof {
                assert(before + (seq![s@[i as int]] + replaced(s@.subrange(i + 1, n as int), pat@, rep@))
                    =~= out@ + replaced(s@.subrange(i + 1, n as int), pat@, rep@));
            }
            i = i + 1;
        }
    }
    proof {
        assert(s@.subrange(n as int, n as int).len() == 0);
        assert(out@ + Seq::<u8>::empty() =~= out@);
    }
    out
}

/// A text whose sanitized form does not start with `0` is not a `null` at
/// its start: its sanitized form is its first byte and the sanitized rest.
proof fn lemma_sanitized_head(t: Seq<u8>)
    requires
        replaced(t, null_bytes(), zero_bytes()).len() > 0,
        replaced(t, null_bytes(), zero_bytes())[0] != 0x30u8,
    ensures
        t.len() > 0,
        !occurs_at(t, null_bytes(), 0),
        replaced(t, null_bytes(), zero_bytes()) == seq![t[0]] + replaced(t.drop_first(), null_bytes(), zero_bytes()),
{
    if t.len() > 0 && occurs_at(t, null_bytes(), 0) {
        assert(replaced(t, null_bytes(), zero_bytes())[0] == zero_bytes()[0]);
    }
}

/// Sanitizing leaves no `null` anywhere in the text.
pub proof fn lemma_sanitized_has_no_null(s: Seq<u8>)
    ensures
        forall|i: int| !#[trigger] occurs_at(replaced(s, null_bytes(), zero_bytes()), null_bytes(), i),
    decreases s.len(),
{
    let nb = null_bytes();
    let zb = zero_bytes();
    let r = replaced(s, nb, zb);
    if s.len() == 0 {
    } else if occurs_at(s, nb, 0) {
        let t = s.subrange(4, s.len() as int);
        lemma_sanitized_has_no_null(t);
        let rt = replaced(t, nb, zb);
        assert(r == zb + rt);
        assert forall|i: int| !#[trigger] occurs_at(r, nb, i) by {
            if occurs_at(r, nb, i) {
                if i < 3 {
                    assert(r.subrange(i, i + 4)[0] == r[i]);
                    assert(r[i] == zb[i]);
                } else {
                    assert(r.subrange(i, i + 4) =~= rt.subrange(i - 3, i + 1));
                    assert(occurs_at(rt, nb, i - 3));
                }
            }
        }
    } else {
        let t = s.drop_first();
        lemma_sanitized_has_no_null(t);
        let rt = replaced(t, nb, zb);
        assert(r == seq![s[0]] + rt);
        assert forall|i: int| !#[trigger] occurs_at(r, nb, i) by {
            if occurs_at(r, nb, i) {
                if i == 0 {
                    let w = r.subrange(0, 4);
                    assert(w[0] == r[0] && w[1] == r[1] && w[2] == r[2] && w[3] == r[3]);
                    assert(rt[0] == r[1]);
                    lemma_sanitized_head(t);
                    let t2 = t.drop_first();
                    let rt2 = replaced(t2, nb, zb);
                    assert(rt2[0] == r[2]);
                    lemma_sanitized_head(t2);
                    let t3 = t2.drop_first();
                    let rt3 = replaced(t3, nb, zb);
                    assert(rt3[0] == r[3]);
                    lemma_sanitized_head(t3);
                    assert(s.subrange(0, 4) =~= nb);
                } else {
                    assert(r.subrange(i, i + 4) =~= rt.subrange(i - 1, i + 3));
                    assert(occurs_at(rt, nb, i - 1));
                }
            }
        }
    }
}

/// The recorded text with every `null` written as `0.0`, so that absent
/// coordinates read back as zero. No `null` is left.
pub fn sanitize_nulls(content: &[u8]) -> (r: Vec<u8>)
    ensures
        r@ == replaced(content@, null_bytes(), zero_bytes()),
        forall|i: int| !#[trigger] occurs_at(r@, null_bytes(), i),
{
    proof {
        lemma_sanitized_has_no_null(content@);
    }
    let null: [u8; 4] = [0x6e, 0x75, 0x6c, 0x6c];
    let zero: [u8; 3] = [0x30, 0x2e, 0x30];
    assert(null@ =~= null_bytes());
    assert(zero@ =~= zero_bytes());
    replace_all(content, null.as_slice(), zero.as_slice())
}

/// `needle` occurs in `hay` at `i`, checked character by character.
fn chars_match_at(hay: &str, needle: &str, i: usize, n: usize, m: usize) -> (r: bool)
    requires
        n == hay@.len(),
        m == needle@.len(),
        i + m <= n,
    ensures
        r == occurs_at(hay@, needle@, i as int),
{
    let mut k: usize = 0;
    while k < m
        invariant
            0 <= k <= m,
            n == hay@.len(),
            m == needle@.len(),
            i + m <= n,
            forall|l: int| 0 <= l < k ==> hay@[i + l] == needle@[l],
        decreases m - k,
    {
        if hay.get_char(i + k) != needle.get_char(k) {
            assert(hay@.subrange(i as int, i + m)[k as int] != needle@[k as int]);
            return false;
        }
        k += 1;
    }
    assert(hay@.subrange(i as int, i + m) =~= needle@);
    true
}

/// Whether `needle` occurs in `hay`.
pub(crate) fn text_contains(hay: &str, needle: &str) -> (r: bool)
    ensures
        r == contains_text(hay@, needle@),
{
    let n = hay.unicode_len();
    let m = needle.unicode_len();
    if m > n {
        assert forall|j: int| !#[trigger] occurs_at(hay@, needle@, j) by {}
        return false;
    }
    let last = n - m;
    let mut i: usize = 0;
    while i < last
        invariant
            n == hay@.len(),
            m == needle@.len(),
            last == n - m,
            0 <= i <= last,
            forall|j: int| 0 <= j < i ==> !#[trigger] occurs_at(hay@, needle@, j),
        decreases last - i,
    {
        if chars_match_at(hay, needle, i, n, m) {
            return true;
        }
        i += 1;
    }
    if chars_match_at(hay, needle, last, n, m) {
        return true;
    }
    assert forall|j: int| !#[trigger] occurs_at(hay@, needle@, j) by {
        if 0 <= j < i {
        }
    }
    false
}

/// The views of some strings.
pub open spec fn texts(v: Seq<String>) -> Seq<Seq<char>> {
    v.map_values(|s: String| s@)
}

/// A cloud with these labels passes the filter: some label contains a
/// non-empty filter, or an empty filter meets a cloud without labels.
pub open spec fn spec_label_filter_accepts(labels: Seq<Seq<char>>, filter: Seq<char>) -> bool {
    ||| filter.len() > 0 && exists|i: int| 0 <= i < labels.len() && #[trigger] contains_text(labels[i], filter)
    ||| labels.len() == 0 && filter.len() == 0
}

/// A text that has `needle` between some prefix and suffix contains it.
proof fn lemma_framed_text_contains(pre: Seq<char>, needle: Seq<char>, post: Seq<char>)
    ensures
        contains_text(pre + needle + post, needle),
{
    let hay = pre + needle + post;
    assert(hay.subrange(pre.len() as int, (pre.len() + needle.len()) as int) =~= needle);
    assert(occurs_at(hay, needle, pre.len() as int));
}

/// With a filter, a cloud passes as soon as any one of its labels, at any
/// place among them, holds the filter somewhere inside it.
pub proof fn lemma_filter_passes_any_label_holding_it(
    labels: Seq<Seq<char>>,
    filter: Seq<char>,
    i: int,
    pre: Seq<char>,
    post: Seq<char>,
)
    requires
        filter.len() > 0,
        0 <= i < labels.len(),
        labels[i] == pre + filter + post,
    ensures
        spec_label_filter_accepts(labels, filter),
{
    lemma_framed_text_contains(pre, filter, post);
}

/// With a filter, a cloud that passes has a label holding the filter
/// between some prefix and suffix.
pub proof fn lemma_filter_passes_only_with_a_label_holding_it(labels: Seq<Seq<char>>, filter: Seq<char>)
    requires
        filter.len() > 0,
        spec_label_filter_accepts(labels, filter),
    ensures
        exists|i: int, pre: Seq<char>, post: Seq<char>|
            #![trigger labels[i], pre + filter + post]
            0 <= i < labels.len() && labels[i] == pre + filter + post,
{
    let i = choose|i: int| 0 <= i < labels.len() && #[trigger] contains_text(labels[i], filter);
    let l = labels[i];
    let k = choose|k: int| #[trigger] occurs_at(l, filter, k);
    let pre = l.subrange(0, k);
    let post = l.subrange(k + filter.len(), l.len() as int);
    assert(l =~= pre + filter + post);
}

/// Whether a cloud passes does not depend on the order of its labels.
pub proof fn lemma_filter_ignores_label_order(a: Seq<Seq<char>>, b: Seq<Seq<char>>, filter: Seq<char>)
    requires
        a.to_multiset() == b.to_multiset(),
    ensures
        spec_label_filter_accepts(a, filter) == spec_label_filter_accepts(b, filter),
{
    a.to_multiset_ensures();
    b.to_multiset_ensures();
    assert(a.len() == b.len());
    if filter.len() > 0 {
        if spec_label_filter_accepts(a, filter) {
            let i = choose|i: int| 0 <= i < a.len() && #[trigger] contains_text(a[i], filter);
            assert(a.to_multiset().count(a[i]) > 0);
            assert(b.contains(a[i]));
            let j = choose|j: int| 0 <= j < b.len() && b[j] == a[i];
            assert(contains_text(b[j], filter));
        }
        if spec_label_filter_accepts(b, filter) {
            let i = choose|i: int| 0 <= i < b.len() && #[trigger] contains_text(b[i], filter);
            assert(b.to_multiset().count(b[i]) > 0);
            assert(a.contains(b[i]));
            let j = choose|j: int| 0 <= j < a.len() && a[j] == b[i];
            assert(contains_text(a[j], filter));
        }
    }
}

/// Without a filter, exactly the clouds without labels pass.
pub proof fn lemma_empty_filter_passes_unlabelled(labels: Seq<Seq<char>>)
    ensures
        spec_label_filter_accepts(labels, Seq::empty()) == (labels.len() == 0),
{
}

/// Whether a cloud with these labels is played back under the filter.
pub fn label_filter_accepts(labels: &Vec<String>, filter: &str) -> (r: bool)
    ensures
        r == spec_label_filter_accepts(texts(labels@), filter@),
{
    let ghost ls = texts(labels@);
    let m = filter.unicode_len();
    if m == 0 {
        return labels.len() == 0;
    }
    let mut i: usize = 0;
    while i < labels.len()
        invariant
            0 <= i <= labels@.len(),
            ls == texts(labels@),
            m == filter@.len(),
            m > 0,
            forall|j: int| 0 <= j < i ==> !#[trigger] contains_text(ls[j], filter@),
        decreases labels@.len() - i,
    {
        assert(ls[i as int] == labels@[i as int]@);
        if text_contains(labels[i].as_str(), filter) {
            assert(0 <= i < ls.len() && contains_text(ls[i as int], filter@));
            return true;
        }
        i += 1;
    }
    false
}

/// What to do with the next cloud of a recording.
#[derive(Debug, Clone, Copy, PartialEq, Eq, Structural)]
pub enum PlaybackStep {
    /// Playback is already past the cloud: leave it out.
    Skip,
    /// Send the cloud after waiting this many milliseconds.
    PublishAfter(u64),
}

/// The step for a cloud that lies `offset` nanoseconds into the recording,
/// when playback has run for `elapsed` nanoseconds: a cloud that is due is
/// sent once the whole milliseconds of the difference have passed.
pub open spec fn spec_playback_step(elapsed: int, offset: int) -> PlaybackStep {
    if elapsed > offset {
        PlaybackStep::Skip
    } else {
        PlaybackStep::PublishAfter(((offset - elapsed) / 1_000_000) as u64)
    }
}

pub fn playback_step(elapsed_nanos: i64, offset_nanos: i64) -> (r: PlaybackStep)
    ensures
        r == spec_playback_step(elapsed_nanos as int, offset_nanos as int),
{
    if elapsed_nanos > offset_nanos {
        return PlaybackStep::Skip;
    }
    let diff: i128 = offset_nanos as i128 - elapsed_nanos as i128;
    let millis: i128 = diff / 1_000_000;
    assert(0 <= millis <= u64::MAX) by (nonlinear_arith)
        requires
            0 <= diff <= 2 * 0x8000_0000_0000_0000,
            millis == diff / 1_000_000,
    ;
    PlaybackStep::PublishAfter(millis as u64)
}

/// The title of a playback device: its file, then its label filter in
/// brackets.
pub fn playback_title(file_path: &str, label_filter: &str) -> (r: String)
    ensures
        r@ == file_path@ + " ("@ + label_filter@ + ")"@,
{
    let mut r = String::from_str(file_path);
    r.append(" (");
    r.append(label_filter);
    r.append(")");
    r
}

} // verus!
