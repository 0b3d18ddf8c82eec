//! Removal of `<think>…</think>` (and `<thinking>…</thinking>`) sections
//! from a streamed model reply.
//!
//! Some models put their reasoning inline, wrapped in these tags, ahead of
//! the answer. The reply arrives in chunks and a tag may be split across
//! chunks (`<thi` + `nk>`), so the filter holds back any tail that could
//! still turn into a tag. It also drops the whitespace left at the edges:
//! leading whitespace is never shown, and trailing whitespace is held back
//! until more text follows it (and dropped if the reply ends without any;
//! an undecided tail released at the end counts as such text).
//!
//! The whole-text meaning is given by [`scan`]: it walks the text, copying
//! what lies outside the tagged sections, and reports the mode the text
//! ends in and the undecided tail. [`strip_think`] is the final result for a
//! complete reply.

use vstd::prelude::*;
use crate::text::{
    all_ws, copy_chars, extend_chars, from_chars, is_ws, lemma_all_ws_concat, lemma_all_ws_trim,
    lemma_trim_end_idempotent, lemma_trim_end_shape, lemma_trim_end_text_suffix,
    lemma_trim_end_unique, lemma_trim_end_ws_suffix, lemma_trim_start_shape,
    lemma_trim_start_text_prefix, lemma_trim_start_unique, lemma_trim_start_ws_prefix,
    skip_ws_backward, skip_ws_forward, to_chars, trim, trim_end, trim_start,
};

verus! {

/// `<think>`
pub open spec fn think_open() -> Seq<char> {
    seq!['<', 't', 'h', 'i', 'n', 'k', '>']
}

/// `<thinking>`
pub open spec fn thinking_open() -> Seq<char> {
    seq!['<', 't', 'h', 'i', 'n', 'k', 'i', 'n', 'g', '>']
}

/// `</think>`
pub open spec fn think_close() -> Seq<char> {
    seq!['<', '/', 't', 'h', 'i', 'n', 'k', '>']
}

/// `</thinking>`
pub open spec fn thinking_close() -> Seq<char> {
    seq!['<', '/', 't', 'h', 'i', 'n', 'k', 'i', 'n', 'g', '>']
}

/// The tags looked for: the closing tags inside a think section, the
/// opening tags outside one.
pub open spec fn tag_pair(in_think: bool) -> (Seq<char>, Seq<char>) {
    if in_think {
        (think_close(), thinking_close())
    } else {
        (think_open(), thinking_open())
    }
}

/// The tag of the pair (the first one listed, should both) that occurs in
/// `s` at position `j`.
pub open spec fn tag_at(s: Seq<char>, j: int, tags: (Seq<char>, Seq<char>)) -> Option<Seq<char>> {
    if tags.0.is_prefix_of(s.skip(j)) {
        Some(tags.0)
    } else if tags.1.is_prefix_of(s.skip(j)) {
        Some(tags.1)
    } else {
        None
    }
}

/// The earliest occurrence, at or after position `j`, of a tag of the pair.
pub open spec fn first_tag_from(s: Seq<char>, tags: (Seq<char>, Seq<char>), j: int) -> Option<
    (int, Seq<char>),
>
    decreases s.len() - j,
{
    if j < 0 || j >= s.len() {
        None
    } else {
        match tag_at(s, j, tags) {
            Some(t) => Some((j, t)),
            None => first_tag_from(s, tags, j + 1),
        }
    }
}

/// The earliest occurrence in `s` of a tag of the pair.
pub open spec fn first_tag(s: Seq<char>, tags: (Seq<char>, Seq<char>)) -> Option<(int, Seq<char>)> {
    first_tag_from(s, tags, 0)
}

/// `u` is the beginning of a tag of the pair (or all of it).
pub open spec fn is_tag_prefix(u: Seq<char>, tags: (Seq<char>, Seq<char>)) -> bool {
    u.is_prefix_of(tags.0) || u.is_prefix_of(tags.1)
}

/// The longest suffix of `s`, of length at most `n`, that is the
/// beginning of a tag (0 if none is).
pub open spec fn held_len_from(s: Seq<char>, tags: (Seq<char>, Seq<char>), n: nat) -> nat
    decreases n,
{
    if n == 0 {
        0
    } else if n <= s.len() && is_tag_prefix(s.skip(s.len() - n), tags) {
        n
    } else {
        held_len_from(s, tags, (n - 1) as nat)
    }
}

/// The length of the longest suffix of `s` that could still grow into a
/// tag of the pair.
pub open spec fn held_len(s: Seq<char>, tags: (Seq<char>, Seq<char>)) -> nat {
    held_len_from(s, tags, s.len())
}

/// Reading `s` in mode `in_think`: the text outside think sections, the
/// mode at the end, and the undecided tail (a possible tag beginning at the
/// very end, which is neither shown nor dropped yet).
#[verifier::opaque]
pub open spec fn scan(in_think: bool, s: Seq<char>) -> (Seq<char>, bool, Seq<char>)
    decreases s.len(),
{
    let tags = tag_pair(in_think);
    match first_tag(s, tags) {
        Some((i, t)) => {
            proof {
                lemma_first_tag_from(s, tags, 0);
                lemma_tags_shape(in_think);
            }
            let r = scan(!in_think, s.skip(i + t.len()));
            (
                if in_think {
                    r.0
                } else {
                    s.take(i) + r.0
                },
                r.1,
                r.2,
            )
        },
        None => {
            let cut = s.len() - held_len(s, tags);
            (
                if in_think {
                    Seq::<char>::empty()
                } else {
                    s.take(cut)
                },
                in_think,
                s.skip(cut),
            )
        },
    }
}

/// What a filter that started in mode `in_think0` (and had already shown
/// text, if `started0`) has shown after reading `text`: the visible text
/// with its leading whitespace dropped (unless text was shown before) and
/// its trailing whitespace held back.
pub open spec fn filter_emitted(in_think0: bool, started0: bool, text: Seq<char>) -> Seq<char> {
    let v = scan(in_think0, text).0;
    if started0 {
        trim_end(v)
    } else {
        trim(v)
    }
}

/// Everything such a filter shows for `text` once the stream has ended.
/// When the text ends in an undecided tail outside a think section, that
/// tail is shown after what was shown, together with the whitespace held
/// back before it; otherwise the held-back trailing whitespace is dropped.
/// Only the whitespace at the very start and end of the reply is lost.
pub open spec fn filter_output(in_think0: bool, started0: bool, text: Seq<char>) -> Seq<char> {
    let r = scan(in_think0, text);
    if r.1 || r.2.len() == 0 {
        filter_emitted(in_think0, started0, text)
    } else {
        (if started0 {
            r.0
        } else {
            trim_start(r.0)
        }) + r.2
    }
}

/// Whether the filter has shown any text after reading `text`.
pub open spec fn filter_started(in_think0: bool, started0: bool, text: Seq<char>) -> bool {
    started0 || !all_ws(scan(in_think0, text).0)
}

/// The reply as shown, for a complete reply `text` read by a fresh filter.
pub open spec fn strip_think(text: Seq<char>) -> Seq<char> {
    filter_output(false, false, text)
}

/// The tags are nonempty, start with `<`, hold no other `<`, and neither
/// tag of a pair is a prefix of the other.
pub proof fn lemma_tags_shape(in_think: bool)
    ensures
        ({
            let tags = tag_pair(in_think);
            &&& tags.0.len() > 0 && tags.1.len() > 0
            &&& tags.0[0] == '<' && tags.1[0] == '<'
            &&& forall|k: int| 0 < k < tags.0.len() ==> tags.0[k] != '<'
            &&& forall|k: int| 0 < k < tags.1.len() ==> tags.1[k] != '<'
            &&& !tags.0.is_prefix_of(tags.1)
            &&& !tags.1.is_prefix_of(tags.0)
            &&& tags.0.len() <= 11 && tags.1.len() <= 11
        }),
{
    let tags = tag_pair(in_think);
    if in_think {
        assert(tags.0[7] != tags.1.subrange(0, tags.0.len() as int)[7]);
    } else {
        assert(tags.0[6] != tags.1.subrange(0, tags.0.len() as int)[6]);
    }
}

/// What the earliest-occurrence search finds, and that nothing occurs
/// before it.
pub proof fn lemma_first_tag_from(s: Seq<char>, tags: (Seq<char>, Seq<char>), j: int)
    requires
        0 <= j,
    ensures
        match first_tag_from(s, tags, j) {
            Some((i, t)) => {
                &&& j <= i < s.len()
                &&& tag_at(s, i, tags) == Some(t)
                &&& t.is_prefix_of(s.skip(i))
                &&& i + t.len() <= s.len()
                &&& (t == tags.0 || t == tags.1)
                &&& forall|m: int| j <= m < i ==> tag_at(s, m, tags) is None
            },
            None => forall|m: int| j <= m < s.len() ==> tag_at(s, m, tags) is None,
        },
    decreases s.len() - j,
{
    if j < s.len() {
        if tag_at(s, j, tags) is None {
            lemma_first_tag_from(s, tags, j + 1);
        }
    }
}


/// Scanning from `j` and from `k` find the same occurrence when no tag
/// occurs in between.
pub proof fn lemma_first_tag_skip(s: Seq<char>, tags: (Seq<char>, Seq<char>), j: int, k: int)
    requires
        0 <= j <= k <= s.len(),
        forall|m: int| j <= m < k ==> tag_at(s, m, tags) is None,
    ensures
        first_tag_from(s, tags, j) == first_tag_from(s, tags, k),
    decreases k - j,
{
    if j < k {
        lemma_first_tag_skip(s, tags, j + 1, k);
    }
}

/// Searching `a + z` past `a` is searching `z`, shifted by `a.len()`.
pub proof fn lemma_first_tag_shift(
    a: Seq<char>,
    z: Seq<char>,
    tags: (Seq<char>, Seq<char>),
    j: int,
)
    requires
        0 <= j,
    ensures
        first_tag_from(a + z, tags, a.len() + j) == match first_tag_from(z, tags, j) {
            Some((i, t)) => Some((i + a.len(), t)),
            None => None,
        },
    decreases z.len() - j,
{
    if j < z.len() {
        assert((a + z).skip(a.len() + j) =~= z.skip(j));
        if tag_at(z, j, tags) is None {
            lemma_first_tag_shift(a, z, tags, j + 1);
        }
    }
}

/// What the held-back length is: a suffix that is a tag beginning, with
/// no longer suffix (among those of length at most `n`) being one.
pub proof fn lemma_held_len_from(s: Seq<char>, tags: (Seq<char>, Seq<char>), n: nat)
    requires
        n <= s.len(),
    ensures
        held_len_from(s, tags, n) <= n,
        is_tag_prefix(s.skip(s.len() - held_len_from(s, tags, n)), tags),
        forall|j: int|
            s.len() - n <= j < s.len() - held_len_from(s, tags, n) ==> !is_tag_prefix(
                #[trigger] s.skip(j),
                tags,
            ),
    decreases n,
{
    if n == 0 {
        assert(s.skip(s.len() as int).is_prefix_of(tags.0));
    } else if !is_tag_prefix(s.skip(s.len() - n), tags) {
        lemma_held_len_from(s, tags, (n - 1) as nat);
    }
}

/// The held-back length is the only length with those properties.
pub proof fn lemma_held_len_unique(s: Seq<char>, tags: (Seq<char>, Seq<char>), k: nat)
    requires
        k <= s.len(),
        is_tag_prefix(s.skip(s.len() - k), tags),
        forall|j: int| 0 <= j < s.len() - k ==> !is_tag_prefix(#[trigger] s.skip(j), tags),
    ensures
        held_len(s, tags) == k,
{
    lemma_held_len_from(s, tags, s.len());
    let r = held_len(s, tags);
    if r < k {
        assert(!is_tag_prefix(s.skip(s.len() - k), tags));
    } else if r > k {
        assert(!is_tag_prefix(s.skip(s.len() - r), tags));
    }
}

/// Two prefixes of one sequence: the shorter is a prefix of the longer.
pub proof fn lemma_prefixes_nest(p: Seq<char>, q: Seq<char>, u: Seq<char>)
    requires
        p.is_prefix_of(u),
        q.is_prefix_of(u),
        p.len() <= q.len(),
    ensures
        p.is_prefix_of(q),
{
    assert forall|k: int| 0 <= k < p.len() implies p[k] == q.subrange(0, p.len() as int)[k] by {
        assert(p[k] == u.subrange(0, p.len() as int)[k]);
        assert(q[k] == u.subrange(0, q.len() as int)[k]);
    }
    assert(p =~= q.subrange(0, p.len() as int));
}

/// A tag found at `m` in `x + y` that ends within `x` is found at `m` in `x`.
pub proof fn lemma_prefix_within(t: Seq<char>, x: Seq<char>, y: Seq<char>, m: int)
    requires
        0 <= m,
        m + t.len() <= x.len(),
    ensures
        t.is_prefix_of((x + y).skip(m)) <==> t.is_prefix_of(x.skip(m)),
{
    assert((x + y).skip(m).subrange(0, t.len() as int) =~= x.skip(m).subrange(0, t.len() as int));
}

/// A tag occurrence that starts before a `<` ends at or before it.
pub proof fn lemma_tag_blocked(b: bool, s: Seq<char>, m: int, i: int)
    requires
        0 <= m < i < s.len(),
        s[i] == '<',
    ensures
        tag_at(s, m, tag_pair(b)) matches Some(t) ==> m + t.len() <= i,
{
    lemma_tags_shape(b);
    let tags = tag_pair(b);
    if let Some(t) = tag_at(s, m, tags) {
        if m + t.len() > i {
            assert(t[i - m] == s.skip(m).subrange(0, t.len() as int)[i - m]);
        }
    }
}

/// [`scan`] on a text holding a tag.
pub proof fn lemma_scan_tagged(b: bool, s: Seq<char>)
    requires
        first_tag(s, tag_pair(b)) is Some,
    ensures
        ({
            let (i, t) = first_tag(s, tag_pair(b))->0;
            let r = scan(!b, s.skip(i + t.len()));
            &&& 0 <= i && 0 < t.len() && i + t.len() <= s.len()
            &&& scan(b, s) == (
                if b {
                    r.0
                } else {
                    s.take(i) + r.0
                },
                r.1,
                r.2,
            )
        }),
{
    lemma_first_tag_from(s, tag_pair(b), 0);
    lemma_tags_shape(b);
    reveal(scan);
}

/// [`scan`] on a text holding no tag.
pub proof fn lemma_scan_untagged(b: bool, s: Seq<char>)
    requires
        first_tag(s, tag_pair(b)) is None,
    ensures
        ({
            let cut = s.len() - held_len(s, tag_pair(b));
            &&& 0 <= cut <= s.len()
            &&& scan(b, s) == (
                if b {
                    Seq::<char>::empty()
                } else {
                    s.take(cut)
                },
                b,
                s.skip(cut),
            )
        }),
{
    lemma_held_len_from(s, tag_pair(b), s.len());
    reveal(scan);
}

/// Reading an empty text changes nothing.
pub proof fn lemma_scan_empty(b: bool)
    ensures
        scan(b, Seq::<char>::empty()) == (Seq::<char>::empty(), b, Seq::<char>::empty()),
{
    let e = Seq::<char>::empty();
    lemma_scan_untagged(b, e);
    assert(e.take(0) =~= e);
    assert(e.skip(0) =~= e);
}

/// The undecided tail is empty or starts with `<`.
pub proof fn lemma_scan_tail(b: bool, s: Seq<char>)
    ensures
        scan(b, s).2.len() == 0 || scan(b, s).2[0] == '<',
    decreases s.len(),
{
    let tags = tag_pair(b);
    lemma_tags_shape(b);
    lemma_first_tag_from(s, tags, 0);
    match first_tag(s, tags) {
        Some((i, t)) => {
            lemma_scan_tagged(b, s);
            lemma_scan_tail(!b, s.skip(i + t.len()));
        },
        None => {
            lemma_scan_untagged(b, s);
            lemma_held_len_from(s, tags, s.len());
            let tail = s.skip(s.len() - held_len(s, tags));
            if tail.len() > 0 {
                if tail.is_prefix_of(tags.0) {
                    assert(tail[0] == tags.0.subrange(0, tail.len() as int)[0]);
                } else {
                    assert(tail[0] == tags.1.subrange(0, tail.len() as int)[0]);
                }
            }
        },
    }
}

/// An occurrence found in `x` is still the earliest one once text is
/// appended.
pub proof fn lemma_first_tag_extend(b: bool, x: Seq<char>, y: Seq<char>)
    requires
        first_tag(x, tag_pair(b)) is Some,
    ensures
        first_tag(x + y, tag_pair(b)) == first_tag(x, tag_pair(b)),
{
    let tags = tag_pair(b);
    let s = x + y;
    lemma_tags_shape(b);
    lemma_first_tag_from(x, tags, 0);
    let (i, t) = first_tag(x, tags)->0;
    assert(x[i] == '<') by {
        assert(t[0] == x.skip(i).subrange(0, t.len() as int)[0]);
    }
    assert(s[i] == '<');
    assert forall|m: int| 0 <= m < i implies tag_at(s, m, tags) is None by {
        lemma_tag_blocked(b, s, m, i);
        assert(tag_at(x, m, tags) is None);
        if let Some(t2) = tag_at(s, m, tags) {
            lemma_prefix_within(t2, x, y, m);
            assert(t2 == tags.0 || t2 == tags.1);
        }
    }
    lemma_prefix_within(t, x, y, i);
    if t == tags.1 && tags.0.is_prefix_of(s.skip(i)) {
        if tags.0.len() <= tags.1.len() {
            lemma_prefixes_nest(tags.0, tags.1, s.skip(i));
        } else {
            lemma_prefixes_nest(tags.1, tags.0, s.skip(i));
        }
    }
    assert(tag_at(s, i, tags) == Some(t));
    lemma_first_tag_skip(s, tags, 0, i);
}

/// When `x` holds no tag, reading `x + y` goes on from `x`'s undecided
/// tail: the earliest tag of `x + y` is that of `z = tail + y`, shifted,
/// and if there is none, `x + y` holds back what `z` holds back.
pub proof fn lemma_first_tag_after_tail(b: bool, x: Seq<char>, y: Seq<char>)
    requires
        first_tag(x, tag_pair(b)) is None,
    ensures
        ({
            let tags = tag_pair(b);
            let cut = x.len() - held_len(x, tags);
            let z = x.skip(cut) + y;
            &&& 0 <= cut <= x.len()
            &&& x + y =~= x.take(cut) + z
            &&& first_tag(x + y, tags) == match first_tag(z, tags) {
                Some((i, t)) => Some((i + cut, t)),
                None => None,
            }
            &&& first_tag(z, tags) is None ==> held_len(x + y, tags) == held_len(z, tags)
        }),
{
    let tags = tag_pair(b);
    let s = x + y;
    lemma_tags_shape(b);
    lemma_first_tag_from(x, tags, 0);
    lemma_held_len_from(x, tags, x.len());
    let k = held_len(x, tags);
    let cut = x.len() - k;
    let a = x.take(cut);
    let z = x.skip(cut) + y;
    assert(s =~= a + z);
    assert forall|m: int| 0 <= m < cut implies tag_at(s, m, tags) is None by {
        assert(tag_at(x, m, tags) is None);
        if let Some(t2) = tag_at(s, m, tags) {
            if m + t2.len() <= x.len() {
                lemma_prefix_within(t2, x, y, m);
            } else {
                assert(x.skip(m) =~= t2.subrange(0, x.len() - m)) by {
                    assert forall|q: int| 0 <= q < x.len() - m implies #[trigger] x.skip(m)[q]
                        == t2.subrange(0, x.len() - m)[q] by {
                        assert(t2[q] == s.skip(m).subrange(0, t2.len() as int)[q]);
                    }
                }
                assert(x.skip(m).is_prefix_of(t2));
                assert(is_tag_prefix(x.skip(m), tags));
            }
        }
    }
    lemma_first_tag_skip(s, tags, 0, cut);
    lemma_first_tag_shift(a, z, tags, 0);
    assert(a.len() == cut);
    if first_tag(z, tags) is None {
        lemma_held_len_from(z, tags, z.len());
        let k2 = held_len(z, tags);
        assert(s.skip(s.len() - k2) =~= z.skip(z.len() - k2));
        assert forall|j: int| 0 <= j < s.len() - k2 implies !is_tag_prefix(
            #[trigger] s.skip(j),
            tags,
        ) by {
            if j >= cut {
                assert(s.skip(j) =~= z.skip(j - cut));
            } else if is_tag_prefix(s.skip(j), tags) {
                let u = s.skip(j);
                assert(x.skip(j) =~= u.subrange(0, x.len() - j));
                assert(x.skip(j).is_prefix_of(u));
                if u.is_prefix_of(tags.0) {
                    lemma_prefixes_nest(x.skip(j), u, tags.0);
                    lemma_prefix_trans(x.skip(j), u, tags.0);
                } else {
                    lemma_prefix_trans(x.skip(j), u, tags.1);
                }
                assert(is_tag_prefix(x.skip(j), tags));
            }
        }
        lemma_held_len_unique(s, tags, k2);
    }
}

/// A prefix of a prefix is a prefix.
pub proof fn lemma_prefix_trans(p: Seq<char>, q: Seq<char>, u: Seq<char>)
    requires
        p.is_prefix_of(q),
        q.is_prefix_of(u),
    ensures
        p.is_prefix_of(u),
{
    assert forall|k: int| 0 <= k < p.len() implies p[k] == u.subrange(0, p.len() as int)[k] by {
        assert(p[k] == q.subrange(0, p.len() as int)[k]);
        assert(q[k] == u.subrange(0, q.len() as int)[k]);
    }
    assert(p =~= u.subrange(0, p.len() as int));
}

/// [`lemma_scan_split`] when `x` holds no tag but `x + y` does.
proof fn lemma_scan_split_untagged_tagged(b: bool, x: Seq<char>, y: Seq<char>)
    requires
        first_tag(x, tag_pair(b)) is None,
        first_tag(x.skip(x.len() - held_len(x, tag_pair(b))) + y, tag_pair(b)) is Some,
    ensures
        ({
            let r1 = scan(b, x);
            let r2 = scan(r1.1, r1.2 + y);
            scan(b, x + y) == (r1.0 + r2.0, r2.1, r2.2)
        }),
{
    let tags = tag_pair(b);
    let s = x + y;
    lemma_first_tag_after_tail(b, x, y);
    let cut = x.len() - held_len(x, tags);
    let a = x.take(cut);
    let z = x.skip(cut) + y;
    lemma_scan_untagged(b, x);
    lemma_scan_tagged(b, s);
    lemma_scan_tagged(b, z);
    let (i2, t) = first_tag(z, tags)->0;
    assert(s.skip(i2 + cut + t.len()) =~= z.skip(i2 + t.len()));
    assert(s.take(i2 + cut) =~= a + z.take(i2));
    let r = scan(!b, z.skip(i2 + t.len()));
    assert(a + (z.take(i2) + r.0) =~= (a + z.take(i2)) + r.0);
}

/// [`lemma_scan_split`] when neither `x` nor `x + y` holds a tag.
proof fn lemma_scan_split_untagged_untagged(b: bool, x: Seq<char>, y: Seq<char>)
    requires
        first_tag(x, tag_pair(b)) is None,
        first_tag(x.skip(x.len() - held_len(x, tag_pair(b))) + y, tag_pair(b)) is None,
    ensures
        ({
            let r1 = scan(b, x);
            let r2 = scan(r1.1, r1.2 + y);
            scan(b, x + y) == (r1.0 + r2.0, r2.1, r2.2)
        }),
{
    let tags = tag_pair(b);
    let s = x + y;
    lemma_first_tag_after_tail(b, x, y);
    let cut = x.len() - held_len(x, tags);
    let a = x.take(cut);
    let z = x.skip(cut) + y;
    lemma_scan_untagged(b, x);
    lemma_scan_untagged(b, s);
    lemma_scan_untagged(b, z);
    let k2 = held_len(z, tags);
    let cut2 = s.len() - k2;
    assert(s.take(cut2) =~= a + z.take(z.len() - k2));
    assert(s.skip(cut2) =~= z.skip(z.len() - k2));
    assert(a + Seq::<char>::empty() =~= a);
}

/// Splitting the text anywhere does not change how it reads: reading
/// `x + y` is reading `x`, then reading `y` after the undecided tail of `x`
/// in the mode `x` ended in. This is what lets the filter work on chunks.
pub proof fn lemma_scan_split(b: bool, x: Seq<char>, y: Seq<char>)
    ensures
        ({
            let r1 = scan(b, x);
            let r2 = scan(r1.1, r1.2 + y);
            scan(b, x + y) == (r1.0 + r2.0, r2.1, r2.2)
        }),
    decreases x.len(),
{
    let tags = tag_pair(b);
    let s = x + y;
    lemma_tags_shape(b);
    lemma_first_tag_from(x, tags, 0);
    match first_tag(x, tags) {
        Some((i, t)) => {
            lemma_first_tag_extend(b, x, y);
            lemma_scan_tagged(b, x);
            lemma_scan_tagged(b, s);
            let x2 = x.skip(i + t.len());
            assert(s.skip(i + t.len()) =~= x2 + y);
            lemma_scan_split(!b, x2, y);
            assert(s.take(i) =~= x.take(i));
            let r1 = scan(!b, x2);
            let r2 = scan(r1.1, r1.2 + y);
            assert(x.take(i) + (r1.0 + r2.0) =~= (x.take(i) + r1.0) + r2.0);
        },
        None => {
            let z = x.skip(x.len() - held_len(x, tags)) + y;
            if first_tag(z, tags) is Some {
                lemma_scan_split_untagged_tagged(b, x, y);
            } else {
                lemma_scan_split_untagged_untagged(b, x, y);
            }
        },
    }
}


/// How the shown text grows when the visible text `v` read so far is
/// extended by `w`: the new part shown is the trimmed-back end of `p`, the
/// held-back whitespace `tr` followed by `w` (or, while nothing has been
/// shown, `w` without its leading whitespace); the rest of `p` is held back.
pub proof fn lemma_emit_step(s0: bool, v: Seq<char>, w: Seq<char>, tr: Seq<char>)
    requires
        (if s0 {
            v
        } else {
            trim_start(v)
        }) == (if s0 {
            trim_end(v)
        } else {
            trim(v)
        }) + tr,
        all_ws(tr),
    ensures
        ({
            let started = s0 || !all_ws(v);
            let p = if started {
                tr + w
            } else {
                trim_start(w)
            };
            let e1 = if s0 {
                trim_end(v)
            } else {
                trim(v)
            };
            let e2 = if s0 {
                trim_end(v + w)
            } else {
                trim(v + w)
            };
            let u2 = if s0 {
                v + w
            } else {
                trim_start(v + w)
            };
            &&& e2 == e1 + trim_end(p)
            &&& u2 == e2 + p.skip(trim_end(p).len() as int)
            &&& (s0 || !all_ws(v + w)) == (started || !all_ws(w))
            &&& (!started ==> tr.len() == 0)
        }),
{
    let started = s0 || !all_ws(v);
    let e1 = if s0 {
        trim_end(v)
    } else {
        trim(v)
    };
    let u1 = if s0 {
        v
    } else {
        trim_start(v)
    };
    lemma_all_ws_concat(v, w);
    lemma_all_ws_trim(v);
    if started {
        let p = tr + w;
        if !s0 {
            lemma_trim_start_text_prefix(v, w);
        }
        assert(e1 + p =~= u1 + w);
        lemma_trim_end_shape(p);
        lemma_all_ws_trim(p);
        if all_ws(p) {
            lemma_trim_end_ws_suffix(e1, p);
            lemma_trim_end_idempotent(u1);
            assert(e1 + trim_end(p) =~= e1);
        } else {
            lemma_trim_end_text_suffix(e1, p);
        }
        assert(p =~= trim_end(p) + p.skip(trim_end(p).len() as int));
        assert(u1 + w =~= (e1 + trim_end(p)) + p.skip(trim_end(p).len() as int));
    } else {
        let p = trim_start(w);
        assert(tr.len() == 0);
        lemma_trim_start_ws_prefix(v, w);
        lemma_trim_end_shape(p);
        assert(e1 =~= Seq::<char>::empty());
        assert(e1 + trim_end(p) =~= trim_end(p));
        assert(p =~= trim_end(p) + p.skip(trim_end(p).len() as int));
    }
}

/// The opening tags `<think>` and `<thinking>`.
fn open_tags() -> (r: (Vec<char>, Vec<char>))
    ensures
        r.0@ == tag_pair(false).0,
        r.1@ == tag_pair(false).1,
{
    let a = vec!['<', 't', 'h', 'i', 'n', 'k', '>'];
    let b = vec!['<', 't', 'h', 'i', 'n', 'k', 'i', 'n', 'g', '>'];
    assert(a@ =~= think_open());
    assert(b@ =~= thinking_open());
    (a, b)
}

/// The closing tags `</think>` and `</thinking>`.
fn close_tags() -> (r: (Vec<char>, Vec<char>))
    ensures
        r.0@ == tag_pair(true).0,
        r.1@ == tag_pair(true).1,
{
    let a = vec!['<', '/', 't', 'h', 'i', 'n', 'k', '>'];
    let b = vec!['<', '/', 't', 'h', 'i', 'n', 'k', 'i', 'n', 'g', '>'];
    assert(a@ =~= think_close());
    assert(b@ =~= thinking_close());
    (a, b)
}

/// Whether `tag` occurs in `hay` at position `j`.
fn tag_occurs_at(hay: &Vec<char>, j: usize, tag: &Vec<char>) -> (b: bool)
    requires
        j <= hay@.len(),
    ensures
        b == tag@.is_prefix_of(hay@.skip(j as int)),
{
    if tag.len() > hay.len() - j {
        return false;
    }
    let mut k: usize = 0;
    while k < tag.len()
        invariant
            j <= hay@.len() <= usize::MAX,
            j + tag@.len() <= hay@.len(),
            k <= tag@.len(),
            forall|q: int| 0 <= q < k ==> tag@[q] == hay@[j + q],
        decreases tag@.len() - k,
    {
        let pos = j + k;
        if tag[k] != hay[pos] {
            assert(tag@[k as int] != hay@.skip(j as int).subrange(0, tag@.len() as int)[k as int]);
            return false;
        }
        k = k + 1;
    }
    assert(tag@ =~= hay@.skip(j as int).subrange(0, tag@.len() as int));
    true
}

/// Whether `hay[start..]` is the beginning of `tag` (or all of it).
fn tail_begins_tag(hay: &Vec<char>, start: usize, tag: &Vec<char>) -> (b: bool)
    requires
        start <= hay@.len(),
    ensures
        b == hay@.skip(start as int).is_prefix_of(tag@),
{
    let n = hay.len() - start;
    if n > tag.len() {
        return false;
    }
    let mut k: usize = 0;
    while k < n
        invariant
            start <= hay@.len() <= usize::MAX,
            n == hay@.len() - start,
            start + n == hay@.len(),
            n <= tag@.len(),
            k <= n,
            forall|q: int| 0 <= q < k ==> tag@[q] == hay@[start + q],
        decreases n - k,
    {
        let pos = start + k;
        if tag[k] != hay[pos] {
            assert(hay@.skip(start as int)[k as int] != tag@.subrange(0, n as int)[k as int]);
            return false;
        }
        k = k + 1;
    }
    assert(hay@.skip(start as int) =~= tag@.subrange(0, n as int));
    true
}

/// The earliest position in `haystack` where one of the two tags occurs,
/// with that tag's length.
fn first_match(haystack: &Vec<char>, tags: &(Vec<char>, Vec<char>)) -> (r: Option<(usize, usize)>)
    ensures
        match first_tag(haystack@, (tags.0@, tags.1@)) {
            Some((i, t)) => r == Some((i as usize, t.len() as usize)),
            None => r is None,
        },
{
    let ghost tv = (tags.0@, tags.1@);
    let mut j: usize = 0;
    while j < haystack.len()
        invariant
            j <= haystack@.len(),
            tv == (tags.0@, tags.1@),
            first_tag(haystack@, tv) == first_tag_from(haystack@, tv, j as int),
        decreases haystack@.len() - j,
    {
        if tag_occurs_at(haystack, j, &tags.0) {
            assert(tag_at(haystack@, j as int, tv) == Some(tags.0@));
            assert(first_tag_from(haystack@, tv, j as int) == Some((j as int, tags.0@)));
            return Some((j, tags.0.len()));
        }
        if tag_occurs_at(haystack, j, &tags.1) {
            assert(tag_at(haystack@, j as int, tv) == Some(tags.1@));
            assert(first_tag_from(haystack@, tv, j as int) == Some((j as int, tags.1@)));
            return Some((j, tags.1.len()));
        }
        assert(tag_at(haystack@, j as int, tv) is None);
        assert(first_tag_from(haystack@, tv, j as int) == first_tag_from(haystack@, tv, j + 1));
        j = j + 1;
    }
    None
}

/// Suffixes longer than both tags cannot begin a tag, so the search for
/// the held-back length may start at the longer tag's length.
proof fn lemma_held_len_cap(s: Seq<char>, tags: (Seq<char>, Seq<char>), n: nat, m: nat)
    requires
        n <= m <= s.len(),
        n >= tags.0.len() || n == s.len(),
        n >= tags.1.len() || n == s.len(),
    ensures
        held_len_from(s, tags, m) == held_len_from(s, tags, n),
    decreases m - n,
{
    if m > n {
        assert(!is_tag_prefix(s.skip(s.len() - m), tags));
        lemma_held_len_cap(s, tags, n, (m - 1) as nat);
    }
}

/// How many characters at the end of `haystack` could still grow into one
/// of the two tags, and so must be held back.
fn longest_suffix_prefix(haystack: &Vec<char>, tags: &(Vec<char>, Vec<char>)) -> (k: usize)
    ensures
        k == held_len(haystack@, (tags.0@, tags.1@)),
{
    let ghost tv = (tags.0@, tags.1@);
    let longest = if tags.0.len() >= tags.1.len() {
        tags.0.len()
    } else {
        tags.1.len()
    };
    let mut n = if longest <= haystack.len() {
        longest
    } else {
        haystack.len()
    };
    proof {
        lemma_held_len_cap(haystack@, tv, n as nat, haystack@.len());
    }
    while n > 0
        invariant
            n <= haystack@.len(),
            tv == (tags.0@, tags.1@),
            held_len_from(haystack@, tv, n as nat) == held_len(haystack@, tv),
        decreases n,
    {
        let start = haystack.len() - n;
        if tail_begins_tag(haystack, start, &tags.0) || tail_begins_tag(haystack, start, &tags.1) {
            assert(is_tag_prefix(haystack@.skip(haystack@.len() - n), tv));
            assert(held_len_from(haystack@, tv, n as nat) == n);
            return n;
        }
        assert(!is_tag_prefix(haystack@.skip(haystack@.len() - n), tv));
        assert(held_len_from(haystack@, tv, n as nat) == held_len_from(haystack@, tv, (n - 1) as nat));
        n = n - 1;
    }
    0
}

/// Trims the edges of newly visible text `out`: nothing is shown before
/// the first non-whitespace character, and trailing whitespace is held
/// back (after `trailing`, already held) until more text follows it.
/// Returns whether text has now been shown, the whitespace now held back,
/// and the text to show.
fn trim_edges(started: bool, trailing: &Vec<char>, out: &Vec<char>) -> (r: (bool, Vec<char>, String))
    requires
        !started ==> trailing@.len() == 0,
    ensures
        r.0 == (started || !all_ws(out@)),
        ({
            let p = if started {
                trailing@ + out@
            } else {
                trim_start(out@)
            };
            &&& r.2@ == trim_end(p)
            &&& r.1@ == p.skip(trim_end(p).len() as int)
        }),
{
    let n = out.len();
    assert(out@.subrange(0, n as int) =~= out@);
    let mut p: Vec<char>;
    if started {
        p = copy_chars(trailing.as_slice(), 0, trailing.len());
        extend_chars(&mut p, out.as_slice(), 0, n);
        assert(trailing@.subrange(0, trailing@.len() as int) =~= trailing@);
    } else {
        let start = skip_ws_forward(out.as_slice(), 0, n);
        p = copy_chars(out.as_slice(), start, n);
        proof {
            lemma_all_ws_trim(out@);
        }
    }
    let now_started = started || p.len() > 0;
    let m = p.len();
    let end = skip_ws_backward(p.as_slice(), 0, m);
    assert(p@.subrange(0, m as int) =~= p@);
    let shown = from_chars(p.as_slice(), 0, end);
    let held = copy_chars(p.as_slice(), end, m);
    assert(p@.subrange(end as int, m as int) =~= p@.skip(end as int));
    (now_started, held, shown)
}

/// Reads `buf` in mode `in_think`: the text outside think sections, the
/// mode at the end, and the undecided tail.
fn read_sections(in_think: bool, buf: Vec<char>) -> (r: (Vec<char>, bool, Vec<char>))
    ensures
        scan(in_think, buf@) == (r.0@, r.1, r.2@),
{
    let mut rest = buf;
    let mut mode = in_think;
    let mut shown: Vec<char> = Vec::new();
    loop
        invariant_except_break
            scan(in_think, buf@) == (
                shown@ + scan(mode, rest@).0,
                scan(mode, rest@).1,
                scan(mode, rest@).2,
            ),
        ensures
            scan(in_think, buf@) == (shown@, mode, rest@),
        decreases rest@.len(),
    {
        let tags = if mode {
            close_tags()
        } else {
            open_tags()
        };
        assert((tags.0@, tags.1@) == tag_pair(mode));
        match first_match(&rest, &tags) {
            Some((idx, tlen)) => {
                proof {
                    lemma_scan_tagged(mode, rest@);
                }
                let ghost old_rest = rest@;
                let ghost old_shown = shown@;
                assert(idx + tlen <= rest@.len());
                if !mode {
                    extend_chars(&mut shown, rest.as_slice(), 0, idx);
                }
                rest = copy_chars(rest.as_slice(), idx + tlen, rest.len());
                mode = !mode;
                proof {
                    assert(old_rest.subrange(0, idx as int) =~= old_rest.take(idx as int));
                    assert(old_rest.subrange((idx + tlen) as int, old_rest.len() as int)
                        =~= old_rest.skip((idx + tlen) as int));
                    let r = scan(mode, rest@);
                    assert(old_shown + (old_rest.take(idx as int) + r.0) =~= (old_shown
                        + old_rest.take(idx as int)) + r.0);
                }
            },
            None => {
                proof {
                    lemma_scan_untagged(mode, rest@);
                }
                let keep = longest_suffix_prefix(&rest, &tags);
                let cut = rest.len() - keep;
                let ghost old_rest = rest@;
                let ghost old_shown = shown@;
                if !mode {
                    extend_chars(&mut shown, rest.as_slice(), 0, cut);
                }
                rest = copy_chars(rest.as_slice(), cut, rest.len());
                proof {
                    assert(old_rest.subrange(0, cut as int) =~= old_rest.take(cut as int));
                    assert(old_rest.subrange(cut as int, old_rest.len() as int) =~= old_rest.skip(
                        cut as int,
                    ));
                    assert(old_shown + Seq::<char>::empty() =~= old_shown);
                }
                break ;
            },
        }
    }
    (shown, mode, rest)
}

/// Streaming remover of think sections. Keep one per reply stream: feed it
/// each chunk as it arrives, show what [`ThinkFilter::feed`] returns, and
/// call [`ThinkFilter::finish`] when the stream ends.
pub struct ThinkFilter {
    /// Inside a think section: text is being dropped.
    in_think: bool,
    /// A tail that may be the start of a tag split across chunks.
    pending: Vec<char>,
    /// Whether any text has been shown yet.
    started: bool,
    /// Trailing whitespace held back until more text follows it.
    trailing_ws: Vec<char>,
    /// Mode the filter was in when it started reading `consumed`.
    start_in_think: Ghost<bool>,
    /// Whether text had been shown before it started reading `consumed`.
    start_started: Ghost<bool>,
    /// The text fed since the filter was created or last finished.
    consumed: Ghost<Seq<char>>,
}

impl ThinkFilter {
    #[verifier::type_invariant]
    spec fn well_formed(self) -> bool {
        let r = scan(self.start_in_think@, self.consumed@);
        let shown = filter_emitted(self.start_in_think@, self.start_started@, self.consumed@);
        &&& self.in_think == r.1
        &&& self.pending@ == r.2
        &&& self.started == filter_started(
            self.start_in_think@,
            self.start_started@,
            self.consumed@,
        )
        &&& (if self.start_started@ {
            r.0
        } else {
            trim_start(r.0)
        }) == shown + self.trailing_ws@
        &&& all_ws(self.trailing_ws@)
    }

    /// The text fed since the filter was created or last finished.
    pub closed spec fn consumed(&self) -> Seq<char> {
        self.consumed@
    }

    /// The mode the filter was in when it started reading [`Self::consumed`]
    /// (inside a think section or not).
    pub closed spec fn starts_in_think(&self) -> bool {
        self.start_in_think@
    }

    /// Whether text had been shown before the filter started reading
    /// [`Self::consumed`].
    pub closed spec fn starts_started(&self) -> bool {
        self.start_started@
    }

    /// Everything shown so far for [`Self::consumed`].
    pub open spec fn emitted(&self) -> Seq<char> {
        filter_emitted(self.starts_in_think(), self.starts_started(), self.consumed())
    }

    /// Everything to be shown for [`Self::consumed`] if the stream ended now.
    pub open spec fn output(&self) -> Seq<char> {
        filter_output(self.starts_in_think(), self.starts_started(), self.consumed())
    }

    /// Whether [`Self::consumed`] ends inside a think section.
    pub open spec fn ends_in_think(&self) -> bool {
        scan(self.starts_in_think(), self.consumed()).1
    }

    /// Whether any text has been shown.
    pub open spec fn has_started(&self) -> bool {
        filter_started(self.starts_in_think(), self.starts_started(), self.consumed())
    }

    /// Feeds one chunk and returns the text to show now (possibly empty).
    ///
    /// What is returned is exactly what the whole text read so far adds to
    /// what was shown before: however the reply is cut into chunks, the
    /// chunks' results put together are the result for the whole reply.
    pub fn feed(&mut self, chunk: &str) -> (out: String)
        ensures
            final(self).consumed() == old(self).consumed() + chunk@,
            final(self).starts_in_think() == old(self).starts_in_think(),
            final(self).starts_started() == old(self).starts_started(),
            old(self).emitted() + out@ == final(self).emitted(),
    {
        proof {
            use_type_invariant(&*self);
        }
        let ghost b0 = self.start_in_think@;
        let ghost s0 = self.start_started@;
        let ghost text = self.consumed@;
        let ghost c = chunk@;
        let mut buf = copy_chars(self.pending.as_slice(), 0, self.pending.len());
        let chars = to_chars(chunk);
        extend_chars(&mut buf, chars.as_slice(), 0, chars.len());
        proof {
            assert(self.pending@.subrange(0, self.pending@.len() as int) =~= self.pending@);
            assert(chars@.subrange(0, chars@.len() as int) =~= c);
        }
        let (raw, mode, rest) = read_sections(self.in_think, buf);
        proof {
            lemma_all_ws_trim(scan(b0, text).0);
        }
        let (started, held, out) = trim_edges(self.started, &self.trailing_ws, &raw);
        proof {
            let v = scan(b0, text).0;
            lemma_scan_split(b0, text, c);
            lemma_emit_step(s0, v, raw@, self.trailing_ws@);
            lemma_all_ws_trim(v);
            let p = if s0 || !all_ws(v) {
                self.trailing_ws@ + raw@
            } else {
                trim_start(raw@)
            };
            lemma_trim_end_shape(p);
            assert(all_ws(held@)) by {
                assert forall|i: int| 0 <= i < held@.len() implies is_ws(
                    #[trigger] held@[i],
                ) by {
                    assert(held@[i] == p.skip(trim_end(p).len() as int)[i]);
                }
            }
        }
        *self =
        ThinkFilter {
            in_think: mode,
            pending: rest,
            started,
            trailing_ws: held,
            start_in_think: Ghost(b0),
            start_started: Ghost(s0),
            consumed: Ghost(text + c),
        };
        out
    }

    /// Ends the stream and returns what is left to show: the held-back
    /// tail that did not turn into a tag, preceded by the whitespace held
    /// back before it (nothing if the reply ended inside a think section).
    /// Trailing whitespace with no tail after it is dropped. The filter is
    /// then ready for a new stretch of text, in the mode it ended in.
    pub fn finish(&mut self) -> (out: String)
        ensures
            old(self).emitted() + out@ == old(self).output(),
            final(self).consumed() == Seq::<char>::empty(),
            final(self).starts_in_think() == old(self).ends_in_think(),
            final(self).starts_started() == (old(self).has_started() || out@.len() > 0),
    {
        proof {
            use_type_invariant(&*self);
            lemma_scan_empty(self.in_think);
            lemma_scan_tail(self.start_in_think@, self.consumed@);
            lemma_all_ws_trim(scan(self.start_in_think@, self.consumed@).0);
            assert(trim_start(Seq::<char>::empty()) =~= Seq::<char>::empty());
            assert(trim_end(Seq::<char>::empty()) =~= Seq::<char>::empty());
        }
        let ghost e = filter_emitted(self.start_in_think@, self.start_started@, self.consumed@);
        let n = self.pending.len();
        let m = self.trailing_ws.len();
        let out = if self.in_think || n == 0 {
            String::new()
        } else {
            let mut held = copy_chars(self.trailing_ws.as_slice(), 0, m);
            extend_chars(&mut held, self.pending.as_slice(), 0, n);
            from_chars(held.as_slice(), 0, held.len())
        };
        proof {
            assert(self.pending@.subrange(0, n as int) =~= self.pending@);
            assert(self.trailing_ws@.subrange(0, m as int) =~= self.trailing_ws@);
            if self.in_think || n == 0 {
                assert(e + Seq::<char>::empty() =~= e);
            } else {
                assert(e + out@ =~= (e + self.trailing_ws@) + self.pending@);
            }
        }
        let started = self.started || n > 0 && !self.in_think;
        *self =
        ThinkFilter {
            in_think: self.in_think,
            pending: Vec::new(),
            started,
            trailing_ws: Vec::new(),
            start_in_think: Ghost(self.in_think),
            start_started: Ghost(started),
            consumed: Ghost(Seq::<char>::empty()),
        };
        out
    }
}

impl Default for ThinkFilter {
    /// A filter for a new reply: outside any think section, nothing shown.
    fn default() -> (f: Self)
        ensures
            f.consumed() == Seq::<char>::empty(),
            !f.starts_in_think(),
            !f.starts_started(),
    {
        proof {
            lemma_scan_empty(false);
            assert(trim_start(Seq::<char>::empty()) =~= Seq::<char>::empty());
            assert(trim_end(Seq::<char>::empty()) =~= Seq::<char>::empty());
        }
        ThinkFilter {
            in_think: false,
            pending: Vec::new(),
            started: false,
            trailing_ws: Vec::new(),
            start_in_think: Ghost(false),
            start_started: Ghost(false),
            consumed: Ghost(Seq::<char>::empty()),
        }
    }
}

/// After text holding no tag of the pair, a tag of the pair is the first
/// tag found.
pub proof fn lemma_first_tag_after_untagged(
    b: bool,
    a: Seq<char>,
    t: Seq<char>,
    rest: Seq<char>,
)
    requires
        first_tag(a, tag_pair(b)) is None,
        t == tag_pair(b).0 || t == tag_pair(b).1,
    ensures
        first_tag(a + t + rest, tag_pair(b)) == Some((a.len() as int, t)),
{
    let tags = tag_pair(b);
    let s = a + t + rest;
    let y = t + rest;
    lemma_tags_shape(b);
    lemma_first_tag_from(a, tags, 0);
    assert(s =~= a + y);
    assert(s[a.len() as int] == t[0]);
    assert forall|m: int| 0 <= m < a.len() implies tag_at(s, m, tags) is None by {
        lemma_tag_blocked(b, s, m, a.len() as int);
        if tag_at(s, m, tags) is Some {
            if tags.0.is_prefix_of(s.skip(m)) {
                lemma_prefix_within(tags.0, a, y, m);
            } else {
                lemma_prefix_within(tags.1, a, y, m);
            }
            assert(tag_at(a, m, tags) is Some);
        }
    }
    assert(s.skip(a.len() as int).subrange(0, t.len() as int) =~= t);
    assert(t.is_prefix_of(s.skip(a.len() as int)));
    if t == tags.1 && tags.0.is_prefix_of(s.skip(a.len() as int)) {
        if tags.0.len() <= tags.1.len() {
            lemma_prefixes_nest(tags.0, tags.1, s.skip(a.len() as int));
        } else {
            lemma_prefixes_nest(tags.1, tags.0, s.skip(a.len() as int));
        }
    }
    assert(tag_at(s, a.len() as int, tags) == Some(t));
    lemma_first_tag_skip(s, tags, 0, a.len() as int);
}

/// No character of an opening tag is whitespace.
proof fn lemma_open_tags_have_no_ws()
    ensures
        forall|k: int| 0 <= k < think_open().len() ==> !is_ws(#[trigger] think_open()[k]),
        forall|k: int| 0 <= k < thinking_open().len() ==> !is_ws(#[trigger] thinking_open()[k]),
{
    assert forall|k: int| 0 <= k < think_open().len() implies !is_ws(
        #[trigger] think_open()[k],
    ) by {
        assert(k == 0 || k == 1 || k == 2 || k == 3 || k == 4 || k == 5 || k == 6);
    }
    assert forall|k: int| 0 <= k < thinking_open().len() implies !is_ws(
        #[trigger] thinking_open()[k],
    ) by {
        assert(k == 0 || k == 1 || k == 2 || k == 3 || k == 4 || k == 5 || k == 6 || k == 7
            || k == 8 || k == 9);
    }
}

/// Outside think sections, the undecided tail of a text in which no
/// opening tag occurs neither starts nor ends with whitespace.
proof fn lemma_open_tail_shape(text: Seq<char>)
    requires
        first_tag(text, tag_pair(false)) is None,
    ensures
        ({
            let cut = text.len() - held_len(text, tag_pair(false));
            let p = text.skip(cut);
            &&& 0 <= cut <= text.len()
            &&& scan(false, text) == (text.take(cut), false, p)
            &&& p.len() > 0 ==> !is_ws(p[0]) && !is_ws(p.last())
        }),
{
    let tags = tag_pair(false);
    lemma_tags_shape(false);
    lemma_scan_untagged(false, text);
    lemma_held_len_from(text, tags, text.len());
    let p = text.skip(text.len() - held_len(text, tags));
    if p.len() > 0 {
        let t = if p.is_prefix_of(tags.0) {
            tags.0
        } else {
            tags.1
        };
        lemma_open_tags_have_no_ws();
        assert(p[0] == t[0]);
        assert(p.last() == t[p.len() - 1]);
    }
}

/// Appending an undecided tail `p` that neither starts nor ends with
/// whitespace: trimming `w + p` trims the front of `w` and keeps `p`.
proof fn lemma_trim_before_tail(w: Seq<char>, p: Seq<char>)
    requires
        p.len() > 0,
        !is_ws(p[0]),
        !is_ws(p.last()),
    ensures
        trim_start(w) + p == trim(w + p),
{
    let e = Seq::<char>::empty();
    if all_ws(w) {
        lemma_trim_start_unique(w, p);
        lemma_all_ws_trim(w);
        assert(trim_start(w) + p =~= p);
    } else {
        lemma_trim_start_text_prefix(w, p);
    }
    let u = trim_start(w) + p;
    assert(u.last() == p.last());
    assert(u + e =~= u);
    lemma_trim_end_unique(u, e);
}

/// The output of a text that reads as `v`, outside think sections, with
/// the undecided tail `p`: the trimmed reading when there is no tail, and
/// otherwise the reading without its leading whitespace followed by the
/// tail.
proof fn lemma_output_untagged_end(text: Seq<char>, v: Seq<char>, p: Seq<char>)
    requires
        scan(false, text) == (v, false, p),
        p.len() > 0 ==> !is_ws(p[0]) && !is_ws(p.last()),
    ensures
        strip_think(text) == trim(v + p),
{
    if p.len() == 0 {
        assert(v + p =~= v);
    } else {
        lemma_trim_before_tail(v, p);
    }
}

/// Text in which no opening tag occurs comes out trimmed and otherwise
/// unchanged.
pub proof fn law_plain_text_is_kept(text: Seq<char>)
    requires
        first_tag(text, tag_pair(false)) is None,
    ensures
        strip_think(text) == trim(text),
{
    lemma_open_tail_shape(text);
    let cut = text.len() - held_len(text, tag_pair(false));
    let v = text.take(cut);
    let p = text.skip(cut);
    assert(text =~= v + p);
    lemma_output_untagged_end(text, v, p);
}

/// Reading a first think section: the visible text is what precedes it
/// followed by what the text after it reads as.
proof fn lemma_scan_section(
    before: Seq<char>,
    open: Seq<char>,
    inner: Seq<char>,
    close: Seq<char>,
    after: Seq<char>,
)
    requires
        first_tag(before, tag_pair(false)) is None,
        first_tag(inner, tag_pair(true)) is None,
        open == think_open() || open == thinking_open(),
        close == think_close() || close == thinking_close(),
    ensures
        ({
            let r = scan(false, after);
            scan(false, before + open + inner + close + after) == (before + r.0, r.1, r.2)
        }),
{
    let s = before + open + inner + close + after;
    let x2 = inner + close + after;
    assert(s =~= before + open + x2);
    lemma_first_tag_after_untagged(false, before, open, x2);
    lemma_scan_tagged(false, s);
    assert(s.skip((before.len() + open.len()) as int) =~= x2);
    assert(s.take(before.len() as int) =~= before);
    lemma_first_tag_after_untagged(true, inner, close, after);
    lemma_scan_tagged(true, x2);
    assert(x2.skip((inner.len() + close.len()) as int) =~= after);
}

/// A think section (opened by `<think>` or `<thinking>` and closed by
/// `</think>` or `</thinking>`) is removed with its tags: what is shown is
/// the text around it, trimmed. Stated for a first section (no opening tag
/// before it) with no further one after it.
pub proof fn law_think_section_is_removed(
    before: Seq<char>,
    open: Seq<char>,
    inner: Seq<char>,
    close: Seq<char>,
    after: Seq<char>,
)
    requires
        first_tag(before, tag_pair(false)) is None,
        first_tag(inner, tag_pair(true)) is None,
        first_tag(after, tag_pair(false)) is None,
        open == think_open() || open == thinking_open(),
        close == think_close() || close == thinking_close(),
    ensures
        strip_think(before + open + inner + close + after) == trim(before + after),
{
    lemma_scan_section(before, open, inner, close, after);
    lemma_open_tail_shape(after);
    let s = before + open + inner + close + after;
    let cut = after.len() - held_len(after, tag_pair(false));
    let v = after.take(cut);
    let p = after.skip(cut);
    assert(after =~= v + p);
    assert(before + after =~= (before + v) + p);
    lemma_output_untagged_end(s, before + v, p);
}

/// A think section that is never closed hides everything after its
/// opening tag, even once the stream ends. Stated for a first section (no
/// opening tag before it).
pub proof fn law_unclosed_think_section_is_hidden(
    before: Seq<char>,
    open: Seq<char>,
    inner: Seq<char>,
)
    requires
        first_tag(before, tag_pair(false)) is None,
        first_tag(inner, tag_pair(true)) is None,
        open == think_open() || open == thinking_open(),
    ensures
        strip_think(before + open + inner) == trim(before),
{
    let s = before + open + inner;
    lemma_first_tag_after_untagged(false, before, open, inner);
    lemma_scan_tagged(false, s);
    assert(s.skip((before.len() + open.len()) as int) =~= inner);
    assert(s.take(before.len() as int) =~= before);
    lemma_scan_untagged(true, inner);
    assert(before + Seq::<char>::empty() =~= before);
    assert(trim(before) + Seq::<char>::empty() =~= trim(before));
}

/// What has been shown is never taken back: the text shown after reading
/// `a` is a prefix of what is shown after reading any continuation
/// `a + c`, and of the final output for `a`.
pub proof fn law_shown_text_is_never_taken_back(
    in_think0: bool,
    started0: bool,
    a: Seq<char>,
    c: Seq<char>,
)
    ensures
        filter_emitted(in_think0, started0, a).is_prefix_of(
            filter_emitted(in_think0, started0, a + c),
        ),
        filter_emitted(in_think0, started0, a).is_prefix_of(filter_output(in_think0, started0, a)),
{
    let r = scan(in_think0, a);
    let v = r.0;
    let u = if started0 {
        v
    } else {
        trim_start(v)
    };
    let e = filter_emitted(in_think0, started0, a);
    lemma_trim_end_shape(u);
    let tr = u.skip(e.len() as int);
    assert(u =~= e + tr);
    assert(crate::text::all_ws(tr));
    let w = scan(r.1, r.2 + c).0;
    lemma_scan_split(in_think0, a, c);
    lemma_emit_step(started0, v, w, tr);
    let e2 = filter_emitted(in_think0, started0, a + c);
    let p = if started0 || !all_ws(v) {
        tr + w
    } else {
        trim_start(w)
    };
    assert(e2 == e + trim_end(p));
    assert(e2.subrange(0, e.len() as int) =~= e);
    let o = filter_output(in_think0, started0, a);
    if !(r.1 || r.2.len() == 0) {
        assert(o =~= e + (tr + r.2));
    }
    assert(o.subrange(0, e.len() as int) =~= e);
}

/// What a fresh filter hands out for the chunks of a reply, in order: the
/// return of each [`ThinkFilter::feed`] (by its contract, what the text
/// read so far adds to what was shown before).
pub open spec fn pieces_shown(chunks: Seq<Seq<char>>) -> Seq<char>
    decreases chunks.len(),
{
    if chunks.len() == 0 {
        Seq::empty()
    } else {
        let before = filter_emitted(false, false, chunks.drop_last().flatten());
        let after = filter_emitted(false, false, chunks.flatten());
        pieces_shown(chunks.drop_last()) + after.skip(before.len() as int)
    }
}

/// However a reply is cut into chunks, the pieces handed out by `feed`
/// make up what the whole reply shows, and with what `finish` hands out
/// they make up [`strip_think`] of the whole reply.
pub proof fn law_chunking_does_not_change_the_result(chunks: Seq<Seq<char>>)
    ensures
        pieces_shown(chunks) == filter_emitted(false, false, chunks.flatten()),
        pieces_shown(chunks) + strip_think(chunks.flatten()).skip(
            filter_emitted(false, false, chunks.flatten()).len() as int,
        ) == strip_think(chunks.flatten()),
    decreases chunks.len(),
{
    let flat = chunks.flatten();
    if chunks.len() == 0 {
        lemma_scan_empty(false);
        assert(flat =~= Seq::<char>::empty());
        assert(trim(Seq::<char>::empty()) =~= Seq::<char>::empty()) by {
            assert(trim_start(Seq::<char>::empty()) =~= Seq::<char>::empty());
        }
    } else {
        let init = chunks.drop_last();
        law_chunking_does_not_change_the_result(init);
        chunks.lemma_flatten_and_flatten_alt_are_equivalent();
        init.lemma_flatten_and_flatten_alt_are_equivalent();
        assert(flat =~= init.flatten() + chunks.last());
        law_shown_text_is_never_taken_back(false, false, init.flatten(), chunks.last());
        let before = filter_emitted(false, false, init.flatten());
        let after = filter_emitted(false, false, flat);
        assert(before + after.skip(before.len() as int) =~= after);
    }
    law_shown_text_is_never_taken_back(false, false, flat, Seq::<char>::empty());
    let e = filter_emitted(false, false, flat);
    let o = strip_think(flat);
    assert(e + o.skip(e.len() as int) =~= o);
}

/// Runs a fresh filter over a whole reply, given as the chunks it arrived
/// in, and finishes it: the result is the reply as shown, whatever the
/// chunking.
pub fn strip_chunks(chunks: &Vec<String>) -> (shown: String)
    ensures
        shown@ == strip_think(chunks@.map_values(|c: String| c@).flatten()),
{
    let ghost all = chunks@.map_values(|c: String| c@);
    let mut f = ThinkFilter::default();
    let mut shown = String::new();
    let mut i: usize = 0;
    proof {
        assert(all.take(0).flatten() =~= Seq::<char>::empty());
        lemma_scan_empty(false);
        assert(trim_start(Seq::<char>::empty()) =~= Seq::<char>::empty());
        assert(trim_end(Seq::<char>::empty()) =~= Seq::<char>::empty());
        assert(shown@ =~= f.emitted());
    }
    while i < chunks.len()
        invariant
            i <= chunks@.len(),
            all == chunks@.map_values(|c: String| c@),
            f.consumed() == all.take(i as int).flatten(),
            !f.starts_in_think(),
            !f.starts_started(),
            shown@ == f.emitted(),
        decreases chunks@.len() - i,
    {
        let piece = f.feed(chunks[i].as_str());
        proof {
            let c = chunks@[i as int]@;
            assert(all.take(i + 1) =~= all.take(i as int).push(c));
            all.take(i + 1).lemma_flatten_and_flatten_alt_are_equivalent();
            all.take(i as int).lemma_flatten_and_flatten_alt_are_equivalent();
            assert(all.take(i + 1).drop_last() =~= all.take(i as int));
        }
        shown.append(piece.as_str());
        i = i + 1;
    }
    proof {
        assert(all.take(chunks@.len() as int) =~= all);
    }
    let rest = f.finish();
    shown.append(rest.as_str());
    shown
}

} // verus!
