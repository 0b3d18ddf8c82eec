//! Character-level string helpers shared by the rest of the library:
//! Unicode whitespace, trimming, and conversions between `str`/`String`
//! and character vectors.

use vstd::prelude::*;

verus! {

/// The Unicode `White_Space` property, which is what `char::is_whitespace`
/// (and so `str::trim`) tests.
pub open spec fn is_ws(c: char) -> bool {
    ||| ('\u{9}' <= c && c <= '\u{d}')
    ||| c == ' '
    ||| c == '\u{85}'
    ||| c == '\u{a0}'
    ||| c == '\u{1680}'
    ||| ('\u{2000}' <= c && c <= '\u{200a}')
    ||| c == '\u{2028}'
    ||| c == '\u{2029}'
    ||| c == '\u{202f}'
    ||| c == '\u{205f}'
    ||| c == '\u{3000}'
}

/// Every character of `s` is whitespace (true of the empty sequence).
pub open spec fn all_ws(s: Seq<char>) -> bool {
    forall|i: int| 0 <= i < s.len() ==> is_ws(#[trigger] s[i])
}

/// `s` without its leading whitespace.
pub open spec fn trim_start(s: Seq<char>) -> Seq<char>
    decreases s.len(),
{
    if s.len() > 0 && is_ws(s[0]) {
        trim_start(s.drop_first())
    } else {
        s
    }
}

/// `s` without its trailing whitespace.
pub open spec fn trim_end(s: Seq<char>) -> Seq<char>
    decreases s.len(),
{
    if s.len() > 0 && is_ws(s.last()) {
        trim_end(s.drop_last())
    } else {
        s
    }
}

/// `s` without leading and trailing whitespace.
pub open spec fn trim(s: Seq<char>) -> Seq<char> {
    trim_end(trim_start(s))
}

/// Whether `c` is whitespace.
pub fn is_whitespace(c: char) -> (b: bool)
    ensures
        b == is_ws(c),
{
    ('\u{9}' <= c && c <= '\u{d}') || c == ' ' || c == '\u{85}' || c == '\u{a0}' || c == '\u{1680}'
        || ('\u{2000}' <= c && c <= '\u{200a}') || c == '\u{2028}' || c == '\u{2029}' || c
        == '\u{202f}' || c == '\u{205f}' || c == '\u{3000}'
}

/// `trim_start(s)` is a suffix of `s` that follows only whitespace and does
/// not itself start with whitespace.
pub proof fn lemma_trim_start_shape(s: Seq<char>)
    ensures
        trim_start(s).len() <= s.len(),
        trim_start(s) =~= s.skip(s.len() - trim_start(s).len()),
        all_ws(s.take(s.len() - trim_start(s).len())),
        trim_start(s).len() > 0 ==> !is_ws(trim_start(s)[0]),
    decreases s.len(),
{
    if s.len() > 0 && is_ws(s[0]) {
        let r = s.drop_first();
        lemma_trim_start_shape(r);
        let n = s.len() - trim_start(s).len();
        assert forall|i: int| 0 <= i < n implies is_ws(#[trigger] s.take(n)[i]) by {
            if i > 0 {
                assert(s.take(n)[i] == r.take(n - 1)[i - 1]);
            }
        }
    }
}

/// `trim_end(s)` is a prefix of `s` followed only by whitespace and not
/// itself ending in whitespace.
pub proof fn lemma_trim_end_shape(s: Seq<char>)
    ensures
        trim_end(s).len() <= s.len(),
        trim_end(s) =~= s.take(trim_end(s).len() as int),
        all_ws(s.skip(trim_end(s).len() as int)),
        trim_end(s).len() > 0 ==> !is_ws(trim_end(s).last()),
    decreases s.len(),
{
    if s.len() > 0 && is_ws(s.last()) {
        let r = s.drop_last();
        lemma_trim_end_shape(r);
        let n = trim_end(s).len() as int;
        assert forall|i: int| 0 <= i < s.len() - n implies is_ws(#[trigger] s.skip(n)[i]) by {
            if n + i < s.len() - 1 {
                assert(s.skip(n)[i] == r.skip(n)[i]);
            }
        }
    }
}

/// Whitespace followed by text that does not start with whitespace trims
/// to that text.
pub proof fn lemma_trim_start_unique(a: Seq<char>, b: Seq<char>)
    requires
        all_ws(a),
        b.len() == 0 || !is_ws(b[0]),
    ensures
        trim_start(a + b) == b,
    decreases a.len(),
{
    if a.len() == 0 {
        assert(a + b =~= b);
    } else {
        assert((a + b)[0] == a[0]);
        assert((a + b).drop_first() =~= a.drop_first() + b);
        assert(all_ws(a.drop_first())) by {
            assert forall|i: int| 0 <= i < a.drop_first().len() implies is_ws(
                #[trigger] a.drop_first()[i],
            ) by {
                assert(a.drop_first()[i] == a[i + 1]);
            }
        }
        lemma_trim_start_unique(a.drop_first(), b);
    }
}

/// Text that does not end in whitespace, followed by whitespace, trims to
/// that text.
pub proof fn lemma_trim_end_unique(a: Seq<char>, b: Seq<char>)
    requires
        all_ws(b),
        a.len() == 0 || !is_ws(a.last()),
    ensures
        trim_end(a + b) == a,
    decreases b.len(),
{
    if b.len() == 0 {
        assert(a + b =~= a);
    } else {
        assert((a + b).last() == b.last());
        assert((a + b).drop_last() =~= a + b.drop_last());
        assert(all_ws(b.drop_last())) by {
            assert forall|i: int| 0 <= i < b.drop_last().len() implies is_ws(
                #[trigger] b.drop_last()[i],
            ) by {
                assert(b.drop_last()[i] == b[i]);
            }
        }
        lemma_trim_end_unique(a, b.drop_last());
    }
}

/// A sequence is all whitespace exactly when trimming empties it.
pub proof fn lemma_all_ws_trim(s: Seq<char>)
    ensures
        all_ws(s) <==> trim_start(s).len() == 0,
        all_ws(s) <==> trim_end(s).len() == 0,
        all_ws(s) <==> trim(s).len() == 0,
{
    lemma_trim_start_shape(s);
    lemma_trim_end_shape(s);
    lemma_trim_end_shape(trim_start(s));
    if trim_start(s).len() == 0 {
        assert(s.take(s.len() as int) =~= s);
    }
    if trim_end(s).len() == 0 {
        assert(s.skip(0) =~= s);
    }
    if all_ws(s) {
        if trim_start(s).len() > 0 {
            assert(trim_start(s)[0] == s[s.len() - trim_start(s).len()]);
        }
        if trim_end(s).len() > 0 {
            assert(trim_end(s).last() == s[trim_end(s).len() - 1]);
        }
    }
    let t = trim_start(s);
    if t.len() > 0 && trim_end(t).len() == 0 {
        assert(t.skip(0) =~= t);
        assert(is_ws(t.skip(0)[0]));
    }
}

/// Text that trimming leaves unchanged neither starts nor ends with
/// whitespace.
pub proof fn lemma_trimmed_ends(p: Seq<char>)
    requires
        trim(p) == p,
        p.len() > 0,
    ensures
        !is_ws(p[0]),
        !is_ws(p.last()),
{
    lemma_trim_start_shape(p);
    lemma_trim_end_shape(trim_start(p));
    assert(trim_start(p) =~= p);
}

/// Trimming the front of `x + y` when `x` is all whitespace.
pub proof fn lemma_trim_start_ws_prefix(x: Seq<char>, y: Seq<char>)
    requires
        all_ws(x),
    ensures
        trim_start(x + y) == trim_start(y),
{
    lemma_trim_start_shape(y);
    let w = y.take(y.len() - trim_start(y).len());
    assert(y =~= w + trim_start(y));
    assert(x + y =~= (x + w) + trim_start(y));
    assert(all_ws(x + w)) by {
        assert forall|i: int| 0 <= i < (x + w).len() implies is_ws(#[trigger] (x + w)[i]) by {
            if i >= x.len() {
                assert((x + w)[i] == w[i - x.len()]);
            }
        }
    }
    lemma_trim_start_unique(x + w, trim_start(y));
}

/// Trimming the front of `x + y` when `x` holds a non-whitespace character.
pub proof fn lemma_trim_start_text_prefix(x: Seq<char>, y: Seq<char>)
    requires
        !all_ws(x),
    ensures
        trim_start(x + y) == trim_start(x) + y,
{
    lemma_trim_start_shape(x);
    lemma_all_ws_trim(x);
    let w = x.take(x.len() - trim_start(x).len());
    assert(x =~= w + trim_start(x));
    assert(x + y =~= w + (trim_start(x) + y));
    lemma_trim_start_unique(w, trim_start(x) + y);
}

/// Trimming the back of `x + y` when `y` holds a non-whitespace character.
pub proof fn lemma_trim_end_text_suffix(x: Seq<char>, y: Seq<char>)
    requires
        !all_ws(y),
    ensures
        trim_end(x + y) == x + trim_end(y),
{
    lemma_trim_end_shape(y);
    lemma_all_ws_trim(y);
    let w = y.skip(trim_end(y).len() as int);
    assert(y =~= trim_end(y) + w);
    assert(x + y =~= (x + trim_end(y)) + w);
    lemma_trim_end_unique(x + trim_end(y), w);
}

/// Trimming the back of `x + y` when `y` is all whitespace.
pub proof fn lemma_trim_end_ws_suffix(x: Seq<char>, y: Seq<char>)
    requires
        all_ws(y),
    ensures
        trim_end(x + y) == trim_end(x),
{
    lemma_trim_end_shape(x);
    let w = x.skip(trim_end(x).len() as int);
    assert(x =~= trim_end(x) + w);
    assert(x + y =~= trim_end(x) + (w + y));
    assert(all_ws(w + y)) by {
        assert forall|i: int| 0 <= i < (w + y).len() implies is_ws(#[trigger] (w + y)[i]) by {
            if i >= w.len() {
                assert((w + y)[i] == y[i - w.len()]);
            }
        }
    }
    lemma_trim_end_unique(trim_end(x), w + y);
}

/// Appends one character to a `String` (`String::push`).
/// Trusted: std documents that `push` appends the given `char` to the end.
#[verifier::external_body]
pub(crate) fn push_char(s: &mut String, c: char)
    ensures
        final(s)@ == old(s)@.push(c),
{
    s.push(c);
}

/// The characters of `s`, in order.
pub fn to_chars(s: &str) -> (v: Vec<char>)
    ensures
        v@ == s@,
{
    broadcast use vstd::string::group_string_axioms;

    let mut v: Vec<char> = Vec::new();
    for c in it: s.chars()
        invariant
            v@ == it.history(),
    {
        v.push(c);
    }
    v
}

/// Builds a `String` from the characters `v[from..to]`.
pub fn from_chars(v: &[char], from: usize, to: usize) -> (s: String)
    requires
        from <= to <= v@.len(),
    ensures
        s@ == v@.subrange(from as int, to as int),
{
    let mut s = String::new();
    let mut i = from;
    while i < to
        invariant
            from <= i <= to <= v@.len(),
            s@ == v@.subrange(from as int, i as int),
        decreases to - i,
    {
        push_char(&mut s, v[i]);
        i = i + 1;
    }
    s
}

/// A copy of `v[from..to]`.
pub fn copy_chars(v: &[char], from: usize, to: usize) -> (r: Vec<char>)
    requires
        from <= to <= v@.len(),
    ensures
        r@ == v@.subrange(from as int, to as int),
{
    let mut r: Vec<char> = Vec::new();
    extend_chars(&mut r, v, from, to);
    assert(r@ =~= v@.subrange(from as int, to as int));
    r
}

/// Appends `src[from..to]` to `dst`.
pub fn extend_chars(dst: &mut Vec<char>, src: &[char], from: usize, to: usize)
    requires
        from <= to <= src@.len(),
    ensures
        final(dst)@ == old(dst)@ + src@.subrange(from as int, to as int),
{
    let mut i = from;
    while i < to
        invariant
            from <= i <= to <= src@.len(),
            dst@ == old(dst)@ + src@.subrange(from as int, i as int),
        decreases to - i,
    {
        dst.push(src[i]);
        i = i + 1;
        assert(dst@ =~= old(dst)@ + src@.subrange(from as int, i as int));
    }
}

/// `trim_end` leaves a trimmed sequence as it is.
pub proof fn lemma_trim_end_idempotent(s: Seq<char>)
    ensures
        trim_end(trim_end(s)) == trim_end(s),
{
    lemma_trim_end_shape(s);
    let t = trim_end(s);
    lemma_trim_end_unique(t, Seq::<char>::empty());
    assert(t + Seq::<char>::empty() =~= t);
}

/// `x + y` is all whitespace exactly when both parts are.
pub proof fn lemma_all_ws_concat(x: Seq<char>, y: Seq<char>)
    ensures
        all_ws(x + y) <==> all_ws(x) && all_ws(y),
{
    if all_ws(x + y) {
        assert forall|i: int| 0 <= i < x.len() implies is_ws(#[trigger] x[i]) by {
            assert(x[i] == (x + y)[i]);
        }
        assert forall|i: int| 0 <= i < y.len() implies is_ws(#[trigger] y[i]) by {
            assert(y[i] == (x + y)[x.len() + i]);
        }
    }
    if all_ws(x) && all_ws(y) {
        assert forall|i: int| 0 <= i < (x + y).len() implies is_ws(#[trigger] (x + y)[i]) by {
            if i >= x.len() {
                assert((x + y)[i] == y[i - x.len()]);
            }
        }
    }
}

/// `pat` occurs somewhere in `s`.
pub open spec fn occurs_in(pat: Seq<char>, s: Seq<char>) -> bool {
    exists|i: int| 0 <= i && i + pat.len() <= s.len() && #[trigger] s.subrange(i, i + pat.len()) == pat
}

/// Whether `pat` occurs in `hay`.
pub fn contains_chars(hay: &[char], pat: &[char]) -> (b: bool)
    ensures
        b == occurs_in(pat@, hay@),
{
    if pat.len() > hay.len() {
        return false;
    }
    let last = hay.len() - pat.len();
    let mut i: usize = 0;
    loop
        invariant
            i <= last,
            last + pat@.len() == hay@.len(),
            hay@.len() <= usize::MAX,
            forall|j: int| 0 <= j < i ==> #[trigger] hay@.subrange(j, j + pat@.len()) != pat@,
        decreases last - i,
    {
        if matches_at(hay, i, pat) {
            return true;
        }
        if i == last {
            return false;
        }
        i = i + 1;
    }
}

/// Whether `pat` occurs in `hay` at position `i`.
pub fn matches_at(hay: &[char], i: usize, pat: &[char]) -> (b: bool)
    requires
        i + pat@.len() <= hay@.len(),
    ensures
        b == (hay@.subrange(i as int, i + pat@.len()) == pat@),
{
    let n = hay.len();
    let mut k: usize = 0;
    while k < pat.len()
        invariant
            i + pat@.len() <= hay@.len() <= usize::MAX,
            k <= pat@.len(),
            forall|q: int| 0 <= q < k ==> pat@[q] == hay@[i + q],
        decreases pat@.len() - k,
    {
        let pos = i + k;
        if pat[k] != hay[pos] {
            assert(hay@.subrange(i as int, i + pat@.len())[k as int] != pat@[k as int]);
            return false;
        }
        k = k + 1;
    }
    assert(hay@.subrange(i as int, i + pat@.len()) =~= pat@);
    true
}

/// Whether `hay` ends with `pat`.
pub fn ends_with_chars(hay: &[char], pat: &[char]) -> (b: bool)
    ensures
        b == pat@.is_suffix_of(hay@),
{
    if pat.len() > hay.len() {
        return false;
    }
    let start = hay.len() - pat.len();
    let b = matches_at(hay, start, pat);
    assert(hay@.subrange(start as int, hay@.len() as int) =~= hay@.subrange(
        hay@.len() - pat@.len(),
        hay@.len() as int,
    ));
    b
}

/// The length of the longest prefix of `t` holding no character for
/// which `stop` holds.
pub open spec fn span(t: Seq<char>, stop: spec_fn(char) -> bool) -> nat
    decreases t.len(),
{
    if t.len() == 0 || stop(t[0]) {
        0
    } else {
        1 + span(t.drop_first(), stop)
    }
}

/// Stops at a line feed.
pub open spec fn newline_stop() -> spec_fn(char) -> bool {
    |c: char| c == '\n'
}

/// Stops at whitespace.
pub open spec fn ws_stop() -> spec_fn(char) -> bool {
    |c: char| is_ws(c)
}

/// What [`span`] measures.
pub proof fn lemma_span(t: Seq<char>, stop: spec_fn(char) -> bool)
    ensures
        span(t, stop) <= t.len(),
        forall|j: int| 0 <= j < span(t, stop) ==> !stop(#[trigger] t[j]),
        span(t, stop) < t.len() ==> stop(t[span(t, stop) as int]),
    decreases t.len(),
{
    if t.len() > 0 && !stop(t[0]) {
        lemma_span(t.drop_first(), stop);
        assert forall|j: int| 0 <= j < span(t, stop) implies !stop(#[trigger] t[j]) by {
            if j > 0 {
                assert(t[j] == t.drop_first()[j - 1]);
            }
        }
    }
}

/// [`span`] is the only length with those properties.
pub proof fn lemma_span_unique(t: Seq<char>, stop: spec_fn(char) -> bool, k: nat)
    requires
        k <= t.len(),
        forall|j: int| 0 <= j < k ==> !stop(#[trigger] t[j]),
        k == t.len() || stop(t[k as int]),
    ensures
        span(t, stop) == k,
{
    lemma_span(t, stop);
    let n = span(t, stop);
    if n < k {
        assert(!stop(t[n as int]));
    } else if n > k {
        assert(!stop(t[k as int]));
    }
}

/// A line without its carriage return, if it ends in one.
pub open spec fn strip_cr(line: Seq<char>) -> Seq<char> {
    if line.len() > 0 && line.last() == '\r' {
        line.drop_last()
    } else {
        line
    }
}

/// The lines of `s`, as `str::lines` gives them: split at `\n`, a `\r`
/// before the `\n` dropped, and no empty line after a final `\n`.
pub open spec fn lines_of(s: Seq<char>) -> Seq<Seq<char>>
    decreases s.len(),
{
    if s.len() == 0 {
        Seq::empty()
    } else {
        let n = span(s, newline_stop());
        if n >= s.len() {
            seq![s]
        } else {
            seq![strip_cr(s.take(n as int))] + lines_of(s.skip(n + 1 as int))
        }
    }
}

/// The words of `s`, as `str::split_whitespace` gives them: the maximal
/// runs of non-whitespace characters.
pub open spec fn words_of(s: Seq<char>) -> Seq<Seq<char>>
    decreases s.len(),
{
    let t = trim_start(s);
    if t.len() == 0 {
        Seq::empty()
    } else {
        proof {
            lemma_trim_start_shape(s);
            lemma_span(t, ws_stop());
        }
        let n = span(t, ws_stop());
        seq![t.take(n as int)] + words_of(t.skip(n as int))
    }
}

/// Index of the first `\n` in `v[from..to]` (or `to`).
pub fn next_newline(v: &[char], from: usize, to: usize) -> (k: usize)
    requires
        from <= to <= v@.len(),
    ensures
        from <= k <= to,
        k - from == span(v@.subrange(from as int, to as int), newline_stop()),
{
    let mut k = from;
    while k < to && v[k] != '\n'
        invariant
            from <= k <= to <= v@.len(),
            forall|j: int| from <= j < k ==> v@[j] != '\n',
        decreases to - k,
    {
        k = k + 1;
    }
    let ghost t = v@.subrange(from as int, to as int);
    assert forall|j: int| 0 <= j < k - from implies !newline_stop()(#[trigger] t[j]) by {
        assert(t[j] == v@[from + j]);
    }
    proof {
        lemma_span_unique(t, newline_stop(), (k - from) as nat);
    }
    k
}

/// Index of the first whitespace character in `v[from..to]` (or `to`).
pub fn next_ws(v: &[char], from: usize, to: usize) -> (k: usize)
    requires
        from <= to <= v@.len(),
    ensures
        from <= k <= to,
        k - from == span(v@.subrange(from as int, to as int), ws_stop()),
{
    let mut k = from;
    while k < to && !is_whitespace(v[k])
        invariant
            from <= k <= to <= v@.len(),
            forall|j: int| from <= j < k ==> !is_ws(v@[j]),
        decreases to - k,
    {
        k = k + 1;
    }
    let ghost t = v@.subrange(from as int, to as int);
    assert forall|j: int| 0 <= j < k - from implies !ws_stop()(#[trigger] t[j]) by {
        assert(t[j] == v@[from + j]);
    }
    proof {
        lemma_span_unique(t, ws_stop(), (k - from) as nat);
    }
    k
}

/// The words of `v[from..to]`.
pub fn split_words(v: &[char], from: usize, to: usize) -> (ws: Vec<Vec<char>>)
    requires
        from <= to <= v@.len(),
    ensures
        ws.deep_view() == words_of(v@.subrange(from as int, to as int)),
{
    let mut ws: Vec<Vec<char>> = Vec::new();
    let mut pos = from;
    while pos < to
        invariant
            from <= pos <= to <= v@.len(),
            ws.deep_view() + words_of(v@.subrange(pos as int, to as int)) == words_of(
                v@.subrange(from as int, to as int),
            ),
        decreases to - pos,
    {
        let ghost before = ws.deep_view();
        let ghost old_ws = ws@;
        let a = skip_ws_forward(v, pos, to);
        if a == to {
            assert(words_of(v@.subrange(pos as int, to as int)) =~= Seq::<Seq<char>>::empty());
            assert(ws.deep_view() + Seq::<Seq<char>>::empty() =~= ws.deep_view());
            pos = to;
        } else {
            let e = next_ws(v, a, to);
            let w = copy_chars(v, a, e);
            ws.push(w);
            proof {
                let t = v@.subrange(a as int, to as int);
                assert(t.take(e - a) =~= v@.subrange(a as int, e as int));
                assert(t.skip(e - a) =~= v@.subrange(e as int, to as int));
                assert(w.deep_view() =~= w@);
                assert(ws.deep_view() =~= before.push(w@)) by {
                    assert forall|i: int| 0 <= i < ws@.len() implies #[trigger] ws.deep_view()[i]
                        == before.push(w@)[i] by {
                        if i < ws@.len() - 1 {
                            assert(ws@[i] == old_ws[i]);
                        }
                    }
                }
                assert(before + words_of(v@.subrange(pos as int, to as int)) =~= ws.deep_view()
                    + words_of(v@.subrange(e as int, to as int)));
            }
            pos = e;
        }
    }
    assert(words_of(v@.subrange(to as int, to as int)) =~= Seq::<Seq<char>>::empty()) by {
        assert(v@.subrange(to as int, to as int) =~= Seq::<char>::empty());
    }
    assert(ws.deep_view() + Seq::<Seq<char>>::empty() =~= ws.deep_view());
    ws
}

/// `s` without the `/` characters at its end.
pub open spec fn strip_trailing_slashes(s: Seq<char>) -> Seq<char>
    decreases s.len(),
{
    if s.len() > 0 && s.last() == '/' {
        strip_trailing_slashes(s.drop_last())
    } else {
        s
    }
}

/// One past the last character of `v[from..to]` that is not a trailing
/// `/` (or `from`).
pub fn skip_slashes_backward(v: &[char], from: usize, to: usize) -> (k: usize)
    requires
        from <= to <= v@.len(),
    ensures
        from <= k <= to,
        v@.subrange(from as int, k as int) == strip_trailing_slashes(
            v@.subrange(from as int, to as int),
        ),
{
    let mut k = to;
    while k > from && v[k - 1] == '/'
        invariant
            from <= k <= to <= v@.len(),
            strip_trailing_slashes(v@.subrange(from as int, k as int)) == strip_trailing_slashes(
                v@.subrange(from as int, to as int),
            ),
        decreases k - from,
    {
        assert(v@.subrange(from as int, k as int).drop_last() =~= v@.subrange(from as int, k - 1));
        k = k - 1;
    }
    k
}

/// Index of the first non-whitespace character of `v[from..to]`
/// (or `to`).
pub fn skip_ws_forward(v: &[char], from: usize, to: usize) -> (k: usize)
    requires
        from <= to <= v@.len(),
    ensures
        from <= k <= to,
        v@.subrange(k as int, to as int) == trim_start(v@.subrange(from as int, to as int)),
{
    let mut k = from;
    while k < to && is_whitespace(v[k])
        invariant
            from <= k <= to <= v@.len(),
            all_ws(v@.subrange(from as int, k as int)),
        decreases to - k,
    {
        assert(v@.subrange(from as int, k + 1) =~= v@.subrange(from as int, k as int).push(v[k as int]));
        k = k + 1;
    }
    let ghost a = v@.subrange(from as int, k as int);
    let ghost b = v@.subrange(k as int, to as int);
    assert(v@.subrange(from as int, to as int) =~= a + b);
    proof {
        lemma_trim_start_unique(a, b);
    }
    k
}

/// One past the last non-whitespace character of `v[from..to]`
/// (or `from`).
pub fn skip_ws_backward(v: &[char], from: usize, to: usize) -> (k: usize)
    requires
        from <= to <= v@.len(),
    ensures
        from <= k <= to,
        v@.subrange(from as int, k as int) == trim_end(v@.subrange(from as int, to as int)),
{
    let mut k = to;
    while k > from && is_whitespace(v[k - 1])
        invariant
            from <= k <= to <= v@.len(),
            all_ws(v@.subrange(k as int, to as int)),
        decreases k - from,
    {
        assert(v@.subrange(k - 1, to as int) =~= seq![v[k - 1]] + v@.subrange(k as int, to as int));
        k = k - 1;
    }
    let ghost a = v@.subrange(from as int, k as int);
    let ghost b = v@.subrange(k as int, to as int);
    assert(v@.subrange(from as int, to as int) =~= a + b);
    proof {
        lemma_trim_end_unique(a, b);
    }
    k
}

/// `str::trim`, as a new `String`.
pub fn trimmed(s: &str) -> (t: String)
    ensures
        t@ == trim(s@),
{
    let v = to_chars(s);
    let a = skip_ws_forward(v.as_slice(), 0, v.len());
    let b = skip_ws_backward(v.as_slice(), a, v.len());
    assert(v@.subrange(0, v@.len() as int) =~= v@);
    from_chars(v.as_slice(), a, b)
}

} // verus!
