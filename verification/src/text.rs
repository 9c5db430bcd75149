//! Sequences of characters: what a string holds, and the few operations on
//! them that the declarations need.
use vstd::prelude::*;

verus! {

/// Whether `c` has the Unicode White_Space property: the characters that
/// trimming a string takes away at either end.
pub open spec fn is_white_space(c: char) -> bool {
    ||| ('\u{9}' <= c && c <= '\u{d}')
    ||| c == ' '
    ||| c == '\u{85}'
    ||| c == '\u{a0}'
    ||| c == '\u{1680}'
    ||| ('\u{2000}' <= c && c <= '\u{200a}')
    ||| c == '\u{2028}'
    ||| c == '\u{2029}'
    ||| c == '\u{202f}'
    ||| c == '\u{205f}'
    ||| c == '\u{3000}'
}

/// `s` without the white space it starts with.
pub open spec fn trim_start(s: Seq<char>) -> Seq<char>
    decreases s.len(),
{
    if s.len() > 0 && is_white_space(s[0]) {
        trim_start(s.drop_first())
    } else {
        s
    }
}

/// `s` without the white space it ends with.
pub open spec fn trim_end(s: Seq<char>) -> Seq<char>
    decreases s.len(),
{
    if s.len() > 0 && is_white_space(s.last()) {
        trim_end(s.drop_last())
    } else {
        s
    }
}

/// `s` without white space at either end.
pub open spec fn trim(s: Seq<char>) -> Seq<char> {
    trim_end(trim_start(s))
}

/// The parts, in order, with `sep` between each two of them.
pub open spec fn join(parts: Seq<Seq<char>>, sep: Seq<char>) -> Seq<char>
    decreases parts.len(),
{
    if parts.len() == 0 {
        Seq::empty()
    } else if parts.len() == 1 {
        parts[0]
    } else {
        join(parts.drop_last(), sep) + sep + parts.last()
    }
}

/// What a vector of character vectors holds, as sequences.
pub open spec fn views(v: Seq<Vec<char>>) -> Seq<Seq<char>> {
    v.map_values(|w: Vec<char>| w@)
}


/// Whether `c` stands nowhere in `s`.
pub open spec fn lacks(s: Seq<char>, c: char) -> bool {
    forall|i: int| 0 <= i < s.len() ==> s[i] != c
}

/// Reading past a part that lacks `c`.
pub proof fn lemma_first_past(x: Seq<char>, y: Seq<char>, c: char)
    requires
        lacks(x, c),
    ensures
        before_first(x + y, c) == x + before_first(y, c),
        after_first(x + y, c) == after_first(y, c),
    decreases x.len(),
{
    if x.len() == 0 {
        assert(x + y =~= y);
        assert(x + before_first(y, c) =~= before_first(y, c));
    } else {
        assert((x + y).drop_first() =~= x.drop_first() + y);
        assert((x + y)[0] == x[0]);
        lemma_first_past(x.drop_first(), y, c);
        assert(x =~= seq![x[0]] + x.drop_first());
        assert(seq![x[0]] + (x.drop_first() + before_first(y, c)) =~= x + before_first(y, c));
    }
}

/// A part that lacks `c` is read whole, with nothing after it.
pub proof fn lemma_first_none(x: Seq<char>, c: char)
    requires
        lacks(x, c),
    ensures
        before_first(x, c) == x,
        after_first(x, c) == Seq::<char>::empty(),
{
    lemma_first_past(x, Seq::empty(), c);
    assert(x + Seq::<char>::empty() =~= x);
}

/// The first `c` after a part that lacks it.
pub proof fn lemma_first_at(x: Seq<char>, y: Seq<char>, c: char)
    requires
        lacks(x, c),
    ensures
        before_first(x + seq![c] + y, c) == x,
        after_first(x + seq![c] + y, c) == y,
{
    lemma_first_past(x, seq![c] + y, c);
    assert(x + seq![c] + y =~= x + (seq![c] + y));
    assert((seq![c] + y).drop_first() =~= y);
    assert(x + Seq::<char>::empty() =~= x);
}

/// A joined sequence lacks what its parts and the separator lack.
pub proof fn lemma_join_lacks(parts: Seq<Seq<char>>, sep: Seq<char>, c: char)
    requires
        forall|i: int| 0 <= i < parts.len() ==> lacks(#[trigger] parts[i], c),
        lacks(sep, c),
    ensures
        lacks(join(parts, sep), c),
    decreases parts.len(),
{
    if parts.len() > 1 {
        lemma_join_lacks(parts.drop_last(), sep, c);
        let j = join(parts.drop_last(), sep);
        assert(lacks(parts.last(), c));
        assert forall|i: int| 0 <= i < (j + sep + parts.last()).len() implies (j + sep
            + parts.last())[i] != c by {
            if i < j.len() {
            } else if i < j.len() + sep.len() {
                assert((j + sep + parts.last())[i] == sep[i - j.len()]);
            } else {
                assert((j + sep + parts.last())[i] == parts.last()[i - j.len() - sep.len()]);
            }
        }
    } else if parts.len() == 1 {
        assert(lacks(parts[0], c));
    }
}

/// A joined sequence starts as its first part does.
pub proof fn lemma_join_first(parts: Seq<Seq<char>>, sep: Seq<char>)
    requires
        parts.len() > 0,
        parts[0].len() > 0,
    ensures
        join(parts, sep).len() > 0,
        join(parts, sep)[0] == parts[0][0],
    decreases parts.len(),
{
    if parts.len() > 1 {
        lemma_join_first(parts.drop_last(), sep);
    }
}


/// How many times `c` stands in `s`.
pub open spec fn count(s: Seq<char>, c: char) -> nat
    decreases s.len(),
{
    if s.len() == 0 {
        0
    } else {
        count(s.drop_last(), c) + if s.last() == c {
            1nat
        } else {
            0nat
        }
    }
}

/// Counting over two parts adds up.
pub proof fn lemma_count_concat(a: Seq<char>, b: Seq<char>, c: char)
    ensures
        count(a + b, c) == count(a, c) + count(b, c),
    decreases b.len(),
{
    if b.len() == 0 {
        assert(a + b =~= a);
    } else {
        lemma_count_concat(a, b.drop_last(), c);
        assert((a + b).drop_last() =~= a + b.drop_last());
    }
}

/// What lacks `c` counts none of it.
pub proof fn lemma_count_lacks(s: Seq<char>, c: char)
    requires
        lacks(s, c),
    ensures
        count(s, c) == 0,
    decreases s.len(),
{
    if s.len() > 0 {
        lemma_count_lacks(s.drop_last(), c);
    }
}

/// What starts with `c` and lacks it afterwards counts it once.
pub proof fn lemma_count_once(s: Seq<char>, c: char)
    requires
        s.len() > 0,
        s[0] == c,
        lacks(s.drop_first(), c),
    ensures
        count(s, c) == 1,
{
    assert(s =~= seq![c] + s.drop_first());
    lemma_count_concat(seq![c], s.drop_first(), c);
    lemma_count_lacks(s.drop_first(), c);
    let one = seq![c];
    assert(one.drop_last() =~= Seq::<char>::empty());
    assert(one.last() == c);
    assert(count(Seq::<char>::empty(), c) == 0);
    assert(count(one, c) == count(one.drop_last(), c) + 1);
}

/// Whether `pat` occurs in `s`.
pub open spec fn occurs(s: Seq<char>, pat: Seq<char>) -> bool {
    exists|i: int| 0 <= i && i + pat.len() <= s.len() && #[trigger] s.subrange(i, i + pat.len()) == pat
}


/// What `s` holds before the first `c` in it; all of `s` when there is none.
pub open spec fn before_first(s: Seq<char>, c: char) -> Seq<char>
    decreases s.len(),
{
    if s.len() == 0 {
        s
    } else if s[0] == c {
        Seq::empty()
    } else {
        seq![s[0]] + before_first(s.drop_first(), c)
    }
}

/// What `s` holds after the first `c` in it; nothing when there is none.
pub open spec fn after_first(s: Seq<char>, c: char) -> Seq<char>
    decreases s.len(),
{
    if s.len() == 0 {
        s
    } else if s[0] == c {
        s.drop_first()
    } else {
        after_first(s.drop_first(), c)
    }
}

/// The index of the first `c` in `v`, or the length of `v` when there is
/// none; the two parts of `v` around it.
pub fn first_index(v: &Vec<char>, c: char) -> (k: usize)
    ensures
        k <= v.len(),
        forall|j: int| 0 <= j < k ==> v@[j] != c,
        k < v.len() ==> v@[k as int] == c,
        before_first(v@, c) == v@.take(k as int),
        after_first(v@, c) == if k < v.len() {
            v@.skip(k + 1)
        } else {
            Seq::<char>::empty()
        },
{
    let mut k: usize = 0;
    assert(v@.skip(0) =~= v@);
    assert(v@.take(0) + before_first(v@, c) =~= before_first(v@, c));
    while k < v.len() && v[k] != c
        invariant
            k <= v.len(),
            forall|j: int| 0 <= j < k ==> v@[j] != c,
            before_first(v@, c) == v@.take(k as int) + before_first(v@.skip(k as int), c),
            after_first(v@, c) == after_first(v@.skip(k as int), c),
        decreases v.len() - k,
    {
        assert(v@.skip(k as int).drop_first() =~= v@.skip(k + 1));
        assert(v@.take(k + 1) =~= v@.take(k as int) + seq![v@[k as int]]);
        k = k + 1;
    }
    if k < v.len() {
        assert(v@.skip(k as int).drop_first() =~= v@.skip(k + 1));
        assert(v@.take(k as int) + Seq::<char>::empty() =~= v@.take(k as int));
    } else {
        assert(v@.take(k as int) =~= v@);
        assert(v@.skip(k as int) =~= Seq::<char>::empty());
    }
    k
}

/// Whether `pat` stands in `s` at `i`.
fn stands_at(s: &Vec<char>, pat: &Vec<char>, i: usize) -> (r: bool)
    requires
        i + pat.len() <= s.len(),
    ensures
        r == (s@.subrange(i as int, i + pat.len()) == pat@),
{
    for j in 0..pat.len()
        invariant
            i + pat.len() <= s.len(),
            forall|t: int| 0 <= t < j ==> s@[i + t] == pat@[t],
    {
        if s[i + j] != pat[j] {
            assert(s@.subrange(i as int, i + pat.len())[j as int] != pat@[j as int]);
            return false;
        }
    }
    assert(s@.subrange(i as int, i + pat.len()) =~= pat@);
    true
}

/// Whether `pat` occurs in `s`.
pub fn occurs_in(s: &Vec<char>, pat: &Vec<char>) -> (r: bool)
    ensures
        r == occurs(s@, pat@),
{
    if pat.len() > s.len() {
        return false;
    }
    let last = s.len() - pat.len();
    let mut i: usize = 0;
    while i <= last
        invariant
            last + pat.len() == s.len(),
            i <= last + 1,
            forall|k: int| 0 <= k < i ==> #[trigger] s@.subrange(k, k + pat.len()) != pat@,
        decreases last + 1 - i,
    {
        if stands_at(s, pat, i) {
            return true;
        }
        if i == last {
            return false;
        }
        i = i + 1;
    }
    false
}


/// Trimming the start of `s` where its blanks end, at `a`.
pub proof fn lemma_trim_start_at(s: Seq<char>, a: int)
    requires
        0 <= a <= s.len(),
        forall|k: int| 0 <= k < a ==> is_white_space(#[trigger] s[k]),
        a == s.len() || !is_white_space(s[a]),
    ensures
        trim_start(s) == s.skip(a),
    decreases a,
{
    if a == 0 {
        assert(s.skip(0) =~= s);
    } else {
        assert(is_white_space(s[0]));
        let t = s.drop_first();
        assert forall|k: int| 0 <= k < a - 1 implies is_white_space(#[trigger] t[k]) by {
            assert(t[k] == s[k + 1]);
        }
        lemma_trim_start_at(t, a - 1);
        assert(t.skip(a - 1) =~= s.skip(a));
    }
}

/// Trimming the end of `s` where its trailing blanks begin, at `b`.
pub proof fn lemma_trim_end_at(s: Seq<char>, b: int)
    requires
        0 <= b <= s.len(),
        forall|k: int| b <= k < s.len() ==> is_white_space(#[trigger] s[k]),
        b == 0 || !is_white_space(s[b - 1]),
    ensures
        trim_end(s) == s.take(b),
    decreases s.len() - b,
{
    if b == s.len() {
        assert(s.take(b) =~= s);
    } else {
        assert(is_white_space(s.last()));
        let t = s.drop_last();
        lemma_trim_end_at(t, b);
        assert(t.take(b) =~= s.take(b));
    }
}

/// Where the blanks at the start of `s` end.
pub proof fn lemma_trim_start_found(s: Seq<char>) -> (a: int)
    ensures
        0 <= a <= s.len(),
        forall|k: int| 0 <= k < a ==> is_white_space(#[trigger] s[k]),
        a == s.len() || !is_white_space(s[a]),
    decreases s.len(),
{
    if s.len() == 0 || !is_white_space(s[0]) {
        0
    } else {
        let t = s.drop_first();
        let a1 = lemma_trim_start_found(t);
        assert forall|k: int| 0 <= k < a1 + 1 implies is_white_space(#[trigger] s[k]) by {
            if k > 0 {
                assert(s[k] == t[k - 1]);
            }
        }
        if a1 + 1 < s.len() {
            assert(s[a1 + 1] == t[a1]);
        }
        a1 + 1
    }
}

/// Where the blanks at the end of `s` begin.
pub proof fn lemma_trim_end_found(s: Seq<char>) -> (b: int)
    ensures
        0 <= b <= s.len(),
        forall|k: int| b <= k < s.len() ==> is_white_space(#[trigger] s[k]),
        b == 0 || !is_white_space(s[b - 1]),
    decreases s.len(),
{
    if s.len() == 0 || !is_white_space(s.last()) {
        s.len() as int
    } else {
        let t = s.drop_last();
        let b1 = lemma_trim_end_found(t);
        assert forall|k: int| b1 <= k < s.len() implies is_white_space(#[trigger] s[k]) by {
            if k < s.len() - 1 {
                assert(s[k] == t[k]);
            }
        }
        if b1 > 0 {
            assert(s[b1 - 1] == t[b1 - 1]);
        }
        b1
    }
}

/// What trimming leaves is what stands between the blanks at either end:
/// `s[a..b]` when everything before `a` and from `b` on is blank and the
/// characters at `a` and `b - 1` are not.
pub proof fn lemma_trim_is_between(s: Seq<char>, a: int, b: int)
    requires
        0 <= a < b <= s.len(),
        forall|k: int| 0 <= k < a ==> is_white_space(#[trigger] s[k]),
        forall|k: int| b <= k < s.len() ==> is_white_space(#[trigger] s[k]),
        !is_white_space(s[a]),
        !is_white_space(s[b - 1]),
    ensures
        trim(s) == s.subrange(a, b),
{
    lemma_trim_start_at(s, a);
    let t = s.skip(a);
    assert forall|k: int| b - a <= k < t.len() implies is_white_space(#[trigger] t[k]) by {
        assert(t[k] == s[k + a]);
    }
    assert(t[b - a - 1] == s[b - 1]);
    lemma_trim_end_at(t, b - a);
    assert(t.take(b - a) =~= s.subrange(a, b));
}

/// Whatever trimming leaves, when it leaves something, stands between the
/// blanks at either end of `s`.
pub proof fn lemma_trim_found(s: Seq<char>) -> (r: (int, int))
    requires
        trim(s).len() > 0,
    ensures
        0 <= r.0 < r.1 <= s.len(),
        forall|k: int| 0 <= k < r.0 ==> is_white_space(#[trigger] s[k]),
        forall|k: int| r.1 <= k < s.len() ==> is_white_space(#[trigger] s[k]),
        !is_white_space(s[r.0]),
        !is_white_space(s[r.1 - 1]),
        trim(s) == s.subrange(r.0, r.1),
{
    let a = lemma_trim_start_found(s);
    lemma_trim_start_at(s, a);
    let t = s.skip(a);
    let b1 = lemma_trim_end_found(t);
    lemma_trim_end_at(t, b1);
    assert(t.take(b1) =~= s.subrange(a, a + b1));
    assert forall|k: int| a + b1 <= k < s.len() implies is_white_space(#[trigger] s[k]) by {
        assert(s[k] == t[k - a]);
    }
    assert(b1 > 0);
    assert(s[a + b1 - 1] == t[b1 - 1]);
    (a, a + b1)
}

/// A part of a joined sequence occurs in it.
pub proof fn lemma_join_occurs(parts: Seq<Seq<char>>, sep: Seq<char>, w: Seq<char>)
    requires
        parts.contains(w),
    ensures
        occurs(join(parts, sep), w),
    decreases parts.len(),
{
    let i = choose|i: int| 0 <= i < parts.len() && parts[i] == w;
    if parts.len() == 1 {
        assert(w.subrange(0, w.len() as int) =~= w);
        lemma_occurs_within(w, Seq::empty(), Seq::empty(), w, 0);
        assert(Seq::<char>::empty() + w + Seq::<char>::empty() =~= join(parts, sep));
    } else if i == parts.len() - 1 {
        let j = join(parts.drop_last(), sep) + sep;
        assert(join(parts, sep) == j + w);
        assert(w.subrange(0, w.len() as int) =~= w);
        lemma_occurs_within(w, j, Seq::empty(), w, 0);
        assert(j + w + Seq::<char>::empty() =~= join(parts, sep));
    } else {
        assert(parts.drop_last()[i] == w);
        lemma_join_occurs(parts.drop_last(), sep, w);
        let k = choose|k: int|
            0 <= k && k + w.len() <= join(parts.drop_last(), sep).len() && #[trigger] join(
                parts.drop_last(),
                sep,
            ).subrange(k, k + w.len()) == w;
        lemma_occurs_within(join(parts.drop_last(), sep), Seq::empty(), sep + parts.last(), w, k);
        assert(Seq::<char>::empty() + join(parts.drop_last(), sep) + (sep + parts.last())
            =~= join(parts, sep));
    }
}

/// What occurs in a part occurs in a sequence that holds the part.
pub proof fn lemma_occurs_within(x: Seq<char>, a: Seq<char>, b: Seq<char>, w: Seq<char>, k: int)
    requires
        0 <= k && k + w.len() <= x.len(),
        x.subrange(k, k + w.len()) == w,
    ensures
        occurs(a + x + b, w),
{
    let whole = a + x + b;
    let at = a.len() + k;
    assert(whole.subrange(at, at + w.len()) =~= x.subrange(k, k + w.len()));
}

/// The characters of `s`, in order.
pub fn chars_of(s: &str) -> (v: Vec<char>)
    ensures
        v@ == s@,
{
    let mut v: Vec<char> = Vec::new();
    for c in it: s.chars()
        invariant
            v@ == it.seq().take(it.index() as int),
    {
        v.push(c);
    }
    v
}

/// Whether `c` is white space.
pub fn is_blank(c: char) -> (b: bool)
    ensures
        b == is_white_space(c),
{
    ('\u{9}' <= c && c <= '\u{d}') || c == ' ' || c == '\u{85}' || c == '\u{a0}' || c == '\u{1680}'
        || ('\u{2000}' <= c && c <= '\u{200a}') || c == '\u{2028}' || c == '\u{2029}' || c
        == '\u{202f}' || c == '\u{205f}' || c == '\u{3000}'
}

/// The bounds, within `lo..hi`, of what is left of `v[lo..hi]` once it is
/// trimmed.
pub fn trim_bounds(v: &Vec<char>, lo: usize, hi: usize) -> (r: (usize, usize))
    requires
        lo <= hi <= v.len(),
    ensures
        lo <= r.0 <= r.1 <= hi,
        v@.subrange(r.0 as int, r.1 as int) == trim(v@.subrange(lo as int, hi as int)),
{
    let mut a = lo;
    while a < hi && is_blank(v[a])
        invariant
            lo <= a <= hi <= v.len(),
            trim_start(v@.subrange(lo as int, hi as int)) == trim_start(
                v@.subrange(a as int, hi as int),
            ),
        decreases hi - a,
    {
        assert(v@.subrange(a as int, hi as int).drop_first() =~= v@.subrange(a + 1, hi as int));
        a = a + 1;
    }
    assert(trim_start(v@.subrange(a as int, hi as int)) == v@.subrange(a as int, hi as int));
    let mut b = hi;
    while b > a && is_blank(v[b - 1])
        invariant
            lo <= a <= b <= hi <= v.len(),
            trim_end(v@.subrange(a as int, hi as int)) == trim_end(v@.subrange(a as int, b as int)),
        decreases b - a,
    {
        assert(v@.subrange(a as int, b as int).drop_last() =~= v@.subrange(a as int, b - 1));
        b = b - 1;
    }
    assert(trim_end(v@.subrange(a as int, b as int)) == v@.subrange(a as int, b as int));
    (a, b)
}

/// Appends `c` to `s`.
///
/// Calls `String::push`, which appends one character at the end; the
/// contract claims exactly that of it.
#[verifier::external_body]
pub fn push_char(s: &mut String, c: char)
    ensures
        final(s)@ == old(s)@.push(c),
{
    s.push(c);
}

/// Appends the characters of `cs` to `s`.
pub fn push_chars(s: &mut String, cs: &Vec<char>)
    ensures
        final(s)@ == old(s)@ + cs@,
{
    let ghost start = s@;
    for i in 0..cs.len()
        invariant
            s@ == start + cs@.take(i as int),
    {
        push_char(s, cs[i]);
        assert(cs@.take(i + 1) =~= cs@.take(i as int).push(cs[i as int]));
    }
    assert(cs@.take(cs.len() as int) =~= cs@);
}

/// Appends the characters of `t` to `s`.
pub fn push_str(s: &mut String, t: &str)
    ensures
        final(s)@ == old(s)@ + t@,
{
    s.append(t);
}

/// Whether `a` and `b` hold the same characters.
pub fn same_chars(a: &Vec<char>, b: &Vec<char>) -> (r: bool)
    ensures
        r == (a@ == b@),
{
    if a.len() != b.len() {
        return false;
    }
    for i in 0..a.len()
        invariant
            a.len() == b.len(),
            forall|j: int| 0 <= j < i ==> a@[j] == b@[j],
    {
        if a[i] != b[i] {
            return false;
        }
    }
    assert(a@ =~= b@);
    true
}

/// The characters `v[lo..hi]`.
pub fn copy_range(v: &Vec<char>, lo: usize, hi: usize) -> (r: Vec<char>)
    requires
        lo <= hi <= v.len(),
    ensures
        r@ == v@.subrange(lo as int, hi as int),
{
    let mut r: Vec<char> = Vec::new();
    let mut i = lo;
    while i < hi
        invariant
            lo <= i <= hi <= v.len(),
            r@ == v@.subrange(lo as int, i as int),
        decreases hi - i,
    {
        r.push(v[i]);
        assert(v@.subrange(lo as int, i + 1) =~= v@.subrange(lo as int, i as int).push(v@[i as int]));
        i = i + 1;
    }
    r
}

/// Joining one more part onto the first `i` parts.
pub proof fn lemma_join_take(parts: Seq<Seq<char>>, sep: Seq<char>, i: int)
    requires
        0 <= i < parts.len(),
    ensures
        join(parts.take(i + 1), sep) == if i == 0 {
            parts[0]
        } else {
            join(parts.take(i), sep) + sep + parts[i]
        },
{
    assert(parts.take(i + 1).drop_last() =~= parts.take(i));
}

/// Appends the parts to `s`, with `sep` between each two of them.
pub fn push_joined(s: &mut String, parts: &Vec<Vec<char>>, sep: &str)
    ensures
        final(s)@ == old(s)@ + join(views(parts@), sep@),
{
    let ghost start = s@;
    let ghost ps = views(parts@);
    for i in 0..parts.len()
        invariant
            ps == views(parts@),
            s@ == start + join(ps.take(i as int), sep@),
    {
        proof {
            lemma_join_take(ps, sep@, i as int);
        }
        if i > 0 {
            push_str(s, sep);
        }
        push_chars(s, &parts[i]);
        assert(s@ =~= start + join(ps.take(i + 1), sep@));
    }
    assert(ps.take(parts.len() as int) =~= ps);
}

} // verus!
