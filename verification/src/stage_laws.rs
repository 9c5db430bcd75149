//! What a declaration is read as, stated over the raw text itself: which
//! runs of characters are its words, and how each word decides the reading.
use vstd::prelude::*;

use crate::stage::{
    declaration, declared_words, is_separator, kept_words, lemma_name_named, path_order, pieces,
    refusal, stage_named, stage_word, unknown_words, Stage,
};
use crate::text::{
    is_white_space, lemma_join_occurs, lemma_occurs_within, lemma_trim_found,
    lemma_trim_is_between, occurs, trim,
};

verus! {

/// Whether `raw[i..j]` is one whole piece of a declaration: no comma and no
/// `+` in it, and one of them, or an end of `raw`, on either side.
pub open spec fn is_piece(raw: Seq<char>, i: int, j: int) -> bool {
    &&& 0 <= i <= j <= raw.len()
    &&& (i == 0 || raw[i - 1] == ',' || raw[i - 1] == '+')
    &&& (j == raw.len() || raw[j] == ',' || raw[j] == '+')
    &&& forall|k: int| i <= k < j ==> #[trigger] raw[k] != ',' && raw[k] != '+'
}

/// Whether `raw[a..b]` is the word of the piece `raw[i..j]`: what the piece
/// holds between the blanks at either end, when that is not empty.
pub open spec fn is_word_of(raw: Seq<char>, i: int, j: int, a: int, b: int) -> bool {
    &&& i <= a < b <= j
    &&& forall|k: int| i <= k < a ==> is_white_space(#[trigger] raw[k])
    &&& forall|k: int| b <= k < j ==> is_white_space(#[trigger] raw[k])
    &&& !is_white_space(raw[a])
    &&& !is_white_space(raw[b - 1])
}

/// The name of a stage, as a node writes it.
pub open spec fn name_text(s: Stage) -> Seq<char> {
    match s {
        Stage::Receive => "receive"@,
        Stage::Process => "process"@,
        Stage::Send => "send"@,
    }
}

/// Whether `w` is exactly the name of some stage.
pub open spec fn is_stage_name(w: Seq<char>) -> bool {
    w == name_text(Stage::Receive) || w == name_text(Stage::Process) || w == name_text(
        Stage::Send,
    )
}

/// Where the last piece of `s` starts: after its last separator.
pub open spec fn last_start(s: Seq<char>) -> int
    decreases s.len(),
{
    if s.len() == 0 {
        0
    } else if is_separator(s.last()) {
        s.len() as int
    } else {
        last_start(s.drop_last())
    }
}

/// The names written and the words of the stages are the same.
proof fn lemma_name_text(s: Stage)
    ensures
        name_text(s) == stage_word(s),
{
    reveal_strlit("receive");
    reveal_strlit("process");
    reveal_strlit("send");
    assert(name_text(s) =~= stage_word(s));
}

/// A word names a stage exactly when it is a stage's name.
proof fn lemma_stage_name(w: Seq<char>)
    ensures
        is_stage_name(w) <==> stage_named(w) is Some,
{
    lemma_name_text(Stage::Receive);
    lemma_name_text(Stage::Process);
    lemma_name_text(Stage::Send);
}

/// The last piece is a piece, and runs to the end.
proof fn lemma_last_piece(s: Seq<char>)
    ensures
        is_piece(s, last_start(s), s.len() as int),
        pieces(s).len() >= 1,
        pieces(s).last() == s.subrange(last_start(s), s.len() as int),
    decreases s.len(),
{
    if s.len() == 0 {
        assert(s.subrange(0, 0) =~= Seq::<char>::empty());
    } else {
        let d = s.drop_last();
        lemma_last_piece(d);
        if is_separator(s.last()) {
            assert(s.subrange(s.len() as int, s.len() as int) =~= Seq::<char>::empty());
        } else {
            assert(d.subrange(last_start(d), d.len() as int).push(s.last()) =~= s.subrange(
                last_start(d),
                s.len() as int,
            ));
            assert forall|k: int| last_start(d) <= k < s.len() implies #[trigger] s[k] != ','
                && s[k] != '+' by {
                if k < d.len() {
                    assert(s[k] == d[k]);
                }
            }
            if last_start(d) > 0 {
                assert(s[last_start(d) - 1] == d[last_start(d) - 1]);
            }
        }
    }
}

/// A piece that runs to the end starts where the last piece starts.
proof fn lemma_last_start_is(s: Seq<char>, i: int)
    requires
        is_piece(s, i, s.len() as int),
    ensures
        last_start(s) == i,
    decreases s.len(),
{
    if s.len() > 0 && i < s.len() {
        let d = s.drop_last();
        assert(s[s.len() - 1] != ',' && s[s.len() - 1] != '+');
        assert forall|k: int| i <= k < d.len() implies #[trigger] d[k] != ',' && d[k] != '+' by {
            assert(d[k] == s[k]);
        }
        if i > 0 {
            assert(d[i - 1] == s[i - 1]);
        }
        lemma_last_start_is(d, i);
    }
}

/// The pieces of a prefix, all but its last, are the first pieces of the
/// whole.
proof fn lemma_pieces_prefix(s: Seq<char>, m: int)
    requires
        0 <= m <= s.len(),
    ensures
        pieces(s).len() >= pieces(s.take(m)).len(),
        forall|k: int|
            0 <= k < pieces(s.take(m)).len() - 1 ==> pieces(s)[k] == #[trigger] pieces(
                s.take(m),
            )[k],
    decreases s.len(),
{
    lemma_last_piece(s.take(m));
    if m == s.len() {
        assert(s.take(m) =~= s);
    } else {
        let d = s.drop_last();
        assert(d.take(m) =~= s.take(m));
        lemma_pieces_prefix(d, m);
        lemma_last_piece(d);
    }
}

/// Every piece of the text is one of its pieces.
pub proof fn lemma_piece_is_read(raw: Seq<char>, i: int, j: int)
    requires
        is_piece(raw, i, j),
    ensures
        pieces(raw).contains(raw.subrange(i, j)),
{
    if j == raw.len() {
        lemma_last_start_is(raw, i);
        lemma_last_piece(raw);
        assert(pieces(raw)[pieces(raw).len() - 1] == raw.subrange(i, j));
    } else {
        let t = raw.take(j);
        assert(is_piece(t, i, j)) by {
            assert forall|k: int| i <= k < j implies #[trigger] t[k] != ',' && t[k] != '+' by {
                assert(t[k] == raw[k]);
            }
            if i > 0 {
                assert(t[i - 1] == raw[i - 1]);
            }
        }
        lemma_last_start_is(t, i);
        lemma_last_piece(t);
        assert(t.subrange(i, j) =~= raw.subrange(i, j));
        let t1 = raw.take(j + 1);
        assert(t1.drop_last() =~= t);
        assert(is_separator(t1.last()));
        assert(pieces(t1) == pieces(t).push(Seq::empty()));
        lemma_pieces_prefix(raw, j + 1);
        let idx = pieces(t).len() - 1;
        assert(pieces(t1)[idx] == pieces(t)[idx]);
        assert(pieces(raw)[idx] == raw.subrange(i, j));
    }
}

/// Every piece the text is read into is a piece of it, and all but the
/// last end at a separator.
proof fn lemma_read_is_piece(raw: Seq<char>, k: int) -> (r: (int, int))
    requires
        0 <= k < pieces(raw).len(),
    ensures
        is_piece(raw, r.0, r.1),
        pieces(raw)[k] == raw.subrange(r.0, r.1),
        k < pieces(raw).len() - 1 ==> r.1 < raw.len(),
    decreases raw.len(),
{
    lemma_last_piece(raw);
    if k == pieces(raw).len() - 1 {
        (last_start(raw), raw.len() as int)
    } else {
        let d = raw.drop_last();
        lemma_last_piece(d);
        let r = if k == pieces(d).len() - 1 {
            (last_start(d), d.len() as int)
        } else {
            lemma_read_is_piece(d, k)
        };
        assert(pieces(raw)[k] == pieces(d)[k]);
        assert(raw.subrange(r.0, r.1) =~= d.subrange(r.0, r.1));
        assert forall|t: int| r.0 <= t < r.1 implies #[trigger] raw[t] != ',' && raw[t] != '+' by {
            assert(raw[t] == d[t]);
        }
        if r.0 > 0 {
            assert(raw[r.0 - 1] == d[r.0 - 1]);
        }
        if r.1 < d.len() {
            assert(raw[r.1] == d[r.1]);
        }
        r
    }
}

/// A piece that trims to something gives that word.
proof fn lemma_kept_contains(ps: Seq<Seq<char>>, p: Seq<char>)
    requires
        ps.contains(p),
        trim(p).len() > 0,
    ensures
        kept_words(ps).contains(trim(p)),
    decreases ps.len(),
{
    let i = choose|i: int| 0 <= i < ps.len() && ps[i] == p;
    if i == ps.len() - 1 {
        let w = kept_words(ps.drop_last());
        assert(kept_words(ps) == w.push(trim(p)));
        assert(kept_words(ps)[w.len() as int] == trim(p));
    } else {
        assert(ps.drop_last()[i] == p);
        lemma_kept_contains(ps.drop_last(), p);
        let w = kept_words(ps.drop_last());
        let j = choose|j: int| 0 <= j < w.len() && w[j] == trim(p);
        assert(kept_words(ps)[j] == trim(p));
    }
}

/// Every word comes from a piece that trims to it.
proof fn lemma_kept_from(ps: Seq<Seq<char>>, w: Seq<char>) -> (i: int)
    requires
        kept_words(ps).contains(w),
    ensures
        0 <= i < ps.len(),
        trim(ps[i]) == w,
        w.len() > 0,
    decreases ps.len(),
{
    let ws = kept_words(ps.drop_last());
    let t = trim(ps.last());
    if t.len() > 0 && t == w {
        ps.len() - 1
    } else {
        let j = choose|j: int| 0 <= j < kept_words(ps).len() && kept_words(ps)[j] == w;
        if t.len() > 0 {
            assert(kept_words(ps) == ws.push(t));
            assert(j < ws.len());
            assert(ws[j] == w);
        } else {
            assert(ws[j] == w);
        }
        let i = lemma_kept_from(ps.drop_last(), w);
        assert(ps[i] == ps.drop_last()[i]);
        i
    }
}

/// A word that names no stage is among the unknown words.
proof fn lemma_unknown_contains(ws: Seq<Seq<char>>, w: Seq<char>)
    requires
        ws.contains(w),
        stage_named(w) is None,
    ensures
        unknown_words(ws).contains(w),
    decreases ws.len(),
{
    let i = choose|i: int| 0 <= i < ws.len() && ws[i] == w;
    let u = unknown_words(ws.drop_last());
    if i == ws.len() - 1 {
        assert(unknown_words(ws) == u.push(w));
        assert(unknown_words(ws)[u.len() as int] == w);
    } else {
        assert(ws.drop_last()[i] == w);
        lemma_unknown_contains(ws.drop_last(), w);
        let j = choose|j: int| 0 <= j < u.len() && u[j] == w;
        assert(unknown_words(ws)[j] == w);
    }
}

/// Every unknown word is a word that names no stage.
proof fn lemma_unknown_from(ws: Seq<Seq<char>>, w: Seq<char>)
    requires
        unknown_words(ws).contains(w),
    ensures
        ws.contains(w),
        stage_named(w) is None,
    decreases ws.len(),
{
    let u = unknown_words(ws.drop_last());
    let j = choose|j: int| 0 <= j < unknown_words(ws).len() && unknown_words(ws)[j] == w;
    if stage_named(ws.last()) is None && j == u.len() {
        assert(unknown_words(ws) == u.push(ws.last()));
        assert(ws[ws.len() - 1] == w);
    } else {
        assert(u[j] == w);
        lemma_unknown_from(ws.drop_last(), w);
        let i = choose|i: int| 0 <= i < ws.drop_last().len() && ws.drop_last()[i] == w;
        assert(ws[i] == w);
    }
}

/// The word of a piece is what trimming the piece leaves.
proof fn lemma_word_is_trimmed(raw: Seq<char>, i: int, j: int, a: int, b: int)
    requires
        is_piece(raw, i, j),
        is_word_of(raw, i, j, a, b),
    ensures
        trim(raw.subrange(i, j)) == raw.subrange(a, b),
{
    let p = raw.subrange(i, j);
    assert forall|k: int| 0 <= k < a - i implies is_white_space(#[trigger] p[k]) by {
        assert(p[k] == raw[k + i]);
    }
    assert forall|k: int| b - i <= k < p.len() implies is_white_space(#[trigger] p[k]) by {
        assert(p[k] == raw[k + i]);
    }
    assert(p[a - i] == raw[a]);
    assert(p[b - i - 1] == raw[b - 1]);
    lemma_trim_is_between(p, a - i, b - i);
    assert(p.subrange(a - i, b - i) =~= raw.subrange(a, b));
}

/// The word a piece trims to, when it trims to something.
proof fn lemma_word_found(raw: Seq<char>, i: int, j: int) -> (r: (int, int))
    requires
        is_piece(raw, i, j),
        trim(raw.subrange(i, j)).len() > 0,
    ensures
        is_word_of(raw, i, j, r.0, r.1),
        trim(raw.subrange(i, j)) == raw.subrange(r.0, r.1),
{
    let p = raw.subrange(i, j);
    let (a, b) = lemma_trim_found(p);
    assert forall|k: int| i <= k < i + a implies is_white_space(#[trigger] raw[k]) by {
        assert(raw[k] == p[k - i]);
    }
    assert forall|k: int| i + b <= k < j implies is_white_space(#[trigger] raw[k]) by {
        assert(raw[k] == p[k - i]);
    }
    assert(raw[i + a] == p[a]);
    assert(raw[i + b - 1] == p[b - 1]);
    assert(p.subrange(a, b) =~= raw.subrange(i + a, i + b));
    (i + a, i + b)
}

/// A word of the declaration that is not exactly a stage's name is refused:
/// the declaration is read as a refusal, and the refusal names that word.
/// No unknown word is ever dropped.
pub proof fn lemma_unknown_word_refused(raw: Seq<char>, i: int, j: int, a: int, b: int)
    requires
        is_piece(raw, i, j),
        is_word_of(raw, i, j, a, b),
        !is_stage_name(raw.subrange(a, b)),
    ensures
        declaration(raw) is Err,
        declaration(raw) matches Err(m) && occurs(m, raw.subrange(a, b)),
{
    let w = raw.subrange(a, b);
    lemma_piece_is_read(raw, i, j);
    lemma_word_is_trimmed(raw, i, j, a, b);
    lemma_kept_contains(pieces(raw), raw.subrange(i, j));
    lemma_stage_name(w);
    lemma_unknown_contains(declared_words(raw), w);
    let u = unknown_words(declared_words(raw));
    let k = choose|k: int| 0 <= k < u.len() && u[k] == w;
    assert(u.len() > 0);
    lemma_join_occurs(u, ", "@, w);
    let x = crate::text::join(u, ", "@);
    let at = choose|at: int| 0 <= at && at + w.len() <= x.len() && #[trigger] x.subrange(at, at + w.len()) == w;
    let tail = "; a node declares "@ + crate::text::join(crate::stage::all_words(), ", "@)
        + ", or nothing at all."@;
    lemma_occurs_within(x, "REFUSED: no capability is called "@, tail, w, at);
    assert("REFUSED: no capability is called "@ + x + tail =~= refusal(u));
}

/// A word of the declaration that is a stage's name puts that stage in
/// what the declaration is read as, unless it is refused.
pub proof fn lemma_named_stage_declared(raw: Seq<char>, i: int, j: int, a: int, b: int, s: Stage)
    requires
        is_piece(raw, i, j),
        is_word_of(raw, i, j, a, b),
        raw.subrange(a, b) == name_text(s),
    ensures
        declaration(raw) matches Ok(st) ==> st.contains(s),
{
    lemma_piece_is_read(raw, i, j);
    lemma_word_is_trimmed(raw, i, j, a, b);
    lemma_kept_contains(pieces(raw), raw.subrange(i, j));
    lemma_name_text(s);
    let ws = declared_words(raw);
    assert(ws.contains(stage_word(s)));
    let st = path_order(
        ws.contains(stage_word(Stage::Receive)),
        ws.contains(stage_word(Stage::Process)),
        ws.contains(stage_word(Stage::Send)),
    );
    match s {
        Stage::Receive => assert(st[0] == Stage::Receive),
        Stage::Process => {
            let n = if ws.contains(stage_word(Stage::Receive)) { 1int } else { 0int };
            assert(st[n] == Stage::Process);
        },
        Stage::Send => assert(st[st.len() - 1] == Stage::Send),
    }
}

/// Every stage a declaration is read as is named by one of its words.
pub proof fn lemma_declared_stage_named(raw: Seq<char>, s: Stage) -> (r: (int, int, int, int))
    requires
        declaration(raw) matches Ok(st) && st.contains(s),
    ensures
        is_piece(raw, r.0, r.1),
        is_word_of(raw, r.0, r.1, r.2, r.3),
        raw.subrange(r.2, r.3) == name_text(s),
{
    let ws = declared_words(raw);
    let st = path_order(
        ws.contains(stage_word(Stage::Receive)),
        ws.contains(stage_word(Stage::Process)),
        ws.contains(stage_word(Stage::Send)),
    );
    let n = choose|n: int| 0 <= n < st.len() && st[n] == s;
    assert(ws.contains(stage_word(s)));
    let p = lemma_kept_from(pieces(raw), stage_word(s));
    let (i, j) = lemma_read_is_piece(raw, p);
    let (a, b) = lemma_word_found(raw, i, j);
    lemma_name_text(s);
    (i, j, a, b)
}

/// A declaration is refused only for a word of it that is not exactly a
/// stage's name.
pub proof fn lemma_refused_for_a_word(raw: Seq<char>) -> (r: (int, int, int, int))
    requires
        declaration(raw) is Err,
    ensures
        is_piece(raw, r.0, r.1),
        is_word_of(raw, r.0, r.1, r.2, r.3),
        !is_stage_name(raw.subrange(r.2, r.3)),
{
    let ws = declared_words(raw);
    let u = unknown_words(ws);
    assert(u.len() > 0);
    let w = u[0];
    assert(u.contains(w));
    lemma_unknown_from(ws, w);
    let p = lemma_kept_from(pieces(raw), w);
    let (i, j) = lemma_read_is_piece(raw, p);
    let (a, b) = lemma_word_found(raw, i, j);
    lemma_stage_name(w);
    (i, j, a, b)
}

} // verus!
