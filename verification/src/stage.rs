//! The stages of the message path a node can serve, and the one reading of
//! a node's declared feature capability.
//!
//! A declaration is a list of words separated by commas or by `+`; blanks
//! around a word are ignored and empty words are dropped. Each word must be
//! a stage's name exactly, in lowercase; any other word is refused by name,
//! never dropped. The stages come back in path order, each at most once.
use vstd::prelude::*;

use crate::text::{
    chars_of, copy_range, join, lacks, push_joined, push_str, same_chars, trim, trim_bounds,
    trim_end, trim_start, views,
};

verus! {

/// A stage of the message path, in path order.
#[derive(Clone, Copy, Debug, PartialEq, Eq, Structural, Hash, PartialOrd, Ord)]
pub enum Stage {
    Receive,
    Process,
    Send,
}

/// The canonical word of a stage.
pub open spec fn stage_word(s: Stage) -> Seq<char> {
    match s {
        Stage::Receive => seq!['r', 'e', 'c', 'e', 'i', 'v', 'e'],
        Stage::Process => seq!['p', 'r', 'o', 'c', 'e', 's', 's'],
        Stage::Send => seq!['s', 'e', 'n', 'd'],
    }
}

/// The place of a stage on the message path.
pub open spec fn rank(s: Stage) -> int {
    match s {
        Stage::Receive => 0,
        Stage::Process => 1,
        Stage::Send => 2,
    }
}

/// The stage whose word is `w`, if there is one.
pub open spec fn stage_named(w: Seq<char>) -> Option<Stage> {
    if w == stage_word(Stage::Receive) {
        Some(Stage::Receive)
    } else if w == stage_word(Stage::Process) {
        Some(Stage::Process)
    } else if w == stage_word(Stage::Send) {
        Some(Stage::Send)
    } else {
        None
    }
}

/// The stages that are chosen, in path order.
pub open spec fn path_order(receive: bool, process: bool, send: bool) -> Seq<Stage> {
    (if receive { seq![Stage::Receive] } else { Seq::empty() }) + (if process {
        seq![Stage::Process]
    } else {
        Seq::empty()
    }) + (if send { seq![Stage::Send] } else { Seq::empty() })
}

/// The stages that occur in `stages`, in path order, each once.
pub open spec fn stages_in(stages: Seq<Stage>) -> Seq<Stage> {
    path_order(
        stages.contains(Stage::Receive),
        stages.contains(Stage::Process),
        stages.contains(Stage::Send),
    )
}

/// Whether `f` lists stages in strict path order: each at most once.
pub open spec fn is_path_ordered(f: Seq<Stage>) -> bool {
    forall|i: int, j: int| 0 <= i < j < f.len() ==> rank(#[trigger] f[i]) < rank(#[trigger] f[j])
}

/// Whether `c` separates the words of a declaration.
pub open spec fn is_separator(c: char) -> bool {
    c == ',' || c == '+'
}

/// The pieces of `s` between separators, in order; there is always one
/// more piece than there are separators.
pub open spec fn pieces(s: Seq<char>) -> Seq<Seq<char>>
    decreases s.len(),
{
    if s.len() == 0 {
        seq![Seq::empty()]
    } else {
        let p = pieces(s.drop_last());
        if is_separator(s.last()) {
            p.push(Seq::empty())
        } else {
            p.update(p.len() - 1, p.last().push(s.last()))
        }
    }
}

/// The pieces trimmed, without those that are left empty.
pub open spec fn kept_words(ps: Seq<Seq<char>>) -> Seq<Seq<char>>
    decreases ps.len(),
{
    if ps.len() == 0 {
        Seq::empty()
    } else {
        let w = kept_words(ps.drop_last());
        let t = trim(ps.last());
        if t.len() == 0 {
            w
        } else {
            w.push(t)
        }
    }
}

/// The words a declaration names.
pub open spec fn declared_words(raw: Seq<char>) -> Seq<Seq<char>> {
    kept_words(pieces(raw))
}

/// The words that name no stage, in order.
pub open spec fn unknown_words(ws: Seq<Seq<char>>) -> Seq<Seq<char>>
    decreases ws.len(),
{
    if ws.len() == 0 {
        Seq::empty()
    } else {
        let u = unknown_words(ws.drop_last());
        if stage_named(ws.last()) is None {
            u.push(ws.last())
        } else {
            u
        }
    }
}

/// The words of every stage, in path order.
pub open spec fn all_words() -> Seq<Seq<char>> {
    seq![stage_word(Stage::Receive), stage_word(Stage::Process), stage_word(Stage::Send)]
}

/// The refusal of a declaration that names the unknown words `u`.
pub open spec fn refusal(u: Seq<Seq<char>>) -> Seq<char> {
    "REFUSED: no capability is called "@ + join(u, ", "@) + "; a node declares "@ + join(
        all_words(),
        ", "@,
    ) + ", or nothing at all."@
}

/// What a declaration says: the stages it names in path order, or the
/// refusal of every word in it that names no stage.
pub open spec fn declaration(raw: Seq<char>) -> Result<Seq<Stage>, Seq<char>> {
    let ws = declared_words(raw);
    let u = unknown_words(ws);
    if u.len() > 0 {
        Err(refusal(u))
    } else {
        Ok(
            path_order(
                ws.contains(stage_word(Stage::Receive)),
                ws.contains(stage_word(Stage::Process)),
                ws.contains(stage_word(Stage::Send)),
            ),
        )
    }
}

/// The stage a handoff goes on to.
pub open spec fn next_stage(s: Stage) -> Option<Stage> {
    match s {
        Stage::Receive => Some(Stage::Process),
        Stage::Process => Some(Stage::Send),
        Stage::Send => None,
    }
}


/// What `views` makes of one more element.
pub proof fn lemma_views_push(v: Seq<Vec<char>>, x: Vec<char>)
    ensures
        views(v.push(x)) == views(v).push(x@),
{
    assert(views(v.push(x)) =~= views(v).push(x@));
}

/// The words of the declaration `v`: its pieces between separators,
/// trimmed, without those left empty.
fn split_words(v: &Vec<char>) -> (ws: Vec<Vec<char>>)
    ensures
        views(ws@) == declared_words(v@),
{
    let mut ws: Vec<Vec<char>> = Vec::new();
    let ghost mut done: Seq<Seq<char>> = Seq::empty();
    let mut start: usize = 0;
    let mut k: usize = 0;
    assert(v@.take(0) =~= Seq::<char>::empty());
    assert(v@.subrange(0, 0) =~= Seq::<char>::empty());
    assert(views(ws@) =~= Seq::<Seq<char>>::empty());
    while k < v.len()
        invariant
            start <= k <= v.len(),
            pieces(v@.take(k as int)) == done.push(v@.subrange(start as int, k as int)),
            views(ws@) == kept_words(done),
        decreases v.len() - k,
    {
        let c = v[k];
        let ghost before = done.push(v@.subrange(start as int, k as int));
        assert(v@.take(k + 1).drop_last() =~= v@.take(k as int));
        assert(v@.take(k + 1).last() == c);
        if c == ',' || c == '+' {
            let (a, b) = trim_bounds(v, start, k);
            let ghost piece = v@.subrange(start as int, k as int);
            assert(done.push(piece).drop_last() =~= done);
            if a < b {
                let w = copy_range(v, a, b);
                proof {
                    lemma_views_push(ws@, w);
                }
                ws.push(w);
            }
            proof {
                done = done.push(piece);
            }
            start = k + 1;
            assert(v@.subrange(start as int, k + 1) =~= Seq::<char>::empty());
            assert(pieces(v@.take(k + 1)) == before.push(Seq::empty()));
        } else {
            assert(v@.subrange(start as int, k + 1) =~= v@.subrange(start as int, k as int).push(c));
            assert(pieces(v@.take(k + 1)) =~= done.push(v@.subrange(start as int, k + 1)));
        }
        k = k + 1;
    }
    assert(v@.take(v.len() as int) =~= v@);
    let ghost piece = v@.subrange(start as int, v.len() as int);
    assert(done.push(piece).drop_last() =~= done);
    let (a, b) = trim_bounds(v, start, v.len());
    if a < b {
        let w = copy_range(v, a, b);
        proof {
            lemma_views_push(ws@, w);
        }
        ws.push(w);
    }
    ws
}

/// The words of `ws` that name no stage, in order.
fn unknown_of(ws: &Vec<Vec<char>>) -> (u: Vec<Vec<char>>)
    ensures
        views(u@) == unknown_words(views(ws@)),
{
    let ghost all = views(ws@);
    let mut u: Vec<Vec<char>> = Vec::new();
    assert(views(u@) =~= Seq::<Seq<char>>::empty());
    assert(all.take(0) =~= Seq::<Seq<char>>::empty());
    for i in 0..ws.len()
        invariant
            all == views(ws@),
            views(u@) == unknown_words(all.take(i as int)),
    {
        assert(all.take(i + 1).drop_last() =~= all.take(i as int));
        assert(all.take(i + 1).last() == ws@[i as int]@);
        if Stage::named_chars(&ws[i]).is_none() {
            let w = ws[i].clone();
            proof {
                lemma_views_push(u@, w);
            }
            u.push(w);
        }
    }
    assert(all.take(ws.len() as int) =~= all);
    u
}

/// Whether one of `ws` is `w`.
fn has_word(ws: &Vec<Vec<char>>, w: &Vec<char>) -> (r: bool)
    ensures
        r == views(ws@).contains(w@),
{
    let ghost all = views(ws@);
    for i in 0..ws.len()
        invariant
            all == views(ws@),
            forall|j: int| 0 <= j < i ==> all[j] != w@,
    {
        if same_chars(&ws[i], w) {
            assert(all[i as int] == w@);
            return true;
        }
    }
    false
}

/// The words of every stage, in path order.
fn stage_words() -> (r: Vec<Vec<char>>)
    ensures
        views(r@) == all_words(),
{
    let mut r: Vec<Vec<char>> = Vec::new();
    r.push(chars_of(Stage::Receive.name()));
    r.push(chars_of(Stage::Process.name()));
    r.push(chars_of(Stage::Send.name()));
    assert(views(r@) =~= all_words());
    r
}

/// What a stage's word looks like: a lowercase word with no separator, no
/// blank at either end, and none of the marks the other forms use.
pub proof fn lemma_word_shape(s: Stage)
    ensures
        stage_word(s).len() > 0,
        lacks(stage_word(s), ','),
        lacks(stage_word(s), '+'),
        lacks(stage_word(s), ';'),
        lacks(stage_word(s), '='),
        trim(stage_word(s)) == stage_word(s),
        stage_word(s)[0] != 'n',
{
    let w = stage_word(s);
    assert(trim_start(w) == w);
    assert(trim_end(w) == w);
}

/// Every accepted declaration lists its stages in path order, each at most
/// once.
pub proof fn lemma_declaration_in_path_order(raw: Seq<char>)
    ensures
        declaration(raw) matches Ok(st) ==> is_path_ordered(st),
{
    let ws = declared_words(raw);
    let st = path_order(
        ws.contains(stage_word(Stage::Receive)),
        ws.contains(stage_word(Stage::Process)),
        ws.contains(stage_word(Stage::Send)),
    );
    assert(is_path_ordered(st));
}

/// A stage's name names that stage; a word names a stage only when it is
/// that stage's name.
pub proof fn lemma_name_named(s: Stage, w: Seq<char>)
    ensures
        stage_named(stage_word(s)) == Some(s),
        stage_named(w) == Some(s) ==> w == stage_word(s),
{
    assert(stage_word(Stage::Receive)[0] != stage_word(Stage::Process)[0]);
    assert(stage_word(Stage::Receive)[0] != stage_word(Stage::Send)[0]);
    assert(stage_word(Stage::Process)[0] != stage_word(Stage::Send)[0]);
}

/// Stages already in path order are their own ordering.
pub proof fn lemma_stages_in_ordered(f: Seq<Stage>)
    requires
        is_path_ordered(f),
    ensures
        stages_in(f) == f,
{
    if f.len() > 3 {
        assert(rank(f[0]) < rank(f[1]));
        assert(rank(f[1]) < rank(f[2]));
        assert(rank(f[2]) < rank(f[3]));
    }
    assert(f.len() <= 3);
    if f.len() >= 2 {
        assert(rank(f[0]) < rank(f[1]));
    }
    if f.len() == 3 {
        assert(rank(f[1]) < rank(f[2]));
        assert(rank(f[0]) < rank(f[2]));
    }
    assert forall|x: Stage| #[trigger] f.contains(x) <==> exists|i: int| 0 <= i < f.len() && f[i] == x by {}
    if f.len() == 0 {
        assert(stages_in(f) =~= f);
    } else if f.len() == 1 {
        assert(f.contains(f[0]));
        assert(stages_in(f) =~= f);
    } else if f.len() == 2 {
        assert(f.contains(f[0]));
        assert(f.contains(f[1]));
        assert(stages_in(f) =~= f);
    } else {
        assert(f.contains(f[0]));
        assert(f.contains(f[1]));
        assert(f.contains(f[2]));
        assert(stages_in(f) =~= f);
    }
}

/// There is always at least one piece.
pub proof fn lemma_pieces_len(s: Seq<char>)
    ensures
        pieces(s).len() >= 1,
    decreases s.len(),
{
    if s.len() > 0 {
        lemma_pieces_len(s.drop_last());
    }
}

/// Characters that are no separator go onto the last piece.
pub proof fn lemma_pieces_extend(x: Seq<char>, y: Seq<char>)
    requires
        lacks(y, ','),
        lacks(y, '+'),
    ensures
        pieces(x + y) == pieces(x).update(pieces(x).len() - 1, pieces(x).last() + y),
    decreases y.len(),
{
    lemma_pieces_len(x);
    if y.len() == 0 {
        assert(x + y =~= x);
        assert(pieces(x).last() + y =~= pieces(x).last());
        assert(pieces(x).update(pieces(x).len() - 1, pieces(x).last()) =~= pieces(x));
    } else {
        let y1 = y.drop_last();
        lemma_pieces_extend(x, y1);
        assert((x + y).drop_last() =~= x + y1);
        assert((x + y).last() == y.last());
        assert(!is_separator(y.last()));
        assert((pieces(x).last() + y1).push(y.last()) =~= pieces(x).last() + y);
        let p1 = pieces(x + y1);
        assert(p1.len() == pieces(x).len());
        assert(p1.last() == pieces(x).last() + y1);
        assert(pieces(x + y) == p1.update(p1.len() - 1, p1.last().push(y.last())));
        assert(pieces(x + y) =~= pieces(x).update(pieces(x).len() - 1, pieces(x).last() + y));
    }
}

/// Words that hold no separator, joined by one, fall apart into themselves.
pub proof fn lemma_pieces_join(ws: Seq<Seq<char>>, sep: char)
    requires
        ws.len() > 0,
        is_separator(sep),
        forall|i: int| 0 <= i < ws.len() ==> lacks(#[trigger] ws[i], ',') && lacks(ws[i], '+'),
    ensures
        pieces(join(ws, seq![sep])) == ws,
    decreases ws.len(),
{
    if ws.len() == 1 {
        assert(lacks(ws[0], ',') && lacks(ws[0], '+'));
        lemma_pieces_extend(Seq::empty(), ws[0]);
        assert(Seq::<char>::empty() + ws[0] =~= ws[0]);
        assert(pieces(join(ws, seq![sep])) =~= ws);
    } else {
        let d = ws.drop_last();
        lemma_pieces_join(d, sep);
        let x = join(d, seq![sep]) + seq![sep];
        assert(x.drop_last() =~= join(d, seq![sep]));
        assert(pieces(x) == d.push(Seq::empty()));
        assert(lacks(ws.last(), ',') && lacks(ws.last(), '+'));
        lemma_pieces_extend(x, ws.last());
        assert(Seq::<char>::empty() + ws.last() =~= ws.last());
        assert(pieces(x + ws.last()) =~= ws);
    }
}

/// Words that trimming leaves whole and non-empty are all kept.
pub proof fn lemma_kept_words_plain(ws: Seq<Seq<char>>)
    requires
        forall|i: int| 0 <= i < ws.len() ==> trim(#[trigger] ws[i]) == ws[i] && ws[i].len() > 0,
    ensures
        kept_words(ws) == ws,
    decreases ws.len(),
{
    if ws.len() > 0 {
        lemma_kept_words_plain(ws.drop_last());
        assert(trim(ws[ws.len() - 1]) == ws[ws.len() - 1]);
        assert(ws.drop_last().push(ws.last()) =~= ws);
    }
}

/// Words that all name stages leave nothing unknown.
pub proof fn lemma_unknown_none(ws: Seq<Seq<char>>)
    requires
        forall|i: int| 0 <= i < ws.len() ==> #[trigger] stage_named(ws[i]) is Some,
    ensures
        unknown_words(ws).len() == 0,
    decreases ws.len(),
{
    if ws.len() > 0 {
        lemma_unknown_none(ws.drop_last());
        assert(stage_named(ws[ws.len() - 1]) is Some);
    }
}

/// The words of some stages name a stage exactly when it is among them.
pub proof fn lemma_words_contain(f: Seq<Stage>, s: Stage)
    ensures
        f.map_values(|t: Stage| stage_word(t)).contains(stage_word(s)) <==> f.contains(s),
{
    let ws = f.map_values(|t: Stage| stage_word(t));
    if f.contains(s) {
        let i = choose|i: int| 0 <= i < f.len() && f[i] == s;
        assert(ws[i] == stage_word(s));
    }
    if ws.contains(stage_word(s)) {
        let i = choose|i: int| 0 <= i < ws.len() && ws[i] == stage_word(s);
        lemma_name_named(s, ws[i]);
        lemma_name_named(f[i], stage_word(s));
        assert(f[i] == s);
    }
}

/// The words of stages in path order, joined by a separator, declare
/// exactly those stages.
pub proof fn lemma_declare_words(f: Seq<Stage>, sep: char)
    requires
        is_path_ordered(f),
        is_separator(sep),
    ensures
        declaration(join(f.map_values(|t: Stage| stage_word(t)), seq![sep])) == Ok::<
            Seq<Stage>,
            Seq<char>,
        >(f),
{
    let ws = f.map_values(|t: Stage| stage_word(t));
    let raw = join(ws, seq![sep]);
    if f.len() == 0 {
        assert(raw =~= Seq::<char>::empty());
        assert(pieces(raw) == seq![Seq::<char>::empty()]);
        assert(trim(Seq::<char>::empty()) =~= Seq::<char>::empty());
        let one = seq![Seq::<char>::empty()];
        assert(one.drop_last() =~= Seq::<Seq<char>>::empty());
        assert(one.last() == Seq::<char>::empty());
        assert(trim(one.last()).len() == 0);
        assert(kept_words(one) == kept_words(Seq::<Seq<char>>::empty()));
        assert(declared_words(raw) =~= Seq::<Seq<char>>::empty());
        assert(path_order(false, false, false) =~= f);
    } else {
        assert forall|i: int| 0 <= i < ws.len() implies lacks(#[trigger] ws[i], ',') && lacks(
            ws[i],
            '+',
        ) && trim(ws[i]) == ws[i] && ws[i].len() > 0 && stage_named(ws[i]) is Some by {
            lemma_word_shape(f[i]);
            lemma_name_named(f[i], ws[i]);
        }
        lemma_pieces_join(ws, sep);
        lemma_kept_words_plain(ws);
        lemma_unknown_none(ws);
        lemma_words_contain(f, Stage::Receive);
        lemma_words_contain(f, Stage::Process);
        lemma_words_contain(f, Stage::Send);
        lemma_stages_in_ordered(f);
    }
}

impl Stage {
    /// Every stage, in message-path order.
    pub const ALL: [Stage; 3] = [Stage::Receive, Stage::Process, Stage::Send];

    /// The words a node may declare, in message-path order: each stage's
    /// name.
    pub const WORDS: [&'static str; 3] = ["receive", "process", "send"];

    /// The stage's canonical word, as it appears in a scope, a flag and a
    /// published record.
    pub fn name(self) -> (r: &'static str)
        ensures
            r@ == stage_word(self),
    {
        match self {
            Stage::Receive => {
                proof {
                    reveal_strlit("receive");
                }
                "receive"
            },
            Stage::Process => {
                proof {
                    reveal_strlit("process");
                }
                "process"
            },
            Stage::Send => {
                proof {
                    reveal_strlit("send");
                }
                "send"
            },
        }
    }

    /// The stage whose word is `w`, exactly, or `None`.
    pub fn named_chars(w: &Vec<char>) -> (r: Option<Stage>)
        ensures
            r == stage_named(w@),
    {
        if same_chars(w, &chars_of(Stage::Receive.name())) {
            Some(Stage::Receive)
        } else if same_chars(w, &chars_of(Stage::Process.name())) {
            Some(Stage::Process)
        } else if same_chars(w, &chars_of(Stage::Send.name())) {
            Some(Stage::Send)
        } else {
            None
        }
    }

    /// The stage a word names, exactly and in lowercase, or `None` when no
    /// stage is called that.
    pub fn named(word: &str) -> (r: Option<Stage>)
        ensures
            r == stage_named(word@),
    {
        Stage::named_chars(&chars_of(word))
    }

    /// The stage a handoff goes on to: receive to process, process to send.
    /// Send closes the path and hands nothing on.
    pub fn next(self) -> (r: Option<Stage>)
        ensures
            r == next_stage(self),
    {
        match self {
            Stage::Receive => Some(Stage::Process),
            Stage::Process => Some(Stage::Send),
            Stage::Send => None,
        }
    }

    /// Whether an operator may pause the stage: a receive or a send location
    /// can be held; a process runs off a subscription and is not paused
    /// itself.
    pub fn pausable(self) -> (r: bool)
        ensures
            r == (self == Stage::Receive || self == Stage::Send),
    {
        match self {
            Stage::Receive | Stage::Send => true,
            Stage::Process => false,
        }
    }

    /// What a thing configured at the stage is called.
    pub fn location(self) -> (r: &'static str)
        ensures
            r@ == match self {
                Stage::Receive => "receive location"@,
                Stage::Process => "xmip process"@,
                Stage::Send => "send location"@,
            },
    {
        match self {
            Stage::Receive => "receive location",
            Stage::Process => "xmip process",
            Stage::Send => "send location",
        }
    }

    /// The stages a declaration names: words separated by commas or by `+`,
    /// blanks ignored, returned in message-path order and each at most once.
    /// The empty declaration declares no stage, which is a real answer.
    ///
    /// # Errors
    ///
    /// When any word is no stage: REFUSED, naming every such word and the
    /// words a node may declare.
    pub fn declared(raw: &str) -> (r: Result<Vec<Stage>, String>)
        ensures
            match r {
                Ok(v) => declaration(raw@) == Ok::<Seq<Stage>, Seq<char>>(v@),
                Err(e) => declaration(raw@) == Err::<Seq<Stage>, Seq<char>>(e@),
            },
    {
        Stage::declared_chars(&chars_of(raw))
    }

    /// The stages the declaration `v` names, as [`Stage::declared`] reads
    /// them.
    pub(crate) fn declared_chars(v: &Vec<char>) -> (r: Result<Vec<Stage>, String>)
        ensures
            match r {
                Ok(st) => declaration(v@) == Ok::<Seq<Stage>, Seq<char>>(st@),
                Err(e) => declaration(v@) == Err::<Seq<Stage>, Seq<char>>(e@),
            },
    {
        let ws = split_words(v);
        let u = unknown_of(&ws);
        if u.len() > 0 {
            let mut m = String::new();
            push_str(&mut m, "REFUSED: no capability is called ");
            push_joined(&mut m, &u, ", ");
            push_str(&mut m, "; a node declares ");
            push_joined(&mut m, &stage_words(), ", ");
            push_str(&mut m, ", or nothing at all.");
            return Err(m);
        }
        let mut out: Vec<Stage> = Vec::new();
        if has_word(&ws, &chars_of(Stage::Receive.name())) {
            out.push(Stage::Receive);
        }
        if has_word(&ws, &chars_of(Stage::Process.name())) {
            out.push(Stage::Process);
        }
        if has_word(&ws, &chars_of(Stage::Send.name())) {
            out.push(Stage::Send);
        }
        assert(out@ =~= path_order(
            views(ws@).contains(stage_word(Stage::Receive)),
            views(ws@).contains(stage_word(Stage::Process)),
            views(ws@).contains(stage_word(Stage::Send)),
        ));
        Ok(out)
    }
}

} // verus!
