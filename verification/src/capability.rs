//! What a node declares it can do, and the two forms it says it in.
//!
//! Two kinds of capability are modelled: the feature capability (which
//! [`Stage`]s of the message path the node can serve; a node that declares
//! none runs whole tests itself) and the online capability (whether a route
//! off this machine may be assumed). Authentication and runtime capability
//! are not modelled, and the evidence a node publishes says so.
//!
//! A declaration is said in two forms, each written and read here: the
//! evidence a node publishes about itself (`declares receive,send; online;
//! ...`) and the entry a run lists it by (`edge-01=receive+send`, or the bare
//! name for a node that declares no stage).
use vstd::prelude::*;

use crate::stage::{
    declaration, lemma_declare_words, lemma_word_shape, stage_word, stages_in, Stage,
};
use crate::text::{
    after_first, before_first, chars_of, copy_range, first_index, join, lacks, lemma_first_at,
    lemma_first_none, lemma_first_past, lemma_join_first, lemma_join_lacks, occurs, occurs_in,
    push_joined, push_str, same_chars, trim, trim_bounds, views,
};

verus! {

/// What a node that declares no stage publishes in place of the words.
pub const NO_STAGE: &'static str = "no stage of the message path";

/// What the evidence of a declaration starts with.
pub const DECLARES: &'static str = "declares ";

/// What evidence says of the online capability when it is declared.
pub const ONLINE_MARK: &'static str = "; online;";

/// What the evidence says after the online capability.
pub const NOT_MODELLED: &'static str = "; authentication and runtime capability are not modelled in this rig";

/// What one node declared it can do.
#[derive(Debug, PartialEq, Eq)]
pub struct Capability {
    /// Online capability: a route off this machine may be assumed.
    online: bool,
    /// Feature capability: the stages of the message path this node serves,
    /// in message-path order, each at most once.
    features: Vec<Stage>,
}

/// The mathematical content of a capability.
#[verifier::ext_equal]
pub struct CapabilityView {
    pub online: bool,
    pub features: Seq<Stage>,
}

impl CapabilityView {
    /// Whether the features are in path order, each at most once, as every
    /// capability holds them.
    pub open spec fn wf(self) -> bool {
        crate::stage::is_path_ordered(self.features)
    }
}

impl Capability {
    /// Every capability lists its features in path order, each at most once.
    #[verifier::type_invariant]
    spec fn features_in_path_order(self) -> bool {
        crate::stage::is_path_ordered(self.features@)
    }
}

impl View for Capability {
    type V = CapabilityView;

    closed spec fn view(&self) -> CapabilityView {
        CapabilityView { online: self.online, features: self.features@ }
    }
}

/// The capability declaring `stages`: offline, its features in path order.
pub open spec fn capability_of(stages: Seq<Stage>) -> CapabilityView {
    CapabilityView { online: false, features: stages_in(stages) }
}

/// The words of the features, with `sep` between each two of them.
pub open spec fn feature_words(features: Seq<Stage>, sep: Seq<char>) -> Seq<char> {
    join(features.map_values(|s: Stage| stage_word(s)), sep)
}

/// The word a health record carries for the online capability.
pub open spec fn online_word(online: bool) -> Seq<char> {
    if online {
        "online"@
    } else {
        "offline"@
    }
}

/// What the evidence says the node declares: its feature words, or that
/// it declares no stage.
pub open spec fn declared_part(c: CapabilityView) -> Seq<char> {
    if c.features.len() == 0 {
        NO_STAGE@
    } else {
        feature_words(c.features, ","@)
    }
}

/// The evidence a capability publishes.
pub open spec fn evidence_text(c: CapabilityView) -> Seq<char> {
    DECLARES@ + declared_part(c) + "; "@ + online_word(c.online) + NOT_MODELLED@
}

/// What an evidence line says it declares: what stands between `declares `
/// and the first `;`, or nothing when the line does not start so.
pub open spec fn said_part(e: Seq<char>) -> Seq<char> {
    if e.len() >= DECLARES@.len() && e.take(DECLARES@.len() as int) == DECLARES@ {
        before_first(e.skip(DECLARES@.len() as int), ';')
    } else {
        Seq::empty()
    }
}

/// The capability an evidence line says, or the refusal of its declaration.
pub open spec fn evidence_reading(e: Seq<char>) -> Result<CapabilityView, Seq<char>> {
    let said = said_part(e);
    let stages = if said == NO_STAGE@ {
        Ok(Seq::<Stage>::empty())
    } else {
        declaration(said)
    };
    match stages {
        Ok(st) => Ok(CapabilityView { online: occurs(e, ONLINE_MARK@), features: stages_in(st) }),
        Err(m) => Err(m),
    }
}

/// The capability a declaration names, or its refusal.
pub open spec fn parse_reading(raw: Seq<char>) -> Result<CapabilityView, Seq<char>> {
    match declaration(raw) {
        Ok(st) => Ok(capability_of(st)),
        Err(m) => Err(m),
    }
}

/// The entry a run lists a node named `name` by.
pub open spec fn entry_text(c: CapabilityView, name: Seq<char>) -> Seq<char> {
    if c.features.len() == 0 {
        name
    } else {
        name + "="@ + feature_words(c.features, "+"@)
    }
}

/// Whether `r` is the reading `spec` says, the capability taken by its view.
pub open spec fn reads_as(
    r: Result<Capability, String>,
    spec: Result<CapabilityView, Seq<char>>,
) -> bool {
    match (r, spec) {
        (Ok(c), Ok(v)) => c@ == v,
        (Err(e), Err(m)) => e@ == m,
        _ => false,
    }
}


/// The words of stages in path order, joined by `sep`, lack every mark the
/// words lack.
proof fn lemma_feature_words_lack(f: Seq<Stage>, sep: char, c: char)
    requires
        c == ';' || c == '=',
        sep != c,
    ensures
        lacks(feature_words(f, seq![sep]), c),
{
    let ws = f.map_values(|t: Stage| stage_word(t));
    assert forall|i: int| 0 <= i < ws.len() implies lacks(#[trigger] ws[i], c) by {
        lemma_word_shape(f[i]);
    }
    lemma_join_lacks(ws, seq![sep], c);
}


/// The evidence a capability publishes, written out: `declares `, then the
/// words of its stages joined by commas, or `no stage of the message path`
/// when it declares none, whatever its online capability; then its online
/// word and what is not modelled.
pub proof fn lemma_evidence_written(c: CapabilityView)
    ensures
        evidence_text(c) == "declares "@ + (if c.features.len() == 0 {
            "no stage of the message path"@
        } else {
            feature_words(c.features, ","@)
        }) + "; "@ + (if c.online {
            "online"@
        } else {
            "offline"@
        }) + "; authentication and runtime capability are not modelled in this rig"@,
{
}

/// What the evidence says a node declares depends on its stages alone, not
/// on its online capability.
pub proof fn lemma_evidence_declaration_ignores_online(c1: CapabilityView, c2: CapabilityView)
    requires
        c1.features == c2.features,
    ensures
        said_part(evidence_text(c1)) == said_part(evidence_text(c2)),
        said_part(evidence_text(c1)) == if c1.features.len() == 0 {
            "no stage of the message path"@
        } else {
            feature_words(c1.features, ","@)
        },
{
    lemma_said_of_evidence(c1);
    lemma_said_of_evidence(c2);
}

/// What the evidence of a capability says it declares.
proof fn lemma_said_of_evidence(c: CapabilityView)
    ensures
        said_part(evidence_text(c)) == declared_part(c),
{
    reveal_strlit("declares ");
    reveal_strlit("no stage of the message path");
    reveal_strlit("; ");
    let e = evidence_text(c);
    let d = declared_part(c);
    let tail = "; "@ + online_word(c.online) + NOT_MODELLED@;
    assert(e =~= DECLARES@ + d + tail);
    assert(e.take(9) =~= DECLARES@);
    assert(e.skip(9) =~= d + tail);
    if c.features.len() == 0 {
        assert(lacks(NO_STAGE@, ';'));
    } else {
        reveal_strlit(",");
        assert(","@ =~= seq![',']);
        lemma_feature_words_lack(c.features, ',', ';');
    }
    lemma_first_past(d, tail, ';');
    assert(tail[0] == ';');
    assert(before_first(tail, ';') =~= Seq::<char>::empty());
    assert(d + Seq::<char>::empty() =~= d);
}


/// An evidence line declares what stands between its leading `declares `
/// and its first `;`; a line that does not start with `declares ` declares
/// nothing.
pub proof fn lemma_evidence_declares(x: Seq<char>, y: Seq<char>, e: Seq<char>)
    requires
        lacks(x, ';'),
    ensures
        said_part("declares "@ + x + ";"@ + y) == x,
        !(e.len() >= 9 && e.take(9) == "declares "@) ==> said_part(e) == Seq::<char>::empty(),
{
    reveal_strlit("declares ");
    reveal_strlit(";");
    let whole = "declares "@ + x + ";"@ + y;
    assert(whole.take(9) =~= "declares "@);
    assert(whole.skip(9) =~= x + seq![';'] + y);
    lemma_first_at(x, y, ';');
}

/// An evidence line read as a capability is online exactly when the line
/// holds `; online;`.
pub proof fn lemma_online_by_mark(e: Seq<char>)
    ensures
        evidence_reading(e) matches Ok(c) ==> (c.online <==> occurs(e, "; online;"@)),
{
}

/// The declaration a capability's words make reads back as that capability,
/// offline: what `words` writes, `parse` reads.
pub proof fn lemma_parse_words(c: CapabilityView)
    requires
        c.wf(),
    ensures
        parse_reading(feature_words(c.features, ","@)) == Ok::<CapabilityView, Seq<char>>(
            CapabilityView { online: false, features: c.features },
        ),
{
    reveal_strlit(",");
    assert(","@ =~= seq![',']);
    lemma_declare_words(c.features, ',');
    crate::stage::lemma_stages_in_ordered(c.features);
}

/// What a node publishes reads back as what it declared: the evidence of a
/// capability is read as that same capability, online or not.
pub proof fn lemma_evidence_round_trip(c: CapabilityView)
    requires
        c.wf(),
    ensures
        evidence_reading(evidence_text(c)) == Ok::<CapabilityView, Seq<char>>(c),
{
    reveal_strlit("declares ");
    reveal_strlit("no stage of the message path");
    reveal_strlit("; ");
    reveal_strlit(",");
    reveal_strlit("online");
    reveal_strlit("offline");
    reveal_strlit("; online;");
    reveal_strlit("; authentication and runtime capability are not modelled in this rig");
    let e = evidence_text(c);
    let d = declared_part(c);
    let tail = "; "@ + online_word(c.online) + NOT_MODELLED@;
    assert(e =~= DECLARES@ + d + tail);
    assert(e.take(9) =~= DECLARES@);
    assert(e.skip(9) =~= d + tail);
    assert(","@ =~= seq![',']);
    if c.features.len() == 0 {
        assert(lacks(NO_STAGE@, ';'));
    } else {
        lemma_feature_words_lack(c.features, ',', ';');
    }
    lemma_first_past(d, tail, ';');
    assert(tail[0] == ';');
    assert(before_first(tail, ';') =~= Seq::<char>::empty());
    assert(d + Seq::<char>::empty() =~= d);
    assert(said_part(e) == d);
    if c.features.len() > 0 {
        let ws = c.features.map_values(|t: Stage| stage_word(t));
        lemma_word_shape(c.features[0]);
        lemma_join_first(ws, ","@);
        assert(d[0] != NO_STAGE@[0]);
        lemma_parse_words(c);
        crate::stage::lemma_stages_in_ordered(c.features);
    } else {
        assert(stages_in(Seq::<Stage>::empty()) =~= c.features);
    }
    let pat = ONLINE_MARK@;
    let at: int = 9 + d.len() as int;
    if c.online {
        assert(e.subrange(at, at + 9) =~= pat);
        assert(occurs(e, pat));
    } else {
        assert(lacks(DECLARES@ + d, ';')) by {
            assert(lacks(DECLARES@, ';'));
            assert forall|i: int| 0 <= i < (DECLARES@ + d).len() implies (DECLARES@ + d)[i]
                != ';' by {
                if i >= 9 {
                    assert((DECLARES@ + d)[i] == d[i - 9]);
                }
            }
        }
        let rest = NOT_MODELLED@.drop_first();
        assert(lacks(rest, ';'));
        assert forall|i: int| 0 <= i && i + 9 <= e.len() implies #[trigger] e.subrange(
            i,
            i + 9,
        ) != pat by {
            if e.subrange(i, i + 9) == pat {
                assert(e[i] == e.subrange(i, i + 9)[0]);
                assert(e[i + 2] == e.subrange(i, i + 9)[2]);
                assert(e[i + 3] == e.subrange(i, i + 9)[3]);
                if i < at {
                    assert(e[i] == (DECLARES@ + d)[i]);
                } else if i == at {
                    assert(e[i + 3] == 'f');
                } else if i < at + 9 {
                    assert(e[i] == tail[i - at]);
                } else if i == at + 9 {
                    assert(e[i + 2] == 'a');
                } else {
                    assert(e[i] == rest[i - at - 10]);
                }
            }
        }
    }
}

/// An entry read back names the node, trimmed, and the capability it was
/// started with; the online capability, which an entry does not carry,
/// reads as offline.
pub proof fn lemma_entry_round_trip(c: CapabilityView, name: Seq<char>)
    requires
        c.wf(),
        lacks(name, '='),
    ensures
        trim(before_first(entry_text(c, name), '=')) == trim(name),
        parse_reading(after_first(entry_text(c, name), '=')) == Ok::<CapabilityView, Seq<char>>(
            CapabilityView { online: false, features: c.features },
        ),
{
    reveal_strlit("=");
    reveal_strlit("+");
    if c.features.len() == 0 {
        lemma_first_none(name, '=');
        lemma_declare_words(c.features, '+');
        assert(c.features.map_values(|t: Stage| stage_word(t)) =~= Seq::<Seq<char>>::empty());
        assert(stages_in(Seq::<Stage>::empty()) =~= c.features);
    } else {
        let w = feature_words(c.features, "+"@);
        assert("="@ =~= seq!['=']);
        assert("+"@ =~= seq!['+']);
        assert(entry_text(c, name) =~= name + seq!['='] + w);
        lemma_first_at(name, w, '=');
        lemma_declare_words(c.features, '+');
        crate::stage::lemma_stages_in_ordered(c.features);
    }
}

/// Whether `stages` holds `stage`.
fn holds(stages: &[Stage], stage: Stage) -> (r: bool)
    ensures
        r == stages@.contains(stage),
{
    for i in 0..stages.len()
        invariant
            forall|j: int| 0 <= j < i ==> stages@[j] != stage,
    {
        if stages[i] == stage {
            assert(stages@[i as int] == stage);
            return true;
        }
    }
    false
}

impl Capability {
    /// A node that declares nothing: no stage of the message path, offline.
    pub fn none() -> (r: Self)
        ensures
            r@ == (CapabilityView { online: false, features: Seq::empty() }),
    {
        Capability { online: false, features: Vec::new() }
    }

    /// The capability declaring these stages, in message-path order.
    pub fn of(stages: &[Stage]) -> (r: Self)
        ensures
            r@ == capability_of(stages@),
            r@.wf(),
    {
        let mut features: Vec<Stage> = Vec::new();
        if holds(stages, Stage::Receive) {
            features.push(Stage::Receive);
        }
        if holds(stages, Stage::Process) {
            features.push(Stage::Process);
        }
        if holds(stages, Stage::Send) {
            features.push(Stage::Send);
        }
        assert(features@ =~= stages_in(stages@));
        Capability { online: false, features }
    }

    /// The capability a declaration names, read by [`Stage::declared`]: the
    /// stage words, separated by commas or by `+`, lowercase exactly. Empty
    /// declares nothing.
    ///
    /// # Errors
    ///
    /// When a word is no capability: REFUSED, naming the word and the values
    /// it would take.
    pub fn parse(raw: &str) -> (r: Result<Self, String>)
        ensures
            reads_as(r, parse_reading(raw@)),
            r matches Ok(c) ==> c@.wf(),
    {
        Capability::parse_chars(&chars_of(raw))
    }

    /// The capability the declaration `v` names, as [`Capability::parse`]
    /// reads it.
    fn parse_chars(v: &Vec<char>) -> (r: Result<Self, String>)
        ensures
            reads_as(r, parse_reading(v@)),
            r matches Ok(c) ==> c@.wf(),
    {
        match Stage::declared_chars(v) {
            Ok(stages) => Ok(Capability::of(stages.as_slice())),
            Err(m) => Err(m),
        }
    }

    /// The same capability with its online capability said.
    pub fn with_online(self, online: bool) -> (r: Self)
        ensures
            r@ == (CapabilityView { online, features: self@.features }),
    {
        proof {
            use_type_invariant(&self);
        }
        let mut c = self;
        c.online = online;
        c
    }

    /// Whether a route off this machine may be assumed.
    pub fn is_online(&self) -> (r: bool)
        ensures
            r == self@.online,
    {
        self.online
    }

    /// The stages of the message path this node serves, in path order.
    pub fn features(&self) -> (r: &[Stage])
        ensures
            r@ == self@.features,
    {
        self.features.as_slice()
    }

    /// Whether this node can serve `stage`.
    pub fn can(&self, stage: Stage) -> (r: bool)
        ensures
            r == self@.features.contains(stage),
    {
        holds(self.features.as_slice(), stage)
    }

    /// Whether this node declares no stage of the message path: it runs
    /// whole tests itself, as every node did before capabilities.
    pub fn declares_no_stage(&self) -> (r: bool)
        ensures
            r == (self@.features.len() == 0),
    {
        self.features.len() == 0
    }

    /// The feature capability as a declaration: `receive,process`, or the
    /// empty string when none is declared.
    pub fn words(&self) -> (r: String)
        ensures
            r@ == feature_words(self@.features, ","@),
            self@.wf(),
    {
        proof {
            use_type_invariant(self);
        }
        self.joined(",")
    }

    /// The word a health record carries for the online capability.
    pub fn word(&self) -> (r: &'static str)
        ensures
            r@ == online_word(self@.online),
    {
        if self.online {
            "online"
        } else {
            "offline"
        }
    }

    /// What the node's own capability record says, so a surface reads a
    /// node's capabilities from the snapshot and never from its name.
    pub fn evidence(&self) -> (r: String)
        ensures
            r@ == evidence_text(self@),
            self@.wf(),
    {
        proof {
            use_type_invariant(self);
        }
        let mut r = String::new();
        push_str(&mut r, DECLARES);
        if self.declares_no_stage() {
            push_str(&mut r, NO_STAGE);
        } else {
            let words = self.words();
            push_str(&mut r, words.as_str());
        }
        push_str(&mut r, "; ");
        push_str(&mut r, self.word());
        push_str(&mut r, NOT_MODELLED);
        r
    }

    /// The capability an evidence line says, read through the same parse as
    /// a declaration. A line that is no declaration at all declares nothing,
    /// offline unless it says `; online;`.
    ///
    /// # Errors
    ///
    /// When the declaration names a word that is no capability: REFUSED, as
    /// [`Stage::declared`] says it; never read as the words that were known.
    pub fn from_evidence(evidence: &str) -> (r: Result<Self, String>)
        ensures
            reads_as(r, evidence_reading(evidence@)),
            r matches Ok(c) ==> c@.wf(),
    {
        let v = chars_of(evidence);
        let prefix = chars_of(DECLARES);
        let said: Vec<char> = if v.len() >= prefix.len() && same_chars(
            &copy_range(&v, 0, prefix.len()),
            &prefix,
        ) {
            let rest = copy_range(&v, prefix.len(), v.len());
            assert(rest@ =~= v@.skip(DECLARES@.len() as int));
            let k = first_index(&rest, ';');
            copy_range(&rest, 0, k)
        } else {
            Vec::new()
        };
        assert(said@ =~= said_part(v@));
        let online = occurs_in(&v, &chars_of(ONLINE_MARK));
        if same_chars(&said, &chars_of(NO_STAGE)) {
            let none: [Stage; 0] = [];
            let c = Capability::of(&none);
            assert(none@ =~= Seq::<Stage>::empty());
            Ok(c.with_online(online))
        } else {
            match Stage::declared_chars(&said) {
                Ok(stages) => Ok(Capability::of(stages.as_slice()).with_online(online)),
                Err(m) => Err(m),
            }
        }
    }

    /// The node as a run lists it: `edge-01=receive+send`, or the bare name
    /// when it declares no stage. It says nothing of the online capability,
    /// which a run lists apart.
    pub fn entry(&self, name: &str) -> (r: String)
        ensures
            r@ == entry_text(self@, name@),
            self@.wf(),
    {
        proof {
            use_type_invariant(self);
        }
        let mut r = String::new();
        push_str(&mut r, name);
        if !self.declares_no_stage() {
            push_str(&mut r, "=");
            let joined = self.joined("+");
            push_str(&mut r, joined.as_str());
        }
        r
    }

    /// An entry read back: the name before the first `=`, trimmed, and the
    /// capability the rest declares, or, when it names a word that is no
    /// capability, the refusal [`Capability::parse`] gives. Whatever the node
    /// is called is read as a name and nothing else, refused or not.
    pub fn from_entry(entry: &str) -> (r: (&str, Result<Self, String>))
        ensures
            r.0@ == trim(before_first(entry@, '=')),
            reads_as(r.1, parse_reading(after_first(entry@, '='))),
            r.1 matches Ok(c) ==> c@.wf(),
    {
        let v = chars_of(entry);
        let k = first_index(&v, '=');
        let (a, b) = trim_bounds(&v, 0, k);
        assert(v@.subrange(0, k as int) =~= v@.take(k as int));
        let name = entry.substring_char(a, b);
        let rest = if k < v.len() {
            copy_range(&v, k + 1, v.len())
        } else {
            Vec::new()
        };
        assert(rest@ =~= after_first(v@, '='));
        (name, Capability::parse_chars(&rest))
    }

    /// The feature words joined by `separator`.
    fn joined(&self, separator: &str) -> (r: String)
        ensures
            r@ == feature_words(self@.features, separator@),
    {
        let mut names: Vec<Vec<char>> = Vec::new();
        for i in 0..self.features.len()
            invariant
                views(names@) == self.features@.take(i as int).map_values(
                    |s: Stage| stage_word(s),
                ),
        {
            let w = chars_of(self.features[i].name());
            proof {
                crate::stage::lemma_views_push(names@, w);
            }
            names.push(w);
            assert(self.features@.take(i + 1).map_values(|s: Stage| stage_word(s))
                =~= self.features@.take(i as int).map_values(|s: Stage| stage_word(s)).push(
                stage_word(self.features@[i as int]),
            ));
        }
        assert(self.features@.take(self.features.len() as int) =~= self.features@);
        let mut r = String::new();
        push_joined(&mut r, &names, separator);
        r
    }
}

impl Clone for Capability {
    /// The same capability.
    fn clone(&self) -> (r: Self)
        ensures
            r@ == self@,
    {
        proof {
            use_type_invariant(self);
        }
        let mut features: Vec<Stage> = Vec::new();
        for i in 0..self.features.len()
            invariant
                features@ == self.features@.take(i as int),
        {
            features.push(self.features[i]);
            assert(self.features@.take(i + 1) =~= self.features@.take(i as int).push(
                self.features@[i as int],
            ));
        }
        assert(self.features@.take(self.features.len() as int) =~= self.features@);
        Capability { online: self.online, features }
    }
}

impl Default for Capability {
    /// A node that declares nothing.
    fn default() -> (r: Self)
        ensures
            r@ == (CapabilityView { online: false, features: Seq::empty() }),
    {
        Capability::none()
    }
}

} // verus!
