//! What a System Process says of itself: its name, its location and its
//! purpose.
//!
//! The name finds a process (every one is `xmip-<what>`) and the
//! declaration says what it is for. A process writes its declaration as
//! TOML to one file named for it and its pid; this module computes that
//! file's name and text, and whoever writes and removes the file hands it
//! the pid, the start time and the executable's path.
use vstd::prelude::*;

use crate::text::{
    chars_of, count, lacks, lemma_count_concat, lemma_count_lacks, lemma_count_once, push_str, trim,
    trim_bounds, trim_end, trim_start,
};
use crate::toml::{
    decimal, is_plain, lemma_decimal_plain, lemma_quoted_plain, push_decimal, push_quoted, quoted,
};

verus! {

/// What a System Process is for.
#[derive(Clone, Copy, Debug, PartialEq, Eq, Structural)]
pub enum Purpose {
    /// The Playground and everything it spawns, and whatever a test started.
    Test,
    /// Everything else: the product doing its work.
    Runtime,
}

/// The word written in a declaration for a purpose.
pub open spec fn purpose_word(p: Purpose) -> Seq<char> {
    match p {
        Purpose::Test => seq!['t', 'e', 's', 't'],
        Purpose::Runtime => seq!['r', 'u', 'n', 't', 'i', 'm', 'e'],
    }
}

/// `c` in lowercase, when it is an ASCII capital; `c` itself otherwise.
pub open spec fn ascii_lower(c: char) -> char {
    if 'A' <= c && c <= 'Z' {
        ((c as int) + 32) as char
    } else {
        c
    }
}

/// Whether `w` is `test`, ASCII letters compared without regard to case.
pub open spec fn is_test_word(w: Seq<char>) -> bool {
    &&& w.len() == 4
    &&& forall|i: int| 0 <= i < 4 ==> ascii_lower(#[trigger] w[i]) == purpose_word(Purpose::Test)[i]
}

/// The purpose a word names: test when the word, trimmed, is `test` in any
/// case; runtime otherwise.
pub open spec fn purpose_named(w: Seq<char>) -> Purpose {
    if is_test_word(trim(w)) {
        Purpose::Test
    } else {
        Purpose::Runtime
    }
}



/// A word names the test purpose exactly when, trimmed of blanks, it is the
/// four letters `t`, `e`, `s`, `t`, each in either case; every other word
/// names runtime.
pub proof fn lemma_test_word(w: Seq<char>)
    ensures
        purpose_named(w) == Purpose::Test <==> ({
            let t = trim(w);
            &&& t.len() == 4
            &&& (t[0] == 't' || t[0] == 'T')
            &&& (t[1] == 'e' || t[1] == 'E')
            &&& (t[2] == 's' || t[2] == 'S')
            &&& (t[3] == 't' || t[3] == 'T')
        }),
{
    let t = trim(w);
    let test = purpose_word(Purpose::Test);
    if t.len() == 4 {
        assert(ascii_lower(t[0]) == test[0] <==> (t[0] == 't' || t[0] == 'T'));
        assert(ascii_lower(t[1]) == test[1] <==> (t[1] == 'e' || t[1] == 'E'));
        assert(ascii_lower(t[2]) == test[2] <==> (t[2] == 's' || t[2] == 'S'));
        assert(ascii_lower(t[3]) == test[3] <==> (t[3] == 't' || t[3] == 'T'));
        if is_test_word(t) {
            assert(ascii_lower(t[0]) == test[0]);
            assert(ascii_lower(t[1]) == test[1]);
            assert(ascii_lower(t[2]) == test[2]);
            assert(ascii_lower(t[3]) == test[3]);
        }
    }
}

/// The word of a purpose names that purpose.
pub proof fn lemma_purpose_round_trip(p: Purpose)
    ensures
        purpose_named(purpose_word(p)) == p,
{
    let w = purpose_word(p);
    assert(trim_start(w) == w);
    assert(trim_end(w) == w);
    if p == Purpose::Test {
        assert(is_test_word(w));
    }
}

/// Text without control characters has no line break.
proof fn lemma_plain_one_line(s: Seq<char>)
    requires
        is_plain(s),
    ensures
        count(s, '\n') == 0,
{
    assert(lacks(s, '\n'));
    lemma_count_lacks(s, '\n');
}

/// A key that starts a new line.
proof fn lemma_key_line(key: Seq<char>)
    requires
        key.len() > 0,
        key[0] == '\n',
        lacks(key.drop_first(), '\n'),
    ensures
        count(key, '\n') == 1,
{
    lemma_count_once(key, '\n');
}

/// A declaration is one line per key: the text holds exactly six line
/// breaks, whatever the name, location and path hold, since no quoted
/// value and no number holds one.
pub proof fn lemma_toml_one_line_per_key(
    name: Seq<char>,
    location: Seq<char>,
    purpose: Purpose,
    pid: nat,
    started_unix: nat,
    path: Seq<char>,
)
    ensures
        count(toml_text(name, location, purpose, pid, started_unix, path), '\n') == 6,
        count(quoted(name), '\n') == 0,
        count(quoted(location), '\n') == 0,
        count(quoted(path), '\n') == 0,
{
    reveal_strlit("name = ");
    reveal_strlit("\nlocation = ");
    reveal_strlit("\npurpose = ");
    reveal_strlit("\npid = ");
    reveal_strlit("\nstarted_unix = ");
    reveal_strlit("\npath = ");
    reveal_strlit("\n");
    let nl = '\n';
    let p0 = "name = "@;
    let q1 = quoted(name);
    let p1 = "\nlocation = "@;
    let q2 = quoted(location);
    let p2 = "\npurpose = "@;
    let q3 = quoted(purpose_word(purpose));
    let p3 = "\npid = "@;
    let d1 = decimal(pid);
    let p4 = "\nstarted_unix = "@;
    let d2 = decimal(started_unix);
    let p5 = "\npath = "@;
    let q4 = quoted(path);
    let p6 = "\n"@;
    assert(lacks(p0, nl));
    lemma_count_lacks(p0, nl);
    lemma_quoted_plain(name);
    lemma_plain_one_line(q1);
    lemma_quoted_plain(location);
    lemma_plain_one_line(q2);
    lemma_quoted_plain(purpose_word(purpose));
    lemma_plain_one_line(q3);
    lemma_quoted_plain(path);
    lemma_plain_one_line(q4);
    lemma_decimal_plain(pid);
    lemma_plain_one_line(d1);
    lemma_decimal_plain(started_unix);
    lemma_plain_one_line(d2);
    lemma_key_line(p1);
    lemma_key_line(p2);
    lemma_key_line(p3);
    lemma_key_line(p4);
    lemma_key_line(p5);
    assert(p6.drop_first() =~= Seq::<char>::empty());
    lemma_key_line(p6);
    let s1 = p0 + q1;
    lemma_count_concat(p0, q1, nl);
    let s2 = s1 + p1;
    lemma_count_concat(s1, p1, nl);
    let s3 = s2 + q2;
    lemma_count_concat(s2, q2, nl);
    let s4 = s3 + p2;
    lemma_count_concat(s3, p2, nl);
    let s5 = s4 + q3;
    lemma_count_concat(s4, q3, nl);
    let s6 = s5 + p3;
    lemma_count_concat(s5, p3, nl);
    let s7 = s6 + d1;
    lemma_count_concat(s6, d1, nl);
    let s8 = s7 + p4;
    lemma_count_concat(s7, p4, nl);
    let s9 = s8 + d2;
    lemma_count_concat(s8, d2, nl);
    let s10 = s9 + p5;
    lemma_count_concat(s9, p5, nl);
    let s11 = s10 + q4;
    lemma_count_concat(s10, q4, nl);
    let s12 = s11 + p6;
    lemma_count_concat(s11, p6, nl);
    assert(s12 == toml_text(name, location, purpose, pid, started_unix, path));
}

/// `c` in lowercase, when it is an ASCII capital.
fn to_ascii_lower(c: char) -> (r: char)
    ensures
        r == ascii_lower(c),
{
    if 'A' <= c && c <= 'Z' {
        ((c as u8) + 32) as char
    } else {
        c
    }
}

impl Purpose {
    /// The word written in a declaration.
    pub fn word(self) -> (r: &'static str)
        ensures
            r@ == purpose_word(self),
    {
        match self {
            Purpose::Test => {
                proof {
                    reveal_strlit("test");
                }
                "test"
            },
            Purpose::Runtime => {
                proof {
                    reveal_strlit("runtime");
                }
                "runtime"
            },
        }
    }

    /// The purpose a word names; anything that is not `test` is runtime,
    /// because a process is runtime unless what started it says otherwise.
    pub fn named(word: &str) -> (r: Self)
        ensures
            r == purpose_named(word@),
    {
        let v = chars_of(word);
        let (a, b) = trim_bounds(&v, 0, v.len());
        assert(v@.subrange(0, v.len() as int) =~= word@);
        let test = chars_of(Purpose::Test.word());
        if b - a != 4 {
            return Purpose::Runtime;
        }
        let ghost t = v@.subrange(a as int, b as int);
        for i in 0..4
            invariant
                b - a == 4,
                a <= b <= v.len(),
                t == v@.subrange(a as int, b as int),
                t == trim(word@),
                test@ == purpose_word(Purpose::Test),
                forall|j: int| 0 <= j < i ==> ascii_lower(#[trigger] t[j]) == purpose_word(
                    Purpose::Test,
                )[j],
        {
            if to_ascii_lower(v[a + i]) != test[i] {
                assert(t[i as int] == v@[a + i]);
                assert(ascii_lower(t[i as int]) != purpose_word(Purpose::Test)[i as int]);
                return Purpose::Runtime;
            }
        }
        Purpose::Test
    }
}

/// The three things a System Process says of itself.
#[derive(Clone, Debug, PartialEq, Eq)]
pub struct Declaration {
    /// What it is: `xmip-<what>`, the name the operating system schedules.
    pub name: String,
    /// Where in Xmip it belongs: the scope it serves, or the surface it
    /// reads where it serves none.
    pub location: String,
    /// Test or runtime.
    pub purpose: Purpose,
}

/// The TOML a declaration is written as: one line per key.
pub open spec fn toml_text(
    name: Seq<char>,
    location: Seq<char>,
    purpose: Purpose,
    pid: nat,
    started_unix: nat,
    path: Seq<char>,
) -> Seq<char> {
    "name = "@ + quoted(name) + "\nlocation = "@ + quoted(location) + "\npurpose = "@ + quoted(
        purpose_word(purpose),
    ) + "\npid = "@ + decimal(pid) + "\nstarted_unix = "@ + decimal(started_unix) + "\npath = "@
        + quoted(path) + "\n"@
}

/// The name of the file a declaration is written to.
pub open spec fn file_name_text(name: Seq<char>, pid: nat) -> Seq<char> {
    name + "-"@ + decimal(pid) + ".toml"@
}

impl Declaration {
    /// A declaration of these three things.
    pub fn new(name: &str, location: &str, purpose: Purpose) -> (r: Self)
        ensures
            r.name@ == name@,
            r.location@ == location@,
            r.purpose == purpose,
    {
        Declaration { name: name.to_owned(), location: location.to_owned(), purpose }
    }

    /// The declaration as the TOML a reader takes: the three things, and
    /// beside them which process said so, when, and from where on disk.
    pub fn to_toml(&self, pid: u32, started_unix: u64, path: &str) -> (r: String)
        ensures
            r@ == toml_text(
                self.name@,
                self.location@,
                self.purpose,
                pid as nat,
                started_unix as nat,
                path@,
            ),
    {
        let mut r = String::new();
        push_str(&mut r, "name = ");
        push_quoted(&mut r, self.name.as_str());
        push_str(&mut r, "\nlocation = ");
        push_quoted(&mut r, self.location.as_str());
        push_str(&mut r, "\npurpose = ");
        push_quoted(&mut r, self.purpose.word());
        push_str(&mut r, "\npid = ");
        push_decimal(&mut r, pid as u64);
        push_str(&mut r, "\nstarted_unix = ");
        push_decimal(&mut r, started_unix);
        push_str(&mut r, "\npath = ");
        push_quoted(&mut r, path);
        push_str(&mut r, "\n");
        r
    }

    /// The name of the file this process declares itself in: its name and
    /// its pid.
    pub fn file_name(&self, pid: u32) -> (r: String)
        ensures
            r@ == file_name_text(self.name@, pid as nat),
    {
        let mut r = String::new();
        push_str(&mut r, self.name.as_str());
        push_str(&mut r, "-");
        push_decimal(&mut r, pid as u64);
        push_str(&mut r, ".toml");
        r
    }
}

} // verus!
