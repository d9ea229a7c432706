//! Making a node misbehave on purpose, to see that misbehaviour is noticed. It
//! is off unless the operator asks for it.
use vstd::prelude::*;
use vstd::string::*;

use crate::refs::Round;

verus! {

/// The modulus of the rounds in which faults come where none is set.
pub const DEFAULT_DET_MOD: u64 = 17;

/// Which faults are injected.
#[derive(Clone, Copy, Debug, PartialEq, Eq, Structural)]
pub struct Modes {
    pub header: bool,
    pub missed: bool,
    /// Equivocations of the targeted peer are counted that it has not made.
    pub equivocation: bool,
    /// Faults of the targeted peer are counted that cannot be proved.
    pub unprovable: bool,
    pub invalid_report: bool,
}

/// Is this one of the white space characters of Unicode?
pub open spec fn spec_is_whitespace(c: char) -> bool {
    ||| '\u{9}' <= c <= '\u{d}'
    ||| c == '\u{20}'
    ||| c == '\u{85}'
    ||| c == '\u{a0}'
    ||| c == '\u{1680}'
    ||| '\u{2000}' <= c <= '\u{200a}'
    ||| c == '\u{2028}'
    ||| c == '\u{2029}'
    ||| c == '\u{202f}'
    ||| c == '\u{205f}'
    ||| c == '\u{3000}'
}

fn is_whitespace(c: char) -> (r: bool)
    ensures
        r == spec_is_whitespace(c),
{
    ('\u{9}' <= c && c <= '\u{d}') || c == '\u{20}' || c == '\u{85}' || c == '\u{a0}' || c
        == '\u{1680}' || ('\u{2000}' <= c && c <= '\u{200a}') || c == '\u{2028}' || c == '\u{2029}'
        || c == '\u{202f}' || c == '\u{205f}' || c == '\u{3000}'
}

/// Are all characters from `a` to `b` white space?
pub open spec fn is_blank(text: Seq<char>, a: int, b: int) -> bool {
    forall|i: int| a <= i < b ==> spec_is_whitespace(#[trigger] text[i])
}

/// Does a part between commas go from `a` to `b`?
pub open spec fn is_part(text: Seq<char>, a: int, b: int) -> bool {
    &&& 0 <= a <= b <= text.len()
    &&& a == 0 || text[a - 1] == ','
    &&& b == text.len() || text[b] == ','
    &&& forall|i: int| a <= i < b ==> #[trigger] text[i] != ','
}

/// Is the word all there is in the part from `a` to `b`, but for white space
/// around it?
pub open spec fn is_word_of(text: Seq<char>, a: int, b: int, word: Seq<char>) -> bool {
    exists|c: int, d: int|
        {
            &&& a <= c <= d <= b
            &&& #[trigger] text.subrange(c, d) == word
            &&& is_blank(text, a, c)
            &&& is_blank(text, d, b)
        }
}

/// Is the word one of those that the text lists, parted by commas?
pub open spec fn lists_word(text: Seq<char>, word: Seq<char>) -> bool {
    exists|a: int, b: int| #[trigger] is_part(text, a, b) && is_word_of(text, a, b, word)
}

/// Is the word listed among the parts that end before `end`?
spec fn lists_before(text: Seq<char>, word: Seq<char>, end: int) -> bool {
    exists|a: int, b: int|
        #[trigger] is_part(text, a, b) && b < end && is_word_of(text, a, b, word)
}

/// A word without white space at its ends, which is not empty.
spec fn is_bare(word: Seq<char>) -> bool {
    &&& word.len() > 0
    &&& !spec_is_whitespace(word[0])
    &&& !spec_is_whitespace(word.last())
}

/// Is the stretch of text from `c` to `d` the word?
fn is_word(text: &str, c: usize, d: usize, word: &str) -> (r: bool)
    requires
        c <= d <= text@.len(),
    ensures
        r == (text@.subrange(c as int, d as int) == word@),
{
    let n: usize = word.unicode_len();
    if d - c != n {
        return false;
    }
    let mut i: usize = 0;
    while i < n
        invariant
            n == word@.len(),
            d - c == n,
            c <= d <= text@.len(),
            i <= n,
            forall|k: int| 0 <= k < i ==> #[trigger] word@[k] == text@[c + k],
        decreases n - i,
    {
        if text.get_char(c + i) != word.get_char(i) {
            assert(text@.subrange(c as int, d as int)[i as int] != word@[i as int]);
            return false;
        }
        i = i + 1;
    }
    assert(text@.subrange(c as int, d as int) =~= word@);
    true
}

/// What is left of a part without the white space around it.
fn trim(text: &str, a: usize, b: usize) -> (r: (usize, usize))
    requires
        a <= b <= text@.len(),
    ensures
        a <= r.0 <= r.1 <= b,
        is_blank(text@, a as int, r.0 as int),
        is_blank(text@, r.1 as int, b as int),
        r.0 < r.1 ==> !spec_is_whitespace(text@[r.0 as int]) && !spec_is_whitespace(
            text@[r.1 - 1],
        ),
{
    let mut c: usize = a;
    while c < b && is_whitespace(text.get_char(c))
        invariant
            a <= c <= b <= text@.len(),
            is_blank(text@, a as int, c as int),
        ensures
            c == b || !spec_is_whitespace(text@[c as int]),
        decreases b - c,
    {
        c = c + 1;
    }
    let mut d: usize = b;
    while c < d && is_whitespace(text.get_char(d - 1))
        invariant
            c <= d <= b <= text@.len(),
            is_blank(text@, d as int, b as int),
        ensures
            c == d || !spec_is_whitespace(text@[d - 1]),
        decreases d - c,
    {
        d = d - 1;
    }
    (c, d)
}

/// A part holds a bare word exactly if that is what is left of it.
proof fn lemma_trimmed(text: Seq<char>, a: int, b: int, c: int, d: int, word: Seq<char>)
    requires
        0 <= a <= c <= d <= b <= text.len(),
        is_blank(text, a, c),
        is_blank(text, d, b),
        c < d ==> !spec_is_whitespace(text[c]) && !spec_is_whitespace(text[d - 1]),
        is_bare(word),
    ensures
        is_word_of(text, a, b, word) <==> text.subrange(c, d) == word,
{
    if is_word_of(text, a, b, word) {
        let (x, y) = choose|x: int, y: int|
            {
                &&& a <= x <= y <= b
                &&& #[trigger] text.subrange(x, y) == word
                &&& is_blank(text, a, x)
                &&& is_blank(text, y, b)
            };
        assert(text.subrange(x, y)[0] == text[x]);
        assert(text.subrange(x, y).last() == text[y - 1]);
        if x < c {
            assert(spec_is_whitespace(text[x]));
        }
        if y > d {
            assert(spec_is_whitespace(text[y - 1]));
        }
        if c < x {
            assert(c < d ==> spec_is_whitespace(text[c]));
        }
        if d > y {
            assert(spec_is_whitespace(text[d - 1]));
        }
        assert(x == c && y == d);
    }
}

/// The part that starts at `a` and ends at `b` is the only one that starts there,
/// and the next ends behind it.
proof fn lemma_next_part(text: Seq<char>, a: int, b: int, word: Seq<char>)
    requires
        is_part(text, a, b),
    ensures
        lists_before(text, word, b + 1) <==> lists_before(text, word, a) || is_word_of(
            text,
            a,
            b,
            word,
        ),
{
    if lists_before(text, word, b + 1) && !is_word_of(text, a, b, word) {
        let (x, y) = choose|x: int, y: int|
            #[trigger] is_part(text, x, y) && y < b + 1 && is_word_of(text, x, y, word);
        if y >= a {
            // Both end at the next comma after `a`, and start at the last before it.
            if y < b {
                assert(text[y] == ',');
            }
            assert(y == b);
            if x < a {
                assert(text[a - 1] == ',');
            }
            if x > a {
                assert(text[x - 1] == ',');
            }
        }
    }
    if lists_before(text, word, a) {
        let (x, y) = choose|x: int, y: int|
            #[trigger] is_part(text, x, y) && y < a && is_word_of(text, x, y, word);
        assert(is_part(text, x, y) && y < b + 1);
    }
}

/// The bare words that stand for modes.
proof fn lemma_mode_words()
    ensures
        is_bare("header"@),
        is_bare("missed"@),
        is_bare("equivocation"@),
        is_bare("unprovable"@),
        is_bare("invalid_report"@),
{
    reveal_strlit("header");
    reveal_strlit("missed");
    reveal_strlit("equivocation");
    reveal_strlit("unprovable");
    reveal_strlit("invalid_report");
}

impl Modes {
    /// No faults.
    pub fn none() -> (r: Self)
        ensures
            !r.header && !r.missed && !r.equivocation && !r.unprovable && !r.invalid_report,
    {
        Modes {
            header: false,
            missed: false,
            equivocation: false,
            unprovable: false,
            invalid_report: false,
        }
    }

    /// The faults that a text lists, parted by commas. What is no fault is
    /// passed over.
    pub fn parse(text: &str) -> (r: Self)
        ensures
            r.header == lists_word(text@, "header"@),
            r.missed == lists_word(text@, "missed"@),
            r.equivocation == lists_word(text@, "equivocation"@),
            r.unprovable == lists_word(text@, "unprovable"@),
            r.invalid_report == lists_word(text@, "invalid_report"@),
    {
        proof {
            lemma_mode_words();
        }
        let n: usize = text.unicode_len();
        let mut modes = Modes::none();
        let mut a: usize = 0;
        let ghost mut end: int = 0;
        let mut done = false;
        while !done
            invariant
                is_bare("header"@),
                is_bare("missed"@),
                is_bare("equivocation"@),
                is_bare("unprovable"@),
                is_bare("invalid_report"@),
                n == text@.len(),
                a <= n,
                done ==> end == n + 1,
                !done ==> end == a && (a == 0 || text@[a - 1] == ','),
                modes.header == lists_before(text@, "header"@, end),
                modes.missed == lists_before(text@, "missed"@, end),
                modes.equivocation == lists_before(text@, "equivocation"@, end),
                modes.unprovable == lists_before(text@, "unprovable"@, end),
                modes.invalid_report == lists_before(text@, "invalid_report"@, end),
            decreases n - a, (if done {
                0int
            } else {
                1int
            }),
        {
            let mut b: usize = a;
            while b < n && text.get_char(b) != ','
                invariant
                    n == text@.len(),
                    a <= b <= n,
                    forall|i: int| a <= i < b ==> #[trigger] text@[i] != ',',
                ensures
                    b == n || text@[b as int] == ',',
                decreases n - b,
            {
                b = b + 1;
            }
            let (c, d) = trim(text, a, b);
            proof {
                lemma_trimmed(text@, a as int, b as int, c as int, d as int, "header"@);
                lemma_trimmed(text@, a as int, b as int, c as int, d as int, "missed"@);
                lemma_trimmed(text@, a as int, b as int, c as int, d as int, "equivocation"@);
                lemma_trimmed(text@, a as int, b as int, c as int, d as int, "unprovable"@);
                lemma_trimmed(text@, a as int, b as int, c as int, d as int, "invalid_report"@);
                assert(is_part(text@, a as int, b as int));
                lemma_next_part(text@, a as int, b as int, "header"@);
                lemma_next_part(text@, a as int, b as int, "missed"@);
                lemma_next_part(text@, a as int, b as int, "equivocation"@);
                lemma_next_part(text@, a as int, b as int, "unprovable"@);
                lemma_next_part(text@, a as int, b as int, "invalid_report"@);
            }
            if is_word(text, c, d, "header") {
                modes.header = true;
            }
            if is_word(text, c, d, "missed") {
                modes.missed = true;
            }
            if is_word(text, c, d, "equivocation") {
                modes.equivocation = true;
            }
            if is_word(text, c, d, "unprovable") {
                modes.unprovable = true;
            }
            if is_word(text, c, d, "invalid_report") {
                modes.invalid_report = true;
            }
            if b == n {
                done = true;
            } else {
                a = b + 1;
            }
            proof {
                end = b + 1;
            }
        }
        modes
    }
}

/// What the operator asks for.
#[derive(Debug)]
pub struct Config {
    pub modes: Modes,
    /// The host that the faults are for; all where there is none.
    pub target: Option<String>,
    /// Faults that come by rounds come in every so many.
    pub det_mod: u64,
}

impl Config {
    pub open spec fn wf(self) -> bool {
        self.det_mod > 0
    }

    /// Takes the settings. An empty target is none, and so is a modulus of zero.
    pub fn new(modes: &str, target: Option<String>, det_mod: Option<u64>) -> (r: Self)
        ensures
            r.wf(),
            r.modes.header == lists_word(modes@, "header"@),
            r.modes.missed == lists_word(modes@, "missed"@),
            r.modes.equivocation == lists_word(modes@, "equivocation"@),
            r.modes.unprovable == lists_word(modes@, "unprovable"@),
            r.modes.invalid_report == lists_word(modes@, "invalid_report"@),
            match target {
                Some(host) => if host@.len() == 0 {
                    r.target is None
                } else {
                    r.target == Some(host)
                },
                None => r.target is None,
            },
            r.det_mod == match det_mod {
                Some(m) => if m > 0 {
                    m
                } else {
                    DEFAULT_DET_MOD
                },
                None => DEFAULT_DET_MOD,
            },
    {
        let target = match target {
            Some(host) => if host.as_str().unicode_len() == 0 {
                None
            } else {
                Some(host)
            },
            None => None,
        };
        let det_mod: u64 = match det_mod {
            Some(m) => if m > 0 {
                m
            } else {
                DEFAULT_DET_MOD
            },
            None => DEFAULT_DET_MOD,
        };
        Config { modes: Modes::parse(modes), target, det_mod }
    }

    /// Is any fault injected?
    pub fn any_enabled(&self) -> (r: bool)
        ensures
            r == (self.modes.header || self.modes.missed || self.modes.equivocation
                || self.modes.unprovable || self.modes.invalid_report),
    {
        let m = self.modes;
        m.header || m.missed || m.equivocation || m.unprovable || m.invalid_report
    }

    /// Are the faults for this host?
    pub open spec fn is_in_scope(self, hostname: Seq<char>) -> bool {
        match self.target {
            None => true,
            Some(t) => t@ == hostname,
        }
    }
}

/// Are the faults for this authority?
pub fn authority_in_scope(config: &Config, hostname: &str) -> (r: bool)
    ensures
        r == config.is_in_scope(hostname@),
{
    match &config.target {
        None => true,
        Some(t) => *t == hostname.to_owned(),
    }
}

/// Do faults that come by rounds come in this one? All observers agree on it.
pub fn deterministic_match(config: &Config, round: Round) -> (r: bool)
    requires
        config.wf(),
    ensures
        r == (round as int % config.det_mod as int == 0),
{
    round as u64 % config.det_mod == 0
}

/// The faults to count against a peer.
#[derive(Clone, Copy, Debug, PartialEq, Eq, Structural)]
pub struct InjectedFaults {
    pub unprovable: bool,
    pub equivocation: bool,
}

/// What to count against a peer that has sent a block, given what the dice say of
/// each fault.
pub fn faults_on_receive(
    config: &Config,
    peer_hostname: &str,
    unprovable_roll: bool,
    equivocation_roll: bool,
) -> (r: InjectedFaults)
    ensures
        r.unprovable == (config.modes.unprovable && config.is_in_scope(peer_hostname@)
            && unprovable_roll),
        r.equivocation == (config.modes.equivocation && config.is_in_scope(peer_hostname@)
            && equivocation_roll),
{
    let in_scope = authority_in_scope(config, peer_hostname);
    InjectedFaults {
        unprovable: config.modes.unprovable && in_scope && unprovable_roll,
        equivocation: config.modes.equivocation && in_scope && equivocation_roll,
    }
}

/// Of each stretch of rounds as long as the modulus, exactly one is a round in
/// which faults come.
pub proof fn law_one_round_in_each_stretch(a: Config, start: int) -> (round: int)
    requires
        a.wf(),
        start >= 0,
    ensures
        start <= round < start + a.det_mod,
        round % (a.det_mod as int) == 0,
        forall|other: int|
            start <= other < start + a.det_mod && #[trigger] (other % (a.det_mod as int)) == 0
                ==> other == round,
{
    let m = a.det_mod as int;
    let q = (start + m - 1) / m;
    let round = q * m;
    assert(start <= round < start + m) by (nonlinear_arith)
        requires
            m > 0,
            q == (start + m - 1) / m,
            round == q * m,
    ;
    assert(round % m == 0) by (nonlinear_arith)
        requires
            m > 0,
            round == q * m,
    ;
    assert forall|other: int|
        start <= other < start + m && #[trigger] (other % m) == 0 implies other == round by {
        let p = other / m;
        assert(other == p * m) by (nonlinear_arith)
            requires
                m > 0,
                other % m == 0,
                p == other / m,
        ;
        assert(p == q) by (nonlinear_arith)
            requires
                m > 0,
                start <= p * m < start + m,
                start <= q * m < start + m,
        ;
    }
    round
}

/// A text lists what the parts on either side of a comma list. A text without commas
/// lists a word exactly where it is the word with nothing but white space around it.
pub proof fn law_words_are_parted_by_commas(
    a: Seq<char>,
    b: Seq<char>,
    before: Seq<char>,
    word: Seq<char>,
    after: Seq<char>,
)
    ensures
        lists_word(a + seq![','] + b, word) <==> lists_word(a, word) || lists_word(b, word),
        !before.contains(',') && !word.contains(',') && !after.contains(',') && is_blank(
            before,
            0,
            before.len() as int,
        ) && is_blank(after, 0, after.len() as int) ==> lists_word(before + word + after, word),
        !a.contains(',') && lists_word(a, word) ==> exists|c: int, d: int|
            {
                &&& 0 <= c <= d <= a.len()
                &&& #[trigger] a.subrange(c, d) == word
                &&& forall|i: int| 0 <= i < c ==> spec_is_whitespace(#[trigger] a[i])
                &&& forall|i: int| d <= i < a.len() ==> spec_is_whitespace(#[trigger] a[i])
            },
{
    let text = a + seq![','] + b;
    let n = a.len() as int;
    assert(text[n] == ',');
    assert forall|x: int, y: int| #[trigger] is_part(text, x, y) implies (y <= n && is_part(
        a,
        x,
        y,
    )) || (x > n && is_part(b, x - n - 1, y - n - 1)) by {
        if x <= n {
            if y > n {
                assert(text[n] != ',');
            }
            assert forall|i: int| x <= i < y implies #[trigger] a[i] != ',' by {
                assert(text[i] == a[i]);
            }
            if x > 0 {
                assert(text[x - 1] == a[x - 1]);
            }
            if y < n {
                assert(text[y] == a[y]);
            }
        } else {
            assert forall|i: int| x - n - 1 <= i < y - n - 1 implies #[trigger] b[i] != ',' by {
                assert(text[i + n + 1] == b[i]);
            }
            if x > n + 1 {
                assert(text[x - 1] == b[x - n - 2]);
            }
            if y < text.len() {
                assert(text[y] == b[y - n - 1]);
            }
        }
    }
    if lists_word(text, word) {
        let (x, y) = choose|x: int, y: int|
            #[trigger] is_part(text, x, y) && is_word_of(text, x, y, word);
        if y <= n {
            lemma_word_moves(text, x, y, a, x, y, word);
            assert(is_part(a, x, y) && is_word_of(a, x, y, word));
        } else {
            lemma_word_moves(text, x, y, b, x - n - 1, y - n - 1, word);
            assert(is_part(b, x - n - 1, y - n - 1) && is_word_of(
                b,
                x - n - 1,
                y - n - 1,
                word,
            ));
        }
    }
    if lists_word(a, word) {
        let (x, y) = choose|x: int, y: int|
            #[trigger] is_part(a, x, y) && is_word_of(a, x, y, word);
        lemma_word_moves(a, x, y, text, x, y, word);
        assert(is_part(text, x, y)) by {
            if x > 0 {
                assert(text[x - 1] == a[x - 1]);
            }
            if y < n {
                assert(text[y] == a[y]);
            }
            assert forall|i: int| x <= i < y implies #[trigger] text[i] != ',' by {
                assert(text[i] == a[i]);
            }
        }
    }
    if lists_word(b, word) {
        let (x, y) = choose|x: int, y: int|
            #[trigger] is_part(b, x, y) && is_word_of(b, x, y, word);
        let u = x + n + 1;
        let v = y + n + 1;
        lemma_word_moves(b, x, y, text, u, v, word);
        assert(is_part(text, u, v)) by {
            if x > 0 {
                assert(text[u - 1] == b[x - 1]);
            }
            if y < b.len() {
                assert(text[v] == b[y]);
            }
            assert forall|i: int| u <= i < v implies #[trigger] text[i] != ',' by {
                assert(text[i] == b[i - n - 1]);
            }
        }
    }
    if !before.contains(',') && !word.contains(',') && !after.contains(',') && is_blank(
        before,
        0,
        before.len() as int,
    ) && is_blank(after, 0, after.len() as int) {
        let t = before + word + after;
        let c = before.len() as int;
        let d = c + word.len();
        assert(t.subrange(c, d) =~= word);
        assert(is_blank(t, 0, c)) by {
            assert forall|i: int| 0 <= i < c implies spec_is_whitespace(#[trigger] t[i]) by {
                assert(t[i] == before[i]);
            }
        }
        assert(is_blank(t, d, t.len() as int)) by {
            assert forall|i: int| d <= i < t.len() implies spec_is_whitespace(#[trigger] t[i]) by {
                assert(t[i] == after[i - d]);
            }
        }
        assert(is_word_of(t, 0, t.len() as int, word));
        assert(is_part(t, 0, t.len() as int)) by {
            assert forall|i: int| 0 <= i < t.len() implies #[trigger] t[i] != ',' by {
                if i < c {
                    assert(before.contains(before[i]));
                } else if i < d {
                    assert(word.contains(word[i - c]));
                } else {
                    assert(after.contains(after[i - d]));
                }
            }
        }
    }
    if !a.contains(',') && lists_word(a, word) {
        let (x, y) = choose|x: int, y: int|
            #[trigger] is_part(a, x, y) && is_word_of(a, x, y, word);
        assert(x == 0) by {
            if x > 0 {
                assert(a.contains(a[x - 1]));
            }
        }
        assert(y == n) by {
            if y < n {
                assert(a.contains(a[y]));
            }
        }
        let (c, d) = choose|c: int, d: int|
            {
                &&& x <= c <= d <= y
                &&& #[trigger] a.subrange(c, d) == word
                &&& is_blank(a, x, c)
                &&& is_blank(a, d, y)
            };
        assert(a.subrange(c, d) == word);
    }
}

/// A word stays the word of a stretch that is the same in another text.
proof fn lemma_word_moves(
    s: Seq<char>,
    a: int,
    b: int,
    t: Seq<char>,
    x: int,
    y: int,
    word: Seq<char>,
)
    requires
        0 <= a <= b <= s.len(),
        0 <= x <= y <= t.len(),
        y - x == b - a,
        forall|i: int| a <= i < b ==> #[trigger] s[i] == t[i - a + x],
        is_word_of(s, a, b, word),
    ensures
        is_word_of(t, x, y, word),
{
    let (c, d) = choose|c: int, d: int|
        {
            &&& a <= c <= d <= b
            &&& #[trigger] s.subrange(c, d) == word
            &&& is_blank(s, a, c)
            &&& is_blank(s, d, b)
        };
    let u = c - a + x;
    let v = d - a + x;
    assert(t.subrange(u, v) =~= s.subrange(c, d)) by {
        assert forall|i: int| 0 <= i < v - u implies #[trigger] t.subrange(u, v)[i] == s.subrange(
            c,
            d,
        )[i] by {
            assert(s[c + i] == t[c + i - a + x]);
        }
    }
    assert(is_blank(t, x, u)) by {
        assert forall|i: int| x <= i < u implies spec_is_whitespace(#[trigger] t[i]) by {
            assert(s[i - x + a] == t[i]);
        }
    }
    assert(is_blank(t, v, y)) by {
        assert forall|i: int| v <= i < y implies spec_is_whitespace(#[trigger] t[i]) by {
            assert(s[i - x + a] == t[i]);
        }
    }
    assert(t.subrange(u, v) == word);
}

/// Of the characters of plain text, the blank and those from the tabulator to the
/// carriage return are white space, and no others are.
pub proof fn law_white_space(c: char)
    ensures
        c <= '~' ==> (spec_is_whitespace(c) <==> c == ' ' || ('\t' <= c && c <= '\r')),
{
}

/// Without a target, the faults are for every host; with one, for that host alone.
pub proof fn law_scope(config: Config, hostname: Seq<char>)
    ensures
        config.target is None ==> config.is_in_scope(hostname),
        config.target matches Some(t) ==> (config.is_in_scope(hostname) <==> hostname == t@),
{
}

} // verus!
