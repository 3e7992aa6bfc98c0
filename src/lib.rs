//! Escape and unescape strings with a table of single-character rules.

use vstd::prelude::*;

verus! {

/// Defines how one specific `char` is escaped: escaping `unescaped` yields the escape
/// character followed by `escaped`, and unescaping that pair yields `unescaped`.
#[derive(Clone, Copy, Debug, PartialEq, Eq, Structural)]
pub struct Rule {
    pub unescaped: char,
    pub escaped: char,
}

/// The escaped character of the first rule (in table order) whose `unescaped` is `c`.
pub open spec fn escaped_for(rules: Seq<Rule>, c: char) -> Option<char>
    decreases rules.len(),
{
    if rules.len() == 0 {
        None
    } else if rules[0].unescaped == c {
        Some(rules[0].escaped)
    } else {
        escaped_for(rules.drop_first(), c)
    }
}

/// The unescaped character of the first rule (in table order) whose `escaped` is `c`.
pub open spec fn unescaped_for(rules: Seq<Rule>, c: char) -> Option<char>
    decreases rules.len(),
{
    if rules.len() == 0 {
        None
    } else if rules[0].escaped == c {
        Some(rules[0].unescaped)
    } else {
        unescaped_for(rules.drop_first(), c)
    }
}

/// Whether some rule of the table has `unescaped == c`.
pub open spec fn has_rule_for(rules: Seq<Rule>, c: char) -> bool {
    exists|i: int| 0 <= i < rules.len() && #[trigger] rules[i].unescaped == c
}

/// No two rules share an `unescaped` character.
pub open spec fn unique_unescaped(rules: Seq<Rule>) -> bool {
    forall|i: int, j: int|
        0 <= i < rules.len() && 0 <= j < rules.len() && #[trigger] rules[i].unescaped
            == #[trigger] rules[j].unescaped ==> i == j
}

/// No two rules share an `escaped` character.
pub open spec fn unique_escaped(rules: Seq<Rule>) -> bool {
    forall|i: int, j: int|
        0 <= i < rules.len() && 0 <= j < rules.len() && #[trigger] rules[i].escaped
            == #[trigger] rules[j].escaped ==> i == j
}

/// What escaping the single character `c` produces.
pub open spec fn escape_one(marker: char, rules: Seq<Rule>, c: char) -> Seq<char> {
    match escaped_for(rules, c) {
        Some(e) => seq![marker, e],
        None => seq![c],
    }
}

/// The escaped form of `s`: each character escaped in turn.
pub open spec fn escape_seq(marker: char, rules: Seq<Rule>, s: Seq<char>) -> Seq<char>
    decreases s.len(),
{
    if s.len() == 0 {
        Seq::empty()
    } else {
        escape_seq(marker, rules, s.drop_last()) + escape_one(marker, rules, s.last())
    }
}

/// The state of a left-to-right unescaping scan.
pub enum Scan {
    /// The scan goes on: what has been produced so far, and whether the last character
    /// read was an escape character still waiting for its pair.
    Reading { out: Seq<char>, pending: bool },
    /// The scan stopped at an escape character followed by `bad`, which no rule escapes to.
    Stuck { bad: char },
}

/// One step of the unescaping scan on character `c`.
pub open spec fn unescape_step(marker: char, rules: Seq<Rule>, st: Scan, c: char) -> Scan {
    match st {
        Scan::Stuck { bad } => Scan::Stuck { bad },
        Scan::Reading { out, pending } => {
            if pending {
                match unescaped_for(rules, c) {
                    Some(r) => Scan::Reading { out: out.push(r), pending: false },
                    None => Scan::Stuck { bad: c },
                }
            } else if c == marker {
                Scan::Reading { out, pending: true }
            } else {
                Scan::Reading { out: out.push(c), pending: false }
            }
        },
    }
}

/// The state of the unescaping scan after reading all of `s`.
pub open spec fn unescape_scan(marker: char, rules: Seq<Rule>, s: Seq<char>) -> Scan
    decreases s.len(),
{
    if s.len() == 0 {
        Scan::Reading { out: Seq::empty(), pending: false }
    } else {
        unescape_step(marker, rules, unescape_scan(marker, rules, s.drop_last()), s.last())
    }
}

/// One step of the validity scan on character `c`: `None` once `s` is known not to be
/// escaped, else whether an escape character waits for its pair.
pub open spec fn valid_step(marker: char, rules: Seq<Rule>, st: Option<bool>, c: char) -> Option<
    bool,
> {
    match st {
        None => None,
        Some(pending) => {
            if pending {
                if unescaped_for(rules, c) is Some {
                    Some(false)
                } else {
                    None
                }
            } else if c == marker {
                Some(true)
            } else if escaped_for(rules, c) is Some {
                None
            } else {
                Some(false)
            }
        },
    }
}

/// The state of the validity scan after reading all of `s`.
pub open spec fn valid_scan(marker: char, rules: Seq<Rule>, s: Seq<char>) -> Option<bool>
    decreases s.len(),
{
    if s.len() == 0 {
        Some(false)
    } else {
        valid_step(marker, rules, valid_scan(marker, rules, s.drop_last()), s.last())
    }
}

/// `s` could have been produced by escaping: it holds no character that must be escaped,
/// no unknown escape sequence, and does not end on a lone escape character.
pub open spec fn escaped_spec(marker: char, rules: Seq<Rule>, s: Seq<char>) -> bool {
    valid_scan(marker, rules, s) == Some(false)
}

/// Once the unescaping scan is stuck, reading more characters leaves it stuck.
proof fn lemma_stuck_stays(marker: char, rules: Seq<Rule>, s: Seq<char>, k: int)
    requires
        0 <= k <= s.len(),
        unescape_scan(marker, rules, s.take(k)) is Stuck,
    ensures
        unescape_scan(marker, rules, s) == unescape_scan(marker, rules, s.take(k)),
    decreases s.len(),
{
    if k == s.len() {
        assert(s.take(k) =~= s);
    } else {
        assert(s.drop_last().take(k) =~= s.take(k));
        lemma_stuck_stays(marker, rules, s.drop_last(), k);
    }
}

/// Once the validity scan has rejected, reading more characters keeps it rejected.
proof fn lemma_rejected_stays(marker: char, rules: Seq<Rule>, s: Seq<char>, k: int)
    requires
        0 <= k <= s.len(),
        valid_scan(marker, rules, s.take(k)) is None,
    ensures
        valid_scan(marker, rules, s) is None,
    decreases s.len(),
{
    if k == s.len() {
        assert(s.take(k) =~= s);
    } else {
        assert(s.drop_last().take(k) =~= s.take(k));
        lemma_rejected_stays(marker, rules, s.drop_last(), k);
    }
}

/// Appending a character to a `String` appends it to its characters.
pub assume_specification[ String::push ](s: &mut String, ch: char)
    ensures
        final(s)@ == old(s)@.push(ch),
;

/// The error that occurs if unescaping a string fails.
#[derive(Clone, Debug, PartialEq, Eq)]
pub enum UnescapeError {
    /// An invalid escape sequence: the escape character and the character after it.
    Invalid(String),
    /// The string ended with a lone escape character.
    Incomplete,
}

impl UnescapeError {
    /// A human-readable description of the error.
    pub fn message(&self) -> (r: String)
        ensures
            match self {
                UnescapeError::Invalid(q) => r@ == "invalid escape sequence: "@ + q@,
                UnescapeError::Incomplete => r@ == "incomplete escape sequence"@,
            },
    {
        match self {
            UnescapeError::Invalid(q) => {
                let mut r = String::from_str("invalid escape sequence: ");
                r.append(q.as_str());
                r
            },
            UnescapeError::Incomplete => String::from_str("incomplete escape sequence"),
        }
    }
}

/// The error of a rule table that does not escape the escape character.
#[non_exhaustive]
#[derive(Clone, Debug, PartialEq, Eq)]
pub struct MissingEscapeCharRule {}

impl MissingEscapeCharRule {
    pub fn new() -> Self {
        Self {  }
    }

    /// A human-readable description of the error.
    pub fn message(&self) -> (r: String)
        ensures
            r@ == "no escape sequence defined for the escape character"@,
    {
        String::from_str("no escape sequence defined for the escape character")
    }
}

/// Whether `rules` holds a rule that escapes `escape_char`.
fn contains_escape_char_rule(escape_char: char, rules: &[Rule]) -> (r: bool)
    ensures
        r == has_rule_for(rules@, escape_char),
{
    let mut i: usize = 0;
    while i < rules.len()
        invariant
            i <= rules@.len(),
            forall|j: int| 0 <= j < i ==> rules@[j].unescaped != escape_char,
        decreases rules@.len() - i,
    {
        if rules[i].unescaped == escape_char {
            return true;
        }
        i = i + 1;
    }
    false
}

/// Escape and unescape strings.
#[derive(Clone, Copy, Debug, PartialEq, Eq)]
pub struct Escaper<'a> {
    escape_char: char,
    rules: &'a [Rule],
}

impl<'a> Escaper<'a> {
    /// The escape character.
    pub closed spec fn marker(&self) -> char {
        self.escape_char
    }

    /// The rule table, in order.
    pub closed spec fn table(&self) -> Seq<Rule> {
        self.rules@
    }

    /// Create a new `Escaper` without checking that the rules escape the escape character.
    pub fn new_unchecked(escape_char: char, rules: &'a [Rule]) -> (r: Self)
        ensures
            r.marker() == escape_char,
            r.table() == rules@,
    {
        Self { escape_char, rules }
    }

    fn escape_char(&self, c: char) -> (r: Option<char>)
        ensures
            r == escaped_for(self.table(), c),
    {
        let mut i: usize = 0;
        assert(self.rules@.subrange(0, self.rules@.len() as int) =~= self.rules@);
        while i < self.rules.len()
            invariant
                i <= self.rules@.len(),
                escaped_for(self.rules@, c) == escaped_for(self.rules@.subrange(i as int, self.rules@.len() as int), c),
            decreases self.rules@.len() - i,
        {
            let rule = self.rules[i];
            assert(self.rules@.subrange(i as int, self.rules@.len() as int).drop_first() =~= self.rules@.subrange(i + 1, self.rules@.len() as int));
            if rule.unescaped == c {
                return Some(rule.escaped);
            }
            i = i + 1;
        }
        assert(self.rules@.subrange(i as int, self.rules@.len() as int).len() == 0);
        None
    }

    fn find_unescaped(&self, c: char) -> (r: Option<char>)
        ensures
            r == unescaped_for(self.table(), c),
    {
        let mut i: usize = 0;
        assert(self.rules@.subrange(0, self.rules@.len() as int) =~= self.rules@);
        while i < self.rules.len()
            invariant
                i <= self.rules@.len(),
                unescaped_for(self.rules@, c) == unescaped_for(self.rules@.subrange(i as int, self.rules@.len() as int), c),
            decreases self.rules@.len() - i,
        {
            let rule = self.rules[i];
            assert(self.rules@.subrange(i as int, self.rules@.len() as int).drop_first() =~= self.rules@.subrange(i + 1, self.rules@.len() as int));
            if rule.escaped == c {
                return Some(rule.unescaped);
            }
            i = i + 1;
        }
        assert(self.rules@.subrange(i as int, self.rules@.len() as int).len() == 0);
        None
    }

    fn unescape_char(&self, c: char) -> (r: Result<char, UnescapeError>)
        ensures
            match unescaped_for(self.table(), c) {
                Some(u) => r == Ok::<char, UnescapeError>(u),
                None => r matches Err(UnescapeError::Invalid(q)) && q@ == seq![self.marker(), c],
            },
    {
        match self.find_unescaped(c) {
            Some(u) => Ok(u),
            None => {
                let mut q = String::new();
                q.push(self.escape_char);
                q.push(c);
                Err(UnescapeError::Invalid(q))
            },
        }
    }

    /// Create a new `Escaper`, failing if no rule escapes the escape character.
    pub fn new(escape_char: char, rules: &'a [Rule]) -> (r: Result<Self, MissingEscapeCharRule>)
        ensures
            r is Ok <==> has_rule_for(rules@, escape_char),
            r matches Ok(e) ==> e.marker() == escape_char && e.table() == rules@,
    {
        if contains_escape_char_rule(escape_char, rules) {
            Ok(Self { escape_char, rules })
        } else {
            Err(MissingEscapeCharRule::new())
        }
    }

    /// Returns a new `String` with the characters of `s` escaped by the rules.
    pub fn escape(&self, s: &str) -> (r: String)
        ensures
            r@ == escape_seq(self.marker(), self.table(), s@),
    {
        let mut ret = String::new();
        for c in it: s.chars()
            invariant
                it.seq() == s@,
                ret@ == escape_seq(self.escape_char, self.rules@, s@.take(it.index())),
        {
            proof {
                assert(s@.take(it.index() + 1).drop_last() =~= s@.take(it.index()));
            }
            match self.escape_char(c) {
                Some(escaped) => {
                    ret.push(self.escape_char);
                    ret.push(escaped);
                },
                None => ret.push(c),
            }
        }
        assert(s@.take(s@.len() as int) =~= s@);
        ret
    }

    /// Reverts what `escape` does: fails on an escape character followed by a character
    /// that no rule escapes to, or on a lone escape character at the end.
    pub fn unescape(&self, s: &str) -> (r: Result<String, UnescapeError>)
        ensures
            match unescape_scan(self.marker(), self.table(), s@) {
                Scan::Reading { out, pending } => if pending {
                    r matches Err(UnescapeError::Incomplete)
                } else {
                    r matches Ok(t) && t@ == out
                },
                Scan::Stuck { bad } => r matches Err(UnescapeError::Invalid(q)) && q@ == seq![
                    self.marker(),
                    bad,
                ],
            },
    {
        let mut ret = String::new();
        let mut previous_was_escape_char = false;
        for c in it: s.chars()
            invariant
                it.seq() == s@,
                unescape_scan(self.escape_char, self.rules@, s@.take(it.index())) == (Scan::Reading {
                    out: ret@,
                    pending: previous_was_escape_char,
                }),
        {
            proof {
                assert(s@.take(it.index() + 1).drop_last() =~= s@.take(it.index()));
            }
            if previous_was_escape_char {
                match self.unescape_char(c) {
                    Ok(u) => ret.push(u),
                    Err(e) => {
                        proof {
                            lemma_stuck_stays(self.escape_char, self.rules@, s@, it.index() + 1);
                        }
                        return Err(e);
                    },
                }
                previous_was_escape_char = false;
            } else if c == self.escape_char {
                previous_was_escape_char = true;
            } else {
                ret.push(c);
            }
        }
        assert(s@.take(s@.len() as int) =~= s@);
        if previous_was_escape_char {
            Err(UnescapeError::Incomplete)
        } else {
            Ok(ret)
        }
    }

    /// Whether `s` is escaped: it holds only valid escape sequences, no character that must
    /// be escaped, and does not end with the escape character.
    pub fn is_escaped(&self, s: &str) -> (r: bool)
        ensures
            r == escaped_spec(self.marker(), self.table(), s@),
    {
        let mut previous_was_escape_char = false;
        for c in it: s.chars()
            invariant
                it.seq() == s@,
                valid_scan(self.escape_char, self.rules@, s@.take(it.index())) == Some(
                    previous_was_escape_char,
                ),
        {
            proof {
                assert(s@.take(it.index() + 1).drop_last() =~= s@.take(it.index()));
            }
            if previous_was_escape_char {
                if self.find_unescaped(c).is_some() {
                    previous_was_escape_char = false;
                } else {
                    proof {
                        lemma_rejected_stays(self.escape_char, self.rules@, s@, it.index() + 1);
                    }
                    return false;
                }
            } else {
                if c == self.escape_char {
                    previous_was_escape_char = true;
                } else if self.escape_char(c).is_some() {
                    proof {
                        lemma_rejected_stays(self.escape_char, self.rules@, s@, it.index() + 1);
                    }
                    return false;
                }
            }
        }
        assert(s@.take(s@.len() as int) =~= s@);
        !previous_was_escape_char
    }
}

/// The first rule for `c` by its `unescaped` side exists exactly when some rule has
/// `unescaped == c`, and the character it gives is that of such a rule.
proof fn lemma_escaped_for_found(rules: Seq<Rule>, c: char)
    ensures
        escaped_for(rules, c) is Some <==> has_rule_for(rules, c),
        escaped_for(rules, c) matches Some(e) ==> exists|i: int|
            0 <= i < rules.len() && #[trigger] rules[i].unescaped == c && rules[i].escaped == e,
    decreases rules.len(),
{
    if rules.len() > 0 {
        lemma_escaped_for_found(rules.drop_first(), c);
        if rules[0].unescaped != c {
            if has_rule_for(rules, c) {
                let i = choose|i: int| 0 <= i < rules.len() && #[trigger] rules[i].unescaped == c;
                assert(rules.drop_first()[i - 1].unescaped == c);
            }
            if let Some(e) = escaped_for(rules, c) {
                let i = choose|i: int|
                    0 <= i < rules.len() - 1 && #[trigger] rules.drop_first()[i].unescaped == c
                        && rules.drop_first()[i].escaped == e;
                assert(rules[i + 1].unescaped == c);
            }
        }
    }
}

/// The first rule for `c` by its `escaped` side exists exactly when some rule has
/// `escaped == c`, and the character it gives is that of such a rule.
proof fn lemma_unescaped_for_found(rules: Seq<Rule>, c: char)
    ensures
        unescaped_for(rules, c) is Some <==> exists|i: int|
            0 <= i < rules.len() && #[trigger] rules[i].escaped == c,
        unescaped_for(rules, c) matches Some(u) ==> exists|i: int|
            0 <= i < rules.len() && #[trigger] rules[i].escaped == c && rules[i].unescaped == u,
    decreases rules.len(),
{
    if rules.len() > 0 {
        lemma_unescaped_for_found(rules.drop_first(), c);
        if rules[0].escaped != c {
            if exists|i: int| 0 <= i < rules.len() && #[trigger] rules[i].escaped == c {
                let i = choose|i: int| 0 <= i < rules.len() && #[trigger] rules[i].escaped == c;
                assert(rules.drop_first()[i - 1].escaped == c);
            }
            if let Some(u) = unescaped_for(rules, c) {
                let i = choose|i: int|
                    0 <= i < rules.len() - 1 && #[trigger] rules.drop_first()[i].escaped == c
                        && rules.drop_first()[i].unescaped == u;
                assert(rules[i + 1].escaped == c);
            }
        }
    }
}

/// The unescaping scan over `s` followed by one character is one step after the scan over `s`.
proof fn lemma_unescape_scan_push(marker: char, rules: Seq<Rule>, s: Seq<char>, c: char)
    ensures
        unescape_scan(marker, rules, s.push(c)) == unescape_step(
            marker,
            rules,
            unescape_scan(marker, rules, s),
            c,
        ),
{
    assert(s.push(c).drop_last() =~= s);
}

/// The validity scan over `s` followed by one character is one step after the scan over `s`.
proof fn lemma_valid_scan_push(marker: char, rules: Seq<Rule>, s: Seq<char>, c: char)
    ensures
        valid_scan(marker, rules, s.push(c)) == valid_step(
            marker,
            rules,
            valid_scan(marker, rules, s),
            c,
        ),
{
    assert(s.push(c).drop_last() =~= s);
}

proof fn lemma_round_trip_seq(marker: char, rules: Seq<Rule>, s: Seq<char>)
    requires
        has_rule_for(rules, marker),
        unique_escaped(rules),
    ensures
        unescape_scan(marker, rules, escape_seq(marker, rules, s)) == (Scan::Reading {
            out: s,
            pending: false,
        }),
    decreases s.len(),
{
    if s.len() == 0 {
        assert(escape_seq(marker, rules, s) =~= Seq::<char>::empty());
        assert(s =~= Seq::<char>::empty());
    } else {
        let p = s.drop_last();
        let c = s.last();
        let done = escape_seq(marker, rules, p);
        lemma_round_trip_seq(marker, rules, p);
        lemma_escaped_for_found(rules, marker);
        lemma_escaped_for_found(rules, c);
        assert(p.push(c) =~= s);
        match escaped_for(rules, c) {
            Some(x) => {
                assert(escape_seq(marker, rules, s) =~= done.push(marker).push(x));
                lemma_unescape_scan_push(marker, rules, done, marker);
                lemma_unescape_scan_push(marker, rules, done.push(marker), x);
                lemma_unescaped_for_found(rules, x);
                let i = choose|i: int|
                    0 <= i < rules.len() && #[trigger] rules[i].unescaped == c && rules[i].escaped
                        == x;
                assert(rules[i].escaped == x);
            },
            None => {
                assert(escape_seq(marker, rules, s) =~= done.push(c));
                lemma_unescape_scan_push(marker, rules, done, c);
            },
        }
    }
}

proof fn lemma_escape_is_escaped_seq(marker: char, rules: Seq<Rule>, s: Seq<char>)
    requires
        has_rule_for(rules, marker),
    ensures
        valid_scan(marker, rules, escape_seq(marker, rules, s)) == Some(false),
    decreases s.len(),
{
    if s.len() > 0 {
        let p = s.drop_last();
        let c = s.last();
        let done = escape_seq(marker, rules, p);
        lemma_escape_is_escaped_seq(marker, rules, p);
        lemma_escaped_for_found(rules, marker);
        lemma_escaped_for_found(rules, c);
        match escaped_for(rules, c) {
            Some(x) => {
                assert(escape_seq(marker, rules, s) =~= done.push(marker).push(x));
                lemma_valid_scan_push(marker, rules, done, marker);
                lemma_valid_scan_push(marker, rules, done.push(marker), x);
                lemma_unescaped_for_found(rules, x);
                let i = choose|i: int|
                    0 <= i < rules.len() && #[trigger] rules[i].unescaped == c && rules[i].escaped
                        == x;
                assert(rules[i].escaped == x);
            },
            None => {
                assert(escape_seq(marker, rules, s) =~= done.push(c));
                lemma_valid_scan_push(marker, rules, done, c);
            },
        }
    }
}

proof fn lemma_valid_scan_reading(marker: char, rules: Seq<Rule>, s: Seq<char>)
    requires
        valid_scan(marker, rules, s) is Some,
    ensures
        unescape_scan(marker, rules, s) matches Scan::Reading { pending, .. } && Some(pending)
            == valid_scan(marker, rules, s),
    decreases s.len(),
{
    if s.len() > 0 {
        lemma_valid_scan_reading(marker, rules, s.drop_last());
        lemma_unescaped_for_found(rules, s.last());
    }
}

/// Escaping and then unescaping gives the input back, for a table that escapes the escape
/// character and repeats no character on either side of its rules.
pub proof fn lemma_round_trip(e: Escaper, s: Seq<char>)
    requires
        has_rule_for(e.table(), e.marker()),
        unique_unescaped(e.table()),
        unique_escaped(e.table()),
    ensures
        unescape_scan(e.marker(), e.table(), escape_seq(e.marker(), e.table(), s)) == (
        Scan::Reading { out: s, pending: false }),
{
    lemma_round_trip_seq(e.marker(), e.table(), s);
}

/// What escaping produces is escaped, for a table that escapes the escape character and
/// repeats no character on either side of its rules.
pub proof fn lemma_escape_is_escaped(e: Escaper, s: Seq<char>)
    requires
        has_rule_for(e.table(), e.marker()),
        unique_unescaped(e.table()),
        unique_escaped(e.table()),
    ensures
        escaped_spec(e.marker(), e.table(), escape_seq(e.marker(), e.table(), s)),
{
    lemma_escape_is_escaped_seq(e.marker(), e.table(), s);
}

/// Unescaping an escaped string succeeds.
pub proof fn lemma_escaped_unescapes(e: Escaper, s: Seq<char>)
    requires
        escaped_spec(e.marker(), e.table(), s),
    ensures
        unescape_scan(e.marker(), e.table(), s) matches Scan::Reading { pending, .. } && !pending,
{
    lemma_valid_scan_reading(e.marker(), e.table(), s);
}

} // verus!
