//! The lexer: it walks the source bytes, skips everything outside the
//! eight-operator alphabet, and tracks the line and column of each byte.

use vstd::prelude::*;

verus! {

/// A one-based position in the source text.
#[derive(Debug, Clone, Copy, PartialEq, Eq, Structural)]
pub struct Location {
    pub line: usize,
    pub column: usize,
}

impl Default for Location {
    fn default() -> (r: Self)
        ensures
            r == (Location { line: 1, column: 1 }),
    {
        Location { line: 1, column: 1 }
    }
}

/// An operator of the language together with the place where it stands.
#[derive(Debug, Clone, Copy, PartialEq, Eq, Structural)]
pub struct Token {
    pub char: char,
    pub location: Location,
}

/// Whether `c` is one of the eight operators `< > + - . , [ ]`.
pub open spec fn is_operator_char(c: char) -> bool {
    c == '<' || c == '>' || c == '+' || c == '-' || c == '.' || c == ',' || c == '[' || c == ']'
}

/// Whether the byte `b` is one of the eight operators.
pub open spec fn is_operator(b: u8) -> bool {
    is_operator_char(b as char)
}

/// The number of newline bytes among the first `i` bytes of `s`.
pub open spec fn newlines_before(s: Seq<u8>, i: int) -> nat
    decreases i,
{
    if i <= 0 || i > s.len() {
        0
    } else if s[i - 1] == 0x0au8 {
        newlines_before(s, i - 1) + 1
    } else {
        newlines_before(s, i - 1)
    }
}

/// The number of bytes that stand between the last newline before index `i`
/// and index `i` itself; all of the first `i` bytes where there is no newline
/// among them.
pub open spec fn bytes_since_newline(s: Seq<u8>, i: int) -> nat
    decreases i,
{
    if i <= 0 || i > s.len() {
        0
    } else if s[i - 1] == 0x0au8 {
        0
    } else {
        bytes_since_newline(s, i - 1) + 1
    }
}

/// The location of the byte at index `i` of `s`.
pub open spec fn location_at(s: Seq<u8>, i: int) -> Location {
    Location {
        line: (1 + newlines_before(s, i)) as usize,
        column: (1 + bytes_since_newline(s, i)) as usize,
    }
}

/// The token that the operator byte at index `i` of `s` stands for.
pub open spec fn token_at(s: Seq<u8>, i: int) -> Token {
    Token { char: s[i] as char, location: location_at(s, i) }
}

/// The index of the first operator byte of `s` at or after index `i`, or the
/// length of `s` where only other bytes follow.
pub open spec fn next_operator(s: Seq<u8>, i: int) -> int
    decreases s.len() - i,
{
    if i < 0 || i >= s.len() {
        s.len() as int
    } else if is_operator(s[i]) {
        i
    } else {
        next_operator(s, i + 1)
    }
}

/// How many operators equal to `c` follow from index `i` on before the first
/// operator that differs from `c`; bytes outside the alphabet do not count
/// and do not end the run.
pub open spec fn run_length(s: Seq<u8>, i: int, c: char) -> nat
    decreases s.len() - i,
{
    if i < 0 || i >= s.len() {
        0
    } else if !is_operator(s[i]) {
        run_length(s, i + 1, c)
    } else if s[i] as char == c {
        1 + run_length(s, i + 1, c)
    } else {
        0
    }
}

/// The index of the first operator at or after index `i` that differs from
/// `c`, or the length of `s` where there is none.
pub open spec fn run_end(s: Seq<u8>, i: int, c: char) -> int
    decreases s.len() - i,
{
    if i < 0 || i >= s.len() {
        s.len() as int
    } else if !is_operator(s[i]) || s[i] as char == c {
        run_end(s, i + 1, c)
    } else {
        i
    }
}

/// The line and column counters never exceed the number of bytes counted.
pub proof fn lemma_location_bounds(s: Seq<u8>, i: int)
    ensures
        newlines_before(s, i) <= i || i < 0,
        bytes_since_newline(s, i) <= i || i < 0,
        newlines_before(s, i) <= s.len(),
        bytes_since_newline(s, i) <= s.len(),
    decreases i,
{
    if i > 0 && i <= s.len() {
        lemma_location_bounds(s, i - 1);
    }
}

/// `next_operator` lands on an operator at or after its start, skipping only
/// bytes outside the alphabet.
pub proof fn lemma_next_operator(s: Seq<u8>, i: int)
    requires
        0 <= i <= s.len(),
    ensures
        i <= next_operator(s, i) <= s.len(),
        next_operator(s, i) < s.len() ==> is_operator(s[next_operator(s, i)]),
        next_operator(s, next_operator(s, i)) == next_operator(s, i),
        forall|j: int| i <= j < next_operator(s, i) ==> !is_operator(#[trigger] s[j]),
    decreases s.len() - i,
{
    if i < s.len() && !is_operator(s[i]) {
        lemma_next_operator(s, i + 1);
    }
}

/// A run counted from `i` is the run counted from the next operator, and it
/// is no longer than what is left of the source.
pub proof fn lemma_run_from_next_operator(s: Seq<u8>, i: int, c: char)
    requires
        0 <= i <= s.len(),
    ensures
        run_length(s, i, c) == run_length(s, next_operator(s, i), c),
        run_end(s, i, c) == run_end(s, next_operator(s, i), c),
        run_length(s, i, c) <= s.len() - i,
        i <= run_end(s, i, c) <= s.len(),
        next_operator(s, run_end(s, i, c)) == run_end(s, i, c),
    decreases s.len() - i,
{
    if i < s.len() {
        lemma_run_from_next_operator(s, i + 1, c);
    }
}

/// A run ends at the end of the source or at an operator that differs.
pub proof fn lemma_run_end_differs(s: Seq<u8>, i: int, c: char)
    requires
        0 <= i <= s.len(),
    ensures
        run_end(s, i, c) < s.len() ==> is_operator(s[run_end(s, i, c)]) && s[run_end(s, i, c)] as char
            != c,
    decreases s.len() - i,
{
    if i < s.len() {
        lemma_run_end_differs(s, i + 1, c);
    }
}

/// A lexer over a source held in memory, with one slot of lookahead.
pub struct Lexer {
    source: Vec<u8>,
    pos: usize,
    location: Location,
    peeked_token: Option<Token>,
}

impl Lexer {
    /// The source bytes.
    pub closed spec fn source(&self) -> Seq<u8> {
        self.source@
    }

    /// The index in the source from which the next token is looked for.
    pub closed spec fn cursor(&self) -> int {
        if self.peeked_token is Some {
            self.pos - 1
        } else {
            self.pos as int
        }
    }

    /// Whether the lookahead slot holds a token.
    pub closed spec fn has_lookahead(&self) -> bool {
        self.peeked_token is Some
    }

    /// The lexer's invariant: the position lies in the source, the location
    /// is that of the byte at the position, where there is one, and a token
    /// in the lookahead slot is the operator just before the position.
    pub closed spec fn wf(&self) -> bool {
        &&& self.pos <= self.source@.len()
        &&& self.pos < self.source@.len() ==> {
            &&& self.location.line == 1 + newlines_before(self.source@, self.pos as int)
            &&& self.location.column == 1 + bytes_since_newline(self.source@, self.pos as int)
        }
        &&& match self.peeked_token {
            Some(t) => self.pos >= 1 && is_operator(self.source@[self.pos - 1]) && t == token_at(
                self.source@,
                self.pos - 1,
            ),
            None => true,
        }
    }

    /// In a well-formed lexer the cursor lies in the source, and a token in
    /// the lookahead slot stands at the cursor.
    pub proof fn lemma_cursor_bounds(&self)
        requires
            self.wf(),
        ensures
            0 <= self.cursor() <= self.source().len() <= usize::MAX,
            self.has_lookahead() ==> self.cursor() < self.source().len() && is_operator(
                self.source()[self.cursor()],
            ),
    {
        assert(self.source@.len() == self.source.len());
    }

    /// A lexer at the start of `source`.
    pub fn new(source: Vec<u8>) -> (lexer: Self)
        ensures
            lexer.wf(),
            lexer.source() == source@,
            lexer.cursor() == 0,
            !lexer.has_lookahead(),
    {
        Lexer { source, pos: 0, location: Location::default(), peeked_token: None }
    }

    /// Whether `candidate` belongs to the alphabet of the language.
    pub fn is_char_in_language(candidate: char) -> (r: bool)
        ensures
            r == is_operator_char(candidate),
    {
        candidate == '<' || candidate == '>' || candidate == '+' || candidate == '-' || candidate
            == '.' || candidate == ',' || candidate == '[' || candidate == ']'
    }

    /// Yields and consumes the next token, or `None` at the end of the
    /// source. Bytes outside the alphabet are skipped.
    pub fn chop(&mut self) -> (r: Option<Token>)
        requires
            old(self).wf(),
        ensures
            final(self).wf(),
            final(self).source() == old(self).source(),
            !final(self).has_lookahead(),
            ({
                let s = old(self).source();
                let k = next_operator(s, old(self).cursor());
                if k < s.len() {
                    r == Some(token_at(s, k)) && final(self).cursor() == k + 1
                } else {
                    r is None && final(self).cursor() == s.len()
                }
            }),
    {
        if let Some(token) = self.peeked_token {
            self.peeked_token = None;
            return Some(token);
        }
        let ghost s = self.source@;
        let ghost start = self.pos as int;
        let mut location = self.location;
        let mut byte: u8 = 0;
        while !Self::is_char_in_language(byte as char)
            invariant
                self.wf(),
                self.peeked_token is None,
                self.source@ == s,
                s == old(self).source(),
                start == old(self).cursor(),
                0 <= start <= self.pos,
                !is_operator(0u8),
                is_operator(byte) ==> self.pos >= 1 && byte == s[self.pos - 1] && location
                    == location_at(s, self.pos - 1) && next_operator(s, start) == self.pos - 1,
                !is_operator(byte) ==> next_operator(s, start) == next_operator(
                    s,
                    self.pos as int,
                ),
            decreases s.len() - self.pos + (if is_operator(byte) { 0int } else { 1int }),
        {
            location = self.location;
            if self.pos >= self.source.len() {
                return None;
            }
            proof {
                lemma_location_bounds(s, self.pos as int);
            }
            byte = self.source[self.pos];
            self.pos += 1;
            // The location is that of the next byte: there is nothing to
            // locate behind the last one.
            if self.pos < self.source.len() {
                if byte == 0x0a {
                    self.location.column = 1;
                    self.location.line += 1;
                } else {
                    self.location.column += 1;
                }
            }
        }
        Some(Token { char: byte as char, location })
    }

    /// Yields the next token without consuming it, or `None` at the end of
    /// the source. A second call yields the same token.
    pub fn peek(&mut self) -> (r: Option<Token>)
        requires
            old(self).wf(),
        ensures
            final(self).wf(),
            final(self).source() == old(self).source(),
            ({
                let s = old(self).source();
                let k = next_operator(s, old(self).cursor());
                &&& final(self).cursor() == k
                &&& r == if k < s.len() {
                    Some(token_at(s, k))
                } else {
                    None
                }
            }),
            final(self).has_lookahead() == (r is Some),
    {
        if let Some(token) = self.peeked_token {
            return Some(token);
        }
        proof {
            lemma_next_operator(self.source@, self.pos as int);
        }
        self.peeked_token = self.chop();
        self.peeked_token
    }

    /// Consumes the maximal run of tokens whose operator is that of `token`
    /// and returns how many there were. The first token that differs is left
    /// in place.
    pub fn chop_while(&mut self, token: &Token) -> (count: usize)
        requires
            old(self).wf(),
        ensures
            final(self).wf(),
            final(self).source() == old(self).source(),
            count == run_length(old(self).source(), old(self).cursor(), token.char),
            final(self).cursor() == run_end(old(self).source(), old(self).cursor(), token.char),
    {
        let ghost s = self.source@;
        let ghost start = self.cursor();
        proof {
            self.lemma_cursor_bounds();
        }
        let mut count: usize = 0;
        let mut more = true;
        while more
            invariant
                self.wf(),
                self.source@ == s,
                0 <= self.cursor() <= s.len() <= usize::MAX,
                count <= self.cursor(),
                count + run_length(s, self.cursor(), token.char) == run_length(
                    s,
                    start,
                    token.char,
                ),
                run_end(s, self.cursor(), token.char) == run_end(s, start, token.char),
                !more ==> run_length(s, self.cursor(), token.char) == 0 && run_end(
                    s,
                    self.cursor(),
                    token.char,
                ) == self.cursor(),
            decreases s.len() - self.cursor() + (if more { 1int } else { 0int }),
        {
            proof {
                lemma_next_operator(s, self.cursor());
                lemma_run_from_next_operator(s, self.cursor(), token.char);
            }
            let candidate = self.peek();
            more = match candidate {
                Some(t) => t.char == token.char,
                None => false,
            };
            if more {
                proof {
                    lemma_run_from_next_operator(s, self.cursor() + 1, token.char);
                }
                self.chop();
                count += 1;
            }
        }
        count
    }
}

} // verus!
