use vstd::prelude::*;
use vstd::string::StrSliceExecFns;

verus! {

/// An indentation depth, measured in raw whitespace characters.
pub type Indent = usize;

// ---------------------------------------------------------------------------
// Character classes of the lexical grammar.
// ---------------------------------------------------------------------------

/// Whitespace inside a line: space or tab.
pub open spec fn is_line_ws(c: char) -> bool {
    c == ' ' || c == '\t'
}

/// A line terminator character.
pub open spec fn is_newline(c: char) -> bool {
    c == '\n' || c == '\r'
}

/// A character that may begin an identifier token.
pub open spec fn is_ident_start(c: char) -> bool {
    ('a' <= c && c <= 'z') || ('A' <= c && c <= 'Z') || c == '_' || c == '$'
}

/// A decimal digit.
pub open spec fn is_digit(c: char) -> bool {
    '0' <= c && c <= '9'
}

/// A character that may continue an identifier token.
pub open spec fn is_ident_char(c: char) -> bool {
    is_ident_start(c) || is_digit(c) || c == '-'
}

/// A character that may continue a number token.
pub open spec fn is_num_char(c: char) -> bool {
    is_digit(c) || c == '.'
}

// ---------------------------------------------------------------------------
// Scanning functions: each gives the exact position where a lexical run ends.
// ---------------------------------------------------------------------------

/// First position at or after `p` holding no space or tab (or the end of `s`).
pub open spec fn ws_end(s: Seq<char>, p: int) -> int
    decreases s.len() - p,
{
    if p < s.len() && is_line_ws(s[p]) {
        ws_end(s, p + 1)
    } else {
        p
    }
}

/// First position at or after `p` holding no line terminator (or the end of `s`).
pub open spec fn nl_end(s: Seq<char>, p: int) -> int
    decreases s.len() - p,
{
    if p < s.len() && is_newline(s[p]) {
        nl_end(s, p + 1)
    } else {
        p
    }
}

/// End of an identifier run that continues at `p`.
pub open spec fn ident_end(s: Seq<char>, p: int) -> int
    decreases s.len() - p,
{
    if p < s.len() && is_ident_char(s[p]) {
        ident_end(s, p + 1)
    } else {
        p
    }
}

/// End of a number run that continues at `p`.
pub open spec fn num_end(s: Seq<char>, p: int) -> int
    decreases s.len() - p,
{
    if p < s.len() && is_num_char(s[p]) {
        num_end(s, p + 1)
    } else {
        p
    }
}

/// End of a quoted string whose opening quote `q` stands just before `p`.
/// A backslash escapes the following character; an unterminated string
/// extends to the end of the source.
pub open spec fn string_end(s: Seq<char>, p: int, q: char) -> int
    decreases s.len() - p,
{
    if p >= s.len() {
        s.len() as int
    } else if s[p] == '\\' {
        if p + 2 <= s.len() {
            string_end(s, p + 2, q)
        } else {
            s.len() as int
        }
    } else if s[p] == q {
        p + 1
    } else {
        string_end(s, p + 1, q)
    }
}

/// End position of the token that starts exactly at `p` (`s[p]` must be a
/// non-whitespace, non-newline character).
pub open spec fn token_end(s: Seq<char>, p: int) -> int {
    if is_ident_start(s[p]) {
        ident_end(s, p + 1)
    } else if s[p] == '"' || s[p] == '\'' {
        string_end(s, p + 1, s[p])
    } else if is_digit(s[p]) {
        num_end(s, p + 1)
    } else {
        p + 1
    }
}

/// The span (start, end) of the next token when scanning from `p`, after
/// skipping spaces and tabs. `None` when the line has ended (a newline is
/// next) or the source is exhausted.
pub open spec fn next_token(s: Seq<char>, p: int) -> Option<(int, int)> {
    let j = ws_end(s, p);
    if j < s.len() && !is_newline(s[j]) {
        Some((j, token_end(s, j)))
    } else {
        None
    }
}

/// The scan position after one token request at `p`: past the token and its
/// trailing spaces/tabs, or past a run of line terminators, or at the end.
pub open spec fn pos_after_token(s: Seq<char>, p: int) -> int {
    let j = ws_end(s, p);
    if j >= s.len() {
        j
    } else if is_newline(s[j]) {
        nl_end(s, j)
    } else {
        ws_end(s, token_end(s, j))
    }
}

/// The span of the next token when scanning from `p` with newlines treated
/// as ordinary whitespace. `None` only when no token remains at all.
pub open spec fn next_token_ign(s: Seq<char>, p: int) -> Option<(int, int)>
    decreases s.len() - p,
{
    if p >= s.len() {
        None
    } else if is_line_ws(s[p]) || is_newline(s[p]) {
        next_token_ign(s, p + 1)
    } else {
        Some((p, token_end(s, p)))
    }
}

/// One indentation reading from `p`, with `counted` whitespace characters
/// already seen on the current line. Yields (indentation, lines skipped,
/// position of the first character after the indentation). Each line
/// terminator that is crossed counts as one skipped line; at the end of the
/// source the indentation is reported as zero.
pub open spec fn indent_scan_from(s: Seq<char>, p: int, counted: int) -> (int, int, int)
    decreases s.len() - p,
{
    if p >= s.len() {
        (0, 0, p)
    } else if is_line_ws(s[p]) {
        indent_scan_from(s, p + 1, counted + 1)
    } else if is_newline(s[p]) {
        let r = indent_scan_from(s, p + 1, 0);
        (r.0, r.1 + 1, r.2)
    } else {
        (counted, 0, p)
    }
}

/// The indentation reading that begins a fresh scan at `p`.
pub open spec fn indent_scan(s: Seq<char>, p: int) -> (int, int, int) {
    indent_scan_from(s, p, 0)
}

/// First position at or after `p` holding `'\n'` (or the end of `s`).
/// Carriage returns do not end a line here; they stay part of its text.
pub open spec fn line_end(s: Seq<char>, p: int) -> int
    decreases s.len() - p,
{
    if p < s.len() && s[p] != '\n' {
        line_end(s, p + 1)
    } else {
        p
    }
}

// ---------------------------------------------------------------------------
// Bounds lemmas for the scanning functions.
// ---------------------------------------------------------------------------

pub proof fn lemma_ws_end_bounds(s: Seq<char>, p: int)
    requires
        0 <= p <= s.len(),
    ensures
        p <= ws_end(s, p) <= s.len(),
        ws_end(s, p) < s.len() ==> !is_line_ws(s[ws_end(s, p)]),
    decreases s.len() - p,
{
    if p < s.len() && is_line_ws(s[p]) {
        lemma_ws_end_bounds(s, p + 1);
    }
}

pub proof fn lemma_nl_end_bounds(s: Seq<char>, p: int)
    requires
        0 <= p <= s.len(),
    ensures
        p <= nl_end(s, p) <= s.len(),
    decreases s.len() - p,
{
    if p < s.len() && is_newline(s[p]) {
        lemma_nl_end_bounds(s, p + 1);
    }
}

pub proof fn lemma_ident_end_bounds(s: Seq<char>, p: int)
    requires
        0 <= p <= s.len(),
    ensures
        p <= ident_end(s, p) <= s.len(),
    decreases s.len() - p,
{
    if p < s.len() && is_ident_char(s[p]) {
        lemma_ident_end_bounds(s, p + 1);
    }
}

pub proof fn lemma_num_end_bounds(s: Seq<char>, p: int)
    requires
        0 <= p <= s.len(),
    ensures
        p <= num_end(s, p) <= s.len(),
    decreases s.len() - p,
{
    if p < s.len() && is_num_char(s[p]) {
        lemma_num_end_bounds(s, p + 1);
    }
}

pub proof fn lemma_string_end_bounds(s: Seq<char>, p: int, q: char)
    requires
        0 <= p <= s.len(),
    ensures
        p <= string_end(s, p, q) <= s.len(),
    decreases s.len() - p,
{
    if p < s.len() {
        if s[p] == '\\' {
            if p + 2 <= s.len() {
                lemma_string_end_bounds(s, p + 2, q);
            }
        } else if s[p] != q {
            lemma_string_end_bounds(s, p + 1, q);
        }
    }
}

/// The end of a token that starts at `p` lies strictly beyond `p` and within
/// the source.
pub proof fn lemma_token_end_bounds(s: Seq<char>, p: int)
    requires
        0 <= p < s.len(),
    ensures
        p < token_end(s, p) <= s.len(),
{
    if is_ident_start(s[p]) {
        lemma_ident_end_bounds(s, p + 1);
    } else if s[p] == '"' || s[p] == '\'' {
        lemma_string_end_bounds(s, p + 1, s[p]);
    } else if is_digit(s[p]) {
        lemma_num_end_bounds(s, p + 1);
    }
}

pub proof fn lemma_pos_after_token_bounds(s: Seq<char>, p: int)
    requires
        0 <= p <= s.len(),
    ensures
        p <= pos_after_token(s, p) <= s.len(),
        next_token(s, p) is Some ==> {
            let (a, b) = next_token(s, p).unwrap();
            p <= a < b <= pos_after_token(s, p)
        },
{
    lemma_ws_end_bounds(s, p);
    let j = ws_end(s, p);
    if j < s.len() {
        if is_newline(s[j]) {
            lemma_nl_end_bounds(s, j);
        } else {
            lemma_token_end_bounds(s, j);
            lemma_ws_end_bounds(s, token_end(s, j));
        }
    }
}

pub proof fn lemma_indent_scan_bounds(s: Seq<char>, p: int, counted: int)
    requires
        0 <= p <= s.len(),
    ensures
        p <= indent_scan_from(s, p, counted).2 <= s.len(),
        indent_scan_from(s, p, counted).1 >= 0,
        counted >= 0 ==> indent_scan_from(s, p, counted).0 >= 0,
        indent_scan_from(s, p, counted).2 == s.len() ==> indent_scan_from(s, p, counted).0 == 0,
        indent_scan_from(s, p, counted).2 < s.len() ==> !is_line_ws(
            s[indent_scan_from(s, p, counted).2],
        ) && !is_newline(s[indent_scan_from(s, p, counted).2]),
    decreases s.len() - p,
{
    if p < s.len() {
        if is_line_ws(s[p]) {
            lemma_indent_scan_bounds(s, p + 1, counted + 1);
        } else if is_newline(s[p]) {
            lemma_indent_scan_bounds(s, p + 1, 0);
        }
    }
}

pub proof fn lemma_line_end_bounds(s: Seq<char>, p: int)
    requires
        0 <= p <= s.len(),
    ensures
        p <= line_end(s, p) <= s.len(),
    decreases s.len() - p,
{
    if p < s.len() && s[p] != '\n' {
        lemma_line_end_bounds(s, p + 1);
    }
}

/// Scanning for a token with newlines ignored gives the same span wherever
/// inside a whitespace run the scan begins.
pub proof fn lemma_ign_ws_run(s: Seq<char>, p: int)
    requires
        0 <= p <= s.len(),
    ensures
        next_token_ign(s, p) == next_token_ign(s, ws_end(s, p)),
    decreases s.len() - p,
{
    if p < s.len() && is_line_ws(s[p]) {
        lemma_ign_ws_run(s, p + 1);
    }
}

/// Scanning for a token with newlines ignored skips a run of newlines whole.
pub proof fn lemma_ign_nl_run(s: Seq<char>, p: int)
    requires
        0 <= p <= s.len(),
    ensures
        next_token_ign(s, p) == next_token_ign(s, nl_end(s, p)),
    decreases s.len() - p,
{
    if p < s.len() && is_newline(s[p]) {
        lemma_ign_nl_run(s, p + 1);
    }
}

/// A token found with newlines ignored starts at a character that opens an
/// ordinary token, so an ordinary scan at its start yields the same span.
pub proof fn lemma_ign_result(s: Seq<char>, p: int)
    requires
        0 <= p <= s.len(),
    ensures
        match next_token_ign(s, p) {
            Some((a, b)) => {
                &&& p <= a < s.len()
                &&& !is_line_ws(s[a]) && !is_newline(s[a])
                &&& b == token_end(s, a)
                &&& a < b <= s.len()
                &&& next_token(s, a) == Some((a, b))
            },
            None => true,
        },
    decreases s.len() - p,
{
    if p < s.len() {
        if is_line_ws(s[p]) || is_newline(s[p]) {
            lemma_ign_result(s, p + 1);
        } else {
            lemma_token_end_bounds(s, p);
            assert(ws_end(s, p) == p);
        }
    }
}

// ---------------------------------------------------------------------------
// The tokenizer.
// ---------------------------------------------------------------------------

/// A lookahead tokenizer over one source text. It hands out tokens and
/// indentation readings, each with one reading of lookahead.
pub struct Tokenizer<'a> {
    file_string: &'a str,
    length: usize,
    char_idx: usize,
    held_token: Option<(usize, usize)>,
    held_indent: Option<(usize, usize)>,
}

impl<'a> Tokenizer<'a> {
    /// The source text being tokenized, as a sequence of characters.
    pub closed spec fn src(self) -> Seq<char> {
        self.file_string@
    }

    /// The current scan position, as a character index into the source.
    pub closed spec fn pos(self) -> int {
        self.char_idx as int
    }

    /// The span of the cached lookahead token, if one is held.
    pub closed spec fn held_token_view(self) -> Option<(int, int)> {
        match self.held_token {
            Some((a, b)) => Some((a as int, b as int)),
            None => None,
        }
    }

    /// The cached indentation reading, if one is held.
    pub closed spec fn held_indent_view(self) -> Option<(int, int)> {
        match self.held_indent {
            Some((i, e)) => Some((i as int, e as int)),
            None => None,
        }
    }

    /// Internal consistency: the position lies inside the source and a held
    /// token is exactly what a scan at its start position yields.
    pub closed spec fn wf(self) -> bool {
        &&& self.length as int == self.file_string@.len()
        &&& self.char_idx as int <= self.file_string@.len()
        &&& match self.held_token {
            Some((a, b)) => {
                &&& next_token(self.file_string@, a as int) == Some((a as int, b as int))
                &&& a < b
                &&& b <= self.char_idx
            },
            None => true,
        }
    }

    /// The position of the next unconsumed text: the start of the held token
    /// if one is cached, the scan position otherwise.
    pub open spec fn eff_pos(self) -> int {
        match self.held_token_view() {
            Some((a, _)) => a,
            None => self.pos(),
        }
    }

    /// The span the next `peek` or `consume` will yield.
    pub open spec fn peek_span(self) -> Option<(int, int)> {
        match self.held_token_view() {
            Some(t) => Some(t),
            None => next_token(self.src(), self.pos()),
        }
    }

    /// The indentation reading the next `peek_indent` or `consume_indent`
    /// will yield.
    pub open spec fn indent_reading(self) -> (int, int) {
        match self.held_indent_view() {
            Some(r) => r,
            None => {
                let sc = indent_scan(self.src(), self.pos());
                (sc.0, sc.1)
            },
        }
    }

    /// A tokenizer at the start of `file_string`, with nothing cached.
    pub fn new(file_string: &'a str) -> (t: Tokenizer<'a>)
        ensures
            t.wf(),
            t.src() == file_string@,
            t.pos() == 0,
            t.held_token_view() is None,
            t.held_indent_view() is None,
    {
        let length = file_string.unicode_len();
        Tokenizer { file_string, length, char_idx: 0, held_token: None, held_indent: None }
    }

    /// Bounds that well-formedness puts on the positions of a tokenizer.
    pub proof fn lemma_wf_bounds(t: Tokenizer<'a>)
        requires
            t.wf(),
        ensures
            0 <= t.eff_pos() <= t.src().len(),
            0 <= t.pos() <= t.src().len(),
            t.eff_pos() <= t.pos(),
            t.held_token_view() is None ==> t.eff_pos() == t.pos(),
    {
    }

    /// The character at position `i` of the source.
    fn ch(&self, i: usize) -> (c: char)
        requires
            self.wf(),
            i < self.src().len(),
        ensures
            c == self.src()[i as int],
    {
        self.file_string.get_char(i)
    }

    /// Gets the indentation of the next line, consuming up to the first
    /// non-whitespace character. Also returns the number of lines crossed
    /// since the current one.
    #[verifier::loop_isolation(false)]
    pub fn consume_indent(&mut self) -> (r: (Indent, usize))
        requires
            old(self).wf(),
        ensures
            final(self).wf(),
            final(self).src() == old(self).src(),
            final(self).held_indent_view() is None,
            final(self).held_token_view() == old(self).held_token_view(),
            (r.0 as int, r.1 as int) == old(self).indent_reading(),
            match old(self).held_indent_view() {
                Some(_) => final(self).pos() == old(self).pos(),
                None => final(self).pos() == indent_scan(old(self).src(), old(self).pos()).2,
            },
            old(self).eff_pos() <= final(self).eff_pos() <= final(self).src().len(),
            old(self).held_token_view() is None ==> final(self).eff_pos() == final(self).pos(),
    {
        proof {
            Self::lemma_wf_bounds(*old(self));
        }
        if let Some(cached) = self.held_indent {
            self.held_indent = None;
            return cached;
        }
        let ghost s = self.src();
        let ghost p0 = self.pos();
        let mut p = self.char_idx;
        let mut counted: usize = 0;
        let mut empty_lines: usize = 0;
        loop
            invariant
                self.wf(),
                self.pos() == p0,
                s == self.src(),
                self.held_indent_view() is None,
                self.held_token_view() == old(self).held_token_view(),
                0 <= p0 <= p as int <= s.len(),
                counted <= p,
                empty_lines <= p,
                indent_scan(s, p0) == {
                    let r = indent_scan_from(s, p as int, counted as int);
                    (r.0, r.1 + empty_lines as int, r.2)
                },
            decreases s.len() - p as int,
        {
            if p >= self.length {
                proof {
                    lemma_indent_scan_bounds(s, p as int, counted as int);
                }
                self.char_idx = p;
                return (0, empty_lines);
            }
            let c = self.ch(p);
            if c == ' ' || c == '\t' {
                counted = counted + 1;
                p = p + 1;
            } else if c == '\n' || c == '\r' {
                empty_lines = empty_lines + 1;
                counted = 0;
                p = p + 1;
            } else {
                self.char_idx = p;
                return (counted, empty_lines);
            }
        }
    }

    /// Peeks at the indentation of the next line, consuming up to the first
    /// non-whitespace character but caching the reading.
    pub fn peek_indent(&mut self) -> (r: (Indent, usize))
        requires
            old(self).wf(),
        ensures
            final(self).wf(),
            final(self).src() == old(self).src(),
            final(self).held_token_view() == old(self).held_token_view(),
            (r.0 as int, r.1 as int) == old(self).indent_reading(),
            final(self).held_indent_view() == Some((r.0 as int, r.1 as int)),
            final(self).indent_reading() == old(self).indent_reading(),
            match old(self).held_indent_view() {
                Some(_) => final(self).pos() == old(self).pos(),
                None => final(self).pos() == indent_scan(old(self).src(), old(self).pos()).2,
            },
            old(self).eff_pos() <= final(self).eff_pos() <= final(self).src().len(),
            old(self).held_token_view() is None ==> final(self).eff_pos() == final(self).pos(),
    {
        if let Some(cached) = self.held_indent {
            cached
        } else {
            let reading = self.consume_indent();
            self.held_indent = Some(reading);
            reading
        }
    }

    /// Consumes a single token, returning it. `None` is returned when the
    /// current line has ended (the newline run is then consumed) or the
    /// source is exhausted.
    pub fn consume(&mut self) -> (r: Option<&'a str>)
        requires
            old(self).wf(),
        ensures
            final(self).wf(),
            final(self).src() == old(self).src(),
            final(self).held_token_view() is None,
            final(self).held_indent_view() is None,
            match old(self).peek_span() {
                Some((a, b)) => {
                    &&& r is Some
                    &&& r.unwrap()@ == old(self).src().subrange(a, b)
                    &&& final(self).eff_pos() >= b
                    &&& final(self).eff_pos() > old(self).eff_pos()
                },
                None => r is None,
            },
            final(self).eff_pos() >= old(self).eff_pos(),
            final(self).eff_pos() <= final(self).src().len(),
            match old(self).peek_span() {
                Some((a, b)) => old(self).eff_pos() <= a < b <= old(self).src().len(),
                None => true,
            },
            old(self).held_token_view() is Some ==> final(self).pos() == old(self).pos(),
            old(self).held_token_view() is None ==> final(self).pos() == pos_after_token(
                old(self).src(),
                old(self).pos(),
            ),
    {
        if self.held_indent.is_some() {
            self.held_indent = None;
        }
        if let Some((a, b)) = self.held_token {
            self.held_token = None;
            return Some(self.file_string.substring_char(a, b));
        }
        let ghost s = self.src();
        let ghost p0 = self.pos();
        proof {
            lemma_pos_after_token_bounds(s, p0);
            lemma_ws_end_bounds(s, p0);
        }
        match self.get_token() {
            Some((a, b)) => Some(self.file_string.substring_char(a, b)),
            None => None,
        }
    }

    /// Peeks at the next token without consuming it.
    pub fn peek(&mut self) -> (r: Option<&'a str>)
        requires
            old(self).wf(),
        ensures
            final(self).wf(),
            final(self).src() == old(self).src(),
            final(self).held_indent_view() is None,
            final(self).held_token_view() == old(self).peek_span(),
            final(self).eff_pos() >= old(self).eff_pos(),
            final(self).eff_pos() <= final(self).src().len(),
            old(self).held_token_view() is Some ==> final(self).pos() == old(self).pos(),
            old(self).held_token_view() is None ==> final(self).pos() == pos_after_token(
                old(self).src(),
                old(self).pos(),
            ),
            match old(self).peek_span() {
                Some((a, b)) => {
                    &&& old(self).eff_pos() <= a < b <= old(self).src().len()
                    &&& r is Some
                    &&& r.unwrap()@ == old(self).src().subrange(a, b)
                    &&& final(self).peek_span() == old(self).peek_span()
                    &&& final(self).eff_pos() == a
                },
                None => r is None && final(self).eff_pos() == final(self).pos(),
            },
    {
        if self.held_indent.is_some() {
            self.held_indent = None;
        }
        if self.held_token.is_none() {
            let ghost s = self.src();
            let ghost p0 = self.pos();
            proof {
                lemma_pos_after_token_bounds(s, p0);
                lemma_ws_end_bounds(s, p0);
            }
            self.held_token = self.get_token();
            proof {
                if next_token(s, p0) is Some {
                    let (a, b) = next_token(s, p0).unwrap();
                    assert(ws_end(s, a) == a);
                    assert(next_token(s, a) == Some((a, b)));
                }
            }
        }
        match self.held_token {
            Some((a, b)) => Some(self.file_string.substring_char(a, b)),
            None => None,
        }
    }

    /// Consumes a single token, treating newlines as ordinary whitespace.
    /// `None` is returned only when no token remains in the source at all.
    pub fn consume_ignore_newline(&mut self) -> (r: Option<&'a str>)
        requires
            old(self).wf(),
        ensures
            final(self).wf(),
            final(self).src() == old(self).src(),
            final(self).held_token_view() is None,
            final(self).held_indent_view() is None,
            match old(self).peek_span_ign() {
                Some((a, b)) => {
                    &&& old(self).eff_pos() <= a < b <= old(self).src().len()
                    &&& r is Some
                    &&& r.unwrap()@ == old(self).src().subrange(a, b)
                    &&& final(self).eff_pos() >= b
                    &&& final(self).eff_pos() > old(self).eff_pos()
                },
                None => r is None,
            },
            final(self).eff_pos() >= old(self).eff_pos(),
            final(self).eff_pos() <= final(self).src().len(),
            old(self).held_token_view() is Some ==> final(self).pos() == old(self).pos(),
            old(self).held_token_view() is None ==> final(self).pos() == match next_token_ign(
                old(self).src(),
                old(self).pos(),
            ) {
                Some((a, b)) => ws_end(old(self).src(), b),
                None => old(self).src().len() as int,
            },
    {
        if self.held_indent.is_some() {
            self.held_indent = None;
        }
        if let Some((a, b)) = self.held_token {
            self.held_token = None;
            return Some(self.file_string.substring_char(a, b));
        }
        let ghost s = self.src();
        let ghost p0 = self.pos();
        proof {
            lemma_ign_result(s, p0);
            if next_token_ign(s, p0) is Some {
                lemma_ws_end_bounds(s, next_token_ign(s, p0).unwrap().1);
            }
        }
        match self.get_token_ignore_newline() {
            Some((a, b)) => Some(self.file_string.substring_char(a, b)),
            None => None,
        }
    }

    /// Peeks at the next token, treating newlines as ordinary whitespace.
    pub fn peek_ignore_newline(&mut self) -> (r: Option<&'a str>)
        requires
            old(self).wf(),
        ensures
            final(self).wf(),
            final(self).src() == old(self).src(),
            final(self).held_indent_view() is None,
            final(self).held_token_view() == old(self).peek_span_ign(),
            final(self).peek_span() == old(self).peek_span_ign(),
            final(self).peek_span_ign() == old(self).peek_span_ign(),
            final(self).eff_pos() >= old(self).eff_pos(),
            final(self).eff_pos() <= final(self).src().len(),
            old(self).held_token_view() is Some ==> final(self).pos() == old(self).pos(),
            old(self).held_token_view() is None ==> final(self).pos() == match next_token_ign(
                old(self).src(),
                old(self).pos(),
            ) {
                Some((a, b)) => ws_end(old(self).src(), b),
                None => old(self).src().len() as int,
            },
            match old(self).peek_span_ign() {
                Some((a, b)) => {
                    &&& old(self).eff_pos() <= a < b <= old(self).src().len()
                    &&& r is Some
                    &&& r.unwrap()@ == old(self).src().subrange(a, b)
                },
                None => r is None,
            },
    {
        if self.held_indent.is_some() {
            self.held_indent = None;
        }
        if self.held_token.is_none() {
            let ghost s = self.src();
            let ghost p0 = self.pos();
            proof {
                lemma_ign_result(s, p0);
                if next_token_ign(s, p0) is Some {
                    lemma_ws_end_bounds(s, next_token_ign(s, p0).unwrap().1);
                }
            }
            self.held_token = self.get_token_ignore_newline();
        }
        match self.held_token {
            Some((a, b)) => Some(self.file_string.substring_char(a, b)),
            None => None,
        }
    }

    /// Consumes the rest of the current line, starting at a held token if one
    /// was peeked, up to but not including the next `'\n'`.
    #[verifier::loop_isolation(false)]
    pub fn consume_line(&mut self) -> (r: Option<&'a str>)
        requires
            old(self).wf(),
        ensures
            final(self).wf(),
            final(self).src() == old(self).src(),
            final(self).held_token_view() is None,
            final(self).held_indent_view() is None,
            r is Some,
            old(self).eff_pos() <= line_end(old(self).src(), old(self).pos()),
            r.unwrap()@ == old(self).src().subrange(
                old(self).eff_pos(),
                line_end(old(self).src(), old(self).pos()),
            ),
            final(self).pos() == line_end(old(self).src(), old(self).pos()),
            final(self).eff_pos() >= old(self).eff_pos(),
            final(self).eff_pos() == line_end(old(self).src(), old(self).pos()),
            old(self).held_token_view() is Some ==> final(self).eff_pos() > old(self).eff_pos(),
    {
        if self.held_indent.is_some() {
            self.held_indent = None;
        }
        let ghost s = self.src();
        let ghost p0 = self.pos();
        let start = if let Some((a, _)) = self.held_token {
            self.held_token = None;
            a
        } else {
            self.char_idx
        };
        let mut p = self.char_idx;
        loop
            invariant
                self.wf(),
                s == old(self).src(),
                s == self.src(),
                self.pos() == p0,
                p0 == old(self).pos(),
                start as int == old(self).eff_pos(),
                self.held_token_view() is None,
                self.held_indent_view() is None,
                start as int <= p0 <= p as int <= s.len(),
                line_end(s, p0) == line_end(s, p as int),
            decreases s.len() - p as int,
        {
            if p >= self.length {
                break;
            }
            let c = self.ch(p);
            if c == '\n' {
                break;
            }
            p = p + 1;
        }
        self.char_idx = p;
        Some(self.file_string.substring_char(start, p))
    }

    /// The span the next `peek_ignore_newline` or `consume_ignore_newline`
    /// will yield.
    pub open spec fn peek_span_ign(self) -> Option<(int, int)> {
        match self.held_token_view() {
            Some(t) => Some(t),
            None => next_token_ign(self.src(), self.pos()),
        }
    }

    /// Scans a single token, skipping any leading spaces and tabs. Yields the
    /// token's span, or `None` at a line end (consuming the newline run) or
    /// at the end of the source.
    #[verifier::loop_isolation(false)]
    fn get_token(&mut self) -> (r: Option<(usize, usize)>)
        requires
            old(self).wf(),
            old(self).held_token_view() is None,
        ensures
            final(self).wf(),
            final(self).src() == old(self).src(),
            final(self).held_token_view() is None,
            final(self).held_indent_view() == old(self).held_indent_view(),
            final(self).pos() == pos_after_token(old(self).src(), old(self).pos()),
            match next_token(old(self).src(), old(self).pos()) {
                Some((a, b)) => r == Some((a as usize, b as usize)),
                None => r is None,
            },
    {
        let ghost s = self.src();
        let ghost p0 = self.pos();
        proof {
            lemma_pos_after_token_bounds(s, p0);
        }
        let mut p = self.char_idx;
        // Skip spaces and tabs before the token.
        loop
            invariant
                p0 <= p as int <= s.len(),
                ws_end(s, p0) == ws_end(s, p as int),
            decreases s.len() - p as int,
        {
            if p >= self.length {
                break;
            }
            let c = self.ch(p);
            if c == ' ' || c == '\t' {
                p = p + 1;
            } else {
                break;
            }
        }
        assert(p as int == ws_end(s, p0));
        if p >= self.length {
            self.char_idx = p;
            return None;
        }
        let c = self.ch(p);
        if c == '\n' || c == '\r' {
            // A newline ends the line: consume the whole newline run.
            loop
                invariant
                    ws_end(s, p0) <= p as int <= s.len(),
                    nl_end(s, ws_end(s, p0)) == nl_end(s, p as int),
                decreases s.len() - p as int,
            {
                if p >= self.length {
                    break;
                }
                let c2 = self.ch(p);
                if c2 == '\n' || c2 == '\r' {
                    p = p + 1;
                } else {
                    break;
                }
            }
            assert(p as int == nl_end(s, ws_end(s, p0)));
            self.char_idx = p;
            return None;
        }
        let start = p;
        let end: usize;
        if is_ident_start_exec(c) {
            p = p + 1;
            loop
                invariant
                    start as int + 1 <= p as int <= s.len(),
                    ident_end(s, start as int + 1) == ident_end(s, p as int),
                decreases s.len() - p as int,
            {
                if p >= self.length {
                    break;
                }
                let c2 = self.ch(p);
                if is_ident_char_exec(c2) {
                    p = p + 1;
                } else {
                    break;
                }
            }
            end = p;
        } else if c == '"' || c == '\'' {
            p = p + 1;
            loop
                invariant
                    start as int + 1 <= p as int <= s.len(),
                    string_end(s, start as int + 1, c) == string_end(s, p as int, c),
                decreases s.len() - p as int,
            {
                if p >= self.length {
                    break;
                }
                let c2 = self.ch(p);
                if c2 == '\\' {
                    if self.length - p >= 2 {
                        p = p + 2;
                    } else {
                        p = self.length;
                        break;
                    }
                } else if c2 == c {
                    p = p + 1;
                    break;
                } else {
                    p = p + 1;
                }
            }
            assert(p as int == string_end(s, start as int + 1, c));
            end = p;
        } else if '0' <= c && c <= '9' {
            p = p + 1;
            loop
                invariant
                    start as int + 1 <= p as int <= s.len(),
                    num_end(s, start as int + 1) == num_end(s, p as int),
                decreases s.len() - p as int,
            {
                if p >= self.length {
                    break;
                }
                let c2 = self.ch(p);
                if ('0' <= c2 && c2 <= '9') || c2 == '.' {
                    p = p + 1;
                } else {
                    break;
                }
            }
            end = p;
        } else {
            end = p + 1;
            p = end;
        }
        assert(end as int == token_end(s, start as int));
        // Skip trailing spaces and tabs (but not newlines).
        loop
            invariant
                end as int <= p as int <= s.len(),
                ws_end(s, end as int) == ws_end(s, p as int),
            decreases s.len() - p as int,
        {
            if p >= self.length {
                break;
            }
            let c2 = self.ch(p);
            if c2 == ' ' || c2 == '\t' {
                p = p + 1;
            } else {
                break;
            }
        }
        self.char_idx = p;
        Some((start, end))
    }

    /// Scans a single token, skipping newlines as well as spaces and tabs.
    #[verifier::loop_isolation(false)]
    fn get_token_ignore_newline(&mut self) -> (r: Option<(usize, usize)>)
        requires
            old(self).wf(),
            old(self).held_token_view() is None,
        ensures
            final(self).wf(),
            final(self).src() == old(self).src(),
            final(self).held_token_view() is None,
            final(self).held_indent_view() == old(self).held_indent_view(),
            match next_token_ign(old(self).src(), old(self).pos()) {
                Some((a, b)) => r == Some((a as usize, b as usize)) && final(self).pos()
                    == ws_end(old(self).src(), b),
                None => r is None && final(self).pos() == old(self).src().len(),
            },
            final(self).pos() >= old(self).pos(),
    {
        let ghost s = self.src();
        let ghost p0 = self.pos();
        loop
            invariant
                self.wf(),
                s == self.src(),
                self.held_token_view() is None,
                self.held_indent_view() == old(self).held_indent_view(),
                p0 <= self.pos() <= s.len(),
                next_token_ign(s, p0) == next_token_ign(s, self.pos()),
            decreases s.len() - self.pos(),
        {
            let ghost p = self.pos();
            proof {
                lemma_pos_after_token_bounds(s, p);
                lemma_ws_end_bounds(s, p);
                lemma_ign_ws_run(s, p);
                lemma_ign_result(s, p0);
            }
            let t = self.get_token();
            if let Some(span) = t {
                proof {
                    let j = ws_end(s, p);
                    assert(!is_line_ws(s[j]) && !is_newline(s[j]));
                    assert(next_token_ign(s, j) == Some((j, token_end(s, j))));
                }
                return Some(span);
            }
            if self.char_idx >= self.length {
                proof {
                    let j = ws_end(s, p);
                    if j < s.len() {
                        assert(is_newline(s[j]));
                        lemma_ign_nl_run(s, j);
                        lemma_nl_end_bounds(s, j);
                        assert(nl_end(s, j) == s.len());
                    }
                    assert(next_token_ign(s, s.len() as int) is None);
                }
                return None;
            }
            proof {
                let j = ws_end(s, p);
                assert(j < s.len() && is_newline(s[j]));
                lemma_ign_nl_run(s, j);
                lemma_nl_end_bounds(s, j + 1);
                assert(nl_end(s, j) == nl_end(s, j + 1));
                assert(self.pos() >= j + 1);
            }
        }
    }
}

/// Whether `c` may begin an identifier token.
fn is_ident_start_exec(c: char) -> (r: bool)
    ensures
        r == is_ident_start(c),
{
    ('a' <= c && c <= 'z') || ('A' <= c && c <= 'Z') || c == '_' || c == '$'
}

/// Whether `c` may continue an identifier token.
fn is_ident_char_exec(c: char) -> (r: bool)
    ensures
        r == is_ident_char(c),
{
    is_ident_start_exec(c) || ('0' <= c && c <= '9') || c == '-'
}

} // verus!
