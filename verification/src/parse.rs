//! Lexer and parser for a small shell language.
//!
//! The language has:
//!   * single and double quoted strings (`'...'`, `"..."`)
//!   * variables: `$NAME`, `${NAME}`, and `$?` for the last exit code, in bare words and
//!     inside `"..."`
//!   * command substitution: `$(...)`, with nested parentheses counted
//!   * pipelines: `a | b | c`
//!   * redirections: `> file`, `>> file`, `< file`, `2> file` and other fd-prefixed forms
//!   * sequencing: `&&`, `||`, `;`
//!   * comments: `# ...` to the end of the line
//!   * backslash escapes (outside single quotes)
//!
//! It has no globs, background `&`, control flow, functions, heredocs, arrays or arithmetic.

use vstd::prelude::*;
use vstd::utf8::*;

use crate::text::{digits_value, is_digit, read_decimal, strict_text};

verus! {

// ---------- Syntax ----------------------------------------------------------

/// A statement.
#[derive(Debug, PartialEq)]
pub enum Stmt {
    Cmd(Command),
    Pipe(Vec<Command>),
    AndIf(Box<Stmt>, Box<Stmt>),
    OrIf(Box<Stmt>, Box<Stmt>),
    Sequence(Box<Stmt>, Box<Stmt>),
}

/// One command: its words and its redirections, each in the order written.
#[derive(Debug, PartialEq)]
pub struct Command {
    pub words: Vec<Word>,
    pub redirects: Vec<Redirect>,
}

/// One word, made of segments that are expanded and joined.
#[derive(Debug, PartialEq)]
pub struct Word {
    pub segments: Vec<Segment>,
}

/// A piece of a word.
#[derive(Debug, PartialEq)]
pub enum Segment {
    /// Text that stands for itself, one character for each byte that was read: a character
    /// outside ASCII comes out as those of its bytes.
    Literal(String),
    /// The value of a variable.
    Var(String),
    /// The last exit code.
    Status,
    /// The output of a command line.
    Sub(String),
}

/// A redirection of one file descriptor.
#[derive(Debug, PartialEq)]
pub struct Redirect {
    pub fd: i32,
    pub op: RedirOp,
    pub target: Word,
}

/// The direction of a redirection.
#[derive(Debug, Clone, Copy, PartialEq, Eq, Structural)]
pub enum RedirOp {
    In,
    Out,
    Append,
}

/// Why a line does not parse.
#[derive(Debug, Clone, Copy, PartialEq, Eq, Structural)]
pub enum ParseError {
    /// A single `&`.
    Background,
    /// A `'` that is not closed.
    SingleQuote,
    /// A `"` that is not closed.
    DoubleQuote,
    /// A `${` that is not closed.
    Brace,
    /// A `$(` that is not closed.
    Paren,
    /// `${}`.
    EmptyName,
    /// A `$` before anything that names no variable.
    Dollar,
    /// A name that is no text.
    NotText,
    /// A file descriptor beyond the range of `i32`.
    IoNumber,
    /// Tokens after the end of a statement.
    Trailing,
    /// A redirection with no file name; with a descriptor in front of it, or the operator.
    Target(Option<RedirOp>),
    /// A command without words and redirections.
    EmptyCommand,
}

impl ParseError {
    /// What the error says.
    pub open spec fn text(self) -> Seq<char> {
        match self {
            ParseError::Background => "background '&' not supported yet"@,
            ParseError::SingleQuote => "unterminated single quote"@,
            ParseError::DoubleQuote => "unterminated double quote"@,
            ParseError::Brace => "unterminated ${"@,
            ParseError::Paren => "unterminated $("@,
            ParseError::EmptyName => "empty variable name"@,
            ParseError::Dollar => "`$` must be followed by a name or `{NAME}`"@,
            ParseError::NotText => "variable name is not UTF-8"@,
            ParseError::IoNumber => "bad io number: number too large to fit in target type"@,
            ParseError::Trailing => "unexpected trailing tokens"@,
            ParseError::Target(None) => "expected file name after redirect"@,
            ParseError::Target(Some(RedirOp::In)) => "expected file name after <"@,
            ParseError::Target(Some(RedirOp::Out)) => "expected file name after >"@,
            ParseError::Target(Some(RedirOp::Append)) => "expected file name after >>"@,
            ParseError::EmptyCommand => "empty command"@,
        }
    }

    /// What the error says.
    pub fn message(&self) -> (r: String)
        ensures
            r@ == self.text(),
    {
        match *self {
            ParseError::Background => "background '&' not supported yet".to_owned(),
            ParseError::SingleQuote => "unterminated single quote".to_owned(),
            ParseError::DoubleQuote => "unterminated double quote".to_owned(),
            ParseError::Brace => "unterminated ${".to_owned(),
            ParseError::Paren => "unterminated $(".to_owned(),
            ParseError::EmptyName => "empty variable name".to_owned(),
            ParseError::Dollar => "`$` must be followed by a name or `{NAME}`".to_owned(),
            ParseError::NotText => "variable name is not UTF-8".to_owned(),
            ParseError::IoNumber => {
                "bad io number: number too large to fit in target type".to_owned()
            },
            ParseError::Trailing => "unexpected trailing tokens".to_owned(),
            ParseError::Target(None) => "expected file name after redirect".to_owned(),
            ParseError::Target(Some(RedirOp::In)) => "expected file name after <".to_owned(),
            ParseError::Target(Some(RedirOp::Out)) => "expected file name after >".to_owned(),
            ParseError::Target(Some(RedirOp::Append)) => "expected file name after >>".to_owned(),
            ParseError::EmptyCommand => "empty command".to_owned(),
        }
    }
}

// ---------- The syntax as values --------------------------------------------

/// A segment, with its text as characters.
pub enum SegmentV {
    Literal(Seq<char>),
    Var(Seq<char>),
    Status,
    Sub(Seq<char>),
}

/// A word: its segments.
pub type WordV = Seq<SegmentV>;

/// A redirection.
pub struct RedirectV {
    pub fd: i32,
    pub op: RedirOp,
    pub target: WordV,
}

/// A command.
pub struct CommandV {
    pub words: Seq<WordV>,
    pub redirects: Seq<RedirectV>,
}

/// A statement.
pub enum StmtV {
    Cmd(CommandV),
    Pipe(Seq<CommandV>),
    AndIf(Box<StmtV>, Box<StmtV>),
    OrIf(Box<StmtV>, Box<StmtV>),
    Sequence(Box<StmtV>, Box<StmtV>),
}

impl View for Segment {
    type V = SegmentV;

    open spec fn view(&self) -> SegmentV {
        match self {
            Segment::Literal(s) => SegmentV::Literal(s@),
            Segment::Var(s) => SegmentV::Var(s@),
            Segment::Status => SegmentV::Status,
            Segment::Sub(s) => SegmentV::Sub(s@),
        }
    }
}

impl View for Word {
    type V = WordV;

    open spec fn view(&self) -> WordV {
        segments_view(self.segments@)
    }
}

impl View for Redirect {
    type V = RedirectV;

    open spec fn view(&self) -> RedirectV {
        RedirectV { fd: self.fd, op: self.op, target: self.target@ }
    }
}

impl View for Command {
    type V = CommandV;

    open spec fn view(&self) -> CommandV {
        CommandV { words: words_view(self.words@), redirects: redirects_view(self.redirects@) }
    }
}

/// The segments of a vector.
pub open spec fn segments_view(s: Seq<Segment>) -> WordV {
    s.map_values(|x: Segment| x@)
}

/// The words of a vector.
pub open spec fn words_view(s: Seq<Word>) -> Seq<WordV> {
    s.map_values(|x: Word| x@)
}

/// The redirections of a vector.
pub open spec fn redirects_view(s: Seq<Redirect>) -> Seq<RedirectV> {
    s.map_values(|x: Redirect| x@)
}

/// The commands of a vector.
pub open spec fn commands_view(s: Seq<Command>) -> Seq<CommandV> {
    s.map_values(|x: Command| x@)
}

impl Stmt {
    /// The statement as a value.
    pub open spec fn view(&self) -> StmtV
        decreases self,
    {
        match self {
            Stmt::Cmd(c) => StmtV::Cmd(c@),
            Stmt::Pipe(cs) => StmtV::Pipe(commands_view(cs@)),
            Stmt::AndIf(l, r) => StmtV::AndIf(Box::new(l.view()), Box::new(r.view())),
            Stmt::OrIf(l, r) => StmtV::OrIf(Box::new(l.view()), Box::new(r.view())),
            Stmt::Sequence(l, r) => StmtV::Sequence(Box::new(l.view()), Box::new(r.view())),
        }
    }
}

impl Clone for Segment {
    fn clone(&self) -> (r: Segment)
        ensures
            r@ == self@,
    {
        match self {
            Segment::Literal(s) => Segment::Literal(s.clone()),
            Segment::Var(s) => Segment::Var(s.clone()),
            Segment::Status => Segment::Status,
            Segment::Sub(s) => Segment::Sub(s.clone()),
        }
    }
}

impl Clone for Word {
    fn clone(&self) -> (r: Word)
        ensures
            r@ == self@,
    {
        let mut segments: Vec<Segment> = Vec::new();
        let mut i: usize = 0;
        while i < self.segments.len()
            invariant
                i <= self.segments.len(),
                segments@.len() == i,
                forall|k: int| 0 <= k < i ==> segments@[k]@ == (#[trigger] self.segments@[k])@,
            decreases self.segments.len() - i,
        {
            segments.push(self.segments[i].clone());
            i += 1;
        }
        let r = Word { segments };
        assert(r@ =~= self@);
        r
    }
}

impl Clone for Redirect {
    fn clone(&self) -> (r: Redirect)
        ensures
            r@ == self@,
    {
        Redirect { fd: self.fd, op: self.op, target: self.target.clone() }
    }
}

impl Clone for Command {
    fn clone(&self) -> (r: Command)
        ensures
            r@ == self@,
    {
        let mut words: Vec<Word> = Vec::new();
        let mut i: usize = 0;
        while i < self.words.len()
            invariant
                i <= self.words.len(),
                words@.len() == i,
                forall|k: int| 0 <= k < i ==> words@[k]@ == (#[trigger] self.words@[k])@,
            decreases self.words.len() - i,
        {
            words.push(self.words[i].clone());
            i += 1;
        }
        let mut redirects: Vec<Redirect> = Vec::new();
        let mut j: usize = 0;
        while j < self.redirects.len()
            invariant
                j <= self.redirects.len(),
                redirects@.len() == j,
                forall|k: int| 0 <= k < j ==> redirects@[k]@ == (#[trigger] self.redirects@[k])@,
            decreases self.redirects.len() - j,
        {
            redirects.push(self.redirects[j].clone());
            j += 1;
        }
        let r = Command { words, redirects };
        assert(r@.words =~= self@.words);
        assert(r@.redirects =~= self@.redirects);
        r
    }
}

impl Clone for Stmt {
    fn clone(&self) -> (r: Stmt)
        ensures
            r@ == self@,
        decreases self,
    {
        match self {
            Stmt::Cmd(c) => Stmt::Cmd(c.clone()),
            Stmt::Pipe(cs) => {
                let mut v: Vec<Command> = Vec::new();
                let mut i: usize = 0;
                while i < cs.len()
                    invariant
                        i <= cs.len(),
                        v@.len() == i,
                        forall|k: int| 0 <= k < i ==> v@[k]@ == (#[trigger] cs@[k])@,
                    decreases cs.len() - i,
                {
                    v.push(cs[i].clone());
                    i += 1;
                }
                assert(commands_view(v@) =~= commands_view(cs@));
                Stmt::Pipe(v)
            },
            Stmt::AndIf(l, r) => Stmt::AndIf(Box::new((&**l).clone()), Box::new((&**r).clone())),
            Stmt::OrIf(l, r) => Stmt::OrIf(Box::new((&**l).clone()), Box::new((&**r).clone())),
            Stmt::Sequence(l, r) => {
                Stmt::Sequence(Box::new((&**l).clone()), Box::new((&**r).clone()))
            },
        }
    }
}

// ---------- Blanks and comments ---------------------------------------------

/// A space, tab or newline.
pub open spec fn is_blank(c: u8) -> bool {
    c == 32 || c == 9 || c == 10
}

/// Where the next token starts, from `i` on; a comment runs to the end of its line.
pub open spec fn token_start(s: Seq<u8>, i: int, comment: bool) -> int
    decreases s.len() - i,
{
    if i < 0 || i >= s.len() {
        i
    } else if comment {
        token_start(s, i + 1, s[i] != 10)
    } else if is_blank(s[i]) {
        token_start(s, i + 1, false)
    } else if s[i] == 35 {
        token_start(s, i + 1, true)
    } else {
        i
    }
}

/// A token starts at neither a blank nor a comment.
pub proof fn lemma_token_start(s: Seq<u8>, i: int, comment: bool)
    requires
        0 <= i <= s.len(),
    ensures
        i <= token_start(s, i, comment) <= s.len(),
        token_start(s, i, comment) < s.len() ==> {
            let c = s[token_start(s, i, comment)];
            !is_blank(c) && c != 35
        },
    decreases s.len() - i,
{
    if i < s.len() {
        if comment {
            lemma_token_start(s, i + 1, s[i] != 10);
        } else if is_blank(s[i]) {
            lemma_token_start(s, i + 1, false);
        } else if s[i] == 35 {
            lemma_token_start(s, i + 1, true);
        }
    }
}

/// Where the next token starts, from `i` on.
fn skip_ws_and_comments(s: &[u8], i: usize) -> (r: usize)
    requires
        i <= s.len(),
    ensures
        r == token_start(s@, i as int, false),
        i <= r <= s.len(),
{
    let mut p: usize = i;
    let mut comment: bool = false;
    while p < s.len() && (comment || s[p] == 32 || s[p] == 9 || s[p] == 10 || s[p] == 35)
        invariant
            i <= p <= s.len(),
            token_start(s@, i as int, false) == token_start(s@, p as int, comment),
        decreases s.len() - p,
    {
        if comment {
            comment = s[p] != 10;
        } else {
            comment = s[p] == 35;
        }
        p += 1;
    }
    p
}

// ---------- Variables and substitutions -------------------------------------

/// A letter or `_`.
pub open spec fn starts_name(c: u8) -> bool {
    65 <= c <= 90 || 97 <= c <= 122 || c == 95
}

/// A letter, digit or `_`.
pub open spec fn in_name(c: u8) -> bool {
    starts_name(c) || is_digit(c)
}

/// The end of the name that runs on at `i`.
pub open spec fn name_end(s: Seq<u8>, i: int) -> int
    decreases s.len() - i,
{
    if 0 <= i < s.len() && in_name(s[i]) {
        name_end(s, i + 1)
    } else {
        i
    }
}

/// The end of the run of digits that runs on at `i`.
pub open spec fn digits_end(s: Seq<u8>, i: int) -> int
    decreases s.len() - i,
{
    if 0 <= i < s.len() && is_digit(s[i]) {
        digits_end(s, i + 1)
    } else {
        i
    }
}

/// The first `}` from `i` on, or the end.
pub open spec fn brace_end(s: Seq<u8>, i: int) -> int
    decreases s.len() - i,
{
    if 0 <= i < s.len() && s[i] != 125 {
        brace_end(s, i + 1)
    } else {
        i
    }
}

/// The `)` that closes the outermost of `depth` open parentheses, from `i` on, or the end.
pub open spec fn paren_end(s: Seq<u8>, i: int, depth: nat) -> int
    decreases s.len() - i,
{
    if i < 0 || i >= s.len() {
        i
    } else if s[i] == 41 {
        if depth <= 1 {
            i
        } else {
            paren_end(s, i + 1, (depth - 1) as nat)
        }
    } else if s[i] == 40 {
        paren_end(s, i + 1, depth + 1)
    } else {
        paren_end(s, i + 1, depth)
    }
}

/// Runs end at or behind where they start.
pub proof fn lemma_ends(s: Seq<u8>, i: int)
    requires
        0 <= i <= s.len(),
    ensures
        i <= name_end(s, i) <= s.len(),
        i <= digits_end(s, i) <= s.len(),
        i <= brace_end(s, i) <= s.len(),
    decreases s.len() - i,
{
    if i < s.len() {
        lemma_ends(s, i + 1);
    }
}

/// Parentheses end at or behind where they start.
pub proof fn lemma_paren_end(s: Seq<u8>, i: int, depth: nat)
    requires
        0 <= i <= s.len(),
    ensures
        i <= paren_end(s, i, depth) <= s.len(),
    decreases s.len() - i,
{
    if i < s.len() {
        if s[i] == 41 {
            if depth > 1 {
                lemma_paren_end(s, i + 1, (depth - 1) as nat);
            }
        } else if s[i] == 40 {
            lemma_paren_end(s, i + 1, depth + 1);
        } else {
            lemma_paren_end(s, i + 1, depth);
        }
    }
}

/// The segment that the `$` at `i` starts, and where it ends.
pub open spec fn dollar(s: Seq<u8>, i: int) -> Result<(SegmentV, int), ParseError> {
    if i + 1 >= s.len() {
        Err(ParseError::Dollar)
    } else if s[i + 1] == 123 {
        let j = brace_end(s, i + 2);
        if j >= s.len() {
            Err(ParseError::Brace)
        } else if !valid_utf8(s.subrange(i + 2, j)) {
            Err(ParseError::NotText)
        } else if j == i + 2 {
            Err(ParseError::EmptyName)
        } else {
            Ok((SegmentV::Var(decode_utf8(s.subrange(i + 2, j))), j + 1))
        }
    } else if s[i + 1] == 40 {
        let j = paren_end(s, i + 2, 1);
        if j >= s.len() {
            Err(ParseError::Paren)
        } else if !valid_utf8(s.subrange(i + 2, j)) {
            Err(ParseError::NotText)
        } else {
            Ok((SegmentV::Sub(decode_utf8(s.subrange(i + 2, j))), j + 1))
        }
    } else if s[i + 1] == 63 {
        Ok((SegmentV::Status, i + 2))
    } else if starts_name(s[i + 1]) {
        let j = name_end(s, i + 1);
        if !valid_utf8(s.subrange(i + 1, j)) {
            Err(ParseError::NotText)
        } else {
            Ok((SegmentV::Var(decode_utf8(s.subrange(i + 1, j))), j))
        }
    } else {
        Err(ParseError::Dollar)
    }
}

/// A segment that starts with `$` ends behind it.
pub proof fn lemma_dollar(s: Seq<u8>, i: int)
    requires
        0 <= i < s.len(),
    ensures
        dollar(s, i) matches Ok((_, j)) ==> i + 1 < j <= s.len(),
{
    if i + 1 < s.len() {
        lemma_ends(s, i + 2);
        lemma_paren_end(s, i + 2, 1);
        reveal_with_fuel(name_end, 2);
        reveal_with_fuel(paren_end, 2);
        reveal_with_fuel(brace_end, 2);
        lemma_ends(s, i + 2);
        lemma_ends(s, i + 1);
    }
}

/// A segment result as a value.
pub open spec fn segment_result(r: Result<(Segment, usize), ParseError>) -> Result<
    (SegmentV, int),
    ParseError,
> {
    match r {
        Ok((s, j)) => Ok((s@, j as int)),
        Err(e) => Err(e),
    }
}

/// The segment that the `$` at `i` starts, and where it ends.
fn read_var_ref(s: &[u8], i: usize) -> (r: Result<(Segment, usize), ParseError>)
    requires
        i < s.len(),
    ensures
        segment_result(r) == dollar(s@, i as int),
{
    proof {
        lemma_dollar(s@, i as int);
    }
    if i + 1 >= s.len() {
        return Err(ParseError::Dollar);
    }
    let c = s[i + 1];
    if c == 123 {
        let start: usize = i + 2;
        let mut j: usize = start;
        while j < s.len() && s[j] != 125
            invariant
                start <= j <= s.len(),
                brace_end(s@, start as int) == brace_end(s@, j as int),
            decreases s.len() - j,
        {
            j += 1;
        }
        if j >= s.len() {
            return Err(ParseError::Brace);
        }
        match strict_text(vstd::slice::slice_subrange(s, start, j)) {
            None => Err(ParseError::NotText),
            Some(name) => {
                if j == start {
                    Err(ParseError::EmptyName)
                } else {
                    Ok((Segment::Var(name), j + 1))
                }
            },
        }
    } else if c == 40 {
        let start: usize = i + 2;
        let mut j: usize = start;
        let mut depth: usize = 1;
        while j < s.len() && !(s[j] == 41 && depth <= 1)
            invariant
                start <= j <= s.len(),
                1 <= depth <= j,
                paren_end(s@, start as int, 1) == paren_end(s@, j as int, depth as nat),
            decreases s.len() - j,
        {
            if s[j] == 41 {
                depth -= 1;
            } else if s[j] == 40 {
                depth += 1;
            }
            j += 1;
        }
        if j >= s.len() {
            return Err(ParseError::Paren);
        }
        match strict_text(vstd::slice::slice_subrange(s, start, j)) {
            None => Err(ParseError::NotText),
            Some(src) => Ok((Segment::Sub(src), j + 1)),
        }
    } else if c == 63 {
        Ok((Segment::Status, i + 2))
    } else if (65 <= c && c <= 90) || (97 <= c && c <= 122) || c == 95 {
        let start: usize = i + 1;
        let mut j: usize = start;
        while j < s.len() && ((65 <= s[j] && s[j] <= 90) || (97 <= s[j] && s[j] <= 122) || s[j]
            == 95 || (48 <= s[j] && s[j] <= 57))
            invariant
                start <= j <= s.len(),
                name_end(s@, start as int) == name_end(s@, j as int),
            decreases s.len() - j,
        {
            j += 1;
        }
        match strict_text(vstd::slice::slice_subrange(s, start, j)) {
            None => Err(ParseError::NotText),
            Some(name) => Ok((Segment::Var(name), j)),
        }
    } else {
        Err(ParseError::Dollar)
    }
}

// ---------- Words -----------------------------------------------------------

/// Inside which quotes a character stands.
#[derive(Debug, Clone, Copy, PartialEq, Eq, Structural)]
pub enum Quote {
    Bare,
    Single,
    Double,
}

/// A byte that ends a bare word.
pub open spec fn ends_word(c: u8) -> bool {
    is_blank(c) || c == 124 || c == 38 || c == 59 || c == 60 || c == 62 || c == 35
}

/// A byte that a backslash escapes inside double quotes.
pub open spec fn escapable(c: u8) -> bool {
    c == 36 || c == 96 || c == 34 || c == 92 || c == 10
}

/// `w` with one more literal byte: it joins the literal that `w` ends in.
pub open spec fn put(w: WordV, c: u8) -> WordV {
    match w.last() {
        SegmentV::Literal(t) if w.len() > 0 => w.drop_last().push(
            SegmentV::Literal(t.push(c as char)),
        ),
        _ => w.push(SegmentV::Literal(seq![c as char])),
    }
}

/// Reads a word from `i` on, inside the quotes `q`, behind the segments `w`; gives the whole
/// word and where it ends.
pub open spec fn word_from(s: Seq<u8>, i: int, q: Quote, w: WordV) -> Result<
    (WordV, int),
    ParseError,
>
    decreases s.len() - i,
{
    if i < 0 || i >= s.len() {
        match q {
            Quote::Bare => Ok((w, i)),
            Quote::Single => Err(ParseError::SingleQuote),
            Quote::Double => Err(ParseError::DoubleQuote),
        }
    } else {
        let c = s[i];
        if q == Quote::Bare && ends_word(c) {
            Ok((w, i))
        } else if q == Quote::Single {
            if c == 39 {
                word_from(s, i + 1, Quote::Bare, w)
            } else {
                word_from(s, i + 1, q, put(w, c))
            }
        } else if c == 34 {
            word_from(s, i + 1, if q == Quote::Bare { Quote::Double } else { Quote::Bare }, w)
        } else if q == Quote::Bare && c == 39 {
            word_from(s, i + 1, Quote::Single, w)
        } else if c == 36 {
            match dollar(s, i) {
                Err(e) => Err(e),
                Ok((seg, j)) => {
                    proof {
                        lemma_dollar(s, i);
                    }
                    word_from(s, j, q, w.push(seg))
                },
            }
        } else if c == 92 {
            if i + 1 >= s.len() {
                word_from(s, i + 1, q, w)
            } else if q == Quote::Bare || escapable(s[i + 1]) {
                word_from(s, i + 2, q, put(w, s[i + 1]))
            } else {
                word_from(s, i + 2, q, put(put(w, 92), s[i + 1]))
            }
        } else {
            word_from(s, i + 1, q, put(w, c))
        }
    }
}

proof fn lemma_word_from(s: Seq<u8>, i: int, q: Quote, w: WordV)
    requires
        0 <= i <= s.len(),
    ensures
        word_from(s, i, q, w) matches Ok((_, j)) ==> i <= j <= s.len() && (i < s.len() && !(q
            == Quote::Bare && ends_word(s[i])) ==> i < j),
    decreases s.len() - i,
{
    if i < s.len() {
        let c = s[i];
        if q == Quote::Bare && ends_word(c) {
        } else if q == Quote::Single {
            if c == 39 {
                lemma_word_from(s, i + 1, Quote::Bare, w);
            } else {
                lemma_word_from(s, i + 1, q, put(w, c));
            }
        } else if c == 34 {
            lemma_word_from(
                s,
                i + 1,
                if q == Quote::Bare {
                    Quote::Double
                } else {
                    Quote::Bare
                },
                w,
            );
        } else if q == Quote::Bare && c == 39 {
            lemma_word_from(s, i + 1, Quote::Single, w);
        } else if c == 36 {
            lemma_dollar(s, i);
            match dollar(s, i) {
                Err(e) => {},
                Ok((seg, j)) => {
                    lemma_word_from(s, j, q, w.push(seg));
                },
            }
        } else if c == 92 {
            if i + 1 >= s.len() {
                lemma_word_from(s, i + 1, q, w);
            } else if q == Quote::Bare || escapable(s[i + 1]) {
                lemma_word_from(s, i + 2, q, put(w, s[i + 1]));
            } else {
                lemma_word_from(s, i + 2, q, put(put(w, 92), s[i + 1]));
            }
        } else {
            lemma_word_from(s, i + 1, q, put(w, c));
        }
    }
}

/// The segments gathered so far, with the literal that is being read.
spec fn gathered(segs: Seq<Segment>, lit: Seq<char>) -> WordV {
    if lit.len() == 0 {
        segments_view(segs)
    } else {
        segments_view(segs).push(SegmentV::Literal(lit))
    }
}

/// No literal stands at the end of `segs`, so that the next literal byte starts one.
spec fn flushed(segs: Seq<Segment>) -> bool {
    segs.len() > 0 ==> !(segs.last() is Literal)
}

proof fn lemma_put(segs: Seq<Segment>, lit: Seq<char>, c: u8)
    requires
        flushed(segs),
    ensures
        put(gathered(segs, lit), c) == gathered(segs, lit.push(c as char)),
{
    let w = gathered(segs, lit);
    if lit.len() == 0 {
        if segs.len() > 0 {
            assert(w.last() == segs.last()@);
        }
        assert(lit.push(c as char) =~= seq![c as char]);
    } else {
        assert(w.last() == SegmentV::Literal(lit));
        assert(w.drop_last() =~= segments_view(segs));
    }
}

/// A word result as a value.
pub open spec fn word_result(r: Result<(Word, usize), ParseError>) -> Result<
    (WordV, int),
    ParseError,
> {
    match r {
        Ok((w, j)) => Ok((w@, j as int)),
        Err(e) => Err(e),
    }
}

/// Closes the literal that is being read.
fn flush(segs: &mut Vec<Segment>, lit: String)
    requires
        flushed(old(segs)@),
    ensures
        segments_view(final(segs)@) == gathered(old(segs)@, lit@),
        lit@.len() == 0 ==> final(segs)@ == old(segs)@,
{
    if !lit.as_str().is_empty() {
        segs.push(Segment::Literal(lit));
        assert(segments_view(segs@) =~= segments_view(old(segs)@).push(SegmentV::Literal(lit@)));
    }
}

/// Reads the word that starts at `i`.
fn read_word(s: &[u8], i: usize) -> (r: Result<(Word, usize), ParseError>)
    requires
        i <= s.len(),
    ensures
        word_result(r) == word_from(s@, i as int, Quote::Bare, Seq::<SegmentV>::empty()),
{
    let ghost goal = word_from(s@, i as int, Quote::Bare, Seq::<SegmentV>::empty());
    let mut segs: Vec<Segment> = Vec::new();
    let mut lit = String::new();
    let mut q = Quote::Bare;
    let mut p: usize = i;
    assert(gathered(segs@, lit@) =~= Seq::<SegmentV>::empty());
    while p < s.len()
        invariant
            p <= s.len(),
            goal == word_from(s@, i as int, Quote::Bare, Seq::<SegmentV>::empty()),
            flushed(segs@),
            goal == word_from(s@, p as int, q, gathered(segs@, lit@)),
        ensures
            p <= s.len(),
            goal == word_from(s@, p as int, q, gathered(segs@, lit@)),
            flushed(segs@),
            p >= s.len() || (q == Quote::Bare && ends_word(s@[p as int])),
        decreases s.len() - p,
    {
        let c = s[p];
        if q == Quote::Bare && (c == 32 || c == 9 || c == 10 || c == 124 || c == 38 || c == 59 || c
            == 60 || c == 62 || c == 35) {
            break;
        }
        if q == Quote::Single {
            if c == 39 {
                q = Quote::Bare;
            } else {
                proof {
                    lemma_put(segs@, lit@, c);
                }
                lit.push(c as char);
            }
            p += 1;
        } else if c == 34 {
            q = if q == Quote::Bare {
                Quote::Double
            } else {
                Quote::Bare
            };
            p += 1;
        } else if q == Quote::Bare && c == 39 {
            q = Quote::Single;
            p += 1;
        } else if c == 36 {
            proof {
                lemma_dollar(s@, p as int);
            }
            match read_var_ref(s, p) {
                Err(e) => {
                    return Err(e);
                },
                Ok((seg, j)) => {
                    let ghost w = gathered(segs@, lit@);
                    flush(&mut segs, lit);
                    lit = String::new();
                    segs.push(seg);
                    assert(gathered(segs@, lit@) =~= w.push(seg@));
                    p = j;
                },
            }
        } else if c == 92 {
            if p + 1 >= s.len() {
                p += 1;
            } else {
                let esc = s[p + 1];
                if !(q == Quote::Bare || esc == 36 || esc == 96 || esc == 34 || esc == 92 || esc
                    == 10) {
                    proof {
                        lemma_put(segs@, lit@, 92);
                    }
                    assert(92u8 as char == '\\');
                    lit.push('\\');
                }
                proof {
                    lemma_put(segs@, lit@, esc);
                }
                lit.push(esc as char);
                p += 2;
            }
        } else {
            proof {
                lemma_put(segs@, lit@, c);
            }
            lit.push(c as char);
            p += 1;
        }
    }
    match q {
        Quote::Bare => {},
        Quote::Single => {
            return Err(ParseError::SingleQuote);
        },
        Quote::Double => {
            return Err(ParseError::DoubleQuote);
        },
    }
    flush(&mut segs, lit);
    Ok((Word { segments: segs }, p))
}

// ---------- Tokens ----------------------------------------------------------

/// A token. A redirection holds the descriptor written directly in front of it, if any.
#[derive(Debug)]
pub enum Tok {
    Word(Word),
    Pipe,
    AndIf,
    OrIf,
    Semi,
    Redir(Option<i32>, RedirOp),
}

/// A token.
pub enum TokV {
    Word(WordV),
    Pipe,
    AndIf,
    OrIf,
    Semi,
    Redir(Option<i32>, RedirOp),
}

impl Tok {
    /// The token as a value.
    pub open spec fn view(&self) -> TokV {
        match self {
            Tok::Word(w) => TokV::Word(w@),
            Tok::Pipe => TokV::Pipe,
            Tok::AndIf => TokV::AndIf,
            Tok::OrIf => TokV::OrIf,
            Tok::Semi => TokV::Semi,
            Tok::Redir(fd, op) => TokV::Redir(*fd, *op),
        }
    }
}

/// The tokens of a vector.
pub open spec fn toks_view(s: Seq<Tok>) -> Seq<TokV> {
    s.map_values(|x: Tok| x@)
}

/// The redirection operator at `i`, and where it ends.
pub open spec fn redir_op(s: Seq<u8>, i: int) -> (RedirOp, int) {
    if s[i] == 60 {
        (RedirOp::In, i + 1)
    } else if i + 1 < s.len() && s[i + 1] == 62 {
        (RedirOp::Append, i + 2)
    } else {
        (RedirOp::Out, i + 1)
    }
}

/// The token that starts at `i`, and where it ends.
pub open spec fn token_at(s: Seq<u8>, i: int) -> Result<(TokV, int), ParseError> {
    let c = s[i];
    let next = |b: u8| i + 1 < s.len() && s[i + 1] == b;
    let d = digits_end(s, i);
    if c == 124 {
        Ok(if next(124) { (TokV::OrIf, i + 2) } else { (TokV::Pipe, i + 1) })
    } else if c == 38 {
        if next(38) {
            Ok((TokV::AndIf, i + 2))
        } else {
            Err(ParseError::Background)
        }
    } else if c == 59 {
        Ok((TokV::Semi, i + 1))
    } else if c == 60 || c == 62 {
        let (op, j) = redir_op(s, i);
        Ok((TokV::Redir(None, op), j))
    } else if is_digit(c) && d < s.len() && (s[d] == 60 || s[d] == 62) {
        let fd = digits_value(s.subrange(i, d));
        let (op, j) = redir_op(s, d);
        if fd > i32::MAX {
            Err(ParseError::IoNumber)
        } else {
            Ok((TokV::Redir(Some(fd as i32), op), j))
        }
    } else {
        match word_from(s, i, Quote::Bare, Seq::<SegmentV>::empty()) {
            Err(e) => Err(e),
            Ok((w, j)) => Ok((TokV::Word(w), j)),
        }
    }
}

/// A token is not empty.
pub proof fn lemma_token_at(s: Seq<u8>, i: int)
    requires
        0 <= i < s.len(),
        !is_blank(s[i]),
        s[i] != 35,
    ensures
        token_at(s, i) matches Ok((_, j)) ==> i < j <= s.len(),
{
    lemma_ends(s, i);
    lemma_word_from(s, i, Quote::Bare, Seq::<SegmentV>::empty());
}

/// The tokens of `s` from `i` on, behind `acc`.
pub open spec fn tokens_from(s: Seq<u8>, i: int, acc: Seq<TokV>) -> Result<Seq<TokV>, ParseError>
    decreases s.len() - i,
{
    if i < 0 || i > s.len() {
        Ok(acc)
    } else {
        let j = token_start(s, i, false);
        if j >= s.len() {
            Ok(acc)
        } else {
            match token_at(s, j) {
                Err(e) => Err(e),
                Ok((t, k)) => {
                    proof {
                        lemma_token_start(s, i, false);
                        lemma_token_at(s, j);
                    }
                    tokens_from(s, k, acc.push(t))
                },
            }
        }
    }
}

spec fn tok_result(r: Result<(Tok, usize), ParseError>) -> Result<(TokV, int), ParseError> {
    match r {
        Ok((t, j)) => Ok((t@, j as int)),
        Err(e) => Err(e),
    }
}

fn read_redir_op(s: &[u8], i: usize) -> (r: (RedirOp, usize))
    requires
        i < s.len(),
        s@[i as int] == 60 || s@[i as int] == 62,
    ensures
        (r.0, r.1 as int) == redir_op(s@, i as int),
{
    if s[i] == 60 {
        (RedirOp::In, i + 1)
    } else if i + 1 < s.len() && s[i + 1] == 62 {
        (RedirOp::Append, i + 2)
    } else {
        (RedirOp::Out, i + 1)
    }
}

proof fn lemma_digits(s: Seq<u8>, i: int)
    requires
        0 <= i <= s.len(),
    ensures
        forall|k: int| i <= k < digits_end(s, i) ==> is_digit(#[trigger] s[k]),
    decreases s.len() - i,
{
    if i < s.len() && is_digit(s[i]) {
        lemma_digits(s, i + 1);
    }
}

fn read_token(s: &[u8], i: usize) -> (r: Result<(Tok, usize), ParseError>)
    requires
        i < s.len(),
        !is_blank(s@[i as int]),
        s@[i as int] != 35,
    ensures
        tok_result(r) == token_at(s@, i as int),
{
    let c = s[i];
    if c == 124 {
        return if i + 1 < s.len() && s[i + 1] == 124 {
            Ok((Tok::OrIf, i + 2))
        } else {
            Ok((Tok::Pipe, i + 1))
        };
    }
    if c == 38 {
        return if i + 1 < s.len() && s[i + 1] == 38 {
            Ok((Tok::AndIf, i + 2))
        } else {
            Err(ParseError::Background)
        };
    }
    if c == 59 {
        return Ok((Tok::Semi, i + 1));
    }
    if c == 60 || c == 62 {
        let (op, j) = read_redir_op(s, i);
        return Ok((Tok::Redir(None, op), j));
    }
    if 48 <= c && c <= 57 {
        let mut d: usize = i;
        while d < s.len() && 48 <= s[d] && s[d] <= 57
            invariant
                i <= d <= s.len(),
                digits_end(s@, i as int) == digits_end(s@, d as int),
            decreases s.len() - d,
        {
            d += 1;
        }
        if d < s.len() && (s[d] == 60 || s[d] == 62) {
            let (op, j) = read_redir_op(s, d);
            proof {
                reveal_with_fuel(digits_end, 2);
                lemma_ends(s@, i + 1);
                lemma_digits(s@, i as int);
            }
            return match read_decimal(vstd::slice::slice_subrange(s, i, d), i32::MAX as u64) {
                None => Err(ParseError::IoNumber),
                Some(fd) => Ok((Tok::Redir(Some(fd as i32), op), j)),
            };
        }
    }
    match read_word(s, i) {
        Err(e) => Err(e),
        Ok((w, j)) => Ok((Tok::Word(w), j)),
    }
}

spec fn toks_result(r: Result<Vec<Tok>, ParseError>) -> Result<Seq<TokV>, ParseError> {
    match r {
        Ok(v) => Ok(toks_view(v@)),
        Err(e) => Err(e),
    }
}

fn tokenize(s: &[u8]) -> (r: Result<Vec<Tok>, ParseError>)
    ensures
        toks_result(r) == tokens_from(s@, 0, Seq::<TokV>::empty()),
{
    let mut toks: Vec<Tok> = Vec::new();
    let mut p: usize = 0;
    assert(toks_view(toks@) =~= Seq::<TokV>::empty());
    loop
        invariant
            p <= s.len(),
            tokens_from(s@, 0, Seq::<TokV>::empty()) == tokens_from(
                s@,
                p as int,
                toks_view(toks@),
            ),
        decreases s.len() - p,
    {
        let j: usize = skip_ws_and_comments(s, p);
        if j >= s.len() {
            return Ok(toks);
        }
        proof {
            lemma_token_start(s@, p as int, false);
            lemma_token_at(s@, j as int);
        }
        match read_token(s, j) {
            Err(e) => {
                return Err(e);
            },
            Ok((t, k)) => {
                let ghost before = toks_view(toks@);
                toks.push(t);
                assert(toks_view(toks@) =~= before.push(t@));
                p = k;
            },
        }
    }
}

// ---------- Grammar ---------------------------------------------------------

/// The descriptor that a redirection without a number speaks of.
pub open spec fn default_fd(op: RedirOp) -> i32 {
    match op {
        RedirOp::In => 0,
        _ => 1,
    }
}

/// The error for a redirection that no word follows.
pub open spec fn no_target(fd: Option<i32>, op: RedirOp) -> ParseError {
    match fd {
        Some(_) => ParseError::Target(None),
        None => ParseError::Target(Some(op)),
    }
}

/// Reads a command from token `i` on, behind `c`; gives it and the token behind it.
pub open spec fn command_from(t: Seq<TokV>, i: int, c: CommandV) -> Result<
    (CommandV, int),
    ParseError,
>
    decreases t.len() - i,
{
    let end = if c.words.len() == 0 && c.redirects.len() == 0 {
        Err(ParseError::EmptyCommand)
    } else {
        Ok((c, i))
    };
    if i < 0 || i >= t.len() {
        end
    } else {
        match t[i] {
            TokV::Word(w) => command_from(
                t,
                i + 1,
                CommandV { words: c.words.push(w), redirects: c.redirects },
            ),
            TokV::Redir(fd, op) => if i + 1 < t.len() && t[i + 1] is Word {
                let n = match fd {
                    Some(n) => n,
                    None => default_fd(op),
                };
                let r = RedirectV { fd: n, op, target: t[i + 1]->Word_0 };
                command_from(
                    t,
                    i + 2,
                    CommandV { words: c.words, redirects: c.redirects.push(r) },
                )
            } else {
                Err(no_target(fd, op))
            },
            _ => end,
        }
    }
}

/// The command without words and redirections.
pub open spec fn no_command() -> CommandV {
    CommandV { words: Seq::<WordV>::empty(), redirects: Seq::<RedirectV>::empty() }
}

/// A command takes at least one token.
pub proof fn lemma_command_from(t: Seq<TokV>, i: int, c: CommandV)
    requires
        0 <= i <= t.len(),
    ensures
        command_from(t, i, c) matches Ok((r, j)) ==> {
            &&& i <= j <= t.len()
            &&& (c.words.len() == 0 && c.redirects.len() == 0 ==> i < j)
            &&& r.words.len() > 0 || r.redirects.len() > 0
            &&& j < t.len() ==> !(t[j] is Word) && !(t[j] is Redir)
        },
    decreases t.len() - i,
{
    if i < t.len() {
        match t[i] {
            TokV::Word(w) => {
                lemma_command_from(
                    t,
                    i + 1,
                    CommandV { words: c.words.push(w), redirects: c.redirects },
                );
            },
            TokV::Redir(fd, op) => {
                if i + 1 < t.len() && t[i + 1] is Word {
                    let n = match fd {
                        Some(n) => n,
                        None => default_fd(op),
                    };
                    let r = RedirectV { fd: n, op, target: t[i + 1]->Word_0 };
                    lemma_command_from(
                        t,
                        i + 2,
                        CommandV { words: c.words, redirects: c.redirects.push(r) },
                    );
                }
            },
            _ => {},
        }
    }
}

/// Reads `| command` as often as it stands at token `i`, behind the commands `cs`.
pub open spec fn pipes_from(t: Seq<TokV>, i: int, cs: Seq<CommandV>) -> Result<
    (Seq<CommandV>, int),
    ParseError,
>
    decreases t.len() - i,
{
    if 0 <= i < t.len() && t[i] is Pipe {
        match command_from(t, i + 1, no_command()) {
            Err(e) => Err(e),
            Ok((c, j)) => {
                proof {
                    lemma_command_from(t, i + 1, no_command());
                }
                pipes_from(t, j, cs.push(c))
            },
        }
    } else {
        Ok((cs, i))
    }
}

/// Reads a pipeline from token `i` on; one command alone is that command.
pub open spec fn pipeline_from(t: Seq<TokV>, i: int) -> Result<(StmtV, int), ParseError> {
    match command_from(t, i, no_command()) {
        Err(e) => Err(e),
        Ok((c, j)) => if 0 <= j < t.len() && t[j] is Pipe {
            match pipes_from(t, j, seq![c]) {
                Err(e) => Err(e),
                Ok((cs, k)) => Ok((StmtV::Pipe(cs), k)),
            }
        } else {
            Ok((StmtV::Cmd(c), j))
        },
    }
}

proof fn lemma_pipes_from(t: Seq<TokV>, i: int, cs: Seq<CommandV>)
    requires
        0 <= i <= t.len(),
    ensures
        pipes_from(t, i, cs) matches Ok((r, j)) ==> i <= j <= t.len() && (j < t.len() ==> !(
        t[j] is Pipe || t[j] is Word || t[j] is Redir)
            || j == i && !(t[j] is Pipe)),
    decreases t.len() - i,
{
    if i < t.len() && t[i] is Pipe {
        lemma_command_from(t, i + 1, no_command());
        match command_from(t, i + 1, no_command()) {
            Err(e) => {},
            Ok((c, j)) => {
                lemma_pipes_from(t, j, cs.push(c));
            },
        }
    }
}

/// A pipeline takes at least one token.
pub proof fn lemma_pipeline_from(t: Seq<TokV>, i: int)
    requires
        0 <= i <= t.len(),
    ensures
        pipeline_from(t, i) matches Ok((_, j)) ==> i < j <= t.len(),
{
    lemma_command_from(t, i, no_command());
    match command_from(t, i, no_command()) {
        Err(e) => {},
        Ok((c, j)) => {
            lemma_pipes_from(t, j, seq![c]);
        },
    }
}

/// Reads `&& pipeline` and `|| pipeline` as often as they stand at token `i`, behind `left`.
pub open spec fn chain_from(t: Seq<TokV>, i: int, left: StmtV) -> Result<(StmtV, int), ParseError>
    decreases t.len() - i,
{
    if 0 <= i < t.len() && (t[i] is AndIf || t[i] is OrIf) {
        match pipeline_from(t, i + 1) {
            Err(e) => Err(e),
            Ok((right, j)) => {
                proof {
                    lemma_pipeline_from(t, i + 1);
                }
                chain_from(
                    t,
                    j,
                    if t[i] is AndIf {
                        StmtV::AndIf(Box::new(left), Box::new(right))
                    } else {
                        StmtV::OrIf(Box::new(left), Box::new(right))
                    },
                )
            },
        }
    } else {
        Ok((left, i))
    }
}

/// Reads a chain of pipelines from token `i` on.
pub open spec fn and_or_from(t: Seq<TokV>, i: int) -> Result<(StmtV, int), ParseError> {
    match pipeline_from(t, i) {
        Err(e) => Err(e),
        Ok((left, j)) => chain_from(t, j, left),
    }
}

proof fn lemma_chain_from(t: Seq<TokV>, i: int, left: StmtV)
    requires
        0 <= i <= t.len(),
    ensures
        chain_from(t, i, left) matches Ok((_, j)) ==> i <= j <= t.len(),
    decreases t.len() - i,
{
    if i < t.len() && (t[i] is AndIf || t[i] is OrIf) {
        lemma_pipeline_from(t, i + 1);
        match pipeline_from(t, i + 1) {
            Err(e) => {},
            Ok((right, j)) => {
                let l = if t[i] is AndIf {
                    StmtV::AndIf(Box::new(left), Box::new(right))
                } else {
                    StmtV::OrIf(Box::new(left), Box::new(right))
                };
                lemma_chain_from(t, j, l);
            },
        }
    }
}

/// A chain of pipelines takes at least one token.
pub proof fn lemma_and_or_from(t: Seq<TokV>, i: int)
    requires
        0 <= i <= t.len(),
    ensures
        and_or_from(t, i) matches Ok((_, j)) ==> i < j <= t.len(),
{
    lemma_pipeline_from(t, i);
    match pipeline_from(t, i) {
        Err(e) => {},
        Ok((left, j)) => {
            lemma_chain_from(t, j, left);
        },
    }
}

/// Reads `; chain` as often as it stands at token `i`, behind `left`; the last `;` may stand
/// alone.
pub open spec fn rest_from(t: Seq<TokV>, i: int, left: StmtV) -> Result<(StmtV, int), ParseError>
    decreases t.len() - i,
{
    if 0 <= i < t.len() && t[i] is Semi {
        if i + 1 >= t.len() {
            Ok((left, i + 1))
        } else {
            match and_or_from(t, i + 1) {
                Err(e) => Err(e),
                Ok((right, j)) => {
                    proof {
                        lemma_and_or_from(t, i + 1);
                    }
                    rest_from(t, j, StmtV::Sequence(Box::new(left), Box::new(right)))
                },
            }
        }
    } else {
        Ok((left, i))
    }
}

/// The statement that the tokens spell; none for no tokens.
pub open spec fn statement(t: Seq<TokV>) -> Result<Option<StmtV>, ParseError> {
    if t.len() == 0 {
        Ok(None)
    } else {
        match and_or_from(t, 0) {
            Err(e) => Err(e),
            Ok((left, j)) => match rest_from(t, j, left) {
                Err(e) => Err(e),
                Ok((s, k)) => if k < t.len() {
                    Err(ParseError::Trailing)
                } else {
                    Ok(Some(s))
                },
            },
        }
    }
}

/// The statement that a line spells; none for a line of blanks and comments.
pub open spec fn parsed(src: Seq<char>) -> Result<Option<StmtV>, ParseError> {
    match tokens_from(encode_utf8(src), 0, Seq::<TokV>::empty()) {
        Err(e) => Err(e),
        Ok(t) => statement(t),
    }
}

/// A command result as a value.
pub open spec fn command_result(r: Result<(Command, usize), ParseError>) -> Result<
    (CommandV, int),
    ParseError,
> {
    match r {
        Ok((c, j)) => Ok((c@, j as int)),
        Err(e) => Err(e),
    }
}

spec fn stmt_result(r: Result<(Stmt, usize), ParseError>) -> Result<(StmtV, int), ParseError> {
    match r {
        Ok((s, j)) => Ok((s@, j as int)),
        Err(e) => Err(e),
    }
}

/// A parse result as a value.
pub open spec fn parse_result(r: Result<Option<Stmt>, ParseError>) -> Result<
    Option<StmtV>,
    ParseError,
> {
    match r {
        Ok(Some(s)) => Ok(Some(s@)),
        Ok(None) => Ok(None),
        Err(e) => Err(e),
    }
}

/// Reads the command that starts at token `i`; gives it and the token behind it.
pub fn parse_command(t: &Vec<Tok>, i: usize) -> (r: Result<(Command, usize), ParseError>)
    requires
        i <= t.len(),
    ensures
        command_result(r) == command_from(toks_view(t@), i as int, no_command()),
{
    let mut words: Vec<Word> = Vec::new();
    let mut redirects: Vec<Redirect> = Vec::new();
    let mut p: usize = i;
    assert(words_view(words@) =~= Seq::<WordV>::empty());
    assert(redirects_view(redirects@) =~= Seq::<RedirectV>::empty());
    let ghost tv = toks_view(t@);
    while p < t.len()
        invariant
            p <= t.len(),
            tv == toks_view(t@),
            command_from(tv, i as int, no_command()) == command_from(
                tv,
                p as int,
                CommandV { words: words_view(words@), redirects: redirects_view(redirects@) },
            ),
        ensures
            p <= t.len(),
            command_from(tv, i as int, no_command()) == command_from(
                tv,
                p as int,
                CommandV { words: words_view(words@), redirects: redirects_view(redirects@) },
            ),
            p < t.len() ==> !(tv[p as int] is Word) && !(tv[p as int] is Redir),
        decreases t.len() - p,
    {
        assert(tv[p as int] == t@[p as int]@);
        match &t[p] {
            Tok::Word(w) => {
                let ghost before = words_view(words@);
                words.push(w.clone());
                assert(words_view(words@) =~= before.push(w@));
                p += 1;
            },
            Tok::Redir(fd, op) => {
                if p + 1 >= t.len() {
                    return Err(
                        match fd {
                            Some(_) => ParseError::Target(None),
                            None => ParseError::Target(Some(*op)),
                        },
                    );
                }
                assert(tv[p + 1] == t@[p + 1]@);
                match &t[p + 1] {
                    Tok::Word(w) => {
                        let ghost before = redirects_view(redirects@);
                        let n: i32 = match fd {
                            Some(n) => *n,
                            None => match op {
                                RedirOp::In => 0,
                                RedirOp::Out => 1,
                                RedirOp::Append => 1,
                            },
                        };
                        let r = Redirect { fd: n, op: *op, target: w.clone() };
                        redirects.push(r);
                        assert(redirects_view(redirects@) =~= before.push(r@));
                        p += 2;
                    },
                    _ => {
                        return Err(
                            match fd {
                                Some(_) => ParseError::Target(None),
                                None => ParseError::Target(Some(*op)),
                            },
                        );
                    },
                }
            },
            _ => {
                break;
            },
        }
    }
    if words.len() == 0 && redirects.len() == 0 {
        Err(ParseError::EmptyCommand)
    } else {
        Ok((Command { words, redirects }, p))
    }
}

fn parse_pipeline(t: &Vec<Tok>, i: usize) -> (r: Result<(Stmt, usize), ParseError>)
    requires
        i <= t.len(),
    ensures
        stmt_result(r) == pipeline_from(toks_view(t@), i as int),
{
    let ghost tv = toks_view(t@);
    proof {
        lemma_command_from(tv, i as int, no_command());
    }
    let (first, j) = match parse_command(t, i) {
        Err(e) => {
            return Err(e);
        },
        Ok(x) => x,
    };
    if j >= t.len() || !matches!(t[j], Tok::Pipe) {
        return Ok((Stmt::Cmd(first), j));
    }
    let ghost f = first@;
    let mut cs: Vec<Command> = Vec::new();
    cs.push(first);
    assert(commands_view(cs@) =~= seq![f]);
    let mut p: usize = j;
    while p < t.len() && matches!(t[p], Tok::Pipe)
        invariant
            p <= t.len(),
            tv == toks_view(t@),
            pipes_from(tv, j as int, seq![f]) == pipes_from(tv, p as int, commands_view(cs@)),
            pipeline_from(tv, i as int) == match pipes_from(tv, j as int, seq![f]) {
                Err(e) => Err(e),
                Ok((cs, k)) => Ok((StmtV::Pipe(cs), k)),
            },
        decreases t.len() - p,
    {
        proof {
            lemma_command_from(tv, p + 1, no_command());
        }
        match parse_command(t, p + 1) {
            Err(e) => {
                return Err(e);
            },
            Ok((c, k)) => {
                let ghost before = commands_view(cs@);
                cs.push(c);
                assert(commands_view(cs@) =~= before.push(c@));
                p = k;
            },
        }
    }
    Ok((Stmt::Pipe(cs), p))
}

fn parse_and_or(t: &Vec<Tok>, i: usize) -> (r: Result<(Stmt, usize), ParseError>)
    requires
        i <= t.len(),
    ensures
        stmt_result(r) == and_or_from(toks_view(t@), i as int),
{
    let ghost tv = toks_view(t@);
    proof {
        lemma_pipeline_from(tv, i as int);
    }
    let (mut left, mut p) = match parse_pipeline(t, i) {
        Err(e) => {
            return Err(e);
        },
        Ok(x) => x,
    };
    loop
        invariant
            p <= t.len(),
            tv == toks_view(t@),
            and_or_from(tv, i as int) == chain_from(tv, p as int, left@),
        decreases t.len() - p,
    {
        if p >= t.len() {
            return Ok((left, p));
        }
        let and = match t[p] {
            Tok::AndIf => true,
            Tok::OrIf => false,
            _ => {
                return Ok((left, p));
            },
        };
        proof {
            lemma_pipeline_from(tv, p + 1);
        }
        match parse_pipeline(t, p + 1) {
            Err(e) => {
                return Err(e);
            },
            Ok((right, k)) => {
                left = if and {
                    Stmt::AndIf(Box::new(left), Box::new(right))
                } else {
                    Stmt::OrIf(Box::new(left), Box::new(right))
                };
                p = k;
            },
        }
    }
}

fn parse_seq(t: &Vec<Tok>) -> (r: Result<(Stmt, usize), ParseError>)
    ensures
        stmt_result(r) == match and_or_from(toks_view(t@), 0) {
            Err(e) => Err(e),
            Ok((left, j)) => rest_from(toks_view(t@), j, left),
        },
{
    let ghost tv = toks_view(t@);
    proof {
        lemma_and_or_from(tv, 0);
    }
    let (mut left, mut p) = match parse_and_or(t, 0) {
        Err(e) => {
            return Err(e);
        },
        Ok(x) => x,
    };
    while p < t.len() && matches!(t[p], Tok::Semi)
        invariant
            p <= t.len(),
            tv == toks_view(t@),
            (match and_or_from(tv, 0) {
                Err(e) => Err(e),
                Ok((left, j)) => rest_from(tv, j, left),
            }) == rest_from(tv, p as int, left@),
        decreases t.len() - p,
    {
        if p + 1 >= t.len() {
            return Ok((left, p + 1));
        }
        proof {
            lemma_and_or_from(tv, p + 1);
        }
        match parse_and_or(t, p + 1) {
            Err(e) => {
                return Err(e);
            },
            Ok((right, k)) => {
                left = Stmt::Sequence(Box::new(left), Box::new(right));
                p = k;
            },
        }
    }
    Ok((left, p))
}

/// Parses a line. The result is the statement it spells, or none where it holds only blanks
/// and comments.
pub fn parse(src: &str) -> (r: Result<Option<Stmt>, ParseError>)
    ensures
        parse_result(r) == parsed(src@),
{
    match tokenize(src.as_bytes()) {
        Err(e) => Err(e),
        Ok(t) => {
            if t.len() == 0 {
                return Ok(None);
            }
            match parse_seq(&t) {
                Err(e) => Err(e),
                Ok((s, k)) => {
                    if k < t.len() {
                        Err(ParseError::Trailing)
                    } else {
                        Ok(Some(s))
                    }
                },
            }
        },
    }
}

} // verus!
