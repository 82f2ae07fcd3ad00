use vstd::prelude::*;
use crate::error::{Error, ErrorModel};
use crate::number;
use crate::strings;
use crate::types::{DataModel, EntryModel, KvData, KvEntry, entries_model, lemma_compound_model};

verus! {

/// How text is read.
#[derive(Debug, Clone, Copy)]
pub struct Options {
    /// Decode backslash escapes inside quoted strings.
    pub escape_sequences: bool,
    /// Give values that read as numbers a numeric type.
    pub numeric_inference: bool,
}

impl Default for Options {
    fn default() -> (o: Self)
        ensures
            o.escape_sequences == false,
            o.numeric_inference == true,
    {
        Options { escape_sequences: false, numeric_inference: true }
    }
}

/// ASCII whitespace as `u8::is_ascii_whitespace` knows it.
pub open spec fn is_ws(c: char) -> bool {
    c == ' ' || c == '\t' || c == '\n' || c == '\x0C' || c == '\r'
}

/// A character that ends an unquoted token.
pub open spec fn is_delim(c: char) -> bool {
    c == '"' || c == '{' || c == '}' || is_ws(c)
}

/// The first position at or after `i` that is not whitespace.
pub open spec fn skip_ws(inp: Seq<char>, i: int) -> int
    decreases inp.len() - i,
{
    if 0 <= i < inp.len() && is_ws(inp[i]) { skip_ws(inp, i + 1) } else { i }
}

/// The first newline at or after `i`, or the end.
pub open spec fn line_end(inp: Seq<char>, i: int) -> int
    decreases inp.len() - i,
{
    if 0 <= i < inp.len() && inp[i] != '\n' { line_end(inp, i + 1) } else { i }
}

/// Whether a `//` comment starts at `j`.
pub open spec fn comment_at(inp: Seq<char>, j: int) -> bool {
    0 <= j && j + 1 < inp.len() && inp[j] == '/' && inp[j + 1] == '/'
}

/// The first position at or after `i` past whitespace and `//` comments.
pub open spec fn skip_trivia(inp: Seq<char>, i: int) -> int
    decreases inp.len() - i,
{
    let j = skip_ws(inp, i);
    if comment_at(inp, j) {
        let k = line_end(inp, j + 2);
        if i < k <= inp.len() { skip_trivia(inp, k) } else { k }
    } else {
        j
    }
}

/// The kinds of tokens.
pub enum TokenKindModel {
    OpenBrace,
    CloseBrace,
    Atom(Seq<char>),
}

/// A token: its kind, and whether it is a `[...]` conditional.
pub struct TokenModel {
    pub kind: TokenKindModel,
    pub conditional: bool,
}

/// The character that a backslash escape stands for.
pub open spec fn escaped(c: char) -> char {
    if c == 'n' { '\n' }
    else if c == 't' { '\t' }
    else if c == 'v' { '\x0B' }
    else if c == 'b' { '\x08' }
    else if c == 'r' { '\r' }
    else if c == 'f' { '\x0C' }
    else if c == 'a' { '\x07' }
    else { c }
}

/// The first `"` at or after `i`.
pub open spec fn quote_at_or_after(inp: Seq<char>, i: int) -> Option<int>
    decreases inp.len() - i,
{
    if i < 0 || i >= inp.len() {
        None
    } else if inp[i] == '"' {
        Some(i)
    } else {
        quote_at_or_after(inp, i + 1)
    }
}

/// Quoted text from `i` (just after the opening quote) with escapes decoded: the text and
/// the position after the closing quote.
pub open spec fn unescape(inp: Seq<char>, i: int) -> Result<(Seq<char>, int), ErrorModel>
    decreases inp.len() - i,
{
    if i < 0 || i >= inp.len() {
        Err(ErrorModel::UnexpectedEof)
    } else if inp[i] == '"' {
        Ok((Seq::empty(), i + 1))
    } else if inp[i] == '\\' {
        if i + 1 >= inp.len() {
            Err(ErrorModel::UnexpectedEof)
        } else {
            match unescape(inp, i + 2) {
                Ok((s, q)) => Ok((seq![escaped(inp[i + 1])] + s, q)),
                Err(e) => Err(e),
            }
        }
    } else {
        match unescape(inp, i + 1) {
            Ok((s, q)) => Ok((seq![inp[i]] + s, q)),
            Err(e) => Err(e),
        }
    }
}

/// A quoted token whose opening quote is at `i`.
pub open spec fn quoted_model(inp: Seq<char>, i: int, esc: bool) -> Result<(TokenModel, int), ErrorModel> {
    if esc {
        match unescape(inp, i + 1) {
            Ok((s, q)) => Ok((TokenModel { kind: TokenKindModel::Atom(s), conditional: false }, q)),
            Err(e) => Err(e),
        }
    } else {
        match quote_at_or_after(inp, i + 1) {
            Some(q) => Ok((TokenModel { kind: TokenKindModel::Atom(inp.subrange(i + 1, q)), conditional: false }, q + 1)),
            None => Err(ErrorModel::UnexpectedEof),
        }
    }
}

/// The end of an unquoted token starting at `i`.
pub open spec fn bare_end(inp: Seq<char>, i: int) -> int
    decreases inp.len() - i,
{
    if 0 <= i < inp.len() && !is_delim(inp[i]) { bare_end(inp, i + 1) } else { i }
}

/// Whether text holds a `[` with a `]` somewhere after it.
pub open spec fn has_condition(s: Seq<char>) -> bool {
    exists|a: int, b: int| 0 <= a < b < s.len() && s[a] == '[' && s[b] == ']'
}

/// The next token at or after `i` (past whitespace and comments), and the position after it.
pub open spec fn token_model(inp: Seq<char>, i: int, esc: bool) -> Result<Option<(TokenModel, int)>, ErrorModel> {
    let j = skip_trivia(inp, i);
    if j < 0 || j >= inp.len() {
        Ok(None)
    } else if inp[j] == '{' {
        Ok(Some((TokenModel { kind: TokenKindModel::OpenBrace, conditional: false }, j + 1)))
    } else if inp[j] == '}' {
        Ok(Some((TokenModel { kind: TokenKindModel::CloseBrace, conditional: false }, j + 1)))
    } else if inp[j] == '"' {
        match quoted_model(inp, j, esc) {
            Ok((t, q)) => Ok(Some((t, q))),
            Err(e) => Err(e),
        }
    } else {
        let e = bare_end(inp, j);
        Ok(Some((TokenModel { kind: TokenKindModel::Atom(inp.subrange(j, e)), conditional: has_condition(inp.subrange(j, e)) }, e)))
    }
}

/// Skips conditional tokens from `p`; the position of the first other token (or the end).
pub open spec fn skip_conds_model(inp: Seq<char>, p: int, esc: bool) -> Result<int, ErrorModel>
    decreases inp.len() - p,
{
    match token_model(inp, p, esc) {
        Err(e) => Err(e),
        Ok(Some((t, q))) => if t.conditional {
            if p < q <= inp.len() { skip_conds_model(inp, q, esc) } else { Err(ErrorModel::UnexpectedEof) }
        } else {
            Ok(p)
        },
        Ok(None) => Ok(p),
    }
}

/// An unconditional atom at `p`: its text and the position after it.
pub open spec fn atom_model(inp: Seq<char>, p: int, esc: bool) -> Result<(Seq<char>, int), ErrorModel> {
    match token_model(inp, p, esc) {
        Err(e) => Err(e),
        Ok(Some((TokenModel { kind: TokenKindModel::Atom(s), conditional: false }, q))) => Ok((s, q)),
        Ok(_) => Err(ErrorModel::UnexpectedToken),
    }
}

/// Text of the form `0x` followed by exactly 16 ASCII hex digits (no sign), read as a `u64`.
pub open spec fn hex_u64_model(s: Seq<char>) -> Option<u64> {
    if s.len() == 18 && s[0] == '0' && s[1] == 'x'
        && forall|i: int| 2 <= i < 18 ==> #[trigger] number::digit_value(s[i], 16) is Some {
        number::parse_u64_spec(s.subrange(2, 18), 16)
    } else {
        None
    }
}

/// The value that an atom reads as. With numeric inference, `0x` and 16 hex digits give a
/// `u64`, an `i32` literal gives an int, anything else stays text. (Floats are recognised
/// in a pass of their own: see `float_candidates`.)
pub open spec fn value_model(raw: Seq<char>, inference: bool) -> DataModel {
    if !inference || raw.len() == 0 {
        DataModel::Str(raw)
    } else {
        match hex_u64_model(raw) {
            Some(v) => DataModel::UInt64(v),
            None => match number::parse_i32_spec(raw) {
                Some(v) => DataModel::Int(v),
                None => DataModel::Str(raw),
            },
        }
    }
}

/// The entry at `p`: a name, then a `{`-compound or a value; conditionals after either are skipped.
pub open spec fn entry_model(inp: Seq<char>, p: int, o: Options) -> Result<(EntryModel, int), ErrorModel>
    decreases inp.len() - p, 0int,
{
    let esc = o.escape_sequences;
    match atom_model(inp, p, esc) {
        Err(e) => Err(e),
        Ok((name, q)) => match skip_conds_model(inp, q, esc) {
            Err(e) => Err(e),
            Ok(q2) => match token_model(inp, q2, esc) {
                Err(e) => Err(e),
                Ok(Some((TokenModel { kind: TokenKindModel::OpenBrace, conditional: _ }, q3))) =>
                    if p < q3 <= inp.len() {
                        match compound_model(inp, q3, o) {
                            Ok((es, q4)) => Ok((EntryModel { name, data: DataModel::Compound(es) }, q4)),
                            Err(e) => Err(e),
                        }
                    } else {
                        Err(ErrorModel::UnexpectedEof)
                    },
                Ok(_) => match atom_model(inp, q2, esc) {
                    Err(e) => Err(e),
                    Ok((raw, q5)) => match skip_conds_model(inp, q5, esc) {
                        Err(e) => Err(e),
                        Ok(q6) => Ok((EntryModel { name, data: value_model(raw, o.numeric_inference) }, q6)),
                    },
                },
            },
        },
    }
}

/// The entries of a compound from `p` up to its `}`, skipping conditionals between them.
pub open spec fn compound_model(inp: Seq<char>, p: int, o: Options) -> Result<(Seq<EntryModel>, int), ErrorModel>
    decreases inp.len() - p, 1int,
{
    match token_model(inp, p, o.escape_sequences) {
        Err(e) => Err(e),
        Ok(None) => Err(ErrorModel::UnexpectedEof),
        Ok(Some((t, q))) => if t.kind is CloseBrace {
            Ok((Seq::empty(), q))
        } else if t.conditional {
            if p < q <= inp.len() { compound_model(inp, q, o) } else { Err(ErrorModel::UnexpectedEof) }
        } else {
            match entry_model(inp, p, o) {
                Err(e) => Err(e),
                Ok((e, q2)) => if p < q2 <= inp.len() {
                    match compound_model(inp, q2, o) {
                        Ok((es, q3)) => Ok((seq![e] + es, q3)),
                        Err(err) => Err(err),
                    }
                } else {
                    Err(ErrorModel::UnexpectedEof)
                },
            }
        },
    }
}

/// `Parser::parse` from position `p`: leading conditionals skipped, then one entry.
pub open spec fn parse_model(inp: Seq<char>, p: int, o: Options) -> Result<(EntryModel, int), ErrorModel> {
    match skip_conds_model(inp, p, o.escape_sequences) {
        Err(e) => Err(e),
        Ok(q) => entry_model(inp, q, o),
    }
}

/// Where an unconditional atom read at `p` leaves the reader when it fails: at the end of
/// the text after a tokenizer error, past a token of another kind, or where it was.
pub open spec fn atom_fail_pos(inp: Seq<char>, p: int, esc: bool) -> int {
    match token_model(inp, p, esc) {
        Err(_) => inp.len() as int,
        Ok(Some((_, q))) => q,
        Ok(None) => p,
    }
}

/// Where skipping conditionals from `p` leaves the reader when it fails.
pub open spec fn skip_conds_fail_pos(inp: Seq<char>, p: int, esc: bool) -> int
    decreases inp.len() - p,
{
    match token_model(inp, p, esc) {
        Err(_) => inp.len() as int,
        Ok(Some((t, q))) => if t.conditional && p < q <= inp.len() {
            skip_conds_fail_pos(inp, q, esc)
        } else {
            p
        },
        Ok(None) => p,
    }
}

/// Where reading the entry at `p` leaves the reader when it fails.
pub open spec fn entry_fail_pos(inp: Seq<char>, p: int, o: Options) -> int
    decreases inp.len() - p, 0int,
{
    let esc = o.escape_sequences;
    match atom_model(inp, p, esc) {
        Err(_) => atom_fail_pos(inp, p, esc),
        Ok((_, q)) => match skip_conds_model(inp, q, esc) {
            Err(_) => skip_conds_fail_pos(inp, q, esc),
            Ok(q2) => match token_model(inp, q2, esc) {
                Err(_) => inp.len() as int,
                Ok(Some((TokenModel { kind: TokenKindModel::OpenBrace, conditional: _ }, q3))) =>
                    if p < q3 <= inp.len() { compound_fail_pos(inp, q3, o) } else { q3 },
                Ok(_) => match atom_model(inp, q2, esc) {
                    Err(_) => atom_fail_pos(inp, q2, esc),
                    Ok((_, q5)) => skip_conds_fail_pos(inp, q5, esc),
                },
            },
        },
    }
}

/// Where reading the compound entries from `p` leaves the reader when it fails.
pub open spec fn compound_fail_pos(inp: Seq<char>, p: int, o: Options) -> int
    decreases inp.len() - p, 1int,
{
    match token_model(inp, p, o.escape_sequences) {
        Err(_) => inp.len() as int,
        Ok(None) => p,
        Ok(Some((t, q))) => if t.kind is CloseBrace {
            q
        } else if t.conditional {
            if p < q <= inp.len() { compound_fail_pos(inp, q, o) } else { q }
        } else {
            match entry_model(inp, p, o) {
                Err(_) => entry_fail_pos(inp, p, o),
                Ok((_, q2)) => if p < q2 <= inp.len() { compound_fail_pos(inp, q2, o) } else { q2 },
            }
        },
    }
}

/// Where `Parser::parse` from `p` leaves the reader when it fails.
pub open spec fn parse_fail_pos(inp: Seq<char>, p: int, o: Options) -> int {
    match skip_conds_model(inp, p, o.escape_sequences) {
        Err(_) => skip_conds_fail_pos(inp, p, o.escape_sequences),
        Ok(q) => entry_fail_pos(inp, q, o),
    }
}

/// The rest of an entry whose name was read and ended at `q`: a `{`-compound or a value,
/// each with the conditionals after it skipped.
pub open spec fn entry_after_name(inp: Seq<char>, q: int, name: Seq<char>, o: Options) -> Result<(EntryModel, int), ErrorModel> {
    let esc = o.escape_sequences;
    match skip_conds_model(inp, q, esc) {
        Err(e) => Err(e),
        Ok(q2) => match token_model(inp, q2, esc) {
            Err(e) => Err(e),
            Ok(Some((TokenModel { kind: TokenKindModel::OpenBrace, conditional: _ }, q3))) =>
                if q < q3 <= inp.len() {
                    match compound_model(inp, q3, o) {
                        Ok((es, q4)) => Ok((EntryModel { name, data: DataModel::Compound(es) }, q4)),
                        Err(e) => Err(e),
                    }
                } else {
                    Err(ErrorModel::UnexpectedEof)
                },
            Ok(_) => match atom_model(inp, q2, esc) {
                Err(e) => Err(e),
                Ok((raw, q5)) => match skip_conds_model(inp, q5, esc) {
                    Err(e) => Err(e),
                    Ok(q6) => Ok((EntryModel { name, data: value_model(raw, o.numeric_inference) }, q6)),
                },
            },
        },
    }
}

/// Where reading the rest of an entry from `q` leaves the reader when it fails.
pub open spec fn entry_after_name_fail_pos(inp: Seq<char>, q: int, o: Options) -> int {
    let esc = o.escape_sequences;
    match skip_conds_model(inp, q, esc) {
        Err(_) => skip_conds_fail_pos(inp, q, esc),
        Ok(q2) => match token_model(inp, q2, esc) {
            Err(_) => inp.len() as int,
            Ok(Some((TokenModel { kind: TokenKindModel::OpenBrace, conditional: _ }, q3))) =>
                if q < q3 <= inp.len() { compound_fail_pos(inp, q3, o) } else { q3 },
            Ok(_) => match atom_model(inp, q2, esc) {
                Err(_) => atom_fail_pos(inp, q2, esc),
                Ok((_, q5)) => skip_conds_fail_pos(inp, q5, esc),
            },
        },
    }
}

/// `Parser::parse` from `p` where `pend` is a token already read (under other options) that
/// ends where reading goes on: it is taken first, as it was read. A conditional one is
/// skipped; any other must be the entry's name.
pub open spec fn parse_pending_model(inp: Seq<char>, p: int, o: Options, pend: Option<(TokenModel, int)>) -> Result<(EntryModel, int), ErrorModel> {
    match pend {
        None => parse_model(inp, p, o),
        Some((t, q)) => if t.conditional {
            parse_model(inp, q, o)
        } else {
            match t.kind {
                TokenKindModel::Atom(name) => entry_after_name(inp, q, name, o),
                _ => Err(ErrorModel::UnexpectedToken),
            }
        },
    }
}

/// Where `Parser::parse` leaves the reader when it fails, with a token pending as above.
pub open spec fn parse_pending_fail_pos(inp: Seq<char>, p: int, o: Options, pend: Option<(TokenModel, int)>) -> int {
    match pend {
        None => parse_fail_pos(inp, p, o),
        Some((t, q)) => if t.conditional {
            parse_fail_pos(inp, q, o)
        } else {
            match t.kind {
                TokenKindModel::Atom(_) => entry_after_name_fail_pos(inp, q, o),
                _ => q,
            }
        },
    }
}

/// An entry that reads is its name followed by the rest of it.
proof fn lemma_entry_split(inp: Seq<char>, p: int, o: Options)
    requires
        0 <= p <= inp.len(),
        atom_model(inp, p, o.escape_sequences) is Ok,
    ensures
        entry_model(inp, p, o) == entry_after_name(inp, atom_model(inp, p, o.escape_sequences)->Ok_0.1,
            atom_model(inp, p, o.escape_sequences)->Ok_0.0, o),
        entry_fail_pos(inp, p, o) == entry_after_name_fail_pos(inp, atom_model(inp, p, o.escape_sequences)->Ok_0.1, o),
{
    let esc = o.escape_sequences;
    lemma_token_bounds(inp, p, esc);
    let q = atom_model(inp, p, esc)->Ok_0.1;
    match skip_conds_model(inp, q, esc) {
        Ok(q2) => {
            lemma_skip_conds_bounds(inp, q, esc);
            if token_model(inp, q2, esc) matches Ok(Some(_)) {
                lemma_token_bounds(inp, q2, esc);
            }
        },
        Err(_) => {},
    }
}

/// The text after a leading byte order mark is dropped.
pub open spec fn without_bom(s: Seq<char>) -> Seq<char> {
    if s.len() > 0 && s[0] == '\u{feff}' { s.drop_first() } else { s }
}

/// A token of the text.
enum TokenKind {
    OpenBrace,
    CloseBrace,
    Atom(String),
}

struct Token {
    kind: TokenKind,
    conditional: bool,
}

impl View for Token {
    type V = TokenModel;

    closed spec fn view(&self) -> TokenModel {
        TokenModel {
            kind: match self.kind {
                TokenKind::OpenBrace => TokenKindModel::OpenBrace,
                TokenKind::CloseBrace => TokenKindModel::CloseBrace,
                TokenKind::Atom(s) => TokenKindModel::Atom(s@),
            },
            conditional: self.conditional,
        }
    }
}

fn is_ascii_ws(c: char) -> (r: bool)
    ensures
        r == is_ws(c),
{
    c == ' ' || c == '\t' || c == '\n' || c == '\x0C' || c == '\r'
}

proof fn lemma_skip_ws_bounds(inp: Seq<char>, i: int)
    requires
        0 <= i <= inp.len(),
    ensures
        i <= skip_ws(inp, i) <= inp.len(),
    decreases inp.len() - i,
{
    if i < inp.len() && is_ws(inp[i]) {
        lemma_skip_ws_bounds(inp, i + 1);
    }
}

proof fn lemma_line_end_bounds(inp: Seq<char>, i: int)
    requires
        0 <= i <= inp.len(),
    ensures
        i <= line_end(inp, i) <= inp.len(),
    decreases inp.len() - i,
{
    if i < inp.len() && inp[i] != '\n' {
        lemma_line_end_bounds(inp, i + 1);
    }
}

pub proof fn lemma_skip_trivia_bounds(inp: Seq<char>, i: int)
    requires
        0 <= i <= inp.len(),
    ensures
        i <= skip_trivia(inp, i) <= inp.len(),
    decreases inp.len() - i,
{
    lemma_skip_ws_bounds(inp, i);
    let j = skip_ws(inp, i);
    if comment_at(inp, j) {
        lemma_line_end_bounds(inp, j + 2);
        lemma_skip_trivia_bounds(inp, line_end(inp, j + 2));
    }
}

/// Skips whitespace and `//` comments from `i`.
fn skip_ws_and_comments(inp: &Vec<char>, i: usize) -> (r: usize)
    requires
        i <= inp@.len(),
    ensures
        r == skip_trivia(inp@, i as int),
{
    let mut pos = i;
    loop
        invariant
            i <= pos <= inp@.len(),
            skip_trivia(inp@, i as int) == skip_trivia(inp@, pos as int),
        decreases inp@.len() - pos,
    {
        let start = pos;
        while pos < inp.len() && is_ascii_ws(inp[pos])
            invariant
                start <= pos <= inp@.len(),
                skip_ws(inp@, start as int) == skip_ws(inp@, pos as int),
            decreases inp@.len() - pos,
        {
            pos += 1;
        }
        if !(inp.len() - pos > 1 && inp[pos] == '/' && inp[pos + 1] == '/') {
            return pos;
        }
        pos += 2;
        while pos < inp.len() && inp[pos] != '\n'
            invariant
                start + 2 <= pos <= inp@.len(),
                line_end(inp@, (skip_ws(inp@, start as int) + 2) as int) == line_end(inp@, pos as int),
            decreases inp@.len() - pos,
        {
            pos += 1;
        }
        proof {
            lemma_line_end_bounds(inp@, pos as int);
        }
    }
}

/// The quoted token whose opening quote is at `i`, and the position after it.
fn read_quoted(inp: &Vec<char>, i: usize, esc: bool) -> (r: Result<(Token, usize), Error>)
    requires
        i < inp@.len(),
    ensures
        match quoted_model(inp@, i as int, esc) {
            Ok((t, q)) => r matches Ok((x, y)) && x@ == t && y == q,
            Err(e) => r matches Err(x) && x@ == e,
        },
{
    let n = inp.len();
    let start = i + 1;
    let mut pos = start;
    if !esc {
        while pos < inp.len()
            invariant
                start == i + 1,
                !esc,
                start <= pos <= inp@.len(),
                quote_at_or_after(inp@, start as int) == quote_at_or_after(inp@, pos as int),
            decreases inp@.len() - pos,
        {
            if inp[pos] == '"' {
                let value = strings::string_from_chars(inp, start, pos);
                return Ok((Token { kind: TokenKind::Atom(value), conditional: false }, pos + 1));
            }
            pos += 1;
        }
        return Err(Error::UnexpectedEof);
    }
    let mut out = String::new();
    while pos < inp.len()
        invariant
            start == i + 1,
            esc,
            start <= pos <= inp@.len(),
            unescape(inp@, start as int) == (match unescape(inp@, pos as int) {
                Ok((s, q)) => Ok((out@ + s, q)),
                Err(e) => Err(e),
            }),
        decreases inp@.len() - pos,
    {
        let c = inp[pos];
        if c == '"' {
            assert(out@ + Seq::<char>::empty() =~= out@);
            return Ok((Token { kind: TokenKind::Atom(out), conditional: false }, pos + 1));
        } else if c == '\\' {
            if pos + 1 >= inp.len() {
                return Err(Error::UnexpectedEof);
            }
            let e = inp[pos + 1];
            let d = if e == 'n' { '\n' }
                else if e == 't' { '\t' }
                else if e == 'v' { '\x0B' }
                else if e == 'b' { '\x08' }
                else if e == 'r' { '\r' }
                else if e == 'f' { '\x0C' }
                else if e == 'a' { '\x07' }
                else { e };
            let ghost before = out@;
            strings::push_char(&mut out, d);
            proof {
                match unescape(inp@, pos + 2) {
                    Ok((s, q)) => { assert(before + (seq![d] + s) =~= out@ + s); },
                    Err(_) => {},
                }
            }
            pos += 2;
        } else {
            let ghost before = out@;
            strings::push_char(&mut out, c);
            proof {
                match unescape(inp@, pos + 1) {
                    Ok((s, q)) => { assert(before + (seq![c] + s) =~= out@ + s); },
                    Err(_) => {},
                }
            }
            pos += 1;
        }
    }
    Err(Error::UnexpectedEof)
}

/// The unquoted token starting at `j`, and the position after it.
fn read_bare(inp: &Vec<char>, j: usize) -> (r: (Token, usize))
    requires
        j <= inp@.len(),
    ensures
        r.0@ == (TokenModel {
            kind: TokenKindModel::Atom(inp@.subrange(j as int, bare_end(inp@, j as int))),
            conditional: has_condition(inp@.subrange(j as int, bare_end(inp@, j as int))),
        }),
        r.1 == bare_end(inp@, j as int),
{
    let mut pos = j;
    let mut conditional_start = false;
    let mut conditional = false;
    while pos < inp.len() && !(inp[pos] == '"' || inp[pos] == '{' || inp[pos] == '}' || is_ascii_ws(inp[pos]))
        invariant
            j <= pos <= inp@.len(),
            bare_end(inp@, j as int) == bare_end(inp@, pos as int),
            conditional_start == (exists|a: int| j <= a < pos && inp@[a] == '['),
            conditional == has_condition(inp@.subrange(j as int, pos as int)),
        decreases inp@.len() - pos,
    {
        let c = inp[pos];
        let ghost old_start = conditional_start;
        let ghost old_cond = conditional;
        if c == '[' {
            conditional_start = true;
        } else if c == ']' && conditional_start {
            conditional = true;
        }
        proof {
            let s0 = inp@.subrange(j as int, pos as int);
            let s1 = inp@.subrange(j as int, pos + 1);
            assert(s1 =~= s0.push(c));
            if has_condition(s1) && !has_condition(s0) {
                let (a, b) = choose|a: int, b: int| 0 <= a < b < s1.len() && s1[a] == '[' && s1[b] == ']';
                assert(b == s0.len());
                assert(inp@[j + a] == '[');
            }
            if c == ']' && old_start {
                let a = choose|a: int| j <= a < pos && inp@[a] == '[';
                assert(s1[a - j] == '[' && s1[s0.len() as int] == ']');
            }
            if has_condition(s0) {
                let (a, b) = choose|a: int, b: int| 0 <= a < b < s0.len() && s0[a] == '[' && s0[b] == ']';
                assert(s1[a] == '[' && s1[b] == ']');
            }
        }
        pos += 1;
    }
    let value = strings::string_from_chars(inp, j, pos);
    (Token { kind: TokenKind::Atom(value), conditional }, pos)
}

/// The next token at or after `i`, and the position after it.
fn read_token(inp: &Vec<char>, i: usize, esc: bool) -> (r: Result<Option<(Token, usize)>, Error>)
    requires
        i <= inp@.len(),
    ensures
        match token_model(inp@, i as int, esc) {
            Ok(Some((t, q))) => r matches Ok(Some((x, y))) && x@ == t && y == q,
            Ok(None) => r matches Ok(None),
            Err(e) => r matches Err(x) && x@ == e,
        },
{
    let j = skip_ws_and_comments(inp, i);
    proof { lemma_skip_trivia_bounds(inp@, i as int); }
    if j >= inp.len() {
        return Ok(None);
    }
    let c = inp[j];
    if c == '{' {
        Ok(Some((Token { kind: TokenKind::OpenBrace, conditional: false }, j + 1)))
    } else if c == '}' {
        Ok(Some((Token { kind: TokenKind::CloseBrace, conditional: false }, j + 1)))
    } else if c == '"' {
        let (t, q) = read_quoted(inp, j, esc)?;
        Ok(Some((t, q)))
    } else {
        Ok(Some(read_bare(inp, j)))
    }
}

proof fn lemma_skip_trivia_not_ws(inp: Seq<char>, i: int)
    requires
        0 <= i <= inp.len(),
        skip_trivia(inp, i) < inp.len(),
    ensures
        !is_ws(inp[skip_trivia(inp, i)]),
    decreases inp.len() - i,
{
    lemma_skip_ws_bounds(inp, i);
    let j = skip_ws(inp, i);
    if comment_at(inp, j) {
        lemma_line_end_bounds(inp, j + 2);
        lemma_skip_trivia_not_ws(inp, line_end(inp, j + 2));
    } else {
        lemma_skip_ws_not_ws(inp, i);
    }
}

proof fn lemma_skip_ws_not_ws(inp: Seq<char>, i: int)
    requires
        0 <= i <= inp.len(),
        skip_ws(inp, i) < inp.len(),
    ensures
        !is_ws(inp[skip_ws(inp, i)]),
    decreases inp.len() - i,
{
    if i < inp.len() && is_ws(inp[i]) {
        lemma_skip_ws_not_ws(inp, i + 1);
    }
}

proof fn lemma_bare_end_bounds(inp: Seq<char>, i: int)
    requires
        0 <= i <= inp.len(),
    ensures
        i <= bare_end(inp, i) <= inp.len(),
    decreases inp.len() - i,
{
    if i < inp.len() && !is_delim(inp[i]) {
        lemma_bare_end_bounds(inp, i + 1);
    }
}

proof fn lemma_quote_bounds(inp: Seq<char>, i: int)
    requires
        0 <= i,
        quote_at_or_after(inp, i) is Some,
    ensures
        i <= quote_at_or_after(inp, i)->0 < inp.len(),
    decreases inp.len() - i,
{
    if inp[i] != '"' {
        lemma_quote_bounds(inp, i + 1);
    }
}

proof fn lemma_unescape_bounds(inp: Seq<char>, i: int)
    requires
        0 <= i,
        unescape(inp, i) is Ok,
    ensures
        i < unescape(inp, i)->Ok_0.1 <= inp.len(),
    decreases inp.len() - i,
{
    if inp[i] == '"' {
    } else if inp[i] == '\\' {
        lemma_unescape_bounds(inp, i + 2);
    } else {
        lemma_unescape_bounds(inp, i + 1);
    }
}

/// A token read from `i` ends after `i` and within the text.
pub proof fn lemma_token_bounds(inp: Seq<char>, i: int, esc: bool)
    requires
        0 <= i <= inp.len(),
        token_model(inp, i, esc) matches Ok(Some(_)),
    ensures
        i < token_model(inp, i, esc)->Ok_0->Some_0.1 <= inp.len(),
{
    lemma_skip_trivia_bounds(inp, i);
    let j = skip_trivia(inp, i);
    if inp[j] == '"' {
        if esc {
            lemma_unescape_bounds(inp, j + 1);
        } else {
            lemma_quote_bounds(inp, j + 1);
        }
    } else if inp[j] != '{' && inp[j] != '}' {
        lemma_skip_trivia_not_ws(inp, i);
        lemma_bare_end_bounds(inp, j + 1);
    }
}

/// Skipping conditionals never moves back and stays within the text.
pub proof fn lemma_skip_conds_bounds(inp: Seq<char>, p: int, esc: bool)
    requires
        0 <= p <= inp.len(),
        skip_conds_model(inp, p, esc) is Ok,
    ensures
        p <= skip_conds_model(inp, p, esc)->Ok_0 <= inp.len(),
    decreases inp.len() - p,
{
    match token_model(inp, p, esc) {
        Ok(Some((t, q))) => if t.conditional {
            lemma_token_bounds(inp, p, esc);
            lemma_skip_conds_bounds(inp, q, esc);
        },
        _ => {},
    }
}

/// What `peek` tells of a token.
#[derive(Clone, Copy)]
enum Peeked {
    Open,
    Close,
    Atom(bool),
}

spec fn peeked_of(t: TokenModel) -> Peeked {
    match t.kind {
        TokenKindModel::OpenBrace => Peeked::Open,
        TokenKindModel::CloseBrace => Peeked::Close,
        TokenKindModel::Atom(_) => Peeked::Atom(t.conditional),
    }
}

/// A reader of text KeyValues.
pub struct Parser {
    input: Vec<char>,
    pos: usize,
    peeked: Option<Token>,
    peek_from: usize,
    peek_esc: bool,
    options: Options,
}

impl Parser {
    /// The parser's invariant: a peeked token is the token at the position it was read from,
    /// read with the escape setting it was read with.
    pub closed spec fn wf(&self) -> bool {
        &&& self.pos <= self.input@.len()
        &&& self.peeked matches Some(t) ==> {
            &&& self.peek_from < self.pos
            &&& token_model(self.input@, self.peek_from as int, self.peek_esc)
                == Ok::<Option<(TokenModel, int)>, ErrorModel>(Some((t@, self.pos as int)))
        }
    }

    /// The invariant, with any peeked token read under the options now in force.
    spec fn ready(&self) -> bool {
        &&& self.wf()
        &&& self.peeked is Some ==> self.peek_esc == self.options.escape_sequences
    }

    /// A token that was looked at but not yet taken: the token, the position after it, and
    /// whether it was read with escape sequences decoded.
    pub closed spec fn looked_at(&self) -> Option<(TokenModel, int, bool)> {
        match self.peeked {
            Some(t) => Some((t@, self.pos as int, self.peek_esc)),
            None => None,
        }
    }

    /// A token that was looked at under other escape settings than those now in force: it is
    /// the next token taken, as it was read.
    pub open spec fn pending(&self) -> Option<(TokenModel, int)> {
        match self.looked_at() {
            Some((t, q, e)) => if e != self.options_of().escape_sequences { Some((t, q)) } else { None },
            None => None,
        }
    }

    /// The text being read (without a leading byte order mark).
    pub closed spec fn text(&self) -> Seq<char> {
        self.input@
    }

    /// The read position, before any token that was looked at but not taken.
    pub closed spec fn position(&self) -> int {
        if self.peeked is Some { self.peek_from as int } else { self.pos as int }
    }

    /// The options the text is read with.
    pub closed spec fn options_of(&self) -> Options {
        self.options
    }

    /// A reader of `input` with the default options (no escapes, numeric inference).
    pub fn new(input: &str) -> (p: Self)
        ensures
            p.wf(),
            p.text() == without_bom(input@),
            p.position() == 0,
            p.looked_at() is None,
            p.options_of() == (Options { escape_sequences: false, numeric_inference: true }),
    {
        let chars = strings::chars_of(input);
        let mut input_chars: Vec<char> = Vec::new();
        let first: usize = if chars.len() > 0 && chars[0] == '\u{feff}' { 1 } else { 0 };
        let mut i = first;
        while i < chars.len()
            invariant
                first <= i <= chars@.len(),
                input_chars@ == chars@.subrange(first as int, i as int),
            decreases chars@.len() - i,
        {
            input_chars.push(chars[i]);
            assert(chars@.subrange(first as int, i + 1) == chars@.subrange(first as int, i as int).push(chars@[i as int]));
            i += 1;
        }
        assert(chars@.subrange(first as int, chars@.len() as int) =~= without_bom(input@));
        Parser { input: input_chars, pos: 0, peeked: None, peek_from: 0, peek_esc: false, options: Options::default() }
    }

    /// The same reader with other options. A token that was looked at but not yet taken is
    /// kept as it was read; the tokens after it are read with the new options.
    pub fn options(self, options: Options) -> (p: Self)
        requires
            self.wf(),
        ensures
            p.wf(),
            p.text() == self.text(),
            p.position() == self.position(),
            p.looked_at() == self.looked_at(),
            p.options_of() == options,
    {
        Parser {
            input: self.input,
            pos: self.pos,
            peeked: self.peeked,
            peek_from: self.peek_from,
            peek_esc: self.peek_esc,
            options,
        }
    }

    /// A reader of `input` that decodes escape sequences.
    pub fn with_escape_sequences(input: &str) -> (p: Self)
        ensures
            p.wf(),
            p.text() == without_bom(input@),
            p.position() == 0,
            p.looked_at() is None,
            p.options_of() == (Options { escape_sequences: true, numeric_inference: true }),
    {
        Self::new(input).escape_sequences(true)
    }

    /// The same reader, decoding escape sequences or not.
    pub fn escape_sequences(self, state: bool) -> (p: Self)
        requires
            self.wf(),
        ensures
            p.wf(),
            p.text() == self.text(),
            p.position() == self.position(),
            p.looked_at() == self.looked_at(),
            p.options_of() == (Options { escape_sequences: state, ..self.options_of() }),
    {
        let o = Options { escape_sequences: state, numeric_inference: self.options.numeric_inference };
        self.options(o)
    }

    /// The same reader, inferring numeric types or not.
    pub fn numeric_inference(self, state: bool) -> (p: Self)
        requires
            self.wf(),
        ensures
            p.wf(),
            p.text() == self.text(),
            p.position() == self.position(),
            p.looked_at() == self.looked_at(),
            p.options_of() == (Options { numeric_inference: state, ..self.options_of() }),
    {
        let o = Options { escape_sequences: self.options.escape_sequences, numeric_inference: state };
        self.options(o)
    }

    /// Reads one entry, after any leading conditionals. A token read before the options
    /// changed is taken first, as it was read.
    pub fn parse(&mut self) -> (r: Result<KvEntry, Error>)
        requires
            old(self).wf(),
        ensures
            final(self).wf(),
            final(self).text() == old(self).text(),
            final(self).options_of() == old(self).options_of(),
            final(self).pending() is None,
            match parse_pending_model(old(self).text(), old(self).position(), old(self).options_of(), old(self).pending()) {
                Ok((e, q)) => r matches Ok(x) && x@ == e && final(self).position() == q,
                Err(err) => r matches Err(x) && x@ == err && final(self).position()
                    == parse_pending_fail_pos(old(self).text(), old(self).position(), old(self).options_of(), old(self).pending()),
            },
    {
        if self.peeked.is_some() && self.peek_esc != self.options.escape_sequences {
            let ghost q = self.pos;
            let taken = self.peeked.take();
            match taken {
                Some(t) => {
                    proof { lemma_token_bounds(self.input@, self.peek_from as int, self.peek_esc); }
                    if t.conditional {
                        self.skip_conditionals()?;
                        self.parse_entry()
                    } else {
                        match t.kind {
                            TokenKind::Atom(name) => self.parse_entry_rest(name),
                            _ => Err(Error::UnexpectedToken),
                        }
                    }
                },
                None => Err(Error::UnexpectedToken),
            }
        } else {
            self.skip_conditionals()?;
            self.parse_entry()
        }
    }

    fn next(&mut self) -> (r: Result<Option<Token>, Error>)
        requires
            old(self).ready(),
        ensures
            final(self).ready(),
            final(self).input@ == old(self).input@,
            final(self).options == old(self).options,
            match token_model(old(self).input@, old(self).position(), old(self).options.escape_sequences) {
                Ok(Some((t, q))) => r matches Ok(Some(x)) && x@ == t && final(self).position() == q,
                Ok(None) => r matches Ok(None) && final(self).position() == old(self).position(),
                Err(e) => r matches Err(x) && x@ == e && final(self).position() == old(self).input@.len(),
            },
    {
        if self.peeked.is_some() {
            let t = self.peeked.take();
            match t {
                Some(t) => Ok(Some(t)),
                None => Ok(None),
            }
        } else {
            match read_token(&self.input, self.pos, self.options.escape_sequences) {
                Ok(Some((t, q))) => {
                    proof { lemma_token_bounds(self.input@, self.pos as int, self.options.escape_sequences); }
                    self.pos = q;
                    Ok(Some(t))
                },
                Ok(None) => Ok(None),
                Err(e) => {
                    self.pos = self.input.len();
                    Err(e)
                },
            }
        }
    }

    fn peek(&mut self) -> (r: Result<Option<Peeked>, Error>)
        requires
            old(self).ready(),
        ensures
            final(self).ready(),
            final(self).input@ == old(self).input@,
            final(self).options == old(self).options,
            match token_model(old(self).input@, old(self).position(), old(self).options.escape_sequences) {
                Ok(Some((t, q))) => r == Ok::<Option<Peeked>, Error>(Some(peeked_of(t)))
                    && final(self).position() == old(self).position(),
                Ok(None) => r matches Ok(None) && final(self).position() == old(self).position(),
                Err(e) => r matches Err(x) && x@ == e && final(self).position() == old(self).input@.len(),
            },
    {
        if self.peeked.is_none() {
            match read_token(&self.input, self.pos, self.options.escape_sequences) {
                Ok(Some((t, q))) => {
                    proof { lemma_token_bounds(self.input@, self.pos as int, self.options.escape_sequences); }
                    self.peek_from = self.pos;
                    self.pos = q;
                    self.peek_esc = self.options.escape_sequences;
                    self.peeked = Some(t);
                },
                Ok(None) => { return Ok(None); },
                Err(e) => {
                    self.pos = self.input.len();
                    return Err(e);
                },
            }
        }
        match &self.peeked {
            Some(t) => {
                let shape = match &t.kind {
                    TokenKind::OpenBrace => Peeked::Open,
                    TokenKind::CloseBrace => Peeked::Close,
                    TokenKind::Atom(_) => Peeked::Atom(t.conditional),
                };
                Ok(Some(shape))
            },
            None => Ok(None),
        }
    }

    fn read_atom(&mut self) -> (r: Result<String, Error>)
        requires
            old(self).ready(),
        ensures
            final(self).ready(),
            final(self).input@ == old(self).input@,
            final(self).options == old(self).options,
            match atom_model(old(self).input@, old(self).position(), old(self).options.escape_sequences) {
                Ok((s, q)) => r matches Ok(x) && x@ == s && final(self).position() == q,
                Err(e) => r matches Err(x) && x@ == e && final(self).position()
                    == atom_fail_pos(old(self).input@, old(self).position(), old(self).options.escape_sequences),
            },
    {
        match self.next()? {
            Some(Token { kind: TokenKind::Atom(s), conditional: false }) => Ok(s),
            _ => Err(Error::UnexpectedToken),
        }
    }

    fn skip_conditionals(&mut self) -> (r: Result<(), Error>)
        requires
            old(self).ready(),
        ensures
            final(self).ready(),
            final(self).input@ == old(self).input@,
            final(self).options == old(self).options,
            match skip_conds_model(old(self).input@, old(self).position(), old(self).options.escape_sequences) {
                Ok(q) => r is Ok && final(self).position() == q,
                Err(e) => r matches Err(x) && x@ == e && final(self).position()
                    == skip_conds_fail_pos(old(self).input@, old(self).position(), old(self).options.escape_sequences),
            },
    {
        let ghost inp = self.input@;
        let ghost esc = self.options.escape_sequences;
        let ghost start = self.position();
        loop
            invariant
                self.ready(),
                self.input@ == inp,
                inp == old(self).input@,
                self.options == old(self).options,
                esc == self.options.escape_sequences,
                start == old(self).position(),
                0 <= self.position() <= inp.len(),
                skip_conds_model(inp, start, esc) == skip_conds_model(inp, self.position(), esc),
                skip_conds_fail_pos(inp, start, esc) == skip_conds_fail_pos(inp, self.position(), esc),
            decreases inp.len() - self.position(),
        {
            match self.peek() {
                Err(e) => { return Err(e); },
                Ok(Some(Peeked::Atom(true))) => {
                    let ghost p = self.position();
                    proof { lemma_token_bounds(inp, p, esc); }
                    let _ = self.next();
                },
                Ok(_) => { return Ok(()); },
            }
        }
    }

    fn parse_value(&self, value: String) -> (d: KvData)
        ensures
            d@ == value_model(value@, self.options.numeric_inference),
    {
        if !self.options.numeric_inference {
            return KvData::String(value);
        }
        let chars = strings::chars_of(value.as_str());
        if chars.len() == 0 {
            return KvData::String(value);
        }
        if let Some(v) = parse_uint64_hex(&chars) {
            return KvData::UInt64(v);
        }
        if let Some(v) = number::parse_i32(&chars) {
            return KvData::Int(v);
        }
        KvData::String(value)
    }

    fn parse_compound(&mut self) -> (r: Result<Vec<KvEntry>, Error>)
        requires
            old(self).ready(),
        ensures
            final(self).ready(),
            final(self).input@ == old(self).input@,
            final(self).options == old(self).options,
            match compound_model(old(self).input@, old(self).position(), old(self).options) {
                Ok((es, q)) => r matches Ok(x) && entries_model(x@) == es && final(self).position() == q,
                Err(e) => r matches Err(x) && x@ == e && final(self).position()
                    == compound_fail_pos(old(self).input@, old(self).position(), old(self).options),
            },
        decreases old(self).input@.len() - old(self).position(), 1int,
    {
        let ghost inp = self.input@;
        let ghost o = self.options;
        let ghost start = self.position();
        let mut entries: Vec<KvEntry> = Vec::new();
        loop
            invariant
                self.ready(),
                self.input@ == inp,
                inp == old(self).input@,
                self.options == o,
                o == old(self).options,
                start == old(self).position(),
                start <= self.position() <= inp.len(),
                compound_model(inp, start, o) == (match compound_model(inp, self.position(), o) {
                    Ok((es, q)) => Ok((entries_model(entries@) + es, q)),
                    Err(e) => Err(e),
                }),
                compound_fail_pos(inp, start, o) == compound_fail_pos(inp, self.position(), o),
            decreases inp.len() - self.position(),
        {
            let ghost p = self.position();
            match self.peek() {
                Err(e) => { return Err(e); },
                Ok(None) => { return Err(Error::UnexpectedEof); },
                Ok(Some(Peeked::Close)) => {
                    let _ = self.next();
                    assert(entries_model(entries@) + Seq::<EntryModel>::empty() =~= entries_model(entries@));
                    return Ok(entries);
                },
                Ok(Some(Peeked::Atom(true))) => {
                    proof { lemma_token_bounds(inp, p, o.escape_sequences); }
                    let _ = self.next();
                },
                Ok(Some(_)) => {
                    match self.parse_entry() {
                        Err(e) => { return Err(e); },
                        Ok(entry) => {
                            proof {
                                lemma_entry_bounds(inp, p, o);
                                assert(entries_model(entries@.push(entry)) =~= entries_model(entries@) + seq![entry@]);
                                match compound_model(inp, self.position(), o) {
                                    Ok((es, q)) => {
                                        assert(entries_model(entries@) + (seq![entry@] + es)
                                            =~= entries_model(entries@.push(entry)) + es);
                                    },
                                    Err(_) => {},
                                }
                            }
                            entries.push(entry);
                        },
                    }
                },
            }
        }
    }

    fn parse_entry(&mut self) -> (r: Result<KvEntry, Error>)
        requires
            old(self).ready(),
        ensures
            final(self).ready(),
            final(self).input@ == old(self).input@,
            final(self).options == old(self).options,
            match entry_model(old(self).input@, old(self).position(), old(self).options) {
                Ok((e, q)) => r matches Ok(x) && x@ == e && final(self).position() == q,
                Err(err) => r matches Err(x) && x@ == err && final(self).position()
                    == entry_fail_pos(old(self).input@, old(self).position(), old(self).options),
            },
        decreases old(self).input@.len() - old(self).position(), 0int,
    {
        let ghost inp = self.input@;
        let ghost o = self.options;
        let ghost p = self.position();
        let name = self.read_atom()?;
        proof {
            lemma_token_bounds(inp, p, o.escape_sequences);
            lemma_entry_split(inp, p, o);
        }
        self.parse_entry_rest(name)
    }

    /// The rest of an entry whose name was just read.
    fn parse_entry_rest(&mut self, name: String) -> (r: Result<KvEntry, Error>)
        requires
            old(self).ready(),
        ensures
            final(self).ready(),
            final(self).input@ == old(self).input@,
            final(self).options == old(self).options,
            match entry_after_name(old(self).input@, old(self).position(), name@, old(self).options) {
                Ok((e, q)) => r matches Ok(x) && x@ == e && final(self).position() == q,
                Err(err) => r matches Err(x) && x@ == err && final(self).position()
                    == entry_after_name_fail_pos(old(self).input@, old(self).position(), old(self).options),
            },
        decreases old(self).input@.len() - old(self).position(), 0int,
    {
        let ghost inp = self.input@;
        let ghost o = self.options;
        let ghost q = self.position();
        self.skip_conditionals()?;
        proof {
            lemma_skip_conds_bounds(inp, q, o.escape_sequences);
        }
        let ghost q2 = self.position();
        let shape = self.peek()?;
        let data = match shape {
            Some(Peeked::Open) => {
                proof { lemma_token_bounds(inp, q2, o.escape_sequences); }
                let _ = self.next();
                let es = self.parse_compound()?;
                proof { lemma_compound_model(es); }
                KvData::Compound(es)
            },
            _ => {
                let raw = self.read_atom()?;
                proof { lemma_token_bounds(inp, q2, o.escape_sequences); }
                self.skip_conditionals()?;
                self.parse_value(raw)
            },
        };
        Ok(KvEntry { name, data })
    }
}

/// Whether `c` is an ASCII hex digit.
fn is_hex_digit(c: char) -> (r: bool)
    ensures
        r == number::digit_value(c, 16) is Some,
{
    ('0' <= c && c <= '9') || ('a' <= c && c <= 'f') || ('A' <= c && c <= 'F')
}

/// `0x` and exactly 16 hex digits, read as a `u64`.
fn parse_uint64_hex(chars: &Vec<char>) -> (r: Option<u64>)
    ensures
        r == hex_u64_model(chars@),
{
    if chars.len() != 18 || chars[0] != '0' || chars[1] != 'x' {
        return None;
    }
    let mut digits: Vec<char> = Vec::new();
    let mut i: usize = 2;
    while i < 18
        invariant
            2 <= i <= 18,
            chars@.len() == 18,
            chars@[0] == '0' && chars@[1] == 'x',
            digits@ == chars@.subrange(2, i as int),
            forall|j: int| 2 <= j < i ==> #[trigger] number::digit_value(chars@[j], 16) is Some,
        decreases 18 - i,
    {
        if !is_hex_digit(chars[i]) {
            return None;
        }
        digits.push(chars[i]);
        assert(chars@.subrange(2, i + 1) == chars@.subrange(2, i as int).push(chars@[i as int]));
        i += 1;
    }
    number::parse_u64_radix(&digits, 16)
}

/// An entry that parses ends after where it starts and within the text.
pub proof fn lemma_entry_bounds(inp: Seq<char>, p: int, o: Options)
    requires
        0 <= p <= inp.len(),
        entry_model(inp, p, o) is Ok,
    ensures
        p < entry_model(inp, p, o)->Ok_0.1 <= inp.len(),
    decreases inp.len() - p, 0int,
{
    let esc = o.escape_sequences;
    lemma_token_bounds(inp, p, esc);
    let q = atom_model(inp, p, esc)->Ok_0.1;
    lemma_skip_conds_bounds(inp, q, esc);
    let q2 = skip_conds_model(inp, q, esc)->Ok_0;
    match token_model(inp, q2, esc) {
        Ok(Some((TokenModel { kind: TokenKindModel::OpenBrace, conditional: _ }, q3))) => {
            lemma_compound_bounds(inp, q3, o);
        },
        _ => {
            lemma_token_bounds(inp, q2, esc);
            let q5 = atom_model(inp, q2, esc)->Ok_0.1;
            lemma_skip_conds_bounds(inp, q5, esc);
        },
    }
}

/// A compound that parses ends after where it starts and within the text.
pub proof fn lemma_compound_bounds(inp: Seq<char>, p: int, o: Options)
    requires
        0 <= p <= inp.len(),
        compound_model(inp, p, o) is Ok,
    ensures
        p < compound_model(inp, p, o)->Ok_0.1 <= inp.len(),
    decreases inp.len() - p, 1int,
{
    lemma_token_bounds(inp, p, o.escape_sequences);
    let (t, q) = token_model(inp, p, o.escape_sequences)->Ok_0->Some_0;
    if t.kind is CloseBrace {
    } else if t.conditional {
        lemma_compound_bounds(inp, q, o);
    } else {
        lemma_entry_bounds(inp, p, o);
        let q2 = entry_model(inp, p, o)->Ok_0.1;
        lemma_compound_bounds(inp, q2, o);
    }
}

proof fn lemma_skip_ws_to(inp: Seq<char>, s: int, c: int)
    requires
        0 <= s <= c <= inp.len(),
        forall|j: int| s <= j < c ==> is_ws(#[trigger] inp[j]),
        c == inp.len() || !is_ws(inp[c]),
    ensures
        skip_ws(inp, s) == c,
    decreases c - s,
{
    if s < c {
        lemma_skip_ws_to(inp, s + 1, c);
    }
}

proof fn lemma_line_end_to(inp: Seq<char>, i: int, k: int)
    requires
        0 <= i <= k <= inp.len(),
        forall|j: int| i <= j < k ==> #[trigger] inp[j] != '\n',
        k == inp.len() || inp[k] == '\n',
    ensures
        line_end(inp, i) == k,
    decreases k - i,
{
    if i < k {
        lemma_line_end_to(inp, i + 1, k);
    }
}

/// A `//` where a token may start opens a comment that runs to the end of its line,
/// wherever it stands on the line (after a value, after indentation, at the start): reading
/// a token from any whitespace before it gives what reading from the next line gives, and
/// a comment on the last line ends the text.
pub proof fn comments_run_to_line_end(inp: Seq<char>, s: int, c: int, k: int, esc: bool)
    requires
        0 <= s <= c,
        c + 2 <= k <= inp.len(),
        forall|j: int| s <= j < c ==> is_ws(#[trigger] inp[j]),
        inp[c] == '/',
        inp[c + 1] == '/',
        forall|j: int| c + 2 <= j < k ==> #[trigger] inp[j] != '\n',
        k == inp.len() || inp[k] == '\n',
    ensures
        k < inp.len() ==> token_model(inp, s, esc) == token_model(inp, k + 1, esc),
        k == inp.len() ==> token_model(inp, s, esc) == Ok::<Option<(TokenModel, int)>, ErrorModel>(None),
{
    lemma_skip_ws_to(inp, s, c);
    lemma_line_end_to(inp, c + 2, k);
    assert(comment_at(inp, c));
    assert(skip_trivia(inp, s) == skip_trivia(inp, k));
    if k < inp.len() {
        assert(skip_ws(inp, k) == skip_ws(inp, k + 1));
        let j = skip_ws(inp, k + 1);
        lemma_skip_ws_bounds(inp, k + 1);
        if comment_at(inp, j) {
            lemma_line_end_bounds(inp, j + 2);
        }
        assert(skip_trivia(inp, k) == skip_trivia(inp, k + 1));
    } else {
        assert(skip_trivia(inp, k) == k);
    }
}

} // verus!
