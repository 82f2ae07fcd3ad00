use vstd::prelude::*;
use crate::error::ErrorModel;
use crate::text::parser::{
    Options, TokenKindModel, TokenModel, comment_at, compound_model, entry_model, escaped, is_ws,
    parse_model, quote_at_or_after, skip_conds_model, skip_trivia, skip_ws, token_model, unescape,
    atom_model, value_model,
};
use crate::text::write::{decode_utf16, entries_text, entry_text, escape_char, escape_text, indent, quoted, value_text};
use crate::number::{decimal, hex_digits, signed_decimal};
use crate::types::{DataModel, EntryModel};

verus! {

/// Every value below (and including) `d` is a string or a compound.
pub open spec fn strings_only(d: DataModel) -> bool
    decreases d, 1int,
{
    match d {
        DataModel::Str(_) => true,
        DataModel::Compound(es) => entries_strings_only(es),
        _ => false,
    }
}

/// Every entry's value in `es` holds only strings and compounds.
pub open spec fn entries_strings_only(es: Seq<EntryModel>) -> bool
    decreases es, 0int,
{
    es.len() == 0 || (strings_only(es[0].data) && entries_strings_only(es.drop_first()))
}

/// The text a value that is not a compound is written as, inside its quotes and before
/// escaping. Binary strings have none (the text writer refuses them); neither have floats
/// here, whose text is the caller's.
pub open spec fn leaf_text(d: DataModel) -> Option<Seq<char>> {
    match d {
        DataModel::Str(s) => Some(s),
        DataModel::Wide(w) => decode_utf16(w),
        DataModel::Int(v) => Some(signed_decimal(v as int)),
        DataModel::Int64(v) => Some(signed_decimal(v as int)),
        DataModel::UInt64(v) => Some(seq!['0', 'x'] + hex_digits(v as nat, 16)),
        DataModel::Pointer(v) => Some(decimal(v as nat)),
        DataModel::Color(v) => Some(decimal(v as nat)),
        _ => None,
    }
}

/// Text in which the writer escapes nothing.
pub open spec fn plain(s: Seq<char>) -> bool {
    forall|i: int| 0 <= i < s.len() ==> #[trigger] escape_char(s[i]) == seq![s[i]]
}

/// A value that the writer writes and the reader reads back: each value below it has a
/// text, and where escapes are not decoded (`!esc`), that text and every name are plain.
pub open spec fn readable(d: DataModel, esc: bool) -> bool
    decreases d, 1int,
{
    match d {
        DataModel::Compound(es) => entries_readable(es, esc),
        _ => leaf_text(d) matches Some(t) && (esc || plain(t)),
    }
}

/// Every entry of `es` is readable: its name, and its value.
pub open spec fn entries_readable(es: Seq<EntryModel>, esc: bool) -> bool
    decreases es, 0int,
{
    es.len() == 0 || ((esc || plain(es[0].name)) && readable(es[0].data, esc)
        && entries_readable(es.drop_first(), esc))
}

/// What reading a written value gives: each value below it as its text read as a value
/// (`value_model`), with numeric inference or without.
pub open spec fn read_back(d: DataModel, inference: bool) -> DataModel
    decreases d, 1int,
{
    match d {
        DataModel::Compound(es) => DataModel::Compound(entries_read_back(es, inference)),
        _ => match leaf_text(d) {
            Some(t) => value_model(t, inference),
            None => d,
        },
    }
}

/// What reading written entries gives.
pub open spec fn entries_read_back(es: Seq<EntryModel>, inference: bool) -> Seq<EntryModel>
    decreases es, 0int,
{
    if es.len() == 0 {
        Seq::empty()
    } else {
        seq![EntryModel { name: es[0].name, data: read_back(es[0].data, inference) }]
            + entries_read_back(es.drop_first(), inference)
    }
}

/// `t` stands in `inp` from position `p`.
spec fn at(inp: Seq<char>, p: int, t: Seq<char>) -> bool {
    &&& 0 <= p
    &&& p + t.len() <= inp.len()
    &&& chars_at(inp, p, t)
}

#[verifier::opaque]
spec fn chars_at(inp: Seq<char>, p: int, t: Seq<char>) -> bool {
    forall|k: int| 0 <= k < t.len() ==> inp[p + k] == #[trigger] t[k]
}

/// Every character of `inp` in `[s, k)` is whitespace.
spec fn ws_between(inp: Seq<char>, s: int, k: int) -> bool {
    forall|j: int| s <= j < k ==> is_ws(#[trigger] inp[j])
}

/// The token after `q` can be read, and is not a conditional.
spec fn clean_after(inp: Seq<char>, q: int, esc: bool) -> bool {
    &&& token_model(inp, q, esc) is Ok
    &&& !(token_model(inp, q, esc) matches Ok(Some((t, _))) && t.conditional)
}

proof fn lemma_at_index(inp: Seq<char>, p: int, t: Seq<char>, k: int)
    requires
        at(inp, p, t),
        0 <= k < t.len(),
    ensures
        inp[p + k] == t[k],
{
    reveal(chars_at);
}

proof fn lemma_at_split(inp: Seq<char>, p: int, a: Seq<char>, b: Seq<char>)
    requires
        at(inp, p, a + b),
    ensures
        at(inp, p, a),
        at(inp, p + a.len(), b),
{
    reveal(chars_at);
    assert forall|k: int| 0 <= k < a.len() implies inp[p + k] == #[trigger] a[k] by {
        assert((a + b)[k] == a[k]);
    }
    assert forall|k: int| 0 <= k < b.len() implies inp[p + a.len() + k] == #[trigger] b[k] by {
        assert((a + b)[a.len() + k] == b[k]);
    }
}

proof fn lemma_at_whole(t: Seq<char>)
    ensures
        at(t, 0, t),
{
    reveal(chars_at);
}

proof fn lemma_ws_join(inp: Seq<char>, a: int, b: int, c: int)
    requires
        ws_between(inp, a, b),
        ws_between(inp, b, c),
    ensures
        ws_between(inp, a, c),
{
}

proof fn lemma_skip_ws_range(inp: Seq<char>, s: int, k: int)
    requires
        0 <= s <= k <= inp.len(),
        ws_between(inp, s, k),
    ensures
        skip_ws(inp, s) == skip_ws(inp, k),
    decreases k - s,
{
    if s < k {
        assert(is_ws(inp[s]));
        lemma_skip_ws_range(inp, s + 1, k);
    }
}

/// Past whitespace, the next token starts at a quote or brace (or the text ends).
proof fn lemma_trivia_to(inp: Seq<char>, s: int, k: int)
    requires
        0 <= s <= k <= inp.len(),
        ws_between(inp, s, k),
        k == inp.len() || inp[k] == '"' || inp[k] == '{' || inp[k] == '}',
    ensures
        skip_trivia(inp, s) == k,
{
    lemma_skip_ws_range(inp, s, k);
    assert(skip_ws(inp, k) == k);
    assert(!comment_at(inp, k));
}

proof fn lemma_escape_char_len(c: char)
    ensures
        escape_char(c).len() == 1 || escape_char(c).len() == 2,
        escape_char(c).len() == 1 ==> escape_char(c)[0] == c && c != '"' && c != '\\',
        escape_char(c).len() == 2 ==> escape_char(c)[0] == '\\' && escaped(escape_char(c)[1]) == c,
{
}

/// Escaped text followed by a quote decodes back to the text.
proof fn lemma_unescape_text(inp: Seq<char>, i: int, s: Seq<char>)
    requires
        at(inp, i, escape_text(s).push('"')),
    ensures
        unescape(inp, i) == Ok::<(Seq<char>, int), ErrorModel>((s, i + escape_text(s).len() + 1)),
    decreases s.len(),
{
    let w = escape_text(s).push('"');
    if s.len() == 0 {
        assert(escape_text(s) =~= Seq::<char>::empty());
        lemma_at_index(inp, i, w, 0);
        assert(s =~= Seq::<char>::empty());
    } else {
        let c = s[0];
        let ec = escape_char(c);
        let rest = s.drop_first();
        lemma_escape_char_len(c);
        assert(escape_text(s) == ec + escape_text(rest));
        assert(w =~= ec + escape_text(rest).push('"'));
        lemma_at_split(inp, i, ec, escape_text(rest).push('"'));
        lemma_unescape_text(inp, i + ec.len(), rest);
        lemma_at_index(inp, i, ec, 0);
        if ec.len() == 2 {
            lemma_at_index(inp, i, ec, 1);
        }
        assert(seq![c] + rest =~= s);
    }
}

/// Plain text followed by a quote: the quote is the first one.
proof fn lemma_quote_scan(inp: Seq<char>, j: int, t: Seq<char>)
    requires
        at(inp, j, t.push('"')),
        plain(t),
    ensures
        quote_at_or_after(inp, j) == Some(j + t.len()),
    decreases t.len(),
{
    if t.len() == 0 {
        lemma_at_index(inp, j, t.push('"'), 0);
    } else {
        assert(t.push('"') =~= seq![t[0]] + t.drop_first().push('"'));
        lemma_at_split(inp, j, seq![t[0]], t.drop_first().push('"'));
        lemma_at_index(inp, j, seq![t[0]], 0);
        assert(escape_char(t[0]) == seq![t[0]]);
        assert(plain(t.drop_first())) by {
            assert forall|i: int| 0 <= i < t.drop_first().len()
                implies #[trigger] escape_char(t.drop_first()[i]) == seq![t.drop_first()[i]] by {
                assert(t.drop_first()[i] == t[i + 1]);
                assert(escape_char(t[i + 1]) == seq![t[i + 1]]);
            }
        }
        lemma_quote_scan(inp, j + 1, t.drop_first());
    }
}

/// Plain text is written as it is.
proof fn lemma_plain_escape(t: Seq<char>)
    requires
        plain(t),
    ensures
        escape_text(t) == t,
    decreases t.len(),
{
    if t.len() > 0 {
        assert(escape_char(t[0]) == seq![t[0]]);
        assert(plain(t.drop_first())) by {
            assert forall|i: int| 0 <= i < t.drop_first().len()
                implies #[trigger] escape_char(t.drop_first()[i]) == seq![t.drop_first()[i]] by {
                assert(t.drop_first()[i] == t[i + 1]);
                assert(escape_char(t[i + 1]) == seq![t[i + 1]]);
            }
        }
        lemma_plain_escape(t.drop_first());
        assert(seq![t[0]] + t.drop_first() =~= t);
    }
}

proof fn lemma_at_subrange(inp: Seq<char>, p: int, t: Seq<char>)
    requires
        at(inp, p, t),
    ensures
        inp.subrange(p, p + t.len()) == t,
{
    assert forall|k: int| 0 <= k < t.len() implies #[trigger] inp.subrange(p, p + t.len())[k] == t[k] by {
        lemma_at_index(inp, p, t, k);
    }
    assert(inp.subrange(p, p + t.len()) =~= t);
}

/// A quoted text after whitespace reads as an unconditional atom, where escapes are decoded
/// or the text is plain.
proof fn lemma_quoted_token(inp: Seq<char>, s: int, k: int, text: Seq<char>, esc: bool)
    requires
        0 <= s <= k,
        ws_between(inp, s, k),
        at(inp, k, quoted(text)),
        esc || plain(text),
    ensures
        token_model(inp, s, esc) == Ok::<Option<(TokenModel, int)>, ErrorModel>(Some((
            TokenModel { kind: TokenKindModel::Atom(text), conditional: false },
            k + quoted(text).len(),
        ))),
        quoted(text).len() == escape_text(text).len() + 2,
{
    assert(quoted(text) =~= seq!['"'] + escape_text(text).push('"'));
    lemma_at_split(inp, k, seq!['"'], escape_text(text).push('"'));
    lemma_at_index(inp, k, seq!['"'], 0);
    lemma_trivia_to(inp, s, k);
    if esc {
        lemma_unescape_text(inp, k + 1, text);
    } else {
        lemma_plain_escape(text);
        lemma_quote_scan(inp, k + 1, text);
        assert(escape_text(text).push('"') =~= text + seq!['"']);
        lemma_at_split(inp, k + 1, text, seq!['"']);
        lemma_at_subrange(inp, k + 1, text);
    }
}

/// A brace after whitespace reads as that brace.
proof fn lemma_brace_token(inp: Seq<char>, s: int, k: int, esc: bool)
    requires
        0 <= s <= k < inp.len(),
        ws_between(inp, s, k),
        inp[k] == '{' || inp[k] == '}',
    ensures
        token_model(inp, s, esc) == Ok::<Option<(TokenModel, int)>, ErrorModel>(Some((
            TokenModel {
                kind: if inp[k] == '{' { TokenKindModel::OpenBrace } else { TokenKindModel::CloseBrace },
                conditional: false,
            },
            k + 1,
        ))),
{
    lemma_trivia_to(inp, s, k);
}

proof fn lemma_indent_ws(inp: Seq<char>, p: int, d: nat)
    requires
        at(inp, p, indent(d)),
    ensures
        ws_between(inp, p, p + d),
{
    assert forall|j: int| p <= j < p + d implies is_ws(#[trigger] inp[j]) by {
        lemma_at_index(inp, p, indent(d), j - p);
    }
}

/// A single whitespace character at `p`.
proof fn lemma_ws_char(inp: Seq<char>, p: int, c: char)
    requires
        at(inp, p, seq![c]),
        is_ws(c),
    ensures
        ws_between(inp, p, p + 1),
{
    lemma_at_index(inp, p, seq![c], 0);
}

proof fn lemma_plain_push(s: Seq<char>, c: char)
    requires
        plain(s),
        escape_char(c) == seq![c],
    ensures
        plain(s.push(c)),
{
    assert forall|i: int| 0 <= i < s.push(c).len() implies #[trigger] escape_char(s.push(c)[i]) == seq![s.push(c)[i]] by {
        if i < s.len() {
            assert(s.push(c)[i] == s[i]);
            assert(escape_char(s[i]) == seq![s[i]]);
        }
    }
}

proof fn lemma_plain_concat(a: Seq<char>, b: Seq<char>)
    requires
        plain(a),
        plain(b),
    ensures
        plain(a + b),
{
    assert forall|i: int| 0 <= i < (a + b).len() implies #[trigger] escape_char((a + b)[i]) == seq![(a + b)[i]] by {
        if i < a.len() {
            assert((a + b)[i] == a[i]);
            assert(escape_char(a[i]) == seq![a[i]]);
        } else {
            assert((a + b)[i] == b[i - a.len()]);
            assert(escape_char(b[i - a.len()]) == seq![b[i - a.len()]]);
        }
    }
}

proof fn lemma_decimal_plain(n: nat)
    ensures
        plain(decimal(n)),
    decreases n,
{
    if n < 10 {
        assert(escape_char(decimal(n)[0]) == seq![decimal(n)[0]]);
    } else {
        lemma_decimal_plain(n / 10);
        lemma_plain_push(decimal(n / 10), crate::number::digit_char(n % 10));
    }
}

proof fn lemma_hex_plain(v: nat, n: nat)
    ensures
        plain(hex_digits(v, n)),
    decreases n,
{
    if n > 0 {
        lemma_hex_plain(v / 16, (n - 1) as nat);
        lemma_plain_push(hex_digits(v / 16, (n - 1) as nat), crate::number::digit_char(v % 16));
    }
}

/// A value that is not a compound and has a text is written as that text in quotes; the
/// texts of numbers are plain.
proof fn lemma_leaf_value_text(d: DataModel, fl: Seq<(u32, Seq<char>)>)
    requires
        !(d is Compound),
        leaf_text(d) is Some,
    ensures
        value_text(d, fl) == Ok::<Seq<char>, ErrorModel>(quoted(leaf_text(d)->Some_0)),
{
    match d {
        DataModel::Int(v) => {
            let t = signed_decimal(v as int);
            lemma_decimal_plain((-v) as nat);
            lemma_decimal_plain(v as nat);
            lemma_plain_concat(seq!['-'], decimal((-v) as nat));
            lemma_plain_escape(t);
        },
        DataModel::Int64(v) => {
            let t = signed_decimal(v as int);
            lemma_decimal_plain((-v) as nat);
            lemma_decimal_plain(v as nat);
            lemma_plain_concat(seq!['-'], decimal((-v) as nat));
            lemma_plain_escape(t);
        },
        DataModel::UInt64(v) => {
            lemma_hex_plain(v as nat, 16);
            lemma_plain_concat(seq!['0', 'x'], hex_digits(v as nat, 16));
            lemma_plain_escape(seq!['0', 'x'] + hex_digits(v as nat, 16));
            assert(seq!['"', '0', 'x'] + hex_digits(v as nat, 16) + seq!['"']
                =~= seq!['"'] + (seq!['0', 'x'] + hex_digits(v as nat, 16)) + seq!['"']);
        },
        DataModel::Pointer(v) => {
            lemma_decimal_plain(v as nat);
            lemma_plain_escape(decimal(v as nat));
        },
        DataModel::Color(v) => {
            lemma_decimal_plain(v as nat);
            lemma_plain_escape(decimal(v as nat));
        },
        _ => {},
    }
}

/// Readable values always have text.
proof fn lemma_readable_text(e: EntryModel, d: nat, fl: Seq<(u32, Seq<char>)>, esc: bool)
    requires
        readable(e.data, esc),
    ensures
        entry_text(e, d, fl) is Ok,
        entry_text(e, d, fl)->Ok_0.len() >= d + 2,
        entry_text(e, d, fl)->Ok_0.last() == '\n',
        entry_text(e, d, fl)->Ok_0.subrange(0, (d + quoted(e.name).len()) as int) == indent(d) + quoted(e.name),
    decreases e, 1int,
{
    let head = indent(d) + quoted(e.name);
    match e.data {
        DataModel::Compound(es) => {
            lemma_entries_readable_text(es, d + 1, fl, esc);
            let t = entry_text(e, d, fl)->Ok_0;
            let body = entries_text(es, d + 1, fl)->Ok_0;
            assert(t == head + seq!['\n'] + indent(d) + seq!['{', '\n'] + body + indent(d) + seq!['}', '\n']);
            assert(t.subrange(0, head.len() as int) =~= head);
        },
        _ => {
            lemma_leaf_value_text(e.data, fl);
            let t = entry_text(e, d, fl)->Ok_0;
            assert(t.subrange(0, head.len() as int) =~= head);
        },
    }
}

proof fn lemma_entries_readable_text(es: Seq<EntryModel>, d: nat, fl: Seq<(u32, Seq<char>)>, esc: bool)
    requires
        entries_readable(es, esc),
    ensures
        entries_text(es, d, fl) is Ok,
    decreases es, 0int,
{
    if es.len() > 0 {
        lemma_readable_text(es[0], d, fl, esc);
        lemma_entries_readable_text(es.drop_first(), d, fl, esc);
    }
}

proof fn lemma_atom_of(inp: Seq<char>, p: int, text: Seq<char>, q: int, esc: bool)
    requires
        token_model(inp, p, esc) == Ok::<Option<(TokenModel, int)>, ErrorModel>(Some((
            TokenModel { kind: TokenKindModel::Atom(text), conditional: false },
            q,
        ))),
    ensures
        atom_model(inp, p, esc) == Ok::<(Seq<char>, int), ErrorModel>((text, q)),
        skip_conds_model(inp, p, esc) == Ok::<int, ErrorModel>(p),
{
}

proof fn lemma_entry_compound_step(
    inp: Seq<char>,
    p: int,
    name: Seq<char>,
    q: int,
    q3: int,
    es: Seq<EntryModel>,
    q4: int,
    o: Options,
)
    requires
        atom_model(inp, p, o.escape_sequences) == Ok::<(Seq<char>, int), ErrorModel>((name, q)),
        token_model(inp, q, o.escape_sequences) == Ok::<Option<(TokenModel, int)>, ErrorModel>(Some((
            TokenModel { kind: TokenKindModel::OpenBrace, conditional: false },
            q3,
        ))),
        p < q3 <= inp.len(),
        compound_model(inp, q3, o) == Ok::<(Seq<EntryModel>, int), ErrorModel>((es, q4)),
    ensures
        entry_model(inp, p, o) == Ok::<(EntryModel, int), ErrorModel>((
            EntryModel { name, data: DataModel::Compound(es) },
            q4,
        )),
{
    assert(skip_conds_model(inp, q, o.escape_sequences) == Ok::<int, ErrorModel>(q));
}

proof fn lemma_entry_value_step(inp: Seq<char>, p: int, name: Seq<char>, q: int, raw: Seq<char>, q5: int, o: Options)
    requires
        atom_model(inp, p, o.escape_sequences) == Ok::<(Seq<char>, int), ErrorModel>((name, q)),
        token_model(inp, q, o.escape_sequences) == Ok::<Option<(TokenModel, int)>, ErrorModel>(Some((
            TokenModel { kind: TokenKindModel::Atom(raw), conditional: false },
            q5,
        ))),
        clean_after(inp, q5, o.escape_sequences),
    ensures
        entry_model(inp, p, o) == Ok::<(EntryModel, int), ErrorModel>((
            EntryModel { name, data: value_model(raw, o.numeric_inference) },
            q5,
        )),
{
    lemma_atom_of(inp, q, raw, q5, o.escape_sequences);
    assert(skip_conds_model(inp, q5, o.escape_sequences) == Ok::<int, ErrorModel>(q5));
}

proof fn lemma_compound_close(inp: Seq<char>, c: int, q: int, o: Options)
    requires
        token_model(inp, c, o.escape_sequences) == Ok::<Option<(TokenModel, int)>, ErrorModel>(Some((
            TokenModel { kind: TokenKindModel::CloseBrace, conditional: false },
            q,
        ))),
    ensures
        compound_model(inp, c, o) == Ok::<(Seq<EntryModel>, int), ErrorModel>((Seq::empty(), q)),
{
}

proof fn lemma_compound_cons(
    inp: Seq<char>,
    c: int,
    name: Seq<char>,
    q: int,
    e: EntryModel,
    q2: int,
    es: Seq<EntryModel>,
    q3: int,
    o: Options,
)
    requires
        token_model(inp, c, o.escape_sequences) == Ok::<Option<(TokenModel, int)>, ErrorModel>(Some((
            TokenModel { kind: TokenKindModel::Atom(name), conditional: false },
            q,
        ))),
        entry_model(inp, c, o) == Ok::<(EntryModel, int), ErrorModel>((e, q2)),
        c < q2 <= inp.len(),
        compound_model(inp, q2, o) == Ok::<(Seq<EntryModel>, int), ErrorModel>((es, q3)),
    ensures
        compound_model(inp, c, o) == Ok::<(Seq<EntryModel>, int), ErrorModel>((seq![e] + es, q3)),
{
}

/// The text a compound's entries are written in, from the newline after its `{` through its `}`.
spec fn compound_tail(es: Seq<EntryModel>, d: nat, fl: Seq<(u32, Seq<char>)>) -> Seq<char> {
    seq!['\n'] + entries_text(es, d + 1, fl)->Ok_0 + indent(d) + seq!['}']
}

/// The token that starts such a text: the first entry's name, or the closing brace.
proof fn lemma_next_token(inp: Seq<char>, c: int, es: Seq<EntryModel>, d: nat, fl: Seq<(u32, Seq<char>)>, esc: bool)
    requires
        entries_readable(es, esc),
        entries_text(es, d + 1, fl) is Ok,
        at(inp, c, compound_tail(es, d, fl)),
    ensures
        es.len() == 0 ==> token_model(inp, c, esc) == Ok::<Option<(TokenModel, int)>, ErrorModel>(Some((
            TokenModel { kind: TokenKindModel::CloseBrace, conditional: false },
            c + 1 + d + 1,
        ))),
        es.len() > 0 ==> token_model(inp, c, esc) == Ok::<Option<(TokenModel, int)>, ErrorModel>(Some((
            TokenModel { kind: TokenKindModel::Atom(es[0].name), conditional: false },
            c + 1 + d + 1 + quoted(es[0].name).len(),
        ))),
        clean_after(inp, c, esc),
{
    let body = entries_text(es, d + 1, fl)->Ok_0;
    lemma_at_split(inp, c, seq!['\n'] + body + indent(d), seq!['}']);
    lemma_at_split(inp, c, seq!['\n'] + body, indent(d));
    lemma_at_split(inp, c, seq!['\n'], body);
    lemma_ws_char(inp, c, '\n');
    if es.len() == 0 {
        assert(body =~= Seq::<char>::empty());
        lemma_indent_ws(inp, c + 1, d);
        lemma_ws_join(inp, c, c + 1, c + 1 + d);
        lemma_at_index(inp, c + 1 + d, seq!['}'], 0);
        lemma_brace_token(inp, c, c + 1 + d, esc);
    } else {
        let e0 = es[0];
        lemma_readable_text(e0, d + 1, fl, esc);
        let t0 = entry_text(e0, d + 1, fl)->Ok_0;
        let b2 = entries_text(es.drop_first(), d + 1, fl)->Ok_0;
        assert(body == t0 + b2);
        lemma_at_split(inp, c + 1, t0, b2);
        let w0 = indent(d + 1) + quoted(e0.name);
        assert(t0 =~= w0 + t0.subrange(w0.len() as int, t0.len() as int));
        lemma_at_split(inp, c + 1, w0, t0.subrange(w0.len() as int, t0.len() as int));
        lemma_at_split(inp, c + 1, indent(d + 1), quoted(e0.name));
        lemma_indent_ws(inp, c + 1, d + 1);
        lemma_ws_join(inp, c, c + 1, c + 1 + (d + 1));
        lemma_quoted_token(inp, c, c + 1 + (d + 1), e0.name, esc);
    }
}

/// A written readable entry reads back, ending just before its last newline.
#[verifier::rlimit(30)]
proof fn lemma_entry_parse(inp: Seq<char>, s: int, p: int, e: EntryModel, d: nat, fl: Seq<(u32, Seq<char>)>, o: Options)
    requires
        readable(e.data, o.escape_sequences),
        o.escape_sequences || plain(e.name),
        0 <= s <= p,
        ws_between(inp, s, p),
        entry_text(e, d, fl) is Ok,
        at(inp, p, entry_text(e, d, fl)->Ok_0),
        clean_after(inp, p + entry_text(e, d, fl)->Ok_0.len() - 1, o.escape_sequences),
    ensures
        entry_model(inp, s, o) == Ok::<(EntryModel, int), ErrorModel>((
            EntryModel { name: e.name, data: read_back(e.data, o.numeric_inference) },
            p + entry_text(e, d, fl)->Ok_0.len() - 1,
        )),
    decreases e, 1int,
{
    let esc = o.escape_sequences;
    let t = entry_text(e, d, fl)->Ok_0;
    let qn = quoted(e.name);
    let q = p + d + qn.len();
    lemma_readable_text(e, d, fl, esc);
    let w = indent(d) + qn;
    assert(t =~= w + t.subrange(w.len() as int, t.len() as int));
    lemma_at_split(inp, p, w, t.subrange(w.len() as int, t.len() as int));
    lemma_at_split(inp, p, indent(d), qn);
    lemma_indent_ws(inp, p, d);
    lemma_ws_join(inp, s, p, p + d);
    lemma_quoted_token(inp, s, p + d, e.name, esc);
    lemma_atom_of(inp, s, e.name, q, esc);
    match e.data {
        DataModel::Compound(es) => {
            lemma_entries_readable_text(es, d + 1, fl, esc);
            let body = entries_text(es, d + 1, fl)->Ok_0;
            assert(t == w + seq!['\n'] + indent(d) + seq!['{', '\n'] + body + indent(d) + seq!['}', '\n']);
            let x1 = w + seq!['\n'];
            let x2 = x1 + indent(d);
            let x3 = x2 + seq!['{'];
            let rest = compound_tail(es, d, fl);
            assert(t =~= x3 + (rest + seq!['\n']));
            lemma_at_split(inp, p, x3, rest + seq!['\n']);
            lemma_at_split(inp, p + x3.len(), rest, seq!['\n']);
            lemma_at_split(inp, p, x2, seq!['{']);
            lemma_at_split(inp, p, x1, indent(d));
            lemma_at_split(inp, p, w, seq!['\n']);
            lemma_ws_char(inp, q, '\n');
            lemma_indent_ws(inp, q + 1, d);
            lemma_ws_join(inp, q, q + 1, q + 1 + d);
            lemma_at_index(inp, q + 1 + d, seq!['{'], 0);
            lemma_brace_token(inp, q, q + 1 + d, esc);
            let q3 = q + 1 + d + 1;
            lemma_compound_parse(inp, q3, es, d, fl, o);
            lemma_entry_compound_step(inp, s, e.name, q, q3, entries_read_back(es, o.numeric_inference), q3 + 1 + body.len() + d + 1, o);
        },
        _ => {
            lemma_leaf_value_text(e.data, fl);
            let v = leaf_text(e.data)->Some_0;
            let qv = quoted(v);
            assert(t == w + seq!['\t'] + qv + seq!['\n']);
            lemma_at_split(inp, p, w + seq!['\t'] + qv, seq!['\n']);
            lemma_at_split(inp, p, w + seq!['\t'], qv);
            lemma_at_split(inp, p, w, seq!['\t']);
            lemma_ws_char(inp, q, '\t');
            lemma_quoted_token(inp, q, q + 1, v, esc);
            lemma_entry_value_step(inp, s, e.name, q, v, q + 1 + qv.len(), o);
        },
    }
}

/// The written entries of a compound, after the newline that follows its `{` and through its
/// `}`, read back.
#[verifier::rlimit(30)]
proof fn lemma_compound_parse(inp: Seq<char>, c: int, es: Seq<EntryModel>, d: nat, fl: Seq<(u32, Seq<char>)>, o: Options)
    requires
        entries_readable(es, o.escape_sequences),
        entries_text(es, d + 1, fl) is Ok,
        at(inp, c, compound_tail(es, d, fl)),
    ensures
        compound_model(inp, c, o) == Ok::<(Seq<EntryModel>, int), ErrorModel>((
            entries_read_back(es, o.numeric_inference),
            c + 1 + entries_text(es, d + 1, fl)->Ok_0.len() + d + 1,
        )),
    decreases es, 0int,
{
    let esc = o.escape_sequences;
    let body = entries_text(es, d + 1, fl)->Ok_0;
    lemma_next_token(inp, c, es, d, fl, esc);
    if es.len() == 0 {
        assert(body =~= Seq::<char>::empty());
        lemma_compound_close(inp, c, c + 1 + d + 1, o);
    } else {
        let e0 = es[0];
        let rest = es.drop_first();
        lemma_readable_text(e0, d + 1, fl, esc);
        lemma_entries_readable_text(rest, d + 1, fl, esc);
        let t0 = entry_text(e0, d + 1, fl)->Ok_0;
        let b2 = entries_text(rest, d + 1, fl)->Ok_0;
        assert(body == t0 + b2);
        let all = compound_tail(es, d, fl);
        let w2 = compound_tail(rest, d, fl);
        let lead = seq!['\n'] + t0.drop_last();
        assert(t0 =~= t0.drop_last().push('\n'));
        assert(all =~= lead + w2);
        lemma_at_split(inp, c, lead, w2);
        let c2 = c + t0.len();
        assert(all =~= seq!['\n'] + t0 + (b2 + indent(d) + seq!['}']));
        lemma_at_split(inp, c, seq!['\n'] + t0, b2 + indent(d) + seq!['}']);
        lemma_at_split(inp, c, seq!['\n'], t0);
        lemma_ws_char(inp, c, '\n');
        lemma_next_token(inp, c2, rest, d, fl, esc);
        lemma_entry_parse(inp, c, c + 1, e0, d + 1, fl, o);
        lemma_compound_parse(inp, c2, rest, d, fl, o);
        let e1 = EntryModel { name: e0.name, data: read_back(e0.data, o.numeric_inference) };
        lemma_compound_cons(
            inp,
            c,
            e0.name,
            c + 1 + d + 1 + quoted(e0.name).len(),
            e1,
            c2,
            entries_read_back(rest, o.numeric_inference),
            c2 + 1 + b2.len() + d + 1,
            o,
        );
    }
}

/// A value of strings and compounds only is readable with escapes decoded, and reading it
/// back without numeric inference gives it unchanged.
pub proof fn lemma_strings_read_back(d: DataModel)
    requires
        strings_only(d),
    ensures
        readable(d, true),
        read_back(d, false) == d,
    decreases d, 1int,
{
    match d {
        DataModel::Compound(es) => lemma_entries_strings_read_back(es),
        _ => {},
    }
}

proof fn lemma_entries_strings_read_back(es: Seq<EntryModel>)
    requires
        entries_strings_only(es),
    ensures
        entries_readable(es, true),
        entries_read_back(es, false) == es,
    decreases es, 0int,
{
    if es.len() > 0 {
        lemma_strings_read_back(es[0].data);
        lemma_entries_strings_read_back(es.drop_first());
        assert(seq![es[0]] + es.drop_first() =~= es);
    }
}

/// The written text of an entry starts with its name: no conditional comes first.
proof fn lemma_root_start(e: EntryModel, fl: Seq<(u32, Seq<char>)>, esc: bool)
    requires
        entry_text(e, 0, fl) is Ok,
        entry_text(e, 0, fl)->Ok_0.subrange(0, quoted(e.name).len() as int) == indent(0) + quoted(e.name),
        esc || plain(e.name),
    ensures
        skip_conds_model(entry_text(e, 0, fl)->Ok_0, 0, esc) == Ok::<int, ErrorModel>(0),
{
    let t = entry_text(e, 0, fl)->Ok_0;
    let qn = quoted(e.name);
    lemma_at_whole(t);
    assert(indent(0) + qn =~= qn);
    assert(t =~= qn + t.subrange(qn.len() as int, t.len() as int));
    lemma_at_split(t, 0, qn, t.subrange(qn.len() as int, t.len() as int));
    assert(ws_between(t, 0, 0));
    lemma_quoted_token(t, 0, 0, e.name, esc);
}

/// Nothing follows the last newline of a written text.
proof fn lemma_root_end(t: Seq<char>, esc: bool)
    requires
        t.len() >= 1,
        t.last() == '\n',
    ensures
        clean_after(t, t.len() - 1, esc),
{
    assert(t[t.len() - 1] == '\n');
    assert(ws_between(t, t.len() - 1, t.len() as int));
    lemma_trivia_to(t, t.len() - 1, t.len() as int);
}

/// The written text of an entry: no conditional before it, and the entry read from its start.
proof fn lemma_root_parse(e: EntryModel, fl: Seq<(u32, Seq<char>)>, o: Options)
    requires
        readable(e.data, o.escape_sequences),
        o.escape_sequences || plain(e.name),
    ensures
        entry_text(e, 0, fl) is Ok,
        skip_conds_model(entry_text(e, 0, fl)->Ok_0, 0, o.escape_sequences) == Ok::<int, ErrorModel>(0),
        entry_model(entry_text(e, 0, fl)->Ok_0, 0, o) == Ok::<(EntryModel, int), ErrorModel>((
            EntryModel { name: e.name, data: read_back(e.data, o.numeric_inference) },
            entry_text(e, 0, fl)->Ok_0.len() - 1,
        )),
{
    let esc = o.escape_sequences;
    lemma_readable_text(e, 0, fl, esc);
    let t = entry_text(e, 0, fl)->Ok_0;
    lemma_root_start(e, fl, esc);
    lemma_root_end(t, esc);
    lemma_at_whole(t);
    assert(ws_between(t, 0, 0));
    lemma_entry_parse(t, 0, 0, e, 0, fl, o);
}

/// Text written for an entry reads back with any options, where its values all have text
/// (no binary strings and no floats) and, unless escapes are decoded, its names and texts
/// hold nothing the writer escapes: each value comes back as its text read as a value.
/// Without numeric inference, strings come back unchanged.
pub proof fn text_roundtrip(e: EntryModel, fl: Seq<(u32, Seq<char>)>, o: Options)
    requires
        readable(e.data, o.escape_sequences),
        o.escape_sequences || plain(e.name),
    ensures
        entry_text(e, 0, fl) is Ok,
        parse_model(entry_text(e, 0, fl)->Ok_0, 0, o) matches Ok((r, _))
            && r == (EntryModel { name: e.name, data: read_back(e.data, o.numeric_inference) }),
        strings_only(e.data) ==> read_back(e.data, false) == e.data,
{
    lemma_root_parse(e, fl, o);
    if strings_only(e.data) {
        lemma_strings_read_back(e.data);
    }
}

/// One quoted value as the writer writes it reads back as that text, whatever follows it,
/// and the read ends just past its closing quote: where escapes are decoded always, and
/// otherwise where the text holds nothing that the writer escapes.
pub proof fn quoted_text_reads_back(t: Seq<char>, rest: Seq<char>, esc: bool)
    requires
        esc || plain(t),
    ensures
        token_model(quoted(t) + rest, 0, esc) == Ok::<Option<(TokenModel, int)>, ErrorModel>(Some((
            TokenModel { kind: TokenKindModel::Atom(t), conditional: false },
            quoted(t).len() as int,
        ))),
{
    let inp = quoted(t) + rest;
    lemma_at_whole(inp);
    lemma_at_split(inp, 0, quoted(t), rest);
    assert(ws_between(inp, 0, 0));
    lemma_quoted_token(inp, 0, 0, t, esc);
}

} // verus!
