//! A tiny query language: the `SELECT` that the query engine answers from Parquet bytes.
//!
//! ```text
//! SELECT *  |  item, item, ...          item: column, count(*), count(c), sum(c), min(c),
//! FROM name                                   max(c) or avg(c)
//! [WHERE condition AND condition ...]   condition: column op value, column IS [NOT] NULL
//! [GROUP BY column, ...]
//! [ORDER BY column [ASC|DESC], ...]
//! [LIMIT n]
//! ```
//!
//! Keywords and aggregate names are matched without regard to ASCII case.

use vstd::prelude::*;

use crate::prune::{op_named, parse_integer, parsed_integer, Op};
use crate::text::{debug_quoted, debug_text, push_char, push_chars, str_eq};

verus! {

#[derive(Clone, Copy, Debug, PartialEq, Eq, Structural)]
pub enum Agg {
    Count,
    Sum,
    Min,
    Max,
    Avg,
}

#[derive(Clone, Debug, PartialEq)]
pub enum Item {
    Star,
    Column(String),
    /// An aggregate; `None` is `count(*)`.
    Aggregate(Agg, Option<String>),
}

/// An item as a value.
pub enum ItemV {
    Star,
    Column(Seq<char>),
    Aggregate(Agg, Option<Seq<char>>),
}

pub open spec fn item_view(i: Item) -> ItemV {
    match i {
        Item::Star => ItemV::Star,
        Item::Column(c) => ItemV::Column(c@),
        Item::Aggregate(a, arg) => ItemV::Aggregate(
            a,
            match arg {
                Some(s) => Some(s@),
                None => None,
            },
        ),
    }
}

/// The name an aggregate function is written with.
pub open spec fn agg_word(a: Agg) -> Seq<char> {
    match a {
        Agg::Count => "count"@,
        Agg::Sum => "sum"@,
        Agg::Min => "min"@,
        Agg::Max => "max"@,
        Agg::Avg => "avg"@,
    }
}

/// The name of a result column: `country`, `count(*)`, `sum(amount_cents)`.
pub open spec fn item_name(i: ItemV) -> Seq<char> {
    match i {
        ItemV::Star => "*"@,
        ItemV::Column(c) => c,
        ItemV::Aggregate(a, arg) => agg_word(a) + "("@ + match arg {
            Some(s) => s,
            None => "*"@,
        } + ")"@,
    }
}

impl Agg {
    fn word(&self) -> (s: &'static str)
        ensures
            s@ == agg_word(*self),
    {
        match self {
            Agg::Count => "count",
            Agg::Sum => "sum",
            Agg::Min => "min",
            Agg::Max => "max",
            Agg::Avg => "avg",
        }
    }
}

impl Item {
    /// The item as a result column is named: `country`, `count(*)`, `sum(amount_cents)`.
    pub fn name(&self) -> (s: String)
        ensures
            s@ == item_name(item_view(*self)),
    {
        match self {
            Item::Star => "*".to_owned(),
            Item::Column(c) => c.clone(),
            Item::Aggregate(a, arg) => {
                let mut s = a.word().to_owned();
                s.append("(");
                match arg {
                    Some(x) => s.append(x.as_str()),
                    None => s.append("*"),
                }
                s.append(")");
                s
            },
        }
    }
}

#[derive(Clone, Debug, PartialEq)]
pub struct Condition {
    pub column: String,
    pub op: Op,
    /// The literal as written, without quotes; empty for `IS NULL` and `IS NOT NULL`.
    pub value: String,
}

pub struct ConditionV {
    pub column: Seq<char>,
    pub op: Op,
    pub value: Seq<char>,
}

pub open spec fn condition_view(c: Condition) -> ConditionV {
    ConditionV { column: c.column@, op: c.op, value: c.value@ }
}

#[derive(Clone, Debug, PartialEq)]
pub struct Select {
    pub items: Vec<Item>,
    pub from: String,
    pub conditions: Vec<Condition>,
    pub group_by: Vec<String>,
    /// Result column names, each ascending unless `true`.
    pub order_by: Vec<(String, bool)>,
    pub limit: Option<usize>,
}

pub struct SelectV {
    pub items: Seq<ItemV>,
    pub from: Seq<char>,
    pub conditions: Seq<ConditionV>,
    pub group_by: Seq<Seq<char>>,
    pub order_by: Seq<(Seq<char>, bool)>,
    pub limit: Option<usize>,
}

pub open spec fn select_view(s: Select) -> SelectV {
    SelectV {
        items: s.items@.map_values(|i: Item| item_view(i)),
        from: s.from@,
        conditions: s.conditions@.map_values(|c: Condition| condition_view(c)),
        group_by: s.group_by@.map_values(|g: String| g@),
        order_by: s.order_by@.map_values(|o: (String, bool)| (o.0@, o.1)),
        limit: s.limit,
    }
}

// ---- Tokens -------------------------------------------------------------------------------

#[derive(Clone, Debug, PartialEq)]
enum Token {
    Word(String),
    Number(String),
    Text(String),
    Symbol(String),
}

/// A token as a value.
pub enum Tok {
    Word(Seq<char>),
    Number(Seq<char>),
    Text(Seq<char>),
    Symbol(Seq<char>),
}

spec fn token_view(t: Token) -> Tok {
    match t {
        Token::Word(w) => Tok::Word(w@),
        Token::Number(n) => Tok::Number(n@),
        Token::Text(t) => Tok::Text(t@),
        Token::Symbol(s) => Tok::Symbol(s@),
    }
}

spec fn tokens_view(ts: Seq<Token>) -> Seq<Tok> {
    ts.map_values(|t: Token| token_view(t))
}

/// The characters Unicode calls white space.
pub open spec fn is_space(c: char) -> bool {
    ||| '\t' <= c <= '\r'
    ||| c == ' '
    ||| c == '\u{85}'
    ||| c == '\u{a0}'
    ||| c == '\u{1680}'
    ||| '\u{2000}' <= c <= '\u{200a}'
    ||| c == '\u{2028}'
    ||| c == '\u{2029}'
    ||| c == '\u{202f}'
    ||| c == '\u{205f}'
    ||| c == '\u{3000}'
}

pub open spec fn is_letter(c: char) -> bool {
    ('a' <= c <= 'z') || ('A' <= c <= 'Z')
}

pub open spec fn is_digit(c: char) -> bool {
    '0' <= c <= '9'
}

/// The kinds of run a token is made of.
pub enum Run {
    /// Letters, digits, `_` and `.`.
    Word,
    /// Digits and `.`.
    Number,
    /// Anything but a single quote.
    Quoted,
}

pub open spec fn in_run(r: Run, c: char) -> bool {
    match r {
        Run::Word => is_letter(c) || is_digit(c) || c == '_' || c == '.',
        Run::Number => is_digit(c) || c == '.',
        Run::Quoted => c != '\'',
    }
}

/// Where a run of characters of one kind that starts at `i` ends.
pub open spec fn run_end(cs: Seq<char>, i: int, r: Run) -> int
    decreases cs.len() - i,
{
    if i < 0 || i >= cs.len() || !in_run(r, cs[i]) {
        i
    } else {
        run_end(cs, i + 1, r)
    }
}

pub proof fn lemma_run_end(cs: Seq<char>, i: int, r: Run)
    requires
        0 <= i,
    ensures
        i <= run_end(cs, i, r),
        i <= cs.len() ==> run_end(cs, i, r) <= cs.len(),
    decreases cs.len() - i,
{
    if i < cs.len() && in_run(r, cs[i]) {
        lemma_run_end(cs, i + 1, r);
    }
}

/// The two-character symbols.
pub open spec fn pair_symbol(s: Seq<char>) -> bool {
    s == "<="@ || s == ">="@ || s == "!="@ || s == "<>"@
}

/// The one-character symbols.
pub open spec fn single_symbol(c: char) -> bool {
    c == '=' || c == '<' || c == '>' || c == '(' || c == ')' || c == ',' || c == '*'
}

/// How Rust's `Debug` writes a character: in single quotes, escaped where it must be.
pub uninterp spec fn char_debug_text(c: char) -> Seq<char>;

/// A character as `{:?}` writes it.
///
/// Calls `format!("{c:?}")`, which writes the character in single quotes with Rust's escapes.
/// The contract names the result; what the escapes are is not restated.
#[verifier::external_body]
fn debug_char(c: char) -> (s: String)
    ensures
        s@ == char_debug_text(c),
{
    format!("{c:?}")
}

/// The tokens of a query from character `i` on, after the tokens `acc`.
pub open spec fn lex(cs: Seq<char>, i: int, acc: Seq<Tok>) -> Result<Seq<Tok>, Seq<char>>
    decreases cs.len() - i,
{
    if i < 0 || i >= cs.len() {
        Ok(acc)
    } else {
        let c = cs[i];
        if is_space(c) {
            lex(cs, i + 1, acc)
        } else if is_letter(c) || c == '_' {
            let j = run_end(cs, i + 1, Run::Word);
            proof {
                lemma_run_end(cs, i + 1, Run::Word);
            }
            lex(cs, j, acc.push(Tok::Word(cs.subrange(i, j))))
        } else if is_digit(c) || (c == '-' && i + 1 < cs.len() && is_digit(cs[i + 1])) {
            let j = run_end(cs, i + 1, Run::Number);
            proof {
                lemma_run_end(cs, i + 1, Run::Number);
            }
            lex(cs, j, acc.push(Tok::Number(cs.subrange(i, j))))
        } else if c == '\'' {
            let j = run_end(cs, i + 1, Run::Quoted);
            proof {
                lemma_run_end(cs, i + 1, Run::Quoted);
            }
            if j >= cs.len() {
                Err("a string is missing its closing quote"@)
            } else {
                lex(cs, j + 1, acc.push(Tok::Text(cs.subrange(i + 1, j))))
            }
        } else if i + 2 <= cs.len() && pair_symbol(cs.subrange(i, i + 2)) {
            lex(cs, i + 2, acc.push(Tok::Symbol(cs.subrange(i, i + 2))))
        } else if single_symbol(c) {
            lex(cs, i + 1, acc.push(Tok::Symbol(seq![c])))
        } else {
            Err("unexpected character "@ + char_debug_text(c))
        }
    }
}

/// The string of some characters.
fn collect(cs: &[char], start: usize, end: usize) -> (s: String)
    requires
        start <= end <= cs@.len(),
    ensures
        s@ == cs@.subrange(start as int, end as int),
{
    let mut s = String::new();
    push_chars(&mut s, vstd::slice::slice_subrange(cs, start, end));
    assert(s@ =~= cs@.subrange(start as int, end as int));
    s
}

fn space(c: char) -> (b: bool)
    ensures
        b == is_space(c),
{
    ('\t' <= c && c <= '\r') || c == ' ' || c == '\u{85}' || c == '\u{a0}' || c == '\u{1680}' || (
    '\u{2000}' <= c && c <= '\u{200a}') || c == '\u{2028}' || c == '\u{2029}' || c == '\u{202f}'
        || c == '\u{205f}' || c == '\u{3000}'
}

fn letter(c: char) -> (b: bool)
    ensures
        b == is_letter(c),
{
    ('a' <= c && c <= 'z') || ('A' <= c && c <= 'Z')
}

fn digit(c: char) -> (b: bool)
    ensures
        b == is_digit(c),
{
    '0' <= c && c <= '9'
}

fn continues(r: &Run, c: char) -> (b: bool)
    ensures
        b == in_run(*r, c),
{
    match r {
        Run::Word => letter(c) || digit(c) || c == '_' || c == '.',
        Run::Number => digit(c) || c == '.',
        Run::Quoted => c != '\'',
    }
}

fn runs_to(cs: &[char], i: usize, r: Run) -> (j: usize)
    requires
        i <= cs@.len(),
    ensures
        j == run_end(cs@, i as int, r),
        i <= j <= cs@.len(),
{
    proof {
        lemma_run_end(cs@, i as int, r);
    }
    let mut j = i;
    while j < cs.len() && continues(&r, cs[j])
        invariant
            i <= j <= cs@.len(),
            run_end(cs@, j as int, r) == run_end(cs@, i as int, r),
        decreases cs@.len() - j,
    {
        j = j + 1;
    }
    j
}

fn chars_of(sql: &str) -> (cs: Vec<char>)
    ensures
        cs@ == sql@,
{
    let n = sql.unicode_len();
    let mut cs: Vec<char> = Vec::new();
    let mut i: usize = 0;
    while i < n
        invariant
            n == sql@.len(),
            i <= n,
            cs@ == sql@.subrange(0, i as int),
        decreases n - i,
    {
        cs.push(sql.get_char(i));
        i = i + 1;
        assert(cs@ =~= sql@.subrange(0, i as int));
    }
    assert(sql@.subrange(0, n as int) =~= sql@);
    cs
}

fn tokens(sql: &str) -> (r: Result<Vec<Token>, String>)
    ensures
        match lex(sql@, 0, seq![]) {
            Ok(ts) => r matches Ok(v) && tokens_view(v@) == ts,
            Err(m) => r matches Err(e) && e@ == m,
        },
{
    let chars = chars_of(sql);
    let cs = chars.as_slice();
    let mut out: Vec<Token> = Vec::new();
    let mut i: usize = 0;
    assert(tokens_view(out@) =~= Seq::<Tok>::empty());
    while i < cs.len()
        invariant
            cs@ == sql@,
            i <= cs@.len(),
            lex(cs@, i as int, tokens_view(out@)) == lex(sql@, 0, seq![]),
        decreases cs@.len() - i,
    {
        let c = cs[i];
        let ghost before = tokens_view(out@);
        if space(c) {
            i = i + 1;
        } else if letter(c) || c == '_' {
            let j = runs_to(cs, i + 1, Run::Word);
            let t = Token::Word(collect(cs, i, j));
            let ghost tv = token_view(t);
            out.push(t);
            assert(tokens_view(out@) =~= before.push(tv));
            i = j;
        } else if digit(c) || (c == '-' && i + 1 < cs.len() && digit(cs[i + 1])) {
            let j = runs_to(cs, i + 1, Run::Number);
            let t = Token::Number(collect(cs, i, j));
            let ghost tv = token_view(t);
            out.push(t);
            assert(tokens_view(out@) =~= before.push(tv));
            i = j;
        } else if c == '\'' {
            let j = runs_to(cs, i + 1, Run::Quoted);
            if j >= cs.len() {
                return Err("a string is missing its closing quote".to_owned());
            }
            let t = Token::Text(collect(cs, i + 1, j));
            let ghost tv = token_view(t);
            out.push(t);
            assert(tokens_view(out@) =~= before.push(tv));
            i = j + 1;
        } else if i + 1 < cs.len() && ((c == '<' && cs[i + 1] == '=') || (c == '>' && cs[i + 1]
            == '=') || (c == '!' && cs[i + 1] == '=') || (c == '<' && cs[i + 1] == '>')) {
            proof {
                reveal_strlit("<=");
                reveal_strlit(">=");
                reveal_strlit("!=");
                reveal_strlit("<>");
                let two = cs@.subrange(i as int, i + 2);
                let d = cs@[i + 1];
                assert(two.len() == 2 && two[0] == c && two[1] == d);
                if c == '<' && d == '=' {
                    assert(two =~= "<="@);
                } else if c == '>' {
                    assert(two =~= ">="@);
                } else if c == '!' {
                    assert(two =~= "!="@);
                } else {
                    assert(two =~= "<>"@);
                }
            }
            let t = Token::Symbol(collect(cs, i, i + 2));
            let ghost tv = token_view(t);
            out.push(t);
            assert(tokens_view(out@) =~= before.push(tv));
            i = i + 2;
        } else if c == '=' || c == '<' || c == '>' || c == '(' || c == ')' || c == ',' || c
            == '*' {
            proof {
                reveal_strlit("<=");
                reveal_strlit(">=");
                reveal_strlit("!=");
                reveal_strlit("<>");
                if i + 2 <= cs@.len() {
                    let two = cs@.subrange(i as int, i + 2);
                    assert(two[0] == c && two[1] == cs@[i + 1]);
                    assert(!pair_symbol(two));
                }
            }
            let mut s = String::new();
            push_char(&mut s, c);
            let t = Token::Symbol(s);
            let ghost tv = token_view(t);
            out.push(t);
            assert(tokens_view(out@) =~= before.push(tv));
            i = i + 1;
        } else {
            proof {
                reveal_strlit("<=");
                reveal_strlit(">=");
                reveal_strlit("!=");
                reveal_strlit("<>");
                if i + 2 <= cs@.len() {
                    let two = cs@.subrange(i as int, i + 2);
                    assert(two[0] == c && two[1] == cs@[i + 1]);
                    assert(!pair_symbol(two));
                }
            }
            let mut m = "unexpected character ".to_owned();
            let d = debug_char(c);
            m.append(d.as_str());
            return Err(m);
        }
    }
    Ok(out)
}


// ---- The grammar --------------------------------------------------------------------------

/// A character in ASCII lower case.
pub open spec fn lower(c: char) -> char {
    if 'A' <= c <= 'Z' {
        ((c as int) + 32) as char
    } else {
        c
    }
}

/// Whether two words are the same but for ASCII case.
pub open spec fn same_word(a: Seq<char>, b: Seq<char>) -> bool {
    a.len() == b.len() && forall|i: int| 0 <= i < a.len() ==> lower(#[trigger] a[i]) == lower(b[i])
}

/// Whether token `at` is the keyword `k`.
pub open spec fn keyword_at(toks: Seq<Tok>, at: int, k: Seq<char>) -> bool {
    0 <= at < toks.len() && (toks[at] matches Tok::Word(w) && same_word(w, k))
}

/// Whether token `at` is the symbol `s`.
pub open spec fn symbol_at(toks: Seq<Tok>, at: int, s: Seq<char>) -> bool {
    0 <= at < toks.len() && toks[at] == Tok::Symbol(s)
}

/// Where an error is: the token it stopped at, or the end.
pub open spec fn here(toks: Seq<Tok>, at: int) -> Seq<char> {
    if 0 <= at < toks.len() {
        match toks[at] {
            Tok::Word(w) => " at "@ + debug_text(w),
            Tok::Number(w) => " at "@ + debug_text(w),
            Tok::Symbol(w) => " at "@ + debug_text(w),
            Tok::Text(t) => " at '"@ + t + "'"@,
        }
    } else {
        " at the end"@
    }
}

/// A column name: one word.
pub open spec fn name_at(toks: Seq<Tok>, at: int) -> Result<(Seq<char>, int), Seq<char>> {
    if 0 <= at < toks.len() && toks[at] is Word {
        Ok((toks[at]->Word_0, at + 1))
    } else {
        Err("expected a column name"@ + here(toks, at))
    }
}

/// The aggregate a word names, whatever its case.
pub open spec fn agg_named(w: Seq<char>) -> Option<Agg> {
    if same_word(w, "count"@) {
        Some(Agg::Count)
    } else if same_word(w, "sum"@) {
        Some(Agg::Sum)
    } else if same_word(w, "min"@) {
        Some(Agg::Min)
    } else if same_word(w, "max"@) {
        Some(Agg::Max)
    } else if same_word(w, "avg"@) {
        Some(Agg::Avg)
    } else {
        None
    }
}

/// One item of the `SELECT` list: `*`, a column, or an aggregate call. A word that names an
/// aggregate but is not followed by `(` is a column.
pub open spec fn item_at(toks: Seq<Tok>, at: int) -> Result<(ItemV, int), Seq<char>> {
    if symbol_at(toks, at, "*"@) {
        Ok((ItemV::Star, at + 1))
    } else {
        match name_at(toks, at) {
            Err(e) => Err(e),
            Ok((word, a1)) => if agg_named(word) is Some && symbol_at(toks, a1, "("@) {
                let a = agg_named(word)->0;
                let a2 = a1 + 1;
                let arg: Result<(Option<Seq<char>>, int), Seq<char>> = if a == Agg::Count
                    && symbol_at(toks, a2, "*"@) {
                    Ok((None, a2 + 1))
                } else {
                    match name_at(toks, a2) {
                        Ok((n, a3)) => Ok((Some(n), a3)),
                        Err(e) => Err(e),
                    }
                };
                match arg {
                    Err(e) => Err(e),
                    Ok((arg, a3)) => if !symbol_at(toks, a3, ")"@) {
                        Err("expected )"@ + here(toks, a3))
                    } else {
                        Ok((ItemV::Aggregate(a, arg), a3 + 1))
                    },
                }
            } else {
                Ok((ItemV::Column(word), a1))
            },
        }
    }
}

/// The literal of a condition: a number, or a quoted string without its quotes.
pub open spec fn literal_at(toks: Seq<Tok>, at: int) -> Option<Seq<char>> {
    if 0 <= at < toks.len() {
        match toks[at] {
            Tok::Number(n) => Some(n),
            Tok::Text(t) => Some(t),
            _ => None,
        }
    } else {
        None
    }
}

/// One condition: `column IS [NOT] NULL`, or `column op value`, where `<>` means `!=`.
pub open spec fn condition_at(toks: Seq<Tok>, at: int) -> Result<(ConditionV, int), Seq<char>> {
    match name_at(toks, at) {
        Err(e) => Err(e),
        Ok((column, a1)) => if keyword_at(toks, a1, "is"@) {
            let not = keyword_at(toks, a1 + 1, "not"@);
            let a2 = if not {
                a1 + 2
            } else {
                a1 + 1
            };
            if !keyword_at(toks, a2, "null"@) {
                Err("expected null"@ + here(toks, a2))
            } else {
                Ok(
                    (
                        ConditionV {
                            column,
                            op: if not {
                                Op::IsNotNull
                            } else {
                                Op::IsNull
                            },
                            value: Seq::empty(),
                        },
                        a2 + 1,
                    ),
                )
            }
        } else if 0 <= a1 < toks.len() && toks[a1] is Symbol {
            let sym = toks[a1]->Symbol_0;
            let written = if sym == "<>"@ {
                "!="@
            } else {
                sym
            };
            match op_named(written) {
                None => Err("unknown comparison "@ + debug_text(written)),
                Some(op) => match literal_at(toks, a1 + 1) {
                    Some(value) => Ok((ConditionV { column, op, value }, a1 + 2)),
                    None => Err("expected a value"@ + here(toks, a1 + 1)),
                },
            }
        } else {
            Err("expected a comparison"@ + here(toks, a1))
        },
    }
}

/// One `ORDER BY` key: a column, then `DESC` or an optional `ASC`.
pub open spec fn order_at(toks: Seq<Tok>, at: int) -> Result<((Seq<char>, bool), int), Seq<char>> {
    match name_at(toks, at) {
        Err(e) => Err(e),
        Ok((c, a1)) => {
            let desc = keyword_at(toks, a1, "desc"@);
            let a2 = if desc || keyword_at(toks, a1, "asc"@) {
                a1 + 1
            } else {
                a1
            };
            Ok(((c, desc), a2))
        },
    }
}

/// An `ORDER BY` key is a column and then at most one direction word. `ASC` is taken and gives
/// the same ascending key as a column with no direction; `DESC` is taken and gives a descending
/// key; any other token is left for what follows.
pub proof fn lemma_order_directions(toks: Seq<Tok>, at: int, c: Seq<char>)
    requires
        0 <= at < toks.len(),
        toks[at] == Tok::Word(c),
    ensures
        keyword_at(toks, at + 1, "asc"@) ==> order_at(toks, at) == Ok::<
            ((Seq<char>, bool), int),
            Seq<char>,
        >(((c, false), at + 2)),
        keyword_at(toks, at + 1, "desc"@) ==> order_at(toks, at) == Ok::<
            ((Seq<char>, bool), int),
            Seq<char>,
        >(((c, true), at + 2)),
        !keyword_at(toks, at + 1, "asc"@) && !keyword_at(toks, at + 1, "desc"@) ==> order_at(
            toks,
            at,
        ) == Ok::<((Seq<char>, bool), int), Seq<char>>(((c, false), at + 1)),
{
    reveal_strlit("asc");
    reveal_strlit("desc");
}

/// The parts of the grammar that lists are made of.
pub enum Part {
    Item,
    Name,
    Order,
    Condition,
}

/// A parsed part of any kind.
pub enum PartV {
    Item(ItemV),
    Name(Seq<char>),
    Order((Seq<char>, bool)),
    Condition(ConditionV),
}

pub open spec fn part_at(toks: Seq<Tok>, at: int, p: Part) -> Result<(PartV, int), Seq<char>> {
    match p {
        Part::Item => match item_at(toks, at) {
            Ok((v, a)) => Ok((PartV::Item(v), a)),
            Err(e) => Err(e),
        },
        Part::Name => match name_at(toks, at) {
            Ok((v, a)) => Ok((PartV::Name(v), a)),
            Err(e) => Err(e),
        },
        Part::Order => match order_at(toks, at) {
            Ok((v, a)) => Ok((PartV::Order(v), a)),
            Err(e) => Err(e),
        },
        Part::Condition => match condition_at(toks, at) {
            Ok((v, a)) => Ok((PartV::Condition(v), a)),
            Err(e) => Err(e),
        },
    }
}

/// A part that parses takes at least one token, and no more than there are.
pub proof fn lemma_part_advances(toks: Seq<Tok>, at: int, p: Part)
    ensures
        part_at(toks, at, p) matches Ok((v, a)) ==> at < a <= toks.len(),
{
}

/// What separates the parts of a list: a comma, or for conditions the keyword `AND`.
pub open spec fn separator_at(toks: Seq<Tok>, at: int, p: Part) -> bool {
    match p {
        Part::Condition => keyword_at(toks, at, "and"@),
        _ => symbol_at(toks, at, ","@),
    }
}

/// The rest of a list, after the parts `acc`: as long as a separator follows, another part.
pub open spec fn list_rest(toks: Seq<Tok>, at: int, p: Part, acc: Seq<PartV>) -> Result<
    (Seq<PartV>, int),
    Seq<char>,
>
    decreases toks.len() - at,
{
    if at < 0 || at > toks.len() || !separator_at(toks, at, p) {
        Ok((acc, at))
    } else {
        match part_at(toks, at + 1, p) {
            Err(e) => Err(e),
            Ok((v, a)) => {
                proof {
                    lemma_part_advances(toks, at + 1, p);
                }
                list_rest(toks, a, p, acc.push(v))
            },
        }
    }
}

/// A list: one part, then more after separators.
pub open spec fn list_at(toks: Seq<Tok>, at: int, p: Part) -> Result<(Seq<PartV>, int), Seq<char>> {
    match part_at(toks, at, p) {
        Err(e) => Err(e),
        Ok((v, a)) => list_rest(toks, a, p, seq![v]),
    }
}

pub open spec fn as_items(ps: Seq<PartV>) -> Seq<ItemV> {
    ps.map_values(|p: PartV| p->Item_0)
}

pub open spec fn as_names(ps: Seq<PartV>) -> Seq<Seq<char>> {
    ps.map_values(|p: PartV| p->Name_0)
}

pub open spec fn as_orders(ps: Seq<PartV>) -> Seq<(Seq<char>, bool)> {
    ps.map_values(|p: PartV| p->Order_0)
}

pub open spec fn as_conditions(ps: Seq<PartV>) -> Seq<ConditionV> {
    ps.map_values(|p: PartV| p->Condition_0)
}

/// `WHERE condition AND ...`, if it is there.
pub open spec fn where_at(toks: Seq<Tok>, at: int) -> Result<(Seq<ConditionV>, int), Seq<char>> {
    if keyword_at(toks, at, "where"@) {
        match list_at(toks, at + 1, Part::Condition) {
            Err(e) => Err(e),
            Ok((ps, a)) => Ok((as_conditions(ps), a)),
        }
    } else {
        Ok((Seq::empty(), at))
    }
}

/// `<first> BY list`, if `first` is there.
pub open spec fn by_list_at(toks: Seq<Tok>, at: int, first: Seq<char>, p: Part) -> Result<
    (Seq<PartV>, int),
    Seq<char>,
> {
    if keyword_at(toks, at, first) {
        if !keyword_at(toks, at + 1, "by"@) {
            Err("expected by"@ + here(toks, at + 1))
        } else {
            list_at(toks, at + 2, p)
        }
    } else {
        Ok((Seq::empty(), at))
    }
}

/// `LIMIT n`, if it is there.
pub open spec fn limit_at(toks: Seq<Tok>, at: int) -> Result<(Option<usize>, int), Seq<char>> {
    if keyword_at(toks, at, "limit"@) {
        let a = at + 1;
        if 0 <= a < toks.len() && toks[a] is Number {
            let n = toks[a]->Number_0;
            match parsed_integer(n, false, 0, usize::MAX as int) {
                Some(v) => Ok((Some(v as usize), a + 1)),
                None => Err("LIMIT "@ + n + " is not a count"@),
            }
        } else {
            Err("expected a number"@ + here(toks, a))
        }
    } else {
        Ok((None, at))
    }
}

/// A whole `SELECT`, which must use every token.
pub open spec fn select_of(toks: Seq<Tok>) -> Result<SelectV, Seq<char>> {
    if !keyword_at(toks, 0, "select"@) {
        Err("expected select"@ + here(toks, 0))
    } else {
        match list_at(toks, 1, Part::Item) {
            Err(e) => Err(e),
            Ok((items, a1)) => if !keyword_at(toks, a1, "from"@) {
                Err("expected from"@ + here(toks, a1))
            } else {
                match name_at(toks, a1 + 1) {
                    Err(e) => Err(e),
                    Ok((from, a2)) => match where_at(toks, a2) {
                        Err(e) => Err(e),
                        Ok((conditions, a3)) => match by_list_at(toks, a3, "group"@, Part::Name) {
                            Err(e) => Err(e),
                            Ok((groups, a4)) => match by_list_at(toks, a4, "order"@, Part::Order) {
                                Err(e) => Err(e),
                                Ok((orders, a5)) => match limit_at(toks, a5) {
                                    Err(e) => Err(e),
                                    Ok((limit, a6)) => if a6 != toks.len() {
                                        Err("unexpected"@ + here(toks, a6))
                                    } else {
                                        Ok(
                                            SelectV {
                                                items: as_items(items),
                                                from,
                                                conditions,
                                                group_by: as_names(groups),
                                                order_by: as_orders(orders),
                                                limit,
                                            },
                                        )
                                    },
                                },
                            },
                        },
                    },
                }
            },
        }
    }
}

/// What parsing a query gives: its tokens, read as a `SELECT`.
pub open spec fn parse_result(sql: Seq<char>) -> Result<SelectV, Seq<char>> {
    match lex(sql, 0, seq![]) {
        Err(e) => Err(e),
        Ok(toks) => select_of(toks),
    }
}


// ---- The parser ---------------------------------------------------------------------------

struct Parser {
    tokens: Vec<Token>,
    at: usize,
}

fn lower_char(c: char) -> (l: char)
    ensures
        l == lower(c),
{
    if 'A' <= c && c <= 'Z' {
        ((c as u8) + 32) as char
    } else {
        c
    }
}

/// Whether two words are equal but for ASCII case.
fn same_words(a: &str, b: &str) -> (r: bool)
    ensures
        r == same_word(a@, b@),
{
    let n = a.unicode_len();
    if n != b.unicode_len() {
        return false;
    }
    let mut i: usize = 0;
    while i < n
        invariant
            n == a@.len() == b@.len(),
            i <= n,
            forall|j: int| 0 <= j < i ==> lower(#[trigger] a@[j]) == lower(b@[j]),
        decreases n - i,
    {
        if lower_char(a.get_char(i)) != lower_char(b.get_char(i)) {
            return false;
        }
        i = i + 1;
    }
    true
}

impl Parser {
    spec fn toks(&self) -> Seq<Tok> {
        tokens_view(self.tokens@)
    }

    fn keyword(&mut self, k: &str) -> (b: bool)
        requires
            old(self).at <= old(self).tokens@.len(),
        ensures
            final(self).tokens@ == old(self).tokens@,
            b == keyword_at(old(self).toks(), old(self).at as int, k@),
            final(self).at == if b {
                old(self).at + 1
            } else {
                old(self).at as int
            },
    {
        if self.at < self.tokens.len() {
            let hit = match &self.tokens[self.at] {
                Token::Word(w) => same_words(w.as_str(), k),
                _ => false,
            };
            if hit {
                self.at = self.at + 1;
            }
            hit
        } else {
            false
        }
    }

    fn symbol(&mut self, s: &str) -> (b: bool)
        requires
            old(self).at <= old(self).tokens@.len(),
        ensures
            final(self).tokens@ == old(self).tokens@,
            b == symbol_at(old(self).toks(), old(self).at as int, s@),
            final(self).at == if b {
                old(self).at + 1
            } else {
                old(self).at as int
            },
    {
        if self.at < self.tokens.len() {
            let hit = match &self.tokens[self.at] {
                Token::Symbol(x) => str_eq(x.as_str(), s),
                _ => false,
            };
            if hit {
                self.at = self.at + 1;
            }
            hit
        } else {
            false
        }
    }

    fn here(&self) -> (s: String)
        ensures
            s@ == here(self.toks(), self.at as int),
    {
        if self.at < self.tokens.len() {
            match &self.tokens[self.at] {
                Token::Word(w) | Token::Number(w) | Token::Symbol(w) => {
                    let mut s = " at ".to_owned();
                    let q = debug_quoted(w.as_str());
                    s.append(q.as_str());
                    s
                },
                Token::Text(t) => {
                    let mut s = " at '".to_owned();
                    s.append(t.as_str());
                    s.append("'");
                    s
                },
            }
        } else {
            " at the end".to_owned()
        }
    }

    /// A message, and where the parser stopped.
    fn error(&self, what: &str) -> (e: String)
        ensures
            e@ == what@ + here(self.toks(), self.at as int),
    {
        let mut e = what.to_owned();
        let h = self.here();
        e.append(h.as_str());
        e
    }

    fn name(&mut self) -> (r: Result<String, String>)
        requires
            old(self).at <= old(self).tokens@.len(),
        ensures
            final(self).tokens@ == old(self).tokens@,
            final(self).at <= final(self).tokens@.len(),
            match name_at(old(self).toks(), old(self).at as int) {
                Ok((v, a)) => r matches Ok(x) && x@ == v && final(self).at == a,
                Err(m) => r matches Err(e) && e@ == m,
            },
    {
        if self.at < self.tokens.len() {
            match &self.tokens[self.at] {
                Token::Word(w) => {
                    let w = w.clone();
                    self.at = self.at + 1;
                    return Ok(w);
                },
                _ => {},
            }
        }
        Err(self.error("expected a column name"))
    }

    fn item(&mut self) -> (r: Result<Item, String>)
        requires
            old(self).at <= old(self).tokens@.len(),
        ensures
            final(self).tokens@ == old(self).tokens@,
            final(self).at <= final(self).tokens@.len(),
            match item_at(old(self).toks(), old(self).at as int) {
                Ok((v, a)) => r matches Ok(x) && item_view(x) == v && final(self).at == a,
                Err(m) => r matches Err(e) && e@ == m,
            },
    {
        if self.symbol("*") {
            return Ok(Item::Star);
        }
        let word = self.name()?;
        let agg = if same_words(word.as_str(), "count") {
            Some(Agg::Count)
        } else if same_words(word.as_str(), "sum") {
            Some(Agg::Sum)
        } else if same_words(word.as_str(), "min") {
            Some(Agg::Min)
        } else if same_words(word.as_str(), "max") {
            Some(Agg::Max)
        } else if same_words(word.as_str(), "avg") {
            Some(Agg::Avg)
        } else {
            None
        };
        match agg {
            Some(a) => {
                if self.symbol("(") {
                    let arg = if a == Agg::Count && self.symbol("*") {
                        None
                    } else {
                        Some(self.name()?)
                    };
                    if !self.symbol(")") {
                        return Err(self.error("expected )"));
                    }
                    Ok(Item::Aggregate(a, arg))
                } else {
                    Ok(Item::Column(word))
                }
            },
            None => Ok(Item::Column(word)),
        }
    }

    fn condition(&mut self) -> (r: Result<Condition, String>)
        requires
            old(self).at <= old(self).tokens@.len(),
        ensures
            final(self).tokens@ == old(self).tokens@,
            final(self).at <= final(self).tokens@.len(),
            match condition_at(old(self).toks(), old(self).at as int) {
                Ok((v, a)) => r matches Ok(x) && condition_view(x) == v && final(self).at == a,
                Err(m) => r matches Err(e) && e@ == m,
            },
    {
        let column = self.name()?;
        if self.keyword("is") {
            let not = self.keyword("not");
            if !self.keyword("null") {
                return Err(self.error("expected null"));
            }
            let op = if not {
                Op::IsNotNull
            } else {
                Op::IsNull
            };
            return Ok(Condition { column, op, value: String::new() });
        }
        let op = if self.at < self.tokens.len() {
            match &self.tokens[self.at] {
                Token::Symbol(x) => {
                    let written = if str_eq(x.as_str(), "<>") {
                        "!="
                    } else {
                        x.as_str()
                    };
                    proof {
                        reveal_strlit("<>");
                        reveal_strlit("!=");
                    }
                    let op = Op::parse(written)?;
                    self.at = self.at + 1;
                    op
                },
                _ => return Err(self.error("expected a comparison")),
            }
        } else {
            return Err(self.error("expected a comparison"));
        };
        if self.at < self.tokens.len() {
            match &self.tokens[self.at] {
                Token::Number(n) | Token::Text(n) => {
                    let value = n.clone();
                    self.at = self.at + 1;
                    return Ok(Condition { column, op, value });
                },
                _ => {},
            }
        }
        Err(self.error("expected a value"))
    }

    fn order(&mut self) -> (r: Result<(String, bool), String>)
        requires
            old(self).at <= old(self).tokens@.len(),
        ensures
            final(self).tokens@ == old(self).tokens@,
            final(self).at <= final(self).tokens@.len(),
            match order_at(old(self).toks(), old(self).at as int) {
                Ok((v, a)) => r matches Ok(x) && (x.0@, x.1) == v && final(self).at == a,
                Err(m) => r matches Err(e) && e@ == m,
            },
    {
        let c = self.name()?;
        let desc = self.keyword("desc");
        if !desc {
            self.keyword("asc");
        }
        Ok((c, desc))
    }

    fn items(&mut self) -> (r: Result<Vec<Item>, String>)
        requires
            old(self).at <= old(self).tokens@.len(),
        ensures
            final(self).tokens@ == old(self).tokens@,
            final(self).at <= final(self).tokens@.len(),
            match list_at(old(self).toks(), old(self).at as int, Part::Item) {
                Ok((ps, a)) => r matches Ok(v) && v@.map_values(|x: Item| item_view(x)) == as_items(ps)
                    && final(self).at == a,
                Err(m) => r matches Err(e) && e@ == m,
            },
    {
        let ghost t = self.toks();
        let ghost at0 = self.at as int;
        let first = self.item()?;
        let ghost mut acc: Seq<PartV> = seq![PartV::Item(item_view(first))];
        let mut out: Vec<Item> = Vec::new();
        out.push(first);
        loop
            invariant
                self.tokens@ == old(self).tokens@,
                t == old(self).toks(),
                at0 == old(self).at,
                self.toks() == t,
                self.at <= self.tokens@.len(),
                acc.len() == out@.len(),
                forall|j: int| 0 <= j < acc.len() ==> #[trigger] acc[j] == PartV::Item(item_view(out@[j])),
                list_rest(t, self.at as int, Part::Item, acc) == list_at(t, at0, Part::Item),
            ensures
                self.tokens@ == old(self).tokens@,
                self.toks() == t,
                self.at <= self.tokens@.len(),
                acc.len() == out@.len(),
                forall|j: int| 0 <= j < acc.len() ==> #[trigger] acc[j] == PartV::Item(item_view(out@[j])),
                list_at(t, at0, Part::Item) == Ok::<(Seq<PartV>, int), Seq<char>>((acc, self.at as int)),
            decreases self.tokens@.len() - self.at,
        {
            if !self.symbol(",") {
                break;
            }
            let next = match self.item() {
                Ok(x) => x,
                Err(e) => return Err(e),
            };
            proof {
                acc = acc.push(PartV::Item(item_view(next)));
            }
            out.push(next);
        }
        proof {
            assert(out@.map_values(|x: Item| item_view(x)) =~= as_items(acc));
        }
        Ok(out)
    }

    fn names(&mut self) -> (r: Result<Vec<String>, String>)
        requires
            old(self).at <= old(self).tokens@.len(),
        ensures
            final(self).tokens@ == old(self).tokens@,
            final(self).at <= final(self).tokens@.len(),
            match list_at(old(self).toks(), old(self).at as int, Part::Name) {
                Ok((ps, a)) => r matches Ok(v) && v@.map_values(|x: String| x@) == as_names(ps)
                    && final(self).at == a,
                Err(m) => r matches Err(e) && e@ == m,
            },
    {
        let ghost t = self.toks();
        let ghost at0 = self.at as int;
        let first = self.name()?;
        let ghost mut acc: Seq<PartV> = seq![PartV::Name(first@)];
        let mut out: Vec<String> = Vec::new();
        out.push(first);
        loop
            invariant
                self.tokens@ == old(self).tokens@,
                t == old(self).toks(),
                at0 == old(self).at,
                self.toks() == t,
                self.at <= self.tokens@.len(),
                acc.len() == out@.len(),
                forall|j: int| 0 <= j < acc.len() ==> #[trigger] acc[j] == PartV::Name(out@[j]@),
                list_rest(t, self.at as int, Part::Name, acc) == list_at(t, at0, Part::Name),
            ensures
                self.tokens@ == old(self).tokens@,
                self.toks() == t,
                self.at <= self.tokens@.len(),
                acc.len() == out@.len(),
                forall|j: int| 0 <= j < acc.len() ==> #[trigger] acc[j] == PartV::Name(out@[j]@),
                list_at(t, at0, Part::Name) == Ok::<(Seq<PartV>, int), Seq<char>>((acc, self.at as int)),
            decreases self.tokens@.len() - self.at,
        {
            if !self.symbol(",") {
                break;
            }
            let next = match self.name() {
                Ok(x) => x,
                Err(e) => return Err(e),
            };
            proof {
                acc = acc.push(PartV::Name(next@));
            }
            out.push(next);
        }
        proof {
            assert(out@.map_values(|x: String| x@) =~= as_names(acc));
        }
        Ok(out)
    }

    fn orders(&mut self) -> (r: Result<Vec<(String, bool)>, String>)
        requires
            old(self).at <= old(self).tokens@.len(),
        ensures
            final(self).tokens@ == old(self).tokens@,
            final(self).at <= final(self).tokens@.len(),
            match list_at(old(self).toks(), old(self).at as int, Part::Order) {
                Ok((ps, a)) => r matches Ok(v) && v@.map_values(|x: (String, bool)| (x.0@, x.1)) == as_orders(ps)
                    && final(self).at == a,
                Err(m) => r matches Err(e) && e@ == m,
            },
    {
        let ghost t = self.toks();
        let ghost at0 = self.at as int;
        let first = self.order()?;
        let ghost mut acc: Seq<PartV> = seq![PartV::Order((first.0@, first.1))];
        let mut out: Vec<(String, bool)> = Vec::new();
        out.push(first);
        loop
            invariant
                self.tokens@ == old(self).tokens@,
                t == old(self).toks(),
                at0 == old(self).at,
                self.toks() == t,
                self.at <= self.tokens@.len(),
                acc.len() == out@.len(),
                forall|j: int| 0 <= j < acc.len() ==> #[trigger] acc[j] == PartV::Order((out@[j].0@, out@[j].1)),
                list_rest(t, self.at as int, Part::Order, acc) == list_at(t, at0, Part::Order),
            ensures
                self.tokens@ == old(self).tokens@,
                self.toks() == t,
                self.at <= self.tokens@.len(),
                acc.len() == out@.len(),
                forall|j: int| 0 <= j < acc.len() ==> #[trigger] acc[j] == PartV::Order((out@[j].0@, out@[j].1)),
                list_at(t, at0, Part::Order) == Ok::<(Seq<PartV>, int), Seq<char>>((acc, self.at as int)),
            decreases self.tokens@.len() - self.at,
        {
            if !self.symbol(",") {
                break;
            }
            let next = match self.order() {
                Ok(x) => x,
                Err(e) => return Err(e),
            };
            proof {
                acc = acc.push(PartV::Order((next.0@, next.1)));
            }
            out.push(next);
        }
        proof {
            assert(out@.map_values(|x: (String, bool)| (x.0@, x.1)) =~= as_orders(acc));
        }
        Ok(out)
    }

    fn conditions(&mut self) -> (r: Result<Vec<Condition>, String>)
        requires
            old(self).at <= old(self).tokens@.len(),
        ensures
            final(self).tokens@ == old(self).tokens@,
            final(self).at <= final(self).tokens@.len(),
            match list_at(old(self).toks(), old(self).at as int, Part::Condition) {
                Ok((ps, a)) => r matches Ok(v) && v@.map_values(|x: Condition| condition_view(x)) == as_conditions(ps)
                    && final(self).at == a,
                Err(m) => r matches Err(e) && e@ == m,
            },
    {
        let ghost t = self.toks();
        let ghost at0 = self.at as int;
        let first = self.condition()?;
        let ghost mut acc: Seq<PartV> = seq![PartV::Condition(condition_view(first))];
        let mut out: Vec<Condition> = Vec::new();
        out.push(first);
        loop
            invariant
                self.tokens@ == old(self).tokens@,
                t == old(self).toks(),
                at0 == old(self).at,
                self.toks() == t,
                self.at <= self.tokens@.len(),
                acc.len() == out@.len(),
                forall|j: int| 0 <= j < acc.len() ==> #[trigger] acc[j] == PartV::Condition(condition_view(out@[j])),
                list_rest(t, self.at as int, Part::Condition, acc) == list_at(t, at0, Part::Condition),
            ensures
                self.tokens@ == old(self).tokens@,
                self.toks() == t,
                self.at <= self.tokens@.len(),
                acc.len() == out@.len(),
                forall|j: int| 0 <= j < acc.len() ==> #[trigger] acc[j] == PartV::Condition(condition_view(out@[j])),
                list_at(t, at0, Part::Condition) == Ok::<(Seq<PartV>, int), Seq<char>>((acc, self.at as int)),
            decreases self.tokens@.len() - self.at,
        {
            if !self.keyword("and") {
                break;
            }
            let next = match self.condition() {
                Ok(x) => x,
                Err(e) => return Err(e),
            };
            proof {
                acc = acc.push(PartV::Condition(condition_view(next)));
            }
            out.push(next);
        }
        proof {
            assert(out@.map_values(|x: Condition| condition_view(x)) =~= as_conditions(acc));
        }
        Ok(out)
    }
}



impl Parser {
    fn where_clause(&mut self) -> (r: Result<Vec<Condition>, String>)
        requires
            old(self).at <= old(self).tokens@.len(),
        ensures
            final(self).tokens@ == old(self).tokens@,
            final(self).at <= final(self).tokens@.len(),
            match where_at(old(self).toks(), old(self).at as int) {
                Ok((cs, a)) => r matches Ok(v) && v@.map_values(|c: Condition| condition_view(c))
                    == cs && final(self).at == a,
                Err(m) => r matches Err(e) && e@ == m,
            },
    {
        if self.keyword("where") {
            self.conditions()
        } else {
            let v: Vec<Condition> = Vec::new();
            assert(v@.map_values(|c: Condition| condition_view(c)) =~= Seq::<ConditionV>::empty());
            Ok(v)
        }
    }

    fn group_clause(&mut self) -> (r: Result<Vec<String>, String>)
        requires
            old(self).at <= old(self).tokens@.len(),
        ensures
            final(self).tokens@ == old(self).tokens@,
            final(self).at <= final(self).tokens@.len(),
            match by_list_at(old(self).toks(), old(self).at as int, "group"@, Part::Name) {
                Ok((ps, a)) => r matches Ok(v) && v@.map_values(|x: String| x@) == as_names(ps)
                    && final(self).at == a,
                Err(m) => r matches Err(e) && e@ == m,
            },
    {
        if self.keyword("group") {
            if !self.keyword("by") {
                return Err(self.error("expected by"));
            }
            self.names()
        } else {
            let v: Vec<String> = Vec::new();
            assert(v@.map_values(|x: String| x@) =~= as_names(Seq::empty()));
            Ok(v)
        }
    }

    fn order_clause(&mut self) -> (r: Result<Vec<(String, bool)>, String>)
        requires
            old(self).at <= old(self).tokens@.len(),
        ensures
            final(self).tokens@ == old(self).tokens@,
            final(self).at <= final(self).tokens@.len(),
            match by_list_at(old(self).toks(), old(self).at as int, "order"@, Part::Order) {
                Ok((ps, a)) => r matches Ok(v) && v@.map_values(|x: (String, bool)| (x.0@, x.1))
                    == as_orders(ps) && final(self).at == a,
                Err(m) => r matches Err(e) && e@ == m,
            },
    {
        if self.keyword("order") {
            if !self.keyword("by") {
                return Err(self.error("expected by"));
            }
            self.orders()
        } else {
            let v: Vec<(String, bool)> = Vec::new();
            assert(v@.map_values(|x: (String, bool)| (x.0@, x.1)) =~= as_orders(Seq::empty()));
            Ok(v)
        }
    }

    fn limit_clause(&mut self) -> (r: Result<Option<usize>, String>)
        requires
            old(self).at <= old(self).tokens@.len(),
        ensures
            final(self).tokens@ == old(self).tokens@,
            final(self).at <= final(self).tokens@.len(),
            match limit_at(old(self).toks(), old(self).at as int) {
                Ok((l, a)) => r == Ok::<Option<usize>, String>(l) && final(self).at == a,
                Err(m) => r matches Err(e) && e@ == m,
            },
    {
        if !self.keyword("limit") {
            return Ok(None);
        }
        if self.at < self.tokens.len() {
            match &self.tokens[self.at] {
                Token::Number(n) => {
                    let v = match parse_integer(n.as_str(), false, 0, usize::MAX as i128) {
                        Some(v) => v as usize,
                        None => {
                            let mut e = "LIMIT ".to_owned();
                            e.append(n.as_str());
                            e.append(" is not a count");
                            return Err(e);
                        },
                    };
                    self.at = self.at + 1;
                    return Ok(Some(v));
                },
                _ => {},
            }
        }
        Err(self.error("expected a number"))
    }
}

/// Parse one `SELECT`.
pub fn parse(sql: &str) -> (r: Result<Select, String>)
    ensures
        match parse_result(sql@) {
            Ok(v) => r matches Ok(x) && select_view(x) == v,
            Err(m) => r matches Err(e) && e@ == m,
        },
{
    let toks = tokens(sql)?;
    let mut p = Parser { tokens: toks, at: 0 };
    if !p.keyword("select") {
        return Err(p.error("expected select"));
    }
    let items = p.items()?;
    if !p.keyword("from") {
        return Err(p.error("expected from"));
    }
    let from = p.name()?;
    let conditions = p.where_clause()?;
    let group_by = p.group_clause()?;
    let order_by = p.order_clause()?;
    let limit = p.limit_clause()?;
    if p.at != p.tokens.len() {
        return Err(p.error("unexpected"));
    }
    Ok(Select { items, from, conditions, group_by, order_by, limit })
}

} // verus!
