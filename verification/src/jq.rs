//! jq filters, run by jaq inside the process.

use vstd::prelude::*;
use jaq_core::data::JustLut;
use jaq_core::load::{Arena, File, Loader};
use jaq_core::{defs as core_defs, funs as core_funs, Compiler, Ctx, Vars};
use jaq_json::read::parse_single;
use jaq_json::{defs as json_defs, funs as json_funs, Val};
use jaq_std::{defs as std_defs, funs as std_funs};
use crate::jq::JqError::{Compile, Eval, Input, Parse};
use crate::text;

verus! {

/// Why a filter yields nothing.
#[derive(Debug)]
pub enum JqError {
    /// The input is no JSON.
    Input(String),
    /// The filter cannot be parsed.
    Parse(String),
    /// The filter names something that there is not.
    Compile(String),
    /// The filter failed while it ran.
    Eval(String),
}

/// What a `JqError` says.
#[verifier::ext_equal]
pub enum JqFault {
    Input(Seq<char>),
    Parse(Seq<char>),
    Compile(Seq<char>),
    Eval(Seq<char>),
}

impl View for JqError {
    type V = JqFault;

    open spec fn view(&self) -> JqFault {
        match self {
            JqError::Input(e) => JqFault::Input(e@),
            JqError::Parse(e) => JqFault::Parse(e@),
            JqError::Compile(e) => JqFault::Compile(e@),
            JqError::Eval(e) => JqFault::Eval(e@),
        }
    }
}

/// The model of what running a filter yields.
pub open spec fn run_model(result: Result<Vec<String>, JqError>) -> Result<
    Seq<Seq<char>>,
    JqFault,
> {
    match result {
        Ok(outputs) => Ok(text::texts(outputs@)),
        Err(e) => Err(e@),
    }
}

/// Whether `c` can start a name.
pub open spec fn is_letter(c: char) -> bool {
    ||| 'a' <= c <= 'z'
    ||| 'A' <= c <= 'Z'
    ||| c == '_'
}

/// Whether `c` is a decimal digit.
pub open spec fn is_figure(c: char) -> bool {
    '0' <= c <= '9'
}

/// Whether `c` can stand in a name or in a whole number.
pub open spec fn in_word(c: char) -> bool {
    is_letter(c) || is_figure(c)
}

/// Where the run of word characters that holds position `at` ends.
pub open spec fn word_end(s: Seq<char>, at: int) -> int
    decreases s.len() - at,
{
    if 0 <= at < s.len() && in_word(s[at]) {
        word_end(s, at + 1)
    } else {
        at
    }
}

/// Whether the character at `at` stands in a text that is written out, between two
/// quotation marks. The second of them does so too.
pub open spec fn quoted(s: Seq<char>, at: int) -> bool
    decreases at,
{
    if at <= 0 {
        false
    } else if s[at - 1] == '"' {
        !quoted(s, at - 1)
    } else {
        quoted(s, at - 1)
    }
}

/// The last character before `at` that is no blank; at the start a pipe.
pub open spec fn before(s: Seq<char>, at: int) -> char
    decreases at,
{
    if at <= 0 {
        '|'
    } else if s[at - 1] == ' ' {
        before(s, at - 1)
    } else {
        s[at - 1]
    }
}

/// Whether a square bracket behind `c` is taken for an index and not for an array.
pub open spec fn indexed(c: char) -> bool {
    in_word(c) || c == '.' || c == '?' || c == ')' || c == ']' || c == '}' || c == '"'
}

/// The brackets that are open before `at`, each by its character, with a dot for
/// the bracket of an index.
pub open spec fn brackets(s: Seq<char>, at: int) -> Seq<char>
    decreases at,
{
    if at <= 0 {
        Seq::empty()
    } else {
        let open = brackets(s, at - 1);
        let c = s[at - 1];
        if quoted(s, at - 1) {
            open
        } else if c == '(' || c == '{' {
            open.push(c)
        } else if c == '[' {
            open.push(
                if indexed(before(s, at - 1)) {
                    '.'
                } else {
                    '['
                },
            )
        } else if (c == ')' || c == ']' || c == '}') && open.len() > 0 {
            open.drop_last()
        } else {
            open
        }
    }
}

/// The bracket that is open last before `at`; a pipe where there is none.
pub open spec fn innermost(s: Seq<char>, at: int) -> char {
    if brackets(s, at).len() > 0 {
        brackets(s, at).last()
    } else {
        '|'
    }
}

/// The names that a plain filter may call.
pub open spec fn callable(word: Seq<char>) -> bool {
    ||| word == "all"@
    ||| word == "and"@
    ||| word == "any"@
    ||| word == "del"@
    ||| word == "empty"@
    ||| word == "error"@
    ||| word == "false"@
    ||| word == "first"@
    ||| word == "isempty"@
    ||| word == "last"@
    ||| word == "map"@
    ||| word == "map_values"@
    ||| word == "not"@
    ||| word == "null"@
    ||| word == "nulls"@
    ||| word == "or"@
    ||| word == "select"@
    ||| word == "tostring"@
    ||| word == "true"@
    ||| word == "values"@
}

/// Whether the word at `at` may stand there: a whole number; a field, right behind
/// its dot; the key of an object; or a name that may be called.
pub open spec fn word_fits(s: Seq<char>, at: int) -> bool {
    if is_figure(s[at]) {
        forall|k: int| at <= k < word_end(s, at) ==> is_figure(#[trigger] s[k])
    } else {
        ||| at > 0 && s[at - 1] == '.'
        ||| innermost(s, at) == '{' && (before(s, at) == '{' || before(s, at) == ',')
        ||| callable(s.subrange(at, word_end(s, at)))
    }
}

/// Whether the character at `at` may stand there in a plain filter.
pub open spec fn fits(s: Seq<char>, at: int) -> bool {
    let c = s[at];
    if quoted(s, at) {
        c != '\\'
    } else if innermost(s, at) == '.' {
        is_figure(c) || c == ' ' || c == ':' || c == ']'
    } else if in_word(c) {
        (at > 0 && in_word(s[at - 1])) || word_fits(s, at)
    } else if c == '.' {
        at + 1 < s.len() ==> s[at + 1] != '.'
    } else if c == ':' {
        in_word(before(s, at)) || before(s, at) == '"'
    } else {
        ||| c == ' ' || c == '|' || c == ',' || c == '=' || c == '!' || c == '<' || c == '>'
        ||| c == '?' || c == '"'
        ||| c == '(' || c == ')' || c == '[' || c == ']' || c == '{' || c == '}'
    }
}

/// The longest plain filter, in characters; so far its terms can nest.
pub const MAX_PLAIN: usize = 256;

/// Whether a filter is short and made of paths, pipes, commas, arrays, objects with
/// fixed keys, numbers, texts without a backslash, comparisons, assignments and the
/// names that may be called, with whole numbers as its only indices.
pub open spec fn plain(s: Seq<char>) -> bool {
    &&& s.len() <= MAX_PLAIN
    &&& forall|at: int| 0 <= at < s.len() ==> #[trigger] fits(s, at)
}

/// Where a byte of a JSON text stands.
#[derive(Clone, Copy, PartialEq, Eq, Structural)]
pub enum Place {
    /// Outside the strings.
    Outside,
    /// In a string.
    Inside,
    /// In a string, right behind a backslash that escapes it.
    Escaped,
}

/// Where what follows a byte stands.
pub open spec fn moved(place: Place, byte: u8) -> Place {
    match place {
        Place::Outside => if byte == 34 {
            Place::Inside
        } else {
            Place::Outside
        },
        Place::Inside => if byte == 34 {
            Place::Outside
        } else if byte == 92 {
            Place::Escaped
        } else {
            Place::Inside
        },
        Place::Escaped => Place::Inside,
    }
}

/// Where the byte at `at` stands.
pub open spec fn place(s: Seq<u8>, at: int) -> Place
    decreases at,
{
    if at <= 0 {
        Place::Outside
    } else {
        moved(place(s, at - 1), s[at - 1])
    }
}

/// The last byte before `at` that is no blank; at the start a blank.
pub open spec fn byte_before(s: Seq<u8>, at: int) -> u8
    decreases at,
{
    if at <= 0 {
        32
    } else if s[at - 1] == 32 || 9 <= s[at - 1] <= 10 || s[at - 1] == 13 {
        byte_before(s, at - 1)
    } else {
        s[at - 1]
    }
}

/// How many arrays and objects are open before `at`.
pub open spec fn depth(s: Seq<u8>, at: int) -> nat
    decreases at,
{
    if at <= 0 {
        0
    } else if place(s, at - 1) != Place::Outside {
        depth(s, at - 1)
    } else if s[at - 1] == 91 || s[at - 1] == 123 {
        depth(s, at - 1) + 1
    } else if (s[at - 1] == 93 || s[at - 1] == 125) && depth(s, at - 1) > 0 {
        (depth(s, at - 1) - 1) as nat
    } else {
        depth(s, at - 1)
    }
}

/// How deeply the values of a JSON text may nest.
pub const MAX_DEPTH: usize = 128;

/// Whether the byte at `at` does not stand too deep, and is neither the start of a
/// comment nor a colon that stands behind something else than a string.
pub open spec fn byte_fits(s: Seq<u8>, at: int) -> bool {
    &&& depth(s, at) <= MAX_DEPTH
    &&& place(s, at) == Place::Outside ==> s[at] != 35 && (s[at] == 58 ==> byte_before(s, at)
        == 34)
}

/// Whether a JSON text nests no deeper than it may, holds no comment, and has only
/// strings as keys.
pub open spec fn keyed(s: Seq<u8>) -> bool {
    forall|at: int| 0 <= at < s.len() ==> #[trigger] byte_fits(s, at)
}

/// Whether `c` can start a name.
fn letter(c: char) -> (r: bool)
    ensures
        r == is_letter(c),
{
    ('a' <= c && c <= 'z') || ('A' <= c && c <= 'Z') || c == '_'
}

/// Whether `c` is a decimal digit.
fn figure(c: char) -> (r: bool)
    ensures
        r == is_figure(c),
{
    '0' <= c && c <= '9'
}

/// Whether a plain filter may call `word`.
fn is_callable(word: &str) -> (r: bool)
    ensures
        r == callable(word@),
{
    text::same(word, "all") || text::same(word, "and") || text::same(word, "any")
        || text::same(word, "del") || text::same(word, "empty") || text::same(word, "error")
        || text::same(word, "false") || text::same(word, "first") || text::same(word, "isempty")
        || text::same(word, "last") || text::same(word, "map") || text::same(word, "map_values")
        || text::same(word, "not") || text::same(word, "null") || text::same(word, "nulls")
        || text::same(word, "or") || text::same(word, "select") || text::same(word, "tostring")
        || text::same(word, "true") || text::same(word, "values")
}

/// Whether the word at `at` may stand there, behind the character `last` and in the
/// bracket `inner`.
fn check_word(chars: &Vec<char>, at: usize, last: char, inner: char) -> (r: bool)
    requires
        at < chars@.len(),
        in_word(chars@[at as int]),
        last == before(chars@, at as int),
        inner == innermost(chars@, at as int),
    ensures
        r == word_fits(chars@, at as int),
{
    let number = figure(chars[at]);
    let mut figures = true;
    let mut end: usize = at;
    while end < chars.len() && (letter(chars[end]) || figure(chars[end]))
        invariant
            at <= end <= chars@.len(),
            word_end(chars@, at as int) == word_end(chars@, end as int),
            figures == (forall|k: int| at <= k < end ==> is_figure(#[trigger] chars@[k])),
        decreases chars@.len() - end,
    {
        figures = figures && figure(chars[end]);
        end += 1;
    }
    if number {
        figures
    } else if (at > 0 && chars[at - 1] == '.') || (inner == '{' && (last == '{' || last == ',')) {
        true
    } else {
        let word = text::string_between(chars, at, end);
        is_callable(word.as_str())
    }
}

/// Whether a filter is plain.
pub fn is_plain(expr: &str) -> (r: bool)
    ensures
        r == plain(expr@),
{
    let chars = text::chars_of(expr);
    if chars.len() > MAX_PLAIN {
        return false;
    }
    let ghost s = expr@;
    let mut open: Vec<char> = Vec::new();
    let mut last: char = '|';
    let mut inside = false;
    let mut at: usize = 0;
    while at < chars.len()
        invariant
            chars@ == s,
            s == expr@,
            s.len() <= MAX_PLAIN,
            at <= chars@.len(),
            open@ == brackets(s, at as int),
            last == before(s, at as int),
            inside == quoted(s, at as int),
            forall|k: int| 0 <= k < at ==> #[trigger] fits(s, k),
        decreases chars@.len() - at,
    {
        let c = chars[at];
        let inner = if open.len() > 0 {
            open[open.len() - 1]
        } else {
            '|'
        };
        let fit = if inside {
            c != '\\'
        } else if inner == '.' {
            figure(c) || c == ' ' || c == ':' || c == ']'
        } else if letter(c) || figure(c) {
            (at > 0 && (letter(chars[at - 1]) || figure(chars[at - 1])))
                || check_word(&chars, at, last, inner)
        } else if c == '.' {
            at + 1 == chars.len() || chars[at + 1] != '.'
        } else if c == ':' {
            letter(last) || figure(last) || last == '"'
        } else {
            c == ' ' || c == '|' || c == ',' || c == '=' || c == '!' || c == '<' || c == '>'
                || c == '?' || c == '"' || c == '(' || c == ')' || c == '[' || c == ']' || c == '{'
                || c == '}'
        };
        assert(fit == fits(s, at as int));
        if !fit {
            return false;
        }
        if inside {
            // What is written out opens and closes nothing
        } else if c == '(' || c == '{' {
            open.push(c);
        } else if c == '[' {
            let index = letter(last) || figure(last) || last == '.' || last == '?' || last == ')'
                || last == ']' || last == '}' || last == '"';
            open.push(if index { '.' } else { '[' });
        } else if (c == ')' || c == ']' || c == '}') && open.len() > 0 {
            open.pop();
        }
        if c == '"' {
            inside = !inside;
        }
        if c != ' ' {
            last = c;
        }
        at += 1;
    }
    true
}

/// Whether a JSON text nests no deeper than it may, holds no comment, and has only
/// strings as keys.
pub fn is_keyed(input: &[u8]) -> (r: bool)
    ensures
        r == keyed(input@),
{
    let mut standing = Place::Outside;
    let mut last: u8 = 32;
    let mut open: usize = 0;
    let mut at: usize = 0;
    while at < input.len()
        invariant
            at <= input@.len(),
            standing == place(input@, at as int),
            last == byte_before(input@, at as int),
            open == depth(input@, at as int),
            open <= MAX_DEPTH + 1,
            forall|k: int| 0 <= k < at ==> #[trigger] byte_fits(input@, k),
        decreases input@.len() - at,
    {
        let byte: u8 = input[at];
        if open > MAX_DEPTH {
            assert(!byte_fits(input@, at as int));
            return false;
        }
        if standing == Place::Outside {
            if byte == 35 || (byte == 58 && last != 34) {
                assert(!byte_fits(input@, at as int));
                return false;
            }
            if byte == 91 || byte == 123 {
                open += 1;
            } else if (byte == 93 || byte == 125) && open > 0 {
                open -= 1;
            }
        }
        standing = match standing {
            Place::Outside => if byte == 34 {
                Place::Inside
            } else {
                Place::Outside
            },
            Place::Inside => if byte == 34 {
                Place::Outside
            } else if byte == 92 {
                Place::Escaped
            } else {
                Place::Inside
            },
            Place::Escaped => Place::Inside,
        };
        if byte != 32 && byte != 9 && byte != 10 && byte != 13 {
            last = byte;
        }
        at += 1;
    }
    true
}

/// What the filter `expr` yields on the JSON text with the bytes `input`: the text
/// of each output in order, or what went wrong first.
pub uninterp spec fn jq_outcome(input: Seq<u8>, expr: Seq<char>) -> Result<
    Seq<Seq<char>>,
    JqFault,
>;

/// What a jaq filter works on: JSON values, and nothing besides.
type Data = JustLut<Val>;

/// Runs a jq filter with jaq: `jaq_json::read::parse_single` reads the input,
/// `jaq_core::load::Loader::load` and `jaq_core::Compiler::compile` make the filter
/// out of `code` with the definitions and functions of `jaq_core`, `jaq_std` and
/// `jaq_json`, `run` of the compiled filter yields its outputs, and each output is
/// written with its `Display`. The first failure is the result.
///
/// What is claimed: the same filter yields the same on the same input each time.
/// A filter that is not `plain` may look at the clock, at the environment or at the
/// time zones of the machine, end the process, compute past the range of a number,
/// or run for ever, and one that is long may nest deeper than jaq can follow. An
/// input that is not `keyed` may nest too deep as well, or take jaq to sort keys by
/// an order that is not total. All these are left out. How much memory the outputs
/// take is left to the machine.
#[verifier::external_body]
fn run_jaq(input: &[u8], code: &str) -> (r: Result<Vec<String>, JqError>)
    requires
        plain(code@),
        keyed(input@),
    ensures
        run_model(r) == jq_outcome(input@, code@),
{
    let input = parse_single(input).map_err(|e| Input(e.to_string()))?;
    let filter = Compiler::default()
        .with_funs(core_funs().chain(std_funs()).chain(json_funs()))
        .compile(
            Loader::new(core_defs().chain(std_defs()).chain(json_defs()))
                .load(&Arena::default(), File { code, path: () })
                .map_err(|e| Parse(format!("{e:?}")))?
        )
        .map_err(|e| Compile(format!("{e:?}")))?;
    filter.id.run((Ctx::<Data>::new(&filter.lut, Vars::new([])), input))
        .map(|r| r.map(|v| v.to_string()).map_err(|e| Eval(format!("{e:?}"))))
        .collect()
}

/// What went wrong, in words.
pub open spec fn fault_text(fault: JqFault) -> Seq<char> {
    match fault {
        JqFault::Input(e) => "jq input: "@ + e,
        JqFault::Parse(e) => "jq parse: "@ + e,
        JqFault::Compile(e) => "jq compile: "@ + e,
        JqFault::Eval(e) => "jq eval: "@ + e,
    }
}

/// The outputs of a filter, or what went wrong in words.
pub open spec fn told(result: Result<Seq<Seq<char>>, JqFault>) -> Result<
    Seq<Seq<char>>,
    Seq<char>,
> {
    match result {
        Ok(outputs) => Ok(outputs),
        Err(fault) => Err(fault_text(fault)),
    }
}

/// The model of the outputs of a filter.
pub open spec fn output_model(result: Result<Vec<String>, String>) -> Result<
    Seq<Seq<char>>,
    Seq<char>,
> {
    match result {
        Ok(outputs) => Ok(text::texts(outputs@)),
        Err(e) => Err(e@),
    }
}

/// The outputs of a filter, or what went wrong in words.
pub fn tell(result: Result<Vec<String>, JqError>) -> (r: Result<Vec<String>, String>)
    ensures
        output_model(r) == told(run_model(result)),
{
    match result {
        Ok(outputs) => Ok(outputs),
        Err(JqError::Input(e)) => Err(text::join2("jq input: ", e.as_str())),
        Err(JqError::Parse(e)) => Err(text::join2("jq parse: ", e.as_str())),
        Err(JqError::Compile(e)) => Err(text::join2("jq compile: ", e.as_str())),
        Err(JqError::Eval(e)) => Err(text::join2("jq eval: ", e.as_str())),
    }
}

/// Apply a jq filter expression to a JSON text: the text of each output, or what
/// went wrong in words. Nothing where the filter is not plain, or where the text
/// nests too deep, holds a comment, or has a key that is no string.
pub fn apply_jq(input: &str, expr: &str) -> (r: Option<Result<Vec<String>, String>>)
    ensures
        r is Some <==> plain(expr@) && keyed(vstd::utf8::encode_utf8(input@)),
        r matches Some(outputs) ==> output_model(outputs) == told(
            jq_outcome(vstd::utf8::encode_utf8(input@), expr@),
        ),
{
    let bytes = input.as_bytes();
    if is_plain(expr) && is_keyed(bytes) {
        Some(tell(run_jaq(bytes, expr)))
    } else {
        None
    }
}

// ---------------------------------------------------------------------------
// Laws
// ---------------------------------------------------------------------------

/// Where no quotation mark stands before, nothing is quoted.
proof fn lemma_not_quoted(s: Seq<char>, at: int)
    requires
        0 <= at <= s.len(),
        forall|k: int| 0 <= k < at ==> #[trigger] s[k] != '"',
    ensures
        !quoted(s, at),
    decreases at,
{
    if at > 0 {
        lemma_not_quoted(s, at - 1);
    }
}

/// A filter that computes, binds, formats, converts, recurses, comments or separates
/// arguments is not plain, wherever it does so outside of a text. Nor is one of more than
/// 256 characters.
pub proof fn law_plain_filters_do_not_compute(s: Seq<char>, at: int)
    requires
        0 <= at < s.len(),
        forall|k: int| 0 <= k < at ==> #[trigger] s[k] != '"',
    ensures
        s[at] == '+' || s[at] == '-' || s[at] == '*' || s[at] == '/' || s[at] == '%' || s[at] == '$'
            || s[at] == '@' || s[at] == '#' || s[at] == ';' || s[at] == '\\' ==> !plain(s),
        at + 1 < s.len() && s[at] == '.' && s[at + 1] == '.' ==> !plain(s),
        s.len() > 256 ==> !plain(s),
{
    lemma_not_quoted(s, at);
    if plain(s) {
        assert(fits(s, at));
    }
}

/// A filter that takes one field is plain: a dot and a name, of any letters, digits and
/// underscores that do not start with a digit.
pub proof fn law_fields_are_plain(name: Seq<char>)
    requires
        0 < name.len() < 256,
        is_letter(name[0]),
        forall|k: int| 0 <= k < name.len() ==> in_word(#[trigger] name[k]),
    ensures
        plain(seq!['.'] + name),
{
    let s = seq!['.'] + name;
    assert forall|at: int| 0 <= at < s.len() implies #[trigger] fits(s, at) by {
        assert forall|k: int| 0 <= k < at implies #[trigger] s[k] != '"' by {
            if k > 0 {
                assert(in_word(name[k - 1]));
            }
        }
        lemma_not_quoted(s, at);
        lemma_no_brackets(s, at);
        if at > 0 {
            assert(s[at] == name[at - 1]);
            if at > 1 {
                assert(s[at - 1] == name[at - 2]);
            }
        } else {
            assert(s[1] == name[0]);
        }
    }
}

/// Where no bracket stands before, none is open.
proof fn lemma_no_brackets(s: Seq<char>, at: int)
    requires
        0 <= at <= s.len(),
        forall|k: int| 0 <= k < at ==> #[trigger] s[k] == '.' || in_word(s[k]),
    ensures
        brackets(s, at).len() == 0,
    decreases at,
{
    if at > 0 {
        assert(s[at - 1] == '.' || in_word(s[at - 1]));
        lemma_no_brackets(s, at - 1);
    }
}

/// Where no quotation mark stands before, a byte is outside the strings.
proof fn lemma_outside(s: Seq<u8>, at: int)
    requires
        0 <= at <= s.len(),
        forall|k: int| 0 <= k < at ==> #[trigger] s[k] != 34,
    ensures
        place(s, at) == Place::Outside,
    decreases at,
{
    if at > 0 {
        assert(s[at - 1] != 34);
        lemma_outside(s, at - 1);
    }
}

/// How deep a run of opening brackets nests.
proof fn lemma_depth_of_openings(s: Seq<u8>, at: int)
    requires
        0 <= at <= s.len(),
        forall|k: int| 0 <= k < at ==> #[trigger] s[k] == 91 || s[k] == 123,
    ensures
        depth(s, at) == at,
    decreases at,
{
    if at > 0 {
        assert(s[at - 1] == 91 || s[at - 1] == 123);
        lemma_outside(s, at - 1);
        lemma_depth_of_openings(s, at - 1);
    }
}

/// An input that has a comment, or a colon behind something else than a string, before its
/// first string is not taken, and neither is one that begins with 129 opening brackets or
/// more and goes on behind them.
pub proof fn law_odd_inputs_are_not_keyed(s: Seq<u8>, at: int)
    requires
        0 <= at < s.len(),
        forall|k: int| 0 <= k < at ==> #[trigger] s[k] != 34,
    ensures
        s[at] == 35 || s[at] == 58 ==> !keyed(s),
        at > 128 && (forall|k: int| 0 <= k < at ==> #[trigger] s[k] == 91 || s[k] == 123)
            ==> !keyed(s),
{
    lemma_outside(s, at);
    lemma_byte_before(s, at);
    if keyed(s) {
        assert(byte_fits(s, at));
    }
    if forall|k: int| 0 <= k < at ==> #[trigger] s[k] == 91 || s[k] == 123 {
        lemma_depth_of_openings(s, at);
    }
}

/// Where no quotation mark stands before, none is the last byte before.
proof fn lemma_byte_before(s: Seq<u8>, at: int)
    requires
        0 <= at <= s.len(),
        forall|k: int| 0 <= k < at ==> #[trigger] s[k] != 34,
    ensures
        byte_before(s, at) != 34,
    decreases at,
{
    if at > 0 {
        assert(s[at - 1] != 34);
        lemma_byte_before(s, at - 1);
    }
}

/// What went wrong is told with where it did: in reading the input, in reading the filter,
/// in making it, or in applying it.
pub proof fn law_faults_are_told_apart(e: Seq<char>, outputs: Seq<Seq<char>>)
    ensures
        told(Ok(outputs)) == Ok::<Seq<Seq<char>>, Seq<char>>(outputs),
        told(Err(JqFault::Input(e))) == Err::<Seq<Seq<char>>, Seq<char>>("jq input: "@ + e),
        told(Err(JqFault::Parse(e))) == Err::<Seq<Seq<char>>, Seq<char>>("jq parse: "@ + e),
        told(Err(JqFault::Compile(e))) == Err::<Seq<Seq<char>>, Seq<char>>("jq compile: "@ + e),
        told(Err(JqFault::Eval(e))) == Err::<Seq<Seq<char>>, Seq<char>>("jq eval: "@ + e),
{
}

/// Where no curly bracket stands before, the innermost open bracket is none.
proof fn lemma_no_object(s: Seq<char>, at: int)
    requires
        0 <= at <= s.len(),
        forall|k: int| 0 <= k < at ==> #[trigger] s[k] != '{',
    ensures
        forall|k: int| 0 <= k < brackets(s, at).len() ==> #[trigger] brackets(s, at)[k] != '{',
    decreases at,
{
    if at > 0 {
        let open = brackets(s, at - 1);
        let now = brackets(s, at);
        assert(s[at - 1] != '{');
        lemma_no_object(s, at - 1);
        assert forall|k: int| 0 <= k < now.len() implies #[trigger] now[k] != '{' by {
            if k < open.len() {
                assert(now[k] == open[k]);
                assert(open[k] != '{');
            }
        }
    }
}

/// The names that are not to be called: those that look at the clock, at the environment
/// or at more input, that end the process, or that go on without a bound.
pub open spec fn unwanted(word: Seq<char>) -> bool {
    ||| word == "now"@
    ||| word == "env"@
    ||| word == "input"@
    ||| word == "inputs"@
    ||| word == "halt"@
    ||| word == "localtime"@
    ||| word == "range"@
    ||| word == "repeat"@
    ||| word == "recurse"@
    ||| word == "while"@
    ||| word == "until"@
    ||| word == "def"@
    ||| word == "reduce"@
    ||| word == "foreach"@
}

/// None of the names that are not to be called may be.
#[verifier::spinoff_prover]
proof fn lemma_unwanted(word: Seq<char>)
    requires
        unwanted(word),
    ensures
        !callable(word),
        word.len() > 0,
        is_letter(word[0]),
{
    reveal_strlit("now");
    reveal_strlit("env");
    reveal_strlit("input");
    reveal_strlit("inputs");
    reveal_strlit("halt");
    reveal_strlit("localtime");
    reveal_strlit("range");
    reveal_strlit("repeat");
    reveal_strlit("recurse");
    reveal_strlit("while");
    reveal_strlit("until");
    reveal_strlit("def");
    reveal_strlit("reduce");
    reveal_strlit("foreach");
    reveal_strlit("all");
    reveal_strlit("and");
    reveal_strlit("any");
    reveal_strlit("del");
    reveal_strlit("empty");
    reveal_strlit("error");
    reveal_strlit("false");
    reveal_strlit("first");
    reveal_strlit("isempty");
    reveal_strlit("last");
    reveal_strlit("map");
    reveal_strlit("map_values");
    reveal_strlit("not");
    reveal_strlit("null");
    reveal_strlit("nulls");
    reveal_strlit("or");
    reveal_strlit("select");
    reveal_strlit("tostring");
    reveal_strlit("true");
    reveal_strlit("values");
    assert("now"@[0] == 'n' && "env"@[0] == 'e' && "def"@[0] == 'd');
    assert("all"@[0] == 'a' && "and"@[0] == 'a' && "any"@[0] == 'a');
    assert("del"@[0] == 'd' && "map"@[0] == 'm' && "not"@[0] == 'n');
    assert("halt"@[0] == 'h' && "last"@[0] == 'l' && "null"@[0] == 'n');
    assert("true"@[0] == 't' && "input"@[0] == 'i' && "range"@[0] == 'r');
    assert("while"@[0] == 'w' && "until"@[0] == 'u' && "empty"@[0] == 'e');
    assert("error"@[0] == 'e' && "false"@[0] == 'f' && "first"@[0] == 'f');
    assert("nulls"@[0] == 'n' && "inputs"@[0] == 'i' && "repeat"@[0] == 'r');
    assert("reduce"@[0] == 'r' && "select"@[0] == 's' && "values"@[0] == 'v');
    assert("recurse"@[0] == 'r' && "foreach"@[0] == 'f' && "isempty"@[0] == 'i');
    assert("now"@.len() == 3 && "env"@.len() == 3 && "input"@.len() == 5);
    assert("inputs"@.len() == 6 && "halt"@.len() == 4 && "localtime"@.len() == 9);
    assert("range"@.len() == 5 && "repeat"@.len() == 6 && "recurse"@.len() == 7);
    assert("while"@.len() == 5 && "until"@.len() == 5 && "def"@.len() == 3);
    assert("reduce"@.len() == 6 && "foreach"@.len() == 7 && "all"@.len() == 3);
    assert("and"@.len() == 3 && "any"@.len() == 3 && "del"@.len() == 3);
    assert("empty"@.len() == 5 && "error"@.len() == 5 && "false"@.len() == 5);
    assert("first"@.len() == 5 && "isempty"@.len() == 7 && "last"@.len() == 4);
    assert("map"@.len() == 3 && "map_values"@.len() == 10 && "not"@.len() == 3);
    assert("null"@.len() == 4 && "nulls"@.len() == 5 && "or"@.len() == 2);
    assert("select"@.len() == 6 && "tostring"@.len() == 8 && "true"@.len() == 4);
    assert("values"@.len() == 6);
    assert("now"@[2] == 'w' && "not"@[2] == 't');
    assert("def"@[2] == 'f' && "del"@[2] == 'l');
}

/// A filter that calls the clock, the environment, more input, the end of the process or
/// an unbounded loop is not plain, wherever the name stands by itself: not as a field behind
/// its dot, nor as the key of an object, nor in a text.
pub proof fn law_plain_filters_call_nothing_unwanted(s: Seq<char>, at: int, end: int)
    requires
        0 <= at < end <= s.len(),
        unwanted(s.subrange(at, end)),
        end < s.len() ==> !in_word(s[end]),
        at > 0 ==> !in_word(s[at - 1]) && s[at - 1] != '.',
        forall|k: int| at <= k < end ==> in_word(#[trigger] s[k]),
        forall|k: int| 0 <= k < at ==> #[trigger] s[k] != '"' && s[k] != '{',
    ensures
        !plain(s),
{
    let word = s.subrange(at, end);
    lemma_unwanted(word);
    assert(word[0] == s[at]);
    lemma_not_quoted(s, at);
    lemma_no_object(s, at);
    lemma_word_end(s, at, end);
    if plain(s) {
        assert(fits(s, at));
    }
}

/// A run of word characters ends where it ends.
proof fn lemma_word_end(s: Seq<char>, at: int, end: int)
    requires
        0 <= at <= end <= s.len(),
        end < s.len() ==> !in_word(s[end]),
        forall|k: int| at <= k < end ==> in_word(#[trigger] s[k]),
    ensures
        word_end(s, at) == end,
    decreases end - at,
{
    if at < end {
        assert(in_word(s[at]));
        lemma_word_end(s, at + 1, end);
    }
}

} // verus!
