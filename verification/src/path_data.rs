//! Tokenizer and parser for the `d` attribute of SVG paths.
//!
//! Numbers are kept as the exact text of their lexeme; turning that text
//! into a floating-point value is left to the caller.
use vstd::prelude::*;
use vstd::string::StrSliceExecFns;
use vstd::string::StringExecFns;

verus! {

broadcast use vstd::string::group_string_axioms;

/// The kinds of tokens of path data.
#[derive(Debug, PartialEq, Eq, Structural, Clone, Copy)]
pub enum TokenType {
    Command,
    Number,
    EOD,
}

/// A token: its kind and its text (the command letter, or the lexeme of a
/// number; empty at the end of the data).
#[derive(Debug)]
pub struct Token {
    pub kind: TokenType,
    pub text: String,
}

/// What a token stands for in contracts.
pub type TokenView = (TokenType, Seq<char>);

impl View for Token {
    type V = TokenView;

    open spec fn view(&self) -> TokenView {
        (self.kind, self.text@)
    }
}

/// A segment of a path: its command letter and the lexemes of its
/// parameters.
#[derive(Debug)]
pub struct Segment {
    pub key: char,
    pub data: Vec<String>,
}

/// What a segment stands for in contracts.
pub type SegmentView = (char, Seq<Seq<char>>);

impl View for Segment {
    type V = SegmentView;

    open spec fn view(&self) -> SegmentView {
        (self.key, self.data@.map_values(|s: String| s@))
    }
}

/// Number of parameters that the command letter `c` takes.
pub open spec fn params_count_spec(c: char) -> Option<usize> {
    if c == 'A' || c == 'a' {
        Some(7)
    } else if c == 'C' || c == 'c' {
        Some(6)
    } else if c == 'H' || c == 'h' || c == 'V' || c == 'v' {
        Some(1)
    } else if c == 'L' || c == 'l' || c == 'M' || c == 'm' || c == 'T' || c == 't' {
        Some(2)
    } else if c == 'Q' || c == 'q' || c == 'S' || c == 's' {
        Some(4)
    } else if c == 'Z' || c == 'z' {
        Some(0)
    } else {
        None
    }
}

/// True for the command letters of path data.
pub open spec fn is_command_char(c: char) -> bool {
    params_count_spec(c) is Some
}

/// The Unicode `White_Space` property.
pub open spec fn is_white_space(c: char) -> bool {
    ||| '\u{9}' <= c <= '\u{d}'
    ||| c == ' '
    ||| c == '\u{85}'
    ||| c == '\u{a0}'
    ||| c == '\u{1680}'
    ||| '\u{2000}' <= c <= '\u{200a}'
    ||| c == '\u{2028}'
    ||| c == '\u{2029}'
    ||| c == '\u{202f}'
    ||| c == '\u{205f}'
    ||| c == '\u{3000}'
}

/// A decimal digit.
pub open spec fn is_dec_digit(c: char) -> bool {
    '0' <= c <= '9'
}

/// A sign character.
pub open spec fn is_sign(c: char) -> bool {
    c == '+' || c == '-'
}

/// A character that may start a number.
pub open spec fn starts_number(c: char) -> bool {
    is_sign(c) || c == '.' || is_dec_digit(c)
}

/// End of the run of decimal digits of `s` that starts at `i`.
pub open spec fn digits_end(s: Seq<char>, i: int) -> int
    decreases s.len() - i,
{
    if 0 <= i < s.len() && is_dec_digit(s[i]) {
        digits_end(s, i + 1)
    } else {
        i
    }
}

/// Position just after the sign, if any, at `i`.
pub open spec fn after_sign(s: Seq<char>, i: int) -> int {
    if 0 <= i < s.len() && is_sign(s[i]) {
        i + 1
    } else {
        i
    }
}

/// End of the integer part of a number that starts at `i`.
pub open spec fn int_end(s: Seq<char>, i: int) -> int {
    digits_end(s, after_sign(s, i))
}

/// True when a decimal point follows the integer part.
pub open spec fn has_point(s: Seq<char>, i: int) -> bool {
    int_end(s, i) < s.len() && s[int_end(s, i)] == '.'
}

/// End of the mantissa (integer part, point and fraction).
pub open spec fn mantissa_end(s: Seq<char>, i: int) -> int {
    if has_point(s, i) {
        digits_end(s, int_end(s, i) + 1)
    } else {
        int_end(s, i)
    }
}

/// True when an exponent marker follows the mantissa.
pub open spec fn has_exponent(s: Seq<char>, i: int) -> bool {
    mantissa_end(s, i) < s.len() && (s[mantissa_end(s, i)] == 'e' || s[mantissa_end(s, i)] == 'E')
}

/// Start of the digits of the exponent.
pub open spec fn exponent_digits_start(s: Seq<char>, i: int) -> int {
    after_sign(s, mantissa_end(s, i) + 1)
}

/// End of the number lexeme that starts at `i`.
pub open spec fn number_end(s: Seq<char>, i: int) -> int {
    if has_exponent(s, i) {
        digits_end(s, exponent_digits_start(s, i))
    } else {
        mantissa_end(s, i)
    }
}

/// True when the lexeme that starts at `i` is a float literal that
/// `f64::from_str` accepts: its mantissa has a digit, and an exponent marker
/// is followed by digits.
pub open spec fn lexeme_is_number(s: Seq<char>, i: int) -> bool {
    let int_digits = int_end(s, i) - after_sign(s, i);
    let frac_digits = if has_point(s, i) {
        mantissa_end(s, i) - (int_end(s, i) + 1)
    } else {
        0
    };
    &&& int_digits + frac_digits > 0
    &&& has_exponent(s, i) ==> number_end(s, i) > exponent_digits_start(s, i)
}

/// A run of digits ends at or after its start, and within `s`.
pub proof fn lemma_digits_end_bounds(s: Seq<char>, i: int)
    requires
        0 <= i <= s.len(),
    ensures
        i <= digits_end(s, i) <= s.len(),
        forall|k: int| i <= k < digits_end(s, i) ==> is_dec_digit(#[trigger] s[k]),
        digits_end(s, i) < s.len() ==> !is_dec_digit(s[digits_end(s, i)]),
    decreases s.len() - i,
{
    if i < s.len() && is_dec_digit(s[i]) {
        lemma_digits_end_bounds(s, i + 1);
    }
}

/// A number lexeme that starts at a character that may start a number is
/// not empty and stays within `s`.
pub proof fn lemma_number_end_bounds(s: Seq<char>, i: int)
    requires
        0 <= i < s.len(),
        starts_number(s[i]),
    ensures
        i < number_end(s, i) <= s.len(),
{
    let a = after_sign(s, i);
    lemma_digits_end_bounds(s, a);
    let b = int_end(s, i);
    if has_point(s, i) {
        lemma_digits_end_bounds(s, b + 1);
    }
    let c = mantissa_end(s, i);
    if has_exponent(s, i) {
        let d = exponent_digits_start(s, i);
        lemma_digits_end_bounds(s, d);
    }
}

/// The tokens of `s` from position `i` on, ending with the end marker.
pub open spec fn tokens_from(s: Seq<char>, i: int) -> Seq<TokenView>
    decreases s.len() - i,
{
    if i < 0 || i >= s.len() {
        seq![(TokenType::EOD, Seq::<char>::empty())]
    } else if is_white_space(s[i]) || s[i] == ',' {
        tokens_from(s, i + 1)
    } else if is_command_char(s[i]) {
        seq![(TokenType::Command, seq![s[i]])] + tokens_from(s, i + 1)
    } else if starts_number(s[i]) {
        proof {
            lemma_number_end_bounds(s, i);
        }
        if lexeme_is_number(s, i) {
            seq![(TokenType::Number, s.subrange(i, number_end(s, i)))] + tokens_from(
                s,
                number_end(s, i),
            )
        } else {
            tokens_from(s, i + 1)
        }
    } else {
        tokens_from(s, i + 1)
    }
}

/// The tokens of path data `s`.
pub open spec fn tokens_of(s: Seq<char>) -> Seq<TokenView> {
    tokens_from(s, 0)
}

/// The characters of `d`, in order.
pub fn chars_of(d: &str) -> (v: Vec<char>)
    ensures
        v@ == d@,
{
    let mut v: Vec<char> = Vec::new();
    for c in it: d.chars()
        invariant
            it.seq() == d@,
            v@ == d@.take(it.index()),
    {
        v.push(c);
    }
    v
}

/// The characters of `v` equal those of `lit`.
pub fn chars_equal(v: &Vec<char>, lit: &str) -> (r: bool)
    ensures
        r == (v@ == lit@),
{
    let w = chars_of(lit);
    if v.len() != w.len() {
        return false;
    }
    let mut i: usize = 0;
    while i < v.len()
        invariant
            w@ == lit@,
            v@.len() == w@.len(),
            i <= v@.len(),
            forall|j: int| 0 <= j < i ==> v@[j] == w@[j],
        decreases v@.len() - i,
    {
        if v[i] != w[i] {
            return false;
        }
        i += 1;
    }
    assert(v@ =~= w@);
    true
}

/// The string made of `v[start..end]`.
///
/// Collects the characters with `FromIterator<char>` for `String`, whose
/// result holds exactly those characters in order.
#[verifier::external_body]
pub(crate) fn string_of_range(v: &Vec<char>, start: usize, end: usize) -> (r: String)
    requires
        start <= end <= v.len(),
    ensures
        r@ == v@.subrange(start as int, end as int),
{
    v[start..end].iter().collect::<String>()
}

/// Number of parameters that the command letter `c` takes, if `c` is one.
pub fn params_count_for(c: char) -> (r: Option<usize>)
    ensures
        r == params_count_spec(c),
{
    if c == 'A' || c == 'a' {
        Some(7)
    } else if c == 'C' || c == 'c' {
        Some(6)
    } else if c == 'H' || c == 'h' || c == 'V' || c == 'v' {
        Some(1)
    } else if c == 'L' || c == 'l' || c == 'M' || c == 'm' || c == 'T' || c == 't' {
        Some(2)
    } else if c == 'Q' || c == 'q' || c == 'S' || c == 's' {
        Some(4)
    } else if c == 'Z' || c == 'z' {
        Some(0)
    } else {
        None
    }
}

/// True for characters with the Unicode `White_Space` property.
pub fn is_white_space_char(c: char) -> (b: bool)
    ensures
        b == is_white_space(c),
{
    ('\u{9}' <= c && c <= '\u{d}') || c == ' ' || c == '\u{85}' || c == '\u{a0}' || c
        == '\u{1680}' || ('\u{2000}' <= c && c <= '\u{200a}') || c == '\u{2028}' || c == '\u{2029}'
        || c == '\u{202f}' || c == '\u{205f}' || c == '\u{3000}'
}

/// End of the run of decimal digits of `s` that starts at `i`.
fn scan_digits(s: &Vec<char>, i: usize) -> (e: usize)
    requires
        i <= s.len(),
    ensures
        e == digits_end(s@, i as int),
{
    let mut j = i;
    while j < s.len() && '0' <= s[j] && s[j] <= '9'
        invariant
            i <= j <= s.len(),
            digits_end(s@, j as int) == digits_end(s@, i as int),
        decreases s.len() - j,
    {
        j += 1;
    }
    j
}

/// Position just after a sign at `i`, if there is one.
fn skip_sign(s: &Vec<char>, i: usize) -> (e: usize)
    requires
        i <= s.len(),
    ensures
        e == after_sign(s@, i as int),
{
    if i < s.len() && (s[i] == '+' || s[i] == '-') {
        i + 1
    } else {
        i
    }
}

/// End of the number lexeme that starts at `i`, and whether `f64::from_str`
/// accepts it.
fn scan_number(s: &Vec<char>, i: usize) -> (r: (usize, bool))
    requires
        i < s.len(),
        starts_number(s@[i as int]),
    ensures
        r.0 == number_end(s@, i as int),
        r.1 == lexeme_is_number(s@, i as int),
{
    proof {
        lemma_number_end_bounds(s@, i as int);
        lemma_digits_end_bounds(s@, after_sign(s@, i as int));
    }
    let a = skip_sign(s, i);
    let b = scan_digits(s, a);
    let mut c = b;
    let mut frac_digits: usize = 0;
    if b < s.len() && s[b] == '.' {
        proof {
            lemma_digits_end_bounds(s@, b + 1);
        }
        c = scan_digits(s, b + 1);
        frac_digits = c - (b + 1);
    }
    let mantissa_ok = (b - a) + frac_digits > 0;
    if c < s.len() && (s[c] == 'e' || s[c] == 'E') {
        let d = skip_sign(s, c + 1);
        proof {
            lemma_digits_end_bounds(s@, d as int);
        }
        let e = scan_digits(s, d);
        (e, mantissa_ok && e > d)
    } else {
        (c, mantissa_ok)
    }
}

/// The views of a list of tokens.
pub open spec fn token_views(v: Seq<Token>) -> Seq<TokenView> {
    v.map_values(|t: Token| t@)
}

/// Splits path data into commands and numbers, ending with an end marker.
/// Whitespace and commas separate tokens; a character that starts no valid
/// token is skipped.
pub fn tokenize(d: &str) -> (r: Vec<Token>)
    ensures
        token_views(r@) == tokens_of(d@),
{
    let s = chars_of(d);
    let mut tokens: Vec<Token> = Vec::new();
    let mut i: usize = 0;
    while i < s.len()
        invariant
            i <= s.len(),
            s@ == d@,
            token_views(tokens@) + tokens_from(s@, i as int) == tokens_of(d@),
        decreases s.len() - i,
    {
        let c = s[i];
        let ghost before = token_views(tokens@);
        if is_white_space_char(c) || c == ',' {
            i += 1;
        } else if params_count_for(c).is_some() {
            let text = string_of_range(&s, i, i + 1);
            tokens.push(Token { kind: TokenType::Command, text });
            proof {
                assert(seq![c] =~= s@.subrange(i as int, i + 1));
                assert(token_views(tokens@) =~= before.push((TokenType::Command, seq![c])));
            }
            i += 1;
        } else if c == '-' || c == '+' || c == '.' || ('0' <= c && c <= '9') {
            let (e, ok) = scan_number(&s, i);
            proof {
                lemma_number_end_bounds(s@, i as int);
            }
            if ok {
                let text = string_of_range(&s, i, e);
                tokens.push(Token { kind: TokenType::Number, text });
                proof {
                    assert(token_views(tokens@) == before.push(
                        (TokenType::Number, s@.subrange(i as int, e as int)),
                    ));
                }
                i = e;
            } else {
                i += 1;
            }
        } else {
            i += 1;
        }
    }
    let ghost before = token_views(tokens@);
    let text = String::new();
    tokens.push(Token { kind: TokenType::EOD, text });
    proof {
        assert(token_views(tokens@) == before.push((TokenType::EOD, Seq::<char>::empty())));
    }
    tokens
}

/// True when every command token of `t` holds one command letter.
pub open spec fn tokens_wf(t: Seq<TokenView>) -> bool {
    forall|j: int|
        0 <= j < t.len() && (#[trigger] t[j]).0 == TokenType::Command ==> t[j].1.len() == 1
            && is_command_char(t[j].1[0])
}

/// The tokens of any text are well formed.
pub proof fn lemma_tokens_from_wf(s: Seq<char>, i: int)
    ensures
        tokens_wf(tokens_from(s, i)),
        tokens_from(s, i).len() >= 1,
    decreases s.len() - i,
{
    if i < 0 || i >= s.len() {
    } else if is_white_space(s[i]) || s[i] == ',' {
        lemma_tokens_from_wf(s, i + 1);
    } else if is_command_char(s[i]) {
        lemma_tokens_from_wf(s, i + 1);
        let r = tokens_from(s, i + 1);
        let t = seq![(TokenType::Command, seq![s[i]])] + r;
        assert forall|j: int| 0 <= j < t.len() && (#[trigger] t[j]).0 == TokenType::Command implies t[j].1.len()
            == 1 && is_command_char(t[j].1[0]) by {
            if j > 0 {
                assert(t[j] == r[j - 1]);
            }
        }
    } else if starts_number(s[i]) {
        lemma_number_end_bounds(s, i);
        lemma_tokens_from_wf(s, number_end(s, i));
        lemma_tokens_from_wf(s, i + 1);
        if lexeme_is_number(s, i) {
            let r = tokens_from(s, number_end(s, i));
            let t = seq![(TokenType::Number, s.subrange(i, number_end(s, i)))] + r;
            assert forall|j: int| 0 <= j < t.len() && (#[trigger] t[j]).0 == TokenType::Command implies t[j].1.len()
                == 1 && is_command_char(t[j].1[0]) by {
                if j > 0 {
                    assert(t[j] == r[j - 1]);
                }
            }
        }
    } else {
        lemma_tokens_from_wf(s, i + 1);
    }
}

/// Number of consecutive number tokens of `t` from `start`, at most `limit`.
pub open spec fn number_run(t: Seq<TokenView>, start: int, limit: int) -> int
    decreases limit,
{
    if limit <= 0 || start < 0 || start >= t.len() || t[start].0 != TokenType::Number {
        0
    } else {
        1 + number_run(t, start + 1, limit - 1)
    }
}

/// A run of number tokens is no longer than its limit.
pub proof fn lemma_number_run_bounds(t: Seq<TokenView>, start: int, limit: int)
    ensures
        0 <= number_run(t, start, limit),
        limit >= 0 ==> number_run(t, start, limit) <= limit,
    decreases limit,
{
    if limit > 0 && 0 <= start < t.len() && t[start].0 == TokenType::Number {
        lemma_number_run_bounds(t, start + 1, limit - 1);
    }
}

/// The command that a number token continues after command `cm`: a move
/// continues as a line.
pub open spec fn mode_after(cm: char) -> char {
    if cm == 'M' {
        'L'
    } else if cm == 'm' {
        'l'
    } else {
        cm
    }
}

/// The parameter texts of `t[start..start + n]`.
pub open spec fn param_texts(t: Seq<TokenView>, start: int, n: int) -> Seq<Seq<char>> {
    t.subrange(start, start + n).map_values(|x: TokenView| x.1)
}

/// The segments that parsing `t` from token `index` in command `mode`
/// yields, or `None` when parsing never ends there (a number that follows a
/// close-path command is read again and again).
///
/// A command token sets the command; a number token continues the current
/// one. The command's parameters are the number tokens that follow, up to
/// its parameter count; with fewer, the command is dropped. Parsing stops at
/// the end marker, or when fewer tokens remain than the command needs.
pub open spec fn parse_from(t: Seq<TokenView>, index: int, mode: char) -> Option<Seq<SegmentView>>
    decreases t.len() - index,
{
    if index < 0 || index >= t.len() || t[index].0 == TokenType::EOD {
        Some(Seq::empty())
    } else {
        let is_num = t[index].0 == TokenType::Number;
        let cm = if is_num {
            mode
        } else {
            t[index].1[0]
        };
        let start = if is_num {
            index
        } else {
            index + 1
        };
        let pc: int = match params_count_spec(cm) {
            Some(n) => n as int,
            None => 0,
        };
        if start + pc > t.len() {
            Some(Seq::empty())
        } else {
            let n = number_run(t, start, pc);
            proof {
                lemma_number_run_bounds(t, start, pc);
            }
            if start + n <= index {
                None
            } else {
                let rest = parse_from(t, start + n, mode_after(cm));
                if n == pc {
                    match rest {
                        Some(r) => Some(seq![(cm, param_texts(t, start, n))] + r),
                        None => None,
                    }
                } else {
                    rest
                }
            }
        }
    }
}

/// The text that a path gets in front when it does not start with a move.
pub open spec fn implicit_move() -> Seq<char> {
    seq!['M', '0', ',', '0']
}

/// The segments of path data `d`, or `None` when parsing never ends. Data
/// that starts with neither a move command nor the end is parsed with
/// `M0,0` in front.
pub open spec fn segments_of_path(d: Seq<char>) -> Option<Seq<SegmentView>> {
    let t = tokens_of(d);
    if t[0].0 == TokenType::EOD || (t[0].0 == TokenType::Command && (t[0].1 == seq!['M']
        || t[0].1 == seq!['m'])) {
        parse_from(t, 0, 'M')
    } else {
        parse_from(tokens_of(implicit_move() + d), 0, 'M')
    }
}

/// Prepends `a` to a parse outcome.
pub open spec fn prepend(a: Seq<SegmentView>, o: Option<Seq<SegmentView>>) -> Option<
    Seq<SegmentView>,
> {
    match o {
        Some(r) => Some(a + r),
        None => None,
    }
}

/// The views of a list of segments.
pub open spec fn segment_views(v: Seq<Segment>) -> Seq<SegmentView> {
    v.map_values(|s: Segment| s@)
}

/// `number_run` counts exactly the number tokens before the first other
/// token or the limit.
proof fn lemma_number_run(t: Seq<TokenView>, start: int, limit: int, k: int)
    requires
        0 <= start <= k <= start + limit,
        start + limit <= t.len(),
        forall|j: int| start <= j < k ==> (#[trigger] t[j]).0 == TokenType::Number,
        k == start + limit || t[k].0 != TokenType::Number,
    ensures
        number_run(t, start, limit) == k - start,
    decreases limit,
{
    if limit > 0 && start < k {
        lemma_number_run(t, start + 1, limit - 1, k);
    }
}

/// Parses a token list that starts with a move command or the end marker;
/// `None` when the parse would never end (see `parse_from`).
fn parse_tokens(tokens: &Vec<Token>) -> (r: Option<Vec<Segment>>)
    requires
        tokens_wf(token_views(tokens@)),
    ensures
        match r {
            Some(v) => parse_from(token_views(tokens@), 0, 'M') == Some(segment_views(v@)),
            None => parse_from(token_views(tokens@), 0, 'M') is None,
        },
{
    let ghost t = token_views(tokens@);
    let mut segs: Vec<Segment> = Vec::new();
    let mut index: usize = 0;
    let mut mode: char = 'M';
    while index < tokens.len()
        invariant
            t == token_views(tokens@),
            tokens_wf(t),
            index <= tokens.len(),
            is_command_char(mode),
            prepend(segment_views(segs@), parse_from(t, index as int, mode)) == parse_from(t, 0, 'M'),
        decreases tokens.len() - index,
    {
        assert(t[index as int] == tokens@[index as int]@);
        let kind = tokens[index].kind;
        if kind == TokenType::EOD {
            proof {
                assert(segment_views(segs@) + Seq::<SegmentView>::empty() == segment_views(segs@));
            }
            return Some(segs);
        }
        let is_num = kind == TokenType::Number;
        let cm: char = if is_num {
            mode
        } else {
            tokens[index].text.as_str().get_char(0)
        };
        let start: usize = if is_num {
            index
        } else {
            index + 1
        };
        let pc: usize = params_count_for(cm).unwrap();
        if pc > tokens.len() - start {
            proof {
                assert(segment_views(segs@) + Seq::<SegmentView>::empty() == segment_views(segs@));
            }
            return Some(segs);
        }
        let mut params: Vec<String> = Vec::new();
        let mut k: usize = start;
        while k < start + pc && tokens[k].kind == TokenType::Number
            invariant
                t == token_views(tokens@),
                start <= k <= start + pc,
                start + pc <= tokens.len(),
                params@.len() == k - start,
                forall|j: int| start <= j < k ==> (#[trigger] t[j]).0 == TokenType::Number,
                forall|j: int| 0 <= j < k - start ==> (#[trigger] params@[j])@ == t[start + j].1,
            decreases start + pc - k,
        {
            assert(t[k as int] == tokens@[k as int]@);
            params.push(tokens[k].text.clone());
            k += 1;
        }
        proof {
            if k < start + pc {
                assert(t[k as int] == tokens@[k as int]@);
            }
            lemma_number_run(t, start as int, pc as int, k as int);
        }
        if k <= index {
            return None;
        }
        let n = k - start;
        let ghost old_segs = segment_views(segs@);
        let ghost rest = parse_from(t, k as int, mode_after(cm));
        if n == pc {
            let ghost pv = params@.map_values(|s: String| s@);
            assert(pv =~= param_texts(t, start as int, n as int));
            segs.push(Segment { key: cm, data: params });
            proof {
                assert(segment_views(segs@) =~= old_segs.push((cm, param_texts(t, start as int, n as int))));
                let a = seq![(cm, param_texts(t, start as int, n as int))];
                assert(old_segs.push((cm, param_texts(t, start as int, n as int))) + rest->0 =~= old_segs + (a
                    + rest->0));
            }
        }
        index = k;
        mode = if cm == 'M' {
            'L'
        } else if cm == 'm' {
            'l'
        } else {
            cm
        };
    }
    proof {
        assert(segment_views(segs@) + Seq::<SegmentView>::empty() == segment_views(segs@));
    }
    Some(segs)
}

/// The tokens a path is parsed from: its own, or, when it starts with
/// neither a move command nor the end, those of the data with `M0,0` in
/// front.
fn path_tokens(d: &str) -> (r: Vec<Token>)
    ensures
        tokens_wf(token_views(r@)),
        parse_from(token_views(r@), 0, 'M') == segments_of_path(d@),
{
    let tokens = tokenize(d);
    proof {
        lemma_tokens_from_wf(d@, 0);
    }
    let ghost t = token_views(tokens@);
    assert(t[0] == tokens@[0]@);
    let first_kind = tokens[0].kind;
    let mut starts_with_move = first_kind == TokenType::EOD;
    if first_kind == TokenType::Command {
        let c = tokens[0].text.as_str().get_char(0);
        starts_with_move = c == 'M' || c == 'm';
        proof {
            assert(t[0].1 =~= seq![c]);
        }
    }
    if starts_with_move {
        tokens
    } else {
        let prefix = "M0,0".to_string();
        let full = prefix.concat(d);
        proof {
            reveal_strlit("M0,0");
            assert(full@ =~= implicit_move() + d@);
            lemma_tokens_from_wf(full@, 0);
        }
        tokenize(full.as_str())
    }
}

/// Parses path data into segments. Data that starts with neither a move
/// command nor the end is read with `M0,0` in front. A command with too few
/// parameters is dropped; a truncated end is ignored. Fails when no segment
/// results.
pub fn parse_path(d: &str) -> (r: Result<Vec<Segment>, String>)
    requires
        segments_of_path(d@) is Some,
    ensures
        match r {
            Ok(v) => segments_of_path(d@) == Some(segment_views(v@)) && v@.len() > 0,
            Err(e) => segments_of_path(d@) == Some(Seq::<SegmentView>::empty()) && e@
                == "No valid segments found in path"@,
        },
{
    let tokens = path_tokens(d);
    match parse_tokens(&tokens) {
        Some(segs) => {
            if segs.len() == 0 {
                Err("No valid segments found in path".to_string())
            } else {
                Ok(segs)
            }
        },
        None => Err("No valid segments found in path".to_string()),
    }
}

/// Parses path data as `parse_path` does, or returns `None` for data whose
/// parse would never end (a number right after a close-path command).
pub fn parse_path_checked(d: &str) -> (r: Option<Result<Vec<Segment>, String>>)
    ensures
        match r {
            None => segments_of_path(d@) is None,
            Some(Ok(v)) => segments_of_path(d@) == Some(segment_views(v@)) && v@.len() > 0,
            Some(Err(e)) => segments_of_path(d@) == Some(Seq::<SegmentView>::empty()) && e@
                == "No valid segments found in path"@,
        },
{
    let tokens = path_tokens(d);
    match parse_tokens(&tokens) {
        Some(segs) => {
            if segs.len() == 0 {
                Some(Err("No valid segments found in path".to_string()))
            } else {
                Some(Ok(segs))
            }
        },
        None => None,
    }
}

/// The words that write out one segment: its letter, then its parameters.
/// A cubic (C/c) with at least six parameters writes exactly six, and a
/// quadratic or smooth curve (Q/q/S/s) with at least four writes exactly
/// four, a comma closing each x,y pair but the last; with fewer, those
/// commands write their letter alone. Other commands write all parameters.
pub open spec fn segment_words(seg: SegmentView) -> Seq<Seq<char>> {
    let k = seg.0;
    let d = seg.1;
    let key = seq![k];
    if k == 'C' || k == 'c' {
        if d.len() >= 6 {
            seq![key, d[0], d[1] + seq![','], d[2], d[3] + seq![','], d[4], d[5]]
        } else {
            seq![key]
        }
    } else if k == 'S' || k == 's' || k == 'Q' || k == 'q' {
        if d.len() >= 4 {
            seq![key, d[0], d[1] + seq![','], d[2], d[3]]
        } else {
            seq![key]
        }
    } else {
        seq![key] + d
    }
}

/// The words that write out a list of segments.
pub open spec fn path_words(segs: Seq<SegmentView>) -> Seq<Seq<char>>
    decreases segs.len(),
{
    if segs.len() == 0 {
        Seq::empty()
    } else {
        path_words(segs.drop_last()) + segment_words(segs.last())
    }
}

/// Words joined by single spaces.
pub open spec fn join_words(w: Seq<Seq<char>>) -> Seq<char>
    decreases w.len(),
{
    if w.len() == 0 {
        Seq::empty()
    } else if w.len() == 1 {
        w[0]
    } else {
        join_words(w.drop_last()) + seq![' '] + w.last()
    }
}

/// Appends `word` to the words written so far.
fn push_word(out: &mut String, empty: &mut bool, word: &str, words: Ghost<Seq<Seq<char>>>)
    requires
        old(out)@ == join_words(words@),
        *old(empty) == (words@.len() == 0),
    ensures
        final(out)@ == join_words(words@.push(word@)),
        !*final(empty),
{
    let ghost w2 = words@.push(word@);
    assert(w2.drop_last() =~= words@);
    if !*empty {
        out.append(" ");
        proof {
            reveal_strlit(" ");
        }
    } else {
        assert(join_words(words@) == Seq::<char>::empty());
        assert(join_words(w2) == word@);
    }
    out.append(word);
    *empty = false;
}

/// Writes segments back as path data: each command letter followed by its
/// parameters (as their lexemes), all separated by spaces; see
/// `segment_words` for curves with missing parameters.
pub fn serialize(segments: &Vec<Segment>) -> (r: String)
    ensures
        r@ == join_words(path_words(segment_views(segments@))),
{
    let mut out = String::new();
    let mut empty = true;
    let ghost mut words: Seq<Seq<char>> = Seq::empty();
    let mut i: usize = 0;
    while i < segments.len()
        invariant
            i <= segments@.len(),
            words == path_words(segment_views(segments@.take(i as int))),
            out@ == join_words(words),
            empty == (words.len() == 0),
        decreases segments.len() - i,
    {
        let seg = &segments[i];
        let k = seg.key;
        let kv = vec![k];
        let key = string_of_range(&kv, 0, 1);
        let ghost before = words;
        let ghost sv = seg@;
        assert(sv.0 == k);
        assert(kv@ =~= seq![k]);
        assert(key@ =~= seq![k]);
        push_word(&mut out, &mut empty, key.as_str(), Ghost(words));
        proof {
            words = words.push(key@);
        }
        let d = &seg.data;
        assert(d@.len() == sv.1.len());
        if k == 'C' || k == 'c' {
            if d.len() >= 6 {
                assert(d@[0]@ == sv.1[0] && d@[1]@ == sv.1[1] && d@[2]@ == sv.1[2]);
                assert(d@[3]@ == sv.1[3] && d@[4]@ == sv.1[4] && d@[5]@ == sv.1[5]);
                push_word(&mut out, &mut empty, d[0].as_str(), Ghost(words));
                proof { words = words.push(d@[0]@); }
                let w1 = d[1].clone().concat(",");
                push_word(&mut out, &mut empty, w1.as_str(), Ghost(words));
                proof { words = words.push(w1@); }
                push_word(&mut out, &mut empty, d[2].as_str(), Ghost(words));
                proof { words = words.push(d@[2]@); }
                let w3 = d[3].clone().concat(",");
                push_word(&mut out, &mut empty, w3.as_str(), Ghost(words));
                proof { words = words.push(w3@); }
                push_word(&mut out, &mut empty, d[4].as_str(), Ghost(words));
                proof { words = words.push(d@[4]@); }
                push_word(&mut out, &mut empty, d[5].as_str(), Ghost(words));
                proof {
                    words = words.push(d@[5]@);
                    reveal_strlit(",");
                    assert(w1@ =~= sv.1[1] + seq![',']);
                    assert(w3@ =~= sv.1[3] + seq![',']);
                    assert(words =~= before + segment_words(sv));
                }
            } else {
                assert(words =~= before + segment_words(sv));
            }
        } else if k == 'S' || k == 's' || k == 'Q' || k == 'q' {
            if d.len() >= 4 {
                assert(d@[0]@ == sv.1[0] && d@[1]@ == sv.1[1] && d@[2]@ == sv.1[2]);
                assert(d@[3]@ == sv.1[3]);
                push_word(&mut out, &mut empty, d[0].as_str(), Ghost(words));
                proof { words = words.push(d@[0]@); }
                let w1 = d[1].clone().concat(",");
                push_word(&mut out, &mut empty, w1.as_str(), Ghost(words));
                proof { words = words.push(w1@); }
                push_word(&mut out, &mut empty, d[2].as_str(), Ghost(words));
                proof { words = words.push(d@[2]@); }
                push_word(&mut out, &mut empty, d[3].as_str(), Ghost(words));
                proof {
                    words = words.push(d@[3]@);
                    reveal_strlit(",");
                    assert(w1@ =~= sv.1[1] + seq![',']);
                    assert(words =~= before + segment_words(sv));
                }
            } else {
                assert(words =~= before + segment_words(sv));
            }
        } else {
            assert(sv.1.take(0) =~= Seq::<Seq<char>>::empty());
            assert(words =~= before + seq![seq![k]] + sv.1.take(0));
            let mut j: usize = 0;
            while j < d.len()
                invariant
                    j <= d@.len(),
                    d@.len() == sv.1.len(),
                    forall|t: int| 0 <= t < d@.len() ==> (#[trigger] d@[t])@ == sv.1[t],
                    words == before + seq![seq![k]] + sv.1.take(j as int),
                    out@ == join_words(words),
                    empty == (words.len() == 0),
                decreases d.len() - j,
            {
                push_word(&mut out, &mut empty, d[j].as_str(), Ghost(words));
                proof {
                    words = words.push(d@[j as int]@);
                    assert(sv.1.take(j + 1) =~= sv.1.take(j as int).push(sv.1[j as int]));
                }
                j += 1;
            }
            assert(sv.1.take(d@.len() as int) =~= sv.1);
        }
        proof {
            assert(segments@.take(i + 1).drop_last() =~= segments@.take(i as int));
            assert(segment_views(segments@.take(i + 1)).drop_last() =~= segment_views(segments@.take(i as int)));
            assert(words =~= before + segment_words(sv));
        }
        i += 1;
    }
    assert(segments@.take(segments@.len() as int) =~= segments@);
    out
}

} // verus!
