//! Shape kinds and path commands of LightBurn project files: reading a
//! shape's type name, and reading and writing the command list of a path.
use vstd::prelude::*;
use crate::path_data::chars_of;
use crate::path_data::string_of_range;
use crate::path_data::chars_equal;
use crate::text::{decimal, push_decimal, lemma_decimal_digits};

verus! {

/// The kinds of shape a project holds; any other type name is kept as is.
#[derive(Debug, Clone, PartialEq)]
pub enum ShapeType {
    Rect,
    Ellipse,
    Path,
    Group,
    Other(String),
}

/// What can go wrong while reading or writing project files.
#[derive(Debug)]
pub enum ConversionError {
    XmlParseError(String),
    XmlGenerateError(String),
    UnsupportedFormat(u8),
    UnsupportedShapeType(String),
    InvalidShapeData(String),
}

/// A command of a path, with the two vertex indices it joins.
#[derive(Debug, Clone, Copy, PartialEq, Eq, Structural)]
pub enum PathCommand {
    MoveTo(usize, usize),
    LineTo(usize, usize),
    BezierTo(usize, usize),
    Close,
}

/// The shape kind that a type name stands for.
pub fn shape_type_from_name(name: &str) -> (r: ShapeType)
    ensures
        (r is Rect) <==> name@ == "Rect"@,
        (r is Ellipse) <==> name@ == "Ellipse"@,
        (r is Path) <==> name@ == "Path"@,
        (r is Group) <==> name@ == "Group"@,
        r matches ShapeType::Other(s) ==> s@ == name@,
{
    proof {
        reveal_strlit("Rect");
        reveal_strlit("Ellipse");
        reveal_strlit("Path");
        reveal_strlit("Group");
        assert("Ellipse"@.len() != "Rect"@.len());
        assert("Path"@[0] != "Rect"@[0]);
        assert("Path"@.len() != "Ellipse"@.len());
        assert("Group"@.len() != "Rect"@.len());
        assert("Group"@.len() != "Ellipse"@.len());
        assert("Group"@.len() != "Path"@.len());
    }
    let v = chars_of(name);
    if chars_equal(&v, "Rect") {
        ShapeType::Rect
    } else if chars_equal(&v, "Ellipse") {
        ShapeType::Ellipse
    } else if chars_equal(&v, "Path") {
        ShapeType::Path
    } else if chars_equal(&v, "Group") {
        ShapeType::Group
    } else {
        ShapeType::Other(name.to_string())
    }
}

/// Unicode white space (the `White_Space` property), which separates the
/// commands of a command list.
pub open spec fn is_space(c: char) -> bool {
    ||| '\u{9}' <= c <= '\u{d}'
    ||| c == ' '
    ||| c == '\u{85}'
    ||| c == '\u{a0}'
    ||| c == '\u{1680}'
    ||| '\u{2000}' <= c <= '\u{200a}'
    ||| c == '\u{2028}'
    ||| c == '\u{2029}'
    ||| c == '\u{202f}'
    ||| c == '\u{205f}'
    ||| c == '\u{3000}'
}

fn is_space_char(c: char) -> (r: bool)
    ensures
        r == is_space(c),
{
    ('\u{9}' <= c && c <= '\u{d}') || c == ' ' || c == '\u{85}' || c == '\u{a0}' || c == '\u{1680}'
        || ('\u{2000}' <= c && c <= '\u{200a}') || c == '\u{2028}' || c == '\u{2029}' || c
        == '\u{202f}' || c == '\u{205f}' || c == '\u{3000}'
}

/// Index of the first white space at or after `i`, or the end.
pub open spec fn word_end(s: Seq<char>, i: int) -> int
    decreases s.len() - i,
{
    if i >= s.len() || is_space(s[i]) {
        i
    } else {
        word_end(s, i + 1)
    }
}

/// Index of the first non-white character at or after `i`, or the end.
pub open spec fn word_start(s: Seq<char>, i: int) -> int
    decreases s.len() - i,
{
    if i >= s.len() || !is_space(s[i]) {
        i
    } else {
        word_start(s, i + 1)
    }
}

/// The white-space separated words of `s` from position `i` on.
pub open spec fn words_from(s: Seq<char>, i: int) -> Seq<Seq<char>>
    decreases s.len() - i,
{
    let b = word_start(s, i);
    if i < 0 || b >= s.len() {
        seq![]
    } else {
        proof {
            lemma_word_start_bounds(s, i);
            lemma_word_end_bounds(s, b);
        }
        let e = word_end(s, b);
        if e <= b {
            seq![]
        } else {
            seq![s.subrange(b, e)] + words_from(s, e)
        }
    }
}

/// The white-space separated words of `s`.
pub open spec fn words(s: Seq<char>) -> Seq<Seq<char>> {
    words_from(s, 0)
}

pub proof fn lemma_word_start_bounds(s: Seq<char>, i: int)
    requires
        0 <= i,
    ensures
        i <= word_start(s, i),
        i <= s.len() ==> word_start(s, i) <= s.len(),
        word_start(s, i) < s.len() ==> !is_space(s[word_start(s, i)]),
        forall|k: int| i <= k < word_start(s, i) && k < s.len() ==> is_space(#[trigger] s[k]),
    decreases s.len() - i,
{
    if i < s.len() && is_space(s[i]) {
        lemma_word_start_bounds(s, i + 1);
    }
}

pub proof fn lemma_word_end_bounds(s: Seq<char>, i: int)
    requires
        0 <= i,
    ensures
        i <= word_end(s, i),
        i <= s.len() ==> word_end(s, i) <= s.len(),
        forall|k: int| i <= k < word_end(s, i) ==> !is_space(#[trigger] s[k]),
    decreases s.len() - i,
{
    if i < s.len() && !is_space(s[i]) {
        lemma_word_end_bounds(s, i + 1);
    }
}

/// A command list can be read when every word begins with an ASCII
/// character (a word that begins otherwise cannot be cut after its first
/// byte).
pub open spec fn prim_list_readable(s: Seq<char>) -> bool {
    forall|k: int| 0 <= k < words(s).len() ==> (#[trigger] words(s)[k])[0] < '\u{80}'
}

/// The commands a command list is read as: a word of one character gives
/// nothing; a longer word gives `Close` when it begins with `Z`. A word that
/// begins with `L`, `B` or `M` would need a space between its two indices,
/// which a word never holds, so it gives nothing either.
pub open spec fn commands_of_words(w: Seq<Seq<char>>) -> Seq<PathCommand>
    decreases w.len(),
{
    if w.len() == 0 {
        seq![]
    } else {
        let rest = commands_of_words(w.drop_first());
        if w[0].len() >= 2 && w[0][0] == 'Z' {
            seq![PathCommand::Close] + rest
        } else {
            rest
        }
    }
}

/// The commands a command list is read as (see `commands_of_words`).
pub open spec fn commands_of(s: Seq<char>) -> Seq<PathCommand> {
    commands_of_words(words(s))
}

proof fn lemma_commands_of_words_append(w: Seq<Seq<char>>, x: Seq<char>)
    ensures
        commands_of_words(w.push(x)) == commands_of_words(w) + commands_of_words(seq![x]),
    decreases w.len(),
{
    if w.len() == 0 {
        assert(w.push(x) =~= seq![x]);
    } else {
        assert(w.push(x).drop_first() =~= w.drop_first().push(x));
        lemma_commands_of_words_append(w.drop_first(), x);
        assert(commands_of_words(w.push(x)) =~= commands_of_words(w) + commands_of_words(seq![x]));
    }
}

proof fn lemma_commands_of_words_prefix(w: Seq<Seq<char>>, rest: Seq<Seq<char>>)
    ensures
        commands_of_words(w + rest) == commands_of_words(w) + commands_of_words(rest),
    decreases w.len(),
{
    if w.len() == 0 {
        assert(w + rest =~= rest);
        assert(commands_of_words(w) + commands_of_words(rest) =~= commands_of_words(rest));
    } else {
        assert((w + rest).drop_first() =~= w.drop_first() + rest);
        lemma_commands_of_words_prefix(w.drop_first(), rest);
        assert(commands_of_words(w + rest) =~= commands_of_words(w) + commands_of_words(rest));
    }
}

/// Reads the command list of a path (see `commands_of`).
pub fn parse_prim_list(prim_list: &str) -> (r: Vec<PathCommand>)
    requires
        prim_list_readable(prim_list@),
    ensures
        r@ == commands_of(prim_list@),
{
    let s = chars_of(prim_list);
    let n = s.len();
    let mut commands: Vec<PathCommand> = Vec::new();
    let mut i: usize = 0;
    let ghost mut seen: Seq<Seq<char>> = seq![];
    proof {
        assert(words(s@) =~= seen + words_from(s@, 0));
    }
    while i < n
        invariant
            s@ == prim_list@,
            n == s@.len(),
            i <= n,
            words(s@) == seen + words_from(s@, i as int),
            commands@ == commands_of_words(seen),
        decreases n - i,
    {
        proof {
            lemma_word_start_bounds(s@, i as int);
        }
        let mut b: usize = i;
        while b < n && is_space_char(s[b])
            invariant
                s@ == prim_list@,
                n == s@.len(),
                i <= b <= n,
                word_start(s@, i as int) == word_start(s@, b as int),
            decreases n - b,
        {
            b += 1;
        }
        if b >= n {
            proof {
                assert(words_from(s@, i as int) =~= seq![]);
            }
            i = n;
        } else {
            proof {
                lemma_word_end_bounds(s@, b as int);
            }
            let mut e: usize = b;
            while e < n && !is_space_char(s[e])
                invariant
                    s@ == prim_list@,
                    n == s@.len(),
                    b <= e <= n,
                    word_end(s@, b as int) == word_end(s@, e as int),
                decreases n - e,
            {
                e += 1;
            }
            let ghost w = s@.subrange(b as int, e as int);
            proof {
                assert(words_from(s@, i as int) == seq![w] + words_from(s@, e as int));
                assert(words(s@) == (seen + seq![w]) + words_from(s@, e as int)) by {
                    assert(seen + (seq![w] + words_from(s@, e as int)) =~= (seen + seq![w])
                        + words_from(s@, e as int));
                }
                lemma_commands_of_words_append(seen, w);
                reveal_with_fuel(commands_of_words, 2);
                assert(seq![w].drop_first() =~= Seq::<Seq<char>>::empty());
            }
            if e - b >= 2 && s[b] == 'Z' {
                commands.push(PathCommand::Close);
            }
            proof {
                assert(w.len() == e - b);
                assert(w.len() > 0 ==> w[0] == s@[b as int]);
                assert(seen.push(w) =~= seen + seq![w]);
                seen = seen + seq![w];
            }
            i = e;
        }
    }
    proof {
        assert(words_from(s@, n as int) =~= seq![]) by {
            lemma_word_start_bounds(s@, n as int);
        }
        assert(seen =~= words(s@));
    }
    commands
}

/// The text a command is written as: its letter, the two indices and a
/// space after each, or `Z` and a space.
pub open spec fn command_text(c: PathCommand) -> Seq<char> {
    match c {
        PathCommand::MoveTo(a, b) => seq!['M'] + decimal(a as nat) + seq![' '] + decimal(b as nat)
            + seq![' '],
        PathCommand::LineTo(a, b) => seq!['L'] + decimal(a as nat) + seq![' '] + decimal(b as nat)
            + seq![' '],
        PathCommand::BezierTo(a, b) => seq!['B'] + decimal(a as nat) + seq![' '] + decimal(
            b as nat,
        ) + seq![' '],
        PathCommand::Close => seq!['Z', ' '],
    }
}

/// The text a command list is written as: the texts of its commands, one
/// after another.
pub open spec fn commands_text(cs: Seq<PathCommand>) -> Seq<char>
    decreases cs.len(),
{
    if cs.len() == 0 {
        seq![]
    } else {
        commands_text(cs.drop_last()) + command_text(cs.last())
    }
}

/// Writes the command list of a path (see `commands_text`).
pub fn prim_list_text(commands: &Vec<PathCommand>) -> (r: String)
    ensures
        r@ == commands_text(commands@),
{
    let mut out: Vec<char> = Vec::new();
    let mut i: usize = 0;
    while i < commands.len()
        invariant
            i <= commands@.len(),
            out@ == commands_text(commands@.take(i as int)),
        decreases commands@.len() - i,
    {
        let ghost before = out@;
        match commands[i] {
            PathCommand::MoveTo(a, b) => {
                out.push('M');
                push_decimal(&mut out, a as u64);
                out.push(' ');
                push_decimal(&mut out, b as u64);
                out.push(' ');
            },
            PathCommand::LineTo(a, b) => {
                out.push('L');
                push_decimal(&mut out, a as u64);
                out.push(' ');
                push_decimal(&mut out, b as u64);
                out.push(' ');
            },
            PathCommand::BezierTo(a, b) => {
                out.push('B');
                push_decimal(&mut out, a as u64);
                out.push(' ');
                push_decimal(&mut out, b as u64);
                out.push(' ');
            },
            PathCommand::Close => {
                out.push('Z');
                out.push(' ');
            },
        }
        proof {
            assert(out@ =~= before + command_text(commands@[i as int]));
            assert(commands@.take(i + 1).drop_last() =~= commands@.take(i as int));
        }
        i += 1;
    }
    proof {
        assert(commands@.take(commands@.len() as int) =~= commands@);
    }
    let len = out.len();
    string_of_range(&out, 0, len)
}


/// Positions shift with a prefix: word starts in `a + b` past `a` are those
/// of `b`, moved by the length of `a`.
proof fn lemma_word_start_shift(a: Seq<char>, b: Seq<char>, j: int)
    requires
        0 <= j,
    ensures
        word_start(a + b, a.len() + j) == a.len() + word_start(b, j),
    decreases b.len() - j,
{
    if j < b.len() && is_space(b[j]) {
        lemma_word_start_shift(a, b, j + 1);
    }
}

proof fn lemma_word_end_shift(a: Seq<char>, b: Seq<char>, j: int)
    requires
        0 <= j,
    ensures
        word_end(a + b, a.len() + j) == a.len() + word_end(b, j),
    decreases b.len() - j,
{
    if j < b.len() && !is_space(b[j]) {
        lemma_word_end_shift(a, b, j + 1);
    }
}

proof fn lemma_words_from_shift(a: Seq<char>, b: Seq<char>, j: int)
    requires
        0 <= j,
    ensures
        words_from(a + b, a.len() + j) == words_from(b, j),
    decreases b.len() - j,
{
    let s = a + b;
    lemma_word_start_shift(a, b, j);
    lemma_word_start_bounds(b, j);
    let wb = word_start(b, j);
    if wb < b.len() {
        lemma_word_end_shift(a, b, wb);
        lemma_word_end_bounds(b, wb);
        let we = word_end(b, wb);
        if we > wb {
            lemma_words_from_shift(a, b, we);
            assert(s.subrange(a.len() + wb, a.len() + we) =~= b.subrange(wb, we));
        }
    }
}

/// Within `a`, word starts and ends do not look past a white space that
/// ends `a`.
proof fn lemma_word_start_prefix(a: Seq<char>, b: Seq<char>, i: int)
    requires
        0 <= i <= a.len(),
        a.len() > 0,
        is_space(a.last()),
    ensures
        word_start(a, i) < a.len() ==> word_start(a + b, i) == word_start(a, i),
        word_start(a, i) >= a.len() ==> word_start(a + b, i) == a.len() + word_start(b, 0),
    decreases a.len() - i,
{
    if i == a.len() {
        lemma_word_start_shift(a, b, 0);
    } else if is_space(a[i]) {
        lemma_word_start_prefix(a, b, i + 1);
    }
}

proof fn lemma_word_end_prefix(a: Seq<char>, b: Seq<char>, i: int)
    requires
        0 <= i < a.len(),
        is_space(a.last()),
    ensures
        word_end(a + b, i) == word_end(a, i),
        word_end(a, i) < a.len(),
    decreases a.len() - i,
{
    if !is_space(a[i]) {
        lemma_word_end_prefix(a, b, i + 1);
    }
}

/// The words of `a + b`, where `a` ends with white space, are those of `a`
/// followed by those of `b`.
proof fn lemma_words_from_concat(a: Seq<char>, b: Seq<char>, i: int)
    requires
        0 <= i <= a.len(),
        a.len() > 0,
        is_space(a.last()),
    ensures
        words_from(a + b, i) == words_from(a, i) + words(b),
    decreases a.len() - i,
{
    let s = a + b;
    lemma_word_start_prefix(a, b, i);
    lemma_word_start_bounds(a, i);
    let ws = word_start(a, i);
    if ws < a.len() {
        lemma_word_end_prefix(a, b, ws);
        lemma_word_end_bounds(a, ws);
        let we = word_end(a, ws);
        lemma_word_end_bounds(a, ws + 1);
        assert(we == word_end(a, ws + 1));
        lemma_words_from_concat(a, b, we);
        assert(s.subrange(ws, we) =~= a.subrange(ws, we));
        assert(words_from(s, i) == seq![a.subrange(ws, we)] + words_from(s, we));
        assert(words_from(a, i) == seq![a.subrange(ws, we)] + words_from(a, we));
        assert(seq![a.subrange(ws, we)] + (words_from(a, we) + words(b)) =~= (seq![a.subrange(ws, we)]
            + words_from(a, we)) + words(b));
    } else {
        assert(words_from(a, i) =~= Seq::<Seq<char>>::empty());
        lemma_word_start_shift(a, b, 0);
        lemma_word_start_bounds(b, 0);
        let bs = word_start(b, 0);
        if bs < b.len() {
            lemma_word_end_shift(a, b, bs);
            lemma_word_end_bounds(b, bs);
            let be = word_end(b, bs);
            lemma_words_from_shift(a, b, be);
            assert(s.subrange(a.len() + bs, a.len() + be) =~= b.subrange(bs, be));
        }
        assert(words_from(a, i) + words(b) =~= words(b));
    }
}

/// A word without white space, then one white space, is read as that word.
proof fn lemma_words_of_word_and_space(x: Seq<char>)
    requires
        x.len() > 0,
        forall|k: int| 0 <= k < x.len() ==> !is_space(#[trigger] x[k]),
    ensures
        words(x.push(' ')) == seq![x],
{
    let s = x.push(' ');
    lemma_word_end_bounds(s, 0);
    assert(word_end(s, 0) == x.len()) by {
        lemma_word_end_to(s, 0, x.len() as int);
    }
    assert(word_start(s, x.len() as int) == x.len() + 1) by {
        assert(word_start(s, x.len() + 1int) == x.len() + 1);
    }
    assert(words_from(s, x.len() as int) =~= Seq::<Seq<char>>::empty());
    assert(s.subrange(0, x.len() as int) =~= x);
}

proof fn lemma_word_end_to(s: Seq<char>, i: int, e: int)
    requires
        0 <= i <= e < s.len(),
        is_space(s[e]),
        forall|k: int| i <= k < e ==> !is_space(#[trigger] s[k]),
    ensures
        word_end(s, i) == e,
    decreases e - i,
{
    if i < e {
        lemma_word_end_to(s, i + 1, e);
    }
}

/// The words a written command is read as: none begins with `Z` unless it
/// is the single letter of a `Close`.
proof fn lemma_command_words(c: PathCommand)
    ensures
        commands_of_words(words(command_text(c))) == Seq::<PathCommand>::empty(),
        prim_list_readable(command_text(c)),
        command_text(c).len() > 0,
        is_space(command_text(c).last()),
{
    match c {
        PathCommand::Close => {
            let x = seq!['Z'];
            assert(command_text(c) =~= x.push(' '));
            lemma_words_of_word_and_space(x);
            reveal_with_fuel(commands_of_words, 2);
            assert(words(command_text(c))[0][0] == 'Z');
        },
        PathCommand::MoveTo(p, q) => {
            lemma_two_words(c, 'M', p, q);
        },
        PathCommand::LineTo(p, q) => {
            lemma_two_words(c, 'L', p, q);
        },
        PathCommand::BezierTo(p, q) => {
            lemma_two_words(c, 'B', p, q);
        },
    }
}

proof fn lemma_two_words(c: PathCommand, letter: char, p: usize, q: usize)
    requires
        letter == 'M' || letter == 'L' || letter == 'B',
        command_text(c) == seq![letter] + decimal(p as nat) + seq![' '] + decimal(q as nat) + seq![' '],
    ensures
        commands_of_words(words(command_text(c))) == Seq::<PathCommand>::empty(),
        prim_list_readable(command_text(c)),
        command_text(c).len() > 0,
        is_space(command_text(c).last()),
{
    lemma_decimal_digits(p as nat);
    lemma_decimal_digits(q as nat);
    let x = seq![letter] + decimal(p as nat);
    let y = decimal(q as nat);
    assert forall|k: int| 0 <= k < x.len() implies !is_space(#[trigger] x[k]) by {
        if k > 0 {
            assert(x[k] == decimal(p as nat)[k - 1]);
        }
    }
    assert forall|k: int| 0 <= k < y.len() implies !is_space(#[trigger] y[k]) by {
        assert('0' <= y[k] <= '9');
    }
    lemma_words_of_word_and_space(x);
    lemma_words_of_word_and_space(y);
    assert(command_text(c) =~= x.push(' ') + y.push(' '));
    lemma_words_from_concat(x.push(' '), y.push(' '), 0);
    assert(words(command_text(c)) =~= seq![x, y]);
    assert(x[0] == letter);
    assert('0' <= y[0] <= '9');
    reveal_with_fuel(commands_of_words, 3);
    assert(seq![x, y].drop_first() =~= seq![y]);
    assert(seq![y].drop_first() =~= Seq::<Seq<char>>::empty());
    assert(words(command_text(c))[1][0] == y[0]);
}

/// Reading back a written command list gives no commands: the writer puts a
/// space between a command's letter-and-first-index and its second index,
/// and writes `Close` as a one-letter word, so no word is read as a command.
pub proof fn lemma_written_prim_list_reads_empty(cs: Seq<PathCommand>)
    ensures
        prim_list_readable(commands_text(cs)),
        commands_of(commands_text(cs)) == Seq::<PathCommand>::empty(),
        cs.len() > 0 ==> commands_text(cs).len() > 0 && is_space(commands_text(cs).last()),
    decreases cs.len(),
{
    if cs.len() > 0 {
        let pre = commands_text(cs.drop_last());
        let t = command_text(cs.last());
        lemma_written_prim_list_reads_empty(cs.drop_last());
        lemma_command_words(cs.last());
        if cs.drop_last().len() == 0 {
            assert(pre =~= Seq::<char>::empty());
            assert(commands_text(cs) =~= t);
        } else {
            lemma_words_from_concat(pre, t, 0);
            lemma_commands_of_words_prefix(words(pre), words(t));
            assert forall|k: int| 0 <= k < words(commands_text(cs)).len() implies (#[trigger] words(
                commands_text(cs),
            )[k])[0] < '\u{80}' by {
                if k < words(pre).len() {
                    assert(words(commands_text(cs))[k] == words(pre)[k]);
                } else {
                    assert(words(commands_text(cs))[k] == words(t)[k - words(pre).len()]);
                }
            }
            assert(Seq::<PathCommand>::empty() + Seq::<PathCommand>::empty() =~= Seq::<PathCommand>::empty());
        }
    } else {
        assert(words(Seq::<char>::empty()) =~= Seq::<Seq<char>>::empty());
    }
}

} // verus!
