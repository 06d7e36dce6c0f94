//! The mathematical model of the log format: one record per line, each line
//! a tagged text object with fields `type`, `key` and, for `Set`, `value`.
//! Keys and values are written as quoted strings with backslash escapes, so
//! a record never spans more than one line and any text can be stored.
//!
//! This module holds the specification functions for encoding and decoding,
//! and the proofs that decoding inverts encoding. The executable codec in
//! `kv_store` is verified against these functions.

use vstd::prelude::*;

verus! {

/// The model of a command: what a `Command` value denotes, with text as
/// character sequences.
pub enum CommandModel {
    Get { key: Seq<char> },
    Put { key: Seq<char>, value: Seq<char> },
    Rm { key: Seq<char> },
}

/// The opening of a `Set` record, up to and including the quote that opens
/// the key.
pub open spec fn set_prefix() -> Seq<char> {
    "{\"type\":\"Set\",\"key\":\""@
}

/// The opening of an `Rm` record.
pub open spec fn rm_prefix() -> Seq<char> {
    "{\"type\":\"Rm\",\"key\":\""@
}

/// The opening of a `Get` record. `Get` records are recognized by the
/// decoder only to be rejected: the log holds mutations alone.
pub open spec fn get_prefix() -> Seq<char> {
    "{\"type\":\"Get\",\"key\":\""@
}

/// Between the quote that closes the key and the quote that opens the value.
pub open spec fn value_sep() -> Seq<char> {
    ",\"value\":\""@
}

/// The hexadecimal digit for a value below sixteen, in lower case.
pub open spec fn hex_digit(d: u32) -> char {
    if d == 0 {
        '0'
    } else if d == 1 {
        '1'
    } else if d == 2 {
        '2'
    } else if d == 3 {
        '3'
    } else if d == 4 {
        '4'
    } else if d == 5 {
        '5'
    } else if d == 6 {
        '6'
    } else if d == 7 {
        '7'
    } else if d == 8 {
        '8'
    } else if d == 9 {
        '9'
    } else if d == 10 {
        'a'
    } else if d == 11 {
        'b'
    } else if d == 12 {
        'c'
    } else if d == 13 {
        'd'
    } else if d == 14 {
        'e'
    } else {
        'f'
    }
}

/// The numeric value of a hexadecimal digit, upper or lower case.
pub open spec fn hex_val(c: char) -> Option<u32> {
    if c == '0' {
        Some(0u32)
    } else if c == '1' {
        Some(1u32)
    } else if c == '2' {
        Some(2u32)
    } else if c == '3' {
        Some(3u32)
    } else if c == '4' {
        Some(4u32)
    } else if c == '5' {
        Some(5u32)
    } else if c == '6' {
        Some(6u32)
    } else if c == '7' {
        Some(7u32)
    } else if c == '8' {
        Some(8u32)
    } else if c == '9' {
        Some(9u32)
    } else if c == 'a' || c == 'A' {
        Some(10u32)
    } else if c == 'b' || c == 'B' {
        Some(11u32)
    } else if c == 'c' || c == 'C' {
        Some(12u32)
    } else if c == 'd' || c == 'D' {
        Some(13u32)
    } else if c == 'e' || c == 'E' {
        Some(14u32)
    } else if c == 'f' || c == 'F' {
        Some(15u32)
    } else {
        None
    }
}

/// How one character is written inside a quoted string: quotes, backslashes
/// and control characters are escaped, everything else stands for itself.
pub open spec fn escape_char(c: char) -> Seq<char> {
    if c == '"' {
        seq!['\\', '"']
    } else if c == '\\' {
        seq!['\\', '\\']
    } else if c == '\n' {
        seq!['\\', 'n']
    } else if c == '\r' {
        seq!['\\', 'r']
    } else if c == '\t' {
        seq!['\\', 't']
    } else if c == '\u{8}' {
        seq!['\\', 'b']
    } else if c == '\u{c}' {
        seq!['\\', 'f']
    } else if (c as u32) < 0x20 {
        seq!['\\', 'u', '0', '0', hex_digit((c as u32) / 16), hex_digit((c as u32) % 16)]
    } else {
        seq![c]
    }
}

/// The escaped form of a whole text.
pub open spec fn escape_seq(s: Seq<char>) -> Seq<char>
    decreases s.len(),
{
    if s.len() == 0 {
        Seq::empty()
    } else {
        escape_char(s[0]) + escape_seq(s.drop_first())
    }
}

/// The one-line record that a command is written as.
pub open spec fn encode_command(c: CommandModel) -> Seq<char> {
    match c {
        CommandModel::Put { key, value } => set_prefix() + escape_seq(key) + seq!['"']
            + value_sep() + escape_seq(value) + seq!['"', '}'],
        CommandModel::Rm { key } => rm_prefix() + escape_seq(key) + seq!['"', '}'],
        CommandModel::Get { key } => get_prefix() + escape_seq(key) + seq!['"', '}'],
    }
}

/// A sequence of commands as log text: one record per line, each line
/// terminated by a newline.
pub open spec fn encode_commands(cs: Seq<CommandModel>) -> Seq<char>
    decreases cs.len(),
{
    if cs.len() == 0 {
        Seq::empty()
    } else {
        encode_command(cs[0]) + seq!['\n'] + encode_commands(cs.drop_first())
    }
}

/// The character an escape letter stands for, for the two-character escapes.
pub open spec fn unescape_char(e: char) -> Option<char> {
    if e == '"' {
        Some('"')
    } else if e == '\\' {
        Some('\\')
    } else if e == '/' {
        Some('/')
    } else if e == 'n' {
        Some('\n')
    } else if e == 'r' {
        Some('\r')
    } else if e == 't' {
        Some('\t')
    } else if e == 'b' {
        Some('\u{8}')
    } else if e == 'f' {
        Some('\u{c}')
    } else {
        None
    }
}

/// Reads a quoted string body from the front of `s` (the opening quote
/// already consumed) up to and including the closing quote. Returns the
/// decoded text and the number of characters consumed. Fails on an
/// unterminated string, an unknown escape, a surrogate code, or a bare
/// control character.
pub open spec fn parse_string(s: Seq<char>) -> Option<(Seq<char>, int)>
    decreases s.len(),
{
    if s.len() == 0 {
        None
    } else if s[0] == '"' {
        Some((Seq::empty(), 1))
    } else if s[0] == '\\' {
        if s.len() < 2 {
            None
        } else if s[1] == 'u' {
            if s.len() < 6 {
                None
            } else {
                match (hex_val(s[2]), hex_val(s[3]), hex_val(s[4]), hex_val(s[5])) {
                    (Some(h3), Some(h2), Some(h1), Some(h0)) => {
                        let code = h3 * 0x1000 + h2 * 0x100 + h1 * 0x10 + h0;
                        if 0xD800 <= code < 0xE000 {
                            None
                        } else {
                            match parse_string(s.skip(6)) {
                                Some((t, n)) => Some((seq![code as char] + t, 6 + n)),
                                None => None,
                            }
                        }
                    },
                    _ => None,
                }
            }
        } else {
            match unescape_char(s[1]) {
                Some(d) => match parse_string(s.skip(2)) {
                    Some((t, n)) => Some((seq![d] + t, 2 + n)),
                    None => None,
                },
                None => None,
            }
        }
    } else if (s[0] as u32) < 0x20 {
        None
    } else {
        match parse_string(s.skip(1)) {
            Some((t, n)) => Some((seq![s[0]] + t, 1 + n)),
            None => None,
        }
    }
}

/// Whether `s` begins with `p`.
pub open spec fn starts_with(s: Seq<char>, p: Seq<char>) -> bool {
    p.len() <= s.len() && s.take(p.len() as int) == p
}

/// Reads one whole record line (already trimmed). The line must be consumed
/// completely; `Get` records are recognized here and rejected by the decoder.
pub open spec fn parse_line(s: Seq<char>) -> Option<CommandModel> {
    if starts_with(s, set_prefix()) {
        match parse_string(s.skip(set_prefix().len() as int)) {
            Some((key, n)) => {
                let rest = s.skip(set_prefix().len() + n);
                if starts_with(rest, value_sep()) {
                    match parse_string(rest.skip(value_sep().len() as int)) {
                        Some((value, m)) => {
                            if rest.skip(value_sep().len() + m) == seq!['}'] {
                                Some(CommandModel::Put { key, value })
                            } else {
                                None
                            }
                        },
                        None => None,
                    }
                } else {
                    None
                }
            },
            None => None,
        }
    } else if starts_with(s, rm_prefix()) {
        match parse_string(s.skip(rm_prefix().len() as int)) {
            Some((key, n)) => {
                if s.skip(rm_prefix().len() + n) == seq!['}'] {
                    Some(CommandModel::Rm { key })
                } else {
                    None
                }
            },
            None => None,
        }
    } else if starts_with(s, get_prefix()) {
        match parse_string(s.skip(get_prefix().len() as int)) {
            Some((key, n)) => {
                if s.skip(get_prefix().len() + n) == seq!['}'] {
                    Some(CommandModel::Get { key })
                } else {
                    None
                }
            },
            None => None,
        }
    } else {
        None
    }
}

/// The whitespace characters that line trimming removes.
pub open spec fn is_ws(c: char) -> bool {
    c == ' ' || c == '\t' || c == '\n' || c == '\r' || c == '\u{b}' || c == '\u{c}'
}

/// `s` without leading whitespace.
pub open spec fn trim_front(s: Seq<char>) -> Seq<char>
    decreases s.len(),
{
    if s.len() > 0 && is_ws(s[0]) {
        trim_front(s.drop_first())
    } else {
        s
    }
}

/// `s` without trailing whitespace.
pub open spec fn trim_back(s: Seq<char>) -> Seq<char>
    decreases s.len(),
{
    if s.len() > 0 && is_ws(s[s.len() - 1]) {
        trim_back(s.drop_last())
    } else {
        s
    }
}

/// `s` without leading or trailing whitespace.
pub open spec fn trim(s: Seq<char>) -> Seq<char> {
    trim_back(trim_front(s))
}

/// The position of the first newline in `t`, or `t.len()` if there is none.
pub open spec fn find_nl(t: Seq<char>) -> int
    decreases t.len(),
{
    if t.len() == 0 {
        0
    } else if t[0] == '\n' {
        0
    } else {
        1 + find_nl(t.drop_first())
    }
}

/// `t` cut at every newline. The terminators are not part of the pieces;
/// text with no newline is a single piece.
pub open spec fn split_lines(t: Seq<char>) -> Seq<Seq<char>>
    decreases t.len(),
{
    let i = find_nl(t);
    if 0 <= i < t.len() {
        seq![t.take(i)] + split_lines(t.skip(i + 1))
    } else {
        seq![t]
    }
}

/// Why a log text was rejected.
pub enum DecodeErr {
    /// A non-blank line is not a well-formed record.
    Malformed { line: Seq<char> },
    /// A line decodes to a `Get`, which must never stand in the log.
    GetForbidden,
}

/// Decodes trimmed lines in order, skipping blank ones; the first offending
/// line fails the whole batch.
pub open spec fn decode_lines(ls: Seq<Seq<char>>) -> Result<Seq<CommandModel>, DecodeErr>
    decreases ls.len(),
{
    if ls.len() == 0 {
        Ok(seq![])
    } else {
        let l = trim(ls[0]);
        if l.len() == 0 {
            decode_lines(ls.drop_first())
        } else {
            match parse_line(l) {
                None => Err(DecodeErr::Malformed { line: l }),
                Some(c) => if c is Get {
                    Err(DecodeErr::GetForbidden)
                } else {
                    match decode_lines(ls.drop_first()) {
                        Ok(cs) => Ok(seq![c] + cs),
                        Err(e) => Err(e),
                    }
                },
            }
        }
    }
}

/// The meaning of a whole log text: the sequence of mutations it holds,
/// or the reason it is rejected.
pub open spec fn decode_text(t: Seq<char>) -> Result<Seq<CommandModel>, DecodeErr> {
    decode_lines(split_lines(t))
}

/// Escaping a concatenation escapes the parts.
pub proof fn lemma_escape_seq_add(a: Seq<char>, b: Seq<char>)
    ensures
        escape_seq(a + b) == escape_seq(a) + escape_seq(b),
    decreases a.len(),
{
    if a.len() == 0 {
        assert(a + b =~= b);
        assert(escape_seq(a) + escape_seq(b) =~= escape_seq(b));
    } else {
        assert((a + b).drop_first() =~= a.drop_first() + b);
        lemma_escape_seq_add(a.drop_first(), b);
        assert(escape_seq(a + b) =~= escape_seq(a) + escape_seq(b));
    }
}

/// Escaping one more character extends the escaped text.
pub proof fn lemma_escape_seq_push(s: Seq<char>, i: int)
    requires
        0 <= i < s.len(),
    ensures
        escape_seq(s.take(i + 1)) == escape_seq(s.take(i)) + escape_char(s[i]),
{
    assert(s.take(i + 1) =~= s.take(i) + seq![s[i]]);
    lemma_escape_seq_add(s.take(i), seq![s[i]]);
    assert(seq![s[i]].drop_first() =~= Seq::<char>::empty());
    assert(escape_seq(seq![s[i]]) =~= escape_char(s[i]) + escape_seq(Seq::<char>::empty()));
    assert(escape_char(s[i]) + Seq::<char>::empty() =~= escape_char(s[i]));
}

/// A hexadecimal digit reads back as its value.
pub proof fn lemma_hex_round_trip(d: u32)
    requires
        d < 16,
    ensures
        hex_val(hex_digit(d)) == Some(d),
{
}

/// Reading a quoted string inverts escaping: the escaped text followed by a
/// closing quote and anything after it parses back to the original text,
/// consuming exactly the escaped text and the quote.
pub proof fn lemma_parse_escaped(t: Seq<char>, rest: Seq<char>)
    ensures
        parse_string(escape_seq(t) + seq!['"'] + rest) == Some(
            (t, escape_seq(t).len() + 1 as int),
        ),
    decreases t.len(),
{
    let s = escape_seq(t) + seq!['"'] + rest;
    if t.len() == 0 {
        assert(s[0] == '"');
    } else {
        let c = t[0];
        let t2 = t.drop_first();
        let e = escape_char(c);
        lemma_parse_escaped(t2, rest);
        assert(escape_seq(t) == e + escape_seq(t2));
        let s2 = escape_seq(t2) + seq!['"'] + rest;
        assert(s =~= e + s2);
        assert(forall|j: int| 0 <= j < e.len() ==> s[j] == e[j]);
        assert(s.skip(e.len() as int) =~= s2);
        if c == '"' || c == '\\' || c == '\n' || c == '\r' || c == '\t' || c == '\u{8}' || c
            == '\u{c}' {
            assert(s[0] == '\\');
            assert(unescape_char(s[1]) == Some(c));
            assert(s.skip(2) =~= s2);
            assert(seq![c] + t2 =~= t);
        } else if (c as u32) < 0x20 {
            assert(s[0] == '\\' && s[1] == 'u' && s[2] == '0' && s[3] == '0');
            let hi = (c as u32) / 16;
            let lo = (c as u32) % 16;
            lemma_hex_round_trip(hi);
            lemma_hex_round_trip(lo);
            assert(s[4] == hex_digit(hi) && s[5] == hex_digit(lo));
            let code = 0 * 0x1000 + 0 * 0x100 + hi * 0x10 + lo;
            assert(code == c as u32);
            assert(!(0xD800 <= code < 0xE000));
            vstd::utf8::char_u32_cast(c, c as u32);
            assert((code as char) == c);
            assert(s.skip(6) =~= s2);
            assert(seq![c] + t2 =~= t);
        } else {
            assert(e =~= seq![c]);
            assert(s[0] == c);
            assert(s[0] != '"' && s[0] != '\\' && !((s[0] as u32) < 0x20));
            assert(s.skip(1) =~= s2);
            assert(seq![c] + t2 =~= t);
        }
    }
}

/// The effect of one command on a mapping: `Set` overwrites the key, `Rm`
/// deletes it (an absent key is deleted silently), and `Get` changes nothing.
pub open spec fn apply_model(
    m: Map<Seq<char>, Seq<char>>,
    c: CommandModel,
) -> Map<Seq<char>, Seq<char>> {
    match c {
        CommandModel::Get { key } => m,
        CommandModel::Put { key, value } => m.insert(key, value),
        CommandModel::Rm { key } => m.remove(key),
    }
}

/// The mapping that a command sequence builds from the empty one: the
/// meaning of a whole log.
pub open spec fn replay(cs: Seq<CommandModel>) -> Map<Seq<char>, Seq<char>>
    decreases cs.len(),
{
    if cs.len() == 0 {
        Map::empty()
    } else {
        apply_model(replay(cs.drop_last()), cs.last())
    }
}

/// Replaying one more command applies it to the replayed mapping.
pub proof fn lemma_replay_push(cs: Seq<CommandModel>, c: CommandModel)
    ensures
        replay(cs.push(c)) == apply_model(replay(cs), c),
{
    assert(cs.push(c).drop_last() =~= cs);
    assert(cs.push(c).last() == c);
}

/// A decoded log never holds a `Get`.
pub proof fn lemma_decode_lines_no_get(ls: Seq<Seq<char>>)
    ensures
        decode_lines(ls) matches Ok(cs) ==> forall|i: int|
            0 <= i < cs.len() ==> !(#[trigger] cs[i] is Get),
    decreases ls.len(),
{
    if ls.len() > 0 {
        lemma_decode_lines_no_get(ls.drop_first());
        let l = trim(ls[0]);
        if l.len() != 0 && decode_lines(ls) is Ok {
            let c = parse_line(l)->Some_0;
            let tail = decode_lines(ls.drop_first())->Ok_0;
            assert(decode_lines(ls)->Ok_0 == seq![c] + tail);
            assert(forall|i: int|
                1 <= i < (seq![c] + tail).len() ==> (seq![c] + tail)[i] == tail[i - 1]);
        }
    }
}

/// Whether a text is free of newlines, so that it fits on one log line.
pub open spec fn no_nl(s: Seq<char>) -> bool {
    forall|j: int| 0 <= j < s.len() ==> s[j] != '\n'
}

/// Escaping one character never produces a newline.
pub proof fn lemma_escape_char_no_nl(c: char)
    ensures
        no_nl(escape_char(c)),
{
}

/// Escaped text never holds a newline: a record stays on its line whatever
/// the key and value hold.
pub proof fn lemma_escape_seq_no_nl(s: Seq<char>)
    ensures
        no_nl(escape_seq(s)),
    decreases s.len(),
{
    if s.len() > 0 {
        lemma_escape_char_no_nl(s[0]);
        lemma_escape_seq_no_nl(s.drop_first());
        let e = escape_char(s[0]);
        let r = escape_seq(s.drop_first());
        assert forall|j: int| 0 <= j < escape_seq(s).len() implies escape_seq(s)[j] != '\n' by {
            if j >= e.len() {
                assert(escape_seq(s)[j] == r[j - e.len()]);
            }
        }
    }
}

/// A record line never holds a newline.
pub proof fn lemma_encode_command_no_nl(c: CommandModel)
    ensures
        no_nl(encode_command(c)),
{
    reveal_strlit("{\"type\":\"Set\",\"key\":\"");
    reveal_strlit("{\"type\":\"Rm\",\"key\":\"");
    reveal_strlit("{\"type\":\"Get\",\"key\":\"");
    reveal_strlit(",\"value\":\"");
    match c {
        CommandModel::Put { key, value } => {
            lemma_escape_seq_no_nl(key);
            lemma_escape_seq_no_nl(value);
        },
        CommandModel::Rm { key } => {
            lemma_escape_seq_no_nl(key);
        },
        CommandModel::Get { key } => {
            lemma_escape_seq_no_nl(key);
        },
    }
}

/// Where the first newline of a text stands, characterized without recursion.
pub proof fn lemma_find_nl_at(s: Seq<char>, k: int)
    requires
        0 <= k <= s.len(),
        forall|j: int| 0 <= j < k ==> s[j] != '\n',
        k < s.len() ==> s[k] == '\n',
    ensures
        find_nl(s) == k,
    decreases s.len(),
{
    if k == 0 {
    } else {
        assert(s[0] != '\n');
        lemma_find_nl_at(s.drop_first(), k - 1);
    }
}

/// Splitting takes off the first line: a newline-free piece, a newline, and
/// the rest split as before.
pub proof fn lemma_split_first_line(a: Seq<char>, b: Seq<char>)
    requires
        no_nl(a),
    ensures
        split_lines(a + seq!['\n'] + b) == seq![a] + split_lines(b),
{
    let t = a + seq!['\n'] + b;
    assert(forall|j: int| 0 <= j < a.len() ==> t[j] == a[j]);
    assert(t[a.len() as int] == '\n');
    lemma_find_nl_at(t, a.len() as int);
    assert(t.take(a.len() as int) =~= a);
    assert(t.skip(a.len() + 1 as int) =~= b);
}

/// Trimming the front removes exactly the leading whitespace.
pub proof fn lemma_trim_front_at(s: Seq<char>, a: int)
    requires
        0 <= a <= s.len(),
        forall|j: int| 0 <= j < a ==> is_ws(s[j]),
        a < s.len() ==> !is_ws(s[a]),
    ensures
        trim_front(s) == s.skip(a),
    decreases a,
{
    if a == 0 {
        assert(s.skip(0) =~= s);
    } else {
        assert(is_ws(s[0]));
        lemma_trim_front_at(s.drop_first(), a - 1);
        assert(s.drop_first().skip(a - 1) =~= s.skip(a));
    }
}

/// Trimming the back removes exactly the trailing whitespace.
pub proof fn lemma_trim_back_at(s: Seq<char>, b: int)
    requires
        0 <= b <= s.len(),
        forall|j: int| b <= j < s.len() ==> is_ws(s[j]),
        b > 0 ==> !is_ws(s[b - 1]),
    ensures
        trim_back(s) == s.take(b),
    decreases s.len(),
{
    if b == s.len() {
        assert(s.take(b) =~= s);
    } else {
        assert(is_ws(s[s.len() - 1]));
        lemma_trim_back_at(s.drop_last(), b);
        assert(s.drop_last().take(b) =~= s.take(b));
    }
}

/// Trimming keeps exactly the characters between the first and last
/// non-whitespace positions.
pub proof fn lemma_trim_range(s: Seq<char>, a: int, b: int)
    requires
        0 <= a <= b <= s.len(),
        forall|j: int| 0 <= j < a ==> is_ws(s[j]),
        forall|j: int| b <= j < s.len() ==> is_ws(s[j]),
        a < b ==> !is_ws(s[a]) && !is_ws(s[b - 1]),
        a == b ==> a == s.len(),
    ensures
        trim(s) == s.subrange(a, b),
{
    lemma_trim_front_at(s, a);
    let s2 = s.skip(a);
    assert(forall|j: int| b - a <= j < s2.len() ==> is_ws(#[trigger] s2[j]));
    lemma_trim_back_at(s2, b - a);
    assert(s.skip(a).take(b - a) =~= s.subrange(a, b));
}

/// A record line reads back as the command it was written from.
#[verifier::rlimit(50)]
pub proof fn lemma_parse_encode_command(c: CommandModel)
    ensures
        parse_line(encode_command(c)) == Some(c),
{
    reveal_strlit("{\"type\":\"Set\",\"key\":\"");
    reveal_strlit("{\"type\":\"Rm\",\"key\":\"");
    reveal_strlit("{\"type\":\"Get\",\"key\":\"");
    reveal_strlit(",\"value\":\"");
    let line = encode_command(c);
    match c {
        CommandModel::Put { key, value } => {
            let rest1 = value_sep() + escape_seq(value) + seq!['"', '}'];
            assert(line =~= set_prefix() + (escape_seq(key) + seq!['"'] + rest1));
            assert(line.take(set_prefix().len() as int) =~= set_prefix());
            assert(starts_with(line, set_prefix()));
            assert(line.skip(set_prefix().len() as int) =~= escape_seq(key) + seq!['"'] + rest1);
            lemma_parse_escaped(key, rest1);
            let n = escape_seq(key).len() + 1 as int;
            assert(parse_string(line.skip(set_prefix().len() as int)) == Some((key, n)));
            assert(line.skip(set_prefix().len() + n) =~= rest1);
            assert(rest1.take(value_sep().len() as int) =~= value_sep());
            assert(starts_with(rest1, value_sep()));
            lemma_parse_escaped(value, seq!['}']);
            assert(rest1.skip(value_sep().len() as int) =~= escape_seq(value) + seq!['"'] + seq![
                '}',
            ]);
            let m = escape_seq(value).len() + 1 as int;
            assert(parse_string(rest1.skip(value_sep().len() as int)) == Some((value, m)));
            assert(rest1.skip(value_sep().len() + m) =~= seq!['}']);
        },
        CommandModel::Rm { key } => {
            assert(line =~= rm_prefix() + (escape_seq(key) + seq!['"'] + seq!['}']));
            if starts_with(line, set_prefix()) {
                assert(line.take(set_prefix().len() as int)[9] == line[9]);
                assert(line[9] == rm_prefix()[9]);
                assert(false);
            }
            assert(line.take(rm_prefix().len() as int) =~= rm_prefix());
            assert(starts_with(line, rm_prefix()));
            lemma_parse_escaped(key, seq!['}']);
            assert(line.skip(rm_prefix().len() as int) =~= escape_seq(key) + seq!['"'] + seq![
                '}',
            ]);
            let n = escape_seq(key).len() + 1 as int;
            assert(parse_string(line.skip(rm_prefix().len() as int)) == Some((key, n)));
            assert(line.skip(rm_prefix().len() + n) =~= seq!['}']);
        },
        CommandModel::Get { key } => {
            assert(line =~= get_prefix() + (escape_seq(key) + seq!['"'] + seq!['}']));
            if starts_with(line, set_prefix()) {
                assert(line.take(set_prefix().len() as int)[9] == line[9]);
                assert(line[9] == get_prefix()[9]);
                assert(false);
            }
            if starts_with(line, rm_prefix()) {
                assert(line.take(rm_prefix().len() as int)[9] == line[9]);
                assert(line[9] == get_prefix()[9]);
                assert(false);
            }
            assert(line.take(get_prefix().len() as int) =~= get_prefix());
            assert(starts_with(line, get_prefix()));
            lemma_parse_escaped(key, seq!['}']);
            assert(line.skip(get_prefix().len() as int) =~= escape_seq(key) + seq!['"'] + seq![
                '}',
            ]);
            let n = escape_seq(key).len() + 1 as int;
            assert(parse_string(line.skip(get_prefix().len() as int)) == Some((key, n)));
            assert(line.skip(get_prefix().len() + n) =~= seq!['}']);
        },
    }
}

/// A record line is left whole by trimming: it starts with a brace and ends
/// with one.
pub proof fn lemma_encode_command_trim(c: CommandModel)
    ensures
        encode_command(c).len() > 0,
        trim(encode_command(c)) == encode_command(c),
{
    reveal_strlit("{\"type\":\"Set\",\"key\":\"");
    reveal_strlit("{\"type\":\"Rm\",\"key\":\"");
    reveal_strlit("{\"type\":\"Get\",\"key\":\"");
    let line = encode_command(c);
    assert(line[0] == '{');
    assert(line[line.len() - 1] == '}');
    assert(trim_front(line) == line);
    assert(trim_back(line) == line);
}

/// Round trip: decoding a log text written from any sequence of mutations
/// yields exactly that sequence.
pub proof fn lemma_round_trip(cs: Seq<CommandModel>)
    requires
        forall|i: int| 0 <= i < cs.len() ==> !(#[trigger] cs[i] is Get),
    ensures
        decode_text(encode_commands(cs)) == Ok::<_, DecodeErr>(cs),
    decreases cs.len(),
{
    if cs.len() == 0 {
        let t = encode_commands(cs);
        assert(t =~= Seq::<char>::empty());
        assert(find_nl(t) == 0 && t.len() == 0);
        assert(split_lines(t) =~= seq![t]);
        assert(trim_front(t) == t);
        assert(trim_back(t) == t);
        assert(seq![t].drop_first() =~= Seq::<Seq<char>>::empty());
        assert(decode_lines(seq![t]) == decode_lines(Seq::<Seq<char>>::empty()));
        assert(decode_text(encode_commands(cs)) == Ok::<_, DecodeErr>(Seq::<
            CommandModel,
        >::empty()));
        assert(cs =~= Seq::<CommandModel>::empty());
    } else {
        let line = encode_command(cs[0]);
        let rest = encode_commands(cs.drop_first());
        lemma_encode_command_no_nl(cs[0]);
        lemma_split_first_line(line, rest);
        lemma_encode_command_trim(cs[0]);
        lemma_parse_encode_command(cs[0]);
        lemma_round_trip(cs.drop_first());
        let ls = split_lines(encode_commands(cs));
        assert(ls == seq![line] + split_lines(rest));
        assert(ls[0] == line);
        assert(ls.drop_first() =~= split_lines(rest));
        assert(!(cs[0] is Get));
        let tail = decode_lines(split_lines(rest));
        assert(tail == Ok::<_, DecodeErr>(cs.drop_first()));
        assert(decode_lines(ls) == Ok::<_, DecodeErr>(seq![cs[0]] + cs.drop_first()));
        assert(seq![cs[0]] + cs.drop_first() =~= cs);
    }
}

} // verus!
