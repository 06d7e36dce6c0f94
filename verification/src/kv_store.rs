//! Commands, responses, and the executable log codec, verified against the
//! model in `codec`; and the log-structured store itself.

use vstd::prelude::*;

use crate::codec::{
    CommandModel, DecodeErr, apply_model, decode_lines, decode_text, encode_command,
    encode_commands, escape_char, escape_seq, find_nl, get_prefix, hex_digit, hex_val, is_ws,
    lemma_decode_lines_no_get, lemma_escape_seq_push, lemma_find_nl_at, lemma_replay_push,
    lemma_round_trip, lemma_trim_range, parse_line, parse_string, replay, rm_prefix, set_prefix,
    split_lines, starts_with, trim, trim_back, trim_front, unescape_char, value_sep,
};
use crate::err::Error;
use crate::kv_map::{KvMap, convert_map_to_commands};
use crate::text::{char_from_code, chars_to_string, push_str_chars, str_to_chars};

verus! {

/// The name of the log file inside a working directory.
pub const DEFAULT_FILE_NAME: &'static str = "kvs.db";

/// The log record and operation union. `Get` is query-only: it must never
/// stand in the persisted log, and the codec refuses it.
///
/// The mutating variant is named `Put` here; it is written to the log as a
/// `Set` record, and the wire protocol's `SET` verb parses to it.
#[derive(Debug, PartialEq, Clone)]
pub enum Command {
    Get { key: String },
    Put { key: String, value: String },
    Rm { key: String },
}

impl View for Command {
    type V = CommandModel;

    open spec fn view(&self) -> CommandModel {
        match self {
            Command::Get { key } => CommandModel::Get { key: key@ },
            Command::Put { key, value } => CommandModel::Put { key: key@, value: value@ },
            Command::Rm { key } => CommandModel::Rm { key: key@ },
        }
    }
}

/// The models of a command sequence.
pub open spec fn cmds_view(cs: Seq<Command>) -> Seq<CommandModel> {
    cs.map_values(|c: Command| c@)
}

/// The hexadecimal digit character for a value below sixteen.
fn hex_digit_exec(d: u32) -> (r: char)
    requires
        d < 16,
    ensures
        r == hex_digit(d),
{
    match d {
        0 => '0',
        1 => '1',
        2 => '2',
        3 => '3',
        4 => '4',
        5 => '5',
        6 => '6',
        7 => '7',
        8 => '8',
        9 => '9',
        10 => 'a',
        11 => 'b',
        12 => 'c',
        13 => 'd',
        14 => 'e',
        _ => 'f',
    }
}

/// Appends the escaped form of one character.
fn push_escaped_char(out: &mut Vec<char>, c: char)
    ensures
        final(out)@ == old(out)@ + escape_char(c),
{
    if c == '"' {
        out.push('\\');
        out.push('"');
    } else if c == '\\' {
        out.push('\\');
        out.push('\\');
    } else if c == '\n' {
        out.push('\\');
        out.push('n');
    } else if c == '\r' {
        out.push('\\');
        out.push('r');
    } else if c == '\t' {
        out.push('\\');
        out.push('t');
    } else if c == '\u{8}' {
        out.push('\\');
        out.push('b');
    } else if c == '\u{c}' {
        out.push('\\');
        out.push('f');
    } else if (c as u32) < 0x20 {
        let d = c as u32;
        out.push('\\');
        out.push('u');
        out.push('0');
        out.push('0');
        out.push(hex_digit_exec(d / 16));
        out.push(hex_digit_exec(d % 16));
    } else {
        out.push(c);
    }
    proof {
        assert(out@ =~= old(out)@ + escape_char(c));
    }
}

/// Appends the escaped form of a whole text.
fn push_escaped_str(out: &mut Vec<char>, s: &str)
    ensures
        final(out)@ == old(out)@ + escape_seq(s@),
{
    let n = s.unicode_len();
    let mut i: usize = 0;
    while i < n
        invariant
            n == s@.len(),
            i <= n,
            out@ == old(out)@ + escape_seq(s@.take(i as int)),
        decreases n - i,
    {
        push_escaped_char(out, s.get_char(i));
        proof {
            lemma_escape_seq_push(s@, i as int);
            assert(old(out)@ + escape_seq(s@.take(i as int)) + escape_char(s@[i as int]) =~= old(
                out,
            )@ + escape_seq(s@.take(i + 1)));
        }
        i = i + 1;
    }
    proof {
        assert(s@.take(n as int) =~= s@);
    }
}

/// Writes one command as its one-line record, or refuses a `Get`.
///
/// Returns `Err` exactly on `Get`; for `Set` and `Rm` the resulting line is
/// exactly `encode_command` of the command's model.
pub fn serialize_command(command: &Command) -> (r: Result<String, Error>)
    ensures
        r is Err <==> command@ is Get,
        r matches Ok(s) ==> s@ == encode_command(command@),
        r matches Err(e) ==> e matches Error::Whatever { message } && message@
            == "Get command should not be serialized"@,
{
    match command {
        Command::Get { key: _ } => Err(
            Error::Whatever {
                message: String::from_str("Get command should not be serialized"),
            },
        ),
        Command::Put { key, value } => {
            let mut out: Vec<char> = Vec::new();
            push_str_chars(&mut out, "{\"type\":\"Set\",\"key\":\"");
            push_escaped_str(&mut out, key.as_str());
            out.push('"');
            push_str_chars(&mut out, ",\"value\":\"");
            push_escaped_str(&mut out, value.as_str());
            out.push('"');
            out.push('}');
            proof {
                assert(out@ =~= encode_command(command@));
            }
            Ok(chars_to_string(&out))
        },
        Command::Rm { key } => {
            let mut out: Vec<char> = Vec::new();
            push_str_chars(&mut out, "{\"type\":\"Rm\",\"key\":\"");
            push_escaped_str(&mut out, key.as_str());
            out.push('"');
            out.push('}');
            proof {
                assert(out@ =~= encode_command(command@));
            }
            Ok(chars_to_string(&out))
        },
    }
}

/// Encoding a concatenation encodes the parts.
proof fn lemma_encode_commands_add(a: Seq<CommandModel>, b: Seq<CommandModel>)
    ensures
        encode_commands(a + b) == encode_commands(a) + encode_commands(b),
    decreases a.len(),
{
    if a.len() == 0 {
        assert(a + b =~= b);
        assert(encode_commands(a) + encode_commands(b) =~= encode_commands(b));
    } else {
        assert((a + b).drop_first() =~= a.drop_first() + b);
        lemma_encode_commands_add(a.drop_first(), b);
        assert((a + b)[0] == a[0]);
        assert(encode_commands(a + b) =~= encode_commands(a) + encode_commands(b));
    }
}

/// Encoding one more command appends its line.
proof fn lemma_encode_commands_push(ms: Seq<CommandModel>, i: int)
    requires
        0 <= i < ms.len(),
    ensures
        encode_commands(ms.take(i + 1)) == encode_commands(ms.take(i)) + encode_command(ms[i])
            + seq!['\n'],
{
    assert(ms.take(i + 1) =~= ms.take(i) + seq![ms[i]]);
    lemma_encode_commands_add(ms.take(i), seq![ms[i]]);
    assert(seq![ms[i]].drop_first() =~= Seq::<CommandModel>::empty());
    assert(encode_command(ms[i]) + seq!['\n'] + encode_commands(Seq::<CommandModel>::empty())
        =~= encode_command(ms[i]) + seq!['\n']);
    assert(encode_commands(seq![ms[i]]) =~= encode_command(ms[i]) + seq!['\n']);
    assert(encode_commands(ms.take(i)) + (encode_command(ms[i]) + seq!['\n']) =~= encode_commands(
        ms.take(i),
    ) + encode_command(ms[i]) + seq!['\n']);
}

/// Writes a command sequence as log text, one line per record, or refuses
/// the batch at the first `Get`.
pub fn serialize_commands(commands: &[Command]) -> (r: Result<String, Error>)
    ensures
        r is Ok <==> (forall|i: int|
            0 <= i < commands@.len() ==> !(#[trigger] commands@[i]@ is Get)),
        r matches Ok(s) ==> s@ == encode_commands(cmds_view(commands@)),
        r matches Err(e) ==> e matches Error::Whatever { message } && message@
            == "Get command should not be serialized"@,
{
    let mut out = String::new();
    let n = commands.len();
    let mut i: usize = 0;
    while i < n
        invariant
            n == commands@.len(),
            i <= n,
            out@ == encode_commands(cmds_view(commands@).take(i as int)),
            forall|j: int| 0 <= j < i ==> !(#[trigger] commands@[j]@ is Get),
        decreases n - i,
    {
        let line = match serialize_command(&commands[i]) {
            Ok(line) => line,
            Err(e) => {
                return Err(e);
            },
        };
        out.append(line.as_str());
        out.append("\n");
        proof {
            reveal_strlit("\n");
            assert("\n"@ =~= seq!['\n']);
            lemma_encode_commands_push(cmds_view(commands@), i as int);
            assert(cmds_view(commands@)[i as int] == commands@[i as int]@);
            assert(out@ =~= encode_commands(cmds_view(commands@).take(i + 1)));
        }
        i = i + 1;
    }
    proof {
        assert(cmds_view(commands@).take(n as int) =~= cmds_view(commands@));
    }
    Ok(out)
}

/// The numeric value of a hexadecimal digit character.
fn hex_val_exec(c: char) -> (r: Option<u32>)
    ensures
        r == hex_val(c),
{
    match c {
        '0' => Some(0),
        '1' => Some(1),
        '2' => Some(2),
        '3' => Some(3),
        '4' => Some(4),
        '5' => Some(5),
        '6' => Some(6),
        '7' => Some(7),
        '8' => Some(8),
        '9' => Some(9),
        'a' | 'A' => Some(10),
        'b' | 'B' => Some(11),
        'c' | 'C' => Some(12),
        'd' | 'D' => Some(13),
        'e' | 'E' => Some(14),
        'f' | 'F' => Some(15),
        _ => None,
    }
}

/// Whether the characters at `pos` begin with the given literal.
fn match_lit(line: &Vec<char>, pos: usize, lit: &str) -> (r: bool)
    requires
        pos <= line@.len(),
    ensures
        r == starts_with(line@.skip(pos as int), lit@),
{
    let m = lit.unicode_len();
    if line.len() - pos < m {
        return false;
    }
    let mut j: usize = 0;
    while j < m
        invariant
            m == lit@.len(),
            pos + m <= line.len(),
            j <= m,
            forall|k: int| 0 <= k < j ==> line@[pos + k] == lit@[k],
        decreases m - j,
    {
        if line[pos + j] != lit.get_char(j) {
            proof {
                if starts_with(line@.skip(pos as int), lit@) {
                    assert(line@.skip(pos as int).take(m as int)[j as int] == line@[pos + j]);
                }
            }
            return false;
        }
        j = j + 1;
    }
    proof {
        assert(line@.skip(pos as int).take(m as int) =~= lit@);
    }
    true
}

/// Reads a quoted string body starting at `pos` (just after the opening
/// quote), through the closing quote; the exec twin of `parse_string`.
fn parse_string_exec(line: &Vec<char>, pos: usize) -> (r: Option<(Vec<char>, usize)>)
    requires
        pos <= line@.len(),
    ensures
        r matches Some(p) ==> pos < p.1 <= line@.len() && parse_string(line@.skip(pos as int))
            == Some((p.0@, p.1 - pos as int)),
        r is None ==> parse_string(line@.skip(pos as int)) is None,
{
    let ghost s0 = line@.skip(pos as int);
    let mut acc: Vec<char> = Vec::new();
    let mut cur: usize = pos;
    loop
        invariant
            pos <= cur <= line.len(),
            s0 == line@.skip(pos as int),
            parse_string(s0) == (match parse_string(line@.skip(cur as int)) {
                Some((t, n)) => Some::<(Seq<char>, int)>((acc@ + t, (cur - pos) + n)),
                None => None::<(Seq<char>, int)>,
            }),
        decreases line@.len() - cur,
    {
        let ghost s = line@.skip(cur as int);
        if cur >= line.len() {
            assert(s.len() == 0);
            return None;
        }
        assert(s[0] == line@[cur as int]);
        let c = line[cur];
        if c == '"' {
            proof {
                assert(acc@ + Seq::<char>::empty() =~= acc@);
            }
            return Some((acc, cur + 1));
        } else if c == '\\' {
            if cur + 1 >= line.len() {
                assert(s.len() < 2);
                return None;
            }
            assert(s[1] == line@[cur + 1]);
            let e = line[cur + 1];
            if e == 'u' {
                if line.len() - cur < 6 {
                    assert(s.len() < 6);
                    return None;
                }
                assert(s[2] == line@[cur + 2] && s[3] == line@[cur + 3] && s[4] == line@[cur + 4]
                    && s[5] == line@[cur + 5]);
                let h3 = match hex_val_exec(line[cur + 2]) {
                    Some(h) => h,
                    None => {
                        return None;
                    },
                };
                let h2 = match hex_val_exec(line[cur + 3]) {
                    Some(h) => h,
                    None => {
                        return None;
                    },
                };
                let h1 = match hex_val_exec(line[cur + 4]) {
                    Some(h) => h,
                    None => {
                        return None;
                    },
                };
                let h0 = match hex_val_exec(line[cur + 5]) {
                    Some(h) => h,
                    None => {
                        return None;
                    },
                };
                assert(h3 < 16 && h2 < 16 && h1 < 16 && h0 < 16);
                let code: u32 = h3 * 0x1000 + h2 * 0x100 + h1 * 0x10 + h0;
                if 0xD800 <= code && code < 0xE000 {
                    return None;
                }
                let d = char_from_code(code);
                proof {
                    vstd::utf8::char_u32_cast(d, code);
                    assert(line@.skip(cur as int).skip(6) =~= line@.skip(cur + 6));
                    let sub = parse_string(line@.skip(cur + 6));
                    if sub is Some {
                        let (t, n) = sub->Some_0;
                        assert(acc@ + (seq![d] + t) =~= (acc@ + seq![d]) + t);
                    }
                }
                acc.push(d);
                cur = cur + 6;
            } else {
                let d: char = match e {
                    '"' => '"',
                    '\\' => '\\',
                    '/' => '/',
                    'n' => '\n',
                    'r' => '\r',
                    't' => '\t',
                    'b' => '\u{8}',
                    'f' => '\u{c}',
                    _ => {
                        assert(unescape_char(s[1]) is None);
                        return None;
                    },
                };
                proof {
                    assert(unescape_char(s[1]) == Some(d));
                    assert(line@.skip(cur as int).skip(2) =~= line@.skip(cur + 2));
                    let sub = parse_string(line@.skip(cur + 2));
                    if sub is Some {
                        let (t, n) = sub->Some_0;
                        assert(acc@ + (seq![d] + t) =~= (acc@ + seq![d]) + t);
                    }
                }
                acc.push(d);
                cur = cur + 2;
            }
        } else if (c as u32) < 0x20 {
            return None;
        } else {
            proof {
                assert(line@.skip(cur as int).skip(1) =~= line@.skip(cur + 1));
                let sub = parse_string(line@.skip(cur + 1));
                if sub is Some {
                    let (t, n) = sub->Some_0;
                    assert(acc@ + (seq![c] + t) =~= (acc@ + seq![c]) + t);
                }
            }
            acc.push(c);
            cur = cur + 1;
        }
    }
}

/// Reads one whole trimmed record line; the exec twin of `parse_line`.
fn parse_line_exec(line: &Vec<char>) -> (r: Option<Command>)
    ensures
        parse_line(line@) matches Some(m) ==> r matches Some(c) && c@ == m,
        parse_line(line@) is None ==> r is None,
{
    proof {
        assert(line@.skip(0) =~= line@);
    }
    let sp = "{\"type\":\"Set\",\"key\":\"";
    let rp = "{\"type\":\"Rm\",\"key\":\"";
    let gp = "{\"type\":\"Get\",\"key\":\"";
    if match_lit(line, 0, sp) {
        let plen = sp.unicode_len();
        proof {
            assert(starts_with(line@, set_prefix()));
        }
        match parse_string_exec(line, plen) {
            Some((k, end)) => {
                proof {
                    assert(line@.skip(set_prefix().len() + (end - plen)) =~= line@
                        .skip(end as int));
                }
                let vs = ",\"value\":\"";
                if match_lit(line, end, vs) {
                    let vlen = vs.unicode_len();
                    proof {
                        assert(value_sep().len() <= line@.skip(end as int).len());
                        assert(end + vlen <= line.len());
                        assert(line@.skip(end as int).skip(value_sep().len() as int)
                            =~= line@.skip(end + vlen));
                    }
                    match parse_string_exec(line, end + vlen) {
                        Some((v, end2)) => {
                            proof {
                                assert(line@.skip(end as int).skip(
                                    value_sep().len() + (end2 - (end + vlen)),
                                ) =~= line@.skip(end2 as int));
                            }
                            if end2 < line.len() && line.len() - end2 == 1 && line[end2] == '}' {
                                proof {
                                    assert(line@.skip(end2 as int) =~= seq!['}']);
                                }
                                Some(
                                    Command::Put {
                                        key: chars_to_string(&k),
                                        value: chars_to_string(&v),
                                    },
                                )
                            } else {
                                proof {
                                    let s2 = line@.skip(end2 as int);
                                    assert(!(s2 == seq!['}'])) by {
                                        if s2 == seq!['}'] {
                                            assert(s2.len() == 1);
                                            assert(line@[end2 as int] == s2[0]);
                                            assert(false);
                                        }
                                    }
                                }
                                None
                            }
                        },
                        None => None,
                    }
                } else {
                    None
                }
            },
            None => None,
        }
    } else if match_lit(line, 0, rp) {
        let plen = rp.unicode_len();
        proof {
            assert(starts_with(line@, rm_prefix()));
        }
        match parse_string_exec(line, plen) {
            Some((k, end)) => {
                proof {
                    assert(line@.skip(rm_prefix().len() + (end - plen)) =~= line@
                        .skip(end as int));
                }
                if end < line.len() && line.len() - end == 1 && line[end] == '}' {
                    proof {
                        assert(line@.skip(end as int) =~= seq!['}']);
                    }
                    Some(Command::Rm { key: chars_to_string(&k) })
                } else {
                    proof {
                        let s2 = line@.skip(end as int);
                        assert(!(s2 == seq!['}'])) by {
                            if s2 == seq!['}'] {
                                assert(s2.len() == 1);
                                assert(line@[end as int] == s2[0]);
                                assert(false);
                            }
                        }
                    }
                    None
                }
            },
            None => None,
        }
    } else if match_lit(line, 0, gp) {
        let plen = gp.unicode_len();
        proof {
            assert(starts_with(line@, get_prefix()));
        }
        match parse_string_exec(line, plen) {
            Some((k, end)) => {
                proof {
                    assert(line@.skip(get_prefix().len() + (end - plen)) =~= line@
                        .skip(end as int));
                }
                if end < line.len() && line.len() - end == 1 && line[end] == '}' {
                    proof {
                        assert(line@.skip(end as int) =~= seq!['}']);
                    }
                    Some(Command::Get { key: chars_to_string(&k) })
                } else {
                    proof {
                        let s2 = line@.skip(end as int);
                        assert(!(s2 == seq!['}'])) by {
                            if s2 == seq!['}'] {
                                assert(s2.len() == 1);
                                assert(line@[end as int] == s2[0]);
                                assert(false);
                            }
                        }
                    }
                    None
                }
            },
            None => None,
        }
    } else {
        None
    }
}

/// Reads the whole log text as its command sequence.
///
/// Succeeds exactly when the text decodes: every non-blank line, once
/// trimmed, must be a well-formed `Set` or `Rm` record. The first offending
/// line fails the batch: a malformed line as a deserialize error, a `Get`
/// record as its own refusal.
pub fn deserialize_commands(text: &String) -> (r: Result<Vec<Command>, Error>)
    ensures
        r matches Ok(v) ==> decode_text(text@) == Ok::<_, DecodeErr>(cmds_view(v@)),
        r is Ok <==> decode_text(text@) is Ok,
        r matches Err(e) ==> (decode_text(text@) matches Err(de) && (de is GetForbidden ==> (
        e matches Error::Whatever { message } && message@
            == "Get command should not be deserialized"@)) && (de is Malformed
            ==> e is CommandDeserialize)),
{
    let chars = str_to_chars(text.as_str());
    let ghost t0 = text@;
    let n = chars.len();
    let mut cmds: Vec<Command> = Vec::new();
    let mut pos: usize = 0;
    proof {
        assert(t0.skip(0) =~= t0);
    }
    while pos < n
        invariant
            t0 == text@,
            chars@ == t0,
            n == chars.len(),
            pos <= n,
            decode_lines(split_lines(t0)) == (match decode_lines(split_lines(t0.skip(pos as int))) {
                Ok(cs) => Ok::<Seq<CommandModel>, DecodeErr>(cmds_view(cmds@) + cs),
                Err(e) => Err::<Seq<CommandModel>, DecodeErr>(e),
            }),
        decreases n - pos,
    {
        // scan to the end of the current line
        let mut i: usize = pos;
        while i < n && chars[i] != '\n'
            invariant
                chars@ == t0,
                n == chars.len(),
                pos <= i <= n,
                forall|j: int| pos <= j < i ==> t0[j] != '\n',
            decreases n - i,
        {
            i = i + 1;
        }
        proof {
            let s = t0.skip(pos as int);
            assert(forall|j: int| 0 <= j < i - pos ==> s[j] == t0[pos + j] && t0[pos + j] != '\n');
            if i < n {
                assert(s[i - pos] == t0[i as int]);
            }
            lemma_find_nl_at(s, i - pos);
        }
        // trim the line in place: [a, b) are the surviving indices
        let mut a: usize = pos;
        while a < i && is_ws_exec(chars[a])
            invariant
                chars@ == t0,
                pos <= a <= i <= n == chars.len(),
                forall|j: int| pos <= j < a ==> is_ws(t0[j]),
            decreases i - a,
        {
            a = a + 1;
        }
        let mut b: usize = i;
        while b > a && is_ws_exec(chars[b - 1])
            invariant
                chars@ == t0,
                pos <= a <= b <= i <= n == chars.len(),
                forall|j: int| b <= j < i ==> is_ws(t0[j]),
            decreases b,
        {
            b = b - 1;
        }
        let ghost piece = t0.skip(pos as int).take(i - pos);
        let ghost lines = split_lines(t0.skip(pos as int));
        let ghost rest_lines = lines.drop_first();
        proof {
            assert(forall|j: int| 0 <= j < piece.len() ==> piece[j] == t0[pos + j]);
            lemma_trim_range(piece, a - pos, b - pos);
            assert(piece.subrange(a - pos, b - pos) =~= t0.subrange(a as int, b as int));
            // the first split piece is this line, and the rest follows it
            if i < n {
                assert(t0.skip(pos as int).skip(i - pos + 1) =~= t0.skip(i + 1));
                assert(lines == seq![piece] + split_lines(t0.skip(i + 1)));
                assert(lines[0] == piece);
                assert(rest_lines =~= split_lines(t0.skip(i + 1)));
            } else {
                assert(piece =~= t0.skip(pos as int));
                assert(lines == seq![t0.skip(pos as int)]);
                assert(lines[0] == piece);
                assert(rest_lines =~= Seq::<Seq<char>>::empty());
            }
        }
        if a == b {
            // a blank line is skipped
            proof {
                assert(trim(piece).len() == 0);
                assert(decode_lines(lines) == decode_lines(rest_lines));
            }
        } else {
            let mut line_vec: Vec<char> = Vec::new();
            let mut j: usize = a;
            while j < b
                invariant
                    chars@ == t0,
                    a <= j <= b <= n == chars.len(),
                    line_vec@ == t0.subrange(a as int, j as int),
                decreases b - j,
            {
                line_vec.push(chars[j]);
                proof {
                    assert(t0.subrange(a as int, j + 1) =~= t0.subrange(a as int, j as int)
                        + seq![t0[j as int]]);
                }
                j = j + 1;
            }
            proof {
                assert(line_vec@ == trim(piece));
                assert(trim(piece).len() > 0);
            }
            match parse_line_exec(&line_vec) {
                None => {
                    proof {
                        assert(parse_line(trim(piece)) is None);
                        assert(decode_lines(lines) == Err::<Seq<CommandModel>, DecodeErr>(
                            DecodeErr::Malformed { line: trim(piece) },
                        ));
                    }
                    return Err(Error::CommandDeserialize { line: chars_to_string(&line_vec) });
                },
                Some(c) => {
                    if let Command::Get { key: _ } = c {
                        proof {
                            assert(parse_line(trim(piece)) matches Some(m) && m is Get);
                            assert(decode_lines(lines) == Err::<Seq<CommandModel>, DecodeErr>(
                                DecodeErr::GetForbidden,
                            ));
                        }
                        return Err(
                            Error::Whatever {
                                message: String::from_str("Get command should not be deserialized"),
                            },
                        );
                    }
                    proof {
                        assert(parse_line(trim(piece)) == Some(c@) && !(c@ is Get));
                        assert(decode_lines(lines) == (match decode_lines(rest_lines) {
                            Ok(cs) => Ok::<Seq<CommandModel>, DecodeErr>(seq![c@] + cs),
                            Err(e) => Err::<Seq<CommandModel>, DecodeErr>(e),
                        }));
                        assert(cmds_view(cmds@.push(c)) =~= cmds_view(cmds@) + seq![c@]);
                        let dr = decode_lines(rest_lines);
                        if dr is Ok {
                            let cs = dr->Ok_0;
                            assert(cmds_view(cmds@) + (seq![c@] + cs) =~= (cmds_view(cmds@) + seq![
                                c@,
                            ]) + cs);
                        }
                    }
                    cmds.push(c);
                },
            }
        }
        if i >= n {
            proof {
                assert(decode_lines(rest_lines) == Ok::<Seq<CommandModel>, DecodeErr>(seq![]));
                assert(cmds_view(cmds@) + Seq::<CommandModel>::empty() =~= cmds_view(cmds@));
            }
            return Ok(cmds);
        }
        pos = i + 1;
    }
    proof {
        let s = t0.skip(pos as int);
        assert(s.len() == 0);
        assert(find_nl(s) == 0);
        assert(split_lines(s) =~= seq![s]);
        assert(trim_front(s) == s);
        assert(trim_back(s) == s);
        assert(seq![s].drop_first() =~= Seq::<Seq<char>>::empty());
        assert(decode_lines(Seq::<Seq<char>>::empty()) == Ok::<Seq<CommandModel>, DecodeErr>(
            seq![],
        ));
        assert(decode_lines(split_lines(s)) == Ok::<Seq<CommandModel>, DecodeErr>(seq![]));
        assert(cmds_view(cmds@) + seq![] =~= cmds_view(cmds@));
        assert(decode_lines(split_lines(t0)) == Ok::<Seq<CommandModel>, DecodeErr>(
            cmds_view(cmds@),
        ));
    }
    Ok(cmds)
}

/// Replay equivalence: a store reopened from the text its log was written
/// as holds exactly the mapping it held live. The written text decodes back
/// to the log itself, and the store's invariant makes the live mapping the
/// replay of that log — so `open(serialize(log))` rebuilds the same map.
pub proof fn lemma_replay_equivalence(log: Seq<CommandModel>)
    requires
        no_gets(log),
    ensures
        decode_text(encode_commands(log)) == Ok::<Seq<CommandModel>, DecodeErr>(log),
        replay((decode_text(encode_commands(log)))->Ok_0) == replay(log),
{
    lemma_round_trip(log);
}

/// Compaction idempotence on content: compacting never changes the mapping,
/// so a second compaction with no intervening writes yields a log that
/// replays to the same mapping as the first, of the same length — and after
/// the first compaction the record count already equals the number of live
/// keys. The hypotheses are exactly what `compact` ensures of each run.
pub proof fn lemma_compaction_idempotence(
    m: Map<Seq<char>, Seq<char>>,
    first: Seq<CommandModel>,
    second: Seq<CommandModel>,
)
    requires
        replay(first) == m,
        all_puts(first),
        first.len() == m.dom().len(),
        replay(second) == m,
        all_puts(second),
        second.len() == m.dom().len(),
    ensures
        replay(second) == replay(first),
        second.len() == first.len(),
        first.len() == m.dom().len(),
{
}

/// Whether trimming removes this character.
fn is_ws_exec(c: char) -> (r: bool)
    ensures
        r == is_ws(c),
{
    c == ' ' || c == '\t' || c == '\n' || c == '\r' || c == '\u{b}' || c == '\u{c}'
}

impl crate::engine::KvsEngine for KvStoreV2 {
    open spec fn inv(&self) -> bool {
        self.wf()
    }

    open spec fn kv(&self) -> Map<Seq<char>, Seq<char>> {
        self@
    }

    open spec fn reliable(&self) -> bool {
        true
    }

    open spec fn spec_name(&self) -> Seq<char> {
        "kvs"@
    }

    fn set(&mut self, key: String, value: String) -> (r: Result<(), Error>) {
        KvStoreV2::set(self, key, value)
    }

    fn get(&self, key: String) -> (r: Result<Option<String>, Error>) {
        KvStoreV2::get(self, key)
    }

    fn remove(&mut self, key: String) -> (r: Result<Option<String>, Error>) {
        KvStoreV2::remove(self, key)
    }

    fn name(&self) -> (r: &'static str) {
        "kvs"
    }
}

/// Whether no command of the sequence is a `Get`.
pub open spec fn no_gets(ms: Seq<CommandModel>) -> bool {
    forall|i: int| 0 <= i < ms.len() ==> !((#[trigger] ms[i]) is Get)
}

/// Whether every command of the sequence is a `Set`.
pub open spec fn all_puts(ms: Seq<CommandModel>) -> bool {
    forall|i: int| 0 <= i < ms.len() ==> (#[trigger] ms[i]) is Put
}

/// The answer to a dispatched command, mirroring its shape: `Get` carries
/// the value found (or nothing), `Rm` the removed value (or nothing, for a
/// key that was not there), and a `Set` needs no payload.
#[derive(Debug, PartialEq, Clone)]
pub enum CommandResponse {
    Get { value: Option<String> },
    Put {},
    Rm { value: Option<String> },
}

/// The model of a response, with text as character sequences.
pub enum ResponseModel {
    Get { value: Option<Seq<char>> },
    Put,
    Rm { value: Option<Seq<char>> },
}

impl View for CommandResponse {
    type V = ResponseModel;

    open spec fn view(&self) -> ResponseModel {
        match self {
            CommandResponse::Get { value } => ResponseModel::Get {
                value: match value {
                    Some(v) => Some(v@),
                    None => None,
                },
            },
            CommandResponse::Put {} => ResponseModel::Put,
            CommandResponse::Rm { value } => ResponseModel::Rm {
                value: match value {
                    Some(v) => Some(v@),
                    None => None,
                },
            },
        }
    }
}

/// Applies one mutation to a mapping: `Set` binds the key, `Rm` unbinds it
/// (silently when absent, as replay requires), and a `Get` is refused — the
/// log holds mutations alone.
pub fn apply_command(command: &Command, map: &mut KvMap) -> (r: Result<(), Error>)
    requires
        old(map).wf(),
    ensures
        final(map).wf(),
        r is Ok <==> !(command@ is Get),
        r is Ok ==> final(map)@ == apply_model(old(map)@, command@),
        r is Err ==> final(map)@ == old(map)@,
{
    match command {
        Command::Put { key, value } => {
            map.insert(key.clone(), value.clone());
            Ok(())
        },
        Command::Rm { key } => {
            let _ = map.remove(key);
            Ok(())
        },
        Command::Get { key: _ } => Err(
            Error::Whatever { message: String::from_str("Invalid command") },
        ),
    }
}

/// One file operation the I/O layer must apply to the backing log: append
/// one record line (and a newline), or replace the whole file.
#[derive(Debug, PartialEq, Clone)]
pub enum FileOp {
    Append { line: String },
    Replace { content: String },
}

/// The log-structured engine: the live mapping, an in-memory image of the
/// record sequence the backing file holds, and a journal of file operations
/// that the I/O layer drains and applies after each mutation.
///
/// The engine's invariant ties the three together: replaying the log image
/// reproduces the live mapping exactly, and `log_count` counts the records
/// in the file.
pub struct KvStoreV2 {
    map: KvMap,
    log: Vec<Command>,
    log_count: usize,
    journal: Vec<FileOp>,
}

impl View for KvStoreV2 {
    type V = Map<Seq<char>, Seq<char>>;

    closed spec fn view(&self) -> Map<Seq<char>, Seq<char>> {
        self.map@
    }
}

impl KvStoreV2 {
    /// The records the backing file holds once the journal is applied.
    pub closed spec fn spec_log(&self) -> Seq<CommandModel> {
        cmds_view(self.log@)
    }

    /// The file operations not yet applied by the I/O layer.
    pub closed spec fn journal_view(&self) -> Seq<FileOp> {
        self.journal@
    }

    /// Well-formedness: the mapping is a proper table, the record count
    /// matches the log, no `Get` ever stands in the log, and replaying the
    /// log rebuilds the mapping — the heart of replay equivalence.
    pub closed spec fn wf(&self) -> bool {
        &&& self.map.wf()
        &&& self.log_count == self.log@.len()
        &&& no_gets(self.spec_log())
        &&& replay(self.spec_log()) == self.map@
    }

    /// A fresh store with nothing in it and no backing file content.
    pub fn new() -> (r: Self)
        ensures
            r.wf(),
            r@ == Map::<Seq<char>, Seq<char>>::empty(),
            r.spec_log() == Seq::<CommandModel>::empty(),
            r.journal_view() == Seq::<FileOp>::empty(),
    {
        let r = KvStoreV2 { map: KvMap::new(), log: Vec::new(), log_count: 0, journal: Vec::new() };
        proof {
            assert(cmds_view(r.log@) =~= Seq::<CommandModel>::empty());
        }
        r
    }

    /// Rebuilds a store from the backing file's text: every record is
    /// decoded and replayed in file order. Fails exactly when the text does
    /// not decode — a corrupt log refuses to open rather than dropping
    /// records.
    pub fn open(text: &String) -> (r: Result<KvStoreV2, Error>)
        ensures
            r is Ok <==> decode_text(text@) is Ok,
            r matches Ok(s) ==> s.wf() && s.spec_log() == decode_text(text@)->Ok_0 && s@ == replay(
                s.spec_log(),
            ) && s.journal_view() == Seq::<FileOp>::empty(),
            r matches Err(e) ==> (decode_text(text@) matches Err(de) && (de is GetForbidden ==> (
            e matches Error::Whatever { message } && message@
                == "Get command should not be deserialized"@)) && (de is Malformed
                ==> e is CommandDeserialize)),
    {
        let cmds = match deserialize_commands(text) {
            Ok(cmds) => cmds,
            Err(e) => {
                return Err(e);
            },
        };
        proof {
            lemma_decode_lines_no_get(split_lines(text@));
        }
        let mut map = KvMap::new();
        let n = cmds.len();
        let mut i: usize = 0;
        proof {
            assert(cmds_view(cmds@).take(0) =~= Seq::<CommandModel>::empty());
        }
        while i < n
            invariant
                map.wf(),
                n == cmds@.len(),
                i <= n,
                no_gets(cmds_view(cmds@)),
                map@ == replay(cmds_view(cmds@).take(i as int)),
            decreases n - i,
        {
            let ghost ms = cmds_view(cmds@);
            match apply_command(&cmds[i], &mut map) {
                Ok(()) => {},
                Err(e) => {
                    proof {
                        assert(ms[i as int] == cmds@[i as int]@);
                        assert(false);
                    }
                    return Err(e);
                },
            }
            proof {
                assert(ms.take(i as int).push(ms[i as int]) =~= ms.take(i + 1));
                lemma_replay_push(ms.take(i as int), ms[i as int]);
                assert(ms[i as int] == cmds@[i as int]@);
            }
            i = i + 1;
        }
        proof {
            assert(cmds_view(cmds@).take(n as int) =~= cmds_view(cmds@));
        }
        Ok(KvStoreV2 { map, log: cmds, log_count: n, journal: Vec::new() })
    }

    /// How many records the backing file holds.
    pub fn log_count(&self) -> (r: usize)
        ensures
            r == self.spec_log().len(),
    {
        proof {
            assert(cmds_view(self.log@).len() == self.log@.len());
        }
        self.log.len()
    }

    /// How many keys are live.
    pub fn map_len(&self) -> (r: usize)
        requires
            self.wf(),
        ensures
            r == self@.dom().len(),
    {
        self.map.len()
    }

    /// The in-memory image of the backing file's records, in file order.
    pub fn log(&self) -> (r: &Vec<Command>)
        ensures
            cmds_view(r@) == self.spec_log(),
    {
        &self.log
    }

    /// Hands the pending file operations to the I/O layer and forgets them.
    /// Applying them to the backing file, in order, brings it to hold
    /// exactly the records of `spec_log`.
    pub fn take_journal(&mut self) -> (r: Vec<FileOp>)
        ensures
            r@ == old(self).journal_view(),
            final(self).journal_view() == Seq::<FileOp>::empty(),
            final(self).wf() == old(self).wf(),
            final(self)@ == old(self)@,
            final(self).spec_log() == old(self).spec_log(),
    {
        let mut out: Vec<FileOp> = Vec::new();
        std::mem::swap(&mut self.journal, &mut out);
        out
    }

    /// Collapses the log to one `Set` record per live key: the backing file
    /// is rewritten to exactly those records, and the record count becomes
    /// the number of live keys. The mapping itself does not change — that
    /// is compaction's idempotence on content.
    pub fn compact(&mut self) -> (r: Result<(), Error>)
        requires
            old(self).wf(),
        ensures
            r is Ok,
            final(self).wf(),
            final(self)@ == old(self)@,
            all_puts(final(self).spec_log()),
            final(self).spec_log().len() == final(self)@.dom().len(),
            final(self).journal_view().len() == old(self).journal_view().len() + 1,
            final(self).journal_view().take(old(self).journal_view().len() as int) == old(
                self,
            ).journal_view(),
            final(self).journal_view().last() matches FileOp::Replace { content } && content@
                == encode_commands(final(self).spec_log()),
    {
        let commands = convert_map_to_commands(&self.map);
        proof {
            assert forall|i: int| 0 <= i < commands@.len() implies !(#[trigger] commands@[i]@
                is Get) by {
                assert(cmds_view(commands@)[i] == commands@[i]@);
            }
        }
        let content = match serialize_commands(commands.as_slice()) {
            Ok(content) => content,
            Err(e) => {
                proof {
                    assert(false);
                }
                return Err(e);
            },
        };
        self.log = commands;
        self.log_count = self.log.len();
        self.journal.push(FileOp::Replace { content });
        proof {
            assert(self.journal@.take(self.journal@.len() - 1) =~= old(self).journal@);
        }
        Ok(())
    }

    /// Whether the log has grown to twice the live keys or more, so that
    /// compaction must run.
    fn needs_compaction(&self) -> (r: bool)
        requires
            self.wf(),
        ensures
            r == (self.spec_log().len() >= 2 * self@.dom().len()),
    {
        let keys = self.map.len();
        proof {
            assert(cmds_view(self.log@).len() == self.log@.len());
        }
        self.log_count / 2 >= keys
    }

    /// Binds the key to the value: exactly one `Set` record is appended to
    /// the log (through the journal), then compaction runs if the log has
    /// grown to twice the live keys.
    pub fn set(&mut self, key: String, value: String) -> (r: Result<(), Error>)
        requires
            old(self).wf(),
        ensures
            r is Ok,
            final(self).wf(),
            final(self)@ == old(self)@.insert(key@, value@),
            ({
                let grown = old(self).spec_log().push(
                    CommandModel::Put { key: key@, value: value@ },
                );
                if grown.len() >= 2 * final(self)@.dom().len() {
                    // the append triggered compaction
                    &&& all_puts(final(self).spec_log())
                    &&& final(self).spec_log().len() == final(self)@.dom().len()
                    &&& final(self).journal_view().len() == old(self).journal_view().len() + 2
                    &&& final(self).journal_view().take(old(self).journal_view().len() as int)
                        == old(self).journal_view()
                    &&& (final(self).journal_view()[old(self).journal_view().len() as int] matches
                        FileOp::Append { line } && line@ == encode_command(
                        CommandModel::Put { key: key@, value: value@ },
                    ))
                    &&& (final(self).journal_view().last() matches FileOp::Replace { content }
                        && content@ == encode_commands(final(self).spec_log()))
                } else {
                    &&& final(self).spec_log() == grown
                    &&& final(self).journal_view().len() == old(self).journal_view().len() + 1
                    &&& final(self).journal_view().take(old(self).journal_view().len() as int)
                        == old(self).journal_view()
                    &&& (final(self).journal_view().last() matches FileOp::Append { line }
                        && line@ == encode_command(CommandModel::Put { key: key@, value: value@ }))
                }
            }),
    {
        let cmd = Command::Put { key: key.clone(), value: value.clone() };
        let line = match serialize_command(&cmd) {
            Ok(line) => line,
            Err(e) => {
                proof {
                    assert(false);
                }
                return Err(e);
            },
        };
        let ghost before_log = cmds_view(self.log@);
        self.log.push(cmd);
        self.log_count = self.log.len();
        self.map.insert(key, value);
        self.journal.push(FileOp::Append { line });
        proof {
            assert(cmds_view(self.log@) =~= before_log.push(
                CommandModel::Put { key: key@, value: value@ },
            ));
            lemma_replay_push(before_log, CommandModel::Put { key: key@, value: value@ });
            assert(self.journal@.take(self.journal@.len() - 1) =~= old(self).journal@);
        }
        if self.needs_compaction() {
            let ghost mid_journal = self.journal@;
            match self.compact() {
                Ok(()) => {},
                Err(e) => {
                    proof {
                        assert(false);
                    }
                    return Err(e);
                },
            }
            proof {
                assert(self.journal@.take(old(self).journal@.len() as int) =~= old(self).journal@);
                let oldlen = old(self).journal@.len() as int;
                let jv = self.journal@;
                assert(jv.take(mid_journal.len() as int)[oldlen] == jv[oldlen]);
                assert(jv[oldlen] == mid_journal[oldlen]);
            }
        }
        Ok(())
    }

    /// The value bound to the key, or nothing; the log is never touched.
    pub fn get(&self, key: String) -> (r: Result<Option<String>, Error>)
        requires
            self.wf(),
        ensures
            r is Ok,
            r->Ok_0 matches Some(v) ==> self@.contains_key(key@) && v@ == self@[key@],
            r->Ok_0 is None ==> !self@.contains_key(key@),
    {
        match self.map.get(&key) {
            Some(v) => Ok(Some(v.clone())),
            None => Ok(None),
        }
    }

    /// Unbinds the key. If it was bound, exactly one `Rm` record is
    /// appended (then compaction may run) and the old value is returned; if
    /// not, nothing is appended or changed and the result is empty — the
    /// not-found outcome is a value, not a failure.
    pub fn remove(&mut self, key: String) -> (r: Result<Option<String>, Error>)
        requires
            old(self).wf(),
        ensures
            r is Ok,
            final(self).wf(),
            final(self)@ == old(self)@.remove(key@),
            r->Ok_0 matches Some(v) ==> old(self)@.contains_key(key@) && v@ == old(self)@[key@],
            r->Ok_0 is None ==> !old(self)@.contains_key(key@) && final(self)@ == old(self)@
                && final(self).spec_log() == old(self).spec_log() && final(self).journal_view()
                == old(self).journal_view() && final(self).spec_log().len()
                == old(self).spec_log().len(),
            r->Ok_0 is Some ==> ({
                let grown = old(self).spec_log().push(CommandModel::Rm { key: key@ });
                if grown.len() >= 2 * final(self)@.dom().len() {
                    &&& all_puts(final(self).spec_log())
                    &&& final(self).spec_log().len() == final(self)@.dom().len()
                    &&& final(self).journal_view().len() == old(self).journal_view().len() + 2
                    &&& final(self).journal_view().take(old(self).journal_view().len() as int)
                        == old(self).journal_view()
                    &&& (final(self).journal_view()[old(self).journal_view().len() as int] matches
                        FileOp::Append { line } && line@ == encode_command(
                        CommandModel::Rm { key: key@ },
                    ))
                    &&& (final(self).journal_view().last() matches FileOp::Replace { content }
                        && content@ == encode_commands(final(self).spec_log()))
                } else {
                    &&& final(self).spec_log() == grown
                    &&& final(self).journal_view().len() == old(self).journal_view().len() + 1
                    &&& final(self).journal_view().take(old(self).journal_view().len() as int)
                        == old(self).journal_view()
                    &&& (final(self).journal_view().last() matches FileOp::Append { line }
                        && line@ == encode_command(CommandModel::Rm { key: key@ }))
                }
            }),
    {
        let value = match self.map.remove(&key) {
            Some(value) => value,
            None => {
                proof {
                    assert(old(self)@.remove(key@) =~= old(self)@);
                }
                return Ok(None);
            },
        };
        let cmd = Command::Rm { key: key.clone() };
        let line = match serialize_command(&cmd) {
            Ok(line) => line,
            Err(e) => {
                proof {
                    assert(false);
                }
                return Err(e);
            },
        };
        let ghost before_log = cmds_view(self.log@);
        self.log.push(cmd);
        self.log_count = self.log.len();
        self.journal.push(FileOp::Append { line });
        proof {
            assert(cmds_view(self.log@) =~= before_log.push(CommandModel::Rm { key: key@ }));
            lemma_replay_push(before_log, CommandModel::Rm { key: key@ });
            assert(self.journal@.take(self.journal@.len() - 1) =~= old(self).journal@);
        }
        if self.needs_compaction() {
            let ghost mid_journal = self.journal@;
            match self.compact() {
                Ok(()) => {},
                Err(e) => {
                    proof {
                        assert(false);
                    }
                    return Err(e);
                },
            }
            proof {
                assert(self.journal@.take(old(self).journal@.len() as int) =~= old(self).journal@);
                let oldlen = old(self).journal@.len() as int;
                let jv = self.journal@;
                assert(jv.take(mid_journal.len() as int)[oldlen] == jv[oldlen]);
                assert(jv[oldlen] == mid_journal[oldlen]);
            }
        }
        Ok(Some(value))
    }
}

} // verus!
