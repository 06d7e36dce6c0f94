//! The line-oriented wire protocol: a request is whitespace-separated
//! tokens `VERB key [value]` with a case-insensitive verb; the response is
//! one line, `OK <value>` or `ERR <message>`, or nothing where the protocol
//! sends no body.

use vstd::prelude::*;

use crate::codec::{CommandModel, is_ws, lemma_trim_range, trim};
use crate::err::Error;
use crate::kv_store::{Command, CommandResponse, ResponseModel};
use crate::text::{char_from_code, chars_to_string, str_to_chars};

verus! {

/// The position of the first space in `t`, or `t.len()` if there is none.
pub open spec fn find_sp(t: Seq<char>) -> int
    decreases t.len(),
{
    if t.len() == 0 {
        0
    } else if t[0] == ' ' {
        0
    } else {
        1 + find_sp(t.drop_first())
    }
}

/// Where the first space of a text stands, characterized without recursion.
proof fn lemma_find_sp_at(s: Seq<char>, k: int)
    requires
        0 <= k <= s.len(),
        forall|j: int| 0 <= j < k ==> s[j] != ' ',
        k < s.len() ==> s[k] == ' ',
    ensures
        find_sp(s) == k,
    decreases s.len(),
{
    if k > 0 {
        lemma_find_sp_at(s.drop_first(), k - 1);
    }
}

/// The words of a request: the text split on spaces, each piece trimmed of
/// whitespace, blank pieces dropped.
pub open spec fn tokens_of(t: Seq<char>) -> Seq<Seq<char>>
    decreases t.len(),
{
    let i = find_sp(t);
    if 0 <= i < t.len() {
        let w = trim(t.take(i));
        let rest = tokens_of(t.skip(i + 1));
        if w.len() == 0 {
            rest
        } else {
            seq![w] + rest
        }
    } else {
        let w = trim(t);
        if w.len() == 0 {
            seq![]
        } else {
            seq![w]
        }
    }
}

/// The views of a word sequence.
pub open spec fn words_view(ws: Seq<String>) -> Seq<Seq<char>> {
    ws.map_values(|w: String| w@)
}

/// Turns an incoming request into its words: split on spaces, trim each
/// word, drop the blank ones. A whitespace-only request yields no words and
/// is never treated as a malformed command.
pub fn tokenize(text: &String) -> (r: Vec<String>)
    ensures
        words_view(r@) == tokens_of(text@),
{
    let chars = str_to_chars(text.as_str());
    let ghost t0 = text@;
    let n = chars.len();
    let mut words: Vec<String> = Vec::new();
    let mut pos: usize = 0;
    proof {
        assert(t0.skip(0) =~= t0);
        assert(words_view(words@) =~= Seq::<Seq<char>>::empty());
    }
    while pos < n
        invariant
            t0 == text@,
            chars@ == t0,
            n == chars.len(),
            pos <= n,
            tokens_of(t0) == words_view(words@) + tokens_of(t0.skip(pos as int)),
        decreases n - pos,
    {
        let mut i: usize = pos;
        while i < n && chars[i] != ' '
            invariant
                chars@ == t0,
                n == chars.len(),
                pos <= i <= n,
                forall|j: int| pos <= j < i ==> t0[j] != ' ',
            decreases n - i,
        {
            i = i + 1;
        }
        proof {
            let s = t0.skip(pos as int);
            assert(forall|j: int| 0 <= j < i - pos ==> s[j] == t0[pos + j] && t0[pos + j] != ' ');
            if i < n {
                assert(s[i - pos] == t0[i as int]);
            }
            lemma_find_sp_at(s, i - pos);
        }
        let mut a: usize = pos;
        while a < i && is_ws_exec(chars[a])
            invariant
                chars@ == t0,
                pos <= a <= i <= n == chars.len(),
                forall|j: int| pos <= j < a ==> is_ws(t0[j]),
            decreases i - a,
        {
            a = a + 1;
        }
        let mut b: usize = i;
        while b > a && is_ws_exec(chars[b - 1])
            invariant
                chars@ == t0,
                pos <= a <= b <= i <= n == chars.len(),
                forall|j: int| b <= j < i ==> is_ws(t0[j]),
            decreases b,
        {
            b = b - 1;
        }
        let ghost piece = t0.skip(pos as int).take(i - pos);
        proof {
            assert(forall|j: int| 0 <= j < piece.len() ==> piece[j] == t0[pos + j]);
            lemma_trim_range(piece, a - pos, b - pos);
            assert(piece.subrange(a - pos, b - pos) =~= t0.subrange(a as int, b as int));
            if i < n {
                assert(t0.skip(pos as int).skip(i - pos + 1) =~= t0.skip(i + 1));
                assert(t0.skip(pos as int).take(i - pos) == piece);
            } else {
                assert(piece =~= t0.skip(pos as int));
            }
        }
        if a < b {
            let mut word_vec: Vec<char> = Vec::new();
            let mut j: usize = a;
            while j < b
                invariant
                    chars@ == t0,
                    a <= j <= b <= n == chars.len(),
                    word_vec@ == t0.subrange(a as int, j as int),
                decreases b - j,
            {
                word_vec.push(chars[j]);
                proof {
                    assert(t0.subrange(a as int, j + 1) =~= t0.subrange(a as int, j as int)
                        + seq![t0[j as int]]);
                }
                j = j + 1;
            }
            let ghost before = words_view(words@);
            words.push(chars_to_string(&word_vec));
            proof {
                assert(words_view(words@) =~= before + seq![trim(piece)]);
            }
        }
        if i >= n {
            proof {
                if trim(piece).len() == 0 {
                    assert(words_view(words@) + Seq::<Seq<char>>::empty() =~= words_view(words@));
                } else {
                    assert(words_view(words@) =~= tokens_of(t0));
                }
            }
            return words;
        }
        proof {
            if trim(piece).len() == 0 {
            } else {
                assert(words_view(words@) + tokens_of(t0.skip(i + 1)) =~= (words_view(words@).drop_last()
                    + seq![trim(piece)]) + tokens_of(t0.skip(i + 1)));
            }
        }
        pos = i + 1;
    }
    proof {
        let s = t0.skip(pos as int);
        assert(s.len() == 0);
        assert(find_sp(s) == 0);
        assert(trim(s) == s);
        assert(tokens_of(s) =~= Seq::<Seq<char>>::empty());
        assert(words_view(words@) + Seq::<Seq<char>>::empty() =~= words_view(words@));
    }
    words
}

/// Whether trimming removes this character.
fn is_ws_exec(c: char) -> (r: bool)
    ensures
        r == is_ws(c),
{
    c == ' ' || c == '\t' || c == '\n' || c == '\r' || c == '\u{b}' || c == '\u{c}'
}

/// A lower-case letter raised to upper case; anything else unchanged.
pub open spec fn upper_char(c: char) -> char {
    if 'a' <= c && c <= 'z' {
        ((c as u32) - 32) as char
    } else {
        c
    }
}

/// Case-insensitive equality of a word against an upper-case verb.
pub open spec fn eq_verb(w: Seq<char>, v: Seq<char>) -> bool {
    w.len() == v.len() && forall|i: int| 0 <= i < w.len() ==> upper_char(#[trigger] w[i]) == v[i]
}

/// A lower-case letter raised to upper case.
fn upper_char_exec(c: char) -> (r: char)
    ensures
        r == upper_char(c),
{
    if 'a' <= c && c <= 'z' {
        let d = (c as u32) - 32;
        proof {
            vstd::utf8::char_u32_cast(c, c as u32);
            assert(d < 0xD800);
        }
        char_from_code(d)
    } else {
        c
    }
}

/// Whether the word matches the verb, ignoring letter case.
fn eq_verb_exec(w: &String, v: &str) -> (r: bool)
    ensures
        r == eq_verb(w@, v@),
{
    let ws = w.as_str();
    let n = ws.unicode_len();
    if n != v.unicode_len() {
        return false;
    }
    let mut i: usize = 0;
    while i < n
        invariant
            n == w@.len() == v@.len(),
            ws@ == w@,
            i <= n,
            forall|j: int| 0 <= j < i ==> upper_char(#[trigger] w@[j]) == v@[j],
        decreases n - i,
    {
        if upper_char_exec(ws.get_char(i)) != v.get_char(i) {
            return false;
        }
        i = i + 1;
    }
    true
}

/// The command a word sequence stands for: `GET key`, `SET key value` or
/// `RM key`, the verb case-insensitive; anything else is malformed.
pub open spec fn parse_model(ws: Seq<Seq<char>>) -> Option<CommandModel> {
    if ws.len() == 2 && eq_verb(ws[0], "GET"@) {
        Some(CommandModel::Get { key: ws[1] })
    } else if ws.len() == 3 && eq_verb(ws[0], "SET"@) {
        Some(CommandModel::Put { key: ws[1], value: ws[2] })
    } else if ws.len() == 2 && eq_verb(ws[0], "RM"@) {
        Some(CommandModel::Rm { key: ws[1] })
    } else {
        None
    }
}

/// Reads a tokenized request as a command. Fails exactly on a word sequence
/// that matches no verb shape.
pub fn parse(words: Vec<String>) -> (r: Result<Command, Error>)
    ensures
        r is Ok <==> parse_model(words_view(words@)) is Some,
        r matches Ok(c) ==> parse_model(words_view(words@)) == Some(c@),
        r matches Err(e) ==> e matches Error::Whatever { message } && message@
            == "Invalid command"@,
{
    let ghost ws = words_view(words@);
    if words.len() == 2 && eq_verb_exec(&words[0], "GET") {
        proof {
            assert(ws[0] == words@[0]@ && ws[1] == words@[1]@);
        }
        Ok(Command::Get { key: words[1].clone() })
    } else if words.len() == 3 && eq_verb_exec(&words[0], "SET") {
        proof {
            assert(ws[0] == words@[0]@ && ws[1] == words@[1]@ && ws[2] == words@[2]@);
        }
        Ok(Command::Put { key: words[1].clone(), value: words[2].clone() })
    } else if words.len() == 2 && eq_verb_exec(&words[0], "RM") {
        proof {
            assert(ws[0] == words@[0]@ && ws[1] == words@[1]@);
        }
        Ok(Command::Rm { key: words[1].clone() })
    } else {
        proof {
            if words@.len() >= 1 {
                assert(ws[0] == words@[0]@);
            }
        }
        Err(Error::Whatever { message: String::from_str("Invalid command") })
    }
}

/// The single response line a response is framed as, if the protocol sends
/// one: a found value as `OK <value>`, a missing key as `ERR Key not
/// found`; a successful `Set` or `Rm` sends nothing.
pub open spec fn respond_model(r: ResponseModel) -> Option<Seq<char>> {
    match r {
        ResponseModel::Get { value } => match value {
            Some(v) => Some("OK "@ + v),
            None => Some("ERR Key not found"@),
        },
        ResponseModel::Put => None,
        ResponseModel::Rm { value } => match value {
            Some(_) => None,
            None => Some("ERR Key not found"@),
        },
    }
}

/// Frames a failure for the wire: a malformed request is answered with a
/// single `ERR <message>` line rather than dropped.
pub fn error_line(message: &String) -> (r: String)
    ensures
        r@ == "ERR "@ + message@,
{
    String::from_str("ERR ").concat(message.as_str())
}

/// Frames a response for the wire: the line to send, or nothing.
pub fn respond(command_response: &CommandResponse) -> (r: Option<String>)
    ensures
        respond_model(command_response@) matches Some(t) ==> r matches Some(s) && s@ == t,
        respond_model(command_response@) is None ==> r is None,
{
    match command_response {
        CommandResponse::Get { value } => match value {
            Some(v) => Some(String::from_str("OK ").concat(v.as_str())),
            None => Some(String::from_str("ERR Key not found")),
        },
        CommandResponse::Put {} => None,
        CommandResponse::Rm { value } => match value {
            Some(_) => None,
            None => Some(String::from_str("ERR Key not found")),
        },
    }
}

} // verus!
