use vstd::prelude::*;
use crate::text::{chars_to_string, str_to_chars};
use crate::ws::{SpecWsCommand, WsCommand};

verus! {

// ------------------------------------------------------------------
// JSON string escaping, exactly as the outbound frames are rendered.
// ------------------------------------------------------------------

/// The lowercase hex digit for a value below sixteen.
pub open spec fn hex_char(d: nat) -> char {
    if d == 0 {
        '0'
    } else if d == 1 {
        '1'
    } else if d == 2 {
        '2'
    } else if d == 3 {
        '3'
    } else if d == 4 {
        '4'
    } else if d == 5 {
        '5'
    } else if d == 6 {
        '6'
    } else if d == 7 {
        '7'
    } else if d == 8 {
        '8'
    } else if d == 9 {
        '9'
    } else if d == 10 {
        'a'
    } else if d == 11 {
        'b'
    } else if d == 12 {
        'c'
    } else if d == 13 {
        'd'
    } else if d == 14 {
        'e'
    } else {
        'f'
    }
}

/// How one character appears inside a rendered JSON string: quote and
/// backslash escaped, the five short control escapes, `\u00XX` for the other
/// control characters, everything else as itself.
pub open spec fn escape_char(c: char) -> Seq<char> {
    if c == '"' {
        seq!['\\', '"']
    } else if c == '\\' {
        seq!['\\', '\\']
    } else if (c as u32) == 8 {
        seq!['\\', 'b']
    } else if (c as u32) == 9 {
        seq!['\\', 't']
    } else if (c as u32) == 10 {
        seq!['\\', 'n']
    } else if (c as u32) == 12 {
        seq!['\\', 'f']
    } else if (c as u32) == 13 {
        seq!['\\', 'r']
    } else if (c as u32) < 32 {
        seq!['\\', 'u', '0', '0', hex_char(((c as u32) / 16) as nat), hex_char(
            ((c as u32) % 16) as nat,
        )]
    } else {
        seq![c]
    }
}

/// A whole string escaped for embedding between quotes.
pub open spec fn escape_seq(s: Seq<char>) -> Seq<char>
    decreases s.len(),
{
    if s.len() == 0 {
        Seq::<char>::empty()
    } else {
        escape_char(s[0]) + escape_seq(s.drop_first())
    }
}

proof fn lemma_escape_push(s: Seq<char>, c: char)
    ensures
        escape_seq(s.push(c)) == escape_seq(s) + escape_char(c),
    decreases s.len(),
{
    if s.len() == 0 {
        assert(s.push(c) =~= seq![c]);
        assert(seq![c].drop_first() =~= Seq::<char>::empty());
        assert(seq![c][0] == c);
        assert(escape_seq(seq![c]) == escape_char(c) + escape_seq(seq![c].drop_first()));
        assert(escape_seq(Seq::<char>::empty()) == Seq::<char>::empty());
        assert(escape_char(c) + Seq::<char>::empty() =~= escape_char(c));
        assert(escape_seq(s) + escape_char(c) =~= escape_char(c));
        assert(escape_seq(s.push(c)) == escape_seq(s) + escape_char(c));
    } else {
        assert(s.push(c).drop_first() =~= s.drop_first().push(c));
        lemma_escape_push(s.drop_first(), c);
        assert(escape_seq(s.push(c)) == escape_char(s[0]) + (escape_seq(s.drop_first())
            + escape_char(c)));
        assert(escape_char(s[0]) + (escape_seq(s.drop_first()) + escape_char(c)) =~= (escape_char(
            s[0],
        ) + escape_seq(s.drop_first())) + escape_char(c));
    }
}

fn hex_char_exec(d: u32) -> (c: char)
    requires
        d < 16,
    ensures
        c == hex_char(d as nat),
{
    match d {
        0 => '0',
        1 => '1',
        2 => '2',
        3 => '3',
        4 => '4',
        5 => '5',
        6 => '6',
        7 => '7',
        8 => '8',
        9 => '9',
        10 => 'a',
        11 => 'b',
        12 => 'c',
        13 => 'd',
        14 => 'e',
        _ => 'f',
    }
}

/// Escapes every character of the vector.
pub fn escape_chars(v: &Vec<char>) -> (out: Vec<char>)
    ensures
        out@ == escape_seq(v@),
{
    let mut out: Vec<char> = Vec::new();
    let n = v.len();
    let mut i: usize = 0;
    while i < n
        invariant
            i <= n,
            n == v@.len(),
            out@ == escape_seq(v@.take(i as int)),
        decreases n - i,
    {
        let c = v[i];
        let code = c as u32;
        let ghost pre = out@;
        if c == '"' {
            out.push('\\');
            out.push('"');
            proof {
                assert(escape_char(c) == seq!['\\', '"']);
                assert(out@ =~= pre + escape_char(c));
            }
        } else if c == '\\' {
            out.push('\\');
            out.push('\\');
            proof {
                assert(escape_char(c) == seq!['\\', '\\']);
                assert(out@ =~= pre + escape_char(c));
            }
        } else if code == 8 {
            out.push('\\');
            out.push('b');
            proof {
                assert(escape_char(c) == seq!['\\', 'b']);
                assert(out@ =~= pre + escape_char(c));
            }
        } else if code == 9 {
            out.push('\\');
            out.push('t');
            proof {
                assert(escape_char(c) == seq!['\\', 't']);
                assert(out@ =~= pre + escape_char(c));
            }
        } else if code == 10 {
            out.push('\\');
            out.push('n');
            proof {
                assert(escape_char(c) == seq!['\\', 'n']);
                assert(out@ =~= pre + escape_char(c));
            }
        } else if code == 12 {
            out.push('\\');
            out.push('f');
            proof {
                assert(escape_char(c) == seq!['\\', 'f']);
                assert(out@ =~= pre + escape_char(c));
            }
        } else if code == 13 {
            out.push('\\');
            out.push('r');
            proof {
                assert(escape_char(c) == seq!['\\', 'r']);
                assert(out@ =~= pre + escape_char(c));
            }
        } else if code < 32 {
            out.push('\\');
            out.push('u');
            out.push('0');
            out.push('0');
            out.push(hex_char_exec(code / 16));
            out.push(hex_char_exec(code % 16));
            proof {
                assert(escape_char(c) == seq!['\\', 'u', '0', '0', hex_char(
                    ((c as u32) / 16) as nat,
                ), hex_char(((c as u32) % 16) as nat)]);
                assert(out@ =~= pre + escape_char(c));
            }
        } else {
            out.push(c);
            proof {
                assert(escape_char(c) == seq![c]);
                assert(out@ =~= pre + escape_char(c));
            }
        }
        proof {
            lemma_escape_push(v@.take(i as int), c);
            assert(v@.take(i as int).push(c) =~= v@.take(i as int + 1));
        }
        i += 1;
    }
    proof {
        assert(v@.take(n as int) =~= v@);
    }
    out
}

// ------------------------------------------------------------------
// Outbound frames.
// ------------------------------------------------------------------

/// The response envelope a gateway sends after a subscribe or unsubscribe,
/// with keys in the order the serializer emits them.
pub open spec fn spec_response_json(
    topic: Seq<char>,
    request_id: Seq<char>,
    subscribed: bool,
) -> Seq<char> {
    "{\"request_id\":\""@ + escape_seq(request_id) + "\",\"subscribed\":"@ + (if subscribed {
        "true"@
    } else {
        "false"@
    }) + ",\"topic\":\""@ + escape_seq(topic) + "\",\"type\":\"response\"}"@
}

/// Renders the subscription response envelope.
pub fn render_subscription_response(topic: &String, request_id: &String, subscribed: bool) -> (r:
    String)
    ensures
        r@ == spec_response_json(topic@, request_id@, subscribed),
{
    let mut out = str_to_chars("{\"request_id\":\"");
    let rid_chars = str_to_chars(request_id.as_str());
    let mut rid = escape_chars(&rid_chars);
    out.append(&mut rid);
    let mut mid1 = str_to_chars("\",\"subscribed\":");
    out.append(&mut mid1);
    let mut bval = if subscribed {
        str_to_chars("true")
    } else {
        str_to_chars("false")
    };
    out.append(&mut bval);
    let mut mid2 = str_to_chars(",\"topic\":\"");
    out.append(&mut mid2);
    let topic_chars = str_to_chars(topic.as_str());
    let mut tesc = escape_chars(&topic_chars);
    out.append(&mut tesc);
    let mut tail = str_to_chars("\",\"type\":\"response\"}");
    out.append(&mut tail);
    proof {
        assert(out@ =~= spec_response_json(topic@, request_id@, subscribed));
    }
    chars_to_string(&out)
}

/// The event envelope a gateway sends to a subscribed socket: the payload
/// embedded as already-serialized JSON, the topic escaped.
pub open spec fn spec_event_json(topic: Seq<char>, payload: Seq<char>) -> Seq<char> {
    "{\"payload\":"@ + payload + ",\"topic\":\""@ + escape_seq(topic) + "\",\"type\":\"event\"}"@
}

/// Renders the event envelope around an already-serialized payload.
pub fn render_event(topic: &String, payload: &String) -> (r: String)
    ensures
        r@ == spec_event_json(topic@, payload@),
{
    let mut out = str_to_chars("{\"payload\":");
    let mut p = str_to_chars(payload.as_str());
    out.append(&mut p);
    let mut mid = str_to_chars(",\"topic\":\"");
    out.append(&mut mid);
    let topic_chars = str_to_chars(topic.as_str());
    let mut tesc = escape_chars(&topic_chars);
    out.append(&mut tesc);
    let mut tail = str_to_chars("\",\"type\":\"event\"}");
    out.append(&mut tail);
    proof {
        assert(out@ =~= spec_event_json(topic@, payload@));
    }
    chars_to_string(&out)
}

/// The subscribe command a thin client sends for a topic, with the fixed
/// request id such bindings use.
pub fn render_subscribe_command(topic: &String) -> (r: String)
    ensures
        r@ == "{\"type\":\"Subscribe\",\"topic\":\""@ + escape_seq(topic@)
            + "\",\"request_id\":\"subscribe_message\"}"@,
{
    let mut out = str_to_chars("{\"type\":\"Subscribe\",\"topic\":\"");
    let topic_chars = str_to_chars(topic.as_str());
    let mut tesc = escape_chars(&topic_chars);
    out.append(&mut tesc);
    let mut tail = str_to_chars("\",\"request_id\":\"subscribe_message\"}");
    out.append(&mut tail);
    proof {
        assert(out@ =~= "{\"type\":\"Subscribe\",\"topic\":\""@ + escape_seq(topic@)
            + "\",\"request_id\":\"subscribe_message\"}"@);
    }
    chars_to_string(&out)
}

/// The unsubscribe command a thin client sends for a topic.
pub fn render_unsubscribe_command(topic: &String) -> (r: String)
    ensures
        r@ == "{\"type\":\"Unsubscribe\",\"topic\":\""@ + escape_seq(topic@)
            + "\",\"request_id\":\"unsubscribe_message\"}"@,
{
    let mut out = str_to_chars("{\"type\":\"Unsubscribe\",\"topic\":\"");
    let topic_chars = str_to_chars(topic.as_str());
    let mut tesc = escape_chars(&topic_chars);
    out.append(&mut tesc);
    let mut tail = str_to_chars("\",\"request_id\":\"unsubscribe_message\"}");
    out.append(&mut tail);
    proof {
        assert(out@ =~= "{\"type\":\"Unsubscribe\",\"topic\":\""@ + escape_seq(topic@)
            + "\",\"request_id\":\"unsubscribe_message\"}"@);
    }
    chars_to_string(&out)
}

/// The keep-alive command a thin client sends.
pub fn render_ping_command() -> (r: String)
    ensures
        r@ == "{\"type\":\"Ping\"}"@,
{
    let out = str_to_chars("{\"type\":\"Ping\"}");
    chars_to_string(&out)
}

/// What re-serializing a JSON text yields: `Some` of the canonical rendering
/// when the text is valid JSON, `None` otherwise. A function of the text
/// alone.
pub uninterp spec fn json_canon(s: Seq<char>) -> Option<Seq<char>>;

/// Relies on serde_json: `from_str::<Value>` accepts or rejects the text as
/// a function of the text alone, and `Value::to_string` renders the parsed
/// value back canonically.
#[verifier::external_body]
pub fn normalize_json(s: &str) -> (r: Option<String>)
    ensures
        match r {
            Some(t) => json_canon(s@) == Some(t@),
            None => json_canon(s@) is None,
        },
{
    match serde_json::from_str::<serde_json::Value>(s) {
        Ok(v) => Some(v.to_string()),
        Err(_) => None,
    }
}

// ------------------------------------------------------------------
// Inbound command parsing.
// ------------------------------------------------------------------

/// The value of one hex digit, either case.
pub open spec fn hex_val(c: char) -> Option<nat> {
    let u = c as u32;
    if 48 <= u <= 57 {
        Some((u - 48) as nat)
    } else if 97 <= u <= 102 {
        Some((u - 87) as nat)
    } else if 65 <= u <= 70 {
        Some((u - 55) as nat)
    } else {
        None
    }
}

/// One escape sequence starting at the backslash at `i`: the character it
/// denotes and the index after the sequence. `\uXXXX` is accepted for ASCII
/// code points only.
pub open spec fn spec_unescape(s: Seq<char>, i: int) -> Option<(char, int)> {
    if 0 <= i && i + 1 < s.len() {
        let e = s[i + 1];
        if e == '"' {
            Some(('"', i + 2))
        } else if e == '\\' {
            Some(('\\', i + 2))
        } else if e == '/' {
            Some(('/', i + 2))
        } else if e == 'b' {
            Some(('\u{8}', i + 2))
        } else if e == 'f' {
            Some(('\u{C}', i + 2))
        } else if e == 'n' {
            Some(('\n', i + 2))
        } else if e == 'r' {
            Some(('\r', i + 2))
        } else if e == 't' {
            Some(('\t', i + 2))
        } else if e == 'u' && i + 5 < s.len() {
            match (hex_val(s[i + 2]), hex_val(s[i + 3]), hex_val(s[i + 4]), hex_val(s[i + 5])) {
                (Some(a), Some(b), Some(c), Some(d)) => {
                    let code = a * 4096 + b * 256 + c * 16 + d;
                    if code < 0xD800 || code >= 0xE000 {
                        Some(((code as u32) as char, i + 6))
                    } else {
                        None
                    }
                },
                _ => None,
            }
        } else {
            None
        }
    } else {
        None
    }
}

/// The decoded body of a JSON string whose opening quote stands just before
/// `i`: the characters up to the closing quote, and the index after it.
/// Unescaped control characters end the parse.
pub open spec fn spec_jstring(s: Seq<char>, i: int) -> Option<(Seq<char>, int)>
    decreases s.len() - i,
{
    if i < 0 || i >= s.len() {
        None
    } else if s[i] == '"' {
        Some((Seq::<char>::empty(), i + 1))
    } else if s[i] == '\\' {
        match spec_unescape(s, i) {
            Some((c, ni)) => if i < ni <= s.len() {
                match spec_jstring(s, ni) {
                    Some((rest, e)) => Some((seq![c] + rest, e)),
                    None => None,
                }
            } else {
                None
            },
            None => None,
        }
    } else if (s[i] as u32) >= 32 {
        match spec_jstring(s, i + 1) {
            Some((rest, e)) => Some((seq![s[i]] + rest, e)),
            None => None,
        }
    } else {
        None
    }
}

/// A parsed string body ends after its opening index and within the text.
pub proof fn lemma_jstring_bounds(s: Seq<char>, i: int)
    ensures
        match spec_jstring(s, i) {
            Some((cs, e)) => i < e <= s.len(),
            None => true,
        },
    decreases s.len() - i,
{
    if 0 <= i < s.len() {
        if s[i] == '\\' {
            match spec_unescape(s, i) {
                Some((c, ni)) => {
                    if i < ni <= s.len() {
                        lemma_jstring_bounds(s, ni);
                    }
                },
                None => {},
            }
        } else if s[i] != '"' && (s[i] as u32) >= 32 {
            lemma_jstring_bounds(s, i + 1);
        }
    }
}

/// Each hex digit the escaper emits reads back as its value.
proof fn lemma_hex_char_val(d: nat)
    requires
        d < 16,
    ensures
        hex_val(hex_char(d)) == Some(d),
{
}

/// An escape sequence is read the same under any prefix.
proof fn lemma_unescape_shift(pre: Seq<char>, s: Seq<char>, i: int)
    requires
        0 <= i,
    ensures
        spec_unescape(pre + s, pre.len() + i) == match spec_unescape(s, i) {
            Some((c, ni)) => Some((c, pre.len() + ni)),
            None => None::<(char, int)>,
        },
{
    let full = pre + s;
    let j = pre.len() + i;
    if i + 1 < s.len() {
        assert(full[j + 1] == s[i + 1]);
        if s[i + 1] == 'u' && i + 5 < s.len() {
            assert(full[j + 2] == s[i + 2]);
            assert(full[j + 3] == s[i + 3]);
            assert(full[j + 4] == s[i + 4]);
            assert(full[j + 5] == s[i + 5]);
        }
    }
}

/// A string body is decoded the same under any prefix.
proof fn lemma_jstring_shift(pre: Seq<char>, s: Seq<char>, i: int)
    requires
        0 <= i <= s.len(),
    ensures
        spec_jstring(pre + s, pre.len() + i) == match spec_jstring(s, i) {
            Some((cs, e)) => Some((cs, pre.len() + e)),
            None => None::<(Seq<char>, int)>,
        },
    decreases s.len() - i,
{
    let full = pre + s;
    let j = pre.len() + i;
    if i < s.len() {
        assert(full[j] == s[i]);
        if s[i] == '"' {
        } else if s[i] == '\\' {
            lemma_unescape_shift(pre, s, i);
            match spec_unescape(s, i) {
                Some((c, ni)) => {
                    if i < ni <= s.len() {
                        lemma_jstring_shift(pre, s, ni);
                    }
                },
                None => {},
            }
        } else if (s[i] as u32) >= 32 {
            lemma_jstring_shift(pre, s, i + 1);
        }
    }
}

/// Law: escaping round-trips through the parser. A string rendered into a
/// frame with `escape_seq` and closed with a quote is decoded back to
/// exactly the original characters, and the decoder stops right after the
/// closing quote, whatever follows it.
#[verifier::rlimit(50)]
pub proof fn lemma_escape_round_trip(s: Seq<char>, rest: Seq<char>)
    ensures
        spec_jstring(escape_seq(s) + (seq!['"'] + rest), 0) == Some((
            s,
            escape_seq(s).len() + 1int,
        )),
    decreases s.len(),
{
    broadcast use vstd::utf8::char_u32_cast;

    let tail = seq!['"'] + rest;
    let full = escape_seq(s) + tail;
    if s.len() == 0 {
        assert(full =~= tail);
        assert(full[0] == '"');
        assert(spec_jstring(full, 0) == Some((Seq::<char>::empty(), 1int)));
        assert(Seq::<char>::empty() =~= s);
    } else {
        let c = s[0];
        let s2 = s.drop_first();
        let esc = escape_char(c);
        lemma_escape_round_trip(s2, rest);
        let t2 = escape_seq(s2) + tail;
        assert(full =~= esc + t2);
        lemma_jstring_shift(esc, t2, 0);
        assert(spec_jstring(esc + t2, esc.len() as int) == Some((
            s2,
            esc.len() + (escape_seq(s2).len() + 1int),
        )));
        assert(escape_seq(s) == esc + escape_seq(s2));
        assert(seq![c] + s2 =~= s);
        let code = c as u32;
        if c == '"' || c == '\\' {
            assert(full[0] == '\\');
            assert(spec_unescape(full, 0) == Some((c, 2int)));
        } else if code == 8 || code == 9 || code == 10 || code == 12 || code == 13 {
            assert(full[0] == '\\');
            vstd::utf8::char_u32_cast(c, code);
            if code == 8 {
                vstd::utf8::char_u32_cast('\u{8}', code);
                assert(c == '\u{8}');
            } else if code == 9 {
                vstd::utf8::char_u32_cast('\t', code);
                assert(c == '\t');
            } else if code == 10 {
                vstd::utf8::char_u32_cast('\n', code);
                assert(c == '\n');
            } else if code == 12 {
                vstd::utf8::char_u32_cast('\u{C}', code);
                assert(c == '\u{C}');
            } else {
                vstd::utf8::char_u32_cast('\r', code);
                assert(c == '\r');
            }
            assert(spec_unescape(full, 0) == Some((c, 2int)));
        } else if code < 32 {
            assert(full[0] == '\\' && full[1] == 'u' && full[2] == '0' && full[3] == '0');
            assert(full[4] == hex_char((code / 16) as nat));
            assert(full[5] == hex_char((code % 16) as nat));
            lemma_hex_char_val((code / 16) as nat);
            lemma_hex_char_val((code % 16) as nat);
            assert(hex_val(full[2]) == Some(0nat));
            assert(hex_val(full[3]) == Some(0nat));
            let decoded = 0nat * 4096 + 0nat * 256 + (code / 16) as nat * 16 + (
            code % 16) as nat;
            assert(decoded == code as nat);
            let decoded_code = decoded as u32;
            assert(decoded_code == code);
            assert(spec_unescape(full, 0) == Some(((decoded_code as char), 6int)));
            vstd::utf8::char_u32_cast(c, code);
            assert((decoded_code as char) == c);
        } else {
            assert(full[0] == c);
            assert((full[0] as u32) >= 32 && full[0] != '"' && full[0] != '\\');
        }
    }
}

/// Escaping leaves a string without quotes, backslashes or control
/// characters unchanged.
proof fn lemma_escape_clean(s: Seq<char>)
    requires
        forall|i: int| 0 <= i < s.len() ==> (#[trigger] s[i] as u32) >= 32 && s[i] != '"'
            && s[i] != '\\',
    ensures
        escape_seq(s) == s,
    decreases s.len(),
{
    if s.len() > 0 {
        assert(escape_char(s[0]) == seq![s[0]]);
        lemma_escape_clean(s.drop_first());
        assert(seq![s[0]] + s.drop_first() =~= s);
    }
}

/// Reads one escape sequence, as `spec_unescape` describes it.
fn unescape_at(v: &Vec<char>, i: usize) -> (r: Option<(char, usize)>)
    requires
        i < v@.len(),
        v@[i as int] == '\\',
    ensures
        match r {
            Some((c, ni)) => spec_unescape(v@, i as int) == Some((c, ni as int)) && i < ni
                <= v@.len(),
            None => spec_unescape(v@, i as int) is None,
        },
{
    let n = v.len();
    if n - i <= 1 {
        return None;
    }
    let e = v[i + 1];
    match e {
        '"' => Some(('"', i + 2)),
        '\\' => Some(('\\', i + 2)),
        '/' => Some(('/', i + 2)),
        'b' => Some(('\u{8}', i + 2)),
        'f' => Some(('\u{C}', i + 2)),
        'n' => Some(('\n', i + 2)),
        'r' => Some(('\r', i + 2)),
        't' => Some(('\t', i + 2)),
        'u' => {
            if n - i <= 5 {
                return None;
            }
            let a = hex_val_exec(v[i + 2]);
            let b = hex_val_exec(v[i + 3]);
            let c = hex_val_exec(v[i + 4]);
            let d = hex_val_exec(v[i + 5]);
            match (a, b, c, d) {
                (Some(a), Some(b), Some(c), Some(d)) => {
                    let code: u32 = (a as u32) * 4096 + (b as u32) * 256 + (c as u32) * 16 + (
                    d as u32);
                    if code >= 0xD800 && code < 0xE000 {
                        return None;
                    }
                    match crate::text::char_from_u32(code) {
                        Some(ch) => {
                            proof {
                                vstd::utf8::char_u32_cast(ch, code);
                            }
                            Some((ch, i + 6))
                        },
                        None => {
                            proof {
                                assert(false);
                            }
                            None
                        },
                    }
                },
                _ => None,
            }
        },
        _ => None,
    }
}

/// The value of one hex digit character.
fn hex_val_exec(c: char) -> (r: Option<u8>)
    ensures
        match r {
            Some(d) => hex_val(c) == Some(d as nat) && d < 16,
            None => hex_val(c) is None,
        },
{
    let u = c as u32;
    if 48 <= u && u <= 57 {
        Some((u - 48) as u8)
    } else if 97 <= u && u <= 102 {
        Some((u - 87) as u8)
    } else if 65 <= u && u <= 70 {
        Some((u - 55) as u8)
    } else {
        None
    }
}

/// Decodes a string body starting at `start`, as `spec_jstring` describes.
fn parse_jstring(v: &Vec<char>, start: usize) -> (r: Option<(Vec<char>, usize)>)
    ensures
        match r {
            Some(p) => spec_jstring(v@, start as int) == Some((p.0@, p.1 as int)) && start < p.1
                <= v@.len(),
            None => spec_jstring(v@, start as int) is None,
        },
{
    proof {
        lemma_jstring_bounds(v@, start as int);
    }
    let mut acc: Vec<char> = Vec::new();
    let mut i = start;
    let n = v.len();
    if i >= n {
        return None;
    }
    while i < n
        invariant
            start <= i <= n,
            n == v@.len(),
            spec_jstring(v@, start as int) == (match spec_jstring(v@, i as int) {
                Some((rest, e)) => Some((acc@ + rest, e)),
                None => None::<(Seq<char>, int)>,
            }),
        decreases n - i,
    {
        let c = v[i];
        if c == '"' {
            proof {
                assert(acc@ + Seq::<char>::empty() =~= acc@);
                lemma_jstring_bounds(v@, start as int);
            }
            return Some((acc, i + 1));
        } else if c == '\\' {
            let ghost pre = acc@;
            match unescape_at(v, i) {
                None => {
                    return None;
                },
                Some((ch, ni)) => {
                    acc.push(ch);
                    proof {
                        if spec_jstring(v@, ni as int) is Some {
                            let rest = spec_jstring(v@, ni as int)->Some_0.0;
                            assert(acc@ + rest =~= pre + (seq![ch] + rest));
                        }
                    }
                    i = ni;
                },
            }
        } else if (c as u32) >= 32 {
            let ghost pre = acc@;
            acc.push(c);
            proof {
                if spec_jstring(v@, i as int + 1) is Some {
                    let rest = spec_jstring(v@, i as int + 1)->Some_0.0;
                    assert(acc@ + rest =~= pre + (seq![c] + rest));
                }
            }
            i = i + 1;
        } else {
            return None;
        }
    }
    None
}

// ------------------------------------------------------------------
// The command grammar: a JSON object of string members. Whitespace is
// insignificant, members may come in any order, and strings may use the
// JSON escapes with `\uXXXX` covering the basic multilingual plane.
// ------------------------------------------------------------------

/// JSON insignificant whitespace.
pub open spec fn is_ws(c: char) -> bool {
    c == ' ' || c == '\t' || c == '\n' || c == '\r'
}

/// The first index at or after `i` holding no whitespace.
pub open spec fn skip_ws(s: Seq<char>, i: int) -> int
    decreases s.len() - i,
{
    if 0 <= i < s.len() && is_ws(s[i]) {
        skip_ws(s, i + 1)
    } else {
        i
    }
}

/// Skipping whitespace stays within the text.
pub proof fn lemma_skip_ws_bounds(s: Seq<char>, i: int)
    requires
        0 <= i <= s.len(),
    ensures
        i <= skip_ws(s, i) <= s.len(),
    decreases s.len() - i,
{
    if i < s.len() && is_ws(s[i]) {
        lemma_skip_ws_bounds(s, i + 1);
    }
}

/// One `"key":"value"` member, whitespace allowed around the tokens: the
/// decoded key and value, and the index after the value's closing quote.
pub open spec fn spec_member(s: Seq<char>, i: int) -> Option<((Seq<char>, Seq<char>), int)> {
    let k0 = skip_ws(s, i);
    if k0 < s.len() && s[k0] == '"' {
        match spec_jstring(s, k0 + 1) {
            Some((key, a)) => {
                let b = skip_ws(s, a);
                if b < s.len() && s[b] == ':' {
                    let c0 = skip_ws(s, b + 1);
                    if c0 < s.len() && s[c0] == '"' {
                        match spec_jstring(s, c0 + 1) {
                            Some((val, e)) => Some(((key, val), e)),
                            None => None,
                        }
                    } else {
                        None
                    }
                } else {
                    None
                }
            },
            None => None,
        }
    } else {
        None
    }
}

/// One or more comma-separated members followed by the closing brace: the
/// members in order, and the index after the brace.
pub open spec fn spec_members(s: Seq<char>, i: int) -> Option<(
    Seq<(Seq<char>, Seq<char>)>,
    int,
)>
    decreases s.len() - i,
{
    match spec_member(s, i) {
        None => None,
        Some(((k, v), e)) => {
            let j = skip_ws(s, e);
            if j < s.len() && s[j] == ',' {
                if i < j + 1 <= s.len() {
                    match spec_members(s, j + 1) {
                        Some((rest, f)) => Some((seq![(k, v)] + rest, f)),
                        None => None,
                    }
                } else {
                    None
                }
            } else if j < s.len() && s[j] == '}' {
                Some((seq![(k, v)], j + 1))
            } else {
                None
            }
        },
    }
}

/// The texts accepted as an object of string members: optional whitespace,
/// a brace, at least one member, a brace, optional trailing whitespace.
pub open spec fn spec_parse_object(s: Seq<char>) -> Option<Seq<(Seq<char>, Seq<char>)>> {
    let i = skip_ws(s, 0);
    if i < s.len() && s[i] == '{' {
        match spec_members(s, i + 1) {
            Some((pairs, e)) => if skip_ws(s, e) == s.len() {
                Some(pairs)
            } else {
                None
            },
            None => None,
        }
    } else {
        None
    }
}

/// No two members share a key.
pub open spec fn pairs_distinct(pairs: Seq<(Seq<char>, Seq<char>)>) -> bool {
    forall|n: int, m: int|
        0 <= n < m < pairs.len() ==> (#[trigger] pairs[n]).0 != (#[trigger] pairs[m]).0
}

/// Some member carries the key.
pub open spec fn pairs_has(pairs: Seq<(Seq<char>, Seq<char>)>, k: Seq<char>) -> bool {
    exists|n: int| 0 <= n < pairs.len() && (#[trigger] pairs[n]).0 == k
}

/// The value of the member carrying the key.
pub open spec fn pairs_get(pairs: Seq<(Seq<char>, Seq<char>)>, k: Seq<char>) -> Seq<char> {
    (pairs[choose|n: int| 0 <= n < pairs.len() && (#[trigger] pairs[n]).0 == k]).1
}

/// Under distinct keys, the member at `n` is what `pairs_get` yields.
pub proof fn lemma_pairs_get(pairs: Seq<(Seq<char>, Seq<char>)>, n: int)
    requires
        pairs_distinct(pairs),
        0 <= n < pairs.len(),
    ensures
        pairs_has(pairs, pairs[n].0),
        pairs_get(pairs, pairs[n].0) == pairs[n].1,
{
    assert(pairs_has(pairs, pairs[n].0));
    let m = choose|m: int| 0 <= m < pairs.len() && (#[trigger] pairs[m]).0 == pairs[n].0;
    if n < m {
        assert(pairs[n].0 != pairs[m].0);
    } else if m < n {
        assert(pairs[m].0 != pairs[n].0);
    }
}

/// What the members of an accepted object must be: a `type` member naming
/// one of the three commands; `Ping` alone, the other two with exactly a
/// `topic` and a `request_id`; no duplicate and no further member.
pub open spec fn spec_interpret(pairs: Seq<(Seq<char>, Seq<char>)>) -> Option<SpecWsCommand> {
    if !pairs_distinct(pairs) {
        None
    } else if !pairs_has(pairs, "type"@) {
        None
    } else {
        let ty = pairs_get(pairs, "type"@);
        if ty == "Ping"@ {
            if pairs.len() == 1 {
                Some(SpecWsCommand::Ping)
            } else {
                None
            }
        } else if ty == "Subscribe"@ || ty == "Unsubscribe"@ {
            if pairs.len() == 3 && pairs_has(pairs, "topic"@) && pairs_has(
                pairs,
                "request_id"@,
            ) {
                if ty == "Subscribe"@ {
                    Some(
                        SpecWsCommand::Subscribe {
                            topic: pairs_get(pairs, "topic"@),
                            request_id: pairs_get(pairs, "request_id"@),
                        },
                    )
                } else {
                    Some(
                        SpecWsCommand::Unsubscribe {
                            topic: pairs_get(pairs, "topic"@),
                            request_id: pairs_get(pairs, "request_id"@),
                        },
                    )
                }
            } else {
                None
            }
        } else {
            None
        }
    }
}

/// The texts the gateway accepts from a client: the three commands of the
/// wire schema, read with JSON semantics.
pub open spec fn spec_parse_command(s: Seq<char>) -> Option<SpecWsCommand> {
    match spec_parse_object(s) {
        Some(pairs) => spec_interpret(pairs),
        None => None,
    }
}

/// The views of a parsed member list.
pub open spec fn kv_views(q: Seq<(String, String)>) -> Seq<(Seq<char>, Seq<char>)> {
    q.map_values(|p: (String, String)| (p.0@, p.1@))
}

/// Skips whitespace, as `skip_ws` describes.
fn skip_ws_at(v: &Vec<char>, i: usize) -> (r: usize)
    requires
        i <= v@.len(),
    ensures
        r as int == skip_ws(v@, i as int),
        i <= r <= v@.len(),
{
    let n = v.len();
    let mut cur = i;
    while cur < n && is_ws_exec(v[cur])
        invariant
            i <= cur <= n,
            n == v@.len(),
            skip_ws(v@, i as int) == skip_ws(v@, cur as int),
        decreases n - cur,
    {
        cur += 1;
    }
    cur
}

/// Whether the character is JSON whitespace.
fn is_ws_exec(c: char) -> (r: bool)
    ensures
        r == is_ws(c),
{
    c == ' ' || c == '\t' || c == '\n' || c == '\r'
}

/// Reads one member, as `spec_member` describes.
fn parse_member(v: &Vec<char>, i: usize) -> (r: Option<((String, String), usize)>)
    requires
        i <= v@.len(),
    ensures
        match r {
            Some(p) => spec_member(v@, i as int) == Some((((p.0).0@, (p.0).1@), p.1 as int))
                && i < p.1 <= v@.len(),
            None => spec_member(v@, i as int) is None,
        },
{
    let k0 = skip_ws_at(v, i);
    if k0 >= v.len() {
        return None;
    }
    if v[k0] != '"' {
        return None;
    }
    match parse_jstring(v, k0 + 1) {
        None => None,
        Some((key, a)) => {
            let b = skip_ws_at(v, a);
            if b >= v.len() {
                return None;
            }
            if v[b] != ':' {
                return None;
            }
            let c0 = skip_ws_at(v, b + 1);
            if c0 >= v.len() {
                return None;
            }
            if v[c0] != '"' {
                return None;
            }
            match parse_jstring(v, c0 + 1) {
                None => None,
                Some((val, e)) => Some(((chars_to_string(&key), chars_to_string(&val)), e)),
            }
        },
    }
}

/// Reads the member list and the closing brace, as `spec_members` does.
fn parse_members(v: &Vec<char>, start: usize) -> (r: Option<(Vec<(String, String)>, usize)>)
    requires
        start <= v@.len(),
    ensures
        match r {
            Some(p) => spec_members(v@, start as int) == Some((kv_views(p.0@), p.1 as int))
                && p.1 <= v@.len(),
            None => spec_members(v@, start as int) is None,
        },
{
    let mut acc: Vec<(String, String)> = Vec::new();
    let mut pos = start;
    loop
        invariant
            pos <= v@.len(),
            spec_members(v@, start as int) == (match spec_members(v@, pos as int) {
                Some((rest, f)) => Some((kv_views(acc@) + rest, f)),
                None => None::<(Seq<(Seq<char>, Seq<char>)>, int)>,
            }),
        decreases v@.len() - pos,
    {
        match parse_member(v, pos) {
            None => {
                return None;
            },
            Some(((k, val), e)) => {
                let ghost kk = k@;
                let ghost vv = val@;
                let ghost pre = acc@;
                acc.push((k, val));
                proof {
                    assert(kv_views(acc@) =~= kv_views(pre) + seq![(kk, vv)]);
                }
                let j = skip_ws_at(v, e);
                if j < v.len() && v[j] == ',' {
                    proof {
                        if spec_members(v@, j + 1) is Some {
                            let rest = spec_members(v@, j + 1)->Some_0.0;
                            assert((kv_views(pre) + seq![(kk, vv)]) + rest =~= kv_views(pre) + (
                            seq![(kk, vv)] + rest));
                        }
                    }
                    pos = j + 1;
                } else if j < v.len() && v[j] == '}' {
                    proof {
                        assert(kv_views(pre) + seq![(kk, vv)] =~= kv_views(pre) + seq![
                            (kk, vv),
                        ]);
                    }
                    return Some((acc, j + 1));
                } else {
                    return None;
                }
            },
        }
    }
}

/// Finds the member carrying the key, if one does.
fn find_pair(pairs: &Vec<(String, String)>, key: &String) -> (r: Option<usize>)
    ensures
        match r {
            Some(i) => i < pairs@.len() && kv_views(pairs@)[i as int].0 == key@,
            None => !pairs_has(kv_views(pairs@), key@),
        },
{
    let n = pairs.len();
    let mut i: usize = 0;
    while i < n
        invariant
            i <= n,
            n == pairs@.len(),
            forall|j: int| 0 <= j < i ==> (#[trigger] kv_views(pairs@)[j]).0 != key@,
        decreases n - i,
    {
        if pairs[i].0 == *key {
            return Some(i);
        }
        i += 1;
    }
    None
}

/// Judges a parsed member list, as `spec_interpret` describes.
fn interpret_pairs(pairs: &Vec<(String, String)>) -> (r: Option<WsCommand>)
    ensures
        match r {
            Some(c) => spec_interpret(kv_views(pairs@)) == Some(c@),
            None => spec_interpret(kv_views(pairs@)) is None,
        },
{
    let ghost pv = kv_views(pairs@);
    let n = pairs.len();
    let mut a: usize = 1;
    while a < n
        invariant
            1 <= a,
            a <= n || n == 0,
            n == pairs@.len(),
            pv == kv_views(pairs@),
            forall|x: int, y: int| 0 <= x < y < a ==> (#[trigger] pv[x]).0 != (#[trigger] pv[y]).0,
        decreases n - a,
    {
        let mut b: usize = 0;
        while b < a
            invariant
                b <= a < n,
                n == pairs@.len(),
                pv == kv_views(pairs@),
                forall|x: int| 0 <= x < b ==> (#[trigger] pv[x]).0 != pv[a as int].0,
            decreases a - b,
        {
            if pairs[b].0 == pairs[a].0 {
                proof {
                    assert(pv[b as int].0 == pairs@[b as int].0@);
                    assert(pv[a as int].0 == pairs@[a as int].0@);
                    assert(pv[b as int].0 == pv[a as int].0);
                    assert(!pairs_distinct(pv));
                }
                return None;
            }
            b += 1;
        }
        a += 1;
    }
    proof {
        assert(pairs_distinct(pv));
    }
    let ty_key = String::from_str("type");
    match find_pair(pairs, &ty_key) {
        None => None,
        Some(ti) => {
            proof {
                lemma_pairs_get(pv, ti as int);
            }
            let ping = String::from_str("Ping");
            let subs = String::from_str("Subscribe");
            let unsubs = String::from_str("Unsubscribe");
            if pairs[ti].1 == ping {
                if pairs.len() == 1 {
                    Some(WsCommand::Ping)
                } else {
                    None
                }
            } else if pairs[ti].1 == subs || pairs[ti].1 == unsubs {
                if pairs.len() != 3 {
                    return None;
                }
                let topic_key = String::from_str("topic");
                let rid_key = String::from_str("request_id");
                match (find_pair(pairs, &topic_key), find_pair(pairs, &rid_key)) {
                    (Some(pi), Some(ri)) => {
                        proof {
                            lemma_pairs_get(pv, pi as int);
                            lemma_pairs_get(pv, ri as int);
                        }
                        let topic = pairs[pi].1.clone();
                        let request_id = pairs[ri].1.clone();
                        if pairs[ti].1 == subs {
                            Some(WsCommand::Subscribe { topic, request_id })
                        } else {
                            Some(WsCommand::Unsubscribe { topic, request_id })
                        }
                    },
                    _ => None,
                }
            } else {
                None
            }
        },
    }
}

/// Parses one inbound client text, accepting exactly the texts
/// `spec_parse_command` describes. Anything else is no command, and the
/// connection handler closes the socket on it.
pub fn parse_command(text: &str) -> (r: Option<WsCommand>)
    ensures
        match r {
            Some(c) => spec_parse_command(text@) == Some(c@),
            None => spec_parse_command(text@) is None,
        },
{
    let v = str_to_chars(text);
    let i = skip_ws_at(&v, 0);
    if i >= v.len() {
        return None;
    }
    if v[i] != '{' {
        return None;
    }
    match parse_members(&v, i + 1) {
        None => None,
        Some((pairs, e)) => {
            let f = skip_ws_at(&v, e);
            if f != v.len() {
                return None;
            }
            interpret_pairs(&pairs)
        },
    }
}

/// The compact text of one `"key":"value"` member.
pub open spec fn member_text(k: Seq<char>, v: Seq<char>) -> Seq<char> {
    seq!['"'] + escape_seq(k) + seq!['"', ':', '"'] + escape_seq(v) + seq!['"']
}

/// A compact member starting at `pre.len()` is read back as its key and
/// value, ending right after its closing quote.
#[verifier::rlimit(50)]
proof fn lemma_member_eval(pre: Seq<char>, k: Seq<char>, v: Seq<char>, rest: Seq<char>)
    ensures
        spec_member(pre + (member_text(k, v) + rest), pre.len() as int) == Some((
            (k, v),
            pre.len() + member_text(k, v).len() as int,
        )),
{
    let s = pre + (member_text(k, v) + rest);
    let p = pre.len() as int;
    let ek = escape_seq(k).len() as int;
    let ev = escape_seq(v).len() as int;
    assert(member_text(k, v).len() == ek + ev + 5);
    assert(s[p] == '"');
    assert(skip_ws(s, p) == p);
    let r1 = seq![':', '"'] + (escape_seq(v) + (seq!['"'] + rest));
    assert(s =~= (pre + seq!['"']) + (escape_seq(k) + (seq!['"'] + r1)));
    lemma_escape_round_trip(k, r1);
    lemma_jstring_shift(pre + seq!['"'], escape_seq(k) + (seq!['"'] + r1), 0);
    assert(spec_jstring(s, p + 1) == Some((k, p + ek + 2)));
    let a = p + ek + 2;
    assert(s[a] == ':');
    assert(skip_ws(s, a) == a);
    assert(s[a + 1] == '"');
    assert(skip_ws(s, a + 1) == a + 1);
    let pre2 = pre + (seq!['"'] + escape_seq(k) + seq!['"', ':', '"']);
    assert(pre2.len() == p + ek + 4);
    assert(s =~= pre2 + (escape_seq(v) + (seq!['"'] + rest)));
    lemma_escape_round_trip(v, rest);
    lemma_jstring_shift(pre2, escape_seq(v) + (seq!['"'] + rest), 0);
    assert(spec_jstring(s, p + ek + 4) == Some((v, p + ek + 4 + ev + 1)));
}

/// The three member reads of a compact three-member object.
#[verifier::rlimit(100)]
#[verifier::spinoff_prover]
proof fn lemma_object_three_members(
    s: Seq<char>,
    tk: Seq<char>,
    tv: Seq<char>,
    pk: Seq<char>,
    pv: Seq<char>,
    rk: Seq<char>,
    rv: Seq<char>,
)
    requires
        s == seq!['{'] + (member_text(tk, tv) + (seq![','] + (member_text(pk, pv) + (seq![','] + (
        member_text(rk, rv) + seq!['}']))))),
    ensures
        spec_member(s, 1) == Some(((tk, tv), 1 + member_text(tk, tv).len() as int)),
        spec_member(s, 2 + member_text(tk, tv).len() as int) == Some((
            (pk, pv),
            2 + member_text(tk, tv).len() + member_text(pk, pv).len() as int,
        )),
        spec_member(s, 3 + member_text(tk, tv).len() + member_text(pk, pv).len() as int)
            == Some((
            (rk, rv),
            3 + member_text(tk, tv).len() + member_text(pk, pv).len() + member_text(
                rk,
                rv,
            ).len() as int,
        )),
{
    let mt1 = member_text(tk, tv);
    let mt2 = member_text(pk, pv);
    let mt3 = member_text(rk, rv);
    lemma_member_eval(seq!['{'], tk, tv, seq![','] + (mt2 + (seq![','] + (mt3 + seq!['}']))));
    let e1 = 1 + mt1.len() as int;
    let pre2 = seq!['{'] + (mt1 + seq![',']);
    assert(pre2.len() == e1 + 1);
    assert(s =~= pre2 + (mt2 + (seq![','] + (mt3 + seq!['}']))));
    lemma_member_eval(pre2, pk, pv, seq![','] + (mt3 + seq!['}']));
    let e2 = e1 + 1 + mt2.len() as int;
    let pre3 = pre2 + (mt2 + seq![',']);
    assert(pre3.len() == e2 + 1);
    assert(s =~= pre3 + (mt3 + seq!['}']));
    lemma_member_eval(pre3, rk, rv, seq!['}']);
}

/// The member-list read of a compact three-member object.
#[verifier::rlimit(100)]
#[verifier::spinoff_prover]
proof fn lemma_object_three_list(
    s: Seq<char>,
    tk: Seq<char>,
    tv: Seq<char>,
    pk: Seq<char>,
    pv: Seq<char>,
    rk: Seq<char>,
    rv: Seq<char>,
)
    requires
        s == seq!['{'] + (member_text(tk, tv) + (seq![','] + (member_text(pk, pv) + (seq![','] + (
        member_text(rk, rv) + seq!['}']))))),
    ensures
        spec_members(s, 1) == Some((
            seq![(tk, tv)] + (seq![(pk, pv)] + seq![(rk, rv)]),
            s.len() as int,
        )),
{
    let mt1 = member_text(tk, tv);
    let mt2 = member_text(pk, pv);
    let mt3 = member_text(rk, rv);
    lemma_object_three_members(s, tk, tv, pk, pv, rk, rv);
    let e1 = 1 + mt1.len() as int;
    let e2 = e1 + 1 + mt2.len() as int;
    let e3 = e2 + 1 + mt3.len() as int;
    assert(s[e1] == ',');
    assert(skip_ws(s, e1) == e1);
    assert(s[e2] == ',');
    assert(skip_ws(s, e2) == e2);
    assert(s[e3] == '}');
    assert(skip_ws(s, e3) == e3);
    assert(spec_members(s, e2 + 1) == Some((seq![(rk, rv)], e3 + 1)));
    assert(spec_members(s, e1 + 1) == Some((seq![(pk, pv)] + seq![(rk, rv)], e3 + 1)));
    assert(e3 + 1 == s.len());
}

/// A compact object of three members is read back as exactly those members.
#[verifier::rlimit(100)]
#[verifier::spinoff_prover]
proof fn lemma_object_three(
    s: Seq<char>,
    tk: Seq<char>,
    tv: Seq<char>,
    pk: Seq<char>,
    pv: Seq<char>,
    rk: Seq<char>,
    rv: Seq<char>,
)
    requires
        s == seq!['{'] + (member_text(tk, tv) + (seq![','] + (member_text(pk, pv) + (seq![','] + (
        member_text(rk, rv) + seq!['}']))))),
    ensures
        spec_parse_object(s) == Some(seq![(tk, tv), (pk, pv), (rk, rv)]),
{
    lemma_object_three_list(s, tk, tv, pk, pv, rk, rv);
    assert(s[0] == '{');
    assert(skip_ws(s, 0) == 0);
    assert(skip_ws(s, s.len() as int) == s.len() as int);
    assert(seq![(tk, tv)] + (seq![(pk, pv)] + seq![(rk, rv)]) =~= seq![
        (tk, tv),
        (pk, pv),
        (rk, rv),
    ]);
}

/// Law: the rendered keep-alive command parses back to the keep-alive.
#[verifier::rlimit(50)]
pub proof fn lemma_ping_command_round_trip()
    ensures
        spec_parse_command("{\"type\":\"Ping\"}"@) == Some(SpecWsCommand::Ping),
{
    reveal_strlit("{\"type\":\"Ping\"}");
    reveal_strlit("type");
    reveal_strlit("Ping");
    let s = "{\"type\":\"Ping\"}"@;
    let tk = "type"@;
    let tv = "Ping"@;
    assert(forall|i: int|
        0 <= i < tk.len() ==> ((#[trigger] tk[i]) as u32) >= 32 && tk[i] != '"' && tk[i]
            != '\\');
    assert(forall|i: int|
        0 <= i < tv.len() ==> ((#[trigger] tv[i]) as u32) >= 32 && tv[i] != '"' && tv[i]
            != '\\');
    lemma_escape_clean(tk);
    lemma_escape_clean(tv);
    let mt1 = member_text(tk, tv);
    assert(mt1.len() == 13);
    assert(s =~= seq!['{'] + (mt1 + seq!['}']));
    assert(s[0] == '{');
    assert(skip_ws(s, 0) == 0);
    lemma_member_eval(seq!['{'], tk, tv, seq!['}']);
    let e1 = 1 + mt1.len() as int;
    assert(spec_member(s, 1) == Some(((tk, tv), e1)));
    assert(s[e1] == '}');
    assert(skip_ws(s, e1) == e1);
    assert(spec_members(s, 1) == Some((seq![(tk, tv)], e1 + 1)));
    assert(e1 + 1 == s.len());
    assert(skip_ws(s, e1 + 1) == e1 + 1);
    let pairs = seq![(tk, tv)];
    assert(spec_parse_object(s) == Some(pairs));
    assert(pairs_distinct(pairs));
    lemma_pairs_get(pairs, 0);
    assert(pairs_has(pairs, "type"@));
    assert(pairs_get(pairs, "type"@) == tv);
    assert(spec_interpret(pairs) == Some(SpecWsCommand::Ping));
}

/// Law: the rendered subscribe command parses back to exactly the
/// subscribe it encodes, for every topic.
#[verifier::rlimit(100)]
pub proof fn lemma_subscribe_command_round_trip(topic: Seq<char>)
    ensures
        spec_parse_command(
            "{\"type\":\"Subscribe\",\"topic\":\""@ + escape_seq(topic)
                + "\",\"request_id\":\"subscribe_message\"}"@,
        ) == Some(SpecWsCommand::Subscribe { topic: topic, request_id: "subscribe_message"@ }),
{
    reveal_strlit("{\"type\":\"Subscribe\",\"topic\":\"");
    reveal_strlit("\",\"request_id\":\"subscribe_message\"}");
    reveal_strlit("type");
    reveal_strlit("topic");
    reveal_strlit("request_id");
    reveal_strlit("Subscribe");
    reveal_strlit("subscribe_message");
    reveal_strlit("Ping");
    let s = "{\"type\":\"Subscribe\",\"topic\":\""@ + escape_seq(topic)
        + "\",\"request_id\":\"subscribe_message\"}"@;
    let tk = "type"@;
    let tv = "Subscribe"@;
    let pk = "topic"@;
    let rk = "request_id"@;
    let rv = "subscribe_message"@;
    assert(forall|i: int|
        0 <= i < tk.len() ==> ((#[trigger] tk[i]) as u32) >= 32 && tk[i] != '"' && tk[i]
            != '\\');
    assert(forall|i: int|
        0 <= i < tv.len() ==> ((#[trigger] tv[i]) as u32) >= 32 && tv[i] != '"' && tv[i]
            != '\\');
    assert(forall|i: int|
        0 <= i < pk.len() ==> ((#[trigger] pk[i]) as u32) >= 32 && pk[i] != '"' && pk[i]
            != '\\');
    assert(forall|i: int|
        0 <= i < rk.len() ==> ((#[trigger] rk[i]) as u32) >= 32 && rk[i] != '"' && rk[i]
            != '\\');
    assert(forall|i: int|
        0 <= i < rv.len() ==> ((#[trigger] rv[i]) as u32) >= 32 && rv[i] != '"' && rv[i]
            != '\\');
    lemma_escape_clean(tk);
    lemma_escape_clean(tv);
    lemma_escape_clean(pk);
    lemma_escape_clean(rk);
    lemma_escape_clean(rv);
    let mt1 = member_text(tk, tv);
    let mt2 = member_text(pk, topic);
    let mt3 = member_text(rk, rv);
    assert(mt1.len() == 18);
    assert(mt3.len() == 32);
    assert(s =~= seq!['{'] + (mt1 + (seq![','] + (mt2 + (seq![','] + (mt3 + seq!['}']))))));
    lemma_object_three(s, tk, tv, pk, topic, rk, rv);
    let pairs = seq![(tk, tv), (pk, topic), (rk, rv)];
    assert(spec_parse_object(s) == Some(pairs));
    assert(tk != pk) by {
        assert(tk.len() != pk.len());
    }
    assert(tk != rk) by {
        assert(tk.len() != rk.len());
    }
    assert(pk != rk) by {
        assert(pk.len() != rk.len());
    }
    assert(pairs_distinct(pairs));
    lemma_pairs_get(pairs, 0);
    lemma_pairs_get(pairs, 1);
    lemma_pairs_get(pairs, 2);
    assert(pairs_has(pairs, "type"@));
    assert(pairs_get(pairs, "type"@) == tv);
    assert(tv != "Ping"@) by {
        assert(tv.len() != "Ping"@.len());
    }
    assert(pairs_get(pairs, "topic"@) == topic);
    assert(pairs_get(pairs, "request_id"@) == rv);
    assert(spec_interpret(pairs) == Some(
        SpecWsCommand::Subscribe { topic: topic, request_id: rv },
    ));
}

/// The rendered unsubscribe command is one compact three-member object.
#[verifier::rlimit(100)]
#[verifier::spinoff_prover]
proof fn lemma_unsubscribe_text(topic: Seq<char>)
    ensures
        "{\"type\":\"Unsubscribe\",\"topic\":\""@ + escape_seq(topic)
            + "\",\"request_id\":\"unsubscribe_message\"}"@ == seq!['{'] + (member_text(
            "type"@,
            "Unsubscribe"@,
        ) + (seq![','] + (member_text("topic"@, topic) + (seq![','] + (member_text(
            "request_id"@,
            "unsubscribe_message"@,
        ) + seq!['}']))))),
{
    reveal_strlit("{\"type\":\"Unsubscribe\",\"topic\":\"");
    reveal_strlit("\",\"request_id\":\"unsubscribe_message\"}");
    reveal_strlit("type");
    reveal_strlit("topic");
    reveal_strlit("request_id");
    reveal_strlit("Unsubscribe");
    reveal_strlit("unsubscribe_message");
    let tk = "type"@;
    let tv = "Unsubscribe"@;
    let pk = "topic"@;
    let rk = "request_id"@;
    let rv = "unsubscribe_message"@;
    assert(forall|i: int|
        0 <= i < tk.len() ==> ((#[trigger] tk[i]) as u32) >= 32 && tk[i] != '"' && tk[i]
            != '\\');
    assert(forall|i: int|
        0 <= i < tv.len() ==> ((#[trigger] tv[i]) as u32) >= 32 && tv[i] != '"' && tv[i]
            != '\\');
    assert(forall|i: int|
        0 <= i < pk.len() ==> ((#[trigger] pk[i]) as u32) >= 32 && pk[i] != '"' && pk[i]
            != '\\');
    assert(forall|i: int|
        0 <= i < rk.len() ==> ((#[trigger] rk[i]) as u32) >= 32 && rk[i] != '"' && rk[i]
            != '\\');
    assert(forall|i: int|
        0 <= i < rv.len() ==> ((#[trigger] rv[i]) as u32) >= 32 && rv[i] != '"' && rv[i]
            != '\\');
    lemma_escape_clean(tk);
    lemma_escape_clean(tv);
    lemma_escape_clean(pk);
    lemma_escape_clean(rk);
    lemma_escape_clean(rv);
    let s = "{\"type\":\"Unsubscribe\",\"topic\":\""@ + escape_seq(topic)
        + "\",\"request_id\":\"unsubscribe_message\"}"@;
    let mt1 = member_text(tk, tv);
    let mt2 = member_text(pk, topic);
    let mt3 = member_text(rk, rv);
    assert(s =~= seq!['{'] + (mt1 + (seq![','] + (mt2 + (seq![','] + (mt3 + seq!['}']))))));
}

/// Law: the rendered unsubscribe command parses back to exactly the
/// unsubscribe it encodes, for every topic.
#[verifier::rlimit(100)]
pub proof fn lemma_unsubscribe_command_round_trip(topic: Seq<char>)
    ensures
        spec_parse_command(
            "{\"type\":\"Unsubscribe\",\"topic\":\""@ + escape_seq(topic)
                + "\",\"request_id\":\"unsubscribe_message\"}"@,
        ) == Some(
            SpecWsCommand::Unsubscribe { topic: topic, request_id: "unsubscribe_message"@ },
        ),
{
    reveal_strlit("type");
    reveal_strlit("topic");
    reveal_strlit("request_id");
    reveal_strlit("Unsubscribe");
    reveal_strlit("unsubscribe_message");
    reveal_strlit("Subscribe");
    reveal_strlit("Ping");
    let s = "{\"type\":\"Unsubscribe\",\"topic\":\""@ + escape_seq(topic)
        + "\",\"request_id\":\"unsubscribe_message\"}"@;
    let tk = "type"@;
    let tv = "Unsubscribe"@;
    let pk = "topic"@;
    let rk = "request_id"@;
    let rv = "unsubscribe_message"@;
    lemma_unsubscribe_text(topic);
    lemma_object_three(s, tk, tv, pk, topic, rk, rv);
    let pairs = seq![(tk, tv), (pk, topic), (rk, rv)];
    assert(spec_parse_object(s) == Some(pairs));
    assert(tk != pk) by {
        assert(tk.len() != pk.len());
    }
    assert(tk != rk) by {
        assert(tk.len() != rk.len());
    }
    assert(pk != rk) by {
        assert(pk.len() != rk.len());
    }
    assert(pairs_distinct(pairs));
    lemma_pairs_get(pairs, 0);
    lemma_pairs_get(pairs, 1);
    lemma_pairs_get(pairs, 2);
    assert(pairs_has(pairs, "type"@));
    assert(pairs_get(pairs, "type"@) == tv);
    assert(tv != "Ping"@) by {
        assert(tv.len() != "Ping"@.len());
    }
    assert(tv != "Subscribe"@) by {
        assert(tv.len() != "Subscribe"@.len());
    }
    assert(pairs_get(pairs, "topic"@) == topic);
    assert(pairs_get(pairs, "request_id"@) == rv);
    assert(spec_interpret(pairs) == Some(
        SpecWsCommand::Unsubscribe { topic: topic, request_id: rv },
    ));
}

} // verus!



