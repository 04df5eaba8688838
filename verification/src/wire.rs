//! The wire frame: one JSON object per message.
//!
//! The server's writer duty sends each delivered message as
//! `{"sender":...,"content":...}`; string values escape the quote, the
//! backslash and every control character.  The client parses any JSON
//! object with optional string members `sender` and `content`: member
//! order, surrounding and separating whitespace, extra members of any JSON
//! value kind (room identifiers or numeric identifiers for diagnostics),
//! and the standard JSON string escapes — `\" \\ \/ \b \f \n \r \t` and
//! `\uXXXX` with surrogate pairs — are all accepted.  A member absent from
//! the object is absent from the result; a duplicate `sender` or `content`
//! member, a non-string value for either, a raw control character inside a
//! string, or anything that is not one JSON object is rejected.  The
//! grammar is [`parse_response`]; decoding an encoded frame is proved to
//! give back exactly the encoded sender and content.

use vstd::prelude::*;

use crate::msg::Message;

verus! {

/// The hexadecimal digit for a value below sixteen, lower case.
pub open spec fn hex_digit(v: int) -> char {
    if v < 10 {
        ('0' as int + v) as char
    } else {
        ('a' as int + v - 10) as char
    }
}

/// How one character stands inside an encoded frame's string value: the
/// short escapes for the quote, the backslash and the named control
/// characters, `\u00XX` for the remaining control characters, and the
/// character itself otherwise.
pub open spec fn escaped_char(c: char) -> Seq<char> {
    if c == '"' {
        seq!['\\', '"']
    } else if c == '\\' {
        seq!['\\', '\\']
    } else if c == '\n' {
        seq!['\\', 'n']
    } else if c == '\r' {
        seq!['\\', 'r']
    } else if c == '\t' {
        seq!['\\', 't']
    } else if c == '\u{8}' {
        seq!['\\', 'b']
    } else if c == '\u{c}' {
        seq!['\\', 'f']
    } else if (c as int) < 0x20 {
        seq!['\\', 'u', '0', '0', hex_digit(c as int / 16), hex_digit(c as int % 16)]
    } else {
        seq![c]
    }
}

/// A whole string value, escaped character by character.
pub open spec fn escaped(s: Seq<char>) -> Seq<char>
    decreases s.len(),
{
    if s.len() == 0 {
        Seq::empty()
    } else {
        escaped_char(s[0]) + escaped(s.drop_first())
    }
}

/// The frame's opening through the sender value's opening quote.
pub open spec fn frame_prefix() -> Seq<char> {
    seq!['{', '"', 's', 'e', 'n', 'd', 'e', 'r', '"', ':', '"']
}

/// From the sender value's closing quote through the content value's
/// opening quote.
pub open spec fn frame_middle() -> Seq<char> {
    seq!['"', ',', '"', 'c', 'o', 'n', 't', 'e', 'n', 't', '"', ':', '"']
}

/// The content value's closing quote and the frame's end.
pub open spec fn frame_suffix() -> Seq<char> {
    seq!['"', '}']
}

/// The one frame the encoder produces for this sender and content.
pub open spec fn frame_of(sender: Seq<char>, content: Seq<char>) -> Seq<char> {
    frame_prefix() + escaped(sender) + frame_middle() + escaped(content) + frame_suffix()
}

/// Escaping distributes over appending one character.
pub proof fn lemma_escaped_push(s: Seq<char>, c: char)
    ensures
        escaped(s.push(c)) == escaped(s) + escaped_char(c),
    decreases s.len(),
{
    if s.len() == 0 {
        assert(s.push(c)[0] == c);
        assert(s.push(c).drop_first() =~= Seq::<char>::empty());
        assert(escaped(s.push(c).drop_first()) == Seq::<char>::empty());
        assert(escaped(s.push(c)) == escaped_char(c) + Seq::<char>::empty());
        assert(escaped(s) == Seq::<char>::empty());
        assert(escaped_char(c) + Seq::<char>::empty() =~= Seq::<char>::empty() + escaped_char(c));
    } else {
        assert(s.push(c).drop_first() =~= s.drop_first().push(c));
        lemma_escaped_push(s.drop_first(), c);
        assert(s.push(c)[0] == s[0]);
        assert(escaped(s.push(c)) == escaped_char(s[0]) + (escaped(s.drop_first())
            + escaped_char(c)));
        assert(escaped_char(s[0]) + (escaped(s.drop_first()) + escaped_char(c)) =~= (escaped_char(
            s[0],
        ) + escaped(s.drop_first())) + escaped_char(c));
    }
}

/// Relies on `String::push`: appends the given character to the end of the
/// string.
#[verifier::external_body]
fn push_char(out: &mut String, c: char)
    ensures
        final(out)@ == old(out)@.push(c),
{
    out.push(c);
}

/// Appends the escaped form of `s` to `out`.
fn append_escaped(out: &mut String, s: &str)
    ensures
        final(out)@ == old(out)@ + escaped(s@),
{
    let ghost base = out@;
    let n = s.unicode_len();
    let mut i: usize = 0;
    proof {
        assert(s@.take(0) =~= Seq::<char>::empty());
        assert(out@ =~= base + escaped(s@.take(0)));
    }
    while i < n
        invariant
            n == s@.len(),
            i <= n,
            out@ == base + escaped(s@.take(i as int)),
        decreases n - i,
    {
        let c = s.get_char(i);
        if c == '"' {
            push_char(out, '\\');
            push_char(out, '"');
        } else if c == '\\' {
            push_char(out, '\\');
            push_char(out, '\\');
        } else if c == '\n' {
            push_char(out, '\\');
            push_char(out, 'n');
        } else if c == '\r' {
            push_char(out, '\\');
            push_char(out, 'r');
        } else if c == '\t' {
            push_char(out, '\\');
            push_char(out, 't');
        } else if c == '\u{8}' {
            push_char(out, '\\');
            push_char(out, 'b');
        } else if c == '\u{c}' {
            push_char(out, '\\');
            push_char(out, 'f');
        } else if (c as u32) < 0x20 {
            let v = c as u32;
            push_char(out, '\\');
            push_char(out, 'u');
            push_char(out, '0');
            push_char(out, '0');
            let hi = (v / 16) as u8;
            let lo = (v % 16) as u8;
            let hic: char = if hi < 10 {
                (48u8 + hi) as char
            } else {
                (87u8 + hi) as char
            };
            let loc: char = if lo < 10 {
                (48u8 + lo) as char
            } else {
                (87u8 + lo) as char
            };
            proof {
                assert(v as int == c as int);
                assert(hic == hex_digit(c as int / 16));
                assert(loc == hex_digit(c as int % 16));
            }
            push_char(out, hic);
            push_char(out, loc);
        } else {
            push_char(out, c);
        }
        proof {
            lemma_escaped_push(s@.take(i as int), s@[i as int]);
            assert(s@.take(i as int).push(s@[i as int]) =~= s@.take(i + 1));
            assert(out@ =~= base + escaped(s@.take(i + 1)));
        }
        i += 1;
    }
    proof {
        assert(s@.take(n as int) =~= s@);
    }
}

/// Encodes one message as its wire frame.
pub fn encode_frame(m: &Message) -> (r: String)
    ensures
        r@ == frame_of(m@.sender, m@.content),
{
    let mut out = String::new();
    out.append("{\"sender\":\"");
    proof {
        reveal_strlit("{\"sender\":\"");
        assert(out@ =~= frame_prefix());
    }
    append_escaped(&mut out, m.sender.as_str());
    out.append("\",\"content\":\"");
    proof {
        reveal_strlit("\",\"content\":\"");
        assert(out@ =~= frame_prefix() + escaped(m@.sender) + frame_middle());
    }
    append_escaped(&mut out, m.content.as_str());
    out.append("\"}");
    proof {
        reveal_strlit("\"}");
        assert(out@ =~= frame_of(m@.sender, m@.content));
    }
    out
}

/// JSON insignificant whitespace.
pub open spec fn is_json_ws(c: char) -> bool {
    c == ' ' || c == '\t' || c == '\n' || c == '\r'
}

/// The first position at or past `i` that holds no whitespace.
pub open spec fn spec_skip_ws(s: Seq<char>, i: int) -> int
    decreases s.len() - i,
{
    if 0 <= i < s.len() && is_json_ws(s[i]) {
        spec_skip_ws(s, i + 1)
    } else {
        i
    }
}

/// The value of one hexadecimal digit, either case.
pub open spec fn hex_val(c: char) -> Option<int> {
    if '0' <= c <= '9' {
        Some(c as int - '0' as int)
    } else if 'a' <= c <= 'f' {
        Some(c as int - 'a' as int + 10)
    } else if 'A' <= c <= 'F' {
        Some(c as int - 'A' as int + 10)
    } else {
        None
    }
}

/// The value of the four hexadecimal digits at `i`.
pub open spec fn hex4(s: Seq<char>, i: int) -> Option<int> {
    if i < 0 || i + 4 > s.len() {
        None
    } else {
        match (hex_val(s[i]), hex_val(s[i + 1]), hex_val(s[i + 2]), hex_val(s[i + 3])) {
            (Some(a), Some(b), Some(c), Some(d)) => Some(a * 4096 + b * 256 + c * 16 + d),
            _ => None,
        }
    }
}

/// The character a short escape code stands for.
pub open spec fn unescape_char(c: char) -> Option<char> {
    if c == '"' {
        Some('"')
    } else if c == '\\' {
        Some('\\')
    } else if c == '/' {
        Some('/')
    } else if c == 'b' {
        Some('\u{8}')
    } else if c == 'f' {
        Some('\u{c}')
    } else if c == 'n' {
        Some('\n')
    } else if c == 'r' {
        Some('\r')
    } else if c == 't' {
        Some('\t')
    } else {
        None
    }
}

/// Whether `v` is a Unicode scalar value, the code points a `char` can hold.
pub open spec fn is_scalar_value(v: int) -> bool {
    (0 <= v <= 0xD7FF) || (0xE000 <= v <= 0x10FFFF)
}

/// Parses the inside of a JSON string from `i` (just past the opening
/// quote): the decoded value and the position just past the closing quote.
/// Handles the short escapes, `\uXXXX`, and UTF-16 surrogate pairs; a raw
/// control character, a lone surrogate or an unterminated string is no
/// string.
pub open spec fn parse_string_body(s: Seq<char>, i: int) -> Option<(Seq<char>, int)>
    decreases s.len() - i,
{
    if i < 0 || i >= s.len() {
        None
    } else if s[i] == '"' {
        Some((Seq::empty(), i + 1))
    } else if s[i] == '\\' {
        if i + 1 >= s.len() {
            None
        } else if s[i + 1] == 'u' {
            match hex4(s, i + 2) {
                None => None,
                Some(v) => {
                    if is_scalar_value(v) {
                        match parse_string_body(s, i + 6) {
                            None => None,
                            Some(p) => Some((seq![v as char] + p.0, p.1)),
                        }
                    } else if 0xD800 <= v <= 0xDBFF {
                        if i + 8 > s.len() || s[i + 6] != '\\' || s[i + 7] != 'u' {
                            None
                        } else {
                            match hex4(s, i + 8) {
                                None => None,
                                Some(w) => {
                                    if 0xDC00 <= w <= 0xDFFF {
                                        let cp = 0x10000 + (v - 0xD800) * 0x400 + (w - 0xDC00);
                                        match parse_string_body(s, i + 12) {
                                            None => None,
                                            Some(p) => Some((seq![cp as char] + p.0, p.1)),
                                        }
                                    } else {
                                        None
                                    }
                                },
                            }
                        }
                    } else {
                        None
                    }
                },
            }
        } else {
            match unescape_char(s[i + 1]) {
                None => None,
                Some(c) => match parse_string_body(s, i + 2) {
                    None => None,
                    Some(p) => Some((seq![c] + p.0, p.1)),
                },
            }
        }
    } else if (s[i] as int) < 0x20 {
        None
    } else {
        match parse_string_body(s, i + 1) {
            None => None,
            Some(p) => Some((seq![s[i]] + p.0, p.1)),
        }
    }
}

/// A parsed string ends past where it began and within the input.
pub proof fn lemma_parse_string_body_end(s: Seq<char>, i: int)
    requires
        parse_string_body(s, i) is Some,
    ensures
        i < parse_string_body(s, i)->Some_0.1 <= s.len(),
    decreases s.len() - i,
{
    if s[i] == '"' {
    } else if s[i] == '\\' {
        if s[i + 1] == 'u' {
            let v = hex4(s, i + 2)->Some_0;
            if is_scalar_value(v) {
                lemma_parse_string_body_end(s, i + 6);
            } else {
                lemma_parse_string_body_end(s, i + 12);
            }
        } else {
            lemma_parse_string_body_end(s, i + 2);
        }
    } else {
        lemma_parse_string_body_end(s, i + 1);
    }
}

/// The first position at or past `i` that holds no decimal digit.
pub open spec fn spec_skip_digits(s: Seq<char>, i: int) -> int
    decreases s.len() - i,
{
    if 0 <= i < s.len() && '0' <= s[i] <= '9' {
        spec_skip_digits(s, i + 1)
    } else {
        i
    }
}

/// Skipping digits never moves backwards nor past the end.
pub proof fn lemma_skip_digits_bounds(s: Seq<char>, i: int)
    requires
        0 <= i <= s.len(),
    ensures
        i <= spec_skip_digits(s, i) <= s.len(),
    decreases s.len() - i,
{
    if i < s.len() && '0' <= s[i] <= '9' {
        lemma_skip_digits_bounds(s, i + 1);
    }
}

/// Parses a JSON number at `i` — optional minus, integer part without a
/// leading zero, optional fraction, optional exponent — and gives the
/// position just past it.  The value itself is not kept: numbers occur only
/// in tolerated extra members.
pub open spec fn parse_number(s: Seq<char>, i: int) -> Option<int> {
    if i < 0 || i >= s.len() {
        None
    } else {
        let j = if s[i] == '-' {
            i + 1
        } else {
            i
        };
        if j >= s.len() || !('0' <= s[j] <= '9') {
            None
        } else {
            let k = if s[j] == '0' {
                j + 1
            } else {
                spec_skip_digits(s, j)
            };
            let f = if k < s.len() && s[k] == '.' {
                if k + 1 < s.len() && '0' <= s[k + 1] <= '9' {
                    Some(spec_skip_digits(s, k + 1))
                } else {
                    None
                }
            } else {
                Some(k)
            };
            match f {
                None => None,
                Some(p) => {
                    if p < s.len() && (s[p] == 'e' || s[p] == 'E') {
                        let q = if p + 1 < s.len() && (s[p + 1] == '+' || s[p + 1] == '-') {
                            p + 2
                        } else {
                            p + 1
                        };
                        if q < s.len() && '0' <= s[q] <= '9' {
                            Some(spec_skip_digits(s, q))
                        } else {
                            None
                        }
                    } else {
                        Some(p)
                    }
                },
            }
        }
    }
}

/// `j` clamped into `i + 1 ..= s.len()`, so a position taken from a parse
/// result fits a decreasing measure; inert wherever the parse in fact
/// advanced and stayed within the input.
pub open spec fn bump(s: Seq<char>, i: int, j: int) -> int {
    let k = if j > i {
        j
    } else {
        i + 1
    };
    if k > s.len() {
        s.len() as int
    } else {
        k
    }
}

/// Whether the four characters at `i` spell `true` (or `null`, by the
/// caller's choice of letters).
pub open spec fn has_lit4(s: Seq<char>, i: int, a: char, b: char, c: char, d: char) -> bool {
    i >= 0 && i + 4 <= s.len() && s[i] == a && s[i + 1] == b && s[i + 2] == c && s[i + 3] == d
}

/// Skips one JSON value at `i` — string, number, object, array, `true`,
/// `false` or `null` — and gives the position just past it.
pub open spec fn parse_value(s: Seq<char>, i: int) -> Option<int>
    decreases s.len() - i, 0int,
{
    if i < 0 || i >= s.len() {
        None
    } else if s[i] == '"' {
        match parse_string_body(s, i + 1) {
            None => None,
            Some(p) => Some(p.1),
        }
    } else if s[i] == '{' {
        parse_object_rest(s, bump(s, i, spec_skip_ws(s, i + 1)), true)
    } else if s[i] == '[' {
        parse_array_rest(s, bump(s, i, spec_skip_ws(s, i + 1)), true)
    } else if has_lit4(s, i, 't', 'r', 'u', 'e') {
        Some(i + 4)
    } else if i + 5 <= s.len() && s[i] == 'f' && s[i + 1] == 'a' && s[i + 2] == 'l' && s[i + 3]
        == 's' && s[i + 4] == 'e' {
        Some(i + 5)
    } else if has_lit4(s, i, 'n', 'u', 'l', 'l') {
        Some(i + 4)
    } else {
        parse_number(s, i)
    }
}

/// Skips the members of a JSON object, `i` standing just past the opening
/// brace and any whitespace; gives the position just past the closing
/// brace.
pub open spec fn parse_object_rest(s: Seq<char>, i: int, first: bool) -> Option<int>
    decreases s.len() - i, 1int,
{
    if i < 0 || i >= s.len() {
        None
    } else if first && s[i] == '}' {
        Some(i + 1)
    } else if s[i] != '"' {
        None
    } else {
        match parse_string_body(s, i + 1) {
            None => None,
            Some(name) => {
                let k = spec_skip_ws(s, name.1);
                if k < 0 || k >= s.len() || s[k] != ':' {
                    None
                } else {
                    match parse_value(s, bump(s, i, spec_skip_ws(s, k + 1))) {
                        None => None,
                        Some(vend) => {
                            let m = spec_skip_ws(s, vend);
                            if m < 0 || m >= s.len() {
                                None
                            } else if s[m] == '}' {
                                Some(m + 1)
                            } else if s[m] == ',' {
                                parse_object_rest(s, bump(s, i, spec_skip_ws(s, m + 1)), false)
                            } else {
                                None
                            }
                        },
                    }
                }
            },
        }
    }
}

/// Skips the elements of a JSON array, `i` standing just past the opening
/// bracket and any whitespace; gives the position just past the closing
/// bracket.
pub open spec fn parse_array_rest(s: Seq<char>, i: int, first: bool) -> Option<int>
    decreases s.len() - i, 1int,
{
    if i < 0 || i >= s.len() {
        None
    } else if first && s[i] == ']' {
        Some(i + 1)
    } else {
        match parse_value(s, i) {
            None => None,
            Some(vend) => {
                let m = spec_skip_ws(s, vend);
                if m < 0 || m >= s.len() {
                    None
                } else if s[m] == ']' {
                    Some(m + 1)
                } else if s[m] == ',' {
                    parse_array_rest(s, bump(s, i, spec_skip_ws(s, m + 1)), false)
                } else {
                    None
                }
            },
        }
    }
}

/// The member name `sender`.
pub open spec fn sender_name() -> Seq<char> {
    seq!['s', 'e', 'n', 'd', 'e', 'r']
}

/// The member name `content`.
pub open spec fn content_name() -> Seq<char> {
    seq!['c', 'o', 'n', 't', 'e', 'n', 't']
}

/// Walks the members of the response object, `i` standing just past the
/// opening brace and any whitespace.  A `sender` or `content` member must
/// hold a string, which is captured, and must not repeat; any other member
/// may hold any JSON value and is skipped.  Gives the captured members and
/// the position just past the closing brace.
pub open spec fn parse_response_members(
    s: Seq<char>,
    i: int,
    first: bool,
    sender: Option<Seq<char>>,
    content: Option<Seq<char>>,
) -> Option<(Option<Seq<char>>, Option<Seq<char>>, int)>
    decreases s.len() - i,
{
    if i < 0 || i >= s.len() {
        None
    } else if first && s[i] == '}' {
        Some((sender, content, i + 1))
    } else if s[i] != '"' {
        None
    } else {
        match parse_string_body(s, i + 1) {
            None => None,
            Some(name) => {
                let k = spec_skip_ws(s, name.1);
                if k < 0 || k >= s.len() || s[k] != ':' {
                    None
                } else {
                    let vpos = bump(s, i, spec_skip_ws(s, k + 1));
                    let taken: Option<(Option<Seq<char>>, Option<Seq<char>>, int)> = if name.0
                        == sender_name() {
                        if sender is Some || vpos >= s.len() || s[vpos] != '"' {
                            None
                        } else {
                            match parse_string_body(s, vpos + 1) {
                                None => None,
                                Some(v) => Some((Some(v.0), content, v.1)),
                            }
                        }
                    } else if name.0 == content_name() {
                        if content is Some || vpos >= s.len() || s[vpos] != '"' {
                            None
                        } else {
                            match parse_string_body(s, vpos + 1) {
                                None => None,
                                Some(v) => Some((sender, Some(v.0), v.1)),
                            }
                        }
                    } else {
                        match parse_value(s, vpos) {
                            None => None,
                            Some(vend) => Some((sender, content, vend)),
                        }
                    };
                    match taken {
                        None => None,
                        Some(st) => {
                            let m = spec_skip_ws(s, st.2);
                            if m < 0 || m >= s.len() {
                                None
                            } else if s[m] == '}' {
                                Some((st.0, st.1, m + 1))
                            } else if s[m] == ',' {
                                parse_response_members(
                                    s,
                                    bump(s, i, spec_skip_ws(s, m + 1)),
                                    false,
                                    st.0,
                                    st.1,
                                )
                            } else {
                                None
                            }
                        },
                    }
                }
            },
        }
    }
}

/// The response grammar: optional whitespace, one JSON object whose
/// optional string members `sender` and `content` are captured, optional
/// whitespace, end of input.
pub open spec fn parse_response(s: Seq<char>) -> Option<(Option<Seq<char>>, Option<Seq<char>>)> {
    let i = spec_skip_ws(s, 0);
    if i < 0 || i >= s.len() || s[i] != '{' {
        None
    } else {
        match parse_response_members(s, bump(s, i, spec_skip_ws(s, i + 1)), true, None, None) {
            None => None,
            Some(st) => {
                if spec_skip_ws(s, st.2) == s.len() {
                    Some((st.0, st.1))
                } else {
                    None
                }
            },
        }
    }
}

/// Relies on `char::from_u32`: the character with this code, or `None`
/// exactly for surrogate code points and values past the Unicode maximum.
#[verifier::external_body]
fn char_from_u32(v: u32) -> (r: Option<char>)
    ensures
        match r {
            Some(c) => c as int == v as int && is_scalar_value(v as int),
            None => !is_scalar_value(v as int),
        },
{
    char::from_u32(v)
}

/// The first position at or past `i` that holds no whitespace.
fn skip_ws(s: &str, i: usize) -> (r: usize)
    requires
        i <= s@.len(),
    ensures
        r as int == spec_skip_ws(s@, i as int),
        i <= r <= s@.len(),
{
    let n = s.unicode_len();
    let mut r = i;
    while r < n
        invariant
            n == s@.len(),
            i <= r <= n,
            spec_skip_ws(s@, i as int) == spec_skip_ws(s@, r as int),
        decreases n - r,
    {
        let c = s.get_char(r);
        if c == ' ' || c == '\t' || c == '\n' || c == '\r' {
            r += 1;
        } else {
            return r;
        }
    }
    r
}

/// The value of one hexadecimal digit, either case.
fn hex_val_of(c: char) -> (r: Option<u32>)
    ensures
        match r {
            Some(v) => hex_val(c) == Some(v as int),
            None => hex_val(c) is None,
        },
{
    let v = c as u32;
    if 0x30 <= v && v <= 0x39 {
        Some(v - 0x30)
    } else if 0x61 <= v && v <= 0x66 {
        Some(v - 0x61 + 10)
    } else if 0x41 <= v && v <= 0x46 {
        Some(v - 0x41 + 10)
    } else {
        None
    }
}

/// The value of the four hexadecimal digits at `i`.
fn hex4_at(s: &str, i: usize) -> (r: Option<u32>)
    ensures
        match r {
            Some(v) => hex4(s@, i as int) == Some(v as int) && v < 0x10000,
            None => hex4(s@, i as int) is None,
        },
{
    let n = s.unicode_len();
    if i > n || n - i < 4 {
        return None;
    }
    let a = match hex_val_of(s.get_char(i)) {
        Some(v) => v,
        None => {
            return None;
        },
    };
    let b = match hex_val_of(s.get_char(i + 1)) {
        Some(v) => v,
        None => {
            return None;
        },
    };
    let c = match hex_val_of(s.get_char(i + 2)) {
        Some(v) => v,
        None => {
            return None;
        },
    };
    let d = match hex_val_of(s.get_char(i + 3)) {
        Some(v) => v,
        None => {
            return None;
        },
    };
    Some(a * 4096 + b * 256 + c * 16 + d)
}

/// Parses the inside of a JSON string from `i`, realizing
/// [`parse_string_body`] exactly.
fn scan_string_body(s: &str, from: usize) -> (r: Option<(String, usize)>)
    requires
        from <= s@.len(),
    ensures
        match r {
            Some((v, e)) => parse_string_body(s@, from as int) == Some((v@, e as int))
                && from < e <= s@.len(),
            None => parse_string_body(s@, from as int) is None,
        },
{
    let n = s.unicode_len();
    let mut acc = String::new();
    let mut i: usize = from;
    while i < n
        invariant
            n == s@.len(),
            from <= i <= n,
            match parse_string_body(s@, from as int) {
                Some(p) => parse_string_body(s@, i as int) matches Some(q) && p.1 == q.1 && p.0
                    == acc@ + q.0,
                None => parse_string_body(s@, i as int) is None,
            },
        decreases n - i,
    {
        let c = s.get_char(i);
        if c == '"' {
            proof {
                assert(parse_string_body(s@, i as int) == Some((Seq::<char>::empty(), i + 1)));
                assert(acc@ + Seq::<char>::empty() =~= acc@);
                lemma_parse_string_body_end(s@, from as int);
            }
            return Some((acc, i + 1));
        }
        if c == '\\' {
            if n - i < 2 {
                return None;
            }
            let c2 = s.get_char(i + 1);
            if c2 == 'u' {
                let v = match hex4_at(s, i + 2) {
                    Some(v) => v,
                    None => {
                        return None;
                    },
                };
                if (v < 0xD800) || (0xE000 <= v) {
                    let c3 = char_from_u32(v).unwrap();
                    proof {
                        assert(c3 == (v as int) as char);
                    }
                    let ghost accv = acc@;
                    push_char(&mut acc, c3);
                    proof {
                        match parse_string_body(s@, i + 6) {
                            None => {},
                            Some(q2) => {
                                assert(parse_string_body(s@, i as int) == Some((
                                    seq![c3] + q2.0,
                                    q2.1,
                                )));
                                assert(accv + (seq![c3] + q2.0) =~= acc@ + q2.0);
                            },
                        }
                    }
                    i += 6;
                } else if v < 0xDC00 {
                    // high surrogate: a low surrogate escape must follow
                    if n - i < 8 {
                        return None;
                    }
                    if s.get_char(i + 6) != '\\' || s.get_char(i + 7) != 'u' {
                        return None;
                    }
                    let w = match hex4_at(s, i + 8) {
                        Some(w) => w,
                        None => {
                            return None;
                        },
                    };
                    if !(0xDC00 <= w && w <= 0xDFFF) {
                        return None;
                    }
                    let cp: u32 = 0x10000 + (v - 0xD800) * 0x400 + (w - 0xDC00);
                    let c3 = char_from_u32(cp).unwrap();
                    proof {
                        assert(c3 == (cp as int) as char);
                    }
                    let ghost accv = acc@;
                    push_char(&mut acc, c3);
                    proof {
                        match parse_string_body(s@, i + 12) {
                            None => {},
                            Some(q2) => {
                                assert(parse_string_body(s@, i as int) == Some((
                                    seq![c3] + q2.0,
                                    q2.1,
                                )));
                                assert(accv + (seq![c3] + q2.0) =~= acc@ + q2.0);
                            },
                        }
                    }
                    i += 12;
                } else {
                    // lone low surrogate
                    return None;
                }
            } else {
                let unescaped: char = if c2 == '"' {
                    '"'
                } else if c2 == '\\' {
                    '\\'
                } else if c2 == '/' {
                    '/'
                } else if c2 == 'b' {
                    '\u{8}'
                } else if c2 == 'f' {
                    '\u{c}'
                } else if c2 == 'n' {
                    '\n'
                } else if c2 == 'r' {
                    '\r'
                } else if c2 == 't' {
                    '\t'
                } else {
                    return None;
                };
                proof {
                    assert(unescape_char(s@[i + 1]) == Some(unescaped));
                }
                let ghost accv = acc@;
                push_char(&mut acc, unescaped);
                proof {
                    match parse_string_body(s@, i + 2) {
                        None => {},
                        Some(q2) => {
                            assert(parse_string_body(s@, i as int) == Some((
                                seq![unescaped] + q2.0,
                                q2.1,
                            )));
                            assert(accv + (seq![unescaped] + q2.0) =~= acc@ + q2.0);
                        },
                    }
                }
                i += 2;
            }
        } else if (c as u32) < 0x20 {
            return None;
        } else {
            let ghost accv = acc@;
            push_char(&mut acc, c);
            proof {
                match parse_string_body(s@, i + 1) {
                    None => {},
                    Some(q2) => {
                        assert(parse_string_body(s@, i as int) == Some((seq![c] + q2.0, q2.1)));
                        assert(accv + (seq![c] + q2.0) =~= acc@ + q2.0);
                    },
                }
            }
            i += 1;
        }
    }
    None
}

/// The first position at or past `i` that holds no decimal digit.
fn skip_digits(s: &str, i: usize) -> (r: usize)
    requires
        i <= s@.len(),
    ensures
        r as int == spec_skip_digits(s@, i as int),
        i <= r <= s@.len(),
{
    let n = s.unicode_len();
    let mut r = i;
    while r < n
        invariant
            n == s@.len(),
            i <= r <= n,
            spec_skip_digits(s@, i as int) == spec_skip_digits(s@, r as int),
        decreases n - r,
    {
        let v = s.get_char(r) as u32;
        if 0x30 <= v && v <= 0x39 {
            r += 1;
        } else {
            return r;
        }
    }
    r
}

/// Scans a JSON number at `i`, realizing [`parse_number`] exactly.
fn scan_number(s: &str, i: usize) -> (r: Option<usize>)
    requires
        i <= s@.len(),
    ensures
        match r {
            Some(e) => parse_number(s@, i as int) == Some(e as int) && i < e <= s@.len(),
            None => parse_number(s@, i as int) is None,
        },
{
    let n = s.unicode_len();
    if i >= n {
        return None;
    }
    let j = if s.get_char(i) == '-' {
        i + 1
    } else {
        i
    };
    if j >= n {
        return None;
    }
    let first = s.get_char(j) as u32;
    if !(0x30 <= first && first <= 0x39) {
        return None;
    }
    let k = if s.get_char(j) == '0' {
        j + 1
    } else {
        skip_digits(s, j)
    };
    proof {
        if s@[j as int] != '0' {
            assert(spec_skip_digits(s@, j as int) == spec_skip_digits(s@, j + 1));
            lemma_skip_digits_bounds(s@, j + 1);
        }
    }
    assert(i < k);
    let p = if k < n && s.get_char(k) == '.' {
        if k + 1 < n {
            let d = s.get_char(k + 1) as u32;
            if 0x30 <= d && d <= 0x39 {
                skip_digits(s, k + 1)
            } else {
                return None;
            }
        } else {
            return None;
        }
    } else {
        k
    };
    if p < n && (s.get_char(p) == 'e' || s.get_char(p) == 'E') {
        let q = if p + 1 < n && (s.get_char(p + 1) == '+' || s.get_char(p + 1) == '-') {
            p + 2
        } else {
            p + 1
        };
        if q < n {
            let d = s.get_char(q) as u32;
            if 0x30 <= d && d <= 0x39 {
                let e = skip_digits(s, q);
                proof {
                    assert(spec_skip_digits(s@, q as int) == spec_skip_digits(s@, q + 1));
                }
                Some(e)
            } else {
                None
            }
        } else {
            None
        }
    } else {
        Some(p)
    }
}

/// Skips one JSON value at `i`, realizing [`parse_value`] exactly.
fn scan_value(s: &str, i: usize) -> (r: Option<usize>)
    requires
        i <= s@.len(),
    ensures
        match r {
            Some(e) => parse_value(s@, i as int) == Some(e as int) && i < e <= s@.len(),
            None => parse_value(s@, i as int) is None,
        },
    decreases s@.len() - i, 0int,
{
    let n = s.unicode_len();
    if i >= n {
        return None;
    }
    let c = s.get_char(i);
    if c == '"' {
        match scan_string_body(s, i + 1) {
            Some((_, e)) => Some(e),
            None => None,
        }
    } else if c == '{' {
        let j = skip_ws(s, i + 1);
        proof {
            assert(bump(s@, i as int, spec_skip_ws(s@, i + 1)) == j as int);
        }
        scan_object_rest(s, j, true)
    } else if c == '[' {
        let j = skip_ws(s, i + 1);
        proof {
            assert(bump(s@, i as int, spec_skip_ws(s@, i + 1)) == j as int);
        }
        scan_array_rest(s, j, true)
    } else if c == 't' {
        if n - i >= 4 && s.get_char(i + 1) == 'r' && s.get_char(i + 2) == 'u' && s.get_char(i + 3)
            == 'e' {
            Some(i + 4)
        } else {
            proof {
                assert(!has_lit4(s@, i as int, 't', 'r', 'u', 'e'));
                assert(parse_number(s@, i as int) is None);
            }
            None
        }
    } else if c == 'f' {
        if n - i >= 5 && s.get_char(i + 1) == 'a' && s.get_char(i + 2) == 'l' && s.get_char(i + 3)
            == 's' && s.get_char(i + 4) == 'e' {
            Some(i + 5)
        } else {
            proof {
                assert(parse_number(s@, i as int) is None);
            }
            None
        }
    } else if c == 'n' {
        if n - i >= 4 && s.get_char(i + 1) == 'u' && s.get_char(i + 2) == 'l' && s.get_char(i + 3)
            == 'l' {
            Some(i + 4)
        } else {
            proof {
                assert(parse_number(s@, i as int) is None);
            }
            None
        }
    } else {
        scan_number(s, i)
    }
}

/// Skips the members of a JSON object, realizing [`parse_object_rest`]
/// exactly.
fn scan_object_rest(s: &str, i: usize, first: bool) -> (r: Option<usize>)
    requires
        i <= s@.len(),
    ensures
        match r {
            Some(e) => parse_object_rest(s@, i as int, first) == Some(e as int) && i < e
                <= s@.len(),
            None => parse_object_rest(s@, i as int, first) is None,
        },
    decreases s@.len() - i, 1int,
{
    let n = s.unicode_len();
    if i >= n {
        return None;
    }
    if first && s.get_char(i) == '}' {
        return Some(i + 1);
    }
    if s.get_char(i) != '"' {
        return None;
    }
    let (_, j) = match scan_string_body(s, i + 1) {
        Some(p) => p,
        None => {
            return None;
        },
    };
    let k = skip_ws(s, j);
    if k >= n || s.get_char(k) != ':' {
        return None;
    }
    let vpos = skip_ws(s, k + 1);
    proof {
        assert(bump(s@, i as int, spec_skip_ws(s@, k + 1)) == vpos as int);
    }
    let vend = match scan_value(s, vpos) {
        Some(e) => e,
        None => {
            return None;
        },
    };
    let m = skip_ws(s, vend);
    if m >= n {
        return None;
    }
    if s.get_char(m) == '}' {
        return Some(m + 1);
    }
    if s.get_char(m) == ',' {
        let next = skip_ws(s, m + 1);
        proof {
            assert(bump(s@, i as int, spec_skip_ws(s@, m + 1)) == next as int);
        }
        scan_object_rest(s, next, false)
    } else {
        None
    }
}

/// Skips the elements of a JSON array, realizing [`parse_array_rest`]
/// exactly.
fn scan_array_rest(s: &str, i: usize, first: bool) -> (r: Option<usize>)
    requires
        i <= s@.len(),
    ensures
        match r {
            Some(e) => parse_array_rest(s@, i as int, first) == Some(e as int) && i < e
                <= s@.len(),
            None => parse_array_rest(s@, i as int, first) is None,
        },
    decreases s@.len() - i, 1int,
{
    let n = s.unicode_len();
    if i >= n {
        return None;
    }
    if first && s.get_char(i) == ']' {
        return Some(i + 1);
    }
    let vend = match scan_value(s, i) {
        Some(e) => e,
        None => {
            return None;
        },
    };
    let m = skip_ws(s, vend);
    if m >= n {
        return None;
    }
    if s.get_char(m) == ']' {
        return Some(m + 1);
    }
    if s.get_char(m) == ',' {
        let next = skip_ws(s, m + 1);
        proof {
            assert(bump(s@, i as int, spec_skip_ws(s@, m + 1)) == next as int);
        }
        scan_array_rest(s, next, false)
    } else {
        None
    }
}

/// Compares a decoded member name to `sender`.
fn is_sender_name(name: &String) -> (b: bool)
    ensures
        b == (name@ == sender_name()),
{
    proof {
        reveal_strlit("sender");
        assert("sender"@ =~= sender_name());
    }
    let expected = String::from_str("sender");
    name.eq(&expected)
}

/// Compares a decoded member name to `content`.
fn is_content_name(name: &String) -> (b: bool)
    ensures
        b == (name@ == content_name()),
{
    proof {
        reveal_strlit("content");
        assert("content"@ =~= content_name());
    }
    let expected = String::from_str("content");
    name.eq(&expected)
}

/// Walks the response object's members, realizing
/// [`parse_response_members`] exactly.
fn scan_response_members(
    s: &str,
    i: usize,
    first: bool,
    sender: Option<String>,
    content: Option<String>,
) -> (r: Option<(Option<String>, Option<String>, usize)>)
    requires
        i <= s@.len(),
    ensures
        match r {
            Some((snd, cnt, e)) => {
                &&& parse_response_members(
                    s@,
                    i as int,
                    first,
                    match sender {
                        Some(v) => Some(v@),
                        None => None,
                    },
                    match content {
                        Some(v) => Some(v@),
                        None => None,
                    },
                ) matches Some(st)
                &&& st.2 == e as int
                &&& (match snd {
                    Some(v) => st.0 == Some(v@),
                    None => st.0 is None,
                })
                &&& (match cnt {
                    Some(v) => st.1 == Some(v@),
                    None => st.1 is None,
                })
                &&& i < e <= s@.len()
            },
            None => parse_response_members(
                s@,
                i as int,
                first,
                match sender {
                    Some(v) => Some(v@),
                    None => None,
                },
                match content {
                    Some(v) => Some(v@),
                    None => None,
                },
            ) is None,
        },
    decreases s@.len() - i,
{
    let ghost sender0 = match &sender {
        Some(v) => Some(v@),
        None => None::<Seq<char>>,
    };
    let ghost content0 = match &content {
        Some(v) => Some(v@),
        None => None::<Seq<char>>,
    };
    let n = s.unicode_len();
    if i >= n {
        return None;
    }
    if first && s.get_char(i) == '}' {
        return Some((sender, content, i + 1));
    }
    if s.get_char(i) != '"' {
        return None;
    }
    let (name, j) = match scan_string_body(s, i + 1) {
        Some(p) => p,
        None => {
            return None;
        },
    };
    let k = skip_ws(s, j);
    if k >= n || s.get_char(k) != ':' {
        return None;
    }
    let vpos = skip_ws(s, k + 1);
    proof {
        assert(bump(s@, i as int, spec_skip_ws(s@, k + 1)) == vpos as int);
    }
    let mut sender = sender;
    let mut content = content;
    let vend: usize;
    if is_sender_name(&name) {
        if sender.is_some() || vpos >= n || s.get_char(vpos) != '"' {
            return None;
        }
        let (v, e) = match scan_string_body(s, vpos + 1) {
            Some(p) => p,
            None => {
                return None;
            },
        };
        sender = Some(v);
        vend = e;
    } else if is_content_name(&name) {
        if content.is_some() || vpos >= n || s.get_char(vpos) != '"' {
            return None;
        }
        let (v, e) = match scan_string_body(s, vpos + 1) {
            Some(p) => p,
            None => {
                return None;
            },
        };
        content = Some(v);
        vend = e;
    } else {
        vend = match scan_value(s, vpos) {
            Some(e) => e,
            None => {
                return None;
            },
        };
    }
    let m = skip_ws(s, vend);
    if m >= n {
        return None;
    }
    if s.get_char(m) == '}' {
        return Some((sender, content, m + 1));
    }
    if s.get_char(m) == ',' {
        let next = skip_ws(s, m + 1);
        proof {
            assert(bump(s@, i as int, spec_skip_ws(s@, m + 1)) == next as int);
        }
        scan_response_members(s, next, false, sender, content)
    } else {
        None
    }
}

/// Why a frame was rejected.
#[derive(Debug, PartialEq, Eq, Structural)]
pub enum FrameError {
    /// The input is not one JSON object with optional string members
    /// `sender` and `content`.
    Malformed,
}

/// One parsed server frame, as the client sees it.
#[derive(Debug)]
pub struct Response {
    /// The username the framed message is attributed to, when the frame
    /// carries one.
    pub sender: Option<String>,
    /// The framed message's text, when the frame carries one.
    pub content: Option<String>,
}

impl Response {
    /// Parses one wire frame: any JSON object, in any member order and with
    /// any whitespace, whose optional string members `sender` and `content`
    /// become the fields; extra members of any JSON value kind are
    /// tolerated, and a member absent from the object is `None`.  The
    /// grammar is exactly [`parse_response`]; anything outside it — among
    /// else a duplicate or non-string `sender` or `content` — is rejected.
    pub fn new(frame: &str) -> (r: Result<Response, FrameError>)
        ensures
            (r is Ok) <==> parse_response(frame@) is Some,
            r matches Ok(resp) ==> {
                let p = parse_response(frame@)->Some_0;
                &&& (match resp.sender {
                    Some(v) => p.0 == Some(v@),
                    None => p.0 is None,
                })
                &&& (match resp.content {
                    Some(v) => p.1 == Some(v@),
                    None => p.1 is None,
                })
            },
    {
        let n = frame.unicode_len();
        let i = skip_ws(frame, 0);
        if i >= n || frame.get_char(i) != '{' {
            return Err(FrameError::Malformed);
        }
        let j = skip_ws(frame, i + 1);
        proof {
            assert(bump(frame@, i as int, spec_skip_ws(frame@, i + 1)) == j as int);
        }
        match scan_response_members(frame, j, true, None, None) {
            None => Err(FrameError::Malformed),
            Some((sender, content, e)) => {
                let fin = skip_ws(frame, e);
                if fin == n {
                    Ok(Response { sender, content })
                } else {
                    Err(FrameError::Malformed)
                }
            },
        }
    }
}

/// A string whose characters all stand for themselves is its own escaped
/// form.
pub proof fn lemma_escaped_all_plain(v: Seq<char>)
    requires
        forall|j: int| 0 <= j < v.len() ==> #[trigger] escaped_char(v[j]) == seq![v[j]],
    ensures
        escaped(v) == v,
    decreases v.len(),
{
    if v.len() > 0 {
        assert(escaped_char(v[0]) == seq![v[0]]);
        lemma_escaped_all_plain(v.drop_first());
        assert(seq![v[0]] + v.drop_first() =~= v);
    }
}

/// Every character is a Unicode scalar value.
proof fn lemma_char_is_scalar(c: char)
    ensures
        is_scalar_value(c as int),
{
}

/// The parse of a string value succeeds on exactly an escaped value
/// followed by a quote, giving that value and the position past the quote.
pub proof fn lemma_parse_string_body_complete(s: Seq<char>, i: int, v: Seq<char>)
    requires
        0 <= i,
        i + escaped(v).len() < s.len(),
        s.subrange(i, i + escaped(v).len()) == escaped(v),
        s[i + escaped(v).len()] == '"',
    ensures
        parse_string_body(s, i) == Some((v, i + escaped(v).len() + 1)),
    decreases v.len(),
{
    if v.len() == 0 {
        assert(s[i] == '"');
    } else {
        let c = v[0];
        let rest = v.drop_first();
        assert(escaped(v) == escaped_char(c) + escaped(rest));
        let clen = escaped_char(c).len() as int;
        assert forall|j: int| 0 <= j < escaped(v).len() implies s[i + j] == escaped(v)[j] by {
            assert(s.subrange(i, i + escaped(v).len())[j] == escaped(v)[j]);
        }
        assert(s[i] == escaped(v)[0]) by {
            assert(s[i + 0] == escaped(v)[0]);
        }
        assert forall|j: int| 0 <= j < clen implies escaped(v)[j] == escaped_char(c)[j] by {
            assert((escaped_char(c) + escaped(rest))[j] == escaped_char(c)[j]);
        }
        assert forall|j: int| 0 <= j < escaped(rest).len() implies s.subrange(
            i + clen,
            i + clen + escaped(rest).len(),
        )[j] == escaped(rest)[j] by {
            assert((escaped_char(c) + escaped(rest))[clen + j] == escaped(rest)[j]);
            assert(s[i + clen + j] == escaped(v)[clen + j]);
        }
        assert(s.subrange(i + clen, i + clen + escaped(rest).len()) =~= escaped(rest));
        lemma_parse_string_body_complete(s, i + clen, rest);
        assert(seq![c] + rest =~= v);
        if c == '"' || c == '\\' || c == '\n' || c == '\r' || c == '\t' || c == '\u{8}' || c
            == '\u{c}' {
            assert(clen == 2);
            assert(s[i] == '\\');
            assert(s[i + 1] == escaped_char(c)[1]);
            assert(s[i + 1] != 'u');
            assert(unescape_char(s[i + 1]) == Some(c));
        } else if (c as int) < 0x20 {
            assert(clen == 6);
            assert(s[i] == '\\' && s[i + 1] == 'u' && s[i + 2] == '0' && s[i + 3] == '0');
            let hi = c as int / 16;
            let lo = c as int % 16;
            lemma_char_is_scalar(c);
            assert(0 <= hi <= 1);
            assert(0 <= lo <= 15);
            assert(s[i + 4] == hex_digit(hi) && s[i + 5] == hex_digit(lo));
            assert(hex_val('0') == Some(0int));
            assert(hex_val(hex_digit(hi)) == Some(hi)) by {
                assert(hi < 2);
                assert(hex_digit(hi) as int == '0' as int + hi);
            }
            assert(hex_val(hex_digit(lo)) == Some(lo)) by {
                if lo < 10 {
                    assert(hex_digit(lo) as int == '0' as int + lo);
                } else {
                    assert(hex_digit(lo) as int == 'a' as int + lo - 10);
                }
            }
            assert(hex4(s, i + 2) == Some(hi * 16 + lo));
            assert(hi * 16 + lo == c as int);
            assert(is_scalar_value(c as int));
            assert((c as int) as char == c);
        } else {
            assert(clen == 1);
            assert(s[i] == c);
            assert(s[i] != '"' && s[i] != '\\' && (s[i] as int) >= 0x20);
        }
    }
}

/// How a frame lays out: every position, segment by segment.
proof fn lemma_frame_layout(a: Seq<char>, b: Seq<char>)
    ensures
        ({
            let s = frame_of(a, b);
            let e1: int = 11 + escaped(a).len() as int;
            let i2: int = e1 + 13;
            let e2: int = i2 + escaped(b).len() as int;
            &&& s.len() == e2 + 2
            &&& s.subrange(2, 8) == sender_name()
            &&& s.subrange(11, e1) == escaped(a)
            &&& s.subrange(e1 + 3, e1 + 10) == content_name()
            &&& s.subrange(i2, e2) == escaped(b)
            &&& s[0] == '{' && s[1] == '"' && s[8] == '"' && s[9] == ':' && s[10] == '"'
            &&& s[e1] == '"' && s[e1 + 1] == ',' && s[e1 + 2] == '"'
            &&& s[e1 + 10] == '"' && s[e1 + 11] == ':' && s[e1 + 12] == '"'
            &&& s[e2] == '"' && s[e2 + 1] == '}'
        }),
{
    let s = frame_of(a, b);
    let p = frame_prefix();
    let ea = escaped(a);
    let m = frame_middle();
    let eb = escaped(b);
    let sf = frame_suffix();
    let e1: int = 11 + ea.len() as int;
    let i2: int = e1 + 13;
    let e2: int = i2 + eb.len() as int;
    assert(p.len() == 11 && m.len() == 13 && sf.len() == 2);
    assert(s.len() == e2 + 2);
    assert forall|k: int| 0 <= k < s.len() implies #[trigger] s[k] == if k < 11 {
        p[k]
    } else if k < e1 {
        ea[k - 11]
    } else if k < i2 {
        m[k - e1]
    } else if k < e2 {
        eb[k - i2]
    } else {
        sf[k - e2]
    } by {
        assert(s[k] == (p + ea + m + eb + sf)[k]);
    }
    assert(s.subrange(2, 8) =~= sender_name());
    assert(s.subrange(11, e1) =~= ea);
    assert(s.subrange(e1 + 3, e1 + 10) =~= content_name());
    assert(s.subrange(i2, e2) =~= eb);
}

/// The four string values of a frame parse at their positions.
proof fn lemma_frame_strings(a: Seq<char>, b: Seq<char>)
    ensures
        ({
            let s = frame_of(a, b);
            let e1: int = 11 + escaped(a).len() as int;
            let i2: int = e1 + 13;
            let e2: int = i2 + escaped(b).len() as int;
            &&& parse_string_body(s, 2) == Some((sender_name(), 9int))
            &&& parse_string_body(s, 11) == Some((a, e1 + 1))
            &&& parse_string_body(s, e1 + 3) == Some((content_name(), e1 + 11))
            &&& parse_string_body(s, i2) == Some((b, e2 + 1))
        }),
{
    let s = frame_of(a, b);
    let e1: int = 11 + escaped(a).len() as int;
    let i2: int = e1 + 13;
    lemma_frame_layout(a, b);
    assert(escaped(sender_name()) == sender_name()) by {
        assert(forall|j: int|
            0 <= j < sender_name().len() ==> #[trigger] escaped_char(sender_name()[j])
                == seq![sender_name()[j]]);
        lemma_escaped_all_plain(sender_name());
    }
    assert(escaped(content_name()) == content_name()) by {
        assert(forall|j: int|
            0 <= j < content_name().len() ==> #[trigger] escaped_char(content_name()[j])
                == seq![content_name()[j]]);
        lemma_escaped_all_plain(content_name());
    }
    lemma_parse_string_body_complete(s, 2, sender_name());
    lemma_parse_string_body_complete(s, 11, a);
    lemma_parse_string_body_complete(s, e1 + 3, content_name());
    lemma_parse_string_body_complete(s, i2, b);
}

/// Round trip: the parse of an encoded frame gives back exactly the encoded
/// sender and content — nothing the writer duty sends is lost or changed on
/// the way through the wire.
pub proof fn lemma_frame_round_trip(a: Seq<char>, b: Seq<char>)
    ensures
        parse_response(frame_of(a, b)) == Some((Some(a), Some(b))),
{
    let s = frame_of(a, b);
    let e1: int = 11 + escaped(a).len() as int;
    let i2: int = e1 + 13;
    let e2: int = i2 + escaped(b).len() as int;
    lemma_frame_layout(a, b);
    lemma_frame_strings(a, b);
    assert(sender_name() != content_name()) by {
        assert(sender_name().len() != content_name().len());
    }
    assert(spec_skip_ws(s, 0) == 0);
    assert(spec_skip_ws(s, 1) == 1);
    assert(bump(s, 0, 1) == 1);
    assert(spec_skip_ws(s, 9) == 9);
    assert(spec_skip_ws(s, 10) == 10);
    assert(bump(s, 1, 10) == 10);
    assert(spec_skip_ws(s, e1 + 1) == e1 + 1);
    assert(spec_skip_ws(s, e1 + 2) == e1 + 2);
    assert(bump(s, 1, e1 + 2) == e1 + 2);
    assert(spec_skip_ws(s, e1 + 11) == e1 + 11);
    assert(spec_skip_ws(s, e1 + 12) == e1 + 12);
    assert(bump(s, e1 + 2, e1 + 12) == e1 + 12);
    assert(spec_skip_ws(s, e2 + 1) == e2 + 1);
    assert(spec_skip_ws(s, e2 + 2) == e2 + 2);
    assert(parse_response_members(s, e1 + 2, false, Some(a), None) == Some((
        Some(a),
        Some(b),
        e2 + 2,
    )));
    assert(parse_response_members(s, 1, true, None, None) == Some((Some(a), Some(b), e2 + 2)));
    assert(parse_response(s) == Some((Some(a), Some(b))));
}

/// A frame determines its sender and content: encoding is injective.
pub proof fn lemma_frame_of_injective(a1: Seq<char>, b1: Seq<char>, a2: Seq<char>, b2: Seq<char>)
    requires
        frame_of(a1, b1) == frame_of(a2, b2),
    ensures
        a1 == a2,
        b1 == b2,
{
    lemma_frame_round_trip(a1, b1);
    lemma_frame_round_trip(a2, b2);
}

} // verus!
