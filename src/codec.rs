//! The wire format: each message is one line of compact JSON, tagged with
//! the name of its variant, with string payloads escaped as JSON strings
//! (`"`, `\\` and control characters escaped, everything else written as is).
//! Decoding accepts exactly the lines that encoding produces, so decoding the
//! line of a message gives that message back.
use vstd::prelude::*;
use crate::message::{Reply, ReplyView, Request, RequestView};

verus! {

/// The lower-case hexadecimal digit of `d`, for `d < 16`.
pub open spec fn hex_digit(d: u32) -> char {
    if d < 10 {
        ((d + 48) as u8) as char
    } else {
        ((d + 87) as u8) as char
    }
}

/// How one character is written inside a JSON string.
pub open spec fn escape_char(c: char) -> Seq<char> {
    if c == '"' {
        seq!['\\', '"']
    } else if c == '\\' {
        seq!['\\', '\\']
    } else if c == '\n' {
        seq!['\\', 'n']
    } else if c == '\r' {
        seq!['\\', 'r']
    } else if c == '\t' {
        seq!['\\', 't']
    } else if c as u32 == 8 {
        seq!['\\', 'b']
    } else if c as u32 == 12 {
        seq!['\\', 'f']
    } else if (c as u32) < 32 {
        seq!['\\', 'u', '0', '0', hex_digit(c as u32 / 16), hex_digit(c as u32 % 16)]
    } else {
        seq![c]
    }
}

/// How a sequence of characters is written inside a JSON string.
pub open spec fn escape(s: Seq<char>) -> Seq<char>
    decreases s.len(),
{
    if s.len() == 0 {
        Seq::empty()
    } else {
        escape_char(s[0]) + escape(s.drop_first())
    }
}

/// A JSON string literal holding `s`.
pub open spec fn json_string(s: Seq<char>) -> Seq<char> {
    seq!['"'] + escape(s) + seq!['"']
}

pub open spec fn join_head() -> Seq<char> {
    "{\"Join\":{\"group_name\":"@
}

pub open spec fn post_head() -> Seq<char> {
    "{\"Post\":{\"group_name\":"@
}

pub open spec fn message_head() -> Seq<char> {
    "{\"Message\":{\"group_name\":"@
}

pub open spec fn error_head() -> Seq<char> {
    "{\"Error\":"@
}

pub open spec fn message_field() -> Seq<char> {
    ",\"message\":"@
}

pub open spec fn close_one() -> Seq<char> {
    "}"@
}

pub open spec fn close_two() -> Seq<char> {
    "}}"@
}

/// The line (without its terminator) that carries a request.
pub open spec fn encode_request_spec(r: RequestView) -> Seq<char> {
    match r {
        RequestView::Join { group_name } => join_head() + json_string(group_name) + close_two(),
        RequestView::Post { group_name, message } => post_head() + json_string(group_name)
            + message_field() + json_string(message) + close_two(),
    }
}

/// The line (without its terminator) that carries a reply.
pub open spec fn encode_reply_spec(r: ReplyView) -> Seq<char> {
    match r {
        ReplyView::Message { group_name, message } => message_head() + json_string(group_name)
            + message_field() + json_string(message) + close_two(),
        ReplyView::Error { text } => error_head() + json_string(text) + close_one(),
    }
}

/// Escaping distributes over concatenation.
pub proof fn lemma_escape_append(a: Seq<char>, b: Seq<char>)
    ensures
        escape(a + b) == escape(a) + escape(b),
    decreases a.len(),
{
    if a.len() == 0 {
        assert(a + b =~= b);
        assert(escape(a) + escape(b) =~= escape(b));
    } else {
        assert((a + b).drop_first() =~= a.drop_first() + b);
        lemma_escape_append(a.drop_first(), b);
        assert(escape(a + b) =~= escape_char(a[0]) + (escape(a.drop_first()) + escape(b)));
    }
}

/// Escaping the first `i + 1` characters adds the escape of character `i`.
pub proof fn lemma_escape_step(s: Seq<char>, i: int)
    requires
        0 <= i < s.len(),
    ensures
        escape(s.take(i + 1)) == escape(s.take(i)) + escape_char(s[i]),
{
    assert(s.take(i + 1) =~= s.take(i) + seq![s[i]]);
    lemma_escape_append(s.take(i), seq![s[i]]);
    let one = seq![s[i]];
    assert(one.drop_first() =~= Seq::<char>::empty());
    assert(escape(one.drop_first()) == Seq::<char>::empty());
    assert(escape(one) =~= escape_char(s[i]));
}

/// Two escaped characters that start the same text are the same character.
pub proof fn lemma_escape_char_unique(c1: char, c2: char, x: Seq<char>, y: Seq<char>)
    requires
        escape_char(c1) + x == escape_char(c2) + y,
    ensures
        c1 == c2,
        x == y,
{
    let e1 = escape_char(c1);
    let e2 = escape_char(c2);
    assert((e1 + x)[0] == e1[0]);
    assert((e2 + y)[0] == e2[0]);
    if e1.len() >= 2 && e2.len() >= 2 {
        assert((e1 + x)[1] == e1[1]);
        assert((e2 + y)[1] == e2[1]);
        if e1.len() == 6 && e2.len() == 6 {
            assert((e1 + x)[4] == e1[4]);
            assert((e2 + y)[4] == e2[4]);
            assert((e1 + x)[5] == e1[5]);
            assert((e2 + y)[5] == e2[5]);
            assert(c1 as u32 == c2 as u32);
        }
    }
    assert(e1 == e2);
    assert(x =~= (e1 + x).skip(e1.len() as int));
    assert(y =~= (e2 + y).skip(e2.len() as int));
}

/// A JSON string ends at its first unescaped quote: what it holds and what
/// follows it are fixed by the text.
pub proof fn lemma_escape_unique(a: Seq<char>, b: Seq<char>, x: Seq<char>, y: Seq<char>)
    requires
        escape(a) + seq!['"'] + x == escape(b) + seq!['"'] + y,
    ensures
        a == b,
        x == y,
    decreases a.len(),
{
    if a.len() == 0 {
        if b.len() != 0 {
            assert((escape(b) + seq!['"'] + y)[0] == escape_char(b[0])[0]);
            assert((escape(a) + seq!['"'] + x)[0] == '"');
        }
        assert(x =~= (escape(a) + seq!['"'] + x).skip(1));
        assert(y =~= (escape(b) + seq!['"'] + y).skip(1));
    } else if b.len() == 0 {
        assert((escape(a) + seq!['"'] + x)[0] == escape_char(a[0])[0]);
        assert((escape(b) + seq!['"'] + y)[0] == '"');
    } else {
        let ra = escape(a.drop_first()) + seq!['"'] + x;
        let rb = escape(b.drop_first()) + seq!['"'] + y;
        assert(escape(a) + seq!['"'] + x =~= escape_char(a[0]) + ra);
        assert(escape(b) + seq!['"'] + y =~= escape_char(b[0]) + rb);
        lemma_escape_char_unique(a[0], b[0], ra, rb);
        lemma_escape_unique(a.drop_first(), b.drop_first(), x, y);
        assert(a =~= seq![a[0]] + a.drop_first());
        assert(b =~= seq![b[0]] + b.drop_first());
    }
}

/// The JSON string that follows a common prefix fixes what it holds and what follows it.
pub proof fn lemma_json_string_unique(
    pre: Seq<char>,
    a: Seq<char>,
    b: Seq<char>,
    x: Seq<char>,
    y: Seq<char>,
)
    requires
        pre + json_string(a) + x == pre + json_string(b) + y,
    ensures
        a == b,
        x == y,
{
    let k = pre.len() as int + 1;
    assert((pre + json_string(a) + x).skip(k) =~= escape(a) + seq!['"'] + x);
    assert((pre + json_string(b) + y).skip(k) =~= escape(b) + seq!['"'] + y);
    lemma_escape_unique(a, b, x, y);
}

/// Different requests are written as different lines.
pub proof fn lemma_encode_request_injective(r1: RequestView, r2: RequestView)
    requires
        encode_request_spec(r1) == encode_request_spec(r2),
    ensures
        r1 == r2,
{
    reveal_strlit("{\"Join\":{\"group_name\":");
    reveal_strlit("{\"Post\":{\"group_name\":");
    let e1 = encode_request_spec(r1);
    let e2 = encode_request_spec(r2);
    match (r1, r2) {
        (RequestView::Join { group_name: g1 }, RequestView::Join { group_name: g2 }) => {
            lemma_json_string_unique(join_head(), g1, g2, close_two(), close_two());
        },
        (
            RequestView::Post { group_name: g1, message: m1 },
            RequestView::Post { group_name: g2, message: m2 },
        ) => {
            let t1 = message_field() + json_string(m1) + close_two();
            let t2 = message_field() + json_string(m2) + close_two();
            assert(e1 =~= post_head() + json_string(g1) + t1);
            assert(e2 =~= post_head() + json_string(g2) + t2);
            lemma_json_string_unique(post_head(), g1, g2, t1, t2);
            lemma_json_string_unique(message_field(), m1, m2, close_two(), close_two());
        },
        (RequestView::Join { .. }, RequestView::Post { .. }) => {
            assert(e1[2] == 'J' && e2[2] == 'P');
        },
        (RequestView::Post { .. }, RequestView::Join { .. }) => {
            assert(e1[2] == 'P' && e2[2] == 'J');
        },
    }
}

/// Different replies are written as different lines.
pub proof fn lemma_encode_reply_injective(r1: ReplyView, r2: ReplyView)
    requires
        encode_reply_spec(r1) == encode_reply_spec(r2),
    ensures
        r1 == r2,
{
    reveal_strlit("{\"Message\":{\"group_name\":");
    reveal_strlit("{\"Error\":");
    let e1 = encode_reply_spec(r1);
    let e2 = encode_reply_spec(r2);
    match (r1, r2) {
        (
            ReplyView::Message { group_name: g1, message: m1 },
            ReplyView::Message { group_name: g2, message: m2 },
        ) => {
            let t1 = message_field() + json_string(m1) + close_two();
            let t2 = message_field() + json_string(m2) + close_two();
            assert(e1 =~= message_head() + json_string(g1) + t1);
            assert(e2 =~= message_head() + json_string(g2) + t2);
            lemma_json_string_unique(message_head(), g1, g2, t1, t2);
            lemma_json_string_unique(message_field(), m1, m2, close_two(), close_two());
        },
        (ReplyView::Error { text: t1 }, ReplyView::Error { text: t2 }) => {
            lemma_json_string_unique(error_head(), t1, t2, close_one(), close_one());
        },
        (ReplyView::Message { .. }, ReplyView::Error { .. }) => {
            assert(e1[2] == 'M' && e2[2] == 'E');
        },
        (ReplyView::Error { .. }, ReplyView::Message { .. }) => {
            assert(e1[2] == 'E' && e2[2] == 'M');
        },
    }
}

/// Appends the hexadecimal digit of `d`.
fn push_hex_digit(out: &mut String, d: u32)
    requires
        d < 16,
    ensures
        final(out)@ == old(out)@ + seq![hex_digit(d)],
{
    let digits = "0123456789abcdef";
    proof {
        reveal_strlit("0123456789abcdef");
    }
    let one = digits.substring_char(d as usize, d as usize + 1);
    assert(one@ =~= seq![hex_digit(d)]);
    out.append(one);
}

/// Appends `s` escaped as the inside of a JSON string.
fn push_escaped(out: &mut String, s: &str)
    ensures
        final(out)@ == old(out)@ + escape(s@),
{
    let n = s.unicode_len();
    let mut i: usize = 0;
    while i < n
        invariant
            n == s@.len(),
            i <= n,
            out@ == old(out)@ + escape(s@.take(i as int)),
        decreases n - i,
    {
        let c = s.get_char(i);
        proof {
            lemma_escape_step(s@, i as int);
            reveal_strlit("\\");
            reveal_strlit("\\n");
            reveal_strlit("\\r");
            reveal_strlit("\\t");
            reveal_strlit("\\b");
            reveal_strlit("\\f");
            reveal_strlit("\\u00");
        }
        let ghost before = out@;
        if c == '"' || c == '\\' {
            out.append("\\");
            out.append(s.substring_char(i, i + 1));
            assert("\\"@ =~= seq!['\\']);
        } else if c == '\n' {
            out.append("\\n");
            assert("\\n"@ =~= seq!['\\', 'n']);
        } else if c == '\r' {
            out.append("\\r");
            assert("\\r"@ =~= seq!['\\', 'r']);
        } else if c == '\t' {
            out.append("\\t");
            assert("\\t"@ =~= seq!['\\', 't']);
        } else if c as u32 == 8 {
            out.append("\\b");
            assert("\\b"@ =~= seq!['\\', 'b']);
        } else if c as u32 == 12 {
            out.append("\\f");
            assert("\\f"@ =~= seq!['\\', 'f']);
        } else if (c as u32) < 32 {
            out.append("\\u00");
            push_hex_digit(out, c as u32 / 16);
            push_hex_digit(out, c as u32 % 16);
            assert("\\u00"@ =~= seq!['\\', 'u', '0', '0']);
        } else {
            out.append(s.substring_char(i, i + 1));
            assert(escape_char(c) == seq![c]);
        }
        assert(out@ =~= before + escape_char(c));
        i = i + 1;
    }
    assert(s@.take(n as int) =~= s@);
}

/// Appends `s` as a JSON string literal.
fn push_json_string(out: &mut String, s: &str)
    ensures
        final(out)@ == old(out)@ + json_string(s@),
{
    proof {
        reveal_strlit("\"");
    }
    let ghost start = out@;
    out.append("\"");
    push_escaped(out, s);
    out.append("\"");
    assert(out@ =~= start + json_string(s@));
}

/// The line (without its terminator) that carries `req`.
pub fn encode_request(req: &Request) -> (r: String)
    ensures
        r@ == encode_request_spec(req@),
{
    match req {
        Request::Join { group_name } => {
            let mut out = String::from_str("{\"Join\":{\"group_name\":");
            push_json_string(&mut out, group_name.as_str());
            out.append("}}");
            out
        },
        Request::Post { group_name, message } => {
            let mut out = String::from_str("{\"Post\":{\"group_name\":");
            push_json_string(&mut out, group_name.as_str());
            out.append(",\"message\":");
            push_json_string(&mut out, message.as_str());
            out.append("}}");
            out
        },
    }
}

/// The line (without its terminator) that carries `reply`.
pub fn encode_reply(reply: &Reply) -> (r: String)
    ensures
        r@ == encode_reply_spec(reply@),
{
    match reply {
        Reply::Message { group_name, message } => {
            let mut out = String::from_str("{\"Message\":{\"group_name\":");
            push_json_string(&mut out, group_name.as_str());
            out.append(",\"message\":");
            push_json_string(&mut out, message.as_str());
            out.append("}}");
            out
        },
        Reply::Error(text) => {
            let mut out = String::from_str("{\"Error\":");
            push_json_string(&mut out, text.as_str());
            out.append("}");
            out
        },
    }
}

/// The request that a line carries, if it is the line of some request.
pub open spec fn decode_request_spec(line: Seq<char>) -> Option<RequestView> {
    if exists|r: RequestView| encode_request_spec(r) == line {
        Some(choose|r: RequestView| encode_request_spec(r) == line)
    } else {
        None
    }
}

/// The reply that a line carries, if it is the line of some reply.
pub open spec fn decode_reply_spec(line: Seq<char>) -> Option<ReplyView> {
    if exists|r: ReplyView| encode_reply_spec(r) == line {
        Some(choose|r: ReplyView| encode_reply_spec(r) == line)
    } else {
        None
    }
}

/// Hexadecimal digits are distinct.
pub proof fn lemma_hex_digit_injective(a: u32, b: u32)
    requires
        a < 16,
        b < 16,
        hex_digit(a) == hex_digit(b),
    ensures
        a == b,
{
    assert(hex_digit(a) as u32 == hex_digit(b) as u32);
}

/// The value of a lower-case hexadecimal digit.
fn hex_value(h: char) -> (r: Option<u32>)
    ensures
        r matches Some(d) ==> d < 16 && hex_digit(d) == h,
        r is None ==> forall|d: u32| d < 16 ==> hex_digit(d) != h,
{
    let v = h as u32;
    if 48 <= v && v <= 57 {
        Some(v - 48)
    } else if 97 <= v && v <= 102 {
        Some(v - 87)
    } else {
        assert forall|d: u32| d < 16 implies hex_digit(d) != h by {
            assert(hex_digit(d) as u32 == if d < 10 { d + 48 } else { d + 87 });
        }
        None
    }
}

/// Whether `lit` stands in `line` from index `p`.
fn has_at(line: &str, n: usize, p: usize, lit: &str) -> (r: bool)
    requires
        n == line@.len(),
        p <= n,
    ensures
        r == (p + lit@.len() <= n && line@.subrange(p as int, p + lit@.len()) == lit@),
{
    let m = lit.unicode_len();
    if m > n - p {
        return false;
    }
    let mut j: usize = 0;
    while j < m
        invariant
            n == line@.len(),
            m == lit@.len(),
            p + m <= n,
            j <= m,
            forall|k: int| 0 <= k < j ==> line@[p + k] == lit@[k],
        decreases m - j,
    {
        if line.get_char(p + j) != lit.get_char(j) {
            assert(line@.subrange(p as int, p + m)[j as int] != lit@[j as int]);
            return false;
        }
        j = j + 1;
    }
    assert(line@.subrange(p as int, p + m) =~= lit@);
    true
}

/// Reads the character written from index `i` of `line` inside a JSON
/// string, appends it to `out` and returns the index after it.
/// Where `line` holds the escape of `c` there, `c` is what is read.
fn read_char(line: &str, n: usize, i: usize, out: &mut String, Ghost(c): Ghost<char>) -> (r:
    Option<usize>)
    requires
        n == line@.len(),
        i < n,
    ensures
        r matches Some(j) ==> {
            &&& i < j <= n
            &&& final(out)@.len() == old(out)@.len() + 1
            &&& final(out)@.drop_last() == old(out)@
            &&& line@.subrange(i as int, j as int) == escape_char(final(out)@.last())
        },
        (i + escape_char(c).len() <= n && line@.subrange(i as int, i + escape_char(c).len())
            == escape_char(c)) ==> (r == Some((i + escape_char(c).len()) as usize)
            && final(out)@ == old(out)@.push(c)),
{
    let ghost hyp = i + escape_char(c).len() <= n && line@.subrange(
        i as int,
        i + escape_char(c).len(),
    ) == escape_char(c);
    let ghost e = escape_char(c);
    proof {
        if hyp {
            assert(line@[i as int] == e[0]);
            if e.len() >= 2 {
                assert(line@[i + 1] == e[1]);
            }
            if e.len() == 6 {
                assert(line@[i + 2] == e[2]);
                assert(line@[i + 3] == e[3]);
                assert(line@[i + 4] == e[4]);
                assert(line@[i + 5] == e[5]);
            }
        }
    }
    let ghost before = out@;
    let first = line.get_char(i);
    if first != '\\' {
        if first == '"' || (first as u32) < 32 {
            return None;
        }
        out.append(line.substring_char(i, i + 1));
        assert(out@.drop_last() =~= before);
        assert(line@.subrange(i as int, i + 1) =~= escape_char(first));
        return Some(i + 1);
    }
    if n - i <= 1 {
        return None;
    }
    let second = line.get_char(i + 1);
    if second == '"' || second == '\\' {
        out.append(line.substring_char(i + 1, i + 2));
        assert(out@.drop_last() =~= before);
        assert(line@.subrange(i as int, i + 2) =~= escape_char(second));
        return Some(i + 2);
    }
    if second == 'n' || second == 'r' || second == 't' || second == 'b' || second == 'f' {
        let lit = if second == 'n' {
            "\n"
        } else if second == 'r' {
            "\r"
        } else if second == 't' {
            "\t"
        } else if second == 'b' {
            "\u{8}"
        } else {
            "\u{c}"
        };
        proof {
            reveal_strlit("\n");
            reveal_strlit("\r");
            reveal_strlit("\t");
            reveal_strlit("\u{8}");
            reveal_strlit("\u{c}");
        }
        out.append(lit);
        assert(out@.drop_last() =~= before);
        assert(line@.subrange(i as int, i + 2) =~= escape_char(out@.last()));
        return Some(i + 2);
    }
    if second != 'u' || n - i <= 5 {
        return None;
    }
    if line.get_char(i + 2) != '0' || line.get_char(i + 3) != '0' {
        return None;
    }
    let hi = match hex_value(line.get_char(i + 4)) {
        Some(d) => d,
        None => {
            return None;
        },
    };
    let lo = match hex_value(line.get_char(i + 5)) {
        Some(d) => d,
        None => {
            return None;
        },
    };
    if hi >= 2 {
        return None;
    }
    let v = hi * 16 + lo;
    if v == 8 || v == 9 || v == 10 || v == 12 || v == 13 {
        return None;
    }
    proof {
        if hyp {
            lemma_hex_digit_injective(hi, c as u32 / 16);
            lemma_hex_digit_injective(lo, c as u32 % 16);
        }
    }
    let controls = "\u{0}\u{1}\u{2}\u{3}\u{4}\u{5}\u{6}\u{7}\u{8}\u{9}\u{a}\u{b}\u{c}\u{d}\u{e}\u{f}\u{10}\u{11}\u{12}\u{13}\u{14}\u{15}\u{16}\u{17}\u{18}\u{19}\u{1a}\u{1b}\u{1c}\u{1d}\u{1e}\u{1f}";
    proof {
        reveal_strlit(
            "\u{0}\u{1}\u{2}\u{3}\u{4}\u{5}\u{6}\u{7}\u{8}\u{9}\u{a}\u{b}\u{c}\u{d}\u{e}\u{f}\u{10}\u{11}\u{12}\u{13}\u{14}\u{15}\u{16}\u{17}\u{18}\u{19}\u{1a}\u{1b}\u{1c}\u{1d}\u{1e}\u{1f}",
        );
    }
    let one = controls.substring_char(v as usize, v as usize + 1);
    let ghost x = controls@[v as int];
    assert(x as u32 == v);
    out.append(one);
    assert(out@.drop_last() =~= before);
    assert(out@.last() == x);
    assert(v / 16 == hi && v % 16 == lo);
    assert(line@.subrange(i as int, i + 6) =~= escape_char(x));
    Some(i + 6)
}

/// Reads the JSON string that starts at index `p` of `line`: what it holds,
/// and the index after its closing quote. Where `line` holds the JSON string
/// of `w` there, `w` is what is read.
fn read_json_string(line: &str, n: usize, p: usize, Ghost(w): Ghost<Seq<char>>) -> (r: Option<
    (String, usize),
>)
    requires
        n == line@.len(),
        p <= n,
    ensures
        r matches Some((s, q)) ==> p < q <= n && line@.subrange(p as int, q as int)
            == json_string(s@),
        (p + json_string(w).len() <= n && line@.subrange(p as int, p + json_string(w).len())
            == json_string(w)) ==> (r matches Some((s, q)) && s@ == w && q == p + json_string(
            w,
        ).len()),
{
    let ghost hyp = p + json_string(w).len() <= n && line@.subrange(
        p as int,
        p + json_string(w).len(),
    ) == json_string(w);
    if p >= n || line.get_char(p) != '"' {
        proof {
            if hyp {
                assert(line@.subrange(p as int, p + json_string(w).len())[0] == '"');
            }
        }
        return None;
    }
    let mut out = String::new();
    let mut i: usize = p + 1;
    while i < n
        invariant
            n == line@.len(),
            p < i <= n,
            line@[p as int] == '"',
            line@.subrange(p + 1, i as int) == escape(out@),
            hyp == (p + json_string(w).len() <= n && line@.subrange(
                p as int,
                p + json_string(w).len(),
            ) == json_string(w)),
            hyp ==> out@.len() <= w.len() && out@ == w.take(out@.len() as int) && i == p + 1
                + escape(out@).len(),
        decreases n - i,
    {
        let ghost k = out@.len() as int;
        proof {
            if hyp {
                let js = json_string(w);
                assert(w =~= w.take(k) + w.skip(k));
                lemma_escape_append(w.take(k), w.skip(k));
                if k < w.len() {
                    lemma_escape_step(w, k);
                    assert(w.skip(k) =~= w.take(k + 1).skip(k) + w.skip(k + 1));
                    assert(w.take(k + 1) =~= w.take(k) + seq![w[k]]);
                    lemma_escape_append(w.take(k + 1), w.skip(k + 1));
                    assert(w =~= w.take(k + 1) + w.skip(k + 1));
                    let e = escape_char(w[k]);
                    assert(escape(w) == escape(w.take(k)) + e + escape(w.skip(k + 1)));
                    assert forall|t: int| 0 <= t < e.len() implies line@[i + t] == e[t] by {
                        assert(line@[i + t] == js[i + t - p]);
                        assert(js[i + t - p] == escape(w)[i + t - p - 1]);
                    }
                    assert(line@.subrange(i as int, i + e.len()) =~= e);
                    assert(line@[i as int] != '"');
                } else {
                    assert(w.take(k) =~= w);
                    assert(line@[i as int] == js[i - p]);
                }
            }
        }
        if line.get_char(i) == '"' {
            assert(line@.subrange(p as int, i + 1) =~= seq!['"'] + escape(out@) + seq!['"']);
            return Some((out, i + 1));
        }
        let ghost wc = if hyp && k < w.len() {
            w[k]
        } else {
            ' '
        };
        let ghost before = out@;
        match read_char(line, n, i, &mut out, Ghost(wc)) {
            Some(j) => {
                proof {
                    let x = out@.last();
                    lemma_escape_step(out@, k);
                    assert(out@.take(k + 1) =~= out@);
                    assert(out@.take(k) =~= before);
                    assert(line@.subrange(p + 1, j as int) =~= line@.subrange(p + 1, i as int)
                        + line@.subrange(i as int, j as int));
                    if hyp {
                        assert(out@ =~= w.take(k + 1));
                    }
                }
                i = j;
            },
            None => {
                return None;
            },
        }
    }
    proof {
        if hyp {
            let k = out@.len() as int;
            assert(w =~= w.take(k) + w.skip(k));
            lemma_escape_append(w.take(k), w.skip(k));
        }
    }
    None
}

/// Reads a line made of `head`, one JSON string and `tail`.
fn read_one_field(line: &str, n: usize, head: &str, tail: &str, Ghost(w): Ghost<Seq<char>>) -> (r:
    Option<String>)
    requires
        n == line@.len(),
    ensures
        r matches Some(t) ==> line@ == head@ + json_string(t@) + tail@,
        line@ == head@ + json_string(w) + tail@ ==> (r matches Some(t) && t@ == w),
{
    let ghost hyp = line@ == head@ + json_string(w) + tail@;
    if !has_at(line, n, 0, head) {
        assert(hyp ==> line@.subrange(0, head@.len() as int) =~= head@);
        return None;
    }
    let p = head.unicode_len();
    assert(hyp ==> line@.subrange(p as int, p + json_string(w).len()) =~= json_string(w));
    let (t, q) = match read_json_string(line, n, p, Ghost(w)) {
        Some(x) => x,
        None => {
            return None;
        },
    };
    let tl = tail.unicode_len();
    if !has_at(line, n, q, tail) || n - q != tl {
        assert(hyp ==> line@.subrange(q as int, n as int) =~= tail@);
        return None;
    }
    assert(line@ =~= line@.subrange(0, p as int) + line@.subrange(p as int, q as int)
        + line@.subrange(q as int, n as int));
    Some(t)
}

/// Reads a line made of `head`, the JSON string of a group, the message
/// field name, the JSON string of a message and two closing braces.
fn read_two_fields(
    line: &str,
    n: usize,
    head: &str,
    Ghost(wg): Ghost<Seq<char>>,
    Ghost(wm): Ghost<Seq<char>>,
) -> (r: Option<(String, String)>)
    requires
        n == line@.len(),
    ensures
        r matches Some((g, m)) ==> line@ == head@ + json_string(g@) + message_field()
            + json_string(m@) + close_two(),
        line@ == head@ + json_string(wg) + message_field() + json_string(wm) + close_two() ==> (
        r matches Some((g, m)) && g@ == wg && m@ == wm),
{
    let ghost hyp = line@ == head@ + json_string(wg) + message_field() + json_string(wm)
        + close_two();
    let field = ",\"message\":";
    let close = "}}";
    if !has_at(line, n, 0, head) {
        assert(hyp ==> line@.subrange(0, head@.len() as int) =~= head@);
        return None;
    }
    let p = head.unicode_len();
    assert(hyp ==> line@.subrange(p as int, p + json_string(wg).len()) =~= json_string(wg));
    let (g, q) = match read_json_string(line, n, p, Ghost(wg)) {
        Some(x) => x,
        None => {
            return None;
        },
    };
    if !has_at(line, n, q, field) {
        assert(hyp ==> line@.subrange(q as int, q + field@.len()) =~= field@);
        return None;
    }
    let q2 = q + field.unicode_len();
    assert(hyp ==> line@.subrange(q2 as int, q2 + json_string(wm).len()) =~= json_string(wm));
    let (m, q3) = match read_json_string(line, n, q2, Ghost(wm)) {
        Some(x) => x,
        None => {
            return None;
        },
    };
    let cl = close.unicode_len();
    if !has_at(line, n, q3, close) || n - q3 != cl {
        assert(hyp ==> line@.subrange(q3 as int, n as int) =~= close@);
        return None;
    }
    assert(line@ =~= line@.subrange(0, p as int) + line@.subrange(p as int, q as int)
        + line@.subrange(q as int, q2 as int) + line@.subrange(q2 as int, q3 as int)
        + line@.subrange(q3 as int, n as int));
    Some((g, m))
}

/// The request that a line carries, or `None` when it is the line of no request.
pub fn decode_request(line: &str) -> (r: Option<Request>)
    ensures
        r matches Some(v) ==> decode_request_spec(line@) == Some(v@),
        r is None ==> decode_request_spec(line@) is None,
{
    let n = line.unicode_len();
    let ghost target = choose|v: RequestView| encode_request_spec(v) == line@;
    let ghost wg = match target {
        RequestView::Join { group_name } => group_name,
        RequestView::Post { group_name, .. } => group_name,
    };
    let ghost wm = match target {
        RequestView::Join { .. } => Seq::<char>::empty(),
        RequestView::Post { message, .. } => message,
    };
    if let Some(g) = read_one_field(line, n, "{\"Join\":{\"group_name\":", "}}", Ghost(wg)) {
        let r = Request::Join { group_name: g };
        proof {
            lemma_encode_request_injective(choose|v: RequestView| encode_request_spec(v) == line@, r@);
        }
        return Some(r);
    }
    match read_two_fields(line, n, "{\"Post\":{\"group_name\":", Ghost(wg), Ghost(wm)) {
        Some((g, m)) => {
            let r = Request::Post { group_name: g, message: m };
            proof {
                lemma_encode_request_injective(choose|v: RequestView| encode_request_spec(v) == line@, r@);
            }
            Some(r)
        },
        None => None,
    }
}

/// The reply that a line carries, or `None` when it is the line of no reply.
pub fn decode_reply(line: &str) -> (r: Option<Reply>)
    ensures
        r matches Some(v) ==> decode_reply_spec(line@) == Some(v@),
        r is None ==> decode_reply_spec(line@) is None,
{
    let n = line.unicode_len();
    let ghost target = choose|v: ReplyView| encode_reply_spec(v) == line@;
    let ghost wg = match target {
        ReplyView::Message { group_name, .. } => group_name,
        ReplyView::Error { text } => text,
    };
    let ghost wm = match target {
        ReplyView::Message { message, .. } => message,
        ReplyView::Error { .. } => Seq::<char>::empty(),
    };
    match read_two_fields(line, n, "{\"Message\":{\"group_name\":", Ghost(wg), Ghost(wm)) {
        Some((g, m)) => {
            let r = Reply::Message { group_name: g, message: m };
            proof {
                lemma_encode_reply_injective(choose|v: ReplyView| encode_reply_spec(v) == line@, r@);
            }
            return Some(r);
        },
        None => {},
    }
    match read_one_field(line, n, "{\"Error\":", "}", Ghost(wg)) {
        Some(t) => {
            let r = Reply::Error(t);
            proof {
                lemma_encode_reply_injective(choose|v: ReplyView| encode_reply_spec(v) == line@, r@);
            }
            Some(r)
        },
        None => None,
    }
}

/// Decoding the line of any request gives that request back.
pub proof fn lemma_request_round_trip(r: RequestView)
    ensures
        decode_request_spec(encode_request_spec(r)) == Some(r),
{
    let line = encode_request_spec(r);
    assert(exists|v: RequestView| encode_request_spec(v) == line);
    lemma_encode_request_injective(choose|v: RequestView| encode_request_spec(v) == line, r);
}

/// Decoding the line of any reply gives that reply back.
pub proof fn lemma_reply_round_trip(r: ReplyView)
    ensures
        decode_reply_spec(encode_reply_spec(r)) == Some(r),
{
    let line = encode_reply_spec(r);
    assert(exists|v: ReplyView| encode_reply_spec(v) == line);
    lemma_encode_reply_injective(choose|v: ReplyView| encode_reply_spec(v) == line, r);
}

} // verus!
