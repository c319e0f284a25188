use vstd::prelude::*;

use crate::text::{
    chars_of, decimal_digits, decimal_value, digit_char, digit_value, find_char, is_digit, is_white_space, push_decimal,
    str_eq, trim, trim_end, trim_start, trimmed_bounds,
};

verus! {

// ---------------------------------------------------------------------------
// Messages between a forwarding launch and the primary instance

/// The command word of a new-window request.
pub open spec fn new_window_command() -> Seq<char> {
    "new-window"@
}

/// The characters of an optional string slice, as plain values.
pub open spec fn opt_chars(s: Option<&str>) -> Option<Seq<char>> {
    match s {
        Some(d) => Some(d@),
        None => None,
    }
}

/// The request payload `<command>\t<path>`: the command is `new-window`
/// and the path is empty for a plain new window, else the target folder.
pub open spec fn message_of(directory: Option<Seq<char>>) -> Seq<char> {
    new_window_command() + seq!['\t'] + match directory {
        Some(d) => d,
        None => Seq::empty(),
    }
}

/// A payload split at its first tab into the command and the path; an
/// empty path, or no tab at all, means no directory.
pub open spec fn parse_message(line: Seq<char>) -> (Seq<char>, Option<Seq<char>>) {
    match line.index_of_first('\t') {
        Some(k) => (
            line.take(k),
            if k + 1 == line.len() {
                None
            } else {
                Some(line.skip(k + 1))
            },
        ),
        None => (line, None),
    }
}

/// Builds the payload sent to the primary instance; `directory` is the
/// target folder of the `--dir` verb, if any.
pub fn build_msg(directory: Option<&str>) -> (msg: String)
    ensures
        msg@ == message_of(opt_chars(directory)),
{
    let mut msg = String::from_str("new-window");
    msg.push('\t');
    match directory {
        Some(dir) => msg.append(dir),
        None => {},
    }
    assert(msg@ =~= message_of(opt_chars(directory)));
    msg
}

/// Splits a received payload into the command and the optional directory.
/// The command is not checked, so that a newer version can add commands
/// without breaking an older primary.
pub fn parse_msg(line: &str) -> (parts: (&str, Option<&str>))
    ensures
        (parts.0@, opt_chars(parts.1)) == parse_message(line@),
{
    let chars = chars_of(line);
    match find_char(&chars, '\t') {
        None => (line, None),
        Some(k) => {
            proof {
                chars@.index_of_first_ensures('\t');
            }
            assert(k < chars.len());
            let cmd = line.substring_char(0, k);
            assert(line@.subrange(0, k as int) =~= line@.take(k as int));
            if k + 1 == chars.len() {
                (cmd, None)
            } else {
                let dir = line.substring_char(k + 1, chars.len());
                assert(line@.subrange(k + 1, line@.len() as int) =~= line@.skip(k + 1));
                (cmd, Some(dir))
            }
        },
    }
}

/// The line a forwarding launch writes to the primary: the payload and a
/// line feed.
pub fn forward_line(directory: Option<&str>) -> (line: String)
    ensures
        line@ == message_of(opt_chars(directory)).push('\n'),
{
    let mut line = build_msg(directory);
    line.push('\n');
    line
}

/// The reply a primary sends for every request it accepts.
pub open spec fn ack_reply() -> Seq<char> {
    "ack"@
}

/// The line a primary writes back for every request it accepts, before it
/// acts on it, so that a forwarding launch knows it reached a primary.
pub fn ack_line() -> (line: String)
    ensures
        line@ == ack_reply().push('\n'),
{
    let mut line = String::from_str("ack");
    line.push('\n');
    line
}

/// Whether a reply line is the primary's acknowledgement.
pub fn is_ack(line: &str) -> (ack: bool)
    ensures
        ack == (line@ == ack_reply()),
{
    str_eq(line, "ack")
}

/// The directory a primary hands to its new window for a received line:
/// the path of the payload, whatever its command.
pub fn requested_directory(line: &str) -> (dir: Option<String>)
    ensures
        match dir {
            Some(d) => parse_message(line@).1 == Some(d@),
            None => parse_message(line@).1 is None,
        },
{
    let (_cmd, dir) = parse_msg(line);
    match dir {
        Some(d) => Some(d.to_owned()),
        None => None,
    }
}

// ---------------------------------------------------------------------------
// The endpoint

/// The endpoint's file name inside the per-user data directory: the port
/// file on Windows, the unix-domain socket elsewhere.
pub fn endpoint_file_name(windows: bool) -> (name: &'static str)
    ensures
        windows ==> name@ == "ipc.port"@,
        !windows ==> name@ == "ipc.sock"@,
{
    if windows {
        "ipc.port"
    } else {
        "ipc.sock"
    }
}

// ---------------------------------------------------------------------------
// The port file

/// `s` without one leading `+`.
pub open spec fn without_plus(s: Seq<char>) -> Seq<char> {
    if s.len() > 0 && s[0] == '+' {
        s.drop_first()
    } else {
        s
    }
}

/// Whether every character of `s` is an ASCII digit.
pub open spec fn all_digits(s: Seq<char>) -> bool {
    forall|i: int| 0 <= i < s.len() ==> is_digit(#[trigger] s[i])
}

/// `u16`'s `FromStr`: an optional `+`, then one or more ASCII digits whose
/// value fits in 16 bits.
pub open spec fn parse_u16_decimal(s: Seq<char>) -> Option<u16> {
    let body = without_plus(s);
    if body.len() > 0 && all_digits(body) && decimal_value(body) <= 0xFFFF {
        Some(decimal_value(body) as u16)
    } else {
        None
    }
}

/// The port that a port file holding `text` names: the trimmed text read as
/// a `u16`.
pub open spec fn port_of_text(text: Seq<char>) -> Option<u16> {
    parse_u16_decimal(trim(text))
}

/// The value of a prefix of a numeral is at most the value of the numeral.
proof fn lemma_decimal_prefix_le(s: Seq<char>, j: int)
    requires
        0 <= j <= s.len(),
    ensures
        decimal_value(s.take(j)) <= decimal_value(s),
    decreases s.len(),
{
    if j < s.len() {
        lemma_decimal_prefix_le(s.drop_last(), j);
        assert(s.drop_last().take(j) =~= s.take(j));
    } else {
        assert(s.take(j) =~= s);
    }
}

/// Reads the port that a port file's contents name.
pub fn parse_port(text: &str) -> (port: Option<u16>)
    ensures
        port == port_of_text(text@),
{
    let v = chars_of(text);
    let (a, b) = trimmed_bounds(&v);
    let ghost t = v@.subrange(a as int, b as int);
    let mut start = a;
    if start < b && v[start] == '+' {
        start = start + 1;
        assert(t.drop_first() =~= v@.subrange(start as int, b as int));
    }
    let ghost body = v@.subrange(start as int, b as int);
    assert(body == without_plus(t));
    if start == b {
        return None;
    }
    let mut value: u32 = 0;
    let mut k: usize = start;
    while k < b
        invariant
            start <= k <= b <= v.len(),
            body == v@.subrange(start as int, b as int),
            t == trim(text@),
            body == without_plus(t),
            value <= 0xFFFF,
            value == decimal_value(body.take(k - start)),
            forall|i: int| 0 <= i < k - start ==> is_digit(#[trigger] body[i]),
        decreases b - k,
    {
        let c = v[k];
        assert(c == body[k - start]);
        if !('0' <= c && c <= '9') {
            assert(!is_digit(body[k - start]));
            return None;
        }
        assert(body.take(k - start + 1).drop_last() =~= body.take(k - start));
        assert(body.take(k - start + 1).last() == c);
        assert(digit_value(c) == c as u32 - 48);
        value = value * 10 + (c as u32 - 48);
        assert(value == decimal_value(body.take(k - start + 1)));
        if value > 0xFFFF {
            proof {
                lemma_decimal_prefix_le(body, k - start + 1);
            }
            return None;
        }
        k = k + 1;
    }
    assert(body.take(k - start) =~= body);
    Some(value as u16)
}

/// The text a primary writes into the port file: the port in decimal.
pub fn port_text(port: u16) -> (text: String)
    ensures
        text@ == decimal_digits(port as nat),
{
    let mut text = String::new();
    push_decimal(&mut text, port as u32);
    assert(text@ =~= decimal_digits(port as nat));
    text
}

// ---------------------------------------------------------------------------
// Laws

/// A shortest numeral is made of digits, is not empty and has the value it
/// was made from.
proof fn lemma_decimal_digits(n: nat)
    ensures
        decimal_digits(n).len() > 0,
        forall|i: int|
            0 <= i < decimal_digits(n).len() ==> is_digit(#[trigger] decimal_digits(n)[i]),
        decimal_value(decimal_digits(n)) == n,
    decreases n,
{
    let d = digit_char(n % 10);
    assert(d as int == n % 10 + 48);
    assert(digit_value(d) == n % 10);
    if n >= 10 {
        lemma_decimal_digits(n / 10);
        let s = decimal_digits(n);
        assert(s.drop_last() =~= decimal_digits(n / 10));
        assert(s.last() == d);
        assert(n == (n / 10) * 10 + n % 10);
        assert(decimal_value(s) == decimal_value(s.drop_last()) * 10 + digit_value(s.last()));
    } else {
        assert(decimal_digits(n).drop_last() =~= Seq::<char>::empty());
        assert(decimal_value(Seq::<char>::empty()) == 0);
    }
}

/// Text without white space at either end is its own trim.
proof fn lemma_trim_unchanged(s: Seq<char>)
    requires
        s.len() > 0,
        !is_white_space(s[0]),
        !is_white_space(s.last()),
    ensures
        trim(s) == s,
{
}

/// What a primary writes into the port file reads back as the same port:
/// the race check that compares the file with the bound port succeeds
/// when nobody else wrote in between.
pub proof fn lemma_port_text_roundtrip(port: u16)
    ensures
        port_of_text(decimal_digits(port as nat)) == Some(port),
{
    let s = decimal_digits(port as nat);
    lemma_decimal_digits(port as nat);
    assert(is_digit(s[0]));
    assert(is_digit(s.last()));
    lemma_trim_unchanged(s);
}

/// The primary's acknowledgement, read back as one line without its line
/// feed, is exactly what a forwarding launch accepts.
pub proof fn lemma_ack_line_accepted(line: Seq<char>)
    requires
        line == ack_reply().push('\n'),
    ensures
        line.len() > 0,
        line.last() == '\n',
        line.drop_last() == ack_reply(),
{
    assert(line.drop_last() =~= ack_reply());
}

/// The primary reads back the directory that a forwarding launch asked
/// for: parsing a built payload gives the `new-window` command and the
/// directory, where an empty directory counts as none.
pub proof fn lemma_message_roundtrip(directory: Option<Seq<char>>)
    ensures
        parse_message(message_of(directory)) == (
            new_window_command(),
            match directory {
                Some(d) => if d.len() > 0 {
                    Some(d)
                } else {
                    None
                },
                None => None,
            },
        ),
{
    reveal_strlit("new-window");
    let m = message_of(directory);
    let w = new_window_command();
    assert(w.len() == 10);
    assert(m[10] == '\t');
    m.index_of_first_ensures('\t');
    assert(forall|j: int| 0 <= j < 10 ==> m[j] == w[j]);
    assert(forall|j: int| 0 <= j < 10 ==> m[j] != '\t');
    assert(m.take(10) =~= w);
    match directory {
        Some(d) => {
            assert(m.skip(11) =~= d);
        },
        None => {
            assert(m.len() == 11);
        },
    }
}

/// The request payload is the ten characters `new-window`, one tab, and
/// then the directory's characters exactly (none for a plain new window);
/// the acknowledgement is the three characters `ack`.
pub proof fn lemma_message_layout(directory: Option<Seq<char>>)
    ensures
        message_of(directory).take(10) == seq!['n', 'e', 'w', '-', 'w', 'i', 'n', 'd', 'o', 'w'],
        message_of(directory)[10] == '\t',
        message_of(directory).skip(11) == match directory {
            Some(d) => d,
            None => Seq::empty(),
        },
        ack_reply() == seq!['a', 'c', 'k'],
{
    reveal_strlit("new-window");
    reveal_strlit("ack");
    let m = message_of(directory);
    assert(m.take(10) =~= seq!['n', 'e', 'w', '-', 'w', 'i', 'n', 'd', 'o', 'w']);
    assert(m.skip(11) =~= match directory {
        Some(d) => d,
        None => Seq::empty(),
    });
    assert(ack_reply() =~= seq!['a', 'c', 'k']);
}

/// The port text is the usual decimal numeral: a single digit below ten,
/// and otherwise the numeral of `n / 10` followed by the digit of
/// `n % 10`; each digit `d` is the character `'0' + d`.
pub proof fn lemma_port_text_decimal(n: u16)
    ensures
        n < 10 ==> decimal_digits(n as nat) == seq![((n as int) + 48) as char],
        n >= 10 ==> decimal_digits(n as nat) == decimal_digits((n / 10) as nat).push(
            ((n % 10) as int + 48) as char,
        ),
{
}

/// A port file may hold the port with white space around it (such as a
/// trailing line feed), a leading `+` or leading zeros; anything that is
/// not a decimal number of at most 65535 names no port.
pub proof fn lemma_port_file_forms(port: u16, zeros: nat)
    ensures
        port_of_text(seq![' '] + decimal_digits(port as nat) + seq!['\r', '\n']) == Some(port),
        port_of_text(seq!['+'] + decimal_digits(port as nat)) == Some(port),
        port_of_text(Seq::new(zeros, |i: int| '0') + decimal_digits(port as nat)) == Some(port),
        port_of_text(seq!['-'] + decimal_digits(port as nat)) is None,
        port_of_text(decimal_digits(port as nat).push('x')) is None,
        port_of_text(decimal_digits(65536)) is None,
        port_of_text(Seq::empty()) is None,
{
    let d = decimal_digits(port as nat);
    lemma_decimal_digits(port as nat);
    let t1 = seq![' '] + d + seq!['\r', '\n'];
    assert(trim_start(t1) == trim_start(t1.drop_first()));
    assert(t1.drop_first() =~= d + seq!['\r', '\n']);
    assert(trim_start(d + seq!['\r', '\n']) == d + seq!['\r', '\n']);
    let u = d + seq!['\r', '\n'];
    assert(u.drop_last() =~= d + seq!['\r']);
    assert((d + seq!['\r']).drop_last() =~= d);
    assert(is_white_space('\n') && is_white_space('\r'));
    assert(u.last() == '\n');
    assert((d + seq!['\r']).last() == '\r');
    assert(is_digit(d.last()));
    assert(trim_end(d) == d);
    assert(trim_end(d + seq!['\r']) == trim_end(d));
    assert(trim_end(u) == trim_end(d + seq!['\r']));
    assert(trim(t1) == d);
    let t2 = seq!['+'] + d;
    assert(trim(t2) == t2);
    assert(t2.drop_first() =~= d);
    let z = Seq::new(zeros, |i: int| '0');
    let t3 = z + d;
    lemma_leading_zeros(z, d);
    assert(!is_white_space(t3[0]));
    assert(trim_start(t3) == t3);
    assert(trim_end(t3) == t3) by {
        assert(t3.last() == d.last());
    }
    assert(all_digits(t3)) by {
        assert forall|i: int| 0 <= i < t3.len() implies is_digit(#[trigger] t3[i]) by {
            if i >= zeros {
                assert(t3[i] == d[i - zeros]);
            }
        }
    }
    assert(!is_digit('-'));
    let t4 = seq!['-'] + d;
    assert(trim(t4) == t4) by {
        assert(t4.last() == d.last());
    }
    assert(!is_digit(t4[0]));
    let t5 = d.push('x');
    assert(trim_start(t5) == t5);
    assert(trim_end(t5) == t5);
    assert(!is_digit(t5[t5.len() - 1]));
    let big = decimal_digits(65536);
    lemma_decimal_digits(65536);
    assert(trim_start(big) == big);
    assert(trim_end(big) == big);
}

/// A string of zeros has value zero.
proof fn lemma_zeros_value(z: Seq<char>)
    requires
        forall|i: int| 0 <= i < z.len() ==> z[i] == '0',
    ensures
        decimal_value(z) == 0,
    decreases z.len(),
{
    if z.len() > 0 {
        lemma_zeros_value(z.drop_last());
    }
}

/// Leading zeros leave a numeral's value as it is.
proof fn lemma_leading_zeros(z: Seq<char>, d: Seq<char>)
    requires
        forall|i: int| 0 <= i < z.len() ==> z[i] == '0',
    ensures
        decimal_value(z + d) == decimal_value(d),
    decreases d.len(),
{
    if d.len() == 0 {
        assert(z + d =~= z);
        lemma_zeros_value(z);
    } else {
        lemma_leading_zeros(z, d.drop_last());
        assert((z + d).drop_last() =~= z + d.drop_last());
        assert((z + d).last() == d.last());
    }
}

} // verus!
