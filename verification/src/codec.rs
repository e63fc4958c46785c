//! The text of the config file: a JSON object with one property
//! `forwards` holding an object that maps each id to its record, pretty
//! printed, records in ascending id order. Writing and reading are both
//! defined here, and reading a written registry gives the registry back.

use vstd::prelude::*;
use crate::Error;
use crate::config::{Config, sorted_by_id, views_of, lemma_views_of};
use crate::forward::{PortForward, ForwardView, wf_forward, spec_id, make_id};
use crate::text::{
    all_digits, digits_val, digit_val, is_digit, spec_digits, push_digits, str_to_chars,
    chars_to_string, str_eq, str_lt, seq_lt, lemma_digits_roundtrip,
};

verus! {

// ---------------------------------------------------------------------------
// String escaping
// ---------------------------------------------------------------------------

/// The lowercase hex digit for a value below 16.
pub open spec fn hex_char(d: int) -> char {
    if d == 0 {
        '0'
    } else if d == 1 {
        '1'
    } else if d == 2 {
        '2'
    } else if d == 3 {
        '3'
    } else if d == 4 {
        '4'
    } else if d == 5 {
        '5'
    } else if d == 6 {
        '6'
    } else if d == 7 {
        '7'
    } else if d == 8 {
        '8'
    } else if d == 9 {
        '9'
    } else if d == 10 {
        'a'
    } else if d == 11 {
        'b'
    } else if d == 12 {
        'c'
    } else if d == 13 {
        'd'
    } else if d == 14 {
        'e'
    } else {
        'f'
    }
}

pub open spec fn is_hex_digit(c: char) -> bool {
    c == '0' || c == '1' || c == '2' || c == '3' || c == '4' || c == '5' || c == '6' || c == '7'
        || c == '8' || c == '9' || c == 'a' || c == 'b' || c == 'c' || c == 'd' || c == 'e'
        || c == 'f'
}

pub open spec fn hex_val(c: char) -> int {
    if c == '0' {
        0
    } else if c == '1' {
        1
    } else if c == '2' {
        2
    } else if c == '3' {
        3
    } else if c == '4' {
        4
    } else if c == '5' {
        5
    } else if c == '6' {
        6
    } else if c == '7' {
        7
    } else if c == '8' {
        8
    } else if c == '9' {
        9
    } else if c == 'a' {
        10
    } else if c == 'b' {
        11
    } else if c == 'c' {
        12
    } else if c == 'd' {
        13
    } else if c == 'e' {
        14
    } else {
        15
    }
}

/// How one character is written inside a JSON string: quote and
/// backslash take a backslash escape, a control character a `\u00XX`
/// escape in lowercase hex, everything else stands as itself.
pub open spec fn esc_char(c: char) -> Seq<char> {
    if c == '"' || c == '\\' {
        seq!['\\', c]
    } else if (c as u32) < 32 {
        seq!['\\', 'u', '0', '0', hex_char((c as u32) as int / 16), hex_char((c as u32) as int % 16)]
    } else {
        seq![c]
    }
}

/// A text with its quotes and backslashes escaped.
pub open spec fn esc(s: Seq<char>) -> Seq<char>
    decreases s.len(),
{
    if s.len() == 0 {
        Seq::empty()
    } else {
        esc_char(s[0]) + esc(s.drop_first())
    }
}

pub proof fn lemma_esc_append(a: Seq<char>, b: Seq<char>)
    ensures
        esc(a + b) == esc(a) + esc(b),
    decreases a.len(),
{
    if a.len() == 0 {
        assert(a + b =~= b);
        assert(esc(a) + esc(b) =~= esc(b));
    } else {
        lemma_esc_append(a.drop_first(), b);
        assert((a + b).drop_first() =~= a.drop_first() + b);
        assert(esc_char((a + b)[0]) + (esc(a.drop_first()) + esc(b)) =~= (esc_char(a[0]) + esc(
            a.drop_first(),
        )) + esc(b));
    }
}

/// A string body with its closing quote, as the reader consumes it.
pub open spec fn qstr(s: Seq<char>) -> Seq<char> {
    esc(s) + seq!['"']
}

// ---------------------------------------------------------------------------
// The canonical text
// ---------------------------------------------------------------------------

/// A pid field: the number, or `null` when none is recorded.
pub open spec fn enc_pid(p: Option<u32>) -> Seq<char> {
    match p {
        None => "null"@,
        Some(v) => spec_digits(v as int),
    }
}

/// One record entry of the `forwards` object.
pub open spec fn enc_record(f: ForwardView) -> Seq<char> {
    "    \""@ + qstr(f.id) + ": {\n      \"id\": \""@ + qstr(f.id) + ",\n      \"host\": \""@
        + qstr(f.host) + ",\n      \"local_port\": "@ + spec_digits(f.local_port as int)
        + ",\n      \"remote_port\": "@ + spec_digits(f.remote_port as int) + ",\n      \"pid\": "@
        + enc_pid(f.pid) + "\n    }"@
}

/// The record entries, separated by `,` and a line break.
pub open spec fn enc_records(s: Seq<ForwardView>) -> Seq<char>
    decreases s.len(),
{
    if s.len() == 0 {
        Seq::empty()
    } else if s.len() == 1 {
        enc_record(s[0])
    } else {
        enc_record(s[0]) + ",\n"@ + enc_records(s.drop_first())
    }
}

/// The whole config file for a registry.
pub open spec fn enc_config(s: Seq<ForwardView>) -> Seq<char> {
    if s.len() == 0 {
        "{\n  \"forwards\": {}\n}"@
    } else {
        "{\n  \"forwards\": {\n"@ + enc_records(s) + "\n  }\n}"@
    }
}

pub proof fn lemma_enc_records_split(s: Seq<ForwardView>, i: int)
    requires
        0 < i < s.len(),
    ensures
        enc_records(s) == enc_records(s.take(i)) + ",\n"@ + enc_records(s.skip(i)),
    decreases i,
{
    if i == 1 {
        assert(s.take(1) =~= seq![s[0]]);
        assert(enc_records(s.take(1)) == enc_record(s[0]));
        assert(s.skip(1) =~= s.drop_first());
        assert(s.len() > 1);
    } else {
        lemma_enc_records_split(s.drop_first(), i - 1);
        assert(s.drop_first().take(i - 1) =~= s.take(i).drop_first());
        assert(s.drop_first().skip(i - 1) =~= s.skip(i));
        assert(s.take(i)[0] == s[0]);
        assert(s.take(i).len() == i >= 2);
        assert(enc_records(s.take(i)) == enc_record(s[0]) + ",\n"@ + enc_records(
            s.take(i).drop_first(),
        ));
        assert(enc_record(s[0]) + ",\n"@ + (enc_records(s.drop_first().take(i - 1)) + ",\n"@
            + enc_records(s.drop_first().skip(i - 1))) =~= (enc_record(s[0]) + ",\n"@
            + enc_records(s.drop_first().take(i - 1))) + ",\n"@ + enc_records(
            s.drop_first().skip(i - 1),
        ));
    }
}

// ---------------------------------------------------------------------------
// Writing
// ---------------------------------------------------------------------------

/// Appends the characters of `s` to `out`.
fn push_str_chars(out: &mut Vec<char>, s: &str)
    ensures
        final(out)@ == old(out)@ + s@,
{
    let n = s.unicode_len();
    let mut i: usize = 0;
    while i < n
        invariant
            n == s@.len(),
            i <= n,
            out@ == old(out)@ + s@.take(i as int),
        decreases n - i,
    {
        out.push(s.get_char(i));
        i = i + 1;
        assert(out@ =~= old(out)@ + s@.take(i as int));
    }
    assert(out@ =~= old(out)@ + s@);
}

fn hex_char_exec(d: u32) -> (c: char)
    requires
        d < 16,
    ensures
        c == hex_char(d as int),
{
    if d == 0 {
        '0'
    } else if d == 1 {
        '1'
    } else if d == 2 {
        '2'
    } else if d == 3 {
        '3'
    } else if d == 4 {
        '4'
    } else if d == 5 {
        '5'
    } else if d == 6 {
        '6'
    } else if d == 7 {
        '7'
    } else if d == 8 {
        '8'
    } else if d == 9 {
        '9'
    } else if d == 10 {
        'a'
    } else if d == 11 {
        'b'
    } else if d == 12 {
        'c'
    } else if d == 13 {
        'd'
    } else if d == 14 {
        'e'
    } else {
        'f'
    }
}

fn hex_val_exec(c: char) -> (r: Option<u32>)
    ensures
        match r {
            Some(d) => is_hex_digit(c) && d == hex_val(c) && d < 16,
            None => !is_hex_digit(c),
        },
{
    if c == '0' {
        Some(0)
    } else if c == '1' {
        Some(1)
    } else if c == '2' {
        Some(2)
    } else if c == '3' {
        Some(3)
    } else if c == '4' {
        Some(4)
    } else if c == '5' {
        Some(5)
    } else if c == '6' {
        Some(6)
    } else if c == '7' {
        Some(7)
    } else if c == '8' {
        Some(8)
    } else if c == '9' {
        Some(9)
    } else if c == 'a' {
        Some(10)
    } else if c == 'b' {
        Some(11)
    } else if c == 'c' {
        Some(12)
    } else if c == 'd' {
        Some(13)
    } else if c == 'e' {
        Some(14)
    } else if c == 'f' {
        Some(15)
    } else {
        None
    }
}

/// Appends `s` in its escaped form, with the closing quote.
fn push_qstr(out: &mut Vec<char>, s: &str)
    ensures
        final(out)@ == old(out)@ + qstr(s@),
{
    let v = str_to_chars(s);
    let n = v.len();
    let mut i: usize = 0;
    proof {
        assert(esc(s@.take(0)) =~= Seq::<char>::empty());
        assert(out@ =~= out@ + esc(s@.take(0)));
    }
    while i < n
        invariant
            n == v@.len(),
            v@ == s@,
            i <= n,
            out@ == old(out)@ + esc(s@.take(i as int)),
        decreases n - i,
    {
        let c = v[i];
        if c == '"' || c == '\\' {
            out.push('\\');
            out.push(c);
        } else if (c as u32) < 32 {
            out.push('\\');
            out.push('u');
            out.push('0');
            out.push('0');
            out.push(hex_char_exec((c as u32) / 16));
            out.push(hex_char_exec((c as u32) % 16));
        } else {
            out.push(c);
        }
        proof {
            lemma_esc_append(s@.take(i as int), seq![s@[i as int]]);
            assert(s@.take(i as int + 1) =~= s@.take(i as int) + seq![s@[i as int]]);
            assert(seq![s@[i as int]].drop_first() =~= Seq::<char>::empty());
            assert(esc(seq![s@[i as int]]) == esc_char(s@[i as int]) + esc(Seq::<char>::empty()));
            assert(esc(seq![s@[i as int]]) =~= esc_char(s@[i as int]));
            assert(out@ =~= old(out)@ + esc(s@.take(i as int + 1)));
        }
        i = i + 1;
    }
    assert(s@.take(i as int) =~= s@);
    out.push('"');
    assert(out@ =~= old(out)@ + qstr(s@));
}

/// Appends a pid field.
fn push_pid(out: &mut Vec<char>, p: Option<u32>)
    ensures
        final(out)@ == old(out)@ + enc_pid(p),
{
    match p {
        None => push_str_chars(out, "null"),
        Some(v) => push_digits(v as u64, out),
    }
}

/// Appends one record entry.
fn push_record(out: &mut Vec<char>, f: &PortForward)
    ensures
        final(out)@ == old(out)@ + enc_record(f@),
{
    push_str_chars(out, "    \"");
    push_qstr(out, f.id.as_str());
    push_str_chars(out, ": {\n      \"id\": \"");
    push_qstr(out, f.id.as_str());
    push_str_chars(out, ",\n      \"host\": \"");
    push_qstr(out, f.host.as_str());
    push_str_chars(out, ",\n      \"local_port\": ");
    push_digits(f.local_port as u64, out);
    push_str_chars(out, ",\n      \"remote_port\": ");
    push_digits(f.remote_port as u64, out);
    push_str_chars(out, ",\n      \"pid\": ");
    push_pid(out, f.pid);
    push_str_chars(out, "\n    }");
    assert(out@ =~= old(out)@ + enc_record(f@));
}

impl Config {
    /// The registry as config-file text.
    pub fn to_json(&self) -> (r: String)
        ensures
            r@ == enc_config(self@),
    {
        let mut out: Vec<char> = Vec::new();
        let n = self.forwards.len();
        proof {
            lemma_views_of(self.forwards@);
        }
        if n == 0 {
            push_str_chars(&mut out, "{\n  \"forwards\": {}\n}");
            assert(out@ =~= enc_config(self@));
            return chars_to_string(&out);
        }
        push_str_chars(&mut out, "{\n  \"forwards\": {\n");
        let ghost head = out@;
        let mut i: usize = 0;
        while i < n
            invariant
                n == self.forwards@.len(),
                n == self@.len(),
                n > 0,
                i <= n,
                head == "{\n  \"forwards\": {\n"@,
                i == 0 ==> out@ == head,
                i > 0 ==> out@ == head + enc_records(self@.take(i as int)),
            decreases n - i,
        {
            if i > 0 {
                push_str_chars(&mut out, ",\n");
            }
            push_record(&mut out, &self.forwards[i]);
            proof {
                lemma_views_of(self.forwards@);
                assert(self.forwards@[i as int]@ == self@[i as int]);
                if i == 0 {
                    assert(self@.take(1) =~= seq![self@[0]]);
                    assert(enc_records(self@.take(1)) == enc_record(self@[0]));
                    assert(out@ =~= head + enc_records(self@.take(1)));
                } else {
                    lemma_enc_records_split(self@.take(i as int + 1), i as int);
                    assert(self@.take(i as int + 1).take(i as int) =~= self@.take(i as int));
                    assert(self@.take(i as int + 1).skip(i as int) =~= seq![self@[i as int]]);
                    assert(enc_records(seq![self@[i as int]]) == enc_record(self@[i as int]));
                    assert(out@ =~= head + enc_records(self@.take(i as int + 1)));
                }
            }
            i = i + 1;
        }
        push_str_chars(&mut out, "\n  }\n}");
        proof {
            assert(self@.take(n as int) =~= self@);
            assert(out@ =~= enc_config(self@));
        }
        chars_to_string(&out)
    }
}

// ---------------------------------------------------------------------------
// Reading: the grammar
// ---------------------------------------------------------------------------

/// Consumes the exact literal `lit` at `i`.
pub open spec fn p_lit(s: Seq<char>, i: int, lit: Seq<char>) -> Option<int> {
    if 0 <= i && i + lit.len() <= s.len() && s.subrange(i, i + lit.len()) == lit {
        Some(i + lit.len())
    } else {
        None
    }
}

/// Consumes an escaped string body up to and including its closing
/// quote, yielding the unescaped text.
pub open spec fn p_str(s: Seq<char>, i: int) -> Option<(Seq<char>, int)>
    decreases s.len() - i,
{
    if !(0 <= i < s.len()) {
        None
    } else if s[i] == '"' {
        Some((Seq::empty(), i + 1))
    } else if s[i] == '\\' {
        if i + 1 < s.len() && (s[i + 1] == '"' || s[i + 1] == '\\') {
            match p_str(s, i + 2) {
                Some((t, j)) => Some((seq![s[i + 1]] + t, j)),
                None => None,
            }
        } else if i + 5 < s.len() && s[i + 1] == 'u' && s[i + 2] == '0' && s[i + 3] == '0'
            && is_hex_digit(s[i + 4]) && is_hex_digit(s[i + 5]) && hex_val(s[i + 4]) * 16 + hex_val(
            s[i + 5],
        ) < 32 {
            match p_str(s, i + 6) {
                Some((t, j)) => Some(
                    (seq![((hex_val(s[i + 4]) * 16 + hex_val(s[i + 5])) as u8) as char] + t, j),
                ),
                None => None,
            }
        } else {
            None
        }
    } else {
        match p_str(s, i + 1) {
            Some((t, j)) => Some((seq![s[i]] + t, j)),
            None => None,
        }
    }
}

/// The end of the run of digits starting at `i`.
pub open spec fn digit_run(s: Seq<char>, i: int) -> int
    decreases s.len() - i,
{
    if 0 <= i < s.len() && is_digit(s[i]) {
        digit_run(s, i + 1)
    } else {
        i
    }
}

/// Consumes a non-empty run of digits as a number.
pub open spec fn p_num(s: Seq<char>, i: int) -> Option<(int, int)> {
    if 0 <= i && digit_run(s, i) > i {
        Some((digits_val(s.subrange(i, digit_run(s, i))), digit_run(s, i)))
    } else {
        None
    }
}

/// Consumes a pid field: `null` or a number that fits a pid.
pub open spec fn p_pid(s: Seq<char>, i: int) -> Option<(Option<u32>, int)> {
    match p_lit(s, i, "null"@) {
        Some(j) => Some((None, j)),
        None => match p_num(s, i) {
            Some((v, j)) => if v <= u32::MAX {
                Some((Some(v as u32), j))
            } else {
                None
            },
            None => None,
        },
    }
}

/// Consumes one record entry. The key must agree with the record's own
/// id, the id must obey the identity rule, and the ports must lie in
/// [1, 65535].
pub open spec fn p_record(s: Seq<char>, i: int) -> Option<(ForwardView, int)> {
    match p_lit(s, i, "    \""@) {
        None => None,
        Some(i1) => match p_str(s, i1) {
            None => None,
            Some((key, i2)) => match p_lit(s, i2, ": {\n      \"id\": \""@) {
                None => None,
                Some(i3) => match p_str(s, i3) {
                    None => None,
                    Some((idf, i4)) => match p_lit(s, i4, ",\n      \"host\": \""@) {
                        None => None,
                        Some(i5) => match p_str(s, i5) {
                            None => None,
                            Some((host, i6)) => match p_lit(s, i6, ",\n      \"local_port\": "@) {
                                None => None,
                                Some(i7) => match p_num(s, i7) {
                                    None => None,
                                    Some((lp, i8)) => match p_lit(
                                        s,
                                        i8,
                                        ",\n      \"remote_port\": "@,
                                    ) {
                                        None => None,
                                        Some(i9) => match p_num(s, i9) {
                                            None => None,
                                            Some((rp, i10)) => match p_lit(
                                                s,
                                                i10,
                                                ",\n      \"pid\": "@,
                                            ) {
                                                None => None,
                                                Some(i11) => match p_pid(s, i11) {
                                                    None => None,
                                                    Some((pid, i12)) => match p_lit(
                                                        s,
                                                        i12,
                                                        "\n    }"@,
                                                    ) {
                                                        None => None,
                                                        Some(i13) => if key == idf && 1 <= lp
                                                            <= 65535 && 1 <= rp <= 65535 && idf
                                                            == spec_id(
                                                            host,
                                                            lp as u16,
                                                            rp as u16,
                                                        ) {
                                                            Some(
                                                                (
                                                                    ForwardView {
                                                                        id: idf,
                                                                        host: host,
                                                                        local_port: lp as u16,
                                                                        remote_port: rp as u16,
                                                                        pid: pid,
                                                                    },
                                                                    i13,
                                                                ),
                                                            )
                                                        } else {
                                                            None
                                                        },
                                                    },
                                                },
                                            },
                                        },
                                    },
                                },
                            },
                        },
                    },
                },
            },
        },
    }
}

/// Consumes one or more record entries separated by `,` and a line
/// break.
pub open spec fn p_records(s: Seq<char>, i: int) -> Option<(Seq<ForwardView>, int)>
    decreases s.len() - i,
{
    match p_record(s, i) {
        None => None,
        Some((f, j)) => if !(i < j <= s.len()) {
            None
        } else {
            match p_lit(s, j, ",\n"@) {
                Some(j2) => match p_records(s, j2) {
                    Some((fs, k)) => Some((seq![f] + fs, k)),
                    None => None,
                },
                None => Some((seq![f], j)),
            }
        },
    }
}

/// Reads a whole config file: the one-property object, its records in
/// strictly ascending id order.
pub open spec fn spec_parse_config(s: Seq<char>) -> Option<Seq<ForwardView>> {
    match p_lit(s, 0, "{\n  \"forwards\": {"@) {
        None => None,
        Some(h) => if p_lit(s, h, "}\n}"@) == Some(s.len() as int) {
            Some(Seq::empty())
        } else {
            match p_lit(s, h, "\n"@) {
                None => None,
                Some(h1) => match p_records(s, h1) {
                    None => None,
                    Some((fs, j)) => if p_lit(s, j, "\n  }\n}"@) == Some(s.len() as int)
                        && sorted_by_id(fs) {
                        Some(fs)
                    } else {
                        None
                    },
                },
            }
        },
    }
}

// ---------------------------------------------------------------------------
// Reading: the implementation
// ---------------------------------------------------------------------------

/// Consumes the literal `lit` at `i`.
#[verifier::loop_isolation(false)]
fn expect_lit(v: &Vec<char>, i: usize, lit: &str) -> (r: Option<usize>)
    ensures
        match r {
            Some(j) => p_lit(v@, i as int, lit@) == Some(j as int) && i <= j <= v@.len(),
            None => p_lit(v@, i as int, lit@) is None,
        },
{
    let m = lit.unicode_len();
    if i > v.len() || m > v.len() - i {
        return None;
    }
    let mut k: usize = 0;
    while k < m
        invariant
            k <= m,
            forall|q: int| 0 <= q < k ==> v@[i + q] == lit@[q],
        decreases m - k,
    {
        if v[i + k] != lit.get_char(k) {
            proof {
                if 0 <= i as int && i + m <= v@.len() && v@.subrange(i as int, i as int + m as int)
                    == lit@ {
                    assert(v@.subrange(i as int, i as int + m as int)[k as int] == v@[i as int
                        + k as int]);
                }
            }
            return None;
        }
        k = k + 1;
    }
    proof {
        assert(v@.subrange(i as int, i as int + m as int) =~= lit@);
    }
    Some(i + m)
}

/// Consumes an escaped string body through its closing quote.
#[verifier::loop_isolation(false)]
fn parse_str(v: &Vec<char>, i: usize) -> (r: Option<(String, usize)>)
    requires
        i <= v@.len(),
    ensures
        match r {
            Some((t, j)) => p_str(v@, i as int) == Some((t@, j as int)) && i < j <= v@.len(),
            None => p_str(v@, i as int) is None,
        },
{
    let mut out: Vec<char> = Vec::new();
    let mut j: usize = i;
    loop
        invariant
            i <= j <= v@.len(),
            match p_str(v@, j as int) {
                Some((t, k)) => p_str(v@, i as int) == Some((out@ + t, k)),
                None => p_str(v@, i as int) is None,
            },
        decreases v@.len() - j,
    {
        if j >= v.len() {
            return None;
        }
        let c = v[j];
        if c == '"' {
            proof {
                assert(out@ + Seq::<char>::empty() =~= out@);
            }
            return Some((chars_to_string(&out), j + 1));
        } else if c == '\\' {
            if j + 1 >= v.len() {
                return None;
            }
            let c2 = v[j + 1];
            if c2 == '"' || c2 == '\\' {
                let ghost prev = out@;
                out.push(c2);
                proof {
                    if p_str(v@, j as int + 2) is Some {
                        let (t, k) = p_str(v@, j as int + 2)->Some_0;
                        assert(out@ + t =~= prev + (seq![v@[j as int + 1]] + t));
                    }
                }
                j = j + 2;
            } else if c2 == 'u' {
                if v.len() - j <= 5 {
                    return None;
                }
                if v[j + 2] != '0' || v[j + 3] != '0' {
                    return None;
                }
                let h1 = match hex_val_exec(v[j + 4]) {
                    Some(x) => x,
                    None => {
                        return None;
                    },
                };
                let h2 = match hex_val_exec(v[j + 5]) {
                    Some(x) => x,
                    None => {
                        return None;
                    },
                };
                let val = h1 * 16 + h2;
                if val >= 32 {
                    return None;
                }
                let ch = (val as u8) as char;
                let ghost prev = out@;
                out.push(ch);
                proof {
                    assert(ch == ((hex_val(v@[j as int + 4]) * 16 + hex_val(v@[j as int + 5]))
                        as u8) as char);
                    if p_str(v@, j as int + 6) is Some {
                        let (t, k) = p_str(v@, j as int + 6)->Some_0;
                        assert(out@ + t =~= prev + (seq![ch] + t));
                    }
                }
                j = j + 6;
            } else {
                return None;
            }
        } else {
            let ghost prev = out@;
            out.push(c);
            proof {
                if p_str(v@, j as int + 1) is Some {
                    let (t, k) = p_str(v@, j as int + 1)->Some_0;
                    assert(out@ + t =~= prev + (seq![v@[j as int]] + t));
                }
            }
            j = j + 1;
        }
    }
}

/// Consumes a run of digits as a number; a value too large for a pid
/// reports nothing.
#[verifier::loop_isolation(false)]
fn parse_num(v: &Vec<char>, i: usize) -> (r: Option<(u32, usize)>)
    requires
        i <= v@.len(),
    ensures
        match r {
            Some((n, j)) => p_num(v@, i as int) == Some((n as int, j as int)) && i < j <= v@.len(),
            None => match p_num(v@, i as int) {
                Some((n, j)) => n > u32::MAX,
                None => true,
            },
        },
{
    if i >= v.len() {
        return None;
    }
    let c0 = v[i];
    if !(c0 == '0' || c0 == '1' || c0 == '2' || c0 == '3' || c0 == '4' || c0 == '5' || c0 == '6'
        || c0 == '7' || c0 == '8' || c0 == '9') {
        assert(!is_digit(v@[i as int]));
        return None;
    }
    let mut j: usize = i;
    let mut val: u32 = 0;
    let mut over: bool = false;
    while j < v.len() && (v[j] == '0' || v[j] == '1' || v[j] == '2' || v[j] == '3' || v[j] == '4'
        || v[j] == '5' || v[j] == '6' || v[j] == '7' || v[j] == '8' || v[j] == '9')
        invariant
            i <= j <= v@.len(),
            forall|k: int| i <= k < j ==> is_digit(#[trigger] v@[k]),
            !over ==> val == digits_val(v@.subrange(i as int, j as int)),
            over ==> digits_val(v@.subrange(i as int, j as int)) > u32::MAX,
        decreases v@.len() - j,
    {
        let c = v[j];
        let dv: u32 = if c == '0' {
            0
        } else if c == '1' {
            1
        } else if c == '2' {
            2
        } else if c == '3' {
            3
        } else if c == '4' {
            4
        } else if c == '5' {
            5
        } else if c == '6' {
            6
        } else if c == '7' {
            7
        } else if c == '8' {
            8
        } else {
            9
        };
        proof {
            assert(v@.subrange(i as int, j as int + 1).drop_last() =~= v@.subrange(
                i as int,
                j as int,
            ));
            assert(v@.subrange(i as int, j as int + 1).last() == v@[j as int]);
            assert(digit_val(v@[j as int]) == dv);
        }
        if over {
            // the digits already exceed a pid; keep scanning for the end
        } else if val > (u32::MAX - dv) / 10 {
            proof {
                let m = u32::MAX as int;
                assert((m - dv) == 10 * ((m - dv) / 10) + (m - dv) % 10);
                assert(val * 10 + dv > m);
            }
            over = true;
        } else {
            proof {
                let m = u32::MAX as int;
                assert((m - dv) == 10 * ((m - dv) / 10) + (m - dv) % 10);
                assert(val * 10 + dv <= m);
            }
            val = val * 10 + dv;
        }
        j = j + 1;
    }
    proof {
        lemma_digit_run_end(v@, i as int, j as int);
    }
    if over {
        None
    } else {
        Some((val, j))
    }
}

/// Consumes a pid field: `null` or a pid number.
fn parse_pid(v: &Vec<char>, i: usize) -> (r: Option<(Option<u32>, usize)>)
    requires
        i <= v@.len(),
    ensures
        match r {
            Some((p, j)) => p_pid(v@, i as int) == Some((p, j as int)) && i < j <= v@.len(),
            None => p_pid(v@, i as int) is None,
        },
{
    match expect_lit(v, i, "null") {
        Some(j) => {
            proof {
                reveal_strlit("null");
            }
            Some((None, j))
        },
        None => match parse_num(v, i) {
            Some((n, j)) => Some((Some(n), j)),
            None => None,
        },
    }
}

/// Consumes one record entry and checks its identity rule.
fn parse_record(v: &Vec<char>, i: usize) -> (r: Option<(PortForward, usize)>)
    requires
        i <= v@.len(),
    ensures
        match r {
            Some((f, j)) => p_record(v@, i as int) == Some((f@, j as int)) && wf_forward(f@) && i
                < j <= v@.len(),
            None => p_record(v@, i as int) is None,
        },
{
    let i1 = match expect_lit(v, i, "    \"") {
        Some(x) => x,
        None => {
            return None;
        },
    };
    let (key, i2) = match parse_str(v, i1) {
        Some(x) => x,
        None => {
            return None;
        },
    };
    let i3 = match expect_lit(v, i2, ": {\n      \"id\": \"") {
        Some(x) => x,
        None => {
            return None;
        },
    };
    let (idf, i4) = match parse_str(v, i3) {
        Some(x) => x,
        None => {
            return None;
        },
    };
    let i5 = match expect_lit(v, i4, ",\n      \"host\": \"") {
        Some(x) => x,
        None => {
            return None;
        },
    };
    let (host, i6) = match parse_str(v, i5) {
        Some(x) => x,
        None => {
            return None;
        },
    };
    let i7 = match expect_lit(v, i6, ",\n      \"local_port\": ") {
        Some(x) => x,
        None => {
            return None;
        },
    };
    let (lp, i8) = match parse_num(v, i7) {
        Some(x) => x,
        None => {
            return None;
        },
    };
    if lp == 0 || lp > 65535 {
        return None;
    }
    let i9 = match expect_lit(v, i8, ",\n      \"remote_port\": ") {
        Some(x) => x,
        None => {
            return None;
        },
    };
    let (rp, i10) = match parse_num(v, i9) {
        Some(x) => x,
        None => {
            return None;
        },
    };
    if rp == 0 || rp > 65535 {
        return None;
    }
    let i11 = match expect_lit(v, i10, ",\n      \"pid\": ") {
        Some(x) => x,
        None => {
            return None;
        },
    };
    let (pid, i12) = match parse_pid(v, i11) {
        Some(x) => x,
        None => {
            return None;
        },
    };
    let i13 = match expect_lit(v, i12, "\n    }") {
        Some(x) => x,
        None => {
            return None;
        },
    };
    if !str_eq(key.as_str(), idf.as_str()) {
        return None;
    }
    let want = make_id(host.as_str(), lp as u16, rp as u16);
    if !str_eq(idf.as_str(), want.as_str()) {
        return None;
    }
    let f = PortForward {
        id: idf,
        host: host,
        local_port: lp as u16,
        remote_port: rp as u16,
        pid: pid,
    };
    Some((f, i13))
}

/// Consumes one or more record entries separated by `,` and a line
/// break.
fn parse_records(v: &Vec<char>, i: usize) -> (r: Option<(Vec<PortForward>, usize)>)
    requires
        i <= v@.len(),
    ensures
        match r {
            Some((fs, j)) => p_records(v@, i as int) == Some((views_of(fs@), j as int)) && i < j
                <= v@.len() && fs@.len() >= 1 && forall|a: int|
                0 <= a < fs@.len() ==> wf_forward((#[trigger] fs@[a])@),
            None => p_records(v@, i as int) is None,
        },
    decreases v@.len() - i,
{
    let (f, j) = match parse_record(v, i) {
        Some(x) => x,
        None => {
            return None;
        },
    };
    match expect_lit(v, j, ",\n") {
        Some(j2) => {
            proof {
                reveal_strlit(",\n");
                assert(j2 > j);
            }
            match parse_records(v, j2) {
                Some((fs_rest, k)) => {
                    let ghost prev = fs_rest@;
                    let mut fs = fs_rest;
                    fs.insert(0, f);
                    proof {
                        lemma_views_of(fs@);
                        lemma_views_of(prev);
                        assert(fs@ =~= seq![f] + prev);
                        assert(views_of(fs@) =~= seq![f@] + views_of(prev));
                    }
                    Some((fs, k))
                },
                None => None,
            }
        },
        None => {
            let mut fs: Vec<PortForward> = Vec::new();
            fs.push(f);
            proof {
                lemma_views_of(fs@);
                assert(views_of(fs@) =~= seq![f@]);
            }
            Some((fs, j))
        },
    }
}

proof fn lemma_chain_lt(s: Seq<ForwardView>, i: int, j: int)
    requires
        forall|k: int| 0 <= k < s.len() - 1 ==> seq_lt((#[trigger] s[k]).id, s[k + 1].id),
        0 <= i < j < s.len(),
    ensures
        seq_lt(s[i].id, s[j].id),
    decreases j - i,
{
    if j == i + 1 {
    } else {
        lemma_chain_lt(s, i, j - 1);
        crate::text::lemma_seq_lt_trans(s[i].id, s[j - 1].id, s[j].id);
    }
}

impl Config {
    /// Reads a registry back from config-file text; text that is not
    /// the written form of a registry is unreadable.
    #[verifier::loop_isolation(false)]
    pub fn from_json(s: &str) -> (r: Result<Config, Error>)
        ensures
            match r {
                Ok(c) => c.wf() && spec_parse_config(s@) == Some(c@),
                Err(e) => spec_parse_config(s@) is None && e == Error::ConfigUnreadable,
            },
    {
        let v = str_to_chars(s);
        let h = match expect_lit(&v, 0, "{\n  \"forwards\": {") {
            Some(x) => x,
            None => {
                return Err(Error::ConfigUnreadable);
            },
        };
        match expect_lit(&v, h, "}\n}") {
            Some(j) => {
                if j == v.len() {
                    let c = Config::new();
                    return Ok(c);
                }
                proof {
                    reveal_strlit("}\n}");
                    reveal_strlit("\n");
                    assert(v@.subrange(h as int, h as int + 3)[0] == v@[h as int]);
                    assert(v@[h as int] == '}');
                    if 0 <= h as int && h as int + 1 <= v@.len() && v@.subrange(
                        h as int,
                        h as int + 1,
                    ) == "\n"@ {
                        assert(v@.subrange(h as int, h as int + 1)[0] == v@[h as int]);
                        assert(false);
                    }
                    assert(p_lit(v@, h as int, "\n"@) is None);
                }
                return Err(Error::ConfigUnreadable);
            },
            None => {},
        }
        let h1 = match expect_lit(&v, h, "\n") {
            Some(x) => x,
            None => {
                return Err(Error::ConfigUnreadable);
            },
        };
        let (fs, j) = match parse_records(&v, h1) {
            Some(x) => x,
            None => {
                return Err(Error::ConfigUnreadable);
            },
        };
        let t = match expect_lit(&v, j, "\n  }\n}") {
            Some(x) => x,
            None => {
                return Err(Error::ConfigUnreadable);
            },
        };
        if t != v.len() {
            return Err(Error::ConfigUnreadable);
        }
        let n = fs.len();
        let mut k: usize = 1;
        proof {
            lemma_views_of(fs@);
        }
        while k < n
            invariant
                1 <= k <= n,
                n == fs@.len(),
                n == views_of(fs@).len(),
                forall|a: int|
                    0 <= a < k - 1 ==> seq_lt(
                        (#[trigger] views_of(fs@)[a]).id,
                        views_of(fs@)[a + 1].id,
                    ),
                forall|a: int| 0 <= a < fs@.len() ==> #[trigger] views_of(fs@)[a] == fs@[a]@,
            decreases n - k,
        {
            if !str_lt(fs[k - 1].id.as_str(), fs[k].id.as_str()) {
                proof {
                    assert(!seq_lt(views_of(fs@)[k - 1].id, views_of(fs@)[k as int].id));
                    assert(!sorted_by_id(views_of(fs@)));
                }
                return Err(Error::ConfigUnreadable);
            }
            k = k + 1;
        }
        proof {
            let m = views_of(fs@);
            assert forall|a: int, b: int| 0 <= a < b < m.len() implies seq_lt(
                (#[trigger] m[a]).id,
                (#[trigger] m[b]).id,
            ) by {
                lemma_chain_lt(m, a, b);
            }
            assert(sorted_by_id(m));
        }
        let c = Config { forwards: fs };
        Ok(c)
    }
}

// ---------------------------------------------------------------------------
// Reading back what was written
// ---------------------------------------------------------------------------

proof fn lemma_ctl_char_cast(c: char)
    requires
        (c as u32) < 32,
    ensures
        (((c as u32) as u8) as char) == c,
{
}

proof fn lemma_sub_of_sub(s: Seq<char>, i: int, r: Seq<char>, a: int, b: int)
    requires
        0 <= i,
        i + r.len() <= s.len(),
        s.subrange(i, i + r.len()) == r,
        0 <= a <= b <= r.len(),
    ensures
        s.subrange(i + a, i + b) == r.subrange(a, b),
{
    assert forall|k: int| 0 <= k < b - a implies s.subrange(i + a, i + b)[k] == r.subrange(a, b)[k]
        by {
        assert(s.subrange(i, i + r.len())[a + k] == s[i + a + k]);
    }
    assert(s.subrange(i + a, i + b) =~= r.subrange(a, b));
}

proof fn lemma_p_str_rt(s: Seq<char>, i: int, t: Seq<char>)
    requires
        0 <= i,
        i + qstr(t).len() <= s.len(),
        s.subrange(i, i + qstr(t).len()) == qstr(t),
    ensures
        p_str(s, i) == Some((t, i + qstr(t).len())),
    decreases t.len(),
{
    let q = qstr(t);
    assert(q[0] == s.subrange(i, i + q.len())[0]);
    if t.len() == 0 {
        assert(esc(t) == Seq::<char>::empty());
        assert(q =~= seq!['"']);
        assert(s[i] == '"');
    } else {
        let c = t[0];
        let t2 = t.drop_first();
        assert(esc(t) == esc_char(c) + esc(t2));
        if c == '"' || c == '\\' {
            assert(q =~= seq!['\\', c] + qstr(t2));
            assert(s[i] == q[0]);
            assert(q[0] == '\\');
            assert(s[i + 1] == s.subrange(i, i + q.len())[1]);
            assert(q[1] == c);
            assert(s[i + 1] == c);
            lemma_sub_of_sub(s, i, q, 2, q.len() as int);
            assert(q.subrange(2, q.len() as int) =~= qstr(t2));
            lemma_p_str_rt(s, i + 2, t2);
            assert(seq![s[i + 1]] + t2 =~= t);
        } else if (c as u32) < 32 {
            let cu = (c as u32) as int;
            assert(q =~= seq!['\\', 'u', '0', '0', hex_char(cu / 16), hex_char(cu % 16)] + qstr(
                t2,
            ));
            assert(s[i] == '\\');
            assert(s[i + 1] == s.subrange(i, i + q.len())[1]);
            assert(s[i + 2] == s.subrange(i, i + q.len())[2]);
            assert(s[i + 3] == s.subrange(i, i + q.len())[3]);
            assert(s[i + 4] == s.subrange(i, i + q.len())[4]);
            assert(s[i + 5] == s.subrange(i, i + q.len())[5]);
            assert(s[i + 1] == 'u' && s[i + 2] == '0' && s[i + 3] == '0');
            assert(s[i + 4] == hex_char(cu / 16) && s[i + 5] == hex_char(cu % 16));
            assert(0 <= cu / 16 < 16 && 0 <= cu % 16 < 16);
            assert(is_hex_digit(s[i + 4]) && hex_val(s[i + 4]) == cu / 16);
            assert(is_hex_digit(s[i + 5]) && hex_val(s[i + 5]) == cu % 16);
            assert(hex_val(s[i + 4]) * 16 + hex_val(s[i + 5]) == cu);
            lemma_sub_of_sub(s, i, q, 6, q.len() as int);
            assert(q.subrange(6, q.len() as int) =~= qstr(t2));
            lemma_p_str_rt(s, i + 6, t2);
            lemma_ctl_char_cast(c);
            assert((cu as u8) == (c as u32) as u8);
            assert((((hex_val(s[i + 4]) * 16 + hex_val(s[i + 5])) as u8) as char) == c);
            assert(seq![c] + t2 =~= t);
        } else {
            assert(q =~= seq![c] + qstr(t2));
            assert(s[i] == c);
            lemma_sub_of_sub(s, i, q, 1, q.len() as int);
            assert(q.subrange(1, q.len() as int) =~= qstr(t2));
            lemma_p_str_rt(s, i + 1, t2);
            assert(seq![s[i]] + t2 =~= t);
        }
    }
}

proof fn lemma_digit_run_end(s: Seq<char>, i: int, e: int)
    requires
        0 <= i <= e <= s.len(),
        forall|k: int| i <= k < e ==> is_digit(#[trigger] s[k]),
        e == s.len() || !is_digit(s[e]),
    ensures
        digit_run(s, i) == e,
    decreases e - i,
{
    if i < e {
        lemma_digit_run_end(s, i + 1, e);
    }
}

proof fn lemma_p_num_rt(s: Seq<char>, i: int, n: int)
    requires
        0 <= n,
        0 <= i,
        i + spec_digits(n).len() <= s.len(),
        s.subrange(i, i + spec_digits(n).len()) == spec_digits(n),
        i + spec_digits(n).len() == s.len() || !is_digit(s[i + spec_digits(n).len()]),
    ensures
        p_num(s, i) == Some((n, i + spec_digits(n).len())),
{
    let d = spec_digits(n);
    lemma_digits_roundtrip(n);
    assert forall|k: int| i <= k < i + d.len() implies is_digit(#[trigger] s[k]) by {
        assert(s.subrange(i, i + d.len())[k - i] == s[k]);
        assert(d[k - i] == s[k]);
    }
    lemma_digit_run_end(s, i, i + d.len());
}

proof fn lemma_p_pid_rt(s: Seq<char>, i: int, p: Option<u32>)
    requires
        0 <= i,
        i + enc_pid(p).len() <= s.len(),
        s.subrange(i, i + enc_pid(p).len()) == enc_pid(p),
        i + enc_pid(p).len() == s.len() || !is_digit(s[i + enc_pid(p).len()]),
    ensures
        p_pid(s, i) == Some((p, i + enc_pid(p).len())),
{
    reveal_strlit("null");
    match p {
        None => {
            assert(enc_pid(p) == "null"@);
            assert(p_lit(s, i, "null"@) == Some(i + 4));
        },
        Some(v) => {
            let d = spec_digits(v as int);
            lemma_digits_roundtrip(v as int);
            assert(s[i] == s.subrange(i, i + d.len())[0]);
            assert(s[i] == d[0]);
            assert(is_digit(s[i]));
            if 0 <= i && i + 4 <= s.len() && s.subrange(i, i + 4) == "null"@ {
                assert(s.subrange(i, i + 4)[0] == s[i]);
                assert(s[i] == 'n');
                assert(false);
            }
            assert(p_lit(s, i, "null"@) is None);
            lemma_p_num_rt(s, i, v as int);
            assert((v as int) as u32 == v);
        },
    }
}

#[verifier::rlimit(100)]
proof fn lemma_p_record_rt(s: Seq<char>, i: int, f: ForwardView)
    requires
        wf_forward(f),
        0 <= i,
        i + enc_record(f).len() <= s.len(),
        s.subrange(i, i + enc_record(f).len()) == enc_record(f),
    ensures
        p_record(s, i) == Some((f, i + enc_record(f).len())),
        i + enc_record(f).len() > i + 6,
{
    let l1 = "    \""@;
    let q1 = qstr(f.id);
    let l2 = ": {\n      \"id\": \""@;
    let l3 = ",\n      \"host\": \""@;
    let q3 = qstr(f.host);
    let l4 = ",\n      \"local_port\": "@;
    let d1 = spec_digits(f.local_port as int);
    let l5 = ",\n      \"remote_port\": "@;
    let d2 = spec_digits(f.remote_port as int);
    let l6 = ",\n      \"pid\": "@;
    let pd = enc_pid(f.pid);
    let l7 = "\n    }"@;
    let r = enc_record(f);
    reveal_strlit("    \"");
    reveal_strlit(": {\n      \"id\": \"");
    reveal_strlit(",\n      \"host\": \"");
    reveal_strlit(",\n      \"local_port\": ");
    reveal_strlit(",\n      \"remote_port\": ");
    reveal_strlit(",\n      \"pid\": ");
    reveal_strlit("\n    }");
    let o1 = l1.len() as int;
    let o2 = o1 + q1.len() as int;
    let o3 = o2 + l2.len() as int;
    let o4 = o3 + q1.len() as int;
    let o5 = o4 + l3.len() as int;
    let o6 = o5 + q3.len() as int;
    let o7 = o6 + l4.len() as int;
    let o8 = o7 + d1.len() as int;
    let o9 = o8 + l5.len() as int;
    let o10 = o9 + d2.len() as int;
    let o11 = o10 + l6.len() as int;
    let o12 = o11 + pd.len() as int;
    let o13 = o12 + l7.len() as int;
    assert(r == l1 + q1 + l2 + q1 + l3 + q3 + l4 + d1 + l5 + d2 + l6 + pd + l7);
    assert(r.len() == o13);
    assert(r.subrange(0, o1) =~= l1);
    assert(r.subrange(o1, o2) =~= q1);
    assert(r.subrange(o2, o3) =~= l2);
    assert(r.subrange(o3, o4) =~= q1);
    assert(r.subrange(o4, o5) =~= l3);
    assert(r.subrange(o5, o6) =~= q3);
    assert(r.subrange(o6, o7) =~= l4);
    assert(r.subrange(o7, o8) =~= d1);
    assert(r.subrange(o8, o9) =~= l5);
    assert(r.subrange(o9, o10) =~= d2);
    assert(r.subrange(o10, o11) =~= l6);
    assert(r.subrange(o11, o12) =~= pd);
    assert(r.subrange(o12, o13) =~= l7);
    lemma_sub_of_sub(s, i, r, 0, o1);
    lemma_sub_of_sub(s, i, r, o1, o2);
    lemma_sub_of_sub(s, i, r, o2, o3);
    lemma_sub_of_sub(s, i, r, o3, o4);
    lemma_sub_of_sub(s, i, r, o4, o5);
    lemma_sub_of_sub(s, i, r, o5, o6);
    lemma_sub_of_sub(s, i, r, o6, o7);
    lemma_sub_of_sub(s, i, r, o7, o8);
    lemma_sub_of_sub(s, i, r, o8, o9);
    lemma_sub_of_sub(s, i, r, o9, o10);
    lemma_sub_of_sub(s, i, r, o10, o11);
    lemma_sub_of_sub(s, i, r, o11, o12);
    lemma_sub_of_sub(s, i, r, o12, o13);
    assert(p_lit(s, i, l1) == Some(i + o1));
    lemma_p_str_rt(s, i + o1, f.id);
    assert(p_lit(s, i + o2, l2) == Some(i + o3));
    lemma_p_str_rt(s, i + o3, f.id);
    assert(p_lit(s, i + o4, l3) == Some(i + o5));
    lemma_p_str_rt(s, i + o5, f.host);
    assert(p_lit(s, i + o6, l4) == Some(i + o7));
    assert(s[i + o8] == s.subrange(i + o8, i + o9)[0]);
    assert(s[i + o8] == l5[0]);
    assert(!is_digit(s[i + o8]));
    lemma_p_num_rt(s, i + o7, f.local_port as int);
    assert(p_lit(s, i + o8, l5) == Some(i + o9));
    assert(s[i + o10] == s.subrange(i + o10, i + o11)[0]);
    assert(s[i + o10] == l6[0]);
    assert(!is_digit(s[i + o10]));
    lemma_p_num_rt(s, i + o9, f.remote_port as int);
    assert(p_lit(s, i + o10, l6) == Some(i + o11));
    assert(s[i + o12] == s.subrange(i + o12, i + o13)[0]);
    assert(s[i + o12] == l7[0]);
    assert(!is_digit(s[i + o12]));
    lemma_p_pid_rt(s, i + o11, f.pid);
    assert(p_lit(s, i + o12, l7) == Some(i + o13));
    assert((f.local_port as int) as u16 == f.local_port);
    assert((f.remote_port as int) as u16 == f.remote_port);
    assert(p_record(s, i) == Some(
        (
            ForwardView {
                id: f.id,
                host: f.host,
                local_port: f.local_port,
                remote_port: f.remote_port,
                pid: f.pid,
            },
            i + o13,
        ),
    ));
    assert(ForwardView {
        id: f.id,
        host: f.host,
        local_port: f.local_port,
        remote_port: f.remote_port,
        pid: f.pid,
    } == f);
}

#[verifier::rlimit(100)]
#[verifier::spinoff_prover]
proof fn lemma_p_records_rt(s: Seq<char>, i: int, m: Seq<ForwardView>)
    requires
        m.len() >= 1,
        forall|k: int| 0 <= k < m.len() ==> wf_forward(#[trigger] m[k]),
        0 <= i,
        i + enc_records(m).len() <= s.len(),
        s.subrange(i, i + enc_records(m).len()) == enc_records(m),
        i + enc_records(m).len() == s.len() || s[i + enc_records(m).len()] != ',',
    ensures
        p_records(s, i) == Some((m, i + enc_records(m).len())),
    decreases m.len(),
{
    let r = enc_records(m);
    reveal_strlit(",\n");
    if m.len() == 1 {
        assert(r == enc_record(m[0]));
        lemma_p_record_rt(s, i, m[0]);
        let j = i + r.len() as int;
        if 0 <= j && j + 2 <= s.len() && s.subrange(j, j + 2) == ",\n"@ {
            assert(s.subrange(j, j + 2)[0] == s[j]);
            assert(s[j] == ',');
            assert(false);
        }
        assert(p_lit(s, j, ",\n"@) is None);
        assert(seq![m[0]] =~= m);
    } else {
        let m2 = m.drop_first();
        let r1 = enc_record(m[0]);
        assert(r == r1 + ",\n"@ + enc_records(m2));
        let o1 = r1.len() as int;
        let o2 = o1 + 2;
        let o3 = o2 + enc_records(m2).len() as int;
        assert(r.subrange(0, o1) =~= r1);
        assert(r.subrange(o1, o2) =~= ",\n"@);
        assert(r.subrange(o2, o3) =~= enc_records(m2));
        lemma_sub_of_sub(s, i, r, 0, o1);
        lemma_sub_of_sub(s, i, r, o1, o2);
        lemma_sub_of_sub(s, i, r, o2, o3);
        lemma_p_record_rt(s, i, m[0]);
        assert(p_lit(s, i + o1, ",\n"@) == Some(i + o2));
        assert(forall|k: int| 0 <= k < m2.len() ==> wf_forward(#[trigger] m2[k]));
        lemma_p_records_rt(s, i + o2, m2);
        assert(seq![m[0]] + m2 =~= m);
    }
}

/// Round trip: the written text of a well-formed registry reads back as
/// exactly that registry.
#[verifier::rlimit(100)]
#[verifier::spinoff_prover]
pub proof fn lemma_write_read_roundtrip(m: Seq<ForwardView>)
    requires
        sorted_by_id(m),
        forall|k: int| 0 <= k < m.len() ==> wf_forward(#[trigger] m[k]),
    ensures
        spec_parse_config(enc_config(m)) == Some(m),
{
    let s = enc_config(m);
    reveal_strlit("{\n  \"forwards\": {");
    reveal_strlit("{\n  \"forwards\": {}\n}");
    reveal_strlit("{\n  \"forwards\": {\n");
    reveal_strlit("}\n}");
    reveal_strlit("\n");
    reveal_strlit("\n  }\n}");
    let hd = "{\n  \"forwards\": {"@;
    if m.len() == 0 {
        assert(s == "{\n  \"forwards\": {}\n}"@);
        assert(s.subrange(0, hd.len() as int) =~= hd);
        assert(p_lit(s, 0, hd) == Some(hd.len() as int));
        let h = hd.len() as int;
        assert(s.subrange(h, h + 3) =~= "}\n}"@);
        assert(p_lit(s, h, "}\n}"@) == Some(s.len() as int));
        assert(m =~= Seq::<ForwardView>::empty());
    } else {
        let hd2 = "{\n  \"forwards\": {\n"@;
        let tl = "\n  }\n}"@;
        let rs = enc_records(m);
        assert(s == hd2 + rs + tl);
        let h = hd.len() as int;
        let h1 = hd2.len() as int;
        let o2 = h1 + rs.len() as int;
        let o3 = o2 + tl.len() as int;
        assert(h1 == h + 1);
        assert(s.subrange(0, h) =~= hd);
        assert(p_lit(s, 0, hd) == Some(h));
        assert(s.subrange(h, h1) =~= "\n"@);
        assert(p_lit(s, h, "\n"@) == Some(h1));
        if 0 <= h && h + 3 <= s.len() && s.subrange(h, h + 3) == "}\n}"@ {
            assert(s.subrange(h, h + 3)[0] == s[h]);
            assert(s.subrange(h, h1)[0] == s[h]);
            assert(false);
        }
        assert(p_lit(s, h, "}\n}"@) != Some(s.len() as int));
        assert(s.subrange(h1, o2) =~= rs);
        assert(s.subrange(o2, o3) =~= tl);
        assert(s[o2] == s.subrange(o2, o3)[0]);
        assert(s[o2] == '\n');
        lemma_p_records_rt(s, h1, m);
        assert(p_lit(s, o2, tl) == Some(s.len() as int));
    }
}

} // verus!
