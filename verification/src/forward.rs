//! The forward record and its identity rule: the id of a forward is the
//! host with every `@` replaced by `_at_`, then `_`, the local port, `_`,
//! and the remote port, all in decimal.

use vstd::prelude::*;
use crate::text::{spec_digits, push_digits, str_to_chars, chars_to_string};

verus! {

/// A registered SSH local port forward.
#[derive(Debug)]
pub struct PortForward {
    pub id: String,
    pub host: String,
    pub local_port: u16,
    pub remote_port: u16,
    pub pid: Option<u32>,
}

/// The mathematical content of a forward record.
pub struct ForwardView {
    pub id: Seq<char>,
    pub host: Seq<char>,
    pub local_port: u16,
    pub remote_port: u16,
    pub pid: Option<u32>,
}

impl View for PortForward {
    type V = ForwardView;

    open spec fn view(&self) -> ForwardView {
        ForwardView {
            id: self.id@,
            host: self.host@,
            local_port: self.local_port,
            remote_port: self.remote_port,
            pid: self.pid,
        }
    }
}

impl Clone for PortForward {
    fn clone(&self) -> (r: Self)
        ensures
            r@ == self@,
    {
        PortForward {
            id: self.id.clone(),
            host: self.host.clone(),
            local_port: self.local_port,
            remote_port: self.remote_port,
            pid: self.pid,
        }
    }
}

/// What one host character contributes to the normalized host.
pub open spec fn norm_char(c: char) -> Seq<char> {
    if c == '@' {
        seq!['_', 'a', 't', '_']
    } else {
        seq![c]
    }
}

/// The host with every `@` replaced by `_at_`.
pub open spec fn spec_normalize(h: Seq<char>) -> Seq<char>
    decreases h.len(),
{
    if h.len() == 0 {
        Seq::empty()
    } else {
        norm_char(h[0]) + spec_normalize(h.drop_first())
    }
}

pub proof fn lemma_normalize_append(a: Seq<char>, b: Seq<char>)
    ensures
        spec_normalize(a + b) == spec_normalize(a) + spec_normalize(b),
    decreases a.len(),
{
    if a.len() == 0 {
        assert(a + b =~= b);
        assert(spec_normalize(a) + spec_normalize(b) =~= spec_normalize(b));
    } else {
        lemma_normalize_append(a.drop_first(), b);
        assert((a + b).drop_first() =~= a.drop_first() + b);
        assert(norm_char((a + b)[0]) + (spec_normalize(a.drop_first()) + spec_normalize(b))
            =~= (norm_char(a[0]) + spec_normalize(a.drop_first())) + spec_normalize(b));
    }
}

/// The identity of a forward: normalized host, `_`, local port, `_`,
/// remote port.
pub open spec fn spec_id(host: Seq<char>, local_port: u16, remote_port: u16) -> Seq<char> {
    spec_normalize(host) + seq!['_'] + spec_digits(local_port as int) + seq!['_'] + spec_digits(
        remote_port as int,
    )
}

/// A record whose stored id agrees with the identity rule and whose
/// ports are real ports, in [1, 65535].
pub open spec fn wf_forward(f: ForwardView) -> bool {
    &&& f.id == spec_id(f.host, f.local_port, f.remote_port)
    &&& f.local_port >= 1
    &&& f.remote_port >= 1
}

/// Builds the id string for a forward of `host` from `local_port` to
/// `remote_port`.
pub fn make_id(host: &str, local_port: u16, remote_port: u16) -> (r: String)
    ensures
        r@ == spec_id(host@, local_port, remote_port),
{
    let h = str_to_chars(host);
    let mut out: Vec<char> = Vec::new();
    let mut i: usize = 0;
    proof {
        assert(h@.take(0) =~= Seq::<char>::empty());
    }
    while i < h.len()
        invariant
            h@ == host@,
            i <= h.len(),
            out@ == spec_normalize(host@.take(i as int)),
        decreases h.len() - i,
    {
        let c = h[i];
        if c == '@' {
            out.push('_');
            out.push('a');
            out.push('t');
            out.push('_');
        } else {
            out.push(c);
        }
        proof {
            lemma_normalize_append(host@.take(i as int), seq![host@[i as int]]);
            assert(host@.take(i as int + 1) =~= host@.take(i as int) + seq![host@[i as int]]);
            assert(seq![host@[i as int]].drop_first() =~= Seq::<char>::empty());
            assert(spec_normalize(seq![host@[i as int]]) == norm_char(host@[i as int])
                + spec_normalize(Seq::<char>::empty()));
            assert(spec_normalize(seq![host@[i as int]]) =~= norm_char(host@[i as int]));
            assert(out@ =~= spec_normalize(host@.take(i as int)) + norm_char(host@[i as int]));
        }
        i = i + 1;
    }
    assert(host@.take(i as int) =~= host@);
    out.push('_');
    push_digits(local_port as u64, &mut out);
    out.push('_');
    push_digits(remote_port as u64, &mut out);
    proof {
        assert(out@ =~= spec_id(host@, local_port, remote_port));
    }
    chars_to_string(&out)
}

/// Builds a record for `host` with the given ports and pid; the id obeys
/// the identity rule.
pub fn make_forward(host: &str, local_port: u16, remote_port: u16, pid: Option<u32>) -> (r:
    PortForward)
    requires
        local_port >= 1,
        remote_port >= 1,
    ensures
        r@.host == host@,
        r@.local_port == local_port,
        r@.remote_port == remote_port,
        r@.pid == pid,
        wf_forward(r@),
{
    let id = make_id(host, local_port, remote_port);
    PortForward { id, host: host.to_owned(), local_port, remote_port, pid }
}

/// The forward argument handed to the SSH client:
/// `LOCAL:localhost:REMOTE`.
pub open spec fn spec_forward_arg(local_port: u16, remote_port: u16) -> Seq<char> {
    spec_digits(local_port as int) + seq![':', 'l', 'o', 'c', 'a', 'l', 'h', 'o', 's', 't', ':']
        + spec_digits(remote_port as int)
}

/// Builds the `-L` argument for the SSH client.
pub fn forward_arg(local_port: u16, remote_port: u16) -> (r: String)
    ensures
        r@ == spec_forward_arg(local_port, remote_port),
{
    let mut out: Vec<char> = Vec::new();
    push_digits(local_port as u64, &mut out);
    out.push(':');
    out.push('l');
    out.push('o');
    out.push('c');
    out.push('a');
    out.push('l');
    out.push('h');
    out.push('o');
    out.push('s');
    out.push('t');
    out.push(':');
    push_digits(remote_port as u64, &mut out);
    proof {
        assert(out@ =~= spec_forward_arg(local_port, remote_port));
    }
    chars_to_string(&out)
}

} // verus!
