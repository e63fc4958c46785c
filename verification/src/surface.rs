//! The decisions behind the command verbs: reading a port argument,
//! resolving delete tokens against the sorted view, and judging the
//! outcome of a kill command.

use vstd::prelude::*;
use crate::Error;
use crate::config::{Config, views_of};
use crate::forward::ForwardView;
use crate::text::{
    all_digits, digits_val, digit_val, is_digit, spec_contains, str_contains, str_eq, str_to_chars,
};

verus! {

/// The character sequences of a vector of strings, in order.
pub open spec fn str_views(s: Seq<String>) -> Seq<Seq<char>> {
    s.map_values(|t: String| t@)
}

pub proof fn lemma_str_views(s: Seq<String>)
    ensures
        str_views(s).len() == s.len(),
        forall|k: int| 0 <= k < s.len() ==> #[trigger] str_views(s)[k] == s[k]@,
{
}

/// The ids of a registry view, in order.
pub open spec fn ids_of(s: Seq<ForwardView>) -> Seq<Seq<char>> {
    s.map_values(|f: ForwardView| f.id)
}

pub proof fn lemma_ids_of(s: Seq<ForwardView>)
    ensures
        ids_of(s).len() == s.len(),
        forall|k: int| 0 <= k < s.len() ==> #[trigger] ids_of(s)[k] == s[k].id,
{
}

// ---------------------------------------------------------------------------
// Port arguments
// ---------------------------------------------------------------------------

/// An unsigned decimal port number of value in [1, 65535]: digits
/// only, no sign, and zero is no port.
pub open spec fn spec_parse_u16(t: Seq<char>) -> Option<u16> {
    if t.len() > 0 && all_digits(t) && 1 <= digits_val(t) <= 65535 {
        Some(digits_val(t) as u16)
    } else {
        None
    }
}

/// The position of the first `:` in `t`, if any.
pub open spec fn first_colon(t: Seq<char>) -> Option<int>
    decreases t.len(),
{
    if t.len() == 0 {
        None
    } else if t[0] == ':' {
        Some(0)
    } else {
        match first_colon(t.drop_first()) {
            Some(k) => Some(k + 1),
            None => None,
        }
    }
}

pub proof fn lemma_first_colon_none(t: Seq<char>)
    requires
        forall|k: int| 0 <= k < t.len() ==> (#[trigger] t[k]) != ':',
    ensures
        first_colon(t) is None,
    decreases t.len(),
{
    if t.len() > 0 {
        assert(t[0] != ':');
        assert(forall|k: int|
            0 <= k < t.drop_first().len() ==> (#[trigger] t.drop_first()[k]) == t[k + 1]);
        lemma_first_colon_none(t.drop_first());
    }
}

pub proof fn lemma_first_colon_at(t: Seq<char>, i: int)
    requires
        0 <= i < t.len(),
        t[i] == ':',
        forall|k: int| 0 <= k < i ==> (#[trigger] t[k]) != ':',
    ensures
        first_colon(t) == Some(i),
    decreases i,
{
    if i > 0 {
        assert(t[0] != ':');
        assert(forall|k: int|
            0 <= k < t.drop_first().len() ==> (#[trigger] t.drop_first()[k]) == t[k + 1]);
        lemma_first_colon_at(t.drop_first(), i - 1);
    }
}

pub proof fn lemma_first_colon_exists(t: Seq<char>, i: int)
    requires
        0 <= i < t.len(),
        t[i] == ':',
    ensures
        first_colon(t) is Some,
    decreases i,
{
    if t[0] != ':' {
        assert(t.drop_first()[i - 1] == t[i]);
        lemma_first_colon_exists(t.drop_first(), i - 1);
    }
}

/// A port argument: `L:R`, or a single port `P` standing for `P:P`.
/// Anything else — a bad number, zero, a number above 65535, more than
/// one colon — is rejected.
pub open spec fn spec_parse_ports(t: Seq<char>) -> Option<(u16, u16)> {
    match first_colon(t) {
        None => match spec_parse_u16(t) {
            Some(p) => Some((p, p)),
            None => None,
        },
        Some(k) => {
            let left = t.take(k);
            let right = t.skip(k + 1);
            if first_colon(right) is Some {
                None
            } else {
                match (spec_parse_u16(left), spec_parse_u16(right)) {
                    (Some(l), Some(r)) => Some((l, r)),
                    _ => None,
                }
            }
        },
    }
}

/// Reads the digits of `v` between `from` and `to` as a port number.
#[verifier::loop_isolation(false)]
fn parse_u16_range(v: &Vec<char>, from: usize, to: usize) -> (r: Option<u16>)
    requires
        from <= to <= v@.len(),
    ensures
        r == spec_parse_u16(v@.subrange(from as int, to as int)),
{
    let ghost t = v@.subrange(from as int, to as int);
    let ghost d = t;
    let start: usize = from;
    let mut j: usize = from;
    if j == to {
        return None;
    }
    let mut val: u32 = 0;
    while j < to
        invariant
            start <= j <= to <= v@.len(),
            d == v@.subrange(start as int, to as int),
            all_digits(d.take(j - start)),
            val <= 65535 ==> val == digits_val(d.take(j - start)),
            val > 65535 ==> digits_val(d.take(j - start)) > 65535 && val == 65536,
        decreases to - j,
    {
        let c = v[j];
        if !(c == '0' || c == '1' || c == '2' || c == '3' || c == '4' || c == '5' || c == '6'
            || c == '7' || c == '8' || c == '9') {
            proof {
                assert(d[j - start] == v@[j as int]);
                assert(!is_digit(d[j - start]));
                assert(!all_digits(d));
                assert(spec_parse_u16(t) is None);
            }
            return None;
        }
        let dv: u32 = if c == '0' {
            0
        } else if c == '1' {
            1
        } else if c == '2' {
            2
        } else if c == '3' {
            3
        } else if c == '4' {
            4
        } else if c == '5' {
            5
        } else if c == '6' {
            6
        } else if c == '7' {
            7
        } else if c == '8' {
            8
        } else {
            9
        };
        proof {
            assert(d.take(j - start + 1).drop_last() =~= d.take(j - start));
            assert(d.take(j - start + 1).last() == d[j - start]);
            assert(digit_val(d[j - start]) == dv);
        }
        if val > 65535 {
            // stays saturated; the digits so far already exceed a port
        } else if val * 10 + dv > 65535 {
            val = 65536;
        } else {
            val = val * 10 + dv;
        }
        j = j + 1;
    }
    proof {
        assert(d.take(to - start) =~= d);
    }
    if val == 0 || val > 65535 {
        None
    } else {
        Some(val as u16)
    }
}

/// Reads a port argument, `L:R` or a single `P` meaning `P:P`.
pub fn parse_ports(ports: &str) -> (r: Result<(u16, u16), Error>)
    ensures
        match r {
            Ok(p) => spec_parse_ports(ports@) == Some(p),
            Err(e) => spec_parse_ports(ports@) is None && e == Error::BadPortSpec,
        },
{
    let v = str_to_chars(ports);
    let n = v.len();
    let mut colon: Option<usize> = None;
    let mut second: bool = false;
    let mut i: usize = 0;
    while i < n
        invariant
            n == v@.len(),
            v@ == ports@,
            i <= n,
            match colon {
                None => !second && forall|k: int| 0 <= k < i ==> (#[trigger] v@[k]) != ':',
                Some(c) => c < i && v@[c as int] == ':' && (forall|k: int|
                    0 <= k < c ==> (#[trigger] v@[k]) != ':') && (second <==> exists|k: int|
                    c < k < i && #[trigger] v@[k] == ':'),
            },
        decreases n - i,
    {
        if v[i] == ':' {
            if colon.is_none() {
                colon = Some(i);
            } else {
                second = true;
            }
        }
        i = i + 1;
    }
    match colon {
        None => {
            proof {
                lemma_first_colon_none(ports@);
            }
            match parse_u16_range(&v, 0, n) {
                Some(p) => {
                    proof {
                        assert(v@.subrange(0, n as int) =~= ports@);
                    }
                    Ok((p, p))
                },
                None => {
                    proof {
                        assert(v@.subrange(0, n as int) =~= ports@);
                    }
                    Err(Error::BadPortSpec)
                },
            }
        },
        Some(c) => {
            proof {
                lemma_first_colon_at(ports@, c as int);
            }
            let ghost right = ports@.skip(c as int + 1);
            if second {
                proof {
                    let k = choose|k: int| c < k < n && #[trigger] v@[k] == ':';
                    assert(right[k - c - 1] == v@[k]);
                    lemma_first_colon_exists(right, k - c - 1);
                }
                Err(Error::BadPortSpec)
            } else {
                proof {
                    assert forall|k: int| 0 <= k < right.len() implies (#[trigger] right[k])
                        != ':' by {
                        assert(right[k] == v@[k + c + 1]);
                    }
                    lemma_first_colon_none(right);
                }
                let left = parse_u16_range(&v, 0, c);
                let rightp = parse_u16_range(&v, c + 1, n);
                proof {
                    assert(v@.subrange(0, c as int) =~= ports@.take(c as int));
                    assert(v@.subrange(c as int + 1, n as int) =~= right);
                }
                match (left, rightp) {
                    (Some(l), Some(r)) => Ok((l, r)),
                    _ => Err(Error::BadPortSpec),
                }
            }
        },
    }
}

// ---------------------------------------------------------------------------
// Delete tokens
// ---------------------------------------------------------------------------

/// A decimal index, optionally with a leading `+`, of value at most
/// `usize::MAX`; anything else is taken as a literal id.
pub open spec fn spec_parse_index(t: Seq<char>) -> Option<int> {
    let d = if t.len() > 0 && t[0] == '+' {
        t.drop_first()
    } else {
        t
    };
    if d.len() > 0 && all_digits(d) && digits_val(d) <= usize::MAX {
        Some(digits_val(d))
    } else {
        None
    }
}

/// Reads a delete token as an index into the sorted view.
#[verifier::loop_isolation(false)]
pub fn parse_index(t: &str) -> (r: Option<usize>)
    ensures
        match r {
            Some(i) => spec_parse_index(t@) == Some(i as int),
            None => spec_parse_index(t@) is None,
        },
{
    let v = str_to_chars(t);
    let n = v.len();
    let mut j: usize = 0;
    if j < n && v[j] == '+' {
        j = j + 1;
        proof {
            assert(t@.drop_first() =~= v@.subrange(1, n as int));
        }
    }
    let ghost d = v@.subrange(j as int, n as int);
    let start: usize = j;
    proof {
        if !(t@.len() > 0 && t@[0] == '+') {
            assert(d =~= t@);
        }
    }
    if j == n {
        return None;
    }
    let mut val: usize = 0;
    let mut over: bool = false;
    while j < n
        invariant
            start <= j <= n,
            all_digits(d.take(j - start)),
            !over ==> val == digits_val(d.take(j - start)),
            over ==> digits_val(d.take(j - start)) > usize::MAX,
        decreases n - j,
    {
        let c = v[j];
        if !(c == '0' || c == '1' || c == '2' || c == '3' || c == '4' || c == '5' || c == '6'
            || c == '7' || c == '8' || c == '9') {
            proof {
                assert(d[j - start] == v@[j as int]);
                assert(!is_digit(d[j - start]));
                assert(!all_digits(d));
            }
            return None;
        }
        let dv: usize = if c == '0' {
            0
        } else if c == '1' {
            1
        } else if c == '2' {
            2
        } else if c == '3' {
            3
        } else if c == '4' {
            4
        } else if c == '5' {
            5
        } else if c == '6' {
            6
        } else if c == '7' {
            7
        } else if c == '8' {
            8
        } else {
            9
        };
        proof {
            assert(d.take(j - start + 1).drop_last() =~= d.take(j - start));
            assert(d.take(j - start + 1).last() == d[j - start]);
            assert(digit_val(d[j - start]) == dv);
        }
        if !over {
            if val > (usize::MAX - dv) / 10 {
                proof {
                    let m = usize::MAX as int;
                    assert((m - dv) == 10 * ((m - dv) / 10) + (m - dv) % 10);
                    assert(val * 10 + dv > m);
                }
                over = true;
            } else {
                proof {
                    let m = usize::MAX as int;
                    assert((m - dv) == 10 * ((m - dv) / 10) + (m - dv) % 10);
                    assert(val * 10 + dv <= m);
                }
                val = val * 10 + dv;
            }
        }
        j = j + 1;
    }
    proof {
        assert(d.take(n - start) =~= d);
    }
    if over {
        None
    } else {
        Some(val)
    }
}

/// What a list of delete tokens names, worked out left to right: an
/// index token names the record at that position of the sorted view (a
/// position past the end fails the token), any other token is a literal
/// id. The first sequence is the resolved ids, the second the failed
/// tokens.
pub open spec fn spec_resolve(s: Seq<ForwardView>, tokens: Seq<Seq<char>>) -> (Seq<Seq<char>>, Seq<
    Seq<char>,
>)
    decreases tokens.len(),
{
    if tokens.len() == 0 {
        (Seq::empty(), Seq::empty())
    } else {
        let (ids, bad) = spec_resolve(s, tokens.drop_last());
        let t = tokens.last();
        match spec_parse_index(t) {
            Some(i) => if i < s.len() {
                (ids.push(s[i].id), bad)
            } else {
                (ids, bad.push(t))
            },
            None => (ids.push(t), bad),
        }
    }
}

impl Config {
    /// Resolves delete tokens to record ids. The single token `all`
    /// names every id; otherwise tokens resolve as `spec_resolve` says.
    /// Unresolvable tokens are reported, not fatal.
    #[verifier::loop_isolation(false)]
    pub fn resolve_delete_targets(&self, tokens: &Vec<String>) -> (r: (Vec<String>, Vec<String>))
        ensures
            (tokens@.len() == 1 && tokens@[0]@ == "all"@) ==> str_views(r.0@) == ids_of(self@)
                && r.1@.len() == 0,
            !(tokens@.len() == 1 && tokens@[0]@ == "all"@) ==> (str_views(r.0@), str_views(r.1@))
                == spec_resolve(self@, str_views(tokens@)),
    {
        let mut ids: Vec<String> = Vec::new();
        let mut bad: Vec<String> = Vec::new();
        if tokens.len() == 1 && str_eq(tokens[0].as_str(), "all") {
            let n = self.forwards.len();
            let mut i: usize = 0;
            proof {
                lemma_str_views(ids@);
                lemma_ids_of(self@);
            }
            while i < n
                invariant
                    i <= n,
                    str_views(ids@) == ids_of(self@).take(i as int),
                decreases n - i,
            {
                let ghost prev = ids@;
                ids.push(self.forwards[i].id.clone());
                i = i + 1;
                proof {
                    lemma_str_views(ids@);
                    lemma_str_views(prev);
                    lemma_ids_of(self@);
                    crate::config::lemma_views_of(self.forwards@);
                    assert forall|k: int| 0 <= k < ids@.len() implies #[trigger] str_views(ids@)[k]
                        == ids_of(self@).take(i as int)[k] by {
                        if k < prev.len() {
                            assert(str_views(prev)[k] == ids_of(self@).take(i as int - 1)[k]);
                            assert(ids@[k] == prev[k]);
                        } else {
                            assert(ids@[k]@ == self.forwards@[i as int - 1].id@);
                            assert(self@[i as int - 1] == self.forwards@[i as int - 1]@);
                        }
                    }
                    assert(str_views(ids@) =~= ids_of(self@).take(i as int));
                }
            }
            proof {
                assert(ids_of(self@).take(i as int) =~= ids_of(self@));
            }
            (ids, bad)
        } else {
            let n = tokens.len();
            let ghost tv = str_views(tokens@);
            let mut j: usize = 0;
            proof {
                lemma_str_views(tokens@);
            }
            while j < n
                invariant
                    j <= n,
                    (str_views(ids@), str_views(bad@)) == spec_resolve(self@, tv.take(j as int)),
                decreases n - j,
            {
                let ghost prev_ids = ids@;
                let ghost prev_bad = bad@;
                let t = &tokens[j];
                proof {
                    assert(tv.take(j as int + 1).drop_last() =~= tv.take(j as int));
                    assert(tv.take(j as int + 1).last() == tv[j as int]);
                    assert(tv[j as int] == t@);
                }
                match parse_index(t.as_str()) {
                    Some(i) => {
                        match self.get_forward_by_index(i) {
                            Some(f) => {
                                ids.push(f.id.clone());
                                proof {
                                    lemma_str_views(ids@);
                                    lemma_str_views(prev_ids);
                                    assert(str_views(ids@) =~= str_views(prev_ids).push(
                                        self@[i as int].id,
                                    ));
                                }
                            },
                            None => {
                                bad.push(t.clone());
                                proof {
                                    lemma_str_views(bad@);
                                    lemma_str_views(prev_bad);
                                    assert(str_views(bad@) =~= str_views(prev_bad).push(t@));
                                }
                            },
                        }
                    },
                    None => {
                        ids.push(t.clone());
                        proof {
                            lemma_str_views(ids@);
                            lemma_str_views(prev_ids);
                            assert(str_views(ids@) =~= str_views(prev_ids).push(t@));
                        }
                    },
                }
                j = j + 1;
            }
            proof {
                assert(tv.take(j as int) =~= tv);
            }
            (ids, bad)
        }
    }
}

// ---------------------------------------------------------------------------
// Kill outcomes
// ---------------------------------------------------------------------------

/// How a termination attempt ended. A process that was already gone
/// counts as success.
#[derive(Clone, Copy, Debug, PartialEq, Eq, Structural)]
pub enum KillOutcome {
    /// The kill command succeeded.
    Stopped,
    /// The kill command failed with "No such process".
    AlreadyStopped,
    /// The kill command failed for any other reason.
    Failed,
}

impl KillOutcome {
    /// Both a stopped process and an already-gone one count as success.
    pub fn is_success(&self) -> (r: bool)
        ensures
            r == (*self is Stopped || *self is AlreadyStopped),
    {
        match self {
            KillOutcome::Stopped => true,
            KillOutcome::AlreadyStopped => true,
            KillOutcome::Failed => false,
        }
    }
}

/// Judges the result of the kill command from its exit status and its
/// error text: "No such process" is not a failure.
pub fn classify_kill_outcome(success: bool, stderr: &str) -> (r: KillOutcome)
    ensures
        success ==> r == KillOutcome::Stopped,
        !success && spec_contains(stderr@, "No such process"@) ==> r == KillOutcome::AlreadyStopped,
        !success && !spec_contains(stderr@, "No such process"@) ==> r == KillOutcome::Failed,
        r is Stopped || r is AlreadyStopped <==> success || spec_contains(
            stderr@,
            "No such process"@,
        ),
{
    if success {
        KillOutcome::Stopped
    } else if str_contains(stderr, "No such process") {
        KillOutcome::AlreadyStopped
    } else {
        KillOutcome::Failed
    }
}

} // verus!
