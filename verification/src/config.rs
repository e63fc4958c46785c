//! The forward registry: a set of records keyed by id, kept as a vector
//! in strictly ascending id order. The sorted order is the source of the
//! user-visible indices, so it is the representation itself.

use vstd::prelude::*;
use crate::forward::{PortForward, ForwardView, wf_forward};
use crate::text::{seq_lt, lemma_seq_lt_connected, lemma_seq_lt_trans, str_lt, str_eq};

verus! {

/// The record views of a vector of records, in order.
pub open spec fn views_of(s: Seq<PortForward>) -> Seq<ForwardView> {
    s.map_values(|f: PortForward| f@)
}

pub proof fn lemma_views_of(s: Seq<PortForward>)
    ensures
        views_of(s).len() == s.len(),
        forall|k: int| 0 <= k < s.len() ==> #[trigger] views_of(s)[k] == s[k]@,
{
}

/// Strictly ascending by id; implies that ids are unique.
pub open spec fn sorted_by_id(s: Seq<ForwardView>) -> bool {
    forall|i: int, j: int|
        0 <= i < j < s.len() ==> seq_lt(#[trigger] s[i].id, #[trigger] s[j].id)
}

/// The registry of forwards, ordered by id.
#[derive(Debug)]
pub struct Config {
    pub forwards: Vec<PortForward>,
}

impl View for Config {
    type V = Seq<ForwardView>;

    open spec fn view(&self) -> Seq<ForwardView> {
        views_of(self.forwards@)
    }
}

/// The record under the given id, if any.
pub open spec fn spec_lookup(s: Seq<ForwardView>, id: Seq<char>) -> Option<ForwardView>
    decreases s.len(),
{
    if s.len() == 0 {
        None
    } else if s[0].id == id {
        Some(s[0])
    } else {
        spec_lookup(s.drop_first(), id)
    }
}

/// The registry after an upsert of `f`: records keep their order, a
/// record with the same id is replaced, otherwise `f` enters at its
/// sorted position.
pub open spec fn spec_insert(s: Seq<ForwardView>, f: ForwardView) -> Seq<ForwardView>
    decreases s.len(),
{
    if s.len() == 0 {
        seq![f]
    } else if seq_lt(f.id, s[0].id) {
        seq![f] + s
    } else if f.id == s[0].id {
        seq![f] + s.drop_first()
    } else {
        seq![s[0]] + spec_insert(s.drop_first(), f)
    }
}

/// The registry after removing the record under `id`, if present.
pub open spec fn spec_remove_id(s: Seq<ForwardView>, id: Seq<char>) -> Seq<ForwardView>
    decreases s.len(),
{
    if s.len() == 0 {
        s
    } else if s[0].id == id {
        s.drop_first()
    } else {
        seq![s[0]] + spec_remove_id(s.drop_first(), id)
    }
}

pub proof fn lemma_lookup_none(s: Seq<ForwardView>, id: Seq<char>)
    requires
        forall|k: int| 0 <= k < s.len() ==> (#[trigger] s[k].id) != id,
    ensures
        spec_lookup(s, id) is None,
        spec_remove_id(s, id) == s,
    decreases s.len(),
{
    if s.len() > 0 {
        assert(s[0].id != id);
        lemma_lookup_none(s.drop_first(), id);
        assert(seq![s[0]] + s.drop_first() =~= s);
    }
}

pub proof fn lemma_lookup_at(s: Seq<ForwardView>, id: Seq<char>, i: int)
    requires
        0 <= i < s.len(),
        s[i].id == id,
        forall|k: int| 0 <= k < i ==> (#[trigger] s[k].id) != id,
    ensures
        spec_lookup(s, id) == Some(s[i]),
        spec_remove_id(s, id) == s.remove(i),
    decreases i,
{
    if i == 0 {
        assert(spec_remove_id(s, id) == s.drop_first());
        assert(s.drop_first() =~= s.remove(0));
    } else {
        assert(s[0].id != id);
        lemma_lookup_at(s.drop_first(), id, i - 1);
        assert(s.drop_first()[i - 1] == s[i]);
        assert(seq![s[0]] + s.drop_first().remove(i - 1) =~= s.remove(i));
    }
}

/// What an upsert does, element by element, to a sorted registry.
pub proof fn lemma_insert_props(s: Seq<ForwardView>, f: ForwardView)
    requires
        sorted_by_id(s),
    ensures
        sorted_by_id(spec_insert(s, f)),
        spec_insert(s, f).contains(f),
        forall|k: int|
            0 <= k < spec_insert(s, f).len() ==> (#[trigger] spec_insert(s, f)[k]) == f
                || s.contains(spec_insert(s, f)[k]),
        forall|k: int|
            0 <= k < s.len() && (#[trigger] s[k]).id != f.id ==> spec_insert(s, f).contains(s[k]),
        spec_lookup(s, f.id) is Some ==> spec_insert(s, f).len() == s.len(),
        spec_lookup(s, f.id) is None ==> spec_insert(s, f).len() == s.len() + 1,
    decreases s.len(),
{
    let r = spec_insert(s, f);
    if s.len() == 0 {
        assert(r == seq![f]);
        assert(r[0] == f);
    } else if seq_lt(f.id, s[0].id) {
        assert(r == seq![f] + s);
        assert(r[0] == f);
        assert forall|i: int, j: int| 0 <= i < j < r.len() implies seq_lt(
            #[trigger] r[i].id,
            #[trigger] r[j].id,
        ) by {
            if i == 0 {
                assert(r[j] == s[j - 1]);
                if j - 1 > 0 {
                    lemma_seq_lt_trans(f.id, s[0].id, s[j - 1].id);
                }
            } else {
                assert(r[i] == s[i - 1] && r[j] == s[j - 1]);
            }
        }
        assert forall|k: int| 0 <= k < s.len() implies (#[trigger] s[k].id) != f.id by {
            if k > 0 {
                lemma_seq_lt_trans(f.id, s[0].id, s[k].id);
            }
            lemma_seq_lt_connected(f.id, s[k].id);
        }
        lemma_lookup_none(s, f.id);
        assert forall|k: int| 0 <= k < r.len() implies (#[trigger] r[k]) == f || s.contains(
            r[k],
        ) by {
            if k > 0 {
                assert(r[k] == s[k - 1]);
            }
        }
        assert forall|k: int| 0 <= k < s.len() && (#[trigger] s[k]).id != f.id implies r.contains(
            s[k],
        ) by {
            assert(r[k + 1] == s[k]);
        }
    } else if f.id == s[0].id {
        assert(r == seq![f] + s.drop_first());
        assert(r[0] == f);
        assert forall|i: int, j: int| 0 <= i < j < r.len() implies seq_lt(
            #[trigger] r[i].id,
            #[trigger] r[j].id,
        ) by {
            if i == 0 {
                assert(r[j] == s.drop_first()[j - 1]);
                assert(r[j] == s[j]);
            } else {
                assert(r[i] == s[i] && r[j] == s[j]);
            }
        }
        assert(spec_lookup(s, f.id) == Some(s[0]));
        assert forall|k: int| 0 <= k < r.len() implies (#[trigger] r[k]) == f || s.contains(
            r[k],
        ) by {
            if k > 0 {
                assert(r[k] == s[k]);
            }
        }
        assert forall|k: int| 0 <= k < s.len() && (#[trigger] s[k]).id != f.id implies r.contains(
            s[k],
        ) by {
            assert(k > 0);
            assert(r[k] == s[k]);
        }
    } else {
        lemma_seq_lt_connected(f.id, s[0].id);
        assert(seq_lt(s[0].id, f.id));
        assert(sorted_by_id(s.drop_first())) by {
            assert forall|i: int, j: int|
                0 <= i < j < s.drop_first().len() implies seq_lt(
                #[trigger] s.drop_first()[i].id,
                #[trigger] s.drop_first()[j].id,
            ) by {
                assert(s.drop_first()[i] == s[i + 1] && s.drop_first()[j] == s[j + 1]);
            }
        }
        lemma_insert_props(s.drop_first(), f);
        let rr = spec_insert(s.drop_first(), f);
        assert(r == seq![s[0]] + rr);
        assert forall|i: int, j: int| 0 <= i < j < r.len() implies seq_lt(
            #[trigger] r[i].id,
            #[trigger] r[j].id,
        ) by {
            if i == 0 {
                assert(r[j] == rr[j - 1]);
                if rr[j - 1] == f {
                    assert(seq_lt(s[0].id, f.id));
                } else {
                    assert(s.drop_first().contains(rr[j - 1]));
                    let m = choose|m: int|
                        0 <= m < s.drop_first().len() && #[trigger] s.drop_first()[m] == rr[j - 1];
                    assert(s[m + 1] == rr[j - 1]);
                    assert(seq_lt(s[0].id, s[m + 1].id));
                }
            } else {
                assert(r[i] == rr[i - 1] && r[j] == rr[j - 1]);
            }
        }
        assert(rr.contains(f));
        let m0 = choose|m: int| 0 <= m < rr.len() && #[trigger] rr[m] == f;
        assert(r[m0 + 1] == f);
        assert(r.contains(f));
        assert forall|k: int| 0 <= k < r.len() implies (#[trigger] r[k]) == f || s.contains(
            r[k],
        ) by {
            if k == 0 {
                assert(r[0] == s[0]);
                assert(s.contains(s[0]));
            } else {
                assert(r[k] == rr[k - 1]);
                if rr[k - 1] != f {
                    assert(s.drop_first().contains(rr[k - 1]));
                    let m = choose|m: int|
                        0 <= m < s.drop_first().len() && #[trigger] s.drop_first()[m] == rr[k - 1];
                    assert(s[m + 1] == rr[k - 1]);
                    assert(s.contains(s[m + 1]));
                }
            }
        }
        assert forall|k: int| 0 <= k < s.len() && (#[trigger] s[k]).id != f.id implies r.contains(
            s[k],
        ) by {
            if k == 0 {
                assert(r[0] == s[0]);
            } else {
                assert(s.drop_first()[k - 1] == s[k]);
                assert(rr.contains(s[k]));
                let m = choose|m: int| 0 <= m < rr.len() && #[trigger] rr[m] == s[k];
                assert(r[m + 1] == s[k]);
            }
        }
        assert(s[0].id != f.id);
        assert(spec_lookup(s, f.id) == spec_lookup(s.drop_first(), f.id));
    }
}

/// Removal keeps order and touches only the record under `id`.
pub proof fn lemma_remove_props(s: Seq<ForwardView>, id: Seq<char>)
    requires
        sorted_by_id(s),
    ensures
        sorted_by_id(spec_remove_id(s, id)),
        forall|k: int|
            0 <= k < spec_remove_id(s, id).len() ==> s.contains(
                #[trigger] spec_remove_id(s, id)[k],
            ),
        forall|k: int|
            0 <= k < s.len() && (#[trigger] s[k]).id != id ==> spec_remove_id(s, id).contains(
                s[k],
            ),
        spec_lookup(s, id) is Some ==> spec_remove_id(s, id).len() == s.len() - 1,
        spec_lookup(s, id) is None ==> spec_remove_id(s, id) == s,
    decreases s.len(),
{
    let r = spec_remove_id(s, id);
    if s.len() == 0 {
    } else if s[0].id == id {
        assert(r == s.drop_first());
        assert forall|i: int, j: int| 0 <= i < j < r.len() implies seq_lt(
            #[trigger] r[i].id,
            #[trigger] r[j].id,
        ) by {
            assert(r[i] == s[i + 1] && r[j] == s[j + 1]);
        }
        assert forall|k: int| 0 <= k < r.len() implies s.contains(#[trigger] r[k]) by {
            assert(r[k] == s[k + 1]);
            assert(s.contains(s[k + 1]));
        }
        assert forall|k: int| 0 <= k < s.len() && (#[trigger] s[k]).id != id implies r.contains(
            s[k],
        ) by {
            assert(k > 0);
            assert(r[k - 1] == s[k]);
        }
    } else {
        assert(sorted_by_id(s.drop_first())) by {
            assert forall|i: int, j: int|
                0 <= i < j < s.drop_first().len() implies seq_lt(
                #[trigger] s.drop_first()[i].id,
                #[trigger] s.drop_first()[j].id,
            ) by {
                assert(s.drop_first()[i] == s[i + 1] && s.drop_first()[j] == s[j + 1]);
            }
        }
        lemma_remove_props(s.drop_first(), id);
        let rr = spec_remove_id(s.drop_first(), id);
        assert(r == seq![s[0]] + rr);
        assert forall|i: int, j: int| 0 <= i < j < r.len() implies seq_lt(
            #[trigger] r[i].id,
            #[trigger] r[j].id,
        ) by {
            if i == 0 {
                assert(r[j] == rr[j - 1]);
                assert(s.drop_first().contains(rr[j - 1]));
                let m = choose|m: int|
                    0 <= m < s.drop_first().len() && #[trigger] s.drop_first()[m] == rr[j - 1];
                assert(s[m + 1] == rr[j - 1]);
                assert(seq_lt(s[0].id, s[m + 1].id));
            } else {
                assert(r[i] == rr[i - 1] && r[j] == rr[j - 1]);
            }
        }
        assert forall|k: int| 0 <= k < r.len() implies s.contains(#[trigger] r[k]) by {
            if k == 0 {
                assert(r[0] == s[0]);
                assert(s.contains(s[0]));
            } else {
                assert(r[k] == rr[k - 1]);
                assert(s.drop_first().contains(rr[k - 1]));
                let m = choose|m: int|
                    0 <= m < s.drop_first().len() && #[trigger] s.drop_first()[m] == rr[k - 1];
                assert(s[m + 1] == rr[k - 1]);
                assert(s.contains(s[m + 1]));
            }
        }
        assert forall|k: int| 0 <= k < s.len() && (#[trigger] s[k]).id != id implies r.contains(
            s[k],
        ) by {
            if k == 0 {
                assert(r[0] == s[0]);
            } else {
                assert(s.drop_first()[k - 1] == s[k]);
                assert(rr.contains(s[k]));
                let m = choose|m: int| 0 <= m < rr.len() && #[trigger] rr[m] == s[k];
                assert(r[m + 1] == s[k]);
            }
        }
        assert(spec_lookup(s, id) == spec_lookup(s.drop_first(), id));
    }
}

impl Config {
    /// Every stored record obeys the identity rule, and the vector is
    /// strictly sorted by id.
    pub open spec fn wf(self) -> bool {
        &&& sorted_by_id(self@)
        &&& forall|i: int| 0 <= i < self@.len() ==> wf_forward(#[trigger] self@[i])
    }

    /// An empty registry.
    pub fn new() -> (r: Config)
        ensures
            r@ == Seq::<ForwardView>::empty(),
            r.wf(),
    {
        let r = Config { forwards: Vec::new() };
        proof {
            assert(r@ =~= Seq::<ForwardView>::empty());
        }
        r
    }

    /// How many forwards are registered.
    pub fn len(&self) -> (n: usize)
        ensures
            n == self@.len(),
    {
        self.forwards.len()
    }

    /// The first position whose id is not below `id`.
    fn lower_bound(&self, id: &str) -> (i: usize)
        ensures
            i <= self@.len(),
            forall|k: int| 0 <= k < i ==> seq_lt(#[trigger] self@[k].id, id@),
            i < self@.len() ==> !seq_lt(self@[i as int].id, id@),
    {
        let mut i: usize = 0;
        while i < self.forwards.len()
            invariant
                i <= self@.len(),
                forall|k: int| 0 <= k < i ==> seq_lt(#[trigger] self@[k].id, id@),
            decreases self@.len() - i,
        {
            if !str_lt(self.forwards[i].id.as_str(), id) {
                return i;
            }
            i = i + 1;
        }
        i
    }

    /// Upserts a record by id; an existing record under the same id is
    /// replaced, last write wins.
    pub fn add_forward(&mut self, forward: PortForward)
        requires
            old(self).wf(),
            wf_forward(forward@),
        ensures
            final(self).wf(),
            final(self)@ == spec_insert(old(self)@, forward@),
    {
        proof {
            lemma_insert_props(old(self)@, forward@);
        }
        let i = self.lower_bound(forward.id.as_str());
        let n = self.forwards.len();
        if i < n && str_eq(self.forwards[i].id.as_str(), forward.id.as_str()) {
            proof {
                lemma_insert_at(self@, forward@, i as int);
            }
            self.forwards.set(i, forward);
            proof {
                assert(final(self)@ =~= old(self)@.update(i as int, forward@));
            }
        } else {
            proof {
                if i < n {
                    lemma_seq_lt_connected(forward@.id, self@[i as int].id);
                }
                lemma_insert_at(self@, forward@, i as int);
            }
            self.forwards.insert(i, forward);
            proof {
                assert(final(self)@ =~= old(self)@.take(i as int) + seq![forward@] + old(
                    self,
                )@.skip(i as int));
            }
        }
    }

    /// Removes and returns the record under `id`; a miss changes
    /// nothing and returns nothing.
    pub fn remove_forward(&mut self, id: &str) -> (r: Option<PortForward>)
        requires
            old(self).wf(),
        ensures
            final(self).wf(),
            final(self)@ == spec_remove_id(old(self)@, id@),
            match r {
                Some(f) => spec_lookup(old(self)@, id@) == Some(f@),
                None => spec_lookup(old(self)@, id@) is None && final(self)@ == old(self)@,
            },
    {
        proof {
            lemma_remove_props(old(self)@, id@);
        }
        let mut i: usize = 0;
        while i < self.forwards.len()
            invariant
                *self == *old(self),
                old(self).wf(),
                i <= self@.len(),
                forall|k: int| 0 <= k < i ==> (#[trigger] self@[k].id) != id@,
            decreases self@.len() - i,
        {
            if str_eq(self.forwards[i].id.as_str(), id) {
                proof {
                    lemma_lookup_at(self@, id@, i as int);
                }
                let f = self.forwards.remove(i);
                proof {
                    assert(final(self)@ =~= old(self)@.remove(i as int));
                }
                return Some(f);
            }
            i = i + 1;
        }
        proof {
            lemma_lookup_none(self@, id@);
        }
        None
    }

    /// The records in ascending id order; the position of a record here
    /// is its user-visible index.
    pub fn get_sorted_forwards(&self) -> (r: Vec<PortForward>)
        ensures
            views_of(r@) == self@,
    {
        let mut r: Vec<PortForward> = Vec::new();
        let mut i: usize = 0;
        proof {
            assert(views_of(r@) =~= self@.take(0));
        }
        while i < self.forwards.len()
            invariant
                i <= self@.len(),
                views_of(r@) == self@.take(i as int),
            decreases self@.len() - i,
        {
            let ghost prev = r@;
            r.push(self.forwards[i].clone());
            i = i + 1;
            proof {
                lemma_views_of(r@);
                lemma_views_of(prev);
                lemma_views_of(self.forwards@);
                let m = views_of(r@);
                assert(m.len() == i);
                assert forall|k: int| 0 <= k < m.len() implies #[trigger] m[k] == self@.take(
                    i as int,
                )[k] by {
                    if k < prev.len() {
                        assert(views_of(prev)[k] == self@.take(i as int - 1)[k]);
                        assert(r@[k] == prev[k]);
                    } else {
                        assert(m[k] == r@[k]@);
                        assert(r@[k]@ == self.forwards@[i as int - 1]@);
                        assert(self@[i as int - 1] == self.forwards@[i as int - 1]@);
                    }
                }
                assert(views_of(r@) =~= self@.take(i as int));
            }
        }
        proof {
            assert(self@.take(i as int) =~= self@);
        }
        r
    }

    /// The record at position `index` of the sorted view, if any.
    pub fn get_forward_by_index(&self, index: usize) -> (r: Option<&PortForward>)
        ensures
            match r {
                Some(f) => index < self@.len() && f@ == self@[index as int],
                None => index >= self@.len(),
            },
    {
        if index < self.forwards.len() {
            Some(&self.forwards[index])
        } else {
            None
        }
    }

    /// Drops every record whose recorded pid the probe reports dead;
    /// records without a pid stay. Returns the dropped records.
    pub fn cleanup<F: Fn(u32) -> bool>(&mut self, is_running: &F) -> (removed: Vec<PortForward>)
        requires
            old(self).wf(),
            forall|p: u32| call_requires(*is_running, (p,)),
        ensures
            final(self).wf(),
            final(self)@.len() + removed@.len() == old(self)@.len(),
            forall|k: int|
                0 <= k < final(self)@.len() ==> old(self)@.contains(#[trigger] final(self)@[k]),
            forall|k: int|
                0 <= k < final(self)@.len() ==> match (#[trigger] final(self)@[k]).pid {
                    Some(p) => call_ensures(*is_running, (p,), true),
                    None => true,
                },
            forall|k: int|
                0 <= k < removed@.len() ==> old(self)@.contains(
                    (#[trigger] removed@[k])@,
                ) && match removed@[k]@.pid {
                    Some(p) => call_ensures(*is_running, (p,), false),
                    None => false,
                },
            forall|k: int|
                0 <= k < old(self)@.len() ==> final(self)@.contains(#[trigger] old(self)@[k])
                    || views_of(removed@).contains(old(self)@[k]),
    {
        let n = self.forwards.len();
        let mut kept: Vec<PortForward> = Vec::new();
        let mut removed: Vec<PortForward> = Vec::new();
        let mut i: usize = 0;
        while i < n
            invariant
                *self == *old(self),
                old(self).wf(),
                n == self@.len(),
                i <= n,
                forall|p: u32| call_requires(*is_running, (p,)),
                kept@.len() + removed@.len() == i,
                forall|a: int|
                    0 <= a < kept@.len() ==> self@.take(i as int).contains(
                        (#[trigger] kept@[a])@,
                    ),
                forall|a: int, b: int|
                    0 <= a < b < kept@.len() ==> seq_lt(kept@[a]@.id, kept@[b]@.id),
                forall|a: int|
                    0 <= a < kept@.len() ==> match (#[trigger] kept@[a])@.pid {
                        Some(p) => call_ensures(*is_running, (p,), true),
                        None => true,
                    },
                forall|a: int|
                    0 <= a < removed@.len() ==> self@.take(i as int).contains(
                        (#[trigger] removed@[a])@,
                    ) && match removed@[a]@.pid {
                        Some(p) => call_ensures(*is_running, (p,), false),
                        None => false,
                    },
                forall|k: int|
                    0 <= k < i ==> views_of(kept@).contains(
                        #[trigger] self@[k],
                    ) || views_of(removed@).contains(self@[k]),
            decreases n - i,
        {
            let f = self.forwards[i].clone();
            let ghost prev_kept = kept@;
            let ghost prev_removed = removed@;
            let mut dead = false;
            if let Some(p) = f.pid {
                if !is_running(p) {
                    dead = true;
                }
            }
            if dead {
                removed.push(f);
            } else {
                proof {
                    assert forall|a: int| 0 <= a < prev_kept.len() implies seq_lt(
                        prev_kept[a]@.id,
                        self@[i as int].id,
                    ) by {
                        assert(self@.take(i as int).contains(prev_kept[a]@));
                        let m = choose|m: int|
                            0 <= m < i && #[trigger] self@.take(i as int)[m] == prev_kept[a]@;
                        assert(self@[m] == prev_kept[a]@);
                        assert(seq_lt(self@[m].id, self@[i as int].id));
                    }
                }
                kept.push(f);
            }
            i = i + 1;
            proof {
                assert forall|a: int|
                    0 <= a < kept@.len() implies self@.take(i as int).contains(
                    (#[trigger] kept@[a])@,
                ) by {
                    if a < prev_kept.len() {
                        assert(self@.take(i as int - 1).contains(kept@[a]@));
                        let m = choose|m: int|
                            0 <= m < i - 1 && #[trigger] self@.take(i as int - 1)[m] == kept@[a]@;
                        assert(self@.take(i as int)[m] == kept@[a]@);
                    } else {
                        assert(kept@[a]@ == self@[i as int - 1]);
                        assert(self@.take(i as int)[i as int - 1] == self@[i as int - 1]);
                    }
                }
                assert forall|a: int|
                    0 <= a < removed@.len() implies self@.take(i as int).contains(
                    (#[trigger] removed@[a])@,
                ) by {
                    if a < prev_removed.len() {
                        assert(self@.take(i as int - 1).contains(removed@[a]@));
                        let m = choose|m: int|
                            0 <= m < i - 1 && #[trigger] self@.take(i as int - 1)[m] == removed@[a]@;
                        assert(self@.take(i as int)[m] == removed@[a]@);
                    } else {
                        assert(removed@[a]@ == self@[i as int - 1]);
                        assert(self@.take(i as int)[i as int - 1] == self@[i as int - 1]);
                    }
                }
                assert forall|k: int|
                    0 <= k < i implies views_of(kept@).contains(
                    #[trigger] self@[k],
                ) || views_of(removed@).contains(self@[k]) by {
                    let kv = views_of(kept@);
                    let rv = views_of(removed@);
                    let pkv = views_of(prev_kept);
                    let prv = views_of(prev_removed);
                    if k < i - 1 {
                        if pkv.contains(self@[k]) {
                            let m = choose|m: int| 0 <= m < pkv.len() && #[trigger] pkv[m] == self@[k];
                            assert(kv[m] == self@[k]);
                        } else {
                            assert(prv.contains(self@[k]));
                            let m = choose|m: int| 0 <= m < prv.len() && #[trigger] prv[m] == self@[k];
                            assert(rv[m] == self@[k]);
                        }
                    } else {
                        if dead {
                            assert(rv[rv.len() - 1] == self@[k]);
                        } else {
                            assert(kv[kv.len() - 1] == self@[k]);
                        }
                    }
                }
            }
        }
        proof {
            assert(self@.take(i as int) =~= self@);
        }
        self.forwards = kept;
        proof {
            assert forall|k: int| 0 <= k < final(self)@.len() implies wf_forward(
                #[trigger] final(self)@[k],
            ) by {
                assert(old(self)@.contains(final(self)@[k]));
                let m = choose|m: int|
                    0 <= m < old(self)@.len() && #[trigger] old(self)@[m] == final(self)@[k];
                assert(wf_forward(old(self)@[m]));
            }
        }
        removed
    }
}

/// Where `f` lands in a sorted registry: position `i`, found by the
/// first id not below `f.id`.
pub proof fn lemma_insert_at(s: Seq<ForwardView>, f: ForwardView, i: int)
    requires
        sorted_by_id(s),
        0 <= i <= s.len(),
        forall|k: int| 0 <= k < i ==> seq_lt(#[trigger] s[k].id, f.id),
        i < s.len() ==> !seq_lt(s[i].id, f.id),
    ensures
        i < s.len() && s[i].id == f.id ==> spec_insert(s, f) == s.update(i, f),
        !(i < s.len() && s[i].id == f.id) ==> spec_insert(s, f) == s.take(i) + seq![f] + s.skip(i),
    decreases i,
{
    if i == 0 {
        if s.len() == 0 {
            assert(spec_insert(s, f) =~= s.take(0) + seq![f] + s.skip(0));
        } else if s[0].id == f.id {
            assert(spec_insert(s, f) == seq![f] + s.drop_first());
            assert(seq![f] + s.drop_first() =~= s.update(0, f));
        } else {
            lemma_seq_lt_connected(f.id, s[0].id);
            assert(seq_lt(f.id, s[0].id));
            assert(spec_insert(s, f) == seq![f] + s);
            assert(seq![f] + s =~= s.take(0) + seq![f] + s.skip(0));
        }
    } else {
        assert(seq_lt(s[0].id, f.id));
        lemma_seq_lt_connected(f.id, s[0].id);
        assert(!seq_lt(f.id, s[0].id) && f.id != s[0].id);
        assert(spec_insert(s, f) == seq![s[0]] + spec_insert(s.drop_first(), f));
        assert(sorted_by_id(s.drop_first())) by {
            assert forall|a: int, b: int|
                0 <= a < b < s.drop_first().len() implies seq_lt(
                #[trigger] s.drop_first()[a].id,
                #[trigger] s.drop_first()[b].id,
            ) by {
                assert(s.drop_first()[a] == s[a + 1] && s.drop_first()[b] == s[b + 1]);
            }
        }
        assert forall|k: int| 0 <= k < i - 1 implies seq_lt(
            #[trigger] s.drop_first()[k].id,
            f.id,
        ) by {
            assert(s.drop_first()[k] == s[k + 1]);
        }
        assert(i - 1 < s.drop_first().len() ==> !seq_lt(s.drop_first()[i - 1].id, f.id));
        lemma_insert_at(s.drop_first(), f, i - 1);
        if i < s.len() && s[i].id == f.id {
            assert(s.drop_first()[i - 1] == s[i]);
            assert(seq![s[0]] + s.drop_first().update(i - 1, f) =~= s.update(i, f));
        } else {
            assert(seq![s[0]] + (s.drop_first().take(i - 1) + seq![f] + s.drop_first().skip(i - 1))
                =~= s.take(i) + seq![f] + s.skip(i));
        }
    }
}

} // verus!
