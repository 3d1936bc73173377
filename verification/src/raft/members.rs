//! Member lists: sorted sets of node ids, and single-server changes of them.

use vstd::prelude::*;
use crate::raft::message::ConfChange;

verus! {

/// `x` in its place in an ascending list, once.
pub open spec fn insert_id(s: Seq<u64>, x: u64) -> Seq<u64>
    decreases s.len(),
{
    if s.len() == 0 || s.last() < x {
        s.push(x)
    } else if s.last() == x {
        s
    } else {
        insert_id(s.drop_last(), x).push(s.last())
    }
}

/// The ids of a list, ascending, each once.
pub open spec fn sorted_ids(s: Seq<u64>) -> Seq<u64>
    decreases s.len(),
{
    if s.len() == 0 {
        Seq::empty()
    } else {
        insert_id(sorted_ids(s.drop_last()), s.last())
    }
}

/// Whether the ids ascend strictly.
pub open spec fn ascending(s: Seq<u64>) -> bool {
    forall|i: int, j: int| 0 <= i < j < s.len() ==> #[trigger] s[i] < #[trigger] s[j]
}

/// The list without `id`.
pub open spec fn without(s: Seq<u64>, id: u64) -> Seq<u64>
    decreases s.len(),
{
    if s.len() == 0 {
        Seq::empty()
    } else if s.last() == id {
        without(s.drop_last(), id)
    } else {
        without(s.drop_last(), id).push(s.last())
    }
}

pub proof fn lemma_insert_id(s: Seq<u64>, x: u64)
    requires
        ascending(s),
    ensures
        ascending(insert_id(s, x)),
        forall|y: u64| #[trigger] insert_id(s, x).contains(y) <==> (s.contains(y) || y == x),
    decreases s.len(),
{
    let r = insert_id(s, x);
    if s.len() == 0 || s.last() < x {
        assert(r[r.len() - 1] == x);
        assert forall|y: u64| #[trigger] r.contains(y) <==> (s.contains(y) || y == x) by {
            if s.contains(y) {
                let i = choose|i: int| 0 <= i < s.len() && s[i] == y;
                assert(r[i] == y);
            }
        }
    } else if s.last() == x {
        assert(s[s.len() - 1] == x);
    } else {
        let d = s.drop_last();
        lemma_insert_id(d, x);
        let p = insert_id(d, x);
        assert forall|i: int, j: int| 0 <= i < j < r.len() implies #[trigger] r[i]
            < #[trigger] r[j] by {
            if j == r.len() - 1 {
                assert(p.contains(p[i]));
                if d.contains(p[i]) {
                    let k = choose|k: int| 0 <= k < d.len() && d[k] == p[i];
                    assert(s[k] < s[s.len() - 1]);
                }
            }
        }
        assert forall|y: u64| #[trigger] r.contains(y) <==> (s.contains(y) || y == x) by {
            if r.contains(y) {
                let i = choose|i: int| 0 <= i < r.len() && r[i] == y;
                if i < p.len() {
                    assert(p.contains(y));
                    if d.contains(y) {
                        let k = choose|k: int| 0 <= k < d.len() && d[k] == y;
                        assert(s[k] == y);
                    }
                } else {
                    assert(s[s.len() - 1] == y);
                }
            }
            if s.contains(y) {
                let k = choose|k: int| 0 <= k < s.len() && s[k] == y;
                if k < d.len() {
                    assert(d[k] == y);
                    assert(p.contains(y));
                    let i = choose|i: int| 0 <= i < p.len() && p[i] == y;
                    assert(r[i] == y);
                } else {
                    assert(r[r.len() - 1] == y);
                }
            }
            if y == x {
                assert(p.contains(y));
                let i = choose|i: int| 0 <= i < p.len() && p[i] == y;
                assert(r[i] == y);
            }
        }
    }
}

/// The sorted ids are the same ids, ascending.
pub proof fn lemma_sorted_ids(s: Seq<u64>)
    ensures
        ascending(sorted_ids(s)),
        forall|y: u64| #[trigger] sorted_ids(s).contains(y) <==> s.contains(y),
    decreases s.len(),
{
    if s.len() > 0 {
        let d = s.drop_last();
        lemma_sorted_ids(d);
        lemma_insert_id(sorted_ids(d), s.last());
        assert forall|y: u64| #[trigger] sorted_ids(s).contains(y) <==> s.contains(y) by {
            if s.contains(y) {
                let i = choose|i: int| 0 <= i < s.len() && s[i] == y;
                if i < d.len() {
                    assert(d[i] == y);
                }
            }
            if d.contains(y) {
                let i = choose|i: int| 0 <= i < d.len() && d[i] == y;
                assert(s[i] == y);
            }
            assert(s[s.len() - 1] == s.last());
        }
    }
}

/// Sorting what is sorted changes nothing.
pub proof fn lemma_sorted_already(s: Seq<u64>)
    requires
        ascending(s),
    ensures
        sorted_ids(s) == s,
    decreases s.len(),
{
    if s.len() > 0 {
        let d = s.drop_last();
        assert forall|i: int, j: int| 0 <= i < j < d.len() implies #[trigger] d[i]
            < #[trigger] d[j] by {
            assert(s[i] < s[j]);
        }
        lemma_sorted_already(d);
        if d.len() > 0 {
            assert(s[s.len() - 2] < s[s.len() - 1]);
        }
        assert(d.push(s.last()) =~= s);
    } else {
        assert(s =~= Seq::<u64>::empty());
    }
}

/// What is left without `id`.
pub proof fn lemma_without(s: Seq<u64>, id: u64)
    ensures
        forall|y: u64| #[trigger] without(s, id).contains(y) <==> (s.contains(y) && y != id),
        ascending(s) ==> ascending(without(s, id)),
        without(s, id).len() <= s.len(),
    decreases s.len(),
{
    if s.len() > 0 {
        let d = s.drop_last();
        let r = without(s, id);
        let p = without(d, id);
        lemma_without(d, id);
        assert forall|y: u64| #[trigger] r.contains(y) <==> (s.contains(y) && y != id) by {
            if s.contains(y) && y != id {
                let k = choose|k: int| 0 <= k < s.len() && s[k] == y;
                if k < d.len() {
                    assert(d[k] == y);
                    assert(p.contains(y));
                    let i = choose|i: int| 0 <= i < p.len() && p[i] == y;
                    assert(r[i] == y);
                } else {
                    assert(r[r.len() - 1] == y);
                }
            }
            if r.contains(y) {
                let i = choose|i: int| 0 <= i < r.len() && r[i] == y;
                if i < p.len() {
                    assert(p[i] == y);
                    assert(p.contains(y));
                    let k = choose|k: int| 0 <= k < d.len() && d[k] == y;
                    assert(s[k] == y);
                } else {
                    assert(s[s.len() - 1] == y);
                }
            }
        }
        if ascending(s) {
            assert forall|i: int, j: int| 0 <= i < j < d.len() implies #[trigger] d[i]
                < #[trigger] d[j] by {
                assert(s[i] < s[j]);
            }
            if s.last() != id {
                assert forall|i: int, j: int| 0 <= i < j < r.len() implies #[trigger] r[i]
                    < #[trigger] r[j] by {
                    if j == r.len() - 1 {
                        assert(p.contains(p[i]));
                        let k = choose|k: int| 0 <= k < d.len() && d[k] == p[i];
                        assert(s[k] < s[s.len() - 1]);
                    }
                }
            }
        }
    }
}

/// Whether `id` is in the list.
pub fn has_id(s: &Vec<u64>, id: u64) -> (r: bool)
    ensures
        r == s@.contains(id),
{
    let mut i: usize = 0;
    while i < s.len()
        invariant
            0 <= i <= s@.len(),
            forall|j: int| 0 <= j < i ==> s@[j] != id,
        decreases s@.len() - i,
    {
        if s[i] == id {
            return true;
        }
        i = i + 1;
    }
    false
}

proof fn lemma_insert_at(s: Seq<u64>, x: u64, k: int)
    requires
        0 <= k <= s.len(),
        forall|j: int| k <= j < s.len() ==> #[trigger] s[j] > x,
        k == 0 || s[k - 1] <= x,
    ensures
        insert_id(s, x) == if k > 0 && s[k - 1] == x {
            s
        } else {
            s.insert(k, x)
        },
    decreases s.len() - k,
{
    if k == s.len() {
        if !(k > 0 && s[k - 1] == x) {
            assert(s.insert(k, x) =~= s.push(x));
        }
    } else {
        let d = s.drop_last();
        assert forall|j: int| k <= j < d.len() implies #[trigger] d[j] > x by {
            assert(s[j] > x);
        }
        assert(s[s.len() - 1] > x);
        lemma_insert_at(d, x, k);
        if k > 0 && s[k - 1] == x {
            assert(d.push(s.last()) =~= s);
        } else {
            assert(s.insert(k, x) =~= d.insert(k, x).push(s.last()));
        }
    }
}

/// Put `x` in its place in an ascending list, once.
pub fn add_sorted(s: &mut Vec<u64>, x: u64)
    ensures
        final(s)@ == insert_id(old(s)@, x),
{
    let mut k: usize = s.len();
    while k > 0 && s[k - 1] > x
        invariant
            0 <= k <= s@.len(),
            s@ == old(s)@,
            forall|j: int| k <= j < s@.len() ==> #[trigger] s@[j] > x,
        decreases k,
    {
        k = k - 1;
    }
    proof {
        lemma_insert_at(s@, x, k as int);
    }
    if k > 0 && s[k - 1] == x {
        return ;
    }
    s.insert(k, x);
}

/// The ids of a list, ascending, each once.
pub fn sort_ids(s: &Vec<u64>) -> (r: Vec<u64>)
    ensures
        r@ == sorted_ids(s@),
{
    let mut out: Vec<u64> = Vec::new();
    let mut i: usize = 0;
    assert(s@.take(0) =~= Seq::<u64>::empty());
    while i < s.len()
        invariant
            0 <= i <= s@.len(),
            out@ == sorted_ids(s@.take(i as int)),
        decreases s@.len() - i,
    {
        assert(s@.take(i + 1).drop_last() =~= s@.take(i as int));
        add_sorted(&mut out, s[i]);
        i = i + 1;
    }
    assert(s@.take(i as int) =~= s@);
    out
}

/// A copy of the list without `id`.
pub fn drop_id(s: &Vec<u64>, id: u64) -> (r: Vec<u64>)
    ensures
        r@ == without(s@, id),
{
    let mut out: Vec<u64> = Vec::new();
    let mut i: usize = 0;
    assert(s@.take(0) =~= Seq::<u64>::empty());
    while i < s.len()
        invariant
            0 <= i <= s@.len(),
            out@ == without(s@.take(i as int), id),
        decreases s@.len() - i,
    {
        assert(s@.take(i + 1).drop_last() =~= s@.take(i as int));
        if s[i] != id {
            out.push(s[i]);
        }
        i = i + 1;
    }
    assert(s@.take(i as int) =~= s@);
    out
}

/// The members of a group: those that vote and those that only receive.
#[verifier::ext_equal]
pub struct MembersView {
    pub voters: Seq<u64>,
    pub learners: Seq<u64>,
}

impl MembersView {
    /// Both lists ascending, each id once.
    pub open spec fn sorted(self) -> MembersView {
        MembersView { voters: sorted_ids(self.voters), learners: sorted_ids(self.learners) }
    }

    /// The membership after one change.
    pub open spec fn change(self, cc: ConfChange) -> MembersView {
        match cc {
            ConfChange::AddNode(id) => MembersView {
                voters: if self.voters.contains(id) {
                    self.voters
                } else {
                    self.voters.push(id)
                },
                learners: without(self.learners, id),
            },
            ConfChange::RemoveNode(id) => MembersView {
                voters: without(self.voters, id),
                learners: without(self.learners, id),
            },
            ConfChange::AddLearner(id) => MembersView {
                voters: self.voters,
                learners: if self.voters.contains(id) || self.learners.contains(id) {
                    self.learners
                } else {
                    self.learners.push(id)
                },
            },
        }
    }
}

/// Fold one membership change into the voters and learners.
pub fn apply_conf_change(voters: &Vec<u64>, learners: &Vec<u64>, cc: ConfChange) -> (r: (
    Vec<u64>,
    Vec<u64>,
))
    ensures
        (MembersView { voters: r.0@, learners: r.1@ }) == (MembersView {
            voters: voters@,
            learners: learners@,
        }).change(cc),
{
    match cc {
        ConfChange::AddNode(id) => {
            let mut vs: Vec<u64> = voters.clone();
            if !has_id(voters, id) {
                vs.push(id);
            }
            (vs, drop_id(learners, id))
        },
        ConfChange::RemoveNode(id) => (drop_id(voters, id), drop_id(learners, id)),
        ConfChange::AddLearner(id) => {
            let mut ls: Vec<u64> = learners.clone();
            if !has_id(voters, id) && !has_id(learners, id) {
                ls.push(id);
            }
            (voters.clone(), ls)
        },
    }
}

} // verus!
