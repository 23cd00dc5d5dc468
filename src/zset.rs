use vstd::prelude::*;

use crate::score::Score;
use core::cmp::Ordering;
use dashmap::DashMap;

verus! {

#[verifier::external_type_specification]
#[verifier::external_body]
#[verifier::reject_recursive_types(K)]
#[verifier::reject_recursive_types(V)]
#[verifier::reject_recursive_types(S)]
pub struct ExDashMap<K, V, S>(DashMap<K, V, S>);

/// The only way adding to a sorted set can fail.
#[derive(Clone, Copy, Debug, PartialEq, Eq, Structural)]
pub enum StoreError {
    /// The score was NaN.
    InvalidScore,
}

/// A member together with its score: one entry of the reverse index, and one
/// item of a range answer.
#[derive(Debug)]
pub struct ScoreValue {
    pub score: Score,
    pub value: String,
}

/// Lexicographic order on members, by code point.
pub open spec fn member_lt(a: Seq<char>, b: Seq<char>) -> bool
    decreases a.len(),
{
    if a.len() == 0 {
        b.len() > 0
    } else if b.len() == 0 {
        false
    } else if a[0] != b[0] {
        a[0] < b[0]
    } else {
        member_lt(a.drop_first(), b.drop_first())
    }
}

/// The order of the reverse index: by rank of the score, then by member.
pub open spec fn key_lt(a: (int, Seq<char>), b: (int, Seq<char>)) -> bool {
    a.0 < b.0 || (a.0 == b.0 && member_lt(a.1, b.1))
}

/// The place of an entry in the order of the reverse index.
pub open spec fn key_of(e: ScoreValue) -> (int, Seq<char>) {
    (e.score.rank(), e.value@)
}

/// Strictly ascending by score, ties broken by member.
pub open spec fn sorted(s: Seq<ScoreValue>) -> bool {
    forall|i: int, j: int| 0 <= i < j < s.len() ==> key_lt(key_of(#[trigger] s[i]), key_of(#[trigger] s[j]))
}

/// No member comes before itself.
pub proof fn lemma_member_lt_irreflexive(a: Seq<char>)
    ensures
        !member_lt(a, a),
    decreases a.len(),
{
    if a.len() > 0 {
        lemma_member_lt_irreflexive(a.drop_first());
    }
}

/// The member order is transitive.
pub proof fn lemma_member_lt_transitive(a: Seq<char>, b: Seq<char>, c: Seq<char>)
    requires
        member_lt(a, b),
        member_lt(b, c),
    ensures
        member_lt(a, c),
    decreases a.len(),
{
    if a.len() > 0 && b.len() > 0 && c.len() > 0 && a[0] == b[0] && b[0] == c[0] {
        lemma_member_lt_transitive(a.drop_first(), b.drop_first(), c.drop_first());
    }
}

/// Of two different members, one comes first.
pub proof fn lemma_member_lt_total(a: Seq<char>, b: Seq<char>)
    requires
        a != b,
    ensures
        member_lt(a, b) || member_lt(b, a),
    decreases a.len(),
{
    if a.len() > 0 && b.len() > 0 && a[0] == b[0] {
        if a.drop_first() == b.drop_first() {
            assert(a =~= seq![a[0]] + a.drop_first());
            assert(b =~= seq![b[0]] + b.drop_first());
        } else {
            lemma_member_lt_total(a.drop_first(), b.drop_first());
        }
    } else if a.len() > 0 && b.len() > 0 {
        assert(a[0] != b[0]);
    } else if a.len() == 0 && b.len() == 0 {
        assert(a =~= b);
    }
}

/// The order of the reverse index is transitive.
pub proof fn lemma_key_lt_transitive(a: (int, Seq<char>), b: (int, Seq<char>), c: (int, Seq<char>))
    requires
        key_lt(a, b),
        key_lt(b, c),
    ensures
        key_lt(a, c),
{
    if a.0 == b.0 && b.0 == c.0 {
        lemma_member_lt_transitive(a.1, b.1, c.1);
    }
}

/// No pair comes before itself.
pub proof fn lemma_key_lt_irreflexive(a: (int, Seq<char>))
    ensures
        !key_lt(a, a),
{
    lemma_member_lt_irreflexive(a.1);
}

/// Of two different pairs, one comes first.
pub proof fn lemma_key_lt_total(a: (int, Seq<char>), b: (int, Seq<char>))
    requires
        a != b,
    ensures
        key_lt(a, b) || key_lt(b, a),
{
    if a.0 == b.0 {
        lemma_member_lt_total(a.1, b.1);
    }
}

/// What a forward index holds: member to score bits.
pub uninterp spec fn member_scores(m: DashMap<String, u64>) -> Map<Seq<char>, u64>;

/// Relies on `DashMap::new`: a map with no entries.
#[verifier::external_body]
fn scores_new() -> (r: DashMap<String, u64>)
    ensures
        member_scores(r).dom().len() == 0 && member_scores(r).dom().finite(),
{
    DashMap::new()
}

/// Relies on `DashMap::get`: the value stored under the key, if there is one.
#[verifier::external_body]
fn scores_get(m: &DashMap<String, u64>, k: &str) -> (r: Option<u64>)
    ensures
        r == (if member_scores(*m).contains_key(k@) {
            Some(member_scores(*m)[k@])
        } else {
            None::<u64>
        }),
{
    m.get(k).map(|e| *e.value())
}

/// Relies on `DashMap::insert`: the key maps to the value afterwards, and
/// the other entries stay.
#[verifier::external_body]
fn scores_insert(m: &mut DashMap<String, u64>, k: String, v: u64)
    ensures
        member_scores(*final(m)) == member_scores(*old(m)).insert(k@, v),
{
    m.insert(k, v);
}

/// Relies on `DashMap::remove`: the entry of the key is gone afterwards, and
/// the other entries stay.
#[verifier::external_body]
fn scores_remove(m: &mut DashMap<String, u64>, k: &str)
    ensures
        member_scores(*final(m)) == member_scores(*old(m)).remove(k@),
{
    m.remove(k);
}

/// Relies on `Ord for str`: strings compare lexicographically by their
/// bytes, which in UTF-8 is the order of their code points.
#[verifier::external_body]
fn compare_members(a: &str, b: &str) -> (r: Ordering)
    ensures
        (r == Ordering::Less) == member_lt(a@, b@),
        (r == Ordering::Equal) == (a@ == b@),
        (r == Ordering::Greater) == member_lt(b@, a@),
{
    a.cmp(b)
}

/// `r` answers a range query on the members `m` with bounds `[min, max]`:
/// it is in ascending order, holds only members of `m` with their scores
/// and within the bounds, and holds every such member.
pub open spec fn is_range_of(m: Map<Seq<char>, u64>, min: Score, max: Score, r: Seq<ScoreValue>) -> bool {
    &&& sorted(r)
    &&& forall|i: int|
        0 <= i < r.len() ==> {
            &&& m.contains_key((#[trigger] r[i]).value@)
            &&& m[r[i].value@] == r[i].score.bits
            &&& r[i].score.within(min, max)
        }
    &&& forall|k: Seq<char>|
        #[trigger] m.contains_key(k) && (Score { bits: m[k] }).within(min, max) ==> exists|i: int|
            0 <= i < r.len() && (#[trigger] r[i]).value@ == k
}

/// A sorted set: a forward index from member to score, and a reverse index
/// of (score, member) pairs in ascending order, kept in step.
pub struct Zset {
    kv: DashMap<String, u64>,
    vk: Vec<ScoreValue>,
}

impl Zset {
    /// The members and the bits of their scores.
    pub closed spec fn view(&self) -> Map<Seq<char>, u64> {
        member_scores(self.kv)
    }

    /// Both indices hold the same pairs, and the reverse one is in order.
    pub closed spec fn wf(&self) -> bool {
        let m = member_scores(self.kv);
        &&& sorted(self.vk@)
        &&& forall|i: int|
            0 <= i < self.vk@.len() ==> {
                &&& m.contains_key((#[trigger] self.vk@[i]).value@)
                &&& m[self.vk@[i].value@] == self.vk@[i].score.bits
                &&& !self.vk@[i].score.spec_is_nan()
            }
        &&& forall|k: Seq<char>|
            #[trigger] m.contains_key(k) ==> exists|i: int|
                0 <= i < self.vk@.len() && (#[trigger] self.vk@[i]).value@ == k
    }

    /// An empty sorted set.
    pub fn new() -> (r: Zset)
        ensures
            r.wf(),
            r@ == Map::<Seq<char>, u64>::empty(),
    {
        Zset { kv: scores_new(), vk: Vec::new() }
    }

    /// The first position of the reverse index whose pair is not below
    /// `(rank, member)`.
    fn lower_bound(&self, rank: i64, member: &str) -> (r: usize)
        requires
            self.wf(),
        ensures
            r <= self.vk@.len(),
            forall|j: int| 0 <= j < r ==> key_lt(key_of(#[trigger] self.vk@[j]), (rank as int, member@)),
            forall|j: int|
                r <= j < self.vk@.len() ==> !key_lt(key_of(#[trigger] self.vk@[j]), (rank as int, member@)),
    {
        let ghost key = (rank as int, member@);
        let mut lo: usize = 0;
        let mut hi: usize = self.vk.len();
        while lo < hi
            invariant
                self.wf(),
                key == (rank as int, member@),
                lo <= hi <= self.vk@.len(),
                forall|j: int| 0 <= j < lo ==> key_lt(key_of(#[trigger] self.vk@[j]), key),
                forall|j: int| hi <= j < self.vk@.len() ==> !key_lt(key_of(#[trigger] self.vk@[j]), key),
            decreases hi - lo,
        {
            let mid: usize = lo + (hi - lo) / 2;
            let e = &self.vk[mid];
            let er = e.score.rank_of();
            let below = if er < rank {
                true
            } else if er > rank {
                false
            } else {
                match compare_members(e.value.as_str(), member) {
                    Ordering::Less => true,
                    _ => false,
                }
            };
            assert(below == key_lt(key_of(self.vk@[mid as int]), key));
            if below {
                assert forall|j: int| 0 <= j < mid + 1 implies key_lt(key_of(#[trigger] self.vk@[j]), key) by {
                    if j < mid {
                        lemma_key_lt_transitive(key_of(self.vk@[j]), key_of(self.vk@[mid as int]), key);
                    }
                }
                lo = mid + 1;
            } else {
                assert forall|j: int| mid <= j < self.vk@.len() implies !key_lt(key_of(#[trigger] self.vk@[j]), key) by {
                    if j > mid && key_lt(key_of(self.vk@[j]), key) {
                        lemma_key_lt_transitive(key_of(self.vk@[mid as int]), key_of(self.vk@[j]), key);
                    }
                }
                hi = mid;
            }
        }
        lo
    }

    /// Takes the member out of both indices; nothing changes when it is absent.
    pub fn remove(&mut self, member: &String)
        requires
            old(self).wf(),
        ensures
            final(self).wf(),
            final(self)@ == old(self)@.remove(member@),
    {
        match scores_get(&self.kv, member.as_str()) {
            None => {
                assert(self@.remove(member@) =~= self@);
            },
            Some(bits) => {
                let s = Score::from_bits(bits);
                let p = self.lower_bound(s.rank_of(), member.as_str());
                let ghost old_vk = self.vk@;
                let ghost old_m = self@;
                let ghost key = (s.rank(), member@);
                proof {
                    let i = choose|i: int| 0 <= i < old_vk.len() && (#[trigger] old_vk[i]).value@ == member@;
                    assert(key_of(old_vk[i]) == key);
                    lemma_key_lt_irreflexive(key);
                    if i > p {
                        assert(key_lt(key_of(old_vk[p as int]), key_of(old_vk[i])));
                    }
                    assert(i == p);
                    assert forall|j: int| 0 <= j < old_vk.len() && j != p implies (#[trigger] old_vk[j]).value@ != member@ by {
                        if old_vk[j].value@ == member@ {
                            assert(key_of(old_vk[j]) == key);
                            if j < p {
                                assert(key_lt(key_of(old_vk[j]), key_of(old_vk[p as int])));
                            } else {
                                assert(key_lt(key_of(old_vk[p as int]), key_of(old_vk[j])));
                            }
                        }
                    }
                }
                self.vk.remove(p);
                scores_remove(&mut self.kv, member.as_str());
                proof {
                    let nv = self.vk@;
                    let m = self@;
                    assert(nv =~= old_vk.remove(p as int));
                    assert(m == old_m.remove(member@));
                    assert forall|i: int, j: int| 0 <= i < j < nv.len() implies key_lt(key_of(#[trigger] nv[i]), key_of(#[trigger] nv[j])) by {
                        let oi = if i < p { i } else { i + 1 };
                        let oj = if j < p { j } else { j + 1 };
                        assert(nv[i] == old_vk[oi]);
                        assert(nv[j] == old_vk[oj]);
                    }
                    assert forall|i: int| 0 <= i < nv.len() implies {
                        &&& m.contains_key((#[trigger] nv[i]).value@)
                        &&& m[nv[i].value@] == nv[i].score.bits
                        &&& !nv[i].score.spec_is_nan()
                    } by {
                        let oi = if i < p { i } else { i + 1 };
                        assert(nv[i] == old_vk[oi]);
                    }
                    assert forall|k: Seq<char>| #[trigger] m.contains_key(k) implies exists|i: int|
                        0 <= i < nv.len() && (#[trigger] nv[i]).value@ == k by {
                        let oi = choose|i: int| 0 <= i < old_vk.len() && (#[trigger] old_vk[i]).value@ == k;
                        assert(oi != p);
                        let ni = if oi < p { oi } else { oi - 1 };
                        assert(nv[ni] == old_vk[oi]);
                    }
                }
            },
        }
    }

    /// Gives the member the score, replacing the score it had; a NaN score is
    /// refused and changes nothing.
    pub fn add(&mut self, member: String, score: Score) -> (r: Result<(), StoreError>)
        requires
            old(self).wf(),
        ensures
            final(self).wf(),
            r is Err <==> score.spec_is_nan(),
            r is Err ==> final(self)@ == old(self)@,
            r is Ok ==> final(self)@ == old(self)@.insert(member@, score.bits),
    {
        if score.is_nan() {
            return Err(StoreError::InvalidScore);
        }
        self.remove(&member);
        let p = self.lower_bound(score.rank_of(), member.as_str());
        let ghost old_vk = self.vk@;
        let ghost old_m = self@;
        let ghost key = (score.rank(), member@);
        proof {
            assert forall|j: int| p <= j < old_vk.len() implies key_lt(key, key_of(#[trigger] old_vk[j])) by {
                assert(old_m.contains_key(old_vk[j].value@));
                assert(key_of(old_vk[j]) != key);
                lemma_key_lt_total(key, key_of(old_vk[j]));
            }
        }
        let value = member.clone();
        self.vk.insert(p, ScoreValue { score, value });
        scores_insert(&mut self.kv, member, score.bits);
        proof {
            let nv = self.vk@;
            let m = self@;
            assert(nv =~= old_vk.insert(p as int, nv[p as int]));
            assert(key_of(nv[p as int]) == key);
            assert forall|i: int, j: int| 0 <= i < j < nv.len() implies key_lt(key_of(#[trigger] nv[i]), key_of(#[trigger] nv[j])) by {
                if i < p && j > p {
                    assert(nv[i] == old_vk[i]);
                    assert(nv[j] == old_vk[j - 1]);
                    lemma_key_lt_transitive(key_of(nv[i]), key, key_of(nv[j]));
                } else if i < p && j < p {
                    assert(nv[i] == old_vk[i]);
                    assert(nv[j] == old_vk[j]);
                } else if i > p {
                    assert(nv[i] == old_vk[i - 1]);
                    assert(nv[j] == old_vk[j - 1]);
                } else if i == p {
                    assert(nv[j] == old_vk[j - 1]);
                } else {
                    assert(nv[i] == old_vk[i]);
                }
            }
            assert forall|i: int| 0 <= i < nv.len() implies {
                &&& m.contains_key((#[trigger] nv[i]).value@)
                &&& m[nv[i].value@] == nv[i].score.bits
                &&& !nv[i].score.spec_is_nan()
            } by {
                if i < p {
                    assert(nv[i] == old_vk[i]);
                } else if i > p {
                    assert(nv[i] == old_vk[i - 1]);
                }
            }
            assert forall|k: Seq<char>| #[trigger] m.contains_key(k) implies exists|i: int|
                0 <= i < nv.len() && (#[trigger] nv[i]).value@ == k by {
                if k == member@ {
                    assert(nv[p as int].value@ == k);
                } else {
                    let oi = choose|i: int| 0 <= i < old_vk.len() && (#[trigger] old_vk[i]).value@ == k;
                    let ni = if oi < p { oi } else { oi + 1 };
                    assert(nv[ni] == old_vk[oi]);
                }
            }
            assert(m =~= old(self)@.insert(member@, score.bits));
        }
        Ok(())
    }

    /// The pairs whose score lies in `[min, max]`, in the order of the
    /// reverse index.
    pub fn range(&self, min: Score, max: Score) -> (r: Vec<ScoreValue>)
        requires
            self.wf(),
        ensures
            is_range_of(self@, min, max, r@),
    {
        let mut out: Vec<ScoreValue> = Vec::new();
        if min.is_nan() || max.is_nan() {
            return out;
        }
        let empty = String::new();
        let start = self.lower_bound(min.rank_of(), empty.as_str());
        let hi = max.rank_of();
        let n = self.vk.len();
        let mut i: usize = start;
        let mut going = true;
        while going && i < n
            invariant
                self.wf(),
                n == self.vk@.len(),
                start <= i <= n,
                out@ =~= self.vk@.subrange(start as int, i as int),
                forall|j: int| start <= j < i ==> (#[trigger] self.vk@[j]).score.rank() <= hi,
                !going ==> i < n && self.vk@[i as int].score.rank() > hi,
            decreases n - i + (if going { 1int } else { 0int }),
        {
            let e = &self.vk[i];
            if e.score.rank_of() > hi {
                going = false;
            } else {
                out.push(ScoreValue { score: e.score, value: e.value.clone() });
                i = i + 1;
            }
        }
        proof {
            let v = self.vk@;
            let lo_key = (min.rank(), empty@);
            assert forall|j: int| start <= j < v.len() implies (#[trigger] v[j]).score.rank() >= min.rank() by {
                assert(!key_lt(key_of(v[j]), lo_key));
            }
            assert forall|j: int| 0 <= j < start implies (#[trigger] v[j]).score.rank() < min.rank() by {
                assert(key_lt(key_of(v[j]), lo_key));
            }
            assert forall|j: int| i <= j < v.len() implies (#[trigger] v[j]).score.rank() > hi by {
                if j > i {
                    assert(key_lt(key_of(v[i as int]), key_of(v[j])));
                }
            }
            assert forall|a: int, b: int| 0 <= a < b < out@.len() implies key_lt(key_of(#[trigger] out@[a]), key_of(#[trigger] out@[b])) by {
                assert(out@[a] == v[start + a]);
                assert(out@[b] == v[start + b]);
            }
            assert forall|a: int| 0 <= a < out@.len() implies {
                &&& self@.contains_key((#[trigger] out@[a]).value@)
                &&& self@[out@[a].value@] == out@[a].score.bits
                &&& out@[a].score.within(min, max)
            } by {
                assert(out@[a] == v[start + a]);
            }
            assert forall|k: Seq<char>|
                #[trigger] self@.contains_key(k) && (Score { bits: self@[k] }).within(min, max) implies exists|a: int|
                    0 <= a < out@.len() && (#[trigger] out@[a]).value@ == k by {
                let j = choose|j: int| 0 <= j < v.len() && (#[trigger] v[j]).value@ == k;
                assert(v[j].score == Score { bits: self@[k] });
                assert(out@[j - start] == v[j]);
            }
        }
        out
    }
}

} // verus!
