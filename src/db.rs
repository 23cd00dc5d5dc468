use vstd::prelude::*;

use crate::score::Score;
use crate::zset::{is_range_of, key_lt, key_of, lemma_key_lt_irreflexive, ScoreValue, StoreError, Zset};
use dashmap::DashMap;

verus! {

/// The number of shards the keyspace is split into.
pub const SHARDS: usize = 8;

/// A key and its text value.
#[derive(Debug)]
pub struct KeyValue {
    pub key: String,
    pub value: String,
}

/// What a key holds: a text, or a sorted set.
pub enum DbValue {
    Text(String),
    Zset(Zset),
}

/// What a key holds, as a mathematical value.
pub enum Stored {
    Text(Seq<char>),
    Sorted(Map<Seq<char>, u64>),
}

/// The mathematical value of what a key holds.
pub open spec fn stored_view(v: DbValue) -> Stored {
    match v {
        DbValue::Text(s) => Stored::Text(s@),
        DbValue::Zset(z) => Stored::Sorted(z@),
    }
}

/// A held sorted set keeps its two indices in step.
pub open spec fn value_wf(v: DbValue) -> bool {
    match v {
        DbValue::Text(_) => true,
        DbValue::Zset(z) => z.wf(),
    }
}

/// `r` is what reading the text of `v` gives.
pub open spec fn text_answer(v: DbValue, r: Option<String>) -> bool {
    match (v, r) {
        (DbValue::Text(s), Some(t)) => t@ == s@,
        (DbValue::Zset(_), None) => true,
        _ => false,
    }
}

/// `r` is what a range query with bounds `[min, max]` on `v` gives.
pub open spec fn range_answer(v: DbValue, min: Score, max: Score, r: Seq<ScoreValue>) -> bool {
    match v {
        DbValue::Text(_) => r.len() == 0,
        DbValue::Zset(z) => is_range_of(z@, min, max, r),
    }
}

impl DbValue {
    /// A copy of the text held; none for a sorted set.
    pub fn text(&self) -> (r: Option<String>)
        ensures
            text_answer(*self, r),
    {
        match self {
            DbValue::Text(s) => Some(s.clone()),
            DbValue::Zset(_) => None,
        }
    }

    /// A range query on the sorted set held; empty for a text.
    pub fn range(&self, min: Score, max: Score) -> (r: Vec<ScoreValue>)
        requires
            value_wf(*self),
        ensures
            range_answer(*self, min, max, r@),
    {
        match self {
            DbValue::Text(_) => Vec::new(),
            DbValue::Zset(z) => z.range(min, max),
        }
    }
}

/// What one shard holds: key to value.
pub uninterp spec fn entries_of(m: DashMap<String, DbValue>) -> Map<Seq<char>, DbValue>;

/// Every sorted set in a shard keeps its two indices in step.
pub open spec fn shard_wf(m: Map<Seq<char>, DbValue>) -> bool {
    forall|k: Seq<char>| #[trigger] m.contains_key(k) ==> value_wf(m[k])
}

/// Relies on `DashMap::new`: a map with no entries.
#[verifier::external_body]
fn entries_new() -> (r: DashMap<String, DbValue>)
    ensures
        entries_of(r).dom().len() == 0 && entries_of(r).dom().finite(),
{
    DashMap::new()
}

/// Relies on `DashMap::insert`: the key maps to the value afterwards, and
/// the other entries stay.
#[verifier::external_body]
fn entries_insert(m: &mut DashMap<String, DbValue>, k: String, v: DbValue)
    ensures
        entries_of(*final(m)) == entries_of(*old(m)).insert(k@, v),
{
    m.insert(k, v);
}

/// Relies on `DashMap::remove`: it hands back the entry of the key, if there
/// was one, and the other entries stay.
#[verifier::external_body]
fn entries_remove(m: &mut DashMap<String, DbValue>, k: &str) -> (r: Option<(String, DbValue)>)
    ensures
        entries_of(*final(m)) == entries_of(*old(m)).remove(k@),
        (match r {
            None => !entries_of(*old(m)).contains_key(k@),
            Some(e) => entries_of(*old(m)).contains_key(k@) && e.0@ == k@ && e.1 == entries_of(*old(m))[k@],
        }),
{
    m.remove(k)
}

/// Relies on `DashMap::view`: the closure runs on the value stored under
/// the key, if there is one, and its result is handed back.
#[verifier::external_body]
fn entries_text(m: &DashMap<String, DbValue>, k: &str) -> (r: Option<Option<String>>)
    ensures
        (match r {
            None => !entries_of(*m).contains_key(k@),
            Some(t) => entries_of(*m).contains_key(k@) && text_answer(entries_of(*m)[k@], t),
        }),
{
    m.view(k, |_, v| v.text())
}

/// Relies on `DashMap::view`: the closure runs on the value stored under
/// the key, if there is one, and its result is handed back.
#[verifier::external_body]
fn entries_range(m: &DashMap<String, DbValue>, k: &str, min: Score, max: Score) -> (r: Option<Vec<ScoreValue>>)
    requires
        shard_wf(entries_of(*m)),
    ensures
        (match r {
            None => !entries_of(*m).contains_key(k@),
            Some(v) => entries_of(*m).contains_key(k@) && range_answer(entries_of(*m)[k@], min, max, v@),
        }),
{
    m.view(k, |_, v| v.range(min, max))
}

/// The standard library's default hash of a string.
pub uninterp spec fn std_hash(s: Seq<char>) -> u64;

/// Relies on `BuildHasher::hash_one` over `BuildHasherDefault<DefaultHasher>`:
/// every `DefaultHasher` made by `default` starts from the same state, so
/// the hash is a function of the string.
#[verifier::external_body]
fn key_hash(k: &str) -> (r: u64)
    ensures
        r == std_hash(k@),
{
    std::hash::BuildHasher::hash_one(
        &std::hash::BuildHasherDefault::<std::collections::hash_map::DefaultHasher>::default(),
        k,
    )
}

/// The shard that a key belongs to.
pub open spec fn shard_index(k: Seq<char>) -> int {
    (std_hash(k) % (SHARDS as u64)) as int
}

/// The text that a key holds, if it holds one.
pub open spec fn text_of(m: Map<Seq<char>, Stored>, k: Seq<char>) -> Option<Seq<char>> {
    if m.contains_key(k) && m[k] is Text {
        Some(m[k]->Text_0)
    } else {
        None
    }
}

/// The sorted set that a key holds; empty where it holds none.
pub open spec fn zset_of(m: Map<Seq<char>, Stored>, k: Seq<char>) -> Map<Seq<char>, u64> {
    if m.contains_key(k) && m[k] is Sorted {
        m[k]->Sorted_0
    } else {
        Map::empty()
    }
}

/// The store after writing the text `v` under `k`.
pub open spec fn put_model(m: Map<Seq<char>, Stored>, k: Seq<char>, v: Seq<char>) -> Map<Seq<char>, Stored> {
    m.insert(k, Stored::Text(v))
}

/// The store after giving `member` the score `score` in the set under `k`;
/// a text under `k` is replaced by a new set.
pub open spec fn zadd_model(m: Map<Seq<char>, Stored>, k: Seq<char>, member: Seq<char>, score: Score) -> Map<
    Seq<char>,
    Stored,
> {
    m.insert(k, Stored::Sorted(zset_of(m, k).insert(member, score.bits)))
}

/// The store after taking `member` out of the set under `k`.
pub open spec fn zremove_model(m: Map<Seq<char>, Stored>, k: Seq<char>, member: Seq<char>) -> Map<
    Seq<char>,
    Stored,
> {
    if m.contains_key(k) && m[k] is Sorted {
        m.insert(k, Stored::Sorted(zset_of(m, k).remove(member)))
    } else {
        m
    }
}

/// The key and text of each pair.
pub open spec fn pairs_of(r: Seq<KeyValue>) -> Seq<(Seq<char>, Seq<char>)> {
    r.map_values(|kv: KeyValue| (kv.key@, kv.value@))
}

/// The contents of each string.
pub open spec fn keys_of(keys: Seq<String>) -> Seq<Seq<char>> {
    keys.map_values(|s: String| s@)
}

/// The keys that hold a text, each with its text, in the order given.
pub open spec fn listed(m: Map<Seq<char>, Stored>, keys: Seq<Seq<char>>) -> Seq<(Seq<char>, Seq<char>)>
    decreases keys.len(),
{
    if keys.len() == 0 {
        Seq::empty()
    } else {
        let rest = listed(m, keys.drop_last());
        match text_of(m, keys.last()) {
            Some(t) => rest.push((keys.last(), t)),
            None => rest,
        }
    }
}

/// The store after writing each pair in turn.
pub open spec fn put_all(m: Map<Seq<char>, Stored>, pairs: Seq<(Seq<char>, Seq<char>)>) -> Map<
    Seq<char>,
    Stored,
>
    decreases pairs.len(),
{
    if pairs.len() == 0 {
        m
    } else {
        put_model(put_all(m, pairs.drop_last()), pairs.last().0, pairs.last().1)
    }
}

/// A store of text values and sorted sets, split over a fixed number of
/// shards by the hash of the key.
pub struct Db {
    shards: Vec<DashMap<String, DbValue>>,
}

impl Db {
    /// What each key holds, looked up in the shard of the key.
    pub closed spec fn view(&self) -> Map<Seq<char>, Stored> {
        Map::new(
            |k: Seq<char>| entries_of(self.shards@[shard_index(k)]).contains_key(k),
            |k: Seq<char>| stored_view(entries_of(self.shards@[shard_index(k)])[k]),
        )
    }

    /// The shards are all there, and every sorted set is in step.
    pub closed spec fn wf(&self) -> bool {
        &&& self.shards@.len() == SHARDS
        &&& forall|i: int| 0 <= i < SHARDS ==> shard_wf(entries_of(#[trigger] self.shards@[i]))
    }

    /// An empty store.
    pub fn new() -> (r: Db)
        ensures
            r.wf(),
            r@ == Map::<Seq<char>, Stored>::empty(),
    {
        let mut shards: Vec<DashMap<String, DbValue>> = Vec::new();
        let mut i: usize = 0;
        while i < SHARDS
            invariant
                i <= SHARDS,
                shards@.len() == i,
                forall|j: int| 0 <= j < i ==> entries_of(#[trigger] shards@[j]).dom().len() == 0 && entries_of(shards@[j]).dom().finite(),
            decreases SHARDS - i,
        {
            shards.push(entries_new());
            i = i + 1;
        }
        let r = Db { shards };
        proof {
            assert forall|j: int| 0 <= j < SHARDS implies shard_wf(entries_of(#[trigger] r.shards@[j])) by {
                let m = entries_of(r.shards@[j]);
                assert forall|k: Seq<char>| #[trigger] m.contains_key(k) implies value_wf(m[k]) by {
                    assert(m.dom().contains(k));
                    vstd::set_lib::lemma_set_empty_equivalency_len(m.dom());
                }
            }
            assert forall|k: Seq<char>| !(#[trigger] r@.contains_key(k)) by {
                let m = entries_of(r.shards@[shard_index(k)]);
                if m.contains_key(k) {
                    vstd::set_lib::lemma_set_empty_equivalency_len(m.dom());
                }
            }
            assert(r@ =~= Map::<Seq<char>, Stored>::empty());
        }
        r
    }

    /// The shard that a key belongs to.
    pub fn hash(k: &str) -> (r: usize)
        ensures
            r == shard_index(k@),
            r < SHARDS,
    {
        (key_hash(k) % (SHARDS as u64)) as usize
    }

    /// Replacing one shard leaves what the other shards' keys hold alone.
    proof fn lemma_shard_replaced(a: &Db, b: &Db, h: int)
        requires
            a.shards@.len() == SHARDS,
            0 <= h < SHARDS,
            b.shards@ == a.shards@.update(h, b.shards@[h]),
        ensures
            forall|k: Seq<char>|
                shard_index(k) != h ==> (#[trigger] b@.contains_key(k) == a@.contains_key(k) && (a@.contains_key(
                    k,
                ) ==> b@[k] == a@[k])),
            forall|k: Seq<char>|
                shard_index(k) == h ==> (#[trigger] b@.contains_key(k) == entries_of(b.shards@[h]).contains_key(k)
                    && (b@.contains_key(k) ==> b@[k] == stored_view(entries_of(b.shards@[h])[k]))),
    {
        assert forall|k: Seq<char>| shard_index(k) != h implies (#[trigger] b@.contains_key(k) == a@.contains_key(k)
            && (a@.contains_key(k) ==> b@[k] == a@[k])) by {
            assert(0 <= shard_index(k) < SHARDS);
            assert(b.shards@[shard_index(k)] == a.shards@[shard_index(k)]);
        }
    }

    /// Writes the text under the key, replacing whatever it held.
    pub fn add(&mut self, key: String, value: String)
        requires
            old(self).wf(),
        ensures
            final(self).wf(),
            final(self)@ == put_model(old(self)@, key@, value@),
    {
        let ghost k = key@;
        let ghost v = value@;
        let h = Self::hash(key.as_str());
        let mut shard = self.shards.remove(h);
        entries_insert(&mut shard, key, DbValue::Text(value));
        self.shards.insert(h, shard);
        proof {
            assert(self.shards@ =~= old(self).shards@.update(h as int, self.shards@[h as int]));
            Self::lemma_shard_replaced(old(self), self, h as int);
            assert(shard_wf(entries_of(self.shards@[h as int])));
            assert(self@ =~= put_model(old(self)@, k, v));
        }
    }

    /// Takes the key out, whatever it held.
    pub fn del(&mut self, key: &str)
        requires
            old(self).wf(),
        ensures
            final(self).wf(),
            final(self)@ == old(self)@.remove(key@),
    {
        let h = Self::hash(key);
        let mut shard = self.shards.remove(h);
        let _ = entries_remove(&mut shard, key);
        self.shards.insert(h, shard);
        proof {
            assert(self.shards@ =~= old(self).shards@.update(h as int, self.shards@[h as int]));
            Self::lemma_shard_replaced(old(self), self, h as int);
            assert(shard_wf(entries_of(self.shards@[h as int])));
            assert(self@ =~= old(self)@.remove(key@));
        }
    }

    /// The text under the key; none where the key is absent or holds a
    /// sorted set.
    pub fn query(&self, key: &str) -> (r: Option<String>)
        requires
            self.wf(),
        ensures
            (match r {
                Some(t) => text_of(self@, key@) == Some(t@),
                None => text_of(self@, key@) is None,
            }),
    {
        let h = Self::hash(key);
        match entries_text(&self.shards[h], key) {
            Some(t) => t,
            None => None,
        }
    }

    /// Gives `value` the score in the sorted set under the key, making the
    /// set where the key is absent or holds a text. A NaN score is refused
    /// and changes nothing.
    pub fn zadd(&mut self, key: String, value: String, score: Score) -> (r: Result<(), StoreError>)
        requires
            old(self).wf(),
        ensures
            final(self).wf(),
            r is Err <==> score.spec_is_nan(),
            r is Err ==> final(self)@ == old(self)@,
            r is Ok ==> final(self)@ == zadd_model(old(self)@, key@, value@, score),
    {
        if score.is_nan() {
            return Err(StoreError::InvalidScore);
        }
        let ghost k = key@;
        let ghost member = value@;
        let h = Self::hash(key.as_str());
        let mut shard = self.shards.remove(h);
        proof {
            assert(old(self).shards@[h as int] == shard);
        }
        let mut z = match entries_remove(&mut shard, key.as_str()) {
            Some((_, DbValue::Zset(z))) => z,
            _ => Zset::new(),
        };
        proof {
            assert(z@ == zset_of(old(self)@, k));
        }
        let added = z.add(value, score);
        proof {
            assert(added is Ok);
        }
        entries_insert(&mut shard, key, DbValue::Zset(z));
        self.shards.insert(h, shard);
        proof {
            assert(self.shards@ =~= old(self).shards@.update(h as int, self.shards@[h as int]));
            Self::lemma_shard_replaced(old(self), self, h as int);
            assert(shard_wf(entries_of(self.shards@[h as int])));
            assert(self@ =~= zadd_model(old(self)@, k, member, score));
        }
        Ok(())
    }

    /// Takes `value` out of the sorted set under the key; nothing changes
    /// where the key is absent or holds a text.
    pub fn zremove(&mut self, key: &str, value: &String)
        requires
            old(self).wf(),
        ensures
            final(self).wf(),
            final(self)@ == zremove_model(old(self)@, key@, value@),
    {
        let h = Self::hash(key);
        let mut shard = self.shards.remove(h);
        proof {
            assert(old(self).shards@[h as int] == shard);
        }
        match entries_remove(&mut shard, key) {
            Some((k, DbValue::Zset(mut z))) => {
                z.remove(value);
                entries_insert(&mut shard, k, DbValue::Zset(z));
            },
            Some((k, other)) => {
                entries_insert(&mut shard, k, other);
            },
            None => {},
        }
        self.shards.insert(h, shard);
        proof {
            assert(self.shards@ =~= old(self).shards@.update(h as int, self.shards@[h as int]));
            Self::lemma_shard_replaced(old(self), self, h as int);
            assert(shard_wf(entries_of(self.shards@[h as int])));
            assert(self@ =~= zremove_model(old(self)@, key@, value@));
        }
    }

    /// The members of the sorted set under the key whose scores lie in
    /// `[min, max]`, ascending by score and then by member; empty where the
    /// key is absent or holds a text.
    pub fn zrange(&self, key: &String, min: Score, max: Score) -> (r: Vec<ScoreValue>)
        requires
            self.wf(),
        ensures
            is_range_of(zset_of(self@, key@), min, max, r@),
    {
        let h = Self::hash(key.as_str());
        match entries_range(&self.shards[h], key.as_str(), min, max) {
            Some(v) => v,
            None => Vec::new(),
        }
    }

    /// Writes each pair in turn, as `add` does.
    pub fn batch(&mut self, entries: Vec<KeyValue>)
        requires
            old(self).wf(),
        ensures
            final(self).wf(),
            final(self)@ == put_all(old(self)@, pairs_of(entries@)),
    {
        let ghost pairs = pairs_of(entries@);
        let mut i: usize = 0;
        while i < entries.len()
            invariant
                self.wf(),
                i <= entries@.len(),
                pairs == pairs_of(entries@),
                self@ == put_all(old(self)@, pairs.subrange(0, i as int)),
            decreases entries@.len() - i,
        {
            let kv = &entries[i];
            self.add(kv.key.clone(), kv.value.clone());
            proof {
                assert(pairs.subrange(0, i + 1).drop_last() =~= pairs.subrange(0, i as int));
            }
            i = i + 1;
        }
        proof {
            assert(pairs.subrange(0, i as int) =~= pairs);
        }
    }

    /// The keys that hold a text, each with its text, in the order given;
    /// the other keys are left out.
    pub fn list(&self, keys: Vec<String>) -> (r: Vec<KeyValue>)
        requires
            self.wf(),
        ensures
            pairs_of(r@) == listed(self@, keys_of(keys@)),
    {
        let ghost ks = keys_of(keys@);
        let mut out: Vec<KeyValue> = Vec::new();
        let mut i: usize = 0;
        while i < keys.len()
            invariant
                self.wf(),
                i <= keys@.len(),
                ks == keys_of(keys@),
                pairs_of(out@) == listed(self@, ks.subrange(0, i as int)),
            decreases keys@.len() - i,
        {
            let key = &keys[i];
            let found = self.query(key.as_str());
            proof {
                assert(ks.subrange(0, i + 1).drop_last() =~= ks.subrange(0, i as int));
                assert(ks.subrange(0, i + 1).last() == key@);
            }
            match found {
                Some(value) => {
                    let ghost before = out@;
                    out.push(KeyValue { key: key.clone(), value });
                    proof {
                        assert(pairs_of(out@) =~= pairs_of(before).push((key@, value@)));
                    }
                },
                None => {},
            }
            i = i + 1;
        }
        proof {
            assert(ks.subrange(0, i as int) =~= ks);
        }
        out
    }
}

/// Reading a key right after writing a text under it gives that text.
pub proof fn lemma_put_then_get(m: Map<Seq<char>, Stored>, k: Seq<char>, v: Seq<char>)
    ensures
        text_of(put_model(m, k, v), k) == Some(v),
{
}

/// After a key is deleted it holds no text, and every range query on it is
/// empty, whatever the bounds.
pub proof fn lemma_delete_clears(m: Map<Seq<char>, Stored>, k: Seq<char>, min: Score, max: Score, r: Seq<ScoreValue>)
    requires
        is_range_of(zset_of(m.remove(k), k), min, max, r),
    ensures
        text_of(m.remove(k), k) is None,
        r.len() == 0,
{
    if r.len() > 0 {
        assert(zset_of(m.remove(k), k).contains_key(r[0].value@));
    }
}

/// No member appears twice in the answer to a range query.
pub proof fn lemma_range_members_distinct(m: Map<Seq<char>, u64>, min: Score, max: Score, r: Seq<ScoreValue>)
    requires
        is_range_of(m, min, max, r),
    ensures
        forall|i: int, j: int| 0 <= i < j < r.len() ==> (#[trigger] r[i]).value@ != (#[trigger] r[j]).value@,
{
    assert forall|i: int, j: int| 0 <= i < j < r.len() implies (#[trigger] r[i]).value@ != (#[trigger] r[j]).value@ by {
        assert(key_lt(key_of(r[i]), key_of(r[j])));
        if r[i].value@ == r[j].value@ {
            assert(r[i].score == r[j].score);
            lemma_key_lt_irreflexive(key_of(r[i]));
        }
    }
}

/// A range answer is ascending by score and then by member, and lists each
/// member whose score lies within the bounds exactly once.
pub proof fn lemma_range_ordered_each_once(m: Map<Seq<char>, u64>, min: Score, max: Score, r: Seq<ScoreValue>)
    requires
        is_range_of(m, min, max, r),
    ensures
        forall|i: int, j: int|
            0 <= i < j < r.len() ==> key_lt(key_of(#[trigger] r[i]), key_of(#[trigger] r[j])),
        forall|k: Seq<char>|
            #[trigger] m.contains_key(k) && (Score { bits: m[k] }).within(min, max) ==> exists|i: int|
                0 <= i < r.len() && (#[trigger] r[i]).value@ == k,
        forall|i: int, j: int|
            0 <= i < r.len() && 0 <= j < r.len() && (#[trigger] r[i]).value@ == (#[trigger] r[j]).value@ ==> i == j,
{
    lemma_range_members_distinct(m, min, max, r);
    assert forall|i: int, j: int|
        0 <= i < r.len() && 0 <= j < r.len() && (#[trigger] r[i]).value@ == (#[trigger] r[j]).value@ implies i == j by {
        if i < j {
            assert(r[i].value@ != r[j].value@);
        } else if j < i {
            assert(r[j].value@ != r[i].value@);
        }
    }
}

/// Giving a member a score twice leaves one entry for it in range answers,
/// with the second score.
pub proof fn lemma_zadd_twice(
    m: Map<Seq<char>, Stored>,
    k: Seq<char>,
    member: Seq<char>,
    s1: Score,
    s2: Score,
    min: Score,
    max: Score,
    r: Seq<ScoreValue>,
)
    requires
        s2.within(min, max),
        is_range_of(zset_of(zadd_model(zadd_model(m, k, member, s1), k, member, s2), k), min, max, r),
    ensures
        exists|i: int| 0 <= i < r.len() && (#[trigger] r[i]).value@ == member,
        forall|i: int| 0 <= i < r.len() && (#[trigger] r[i]).value@ == member ==> r[i].score == s2,
        forall|i: int, j: int|
            0 <= i < r.len() && 0 <= j < r.len() && (#[trigger] r[i]).value@ == member && (#[trigger] r[j]).value@
                == member ==> i == j,
{
    let z = zset_of(zadd_model(zadd_model(m, k, member, s1), k, member, s2), k);
    assert(z.contains_key(member) && z[member] == s2.bits);
    assert((Score { bits: z[member] }) == s2);
    lemma_range_ordered_each_once(z, min, max, r);
    assert forall|i: int| 0 <= i < r.len() && (#[trigger] r[i]).value@ == member implies r[i].score == s2 by {
        assert(z[r[i].value@] == r[i].score.bits);
    }
}

/// After a member is taken out of a set, no range answer on the set lists
/// it, whatever the bounds.
pub proof fn lemma_zremove_gone(
    m: Map<Seq<char>, Stored>,
    k: Seq<char>,
    member: Seq<char>,
    min: Score,
    max: Score,
    r: Seq<ScoreValue>,
)
    requires
        is_range_of(zset_of(zremove_model(m, k, member), k), min, max, r),
    ensures
        forall|i: int| 0 <= i < r.len() ==> (#[trigger] r[i]).value@ != member,
{
    let z = zset_of(zremove_model(m, k, member), k);
    assert(!z.contains_key(member));
    assert forall|i: int| 0 <= i < r.len() implies (#[trigger] r[i]).value@ != member by {
        assert(z.contains_key(r[i].value@));
    }
}

/// The store after giving each member its score in the set under `k`, in
/// turn.
pub open spec fn zadd_all(m: Map<Seq<char>, Stored>, k: Seq<char>, adds: Seq<(Seq<char>, Score)>) -> Map<
    Seq<char>,
    Stored,
>
    decreases adds.len(),
{
    if adds.len() == 0 {
        m
    } else {
        zadd_model(zadd_all(m, k, adds.drop_last()), k, adds.last().0, adds.last().1)
    }
}

/// After distinct adds to an empty set, the set holds exactly the members
/// added, each with its score.
proof fn lemma_zadd_all_members(m: Map<Seq<char>, Stored>, k: Seq<char>, adds: Seq<(Seq<char>, Score)>)
    requires
        zset_of(m, k) == Map::<Seq<char>, u64>::empty(),
        forall|i: int, j: int| 0 <= i < j < adds.len() ==> (#[trigger] adds[i]).0 != (#[trigger] adds[j]).0,
    ensures
        forall|x: Seq<char>|
            #[trigger] zset_of(zadd_all(m, k, adds), k).contains_key(x) <==> exists|i: int|
                0 <= i < adds.len() && (#[trigger] adds[i]).0 == x,
        forall|i: int|
            0 <= i < adds.len() ==> zset_of(zadd_all(m, k, adds), k)[(#[trigger] adds[i]).0] == adds[i].1.bits,
    decreases adds.len(),
{
    if adds.len() > 0 {
        let rest = adds.drop_last();
        lemma_zadd_all_members(m, k, rest);
        let z = zset_of(zadd_all(m, k, adds), k);
        let z0 = zset_of(zadd_all(m, k, rest), k);
        assert(z == z0.insert(adds.last().0, adds.last().1.bits));
        assert forall|x: Seq<char>| #[trigger] z.contains_key(x) <==> exists|i: int|
            0 <= i < adds.len() && (#[trigger] adds[i]).0 == x by {
            if z.contains_key(x) && x == adds.last().0 {
                assert(adds[adds.len() - 1].0 == x);
            }
            if z.contains_key(x) && x != adds.last().0 {
                assert(z0.contains_key(x));
                let i = choose|i: int| 0 <= i < rest.len() && (#[trigger] rest[i]).0 == x;
                assert(adds[i] == rest[i]);
            }
            if exists|i: int| 0 <= i < adds.len() && (#[trigger] adds[i]).0 == x {
                let i = choose|i: int| 0 <= i < adds.len() && (#[trigger] adds[i]).0 == x;
                if i < adds.len() - 1 {
                    assert(rest[i] == adds[i]);
                    assert(z0.contains_key(x));
                }
            }
        }
        assert forall|i: int| 0 <= i < adds.len() implies z[(#[trigger] adds[i]).0] == adds[i].1.bits by {
            if i < adds.len() - 1 {
                assert(rest[i] == adds[i]);
                assert(adds[i].0 != adds[adds.len() - 1].0);
            }
        }
    }
}

/// Giving distinct members scores within the bounds, one after another, in
/// a key that held no members, leaves a range answer with one entry for
/// each of them.
pub proof fn lemma_distinct_adds_counted(
    m: Map<Seq<char>, Stored>,
    k: Seq<char>,
    adds: Seq<(Seq<char>, Score)>,
    min: Score,
    max: Score,
    r: Seq<ScoreValue>,
)
    requires
        zset_of(m, k) == Map::<Seq<char>, u64>::empty(),
        forall|i: int, j: int| 0 <= i < j < adds.len() ==> (#[trigger] adds[i]).0 != (#[trigger] adds[j]).0,
        forall|i: int| 0 <= i < adds.len() ==> (#[trigger] adds[i]).1.within(min, max),
        is_range_of(zset_of(zadd_all(m, k, adds), k), min, max, r),
    ensures
        r.len() == adds.len(),
{
    let z = zset_of(zadd_all(m, k, adds), k);
    lemma_zadd_all_members(m, k, adds);
    lemma_range_members_distinct(z, min, max, r);
    let ms = adds.map_values(|p: (Seq<char>, Score)| p.0);
    let rs = r.map_values(|e: ScoreValue| e.value@);
    assert(ms.no_duplicates()) by {
        assert forall|i: int, j: int| 0 <= i < ms.len() && 0 <= j < ms.len() && i != j implies ms[i] != ms[j] by {
            if i < j {
                assert(adds[i].0 != adds[j].0);
            } else {
                assert(adds[j].0 != adds[i].0);
            }
        }
    }
    assert(rs.no_duplicates()) by {
        assert forall|i: int, j: int| 0 <= i < rs.len() && 0 <= j < rs.len() && i != j implies rs[i] != rs[j] by {
            if i < j {
                assert(r[i].value@ != r[j].value@);
            } else {
                assert(r[j].value@ != r[i].value@);
            }
        }
    }
    assert forall|x: Seq<char>| rs.to_set().contains(x) <==> ms.to_set().contains(x) by {
        if rs.to_set().contains(x) {
            let i = choose|i: int| 0 <= i < rs.len() && rs[i] == x;
            assert(z.contains_key(r[i].value@));
            let j = choose|j: int| 0 <= j < adds.len() && (#[trigger] adds[j]).0 == x;
            assert(ms[j] == x);
        }
        if ms.to_set().contains(x) {
            let j = choose|j: int| 0 <= j < ms.len() && ms[j] == x;
            assert(adds[j].0 == x);
            assert(z.contains_key(x));
            assert((Score { bits: z[x] }) == adds[j].1);
            let i = choose|i: int| 0 <= i < r.len() && (#[trigger] r[i]).value@ == x;
            assert(rs[i] == x);
        }
    }
    assert(rs.to_set() =~= ms.to_set());
    ms.unique_seq_to_set();
    rs.unique_seq_to_set();
}

} // verus!
