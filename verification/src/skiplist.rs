//! The skip list itself: an arena of entries woven together by per-level
//! forward links, with a sentinel head and a randomized height oracle.

use vstd::prelude::*;

use crate::order::KeyOrder;
use crate::order::key_cmp;
use crate::order::lemma_lex_lt_le;
use crate::order::lemma_lex_total;
use crate::order::lemma_lex_trans;
use crate::order::lex_le;
use crate::order::lex_lt;

verus! {

/// Hard cap on any entry's tower height, and on the structure's height.
pub const MAX_HEIGHT: usize = 12;

/// Reciprocal of the probability that a tower grows one further level.
pub const BRANCH_FACTOR: usize = 4;

/// Relies on rand::random: an arbitrary machine word drawn from the
/// thread-local generator; nothing is assumed about its value.
#[verifier::external_body]
fn random_u64() -> u64 {
    rand::random::<u64>()
}

/// Samples a tower height: starting from 1, each level is added with
/// probability `1 / BRANCH_FACTOR`, stopping at the first failed trial or
/// at `MAX_HEIGHT`.
fn calculate_random_height() -> (h: usize)
    ensures
        1 <= h <= MAX_HEIGHT,
{
    let mut height: usize = 1;
    loop
        invariant
            1 <= height <= MAX_HEIGHT,
        ensures
            1 <= height <= MAX_HEIGHT,
        decreases MAX_HEIGHT - height,
    {
        if height >= MAX_HEIGHT || random_u64() % (BRANCH_FACTOR as u64) != 0 {
            break;
        }
        height = height + 1;
    }
    height
}

/// The error returned when an insertion presents a key that is already
/// stored: the structure is left unchanged.
#[derive(PartialEq, Eq, Structural, Clone, Copy, Debug)]
pub struct DuplicateKeyError;

/// One entry: an immutable key, its value, and one forward link per level
/// this entry participates in (its tower). A link holds the arena index of
/// the next entry at that level, or 0 (the head's index) for "none".
pub struct SkipListNode {
    key: Vec<u8>,
    value: Vec<u8>,
    next: Vec<usize>,
}

impl SkipListNode {
    /// The bytes of this entry's key.
    pub closed spec fn key_view(self) -> Seq<u8> {
        self.key@
    }

    /// The bytes of this entry's value.
    pub closed spec fn value_view(self) -> Seq<u8> {
        self.value@
    }

    /// A free-standing entry holding `key` and `value`, linked at no level
    /// yet; insertion gives it its forward links.
    pub fn new(key: Vec<u8>, value: Vec<u8>) -> (r: SkipListNode)
        ensures
            r.key_view() == key@,
            r.value_view() == value@,
    {
        SkipListNode { key, value, next: Vec::new() }
    }
}

/// The ordered map: an arena of entries whose index 0 is the head sentinel,
/// woven together by per-level forward links. `current_height` is the
/// highest level in use; `levels` is the ghost image of the structure, one
/// sequence of arena indices per level, in chain order.
pub struct SkipList {
    nodes: Vec<SkipListNode>,
    current_height: usize,
    levels: Ghost<Seq<Seq<int>>>,
}

/// The map denoted by a chain of key/value pairs; a later pair with an
/// equal key would win, though a well-formed chain never holds one.
spec fn map_of_kvs(s: Seq<(Seq<u8>, Seq<u8>)>) -> Map<Seq<u8>, Seq<u8>>
    decreases s.len(),
{
    if s.len() == 0 {
        Map::empty()
    } else {
        map_of_kvs(s.drop_last()).insert(s.last().0, s.last().1)
    }
}

impl SkipList {
    spec fn n(self) -> int {
        self.nodes@.len() as int
    }

    spec fn chains(self) -> Seq<Seq<int>> {
        self.levels@
    }

    spec fn key_of(self, i: int) -> Seq<u8> {
        self.nodes@[i].key@
    }

    spec fn val_of(self, i: int) -> Seq<u8> {
        self.nodes@[i].value@
    }

    /// How many levels entry `i` participates in.
    spec fn height_of(self, i: int) -> int {
        self.nodes@[i].next@.len() as int
    }

    /// The forward link of entry `i` at level `l`.
    spec fn next_of(self, i: int, l: int) -> int {
        self.nodes@[i].next@[l] as int
    }

    /// An arena index denoting a real entry (not the head sentinel).
    spec fn valid_idx(self, i: int) -> bool {
        1 <= i < self.n()
    }

    /// Position `j` of the level-`l` chain names a real entry tall enough
    /// for this level, and its forward link leads to the next position.
    spec fn chain_ok_at(self, l: int, j: int) -> bool {
        let c = self.chains()[l];
        &&& self.valid_idx(c[j])
        &&& l < self.height_of(c[j])
        &&& self.next_of(c[j], l) == if j + 1 < c.len() {
            c[j + 1]
        } else {
            0
        }
    }

    /// The level-`l` chain matches the forward links, starting at the head.
    spec fn chain_linked(self, l: int) -> bool {
        let c = self.chains()[l];
        &&& self.next_of(0, l) == if c.len() == 0 {
            0
        } else {
            c[0]
        }
        &&& forall|j: int| 0 <= j < c.len() ==> #[trigger] self.chain_ok_at(l, j)
    }

    /// Keys strictly ascend along the level-`l` chain.
    spec fn chain_sorted(self, l: int) -> bool {
        let c = self.chains()[l];
        forall|j1: int, j2: int|
            0 <= j1 < j2 < c.len() ==> lex_lt(
                self.key_of(#[trigger] c[j1]),
                self.key_of(#[trigger] c[j2]),
            )
    }

    /// Every entry of the level-`l` chain also stands in the chain below.
    spec fn chain_in_lower(self, l: int) -> bool {
        let c = self.chains()[l];
        let d = self.chains()[l - 1];
        forall|j: int| 0 <= j < c.len() ==> #[trigger] d.contains(c[j])
    }

    /// Structural invariant: a head sentinel of full height, a height in
    /// range, and per level a linked, sorted chain that thins as levels
    /// rise, with no chain above the current height.
    pub closed spec fn wf(self) -> bool {
        &&& self.nodes@.len() >= 1
        &&& self.height_of(0) == MAX_HEIGHT as int
        &&& 1 <= self.current_height <= MAX_HEIGHT
        &&& self.chains().len() == MAX_HEIGHT as int
        &&& forall|l: int| 0 <= l < MAX_HEIGHT as int ==> #[trigger] self.chain_linked(l)
        &&& forall|l: int| 0 <= l < MAX_HEIGHT as int ==> #[trigger] self.chain_sorted(l)
        &&& forall|l: int| 1 <= l < MAX_HEIGHT as int ==> #[trigger] self.chain_in_lower(l)
        &&& forall|l: int|
            self.current_height <= l < MAX_HEIGHT as int ==> (#[trigger] self.chains()[l]).len()
                == 0
    }

    /// The highest level currently in use.
    pub closed spec fn height(self) -> int {
        self.current_height as int
    }

    /// The key/value pairs along chain `c`, in chain order.
    spec fn kvs_of_chain(self, c: Seq<int>) -> Seq<(Seq<u8>, Seq<u8>)> {
        Seq::new(c.len(), |j: int| (self.key_of(c[j]), self.val_of(c[j])))
    }
}

impl View for SkipList {
    type V = Map<Seq<u8>, Seq<u8>>;

    /// The map stored: read off the base-level chain.
    closed spec fn view(&self) -> Map<Seq<u8>, Seq<u8>> {
        map_of_kvs(self.kvs_of_chain(self.chains()[0]))
    }
}

/// A vector of `n` nil links.
fn zeros(n: usize) -> (r: Vec<usize>)
    ensures
        r@.len() == n,
        forall|j: int| 0 <= j < n ==> r@[j] == 0,
{
    let mut r: Vec<usize> = Vec::new();
    let mut l: usize = 0;
    while l < n
        invariant
            l <= n,
            r@.len() == l,
            forall|j: int| 0 <= j < l ==> r@[j] == 0,
        decreases n - l,
    {
        r.push(0);
        l = l + 1;
    }
    r
}

impl SkipList {
    /// An empty map: a lone head sentinel with `MAX_HEIGHT` nil forward
    /// slots, height 1, and nothing stored.
    pub fn new() -> (r: SkipList)
        ensures
            r.wf(),
            r@ == Map::<Seq<u8>, Seq<u8>>::empty(),
            r.height() == 1,
    {
        let head = SkipListNode { key: Vec::new(), value: Vec::new(), next: zeros(MAX_HEIGHT) };
        let mut nodes: Vec<SkipListNode> = Vec::new();
        nodes.push(head);
        let r = SkipList {
            nodes,
            current_height: 1,
            levels: Ghost(Seq::new(MAX_HEIGHT as nat, |l: int| Seq::<int>::empty())),
        };
        proof {
            assert forall|l: int| 0 <= l < MAX_HEIGHT as int implies #[trigger] r.chain_linked(l)
                && r.chain_sorted(l) by {
                assert(r.chains()[l].len() == 0);
                assert(r.next_of(0, l) == 0);
            }
            assert forall|l: int| 1 <= l < MAX_HEIGHT as int implies #[trigger] r.chain_in_lower(
                l,
            ) by {
                assert(r.chains()[l].len() == 0);
            }
            assert(r.wf());
            assert(r.kvs_of_chain(r.chains()[0]) =~= Seq::<(Seq<u8>, Seq<u8>)>::empty());
            assert(r@ =~= Map::<Seq<u8>, Seq<u8>>::empty());
        }
        r
    }
}

impl SkipList {
    /// `p` is a correct splice predecessor for `k` at level `l`: the head,
    /// or a level-`l` chain entry with a key before `k`; and its forward
    /// link at `l` is nil or reaches a key at or past `k`.
    spec fn is_pred_at(self, l: int, p: int, k: Seq<u8>) -> bool {
        &&& 0 <= p < self.n()
        &&& l < self.height_of(p)
        &&& p == 0 || (self.chains()[l].contains(p) && lex_lt(self.key_of(p), k))
        &&& (self.next_of(p, l) == 0 || lex_le(k, self.key_of(self.next_of(p, l))))
    }

    /// Whether the search stops before `idx`: true when `idx` is nil or
    /// `key` is at or before that entry's key, so that an exact match
    /// counts as reached.
    fn less_than_eq(&self, key: &Vec<u8>, idx: usize) -> (r: bool)
        requires
            (idx as int) < self.n(),
        ensures
            r == (idx == 0 || lex_le(key@, self.key_of(idx as int))),
    {
        if idx == 0 {
            return true;
        }
        let order = key_cmp(key, &self.nodes[idx].key);
        proof {
            lemma_lex_total(key@, self.key_of(idx as int));
        }
        match order {
            KeyOrder::Greater => false,
            _ => true,
        }
    }

    /// Descent, the shared search primitive: returns the first base-level
    /// entry at or past `key` (0 for none) and, per level, the last entry
    /// strictly before `key` — the splice predecessors.
    #[verifier::loop_isolation(false)]
    fn find_greater_or_eq(&self, key: &Vec<u8>) -> (r: (usize, Vec<usize>))
        requires
            self.wf(),
        ensures
            r.1@.len() == MAX_HEIGHT,
            forall|l: int| 0 <= l < self.height() ==> self.is_pred_at(l, r.1@[l] as int, key@),
            forall|l: int| self.height() <= l < MAX_HEIGHT as int ==> r.1@[l] == 0,
            r.0 as int == self.next_of(r.1@[0] as int, 0),
    {
        let mut preds = zeros(MAX_HEIGHT);
        let mut current: usize = 0;
        let ghost mut cpos: int = -1;
        let mut level: usize = self.current_height;
        while level > 0
            invariant
                level <= self.current_height,
                preds@.len() == MAX_HEIGHT,
                forall|l: int|
                    level <= l < self.height() ==> self.is_pred_at(l, preds@[l] as int, key@),
                forall|l: int|
                    0 <= l < level || self.height() <= l < MAX_HEIGHT as int ==> preds@[l] == 0,
                current == 0 && cpos == -1 || level < self.height() && 0 <= cpos
                    < self.chains()[level as int].len() && self.chains()[level as int][cpos]
                    == current as int && lex_lt(self.key_of(current as int), key@),
            decreases level,
        {
            let lev = level - 1;
            proof {
                assert(self.chain_linked(lev as int));
                if current != 0 {
                    assert(self.chain_in_lower(level as int));
                    assert(self.chains()[level as int][cpos] == current as int);
                    assert(self.chains()[lev as int].contains(current as int));
                    cpos = choose|j: int|
                        0 <= j < self.chains()[lev as int].len() && self.chains()[lev as int][j]
                            == current as int;
                    assert(0 <= cpos < self.chains()[lev as int].len());
                    assert(self.chain_ok_at(lev as int, cpos));
                } else {
                    cpos = -1;
                }
            }
            proof {
                assert(self.chain_linked(lev as int));
                if current != 0 {
                    assert(self.chain_ok_at(lev as int, cpos));
                }
                if self.chains()[lev as int].len() > 0 {
                    assert(self.chain_ok_at(lev as int, 0));
                }
                if current != 0 && cpos + 1 < self.chains()[lev as int].len() {
                    assert(self.chain_ok_at(lev as int, cpos + 1));
                }
            }
            let mut next = self.nodes[current].next[lev];
            while !self.less_than_eq(key, next)
                invariant
                    current == 0 && cpos == -1 || 0 <= cpos < self.chains()[lev as int].len()
                        && self.chains()[lev as int][cpos] == current as int && lex_lt(
                        self.key_of(current as int),
                        key@,
                    ),
                    next as int == self.next_of(current as int, lev as int),
                    (next as int) < self.n(),
                decreases self.chains()[lev as int].len() - cpos,
            {
                proof {
                    lemma_lex_total(key@, self.key_of(next as int));
                    if current == 0 {
                        assert(self.chain_linked(lev as int));
                        if cpos != -1 {
                            assert(self.chain_ok_at(lev as int, cpos));
                            assert(false);
                        }
                        assert(self.chains()[lev as int][0] == next as int);
                        cpos = 0;
                    } else {
                        assert(self.chain_ok_at(lev as int, cpos));
                        assert(cpos + 1 < self.chains()[lev as int].len());
                        cpos = cpos + 1;
                    }
                    assert(self.chain_ok_at(lev as int, cpos));
                }
                current = next;
                proof {
                    assert(self.chain_ok_at(lev as int, cpos));
                    if cpos + 1 < self.chains()[lev as int].len() {
                        assert(self.chain_ok_at(lev as int, cpos + 1));
                    }
                }
                next = self.nodes[current].next[lev];
            }
            preds.set(lev, current);
            level = lev;
            proof {
                if current != 0 {
                    assert(self.chains()[lev as int][cpos] == current as int);
                    assert(self.chains()[lev as int].contains(current as int));
                    assert(self.chain_ok_at(lev as int, cpos));
                }
                assert(self.is_pred_at(lev as int, current as int, key@));
            }
        }
        let p0 = preds[0];
        proof {
            assert(self.is_pred_at(0, p0 as int, key@));
        }
        let found = self.nodes[p0].next[0];
        (found, preds)
    }
}

/// A chain member's key is a key of the chain's map.
proof fn lemma_map_of_kvs_member(s: Seq<(Seq<u8>, Seq<u8>)>, j: int)
    requires
        0 <= j < s.len(),
    ensures
        map_of_kvs(s).contains_key(s[j].0),
    decreases s.len(),
{
    if j < s.len() - 1 {
        assert(s.drop_last()[j] == s[j]);
        lemma_map_of_kvs_member(s.drop_last(), j);
    }
}

/// Every key of the chain's map is the key of some chain member.
proof fn lemma_map_of_kvs_key(s: Seq<(Seq<u8>, Seq<u8>)>, k: Seq<u8>)
    requires
        map_of_kvs(s).contains_key(k),
    ensures
        exists|j: int| 0 <= j < s.len() && (#[trigger] s[j]).0 == k,
    decreases s.len(),
{
    if s.len() > 0 {
        if k == s.last().0 {
            assert(s[s.len() - 1].0 == k);
        } else {
            lemma_map_of_kvs_key(s.drop_last(), k);
            let j = choose|j: int| 0 <= j < s.drop_last().len() && (#[trigger] s.drop_last()[j]).0
                == k;
            assert(s[j].0 == k);
        }
    }
}

/// With pairwise distinct keys, the chain's map sends each member's key to
/// that member's value.
proof fn lemma_map_of_kvs_index(s: Seq<(Seq<u8>, Seq<u8>)>, j: int)
    requires
        0 <= j < s.len(),
        forall|j1: int, j2: int| 0 <= j1 < j2 < s.len() ==> (#[trigger] s[j1]).0 != (
        #[trigger] s[j2]).0,
    ensures
        map_of_kvs(s)[s[j].0] == s[j].1,
    decreases s.len(),
{
    if j < s.len() - 1 {
        assert(s.drop_last()[j] == s[j]);
        assert(s[j].0 != s[s.len() - 1].0);
        assert forall|j1: int, j2: int| 0 <= j1 < j2 < s.drop_last().len() implies (
        #[trigger] s.drop_last()[j1]).0 != (#[trigger] s.drop_last()[j2]).0 by {
            assert(s.drop_last()[j1] == s[j1]);
            assert(s.drop_last()[j2] == s[j2]);
        }
        lemma_map_of_kvs_index(s.drop_last(), j);
    }
}

/// Inserting a fresh key anywhere in the chain inserts it into the map.
proof fn lemma_map_of_kvs_insert(s: Seq<(Seq<u8>, Seq<u8>)>, p: int, kv: (Seq<u8>, Seq<u8>))
    requires
        0 <= p <= s.len(),
        forall|j: int| 0 <= j < s.len() ==> (#[trigger] s[j]).0 != kv.0,
    ensures
        map_of_kvs(s.insert(p, kv)) == map_of_kvs(s).insert(kv.0, kv.1),
    decreases s.len(),
{
    let t = s.insert(p, kv);
    s.insert_ensures(p, kv);
    if p == s.len() {
        assert(t.last() == kv);
        assert(t.drop_last() =~= s);
    } else {
        assert(t.last() == s.last());
        assert(t.drop_last() =~= s.drop_last().insert(p, kv)) by {
            s.drop_last().insert_ensures(p, kv);
        }
        assert forall|j: int| 0 <= j < s.drop_last().len() implies (#[trigger] s.drop_last()[j]).0
            != kv.0 by {
            assert(s.drop_last()[j] == s[j]);
        }
        lemma_map_of_kvs_insert(s.drop_last(), p, kv);
        assert(s[s.len() - 1].0 != kv.0);
        assert(map_of_kvs(s.drop_last()).insert(kv.0, kv.1).insert(s.last().0, s.last().1)
            =~= map_of_kvs(s.drop_last()).insert(s.last().0, s.last().1).insert(kv.0, kv.1));
    }
}

impl SkipList {
    /// Membership in any level's chain implies membership in the base chain.
    proof fn lemma_chain_in_base(self, l: int, i: int)
        requires
            self.wf(),
            0 <= l < MAX_HEIGHT as int,
            self.chains()[l].contains(i),
        ensures
            self.chains()[0].contains(i),
        decreases l,
    {
        if l > 0 {
            assert(self.chain_in_lower(l));
            let j = choose|j: int|
                0 <= j < self.chains()[l].len() && self.chains()[l][j] == i;
            assert(self.chains()[l - 1].contains(self.chains()[l][j]));
            self.lemma_chain_in_base(l - 1, i);
        }
    }

    /// The base chain's keys are pairwise distinct.
    proof fn lemma_base_keys_distinct(self)
        requires
            self.wf(),
        ensures
            forall|j1: int, j2: int|
                0 <= j1 < j2 < self.kvs_of_chain(self.chains()[0]).len() ==> (
                #[trigger] self.kvs_of_chain(self.chains()[0])[j1]).0 != (#[trigger] self.kvs_of_chain(
                    self.chains()[0],
                )[j2]).0,
    {
        let c = self.chains()[0];
        let s = self.kvs_of_chain(c);
        assert(self.chain_sorted(0));
        assert forall|j1: int, j2: int| 0 <= j1 < j2 < s.len() implies (#[trigger] s[j1]).0 != (
        #[trigger] s[j2]).0 by {
            assert(lex_lt(self.key_of(c[j1]), self.key_of(c[j2])));
            lemma_lex_total(self.key_of(c[j1]), self.key_of(c[j2]));
        }
    }

    /// What descent's base-level answer means for the stored map: the found
    /// entry matches `k` exactly when `k` is stored, and then carries the
    /// stored value.
    proof fn lemma_found(self, k: Seq<u8>, p: int, f: int)
        requires
            self.wf(),
            self.is_pred_at(0, p, k),
            f == self.next_of(p, 0),
        ensures
            f != 0 ==> self.valid_idx(f),
            (f != 0 && self.key_of(f) == k) <==> self@.contains_key(k),
            f != 0 && self.key_of(f) == k ==> self@[k] == self.val_of(f),
    {
        let c = self.chains()[0];
        let s = self.kvs_of_chain(c);
        assert(self.chain_linked(0));
        assert(self.chain_sorted(0));
        self.lemma_base_keys_distinct();
        // Position the predecessor and the found entry on the base chain.
        let jp: int = if p == 0 {
            -1
        } else {
            choose|j: int| 0 <= j < c.len() && c[j] == p
        };
        if p != 0 {
            assert(c.contains(p));
            assert(0 <= jp < c.len() && c[jp] == p);
            assert(self.chain_ok_at(0, jp));
        }
        let fpos = jp + 1;
        if f != 0 {
            assert(0 <= fpos < c.len() && c[fpos] == f) by {
                if p == 0 {
                    if c.len() == 0 {
                        assert(self.next_of(0, 0) == 0);
                    }
                    assert(c[0] == f);
                } else {
                    if fpos >= c.len() {
                        assert(self.next_of(p, 0) == 0);
                    }
                }
            }
            assert(self.chain_ok_at(0, fpos));
            assert(self.valid_idx(f));
        }
        // Everything strictly before the found position is below `k`.
        assert forall|j: int| 0 <= j < fpos implies lex_lt(self.key_of(c[j]), k) by {
            assert(lex_lt(self.key_of(c[j]), self.key_of(c[jp])) || j == jp);
            lemma_lex_lt_le(self.key_of(c[j]), self.key_of(c[jp]), k);
        }
        if f != 0 && self.key_of(f) == k {
            assert(s[fpos].0 == k);
            lemma_map_of_kvs_member(s, fpos);
            lemma_map_of_kvs_index(s, fpos);
            assert(self@[k] == s[fpos].1);
        }
        if self@.contains_key(k) {
            lemma_map_of_kvs_key(s, k);
            let j = choose|j: int| 0 <= j < s.len() && (#[trigger] s[j]).0 == k;
            assert(self.key_of(c[j]) == k);
            if j < fpos {
                assert(lex_lt(self.key_of(c[j]), k));
                lemma_lex_total(k, k);
                assert(false);
            }
            if f == 0 {
                // The chain ends at the predecessor, so no entry at or past
                // `k` exists, contradicting membership.
                assert(fpos >= c.len()) by {
                    if fpos < c.len() {
                        if p == 0 {
                            assert(c[0] != 0) by {
                                assert(self.chain_ok_at(0, 0));
                            }
                        } else {
                            assert(c[fpos] != 0) by {
                                assert(self.chain_ok_at(0, fpos));
                            }
                        }
                    }
                }
                assert(false);
            } else {
                if j > fpos {
                    assert(lex_lt(self.key_of(c[fpos]), self.key_of(c[j])));
                    assert(lex_le(k, self.key_of(f)));
                    lemma_lex_lt_le(self.key_of(f), k, self.key_of(f));
                    lemma_lex_total(self.key_of(f), self.key_of(f));
                    assert(false);
                }
                assert(j == fpos);
                assert(self.key_of(f) == k);
            }
        }
    }

    /// Point lookup: the value stored under `key`, if any.
    pub fn get(&self, key: &Vec<u8>) -> (r: Option<Vec<u8>>)
        requires
            self.wf(),
        ensures
            match r {
                Option::Some(v) => self@.contains_key(key@) && v@ == self@[key@],
                Option::None => !self@.contains_key(key@),
            },
    {
        let (found, preds) = self.find_greater_or_eq(key);
        proof {
            assert(self.is_pred_at(0, preds@[0] as int, key@));
            self.lemma_found(key@, preds@[0] as int, found as int);
        }
        if found != 0 {
            let order = key_cmp(key, &self.nodes[found].key);
            if order == KeyOrder::Equal {
                return Some(copy_bytes(&self.nodes[found].value));
            }
        }
        None
    }

    /// Membership check: whether `get` would return a value.
    pub fn contain(&self, key: &Vec<u8>) -> (r: bool)
        requires
            self.wf(),
        ensures
            r == self@.contains_key(key@),
    {
        let got = self.get(key);
        got.is_some()
    }
}

/// Inserting into a chain preserves membership and adds the new element.
proof fn lemma_insert_contains(c: Seq<int>, p: int, x: int, y: int)
    requires
        0 <= p <= c.len(),
        c.contains(y) || y == x,
    ensures
        c.insert(p, x).contains(y),
{
    c.insert_ensures(p, x);
    if y == x {
        assert(c.insert(p, x)[p] == y);
    } else {
        let j = choose|j: int| 0 <= j < c.len() && c[j] == y;
        if j < p {
            assert(c.insert(p, x)[j] == y);
        } else {
            assert(c.insert(p, x)[j + 1] == y);
        }
    }
}

impl SkipList {
    /// Chain entries are pairwise distinct: their keys strictly ascend.
    proof fn lemma_chain_distinct(self, l: int)
        requires
            self.wf(),
            0 <= l < MAX_HEIGHT as int,
        ensures
            forall|j1: int, j2: int|
                0 <= j1 < j2 < self.chains()[l].len() ==> (#[trigger] self.chains()[l][j1]) != (
                #[trigger] self.chains()[l][j2]),
    {
        let c = self.chains()[l];
        assert(self.chain_sorted(l));
        assert forall|j1: int, j2: int| 0 <= j1 < j2 < c.len() implies (#[trigger] c[j1]) != (
        #[trigger] c[j2]) by {
            assert(lex_lt(self.key_of(c[j1]), self.key_of(c[j2])));
            lemma_lex_total(self.key_of(c[j1]), self.key_of(c[j2]));
        }
    }

    /// The key of any chain entry, at any level, is a stored key.
    proof fn lemma_chain_key_present(self, l: int, i: int)
        requires
            self.wf(),
            0 <= l < MAX_HEIGHT as int,
            self.chains()[l].contains(i),
        ensures
            self@.contains_key(self.key_of(i)),
    {
        self.lemma_chain_in_base(l, i);
        let c = self.chains()[0];
        let j = choose|j: int| 0 <= j < c.len() && c[j] == i;
        assert(self.kvs_of_chain(c)[j].0 == self.key_of(i));
        lemma_map_of_kvs_member(self.kvs_of_chain(c), j);
    }
}

impl SkipList {
    /// The position of entry `p` in the level-`l` chain, with -1 for the
    /// head sentinel.
    spec fn pos_of(self, l: int, p: int) -> int {
        if p == 0 {
            -1
        } else {
            choose|j: int| 0 <= j < self.chains()[l].len() && self.chains()[l][j] == p
        }
    }

    /// The splice point on level `l` — the predecessor's position plus one
    /// — lies within the chain, just past the predecessor.
    proof fn lemma_splice_point(self, l: int, p: int, k: Seq<u8>)
        requires
            self.wf(),
            0 <= l < MAX_HEIGHT as int,
            self.is_pred_at(l, p, k),
        ensures
            0 <= self.pos_of(l, p) + 1 <= self.chains()[l].len(),
            p != 0 ==> 0 <= self.pos_of(l, p) && self.chains()[l][self.pos_of(l, p)] == p,
            p == 0 ==> self.pos_of(l, p) == -1,
    {
        if p != 0 {
            assert(self.chains()[l].contains(p));
        }
    }

    /// The predecessor's forward link on level `l` is the chain entry just
    /// past the splice point, or nil at the chain's end.
    proof fn lemma_pred_link(self, l: int, p: int, k: Seq<u8>)
        requires
            self.wf(),
            0 <= l < MAX_HEIGHT as int,
            self.is_pred_at(l, p, k),
        ensures
            self.next_of(p, l) == if self.pos_of(l, p) + 1 < self.chains()[l].len() {
                self.chains()[l][self.pos_of(l, p) + 1]
            } else {
                0
            },
    {
        self.lemma_splice_point(l, p, k);
        assert(self.chain_linked(l));
        if p == 0 {
            if self.chains()[l].len() > 0 {
                assert(self.chains()[l][0] == self.next_of(0, l));
            }
        } else {
            assert(self.chain_ok_at(l, self.pos_of(l, p)));
        }
    }
}

impl SkipList {
    /// The deterministic core of insertion: weaves `key -> value` in with
    /// the given tower height. A key already stored is rejected, with the
    /// structure untouched; otherwise the new entry is spliced into every
    /// level below `height`, raising the structure's height first when the
    /// tower outgrows it.
    #[verifier::loop_isolation(false)]
    #[verifier::rlimit(100)]
    pub fn insert_with_height(&mut self, key: Vec<u8>, value: Vec<u8>, height: usize) -> (r: Result<
        (),
        DuplicateKeyError,
    >)
        requires
            old(self).wf(),
            1 <= height <= MAX_HEIGHT,
        ensures
            final(self).wf(),
            match r {
                Result::Ok(()) => !old(self)@.contains_key(key@) && final(self)@ == old(
                    self,
                )@.insert(key@, value@) && final(self).height() == if old(self).height() < height
                    as int {
                    height as int
                } else {
                    old(self).height()
                },
                Result::Err(_) => old(self)@.contains_key(key@) && *final(self) == *old(self),
            },
    {
        let ghost k = key@;
        let ghost v = value@;
        let (found, preds) = self.find_greater_or_eq(&key);
        proof {
            assert(self.is_pred_at(0, preds@[0] as int, k));
            self.lemma_found(k, preds@[0] as int, found as int);
        }
        if found != 0 {
            let order = key_cmp(&key, &self.nodes[found].key);
            if order == KeyOrder::Equal {
                return Result::Err(DuplicateKeyError);
            }
        }
        proof {
            assert(!old(self)@.contains_key(k));
        }
        // Newly activated levels keep the head as their predecessor: no
        // entry has ever stood in a level that did not exist before.
        if height > self.current_height {
            self.current_height = height;
        }
        let ghost newch = self.current_height as int;
        proof {
            assert forall|l: int| 0 <= l < height as int implies old(self).is_pred_at(
                l,
                preds@[l] as int,
                k,
            ) by {
                if l >= old(self).height() {
                    assert(old(self).chains()[l].len() == 0);
                    assert(old(self).chain_linked(l));
                    assert(preds@[l] == 0);
                }
            }
        }
        // Read each predecessor's forward link first: these become the new
        // entry's successors; overwriting afterwards is what keeps every
        // old successor reachable.
        let mut nexts: Vec<usize> = Vec::new();
        let mut l: usize = 0;
        while l < height
            invariant
                l <= height,
                nexts@.len() == l,
                self.nodes@ == old(self).nodes@,
                self.current_height as int == newch,
                forall|j: int|
                    0 <= j < l ==> (#[trigger] nexts@[j]) as int == old(self).next_of(
                        preds@[j] as int,
                        j,
                    ),
            decreases height - l,
        {
            let p = preds[l];
            proof {
                assert(old(self).is_pred_at(l as int, p as int, k));
            }
            nexts.push(self.nodes[p].next[l]);
            l = l + 1;
        }
        let mut node = SkipListNode::new(key, value);
        node.next = nexts;
        let ghost nodeval = node;
        let new_idx = self.nodes.len();
        let ghost n0 = old(self).nodes@.len() as int;
        self.nodes.push(node);
        // Splice, level by level: point each predecessor at the new entry.
        let mut l: usize = 0;
        while l < height
            invariant
                l <= height,
                self.nodes@.len() == n0 + 1,
                self.levels@ == old(self).levels@,
                self.current_height as int == newch,
                new_idx as int == n0,
                forall|i: int|
                    0 <= i < n0 ==> (#[trigger] self.nodes@[i]).key@ == old(self).nodes@[i].key@
                        && self.nodes@[i].value@ == old(self).nodes@[i].value@
                        && self.nodes@[i].next@.len() == old(self).nodes@[i].next@.len(),
                self.nodes@[n0].key@ == k,
                self.nodes@[n0].value@ == v,
                self.nodes@[n0].next@ == nodeval.next@,
                forall|lv: int|
                    0 <= lv < l ==> (#[trigger] self.nodes@[preds@[lv] as int].next@[lv])
                        == new_idx,
                forall|i: int, lv: int|
                    0 <= i < n0 && 0 <= lv < self.nodes@[i].next@.len() && !(0 <= lv < l && i
                        == preds@[lv] as int) ==> (#[trigger] self.nodes@[i].next@[lv]) == old(
                        self,
                    ).nodes@[i].next@[lv],
            decreases height - l,
        {
            let p = preds[l];
            proof {
                assert(old(self).is_pred_at(l as int, p as int, k));
            }
            let node_ref = &mut self.nodes[p];
            node_ref.next.set(l, new_idx);
            l = l + 1;
        }
        let ghost pre = *old(self);
        let ghost newlev = Seq::new(
            MAX_HEIGHT as nat,
            |l: int|
                if 0 <= l < height as int {
                    pre.chains()[l].insert(pre.pos_of(l, preds@[l] as int) + 1, n0)
                } else {
                    pre.chains()[l]
                },
        );
        self.levels = Ghost(newlev);
        proof {
            let post = *self;
            assert(post.chains() == newlev);
            assert(nodeval.next@.len() == height);
            // Per level: the new chain is linked and sorted.
            assert forall|l: int| 0 <= l < MAX_HEIGHT as int implies #[trigger] post.chain_linked(l)
                && post.chain_sorted(l) by {
                assert(pre.chain_linked(l));
                assert(pre.chain_sorted(l));
                pre.lemma_chain_distinct(l);
                if l < height as int {
                    let c = pre.chains()[l];
                    let pp = preds@[l] as int;
                    let sp = pre.pos_of(l, pp) + 1;
                    let c2 = post.chains()[l];
                    assert(pre.is_pred_at(l, pp, k));
                    pre.lemma_splice_point(l, pp, k);
                    pre.lemma_pred_link(l, pp, k);
                    assert(c2 == c.insert(sp, n0));
                    c.insert_ensures(sp, n0);
                    // The old successor's key, when there is one, lies past `k`.
                    if sp < c.len() {
                        assert(pre.chain_ok_at(l, sp));
                        assert(c.contains(c[sp]));
                        pre.lemma_chain_key_present(l, c[sp]);
                        assert(pre.key_of(c[sp]) != k);
                        assert(pre.next_of(pp, l) == c[sp]);
                        assert(lex_le(k, pre.key_of(c[sp])));
                        assert(lex_lt(k, pre.key_of(c[sp])));
                    }
                    // Linked: the head clause.
                    if pp == 0 {
                        assert(sp == 0);
                        assert(post.nodes@[0].next@[l] == new_idx);
                        assert(c2[0] == n0);
                    } else {
                        assert(post.next_of(0, l) == pre.next_of(0, l));
                        assert(sp >= 1);
                        assert(c.len() > 0);
                        assert(c2[0] == c[0]);
                    }
                    // Linked: every position.
                    assert forall|j: int| 0 <= j < c2.len() implies #[trigger] post.chain_ok_at(
                        l,
                        j,
                    ) by {
                        if j == sp {
                            assert(c2[j] == n0);
                            assert(post.height_of(n0) == height as int);
                            assert(post.next_of(n0, l) == nodeval.next@[l]);
                            assert(nodeval.next@[l] as int == pre.next_of(pp, l));
                            if sp < c.len() {
                                assert(pre.chain_ok_at(l, sp));
                                assert(c2[j + 1] == c[sp]);
                                assert(post.next_of(n0, l) == c2[j + 1]);
                            } else {
                                assert(j + 1 == c2.len());
                                assert(post.next_of(n0, l) == 0);
                            }
                        } else if j == sp - 1 {
                            assert(c2[j] == c[j] && c[j] == pp);
                            assert(post.nodes@[pp].next@[l] == new_idx);
                            assert(c2[sp] == n0);
                            assert(post.next_of(pp, l) == n0);
                        } else if j < sp - 1 {
                            assert(c2[j] == c[j]);
                            assert(pre.chain_ok_at(l, j));
                            assert(c[j] != pp);
                            assert(post.next_of(c[j], l) == pre.next_of(c[j], l));
                            assert(c2[j + 1] == c[j + 1]);
                        } else {
                            assert(j > sp);
                            assert(c2[j] == c[j - 1]);
                            assert(pre.chain_ok_at(l, j - 1));
                            assert(c[j - 1] != pp) by {
                                if pp != 0 {
                                    assert(c[sp - 1] == pp);
                                }
                            }
                            assert(c[j - 1] != n0);
                            assert(post.next_of(c[j - 1], l) == pre.next_of(c[j - 1], l));
                            if j + 1 < c2.len() {
                                assert(c2[j + 1] == c[j]);
                            }
                        }
                    }
                    // Sorted: the new key sits strictly between its
                    // predecessor and its successor.
                    assert forall|j1: int, j2: int| 0 <= j1 < j2 < c2.len() implies lex_lt(
                        post.key_of(#[trigger] c2[j1]),
                        post.key_of(#[trigger] c2[j2]),
                    ) by {
                        if pp != 0 {
                            assert(c[sp - 1] == pp);
                            assert(lex_lt(pre.key_of(pp), k));
                        }
                        if j1 == sp {
                            let o2 = j2 - 1;
                            assert(pre.chain_ok_at(l, o2));
                            assert(post.key_of(c2[j2]) == pre.key_of(c[o2]));
                            if o2 == sp {
                                assert(lex_lt(k, pre.key_of(c[sp])));
                            } else {
                                assert(lex_lt(pre.key_of(c[sp]), pre.key_of(c[o2])));
                                lemma_lex_trans(k, pre.key_of(c[sp]), pre.key_of(c[o2]));
                            }
                        } else if j2 == sp {
                            let o1 = j1;
                            assert(pre.chain_ok_at(l, o1));
                            assert(post.key_of(c2[j1]) == pre.key_of(c[o1]));
                            if o1 == sp - 1 {
                                assert(lex_lt(pre.key_of(c[o1]), k));
                            } else {
                                assert(lex_lt(pre.key_of(c[o1]), pre.key_of(c[sp - 1])));
                                lemma_lex_trans(pre.key_of(c[o1]), pre.key_of(pp), k);
                            }
                        } else {
                            let o1: int = if j1 < sp {
                                j1
                            } else {
                                j1 - 1
                            };
                            let o2: int = if j2 < sp {
                                j2
                            } else {
                                j2 - 1
                            };
                            assert(pre.chain_ok_at(l, o1));
                            assert(pre.chain_ok_at(l, o2));
                            assert(c2[j1] == c[o1] && c2[j2] == c[o2]);
                            assert(o1 < o2);
                            assert(lex_lt(pre.key_of(c[o1]), pre.key_of(c[o2])));
                        }
                    }
                } else {
                    // Untouched level: the chain and all its links persist.
                    let c = pre.chains()[l];
                    assert(post.chains()[l] == c);
                    assert(post.next_of(0, l) == pre.next_of(0, l));
                    assert forall|j: int| 0 <= j < c.len() implies #[trigger] post.chain_ok_at(
                        l,
                        j,
                    ) by {
                        assert(pre.chain_ok_at(l, j));
                        assert(post.next_of(c[j], l) == pre.next_of(c[j], l));
                    }
                    assert forall|j1: int, j2: int| 0 <= j1 < j2 < c.len() implies lex_lt(
                        post.key_of(#[trigger] c[j1]),
                        post.key_of(#[trigger] c[j2]),
                    ) by {
                        assert(pre.chain_ok_at(l, j1));
                        assert(pre.chain_ok_at(l, j2));
                        assert(lex_lt(pre.key_of(c[j1]), pre.key_of(c[j2])));
                    }
                }
            }
            // Per level: chains still thin as levels rise.
            assert forall|l: int| 1 <= l < MAX_HEIGHT as int implies #[trigger] post.chain_in_lower(
                l,
            ) by {
                let cu = post.chains()[l];
                let cd = post.chains()[l - 1];
                let pd = pre.chains()[l - 1];
                let spd = pre.pos_of(l - 1, preds@[l - 1] as int) + 1;
                assert(pre.chain_in_lower(l));
                if l - 1 < height as int {
                    assert(pre.is_pred_at(l - 1, preds@[l - 1] as int, k));
                    pre.lemma_splice_point(l - 1, preds@[l - 1] as int, k);
                }
                assert forall|j: int| 0 <= j < cu.len() implies #[trigger] cd.contains(cu[j]) by {
                    if l < height as int {
                        let pu = pre.chains()[l];
                        let spu = pre.pos_of(l, preds@[l] as int) + 1;
                        assert(pre.is_pred_at(l, preds@[l] as int, k));
                        pre.lemma_splice_point(l, preds@[l] as int, k);
                        pu.insert_ensures(spu, n0);
                        assert(cu == pu.insert(spu, n0));
                        assert(cd == pd.insert(spd, n0));
                        if j == spu {
                            lemma_insert_contains(pd, spd, n0, n0);
                        } else {
                            let o: int = if j < spu {
                                j
                            } else {
                                j - 1
                            };
                            assert(cu[j] == pu[o]);
                            assert(pd.contains(pu[o]));
                            lemma_insert_contains(pd, spd, n0, pu[o]);
                        }
                    } else if l == height as int {
                        assert(cu == pre.chains()[l]);
                        assert(cd == pd.insert(spd, n0));
                        assert(pd.contains(cu[j]));
                        lemma_insert_contains(pd, spd, n0, cu[j]);
                    } else {
                        assert(cu == pre.chains()[l]);
                        assert(cd == pd);
                        assert(pd.contains(cu[j]));
                    }
                }
            }
            // No chain above the (possibly raised) height.
            assert forall|l: int| newch <= l < MAX_HEIGHT as int implies (
            #[trigger] post.chains()[l]).len() == 0 by {
                assert(post.chains()[l] == pre.chains()[l]);
                assert(pre.chains()[l].len() == 0);
            }
            assert forall|l: int| 0 <= l < MAX_HEIGHT as int implies #[trigger] post.chain_sorted(
                l,
            ) by {
                assert(post.chain_linked(l));
            }
            assert(post.wf());
            // The stored map gains exactly `k -> v`.
            let c0 = pre.chains()[0];
            let pp0 = preds@[0] as int;
            let sp0 = pre.pos_of(0, pp0) + 1;
            let s = pre.kvs_of_chain(c0);
            let s2 = post.kvs_of_chain(post.chains()[0]);
            assert(pre.is_pred_at(0, pp0, k));
            assert(pre.chain_linked(0));
            pre.lemma_splice_point(0, pp0, k);
            c0.insert_ensures(sp0, n0);
            s.insert_ensures(sp0, (k, v));
            assert(post.chains()[0] == c0.insert(sp0, n0));
            assert forall|j: int| 0 <= j < s2.len() implies #[trigger] s2[j] == s.insert(
                sp0,
                (k, v),
            )[j] by {
                if j < sp0 {
                    assert(pre.chain_ok_at(0, j));
                    assert(post.chains()[0][j] == c0[j]);
                } else if j == sp0 {
                    assert(post.chains()[0][j] == n0);
                } else {
                    assert(pre.chain_ok_at(0, j - 1));
                    assert(post.chains()[0][j] == c0[j - 1]);
                }
            }
            assert(s2 =~= s.insert(sp0, (k, v)));
            assert forall|j: int| 0 <= j < s.len() implies (#[trigger] s[j]).0 != k by {
                assert(c0.contains(c0[j]));
                pre.lemma_chain_key_present(0, c0[j]);
            }
            lemma_map_of_kvs_insert(s, sp0, (k, v));
            assert(post@ == pre@.insert(k, v));
        }
        Result::Ok(())
    }

    /// Inserts `key -> value` under a randomly sampled tower height:
    /// rejects a key already present, leaving the structure unchanged.
    pub fn insert(&mut self, key: Vec<u8>, value: Vec<u8>) -> (r: Result<(), DuplicateKeyError>)
        requires
            old(self).wf(),
        ensures
            final(self).wf(),
            old(self).height() <= final(self).height() <= MAX_HEIGHT as int,
            match r {
                Result::Ok(()) => !old(self)@.contains_key(key@) && final(self)@ == old(
                    self,
                )@.insert(key@, value@),
                Result::Err(_) => old(self)@.contains_key(key@) && *final(self) == *old(self),
            },
    {
        let height = calculate_random_height();
        self.insert_with_height(key, value, height)
    }
}

impl SkipList {
    /// The highest level currently in use, between 1 and `MAX_HEIGHT`; it
    /// never decreases over the map's lifetime.
    pub fn current_height(&self) -> (h: usize)
        requires
            self.wf(),
        ensures
            h as int == self.height(),
            1 <= h <= MAX_HEIGHT,
    {
        self.current_height
    }

    /// The stored keys in ascending byte-wise order, as a walk of the
    /// base-level chain visits them: strictly sorted, with no duplicates,
    /// and exactly the keys of the stored map.
    #[verifier::loop_isolation(false)]
    pub fn keys_in_order(&self) -> (r: Vec<Vec<u8>>)
        requires
            self.wf(),
        ensures
            forall|j1: int, j2: int|
                0 <= j1 < j2 < r@.len() ==> lex_lt((#[trigger] r@[j1])@, (#[trigger] r@[j2])@),
            forall|j: int| 0 <= j < r@.len() ==> self@.contains_key((#[trigger] r@[j])@),
            forall|kk: Seq<u8>|
                #[trigger] self@.contains_key(kk) ==> exists|j: int|
                    0 <= j < r@.len() && (#[trigger] r@[j])@ == kk,
    {
        let ghost c = self.chains()[0];
        let mut r: Vec<Vec<u8>> = Vec::new();
        proof {
            assert(self.chain_linked(0));
            if c.len() > 0 {
                assert(self.chain_ok_at(0, 0));
            }
        }
        let mut current = self.nodes[0].next[0];
        let ghost mut pos: int = 0;
        while current != 0
            invariant
                0 <= pos <= c.len(),
                r@.len() == pos,
                forall|j: int| 0 <= j < pos ==> (#[trigger] r@[j])@ == self.key_of(c[j]),
                current as int == if pos < c.len() {
                    c[pos]
                } else {
                    0
                },
                (current as int) < self.n(),
            decreases c.len() - pos,
        {
            proof {
                assert(self.chain_ok_at(0, pos));
            }
            let key_copy = copy_bytes(&self.nodes[current].key);
            r.push(key_copy);
            current = self.nodes[current].next[0];
            proof {
                pos = pos + 1;
                if pos < c.len() {
                    assert(self.chain_ok_at(0, pos));
                }
            }
        }
        proof {
            if pos < c.len() {
                assert(self.chain_ok_at(0, pos));
                assert(false);
            }
            assert(self.chain_sorted(0));
            let s = self.kvs_of_chain(c);
            assert forall|j: int| 0 <= j < r@.len() implies self@.contains_key(
                (#[trigger] r@[j])@,
            ) by {
                assert(s[j].0 == self.key_of(c[j]));
                lemma_map_of_kvs_member(s, j);
            }
            assert forall|kk: Seq<u8>| #[trigger] self@.contains_key(kk) implies exists|j: int|
                0 <= j < r@.len() && (#[trigger] r@[j])@ == kk by {
                lemma_map_of_kvs_key(s, kk);
                let j = choose|j: int| 0 <= j < s.len() && (#[trigger] s[j]).0 == kk;
                assert(r@[j]@ == kk);
            }
        }
        r
    }
}

/// Round-trip law: after `insert(k, v)` succeeds, its contract makes the
/// new state's map `m.insert(k, v)`; there `k` is present and reads back
/// exactly `v` — and stays so until the next mutation, since only `insert`
/// changes the map.
pub proof fn lemma_insert_round_trip(pre: SkipList, post: SkipList, k: Seq<u8>, v: Seq<u8>)
    requires
        post@ == pre@.insert(k, v),
    ensures
        post@.contains_key(k),
        post@[k] == v,
{
}

/// Uniqueness law: in the state a successful `insert(k, v1)` leaves, `k`
/// is present — so by `insert`'s contract a later `insert(k, v2)` returns
/// the duplicate-key error, changes nothing, and `k` still reads back `v1`.
pub proof fn lemma_duplicate_rejected(pre: SkipList, mid: SkipList, k: Seq<u8>, v1: Seq<u8>)
    requires
        mid@ == pre@.insert(k, v1),
    ensures
        mid@.contains_key(k),
        mid@[k] == v1,
{
}

/// Absence law: a key never inserted stays absent — the empty map holds
/// nothing, and inserting a different key cannot make it present.
pub proof fn lemma_absent_key(m: Map<Seq<u8>, Seq<u8>>, k: Seq<u8>, k2: Seq<u8>, v: Seq<u8>)
    requires
        k != k2,
        !m.contains_key(k),
    ensures
        !Map::<Seq<u8>, Seq<u8>>::empty().contains_key(k),
        !m.insert(k2, v).contains_key(k),
{
}

/// A copy of a byte vector.
fn copy_bytes(v: &Vec<u8>) -> (r: Vec<u8>)
    ensures
        r@ == v@,
{
    let mut r: Vec<u8> = Vec::new();
    let mut i: usize = 0;
    while i < v.len()
        invariant
            i <= v@.len(),
            r@.len() == i,
            forall|j: int| 0 <= j < i ==> r@[j] == v@[j],
        decreases v@.len() - i,
    {
        r.push(v[i]);
        i = i + 1;
    }
    proof {
        assert(r@ =~= v@);
    }
    r
}

} // verus!
