//! The occurrence map: folded-stack key to cumulative sample count for
//! one run. Entries are kept in insertion order; accumulating under an
//! existing key adds to its count and never overwrites, and serializing
//! writes one `key count` line per entry and empties the map so the same
//! value can serve the next run.

use vstd::prelude::*;
use vstd::string::StringExecFns;

use crate::strutil::push_decimal;
use crate::strutil::spec_dec_digits;

verus! {

pub struct Occurrences {
    entries: Vec<(String, usize)>,
}

impl View for Occurrences {
    type V = Seq<(Seq<char>, nat)>;

    closed spec fn view(&self) -> Seq<(Seq<char>, nat)> {
        self.entries@.map(|i: int, e: (String, usize)| (e.0@, e.1 as nat))
    }
}

/// Index of the first entry of `occ` whose key is `key`, at or after
/// `from`, or `occ.len()` when there is none.
pub open spec fn spec_find_key(occ: Seq<(Seq<char>, nat)>, key: Seq<char>, from: int) -> int
    decreases occ.len() - from,
{
    if from >= occ.len() {
        occ.len() as int
    } else if occ[from].0 == key {
        from
    } else {
        spec_find_key(occ, key, from + 1)
    }
}

/// Addition capped at `usize::MAX`, the largest count an entry can hold.
pub open spec fn spec_sat_add(a: nat, b: nat) -> nat {
    if a + b > usize::MAX {
        usize::MAX as nat
    } else {
        a + b
    }
}

/// `occ` after accumulating `count` under `key`: the count is added to
/// the first entry carrying `key`, or a new entry is appended.
pub open spec fn spec_insert(
    occ: Seq<(Seq<char>, nat)>,
    key: Seq<char>,
    count: nat,
) -> Seq<(Seq<char>, nat)> {
    let i = spec_find_key(occ, key, 0);
    if i == occ.len() {
        occ.push((key, count))
    } else {
        occ.update(i, (key, spec_sat_add(occ[i].1, count)))
    }
}

/// The serialized form of `occ`: for each entry in order, its key, one
/// space, the decimal count, and a newline.
pub open spec fn spec_render(occ: Seq<(Seq<char>, nat)>) -> Seq<char>
    decreases occ.len(),
{
    if occ.len() == 0 {
        Seq::empty()
    } else {
        spec_render(occ.drop_last()) + occ.last().0 + seq![' '] + spec_dec_digits(occ.last().1)
            + seq!['\n']
    }
}

/// The total currently recorded under `key`: the count of its first
/// entry, or zero when the key is absent.
pub open spec fn spec_count_of(occ: Seq<(Seq<char>, nat)>, key: Seq<char>) -> nat {
    let i = spec_find_key(occ, key, 0);
    if i < occ.len() {
        occ[i].1
    } else {
        0
    }
}

/// The found index lies between `from` and the length; a hit carries
/// the key, and every entry passed over does not.
proof fn lemma_find_key_props(occ: Seq<(Seq<char>, nat)>, key: Seq<char>, from: int)
    requires
        0 <= from <= occ.len(),
    ensures
        from <= spec_find_key(occ, key, from) <= occ.len(),
        spec_find_key(occ, key, from) < occ.len() ==> occ[spec_find_key(occ, key, from)].0 == key,
        forall|j: int| from <= j < spec_find_key(occ, key, from) ==> occ[j].0 != key,
    decreases occ.len() - from,
{
    if from < occ.len() && occ[from].0 != key {
        lemma_find_key_props(occ, key, from + 1);
    }
}

/// Two maps whose entries carry the same keys in the same order are
/// searched alike.
proof fn lemma_find_key_same_keys(
    occ1: Seq<(Seq<char>, nat)>,
    occ2: Seq<(Seq<char>, nat)>,
    key: Seq<char>,
    from: int,
)
    requires
        0 <= from <= occ1.len(),
        occ1.len() == occ2.len(),
        forall|j: int| 0 <= j < occ1.len() ==> occ1[j].0 == occ2[j].0,
    ensures
        spec_find_key(occ1, key, from) == spec_find_key(occ2, key, from),
    decreases occ1.len() - from,
{
    if from < occ1.len() && occ1[from].0 != key {
        lemma_find_key_same_keys(occ1, occ2, key, from + 1);
    }
}

/// Law: accumulating a count under a key adds it to that key's total,
/// capped at `usize::MAX`, and never overwrites — the total recorded
/// under every other key is unchanged. Identical folded paths observed
/// repeatedly therefore sum their sample counts.
pub proof fn lemma_insert_accumulates(occ: Seq<(Seq<char>, nat)>, key: Seq<char>, count: nat)
    requires
        count <= usize::MAX,
    ensures
        spec_count_of(spec_insert(occ, key, count), key) == spec_sat_add(
            spec_count_of(occ, key),
            count,
        ),
        forall|other: Seq<char>|
            other != key ==> spec_count_of(spec_insert(occ, key, count), other) == spec_count_of(
                occ,
                other,
            ),
{
    let i = spec_find_key(occ, key, 0);
    lemma_find_key_props(occ, key, 0);
    let occ2 = spec_insert(occ, key, count);
    if i < occ.len() {
        assert(forall|j: int| 0 <= j < occ.len() ==> occ[j].0 == occ2[j].0);
        lemma_find_key_same_keys(occ, occ2, key, 0);
        assert(spec_count_of(occ2, key) == spec_sat_add(spec_count_of(occ, key), count));
        assert forall|other: Seq<char>| other != key implies spec_count_of(occ2, other)
            == spec_count_of(occ, other) by {
            lemma_find_key_same_keys(occ, occ2, other, 0);
            lemma_find_key_props(occ, other, 0);
            let io = spec_find_key(occ, other, 0);
            if io < occ.len() {
                assert(io != i);
            }
        }
    } else {
        assert(occ2 == occ.push((key, count)));
        lemma_find_key_props(occ2, key, 0);
        assert(spec_find_key(occ2, key, 0) == occ.len()) by {
            assert(occ2[occ.len() as int].0 == key);
            assert(forall|j: int| 0 <= j < occ.len() ==> occ2[j].0 == occ[j].0 && occ[j].0 != key);
            lemma_find_key_first_hit(occ2, key, occ.len() as int);
        };
        assert(spec_count_of(occ2, key) == count);
        assert forall|other: Seq<char>| other != key implies spec_count_of(occ2, other)
            == spec_count_of(occ, other) by {
            lemma_find_key_props(occ, other, 0);
            lemma_find_key_props(occ2, other, 0);
            let io = spec_find_key(occ, other, 0);
            if io < occ.len() {
                assert(occ2[io].0 == other);
                assert(spec_find_key(occ2, other, 0) == io) by {
                    lemma_find_key_first_hit(occ2, other, io);
                };
                assert(spec_count_of(occ2, other) == occ2[io].1);
            } else {
                assert(spec_find_key(occ2, other, 0) == occ2.len()) by {
                    assert(forall|j: int| 0 <= j < occ2.len() ==> occ2[j].0 != other);
                    lemma_find_key_props(occ2, other, 0);
                };
            }
        }
    }
}

/// A search stops at the first index that carries the key.
proof fn lemma_find_key_first_hit(occ: Seq<(Seq<char>, nat)>, key: Seq<char>, i: int)
    requires
        0 <= i < occ.len(),
        occ[i].0 == key,
        forall|j: int| 0 <= j < i ==> occ[j].0 != key,
    ensures
        spec_find_key(occ, key, 0) == i,
{
    lemma_find_key_stops(occ, key, 0, i);
}

proof fn lemma_find_key_stops(occ: Seq<(Seq<char>, nat)>, key: Seq<char>, from: int, i: int)
    requires
        0 <= from <= i < occ.len(),
        occ[i].0 == key,
        forall|j: int| from <= j < i ==> occ[j].0 != key,
    ensures
        spec_find_key(occ, key, from) == i,
    decreases i - from,
{
    if from < i {
        lemma_find_key_stops(occ, key, from + 1, i);
    }
}

impl Occurrences {
    pub fn new() -> (r: Self)
        ensures
            r@ == Seq::<(Seq<char>, nat)>::empty(),
    {
        let r = Occurrences { entries: Vec::new() };
        proof {
            assert(r@ =~= Seq::<(Seq<char>, nat)>::empty());
        }
        r
    }

    /// Adds `count` to the count recorded under `key`, creating the
    /// entry when `key` is new. Accumulation, never overwrite; the sum
    /// is capped at `usize::MAX`.
    pub fn insert(&mut self, key: String, count: usize)
        ensures
            final(self)@ == spec_insert(old(self)@, key@, count as nat),
    {
        let n = self.entries.len();
        let mut i: usize = 0;
        while i < n
            invariant
                i <= n,
                n == self.entries.len(),
                self.entries@ == old(self).entries@,
                spec_find_key(self@, key@, 0) == spec_find_key(self@, key@, i as int),
            decreases n - i,
        {
            let hit = self.entries[i].0 == key;
            if hit {
                let cur = self.entries[i].1;
                let added = if cur > usize::MAX - count {
                    usize::MAX
                } else {
                    cur + count
                };
                self.entries[i].1 = added;
                proof {
                    assert(self@ =~= spec_insert(old(self)@, key@, count as nat));
                }
                return ;
            }
            i = i + 1;
        }
        self.entries.push((key, count));
        proof {
            assert(self@ =~= spec_insert(old(self)@, key@, count as nat));
        }
    }

    /// Appends every accumulated entry to `out`, one `key count` line
    /// each, in insertion order, then empties the map for reuse.
    pub fn write_and_clear(&mut self, out: &mut String)
        ensures
            final(out)@ == old(out)@ + spec_render(old(self)@),
            final(self)@ == Seq::<(Seq<char>, nat)>::empty(),
    {
        let n = self.entries.len();
        proof {
            assert(spec_render(self@.subrange(0, 0)) =~= Seq::<char>::empty());
        }
        let mut i: usize = 0;
        while i < n
            invariant
                i <= n,
                n == self.entries.len(),
                self.entries@ == old(self).entries@,
                out@ == old(out)@ + spec_render(self@.subrange(0, i as int)),
            decreases n - i,
        {
            let line_key: &str = self.entries[i].0.as_str();
            out.append(line_key);
            out.append(" ");
            push_decimal(self.entries[i].1, out);
            out.append("\n");
            proof {
                reveal_strlit(" ");
                reveal_strlit("\n");
                assert(" "@ =~= seq![' ']);
                assert("\n"@ =~= seq!['\n']);
                assert(self@.subrange(0, i + 1).drop_last() =~= self@.subrange(0, i as int));
                assert(self@.subrange(0, i + 1).last() == self@[i as int]);
                assert(out@ =~= old(out)@ + spec_render(self@.subrange(0, i + 1)));
            }
            i = i + 1;
        }
        proof {
            assert(self@.subrange(0, n as int) =~= self@);
        }
        self.entries.clear();
        proof {
            assert(self@ =~= Seq::<(Seq<char>, nat)>::empty());
        }
    }

    /// The number of distinct keys currently recorded.
    pub fn len(&self) -> (r: usize)
        ensures
            r == self@.len(),
    {
        self.entries.len()
    }
}

} // verus!
