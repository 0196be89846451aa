//! The in-memory index: a list of `(key, offset)` pairs with distinct
//! keys, and its meaning as a map from key bytes to the value bytes of
//! the record each offset points at.

use vstd::prelude::*;

use crate::replay::{rec_cmd, rec_fits, rec_key, rec_len, rec_ok, rec_value};

verus! {

broadcast use vstd::map::group_map_axioms;

/// One index entry: a live key and the offset of its most recent
/// `PUT` record in the log.
pub struct IndexEntry {
    pub key: Vec<u8>,
    pub off: usize,
}

/// The entry points at a complete `PUT` record for its own key.
pub open spec fn entry_ok(log: Seq<u8>, e: IndexEntry) -> bool {
    &&& rec_ok(log, e.off as int)
    &&& rec_cmd(log, e.off as int) == 1
    &&& rec_key(log, e.off as int) == e.key@
}

/// No two entries carry the same key.
pub open spec fn keys_distinct(s: Seq<IndexEntry>) -> bool {
    forall|i: int, j: int| 0 <= i < j < s.len() ==> s[i].key@ != s[j].key@
}

/// The entries sit at strictly increasing offsets and their records do
/// not overlap.
pub open spec fn entries_disjoint(log: Seq<u8>, s: Seq<IndexEntry>) -> bool {
    forall|i: int, j: int|
        0 <= i < j < s.len() ==> s[i].off + rec_len(log, #[trigger] s[i].off as int) <= #[trigger] s[j].off
}

/// The map an index denotes: each key maps to the value bytes of the
/// record at its offset.  A later entry for the same key wins.
pub open spec fn entries_map(log: Seq<u8>, s: Seq<IndexEntry>) -> Map<Seq<u8>, Seq<u8>>
    decreases s.len(),
{
    if s.len() == 0 {
        Map::empty()
    } else {
        entries_map(log, s.drop_last()).insert(
            s.last().key@,
            rec_value(log, s.last().off as int),
        )
    }
}

/// The total encoded size of the records the entries point at.
pub open spec fn entries_bytes(log: Seq<u8>, s: Seq<IndexEntry>) -> int
    decreases s.len(),
{
    if s.len() == 0 {
        0
    } else {
        entries_bytes(log, s.drop_last()) + rec_len(log, s.last().off as int)
    }
}

/// A key is in the map exactly when some entry carries it.
pub proof fn lemma_entries_map_contains(log: Seq<u8>, s: Seq<IndexEntry>)
    ensures
        forall|k: Seq<u8>|
            entries_map(log, s).contains_key(k) <==> exists|i: int|
                0 <= i < s.len() && #[trigger] s[i].key@ == k,
    decreases s.len(),
{
    if s.len() == 0 {
    } else {
        lemma_entries_map_contains(log, s.drop_last());
        assert forall|k: Seq<u8>| entries_map(log, s).contains_key(k) implies exists|i: int|
            0 <= i < s.len() && #[trigger] s[i].key@ == k by {
            if k == s.last().key@ {
                assert(s[s.len() - 1].key@ == k);
            } else {
                assert(entries_map(log, s.drop_last()).contains_key(k));
                let i = choose|i: int|
                    0 <= i < s.drop_last().len() && #[trigger] s.drop_last()[i].key@ == k;
                assert(s.drop_last()[i] == s[i]);
                assert(s[i].key@ == k);
            }
        }
        assert forall|k: Seq<u8>|
            (exists|i: int| 0 <= i < s.len() && #[trigger] s[i].key@ == k) implies entries_map(
            log,
            s,
        ).contains_key(k) by {
            let i = choose|i: int| 0 <= i < s.len() && #[trigger] s[i].key@ == k;
            if i < s.len() - 1 {
                assert(s.drop_last()[i] == s[i]);
                assert(s.drop_last()[i].key@ == k);
                assert(entries_map(log, s.drop_last()).contains_key(k));
            } else {
                assert(k == s.last().key@);
            }
        }
    }
}

/// With distinct keys, the entry that carries a key decides its value
/// in the map.
pub proof fn lemma_entries_map_at(log: Seq<u8>, s: Seq<IndexEntry>, i: int)
    requires
        keys_distinct(s),
        0 <= i < s.len(),
    ensures
        entries_map(log, s).contains_key(s[i].key@),
        entries_map(log, s)[s[i].key@] == rec_value(log, s[i].off as int),
    decreases s.len(),
{
    if i == s.len() - 1 {
    } else {
        assert(s.drop_last()[i] == s[i]);
        lemma_entries_map_at(log, s.drop_last(), i);
        assert(s[i].key@ != s.last().key@);
    }
}

/// Removing the entry that carries a key removes exactly that key
/// from the map.
pub proof fn lemma_entries_map_remove(log: Seq<u8>, s: Seq<IndexEntry>, i: int)
    requires
        keys_distinct(s),
        0 <= i < s.len(),
    ensures
        entries_map(log, s.remove(i)) == entries_map(log, s).remove(s[i].key@),
    decreases s.len(),
{
    lemma_entries_map_contains(log, s.drop_last());
    if i == s.len() - 1 {
        assert(s.remove(i) =~= s.drop_last());
        assert(!entries_map(log, s.drop_last()).contains_key(s[i].key@));
        assert(entries_map(log, s.drop_last()) =~= entries_map(log, s).remove(s[i].key@));
    } else {
        let t = s.remove(i);
        assert(t.drop_last() =~= s.drop_last().remove(i));
        assert(t.last() == s.last());
        lemma_entries_map_remove(log, s.drop_last(), i);
        assert(s.drop_last()[i] == s[i]);
        assert(s[i].key@ != s.last().key@);
        assert(entries_map(log, t) =~= entries_map(log, s).remove(s[i].key@));
    }
}

/// Appending an entry inserts its key into the map.
pub proof fn lemma_entries_map_push(log: Seq<u8>, s: Seq<IndexEntry>, e: IndexEntry)
    ensures
        entries_map(log, s.push(e)) == entries_map(log, s).insert(
            e.key@,
            rec_value(log, e.off as int),
        ),
{
    assert(s.push(e).drop_last() =~= s);
    assert(s.push(e).last() == e);
}

/// Two logs on which every entry's record reads the same give the
/// same map and the same total size.
pub proof fn lemma_entries_map_same_values(log1: Seq<u8>, log2: Seq<u8>, s: Seq<IndexEntry>)
    requires
        forall|i: int|
            0 <= i < s.len() ==> rec_value(log2, #[trigger] s[i].off as int) == rec_value(
                log1,
                s[i].off as int,
            ) && rec_len(log2, s[i].off as int) == rec_len(log1, s[i].off as int),
    ensures
        entries_map(log2, s) == entries_map(log1, s),
        entries_bytes(log2, s) == entries_bytes(log1, s),
    decreases s.len(),
{
    if s.len() == 0 {
    } else {
        assert forall|i: int| 0 <= i < s.drop_last().len() implies rec_value(
            log2,
            #[trigger] s.drop_last()[i].off as int,
        ) == rec_value(log1, s.drop_last()[i].off as int) && rec_len(
            log2,
            s.drop_last()[i].off as int,
        ) == rec_len(log1, s.drop_last()[i].off as int) by {
            assert(s.drop_last()[i] == s[i]);
        }
        lemma_entries_map_same_values(log1, log2, s.drop_last());
        assert(s[s.len() - 1] == s.last());
    }
}

/// Entries that are in order before an append are still in order, and
/// denote the same map, afterwards.
pub proof fn lemma_entries_survive_append(log: Seq<u8>, ext: Seq<u8>, s: Seq<IndexEntry>)
    requires
        forall|j: int| 0 <= j < s.len() ==> entry_ok(log, #[trigger] s[j]),
    ensures
        forall|j: int| 0 <= j < s.len() ==> entry_ok(log + ext, #[trigger] s[j]),
        forall|j: int|
            0 <= j < s.len() ==> rec_value(log + ext, #[trigger] s[j].off as int) == rec_value(
                log,
                s[j].off as int,
            ) && rec_len(log + ext, s[j].off as int) == rec_len(log, s[j].off as int),
        entries_map(log + ext, s) == entries_map(log, s),
        entries_bytes(log + ext, s) == entries_bytes(log, s),
        entries_disjoint(log, s) ==> entries_disjoint(log + ext, s),
{
    assert forall|j: int| 0 <= j < s.len() implies entry_ok(log + ext, #[trigger] s[j])
        && rec_value(log + ext, s[j].off as int) == rec_value(log, s[j].off as int) && rec_len(
        log + ext,
        s[j].off as int,
    ) == rec_len(log, s[j].off as int) by {
        assert(entry_ok(log, s[j]));
        crate::replay::lemma_rec_agree_extend(log, ext, s[j].off as int);
    }
    lemma_entries_map_same_values(log, log + ext, s);
}

/// Disjoint records that all fit in the log take no more bytes in
/// total than the log holds.
pub proof fn lemma_entries_bytes_bounded(log: Seq<u8>, s: Seq<IndexEntry>)
    requires
        forall|i: int| 0 <= i < s.len() ==> rec_fits(log, #[trigger] s[i].off as int),
        entries_disjoint(log, s),
    ensures
        entries_bytes(log, s) >= 0,
        s.len() > 0 ==> entries_bytes(log, s) <= s.last().off + rec_len(log, s.last().off as int),
        entries_bytes(log, s) <= log.len(),
    decreases s.len(),
{
    if s.len() == 0 {
    } else {
        assert forall|i: int| 0 <= i < s.drop_last().len() implies rec_fits(
            log,
            #[trigger] s.drop_last()[i].off as int,
        ) by {
            assert(s.drop_last()[i] == s[i]);
        }
        assert forall|i: int, j: int| 0 <= i < j < s.drop_last().len() implies s.drop_last()[i].off
            + rec_len(log, #[trigger] s.drop_last()[i].off as int)
            <= #[trigger] s.drop_last()[j].off by {
            assert(s.drop_last()[i] == s[i]);
            assert(s.drop_last()[j] == s[j]);
        }
        lemma_entries_bytes_bounded(log, s.drop_last());
        if s.len() >= 2 {
            assert(s.drop_last().last() == s[s.len() - 2]);
            assert(s[s.len() - 2].off + rec_len(log, s[s.len() - 2].off as int) <= s.last().off);
        }
    }
}

} // verus!
