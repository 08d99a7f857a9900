//! The collection registry: parses an operator-supplied configuration string
//! of the form `alias=target;alias=target;...` into a keyed store of named
//! collections, with case-insensitive enumeration and exact-match lookup.

use vstd::prelude::*;

use crate::text::{
    find_first, first_index_of, lower_of, seq_le, split_semi_str, split_semis, str_eq, str_le,
    to_lower, trim_spec, trim_str,
};
use vstd::pervasive::VecAdditionalExecFns;

verus! {

/// An individual collection entry: a display name (alias) and the opaque
/// upstream query expression it resolves to.
#[derive(Clone, Debug, PartialEq, Eq)]
pub struct Collection {
    pub name: String,
    pub target: String,
}

/// The alias and target a configuration entry defines, after trimming, or
/// `None` when the entry is malformed: empty after trimming, lacking `=`, or
/// with an empty alias or target. Only the first `=` separates; the target may
/// itself contain `=`.
pub open spec fn entry_kv(e: Seq<char>) -> Option<(Seq<char>, Seq<char>)> {
    let t = trim_spec(e);
    if t.len() == 0 {
        None
    } else {
        let i = first_index_of(t, '=');
        if i == t.len() {
            None
        } else {
            let a = trim_spec(t.take(i));
            let v = trim_spec(t.skip(i + 1));
            if a.len() == 0 || v.len() == 0 {
                None
            } else {
                Some((a, v))
            }
        }
    }
}

/// Whether entry `e` defines the alias `k`.
pub open spec fn defines_key(e: Seq<char>, k: Seq<char>) -> bool {
    match entry_kv(e) {
        Some(kv) => kv.0 == k,
        None => false,
    }
}

/// The mapping the entries build up, in order, each well-formed entry
/// overwriting any earlier entry with the same alias (last write wins).
pub open spec fn map_of_entries(pieces: Seq<Seq<char>>) -> Map<Seq<char>, Seq<char>>
    decreases pieces.len(),
{
    if pieces.len() == 0 {
        Map::empty()
    } else {
        let m = map_of_entries(pieces.drop_last());
        match entry_kv(pieces.last()) {
            Some(kv) => m.insert(kv.0, kv.1),
            None => m,
        }
    }
}

/// The mapping a raw configuration value denotes: empty when the value is
/// absent, otherwise the entries between `;` separators folded in order.
pub open spec fn parse_spec(v: Option<Seq<char>>) -> Map<Seq<char>, Seq<char>> {
    match v {
        Some(s) => map_of_entries(split_semis(s)),
        None => Map::empty(),
    }
}

/// The mapping a sequence of stored entries denotes.
pub open spec fn map_of_pairs(s: Seq<Collection>) -> Map<Seq<char>, Seq<char>>
    decreases s.len(),
{
    if s.len() == 0 {
        Map::empty()
    } else {
        map_of_pairs(s.drop_last()).insert(s.last().name@, s.last().target@)
    }
}

/// The parsed registry: every stored entry has a non-empty name and target,
/// and aliases are unique.
pub struct CollectionMap {
    pub entries: Vec<Collection>,
}

impl CollectionMap {
    /// Well-formedness: non-empty names and targets, and no duplicate alias.
    pub open spec fn wf(self) -> bool {
        (forall|i: int|
            0 <= i < self.entries@.len() ==> (#[trigger] self.entries@[i]).name@.len() > 0
                && self.entries@[i].target@.len() > 0) && (forall|i: int, j: int|
            0 <= i < j < self.entries@.len() ==> self.entries@[i].name@
                != self.entries@[j].name@)
    }

    /// The alias-to-target mapping this registry holds.
    pub open spec fn as_map(self) -> Map<Seq<char>, Seq<char>> {
        map_of_pairs(self.entries@)
    }
}

/// A key is in the mapping of stored entries exactly when some entry bears it.
pub proof fn lemma_map_of_pairs_contains(s: Seq<Collection>, k: Seq<char>)
    ensures
        map_of_pairs(s).contains_key(k) <==> exists|i: int|
            0 <= i < s.len() && s[i].name@ == k,
    decreases s.len(),
{
    if s.len() == 0 {
    } else {
        let t = s.drop_last();
        lemma_map_of_pairs_contains(t, k);
        if map_of_pairs(s).contains_key(k) {
            if k == s.last().name@ {
                assert(s[s.len() - 1].name@ == k);
            } else {
                let i = choose|i: int| 0 <= i < t.len() && t[i].name@ == k;
                assert(s[i].name@ == k);
            }
        }
        if exists|i: int| 0 <= i < s.len() && s[i].name@ == k {
            let i = choose|i: int| 0 <= i < s.len() && s[i].name@ == k;
            if i < s.len() - 1 {
                assert(t[i].name@ == k);
                assert(map_of_pairs(t).contains_key(k));
            }
            assert(map_of_pairs(s).contains_key(k));
        }
    }
}

/// With unique aliases, the mapping sends each stored alias to its target.
pub proof fn lemma_map_of_pairs_at(s: Seq<Collection>, i: int)
    requires
        0 <= i < s.len(),
        forall|p: int, q: int| 0 <= p < q < s.len() ==> s[p].name@ != s[q].name@,
    ensures
        map_of_pairs(s).contains_key(s[i].name@),
        map_of_pairs(s)[s[i].name@] == s[i].target@,
    decreases s.len(),
{
    let t = s.drop_last();
    if i == s.len() - 1 {
    } else {
        lemma_map_of_pairs_at(t, i);
        assert(s.last().name@ != s[i].name@);
    }
}

/// Overwriting the entry that bears an alias updates just that alias.
proof fn lemma_map_of_pairs_update(s: Seq<Collection>, i: int, c: Collection)
    requires
        0 <= i < s.len(),
        forall|p: int, q: int| 0 <= p < q < s.len() ==> s[p].name@ != s[q].name@,
        c.name@ == s[i].name@,
    ensures
        map_of_pairs(s.update(i, c)) == map_of_pairs(s).insert(c.name@, c.target@),
    decreases s.len(),
{
    let u = s.update(i, c);
    if i == s.len() - 1 {
        assert(u.drop_last() =~= s.drop_last());
        assert(u.last() == c);
        assert(map_of_pairs(u) =~= map_of_pairs(s).insert(c.name@, c.target@));
    } else {
        let t = s.drop_last();
        lemma_map_of_pairs_update(t, i, c);
        assert(u.drop_last() =~= t.update(i, c));
        assert(u.last() == s.last());
        assert(s.last().name@ != c.name@);
        assert(map_of_pairs(u) =~= map_of_pairs(s).insert(c.name@, c.target@));
    }
}

/// Appending a fresh entry inserts its alias.
proof fn lemma_map_of_pairs_push(s: Seq<Collection>, c: Collection)
    ensures
        map_of_pairs(s.push(c)) == map_of_pairs(s).insert(c.name@, c.target@),
{
    let w = s.push(c);
    assert(w.drop_last() =~= s);
    assert(w.last() == c);
}

/// Parses one configuration entry, yielding the collection it defines or
/// `None` for a malformed entry, exactly as `entry_kv` describes.
fn parse_entry(piece: &str) -> (r: Option<Collection>)
    ensures
        match r {
            Some(c) => entry_kv(piece@) == Some((c.name@, c.target@)) && c.name@.len() > 0
                && c.target@.len() > 0,
            None => entry_kv(piece@) is None,
        },
{
    let t = trim_str(piece);
    let tlen = t.unicode_len();
    if tlen == 0 {
        return None;
    }
    let i = find_first(t.as_str(), '=');
    if i == tlen {
        return None;
    }
    let alias_part = t.as_str().substring_char(0, i);
    let target_part = t.as_str().substring_char(i + 1, tlen);
    let alias = trim_str(alias_part);
    let target = trim_str(target_part);
    proof {
        assert(alias_part@ =~= t@.take(i as int));
        assert(target_part@ =~= t@.skip(i + 1));
    }
    if alias.unicode_len() == 0 || target.unicode_len() == 0 {
        return None;
    }
    Some(Collection { name: alias, target })
}

/// Inserts a parsed collection, overwriting the entry with the same alias if
/// one exists and appending otherwise, so that the mapping gains exactly this
/// alias (last write wins).
fn upsert(entries: &mut Vec<Collection>, c: Collection)
    requires
        c.name@.len() > 0,
        c.target@.len() > 0,
        forall|i: int|
            0 <= i < old(entries)@.len() ==> (#[trigger] old(entries)@[i]).name@.len() > 0 && old(
                entries,
            )@[i].target@.len() > 0,
        forall|i: int, j: int|
            0 <= i < j < old(entries)@.len() ==> old(entries)@[i].name@ != old(
                entries,
            )@[j].name@,
    ensures
        forall|i: int|
            0 <= i < final (entries)@.len() ==> (#[trigger] final (entries)@[i]).name@.len() > 0
                && final (entries)@[i].target@.len() > 0,
        forall|i: int, j: int|
            0 <= i < j < final (entries)@.len() ==> final (entries)@[i].name@ != final (
            entries)@[j].name@,
        map_of_pairs(final (entries)@) == map_of_pairs(old(entries)@).insert(
            c.name@,
            c.target@,
        ),
{
    let ghost s0 = entries@;
    let n = entries.len();
    let mut i: usize = 0;
    while i < n
        invariant
            entries@ == s0,
            old(entries)@ == s0,
            n == s0.len(),
            0 <= i <= n,
            c.name@.len() > 0,
            c.target@.len() > 0,
            forall|k: int|
                0 <= k < s0.len() ==> (#[trigger] s0[k]).name@.len() > 0 && s0[k].target@.len()
                    > 0,
            forall|p: int, q: int| 0 <= p < q < s0.len() ==> s0[p].name@ != s0[q].name@,
            forall|k: int| 0 <= k < i ==> s0[k].name@ != c.name@,
        decreases n - i,
    {
        let same = str_eq(entries[i].name.as_str(), c.name.as_str());
        if same {
            proof {
                lemma_map_of_pairs_update(s0, i as int, c);
            }
            entries.set(i, c);
            return ;
        }
        i = i + 1;
    }
    proof {
        lemma_map_of_pairs_push(s0, c);
    }
    entries.push(c);
}

/// Converts a `String` option to the sequence option `parse_spec` speaks of.
pub open spec fn view_opt(v: Option<String>) -> Option<Seq<char>> {
    match v {
        Some(s) => Some(s@),
        None => None,
    }
}

/// Parses the raw configuration value into a registry: split on `;`, trim
/// each entry, drop malformed entries silently, and let the last occurrence
/// of a duplicated alias win. An absent value yields an empty registry.
pub fn parse_collection_map(value: Option<String>) -> (r: CollectionMap)
    ensures
        r.wf(),
        r.as_map() == parse_spec(view_opt(value)),
{
    match value {
        None => {
            let r = CollectionMap { entries: Vec::new() };
            proof {
                assert(r.as_map() =~= Map::<Seq<char>, Seq<char>>::empty());
            }
            r
        },
        Some(raw) => {
            let pieces = split_semi_str(raw.as_str());
            let ghost pviews = pieces@.map_values(|p: String| p@);
            let mut entries: Vec<Collection> = Vec::new();
            let mut idx: usize = 0;
            proof {
                assert(pviews.take(0) =~= Seq::<Seq<char>>::empty());
                assert(map_of_pairs(entries@) =~= map_of_entries(pviews.take(0)));
            }
            while idx < pieces.len()
                invariant
                    0 <= idx <= pieces@.len(),
                    pviews == pieces@.map_values(|p: String| p@),
                    pviews == split_semis(raw@),
                    forall|i: int|
                        0 <= i < entries@.len() ==> (#[trigger] entries@[i]).name@.len() > 0
                            && entries@[i].target@.len() > 0,
                    forall|i: int, j: int|
                        0 <= i < j < entries@.len() ==> entries@[i].name@ != entries@[j].name@,
                    map_of_pairs(entries@) == map_of_entries(pviews.take(idx as int)),
                decreases pieces@.len() - idx,
            {
                let piece = &pieces[idx];
                proof {
                    assert(piece@ == pviews[idx as int]);
                }
                let parsed = parse_entry(piece.as_str());
                proof {
                    assert(pviews.take(idx + 1).drop_last() =~= pviews.take(idx as int));
                    assert(pviews.take(idx + 1).last() == pviews[idx as int]);
                }
                match parsed {
                    Some(c) => {
                        upsert(&mut entries, c);
                    },
                    None => {
                    },
                }
                idx = idx + 1;
            }
            proof {
                assert(pviews.take(idx as int) =~= pviews);
            }
            CollectionMap { entries }
        },
    }
}

/// Exact-match, case-sensitive lookup of a collection alias: the stored
/// target when the alias is present, absence otherwise.
pub fn resolve(m: &CollectionMap, name: &str) -> (r: Option<String>)
    requires
        m.wf(),
    ensures
        match r {
            Some(t) => m.as_map().contains_key(name@) && t@ == m.as_map()[name@],
            None => !m.as_map().contains_key(name@),
        },
{
    let n = m.entries.len();
    let mut i: usize = 0;
    while i < n
        invariant
            0 <= i <= n,
            n == m.entries@.len(),
            m.wf(),
            forall|k: int| 0 <= k < i ==> m.entries@[k].name@ != name@,
        decreases n - i,
    {
        let same = str_eq(m.entries[i].name.as_str(), name);
        if same {
            proof {
                lemma_map_of_pairs_at(m.entries@, i as int);
            }
            return Some(m.entries[i].target.clone());
        }
        i = i + 1;
    }
    proof {
        lemma_map_of_pairs_contains(m.entries@, name@);
    }
    None
}

/// Whether no collections are configured: the raw value was absent or every
/// entry was malformed.
pub fn is_empty(m: &CollectionMap) -> (r: bool)
    ensures
        r == (m.as_map() == Map::<Seq<char>, Seq<char>>::empty()),
{
    let r = m.entries.len() == 0;
    proof {
        if m.entries@.len() == 0 {
            assert(m.as_map() =~= Map::<Seq<char>, Seq<char>>::empty());
        } else {
            lemma_map_of_pairs_contains(m.entries@, m.entries@[0].name@);
            assert(m.as_map().contains_key(m.entries@[0].name@));
        }
    }
    r
}

/// Sortedness of stored entries by the case-folded form of their names.
pub open spec fn sorted_ci(s: Seq<Collection>) -> bool {
    forall|i: int, j: int|
        0 <= i < j < s.len() ==> seq_le(lower_of(s[i].name@), lower_of(s[j].name@))
}

/// Inserts a collection into a sorted vector, after every entry whose
/// case-folded name is not greater, keeping it sorted.
fn insert_sorted(r: &mut Vec<Collection>, c: Collection)
    requires
        sorted_ci(old(r)@),
    ensures
        final (r)@.len() == old(r)@.len() + 1,
        sorted_ci(final (r)@),
        final (r)@.to_multiset() == old(r)@.to_multiset().insert(c),
{
    let ghost s0 = r@;
    let key = to_lower(c.name.as_str());
    let n = r.len();
    let mut p: usize = 0;
    while p < n
        invariant
            0 <= p <= n,
            n == s0.len(),
            r@ == s0,
            old(r)@ == s0,
            key@ == lower_of(c.name@),
            sorted_ci(s0),
            forall|k: int| 0 <= k < p ==> seq_le(lower_of(s0[k].name@), lower_of(c.name@)),
        ensures
            0 <= p <= n,
            forall|k: int| 0 <= k < p ==> seq_le(lower_of(s0[k].name@), lower_of(c.name@)),
            p < n ==> !seq_le(lower_of(s0[p as int].name@), lower_of(c.name@)),
        decreases n - p,
    {
        let low_p = to_lower(r[p].name.as_str());
        let le = str_le(low_p.as_str(), key.as_str());
        if !le {
            break ;
        }
        p = p + 1;
    }
    proof {
        let w = s0.insert(p as int, c);
        assert forall|i: int, j: int| 0 <= i < j < w.len() implies seq_le(
            lower_of(w[i].name@),
            lower_of(w[j].name@),
        ) by {
            if j < p {
            } else if i < p && j == p {
            } else if i < p && j > p {
                assert(w[j] == s0[j - 1]);
            } else if i == p {
                assert(w[j] == s0[j - 1]);
                crate::text::lemma_seq_le_total(lower_of(s0[p as int].name@), lower_of(c.name@));
                assert(seq_le(lower_of(c.name@), lower_of(s0[p as int].name@)));
                if j - 1 > p {
                    assert(seq_le(lower_of(s0[p as int].name@), lower_of(s0[j - 1].name@)));
                    crate::text::lemma_seq_le_trans(
                        lower_of(c.name@),
                        lower_of(s0[p as int].name@),
                        lower_of(s0[j - 1].name@),
                    );
                }
            } else {
                assert(w[i] == s0[i - 1]);
                assert(w[j] == s0[j - 1]);
            }
        }
        assert(w.remove(p as int) =~= s0);
        s0.insert(p as int, c).to_multiset_ensures();
        w.to_multiset_ensures();
        s0.to_multiset_ensures();
        assert(w.to_multiset().remove(w[p as int]) =~= s0.to_multiset());
        assert(w.to_multiset().count(c) >= 1) by {
            assert(w[p as int] == c);
            assert(w.contains(c));
        }
        assert(w.to_multiset() =~= s0.to_multiset().insert(c));
    }
    r.insert(p, c);
}

/// Returns every configured collection, sorted ascending by the
/// case-insensitive form of its name; the relative order of entries whose
/// names are equal after case folding is left unspecified.
pub fn all(m: &CollectionMap) -> (r: Vec<Collection>)
    ensures
        r@.len() == m.entries@.len(),
        sorted_ci(r@),
        r@.to_multiset() == m.entries@.to_multiset(),
{
    let n = m.entries.len();
    let mut r: Vec<Collection> = Vec::new();
    let mut idx: usize = 0;
    proof {
        m.entries@.take(0).to_multiset_ensures();
        assert(m.entries@.take(0) =~= Seq::<Collection>::empty());
        assert(r@.to_multiset() =~= m.entries@.take(0).to_multiset());
    }
    while idx < n
        invariant
            0 <= idx <= n,
            n == m.entries@.len(),
            r@.len() == idx,
            sorted_ci(r@),
            r@.to_multiset() == m.entries@.take(idx as int).to_multiset(),
        decreases n - idx,
    {
        let name = m.entries[idx].name.clone();
        let target = m.entries[idx].target.clone();
        let c = Collection { name, target };
        proof {
            assert(c == m.entries@[idx as int]);
            m.entries@.take(idx as int).to_multiset_ensures();
            assert(m.entries@.take(idx + 1) =~= m.entries@.take(idx as int).push(
                m.entries@[idx as int],
            ));
        }
        insert_sorted(&mut r, c);
        idx = idx + 1;
    }
    proof {
        assert(m.entries@.take(idx as int) =~= m.entries@);
    }
    r
}

/// Parsing is deterministic: two registries parsed from the same raw
/// configuration value hold identical mappings.
pub proof fn lemma_parse_deterministic(a: CollectionMap, b: CollectionMap, v: Option<Seq<char>>)
    requires
        a.as_map() == parse_spec(v),
        b.as_map() == parse_spec(v),
    ensures
        a.as_map() == b.as_map(),
{
}

/// A malformed entry contributes nothing: dropping it from the entry list
/// leaves the resulting mapping unchanged.
pub proof fn lemma_malformed_contributes_nothing(pieces: Seq<Seq<char>>, i: int)
    requires
        0 <= i < pieces.len(),
        entry_kv(pieces[i]) is None,
    ensures
        map_of_entries(pieces) == map_of_entries(pieces.remove(i)),
    decreases pieces.len(),
{
    if i == pieces.len() - 1 {
        assert(pieces.remove(i) =~= pieces.drop_last());
    } else {
        let t = pieces.drop_last();
        lemma_malformed_contributes_nothing(t, i);
        assert(pieces.remove(i).drop_last() =~= t.remove(i));
        assert(pieces.remove(i).last() == pieces.last());
    }
}

/// No entry defines the alias: the mapping lacks it, so lookup reports
/// absence.
pub proof fn lemma_absent_alias(pieces: Seq<Seq<char>>, k: Seq<char>)
    requires
        forall|j: int| 0 <= j < pieces.len() ==> !defines_key(#[trigger] pieces[j], k),
    ensures
        !map_of_entries(pieces).contains_key(k),
    decreases pieces.len(),
{
    if pieces.len() > 0 {
        lemma_absent_alias(pieces.drop_last(), k);
    }
}

/// Last write wins: when entry `i` defines alias `k` and no later entry
/// defines `k`, the mapping sends `k` exactly to the target entry `i` wrote.
pub proof fn lemma_last_write_wins(pieces: Seq<Seq<char>>, i: int, k: Seq<char>, v: Seq<char>)
    requires
        0 <= i < pieces.len(),
        entry_kv(pieces[i]) == Some((k, v)),
        forall|j: int| i < j < pieces.len() ==> !defines_key(#[trigger] pieces[j], k),
    ensures
        map_of_entries(pieces).contains_key(k),
        map_of_entries(pieces)[k] == v,
    decreases pieces.len(),
{
    if i == pieces.len() - 1 {
    } else {
        let t = pieces.drop_last();
        lemma_last_write_wins(t, i, k, v);
        assert(!defines_key(pieces.last(), k));
    }
}

/// The mapping is empty exactly when every entry is malformed.
pub proof fn lemma_empty_iff_all_malformed(pieces: Seq<Seq<char>>)
    ensures
        (map_of_entries(pieces) == Map::<Seq<char>, Seq<char>>::empty()) <==> (forall|j: int|
            0 <= j < pieces.len() ==> entry_kv(#[trigger] pieces[j]) is None),
    decreases pieces.len(),
{
    if pieces.len() == 0 {
        assert(map_of_entries(pieces) =~= Map::<Seq<char>, Seq<char>>::empty());
    } else {
        let t = pieces.drop_last();
        lemma_empty_iff_all_malformed(t);
        match entry_kv(pieces.last()) {
            Some(kv) => {
                assert(map_of_entries(pieces).contains_key(kv.0));
                assert(map_of_entries(pieces) != Map::<Seq<char>, Seq<char>>::empty());
                assert(!(entry_kv(pieces[pieces.len() - 1]) is None));
            },
            None => {
                assert(map_of_entries(pieces) == map_of_entries(t));
                if forall|j: int| 0 <= j < pieces.len() ==> entry_kv(#[trigger] pieces[j]) is None {
                    assert(forall|j: int| 0 <= j < t.len() ==> entry_kv(#[trigger] t[j]) is None);
                }
                if forall|j: int| 0 <= j < t.len() ==> entry_kv(#[trigger] t[j]) is None {
                    assert forall|j: int| 0 <= j < pieces.len() implies entry_kv(
                        #[trigger] pieces[j],
                    ) is None by {
                        if j < t.len() {
                            assert(pieces[j] == t[j]);
                        }
                    }
                }
            },
        }
    }
}

/// An absent raw configuration, or one whose entries are all malformed,
/// yields the empty mapping, and only such configurations do.
pub proof fn lemma_parse_empty_iff(v: Option<Seq<char>>)
    ensures
        match v {
            None => parse_spec(v) == Map::<Seq<char>, Seq<char>>::empty(),
            Some(s) => (parse_spec(v) == Map::<Seq<char>, Seq<char>>::empty()) <==> (forall|j: int|
                0 <= j < split_semis(s).len() ==> entry_kv(#[trigger] split_semis(s)[j]) is None),
        },
{
    match v {
        None => {
        },
        Some(s) => {
            lemma_empty_iff_all_malformed(split_semis(s));
        },
    }
}

} // verus!
