//! The synchronized store and its supporting types: the ordered map of
//! byte-string variables, the lookup/decode error, and the snapshot
//! iterators.

use vstd::pervasive::unreached;
use vstd::prelude::*;
use vstd::slice::slice_to_vec;
use vstd::utf8::decode_utf8;
use vstd::utf8::valid_utf8;

verus! {

/// Strict lexicographic order on byte strings: the order in which the
/// store keeps and lists its keys.
pub open spec fn lex_lt(a: Seq<u8>, b: Seq<u8>) -> bool
    decreases a.len(),
{
    if b.len() == 0 {
        false
    } else if a.len() == 0 {
        true
    } else if a[0] < b[0] {
        true
    } else if a[0] == b[0] {
        lex_lt(a.skip(1), b.skip(1))
    } else {
        false
    }
}

pub proof fn lemma_lex_lt_irrefl(a: Seq<u8>)
    ensures
        !lex_lt(a, a),
    decreases a.len(),
{
    if a.len() > 0 {
        lemma_lex_lt_irrefl(a.skip(1));
    }
}

pub proof fn lemma_lex_lt_total(a: Seq<u8>, b: Seq<u8>)
    ensures
        lex_lt(a, b) || lex_lt(b, a) || a == b,
    decreases a.len(),
{
    if a.len() == 0 && b.len() == 0 {
        assert(a =~= b);
    } else if a.len() > 0 && b.len() > 0 && a[0] == b[0] {
        lemma_lex_lt_total(a.skip(1), b.skip(1));
        if a.skip(1) == b.skip(1) {
            assert(a.skip(1).len() == a.len() - 1);
            assert(b.skip(1).len() == b.len() - 1);
            assert forall|i: int| 0 <= i < a.len() implies a[i] == b[i] by {
                if i > 0 {
                    assert(a[i] == a.skip(1)[i - 1]);
                    assert(b[i] == b.skip(1)[i - 1]);
                }
            }
            assert(a =~= b);
        }
    }
}

pub proof fn lemma_lex_lt_trans(a: Seq<u8>, b: Seq<u8>, c: Seq<u8>)
    requires
        lex_lt(a, b),
        lex_lt(b, c),
    ensures
        lex_lt(a, c),
    decreases a.len(),
{
    if a.len() > 0 && b.len() > 0 && c.len() > 0 && a[0] == b[0] && b[0] == c[0] {
        lemma_lex_lt_trans(a.skip(1), b.skip(1), c.skip(1));
    }
}

/// Two byte strings with a common prefix compare as their remainders do.
proof fn lemma_lex_lt_skip(a: Seq<u8>, b: Seq<u8>, i: int)
    requires
        0 <= i <= a.len(),
        i <= b.len(),
        forall|j: int| 0 <= j < i ==> a[j] == b[j],
    ensures
        lex_lt(a, b) == lex_lt(a.skip(i), b.skip(i)),
    decreases i,
{
    if i > 0 {
        assert(a[0] == b[0]);
        assert forall|j: int| 0 <= j < i - 1 implies a.skip(1)[j] == b.skip(1)[j] by {
            assert(a.skip(1)[j] == a[j + 1]);
            assert(b.skip(1)[j] == b[j + 1]);
        }
        lemma_lex_lt_skip(a.skip(1), b.skip(1), i - 1);
        assert(a.skip(1).skip(i - 1) =~= a.skip(i));
        assert(b.skip(1).skip(i - 1) =~= b.skip(i));
    } else {
        assert(a.skip(0) =~= a);
        assert(b.skip(0) =~= b);
    }
}

/// Equality test on byte strings.
fn bytes_eq(a: &Vec<u8>, b: &Vec<u8>) -> (r: bool)
    ensures
        r == (a@ == b@),
{
    if a.len() != b.len() {
        return false;
    }
    let mut i: usize = 0;
    while i < a.len()
        invariant
            0 <= i <= a.len(),
            a.len() == b.len(),
            forall|j: int| 0 <= j < i ==> a@[j] == b@[j],
        decreases a.len() - i,
    {
        if a[i] != b[i] {
            return false;
        }
        i = i + 1;
    }
    proof {
        assert(a@ =~= b@);
    }
    true
}

/// Order test on byte strings, proved against [`lex_lt`].
fn bytes_lt(a: &Vec<u8>, b: &Vec<u8>) -> (r: bool)
    ensures
        r == lex_lt(a@, b@),
{
    let mut i: usize = 0;
    while i < a.len() && i < b.len()
        invariant
            0 <= i <= a.len(),
            i <= b.len(),
            forall|j: int| 0 <= j < i ==> a@[j] == b@[j],
        decreases a.len() - i,
    {
        let x = a[i];
        let y = b[i];
        if x != y {
            proof {
                lemma_lex_lt_skip(a@, b@, i as int);
                assert(a@.skip(i as int)[0] == a@[i as int]);
                assert(b@.skip(i as int)[0] == b@[i as int]);
            }
            return x < y;
        }
        i = i + 1;
    }
    proof {
        lemma_lex_lt_skip(a@, b@, i as int);
        if i < b.len() {
            assert(b@.skip(i as int).len() > 0);
        }
    }
    i < b.len()
}

/// Owned copy of a byte string.
pub fn clone_bytes(v: &Vec<u8>) -> (out: Vec<u8>)
    ensures
        out@ == v@,
{
    slice_to_vec(v.as_slice())
}

/// View of a sequence of owned entries as a sequence of (key, value)
/// byte-string pairs.
pub open spec fn entries_view(s: Seq<(Vec<u8>, Vec<u8>)>) -> Seq<(Seq<u8>, Seq<u8>)> {
    s.map(|i: int, e: (Vec<u8>, Vec<u8>)| (e.0@, e.1@))
}

/// Pairs whose keys are in strictly increasing lexicographic order.
pub open spec fn sorted_pairs(s: Seq<(Seq<u8>, Seq<u8>)>) -> bool {
    forall|i: int, j: int|
        0 <= i < j < s.len() ==> lex_lt(#[trigger] s[i].0, #[trigger] s[j].0)
}

/// A key that the single-variable lookup reaches: one holding neither
/// the key/value separator `'='` (0x3d) nor the string terminator NUL.
/// An entry under any other key can be stored and listed, but a lookup
/// does not reach it, as the real environment rejects such names.
/// Values are not screened: a stored value is returned whatever bytes it
/// holds, so every text value round-trips.
pub open spec fn lookup_key(k: Seq<u8>) -> bool {
    forall|i: int| 0 <= i < k.len() ==> k[i] != 0x3du8 && k[i] != 0x00u8
}

/// Decides [`lookup_key`].
fn is_lookup_key(k: &Vec<u8>) -> (r: bool)
    ensures
        r == lookup_key(k@),
{
    let mut i: usize = 0;
    while i < k.len()
        invariant
            0 <= i <= k.len(),
            forall|j: int| 0 <= j < i ==> k@[j] != 0x3du8 && k@[j] != 0x00u8,
        decreases k.len() - i,
    {
        let b = k[i];
        if b == 0x3d || b == 0x00 {
            return false;
        }
        i = i + 1;
    }
    true
}

/// The environment map: an ordered mapping from byte-string keys to
/// byte-string values.  Keys are unique and kept in strict lexicographic
/// order, so the listing order is deterministic and reproducible.
pub struct EnvMap {
    entries: Vec<(Vec<u8>, Vec<u8>)>,
}

impl EnvMap {
    /// The stored entries, in listing order.
    pub closed spec fn entry_seq(self) -> Seq<(Seq<u8>, Seq<u8>)> {
        entries_view(self.entries@)
    }

    /// The stored keys, in listing order.
    pub open spec fn keys(self) -> Seq<Seq<u8>> {
        self.entry_seq().map(|i: int, e: (Seq<u8>, Seq<u8>)| e.0)
    }

    /// Well-formed maps keep their keys in strictly increasing
    /// lexicographic order; uniqueness of keys follows.
    pub open spec fn wf(self) -> bool {
        sorted_pairs(self.entry_seq())
    }

    spec fn spec_has(self, k: Seq<u8>) -> bool {
        exists|i: int| 0 <= i < self.entry_seq().len() && (#[trigger] self.entry_seq()[i]).0 == k
    }

    spec fn index_of(self, k: Seq<u8>) -> int {
        choose|i: int| 0 <= i < self.entry_seq().len() && (#[trigger] self.entry_seq()[i]).0 == k
    }

    /// The entry at a position is what the map view holds for its key.
    proof fn lemma_view_at(self, i: int)
        requires
            self.wf(),
            0 <= i < self.entry_seq().len(),
        ensures
            self@.contains_key(self.entry_seq()[i].0),
            self@[self.entry_seq()[i].0] == self.entry_seq()[i].1,
    {
        let k = self.entry_seq()[i].0;
        assert(self.spec_has(k));
        let j = self.index_of(k);
        if j < i {
            assert(lex_lt(self.entry_seq()[j].0, self.entry_seq()[i].0));
            lemma_lex_lt_irrefl(k);
        } else if i < j {
            assert(lex_lt(self.entry_seq()[i].0, self.entry_seq()[j].0));
            lemma_lex_lt_irrefl(k);
        }
    }

    /// Creates an empty map.
    pub fn new() -> (m: EnvMap)
        ensures
            m.wf(),
            m@ == Map::<Seq<u8>, Seq<u8>>::empty(),
            m.entry_seq() == Seq::<(Seq<u8>, Seq<u8>)>::empty(),
    {
        let m = EnvMap { entries: Vec::new() };
        proof {
            assert(m.entry_seq() =~= Seq::<(Seq<u8>, Seq<u8>)>::empty());
            assert(m@ =~= Map::<Seq<u8>, Seq<u8>>::empty());
        }
        m
    }

    /// Looks the key up and returns an owned copy of its value.  `None`
    /// is returned when the key is absent, and also when it is not a
    /// name the lookup reaches (see [`lookup_key`]), even if an entry is
    /// stored under it.
    pub fn get(&self, key: &Vec<u8>) -> (r: Option<Vec<u8>>)
        requires
            self.wf(),
        ensures
            match r {
                Some(v) => lookup_key(key@) && self@.contains_key(key@) && v@ == self@[key@],
                None => !lookup_key(key@) || !self@.contains_key(key@),
            },
    {
        if !is_lookup_key(key) {
            return None;
        }
        let n = self.entries.len();
        let mut i: usize = 0;
        while i < n
            invariant
                0 <= i <= n,
                n == self.entries.len(),
                self.wf(),
                lookup_key(key@),
                forall|j: int| 0 <= j < i ==> (#[trigger] self.entry_seq()[j]).0 != key@,
            decreases n - i,
        {
            let e = &self.entries[i];
            if bytes_eq(&e.0, key) {
                proof {
                    assert(self.entry_seq()[i as int].0 == key@);
                    self.lemma_view_at(i as int);
                }
                return Some(clone_bytes(&e.1));
            }
            i = i + 1;
        }
        proof {
            assert(!self.spec_has(key@));
        }
        None
    }
}

impl EnvMap {
    /// Inserts the pair, overwriting any entry already stored under the
    /// key.  The map stays well formed: no duplicate keys, keys in order.
    pub fn insert(&mut self, key: Vec<u8>, value: Vec<u8>)
        requires
            old(self).wf(),
        ensures
            final(self).wf(),
            final(self)@ == old(self)@.insert(key@, value@),
    {
        let ghost m0 = *old(self);
        let n = self.entries.len();
        let mut i: usize = 0;
        while i < n && bytes_lt(&self.entries[i].0, &key)
            invariant
                0 <= i <= n,
                *self == m0,
                n == self.entries.len(),
                m0.wf(),
                forall|j: int| 0 <= j < i ==> lex_lt((#[trigger] self.entry_seq()[j]).0, key@),
            decreases n - i,
        {
            i = i + 1;
        }
        let mut replace = false;
        if i < n {
            replace = bytes_eq(&self.entries[i].0, &key);
        }
        proof {
            if i < n && !replace {
                lemma_lex_lt_total(m0.entry_seq()[i as int].0, key@);
            }
        }
        if replace {
            self.entries.remove(i);
        }
        self.entries.insert(i, (key, value));
        proof {
            let es0 = m0.entry_seq();
            let es = self.entry_seq();
            let ii = i as int;
            let shift: int = if replace { 0int } else { 1int };
            assert(es.len() == es0.len() + shift);
            assert(es[ii] == (key@, value@));
            assert forall|j: int| 0 <= j < ii implies es[j] == es0[j] by {}
            assert forall|j: int| ii < j < es.len() implies es[j] == es0[j - shift] by {}
            // keys strictly below the insertion point stay below the new key,
            // keys above it lie above the new key
            assert forall|j: int| ii < j < es.len() implies lex_lt(key@, es[j].0) by {
                let j0 = j - shift;
                assert(es[j] == es0[j0]);
                if replace {
                    assert(lex_lt(es0[ii].0, es0[j0].0));
                } else if ii < j0 {
                    assert(lex_lt(es0[ii].0, es0[j0].0));
                    lemma_lex_lt_trans(key@, es0[ii].0, es0[j0].0);
                }
            }
            assert forall|p: int, q: int|
                0 <= p < q < es.len() implies lex_lt(es[p].0, es[q].0) by {
                if p != ii && q != ii {
                    let p0 = if p < ii { p } else { p - shift };
                    let q0 = if q < ii { q } else { q - shift };
                    assert(es[p] == es0[p0]);
                    assert(es[q] == es0[q0]);
                    if p0 == q0 {
                        // only possible across the insertion point without
                        // replacement, where the shift keeps them distinct
                        assert(false);
                    }
                } else if p == ii {
                    assert(lex_lt(key@, es[q].0));
                } else {
                    assert(lex_lt(es[p].0, key@));
                }
            }
            assert(self.wf());
            assert forall|k: Seq<u8>| true implies #[trigger] self@.contains_key(k)
                == m0@.insert(key@, value@).contains_key(k) && (self@.contains_key(k)
                ==> self@[k] == m0@.insert(key@, value@)[k]) by {
                if k == key@ {
                    self.lemma_view_at(ii);
                } else {
                    if m0.spec_has(k) {
                        let j0 = m0.index_of(k);
                        m0.lemma_view_at(j0);
                        let j = if j0 < ii { j0 } else { j0 + shift };
                        if replace && j0 == ii {
                            // the replaced slot carried the new key, not k
                            assert(false);
                        }
                        assert(es[j] == es0[j0]);
                        self.lemma_view_at(j);
                        assert(self@.contains_key(k) && self@[k] == m0@[k]);
                    } else {
                        assert forall|j: int| 0 <= j < es.len() implies (#[trigger] es[j]).0 != k
                            by {
                            if j != ii {
                                let j0 = if j < ii { j } else { j - shift };
                                assert(es[j] == es0[j0]);
                                if es0[j0].0 == k {
                                    assert(m0.spec_has(k));
                                }
                            }
                        }
                        assert(!self.spec_has(k));
                    }
                }
            }
            assert(self@ =~= m0@.insert(key@, value@));
        }
    }
    /// Deletes the entry stored under the key; does nothing if the key is
    /// absent.
    pub fn remove(&mut self, key: &Vec<u8>)
        requires
            old(self).wf(),
        ensures
            final(self).wf(),
            final(self)@ == old(self)@.remove(key@),
    {
        let ghost m0 = *old(self);
        let n = self.entries.len();
        let mut i: usize = 0;
        while i < n && !bytes_eq(&self.entries[i].0, key)
            invariant
                0 <= i <= n,
                *self == m0,
                n == self.entries.len(),
                m0.wf(),
                forall|j: int| 0 <= j < i ==> (#[trigger] self.entry_seq()[j]).0 != key@,
            decreases n - i,
        {
            i = i + 1;
        }
        if i < n {
            self.entries.remove(i);
            proof {
                    let es0 = m0.entry_seq();
                    let es = self.entry_seq();
                    let ii = i as int;
                    assert(es.len() == es0.len() - 1);
                    assert forall|j: int| 0 <= j < ii implies es[j] == es0[j] by {}
                    assert forall|j: int| ii <= j < es.len() implies es[j] == es0[j + 1] by {}
                    assert forall|j: int| 0 <= j < es.len() implies (#[trigger] es[j]).0 != key@
                        by {
                        if j >= ii {
                            if es0[j + 1].0 == key@ {
                                assert(lex_lt(es0[ii].0, es0[j + 1].0));
                                lemma_lex_lt_irrefl(key@);
                            }
                        }
                    }
                    assert(self.wf());
                    assert forall|k: Seq<u8>| true implies #[trigger] self@.contains_key(k)
                        == m0@.remove(key@).contains_key(k) && (self@.contains_key(k)
                        ==> self@[k] == m0@.remove(key@)[k]) by {
                        if k != key@ {
                            if m0.spec_has(k) {
                                let j0 = m0.index_of(k);
                                m0.lemma_view_at(j0);
                                let j = if j0 < ii { j0 } else { j0 - 1 };
                                assert(es[j] == es0[j0]);
                                self.lemma_view_at(j);
                            } else {
                                assert forall|j: int|
                                    0 <= j < es.len() implies (#[trigger] es[j]).0 != k by {
                                    let j0 = if j < ii { j } else { j + 1 };
                                    assert(es[j] == es0[j0]);
                                    if es0[j0].0 == k {
                                        assert(m0.spec_has(k));
                                    }
                                }
                                assert(!self.spec_has(k));
                            }
                        } else {
                            assert(!self.spec_has(k));
                        }
                    }
                    assert(self@ =~= m0@.remove(key@));
            }
        } else {
            proof {
                assert(!m0.spec_has(key@));
                assert(!m0@.contains_key(key@));
                assert(self@ =~= m0@.remove(key@));
            }
        }
    }
}

impl EnvMap {
    /// Number of entries stored.
    pub fn len(&self) -> (n: usize)
        ensures
            n == self.entry_seq().len(),
    {
        self.entries.len()
    }

    /// Owned copy of all entries, in listing order.  The copy shares
    /// nothing with the map, so later mutations cannot reach it.
    pub fn snapshot_entries(&self) -> (out: Vec<(Vec<u8>, Vec<u8>)>)
        ensures
            entries_view(out@) == self.entry_seq(),
    {
        let mut out: Vec<(Vec<u8>, Vec<u8>)> = Vec::new();
        let n = self.entries.len();
        let mut i: usize = 0;
        while i < n
            invariant
                0 <= i <= n,
                n == self.entries.len(),
                out@.len() == i,
                forall|j: int| 0 <= j < i ==> entries_view(out@)[j] == (#[trigger] self.entry_seq()[j]),
            decreases n - i,
        {
            let e = &self.entries[i];
            out.push((clone_bytes(&e.0), clone_bytes(&e.1)));
            i = i + 1;
        }
        proof {
            assert(entries_view(out@) =~= self.entry_seq());
        }
        out
    }

    /// Replays the pairs in order, inserting each one; for a repeated key
    /// the later pair wins (see [`lemma_fill_last_wins`]).
    pub fn fill(&mut self, pairs: &Vec<(Vec<u8>, Vec<u8>)>)
        requires
            old(self).wf(),
        ensures
            final(self).wf(),
            final(self)@ == spec_fill(old(self)@, entries_view(pairs@)),
    {
        let ghost g0 = self@;
        let ghost pv = entries_view(pairs@);
        let n = pairs.len();
        let mut i: usize = 0;
        proof {
            assert(pv.skip(0) =~= pv);
        }
        while i < n
            invariant
                0 <= i <= n,
                n == pairs.len(),
                self.wf(),
                pv == entries_view(pairs@),
                spec_fill(self@, pv.skip(i as int)) == spec_fill(g0, pv),
            decreases n - i,
        {
            let e = &pairs[i];
            proof {
                assert(pv.skip(i as int)[0] == pv[i as int]);
                assert(pv.skip(i as int).skip(1) =~= pv.skip(i as int + 1));
            }
            self.insert(clone_bytes(&e.0), clone_bytes(&e.1));
            i = i + 1;
        }
        proof {
            assert(pv.skip(n as int) =~= Seq::<(Seq<u8>, Seq<u8>)>::empty());
            assert(spec_fill(g0, pv) == spec_fill(old(self)@, entries_view(pairs@)));
        }
    }
}

/// The map that results from inserting a sequence of pairs, first to last.
pub open spec fn spec_fill(
    m: Map<Seq<u8>, Seq<u8>>,
    ps: Seq<(Seq<u8>, Seq<u8>)>,
) -> Map<Seq<u8>, Seq<u8>>
    decreases ps.len(),
{
    if ps.len() == 0 {
        m
    } else {
        spec_fill(m.insert(ps[0].0, ps[0].1), ps.skip(1))
    }
}

/// A key that no pair mentions keeps its binding through a fill.
pub proof fn lemma_fill_untouched(
    m: Map<Seq<u8>, Seq<u8>>,
    ps: Seq<(Seq<u8>, Seq<u8>)>,
    k: Seq<u8>,
)
    requires
        forall|j: int| 0 <= j < ps.len() ==> (#[trigger] ps[j]).0 != k,
    ensures
        spec_fill(m, ps).contains_key(k) == m.contains_key(k),
        m.contains_key(k) ==> spec_fill(m, ps)[k] == m[k],
    decreases ps.len(),
{
    if ps.len() > 0 {
        assert forall|j: int| 0 <= j < ps.skip(1).len() implies (#[trigger] ps.skip(1)[j]).0 != k
            by {
            assert(ps.skip(1)[j] == ps[j + 1]);
        }
        lemma_fill_untouched(m.insert(ps[0].0, ps[0].1), ps.skip(1), k);
    }
}

/// Fill ordering law: the last pair that mentions a key determines that
/// key's value after the fill.
pub proof fn lemma_fill_last_wins(
    m: Map<Seq<u8>, Seq<u8>>,
    ps: Seq<(Seq<u8>, Seq<u8>)>,
    i: int,
)
    requires
        0 <= i < ps.len(),
        forall|j: int| i < j < ps.len() ==> (#[trigger] ps[j]).0 != ps[i].0,
    ensures
        spec_fill(m, ps).contains_key(ps[i].0),
        spec_fill(m, ps)[ps[i].0] == ps[i].1,
    decreases ps.len(),
{
    let m1 = m.insert(ps[0].0, ps[0].1);
    if i == 0 {
        assert forall|j: int|
            0 <= j < ps.skip(1).len() implies (#[trigger] ps.skip(1)[j]).0 != ps[0].0 by {
            assert(ps.skip(1)[j] == ps[j + 1]);
        }
        lemma_fill_untouched(m1, ps.skip(1), ps[0].0);
    } else {
        assert(ps.skip(1)[i - 1] == ps[i]);
        assert forall|j: int|
            i - 1 < j < ps.skip(1).len() implies (#[trigger] ps.skip(1)[j]).0 != ps.skip(1)[i
            - 1].0 by {
            assert(ps.skip(1)[j] == ps[j + 1]);
        }
        lemma_fill_last_wins(m1, ps.skip(1), i - 1);
    }
}

/// Listing completeness law: a well-formed map lists exactly its
/// contents — every listed entry is a stored binding, and every stored
/// binding appears in the listing.
pub proof fn lemma_entries_match_view(m: EnvMap)
    requires
        m.wf(),
    ensures
        forall|i: int|
            0 <= i < m.entry_seq().len() ==> m@.contains_key((#[trigger] m.entry_seq()[i]).0)
                && m@[m.entry_seq()[i].0] == m.entry_seq()[i].1,
        forall|k: Seq<u8>|
            #[trigger] m@.contains_key(k) ==> exists|i: int|
                0 <= i < m.entry_seq().len() && (#[trigger] m.entry_seq()[i]) == (k, m@[k]),
{
    assert forall|i: int|
        0 <= i < m.entry_seq().len() implies m@.contains_key((#[trigger] m.entry_seq()[i]).0)
        && m@[m.entry_seq()[i].0] == m.entry_seq()[i].1 by {
        m.lemma_view_at(i);
    }
    assert forall|k: Seq<u8>| #[trigger] m@.contains_key(k) implies exists|i: int|
        0 <= i < m.entry_seq().len() && (#[trigger] m.entry_seq()[i]) == (k, m@[k]) by {
        assert(m.spec_has(k));
        let j = m.index_of(k);
        m.lemma_view_at(j);
        assert(m.entry_seq()[j] == (k, m@[k]));
    }
}

/// The entry of `m1` at `i` also stands in `m2`, at `m2.index_of` its key,
/// when the two maps hold the same variables.
proof fn lemma_match_index(m1: EnvMap, m2: EnvMap, i: int)
    requires
        m1.wf(),
        m2.wf(),
        m1@ == m2@,
        0 <= i < m1.entry_seq().len(),
    ensures
        ({
            let j = m2.index_of(m1.entry_seq()[i].0);
            0 <= j < m2.entry_seq().len() && m2.entry_seq()[j] == m1.entry_seq()[i]
        }),
{
    m1.lemma_view_at(i);
    let k = m1.entry_seq()[i].0;
    assert(m2@.contains_key(k));
    assert(m2.spec_has(k));
    let j = m2.index_of(k);
    m2.lemma_view_at(j);
}

/// The index match of [`lemma_match_index`] is strictly monotone.
proof fn lemma_match_mono(m1: EnvMap, m2: EnvMap, i: int, i2: int)
    requires
        m1.wf(),
        m2.wf(),
        m1@ == m2@,
        0 <= i < i2 < m1.entry_seq().len(),
    ensures
        m2.index_of(m1.entry_seq()[i].0) < m2.index_of(m1.entry_seq()[i2].0),
{
    lemma_match_index(m1, m2, i);
    lemma_match_index(m1, m2, i2);
    let a = m1.entry_seq()[i].0;
    let b = m1.entry_seq()[i2].0;
    let j = m2.index_of(a);
    let j2 = m2.index_of(b);
    assert(lex_lt(a, b));
    if j2 < j {
        assert(lex_lt(m2.entry_seq()[j2].0, m2.entry_seq()[j].0));
        lemma_lex_lt_trans(a, b, a);
        lemma_lex_lt_irrefl(a);
    } else if j2 == j {
        lemma_lex_lt_irrefl(a);
    }
}

/// The index match of [`lemma_match_index`] never falls below its
/// argument.
proof fn lemma_match_ge(m1: EnvMap, m2: EnvMap, i: int)
    requires
        m1.wf(),
        m2.wf(),
        m1@ == m2@,
        0 <= i < m1.entry_seq().len(),
    ensures
        m2.index_of(m1.entry_seq()[i].0) >= i,
    decreases i,
{
    lemma_match_index(m1, m2, i);
    if i > 0 {
        lemma_match_ge(m1, m2, i - 1);
        lemma_match_mono(m1, m2, i - 1, i);
    }
}

/// Determinism law: the listing order is a function of the contents
/// alone.  Two well-formed maps that hold the same variables list
/// exactly the same entries in the same order.
pub proof fn lemma_listing_deterministic(m1: EnvMap, m2: EnvMap)
    requires
        m1.wf(),
        m2.wf(),
        m1@ == m2@,
    ensures
        m1.entry_seq() == m2.entry_seq(),
{
    let n1 = m1.entry_seq().len() as int;
    let n2 = m2.entry_seq().len() as int;
    if n1 > 0 {
        lemma_match_index(m1, m2, n1 - 1);
        lemma_match_ge(m1, m2, n1 - 1);
    }
    if n2 > 0 {
        lemma_match_index(m2, m1, n2 - 1);
        lemma_match_ge(m2, m1, n2 - 1);
    }
    assert(n1 == n2);
    assert forall|i: int| 0 <= i < n1 implies m1.entry_seq()[i] == m2.entry_seq()[i] by {
        lemma_match_index(m1, m2, i);
        lemma_match_ge(m1, m2, i);
        let j = m2.index_of(m1.entry_seq()[i].0);
        lemma_match_index(m2, m1, j);
        lemma_match_ge(m2, m1, j);
        let i2 = m1.index_of(m2.entry_seq()[j].0);
        if i2 < i {
            assert(lex_lt(m1.entry_seq()[i2].0, m1.entry_seq()[i].0));
            lemma_lex_lt_irrefl(m1.entry_seq()[i].0);
        } else if i < i2 {
            assert(lex_lt(m1.entry_seq()[i].0, m1.entry_seq()[i2].0));
            lemma_lex_lt_irrefl(m1.entry_seq()[i].0);
        }
        assert(i2 == i);
        assert(j <= i2);
        assert(j == i);
    }
    assert(m1.entry_seq() =~= m2.entry_seq());
}

/// Uniqueness law: a well-formed map never holds two entries for the same
/// key.
pub proof fn lemma_keys_unique(m: EnvMap)
    requires
        m.wf(),
    ensures
        forall|i: int, j: int|
            0 <= i < j < m.keys().len() ==> (#[trigger] m.keys()[i]) != (#[trigger] m.keys()[j]),
{
    assert forall|i: int, j: int|
        0 <= i < j < m.keys().len() implies (#[trigger] m.keys()[i]) != (#[trigger] m.keys()[j])
        by {
        assert(m.keys()[i] == m.entry_seq()[i].0);
        assert(m.keys()[j] == m.entry_seq()[j].0);
        assert(lex_lt(m.entry_seq()[i].0, m.entry_seq()[j].0));
        if m.entry_seq()[i].0 == m.entry_seq()[j].0 {
            lemma_lex_lt_irrefl(m.entry_seq()[i].0);
        }
    }
}

impl View for EnvMap {
    type V = Map<Seq<u8>, Seq<u8>>;

    closed spec fn view(&self) -> Map<Seq<u8>, Seq<u8>> {
        Map::new(|k: Seq<u8>| self.spec_has(k), |k: Seq<u8>| self.entry_seq()[self.index_of(k)].1)
    }
}

/// The error type for text-mode lookups of environment variables.
#[derive(Debug, PartialEq, Eq, Clone)]
pub enum VarError {
    /// The variable was not present in the store.
    NotPresent,
    /// The variable was present, but its value is not valid UTF-8 text.
    /// The raw value is carried as the payload for diagnostics.
    NotUnicode(Vec<u8>),
}

/// Specification-level image of [`VarError`].
pub enum VarErrorSpec {
    NotPresent,
    NotUnicode(Seq<u8>),
}

impl VarError {
    /// A short description of the error, as the conventional environment
    /// API words it.
    pub fn description(&self) -> (s: String)
        ensures
            match self {
                VarError::NotPresent => s@ == "environment variable not found"@,
                VarError::NotUnicode(_) => s@ == "environment variable was not valid unicode"@,
            },
    {
        match self {
            VarError::NotPresent => "environment variable not found".to_owned(),
            VarError::NotUnicode(_) => "environment variable was not valid unicode".to_owned(),
        }
    }
}

impl View for VarError {
    type V = VarErrorSpec;

    open spec fn view(&self) -> VarErrorSpec {
        match self {
            VarError::NotPresent => VarErrorSpec::NotPresent,
            VarError::NotUnicode(raw) => VarErrorSpec::NotUnicode(raw@),
        }
    }
}

/// What a text lookup yields on a given map and key: the decoded value,
/// or the error saying why there is none.  A key the lookup does not
/// reach (see [`lookup_key`]) reads as absent, whatever is stored.
pub open spec fn var_spec(m: Map<Seq<u8>, Seq<u8>>, key: Seq<u8>) -> Result<
    Seq<char>,
    VarErrorSpec,
> {
    if !lookup_key(key) || !m.contains_key(key) {
        Err(VarErrorSpec::NotPresent)
    } else if valid_utf8(m[key]) {
        Ok(decode_utf8(m[key]))
    } else {
        Err(VarErrorSpec::NotUnicode(m[key]))
    }
}

/// Relies on `String::from_utf8`: when the bytes are valid UTF-8 it
/// returns the string holding exactly those bytes, and otherwise an error
/// whose `into_bytes` gives the bytes back unchanged.
#[verifier::external_body]
fn bytes_into_string(bytes: Vec<u8>) -> (r: Result<String, Vec<u8>>)
    ensures
        match r {
            Ok(s) => valid_utf8(bytes@) && s@ == decode_utf8(bytes@),
            Err(e) => !valid_utf8(bytes@) && e@ == bytes@,
        },
{
    match String::from_utf8(bytes) {
        Ok(s) => Ok(s),
        Err(e) => Err(e.into_bytes()),
    }
}

impl EnvMap {
    /// Text lookup: copies the value stored under the key and decodes it
    /// as UTF-8, reporting absence and undecodable values as typed
    /// errors.  A key the lookup does not reach reads as absent.
    pub fn var(&self, key: &Vec<u8>) -> (r: Result<String, VarError>)
        requires
            self.wf(),
        ensures
            match r {
                Ok(s) => var_spec(self@, key@) == Ok::<Seq<char>, VarErrorSpec>(s@),
                Err(e) => var_spec(self@, key@) == Err::<Seq<char>, VarErrorSpec>(e@),
            },
    {
        match self.get(key) {
            Some(raw) => match bytes_into_string(raw) {
                Ok(s) => Ok(s),
                Err(raw2) => Err(VarError::NotUnicode(raw2)),
            },
            None => Err(VarError::NotPresent),
        }
    }

    /// Takes a snapshot of the whole store and returns an iterator over
    /// it.
    pub fn vars_os(&self) -> (it: VarsOs)
        requires
            self.wf(),
        ensures
            it.wf(),
            it.remaining() == self.entry_seq(),
            sorted_pairs(it.remaining()),
    {
        let entries = self.snapshot_entries();
        let it = VarsOs { entries, pos: 0 };
        proof {
            assert(it.remaining() =~= self.entry_seq());
        }
        it
    }
}

/// An iterator over a snapshot of the environment, yielding owned
/// byte-string pairs in listing order.  The snapshot is an independent
/// copy taken at creation: mutations of the live store never reach it,
/// and it holds no lock.
#[derive(Debug)]
pub struct VarsOs {
    entries: Vec<(Vec<u8>, Vec<u8>)>,
    pos: usize,
}

impl VarsOs {
    /// The pairs still to be yielded, in order.
    pub closed spec fn remaining(self) -> Seq<(Seq<u8>, Seq<u8>)> {
        entries_view(self.entries@).skip(self.pos as int)
    }

    pub closed spec fn wf(self) -> bool {
        self.pos <= self.entries.len()
    }

    /// Yields the next pair of the snapshot.
    pub fn next(&mut self) -> (r: Option<(Vec<u8>, Vec<u8>)>)
        requires
            old(self).wf(),
        ensures
            final(self).wf(),
            old(self).remaining().len() == 0 ==> r is None && final(self).remaining() == old(
                self,
            ).remaining(),
            old(self).remaining().len() > 0 ==> (r matches Some(p) && p.0@ == old(
                self,
            ).remaining()[0].0 && p.1@ == old(self).remaining()[0].1 && final(self).remaining()
                == old(self).remaining().skip(1)),
    {
        let ghost s0 = *self;
        if self.pos < self.entries.len() {
            let e = &self.entries[self.pos];
            let r = (clone_bytes(&e.0), clone_bytes(&e.1));
            self.pos = self.pos + 1;
            proof {
                let ev = entries_view(s0.entries@);
                assert(s0.remaining()[0] == ev[s0.pos as int]);
                assert(ev.skip(s0.pos as int).skip(1) =~= ev.skip(s0.pos as int + 1));
            }
            Some(r)
        } else {
            None
        }
    }

    /// Exact bounds on the number of pairs still to come.
    pub fn size_hint(&self) -> (r: (usize, Option<usize>))
        requires
            self.wf(),
        ensures
            r.0 == self.remaining().len(),
            r.1 matches Some(n) && n == self.remaining().len(),
    {
        let n = self.entries.len() - self.pos;
        (n, Some(n))
    }
}

/// An iterator over a snapshot of the environment, yielding text pairs in
/// listing order.  It may be advanced only while the entry about to be
/// yielded decodes as UTF-8 text: an undecodable entry is fatal to the
/// text listing, which has no per-item error channel.
#[derive(Debug)]
pub struct Vars {
    inner: VarsOs,
}

impl Vars {
    /// The pairs still to be yielded, in order, as raw byte strings.
    pub closed spec fn remaining(self) -> Seq<(Seq<u8>, Seq<u8>)> {
        self.inner.remaining()
    }

    pub closed spec fn wf(self) -> bool {
        self.inner.wf()
    }

    /// Wraps a byte-string snapshot iterator.
    pub fn from_raw(inner: VarsOs) -> (it: Vars)
        ensures
            it.wf() == inner.wf(),
            it.remaining() == inner.remaining(),
    {
        Vars { inner }
    }

    /// Yields the next pair of the snapshot, decoded as text.  The pair
    /// about to be yielded must decode; a later undecodable entry does
    /// not keep the valid prefix of the listing from being walked.
    pub fn next(&mut self) -> (r: Option<(String, String)>)
        requires
            old(self).wf(),
            old(self).remaining().len() > 0 ==> valid_utf8(old(self).remaining()[0].0)
                && valid_utf8(old(self).remaining()[0].1),
        ensures
            final(self).wf(),
            old(self).remaining().len() == 0 ==> r is None && final(self).remaining() == old(
                self,
            ).remaining(),
            old(self).remaining().len() > 0 ==> (r matches Some(p) && p.0@ == decode_utf8(
                old(self).remaining()[0].0,
            ) && p.1@ == decode_utf8(old(self).remaining()[0].1) && final(self).remaining() == old(
                self,
            ).remaining().skip(1)),
    {
        let ghost s0 = *self;
        match self.inner.next() {
            Some(kv) => {
                let (kb, vb) = kv;
                proof {
                    assert(valid_utf8(s0.remaining()[0].0) && valid_utf8(s0.remaining()[0].1));
                }
                let ks = match bytes_into_string(kb) {
                    Ok(s) => s,
                    Err(_) => unreached(),
                };
                let vs = match bytes_into_string(vb) {
                    Ok(s) => s,
                    Err(_) => unreached(),
                };
                Some((ks, vs))
            },
            None => None,
        }
    }

    /// Exact bounds on the number of pairs still to come.
    pub fn size_hint(&self) -> (r: (usize, Option<usize>))
        requires
            self.wf(),
        ensures
            r.0 == self.remaining().len(),
            r.1 matches Some(n) && n == self.remaining().len(),
    {
        self.inner.size_hint()
    }
}

} // verus!
