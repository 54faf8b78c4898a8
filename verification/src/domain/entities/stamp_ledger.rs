//! Canonical ledgers of encounter stamps and their word transport.
//!
//! A ledger holds at most one stamp per instance, ordered by instance id. Its
//! transport is a tag, a count, the stamps, and a 64-bit fingerprint of it all.

use vstd::prelude::*;

verus! {

/// A stamp that a ledger can hold and transport.
pub trait LedgerStamp: Copy + Sized {
    /// Instance that the stamp belongs to.
    spec fn key(self) -> u64;

    /// Strict order in which stamps of one instance supersede each other.
    spec fn over(self, other: Self) -> bool;

    /// First word of a transported ledger.
    spec fn tag() -> u32;

    /// Words per transported stamp.
    spec fn width() -> nat;

    spec fn words(self) -> Seq<u32>;

    /// What a stamp's words say; nothing where a word has no meaning.
    spec fn parsed(words: Seq<u32>) -> Option<Self>;

    /// Superseding is a total strict order, and words give back their stamp.
    proof fn stamp_laws(a: Self, b: Self, c: Self)
        ensures
            !a.over(a),
            a.over(b) && b.over(c) ==> a.over(c),
            a == b || a.over(b) || b.over(a),
            0 < Self::width() <= 16,
            a.words().len() == Self::width(),
            Self::parsed(a.words()) == Some(a),
    ;

    fn id(&self) -> (id: u64)
        ensures
            id == self.key(),
    ;

    fn supersedes(&self, other: &Self) -> (r: bool)
        ensures
            r == self.over(*other),
    ;

    fn ledger_tag() -> (tag: u32)
        ensures
            tag == Self::tag(),
    ;

    fn word_count() -> (n: usize)
        ensures
            n == Self::width(),
            0 < n <= 16,
    ;

    fn write(&self, out: &mut Vec<u32>)
        ensures
            final(out)@ == old(out)@ + self.words(),
    ;

    fn read(words: &[u32], at: usize) -> (stamp: Option<Self>)
        requires
            at + Self::width() <= words@.len(),
        ensures
            stamp == Self::parsed(words@.subrange(at as int, at + Self::width())),
    ;
}

/// Why a transported ledger was rejected.
#[derive(Debug, Clone, Copy, PartialEq, Eq, Structural)]
pub enum RealitySnapshotDecodeError {
    Header,
    Length,
    Value,
    Fingerprint,
}

/// Instance ids strictly rise.
pub open spec fn rising<T: LedgerStamp>(stamps: Seq<T>) -> bool {
    forall|i: int, j: int|
        #![trigger stamps[i], stamps[j]]
        0 <= i < j < stamps.len() ==> stamps[i].key() < stamps[j].key()
}

/// A ledger with one more stamp: put in id order, or in place of a stamp of the
/// same instance that it supersedes.
pub open spec fn inserted<T: LedgerStamp>(stamps: Seq<T>, s: T) -> Seq<T>
    decreases stamps.len(),
{
    if stamps.len() == 0 {
        seq![s]
    } else if stamps.last().key() < s.key() {
        stamps.push(s)
    } else if stamps.last().key() == s.key() {
        if s.over(stamps.last()) {
            stamps.drop_last().push(s)
        } else {
            stamps
        }
    } else {
        inserted(stamps.drop_last(), s).push(stamps.last())
    }
}

/// The ledger of the first `n` stamps of a list.
pub open spec fn ledger<T: LedgerStamp>(list: Seq<T>, n: nat) -> Seq<T>
    decreases n,
{
    if n == 0 {
        Seq::empty()
    } else {
        inserted(ledger(list, (n - 1) as nat), list[n - 1])
    }
}

/// `r` is the ledger of the stamps in `list`: ids rise, every entry comes from
/// the list, and no listed stamp supersedes the entry of its instance.
pub open spec fn summarizes<T: LedgerStamp>(r: Seq<T>, list: Seq<T>) -> bool {
    &&& rising(r)
    &&& forall|i: int| 0 <= i < r.len() ==> list.contains(#[trigger] r[i])
    &&& forall|i: int| 0 <= i < list.len() ==> covered(r, #[trigger] list[i])
}

/// The ledger has an entry of the stamp's instance that it does not supersede.
#[verifier::opaque]
pub open spec fn covered<T: LedgerStamp>(r: Seq<T>, s: T) -> bool {
    exists|k: int| 0 <= k < r.len() && (#[trigger] r[k]).key() == s.key() && !s.over(r[k])
}

/// All instance ids lie below `bound`.
spec fn ids_below<T: LedgerStamp>(stamps: Seq<T>, bound: u64) -> bool {
    forall|i: int| 0 <= i < stamps.len() ==> (#[trigger] stamps[i]).key() < bound
}

proof fn lemma_inserted_rising<T: LedgerStamp>(stamps: Seq<T>, s: T)
    requires
        rising(stamps),
    ensures
        rising(inserted(stamps, s)),
        forall|b: u64|
            ids_below(stamps, b) && s.key() < b ==> #[trigger] ids_below(inserted(stamps, s), b),
    decreases stamps.len(),
{
    let r = inserted(stamps, s);
    if stamps.len() > 0 {
        let rest = stamps.drop_last();
        if stamps.last().key() > s.key() {
            assert(rising(rest));
            lemma_inserted_rising(rest, s);
            let inner = inserted(rest, s);
            let last = stamps.last().key();
            assert(ids_below(rest, last));
            assert(ids_below(inner, last));
            assert forall|i: int, j: int|
                #![trigger r[i], r[j]]
                0 <= i < j < r.len() implies r[i].key() < r[j].key() by {
                assert(r[i] == inner[i]);
                if j < inner.len() {
                    assert(r[j] == inner[j]);
                }
            }
            assert forall|b: u64| ids_below(stamps, b) && s.key() < b implies #[trigger] ids_below(
                r,
                b,
            ) by {
                assert(stamps[stamps.len() - 1].key() < b);
                assert(ids_below(rest, b));
                assert(ids_below(inner, b));
                assert forall|i: int| 0 <= i < r.len() implies (#[trigger] r[i]).key() < b by {
                    if i < inner.len() {
                        assert(r[i] == inner[i]);
                    }
                }
            }
        }
    }
}

/// Inserting adds nothing but the stamp, loses no instance, and leaves no entry
/// that the stamp supersedes.
proof fn lemma_inserted_members<T: LedgerStamp>(stamps: Seq<T>, s: T)
    requires
        rising(stamps),
    ensures
        forall|i: int|
            0 <= i < inserted(stamps, s).len() ==> (#[trigger] inserted(stamps, s)[i]) == s
                || stamps.contains(inserted(stamps, s)[i]),
        covered(inserted(stamps, s), s),
        forall|t: T| #[trigger] covered(stamps, t) ==> covered(inserted(stamps, s), t),
    decreases stamps.len(),
{
    reveal(covered);
    let r = inserted(stamps, s);
    T::stamp_laws(s, s, s);
    if stamps.len() == 0 {
        assert(r[0] == s);
    } else {
        let n = stamps.len() - 1;
        let rest = stamps.drop_last();
        assert(rising(rest));
        if stamps.last().key() < s.key() {
            assert(r[n + 1] == s);
            assert forall|i: int| 0 <= i < r.len() implies (#[trigger] r[i]) == s
                || stamps.contains(r[i]) by {
                if i <= n {
                    assert(r[i] == stamps[i]);
                }
            }
            assert forall|t: T| #[trigger] covered(stamps, t) implies covered(r, t) by {
                let k = choose|k: int|
                    0 <= k < stamps.len() && (#[trigger] stamps[k]).key() == t.key() && !t.over(
                        stamps[k],
                    );
                assert(r[k] == stamps[k]);
            }
        } else if stamps.last().key() == s.key() {
            if s.over(stamps.last()) {
                assert(r[n] == s);
                assert forall|i: int| 0 <= i < r.len() implies (#[trigger] r[i]) == s
                    || stamps.contains(r[i]) by {
                    if i < n {
                        assert(r[i] == stamps[i]);
                    }
                }
                assert forall|t: T| #[trigger] covered(stamps, t) implies covered(r, t) by {
                    let k = choose|k: int|
                        0 <= k < stamps.len() && (#[trigger] stamps[k]).key() == t.key() && !t.over(
                            stamps[k],
                        );
                    if k < n {
                        assert(r[k] == stamps[k]);
                    } else {
                        T::stamp_laws(t, s, stamps[n]);
                        assert(r[n].key() == t.key() && !t.over(r[n]));
                    }
                }
            } else {
                assert(r[n] == stamps[n]);
                assert forall|i: int| 0 <= i < r.len() implies (#[trigger] r[i]) == s
                    || stamps.contains(r[i]) by {
                    assert(r[i] == stamps[i]);
                }
            }
        } else {
            lemma_inserted_members(rest, s);
            let inner = inserted(rest, s);
            assert forall|i: int| 0 <= i < r.len() implies (#[trigger] r[i]) == s
                || stamps.contains(r[i]) by {
                if i < inner.len() {
                    assert(r[i] == inner[i]);
                    if inner[i] != s {
                        let k = rest.index_of(inner[i]);
                        assert(stamps[k] == rest[k]);
                    }
                } else {
                    assert(r[i] == stamps[n]);
                }
            }
            assert(covered(r, s)) by {
                let k = choose|k: int|
                    0 <= k < inner.len() && (#[trigger] inner[k]).key() == s.key() && !s.over(
                        inner[k],
                    );
                assert(r[k] == inner[k]);
            }
            assert forall|t: T| #[trigger] covered(stamps, t) implies covered(r, t) by {
                let k = choose|k: int|
                    0 <= k < stamps.len() && (#[trigger] stamps[k]).key() == t.key() && !t.over(
                        stamps[k],
                    );
                if k < n {
                    assert(rest[k] == stamps[k]);
                    assert(covered(rest, t));
                    let j = choose|j: int|
                        0 <= j < inner.len() && (#[trigger] inner[j]).key() == t.key() && !t.over(
                            inner[j],
                        );
                    assert(r[j] == inner[j]);
                } else {
                    assert(r[inner.len() as int] == stamps[n]);
                }
            }
        }
    }
}

/// The ledger of a list summarizes it.
pub proof fn lemma_ledger_summarizes<T: LedgerStamp>(list: Seq<T>, n: nat)
    requires
        n <= list.len(),
    ensures
        summarizes(ledger(list, n), list.take(n as int)),
    decreases n,
{
    let r = ledger(list, n);
    let seen = list.take(n as int);
    if n > 0 {
        let m = (n - 1) as nat;
        let before = ledger(list, m);
        let s = list[n - 1];
        lemma_ledger_summarizes(list, m);
        lemma_inserted_rising(before, s);
        lemma_inserted_members(before, s);
        let earlier = list.take(m as int);
        assert forall|i: int| 0 <= i < r.len() implies seen.contains(#[trigger] r[i]) by {
            if r[i] == s {
                assert(seen[n - 1] == s);
            } else {
                assert(before.contains(r[i]));
                let k = before.index_of(r[i]);
                assert(earlier.contains(before[k]));
                let j = earlier.index_of(before[k]);
                assert(seen[j] == earlier[j]);
            }
        }
        assert forall|i: int| 0 <= i < seen.len() implies covered(r, #[trigger] seen[i]) by {
            if i < m {
                assert(earlier[i] == seen[i]);
                assert(covered(before, earlier[i]));
            }
        }
    }
}

/// A list has one summary.
pub proof fn lemma_summary_unique<T: LedgerStamp>(a: Seq<T>, b: Seq<T>, list: Seq<T>)
    requires
        summarizes(a, list),
        summarizes(b, list),
    ensures
        a == b,
    decreases a.len() + b.len(),
{
    assert forall|i: int| 0 <= i < a.len() implies b.contains(#[trigger] a[i]) by {
        lemma_entry_shared(a, b, list, i);
    }
    assert forall|i: int| 0 <= i < b.len() implies a.contains(#[trigger] b[i]) by {
        lemma_entry_shared(b, a, list, i);
    }
    lemma_same_members(a, b);
}

proof fn lemma_cover<T: LedgerStamp>(r: Seq<T>, s: T) -> (k: int)
    requires
        covered(r, s),
    ensures
        0 <= k < r.len(),
        r[k].key() == s.key(),
        !s.over(r[k]),
{
    reveal(covered);
    choose|k: int| 0 <= k < r.len() && (#[trigger] r[k]).key() == s.key() && !s.over(r[k])
}

proof fn lemma_entry_shared<T: LedgerStamp>(a: Seq<T>, b: Seq<T>, list: Seq<T>, i: int)
    requires
        summarizes(a, list),
        summarizes(b, list),
        0 <= i < a.len(),
    ensures
        b.contains(a[i]),
{
    assert(list.contains(a[i]));
    let p = list.index_of(a[i]);
    assert(covered(b, list[p]));
    let k = lemma_cover(b, list[p]);
    assert(list.contains(b[k]));
    let q = list.index_of(b[k]);
    assert(covered(a, list[q]));
    let j = lemma_cover(a, list[q]);
    assert(j == i) by {
        if j < i {
            assert(a[j].key() < a[i].key());
        } else if i < j {
            assert(a[i].key() < a[j].key());
        }
    }
    T::stamp_laws(a[i], b[k], b[k]);
    assert(b[k] == a[i]);
}

/// Two rising sequences with the same members are equal.
proof fn lemma_same_members<T: LedgerStamp>(a: Seq<T>, b: Seq<T>)
    requires
        rising(a),
        rising(b),
        forall|i: int| 0 <= i < a.len() ==> b.contains(#[trigger] a[i]),
        forall|i: int| 0 <= i < b.len() ==> a.contains(#[trigger] b[i]),
    ensures
        a == b,
    decreases a.len(),
{
    if a.len() == 0 {
        if b.len() > 0 {
            assert(a.contains(b[0]));
        }
        assert(a =~= b);
    } else {
        assert(b.contains(a[0]));
        let x = a.len() - 1;
        let y = b.len() - 1;
        let p = b.index_of(a[x]);
        assert(b[p] == a[x]);
        assert(a.contains(b[y]));
        let q = a.index_of(b[y]);
        assert(a[q] == b[y]);
        if p < y {
            assert(b[p].key() < b[y].key());
            if q < x {
                assert(a[q].key() < a[x].key());
            }
        }
        assert(a[x] == b[y]);
        let c = a.drop_last();
        let d = b.drop_last();
        assert forall|i: int| 0 <= i < c.len() implies d.contains(#[trigger] c[i]) by {
            assert(b.contains(a[i]));
            let k = b.index_of(a[i]);
            assert(b[k] == a[i]);
            assert(a[i].key() < a[x].key());
            assert(k != y);
            assert(d[k] == c[i]);
        }
        assert forall|i: int| 0 <= i < d.len() implies c.contains(#[trigger] d[i]) by {
            assert(a.contains(b[i]));
            let k = a.index_of(b[i]);
            assert(a[k] == b[i]);
            assert(b[i].key() < b[y].key());
            assert(k != x);
            assert(c[k] == d[i]);
        }
        lemma_same_members(c, d);
        assert(a =~= c.push(a[x]));
        assert(b =~= d.push(b[y]));
    }
}

/// Lists with the same members have the same ledger, whatever their order.
pub proof fn lemma_ledger_order_free<T: LedgerStamp>(a: Seq<T>, b: Seq<T>)
    requires
        forall|s: T| a.contains(s) <==> b.contains(s),
    ensures
        ledger(a, a.len()) == ledger(b, b.len()),
{
    lemma_ledger_summarizes(a, a.len());
    lemma_ledger_summarizes(b, b.len());
    assert(a.take(a.len() as int) =~= a);
    assert(b.take(b.len() as int) =~= b);
    let r = ledger(b, b.len());
    assert forall|i: int| 0 <= i < r.len() implies a.contains(#[trigger] r[i]) by {
        assert(b.contains(r[i]));
    }
    assert forall|i: int| 0 <= i < a.len() implies covered(r, #[trigger] a[i]) by {
        assert(a.contains(a[i]));
        let k = b.index_of(a[i]);
        assert(covered(r, b[k]));
    }
    lemma_summary_unique(ledger(a, a.len()), r, a);
}

/// A ledger is its own ledger.
pub proof fn lemma_ledger_fixed<T: LedgerStamp>(stamps: Seq<T>)
    requires
        rising(stamps),
    ensures
        ledger(stamps, stamps.len()) == stamps,
{
    lemma_ledger_summarizes(stamps, stamps.len());
    assert(stamps.take(stamps.len() as int) =~= stamps);
    assert(summarizes(stamps, stamps)) by {
        assert forall|i: int| 0 <= i < stamps.len() implies covered(stamps, #[trigger] stamps[i]) by {
            reveal(covered);
            T::stamp_laws(stamps[i], stamps[i], stamps[i]);
        }
    }
    lemma_summary_unique(ledger(stamps, stamps.len()), stamps, stamps);
}

/// Inserting before a tail of higher ids leaves the tail alone.
proof fn lemma_inserted_split<T: LedgerStamp>(stamps: Seq<T>, at: int, s: T)
    requires
        0 <= at <= stamps.len(),
        forall|i: int| at <= i < stamps.len() ==> (#[trigger] stamps[i]).key() > s.key(),
    ensures
        inserted(stamps, s) == inserted(stamps.take(at), s) + stamps.skip(at),
    decreases stamps.len(),
{
    if at == stamps.len() {
        assert(stamps.take(at) =~= stamps);
        assert(inserted(stamps.take(at), s) + stamps.skip(at) =~= inserted(stamps, s));
    } else {
        let n = stamps.len() - 1;
        let rest = stamps.drop_last();
        assert(stamps[n].key() > s.key());
        assert(forall|i: int| at <= i < rest.len() ==> (#[trigger] rest[i]) == stamps[i]);
        lemma_inserted_split(rest, at, s);
        assert(rest.take(at) =~= stamps.take(at));
        assert((inserted(rest.take(at), s) + rest.skip(at)).push(stamps[n]) =~= inserted(
            stamps.take(at),
            s,
        ) + stamps.skip(at));
    }
}

/// Puts one stamp into a ledger.
fn insert_stamp<T: LedgerStamp>(stamps: &mut Vec<T>, s: T)
    requires
        rising(old(stamps)@),
    ensures
        final(stamps)@ == inserted(old(stamps)@, s),
        rising(final(stamps)@),
{
    let ghost before = stamps@;
    let mut at: usize = stamps.len();
    while at > 0 && stamps[at - 1].id() > s.id()
        invariant
            at <= stamps@.len(),
            stamps@ == before,
            forall|i: int| at <= i < before.len() ==> (#[trigger] before[i]).key() > s.key(),
        decreases at,
    {
        at = at - 1;
    }
    let ghost head = before.take(at as int);
    let ghost tail = before.skip(at as int);
    proof {
        lemma_inserted_rising(before, s);
        lemma_inserted_split(before, at as int, s);
    }
    if at > 0 && stamps[at - 1].id() == s.id() {
        assert(head.last() == before[at - 1]);
        if s.supersedes(&stamps[at - 1]) {
            stamps.set(at - 1, s);
            assert(stamps@ =~= head.drop_last().push(s) + tail);
        } else {
            assert(stamps@ =~= head + tail);
        }
    } else {
        stamps.insert(at, s);
        assert(stamps@ =~= head.push(s) + tail);
        if at == 0 {
            assert(head.push(s) =~= seq![s]);
        } else {
            assert(head.last() == before[at - 1]);
        }
    }
}

/// The ledger of a list of stamps.
pub fn build_ledger<T: LedgerStamp>(list: &Vec<T>) -> (stamps: Vec<T>)
    ensures
        stamps@ == ledger(list@, list@.len()),
        rising(stamps@),
{
    let mut stamps: Vec<T> = Vec::new();
    let mut i: usize = 0;
    while i < list.len()
        invariant
            i <= list@.len(),
            rising(stamps@),
            stamps@ == ledger(list@, i as nat),
        decreases list@.len() - i,
    {
        insert_stamp(&mut stamps, list[i]);
        i = i + 1;
    }
    stamps
}

/// The stamp of an instance, if it has one.
pub open spec fn stamp_of<T: LedgerStamp>(stamps: Seq<T>, id: u64) -> Option<T>
    decreases stamps.len(),
{
    if stamps.len() == 0 {
        None
    } else if stamps.last().key() == id {
        Some(stamps.last())
    } else {
        stamp_of(stamps.drop_last(), id)
    }
}

/// In a ledger an instance has the one stamp with its id.
pub proof fn lemma_stamp_of<T: LedgerStamp>(stamps: Seq<T>, id: u64)
    requires
        rising(stamps),
    ensures
        forall|i: int|
            0 <= i < stamps.len() && (#[trigger] stamps[i]).key() == id ==> stamp_of(stamps, id)
                == Some(stamps[i]),
        stamp_of(stamps, id) matches Some(s) ==> stamps.contains(s) && s.key() == id,
        stamp_of(stamps, id) is None ==> forall|i: int|
            0 <= i < stamps.len() ==> (#[trigger] stamps[i]).key() != id,
    decreases stamps.len(),
{
    if stamps.len() > 0 {
        let n = stamps.len() - 1;
        let rest = stamps.drop_last();
        assert(rising(rest));
        lemma_stamp_of(rest, id);
        assert forall|i: int|
            0 <= i < stamps.len() && (#[trigger] stamps[i]).key() == id implies stamp_of(stamps, id)
            == Some(stamps[i]) by {
            if i < n {
                assert(rest[i] == stamps[i]);
                assert(stamps[i].key() < stamps[n].key());
            }
        }
        if stamps[n].key() == id {
            assert(stamps.contains(stamps[n]));
        } else if let Some(s) = stamp_of(rest, id) {
            let k = rest.index_of(s);
            assert(stamps[k] == s);
        } else {
            assert forall|i: int| 0 <= i < stamps.len() implies (#[trigger] stamps[i]).key()
                != id by {
                if i < n {
                    assert(rest[i].key() != id);
                }
            }
        }
    }
}

/// Position of an instance's stamp, found by halving.
pub fn find_stamp<T: LedgerStamp>(stamps: &Vec<T>, id: u64) -> (found: Option<usize>)
    requires
        rising(stamps@),
    ensures
        match found {
            Some(i) => i < stamps@.len() && stamp_of(stamps@, id) == Some(stamps@[i as int]),
            None => stamp_of(stamps@, id) is None,
        },
{
    proof {
        lemma_stamp_of(stamps@, id);
    }
    let mut low: usize = 0;
    let mut high: usize = stamps.len();
    while low < high
        invariant
            low <= high <= stamps@.len(),
            rising(stamps@),
            forall|i: int|
                0 <= i < stamps@.len() && (#[trigger] stamps@[i]).key() == id ==> stamp_of(
                    stamps@,
                    id,
                ) == Some(stamps@[i]),
            forall|i: int| 0 <= i < low ==> (#[trigger] stamps@[i]).key() < id,
            forall|i: int| high <= i < stamps@.len() ==> (#[trigger] stamps@[i]).key() > id,
        decreases high - low,
    {
        let mid: usize = low + (high - low) / 2;
        let at: u64 = stamps[mid].id();
        if at == id {
            return Some(mid);
        } else if at < id {
            low = mid + 1;
        } else {
            high = mid;
        }
    }
    proof {
        if let Some(s) = stamp_of(stamps@, id) {
            let k = stamps@.index_of(s);
            assert(stamps@[k].key() == id);
        }
    }
    None
}

/// The stamps of every instance but one, in order.
pub open spec fn without<T: LedgerStamp>(stamps: Seq<T>, id: u64) -> Seq<T>
    decreases stamps.len(),
{
    if stamps.len() == 0 {
        Seq::empty()
    } else {
        let rest = without(stamps.drop_last(), id);
        if stamps.last().key() != id {
            rest.push(stamps.last())
        } else {
            rest
        }
    }
}

proof fn lemma_without<T: LedgerStamp>(stamps: Seq<T>, id: u64)
    ensures
        forall|t: T|
            #[trigger] without(stamps, id).contains(t) <==> stamps.contains(t) && t.key() != id,
    decreases stamps.len(),
{
    if stamps.len() > 0 {
        let rest = stamps.drop_last();
        let n = stamps.len() - 1;
        lemma_without(rest, id);
        let r = without(stamps, id);
        let inner = without(rest, id);
        assert forall|t: T|
            #[trigger] r.contains(t) <==> stamps.contains(t) && t.key() != id by {
            if r.contains(t) {
                let k = r.index_of(t);
                if k < inner.len() {
                    assert(inner[k] == t);
                    assert(inner.contains(t));
                    let j = rest.index_of(t);
                    assert(stamps[j] == t);
                } else {
                    assert(stamps[n] == t);
                }
            }
            if stamps.contains(t) && t.key() != id {
                let j = stamps.index_of(t);
                if j < n {
                    assert(rest[j] == t);
                    assert(inner.contains(t));
                    let k = inner.index_of(t);
                    assert(r[k] == t);
                } else {
                    assert(r[inner.len() as int] == t);
                }
            }
        }
    }
}

/// The ledger with the stamp in place of its instance's old one.
pub open spec fn replaced<T: LedgerStamp>(stamps: Seq<T>, s: T) -> Seq<T> {
    let list = without(stamps, s.key()).push(s);
    ledger(list, list.len())
}

/// Replaces an instance's stamp.
pub fn replace_stamp<T: LedgerStamp>(stamps: &Vec<T>, s: T) -> (next: Vec<T>)
    ensures
        next@ == replaced(stamps@, s),
        rising(next@),
{
    let id: u64 = s.id();
    let mut list: Vec<T> = Vec::new();
    let mut i: usize = 0;
    assert(without(stamps@.take(0), id) =~= Seq::empty());
    while i < stamps.len()
        invariant
            i <= stamps@.len(),
            id == s.key(),
            list@ == without(stamps@.take(i as int), id),
        decreases stamps@.len() - i,
    {
        assert(stamps@.take(i + 1).drop_last() =~= stamps@.take(i as int));
        let t = stamps[i];
        if t.id() != id {
            list.push(t);
        }
        i = i + 1;
    }
    assert(stamps@.take(stamps@.len() as int) =~= stamps@);
    list.push(s);
    build_ledger(&list)
}

/// A replaced stamp is the one found, and every other instance keeps its own.
pub proof fn lemma_replaced<T: LedgerStamp>(stamps: Seq<T>, s: T)
    requires
        rising(stamps),
    ensures
        rising(replaced(stamps, s)),
        replaced(stamps, s).contains(s),
        forall|t: T|
            t.key() != s.key() ==> (#[trigger] replaced(stamps, s).contains(t) <==> stamps.contains(
                t,
            )),
        forall|t: T| #[trigger] replaced(stamps, s).contains(t) && t.key() == s.key() ==> t == s,
{
    let rest = without(stamps, s.key());
    let list = rest.push(s);
    let r = replaced(stamps, s);
    lemma_ledger_summarizes(list, list.len());
    assert(list.take(list.len() as int) =~= list);
    lemma_without(stamps, s.key());
    assert(list[rest.len() as int] == s);
    let k = lemma_cover(r, list[rest.len() as int]);
    assert(list.contains(r[k]));
    let j = list.index_of(r[k]);
    assert(list[j] == r[k]);
    if j < rest.len() {
        assert(rest[j] == list[j]);
        assert(rest.contains(rest[j]));
    }
    assert(r[k] == s);
    assert forall|t: T| t.key() != s.key() implies (#[trigger] r.contains(t) <==> stamps.contains(
        t,
    )) by {
        if r.contains(t) {
            let x = r.index_of(t);
            assert(list.contains(r[x]));
            let y = list.index_of(r[x]);
            assert(rest[y] == t);
            assert(rest.contains(rest[y]));
        }
        if stamps.contains(t) {
            assert(rest.contains(t));
            let y = rest.index_of(t);
            assert(list[y] == t);
            let x = lemma_cover(r, list[y]);
            assert(list.contains(r[x]));
            let w = list.index_of(r[x]);
            assert(list[w] == r[x]);
            assert(w < rest.len());
            assert(rest[w] == r[x]);
            assert(rest.contains(rest[w]));
            assert(stamps.contains(r[x]));
            let p = stamps.index_of(r[x]);
            let q = stamps.index_of(t);
            if p < q {
                assert(stamps[p].key() < stamps[q].key());
            } else if q < p {
                assert(stamps[q].key() < stamps[p].key());
            }
            assert(r[x] == t);
        }
    }
    assert forall|t: T| #[trigger] r.contains(t) && t.key() == s.key() implies t == s by {
        let x = r.index_of(t);
        if x < k {
            assert(r[x].key() < r[k].key());
        } else if k < x {
            assert(r[k].key() < r[x].key());
        }
    }
}

} // verus!
