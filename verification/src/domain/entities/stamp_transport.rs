//! Word transport of stamp ledgers.

use vstd::prelude::*;

use crate::domain::entities::stamp_ledger::{
    build_ledger, ledger, lemma_ledger_fixed, rising, RealitySnapshotDecodeError, LedgerStamp,
};
use crate::domain::hashing::{
    hash_words, high_half, high_word, join_halves, joined, law_halves, law_one_word_changes_the_hash,
    low_half, low_word, words_hash,
};

verus! {

/// The words of the first `n` stamps, one after the other.
pub open spec fn stamp_words<T: LedgerStamp>(stamps: Seq<T>, n: nat) -> Seq<u32>
    decreases n,
{
    if n == 0 {
        Seq::empty()
    } else {
        stamp_words(stamps, (n - 1) as nat) + stamps[n - 1].words()
    }
}

/// Tag, count and stamps.
pub open spec fn ledger_body<T: LedgerStamp>(stamps: Seq<T>) -> Seq<u32> {
    seq![T::tag(), stamps.len() as u32] + stamp_words(stamps, stamps.len())
}

/// The whole transport: the body and its fingerprint, low half first.
pub open spec fn ledger_words<T: LedgerStamp>(stamps: Seq<T>) -> Seq<u32> {
    let body = ledger_body(stamps);
    body.push(low_word(words_hash(body))).push(high_word(words_hash(body)))
}

/// The words of one transported stamp.
pub open spec fn stamp_slice<T: LedgerStamp>(words: Seq<u32>, i: int) -> Seq<u32> {
    words.subrange(2 + i * T::width(), 2 + (i + 1) * T::width())
}

/// The first `n` transported stamps; nothing where one of them has no meaning.
pub open spec fn parsed_stamps<T: LedgerStamp>(words: Seq<u32>, n: nat) -> Option<Seq<T>>
    decreases n,
{
    if n == 0 {
        Some(Seq::empty())
    } else {
        match parsed_stamps::<T>(words, (n - 1) as nat) {
            None => None,
            Some(list) => match T::parsed(stamp_slice::<T>(words, n - 1)) {
                None => None,
                Some(s) => Some(list.push(s)),
            },
        }
    }
}

/// What a transport says, or why it is rejected: a foreign or short header, a
/// length that does not match the count, a wrong fingerprint, or a word without
/// meaning. Only the canonical transport of a ledger is accepted.
pub open spec fn received<T: LedgerStamp>(words: Seq<u32>) -> Result<Seq<T>, RealitySnapshotDecodeError> {
    let end = 2 + words[1] * T::width();
    if words.len() < 4 || words[0] != T::tag() {
        Err(RealitySnapshotDecodeError::Header)
    } else if words.len() != end + 2 {
        Err(RealitySnapshotDecodeError::Length)
    } else if words_hash(words.take(end)) != joined(words[end], words[end + 1]) {
        Err(RealitySnapshotDecodeError::Fingerprint)
    } else {
        match parsed_stamps::<T>(words, words[1] as nat) {
            None => Err(RealitySnapshotDecodeError::Value),
            Some(list) => {
                let stamps = ledger(list, list.len());
                if ledger_words(stamps) == words {
                    Ok(stamps)
                } else {
                    Err(RealitySnapshotDecodeError::Value)
                }
            },
        }
    }
}

/// Writes tag, count and stamps.
pub fn write_body<T: LedgerStamp>(stamps: &Vec<T>) -> (out: Vec<u32>)
    ensures
        out@ == ledger_body(stamps@),
{
    let mut out: Vec<u32> = Vec::new();
    out.push(T::ledger_tag());
    out.push(stamps.len() as u32);
    let ghost head = out@;
    assert(head =~= seq![T::tag(), stamps@.len() as u32]);
    assert(out@ =~= head + stamp_words(stamps@, 0));
    let mut i: usize = 0;
    while i < stamps.len()
        invariant
            i <= stamps@.len(),
            out@ == head + stamp_words(stamps@, i as nat),
        decreases stamps@.len() - i,
    {
        stamps[i].write(&mut out);
        assert(out@ =~= head + stamp_words(stamps@, (i + 1) as nat));
        i = i + 1;
    }
    out
}

/// Fingerprint of a ledger.
pub fn ledger_fingerprint<T: LedgerStamp>(stamps: &Vec<T>) -> (hash: u64)
    ensures
        hash == words_hash(ledger_body(stamps@)),
{
    let body = write_body(stamps);
    assert(body@.take(body@.len() as int) =~= body@);
    hash_words(body.as_slice(), body.len())
}

/// Writes a ledger for transport.
pub fn write_ledger<T: LedgerStamp>(stamps: &Vec<T>) -> (out: Vec<u32>)
    ensures
        out@ == ledger_words(stamps@),
{
    let mut out = write_body(stamps);
    assert(out@.take(out@.len() as int) =~= out@);
    let hash: u64 = hash_words(out.as_slice(), out.len());
    out.push(low_half(hash));
    out.push(high_half(hash));
    out
}

fn same_words(a: &Vec<u32>, b: &[u32]) -> (same: bool)
    ensures
        same == (a@ == b@),
{
    if a.len() != b.len() {
        return false;
    }
    let mut i: usize = 0;
    while i < b.len()
        invariant
            i <= b@.len(),
            a@.len() == b@.len(),
            forall|k: int| 0 <= k < i ==> #[trigger] a@[k] == b@[k],
        decreases b@.len() - i,
    {
        if a[i] != b[i] {
            return false;
        }
        i = i + 1;
    }
    assert(a@ =~= b@);
    true
}

proof fn lemma_parse_stops<T: LedgerStamp>(words: Seq<u32>, n: nat, m: nat)
    requires
        n <= m,
        parsed_stamps::<T>(words, n) is None,
    ensures
        parsed_stamps::<T>(words, m) is None,
    decreases m,
{
    if n < m {
        lemma_parse_stops::<T>(words, n, (m - 1) as nat);
    }
}

/// Where stamp `n` ends and the next one starts.
proof fn lemma_stamp_span(n: int, width: int, count: int)
    requires
        0 <= n < count,
        0 < width,
    ensures
        0 <= n * width,
        (n + 1) * width == n * width + width,
        (n + 1) * width <= count * width,
{
    assert(0 <= n * width && (n + 1) * width == n * width + width && (n + 1) * width <= count
        * width) by (nonlinear_arith)
        requires
            0 <= n < count,
            0 < width,
    ;
}

/// Reads `count` stamps from the third word on.
fn read_stamps<T: LedgerStamp>(words: &[u32], count: u32) -> (list: Option<Vec<T>>)
    requires
        words@.len() == 4 + count * T::width(),
        0 < T::width() <= 16,
    ensures
        match (list, parsed_stamps::<T>(words@, count as nat)) {
            (Some(list), Some(expected)) => list@ == expected,
            (None, None) => true,
            _ => false,
        },
{
    let width: usize = T::word_count();
    let mut list: Vec<T> = Vec::new();
    let mut at: usize = 2;
    let mut n: u32 = 0;
    while n < count
        invariant
            n <= count,
            list@.len() == n,
            width == T::width(),
            0 < T::width() <= 16,
            words@.len() == 4 + count * T::width(),
            at == 2 + n * T::width(),
            parsed_stamps::<T>(words@, n as nat) == Some(list@),
        decreases count - n,
    {
        proof {
            lemma_stamp_span(n as int, T::width() as int, count as int);
            assert(words.len() == words@.len());
        }
        match T::read(words, at) {
            None => {
                proof {
                    assert(parsed_stamps::<T>(words@, (n + 1) as nat) is None);
                    lemma_parse_stops::<T>(words@, (n + 1) as nat, count as nat);
                }
                return None;
            },
            Some(s) => {
                list.push(s);
            },
        }
        at = at + width;
        n = n + 1;
    }
    Some(list)
}

/// Reads a transported ledger.
pub fn read_ledger<T: LedgerStamp>(words: &[u32]) -> (result: Result<Vec<T>, RealitySnapshotDecodeError>)
    ensures
        match (result, received::<T>(words@)) {
            (Ok(stamps), Ok(expected)) => stamps@ == expected && rising(stamps@),
            (Err(a), Err(b)) => a == b,
            _ => false,
        },
{
    if words.len() < 4 || words[0] != T::ledger_tag() {
        return Err(RealitySnapshotDecodeError::Header);
    }
    let width: usize = T::word_count();
    let count: u32 = words[1];
    proof {
        assert(count * width <= 0xFFFF_FFFF * 16) by (nonlinear_arith)
            requires
                count <= 0xFFFF_FFFF,
                0 < width <= 16,
        ;
    }
    let span: u64 = (count as u64) * (width as u64);
    if (words.len() - 4) as u64 != span {
        return Err(RealitySnapshotDecodeError::Length);
    }
    let end: usize = words.len() - 2;
    let expected: u64 = join_halves(words[end], words[end + 1]);
    if hash_words(words, end) != expected {
        return Err(RealitySnapshotDecodeError::Fingerprint);
    }
    let list = match read_stamps::<T>(words, count) {
        None => {
            return Err(RealitySnapshotDecodeError::Value);
        },
        Some(list) => list,
    };
    let stamps = build_ledger(&list);
    if same_words(&write_ledger(&stamps), words) {
        Ok(stamps)
    } else {
        Err(RealitySnapshotDecodeError::Value)
    }
}

proof fn lemma_stamp_words_len<T: LedgerStamp>(stamps: Seq<T>, n: nat)
    requires
        n <= stamps.len(),
    ensures
        stamp_words(stamps, n).len() == n * T::width(),
    decreases n,
{
    if n > 0 {
        lemma_stamp_words_len(stamps, (n - 1) as nat);
        T::stamp_laws(stamps[n - 1], stamps[n - 1], stamps[n - 1]);
        assert((n - 1) * T::width() + T::width() == n * T::width()) by (nonlinear_arith);
    } else {
        assert(0 * T::width() == 0) by (nonlinear_arith);
    }
}

/// The words of stamp `i` stand at its place among the words of all.
proof fn lemma_stamp_words_slice<T: LedgerStamp>(stamps: Seq<T>, n: nat, i: int)
    requires
        0 <= i < n <= stamps.len(),
    ensures
        0 <= i * T::width(),
        (i + 1) * T::width() <= stamp_words(stamps, n).len(),
        stamp_words(stamps, n).subrange(i * T::width(), (i + 1) * T::width()) == stamps[i].words(),
    decreases n,
{
    let w = T::width() as int;
    let m = (n - 1) as nat;
    lemma_stamp_words_len(stamps, n);
    lemma_stamp_words_len(stamps, m);
    T::stamp_laws(stamps[i], stamps[i], stamps[i]);
    T::stamp_laws(stamps[n - 1], stamps[n - 1], stamps[n - 1]);
    assert(0 <= i * w && (i + 1) * w <= n * w && (i + 1) * w == i * w + w && m * w + w == n * w)
        by (nonlinear_arith)
        requires
            0 <= i < n,
            w > 0,
            m == n - 1,
    ;
    let all = stamp_words(stamps, n);
    let before = stamp_words(stamps, m);
    if i == n - 1 {
        assert(all.subrange(i * w, (i + 1) * w) =~= stamps[i].words());
    } else {
        lemma_stamp_words_slice(stamps, m, i);
        assert(all.subrange(i * w, (i + 1) * w) =~= before.subrange(i * w, (i + 1) * w));
    }
}

proof fn lemma_parses_back<T: LedgerStamp>(stamps: Seq<T>, n: nat)
    requires
        n <= stamps.len(),
    ensures
        parsed_stamps::<T>(ledger_words(stamps), n) == Some(stamps.take(n as int)),
    decreases n,
{
    let words = ledger_words(stamps);
    if n == 0 {
        assert(stamps.take(0) =~= Seq::empty());
    } else {
        let i = n - 1;
        let w = T::width() as int;
        lemma_parses_back(stamps, (n - 1) as nat);
        lemma_stamp_words_slice(stamps, stamps.len(), i);
        T::stamp_laws(stamps[i], stamps[i], stamps[i]);
        let all = stamp_words(stamps, stamps.len());
        lemma_stamp_span(i, w, stamps.len() as int);
        assert(stamp_slice::<T>(words, i) =~= all.subrange(i * w, (i + 1) * w));
        assert(stamps.take(n as int) =~= stamps.take(i).push(stamps[i]));
    }
}

/// Reading back a written ledger gives the ledger: transport is lossless.
pub proof fn lemma_round_trip<T: LedgerStamp>(stamps: Seq<T>)
    requires
        rising(stamps),
        stamps.len() <= u32::MAX,
    ensures
        received::<T>(ledger_words(stamps)) == Ok::<Seq<T>, RealitySnapshotDecodeError>(stamps),
{
    let words = ledger_words(stamps);
    let body = ledger_body(stamps);
    let end = (2 + stamps.len() * T::width()) as int;
    lemma_stamp_words_len(stamps, stamps.len());
    lemma_parses_back(stamps, stamps.len());
    assert(stamps.take(stamps.len() as int) =~= stamps);
    lemma_ledger_fixed(stamps);
    assert(body.len() == end);
    assert(words.take(end) =~= body);
    assert(words[end] == low_word(words_hash(body)));
    assert(words[end + 1] == high_word(words_hash(body)));
    law_halves(words_hash(body), 0, 0);
    assert(words[0] == T::tag());
    assert(words[1] == stamps.len());
    assert(stamps.len() * T::width() >= 0) by (nonlinear_arith);
}

/// Why a transport with one wrong word is rejected, by the place of the word.
pub open spec fn wrong_word_error(at: int) -> RealitySnapshotDecodeError {
    if at == 0 {
        RealitySnapshotDecodeError::Header
    } else if at == 1 {
        RealitySnapshotDecodeError::Length
    } else {
        RealitySnapshotDecodeError::Fingerprint
    }
}

/// One wrong word always shows: it is a foreign header at the first place, a wrong
/// length at the second, and a wrong fingerprint anywhere after that.
pub proof fn law_one_wrong_word_shows<T: LedgerStamp>(stamps: Seq<T>, at: int, word: u32)
    requires
        stamps.len() <= u32::MAX,
        0 <= at < ledger_words(stamps).len(),
        word != ledger_words(stamps)[at],
    ensures
        received::<T>(ledger_words(stamps).update(at, word)) == Err::<Seq<T>, RealitySnapshotDecodeError>(
            wrong_word_error(at),
        ),
{
    let words = ledger_words(stamps);
    let wrong = words.update(at, word);
    let body = ledger_body(stamps);
    let hash = words_hash(body);
    let count = stamps.len() as int;
    let width = T::width() as int;
    let end = 2 + count * width;
    lemma_stamp_words_len(stamps, stamps.len());
    assert(count * width >= 0) by (nonlinear_arith)
        requires
            count >= 0,
            width >= 0,
    ;
    assert(body.len() == end);
    assert(words.len() == end + 2);
    assert(words[0] == T::tag() && words[1] == count);
    assert(words[end] == low_word(hash) && words[end + 1] == high_word(hash));
    law_halves(hash, wrong[end], wrong[end + 1]);
    if at == 0 {
        assert(wrong[0] != T::tag());
    } else if at == 1 {
        T::stamp_laws(arbitrary(), arbitrary(), arbitrary());
        let claimed = word as int;
        assert(claimed * width != count * width) by (nonlinear_arith)
            requires
                claimed != count,
                width > 0,
        ;
    } else if at < end {
        assert(wrong.take(end) =~= body.update(at, word));
        law_one_word_changes_the_hash(body, at, word);
    } else {
        assert(wrong.take(end) =~= body);
    }
}

/// An accepted transport is the one that the ledger writes: no two transports
/// stand for the same ledger.
pub proof fn lemma_canonical<T: LedgerStamp>(words: Seq<u32>)
    requires
        received::<T>(words) is Ok,
    ensures
        ledger_words(received::<T>(words)->Ok_0) == words,
{
}

} // verus!
