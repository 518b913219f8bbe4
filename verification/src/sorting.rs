//! The order of hashes, and a log put in that order.
//!
//! Hashes are ordered as strings are: byte by byte over their UTF-8 form,
//! a proper prefix before what extends it.  A log sorted by hash holds each
//! hash once, so the sorted form of a set of entries is unique.

use vstd::prelude::*;
use vstd::string::StringSliceAdditionalSpecFns;
use vstd::utf8::{encode_utf8, encode_utf8_decode_utf8};
use crate::mutation::MutationView;
use crate::mutations_log_store::{entry_views, scan_of, LogView, MutationsLogMutation};

verus! {

/// `a` and `b` agree before place `i`, and at place `i` one of them ends or
/// they differ.
pub open spec fn parts_at(a: Seq<u8>, b: Seq<u8>, i: int) -> bool {
    &&& 0 <= i <= a.len()
    &&& i <= b.len()
    &&& forall|j: int| 0 <= j < i ==> a[j] == b[j]
    &&& (i == a.len() || i == b.len() || a[i] != b[i])
}

/// `a` comes before `b`: where they part, `a` ends and `b` goes on, or `a`
/// has the smaller byte.
pub open spec fn bytes_before(a: Seq<u8>, b: Seq<u8>) -> bool {
    exists|i: int| parts_at(a, b, i) && i < b.len() && (i == a.len() || a[i] < b[i])
}

/// The hash `a` comes before the hash `b`.
pub open spec fn hash_before(a: Seq<char>, b: Seq<char>) -> bool {
    bytes_before(encode_utf8(a), encode_utf8(b))
}

/// Two byte strings part at one place only.
proof fn lemma_parts_once(a: Seq<u8>, b: Seq<u8>, i: int, j: int)
    requires
        parts_at(a, b, i),
        parts_at(a, b, j),
    ensures
        i == j,
{
    if i < j {
        assert(a[i] == b[i]);
    }
    if j < i {
        assert(a[j] == b[j]);
    }
}

/// Two byte strings part somewhere.
proof fn lemma_parts_somewhere(a: Seq<u8>, b: Seq<u8>, from: int) -> (i: int)
    requires
        0 <= from <= a.len(),
        from <= b.len(),
        forall|j: int| 0 <= j < from ==> a[j] == b[j],
    ensures
        parts_at(a, b, i),
    decreases a.len() - from,
{
    if from == a.len() || from == b.len() || a[from] != b[from] {
        from
    } else {
        lemma_parts_somewhere(a, b, from + 1)
    }
}

/// No byte string comes before itself.
pub proof fn lemma_before_irreflexive(a: Seq<u8>)
    ensures
        !bytes_before(a, a),
{
    if bytes_before(a, a) {
        let i = choose|i: int| parts_at(a, a, i) && i < a.len() && (i == a.len() || a[i] < a[i]);
        assert(false);
    }
}

/// What comes before something that comes before a third comes before the
/// third.
pub proof fn lemma_before_transitive(a: Seq<u8>, b: Seq<u8>, c: Seq<u8>)
    requires
        bytes_before(a, b),
        bytes_before(b, c),
    ensures
        bytes_before(a, c),
{
    let i = choose|i: int| parts_at(a, b, i) && i < b.len() && (i == a.len() || a[i] < b[i]);
    let j = choose|j: int| parts_at(b, c, j) && j < c.len() && (j == b.len() || b[j] < c[j]);
    let k = if i <= j {
        i
    } else {
        j
    };
    assert(parts_at(a, c, k));
    assert(k < c.len() && (k == a.len() || a[k] < c[k]));
}

/// Of two different byte strings one comes before the other.
pub proof fn lemma_before_total(a: Seq<u8>, b: Seq<u8>)
    ensures
        a == b || bytes_before(a, b) || bytes_before(b, a),
{
    let i = lemma_parts_somewhere(a, b, 0);
    if i == a.len() && i == b.len() {
        assert(a =~= b);
    } else if i == a.len() {
        assert(bytes_before(a, b));
    } else if i == b.len() {
        assert(parts_at(b, a, i));
        assert(bytes_before(b, a));
    } else if a[i] < b[i] {
        assert(bytes_before(a, b));
    } else {
        assert(parts_at(b, a, i));
        assert(bytes_before(b, a));
    }
}

/// Of two different hashes one comes before the other, never both, and none
/// comes before itself.
pub proof fn lemma_hash_order(a: Seq<char>, b: Seq<char>)
    ensures
        a == b || hash_before(a, b) || hash_before(b, a),
        !(hash_before(a, b) && hash_before(b, a)),
        a == b ==> !hash_before(a, b),
{
    encode_utf8_decode_utf8(a);
    encode_utf8_decode_utf8(b);
    lemma_before_total(encode_utf8(a), encode_utf8(b));
    lemma_before_irreflexive(encode_utf8(a));
    if hash_before(a, b) && hash_before(b, a) {
        lemma_before_transitive(encode_utf8(a), encode_utf8(b), encode_utf8(a));
    }
}

/// The order of hashes is transitive.
pub proof fn lemma_hash_transitive(a: Seq<char>, b: Seq<char>, c: Seq<char>)
    requires
        hash_before(a, b),
        hash_before(b, c),
    ensures
        hash_before(a, c),
{
    lemma_before_transitive(encode_utf8(a), encode_utf8(b), encode_utf8(c));
}

/// Whether the hash `a` comes before the hash `b`.
pub fn hash_precedes(a: &String, b: &String) -> (before: bool)
    ensures
        before == hash_before(a@, b@),
{
    let x = a.as_str().as_bytes();
    let y = b.as_str().as_bytes();
    assert(x@ == encode_utf8(a@));
    assert(y@ == encode_utf8(b@));
    let mut i: usize = 0;
    while i < x.len() && i < y.len()
        invariant
            x@ == encode_utf8(a@),
            y@ == encode_utf8(b@),
            i <= x.len(),
            i <= y.len(),
            forall|j: int| 0 <= j < i ==> x@[j] == y@[j],
        decreases x.len() - i,
    {
        if x[i] != y[i] {
            let before = x[i] < y[i];
            proof {
                lemma_parted(x@, y@, i as int);
            }
            return before;
        }
        i += 1;
    }
    let before = i < y.len();
    proof {
        lemma_parted(x@, y@, i as int);
    }
    before
}

/// Where two byte strings part decides which comes first.
proof fn lemma_parted(a: Seq<u8>, b: Seq<u8>, i: int)
    requires
        parts_at(a, b, i),
    ensures
        bytes_before(a, b) == (i < b.len() && (i == a.len() || a[i] < b[i])),
{
    if bytes_before(a, b) {
        let k = choose|k: int| parts_at(a, b, k) && k < b.len() && (k == a.len() || a[k] < b[k]);
        lemma_parts_once(a, b, i, k);
    }
}

/// The entries stand by rising hash, so that none occurs twice.
pub open spec fn sorted_by_hash(entries: Seq<(Seq<char>, MutationView)>) -> bool {
    forall|i: int, j: int| 0 <= i < j < entries.len() ==> hash_before(entries[i].0, entries[j].0)
}

/// Entry `k` of `entries` is the first one under `hash`.
pub open spec fn first_under(entries: Seq<(Seq<char>, MutationView)>, k: int, hash: Seq<char>) -> bool {
    &&& 0 <= k < entries.len()
    &&& entries[k].0 == hash
    &&& forall|j: int| 0 <= j < k ==> entries[j].0 != hash
}

/// Among the first `n` of `entries`, one is the first under its hash and
/// equal to `entry`.
pub open spec fn taken_from(
    entry: (Seq<char>, MutationView),
    entries: Seq<(Seq<char>, MutationView)>,
    n: int,
) -> bool {
    exists|k: int| 0 <= k < n && first_under(entries, k, entry.0) && entries[k] == entry
}

/// Some entry of `sorted` stands under `hash`.
pub open spec fn holds_hash(sorted: Seq<(Seq<char>, MutationView)>, hash: Seq<char>) -> bool {
    exists|i: int| 0 <= i < sorted.len() && sorted[i].0 == hash
}

/// `sorted` is the first `n` of `entries` put in the order of hashes: for
/// each hash among them the first entry under it, and nothing else.
pub open spec fn sorted_upto(
    sorted: Seq<(Seq<char>, MutationView)>,
    entries: Seq<(Seq<char>, MutationView)>,
    n: int,
) -> bool {
    &&& sorted_by_hash(sorted)
    &&& forall|i: int| 0 <= i < sorted.len() ==> #[trigger] taken_from(sorted[i], entries, n)
    &&& forall|k: int| 0 <= k < n ==> #[trigger] holds_hash(sorted, entries[k].0)
}

/// `sorted` is `entries` put in the order of hashes: for each hash of
/// `entries` the first entry under it, and nothing else.
pub open spec fn sorted_log_of(
    sorted: Seq<(Seq<char>, MutationView)>,
    entries: Seq<(Seq<char>, MutationView)>,
) -> bool {
    sorted_upto(sorted, entries, entries.len() as int)
}

/// Two sorted logs with the same entries are the same log.
pub proof fn lemma_sorted_unique(
    a: Seq<(Seq<char>, MutationView)>,
    b: Seq<(Seq<char>, MutationView)>,
)
    requires
        sorted_by_hash(a),
        sorted_by_hash(b),
        forall|i: int| 0 <= i < a.len() ==> b.contains(#[trigger] a[i]),
        forall|i: int| 0 <= i < b.len() ==> a.contains(#[trigger] b[i]),
    ensures
        a == b,
    decreases a.len(),
{
    if a.len() == 0 {
        if b.len() > 0 {
            assert(a.contains(b[0]));
        }
        assert(a =~= b);
    } else {
        assert(b.contains(a[0]));
        let k = choose|k: int| 0 <= k < b.len() && b[k] == a[0];
        assert(a.contains(b[0]));
        let m = choose|m: int| 0 <= m < a.len() && a[m] == b[0];
        if k > 0 {
            lemma_hash_order(b[0].0, b[k].0);
            if m > 0 {
                lemma_hash_order(a[0].0, a[m].0);
            }
        }
        assert(k == 0);
        let ta = a.drop_first();
        let tb = b.drop_first();
        assert forall|i: int| 0 <= i < ta.len() implies tb.contains(#[trigger] ta[i]) by {
            assert(ta[i] == a[i + 1]);
            assert(b.contains(a[i + 1]));
            let j = choose|j: int| 0 <= j < b.len() && b[j] == a[i + 1];
            lemma_hash_order(a[0].0, a[i + 1].0);
            assert(j > 0);
            assert(tb[j - 1] == a[i + 1]);
        }
        assert forall|i: int| 0 <= i < tb.len() implies ta.contains(#[trigger] tb[i]) by {
            assert(tb[i] == b[i + 1]);
            assert(a.contains(b[i + 1]));
            let j = choose|j: int| 0 <= j < a.len() && a[j] == b[i + 1];
            lemma_hash_order(b[0].0, b[i + 1].0);
            assert(j > 0);
            assert(ta[j - 1] == b[i + 1]);
        }
        assert(sorted_by_hash(ta)) by {
            assert forall|i: int, j: int| 0 <= i < j < ta.len() implies hash_before(
                ta[i].0,
                ta[j].0,
            ) by {
                assert(ta[i] == a[i + 1] && ta[j] == a[j + 1]);
            }
        }
        assert(sorted_by_hash(tb)) by {
            assert forall|i: int, j: int| 0 <= i < j < tb.len() implies hash_before(
                tb[i].0,
                tb[j].0,
            ) by {
                assert(tb[i] == b[i + 1] && tb[j] == b[j + 1]);
            }
        }
        lemma_sorted_unique(ta, tb);
        assert(a =~= seq![a[0]] + ta);
        assert(b =~= seq![b[0]] + tb);
    }
}

/// However a log is scanned, putting the scan in the order of hashes gives
/// the same sequence: the order of a sorted log is fixed by what the log
/// holds.
pub proof fn lemma_sorted_scan_unique(
    log: LogView,
    first_scan: Seq<(Seq<char>, MutationView)>,
    second_scan: Seq<(Seq<char>, MutationView)>,
    first_sorted: Seq<(Seq<char>, MutationView)>,
    second_sorted: Seq<(Seq<char>, MutationView)>,
)
    requires
        scan_of(first_scan, log),
        scan_of(second_scan, log),
        sorted_log_of(first_sorted, first_scan),
        sorted_log_of(second_sorted, second_scan),
    ensures
        first_sorted == second_sorted,
{
    assert forall|i: int| 0 <= i < first_sorted.len() implies second_sorted.contains(
        #[trigger] first_sorted[i],
    ) by {
        lemma_sorted_in_scan(log, first_scan, first_sorted, second_scan, second_sorted, i);
    }
    assert forall|i: int| 0 <= i < second_sorted.len() implies first_sorted.contains(
        #[trigger] second_sorted[i],
    ) by {
        lemma_sorted_in_scan(log, second_scan, second_sorted, first_scan, first_sorted, i);
    }
    lemma_sorted_unique(first_sorted, second_sorted);
}

/// An entry of one sorted scan of a log stands in every other sorted scan
/// of it.
proof fn lemma_sorted_in_scan(
    log: LogView,
    scan: Seq<(Seq<char>, MutationView)>,
    sorted: Seq<(Seq<char>, MutationView)>,
    other_scan: Seq<(Seq<char>, MutationView)>,
    other_sorted: Seq<(Seq<char>, MutationView)>,
    i: int,
)
    requires
        scan_of(scan, log),
        scan_of(other_scan, log),
        sorted_log_of(sorted, scan),
        sorted_log_of(other_sorted, other_scan),
        0 <= i < sorted.len(),
    ensures
        other_sorted.contains(sorted[i]),
{
    let h = sorted[i].0;
    assert(taken_from(sorted[i], scan, scan.len() as int));
    let k = choose|k: int|
        0 <= k < scan.len() && first_under(scan, k, sorted[i].0) && scan[k] == sorted[i];
    assert(log.contains_key(scan[k].0));
    assert(log[scan[k].0].0 == scan[k].1);
    let m = choose|m: int| 0 <= m < other_scan.len() && other_scan[m].0 == h;
    assert(log[other_scan[m].0].0 == other_scan[m].1);
    assert(holds_hash(other_sorted, other_scan[m].0));
    let j = choose|j: int| 0 <= j < other_sorted.len() && other_sorted[j].0 == other_scan[m].0;
    assert(taken_from(other_sorted[j], other_scan, other_scan.len() as int));
    let n = choose|n: int|
        0 <= n < other_scan.len() && first_under(other_scan, n, other_sorted[j].0) && other_scan[n]
            == other_sorted[j];
    assert(log[other_scan[n].0].0 == other_scan[n].1);
    assert(other_sorted[j] == sorted[i]);
}

/// An entry whose hash the sorted log holds is passed over.
proof fn lemma_sort_skip(
    sorted: Seq<(Seq<char>, MutationView)>,
    input: Seq<(Seq<char>, MutationView)>,
    n: int,
    p: int,
)
    requires
        0 <= n < input.len(),
        sorted_upto(sorted, input, n),
        0 <= p < sorted.len(),
        sorted[p].0 == input[n].0,
    ensures
        sorted_upto(sorted, input, n + 1),
{
    assert forall|i: int| 0 <= i < sorted.len() implies #[trigger] taken_from(
        sorted[i],
        input,
        n + 1,
    ) by {
        assert(taken_from(sorted[i], input, n));
        let k = choose|k: int|
            0 <= k < n && first_under(input, k, sorted[i].0) && input[k] == sorted[i];
        assert(0 <= k < n + 1);
    }
    assert forall|k: int| 0 <= k < n + 1 implies #[trigger] holds_hash(sorted, input[k].0) by {
        if k == n {
            assert(sorted[p].0 == input[k].0);
        } else {
            assert(holds_hash(sorted, input[k].0));
        }
    }
}

/// An entry whose hash the sorted log does not hold goes in at its place.
proof fn lemma_sort_insert(
    before: Seq<(Seq<char>, MutationView)>,
    input: Seq<(Seq<char>, MutationView)>,
    n: int,
    p: int,
)
    requires
        0 <= n < input.len(),
        sorted_upto(before, input, n),
        0 <= p <= before.len(),
        forall|j: int| 0 <= j < p ==> hash_before(before[j].0, input[n].0),
        p < before.len() ==> !hash_before(before[p].0, input[n].0) && before[p].0 != input[n].0,
    ensures
        sorted_upto(before.insert(p, input[n]), input, n + 1),
{
    let after = before.insert(p, input[n]);
    let h = input[n].0;
    assert forall|j: int| p <= j < before.len() implies hash_before(h, #[trigger] before[j].0) by {
        lemma_hash_order(before[p].0, h);
        if j > p {
            lemma_hash_transitive(h, before[p].0, before[j].0);
        }
    }
    assert forall|i: int, j: int| 0 <= i < j < after.len() implies hash_before(
        after[i].0,
        after[j].0,
    ) by {
        if j < p {
            assert(hash_before(before[i].0, before[j].0));
        } else if j == p {
            assert(hash_before(before[i].0, h));
        } else if i < p {
            assert(hash_before(before[i].0, before[j - 1].0));
        } else if i == p {
            assert(hash_before(h, before[j - 1].0));
        } else {
            assert(hash_before(before[i - 1].0, before[j - 1].0));
        }
    }
    assert forall|k: int| 0 <= k < n implies input[k].0 != h by {
        assert(holds_hash(before, input[k].0));
        let i = choose|i: int| 0 <= i < before.len() && before[i].0 == input[k].0;
        if i < p {
            lemma_hash_order(before[i].0, h);
        } else {
            lemma_hash_order(h, before[i].0);
        }
    }
    assert forall|i: int| 0 <= i < after.len() implies #[trigger] taken_from(
        after[i],
        input,
        n + 1,
    ) by {
        if i < p {
            assert(taken_from(before[i], input, n));
            let k = choose|k: int|
                0 <= k < n && first_under(input, k, before[i].0) && input[k] == before[i];
            assert(0 <= k < n + 1 && first_under(input, k, after[i].0) && input[k] == after[i]);
        } else if i == p {
            assert(first_under(input, n, after[i].0) && input[n] == after[i]);
        } else {
            assert(taken_from(before[i - 1], input, n));
            let k = choose|k: int|
                0 <= k < n && first_under(input, k, before[i - 1].0) && input[k] == before[i - 1];
            assert(0 <= k < n + 1 && first_under(input, k, after[i].0) && input[k] == after[i]);
        }
    }
    assert forall|k: int| 0 <= k < n + 1 implies #[trigger] holds_hash(after, input[k].0) by {
        if k == n {
            assert(after[p].0 == input[k].0);
        } else {
            assert(holds_hash(before, input[k].0));
            let i = choose|i: int| 0 <= i < before.len() && before[i].0 == input[k].0;
            if i < p {
                assert(after[i].0 == input[k].0);
            } else {
                assert(after[i + 1].0 == input[k].0);
            }
        }
    }
}

/// Puts a log in the order of hashes.  Where a hash occurs more than once,
/// the first entry under it stays.
pub fn sort_log(entries: &Vec<MutationsLogMutation>) -> (sorted: Vec<MutationsLogMutation>)
    ensures
        sorted_log_of(entry_views(sorted@), entry_views(entries@)),
{
    let ghost input = entry_views(entries@);
    let mut sorted: Vec<MutationsLogMutation> = Vec::new();
    let mut n: usize = 0;
    while n < entries.len()
        invariant
            n <= entries.len(),
            input == entry_views(entries@),
            sorted_upto(entry_views(sorted@), input, n as int),
        decreases entries.len() - n,
    {
        let entry = &entries[n];
        let ghost before = entry_views(sorted@);
        assert(input[n as int] == entry@);
        let mut p: usize = 0;
        while p < sorted.len() && hash_precedes(&sorted[p].hash, &entry.hash)
            invariant
                p <= sorted.len(),
                before == entry_views(sorted@),
                forall|j: int| 0 <= j < p ==> hash_before(before[j].0, entry.hash@),
            decreases sorted.len() - p,
        {
            assert(before[p as int] == sorted[p as int]@);
            p += 1;
        }
        let known = p < sorted.len() && sorted[p].hash == entry.hash;
        if known {
            proof {
                assert(before[p as int] == sorted[p as int]@);
                lemma_sort_skip(before, input, n as int, p as int);
            }
        } else {
            proof {
                if p < sorted.len() {
                    assert(before[p as int] == sorted[p as int]@);
                }
                lemma_sort_insert(before, input, n as int, p as int);
            }
            sorted.insert(p, entry.clone());
            assert(entry_views(sorted@) =~= before.insert(p as int, input[n as int]));
        }
        n += 1;
    }
    sorted
}

} // verus!
