use vstd::prelude::*;

use crate::time::{is_older_than, older_than, Span, Timestamp};

verus! {

/// The timestamps of a ledger, position by position.
pub open spec fn stamps<T>(list: Seq<(Timestamp, T)>) -> Seq<Timestamp> {
    list.map_values(|e: (Timestamp, T)| e.0)
}

// ---------------------------------------------------------------------------
// Ascending thresholds
// ---------------------------------------------------------------------------

/// `x` placed into `s` before the first element strictly longer than it.
pub open spec fn insert_asc(x: Span, s: Seq<Span>) -> Seq<Span>
    decreases s.len(),
{
    if s.len() == 0 {
        seq![x]
    } else if x.total() < s[0].total() {
        seq![x] + s
    } else {
        seq![s[0]] + insert_asc(x, s.drop_first())
    }
}

/// The thresholds in ascending order of length (duplicates kept).
pub open spec fn sort_asc(s: Seq<Span>) -> Seq<Span>
    decreases s.len(),
{
    if s.len() == 0 {
        seq![]
    } else {
        insert_asc(s.last(), sort_asc(s.drop_last()))
    }
}

proof fn lemma_insert_asc_at(x: Span, s: Seq<Span>, j: int)
    requires
        0 <= j <= s.len(),
        forall|k: int| 0 <= k < j ==> (#[trigger] s[k]).total() <= x.total(),
        j == s.len() || x.total() < s[j].total(),
    ensures
        insert_asc(x, s) == s.insert(j, x),
    decreases j,
{
    if j == 0 {
        if s.len() == 0 {
            assert(s.insert(0, x) =~= seq![x]);
        } else {
            assert(s.insert(0, x) =~= seq![x] + s);
        }
    } else {
        let t = s.drop_first();
        assert forall|k: int| 0 <= k < j - 1 implies (#[trigger] t[k]).total() <= x.total() by {
            assert(t[k] == s[k + 1]);
        }
        lemma_insert_asc_at(x, t, j - 1);
        assert(s.insert(j, x) =~= seq![s[0]] + t.insert(j - 1, x));
    }
}

/// The thresholds sorted by ascending length.
fn ascending(policy: &[Span]) -> (r: Vec<Span>)
    ensures
        r@ == sort_asc(policy@),
{
    let mut sorted: Vec<Span> = Vec::new();
    let mut i: usize = 0;
    while i < policy.len()
        invariant
            i <= policy@.len(),
            sorted@ == sort_asc(policy@.take(i as int)),
        decreases policy@.len() - i,
    {
        let x = policy[i];
        let limit = x.total_nanos();
        let mut j: usize = 0;
        while j < sorted.len() && sorted[j].total_nanos() <= limit
            invariant
                j <= sorted@.len(),
                limit == x.total(),
                forall|k: int| 0 <= k < j ==> (#[trigger] sorted@[k]).total() <= x.total(),
            decreases sorted@.len() - j,
        {
            j = j + 1;
        }
        proof {
            lemma_insert_asc_at(x, sorted@, j as int);
            assert(policy@.take(i + 1).drop_last() =~= policy@.take(i as int));
        }
        sorted.insert(j, x);
        i = i + 1;
    }
    assert(policy@.take(i as int) =~= policy@);
    sorted
}

// ---------------------------------------------------------------------------
// Newest-first order of the ledger
// ---------------------------------------------------------------------------

/// Entry `i` comes before entry `j` when walking from the newest: it is later,
/// or equally old and earlier in the ledger.
pub open spec fn newer(times: Seq<Timestamp>, i: int, j: int) -> bool {
    times[i].total() > times[j].total() || (times[i].total() == times[j].total() && i < j)
}

/// Index `i` placed into `s` before the first index it is newer than.
pub open spec fn insert_newest(times: Seq<Timestamp>, i: usize, s: Seq<usize>) -> Seq<usize>
    decreases s.len(),
{
    if s.len() == 0 {
        seq![i]
    } else if newer(times, i as int, s[0] as int) {
        seq![i] + s
    } else {
        seq![s[0]] + insert_newest(times, i, s.drop_first())
    }
}

/// The positions `0..n` of the ledger, newest entry first. Equal timestamps
/// keep the earlier position first.
pub open spec fn newest_first(times: Seq<Timestamp>, n: nat) -> Seq<usize>
    decreases n,
{
    if n == 0 {
        seq![]
    } else {
        insert_newest(times, (n - 1) as usize, newest_first(times, (n - 1) as nat))
    }
}

proof fn lemma_insert_newest_at(times: Seq<Timestamp>, i: usize, s: Seq<usize>, j: int)
    requires
        0 <= j <= s.len(),
        forall|k: int| 0 <= k < j ==> !newer(times, i as int, #[trigger] s[k] as int),
        j == s.len() || newer(times, i as int, s[j] as int),
    ensures
        insert_newest(times, i, s) == s.insert(j, i),
    decreases j,
{
    if j == 0 {
        if s.len() == 0 {
            assert(s.insert(0, i) =~= seq![i]);
        } else {
            assert(s.insert(0, i) =~= seq![i] + s);
        }
    } else {
        let t = s.drop_first();
        assert forall|k: int| 0 <= k < j - 1 implies !newer(times, i as int, #[trigger] t[k] as int) by {
            assert(t[k] == s[k + 1]);
        }
        lemma_insert_newest_at(times, i, t, j - 1);
        assert(s.insert(j, i) =~= seq![s[0]] + t.insert(j - 1, i));
    }
}

proof fn lemma_insert_newest_contents(times: Seq<Timestamp>, i: usize, s: Seq<usize>)
    ensures
        insert_newest(times, i, s).len() == s.len() + 1,
        forall|x: usize| #[trigger]
            insert_newest(times, i, s).contains(x) <==> (x == i || s.contains(x)),
        s.no_duplicates() && !s.contains(i) ==> insert_newest(times, i, s).no_duplicates(),
    decreases s.len(),
{
    if s.len() > 0 && !newer(times, i as int, s[0] as int) {
        let t = s.drop_first();
        lemma_insert_newest_contents(times, i, t);
        let r = insert_newest(times, i, s);
        assert(r == seq![s[0]] + insert_newest(times, i, t));
        assert forall|x: usize| #[trigger] r.contains(x) <==> (x == i || s.contains(x)) by {
            if r.contains(x) {
                let k = choose|k: int| 0 <= k < r.len() && r[k] == x;
                if k > 0 {
                    assert(insert_newest(times, i, t)[k - 1] == x);
                    assert(insert_newest(times, i, t).contains(x));
                    if x != i {
                        let m = choose|m: int| 0 <= m < t.len() && t[m] == x;
                        assert(s[m + 1] == x);
                    }
                } else {
                    assert(s[0] == x);
                }
            }
            if s.contains(x) && x != i {
                let k = choose|k: int| 0 <= k < s.len() && s[k] == x;
                if k > 0 {
                    assert(t[k - 1] == x);
                    assert(insert_newest(times, i, t).contains(x));
                    let m = choose|m: int| 0 <= m < insert_newest(times, i, t).len() && insert_newest(times, i, t)[m] == x;
                    assert(r[m + 1] == x);
                } else {
                    assert(r[0] == x);
                }
            }
            if x == i {
                assert(insert_newest(times, i, t).contains(x));
                let m = choose|m: int| 0 <= m < insert_newest(times, i, t).len() && insert_newest(times, i, t)[m] == x;
                assert(r[m + 1] == x);
            }
        }
        if s.no_duplicates() && !s.contains(i) {
            assert(!t.contains(i)) by {
                if t.contains(i) {
                    let k = choose|k: int| 0 <= k < t.len() && t[k] == i;
                    assert(s[k + 1] == i);
                }
            }
            assert(t.no_duplicates()) by {
                assert forall|a: int, b: int| 0 <= a < t.len() && 0 <= b < t.len() && a != b implies t[a] != t[b] by {
                    assert(t[a] == s[a + 1] && t[b] == s[b + 1]);
                }
            }
            assert(!insert_newest(times, i, t).contains(s[0])) by {
                if s[0] == i {
                } else if t.contains(s[0]) {
                    let k = choose|k: int| 0 <= k < t.len() && t[k] == s[0];
                    assert(s[k + 1] == s[0]);
                }
            }
            let u = insert_newest(times, i, t);
            assert forall|a: int, b: int| 0 <= a < r.len() && 0 <= b < r.len() && a != b implies r[a] != r[b] by {
                if a == 0 && b > 0 {
                    assert(r[b] == u[b - 1]);
                } else if b == 0 && a > 0 {
                    assert(r[a] == u[a - 1]);
                } else if a > 0 && b > 0 {
                    assert(r[a] == u[a - 1] && r[b] == u[b - 1]);
                }
            }
        }
    } else {
        let r = insert_newest(times, i, s);
        assert(r =~= seq![i] + s);
        assert forall|x: usize| #[trigger] r.contains(x) <==> (x == i || s.contains(x)) by {
            if r.contains(x) && x != i {
                let k = choose|k: int| 0 <= k < r.len() && r[k] == x;
                assert(s[k - 1] == x);
            }
            if s.contains(x) {
                let k = choose|k: int| 0 <= k < s.len() && s[k] == x;
                assert(r[k + 1] == x);
            }
            if x == i {
                assert(r[0] == x);
            }
        }
        if s.no_duplicates() && !s.contains(i) {
            assert forall|a: int, b: int| 0 <= a < r.len() && 0 <= b < r.len() && a != b implies r[a] != r[b] by {
                if a == 0 && b > 0 {
                    assert(r[b] == s[b - 1]);
                } else if b == 0 && a > 0 {
                    assert(r[a] == s[a - 1]);
                } else if a > 0 && b > 0 {
                    assert(r[a] == s[a - 1] && r[b] == s[b - 1]);
                }
            }
        }
    }
}

/// The newest-first order holds each position below `n` exactly once.
pub proof fn lemma_newest_first_positions(times: Seq<Timestamp>, n: nat)
    requires
        n <= usize::MAX,
    ensures
        newest_first(times, n).len() == n,
        newest_first(times, n).no_duplicates(),
        forall|x: usize| #[trigger] newest_first(times, n).contains(x) <==> x < n,
    decreases n,
{
    if n > 0 {
        let prev = newest_first(times, (n - 1) as nat);
        lemma_newest_first_positions(times, (n - 1) as nat);
        lemma_insert_newest_contents(times, (n - 1) as usize, prev);
        assert(!prev.contains((n - 1) as usize));
    }
}

/// The positions of the ledger, newest entry first.
fn newest_first_order<T>(list: &[(Timestamp, T)]) -> (r: Vec<usize>)
    ensures
        r@ == newest_first(stamps(list@), list@.len()),
{
    let ghost times = stamps(list@);
    let mut order: Vec<usize> = Vec::new();
    let mut i: usize = 0;
    while i < list.len()
        invariant
            i <= list@.len(),
            times == stamps(list@),
            order@ == newest_first(times, i as nat),
        decreases list@.len() - i,
    {
        let stamp = list[i].0.total_nanos();
        proof {
            lemma_newest_first_positions(times, i as nat);
            assert forall|k: int| 0 <= k < order@.len() implies (#[trigger] order@[k]) < i by {
                assert(order@.contains(order@[k]));
            }
        }
        let mut j: usize = 0;
        while j < order.len()
            invariant
                j <= order@.len(),
                i < list@.len(),
                times == stamps(list@),
                stamp == times[i as int].total(),
                forall|k: int| 0 <= k < order@.len() ==> (#[trigger] order@[k]) < i,
                forall|k: int| 0 <= k < j ==> !newer(times, i as int, #[trigger] order@[k] as int),
            ensures
                j <= order@.len(),
                forall|k: int| 0 <= k < j ==> !newer(times, i as int, #[trigger] order@[k] as int),
                j == order@.len() || newer(times, i as int, order@[j as int] as int),
            decreases order@.len() - j,
        {
            let other = order[j];
            let other_stamp = list[other].0.total_nanos();
            if stamp > other_stamp {
                break;
            }
            j = j + 1;
        }
        proof {
            lemma_insert_newest_at(times, i, order@, j as int);
        }
        order.insert(j, i);
        i = i + 1;
    }
    order
}

// ---------------------------------------------------------------------------
// Buckets and survivors
// ---------------------------------------------------------------------------

/// The walk over `order` (newest first): the index of the threshold in force,
/// the open bucket (newest first) and the entries marked so far.
///
/// An entry older than the threshold in force closes the open bucket: its last
/// (oldest) member survives, the others are marked, and the entry starts the
/// next bucket. Once every threshold is used up, the bucket never closes.
pub open spec fn scan(
    now: Timestamp,
    asc: Seq<Span>,
    times: Seq<Timestamp>,
    order: Seq<usize>,
) -> (int, Seq<usize>, Seq<usize>)
    decreases order.len(),
{
    if order.len() == 0 {
        (0, seq![], seq![])
    } else {
        let (k, bucket, marked) = scan(now, asc, times, order.drop_last());
        let i = order.last();
        if 0 <= k < asc.len() && older_than(now, times[i as int], asc[k]) {
            if bucket.len() > 0 {
                (k + 1, seq![i], marked + bucket.drop_last())
            } else {
                (k + 1, bucket, marked)
            }
        } else {
            (k, bucket.push(i), marked)
        }
    }
}

/// The bucket still open when the walk ends: its newest member survives.
pub open spec fn far_bucket(now: Timestamp, asc: Seq<Span>, times: Seq<Timestamp>, order: Seq<usize>) -> Seq<usize> {
    scan(now, asc, times, order).1
}

/// Every entry the buckets mark, before the floor is applied.
pub open spec fn marked(now: Timestamp, asc: Seq<Span>, times: Seq<Timestamp>, order: Seq<usize>) -> Seq<usize> {
    let (_, bucket, marks) = scan(now, asc, times, order);
    if bucket.len() > 0 {
        marks + bucket.drop_first()
    } else {
        marks
    }
}

/// How many of `n` entries may go while `p + 1` of them (or all, if fewer) stay.
pub open spec fn deletion_cap(n: int, p: int) -> int {
    if n - p - 1 > 0 {
        n - p - 1
    } else {
        0
    }
}

/// The marked entries after the floor: the latest marks are withdrawn until
/// enough entries survive.
pub open spec fn apply_floor(marks: Seq<usize>, n: int, p: int) -> Seq<usize> {
    if marks.len() <= deletion_cap(n, p) {
        marks
    } else {
        marks.take(deletion_cap(n, p))
    }
}

/// Positions of the ledger entries that `policy` allows to delete at `now`, in
/// the order they are reported.
pub open spec fn deletions(now: Timestamp, policy: Seq<Span>, times: Seq<Timestamp>) -> Seq<usize> {
    apply_floor(
        marked(now, sort_asc(policy), times, newest_first(times, times.len())),
        times.len() as int,
        policy.len() as int,
    )
}

/// The open bucket and the marks together only grow by entries taken from
/// `order`, each once.
proof fn lemma_scan_contents(now: Timestamp, asc: Seq<Span>, times: Seq<Timestamp>, order: Seq<usize>)
    ensures
        0 <= scan(now, asc, times, order).0 <= asc.len(),
        ({
            let (k, bucket, marks) = scan(now, asc, times, order);
            &&& (marks + bucket).len() <= order.len()
            &&& order.no_duplicates() ==> (marks + bucket).no_duplicates()
            &&& forall|x: usize| #[trigger] (marks + bucket).contains(x) ==> order.contains(x)
        }),
    decreases order.len(),
{
    if order.len() > 0 {
        let prefix = order.drop_last();
        lemma_scan_contents(now, asc, times, prefix);
        let (k, bucket, marks) = scan(now, asc, times, prefix);
        let i = order.last();
        let both = marks + bucket;
        let (_, bucket2, marks2) = scan(now, asc, times, order);
        let both2 = marks2 + bucket2;
        assert forall|x: usize| #[trigger] prefix.contains(x) implies order.contains(x) by {
            let m = choose|m: int| 0 <= m < prefix.len() && prefix[m] == x;
            assert(order[m] == x);
        }
        assert(order.contains(i)) by {
            assert(order[order.len() - 1] == i);
        }
        let kept: Seq<usize> = if 0 <= k < asc.len() && older_than(now, times[i as int], asc[k]) {
            if bucket.len() > 0 {
                both.drop_last()
            } else {
                both
            }
        } else {
            both
        };
        if 0 <= k < asc.len() && older_than(now, times[i as int], asc[k]) && bucket.len() == 0 {
            assert(both2 == both);
        } else {
            assert(both2 =~= kept.push(i));
            assert forall|x: usize| #[trigger] kept.contains(x) implies both.contains(x) by {
                let m = choose|m: int| 0 <= m < kept.len() && kept[m] == x;
                assert(both[m] == x);
            }
            assert forall|x: usize| #[trigger] both2.contains(x) implies order.contains(x) by {
                let m = choose|m: int| 0 <= m < both2.len() && both2[m] == x;
                if m < kept.len() {
                    assert(kept[m] == x);
                    assert(kept.contains(x));
                    assert(both.contains(x));
                    assert(prefix.contains(x));
                } else {
                    assert(x == i);
                }
            }
            if order.no_duplicates() {
                assert(!prefix.contains(i)) by {
                    if prefix.contains(i) {
                        let m = choose|m: int| 0 <= m < prefix.len() && prefix[m] == i;
                        assert(order[m] == order[order.len() - 1]);
                    }
                }
                assert(prefix.no_duplicates()) by {
                    assert forall|a: int, b: int| 0 <= a < prefix.len() && 0 <= b < prefix.len() && a != b implies prefix[a] != prefix[b] by {
                        assert(prefix[a] == order[a] && prefix[b] == order[b]);
                    }
                }
                assert forall|a: int, b: int| 0 <= a < both2.len() && 0 <= b < both2.len() && a != b implies both2[a] != both2[b] by {
                    if a < kept.len() && b < kept.len() {
                        assert(kept[a] == both[a] && kept[b] == both[b]);
                    } else if a < kept.len() {
                        assert(kept[a] == both[a]);
                        assert(both.contains(both[a]));
                    } else if b < kept.len() {
                        assert(kept[b] == both[b]);
                        assert(both.contains(both[b]));
                    }
                }
            }
        }
    }
}

/// The entries of `list` that `policy` allows to delete at `now`.
///
/// Thresholds are taken shortest first. Walking from the newest entry, each
/// threshold closes a bucket at the first entry older than it; a closed
/// bucket keeps its oldest member, and the bucket still open at the end keeps
/// its newest. Of the other entries, the ones marked last are spared until at
/// least `policy.len() + 1` entries (or all of them) survive.
pub fn police<'a, T>(now: &Timestamp, policy: &[Span], list: &'a [(Timestamp, T)]) -> (r: Vec<
    &'a (Timestamp, T),
>)
    ensures
        r@.len() == deletions(*now, policy@, stamps(list@)).len(),
        list@.len() == 0 ==> r@.len() == 0,
        forall|k: int|
            0 <= k < r@.len() ==> {
                let at = #[trigger] deletions(*now, policy@, stamps(list@))[k] as int;
                &&& 0 <= at < list@.len()
                &&& *r@[k] == list@[at]
            },
{
    let ghost times = stamps(list@);
    let asc = ascending(policy);
    let order = newest_first_order(list);
    let n = list.len();
    proof {
        lemma_newest_first_positions(times, n as nat);
    }
    let mut bucket: Vec<usize> = Vec::new();
    let mut marks: Vec<usize> = Vec::new();
    let mut k: usize = 0;
    let mut j: usize = 0;
    while j < order.len()
        invariant
            j <= order@.len(),
            times == stamps(list@),
            asc@ == sort_asc(policy@),
            order@ == newest_first(times, list@.len()),
            n == list@.len(),
            forall|x: usize| #[trigger] order@.contains(x) <==> x < n,
            (k as int, bucket@, marks@) == scan(*now, asc@, times, order@.take(j as int)),
        decreases order@.len() - j,
    {
        proof {
            lemma_scan_contents(*now, asc@, times, order@.take(j as int));
        }
        let i = order[j];
        proof {
            assert(order@.contains(i));
        }
        if k < asc.len() && is_older_than(now, &list[i].0, &asc[k]) {
            if bucket.len() > 0 {
                bucket.pop();
                marks.append(&mut bucket);
                bucket.push(i);
            }
            k = k + 1;
        } else {
            bucket.push(i);
        }
        proof {
            assert(order@.take(j + 1).drop_last() =~= order@.take(j as int));
            assert(order@.take(j + 1).last() == i);
        }
        j = j + 1;
    }
    assert(order@.take(j as int) =~= order@);
    proof {
        lemma_scan_contents(*now, asc@, times, order@);
    }
    let ghost combined = marks@ + bucket@;
    let ghost before = marks@.len();
    if bucket.len() > 0 {
        bucket.remove(0);
        marks.append(&mut bucket);
    }
    let ghost raw = marks@;
    assert forall|x: usize| #[trigger] raw.contains(x) implies x < list@.len() by {
        let m = choose|m: int| 0 <= m < raw.len() && raw[m] == x;
        assert(combined.contains(x)) by {
            if raw.len() == combined.len() {
                assert(combined[m] == x);
            } else if m < before {
                assert(combined[m] == x);
            } else {
                assert(combined[m + 1] == x);
            }
        }
        assert(order@.contains(x));
    }
    while marks.len() > 0 && n - marks.len() <= policy.len()
        invariant
            n == list@.len(),
            marks@.len() <= raw.len(),
            raw.len() <= n,
            marks@ == raw.take(marks@.len() as int),
            marks@.len() == raw.len() || marks@.len() >= deletion_cap(n as int, policy@.len() as int),
        decreases marks@.len(),
    {
        marks.pop();
    }
    assert(marks@ == apply_floor(raw, n as int, policy@.len() as int));
    let mut r: Vec<&'a (Timestamp, T)> = Vec::new();
    let mut m: usize = 0;
    while m < marks.len()
        invariant
            m <= marks@.len(),
            marks@ == apply_floor(raw, n as int, policy@.len() as int),
            marks@.len() <= raw.len(),
            n == list@.len(),
            forall|x: usize| #[trigger] raw.contains(x) ==> x < n,
            r@.len() == m,
            forall|q: int| 0 <= q < m ==> *r@[q] == list@[marks@[q] as int],
        decreases marks@.len() - m,
    {
        let at = marks[m];
        assert(raw.contains(at)) by {
            assert(raw[m as int] == at);
        }
        r.push(&list[at]);
        m = m + 1;
    }
    proof {
        assert(marks@ == deletions(*now, policy@, times));
        assert forall|q: int| 0 <= q < marks@.len() implies (#[trigger] marks@[q]) < n by {
            assert(raw[q] == marks@[q]);
            assert(raw.contains(marks@[q]));
        }
    }
    r
}

// ---------------------------------------------------------------------------
// Properties of the deletion set
// ---------------------------------------------------------------------------

/// What the buckets mark is a set of distinct ledger positions, and it never
/// holds the newest member of the far bucket.
proof fn lemma_marked_contents(now: Timestamp, asc: Seq<Span>, times: Seq<Timestamp>)
    requires
        times.len() <= usize::MAX,
    ensures
        ({
            let order = newest_first(times, times.len());
            let marks = marked(now, asc, times, order);
            let far = far_bucket(now, asc, times, order);
            &&& marks.len() <= times.len()
            &&& marks.no_duplicates()
            &&& forall|k: int| 0 <= k < marks.len() ==> #[trigger] marks[k] < times.len()
            &&& far.len() > 0 ==> !marks.contains(far[0])
        }),
{
    let order = newest_first(times, times.len());
    lemma_newest_first_positions(times, times.len());
    lemma_scan_contents(now, asc, times, order);
    let (_, bucket, marks) = scan(now, asc, times, order);
    let combined = marks + bucket;
    let out = marked(now, asc, times, order);
    let ml = marks.len() as int;
    assert forall|q: int| 0 <= q < combined.len() implies #[trigger] combined[q] < times.len() by {
        assert(combined.contains(combined[q]));
        assert(order.contains(combined[q]));
    }
    if bucket.len() > 0 {
        assert forall|a: int| 0 <= a < out.len() implies #[trigger] out[a] == combined[
            if a < ml {
                a
            } else {
                a + 1
            }
        ] by {}
        assert forall|a: int, b: int| 0 <= a < out.len() && 0 <= b < out.len() && a != b implies out[a]
            != out[b] by {
            let a2 = if a < ml {
                a
            } else {
                a + 1
            };
            let b2 = if b < ml {
                b
            } else {
                b + 1
            };
            assert(out[a] == combined[a2] && out[b] == combined[b2]);
        }
        assert(!out.contains(bucket[0])) by {
            if out.contains(bucket[0]) {
                let a = choose|a: int| 0 <= a < out.len() && out[a] == bucket[0];
                let a2 = if a < ml {
                    a
                } else {
                    a + 1
                };
                assert(out[a] == combined[a2]);
                assert(combined[ml] == bucket[0]);
            }
        }
        assert forall|q: int| 0 <= q < out.len() implies #[trigger] out[q] < times.len() by {
            let q2 = if q < ml {
                q
            } else {
                q + 1
            };
            assert(out[q] == combined[q2]);
        }
    } else {
        assert(out =~= combined);
    }
}

/// Every entry in the deletion set is a distinct entry of the ledger.
pub proof fn lemma_deletions_drawn_from_ledger(now: Timestamp, policy: Seq<Span>, times: Seq<Timestamp>)
    requires
        times.len() <= usize::MAX,
    ensures
        forall|k: int|
            0 <= k < deletions(now, policy, times).len() ==> #[trigger] deletions(
                now,
                policy,
                times,
            )[k] < times.len(),
        deletions(now, policy, times).no_duplicates(),
{
    let asc = sort_asc(policy);
    lemma_marked_contents(now, asc, times);
    let marks = marked(now, asc, times, newest_first(times, times.len()));
    let out = deletions(now, policy, times);
    assert forall|k: int| 0 <= k < out.len() implies #[trigger] out[k] == marks[k] by {}
    assert forall|a: int, b: int| 0 <= a < out.len() && 0 <= b < out.len() && a != b implies out[a]
        != out[b] by {
        assert(out[a] == marks[a] && out[b] == marks[b]);
    }
    assert forall|k: int| 0 <= k < out.len() implies #[trigger] out[k] < times.len() by {
        assert(out[k] == marks[k]);
    }
}

/// At least `policy.len() + 1` entries survive, or every entry when the ledger
/// is smaller than that.
pub proof fn lemma_floor_keeps_enough(now: Timestamp, policy: Seq<Span>, times: Seq<Timestamp>)
    ensures
        times.len() - deletions(now, policy, times).len() >= if times.len() < policy.len() + 1 {
            times.len() as int
        } else {
            (policy.len() + 1) as int
        },
{
}

/// An empty ledger has nothing to delete.
pub proof fn lemma_empty_ledger(now: Timestamp, policy: Seq<Span>, times: Seq<Timestamp>)
    requires
        times.len() == 0,
    ensures
        deletions(now, policy, times) == Seq::<usize>::empty(),
{
    assert(deletions(now, policy, times).len() == 0);
}

/// The newest member of the far bucket is never deleted.
pub proof fn lemma_far_bucket_newest_kept(now: Timestamp, policy: Seq<Span>, times: Seq<Timestamp>)
    requires
        times.len() <= usize::MAX,
    ensures
        ({
            let far = far_bucket(now, sort_asc(policy), times, newest_first(times, times.len()));
            far.len() > 0 ==> !deletions(now, policy, times).contains(far[0])
        }),
{
    let asc = sort_asc(policy);
    lemma_marked_contents(now, asc, times);
    let marks = marked(now, asc, times, newest_first(times, times.len()));
    let far = far_bucket(now, asc, times, newest_first(times, times.len()));
    let out = deletions(now, policy, times);
    if far.len() > 0 && out.contains(far[0]) {
        let k = choose|k: int| 0 <= k < out.len() && out[k] == far[0];
        assert(out[k] == marks[k]);
    }
}

/// The deletion set depends only on the time, the policy and the timestamps:
/// the payloads play no part, and the same inputs always give the same set.
pub proof fn lemma_deletions_deterministic<T, U>(
    now: Timestamp,
    policy: Seq<Span>,
    a: Seq<(Timestamp, T)>,
    b: Seq<(Timestamp, U)>,
)
    requires
        stamps(a) == stamps(b),
    ensures
        deletions(now, policy, stamps(a)) == deletions(now, policy, stamps(b)),
{
}

// ---------------------------------------------------------------------------
// What the two orders are
// ---------------------------------------------------------------------------

/// The lengths of the thresholds, in nanoseconds.
pub open spec fn totals(s: Seq<Span>) -> Seq<int> {
    s.map_values(|x: Span| x.total())
}

/// No threshold is longer than one after it.
pub open spec fn ascending_by_total(s: Seq<Span>) -> bool {
    forall|a: int, b: int| 0 <= a < b < s.len() ==> s[a].total() <= s[b].total()
}

/// Where `insert_asc` puts `x`.
spec fn insert_asc_pos(x: Span, s: Seq<Span>) -> int
    decreases s.len(),
{
    if s.len() == 0 || x.total() < s[0].total() {
        0
    } else {
        1 + insert_asc_pos(x, s.drop_first())
    }
}

proof fn lemma_insert_asc_shape(x: Span, s: Seq<Span>)
    ensures
        0 <= insert_asc_pos(x, s) <= s.len(),
        insert_asc(x, s) == s.insert(insert_asc_pos(x, s), x),
        ascending_by_total(s) ==> ascending_by_total(insert_asc(x, s)),
    decreases s.len(),
{
    if s.len() == 0 {
        assert(s.insert(0, x) =~= seq![x]);
    } else if x.total() < s[0].total() {
        assert(s.insert(0, x) =~= seq![x] + s);
    } else {
        let t = s.drop_first();
        lemma_insert_asc_shape(x, t);
        let j = insert_asc_pos(x, t);
        assert(s.insert(j + 1, x) =~= seq![s[0]] + t.insert(j, x));
        if ascending_by_total(s) {
            let r = insert_asc(x, s);
            assert forall|a: int, b: int| 0 <= a < b < r.len() implies r[a].total() <= r[b].total() by {
                if a == 0 {
                    if b - 1 < j {
                        assert(r[b] == s[b]);
                    } else if b - 1 > j {
                        assert(r[b] == s[b - 1]);
                    }
                } else {
                    assert(r[a] == insert_asc(x, t)[a - 1] && r[b] == insert_asc(x, t)[b - 1]);
                }
            }
        }
    }
}

/// The threshold order used by the walk is ascending and holds exactly the
/// given thresholds.
pub proof fn lemma_sort_asc(s: Seq<Span>)
    ensures
        ascending_by_total(sort_asc(s)),
        sort_asc(s).to_multiset() == s.to_multiset(),
        totals(sort_asc(s)).to_multiset() == totals(s).to_multiset(),
    decreases s.len(),
{
    broadcast use vstd::seq_lib::group_to_multiset_ensures;

    if s.len() > 0 {
        let prev = sort_asc(s.drop_last());
        let x = s.last();
        lemma_sort_asc(s.drop_last());
        lemma_insert_asc_shape(x, prev);
        let j = insert_asc_pos(x, prev);
        assert(s =~= s.drop_last().push(x));
        assert(totals(s) =~= totals(s.drop_last()).push(x.total()));
        assert(totals(prev.insert(j, x)) =~= totals(prev).insert(j, x.total()));
    }
}

spec fn ascending_ints(s: Seq<int>) -> bool {
    forall|a: int, b: int| 0 <= a < b < s.len() ==> s[a] <= s[b]
}

proof fn lemma_ascending_unique(a: Seq<int>, b: Seq<int>)
    requires
        ascending_ints(a),
        ascending_ints(b),
        a.to_multiset() == b.to_multiset(),
    ensures
        a == b,
    decreases a.len(),
{
    broadcast use vstd::seq_lib::group_to_multiset_ensures;

    assert(a.len() == a.to_multiset().len() && b.len() == b.to_multiset().len());
    if a.len() > 0 {
        assert(a.to_multiset().count(a[0]) > 0) by {
            assert(a.contains(a[0]));
        }
        assert(b.contains(a[0]));
        let kb = choose|k: int| 0 <= k < b.len() && b[k] == a[0];
        assert(b[0] <= b[kb]);
        assert(b.to_multiset().count(b[0]) > 0) by {
            assert(b.contains(b[0]));
        }
        assert(a.contains(b[0]));
        let ka = choose|k: int| 0 <= k < a.len() && a[k] == b[0];
        assert(a[0] <= a[ka]);
        assert(a[0] == b[0]);
        assert(a.remove(0).to_multiset() == b.remove(0).to_multiset());
        lemma_ascending_unique(a.remove(0), b.remove(0));
        assert forall|k: int| 0 <= k < a.len() implies a[k] == b[k] by {
            if k > 0 {
                assert(a[k] == a.remove(0)[k - 1] && b[k] == b.remove(0)[k - 1]);
            }
        }
        assert(a =~= b);
    }
}

proof fn lemma_scan_same_lengths(
    now: Timestamp,
    a: Seq<Span>,
    b: Seq<Span>,
    times: Seq<Timestamp>,
    order: Seq<usize>,
)
    requires
        totals(a) == totals(b),
    ensures
        scan(now, a, times, order) == scan(now, b, times, order),
    decreases order.len(),
{
    assert(a.len() == totals(a).len() && b.len() == totals(b).len());
    if order.len() > 0 {
        lemma_scan_same_lengths(now, a, b, times, order.drop_last());
        let k = scan(now, a, times, order.drop_last()).0;
        if 0 <= k < a.len() {
            assert(a[k].total() == totals(a)[k] && b[k].total() == totals(b)[k]);
        }
    }
}

/// The order in which the thresholds are given does not matter: any
/// rearrangement of the same lengths deletes the same entries.
pub proof fn lemma_policy_order_irrelevant(
    now: Timestamp,
    p: Seq<Span>,
    q: Seq<Span>,
    times: Seq<Timestamp>,
)
    requires
        totals(p).to_multiset() == totals(q).to_multiset(),
    ensures
        deletions(now, p, times) == deletions(now, q, times),
{
    broadcast use vstd::seq_lib::group_to_multiset_ensures;

    lemma_sort_asc(p);
    lemma_sort_asc(q);
    let sp = sort_asc(p);
    let sq = sort_asc(q);
    assert(ascending_ints(totals(sp))) by {
        assert forall|a: int, b: int| 0 <= a < b < totals(sp).len() implies totals(sp)[a] <= totals(sp)[b] by {
            assert(sp[a].total() <= sp[b].total());
        }
    }
    assert(ascending_ints(totals(sq))) by {
        assert forall|a: int, b: int| 0 <= a < b < totals(sq).len() implies totals(sq)[a] <= totals(sq)[b] by {
            assert(sq[a].total() <= sq[b].total());
        }
    }
    lemma_ascending_unique(totals(sp), totals(sq));
    assert(p.len() == totals(p).to_multiset().len() && q.len() == totals(q).to_multiset().len());
    lemma_scan_same_lengths(now, sp, sq, times, newest_first(times, times.len()));
}

proof fn lemma_insert_newest_ordered(times: Seq<Timestamp>, i: usize, s: Seq<usize>)
    requires
        forall|a: int, b: int| 0 <= a < b < s.len() ==> newer(times, s[a] as int, s[b] as int),
        !s.contains(i),
    ensures
        ({
            let r = insert_newest(times, i, s);
            forall|a: int, b: int| 0 <= a < b < r.len() ==> newer(times, r[a] as int, r[b] as int)
        }),
    decreases s.len(),
{
    let r = insert_newest(times, i, s);
    if s.len() == 0 {
    } else if newer(times, i as int, s[0] as int) {
        assert(r =~= seq![i] + s);
        assert forall|a: int, b: int| 0 <= a < b < r.len() implies newer(times, r[a] as int, r[b] as int) by {
            if a == 0 {
                if b > 1 {
                    assert(newer(times, s[0] as int, s[b - 1] as int));
                }
            } else {
                assert(r[a] == s[a - 1] && r[b] == s[b - 1]);
            }
        }
    } else {
        let t = s.drop_first();
        assert(!t.contains(i)) by {
            if t.contains(i) {
                let k = choose|k: int| 0 <= k < t.len() && t[k] == i;
                assert(s[k + 1] == i);
            }
        }
        assert(s[0] != i) by {
            assert(s.contains(s[0]) || s[0] != i);
            if s[0] == i {
                assert(s.contains(i));
            }
        }
        lemma_insert_newest_ordered(times, i, t);
        lemma_insert_newest_contents(times, i, t);
        let u = insert_newest(times, i, t);
        assert forall|a: int, b: int| 0 <= a < b < r.len() implies newer(times, r[a] as int, r[b] as int) by {
            if a == 0 {
                assert(r[b] == u[b - 1]);
                assert(u.contains(u[b - 1]));
                if u[b - 1] != i {
                    let k = choose|k: int| 0 <= k < t.len() && t[k] == u[b - 1];
                    assert(t[k] == s[k + 1]);
                }
            } else {
                assert(r[a] == u[a - 1] && r[b] == u[b - 1]);
            }
        }
    }
}

/// The walk meets every entry newer than the ones after it.
pub proof fn lemma_newest_first_ordered(times: Seq<Timestamp>, n: nat)
    requires
        n <= usize::MAX,
    ensures
        forall|a: int, b: int|
            0 <= a < b < newest_first(times, n).len() ==> newer(
                times,
                newest_first(times, n)[a] as int,
                newest_first(times, n)[b] as int,
            ),
    decreases n,
{
    if n > 0 {
        let prev = newest_first(times, (n - 1) as nat);
        lemma_newest_first_ordered(times, (n - 1) as nat);
        lemma_newest_first_positions(times, (n - 1) as nat);
        assert(!prev.contains((n - 1) as usize));
        lemma_insert_newest_ordered(times, (n - 1) as usize, prev);
    }
}

} // verus!
