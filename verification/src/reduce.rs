//! The reduction of an index to its maximal groups of duplicates.
//!
//! The buckets are taken by falling number of descendants, so that a
//! directory comes before the directories beneath it. A bucket whose every
//! occurrence lies beneath directories that were taken before is explained by
//! them and is not reported again.

use crate::fingerprint::FileHash;
use crate::index::{no_bucket_empty, Bucket, BucketView, FingerprintIndex};
use crate::record::{record_views, DirectoryData, RecordView};
use vstd::prelude::*;

verus! {

/// The number of descendants of a bucket's first member, by which the
/// buckets are ordered.
pub open spec fn rank(bucket: BucketView) -> u64 {
    bucket.members[0].descendant_number
}

/// A sequence ordered by falling rank, with one more bucket: it stands
/// behind the buckets of greater rank and before all others.
pub open spec fn insert_by_rank(sorted: Seq<BucketView>, bucket: BucketView) -> Seq<BucketView>
    decreases sorted.len(),
{
    if sorted.len() == 0 || rank(sorted[0]) <= rank(bucket) {
        seq![bucket] + sorted
    } else {
        seq![sorted[0]] + insert_by_rank(sorted.drop_first(), bucket)
    }
}

/// The buckets by falling rank; buckets of one rank keep their order.
pub open spec fn sort_by_rank(buckets: Seq<BucketView>) -> Seq<BucketView>
    decreases buckets.len(),
{
    if buckets.len() == 0 {
        Seq::empty()
    } else {
        insert_by_rank(sort_by_rank(buckets.drop_first()), buckets[0])
    }
}

/// How many occurrences of a fingerprint are explained so far.
pub open spec fn tally(expected: Map<Seq<u8>, nat>, key: Seq<u8>) -> nat {
    if expected.dom().contains(key) {
        expected[key]
    } else {
        0
    }
}

/// The account with `times` more occurrences of a fingerprint explained.
pub open spec fn bumped(expected: Map<Seq<u8>, nat>, key: Seq<u8>, times: nat) -> Map<Seq<u8>, nat> {
    expected.insert(key, tally(expected, key) + times)
}

/// The account once a bucket of `times` members with these entries was
/// taken: each entry's fingerprint is explained `times` times more, once
/// for each place where it stands among the entries.
pub open spec fn prime(expected: Map<Seq<u8>, nat>, children: Seq<Seq<u8>>, times: nat) -> Map<
    Seq<u8>,
    nat,
>
    decreases children.len(),
{
    if children.len() == 0 {
        expected
    } else {
        let before = prime(expected, children.drop_last(), times);
        bumped(before, children.last(), times)
    }
}

/// Every member of the bucket is explained by the buckets taken before.
pub open spec fn explained(expected: Map<Seq<u8>, nat>, bucket: BucketView) -> bool {
    expected.dom().contains(bucket.key) && expected[bucket.key] == bucket.members.len()
}

/// The bucket is reported: it has more than one member, the buckets before
/// it do not explain it, its directories are not empty, and they are no
/// smaller than `min_size`.
pub open spec fn accepted(expected: Map<Seq<u8>, nat>, bucket: BucketView, min_size: u64) -> bool {
    &&& bucket.members.len() != 1
    &&& !explained(expected, bucket)
    &&& bucket.members[0].descendant_number != 0
    &&& bucket.members[0].disk_size >= min_size
}

/// The account after a bucket: a bucket of one member leaves it as it was,
/// any other adds its first member's entries.
pub open spec fn account_after(expected: Map<Seq<u8>, nat>, bucket: BucketView) -> Map<
    Seq<u8>,
    nat,
> {
    if bucket.members.len() == 1 {
        expected
    } else {
        prime(expected, bucket.members[0].children, bucket.members.len())
    }
}

/// The groups reported of buckets that are taken in their order, starting
/// from an account.
pub open spec fn reduce(buckets: Seq<BucketView>, expected: Map<Seq<u8>, nat>, min_size: u64) -> Seq<
    Seq<RecordView>,
>
    decreases buckets.len(),
{
    if buckets.len() == 0 {
        Seq::empty()
    } else {
        let rest = reduce(buckets.drop_first(), account_after(expected, buckets[0]), min_size);
        if accepted(expected, buckets[0], min_size) {
            seq![buckets[0].members] + rest
        } else {
            rest
        }
    }
}

/// The groups reported of an index: its buckets by falling rank, reduced
/// from the empty account.
pub open spec fn duplicates(buckets: Seq<BucketView>, min_size: u64) -> Seq<Seq<RecordView>> {
    reduce(sort_by_rank(buckets), Map::empty(), min_size)
}

/// Buckets as plain values.
pub open spec fn bucket_views(buckets: Seq<Bucket>) -> Seq<BucketView> {
    buckets.map_values(|b: Bucket| b@)
}

/// Groups as plain values.
pub open spec fn group_views(groups: Seq<Vec<DirectoryData>>) -> Seq<Seq<RecordView>> {
    groups.map_values(|g: Vec<DirectoryData>| record_views(g@))
}

/// Where every bucket before place `at` has a greater rank than `bucket`, and
/// the one at `at`, if there is one, has not, `bucket` is inserted at `at`.
proof fn lemma_insert_place(sorted: Seq<BucketView>, bucket: BucketView, at: int)
    requires
        0 <= at <= sorted.len(),
        forall|j: int| 0 <= j < at ==> rank(#[trigger] sorted[j]) > rank(bucket),
        at < sorted.len() ==> rank(sorted[at]) <= rank(bucket),
    ensures
        insert_by_rank(sorted, bucket) == sorted.insert(at, bucket),
    decreases at,
{
    if at == 0 {
        assert(seq![bucket] + sorted =~= sorted.insert(0, bucket));
    } else {
        let tail = sorted.drop_first();
        assert(rank(sorted[0]) > rank(bucket));
        assert forall|j: int| 0 <= j < at - 1 implies rank(#[trigger] tail[j]) > rank(bucket) by {
            assert(tail[j] == sorted[j + 1]);
        }
        lemma_insert_place(tail, bucket, at - 1);
        assert(seq![sorted[0]] + tail.insert(at - 1, bucket) =~= sorted.insert(at, bucket));
    }
}

/// Orders the buckets by falling rank.
fn sort_buckets(buckets: Vec<Bucket>) -> (sorted: Vec<Bucket>)
    requires
        no_bucket_empty(bucket_views(buckets@)),
    ensures
        bucket_views(sorted@) == sort_by_rank(bucket_views(buckets@)),
        no_bucket_empty(bucket_views(sorted@)),
{
    let ghost all = bucket_views(buckets@);
    let mut rest = buckets;
    let mut sorted: Vec<Bucket> = Vec::new();
    assert(all.subrange(all.len() as int, all.len() as int) =~= Seq::<BucketView>::empty());
    assert(bucket_views(sorted@) =~= Seq::<BucketView>::empty());
    assert(bucket_views(rest@).subrange(0, rest.len() as int) =~= all);
    while rest.len() > 0
        invariant
            rest.len() <= all.len(),
            no_bucket_empty(all),
            bucket_views(rest@) == all.subrange(0, rest.len() as int),
            bucket_views(sorted@) == sort_by_rank(all.subrange(rest.len() as int, all.len() as int)),
            no_bucket_empty(bucket_views(sorted@)),
        decreases rest.len(),
    {
        let ghost n = rest.len() as int;
        let ghost was = bucket_views(sorted@);
        assert(bucket_views(rest@)[n - 1] == all[n - 1]);
        let bucket = rest.pop().unwrap();
        assert(bucket@ == all[n - 1]);
        assert(bucket@.members.len() > 0);
        let mut at: usize = 0;
        assert forall|j: int| 0 <= j < sorted@.len() implies (#[trigger] sorted@[j]).members@.len()
            > 0 by {
            assert(was[j] == sorted@[j]@);
        }
        while at < sorted.len() && sorted[at].members[0].descendant_number
            > bucket.members[0].descendant_number
            invariant
                at <= sorted.len(),
                was == bucket_views(sorted@),
                bucket@.members.len() > 0,
                no_bucket_empty(was),
                forall|j: int| 0 <= j < sorted@.len() ==> (#[trigger] sorted@[j]).members@.len() > 0,
                forall|j: int| 0 <= j < at ==> rank(#[trigger] was[j]) > rank(bucket@),
            decreases sorted.len() - at,
        {
            assert(was[at as int] == sorted@[at as int]@);
            at += 1;
        }
        proof {
            if at < sorted.len() {
                assert(was[at as int] == sorted@[at as int]@);
            }
            lemma_insert_place(was, bucket@, at as int);
            assert(all.subrange(n - 1, all.len() as int).drop_first() =~= all.subrange(
                n,
                all.len() as int,
            ));
        }
        sorted.insert(at, bucket);
        assert(bucket_views(sorted@) =~= was.insert(at as int, bucket@));
        assert(bucket_views(rest@) =~= all.subrange(0, n - 1));
        assert forall|j: int| 0 <= j < bucket_views(sorted@).len() implies (#[trigger] bucket_views(
            sorted@,
        )[j]).members.len() > 0 by {
            if j < at {
                assert(bucket_views(sorted@)[j] == was[j]);
            } else if j > at {
                assert(bucket_views(sorted@)[j] == was[j - 1]);
            }
        }
    }
    assert(all.subrange(0, all.len() as int) =~= all);
    sorted
}

/// One line of the account: a fingerprint, and how often it is explained, or
/// `None` where that number is beyond the machine's integers.
struct Tally {
    hash: FileHash,
    count: Option<usize>,
}

/// The line's count stands for the number.
spec fn count_is(count: Option<usize>, number: nat) -> bool {
    match count {
        Some(c) => c == number,
        None => number > usize::MAX,
    }
}

/// The lines hold the account: one line for each fingerprint of it.
spec fn holds_account(lines: Seq<Tally>, expected: Map<Seq<u8>, nat>) -> bool {
    &&& forall|i: int, j: int|
        0 <= i < lines.len() && 0 <= j < lines.len() && i != j ==> (#[trigger] lines[i]).hash@ != (
        #[trigger] lines[j]).hash@
    &&& forall|i: int|
        0 <= i < lines.len() ==> expected.dom().contains((#[trigger] lines[i]).hash@) && count_is(
            lines[i].count,
            expected[lines[i].hash@],
        )
    &&& forall|key: Seq<u8>| #[trigger]
        expected.dom().contains(key) ==> exists|i: int|
            0 <= i < lines.len() && (#[trigger] lines[i]).hash@ == key
}

/// The place of a fingerprint's line, or the number of lines where it has
/// none.
fn find_line(lines: &Vec<Tally>, key: &FileHash, Ghost(expected): Ghost<Map<Seq<u8>, nat>>) -> (at:
    usize)
    requires
        holds_account(lines@, expected),
    ensures
        at <= lines.len(),
        at < lines.len() ==> lines@[at as int].hash@ == key@,
        at < lines.len() <==> expected.dom().contains(key@),
{
    let mut at: usize = 0;
    while at < lines.len()
        invariant
            at <= lines.len(),
            holds_account(lines@, expected),
            forall|j: int| 0 <= j < at ==> (#[trigger] lines@[j]).hash@ != key@,
        decreases lines.len() - at,
    {
        if lines[at].hash.same_as(key) {
            return at;
        }
        at += 1;
    }
    at
}

/// Adds `times` to what the account holds for a fingerprint.
fn bump(lines: &mut Vec<Tally>, key: &FileHash, times: usize, Ghost(expected): Ghost<
    Map<Seq<u8>, nat>,
>)
    requires
        holds_account(old(lines)@, expected),
    ensures
        holds_account(final(lines)@, bumped(expected, key@, times as nat)),
{
    let ghost after = bumped(expected, key@, times as nat);
    let ghost before = lines@;
    let at = find_line(lines, key, Ghost(expected));
    if at < lines.len() {
        let count = match lines[at].count {
            Some(c) => c.checked_add(times),
            None => None,
        };
        lines.set(at, Tally { hash: key.copy(), count });
        assert forall|i: int| 0 <= i < lines@.len() implies (#[trigger] lines@[i]).hash@
            == before[i].hash@ by {}
        assert forall|i: int| 0 <= i < lines@.len() implies after.dom().contains(
            (#[trigger] lines@[i]).hash@,
        ) && count_is(lines@[i].count, after[lines@[i].hash@]) by {
            if i != at {
                assert(lines@[i] == before[i]);
                assert(before[i].hash@ != before[at as int].hash@);
            }
        }
        assert forall|k: Seq<u8>| #[trigger] after.dom().contains(k) implies exists|i: int|
            0 <= i < lines@.len() && (#[trigger] lines@[i]).hash@ == k by {
            if k == key@ {
                assert(lines@[at as int].hash@ == k);
            } else {
                assert(expected.dom().contains(k));
                let i = choose|i: int| 0 <= i < before.len() && (#[trigger] before[i]).hash@ == k;
                assert(lines@[i].hash@ == k);
            }
        }
    } else {
        lines.push(Tally { hash: key.copy(), count: Some(times) });
        assert forall|i: int, j: int|
            0 <= i < lines@.len() && 0 <= j < lines@.len() && i != j implies (
        #[trigger] lines@[i]).hash@ != (#[trigger] lines@[j]).hash@ by {
            if i < before.len() {
                assert(lines@[i] == before[i]);
                assert(expected.dom().contains(before[i].hash@));
            }
            if j < before.len() {
                assert(lines@[j] == before[j]);
                assert(expected.dom().contains(before[j].hash@));
            }
        }
        assert forall|i: int| 0 <= i < lines@.len() implies after.dom().contains(
            (#[trigger] lines@[i]).hash@,
        ) && count_is(lines@[i].count, after[lines@[i].hash@]) by {
            if i < before.len() {
                assert(lines@[i] == before[i]);
                assert(expected.dom().contains(before[i].hash@));
            }
        }
        assert forall|k: Seq<u8>| #[trigger] after.dom().contains(k) implies exists|i: int|
            0 <= i < lines@.len() && (#[trigger] lines@[i]).hash@ == k by {
            if k == key@ {
                assert(lines@[before.len() as int].hash@ == k);
            } else {
                assert(expected.dom().contains(k));
                let i = choose|i: int| 0 <= i < before.len() && (#[trigger] before[i]).hash@ == k;
                assert(lines@[i] == before[i]);
            }
        }
    }
}

/// Whether the account explains every one of `len` members under a
/// fingerprint.
fn is_explained(lines: &Vec<Tally>, key: &FileHash, len: usize, Ghost(expected): Ghost<
    Map<Seq<u8>, nat>,
>) -> (yes: bool)
    requires
        holds_account(lines@, expected),
    ensures
        yes == (expected.dom().contains(key@) && expected[key@] == len),
{
    let at = find_line(lines, key, Ghost(expected));
    if at < lines.len() {
        match lines[at].count {
            Some(c) => c == len,
            None => false,
        }
    } else {
        false
    }
}

/// Adds the entries of a bucket's first member to the account, each as often
/// as the bucket has members.
fn prime_account(
    lines: &mut Vec<Tally>,
    first: &DirectoryData,
    times: usize,
    Ghost(expected): Ghost<Map<Seq<u8>, nat>>,
)
    requires
        holds_account(old(lines)@, expected),
    ensures
        holds_account(final(lines)@, prime(expected, first.children_view(), times as nat)),
{
    let ghost children = first.children_view();
    let ghost mut account = expected;
    let mut k: usize = 0;
    assert(children.subrange(0, 0) =~= Seq::<Seq<u8>>::empty());
    while k < first.children_hashes.len()
        invariant
            k <= first.children_hashes.len(),
            children == first.children_view(),
            holds_account(lines@, account),
            account == prime(expected, children.subrange(0, k as int), times as nat),
        decreases first.children_hashes.len() - k,
    {
        proof {
            assert(children.subrange(0, k + 1).drop_last() =~= children.subrange(0, k as int));
            assert(children[k as int] == first.children_hashes@[k as int]@);
        }
        bump(lines, &first.children_hashes[k], times, Ghost(account));
        proof {
            account = bumped(account, children[k as int], times as nat);
        }
        k += 1;
    }
    assert(children.subrange(0, k as int) =~= children);
}

/// Reduces the index of one root to the groups worth reporting, in the order
/// of falling number of descendants. A group is a whole bucket of two or more
/// directories that are not empty and no smaller than `min_size`, unless
/// every one of its members is explained by buckets taken before it.
pub fn list_duplicates(map: FingerprintIndex, min_size: u64) -> (result: Vec<Vec<DirectoryData>>)
    requires
        no_bucket_empty(map@),
    ensures
        group_views(result@) == duplicates(map@, min_size),
{
    let ghost start = sort_by_rank(map@);
    let mut sorted = sort_buckets(map.buckets);
    let mut result: Vec<Vec<DirectoryData>> = Vec::new();
    let mut lines: Vec<Tally> = Vec::new();
    let ghost mut expected: Map<Seq<u8>, nat> = Map::empty();
    assert(group_views(result@) + reduce(bucket_views(sorted@), expected, min_size) =~= reduce(
        start,
        Map::empty(),
        min_size,
    ));
    while sorted.len() > 0
        invariant
            holds_account(lines@, expected),
            no_bucket_empty(bucket_views(sorted@)),
            group_views(result@) + reduce(bucket_views(sorted@), expected, min_size) == reduce(
                start,
                Map::empty(),
                min_size,
            ),
        decreases sorted.len(),
    {
        let ghost todo = bucket_views(sorted@);
        let ghost done = group_views(result@);
        let ghost was = expected;
        let bucket = sorted.remove(0);
        assert(bucket@ == todo[0]);
        assert(bucket_views(sorted@) =~= todo.drop_first());
        assert forall|j: int| 0 <= j < bucket_views(sorted@).len() implies (#[trigger] bucket_views(
            sorted@,
        )[j]).members.len() > 0 by {
            assert(bucket_views(sorted@)[j] == todo[j + 1]);
        }
        let Bucket { key, members } = bucket;
        if members.len() != 1 {
            let unexplained = !is_explained(&lines, &key, members.len(), Ghost(expected));
            prime_account(&mut lines, &members[0], members.len(), Ghost(expected));
            let worth = members[0].descendant_number != 0 && members[0].disk_size >= min_size;
            proof {
                assert((unexplained && worth) == accepted(expected, todo[0], min_size));
                expected = prime(expected, members@[0]@.children, members@.len());
            }
            if unexplained && worth {
                result.push(members);
                assert(group_views(result@) =~= done + seq![todo[0].members]);
            }
        }
        assert(expected == account_after(was, todo[0]));
        assert(group_views(result@) + reduce(bucket_views(sorted@), expected, min_size) =~= done
            + reduce(todo, was, min_size));
    }
    assert(reduce(bucket_views(sorted@), expected, min_size) =~= Seq::<Seq<RecordView>>::empty());
    assert(group_views(result@) =~= group_views(result@) + Seq::<Seq<RecordView>>::empty());
    result
}

/// The account at the turn of the bucket at place `turn`: what the buckets
/// before it have left.
pub open spec fn account_at(buckets: Seq<BucketView>, expected: Map<Seq<u8>, nat>, turn: nat) -> Map<
    Seq<u8>,
    nat,
>
    decreases turn,
{
    if turn == 0 || turn > buckets.len() {
        expected
    } else {
        account_after(account_at(buckets, expected, (turn - 1) as nat), buckets[turn - 1])
    }
}

/// The account at a later turn is the account at the turn before it among
/// the buckets without the first, started from what the first has left.
proof fn lemma_account_shift(buckets: Seq<BucketView>, expected: Map<Seq<u8>, nat>, turn: nat)
    requires
        1 <= turn <= buckets.len(),
    ensures
        account_at(buckets, expected, turn) == account_at(
            buckets.drop_first(),
            account_after(expected, buckets[0]),
            (turn - 1) as nat,
        ),
    decreases turn,
{
    let tail = buckets.drop_first();
    let next = account_after(expected, buckets[0]);
    if turn > 1 {
        lemma_account_shift(buckets, expected, (turn - 1) as nat);
        assert(tail[turn - 2] == buckets[turn - 1]);
        assert(account_at(tail, next, (turn - 1) as nat) == account_after(
            account_at(tail, next, (turn - 2) as nat),
            tail[turn - 2],
        ));
    } else {
        assert(account_at(buckets, expected, 0) == expected);
        assert(account_at(tail, next, 0) == next);
    }
}

/// Every reported group is a bucket that was accepted at its turn. So it has
/// two members or more, and its first member is not empty and no smaller
/// than `min_size`: a group below the threshold and a group of empty
/// directories are never reported.
pub proof fn lemma_reported_groups_qualify(
    buckets: Seq<BucketView>,
    expected: Map<Seq<u8>, nat>,
    min_size: u64,
)
    requires
        no_bucket_empty(buckets),
    ensures
        forall|i: int|
            0 <= i < reduce(buckets, expected, min_size).len() ==> {
                let group = #[trigger] reduce(buckets, expected, min_size)[i];
                &&& group.len() >= 2
                &&& group[0].descendant_number > 0
                &&& group[0].disk_size >= min_size
                &&& exists|k: int|
                    0 <= k < buckets.len() && (#[trigger] buckets[k]).members == group && accepted(
                        account_at(buckets, expected, k as nat),
                        buckets[k],
                        min_size,
                    )
            },
    decreases buckets.len(),
{
    if buckets.len() > 0 {
        let tail = buckets.drop_first();
        let next = account_after(expected, buckets[0]);
        assert forall|j: int| 0 <= j < tail.len() implies (#[trigger] tail[j]).members.len() > 0 by {
            assert(tail[j] == buckets[j + 1]);
        }
        lemma_reported_groups_qualify(tail, next, min_size);
        let rest = reduce(tail, next, min_size);
        let all = reduce(buckets, expected, min_size);
        assert forall|i: int| 0 <= i < all.len() implies {
            let group = #[trigger] all[i];
            &&& group.len() >= 2
            &&& group[0].descendant_number > 0
            &&& group[0].disk_size >= min_size
            &&& exists|k: int|
                0 <= k < buckets.len() && (#[trigger] buckets[k]).members == group && accepted(
                    account_at(buckets, expected, k as nat),
                    buckets[k],
                    min_size,
                )
        } by {
            let shift: int = if accepted(expected, buckets[0], min_size) { 1 } else { 0 };
            if shift == 1 && i == 0 {
                assert(all[i] == buckets[0].members);
                assert(accepted(account_at(buckets, expected, 0), buckets[0], min_size));
            } else {
                assert(all[i] == rest[i - shift]);
                let k = choose|k: int|
                    0 <= k < tail.len() && (#[trigger] tail[k]).members == rest[i - shift]
                        && accepted(account_at(tail, next, k as nat), tail[k], min_size);
                assert(buckets[k + 1] == tail[k]);
                lemma_account_shift(buckets, expected, (k + 1) as nat);
            }
        }
    }
}

/// Every bucket that is accepted at its turn is reported.
pub proof fn lemma_accepted_is_reported(
    buckets: Seq<BucketView>,
    expected: Map<Seq<u8>, nat>,
    min_size: u64,
    turn: nat,
)
    requires
        turn < buckets.len(),
        accepted(account_at(buckets, expected, turn), buckets[turn as int], min_size),
    ensures
        reduce(buckets, expected, min_size).contains(buckets[turn as int].members),
    decreases turn,
{
    let tail = buckets.drop_first();
    let next = account_after(expected, buckets[0]);
    let rest = reduce(tail, next, min_size);
    let all = reduce(buckets, expected, min_size);
    if turn == 0 {
        assert(all[0] == buckets[0].members);
    } else {
        lemma_account_shift(buckets, expected, turn);
        assert(tail[turn - 1] == buckets[turn as int]);
        lemma_accepted_is_reported(tail, next, min_size, (turn - 1) as nat);
        let i = choose|i: int| 0 <= i < rest.len() && rest[i] == buckets[turn as int].members;
        if accepted(expected, buckets[0], min_size) {
            assert(all[i + 1] == rest[i]);
        } else {
            assert(all[i] == rest[i]);
        }
    }
}

/// How often the buckets before place `turn` explain a fingerprint: each
/// bucket of two members or more explains it once for every member and
/// every place where it stands among the first member's entries.
pub open spec fn explained_before(buckets: Seq<BucketView>, key: Seq<u8>, turn: nat) -> nat
    decreases turn,
{
    if turn == 0 || turn > buckets.len() {
        0
    } else {
        let bucket = buckets[turn - 1];
        let here = if bucket.members.len() == 1 {
            0
        } else {
            bucket.members.len() * occurrences(bucket.members[0].children, key)
        };
        explained_before(buckets, key, (turn - 1) as nat) + here
    }
}

/// The account at a bucket's turn holds, for every fingerprint, what the
/// account started with and what the buckets before explain.
pub proof fn lemma_account_counts(
    buckets: Seq<BucketView>,
    expected: Map<Seq<u8>, nat>,
    key: Seq<u8>,
    turn: nat,
)
    requires
        turn <= buckets.len(),
    ensures
        tally(account_at(buckets, expected, turn), key) == tally(expected, key) + explained_before(
            buckets,
            key,
            turn,
        ),
    decreases turn,
{
    if turn > 0 {
        lemma_account_counts(buckets, expected, key, (turn - 1) as nat);
        let before = account_at(buckets, expected, (turn - 1) as nat);
        let bucket = buckets[turn - 1];
        if bucket.members.len() != 1 {
            lemma_prime_tally(before, bucket.members[0].children, bucket.members.len(), key);
        }
    }
}

/// A duplicated directory hides its duplicated entries, wherever the two
/// buckets stand: a bucket whose every member is explained by the buckets
/// before it, counted from the empty account, is not accepted at its turn.
pub proof fn lemma_explained_bucket_not_accepted(
    buckets: Seq<BucketView>,
    min_size: u64,
    turn: nat,
)
    requires
        turn < buckets.len(),
        buckets[turn as int].members.len() > 0,
        explained_before(buckets, buckets[turn as int].key, turn) == buckets[turn as int].members.len(),
    ensures
        !accepted(account_at(buckets, Map::empty(), turn), buckets[turn as int], min_size),
{
    lemma_account_counts(buckets, Map::empty(), buckets[turn as int].key, turn);
}

/// The first bucket taken from an account that does not explain it, with two
/// members or more that are not empty, is reported where its first member's
/// size is `min_size` or more, and is not reported where it is less. The
/// buckets behind it are reduced alike in both cases.
pub proof fn lemma_threshold(
    bucket: BucketView,
    rest: Seq<BucketView>,
    expected: Map<Seq<u8>, nat>,
    min_size: u64,
)
    requires
        bucket.members.len() >= 2,
        bucket.members[0].descendant_number > 0,
        !explained(expected, bucket),
    ensures
        bucket.members[0].disk_size >= min_size ==> reduce(seq![bucket] + rest, expected, min_size)
            == seq![bucket.members] + reduce(rest, account_after(expected, bucket), min_size),
        bucket.members[0].disk_size < min_size ==> reduce(seq![bucket] + rest, expected, min_size)
            == reduce(rest, account_after(expected, bucket), min_size),
{
    assert((seq![bucket] + rest).drop_first() =~= rest);
}

/// Buckets of empty directories, however many members they have, give no
/// group.
pub proof fn lemma_empty_directories_not_reported(
    buckets: Seq<BucketView>,
    expected: Map<Seq<u8>, nat>,
    min_size: u64,
)
    requires
        forall|i: int| 0 <= i < buckets.len() ==> rank(#[trigger] buckets[i]) == 0,
    ensures
        reduce(buckets, expected, min_size) == Seq::<Seq<RecordView>>::empty(),
    decreases buckets.len(),
{
    if buckets.len() > 0 {
        let tail = buckets.drop_first();
        assert forall|i: int| 0 <= i < tail.len() implies rank(#[trigger] tail[i]) == 0 by {
            assert(tail[i] == buckets[i + 1]);
        }
        assert(rank(buckets[0]) == 0);
        lemma_empty_directories_not_reported(tail, account_after(expected, buckets[0]), min_size);
    }
}

/// How often a fingerprint stands among the entries of a directory.
pub open spec fn occurrences(children: Seq<Seq<u8>>, key: Seq<u8>) -> nat
    decreases children.len(),
{
    if children.len() == 0 {
        0
    } else if children.last() == key {
        occurrences(children.drop_last(), key) + 1
    } else {
        occurrences(children.drop_last(), key)
    }
}

/// Taking a bucket explains each fingerprint once more for every member and
/// every place where it stands among the first member's entries.
pub proof fn lemma_prime_tally(
    expected: Map<Seq<u8>, nat>,
    children: Seq<Seq<u8>>,
    times: nat,
    key: Seq<u8>,
)
    ensures
        tally(prime(expected, children, times), key) == tally(expected, key) + times * occurrences(
            children,
            key,
        ),
        occurrences(children, key) > 0 ==> prime(expected, children, times).dom().contains(key),
    decreases children.len(),
{
    if children.len() > 0 {
        lemma_prime_tally(expected, children.drop_last(), times, key);
        let before = occurrences(children.drop_last(), key);
        assert(times * (before + 1) == times * before + times) by (nonlinear_arith);
    } else {
        assert(times * 0 == 0) by (nonlinear_arith);
    }
}

/// A duplicated directory hides its duplicated entries: where a bucket is
/// taken right before the bucket of one of its entries, both have the same
/// number of members, and that entry stands once among the entries, the
/// second bucket is not reported.
pub proof fn lemma_child_group_collapsed(
    parent: BucketView,
    child: BucketView,
    expected: Map<Seq<u8>, nat>,
    min_size: u64,
)
    requires
        parent.members.len() >= 2,
        child.members.len() == parent.members.len(),
        occurrences(parent.members[0].children, child.key) == 1,
        tally(expected, child.key) == 0,
    ensures
        !accepted(account_after(expected, parent), child, min_size),
        reduce(seq![parent, child], expected, min_size) == if accepted(
            expected,
            parent,
            min_size,
        ) {
            seq![parent.members]
        } else {
            Seq::<Seq<RecordView>>::empty()
        },
{
    let times = parent.members.len();
    lemma_prime_tally(expected, parent.members[0].children, times, child.key);
    assert(times * 1 == times) by (nonlinear_arith);
    let next = account_after(expected, parent);
    assert(explained(next, child));
    let both = seq![parent, child];
    assert(both.drop_first() =~= seq![child]);
    assert(seq![child].drop_first() =~= Seq::<BucketView>::empty());
    assert(reduce(seq![child].drop_first(), account_after(next, child), min_size).len() == 0);
    assert(reduce(seq![child], next, min_size) =~= Seq::<Seq<RecordView>>::empty());
    assert(reduce(both, expected, min_size) =~= if accepted(expected, parent, min_size) {
        seq![parent.members]
    } else {
        Seq::<Seq<RecordView>>::empty()
    });
}

/// The sorted buckets stand by falling rank.
pub proof fn lemma_sort_by_rank_ordered(buckets: Seq<BucketView>)
    ensures
        sort_by_rank(buckets).len() == buckets.len(),
        forall|i: int, j: int|
            0 <= i < j < buckets.len() ==> rank(#[trigger] sort_by_rank(buckets)[i]) >= rank(
                #[trigger] sort_by_rank(buckets)[j],
            ),
    decreases buckets.len(),
{
    if buckets.len() > 0 {
        lemma_sort_by_rank_ordered(buckets.drop_first());
        lemma_insert_keeps_order(sort_by_rank(buckets.drop_first()), buckets[0]);
    }
}

/// Inserting by rank keeps a falling order, and every bucket.
proof fn lemma_insert_keeps_order(sorted: Seq<BucketView>, bucket: BucketView)
    requires
        forall|i: int, j: int|
            0 <= i < j < sorted.len() ==> rank(#[trigger] sorted[i]) >= rank(#[trigger] sorted[j]),
    ensures
        insert_by_rank(sorted, bucket).len() == sorted.len() + 1,
        forall|i: int, j: int|
            0 <= i < j < sorted.len() + 1 ==> rank(#[trigger] insert_by_rank(sorted, bucket)[i])
                >= rank(#[trigger] insert_by_rank(sorted, bucket)[j]),
        forall|i: int|
            0 <= i < sorted.len() + 1 ==> (#[trigger] insert_by_rank(sorted, bucket)[i]) == bucket
                || sorted.contains(insert_by_rank(sorted, bucket)[i]),
        insert_by_rank(sorted, bucket).to_multiset() == sorted.to_multiset().insert(bucket),
    decreases sorted.len(),
{
    broadcast use vstd::seq_lib::group_to_multiset_ensures;

    let out = insert_by_rank(sorted, bucket);
    if sorted.len() == 0 || rank(sorted[0]) <= rank(bucket) {
        assert(out =~= sorted.insert(0, bucket));
        sorted.to_multiset_ensures();
        assert forall|i: int| 0 <= i < sorted.len() + 1 implies (#[trigger] out[i]) == bucket
            || sorted.contains(out[i]) by {
            if i > 0 {
                assert(out[i] == sorted[i - 1]);
            }
        }
    } else {
        let tail = sorted.drop_first();
        assert forall|i: int, j: int| 0 <= i < j < tail.len() implies rank(#[trigger] tail[i])
            >= rank(#[trigger] tail[j]) by {
            assert(tail[i] == sorted[i + 1]);
            assert(tail[j] == sorted[j + 1]);
        }
        lemma_insert_keeps_order(tail, bucket);
        let inner = insert_by_rank(tail, bucket);
        assert(out =~= seq![sorted[0]] + inner);
        assert forall|i: int, j: int| 0 <= i < j < sorted.len() + 1 implies rank(#[trigger] out[i])
            >= rank(#[trigger] out[j]) by {
            assert(out[j] == inner[j - 1]);
            if i > 0 {
                assert(out[i] == inner[i - 1]);
            } else {
                assert(out[0] == sorted[0]);
                if inner[j - 1] != bucket {
                    let k = choose|k: int| 0 <= k < tail.len() && tail[k] == inner[j - 1];
                    assert(tail[k] == sorted[k + 1]);
                }
            }
        }
        assert forall|i: int| 0 <= i < sorted.len() + 1 implies (#[trigger] out[i]) == bucket
            || sorted.contains(out[i]) by {
            if i > 0 {
                assert(out[i] == inner[i - 1]);
                if inner[i - 1] != bucket {
                    let k = choose|k: int| 0 <= k < tail.len() && tail[k] == inner[i - 1];
                    assert(tail[k] == sorted[k + 1]);
                }
            } else {
                assert(out[0] == sorted[0]);
            }
        }
        assert(out =~= inner.insert(0, sorted[0]));
        assert(sorted =~= tail.insert(0, sorted[0]));
        inner.to_multiset_ensures();
        tail.to_multiset_ensures();
        assert(out.to_multiset() =~= sorted.to_multiset().insert(bucket));
    }
}

/// The sorted buckets are the buckets of the index, each as often as there.
pub proof fn lemma_sort_by_rank_permutes(buckets: Seq<BucketView>)
    ensures
        sort_by_rank(buckets).to_multiset() == buckets.to_multiset(),
    decreases buckets.len(),
{
    broadcast use vstd::seq_lib::group_to_multiset_ensures;

    if buckets.len() > 0 {
        let tail = buckets.drop_first();
        lemma_sort_by_rank_permutes(tail);
        lemma_sort_by_rank_ordered(tail);
        lemma_insert_keeps_order(sort_by_rank(tail), buckets[0]);
        assert(buckets =~= tail.insert(0, buckets[0]));
        tail.to_multiset_ensures();
    } else {
        assert(sort_by_rank(buckets) =~= buckets);
    }
}

/// The space that a group wastes: every member but one, at the size of the
/// first.
pub open spec fn wasted_space_spec(group: Seq<RecordView>) -> int {
    (group.len() - 1) * group[0].disk_size
}

/// Computes the space that a group wastes.
pub fn wasted_space(group: &Vec<DirectoryData>) -> (wasted: u64)
    requires
        group@.len() > 0,
        wasted_space_spec(record_views(group@)) <= u64::MAX,
    ensures
        wasted == wasted_space_spec(record_views(group@)),
{
    let others: usize = group.len() - 1;
    let size: u64 = group[0].disk_size;
    assert(others * size >= 0) by (nonlinear_arith)
        requires
            others >= 0,
            size >= 0,
    ;
    (others as u64) * size
}

} // verus!
