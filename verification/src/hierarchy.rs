//! The shape of the "shown under" relation: going up from any process in a
//! group ends at its root, so a group lists each of its processes once, and
//! what a group adds up is bounded by the whole snapshot.
use vstd::prelude::*;
use crate::domain::{InfoView, SnapView};
use crate::grouping::{above, below, has_pid, info_of, infos_at, members, pid_pos, snapshot_usage, subtrees, usage_of, usage_sum, Usage};

verus! {

/// Where going up `k` levels from process `y` leads, if that many levels
/// exist.
pub open spec fn up(p: Seq<SnapView>, by_name: bool, y: int, k: nat) -> Option<int>
    decreases k,
{
    if k == 0 {
        Some(y)
    } else {
        match above(p, by_name, y) {
            Some(z) => up(p, by_name, z, (k - 1) as nat),
            None => None,
        }
    }
}

/// Going up from `x` ends somewhere.
pub open spec fn reaches_top(p: Seq<SnapView>, by_name: bool, x: int) -> bool {
    exists|m: nat| #[trigger] up(p, by_name, x, m) is None
}

/// What a process is shown under is a process.
pub proof fn lemma_above_in_range(p: Seq<SnapView>, by_name: bool, i: int)
    ensures
        above(p, by_name, i) matches Some(j) ==> 0 <= j < p.len(),
{
    crate::grouping::lemma_owner_in_range(p, by_name, i);
    if let Some(pp) = p[i].parent {
        if has_pid(p, pp) {
            let j = pid_pos(p, pp);
        }
    }
}

/// Going up `a` levels and then `d` more is going up `a + d` levels.
pub proof fn lemma_up_split(p: Seq<SnapView>, by_name: bool, y: int, a: nat, d: nat)
    ensures
        up(p, by_name, y, a) matches Some(z) ==> up(p, by_name, y, a + d) == up(p, by_name, z, d),
        up(p, by_name, y, a) is None ==> up(p, by_name, y, a + d) is None,
    decreases a,
{
    if a > 0 {
        if let Some(z) = above(p, by_name, y) {
            lemma_up_split(p, by_name, z, (a - 1) as nat, d);
            assert((a + d - 1) as nat == (a - 1) as nat + d);
        }
    }
}

/// From a process on a loop, going up never ends.
proof fn lemma_loop_never_ends(p: Seq<SnapView>, by_name: bool, x: int, d: nat, m: nat)
    requires
        d >= 1,
        up(p, by_name, x, d) == Some(x),
    ensures
        up(p, by_name, x, m) is Some,
    decreases m,
{
    if m < d {
        lemma_up_split(p, by_name, x, m, (d - m) as nat);
    } else {
        lemma_up_split(p, by_name, x, d, (m - d) as nat);
        lemma_loop_never_ends(p, by_name, x, d, (m - d) as nat);
    }
}

/// A process from which going up ends lies on no loop.
pub proof fn lemma_no_loop(p: Seq<SnapView>, by_name: bool, x: int, d: nat)
    requires
        reaches_top(p, by_name, x),
        d >= 1,
    ensures
        up(p, by_name, x, d) != Some(x),
{
    if up(p, by_name, x, d) == Some(x) {
        let m = choose|m: nat| #[trigger] up(p, by_name, x, m) is None;
        lemma_loop_never_ends(p, by_name, x, d, m);
    }
}

/// The processes shown directly under `x` are in range, shown under `x`,
/// and listed in increasing order.
pub proof fn lemma_below_facts(p: Seq<SnapView>, by_name: bool, x: int, n: int)
    requires
        n <= p.len(),
    ensures
        forall|k: int|
            0 <= k < below(p, by_name, x, n).len() ==> 0 <= #[trigger] below(p, by_name, x, n)[k] < n
                && above(p, by_name, below(p, by_name, x, n)[k]) == Some(x),
        forall|a: int, b: int|
            0 <= a < b < below(p, by_name, x, n).len() ==> below(p, by_name, x, n)[a] < below(
                p,
                by_name,
                x,
                n,
            )[b],
    decreases n,
{
    if n > 0 {
        lemma_below_facts(p, by_name, x, n - 1);
    }
}

/// Going up from `y` leads to one of `cs`.
pub open spec fn under_one_of(p: Seq<SnapView>, by_name: bool, y: int, cs: Seq<int>) -> bool {
    exists|a: nat, j: int|
        #![trigger up(p, by_name, y, a), cs[j]]
        0 <= j < cs.len() && up(p, by_name, y, a) == Some(cs[j])
}

/// Going up from `y` leads to `c`.
pub open spec fn goes_up_to(p: Seq<SnapView>, by_name: bool, y: int, c: int) -> bool {
    exists|a: nat| #[trigger] up(p, by_name, y, a) == Some(c)
}

/// Two different processes shown under the same `x`, where going up from
/// `x` ends, have no process below both.
proof fn lemma_branches_apart(
    p: Seq<SnapView>,
    by_name: bool,
    x: int,
    c1: int,
    c2: int,
    y: int,
    a: nat,
    b: nat,
)
    requires
        reaches_top(p, by_name, x),
        above(p, by_name, c1) == Some(x),
        above(p, by_name, c2) == Some(x),
        c1 != c2,
    ensures
        !(up(p, by_name, y, a) == Some(c1) && up(p, by_name, y, b) == Some(c2)),
{
    if !(up(p, by_name, y, a) == Some(c1) && up(p, by_name, y, b) == Some(c2)) {
    } else if a <= b {
        lemma_up_split(p, by_name, y, a, (b - a) as nat);
        let d = (b - a) as nat;
        assert(d >= 1);
        assert(up(p, by_name, c1, d) == up(p, by_name, x, (d - 1) as nat));
        lemma_up_split(p, by_name, x, (d - 1) as nat, 1);
        assert(up(p, by_name, x, 0) == Some(x));
        assert(up(p, by_name, c2, 1) == Some(x));
        lemma_no_loop(p, by_name, x, d);
    } else {
        lemma_up_split(p, by_name, y, b, (a - b) as nat);
        let d = (a - b) as nat;
        assert(up(p, by_name, c2, d) == up(p, by_name, x, (d - 1) as nat));
        lemma_up_split(p, by_name, x, (d - 1) as nat, 1);
        assert(up(p, by_name, x, 0) == Some(x));
        assert(up(p, by_name, c1, 1) == Some(x));
        lemma_no_loop(p, by_name, x, d);
    }
}

/// Joining two duplicate-free, disjoint lists gives a duplicate-free list.
proof fn lemma_no_dup_concat(a: Seq<int>, b: Seq<int>)
    requires
        a.no_duplicates(),
        b.no_duplicates(),
        forall|i: int, j: int| 0 <= i < a.len() && 0 <= j < b.len() ==> a[i] != b[j],
    ensures
        (a + b).no_duplicates(),
{
    let s = a + b;
    assert forall|i: int, j: int| 0 <= i < s.len() && 0 <= j < s.len() && i != j implies s[i] != s[j] by {
        if i < a.len() && j >= a.len() {
            assert(s[j] == b[j - a.len()]);
        } else if j < a.len() && i >= a.len() {
            assert(s[i] == b[i - a.len()]);
        } else if i >= a.len() && j >= a.len() {
            assert(s[i] == b[i - a.len()]);
            assert(s[j] == b[j - a.len()]);
        }
    }
}

/// Under a process `x` from which going up ends, the depth-first listing of
/// the processes `cs` shown under `x` and everything below them holds
/// processes only, each once, each below one of `cs`, and not `x`.
pub proof fn lemma_subtrees_facts(p: Seq<SnapView>, by_name: bool, x: int, cs: Seq<int>, depth: nat)
    requires
        reaches_top(p, by_name, x),
        cs.no_duplicates(),
        forall|k: int| 0 <= k < cs.len() ==> 0 <= #[trigger] cs[k] < p.len() && above(p, by_name, cs[k]) == Some(x),
    ensures
        forall|i: int| 0 <= i < subtrees(p, by_name, cs, depth).len() ==> 0 <= #[trigger] subtrees(p, by_name, cs, depth)[i] < p.len(),
        forall|i: int|
            0 <= i < subtrees(p, by_name, cs, depth).len() ==> under_one_of(
                p,
                by_name,
                #[trigger] subtrees(p, by_name, cs, depth)[i],
                cs,
            ),
        subtrees(p, by_name, cs, depth).no_duplicates(),
        !subtrees(p, by_name, cs, depth).contains(x),
    decreases depth, cs.len(),
{
    if depth == 0 || cs.len() == 0 {
        return;
    }
    let n = p.len() as int;
    let init = cs.drop_last();
    let c = cs.last();
    let kids = below(p, by_name, c, n);
    let s1 = subtrees(p, by_name, init, depth);
    let s2 = subtrees(p, by_name, kids, (depth - 1) as nat);
    let s = subtrees(p, by_name, cs, depth);
    assert(s == s1 + seq![c] + s2);
    assert(init.no_duplicates());
    lemma_subtrees_facts(p, by_name, x, init, depth);
    // going up from c ends, as it does from x
    let m = choose|m: nat| #[trigger] up(p, by_name, x, m) is None;
    assert(up(p, by_name, c, m + 1) == up(p, by_name, x, m));
    assert(reaches_top(p, by_name, c));
    lemma_below_facts(p, by_name, c, n);
    assert forall|a: int, b: int| 0 <= a < kids.len() && 0 <= b < kids.len() && a != b implies kids[a] != kids[b] by {
        if a < b {
            assert(kids[a] < kids[b]);
        } else {
            assert(kids[b] < kids[a]);
        }
    }
    lemma_subtrees_facts(p, by_name, c, kids, (depth - 1) as nat);
    let last = cs.len() - 1;
    // everything in s2 lies below c
    assert forall|i: int| 0 <= i < s2.len() implies goes_up_to(p, by_name, #[trigger] s2[i], c) by {
        let y = s2[i];
        assert(under_one_of(p, by_name, y, kids));
        let (a, j) = choose|a: nat, j: int| #![trigger up(p, by_name, y, a), kids[j]] 0 <= j < kids.len() && up(p, by_name, y, a) == Some(kids[j]);
        lemma_up_split(p, by_name, y, a, 1);
        assert(up(p, by_name, kids[j], 1) == Some(c));
        assert(up(p, by_name, y, a + 1) == Some(c));
    }
    // c is not in s1
    assert forall|i: int| 0 <= i < s1.len() implies s1[i] != c by {
        if s1[i] == c {
            assert(under_one_of(p, by_name, s1[i], init));
            let (a, j) = choose|a: nat, j: int| #![trigger up(p, by_name, s1[i], a), init[j]] 0 <= j < init.len() && up(p, by_name, s1[i], a) == Some(init[j]);
            assert(cs[j] == init[j]);
            assert(cs[j] != cs[last]);
            lemma_branches_apart(p, by_name, x, init[j], c, c, a, 0);
        }
    }
    // s1 and s2 share nothing
    assert forall|i: int, k: int| 0 <= i < s1.len() && 0 <= k < s2.len() implies s1[i] != s2[k] by {
        if s1[i] == s2[k] {
            assert(under_one_of(p, by_name, s1[i], init));
            let (a, j) = choose|a: nat, j: int| #![trigger up(p, by_name, s1[i], a), init[j]] 0 <= j < init.len() && up(p, by_name, s1[i], a) == Some(init[j]);
            assert(goes_up_to(p, by_name, s2[k], c));
            let b = choose|b: nat| #[trigger] up(p, by_name, s2[k], b) == Some(c);
            assert(cs[j] == init[j]);
            assert(cs[j] != cs[last]);
            lemma_branches_apart(p, by_name, x, init[j], c, s1[i], a, b);
        }
    }
    let head = s1 + seq![c];
    lemma_no_dup_concat(s1, seq![c]);
    assert forall|i: int, k: int| 0 <= i < head.len() && 0 <= k < s2.len() implies head[i] != s2[k] by {
        if i == s1.len() {
            assert(!s2.contains(c));
            assert(head[i] == c);
        } else {
            assert(head[i] == s1[i]);
        }
    }
    lemma_no_dup_concat(head, s2);
    assert(s == head + s2);
    // ranges and ancestry
    assert forall|i: int| 0 <= i < s.len() implies 0 <= #[trigger] s[i] < p.len() by {
        if i < s1.len() {
            assert(s[i] == s1[i]);
        } else if i > s1.len() {
            assert(s[i] == s2[i - s1.len() - 1]);
        }
    }
    assert forall|i: int| 0 <= i < s.len() implies under_one_of(p, by_name, #[trigger] s[i], cs) by {
        if i < s1.len() {
            assert(s[i] == s1[i]);
            assert(under_one_of(p, by_name, s1[i], init));
            let (a, j) = choose|a: nat, j: int| #![trigger up(p, by_name, s1[i], a), init[j]] 0 <= j < init.len() && up(p, by_name, s1[i], a) == Some(init[j]);
            assert(cs[j] == init[j]);
        } else if i == s1.len() {
            assert(s[i] == c);
            assert(up(p, by_name, c, 0) == Some(cs[last]));
        } else {
            assert(s[i] == s2[i - s1.len() - 1]);
            assert(goes_up_to(p, by_name, s2[i - s1.len() - 1], c));
            let b = choose|b: nat| #[trigger] up(p, by_name, s2[i - s1.len() - 1], b) == Some(c);
            assert(up(p, by_name, s[i], b) == Some(cs[last]));
        }
    }
    // x is not in s
    assert forall|i: int| 0 <= i < s.len() implies s[i] != x by {
        if i < s1.len() {
            assert(s[i] == s1[i]);
        } else if i == s1.len() {
            if c == x {
                assert(up(p, by_name, x, 1) == Some(x));
                lemma_no_loop(p, by_name, x, 1);
            }
        } else {
            assert(s[i] == s2[i - s1.len() - 1]);
            if s[i] == x {
                assert(goes_up_to(p, by_name, s2[i - s1.len() - 1], c));
            let b = choose|b: nat| #[trigger] up(p, by_name, s2[i - s1.len() - 1], b) == Some(c);
                lemma_up_split(p, by_name, x, b, 1);
                assert(up(p, by_name, x, 0) == Some(x));
        assert(up(p, by_name, c, 1) == Some(x));
                lemma_no_loop(p, by_name, x, b + 1);
            }
        }
    }
}

/// Every kind of usage of every process is at least zero.
pub open spec fn usage_nonneg(s: Seq<InfoView>) -> bool {
    forall|k: int|
        0 <= k < s.len() ==> (#[trigger] s[k]).cpu_usage >= 0 && s[k].memory >= 0 && s[k].disk_read >= 0
            && s[k].disk_write >= 0
}

/// The positions `0..n`.
pub open spec fn upto(n: int) -> Seq<int> {
    Seq::new(n as nat, |i: int| i)
}

/// Taking one process out of a list takes its usage out of the sum.
pub proof fn lemma_usage_remove(s: Seq<InfoView>, i: int, u: Usage)
    requires
        0 <= i < s.len(),
    ensures
        usage_sum(s, u) == usage_sum(s.remove(i), u) + usage_of(s[i], u),
    decreases s.len(),
{
    if i == s.len() - 1 {
        assert(s.remove(i) =~= s.drop_last());
    } else {
        lemma_usage_remove(s.drop_last(), i, u);
        assert(s.remove(i).drop_last() =~= s.drop_last().remove(i));
        assert(s.remove(i).last() == s.last());
    }
}

/// The usage of a prefix of a list is at most that of the list.
pub proof fn lemma_usage_prefix(s: Seq<InfoView>, k: int, u: Usage)
    requires
        0 <= k <= s.len(),
        usage_nonneg(s),
    ensures
        usage_sum(s.take(k), u) <= usage_sum(s, u),
        k < s.len() ==> usage_sum(s.take(k + 1), u) == usage_sum(s.take(k), u) + usage_of(s[k], u),
    decreases s.len(),
{
    if k < s.len() {
        assert(s.take(k + 1).drop_last() =~= s.take(k));
    }
    if k == s.len() {
        assert(s.take(k) =~= s);
    } else {
        assert(usage_nonneg(s.drop_last())) by {
            assert forall|j: int| 0 <= j < s.drop_last().len() implies (#[trigger] s.drop_last()[j]).cpu_usage >= 0
                && s.drop_last()[j].memory >= 0 && s.drop_last()[j].disk_read >= 0 && s.drop_last()[j].disk_write
                >= 0 by {
                assert(s.drop_last()[j] == s[j]);
            }
        }
        lemma_usage_prefix(s.drop_last(), k, u);
        assert(s.drop_last().take(k) =~= s.take(k));
        assert(usage_of(s.last(), u) >= 0) by {
            assert(s.last() == s[s.len() - 1]);
        }
    }
}

/// The usage of processes listed at most once each is at most that of all
/// of the first `n` processes.
pub proof fn lemma_usage_of_distinct(p: Seq<SnapView>, ks: Seq<int>, n: int, u: Usage)
    requires
        ks.no_duplicates(),
        forall|k: int| 0 <= k < ks.len() ==> 0 <= #[trigger] ks[k] < n,
        0 <= n <= p.len(),
        usage_nonneg(p.map_values(|v: SnapView| info_of(v))),
    ensures
        usage_sum(infos_at(p, ks), u) <= usage_sum(infos_at(p, upto(n)), u),
    decreases n,
{
    if n == 0 {
        assert(ks.len() == 0) by {
            if ks.len() > 0 {
                assert(0 <= ks[0] < n);
            }
        }
        assert(infos_at(p, ks) =~= Seq::<InfoView>::empty());
    } else {
        let last = n - 1;
        assert(infos_at(p, upto(n)).drop_last() =~= infos_at(p, upto(n - 1)));
        assert(infos_at(p, upto(n)).last() == info_of(p[last]));
        let all = p.map_values(|v: SnapView| info_of(v));
        assert(all[last] == info_of(p[last]));
        assert(usage_of(info_of(p[last]), u) >= 0);
        if ks.contains(last) {
            let i = choose|i: int| 0 <= i < ks.len() && ks[i] == last;
            let rest = ks.remove(i);
            lemma_usage_remove(infos_at(p, ks), i, u);
            assert(infos_at(p, ks).remove(i) =~= infos_at(p, rest));
            assert forall|k: int| 0 <= k < rest.len() implies 0 <= #[trigger] rest[k] < n - 1 by {
                if k < i {
                    assert(rest[k] == ks[k]);
                } else {
                    assert(rest[k] == ks[k + 1]);
                }
            }
            assert(rest.no_duplicates()) by {
                assert forall|a: int, b: int| 0 <= a < rest.len() && 0 <= b < rest.len() && a != b implies rest[a] != rest[b] by {
                    let oa = if a < i { a } else { a + 1 };
                    let ob = if b < i { b } else { b + 1 };
                    assert(rest[a] == ks[oa]);
                    assert(rest[b] == ks[ob]);
                }
            }
            lemma_usage_of_distinct(p, rest, n - 1, u);
        } else {
            assert forall|k: int| 0 <= k < ks.len() implies 0 <= #[trigger] ks[k] < n - 1 by {
                if ks[k] == last {
                    assert(ks.contains(last));
                }
            }
            lemma_usage_of_distinct(p, ks, n - 1, u);
        }
    }
}

/// What a group adds up, its root and its members, is at most what the
/// whole snapshot adds up; so is the usage of any single member.
pub proof fn lemma_group_within_snapshot(p: Seq<SnapView>, by_name: bool, r: int, u: Usage)
    requires
        0 <= r < p.len(),
        above(p, by_name, r) is None,
        usage_nonneg(p.map_values(|v: SnapView| info_of(v))),
    ensures
        usage_of(info_of(p[r]), u) + usage_sum(infos_at(p, members(p, by_name, r)), u) <= snapshot_usage(p, u),
        forall|k: int|
            0 <= k < members(p, by_name, r).len() ==> usage_of(info_of(p[#[trigger] members(p, by_name, r)[k]]), u)
                <= snapshot_usage(p, u),
        forall|k: int| 0 <= k < members(p, by_name, r).len() ==> 0 <= #[trigger] members(p, by_name, r)[k] < p.len(),
{
    let n = p.len() as int;
    let kids = below(p, by_name, r, n);
    assert(up(p, by_name, r, 1) is None);
    assert(reaches_top(p, by_name, r));
    lemma_below_facts(p, by_name, r, n);
    assert forall|a: int, b: int| 0 <= a < kids.len() && 0 <= b < kids.len() && a != b implies kids[a] != kids[b] by {
        if a < b {
            assert(kids[a] < kids[b]);
        } else {
            assert(kids[b] < kids[a]);
        }
    }
    lemma_subtrees_facts(p, by_name, r, kids, p.len());
    let ms = members(p, by_name, r);
    let ks = seq![r] + ms;
    lemma_no_dup_concat(seq![r], ms);
    assert forall|k: int| 0 <= k < ks.len() implies 0 <= #[trigger] ks[k] < n by {
        if k > 0 {
            assert(ks[k] == ms[k - 1]);
        }
    }
    lemma_usage_of_distinct(p, ks, n, u);
    assert(infos_at(p, upto(n)) =~= p.map_values(|v: SnapView| info_of(v)));
    lemma_usage_remove(infos_at(p, ks), 0, u);
    assert(infos_at(p, ks).remove(0) =~= infos_at(p, ms));
    assert forall|k: int| 0 <= k < ms.len() implies usage_of(info_of(p[#[trigger] ms[k]]), u) <= snapshot_usage(p, u) by {
        let one = seq![ms[k]];
        assert(0 <= ms[k] < n);
        assert(one.no_duplicates());
        lemma_usage_of_distinct(p, one, n, u);
        assert(infos_at(p, one).drop_last() =~= Seq::<InfoView>::empty());
        assert(infos_at(p, one).last() == info_of(p[ms[k]]));
        assert(usage_sum(Seq::<InfoView>::empty(), u) == 0);
        assert(usage_sum(infos_at(p, one), u) == usage_of(info_of(p[ms[k]]), u));
    }
}

/// A list of distinct positions below `n` has at most `n` entries.
pub proof fn lemma_distinct_bounded(s: Seq<int>, n: int)
    requires
        s.no_duplicates(),
        forall|k: int| 0 <= k < s.len() ==> 0 <= #[trigger] s[k] < n,
    ensures
        s.len() <= if n < 0 { 0 } else { n },
    decreases if n < 0 { 0 } else { n },
{
    if n <= 0 {
        if s.len() > 0 {
            assert(0 <= s[0] < n);
        }
    } else if s.contains(n - 1) {
        let i = choose|i: int| 0 <= i < s.len() && s[i] == n - 1;
        let rest = s.remove(i);
        assert forall|k: int| 0 <= k < rest.len() implies 0 <= #[trigger] rest[k] < n - 1 by {
            if k < i {
                assert(rest[k] == s[k]);
            } else {
                assert(rest[k] == s[k + 1]);
            }
        }
        assert(rest.no_duplicates()) by {
            assert forall|a: int, b: int| 0 <= a < rest.len() && 0 <= b < rest.len() && a != b implies rest[a] != rest[b] by {
                let oa = if a < i { a } else { a + 1 };
                let ob = if b < i { b } else { b + 1 };
                assert(rest[a] == s[oa]);
                assert(rest[b] == s[ob]);
            }
        }
        lemma_distinct_bounded(rest, n - 1);
    } else {
        assert forall|k: int| 0 <= k < s.len() implies 0 <= #[trigger] s[k] < n - 1 by {
            if s[k] == n - 1 {
                assert(s.contains(n - 1));
            }
        }
        lemma_distinct_bounded(s, n - 1);
    }
}

/// Going up from a process stays among the processes.
pub proof fn lemma_up_in_range(p: Seq<SnapView>, by_name: bool, y: int, k: nat)
    requires
        0 <= y < p.len(),
    ensures
        up(p, by_name, y, k) matches Some(z) ==> 0 <= z < p.len(),
    decreases k,
{
    if k > 0 {
        lemma_above_in_range(p, by_name, y);
        if let Some(z) = above(p, by_name, y) {
            lemma_up_in_range(p, by_name, z, (k - 1) as nat);
        }
    }
}

/// A root is shown under nothing, so going up from it ends.
pub open spec fn is_root(p: Seq<SnapView>, by_name: bool, r: int) -> bool {
    0 <= r < p.len() && above(p, by_name, r) is None
}

/// If going up `a` levels from `y` reaches a root, then `a` is less than
/// the number of processes.
pub proof fn lemma_path_to_root_short(p: Seq<SnapView>, by_name: bool, y: int, a: nat, r: int)
    requires
        0 <= y < p.len(),
        up(p, by_name, y, a) == Some(r),
        is_root(p, by_name, r),
    ensures
        a < p.len(),
{
    let chain = Seq::new(a + 1, |k: int| up(p, by_name, y, k as nat)->0);
    lemma_up_split(p, by_name, y, a, 1);
    assert(up(p, by_name, r, 1) is None);
    assert(up(p, by_name, y, a + 1) is None);
    assert forall|k: int| 0 <= k < chain.len() implies up(p, by_name, y, k as nat) is Some && 0 <= #[trigger] chain[k] < p.len() by {
        lemma_up_split(p, by_name, y, k as nat, (a - k) as nat);
        lemma_up_in_range(p, by_name, y, k as nat);
    }
    assert forall|i: int, j: int| 0 <= i < chain.len() && 0 <= j < chain.len() && i != j implies chain[i] != chain[j] by {
        let (lo, hi) = if i < j { (i, j) } else { (j, i) };
        let z = chain[lo];
        lemma_up_split(p, by_name, y, lo as nat, (hi - lo) as nat);
        lemma_up_split(p, by_name, y, lo as nat, (a + 1 - lo) as nat);
        assert(up(p, by_name, z, (a + 1 - lo) as nat) is None);
        assert(reaches_top(p, by_name, z));
        if chain[hi] == z {
            lemma_no_loop(p, by_name, z, (hi - lo) as nat);
        }
    }
    lemma_distinct_bounded(chain, p.len() as int);
}

/// The processes `cs` are listed in their own depth-first listing.
proof fn lemma_listed_heads(p: Seq<SnapView>, by_name: bool, cs: Seq<int>, depth: nat, j: int)
    requires
        depth >= 1,
        0 <= j < cs.len(),
    ensures
        subtrees(p, by_name, cs, depth).contains(cs[j]),
        forall|i: int|
            0 <= i < subtrees(p, by_name, below(p, by_name, cs[j], p.len() as int), (depth - 1) as nat).len()
                ==> subtrees(p, by_name, cs, depth).contains(
                #[trigger] subtrees(p, by_name, below(p, by_name, cs[j], p.len() as int), (depth - 1) as nat)[i],
            ),
    decreases cs.len(),
{
    let init = cs.drop_last();
    let c = cs.last();
    let s1 = subtrees(p, by_name, init, depth);
    let s2 = subtrees(p, by_name, below(p, by_name, c, p.len() as int), (depth - 1) as nat);
    let s = subtrees(p, by_name, cs, depth);
    assert(s == s1 + seq![c] + s2);
    if j == cs.len() - 1 {
        assert(s[s1.len() as int] == c);
        assert forall|i: int| 0 <= i < s2.len() implies s.contains(#[trigger] s2[i]) by {
            assert(s[s1.len() + 1 + i] == s2[i]);
        }
    } else {
        lemma_listed_heads(p, by_name, init, depth, j);
        assert(init[j] == cs[j]);
        let t = subtrees(p, by_name, below(p, by_name, cs[j], p.len() as int), (depth - 1) as nat);
        let k = choose|k: int| 0 <= k < s1.len() && s1[k] == cs[j];
        assert(s[k] == cs[j]);
        assert forall|i: int| 0 <= i < t.len() implies s.contains(#[trigger] t[i]) by {
            assert(s1.contains(t[i]));
            let m = choose|m: int| 0 <= m < s1.len() && s1[m] == t[i];
            assert(s[m] == t[i]);
        }
    }
}

/// A process from which going up `a` levels (fewer than `depth`) reaches
/// one of `cs` is in the depth-first listing of `cs`.
proof fn lemma_listed_if_below(p: Seq<SnapView>, by_name: bool, cs: Seq<int>, depth: nat, y: int, a: nat, j: int)
    requires
        0 <= y < p.len(),
        0 <= j < cs.len(),
        a < depth,
        up(p, by_name, y, a) == Some(cs[j]),
    ensures
        subtrees(p, by_name, cs, depth).contains(y),
    decreases a,
{
    lemma_listed_heads(p, by_name, cs, depth, j);
    if a == 0 {
    } else {
        let w = up(p, by_name, y, (a - 1) as nat)->0;
        lemma_up_split(p, by_name, y, (a - 1) as nat, 1);
        lemma_up_in_range(p, by_name, y, (a - 1) as nat);
        assert(up(p, by_name, w, 1) == Some(cs[j]));
        if let Some(z) = above(p, by_name, w) {
            assert(up(p, by_name, z, 0) == Some(z));
        }
        assert(above(p, by_name, w) == Some(cs[j]));
        let kids = below(p, by_name, cs[j], p.len() as int);
        lemma_below_complete(p, by_name, cs[j], p.len() as int, w);
        let m = choose|m: int| 0 <= m < kids.len() && kids[m] == w;
        lemma_listed_if_below(p, by_name, kids, (depth - 1) as nat, y, (a - 1) as nat, m);
        let t = subtrees(p, by_name, kids, (depth - 1) as nat);
        let i = choose|i: int| 0 <= i < t.len() && t[i] == y;
        assert(subtrees(p, by_name, cs, depth).contains(t[i]));
    }
}

/// Every process among the first `n` that is shown under `x` is listed
/// below `x`.
pub proof fn lemma_below_complete(p: Seq<SnapView>, by_name: bool, x: int, n: int, w: int)
    requires
        0 <= w < n,
        above(p, by_name, w) == Some(x),
    ensures
        below(p, by_name, x, n).contains(w),
    decreases n,
{
    if w < n - 1 {
        lemma_below_complete(p, by_name, x, n - 1, w);
        let prev = below(p, by_name, x, n - 1);
        let k = choose|k: int| 0 <= k < prev.len() && #[trigger] prev[k] == w;
        assert(below(p, by_name, x, n)[k] == w);
    } else {
        let b = below(p, by_name, x, n);
        assert(b[b.len() - 1] == w);
    }
}

/// Process `i` is listed in the group rooted at `r`: it is the root or one
/// of its members.
pub open spec fn in_group(p: Seq<SnapView>, by_name: bool, r: int, i: int) -> bool {
    i == r || members(p, by_name, r).contains(i)
}

/// A process is listed in the group of a root exactly when going up from
/// it reaches that root.
pub proof fn lemma_in_group_iff_reaches(p: Seq<SnapView>, by_name: bool, r: int, i: int)
    requires
        is_root(p, by_name, r),
        0 <= i < p.len(),
    ensures
        in_group(p, by_name, r, i) <==> goes_up_to(p, by_name, i, r),
{
    let n = p.len() as int;
    let kids = below(p, by_name, r, n);
    assert(up(p, by_name, r, 1) is None);
    assert(reaches_top(p, by_name, r));
    lemma_below_facts(p, by_name, r, n);
    assert forall|a: int, b: int| 0 <= a < kids.len() && 0 <= b < kids.len() && a != b implies kids[a] != kids[b] by {
        if a < b {
            assert(kids[a] < kids[b]);
        } else {
            assert(kids[b] < kids[a]);
        }
    }
    lemma_subtrees_facts(p, by_name, r, kids, p.len());
    let ms = members(p, by_name, r);
    if in_group(p, by_name, r, i) {
        if i == r {
            assert(up(p, by_name, i, 0) == Some(r));
        } else {
            let k = choose|k: int| 0 <= k < ms.len() && ms[k] == i;
            assert(under_one_of(p, by_name, ms[k], kids));
            let (a, j) = choose|a: nat, j: int| #![trigger up(p, by_name, i, a), kids[j]] 0 <= j < kids.len() && up(p, by_name, i, a) == Some(kids[j]);
            lemma_up_split(p, by_name, i, a, 1);
            assert(up(p, by_name, r, 0) == Some(r));
            assert(up(p, by_name, kids[j], 1) == Some(r));
            assert(up(p, by_name, i, a + 1) == Some(r));
        }
    }
    if goes_up_to(p, by_name, i, r) {
        let a = choose|a: nat| #[trigger] up(p, by_name, i, a) == Some(r);
        lemma_path_to_root_short(p, by_name, i, a, r);
        if a > 0 {
            let w = up(p, by_name, i, (a - 1) as nat)->0;
            lemma_up_split(p, by_name, i, (a - 1) as nat, 1);
            lemma_up_in_range(p, by_name, i, (a - 1) as nat);
            assert(up(p, by_name, w, 1) == Some(r));
            if let Some(z) = above(p, by_name, w) {
            assert(up(p, by_name, z, 0) == Some(z));
        }
        assert(above(p, by_name, w) == Some(r));
            lemma_below_complete(p, by_name, r, n, w);
            let m = choose|m: int| 0 <= m < kids.len() && kids[m] == w;
            lemma_listed_if_below(p, by_name, kids, p.len(), i, (a - 1) as nat, m);
        }
    }
}

/// Going up from a process reaches at most one root.
pub proof fn lemma_one_root(p: Seq<SnapView>, by_name: bool, i: int, r1: int, r2: int)
    requires
        is_root(p, by_name, r1),
        is_root(p, by_name, r2),
        goes_up_to(p, by_name, i, r1),
        goes_up_to(p, by_name, i, r2),
    ensures
        r1 == r2,
{
    let a = choose|a: nat| #[trigger] up(p, by_name, i, a) == Some(r1);
    let b = choose|b: nat| #[trigger] up(p, by_name, i, b) == Some(r2);
    assert(up(p, by_name, r1, 1) is None);
    assert(up(p, by_name, r2, 1) is None);
    if a < b {
        lemma_up_split(p, by_name, i, a, (b - a) as nat);
        lemma_up_split(p, by_name, r1, 1, (b - a - 1) as nat);
    } else if b < a {
        lemma_up_split(p, by_name, i, b, (a - b) as nat);
        lemma_up_split(p, by_name, r2, 1, (a - b - 1) as nat);
    }
}

/// Going up from a process ends exactly when it reaches a root.
pub proof fn lemma_top_is_root(p: Seq<SnapView>, by_name: bool, i: int)
    requires
        0 <= i < p.len(),
    ensures
        reaches_top(p, by_name, i) <==> exists|r: int| is_root(p, by_name, r) && #[trigger] goes_up_to(p, by_name, i, r),
{
    if reaches_top(p, by_name, i) {
        let m = choose|m: nat| #[trigger] up(p, by_name, i, m) is None;
        lemma_last_before_end(p, by_name, i, m);
    }
    if exists|r: int| is_root(p, by_name, r) && #[trigger] goes_up_to(p, by_name, i, r) {
        let r = choose|r: int| is_root(p, by_name, r) && #[trigger] goes_up_to(p, by_name, i, r);
        let a = choose|a: nat| #[trigger] up(p, by_name, i, a) == Some(r);
        lemma_up_split(p, by_name, i, a, 1);
        assert(up(p, by_name, r, 1) is None);
        assert(up(p, by_name, i, a + 1) is None);
    }
}

/// Where going up `m` levels from `i` ends, the last process reached is a
/// root.
proof fn lemma_last_before_end(p: Seq<SnapView>, by_name: bool, i: int, m: nat)
    requires
        0 <= i < p.len(),
        up(p, by_name, i, m) is None,
    ensures
        exists|r: int| is_root(p, by_name, r) && #[trigger] goes_up_to(p, by_name, i, r),
    decreases m,
{
    if m > 0 {
        if up(p, by_name, i, (m - 1) as nat) is None {
            lemma_last_before_end(p, by_name, i, (m - 1) as nat);
        } else {
            let r = up(p, by_name, i, (m - 1) as nat)->0;
            lemma_up_split(p, by_name, i, (m - 1) as nat, 1);
            lemma_up_in_range(p, by_name, i, (m - 1) as nat);
            assert(up(p, by_name, r, 1) is None);
            if let Some(z) = above(p, by_name, r) {
                assert(up(p, by_name, z, 0) == Some(z));
            }
            assert(above(p, by_name, r) is None);
            assert(is_root(p, by_name, r) && goes_up_to(p, by_name, i, r));
        }
    }
}

/// The listed roots are exactly the processes shown under nothing.
pub proof fn lemma_roots_exact(p: Seq<SnapView>, by_name: bool, n: int, r: int)
    requires
        0 <= n <= p.len(),
    ensures
        crate::grouping::roots(p, by_name, n).contains(r) <==> (0 <= r < n && above(p, by_name, r) is None),
    decreases n,
{
    if n > 0 {
        lemma_roots_exact(p, by_name, n - 1, r);
        let prev = crate::grouping::roots(p, by_name, n - 1);
        let cur = crate::grouping::roots(p, by_name, n);
        if prev.contains(r) {
            let k = choose|k: int| 0 <= k < prev.len() && #[trigger] prev[k] == r;
            assert(cur[k] == r);
        }
        if cur.contains(r) && r != n - 1 {
            let k = choose|k: int| 0 <= k < cur.len() && #[trigger] cur[k] == r;
            if above(p, by_name, n - 1) is None {
                assert(k < prev.len());
                assert(prev[k] == r);
            } else {
                assert(prev[k] == r);
            }
        }
        if r == n - 1 && above(p, by_name, r) is None {
            assert(cur[cur.len() - 1] == r);
        }
    }
}

} // verus!
