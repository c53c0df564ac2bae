//! The order of the process table: sort keys, and a stable sort by them in
//! either direction.
use vstd::prelude::*;
use crate::domain::{group_views, info_views, GroupView, InfoView, ProcessGroup, ProcessInfo, SortMode};
use crate::text::{chars_less, chars_lt, lemma_chars_lt_transitive, lemma_chars_lt_trichotomy, lowercase, lowercase_chars};
use crate::hierarchy::lemma_distinct_bounded;

verus! {

/// A sort key: a number, then a text compared lexicographically.
pub type Rank = (int, Seq<char>);

/// The key of a row under a sort mode: the CPU usage, the memory, the disk
/// traffic (read plus written), or the lowercased name.
pub open spec fn rank_of(mode: SortMode, cpu: int, memory: int, disk: int, name: Seq<char>) -> Rank {
    match mode {
        SortMode::Cpu => (cpu, Seq::empty()),
        SortMode::Memory => (memory, Seq::empty()),
        SortMode::DiskIo => (disk, Seq::empty()),
        SortMode::Name => (0, lowercase(name)),
    }
}

/// Strict order on keys: by number, then by text.
pub open spec fn rank_lt(a: Rank, b: Rank) -> bool {
    a.0 < b.0 || (a.0 == b.0 && chars_lt(a.1, b.1))
}

/// `a` comes strictly before `b` in ascending (`asc`) or descending order.
pub open spec fn ranks_before(a: Rank, b: Rank, asc: bool) -> bool {
    if asc {
        rank_lt(a, b)
    } else {
        rank_lt(b, a)
    }
}

/// `perm` lists the positions of `keys` in the order of a stable sort:
/// every position once, no key before one that should come after it, and
/// equal keys in the order they came in.
pub open spec fn stable_order(keys: Seq<Rank>, perm: Seq<int>, asc: bool) -> bool {
    &&& perm.len() == keys.len()
    &&& forall|i: int| 0 <= i < perm.len() ==> 0 <= #[trigger] perm[i] < keys.len()
    &&& forall|i: int, j: int| 0 <= i < j < perm.len() ==> perm[i] != perm[j]
    &&& forall|i: int, j: int|
        0 <= i < j < perm.len() ==> !ranks_before(keys[perm[j]], keys[perm[i]], asc)
    &&& forall|i: int, j: int|
        0 <= i < j < perm.len() && keys[perm[i]] == keys[perm[j]] ==> perm[i] < perm[j]
}

impl InfoView {
    /// The key of this process under `mode`.
    pub open spec fn rank(self, mode: SortMode) -> Rank {
        rank_of(mode, self.cpu_usage, self.memory, self.disk_read + self.disk_write, self.name)
    }
}

impl GroupView {
    /// The key of this group under `mode`.
    pub open spec fn rank(self, mode: SortMode) -> Rank {
        rank_of(mode, self.cpu_usage, self.memory, self.disk_read + self.disk_write, self.name)
    }

    /// The same group, its processes aside.
    pub open spec fn same_head(self, other: GroupView) -> bool {
        &&& self.pid == other.pid
        &&& self.name == other.name
        &&& self.cpu_usage == other.cpu_usage
        &&& self.memory == other.memory
        &&& self.disk_read == other.disk_read
        &&& self.disk_write == other.disk_write
        &&& self.expanded == other.expanded
    }
}

/// The keys of a sequence of processes.
pub open spec fn info_ranks(s: Seq<InfoView>, mode: SortMode) -> Seq<Rank> {
    s.map_values(|c: InfoView| c.rank(mode))
}

/// The keys of a sequence of groups.
pub open spec fn group_ranks(s: Seq<GroupView>, mode: SortMode) -> Seq<Rank> {
    s.map_values(|g: GroupView| g.rank(mode))
}

/// `out` is `inp` stably sorted by key.
pub open spec fn infos_arranged(out: Seq<InfoView>, inp: Seq<InfoView>, mode: SortMode, asc: bool) -> bool {
    exists|perm: Seq<int>|
        #![trigger stable_order(info_ranks(inp, mode), perm, asc)]
        stable_order(info_ranks(inp, mode), perm, asc) && out.len() == perm.len() && forall|i: int|
            0 <= i < out.len() ==> out[i] == inp[perm[i]]
}

/// `o` is `g` with its processes stably sorted by key.
pub open spec fn group_arranged(o: GroupView, g: GroupView, mode: SortMode, asc: bool) -> bool {
    o.same_head(g) && infos_arranged(o.children, g.children, mode, asc)
}

/// `out` is `inp` stably sorted by key, with the processes of each group
/// stably sorted by key too.
pub open spec fn groups_arranged(out: Seq<GroupView>, inp: Seq<GroupView>, mode: SortMode, asc: bool) -> bool {
    exists|perm: Seq<int>|
        #![trigger stable_order(group_ranks(inp, mode), perm, asc)]
        stable_order(group_ranks(inp, mode), perm, asc) && out.len() == perm.len() && forall|i: int|
            0 <= i < out.len() ==> group_arranged(out[i], inp[perm[i]], mode, asc)
}

/// A sort key as computed at run time.
pub struct SortKey {
    pub num: u64,
    pub text: Vec<char>,
}

impl View for SortKey {
    type V = Rank;

    open spec fn view(&self) -> Rank {
        (self.num as int, self.text@)
    }
}

/// Something that can be sorted by the table's sort modes.
pub trait Ranked: Sized {
    /// The key of this item under `mode`.
    spec fn rank(&self, mode: SortMode) -> Rank;

    /// The key can be computed without overflow.
    spec fn rank_fits(&self) -> bool;

    /// Computes the key of this item under `mode`.
    fn sort_key(&self, mode: SortMode) -> (k: SortKey)
        requires
            self.rank_fits(),
        ensures
            k@ == self.rank(mode),
    ;
}

/// Builds the key of a row from its fields.
fn key_from_fields(mode: SortMode, cpu: u64, memory: u64, disk_read: u64, disk_write: u64, name: &String) -> (k: SortKey)
    requires
        disk_read + disk_write <= u64::MAX,
    ensures
        k@ == rank_of(mode, cpu as int, memory as int, disk_read + disk_write, name@),
{
    match mode {
        SortMode::Cpu => SortKey { num: cpu, text: Vec::new() },
        SortMode::Memory => SortKey { num: memory, text: Vec::new() },
        SortMode::DiskIo => SortKey { num: disk_read + disk_write, text: Vec::new() },
        SortMode::Name => SortKey { num: 0, text: lowercase_chars(name.as_str()) },
    }
}

impl Ranked for ProcessInfo {
    open spec fn rank(&self, mode: SortMode) -> Rank {
        self@.rank(mode)
    }

    open spec fn rank_fits(&self) -> bool {
        self.disk_read + self.disk_write <= u64::MAX
    }

    fn sort_key(&self, mode: SortMode) -> (k: SortKey) {
        key_from_fields(mode, self.cpu_usage, self.memory, self.disk_read, self.disk_write, &self.name)
    }
}

impl Ranked for ProcessGroup {
    open spec fn rank(&self, mode: SortMode) -> Rank {
        self@.rank(mode)
    }

    open spec fn rank_fits(&self) -> bool {
        self.disk_read + self.disk_write <= u64::MAX
    }

    fn sort_key(&self, mode: SortMode) -> (k: SortKey) {
        key_from_fields(mode, self.cpu_usage, self.memory, self.disk_read, self.disk_write, &self.name)
    }
}

/// `rank_lt` is a strict total order on keys.
pub proof fn lemma_rank_lt_total(a: Rank, b: Rank)
    ensures
        !rank_lt(a, a),
        a == b || rank_lt(a, b) || rank_lt(b, a),
        !(rank_lt(a, b) && rank_lt(b, a)),
{
    lemma_chars_lt_trichotomy(a.1, b.1);
}

/// `rank_lt` is transitive.
pub proof fn lemma_rank_lt_transitive(a: Rank, b: Rank, c: Rank)
    requires
        rank_lt(a, b),
        rank_lt(b, c),
    ensures
        rank_lt(a, c),
{
    if a.0 == b.0 && b.0 == c.0 {
        lemma_chars_lt_transitive(a.1, b.1, c.1);
    }
}

/// If `x` comes before `y`, and `z` does not come before `y`, then `x`
/// comes before `z`.
pub proof fn lemma_before_chain(x: Rank, y: Rank, z: Rank, asc: bool)
    requires
        ranks_before(x, y, asc),
        !ranks_before(z, y, asc),
    ensures
        ranks_before(x, z, asc),
{
    lemma_rank_lt_total(y, z);
    if asc {
        if y != z {
            lemma_rank_lt_transitive(x, y, z);
        }
    } else {
        if y != z {
            lemma_rank_lt_transitive(z, y, x);
        }
    }
}

/// Whether key `a` comes strictly before key `b` in the given direction.
pub fn key_before(a: &SortKey, b: &SortKey, asc: bool) -> (r: bool)
    ensures
        r == ranks_before(a@, b@, asc),
{
    let (x, y) = if asc {
        (a, b)
    } else {
        (b, a)
    };
    if x.num < y.num {
        true
    } else if x.num == y.num {
        chars_less(&x.text, &y.text)
    } else {
        false
    }
}

/// The keys of a sequence of items.
pub open spec fn ranks_of<T: Ranked>(s: Seq<T>, mode: SortMode) -> Seq<Rank> {
    s.map_values(|x: T| x.rank(mode))
}

/// Sorts `v` stably by key under `mode`, ascending or descending: items
/// with equal keys keep their order.
pub fn sort_stable<T: Ranked>(v: &mut Vec<T>, mode: SortMode, asc: bool)
    requires
        forall|i: int| 0 <= i < old(v)@.len() ==> (#[trigger] old(v)@[i]).rank_fits(),
    ensures
        exists|perm: Seq<int>|
            #![trigger stable_order(ranks_of(old(v)@, mode), perm, asc)]
            stable_order(ranks_of(old(v)@, mode), perm, asc) && final(v)@.len() == perm.len()
                && forall|i: int| 0 <= i < perm.len() ==> final(v)@[i] == old(v)@[perm[i]],
{
    let ghost orig = v@;
    let total = v.len();
    let ghost keys_in = ranks_of(orig, mode);
    let mut out: Vec<T> = Vec::new();
    let mut keys: Vec<SortKey> = Vec::new();
    let ghost mut perm: Seq<int> = Seq::empty();
    let mut done: usize = 0;
    while v.len() > 0
        invariant
            keys_in == ranks_of(orig, mode),
            total == orig.len(),
            done <= orig.len(),
            v@ == orig.skip(done as int),
            forall|i: int| 0 <= i < orig.len() ==> (#[trigger] orig[i]).rank_fits(),
            keys@.len() == out@.len(),
            perm.len() == out@.len(),
            perm.len() == done,
            forall|j: int| 0 <= j < perm.len() ==> 0 <= #[trigger] perm[j] < done,
            forall|j: int| 0 <= j < perm.len() ==> out@[j] == orig[#[trigger] perm[j]],
            forall|j: int| 0 <= j < perm.len() ==> (#[trigger] keys@[j])@ == keys_in[perm[j]],
            forall|i: int, j: int| 0 <= i < j < perm.len() ==> perm[i] != perm[j],
            forall|i: int, j: int|
                0 <= i < j < perm.len() ==> !ranks_before(keys_in[perm[j]], keys_in[perm[i]], asc),
            forall|i: int, j: int|
                0 <= i < j < perm.len() && keys_in[perm[i]] == keys_in[perm[j]] ==> perm[i] < perm[j],
        decreases v@.len(),
    {
        assert(done < orig.len());
        assert(v@[0] == orig[done as int]);
        let x = v.remove(0);
        assert(v@ =~= orig.skip(done + 1));
        let k = x.sort_key(mode);
        assert(k@ == keys_in[done as int]);
        let mut p: usize = keys.len();
        while p > 0 && key_before(&k, &keys[p - 1], asc)
            invariant
                p <= keys@.len(),
                forall|q: int| p <= q < keys@.len() ==> ranks_before(k@, (#[trigger] keys@[q])@, asc),
            decreases p,
        {
            p = p - 1;
        }
        proof {
            if p > 0 {
                assert(!ranks_before(k@, keys@[p - 1]@, asc));
                assert forall|a: int| 0 <= a < p implies !ranks_before(k@, keys_in[perm[a]], asc) by {
                    if a < p - 1 && ranks_before(k@, keys_in[perm[a]], asc) {
                        assert(keys@[p - 1]@ == keys_in[perm[p - 1]]);
                        lemma_before_chain(k@, keys_in[perm[a]], keys_in[perm[p - 1]], asc);
                    }
                }
            }
            assert forall|b: int| p <= b < perm.len() implies !ranks_before(
                keys_in[perm[b]],
                k@,
                asc,
            ) && keys_in[perm[b]] != k@ by {
                assert(keys@[b]@ == keys_in[perm[b]]);
                assert(ranks_before(k@, keys@[b]@, asc));
                lemma_rank_lt_total(k@, keys@[b]@);
            }
        }
        let ghost old_perm = perm;
        let ghost old_out = out@;
        let ghost old_keys = keys@;
        out.insert(p, x);
        keys.insert(p, k);
        proof {
            perm = perm.insert(p as int, done as int);
        }
        done = done + 1;
        proof {
            assert forall|j: int| 0 <= j < perm.len() implies out@[j] == orig[#[trigger] perm[j]]
                && (#[trigger] keys@[j])@ == keys_in[perm[j]] by {
                if j < p {
                    assert(perm[j] == old_perm[j]);
                } else if j > p {
                    assert(perm[j] == old_perm[j - 1]);
                }
            }
            assert forall|i: int, j: int| 0 <= i < j < perm.len() implies perm[i] != perm[j]
                && !ranks_before(keys_in[perm[j]], keys_in[perm[i]], asc) && (keys_in[perm[i]]
                == keys_in[perm[j]] ==> perm[i] < perm[j]) by {
                let oi = if i < p {
                    i
                } else {
                    i - 1
                };
                let oj = if j < p {
                    j
                } else {
                    j - 1
                };
                if i != p && j != p {
                    assert(perm[i] == old_perm[oi]);
                    assert(perm[j] == old_perm[oj]);
                } else if i == p {
                    assert(perm[j] == old_perm[oj]);
                } else {
                    assert(perm[i] == old_perm[oi]);
                }
            }
        }
    }
    assert(done == orig.len());
    *v = out;
    assert(stable_order(keys_in, perm, asc));
}

/// A group whose key, and the keys of whose processes, can be computed
/// without overflow.
pub open spec fn group_fits(g: ProcessGroup) -> bool {
    &&& g.rank_fits()
    &&& forall|j: int| 0 <= j < g.children@.len() ==> (#[trigger] g.children@[j]).rank_fits()
}

/// The keys of items are the keys of their views.
proof fn lemma_info_ranks(s: Seq<ProcessInfo>, mode: SortMode)
    ensures
        ranks_of(s, mode) == info_ranks(info_views(s), mode),
{
    assert(ranks_of(s, mode) =~= info_ranks(info_views(s), mode));
}

/// The keys of groups are the keys of their views.
proof fn lemma_group_ranks(s: Seq<ProcessGroup>, mode: SortMode)
    ensures
        ranks_of(s, mode) == group_ranks(group_views(s), mode),
{
    assert(ranks_of(s, mode) =~= group_ranks(group_views(s), mode));
}

/// Sorts the processes of one group stably by key.
fn sort_group_children(g: &mut ProcessGroup, mode: SortMode, asc: bool)
    requires
        group_fits(*old(g)),
    ensures
        group_arranged(final(g)@, old(g)@, mode, asc),
        group_fits(*final(g)),
{
    let ghost before = g.children@;
    sort_stable(&mut g.children, mode, asc);
    proof {
        let perm = choose|perm: Seq<int>|
            #![trigger stable_order(ranks_of(before, mode), perm, asc)]
            stable_order(ranks_of(before, mode), perm, asc) && g.children@.len() == perm.len() && forall|i: int|
                0 <= i < perm.len() ==> g.children@[i] == before[perm[i]];
        lemma_info_ranks(before, mode);
        assert(stable_order(info_ranks(info_views(before), mode), perm, asc));
        assert forall|i: int| 0 <= i < info_views(g.children@).len() implies info_views(g.children@)[i]
            == info_views(before)[perm[i]] by {
            assert(g.children@[i] == before[perm[i]]);
        }
        assert forall|j: int| 0 <= j < g.children@.len() implies (#[trigger] g.children@[j]).rank_fits() by {
            assert(g.children@[j] == before[perm[j]]);
        }
    }
}

/// Sorts groups stably by key, and the processes of each group too.
pub fn sort_group_list(groups: &mut Vec<ProcessGroup>, mode: SortMode, asc: bool)
    requires
        forall|i: int| 0 <= i < old(groups)@.len() ==> group_fits(#[trigger] old(groups)@[i]),
    ensures
        groups_arranged(group_views(final(groups)@), group_views(old(groups)@), mode, asc),
        forall|i: int| 0 <= i < final(groups)@.len() ==> group_fits(#[trigger] final(groups)@[i]),
{
    let ghost orig = groups@;
    proof {
        assert forall|i: int| 0 <= i < orig.len() implies (#[trigger] orig[i]).rank_fits() by {
            assert(group_fits(orig[i]));
        }
    }
    sort_stable(groups, mode, asc);
    let ghost mid = groups@;
    let ghost perm = choose|perm: Seq<int>|
        #![trigger stable_order(ranks_of(orig, mode), perm, asc)]
        stable_order(ranks_of(orig, mode), perm, asc) && mid.len() == perm.len() && forall|i: int|
            0 <= i < perm.len() ==> mid[i] == orig[perm[i]];
    let mut out: Vec<ProcessGroup> = Vec::new();
    let mut k: usize = 0;
    let total = groups.len();
    while groups.len() > 0
        invariant
            total == mid.len(),
            stable_order(ranks_of(orig, mode), perm, asc),
            mid.len() == perm.len(),
            forall|i: int| 0 <= i < perm.len() ==> mid[i] == orig[perm[i]],
            forall|i: int| 0 <= i < orig.len() ==> group_fits(#[trigger] orig[i]),
            k <= mid.len(),
            groups@ == mid.skip(k as int),
            out@.len() == k,
            forall|i: int| 0 <= i < k ==> group_arranged((#[trigger] out@[i])@, mid[i]@, mode, asc),
            forall|i: int| 0 <= i < k ==> group_fits(#[trigger] out@[i]),
        decreases groups@.len(),
    {
        assert(groups@[0] == mid[k as int]);
        let mut g = groups.remove(0);
        assert(groups@ =~= mid.skip(k + 1));
        assert(mid[k as int] == orig[perm[k as int]]);
        sort_group_children(&mut g, mode, asc);
        out.push(g);
        k = k + 1;
    }
    *groups = out;
    proof {
        lemma_group_ranks(orig, mode);
        assert(groups_arranged(group_views(groups@), group_views(orig), mode, asc)) by {
            assert(stable_order(group_ranks(group_views(orig), mode), perm, asc));
            assert forall|i: int| 0 <= i < group_views(groups@).len() implies group_arranged(
                group_views(groups@)[i],
                group_views(orig)[perm[i]],
                mode,
                asc,
            ) by {
                assert(mid[i] == orig[perm[i]]);
            }
        }
    }
}

/// Position `e` comes before position `f` in a stable sort of `keys`:
/// its key comes first, or the keys are equal and `e` came first.
pub open spec fn sorts_before(keys: Seq<Rank>, e: int, f: int, asc: bool) -> bool {
    ranks_before(keys[e], keys[f], asc) || (keys[e] == keys[f] && e < f)
}

/// `sorts_before` is transitive and irreflexive.
proof fn lemma_sorts_before_order(keys: Seq<Rank>, a: int, b: int, c: int, asc: bool)
    ensures
        !sorts_before(keys, a, a, asc),
        sorts_before(keys, a, b, asc) && sorts_before(keys, b, c, asc) ==> sorts_before(keys, a, c, asc),
{
    lemma_rank_lt_total(keys[a], keys[a]);
    lemma_rank_lt_total(keys[a], keys[b]);
    lemma_rank_lt_total(keys[b], keys[c]);
    lemma_rank_lt_total(keys[a], keys[c]);
    if sorts_before(keys, a, b, asc) && sorts_before(keys, b, c, asc) {
        if ranks_before(keys[a], keys[b], asc) && ranks_before(keys[b], keys[c], asc) {
            if asc {
                lemma_rank_lt_transitive(keys[a], keys[b], keys[c]);
            } else {
                lemma_rank_lt_transitive(keys[c], keys[b], keys[a]);
            }
        }
    }
}

/// In a stable order, earlier entries sort before later ones.
proof fn lemma_stable_increasing(keys: Seq<Rank>, perm: Seq<int>, asc: bool, i: int, j: int)
    requires
        stable_order(keys, perm, asc),
        0 <= i < j < perm.len(),
    ensures
        sorts_before(keys, perm[i], perm[j], asc),
{
    assert(!ranks_before(keys[perm[j]], keys[perm[i]], asc));
    assert(keys[perm[i]] == keys[perm[j]] ==> perm[i] < perm[j]);
    lemma_rank_lt_total(keys[perm[i]], keys[perm[j]]);
}

/// A stable order lists every position.
proof fn lemma_stable_onto(keys: Seq<Rank>, perm: Seq<int>, asc: bool, x: int)
    requires
        stable_order(keys, perm, asc),
        0 <= x < keys.len(),
    ensures
        perm.contains(x),
{
    if !perm.contains(x) {
        let squeezed = perm.map_values(|v: int| if v > x { v - 1 } else { v });
        assert forall|k: int| 0 <= k < squeezed.len() implies 0 <= #[trigger] squeezed[k] < keys.len() - 1 by {
            assert(perm[k] != x);
        }
        assert forall|a: int, b: int| 0 <= a < squeezed.len() && 0 <= b < squeezed.len() && a != b implies squeezed[a]
            != squeezed[b] by {
            assert(perm[a] != x);
            assert(perm[b] != x);
            if a < b {
                assert(perm[a] != perm[b]);
            } else {
                assert(perm[b] != perm[a]);
            }
        }
        lemma_distinct_bounded(squeezed, keys.len() - 1);
    }
}

/// There is only one stable order of a sequence of keys.
pub proof fn law_stable_order_unique(keys: Seq<Rank>, p1: Seq<int>, p2: Seq<int>, asc: bool)
    requires
        stable_order(keys, p1, asc),
        stable_order(keys, p2, asc),
    ensures
        p1 == p2,
{
    assert forall|i: int| 0 <= i < p1.len() implies p1[i] == p2[i] by {
        lemma_stable_unique_at(keys, p1, p2, asc, i);
    }
    assert(p1 =~= p2);
}

proof fn lemma_stable_unique_at(keys: Seq<Rank>, p1: Seq<int>, p2: Seq<int>, asc: bool, i: int)
    requires
        stable_order(keys, p1, asc),
        stable_order(keys, p2, asc),
        0 <= i < p1.len(),
    ensures
        p1[i] == p2[i],
    decreases i,
{
    assert forall|k: int| 0 <= k < i implies p1[k] == p2[k] by {
        lemma_stable_unique_at(keys, p1, p2, asc, k);
    }
    lemma_stable_onto(keys, p2, asc, p1[i]);
    let j = choose|j: int| 0 <= j < p2.len() && p2[j] == p1[i];
    lemma_stable_onto(keys, p1, asc, p2[i]);
    let k = choose|k: int| 0 <= k < p1.len() && p1[k] == p2[i];
    if j < i {
        assert(p1[j] == p2[j]);
    } else if j > i {
        if k < i {
            assert(p1[k] == p2[k]);
        } else if k > i {
            lemma_stable_increasing(keys, p1, asc, i, k);
            lemma_stable_increasing(keys, p2, asc, i, j);
            lemma_sorts_before_order(keys, p1[i], p2[i], p1[i], asc);
        }
    }
}

/// Processes stably sorted by key come out in one way only.
pub proof fn law_infos_arranged_unique(o1: Seq<InfoView>, o2: Seq<InfoView>, inp: Seq<InfoView>, mode: SortMode, asc: bool)
    requires
        infos_arranged(o1, inp, mode, asc),
        infos_arranged(o2, inp, mode, asc),
    ensures
        o1 == o2,
{
    let p1 = choose|perm: Seq<int>|
        #![trigger stable_order(info_ranks(inp, mode), perm, asc)]
        stable_order(info_ranks(inp, mode), perm, asc) && o1.len() == perm.len() && forall|i: int|
            0 <= i < o1.len() ==> o1[i] == inp[perm[i]];
    let p2 = choose|perm: Seq<int>|
        #![trigger stable_order(info_ranks(inp, mode), perm, asc)]
        stable_order(info_ranks(inp, mode), perm, asc) && o2.len() == perm.len() && forall|i: int|
            0 <= i < o2.len() ==> o2[i] == inp[perm[i]];
    law_stable_order_unique(info_ranks(inp, mode), p1, p2, asc);
    assert(o1 =~= o2);
}

/// Groups ordered by key, each with its processes ordered by key, come out
/// in one way only: ordering is a function of the groups.
pub proof fn law_groups_arranged_unique(o1: Seq<GroupView>, o2: Seq<GroupView>, inp: Seq<GroupView>, mode: SortMode, asc: bool)
    requires
        groups_arranged(o1, inp, mode, asc),
        groups_arranged(o2, inp, mode, asc),
    ensures
        o1 == o2,
{
    let p1 = choose|perm: Seq<int>|
        #![trigger stable_order(group_ranks(inp, mode), perm, asc)]
        stable_order(group_ranks(inp, mode), perm, asc) && o1.len() == perm.len() && forall|i: int|
            0 <= i < o1.len() ==> group_arranged(o1[i], inp[perm[i]], mode, asc);
    let p2 = choose|perm: Seq<int>|
        #![trigger stable_order(group_ranks(inp, mode), perm, asc)]
        stable_order(group_ranks(inp, mode), perm, asc) && o2.len() == perm.len() && forall|i: int|
            0 <= i < o2.len() ==> group_arranged(o2[i], inp[perm[i]], mode, asc);
    law_stable_order_unique(group_ranks(inp, mode), p1, p2, asc);
    assert forall|i: int| 0 <= i < o1.len() implies o1[i] == o2[i] by {
        assert(group_arranged(o1[i], inp[p1[i]], mode, asc));
        assert(group_arranged(o2[i], inp[p1[i]], mode, asc));
        law_infos_arranged_unique(o1[i].children, o2[i].children, inp[p1[i]].children, mode, asc);
    }
    assert(o1 =~= o2);
}

} // verus!
