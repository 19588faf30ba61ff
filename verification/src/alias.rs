//! The alias table of wires: a finite map from wire to wire, kept sorted by
//! key, and the chain-following notions that connecting wires relies on.

use vstd::prelude::*;

verus! {

/// A finite map from wire to wire, stored as entries in strictly increasing
/// key order (the order in which an ordered map would visit them).
pub struct AliasMap {
    entries: Vec<(u64, u64)>,
}

/// Whether the keys of `s` are strictly increasing.
pub open spec fn keys_increasing(s: Seq<(u64, u64)>) -> bool {
    forall|i: int, j: int| 0 <= i < j < s.len() ==> s[i].0 < s[j].0
}

/// The map that a sequence of entries with distinct keys stands for.
pub open spec fn entries_map(s: Seq<(u64, u64)>) -> Map<u64, u64> {
    Map::new(
        |k: u64| exists|i: int| 0 <= i < s.len() && s[i].0 == k,
        |k: u64| s[choose|i: int| 0 <= i < s.len() && s[i].0 == k].1,
    )
}

/// How many entries of `s` have a value other than `v`.
pub open spec fn count_other(s: Seq<(u64, u64)>, v: u64) -> nat
    decreases s.len(),
{
    if s.len() == 0 {
        0
    } else {
        count_other(s.drop_last(), v) + if s.last().1 != v { 1nat } else { 0nat }
    }
}

proof fn lemma_entries_map_at(s: Seq<(u64, u64)>, i: int)
    requires
        keys_increasing(s),
        0 <= i < s.len(),
    ensures
        entries_map(s).contains_key(s[i].0),
        entries_map(s)[s[i].0] == s[i].1,
{
    let k = s[i].0;
    assert(exists|j: int| 0 <= j < s.len() && s[j].0 == k);
    let j = choose|j: int| 0 <= j < s.len() && s[j].0 == k;
    if j < i {
        assert(s[j].0 < s[i].0);
    } else if i < j {
        assert(s[i].0 < s[j].0);
    }
}

proof fn lemma_count_other_update(s: Seq<(u64, u64)>, i: int, e: (u64, u64), v: u64)
    requires
        0 <= i < s.len(),
    ensures
        count_other(s.update(i, e), v) + (if s[i].1 != v { 1int } else { 0int }) == count_other(s, v)
            + (if e.1 != v { 1int } else { 0int }),
    decreases s.len(),
{
    let t = s.update(i, e);
    if i == s.len() - 1 {
        assert(t.drop_last() =~= s.drop_last());
    } else {
        assert(t.drop_last() =~= s.drop_last().update(i, e));
        lemma_count_other_update(s.drop_last(), i, e, v);
    }
}

/// The map `m` with every value `from` replaced by `to`.
pub open spec fn redirect_map(m: Map<u64, u64>, from: u64, to: u64) -> Map<u64, u64> {
    Map::new(|x: u64| m.contains_key(x), |x: u64| if m[x] == from { to } else { m[x] })
}

/// Whether some wire is mapped to `v`.
pub open spec fn has_value(m: Map<u64, u64>, v: u64) -> bool {
    exists|k: u64| m.contains_key(k) && #[trigger] m[k] == v
}

/// The wire reached from `w` after at most `n` steps along the aliases,
/// stopping early at a wire that is not a key.
pub open spec fn follow(m: Map<u64, u64>, w: u64, n: nat) -> u64
    decreases n,
{
    if n == 0 || !m.contains_key(w) {
        w
    } else {
        follow(m, m[w], (n - 1) as nat)
    }
}

/// Whether following the aliases from `w` ends at a wire that is not a key.
pub open spec fn resolves(m: Map<u64, u64>, w: u64) -> bool {
    exists|n: nat| !m.contains_key(#[trigger] follow(m, w, n))
}

/// The wire at which following the aliases from `w` ends (meaningful when
/// `resolves(m, w)`).
pub open spec fn resolve(m: Map<u64, u64>, w: u64) -> u64 {
    follow(m, w, choose|n: nat| !m.contains_key(#[trigger] follow(m, w, n)))
}

/// The state after `n` rounds of the loop that points a chain at `b`:
/// each round maps the current key to `b` and moves on to the wire it was
/// mapped to before; the second component is `None` once a round found the
/// current wire unmapped.
pub open spec fn link_iter(m: Map<u64, u64>, k: u64, b: u64, n: nat) -> (Map<u64, u64>, Option<u64>)
    decreases n,
{
    if n == 0 {
        (m, Some(k))
    } else {
        let prev = link_iter(m, k, b, (n - 1) as nat);
        match prev.1 {
            None => prev,
            Some(k1) => if prev.0.contains_key(k1) {
                (prev.0.insert(k1, b), Some(prev.0[k1]))
            } else {
                (prev.0.insert(k1, b), None)
            },
        }
    }
}

/// The map once the chain loop from `k` has finished.
pub open spec fn link(m: Map<u64, u64>, k: u64, b: u64) -> Map<u64, u64> {
    link_iter(m, k, b, choose|n: nat| (#[trigger] link_iter(m, k, b, n)).1 is None).0
}

/// The aliases after connecting wire `a` to wire `b`: `b` is followed to the
/// wire `r` where its chain ends, every alias of `a` is pointed at `r`, and
/// then `a` and the chain that started at `a` are pointed at `r`.
pub open spec fn connect_map(m: Map<u64, u64>, a: u64, b: u64) -> Map<u64, u64> {
    let r = resolve(m, b);
    link(redirect_map(m, a, r), a, r)
}

/// Once `follow` reaches an unmapped wire it stays there.
pub proof fn lemma_follow_stable(m: Map<u64, u64>, w: u64, n: nat, n2: nat)
    requires
        n <= n2,
        !m.contains_key(follow(m, w, n)),
    ensures
        follow(m, w, n2) == follow(m, w, n),
    decreases n2,
{
    if n2 > 0 && m.contains_key(w) {
        lemma_follow_stable(m, m[w], (n - 1) as nat, (n2 - 1) as nat);
    }
}

/// One more step of `follow` moves from where `n` steps ended, if that
/// wire is mapped.
pub proof fn lemma_follow_succ(m: Map<u64, u64>, w: u64, n: nat)
    ensures
        follow(m, w, n + 1) == (if m.contains_key(follow(m, w, n)) {
            m[follow(m, w, n)]
        } else {
            follow(m, w, n)
        }),
    decreases n,
{
    if m.contains_key(w) {
        if n > 0 {
            lemma_follow_succ(m, m[w], (n - 1) as nat);
        } else {
            assert(follow(m, m[w], 0) == m[w]);
        }
    }
}

/// Following `n + k` steps is following `n` steps and then `k` more.
pub proof fn lemma_follow_shift(m: Map<u64, u64>, w: u64, n: nat, k: nat)
    ensures
        follow(m, w, n + k) == follow(m, follow(m, w, n), k),
    decreases n,
{
    if n > 0 && m.contains_key(w) {
        lemma_follow_shift(m, m[w], (n - 1) as nat, k);
    }
}

/// A chain that meets itself again, through mapped wires only, stays on
/// mapped wires for ever.
proof fn lemma_cycle_keys(m: Map<u64, u64>, w: u64, i: nat, j: nat, n: nat)
    requires
        i < j,
        follow(m, w, i) == follow(m, w, j),
        forall|k: nat| k <= j ==> m.contains_key(#[trigger] follow(m, w, k)),
    ensures
        m.contains_key(follow(m, w, n)),
    decreases n,
{
    if n > j {
        let t = (n - j) as nat;
        lemma_follow_shift(m, w, j, t);
        lemma_follow_shift(m, w, i, t);
        lemma_cycle_keys(m, w, i, j, i + t);
    }
}

/// A chain ends if and only if it ends within as many steps as there are
/// mapped wires (here: at most the length of a sequence holding every key).
pub proof fn lemma_resolves_within(m: Map<u64, u64>, keys: Seq<u64>, w: u64)
    requires
        forall|k: u64| m.contains_key(k) ==> keys.contains(k),
    ensures
        resolves(m, w) <==> !m.contains_key(follow(m, w, keys.len())),
{
    broadcast use vstd::seq_lib::seq_to_set_is_finite;
    let d = keys.len();
    if m.contains_key(follow(m, w, d)) {
        assert forall|k: nat| k <= d implies m.contains_key(#[trigger] follow(m, w, k)) by {
            if !m.contains_key(follow(m, w, k)) {
                lemma_follow_stable(m, w, k, d);
            }
        }
        let s = Seq::new((d + 1) as nat, |k: int| follow(m, w, k as nat));
        assert(s.to_set().subset_of(keys.to_set())) by {
            assert forall|x: u64| s.to_set().contains(x) implies keys.to_set().contains(x) by {
                let k = choose|k: int| 0 <= k < s.len() && s[k] == x;
                assert(m.contains_key(follow(m, w, k as nat)));
            }
        }
        keys.lemma_cardinality_of_set();
        vstd::set_lib::lemma_len_subset(s.to_set(), keys.to_set());
        if s.no_duplicates() {
            s.unique_seq_to_set();
            assert(false);
        }
        let (i, j) = choose|i: int, j: int| 0 <= i < s.len() && 0 <= j < s.len() && i != j && s[i] == s[j];
        let (a, b) = if i < j { (i as nat, j as nat) } else { (j as nat, i as nat) };
        assert(follow(m, w, a) == follow(m, w, b));
        assert forall|n: nat| m.contains_key(#[trigger] follow(m, w, n)) by {
            lemma_cycle_keys(m, w, a, b, n);
        }
    }
}

/// A wire that resolves ends at `resolve`, which is unmapped, whatever
/// number of steps reached an unmapped wire.
pub proof fn lemma_resolve_unique(m: Map<u64, u64>, w: u64, n: nat)
    requires
        !m.contains_key(follow(m, w, n)),
    ensures
        resolves(m, w),
        resolve(m, w) == follow(m, w, n),
        !m.contains_key(resolve(m, w)),
{
    let c = choose|c: nat| !m.contains_key(#[trigger] follow(m, w, c));
    if c <= n {
        lemma_follow_stable(m, w, c, n);
    } else {
        lemma_follow_stable(m, w, n, c);
    }
}

/// Once the chain loop has stopped, further rounds change nothing.
pub proof fn lemma_link_stable(m: Map<u64, u64>, k: u64, b: u64, n: nat, n2: nat)
    requires
        n <= n2,
        link_iter(m, k, b, n).1 is None,
    ensures
        link_iter(m, k, b, n2) == link_iter(m, k, b, n),
    decreases n2,
{
    if n2 > n {
        lemma_link_stable(m, k, b, n, (n2 - 1) as nat);
    }
}

/// The finished chain loop gives `link`, whatever round it stopped at.
pub proof fn lemma_link_unique(m: Map<u64, u64>, k: u64, b: u64, n: nat)
    requires
        link_iter(m, k, b, n).1 is None,
    ensures
        link(m, k, b) == link_iter(m, k, b, n).0,
{
    let c = choose|c: nat| (#[trigger] link_iter(m, k, b, c)).1 is None;
    if c <= n {
        lemma_link_stable(m, k, b, c, n);
    } else {
        lemma_link_stable(m, k, b, n, c);
    }
}

/// Connecting two unmapped wires points every alias of `a` at `b` and maps
/// `a` to `b`.
pub proof fn lemma_connect_unmapped(m: Map<u64, u64>, a: u64, b: u64)
    requires
        !m.contains_key(a),
        !m.contains_key(b),
    ensures
        connect_map(m, a, b) == redirect_map(m, a, b).insert(a, b),
{
    assert(follow(m, b, 0) == b);
    lemma_resolve_unique(m, b, 0);
    let m1 = redirect_map(m, a, b);
    assert(!m1.contains_key(a));
    assert(link_iter(m1, a, b, 0) == (m1, Some(a)));
    assert(link_iter(m1, a, b, 1) == (m1.insert(a, b), None::<u64>));
    lemma_link_unique(m1, a, b, 1);
}

/// Whether every alias points directly at a wire that is not aliased itself:
/// every chain then ends after at most one step.
pub open spec fn flat(m: Map<u64, u64>) -> bool {
    forall|k: u64| #[trigger] m.contains_key(k) ==> !m.contains_key(m[k])
}

/// Connecting two different unaliased wires keeps the aliases flat.
pub proof fn lemma_connect_flat(m: Map<u64, u64>, a: u64, b: u64)
    requires
        flat(m),
        !m.contains_key(a),
        !m.contains_key(b),
        a != b,
    ensures
        flat(connect_map(m, a, b)),
{
    lemma_connect_unmapped(m, a, b);
    let n = connect_map(m, a, b);
    assert forall|k: u64| #[trigger] n.contains_key(k) implies !n.contains_key(n[k]) by {
        if k != a {
            assert(m.contains_key(k));
            if m[k] != a {
                assert(!m.contains_key(m[k]));
            }
        }
    }
}

/// Whether `x` is among the first `n` wires of the chain from `a`.
spec fn on_chain(m: Map<u64, u64>, a: u64, x: u64, n: nat) -> bool {
    exists|i: nat| i < n && #[trigger] follow(m, a, i) == x
}

/// `m1` with the first `n` wires of the chain from `a` (followed in `m`)
/// mapped to `r`, in chain order.
spec fn paint(m1: Map<u64, u64>, m: Map<u64, u64>, a: u64, r: u64, n: nat) -> Map<u64, u64>
    decreases n,
{
    if n == 0 {
        m1
    } else {
        paint(m1, m, a, r, (n - 1) as nat).insert(follow(m, a, (n - 1) as nat), r)
    }
}

/// Some number of steps reaches an unmapped wire before any fewer steps do.
proof fn lemma_first_unmapped(m: Map<u64, u64>, w: u64, n: nat) -> (k: nat)
    requires
        !m.contains_key(follow(m, w, n)),
    ensures
        k <= n,
        !m.contains_key(follow(m, w, k)),
        forall|i: nat| i < k ==> m.contains_key(#[trigger] follow(m, w, i)),
    decreases n,
{
    if exists|i: nat| i < n && !m.contains_key(#[trigger] follow(m, w, i)) {
        let i = choose|i: nat| i < n && !m.contains_key(#[trigger] follow(m, w, i));
        lemma_first_unmapped(m, w, i)
    } else {
        n
    }
}

/// Up to its first unmapped wire, a chain visits no wire twice.
proof fn lemma_chain_distinct(m: Map<u64, u64>, a: u64, k: nat, i: nat, j: nat)
    requires
        !m.contains_key(follow(m, a, k)),
        forall|t: nat| t < k ==> m.contains_key(#[trigger] follow(m, a, t)),
        i < j <= k,
    ensures
        follow(m, a, i) != follow(m, a, j),
{
    if follow(m, a, i) == follow(m, a, j) {
        let t = (k - j) as nat;
        lemma_follow_shift(m, a, i, t);
        lemma_follow_shift(m, a, j, t);
        assert(m.contains_key(follow(m, a, i + t)));
    }
}

/// What `paint` maps a wire to.
proof fn lemma_paint_at(m1: Map<u64, u64>, m: Map<u64, u64>, a: u64, r: u64, n: nat, x: u64)
    ensures
        paint(m1, m, a, r, n).contains_key(x) == (m1.contains_key(x) || on_chain(m, a, x, n)),
        paint(m1, m, a, r, n).contains_key(x) ==> paint(m1, m, a, r, n)[x] == (if on_chain(m, a, x, n) {
            r
        } else {
            m1[x]
        }),
    decreases n,
{
    if n > 0 {
        let n1 = (n - 1) as nat;
        lemma_paint_at(m1, m, a, r, n1, x);
        if on_chain(m, a, x, n) && x != follow(m, a, n1) {
            let i = choose|i: nat| i < n && #[trigger] follow(m, a, i) == x;
            assert(on_chain(m, a, x, n1));
        }
        if x == follow(m, a, n1) {
            assert(on_chain(m, a, x, n));
        }
        if on_chain(m, a, x, n1) {
            let i = choose|i: nat| i < n1 && #[trigger] follow(m, a, i) == x;
            assert(on_chain(m, a, x, n));
        }
    }
}

/// Before it reaches its first unmapped wire, the chain loop has painted
/// the wires it passed and stands at the next one.
proof fn lemma_link_paint(m: Map<u64, u64>, a: u64, r: u64, k: nat, n: nat)
    requires
        !m.contains_key(follow(m, a, k)),
        forall|t: nat| t < k ==> m.contains_key(#[trigger] follow(m, a, t)),
        n <= k,
    ensures
        link_iter(redirect_map(m, a, r), a, r, n) == (paint(redirect_map(m, a, r), m, a, r, n), Some(follow(m, a, n))),
    decreases n,
{
    let m1 = redirect_map(m, a, r);
    if n > 0 {
        let n1 = (n - 1) as nat;
        lemma_link_paint(m, a, r, k, n1);
        let c = follow(m, a, n1);
        lemma_paint_at(m1, m, a, r, n1, c);
        if on_chain(m, a, c, n1) {
            let i = choose|i: nat| i < n1 && #[trigger] follow(m, a, i) == c;
            lemma_chain_distinct(m, a, k, i, n1);
        }
        assert(m.contains_key(c));
        lemma_follow_succ(m, a, n1);
        lemma_chain_distinct(m, a, k, 0, n);
        assert(follow(m, a, 0) == a);
    }
}

/// Connecting two wires from different classes merges the classes: every
/// wire whose chain of aliases ended keeps ending, and it ends where it
/// ended before, except that the class of `a` now ends where `b` ended.
/// In particular `a` and `b` now end at the same wire.
pub proof fn lemma_connect_merges(m: Map<u64, u64>, a: u64, b: u64, w: u64)
    requires
        resolves(m, a),
        resolves(m, b),
        resolves(m, w),
        resolve(m, a) != resolve(m, b),
    ensures
        resolves(connect_map(m, a, b), w),
        resolve(connect_map(m, a, b), w) == (if resolve(m, w) == resolve(m, a) {
            resolve(m, b)
        } else {
            resolve(m, w)
        }),
{
    let k = lemma_connect_paints(m, a, b);
    let nw = choose|n: nat| !m.contains_key(#[trigger] follow(m, w, n));
    lemma_merge_at(m, a, resolve(m, b), k, w, nw);
}

/// Connecting `a` to `b`, when both chains end, paints the chain from `a`
/// (up to its end, `k` steps on) onto where `b` ends, after redirecting.
proof fn lemma_connect_paints(m: Map<u64, u64>, a: u64, b: u64) -> (k: nat)
    requires
        resolves(m, a),
        resolves(m, b),
        resolve(m, a) != resolve(m, b),
    ensures
        !m.contains_key(resolve(m, b)),
        !m.contains_key(follow(m, a, k)),
        forall|t: nat| t < k ==> m.contains_key(#[trigger] follow(m, a, t)),
        resolve(m, a) == follow(m, a, k),
        connect_map(m, a, b) == paint(redirect_map(m, a, resolve(m, b)), m, a, resolve(m, b), k + 1),
{
    let r = resolve(m, b);
    let nb = choose|n: nat| !m.contains_key(#[trigger] follow(m, b, n));
    lemma_resolve_unique(m, b, nb);
    let na = choose|n: nat| !m.contains_key(#[trigger] follow(m, a, n));
    let k = lemma_first_unmapped(m, a, na);
    lemma_resolve_unique(m, a, k);
    let m1 = redirect_map(m, a, r);
    lemma_link_paint(m, a, r, k, k);
    let y = follow(m, a, k);
    lemma_paint_at(m1, m, a, r, k, y);
    if on_chain(m, a, y, k) {
        let i = choose|i: nat| i < k && #[trigger] follow(m, a, i) == y;
        assert(m.contains_key(follow(m, a, i)));
    }
    assert(link_iter(m1, a, r, k + 1) == (paint(m1, m, a, r, k + 1), None::<u64>));
    lemma_link_unique(m1, a, r, k + 1);
    k
}

/// Connecting, in a map where every chain of aliases ends, two wires whose
/// chains end at different wires: afterwards `a` is mapped straight to the
/// wire where the chain from `b` ended, and every chain still ends (no
/// cycle appears).
pub proof fn lemma_connect_result(m: Map<u64, u64>, a: u64, b: u64)
    requires
        forall|w: u64| resolves(m, w),
        resolve(m, a) != resolve(m, b),
    ensures
        connect_map(m, a, b).contains_key(a),
        connect_map(m, a, b)[a] == resolve(m, b),
        forall|w: u64| resolves(connect_map(m, a, b), w),
{
    let r = resolve(m, b);
    let k = lemma_connect_paints(m, a, b);
    assert(follow(m, a, 0) == a);
    lemma_paint_at(redirect_map(m, a, r), m, a, r, k + 1, a);
    assert(on_chain(m, a, a, k + 1));
    assert forall|w: u64| resolves(connect_map(m, a, b), w) by {
        lemma_connect_merges(m, a, b, w);
    }
}

/// The per-wire induction behind `lemma_connect_merges`, on the number of
/// steps after which the chain from `w` ends.
proof fn lemma_merge_at(m: Map<u64, u64>, a: u64, r: u64, k: nat, w: u64, n: nat)
    requires
        !m.contains_key(r),
        !m.contains_key(follow(m, a, k)),
        forall|t: nat| t < k ==> m.contains_key(#[trigger] follow(m, a, t)),
        r != follow(m, a, k),
        !m.contains_key(follow(m, w, n)),
    ensures
        resolves(paint(redirect_map(m, a, r), m, a, r, k + 1), w),
        resolve(paint(redirect_map(m, a, r), m, a, r, k + 1), w) == (if resolve(m, w) == follow(m, a, k) {
            r
        } else {
            resolve(m, w)
        }),
    decreases n,
{
    let m1 = redirect_map(m, a, r);
    let m2 = paint(m1, m, a, r, k + 1);
    let y = follow(m, a, k);
    lemma_resolve_unique(m, w, n);
    lemma_resolve_unique(m, a, k);
    lemma_paint_at(m1, m, a, r, k + 1, r);
    if on_chain(m, a, r, k + 1) {
        let i = choose|i: nat| i < k + 1 && #[trigger] follow(m, a, i) == r;
        if i < k {
            assert(m.contains_key(follow(m, a, i)));
        }
    }
    assert(!m2.contains_key(r));
    lemma_paint_at(m1, m, a, r, k + 1, w);
    if on_chain(m, a, w, k + 1) {
        let i = choose|i: nat| i < k + 1 && #[trigger] follow(m, a, i) == w;
        assert(m2.contains_key(w) && m2[w] == r);
        assert(follow(m2, r, 0) == r);
        assert(follow(m2, w, 1) == r);
        lemma_resolve_unique(m2, w, 1);
        lemma_follow_shift(m, a, i, (k - i) as nat);
        lemma_resolve_unique(m, w, (k - i) as nat);
    } else if !m.contains_key(w) {
        assert(follow(m, w, 0) == w);
        assert(follow(m2, w, 0) == w);
        lemma_resolve_unique(m2, w, 0);
        lemma_resolve_unique(m, w, 0);
        assert(follow(m, a, k) == y);
        assert(on_chain(m, a, y, k + 1));
    } else if m[w] == a {
        assert(m1.contains_key(w) && m1[w] == r);
        assert(m2.contains_key(w) && m2[w] == r);
        assert(follow(m2, r, 0) == r);
        assert(follow(m2, w, 1) == r);
        lemma_resolve_unique(m2, w, 1);
        lemma_follow_shift(m, w, 1, k);
        assert(follow(m, a, 0) == a);
        assert(follow(m, w, 1) == a);
        lemma_resolve_unique(m, w, 1 + k);
    } else {
        let v = m[w];
        assert(n > 0);
        assert(follow(m, v, (n - 1) as nat) == follow(m, w, n));
        lemma_merge_at(m, a, r, k, v, (n - 1) as nat);
        let j = choose|j: nat| !m2.contains_key(#[trigger] follow(m2, v, j));
        lemma_resolve_unique(m2, v, j);
        assert(follow(m2, w, j + 1) == follow(m2, v, j));
        lemma_resolve_unique(m2, w, j + 1);
        lemma_resolve_unique(m, v, (n - 1) as nat);
    }
}

impl View for AliasMap {
    type V = Map<u64, u64>;

    closed spec fn view(&self) -> Map<u64, u64> {
        entries_map(self.entries@)
    }
}

impl AliasMap {
    /// The well-formedness of the table: keys strictly increasing.
    pub closed spec fn wf(&self) -> bool {
        keys_increasing(self.entries@)
    }

    /// The entries in key order.
    pub closed spec fn entries(&self) -> Seq<(u64, u64)> {
        self.entries@
    }

    /// How many entries map to a wire other than `v`.
    pub closed spec fn count_other(&self, v: u64) -> nat {
        count_other(self.entries@, v)
    }

    /// The empty table.
    pub fn new() -> (r: AliasMap)
        ensures
            r.wf(),
            r@ == Map::<u64, u64>::empty(),
            r.entries() == Seq::<(u64, u64)>::empty(),
    {
        let r = AliasMap { entries: Vec::new() };
        assert(r@ =~= Map::<u64, u64>::empty());
        r
    }

    /// The number of mapped wires.
    pub fn len(&self) -> (r: usize)
        requires
            self.wf(),
        ensures
            r == self.entries().len(),
            r == self@.dom().len(),
    {
        proof {
            let s = self.entries@;
            let keys = s.map_values(|e: (u64, u64)| e.0);
            assert(keys.no_duplicates()) by {
                assert forall|i: int, j: int| 0 <= i < keys.len() && 0 <= j < keys.len() && i != j implies keys[i]
                    != keys[j] by {
                    if i < j {
                        assert(s[i].0 < s[j].0);
                    } else {
                        assert(s[j].0 < s[i].0);
                    }
                }
            }
            keys.unique_seq_to_set();
            assert(self@.dom() =~= keys.to_set()) by {
                assert forall|k: u64| self@.dom().contains(k) implies keys.to_set().contains(k) by {
                    let i = choose|i: int| 0 <= i < s.len() && s[i].0 == k;
                    assert(keys[i] == k);
                }
                assert forall|k: u64| keys.to_set().contains(k) implies self@.dom().contains(k) by {
                    let i = choose|i: int| 0 <= i < keys.len() && keys[i] == k;
                    assert(s[i].0 == k);
                }
            }
        }
        self.entries.len()
    }

    /// The position of the first entry whose key is at least `k`.
    fn position(&self, k: u64) -> (p: usize)
        requires
            self.wf(),
        ensures
            p <= self.entries().len(),
            forall|i: int| 0 <= i < p ==> self.entries()[i].0 < k,
            p < self.entries().len() ==> self.entries()[p as int].0 >= k,
    {
        let mut p: usize = 0;
        while p < self.entries.len() && self.entries[p].0 < k
            invariant
                p <= self.entries@.len(),
                forall|i: int| 0 <= i < p ==> self.entries@[i].0 < k,
            decreases self.entries@.len() - p,
        {
            p = p + 1;
        }
        p
    }

    /// What the table maps `k` to, if anything.
    pub fn get(&self, k: u64) -> (r: Option<u64>)
        requires
            self.wf(),
        ensures
            r == (if self@.contains_key(k) { Some(self@[k]) } else { None::<u64> }),
    {
        let p = self.position(k);
        if p < self.entries.len() && self.entries[p].0 == k {
            proof {
                lemma_entries_map_at(self.entries@, p as int);
            }
            Some(self.entries[p].1)
        } else {
            proof {
                if self@.contains_key(k) {
                    let j = choose|j: int| 0 <= j < self.entries@.len() && self.entries@[j].0 == k;
                    if j >= p {
                        if j > p {
                            assert(self.entries@[p as int].0 < self.entries@[j].0);
                        }
                    }
                }
            }
            None
        }
    }

    /// Whether following the aliases from `w` ends (see `resolves`).
    pub fn chain_ends(&self, w: u64) -> (r: bool)
        requires
            self.wf(),
        ensures
            r == resolves(self@, w),
    {
        let n = self.entries.len();
        let mut cur = w;
        let mut i: usize = 0;
        while i < n
            invariant
                self.wf(),
                i <= n,
                n == self.entries@.len(),
                cur == follow(self@, w, i as nat),
            decreases n - i,
        {
            match self.get(cur) {
                Some(next) => {
                    proof {
                        lemma_follow_succ(self@, w, i as nat);
                    }
                    cur = next;
                },
                None => {
                    proof {
                        lemma_resolve_unique(self@, w, i as nat);
                    }
                    return true;
                },
            }
            i = i + 1;
        }
        proof {
            let keys = self.entries@.map_values(|e: (u64, u64)| e.0);
            assert forall|k: u64| self@.contains_key(k) implies keys.contains(k) by {
                let j = choose|j: int| 0 <= j < self.entries@.len() && self.entries@[j].0 == k;
                assert(keys[j] == k);
            }
            lemma_resolves_within(self@, keys, w);
        }
        self.get(cur).is_none()
    }

    /// Makes every entry that maps to `from` map to `to` instead.
    pub fn redirect(&mut self, from: u64, to: u64)
        requires
            old(self).wf(),
        ensures
            final(self).wf(),
            final(self)@ == redirect_map(old(self)@, from, to),
    {
        let ghost s = self.entries@;
        let n = self.entries.len();
        let mut i: usize = 0;
        while i < n
            invariant
                n == s.len(),
                i <= n,
                self.entries@.len() == n,
                keys_increasing(s),
                forall|j: int| 0 <= j < n ==> #[trigger] self.entries@[j].0 == s[j].0,
                forall|j: int| 0 <= j < i ==> #[trigger] self.entries@[j].1 == (if s[j].1 == from { to } else { s[j].1 }),
                forall|j: int| i <= j < n ==> #[trigger] self.entries@[j].1 == s[j].1,
            decreases n - i,
        {
            let (k, v) = self.entries[i];
            if v == from {
                self.entries.set(i, (k, to));
            }
            i = i + 1;
        }
        proof {
            let t = self.entries@;
            assert(keys_increasing(t));
            assert forall|x: u64| #[trigger] self@.contains_key(x) <==> old(self)@.contains_key(x) by {
                if old(self)@.contains_key(x) {
                    let i = choose|i: int| 0 <= i < s.len() && s[i].0 == x;
                    assert(t[i].0 == x);
                }
                if self@.contains_key(x) {
                    let i = choose|i: int| 0 <= i < t.len() && t[i].0 == x;
                    assert(s[i].0 == x);
                }
            }
            assert forall|x: u64| #[trigger] self@.contains_key(x) implies self@[x] == redirect_map(old(self)@, from, to)[x] by {
                let i = choose|i: int| 0 <= i < t.len() && t[i].0 == x;
                lemma_entries_map_at(t, i);
                lemma_entries_map_at(s, i);
            }
            assert(self@ =~= redirect_map(old(self)@, from, to));
        }
    }

    /// Maps `k` to `v` and gives back what `k` was mapped to before.
    pub fn insert(&mut self, k: u64, v: u64) -> (r: Option<u64>)
        requires
            old(self).wf(),
        ensures
            final(self).wf(),
            final(self)@ == old(self)@.insert(k, v),
            r == (if old(self)@.contains_key(k) { Some(old(self)@[k]) } else { None::<u64> }),
            r is Some ==> final(self).count_other(v) + (if r->0 != v { 1int } else { 0int })
                == old(self).count_other(v),
    {
        let p = self.position(k);
        let ghost s = self.entries@;
        if p < self.entries.len() && self.entries[p].0 == k {
            let old_v = self.entries[p].1;
            proof {
                lemma_entries_map_at(s, p as int);
                lemma_count_other_update(s, p as int, (k, v), v);
            }
            self.entries.set(p, (k, v));
            proof {
                let t = self.entries@;
                assert(t == s.update(p as int, (k, v)));
                assert forall|i: int, j: int| 0 <= i < j < t.len() implies t[i].0 < t[j].0 by {
                    assert(s[i].0 < s[j].0);
                }
                assert forall|x: u64| #[trigger] self@.contains_key(x) <==> (x == k || old(self)@.contains_key(x)) by {
                    if x == k {
                        lemma_entries_map_at(t, p as int);
                    } else if old(self)@.contains_key(x) {
                        let i = choose|i: int| 0 <= i < s.len() && s[i].0 == x;
                        assert(t[i].0 == x);
                    }
                }
                assert forall|x: u64| #[trigger] self@.contains_key(x) implies self@[x] == (if x == k { v } else { old(self)@[x] }) by {
                    let i = choose|i: int| 0 <= i < t.len() && t[i].0 == x;
                    lemma_entries_map_at(t, i);
                    lemma_entries_map_at(s, i);
                }
                assert(self@ =~= old(self)@.insert(k, v));
            }
            Some(old_v)
        } else {
            proof {
                if old(self)@.contains_key(k) {
                    let j = choose|j: int| 0 <= j < s.len() && s[j].0 == k;
                    if j > p {
                        assert(s[p as int].0 < s[j].0);
                    }
                }
            }
            self.entries.insert(p, (k, v));
            proof {
                let t = self.entries@;
                assert(t == s.insert(p as int, (k, v)));
                assert forall|i: int, j: int| 0 <= i < j < t.len() implies t[i].0 < t[j].0 by {
                    if j < p {
                        assert(s[i].0 < s[j].0);
                    } else if j == p {
                    } else if i < p {
                        assert(s[i].0 < k);
                        assert(k <= s[j - 1].0);
                    } else if i == p {
                        assert(s[p as int].0 <= s[j - 1].0 || j - 1 == p);
                    } else {
                        assert(s[i - 1].0 < s[j - 1].0);
                    }
                }
                assert forall|x: u64| #[trigger] self@.contains_key(x) <==> (x == k || old(self)@.contains_key(x)) by {
                    if x == k {
                        lemma_entries_map_at(t, p as int);
                    } else if old(self)@.contains_key(x) {
                        let i = choose|i: int| 0 <= i < s.len() && s[i].0 == x;
                        if i < p {
                            assert(t[i].0 == x);
                        } else {
                            assert(t[i + 1].0 == x);
                        }
                    } else if self@.contains_key(x) {
                        let i = choose|i: int| 0 <= i < t.len() && t[i].0 == x;
                        if i < p {
                            assert(s[i].0 == x);
                        } else if i > p {
                            assert(s[i - 1].0 == x);
                        }
                    }
                }
                assert forall|x: u64| #[trigger] self@.contains_key(x) implies self@[x] == (if x == k { v } else { old(self)@[x] }) by {
                    let i = choose|i: int| 0 <= i < t.len() && t[i].0 == x;
                    lemma_entries_map_at(t, i);
                    if i < p {
                        lemma_entries_map_at(s, i);
                    } else if i > p {
                        lemma_entries_map_at(s, i - 1);
                    }
                }
                assert(self@ =~= old(self)@.insert(k, v));
            }
            None
        }
    }
}

} // verus!
