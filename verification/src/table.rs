//! Tables keyed by names, kept in the order of their names (the order in
//! which an ordered map keyed by strings would visit them).

use vstd::prelude::*;

verus! {

/// Strict lexicographic order on names, comparing characters by code point
/// (the order of strings, since UTF-8 preserves code point order).
pub open spec fn name_lt(a: Seq<char>, b: Seq<char>) -> bool
    decreases a.len(),
{
    if a.len() == 0 {
        b.len() > 0
    } else if b.len() == 0 {
        false
    } else if a[0] != b[0] {
        (a[0] as int) < (b[0] as int)
    } else {
        name_lt(a.drop_first(), b.drop_first())
    }
}

/// The name order is irreflexive.
pub proof fn lemma_name_lt_irrefl(a: Seq<char>)
    ensures
        !name_lt(a, a),
    decreases a.len(),
{
    if a.len() > 0 {
        lemma_name_lt_irrefl(a.drop_first());
    }
}

/// Two different names are ordered one way or the other, and not both ways.
pub proof fn lemma_name_lt_total(a: Seq<char>, b: Seq<char>)
    ensures
        a != b ==> name_lt(a, b) || name_lt(b, a),
        !(name_lt(a, b) && name_lt(b, a)),
        name_lt(a, b) ==> a != b,
    decreases a.len(),
{
    if a.len() == 0 {
        if b.len() == 0 {
            assert(a =~= b);
        }
    } else if b.len() > 0 {
        if a[0] != b[0] {
            assert((a[0] as int) != (b[0] as int));
        }
        if a[0] == b[0] {
            lemma_name_lt_total(a.drop_first(), b.drop_first());
            if a.drop_first() == b.drop_first() {
                assert(a =~= seq![a[0]] + a.drop_first());
                assert(b =~= seq![b[0]] + b.drop_first());
            }
        }
        if name_lt(a, b) {
            lemma_name_lt_irrefl(a);
        }
    }
}

/// The name order is transitive.
pub proof fn lemma_name_lt_trans(a: Seq<char>, b: Seq<char>, c: Seq<char>)
    requires
        name_lt(a, b),
        name_lt(b, c),
    ensures
        name_lt(a, c),
    decreases a.len(),
{
    if a.len() > 0 && b.len() > 0 && c.len() > 0 {
        if a[0] == b[0] && b[0] == c[0] {
            lemma_name_lt_trans(a.drop_first(), b.drop_first(), c.drop_first());
        }
    }
}

/// Whether the names of `s` are strictly increasing.
pub open spec fn names_increasing<V>(s: Seq<(Seq<char>, V)>) -> bool {
    forall|i: int, j: int| 0 <= i < j < s.len() ==> name_lt(s[i].0, s[j].0)
}

/// The index of the entry named `name` in a table, if there is one.
pub open spec fn has_name<V>(s: Seq<(Seq<char>, V)>, name: Seq<char>) -> bool {
    exists|i: int| 0 <= i < s.len() && s[i].0 == name
}

/// Whether `p` is where `name` belongs among the names of `s`.
pub open spec fn insert_pos<V>(s: Seq<(Seq<char>, V)>, name: Seq<char>, p: int) -> bool {
    &&& 0 <= p <= s.len()
    &&& forall|i: int| 0 <= i < p ==> name_lt(#[trigger] s[i].0, name)
    &&& forall|i: int| p <= i < s.len() ==> name_lt(name, #[trigger] s[i].0)
}

/// The position of the entry named `name` (meaningful when `has_name`).
pub open spec fn name_index<V>(s: Seq<(Seq<char>, V)>, name: Seq<char>) -> int {
    choose|i: int| 0 <= i < s.len() && s[i].0 == name
}

/// The value that the table `s` gives `name`, if any.
pub open spec fn table_get<V>(s: Seq<(Seq<char>, V)>, name: Seq<char>) -> Option<V> {
    if has_name(s, name) {
        Some(s[name_index(s, name)].1)
    } else {
        None
    }
}

/// The table `s` with `name` given the value `v`: the entry of that name is
/// replaced, or a new entry is put where the name belongs.
pub open spec fn table_set<V>(s: Seq<(Seq<char>, V)>, name: Seq<char>, v: V) -> Seq<(Seq<char>, V)> {
    if has_name(s, name) {
        s.update(name_index(s, name), (name, v))
    } else {
        s.insert(choose|p: int| insert_pos(s, name, p), (name, v))
    }
}

/// In a table with increasing names, the entry with a given name is unique.
pub proof fn lemma_name_index_unique<V>(s: Seq<(Seq<char>, V)>, i: int, j: int)
    requires
        names_increasing(s),
        0 <= i < s.len(),
        0 <= j < s.len(),
        s[i].0 == s[j].0,
    ensures
        i == j,
{
    if i < j {
        lemma_name_lt_irrefl(s[i].0);
    } else if j < i {
        lemma_name_lt_irrefl(s[i].0);
    }
}

/// In a table with increasing names, where a new name belongs is unique.
pub proof fn lemma_insert_pos_unique<V>(s: Seq<(Seq<char>, V)>, name: Seq<char>, p: int, q: int)
    requires
        insert_pos(s, name, p),
        insert_pos(s, name, q),
    ensures
        p == q,
{
    if p < q {
        assert(name_lt(s[p].0, name));
        assert(name_lt(name, s[p].0));
        lemma_name_lt_total(s[p].0, name);
    } else if q < p {
        assert(name_lt(s[q].0, name));
        assert(name_lt(name, s[q].0));
        lemma_name_lt_total(s[q].0, name);
    }
}

/// A name that a table with increasing names lacks has a place among them.
pub(crate) proof fn lemma_insert_pos_exists<V>(s: Seq<(Seq<char>, V)>, name: Seq<char>)
    requires
        names_increasing(s),
        !has_name(s, name),
    ensures
        exists|p: int| insert_pos(s, name, p),
    decreases s.len(),
{
    if s.len() == 0 {
        assert(insert_pos(s, name, 0));
    } else {
        let t = s.drop_last();
        let n = s.len() - 1;
        assert forall|i: int| 0 <= i < t.len() implies t[i].0 != name by {
            assert(s[i] == t[i]);
        }
        lemma_insert_pos_exists(t, name);
        let q = choose|q: int| insert_pos(t, name, q);
        assert(s[n].0 != name);
        lemma_name_lt_total(s[n].0, name);
        if name_lt(s[n].0, name) {
            assert forall|i: int| 0 <= i < s.len() implies name_lt(#[trigger] s[i].0, name) by {
                if i < n {
                    lemma_name_lt_trans(s[i].0, s[n].0, name);
                }
            }
            assert(insert_pos(s, name, s.len() as int));
        } else {
            assert forall|i: int| 0 <= i < q implies name_lt(#[trigger] s[i].0, name) by {
                assert(s[i] == t[i]);
            }
            assert forall|i: int| q <= i < s.len() implies name_lt(name, #[trigger] s[i].0) by {
                if i < n {
                    assert(s[i] == t[i]);
                }
            }
            assert(insert_pos(s, name, q));
        }
    }
}

/// Every entry of a table after `table_set` is the new entry or an entry of
/// the table before.
pub proof fn lemma_table_set_entries<V>(s: Seq<(Seq<char>, V)>, name: Seq<char>, v: V, i: int)
    requires
        names_increasing(s),
        0 <= i < table_set(s, name, v).len(),
    ensures
        table_set(s, name, v)[i] == (name, v) || (exists|j: int| 0 <= j < s.len() && s[j] == table_set(s, name, v)[i]),
{
    let t = table_set(s, name, v);
    if has_name(s, name) {
        if i != name_index(s, name) {
            assert(s[i] == t[i]);
        }
    } else {
        lemma_insert_pos_exists(s, name);
        let p = choose|p: int| insert_pos(s, name, p);
        if i < p {
            assert(s[i] == t[i]);
        } else if i > p {
            assert(s[i - 1] == t[i]);
        }
    }
}

/// The table-of-names law: setting a name keeps the names increasing,
/// reading that name back gives the value set, and every other name reads
/// as before.
pub proof fn lemma_table_set_get<V>(s: Seq<(Seq<char>, V)>, name: Seq<char>, v: V, other: Seq<char>)
    requires
        names_increasing(s),
    ensures
        names_increasing(table_set(s, name, v)),
        table_get(table_set(s, name, v), name) == Some(v),
        other != name ==> table_get(table_set(s, name, v), other) == table_get(s, other),
{
    let t = table_set(s, name, v);
    if has_name(s, name) {
        let i = name_index(s, name);
        assert(t == s.update(i, (name, v)));
        assert forall|x: int, y: int| 0 <= x < y < t.len() implies name_lt(t[x].0, t[y].0) by {
            assert(t[x].0 == s[x].0);
            assert(t[y].0 == s[y].0);
        }
        assert(t[i].0 == name);
        let j = name_index(t, name);
        lemma_name_index_unique(t, i, j);
        if other != name {
            if has_name(s, other) {
                let a = name_index(s, other);
                assert(t[a].0 == other);
                let b = name_index(t, other);
                lemma_name_index_unique(t, a, b);
            }
            if has_name(t, other) {
                let b = name_index(t, other);
                assert(s[b].0 == other);
            }
        }
    } else {
        lemma_insert_pos_exists(s, name);
        let p = choose|p: int| insert_pos(s, name, p);
        assert(t == s.insert(p, (name, v)));
        assert forall|x: int, y: int| 0 <= x < y < t.len() implies name_lt(t[x].0, t[y].0) by {
            if y < p {
            } else if y == p {
                assert(name_lt(s[x].0, name));
            } else if x < p {
                assert(name_lt(s[x].0, name));
                assert(name_lt(name, s[y - 1].0));
                lemma_name_lt_trans(s[x].0, name, s[y - 1].0);
            } else if x == p {
                assert(name_lt(name, s[y - 1].0));
            } else {
                assert(name_lt(s[x - 1].0, s[y - 1].0));
            }
        }
        assert(t[p].0 == name);
        let j = name_index(t, name);
        lemma_name_index_unique(t, p, j);
        if other != name {
            if has_name(s, other) {
                let a = name_index(s, other);
                let a2 = if a < p { a } else { a + 1 };
                assert(t[a2] == s[a]);
                let b = name_index(t, other);
                lemma_name_index_unique(t, a2, b);
            }
            if has_name(t, other) {
                let b = name_index(t, other);
                if b < p {
                    assert(s[b].0 == other);
                } else if b > p {
                    assert(s[b - 1].0 == other);
                }
            }
        }
    }
}

/// Compares two names: whether `a` comes before `b`, and whether they are equal.
pub fn compare_names(a: &Vec<char>, b: &Vec<char>) -> (r: (bool, bool))
    ensures
        r.0 == name_lt(a@, b@),
        r.1 == (a@ == b@),
{
    let mut i: usize = 0;
    let ghost sa = a@;
    let ghost sb = b@;
    assert(sa.skip(0) =~= sa);
    assert(sb.skip(0) =~= sb);
    while i < a.len() && i < b.len() && a[i] == b[i]
        invariant
            i <= sa.len(),
            i <= sb.len(),
            sa == a@,
            sb == b@,
            name_lt(sa, sb) == name_lt(sa.skip(i as int), sb.skip(i as int)),
            sa.take(i as int) == sb.take(i as int),
        decreases sa.len() - i,
    {
        assert(sa.skip(i as int).drop_first() =~= sa.skip(i + 1));
        assert(sb.skip(i as int).drop_first() =~= sb.skip(i + 1));
        assert(sa.take(i + 1) =~= sa.take(i as int).push(sa[i as int]));
        assert(sb.take(i + 1) =~= sb.take(i as int).push(sb[i as int]));
        i = i + 1;
    }
    if i == a.len() && i == b.len() {
        assert(sa =~= sa.take(i as int));
        assert(sb =~= sb.take(i as int));
        proof { lemma_name_lt_irrefl(sa); }
        (false, true)
    } else if i == a.len() {
        assert(sa.skip(i as int).len() == 0);
        (true, false)
    } else if i == b.len() {
        assert(sb.skip(i as int).len() == 0);
        assert(sa.len() != sb.len());
        (false, false)
    } else {
        assert(sa.skip(i as int)[0] == sa[i as int]);
        assert(sb.skip(i as int)[0] == sb[i as int]);
        assert(sa[i as int] != sb[i as int]);
        (a[i] < b[i], false)
    }
}

/// One named entry of a table.
pub struct NameEntry<V> {
    pub name: Vec<char>,
    pub value: V,
}

/// A table from names to values, kept in increasing name order.
pub struct NameTable<V> {
    entries: Vec<NameEntry<V>>,
}

impl<V: Copy> View for NameTable<V> {
    type V = Seq<(Seq<char>, V)>;

    closed spec fn view(&self) -> Seq<(Seq<char>, V)> {
        self.entries@.map_values(|e: NameEntry<V>| (e.name@, e.value))
    }
}

impl<V: Copy> NameTable<V> {
    /// The well-formedness of the table: names strictly increasing.
    pub open spec fn wf(&self) -> bool {
        names_increasing(self@)
    }

    /// The empty table.
    pub fn new() -> (r: NameTable<V>)
        ensures
            r@ == Seq::<(Seq<char>, V)>::empty(),
            r.wf(),
    {
        let r = NameTable { entries: Vec::new() };
        assert(r@ =~= Seq::<(Seq<char>, V)>::empty());
        r
    }

    /// The number of entries.
    pub fn len(&self) -> (r: usize)
        ensures
            r == self@.len(),
    {
        self.entries.len()
    }

    /// The value of entry `i`.
    pub fn value_at(&self, i: usize) -> (r: V)
        requires
            i < self@.len(),
        ensures
            r == self@[i as int].1,
    {
        self.entries[i].value
    }

    /// Replaces the value of entry `i`.
    pub fn set_value_at(&mut self, i: usize, v: V)
        requires
            i < old(self)@.len(),
        ensures
            final(self)@ == old(self)@.update(i as int, (old(self)@[i as int].0, v)),
    {
        let name = self.entries[i].name.clone();
        self.entries.set(i, NameEntry { name, value: v });
        assert(self@ =~= old(self)@.update(i as int, (old(self)@[i as int].0, v)));
    }

    /// Where `name` stands: whether an entry has it, and the position of the
    /// first entry whose name is not before it.
    pub fn find(&self, name: &Vec<char>) -> (r: (bool, usize))
        requires
            self.wf(),
        ensures
            r.1 <= self@.len(),
            forall|i: int| 0 <= i < r.1 ==> name_lt(#[trigger] self@[i].0, name@),
            r.0 ==> r.1 < self@.len() && self@[r.1 as int].0 == name@,
            !r.0 ==> forall|i: int| r.1 <= i < self@.len() ==> name_lt(name@, #[trigger] self@[i].0),
            r.0 == has_name(self@, name@),
    {
        let mut p: usize = 0;
        let n = self.entries.len();
        let mut stop = false;
        while p < n && !stop
            invariant
                p <= n,
                n == self@.len(),
                forall|i: int| 0 <= i < p ==> name_lt(#[trigger] self@[i].0, name@),
                stop ==> p < n && !name_lt(self@[p as int].0, name@),
            decreases n - p + (if stop { 0int } else { 1int }),
        {
            let (lt, _) = compare_names(&self.entries[p].name, name);
            assert(self@[p as int].0 == self.entries@[p as int].name@);
            if !lt {
                stop = true;
            } else {
                p = p + 1;
            }
        }
        if p < n {
            let (_, eq) = compare_names(&self.entries[p].name, name);
            assert(self@[p as int].0 == self.entries@[p as int].name@);
            if eq {
                return (true, p);
            }
            proof {
                lemma_name_lt_total(self@[p as int].0, name@);
                assert forall|i: int| p <= i < self@.len() implies name_lt(name@, #[trigger] self@[i].0) by {
                    if i > p {
                        lemma_name_lt_trans(name@, self@[p as int].0, self@[i].0);
                    }
                }
            }
        }
        proof {
            if has_name(self@, name@) {
                let j = choose|j: int| 0 <= j < self@.len() && self@[j].0 == name@;
                lemma_name_lt_irrefl(name@);
                if j < p {
                    assert(name_lt(self@[j].0, name@));
                } else {
                    assert(name_lt(name@, self@[j].0));
                }
            }
        }
        (false, p)
    }

    /// The value of the entry named `name`, if there is one.
    pub fn get(&self, name: &Vec<char>) -> (r: Option<V>)
        requires
            self.wf(),
        ensures
            r == table_get(self@, name@),
    {
        let (found, p) = self.find(name);
        if found {
            proof {
                let i = choose|i: int| 0 <= i < self@.len() && self@[i].0 == name@;
                lemma_name_index_unique(self@, i, p as int);
            }
            Some(self.entries[p].value)
        } else {
            None
        }
    }

    /// Gives `name` the value `v`, replacing its entry or adding one where the
    /// name belongs.
    pub fn set(&mut self, name: Vec<char>, v: V)
        requires
            old(self).wf(),
        ensures
            final(self).wf(),
            final(self)@ == table_set(old(self)@, name@, v),
    {
        let (found, p) = self.find(&name);
        if found {
            proof {
                let i = choose|i: int| 0 <= i < old(self)@.len() && old(self)@[i].0 == name@;
                lemma_name_index_unique(old(self)@, i, p as int);
            }
            self.set_value_at(p, v);
            proof {
                assert forall|i: int, j: int| 0 <= i < j < self@.len() implies name_lt(self@[i].0, self@[j].0) by {
                    assert(self@[i].0 == old(self)@[i].0);
                    assert(self@[j].0 == old(self)@[j].0);
                }
            }
        } else {
            proof {
                let q = choose|q: int| insert_pos(old(self)@, name@, q);
                assert(insert_pos(old(self)@, name@, p as int));
                lemma_insert_pos_unique(old(self)@, name@, p as int, q);
            }
            self.insert_at(p, name, v);
        }
    }

    /// Inserts an entry at position `p`, which `find` gave for its name.
    pub fn insert_at(&mut self, p: usize, name: Vec<char>, v: V)
        requires
            old(self).wf(),
            p <= old(self)@.len(),
            forall|i: int| 0 <= i < p ==> name_lt(#[trigger] old(self)@[i].0, name@),
            forall|i: int| p <= i < old(self)@.len() ==> name_lt(name@, #[trigger] old(self)@[i].0),
        ensures
            final(self).wf(),
            final(self)@ == old(self)@.insert(p as int, (name@, v)),
    {
        let ghost nm = name@;
        self.entries.insert(p, NameEntry { name, value: v });
        let ghost s = old(self)@;
        assert(self@ =~= s.insert(p as int, (nm, v)));
        assert forall|i: int, j: int| 0 <= i < j < self@.len() implies name_lt(self@[i].0, self@[j].0) by {
            if j < p {
            } else if j == p {
            } else if i < p {
                lemma_name_lt_trans(s[i].0, nm, s[j - 1].0);
            } else if i == p {
            } else {
                assert(name_lt(s[i - 1].0, s[j - 1].0));
            }
        }
    }
}

} // verus!
