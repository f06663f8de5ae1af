//! The identity table: a configuration holding one entry per derived
//! key, with last-write-wins insertion, lexicographically sorted
//! enumeration, and one-based selection by position.

use vstd::prelude::*;
use vstd::relations::sorted_by;
use vstd::seq_lib::lemma_multiset_commutative;
use vstd::seq_lib::lemma_sorted_unique;

use crate::ident::{Identity, IdentityV};
use crate::text::{lex_le, lex_le_ord, lex_lt, lemma_lex_le_connected, lemma_lex_le_trans,
    lemma_lex_total_ordering, str_le};

verus! {

/// Ghost mirror of one table entry: the key and the identity fields.
#[verifier::ext_equal]
pub ghost struct EntryV {
    pub key: Seq<char>,
    pub name: Seq<char>,
    pub email: Seq<char>,
}

/// The keys of a table, in table order.
pub open spec fn key_seq(m: Seq<EntryV>) -> Seq<Seq<char>> {
    m.map_values(|e: EntryV| e.key)
}

/// The keys of a table, sorted lexicographically.
pub open spec fn sorted_key_seq(m: Seq<EntryV>) -> Seq<Seq<char>> {
    key_seq(m).sort_by(lex_le_ord())
}

/// The whole configuration: a table of identities keyed by derived
/// key, kept in insertion order.
pub struct Config {
    pub(crate) entries: Vec<(String, Identity)>,
}

impl View for Config {
    type V = Seq<EntryV>;

    closed spec fn view(&self) -> Seq<EntryV> {
        self.entries@.map_values(
            |p: (String, Identity)| EntryV { key: p.0@, name: p.1.name@, email: p.1.email@ },
        )
    }
}

/// What insertion leaves behind: the entry with the same key replaced
/// in place if one exists, the new entry appended otherwise.
pub open spec fn inserted(m: Seq<EntryV>, k: Seq<char>, idv: IdentityV, m2: Seq<EntryV>) -> bool {
    let e = (EntryV { key: k, name: idv.name, email: idv.email });
    if key_seq(m).contains(k) {
        exists|i: int| 0 <= i < m.len() && m[i].key == k && m2 == m.update(i, e)
    } else {
        m2 == m.push(e)
    }
}

impl Config {
    /// Keys are unique: the table is a mapping.
    pub open spec fn wf(&self) -> bool {
        forall|i: int, j: int|
            0 <= i < j < self@.len() ==> #[trigger] self@[i].key != #[trigger] self@[j].key
    }

    /// A fresh configuration with an empty identity table.
    pub fn empty() -> (c: Config)
        ensures
            c@ == Seq::<EntryV>::empty(),
            c.wf(),
    {
        let c = Config { entries: Vec::new() };
        proof {
            assert(c@ =~= Seq::<EntryV>::empty());
        }
        c
    }

    /// How many identities the table holds.
    pub fn len(&self) -> (n: usize)
        ensures
            n == self@.len(),
    {
        self.entries.len()
    }

    /// Inserts an identity under a key; an entry already stored under
    /// the same key is overwritten in place, and a new key is appended
    /// after all existing entries.
    pub fn insert(&mut self, key: String, identity: Identity)
        requires
            old(self).wf(),
        ensures
            final(self).wf(),
            inserted(old(self)@, key@, identity@, final(self)@),
    {
        let ghost m = self@;
        let ghost kv = key@;
        let ghost idv = identity@;
        let pair = (key, identity);
        let ghost e = (EntryV { key: kv, name: idv.name, email: idv.email });
        assert(pair.0@ == kv && pair.1@ == idv);
        let n = self.entries.len();
        let mut idx: Option<usize> = None;
        let mut i: usize = 0;
        while i < n
            invariant
                n == m.len(),
                i <= n,
                self@ == m,
                old(self).wf(),
                m == old(self)@,
                pair.0@ == kv,
                pair.1@ == idv,
                match idx {
                    Option::None => forall|j: int| 0 <= j < i ==> #[trigger] m[j].key != kv,
                    Option::Some(p) => p < i && m[p as int].key == kv,
                },
            decreases n - i,
        {
            if idx.is_none() && self.entries[i].0 == pair.0 {
                idx = Some(i);
            }
            i += 1;
        }
        let ghost pv = pair;
        assert(pv.0@ == kv && pv.1.name@ == idv.name && pv.1.email@ == idv.email);
        match idx {
            Some(p) => {
                let ghost ents = self.entries@;
                self.entries.remove(p);
                self.entries.insert(p, pair);
                proof {
                    ents.remove_ensures(p as int);
                    ents.remove(p as int).insert_ensures(p as int, pv);
                    assert(self.entries@[p as int] == pv);
                    assert(self@[p as int] == e);
                    assert(self@ =~= m.update(p as int, e));
                    assert(key_seq(m).contains(kv)) by {
                        assert(key_seq(m)[p as int] == kv);
                    }
                    assert(inserted(m, kv, idv, self@)) by {
                        let j = p as int;
                        assert(0 <= j && j < m.len() && m[j].key == kv && self@ == m.update(
                            j,
                            (EntryV { key: kv, name: idv.name, email: idv.email }),
                        ));
                    }
                    assert forall|x: int, y: int| 0 <= x < y < self@.len() implies self@[x].key
                        != self@[y].key by {
                        assert(m[x].key != m[y].key);
                    }
                }
            },
            None => {
                self.entries.push(pair);
                proof {
                    assert(self@ =~= m.push(e));
                    assert(!key_seq(m).contains(kv)) by {
                        if key_seq(m).contains(kv) {
                            let j = choose|j: int|
                                0 <= j < key_seq(m).len() && key_seq(m)[j] == kv;
                            assert(m[j].key == kv);
                        }
                    }
                    assert(inserted(m, kv, idv, self@));
                    assert forall|x: int, y: int| 0 <= x < y < self@.len() implies self@[x].key
                        != self@[y].key by {
                        if y < m.len() {
                            assert(m[x].key != m[y].key);
                        } else {
                            assert(m[x].key != kv);
                        }
                    }
                }
            },
        }
    }
}

/// Whether some entry of the table stores this identity under this
/// key.
pub open spec fn pair_matches(m: Seq<EntryV>, k: Seq<char>, idv: IdentityV) -> bool {
    exists|j: int|
        0 <= j < m.len() && #[trigger] m[j].key == k && idv == (IdentityV {
            name: m[j].name,
            email: m[j].email,
        })
}

/// The views of a sequence of strings.
pub open spec fn views_of(s: Seq<String>) -> Seq<Seq<char>> {
    s.map_values(|x: String| x@)
}

/// Inserting into a sequence adds one occurrence to its multiset.
proof fn lemma_insert_to_multiset<A>(s: Seq<A>, p: int, x: A)
    requires
        0 <= p <= s.len(),
    ensures
        s.insert(p, x).to_multiset() =~= s.to_multiset().insert(x),
{
    broadcast use vstd::seq_lib::group_to_multiset_ensures;
    broadcast use vstd::multiset::group_multiset_axioms;

    let pre = s.subrange(0, p);
    let post = s.subrange(p, s.len() as int);
    assert(s =~= pre + post);
    assert(s.insert(p, x) =~= pre.push(x) + post);
    lemma_multiset_commutative(pre, post);
    lemma_multiset_commutative(pre.push(x), post);
    assert(pre.push(x).to_multiset() =~= pre.to_multiset().insert(x));
    assert(pre.to_multiset().insert(x).add(post.to_multiset()) =~= pre.to_multiset().add(
        post.to_multiset(),
    ).insert(x));
}

/// Inserts a string into a sorted vector, keeping it sorted.
fn insert_sorted(v: &mut Vec<String>, x: String)
    requires
        sorted_by(views_of(old(v)@), lex_le_ord()),
    ensures
        final(v)@.len() == old(v)@.len() + 1,
        sorted_by(views_of(final(v)@), lex_le_ord()),
        views_of(final(v)@).to_multiset() == views_of(old(v)@).to_multiset().insert(x@),
{
    let ghost xv = x@;
    let ghost m = views_of(v@);
    let n = v.len();
    let mut p: usize = 0;
    while p < n && !str_le(x.as_str(), v[p as usize].as_str())
        invariant
            n == v@.len(),
            views_of(v@) == m,
            p <= n,
            x@ == xv,
            forall|j: int| 0 <= j < p ==> !lex_le(xv, m[j]),
        decreases n - p,
    {
        p += 1;
    }
    assert(p < n ==> lex_le(xv, m[p as int]));
    let ghost xs = x;
    assert(xs@ == xv);
    let ghost ents = v@;
    v.insert(p, x);
    proof {
        ents.insert_ensures(p as int, xs);
        assert(v@[p as int] == xs);
        let m2 = views_of(v@);
        assert(m2 =~= m.insert(p as int, xv)) by {
            m.insert_ensures(p as int, xv);
        }
        lemma_insert_to_multiset(m, p as int, xv);
        assert(views_of(v@).to_multiset() == views_of(ents).to_multiset().insert(xv));
        let leq = lex_le_ord();
        assert forall|i: int, j: int| 0 <= i < j < m2.len() implies #[trigger] leq(
            m2[i],
            m2[j],
        ) by {
            m.insert_ensures(p as int, xv);
            if i == p {
                // m2[j] is an old element at or after the insertion point
                assert(m2[j] == m[j - 1] && p <= j - 1 && j - 1 < m.len());
                assert(lex_le(xv, m[p as int]));
                if j - 1 > p {
                    assert(leq(m[p as int], m[j - 1]));
                    lemma_lex_le_trans(xv, m[p as int], m[j - 1]);
                }
            } else if j == p {
                // m2[i] is an old element before the insertion point
                assert(m2[i] == m[i] && i < p);
                lemma_lex_le_connected(xv, m[i]);
                assert(lex_le(m[i], xv));
            } else if i < p && p < j {
                assert(m2[i] == m[i] && m2[j] == m[j - 1]);
                lemma_lex_le_connected(xv, m[i]);
                if p < m.len() {
                    assert(i <= p && p <= j - 1);
                    if i < p && p == j - 1 {
                        lemma_lex_le_trans(m[i], xv, m[p as int]);
                    }
                    assert(leq(m[i], m[j - 1]));
                }
            } else if j < p {
                assert(m2[i] == m[i] && m2[j] == m[j]);
            } else {
                assert(p < i);
                assert(m2[i] == m[i - 1] && m2[j] == m[j - 1]);
            }
        }
    }
}

/// Why a selection is refused.
#[derive(PartialEq, Eq, Structural, Debug)]
pub enum SelectError {
    InvalidSelection,
}

impl Config {
    /// All keys of the table, sorted in strict lexicographic order.
    pub fn sorted_keys(&self) -> (r: Vec<String>)
        requires
            self.wf(),
        ensures
            r@.len() == self@.len(),
            views_of(r@) == sorted_key_seq(self@),
            forall|i: int, j: int| 0 <= i < j < r@.len() ==> lex_lt(r@[i]@, r@[j]@),
    {
        let ghost m = self@;
        let ghost ks = key_seq(m);
        let n = self.entries.len();
        let mut r: Vec<String> = Vec::new();
        let mut i: usize = 0;
        proof {
            broadcast use vstd::seq_lib::group_to_multiset_ensures;

            assert(views_of(r@) =~= Seq::<Seq<char>>::empty());
            assert(ks.take(0) =~= Seq::<Seq<char>>::empty());
            assert(views_of(r@).to_multiset() =~= ks.take(0).to_multiset());
        }
        while i < n
            invariant
                n == m.len(),
                i <= n,
                self@ == m,
                ks == key_seq(m),
                r@.len() == i,
                sorted_by(views_of(r@), lex_le_ord()),
                views_of(r@).to_multiset() == ks.take(i as int).to_multiset(),
            decreases n - i,
        {
            let k = self.entries[i].0.clone();
            assert(k@ == ks[i as int]);
            let ghost before = views_of(r@).to_multiset();
            insert_sorted(&mut r, k);
            proof {
                broadcast use vstd::seq_lib::group_to_multiset_ensures;

                assert(ks.take(i + 1) =~= ks.take(i as int).push(ks[i as int]));
                assert(ks.take(i + 1).to_multiset() =~= ks.take(i as int).to_multiset().insert(
                    ks[i as int],
                ));
            }
            i += 1;
        }
        proof {
            broadcast use vstd::seq_lib::group_to_multiset_ensures;

            lemma_lex_total_ordering();
            ks.lemma_sort_by_ensures(lex_le_ord());
            assert(ks.take(n as int) =~= ks);
            lemma_sorted_unique(views_of(r@), sorted_key_seq(m), lex_le_ord());
            assert(views_of(r@) =~= sorted_key_seq(m));
            assert(ks.no_duplicates()) by {
                assert forall|x: int, y: int|
                    0 <= x < ks.len() && 0 <= y < ks.len() && x != y implies ks[x] != ks[y] by {
                    if x < y {
                        assert(m[x].key != m[y].key);
                    } else {
                        assert(m[y].key != m[x].key);
                    }
                }
            }
            ks.lemma_multiset_has_no_duplicates();
            views_of(r@).lemma_multiset_has_no_duplicates_conv();
            assert forall|x: int, y: int| 0 <= x < y < r@.len() implies lex_lt(r@[x]@, r@[y]@) by {
                let vs = views_of(r@);
                assert(lex_le_ord()(vs[x], vs[y]));
                assert(vs[x] != vs[y]);
            }
        }
        r
    }

    /// The stored key at a table position.
    pub fn key_at(&self, i: usize) -> (r: &String)
        requires
            i < self@.len(),
        ensures
            r@ == self@[i as int].key,
    {
        &self.entries[i].0
    }

    /// The stored display name at a table position.
    pub fn name_at(&self, i: usize) -> (r: &String)
        requires
            i < self@.len(),
        ensures
            r@ == self@[i as int].name,
    {
        &self.entries[i].1.name
    }

    /// The stored email address at a table position.
    pub fn email_at(&self, i: usize) -> (r: &String)
        requires
            i < self@.len(),
        ensures
            r@ == self@[i as int].email,
    {
        &self.entries[i].1.email
    }

    /// Whether some entry is stored under this key.
    pub fn contains_key(&self, key: &String) -> (r: bool)
        ensures
            r == key_seq(self@).contains(key@),
    {
        let ghost m = self@;
        let n = self.entries.len();
        let mut i: usize = 0;
        while i < n
            invariant
                n == m.len(),
                i <= n,
                self@ == m,
                forall|j: int| 0 <= j < i ==> #[trigger] m[j].key != key@,
            decreases n - i,
        {
            if self.entries[i].0 == *key {
                assert(key_seq(m).contains(key@)) by {
                    assert(key_seq(m)[i as int] == key@);
                }
                return true;
            }
            i += 1;
        }
        proof {
            if key_seq(m).contains(key@) {
                let j = choose|j: int| 0 <= j < key_seq(m).len() && key_seq(m)[j] == key@;
                assert(m[j].key == key@);
            }
        }
        false
    }

    /// All entries of the table, sorted by key: the `n`-th pair of
    /// the result is the entry stored under the `n`-th sorted key.
    pub fn list_sorted(&self) -> (r: Vec<(String, Identity)>)
        requires
            self.wf(),
        ensures
            r@.len() == self@.len(),
            forall|q: int|
                0 <= q < r@.len() ==> (#[trigger] r@[q].0)@ == sorted_key_seq(self@)[q],
            forall|q: int|
                0 <= q < r@.len() ==> pair_matches(
                    self@,
                    sorted_key_seq(self@)[q],
                    (#[trigger] r@[q].1)@,
                ),
    {
        let ghost m = self@;
        let n = self.len();
        let keys = self.sorted_keys();
        let mut out: Vec<(String, Identity)> = Vec::new();
        let mut i: usize = 0;
        while i < n
            invariant
                n == m.len(),
                i <= n,
                self@ == m,
                self.wf(),
                keys@.len() == n,
                views_of(keys@) == sorted_key_seq(m),
                out@.len() == i,
                forall|q: int| 0 <= q < i ==> (#[trigger] out@[q].0)@ == sorted_key_seq(m)[q],
                forall|q: int|
                    0 <= q < i ==> pair_matches(m, sorted_key_seq(m)[q], (#[trigger] out@[q].1)@),
            decreases n - i,
        {
            let id = match self.get_by_index(i + 1) {
                Ok(id) => id,
                Err(_) => vstd::pervasive::unreached(),
            };
            let key = keys[i].clone();
            proof {
                assert(key@ == views_of(keys@)[i as int]);
            }
            let ghost idv = id@;
            let ghost before = out@;
            out.push((key, id));
            proof {
                assert(out@[i as int].1@ == idv);
                assert(pair_matches(m, sorted_key_seq(m)[i as int], idv)) by {
                    let j = choose|j: int|
                        0 <= j < m.len() && m[j].key == sorted_key_seq(m)[i as int] && idv == (
                        IdentityV { name: m[j].name, email: m[j].email });
                    assert(m[j].key == sorted_key_seq(m)[i as int]);
                }
                assert forall|q: int| 0 <= q < i + 1 implies pair_matches(
                    m,
                    sorted_key_seq(m)[q],
                    (#[trigger] out@[q].1)@,
                ) by {
                    if q < i {
                        assert(out@[q] == before[q]);
                        assert(pair_matches(m, sorted_key_seq(m)[q], (before[q].1)@));
                    }
                }
            }
            i += 1;
        }
        out
    }

    /// Selects the identity at a one-based position in the sorted key
    /// order; `0` and positions past the end are invalid.
    pub fn get_by_index(&self, n: usize) -> (r: Result<Identity, SelectError>)
        requires
            self.wf(),
        ensures
            (r is Ok) == (1 <= n && n <= self@.len()),
            r is Ok ==> (exists|i: int|
                0 <= i < self@.len() && self@[i].key == sorted_key_seq(self@)[n - 1] && (
                r->Ok_0)@ == (IdentityV { name: self@[i].name, email: self@[i].email })),
            r is Err ==> r->Err_0 == SelectError::InvalidSelection,
    {
        let keys = self.sorted_keys();
        if n == 0 || n > keys.len() {
            return Err(SelectError::InvalidSelection);
        }
        let target: &String = &keys[n - 1];
        assert(target@ == sorted_key_seq(self@)[n - 1]);
        let ghost m = self@;
        let count = self.entries.len();
        let mut i: usize = 0;
        while i < count
            invariant
                count == m.len(),
                i <= count,
                self@ == m,
                1 <= n && n <= m.len(),
                target@ == sorted_key_seq(m)[n - 1],
                forall|j: int| 0 <= j < i ==> #[trigger] m[j].key != target@,
            decreases count - i,
        {
            if self.entries[i].0 == *target {
                let id = Identity {
                    name: self.entries[i].1.name.clone(),
                    email: self.entries[i].1.email.clone(),
                };
                assert(m[i as int].key == target@);
                assert(id@ == (IdentityV { name: m[i as int].name, email: m[i as int].email }));
                assert(exists|j: int|
                    0 <= j < self@.len() && self@[j].key == sorted_key_seq(self@)[n - 1] && id@
                        == (IdentityV { name: self@[j].name, email: self@[j].email })) by {
                    let w = i as int;
                    assert(0 <= w && w < self@.len() && self@[w].key == sorted_key_seq(self@)[n
                        - 1] && id@ == (IdentityV { name: self@[w].name, email: self@[w].email }));
                }
                return Ok(id);
            }
            i += 1;
        }
        proof {
            broadcast use vstd::seq_lib::group_to_multiset_ensures;

            lemma_lex_total_ordering();
            key_seq(m).lemma_sort_by_ensures(lex_le_ord());
            let sk = sorted_key_seq(m);
            assert(sk.len() == m.len());
            assert(sk.contains(target@)) by {
                assert(sk[n - 1] == target@);
            }
            assert(sk.to_multiset().contains(target@));
            assert(key_seq(m).to_multiset().contains(target@));
            assert(key_seq(m).contains(target@));
            let j = choose|j: int| 0 <= j < key_seq(m).len() && key_seq(m)[j] == target@;
            assert(m[j].key == target@);
            assert(false);
        }
        Err(SelectError::InvalidSelection)
    }
}

} // verus!
