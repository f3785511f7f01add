//! The population registry: an immutable map from individual identifier to
//! population label, loaded once from a two-column, line-oriented file.
//! Lookup of an unknown individual yields the sentinel label "???" rather
//! than failing.
//!
//! The registry also carries a group-to-individuals index that, as in the
//! reading of the format this library follows, is never populated: only
//! removal touches it. `groups` therefore always answers with an empty list.

use vstd::prelude::*;
use crate::VcfError;
use crate::bytes::{ws_token_ranges, lemma_ws_token_ranges, ws_tokens, copy_range, clone_bytes,
    bytes_eq, seq_views};

verus! {

/// The hash byte that starts a comment line.
pub const HASH: u8 = 35;

/// The sentinel label of an unknown individual: "???".
pub open spec fn unknown_label() -> Seq<u8> {
    seq![63u8, 63u8, 63u8]
}

/// Index of the first pair with the given key; -1 when absent.
pub open spec fn find_key(items: Seq<(Seq<u8>, Seq<u8>)>, k: Seq<u8>) -> int
    decreases items.len(),
{
    if items.len() == 0 {
        -1
    } else if items[0].0 == k {
        0
    } else {
        let r = find_key(items.drop_first(), k);
        if r < 0 {
            -1
        } else {
            r + 1
        }
    }
}

pub proof fn lemma_find_key(items: Seq<(Seq<u8>, Seq<u8>)>, k: Seq<u8>)
    ensures
        -1 <= find_key(items, k) < items.len(),
        find_key(items, k) >= 0 ==> items[find_key(items, k)].0 == k,
        forall|i: int| 0 <= i < find_key(items, k) ==> (#[trigger] items[i]).0 != k,
        find_key(items, k) == -1 ==> forall|i: int|
            0 <= i < items.len() ==> (#[trigger] items[i]).0 != k,
    decreases items.len(),
{
    if items.len() > 0 && items[0].0 != k {
        lemma_find_key(items.drop_first(), k);
        let d = items.drop_first();
        let f1 = find_key(d, k);
        if f1 >= 0 {
            assert(d[f1] == items[f1 + 1]);
        }
        assert forall|i: int| 0 <= i < find_key(items, k) implies (#[trigger] items[i]).0
            != k by {
            if i >= 1 {
                assert(d[i - 1] == items[i]);
            }
        }
        if find_key(items, k) == -1 {
            assert forall|i: int| 0 <= i < items.len() implies (#[trigger] items[i]).0
                != k by {
                if i >= 1 {
                    assert(d[i - 1] == items[i]);
                }
            }
        }
    }
}

/// The label the registry content assigns to `k`, if any.
pub open spec fn lookup(items: Seq<(Seq<u8>, Seq<u8>)>, k: Seq<u8>) -> Option<Seq<u8>> {
    if find_key(items, k) >= 0 {
        Some(items[find_key(items, k)].1)
    } else {
        None
    }
}

/// The label assigned to `k`, with the unknown sentinel as fallback.
pub open spec fn label_of(items: Seq<(Seq<u8>, Seq<u8>)>, k: Seq<u8>) -> Seq<u8> {
    match lookup(items, k) {
        Some(g) => g,
        None => unknown_label(),
    }
}

/// Keys are pairwise distinct.
pub open spec fn registry_wf(items: Seq<(Seq<u8>, Seq<u8>)>) -> bool {
    forall|i: int, j: int| 0 <= i < j < items.len()
        ==> (#[trigger] items[i]).0 != (#[trigger] items[j]).0
}

/// The content after a map-style insert: the value of an existing key is
/// replaced in place, a new key is appended.
pub open spec fn insert_pair(
    items: Seq<(Seq<u8>, Seq<u8>)>,
    k: Seq<u8>,
    v: Seq<u8>,
) -> Seq<(Seq<u8>, Seq<u8>)> {
    if find_key(items, k) >= 0 {
        items.update(find_key(items, k), (k, v))
    } else {
        items.push((k, v))
    }
}

/// The content after removing a key; unchanged when the key is absent.
pub open spec fn remove_pair(items: Seq<(Seq<u8>, Seq<u8>)>, k: Seq<u8>) -> Seq<
    (Seq<u8>, Seq<u8>),
> {
    if find_key(items, k) >= 0 {
        items.remove(find_key(items, k))
    } else {
        items
    }
}

/// Insertion keeps the keys distinct and acts pointwise as a map insert.
pub proof fn lemma_insert_pair(items: Seq<(Seq<u8>, Seq<u8>)>, k: Seq<u8>, v: Seq<u8>)
    requires
        registry_wf(items),
    ensures
        registry_wf(insert_pair(items, k, v)),
        lookup(insert_pair(items, k, v), k) == Some(v),
        forall|k2: Seq<u8>| k2 != k
            ==> #[trigger] lookup(insert_pair(items, k, v), k2) == lookup(items, k2),
{
    lemma_find_key(items, k);
    let out = insert_pair(items, k, v);
    lemma_find_key(out, k);
    assert forall|k2: Seq<u8>| k2 != k implies #[trigger] lookup(out, k2) == lookup(
        items,
        k2,
    ) by {
        lemma_find_key(items, k2);
        lemma_find_key(out, k2);
        let f = find_key(items, k2);
        let g = find_key(out, k2);
        if f >= 0 && g >= 0 {
            if f < g {
                assert(out[f] == items[f]);
            } else if g < f {
                assert(items[g] == out[g]);
            }
        } else if f >= 0 {
            assert(out[f].0 == k2);
        } else if g >= 0 {
            assert(items[g].0 == k2);
        }
    }
    if find_key(out, k) < 0 {
        if find_key(items, k) >= 0 {
            assert(out[find_key(items, k)].0 == k);
        } else {
            assert(out.last().0 == k);
        }
    }
    assert(out[find_key(out, k)].0 == k);
    if find_key(items, k) >= 0 {
        assert(forall|i: int| 0 <= i < out.len() && i != find_key(items, k)
            ==> #[trigger] out[i] == items[i]);
        assert(out[find_key(out, k)].1 == v);
    } else {
        if find_key(out, k) < items.len() {
            assert(items[find_key(out, k)].0 == k);
        }
        assert(out[find_key(out, k)].1 == v);
    }
}

/// Removal keeps the keys distinct, removes exactly the given key, and
/// leaves every other lookup unchanged.
pub proof fn lemma_remove_pair(items: Seq<(Seq<u8>, Seq<u8>)>, k: Seq<u8>)
    requires
        registry_wf(items),
    ensures
        registry_wf(remove_pair(items, k)),
        lookup(remove_pair(items, k), k) is None,
        forall|k2: Seq<u8>| k2 != k
            ==> #[trigger] lookup(remove_pair(items, k), k2) == lookup(items, k2),
{
    lemma_find_key(items, k);
    let out = remove_pair(items, k);
    let f = find_key(items, k);
    if f >= 0 {
        assert(forall|i: int| 0 <= i < f ==> #[trigger] out[i] == items[i]);
        assert(forall|i: int| f <= i < out.len() ==> #[trigger] out[i] == items[i + 1]);
    }
    lemma_find_key(out, k);
    if lookup(out, k) is Some {
        let g = find_key(out, k);
        assert(out[g].0 == k);
        if f >= 0 {
            if g < f {
                assert(items[g].0 == k);
            } else {
                assert(items[g + 1].0 == k);
            }
        }
    }
    assert forall|k2: Seq<u8>| k2 != k implies #[trigger] lookup(out, k2) == lookup(
        items,
        k2,
    ) by {
        lemma_find_key(items, k2);
        lemma_find_key(out, k2);
        let a = find_key(items, k2);
        let b = find_key(out, k2);
        if f >= 0 {
            if a >= 0 && b >= 0 {
                let bi = if b < f { b } else { b + 1 };
                assert(items[bi].0 == k2);
                if a < bi {
                    if a < f {
                        assert(out[a] == items[a]);
                        assert(out[a].0 == k2);
                    } else {
                        assert(out[a - 1] == items[a]);
                        assert(out[a - 1].0 == k2);
                    }
                } else if bi < a {
                    assert(items[bi].0 != k2);
                }
            } else if a >= 0 {
                if a < f {
                    assert(out[a].0 == k2);
                } else if a > f {
                    assert(out[a - 1].0 == k2);
                }
            } else if b >= 0 {
                let bi = if b < f { b } else { b + 1 };
                assert(items[bi].0 == k2);
            }
        }
    }
}

/// The immutable individual-to-label registry.
#[derive(Debug)]
pub struct Population {
    items: Vec<(Vec<u8>, Vec<u8>)>,
    group_index: Vec<Vec<u8>>,
}

impl Population {
    /// The registry content, in insertion order.
    pub closed spec fn model(&self) -> Seq<(Seq<u8>, Seq<u8>)> {
        self.items@.map_values(|p: (Vec<u8>, Vec<u8>)| (p.0@, p.1@))
    }

    /// Distinct keys, and the never-populated group index empty.
    pub closed spec fn wf(&self) -> bool {
        registry_wf(self.model()) && self.group_index@.len() == 0
    }

    /// An empty registry.
    pub fn new() -> (r: Population)
        ensures
            r.wf(),
            r.model() == Seq::<(Seq<u8>, Seq<u8>)>::empty(),
    {
        let r = Population { items: Vec::new(), group_index: Vec::new() };
        proof {
            assert(r.model() =~= Seq::<(Seq<u8>, Seq<u8>)>::empty());
        }
        r
    }

    /// Adds one individual with its label; an existing individual's label
    /// is replaced.
    pub fn add_individual(&mut self, individual: Vec<u8>, group: Vec<u8>) -> (nothing: ())
        requires
            old(self).wf(),
        ensures
            final(self).wf(),
            final(self).model() == insert_pair(old(self).model(), individual@, group@),
    {
        proof {
            lemma_find_key(self.model(), individual@);
            lemma_insert_pair(self.model(), individual@, group@);
        }
        let ghost m = self.model();
        let n = self.items.len();
        let mut i: usize = 0;
        while i < n
            invariant
                self == old(self),
                old(self).wf(),
                m == self.model(),
                n == self.items@.len(),
                i <= n,
                forall|j: int| 0 <= j < i ==> (#[trigger] m[j]).0 != individual@,
            decreases n - i,
        {
            if bytes_eq(&self.items[i].0, &individual) {
                proof {
                    lemma_find_key(m, individual@);
                    assert(m[i as int].0 == individual@);
                    if find_key(m, individual@) < i {
                        assert(m[find_key(m, individual@)].0 != individual@);
                    }
                }
                let _replaced = self.items.remove(i);
                self.items.insert(i, (individual, group));
                proof {
                    assert(self.model() =~= insert_pair(m, individual@, group@));
                    lemma_insert_pair(m, individual@, group@);
                }
                return ;
            }
            i = i + 1;
        }
        proof {
            lemma_find_key(m, individual@);
            if find_key(m, individual@) >= 0 {
                assert(m[find_key(m, individual@)].0 != individual@);
            }
        }
        self.items.push((individual, group));
        proof {
            assert(self.model() =~= insert_pair(m, individual@, group@));
            lemma_insert_pair(m, individual@, group@);
        }
    }

    /// The label of an individual, or the "???" sentinel when absent.
    pub fn group(&self, individual: &Vec<u8>) -> (r: Vec<u8>)
        requires
            self.wf(),
        ensures
            r@ == label_of(self.model(), individual@),
    {
        let ghost m = self.model();
        let n = self.items.len();
        let mut i: usize = 0;
        while i < n
            invariant
                m == self.model(),
                self.wf(),
                n == self.items@.len(),
                i <= n,
                forall|j: int| 0 <= j < i ==> (#[trigger] m[j]).0 != individual@,
            decreases n - i,
        {
            if bytes_eq(&self.items[i].0, individual) {
                proof {
                    lemma_find_key(m, individual@);
                    assert(m[i as int].0 == individual@);
                    if find_key(m, individual@) < i {
                        assert(m[find_key(m, individual@)].0 != individual@);
                    }
                    if find_key(m, individual@) > i {
                        assert(m[i as int].0 != individual@);
                    }
                }
                return clone_bytes(&self.items[i].1);
            }
            i = i + 1;
        }
        proof {
            lemma_find_key(m, individual@);
            if find_key(m, individual@) >= 0 {
                assert(m[find_key(m, individual@)].0 != individual@);
            }
        }
        let mut r: Vec<u8> = Vec::new();
        r.push(63);
        r.push(63);
        r.push(63);
        proof {
            assert(r@ =~= unknown_label());
        }
        r
    }

    /// Removes an individual; absent individuals are left alone. The
    /// group index is already empty, so only the map side changes.
    pub fn remove_individual(&mut self, individual: &Vec<u8>) -> (nothing: ())
        requires
            old(self).wf(),
        ensures
            final(self).wf(),
            final(self).model() == remove_pair(old(self).model(), individual@),
    {
        proof {
            lemma_remove_pair(self.model(), individual@);
        }
        let ghost m = self.model();
        let n = self.items.len();
        let mut i: usize = 0;
        while i < n
            invariant
                self == old(self),
                old(self).wf(),
                m == self.model(),
                n == self.items@.len(),
                i <= n,
                forall|j: int| 0 <= j < i ==> (#[trigger] m[j]).0 != individual@,
            decreases n - i,
        {
            if bytes_eq(&self.items[i].0, individual) {
                proof {
                    lemma_find_key(m, individual@);
                    assert(m[i as int].0 == individual@);
                    if find_key(m, individual@) < i {
                        assert(m[find_key(m, individual@)].0 != individual@);
                    }
                    if find_key(m, individual@) > i {
                        assert(m[i as int].0 != individual@);
                    }
                }
                let _replaced = self.items.remove(i);
                proof {
                    assert(self.model() =~= remove_pair(m, individual@));
                    lemma_remove_pair(m, individual@);
                }
                return ;
            }
            i = i + 1;
        }
        proof {
            lemma_find_key(m, individual@);
            if find_key(m, individual@) >= 0 {
                assert(m[find_key(m, individual@)].0 != individual@);
            }
            assert(self.model() =~= remove_pair(m, individual@));
        }
    }

    /// All individual identifiers, in insertion order.
    pub fn individuals(&self) -> (r: Vec<Vec<u8>>)
        ensures
            seq_views(r@) == self.model().map_values(|p: (Seq<u8>, Seq<u8>)| p.0),
    {
        let ghost m = self.model();
        let mut out: Vec<Vec<u8>> = Vec::new();
        let mut i: usize = 0;
        while i < self.items.len()
            invariant
                m == self.model(),
                i <= self.items@.len(),
                out@.len() == i,
                forall|j: int| 0 <= j < i ==> seq_views(out@)[j] == (#[trigger] m[j]).0,
            decreases self.items@.len() - i,
        {
            let ghost prev = out@;
            out.push(clone_bytes(&self.items[i].0));
            proof {
                assert(seq_views(out@) =~= seq_views(prev).push(m[i as int].0));
            }
            i = i + 1;
        }
        proof {
            assert(seq_views(out@) =~= m.map_values(|p: (Seq<u8>, Seq<u8>)| p.0));
        }
        out
    }

    /// The keys of the group index — always empty, as the index is never
    /// populated.
    pub fn groups(&self) -> (r: Vec<Vec<u8>>)
        requires
            self.wf(),
        ensures
            r@.len() == 0,
    {
        Vec::new()
    }

    /// All (individual, label) pairs, in insertion order.
    pub fn items(&self) -> (r: Vec<(Vec<u8>, Vec<u8>)>)
        ensures
            r@.map_values(|p: (Vec<u8>, Vec<u8>)| (p.0@, p.1@)) == self.model(),
    {
        let ghost m = self.model();
        let mut out: Vec<(Vec<u8>, Vec<u8>)> = Vec::new();
        let mut i: usize = 0;
        while i < self.items.len()
            invariant
                m == self.model(),
                i <= self.items@.len(),
                out@.len() == i,
                forall|j: int| 0 <= j < i
                    ==> (#[trigger] out@[j]).0@ == m[j].0 && out@[j].1@ == m[j].1,
            decreases self.items@.len() - i,
        {
            let key = clone_bytes(&self.items[i].0);
            let val = clone_bytes(&self.items[i].1);
            out.push((key, val));
            i = i + 1;
        }
        proof {
            assert(out@.map_values(|p: (Vec<u8>, Vec<u8>)| (p.0@, p.1@)) =~= m);
        }
        out
    }

    /// Whether an individual is present.
    pub fn has_individual(&self, individual: &Vec<u8>) -> (r: bool)
        requires
            self.wf(),
        ensures
            r == (lookup(self.model(), individual@) is Some),
    {
        let ghost m = self.model();
        let n = self.items.len();
        let mut i: usize = 0;
        while i < n
            invariant
                m == self.model(),
                n == self.items@.len(),
                i <= n,
                forall|j: int| 0 <= j < i ==> (#[trigger] m[j]).0 != individual@,
            decreases n - i,
        {
            if bytes_eq(&self.items[i].0, individual) {
                proof {
                    lemma_find_key(m, individual@);
                    assert(m[i as int].0 == individual@);
                    if find_key(m, individual@) == -1 {
                        assert(m[i as int].0 != individual@);
                    }
                }
                return true;
            }
            i = i + 1;
        }
        proof {
            lemma_find_key(m, individual@);
            if find_key(m, individual@) >= 0 {
                assert(m[find_key(m, individual@)].0 != individual@);
            }
        }
        false
    }

    /// The labels of the given individuals, in their order, with the
    /// unknown sentinel for any absent one.
    pub fn labels(&self, individuals: &Vec<Vec<u8>>) -> (r: Vec<Vec<u8>>)
        requires
            self.wf(),
        ensures
            seq_views(r@).len() == individuals@.len(),
            forall|j: int| 0 <= j < individuals@.len()
                ==> seq_views(r@)[j] == label_of(self.model(), #[trigger] seq_views(
                    individuals@,
                )[j]),
    {
        let mut out: Vec<Vec<u8>> = Vec::new();
        let mut i: usize = 0;
        while i < individuals.len()
            invariant
                self.wf(),
                i <= individuals@.len(),
                out@.len() == i,
                forall|j: int| 0 <= j < i
                    ==> seq_views(out@)[j] == label_of(self.model(), #[trigger] seq_views(
                        individuals@,
                    )[j]),
            decreases individuals@.len() - i,
        {
            let ghost prev = out@;
            out.push(self.group(&individuals[i]));
            proof {
                assert(seq_views(out@) =~= seq_views(prev).push(
                    label_of(self.model(), individuals@[i as int]@),
                ));
            }
            i = i + 1;
        }
        out
    }
}

/// What parsing a population file yields: the registry content built by
/// inserting each significant line's (identifier, label) pair in order, or
/// the index of the first line that does not have exactly two
/// whitespace-separated fields. Lines that are blank or whose first field
/// starts with '#' are skipped.
pub open spec fn parse_from(
    lines: Seq<Seq<u8>>,
    i: int,
    acc: Seq<(Seq<u8>, Seq<u8>)>,
) -> Result<Seq<(Seq<u8>, Seq<u8>)>, int>
    decreases lines.len() - i,
{
    if i < 0 || i >= lines.len() {
        Ok(acc)
    } else {
        let line = lines[i];
        let toks = ws_token_ranges(line, 0);
        if toks.len() == 0 || line[toks[0].0 as int] == HASH {
            parse_from(lines, i + 1, acc)
        } else if toks.len() != 2 {
            Err(i)
        } else {
            let k = line.subrange(toks[0].0 as int, toks[0].1 as int);
            let v = line.subrange(toks[1].0 as int, toks[1].1 as int);
            parse_from(lines, i + 1, insert_pair(acc, k, v))
        }
    }
}

impl Population {
    /// Parses a population file given as its lines (without trailing
    /// newlines). Fails with `InvalidFormat`, citing the first offending
    /// line, exactly when a significant line does not have two fields.
    pub fn parse(lines: &Vec<Vec<u8>>) -> (r: Result<Population, VcfError>)
        ensures
            parse_from(seq_views(lines@), 0, Seq::empty()) is Ok <==> r is Ok,
            r is Ok ==> r->Ok_0.wf() && r->Ok_0.model()
                == parse_from(seq_views(lines@), 0, Seq::empty())->Ok_0,
            r is Err ==> r->Err_0 == VcfError::InvalidFormat(
                parse_from(seq_views(lines@), 0, Seq::empty())->Err_0 as usize,
            ),
    {
        let ghost ls = seq_views(lines@);
        let mut pop = Population::new();
        let mut i: usize = 0;
        while i < lines.len()
            invariant
                ls == seq_views(lines@),
                i <= lines@.len(),
                pop.wf(),
                parse_from(ls, 0, Seq::empty()) == parse_from(ls, i as int, pop.model()),
            decreases lines@.len() - i,
        {
            let line = &lines[i];
            let _ll = line.len();
            proof {
                assert(ls[i as int] == line@);
                lemma_ws_token_ranges(line@, 0);
            }
            let toks = ws_tokens(line);
            if toks.len() == 0 || line[toks[0].0] == HASH {
                i = i + 1;
            } else if toks.len() != 2 {
                return Err(VcfError::InvalidFormat(i));
            } else {
                let k = copy_range(line, toks[0].0, toks[0].1);
                let v = copy_range(line, toks[1].0, toks[1].1);
                let ghost before = pop.model();
                pop.add_individual(k, v);
                i = i + 1;
            }
        }
        Ok(pop)
    }
}

} // verus!
