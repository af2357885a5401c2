//! What is kept about each backend: an association list keyed by backend.

use crate::lb::Backend;
use vstd::prelude::*;

verus! {

/// The entries of a list, later ones over earlier ones.
pub open spec fn rows_map<V>(rows: Seq<(Backend, V)>) -> Map<Backend, V>
    decreases rows.len(),
{
    if rows.len() == 0 {
        Map::empty()
    } else {
        rows_map(rows.drop_last()).insert(rows.last().0, rows.last().1)
    }
}

/// No backend occurs twice.
pub open spec fn distinct<V>(rows: Seq<(Backend, V)>) -> bool {
    forall|i: int, j: int|
        0 <= i < j < rows.len() ==> (#[trigger] rows[i]).0 != (#[trigger] rows[j]).0
}

proof fn lemma_rows_map<V>(rows: Seq<(Backend, V)>)
    requires
        distinct(rows),
    ensures
        forall|i: int|
            0 <= i < rows.len() ==> rows_map(rows).contains_key((#[trigger] rows[i]).0)
                && rows_map(rows)[rows[i].0] == rows[i].1,
        forall|b: Backend| #[trigger]
            rows_map(rows).contains_key(b) ==> exists|i: int|
                0 <= i < rows.len() && (#[trigger] rows[i]).0 == b,
    decreases rows.len(),
{
    if rows.len() > 0 {
        let init = rows.drop_last();
        assert(distinct(init)) by {
            assert forall|i: int, j: int| 0 <= i < j < init.len() implies (#[trigger] init[i]).0
                != (#[trigger] init[j]).0 by {
                assert(rows[i].0 != rows[j].0);
            }
        }
        lemma_rows_map(init);
        assert forall|i: int| 0 <= i < rows.len() implies rows_map(rows).contains_key(
            (#[trigger] rows[i]).0,
        ) && rows_map(rows)[rows[i].0] == rows[i].1 by {
            if i < init.len() {
                assert(init[i] == rows[i]);
                assert(rows[i].0 != rows[rows.len() - 1].0);
            }
        }
        assert forall|b: Backend| #[trigger] rows_map(rows).contains_key(b) implies exists|i: int|
            0 <= i < rows.len() && (#[trigger] rows[i]).0 == b by {
            if b == rows.last().0 {
                assert(rows[rows.len() - 1].0 == b);
            } else {
                assert(rows_map(init).contains_key(b));
                let i = choose|i: int| 0 <= i < init.len() && (#[trigger] init[i]).0 == b;
                assert(rows[i].0 == b);
            }
        }
    }
}

/// Replacing the entry of a row replaces that backend's entry.
proof fn lemma_rows_update<V>(rows: Seq<(Backend, V)>, i: int, v: V)
    requires
        distinct(rows),
        0 <= i < rows.len(),
    ensures
        distinct(rows.update(i, (rows[i].0, v))),
        rows_map(rows.update(i, (rows[i].0, v))) == rows_map(rows).insert(rows[i].0, v),
{
    let after = rows.update(i, (rows[i].0, v));
    assert(distinct(after)) by {
        assert forall|a: int, b: int| 0 <= a < b < after.len() implies (#[trigger] after[a]).0 != (
        #[trigger] after[b]).0 by {
            assert(rows[a].0 != rows[b].0);
        }
    }
    lemma_rows_map(rows);
    lemma_rows_map(after);
    let x = rows_map(after);
    let y = rows_map(rows).insert(rows[i].0, v);
    assert forall|b: Backend| x.contains_key(b) == y.contains_key(b) by {
        if x.contains_key(b) {
            let k = choose|k: int| 0 <= k < after.len() && (#[trigger] after[k]).0 == b;
            assert(rows[k].0 == b);
        }
        if y.contains_key(b) {
            if b == rows[i].0 {
                assert(after[i].0 == b);
            } else {
                let k = choose|k: int| 0 <= k < rows.len() && (#[trigger] rows[k]).0 == b;
                assert(after[k].0 == b);
            }
        }
    }
    assert forall|b: Backend| x.contains_key(b) implies x[b] == y[b] by {
        let k = choose|k: int| 0 <= k < after.len() && (#[trigger] after[k]).0 == b;
        assert(rows[k].0 == b);
        assert(x[after[k].0] == after[k].1);
        if k != i {
            assert(rows_map(rows)[rows[k].0] == rows[k].1);
            if k < i {
                assert(rows[k].0 != rows[i].0);
            } else {
                assert(rows[i].0 != rows[k].0);
            }
        }
    }
    assert(x =~= y);
}

/// Entries by backend.
#[derive(Debug)]
pub struct Roster<V> {
    rows: Vec<(Backend, V)>,
}

impl<V> View for Roster<V> {
    type V = Map<Backend, V>;

    closed spec fn view(&self) -> Map<Backend, V> {
        rows_map(self.rows@)
    }
}

impl<V> Roster<V> {
    /// No backend occurs twice.
    pub closed spec fn wf(self) -> bool {
        distinct(self.rows@)
    }

    /// The backends with an entry, in the order they got one.
    pub closed spec fn order(self) -> Seq<Backend> {
        Seq::new(self.rows@.len(), |i: int| self.rows@[i].0)
    }

    /// No entries.
    pub fn new() -> (r: Self)
        ensures
            r.wf(),
            r@ == Map::<Backend, V>::empty(),
            r.order() == Seq::<Backend>::empty(),
    {
        let r = Roster { rows: Vec::new() };
        assert(r.order() =~= Seq::empty());
        r
    }

    /// How many backends have an entry.
    pub fn len(&self) -> (n: usize)
        requires
            self.wf(),
        ensures
            n == self.order().len(),
    {
        self.rows.len()
    }

    /// The entry of the backend that was the `i`-th to get one.
    pub fn nth(&self, i: usize) -> (v: &V)
        requires
            self.wf(),
            i < self.order().len(),
        ensures
            self@.contains_key(self.order()[i as int]),
            *v == self@[self.order()[i as int]],
    {
        proof {
            lemma_rows_map(self.rows@);
        }
        &self.rows[i].1
    }

    /// Where a backend's row is; the number of rows if it has none.
    fn find(&self, backend: &Backend) -> (i: usize)
        requires
            self.wf(),
        ensures
            i <= self.rows@.len(),
            i < self.rows@.len() ==> self.rows@[i as int].0 == *backend && self@.contains_key(
                *backend,
            ) && self@[*backend] == self.rows@[i as int].1,
            i == self.rows@.len() ==> !self@.contains_key(*backend),
    {
        let mut i: usize = 0;
        while i < self.rows.len()
            invariant
                self.wf(),
                i <= self.rows@.len(),
                forall|k: int| 0 <= k < i ==> (#[trigger] self.rows@[k]).0 != *backend,
            decreases self.rows@.len() - i,
        {
            if self.rows[i].0 == *backend {
                proof {
                    lemma_rows_map(self.rows@);
                }
                return i;
            }
            i += 1;
        }
        proof {
            lemma_rows_map(self.rows@);
        }
        i
    }

    /// A backend's entry.
    pub fn get(&self, backend: &Backend) -> (r: Option<&V>)
        requires
            self.wf(),
        ensures
            match r {
                Some(v) => self@.contains_key(*backend) && *v == self@[*backend],
                None => !self@.contains_key(*backend),
            },
    {
        let i = self.find(backend);
        if i < self.rows.len() {
            Some(&self.rows[i].1)
        } else {
            None
        }
    }

    /// A backend's entry, to change; `fresh` where it has none yet.
    pub fn get_or_insert(&mut self, backend: &Backend, fresh: V) -> (r: &mut V)
        requires
            old(self).wf(),
        ensures
            *r == (if old(self)@.contains_key(*backend) {
                old(self)@[*backend]
            } else {
                fresh
            }),
            final(self)@ == old(self)@.insert(*backend, *final(r)),
            final(self).wf(),
            final(self).order() == (if old(self)@.contains_key(*backend) {
                old(self).order()
            } else {
                old(self).order().push(*backend)
            }),
    {
        let i = self.find(backend);
        if i == self.rows.len() {
            let ghost before = self.rows@;
            self.rows.push((*backend, fresh));
            proof {
                lemma_rows_map(before);
                assert(self.rows@.drop_last() =~= before);
                assert(distinct(self.rows@)) by {
                    assert forall|a: int, b: int| 0 <= a < b < self.rows@.len() implies (
                    #[trigger] self.rows@[a]).0 != (#[trigger] self.rows@[b]).0 by {
                        assert(self.rows@[a] == before[a]);
                        if b < before.len() {
                            assert(self.rows@[b] == before[b]);
                        }
                    }
                }
            }
        }
        let ghost rows = self.rows@;
        proof {
            lemma_rows_map(rows);
            assert(rows[i as int].0 == *backend);
            assert forall|v: V| #[trigger]
                rows_map(rows.update(i as int, (*backend, v))) == rows_map(rows).insert(*backend, v)
                && distinct(rows.update(i as int, (*backend, v))) by {
                lemma_rows_update(rows, i as int, v);
            }
            let order = Seq::new(rows.len(), |k: int| rows[k].0);
            assert(order =~= if old(self)@.contains_key(*backend) {
                old(self).order()
            } else {
                old(self).order().push(*backend)
            });
            assert forall|v: V| Seq::new(
                rows.len(),
                |k: int| (#[trigger] rows.update(i as int, (*backend, v)))[k].0,
            ) == order by {
                assert(Seq::new(rows.len(), |k: int| rows.update(i as int, (*backend, v))[k].0)
                    =~= order);
            }
            assert forall|v: V| #[trigger]
                rows_map(rows).insert(*backend, v) == old(self)@.insert(*backend, v) by {
                assert(rows_map(rows).insert(*backend, v) =~= old(self)@.insert(*backend, v));
            }
        }
        &mut self.rows[i].1
    }
}

} // verus!
