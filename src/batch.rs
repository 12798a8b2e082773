//! Batches of completed records pulled from a source, all of them or only
//! the registered ones.
use vstd::prelude::*;
use std::collections::VecDeque;
use crate::json::{JValue, Json, view_items, text_of};
use crate::order::{insert_sorted, strictly_sorted, view_texts};
use crate::record::{
    Node, Record, is_registered, registered, project, project_items, items_duplicates,
    duplicates, first_with_name, view_records, view_reports, lemma_view_records,
};

verus! {

/// The records that a filtered pull of up to `n` accepts from `src`, and
/// how many records of `src` it consumes: it stops after the `n`-th
/// registered record or at the end of `src`, and drops the others.
pub open spec fn accept(src: Seq<Record>, n: nat) -> (Seq<Record>, nat)
    decreases src.len(),
{
    if n == 0 || src.len() == 0 {
        (Seq::empty(), 0)
    } else if is_registered(src[0]@) {
        let rest = accept(src.drop_first(), (n - 1) as nat);
        (seq![src[0]] + rest.0, rest.1 + 1)
    } else {
        let rest = accept(src.drop_first(), n);
        (rest.0, rest.1 + 1)
    }
}

/// A filtered pull consumes no more than the source holds, accepts no
/// more than it was asked for, accepts registered records only, and stops
/// short of `n` only when the source runs out.
pub proof fn lemma_accept_bounds(src: Seq<Record>, n: nat)
    ensures
        accept(src, n).1 <= src.len(),
        accept(src, n).0.len() <= n,
        accept(src, n).0.len() < n ==> accept(src, n).1 == src.len(),
        forall|i: int| 0 <= i < accept(src, n).0.len() ==> is_registered(#[trigger] accept(src, n).0[i]@),
    decreases src.len(),
{
    if n > 0 && src.len() > 0 {
        if is_registered(src[0]@) {
            lemma_accept_bounds(src.drop_first(), (n - 1) as nat);
            let rest = accept(src.drop_first(), (n - 1) as nat);
            assert forall|i: int| 0 <= i < accept(src, n).0.len() implies is_registered(#[trigger] accept(src, n).0[i]@) by {
                if i > 0 {
                    assert(accept(src, n).0[i] == rest.0[i - 1]);
                }
            }
        } else {
            lemma_accept_bounds(src.drop_first(), n);
        }
    }
}

/// An empty source gives an empty pull in both modes.
pub proof fn lemma_empty_source(src: Seq<Record>, n: nat)
    requires
        src.len() == 0,
    ensures
        taken(src.len(), n) == 0,
        accept(src, n).0.len() == 0,
{
}

/// How many records an unconditional pull of up to `n` takes from a
/// source of `len` records.
pub open spec fn taken(len: nat, n: nat) -> nat {
    if n < len {
        n
    } else {
        len
    }
}

/// A batch of records in source order.
pub struct Batch(pub Vec<Record>);

impl Batch {
    /// An empty batch.
    pub fn new() -> (r: Batch)
        ensures
            r.0@ == Seq::<Record>::empty(),
    {
        Batch(Vec::new())
    }

    /// The number of records in the batch.
    pub fn len(&self) -> (r: usize)
        ensures
            r == self.0@.len(),
    {
        self.0.len()
    }

    /// Whether the batch holds no record.
    pub fn is_empty(&self) -> (r: bool)
        ensures
            r == (self.0@.len() == 0),
    {
        self.0.len() == 0
    }

    /// Moves up to `elements` records from the front of `it` to the end of
    /// the batch, stopping early when `it` runs out.
    pub fn fill(&mut self, it: &mut VecDeque<Record>, elements: usize)
        ensures
            final(self).0@ == old(self).0@ + old(it)@.take(taken(old(it)@.len(), elements as nat) as int),
            final(it)@ == old(it)@.skip(taken(old(it)@.len(), elements as nat) as int),
    {
        let ghost b0 = self.0@;
        let ghost it0 = it@;
        let mut i: usize = 0;
        while i < elements && it.len() > 0
            invariant
                i <= elements,
                i <= it0.len(),
                self.0@ == b0 + it0.take(i as int),
                it@ == it0.skip(i as int),
            decreases elements - i,
        {
            match it.pop_front() {
                Some(r) => {
                    self.0.push(r);
                    proof {
                        assert(it0.take(i as int + 1) =~= it0.take(i as int).push(r));
                        assert(it@ =~= it0.skip(i as int + 1));
                    }
                    i = i + 1;
                },
                None => {},
            }
        }
    }

    /// Pulls records from the front of `it` until `elements` registered
    /// ones have been added to the batch or `it` runs out; the records that
    /// are not registered are dropped.
    pub fn fill_registered(&mut self, it: &mut VecDeque<Record>, elements: usize)
        ensures
            final(self).0@ == old(self).0@ + accept(old(it)@, elements as nat).0,
            final(it)@ == old(it)@.skip(accept(old(it)@, elements as nat).1 as int),
    {
        let ghost b0 = self.0@;
        let ghost it0 = it@;
        let ghost n = elements as nat;
        let mut i: usize = 0;
        proof {
            assert(it0 =~= it0.skip(0));
            assert(b0 =~= b0 + Seq::<Record>::empty());
        }
        while i < elements && it.len() > 0
            invariant
                i <= elements,
                n == elements as nat,
                it0.skip(accept(it0, n).1 as int) == it@.skip(accept(it@, (n - i) as nat).1 as int),
                b0 + accept(it0, n).0 == self.0@ + accept(it@, (n - i) as nat).0,
            decreases it@.len(),
        {
            let ghost cur = it@;
            let ghost acc = self.0@;
            let ghost m = (n - i) as nat;
            match it.pop_front() {
                Some(r) => {
                    proof {
                        assert(cur.drop_first() =~= it@);
                        assert(cur[0] == r);
                        lemma_accept_bounds(it@, m);
                        if m > 0 {
                            lemma_accept_bounds(it@, (m - 1) as nat);
                        }
                    }
                    if registered(&r) {
                        self.0.push(r);
                        proof {
                            let rest = accept(it@, (m - 1) as nat);
                            assert(is_registered(cur[0]@));
                            assert(m > 0);
                            assert(accept(cur, m).0 == seq![r] + rest.0);
                            assert(accept(cur, m).1 == rest.1 + 1);
                            assert(cur.skip(rest.1 + 1int) =~= it@.skip(rest.1 as int));
                            assert(acc + accept(cur, m).0 =~= self.0@ + rest.0);
                        }
                        i = i + 1;
                    } else {
                        proof {
                            let rest = accept(it@, m);
                            assert(accept(cur, m) == (rest.0, rest.1 + 1));
                            assert(cur.skip(rest.1 + 1int) =~= it@.skip(rest.1 as int));
                        }
                    }
                },
                None => {},
            }
        }
        proof {
            assert(accept(it@, (n - i) as nat).1 == 0);
            assert(it@.skip(0) =~= it@);
            assert(self.0@ + Seq::<Record>::empty() =~= self.0@);
        }
    }

    /// Up to `elements` records from the front of `it`; `None` when that
    /// gives none.
    pub fn from_iter(it: &mut VecDeque<Record>, elements: usize) -> (r: Option<Batch>)
        ensures
            final(it)@ == old(it)@.skip(taken(old(it)@.len(), elements as nat) as int),
            match r {
                Some(b) => taken(old(it)@.len(), elements as nat) > 0 && b.0@ == old(it)@.take(
                    taken(old(it)@.len(), elements as nat) as int,
                ),
                None => taken(old(it)@.len(), elements as nat) == 0,
            },
    {
        let mut batch = Batch::new();
        batch.fill(it, elements);
        if batch.is_empty() {
            None
        } else {
            proof {
                assert(batch.0@ =~= old(it)@.take(taken(old(it)@.len(), elements as nat) as int));
            }
            Some(batch)
        }
    }

    /// Up to `elements` registered records pulled from the front of `it`;
    /// `None` when it gives none.
    pub fn from_iter_registered(it: &mut VecDeque<Record>, elements: usize) -> (r: Option<Batch>)
        ensures
            final(it)@ == old(it)@.skip(accept(old(it)@, elements as nat).1 as int),
            match r {
                Some(b) => accept(old(it)@, elements as nat).0.len() > 0 && b.0@ == accept(
                    old(it)@,
                    elements as nat,
                ).0,
                None => accept(old(it)@, elements as nat).0.len() == 0,
            },
    {
        let mut batch = Batch::new();
        batch.fill_registered(it, elements);
        if batch.is_empty() {
            None
        } else {
            proof {
                assert(batch.0@ =~= accept(old(it)@, elements as nat).0);
            }
            Some(batch)
        }
    }
}


/// The names of the direct children of the records, over the whole batch.
pub open spec fn child_names(recs: Seq<Record>) -> Set<Seq<char>> {
    Set::new(|k: Seq<char>| exists|i: int, j: int| 0 <= i < recs.len() && 0 <= j < recs[i].children@.len() && #[trigger] recs[i].children@[j].element@ == k)
}

/// The names met in records before `i`, and in record `i` before child `j`.
pub open spec fn names_before(recs: Seq<Record>, i: int, j: int) -> Set<Seq<char>> {
    Set::new(|k: Seq<char>| exists|a: int, b: int| 0 <= a < recs.len() && 0 <= b < recs[a].children@.len() && (a < i || (a == i && b < j)) && #[trigger] recs[a].children@[b].element@ == k)
}

/// The cell of a record in the column `name`: the serialised projection of
/// its first child of that name when that child is a structure, the
/// child's text when it is a scalar, and empty text when there is none.
pub open spec fn cell_text(n: Node, name: Seq<char>) -> Seq<char> {
    match first_with_name(n.children, name) {
        Some(c) => if c.kind.spec_is_structure() {
            text_of(project(c))
        } else {
            c.text
        },
        None => Seq::empty(),
    }
}

/// The duplicates reported while a cell is computed.
pub open spec fn cell_duplicates(n: Node, name: Seq<char>) -> Seq<(Seq<char>, Seq<char>)> {
    match first_with_name(n.children, name) {
        Some(c) => if c.kind.spec_is_structure() {
            duplicates(c)
        } else {
            Seq::empty()
        },
        None => Seq::empty(),
    }
}

pub open spec fn column_duplicates(recs: Seq<Record>, name: Seq<char>) -> Seq<(Seq<char>, Seq<char>)>
    decreases recs.len(),
{
    if recs.len() == 0 {
        Seq::empty()
    } else {
        column_duplicates(recs.drop_last(), name) + cell_duplicates(recs.last()@, name)
    }
}

impl Batch {
    /// The batch as a JSON array of the records' projections.
    pub fn to_json(&self, reports: &mut Vec<(String, String)>) -> (r: Json)
        ensures
            r@ == JValue::Array(project_items(view_records(self.0@))),
            view_reports(final(reports)@) == view_reports(old(reports)@) + items_duplicates(view_records(self.0@)),
    {
        let ghost r0 = reports@;
        let ghost s = view_records(self.0@);
        proof {
            lemma_view_records(self.0@);
        }
        let mut array: Vec<Json> = Vec::new();
        let mut i: usize = 0;
        proof {
            assert(view_items(array@) =~= project_items(s.subrange(0, 0)));
            assert(view_reports(reports@) =~= view_reports(r0) + items_duplicates(s.subrange(0, 0)));
        }
        while i < self.0.len()
            invariant
                i <= self.0.len(),
                s == view_records(self.0@),
                s.len() == self.0@.len(),
                forall|j: int| 0 <= j < s.len() ==> #[trigger] s[j] == self.0@[j]@,
                view_items(array@) == project_items(s.subrange(0, i as int)),
                view_reports(reports@) == view_reports(r0) + items_duplicates(s.subrange(0, i as int)),
            decreases self.0.len() - i,
        {
            let ghost a0 = array@;
            let j = self.0[i].to_json(reports);
            array.push(j);
            proof {
                let pre = s.subrange(0, i as int);
                let post = s.subrange(0, i as int + 1);
                assert(post.drop_last() =~= pre);
                assert(array@.drop_last() =~= a0);
                assert(view_items(array@) =~= project_items(post));
                assert(view_reports(reports@) =~= view_reports(r0) + items_duplicates(post));
            }
            i = i + 1;
        }
        proof {
            assert(s.subrange(0, s.len() as int) =~= s);
        }
        Json::Array(array)
    }

    /// The candidate column names: every direct child name in the batch,
    /// sorted, each once.
    pub fn columns(&self) -> (r: Vec<String>)
        ensures
            strictly_sorted(view_texts(r@)),
            view_texts(r@).to_set() == child_names(self.0@),
    {
        let ghost recs = self.0@;
        let mut set: Vec<String> = Vec::new();
        let mut i: usize = 0;
        proof {
            assert(view_texts(set@).to_set() =~= names_before(recs, 0, 0));
        }
        while i < self.0.len()
            invariant
                i <= self.0.len(),
                recs == self.0@,
                strictly_sorted(view_texts(set@)),
                view_texts(set@).to_set() == names_before(recs, i as int, 0),
            decreases self.0.len() - i,
        {
            let rec = &self.0[i];
            let mut j: usize = 0;
            while j < rec.children.len()
                invariant
                    i < self.0.len(),
                    recs == self.0@,
                    *rec == recs[i as int],
                    j <= rec.children.len(),
                    strictly_sorted(view_texts(set@)),
                    view_texts(set@).to_set() == names_before(recs, i as int, j as int),
                decreases rec.children.len() - j,
            {
                insert_sorted(&mut set, rec.children[j].element.as_str());
                proof {
                    assert(view_texts(set@).to_set() =~= names_before(recs, i as int, j as int + 1)) by {
                        assert forall|k: Seq<char>| names_before(recs, i as int, j as int + 1).contains(k) implies names_before(recs, i as int, j as int).insert(rec.children@[j as int].element@).contains(k) by {
                            let (a, b) = choose|a: int, b: int| 0 <= a < recs.len() && 0 <= b < recs[a].children@.len() && (a < i || (a == i && b < j + 1)) && #[trigger] recs[a].children@[b].element@ == k;
                            if !(a == i && b == j) {
                                assert(names_before(recs, i as int, j as int).contains(k));
                            }
                        }
                        assert forall|k: Seq<char>| names_before(recs, i as int, j as int).insert(rec.children@[j as int].element@).contains(k) implies names_before(recs, i as int, j as int + 1).contains(k) by {
                            if k == rec.children@[j as int].element@ {
                                assert(recs[i as int].children@[j as int].element@ == k);
                            } else {
                                let (a, b) = choose|a: int, b: int| 0 <= a < recs.len() && 0 <= b < recs[a].children@.len() && (a < i || (a == i && b < j)) && #[trigger] recs[a].children@[b].element@ == k;
                                assert(recs[a].children@[b].element@ == k);
                            }
                        }
                    }
                }
                j = j + 1;
            }
            proof {
                assert(names_before(recs, i as int, j as int) =~= names_before(recs, i as int + 1, 0)) by {
                    assert forall|k: Seq<char>| names_before(recs, i as int + 1, 0).contains(k) implies names_before(recs, i as int, j as int).contains(k) by {
                        let (a, b) = choose|a: int, b: int| 0 <= a < recs.len() && 0 <= b < recs[a].children@.len() && (a < i + 1 || (a == i + 1 && b < 0)) && #[trigger] recs[a].children@[b].element@ == k;
                        assert(recs[a].children@[b].element@ == k);
                    }
                    assert forall|k: Seq<char>| names_before(recs, i as int, j as int).contains(k) implies names_before(recs, i as int + 1, 0).contains(k) by {
                        let (a, b) = choose|a: int, b: int| 0 <= a < recs.len() && 0 <= b < recs[a].children@.len() && (a < i || (a == i && b < j)) && #[trigger] recs[a].children@[b].element@ == k;
                        assert(recs[a].children@[b].element@ == k);
                    }
                }
            }
            i = i + 1;
        }
        proof {
            assert(names_before(recs, i as int, 0) =~= child_names(recs)) by {
                assert forall|k: Seq<char>| child_names(recs).contains(k) implies names_before(recs, i as int, 0).contains(k) by {
                    let (a, b) = choose|a: int, b: int| 0 <= a < recs.len() && 0 <= b < recs[a].children@.len() && #[trigger] recs[a].children@[b].element@ == k;
                    assert(recs[a].children@[b].element@ == k);
                }
            }
        }
        set
    }

    /// The column `name`: one cell per record, in batch order.
    pub fn column_values(&self, name: &str, reports: &mut Vec<(String, String)>) -> (r: Vec<String>)
        ensures
            r@.len() == self.0@.len(),
            forall|i: int| 0 <= i < r@.len() ==> #[trigger] r@[i]@ == cell_text(self.0@[i]@, name@),
            view_reports(final(reports)@) == view_reports(old(reports)@) + column_duplicates(self.0@, name@),
    {
        let ghost r0 = reports@;
        let mut out: Vec<String> = Vec::new();
        let mut i: usize = 0;
        proof {
            assert(self.0@.subrange(0, 0) =~= Seq::<Record>::empty());
            assert(view_reports(reports@) =~= view_reports(r0) + column_duplicates(self.0@.subrange(0, 0), name@));
        }
        while i < self.0.len()
            invariant
                i <= self.0.len(),
                out@.len() == i,
                forall|j: int| 0 <= j < i ==> #[trigger] out@[j]@ == cell_text(self.0@[j]@, name@),
                view_reports(reports@) == view_reports(r0) + column_duplicates(self.0@.subrange(0, i as int), name@),
            decreases self.0.len() - i,
        {
            let ghost q0 = reports@;
            let cell = match self.0[i].get_record(name) {
                Some(c) => if c.kind.is_structure() {
                    let j = c.to_json(reports);
                    j.to_text()
                } else {
                    c.text.clone()
                },
                None => String::new(),
            };
            out.push(cell);
            proof {
                let post = self.0@.subrange(0, i as int + 1);
                assert(post.drop_last() =~= self.0@.subrange(0, i as int));
                assert(post.last() == self.0@[i as int]);
                let a = view_reports(r0);
                let b = column_duplicates(self.0@.subrange(0, i as int), name@);
                let c = cell_duplicates(self.0@[i as int]@, name@);
                assert(view_reports(reports@) =~= view_reports(q0) + c);
                assert((a + b) + c =~= a + (b + c));
            }
            i = i + 1;
        }
        proof {
            assert(self.0@.subrange(0, self.0@.len() as int) =~= self.0@);
        }
        out
    }
}

} // verus!
