//! Parsed elements as labelled trees, and their projection into JSON.
use vstd::prelude::*;
use crate::json::{JValue, Json, has_key, contains_key, view_entries, view_items};
use crate::schema::{Kind, classify, kind_of, same_text};

verus! {

/// The mathematical model of a record: the element's name, its kind, its
/// accumulated text and its children in document order.
pub struct Node {
    pub element: Seq<char>,
    pub kind: Kind,
    pub text: Seq<char>,
    pub children: Seq<Node>,
}

/// One parsed element with the children that it owns.
pub struct Record {
    pub element: String,
    pub kind: Kind,
    pub text: String,
    pub children: Vec<Record>,
}

impl Record {
    pub open spec fn view(&self) -> Node
        decreases self,
    {
        Node {
            element: self.element@,
            kind: self.kind,
            text: self.text@,
            children: view_records(self.children@),
        }
    }
}

pub open spec fn view_records(s: Seq<Record>) -> Seq<Node>
    decreases s,
{
    if s.len() == 0 {
        Seq::empty()
    } else {
        view_records(s.drop_last()).push(s.last().view())
    }
}

pub proof fn lemma_view_records(s: Seq<Record>)
    ensures
        view_records(s).len() == s.len(),
        forall|i: int| 0 <= i < s.len() ==> #[trigger] view_records(s)[i] == s[i].view(),
    decreases s.len(),
{
    if s.len() > 0 {
        lemma_view_records(s.drop_last());
    }
}

/// The first child called `name`, if there is one.
pub open spec fn first_with_name(s: Seq<Node>, name: Seq<char>) -> Option<Node>
    decreases s.len(),
{
    if s.len() == 0 {
        None
    } else if s[0].element == name {
        Some(s[0])
    } else {
        first_with_name(s.drop_first(), name)
    }
}

pub proof fn lemma_first_with_name(s: Seq<Node>, name: Seq<char>, i: int)
    requires
        0 <= i <= s.len(),
        forall|j: int| 0 <= j < i ==> (#[trigger] s[j]).element != name,
    ensures
        first_with_name(s, name) == first_with_name(s.subrange(i, s.len() as int), name),
    decreases i,
{
    if i > 0 {
        assert(s.drop_first().subrange(i - 1, s.drop_first().len() as int) =~= s.subrange(i, s.len() as int));
        lemma_first_with_name(s.drop_first(), name, i - 1);
    } else {
        assert(s.subrange(0, s.len() as int) =~= s);
    }
}

/// A record is registered when its first `KoeretoejRegistreringStatus`
/// child holds the text `Registreret`.
pub open spec fn is_registered(n: Node) -> bool {
    match first_with_name(n.children, "KoeretoejRegistreringStatus"@) {
        Some(c) => c.text == "Registreret"@,
        None => false,
    }
}

/// The JSON projection of a record: a scalar is its text, an array
/// structure the projections of its children, and an object structure maps
/// each child's name to its projection, the first child of a name winning.
pub open spec fn project(n: Node) -> JValue
    decreases n,
{
    match n.kind {
        Kind::Scalar => JValue::Str(n.text),
        Kind::ArrayStructure => JValue::Array(project_items(n.children)),
        Kind::ObjectStructure => JValue::Object(project_fields(n.children)),
    }
}

pub open spec fn project_items(s: Seq<Node>) -> Seq<JValue>
    decreases s,
{
    if s.len() == 0 {
        Seq::empty()
    } else {
        project_items(s.drop_last()).push(project(s.last()))
    }
}

pub open spec fn project_fields(s: Seq<Node>) -> Seq<(Seq<char>, JValue)>
    decreases s,
{
    if s.len() == 0 {
        Seq::empty()
    } else {
        let prev = project_fields(s.drop_last());
        if has_key(prev, s.last().element) {
            prev
        } else {
            prev.push((s.last().element, project(s.last())))
        }
    }
}

/// The duplicates met while projecting, in the order met: each is the name
/// of a discarded child and the name of its parent.
pub open spec fn duplicates(n: Node) -> Seq<(Seq<char>, Seq<char>)>
    decreases n,
{
    match n.kind {
        Kind::Scalar => Seq::empty(),
        Kind::ArrayStructure => items_duplicates(n.children),
        Kind::ObjectStructure => fields_duplicates(n.children, n.element),
    }
}

pub open spec fn items_duplicates(s: Seq<Node>) -> Seq<(Seq<char>, Seq<char>)>
    decreases s,
{
    if s.len() == 0 {
        Seq::empty()
    } else {
        items_duplicates(s.drop_last()) + duplicates(s.last())
    }
}

pub open spec fn fields_duplicates(s: Seq<Node>, parent: Seq<char>) -> Seq<(Seq<char>, Seq<char>)>
    decreases s,
{
    if s.len() == 0 {
        Seq::empty()
    } else if has_key(project_fields(s.drop_last()), s.last().element) {
        fields_duplicates(s.drop_last(), parent).push((s.last().element, parent))
    } else {
        fields_duplicates(s.drop_last(), parent) + duplicates(s.last())
    }
}

pub open spec fn view_reports(s: Seq<(String, String)>) -> Seq<(Seq<char>, Seq<char>)> {
    Seq::new(s.len(), |i: int| (s[i].0@, s[i].1@))
}

impl Record {
    /// A new, empty record for an element called `element`, its kind taken
    /// from the schema.
    pub fn new(element: &str) -> (r: Record)
        ensures
            r@ == (Node {
                element: element@,
                kind: kind_of(element@),
                text: Seq::empty(),
                children: Seq::empty(),
            }),
    {
        let r = Record {
            element: String::from_str(element),
            kind: classify(element),
            text: String::new(),
            children: Vec::new(),
        };
        proof {
            assert(view_records(r.children@) =~= Seq::<Node>::empty());
        }
        r
    }

    /// Appends a fragment of character data to the text.
    pub fn add_text(&mut self, text: &str)
        ensures
            final(self)@ == (Node { text: old(self)@.text + text@, ..old(self)@ }),
    {
        self.text.append(text);
    }

    /// Appends a completed child as the last child.
    pub fn add_child(&mut self, rec: Record)
        ensures
            final(self)@ == (Node { children: old(self)@.children.push(rec@), ..old(self)@ }),
    {
        let ghost before = self.children@;
        self.children.push(rec);
        proof {
            assert(self.children@.drop_last() =~= before);
        }
    }

    /// The first direct child called `name`.
    pub fn get_record(&self, name: &str) -> (r: Option<&Record>)
        ensures
            match r {
                Some(c) => first_with_name(self@.children, name@) == Some(c@),
                None => first_with_name(self@.children, name@).is_none(),
            },
    {
        proof {
            lemma_view_records(self.children@);
        }
        let ghost s = self@.children;
        let mut i: usize = 0;
        while i < self.children.len()
            invariant
                i <= self.children.len(),
                s == view_records(self.children@),
                s.len() == self.children@.len(),
                forall|j: int| 0 <= j < s.len() ==> #[trigger] s[j] == self.children@[j]@,
                forall|j: int| 0 <= j < i ==> (#[trigger] s[j]).element != name@,
            decreases self.children.len() - i,
        {
            if same_text(self.children[i].element.as_str(), name) {
                proof {
                    lemma_first_with_name(s, name@, i as int);
                    assert(s.subrange(i as int, s.len() as int)[0] == s[i as int]);
                }
                return Some(&self.children[i]);
            }
            i = i + 1;
        }
        proof {
            lemma_first_with_name(s, name@, i as int);
        }
        None
    }

    /// The text of the first direct child called `name`.
    pub fn get(&self, name: &str) -> (r: Option<&String>)
        ensures
            match r {
                Some(t) => first_with_name(self@.children, name@) matches Some(c) && c.text == t@,
                None => first_with_name(self@.children, name@).is_none(),
            },
    {
        match self.get_record(name) {
            Some(c) => Some(&c.text),
            None => None,
        }
    }

    /// The JSON projection of this record. Each child of an object
    /// structure whose name an earlier child already holds is discarded and
    /// reported, as (child name, parent name), at the end of `reports`.
    pub fn to_json(&self, reports: &mut Vec<(String, String)>) -> (r: Json)
        ensures
            r@ == project(self@),
            view_reports(final(reports)@) == view_reports(old(reports)@) + duplicates(self@),
        decreases self@,
    {
        let ghost r0 = reports@;
        let ghost s = self@.children;
        proof {
            lemma_view_records(self.children@);
        }
        match self.kind {
            Kind::Scalar => {
                proof {
                    assert(view_reports(reports@) =~= view_reports(r0) + duplicates(self@));
                }
                Json::Str(self.text.clone())
            },
            Kind::ArrayStructure => {
                let mut array: Vec<Json> = Vec::new();
                let mut i: usize = 0;
                proof {
                    assert(view_items(array@) =~= project_items(s.subrange(0, 0)));
                    assert(view_reports(reports@) =~= view_reports(r0) + items_duplicates(s.subrange(0, 0)));
                }
                while i < self.children.len()
                    invariant
                        i <= self.children.len(),
                        self@.kind == Kind::ArrayStructure,
                        s == self@.children,
                        s == view_records(self.children@),
                        s.len() == self.children@.len(),
                        forall|j: int| 0 <= j < s.len() ==> #[trigger] s[j] == self.children@[j]@,
                        view_items(array@) == project_items(s.subrange(0, i as int)),
                        view_reports(reports@) == view_reports(r0) + items_duplicates(s.subrange(0, i as int)),
                    decreases self.children.len() - i,
                {
                    let ghost a0 = array@;
                    let ghost q0 = reports@;
                    proof {
                        assert(decreases_to!(self@ => self@.children));
                        assert(decreases_to!(s => s[i as int]));
                    }
                    let j = self.children[i].to_json(reports);
                    array.push(j);
                    proof {
                        let pre = s.subrange(0, i as int);
                        let post = s.subrange(0, i as int + 1);
                        assert(post.drop_last() =~= pre);
                        assert(array@.drop_last() =~= a0);
                        assert(view_items(array@) =~= project_items(post));
                        assert(view_reports(reports@) =~= view_reports(r0) + items_duplicates(post));
                    }
                    i = i + 1;
                }
                proof {
                    assert(s.subrange(0, s.len() as int) =~= s);
                }
                Json::Array(array)
            },
            Kind::ObjectStructure => {
                let mut obj: Vec<(String, Json)> = Vec::new();
                let mut i: usize = 0;
                proof {
                    assert(view_entries(obj@) =~= project_fields(s.subrange(0, 0)));
                    assert(view_reports(reports@) =~= view_reports(r0) + fields_duplicates(s.subrange(0, 0), self@.element));
                }
                while i < self.children.len()
                    invariant
                        i <= self.children.len(),
                        self@.kind == Kind::ObjectStructure,
                        s == self@.children,
                        s == view_records(self.children@),
                        s.len() == self.children@.len(),
                        forall|j: int| 0 <= j < s.len() ==> #[trigger] s[j] == self.children@[j]@,
                        view_entries(obj@) == project_fields(s.subrange(0, i as int)),
                        view_reports(reports@) == view_reports(r0) + fields_duplicates(
                            s.subrange(0, i as int),
                            self@.element,
                        ),
                    decreases self.children.len() - i,
                {
                    let ghost o0 = obj@;
                    let ghost q0 = reports@;
                    let ghost pre = s.subrange(0, i as int);
                    let ghost post = s.subrange(0, i as int + 1);
                    proof {
                        assert(post.drop_last() =~= pre);
                        assert(post.last() == self.children@[i as int]@);
                    }
                    let child = &self.children[i];
                    if contains_key(&obj, child.element.as_str()) {
                        reports.push((child.element.clone(), self.element.clone()));
                        proof {
                            assert(view_entries(obj@) =~= project_fields(post));
                            let x = (post.last().element, self@.element);
                            assert(view_reports(reports@) =~= view_reports(q0).push(x));
                            let a = view_reports(r0);
                            let b = fields_duplicates(pre, self@.element);
                            assert(fields_duplicates(post, self@.element) == b.push(x));
                            assert((a + b).push(x) =~= a + b.push(x));
                        }
                    } else {
                        proof {
                            assert(decreases_to!(self@ => self@.children));
                            assert(decreases_to!(s => s[i as int]));
                        }
                        let j = child.to_json(reports);
                        obj.push((child.element.clone(), j));
                        proof {
                            assert(!has_key(project_fields(pre), post.last().element));
                            assert(fields_duplicates(post, self@.element) == fields_duplicates(pre, self@.element) + duplicates(post.last()));
                            assert(view_reports(reports@) == view_reports(q0) + duplicates(post.last()));
                            let a = view_reports(r0);
                            let b = fields_duplicates(pre, self@.element);
                            let c = duplicates(post.last());
                            assert(view_reports(q0) == a + b);
                            assert((a + b) + c =~= a + (b + c));
                            assert(view_reports(reports@) == a + (b + c));
                            assert(obj@.drop_last() =~= o0);
                            assert(view_entries(obj@) =~= project_fields(post));
                            assert(view_reports(reports@) =~= view_reports(r0) + fields_duplicates(post, self@.element));
                        }
                    }
                    i = i + 1;
                }
                proof {
                    assert(s.subrange(0, s.len() as int) =~= s);
                }
                Json::Object(obj)
            },
        }
    }
}

/// Whether the record's registration status is `Registreret`.
pub fn registered(r: &Record) -> (b: bool)
    ensures
        b == is_registered(r@),
{
    match r.get("KoeretoejRegistreringStatus") {
        Some(status) => same_text(status.as_str(), "Registreret"),
        None => false,
    }
}


pub proof fn lemma_view_records_push(s: Seq<Record>, x: Record)
    ensures
        view_records(s.push(x)) == view_records(s).push(x@),
{
    assert(s.push(x).drop_last() =~= s);
}


/// A scalar projects to its text as a JSON string, whatever the text holds.
pub proof fn lemma_scalar_projection(n: Node)
    requires
        n.kind == Kind::Scalar,
    ensures
        project(n) == JValue::Str(n.text),
{
}

pub proof fn lemma_project_items(s: Seq<Node>)
    ensures
        project_items(s).len() == s.len(),
        forall|i: int| 0 <= i < s.len() ==> #[trigger] project_items(s)[i] == project(s[i]),
    decreases s.len(),
{
    if s.len() > 0 {
        lemma_project_items(s.drop_last());
    }
}

/// An array structure projects to an array with one item per child, in
/// child order, repeats included.
pub proof fn lemma_array_projection(n: Node)
    requires
        n.kind == Kind::ArrayStructure,
    ensures
        project(n) is Array,
        project(n)->Array_0.len() == n.children.len(),
        forall|i: int| 0 <= i < n.children.len() ==> #[trigger] project(n)->Array_0[i] == project(n.children[i]),
{
    lemma_project_items(n.children);
}


/// An object structure projects to an object in which every child's name
/// is a key, and no key occurs twice: later children of a name are
/// discarded, not merged.
pub proof fn lemma_object_keys(s: Seq<Node>)
    ensures
        forall|i: int, j: int|
            0 <= i < j < project_fields(s).len() ==> #[trigger] project_fields(s)[i].0 != #[trigger] project_fields(s)[j].0,
        forall|i: int| 0 <= i < s.len() ==> has_key(project_fields(s), #[trigger] s[i].element),
    decreases s.len(),
{
    if s.len() > 0 {
        let init = s.drop_last();
        lemma_object_keys(init);
        let prev = project_fields(init);
        assert forall|i: int| 0 <= i < s.len() implies has_key(project_fields(s), #[trigger] s[i].element) by {
            if i < s.len() - 1 {
                assert(init[i] == s[i]);
                let a = choose|a: int| 0 <= a < prev.len() && #[trigger] prev[a].0 == s[i].element;
                assert(project_fields(s)[a] == prev[a]);
            } else if !has_key(prev, s.last().element) {
                assert(project_fields(s)[prev.len() as int].0 == s[i].element);
            }
        }
    }
}

} // verus!
