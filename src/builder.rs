//! The tree builder: a state machine that turns a stream of parse events
//! into completed top-level records.
use vstd::prelude::*;
use crate::record::{Node, Record, view_records, lemma_view_records, lemma_view_records_push};
use crate::schema::{kind_of, root_tag, is_root_tag};

verus! {

/// One parse event, as the tokenizer delivers it.
pub enum Event {
    /// The start of an element, with its local name.
    Start(String),
    /// A fragment of character data.
    Text(String),
    /// The end of the innermost open element.
    End,
}

/// The mathematical model of a parse event.
pub enum Ev {
    Start(Seq<char>),
    Text(Seq<char>),
    End,
}

impl Event {
    pub open spec fn view(&self) -> Ev {
        match self {
            Event::Start(n) => Ev::Start(n@),
            Event::Text(t) => Ev::Text(t@),
            Event::End => Ev::End,
        }
    }
}

/// A fresh record model for an element called `name`.
pub open spec fn fresh(name: Seq<char>) -> Node {
    Node { element: name, kind: kind_of(name), text: Seq::empty(), children: Seq::empty() }
}

/// One transition of the builder: the new stack of open records, and the
/// record completed by this event, if any.
pub open spec fn step(stack: Seq<Node>, e: Ev) -> (Seq<Node>, Option<Node>) {
    match e {
        Ev::Start(name) => if stack.len() > 0 || name == root_tag() {
            (stack.push(fresh(name)), None)
        } else {
            (stack, None)
        },
        Ev::Text(t) => if stack.len() > 0 {
            let top = stack.last();
            (stack.update(stack.len() - 1, Node { text: top.text + t, ..top }), None)
        } else {
            (stack, None)
        },
        Ev::End => if stack.len() == 0 {
            (stack, None)
        } else if stack.len() == 1 {
            (Seq::empty(), Some(stack[0]))
        } else {
            let rec = stack.last();
            let rest = stack.drop_last();
            let parent = rest.last();
            (rest.update(rest.len() - 1, Node { children: parent.children.push(rec), ..parent }), None)
        },
    }
}

/// The builder run over a sequence of events: the final stack, and the
/// completed records in the order completed.
pub open spec fn run(stack: Seq<Node>, es: Seq<Ev>) -> (Seq<Node>, Seq<Node>)
    decreases es.len(),
{
    if es.len() == 0 {
        (stack, Seq::empty())
    } else {
        let before = run(stack, es.drop_last());
        let after = step(before.0, es.last());
        (
            after.0,
            match after.1 {
                Some(n) => before.1.push(n),
                None => before.1,
            },
        )
    }
}

pub open spec fn view_option(r: Option<Record>) -> Option<Node> {
    match r {
        Some(x) => Some(x@),
        None => None,
    }
}

pub open spec fn view_events(s: Seq<Event>) -> Seq<Ev> {
    Seq::new(s.len(), |i: int| s[i]@)
}

/// The state of the builder: the records that are open, outermost first.
pub struct TreeBuilder {
    pub stack: Vec<Record>,
}

impl TreeBuilder {
    pub open spec fn view(&self) -> Seq<Node> {
        view_records(self.stack@)
    }

    /// A builder with no open record.
    pub fn new() -> (r: TreeBuilder)
        ensures
            r@ == Seq::<Node>::empty(),
    {
        let r = TreeBuilder { stack: Vec::new() };
        proof {
            assert(view_records(r.stack@) =~= Seq::<Node>::empty());
        }
        r
    }

    /// Takes one event; returns the top-level record that it completes.
    pub fn feed(&mut self, e: &Event) -> (r: Option<Record>)
        ensures
            (final(self)@, view_option(r)) == step(old(self)@, e@),
    {
        proof {
            lemma_view_records(self.stack@);
        }
        match e {
            Event::Start(name) => {
                if self.stack.len() > 0 || is_root_tag(name.as_str()) {
                    let rec = Record::new(name.as_str());
                    proof {
                        lemma_view_records_push(self.stack@, rec);
                    }
                    self.stack.push(rec);
                }
                None
            },
            Event::Text(t) => {
                match self.stack.pop() {
                    Some(rec) => {
                        let mut rec = rec;
                        let ghost below = self.stack@;
                        rec.add_text(t.as_str());
                        proof {
                            lemma_view_records_push(below, rec);
                        }
                        self.stack.push(rec);
                        proof {
                            assert(self@ =~= step(old(self)@, e@).0);
                        }
                        None
                    },
                    None => None,
                }
            },
            Event::End => {
                match self.stack.pop() {
                    Some(rec) => {
                        if self.stack.len() == 0 {
                            proof {
                                assert(view_records(self.stack@) =~= Seq::<Node>::empty());
                            }
                            Some(rec)
                        } else {
                            let ghost rest = self.stack@;
                            proof {
                                lemma_view_records(rest);
                            }
                            match self.stack.pop() {
                                Some(parent) => {
                                    let mut parent = parent;
                                    let ghost below = self.stack@;
                                    parent.add_child(rec);
                                    proof {
                                        lemma_view_records_push(below, parent);
                                    }
                                    self.stack.push(parent);
                                    proof {
                                        assert(self@ =~= step(old(self)@, e@).0);
                                    }
                                    None
                                },
                                None => None,
                            }
                        }
                    },
                    None => None,
                }
            },
        }
    }

    /// Takes the events in order; returns the top-level records that they
    /// complete, in the order completed.
    pub fn feed_all(&mut self, events: &Vec<Event>) -> (r: Vec<Record>)
        ensures
            (final(self)@, view_records(r@)) == run(old(self)@, view_events(events@)),
    {
        let ghost s0 = self@;
        let ghost es = view_events(events@);
        let mut out: Vec<Record> = Vec::new();
        let mut i: usize = 0;
        proof {
            assert(es.subrange(0, 0) =~= Seq::<Ev>::empty());
            assert(view_records(out@) =~= Seq::<Node>::empty());
        }
        while i < events.len()
            invariant
                i <= events.len(),
                es == view_events(events@),
                (self@, view_records(out@)) == run(s0, es.subrange(0, i as int)),
            decreases events.len() - i,
        {
            let r = self.feed(&events[i]);
            proof {
                assert(es.subrange(0, i as int + 1).drop_last() =~= es.subrange(0, i as int));
                assert(es.subrange(0, i as int + 1).last() == events@[i as int]@);
            }
            match r {
                Some(rec) => {
                    proof {
                        lemma_view_records_push(out@, rec);
                    }
                    out.push(rec);
                },
                None => {},
            }
            i = i + 1;
        }
        proof {
            assert(es.subrange(0, events@.len() as int) =~= es);
        }
        out
    }
}

/// Feeding a stream in two parts, the second from the state that the first
/// left, ends in the same state and completes the same records, in the same
/// order, as feeding it whole: how the events are chunked does not matter.
pub proof fn lemma_chunking(stack: Seq<Node>, a: Seq<Ev>, b: Seq<Ev>)
    ensures
        run(stack, a + b) == (run(run(stack, a).0, b).0, run(stack, a).1 + run(run(stack, a).0, b).1),
    decreases b.len(),
{
    if b.len() == 0 {
        assert(a + b =~= a);
        assert(run(stack, a).1 + Seq::<Node>::empty() =~= run(stack, a).1);
    } else {
        lemma_chunking(stack, a, b.drop_last());
        assert((a + b).drop_last() =~= a + b.drop_last());
        assert((a + b).last() == b.last());
        let mid = run(stack, a);
        let tail = run(mid.0, b.drop_last());
        match step(tail.0, b.last()).1 {
            Some(n) => {
                assert((mid.1 + tail.1).push(n) =~= mid.1 + tail.1.push(n));
            },
            None => {},
        }
    }
}

/// Character data split over consecutive events accumulates to the same
/// state as the same data in one event.
pub proof fn lemma_text_fragments(stack: Seq<Node>, a: Seq<char>, b: Seq<char>)
    ensures
        step(step(stack, Ev::Text(a)).0, Ev::Text(b)) == step(stack, Ev::Text(a + b)),
{
    if stack.len() > 0 {
        let top = stack.last();
        assert((top.text + a) + b =~= top.text + (a + b));
        assert(step(step(stack, Ev::Text(a)).0, Ev::Text(b)).0 =~= step(stack, Ev::Text(a + b)).0);
    }
}

/// A stream in which the root element never starts leaves the builder
/// without open records and completes no record.
pub proof fn lemma_no_root(es: Seq<Ev>)
    requires
        forall|i: int| 0 <= i < es.len() ==> es[i] != Ev::Start(root_tag()),
    ensures
        run(Seq::empty(), es) == (Seq::<Node>::empty(), Seq::<Node>::empty()),
    decreases es.len(),
{
    if es.len() > 0 {
        lemma_no_root(es.drop_last());
        assert(es.last() == es[es.len() - 1]);
    }
}

/// The bottom of the stack, when there is one, is a root element.
pub open spec fn rooted(stack: Seq<Node>) -> bool {
    stack.len() > 0 ==> stack[0].element == root_tag()
}

/// From a stack rooted at the root element, every record that the builder
/// completes is a root element, and the stack stays rooted.
pub proof fn lemma_records_are_roots(stack: Seq<Node>, es: Seq<Ev>)
    requires
        rooted(stack),
    ensures
        rooted(run(stack, es).0),
        forall|i: int| 0 <= i < run(stack, es).1.len() ==> (#[trigger] run(stack, es).1[i]).element == root_tag(),
    decreases es.len(),
{
    if es.len() > 0 {
        lemma_records_are_roots(stack, es.drop_last());
        let before = run(stack, es.drop_last());
        let after = step(before.0, es.last());
        if before.0.len() > 1 {
            assert(after.0.len() > 0 ==> after.0[0].element == before.0[0].element);
        }
    }
}


/// Every node of the tree has the kind that the schema gives its name.
pub open spec fn well_formed(n: Node) -> bool
    decreases n,
{
    n.kind == kind_of(n.element) && all_well_formed(n.children)
}

pub open spec fn all_well_formed(s: Seq<Node>) -> bool
    decreases s,
{
    s.len() == 0 || (all_well_formed(s.drop_last()) && well_formed(s.last()))
}

/// The events of an element: its start, its text, the events of its
/// children in order, and its end.
pub open spec fn node_events(n: Node) -> Seq<Ev>
    decreases n,
{
    seq![Ev::Start(n.element), Ev::Text(n.text)] + children_events(n.children) + seq![Ev::End]
}

pub open spec fn children_events(s: Seq<Node>) -> Seq<Ev>
    decreases s,
{
    if s.len() == 0 {
        Seq::empty()
    } else {
        children_events(s.drop_last()) + node_events(s.last())
    }
}

/// The events of a sequence of top-level records, one after another.
pub open spec fn stream_events(s: Seq<Node>) -> Seq<Ev>
    decreases s.len(),
{
    if s.len() == 0 {
        Seq::empty()
    } else {
        stream_events(s.drop_last()) + node_events(s.last())
    }
}

/// The stack with `cs` appended to the children of its innermost record.
pub open spec fn with_children(stack: Seq<Node>, cs: Seq<Node>) -> Seq<Node> {
    stack.update(stack.len() - 1, Node { children: stack.last().children + cs, ..stack.last() })
}

proof fn lemma_run_single(stack: Seq<Node>, e: Ev)
    ensures
        run(stack, seq![e]) == (step(stack, e).0, match step(stack, e).1 {
            Some(n) => seq![n],
            None => Seq::<Node>::empty(),
        }),
{
    assert(seq![e].drop_last() =~= Seq::<Ev>::empty());
    assert(run(stack, Seq::<Ev>::empty()) == (stack, Seq::<Node>::empty()));
    assert(seq![e].last() == e);
    match step(stack, e).1 {
        Some(n) => {
            assert(Seq::<Node>::empty().push(n) =~= seq![n]);
        },
        None => {},
    }
}

proof fn lemma_run_two(stack: Seq<Node>, a: Ev, b: Ev)
    requires
        step(stack, a).1.is_none(),
        step(step(stack, a).0, b).1.is_none(),
    ensures
        run(stack, seq![a, b]) == (step(step(stack, a).0, b).0, Seq::<Node>::empty()),
{
    lemma_run_single(stack, a);
    lemma_run_single(step(stack, a).0, b);
    assert(seq![a] + seq![b] =~= seq![a, b]);
    lemma_chunking(stack, seq![a], seq![b]);
    assert(Seq::<Node>::empty() + Seq::<Node>::empty() =~= Seq::<Node>::empty());
}

/// Opening a well-formed element inside an open record and closing it
/// again attaches exactly that element to the open record.
proof fn lemma_build_node(stack: Seq<Node>, n: Node)
    requires
        stack.len() > 0,
        well_formed(n),
    ensures
        run(stack, node_events(n)) == (with_children(stack, seq![n]), Seq::<Node>::empty()),
    decreases n,
{
    let head = seq![Ev::Start(n.element), Ev::Text(n.text)];
    let body = children_events(n.children);
    let opened = Node { element: n.element, kind: n.kind, text: n.text, children: Seq::empty() };
    let s1 = stack.push(opened);
    lemma_run_two(stack, Ev::Start(n.element), Ev::Text(n.text));
    assert(Seq::<char>::empty() + n.text =~= n.text);
    assert(step(step(stack, Ev::Start(n.element)).0, Ev::Text(n.text)).0 =~= s1);
    lemma_build_children(s1, n.children);
    lemma_chunking(stack, head, body);
    let s2 = with_children(s1, n.children);
    assert(s2.last() == n) by {
        assert(Seq::<Node>::empty() + n.children =~= n.children);
    }
    lemma_run_single(s2, Ev::End);
    assert(step(s2, Ev::End).0 =~= with_children(stack, seq![n])) by {
        assert(s2.drop_last() =~= stack);
        assert(stack.last().children.push(n) =~= stack.last().children + seq![n]);
    }
    lemma_chunking(stack, head + body, seq![Ev::End]);
    assert(node_events(n) == head + body + seq![Ev::End]);
    assert(Seq::<Node>::empty() + Seq::<Node>::empty() =~= Seq::<Node>::empty());
}

/// The events of well-formed children, inside an open record, append
/// exactly those children to it.
proof fn lemma_build_children(stack: Seq<Node>, cs: Seq<Node>)
    requires
        stack.len() > 0,
        all_well_formed(cs),
    ensures
        run(stack, children_events(cs)) == (with_children(stack, cs), Seq::<Node>::empty()),
    decreases cs,
{
    if cs.len() == 0 {
        assert(stack.last().children + cs =~= stack.last().children);
        assert(with_children(stack, cs) =~= stack);
    } else {
        let init = cs.drop_last();
        lemma_build_children(stack, init);
        let s1 = with_children(stack, init);
        lemma_build_node(s1, cs.last());
        lemma_chunking(stack, children_events(init), node_events(cs.last()));
        assert(with_children(s1, seq![cs.last()]) =~= with_children(stack, cs)) by {
            assert(stack.last().children + init + seq![cs.last()] =~= stack.last().children + cs);
        }
        assert(Seq::<Node>::empty() + Seq::<Node>::empty() =~= Seq::<Node>::empty());
    }
}

/// The events of one well-formed root element, from a builder with no open
/// record, complete exactly that record and leave no record open.
proof fn lemma_build_root(n: Node)
    requires
        well_formed(n),
        n.element == root_tag(),
    ensures
        run(Seq::empty(), node_events(n)) == (Seq::<Node>::empty(), seq![n]),
{
    let stack = Seq::<Node>::empty();
    let head = seq![Ev::Start(n.element), Ev::Text(n.text)];
    let body = children_events(n.children);
    let opened = Node { element: n.element, kind: n.kind, text: n.text, children: Seq::empty() };
    let s1 = stack.push(opened);
    lemma_run_two(stack, Ev::Start(n.element), Ev::Text(n.text));
    assert(Seq::<char>::empty() + n.text =~= n.text);
    assert(step(step(stack, Ev::Start(n.element)).0, Ev::Text(n.text)).0 =~= s1);
    lemma_build_children(s1, n.children);
    lemma_chunking(stack, head, body);
    let s2 = with_children(s1, n.children);
    assert(s2 =~= seq![n]) by {
        assert(Seq::<Node>::empty() + n.children =~= n.children);
    }
    lemma_run_single(s2, Ev::End);
    lemma_chunking(stack, head + body, seq![Ev::End]);
    assert(node_events(n) == head + body + seq![Ev::End]);
    assert(Seq::<Node>::empty() + seq![n] =~= seq![n]);
}

/// A stream made of the events of K well-formed root elements makes the
/// builder complete exactly those K records, in stream order, and leaves no
/// record open.
pub proof fn lemma_builds_each_record(ns: Seq<Node>)
    requires
        forall|i: int| 0 <= i < ns.len() ==> well_formed(#[trigger] ns[i]) && ns[i].element == root_tag(),
    ensures
        run(Seq::empty(), stream_events(ns)) == (Seq::<Node>::empty(), ns),
    decreases ns.len(),
{
    if ns.len() > 0 {
        let init = ns.drop_last();
        assert forall|i: int| 0 <= i < init.len() implies well_formed(#[trigger] init[i]) && init[i].element == root_tag() by {
            assert(init[i] == ns[i]);
        }
        lemma_builds_each_record(init);
        assert(well_formed(ns[ns.len() - 1]));
        lemma_build_root(ns.last());
        lemma_chunking(Seq::empty(), stream_events(init), node_events(ns.last()));
        assert(init + seq![ns.last()] =~= ns);
    }
}

} // verus!
