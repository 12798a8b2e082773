//! JSON values: an executable type, its mathematical model, and compact
//! serialisation.
use vstd::prelude::*;

verus! {

/// The mathematical model of a JSON value. An object is a sequence of
/// entries; the functions of this library keep its keys distinct.
pub enum JValue {
    Null,
    Bool(bool),
    Number(int),
    Str(Seq<char>),
    Array(Seq<JValue>),
    Object(Seq<(Seq<char>, JValue)>),
}

/// A JSON value.
pub enum Json {
    Null,
    Bool(bool),
    Number(i64),
    Str(String),
    Array(Vec<Json>),
    Object(Vec<(String, Json)>),
}

impl Json {
    pub open spec fn view(&self) -> JValue
        decreases self,
    {
        match self {
            Json::Null => JValue::Null,
            Json::Bool(b) => JValue::Bool(*b),
            Json::Number(n) => JValue::Number(*n as int),
            Json::Str(s) => JValue::Str(s@),
            Json::Array(items) => JValue::Array(view_items(items@)),
            Json::Object(entries) => JValue::Object(view_entries(entries@)),
        }
    }
}

pub open spec fn view_items(s: Seq<Json>) -> Seq<JValue>
    decreases s,
{
    if s.len() == 0 {
        Seq::empty()
    } else {
        view_items(s.drop_last()).push(s.last().view())
    }
}

pub open spec fn view_entries(s: Seq<(String, Json)>) -> Seq<(Seq<char>, JValue)>
    decreases s,
{
    if s.len() == 0 {
        Seq::empty()
    } else {
        view_entries(s.drop_last()).push((s.last().0@, s.last().1.view()))
    }
}

pub proof fn lemma_view_items(s: Seq<Json>)
    ensures
        view_items(s).len() == s.len(),
        forall|i: int| 0 <= i < s.len() ==> #[trigger] view_items(s)[i] == s[i].view(),
    decreases s.len(),
{
    if s.len() > 0 {
        lemma_view_items(s.drop_last());
    }
}

pub proof fn lemma_view_entries(s: Seq<(String, Json)>)
    ensures
        view_entries(s).len() == s.len(),
        forall|i: int|
            0 <= i < s.len() ==> #[trigger] view_entries(s)[i] == (s[i].0@, s[i].1.view()),
    decreases s.len(),
{
    if s.len() > 0 {
        lemma_view_entries(s.drop_last());
    }
}

/// The character of a decimal digit.
pub open spec fn digit_char(d: nat) -> char {
    seq!['0', '1', '2', '3', '4', '5', '6', '7', '8', '9'][(d % 10) as int]
}

/// The decimal digits of a natural number, most significant first.
pub open spec fn digits(n: nat) -> Seq<char>
    decreases n,
{
    if n < 10 {
        seq![digit_char(n)]
    } else {
        digits(n / 10).push(digit_char(n % 10))
    }
}

/// An integer in decimal, with a leading minus sign when negative.
pub open spec fn decimal(n: int) -> Seq<char> {
    if n < 0 {
        seq!['-'] + digits((-n) as nat)
    } else {
        digits(n as nat)
    }
}

/// The JSON string literal for a text: quoted, with the characters that
/// JSON requires escaped.
pub uninterp spec fn json_quoted(s: Seq<char>) -> Seq<char>;

/// Relies on serde_json's `Display` of `Value::Number`: an `i64` is written
/// in decimal, with a leading '-' when negative.
#[verifier::external_body]
fn number_text(n: i64) -> (r: String)
    ensures
        r@ == decimal(n as int),
{
    serde_json::Value::from(n).to_string()
}

/// Relies on serde_json's `Display` of `Value::String`: the quoted, escaped
/// literal, which depends on the characters alone.
#[verifier::external_body]
fn quoted_text(s: &str) -> (r: String)
    ensures
        r@ == json_quoted(s@),
{
    serde_json::Value::String(s.to_owned()).to_string()
}

/// Compact JSON text of a value, entries in their stored order.
pub open spec fn text_of(v: JValue) -> Seq<char>
    decreases v,
{
    match v {
        JValue::Null => "null"@,
        JValue::Bool(b) => if b {
            "true"@
        } else {
            "false"@
        },
        JValue::Number(n) => decimal(n),
        JValue::Str(s) => json_quoted(s),
        JValue::Array(items) => "["@ + items_text(items) + "]"@,
        JValue::Object(entries) => "{"@ + entries_text(entries) + "}"@,
    }
}

/// The texts of the items, separated by commas.
pub open spec fn items_text(s: Seq<JValue>) -> Seq<char>
    decreases s,
{
    if s.len() == 0 {
        Seq::empty()
    } else if s.len() == 1 {
        text_of(s[0])
    } else {
        items_text(s.drop_last()) + ","@ + text_of(s.last())
    }
}

/// The entries as `"key":value`, separated by commas.
pub open spec fn entries_text(s: Seq<(Seq<char>, JValue)>) -> Seq<char>
    decreases s,
{
    if s.len() == 0 {
        Seq::empty()
    } else if s.len() == 1 {
        json_quoted(s[0].0) + ":"@ + text_of(s[0].1)
    } else {
        entries_text(s.drop_last()) + ","@ + json_quoted(s.last().0) + ":"@ + text_of(s.last().1)
    }
}

impl Json {
    /// Compact JSON text of this value.
    pub fn to_text(&self) -> (r: String)
        ensures
            r@ == text_of(self@),
        decreases self@,
    {
        match self {
            Json::Null => String::from_str("null"),
            Json::Bool(b) => if *b {
                String::from_str("true")
            } else {
                String::from_str("false")
            },
            Json::Number(n) => number_text(*n),
            Json::Str(s) => quoted_text(s.as_str()),
            Json::Array(items) => {
                let mut out = String::from_str("[");
                let mut i: usize = 0;
                proof {
                    lemma_view_items(items@);
                }
                while i < items.len()
                    invariant
                        i <= items.len(),
                        self@ == JValue::Array(view_items(items@)),
                        view_items(items@).len() == items@.len(),
                        forall|j: int| 0 <= j < items@.len() ==> #[trigger] view_items(items@)[j] == items@[j].view(),
                        out@ == "["@ + items_text(view_items(items@).subrange(0, i as int)),
                    decreases items.len() - i,
                {
                    let ghost s = view_items(items@);
                    if i > 0 {
                        out.append(",");
                    }
                    proof {
                        let v = view_items(items@);
                        assert(decreases_to!(self@ => self@->Array_0));
                        assert(decreases_to!(v => v[i as int]));
                    }
                    let t = items[i].to_text();
                    out.append(t.as_str());
                    proof {
                        let pre = s.subrange(0, i as int);
                        let post = s.subrange(0, i as int + 1);
                        assert(post.drop_last() =~= pre);
                        assert(post.last() == items@[i as int].view());
                        if i == 0 {
                            assert(post.len() == 1);
                            assert(items_text(pre) =~= Seq::<char>::empty());
                            assert(out@ =~= "["@ + items_text(post));
                        } else {
                            assert(out@ =~= "["@ + items_text(post));
                        }
                    }
                    i = i + 1;
                }
                out.append("]");
                proof {
                    assert(view_items(items@).subrange(0, items@.len() as int) =~= view_items(items@));
                }
                out
            },
            Json::Object(entries) => {
                let mut out = String::from_str("{");
                let mut i: usize = 0;
                proof {
                    lemma_view_entries(entries@);
                }
                while i < entries.len()
                    invariant
                        i <= entries.len(),
                        self@ == JValue::Object(view_entries(entries@)),
                        view_entries(entries@).len() == entries@.len(),
                        forall|j: int|
                            0 <= j < entries@.len() ==> #[trigger] view_entries(entries@)[j] == (
                            entries@[j].0@,
                            entries@[j].1.view(),
                        ),
                        out@ == "{"@ + entries_text(view_entries(entries@).subrange(0, i as int)),
                    decreases entries.len() - i,
                {
                    let ghost s = view_entries(entries@);
                    if i > 0 {
                        out.append(",");
                    }
                    let k = quoted_text(entries[i].0.as_str());
                    out.append(k.as_str());
                    out.append(":");
                    proof {
                        let v = view_entries(entries@);
                        assert(decreases_to!(self@ => self@->Object_0));
                        assert(decreases_to!(v => v[i as int]));
                        assert(decreases_to!(v[i as int] => v[i as int].1));
                    }
                    let t = entries[i].1.to_text();
                    out.append(t.as_str());
                    proof {
                        let pre = s.subrange(0, i as int);
                        let post = s.subrange(0, i as int + 1);
                        assert(post.drop_last() =~= pre);
                        assert(post.last() == s[i as int]);
                        if i == 0 {
                            assert(out@ =~= "{"@ + entries_text(post));
                        } else {
                            assert(out@ =~= "{"@ + entries_text(post));
                        }
                    }
                    i = i + 1;
                }
                out.append("}");
                proof {
                    assert(view_entries(entries@).subrange(0, entries@.len() as int) =~= view_entries(entries@));
                }
                out
            },
        }
    }
}


/// Whether some entry has key `k`.
pub open spec fn has_key(es: Seq<(Seq<char>, JValue)>, k: Seq<char>) -> bool {
    exists|i: int| 0 <= i < es.len() && #[trigger] es[i].0 == k
}

/// Whether one of `entries` has the key `k`.
pub fn contains_key(entries: &Vec<(String, Json)>, k: &str) -> (r: bool)
    ensures
        r == has_key(view_entries(entries@), k@),
{
    proof {
        lemma_view_entries(entries@);
    }
    let mut i: usize = 0;
    while i < entries.len()
        invariant
            i <= entries.len(),
            view_entries(entries@).len() == entries@.len(),
            forall|j: int|
                0 <= j < entries@.len() ==> #[trigger] view_entries(entries@)[j] == (
                entries@[j].0@,
                entries@[j].1.view(),
            ),
            forall|j: int| 0 <= j < i ==> entries@[j].0@ != k@,
        decreases entries.len() - i,
    {
        if crate::schema::same_text(entries[i].0.as_str(), k) {
            proof {
                assert(view_entries(entries@)[i as int].0 == k@);
            }
            return true;
        }
        i = i + 1;
    }
    proof {
        assert forall|j: int| 0 <= j < view_entries(entries@).len() implies #[trigger] view_entries(entries@)[j].0 != k@ by {
            assert(entries@[j].0@ != k@);
        }
    }
    false
}


impl Json {
    /// A copy of this value, with the same model.
    pub fn deep_copy(&self) -> (r: Json)
        ensures
            r@ == self@,
        decreases self@,
    {
        match self {
            Json::Null => Json::Null,
            Json::Bool(b) => Json::Bool(*b),
            Json::Number(n) => Json::Number(*n),
            Json::Str(s) => Json::Str(s.clone()),
            Json::Array(items) => {
                let mut out: Vec<Json> = Vec::new();
                let mut i: usize = 0;
                proof {
                    lemma_view_items(items@);
                    assert(view_items(out@) =~= view_items(items@).subrange(0, 0));
                }
                while i < items.len()
                    invariant
                        i <= items.len(),
                        self@ == JValue::Array(view_items(items@)),
                        view_items(items@).len() == items@.len(),
                        forall|j: int| 0 <= j < items@.len() ==> #[trigger] view_items(items@)[j] == items@[j].view(),
                        view_items(out@) == view_items(items@).subrange(0, i as int),
                    decreases items.len() - i,
                {
                    proof {
                        let v = view_items(items@);
                        assert(decreases_to!(self@ => self@->Array_0));
                        assert(decreases_to!(v => v[i as int]));
                    }
                    let ghost o0 = out@;
                    let c = items[i].deep_copy();
                    out.push(c);
                    proof {
                        assert(out@.drop_last() =~= o0);
                        assert(view_items(out@) =~= view_items(items@).subrange(0, i as int + 1));
                    }
                    i = i + 1;
                }
                proof {
                    assert(view_items(items@).subrange(0, items@.len() as int) =~= view_items(items@));
                }
                Json::Array(out)
            },
            Json::Object(entries) => {
                let mut out: Vec<(String, Json)> = Vec::new();
                let mut i: usize = 0;
                proof {
                    lemma_view_entries(entries@);
                    assert(view_entries(out@) =~= view_entries(entries@).subrange(0, 0));
                }
                while i < entries.len()
                    invariant
                        i <= entries.len(),
                        self@ == JValue::Object(view_entries(entries@)),
                        view_entries(entries@).len() == entries@.len(),
                        forall|j: int|
                            0 <= j < entries@.len() ==> #[trigger] view_entries(entries@)[j] == (
                            entries@[j].0@,
                            entries@[j].1.view(),
                        ),
                        view_entries(out@) == view_entries(entries@).subrange(0, i as int),
                    decreases entries.len() - i,
                {
                    proof {
                        let v = view_entries(entries@);
                        assert(decreases_to!(self@ => self@->Object_0));
                        assert(decreases_to!(v => v[i as int]));
                        assert(decreases_to!(v[i as int] => v[i as int].1));
                    }
                    let ghost o0 = out@;
                    let c = entries[i].1.deep_copy();
                    out.push((entries[i].0.clone(), c));
                    proof {
                        assert(out@.drop_last() =~= o0);
                        assert(view_entries(out@) =~= view_entries(entries@).subrange(0, i as int + 1));
                    }
                    i = i + 1;
                }
                proof {
                    assert(view_entries(entries@).subrange(0, entries@.len() as int) =~= view_entries(entries@));
                }
                Json::Object(out)
            },
        }
    }
}


/// The value of the first entry with key `k`.
pub open spec fn lookup(es: Seq<(Seq<char>, JValue)>, k: Seq<char>) -> Option<JValue>
    decreases es.len(),
{
    if es.len() == 0 {
        None
    } else if es[0].0 == k {
        Some(es[0].1)
    } else {
        lookup(es.drop_first(), k)
    }
}

pub proof fn lemma_lookup_skip(es: Seq<(Seq<char>, JValue)>, k: Seq<char>, i: int)
    requires
        0 <= i <= es.len(),
        forall|j: int| 0 <= j < i ==> (#[trigger] es[j]).0 != k,
    ensures
        lookup(es, k) == lookup(es.subrange(i, es.len() as int), k),
    decreases i,
{
    if i > 0 {
        assert(es.drop_first().subrange(i - 1, es.drop_first().len() as int) =~= es.subrange(i, es.len() as int));
        lemma_lookup_skip(es.drop_first(), k, i - 1);
    } else {
        assert(es.subrange(0, es.len() as int) =~= es);
    }
}

/// A key that some entry holds is found by `lookup`.
pub proof fn lemma_lookup_found(es: Seq<(Seq<char>, JValue)>, k: Seq<char>)
    requires
        has_key(es, k),
    ensures
        lookup(es, k).is_some(),
    decreases es.len(),
{
    if es[0].0 != k {
        let i = choose|i: int| 0 <= i < es.len() && #[trigger] es[i].0 == k;
        assert(es.drop_first()[i - 1].0 == k);
        lemma_lookup_found(es.drop_first(), k);
    }
}

/// The value of the first of `entries` with key `k`.
pub fn get_value<'a>(entries: &'a Vec<(String, Json)>, k: &str) -> (r: Option<&'a Json>)
    ensures
        match r {
            Some(v) => lookup(view_entries(entries@), k@) == Some(v@),
            None => lookup(view_entries(entries@), k@).is_none(),
        },
{
    let ghost s = view_entries(entries@);
    proof {
        lemma_view_entries(entries@);
    }
    let mut i: usize = 0;
    while i < entries.len()
        invariant
            i <= entries.len(),
            s == view_entries(entries@),
            s.len() == entries@.len(),
            forall|j: int| 0 <= j < entries@.len() ==> #[trigger] s[j] == (entries@[j].0@, entries@[j].1.view()),
            forall|j: int| 0 <= j < i ==> (#[trigger] s[j]).0 != k@,
        decreases entries.len() - i,
    {
        if crate::schema::same_text(entries[i].0.as_str(), k) {
            proof {
                lemma_lookup_skip(s, k@, i as int);
                assert(s.subrange(i as int, s.len() as int)[0] == s[i as int]);
            }
            return Some(&entries[i].1);
        }
        i = i + 1;
    }
    proof {
        lemma_lookup_skip(s, k@, i as int);
    }
    None
}

} // verus!
