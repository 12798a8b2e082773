use esstatistikliste::batch::Batch;
use esstatistikliste::builder::{Event, TreeBuilder};
use esstatistikliste::json::Json;
use esstatistikliste::record::{registered, Record};
use esstatistikliste::schema::{classify, is_array, is_root_tag, is_struct, Kind};
use esstatistikliste::transform::{
    flatten_json, flatten_json_array, list_of_dicts_columns, tally, to_dict_of_lists,
};
use std::collections::VecDeque;

fn start(name: &str) -> Event {
    Event::Start(name.to_string())
}

fn text(t: &str) -> Event {
    Event::Text(t.to_string())
}

fn scalar(name: &str, t: &str) -> Record {
    let mut r = Record::new(name);
    r.add_text(t);
    r
}

fn vehicle(ident: &str, status: &str) -> Record {
    let mut r = Record::new("Statistik");
    r.add_child(scalar("KoeretoejIdent", ident));
    r.add_child(scalar("KoeretoejRegistreringStatus", status));
    r
}

fn obj(entries: Vec<(&str, Json)>) -> Json {
    Json::Object(entries.into_iter().map(|(k, v)| (k.to_string(), v)).collect())
}

fn s(t: &str) -> Json {
    Json::Str(t.to_string())
}

fn ident_of(r: &Record) -> String {
    r.get("KoeretoejIdent").unwrap().clone()
}

#[test]
fn test_add() {
    let mut failures: Vec<String> = Vec::new();
    let flat = flatten_json(&Json::Null, &mut failures);
    assert_eq!(flat.to_text(), "null");
    assert!(failures.is_empty());
}

#[test]
fn schema_classifies_names() {
    assert_eq!(classify("Statistik"), Kind::ObjectStructure);
    assert_eq!(classify("EjerBrugerSamling"), Kind::ArrayStructure);
    assert_eq!(classify("KoeretoejIdent"), Kind::Scalar);
    assert_eq!(classify("unknown"), Kind::Scalar);
    assert!(is_struct("TilladelseSamling"));
    assert!(is_array("TilladelseSamling"));
    assert!(is_struct("Model"));
    assert!(!is_array("Model"));
    assert!(!is_struct("KoeretoejArtNummer"));
    assert!(is_root_tag("Statistik"));
    assert!(!is_root_tag("Statistikker"));
}

#[test]
fn every_array_name_is_a_structure() {
    for name in [
        "DispensationTypeSamling",
        "EjerBrugerSamling",
        "KoeretoejAnvendelseSamling",
        "KoeretoejBlokeringAarsagListe",
        "KoeretoejSupplerendeKarrosseriSamling",
        "KoeretoejUdstyrSamling",
        "TilladelseSamling",
    ] {
        assert!(is_array(name));
        assert!(is_struct(name));
    }
}

fn two_record_stream() -> Vec<Event> {
    vec![
        start("Root"),
        text("preamble"),
        start("Other"),
        Event::End,
        start("Statistik"),
        start("KoeretoejIdent"),
        text("1"),
        Event::End,
        Event::End,
        start("Statistik"),
        start("KoeretoejIdent"),
        text("2"),
        Event::End,
        start("Model"),
        start("KoeretoejArtNavn"),
        text("Bil"),
        Event::End,
        Event::End,
        Event::End,
        Event::End,
    ]
}

#[test]
fn builder_yields_each_root_record_in_order() {
    let mut b = TreeBuilder::new();
    let recs = b.feed_all(&two_record_stream());
    assert_eq!(recs.len(), 2);
    assert_eq!(ident_of(&recs[0]), "1");
    assert_eq!(ident_of(&recs[1]), "2");
    assert_eq!(recs[1].children.len(), 2);
    assert_eq!(recs[1].children[1].element, "Model");
    assert_eq!(recs[1].children[1].children[0].text, "Bil");
    assert!(b.stack.is_empty());
}

#[test]
fn builder_ignores_chunking() {
    let events = two_record_stream();
    let mut whole = TreeBuilder::new();
    let all = whole.feed_all(&events);
    for cut in 0..=events.len() {
        let first: Vec<Event> = events[..cut].iter().map(copy_event).collect();
        let second: Vec<Event> = events[cut..].iter().map(copy_event).collect();
        let mut b = TreeBuilder::new();
        let mut recs = b.feed_all(&first);
        recs.extend(b.feed_all(&second));
        assert_eq!(recs.len(), all.len());
        for (x, y) in recs.iter().zip(all.iter()) {
            assert_eq!(ident_of(x), ident_of(y));
        }
    }
}

fn copy_event(e: &Event) -> Event {
    match e {
        Event::Start(n) => Event::Start(n.clone()),
        Event::Text(t) => Event::Text(t.clone()),
        Event::End => Event::End,
    }
}

#[test]
fn builder_feed_returns_record_on_its_end() {
    let mut b = TreeBuilder::new();
    assert!(b.feed(&start("Statistik")).is_none());
    assert!(b.feed(&text("x")).is_none());
    let r = b.feed(&Event::End).unwrap();
    assert_eq!(r.element, "Statistik");
    assert_eq!(r.text, "x");
    assert!(b.feed(&Event::End).is_none());
}

#[test]
fn text_fragments_concatenate() {
    let mut split = TreeBuilder::new();
    let a = split.feed_all(&vec![start("Statistik"), start("KoeretoejIdent"), text("4"), text("2"), Event::End, Event::End]);
    let mut joined = TreeBuilder::new();
    let b = joined.feed_all(&vec![start("Statistik"), start("KoeretoejIdent"), text("42"), Event::End, Event::End]);
    assert_eq!(ident_of(&a[0]), "42");
    assert_eq!(ident_of(&a[0]), ident_of(&b[0]));
}

#[test]
fn scalar_projects_to_string() {
    let r = scalar("KoeretoejArtNummer", "42");
    let mut reports = Vec::new();
    let j = r.to_json(&mut reports);
    assert!(matches!(&j, Json::Str(t) if t == "42"));
    assert_eq!(j.to_text(), "\"42\"");
    assert!(reports.is_empty());
}

#[test]
fn object_projection_keeps_first_duplicate() {
    let parent = Record {
        element: "Parent".to_string(),
        kind: Kind::ObjectStructure,
        text: String::new(),
        children: vec![scalar("A", "1"), scalar("A", "2"), scalar("B", "3")],
    };
    let mut reports = Vec::new();
    let j = parent.to_json(&mut reports);
    assert_eq!(j.to_text(), "{\"A\":\"1\",\"B\":\"3\"}");
    assert_eq!(reports.len(), 1);
    assert_eq!(reports[0], ("A".to_string(), "Parent".to_string()));
}

#[test]
fn object_projection_with_schema_names() {
    let mut r = Record::new("Statistik");
    r.add_child(scalar("KoeretoejIdent", "1"));
    r.add_child(scalar("KoeretoejIdent", "2"));
    r.add_child(scalar("KoeretoejArtNavn", "3"));
    let mut reports = Vec::new();
    let j = r.to_json(&mut reports);
    assert_eq!(j.to_text(), "{\"KoeretoejIdent\":\"1\",\"KoeretoejArtNavn\":\"3\"}");
    assert_eq!(reports, vec![("KoeretoejIdent".to_string(), "Statistik".to_string())]);
}

#[test]
fn array_projection_keeps_count_and_order() {
    let mut r = Record::new("EjerBrugerSamling");
    r.add_child(scalar("EjerBruger", "x"));
    r.add_child(scalar("EjerBruger", "y"));
    r.add_child(scalar("EjerBruger", "x"));
    let mut reports = Vec::new();
    let j = r.to_json(&mut reports);
    match &j {
        Json::Array(items) => assert_eq!(items.len(), 3),
        _ => panic!("expected an array"),
    }
    assert!(reports.is_empty());
}

#[test]
fn array_of_structures_projects_each_child() {
    let mut r = Record::new("EjerBrugerSamling");
    let mut a = Record::new("EjerBruger");
    a.add_child(scalar("Navn", "x"));
    r.add_child(a);
    r.add_child(Record::new("EjerBruger"));
    let mut reports = Vec::new();
    let j = r.to_json(&mut reports);
    assert_eq!(j.to_text(), "[{\"Navn\":\"x\"},{}]");
}

#[test]
fn nested_duplicates_are_reported_in_order() {
    let mut inner = Record::new("Model");
    inner.add_child(scalar("C", "1"));
    inner.add_child(scalar("C", "2"));
    let mut r = Record::new("Statistik");
    r.add_child(inner);
    r.add_child(scalar("Model", "again"));
    let mut reports = Vec::new();
    r.to_json(&mut reports);
    assert_eq!(
        reports,
        vec![
            ("C".to_string(), "Model".to_string()),
            ("Model".to_string(), "Statistik".to_string()),
        ]
    );
}

#[test]
fn get_and_registered() {
    let r = vehicle("7", "Registreret");
    assert_eq!(r.get("KoeretoejIdent").unwrap(), "7");
    assert!(r.get("Missing").is_none());
    assert_eq!(r.get_record("KoeretoejRegistreringStatus").unwrap().text, "Registreret");
    assert!(registered(&r));
    assert!(!registered(&vehicle("8", "Afmeldt")));
    assert!(!registered(&Record::new("Statistik")));
}

#[test]
fn filtered_batch_takes_registered_in_order() {
    let mut src: VecDeque<Record> = VecDeque::new();
    for i in 1..=7 {
        let status = if i == 2 || i == 5 || i == 7 { "Registreret" } else { "Afmeldt" };
        src.push_back(vehicle(&i.to_string(), status));
    }
    let b = Batch::from_iter_registered(&mut src, 2).unwrap();
    assert_eq!(b.len(), 2);
    assert_eq!(ident_of(&b.0[0]), "2");
    assert_eq!(ident_of(&b.0[1]), "5");
    assert_eq!(src.len(), 2);
    assert_eq!(ident_of(&src[0]), "6");
}

#[test]
fn unconditional_batch_stops_at_size_or_end() {
    let mut src: VecDeque<Record> = VecDeque::new();
    for i in 1..=3 {
        src.push_back(vehicle(&i.to_string(), "Afmeldt"));
    }
    let b = Batch::from_iter(&mut src, 2).unwrap();
    assert_eq!(b.len(), 2);
    assert_eq!(ident_of(&b.0[1]), "2");
    let rest = Batch::from_iter(&mut src, 5).unwrap();
    assert_eq!(rest.len(), 1);
    assert!(Batch::from_iter(&mut src, 5).is_none());
}

#[test]
fn filtered_batch_with_no_registered_is_none() {
    let mut src: VecDeque<Record> = VecDeque::new();
    src.push_back(vehicle("1", "Afmeldt"));
    assert!(Batch::from_iter_registered(&mut src, 3).is_none());
    assert!(src.is_empty());
}

#[test]
fn empty_input_yields_nothing() {
    let mut b = TreeBuilder::new();
    let recs = b.feed_all(&vec![start("Root"), start("Other"), text("t"), Event::End, Event::End]);
    assert!(recs.is_empty());
    let mut src: VecDeque<Record> = recs.into_iter().collect();
    assert!(Batch::from_iter(&mut src, 3).is_none());
    assert!(Batch::from_iter_registered(&mut src, 3).is_none());
    let mut none: Vec<Event> = Vec::new();
    assert!(TreeBuilder::new().feed_all(&none).is_empty());
    none.push(Event::End);
    assert!(TreeBuilder::new().feed_all(&none).is_empty());
}

#[test]
fn batch_to_json_is_array_of_records() {
    let b = Batch(vec![vehicle("1", "Registreret"), vehicle("2", "Afmeldt")]);
    let mut reports = Vec::new();
    let j = b.to_json(&mut reports);
    assert_eq!(
        j.to_text(),
        "[{\"KoeretoejIdent\":\"1\",\"KoeretoejRegistreringStatus\":\"Registreret\"},{\"KoeretoejIdent\":\"2\",\"KoeretoejRegistreringStatus\":\"Afmeldt\"}]"
    );
    assert!(Batch::new().is_empty());
}

#[test]
fn batch_columns_and_cells() {
    let mut a = vehicle("1", "Registreret");
    let mut model = Record::new("Model");
    model.add_child(scalar("Navn", "V70"));
    a.add_child(model);
    let b = Record::new("Statistik");
    let mut c = Record::new("Statistik");
    c.add_child(scalar("AdressePostNummer", "8000"));
    let batch = Batch(vec![a, b, c]);
    assert_eq!(
        batch.columns(),
        vec!["AdressePostNummer", "KoeretoejIdent", "KoeretoejRegistreringStatus", "Model"]
    );
    let mut reports = Vec::new();
    assert_eq!(batch.column_values("Model", &mut reports), vec!["{\"Navn\":\"V70\"}", "", ""]);
    assert_eq!(batch.column_values("AdressePostNummer", &mut reports), vec!["", "", "8000"]);
    assert!(reports.is_empty());
}

#[test]
fn flatten_hoists_nested_keys_first_wins() {
    let nested = obj(vec![
        ("x", obj(vec![("a", s("1")), ("b", obj(vec![("c", s("2"))]))])),
        ("a", s("3")),
        ("list", Json::Array(vec![s("p")])),
    ]);
    let mut failures = Vec::new();
    let flat = flatten_json(&nested, &mut failures);
    assert_eq!(flat.to_text(), "{\"a\":\"1\",\"c\":\"2\",\"list\":[\"p\"]}");
    assert_eq!(failures, vec!["a".to_string()]);
    assert_eq!(tally(&failures), vec![("a".to_string(), 1)]);
}

#[test]
fn tally_counts_each_key() {
    let f = vec!["a".to_string(), "b".to_string(), "a".to_string()];
    assert_eq!(tally(&f), vec![("a".to_string(), 2), ("b".to_string(), 1)]);
    assert!(tally(&Vec::new()).is_empty());
}

#[test]
fn flatten_array_flattens_each_item() {
    let rows = Json::Array(vec![obj(vec![("o", obj(vec![("k", s("v"))]))]), s("bare")]);
    let mut failures = Vec::new();
    let flat = flatten_json_array(&rows, &mut failures);
    assert_eq!(flat.to_text(), "[{\"k\":\"v\"},\"bare\"]");
    let single = flatten_json_array(&obj(vec![("o", obj(vec![("k", Json::Bool(true))]))]), &mut failures);
    assert_eq!(single.to_text(), "{\"k\":true}");
    assert!(failures.is_empty());
}

#[test]
fn pivot_two_rows() {
    let rows = vec![
        obj(vec![("a", Json::Number(1)), ("b", Json::Number(2))]),
        obj(vec![("a", Json::Number(3))]),
    ];
    let mut warnings = Vec::new();
    let p = to_dict_of_lists(&rows, &mut warnings);
    assert_eq!(p.to_text(), "{\"a\":[1,3],\"b\":[2,null]}");
    assert!(warnings.is_empty());
}

#[test]
fn pivot_sorts_keys_and_nulls_non_objects() {
    let rows = vec![obj(vec![("z", s("1")), ("m", s("2"))]), s("oops"), obj(vec![("a", Json::Number(-12))])];
    let mut warnings = Vec::new();
    assert_eq!(list_of_dicts_columns(&rows, &mut warnings), vec!["a", "m", "z"]);
    assert_eq!(warnings, vec![1]);
    let p = to_dict_of_lists(&rows, &mut warnings);
    assert_eq!(
        p.to_text(),
        "{\"a\":[null,null,-12],\"m\":[\"2\",null,null],\"z\":[\"1\",null,null]}"
    );
    assert_eq!(warnings, vec![1, 1]);
    let mut w = Vec::new();
    assert_eq!(to_dict_of_lists(&Vec::new(), &mut w).to_text(), "{}");
}

#[test]
fn serialisation_escapes_and_numbers() {
    assert_eq!(s("a\"b\\c\n").to_text(), "\"a\\\"b\\\\c\\n\"");
    assert_eq!(Json::Number(-9223372036854775808).to_text(), "-9223372036854775808");
    assert_eq!(Json::Number(0).to_text(), "0");
    assert_eq!(Json::Bool(false).to_text(), "false");
    let copy = obj(vec![("k", Json::Array(vec![Json::Null]))]).deep_copy();
    assert_eq!(copy.to_text(), "{\"k\":[null]}");
}
