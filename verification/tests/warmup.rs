use quickwit_core::schema::{get_fastfield_cardinality, Cardinality, FieldType};
use quickwit_core::warmup::{
    merge_visits, warm_up_fastfields, warm_up_term_dict_fields, warm_up_terms, warmup,
    FastFieldWarmup, PostingsWarmup, QueryTerm, TermDictWarmup, WarmupError,
};
use tantivy::schema::{
    BytesOptions, DateOptions, IpAddrOptions, NumericOptions, Schema, FAST, STRING, TEXT,
};

fn names(parts: &[&str]) -> Vec<String> {
    parts.iter().map(|part| part.to_string()).collect()
}

fn schema() -> Schema {
    let single = tantivy::schema::Cardinality::SingleValue;
    let multi = tantivy::schema::Cardinality::MultiValues;
    let mut builder = Schema::builder();
    builder.add_text_field("body", TEXT);
    builder.add_text_field("tag", STRING | FAST);
    builder.add_u64_field("u64_single", NumericOptions::default().set_fast(single));
    builder.add_i64_field("i64_multi", NumericOptions::default().set_fast(multi));
    builder.add_f64_field("f64_single", NumericOptions::default().set_fast(single));
    builder.add_bool_field("bool_multi", NumericOptions::default().set_fast(multi));
    builder.add_date_field("date_multi", DateOptions::default().set_fast(multi));
    builder.add_date_field("date_slow", DateOptions::default());
    builder.add_facet_field("facet", ());
    builder.add_bytes_field("bytes", BytesOptions::default().set_fast());
    builder.add_bytes_field("bytes_slow", BytesOptions::default());
    builder.add_json_field("json", TEXT);
    builder.add_ip_addr_field("ip", IpAddrOptions::default().set_fast(single));
    builder.add_u64_field("u64_slow", NumericOptions::default());
    builder.build()
}

fn file(field: u32, segment: usize, index: usize) -> FastFieldWarmup {
    FastFieldWarmup {
        field,
        segment,
        index,
    }
}

#[test]
fn dictionaries_of_all_fields_in_all_segments() {
    let plan = warm_up_term_dict_fields(&schema(), &names(&["tag", "body"]), 3).unwrap();
    let expected: Vec<TermDictWarmup> = [(1, 0), (1, 1), (1, 2), (0, 0), (0, 1), (0, 2)]
        .iter()
        .map(|&(field, segment)| TermDictWarmup { field, segment })
        .collect();
    assert_eq!(plan, expected);
    assert_eq!(
        warm_up_term_dict_fields(&schema(), &names(&["tag"]), 0),
        Ok(vec![])
    );
    assert_eq!(
        warm_up_term_dict_fields(&schema(), &names(&[]), 2),
        Ok(vec![])
    );
}

#[test]
fn dictionaries_of_an_unknown_field() {
    assert_eq!(
        warm_up_term_dict_fields(&schema(), &names(&["tag", "nope", "neither"]), 1),
        Err(WarmupError::FieldNotFound {
            field_name: "nope".to_string()
        })
    );
}

#[test]
fn fast_fields_of_every_type() {
    let plan = |name: &str| warm_up_fastfields(&schema(), &names(&[name]), 1).unwrap();
    assert_eq!(plan("tag"), vec![file(1, 0, 0), file(1, 0, 1)]);
    assert_eq!(plan("u64_single"), vec![file(2, 0, 0)]);
    assert_eq!(plan("i64_multi"), vec![file(3, 0, 0), file(3, 0, 1)]);
    assert_eq!(plan("f64_single"), vec![file(4, 0, 0)]);
    assert_eq!(plan("bool_multi"), vec![file(5, 0, 0), file(5, 0, 1)]);
    assert_eq!(plan("date_multi"), vec![file(6, 0, 0), file(6, 0, 1)]);
    assert_eq!(plan("facet"), vec![file(8, 0, 0), file(8, 0, 1)]);
    assert_eq!(plan("bytes"), vec![file(9, 0, 0), file(9, 0, 1)]);
}

#[test]
fn fast_fields_in_several_segments() {
    assert_eq!(
        warm_up_fastfields(&schema(), &names(&["i64_multi", "u64_single"]), 2),
        Ok(vec![
            file(3, 0, 0),
            file(3, 0, 1),
            file(3, 1, 0),
            file(3, 1, 1),
            file(2, 0, 0),
            file(2, 1, 0),
        ])
    );
    assert_eq!(warm_up_fastfields(&schema(), &names(&[]), 2), Ok(vec![]));
}

#[test]
fn fast_fields_that_are_none() {
    for name in ["body", "date_slow", "bytes_slow", "json", "u64_slow"] {
        assert_eq!(
            warm_up_fastfields(&schema(), &names(&["tag", name, "nope"]), 1),
            Err(WarmupError::NotFast {
                field_name: name.to_string()
            })
        );
    }
    assert_eq!(
        warm_up_fastfields(&schema(), &names(&["nope", "body"]), 1),
        Err(WarmupError::FieldNotFound {
            field_name: "nope".to_string()
        })
    );
}

#[test]
fn fast_field_of_unknown_cardinality() {
    assert_eq!(
        warm_up_fastfields(&schema(), &names(&["ip"]), 1),
        Err(WarmupError::UnknownCardinality {
            field_name: "ip".to_string(),
            field_type: FieldType::IpAddr(Some(Cardinality::SingleValue)),
        })
    );
}

#[test]
fn cardinality_of_fast_fields() {
    let single = Some(Cardinality::SingleValue);
    let multi = Some(Cardinality::MultiValues);
    assert_eq!(get_fastfield_cardinality(&FieldType::U64(single)), single);
    assert_eq!(get_fastfield_cardinality(&FieldType::I64(multi)), multi);
    assert_eq!(get_fastfield_cardinality(&FieldType::F64(None)), None);
    assert_eq!(get_fastfield_cardinality(&FieldType::Bool(single)), single);
    assert_eq!(get_fastfield_cardinality(&FieldType::Date(multi)), multi);
    assert_eq!(get_fastfield_cardinality(&FieldType::Facet), multi);
    assert_eq!(
        get_fastfield_cardinality(&FieldType::Bytes { fast: true }),
        multi
    );
    assert_eq!(
        get_fastfield_cardinality(&FieldType::Bytes { fast: false }),
        None
    );
    assert_eq!(
        get_fastfield_cardinality(&FieldType::Str { fast: true }),
        multi
    );
    assert_eq!(
        get_fastfield_cardinality(&FieldType::Str { fast: false }),
        None
    );
    assert_eq!(get_fastfield_cardinality(&FieldType::JsonObject), None);
    assert_eq!(get_fastfield_cardinality(&FieldType::IpAddr(single)), None);
}

fn term(field: u32, term: usize, position_needed: bool) -> QueryTerm {
    QueryTerm {
        field,
        term,
        position_needed,
    }
}

fn postings(field: u32, segment: usize, terms: Vec<QueryTerm>) -> PostingsWarmup {
    PostingsWarmup {
        field,
        segment,
        terms,
    }
}

#[test]
fn terms_are_grouped_by_field() {
    let first = vec![term(0, 0, false), term(0, 1, true)];
    let second = vec![term(4, 2, false)];
    let mut terms = first.clone();
    terms.extend(second.clone());
    assert_eq!(
        warm_up_terms(terms, 2),
        vec![
            postings(0, 0, first.clone()),
            postings(0, 1, first),
            postings(4, 0, second.clone()),
            postings(4, 1, second),
        ]
    );
}

#[test]
fn only_neighbours_are_grouped() {
    let terms = vec![term(1, 0, false), term(2, 1, false), term(1, 2, false)];
    assert_eq!(
        warm_up_terms(terms, 1),
        vec![
            postings(1, 0, vec![term(1, 0, false)]),
            postings(2, 0, vec![term(2, 1, false)]),
            postings(1, 0, vec![term(1, 2, false)]),
        ]
    );
}

#[test]
fn every_segment_gets_every_term() {
    let terms: Vec<QueryTerm> = (0..10)
        .map(|i| term(i / 3, i as usize, i % 2 == 0))
        .collect();
    let plan = warm_up_terms(terms.clone(), 3);
    assert_eq!(plan.len(), 12);
    for segment in 0..3 {
        let warmed: Vec<QueryTerm> = plan
            .iter()
            .filter(|part| part.segment == segment)
            .flat_map(|part| part.terms.clone())
            .collect();
        assert_eq!(warmed, terms);
    }
    assert_eq!(warm_up_terms(Vec::new(), 3), Vec::new());
    assert_eq!(warm_up_terms(terms, 0), Vec::new());
}

#[test]
fn first_error_of_a_warmup() {
    assert_eq!(warmup::<u8>(Ok(()), Ok(()), Ok(())), Ok(()));
    assert_eq!(warmup(Err(1), Err(2), Err(3)), Err(1));
    assert_eq!(warmup(Ok(()), Err(2), Err(3)), Err(2));
    assert_eq!(warmup(Ok(()), Ok(()), Err(3)), Err(3));
}

#[test]
fn visits_of_a_term_are_merged() {
    // A phrase, and then one of its terms alone.
    let visits = vec![
        term(0, 1, true),
        term(0, 0, true),
        term(2, 3, false),
        term(0, 1, false),
        term(1, 2, false),
        term(1, 2, false),
        term(2, 3, true),
    ];
    let merged = vec![
        term(0, 0, true),
        term(0, 1, true),
        term(1, 2, false),
        term(2, 3, true),
    ];
    assert_eq!(merge_visits(visits.clone()), merged);
    let backwards: Vec<QueryTerm> = visits.into_iter().rev().collect();
    assert_eq!(merge_visits(backwards), merged);
    assert_eq!(merge_visits(merged.clone()), merged);
    assert_eq!(merge_visits(vec![]), vec![]);
    assert_eq!(
        warm_up_terms(merged.clone(), 1),
        vec![
            postings(0, 0, merged[0..2].to_vec()),
            postings(1, 0, merged[2..3].to_vec()),
            postings(2, 0, merged[3..4].to_vec()),
        ]
    );
}

#[test]
fn terms_of_two_fields_do_not_merge() {
    let visits = vec![term(7, 0, true), term(3, 0, false)];
    assert_eq!(
        merge_visits(visits),
        vec![term(3, 0, false), term(7, 0, true)]
    );
}

#[test]
fn plans_list_nothing_twice() {
    let dictionaries = warm_up_term_dict_fields(&schema(), &names(&["json", "body"]), 4).unwrap();
    assert_eq!(dictionaries.len(), 8);
    for (i, a) in dictionaries.iter().enumerate() {
        assert!(dictionaries[i + 1..].iter().all(|b| a != b));
    }
    let fast = names(&["u64_single", "i64_multi", "bytes"]);
    let files = warm_up_fastfields(&schema(), &fast, 3).unwrap();
    assert_eq!(files.len(), 15);
    for (i, a) in files.iter().enumerate() {
        assert!(files[i + 1..].iter().all(|b| a != b));
    }
}
