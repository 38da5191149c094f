use quickwit_core::service::{
    available_services_val, has_service, parse_available_services_val, services_from_names,
    unknown_services, QuickwitService, UnknownService,
};

fn names(parts: &[&str]) -> Vec<String> {
    parts.iter().map(|part| part.to_string()).collect()
}

#[test]
fn services_have_names() {
    assert_eq!(QuickwitService::Indexer.as_str(), "indexer");
    assert_eq!(QuickwitService::Searcher.as_str(), "searcher");
    assert_eq!(
        QuickwitService::try_from("searcher"),
        Ok(QuickwitService::Searcher)
    );
    assert_eq!(
        QuickwitService::try_from("Searcher"),
        Err(UnknownService {
            service: "Searcher".to_string()
        })
    );
}

#[test]
fn services_are_advertised_with_commas() {
    assert_eq!(available_services_val(&vec![]), "");
    assert_eq!(
        available_services_val(&vec![QuickwitService::Searcher]),
        "searcher"
    );
    assert_eq!(
        available_services_val(&vec![QuickwitService::Searcher, QuickwitService::Indexer]),
        "searcher,indexer"
    );
}

#[test]
fn advertised_services_are_read_back() {
    let lists = vec![
        vec![],
        vec![QuickwitService::Indexer],
        vec![QuickwitService::Indexer, QuickwitService::Searcher],
        vec![QuickwitService::Searcher, QuickwitService::Indexer],
    ];
    for list in lists {
        let value = available_services_val(&list);
        assert_eq!(parse_available_services_val(&value), list);
    }
}

#[test]
fn unknown_services_are_passed_over() {
    assert_eq!(
        parse_available_services_val("janitor,searcher,, indexer,indexer"),
        vec![QuickwitService::Searcher, QuickwitService::Indexer]
    );
    assert_eq!(parse_available_services_val(""), vec![]);
}

#[test]
fn looking_for_a_service() {
    let services = vec![QuickwitService::Searcher];
    assert!(has_service(&services, QuickwitService::Searcher));
    assert!(!has_service(&services, QuickwitService::Indexer));
}

#[test]
fn services_of_a_list_of_names() {
    assert_eq!(services_from_names(&names(&[])), Ok(vec![]));
    assert_eq!(
        services_from_names(&names(&["searcher", "indexer", "searcher"])),
        Ok(vec![QuickwitService::Searcher, QuickwitService::Indexer])
    );
    assert_eq!(
        services_from_names(&names(&["searcher", "a", "b"])),
        Err(UnknownService {
            service: "a".to_string()
        })
    );
}

#[test]
fn names_of_no_service() {
    assert_eq!(
        unknown_services("janitor,searcher,, indexer,indexer"),
        names(&["janitor", "", " indexer"])
    );
    assert_eq!(unknown_services("searcher,indexer"), names(&[]));
    assert_eq!(unknown_services(""), names(&[""]));
}

#[test]
fn one_unknown_name_refuses_a_list() {
    for place in 0..3 {
        let mut list = names(&["indexer", "searcher", "indexer"]);
        list[place] = "Indexer".to_string();
        assert_eq!(
            services_from_names(&list),
            Err(UnknownService {
                service: "Indexer".to_string()
            })
        );
    }
}
