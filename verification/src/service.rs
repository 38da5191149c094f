//! The services that a node runs, and how it advertises them.

use crate::text::{join_texts, split_text};
use vstd::prelude::*;

verus! {

/// A service that a node can run.
#[derive(Clone, Copy, Debug, PartialEq, Eq, Hash, Structural)]
pub enum QuickwitService {
    Indexer,
    Searcher,
}

/// The name of no service.
#[derive(Debug, PartialEq)]
pub struct UnknownService {
    pub service: String,
}

impl QuickwitService {
    /// The name under which the service is advertised.
    pub open spec fn name(self) -> Seq<char> {
        match self {
            QuickwitService::Indexer => "indexer"@,
            QuickwitService::Searcher => "searcher"@,
        }
    }

    pub fn as_str(&self) -> (name: &'static str)
        ensures
            name@ == self.name(),
    {
        match self {
            QuickwitService::Indexer => "indexer",
            QuickwitService::Searcher => "searcher",
        }
    }
}

/// The service of that name, if there is one.
pub open spec fn service_named(name: Seq<char>) -> Option<QuickwitService> {
    if name == QuickwitService::Indexer.name() {
        Some(QuickwitService::Indexer)
    } else if name == QuickwitService::Searcher.name() {
        Some(QuickwitService::Searcher)
    } else {
        None
    }
}

impl<'a> vstd::std_specs::convert::TryFromSpecImpl<&'a str> for QuickwitService {
    /// What `try_from` returns is stated at `try_from`, over the views.
    open spec fn obeys_try_from_spec() -> bool {
        false
    }

    open spec fn try_from_spec(service_str: &'a str) -> Result<Self, UnknownService> {
        arbitrary()
    }
}

impl<'a> TryFrom<&'a str> for QuickwitService {
    type Error = UnknownService;

    fn try_from(service_str: &'a str) -> (service: Result<Self, UnknownService>)
        ensures
            match service {
                Ok(s) => service_named(service_str@) == Some(s),
                Err(e) => service_named(service_str@) is None && e.service@ == service_str@,
            },
            match service {
                Ok(s) => service_str@ == s.name(),
                Err(e) => service_str@ != QuickwitService::Indexer.name() && service_str@
                    != QuickwitService::Searcher.name(),
            },
    {
        let name: String = service_str.to_owned();
        if name == QuickwitService::Indexer.as_str().to_owned() {
            Ok(QuickwitService::Indexer)
        } else if name == QuickwitService::Searcher.as_str().to_owned() {
            Ok(QuickwitService::Searcher)
        } else {
            Err(UnknownService { service: name })
        }
    }
}

/// The services that a list of names holds, in its order. Names of no service are passed over.
pub open spec fn known_services(names: Seq<Seq<char>>) -> Seq<QuickwitService>
    decreases names.len(),
{
    if names.len() == 0 {
        Seq::empty()
    } else {
        let front = known_services(names.drop_last());
        match service_named(names.last()) {
            Some(service) => front.push(service),
            None => front,
        }
    }
}

/// The names of a list of services.
pub open spec fn service_names(services: Seq<QuickwitService>) -> Seq<Seq<char>> {
    services.map_values(|service: QuickwitService| service.name())
}

/// How a node advertises its services: their names, with a comma in between.
pub open spec fn advertised_services(services: Seq<QuickwitService>) -> Seq<char> {
    crate::text::joined(service_names(services), seq![','])
}

/// The services that an advertised value stands for. What is not the name of a service is passed
/// over.
pub open spec fn advertised_by(value: Seq<char>) -> Seq<QuickwitService> {
    known_services(crate::text::split_on(value, ','))
}

/// Writes the value that advertises `services`.
pub fn available_services_val(services: &Vec<QuickwitService>) -> (value: String)
    ensures
        value@ == advertised_services(services@),
{
    let mut names: Vec<&'static str> = Vec::new();
    let mut i: usize = 0;
    while i < services.len()
        invariant
            i <= services.len(),
            names@.map_values(|name: &'static str| name@) == service_names(
                services@.take(i as int),
            ),
        decreases services.len() - i,
    {
        let ghost before = names@;
        names.push(services[i].as_str());
        proof {
            assert(services@.take(i + 1) =~= services@.take(i as int).push(services@[i as int]));
            assert(names@.map_values(|name: &'static str| name@) =~= before.map_values(
                |name: &'static str| name@,
            ).push(services@[i as int].name()));
            assert(service_names(services@.take(i + 1)) =~= service_names(
                services@.take(i as int),
            ).push(services@[i as int].name()));
        }
        i = i + 1;
    }
    proof {
        reveal_strlit(",");
        assert(","@ =~= seq![',']);
        assert(services@.take(i as int) =~= services@);
    }
    join_texts(&names, ",")
}

/// Reads the services out of an advertised value.
pub fn parse_available_services_val(available_services_val: &str) -> (services: Vec<
    QuickwitService,
>)
    ensures
        services@ == advertised_by(available_services_val@),
{
    let pieces = split_text(available_services_val, ',');
    let ghost names = crate::text::texts(pieces@);
    let mut services: Vec<QuickwitService> = Vec::new();
    let mut i: usize = 0;
    assert(names.take(0) =~= Seq::<Seq<char>>::empty());
    while i < pieces.len()
        invariant
            i <= pieces.len(),
            names == crate::text::texts(pieces@),
            services@ == known_services(names.take(i as int)),
        decreases pieces.len() - i,
    {
        proof {
            assert(names.take(i + 1).drop_last() =~= names.take(i as int));
            assert(names.take(i + 1).last() == pieces@[i as int]@);
        }
        match QuickwitService::try_from(pieces[i].as_str()) {
            Ok(service) => services.push(service),
            Err(_) => {},
        }
        i = i + 1;
    }
    assert(names.take(i as int) =~= names);
    services
}

/// Lists what an advertised value holds that is not the name of a service.
pub fn unknown_services(available_services_val: &str) -> (names: Vec<String>)
    ensures
        crate::text::texts(names@) == crate::text::split_on(available_services_val@, ',').filter(
            |name: Seq<char>| service_named(name) is None,
        ),
{
    let pieces = split_text(available_services_val, ',');
    let ghost all = crate::text::texts(pieces@);
    let ghost unknown = |name: Seq<char>| service_named(name) is None;
    let mut names: Vec<String> = Vec::new();
    let mut i: usize = 0;
    proof {
        reveal(Seq::filter);
        assert(all.take(0) =~= Seq::<Seq<char>>::empty());
        assert(crate::text::texts(names@) =~= all.take(0).filter(unknown));
    }
    while i < pieces.len()
        invariant
            i <= pieces.len(),
            all == crate::text::texts(pieces@),
            unknown == (|name: Seq<char>| service_named(name) is None),
            crate::text::texts(names@) == all.take(i as int).filter(unknown),
        decreases pieces.len() - i,
    {
        let ghost before = names@;
        proof {
            reveal(Seq::filter);
            assert(all.take(i + 1).drop_last() =~= all.take(i as int));
            assert(all.take(i + 1).last() == pieces@[i as int]@);
        }
        match QuickwitService::try_from(pieces[i].as_str()) {
            Ok(_) => {},
            Err(error) => {
                names.push(error.service);
                assert(crate::text::texts(names@) =~= crate::text::texts(before).push(
                    pieces@[i as int]@,
                ));
            },
        }
        i = i + 1;
    }
    assert(all.take(i as int) =~= all);
    names
}

/// The services of a list of names, each once, where it first occurs; or the first name that is
/// of no service.
pub open spec fn services_named(names: Seq<Seq<char>>) -> Result<Seq<QuickwitService>, Seq<char>>
    decreases names.len(),
{
    if names.len() == 0 {
        Ok(Seq::empty())
    } else {
        match services_named(names.drop_last()) {
            Err(name) => Err(name),
            Ok(front) => match service_named(names.last()) {
                None => Err(names.last()),
                Some(service) => if front.contains(service) {
                    Ok(front)
                } else {
                    Ok(front.push(service))
                },
            },
        }
    }
}

/// Is `service` among `services`?
pub fn has_service(services: &Vec<QuickwitService>, service: QuickwitService) -> (found: bool)
    ensures
        found == services@.contains(service),
{
    let mut i: usize = 0;
    while i < services.len()
        invariant
            i <= services.len(),
            forall|j: int| 0 <= j < i ==> services@[j] != service,
        decreases services.len() - i,
    {
        if services[i] == service {
            return true;
        }
        i = i + 1;
    }
    false
}

/// Reads a list of names, each of which has to be that of a service.
pub fn services_from_names(names: &Vec<String>) -> (services: Result<
    Vec<QuickwitService>,
    UnknownService,
>)
    ensures
        match services {
            Ok(list) => services_named(crate::text::texts(names@)) == Ok::<
                Seq<QuickwitService>,
                Seq<char>,
            >(list@),
            Err(e) => services_named(crate::text::texts(names@)) == Err::<
                Seq<QuickwitService>,
                Seq<char>,
            >(e.service@),
        },
{
    let ghost all = crate::text::texts(names@);
    let mut services: Vec<QuickwitService> = Vec::new();
    let mut i: usize = 0;
    assert(all.take(0) =~= Seq::<Seq<char>>::empty());
    while i < names.len()
        invariant
            i <= names.len(),
            all == crate::text::texts(names@),
            services_named(all.take(i as int)) == Ok::<Seq<QuickwitService>, Seq<char>>(services@),
        decreases names.len() - i,
    {
        proof {
            assert(all.take(i + 1).drop_last() =~= all.take(i as int));
            assert(all.take(i + 1).last() == names@[i as int]@);
        }
        match QuickwitService::try_from(names[i].as_str()) {
            Ok(service) => {
                if !has_service(&services, service) {
                    services.push(service);
                }
            },
            Err(error) => {
                proof {
                    lemma_first_unknown_stays(all, i + 1);
                }
                return Err(error);
            },
        }
        i = i + 1;
    }
    assert(all.take(i as int) =~= all);
    Ok(services)
}

/// A name of no service in a prefix is the error of the whole list.
proof fn lemma_first_unknown_stays(names: Seq<Seq<char>>, n: int)
    requires
        0 <= n <= names.len(),
        services_named(names.take(n)) is Err,
    ensures
        services_named(names) == services_named(names.take(n)),
    decreases names.len(),
{
    if n == names.len() {
        assert(names.take(n) =~= names);
    } else {
        assert(names.drop_last().take(n) =~= names.take(n));
        lemma_first_unknown_stays(names.drop_last(), n);
    }
}

/// Every service has a name of its own, and no name holds the comma that separates names.
pub proof fn service_name_is_its_own(service: QuickwitService)
    ensures
        service_named(service.name()) == Some(service),
        !service.name().contains(','),
        forall|name: Seq<char>| #[trigger]
            service_named(name) == Some(service) <==> name == service.name(),
{
    reveal_strlit("indexer");
    reveal_strlit("searcher");
    assert("indexer"@.len() != "searcher"@.len());
}

/// The services that an advertised value stands for are those that its pieces name, in their
/// order: `at` says which piece each is, and every piece that names a service is one of them.
pub proof fn advertised_pieces_are_services(value: Seq<char>) -> (at: Seq<int>)
    ensures
        at.len() == advertised_by(value).len(),
        forall|i: int, j: int| 0 <= i < j < at.len() ==> #[trigger] at[i] < #[trigger] at[j],
        forall|i: int|
            0 <= i < at.len() ==> 0 <= #[trigger] at[i] < crate::text::split_on(value, ',').len()
                && crate::text::split_on(value, ',')[at[i]] == advertised_by(value)[i].name(),
        forall|piece: int, service: QuickwitService|
            0 <= piece < crate::text::split_on(value, ',').len() && #[trigger] service.name()
                == #[trigger] crate::text::split_on(value, ',')[piece] ==> at.contains(piece),
{
    lemma_known_services_places(crate::text::split_on(value, ','))
}

proof fn lemma_known_services_places(names: Seq<Seq<char>>) -> (at: Seq<int>)
    ensures
        at.len() == known_services(names).len(),
        forall|i: int, j: int| 0 <= i < j < at.len() ==> #[trigger] at[i] < #[trigger] at[j],
        forall|i: int|
            0 <= i < at.len() ==> 0 <= #[trigger] at[i] < names.len() && names[at[i]]
                == known_services(names)[i].name(),
        forall|piece: int, service: QuickwitService|
            0 <= piece < names.len() && #[trigger] service.name() == #[trigger] names[piece]
                ==> at.contains(piece),
    decreases names.len(),
{
    if names.len() == 0 {
        Seq::empty()
    } else {
        let front = names.drop_last();
        let last = names.len() - 1;
        let before = lemma_known_services_places(front);
        service_name_is_its_own(QuickwitService::Indexer);
        service_name_is_its_own(QuickwitService::Searcher);
        let at = if service_named(names.last()) is Some {
            before.push(last)
        } else {
            before
        };
        assert forall|piece: int, service: QuickwitService|
            0 <= piece < names.len() && #[trigger] service.name()
                == #[trigger] names[piece] implies at.contains(piece) by {
            service_name_is_its_own(service);
            crate::lists::lemma_contains_push(before, last, piece);
            if piece < last {
                assert(front[piece] == names[piece]);
            }
        }
        assert forall|i: int| 0 <= i < at.len() implies 0 <= #[trigger] at[i] < names.len()
            && names[at[i]] == known_services(names)[i].name() by {
            if i < before.len() {
                assert(at[i] == before[i]);
                assert(front[at[i]] == names[at[i]]);
            }
        }
        at
    }
}

/// A node advertises its services by their names, one piece for each, in their order; a node
/// without services advertises the empty text.
pub proof fn every_service_is_advertised(services: Seq<QuickwitService>)
    ensures
        services.len() == 0 ==> advertised_services(services) == Seq::<char>::empty(),
        services.len() > 0 ==> {
            let pieces = crate::text::split_on(advertised_services(services), ',');
            &&& pieces.len() == services.len()
            &&& forall|i: int|
                0 <= i < services.len() ==> #[trigger] pieces[i] == services[i].name()
        },
{
    let names = service_names(services);
    assert forall|i: int| 0 <= i < names.len() implies !(#[trigger] names[i]).contains(',') by {
        service_name_is_its_own(services[i]);
    }
    crate::text::split_of_joined(names, ',');
}

/// A refused list is refused for its first name of no service.
pub proof fn first_unknown_name_is_reported(names: Seq<Seq<char>>) -> (at: int)
    requires
        services_named(names) is Err,
    ensures
        0 <= at < names.len(),
        services_named(names) == Err::<Seq<QuickwitService>, Seq<char>>(names[at]),
        forall|service: QuickwitService| names[at] != #[trigger] service.name(),
        forall|i: int|
            0 <= i < at ==> #[trigger] names[i] == QuickwitService::Indexer.name() || names[i]
                == QuickwitService::Searcher.name(),
    decreases names.len(),
{
    service_name_is_its_own(QuickwitService::Indexer);
    service_name_is_its_own(QuickwitService::Searcher);
    let front = names.drop_last();
    if services_named(front) is Err {
        let at = first_unknown_name_is_reported(front);
        assert forall|i: int| 0 <= i < at implies #[trigger] names[i]
            == QuickwitService::Indexer.name() || names[i] == QuickwitService::Searcher.name() by {
            assert(front[i] == names[i]);
        }
        at
    } else {
        unknown_name_refuses_the_list(front);
        assert forall|i: int| 0 <= i < front.len() implies #[trigger] names[i]
            == QuickwitService::Indexer.name() || names[i] == QuickwitService::Searcher.name() by {
            assert(service_named(front[i]) is Some);
        }
        names.len() - 1
    }
}

/// What a node advertises is read back as the services that it runs, also where it runs none.
pub proof fn advertised_services_read_back(services: Seq<QuickwitService>)
    ensures
        advertised_by(advertised_services(services)) == services,
{
    let names = service_names(services);
    assert forall|i: int| 0 <= i < names.len() implies !(#[trigger] names[i]).contains(',') by {
        service_name_is_its_own(services[i]);
    }
    crate::text::split_of_joined(names, ',');
    if services.len() == 0 {
        reveal_strlit("indexer");
        reveal_strlit("searcher");
        reveal_with_fuel(known_services, 2);
        assert(seq![Seq::<char>::empty()].drop_last() =~= Seq::<Seq<char>>::empty());
        assert(services =~= Seq::empty());
    } else {
        lemma_known_services_of_names(services);
    }
}

proof fn lemma_known_services_of_names(services: Seq<QuickwitService>)
    ensures
        known_services(service_names(services)) == services,
    decreases services.len(),
{
    if services.len() == 0 {
        assert(services =~= Seq::empty());
    } else {
        let names = service_names(services);
        assert(names.drop_last() =~= service_names(services.drop_last()));
        lemma_known_services_of_names(services.drop_last());
        service_name_is_its_own(services.last());
        assert(services.drop_last().push(services.last()) =~= services);
    }
}

/// Of a list of names no service is taken twice.
pub proof fn services_named_are_distinct(names: Seq<Seq<char>>)
    ensures
        services_named(names) matches Ok(services) ==> services.no_duplicates(),
    decreases names.len(),
{
    if names.len() > 0 {
        services_named_are_distinct(names.drop_last());
    }
}

/// One name of no service refuses a whole list, and nothing else does.
pub proof fn unknown_name_refuses_the_list(names: Seq<Seq<char>>)
    ensures
        services_named(names) is Err <==> exists|i: int|
            0 <= i < names.len() && service_named(#[trigger] names[i]) is None,
    decreases names.len(),
{
    if names.len() > 0 {
        let front = names.drop_last();
        unknown_name_refuses_the_list(front);
        assert(names[names.len() - 1] == names.last());
        assert forall|i: int| 0 <= i < front.len() implies #[trigger] front[i] == names[i] by {}
        assert forall|i: int| 0 <= i < front.len() implies #[trigger] names[i] == front[i] by {}
    }
}

/// A list that is not refused has exactly the services that it names.
pub proof fn services_named_are_those_named(names: Seq<Seq<char>>, service: QuickwitService)
    requires
        services_named(names) is Ok,
    ensures
        services_named(names)->Ok_0.contains(service) <==> names.contains(service.name()),
    decreases names.len(),
{
    service_name_is_its_own(service);
    if names.len() > 0 {
        let front = names.drop_last();
        let before = services_named(front)->Ok_0;
        let last = service_named(names.last())->0;
        services_named_are_those_named(front, service);
        crate::lists::lemma_contains_push(before, last, service);
        crate::lists::lemma_contains_push(front, names.last(), service.name());
        assert(front.push(names.last()) =~= names);
    }
}

} // verus!
