//! What has to be loaded before a search can run.
//!
//! A search cannot fetch data while it runs, so everything that it may read is downloaded in
//! advance. What that is depends on the query and on the collector; this module lists it.

use crate::schema::{
    get_fastfield_cardinality, get_field, get_field_type, get_is_fast, Cardinality, FieldType,
};
use itertools::Itertools;
use tantivy::schema::Schema;
use vstd::prelude::*;

verus! {

/// Why a field cannot be warmed up.
#[derive(Debug, PartialEq)]
pub enum WarmupError {
    /// The schema has no field of that name.
    FieldNotFound { field_name: String },
    /// The field is not a fast field.
    NotFast { field_name: String },
    /// The field is a fast field of unknown cardinality.
    UnknownCardinality { field_name: String, field_type: FieldType },
}

/// What a [`WarmupError`] is, with its text as characters.
pub enum WarmupErrorView {
    FieldNotFound { field_name: Seq<char> },
    NotFast { field_name: Seq<char> },
    UnknownCardinality { field_name: Seq<char>, field_type: FieldType },
}

impl View for WarmupError {
    type V = WarmupErrorView;

    open spec fn view(&self) -> WarmupErrorView {
        match *self {
            WarmupError::FieldNotFound { field_name } => WarmupErrorView::FieldNotFound {
                field_name: field_name@,
            },
            WarmupError::NotFast { field_name } => WarmupErrorView::NotFast {
                field_name: field_name@,
            },
            WarmupError::UnknownCardinality { field_name, field_type } =>
                WarmupErrorView::UnknownCardinality { field_name: field_name@, field_type },
        }
    }
}

/// The outcome of the three parts of a warm-up, which run at the same time: the first error, in
/// the order terms, fast fields, term dictionaries.
pub fn warmup<E>(
    warm_up_terms_res: Result<(), E>,
    warm_up_fastfields_res: Result<(), E>,
    warm_up_term_dict_res: Result<(), E>,
) -> (outcome: Result<(), E>)
    ensures
        outcome == if warm_up_terms_res is Err {
            warm_up_terms_res
        } else if warm_up_fastfields_res is Err {
            warm_up_fastfields_res
        } else {
            warm_up_term_dict_res
        },
{
    warm_up_terms_res?;
    warm_up_fastfields_res?;
    warm_up_term_dict_res?;
    Ok(())
}

// ---------------------------------------------------------------------------------------------
// Term dictionaries
// ---------------------------------------------------------------------------------------------

/// The dictionary of one field in one segment.
#[derive(Clone, Copy, Debug, PartialEq, Eq, Structural)]
pub struct TermDictWarmup {
    pub field: u32,
    pub segment: usize,
}

/// The numbers of the fields of these names, in their order; or the first name that is of no
/// field.
pub open spec fn fields_named(fields: Map<Seq<char>, u32>, names: Seq<Seq<char>>) -> Result<
    Seq<u32>,
    WarmupErrorView,
>
    decreases names.len(),
{
    if names.len() == 0 {
        Ok(Seq::empty())
    } else {
        match fields_named(fields, names.drop_last()) {
            Err(error) => Err(error),
            Ok(front) => if fields.contains_key(names.last()) {
                Ok(front.push(fields[names.last()]))
            } else {
                Err(WarmupErrorView::FieldNotFound { field_name: names.last() })
            },
        }
    }
}

/// The dictionaries of `field` in the first `num_segments` segments.
pub open spec fn term_dicts_of(field: u32, num_segments: nat) -> Seq<TermDictWarmup> {
    Seq::new(num_segments, |segment: int| TermDictWarmup { field, segment: segment as usize })
}

/// The dictionaries of all fields in all segments, field by field.
pub open spec fn term_dict_plan(fields: Seq<u32>, num_segments: nat) -> Seq<TermDictWarmup>
    decreases fields.len(),
{
    if fields.len() == 0 {
        Seq::empty()
    } else {
        term_dict_plan(fields.drop_last(), num_segments) + term_dicts_of(
            fields.last(),
            num_segments,
        )
    }
}

/// Finds the fields of these names.
fn find_fields(schema: &Schema, names: &Vec<String>) -> (fields: Result<Vec<u32>, WarmupError>)
    ensures
        match fields {
            Ok(list) => fields_named(
                crate::schema::schema_fields(*schema),
                crate::text::texts(names@),
            ) == Ok::<Seq<u32>, WarmupErrorView>(list@),
            Err(error) => fields_named(
                crate::schema::schema_fields(*schema),
                crate::text::texts(names@),
            ) == Err::<Seq<u32>, WarmupErrorView>(error@),
        },
        fields matches Ok(list) ==> crate::text::texts(names@).no_duplicates()
            && crate::schema::has_numbers_for_all(crate::schema::schema_types(*schema))
            ==> list@.no_duplicates(),
{
    let ghost all = crate::text::texts(names@);
    let ghost known = crate::schema::schema_fields(*schema);
    let ghost enough = crate::schema::has_numbers_for_all(crate::schema::schema_types(*schema));
    let mut fields: Vec<u32> = Vec::new();
    let mut i: usize = 0;
    assert(all.take(0) =~= Seq::<Seq<char>>::empty());
    while i < names.len()
        invariant
            i <= names.len(),
            all == crate::text::texts(names@),
            known == crate::schema::schema_fields(*schema),
            enough == crate::schema::has_numbers_for_all(crate::schema::schema_types(*schema)),
            fields_named(known, all.take(i as int)) == Ok::<Seq<u32>, WarmupErrorView>(fields@),
            fields.len() == i,
            forall|j: int|
                0 <= j < i ==> known.contains_key(#[trigger] all[j]) && known[all[j]] == fields@[j],
            all.no_duplicates() && enough ==> fields@.no_duplicates(),
        decreases names.len() - i,
    {
        proof {
            assert(all.take(i + 1).drop_last() =~= all.take(i as int));
            assert(all.take(i + 1).last() == names@[i as int]@);
        }
        match get_field(schema, names[i].as_str()) {
            Some(field) => {
                proof {
                    if all.no_duplicates() && enough {
                        assert forall|j: int| 0 <= j < i implies (#[trigger] fields@[j])
                            != field by {
                            assert(known.contains_key(all[j]));
                            assert(all[j] != all[i as int]);
                        }
                    }
                }
                fields.push(field);
            },
            None => {
                proof {
                    lemma_first_missing_stays(known, all, i + 1);
                }
                return Err(WarmupError::FieldNotFound { field_name: names[i].clone() });
            },
        }
        i = i + 1;
    }
    assert(all.take(i as int) =~= all);
    Ok(fields)
}

/// A name of no field in a prefix is the error of the whole list.
proof fn lemma_first_missing_stays(fields: Map<Seq<char>, u32>, names: Seq<Seq<char>>, n: int)
    requires
        0 <= n <= names.len(),
        fields_named(fields, names.take(n)) is Err,
    ensures
        fields_named(fields, names) == fields_named(fields, names.take(n)),
    decreases names.len(),
{
    if n == names.len() {
        assert(names.take(n) =~= names);
    } else {
        assert(names.drop_last().take(n) =~= names.take(n));
        lemma_first_missing_stays(fields, names.drop_last(), n);
    }
}

/// Lists the dictionaries to load, where whole dictionaries of fields are needed: this is so for
/// an aggregation over terms, which cannot know in advance which terms are going to be hit. Where
/// no name comes twice, no dictionary does.
pub fn warm_up_term_dict_fields(
    schema: &Schema,
    term_dict_field_names: &Vec<String>,
    num_segments: usize,
) -> (plan: Result<Vec<TermDictWarmup>, WarmupError>)
    ensures
        match fields_named(
            crate::schema::schema_fields(*schema),
            crate::text::texts(term_dict_field_names@),
        ) {
            Ok(fields) => plan matches Ok(list) && list@ == term_dict_plan(
                fields,
                num_segments as nat,
            ),
            Err(error) => plan matches Err(e) && e@ == error,
        },
        plan matches Ok(list) ==> crate::text::texts(term_dict_field_names@).no_duplicates()
            && crate::schema::has_numbers_for_all(crate::schema::schema_types(*schema))
            ==> list@.no_duplicates(),
        plan matches Ok(list) ==> {
            let fields = crate::schema::schema_fields(*schema);
            let names = term_dict_field_names@;
            &&& list@.len() == names.len() * num_segments
            &&& forall|k: int|
                0 <= k < names.len() ==> fields.contains_key((#[trigger] names[k])@)
            &&& forall|k: int, segment: usize|
                #![trigger names[k], list@.contains(
                    TermDictWarmup { field: fields[names[k]@], segment },
                )]
                0 <= k < names.len() && segment < num_segments ==> list@.contains(
                    TermDictWarmup { field: fields[names[k]@], segment },
                )
        },
        plan matches Err(error) ==> exists|k: int|
            0 <= k < term_dict_field_names@.len()
                && !crate::schema::schema_fields(*schema).contains_key(
                (#[trigger] term_dict_field_names@[k])@,
            ) && error@ == (WarmupErrorView::FieldNotFound {
                field_name: term_dict_field_names@[k]@,
            }),
{
    let ghost known = crate::schema::schema_fields(*schema);
    let ghost names = crate::text::texts(term_dict_field_names@);
    let ghost refused = every_name_gets_its_dictionaries(known, names, num_segments);
    proof {
        crate::text::texts_are_those_of_the_strings(term_dict_field_names@);
    }
    let fields = match find_fields(schema, term_dict_field_names) {
        Ok(fields) => fields,
        Err(error) => {
            assert(names[refused] == term_dict_field_names@[refused]@);
            return Err(error);
        },
    };
    let mut plan: Vec<TermDictWarmup> = Vec::new();
    let mut i: usize = 0;
    assert(fields@.take(0) =~= Seq::<u32>::empty());
    while i < fields.len()
        invariant
            i <= fields.len(),
            plan@ == term_dict_plan(fields@.take(i as int), num_segments as nat),
        decreases fields.len() - i,
    {
        let field: u32 = fields[i];
        let ghost before = plan@;
        let mut segment: usize = 0;
        while segment < num_segments
            invariant
                segment <= num_segments,
                plan@ == before + term_dicts_of(field, segment as nat),
            decreases num_segments - segment,
        {
            plan.push(TermDictWarmup { field, segment });
            segment = segment + 1;
        }
        proof {
            assert(fields@.take(i + 1).drop_last() =~= fields@.take(i as int));
            assert(fields@.take(i + 1).last() == field);
        }
        i = i + 1;
    }
    assert(fields@.take(i as int) =~= fields@);
    proof {
        if fields@.no_duplicates() {
            term_dict_plan_lists_nothing_twice(fields@, num_segments);
        }
        let given = term_dict_field_names@;
        assert forall|k: int| 0 <= k < given.len() implies known.contains_key(
            (#[trigger] given[k])@,
        ) by {
            assert(names[k] == given[k]@);
        }
        assert forall|k: int, segment: usize|
            #![trigger given[k], plan@.contains(
                TermDictWarmup { field: known[given[k]@], segment },
            )]
            0 <= k < given.len() && segment < num_segments implies plan@.contains(
            TermDictWarmup { field: known[given[k]@], segment },
        ) by {
            assert(names[k] == given[k]@);
            assert(plan@.contains(TermDictWarmup { field: known[names[k]], segment }));
        }
    }
    Ok(plan)
}

/// The plan holds the dictionary of every field in every segment, and nothing else.
pub proof fn term_dict_plan_is_complete(
    fields: Seq<u32>,
    num_segments: usize,
    warmup: TermDictWarmup,
)
    ensures
        term_dict_plan(fields, num_segments as nat).contains(warmup) <==> fields.contains(
            warmup.field,
        ) && warmup.segment < num_segments,
    decreases fields.len(),
{
    let n = num_segments as nat;
    if fields.len() > 0 {
        let front = term_dict_plan(fields.drop_last(), n);
        let row = term_dicts_of(fields.last(), n);
        term_dict_plan_is_complete(fields.drop_last(), num_segments, warmup);
        crate::lists::lemma_contains_concat(front, row, warmup);
        assert(fields =~= fields.drop_last().push(fields.last()));
        crate::lists::lemma_contains_push(fields.drop_last(), fields.last(), warmup.field);
        if warmup.field == fields.last() && warmup.segment < num_segments {
            assert(row[warmup.segment as int] == warmup);
        }
    }
}

/// Where no field comes twice, no dictionary is loaded twice.
pub proof fn term_dict_plan_lists_nothing_twice(fields: Seq<u32>, num_segments: usize)
    requires
        fields.no_duplicates(),
    ensures
        term_dict_plan(fields, num_segments as nat).no_duplicates(),
    decreases fields.len(),
{
    let n = num_segments as nat;
    if fields.len() > 0 {
        let front = term_dict_plan(fields.drop_last(), n);
        let row = term_dicts_of(fields.last(), n);
        term_dict_plan_lists_nothing_twice(fields.drop_last(), num_segments);
        assert forall|warmup: TermDictWarmup| !(#[trigger] front.contains(warmup) && row.contains(
            warmup,
        )) by {
            term_dict_plan_is_complete(fields.drop_last(), num_segments, warmup);
        }
        crate::lists::lemma_distinct_concat(front, row);
    }
}

/// There is one dictionary for each field and each segment.
pub proof fn term_dict_plan_length(fields: Seq<u32>, num_segments: usize)
    ensures
        term_dict_plan(fields, num_segments as nat).len() == fields.len() * num_segments,
    decreases fields.len(),
{
    if fields.len() > 0 {
        let front = fields.drop_last();
        term_dict_plan_length(front, num_segments);
        assert(fields.len() * num_segments == front.len() * num_segments + num_segments)
            by (nonlinear_arith)
            requires
                fields.len() == front.len() + 1,
        ;
    }
}

/// A name of no field refuses the names, the first one that is. Otherwise the plan holds one
/// dictionary for each name and segment: that of the field of the name, in that segment.
pub proof fn every_name_gets_its_dictionaries(
    fields: Map<Seq<char>, u32>,
    names: Seq<Seq<char>>,
    num_segments: usize,
) -> (refused: int)
    ensures
        match fields_named(fields, names) {
            Ok(numbers) => {
                let plan = term_dict_plan(numbers, num_segments as nat);
                &&& plan.len() == names.len() * num_segments
                &&& forall|k: int|
                    0 <= k < names.len() ==> fields.contains_key(#[trigger] names[k])
                &&& forall|k: int, segment: usize|
                    #![trigger names[k], plan.contains(
                        TermDictWarmup { field: fields[names[k]], segment },
                    )]
                    0 <= k < names.len() && segment < num_segments ==> plan.contains(
                        TermDictWarmup { field: fields[names[k]], segment },
                    )
                &&& forall|i: int|
                    0 <= i < plan.len() ==> (#[trigger] plan[i]).segment < num_segments && exists|
                        k: int,
                    | 0 <= k < names.len() && plan[i].field == fields[#[trigger] names[k]]
            },
            Err(error) => {
                &&& 0 <= refused < names.len()
                &&& !fields.contains_key(names[refused])
                &&& error == (WarmupErrorView::FieldNotFound { field_name: names[refused] })
                &&& forall|k: int|
                    0 <= k < refused ==> fields.contains_key(#[trigger] names[k])
            },
        },
{
    let refused = lemma_fields_are_found(fields, names);
    if fields_named(fields, names) is Ok {
        let numbers = fields_named(fields, names)->Ok_0;
        let plan = term_dict_plan(numbers, num_segments as nat);
        term_dict_plan_length(numbers, num_segments);
        assert forall|k: int, segment: usize|
            #![trigger names[k], plan.contains(
                TermDictWarmup { field: fields[names[k]], segment },
            )]
            0 <= k < names.len() && segment < num_segments implies plan.contains(
            TermDictWarmup { field: fields[names[k]], segment },
        ) by {
            let warmup = TermDictWarmup { field: fields[names[k]], segment };
            assert(numbers[k] == warmup.field);
            term_dict_plan_is_complete(numbers, num_segments, warmup);
        }
        assert forall|i: int| 0 <= i < plan.len() implies (#[trigger] plan[i]).segment
            < num_segments && exists|k: int|
            0 <= k < names.len() && plan[i].field == fields[#[trigger] names[k]] by {
            term_dict_plan_is_complete(numbers, num_segments, plan[i]);
            assert(plan.contains(plan[i]));
            let k = choose|k: int| 0 <= k < numbers.len() && numbers[k] == plan[i].field;
            assert(fields[names[k]] == plan[i].field);
        }
    }
    refused
}

proof fn lemma_fields_are_found(fields: Map<Seq<char>, u32>, names: Seq<Seq<char>>) -> (refused:
    int)
    ensures
        match fields_named(fields, names) {
            Ok(numbers) => numbers.len() == names.len() && forall|k: int|
                0 <= k < names.len() ==> fields.contains_key(#[trigger] names[k])
                    && fields[names[k]] == numbers[k],
            Err(error) => {
                &&& 0 <= refused < names.len()
                &&& !fields.contains_key(names[refused])
                &&& error == (WarmupErrorView::FieldNotFound { field_name: names[refused] })
                &&& forall|k: int|
                    0 <= k < refused ==> fields.contains_key(#[trigger] names[k])
            },
        },
    decreases names.len(),
{
    if names.len() == 0 {
        0
    } else {
        let front = names.drop_last();
        let refused = lemma_fields_are_found(fields, front);
        assert forall|k: int| 0 <= k < front.len() implies #[trigger] names[k] == front[k] by {}
        if fields_named(fields, front) is Err {
            refused
        } else {
            names.len() - 1
        }
    }
}

// ---------------------------------------------------------------------------------------------
// Fast fields
// ---------------------------------------------------------------------------------------------

/// One of the files of the fast field of a field in a segment.
#[derive(Clone, Copy, Debug, PartialEq, Eq, Structural)]
pub struct FastFieldWarmup {
    pub field: u32,
    pub segment: usize,
    pub index: usize,
}

/// The number and the fast field cardinality of the field of that name, which has to be a fast
/// field.
pub open spec fn fast_field_named(
    fields: Map<Seq<char>, u32>,
    types: Seq<FieldType>,
    name: Seq<char>,
) -> Result<(u32, Cardinality), WarmupErrorView> {
    if !fields.contains_key(name) {
        Err(WarmupErrorView::FieldNotFound { field_name: name })
    } else {
        let field_type = types[fields[name] as int];
        if !field_type.is_fast() {
            Err(WarmupErrorView::NotFast { field_name: name })
        } else {
            match field_type.fastfield_cardinality() {
                None => Err(
                    WarmupErrorView::UnknownCardinality { field_name: name, field_type },
                ),
                Some(cardinality) => Ok((fields[name], cardinality)),
            }
        }
    }
}

/// The fast fields of these names, in their order; or the error of the first that is none.
pub open spec fn fast_fields_named(
    fields: Map<Seq<char>, u32>,
    types: Seq<FieldType>,
    names: Seq<Seq<char>>,
) -> Result<Seq<(u32, Cardinality)>, WarmupErrorView>
    decreases names.len(),
{
    if names.len() == 0 {
        Ok(Seq::empty())
    } else {
        match fast_fields_named(fields, types, names.drop_last()) {
            Err(error) => Err(error),
            Ok(front) => match fast_field_named(fields, types, names.last()) {
                Err(error) => Err(error),
                Ok(field) => Ok(front.push(field)),
            },
        }
    }
}

/// The files of a fast field in one segment: the values, and where a document can have any
/// number of them, a second one.
pub open spec fn fast_field_files(
    field: u32,
    cardinality: Cardinality,
    segment: usize,
) -> Seq<FastFieldWarmup> {
    match cardinality {
        Cardinality::SingleValue => seq![FastFieldWarmup { field, segment, index: 0 }],
        Cardinality::MultiValues => seq![
            FastFieldWarmup { field, segment, index: 0 },
            FastFieldWarmup { field, segment, index: 1 },
        ],
    }
}

/// The files of a fast field in the first `num_segments` segments.
pub open spec fn fast_field_in_segments(
    field: u32,
    cardinality: Cardinality,
    num_segments: nat,
) -> Seq<FastFieldWarmup>
    decreases num_segments,
{
    if num_segments == 0 {
        Seq::empty()
    } else {
        let segment = (num_segments - 1) as nat;
        fast_field_in_segments(field, cardinality, segment) + fast_field_files(
            field,
            cardinality,
            segment as usize,
        )
    }
}

/// The files of all fast fields in all segments, field by field.
pub open spec fn fast_field_plan(fields: Seq<(u32, Cardinality)>, num_segments: nat) -> Seq<
    FastFieldWarmup,
>
    decreases fields.len(),
{
    if fields.len() == 0 {
        Seq::empty()
    } else {
        fast_field_plan(fields.drop_last(), num_segments) + fast_field_in_segments(
            fields.last().0,
            fields.last().1,
            num_segments,
        )
    }
}

/// Finds the fast field of that name.
fn find_fast_field(schema: &Schema, name: &String) -> (field: Result<
    (u32, Cardinality),
    WarmupError,
>)
    ensures
        match field {
            Ok(found) => fast_field_named(
                crate::schema::schema_fields(*schema),
                crate::schema::schema_types(*schema),
                name@,
            ) == Ok::<(u32, Cardinality), WarmupErrorView>(found),
            Err(error) => fast_field_named(
                crate::schema::schema_fields(*schema),
                crate::schema::schema_types(*schema),
                name@,
            ) == Err::<(u32, Cardinality), WarmupErrorView>(error@),
        },
        field matches Ok(found) ==> crate::schema::has_numbers_for_all(
            crate::schema::schema_types(*schema),
        ) ==> forall|other: Seq<char>| #[trigger]
            crate::schema::schema_fields(*schema).contains_key(other)
                && crate::schema::schema_fields(*schema)[other] == found.0 ==> other == name@,
{
    let field: u32 = match get_field(schema, name.as_str()) {
        Some(field) => field,
        None => {
            return Err(WarmupError::FieldNotFound { field_name: name.clone() });
        },
    };
    if !get_is_fast(schema, field) {
        return Err(WarmupError::NotFast { field_name: name.clone() });
    }
    let field_type = get_field_type(schema, field);
    match get_fastfield_cardinality(&field_type) {
        Some(cardinality) => Ok((field, cardinality)),
        None => Err(WarmupError::UnknownCardinality { field_name: name.clone(), field_type }),
    }
}

/// Finds the fast fields of these names.
fn find_fast_fields(schema: &Schema, names: &Vec<String>) -> (fields: Result<
    Vec<(u32, Cardinality)>,
    WarmupError,
>)
    ensures
        match fields {
            Ok(list) => fast_fields_named(
                crate::schema::schema_fields(*schema),
                crate::schema::schema_types(*schema),
                crate::text::texts(names@),
            ) == Ok::<Seq<(u32, Cardinality)>, WarmupErrorView>(list@),
            Err(error) => fast_fields_named(
                crate::schema::schema_fields(*schema),
                crate::schema::schema_types(*schema),
                crate::text::texts(names@),
            ) == Err::<Seq<(u32, Cardinality)>, WarmupErrorView>(error@),
        },
        fields matches Ok(list) ==> crate::text::texts(names@).no_duplicates()
            && crate::schema::has_numbers_for_all(crate::schema::schema_types(*schema))
            ==> are_distinct_fields(list@),
{
    let ghost all = crate::text::texts(names@);
    let ghost known = crate::schema::schema_fields(*schema);
    let ghost types = crate::schema::schema_types(*schema);
    let ghost enough = crate::schema::has_numbers_for_all(types);
    let mut fields: Vec<(u32, Cardinality)> = Vec::new();
    let mut i: usize = 0;
    assert(all.take(0) =~= Seq::<Seq<char>>::empty());
    while i < names.len()
        invariant
            i <= names.len(),
            all == crate::text::texts(names@),
            known == crate::schema::schema_fields(*schema),
            types == crate::schema::schema_types(*schema),
            fast_fields_named(known, types, all.take(i as int)) == Ok::<
                Seq<(u32, Cardinality)>,
                WarmupErrorView,
            >(fields@),
            enough == crate::schema::has_numbers_for_all(types),
            fields.len() == i,
            forall|j: int|
                0 <= j < i ==> known.contains_key(#[trigger] all[j]) && known[all[j]]
                    == fields@[j].0,
            all.no_duplicates() && enough ==> are_distinct_fields(fields@),
        decreases names.len() - i,
    {
        proof {
            assert(all.take(i + 1).drop_last() =~= all.take(i as int));
            assert(all.take(i + 1).last() == names@[i as int]@);
        }
        match find_fast_field(schema, &names[i]) {
            Ok(field) => {
                proof {
                    if all.no_duplicates() && enough {
                        assert forall|j: int| 0 <= j < i implies (#[trigger] fields@[j]).0
                            != field.0 by {
                            assert(known.contains_key(all[j]));
                            assert(all[j] != all[i as int]);
                        }
                    }
                }
                fields.push(field);
            },
            Err(error) => {
                proof {
                    lemma_first_slow_stays(known, types, all, i + 1);
                }
                return Err(error);
            },
        }
        i = i + 1;
    }
    assert(all.take(i as int) =~= all);
    Ok(fields)
}

/// An error in a prefix is the error of the whole list.
proof fn lemma_first_slow_stays(
    fields: Map<Seq<char>, u32>,
    types: Seq<FieldType>,
    names: Seq<Seq<char>>,
    n: int,
)
    requires
        0 <= n <= names.len(),
        fast_fields_named(fields, types, names.take(n)) is Err,
    ensures
        fast_fields_named(fields, types, names) == fast_fields_named(fields, types, names.take(n)),
    decreases names.len(),
{
    if n == names.len() {
        assert(names.take(n) =~= names);
    } else {
        assert(names.drop_last().take(n) =~= names.take(n));
        lemma_first_slow_stays(fields, types, names.drop_last(), n);
    }
}

/// Lists the files of the fast fields to load. Where no name comes twice, no file does.
pub fn warm_up_fastfields(
    schema: &Schema,
    fast_field_names: &Vec<String>,
    num_segments: usize,
) -> (plan: Result<Vec<FastFieldWarmup>, WarmupError>)
    ensures
        match fast_fields_named(
            crate::schema::schema_fields(*schema),
            crate::schema::schema_types(*schema),
            crate::text::texts(fast_field_names@),
        ) {
            Ok(fields) => plan matches Ok(list) && list@ == fast_field_plan(
                fields,
                num_segments as nat,
            ),
            Err(error) => plan matches Err(e) && e@ == error,
        },
        plan matches Ok(list) ==> crate::text::texts(fast_field_names@).no_duplicates()
            && crate::schema::has_numbers_for_all(crate::schema::schema_types(*schema))
            ==> list@.no_duplicates(),
        plan matches Ok(list) ==> {
            let fields = crate::schema::schema_fields(*schema);
            let types = crate::schema::schema_types(*schema);
            let names = fast_field_names@;
            &&& forall|k: int|
                0 <= k < names.len() ==> fields.contains_key((#[trigger] names[k])@)
                    && types[fields[names[k]@] as int].is_fast()
            &&& forall|k: int, segment: usize, index: usize|
                #![trigger names[k], list@.contains(
                    FastFieldWarmup { field: fields[names[k]@], segment, index },
                )]
                0 <= k < names.len() && segment < num_segments ==> (list@.contains(
                    FastFieldWarmup { field: fields[names[k]@], segment, index },
                ) <==> index == 0 || index == 1
                    && types[fields[names[k]@] as int].fastfield_cardinality() == Some(
                    Cardinality::MultiValues,
                ))
        },
        plan matches Err(error) ==> exists|k: int|
            0 <= k < fast_field_names@.len() && is_no_fast_field(
                crate::schema::schema_fields(*schema),
                crate::schema::schema_types(*schema),
                (#[trigger] fast_field_names@[k])@,
                error@,
            ),
        plan is Err ==> ({
            let fields = crate::schema::schema_fields(*schema);
            let types = crate::schema::schema_types(*schema);
            exists|k: int|
                0 <= k < fast_field_names@.len() && !(fields.contains_key(
                    (#[trigger] fast_field_names@[k])@,
                ) && types[fields[fast_field_names@[k]@] as int].is_fast()
                    && types[fields[fast_field_names@[k]@] as int].fastfield_cardinality() is Some)
        }),
{
    let ghost known = crate::schema::schema_fields(*schema);
    let ghost types = crate::schema::schema_types(*schema);
    let ghost names = crate::text::texts(fast_field_names@);
    let ghost refused = every_name_gets_its_files(known, types, names, num_segments);
    proof {
        crate::text::texts_are_those_of_the_strings(fast_field_names@);
    }
    let fields = match find_fast_fields(schema, fast_field_names) {
        Ok(fields) => fields,
        Err(error) => {
            assert(names[refused] == fast_field_names@[refused]@);
            return Err(error);
        },
    };
    let mut plan: Vec<FastFieldWarmup> = Vec::new();
    let mut i: usize = 0;
    assert(fields@.take(0) =~= Seq::<(u32, Cardinality)>::empty());
    while i < fields.len()
        invariant
            i <= fields.len(),
            plan@ == fast_field_plan(fields@.take(i as int), num_segments as nat),
        decreases fields.len() - i,
    {
        let (field, cardinality) = fields[i];
        let ghost before = plan@;
        let mut segment: usize = 0;
        while segment < num_segments
            invariant
                segment <= num_segments,
                plan@ == before + fast_field_in_segments(field, cardinality, segment as nat),
            decreases num_segments - segment,
        {
            let ghost so_far = plan@;
            match cardinality {
                Cardinality::SingleValue => {
                    plan.push(FastFieldWarmup { field, segment, index: 0 });
                },
                Cardinality::MultiValues => {
                    plan.push(FastFieldWarmup { field, segment, index: 0 });
                    plan.push(FastFieldWarmup { field, segment, index: 1 });
                },
            }
            proof {
                assert(plan@ =~= so_far + fast_field_files(field, cardinality, segment));
                assert(plan@ =~= before + (fast_field_in_segments(
                    field,
                    cardinality,
                    segment as nat,
                ) + fast_field_files(field, cardinality, segment)));
            }
            segment = segment + 1;
        }
        proof {
            assert(fields@.take(i + 1).drop_last() =~= fields@.take(i as int));
            assert(fields@.take(i + 1).last() == fields@[i as int]);
        }
        i = i + 1;
    }
    assert(fields@.take(i as int) =~= fields@);
    proof {
        if are_distinct_fields(fields@) {
            fast_field_plan_lists_nothing_twice(fields@, num_segments);
        }
        let given = fast_field_names@;
        assert forall|k: int| 0 <= k < given.len() implies known.contains_key(
            (#[trigger] given[k])@,
        ) && types[known[given[k]@] as int].is_fast() by {
            assert(names[k] == given[k]@);
        }
        assert forall|k: int, segment: usize, index: usize|
            #![trigger given[k], plan@.contains(
                FastFieldWarmup { field: known[given[k]@], segment, index },
            )]
            0 <= k < given.len() && segment < num_segments implies (plan@.contains(
            FastFieldWarmup { field: known[given[k]@], segment, index },
        ) <==> index == 0 || index == 1
            && types[known[given[k]@] as int].fastfield_cardinality() == Some(
            Cardinality::MultiValues,
        )) by {
            assert(names[k] == given[k]@);
            let warmup = FastFieldWarmup { field: known[names[k]], segment, index };
            let found = fast_fields_named(known, types, names)->Ok_0;
            let wanted = fast_field_plan(found, num_segments as nat);
            assert(plan@ == wanted);
            let listed = wanted.contains(
                FastFieldWarmup { field: known[names[k]], segment, index },
            );
            assert(listed == plan@.contains(warmup));
        }
    }
    Ok(plan)
}

/// Does a list of fast fields ask for this file in some segment: the first of every field, and
/// the second where a document can have any number of values?
pub open spec fn asks_for_file(
    fields: Seq<(u32, Cardinality)>,
    field: u32,
    index: usize,
) -> bool {
    ||| index == 0 && (fields.contains((field, Cardinality::SingleValue)) || fields.contains(
        (field, Cardinality::MultiValues),
    ))
    ||| index == 1 && fields.contains((field, Cardinality::MultiValues))
}

/// The plan holds, for every fast field and every segment, the first file, and the second where
/// the fast field is multivalued; and nothing else.
pub proof fn fast_field_plan_is_complete(
    fields: Seq<(u32, Cardinality)>,
    num_segments: usize,
    warmup: FastFieldWarmup,
)
    ensures
        fast_field_plan(fields, num_segments as nat).contains(warmup) <==> asks_for_file(
            fields,
            warmup.field,
            warmup.index,
        ) && warmup.segment < num_segments,
    decreases fields.len(),
{
    let n = num_segments as nat;
    if fields.len() > 0 {
        let front = fields.drop_last();
        let (field, cardinality) = fields.last();
        fast_field_plan_is_complete(front, num_segments, warmup);
        lemma_in_segments(field, cardinality, num_segments, n, warmup);
        crate::lists::lemma_contains_concat(
            fast_field_plan(front, n),
            fast_field_in_segments(field, cardinality, n),
            warmup,
        );
        assert(fields =~= front.push((field, cardinality)));
        crate::lists::lemma_contains_push(
            front,
            fields.last(),
            (warmup.field, Cardinality::SingleValue),
        );
        crate::lists::lemma_contains_push(
            front,
            fields.last(),
            (warmup.field, Cardinality::MultiValues),
        );
    }
}

proof fn lemma_in_segments(
    field: u32,
    cardinality: Cardinality,
    num_segments: usize,
    n: nat,
    warmup: FastFieldWarmup,
)
    requires
        n <= num_segments,
    ensures
        fast_field_in_segments(field, cardinality, n).contains(warmup) <==> {
            &&& warmup.field == field
            &&& warmup.segment < n
            &&& warmup.index == 0 || warmup.index == 1 && cardinality is MultiValues
        },
    decreases n,
{
    if n > 0 {
        let segment = (n - 1) as usize;
        let files = fast_field_files(field, cardinality, segment);
        lemma_in_segments(field, cardinality, num_segments, (n - 1) as nat, warmup);
        crate::lists::lemma_contains_concat(
            fast_field_in_segments(field, cardinality, (n - 1) as nat),
            files,
            warmup,
        );
        assert(files[0] == (FastFieldWarmup { field, segment, index: 0 }));
        if cardinality is MultiValues {
            assert(files[1] == (FastFieldWarmup { field, segment, index: 1 }));
        }
    }
}

/// Does every field of the list come once?
pub open spec fn are_distinct_fields(fields: Seq<(u32, Cardinality)>) -> bool {
    forall|i: int, j: int|
        0 <= i < j < fields.len() ==> (#[trigger] fields[i]).0 != (#[trigger] fields[j]).0
}

/// Where no field comes twice, no file is loaded twice.
pub proof fn fast_field_plan_lists_nothing_twice(
    fields: Seq<(u32, Cardinality)>,
    num_segments: usize,
)
    requires
        are_distinct_fields(fields),
    ensures
        fast_field_plan(fields, num_segments as nat).no_duplicates(),
    decreases fields.len(),
{
    let n = num_segments as nat;
    if fields.len() > 0 {
        let before = fields.drop_last();
        let (field, cardinality) = fields.last();
        let front = fast_field_plan(before, n);
        let row = fast_field_in_segments(field, cardinality, n);
        fast_field_plan_lists_nothing_twice(before, num_segments);
        lemma_segments_distinct(field, cardinality, num_segments, n);
        assert forall|warmup: FastFieldWarmup| !(#[trigger] front.contains(warmup) && row.contains(
            warmup,
        )) by {
            fast_field_plan_is_complete(before, num_segments, warmup);
            lemma_in_segments(field, cardinality, num_segments, n, warmup);
            assert(!before.contains((field, Cardinality::SingleValue)));
            assert(!before.contains((field, Cardinality::MultiValues)));
        }
        crate::lists::lemma_distinct_concat(front, row);
    }
}

proof fn lemma_segments_distinct(
    field: u32,
    cardinality: Cardinality,
    num_segments: usize,
    n: nat,
)
    requires
        n <= num_segments,
    ensures
        fast_field_in_segments(field, cardinality, n).no_duplicates(),
    decreases n,
{
    if n > 0 {
        let last = (n - 1) as nat;
        let front = fast_field_in_segments(field, cardinality, last);
        let files = fast_field_files(field, cardinality, last as usize);
        lemma_segments_distinct(field, cardinality, num_segments, last);
        assert forall|warmup: FastFieldWarmup| !(#[trigger] front.contains(warmup)
            && files.contains(warmup)) by {
            lemma_in_segments(field, cardinality, num_segments, last, warmup);
        }
        crate::lists::lemma_distinct_concat(front, files);
    }
}

/// How many files the fast fields have in one segment.
pub open spec fn files_per_segment(fields: Seq<(u32, Cardinality)>) -> nat
    decreases fields.len(),
{
    if fields.len() == 0 {
        0
    } else {
        files_per_segment(fields.drop_last()) + match fields.last().1 {
            Cardinality::SingleValue => 1nat,
            Cardinality::MultiValues => 2nat,
        }
    }
}

/// In each segment there is one file for each fast field, and a second for each that is
/// multivalued.
pub proof fn fast_field_plan_length(fields: Seq<(u32, Cardinality)>, num_segments: usize)
    ensures
        fast_field_plan(fields, num_segments as nat).len() == files_per_segment(fields)
            * num_segments,
    decreases fields.len(),
{
    if fields.len() > 0 {
        let front = files_per_segment(fields.drop_last());
        let all = files_per_segment(fields);
        fast_field_plan_length(fields.drop_last(), num_segments);
        lemma_segments_length(fields.last().0, fields.last().1, num_segments as nat);
        assert((front + 1) * num_segments == front * num_segments + num_segments)
            by (nonlinear_arith);
        assert((front + 2) * num_segments == front * num_segments + 2 * num_segments)
            by (nonlinear_arith);
        match fields.last().1 {
            Cardinality::SingleValue => {
                assert(all == front + 1);
            },
            Cardinality::MultiValues => {
                assert(all == front + 2);
            },
        }
    } else {
        assert(0 * num_segments == 0);
    }
}

proof fn lemma_segments_length(field: u32, cardinality: Cardinality, n: nat)
    ensures
        fast_field_in_segments(field, cardinality, n).len() == match cardinality {
            Cardinality::SingleValue => n,
            Cardinality::MultiValues => 2 * n,
        },
    decreases n,
{
    if n > 0 {
        lemma_segments_length(field, cardinality, (n - 1) as nat);
    }
}

/// Does this error say why the name is not that of a fast field to load: that it is of no field,
/// that its field is not fast, or that the cardinality of its fast field is not known?
pub open spec fn is_no_fast_field(
    fields: Map<Seq<char>, u32>,
    types: Seq<FieldType>,
    name: Seq<char>,
    error: WarmupErrorView,
) -> bool {
    match error {
        WarmupErrorView::FieldNotFound { field_name } => field_name == name
            && !fields.contains_key(name),
        WarmupErrorView::NotFast { field_name } => field_name == name && fields.contains_key(name)
            && !types[fields[name] as int].is_fast(),
        WarmupErrorView::UnknownCardinality { field_name, field_type } => {
            &&& field_name == name
            &&& fields.contains_key(name)
            &&& field_type == types[fields[name] as int]
            &&& field_type.is_fast()
            &&& field_type.fastfield_cardinality() is None
        },
    }
}

/// A fast field has the number that the schema gives to its name, and the cardinality of the fast
/// field of its type; a name that is of none is refused with the reason.
pub proof fn fast_field_is_that_of_the_schema(
    fields: Map<Seq<char>, u32>,
    types: Seq<FieldType>,
    name: Seq<char>,
)
    ensures
        match fast_field_named(fields, types, name) {
            Ok((field, cardinality)) => {
                &&& fields.contains_key(name)
                &&& field == fields[name]
                &&& types[field as int].is_fast()
                &&& types[field as int].fastfield_cardinality() == Some(cardinality)
            },
            Err(error) => is_no_fast_field(fields, types, name, error),
        },
        fast_field_named(fields, types, name) is Ok <==> {
            &&& fields.contains_key(name)
            &&& types[fields[name] as int].is_fast()
            &&& types[fields[name] as int].fastfield_cardinality() is Some
        },
        fast_field_named(fields, types, name) == Err::<(u32, Cardinality), WarmupErrorView>(
            WarmupErrorView::FieldNotFound { field_name: name },
        ) <==> !fields.contains_key(name),
        fast_field_named(fields, types, name) == Err::<(u32, Cardinality), WarmupErrorView>(
            WarmupErrorView::NotFast { field_name: name },
        ) <==> fields.contains_key(name) && !types[fields[name] as int].is_fast(),
{
}

/// The first name that is of no fast field refuses the names. Otherwise the plan holds, for each
/// name and segment, the first file of its fast field, and the second exactly where the schema
/// makes the fast field multivalued; and nothing else.
pub proof fn every_name_gets_its_files(
    fields: Map<Seq<char>, u32>,
    types: Seq<FieldType>,
    names: Seq<Seq<char>>,
    num_segments: usize,
) -> (refused: int)
    ensures
        match fast_fields_named(fields, types, names) {
            Ok(found) => {
                let plan = fast_field_plan(found, num_segments as nat);
                &&& forall|k: int|
                    0 <= k < names.len() ==> fields.contains_key(#[trigger] names[k])
                        && types[fields[names[k]] as int].is_fast()
                        && types[fields[names[k]] as int].fastfield_cardinality() is Some
                &&& forall|k: int, segment: usize, index: usize|
                    #![trigger names[k], plan.contains(
                        FastFieldWarmup { field: fields[names[k]], segment, index },
                    )]
                    0 <= k < names.len() && segment < num_segments ==> (plan.contains(
                        FastFieldWarmup { field: fields[names[k]], segment, index },
                    ) <==> index == 0 || index == 1
                        && types[fields[names[k]] as int].fastfield_cardinality() == Some(
                        Cardinality::MultiValues,
                    ))
                &&& forall|i: int|
                    0 <= i < plan.len() ==> (#[trigger] plan[i]).segment < num_segments && exists|
                        k: int,
                    | 0 <= k < names.len() && plan[i].field == fields[#[trigger] names[k]]
            },
            Err(error) => {
                &&& 0 <= refused < names.len()
                &&& is_no_fast_field(fields, types, names[refused], error)
                &&& !(fields.contains_key(names[refused])
                    && types[fields[names[refused]] as int].is_fast()
                    && types[fields[names[refused]] as int].fastfield_cardinality() is Some)
                &&& forall|k: int|
                    0 <= k < refused ==> fields.contains_key(#[trigger] names[k])
                        && types[fields[names[k]] as int].fastfield_cardinality() is Some
            },
        },
{
    let refused = lemma_fast_fields_are_found(fields, types, names);
    if fast_fields_named(fields, types, names) is Ok {
        let found = fast_fields_named(fields, types, names)->Ok_0;
        let plan = fast_field_plan(found, num_segments as nat);
        assert forall|k: int, segment: usize, index: usize|
            #![trigger names[k], plan.contains(
                FastFieldWarmup { field: fields[names[k]], segment, index },
            )]
            0 <= k < names.len() && segment < num_segments implies (plan.contains(
            FastFieldWarmup { field: fields[names[k]], segment, index },
        ) <==> index == 0 || index == 1
            && types[fields[names[k]] as int].fastfield_cardinality() == Some(
            Cardinality::MultiValues,
        )) by {
            let warmup = FastFieldWarmup { field: fields[names[k]], segment, index };
            fast_field_plan_is_complete(found, num_segments, warmup);
            assert(found[k].0 == warmup.field);
            assert(found.contains(found[k]));
            if found.contains((warmup.field, Cardinality::MultiValues)) {
                let j = choose|j: int|
                    0 <= j < found.len() && found[j] == (warmup.field, Cardinality::MultiValues);
                assert(fields[names[j]] == warmup.field);
            }
        }
        assert forall|i: int| 0 <= i < plan.len() implies (#[trigger] plan[i]).segment
            < num_segments && exists|k: int|
            0 <= k < names.len() && plan[i].field == fields[#[trigger] names[k]] by {
            let field = plan[i].field;
            fast_field_plan_is_complete(found, num_segments, plan[i]);
            assert(plan.contains(plan[i]));
            let cardinality = if found.contains((field, Cardinality::SingleValue)) {
                Cardinality::SingleValue
            } else {
                Cardinality::MultiValues
            };
            let k = choose|k: int| 0 <= k < found.len() && found[k] == (field, cardinality);
            assert(fields[names[k]] == field);
        }
    }
    refused
}

proof fn lemma_fast_fields_are_found(
    fields: Map<Seq<char>, u32>,
    types: Seq<FieldType>,
    names: Seq<Seq<char>>,
) -> (refused: int)
    ensures
        match fast_fields_named(fields, types, names) {
            Ok(found) => found.len() == names.len() && forall|k: int|
                0 <= k < names.len() ==> {
                    &&& fields.contains_key(#[trigger] names[k])
                    &&& fields[names[k]] == found[k].0
                    &&& types[fields[names[k]] as int].is_fast()
                    &&& types[fields[names[k]] as int].fastfield_cardinality() == Some(found[k].1)
                },
            Err(error) => {
                &&& 0 <= refused < names.len()
                &&& is_no_fast_field(fields, types, names[refused], error)
                &&& !(fields.contains_key(names[refused])
                    && types[fields[names[refused]] as int].is_fast()
                    && types[fields[names[refused]] as int].fastfield_cardinality() is Some)
                &&& forall|k: int|
                    0 <= k < refused ==> fields.contains_key(#[trigger] names[k])
                        && types[fields[names[k]] as int].fastfield_cardinality() is Some
            },
        },
    decreases names.len(),
{
    if names.len() == 0 {
        0
    } else {
        let front = names.drop_last();
        let refused = lemma_fast_fields_are_found(fields, types, front);
        fast_field_is_that_of_the_schema(fields, types, names.last());
        assert forall|k: int| 0 <= k < front.len() implies #[trigger] names[k] == front[k] by {}
        if fast_fields_named(fields, types, front) is Err {
            refused
        } else {
            names.len() - 1
        }
    }
}

// ---------------------------------------------------------------------------------------------
// Terms
// ---------------------------------------------------------------------------------------------

/// A term of the query: its field, its place in the sorted list of the terms of the query, and
/// whether its positions are needed.
#[derive(Clone, Copy, Debug, PartialEq, Eq, Structural)]
pub struct QueryTerm {
    pub field: u32,
    pub term: usize,
    pub position_needed: bool,
}

/// Does the term come in the list?
pub open spec fn has_term(terms: Seq<QueryTerm>, field: u32, term: usize) -> bool {
    exists|i: int|
        0 <= i < terms.len() && (#[trigger] terms[i]).field == field && terms[i].term == term
}

/// Does the term come in the list with its positions needed?
pub open spec fn needs_position(terms: Seq<QueryTerm>, field: u32, term: usize) -> bool {
    exists|i: int|
        0 <= i < terms.len() && (#[trigger] terms[i]).field == field && terms[i].term == term
            && terms[i].position_needed
}

/// Is `a` before `b`, by its field first?
pub open spec fn is_before(a: QueryTerm, b: QueryTerm) -> bool {
    a.field < b.field || a.field == b.field && a.term < b.term
}

/// Are the terms in order, each once?
pub open spec fn are_in_order(terms: Seq<QueryTerm>) -> bool {
    forall|i: int, j: int|
        0 <= i < j < terms.len() ==> is_before(#[trigger] terms[i], #[trigger] terms[j])
}

/// Does `merged` hold the terms of `visits` in order and each once, with its positions needed
/// exactly where some visit needs them?
pub open spec fn is_merged(visits: Seq<QueryTerm>, merged: Seq<QueryTerm>) -> bool {
    &&& are_in_order(merged)
    &&& forall|field: u32, term: usize| #[trigger]
        has_term(merged, field, term) <==> has_term(visits, field, term)
    &&& forall|field: u32, term: usize| #[trigger]
        needs_position(merged, field, term) <==> needs_position(visits, field, term)
}

/// Adds one visit to terms that are merged already.
fn add_visit(merged: &mut Vec<QueryTerm>, visit: QueryTerm)
    requires
        are_in_order(old(merged)@),
    ensures
        is_merged(old(merged)@.push(visit), final(merged)@),
{
    let ghost before = merged@;
    let mut k: usize = 0;
    while k < merged.len() && (merged[k].field < visit.field || merged[k].field == visit.field
        && merged[k].term < visit.term)
        invariant
            k <= merged.len(),
            merged@ == before,
            forall|i: int| 0 <= i < k ==> is_before(#[trigger] before[i], visit),
        decreases merged.len() - k,
    {
        k = k + 1;
    }
    if k < merged.len() && merged[k].field == visit.field && merged[k].term == visit.term {
        let position_needed = merged[k].position_needed || visit.position_needed;
        merged.set(k, QueryTerm { field: visit.field, term: visit.term, position_needed });
        proof {
            lemma_visit_joins(before, visit, k as int);
        }
    } else {
        merged.insert(k, visit);
        proof {
            lemma_visit_is_new(before, visit, k as int);
        }
    }
}

/// A visit of a term that has come before adds its need of positions to it.
proof fn lemma_visit_joins(before: Seq<QueryTerm>, visit: QueryTerm, k: int)
    requires
        are_in_order(before),
        0 <= k < before.len(),
        before[k].field == visit.field,
        before[k].term == visit.term,
    ensures
        is_merged(
            before.push(visit),
            before.update(
                k,
                QueryTerm {
                    position_needed: before[k].position_needed || visit.position_needed,
                    ..visit
                },
            ),
        ),
{
    let all = before.push(visit);
    let merged = before.update(
        k,
        QueryTerm {
            position_needed: before[k].position_needed || visit.position_needed,
            ..visit
        },
    );
    assert(all[k] == before[k] && all.last() == visit && merged[k].field == visit.field);
    assert forall|field: u32, term: usize| #[trigger]
        has_term(merged, field, term) <==> has_term(all, field, term) by {
        if has_term(merged, field, term) {
            let i = choose|i: int|
                0 <= i < merged.len() && (#[trigger] merged[i]).field == field && merged[i].term
                    == term;
            assert(all[i].field == field && all[i].term == term);
        }
        if has_term(all, field, term) {
            let i = choose|i: int|
                0 <= i < all.len() && (#[trigger] all[i]).field == field && all[i].term == term;
            let j = if i < before.len() {
                i
            } else {
                k
            };
            assert(merged[j].field == field && merged[j].term == term);
        }
    }
    assert forall|field: u32, term: usize| #[trigger]
        needs_position(merged, field, term) <==> needs_position(all, field, term) by {
        if needs_position(merged, field, term) {
            let i = choose|i: int|
                0 <= i < merged.len() && (#[trigger] merged[i]).field == field && merged[i].term
                    == term && merged[i].position_needed;
            let j = if i == k && !before[k].position_needed {
                before.len() as int
            } else {
                i
            };
            assert(all[j].field == field && all[j].term == term && all[j].position_needed);
        }
        if needs_position(all, field, term) {
            let i = choose|i: int|
                0 <= i < all.len() && (#[trigger] all[i]).field == field && all[i].term == term
                    && all[i].position_needed;
            let j = if i < before.len() {
                i
            } else {
                k
            };
            assert(merged[j].field == field && merged[j].term == term
                && merged[j].position_needed);
        }
    }
}

/// A visit of a term that has not come before stands between those before it and those behind.
proof fn lemma_visit_is_new(before: Seq<QueryTerm>, visit: QueryTerm, k: int)
    requires
        are_in_order(before),
        0 <= k <= before.len(),
        forall|i: int| 0 <= i < k ==> is_before(#[trigger] before[i], visit),
        k < before.len() ==> is_before(visit, before[k]),
    ensures
        is_merged(before.push(visit), before.insert(k, visit)),
{
    let all = before.push(visit);
    let merged = before.insert(k, visit);
    assert forall|i: int, j: int| 0 <= i < j < merged.len() implies is_before(
        #[trigger] merged[i],
        #[trigger] merged[j],
    ) by {
        if j > k {
            assert(merged[j] == before[j - 1]);
            if i < k {
                assert(merged[i] == before[i]);
            } else if i > k {
                assert(merged[i] == before[i - 1]);
            } else {
                assert(k == j - 1 || is_before(before[k], before[j - 1]));
            }
        } else {
            assert(merged[i] == before[i]);
        }
    }
    assert forall|field: u32, term: usize| #[trigger]
        has_term(merged, field, term) <==> has_term(all, field, term) by {
        if has_term(merged, field, term) {
            let i = choose|i: int|
                0 <= i < merged.len() && (#[trigger] merged[i]).field == field && merged[i].term
                    == term;
            assert(all[old_place(i, k, before.len())] == merged[i]);
        }
        if has_term(all, field, term) {
            let i = choose|i: int|
                0 <= i < all.len() && (#[trigger] all[i]).field == field && all[i].term == term;
            assert(merged[new_place(i, k, before.len())] == all[i]);
        }
    }
    assert forall|field: u32, term: usize| #[trigger]
        needs_position(merged, field, term) <==> needs_position(all, field, term) by {
        if needs_position(merged, field, term) {
            let i = choose|i: int|
                0 <= i < merged.len() && (#[trigger] merged[i]).field == field && merged[i].term
                    == term && merged[i].position_needed;
            assert(all[old_place(i, k, before.len())] == merged[i]);
        }
        if needs_position(all, field, term) {
            let i = choose|i: int|
                0 <= i < all.len() && (#[trigger] all[i]).field == field && all[i].term == term
                    && all[i].position_needed;
            assert(merged[new_place(i, k, before.len())] == all[i]);
        }
    }
}

/// Where the element at `i` of a list into which its last element was moved to `k` came from.
spec fn old_place(i: int, k: int, last: nat) -> int {
    if i < k {
        i
    } else if i == k {
        last as int
    } else {
        i - 1
    }
}

/// Where the element at `i` of a list goes when its last element is moved to `k`.
spec fn new_place(i: int, k: int, last: nat) -> int {
    if i < k {
        i
    } else if i == last {
        k
    } else {
        i + 1
    }
}

/// Merges the visits of the terms of a query, which may visit a term more than once: the positions
/// of a term are needed where one of its visits needs them.
pub fn merge_visits(visits: Vec<QueryTerm>) -> (merged: Vec<QueryTerm>)
    ensures
        is_merged(visits@, merged@),
        forall|i: int, j: int|
            0 <= i < j < merged@.len() ==> (#[trigger] merged@[i]).field < (
            #[trigger] merged@[j]).field || merged@[i].field == merged@[j].field && merged@[i].term
                < merged@[j].term,
{
    let mut merged: Vec<QueryTerm> = Vec::new();
    let mut i: usize = 0;
    while i < visits.len()
        invariant
            i <= visits.len(),
            is_merged(visits@.take(i as int), merged@),
        decreases visits.len() - i,
    {
        let ghost before = merged@;
        add_visit(&mut merged, visits[i]);
        proof {
            assert(visits@.take(i + 1) =~= visits@.take(i as int).push(visits@[i as int]));
            lemma_merge_goes_on(visits@.take(i as int), before, merged@, visits@[i as int]);
        }
        i = i + 1;
    }
    proof {
        assert(visits@.take(i as int) =~= visits@);
        merging_loses_no_visit(visits@, merged@);
    }
    merged
}

/// Merged terms are in order, by field and then by term, and none comes twice. Every visit is of
/// one of them (`to`), which needs its positions where the visit does; and every one of them comes
/// of a visit (`from`), and needs its positions only where that visit does.
pub proof fn merging_loses_no_visit(visits: Seq<QueryTerm>, merged: Seq<QueryTerm>) -> (places: (
    Seq<int>,
    Seq<int>,
))
    requires
        is_merged(visits, merged),
    ensures
        forall|i: int, j: int|
            0 <= i < j < merged.len() ==> (#[trigger] merged[i]).field < (
            #[trigger] merged[j]).field || merged[i].field == merged[j].field && merged[i].term
                < merged[j].term,
        ({
            let (to, from) = places;
            &&& to.len() == visits.len()
            &&& forall|i: int|
                0 <= i < visits.len() ==> 0 <= #[trigger] to[i] < merged.len()
                    && merged[to[i]].field == visits[i].field && merged[to[i]].term
                    == visits[i].term && (visits[i].position_needed
                    ==> merged[to[i]].position_needed)
            &&& from.len() == merged.len()
            &&& forall|j: int|
                0 <= j < merged.len() ==> 0 <= #[trigger] from[j] < visits.len()
                    && visits[from[j]].field == merged[j].field && visits[from[j]].term
                    == merged[j].term && (merged[j].position_needed
                    ==> visits[from[j]].position_needed)
        }),
{
    assert forall|i: int, j: int| 0 <= i < j < merged.len() implies (#[trigger] merged[i]).field < (
    #[trigger] merged[j]).field || merged[i].field == merged[j].field && merged[i].term
        < merged[j].term by {
        assert(is_before(merged[i], merged[j]));
    }
    assert forall|i: int| 0 <= i < visits.len() implies 0 <= #[trigger] place_of(
        merged,
        visits[i],
    ) < merged.len() && merged[place_of(merged, visits[i])].field == visits[i].field
        && merged[place_of(merged, visits[i])].term == visits[i].term && (visits[i].position_needed
        ==> merged[place_of(merged, visits[i])].position_needed) by {
        let visit = visits[i];
        assert(has_term(visits, visit.field, visit.term));
        assert(has_term(merged, visit.field, visit.term));
        if visit.position_needed {
            assert(needs_position(visits, visit.field, visit.term));
            assert(needs_position(merged, visit.field, visit.term));
        }
    }
    assert forall|j: int| 0 <= j < merged.len() implies 0 <= #[trigger] place_of(
        visits,
        merged[j],
    ) < visits.len() && visits[place_of(visits, merged[j])].field == merged[j].field
        && visits[place_of(visits, merged[j])].term == merged[j].term && (merged[j].position_needed
        ==> visits[place_of(visits, merged[j])].position_needed) by {
        let term = merged[j];
        assert(has_term(merged, term.field, term.term));
        assert(has_term(visits, term.field, term.term));
        if term.position_needed {
            assert(needs_position(merged, term.field, term.term));
            assert(needs_position(visits, term.field, term.term));
        }
    }
    let to = Seq::new(visits.len(), |i: int| place_of(merged, visits[i]));
    let from = Seq::new(merged.len(), |j: int| place_of(visits, merged[j]));
    (to, from)
}

/// A place at which the term comes in the list, with its positions needed if this one needs them.
spec fn place_of(terms: Seq<QueryTerm>, term: QueryTerm) -> int {
    choose|i: int|
        0 <= i < terms.len() && (#[trigger] terms[i]).field == term.field && terms[i].term
            == term.term && (term.position_needed ==> terms[i].position_needed)
}

/// Merging one more visit into what some visits come to is merging all of them.
proof fn lemma_merge_goes_on(
    visits: Seq<QueryTerm>,
    before: Seq<QueryTerm>,
    after: Seq<QueryTerm>,
    visit: QueryTerm,
)
    requires
        is_merged(visits, before),
        is_merged(before.push(visit), after),
    ensures
        is_merged(visits.push(visit), after),
{
    assert forall|field: u32, term: usize| #[trigger]
        has_term(after, field, term) <==> has_term(visits.push(visit), field, term) by {
        lemma_has_term_push(before, visit, field, term);
        lemma_has_term_push(visits, visit, field, term);
        assert(has_term(before, field, term) <==> has_term(visits, field, term));
    }
    assert forall|field: u32, term: usize| #[trigger]
        needs_position(after, field, term) <==> needs_position(
            visits.push(visit),
            field,
            term,
        ) by {
        lemma_has_term_push(before, visit, field, term);
        lemma_has_term_push(visits, visit, field, term);
        assert(needs_position(before, field, term) <==> needs_position(visits, field, term));
    }
}

proof fn lemma_has_term_push(terms: Seq<QueryTerm>, last: QueryTerm, field: u32, term: usize)
    ensures
        has_term(terms.push(last), field, term) <==> has_term(terms, field, term) || (last.field
            == field && last.term == term),
        needs_position(terms.push(last), field, term) <==> needs_position(terms, field, term) || (
        last.field == field && last.term == term && last.position_needed),
{
    let all = terms.push(last);
    assert(all.last() == last);
    assert forall|i: int| 0 <= i < terms.len() implies #[trigger] terms[i] == all[i] by {}
    if has_term(all, field, term) {
        let i = choose|i: int|
            0 <= i < all.len() && (#[trigger] all[i]).field == field && all[i].term == term;
        assert(i < terms.len() ==> terms[i].field == field);
    }
    if needs_position(all, field, term) {
        let i = choose|i: int|
            0 <= i < all.len() && (#[trigger] all[i]).field == field && all[i].term == term
                && all[i].position_needed;
        assert(i < terms.len() ==> terms[i].field == field);
    }
    if has_term(terms, field, term) {
        let i = choose|i: int|
            0 <= i < terms.len() && (#[trigger] terms[i]).field == field && terms[i].term == term;
        assert(all[i].field == field);
    }
    if needs_position(terms, field, term) {
        let i = choose|i: int|
            0 <= i < terms.len() && (#[trigger] terms[i]).field == field && terms[i].term == term
                && terms[i].position_needed;
        assert(all[i].field == field);
    }
}

/// A merged term needs its positions exactly where some visit of it does.
pub proof fn merged_term_needs_what_a_visit_needs(
    visits: Seq<QueryTerm>,
    merged: Seq<QueryTerm>,
    i: int,
)
    requires
        is_merged(visits, merged),
        0 <= i < merged.len(),
    ensures
        merged[i].position_needed == needs_position(visits, merged[i].field, merged[i].term),
{
    let term = merged[i];
    assert(needs_position(merged, term.field, term.term) <==> needs_position(
        visits,
        term.field,
        term.term,
    ));
    if needs_position(merged, term.field, term.term) {
        let j = choose|j: int|
            0 <= j < merged.len() && (#[trigger] merged[j]).field == term.field && merged[j].term
                == term.term && merged[j].position_needed;
        assert(i == j) by {
            assert(i < j ==> is_before(merged[i], merged[j]));
            assert(j < i ==> is_before(merged[j], merged[i]));
        }
    }
}

/// What visits come to does not depend on their order, nor on how often one is made.
pub proof fn visits_merge_in_one_way(
    visits: Seq<QueryTerm>,
    others: Seq<QueryTerm>,
    merged: Seq<QueryTerm>,
    merged_others: Seq<QueryTerm>,
)
    requires
        is_merged(visits, merged),
        is_merged(others, merged_others),
        forall|visit: QueryTerm| #[trigger] visits.contains(visit) <==> others.contains(visit),
    ensures
        merged == merged_others,
{
    assert forall|field: u32, term: usize|
        has_term(visits, field, term) == has_term(others, field, term) && needs_position(
            visits,
            field,
            term,
        ) == needs_position(others, field, term) by {
        lemma_same_visits_have_term(visits, others, field, term);
        lemma_same_visits_have_term(others, visits, field, term);
    }
    assert forall|field: u32, term: usize| #[trigger]
        has_term(merged, field, term) == has_term(merged_others, field, term) by {
        assert(has_term(visits, field, term) == has_term(others, field, term));
    }
    assert forall|field: u32, term: usize| #[trigger]
        needs_position(merged, field, term) == needs_position(merged_others, field, term) by {
        assert(needs_position(visits, field, term) == needs_position(others, field, term));
    }
    lemma_same_terms_in_order(merged, merged_others);
}

proof fn lemma_same_visits_have_term(
    visits: Seq<QueryTerm>,
    others: Seq<QueryTerm>,
    field: u32,
    term: usize,
)
    requires
        forall|visit: QueryTerm| #[trigger] visits.contains(visit) ==> others.contains(visit),
    ensures
        has_term(visits, field, term) ==> has_term(others, field, term),
        needs_position(visits, field, term) ==> needs_position(others, field, term),
{
    assert forall|i: int| 0 <= i < visits.len() implies others.contains(#[trigger] visits[i]) by {
        assert(visits.contains(visits[i]));
    }
}

/// Two lists in order that hold the same terms with the same needs are the same.
proof fn lemma_same_terms_in_order(a: Seq<QueryTerm>, b: Seq<QueryTerm>)
    requires
        are_in_order(a),
        are_in_order(b),
        forall|field: u32, term: usize| #[trigger]
            has_term(a, field, term) == has_term(b, field, term),
        forall|field: u32, term: usize| #[trigger]
            needs_position(a, field, term) == needs_position(b, field, term),
    ensures
        a == b,
    decreases a.len(),
{
    if a.len() == 0 {
        if b.len() > 0 {
            assert(has_term(b, b[0].field, b[0].term));
            assert(has_term(a, b[0].field, b[0].term));
        }
        assert(a =~= b);
    } else {
        let x = a.last();
        assert(has_term(a, x.field, x.term)) by {
            assert(a[a.len() - 1] == x);
        }
        assert(has_term(b, x.field, x.term));
        let y = b.last();
        assert(has_term(b, y.field, y.term)) by {
            assert(b[b.len() - 1] == y);
        }
        assert(has_term(a, y.field, y.term));
        assert(x.field == y.field && x.term == y.term);
        lemma_last_in_order(a, x.field, x.term);
        lemma_last_in_order(b, x.field, x.term);
        assert(x == y);
        let front = a.drop_last();
        let other = b.drop_last();
        assert forall|field: u32, term: usize| #[trigger]
            has_term(front, field, term) == has_term(other, field, term) by {
            lemma_last_in_order(a, field, term);
            lemma_last_in_order(b, field, term);
            assert(has_term(a, field, term) == has_term(b, field, term));
        }
        assert forall|field: u32, term: usize| #[trigger]
            needs_position(front, field, term) == needs_position(other, field, term) by {
            lemma_last_in_order(a, field, term);
            lemma_last_in_order(b, field, term);
            assert(needs_position(a, field, term) == needs_position(b, field, term));
        }
        lemma_same_terms_in_order(front, other);
        assert(a =~= front.push(x));
        assert(b =~= other.push(y));
    }
}

/// The last of the terms in order comes nowhere before.
proof fn lemma_last_in_order(terms: Seq<QueryTerm>, field: u32, term: usize)
    requires
        are_in_order(terms),
        terms.len() > 0,
    ensures
        ({
            let last = terms.last();
            let is_last = last.field == field && last.term == term;
            &&& is_last ==> !has_term(terms.drop_last(), field, term) && !needs_position(
                terms.drop_last(),
                field,
                term,
            ) && needs_position(terms, field, term) == last.position_needed
            &&& !is_last ==> has_term(terms, field, term) == has_term(
                terms.drop_last(),
                field,
                term,
            ) && needs_position(terms, field, term) == needs_position(
                terms.drop_last(),
                field,
                term,
            )
        }),
{
    let front = terms.drop_last();
    assert(terms =~= front.push(terms.last()));
    lemma_has_term_push(front, terms.last(), field, term);
    assert forall|i: int| 0 <= i < front.len() implies is_before(
        #[trigger] front[i],
        terms.last(),
    ) by {
        assert(is_before(terms[i], terms[terms.len() - 1]));
    }
}


/// Terms of one field.
#[derive(Debug, PartialEq)]
pub struct TermGroup {
    pub field: u32,
    pub terms: Vec<QueryTerm>,
}

/// The posting lists to load out of the inverted index of one field in one segment.
#[derive(Debug, PartialEq)]
pub struct PostingsWarmup {
    pub field: u32,
    pub segment: usize,
    pub terms: Vec<QueryTerm>,
}

/// What a [`PostingsWarmup`] is.
pub struct PostingsWarmupView {
    pub field: u32,
    pub segment: usize,
    pub terms: Seq<QueryTerm>,
}

impl View for TermGroup {
    type V = (u32, Seq<QueryTerm>);

    open spec fn view(&self) -> (u32, Seq<QueryTerm>) {
        (self.field, self.terms@)
    }
}

impl View for PostingsWarmup {
    type V = PostingsWarmupView;

    open spec fn view(&self) -> PostingsWarmupView {
        PostingsWarmupView { field: self.field, segment: self.segment, terms: self.terms@ }
    }
}

/// What the groups of a list are.
pub open spec fn group_views(groups: Seq<TermGroup>) -> Seq<(u32, Seq<QueryTerm>)> {
    groups.map_values(|group: TermGroup| group@)
}

/// What the parts of a plan are.
pub open spec fn postings_views(plan: Seq<PostingsWarmup>) -> Seq<PostingsWarmupView> {
    plan.map_values(|warmup: PostingsWarmup| warmup@)
}

/// The runs of neighbours that share their field: a term joins the run before it, or starts one.
pub open spec fn runs_by_field(terms: Seq<QueryTerm>) -> Seq<(u32, Seq<QueryTerm>)>
    decreases terms.len(),
{
    if terms.len() == 0 {
        Seq::empty()
    } else {
        let runs = runs_by_field(terms.drop_last());
        let term = terms.last();
        if runs.len() > 0 && runs.last().0 == term.field {
            runs.drop_last().push((term.field, runs.last().1.push(term)))
        } else {
            runs.push((term.field, seq![term]))
        }
    }
}

/// The posting lists of a run in the first `num_segments` segments.
pub open spec fn postings_of_run(run: (u32, Seq<QueryTerm>), num_segments: nat) -> Seq<
    PostingsWarmupView,
> {
    Seq::new(
        num_segments,
        |segment: int|
            PostingsWarmupView { field: run.0, segment: segment as usize, terms: run.1 },
    )
}

/// The posting lists of all runs in all segments, run by run.
pub open spec fn postings_plan(runs: Seq<(u32, Seq<QueryTerm>)>, num_segments: nat) -> Seq<
    PostingsWarmupView,
>
    decreases runs.len(),
{
    if runs.len() == 0 {
        Seq::empty()
    } else {
        postings_plan(runs.drop_last(), num_segments) + postings_of_run(runs.last(), num_segments)
    }
}

/// Calls `itertools::Itertools::group_by` with the field as the key, and collects its groups:
/// they are the runs of neighbours that share their field, in their order.
#[verifier::external_body]
fn group_by_field(terms: Vec<QueryTerm>) -> (groups: Vec<TermGroup>)
    ensures
        group_views(groups@) == runs_by_field(terms@),
{
    let groups = terms.into_iter().group_by(|term| term.field);
    let groups = groups.into_iter().map(|(field, terms)| TermGroup {
        field,
        terms: terms.collect(),
    });
    groups.collect()
}

fn copy_terms(terms: &Vec<QueryTerm>) -> (copy: Vec<QueryTerm>)
    ensures
        copy@ == terms@,
{
    let mut copy: Vec<QueryTerm> = Vec::new();
    let mut i: usize = 0;
    while i < terms.len()
        invariant
            i <= terms.len(),
            copy@ == terms@.take(i as int),
        decreases terms.len() - i,
    {
        copy.push(terms[i]);
        i = i + 1;
    }
    assert(terms@.take(i as int) =~= terms@);
    copy
}

/// Lists the posting lists to load for the terms of a query: field by field, in the order of the
/// terms, and for each field segment by segment.
pub fn warm_up_terms(terms: Vec<QueryTerm>, num_segments: usize) -> (plan: Vec<PostingsWarmup>)
    ensures
        postings_views(plan@) == postings_plan(runs_by_field(terms@), num_segments as nat),
        forall|i: int| 0 <= i < plan@.len() ==> (#[trigger] plan@[i]).segment < num_segments,
        forall|i: int, j: int|
            0 <= i < plan@.len() && 0 <= j < plan@[i].terms@.len() ==> (
            #[trigger] plan@[i].terms@[j]).field == plan@[i].field,
        forall|i: int, j: int|
            0 <= i < plan@.len() && 0 <= j < plan@[i].terms@.len() ==> terms@.contains(
                #[trigger] plan@[i].terms@[j],
            ),
        forall|k: int, segment: usize|
            #![trigger terms@[k], opens(plan@, terms@[k].field, segment, terms@[k])]
            0 <= k < terms@.len() && segment < num_segments ==> opens(
                plan@,
                terms@[k].field,
                segment,
                terms@[k],
            ),
{
    let ghost all = terms@;
    let ghost runs = runs_by_field(terms@);
    let groups = group_by_field(terms);
    let mut plan: Vec<PostingsWarmup> = Vec::new();
    let mut i: usize = 0;
    assert(runs.take(0) =~= Seq::<(u32, Seq<QueryTerm>)>::empty());
    assert(postings_views(plan@) =~= Seq::<PostingsWarmupView>::empty());
    while i < groups.len()
        invariant
            i <= groups.len(),
            group_views(groups@) == runs,
            postings_views(plan@) == postings_plan(runs.take(i as int), num_segments as nat),
        decreases groups.len() - i,
    {
        let ghost before = postings_views(plan@);
        let ghost run = runs[i as int];
        let field: u32 = groups[i].field;
        let mut segment: usize = 0;
        assert(run == groups@[i as int]@);
        assert(before + postings_of_run(run, 0) =~= before);
        while segment < num_segments
            invariant
                segment <= num_segments,
                i < groups.len(),
                run == groups@[i as int]@,
                field == run.0,
                postings_views(plan@) == before + postings_of_run(run, segment as nat),
            decreases num_segments - segment,
        {
            let ghost so_far = postings_views(plan@);
            let warmup = PostingsWarmup { field, segment, terms: copy_terms(&groups[i].terms) };
            plan.push(warmup);
            proof {
                assert(postings_views(plan@) =~= so_far.push(warmup@));
                assert(postings_of_run(run, (segment + 1) as nat) =~= postings_of_run(
                    run,
                    segment as nat,
                ).push(warmup@));
                assert(postings_views(plan@) =~= before + postings_of_run(
                    run,
                    (segment + 1) as nat,
                ));
            }
            segment = segment + 1;
        }
        proof {
            assert(runs.take(i + 1).drop_last() =~= runs.take(i as int));
            assert(runs.take(i + 1).last() == run);
        }
        i = i + 1;
    }
    proof {
        assert(runs.take(i as int) =~= runs);
        lemma_plan_serves_terms(all, num_segments, plan@);
    }
    plan
}

/// Does the plan load the posting list of the term out of the inverted index of this field in this
/// segment?
pub open spec fn opens(
    plan: Seq<PostingsWarmup>,
    field: u32,
    segment: usize,
    term: QueryTerm,
) -> bool {
    exists|i: int|
        0 <= i < plan.len() && (#[trigger] plan[i]).field == field && plan[i].segment == segment
            && plan[i].terms@.contains(term)
}

proof fn lemma_plan_serves_terms(
    terms: Seq<QueryTerm>,
    num_segments: usize,
    plan: Seq<PostingsWarmup>,
)
    requires
        postings_views(plan) == postings_plan(runs_by_field(terms), num_segments as nat),
    ensures
        forall|i: int| 0 <= i < plan.len() ==> (#[trigger] plan[i]).segment < num_segments,
        forall|i: int, j: int|
            0 <= i < plan.len() && 0 <= j < plan[i].terms@.len() ==> (
            #[trigger] plan[i].terms@[j]).field == plan[i].field,
        forall|i: int, j: int|
            0 <= i < plan.len() && 0 <= j < plan[i].terms@.len() ==> terms.contains(
                #[trigger] plan[i].terms@[j],
            ),
        forall|k: int, segment: usize|
            #![trigger terms[k], opens(plan, terms[k].field, segment, terms[k])]
            0 <= k < terms.len() && segment < num_segments ==> opens(
                plan,
                terms[k].field,
                segment,
                terms[k],
            ),
{
    let views = postings_views(plan);
    let (starts, of) = postings_are_cut_out_of_the_terms(terms, num_segments);
    let n = num_segments as int;
    assert(views.len() == plan.len());
    assert forall|i: int| 0 <= i < plan.len() implies (#[trigger] plan[i]).segment
        < num_segments by {
        assert(views[i] == plan[i]@);
    }
    assert forall|i: int, j: int| 0 <= i < plan.len() && 0 <= j < plan[i].terms@.len() implies (
    #[trigger] plan[i].terms@[j]).field == plan[i].field by {
        assert(views[i] == plan[i]@);
        assert(views[i].terms[j].field == views[i].field);
    }
    assert forall|i: int, j: int|
        0 <= i < plan.len() && 0 <= j < plan[i].terms@.len() implies terms.contains(
        #[trigger] plan[i].terms@[j],
    ) by {
        assert(views[i] == plan[i]@);
        let r = of[i];
        assert(starts[0] <= starts[r] && starts[r + 1] <= starts[starts.len() - 1]);
        assert(starts[r] < starts[r + 1]);
        assert(plan[i].terms@[j] == terms[starts[r] + j]);
    }
    assert forall|k: int, segment: usize|
        #![trigger terms[k], opens(plan, terms[k].field, segment, terms[k])]
        0 <= k < terms.len() && segment < num_segments implies opens(
        plan,
        terms[k].field,
        segment,
        terms[k],
    ) by {
        let r = lemma_start_before(starts, k);
        let i = r * n + segment;
        assert(0 <= i < (starts.len() - 1) * n) by (nonlinear_arith)
            requires
                0 <= r < starts.len() - 1,
                0 <= segment < n,
                i == r * n + segment,
        ;
        assert(views[i] == plan[i]@);
        assert(of[i] * num_segments + views[i].segment == i);
        vstd::arithmetic::div_mod::lemma_fundamental_div_mod_converse(i, n, r, segment as int);
        vstd::arithmetic::div_mod::lemma_fundamental_div_mod_converse(
            i,
            n,
            of[i],
            views[i].segment as int,
        );
        assert(starts[0] <= starts[r] && starts[r + 1] <= starts[starts.len() - 1]);
        assert(views[i].terms[k - starts[r]] == terms[k]);
        assert(plan[i].terms@[k - starts[r]] == terms[k]);
    }
}

/// The last start at or before a place.
proof fn lemma_start_before(starts: Seq<int>, k: int) -> (r: int)
    requires
        starts.len() > 1,
        starts[0] <= k < starts.last(),
    ensures
        0 <= r < starts.len() - 1,
        starts[r] <= k < starts[r + 1],
    decreases starts.len(),
{
    let front = starts.drop_last();
    if front.last() <= k {
        starts.len() - 2
    } else {
        lemma_start_before(front, k)
    }
}

/// What a plan loads at once is cut out of the terms: they are cut at `starts`, between two
/// neighbours of different fields, and of each cut there is one entry for each segment, which
/// opens the inverted index of the field of all of its terms. `of` says of which cut an entry is.
pub proof fn postings_are_cut_out_of_the_terms(terms: Seq<QueryTerm>, num_segments: usize) -> (
    cuts: (Seq<int>, Seq<int>))
    ensures
        ({
            let (starts, of) = cuts;
            let plan = postings_plan(runs_by_field(terms), num_segments as nat);
            &&& starts.len() > 0
            &&& starts[0] == 0
            &&& starts.last() == terms.len()
            &&& forall|r: int, q: int|
                0 <= r < q < starts.len() ==> #[trigger] starts[r] < #[trigger] starts[q]
            &&& forall|r: int|
                0 < r < starts.len() - 1 ==> terms[#[trigger] starts[r] - 1].field
                    != terms[starts[r]].field
            &&& plan.len() == (starts.len() - 1) * num_segments
            &&& of.len() == plan.len()
            &&& forall|i: int| 0 <= i < of.len() ==> 0 <= #[trigger] of[i] < starts.len() - 1
            &&& forall|i: int|
                0 <= i < of.len() ==> #[trigger] of[i] * num_segments + plan[i].segment == i
            &&& forall|i: int|
                0 <= i < of.len() ==> plan[i].terms == terms.subrange(
                    starts[#[trigger] of[i]],
                    starts[of[i] + 1],
                )
            &&& forall|i: int| 0 <= i < plan.len() ==> (#[trigger] plan[i]).segment < num_segments
            &&& forall|i: int, j: int|
                0 <= i < plan.len() && 0 <= j < plan[i].terms.len() ==> (
                #[trigger] plan[i].terms[j]).field == plan[i].field
        }),
{
    let runs = runs_by_field(terms);
    let starts = lemma_run_starts(terms);
    let plan = postings_plan(runs, num_segments as nat);
    let n = num_segments as int;
    let of = Seq::new(plan.len(), |i: int| i / n);
    lemma_postings_by_run(runs, num_segments);
    runs_lose_nothing(terms);
    assert forall|r: int| 0 < r < starts.len() - 1 implies terms[#[trigger] starts[r] - 1].field
        != terms[starts[r]].field by {
        assert(is_cut(terms, starts[r], starts[r + 1], runs[r]));
        assert(is_cut(terms, starts[r - 1], starts[r - 1 + 1], runs[r - 1]));
        assert(runs[r - 1].0 != runs[r].0);
    }
    assert forall|i: int| 0 <= i < of.len() implies 0 <= #[trigger] of[i] < starts.len() - 1 by {
        assert(is_entry(runs, n, i, plan[i]));
    }
    assert forall|i: int| 0 <= i < of.len() implies #[trigger] of[i] * num_segments
        + plan[i].segment == i by {
        assert(is_entry(runs, n, i, plan[i]));
        vstd::arithmetic::div_mod::lemma_fundamental_div_mod(i, n);
        vstd::arithmetic::mul::lemma_mul_is_commutative(n, i / n);
    }
    assert forall|i: int| 0 <= i < of.len() implies plan[i].terms == terms.subrange(
        starts[#[trigger] of[i]],
        starts[of[i] + 1],
    ) by {
        assert(is_entry(runs, n, i, plan[i]));
        assert(is_cut(terms, starts[of[i]], starts[of[i] + 1], runs[of[i]]));
    }
    assert forall|i: int| 0 <= i < plan.len() implies (#[trigger] plan[i]).segment
        < num_segments by {
        assert(is_entry(runs, n, i, plan[i]));
    }
    assert forall|i: int, j: int| 0 <= i < plan.len() && 0 <= j < plan[i].terms.len() implies (
    #[trigger] plan[i].terms[j]).field == plan[i].field by {
        let r = i / n;
        assert(is_entry(runs, n, i, plan[i]));
        assert(is_cut(terms, starts[r], starts[r + 1], runs[r]));
        assert(plan[i].terms[j] == terms[starts[r] + j]);
    }
    (starts, of)
}

/// Is the run what stands from `a` to `b`, all of one field?
spec fn is_cut(terms: Seq<QueryTerm>, a: int, b: int, run: (u32, Seq<QueryTerm>)) -> bool {
    &&& 0 <= a < b <= terms.len()
    &&& run.1 == terms.subrange(a, b)
    &&& forall|k: int| a <= k < b ==> (#[trigger] terms[k]).field == run.0
}

/// Is this the entry at `i` where each run has `n` entries?
spec fn is_entry(
    runs: Seq<(u32, Seq<QueryTerm>)>,
    n: int,
    i: int,
    entry: PostingsWarmupView,
) -> bool {
    &&& n > 0
    &&& 0 <= i / n < runs.len()
    &&& 0 <= i % n < n
    &&& entry == (PostingsWarmupView {
        field: runs[i / n].0,
        segment: (i % n) as usize,
        terms: runs[i / n].1,
    })
}

proof fn lemma_postings_by_run(runs: Seq<(u32, Seq<QueryTerm>)>, num_segments: usize)
    ensures
        postings_plan(runs, num_segments as nat).len() == runs.len() * num_segments,
        forall|i: int|
            0 <= i < postings_plan(runs, num_segments as nat).len() ==> is_entry(
                runs,
                num_segments as int,
                i,
                #[trigger] postings_plan(runs, num_segments as nat)[i],
            ),
    decreases runs.len(),
{
    let n = num_segments as int;
    if runs.len() > 0 {
        let front = runs.drop_last();
        let before = postings_plan(front, num_segments as nat);
        let plan = postings_plan(runs, num_segments as nat);
        let q = front.len() as int;
        lemma_postings_by_run(front, num_segments);
        assert(runs.len() * num_segments == front.len() * num_segments + num_segments)
            by (nonlinear_arith)
            requires
                runs.len() == front.len() + 1,
        ;
        assert(plan.len() == before.len() + num_segments);
        assert forall|i: int| 0 <= i < plan.len() implies is_entry(
            runs,
            n,
            i,
            #[trigger] plan[i],
        ) by {
            if i < before.len() {
                assert(plan[i] == before[i]);
                assert(is_entry(front, n, i, before[i]));
                assert(front[i / n] == runs[i / n]);
            } else {
                let s = i - before.len();
                vstd::arithmetic::div_mod::lemma_fundamental_div_mod_converse(i, n, q, s);
                assert(plan[i] == postings_of_run(runs.last(), num_segments as nat)[s]);
            }
        }
    } else {
        assert(runs.len() * num_segments == 0) by (nonlinear_arith)
            requires
                runs.len() == 0,
        ;
    }
}

/// Where the runs of the terms start, and where the last one ends.
proof fn lemma_run_starts(terms: Seq<QueryTerm>) -> (starts: Seq<int>)
    ensures
        starts.len() == runs_by_field(terms).len() + 1,
        starts[0] == 0,
        starts.last() == terms.len(),
        forall|r: int, q: int|
            0 <= r < q < starts.len() ==> #[trigger] starts[r] < #[trigger] starts[q],
        forall|r: int|
            0 <= r < starts.len() - 1 ==> is_cut(
                terms,
                #[trigger] starts[r],
                starts[r + 1],
                runs_by_field(terms)[r],
            ),
    decreases terms.len(),
{
    let runs = runs_by_field(terms);
    if terms.len() == 0 {
        seq![0int]
    } else {
        let front = terms.drop_last();
        let n = front.len() as int;
        let before = lemma_run_starts(front);
        let old_runs = runs_by_field(front);
        let joins = old_runs.len() > 0 && old_runs.last().0 == terms.last().field;
        let starts = if joins {
            before.drop_last().push(n + 1)
        } else {
            before.push(n + 1)
        };
        assert forall|r: int, q: int| 0 <= r < q < starts.len() implies #[trigger] starts[r]
            < #[trigger] starts[q] by {
            assert(starts[r] == before[r]);
            if q < starts.len() - 1 {
                assert(starts[q] == before[q]);
            } else {
                assert(r == before.len() - 1 || before[r] < before[before.len() - 1]);
            }
        }
        assert(starts[0] == 0) by {
            if joins {
                assert(before.len() > 1);
            }
            assert(starts[0] == before[0]);
        }
        assert forall|r: int| 0 <= r < starts.len() - 1 implies is_cut(
            terms,
            #[trigger] starts[r],
            starts[r + 1],
            runs[r],
        ) by {
            assert(starts[r] == before[r]);
            if r < old_runs.len() {
                assert(is_cut(front, before[r], before[r + 1], old_runs[r]));
            }
            if r < old_runs.len() && !(joins && r == old_runs.len() - 1) {
                lemma_cut_stays(terms, before[r], before[r + 1], old_runs[r]);
                assert(starts[r + 1] == before[r + 1]);
                assert(runs[r] == old_runs[r]);
            } else if joins {
                assert(before[r + 1] == n);
                lemma_cut_grows(terms, before[r], old_runs[r]);
                assert(runs[r] == (old_runs[r].0, old_runs[r].1.push(terms.last())));
            } else {
                assert(starts[r] == n);
                assert(runs[r] == (terms.last().field, seq![terms.last()]));
                assert(terms.subrange(n, n + 1) =~= seq![terms.last()]);
            }
        }
        starts
    }
}

proof fn lemma_cut_stays(terms: Seq<QueryTerm>, a: int, b: int, run: (u32, Seq<QueryTerm>))
    requires
        terms.len() > 0,
        is_cut(terms.drop_last(), a, b, run),
    ensures
        is_cut(terms, a, b, run),
{
    let front = terms.drop_last();
    assert(terms.subrange(a, b) =~= front.subrange(a, b));
    assert forall|k: int| a <= k < b implies (#[trigger] terms[k]).field == run.0 by {
        assert(front[k] == terms[k]);
    }
}

proof fn lemma_cut_grows(terms: Seq<QueryTerm>, a: int, run: (u32, Seq<QueryTerm>))
    requires
        terms.len() > 0,
        is_cut(terms.drop_last(), a, terms.len() - 1, run),
        run.0 == terms.last().field,
    ensures
        is_cut(terms, a, terms.len() as int, (run.0, run.1.push(terms.last()))),
{
    let front = terms.drop_last();
    let n = terms.len() as int;
    assert(terms.subrange(a, n) =~= front.subrange(a, n - 1).push(terms.last()));
    assert forall|k: int| a <= k < n implies (#[trigger] terms[k]).field == run.0 by {
        if k < n - 1 {
            assert(front[k] == terms[k]);
        }
    }
}

/// What is said of a list of groups, or of parts of a plan, is said of each of them, and of what
/// it holds.
pub proof fn plans_are_shown_part_by_part(groups: Seq<TermGroup>, plan: Seq<PostingsWarmup>)
    ensures
        group_views(groups).len() == groups.len(),
        forall|i: int|
            0 <= i < groups.len() ==> #[trigger] group_views(groups)[i] == (
                groups[i].field,
                groups[i].terms@,
            ),
        postings_views(plan).len() == plan.len(),
        forall|i: int|
            0 <= i < plan.len() ==> #[trigger] postings_views(plan)[i] == (PostingsWarmupView {
                field: plan[i].field,
                segment: plan[i].segment,
                terms: plan[i].terms@,
            }),
{
}

/// The terms of all runs, one run behind the other.
pub open spec fn terms_of_runs(runs: Seq<(u32, Seq<QueryTerm>)>) -> Seq<QueryTerm>
    decreases runs.len(),
{
    if runs.len() == 0 {
        Seq::empty()
    } else {
        terms_of_runs(runs.drop_last()) + runs.last().1
    }
}

/// The terms whose posting lists a plan loads in one segment, in the order of the plan.
pub open spec fn terms_warmed_in(plan: Seq<PostingsWarmupView>, segment: usize) -> Seq<QueryTerm>
    decreases plan.len(),
{
    if plan.len() == 0 {
        Seq::empty()
    } else {
        let front = terms_warmed_in(plan.drop_last(), segment);
        if plan.last().segment == segment {
            front + plan.last().terms
        } else {
            front
        }
    }
}

/// Grouping loses no term and changes no order; a run is never empty and holds one field only,
/// and two neighbouring runs are of different fields.
pub proof fn runs_lose_nothing(terms: Seq<QueryTerm>)
    ensures
        terms_of_runs(runs_by_field(terms)) == terms,
        forall|i: int|
            0 <= i < runs_by_field(terms).len() ==> (#[trigger] runs_by_field(terms)[i]).1.len()
                > 0,
        forall|i: int, j: int|
            0 <= i < runs_by_field(terms).len() && 0 <= j < runs_by_field(terms)[i].1.len() ==> (
            #[trigger] runs_by_field(terms)[i].1[j]).field == runs_by_field(terms)[i].0,
        forall|i: int|
            0 < i < runs_by_field(terms).len() ==> runs_by_field(terms)[i - 1].0 != (
            #[trigger] runs_by_field(terms)[i]).0,
    decreases terms.len(),
{
    if terms.len() == 0 {
        assert(terms =~= Seq::empty());
    } else {
        let front = terms.drop_last();
        let term = terms.last();
        let before = runs_by_field(front);
        let runs = runs_by_field(terms);
        runs_lose_nothing(front);
        assert(terms =~= front.push(term));
        if before.len() > 0 && before.last().0 == term.field {
            assert(runs.drop_last() =~= before.drop_last());
            assert(runs.last().1 == before.last().1.push(term));
            assert(terms_of_runs(before) == terms_of_runs(before.drop_last()) + before.last().1);
            assert(terms =~= terms_of_runs(runs.drop_last()) + runs.last().1);
            assert forall|i: int, j: int|
                0 <= i < runs.len() && 0 <= j < runs[i].1.len() implies (
            #[trigger] runs[i].1[j]).field == runs[i].0 by {
                if i < runs.len() - 1 {
                    assert(runs[i] == before[i]);
                } else if j < before.last().1.len() {
                    assert(runs[i].1[j] == before[i].1[j]);
                }
            }
            assert forall|i: int| 0 < i < runs.len() implies runs[i - 1].0 != (
            #[trigger] runs[i]).0 by {
                assert(before[i - 1].0 != before[i].0);
            }
        } else {
            assert(runs.drop_last() =~= before);
            assert(terms =~= terms_of_runs(before) + seq![term]);
            assert forall|i: int| 0 < i < runs.len() implies runs[i - 1].0 != (
            #[trigger] runs[i]).0 by {
                if i < before.len() {
                    assert(before[i - 1].0 != before[i].0);
                }
            }
        }
    }
}

/// The terms of a query come sorted, by field first: each field then makes one run, so that its
/// inverted index is opened once for each segment.
pub proof fn sorted_terms_make_one_run_per_field(terms: Seq<QueryTerm>)
    requires
        forall|i: int, j: int| 0 <= i <= j < terms.len() ==> terms[i].field <= terms[j].field,
    ensures
        forall|i: int, j: int|
            0 <= i < j < runs_by_field(terms).len() ==> runs_by_field(terms)[i].0
                < runs_by_field(terms)[j].0,
    decreases terms.len(),
{
    if terms.len() > 0 {
        let front = terms.drop_last();
        let before = runs_by_field(front);
        let runs = runs_by_field(terms);
        sorted_terms_make_one_run_per_field(front);
        runs_lose_nothing(front);
        if before.len() > 0 {
            let last_run = before.last();
            assert(last_run.1.len() > 0);
            assert(front.last() == last_run.1.last());
            assert(before[before.len() - 1].1[last_run.1.len() - 1].field == last_run.0);
            assert(last_run.0 <= terms.last().field);
        }
        assert forall|i: int, j: int| 0 <= i < j < runs.len() implies runs[i].0 < runs[j].0 by {
            if j < before.len() {
                assert(before[i].0 < before[j].0);
                assert(runs[i].0 == before[i].0);
                assert(runs[j].0 == before[j].0);
            } else {
                assert(runs[i].0 == before[i].0);
                assert(i == before.len() - 1 || before[i].0 < before[before.len() - 1].0);
            }
        }
    }
}

/// In every segment the plan loads the posting list of every term of the query, once and in the
/// order of the terms.
pub proof fn every_term_is_warmed_in_every_segment(
    terms: Seq<QueryTerm>,
    num_segments: usize,
    segment: usize,
)
    requires
        segment < num_segments,
    ensures
        terms_warmed_in(postings_plan(runs_by_field(terms), num_segments as nat), segment)
            == terms,
{
    lemma_warmed_runs(runs_by_field(terms), num_segments, segment);
    runs_lose_nothing(terms);
}

proof fn lemma_warmed_runs(
    runs: Seq<(u32, Seq<QueryTerm>)>,
    num_segments: usize,
    segment: usize,
)
    requires
        segment < num_segments,
    ensures
        terms_warmed_in(postings_plan(runs, num_segments as nat), segment) == terms_of_runs(runs),
    decreases runs.len(),
{
    if runs.len() > 0 {
        let n = num_segments as nat;
        lemma_warmed_runs(runs.drop_last(), num_segments, segment);
        lemma_warmed_concat(
            postings_plan(runs.drop_last(), n),
            postings_of_run(runs.last(), n),
            segment,
        );
        lemma_warmed_run(runs.last(), num_segments, n, segment);
    }
}

proof fn lemma_warmed_run(
    run: (u32, Seq<QueryTerm>),
    num_segments: usize,
    n: nat,
    segment: usize,
)
    requires
        n <= num_segments,
    ensures
        terms_warmed_in(postings_of_run(run, n), segment) == if segment < n {
            run.1
        } else {
            Seq::<QueryTerm>::empty()
        },
    decreases n,
{
    if n > 0 {
        let plan = postings_of_run(run, n);
        let front = (n - 1) as nat;
        lemma_warmed_run(run, num_segments, front, segment);
        assert(plan.drop_last() =~= postings_of_run(run, front));
        assert(plan.last().segment == front as usize);
        assert(Seq::<QueryTerm>::empty() + run.1 =~= run.1);
    }
}

proof fn lemma_warmed_concat(
    a: Seq<PostingsWarmupView>,
    b: Seq<PostingsWarmupView>,
    segment: usize,
)
    ensures
        terms_warmed_in(a + b, segment) == terms_warmed_in(a, segment) + terms_warmed_in(
            b,
            segment,
        ),
    decreases b.len(),
{
    if b.len() == 0 {
        assert(a + b =~= a);
        assert(terms_warmed_in(a, segment) + Seq::<QueryTerm>::empty() =~= terms_warmed_in(
            a,
            segment,
        ));
    } else {
        assert((a + b).drop_last() =~= a + b.drop_last());
        assert((a + b).last() == b.last());
        lemma_warmed_concat(a, b.drop_last(), segment);
        assert(terms_warmed_in(a + b, segment) =~= terms_warmed_in(a, segment)
            + terms_warmed_in(b, segment));
    }
}

/// In every segment the plan for merged terms loads the posting list of every term that a visit
/// names, with its positions where the visit needs them, and opens the inverted index of a field
/// once.
pub proof fn every_visit_is_warmed_in_every_segment(
    visits: Seq<QueryTerm>,
    merged: Seq<QueryTerm>,
    num_segments: usize,
    segment: usize,
    i: int,
)
    requires
        is_merged(visits, merged),
        segment < num_segments,
        0 <= i < visits.len(),
    ensures
        ({
            let plan = postings_plan(runs_by_field(merged), num_segments as nat);
            let warmed = terms_warmed_in(plan, segment);
            &&& has_term(warmed, visits[i].field, visits[i].term)
            &&& visits[i].position_needed ==> needs_position(
                warmed,
                visits[i].field,
                visits[i].term,
            )
        }),
        forall|a: int, b: int|
            0 <= a < b < runs_by_field(merged).len() ==> runs_by_field(merged)[a].0
                < runs_by_field(merged)[b].0,
{
    let visit = visits[i];
    every_term_is_warmed_in_every_segment(merged, num_segments, segment);
    assert(has_term(visits, visit.field, visit.term));
    assert(has_term(merged, visit.field, visit.term));
    assert(visit.position_needed ==> needs_position(visits, visit.field, visit.term));
    assert(needs_position(merged, visit.field, visit.term) <==> needs_position(
        visits,
        visit.field,
        visit.term,
    ));
    assert forall|a: int, b: int| 0 <= a <= b < merged.len() implies merged[a].field
        <= merged[b].field by {
        assert(a < b ==> is_before(merged[a], merged[b]));
    }
    sorted_terms_make_one_run_per_field(merged);
}

} // verus!
