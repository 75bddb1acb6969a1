use pdf_fixing_lib::model::{AnnotationList, Element, Graph, ObjectId, RepairError, Value};
use pdf_fixing_lib::repair::{build_pool, decide_page, live_identifiers, reference_array_ids, repair, replace_annotations};
use pdf_fixing_lib::select::{added_count, contains, distinct_len, find_candidate, is_strict_superset, is_subset};

fn id(number: u32) -> ObjectId {
    ObjectId { number, generation: 0 }
}

fn refs(numbers: &[u32]) -> Vec<Element> {
    numbers.iter().map(|n| Element::Reference(id(*n))).collect()
}

fn ids(numbers: &[u32]) -> Vec<ObjectId> {
    numbers.iter().map(|n| id(*n)).collect()
}

fn page(numbers: &[u32]) -> Value {
    Value::Dictionary(AnnotationList::List(refs(numbers)))
}

fn annotation(number: u32) -> (ObjectId, Value) {
    (id(number), Value::Dictionary(AnnotationList::Absent))
}

/// Annotations 1 to 4, page 10 listing `[1, 2]`, page 11 without a list,
/// and an array 20 holding `[1, 2, 3, 4]`.
fn two_page_graph() -> Graph {
    Graph {
        objects: vec![
            annotation(1),
            annotation(2),
            annotation(3),
            annotation(4),
            (id(10), page(&[1, 2])),
            (id(11), Value::Dictionary(AnnotationList::Absent)),
            (id(20), Value::Array(refs(&[1, 2, 3, 4]))),
        ],
        pages: vec![id(10), id(11)],
    }
}

#[test]
fn truncated_page_gets_the_full_array_back() {
    let graph = two_page_graph();
    let (fixed, count) = repair(graph.clone()).unwrap();
    assert_eq!(count, 2);
    assert_eq!(fixed.objects[4], (id(10), page(&[1, 2, 3, 4])));
    assert_eq!(fixed.objects[5], graph.objects[5]);
    assert_eq!(fixed.pages, graph.pages);
    for k in [0usize, 1, 2, 3, 5, 6] {
        assert_eq!(fixed.objects[k], graph.objects[k]);
    }
}

#[test]
fn no_superset_means_no_change() {
    let graph = Graph {
        objects: vec![
            annotation(1),
            annotation(2),
            (id(10), page(&[1, 2])),
            (id(20), Value::Array(refs(&[1]))),
            (id(21), Value::Array(refs(&[2, 3]))),
        ],
        pages: vec![id(10)],
    };
    let (fixed, count) = repair(graph.clone()).unwrap();
    assert_eq!(count, 0);
    assert_eq!(fixed, graph);
}

#[test]
fn empty_graph_repairs_to_itself() {
    let graph = Graph { objects: vec![], pages: vec![] };
    assert_eq!(repair(graph.clone()), Ok((graph, 0)));
}

#[test]
fn null_targets_do_not_count() {
    let graph = Graph {
        objects: vec![
            annotation(1),
            (id(2), Value::Null),
            annotation(3),
            annotation(4),
            (id(10), page(&[1, 2])),
            (id(20), Value::Array(refs(&[1, 3, 4]))),
        ],
        pages: vec![id(10)],
    };
    let (fixed, count) = repair(graph).unwrap();
    assert_eq!(count, 2);
    assert_eq!(fixed.objects[4].1, page(&[1, 3, 4]));
}

#[test]
fn null_target_would_block_the_match_if_counted() {
    // With 2 counted, {1, 2} is no subset of {1, 3, 4}; it is null, so {1} is.
    let mut objects = vec![
        annotation(1),
        annotation(2),
        (id(10), page(&[1, 2])),
        (id(20), Value::Array(refs(&[1, 3, 4]))),
    ];
    let live = Graph { objects: objects.clone(), pages: vec![id(10)] };
    assert_eq!(repair(live.clone()), Ok((live, 0)));
    objects[1] = (id(2), Value::Null);
    let dead = Graph { objects, pages: vec![id(10)] };
    assert_eq!(repair(dead).unwrap().1, 2);
}

#[test]
fn equal_set_is_no_match() {
    let graph = Graph {
        objects: vec![(id(10), page(&[1, 2, 3])), (id(20), Value::Array(refs(&[3, 2, 1])))],
        pages: vec![id(10)],
    };
    assert_eq!(repair(graph.clone()), Ok((graph, 0)));
}

#[test]
fn array_with_a_literal_is_no_candidate() {
    let mut mixed = refs(&[1, 2, 3]);
    mixed.push(Element::Literal);
    let graph = Graph {
        objects: vec![(id(10), page(&[1, 2])), (id(20), Value::Array(mixed))],
        pages: vec![id(10)],
    };
    assert_eq!(build_pool(&graph.objects), Vec::<Vec<ObjectId>>::new());
    assert_eq!(repair(graph.clone()), Ok((graph, 0)));
}

#[test]
fn replacement_keeps_the_candidates_order() {
    let graph = Graph {
        objects: vec![(id(10), page(&[2])), (id(20), Value::Array(refs(&[4, 2, 9, 1])))],
        pages: vec![id(10)],
    };
    let (fixed, count) = repair(graph).unwrap();
    assert_eq!(count, 3);
    assert_eq!(fixed.objects[0].1, page(&[4, 2, 9, 1]));
}

#[test]
fn first_candidate_in_storage_order_wins() {
    let graph = Graph {
        objects: vec![
            (id(10), page(&[1])),
            (id(20), Value::Array(refs(&[1]))),
            (id(21), Value::Array(refs(&[1, 2, 3]))),
            (id(22), Value::Array(refs(&[1, 2]))),
        ],
        pages: vec![id(10)],
    };
    let (fixed, count) = repair(graph).unwrap();
    assert_eq!(count, 2);
    assert_eq!(fixed.objects[0].1, page(&[1, 2, 3]));
}

#[test]
fn sizes_are_those_of_sets() {
    // The candidate lists 1 twice: its set has three members, the page's two.
    let graph = Graph {
        objects: vec![(id(10), page(&[1, 1, 2])), (id(20), Value::Array(refs(&[1, 2, 1, 3])))],
        pages: vec![id(10)],
    };
    let (fixed, count) = repair(graph).unwrap();
    assert_eq!(count, 1);
    assert_eq!(fixed.objects[0].1, page(&[1, 2, 1, 3]));
}

#[test]
fn single_reference_is_a_set_of_one() {
    let graph = Graph {
        objects: vec![
            (id(10), Value::Dictionary(AnnotationList::Single(id(5)))),
            (id(5), Value::Null),
            (id(20), Value::Array(refs(&[5, 6]))),
        ],
        pages: vec![id(10)],
    };
    let (fixed, count) = repair(graph).unwrap();
    assert_eq!(count, 1);
    assert_eq!(fixed.objects[0].1, page(&[5, 6]));
}

#[test]
fn literals_in_a_pages_list_are_passed_over() {
    let mut list = refs(&[1]);
    list.push(Element::Literal);
    let graph = Graph {
        objects: vec![
            (id(10), Value::Dictionary(AnnotationList::List(list))),
            (id(20), Value::Array(refs(&[1, 2]))),
        ],
        pages: vec![id(10)],
    };
    let (fixed, count) = repair(graph).unwrap();
    assert_eq!(count, 1);
    assert_eq!(fixed.objects[0].1, page(&[1, 2]));
}

#[test]
fn empty_list_matches_any_candidate_that_is_not_empty() {
    let graph = Graph {
        objects: vec![
            (id(10), page(&[])),
            (id(20), Value::Array(vec![])),
            (id(21), Value::Array(refs(&[7]))),
        ],
        pages: vec![id(10)],
    };
    let (fixed, count) = repair(graph).unwrap();
    assert_eq!(count, 1);
    assert_eq!(fixed.objects[0].1, page(&[7]));
}

#[test]
fn unresolved_page_is_an_error() {
    let mut graph = two_page_graph();
    graph.pages.push(id(99));
    assert_eq!(repair(graph), Err(RepairError::UnresolvedPage(id(99))));
}

#[test]
fn page_that_is_no_dictionary_is_an_error() {
    let mut graph = two_page_graph();
    graph.pages.push(id(20));
    assert_eq!(repair(graph), Err(RepairError::NotADictionary(id(20))));
    let other = Graph { objects: vec![(id(1), Value::Other)], pages: vec![id(1)] };
    assert_eq!(repair(other), Err(RepairError::NotADictionary(id(1))));
    let null = Graph { objects: vec![(id(1), Value::Null)], pages: vec![id(1)] };
    assert_eq!(repair(null), Err(RepairError::NotADictionary(id(1))));
}

#[test]
fn invalid_annotation_list_is_an_error() {
    let graph = Graph {
        objects: vec![(id(10), Value::Dictionary(AnnotationList::Invalid))],
        pages: vec![id(10)],
    };
    assert_eq!(repair(graph), Err(RepairError::InvalidAnnotationList(id(10))));
}

#[test]
fn first_failing_page_gives_the_error() {
    let graph = Graph {
        objects: vec![(id(10), Value::Dictionary(AnnotationList::Invalid)), (id(11), Value::Other)],
        pages: vec![id(11), id(10)],
    };
    assert_eq!(repair(graph), Err(RepairError::NotADictionary(id(11))));
}

#[test]
fn second_run_changes_nothing() {
    let (once, first) = repair(two_page_graph()).unwrap();
    let (twice, second) = repair(once.clone()).unwrap();
    assert_eq!(first, 2);
    assert_eq!(second, 0);
    assert_eq!(twice, once);
}

#[test]
fn second_run_may_grow_a_page_again_when_candidates_nest() {
    let graph = Graph {
        objects: vec![
            (id(10), page(&[1])),
            (id(20), Value::Array(refs(&[1, 2]))),
            (id(21), Value::Array(refs(&[1, 2, 3]))),
        ],
        pages: vec![id(10)],
    };
    let (once, first) = repair(graph).unwrap();
    assert_eq!(first, 1);
    assert_eq!(once.objects[0].1, page(&[1, 2]));
    let (twice, second) = repair(once).unwrap();
    assert_eq!(second, 1);
    assert_eq!(twice.objects[0].1, page(&[1, 2, 3]));
}

#[test]
fn identifiers_are_conserved() {
    let graph = two_page_graph();
    let before: Vec<ObjectId> = graph.objects.iter().map(|o| o.0).collect();
    let (fixed, _) = repair(graph).unwrap();
    let after: Vec<ObjectId> = fixed.objects.iter().map(|o| o.0).collect();
    assert_eq!(before, after);
}

#[test]
fn counts_add_up_over_pages() {
    let graph = Graph {
        objects: vec![
            (id(10), page(&[1])),
            (id(11), page(&[5])),
            (id(20), Value::Array(refs(&[1, 2, 3]))),
            (id(21), Value::Array(refs(&[5, 6]))),
        ],
        pages: vec![id(10), id(11)],
    };
    let (fixed, count) = repair(graph).unwrap();
    assert_eq!(count, 3);
    assert_eq!(fixed.objects[0].1, page(&[1, 2, 3]));
    assert_eq!(fixed.objects[1].1, page(&[5, 6]));
}

#[test]
fn page_listed_twice_is_handled_twice() {
    let graph = Graph {
        objects: vec![
            (id(10), page(&[1])),
            (id(20), Value::Array(refs(&[1, 2]))),
            (id(21), Value::Array(refs(&[1, 2, 3]))),
        ],
        pages: vec![id(10), id(10)],
    };
    let (fixed, count) = repair(graph).unwrap();
    assert_eq!(count, 2);
    assert_eq!(fixed.objects[0].1, page(&[1, 2, 3]));
}

#[test]
fn find_and_is_null_address_the_first_occurrence() {
    let graph = Graph {
        objects: vec![(id(1), Value::Other), (id(2), Value::Null), (id(2), Value::Other)],
        pages: vec![],
    };
    assert_eq!(graph.find(id(1)), Some(0));
    assert_eq!(graph.find(id(2)), Some(1));
    assert_eq!(graph.find(id(3)), None);
    assert_eq!(graph.find(ObjectId { number: 1, generation: 1 }), None);
    assert!(graph.is_null(id(2)));
    assert!(!graph.is_null(id(1)));
    assert!(!graph.is_null(id(3)));
}

#[test]
fn set_helpers() {
    assert!(contains(&ids(&[1, 2, 3]), id(2)));
    assert!(!contains(&ids(&[1, 2, 3]), id(4)));
    assert!(!contains(&ids(&[]), id(4)));
    assert!(is_subset(&ids(&[2, 2, 1]), &ids(&[1, 2, 3])));
    assert!(is_subset(&ids(&[]), &ids(&[])));
    assert!(!is_subset(&ids(&[1, 4]), &ids(&[1, 2, 3])));
    assert_eq!(distinct_len(&ids(&[])), 0);
    assert_eq!(distinct_len(&ids(&[1, 1, 1])), 1);
    assert_eq!(distinct_len(&ids(&[1, 2, 1, 3, 2])), 3);
    assert!(is_strict_superset(&ids(&[1, 2, 3]), &ids(&[1, 2])));
    assert!(!is_strict_superset(&ids(&[1, 2]), &ids(&[2, 1, 1])));
    assert!(!is_strict_superset(&ids(&[1, 2]), &ids(&[1, 2, 3])));
    assert!(!is_strict_superset(&ids(&[1, 2, 3]), &ids(&[4, 5])));
    assert_eq!(added_count(&ids(&[1, 2, 3, 3]), &ids(&[2, 2])), 2);
}

#[test]
fn find_candidate_takes_the_first() {
    let pool = vec![ids(&[1]), ids(&[3, 4]), ids(&[1, 2]), ids(&[1, 2, 3])];
    assert_eq!(find_candidate(&pool, &ids(&[1])), Some(2));
    assert_eq!(find_candidate(&pool, &ids(&[1, 2])), Some(3));
    assert_eq!(find_candidate(&pool, &ids(&[1, 2, 3])), None);
    assert_eq!(find_candidate(&pool, &ids(&[])), Some(0));
    assert_eq!(find_candidate(&Vec::new(), &ids(&[])), None);
}

#[test]
fn pool_holds_reference_arrays_in_storage_order() {
    let graph = two_page_graph();
    assert_eq!(build_pool(&graph.objects), vec![ids(&[1, 2, 3, 4])]);
    let objects = vec![
        (id(1), Value::Array(refs(&[3, 1]))),
        (id(2), Value::Array(vec![Element::Literal])),
        (id(3), Value::Array(vec![])),
        (id(4), page(&[1, 2, 3])),
        (id(5), Value::Array(refs(&[2]))),
    ];
    assert_eq!(build_pool(&objects), vec![ids(&[3, 1]), ids(&[]), ids(&[2])]);
    assert_eq!(reference_array_ids(&refs(&[3, 1])), Some(ids(&[3, 1])));
    assert_eq!(reference_array_ids(&vec![Element::Reference(id(1)), Element::Literal]), None);
}

#[test]
fn live_identifiers_drop_nulls_and_literals() {
    let graph = Graph {
        objects: vec![(id(2), Value::Null), (id(3), Value::Other)],
        pages: vec![],
    };
    let mut items = refs(&[1, 2, 3]);
    items.insert(1, Element::Literal);
    assert_eq!(live_identifiers(&graph, &items), ids(&[1, 3]));
}

#[test]
fn decide_page_gives_place_and_gain() {
    let graph = two_page_graph();
    let pool = build_pool(&graph.objects);
    assert_eq!(decide_page(&graph, &pool, id(10)), Ok(Some((id(10), 0, 2))));
    assert_eq!(decide_page(&graph, &pool, id(11)), Ok(None));
    assert_eq!(decide_page(&graph, &pool, id(20)), Err(RepairError::NotADictionary(id(20))));
    assert_eq!(decide_page(&graph, &pool, id(77)), Err(RepairError::UnresolvedPage(id(77))));
}

#[test]
fn replace_annotations_touches_one_object() {
    let mut graph = two_page_graph();
    let before = graph.clone();
    replace_annotations(&mut graph, id(11), &ids(&[4, 3]));
    assert_eq!(graph.objects[5], (id(11), page(&[4, 3])));
    assert_eq!(graph.pages, before.pages);
    for k in [0usize, 1, 2, 3, 4, 6] {
        assert_eq!(graph.objects[k], before.objects[k]);
    }
}

#[test]
fn page_behind_an_alias_is_repaired_where_it_is_stored() {
    let graph = Graph {
        objects: vec![
            (id(10), Value::Alias(Some(id(12)))),
            (id(12), page(&[1])),
            (id(20), Value::Array(refs(&[1, 2]))),
        ],
        pages: vec![id(10)],
    };
    let pool = build_pool(&graph.objects);
    assert_eq!(decide_page(&graph, &pool, id(10)), Ok(Some((id(12), 0, 1))));
    assert_eq!(graph.resolve(id(10)), Some(1));
    assert_eq!(graph.resolve(id(12)), Some(1));
    let (fixed, count) = repair(graph.clone()).unwrap();
    assert_eq!(count, 1);
    assert_eq!(fixed.objects[0], graph.objects[0]);
    assert_eq!(fixed.objects[1], (id(12), page(&[1, 2])));
    assert_eq!(fixed.objects[2], graph.objects[2]);
}

#[test]
fn alias_that_ends_nowhere_is_unresolved() {
    let broken = Graph { objects: vec![(id(10), Value::Alias(None))], pages: vec![id(10)] };
    assert_eq!(broken.resolve(id(10)), None);
    assert_eq!(repair(broken), Err(RepairError::UnresolvedPage(id(10))));
    let dangling =
        Graph { objects: vec![(id(10), Value::Alias(Some(id(99))))], pages: vec![id(10)] };
    assert_eq!(repair(dangling), Err(RepairError::UnresolvedPage(id(10))));
    let array = Graph {
        objects: vec![(id(10), Value::Alias(Some(id(11)))), (id(11), Value::Array(vec![]))],
        pages: vec![id(10)],
    };
    assert_eq!(repair(array), Err(RepairError::NotADictionary(id(10))));
}

#[test]
fn alias_of_a_null_object_does_not_count() {
    let graph = Graph {
        objects: vec![
            (id(2), Value::Alias(Some(id(3)))),
            (id(3), Value::Null),
            (id(10), page(&[1, 2])),
            (id(20), Value::Array(refs(&[1, 4, 5]))),
        ],
        pages: vec![id(10)],
    };
    assert!(graph.is_null(id(2)));
    assert!(graph.is_null(id(3)));
    let (fixed, count) = repair(graph).unwrap();
    assert_eq!(count, 2);
    assert_eq!(fixed.objects[2].1, page(&[1, 4, 5]));
}

#[test]
fn object_that_no_page_resolves_to_is_untouched() {
    let graph = Graph {
        objects: vec![
            (id(10), page(&[1])),
            (id(11), page(&[1])),
            (id(20), Value::Array(refs(&[1, 2]))),
        ],
        pages: vec![id(10)],
    };
    let (fixed, count) = repair(graph.clone()).unwrap();
    assert_eq!(count, 1);
    assert_eq!(fixed.objects[1], graph.objects[1]);
    assert_eq!(fixed.objects[2], graph.objects[2]);
}
