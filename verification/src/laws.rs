//! What holds of every repair, proved from the definitions.

use vstd::prelude::*;
use crate::model::{
    is_first_index, is_null_object, is_reference_array, lemma_lookup_first, lookup,
    reference_ids, resolve, references_to, AnnotationListView, Element, GraphView, ObjectId, Objects,
    RepairError, ValueView,
};
use crate::repair::{
    candidate_pool, current_ids, is_page_target, lemma_decision_by_shape,
    lemma_same_shape_resolve, lemma_same_shape_trans, lemma_with_annotations_shape, live_ids,
    page_annotations, page_decision, page_target, repair_page, repair_pages, repaired,
    same_shape, with_annotations,
};
use crate::select::{first_match, is_first_match, strictly_contains};

verus! {

/// The object at place `s` is an array of references only, and `candidate`
/// lists its identifiers in its order.
pub open spec fn is_source(objects: Objects, s: int, candidate: Seq<ObjectId>) -> bool {
    &&& 0 <= s < objects.len()
    &&& objects[s].1 matches ValueView::Array(items) && is_reference_array(items)
        && reference_ids(items) == candidate && references_to(candidate) == items
}

/// The value is a dictionary whose annotation list is, element for element,
/// an array of references that `objects` hold.
pub open spec fn drawn_from(objects: Objects, value: ValueView) -> bool {
    exists|s: int, candidate: Seq<ObjectId>|
        #[trigger] is_source(objects, s, candidate) && value == ValueView::Dictionary(
            AnnotationListView::List(references_to(candidate)),
        )
}

/// Every candidate of the pool lists, in order, the identifiers of an array
/// of the graph whose elements are all references: an array that holds
/// anything else is never a candidate.
pub proof fn law_candidates_are_reference_arrays(objects: Objects, k: int) -> (s: int)
    requires
        0 <= k < candidate_pool(objects).len(),
    ensures
        is_source(objects, s, candidate_pool(objects)[k]),
    decreases objects.len(),
{
    let rest = candidate_pool(objects.drop_last());
    if k < rest.len() {
        let s = law_candidates_are_reference_arrays(objects.drop_last(), k);
        assert(objects.drop_last()[s] == objects[s]);
        s
    } else {
        let s = objects.len() - 1;
        match objects.last().1 {
            ValueView::Array(items) => {
                assert(is_reference_array(items));
                assert(references_to(reference_ids(items)) =~= items);
            },
            _ => {},
        }
        s
    }
}

/// The pool of two runs of objects is the pool of the first followed by the
/// pool of the second.
pub proof fn lemma_pool_concat(a: Objects, b: Objects)
    ensures
        candidate_pool(a + b) == candidate_pool(a) + candidate_pool(b),
    decreases b.len(),
{
    if b.len() == 0 {
        assert(a + b =~= a);
        assert(candidate_pool(a) + candidate_pool(b) =~= candidate_pool(a));
    } else {
        assert((a + b).drop_last() =~= a + b.drop_last());
        assert((a + b).last() == b.last());
        lemma_pool_concat(a, b.drop_last());
        assert(candidate_pool(a + b) =~= candidate_pool(a) + candidate_pool(b));
    }
}

/// An object that is no array of references only gives the pool nothing:
/// with it or without it the pool is the same.
pub proof fn law_other_objects_give_no_candidate(objects: Objects, j: int)
    requires
        0 <= j < objects.len(),
        !(objects[j].1 matches ValueView::Array(items) && is_reference_array(items)),
    ensures
        candidate_pool(objects.remove(j)) == candidate_pool(objects),
{
    let front = objects.take(j);
    let one = Seq::empty().push(objects[j]);
    let back = objects.skip(j + 1);
    assert(objects =~= (front + one) + back);
    assert(objects.remove(j) =~= front + back);
    assert(one.drop_last() =~= Seq::empty());
    assert(candidate_pool(one.drop_last()) =~= Seq::empty());
    assert(candidate_pool(one) =~= Seq::empty());
    lemma_pool_concat(front, one);
    lemma_pool_concat(front + one, back);
    lemma_pool_concat(front, back);
    assert(candidate_pool(front) + Seq::empty() =~= candidate_pool(front));
}

/// A reference to a null object counts for nothing: the current set never
/// holds its identifier, and the array compares as if the entry were not
/// there.
pub proof fn law_null_entries_are_ignored(objects: Objects, items: Seq<Element>, i: int)
    requires
        0 <= i < items.len(),
        items[i] matches Element::Reference(id) && is_null_object(objects, id),
    ensures
        !live_ids(objects, items).contains(items[i]->Reference_0),
        live_ids(objects, items.remove(i)) == live_ids(objects, items),
        current_ids(objects, AnnotationListView::List(items.remove(i))) == current_ids(
            objects,
            AnnotationListView::List(items),
        ),
{
    let dead = items[i]->Reference_0;
    let rest = items.remove(i);
    assert forall|id: ObjectId| live_ids(objects, rest).contains(id) == live_ids(
        objects,
        items,
    ).contains(id) by {
        let e = Element::Reference(id);
        if rest.contains(e) {
            let w = choose|w: int| 0 <= w < rest.len() && rest[w] == e;
            if w < i {
                assert(items[w] == e);
            } else {
                assert(items[w + 1] == e);
            }
        }
        if items.contains(e) && id != dead {
            let w = choose|w: int| 0 <= w < items.len() && items[w] == e;
            if w < i {
                assert(rest[w] == e);
            } else {
                assert(rest[w - 1] == e);
            }
        }
    }
    assert(live_ids(objects, rest) =~= live_ids(objects, items));
}

/// A candidate whose set equals the current set is no match, wherever it
/// stands in the pool.
pub proof fn law_equal_set_is_no_match(pool: Seq<Seq<ObjectId>>, current: Set<ObjectId>, k: int)
    requires
        0 <= k < pool.len(),
        pool[k].to_set() == current,
    ensures
        !strictly_contains(pool[k], current),
        first_match(pool, current) != Some(k),
{
    lemma_first_match_is_match(pool, current);
}

/// What `first_match` gives is a first match.
pub proof fn lemma_first_match_is_match(pool: Seq<Seq<ObjectId>>, current: Set<ObjectId>)
    ensures
        first_match(pool, current) matches Some(k) ==> is_first_match(pool, current, k),
{
}

/// After the annotation list of a dictionary was set, every identifier
/// resolves to the object to which it resolved; that object is as it was,
/// but for the dictionary itself, which holds the new list.
pub proof fn lemma_with_annotations_resolve(
    objects: Objects,
    target: ObjectId,
    ids: Seq<ObjectId>,
    id: ObjectId,
)
    requires
        lookup(objects, target) matches Some(v) && v is Dictionary,
    ensures
        resolve(with_annotations(objects, target, ids), id) == match resolve(objects, id) {
            Some(found) => if found.0 == target {
                Some(
                    (
                        target,
                        ValueView::Dictionary(AnnotationListView::List(references_to(ids))),
                    ),
                )
            } else {
                Some(found)
            },
            None => None,
        },
{
    lemma_with_annotations_lookup(objects, target, ids);
    if id != target {
        lemma_with_annotations_other(objects, target, ids, id);
    }
    match lookup(objects, id) {
        Some(ValueView::Alias(Some(t))) => {
            if t != target {
                lemma_with_annotations_other(objects, target, ids, t);
            }
        },
        _ => {},
    }
}

/// After its annotation list was set, the page addresses a dictionary that
/// holds exactly the references given, in their order.
pub proof fn lemma_with_annotations_lookup(objects: Objects, page: ObjectId, ids: Seq<ObjectId>)
    requires
        lookup(objects, page) is Some,
    ensures
        lookup(with_annotations(objects, page, ids), page) == Some(
            ValueView::Dictionary(AnnotationListView::List(references_to(ids))),
        ),
{
    let next = with_annotations(objects, page, ids);
    let k = choose|k: int| is_first_index(objects, page, k);
    assert(is_first_index(objects, page, k));
    assert forall|j: int| 0 <= j < k implies (#[trigger] next[j]).0 != page by {
        assert(objects[j].0 != page);
        assert(!is_first_index(objects, page, j));
    }
    assert(is_first_index(next, page, k));
    lemma_lookup_first(next, page, k);
}

/// Where a page's annotation list is replaced, the new list is, element for
/// element and in the same order, an array of references that the original
/// graph holds, and the count grows by what the candidate's set has more
/// than the current set.
pub proof fn law_replacement_is_verbatim(
    original: Objects,
    state: (Objects, nat),
    page: ObjectId,
    k: int,
) -> (s: int)
    requires
        page_decision(original, state.0, page) == Ok::<Option<int>, RepairError>(Some(k)),
    ensures
        0 <= k < candidate_pool(original).len(),
        is_source(original, s, candidate_pool(original)[k]),
        repair_page(original, state, page) matches Ok(next) && resolve(next.0, page) == Some(
            (
                page_target(state.0, page),
                ValueView::Dictionary(AnnotationListView::List(original[s].1->Array_0)),
            ),
        ) && next.1 == state.1 + candidate_pool(original)[k].to_set().len() - current_ids(
            original,
            page_annotations(state.0, page),
        ).len() && next.1 > state.1,
{
    let pool = candidate_pool(original);
    let current = current_ids(original, page_annotations(state.0, page));
    lemma_first_match_is_match(pool, current);
    let s = law_candidates_are_reference_arrays(original, k);
    lemma_with_annotations_resolve(state.0, page_target(state.0, page), pool[k], page);
    vstd::seq_lib::seq_to_set_is_finite(pool[k]);
    vstd::set_lib::lemma_len_subset(current, pool[k].to_set());
    s
}

/// Every object of `current` is the object of `original` at its place, or a
/// dictionary whose annotation list was drawn from `original`.
pub open spec fn drawn_or_kept(original: Objects, current: Objects) -> bool {
    &&& same_shape(current, original)
    &&& forall|j: int|
        0 <= j < current.len() ==> #[trigger] current[j] == original[j] || drawn_from(
            original,
            current[j].1,
        )
}

/// The pages handled so far leave the graph drawn from or kept as the
/// original.
pub proof fn lemma_pages_drawn_or_kept(original: Objects, pages: Seq<ObjectId>)
    requires
        repair_pages(original, pages) is Ok,
    ensures
        drawn_or_kept(original, repair_pages(original, pages)->Ok_0.0),
    decreases pages.len(),
{
    if pages.len() > 0 {
        let before = repair_pages(original, pages.drop_last())->Ok_0;
        lemma_pages_drawn_or_kept(original, pages.drop_last());
        let page = pages.last();
        match page_decision(original, before.0, page) {
            Ok(Some(k)) => {
                let candidate = candidate_pool(original)[k];
                let target = page_target(before.0, page);
                let after = with_annotations(before.0, target, candidate);
                let s = law_replacement_is_verbatim(original, before, page, k);
                lemma_with_annotations_shape(before.0, target, candidate);
                lemma_same_shape_trans(after, before.0, original);
                assert forall|j: int| 0 <= j < after.len() implies #[trigger] after[j]
                    == original[j] || drawn_from(original, after[j].1) by {
                    if is_first_index(before.0, target, j) {
                        assert(is_source(original, s, candidate));
                    } else {
                        assert(after[j] == before.0[j]);
                    }
                }
            },
            _ => {},
        }
    }
}

/// A repair keeps the pages and every identifier at its place, allocates
/// and deletes nothing, and changes values of dictionaries only; each
/// object is as it was, or is a dictionary whose annotation list is, in
/// the same order, an array of references that the graph held before.
pub proof fn law_repair_conserves_the_graph(graph: GraphView)
    requires
        repaired(graph) is Ok,
    ensures
        ({
            let fixed = repaired(graph)->Ok_0.0;
            &&& fixed.pages == graph.pages
            &&& fixed.objects.len() == graph.objects.len()
            &&& forall|j: int|
                0 <= j < fixed.objects.len() ==> (#[trigger] fixed.objects[j]).0
                    == graph.objects[j].0
            &&& fixed.objects.map_values(|o: (ObjectId, ValueView)| o.0).to_set()
                == graph.objects.map_values(|o: (ObjectId, ValueView)| o.0).to_set()
            &&& drawn_or_kept(graph.objects, fixed.objects)
        }),
{
    lemma_pages_drawn_or_kept(graph.objects, graph.pages);
    let fixed = repaired(graph)->Ok_0.0;
    assert(fixed.objects.map_values(|o: (ObjectId, ValueView)| o.0) =~= graph.objects.map_values(
        |o: (ObjectId, ValueView)| o.0,
    ));
}

/// An object to which no page resolves is left as it was by the pages
/// handled so far.
pub proof fn lemma_pages_leave_others(original: Objects, pages: Seq<ObjectId>, j: int)
    requires
        repair_pages(original, pages) is Ok,
        0 <= j < original.len(),
        !is_page_target(original, pages, original[j].0),
    ensures
        repair_pages(original, pages)->Ok_0.0.len() == original.len(),
        repair_pages(original, pages)->Ok_0.0[j] == original[j],
    decreases pages.len(),
{
    lemma_pages_drawn_or_kept(original, pages);
    if pages.len() > 0 {
        let before = repair_pages(original, pages.drop_last())->Ok_0;
        let page = pages.last();
        assert(pages[pages.len() - 1] == page);
        assert(page_target(original, page) != original[j].0);
        if is_page_target(original, pages.drop_last(), original[j].0) {
            let i = choose|i: int|
                0 <= i < pages.drop_last().len() && page_target(
                    original,
                    #[trigger] pages.drop_last()[i],
                ) == original[j].0;
            assert(pages[i] == pages.drop_last()[i]);
        }
        lemma_pages_leave_others(original, pages.drop_last(), j);
        lemma_pages_drawn_or_kept(original, pages.drop_last());
        lemma_same_shape_resolve(before.0, original, page);
        assert(before.0[j].0 == original[j].0);
    }
}

/// A repair changes no object but those to which its pages resolve.
pub proof fn law_only_pages_change(graph: GraphView, j: int)
    requires
        repaired(graph) is Ok,
        0 <= j < graph.objects.len(),
        !is_page_target(graph.objects, graph.pages, graph.objects[j].0),
    ensures
        repaired(graph)->Ok_0.0.objects.len() == graph.objects.len(),
        repaired(graph)->Ok_0.0.objects[j] == graph.objects[j],
{
    lemma_pages_leave_others(graph.objects, graph.pages, j);
}

/// The identifiers that an annotation list counts for and that address no
/// null object. For an array these are all that it counts for.
pub open spec fn live_part(objects: Objects, annots: AnnotationListView) -> Set<ObjectId> {
    Set::new(
        |id: ObjectId| current_ids(objects, annots).contains(id) && !is_null_object(objects, id),
    )
}

/// The value is a dictionary whose annotation list is, element for element,
/// the array of references that `original` has at place `s`, and that
/// array strictly contains the live identifiers of the list that
/// `original` has at place `j`.
pub open spec fn is_recovery_by(
    original: Objects,
    j: int,
    value: ValueView,
    s: int,
    candidate: Seq<ObjectId>,
) -> bool {
    &&& is_source(original, s, candidate)
    &&& value == ValueView::Dictionary(AnnotationListView::List(references_to(candidate)))
    &&& original[j].1 is Dictionary
    &&& strictly_contains(candidate, live_part(original, original[j].1->Dictionary_0))
}

/// The value is a recovery, from some array of references of `original`,
/// of the annotation list that `original` has at place `j`.
pub open spec fn is_recovery_of(original: Objects, j: int, value: ValueView) -> bool {
    exists|s: int, candidate: Seq<ObjectId>|
        #[trigger] is_recovery_by(original, j, value, s, candidate)
}

/// Every object is as `original` has it, or is a recovery of it.
pub open spec fn kept_or_recovered(original: Objects, current: Objects) -> bool {
    &&& same_shape(current, original)
    &&& forall|j: int|
        0 <= j < current.len() ==> #[trigger] current[j] == original[j] || is_recovery_of(
            original,
            j,
            current[j].1,
        )
}

/// A candidate that strictly contains a set strictly contains every part
/// of it.
pub proof fn lemma_strictly_contains_part(
    candidate: Seq<ObjectId>,
    current: Set<ObjectId>,
    part: Set<ObjectId>,
)
    requires
        strictly_contains(candidate, current),
        part.subset_of(current),
    ensures
        strictly_contains(candidate, part),
{
    vstd::seq_lib::seq_to_set_is_finite(candidate);
    vstd::set_lib::lemma_len_subset(current, candidate.to_set());
    vstd::set_lib::lemma_len_subset(part, current);
}

/// Through a whole pass, also where a page is listed more than once, every
/// object is kept or is a recovery of what the original had at its place.
pub proof fn lemma_pages_kept_or_recovered(original: Objects, pages: Seq<ObjectId>)
    requires
        repair_pages(original, pages) is Ok,
    ensures
        kept_or_recovered(original, repair_pages(original, pages)->Ok_0.0),
    decreases pages.len(),
{
    if pages.len() > 0 {
        let before = repair_pages(original, pages.drop_last())->Ok_0;
        lemma_pages_kept_or_recovered(original, pages.drop_last());
        let page = pages.last();
        match page_decision(original, before.0, page) {
            Ok(Some(k)) => {
                let candidate = candidate_pool(original)[k];
                let target = page_target(before.0, page);
                let after = with_annotations(before.0, target, candidate);
                let s = law_replacement_is_verbatim(original, before, page, k);
                lemma_first_match_is_match(
                    candidate_pool(original),
                    current_ids(original, page_annotations(before.0, page)),
                );
                lemma_with_annotations_shape(before.0, target, candidate);
                lemma_same_shape_trans(after, before.0, original);
                assert forall|j: int| 0 <= j < after.len() implies #[trigger] after[j]
                    == original[j] || is_recovery_of(original, j, after[j].1) by {
                    if is_first_index(before.0, target, j) {
                        lemma_lookup_first(before.0, target, j);
                        let held = page_annotations(before.0, page);
                        let current = current_ids(original, held);
                        let annots = original[j].1->Dictionary_0;
                        let part = live_part(original, annots);
                        assert(before.0[j].0 == original[j].0);
                        if before.0[j] == original[j] {
                            assert(part.subset_of(current));
                        } else {
                            let (s1, c1) = choose|s1: int, c1: Seq<ObjectId>|
                                #[trigger] is_recovery_by(original, j, before.0[j].1, s1, c1);
                            assert forall|id: ObjectId| part.contains(id) implies current.contains(
                                id,
                            ) by {
                                assert(c1.to_set().contains(id));
                                let w = choose|w: int| 0 <= w < c1.len() && c1[w] == id;
                                assert(references_to(c1)[w] == Element::Reference(id));
                            }
                        }
                        lemma_strictly_contains_part(candidate, current, part);
                        assert(is_recovery_by(original, j, after[j].1, s, candidate));
                    } else {
                        assert(after[j] == before.0[j]);
                    }
                }
            },
            _ => {},
        }
    }
}

/// After a repair, every object that differs from what the graph had is a
/// page's dictionary whose annotation list is, in the same order, an array
/// of references of the graph as it was, and that array strictly contains
/// the live identifiers of the list that the page had.
pub proof fn law_changed_lists_are_recoveries(graph: GraphView)
    requires
        repaired(graph) is Ok,
    ensures
        kept_or_recovered(graph.objects, repaired(graph)->Ok_0.0.objects),
{
    lemma_pages_kept_or_recovered(graph.objects, graph.pages);
}

/// Where no page can be handled otherwise than by leaving it alone, the
/// repair returns the graph as it is and a count of zero.
pub proof fn law_no_match_changes_nothing(graph: GraphView)
    requires
        forall|i: int|
            0 <= i < graph.pages.len() ==> page_decision(
                graph.objects,
                graph.objects,
                #[trigger] graph.pages[i],
            ) == Ok::<Option<int>, RepairError>(None),
    ensures
        repaired(graph) == Ok::<(GraphView, nat), RepairError>((graph, 0nat)),
{
    lemma_idle_pages(graph.objects, graph.pages);
}

/// Pages that are all left alone leave the objects and the count alone.
pub proof fn lemma_idle_pages(original: Objects, pages: Seq<ObjectId>)
    requires
        forall|i: int|
            0 <= i < pages.len() ==> page_decision(original, original, #[trigger] pages[i]) == Ok::<
                Option<int>,
                RepairError,
            >(None),
    ensures
        repair_pages(original, pages) == Ok::<(Objects, nat), RepairError>((original, 0nat)),
    decreases pages.len(),
{
    if pages.len() > 0 {
        assert forall|i: int| 0 <= i < pages.drop_last().len() implies page_decision(
            original,
            original,
            #[trigger] pages.drop_last()[i],
        ) == Ok::<Option<int>, RepairError>(None) by {
            assert(pages.drop_last()[i] == pages[i]);
        }
        lemma_idle_pages(original, pages.drop_last());
        assert(pages.last() == pages[pages.len() - 1]);
    }
}

/// The count of a pass that ends well is zero only where no page was
/// replaced: then the objects are the original ones and every page was
/// left alone.
pub proof fn lemma_zero_count_is_idle(original: Objects, pages: Seq<ObjectId>)
    requires
        repair_pages(original, pages) matches Ok(state) && state.1 == 0,
    ensures
        repair_pages(original, pages)->Ok_0.0 == original,
        forall|i: int|
            0 <= i < pages.len() ==> page_decision(original, original, #[trigger] pages[i]) == Ok::<
                Option<int>,
                RepairError,
            >(None),
    decreases pages.len(),
{
    if pages.len() > 0 {
        let before = repair_pages(original, pages.drop_last())->Ok_0;
        let page = pages.last();
        match page_decision(original, before.0, page) {
            Ok(Some(k)) => {
                let s = law_replacement_is_verbatim(original, before, page, k);
            },
            _ => {},
        }
        lemma_zero_count_is_idle(original, pages.drop_last());
        assert forall|i: int| 0 <= i < pages.len() implies page_decision(
            original,
            original,
            #[trigger] pages[i],
        ) == Ok::<Option<int>, RepairError>(None) by {
            if i < pages.len() - 1 {
                assert(pages.drop_last()[i] == pages[i]);
            }
        }
    }
}

/// A repair returns its input unchanged with a count of zero exactly where
/// every page is left alone: a page that is replaced always adds to the
/// count, also where the list that it gets equals the one that it had.
pub proof fn law_unchanged_iff_no_match(graph: GraphView)
    ensures
        repaired(graph) == Ok::<(GraphView, nat), RepairError>((graph, 0nat)) <==> (forall|i: int|
            0 <= i < graph.pages.len() ==> page_decision(
                graph.objects,
                graph.objects,
                #[trigger] graph.pages[i],
            ) == Ok::<Option<int>, RepairError>(None)),
{
    if repaired(graph) == Ok::<(GraphView, nat), RepairError>((graph, 0nat)) {
        lemma_zero_count_is_idle(graph.objects, graph.pages);
    }
    if forall|i: int|
        0 <= i < graph.pages.len() ==> page_decision(
            graph.objects,
            graph.objects,
            #[trigger] graph.pages[i],
        ) == Ok::<Option<int>, RepairError>(None) {
        law_no_match_changes_nothing(graph);
    }
}

/// A second repair changes nothing and counts nothing exactly where the
/// first one has left no page whose annotation set a candidate of the pool
/// strictly contains.
pub proof fn law_second_repair(graph: GraphView)
    requires
        repaired(graph) is Ok,
    ensures
        ({
            let fixed = repaired(graph)->Ok_0.0;
            repaired(fixed) == Ok::<(GraphView, nat), RepairError>((fixed, 0nat)) <==> (forall|
                i: int,
            |
                0 <= i < graph.pages.len() ==> page_decision(
                    graph.objects,
                    fixed.objects,
                    #[trigger] graph.pages[i],
                ) == Ok::<Option<int>, RepairError>(None))
        }),
{
    let fixed = repaired(graph)->Ok_0.0;
    lemma_pages_drawn_or_kept(graph.objects, graph.pages);
    law_unchanged_iff_no_match(fixed);
    assert forall|i: int| 0 <= i < graph.pages.len() implies page_decision(
        graph.objects,
        fixed.objects,
        #[trigger] graph.pages[i],
    ) == page_decision(fixed.objects, fixed.objects, fixed.pages[i]) by {
        lemma_decision_by_shape(graph.objects, fixed.objects, graph.pages[i]);
    }
}

/// No candidate of the pool strictly contains what another candidate, or
/// the candidate itself, counts for once it is a page's annotation list:
/// candidates do not nest, and none refers to a null object.
pub open spec fn pool_is_settled(objects: Objects) -> bool {
    forall|k: int|
        0 <= k < candidate_pool(objects).len() ==> first_match(
            candidate_pool(objects),
            live_ids(objects, references_to(#[trigger] candidate_pool(objects)[k])),
        ) is None
}

/// Setting the annotation list of one page leaves what every other
/// identifier addresses.
pub proof fn lemma_with_annotations_other(
    objects: Objects,
    page: ObjectId,
    ids: Seq<ObjectId>,
    other: ObjectId,
)
    requires
        other != page,
    ensures
        lookup(with_annotations(objects, page, ids), other) == lookup(objects, other),
{
    let next = with_annotations(objects, page, ids);
    assert forall|k: int| is_first_index(next, other, k) == is_first_index(
        objects,
        other,
        k,
    ) by {
        if is_first_index(objects, other, k) {
            assert(next[k] == objects[k]);
            assert forall|j: int| 0 <= j < k implies (#[trigger] next[j]).0 != other by {
                assert(objects[j].0 != other);
            }
        }
        if is_first_index(next, other, k) {
            assert(next[k].0 == objects[k].0);
            assert forall|j: int| 0 <= j < k implies (#[trigger] objects[j]).0 != other by {
                assert(next[j].0 != other);
            }
        }
    }
    if exists|k: int| is_first_index(objects, other, k) {
        let k = choose|k: int| is_first_index(objects, other, k);
        assert(is_first_index(next, other, k));
        lemma_lookup_first(objects, other, k);
        lemma_lookup_first(next, other, k);
        assert(next[k] == objects[k]);
    } else {
        assert forall|k: int| !is_first_index(next, other, k) by {
            assert(!is_first_index(objects, other, k));
        }
    }
}

/// With a settled pool, every page that a pass has handled would be left
/// alone if it were looked at again.
pub proof fn lemma_handled_pages_are_settled(original: Objects, pages: Seq<ObjectId>)
    requires
        pool_is_settled(original),
        repair_pages(original, pages) is Ok,
    ensures
        forall|i: int|
            0 <= i < pages.len() ==> page_decision(
                original,
                repair_pages(original, pages)->Ok_0.0,
                #[trigger] pages[i],
            ) == Ok::<Option<int>, RepairError>(None),
    decreases pages.len(),
{
    if pages.len() > 0 {
        let before = repair_pages(original, pages.drop_last())->Ok_0;
        let after = repair_pages(original, pages)->Ok_0;
        let page = pages.last();
        lemma_handled_pages_are_settled(original, pages.drop_last());
        match page_decision(original, before.0, page) {
            Ok(Some(k)) => {
                let candidate = candidate_pool(original)[k];
                let target = page_target(before.0, page);
                let s = law_replacement_is_verbatim(original, before, page, k);
                assert forall|i: int| 0 <= i < pages.len() implies page_decision(
                    original,
                    after.0,
                    #[trigger] pages[i],
                ) == Ok::<Option<int>, RepairError>(None) by {
                    lemma_with_annotations_resolve(before.0, target, candidate, pages[i]);
                    if i < pages.len() - 1 {
                        assert(pages.drop_last()[i] == pages[i]);
                    }
                }
            },
            _ => {
                assert forall|i: int| 0 <= i < pages.len() implies page_decision(
                    original,
                    after.0,
                    #[trigger] pages[i],
                ) == Ok::<Option<int>, RepairError>(None) by {
                    if i < pages.len() - 1 {
                        assert(pages.drop_last()[i] == pages[i]);
                    }
                }
            },
        }
    }
}

/// Repairing a repaired graph changes nothing and counts nothing, where
/// the pool of the graph is settled. Where candidates nest, or a candidate
/// refers to a null object, a second repair may replace a list again.
pub proof fn law_repair_is_idempotent(graph: GraphView)
    requires
        pool_is_settled(graph.objects),
        repaired(graph) is Ok,
    ensures
        repaired(repaired(graph)->Ok_0.0) == Ok::<(GraphView, nat), RepairError>(
            (repaired(graph)->Ok_0.0, 0nat),
        ),
{
    let fixed = repaired(graph)->Ok_0.0;
    lemma_handled_pages_are_settled(graph.objects, graph.pages);
    lemma_pages_drawn_or_kept(graph.objects, graph.pages);
    assert forall|i: int| 0 <= i < fixed.pages.len() implies page_decision(
        fixed.objects,
        fixed.objects,
        #[trigger] fixed.pages[i],
    ) == Ok::<Option<int>, RepairError>(None) by {
        lemma_decision_by_shape(graph.objects, fixed.objects, fixed.pages[i]);
    }
    law_no_match_changes_nothing(fixed);
}

} // verus!
