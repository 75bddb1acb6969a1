//! The recovery itself: the candidate pool, the decision for one page, and
//! the pass over all pages.

use vstd::prelude::*;
use vstd::seq_lib::lemma_seq_contains_after_push;
use crate::model::{
    is_first_index, is_null_object, is_reference_array, lemma_lookup_first, lookup, objects_view,
    resolve,
    reference_ids, references_to, AnnotationList, AnnotationListView, Element, Graph, GraphView,
    ObjectId, Objects, RepairError, Value, ValueView,
};
use crate::select::{
    added_by, added_count, find_candidate, first_match, pool_view,
};

verus! {

/// The candidate pool: the identifiers of every array made of references
/// only, array by array in storage order, each in the array's own order.
pub open spec fn candidate_pool(objects: Objects) -> Seq<Seq<ObjectId>>
    decreases objects.len(),
{
    if objects.len() == 0 {
        Seq::empty()
    } else {
        let rest = candidate_pool(objects.drop_last());
        match objects.last().1 {
            ValueView::Array(items) => if is_reference_array(items) {
                rest.push(reference_ids(items))
            } else {
                rest
            },
            _ => rest,
        }
    }
}

/// The identifiers that an annotation array counts for: those of its
/// references that do not address a null object.
pub open spec fn live_ids(objects: Objects, items: Seq<Element>) -> Set<ObjectId> {
    Set::new(
        |id: ObjectId| items.contains(Element::Reference(id)) && !is_null_object(objects, id),
    )
}

/// The current annotation set of a page with the given annotation list.
pub open spec fn current_ids(objects: Objects, annots: AnnotationListView) -> Set<ObjectId> {
    match annots {
        AnnotationListView::Single(id) => Set::empty().insert(id),
        AnnotationListView::List(items) => live_ids(objects, items),
        _ => Set::empty(),
    }
}

/// What is decided for one page: an error, nothing to do, or the place in
/// the pool of the candidate that replaces the page's annotation list.
/// Null objects and candidates are those of `original`; the page is
/// resolved in `current` and read from there.
pub open spec fn page_decision(original: Objects, current: Objects, page: ObjectId) -> Result<
    Option<int>,
    RepairError,
> {
    match resolve(current, page) {
        None => Err(RepairError::UnresolvedPage(page)),
        Some((_, ValueView::Dictionary(annots))) => match annots {
            AnnotationListView::Absent => Ok(None),
            AnnotationListView::Invalid => Err(RepairError::InvalidAnnotationList(page)),
            _ => Ok(first_match(candidate_pool(original), current_ids(original, annots))),
        },
        Some(_) => Err(RepairError::NotADictionary(page)),
    }
}

/// The annotation list of a page that resolves to a dictionary.
pub open spec fn page_annotations(objects: Objects, page: ObjectId) -> AnnotationListView {
    match resolve(objects, page) {
        Some((_, ValueView::Dictionary(annots))) => annots,
        _ => AnnotationListView::Absent,
    }
}

/// The identifier of the object that a page resolves to.
pub open spec fn page_target(objects: Objects, page: ObjectId) -> ObjectId {
    match resolve(objects, page) {
        Some((target, _)) => target,
        None => page,
    }
}

/// Some page resolves to the object of this identifier.
pub open spec fn is_page_target(objects: Objects, pages: Seq<ObjectId>, id: ObjectId) -> bool {
    exists|i: int| 0 <= i < pages.len() && page_target(objects, #[trigger] pages[i]) == id
}

/// The objects with the annotation list of the dictionary that `page`
/// addresses set to references to `ids`, in their order. Nothing else
/// changes.
pub open spec fn with_annotations(objects: Objects, page: ObjectId, ids: Seq<ObjectId>) -> Objects {
    Seq::new(
        objects.len(),
        |j: int|
            if is_first_index(objects, page, j) {
                (page, ValueView::Dictionary(AnnotationListView::List(references_to(ids))))
            } else {
                objects[j]
            },
    )
}

/// One page's step: the objects and the count after the page was handled.
pub open spec fn repair_page(original: Objects, state: (Objects, nat), page: ObjectId) -> Result<
    (Objects, nat),
    RepairError,
> {
    match page_decision(original, state.0, page) {
        Err(e) => Err(e),
        Ok(None) => Ok(state),
        Ok(Some(k)) => {
            let candidate = candidate_pool(original)[k];
            let current = current_ids(original, page_annotations(state.0, page));
            Ok(
                (
                    with_annotations(state.0, page_target(state.0, page), candidate),
                    state.1 + added_by(candidate, current),
                ),
            )
        },
    }
}

/// The pages handled one after another, starting from `original` and a
/// count of zero. The first page that fails ends the pass with its error.
pub open spec fn repair_pages(original: Objects, pages: Seq<ObjectId>) -> Result<
    (Objects, nat),
    RepairError,
>
    decreases pages.len(),
{
    if pages.len() == 0 {
        Ok((original, 0nat))
    } else {
        match repair_pages(original, pages.drop_last()) {
            Err(e) => Err(e),
            Ok(state) => repair_page(original, state, pages.last()),
        }
    }
}

/// The repaired graph and the number of annotations added, or the error.
pub open spec fn repaired(graph: GraphView) -> Result<(GraphView, nat), RepairError> {
    match repair_pages(graph.objects, graph.pages) {
        Err(e) => Err(e),
        Ok(state) => Ok((GraphView { objects: state.0, pages: graph.pages }, state.1)),
    }
}

/// Two object sequences carry the same identifiers in the same places, and
/// differ at most in what their dictionaries hold.
pub open spec fn same_shape(a: Objects, b: Objects) -> bool {
    &&& a.len() == b.len()
    &&& forall|j: int|
        0 <= j < a.len() ==> (#[trigger] a[j]).0 == b[j].0 && (a[j].1 == b[j].1 || (a[j].1 is Dictionary
            && b[j].1 is Dictionary))
}

/// Objects of the same shape have the same first indices.
pub proof fn lemma_same_shape_index(a: Objects, b: Objects, id: ObjectId, k: int)
    requires
        same_shape(a, b),
    ensures
        is_first_index(a, id, k) == is_first_index(b, id, k),
{
    if is_first_index(a, id, k) {
        assert(a[k].0 == b[k].0);
        assert forall|j: int| 0 <= j < k implies (#[trigger] b[j]).0 != id by {
            assert(a[j].0 == b[j].0);
        }
    }
    if is_first_index(b, id, k) {
        assert(a[k].0 == b[k].0);
        assert forall|j: int| 0 <= j < k implies (#[trigger] a[j]).0 != id by {
            assert(a[j].0 == b[j].0);
        }
    }
}

/// Objects of the same shape address, under an identifier, values that
/// are equal or are both dictionaries.
pub proof fn lemma_same_shape_lookup(a: Objects, b: Objects, id: ObjectId)
    requires
        same_shape(a, b),
    ensures
        lookup(a, id) is Some == lookup(b, id) is Some,
        lookup(a, id) matches Some(v) ==> (lookup(b, id) == Some(v) || (v is Dictionary
            && lookup(b, id)->Some_0 is Dictionary)),
{
    if exists|k: int| is_first_index(a, id, k) {
        let k = choose|k: int| is_first_index(a, id, k);
        lemma_same_shape_index(a, b, id, k);
        lemma_lookup_first(a, id, k);
        lemma_lookup_first(b, id, k);
        assert(a[k].0 == b[k].0);
    } else if exists|k: int| is_first_index(b, id, k) {
        let k = choose|k: int| is_first_index(b, id, k);
        lemma_same_shape_index(a, b, id, k);
    }
}

/// Objects of the same shape resolve an identifier to the same object,
/// with values that are equal or are both dictionaries.
pub proof fn lemma_same_shape_resolve(a: Objects, b: Objects, id: ObjectId)
    requires
        same_shape(a, b),
    ensures
        resolve(a, id) is Some == resolve(b, id) is Some,
        page_target(a, id) == page_target(b, id),
        resolve(a, id) matches Some(found) ==> (resolve(b, id) == Some(found) || (
        found.1 is Dictionary && resolve(b, id)->Some_0.1 is Dictionary)),
{
    lemma_same_shape_lookup(a, b, id);
    match lookup(a, id) {
        Some(ValueView::Alias(Some(target))) => {
            lemma_same_shape_lookup(a, b, target);
        },
        _ => {},
    }
}

/// Objects of the same shape have the same null objects.
pub proof fn lemma_same_shape_null(a: Objects, b: Objects, id: ObjectId)
    requires
        same_shape(a, b),
    ensures
        is_null_object(a, id) == is_null_object(b, id),
{
    lemma_same_shape_resolve(a, b, id);
}

/// Objects of the same shape have the same candidate pool.
pub proof fn lemma_same_shape_pool(a: Objects, b: Objects)
    requires
        same_shape(a, b),
    ensures
        candidate_pool(a) == candidate_pool(b),
    decreases a.len(),
{
    if a.len() > 0 {
        assert(a.last().0 == b.last().0);
        assert forall|j: int| 0 <= j < a.drop_last().len() implies (#[trigger] a.drop_last()[j]).0
            == b.drop_last()[j].0 && (a.drop_last()[j].1 == b.drop_last()[j].1 || (
        a.drop_last()[j].1 is Dictionary && b.drop_last()[j].1 is Dictionary)) by {
            assert(a[j].0 == b[j].0);
        }
        lemma_same_shape_pool(a.drop_last(), b.drop_last());
    }
}

/// Objects of the same shape count the same identifiers for an array.
pub proof fn lemma_same_shape_current(a: Objects, b: Objects, annots: AnnotationListView)
    requires
        same_shape(a, b),
    ensures
        current_ids(a, annots) == current_ids(b, annots),
{
    match annots {
        AnnotationListView::List(items) => {
            assert forall|id: ObjectId|
                live_ids(a, items).contains(id) == live_ids(b, items).contains(id) by {
                lemma_same_shape_null(a, b, id);
            }
            assert(live_ids(a, items) =~= live_ids(b, items));
        },
        _ => {},
    }
}

/// Setting the annotation list of a page that is a dictionary keeps the
/// shape of the objects.
pub proof fn lemma_with_annotations_shape(objects: Objects, page: ObjectId, ids: Seq<ObjectId>)
    requires
        lookup(objects, page) matches Some(v) && v is Dictionary,
    ensures
        same_shape(with_annotations(objects, page, ids), objects),
{
    let next = with_annotations(objects, page, ids);
    assert forall|j: int| 0 <= j < next.len() implies (#[trigger] next[j]).0 == objects[j].0 && (
    next[j].1 == objects[j].1 || (next[j].1 is Dictionary && objects[j].1 is Dictionary)) by {
        if is_first_index(objects, page, j) {
            lemma_lookup_first(objects, page, j);
        }
    }
}

/// Being of the same shape is transitive.
pub proof fn lemma_same_shape_trans(a: Objects, b: Objects, c: Objects)
    requires
        same_shape(a, b),
        same_shape(b, c),
    ensures
        same_shape(a, c),
{
    assert forall|j: int| 0 <= j < a.len() implies (#[trigger] a[j]).0 == c[j].0 && (a[j].1 == c[j].1
        || (a[j].1 is Dictionary && c[j].1 is Dictionary)) by {
        assert(a[j].0 == b[j].0);
        assert(b[j].0 == c[j].0);
    }
}

/// An error at one page is the error of the whole pass.
pub proof fn lemma_error_ends_pass(original: Objects, pages: Seq<ObjectId>, n: int)
    requires
        0 <= n <= pages.len(),
        repair_pages(original, pages.take(n)) is Err,
    ensures
        repair_pages(original, pages) == repair_pages(original, pages.take(n)),
    decreases pages.len(),
{
    if n == pages.len() {
        assert(pages.take(n) =~= pages);
    } else {
        assert(pages.drop_last().take(n) =~= pages.take(n));
        lemma_error_ends_pass(original, pages.drop_last(), n);
    }
}

/// The identifiers of an array, if all its elements are references.
pub fn reference_array_ids(items: &Vec<Element>) -> (found: Option<Vec<ObjectId>>)
    ensures
        match found {
            Some(ids) => is_reference_array(items@) && ids@ == reference_ids(items@),
            None => !is_reference_array(items@),
        },
{
    let mut ids: Vec<ObjectId> = Vec::new();
    let mut i: usize = 0;
    while i < items.len()
        invariant
            i <= items.len(),
            ids@.len() == i,
            forall|j: int| 0 <= j < i ==> (#[trigger] items@[j]) is Reference,
            forall|j: int| 0 <= j < i ==> ids@[j] == items@[j]->Reference_0,
        decreases items.len() - i,
    {
        match items[i] {
            Element::Reference(id) => {
                ids.push(id);
            },
            Element::Literal => {
                assert(!(items@[i as int] is Reference));
                return None;
            },
        }
        i += 1;
    }
    assert(ids@ =~= reference_ids(items@));
    Some(ids)
}

/// The candidate pool of the objects.
pub fn build_pool(objects: &Vec<(ObjectId, Value)>) -> (pool: Vec<Vec<ObjectId>>)
    ensures
        pool_view(pool@) == candidate_pool(objects_view(objects@)),
{
    let mut pool: Vec<Vec<ObjectId>> = Vec::new();
    let mut i: usize = 0;
    let ghost all = objects_view(objects@);
    assert(pool_view(pool@) =~= candidate_pool(all.take(0)));
    while i < objects.len()
        invariant
            i <= objects.len(),
            all == objects_view(objects@),
            pool_view(pool@) == candidate_pool(all.take(i as int)),
        decreases objects.len() - i,
    {
        proof {
            assert(all.take(i + 1).drop_last() =~= all.take(i as int));
            assert(all.take(i + 1).last() == all[i as int]);
        }
        let ghost before = pool_view(pool@);
        match &objects[i].1 {
            Value::Array(items) => {
                match reference_array_ids(items) {
                    Some(ids) => {
                        pool.push(ids);
                        assert(pool_view(pool@) =~= before.push(reference_ids(items@)));
                    },
                    None => {},
                }
            },
            _ => {},
        }
        i += 1;
    }
    assert(all.take(objects.len() as int) =~= all);
    pool
}

/// The identifiers that an annotation array counts for, in the array's
/// order and as often as the array lists them.
pub open spec fn live_list(objects: Objects, items: Seq<Element>) -> Seq<ObjectId>
    decreases items.len(),
{
    if items.len() == 0 {
        Seq::empty()
    } else {
        let rest = live_list(objects, items.drop_last());
        match items.last() {
            Element::Reference(id) => if is_null_object(objects, id) {
                rest
            } else {
                rest.push(id)
            },
            Element::Literal => rest,
        }
    }
}

/// The members of the list are the current set.
pub proof fn lemma_live_list_is_live_ids(objects: Objects, items: Seq<Element>)
    ensures
        live_list(objects, items).to_set() == live_ids(objects, items),
    decreases items.len(),
{
    let list = live_list(objects, items);
    if items.len() == 0 {
        assert(list.to_set() =~= live_ids(objects, items));
    } else {
        let front = items.drop_last();
        let rest = live_list(objects, front);
        lemma_live_list_is_live_ids(objects, front);
        assert(items =~= front.push(items.last()));
        assert forall|x: ObjectId| list.to_set().contains(x) == live_ids(objects, items).contains(
            x,
        ) by {
            lemma_seq_contains_after_push(front, items.last(), Element::Reference(x));
            assert(rest.to_set().contains(x) == live_ids(objects, front).contains(x));
            match items.last() {
                Element::Reference(id) => {
                    if !is_null_object(objects, id) {
                        lemma_seq_contains_after_push(rest, id, x);
                    }
                },
                Element::Literal => {},
            }
        }
        assert(list.to_set() =~= live_ids(objects, items));
    }
}

/// The identifiers that an annotation array counts for, in the array's
/// order: its references that do not address a null object of the graph.
pub fn live_identifiers(graph: &Graph, items: &Vec<Element>) -> (ids: Vec<ObjectId>)
    ensures
        ids@ == live_list(graph@.objects, items@),
        ids@.to_set() == live_ids(graph@.objects, items@),
{
    let mut ids: Vec<ObjectId> = Vec::new();
    let mut i: usize = 0;
    while i < items.len()
        invariant
            i <= items.len(),
            ids@ == live_list(graph@.objects, items@.take(i as int)),
        decreases items.len() - i,
    {
        proof {
            assert(items@.take(i + 1).drop_last() =~= items@.take(i as int));
            assert(items@.take(i + 1).last() == items@[i as int]);
        }
        match items[i] {
            Element::Reference(id) => {
                if !graph.is_null(id) {
                    ids.push(id);
                }
            },
            Element::Literal => {},
        }
        i += 1;
    }
    proof {
        assert(items@.take(items.len() as int) =~= items@);
        lemma_live_list_is_live_ids(graph@.objects, items@);
    }
    ids
}

/// Decides one page against the graph as it stands: the identifier of the
/// dictionary that the page resolves to, the place in the pool of the
/// candidate that replaces its annotation list, and the number of
/// annotations that this adds; nothing; or the page's error.
pub fn decide_page(graph: &Graph, pool: &Vec<Vec<ObjectId>>, page: ObjectId) -> (decision: Result<
    Option<(ObjectId, usize, usize)>,
    RepairError,
>)
    requires
        pool_view(pool@) == candidate_pool(graph@.objects),
    ensures
        match decision {
            Err(e) => page_decision(graph@.objects, graph@.objects, page) == Err::<
                Option<int>,
                RepairError,
            >(e),
            Ok(None) => page_decision(graph@.objects, graph@.objects, page) == Ok::<
                Option<int>,
                RepairError,
            >(None),
            Ok(Some((target, k, added))) => {
                &&& page_decision(graph@.objects, graph@.objects, page) == Ok::<
                    Option<int>,
                    RepairError,
                >(Some(k as int))
                &&& k < pool.len()
                &&& target == page_target(graph@.objects, page)
                &&& lookup(graph@.objects, target) matches Some(v) && v is Dictionary
                &&& added == added_by(
                    pool@[k as int]@,
                    current_ids(graph@.objects, page_annotations(graph@.objects, page)),
                )
                &&& added <= pool@[k as int]@.len()
            },
        },
{
    let k = match graph.resolve(page) {
        Some(k) => k,
        None => {
            return Err(RepairError::UnresolvedPage(page));
        },
    };
    let target = graph.objects[k].0;
    proof {
        lemma_lookup_first(graph@.objects, target, k as int);
    }
    let current: Vec<ObjectId> = match &graph.objects[k].1 {
        Value::Dictionary(annots) => match annots {
            AnnotationList::Absent => {
                return Ok(None);
            },
            AnnotationList::Invalid => {
                return Err(RepairError::InvalidAnnotationList(page));
            },
            AnnotationList::Single(id) => {
                let mut one: Vec<ObjectId> = Vec::new();
                one.push(*id);
                proof {
                    assert(one@ =~= Seq::empty().push(*id));
                    assert(one@[0] == *id);
                    assert(one@.to_set() =~= Set::empty().insert(*id));
                }
                one
            },
            AnnotationList::List(items) => live_identifiers(graph, items),
        },
        _ => {
            return Err(RepairError::NotADictionary(page));
        },
    };
    match find_candidate(pool, &current) {
        Some(c) => {
            assert(pool_view(pool@)[c as int] == pool@[c as int]@);
            let added = added_count(&pool[c], &current);
            Ok(Some((target, c, added)))
        },
        None => Ok(None),
    }
}

/// Sets the annotation list of the page to references to `ids`, in their
/// order.
pub fn replace_annotations(graph: &mut Graph, page: ObjectId, ids: &Vec<ObjectId>)
    requires
        lookup(old(graph)@.objects, page) matches Some(v) && v is Dictionary,
    ensures
        final(graph)@.objects == with_annotations(old(graph)@.objects, page, ids@),
        final(graph)@.pages == old(graph)@.pages,
{
    let mut items: Vec<Element> = Vec::new();
    let mut i: usize = 0;
    while i < ids.len()
        invariant
            i <= ids.len(),
            items@.len() == i,
            forall|j: int| 0 <= j < i ==> items@[j] == Element::Reference(ids@[j]),
        decreases ids.len() - i,
    {
        items.push(Element::Reference(ids[i]));
        i += 1;
    }
    assert(items@ =~= references_to(ids@));
    match graph.find(page) {
        Some(k) => {
            let ghost before = graph@.objects;
            graph.objects.set(k, (page, Value::Dictionary(AnnotationList::List(items))));
            proof {
                let after = graph@.objects;
                let expected = with_annotations(before, page, ids@);
                assert forall|j: int| 0 <= j < after.len() implies after[j] == expected[j] by {
                    if is_first_index(before, page, j) {
                        lemma_lookup_first(before, page, j);
                        lemma_lookup_first(before, page, k as int);
                    } else {
                    }
                }
                assert(after =~= expected);
            }
        },
        None => {},
    }
}

/// For objects of the shape of the original, the decision for a page read
/// from them is the same whether null objects and candidates are taken
/// from them or from the original.
pub proof fn lemma_decision_by_shape(original: Objects, current: Objects, page: ObjectId)
    requires
        same_shape(current, original),
    ensures
        page_decision(original, current, page) == page_decision(current, current, page),
{
    lemma_same_shape_pool(current, original);
    lemma_same_shape_current(current, original, page_annotations(current, page));
}

/// One more page of a pass: with the first `i` pages handled, the next
/// page is decided on the objects as they stand, its step is the step of
/// the pass, its error is the error of the whole pass, and the objects
/// keep the shape of the original.
pub proof fn lemma_pass_step(
    original: Objects,
    pages: Seq<ObjectId>,
    i: int,
    current: Objects,
    count: nat,
)
    requires
        0 <= i < pages.len(),
        same_shape(current, original),
        repair_pages(original, pages.take(i)) == Ok::<(Objects, nat), RepairError>(
            (current, count),
        ),
    ensures
        candidate_pool(current) == candidate_pool(original),
        page_decision(original, current, pages[i]) == page_decision(current, current, pages[i]),
        current_ids(original, page_annotations(current, pages[i])) == current_ids(
            current,
            page_annotations(current, pages[i]),
        ),
        repair_pages(original, pages.take(i + 1)) == repair_page(
            original,
            (current, count),
            pages[i],
        ),
        repair_pages(original, pages.take(i + 1)) is Err ==> repair_pages(original, pages)
            == repair_pages(original, pages.take(i + 1)),
        repair_pages(original, pages.take(i + 1)) matches Ok(next) ==> same_shape(
            next.0,
            original,
        ),
        page_target(current, pages[i]) == page_target(original, pages[i]),
{
    let page = pages[i];
    assert(pages.take(i + 1).drop_last() =~= pages.take(i));
    assert(pages.take(i + 1).last() == page);
    lemma_same_shape_pool(current, original);
    lemma_same_shape_current(current, original, page_annotations(current, page));
    lemma_decision_by_shape(original, current, page);
    if repair_pages(original, pages.take(i + 1)) is Err {
        lemma_error_ends_pass(original, pages, i + 1);
    }
    lemma_same_shape_resolve(current, original, page);
    match page_decision(original, current, page) {
        Ok(Some(k)) => {
            let candidate = candidate_pool(original)[k];
            let target = page_target(current, page);
            lemma_with_annotations_shape(current, target, candidate);
            lemma_same_shape_trans(with_annotations(current, target, candidate), current, original);
        },
        _ => {},
    }
}

/// A count that is at most `i` machine words of size, with one more added,
/// is at most `i + 1` of them and fits in 128 bits.
pub proof fn lemma_count_fits(i: usize, count: u128, added: usize)
    requires
        count <= i * usize::MAX,
        i < usize::MAX,
    ensures
        count + added <= (i + 1) * usize::MAX,
        count <= (i + 1) * usize::MAX,
        (i + 1) * usize::MAX <= u128::MAX,
{
    assert((i + 1) * usize::MAX == i * usize::MAX + usize::MAX) by (nonlinear_arith);
    assert((i + 1) * usize::MAX <= usize::MAX * usize::MAX) by (nonlinear_arith)
        requires
            0 <= i + 1 <= usize::MAX,
    ;
    assert(usize::MAX * usize::MAX <= u128::MAX) by (nonlinear_arith)
        requires
            usize::MAX <= 0xffff_ffff_ffff_ffff,
    ;
}

/// Repairs the graph: every page whose current annotation set is strictly
/// contained in a candidate of the pool gets the first such candidate as
/// its annotation list. Returns the repaired graph and the number of
/// annotations added over all pages, or the error of the first page that
/// cannot be handled.
pub fn repair(graph: Graph) -> (outcome: Result<(Graph, u128), RepairError>)
    ensures
        match outcome {
            Ok((fixed, count)) => repaired(graph@) == Ok::<(GraphView, nat), RepairError>(
                (fixed@, count as nat),
            ),
            Err(e) => repaired(graph@) == Err::<(GraphView, nat), RepairError>(e),
        },
{
    let ghost original = graph@.objects;
    let ghost pages = graph@.pages;
    let pool = build_pool(&graph.objects);
    let mut work = graph;
    let mut count: u128 = 0;
    let mut i: usize = 0;
    proof {
        assert(pages.take(0) =~= Seq::empty());
    }
    while i < work.pages.len()
        invariant
            i <= work.pages.len(),
            original == graph@.objects,
            pages == graph@.pages,
            work@.pages == pages,
            same_shape(work@.objects, original),
            pool_view(pool@) == candidate_pool(original),
            repair_pages(original, pages.take(i as int)) == Ok::<(Objects, nat), RepairError>(
                (work@.objects, count as nat),
            ),
            count <= i * usize::MAX,
        decreases work.pages.len() - i,
    {
        let page = work.pages[i];
        proof {
            lemma_pass_step(original, pages, i as int, work@.objects, count as nat);
        }
        match decide_page(&work, &pool, page) {
            Err(e) => {
                return Err(e);
            },
            Ok(None) => {
                proof {
                    lemma_count_fits(i, count, 0);
                }
            },
            Ok(Some((target, k, added))) => {
                proof {
                    assert(pool_view(pool@)[k as int] == pool@[k as int]@);
                    lemma_count_fits(i, count, added);
                }
                replace_annotations(&mut work, target, &pool[k]);
                count = count + (added as u128);
            },
        }
        i += 1;
    }
    proof {
        assert(pages.take(work.pages.len() as int) =~= pages);
    }
    Ok((work, count))
}

} // verus!
