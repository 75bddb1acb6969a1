//! The object graph as the recovery reads it.

use vstd::prelude::*;

verus! {

/// The key of one object within a document.
#[derive(PartialEq, Eq, Structural, Clone, Copy, Debug, Hash)]
pub struct ObjectId {
    pub number: u32,
    pub generation: u16,
}

/// One element of an array: an indirect reference, or anything else.
#[derive(PartialEq, Eq, Structural, Clone, Copy, Debug)]
pub enum Element {
    Reference(ObjectId),
    Literal,
}

/// What a dictionary holds under its annotation-list key.
#[derive(PartialEq, Eq, Clone, Debug)]
pub enum AnnotationList {
    /// The key is missing.
    Absent,
    /// A single indirect reference.
    Single(ObjectId),
    /// An array, element by element.
    List(Vec<Element>),
    /// Any other value.
    Invalid,
}

/// An object of the graph, reduced to what the recovery looks at.
#[derive(PartialEq, Eq, Clone, Debug)]
pub enum Value {
    Null,
    Array(Vec<Element>),
    Dictionary(AnnotationList),
    /// A reference stored as an object of its own. It holds the identifier
    /// of the object that it stands for, or nothing where following it
    /// ends at no object.
    Alias(Option<ObjectId>),
    /// Anything else: a boolean, number, string, name or stream.
    Other,
}

/// A document: its objects in storage order and the identifiers of its
/// pages in enumeration order. An identifier that occurs more than once
/// among the objects addresses its first occurrence.
#[derive(PartialEq, Eq, Clone, Debug)]
pub struct Graph {
    pub objects: Vec<(ObjectId, Value)>,
    pub pages: Vec<ObjectId>,
}

/// Why a recovery was abandoned.
#[derive(PartialEq, Eq, Structural, Clone, Copy, Debug)]
pub enum RepairError {
    /// The input bytes do not form a document.
    Parse,
    /// The page's identifier resolves to no object.
    UnresolvedPage(ObjectId),
    /// The object that the page resolves to is not a dictionary.
    NotADictionary(ObjectId),
    /// The page's annotation list is neither an array nor a single reference.
    InvalidAnnotationList(ObjectId),
    /// The repaired document could not be written.
    Serialize,
}

pub enum AnnotationListView {
    Absent,
    Single(ObjectId),
    List(Seq<Element>),
    Invalid,
}

pub enum ValueView {
    Null,
    Array(Seq<Element>),
    Dictionary(AnnotationListView),
    Alias(Option<ObjectId>),
    Other,
}

/// The objects of a graph: identifier and value, in storage order.
pub type Objects = Seq<(ObjectId, ValueView)>;

pub struct GraphView {
    pub objects: Objects,
    pub pages: Seq<ObjectId>,
}

impl View for AnnotationList {
    type V = AnnotationListView;

    open spec fn view(&self) -> AnnotationListView {
        match *self {
            AnnotationList::Absent => AnnotationListView::Absent,
            AnnotationList::Single(id) => AnnotationListView::Single(id),
            AnnotationList::List(items) => AnnotationListView::List(items@),
            AnnotationList::Invalid => AnnotationListView::Invalid,
        }
    }
}

impl View for Value {
    type V = ValueView;

    open spec fn view(&self) -> ValueView {
        match *self {
            Value::Null => ValueView::Null,
            Value::Array(items) => ValueView::Array(items@),
            Value::Dictionary(annots) => ValueView::Dictionary(annots@),
            Value::Alias(target) => ValueView::Alias(target),
            Value::Other => ValueView::Other,
        }
    }
}

/// The objects of a vector, each value by its view.
pub open spec fn objects_view(objects: Seq<(ObjectId, Value)>) -> Objects {
    Seq::new(objects.len(), |i: int| (objects[i].0, objects[i].1@))
}

impl View for Graph {
    type V = GraphView;

    open spec fn view(&self) -> GraphView {
        GraphView { objects: objects_view(self.objects@), pages: self.pages@ }
    }
}

/// `k` is the first place at which `id` occurs among `objects`.
pub open spec fn is_first_index(objects: Objects, id: ObjectId, k: int) -> bool {
    &&& 0 <= k < objects.len()
    &&& objects[k].0 == id
    &&& forall|j: int| 0 <= j < k ==> (#[trigger] objects[j]).0 != id
}

/// `id` occurs among `objects`.
pub open spec fn is_present(objects: Objects, id: ObjectId) -> bool {
    exists|k: int| is_first_index(objects, id, k)
}

/// The value that `id` addresses, if any.
pub open spec fn lookup(objects: Objects, id: ObjectId) -> Option<ValueView> {
    if is_present(objects, id) {
        Some(objects[choose|k: int| is_first_index(objects, id, k)].1)
    } else {
        None
    }
}

/// The object that `id` resolves to, with its identifier: the object that
/// `id` addresses or, where that is an alias, the object that the alias
/// stands for.
pub open spec fn resolve(objects: Objects, id: ObjectId) -> Option<(ObjectId, ValueView)> {
    match lookup(objects, id) {
        None => None,
        Some(ValueView::Alias(None)) => None,
        Some(ValueView::Alias(Some(target))) => match lookup(objects, target) {
            Some(value) => Some((target, value)),
            None => None,
        },
        Some(value) => Some((id, value)),
    }
}

/// `id` resolves to a null object.
pub open spec fn is_null_object(objects: Objects, id: ObjectId) -> bool {
    resolve(objects, id) matches Some(found) && found.1 is Null
}

/// Every element of the array is an indirect reference.
pub open spec fn is_reference_array(items: Seq<Element>) -> bool {
    forall|i: int| 0 <= i < items.len() ==> (#[trigger] items[i]) is Reference
}

/// The identifiers of an array of references, in the array's order.
pub open spec fn reference_ids(items: Seq<Element>) -> Seq<ObjectId> {
    Seq::new(items.len(), |i: int| items[i]->Reference_0)
}

/// The array of references to `ids`, in their order.
pub open spec fn references_to(ids: Seq<ObjectId>) -> Seq<Element> {
    Seq::new(ids.len(), |i: int| Element::Reference(ids[i]))
}

/// A first index addresses the value that `lookup` gives.
pub proof fn lemma_lookup_first(objects: Objects, id: ObjectId, k: int)
    requires
        is_first_index(objects, id, k),
    ensures
        is_present(objects, id),
        lookup(objects, id) == Some(objects[k].1),
{
    let c = choose|c: int| is_first_index(objects, id, c);
    assert(is_first_index(objects, id, c));
    if c < k {
        assert(objects[c].0 != id);
    }
    if k < c {
        assert(objects[k].0 != id);
    }
}

/// An identifier that no object carries addresses nothing.
pub proof fn lemma_lookup_missing(objects: Objects, id: ObjectId)
    requires
        forall|j: int| 0 <= j < objects.len() ==> (#[trigger] objects[j]).0 != id,
    ensures
        !is_present(objects, id),
        lookup(objects, id) is None,
{
    if is_present(objects, id) {
        let c = choose|c: int| is_first_index(objects, id, c);
        assert(objects[c].0 != id);
    }
}

impl Graph {
    /// The place of the object that `id` addresses.
    pub fn find(&self, id: ObjectId) -> (found: Option<usize>)
        ensures
            match found {
                Some(k) => is_first_index(self@.objects, id, k as int),
                None => !is_present(self@.objects, id),
            },
            found is Some <==> is_present(self@.objects, id),
    {
        let mut i: usize = 0;
        while i < self.objects.len()
            invariant
                i <= self.objects.len(),
                forall|j: int| 0 <= j < i ==> (#[trigger] self@.objects[j]).0 != id,
            decreases self.objects.len() - i,
        {
            if self.objects[i].0 == id {
                proof {
                    lemma_lookup_first(self@.objects, id, i as int);
                }
                return Some(i);
            }
            i += 1;
        }
        proof {
            lemma_lookup_missing(self@.objects, id);
        }
        None
    }

    /// The place of the object that `id` resolves to.
    pub fn resolve(&self, id: ObjectId) -> (found: Option<usize>)
        ensures
            match found {
                Some(k) => k < self.objects.len() && is_first_index(
                    self@.objects,
                    self@.objects[k as int].0,
                    k as int,
                ) && resolve(self@.objects, id) == Some(self@.objects[k as int]),
                None => resolve(self@.objects, id) is None,
            },
    {
        match self.find(id) {
            None => None,
            Some(k) => {
                proof {
                    lemma_lookup_first(self@.objects, id, k as int);
                }
                match &self.objects[k].1 {
                    Value::Alias(target) => match target {
                        None => None,
                        Some(t) => match self.find(*t) {
                            None => None,
                            Some(n) => {
                                proof {
                                    lemma_lookup_first(self@.objects, *t, n as int);
                                }
                                Some(n)
                            },
                        },
                    },
                    _ => Some(k),
                }
            },
        }
    }

    /// Whether `id` resolves to a null object.
    pub fn is_null(&self, id: ObjectId) -> (null: bool)
        ensures
            null == is_null_object(self@.objects, id),
    {
        match self.resolve(id) {
            Some(k) => match &self.objects[k].1 {
                Value::Null => true,
                _ => false,
            },
            None => false,
        }
    }
}

} // verus!
