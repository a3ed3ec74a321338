//! The whiteboard scene graph engine: elements and a camera, changed only by
//! command batches that are checked against the revision and that take
//! effect whole or not at all.
//!
//! An element's transform and attributes, and the camera, are held as their
//! JSON text: the engine copies them and never reads inside them.

use vstd::prelude::*;
use vstd::set_lib::lemma_len_subset;
use crate::text::{chars_of, same_text, string_of};
use crate::whiteboard::id_views;
use crate::sheet_name::trim;
use crate::commands::is_blank;

verus! {

/// One element of the scene, with the ids of its children.
#[derive(Debug, Clone, PartialEq, Eq)]
pub struct SceneElement {
    pub id: String,
    pub type_id: String,
    pub transform: String,
    pub attrs: String,
    pub children: Vec<String>,
}

/// An element by its texts.
pub struct ElementView {
    pub id: Seq<char>,
    pub type_id: Seq<char>,
    pub transform: Seq<char>,
    pub attrs: Seq<char>,
    pub children: Seq<Seq<char>>,
}

impl View for SceneElement {
    type V = ElementView;

    open spec fn view(&self) -> ElementView {
        ElementView {
            id: self.id@,
            type_id: self.type_id@,
            transform: self.transform@,
            attrs: self.attrs@,
            children: id_views(self.children@),
        }
    }
}

/// The elements of a scene, in order, and its camera.
#[derive(Debug, Clone, PartialEq, Eq)]
pub struct WhiteboardModel {
    pub elements: Vec<SceneElement>,
    pub camera: String,
}

/// A scene by its texts.
pub struct SceneView {
    pub elements: Seq<ElementView>,
    pub camera: Seq<char>,
}

pub open spec fn elements_view(es: Seq<SceneElement>) -> Seq<ElementView> {
    es.map_values(|e: SceneElement| e@)
}

impl View for WhiteboardModel {
    type V = SceneView;

    open spec fn view(&self) -> SceneView {
        SceneView { elements: elements_view(self.elements@), camera: self.camera@ }
    }
}

/// Why the engine refused a batch.
#[derive(Debug, Clone, PartialEq, Eq)]
pub enum WhiteboardEngineError {
    EmptyBatch,
    RevisionConflict { expected: u64, actual: u64 },
    EmptyElementIdentity,
    DuplicateElement(String),
    MissingElement(String),
    Cycle(String),
    InvalidIndex { index: usize, len: usize },
    RevisionOverflow,
}

/// A refusal by its texts.
pub enum EngineErrorView {
    EmptyBatch,
    RevisionConflict { expected: u64, actual: u64 },
    EmptyElementIdentity,
    DuplicateElement(Seq<char>),
    MissingElement(Seq<char>),
    Cycle(Seq<char>),
    InvalidIndex { index: usize, len: usize },
    RevisionOverflow,
}

impl View for WhiteboardEngineError {
    type V = EngineErrorView;

    open spec fn view(&self) -> EngineErrorView {
        match self {
            WhiteboardEngineError::EmptyBatch => EngineErrorView::EmptyBatch,
            WhiteboardEngineError::RevisionConflict { expected, actual } => EngineErrorView::RevisionConflict {
                expected: *expected,
                actual: *actual,
            },
            WhiteboardEngineError::EmptyElementIdentity => EngineErrorView::EmptyElementIdentity,
            WhiteboardEngineError::DuplicateElement(s) => EngineErrorView::DuplicateElement(s@),
            WhiteboardEngineError::MissingElement(s) => EngineErrorView::MissingElement(s@),
            WhiteboardEngineError::Cycle(s) => EngineErrorView::Cycle(s@),
            WhiteboardEngineError::InvalidIndex { index, len } => EngineErrorView::InvalidIndex {
                index: *index,
                len: *len,
            },
            WhiteboardEngineError::RevisionOverflow => EngineErrorView::RevisionOverflow,
        }
    }
}

/// The index of the first element with this id, or -1.
pub open spec fn position_of(es: Seq<ElementView>, id: Seq<char>) -> int
    decreases es.len(),
{
    if es.len() == 0 {
        -1
    } else {
        let p = position_of(es.drop_last(), id);
        if p >= 0 {
            p
        } else if es.last().id == id {
            es.len() - 1
        } else {
            -1
        }
    }
}

pub proof fn lemma_position_of(es: Seq<ElementView>, id: Seq<char>)
    ensures
        -1 <= position_of(es, id) < es.len(),
        position_of(es, id) >= 0 ==> es[position_of(es, id)].id == id,
        forall|i: int| 0 <= i < es.len() && (position_of(es, id) < 0 || i < position_of(es, id)) ==> es[i].id != id,
    decreases es.len(),
{
    if es.len() > 0 {
        lemma_position_of(es.drop_last(), id);
        assert forall|i: int| 0 <= i < es.len() && (position_of(es, id) < 0 || i < position_of(es, id)) implies es[i].id
            != id by {
            if i < es.len() - 1 {
                assert(es.drop_last()[i] == es[i]);
            }
        }
    }
}

/// The ids that deleting `root` removes, in the order a depth-first walk
/// meets them (the last child pushed is the next one taken), or the refusal:
/// an id met twice, or a child that names no element.
pub enum WalkView {
    Found(Seq<Seq<char>>),
    Failed(EngineErrorView),
}

pub open spec fn walk(es: Seq<ElementView>, stack: Seq<Seq<char>>, found: Seq<Seq<char>>, fuel: nat) -> WalkView
    decreases fuel,
{
    if stack.len() == 0 {
        WalkView::Found(found)
    } else if fuel == 0 {
        WalkView::Failed(EngineErrorView::Cycle(stack.last()))
    } else {
        let id = stack.last();
        if found.contains(id) {
            WalkView::Failed(EngineErrorView::Cycle(id))
        } else {
            let p = position_of(es, id);
            if p < 0 {
                WalkView::Failed(EngineErrorView::MissingElement(id))
            } else {
                walk(es, stack.drop_last() + es[p].children, found.push(id), (fuel - 1) as nat)
            }
        }
    }
}

/// The subtree under `root`. Each step of the walk takes an element id it
/// has not taken before, so a walk with one more step than there are
/// elements never runs out (see `lemma_walk_bound`).
pub open spec fn subtree(es: Seq<ElementView>, root: Seq<char>) -> WalkView {
    if position_of(es, root) < 0 {
        WalkView::Failed(EngineErrorView::MissingElement(root))
    } else {
        walk(es, seq![root], Seq::empty(), es.len() + 1)
    }
}

/// Distinct ids of elements are no more than the elements.
proof fn lemma_walk_bound(es: Seq<ElementView>, found: Seq<Seq<char>>)
    requires
        found.no_duplicates(),
        forall|i: int| 0 <= i < found.len() ==> position_of(es, #[trigger] found[i]) >= 0,
    ensures
        found.len() <= es.len(),
{
    let ids = es.map_values(|e: ElementView| e.id);
    assert forall|x: Seq<char>| found.to_set().contains(x) implies ids.to_set().contains(x) by {
        let i = choose|i: int| 0 <= i < found.len() && found[i] == x;
        assert(position_of(es, found[i]) >= 0);
        lemma_position_of(es, x);
        let p = position_of(es, x);
        assert(ids[p] == x);
    }
    vstd::seq_lib::seq_to_set_is_finite(ids);
    lemma_len_subset(found.to_set(), ids.to_set());
    ids.lemma_cardinality_of_set();
    found.unique_seq_to_set();
}

/// The index of the first element with this id.
pub fn find_element(es: &Vec<SceneElement>, id: &str) -> (res: Option<usize>)
    ensures
        match res {
            Some(p) => p as int == position_of(elements_view(es@), id@),
            None => position_of(elements_view(es@), id@) == -1,
        },
{
    let ghost v = elements_view(es@);
    let mut k: usize = 0;
    while k < es.len()
        invariant
            v == elements_view(es@),
            k <= es@.len(),
            forall|j: int| 0 <= j < k ==> v[j].id != id@,
        decreases es@.len() - k,
    {
        if same_text(es[k].id.as_str(), id) {
            proof {
                lemma_position_of(v, id@);
                assert(v[k as int].id == id@);
            }
            return Some(k);
        }
        k += 1;
    }
    proof {
        lemma_position_of(v, id@);
        if position_of(v, id@) >= 0 {
            assert(v[position_of(v, id@)].id == id@);
        }
    }
    None
}

/// Whether the list holds this id.
fn holds_id(ids: &Vec<String>, id: &str) -> (res: bool)
    ensures
        res == id_views(ids@).contains(id@),
{
    let mut k: usize = 0;
    while k < ids.len()
        invariant
            k <= ids@.len(),
            forall|j: int| 0 <= j < k ==> ids@[j]@ != id@,
        decreases ids@.len() - k,
    {
        if same_text(ids[k].as_str(), id) {
            proof {
                assert(id_views(ids@)[k as int] == id@);
            }
            return true;
        }
        k += 1;
    }
    proof {
        if id_views(ids@).contains(id@) {
            let j = choose|j: int| 0 <= j < id_views(ids@).len() && id_views(ids@)[j] == id@;
            assert(ids@[j]@ == id@);
        }
    }
    false
}

/// A copy of a list of ids.
pub fn copy_ids(ids: &Vec<String>) -> (res: Vec<String>)
    ensures
        id_views(res@) == id_views(ids@),
{
    let mut out: Vec<String> = Vec::new();
    let mut k: usize = 0;
    while k < ids.len()
        invariant
            k <= ids@.len(),
            id_views(out@) == id_views(ids@).take(k as int),
        decreases ids@.len() - k,
    {
        let ghost before = out@;
        out.push(ids[k].clone());
        proof {
            assert(id_views(out@) =~= id_views(before).push(ids@[k as int]@));
            assert(id_views(ids@).take(k + 1) =~= id_views(ids@).take(k as int).push(ids@[k as int]@));
        }
        k += 1;
    }
    proof {
        assert(id_views(ids@).take(ids@.len() as int) =~= id_views(ids@));
    }
    out
}

/// A copy of an element.
pub fn copy_element(e: &SceneElement) -> (res: SceneElement)
    ensures
        res@ == e@,
{
    SceneElement {
        id: e.id.clone(),
        type_id: e.type_id.clone(),
        transform: e.transform.clone(),
        attrs: e.attrs.clone(),
        children: copy_ids(&e.children),
    }
}

/// The ids of the subtree under `root`, in the order of `subtree`.
pub fn collect_subtree(model: &WhiteboardModel, root: &str) -> (res: Result<Vec<String>, WhiteboardEngineError>)
    ensures
        match subtree(model@.elements, root@) {
            WalkView::Found(ids) => res matches Ok(r) && id_views(r@) == ids,
            WalkView::Failed(e) => res matches Err(x) && x@ == e,
        },
{
    let ghost es = model@.elements;
    if find_element(&model.elements, root).is_none() {
        return Err(WhiteboardEngineError::MissingElement(root.to_string()));
    }
    let mut found: Vec<String> = Vec::new();
    let mut stack: Vec<String> = Vec::new();
    stack.push(root.to_string());
    proof {
        assert(id_views(stack@) =~= seq![root@]);
        assert(id_views(found@) =~= Seq::<Seq<char>>::empty());
    }
    while stack.len() > 0
        invariant
            es == model@.elements,
            es.len() == model.elements@.len(),
            position_of(es, root@) >= 0,
            found@.len() <= es.len(),
            id_views(found@).no_duplicates(),
            forall|i: int| 0 <= i < found@.len() ==> position_of(es, #[trigger] id_views(found@)[i]) >= 0,
            subtree(es, root@) == walk(es, id_views(stack@), id_views(found@), (es.len() + 1 - found@.len()) as nat),
        decreases es.len() + 1 - found@.len(),
    {
        let ghost sv = id_views(stack@);
        let ghost fv = id_views(found@);
        let id = stack.pop().unwrap();
        proof {
            assert(id_views(stack@) =~= sv.drop_last());
            assert(id@ == sv.last());
        }
        if holds_id(&found, id.as_str()) {
            return Err(WhiteboardEngineError::Cycle(id));
        }
        let p = match find_element(&model.elements, id.as_str()) {
            Some(p) => p,
            None => {
                return Err(WhiteboardEngineError::MissingElement(id));
            },
        };
        proof {
            lemma_position_of(es, id@);
        }
        found.push(id);
        proof {
            assert(id_views(found@) =~= fv.push(sv.last()));
            assert forall|i: int| 0 <= i < found@.len() implies position_of(es, #[trigger] id_views(found@)[i]) >= 0 by {
                if i < fv.len() {
                    assert(id_views(found@)[i] == fv[i]);
                }
            }
            lemma_walk_bound(es, id_views(found@));
        }
        let children = &model.elements[p].children;
        let mut c: usize = 0;
        let ghost base = id_views(stack@);
        while c < children.len()
            invariant
                c <= children@.len(),
                id_views(stack@) == base + id_views(children@).take(c as int),
            decreases children@.len() - c,
        {
            let ghost before = stack@;
            stack.push(children[c].clone());
            proof {
                assert(id_views(stack@) =~= id_views(before).push(children@[c as int]@));
                assert(id_views(children@).take(c + 1) =~= id_views(children@).take(c as int).push(children@[c as int]@));
                assert(id_views(stack@) =~= base + id_views(children@).take(c + 1));
            }
            c += 1;
        }
        proof {
            assert(id_views(children@).take(children@.len() as int) =~= id_views(children@));
            assert(es[p as int].children == id_views(children@));
        }
    }
    proof {
        assert(id_views(stack@).len() == 0);
    }
    Ok(found)
}

/// The first element whose children name `id`, or -1.
pub open spec fn parent_of(es: Seq<ElementView>, id: Seq<char>) -> int
    decreases es.len(),
{
    if es.len() == 0 {
        -1
    } else {
        let p = parent_of(es.drop_last(), id);
        if p >= 0 {
            p
        } else if es.last().children.contains(id) {
            es.len() - 1
        } else {
            -1
        }
    }
}

pub proof fn lemma_parent_of(es: Seq<ElementView>, id: Seq<char>)
    ensures
        -1 <= parent_of(es, id) < es.len(),
        parent_of(es, id) >= 0 ==> es[parent_of(es, id)].children.contains(id),
        forall|i: int| 0 <= i < es.len() && (parent_of(es, id) < 0 || i < parent_of(es, id)) ==> !es[i].children.contains(id),
    decreases es.len(),
{
    if es.len() > 0 {
        lemma_parent_of(es.drop_last(), id);
        assert forall|i: int| 0 <= i < es.len() && (parent_of(es, id) < 0 || i < parent_of(es, id)) implies !es[i].children.contains(
            id,
        ) by {
            if i < es.len() - 1 {
                assert(es.drop_last()[i] == es[i]);
            }
        }
    }
}

/// The ids other than `id`, in order.
pub open spec fn without_id(cs: Seq<Seq<char>>, id: Seq<char>) -> Seq<Seq<char>>
    decreases cs.len(),
{
    if cs.len() == 0 {
        Seq::empty()
    } else {
        let r = without_id(cs.drop_last(), id);
        if cs.last() == id {
            r
        } else {
            r.push(cs.last())
        }
    }
}

/// The elements whose ids are not in `ids`, in order.
pub open spec fn outside(es: Seq<ElementView>, ids: Seq<Seq<char>>) -> Seq<ElementView>
    decreases es.len(),
{
    if es.len() == 0 {
        Seq::empty()
    } else {
        let r = outside(es.drop_last(), ids);
        if ids.contains(es.last().id) {
            r
        } else {
            r.push(es.last())
        }
    }
}

/// Each id that names an element, with the position and the element.
pub open spec fn removed_of(es: Seq<ElementView>, ids: Seq<Seq<char>>) -> Seq<(usize, ElementView)>
    decreases ids.len(),
{
    if ids.len() == 0 {
        Seq::empty()
    } else {
        let r = removed_of(es, ids.drop_last());
        let p = position_of(es, ids.last());
        if p >= 0 {
            r.push((p as usize, es[p]))
        } else {
            r
        }
    }
}

/// The index of the first element whose children name `id`.
fn find_parent(es: &Vec<SceneElement>, id: &str) -> (res: Option<usize>)
    ensures
        match res {
            Some(p) => p as int == parent_of(elements_view(es@), id@),
            None => parent_of(elements_view(es@), id@) == -1,
        },
{
    let ghost v = elements_view(es@);
    let mut k: usize = 0;
    while k < es.len()
        invariant
            v == elements_view(es@),
            k <= es@.len(),
            forall|j: int| 0 <= j < k ==> !v[j].children.contains(id@),
        decreases es@.len() - k,
    {
        proof {
            assert(v[k as int].children == id_views(es@[k as int].children@));
        }
        if holds_id(&es[k].children, id) {
            proof {
                lemma_parent_of(v, id@);
            }
            return Some(k);
        }
        k += 1;
    }
    proof {
        lemma_parent_of(v, id@);
        if parent_of(v, id@) >= 0 {
            assert(v[parent_of(v, id@)].children.contains(id@));
        }
    }
    None
}

/// The ids other than `id`, in order.
fn drop_id(cs: &Vec<String>, id: &str) -> (res: Vec<String>)
    ensures
        id_views(res@) == without_id(id_views(cs@), id@),
{
    let mut out: Vec<String> = Vec::new();
    let mut k: usize = 0;
    while k < cs.len()
        invariant
            k <= cs@.len(),
            id_views(out@) == without_id(id_views(cs@).take(k as int), id@),
        decreases cs@.len() - k,
    {
        let ghost before = out@;
        proof {
            assert(id_views(cs@).take(k + 1).drop_last() =~= id_views(cs@).take(k as int));
        }
        if !same_text(cs[k].as_str(), id) {
            out.push(cs[k].clone());
            proof {
                assert(id_views(out@) =~= id_views(before).push(cs@[k as int]@));
            }
        }
        k += 1;
    }
    proof {
        assert(id_views(cs@).take(cs@.len() as int) =~= id_views(cs@));
    }
    out
}

/// What a command asks of the scene.
#[derive(Debug, Clone, PartialEq, Eq)]
pub enum WhiteboardCommand {
    AddElement { element: SceneElement, index: usize },
    UpdateElement {
        element_id: String,
        type_id: Option<String>,
        transform: Option<String>,
        attrs: Option<String>,
        children: Option<Vec<String>>,
    },
    DeleteElement { element_id: String },
    SetCamera { camera: String },
}

/// A command by its texts.
pub enum CommandView {
    AddElement { element: ElementView, index: usize },
    UpdateElement {
        element_id: Seq<char>,
        type_id: Option<Seq<char>>,
        transform: Option<Seq<char>>,
        attrs: Option<Seq<char>>,
        children: Option<Seq<Seq<char>>>,
    },
    DeleteElement { element_id: Seq<char> },
    SetCamera { camera: Seq<char> },
}

pub open spec fn opt_text(o: Option<String>) -> Option<Seq<char>> {
    match o {
        Some(s) => Some(s@),
        None => None,
    }
}

pub open spec fn opt_ids(o: Option<Vec<String>>) -> Option<Seq<Seq<char>>> {
    match o {
        Some(v) => Some(id_views(v@)),
        None => None,
    }
}

impl View for WhiteboardCommand {
    type V = CommandView;

    open spec fn view(&self) -> CommandView {
        match self {
            WhiteboardCommand::AddElement { element, index } => CommandView::AddElement { element: element@, index: *index },
            WhiteboardCommand::UpdateElement { element_id, type_id, transform, attrs, children } => CommandView::UpdateElement {
                element_id: element_id@,
                type_id: opt_text(*type_id),
                transform: opt_text(*transform),
                attrs: opt_text(*attrs),
                children: opt_ids(*children),
            },
            WhiteboardCommand::DeleteElement { element_id } => CommandView::DeleteElement { element_id: element_id@ },
            WhiteboardCommand::SetCamera { camera } => CommandView::SetCamera { camera: camera@ },
        }
    }
}

/// An element that a deletion removed, with its position before the deletion.
#[derive(Debug, Clone, PartialEq, Eq)]
pub struct RemovedElement {
    pub position: usize,
    pub element: SceneElement,
}

/// A change the engine made, with what it needs to be undone.
#[derive(Debug, Clone, PartialEq, Eq)]
pub enum WhiteboardMutation {
    AddElement { element: SceneElement, index: usize },
    UpdateElement { element_id: String, before: SceneElement, after: SceneElement },
    DeleteElements {
        removed: Vec<RemovedElement>,
        parent_id: Option<String>,
        parent_children_before: Option<Vec<String>>,
    },
    SetCamera { before: String, after: String },
}

/// A change by its texts.
pub enum MutationView {
    AddElement { element: ElementView, index: usize },
    UpdateElement { element_id: Seq<char>, before: ElementView, after: ElementView },
    DeleteElements {
        removed: Seq<(usize, ElementView)>,
        parent_id: Option<Seq<char>>,
        parent_children_before: Option<Seq<Seq<char>>>,
    },
    SetCamera { before: Seq<char>, after: Seq<char> },
}

pub open spec fn removed_view(rs: Seq<RemovedElement>) -> Seq<(usize, ElementView)> {
    rs.map_values(|r: RemovedElement| (r.position, r.element@))
}

impl View for WhiteboardMutation {
    type V = MutationView;

    open spec fn view(&self) -> MutationView {
        match self {
            WhiteboardMutation::AddElement { element, index } => MutationView::AddElement { element: element@, index: *index },
            WhiteboardMutation::UpdateElement { element_id, before, after } => MutationView::UpdateElement {
                element_id: element_id@,
                before: before@,
                after: after@,
            },
            WhiteboardMutation::DeleteElements { removed, parent_id, parent_children_before } => MutationView::DeleteElements {
                removed: removed_view(removed@),
                parent_id: opt_text(*parent_id),
                parent_children_before: opt_ids(*parent_children_before),
            },
            WhiteboardMutation::SetCamera { before, after } => MutationView::SetCamera { before: before@, after: after@ },
        }
    }
}

impl WhiteboardMutation {
    /// The record type under which the change is published.
    pub fn type_id(&self) -> (res: &'static str)
        ensures
            res@ == match self {
                WhiteboardMutation::AddElement { .. } => "whiteboard.elementInserted"@,
                WhiteboardMutation::UpdateElement { .. } => "whiteboard.elementUpdated"@,
                WhiteboardMutation::DeleteElements { .. } => "whiteboard.elementDeleted"@,
                WhiteboardMutation::SetCamera { .. } => "whiteboard.cameraChanged"@,
            },
    {
        match self {
            WhiteboardMutation::AddElement { .. } => "whiteboard.elementInserted",
            WhiteboardMutation::UpdateElement { .. } => "whiteboard.elementUpdated",
            WhiteboardMutation::DeleteElements { .. } => "whiteboard.elementDeleted",
            WhiteboardMutation::SetCamera { .. } => "whiteboard.cameraChanged",
        }
    }
}

/// One command applied to a scene: the change and the scene after it, or
/// the refusal.
pub enum StepView {
    Done(MutationView, SceneView),
    Refused(EngineErrorView),
}

pub open spec fn or_else(o: Option<Seq<char>>, d: Seq<char>) -> Seq<char> {
    match o {
        Some(x) => x,
        None => d,
    }
}

pub open spec fn step(v: SceneView, c: CommandView) -> StepView {
    let es = v.elements;
    match c {
        CommandView::AddElement { element, index } => if trim(element.id).len() == 0 || trim(element.type_id).len() == 0 {
            StepView::Refused(EngineErrorView::EmptyElementIdentity)
        } else if position_of(es, element.id) >= 0 {
            StepView::Refused(EngineErrorView::DuplicateElement(element.id))
        } else if index > es.len() {
            StepView::Refused(EngineErrorView::InvalidIndex { index, len: es.len() as usize })
        } else {
            StepView::Done(
                MutationView::AddElement { element, index },
                SceneView { elements: es.insert(index as int, element), camera: v.camera },
            )
        },
        CommandView::UpdateElement { element_id, type_id, transform, attrs, children } => {
            let p = position_of(es, element_id);
            if p < 0 {
                StepView::Refused(EngineErrorView::MissingElement(element_id))
            } else if type_id matches Some(t) && trim(t).len() == 0 {
                StepView::Refused(EngineErrorView::EmptyElementIdentity)
            } else {
                let before = es[p];
                let after = ElementView {
                    id: before.id,
                    type_id: or_else(type_id, before.type_id),
                    transform: or_else(transform, before.transform),
                    attrs: or_else(attrs, before.attrs),
                    children: match children {
                        Some(cs) => cs,
                        None => before.children,
                    },
                };
                StepView::Done(
                    MutationView::UpdateElement { element_id, before, after },
                    SceneView { elements: es.update(p, after), camera: v.camera },
                )
            }
        },
        CommandView::DeleteElement { element_id } => match subtree(es, element_id) {
            WalkView::Failed(e) => StepView::Refused(e),
            WalkView::Found(ids) => {
                let q = parent_of(es, element_id);
                let detached = if q >= 0 {
                    let o = position_of(es, es[q].id);
                    es.update(o, ElementView { children: without_id(es[o].children, element_id), ..es[o] })
                } else {
                    es
                };
                StepView::Done(
                    MutationView::DeleteElements {
                        removed: removed_of(es, ids),
                        parent_id: if q >= 0 { Some(es[q].id) } else { None },
                        parent_children_before: if q >= 0 { Some(es[q].children) } else { None },
                    },
                    SceneView { elements: outside(detached, ids), camera: v.camera },
                )
            },
        },
        CommandView::SetCamera { camera } => StepView::Done(
            MutationView::SetCamera { before: v.camera, after: camera },
            SceneView { elements: es, camera },
        ),
    }
}

/// What a command's outcome owes to `step`.
pub open spec fn follows(before: SceneView, c: CommandView, after: SceneView, res: Result<WhiteboardMutation, WhiteboardEngineError>) -> bool {
    match step(before, c) {
        StepView::Done(m, w) => res matches Ok(x) && x@ == m && after == w,
        StepView::Refused(e) => res matches Err(x) && x@ == e,
    }
}

fn add_element(model: &mut WhiteboardModel, element: &SceneElement, index: usize) -> (res: Result<WhiteboardMutation, WhiteboardEngineError>)
    ensures
        follows(old(model)@, CommandView::AddElement { element: element@, index }, final(model)@, res),
{
    if is_blank(&element.id) || is_blank(&element.type_id) {
        return Err(WhiteboardEngineError::EmptyElementIdentity);
    }
    if find_element(&model.elements, element.id.as_str()).is_some() {
        return Err(WhiteboardEngineError::DuplicateElement(element.id.clone()));
    }
    if index > model.elements.len() {
        return Err(WhiteboardEngineError::InvalidIndex { index, len: model.elements.len() });
    }
    let ghost before = model.elements@;
    model.elements.insert(index, copy_element(element));
    proof {
        assert(elements_view(model.elements@) =~= elements_view(before).insert(index as int, element@));
    }
    Ok(WhiteboardMutation::AddElement { element: copy_element(element), index })
}

fn update_element(
    model: &mut WhiteboardModel,
    element_id: &String,
    type_id: &Option<String>,
    transform: &Option<String>,
    attrs: &Option<String>,
    children: &Option<Vec<String>>,
) -> (res: Result<WhiteboardMutation, WhiteboardEngineError>)
    ensures
        follows(
            old(model)@,
            CommandView::UpdateElement {
                element_id: element_id@,
                type_id: opt_text(*type_id),
                transform: opt_text(*transform),
                attrs: opt_text(*attrs),
                children: opt_ids(*children),
            },
            final(model)@,
            res,
        ),
{
    let ghost es = model@.elements;
    let p = match find_element(&model.elements, element_id.as_str()) {
        Some(p) => p,
        None => {
            return Err(WhiteboardEngineError::MissingElement(element_id.clone()));
        },
    };
    proof {
        lemma_position_of(es, element_id@);
    }
    if let Some(t) = type_id {
        if is_blank(t) {
            return Err(WhiteboardEngineError::EmptyElementIdentity);
        }
    }
    let before = copy_element(&model.elements[p]);
    let after = SceneElement {
        id: before.id.clone(),
        type_id: match type_id {
            Some(t) => t.clone(),
            None => before.type_id.clone(),
        },
        transform: match transform {
            Some(t) => t.clone(),
            None => before.transform.clone(),
        },
        attrs: match attrs {
            Some(t) => t.clone(),
            None => before.attrs.clone(),
        },
        children: match children {
            Some(cs) => copy_ids(cs),
            None => copy_ids(&before.children),
        },
    };
    let ghost old_elements = model.elements@;
    model.elements.set(p, copy_element(&after));
    proof {
        assert(elements_view(model.elements@) =~= elements_view(old_elements).update(p as int, after@));
    }
    Ok(WhiteboardMutation::UpdateElement { element_id: element_id.clone(), before, after })
}

fn delete_element(model: &mut WhiteboardModel, element_id: &String) -> (res: Result<WhiteboardMutation, WhiteboardEngineError>)
    ensures
        follows(old(model)@, CommandView::DeleteElement { element_id: element_id@ }, final(model)@, res),
{
    let ghost es = model@.elements;
    let sub = match collect_subtree(model, element_id.as_str()) {
        Ok(ids) => ids,
        Err(e) => {
            return Err(e);
        },
    };
    let ghost ids = id_views(sub@);
    let mut removed: Vec<RemovedElement> = Vec::new();
    let mut k: usize = 0;
    while k < sub.len()
        invariant
            es == model@.elements,
            ids == id_views(sub@),
            k <= sub@.len(),
            removed_view(removed@) == removed_of(es, ids.take(k as int)),
        decreases sub@.len() - k,
    {
        proof {
            assert(ids.take(k + 1).drop_last() =~= ids.take(k as int));
            assert(ids[k as int] == sub@[k as int]@);
        }
        let ghost before = removed@;
        match find_element(&model.elements, sub[k].as_str()) {
            Some(p) => {
                proof {
                    lemma_position_of(es, sub@[k as int]@);
                }
                removed.push(RemovedElement { position: p, element: copy_element(&model.elements[p]) });
                proof {
                    assert(removed_view(removed@) =~= removed_view(before).push((p, es[p as int])));
                }
            },
            None => {},
        }
        k += 1;
    }
    proof {
        assert(ids.take(sub@.len() as int) =~= ids);
    }
    let q = find_parent(&model.elements, element_id.as_str());
    proof {
        lemma_parent_of(es, element_id@);
    }
    let mut parent_id: Option<String> = None;
    let mut parent_children_before: Option<Vec<String>> = None;
    if let Some(q) = q {
        let pid = model.elements[q].id.clone();
        parent_children_before = Some(copy_ids(&model.elements[q].children));
        proof {
            lemma_position_of(es, pid@);
            assert(es[q as int].id == pid@);
        }
        match find_element(&model.elements, pid.as_str()) {
            Some(o) => {
                proof {
                    lemma_position_of(es, pid@);
                }
                let owner = &model.elements[o];
                let detached = SceneElement {
                    id: owner.id.clone(),
                    type_id: owner.type_id.clone(),
                    transform: owner.transform.clone(),
                    attrs: owner.attrs.clone(),
                    children: drop_id(&owner.children, element_id.as_str()),
                };
                let ghost old_elements = model.elements@;
                model.elements.set(o, detached);
                proof {
                    assert(elements_view(model.elements@) =~= es.update(
                        o as int,
                        ElementView { children: without_id(es[o as int].children, element_id@), ..es[o as int] },
                    ));
                }
            },
            None => {},
        }
        parent_id = Some(pid);
    }
    let ghost detached = elements_view(model.elements@);
    let mut kept: Vec<SceneElement> = Vec::new();
    let mut j: usize = 0;
    while j < model.elements.len()
        invariant
            detached == elements_view(model.elements@),
            ids == id_views(sub@),
            j <= model.elements@.len(),
            elements_view(kept@) == outside(detached.take(j as int), ids),
        decreases model.elements@.len() - j,
    {
        proof {
            assert(detached.take(j + 1).drop_last() =~= detached.take(j as int));
        }
        let ghost before = kept@;
        if !holds_id(&sub, model.elements[j].id.as_str()) {
            kept.push(copy_element(&model.elements[j]));
            proof {
                assert(elements_view(kept@) =~= elements_view(before).push(detached[j as int]));
            }
        }
        j += 1;
    }
    proof {
        assert(detached.take(model.elements@.len() as int) =~= detached);
    }
    model.elements = kept;
    Ok(WhiteboardMutation::DeleteElements { removed, parent_id, parent_children_before })
}

/// Applies one command to the scene and returns the change it made.
pub fn apply_command(model: &mut WhiteboardModel, command: &WhiteboardCommand) -> (res: Result<WhiteboardMutation, WhiteboardEngineError>)
    ensures
        follows(old(model)@, command@, final(model)@, res),
{
    match command {
        WhiteboardCommand::AddElement { element, index } => add_element(model, element, *index),
        WhiteboardCommand::UpdateElement { element_id, type_id, transform, attrs, children } => update_element(
            model,
            element_id,
            type_id,
            transform,
            attrs,
            children,
        ),
        WhiteboardCommand::DeleteElement { element_id } => delete_element(model, element_id),
        WhiteboardCommand::SetCamera { camera } => {
            let before = model.camera.clone();
            model.camera = camera.clone();
            Ok(WhiteboardMutation::SetCamera { before, after: camera.clone() })
        },
    }
}

/// A copy of a scene.
pub fn copy_model(model: &WhiteboardModel) -> (res: WhiteboardModel)
    ensures
        res@ == model@,
{
    let mut elements: Vec<SceneElement> = Vec::new();
    let mut k: usize = 0;
    while k < model.elements.len()
        invariant
            k <= model.elements@.len(),
            elements_view(elements@) == elements_view(model.elements@).take(k as int),
        decreases model.elements@.len() - k,
    {
        let ghost before = elements@;
        elements.push(copy_element(&model.elements[k]));
        proof {
            assert(elements_view(elements@) =~= elements_view(before).push(model.elements@[k as int]@));
            assert(elements_view(model.elements@).take(k + 1) =~= elements_view(model.elements@).take(k as int).push(
                model.elements@[k as int]@,
            ));
        }
        k += 1;
    }
    proof {
        assert(elements_view(model.elements@).take(model.elements@.len() as int) =~= elements_view(model.elements@));
    }
    WhiteboardModel { elements, camera: model.camera.clone() }
}

/// Commands to run against the scene of `base_revision`.
#[derive(Debug, Clone, PartialEq, Eq)]
pub struct WhiteboardCommandBatch {
    pub base_revision: u64,
    pub commands: Vec<WhiteboardCommand>,
}

/// What a batch changed, and the revision it produced.
#[derive(Debug, Clone, PartialEq, Eq)]
pub struct WhiteboardChangeSet {
    pub revision: u64,
    pub invalidation: Invalidation,
    pub mutations: Vec<WhiteboardMutation>,
}

pub open spec fn command_views(cs: Seq<WhiteboardCommand>) -> Seq<CommandView> {
    cs.map_values(|c: WhiteboardCommand| c@)
}

pub open spec fn mutation_views(ms: Seq<WhiteboardMutation>) -> Seq<MutationView> {
    ms.map_values(|m: WhiteboardMutation| m@)
}

/// The first `k` commands run one after another: the changes and the scene
/// they leave, or the first refusal.
pub enum RunView {
    Done(Seq<MutationView>, SceneView),
    Failed(EngineErrorView),
}

pub open spec fn run(v: SceneView, cs: Seq<CommandView>, k: nat) -> RunView
    decreases k,
{
    if k == 0 {
        RunView::Done(Seq::empty(), v)
    } else {
        match run(v, cs, (k - 1) as nat) {
            RunView::Failed(e) => RunView::Failed(e),
            RunView::Done(ms, w) => match step(w, cs[k - 1]) {
                StepView::Refused(e) => RunView::Failed(e),
                StepView::Done(m, w2) => RunView::Done(ms.push(m), w2),
            },
        }
    }
}

/// The live scene and its revision.
pub struct WhiteboardEngine {
    model: WhiteboardModel,
    revision: u64,
}

impl WhiteboardEngine {
    pub closed spec fn spec_model(&self) -> SceneView {
        self.model@
    }

    pub closed spec fn spec_revision(&self) -> u64 {
        self.revision
    }

    pub fn new(model: WhiteboardModel, revision: u64) -> (res: Self)
        ensures
            res.spec_model() == model@,
            res.spec_revision() == revision,
    {
        WhiteboardEngine { model, revision }
    }

    pub fn model(&self) -> (res: &WhiteboardModel)
        ensures
            res@ == self.spec_model(),
    {
        &self.model
    }

    pub fn revision(&self) -> (res: u64)
        ensures
            res == self.spec_revision(),
    {
        self.revision
    }

    /// Runs a batch on the live scene, element by element in place, and puts
    /// back the scene it started from when a command is refused: a refused
    /// batch leaves the scene and the revision as they were.
    pub fn execute(&mut self, batch: WhiteboardCommandBatch) -> (res: Result<WhiteboardChangeSet, WhiteboardEngineError>)
        ensures
            res is Ok <==> (batch.commands@.len() > 0 && batch.base_revision == old(self).spec_revision()
                && old(self).spec_revision() < u64::MAX && run(
                old(self).spec_model(),
                command_views(batch.commands@),
                batch.commands@.len(),
            ) is Done),
            res matches Ok(c) ==> c.revision == old(self).spec_revision() + 1 && final(self).spec_revision() == c.revision
                && invalidates(c.invalidation, mutation_views(c.mutations@)) && run(old(self).spec_model(), command_views(batch.commands@), batch.commands@.len()) == RunView::Done(
                mutation_views(c.mutations@),
                final(self).spec_model(),
            ),
            res is Err ==> final(self).spec_model() == old(self).spec_model() && final(self).spec_revision()
                == old(self).spec_revision(),
            res matches Err(e) ==> (if batch.commands@.len() == 0 {
                e is EmptyBatch
            } else if batch.base_revision != old(self).spec_revision() {
                e == WhiteboardEngineError::RevisionConflict { expected: old(self).spec_revision(), actual: batch.base_revision }
            } else if old(self).spec_revision() == u64::MAX {
                e is RevisionOverflow
            } else {
                run(old(self).spec_model(), command_views(batch.commands@), batch.commands@.len()) matches RunView::Failed(x)
                    && e@ == x
            }),
    {
        let commands = batch.commands;
        if commands.len() == 0 {
            return Err(WhiteboardEngineError::EmptyBatch);
        }
        if batch.base_revision != self.revision {
            return Err(WhiteboardEngineError::RevisionConflict { expected: self.revision, actual: batch.base_revision });
        }
        if self.revision == u64::MAX {
            return Err(WhiteboardEngineError::RevisionOverflow);
        }
        let ghost v0 = self.model@;
        let ghost cs = command_views(commands@);
        let snapshot = copy_model(&self.model);
        let mut mutations: Vec<WhiteboardMutation> = Vec::new();
        let mut j: usize = 0;
        proof {
            assert(mutation_views(mutations@) =~= Seq::<MutationView>::empty());
        }
        while j < commands.len()
            invariant
                v0 == old(self).model@,
                snapshot@ == v0,
                self.revision == old(self).revision,
                commands@ == batch.commands@,
                commands@.len() > 0,
                batch.base_revision == old(self).revision,
                old(self).revision < u64::MAX,
                cs == command_views(commands@),
                j <= commands@.len(),
                run(v0, cs, j as nat) == RunView::Done(mutation_views(mutations@), self.model@),
            decreases commands@.len() - j,
        {
            proof {
                assert(cs[j as int] == commands@[j as int]@);
            }
            let ghost before = mutations@;
            match apply_command(&mut self.model, &commands[j]) {
                Err(e) => {
                    self.model = snapshot;
                    proof {
                        assert(run(v0, cs, (j + 1) as nat) == RunView::Failed(e@));
                        lemma_run_failed(v0, cs, (j + 1) as nat, commands@.len() as nat);
                    }
                    return Err(e);
                },
                Ok(m) => {
                    mutations.push(m);
                    proof {
                        assert(mutation_views(mutations@) =~= mutation_views(before).push(m@));
                    }
                },
            }
            j += 1;
        }
        self.revision = self.revision + 1;
        let invalidation = invalidation_of(&mutations);
        Ok(WhiteboardChangeSet { revision: self.revision, invalidation, mutations })
    }
}

/// Once a run is refused, running more commands keeps the refusal.
proof fn lemma_run_failed(v: SceneView, cs: Seq<CommandView>, k: nat, n: nat)
    requires
        k <= n,
        run(v, cs, k) is Failed,
    ensures
        run(v, cs, n) == run(v, cs, k),
    decreases n - k,
{
    if k < n {
        lemma_run_failed(v, cs, k + 1, n);
    }
}

/// The children of the element that an id names.
pub open spec fn children_of(es: Seq<ElementView>, id: Seq<char>) -> Seq<Seq<char>> {
    es[position_of(es, id)].children
}

/// What a walk that goes through ends with: everything it had taken and
/// everything still to take, and with each newly taken id its children.
proof fn lemma_walk_closed(es: Seq<ElementView>, stack: Seq<Seq<char>>, found: Seq<Seq<char>>, fuel: nat)
    ensures
        walk(es, stack, found, fuel) matches WalkView::Found(r) ==> {
            &&& forall|x: Seq<char>| found.contains(x) ==> r.contains(x)
            &&& forall|x: Seq<char>| stack.contains(x) ==> r.contains(x)
            &&& forall|x: Seq<char>, c: Seq<char>|
                r.contains(x) && !found.contains(x) && #[trigger] children_of(es, x).contains(c) ==> r.contains(c)
        },
    decreases fuel,
{
    if stack.len() > 0 && fuel > 0 {
        let id = stack.last();
        let p = position_of(es, id);
        lemma_position_of(es, id);
        if !found.contains(id) && p >= 0 {
            let next = stack.drop_last() + es[p].children;
            lemma_walk_closed(es, next, found.push(id), (fuel - 1) as nat);
            if let WalkView::Found(r) = walk(es, stack, found, fuel) {
                assert forall|x: Seq<char>| found.contains(x) implies r.contains(x) by {
                    let i = choose|i: int| 0 <= i < found.len() && found[i] == x;
                    assert(found.push(id)[i] == x);
                }
                assert(found.push(id)[found.len() as int] == id);
                assert forall|x: Seq<char>| stack.contains(x) implies r.contains(x) by {
                    let i = choose|i: int| 0 <= i < stack.len() && stack[i] == x;
                    if i < stack.len() - 1 {
                        assert(next[i] == x);
                        assert(next.contains(x));
                    }
                }
                assert forall|x: Seq<char>, c: Seq<char>|
                    r.contains(x) && !found.contains(x) && #[trigger] children_of(es, x).contains(c) implies r.contains(c) by {
                    if x == id {
                        let k = choose|k: int| 0 <= k < es[p].children.len() && es[p].children[k] == c;
                        assert(next[stack.len() - 1 + k] == c);
                        assert(next.contains(c));
                    } else {
                        assert(!found.push(id).contains(x));
                    }
                }
            }
        }
    }
}

/// No element left by `outside` has one of the ids.
proof fn lemma_outside(es: Seq<ElementView>, ids: Seq<Seq<char>>)
    ensures
        forall|i: int| 0 <= i < outside(es, ids).len() ==> !ids.contains(#[trigger] outside(es, ids)[i].id),
    decreases es.len(),
{
    if es.len() > 0 {
        lemma_outside(es.drop_last(), ids);
        let r = outside(es.drop_last(), ids);
        assert forall|i: int| 0 <= i < outside(es, ids).len() implies !ids.contains(#[trigger] outside(es, ids)[i].id) by {
            if i < r.len() {
                assert(outside(es, ids)[i] == r[i]);
            }
        }
    }
}

/// Deleting an element removes it with everything under it: the ids a
/// delete that went through removes hold the element's own id and the
/// children of each of them, and no element left in the scene has one of
/// those ids.
pub proof fn law_delete_removes_subtree(v: SceneView, id: Seq<char>)
    requires
        step(v, CommandView::DeleteElement { element_id: id }) is Done,
    ensures
        subtree(v.elements, id) is Found,
        subtree(v.elements, id) matches WalkView::Found(ids) ==> {
            &&& ids.contains(id)
            &&& forall|x: Seq<char>, c: Seq<char>|
                ids.contains(x) && #[trigger] children_of(v.elements, x).contains(c) ==> ids.contains(c)
            &&& step(v, CommandView::DeleteElement { element_id: id }) matches StepView::Done(_, w) ==> forall|i: int|
                0 <= i < w.elements.len() ==> !ids.contains(#[trigger] w.elements[i].id)
        },
{
    let es = v.elements;
    lemma_walk_closed(es, seq![id], Seq::empty(), es.len() + 1);
    assert(seq![id].contains(id)) by {
        assert(seq![id][0] == id);
    }
    if let WalkView::Found(ids) = subtree(es, id) {
        let q = parent_of(es, id);
        let detached = if q >= 0 {
            let o = position_of(es, es[q].id);
            es.update(o, ElementView { children: without_id(es[o].children, id), ..es[o] })
        } else {
            es
        };
        lemma_outside(detached, ids);
    }
}

/// Whether `a` comes before `b` in character order, both read from `i` on.
pub open spec fn less_from(a: Seq<char>, b: Seq<char>, i: int) -> bool
    decreases a.len() - i,
{
    if i >= a.len() {
        i < b.len()
    } else if i >= b.len() {
        false
    } else if a[i] != b[i] {
        (a[i] as int) < (b[i] as int)
    } else {
        less_from(a, b, i + 1)
    }
}

/// Whether `a` comes before `b` in character order (the order of the texts'
/// UTF-8 bytes).
pub open spec fn text_less(a: Seq<char>, b: Seq<char>) -> bool {
    less_from(a, b, 0)
}

/// Ids in strictly increasing order.
pub open spec fn strictly_sorted(s: Seq<Seq<char>>) -> bool {
    forall|i: int, j: int| 0 <= i < j < s.len() ==> text_less(#[trigger] s[i], #[trigger] s[j])
}

proof fn lemma_less_trans(a: Seq<char>, b: Seq<char>, c: Seq<char>, i: int)
    requires
        0 <= i,
        less_from(a, b, i),
        less_from(b, c, i),
    ensures
        less_from(a, c, i),
    decreases a.len() - i,
{
    if i < a.len() && i < b.len() && i < c.len() && a[i] == b[i] && b[i] == c[i] {
        lemma_less_trans(a, b, c, i + 1);
    }
}

proof fn lemma_less_irreflexive(a: Seq<char>, i: int)
    requires
        0 <= i,
    ensures
        !less_from(a, a, i),
    decreases a.len() - i,
{
    if i < a.len() {
        lemma_less_irreflexive(a, i + 1);
    }
}

proof fn lemma_less_total(a: Seq<char>, b: Seq<char>, i: int)
    requires
        0 <= i <= a.len(),
        i <= b.len(),
        forall|j: int| 0 <= j < i ==> a[j] == b[j],
        a != b,
    ensures
        less_from(a, b, i) || less_from(b, a, i),
    decreases a.len() - i,
{
    if i < a.len() && i < b.len() && a[i] == b[i] {
        lemma_less_total(a, b, i + 1);
    } else if i == a.len() && i == b.len() {
        assert(a =~= b);
    } else if i < a.len() && i < b.len() {
        assert((a[i] as int) != (b[i] as int));
    }
}

/// Whether `a` comes before `b` in character order.
fn text_before(a: &Vec<char>, b: &Vec<char>) -> (res: bool)
    ensures
        res == text_less(a@, b@),
{
    let mut i: usize = 0;
    loop
        invariant
            i <= a@.len(),
            i <= b@.len(),
            less_from(a@, b@, 0) == less_from(a@, b@, i as int),
        decreases a@.len() - i,
    {
        if i == a.len() {
            return i < b.len();
        }
        if i == b.len() {
            return false;
        }
        if a[i] != b[i] {
            return a[i] < b[i];
        }
        i += 1;
    }
}

/// The sorted list with `x` added, unless it is already there.
pub(crate) fn insert_sorted(list: &mut Vec<Vec<char>>, x: Vec<char>)
    requires
        strictly_sorted(old(list)@.map_values(|v: Vec<char>| v@)),
    ensures
        strictly_sorted(final(list)@.map_values(|v: Vec<char>| v@)),
        final(list)@.map_values(|v: Vec<char>| v@).to_set() == old(list)@.map_values(|v: Vec<char>| v@).to_set().insert(x@),
{
    let ghost l0 = list@.map_values(|v: Vec<char>| v@);
    let mut k: usize = 0;
    while k < list.len() && text_before(&list[k], &x)
        invariant
            l0 == list@.map_values(|v: Vec<char>| v@),
            strictly_sorted(l0),
            k <= list@.len(),
            forall|j: int| 0 <= j < k ==> text_less(#[trigger] l0[j], x@),
        decreases list@.len() - k,
    {
        k += 1;
    }
    if k < list.len() {
        let same = !text_before(&x, &list[k]);
        proof {
            if same {
                if l0[k as int] != x@ {
                    lemma_less_total(l0[k as int], x@, 0);
                }
            }
        }
        if same {
            proof {
                assert(l0.to_set().insert(x@) =~= l0.to_set());
            }
            return;
        }
    }
    list.insert(k, x);
    proof {
        let l1 = list@.map_values(|v: Vec<char>| v@);
        assert(l1 =~= l0.insert(k as int, x@));
        assert forall|i: int, j: int| 0 <= i < j < l1.len() implies text_less(#[trigger] l1[i], #[trigger] l1[j]) by {
            if j < k {
                assert(l1[i] == l0[i] && l1[j] == l0[j]);
            } else if j == k {
                assert(l1[i] == l0[i]);
            } else if i == k {
                assert(l1[j] == l0[j - 1]);
                if j - 1 > k {
                    assert(text_less(l0[k as int], l0[j - 1]));
                    lemma_less_trans(x@, l0[k as int], l0[j - 1], 0);
                }
            } else if i < k {
                assert(l1[i] == l0[i] && l1[j] == l0[j - 1]);
            } else {
                assert(l1[i] == l0[i - 1] && l1[j] == l0[j - 1]);
            }
        }
        assert(l1.to_set() =~= l0.to_set().insert(x@)) by {
            assert forall|y: Seq<char>| l1.to_set().contains(y) <==> l0.to_set().insert(x@).contains(y) by {
                if l1.contains(y) {
                    let i = choose|i: int| 0 <= i < l1.len() && l1[i] == y;
                    if i < k {
                        assert(l0[i] == y);
                    } else if i > k {
                        assert(l0[i - 1] == y);
                    }
                }
                if l0.contains(y) {
                    let i = choose|i: int| 0 <= i < l0.len() && l0[i] == y;
                    if i < k {
                        assert(l1[i] == y);
                    } else {
                        assert(l1[i + 1] == y);
                    }
                }
                if y == x@ {
                    assert(l1[k as int] == y);
                }
            }
        }
    }
}

/// An entity a change touched, by type and id.
#[derive(Debug, Clone, PartialEq, Eq)]
pub struct EntityRef {
    pub entity_type: String,
    pub entity_id: String,
}

/// What a renderer must redraw after a batch.
#[derive(Debug, Clone, PartialEq, Eq)]
pub struct Invalidation {
    pub changed_entities: Vec<EntityRef>,
    pub changed_containers: Vec<EntityRef>,
    pub structure_changed: bool,
}

/// The element ids a change touched.
pub open spec fn touched(m: MutationView) -> Seq<Seq<char>> {
    match m {
        MutationView::AddElement { element, .. } => seq![element.id],
        MutationView::UpdateElement { element_id, .. } => seq![element_id],
        MutationView::DeleteElements { removed, .. } => removed.map_values(|r: (usize, ElementView)| r.1.id),
        MutationView::SetCamera { .. } => Seq::empty(),
    }
}

pub open spec fn touched_ids(ms: Seq<MutationView>) -> Seq<Seq<char>>
    decreases ms.len(),
{
    if ms.len() == 0 {
        Seq::empty()
    } else {
        touched_ids(ms.drop_last()) + touched(ms.last())
    }
}

pub open spec fn moves_camera(ms: Seq<MutationView>) -> bool {
    exists|i: int| 0 <= i < ms.len() && #[trigger] ms[i] is SetCamera
}

pub open spec fn changes_structure(ms: Seq<MutationView>) -> bool {
    exists|i: int| 0 <= i < ms.len() && (#[trigger] ms[i] is AddElement || ms[i] is DeleteElements)
}

/// The invalidation a batch's changes call for: each touched element once,
/// in id order, then the camera when it moved; the scene as the one
/// container; and whether elements were added or removed.
pub open spec fn invalidates(inv: Invalidation, ms: Seq<MutationView>) -> bool {
    let es = inv.changed_entities@;
    let n = if moves_camera(ms) { es.len() - 1 } else { es.len() as int };
    let ids = es.take(n).map_values(|e: EntityRef| e.entity_id@);
    &&& n >= 0
    &&& strictly_sorted(ids)
    &&& ids.to_set() == touched_ids(ms).to_set()
    &&& forall|k: int| 0 <= k < n ==> (#[trigger] es[k]).entity_type@ == "whiteboard.element"@
    &&& moves_camera(ms) ==> es[n].entity_type@ == "whiteboard.camera"@ && es[n].entity_id@ == "viewport"@
    &&& inv.changed_containers@.len() == 1
    &&& inv.changed_containers@[0].entity_type@ == "whiteboard.scene"@
    &&& inv.changed_containers@[0].entity_id@ == "root"@
    &&& inv.structure_changed == changes_structure(ms)
}

proof fn lemma_concat_set(a: Seq<Seq<char>>, b: Seq<Seq<char>>)
    ensures
        (a + b).to_set() == a.to_set().union(b.to_set()),
{
    assert forall|y: Seq<char>| (a + b).to_set().contains(y) <==> a.to_set().union(b.to_set()).contains(y) by {
        if (a + b).contains(y) {
            let i = choose|i: int| 0 <= i < (a + b).len() && (a + b)[i] == y;
            if i < a.len() {
                assert(a[i] == y);
            } else {
                assert(b[i - a.len()] == y);
            }
        }
        if a.contains(y) {
            let i = choose|i: int| 0 <= i < a.len() && a[i] == y;
            assert((a + b)[i] == y);
        }
        if b.contains(y) {
            let i = choose|i: int| 0 <= i < b.len() && b[i] == y;
            assert((a + b)[i + a.len()] == y);
        }
    }
    assert((a + b).to_set() =~= a.to_set().union(b.to_set()));
}

proof fn lemma_single_set(x: Seq<char>)
    ensures
        seq![x].to_set() == Set::<Seq<char>>::empty().insert(x),
{
    assert forall|y: Seq<char>| seq![x].to_set().contains(y) <==> Set::<Seq<char>>::empty().insert(x).contains(y) by {
        if seq![x].contains(y) {
            let i = choose|i: int| 0 <= i < 1 && seq![x][i] == y;
        }
        if y == x {
            assert(seq![x][0] == y);
        }
    }
    assert(seq![x].to_set() =~= Set::<Seq<char>>::empty().insert(x));
}

proof fn lemma_push_set(a: Seq<Seq<char>>, x: Seq<char>)
    ensures
        a.push(x).to_set() == a.to_set().insert(x),
{
    lemma_concat_set(a, seq![x]);
    lemma_single_set(x);
    assert(a.push(x) =~= a + seq![x]);
    assert(a.to_set().union(Set::<Seq<char>>::empty().insert(x)) =~= a.to_set().insert(x));
}

/// The invalidation of a batch's changes.
pub fn invalidation_of(ms: &Vec<WhiteboardMutation>) -> (res: Invalidation)
    ensures
        invalidates(res, mutation_views(ms@)),
{
    let ghost mv = mutation_views(ms@);
    let mut sorted: Vec<Vec<char>> = Vec::new();
    let mut camera = false;
    let mut structure = false;
    let mut k: usize = 0;
    proof {
        assert(sorted@.map_values(|v: Vec<char>| v@).to_set() =~= touched_ids(mv.take(0)).to_set());
    }
    while k < ms.len()
        invariant
            mv == mutation_views(ms@),
            k <= ms@.len(),
            strictly_sorted(sorted@.map_values(|v: Vec<char>| v@)),
            sorted@.map_values(|v: Vec<char>| v@).to_set() == touched_ids(mv.take(k as int)).to_set(),
            camera == moves_camera(mv.take(k as int)),
            structure == changes_structure(mv.take(k as int)),
        decreases ms@.len() - k,
    {
        let ghost before = touched_ids(mv.take(k as int));
        proof {
            assert(mv.take(k + 1).drop_last() =~= mv.take(k as int));
            assert(mv[k as int] == ms@[k as int]@);
            lemma_concat_set(before, touched(mv[k as int]));
        }
        match &ms[k] {
            WhiteboardMutation::AddElement { element, .. } => {
                insert_sorted(&mut sorted, chars_of(element.id.as_str()));
                structure = true;
                proof {
                    lemma_single_set(element.id@);
                }
            },
            WhiteboardMutation::UpdateElement { element_id, .. } => {
                insert_sorted(&mut sorted, chars_of(element_id.as_str()));
                proof {
                    lemma_single_set(element_id@);
                }
            },
            WhiteboardMutation::DeleteElements { removed, .. } => {
                let ghost rids = removed_view(removed@).map_values(|r: (usize, ElementView)| r.1.id);
                let mut r: usize = 0;
                while r < removed.len()
                    invariant
                        r <= removed@.len(),
                        rids == removed_view(removed@).map_values(|r: (usize, ElementView)| r.1.id),
                        strictly_sorted(sorted@.map_values(|v: Vec<char>| v@)),
                        sorted@.map_values(|v: Vec<char>| v@).to_set() == before.to_set().union(rids.take(r as int).to_set()),
                    decreases removed@.len() - r,
                {
                    let ghost prev = rids.take(r as int);
                    insert_sorted(&mut sorted, chars_of(removed[r].element.id.as_str()));
                    proof {
                        assert(rids[r as int] == removed@[r as int].element.id@);
                        assert(rids.take(r + 1) =~= prev.push(rids[r as int]));
                        lemma_push_set(prev, rids[r as int]);
                        assert(sorted@.map_values(|v: Vec<char>| v@).to_set() =~= before.to_set().union(
                            rids.take(r + 1).to_set(),
                        ));
                    }
                    r += 1;
                }
                proof {
                    assert(rids.take(removed@.len() as int) =~= rids);
                }
                structure = true;
            },
            WhiteboardMutation::SetCamera { .. } => {
                camera = true;
                proof {
                    assert(Seq::<Seq<char>>::empty().to_set() =~= Set::empty());
                }
            },
        }
        proof {
            let t = mv.take(k + 1);
            assert(t.last() == mv[k as int]);
            assert(sorted@.map_values(|v: Vec<char>| v@).to_set() =~= touched_ids(t).to_set());
            if camera {
                if mv[k as int] is SetCamera {
                    assert(t[k as int] is SetCamera);
                } else {
                    let i = choose|i: int| 0 <= i < k && #[trigger] mv.take(k as int)[i] is SetCamera;
                    assert(t[i] == mv.take(k as int)[i]);
                }
            }
            if moves_camera(t) {
                let i = choose|i: int| 0 <= i < t.len() && #[trigger] t[i] is SetCamera;
                if i < k {
                    assert(mv.take(k as int)[i] == t[i]);
                }
            }
            if structure {
                if mv[k as int] is AddElement || mv[k as int] is DeleteElements {
                    assert(t[k as int] == mv[k as int]);
                } else {
                    let i = choose|i: int| 0 <= i < k && (#[trigger] mv.take(k as int)[i] is AddElement || mv.take(k as int)[i] is DeleteElements);
                    assert(t[i] == mv.take(k as int)[i]);
                }
            }
            if changes_structure(t) {
                let i = choose|i: int| 0 <= i < t.len() && (#[trigger] t[i] is AddElement || t[i] is DeleteElements);
                if i < k {
                    assert(mv.take(k as int)[i] == t[i]);
                }
            }
        }
        k += 1;
    }
    proof {
        assert(mv.take(ms@.len() as int) =~= mv);
    }
    let ghost sv = sorted@.map_values(|v: Vec<char>| v@);
    let mut entities: Vec<EntityRef> = Vec::new();
    let mut j: usize = 0;
    while j < sorted.len()
        invariant
            sv == sorted@.map_values(|v: Vec<char>| v@),
            j <= sorted@.len(),
            entities@.len() == j,
            entities@.map_values(|e: EntityRef| e.entity_id@) == sv.take(j as int),
            forall|i: int| 0 <= i < j ==> (#[trigger] entities@[i]).entity_type@ == "whiteboard.element"@,
        decreases sorted@.len() - j,
    {
        let ghost prev = entities@;
        entities.push(EntityRef { entity_type: "whiteboard.element".to_string(), entity_id: string_of(&sorted[j]) });
        proof {
            assert(entities@.map_values(|e: EntityRef| e.entity_id@) =~= prev.map_values(|e: EntityRef| e.entity_id@).push(
                sv[j as int],
            ));
            assert(sv.take(j + 1) =~= sv.take(j as int).push(sv[j as int]));
        }
        j += 1;
    }
    proof {
        assert(sv.take(sorted@.len() as int) =~= sv);
    }
    let ghost element_part = entities@;
    if camera {
        entities.push(EntityRef { entity_type: "whiteboard.camera".to_string(), entity_id: "viewport".to_string() });
        proof {
            assert(entities@.take(element_part.len() as int) =~= element_part);
        }
    } else {
        proof {
            assert(entities@.take(element_part.len() as int) =~= element_part);
        }
    }
    let mut containers: Vec<EntityRef> = Vec::new();
    containers.push(EntityRef { entity_type: "whiteboard.scene".to_string(), entity_id: "root".to_string() });
    Invalidation { changed_entities: entities, changed_containers: containers, structure_changed: structure }
}

/// An element update that succeeds replaces exactly the fields it supplies:
/// the updated element keeps its id and position, takes each supplied type,
/// transform, attributes and children, and keeps each field not supplied;
/// every other element and the camera stay; the mutation records the
/// element before and after.
pub proof fn law_update_replaces_supplied_fields(
    v: SceneView,
    element_id: Seq<char>,
    type_id: Option<Seq<char>>,
    transform: Option<Seq<char>>,
    attrs: Option<Seq<char>>,
    children: Option<Seq<Seq<char>>>,
)
    ensures
        step(v, CommandView::UpdateElement { element_id, type_id, transform, attrs, children }) matches StepView::Done(
            m,
            w,
        ) ==> {
            let p = position_of(v.elements, element_id);
            let old = v.elements[p];
            let new = w.elements[p];
            &&& 0 <= p < v.elements.len()
            &&& w.elements.len() == v.elements.len()
            &&& new.id == old.id
            &&& (type_id matches Some(t) ==> new.type_id == t) && (type_id is None ==> new.type_id == old.type_id)
            &&& (transform matches Some(t) ==> new.transform == t) && (transform is None ==> new.transform == old.transform)
            &&& (attrs matches Some(a) ==> new.attrs == a) && (attrs is None ==> new.attrs == old.attrs)
            &&& (children matches Some(cs) ==> new.children == cs) && (children is None ==> new.children == old.children)
            &&& forall|q: int| 0 <= q < v.elements.len() && q != p ==> #[trigger] w.elements[q] == v.elements[q]
            &&& w.camera == v.camera
            &&& m == MutationView::UpdateElement { element_id, before: old, after: new }
        },
{
    lemma_position_of(v.elements, element_id);
}

} // verus!
