use vstd::prelude::*;
use crate::world::{
    EntityId, EntityRecord, has_all, reflected, reflectable_of, holds_kind, record_has_all,
    reflected_kinds, reflectable_kinds, lemma_reflected_members,
};
use crate::extract::{SceneEntity, scene_view};

verus! {

/// The selection of one entity, as a mathematical value: all of its
/// components, or a set of component kinds.
pub enum Selection {
    All,
    Kinds(Set<usize>),
}

/// Which components of one entity go into the scene: all of them, or the
/// listed kinds (each listed once).
#[derive(Debug)]
pub enum ComponentSelection {
    All,
    ByIds(Vec<usize>),
}

impl View for ComponentSelection {
    type V = Selection;

    open spec fn view(&self) -> Selection {
        match self {
            ComponentSelection::All => Selection::All,
            ComponentSelection::ByIds(ids) => Selection::Kinds(ids@.to_set()),
        }
    }
}

impl ComponentSelection {
    /// A list of kinds holds no kind twice.
    pub open spec fn wf(&self) -> bool {
        match self {
            ComponentSelection::All => true,
            ComponentSelection::ByIds(ids) => ids@.no_duplicates(),
        }
    }
}

/// The selections after adding the kinds `kinds` to entity `e`: an entity
/// not yet selected gets exactly those kinds, one with listed kinds gets the
/// union, and one with all components stays as it is.
pub open spec fn merge_kinds(m: Map<EntityId, Selection>, e: EntityId, kinds: Set<usize>) -> Map<EntityId, Selection> {
    if !m.contains_key(e) {
        m.insert(e, Selection::Kinds(kinds))
    } else {
        match m[e] {
            Selection::All => m,
            Selection::Kinds(s) => m.insert(e, Selection::Kinds(s.union(kinds))),
        }
    }
}

/// The order of the selected entities after selecting `e`: a new entity
/// goes last, one already there keeps its place.
pub open spec fn with_entity(order: Seq<EntityId>, e: EntityId) -> Seq<EntityId> {
    if order.contains(e) {
        order
    } else {
        order.push(e)
    }
}

/// The selections after selecting each entity of `es` in turn with all of
/// its components.
pub open spec fn select_all_each(m: Map<EntityId, Selection>, es: Seq<EntityId>) -> Map<EntityId, Selection>
    decreases es.len(),
{
    if es.len() == 0 {
        m
    } else {
        select_all_each(m, es.drop_last()).insert(es.last(), Selection::All)
    }
}

/// The selections after adding `kinds` to each entity of `es` in turn.
pub open spec fn merge_each(m: Map<EntityId, Selection>, es: Seq<EntityId>, kinds: Set<usize>) -> Map<EntityId, Selection>
    decreases es.len(),
{
    if es.len() == 0 {
        m
    } else {
        merge_kinds(merge_each(m, es.drop_last(), kinds), es.last(), kinds)
    }
}

/// The order after selecting each entity of `es` in turn.
pub open spec fn order_each(order: Seq<EntityId>, es: Seq<EntityId>) -> Seq<EntityId>
    decreases es.len(),
{
    if es.len() == 0 {
        order
    } else {
        with_entity(order_each(order, es.drop_last()), es.last())
    }
}

/// The entities of the records that carry every kind of `kinds`, in order.
pub open spec fn entities_with_all(matched: Seq<EntityRecord>, kinds: Seq<usize>) -> Seq<EntityId>
    decreases matched.len(),
{
    if matched.len() == 0 {
        Seq::empty()
    } else if has_all(matched.last(), kinds) {
        entities_with_all(matched.drop_last(), kinds).push(matched.last().entity)
    } else {
        entities_with_all(matched.drop_last(), kinds)
    }
}

/// The stored kinds that `records` gives for the entity at position `i`:
/// none when the record is missing or the entity is not in the world.
pub open spec fn stored_at(records: Seq<Option<Vec<usize>>>, i: int) -> Option<Seq<usize>> {
    if 0 <= i < records.len() {
        match records[i] {
            Some(kinds) => Some(kinds@),
            None => None,
        }
    } else {
        None
    }
}

/// The kinds that one selection yields for an entity with the given stored
/// kinds, in the order they are taken.
pub open spec fn resolve(sel: ComponentSelection, stored: Option<Seq<usize>>, reflectable: Seq<usize>) -> Seq<usize> {
    match stored {
        None => Seq::empty(),
        Some(kinds) => match sel {
            ComponentSelection::All => reflectable_of(kinds, reflectable),
            ComponentSelection::ByIds(ids) => reflected(ids@, kinds, reflectable),
        },
    }
}

/// Appends `k` unless `out` already holds it.
fn push_new(out: &mut Vec<usize>, k: usize)
    requires
        old(out)@.no_duplicates(),
    ensures
        final(out)@.no_duplicates(),
        forall|x: usize| #[trigger] final(out)@.contains(x) <==> (old(out)@.contains(x) || x == k),
{
    if !holds_kind(out, k) {
        out.push(k);
        proof {
            assert forall|x: usize| #[trigger] out@.contains(x) <==> (old(out)@.contains(x) || x == k) by {
                if old(out)@.contains(x) {
                    let j = choose|j: int| 0 <= j < old(out)@.len() && old(out)@[j] == x;
                    assert(out@[j] == x);
                }
                if x == k {
                    assert(out@[out@.len() - 1] == x);
                }
                if out@.contains(x) && x != k {
                    let j = choose|j: int| 0 <= j < out@.len() && out@[j] == x;
                    assert(old(out)@[j] == x);
                }
            }
        }
    }
}

/// The kinds of `a` followed by those of `b` that `a` lacks, each once.
fn union_kinds(a: &Vec<usize>, b: &Vec<usize>) -> (r: Vec<usize>)
    ensures
        r@.no_duplicates(),
        r@.to_set() == a@.to_set().union(b@.to_set()),
{
    let mut out: Vec<usize> = Vec::new();
    let mut i: usize = 0;
    while i < a.len()
        invariant
            i <= a@.len(),
            out@.no_duplicates(),
            forall|x: usize| #[trigger] out@.contains(x) <==> exists|j: int| 0 <= j < i && a@[j] == x,
        decreases a@.len() - i,
    {
        push_new(&mut out, a[i]);
        proof {
            assert forall|x: usize| #[trigger] out@.contains(x) <==> exists|j: int| 0 <= j < i + 1 && a@[j] == x by {
                if x == a@[i as int] {
                    assert(0 <= i < i + 1 && a@[i as int] == x);
                }
            }
        }
        i = i + 1;
    }
    let mut i: usize = 0;
    while i < b.len()
        invariant
            i <= b@.len(),
            out@.no_duplicates(),
            forall|x: usize| #[trigger] out@.contains(x) <==> (a@.contains(x) || exists|j: int| 0 <= j < i && b@[j] == x),
        decreases b@.len() - i,
    {
        push_new(&mut out, b[i]);
        proof {
            assert forall|x: usize| #[trigger] out@.contains(x) <==> (a@.contains(x) || exists|j: int| 0 <= j < i + 1 && b@[j] == x) by {
                if x == b@[i as int] {
                    assert(0 <= i < i + 1 && b@[i as int] == x);
                }
            }
        }
        i = i + 1;
    }
    assert(out@.to_set() =~= a@.to_set().union(b@.to_set()));
    out
}

/// Accumulates a selection of entities and, for each, of its components;
/// then lays out the scene in one pass.
///
/// Each entity is selected at most once; selecting it again merges the
/// selections. Entities keep the order in which they were first selected.
pub struct SceneBuilder {
    entities: Vec<EntityId>,
    selections: Vec<ComponentSelection>,
    model: Ghost<Map<EntityId, Selection>>,
}

impl View for SceneBuilder {
    type V = Map<EntityId, Selection>;

    closed spec fn view(&self) -> Map<EntityId, Selection> {
        self.model@
    }
}

impl SceneBuilder {
    /// Each selected entity is listed once, with one selection that lists
    /// each kind once, and the view holds exactly these pairs.
    pub closed spec fn wf(&self) -> bool {
        &&& self.entities@.len() == self.selections@.len()
        &&& self.entities@.no_duplicates()
        &&& forall|i: int| 0 <= i < self.selections@.len() ==> (#[trigger] self.selections@[i]).wf()
        &&& forall|e: EntityId| #[trigger] self.model@.contains_key(e) <==> self.entities@.contains(e)
        &&& forall|i: int| 0 <= i < self.entities@.len() ==>
            self.model@[#[trigger] self.entities@[i]] == self.selections@[i]@
    }

    /// The selected entities, in the order they were first selected.
    pub closed spec fn order(&self) -> Seq<EntityId> {
        self.entities@
    }

    /// The selection held at position `i` of `order()`.
    pub closed spec fn selection_at(&self, i: int) -> ComponentSelection {
        self.selections@[i]
    }

    /// The scene that the current selection yields over the given world.
    pub open spec fn scene_of(&self, records: Seq<Option<Vec<usize>>>, reflectable: Seq<usize>) -> Seq<(EntityId, Seq<usize>)> {
        Seq::new(
            self.order().len(),
            |i: int| (self.order()[i], resolve(self.selection_at(i), stored_at(records, i), reflectable)),
        )
    }

    /// The scene of the selection, read through the selections: each
    /// selected entity appears once, in order; one selected with all of its
    /// components carries its reflectable stored kinds, and one with listed
    /// kinds carries, each once, those of them stored on it and reflectable.
    pub proof fn lemma_scene_of_selection(&self, records: Seq<Option<Vec<usize>>>, reflectable: Seq<usize>, i: int)
        requires
            self.wf(),
            0 <= i < self.order().len(),
        ensures
            self.order().no_duplicates(),
            self@.contains_key(self.order()[i]),
            self.scene_of(records, reflectable)[i].0 == self.order()[i],
            stored_at(records, i) is None ==> self.scene_of(records, reflectable)[i].1 == Seq::<usize>::empty(),
            stored_at(records, i) matches Some(stored) ==> match self@[self.order()[i]] {
                Selection::All => self.scene_of(records, reflectable)[i].1 == reflectable_of(stored, reflectable),
                Selection::Kinds(kinds) => {
                    &&& self.scene_of(records, reflectable)[i].1.no_duplicates()
                    &&& forall|k: usize| #[trigger] self.scene_of(records, reflectable)[i].1.contains(k) <==> (
                        kinds.contains(k) && stored.contains(k) && reflectable.contains(k))
                },
            },
    {
        assert(self.entities@.contains(self.entities@[i]));
        if let Some(stored) = stored_at(records, i) {
            if let ComponentSelection::ByIds(ids) = self.selections@[i] {
                lemma_reflected_members(ids@, stored, reflectable);
            }
        }
    }

    /// An empty builder.
    pub fn new() -> (b: SceneBuilder)
        ensures
            b.wf(),
            b@ == Map::<EntityId, Selection>::empty(),
            b.order() == Seq::<EntityId>::empty(),
    {
        SceneBuilder { entities: Vec::new(), selections: Vec::new(), model: Ghost(Map::empty()) }
    }

    fn find(&self, e: EntityId) -> (r: Option<usize>)
        ensures
            match r {
                Some(i) => i < self.entities@.len() && self.entities@[i as int] == e,
                None => !self.entities@.contains(e),
            },
    {
        let mut i: usize = 0;
        while i < self.entities.len()
            invariant
                i <= self.entities@.len(),
                forall|j: int| 0 <= j < i ==> self.entities@[j] != e,
            decreases self.entities@.len() - i,
        {
            if self.entities[i] == e {
                return Some(i);
            }
            i = i + 1;
        }
        None
    }

    fn select_all(&mut self, e: EntityId)
        requires
            old(self).wf(),
        ensures
            final(self).wf(),
            final(self)@ == old(self)@.insert(e, Selection::All),
            final(self).order() == with_entity(old(self).order(), e),
    {
        match self.find(e) {
            Some(i) => {
                self.selections.set(i, ComponentSelection::All);
                self.model = Ghost(self.model@.insert(e, Selection::All));
                assert(self.model@ =~= old(self).model@.insert(e, Selection::All));
            },
            None => {
                self.entities.push(e);
                self.selections.push(ComponentSelection::All);
                self.model = Ghost(self.model@.insert(e, Selection::All));
                proof {
                    assert forall|x: EntityId| #[trigger] self.model@.contains_key(x) <==> self.entities@.contains(x) by {
                        if old(self).entities@.contains(x) {
                            let j = choose|j: int| 0 <= j < old(self).entities@.len() && old(self).entities@[j] == x;
                            assert(self.entities@[j] == x);
                        }
                        if x == e {
                            assert(self.entities@[self.entities@.len() - 1] == x);
                        }
                        if self.entities@.contains(x) && x != e {
                            let j = choose|j: int| 0 <= j < self.entities@.len() && self.entities@[j] == x;
                            assert(old(self).entities@[j] == x);
                        }
                    }
                }
            },
        }
    }

    /// Selects entity `e` with all of its components.
    pub fn add_entity(&mut self, e: EntityId) -> (r: &mut Self)
        requires
            old(self).wf(),
        ensures
            r.wf(),
            r@ == old(self)@.insert(e, Selection::All),
            r.order() == with_entity(old(self).order(), e),
            *final(self) == *final(r),
    {
        self.select_all(e);
        self
    }
    fn select_kinds(&mut self, e: EntityId, kinds: &Vec<usize>)
        requires
            old(self).wf(),
        ensures
            final(self).wf(),
            final(self)@ == merge_kinds(old(self)@, e, kinds@.to_set()),
            final(self).order() == with_entity(old(self).order(), e),
    {
        match self.find(e) {
            Some(i) => {
                let merged = match &self.selections[i] {
                    ComponentSelection::All => None,
                    ComponentSelection::ByIds(ids) => Some(union_kinds(ids, kinds)),
                };
                if let Some(ids) = merged {
                    let ghost sel = self.model@[e];
                    let ghost new_sel = Selection::Kinds(ids@.to_set());
                    self.selections.set(i, ComponentSelection::ByIds(ids));
                    self.model = Ghost(self.model@.insert(e, new_sel));
                    assert(self.model@ =~= merge_kinds(old(self).model@, e, kinds@.to_set()));
                }
            },
            None => {
                let empty: Vec<usize> = Vec::new();
                let ids = union_kinds(&empty, kinds);
                assert(ids@.to_set() =~= kinds@.to_set());
                let ghost new_sel = Selection::Kinds(ids@.to_set());
                self.entities.push(e);
                self.selections.push(ComponentSelection::ByIds(ids));
                self.model = Ghost(self.model@.insert(e, new_sel));
                proof {
                    assert forall|x: EntityId| #[trigger] self.model@.contains_key(x) <==> self.entities@.contains(x) by {
                        if old(self).entities@.contains(x) {
                            let j = choose|j: int| 0 <= j < old(self).entities@.len() && old(self).entities@[j] == x;
                            assert(self.entities@[j] == x);
                        }
                        if x == e {
                            assert(self.entities@[self.entities@.len() - 1] == x);
                        }
                        if self.entities@.contains(x) && x != e {
                            let j = choose|j: int| 0 <= j < self.entities@.len() && self.entities@[j] == x;
                            assert(old(self).entities@[j] == x);
                        }
                    }
                }
            },
        }
    }

    /// Adds the kinds `kinds` to the selection of entity `e`: an entity not
    /// yet selected gets exactly these kinds, one with listed kinds gets the
    /// union, and one selected with all of its components is left as it is.
    pub fn add_components_to_entity(&mut self, e: EntityId, kinds: &Vec<usize>) -> (r: &mut Self)
        requires
            old(self).wf(),
        ensures
            r.wf(),
            r@ == merge_kinds(old(self)@, e, kinds@.to_set()),
            r.order() == with_entity(old(self).order(), e),
            *final(self) == *final(r),
    {
        self.select_kinds(e, kinds);
        self
    }
    /// Selects every entity of `matched` (those that pass the caller's
    /// filter) with all of its components.
    pub fn add_from_query_filter(&mut self, matched: &Vec<EntityId>) -> (r: &mut Self)
        requires
            old(self).wf(),
        ensures
            r.wf(),
            r@ == select_all_each(old(self)@, matched@),
            r.order() == order_each(old(self).order(), matched@),
            *final(self) == *final(r),
    {
        self.select_all_each(matched);
        self
    }

    /// Selects each entity of `entities` with all of its components.
    pub fn add_entities(&mut self, entities: &Vec<EntityId>) -> (r: &mut Self)
        requires
            old(self).wf(),
        ensures
            r.wf(),
            r@ == select_all_each(old(self)@, entities@),
            r.order() == order_each(old(self).order(), entities@),
            *final(self) == *final(r),
    {
        self.select_all_each(entities);
        self
    }

    fn select_all_each(&mut self, entities: &Vec<EntityId>)
        requires
            old(self).wf(),
        ensures
            final(self).wf(),
            final(self)@ == select_all_each(old(self)@, entities@),
            final(self).order() == order_each(old(self).order(), entities@),
    {
        let ghost m0 = self@;
        let ghost o0 = self.order();
        let mut i: usize = 0;
        while i < entities.len()
            invariant
                i <= entities@.len(),
                self.wf(),
                self@ == select_all_each(m0, entities@.take(i as int)),
                self.order() == order_each(o0, entities@.take(i as int)),
            decreases entities@.len() - i,
        {
            proof {
                assert(entities@.take(i + 1).drop_last() =~= entities@.take(i as int));
            }
            self.select_all(entities[i]);
            i = i + 1;
        }
        assert(entities@.take(entities@.len() as int) =~= entities@);
    }

    /// Adds the kinds `kinds` to each entity of `entities`, by the rule of
    /// `add_components_to_entity`.
    pub fn add_components_to_entities(&mut self, entities: &Vec<EntityId>, kinds: &Vec<usize>) -> (r: &mut Self)
        requires
            old(self).wf(),
        ensures
            r.wf(),
            r@ == merge_each(old(self)@, entities@, kinds@.to_set()),
            r.order() == order_each(old(self).order(), entities@),
            *final(self) == *final(r),
    {
        let ghost m0 = self@;
        let ghost o0 = self.order();
        let mut i: usize = 0;
        while i < entities.len()
            invariant
                i <= entities@.len(),
                self.wf(),
                self@ == merge_each(m0, entities@.take(i as int), kinds@.to_set()),
                self.order() == order_each(o0, entities@.take(i as int)),
            decreases entities@.len() - i,
        {
            proof {
                assert(entities@.take(i + 1).drop_last() =~= entities@.take(i as int));
            }
            self.select_kinds(entities[i], kinds);
            i = i + 1;
        }
        assert(entities@.take(entities@.len() as int) =~= entities@);
        self
    }

    /// Adds the kinds `kinds` to each entity of `matched` (those that pass
    /// the caller's filter) that carries every one of them, by the rule of
    /// `add_components_to_entity`.
    pub fn add_with_components(&mut self, matched: &Vec<EntityRecord>, kinds: &Vec<usize>) -> (r: &mut Self)
        requires
            old(self).wf(),
        ensures
            r.wf(),
            r@ == merge_each(old(self)@, entities_with_all(matched@, kinds@), kinds@.to_set()),
            r.order() == order_each(old(self).order(), entities_with_all(matched@, kinds@)),
            *final(self) == *final(r),
    {
        let ghost m0 = self@;
        let ghost o0 = self.order();
        let mut i: usize = 0;
        while i < matched.len()
            invariant
                i <= matched@.len(),
                self.wf(),
                self@ == merge_each(m0, entities_with_all(matched@.take(i as int), kinds@), kinds@.to_set()),
                self.order() == order_each(o0, entities_with_all(matched@.take(i as int), kinds@)),
            decreases matched@.len() - i,
        {
            proof {
                assert(matched@.take(i + 1).drop_last() =~= matched@.take(i as int));
            }
            let rec = &matched[i];
            let ghost prev = entities_with_all(matched@.take(i as int), kinds@);
            let ghost next = entities_with_all(matched@.take(i + 1), kinds@);
            assert(matched@.take(i + 1).last() == matched@[i as int]);
            if record_has_all(rec, kinds) {
                assert(next == prev.push(rec.entity));
                assert(next.drop_last() =~= prev);
                self.select_kinds(rec.entity, kinds);
            } else {
                assert(next == prev);
            }
            i = i + 1;
        }
        assert(matched@.take(matched@.len() as int) =~= matched@);
        self
    }

    /// The selected entities, in the order they were first selected.
    pub fn entities(&self) -> (r: Vec<EntityId>)
        ensures
            r@ == self.order(),
    {
        let mut r: Vec<EntityId> = Vec::new();
        let mut i: usize = 0;
        while i < self.entities.len()
            invariant
                i <= self.entities@.len(),
                r@ == self.entities@.take(i as int),
            decreases self.entities@.len() - i,
        {
            r.push(self.entities[i]);
            proof {
                assert(r@ =~= self.entities@.take(i + 1));
            }
            i = i + 1;
        }
        assert(r@ =~= self.entities@);
        r
    }

    /// Lays out the scene of the current selection. `records[i]` holds the
    /// kinds stored with the entity at position `i` of the order, or `None`
    /// when that entity is not in the world; a missing record counts as
    /// `None`. Each entity appears, in order, with the kinds its selection
    /// yields that are stored on it and reflectable; the builder is not
    /// changed.
    pub fn build_scene(&self, records: &Vec<Option<Vec<usize>>>, reflectable: &Vec<usize>) -> (scene: Vec<SceneEntity>)
        requires
            self.wf(),
        ensures
            scene_view(scene@) == self.scene_of(records@, reflectable@),
    {
        let mut scene: Vec<SceneEntity> = Vec::new();
        let mut i: usize = 0;
        while i < self.entities.len()
            invariant
                self.wf(),
                i <= self.entities@.len(),
                scene@.len() == i,
                forall|j: int| 0 <= j < i ==> {
                    &&& (#[trigger] scene@[j]).entity == self.entities@[j]
                    &&& scene@[j].components@ == resolve(self.selections@[j], stored_at(records@, j), reflectable@)
                },
            decreases self.entities@.len() - i,
        {
            let mut components: Vec<usize> = Vec::new();
            if i < records.len() {
                match &records[i] {
                    Some(stored) => {
                        components = match &self.selections[i] {
                            ComponentSelection::All => reflectable_kinds(stored, reflectable),
                            ComponentSelection::ByIds(ids) => reflected_kinds(ids, stored, reflectable),
                        };
                    },
                    None => {},
                }
            }
            assert(components@ == resolve(self.selections@[i as int], stored_at(records@, i as int), reflectable@));
            scene.push(SceneEntity { entity: self.entities[i], components });
            i = i + 1;
        }
        assert(scene_view(scene@) =~= self.scene_of(records@, reflectable@));
        scene
    }
}

/// Adding kinds `k1` to an entity not yet selected, then kinds `k2`, leaves
/// it selected with the union of both; adding kinds to an entity selected
/// with all of its components leaves every selection unchanged.
pub proof fn lemma_merge_law(b: SceneBuilder, e: EntityId, k1: Seq<usize>, k2: Seq<usize>)
    requires
        b.wf(),
    ensures
        !b@.contains_key(e) ==> merge_kinds(merge_kinds(b@, e, k1.to_set()), e, k2.to_set()) == b@.insert(
            e,
            Selection::Kinds(k1.to_set().union(k2.to_set())),
        ),
        b@.contains_key(e) && b@[e] == Selection::All ==> merge_kinds(b@, e, k1.to_set()) == b@,
{
    if !b@.contains_key(e) {
        assert(merge_kinds(merge_kinds(b@, e, k1.to_set()), e, k2.to_set()) =~= b@.insert(
            e,
            Selection::Kinds(k1.to_set().union(k2.to_set())),
        ));
    }
}

/// Selecting an entity with all of its components twice gives the same
/// selections and the same order as selecting it once.
pub proof fn lemma_add_entity_idempotent(b: SceneBuilder, e: EntityId)
    requires
        b.wf(),
    ensures
        b@.insert(e, Selection::All).insert(e, Selection::All) == b@.insert(e, Selection::All),
        with_entity(with_entity(b.order(), e), e) == with_entity(b.order(), e),
{
    assert(b@.insert(e, Selection::All).insert(e, Selection::All) =~= b@.insert(e, Selection::All));
    assert(with_entity(b.order(), e).contains(e)) by {
        if !b.order().contains(e) {
            assert(b.order().push(e)[b.order().len() as int] == e);
        }
    }
}

/// Laying out the scene twice over the same world gives the same scene.
pub proof fn lemma_build_scene_repeatable(
    b: SceneBuilder,
    records: Seq<Option<Vec<usize>>>,
    reflectable: Seq<usize>,
    first: Seq<SceneEntity>,
    second: Seq<SceneEntity>,
)
    requires
        b.wf(),
        scene_view(first) == b.scene_of(records, reflectable),
        scene_view(second) == b.scene_of(records, reflectable),
    ensures
        scene_view(first) == scene_view(second),
{
}

} // verus!
