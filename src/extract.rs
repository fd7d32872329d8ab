use vstd::prelude::*;
use crate::world::{
    EntityId,
    EntityRecord, has_all, reflected, reflectable_of, record_has_all, reflected_kinds,
    reflectable_kinds, lemma_reflected_members, lemma_reflected_self,
};

verus! {

/// One entity of a scene: the entity and the component kinds whose
/// values go into the scene, in the order they are taken.
#[derive(Clone, Debug)]
pub struct SceneEntity {
    pub entity: EntityId,
    pub components: Vec<usize>,
}

/// A scene as plain values: entity and component kinds.
pub open spec fn scene_view(scene: Seq<SceneEntity>) -> Seq<(EntityId, Seq<usize>)> {
    scene.map_values(|s: SceneEntity| (s.entity, s.components@))
}

/// The records that carry every declared kind, in query order.
pub open spec fn with_all_kinds(matched: Seq<EntityRecord>, kinds: Seq<usize>) -> Seq<EntityRecord> {
    matched.filter(|r: EntityRecord| has_all(r, kinds))
}

/// The component-selected scene: each record that carries every declared
/// kind, with the declared kinds stored on it and reflectable.
pub open spec fn components_scene(matched: Seq<EntityRecord>, kinds: Seq<usize>, reflectable: Seq<usize>) -> Seq<(EntityId, Seq<usize>)> {
    with_all_kinds(matched, kinds).map_values(
        |r: EntityRecord| (r.entity, reflected(kinds, r.kinds@, reflectable)),
    )
}

/// The filter-only scene: each record with its reflectable stored kinds.
pub open spec fn filter_scene(matched: Seq<EntityRecord>, reflectable: Seq<usize>) -> Seq<(EntityId, Seq<usize>)> {
    matched.map_values(|r: EntityRecord| (r.entity, reflectable_of(r.kinds@, reflectable)))
}

/// Scene of the entities in `matched` (those that pass the caller's filter)
/// that carry every kind of `kinds`; each carries the declared kinds that are
/// stored on it and reflectable, in declaration order.
pub fn scene_from_query_components(
    matched: &Vec<EntityRecord>,
    kinds: &Vec<usize>,
    reflectable: &Vec<usize>,
) -> (scene: Vec<SceneEntity>)
    ensures
        scene_view(scene@) == components_scene(matched@, kinds@, reflectable@),
{
    let mut scene: Vec<SceneEntity> = Vec::new();
    let mut i: usize = 0;
    while i < matched.len()
        invariant
            i <= matched@.len(),
            scene@.len() == with_all_kinds(matched@.take(i as int), kinds@).len(),
            forall|j: int| 0 <= j < scene@.len() ==> {
                let rec = #[trigger] with_all_kinds(matched@.take(i as int), kinds@)[j];
                &&& scene@[j].entity == rec.entity
                &&& scene@[j].components@ == reflected(kinds@, rec.kinds@, reflectable@)
            },
        decreases matched@.len() - i,
    {
        proof {
            reveal(Seq::filter);
            assert(matched@.take(i + 1).drop_last() =~= matched@.take(i as int));
        }
        let rec = &matched[i];
        if record_has_all(rec, kinds) {
            let components = reflected_kinds(kinds, &rec.kinds, reflectable);
            scene.push(SceneEntity { entity: rec.entity, components });
        }
        i = i + 1;
    }
    assert(matched@.take(matched@.len() as int) =~= matched@);
    assert(scene_view(scene@) =~= components_scene(matched@, kinds@, reflectable@));
    scene
}

/// Scene of every entity in `matched` (those that pass the caller's
/// filter), each carrying all of its stored kinds that are reflectable, in
/// storage order.
pub fn scene_from_query_filter(matched: &Vec<EntityRecord>, reflectable: &Vec<usize>) -> (scene: Vec<SceneEntity>)
    ensures
        scene_view(scene@) == filter_scene(matched@, reflectable@),
{
    let mut scene: Vec<SceneEntity> = Vec::new();
    let mut i: usize = 0;
    while i < matched.len()
        invariant
            i <= matched@.len(),
            scene@.len() == i,
            forall|j: int| 0 <= j < i ==> {
                &&& #[trigger] scene@[j].entity == matched@[j].entity
                &&& scene@[j].components@ == reflectable_of(matched@[j].kinds@, reflectable@)
            },
        decreases matched@.len() - i,
    {
        let rec = &matched[i];
        let components = reflectable_kinds(&rec.kinds, reflectable);
        scene.push(SceneEntity { entity: rec.entity, components });
        i = i + 1;
    }
    assert(scene_view(scene@) =~= filter_scene(matched@, reflectable@));
    scene
}

/// Only entities that pass the filter reach a scene: every entry of a
/// component-selected scene comes from a matched record that carries every
/// declared kind, and every entry of a filter-only scene from a matched
/// record.
pub proof fn lemma_only_matched_entities(matched: Seq<EntityRecord>, kinds: Seq<usize>, reflectable: Seq<usize>)
    ensures
        forall|i: int| 0 <= i < components_scene(matched, kinds, reflectable).len() ==> {
            let r = #[trigger] with_all_kinds(matched, kinds)[i];
            &&& matched.contains(r)
            &&& has_all(r, kinds)
            &&& components_scene(matched, kinds, reflectable)[i].0 == r.entity
        },
        forall|i: int| 0 <= i < filter_scene(matched, reflectable).len() ==> {
            &&& matched.contains(#[trigger] matched[i])
            &&& filter_scene(matched, reflectable)[i].0 == matched[i].entity
        },
{
    let sel = with_all_kinds(matched, kinds);
    assert forall|i: int| 0 <= i < components_scene(matched, kinds, reflectable).len() implies {
        let r = #[trigger] with_all_kinds(matched, kinds)[i];
        &&& matched.contains(r)
        &&& has_all(r, kinds)
        &&& components_scene(matched, kinds, reflectable)[i].0 == r.entity
    } by {
        assert(sel.contains(sel[i]));
        matched.lemma_filter_contains_rev(|r: EntityRecord| has_all(r, kinds), sel[i]);
        matched.lemma_filter_pred(|r: EntityRecord| has_all(r, kinds), i);
    }
    assert forall|i: int| 0 <= i < filter_scene(matched, reflectable).len() implies {
        &&& matched.contains(#[trigger] matched[i])
        &&& filter_scene(matched, reflectable)[i].0 == matched[i].entity
    } by {
        assert(matched.contains(matched[i]));
    }
}

/// In a component-selected scene, an entity carries exactly the declared
/// kinds that are stored on it and reflectable, each once when the
/// declaration lists each once.
pub proof fn lemma_components_scene_kinds(matched: Seq<EntityRecord>, kinds: Seq<usize>, reflectable: Seq<usize>, i: int)
    requires
        0 <= i < components_scene(matched, kinds, reflectable).len(),
    ensures
        forall|k: usize| #[trigger] components_scene(matched, kinds, reflectable)[i].1.contains(k) <==> (kinds.contains(k)
            && with_all_kinds(matched, kinds)[i].kinds@.contains(k) && reflectable.contains(k)),
        kinds.no_duplicates() ==> components_scene(matched, kinds, reflectable)[i].1.no_duplicates(),
{
    lemma_reflected_members(kinds, with_all_kinds(matched, kinds)[i].kinds@, reflectable);
}

/// In a filter-only scene, an entity carries exactly its stored kinds that
/// are reflectable.
pub proof fn lemma_filter_scene_kinds(matched: Seq<EntityRecord>, reflectable: Seq<usize>, i: int)
    requires
        0 <= i < matched.len(),
    ensures
        forall|k: usize| #[trigger] filter_scene(matched, reflectable)[i].1.contains(k) <==> (
            matched[i].kinds@.contains(k) && reflectable.contains(k)),
{
    let stored = matched[i].kinds@;
    lemma_reflected_self(stored, stored.len() as int, reflectable);
    assert(stored.take(stored.len() as int) =~= stored);
    lemma_reflected_members(stored, stored, reflectable);
}

} // verus!
