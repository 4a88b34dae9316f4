//! Acquisitions and their order.
use vstd::prelude::*;
use crate::scenes::{
    consecutive_pairs, dated, dated_scenes, goes_before, is_chronological_order, scene_texts,
    sort_by_date, Scene, ScenePair, StacFeature,
};
use crate::text::text_less;

verus! {

/// The features with a date are those, and only those, that become acquisitions: one each, with its
/// own name and date, in the order of the list.
pub proof fn dated_features_become_scenes(features: &[StacFeature], scenes: Vec<Scene>)
    requires
        call_ensures(dated_scenes, (features,), scenes),
    ensures
        ({
            let kept = features@.filter(|f: StacFeature| f.properties.datetime is Some);
            &&& scenes.len() == kept.len()
            &&& forall|i: int|
                0 <= i < kept.len() ==> (#[trigger] scenes@[i]).id@ == kept[i].id@
                    && scenes@[i].date@ == kept[i].properties.datetime->0@
        }),
{
    let kept = features@.filter(|f: StacFeature| f.properties.datetime is Some);
    dated_features_are_kept(features@);
    assert forall|i: int| 0 <= i < kept.len() implies (#[trigger] scenes@[i]).id@ == kept[i].id@
        && scenes@[i].date@ == kept[i].properties.datetime->0@ by {
        assert(scene_texts(scenes@)[i] == scenes@[i]@);
        assert(dated(features@)[i].id == kept[i].id@);
    }
}

/// The dated features of a list are what is left when those without a date are taken out.
pub proof fn dated_features_are_kept(features: Seq<StacFeature>)
    ensures
        ({
            let kept = features.filter(|f: StacFeature| f.properties.datetime is Some);
            &&& dated(features).len() == kept.len()
            &&& forall|i: int|
                0 <= i < kept.len() ==> (#[trigger] dated(features)[i]).id == kept[i].id@
                    && dated(features)[i].date == kept[i].properties.datetime->0@
        }),
    decreases features.len(),
{
    reveal(Seq::filter);
    if features.len() > 0 {
        dated_features_are_kept(features.drop_last());
    }
}

/// Sorting brings acquisitions into the order of their dates: every acquisition of the list is
/// there once, with its name, none comes before one of an earlier date, and those of one date stay
/// in the order of the list.
pub proof fn sorting_is_by_date_and_stable(scenes: &Vec<Scene>, sorted: Vec<Scene>)
    requires
        call_ensures(sort_by_date, (scenes,), sorted),
    ensures
        sorted.len() == scenes.len(),
        exists|from: Seq<int>|
            {
                &&& from.len() == sorted.len()
                &&& from.no_duplicates()
                &&& forall|k: int|
                    0 <= k < from.len() ==> 0 <= #[trigger] from[k] < scenes.len()
                        && sorted@[k].id@ == scenes@[from[k]].id@ && sorted@[k].date@
                        == scenes@[from[k]].date@
                &&& forall|k: int, l: int|
                    #![trigger from[k], from[l]]
                    0 <= k < l < from.len() ==> text_less(
                        scenes@[from[k]].date@,
                        scenes@[from[l]].date@,
                    ) || scenes@[from[k]].date@ == scenes@[from[l]].date@ && from[k] < from[l]
            },
{
    let texts = scene_texts(scenes@);
    let order = choose|order: Seq<int>|
        #[trigger] is_chronological_order(texts, order) && scene_texts(sorted@) == Seq::new(
            order.len(),
            |k: int| texts[order[k]],
        );
    assert(scene_texts(sorted@).len() == sorted.len());
    assert forall|k: int, l: int| 0 <= k < order.len() && 0 <= l < order.len() && k
        != l implies order[k] != order[l] by {
        if k < l {
            assert(goes_before(texts, order[k], order[l]));
            crate::text::text_order_is_total(texts[order[k]].date, texts[order[l]].date);
        } else {
            assert(goes_before(texts, order[l], order[k]));
            crate::text::text_order_is_total(texts[order[l]].date, texts[order[k]].date);
        }
    }
    assert(order.no_duplicates());
    assert forall|k: int| 0 <= k < order.len() implies 0 <= #[trigger] order[k] < scenes.len()
        && sorted@[k].id@ == scenes@[order[k]].id@ && sorted@[k].date@
        == scenes@[order[k]].date@ by {
        assert(scene_texts(sorted@)[k] == sorted@[k]@);
        assert(texts[order[k]] == scenes@[order[k]]@);
    }
    assert forall|k: int, l: int|
        #![trigger order[k], order[l]]
        0 <= k < l < order.len() implies text_less(
        scenes@[order[k]].date@,
        scenes@[order[l]].date@,
    ) || scenes@[order[k]].date@ == scenes@[order[l]].date@ && order[k] < order[l] by {
        assert(goes_before(texts, order[k], order[l]));
        assert(texts[order[k]] == scenes@[order[k]]@ && texts[order[l]] == scenes@[order[l]]@);
    }
}

/// Every acquisition but the last forms a pair with the next one, however many there are.
pub proof fn neighbours_form_pairs<'a>(scenes: &'a Vec<Scene>, pairs: Vec<ScenePair<'a>>)
    requires
        call_ensures(consecutive_pairs, (scenes,), pairs),
    ensures
        scenes.len() == 0 ==> pairs.len() == 0,
        scenes.len() > 0 ==> pairs.len() == scenes.len() - 1,
        forall|i: int|
            0 <= i < scenes.len() - 1 ==> *(#[trigger] pairs@[i]).first == scenes@[i]
                && *pairs@[i].second == scenes@[i + 1],
{
}

} // verus!
