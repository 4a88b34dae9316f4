//! Acquisitions: which of them can be used, in which order, and in which pairs.
use vstd::prelude::*;
use crate::calendar::{
    baseline_days, date_days, day_text, has_day, is_calendar_day, text_order_is_day_order,
};
use crate::sequences::lemma_one_order;
use crate::text::{comes_before, text_less, text_order_is_total, text_order_is_transitive};

verus! {

/// What the catalogue says of a scene.
pub struct FeatureProperties {
    pub datetime: Option<String>,
    pub instrument_mode: Option<String>,
}

/// A scene as the catalogue lists it.
pub struct StacFeature {
    pub id: String,
    pub properties: FeatureProperties,
}

/// An acquisition with a known date.
pub struct Scene {
    pub id: String,
    pub date: String,
}

/// The texts of an acquisition.
#[verifier::ext_equal]
pub struct SceneText {
    pub id: Seq<char>,
    pub date: Seq<char>,
}

/// Two acquisitions that form an interferogram.
pub struct ScenePair<'a> {
    pub first: &'a Scene,
    pub second: &'a Scene,
}

impl View for Scene {
    type V = SceneText;

    open spec fn view(&self) -> SceneText {
        SceneText { id: self.id@, date: self.date@ }
    }
}

/// The texts of several acquisitions.
pub open spec fn scene_texts(scenes: Seq<Scene>) -> Seq<SceneText> {
    scenes.map_values(|s: Scene| s@)
}

/// The features that have a date, in the order in which they are listed.
pub open spec fn dated(features: Seq<StacFeature>) -> Seq<SceneText>
    decreases features.len(),
{
    if features.len() == 0 {
        Seq::empty()
    } else {
        let before = dated(features.drop_last());
        match features.last().properties.datetime {
            Some(date) => before.push(SceneText { id: features.last().id@, date: date@ }),
            None => before,
        }
    }
}

/// Whether scene `i` of a list goes before scene `j`: by date, and by place where the dates are
/// the same.
pub open spec fn goes_before(scenes: Seq<SceneText>, i: int, j: int) -> bool {
    ||| text_less(scenes[i].date, scenes[j].date)
    ||| scenes[i].date == scenes[j].date && i < j
}

/// Whether `order` lists the places of all scenes, each before those that it goes before.
pub open spec fn is_chronological_order(scenes: Seq<SceneText>, order: Seq<int>) -> bool {
    &&& order.len() == scenes.len()
    &&& forall|k: int| 0 <= k < order.len() ==> 0 <= #[trigger] order[k] < scenes.len()
    &&& forall|i: int| 0 <= i < scenes.len() ==> #[trigger] order.contains(i)
    &&& forall|k: int, l: int|
        0 <= k < l < order.len() ==> goes_before(scenes, #[trigger] order[k], #[trigger] order[l])
}

/// Whether `sorted` holds the scenes of a list in the order of their dates, those of one date in
/// the order of the list.
pub open spec fn is_chronological(scenes: Seq<SceneText>, sorted: Seq<SceneText>) -> bool {
    exists|order: Seq<int>|
        #[trigger] is_chronological_order(scenes, order) && sorted == Seq::new(
            order.len(),
            |k: int| scenes[order[k]],
        )
}

/// The features that have a date.
pub fn dated_scenes(features: &[StacFeature]) -> (scenes: Vec<Scene>)
    ensures
        scene_texts(scenes@) == dated(features@),
{
    let mut scenes: Vec<Scene> = Vec::new();
    let mut i: usize = 0;
    while i < features.len()
        invariant
            i <= features.len(),
            scene_texts(scenes@) == dated(features@.take(i as int)),
        decreases features.len() - i,
    {
        let feature = &features[i];
        assert(features@.take(i + 1).drop_last() == features@.take(i as int));
        if let Some(date) = &feature.properties.datetime {
            let ghost before = scenes@;
            scenes.push(Scene { id: feature.id.clone(), date: date.clone() });
            assert(scene_texts(scenes@) == scene_texts(before).push(scenes@.last()@));
        }
        i = i + 1;
    }
    assert(features@.take(i as int) == features@);
    scenes
}

/// The places of an order, as mathematical integers.
spec fn places(order: Seq<usize>) -> Seq<int> {
    order.map_values(|k: usize| k as int)
}

/// The order of scenes by date.
fn chronological_order(scenes: &Vec<Scene>) -> (order: Vec<usize>)
    ensures
        is_chronological_order(scene_texts(scenes@), places(order@)),
{
    let ghost texts = scene_texts(scenes@);
    let mut order: Vec<usize> = Vec::new();
    let mut i: usize = 0;
    while i < scenes.len()
        invariant
            i <= scenes.len(),
            texts == scene_texts(scenes@),
            order.len() == i,
            forall|k: int| 0 <= k < i ==> (#[trigger] order@[k]) < i,
            forall|j: int| 0 <= j < i ==> #[trigger] order@.contains(j as usize),
            forall|k: int, l: int|
                0 <= k < l < i ==> goes_before(
                    texts,
                    (#[trigger] order@[k]) as int,
                    (#[trigger] order@[l]) as int,
                ),
        decreases scenes.len() - i,
    {
        let mut at: usize = order.len();
        while at > 0 && comes_before(
            scenes[i].date.as_str(),
            scenes[order[at - 1]].date.as_str(),
        )
            invariant
                at <= order.len() == i,
                i < scenes.len(),
                texts == scene_texts(scenes@),
                forall|k: int| 0 <= k < i ==> (#[trigger] order@[k]) < i,
                forall|k: int|
                    at <= k < i ==> text_less(
                        texts[i as int].date,
                        texts[(#[trigger] order@[k]) as int].date,
                    ),
            decreases at,
        {
            at = at - 1;
        }
        let ghost before = order@;
        proof {
            assert forall|k: int| 0 <= k < at implies goes_before(
                texts,
                (#[trigger] before[k]) as int,
                i as int,
            ) by {
                let last = before[at - 1] as int;
                text_order_is_total(texts[i as int].date, texts[last].date);
                if k < at - 1 {
                    assert(goes_before(texts, before[k] as int, last));
                    if text_less(texts[before[k] as int].date, texts[last].date) && text_less(
                        texts[last].date,
                        texts[i as int].date,
                    ) {
                        text_order_is_transitive(
                            texts[before[k] as int].date,
                            texts[last].date,
                            texts[i as int].date,
                        );
                    }
                }
            }
        }
        order.insert(at, i);
        proof {
            assert forall|j: int| 0 <= j < i + 1 implies #[trigger] order@.contains(j as usize) by {
                if j < i {
                    assert(before.contains(j as usize));
                    let k = choose|k: int| 0 <= k < before.len() && before[k] == j as usize;
                    if k < at {
                        assert(order@[k] == j as usize);
                    } else {
                        assert(order@[k + 1] == j as usize);
                    }
                } else {
                    assert(order@[at as int] == j as usize);
                }
            }
            assert forall|k: int, l: int| 0 <= k < l < i + 1 implies goes_before(
                texts,
                (#[trigger] order@[k]) as int,
                (#[trigger] order@[l]) as int,
            ) by {
                let k0 = if k < at { k } else { k - 1 };
                let l0 = if l < at { l } else { l - 1 };
                if k != at && l != at {
                    assert(order@[k] == before[k0] && order@[l] == before[l0]);
                } else if k == at {
                    assert(order@[l] == before[l0]);
                } else {
                    assert(order@[k] == before[k0]);
                }
            }
        }
        i = i + 1;
    }
    proof {
        let p = places(order@);
        assert forall|j: int| 0 <= j < texts.len() implies #[trigger] p.contains(j) by {
            assert(order@.contains(j as usize));
            let k = choose|k: int| 0 <= k < order@.len() && order@[k] == j as usize;
            assert(p[k] == j);
        }
    }
    order
}

/// Sorts scenes by date.
pub fn sort_by_date(scenes: &Vec<Scene>) -> (sorted: Vec<Scene>)
    ensures
        is_chronological(scene_texts(scenes@), scene_texts(sorted@)),
{
    let order = chronological_order(scenes);
    let ghost texts = scene_texts(scenes@);
    let ghost p = places(order@);
    let mut sorted: Vec<Scene> = Vec::new();
    let mut k: usize = 0;
    while k < order.len()
        invariant
            k <= order.len(),
            texts == scene_texts(scenes@),
            p == places(order@),
            is_chronological_order(texts, p),
            sorted.len() == k,
            forall|j: int| 0 <= j < k ==> (#[trigger] sorted@[j])@ == texts[p[j]],
        decreases order.len() - k,
    {
        assert(0 <= p[k as int] < texts.len());
        let scene = &scenes[order[k]];
        sorted.push(Scene { id: scene.id.clone(), date: scene.date.clone() });
        k = k + 1;
    }
    proof {
        assert(scene_texts(sorted@) =~= Seq::new(p.len(), |j: int| texts[p[j]]));
    }
    sorted
}

/// Forms a pair of every two neighbouring acquisitions.
pub fn consecutive_pairs<'a>(scenes: &'a Vec<Scene>) -> (pairs: Vec<ScenePair<'a>>)
    ensures
        pairs.len() == (if scenes.len() == 0 {
            0
        } else {
            scenes.len() - 1
        }),
        forall|k: int|
            0 <= k < pairs.len() ==> *(#[trigger] pairs@[k]).first == scenes@[k]
                && *pairs@[k].second == scenes@[k + 1],
{
    let mut pairs: Vec<ScenePair<'a>> = Vec::new();
    let mut k: usize = 1;
    while k < scenes.len()
        invariant
            1 <= k,
            scenes.len() > 0 ==> k <= scenes.len(),
            scenes.len() == 0 ==> k == 1,
            pairs.len() == k - 1,
            forall|j: int|
                0 <= j < k - 1 ==> *(#[trigger] pairs@[j]).first == scenes@[j] && *pairs@[j].second
                    == scenes@[j + 1],
        decreases scenes.len() - k,
    {
        pairs.push(ScenePair { first: &scenes[k - 1], second: &scenes[k] });
        k = k + 1;
    }
    pairs
}

/// In chronological order no scene has an earlier date than one in front of it.
pub proof fn dates_never_decrease(scenes: Seq<SceneText>, sorted: Seq<SceneText>)
    requires
        is_chronological(scenes, sorted),
    ensures
        forall|k: int, l: int|
            0 <= k <= l < sorted.len() ==> !text_less(
                (#[trigger] sorted[l]).date,
                (#[trigger] sorted[k]).date,
            ),
{
    let order = choose|order: Seq<int>|
        #[trigger] is_chronological_order(scenes, order) && sorted == Seq::new(
            order.len(),
            |k: int| scenes[order[k]],
        );
    assert forall|k: int, l: int| 0 <= k <= l < sorted.len() implies !text_less(
        (#[trigger] sorted[l]).date,
        (#[trigger] sorted[k]).date,
    ) by {
        text_order_is_total(sorted[k].date, sorted[l].date);
        if k < l {
            assert(goes_before(scenes, order[k], order[l]));
        }
    }
}

/// Sorting keeps the number of scenes, every scene of the list, and adds none.
pub proof fn sorting_keeps_the_scenes(scenes: Seq<SceneText>, sorted: Seq<SceneText>)
    requires
        is_chronological(scenes, sorted),
    ensures
        sorted.len() == scenes.len(),
        forall|s: SceneText| scenes.contains(s) <==> sorted.contains(s),
{
    let order = choose|order: Seq<int>|
        #[trigger] is_chronological_order(scenes, order) && sorted == Seq::new(
            order.len(),
            |k: int| scenes[order[k]],
        );
    assert forall|s: SceneText| scenes.contains(s) <==> sorted.contains(s) by {
        if scenes.contains(s) {
            let i = choose|i: int| 0 <= i < scenes.len() && scenes[i] == s;
            assert(order.contains(i));
            let k = choose|k: int| 0 <= k < order.len() && order[k] == i;
            assert(sorted[k] == s);
        }
        if sorted.contains(s) {
            let k = choose|k: int| 0 <= k < sorted.len() && sorted[k] == s;
            assert(scenes[order[k]] == s);
        }
    }
}

/// A list of scenes has one chronological order only.
pub proof fn chronological_order_is_unique(
    scenes: Seq<SceneText>,
    sorted1: Seq<SceneText>,
    sorted2: Seq<SceneText>,
)
    requires
        is_chronological(scenes, sorted1),
        is_chronological(scenes, sorted2),
    ensures
        sorted1 == sorted2,
{
    let order1 = choose|order: Seq<int>|
        #[trigger] is_chronological_order(scenes, order) && sorted1 == Seq::new(
            order.len(),
            |k: int| scenes[order[k]],
        );
    let order2 = choose|order: Seq<int>|
        #[trigger] is_chronological_order(scenes, order) && sorted2 == Seq::new(
            order.len(),
            |k: int| scenes[order[k]],
        );
    assert forall|i: int, j: int| !(#[trigger] goes_before(scenes, i, j) && goes_before(
        scenes,
        j,
        i,
    )) by {
        text_order_is_total(scenes[i].date, scenes[j].date);
    }
    let before = |i: int, j: int| goes_before(scenes, i, j);
    assert forall|i: int| order1.contains(i) <==> order2.contains(i) by {
        if order1.contains(i) {
            let k = choose|k: int| 0 <= k < order1.len() && order1[k] == i;
            assert(0 <= order1[k] < scenes.len());
        }
        if order2.contains(i) {
            let k = choose|k: int| 0 <= k < order2.len() && order2[k] == i;
            assert(0 <= order2[k] < scenes.len());
        }
    }
    lemma_one_order(order1, order2, before);
}

/// Whether no two scenes of a list have the same date.
pub open spec fn dates_differ(scenes: Seq<SceneText>) -> bool {
    forall|i: int, j: int|
        0 <= i < j < scenes.len() ==> (#[trigger] scenes[i]).date != (#[trigger] scenes[j]).date
}

/// Two lists of the same scenes, none of them with a date of another, are equally long.
proof fn lemma_same_length(scenes1: Seq<SceneText>, scenes2: Seq<SceneText>)
    requires
        forall|s: SceneText| scenes1.contains(s) <==> scenes2.contains(s),
        dates_differ(scenes1),
        dates_differ(scenes2),
    ensures
        scenes1.len() == scenes2.len(),
{
    assert(scenes1.no_duplicates());
    assert(scenes2.no_duplicates());
    scenes1.unique_seq_to_set();
    scenes2.unique_seq_to_set();
    assert(scenes1.to_set() =~= scenes2.to_set());
}

/// Where no two scenes have the same date, the order in which they are listed does not matter:
/// what is the chronological order of one listing is the one of every other.
pub proof fn listing_order_does_not_matter(
    scenes1: Seq<SceneText>,
    scenes2: Seq<SceneText>,
    sorted: Seq<SceneText>,
)
    requires
        is_chronological(scenes1, sorted),
        forall|s: SceneText| scenes1.contains(s) <==> scenes2.contains(s),
        dates_differ(scenes1),
        dates_differ(scenes2),
    ensures
        is_chronological(scenes2, sorted),
{
    lemma_same_length(scenes1, scenes2);
    sorting_keeps_the_scenes(scenes1, sorted);
    lemma_strictly_sorted(scenes1, sorted);
    let place = |s: SceneText| choose|j: int| 0 <= j < scenes2.len() && scenes2[j] == s;
    let order = Seq::new(sorted.len(), |m: int| place(sorted[m]));
    assert forall|m: int| 0 <= m < order.len() implies 0 <= #[trigger] order[m] < scenes2.len()
        && scenes2[order[m]] == sorted[m] by {
        assert(sorted.contains(sorted[m]));
        assert(scenes2.contains(sorted[m]));
    }
    assert forall|i: int| 0 <= i < scenes2.len() implies #[trigger] order.contains(i) by {
        assert(scenes2.contains(scenes2[i]));
        assert(sorted.contains(scenes2[i]));
        let m = choose|m: int| 0 <= m < sorted.len() && sorted[m] == scenes2[i];
        let j = order[m];
        assert(scenes2[j] == scenes2[i]);
        if i < j {
            assert(scenes2[i].date != scenes2[j].date);
        } else if j < i {
            assert(scenes2[j].date != scenes2[i].date);
        }
        assert(order[m] == i);
    }
    assert forall|m: int, l: int| 0 <= m < l < order.len() implies goes_before(
        scenes2,
        #[trigger] order[m],
        #[trigger] order[l],
    ) by {
        assert(text_less(sorted[m].date, sorted[l].date));
    }
    assert(is_chronological_order(scenes2, order));
    assert(sorted =~= Seq::new(order.len(), |m: int| scenes2[order[m]]));
}

/// Scenes of different dates are strictly sorted.
proof fn lemma_strictly_sorted(scenes: Seq<SceneText>, sorted: Seq<SceneText>)
    requires
        is_chronological(scenes, sorted),
        dates_differ(scenes),
    ensures
        forall|k: int, l: int|
            0 <= k < l < sorted.len() ==> text_less(
                (#[trigger] sorted[k]).date,
                (#[trigger] sorted[l]).date,
            ),
{
    let order = choose|order: Seq<int>|
        #[trigger] is_chronological_order(scenes, order) && sorted == Seq::new(
            order.len(),
            |k: int| scenes[order[k]],
        );
    assert forall|k: int, l: int| 0 <= k < l < sorted.len() implies text_less(
        (#[trigger] sorted[k]).date,
        (#[trigger] sorted[l]).date,
    ) by {
        assert(goes_before(scenes, order[k], order[l]));
        text_order_is_total(scenes[order[k]].date, scenes[order[l]].date);
        let i = order[k];
        let j = order[l];
        assert(0 <= i < scenes.len() && 0 <= j < scenes.len());
        if i < j {
            assert(scenes[i].date != scenes[j].date);
        }
    }
}

/// The time spanned by neighbouring acquisitions, added up.
pub open spec fn summed_baselines(scenes: Seq<SceneText>) -> int
    decreases scenes.len(),
{
    if scenes.len() < 2 {
        0
    } else {
        summed_baselines(scenes.drop_last()) + baseline_days(
            scenes[scenes.len() - 2].date,
            scenes.last().date,
        )
    }
}

/// In a chronological stack whose dates are calendar days, the pairs together span exactly the
/// time between the first and the last acquisition.
pub proof fn pairs_span_the_stack(scenes: Seq<SceneText>)
    requires
        scenes.len() > 0,
        forall|k: int|
            0 <= k < scenes.len() ==> has_day((#[trigger] scenes[k]).date) && is_calendar_day(
                day_text(scenes[k].date),
            ),
        forall|k: int, l: int|
            0 <= k <= l < scenes.len() ==> !text_less(
                (#[trigger] scenes[l]).date,
                (#[trigger] scenes[k]).date,
            ),
    ensures
        summed_baselines(scenes) == baseline_days(scenes[0].date, scenes.last().date),
        date_days(day_text(scenes[0].date)) <= date_days(day_text(scenes.last().date)),
    decreases scenes.len(),
{
    if scenes.len() > 1 {
        let front = scenes.drop_last();
        assert forall|k: int, l: int| 0 <= k <= l < front.len() implies !text_less(
            (#[trigger] front[l]).date,
            (#[trigger] front[k]).date,
        ) by {
            assert(front[l] == scenes[l] && front[k] == scenes[k]);
        }
        assert forall|k: int| 0 <= k < front.len() implies has_day((#[trigger] front[k]).date)
            && is_calendar_day(day_text(front[k].date)) by {
            assert(front[k] == scenes[k]);
        }
        pairs_span_the_stack(front);
        assert(!text_less(scenes[scenes.len() - 1].date, scenes[scenes.len() - 2].date));
        text_order_is_day_order(scenes[scenes.len() - 2].date, scenes[scenes.len() - 1].date);
    }
}

} // verus!
