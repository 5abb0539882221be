//! People: groups of faces that belong to one person, and the names given to them.
//!
//! Search vectors are held by the bit patterns of their numbers; what is computed with
//! the numbers themselves, similarities and centres of groups, comes in as scores and
//! bit patterns.

use std::collections::hash_map::DefaultHasher;
use std::hash::Hasher;

use vstd::prelude::*;
use vstd::seq_lib::lemma_multiset_commutative;
use vstd::std_specs::hash::DefaultHasherAdditionalSpecFns;

use crate::names::{lists_names, sort_names};
use crate::number::{hexadecimal, push_hexadecimal};
use crate::ranking::{law_ranking_repeats_nothing, listed_before, rank, Ranked};
use crate::record::{images, ImageRecord, ImageText};
use crate::score::Score;
use crate::search::{
    in_order, is_order_of, lemma_occurrences, lemma_occurrences_are_counted, lemma_order_is_complete, occurrences,
};
use crate::text::{
    blank, chars_of, copy_optional, copy_strings, has_string, optional_text, string_of, texts, trim, trimmed,
};

verus! {

/// The key of 0.45, the least similarity of two faces of one person.
pub const FACE_MATCH_KEY: i32 = 0x3ee6_6666;

/// The least similarity of two faces of one person.
pub open spec fn face_match_threshold() -> Score {
    Score { key: FACE_MATCH_KEY }
}

/// A group of faces of one person.
#[derive(Debug, Clone)]
pub struct FaceCluster {
    pub id: String,
    pub name: Option<String>,
    pub centroid: Vec<u32>,
    pub face_count: usize,
    pub image_ids: Vec<String>,
    pub preview: String,
}

/// What a `FaceCluster` holds.
pub struct ClusterText {
    pub id: Seq<char>,
    pub name: Option<Seq<char>>,
    pub centroid: Seq<u32>,
    pub face_count: usize,
    pub image_ids: Set<Seq<char>>,
    pub preview: Seq<char>,
}

impl View for FaceCluster {
    type V = ClusterText;

    open spec fn view(&self) -> ClusterText {
        ClusterText {
            id: self.id@,
            name: optional_text(self.name),
            centroid: self.centroid@,
            face_count: self.face_count,
            image_ids: texts(self.image_ids@).to_set(),
            preview: self.preview@,
        }
    }
}

impl FaceCluster {
    /// No picture is listed twice.
    pub open spec fn well_formed(&self) -> bool {
        texts(self.image_ids@).no_duplicates()
    }
}

/// What a sequence of groups holds.
pub open spec fn clusters_of(groups: Seq<FaceCluster>) -> Seq<ClusterText> {
    groups.map_values(|group: FaceCluster| group@)
}

impl FaceCluster {
    /// A copy of the group.
    pub fn duplicate(&self) -> (copy: FaceCluster)
        ensures
            copy@ == self@,
    {
        FaceCluster {
            id: self.id.clone(),
            name: copy_optional(&self.name),
            centroid: self.centroid.clone(),
            face_count: self.face_count,
            image_ids: copy_strings(&self.image_ids),
            preview: self.preview.clone(),
        }
    }
}

/// A copy of each group.
pub fn copy_clusters(groups: &Vec<FaceCluster>) -> (copies: Vec<FaceCluster>)
    ensures
        clusters_of(copies@) == clusters_of(groups@),
{
    let mut copies: Vec<FaceCluster> = Vec::new();
    for i in 0..groups.len()
        invariant
            copies@.len() == i,
            forall|k: int| 0 <= k < i ==> (#[trigger] copies@[k])@ == groups@[k]@,
    {
        copies.push(groups[i].duplicate());
    }
    assert(clusters_of(copies@) =~= clusters_of(groups@));
    copies
}

/// Every group is well formed.
pub open spec fn all_well_formed(groups: Seq<FaceCluster>) -> bool {
    forall|k: int| 0 <= k < groups.len() ==> (#[trigger] groups[k]).well_formed()
}

/// A person with a name.
#[derive(Debug, Clone)]
pub struct KnownPerson {
    pub id: String,
    pub name: String,
    pub embedding: Vec<u32>,
}

/// What a `KnownPerson` holds.
pub struct PersonText {
    pub id: Seq<char>,
    pub name: Seq<char>,
    pub embedding: Seq<u32>,
}

impl View for KnownPerson {
    type V = PersonText;

    open spec fn view(&self) -> PersonText {
        PersonText { id: self.id@, name: self.name@, embedding: self.embedding@ }
    }
}

/// What a sequence of people holds.
pub open spec fn persons_of(people: Seq<KnownPerson>) -> Seq<PersonText> {
    people.map_values(|person: KnownPerson| person@)
}

// ---------------------------------------------------------------------------
// Vectors as bytes
// ---------------------------------------------------------------------------

/// The four bytes of a number, the lowest first.
pub open spec fn little_endian(value: u32) -> Seq<u8> {
    seq![
        (value % 256) as u8,
        (value / 256 % 256) as u8,
        (value / 65536 % 256) as u8,
        (value / 16777216) as u8,
    ]
}

/// The bytes of a vector.
pub open spec fn blob_of(values: Seq<u32>) -> Seq<u8>
    decreases values.len(),
{
    if values.len() == 0 {
        Seq::empty()
    } else {
        blob_of(values.drop_last()) + little_endian(values.last())
    }
}

fn bytes_of(value: u32) -> (bytes: Vec<u8>)
    ensures
        bytes@ == little_endian(value),
{
    let mut bytes: Vec<u8> = Vec::new();
    bytes.push((value % 256) as u8);
    bytes.push((value / 256 % 256) as u8);
    bytes.push((value / 65536 % 256) as u8);
    bytes.push((value / 16777216) as u8);
    bytes
}

/// The bytes of a vector, given by the bit patterns of its numbers: four for each
/// number, the lowest first.
pub fn embedding_blob(values: &Vec<u32>) -> (blob: Vec<u8>)
    ensures
        blob@ == blob_of(values@),
{
    let mut blob: Vec<u8> = Vec::new();
    for i in 0..values.len()
        invariant
            blob@ == blob_of(values@.take(i as int)),
    {
        assert(values@.take(i + 1).drop_last() =~= values@.take(i as int));
        assert(values@.take(i + 1).last() == values@[i as int]);
        let mut bytes: Vec<u8> = bytes_of(values[i]);
        blob.append(&mut bytes);
    }
    assert(values@.take(values@.len() as int) =~= values@);
    blob
}

/// The number that four bytes stand for, the lowest first.
pub open spec fn from_little_endian(bytes: Seq<u8>) -> int {
    bytes[0] + 256 * bytes[1] + 65536 * bytes[2] + 16777216 * bytes[3]
}

/// Each number of a vector is read back from its four bytes.
pub proof fn law_blob_holds_the_vector(values: Seq<u32>, at: int)
    requires
        0 <= at < values.len(),
    ensures
        blob_of(values).len() == 4 * values.len(),
        from_little_endian(blob_of(values).subrange(4 * at, 4 * at + 4)) == values[at],
    decreases values.len(),
{
    let before = values.drop_last();
    if before.len() > 0 {
        law_blob_holds_the_vector(before, if at < before.len() { at } else { 0 });
    }
    assert(blob_of(values) == blob_of(before) + little_endian(values.last()));
    if at < before.len() {
        assert(blob_of(values).subrange(4 * at, 4 * at + 4) =~= blob_of(before).subrange(4 * at, 4 * at + 4));
    } else {
        assert(blob_of(values).subrange(4 * at, 4 * at + 4) =~= little_endian(values.last()));
        let value = values[at];
        assert(value == value % 256 + 256 * (value / 256 % 256) + 65536 * (value / 65536 % 256) + 16777216 * (value
            / 16777216));
    }
}

/// The bytes of the first 64 numbers of a vector, those of one number after the other.
pub open spec fn id_bytes(values: Seq<u32>) -> Seq<Seq<u8>> {
    values.take(if values.len() < 64 { values.len() as int } else { 64 }).map_values(
        |value: u32| little_endian(value),
    )
}

/// The identifier of a group, made of the first face in it.
pub open spec fn group_id_of(values: Seq<u32>) -> Seq<char> {
    "face-"@ + hexadecimal(DefaultHasher::spec_finish(id_bytes(values)) as nat, 16)
}

/// Makes the identifier of a group of the first face in it.
pub fn make_face_group_id(values: &Vec<u32>) -> (id: String)
    ensures
        id@ == group_id_of(values@),
{
    let mut hasher: DefaultHasher = DefaultHasher::new();
    let count: usize = if values.len() < 64 {
        values.len()
    } else {
        64
    };
    let ghost all = id_bytes(values@);
    assert(hasher@ =~= all.take(0));
    for i in 0..count
        invariant
            count <= values@.len(),
            all == id_bytes(values@),
            all.len() == count,
            hasher@ == all.take(i as int),
    {
        let bytes: Vec<u8> = bytes_of(values[i]);
        hasher.write(bytes.as_slice());
        assert(all[i as int] == little_endian(values@[i as int]));
        assert(all.take(i + 1) =~= all.take(i as int).push(all[i as int]));
    }
    assert(all.take(count as int) =~= all);
    let mut chars: Vec<char> = chars_of("face-");
    push_hexadecimal(&mut chars, hasher.finish(), 16);
    string_of(&chars)
}

// ---------------------------------------------------------------------------
// Which group a face belongs to
// ---------------------------------------------------------------------------

/// The place of the highest score among those that reach the threshold, the last one if
/// there are several.
pub open spec fn best_match(scores: Seq<Score>) -> Option<int>
    decreases scores.len(),
{
    if scores.len() == 0 {
        None
    } else {
        let before = best_match(scores.drop_last());
        let last = scores.last();
        let higher = match before {
            Some(best) => scores[best].key <= last.key,
            None => true,
        };
        if last.at_least(face_match_threshold()) && higher {
            Some(scores.len() - 1)
        } else {
            before
        }
    }
}

/// A face is matched only by a score that reaches the threshold, and by none that is
/// lower than another or comes before an equal one; it is matched wherever one does.
pub proof fn law_best_match_reaches_the_threshold(scores: Seq<Score>)
    ensures
        match best_match(scores) {
            Some(best) => {
                &&& 0 <= best < scores.len()
                &&& scores[best].at_least(face_match_threshold())
                &&& forall|k: int|
                    0 <= k < scores.len() && (#[trigger] scores[k]).at_least(face_match_threshold())
                        ==> scores[k].key <= scores[best].key && (k > best ==> scores[k].key < scores[best].key)
            },
            None => forall|k: int|
                0 <= k < scores.len() ==> !(#[trigger] scores[k]).at_least(face_match_threshold()),
        },
    decreases scores.len(),
{
    if scores.len() > 0 {
        let before = scores.drop_last();
        law_best_match_reaches_the_threshold(before);
        assert forall|k: int| 0 <= k < before.len() implies #[trigger] scores[k] == before[k] by {}
    }
}

fn find_best_match(scores: &Vec<Score>) -> (best: Option<usize>)
    ensures
        match best {
            Some(best) => best_match(scores@) == Some(best as int) && best < scores.len(),
            None => best_match(scores@) is None,
        },
{
    let mut best: Option<usize> = None;
    for i in 0..scores.len()
        invariant
            match best {
                Some(best) => best_match(scores@.take(i as int)) == Some(best as int) && best < i,
                None => best_match(scores@.take(i as int)) is None,
            },
    {
        assert(scores@.take(i + 1).drop_last() =~= scores@.take(i as int));
        assert(scores@.take(i + 1).last() == scores@[i as int]);
        let higher: bool = match best {
            Some(best) => scores[best].key <= scores[i].key,
            None => true,
        };
        if higher && scores[i].is_at_least(Score { key: FACE_MATCH_KEY }) {
            best = Some(i);
        }
    }
    assert(scores@.take(scores@.len() as int) =~= scores@);
    best
}

/// The place of the first group with the given identifier.
pub open spec fn first_group(groups: Seq<ClusterText>, id: Seq<char>) -> Option<int>
    decreases groups.len(),
{
    if groups.len() == 0 {
        None
    } else {
        match first_group(groups.drop_last(), id) {
            Some(first) => Some(first),
            None => if groups.last().id == id {
                Some(groups.len() - 1)
            } else {
                None
            },
        }
    }
}

/// The first group is one with the identifier, and none before it has it.
pub proof fn lemma_first_group(groups: Seq<ClusterText>, id: Seq<char>)
    ensures
        match first_group(groups, id) {
            Some(first) => 0 <= first < groups.len() && groups[first].id == id && forall|k: int|
                0 <= k < first ==> (#[trigger] groups[k]).id != id,
            None => forall|k: int| 0 <= k < groups.len() ==> (#[trigger] groups[k]).id != id,
        },
    decreases groups.len(),
{
    if groups.len() > 0 {
        let before = groups.drop_last();
        lemma_first_group(before, id);
        assert forall|k: int| 0 <= k < before.len() implies #[trigger] groups[k] == before[k] by {}
    }
}

/// Later groups do not change which group was the first with an identifier.
proof fn lemma_first_group_stays(groups: Seq<ClusterText>, id: Seq<char>, n: int)
    requires
        0 <= n <= groups.len(),
        first_group(groups.take(n), id) is Some,
    ensures
        first_group(groups, id) == first_group(groups.take(n), id),
    decreases groups.len() - n,
{
    if n < groups.len() {
        assert(groups.take(n + 1).drop_last() =~= groups.take(n));
        lemma_first_group_stays(groups, id, n + 1);
    } else {
        assert(groups.take(n) =~= groups);
    }
}

fn find_group(groups: &Vec<FaceCluster>, id: &String) -> (first: Option<usize>)
    ensures
        match first {
            Some(first) => first_group(clusters_of(groups@), id@) == Some(first as int) && first < groups.len(),
            None => first_group(clusters_of(groups@), id@) is None,
        },
{
    let ghost all = clusters_of(groups@);
    for i in 0..groups.len()
        invariant
            all == clusters_of(groups@),
            first_group(all.take(i as int), id@) is None,
    {
        assert(all.take(i + 1).drop_last() =~= all.take(i as int));
        assert(all.take(i + 1).last() == groups@[i as int]@);
        if groups[i].id == *id {
            proof {
                lemma_first_group_stays(all, id@, i + 1);
            }
            return Some(i);
        }
    }
    assert(all.take(all.len() as int) =~= all);
    None
}

/// A group that the vector index found to be near a face, with its similarity.
#[derive(Debug, Clone)]
pub struct GroupHint {
    pub group_id: String,
    pub score: Score,
}

/// What is known of a face: its vector, and how similar it is to each known person and
/// to each group.
pub struct FaceScores {
    pub embedding: Vec<u32>,
    pub people: Vec<Score>,
    pub groups: Vec<Score>,
}

/// The group that a hint points to, if it is similar enough.
pub open spec fn hinted_group(groups: Seq<ClusterText>, hint: Option<GroupHint>) -> Option<int> {
    match hint {
        Some(hint) if hint.score.at_least(face_match_threshold()) => first_group(groups, hint.group_id@),
        _ => None,
    }
}

/// The group that a face belongs to: that of the known person it resembles most, else
/// the one that the hint points to, else the one that it resembles most.
pub open spec fn target_group(
    groups: Seq<ClusterText>,
    people: Seq<PersonText>,
    face: FaceScores,
    hint: Option<GroupHint>,
) -> Option<int> {
    match best_match(face.people@) {
        Some(person) => first_group(groups, people[person].id),
        None => match hinted_group(groups, hint) {
            Some(group) => Some(group),
            None => best_match(face.groups@),
        },
    }
}

/// The group that is opened for a face that belongs to none: that of the known person
/// it resembles most, else one without a name.
pub open spec fn opened_group(people: Seq<PersonText>, face: FaceScores, preview: Seq<char>) -> ClusterText {
    let (id, name) = match best_match(face.people@) {
        Some(person) => (people[person].id, Some(people[person].name)),
        None => (group_id_of(face.embedding@), None),
    };
    ClusterText {
        id,
        name,
        centroid: face.embedding@,
        face_count: 0,
        image_ids: Set::empty(),
        preview,
    }
}

/// Finds the group that a face belongs to, and opens one if there is none. The face is
/// not yet in it.
pub fn assign_face_cluster_with_hint(
    clusters: &mut Vec<FaceCluster>,
    known_people: &Vec<KnownPerson>,
    preview: String,
    face: &FaceScores,
    hint: &Option<GroupHint>,
) -> (index: usize)
    requires
        face.people@.len() == known_people@.len(),
        face.groups@.len() == old(clusters)@.len(),
    ensures
        match target_group(clusters_of(old(clusters)@), persons_of(known_people@), *face, *hint) {
            Some(group) => index == group && final(clusters)@ == old(clusters)@,
            None => {
                &&& index == old(clusters)@.len()
                &&& final(clusters)@.len() == index + 1
                &&& final(clusters)@.drop_last() == old(clusters)@
                &&& final(clusters)@.last()@ == opened_group(persons_of(known_people@), *face, preview@)
                &&& final(clusters)@.last().well_formed()
            },
        },
        index < final(clusters)@.len(),
{
    let ghost groups = clusters_of(clusters@);
    let ghost people = persons_of(known_people@);
    let ghost before = clusters@;
    proof {
        law_best_match_reaches_the_threshold(face.people@);
        law_best_match_reaches_the_threshold(face.groups@);
    }
    let person: Option<usize> = find_best_match(&face.people);
    let target: Option<usize> = match person {
        Some(person) => {
            assert(people[person as int] == known_people@[person as int]@);
            find_group(clusters, &known_people[person].id)
        },
        None => {
            let hinted: Option<usize> = match hint {
                Some(hint) => {
                    if hint.score.is_at_least(Score { key: FACE_MATCH_KEY }) {
                        find_group(clusters, &hint.group_id)
                    } else {
                        None
                    }
                },
                None => None,
            };
            match hinted {
                Some(group) => Some(group),
                None => find_best_match(&face.groups),
            }
        },
    };
    match target {
        Some(index) => index,
        None => {
            let (id, name): (String, Option<String>) = match person {
                Some(person) => (known_people[person].id.clone(), Some(known_people[person].name.clone())),
                None => (make_face_group_id(&face.embedding), None),
            };
            let index: usize = clusters.len();
            let image_ids: Vec<String> = Vec::new();
            assert(texts(image_ids@) =~= Seq::<Seq<char>>::empty());
            assert(texts(image_ids@).to_set() =~= Set::<Seq<char>>::empty());
            clusters.push(
                FaceCluster {
                    id,
                    name,
                    centroid: face.embedding.clone(),
                    face_count: 0,
                    image_ids,
                    preview,
                },
            );
            assert(clusters@.drop_last() =~= before);
            index
        },
    }
}

/// Finds the group that a face belongs to without a hint, and opens one if there is none.
pub fn assign_face_cluster(
    clusters: &mut Vec<FaceCluster>,
    known_people: &Vec<KnownPerson>,
    preview: String,
    face: &FaceScores,
) -> (index: usize)
    requires
        face.people@.len() == known_people@.len(),
        face.groups@.len() == old(clusters)@.len(),
    ensures
        match target_group(clusters_of(old(clusters)@), persons_of(known_people@), *face, None) {
            Some(group) => index == group && final(clusters)@ == old(clusters)@,
            None => {
                &&& index == old(clusters)@.len()
                &&& final(clusters)@.len() == index + 1
                &&& final(clusters)@.drop_last() == old(clusters)@
                &&& final(clusters)@.last()@ == opened_group(persons_of(known_people@), *face, preview@)
                &&& final(clusters)@.last().well_formed()
            },
        },
        index < final(clusters)@.len(),
{
    assign_face_cluster_with_hint(clusters, known_people, preview, face, &None)
}

/// A face joins a group that is there only where a score reaches the threshold: that of
/// a known person whose group it is, that of the hint, or that of the group itself.
pub proof fn law_faces_join_only_similar_groups(
    groups: Seq<ClusterText>,
    people: Seq<PersonText>,
    face: FaceScores,
    hint: Option<GroupHint>,
    group: int,
)
    requires
        face.people@.len() == people.len(),
        face.groups@.len() == groups.len(),
        target_group(groups, people, face, hint) == Some(group),
    ensures
        0 <= group < groups.len(),
        ({
            ||| exists|person: int|
                0 <= person < people.len() && (#[trigger] people[person]).id == groups[group].id
                    && face.people@[person].at_least(face_match_threshold())
            ||| hint matches Some(hint) && hint.score.at_least(face_match_threshold()) && hint.group_id@
                == groups[group].id
            ||| face.groups@[group].at_least(face_match_threshold())
        }),
{
    law_best_match_reaches_the_threshold(face.people@);
    law_best_match_reaches_the_threshold(face.groups@);
    match best_match(face.people@) {
        Some(person) => {
            lemma_first_group(groups, people[person].id);
            assert(people[person].id == groups[group].id);
        },
        None => match hint {
            Some(hint) => {
                lemma_first_group(groups, hint.group_id@);
            },
            None => {},
        },
    }
}

/// A face that resembles a known person enough comes into the group of the one whom it
/// resembles most; where that group is not there, it is opened under the person's name.
pub proof fn law_known_people_are_recognized(
    groups: Seq<ClusterText>,
    people: Seq<PersonText>,
    face: FaceScores,
    hint: Option<GroupHint>,
    preview: Seq<char>,
    person: int,
)
    requires
        face.people@.len() == people.len(),
        face.groups@.len() == groups.len(),
        0 <= person < people.len(),
        face.people@[person].at_least(face_match_threshold()),
    ensures
        exists|best: int|
            {
                &&& 0 <= best < people.len()
                &&& (#[trigger] face.people@[best]).at_least(face_match_threshold())
                &&& face.people@[person].key <= face.people@[best].key
                &&& match target_group(groups, people, face, hint) {
                    Some(group) => 0 <= group < groups.len() && groups[group].id == people[best].id,
                    None => {
                        let opened = opened_group(people, face, preview);
                        opened.id == people[best].id && opened.name == Some(people[best].name)
                    },
                }
            },
{
    law_best_match_reaches_the_threshold(face.people@);
    assert(best_match(face.people@) is Some);
    let best = best_match(face.people@)->0;
    lemma_first_group(groups, people[best].id);
    assert(face.people@[best].at_least(face_match_threshold()));
}

/// A group with one more face, on the given picture, and a new centre.
pub open spec fn with_face(group: ClusterText, centroid: Seq<u32>, image_id: Seq<char>) -> ClusterText {
    ClusterText {
        centroid,
        face_count: (group.face_count + 1) as usize,
        image_ids: group.image_ids.insert(image_id),
        ..group
    }
}

fn insert_image(image_ids: &mut Vec<String>, image_id: &String)
    requires
        texts(old(image_ids)@).no_duplicates(),
    ensures
        texts(final(image_ids)@).no_duplicates(),
        texts(final(image_ids)@).to_set() == texts(old(image_ids)@).to_set().insert(image_id@),
        final(image_ids)@.len() <= old(image_ids)@.len() + 1,
{
    let ghost before = texts(image_ids@);
    if !has_string(image_ids, image_id) {
        image_ids.push(image_id.clone());
        assert(texts(image_ids@) =~= before.push(image_id@));
        proof {
            lemma_push_to_set(before, image_id@);
            assert forall|i: int, j: int|
                0 <= i < texts(image_ids@).len() && 0 <= j < texts(image_ids@).len() && i != j implies texts(
                image_ids@,
            )[i] != texts(image_ids@)[j] by {
                if i == before.len() {
                    assert(before.contains(before[j]));
                } else if j == before.len() {
                    assert(before.contains(before[i]));
                }
            }
        }
    } else {
        assert(before.to_set().insert(image_id@) =~= before.to_set());
    }
}

/// A longer sequence holds one element more.
proof fn lemma_push_to_set(before: Seq<Seq<char>>, last: Seq<char>)
    ensures
        before.push(last).to_set() == before.to_set().insert(last),
{
    let after = before.push(last);
    assert forall|text: Seq<char>| after.to_set().contains(text) == before.to_set().insert(last).contains(text) by {
        if before.contains(text) {
            let k = choose|k: int| 0 <= k < before.len() && before[k] == text;
            assert(after[k] == text);
        }
        if text == last {
            assert(after[before.len() as int] == text);
        }
        if after.contains(text) && text != last {
            let k = choose|k: int| 0 <= k < after.len() && after[k] == text;
            assert(before[k] == text);
        }
    }
    assert(after.to_set() =~= before.to_set().insert(last));
}

/// Puts a face into a group: `centroid` is the new centre of the group. Returns the
/// identifier of the group and its name.
pub fn update_face_centroid(
    clusters: &mut Vec<FaceCluster>,
    index: usize,
    centroid: Vec<u32>,
    image_id: &String,
) -> (group: (String, Option<String>))
    requires
        index < old(clusters)@.len(),
        old(clusters)@[index as int].face_count < usize::MAX,
        old(clusters)@[index as int].well_formed(),
    ensures
        clusters_of(final(clusters)@) == clusters_of(old(clusters)@).update(
            index as int,
            with_face(old(clusters)@[index as int]@, centroid@, image_id@),
        ),
        final(clusters)@[index as int].well_formed(),
        all_well_formed(old(clusters)@) ==> all_well_formed(final(clusters)@),
        group.0@ == old(clusters)@[index as int].id@,
        optional_text(group.1) == optional_text(old(clusters)@[index as int].name),
{
    let ghost before = clusters@;
    let mut image_ids: Vec<String> = Vec::new();
    std::mem::swap(&mut clusters[index].image_ids, &mut image_ids);
    insert_image(&mut image_ids, image_id);
    let group: (String, Option<String>) = (clusters[index].id.clone(), copy_optional(&clusters[index].name));
    clusters[index].image_ids = image_ids;
    clusters[index].centroid = centroid;
    clusters[index].face_count = clusters[index].face_count + 1;
    assert(clusters_of(clusters@) =~= clusters_of(before).update(
        index as int,
        with_face(before[index as int]@, centroid@, image_id@),
    ));
    group
}

// ---------------------------------------------------------------------------
// Counting the faces of groups
// ---------------------------------------------------------------------------

/// How many faces of a group the records have.
pub open spec fn faces_in(records: Seq<ImageText>, id: Seq<char>) -> nat
    decreases records.len(),
{
    if records.len() == 0 {
        0
    } else {
        faces_in(records.drop_last(), id) + occurrences(records.last().face_group_ids, id)
    }
}

/// The pictures with a face of a group.
pub open spec fn pictures_with(records: Seq<ImageText>, id: Seq<char>) -> Set<Seq<char>>
    decreases records.len(),
{
    if records.len() == 0 {
        Set::empty()
    } else if occurrences(records.last().face_group_ids, id) > 0 {
        pictures_with(records.drop_last(), id).insert(records.last().id)
    } else {
        pictures_with(records.drop_last(), id)
    }
}

/// A number as far as it can be held.
pub open spec fn as_count(number: nat) -> usize {
    if number <= usize::MAX {
        number as usize
    } else {
        usize::MAX
    }
}

/// A group with its faces and pictures counted anew.
pub open spec fn recounted(group: ClusterText, records: Seq<ImageText>) -> ClusterText {
    ClusterText {
        face_count: as_count(faces_in(records, group.id)),
        image_ids: pictures_with(records, group.id),
        ..group
    }
}

/// The groups that have a face on the records, counted anew. Of groups with the same
/// identifier the first one has all the faces.
pub open spec fn recounted_groups(groups: Seq<ClusterText>, records: Seq<ImageText>) -> Seq<ClusterText>
    decreases groups.len(),
{
    if groups.len() == 0 {
        Seq::empty()
    } else {
        let before = recounted_groups(groups.drop_last(), records);
        let last = groups.last();
        if first_group(groups.drop_last(), last.id) is None && faces_in(records, last.id) > 0 {
            before.push(recounted(last, records))
        } else {
            before
        }
    }
}

fn count_in(ids: &Vec<String>, id: &String) -> (count: usize)
    ensures
        count == occurrences(texts(ids@), id@),
{
    let ghost all = texts(ids@);
    let mut count: usize = 0;
    for i in 0..ids.len()
        invariant
            all == texts(ids@),
            count == occurrences(all.take(i as int), id@),
            count <= i,
    {
        assert(all.take(i + 1).drop_last() =~= all.take(i as int));
        assert(all.take(i + 1).last() == ids@[i as int]@);
        if ids[i] == *id {
            count = count + 1;
        }
    }
    assert(all.take(all.len() as int) =~= all);
    count
}

fn recount(records: &Vec<ImageRecord>, id: &String) -> (counted: (usize, Vec<String>))
    ensures
        counted.0 == as_count(faces_in(images(records@), id@)),
        texts(counted.1@).to_set() == pictures_with(images(records@), id@),
        texts(counted.1@).no_duplicates(),
{
    let ghost all = images(records@);
    let mut count: usize = 0;
    let mut image_ids: Vec<String> = Vec::new();
    assert(texts(image_ids@) =~= Seq::<Seq<char>>::empty());
    assert(texts(image_ids@).to_set() =~= Set::<Seq<char>>::empty());
    for i in 0..records.len()
        invariant
            all == images(records@),
            count == as_count(faces_in(all.take(i as int), id@)),
            texts(image_ids@).to_set() == pictures_with(all.take(i as int), id@),
            texts(image_ids@).no_duplicates(),
    {
        assert(all.take(i + 1).drop_last() =~= all.take(i as int));
        assert(all.take(i + 1).last() == records@[i as int]@);
        let more: usize = count_in(&records[i].face_group_ids, id);
        if more > 0 {
            insert_image(&mut image_ids, &records[i].id);
        }
        count = if more <= usize::MAX - count {
            count + more
        } else {
            usize::MAX
        };
    }
    assert(all.take(all.len() as int) =~= all);
    (count, image_ids)
}

/// Counts the faces and pictures of each group anew and drops the groups without a face.
pub fn refresh_face_cluster_counts(face_clusters: &mut Vec<FaceCluster>, records: &Vec<ImageRecord>)
    ensures
        clusters_of(final(face_clusters)@) == recounted_groups(clusters_of(old(face_clusters)@), images(records@)),
        all_well_formed(final(face_clusters)@),
{
    let ghost groups = clusters_of(face_clusters@);
    let ghost all = images(records@);
    let mut kept: Vec<FaceCluster> = Vec::new();
    assert(clusters_of(kept@) =~= recounted_groups(groups.take(0), all));
    for i in 0..face_clusters.len()
        invariant
            groups == clusters_of(face_clusters@),
            all == images(records@),
            clusters_of(kept@) == recounted_groups(groups.take(i as int), all),
            all_well_formed(kept@),
    {
        let ghost before = clusters_of(kept@);
        assert(groups.take(i + 1).drop_last() =~= groups.take(i as int));
        assert(groups.take(i + 1).last() == face_clusters@[i as int]@);
        let group: &FaceCluster = &face_clusters[i];
        let (face_count, image_ids): (usize, Vec<String>) = recount(records, &group.id);
        let earlier: Option<usize> = find_group(face_clusters, &group.id);
        let first: bool = match earlier {
            Some(earlier) => earlier >= i,
            None => true,
        };
        proof {
            lemma_first_group(groups, group.id@);
            lemma_first_group(groups.take(i as int), group.id@);
            match first_group(groups.take(i as int), group.id@) {
                Some(k) => {
                    assert(groups.take(i as int)[k] == groups[k]);
                },
                None => {
                    match first_group(groups, group.id@) {
                        Some(k) => {
                            if k < i {
                                assert(groups.take(i as int)[k] == groups[k]);
                            }
                        },
                        None => {},
                    }
                },
            }
        }
        if first && face_count > 0 {
            let counted: FaceCluster = FaceCluster {
                id: group.id.clone(),
                name: copy_optional(&group.name),
                centroid: group.centroid.clone(),
                face_count,
                image_ids,
                preview: group.preview.clone(),
            };
            assert(counted@ == recounted(group@, all));
            kept.push(counted);
            assert(clusters_of(kept@) =~= before.push(counted@));
        }
    }
    assert(groups.take(groups.len() as int) =~= groups);
    *face_clusters = kept;
}

/// After counting anew, every group has a face, and no more pictures than faces.
pub proof fn law_recounted_groups_have_faces(groups: Seq<ClusterText>, records: Seq<ImageText>)
    ensures
        forall|k: int|
            0 <= k < recounted_groups(groups, records).len() ==> (#[trigger] recounted_groups(
                groups,
                records,
            )[k]).face_count > 0,
        forall|k: int|
            0 <= k < recounted_groups(groups, records).len() ==> ({
                let group = #[trigger] recounted_groups(groups, records)[k];
                &&& group.image_ids.finite()
                &&& faces_in(records, group.id) <= usize::MAX ==> group.image_ids.len() <= group.face_count
            }),
    decreases groups.len(),
{
    if groups.len() > 0 {
        law_recounted_groups_have_faces(groups.drop_last(), records);
        lemma_pictures_are_few(records, groups.last().id);
        let before = recounted_groups(groups.drop_last(), records);
        let after = recounted_groups(groups, records);
        assert forall|k: int| 0 <= k < before.len() implies #[trigger] after[k] == before[k] by {}
    }
}

/// Counting anew leaves of groups with the same identifier only the first one.
proof fn lemma_recounted_identifiers(groups: Seq<ClusterText>, records: Seq<ImageText>)
    ensures
        forall|k: int|
            0 <= k < recounted_groups(groups, records).len() ==> first_group(
                groups,
                (#[trigger] recounted_groups(groups, records)[k]).id,
            ) is Some,
        recounted_groups(recounted_groups(groups, records), records) == recounted_groups(groups, records),
    decreases groups.len(),
{
    if groups.len() > 0 {
        let shorter = groups.drop_last();
        let last = groups.last();
        lemma_recounted_identifiers(shorter, records);
        let before = recounted_groups(shorter, records);
        let after = recounted_groups(groups, records);
        assert forall|k: int| 0 <= k < after.len() implies first_group(groups, (#[trigger] after[k]).id) is Some by {
            lemma_first_group(groups, after[k].id);
            if k < before.len() {
                assert(after[k] == before[k]);
                lemma_first_group(shorter, before[k].id);
                let i = first_group(shorter, before[k].id)->0;
                assert(groups[i] == shorter[i]);
            } else {
                assert(groups[groups.len() - 1] == last);
            }
        }
        if after.len() > before.len() {
            assert(after.drop_last() =~= before);
            assert(after.last() == recounted(last, records));
            lemma_first_group(before, last.id);
            if first_group(before, last.id) is Some {
                let k = first_group(before, last.id)->0;
                assert(first_group(shorter, before[k].id) is Some);
            }
            assert(recounted(after.last(), records) == after.last());
        }
    }
}

/// Counting the groups anew a second time changes nothing.
pub proof fn law_counting_twice_changes_nothing(groups: Seq<ClusterText>, records: Seq<ImageText>)
    ensures
        recounted_groups(recounted_groups(groups, records), records) == recounted_groups(groups, records),
{
    lemma_recounted_identifiers(groups, records);
}

/// A group has no more pictures than faces.
proof fn lemma_pictures_are_few(records: Seq<ImageText>, id: Seq<char>)
    ensures
        pictures_with(records, id).finite(),
        pictures_with(records, id).len() <= faces_in(records, id),
    decreases records.len(),
{
    if records.len() > 0 {
        lemma_pictures_are_few(records.drop_last(), id);
    }
}

// ---------------------------------------------------------------------------
// Lists of groups
// ---------------------------------------------------------------------------

/// What is shown of a group.
#[derive(Debug, Clone)]
pub struct FaceGroupSummary {
    pub id: String,
    pub name: Option<String>,
    pub face_count: usize,
    pub image_count: usize,
    pub preview: String,
}

/// The texts of a `FaceGroupSummary`.
pub struct SummaryText {
    pub id: Seq<char>,
    pub name: Option<Seq<char>>,
    pub face_count: usize,
    pub image_count: nat,
    pub preview: Seq<char>,
}

impl View for FaceGroupSummary {
    type V = SummaryText;

    open spec fn view(&self) -> SummaryText {
        SummaryText {
            id: self.id@,
            name: optional_text(self.name),
            face_count: self.face_count,
            image_count: self.image_count as nat,
            preview: self.preview@,
        }
    }
}

/// The texts of a sequence of summaries.
pub open spec fn summaries_of(summaries: Seq<FaceGroupSummary>) -> Seq<SummaryText> {
    summaries.map_values(|summary: FaceGroupSummary| summary@)
}

/// What is shown of a group.
pub open spec fn summary_of(group: ClusterText) -> SummaryText {
    SummaryText {
        id: group.id,
        name: group.name,
        face_count: group.face_count,
        image_count: group.image_ids.len(),
        preview: group.preview,
    }
}

/// A group is shown no later than another: those with a name first, then those with
/// more faces.
pub open spec fn shown_at_most(left: ClusterText, right: ClusterText) -> bool {
    ||| left.name is Some && right.name is None
    ||| (left.name is Some) == (right.name is Some) && left.face_count >= right.face_count
}

/// `order` lists the groups as they are shown; groups that rank the same stay as they came.
pub open spec fn shows_groups(groups: Seq<ClusterText>, order: Seq<usize>) -> bool {
    &&& is_order_of(order, groups.len())
    &&& forall|i: int, j: int|
        0 <= i < j < order.len() ==> ({
            let left = #[trigger] order[i] as int;
            let right = #[trigger] order[j] as int;
            shown_at_most(groups[left], groups[right]) && (shown_at_most(groups[right], groups[left]) ==> left
                < right)
        })
}

/// `shown` is what is shown of the groups, in order.
pub open spec fn is_summary_list(shown: Seq<SummaryText>, groups: Seq<ClusterText>) -> bool {
    exists|order: Seq<usize>| #[trigger]
        shows_groups(groups, order) && shown == in_order(
            groups.map_values(|group: ClusterText| summary_of(group)),
            order,
        )
}

/// What a group is ranked by.
struct GroupRank {
    named: bool,
    face_count: usize,
}

impl Ranked for GroupRank {
    closed spec fn at_most(self, other: Self) -> bool {
        self.named && !other.named || self.named == other.named && self.face_count >= other.face_count
    }

    proof fn total(left: Self, right: Self) {
    }

    proof fn transitive(first: Self, second: Self, third: Self) {
    }

    fn ranks_at_most(&self, other: &Self) -> (result: bool) {
        self.named && !other.named || self.named == other.named && self.face_count >= other.face_count
    }
}

/// What is shown of the groups: those with a name first, then those with more faces.
pub fn face_group_summaries(face_groups: &Vec<FaceCluster>) -> (groups: Vec<FaceGroupSummary>)
    requires
        all_well_formed(face_groups@),
    ensures
        is_summary_list(summaries_of(groups@), clusters_of(face_groups@)),
{
    let ghost all = clusters_of(face_groups@);
    let ghost summaries = all.map_values(|group: ClusterText| summary_of(group));
    let mut ranks: Vec<GroupRank> = Vec::new();
    for i in 0..face_groups.len()
        invariant
            ranks@.len() == i,
            forall|k: int|
                0 <= k < i ==> (#[trigger] ranks@[k]).named == (face_groups@[k].name is Some) && ranks@[k].face_count
                    == face_groups@[k].face_count,
    {
        ranks.push(
            GroupRank { named: face_groups[i].name.is_some(), face_count: face_groups[i].face_count },
        );
    }
    let order: Vec<usize> = rank(&ranks);
    proof {
        law_ranking_repeats_nothing(ranks@, order@);
        assert forall|i: int, j: int| 0 <= i < j < order@.len() implies ({
            let left = #[trigger] order@[i] as int;
            let right = #[trigger] order@[j] as int;
            shown_at_most(all[left], all[right]) && (shown_at_most(all[right], all[left]) ==> left < right)
        }) by {
            let left = order@[i] as int;
            let right = order@[j] as int;
            assert(listed_before(ranks@, left, right));
            assert(ranks@[left].at_most(ranks@[right]) == shown_at_most(all[left], all[right]));
            assert(ranks@[right].at_most(ranks@[left]) == shown_at_most(all[right], all[left]));
        }
        assert(shows_groups(all, order@));
    }
    let mut groups: Vec<FaceGroupSummary> = Vec::new();
    assert(summaries_of(groups@) =~= in_order(summaries, order@.take(0)));
    for i in 0..order.len()
        invariant
            all == clusters_of(face_groups@),
            all_well_formed(face_groups@),
            summaries == all.map_values(|group: ClusterText| summary_of(group)),
            is_order_of(order@, all.len()),
            summaries_of(groups@) == in_order(summaries, order@.take(i as int)),
    {
        let ghost before = summaries_of(groups@);
        let group: &FaceCluster = &face_groups[order[i]];
        proof {
            texts(group.image_ids@).unique_seq_to_set();
        }
        let summary: FaceGroupSummary = FaceGroupSummary {
            id: group.id.clone(),
            name: copy_optional(&group.name),
            face_count: group.face_count,
            image_count: group.image_ids.len(),
            preview: group.preview.clone(),
        };
        assert(summary@ == summary_of(group@));
        groups.push(summary);
        assert(summaries_of(groups@) =~= before.push(summary@));
        assert(order@.take(i + 1) =~= order@.take(i as int).push(order@[i as int]));
        assert(in_order(summaries, order@.take(i + 1)) =~= before.push(summaries[order@[i as int] as int]));
    }
    assert(order@.take(order@.len() as int) =~= order@);
    groups
}

// ---------------------------------------------------------------------------
// Naming a group
// ---------------------------------------------------------------------------

/// The index: the records of all pictures, and the groups of faces on them.
pub struct IndexData {
    pub images: Vec<ImageRecord>,
    pub face_groups: Vec<FaceCluster>,
}

/// The names of the groups whose identifiers are among the given ones.
pub open spec fn names_among(groups: Seq<ClusterText>, ids: Seq<Seq<char>>) -> Seq<Seq<char>>
    decreases groups.len(),
{
    if groups.len() == 0 {
        Seq::empty()
    } else {
        let before = names_among(groups.drop_last(), ids);
        match groups.last().name {
            Some(name) if ids.contains(groups.last().id) => before.push(name),
            _ => before,
        }
    }
}

/// A name is among them exactly where a group has it whose identifier is among those given.
pub proof fn lemma_names_among(groups: Seq<ClusterText>, ids: Seq<Seq<char>>, name: Seq<char>)
    ensures
        names_among(groups, ids).contains(name) <==> exists|k: int|
            0 <= k < groups.len() && (#[trigger] groups[k]).name == Some(name) && ids.contains(groups[k].id),
    decreases groups.len(),
{
    if groups.len() > 0 {
        let shorter = groups.drop_last();
        let last = groups[groups.len() - 1];
        lemma_names_among(shorter, ids, name);
        let before = names_among(shorter, ids);
        let after = names_among(groups, ids);
        if after.contains(name) {
            if before.contains(name) {
                let k = choose|k: int|
                    0 <= k < shorter.len() && (#[trigger] shorter[k]).name == Some(name) && ids.contains(
                        shorter[k].id,
                    );
                assert(groups[k] == shorter[k]);
            } else {
                let k = choose|k: int| 0 <= k < after.len() && after[k] == name;
                if k < before.len() {
                    assert(before[k] == name);
                }
                assert(last.name == Some(name) && ids.contains(last.id));
            }
        }
        if exists|k: int|
            0 <= k < groups.len() && (#[trigger] groups[k]).name == Some(name) && ids.contains(groups[k].id) {
            let k = choose|k: int|
                0 <= k < groups.len() && (#[trigger] groups[k]).name == Some(name) && ids.contains(groups[k].id);
            if k < shorter.len() {
                assert(shorter[k] == groups[k]);
                let at = choose|at: int| 0 <= at < before.len() && before[at] == name;
                assert(after[at] == name);
            } else {
                assert(after[before.len() as int] == name);
            }
        }
    }
}

/// The name that a text gives: the text without surrounding blanks, or none if nothing
/// is left.
pub open spec fn given_name(text: Seq<char>) -> Option<Seq<char>> {
    if trimmed(text, blank()).len() > 0 {
        Some(trimmed(text, blank()))
    } else {
        None
    }
}

/// The groups with a new name for one of them.
pub open spec fn renamed(groups: Seq<ClusterText>, at: int, name: Option<Seq<char>>) -> Seq<ClusterText> {
    groups.update(at, ClusterText { name, ..groups[at] })
}

/// `after` is `before` with the names of the groups on each record.
pub open spec fn people_follow(before: Seq<ImageText>, after: Seq<ImageText>, groups: Seq<ClusterText>) -> bool {
    &&& after.len() == before.len()
    &&& forall|k: int|
        0 <= k < after.len() ==> #[trigger] after[k] == (ImageText { people: after[k].people, ..before[k] })
            && lists_names(after[k].people, names_among(groups, before[k].face_group_ids))
}

/// The known people once a group has been given a name, or has lost it: nobody else
/// has its identifier.
pub open spec fn people_after(people: Seq<PersonText>, group: ClusterText, name: Option<Seq<char>>) -> Seq<PersonText> {
    let others = people.filter(|person: PersonText| person.id != group.id);
    match name {
        Some(name) => others.push(PersonText { id: group.id, name, embedding: group.centroid }),
        None => others,
    }
}

/// What comes of naming a group: what is shown of the groups, and the known people.
pub struct Labelled {
    pub summaries: Vec<FaceGroupSummary>,
    pub known_people: Vec<KnownPerson>,
}

fn collect_names(groups: &Vec<FaceCluster>, ids: &Vec<String>) -> (names: Vec<String>)
    ensures
        texts(names@) == names_among(clusters_of(groups@), texts(ids@)),
{
    let ghost all = clusters_of(groups@);
    let mut names: Vec<String> = Vec::new();
    assert(texts(names@) =~= names_among(all.take(0), texts(ids@)));
    for i in 0..groups.len()
        invariant
            all == clusters_of(groups@),
            texts(names@) == names_among(all.take(i as int), texts(ids@)),
    {
        let ghost before = texts(names@);
        assert(all.take(i + 1).drop_last() =~= all.take(i as int));
        assert(all.take(i + 1).last() == groups@[i as int]@);
        match &groups[i].name {
            Some(name) => {
                if has_string(ids, &groups[i].id) {
                    names.push(name.clone());
                    assert(texts(names@) =~= before.push(name@));
                }
            },
            None => {},
        }
    }
    assert(all.take(all.len() as int) =~= all);
    names
}

fn name_records(records: &mut Vec<ImageRecord>, groups: &Vec<FaceCluster>)
    ensures
        people_follow(images(old(records)@), images(final(records)@), clusters_of(groups@)),
{
    let ghost before = images(records@);
    let ghost start = records@;
    let count: usize = records.len();
    for i in 0..count
        invariant
            count == records@.len(),
            records@.len() == start.len(),
            before == images(start),
            forall|k: int| i <= k < count ==> records@[k] == start[k],
            forall|k: int|
                0 <= k < i ==> (#[trigger] records@[k])@ == (ImageText { people: records@[k]@.people, ..before[k] })
                    && lists_names(
                    records@[k]@.people,
                    names_among(clusters_of(groups@), before[k].face_group_ids),
                ),
    {
        assert(records@[i as int] == start[i as int]);
        let names: Vec<String> = collect_names(groups, &records[i].face_group_ids);
        records[i].people = sort_names(&names);
        assert(before[i as int] == start[i as int]@);
    }
    proof {
        let after = images(records@);
        assert forall|k: int| 0 <= k < after.len() implies #[trigger] after[k] == (ImageText {
            people: after[k].people,
            ..before[k]
        }) && lists_names(after[k].people, names_among(clusters_of(groups@), before[k].face_group_ids)) by {
            assert(after[k] == records@[k]@);
        }
    }
}

fn drop_person(people: Vec<KnownPerson>, id: &String) -> (others: Vec<KnownPerson>)
    ensures
        persons_of(others@) == persons_of(people@).filter(|person: PersonText| person.id != id@),
{
    let ghost all = persons_of(people@);
    let ghost keep = |person: PersonText| person.id != id@;
    let mut others: Vec<KnownPerson> = Vec::new();
    assert(all.take(0).filter(keep) =~= persons_of(others@)) by {
        reveal(Seq::filter);
    }
    for i in 0..people.len()
        invariant
            all == persons_of(people@),
            keep == (|person: PersonText| person.id != id@),
            persons_of(others@) == all.take(i as int).filter(keep),
    {
        let ghost before = persons_of(others@);
        proof {
            reveal(Seq::filter);
            assert(all.take(i + 1).drop_last() =~= all.take(i as int));
            assert(all.take(i + 1).last() == people@[i as int]@);
        }
        if people[i].id != *id {
            let person: KnownPerson = KnownPerson {
                id: people[i].id.clone(),
                name: people[i].name.clone(),
                embedding: people[i].embedding.clone(),
            };
            others.push(person);
            assert(persons_of(others@) =~= before.push(people@[i as int]@));
        }
    }
    assert(all.take(all.len() as int) =~= all);
    others
}

/// Gives a group a name, or takes it away where the text is blank, and puts the names of
/// the groups on all records. It is an error if there is no such group; nothing changes.
pub fn label_face_group(
    data: &mut IndexData,
    known_people: Vec<KnownPerson>,
    group_id: &String,
    name: &str,
) -> (result: Result<Labelled, String>)
    requires
        all_well_formed(old(data).face_groups@),
    ensures
        all_well_formed(final(data).face_groups@),
        match first_group(clusters_of(old(data).face_groups@), group_id@) {
            Some(at) => {
                let groups = clusters_of(old(data).face_groups@);
                &&& result matches Ok(labelled)
                &&& clusters_of(final(data).face_groups@) == renamed(groups, at, given_name(name@))
                &&& people_follow(
                    images(old(data).images@),
                    images(final(data).images@),
                    clusters_of(final(data).face_groups@),
                )
                &&& is_summary_list(summaries_of(labelled.summaries@), clusters_of(final(data).face_groups@))
                &&& persons_of(labelled.known_people@) == people_after(
                    persons_of(known_people@),
                    groups[at],
                    given_name(name@),
                )
            },
            None => {
                &&& result matches Err(message)
                &&& message@ == "找不到指定的人物群組。"@
                &&& *final(data) == *old(data)
            },
        },
{
    let ghost groups = clusters_of(data.face_groups@);
    proof {
        lemma_first_group(groups, group_id@);
    }
    let normalized: Vec<char> = trim(&chars_of(name));
    match find_group(&data.face_groups, group_id) {
        None => Err("找不到指定的人物群組。".to_owned()),
        Some(at) => {
            let ghost start = data.face_groups@;
            data.face_groups[at].name = if normalized.len() > 0 {
                Some(string_of(&normalized))
            } else {
                None
            };
            assert(clusters_of(data.face_groups@) =~= renamed(groups, at as int, given_name(name@)));
            assert(all_well_formed(data.face_groups@)) by {
                assert forall|k: int| 0 <= k < data.face_groups@.len() implies (
                #[trigger] data.face_groups@[k]).well_formed() by {
                    assert(start[k].well_formed());
                }
            }
            name_records(&mut data.images, &data.face_groups);
            let summaries: Vec<FaceGroupSummary> = face_group_summaries(&data.face_groups);
            let mut known: Vec<KnownPerson> = drop_person(known_people, group_id);
            if normalized.len() > 0 {
                let ghost others = persons_of(known@);
                let person: KnownPerson = KnownPerson {
                    id: data.face_groups[at].id.clone(),
                    name: string_of(&normalized),
                    embedding: data.face_groups[at].centroid.clone(),
                };
                known.push(person);
                assert(persons_of(known@) =~= others.push(person@));
            }
            Ok(Labelled { summaries, known_people: known })
        },
    }
}

/// Once a group has lost its name, nobody with its identifier is known.
pub proof fn law_blank_name_forgets_the_person(people: Seq<PersonText>, group: ClusterText, name: Seq<char>, k: int)
    requires
        given_name(name) is None,
        0 <= k < people_after(people, group, given_name(name)).len(),
    ensures
        people_after(people, group, given_name(name))[k].id != group.id,
{
    let keep = |person: PersonText| person.id != group.id;
    people.lemma_filter_pred(keep, k);
}

/// A person is known by the last name that the group was given, and only by it.
pub proof fn law_given_name_is_the_only_one(people: Seq<PersonText>, group: ClusterText, name: Seq<char>, k: int)
    requires
        given_name(name) is Some,
        0 <= k < people_after(people, group, given_name(name)).len(),
    ensures
        ({
            let person = people_after(people, group, given_name(name))[k];
            person.id == group.id ==> person.name == given_name(name)->0 && person.embedding == group.centroid
        }),
        people_after(people, group, given_name(name)).last().id == group.id,
{
    let keep = |person: PersonText| person.id != group.id;
    if k < people.filter(keep).len() {
        people.lemma_filter_pred(keep, k);
    }
}

/// The name of a group stands on exactly the records with a face of it, of those groups
/// that have that name.
pub proof fn law_names_stand_on_the_right_records(
    before: Seq<ImageText>,
    after: Seq<ImageText>,
    groups: Seq<ClusterText>,
    record: int,
    name: Seq<char>,
)
    requires
        people_follow(before, after, groups),
        0 <= record < after.len(),
    ensures
        after[record].people.contains(name) <==> exists|k: int|
            0 <= k < groups.len() && (#[trigger] groups[k]).name == Some(name)
                && after[record].face_group_ids.contains(groups[k].id),
{
    assert(after[record] == (ImageText { people: after[record].people, ..before[record] }));
    lemma_names_among(groups, before[record].face_group_ids, name);
}

// ---------------------------------------------------------------------------
// What comes of grouping and naming
// ---------------------------------------------------------------------------

/// A hint points to one of the groups and is similar enough.
pub open spec fn is_usable_hint(groups: Seq<FaceCluster>, hint: Option<GroupHint>) -> bool {
    hint matches Some(hint) && hint.score.at_least((Score { key: 0x3ee6_6666 })) && exists|k: int|
        0 <= k < groups.len() && (#[trigger] groups[k]).id@ == hint.group_id@
}

/// One of the scores reaches the least similarity of two faces of one person.
pub open spec fn any_similar(scores: Seq<Score>) -> bool {
    exists|k: int| 0 <= k < scores.len() && (#[trigger] scores[k]).at_least((Score { key: 0x3ee6_6666 }))
}

/// A score reaches the least similarity, and none of the others that do is higher.
pub open spec fn is_most_similar(scores: Seq<Score>, at: int) -> bool {
    &&& 0 <= at < scores.len()
    &&& scores[at].at_least((Score { key: 0x3ee6_6666 }))
    &&& forall|k: int|
        0 <= k < scores.len() && (#[trigger] scores[k]).at_least((Score { key: 0x3ee6_6666 })) ==> scores[k].key
            <= scores[at].key
}

/// A face that resembles no known person joins a group that is there wherever it is similar
/// enough to one, however many people are known: the one that a usable hint points to, else the
/// one that it resembles most. No group is opened for it then, and none is changed.
pub proof fn law_similar_faces_are_grouped(
    clusters: &mut Vec<FaceCluster>,
    known_people: &Vec<KnownPerson>,
    preview: String,
    face: &FaceScores,
    hint: &Option<GroupHint>,
    index: usize,
)
    requires
        face.people@.len() == known_people@.len(),
        face.groups@.len() == old(clusters)@.len(),
        call_ensures(assign_face_cluster_with_hint, (clusters, known_people, preview, face, hint), index),
        !any_similar(face.people@),
    ensures
        is_usable_hint(old(clusters)@, *hint) || any_similar(face.groups@) ==> index < old(clusters)@.len()
            && final(clusters)@ == old(clusters)@,
        is_usable_hint(old(clusters)@, *hint) ==> old(clusters)@[index as int].id@ == hint->0.group_id@,
        !is_usable_hint(old(clusters)@, *hint) && any_similar(face.groups@) ==> is_most_similar(
            face.groups@,
            index as int,
        ),
{
    let groups = clusters_of(old(clusters)@);
    law_best_match_reaches_the_threshold(face.people@);
    law_best_match_reaches_the_threshold(face.groups@);
    if *hint is Some {
        let id = hint->0.group_id@;
        lemma_first_group(groups, id);
        if is_usable_hint(old(clusters)@, *hint) {
            let k = choose|k: int| 0 <= k < old(clusters)@.len() && (#[trigger] old(clusters)@[k]).id@ == id;
            assert(groups[k].id == id);
        }
        if first_group(groups, id) is Some {
            let k = first_group(groups, id)->0;
            assert(old(clusters)@[k].id@ == groups[k].id);
        }
    }
}

/// A face that resembles neither a known person nor a group, and that no usable hint was given
/// for, comes into a group of its own behind the others: without a name, a face or a picture,
/// with the face as its centre. The other groups stay as they are.
pub proof fn law_unlike_faces_open_a_group(
    clusters: &mut Vec<FaceCluster>,
    known_people: &Vec<KnownPerson>,
    preview: String,
    face: &FaceScores,
    hint: &Option<GroupHint>,
    index: usize,
)
    requires
        face.people@.len() == known_people@.len(),
        face.groups@.len() == old(clusters)@.len(),
        call_ensures(assign_face_cluster_with_hint, (clusters, known_people, preview, face, hint), index),
        !any_similar(face.people@),
        !any_similar(face.groups@),
        !is_usable_hint(old(clusters)@, *hint),
    ensures
        index == old(clusters)@.len(),
        final(clusters)@.len() == old(clusters)@.len() + 1,
        forall|k: int| 0 <= k < index ==> final(clusters)@[k] == old(clusters)@[k],
        final(clusters)@[index as int].name is None,
        final(clusters)@[index as int].centroid@ == face.embedding@,
        final(clusters)@[index as int].face_count == 0,
        forall|image: Seq<char>| !(#[trigger] final(clusters)@[index as int]@.image_ids.contains(image)),
        final(clusters)@[index as int].preview@ == preview@,
{
    let groups = clusters_of(old(clusters)@);
    law_best_match_reaches_the_threshold(face.people@);
    law_best_match_reaches_the_threshold(face.groups@);
    if *hint is Some {
        let id = hint->0.group_id@;
        lemma_first_group(groups, id);
        if first_group(groups, id) is Some {
            let k = first_group(groups, id)->0;
            assert(old(clusters)@[k].id@ == groups[k].id);
        }
    }
    assert(final(clusters)@[index as int] == final(clusters)@.last());
    assert forall|k: int| 0 <= k < index implies final(clusters)@[k] == old(clusters)@[k] by {
        assert(final(clusters)@.drop_last()[k] == final(clusters)@[k]);
    }
}

/// A face that resembles a known person comes into the group of the one whom it resembles most,
/// whatever the hint and the other groups: into the group with that person's identifier where
/// there is one, which leaves all groups as they are, else into a new one with the person's
/// identifier and name.
pub proof fn law_named_people_are_recognized(
    clusters: &mut Vec<FaceCluster>,
    known_people: &Vec<KnownPerson>,
    preview: String,
    face: &FaceScores,
    hint: &Option<GroupHint>,
    index: usize,
)
    requires
        face.people@.len() == known_people@.len(),
        face.groups@.len() == old(clusters)@.len(),
        call_ensures(assign_face_cluster_with_hint, (clusters, known_people, preview, face, hint), index),
        any_similar(face.people@),
    ensures
        index < final(clusters)@.len(),
        exists|best: int|
            {
                let person = known_people@[best];
                &&& #[trigger] is_most_similar(face.people@, best)
                &&& final(clusters)@[index as int].id@ == person.id@
                &&& (exists|k: int| 0 <= k < old(clusters)@.len() && (#[trigger] old(clusters)@[k]).id@ == person.id@)
                    ==> final(clusters)@ == old(clusters)@
                &&& (forall|k: int| 0 <= k < old(clusters)@.len() ==> (#[trigger] old(clusters)@[k]).id@ != person.id@)
                    ==> final(clusters)@.len() == old(clusters)@.len() + 1 && final(clusters)@.drop_last()
                    == old(clusters)@ && optional_text(final(clusters)@[index as int].name) == Some(person.name@)
                    && final(clusters)@[index as int].centroid@ == face.embedding@
            },
{
    let groups = clusters_of(old(clusters)@);
    let people = persons_of(known_people@);
    law_best_match_reaches_the_threshold(face.people@);
    let best = best_match(face.people@)->0;
    assert(is_most_similar(face.people@, best));
    let id = known_people@[best].id@;
    assert(people[best].id == id);
    lemma_first_group(groups, id);
    if exists|k: int| 0 <= k < old(clusters)@.len() && (#[trigger] old(clusters)@[k]).id@ == id {
        let k = choose|k: int| 0 <= k < old(clusters)@.len() && (#[trigger] old(clusters)@[k]).id@ == id;
        assert(groups[k].id == id);
    }
    if first_group(groups, id) is Some {
        let k = first_group(groups, id)->0;
        assert(old(clusters)@[k].id@ == groups[k].id);
    }
}

/// Without a hint a face is assigned as with a hint that is absent.
pub proof fn law_a_hint_may_be_absent(
    clusters: &mut Vec<FaceCluster>,
    known_people: &Vec<KnownPerson>,
    preview: String,
    face: &FaceScores,
    index: usize,
)
    requires
        face.people@.len() == known_people@.len(),
        face.groups@.len() == old(clusters)@.len(),
        call_ensures(assign_face_cluster, (clusters, known_people, preview, face), index),
    ensures
        any_similar(face.people@) ==> exists|best: int| #[trigger]
            is_most_similar(face.people@, best) && final(clusters)@[index as int].id@ == known_people@[best].id@,
        !any_similar(face.people@) && any_similar(face.groups@) ==> is_most_similar(face.groups@, index as int)
            && final(clusters)@ == old(clusters)@,
        !any_similar(face.people@) && !any_similar(face.groups@) ==> index == old(clusters)@.len()
            && final(clusters)@.drop_last() == old(clusters)@ && final(clusters)@[index as int].name is None
            && final(clusters)@[index as int].centroid@ == face.embedding@,
{
    let groups = clusters_of(old(clusters)@);
    let people = persons_of(known_people@);
    law_best_match_reaches_the_threshold(face.people@);
    law_best_match_reaches_the_threshold(face.groups@);
    if any_similar(face.people@) {
        let best = best_match(face.people@)->0;
        assert(is_most_similar(face.people@, best));
        assert(people[best].id == known_people@[best].id@);
        lemma_first_group(groups, people[best].id);
        if first_group(groups, people[best].id) is Some {
            let k = first_group(groups, people[best].id)->0;
            assert(old(clusters)@[k].id@ == groups[k].id);
        }
    }
}

/// The identifier of a group rests on the first 64 numbers of a face alone, and is written with
/// 16 digits.
pub proof fn law_alike_faces_have_one_identifier(left: &Vec<u32>, left_id: String, right: &Vec<u32>, right_id: String)
    requires
        call_ensures(make_face_group_id, (left,), left_id),
        call_ensures(make_face_group_id, (right,), right_id),
    ensures
        left@ == right@ ==> left_id@ == right_id@,
        left@.len() >= 64 && right@.len() >= 64 && left@.take(64) == right@.take(64) ==> left_id@ == right_id@,
        left_id@.len() == 21,
        left_id@.take(5) == "face-"@,
{
    reveal_strlit("face-");
    lemma_hexadecimal_length(DefaultHasher::spec_finish(id_bytes(left@)) as nat, 16);
    assert(left_id@.take(5) =~= "face-"@);
}

proof fn lemma_hexadecimal_length(number: nat, width: nat)
    ensures
        hexadecimal(number, width).len() == width,
    decreases width,
{
    if width > 0 {
        lemma_hexadecimal_length(number / 16, (width - 1) as nat);
    }
}

/// A face that is put into a group adds one to its faces and its picture to those of the group,
/// and moves its centre to the given one. The identifier, the name and the picture shown of the
/// group stay, and so do all other groups; the identifier and the name are returned.
pub proof fn law_a_face_is_added_to_one_group(
    clusters: &mut Vec<FaceCluster>,
    index: usize,
    centroid: Vec<u32>,
    image_id: &String,
    group: (String, Option<String>),
    image: Seq<char>,
)
    requires
        index < old(clusters)@.len(),
        old(clusters)@[index as int].face_count < usize::MAX,
        old(clusters)@[index as int].well_formed(),
        call_ensures(update_face_centroid, (clusters, index, centroid, image_id), group),
    ensures
        final(clusters)@.len() == old(clusters)@.len(),
        forall|k: int|
            0 <= k < final(clusters)@.len() && k != index ==> (#[trigger] final(clusters)@[k])@ == old(clusters)@[k]@,
        ({
            let before = old(clusters)@[index as int];
            let after = final(clusters)@[index as int];
            &&& after.id@ == before.id@
            &&& optional_text(after.name) == optional_text(before.name)
            &&& after.preview@ == before.preview@
            &&& after.centroid@ == centroid@
            &&& after.face_count == before.face_count + 1
            &&& texts(after.image_ids@).contains(image) <==> texts(before.image_ids@).contains(image) || image
                == image_id@
            &&& group.0@ == before.id@
            &&& optional_text(group.1) == optional_text(before.name)
        }),
{
    let before = clusters_of(old(clusters)@);
    let after = clusters_of(final(clusters)@);
    assert(after.len() == before.len());
    assert forall|k: int| 0 <= k < final(clusters)@.len() && k != index implies (#[trigger] final(clusters)@[k])@
        == old(clusters)@[k]@ by {
        assert(after[k] == before[k]);
    }
    assert(after[index as int] == final(clusters)@[index as int]@);
    assert(before[index as int] == old(clusters)@[index as int]@);
    assert(after[index as int].image_ids.contains(image) == texts(final(clusters)@[index as int].image_ids@).contains(
        image,
    ));
}

/// The identifiers of the groups of all faces on records.
pub open spec fn faces_on(records: Seq<ImageText>) -> Seq<Seq<char>> {
    records.map_values(|record: ImageText| record.face_group_ids).flatten_alt()
}

/// The faces of a group are those on the records with its identifier, and its pictures the
/// records with one of them.
proof fn lemma_faces_are_counted(records: Seq<ImageText>, id: Seq<char>, image: Seq<char>)
    ensures
        faces_in(records, id) == faces_on(records).to_multiset().count(id),
        faces_in(records, id) > 0 <==> exists|k: int|
            0 <= k < records.len() && (#[trigger] records[k]).face_group_ids.contains(id),
        pictures_with(records, id).contains(image) <==> exists|k: int|
            0 <= k < records.len() && (#[trigger] records[k]).id == image && records[k].face_group_ids.contains(id),
    decreases records.len(),
{
    let ids = records.map_values(|record: ImageText| record.face_group_ids);
    if records.len() > 0 {
        let before = records.drop_last();
        let last = records[records.len() - 1];
        lemma_faces_are_counted(before, id, image);
        lemma_occurrences(last.face_group_ids, id);
        lemma_occurrences_are_counted(last.face_group_ids, id);
        assert(ids.drop_last() =~= before.map_values(|record: ImageText| record.face_group_ids));
        lemma_multiset_commutative(faces_on(before), last.face_group_ids);
        assert forall|k: int| 0 <= k < before.len() implies #[trigger] before[k] == records[k] by {}
        if exists|k: int| 0 <= k < before.len() && (#[trigger] before[k]).face_group_ids.contains(id) {
            let k = choose|k: int| 0 <= k < before.len() && (#[trigger] before[k]).face_group_ids.contains(id);
            assert(records[k].face_group_ids.contains(id));
        }
        if exists|k: int| 0 <= k < records.len() && (#[trigger] records[k]).face_group_ids.contains(id) {
            let k = choose|k: int| 0 <= k < records.len() && (#[trigger] records[k]).face_group_ids.contains(id);
            if k < before.len() {
                assert(before[k].face_group_ids.contains(id));
            }
        }
        if exists|k: int|
            0 <= k < before.len() && (#[trigger] before[k]).id == image && before[k].face_group_ids.contains(id) {
            let k = choose|k: int|
                0 <= k < before.len() && (#[trigger] before[k]).id == image && before[k].face_group_ids.contains(id);
            assert(records[k].id == image && records[k].face_group_ids.contains(id));
        }
        if exists|k: int|
            0 <= k < records.len() && (#[trigger] records[k]).id == image && records[k].face_group_ids.contains(id) {
            let k = choose|k: int|
                0 <= k < records.len() && (#[trigger] records[k]).id == image && records[k].face_group_ids.contains(id);
            if k < before.len() {
                assert(before[k].id == image && before[k].face_group_ids.contains(id));
            }
        }
    } else {
        Seq::<Seq<char>>::empty().to_multiset_ensures();
        assert(ids.flatten_alt() =~= Seq::<Seq<char>>::empty());
    }
}

/// Where the groups that are kept stood before they were counted anew.
proof fn lemma_recounted_places(groups: Seq<ClusterText>, records: Seq<ImageText>) -> (places: Seq<int>)
    ensures
        places.len() == recounted_groups(groups, records).len(),
        forall|k: int|
            0 <= k < places.len() ==> 0 <= #[trigger] places[k] < groups.len() && recounted_groups(groups, records)[k]
                == recounted(groups[places[k]], records) && faces_in(records, groups[places[k]].id) > 0,
        forall|i: int, j: int| 0 <= i < j < places.len() ==> #[trigger] places[i] < #[trigger] places[j],
        forall|i: int, j: int|
            0 <= i < places.len() && 0 <= j < places[i] ==> (#[trigger] groups[j]).id != groups[#[trigger] places[i]].id,
        forall|i: int|
            0 <= i < groups.len() && faces_in(records, (#[trigger] groups[i]).id) > 0 && (forall|j: int|
                0 <= j < i ==> (#[trigger] groups[j]).id != groups[i].id) ==> places.contains(i),
    decreases groups.len(),
{
    if groups.len() == 0 {
        Seq::empty()
    } else {
        let shorter = groups.drop_last();
        let last = groups[groups.len() - 1];
        let before = lemma_recounted_places(shorter, records);
        lemma_first_group(shorter, last.id);
        assert forall|k: int| 0 <= k < shorter.len() implies #[trigger] shorter[k] == groups[k] by {}
        let taken = first_group(shorter, last.id) is None && faces_in(records, last.id) > 0;
        let places = if taken {
            before.push(groups.len() - 1)
        } else {
            before
        };
        assert forall|i: int|
            0 <= i < groups.len() && faces_in(records, (#[trigger] groups[i]).id) > 0 && (forall|j: int|
                0 <= j < i ==> (#[trigger] groups[j]).id != groups[i].id) implies places.contains(i) by {
            if i < shorter.len() {
                assert forall|j: int| 0 <= j < i implies (#[trigger] shorter[j]).id != shorter[i].id by {
                    assert(groups[j].id != groups[i].id);
                }
                assert(before.contains(i));
                let k = choose|k: int| 0 <= k < before.len() && before[k] == i;
                assert(places[k] == i);
            } else {
                if first_group(shorter, last.id) is Some {
                    let j = first_group(shorter, last.id)->0;
                    assert(groups[j].id == last.id);
                }
                assert(places[before.len() as int] == i);
            }
        }
        assert forall|i: int, j: int| 0 <= i < places.len() && 0 <= j < places[i] implies (#[trigger] groups[j]).id
            != groups[#[trigger] places[i]].id by {
            assert(shorter[j] == groups[j]);
            if i < before.len() {
                assert(places[i] == before[i]);
                assert(shorter[j].id != shorter[before[i]].id);
            }
        }
        places
    }
}

/// Counting anew keeps of the groups with the same identifier the first one, in their order, and
/// only where a record has a face of it: with the number of its faces on all records, as far as
/// it can be held, and with exactly the pictures that have one. Its identifier, name, centre and
/// the picture shown of it stay.
pub proof fn law_faces_of_groups_are_counted(
    clusters: &mut Vec<FaceCluster>,
    records: &Vec<ImageRecord>,
    image: Seq<char>,
) -> (places: Seq<int>)
    requires
        call_ensures(refresh_face_cluster_counts, (clusters, records), ()),
    ensures
        places.len() == final(clusters)@.len(),
        forall|i: int, j: int| 0 <= i < j < places.len() ==> #[trigger] places[i] < #[trigger] places[j],
        forall|k: int|
            0 <= k < places.len() ==> ({
                let after = #[trigger] final(clusters)@[k];
                let before = old(clusters)@[places[k]];
                let faces = faces_on(images(records@)).to_multiset().count(after.id@);
                &&& 0 <= places[k] < old(clusters)@.len()
                &&& after.id@ == before.id@
                &&& optional_text(after.name) == optional_text(before.name)
                &&& after.centroid@ == before.centroid@
                &&& after.preview@ == before.preview@
                &&& faces > 0
                &&& faces <= usize::MAX ==> after.face_count == faces
                &&& faces > usize::MAX ==> after.face_count == usize::MAX
                &&& texts(after.image_ids@).contains(image) <==> exists|r: int|
                    0 <= r < records@.len() && (#[trigger] records@[r]).id@ == image && texts(
                        records@[r].face_group_ids@,
                    ).contains(after.id@)
            }),
        forall|i: int|
            0 <= i < old(clusters)@.len() && (exists|r: int|
                0 <= r < records@.len() && texts((#[trigger] records@[r]).face_group_ids@).contains(
                    (#[trigger] old(clusters)@[i]).id@,
                )) ==> exists|k: int| 0 <= k < final(clusters)@.len() && (#[trigger] final(clusters)@[k]).id@ == old(
                clusters)@[i].id@,
        forall|i: int, j: int|
            0 <= i < j < final(clusters)@.len() ==> (#[trigger] final(clusters)@[i]).id@ != (
            #[trigger] final(clusters)@[j]).id@,
{
    let groups = clusters_of(old(clusters)@);
    let after = clusters_of(final(clusters)@);
    let all = images(records@);
    let places = lemma_recounted_places(groups, all);
    assert(after.len() == final(clusters)@.len());
    assert forall|k: int| 0 <= k < places.len() implies ({
        let after = #[trigger] final(clusters)@[k];
        let before = old(clusters)@[places[k]];
        let faces = faces_on(images(records@)).to_multiset().count(after.id@);
        &&& 0 <= places[k] < old(clusters)@.len()
        &&& after.id@ == before.id@
        &&& optional_text(after.name) == optional_text(before.name)
        &&& after.centroid@ == before.centroid@
        &&& after.preview@ == before.preview@
        &&& faces > 0
        &&& faces <= usize::MAX ==> after.face_count == faces
        &&& faces > usize::MAX ==> after.face_count == usize::MAX
        &&& texts(after.image_ids@).contains(image) <==> exists|r: int|
            0 <= r < records@.len() && (#[trigger] records@[r]).id@ == image && texts(
                records@[r].face_group_ids@,
            ).contains(after.id@)
    }) by {
        let group = final(clusters)@[k];
        assert(after[k] == group@);
        assert(groups[places[k]] == old(clusters)@[places[k]]@);
        lemma_faces_are_counted(all, group.id@, image);
        assert(group@.image_ids.contains(image) == texts(group.image_ids@).contains(image));
        assert forall|r: int| 0 <= r < records@.len() implies #[trigger] all[r] == records@[r]@ by {}
        if exists|r: int| 0 <= r < all.len() && (#[trigger] all[r]).id == image && all[r].face_group_ids.contains(
            group.id@,
        ) {
            let r = choose|r: int|
                0 <= r < all.len() && (#[trigger] all[r]).id == image && all[r].face_group_ids.contains(group.id@);
            assert(records@[r].id@ == image && texts(records@[r].face_group_ids@).contains(group.id@));
        }
        if exists|r: int| 0 <= r < records@.len() && (#[trigger] records@[r]).id@ == image && texts(
            records@[r].face_group_ids@,
        ).contains(group.id@) {
            let r = choose|r: int| 0 <= r < records@.len() && (#[trigger] records@[r]).id@ == image && texts(
                records@[r].face_group_ids@,
            ).contains(group.id@);
            assert(all[r].id == image && all[r].face_group_ids.contains(group.id@));
        }
    }
    assert forall|i: int|
        0 <= i < old(clusters)@.len() && (exists|r: int|
            0 <= r < records@.len() && texts((#[trigger] records@[r]).face_group_ids@).contains(
                (#[trigger] old(clusters)@[i]).id@,
            )) implies exists|k: int| 0 <= k < final(clusters)@.len() && (#[trigger] final(clusters)@[k]).id@ == old(
            clusters)@[i].id@ by {
        let id = old(clusters)@[i].id@;
        let r = choose|r: int|
            0 <= r < records@.len() && texts((#[trigger] records@[r]).face_group_ids@).contains(id);
        assert(all[r].face_group_ids.contains(id));
        lemma_faces_are_counted(all, id, image);
        lemma_first_group(groups, id);
        assert(groups[i].id == id);
        let first = first_group(groups, id)->0;
        assert(groups[first].id == id);
        assert(places.contains(first));
        let k = choose|k: int| 0 <= k < places.len() && places[k] == first;
        assert(after[k] == final(clusters)@[k]@);
        assert(after[k].id == id);
    }
    assert forall|i: int, j: int| 0 <= i < j < final(clusters)@.len() implies (#[trigger] final(clusters)@[i]).id@ != (
    #[trigger] final(clusters)@[j]).id@ by {
        assert(after[i] == final(clusters)@[i]@);
        assert(after[j] == final(clusters)@[j]@);
        assert(places[i] < places[j]);
        assert(groups[places[i]].id != groups[places[j]].id);
    }
    places
}

/// The groups are shown in an order: each once, with all that is told of it, the named ones first, then
/// those with more faces, and as they came.
pub open spec fn are_shown(groups: Seq<FaceCluster>, shown: Seq<FaceGroupSummary>, order: Seq<usize>) -> bool {
    &&& shown.len() == groups.len()
    &&& order.len() == shown.len()
    &&& forall|k: usize| k < groups.len() ==> #[trigger] order.contains(k)
    &&& forall|k: int|
        0 <= k < shown.len() ==> ({
            let summary = #[trigger] shown[k];
            let group = groups[order[k] as int];
            &&& order[k] < groups.len()
            &&& summary.id@ == group.id@
            &&& optional_text(summary.name) == optional_text(group.name)
            &&& summary.face_count == group.face_count
            &&& summary.image_count == group.image_ids@.len()
            &&& summary.preview@ == group.preview@
        })
    &&& forall|i: int, j: int|
        0 <= i < j < shown.len() ==> ({
            let left = #[trigger] shown[i];
            let right = #[trigger] shown[j];
            &&& right.name is Some ==> left.name is Some
            &&& (left.name is Some) == (right.name is Some) ==> left.face_count >= right.face_count
            &&& (left.name is Some) == (right.name is Some) && left.face_count == right.face_count ==> order[i]
                < order[j]
        })
}

/// What is shown of groups: of each group its identifier, its name, its faces, the number of its
/// pictures and the picture shown of it, once. Groups with a name come before those without, and
/// among either those with more faces first; groups alike in both stay as they came.
pub proof fn law_groups_are_shown_once(
    face_groups: &Vec<FaceCluster>,
    shown: Vec<FaceGroupSummary>,
) -> (order: Seq<usize>)
    requires
        all_well_formed(face_groups@),
        call_ensures(face_group_summaries, (face_groups,), shown),
    ensures
        are_shown(face_groups@, shown@, order),
{
    lemma_groups_are_shown(face_groups@, shown@)
}

/// Once a group is named, the groups are shown as they are then; a name for a group that is not there
/// is refused.
pub proof fn law_named_groups_are_shown(
    data: &mut IndexData,
    known_people: Vec<KnownPerson>,
    group_id: &String,
    name: &str,
    result: Result<Labelled, String>,
)
    requires
        all_well_formed(old(data).face_groups@),
        call_ensures(label_face_group, (data, known_people, group_id, name), result),
    ensures
        result is Ok ==> exists|order: Seq<usize>| #[trigger]
            are_shown(final(data).face_groups@, result->Ok_0.summaries@, order),
        result is Err ==> result->Err_0@ == "找不到指定的人物群組。"@,
{
    if result is Ok {
        let order = lemma_groups_are_shown(final(data).face_groups@, result->Ok_0.summaries@);
        assert(are_shown(final(data).face_groups@, result->Ok_0.summaries@, order));
    }
}

/// What is listed of groups shows each of them once.
proof fn lemma_groups_are_shown(face_groups: Seq<FaceCluster>, shown: Seq<FaceGroupSummary>) -> (order: Seq<usize>)
    requires
        all_well_formed(face_groups),
        is_summary_list(summaries_of(shown), clusters_of(face_groups)),
    ensures
        are_shown(face_groups, shown, order),
{
    let groups = clusters_of(face_groups);
    let summaries = groups.map_values(|group: ClusterText| summary_of(group));
    let all = summaries_of(shown);
    let order = choose|order: Seq<usize>| #[trigger] shows_groups(groups, order) && all == in_order(summaries, order);
    assert(all.len() == order.len());
    assert forall|k: usize| k < face_groups.len() implies #[trigger] order.contains(k) by {
        lemma_order_is_complete(order, groups.len(), k);
    }
    assert forall|k: int| 0 <= k < shown.len() implies ({
        let summary = #[trigger] shown[k];
        let group = face_groups[order[k] as int];
        &&& order[k] < face_groups.len()
        &&& summary.id@ == group.id@
        &&& optional_text(summary.name) == optional_text(group.name)
        &&& summary.face_count == group.face_count
        &&& summary.image_count == group.image_ids@.len()
        &&& summary.preview@ == group.preview@
    }) by {
        assert(order[k] < groups.len());
        let group = face_groups[order[k] as int];
        assert(group.well_formed());
        texts(group.image_ids@).unique_seq_to_set();
        assert(all[k] == shown[k]@);
        assert(all[k] == summary_of(group@));
    }
    assert forall|i: int, j: int| 0 <= i < j < shown.len() implies ({
        let left = #[trigger] shown[i];
        let right = #[trigger] shown[j];
        &&& right.name is Some ==> left.name is Some
        &&& (left.name is Some) == (right.name is Some) ==> left.face_count >= right.face_count
        &&& (left.name is Some) == (right.name is Some) && left.face_count == right.face_count ==> order[i] < order[j]
    }) by {
        assert(optional_text(shown[i].name) == optional_text(face_groups[order[i] as int].name));
        assert(optional_text(shown[j].name) == optional_text(face_groups[order[j] as int].name));
        assert(groups[order[i] as int] == face_groups[order[i] as int]@);
        assert(groups[order[j] as int] == face_groups[order[j] as int]@);
    }
    order
}

/// Naming succeeds exactly where there is a group with the identifier, and changes nothing
/// otherwise. The first such group gets the text without surrounding blanks as its name, or
/// loses its name where nothing is left, and is otherwise as before, as are all other groups.
pub proof fn law_one_group_is_named(
    data: &mut IndexData,
    known_people: Vec<KnownPerson>,
    group_id: &String,
    name: &str,
    result: Result<Labelled, String>,
    at: int,
)
    requires
        all_well_formed(old(data).face_groups@),
        call_ensures(label_face_group, (data, known_people, group_id, name), result),
    ensures
        result is Ok <==> exists|k: int|
            0 <= k < old(data).face_groups@.len() && (#[trigger] old(data).face_groups@[k]).id@ == group_id@,
        result is Err ==> *final(data) == *old(data),
        result is Ok ==> final(data).face_groups@.len() == old(data).face_groups@.len(),
        result is Ok && 0 <= at < old(data).face_groups@.len() ==> ({
            let before = old(data).face_groups@[at];
            let after = final(data).face_groups@[at];
            let chosen = before.id@ == group_id@ && forall|k: int|
                0 <= k < at ==> (#[trigger] old(data).face_groups@[k]).id@ != group_id@;
            &&& after.id@ == before.id@
            &&& after.centroid@ == before.centroid@
            &&& after.face_count == before.face_count
            &&& after@.image_ids == before@.image_ids
            &&& after.preview@ == before.preview@
            &&& !chosen ==> optional_text(after.name) == optional_text(before.name)
            &&& chosen && trimmed(name@, blank()).len() > 0 ==> optional_text(after.name) == Some(
                trimmed(name@, blank()),
            )
            &&& chosen && trimmed(name@, blank()).len() == 0 ==> after.name is None
        }),
{
    let groups = clusters_of(old(data).face_groups@);
    let after = clusters_of(final(data).face_groups@);
    lemma_first_group(groups, group_id@);
    assert forall|k: int| 0 <= k < groups.len() implies #[trigger] groups[k] == old(data).face_groups@[k]@ by {}
    if exists|k: int|
        0 <= k < old(data).face_groups@.len() && (#[trigger] old(data).face_groups@[k]).id@ == group_id@ {
        let k = choose|k: int|
            0 <= k < old(data).face_groups@.len() && (#[trigger] old(data).face_groups@[k]).id@ == group_id@;
        assert(groups[k].id == group_id@);
    }
    if result is Ok {
        let first = first_group(groups, group_id@)->0;
        assert(old(data).face_groups@[first].id@ == group_id@);
        assert(after.len() == groups.len());
        if 0 <= at < groups.len() {
            assert(after[at] == final(data).face_groups@[at]@);
            assert(groups[at] == old(data).face_groups@[at]@);
            if at < first {
                assert(groups[at].id != group_id@);
            }
            assert forall|k: int| 0 <= k < first implies (#[trigger] old(data).face_groups@[k]).id@ != group_id@ by {
                assert(groups[k].id != group_id@);
            }
        }
    }
}

/// Naming a group puts on each record exactly the names of the groups that have a face on it, in
/// order and each of them once, and leaves all else of the records as it is.
pub proof fn law_names_follow_the_groups(
    data: &mut IndexData,
    known_people: Vec<KnownPerson>,
    group_id: &String,
    name: &str,
    result: Result<Labelled, String>,
    at: int,
    shown: Seq<char>,
)
    requires
        all_well_formed(old(data).face_groups@),
        call_ensures(label_face_group, (data, known_people, group_id, name), result),
        result is Ok,
        0 <= at < old(data).images@.len(),
    ensures
        final(data).images@.len() == old(data).images@.len(),
        ({
            let before = old(data).images@[at]@;
            let after = final(data).images@[at]@;
            &&& after.id == before.id
            &&& after.path == before.path
            &&& after.filename == before.filename
            &&& after.modified_at == before.modified_at
            &&& after.captured_at == before.captured_at
            &&& after.width == before.width
            &&& after.height == before.height
            &&& after.thumbnail == before.thumbnail
            &&& after.ocr_text == before.ocr_text
            &&& after.score == before.score
            &&& after.face_group_ids == before.face_group_ids
            &&& after.people.contains(shown) <==> exists|k: int|
                0 <= k < final(data).face_groups@.len() && optional_text((#[trigger] final(data).face_groups@[k]).name)
                    == Some(shown) && before.face_group_ids.contains(final(data).face_groups@[k].id@)
            &&& forall|i: int, j: int|
                0 <= i < j < after.people.len() ==> crate::text::text_before(
                    #[trigger] after.people[i],
                    #[trigger] after.people[j],
                )
        }),
{
    let groups = clusters_of(final(data).face_groups@);
    let before = images(old(data).images@);
    let after = images(final(data).images@);
    assert(after.len() == before.len());
    assert(after[at] == final(data).images@[at]@);
    assert(before[at] == old(data).images@[at]@);
    assert(after[at] == (ImageText { people: after[at].people, ..before[at] }));
    lemma_names_among(groups, before[at].face_group_ids, shown);
    assert forall|k: int| 0 <= k < groups.len() implies #[trigger] groups[k] == final(data).face_groups@[k]@ by {}
    let ids = before[at].face_group_ids;
    if exists|k: int| 0 <= k < groups.len() && (#[trigger] groups[k]).name == Some(shown) && ids.contains(groups[k].id) {
        let k = choose|k: int|
            0 <= k < groups.len() && (#[trigger] groups[k]).name == Some(shown) && ids.contains(groups[k].id);
        assert(optional_text(final(data).face_groups@[k].name) == Some(shown));
    }
    if exists|k: int|
        0 <= k < final(data).face_groups@.len() && optional_text((#[trigger] final(data).face_groups@[k]).name) == Some(
            shown,
        ) && ids.contains(final(data).face_groups@[k].id@) {
        let k = choose|k: int|
            0 <= k < final(data).face_groups@.len() && optional_text((#[trigger] final(data).face_groups@[k]).name)
                == Some(shown) && ids.contains(final(data).face_groups@[k].id@);
        assert(groups[k].name == Some(shown));
    }
}

/// Naming a group keeps every other person that is known, forgets the one with the identifier of
/// the group, and where the group has got a name, knows its person by that name and the centre
/// of the group, so that faces like it are recognized from then on.
pub proof fn law_named_people_are_remembered(
    data: &mut IndexData,
    known_people: Vec<KnownPerson>,
    group_id: &String,
    name: &str,
    result: Result<Labelled, String>,
    person: PersonText,
)
    requires
        all_well_formed(old(data).face_groups@),
        call_ensures(label_face_group, (data, known_people, group_id, name), result),
        result is Ok,
    ensures
        ({
            let known = persons_of(result->Ok_0.known_people@);
            &&& person.id != group_id@ ==> known.contains(person) == persons_of(known_people@).contains(person)
            &&& trimmed(name@, blank()).len() == 0 && known.contains(person) ==> person.id != group_id@
            &&& trimmed(name@, blank()).len() > 0 ==> known.len() > 0 && known.last().id == group_id@
            &&& known.contains(person) && person.id == group_id@ ==> person.name == trimmed(name@, blank()) && exists|
                k: int,
            |
                0 <= k < old(data).face_groups@.len() && (#[trigger] old(data).face_groups@[k]).id@ == group_id@
                    && person.embedding == old(data).face_groups@[k].centroid@
        }),
{
    let groups = clusters_of(old(data).face_groups@);
    let people = persons_of(known_people@);
    let known = persons_of(result->Ok_0.known_people@);
    lemma_first_group(groups, group_id@);
    let first = first_group(groups, group_id@)->0;
    let group = groups[first];
    assert(group == old(data).face_groups@[first]@);
    let keep = |other: PersonText| other.id != group.id;
    let others = people.filter(keep);
    if others.contains(person) {
        people.lemma_filter_contains_rev(keep, person);
        let k = choose|k: int| 0 <= k < others.len() && others[k] == person;
        people.lemma_filter_pred(keep, k);
        assert(known[k] == person);
    }
    if people.contains(person) && person.id != group.id {
        let k = choose|k: int| 0 <= k < people.len() && people[k] == person;
        people.lemma_filter_contains(keep, k);
    }
    if known.contains(person) {
        let k = choose|k: int| 0 <= k < known.len() && known[k] == person;
        if k < others.len() {
            assert(others[k] == person);
        } else {
            assert(old(data).face_groups@[first].id@ == group_id@);
        }
    }
}

/// The bytes of a number are those that it is made of, the lowest first.
proof fn lemma_bytes_of_number(value: u32, first: u8, second: u8, third: u8, fourth: u8)
    requires
        value == first + 256 * second + 65536 * third + 16777216 * fourth,
    ensures
        little_endian(value) == seq![first, second, third, fourth],
{
    assert(value % 256 == first);
    assert(value / 256 == second + 256 * third + 65536 * fourth);
    assert(value / 65536 == third + 256 * fourth);
    assert(value / 16777216 == fourth);
    assert(little_endian(value) =~= seq![first, second, third, fourth]);
}

/// The bytes of a vector are those that its numbers are made of, four for each and the lowest first.
pub proof fn lemma_bytes_of_vector(values: Seq<u32>, blob: Seq<u8>)
    requires
        blob.len() == 4 * values.len(),
        forall|k: int|
            0 <= k < values.len() ==> #[trigger] values[k] == blob[4 * k] + 256 * blob[4 * k + 1] + 65536 * blob[4 * k
                + 2] + 16777216 * blob[4 * k + 3],
    ensures
        blob_of(values) == blob,
    decreases values.len(),
{
    if values.len() == 0 {
        assert(blob =~= Seq::<u8>::empty());
    } else {
        let n = values.len() - 1;
        let start = blob.take(4 * n);
        assert forall|k: int| 0 <= k < n implies #[trigger] values.drop_last()[k] == start[4 * k] + 256 * start[4 * k + 1]
            + 65536 * start[4 * k + 2] + 16777216 * start[4 * k + 3] by {
            assert(values.drop_last()[k] == values[k]);
        }
        lemma_bytes_of_vector(values.drop_last(), start);
        let value = values[n];
        assert(value == blob[4 * n] + 256 * blob[4 * n + 1] + 65536 * blob[4 * n + 2] + 16777216 * blob[4 * n + 3]);
        lemma_bytes_of_number(value, blob[4 * n], blob[4 * n + 1], blob[4 * n + 2], blob[4 * n + 3]);
        let last = little_endian(value);
        assert forall|i: int| 0 <= i < blob.len() implies (start + last)[i] == #[trigger] blob[i] by {
            if i >= 4 * n {
                assert(i == 4 * n || i == 4 * n + 1 || i == 4 * n + 2 || i == 4 * n + 3);
            }
        }
        assert(start + last =~= blob);
    }
}

/// A vector is kept as the bytes that its numbers are made of, four for each and the lowest first.
pub proof fn law_vectors_are_kept_byte_by_byte(values: &Vec<u32>, blob: Vec<u8>, bytes: Seq<u8>)
    requires
        call_ensures(embedding_blob, (values,), blob),
        bytes.len() == 4 * values@.len(),
        forall|k: int|
            0 <= k < values@.len() ==> #[trigger] values@[k] == bytes[4 * k] + 256 * bytes[4 * k + 1] + 65536 * bytes[4
                * k + 2] + 16777216 * bytes[4 * k + 3],
    ensures
        blob@ == bytes,
{
    lemma_bytes_of_vector(values@, bytes);
}

/// A copy of a group holds all that the group holds.
pub proof fn law_copied_groups_are_the_same(group: &FaceCluster, copy: FaceCluster)
    requires
        call_ensures(FaceCluster::duplicate, (group,), copy),
    ensures
        copy.id@ == group.id@,
        copy.name is Some == group.name is Some,
        group.name is Some ==> copy.name->0@ == group.name->0@,
        copy.centroid@ == group.centroid@,
        copy.face_count == group.face_count,
        texts(copy.image_ids@).to_set() == texts(group.image_ids@).to_set(),
        copy.preview@ == group.preview@,
{
    assert(copy@.name == group@.name);
    assert(copy@.id == group@.id);
}

/// The identifier of a group is told by the numbers of its first face, the first 64 of them: those of
/// each number are hashed one after the other, lowest byte first, and the hash is written in sixteen
/// hexadecimal digits.
pub proof fn law_identifiers_are_told_by_the_face(
    values: &Vec<u32>,
    id: String,
    bytes: Seq<Seq<u8>>,
    digits: &mut Vec<char>,
    hash: u64,
)
    requires
        call_ensures(make_face_group_id, (values,), id),
        bytes.len() == if values@.len() < 64 { values@.len() as int } else { 64 },
        forall|k: int|
            0 <= k < bytes.len() ==> (#[trigger] bytes[k]).len() == 4 && values@[k] == bytes[k][0] + 256 * bytes[k][1]
                + 65536 * bytes[k][2] + 16777216 * bytes[k][3],
        hash == DefaultHasher::spec_finish(bytes),
        old(digits)@.len() == 0,
        call_ensures(push_hexadecimal, (digits, hash, 16usize), ()),
    ensures
        id@ == "face-"@ + final(digits)@,
{
    assert forall|k: int| 0 <= k < bytes.len() implies #[trigger] bytes[k] == little_endian(values@[k]) by {
        lemma_bytes_of_number(values@[k], bytes[k][0], bytes[k][1], bytes[k][2], bytes[k][3]);
        assert(bytes[k] =~= seq![bytes[k][0], bytes[k][1], bytes[k][2], bytes[k][3]]);
    }
    assert(id_bytes(values@) =~= bytes);
    assert(final(digits)@ =~= hexadecimal(hash as nat, 16));
}

/// The group of a known person that is opened for their face has the name of the person and the face,
/// and no faces or pictures yet.
pub proof fn law_groups_of_known_people_start_empty(
    clusters: &mut Vec<FaceCluster>,
    known_people: &Vec<KnownPerson>,
    preview: String,
    face: &FaceScores,
    hint: &Option<GroupHint>,
    index: usize,
)
    requires
        face.people@.len() == known_people@.len(),
        face.groups@.len() == old(clusters)@.len(),
        call_ensures(assign_face_cluster_with_hint, (clusters, known_people, preview, face, hint), index),
        final(clusters)@.len() > old(clusters)@.len(),
    ensures
        index == old(clusters)@.len(),
        final(clusters)@[index as int].face_count == 0,
        final(clusters)@[index as int].preview@ == preview@,
        final(clusters)@[index as int].centroid@ == face.embedding@,
        forall|image: Seq<char>| !(#[trigger] final(clusters)@[index as int]@.image_ids.contains(image)),
{
    assert(final(clusters)@[index as int]@.preview == preview@);
}

} // verus!
