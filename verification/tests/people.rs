use local_lens::people::{
    assign_face_cluster, assign_face_cluster_with_hint, embedding_blob, face_group_summaries, label_face_group,
    make_face_group_id, refresh_face_cluster_counts, update_face_centroid, FaceCluster, FaceScores, GroupHint,
    IndexData, KnownPerson, FACE_MATCH_KEY,
};
use local_lens::record::ImageRecord;
use local_lens::score::Score;
use std::hash::{Hash, Hasher};

fn score(value: f32) -> Score {
    Score::from_bits(value.to_bits())
}

fn bits(values: &[f32]) -> Vec<u32> {
    values.iter().map(|value| value.to_bits()).collect()
}

fn numbers(bits: &[u32]) -> Vec<f32> {
    bits.iter().map(|bits| f32::from_bits(*bits)).collect()
}

fn normalize(values: &[f32]) -> Vec<f32> {
    let norm = values.iter().map(|value| value * value).sum::<f32>().sqrt();
    if norm == 0.0 {
        values.to_vec()
    } else {
        values.iter().map(|value| value / norm).collect()
    }
}

fn cosine(left: &[f32], right: &[f32]) -> f32 {
    if left.len() != right.len() || left.is_empty() {
        return 0.0;
    }
    let dot: f32 = left.iter().zip(right).map(|(left, right)| left * right).sum();
    let norms = |values: &[f32]| values.iter().map(|value| value * value).sum::<f32>().sqrt();
    if norms(left) == 0.0 || norms(right) == 0.0 {
        0.0
    } else {
        dot / (norms(left) * norms(right))
    }
}

fn face_scores(clusters: &[FaceCluster], known_people: &[KnownPerson], embedding: &[f32]) -> FaceScores {
    FaceScores {
        embedding: bits(embedding),
        people: known_people.iter().map(|person| score(cosine(embedding, &numbers(&person.embedding)))).collect(),
        groups: clusters.iter().map(|cluster| score(cosine(embedding, &numbers(&cluster.centroid)))).collect(),
    }
}

fn join_group(
    clusters: &mut Vec<FaceCluster>,
    index: usize,
    embedding: &[f32],
    image_id: &str,
) -> (String, Option<String>) {
    let count = clusters[index].face_count as f32;
    let moved: Vec<f32> = numbers(&clusters[index].centroid)
        .iter()
        .zip(embedding)
        .map(|(centroid, value)| (centroid * count + value) / (count + 1.0))
        .collect();
    update_face_centroid(clusters, index, bits(&normalize(&moved)), &image_id.to_owned())
}

fn assign(
    clusters: &mut Vec<FaceCluster>,
    known_people: &Vec<KnownPerson>,
    image_id: &str,
    preview: String,
    raw_embedding: &[f32],
) -> (String, Option<String>) {
    let embedding = normalize(raw_embedding);
    let face = face_scores(clusters, known_people, &embedding);
    let index = assign_face_cluster(clusters, known_people, preview, &face);
    join_group(clusters, index, &embedding, image_id)
}

#[test]
fn face_embeddings_are_grouped_only_when_they_are_similar() {
    let mut clusters = Vec::new();
    let (first_id, _) = assign(
        &mut clusters,
        &vec![],
        "image-1",
        "preview-1".to_owned(),
        &[1.0, 0.0, 0.0],
    );
    let (same_id, _) = assign(
        &mut clusters,
        &vec![],
        "image-2",
        "preview-2".to_owned(),
        &[0.98, 0.08, 0.0],
    );
    let (different_id, _) = assign(
        &mut clusters,
        &vec![],
        "image-3",
        "preview-3".to_owned(),
        &[0.0, 1.0, 0.0],
    );
    assert_eq!(first_id, same_id);
    assert_ne!(first_id, different_id);
    assert_eq!(clusters.len(), 2);
    assert_eq!(clusters[0].face_count, 2);
    assert_eq!(clusters[0].image_ids.len(), 2);
}

fn person(id: &str, name: &str, embedding: &[f32]) -> KnownPerson {
    KnownPerson { id: id.to_owned(), name: name.to_owned(), embedding: bits(embedding) }
}

fn group(id: &str, name: Option<&str>, count: usize, images: &[&str]) -> FaceCluster {
    FaceCluster {
        id: id.to_owned(),
        name: name.map(|name| name.to_owned()),
        centroid: bits(&[0.0, 1.0]),
        face_count: count,
        image_ids: images.iter().map(|image| image.to_string()).collect(),
        preview: format!("preview of {id}"),
    }
}

fn face(people: &[f32], groups: &[f32]) -> FaceScores {
    FaceScores {
        embedding: bits(&[1.0, 0.0]),
        people: people.iter().map(|value| score(*value)).collect(),
        groups: groups.iter().map(|value| score(*value)).collect(),
    }
}

#[test]
fn the_threshold_is_the_documented_one() {
    assert_eq!(score(0.45).key, FACE_MATCH_KEY);
    let mut clusters = vec![group("a", None, 1, &["x"])];
    assert_eq!(assign_face_cluster(&mut clusters, &vec![], String::new(), &face(&[], &[0.45])), 0);
    assert_eq!(assign_face_cluster(&mut clusters, &vec![], String::new(), &face(&[], &[0.4499])), 1);
    assert_eq!(clusters.len(), 2);
}

#[test]
fn a_known_person_decides_before_hint_and_groups() {
    let people = vec![person("p", "Tony", &[1.0, 0.0]), person("b", "Amy", &[1.0, 0.0])];
    let mut clusters = vec![group("a", None, 1, &[]), group("b", None, 1, &[])];
    let hint = Some(GroupHint { group_id: "a".to_owned(), score: score(0.99) });
    let index =
        assign_face_cluster_with_hint(&mut clusters, &people, String::new(), &face(&[0.5, 0.6], &[1.0, 0.0]), &hint);
    assert_eq!(index, 1);
    let opened = assign_face_cluster_with_hint(
        &mut clusters,
        &people,
        "shown".to_owned(),
        &face(&[0.7, 0.6], &[1.0, 0.0]),
        &hint,
    );
    assert_eq!(opened, 2);
    assert_eq!(clusters[2].id, "p");
    assert_eq!(clusters[2].name.as_deref(), Some("Tony"));
    assert_eq!(clusters[2].preview, "shown");
    assert_eq!(clusters[2].face_count, 0);
    assert_eq!(clusters[2].centroid, bits(&[1.0, 0.0]));
}

#[test]
fn a_hint_decides_before_the_groups() {
    let mut clusters = vec![group("a", None, 1, &[]), group("b", None, 1, &[])];
    let near = Some(GroupHint { group_id: "b".to_owned(), score: score(0.5) });
    let far = Some(GroupHint { group_id: "b".to_owned(), score: score(0.1) });
    let gone = Some(GroupHint { group_id: "z".to_owned(), score: score(0.9) });
    let scores = face(&[], &[0.9, 0.5]);
    assert_eq!(assign_face_cluster_with_hint(&mut clusters, &vec![], String::new(), &scores, &near), 1);
    assert_eq!(assign_face_cluster_with_hint(&mut clusters, &vec![], String::new(), &scores, &far), 0);
    assert_eq!(assign_face_cluster_with_hint(&mut clusters, &vec![], String::new(), &scores, &gone), 0);
    let equal = face(&[], &[0.9, 0.9]);
    assert_eq!(assign_face_cluster_with_hint(&mut clusters, &vec![], String::new(), &equal, &None), 1);
    assert_eq!(clusters.len(), 2);
}

#[test]
fn a_group_lists_each_picture_once() {
    let mut clusters = vec![group("a", Some("Tony"), 2, &["x"])];
    let (id, name) = update_face_centroid(&mut clusters, 0, vec![1, 2], &"x".to_owned());
    assert_eq!((id.as_str(), name.as_deref()), ("a", Some("Tony")));
    update_face_centroid(&mut clusters, 0, vec![3], &"y".to_owned());
    assert_eq!(clusters[0].face_count, 4);
    assert_eq!(clusters[0].image_ids, vec!["x", "y"]);
    assert_eq!(clusters[0].centroid, vec![3]);
}

#[test]
fn group_identifiers_are_made_of_the_first_numbers() {
    let values: Vec<f32> = (0..100).map(|value| value as f32 / 7.0).collect();
    let mut hasher = std::collections::hash_map::DefaultHasher::new();
    for value in values.iter().take(64) {
        value.to_bits().hash(&mut hasher);
    }
    assert_eq!(make_face_group_id(&bits(&values)), format!("face-{:016x}", hasher.finish()));
    let mut other = values.clone();
    other[80] = 5.0;
    assert_eq!(make_face_group_id(&bits(&values)), make_face_group_id(&bits(&other)));
    other[3] = 5.0;
    assert_ne!(make_face_group_id(&bits(&values)), make_face_group_id(&bits(&other)));
}

#[test]
fn vectors_are_written_in_four_bytes_each() {
    let values = [1.0f32, -0.5, 0.1];
    let expected: Vec<u8> = values.iter().flat_map(|value| value.to_le_bytes()).collect();
    assert_eq!(embedding_blob(&bits(&values)), expected);
}

fn record(id: &str, groups: &[&str], people: &[&str]) -> ImageRecord {
    ImageRecord {
        id: id.to_owned(),
        path: id.to_owned(),
        filename: id.to_owned(),
        modified_at: String::new(),
        captured_at: None,
        width: None,
        height: None,
        thumbnail: String::new(),
        ocr_text: String::new(),
        people: people.iter().map(|name| name.to_string()).collect(),
        score: score(1.0),
        face_group_ids: groups.iter().map(|group| group.to_string()).collect(),
    }
}

#[test]
fn groups_without_faces_are_dropped() {
    let mut clusters =
        vec![group("a", None, 9, &["old"]), group("b", None, 1, &[]), group("a", None, 3, &[]), group("c", None, 1, &[])];
    let records = vec![record("x", &["a", "a", "b"], &[]), record("y", &["a", "zzz"], &[])];
    refresh_face_cluster_counts(&mut clusters, &records);
    assert_eq!(clusters.len(), 2);
    assert_eq!(clusters[0].id, "a");
    assert_eq!(clusters[0].face_count, 3);
    assert_eq!(clusters[0].image_ids, vec!["x", "y"]);
    assert_eq!(clusters[1].id, "b");
    assert_eq!(clusters[1].face_count, 1);
    let counted = format!("{clusters:?}");
    refresh_face_cluster_counts(&mut clusters, &records);
    assert_eq!(format!("{clusters:?}"), counted);
}

#[test]
fn named_groups_are_shown_first() {
    let clusters = vec![
        group("a", None, 5, &["1", "2"]),
        group("b", Some("Amy"), 1, &["1"]),
        group("c", None, 7, &[]),
        group("d", Some("Tony"), 1, &[]),
        group("e", Some("Zoe"), 2, &[]),
    ];
    let shown = face_group_summaries(&clusters);
    let ids: Vec<&str> = shown.iter().map(|summary| summary.id.as_str()).collect();
    assert_eq!(ids, vec!["e", "b", "d", "c", "a"]);
    assert_eq!(shown[4].image_count, 2);
    assert_eq!(shown[4].face_count, 5);
    assert_eq!(shown[4].preview, "preview of a");
    assert_eq!(shown[1].name.as_deref(), Some("Amy"));
}

fn index() -> IndexData {
    IndexData {
        images: vec![record("x", &["a", "b"], &[]), record("y", &["c"], &["stale"]), record("z", &["b", "a"], &[])],
        face_groups: vec![group("a", None, 2, &["x", "z"]), group("b", Some("Zoe"), 2, &[]), group("c", None, 1, &[])],
    }
}

#[test]
fn a_name_is_put_on_the_pictures_of_its_group() {
    let mut data = index();
    let known = vec![person("a", "Old", &[0.0, 1.0]), person("q", "Other", &[0.0, 1.0])];
    let labelled = label_face_group(&mut data, known, &"a".to_owned(), "  Amy ").ok().unwrap();
    assert_eq!(data.face_groups[0].name.as_deref(), Some("Amy"));
    assert_eq!(data.images[0].people, vec!["Amy", "Zoe"]);
    assert!(data.images[1].people.is_empty());
    assert_eq!(data.images[2].people, vec!["Amy", "Zoe"]);
    let names: Vec<(&str, &str)> = labelled
        .known_people
        .iter()
        .map(|person| (person.id.as_str(), person.name.as_str()))
        .collect();
    assert_eq!(names, vec![("q", "Other"), ("a", "Amy")]);
    assert_eq!(labelled.known_people[1].embedding, bits(&[0.0, 1.0]));
    assert_eq!(labelled.summaries[0].id, "a");
}

#[test]
fn a_blank_name_forgets_the_person() {
    let mut data = index();
    let known = vec![person("b", "Zoe", &[0.0, 1.0])];
    let labelled = label_face_group(&mut data, known, &"b".to_owned(), " \u{3000}").ok().unwrap();
    assert!(labelled.known_people.is_empty());
    assert_eq!(data.face_groups[1].name, None);
    assert!(data.images.iter().all(|image| image.people.is_empty()));
}

#[test]
fn groups_of_the_same_name_give_it_once() {
    let mut data = index();
    label_face_group(&mut data, vec![], &"a".to_owned(), "Zoe").ok().unwrap();
    assert_eq!(data.images[0].people, vec!["Zoe"]);
}

#[test]
fn an_unknown_group_cannot_be_named() {
    let mut data = index();
    let result = label_face_group(&mut data, vec![], &"nobody".to_owned(), "Amy");
    assert_eq!(result.err().as_deref(), Some("找不到指定的人物群組。"));
    assert_eq!(data.images[1].people, vec!["stale"]);
    assert_eq!(data.face_groups[0].name, None);
}
