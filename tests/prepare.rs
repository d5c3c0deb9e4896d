use tfrecord_prep::annotation::{Annotation, BndBox, Object, Size, Source};
use tfrecord_prep::partition::retain;
use tfrecord_prep::prepare::{gen_label_map, gen_tfrecord, prepare_dataset, split_dataset, LoadedExample};
use tfrecord_prep::record::parse_frame;
use tfrecord_prep::tfrecord::NormalizedBox;

fn loaded(filename: &str, image: Option<&[u8]>, names: &[&str]) -> LoadedExample {
    let objects: Vec<Object> = names
        .iter()
        .map(|n| Object {
            name: n.to_string(),
            pose: "Unspecified".to_string(),
            truncated: false,
            difficult: false,
            bndbox: BndBox { xmin: 0, ymin: 0, xmax: 10, ymax: 10 },
        })
        .collect();
    let boxes = vec![NormalizedBox { xmin: 0, xmax: 0x3f80_0000, ymin: 0, ymax: 0x3f80_0000 }; objects.len()];
    LoadedExample {
        annotation: Annotation {
            folder: "dataset".to_string(),
            filename: filename.to_string(),
            path: format!("/home/someone/dataset/{}", filename),
            system_path: format!("dataset/{}", filename),
            source: Source { database: Some("Unknown".to_string()), annotation: None, image: None },
            size: Size { width: 10, height: 10, depth: 3 },
            segmented: false,
            objects,
        },
        image: image.map(|b| b.to_vec()),
        boxes,
    }
}

fn records(stream: &[u8]) -> Vec<Vec<u8>> {
    let mut out = Vec::new();
    let mut at = 0;
    while at < stream.len() {
        let (payload, used) = parse_frame(&stream[at..]).ok().unwrap();
        out.push(payload);
        at += used;
    }
    out
}

fn contains(haystack: &[u8], needle: &[u8]) -> bool {
    haystack.windows(needle.len()).any(|w| w == needle)
}

/// Six examples; the checksums of exactly two images ("image-0" and
/// "image-2") lie at or above the threshold of 20%.
fn six_examples() -> Vec<LoadedExample> {
    vec![
        loaded("1.jpg", Some(b"image-1"), &["dog"]),
        loaded("2.jpg", Some(b"image-0"), &["dog", "cat"]),
        loaded("3.jpg", Some(b"image-5"), &["hotdog"]),
        loaded("4.jpg", Some(b"image-2"), &["cat"]),
        loaded("5.jpg", Some(b"image-9"), &["bird"]),
        loaded("6.jpg", Some(b"image-11"), &["dog"]),
    ]
}

#[test]
fn six_examples_split_two_to_test() {
    for image in [&b"image-0"[..], b"image-2"] {
        assert!(!retain(image, 20));
    }
    for image in [&b"image-1"[..], b"image-5", b"image-9", b"image-11"] {
        assert!(retain(image, 20));
    }
    let prepared = prepare_dataset(six_examples(), 20);
    let test = prepared.test.unwrap();
    let train = prepared.train.unwrap();
    assert_eq!(test.written, 2);
    assert_eq!(test.ignored, 0);
    assert_eq!(train.written, 4);
    assert_eq!(train.ignored, 0);
    let test_records = records(&test.records);
    assert_eq!(test_records.len(), 2);
    assert!(contains(&test_records[0], b"2.jpg"));
    assert!(contains(&test_records[1], b"4.jpg"));
    let train_records = records(&train.records);
    assert_eq!(train_records.len(), 4);
    for (record, name) in train_records.iter().zip(["1.jpg", "3.jpg", "5.jpg", "6.jpg"]) {
        assert!(contains(record, name.as_bytes()));
    }
    assert_eq!(prepared.label_map.get("dog"), Some(1));
    assert_eq!(prepared.label_map.get("cat"), Some(2));
    assert_eq!(prepared.label_map.get("hotdog"), Some(3));
    assert_eq!(prepared.label_map.get("bird"), Some(4));
    assert_eq!(prepared.label_map.len(), 4);
    assert_eq!(
        prepared.label_map_text,
        "item {\n  name: \"dog\"\n  id: 1\n}\nitem {\n  name: \"cat\"\n  id: 2\n}\n\
         item {\n  name: \"hotdog\"\n  id: 3\n}\nitem {\n  name: \"bird\"\n  id: 4\n}\n"
    );
}

#[test]
fn no_annotations_give_an_empty_registry_and_no_records() {
    let prepared = prepare_dataset(Vec::new(), 20);
    assert_eq!(prepared.label_map.len(), 0);
    assert_eq!(prepared.label_map_text, "");
    assert!(prepared.test.is_none());
    assert!(prepared.train.is_none());
}

#[test]
fn unreadable_images_go_to_training() {
    let (test, train) = split_dataset(vec![loaded("x.jpg", None, &["dog"])], 20);
    assert!(test.is_empty());
    assert_eq!(train.len(), 1);
    let (test, train) = split_dataset(vec![loaded("x.jpg", None, &["dog"])], 0);
    assert!(test.is_empty());
    assert_eq!(train.len(), 1);
}

#[test]
fn dropped_examples_are_counted() {
    let examples = vec![
        loaded("a.gif", Some(b"x"), &["dog"]),
        loaded("b.png", None, &["dog"]),
        loaded("c.png", Some(b"y"), &["dog"]),
    ];
    let map = gen_label_map(&examples);
    let set = gen_tfrecord(examples, &map).unwrap();
    assert_eq!(set.written, 1);
    assert_eq!(set.ignored, 2);
    assert_eq!(records(&set.records).len(), 1);
    assert!(gen_tfrecord(Vec::new(), &map).is_none());
}

#[test]
fn label_map_covers_every_object() {
    let map = gen_label_map(&six_examples());
    for name in ["dog", "cat", "hotdog", "bird"] {
        assert!(map.get(name).is_some());
    }
    assert_eq!(map.len(), 4);
}
