use tfrecord_prep::annotation::{Annotation, BndBox, Object, Size, Source};
use tfrecord_prep::features::{encode_feature, insert_feature, Feature};
use tfrecord_prep::label_map::LabelMap;
use tfrecord_prep::record::{parse_frame, FrameError};
use tfrecord_prep::tfrecord::{
    encode_example, image_format, is_annotation_file, is_supported_extension, map_labels, ExampleError, ExampleImage,
    NormalizedBox, RecordBuilder,
};

fn object(name: &str) -> Object {
    Object {
        name: name.to_string(),
        pose: "Unspecified".to_string(),
        truncated: false,
        difficult: false,
        bndbox: BndBox { xmin: 1, ymin: 0, xmax: 3, ymax: 2 },
    }
}

fn annotation(path: &str, filename: &str, names: &[&str]) -> Annotation {
    Annotation {
        folder: "images".to_string(),
        filename: filename.to_string(),
        path: path.to_string(),
        system_path: filename.to_string(),
        source: Source { database: Some("Unknown".to_string()), annotation: None, image: None },
        size: Size { width: 4, height: 2, depth: 3 },
        segmented: false,
        objects: names.iter().map(|n| object(n)).collect(),
    }
}

fn boxes(n: usize) -> Vec<NormalizedBox> {
    vec![NormalizedBox { xmin: 0x3e80_0000, xmax: 0x3f40_0000, ymin: 0, ymax: 0x3f80_0000 }; n]
}

const ONE_OBJECT: [u8; 376] = [10, 245, 2, 10, 21, 10, 12, 105, 109, 97, 103, 101, 47, 104, 101, 105, 103, 104, 116, 18, 5, 26, 3, 10, 1, 2, 10, 20, 10, 11, 105, 109, 97, 103, 101, 47, 119, 105, 100, 116, 104, 18, 5, 26, 3, 10, 1, 4, 10, 29, 10, 14, 105, 109, 97, 103, 101, 47, 102, 105, 108, 101, 110, 97, 109, 101, 18, 11, 10, 9, 10, 7, 99, 97, 116, 46, 106, 112, 103, 10, 30, 10, 15, 105, 109, 97, 103, 101, 47, 115, 111, 117, 114, 99, 101, 95, 105, 100, 18, 11, 10, 9, 10, 7, 99, 97, 116, 46, 106, 112, 103, 10, 23, 10, 13, 105, 109, 97, 103, 101, 47, 101, 110, 99, 111, 100, 101, 100, 18, 6, 10, 4, 10, 2, 1, 2, 10, 23, 10, 12, 105, 109, 97, 103, 101, 47, 102, 111, 114, 109, 97, 116, 18, 7, 10, 5, 10, 3, 74, 80, 71, 10, 34, 10, 22, 105, 109, 97, 103, 101, 47, 111, 98, 106, 101, 99, 116, 47, 98, 98, 111, 120, 47, 120, 109, 105, 110, 18, 8, 18, 6, 10, 4, 0, 0, 128, 62, 10, 34, 10, 22, 105, 109, 97, 103, 101, 47, 111, 98, 106, 101, 99, 116, 47, 98, 98, 111, 120, 47, 120, 109, 97, 120, 18, 8, 18, 6, 10, 4, 0, 0, 64, 63, 10, 34, 10, 22, 105, 109, 97, 103, 101, 47, 111, 98, 106, 101, 99, 116, 47, 98, 98, 111, 120, 47, 121, 109, 105, 110, 18, 8, 18, 6, 10, 4, 0, 0, 0, 0, 10, 34, 10, 22, 105, 109, 97, 103, 101, 47, 111, 98, 106, 101, 99, 116, 47, 98, 98, 111, 120, 47, 121, 109, 97, 120, 18, 8, 18, 6, 10, 4, 0, 0, 128, 63, 10, 33, 10, 24, 105, 109, 97, 103, 101, 47, 111, 98, 106, 101, 99, 116, 47, 99, 108, 97, 115, 115, 47, 108, 97, 98, 101, 108, 18, 5, 26, 3, 10, 1, 1, 10, 34, 10, 23, 105, 109, 97, 103, 101, 47, 111, 98, 106, 101, 99, 116, 47, 99, 108, 97, 115, 115, 47, 116, 101, 120, 116, 18, 7, 10, 5, 10, 3, 99, 97, 116];

const TWO_OBJECTS: [u8; 397] = [10, 138, 3, 10, 21, 10, 12, 105, 109, 97, 103, 101, 47, 104, 101, 105, 103, 104, 116, 18, 5, 26, 3, 10, 1, 3, 10, 20, 10, 11, 105, 109, 97, 103, 101, 47, 119, 105, 100, 116, 104, 18, 5, 26, 3, 10, 1, 5, 10, 29, 10, 14, 105, 109, 97, 103, 101, 47, 102, 105, 108, 101, 110, 97, 109, 101, 18, 11, 10, 9, 10, 7, 116, 119, 111, 46, 112, 110, 103, 10, 30, 10, 15, 105, 109, 97, 103, 101, 47, 115, 111, 117, 114, 99, 101, 95, 105, 100, 18, 11, 10, 9, 10, 7, 116, 119, 111, 46, 112, 110, 103, 10, 22, 10, 13, 105, 109, 97, 103, 101, 47, 101, 110, 99, 111, 100, 101, 100, 18, 5, 10, 3, 10, 1, 9, 10, 23, 10, 12, 105, 109, 97, 103, 101, 47, 102, 111, 114, 109, 97, 116, 18, 7, 10, 5, 10, 3, 112, 110, 103, 10, 38, 10, 22, 105, 109, 97, 103, 101, 47, 111, 98, 106, 101, 99, 116, 47, 98, 98, 111, 120, 47, 120, 109, 105, 110, 18, 12, 18, 10, 10, 8, 1, 0, 0, 0, 2, 0, 0, 0, 10, 38, 10, 22, 105, 109, 97, 103, 101, 47, 111, 98, 106, 101, 99, 116, 47, 98, 98, 111, 120, 47, 120, 109, 97, 120, 18, 12, 18, 10, 10, 8, 3, 0, 0, 0, 4, 0, 0, 0, 10, 38, 10, 22, 105, 109, 97, 103, 101, 47, 111, 98, 106, 101, 99, 116, 47, 98, 98, 111, 120, 47, 121, 109, 105, 110, 18, 12, 18, 10, 10, 8, 5, 0, 0, 0, 6, 0, 0, 0, 10, 38, 10, 22, 105, 109, 97, 103, 101, 47, 111, 98, 106, 101, 99, 116, 47, 98, 98, 111, 120, 47, 121, 109, 97, 120, 18, 12, 18, 10, 10, 8, 7, 0, 0, 0, 8, 0, 0, 0, 10, 34, 10, 24, 105, 109, 97, 103, 101, 47, 111, 98, 106, 101, 99, 116, 47, 99, 108, 97, 115, 115, 47, 108, 97, 98, 101, 108, 18, 6, 26, 4, 10, 2, 2, 1, 10, 39, 10, 23, 105, 109, 97, 103, 101, 47, 111, 98, 106, 101, 99, 116, 47, 99, 108, 97, 115, 115, 47, 116, 101, 120, 116, 18, 12, 10, 10, 10, 3, 100, 111, 103, 10, 3, 99, 97, 116];

#[test]
fn int64_feature_uses_packed_varints() {
    assert_eq!(encode_feature(&Feature::Int64List(vec![300])), vec![26, 4, 10, 2, 172, 2]);
    assert_eq!(encode_feature(&Feature::Int64List(vec![])), vec![26, 0]);
}

#[test]
fn float_feature_uses_packed_words() {
    assert_eq!(
        encode_feature(&Feature::FloatList(vec![0x3f80_0000])),
        vec![18, 6, 10, 4, 0, 0, 128, 63]
    );
    assert_eq!(encode_feature(&Feature::FloatList(vec![])), vec![18, 0]);
}

#[test]
fn bytes_feature_repeats_values() {
    assert_eq!(
        encode_feature(&Feature::BytesList(vec![b"ab".to_vec(), vec![]])),
        vec![10, 6, 10, 2, 97, 98, 10, 0]
    );
}

#[test]
fn insert_feature_writes_a_map_entry() {
    let mut map = Vec::new();
    insert_feature(&mut map, "k", Feature::Int64List(vec![1]));
    assert_eq!(map, vec![10, 10, 10, 1, 107, 18, 5, 26, 3, 10, 1, 1]);
}

#[test]
fn supported_formats() {
    assert!(is_supported_extension("png"));
    assert!(is_supported_extension("jpg"));
    assert!(is_supported_extension("jpeg"));
    assert!(!is_supported_extension("PNG"));
    assert!(!is_supported_extension("gif"));
    assert_eq!(image_format("dir/a.JPG"), Some("JPG".to_string()));
    assert_eq!(image_format("a.Jpeg"), Some("Jpeg".to_string()));
    assert_eq!(image_format("/abs/path/to/b.png"), Some("png".to_string()));
    assert_eq!(image_format("a.gif"), None);
    assert_eq!(image_format("noextension"), None);
    assert_eq!(image_format("dir.jpg/file"), None);
}

#[test]
fn labels_map_to_ids() {
    let mut map = LabelMap::new();
    map.add("dog");
    map.add("cat");
    let ann = annotation("a.jpg", "a.jpg", &["cat", "dog", "cat"]);
    assert_eq!(map_labels(&ann, &map), Some(vec![2, 1, 2]));
    let ann = annotation("a.jpg", "a.jpg", &["cat", "bird"]);
    assert_eq!(map_labels(&ann, &map), None);
    let ann = annotation("a.jpg", "a.jpg", &[]);
    assert_eq!(map_labels(&ann, &map), Some(vec![]));
}

#[test]
fn example_encoding_is_exact() {
    let record = ExampleImage {
        height: 2,
        width: 4,
        filename: "cat.jpg".to_string(),
        image_bytes: vec![1, 2],
        image_format: "JPG".to_string(),
        xmins: vec![0x3e80_0000],
        xmaxs: vec![0x3f40_0000],
        ymins: vec![0],
        ymaxs: vec![0x3f80_0000],
        classes: vec![1],
        classes_text: vec!["cat".to_string()],
    };
    assert_eq!(encode_example(record), ONE_OBJECT.to_vec());
}

#[test]
fn builder_frames_each_record() {
    let mut map = LabelMap::new();
    map.add("cat");
    let mut builder = RecordBuilder::new(0, map);
    let ann = annotation("images/cat.JPG", "cat.jpg", &["cat"]);
    assert_eq!(builder.add_example(ann, Some(vec![1, 2]), boxes(1)), Ok(()));
    let stream = builder.take_tfrecord();
    let (payload, used) = parse_frame(&stream).ok().unwrap();
    assert_eq!(used, stream.len());
    assert_eq!(payload, ONE_OBJECT.to_vec());
    assert!(builder.take_tfrecord().is_empty());
}

#[test]
fn builder_keeps_record_order() {
    let mut map = LabelMap::new();
    map.add("cat");
    map.add("dog");
    let mut builder = RecordBuilder::new(0, map);
    let first = annotation("cat.JPG", "cat.jpg", &["cat"]);
    let mut second = annotation("two.png", "two.png", &["dog", "cat"]);
    second.size = Size { width: 5, height: 3, depth: 1 };
    let second_boxes = vec![
        NormalizedBox { xmin: 1, xmax: 3, ymin: 5, ymax: 7 },
        NormalizedBox { xmin: 2, xmax: 4, ymin: 6, ymax: 8 },
    ];
    assert!(builder.add_example(first, Some(vec![1, 2]), boxes(1)).is_ok());
    assert!(builder.add_example(second, Some(vec![9]), second_boxes).is_ok());
    let stream = builder.take_tfrecord();
    let (p1, used1) = parse_frame(&stream).ok().unwrap();
    let (p2, used2) = parse_frame(&stream[used1..]).ok().unwrap();
    assert_eq!(p1, ONE_OBJECT.to_vec());
    assert_eq!(p2, TWO_OBJECTS.to_vec());
    assert_eq!(used1 + used2, stream.len());
}

#[test]
fn dropped_examples_say_why() {
    let mut map = LabelMap::new();
    map.add("cat");
    let mut builder = RecordBuilder::new(0, map);
    let gif = annotation("a.gif", "a.gif", &["cat"]);
    assert_eq!(builder.add_example(gif, Some(vec![1]), boxes(1)), Err(ExampleError::UnsupportedFormat));
    let unread = annotation("a.png", "a.png", &["cat"]);
    assert_eq!(builder.add_example(unread, None, boxes(1)), Err(ExampleError::MissingImage));
    let unknown = annotation("a.png", "a.png", &["cat", "dog"]);
    assert_eq!(builder.add_example(unknown, Some(vec![1]), boxes(2)), Err(ExampleError::UnknownLabel));
    assert!(builder.take_tfrecord().is_empty());
}

#[test]
fn frame_errors() {
    assert_eq!(parse_frame(&[0u8; 5]).err(), Some(FrameError::Truncated));
    let mut stream = Vec::new();
    let mut builder = RecordBuilder::new(0, LabelMap::new());
    assert!(builder.add_example(annotation("e.png", "e.png", &[]), Some(vec![]), vec![]).is_ok());
    stream.extend(builder.take_tfrecord());
    let short = &stream[..stream.len() - 1];
    assert_eq!(parse_frame(short).err(), Some(FrameError::Truncated));
    let mut bad_len = stream.clone();
    bad_len[0] ^= 1;
    assert_eq!(parse_frame(&bad_len).err(), Some(FrameError::LengthChecksum));
    let mut bad_payload = stream.clone();
    bad_payload[20] ^= 0x40;
    assert_eq!(parse_frame(&bad_payload).err(), Some(FrameError::PayloadChecksum));
}

#[test]
fn annotation_files_by_extension() {
    assert!(is_annotation_file("dataset/1.xml"));
    assert!(is_annotation_file("dataset/2.XML"));
    assert!(is_annotation_file("a.Xml"));
    assert!(!is_annotation_file("dataset/1.jpg"));
    assert!(!is_annotation_file("xml"));
    assert!(!is_annotation_file("dataset/.xml"));
}
