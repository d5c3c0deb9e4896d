//! Flattening annotations into feature records, and the record builder that
//! collects them and writes them out as a framed record stream.
use vstd::prelude::*;
use vstd::utf8::encode_utf8;
use crate::annotation::{Annotation, Object};
use crate::features::{
    byte_views, bytes_feature, entry, float_feature, insert_feature, int64_feature, utf8_views, Feature,
};
use crate::label_map::{id_of, LabelMap};
use crate::record::{frame_of, frames_of, push_frame};
use crate::wire::{append_bytes, delimited, push_delimited};

verus! {

/// The normalized bounding box of one object: each coordinate divided by the
/// image's width (x) or height (y), as an IEEE-754 single-precision bit pattern.
#[derive(Debug, Clone, Copy, PartialEq, Eq)]
pub struct NormalizedBox {
    pub xmin: u32,
    pub xmax: u32,
    pub ymin: u32,
    pub ymax: u32,
}

/// The flat feature record of one example. The five object lists have one
/// entry per object, in the same order.
#[derive(Debug)]
pub struct ExampleImage {
    pub height: i64,
    pub width: i64,
    pub filename: String,
    pub image_bytes: Vec<u8>,
    pub image_format: String,
    pub xmins: Vec<u32>,
    pub xmaxs: Vec<u32>,
    pub ymins: Vec<u32>,
    pub ymaxs: Vec<u32>,
    pub classes: Vec<i64>,
    pub classes_text: Vec<String>,
}

impl ExampleImage {
    /// The object lists all have the same length.
    pub open spec fn wf(&self) -> bool {
        &&& self.xmaxs@.len() == self.xmins@.len()
        &&& self.ymins@.len() == self.xmins@.len()
        &&& self.ymaxs@.len() == self.xmins@.len()
        &&& self.classes@.len() == self.xmins@.len()
        &&& self.classes_text@.len() == self.xmins@.len()
    }
}

/// Why an annotation yields no record.
#[derive(Debug, Clone, Copy, PartialEq, Eq)]
pub enum ExampleError {
    /// The image's extension is not png, jpg or jpeg (in any case).
    UnsupportedFormat,
    /// The image could not be read.
    MissingImage,
    /// An object's label is not in the registry.
    UnknownLabel,
}

/// The serialized `Example` of a record with the given parts.
#[verifier::opaque]
pub open spec fn record_payload(
    height: i64,
    width: i64,
    filename: Seq<char>,
    image: Seq<u8>,
    format: Seq<char>,
    xmins: Seq<u32>,
    xmaxs: Seq<u32>,
    ymins: Seq<u32>,
    ymaxs: Seq<u32>,
    classes: Seq<i64>,
    names: Seq<Seq<u8>>,
) -> Seq<u8> {
    delimited(
        1,
        entry("image/height"@, int64_feature(seq![height])) + entry(
            "image/width"@,
            int64_feature(seq![width]),
        ) + entry("image/filename"@, bytes_feature(seq![encode_utf8(filename)])) + entry(
            "image/source_id"@,
            bytes_feature(seq![encode_utf8(filename)]),
        ) + entry("image/encoded"@, bytes_feature(seq![image])) + entry(
            "image/format"@,
            bytes_feature(seq![encode_utf8(format)]),
        ) + entry("image/object/bbox/xmin"@, float_feature(xmins)) + entry(
            "image/object/bbox/xmax"@,
            float_feature(xmaxs),
        ) + entry("image/object/bbox/ymin"@, float_feature(ymins)) + entry(
            "image/object/bbox/ymax"@,
            float_feature(ymaxs),
        ) + entry("image/object/class/label"@, int64_feature(classes)) + entry(
            "image/object/class/text"@,
            bytes_feature(names),
        ),
    )
}

/// The serialized `Example` of a record.
pub open spec fn example_payload(rec: ExampleImage) -> Seq<u8> {
    record_payload(
        rec.height,
        rec.width,
        rec.filename@,
        rec.image_bytes@,
        rec.image_format@,
        rec.xmins@,
        rec.xmaxs@,
        rec.ymins@,
        rec.ymaxs@,
        rec.classes@,
        utf8_views(rec.classes_text@),
    )
}

/// The UTF-8 bytes of a string.
fn bytes_of(s: &String) -> (r: Vec<u8>)
    ensures
        r@ == encode_utf8(s@),
{
    let mut r: Vec<u8> = Vec::new();
    append_bytes(&mut r, s.as_str().as_bytes());
    r
}

/// The UTF-8 bytes of each string.
fn bytes_of_all(v: &Vec<String>) -> (r: Vec<Vec<u8>>)
    ensures
        byte_views(r@) == utf8_views(v@),
{
    let mut r: Vec<Vec<u8>> = Vec::new();
    let mut i: usize = 0;
    while i < v.len()
        invariant
            i <= v@.len(),
            byte_views(r@) == utf8_views(v@).take(i as int),
        decreases v@.len() - i,
    {
        let b = bytes_of(&v[i]);
        let ghost before = r@;
        r.push(b);
        proof {
            assert(r@ == before.push(b));
            assert(byte_views(r@) =~= byte_views(before).push(encode_utf8(v@[i as int]@)));
            assert(utf8_views(v@).take(i + 1) =~= utf8_views(v@).take(i as int).push(
                encode_utf8(v@[i as int]@),
            ));
        }
        i = i + 1;
        proof {
            assert(byte_views(r@) =~= utf8_views(v@).take(i as int));
        }
    }
    proof {
        assert(utf8_views(v@).take(i as int) =~= utf8_views(v@));
    }
    r
}

/// A vector holding one item.
fn single<T>(x: T) -> (r: Vec<T>)
    ensures
        r@ == seq![x],
{
    let mut r: Vec<T> = Vec::new();
    r.push(x);
    proof {
        assert(r@ =~= seq![x]);
    }
    r
}

/// Serializes a record as an `Example` message.
pub fn encode_example(input: ExampleImage) -> (r: Vec<u8>)
    ensures
        r@ == example_payload(input),
{
    let ghost rec = input;
    let filename = bytes_of(&input.filename);
    let source_id = bytes_of(&input.filename);
    let format = bytes_of(&input.image_format);
    let names = bytes_of_all(&input.classes_text);
    let ghost g_filename = filename;
    let ghost g_source_id = source_id;
    let ghost g_format = format;
    let ghost g_names = names;
    let mut map: Vec<u8> = Vec::new();
    insert_feature(&mut map, "image/height", Feature::Int64List(single(input.height)));
    proof {
        assert(map@ =~= entry("image/height"@, int64_feature(seq![rec.height])));
    }
    insert_feature(&mut map, "image/width", Feature::Int64List(single(input.width)));
    insert_feature(&mut map, "image/filename", Feature::BytesList(single(filename)));
    insert_feature(&mut map, "image/source_id", Feature::BytesList(single(source_id)));
    insert_feature(&mut map, "image/encoded", Feature::BytesList(single(input.image_bytes)));
    insert_feature(&mut map, "image/format", Feature::BytesList(single(format)));
    insert_feature(&mut map, "image/object/bbox/xmin", Feature::FloatList(input.xmins));
    insert_feature(&mut map, "image/object/bbox/xmax", Feature::FloatList(input.xmaxs));
    insert_feature(&mut map, "image/object/bbox/ymin", Feature::FloatList(input.ymins));
    insert_feature(&mut map, "image/object/bbox/ymax", Feature::FloatList(input.ymaxs));
    insert_feature(&mut map, "image/object/class/label", Feature::Int64List(input.classes));
    insert_feature(&mut map, "image/object/class/text", Feature::BytesList(names));
    let mut out: Vec<u8> = Vec::new();
    push_delimited(&mut out, 1, map.as_slice());
    proof {
        reveal(record_payload);
        assert(byte_views(seq![g_filename]) =~= seq![encode_utf8(rec.filename@)]);
        assert(byte_views(seq![g_source_id]) =~= seq![encode_utf8(rec.filename@)]);
        assert(byte_views(seq![g_format]) =~= seq![encode_utf8(rec.image_format@)]);
        assert(byte_views(seq![rec.image_bytes]) =~= seq![rec.image_bytes@]);
        assert(out@ =~= Seq::<u8>::empty() + delimited(1, map@));
    }
    out
}

/// The extension of a path, as `std::path::Path::extension` reads it.
pub uninterp spec fn extension_of(path: Seq<char>) -> Option<Seq<char>>;

/// The lower-case form of a string, as `str::to_lowercase` computes it.
pub uninterp spec fn lowercase_of(s: Seq<char>) -> Seq<char>;

/// Relies on `std::path::Path::extension`: the extension of `path`'s file
/// name, if it has one; read back as UTF-8, which a part of a `&str` is.
#[verifier::external_body]
fn path_extension(path: &str) -> (r: Option<String>)
    ensures
        match r {
            Some(e) => extension_of(path@) == Some(e@),
            None => extension_of(path@) is None,
        },
{
    let ext = std::path::Path::new(path).extension()?;
    let ext = ext.to_str()?;
    Some(ext.to_string())
}

/// Relies on `str::to_lowercase`: the lower-case form of `s`.
#[verifier::external_body]
fn to_lowercase(s: &str) -> (r: String)
    ensures
        r@ == lowercase_of(s@),
{
    s.to_lowercase()
}

/// A lower-case extension of a supported image format.
pub open spec fn supported_extension(lower: Seq<char>) -> bool {
    lower == "png"@ || lower == "jpg"@ || lower == "jpeg"@
}

/// The image format of an annotation's path: its extension, as written, when
/// that extension in lower case is png, jpg or jpeg.
pub open spec fn format_of(path: Seq<char>) -> Option<Seq<char>> {
    match extension_of(path) {
        Some(e) => if supported_extension(lowercase_of(e)) {
            Some(e)
        } else {
            None
        },
        None => None,
    }
}

/// Whether a lower-case extension is that of a supported image format.
pub fn is_supported_extension(lower: &str) -> (r: bool)
    ensures
        r == supported_extension(lower@),
{
    let s = lower.to_owned();
    s == "png".to_owned() || s == "jpg".to_owned() || s == "jpeg".to_owned()
}

/// The image format named by the extension of `path`, if it is supported.
pub fn image_format(path: &str) -> (r: Option<String>)
    ensures
        match r {
            Some(f) => format_of(path@) == Some(f@),
            None => format_of(path@) is None,
        },
{
    match path_extension(path) {
        Some(ext) => {
            let lower = to_lowercase(ext.as_str());
            if is_supported_extension(lower.as_str()) {
                Some(ext)
            } else {
                None
            }
        },
        None => None,
    }
}

/// Whether a path names an annotation file: its extension, in lower case, is `xml`.
pub open spec fn is_annotation_path(path: Seq<char>) -> bool {
    match extension_of(path) {
        Some(e) => lowercase_of(e) == "xml"@,
        None => false,
    }
}

/// Whether `path` names an annotation file, by its extension in any case.
pub fn is_annotation_file(path: &str) -> (r: bool)
    ensures
        r == is_annotation_path(path@),
{
    match path_extension(path) {
        Some(ext) => {
            let lower = to_lowercase(ext.as_str());
            lower == "xml".to_owned()
        },
        None => false,
    }
}

/// The labels of a list of objects.
pub open spec fn object_names(objects: Seq<Object>) -> Seq<Seq<char>> {
    objects.map_values(|o: Object| o.name@)
}

/// Every name is a registered label.
pub open spec fn all_registered(labels: Seq<Seq<char>>, names: Seq<Seq<char>>) -> bool {
    forall|i: int| 0 <= i < names.len() ==> labels.contains(#[trigger] names[i])
}

/// The ids of a list of registered names.
pub open spec fn ids_of(labels: Seq<Seq<char>>, names: Seq<Seq<char>>) -> Seq<i64> {
    names.map_values(|n: Seq<char>| id_of(labels, n) as i64)
}

/// The registry ids of an annotation's object labels, in object order, or
/// `None` when some label is not registered.
pub fn map_labels(input: &Annotation, label_map: &LabelMap) -> (r: Option<Vec<i64>>)
    requires
        label_map.wf(),
    ensures
        match r {
            Some(ids) => all_registered(label_map@, object_names(input.objects@)) && ids@
                == ids_of(label_map@, object_names(input.objects@)),
            None => !all_registered(label_map@, object_names(input.objects@)),
        },
{
    let ghost names = object_names(input.objects@);
    let mut ids: Vec<i64> = Vec::new();
    let mut i: usize = 0;
    while i < input.objects.len()
        invariant
            names == object_names(input.objects@),
            label_map.wf(),
            i <= names.len(),
            all_registered(label_map@, names.take(i as int)),
            ids@ == ids_of(label_map@, names.take(i as int)),
        decreases names.len() - i,
    {
        match label_map.get(input.objects[i].name.as_str()) {
            Some(id) => {
                ids.push(id);
                i = i + 1;
                proof {
                    assert(ids@ =~= ids_of(label_map@, names.take(i as int)));
                    assert(all_registered(label_map@, names.take(i as int))) by {
                        assert forall|k: int| 0 <= k < i implies label_map@.contains(
                            #[trigger] names.take(i as int)[k],
                        ) by {
                            if k < i - 1 {
                                assert(names.take(i as int)[k] == names.take(i - 1)[k]);
                            } else {
                                assert(label_map@[id - 1] == names[k]);
                            }
                        }
                    }
                }
            },
            None => {
                proof {
                    assert(names[i as int] == input.objects@[i as int].name@);
                }
                return None;
            },
        }
    }
    proof {
        assert(names.take(i as int) =~= names);
    }
    Some(ids)
}

/// The view of an optional byte vector.
pub open spec fn opt_bytes(image: Option<Vec<u8>>) -> Option<Seq<u8>> {
    match image {
        Some(b) => Some(b@),
        None => None,
    }
}

/// The left x coordinates of a list of boxes.
pub open spec fn xmins_of(boxes: Seq<NormalizedBox>) -> Seq<u32> {
    boxes.map_values(|b: NormalizedBox| b.xmin)
}

/// The right x coordinates of a list of boxes.
pub open spec fn xmaxs_of(boxes: Seq<NormalizedBox>) -> Seq<u32> {
    boxes.map_values(|b: NormalizedBox| b.xmax)
}

/// The top y coordinates of a list of boxes.
pub open spec fn ymins_of(boxes: Seq<NormalizedBox>) -> Seq<u32> {
    boxes.map_values(|b: NormalizedBox| b.ymin)
}

/// The bottom y coordinates of a list of boxes.
pub open spec fn ymaxs_of(boxes: Seq<NormalizedBox>) -> Seq<u32> {
    boxes.map_values(|b: NormalizedBox| b.ymax)
}

/// The UTF-8 encodings of a list of names.
pub open spec fn name_bytes(names: Seq<Seq<char>>) -> Seq<Seq<u8>> {
    names.map_values(|n: Seq<char>| encode_utf8(n))
}

/// What one annotation yields: the serialized `Example` of its record, or why
/// it is dropped. The format is checked first, then the image, then the labels.
pub open spec fn encoded_example(
    ann: Annotation,
    image: Option<Seq<u8>>,
    boxes: Seq<NormalizedBox>,
    labels: Seq<Seq<char>>,
) -> Result<Seq<u8>, ExampleError> {
    let names = object_names(ann.objects@);
    match format_of(ann.path@) {
        None => Err(ExampleError::UnsupportedFormat),
        Some(format) => match image {
            None => Err(ExampleError::MissingImage),
            Some(bytes) => if all_registered(labels, names) {
                Ok(
                    record_payload(
                        ann.size.height as i64,
                        ann.size.width as i64,
                        ann.filename@,
                        bytes,
                        format,
                        xmins_of(boxes),
                        xmaxs_of(boxes),
                        ymins_of(boxes),
                        ymaxs_of(boxes),
                        ids_of(labels, names),
                        name_bytes(names),
                    ),
                )
            } else {
                Err(ExampleError::UnknownLabel)
            },
        },
    }
}

/// Collects the records of annotated examples and writes them out.
#[derive(Debug)]
pub struct RecordBuilder {
    /// Maps labels to ids.
    label_map: LabelMap,
    /// The size an output file should not exceed; kept for callers that chunk
    /// the output, the builder itself writes one stream.
    max_size: usize,
    /// The records not yet written, in the order they were added.
    examples: Vec<ExampleImage>,
}

impl View for RecordBuilder {
    type V = Seq<Seq<u8>>;

    /// The serialized `Example` of each pending record, in order.
    closed spec fn view(&self) -> Seq<Seq<u8>> {
        self.examples@.map_values(|e: ExampleImage| example_payload(e))
    }
}

/// Appends the frame of a record's serialized `Example` to `out`.
fn push_example_frame(out: &mut Vec<u8>, e: ExampleImage)
    ensures
        final(out)@ == old(out)@ + frame_of(example_payload(e)),
{
    let payload = encode_example(e);
    push_frame(out, payload.as_slice());
}

/// The frames of a prefix one longer: those of the shorter prefix, then one more.
proof fn lemma_frames_step(payloads: Seq<Seq<u8>>, i: int)
    requires
        0 <= i < payloads.len(),
    ensures
        frames_of(payloads.take(i + 1)) == frames_of(payloads.take(i)) + frame_of(payloads[i]),
{
    assert(payloads.take(i + 1).drop_last() =~= payloads.take(i));
}

impl RecordBuilder {
    /// The builder's invariant: a well-formed registry and well-formed records.
    pub closed spec fn wf(&self) -> bool {
        &&& self.label_map.wf()
        &&& forall|i: int| 0 <= i < self.examples@.len() ==> #[trigger] self.examples@[i].wf()
    }

    /// The labels of the builder's registry.
    pub closed spec fn labels(&self) -> Seq<Seq<char>> {
        self.label_map@
    }

    /// A builder with no records, labelling objects through `label_map`.
    pub fn new(max_size: usize, label_map: LabelMap) -> (r: RecordBuilder)
        requires
            label_map.wf(),
        ensures
            r.wf(),
            r@ == Seq::<Seq<u8>>::empty(),
            r.labels() == label_map@,
    {
        let r = RecordBuilder { label_map, max_size, examples: Vec::new() };
        proof {
            assert(r@ =~= Seq::<Seq<u8>>::empty());
        }
        r
    }

    /// Adds the record of an annotation whose image holds `image` (`None` when
    /// it could not be read) and whose objects have the normalized boxes
    /// `boxes`. An annotation with an unsupported image format, no image, or
    /// an unregistered label is dropped, and the error says why.
    pub fn add_example(
        &mut self,
        example: Annotation,
        image: Option<Vec<u8>>,
        boxes: Vec<NormalizedBox>,
    ) -> (r: Result<(), ExampleError>)
        requires
            old(self).wf(),
            boxes@.len() == example.objects@.len(),
        ensures
            final(self).wf(),
            final(self).labels() == old(self).labels(),
            match encoded_example(example, opt_bytes(image), boxes@, old(self).labels()) {
                Ok(payload) => r is Ok && final(self)@ == old(self)@.push(payload),
                Err(e) => r == Err::<(), ExampleError>(e) && final(self)@ == old(self)@,
            },
    {
        let format = match image_format(example.path.as_str()) {
            Some(f) => f,
            None => return Err(ExampleError::UnsupportedFormat),
        };
        let bytes = match image {
            Some(b) => b,
            None => return Err(ExampleError::MissingImage),
        };
        let classes = match map_labels(&example, &self.label_map) {
            Some(c) => c,
            None => return Err(ExampleError::UnknownLabel),
        };
        let ghost names = object_names(example.objects@);
        let mut xmins: Vec<u32> = Vec::new();
        let mut xmaxs: Vec<u32> = Vec::new();
        let mut ymins: Vec<u32> = Vec::new();
        let mut ymaxs: Vec<u32> = Vec::new();
        let mut classes_text: Vec<String> = Vec::new();
        let mut i: usize = 0;
        while i < boxes.len()
            invariant
                boxes@.len() == example.objects@.len(),
                names == object_names(example.objects@),
                i <= boxes@.len(),
                xmins@ == xmins_of(boxes@).take(i as int),
                xmaxs@ == xmaxs_of(boxes@).take(i as int),
                ymins@ == ymins_of(boxes@).take(i as int),
                ymaxs@ == ymaxs_of(boxes@).take(i as int),
                utf8_views(classes_text@) == name_bytes(names).take(i as int),
            decreases boxes@.len() - i,
        {
            let b = boxes[i];
            xmins.push(b.xmin);
            xmaxs.push(b.xmax);
            ymins.push(b.ymin);
            ymaxs.push(b.ymax);
            let ghost before = classes_text@;
            classes_text.push(example.objects[i].name.clone());
            i = i + 1;
            proof {
                assert(xmins@ =~= xmins_of(boxes@).take(i as int));
                assert(xmaxs@ =~= xmaxs_of(boxes@).take(i as int));
                assert(ymins@ =~= ymins_of(boxes@).take(i as int));
                assert(ymaxs@ =~= ymaxs_of(boxes@).take(i as int));
                assert(utf8_views(classes_text@) =~= utf8_views(before).push(
                    encode_utf8(names[i - 1]),
                ));
                assert(name_bytes(names).take(i as int) =~= name_bytes(names).take(i - 1).push(
                    encode_utf8(names[i - 1]),
                ));
            }
        }
        proof {
            assert(xmins_of(boxes@).take(i as int) =~= xmins_of(boxes@));
            assert(xmaxs_of(boxes@).take(i as int) =~= xmaxs_of(boxes@));
            assert(ymins_of(boxes@).take(i as int) =~= ymins_of(boxes@));
            assert(ymaxs_of(boxes@).take(i as int) =~= ymaxs_of(boxes@));
            assert(name_bytes(names).take(i as int) =~= name_bytes(names));
        }
        let record = ExampleImage {
            height: example.size.height as i64,
            width: example.size.width as i64,
            filename: example.filename,
            image_bytes: bytes,
            image_format: format,
            xmins,
            xmaxs,
            ymins,
            ymaxs,
            classes,
            classes_text,
        };
        self.examples.push(record);
        proof {
            assert(self@ =~= old(self)@.push(example_payload(record)));
        }
        Ok(())
    }

    /// Serializes and frames every pending record, in order, and empties the
    /// builder. The result is the content of a record file.
    pub fn take_tfrecord(&mut self) -> (r: Vec<u8>)
        requires
            old(self).wf(),
        ensures
            final(self).wf(),
            final(self).labels() == old(self).labels(),
            final(self)@ == Seq::<Seq<u8>>::empty(),
            r@ == frames_of(old(self)@),
    {
        let mut pending: Vec<ExampleImage> = Vec::new();
        std::mem::swap(&mut pending, &mut self.examples);
        let ghost all = pending@;
        let ghost payloads = old(self)@;
        let n: usize = pending.len();
        let mut out: Vec<u8> = Vec::new();
        let mut i: usize = 0;
        proof {
            assert(payloads.take(0) =~= Seq::<Seq<u8>>::empty());
        }
        while pending.len() > 0
            invariant
                payloads.len() == all.len(),
                all.len() == n,
                forall|k: int| 0 <= k < all.len() ==> payloads[k] == example_payload(#[trigger] all[k]),
                i + pending@.len() == all.len(),
                pending@ == all.subrange(i as int, all.len() as int),
                out@ == frames_of(payloads.take(i as int)),
            decreases pending@.len(),
        {
            let e = pending.remove(0);
            proof {
                assert(e == all[i as int]);
                lemma_frames_step(payloads, i as int);
            }
            push_example_frame(&mut out, e);
            i = i + 1;
            proof {
                assert(pending@ =~= all.subrange(i as int, all.len() as int));
            }
        }
        proof {
            assert(payloads.take(i as int) =~= payloads);
            assert(self@ =~= Seq::<Seq<u8>>::empty());
        }
        out
    }
}

} // verus!
