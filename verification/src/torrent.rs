//! The metainfo extractor: from a decoded bencode dictionary to typed
//! torrent metadata.
//!
//! Extraction is specified by `spec_extract`, a total function from the
//! value model to either a metadata model or an extraction error; the
//! executable `TorrentMeta::extract_from_bcode` returns exactly its result.
//! Fields are validated in a fixed order: `announce` (present, a byte
//! string, valid text), `info` (present, a dictionary), `piece length`
//! (present, a positive integer), `pieces` (present, a byte string whose
//! length is a multiple of twenty), `name` (optional text), then the layout:
//! a present `files` list selects the multi-file layout, otherwise `length`
//! is required.

use vstd::prelude::*;
use crate::value::{
    dict_get, entry_views_of, len_ok, len_ok_entries, lemma_entry_views_of,
    lemma_len_ok_entries, lemma_views_of, view_of, views_of, BenStruct, BenValue,
};

verus! {

/// A field of the metainfo format, named in extraction errors.
#[derive(Debug, Clone, Copy, PartialEq, Eq, Structural)]
pub enum FieldName {
    Announce,
    Info,
    PieceLength,
    Pieces,
    Name,
    Files,
    Length,
    Path,
}

/// An extraction error: what was wrong with the decoded dictionary, and for
/// field-level faults, which field.
#[derive(Debug, Clone, Copy, PartialEq, Eq, Structural)]
pub enum ExtractError {
    /// The top-level value is not a dictionary.
    NotADictionary,
    /// A required field is absent.
    MissingField { field: FieldName },
    /// A field holds a value of the wrong type (for `piece length`, also a
    /// non-positive value).
    WrongFieldType { field: FieldName },
    /// A text field holds bytes that are not valid UTF-8.
    InvalidEncoding { field: FieldName },
    /// The `pieces` byte length is not a multiple of twenty.
    InvalidPieceHashLength,
    /// A file entry's `path` list is empty.
    EmptyFilePath,
}

/// One file of a multi-file torrent.
#[derive(Debug)]
pub struct FileFormat {
    pub length: isize,
    pub path: Vec<String>,
}

/// The layout of the torrent's content: one file with its length, or a list
/// of files.
#[derive(Debug)]
pub enum TorrentFileType {
    Length(isize),
    Files(Vec<FileFormat>),
}

/// The typed content description extracted from the `info` dictionary.
#[derive(Debug)]
pub struct TorrentInfo {
    pub file_length: TorrentFileType,
    pub piece_length: isize,
    pub name: Option<String>,
    pub pieces: Vec<Vec<u8>>,
}

/// The typed metadata of a torrent.  `info_hash` is present only after the
/// hash has been computed from the raw `info` byte span.
#[derive(Debug)]
pub struct TorrentMeta {
    pub announce: String,
    pub info: TorrentInfo,
    pub info_hash: Option<[u8; 20]>,
}

/// Model of one file entry.
pub struct FileView {
    pub length: int,
    pub path: Seq<Seq<char>>,
}

/// Model of the layout.
pub enum FileTypeView {
    Length { n: int },
    Files { files: Seq<FileView> },
}

/// Model of the extracted `info` content.
pub struct InfoView {
    pub file_length: FileTypeView,
    pub piece_length: int,
    pub name: Option<Seq<char>>,
    pub pieces: Seq<Seq<u8>>,
}

/// Model of the extracted metadata.
pub struct MetaView {
    pub announce: Seq<char>,
    pub info: InfoView,
    pub info_hash: Option<Seq<u8>>,
}

impl View for FileFormat {
    type V = FileView;

    open spec fn view(&self) -> FileView {
        FileView {
            length: self.length as int,
            path: Seq::new(self.path@.len(), |i: int| self.path@[i]@),
        }
    }
}

impl View for TorrentFileType {
    type V = FileTypeView;

    open spec fn view(&self) -> FileTypeView {
        match self {
            TorrentFileType::Length(n) => FileTypeView::Length { n: *n as int },
            TorrentFileType::Files(fs) => FileTypeView::Files {
                files: Seq::new(fs@.len(), |i: int| fs@[i]@),
            },
        }
    }
}

impl View for TorrentInfo {
    type V = InfoView;

    open spec fn view(&self) -> InfoView {
        InfoView {
            file_length: self.file_length@,
            piece_length: self.piece_length as int,
            name: match self.name {
                Option::Some(n) => Option::Some(n@),
                Option::None => Option::None,
            },
            pieces: Seq::new(self.pieces@.len(), |i: int| self.pieces@[i]@),
        }
    }
}

impl View for TorrentMeta {
    type V = MetaView;

    open spec fn view(&self) -> MetaView {
        MetaView {
            announce: self.announce@,
            info: self.info@,
            info_hash: match self.info_hash {
                Option::Some(h) => Option::Some(h@),
                Option::None => Option::None,
            },
        }
    }
}

/// The `pieces` bytes split into twenty-byte hash chunks, in order.
pub open spec fn chunks20(bs: Seq<u8>) -> Seq<Seq<u8>> {
    Seq::new(bs.len() / 20, |i: int| bs.subrange(20 * i, 20 * i + 20))
}

/// Ghost extraction of the announce text.
pub open spec fn spec_announce(entries: Seq<(Seq<char>, BenValue)>) -> Result<
    Seq<char>,
    ExtractError,
> {
    match dict_get(entries, "announce"@) {
        Option::None => Result::Err(ExtractError::MissingField { field: FieldName::Announce }),
        Option::Some(v) => match v {
            BenValue::Bytes { bs } => {
                if vstd::utf8::valid_utf8(bs) {
                    Result::Ok(vstd::utf8::decode_utf8(bs))
                } else {
                    Result::Err(ExtractError::InvalidEncoding { field: FieldName::Announce })
                }
            },
            _ => Result::Err(ExtractError::WrongFieldType { field: FieldName::Announce }),
        },
    }
}

/// Ghost extraction of the piece length: a present, positive integer.
pub open spec fn spec_piece_length(info: Seq<(Seq<char>, BenValue)>) -> Result<
    int,
    ExtractError,
> {
    match dict_get(info, "piece length"@) {
        Option::None => Result::Err(ExtractError::MissingField {
            field: FieldName::PieceLength,
        }),
        Option::Some(v) => match v {
            BenValue::Int { i } => {
                if i > 0 {
                    Result::Ok(i)
                } else {
                    Result::Err(ExtractError::WrongFieldType { field: FieldName::PieceLength })
                }
            },
            _ => Result::Err(ExtractError::WrongFieldType { field: FieldName::PieceLength }),
        },
    }
}

/// Ghost extraction of the piece hashes: a present byte string whose length
/// is a multiple of twenty, split into twenty-byte chunks.
pub open spec fn spec_pieces(info: Seq<(Seq<char>, BenValue)>) -> Result<
    Seq<Seq<u8>>,
    ExtractError,
> {
    match dict_get(info, "pieces"@) {
        Option::None => Result::Err(ExtractError::MissingField { field: FieldName::Pieces }),
        Option::Some(v) => match v {
            BenValue::Bytes { bs } => {
                if bs.len() % 20 == 0 {
                    Result::Ok(chunks20(bs))
                } else {
                    Result::Err(ExtractError::InvalidPieceHashLength)
                }
            },
            _ => Result::Err(ExtractError::WrongFieldType { field: FieldName::Pieces }),
        },
    }
}

/// Ghost extraction of the optional name text.
pub open spec fn spec_name(info: Seq<(Seq<char>, BenValue)>) -> Result<
    Option<Seq<char>>,
    ExtractError,
> {
    match dict_get(info, "name"@) {
        Option::None => Result::Ok(Option::None),
        Option::Some(v) => match v {
            BenValue::Bytes { bs } => {
                if vstd::utf8::valid_utf8(bs) {
                    Result::Ok(Option::Some(vstd::utf8::decode_utf8(bs)))
                } else {
                    Result::Err(ExtractError::InvalidEncoding { field: FieldName::Name })
                }
            },
            _ => Result::Err(ExtractError::WrongFieldType { field: FieldName::Name }),
        },
    }
}

/// Ghost extraction of one path segment list, most recent segments first
/// accumulated in `acc`.
pub open spec fn spec_path(items: Seq<BenValue>, acc: Seq<Seq<char>>) -> Result<
    Seq<Seq<char>>,
    ExtractError,
>
    decreases items.len(),
{
    if items.len() == 0 {
        Result::Ok(acc)
    } else {
        match items[0] {
            BenValue::Bytes { bs } => {
                if vstd::utf8::valid_utf8(bs) {
                    spec_path(items.drop_first(), acc.push(vstd::utf8::decode_utf8(bs)))
                } else {
                    Result::Err(ExtractError::InvalidEncoding { field: FieldName::Path })
                }
            },
            _ => Result::Err(ExtractError::WrongFieldType { field: FieldName::Path }),
        }
    }
}

/// Ghost extraction of one file entry: a dictionary with an integer
/// `length` and a non-empty `path` list of text segments.
pub open spec fn spec_file(v: BenValue) -> Result<FileView, ExtractError> {
    match v {
        BenValue::Dict { entries } => match dict_get(entries, "length"@) {
            Option::None => Result::Err(ExtractError::MissingField { field: FieldName::Length }),
            Option::Some(lv) => match lv {
                BenValue::Int { i } => match dict_get(entries, "path"@) {
                    Option::None => Result::Err(ExtractError::MissingField {
                        field: FieldName::Path,
                    }),
                    Option::Some(pv) => match pv {
                        BenValue::List { items } => {
                            if items.len() == 0 {
                                Result::Err(ExtractError::EmptyFilePath)
                            } else {
                                match spec_path(items, Seq::empty()) {
                                    Result::Err(e) => Result::Err(e),
                                    Result::Ok(path) => Result::Ok(FileView { length: i, path }),
                                }
                            }
                        },
                        _ => Result::Err(ExtractError::WrongFieldType {
                            field: FieldName::Path,
                        }),
                    },
                },
                _ => Result::Err(ExtractError::WrongFieldType { field: FieldName::Length }),
            },
        },
        _ => Result::Err(ExtractError::WrongFieldType { field: FieldName::Files }),
    }
}

/// Ghost extraction of the file entries of a multi-file layout.
pub open spec fn spec_files(items: Seq<BenValue>, acc: Seq<FileView>) -> Result<
    Seq<FileView>,
    ExtractError,
>
    decreases items.len(),
{
    if items.len() == 0 {
        Result::Ok(acc)
    } else {
        match spec_file(items[0]) {
            Result::Err(e) => Result::Err(e),
            Result::Ok(f) => spec_files(items.drop_first(), acc.push(f)),
        }
    }
}

/// Ghost extraction of the layout: a present `files` list selects the
/// multi-file layout; otherwise `length` is required.
pub open spec fn spec_layout(info: Seq<(Seq<char>, BenValue)>) -> Result<
    FileTypeView,
    ExtractError,
> {
    match dict_get(info, "files"@) {
        Option::None => match dict_get(info, "length"@) {
            Option::None => Result::Err(ExtractError::MissingField { field: FieldName::Length }),
            Option::Some(lv) => match lv {
                BenValue::Int { i } => Result::Ok(FileTypeView::Length { n: i }),
                _ => Result::Err(ExtractError::WrongFieldType { field: FieldName::Length }),
            },
        },
        Option::Some(fv) => match fv {
            BenValue::List { items } => match spec_files(items, Seq::empty()) {
                Result::Err(e) => Result::Err(e),
                Result::Ok(files) => Result::Ok(FileTypeView::Files { files }),
            },
            _ => Result::Err(ExtractError::WrongFieldType { field: FieldName::Files }),
        },
    }
}

/// Ghost extraction of the whole metadata from a decoded value, with no
/// info hash yet.
pub open spec fn spec_extract(v: BenValue) -> Result<MetaView, ExtractError> {
    match v {
        BenValue::Dict { entries } => match spec_announce(entries) {
            Result::Err(e) => Result::Err(e),
            Result::Ok(announce) => match dict_get(entries, "info"@) {
                Option::None => Result::Err(ExtractError::MissingField {
                    field: FieldName::Info,
                }),
                Option::Some(iv) => match iv {
                    BenValue::Dict { entries: info } => match spec_piece_length(info) {
                        Result::Err(e) => Result::Err(e),
                        Result::Ok(piece_length) => match spec_pieces(info) {
                            Result::Err(e) => Result::Err(e),
                            Result::Ok(pieces) => match spec_name(info) {
                                Result::Err(e) => Result::Err(e),
                                Result::Ok(name) => match spec_layout(info) {
                                    Result::Err(e) => Result::Err(e),
                                    Result::Ok(file_length) => Result::Ok(
                                        MetaView {
                                            announce,
                                            info: InfoView {
                                                file_length,
                                                piece_length,
                                                name,
                                                pieces,
                                            },
                                            info_hash: Option::None,
                                        },
                                    ),
                                },
                            },
                        },
                    },
                    _ => Result::Err(ExtractError::WrongFieldType { field: FieldName::Info }),
                },
            },
        },
        _ => Result::Err(ExtractError::NotADictionary),
    }
}

/// The characters of each string in a sequence.
pub open spec fn strings_view(v: Seq<String>) -> Seq<Seq<char>> {
    Seq::new(v.len(), |i: int| v[i]@)
}

/// The model of each file entry in a sequence.
pub open spec fn files_view(v: Seq<FileFormat>) -> Seq<FileView> {
    Seq::new(v.len(), |i: int| v[i]@)
}

/// Look a key up in a dictionary body, by raw key bytes.
fn dict_find<'a>(entries: &'a Vec<(String, BenStruct)>, key: &str) -> (r: Option<
    &'a BenStruct,
>)
    ensures
        r matches Some(b) ==> dict_get(entry_views_of(entries@), key@) == Some(view_of(*b)) && (
        len_ok_entries(entries@) ==> len_ok(*b)),
        r is None ==> dict_get(entry_views_of(entries@), key@) is None,
{
    let ghost ev = entry_views_of(entries@);
    proof {
        lemma_entry_views_of(entries@);
        lemma_len_ok_entries(entries@);
        assert(ev.skip(0) =~= ev);
    }
    let mut i: usize = 0;
    loop
        invariant
            i <= entries@.len(),
            ev == entry_views_of(entries@),
            ev.len() == entries@.len(),
            forall|j: int| 0 <= j < ev.len() ==> #[trigger] ev[j] == (entries@[j].0@, view_of(
                entries@[j].1,
            )),
            forall|j: int|
                0 <= j < ev.len() ==> (len_ok_entries(entries@) ==> len_ok(entries@[j].1)),
            dict_get(ev, key@) == dict_get(ev.skip(i as int), key@),
        decreases entries@.len() - i,
    {
        if i == entries.len() {
            proof {
                assert(ev.skip(i as int) =~= Seq::<(Seq<char>, BenValue)>::empty());
            }
            return None;
        }
        proof {
            assert(ev.skip(i as int)[0] == ev[i as int]);
        }
        let same = crate::value::bytes_eq(entries[i].0.as_str().as_bytes(), key.as_bytes());
        if same {
            proof {
                vstd::utf8::encode_utf8_decode_utf8(entries@[i as int].0@);
                vstd::utf8::encode_utf8_decode_utf8(key@);
                assert(ev[i as int].0 == key@);
            }
            return Some(&entries[i].1);
        }
        proof {
            assert(ev[i as int].0 != key@);
            assert(ev.skip(i as int).drop_first() =~= ev.skip(i as int + 1));
        }
        i += 1;
    }
}

/// Split the `pieces` bytes into twenty-byte chunks.
fn chunk_pieces(data: &Vec<u8>) -> (r: Vec<Vec<u8>>)
    requires
        data@.len() % 20 == 0,
    ensures
        r@.len() == data@.len() / 20,
        forall|i: int|
            0 <= i < r@.len() ==> (#[trigger] r@[i])@ == data@.subrange(20 * i, 20 * i + 20),
{
    let total = data.len();
    let n = total / 20;
    let mut out: Vec<Vec<u8>> = Vec::new();
    let mut i: usize = 0;
    while i < n
        invariant
            i <= n,
            data@.len() <= usize::MAX,
            n == data@.len() / 20,
            data@.len() % 20 == 0,
            20 * n <= data@.len(),
            out@.len() == i,
            forall|k: int|
                0 <= k < i ==> (#[trigger] out@[k])@ == data@.subrange(20 * k, 20 * k + 20),
        decreases n - i,
    {
        let base = 20 * i;
        let mut chunk: Vec<u8> = Vec::new();
        proof {
            assert(20 * (i as int + 1) <= 20 * (n as int));
            assert(data@.subrange(base as int, base as int) =~= Seq::<u8>::empty());
        }
        let mut j: usize = 0;
        while j < 20
            invariant
                j <= 20,
                base == 20 * i,
                data@.len() <= usize::MAX,
                base + 20 <= data@.len(),
                chunk@ == data@.subrange(base as int, base as int + j as int),
            decreases 20 - j,
        {
            chunk.push(data[base + j]);
            proof {
                assert(data@.subrange(base as int, base as int + j as int + 1) =~= data@.subrange(
                    base as int,
                    base as int + j as int,
                ).push(data@[base as int + j as int]));
            }
            j += 1;
        }
        out.push(chunk);
        i += 1;
    }
    out
}

/// Extract the segments of one `path` list as text.
fn extract_path(items: &Vec<BenStruct>) -> (r: Result<Vec<String>, ExtractError>)
    ensures
        r matches Ok(p) ==> spec_path(views_of(items@), Seq::empty()) == Ok::<
            Seq<Seq<char>>,
            ExtractError,
        >(strings_view(p@)),
        r matches Err(e) ==> spec_path(views_of(items@), Seq::empty()) == Err::<
            Seq<Seq<char>>,
            ExtractError,
        >(e),
{
    let ghost vs = views_of(items@);
    proof {
        lemma_views_of(items@);
        assert(strings_view(Seq::<String>::empty()) =~= Seq::<Seq<char>>::empty());
        assert(vs.skip(0) =~= vs);
    }
    let mut out: Vec<String> = Vec::new();
    let mut i: usize = 0;
    loop
        invariant
            i <= items@.len(),
            vs == views_of(items@),
            vs.len() == items@.len(),
            forall|j: int| 0 <= j < vs.len() ==> #[trigger] vs[j] == view_of(items@[j]),
            spec_path(vs, Seq::empty()) == spec_path(vs.skip(i as int), strings_view(out@)),
        decreases items@.len() - i,
    {
        if i == items.len() {
            proof {
                assert(vs.skip(i as int) =~= Seq::<BenValue>::empty());
            }
            return Ok(out);
        }
        proof {
            assert(vs.skip(i as int)[0] == vs[i as int]);
            assert(vs.skip(i as int).drop_first() =~= vs.skip(i as int + 1));
        }
        match &items[i] {
            BenStruct::Byte { data, .. } => {
                match crate::text::utf8_to_string(data) {
                    Option::Some(seg) => {
                        let ghost prev = out@;
                        out.push(seg);
                        proof {
                            assert(strings_view(out@) =~= strings_view(prev).push(seg@));
                        }
                        i += 1;
                    },
                    Option::None => {
                        return Err(ExtractError::InvalidEncoding { field: FieldName::Path });
                    },
                }
            },
            _ => {
                return Err(ExtractError::WrongFieldType { field: FieldName::Path });
            },
        }
    }
}

/// Extract one file entry of a multi-file layout.
fn extract_file(v: &BenStruct) -> (r: Result<FileFormat, ExtractError>)
    ensures
        r matches Ok(f) ==> spec_file(view_of(*v)) == Ok::<FileView, ExtractError>(f@),
        r matches Err(e) ==> spec_file(view_of(*v)) == Err::<FileView, ExtractError>(e),
{
    match v {
        BenStruct::Dict { data: entries } => {
            let length: isize = match dict_find(entries, "length") {
                Option::None => {
                    return Err(ExtractError::MissingField { field: FieldName::Length });
                },
                Option::Some(lv) => match lv {
                    BenStruct::Int { data } => *data,
                    _ => {
                        return Err(ExtractError::WrongFieldType { field: FieldName::Length });
                    },
                },
            };
            match dict_find(entries, "path") {
                Option::None => Err(ExtractError::MissingField { field: FieldName::Path }),
                Option::Some(pv) => match pv {
                    BenStruct::List { data: segs } => {
                        proof {
                            lemma_views_of(segs@);
                        }
                        if segs.len() == 0 {
                            return Err(ExtractError::EmptyFilePath);
                        }
                        match extract_path(segs) {
                            Result::Ok(path) => {
                                let f = FileFormat { length, path };
                                proof {
                                    assert(f@ =~= (FileView {
                                        length: length as int,
                                        path: strings_view(f.path@),
                                    }));
                                    assert(strings_view(f.path@) =~= (Seq::new(
                                        f.path@.len(),
                                        |i: int| f.path@[i]@,
                                    )));
                                }
                                Ok(f)
                            },
                            Result::Err(e) => Err(e),
                        }
                    },
                    _ => Err(ExtractError::WrongFieldType { field: FieldName::Path }),
                },
            }
        },
        _ => Err(ExtractError::WrongFieldType { field: FieldName::Files }),
    }
}

/// Extract the file entries of a multi-file layout.
fn extract_files(items: &Vec<BenStruct>) -> (r: Result<Vec<FileFormat>, ExtractError>)
    ensures
        r matches Ok(fs) ==> spec_files(views_of(items@), Seq::empty()) == Ok::<
            Seq<FileView>,
            ExtractError,
        >(files_view(fs@)),
        r matches Err(e) ==> spec_files(views_of(items@), Seq::empty()) == Err::<
            Seq<FileView>,
            ExtractError,
        >(e),
{
    let ghost vs = views_of(items@);
    proof {
        lemma_views_of(items@);
        assert(files_view(Seq::<FileFormat>::empty()) =~= Seq::<FileView>::empty());
        assert(vs.skip(0) =~= vs);
    }
    let mut out: Vec<FileFormat> = Vec::new();
    let mut i: usize = 0;
    loop
        invariant
            i <= items@.len(),
            vs == views_of(items@),
            vs.len() == items@.len(),
            forall|j: int| 0 <= j < vs.len() ==> #[trigger] vs[j] == view_of(items@[j]),
            spec_files(vs, Seq::empty()) == spec_files(vs.skip(i as int), files_view(out@)),
        decreases items@.len() - i,
    {
        if i == items.len() {
            proof {
                assert(vs.skip(i as int) =~= Seq::<BenValue>::empty());
            }
            return Ok(out);
        }
        proof {
            assert(vs.skip(i as int)[0] == vs[i as int]);
            assert(vs.skip(i as int).drop_first() =~= vs.skip(i as int + 1));
        }
        match extract_file(&items[i]) {
            Result::Ok(f) => {
                let ghost prev = out@;
                out.push(f);
                proof {
                    assert(files_view(out@) =~= files_view(prev).push(out@[prev.len() as int]@));
                }
                i += 1;
            },
            Result::Err(e) => {
                return Err(e);
            },
        }
    }
}

impl TorrentMeta {
    /// Extract typed metadata from a decoded bencode value.  The result is
    /// exactly what the ghost extraction gives: typed metadata for a
    /// dictionary holding the required fields with the required types, and
    /// the first error of the documented field order otherwise.  The info
    /// hash is not yet computed.
    pub fn extract_from_bcode(raw_bcode: BenStruct) -> (r: Result<TorrentMeta, ExtractError>)
        ensures
            r matches Ok(m) ==> spec_extract(view_of(raw_bcode)) == Ok::<
                MetaView,
                ExtractError,
            >(m@) && m.info_hash is None,
            r matches Err(e) ==> spec_extract(view_of(raw_bcode)) == Err::<
                MetaView,
                ExtractError,
            >(e),
    {
        let ghost v0 = view_of(raw_bcode);
        let entries = match raw_bcode {
            BenStruct::Dict { data } => data,
            _ => {
                return Err(ExtractError::NotADictionary);
            },
        };
        proof {
            assert(v0 == (BenValue::Dict { entries: entry_views_of(entries@) }));
        }
        let announce: String = match dict_find(&entries, "announce") {
            Option::None => {
                return Err(ExtractError::MissingField { field: FieldName::Announce });
            },
            Option::Some(av) => match av {
                BenStruct::Byte { data, .. } => match crate::text::utf8_to_string(data) {
                    Option::Some(t) => t,
                    Option::None => {
                        return Err(ExtractError::InvalidEncoding {
                            field: FieldName::Announce,
                        });
                    },
                },
                _ => {
                    return Err(ExtractError::WrongFieldType { field: FieldName::Announce });
                },
            },
        };
        let info = match dict_find(&entries, "info") {
            Option::None => {
                return Err(ExtractError::MissingField { field: FieldName::Info });
            },
            Option::Some(iv) => match iv {
                BenStruct::Dict { data } => data,
                _ => {
                    return Err(ExtractError::WrongFieldType { field: FieldName::Info });
                },
            },
        };
        let piece_length: isize = match dict_find(info, "piece length") {
            Option::None => {
                return Err(ExtractError::MissingField { field: FieldName::PieceLength });
            },
            Option::Some(plv) => match plv {
                BenStruct::Int { data } => {
                    if *data <= 0 {
                        return Err(ExtractError::WrongFieldType {
                            field: FieldName::PieceLength,
                        });
                    }
                    *data
                },
                _ => {
                    return Err(ExtractError::WrongFieldType { field: FieldName::PieceLength });
                },
            },
        };
        let pieces: Vec<Vec<u8>> = match dict_find(info, "pieces") {
            Option::None => {
                return Err(ExtractError::MissingField { field: FieldName::Pieces });
            },
            Option::Some(pv) => match pv {
                BenStruct::Byte { data, .. } => {
                    if data.len() % 20 != 0 {
                        return Err(ExtractError::InvalidPieceHashLength);
                    }
                    chunk_pieces(data)
                },
                _ => {
                    return Err(ExtractError::WrongFieldType { field: FieldName::Pieces });
                },
            },
        };
        let name: Option<String> = match dict_find(info, "name") {
            Option::None => Option::None,
            Option::Some(nv) => match nv {
                BenStruct::Byte { data, .. } => match crate::text::utf8_to_string(data) {
                    Option::Some(t) => Option::Some(t),
                    Option::None => {
                        return Err(ExtractError::InvalidEncoding { field: FieldName::Name });
                    },
                },
                _ => {
                    return Err(ExtractError::WrongFieldType { field: FieldName::Name });
                },
            },
        };
        let file_length: TorrentFileType = match dict_find(info, "files") {
            Option::None => match dict_find(info, "length") {
                Option::None => {
                    return Err(ExtractError::MissingField { field: FieldName::Length });
                },
                Option::Some(lv) => match lv {
                    BenStruct::Int { data } => TorrentFileType::Length(*data),
                    _ => {
                        return Err(ExtractError::WrongFieldType { field: FieldName::Length });
                    },
                },
            },
            Option::Some(fv) => match fv {
                BenStruct::List { data } => match extract_files(data) {
                    Result::Ok(fs) => TorrentFileType::Files(fs),
                    Result::Err(e) => {
                        return Err(e);
                    },
                },
                _ => {
                    return Err(ExtractError::WrongFieldType { field: FieldName::Files });
                },
            },
        };
        let meta = TorrentMeta {
            announce,
            info: TorrentInfo { file_length, piece_length, name, pieces },
            info_hash: Option::None,
        };
        proof {
            assert(spec_extract(v0) == Ok::<MetaView, ExtractError>(meta@)) by {
                assert(meta@.info.pieces =~= (match spec_pieces(entry_views_of(info@)) {
                    Result::Ok(p) => p,
                    Result::Err(e) => meta@.info.pieces,
                }));
                assert(meta@.info.file_length =~= (match spec_layout(entry_views_of(info@)) {
                    Result::Ok(fl) => fl,
                    Result::Err(e) => meta@.info.file_length,
                }));
                assert(meta@ =~= (match spec_extract(v0) {
                    Result::Ok(mv) => mv,
                    Result::Err(e) => meta@,
                }));
            }
        }
        Ok(meta)
    }
}

/// A successful path extraction yields one segment per list element, on top
/// of what was already accumulated.
proof fn lemma_spec_path_len(items: Seq<BenValue>, acc: Seq<Seq<char>>)
    ensures
        spec_path(items, acc) matches Ok(p) ==> p.len() == acc.len() + items.len(),
    decreases items.len(),
{
    if items.len() > 0 {
        match items[0] {
            BenValue::Bytes { bs } => {
                if vstd::utf8::valid_utf8(bs) {
                    lemma_spec_path_len(
                        items.drop_first(),
                        acc.push(vstd::utf8::decode_utf8(bs)),
                    );
                }
            },
            _ => {},
        }
    }
}

/// Every file entry of a successful multi-file extraction has a non-empty
/// path, provided the entries accumulated so far do.
proof fn lemma_spec_files_paths(items: Seq<BenValue>, acc: Seq<FileView>)
    requires
        forall|i: int| 0 <= i < acc.len() ==> (#[trigger] acc[i]).path.len() > 0,
    ensures
        spec_files(items, acc) matches Ok(fs) ==> (forall|i: int|
            0 <= i < fs.len() ==> (#[trigger] fs[i]).path.len() > 0),
    decreases items.len(),
{
    if items.len() > 0 {
        match spec_file(items[0]) {
            Result::Err(e) => {},
            Result::Ok(f) => {
                match items[0] {
                    BenValue::Dict { entries } => {
                        match dict_get(entries, "path"@) {
                            Option::Some(pv) => match pv {
                                BenValue::List { items: segs } => {
                                    lemma_spec_path_len(segs, Seq::empty());
                                },
                                _ => {},
                            },
                            Option::None => {},
                        }
                    },
                    _ => {},
                }
                assert(f.path.len() > 0);
                lemma_spec_files_paths(items.drop_first(), acc.push(f));
            },
        }
    }
}

/// Law: extracted metadata satisfies the data model's invariants.  Whenever
/// extraction succeeds, the piece length is positive, every piece hash
/// chunk is exactly twenty bytes, every file of a multi-file layout has a
/// non-empty path, and the info hash is not yet present.
pub proof fn lemma_extract_meta_wf(v: BenValue)
    ensures
        spec_extract(v) matches Ok(m) ==> m.info.piece_length > 0 && (forall|i: int|
            0 <= i < m.info.pieces.len() ==> (#[trigger] m.info.pieces[i]).len() == 20) && (
        m.info.file_length matches FileTypeView::Files { files } ==> (forall|i: int|
            0 <= i < files.len() ==> (#[trigger] files[i]).path.len() > 0)) && m.info_hash
            is None,
{
    match v {
        BenValue::Dict { entries } => {
            match dict_get(entries, "info"@) {
                Option::Some(BenValue::Dict { entries: info }) => {
                    match dict_get(info, "pieces"@) {
                        Option::Some(BenValue::Bytes { bs }) => {
                            if bs.len() % 20 == 0 {
                                vstd::arithmetic::div_mod::lemma_fundamental_div_mod(
                                    bs.len() as int,
                                    20,
                                );
                                assert(20 * (bs.len() / 20) <= bs.len());
                                assert(forall|i: int|
                                    0 <= i < chunks20(bs).len() ==> (#[trigger] chunks20(
                                        bs,
                                    )[i]).len() == 20);
                            }
                        },
                        _ => {},
                    }
                    match dict_get(info, "files"@) {
                        Option::Some(BenValue::List { items }) => {
                            lemma_spec_files_paths(items, Seq::empty());
                        },
                        _ => {},
                    }
                },
                _ => {},
            }
        },
        _ => {},
    }
}

} // verus!
