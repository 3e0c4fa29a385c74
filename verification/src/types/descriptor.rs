//! The torrent descriptor: what a `.torrent` file says.

use crate::bencode::decode::decode;
use crate::bencode::dictionary::field;
use crate::bencode::dictionary::find;
use crate::bencode::grammar::decoded;
use crate::bencode::value::items_view;
use crate::bencode::value::lemma_list_view;
use crate::bencode::value::Bencode;
use crate::bencode::value::BencodeValue;
use crate::error::Error;
use crate::octets::copy_range;
use crate::text::text_from_utf8;
use crate::types::hashes::hashes_of;
use crate::types::hashes::Hashes;
use crate::types::keys::KEY_ANNOUNCE;
use crate::types::keys::KEY_FILES;
use crate::types::keys::KEY_INFO;
use crate::types::keys::KEY_LENGTH;
use crate::types::keys::KEY_NAME;
use crate::types::keys::KEY_PATH;
use crate::types::keys::KEY_PIECES;
use crate::types::keys::KEY_PIECE_LENGTH;
use vstd::prelude::*;
use vstd::utf8::decode_utf8;
use vstd::utf8::valid_utf8;

verus! {

/// A torrent descriptor: where to announce, and what is shared.
#[derive(Debug, Clone, PartialEq, Eq)]
pub struct Torrent {
    /// The address of the tracker.
    pub announce: String,
    pub info: Info,
}

/// What a torrent shares.
#[derive(Debug, Clone, PartialEq, Eq)]
pub struct Info {
    /// The suggested name of the file or directory.
    pub name: String,
    /// How many bytes a piece has, but for the last one. Never zero in a
    /// descriptor that was read.
    pub piece_length: usize,
    /// The SHA-1 digest of each piece.
    pub pieces: Hashes,
    /// One file, or several.
    pub files: Files,
}

/// How the content is laid out in files.
#[derive(Debug, Clone, PartialEq, Eq)]
pub enum Files {
    /// One file of `length` bytes.
    Single { length: usize },
    /// Several files, which follow each other in the content.
    Multiple { files: Vec<File> },
}

/// One file of several.
#[derive(Debug, Clone, PartialEq, Eq)]
pub struct File {
    /// The length of the file in bytes.
    pub length: usize,
    /// The directories that lead to the file, and then its name.
    pub path: Vec<String>,
}

/// The model of a [`File`].
pub struct FileModel {
    pub length: nat,
    pub path: Seq<Seq<char>>,
}

/// The model of [`Files`].
pub enum FilesModel {
    Single { length: nat },
    Multiple { files: Seq<FileModel> },
}

/// The model of an [`Info`].
pub struct InfoModel {
    pub name: Seq<char>,
    pub piece_length: nat,
    pub pieces: Seq<Seq<u8>>,
    pub files: FilesModel,
}

/// The model of a [`Torrent`].
pub struct TorrentModel {
    pub announce: Seq<char>,
    pub info: InfoModel,
}

/// The texts of a run of strings.
pub open spec fn texts(strings: Seq<String>) -> Seq<Seq<char>> {
    Seq::new(strings.len(), |i: int| strings[i]@)
}

/// The models of a run of files.
pub open spec fn file_models(files: Seq<File>) -> Seq<FileModel> {
    Seq::new(files.len(), |i: int| files[i]@)
}

impl View for File {
    type V = FileModel;

    open spec fn view(&self) -> FileModel {
        FileModel { length: self.length as nat, path: texts(self.path@) }
    }
}

impl View for Files {
    type V = FilesModel;

    open spec fn view(&self) -> FilesModel {
        match self {
            Files::Single { length } => FilesModel::Single { length: *length as nat },
            Files::Multiple { files } => FilesModel::Multiple { files: file_models(files@) },
        }
    }
}

impl View for Info {
    type V = InfoModel;

    open spec fn view(&self) -> InfoModel {
        InfoModel {
            name: self.name@,
            piece_length: self.piece_length as nat,
            pieces: self.pieces@,
            files: self.files@,
        }
    }
}

impl View for Torrent {
    type V = TorrentModel;

    open spec fn view(&self) -> TorrentModel {
        TorrentModel { announce: self.announce@, info: self.info@ }
    }
}

/// The text that a field holds: its bytes read as UTF-8. A field that is
/// absent, no byte string or no UTF-8 holds none.
pub open spec fn text_of(value: Option<Bencode>) -> Option<Seq<char>> {
    match value {
        Some(Bencode::Bytes(bytes)) => if valid_utf8(bytes) {
            Some(decode_utf8(bytes))
        } else {
            None
        },
        _ => None,
    }
}

/// The size that a field holds: an integer that is not negative and that
/// the machine can count to. Any other field holds none.
pub open spec fn size_of(value: Option<Bencode>) -> Option<nat> {
    match value {
        Some(Bencode::Integer(i)) => if 0 <= i <= usize::MAX {
            Some(i as nat)
        } else {
            None
        },
        _ => None,
    }
}

/// The path that a field holds: a list of texts.
pub open spec fn path_of(value: Option<Bencode>) -> Option<Seq<Seq<char>>> {
    match value {
        Some(Bencode::List(items)) => if forall|i: int|
            0 <= i < items.len() ==> text_of(Some(#[trigger] items[i])) is Some {
            Some(Seq::new(items.len(), |i: int| text_of(Some(items[i]))->0))
        } else {
            None
        },
        _ => None,
    }
}

/// The file that a dictionary describes by its `length` and its `path`.
pub open spec fn file_of(value: Bencode) -> Option<FileModel> {
    match (size_of(field(value, KEY_LENGTH@)), path_of(field(value, KEY_PATH@))) {
        (Some(length), Some(path)) => Some(FileModel { length, path }),
        _ => None,
    }
}

/// The layout that an info dictionary describes: one file if it has a
/// `length`, else the files of its `files` list.
pub open spec fn files_of(value: Bencode) -> Option<FilesModel> {
    match size_of(field(value, KEY_LENGTH@)) {
        Some(length) => Some(FilesModel::Single { length }),
        None => match field(value, KEY_FILES@) {
            Some(Bencode::List(items)) => if forall|i: int|
                0 <= i < items.len() ==> file_of(#[trigger] items[i]) is Some {
                Some(
                    FilesModel::Multiple {
                        files: Seq::new(items.len(), |i: int| file_of(items[i])->0),
                    },
                )
            } else {
                None
            },
            _ => None,
        },
    }
}

/// What an info dictionary describes.
///
/// It must have a `name`, a `piece length` above zero, `pieces` and a
/// layout; without one of them a field is missing. `pieces` that are not
/// made of whole digests are malformed.
pub open spec fn info_of(value: Bencode) -> Result<InfoModel, Error> {
    match text_of(field(value, KEY_NAME@)) {
        None => Err(Error::MissingField),
        Some(name) => match size_of(field(value, KEY_PIECE_LENGTH@)) {
            None => Err(Error::MissingField),
            Some(piece_length) => if piece_length == 0 {
                Err(Error::MissingField)
            } else {
                match field(value, KEY_PIECES@) {
                    Some(Bencode::Bytes(blob)) => match hashes_of(blob) {
                        Err(e) => Err(e),
                        Ok(pieces) => match files_of(value) {
                            None => Err(Error::MissingField),
                            Some(files) => Ok(InfoModel { name, piece_length, pieces, files }),
                        },
                    },
                    _ => Err(Error::MissingField),
                }
            },
        },
    }
}

/// What a descriptor says: its `announce` address and its `info`.
pub open spec fn torrent_of(value: Bencode) -> Result<TorrentModel, Error> {
    match text_of(field(value, KEY_ANNOUNCE@)) {
        None => Err(Error::MissingField),
        Some(announce) => match field(value, KEY_INFO@) {
            None => Err(Error::MissingField),
            Some(dictionary) => match info_of(dictionary) {
                Err(e) => Err(e),
                Ok(info) => Ok(TorrentModel { announce, info }),
            },
        },
    }
}

/// What the bytes of a descriptor say: they must decode, and the value
/// must be a descriptor.
pub open spec fn torrent_in(bytes: Seq<u8>) -> Result<TorrentModel, Error> {
    match decoded(bytes) {
        Err(e) => Err(e),
        Ok((value, _)) => torrent_of(value),
    }
}

/// Reads the text of the field `key`.
fn text_at(dictionary: &BencodeValue, key: &[u8]) -> (text: Option<String>)
    requires
        dictionary@.wf(),
    ensures
        match text_of(field(dictionary@, key@)) {
            Some(t) => text matches Some(s) && s@ == t,
            None => text is None,
        },
{
    match find(dictionary, key) {
        Some(value) => as_text(value),
        None => None,
    }
}

/// Reads a value as text.
fn as_text(value: &BencodeValue) -> (text: Option<String>)
    ensures
        match text_of(Some(value@)) {
            Some(t) => text matches Some(s) && s@ == t,
            None => text is None,
        },
{
    match value {
        BencodeValue::Bytes(bytes) => {
            let copy: Vec<u8> = copy_range(bytes.as_slice(), 0, bytes.len());
            assert(copy@ =~= bytes@);
            text_from_utf8(copy)
        },
        _ => None,
    }
}

/// Reads the size of the field `key`.
fn size_at(dictionary: &BencodeValue, key: &[u8]) -> (size: Option<usize>)
    requires
        dictionary@.wf(),
    ensures
        match size_of(field(dictionary@, key@)) {
            Some(n) => size matches Some(s) && s == n,
            None => size is None,
        },
{
    match find(dictionary, key) {
        Some(BencodeValue::Integer(i)) => {
            if *i >= 0 && *i as u64 <= usize::MAX as u64 {
                Some(*i as usize)
            } else {
                None
            }
        },
        _ => None,
    }
}

/// Reads the path of the field `key`.
fn path_at(dictionary: &BencodeValue, key: &[u8]) -> (path: Option<Vec<String>>)
    requires
        dictionary@.wf(),
    ensures
        match path_of(field(dictionary@, key@)) {
            Some(p) => path matches Some(v) && texts(v@) == p,
            None => path is None,
        },
{
    match find(dictionary, key) {
        Some(BencodeValue::List(items)) => {
            let ghost shown = items_view(items@);
            proof {
                lemma_list_view(*items);
            }
            let mut path: Vec<String> = Vec::with_capacity(items.len());
            let mut i: usize = 0;
            while i < items.len()
                invariant
                    i <= items@.len(),
                    shown == items_view(items@),
                    field(dictionary@, key@) == Some(Bencode::List(shown)),
                    path@.len() == i,
                    forall|k: int| 0 <= k < i ==> text_of(Some(#[trigger] shown[k])) is Some,
                    forall|k: int|
                        0 <= k < i ==> (#[trigger] path@[k])@ == text_of(Some(shown[k]))->0,
                decreases items@.len() - i,
            {
                match as_text(&items[i]) {
                    None => {
                        assert(text_of(Some(shown[i as int])) is None);
                        return None;
                    },
                    Some(segment) => {
                        path.push(segment);
                    },
                }
                i = i + 1;
            }
            assert(texts(path@) =~= path_of(Some(Bencode::List(shown)))->0);
            Some(path)
        },
        _ => None,
    }
}

impl File {
    /// Reads one entry of a `files` list.
    pub fn from_bencode(value: &BencodeValue) -> (file: Option<File>)
        requires
            value@.wf(),
        ensures
            match file_of(value@) {
                Some(f) => file matches Some(g) && g@ == f,
                None => file is None,
            },
    {
        let length: usize = match size_at(value, &KEY_LENGTH) {
            Some(length) => length,
            None => {
                return None;
            },
        };
        match path_at(value, &KEY_PATH) {
            Some(path) => Some(File { length, path }),
            None => None,
        }
    }
}

impl Files {
    /// Reads the layout out of an info dictionary.
    pub fn from_bencode(value: &BencodeValue) -> (layout: Option<Files>)
        requires
            value@.wf(),
        ensures
            match files_of(value@) {
                Some(f) => layout matches Some(g) && g@ == f,
                None => layout is None,
            },
    {
        match size_at(value, &KEY_LENGTH) {
            Some(length) => {
                return Some(Files::Single { length });
            },
            None => {},
        }
        match find(value, &KEY_FILES) {
            Some(BencodeValue::List(items)) => {
                let ghost shown = items_view(items@);
                proof {
                    lemma_list_view(*items);
                }
                let mut files: Vec<File> = Vec::with_capacity(items.len());
                let mut i: usize = 0;
                while i < items.len()
                    invariant
                        i <= items@.len(),
                        shown == items_view(items@),
                        Bencode::List(shown).wf(),
                        size_of(field(value@, KEY_LENGTH@)) is None,
                        field(value@, KEY_FILES@) == Some(Bencode::List(shown)),
                        files@.len() == i,
                        forall|k: int| 0 <= k < i ==> file_of(#[trigger] shown[k]) is Some,
                        forall|k: int| 0 <= k < i ==> (#[trigger] files@[k])@ == file_of(shown[k])->0,
                    decreases items@.len() - i,
                {
                    assert(shown[i as int].wf());
                    match File::from_bencode(&items[i]) {
                        None => {
                            assert(file_of(shown[i as int]) is None);
                            return None;
                        },
                        Some(file) => {
                            files.push(file);
                        },
                    }
                    i = i + 1;
                }
                assert(file_models(files@) =~= files_of(value@)->0->files);
                Some(Files::Multiple { files })
            },
            _ => None,
        }
    }

    /// How many bytes the content has: the length of the one file, or of
    /// all the files together.
    pub fn length(&self) -> (total: usize)
        requires
            total_length(self@) <= usize::MAX,
        ensures
            total == total_length(self@),
    {
        match self {
            Files::Single { length } => *length,
            Files::Multiple { files } => {
                let ghost shown = file_models(files@);
                let mut total: usize = 0;
                let mut i: usize = 0;
                while i < files.len()
                    invariant
                        i <= files@.len(),
                        shown == file_models(files@),
                        lengths_sum(shown, shown.len()) <= usize::MAX,
                        total == lengths_sum(shown, i as nat),
                    decreases files@.len() - i,
                {
                    proof {
                        lemma_lengths_sum_grows(shown, (i + 1) as nat, shown.len());
                    }
                    total = total + files[i].length;
                    i = i + 1;
                }
                total
            },
        }
    }

    /// How many bytes the content has, if the machine can count that far.
    pub fn checked_length(&self) -> (total: Option<usize>)
        ensures
            match total {
                Some(n) => n == total_length(self@),
                None => total_length(self@) > usize::MAX,
            },
    {
        match self {
            Files::Single { length } => Some(*length),
            Files::Multiple { files } => {
                let ghost shown = file_models(files@);
                let mut total: usize = 0;
                let mut i: usize = 0;
                while i < files.len()
                    invariant
                        i <= files@.len(),
                        shown == file_models(files@),
                        total_length(self@) == lengths_sum(shown, shown.len()),
                        total == lengths_sum(shown, i as nat),
                    decreases files@.len() - i,
                {
                    proof {
                        lemma_lengths_sum_grows(shown, (i + 1) as nat, shown.len());
                        assert(shown[i as int].length == files@[i as int].length);
                    }
                    if files[i].length > usize::MAX - total {
                        return None;
                    }
                    total = total + files[i].length;
                    i = i + 1;
                }
                Some(total)
            },
        }
    }
}

/// The lengths of the first `n` files, added up.
pub open spec fn lengths_sum(files: Seq<FileModel>, n: nat) -> nat
    decreases n,
{
    if n == 0 || n > files.len() {
        0
    } else {
        lengths_sum(files, (n - 1) as nat) + files[n - 1].length
    }
}

/// The length of the content: that of the single file, or the sum of the
/// lengths of the files.
pub open spec fn total_length(files: FilesModel) -> nat {
    match files {
        FilesModel::Single { length } => length,
        FilesModel::Multiple { files } => lengths_sum(files, files.len()),
    }
}

/// More files are not shorter than fewer.
pub proof fn lemma_lengths_sum_grows(files: Seq<FileModel>, k: nat, n: nat)
    requires
        k <= n <= files.len(),
    ensures
        lengths_sum(files, k) <= lengths_sum(files, n),
    decreases n,
{
    if k < n {
        lemma_lengths_sum_grows(files, k, (n - 1) as nat);
    }
}

/// How many bytes the piece `index` has: a piece length, but for the last
/// piece, which has what is left of the content. There is no such piece
/// where `index` has no digest or starts behind the end of the content, nor
/// where the machine cannot count to the length of the content.
pub open spec fn piece_span(info: InfoModel, index: nat) -> Option<nat> {
    let total = total_length(info.files);
    let start = index * info.piece_length;
    if index < info.pieces.len() && start <= total && total <= usize::MAX {
        if total - start < info.piece_length {
            Some((total - start) as nat)
        } else {
            Some(info.piece_length)
        }
    } else {
        None
    }
}

impl Info {
    /// How many bytes to ask for to get the piece `index`, if there is such
    /// a piece and a request can name its size.
    pub fn piece_size(&self, index: u32) -> (size: Option<u32>)
        ensures
            match piece_span(self@, index as nat) {
                Some(n) => if n <= u32::MAX {
                    size == Some(n as u32)
                } else {
                    size is None
                },
                None => size is None,
            },
    {
        if index as usize >= self.pieces.0.len() {
            return None;
        }
        let total: usize = match self.files.checked_length() {
            Some(total) => total,
            None => {
                return None;
            },
        };
        assert(index as nat * self.piece_length as nat <= 0xffff_ffff * 0xffff_ffff_ffff_ffff)
            by (nonlinear_arith)
            requires
                index <= 0xffff_ffff,
                self.piece_length <= 0xffff_ffff_ffff_ffff,
        ;
        let start: u128 = index as u128 * self.piece_length as u128;
        if start > total as u128 {
            return None;
        }
        let left: u128 = total as u128 - start;
        let size: u128 = if left < self.piece_length as u128 {
            left
        } else {
            self.piece_length as u128
        };
        if size > u32::MAX as u128 {
            None
        } else {
            Some(size as u32)
        }
    }

    /// Reads an info dictionary.
    pub fn from_bencode(value: &BencodeValue) -> (outcome: Result<Info, Error>)
        requires
            value@.wf(),
        ensures
            match info_of(value@) {
                Ok(info) => outcome matches Ok(i) && i@ == info,
                Err(e) => outcome matches Err(f) && f == e,
            },
    {
        let name: String = match text_at(value, &KEY_NAME) {
            Some(name) => name,
            None => {
                return Err(Error::MissingField);
            },
        };
        let piece_length: usize = match size_at(value, &KEY_PIECE_LENGTH) {
            Some(piece_length) => piece_length,
            None => {
                return Err(Error::MissingField);
            },
        };
        if piece_length == 0 {
            return Err(Error::MissingField);
        }
        let pieces: Hashes = match find(value, &KEY_PIECES) {
            Some(BencodeValue::Bytes(blob)) => match Hashes::from_bytes(blob.as_slice()) {
                Ok(pieces) => pieces,
                Err(e) => {
                    return Err(e);
                },
            },
            _ => {
                return Err(Error::MissingField);
            },
        };
        match Files::from_bencode(value) {
            Some(files) => Ok(Info { name, piece_length, pieces, files }),
            None => Err(Error::MissingField),
        }
    }
}

impl Torrent {
    /// Reads a descriptor out of a decoded value.
    pub fn from_bencode(value: &BencodeValue) -> (outcome: Result<Torrent, Error>)
        requires
            value@.wf(),
        ensures
            match torrent_of(value@) {
                Ok(torrent) => outcome matches Ok(t) && t@ == torrent,
                Err(e) => outcome matches Err(f) && f == e,
            },
    {
        let announce: String = match text_at(value, &KEY_ANNOUNCE) {
            Some(announce) => announce,
            None => {
                return Err(Error::MissingField);
            },
        };
        match find(value, &KEY_INFO) {
            None => Err(Error::MissingField),
            Some(dictionary) => match Info::from_bencode(dictionary) {
                Ok(info) => Ok(Torrent { announce, info }),
                Err(e) => Err(e),
            },
        }
    }

    /// Reads a descriptor out of the bytes of a `.torrent` file.
    pub fn from_bytes(bytes: &[u8]) -> (outcome: Result<Torrent, Error>)
        ensures
            match torrent_in(bytes@) {
                Ok(torrent) => outcome matches Ok(t) && t@ == torrent,
                Err(e) => outcome matches Err(f) && f == e,
            },
    {
        match decode(bytes) {
            Ok(value) => Torrent::from_bencode(&value),
            Err(e) => Err(e),
        }
    }
}

} // verus!
