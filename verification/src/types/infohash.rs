//! The info hash: the SHA-1 digest of the canonical encoding of what a
//! torrent shares.

use crate::bencode::encode::encoded;
use crate::bencode::encode::encoded_bytes;
use crate::bencode::encode::encoded_entries;
use crate::bencode::encode::encoded_items;
use crate::bencode::encode::push_bytes;
use crate::bencode::grammar::DICT_START;
use crate::bencode::grammar::END;
use crate::bencode::grammar::INT_START;
use crate::bencode::grammar::LIST_START;
use crate::bencode::order::bytes_le;
use crate::bencode::order::keys_of;
use crate::bencode::order::lemma_bytes_le_at;
use crate::bencode::order::lemma_sort_order_of_sorted;
use crate::bencode::order::sort_order;
use crate::bencode::value::Bencode;
use crate::decimal::push_decimal;
use crate::hash::sha1_digest;
use crate::hash::sha1_of;
use crate::types::descriptor::texts;
use crate::types::descriptor::File;
use crate::types::descriptor::FileModel;
use crate::types::descriptor::Files;
use crate::types::descriptor::FilesModel;
use crate::types::descriptor::Info;
use crate::types::descriptor::InfoModel;
use crate::types::hashes::hashes_blob;
use crate::types::keys::KEY_FILES;
use crate::types::keys::KEY_LENGTH;
use crate::types::keys::KEY_NAME;
use crate::types::keys::KEY_PATH;
use crate::types::keys::KEY_PIECES;
use crate::types::keys::KEY_PIECE_LENGTH;
use vstd::prelude::*;
use vstd::utf8::encode_utf8;

verus! {

/// A path as a bencode list: each segment as the bytes of its text.
pub open spec fn path_bencode(path: Seq<Seq<char>>) -> Bencode {
    Bencode::List(Seq::new(path.len(), |i: int| Bencode::Bytes(encode_utf8(path[i]))))
}

/// A file as the bencode dictionary that describes it.
pub open spec fn file_bencode(file: FileModel) -> Bencode {
    Bencode::Dictionary(
        seq![
            (KEY_LENGTH@, Bencode::Integer(file.length as int)),
            (KEY_PATH@, path_bencode(file.path)),
        ],
    )
}

/// The entry that says how the content is laid out: `length` for one file,
/// `files` for several.
pub open spec fn layout_entry(files: FilesModel) -> (Seq<u8>, Bencode) {
    match files {
        FilesModel::Single { length } => (KEY_LENGTH@, Bencode::Integer(length as int)),
        FilesModel::Multiple { files } => (
            KEY_FILES@,
            Bencode::List(Seq::new(files.len(), |i: int| file_bencode(files[i]))),
        ),
    }
}

/// An info as the bencode dictionary that describes it: its layout,
/// `name`, `piece length` and `pieces`, and nothing else.
pub open spec fn info_bencode(info: InfoModel) -> Bencode {
    Bencode::Dictionary(
        seq![
            layout_entry(info.files),
            (KEY_NAME@, Bencode::Bytes(encode_utf8(info.name))),
            (KEY_PIECE_LENGTH@, Bencode::Integer(info.piece_length as int)),
            (KEY_PIECES@, Bencode::Bytes(hashes_blob(info.pieces))),
        ],
    )
}

/// The info hash of `info`: the SHA-1 digest of its canonical encoding.
///
/// It is a function of the info alone: neither the announce address nor
/// the bytes that the info was read from have a part in it.
pub open spec fn info_hash(info: InfoModel) -> Seq<u8> {
    sha1_digest(encoded(info_bencode(info)))
}

/// The info hash is the same every time: infos that are the same value
/// have the same info hash, however they came about.
pub proof fn lemma_info_hash_deterministic(first: Info, second: Info)
    requires
        first@ == second@,
    ensures
        info_hash(first@) == info_hash(second@),
{
}

/// Entries whose keys ascend as they stand are written as they stand.
pub proof fn lemma_encoded_in_order(entries: Seq<(Seq<u8>, Bencode)>)
    requires
        forall|a: int, b: int|
            0 <= a < b < entries.len() ==> bytes_le(
                (#[trigger] entries[a]).0,
                (#[trigger] entries[b]).0,
            ),
    ensures
        encoded(Bencode::Dictionary(entries)) == seq![DICT_START] + written(entries, entries.len())
            + seq![END],
{
    let keys = keys_of(entries);
    assert forall|a: int, b: int| 0 <= a < b < keys.len() implies bytes_le(
        #[trigger] keys[a],
        #[trigger] keys[b],
    ) by {
        assert(bytes_le(entries[a].0, entries[b].0));
    }
    lemma_sort_order_of_sorted(keys);
    lemma_written(entries, sort_order(keys), entries.len());
}

/// The first `n` entries, each as its key and its value are written, in
/// the order in which they stand.
pub open spec fn written(entries: Seq<(Seq<u8>, Bencode)>, n: nat) -> Seq<u8>
    decreases n,
{
    if n == 0 || n > entries.len() {
        Seq::empty()
    } else {
        written(entries, (n - 1) as nat) + encoded_bytes(entries[n - 1].0) + encoded(
            entries[n - 1].1,
        )
    }
}

/// Written in the order of their places, entries are written as they stand.
proof fn lemma_written(entries: Seq<(Seq<u8>, Bencode)>, order: Seq<int>, n: nat)
    requires
        n <= entries.len(),
        order == Seq::new(entries.len(), |i: int| i),
    ensures
        encoded_entries(entries, order, n) == written(entries, n),
    decreases n,
{
    if n > 0 {
        lemma_written(entries, order, (n - 1) as nat);
        assert(order[n - 1] == n - 1);
        assert(encoded_entries(entries, order, n) =~= written(entries, n));
    }
}

/// Appends a size as a bencode integer.
fn push_size(out: &mut Vec<u8>, size: usize)
    ensures
        final(out)@ == old(out)@ + encoded(Bencode::Integer(size as int)),
{
    out.push(INT_START);
    push_decimal(out, size as u64);
    out.push(END);
    assert(out@ =~= old(out)@ + encoded(Bencode::Integer(size as int)));
}

/// Appends a text as a bencode byte string.
fn push_text(out: &mut Vec<u8>, text: &str)
    ensures
        final(out)@ == old(out)@ + encoded(Bencode::Bytes(encode_utf8(text@))),
{
    push_bytes(out, text.as_bytes());
}

/// Appends a digest list as one bencode byte string.
fn push_pieces(out: &mut Vec<u8>, blob: &Vec<u8>)
    ensures
        final(out)@ == old(out)@ + encoded(Bencode::Bytes(blob@)),
{
    push_bytes(out, blob.as_slice());
}

/// Appends a path as a bencode list.
fn push_path(out: &mut Vec<u8>, path: &Vec<String>)
    ensures
        final(out)@ == old(out)@ + encoded(path_bencode(texts(path@))),
{
    let ghost items = path_bencode(texts(path@))->List_0;
    out.push(LIST_START);
    let mut i: usize = 0;
    while i < path.len()
        invariant
            i <= path@.len(),
            items == path_bencode(texts(path@))->List_0,
            out@ == old(out)@ + seq![LIST_START] + encoded_items(items, i as nat),
        decreases path@.len() - i,
    {
        push_text(out, path[i].as_str());
        i = i + 1;
        proof {
            assert(items[i - 1] == Bencode::Bytes(encode_utf8(path@[i - 1]@)));
            assert(out@ =~= old(out)@ + seq![LIST_START] + encoded_items(items, i as nat));
        }
    }
    out.push(END);
    assert(out@ =~= old(out)@ + encoded(path_bencode(texts(path@))));
}

/// The keys of a descriptor that stand side by side come in this order.
proof fn lemma_key_order()
    ensures
        bytes_le(KEY_LENGTH@, KEY_PATH@),
        bytes_le(KEY_FILES@, KEY_NAME@),
        bytes_le(KEY_FILES@, KEY_PIECE_LENGTH@),
        bytes_le(KEY_FILES@, KEY_PIECES@),
        bytes_le(KEY_LENGTH@, KEY_NAME@),
        bytes_le(KEY_LENGTH@, KEY_PIECE_LENGTH@),
        bytes_le(KEY_LENGTH@, KEY_PIECES@),
        bytes_le(KEY_NAME@, KEY_PIECE_LENGTH@),
        bytes_le(KEY_NAME@, KEY_PIECES@),
        bytes_le(KEY_PIECE_LENGTH@, KEY_PIECES@),
{
    lemma_bytes_le_at(KEY_LENGTH@, KEY_PATH@, 0);
    lemma_bytes_le_at(KEY_FILES@, KEY_NAME@, 0);
    lemma_bytes_le_at(KEY_FILES@, KEY_PIECE_LENGTH@, 0);
    lemma_bytes_le_at(KEY_FILES@, KEY_PIECES@, 0);
    lemma_bytes_le_at(KEY_LENGTH@, KEY_NAME@, 0);
    lemma_bytes_le_at(KEY_LENGTH@, KEY_PIECE_LENGTH@, 0);
    lemma_bytes_le_at(KEY_LENGTH@, KEY_PIECES@, 0);
    lemma_bytes_le_at(KEY_NAME@, KEY_PIECE_LENGTH@, 0);
    lemma_bytes_le_at(KEY_NAME@, KEY_PIECES@, 0);
    lemma_bytes_le_at(KEY_PIECE_LENGTH@, KEY_PIECES@, 5);
}

/// The four entries of an info dictionary, written in the order of their
/// keys, between `d` and `e`.
pub open spec fn info_written(info: InfoModel) -> Seq<u8> {
    seq![DICT_START] + encoded_bytes(layout_entry(info.files).0) + encoded(
        layout_entry(info.files).1,
    ) + encoded_bytes(KEY_NAME@) + encoded(Bencode::Bytes(encode_utf8(info.name)))
        + encoded_bytes(KEY_PIECE_LENGTH@) + encoded(Bencode::Integer(info.piece_length as int))
        + encoded_bytes(KEY_PIECES@) + encoded(Bencode::Bytes(hashes_blob(info.pieces))) + seq![
        END,
    ]
}

/// The keys of an info dictionary stand in their order, so it is written
/// as it stands.
pub proof fn lemma_info_encoded(info: InfoModel)
    ensures
        encoded(info_bencode(info)) == info_written(info),
{
    let entries = info_bencode(info)->Dictionary_0;
    lemma_key_order();
    assert(entries.len() == 4);
    assert(entries[0] == layout_entry(info.files));
    assert(entries[0].0 == KEY_LENGTH@ || entries[0].0 == KEY_FILES@);
    lemma_encoded_in_order(entries);
    let w0 = written(entries, 0);
    let w1 = written(entries, 1);
    let w2 = written(entries, 2);
    let w3 = written(entries, 3);
    let w4 = written(entries, 4);
    assert(w0 =~= Seq::<u8>::empty());
    assert(w1 == w0 + encoded_bytes(entries[0].0) + encoded(entries[0].1));
    assert(w2 == w1 + encoded_bytes(entries[1].0) + encoded(entries[1].1));
    assert(w3 == w2 + encoded_bytes(entries[2].0) + encoded(entries[2].1));
    assert(w4 == w3 + encoded_bytes(entries[3].0) + encoded(entries[3].1));
    assert(seq![DICT_START] + w4 + seq![END] =~= info_written(info));
}

impl File {
    /// Appends the canonical encoding of this file's dictionary.
    pub fn encode_into(&self, out: &mut Vec<u8>)
        ensures
            final(out)@ == old(out)@ + encoded(file_bencode(self@)),
    {
        let ghost entries = file_bencode(self@)->Dictionary_0;
        proof {
            lemma_key_order();
            lemma_encoded_in_order(entries);
            reveal_with_fuel(written, 3);
        }
        out.push(DICT_START);
        push_bytes(out, &KEY_LENGTH);
        push_size(out, self.length);
        push_bytes(out, &KEY_PATH);
        push_path(out, &self.path);
        out.push(END);
        assert(out@ =~= old(out)@ + encoded(file_bencode(self@)));
    }
}

impl Files {
    /// Appends the entry that says how the content is laid out, key and
    /// value.
    fn encode_entry(&self, out: &mut Vec<u8>)
        ensures
            final(out)@ == old(out)@ + encoded_bytes(layout_entry(self@).0) + encoded(
                layout_entry(self@).1,
            ),
    {
        match self {
            Files::Single { length } => {
                push_bytes(out, &KEY_LENGTH);
                push_size(out, *length);
            },
            Files::Multiple { files } => {
                let ghost items = layout_entry(self@).1->List_0;
                push_bytes(out, &KEY_FILES);
                let ghost start = out@;
                out.push(LIST_START);
                let mut i: usize = 0;
                while i < files.len()
                    invariant
                        i <= files@.len(),
                        self == (Files::Multiple { files: *files }),
                        items == layout_entry(self@).1->List_0,
                        out@ == start + seq![LIST_START] + encoded_items(items, i as nat),
                    decreases files@.len() - i,
                {
                    files[i].encode_into(out);
                    i = i + 1;
                    proof {
                        assert(items[i - 1] == file_bencode(files@[i - 1]@));
                        assert(out@ =~= start + seq![LIST_START] + encoded_items(items, i as nat));
                    }
                }
                out.push(END);
                assert(out@ =~= start + encoded(layout_entry(self@).1));
            },
        }
    }
}

impl Info {
    /// The canonical encoding of this info's dictionary: the bytes that the
    /// info hash is taken of.
    pub fn encode(&self) -> (out: Vec<u8>)
        ensures
            out@ == encoded(info_bencode(self@)),
    {
        let mut out: Vec<u8> = Vec::new();
        out.push(DICT_START);
        self.files.encode_entry(&mut out);
        push_bytes(&mut out, &KEY_NAME);
        push_text(&mut out, self.name.as_str());
        push_bytes(&mut out, &KEY_PIECE_LENGTH);
        push_size(&mut out, self.piece_length);
        push_bytes(&mut out, &KEY_PIECES);
        let blob: Vec<u8> = self.pieces.to_bytes();
        push_pieces(&mut out, &blob);
        out.push(END);
        proof {
            lemma_info_encoded(self@);
            assert(out@ =~= info_written(self@));
        }
        out
    }

    /// The info hash: the SHA-1 digest of [`Info::encode`].
    pub fn calculate_info_hash(&self) -> (hash: [u8; 20])
        ensures
            hash@ == info_hash(self@),
    {
        let bytes: Vec<u8> = self.encode();
        sha1_of(bytes.as_slice())
    }
}

} // verus!
