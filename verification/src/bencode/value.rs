//! The bencode value tree and its mathematical model.

use vstd::prelude::*;

verus! {

/// A bencode value.
///
/// A dictionary keeps its entries in the order in which their keys were first
/// seen. It is a mapping: in a well-formed value no key occurs twice.
#[derive(Debug, PartialEq, Eq)]
pub enum BencodeValue {
    /// A byte string; it need not be text.
    Bytes(Vec<u8>),
    Integer(i64),
    List(Vec<BencodeValue>),
    Dictionary(Vec<(Vec<u8>, BencodeValue)>),
}

/// The mathematical model of a bencode value.
pub enum Bencode {
    Bytes(Seq<u8>),
    Integer(int),
    List(Seq<Bencode>),
    Dictionary(Seq<(Seq<u8>, Bencode)>),
}

/// Whether `key` is the key of one of `entries`.
pub open spec fn has_key<V>(entries: Seq<(Seq<u8>, V)>, key: Seq<u8>) -> bool {
    exists|i: int| 0 <= i < entries.len() && (#[trigger] entries[i]).0 == key
}

/// Whether no two of `entries` have the same key.
pub open spec fn distinct_keys<V>(entries: Seq<(Seq<u8>, V)>) -> bool {
    forall|i: int, j: int|
        0 <= i < j < entries.len() ==> (#[trigger] entries[i]).0 != (#[trigger] entries[j]).0
}

impl Bencode {
    /// A value is well formed if its integers fit in 64 bits and its
    /// dictionaries are mappings, all the way down.
    pub open spec fn wf(self) -> bool
        decreases self,
    {
        match self {
            Bencode::Bytes(_) => true,
            Bencode::Integer(i) => i64::MIN <= i <= i64::MAX,
            Bencode::List(items) => forall|i: int|
                0 <= i < items.len() ==> (#[trigger] items[i]).wf(),
            Bencode::Dictionary(entries) => {
                &&& distinct_keys(entries)
                &&& forall|i: int| 0 <= i < entries.len() ==> (#[trigger] entries[i]).1.wf()
            },
        }
    }
}

/// The model of `value`.
pub open spec fn model(value: &BencodeValue) -> Bencode
    decreases value, 0nat,
{
    match value {
        BencodeValue::Bytes(bytes) => Bencode::Bytes(bytes@),
        BencodeValue::Integer(i) => Bencode::Integer(*i as int),
        BencodeValue::List(items) => Bencode::List(items_model(items, items.len() as nat)),
        BencodeValue::Dictionary(entries) => Bencode::Dictionary(
            entries_model(entries, entries.len() as nat),
        ),
    }
}

/// The models of the first `n` of `items`.
pub open spec fn items_model(items: &Vec<BencodeValue>, n: nat) -> Seq<Bencode>
    decreases items, n,
{
    if n == 0 || n > items.len() {
        Seq::empty()
    } else {
        items_model(items, (n - 1) as nat).push(model(&items[n - 1]))
    }
}

/// The models of the first `n` of `entries`.
pub open spec fn entries_model(entries: &Vec<(Vec<u8>, BencodeValue)>, n: nat) -> Seq<
    (Seq<u8>, Bencode),
>
    decreases entries, n,
{
    if n == 0 || n > entries.len() {
        Seq::empty()
    } else {
        entries_model(entries, (n - 1) as nat).push((entries[n - 1].0@, model(&entries[n - 1].1)))
    }
}

impl View for BencodeValue {
    type V = Bencode;

    open spec fn view(&self) -> Bencode {
        model(self)
    }
}

impl Clone for BencodeValue {
    /// A copy with the same model.
    fn clone(&self) -> (copy: Self)
        ensures
            copy@ == self@,
        decreases self,
    {
        match self {
            BencodeValue::Bytes(bytes) => BencodeValue::Bytes(bytes.clone()),
            BencodeValue::Integer(i) => BencodeValue::Integer(*i),
            BencodeValue::List(items) => {
                let mut copies: Vec<BencodeValue> = Vec::with_capacity(items.len());
                let mut i: usize = 0;
                while i < items.len()
                    invariant
                        i <= items@.len(),
                        self == BencodeValue::List(*items),
                        copies@.len() == i,
                        forall|k: int| 0 <= k < i ==> (#[trigger] copies@[k])@ == items@[k]@,
                    decreases items@.len() - i,
                {
                    proof {
                        assert(self->List_0 == *items);
                        assert(decreases_to!(self => self->List_0));
                        assert(decreases_to!(self->List_0 => self->List_0[i as int]));
                    }
                    copies.push(items[i].clone());
                    i = i + 1;
                }
                proof {
                    lemma_list_view(*items);
                    lemma_list_view(copies);
                    assert(items_view(copies@) =~= items_view(items@));
                }
                BencodeValue::List(copies)
            },
            BencodeValue::Dictionary(entries) => {
                let mut copies: Vec<(Vec<u8>, BencodeValue)> = Vec::with_capacity(entries.len());
                let mut i: usize = 0;
                while i < entries.len()
                    invariant
                        i <= entries@.len(),
                        self == BencodeValue::Dictionary(*entries),
                        copies@.len() == i,
                        forall|k: int|
                            0 <= k < i ==> (#[trigger] copies@[k]).0@ == entries@[k].0@
                                && copies@[k].1@ == entries@[k].1@,
                    decreases entries@.len() - i,
                {
                    proof {
                        assert(self->Dictionary_0 == *entries);
                        assert(decreases_to!(self => self->Dictionary_0));
                        assert(decreases_to!(self->Dictionary_0 => self->Dictionary_0[i as int]));
                        assert(decreases_to!(self->Dictionary_0[i as int] => self->Dictionary_0[i as int].1));
                    }
                    copies.push((entries[i].0.clone(), entries[i].1.clone()));
                    i = i + 1;
                }
                proof {
                    lemma_dictionary_view(*entries);
                    lemma_dictionary_view(copies);
                    assert(entries_view(copies@) =~= entries_view(entries@));
                }
                BencodeValue::Dictionary(copies)
            },
        }
    }
}

/// The model of a run of values.
pub open spec fn items_view(items: Seq<BencodeValue>) -> Seq<Bencode> {
    Seq::new(items.len(), |i: int| items[i]@)
}

/// The model of a run of dictionary entries.
pub open spec fn entries_view(entries: Seq<(Vec<u8>, BencodeValue)>) -> Seq<(Seq<u8>, Bencode)> {
    Seq::new(entries.len(), |i: int| (entries[i].0@, entries[i].1@))
}

/// The first `n` items of a list have their models in the same places.
pub proof fn lemma_items_model(items: &Vec<BencodeValue>, n: nat)
    requires
        n <= items.len(),
    ensures
        items_model(items, n) == items_view(items@.subrange(0, n as int)),
    decreases n,
{
    if n > 0 {
        lemma_items_model(items, (n - 1) as nat);
        assert(items_model(items, n) =~= items_view(items@.subrange(0, n as int)));
    } else {
        assert(items_model(items, n) =~= items_view(items@.subrange(0, n as int)));
    }
}

/// The first `n` entries of a dictionary have their models in the same
/// places.
pub proof fn lemma_entries_model(entries: &Vec<(Vec<u8>, BencodeValue)>, n: nat)
    requires
        n <= entries.len(),
    ensures
        entries_model(entries, n) == entries_view(entries@.subrange(0, n as int)),
    decreases n,
{
    if n > 0 {
        lemma_entries_model(entries, (n - 1) as nat);
        assert(entries_model(entries, n) =~= entries_view(entries@.subrange(0, n as int)));
    } else {
        assert(entries_model(entries, n) =~= entries_view(entries@.subrange(0, n as int)));
    }
}

/// The model of a list is the list of its items' models.
pub proof fn lemma_list_view(items: Vec<BencodeValue>)
    ensures
        BencodeValue::List(items)@ == Bencode::List(items_view(items@)),
{
    lemma_items_model(&items, items.len() as nat);
    assert(items@.subrange(0, items.len() as int) =~= items@);
}

/// The model of a dictionary is the list of its entries' models.
pub proof fn lemma_dictionary_view(entries: Vec<(Vec<u8>, BencodeValue)>)
    ensures
        BencodeValue::Dictionary(entries)@ == Bencode::Dictionary(entries_view(entries@)),
{
    lemma_entries_model(&entries, entries.len() as nat);
    assert(entries@.subrange(0, entries.len() as int) =~= entries@);
}

} // verus!
