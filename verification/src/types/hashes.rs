//! The piece hashes of a descriptor.

use crate::error::Error;
use vstd::prelude::*;

verus! {

/// How many bytes a SHA-1 digest has.
pub const HASH_LEN: usize = 20;

/// The SHA-1 digests of a torrent's pieces, in the order of the pieces.
///
/// On the wire they are one byte string: the digests one after another.
#[derive(Debug, Clone, PartialEq, Eq)]
pub struct Hashes(pub Vec<[u8; 20]>);

/// The digests that a `pieces` string holds: its `i`-th run of 20 bytes is
/// the digest of piece `i`. A string that is not made of whole digests holds
/// none.
pub open spec fn hashes_of(blob: Seq<u8>) -> Result<Seq<Seq<u8>>, Error> {
    if blob.len() % 20 == 0 {
        Ok(Seq::new(blob.len() / 20, |i: int| blob.subrange(20 * i, 20 * i + 20)))
    } else {
        Err(Error::MalformedEncoding)
    }
}

/// The byte string that spells `hashes`: all of them, end to end.
pub open spec fn hashes_blob(hashes: Seq<Seq<u8>>) -> Seq<u8>
    decreases hashes.len(),
{
    if hashes.len() == 0 {
        Seq::empty()
    } else {
        hashes_blob(hashes.drop_last()) + hashes.last()
    }
}

/// A string of `20 * n` bytes holds `n` digests of 20 bytes each, in the
/// order of the string; a string with `k` bytes more, `0 < k < 20`, holds
/// none.
pub proof fn lemma_hashes_count(blob: Seq<u8>, n: nat, k: nat)
    requires
        blob.len() == 20 * n + k,
        k < 20,
    ensures
        k == 0 ==> hashes_of(blob) is Ok && hashes_of(blob)->Ok_0.len() == n,
        k == 0 ==> forall|i: int|
            0 <= i < n ==> (#[trigger] hashes_of(blob)->Ok_0[i]).len() == 20 && hashes_of(
                blob,
            )->Ok_0[i] == blob.subrange(20 * i, 20 * i + 20),
        k > 0 ==> hashes_of(blob) == Err::<Seq<Seq<u8>>, Error>(Error::MalformedEncoding),
{
}

/// The digests of a string, written end to end, are the string again.
pub proof fn lemma_hashes_blob(blob: Seq<u8>)
    requires
        blob.len() % 20 == 0,
    ensures
        hashes_blob(hashes_of(blob)->Ok_0) == blob,
{
    let hashes = hashes_of(blob)->Ok_0;
    lemma_hashes_blob_upto(blob, hashes.len());
    assert(hashes.subrange(0, hashes.len() as int) =~= hashes);
    assert(blob.subrange(0, blob.len() as int) =~= blob);
}

/// The first `n` digests of a string, written end to end, are its first
/// `20 * n` bytes.
proof fn lemma_hashes_blob_upto(blob: Seq<u8>, n: nat)
    requires
        blob.len() % 20 == 0,
        20 * n <= blob.len(),
    ensures
        hashes_blob(hashes_of(blob)->Ok_0.subrange(0, n as int)) == blob.subrange(0, 20 * n as int),
    decreases n,
{
    let hashes = hashes_of(blob)->Ok_0;
    let upto = hashes.subrange(0, n as int);
    if n == 0 {
        assert(hashes_blob(upto) =~= blob.subrange(0, 0));
    } else {
        lemma_hashes_blob_upto(blob, (n - 1) as nat);
        assert(upto.drop_last() =~= hashes.subrange(0, n - 1));
        assert(upto.last() == blob.subrange(20 * (n - 1), 20 * (n - 1) + 20));
        assert(hashes_blob(upto) =~= blob.subrange(0, 20 * n as int));
    }
}

impl View for Hashes {
    type V = Seq<Seq<u8>>;

    open spec fn view(&self) -> Seq<Seq<u8>> {
        Seq::new(self.0@.len(), |i: int| self.0@[i]@)
    }
}

impl Hashes {
    /// Splits a `pieces` string into digests. A string of `20 * n` bytes
    /// gives `n` digests in order; any other length is refused.
    pub fn from_bytes(blob: &[u8]) -> (outcome: Result<Hashes, Error>)
        ensures
            match hashes_of(blob@) {
                Ok(hashes) => outcome matches Ok(h) && h@ == hashes,
                Err(e) => outcome matches Err(f) && f == e,
            },
            outcome is Ok <==> blob@.len() % 20 == 0,
            outcome matches Ok(h) ==> h@.len() * 20 == blob@.len(),
    {
        if blob.len() % HASH_LEN != 0 {
            return Err(Error::MalformedEncoding);
        }
        let count: usize = blob.len() / HASH_LEN;
        let mut hashes: Vec<[u8; 20]> = Vec::with_capacity(count);
        let mut i: usize = 0;
        while i < count
            invariant
                i <= count,
                count * 20 == blob@.len(),
                blob@.len() <= usize::MAX,
                hashes@.len() == i,
                forall|k: int|
                    0 <= k < i ==> (#[trigger] hashes@[k])@ == blob@.subrange(20 * k, 20 * k + 20),
            decreases count - i,
        {
            let mut hash: [u8; 20] = [0u8; 20];
            let mut j: usize = 0;
            while j < HASH_LEN
                invariant
                    j <= 20,
                    i < count,
                    count * 20 == blob@.len(),
                    blob@.len() <= usize::MAX,
                blob@.len() <= usize::MAX,
                    forall|k: int| 0 <= k < j ==> hash@[k] == blob@[20 * i + k],
                decreases 20 - j,
            {
                hash[j] = blob[i * HASH_LEN + j];
                j = j + 1;
            }
            assert(hash@ =~= blob@.subrange(20 * i, 20 * i + 20));
            hashes.push(hash);
            i = i + 1;
        }
        let result = Hashes(hashes);
        assert(result@ =~= hashes_of(blob@)->Ok_0);
        Ok(result)
    }

    /// The `pieces` string of these digests.
    pub fn to_bytes(&self) -> (blob: Vec<u8>)
        ensures
            blob@ == hashes_blob(self@),
            blob@.len() == 20 * self@.len(),
    {
        let mut blob: Vec<u8> = Vec::new();
        let mut i: usize = 0;
        while i < self.0.len()
            invariant
                i <= self.0@.len(),
                blob@ == hashes_blob(self@.subrange(0, i as int)),
                blob@.len() == 20 * i,
            decreases self.0@.len() - i,
        {
            let ghost before = blob@;
            let mut j: usize = 0;
            while j < HASH_LEN
                invariant
                    j <= 20,
                    i < self.0@.len(),
                    blob@ == before + self.0@[i as int]@.subrange(0, j as int),
                decreases 20 - j,
            {
                blob.push(self.0[i][j]);
                j = j + 1;
                assert(blob@ =~= before + self.0@[i as int]@.subrange(0, j as int));
            }
            assert(self.0@[i as int]@.subrange(0, 20) =~= self.0@[i as int]@);
            i = i + 1;
            assert(self@.subrange(0, i as int).drop_last() =~= self@.subrange(0, i - 1));
            assert(self@.subrange(0, i as int).last() == self.0@[i - 1]@);
        }
        assert(self@.subrange(0, i as int) =~= self@);
        blob
    }
}

} // verus!
