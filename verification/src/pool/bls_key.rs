use vstd::prelude::*;
use crate::user_data::copy_bytes;
use crate::codec::DecodeError;

verus! {

/// Length of a BLS key in bytes.
pub const BLS_KEY_BYTE_LENGTH: usize = 96;

/// Length of a BLS signature in bytes.
pub const BLS_SIGNATURE_BYTE_LENGTH: usize = 32;

/// A BLS public key of a validator node: always 96 bytes.
pub struct BLSKey {
    bytes: Vec<u8>,
}

impl View for BLSKey {
    type V = Seq<u8>;

    closed spec fn view(&self) -> Seq<u8> {
        self.bytes@
    }
}

impl BLSKey {
    #[verifier::type_invariant]
    closed spec fn inv(&self) -> bool {
        self.bytes@.len() == BLS_KEY_BYTE_LENGTH
    }

    /// The 96 bytes of the key.
    pub fn to_vec(&self) -> (r: Vec<u8>)
        ensures
            r@ == self.view(),
            r@.len() == BLS_KEY_BYTE_LENGTH,
    {
        proof {
            use_type_invariant(self);
        }
        copy_bytes(&self.bytes)
    }

    /// The key with bytes `bytes`, which must be 96 of them.
    pub fn from_bytes(bytes: &Vec<u8>) -> (r: Result<BLSKey, &'static str>)
        ensures
            bytes@.len() == BLS_KEY_BYTE_LENGTH <==> r is Ok,
            r matches Ok(k) ==> k.view() == bytes@,
            r matches Err(e) ==> e@ == "bad BLS key length"@,
    {
        if bytes.len() != BLS_KEY_BYTE_LENGTH {
            return Err("bad BLS key length");
        }
        Ok(BLSKey { bytes: copy_bytes(bytes) })
    }

    /// A copy of the key.
    pub fn duplicate(&self) -> (r: BLSKey)
        ensures
            r.view() == self.view(),
    {
        proof {
            use_type_invariant(self);
        }
        BLSKey { bytes: copy_bytes(&self.bytes) }
    }

    /// Whether two keys have the same bytes.
    pub fn same_key(&self, other: &BLSKey) -> (r: bool)
        ensures
            r == (self.view() == other.view()),
    {
        crate::user_data::bytes_eq(&self.bytes, &other.bytes)
    }
}

/// The elements of `first` and `second` taken in turn: `first[0], second[0], first[1], ...`.
pub open spec fn zipped(first: Seq<Vec<u8>>, second: Seq<Vec<u8>>) -> Seq<Vec<u8>> {
    Seq::new(2 * first.len(), |i: int| if i % 2 == 0 {
        first[i / 2]
    } else {
        second[i / 2]
    })
}

/// Moves the elements of `v` into a new vector in reverse order.
fn reversed(v: Vec<Vec<u8>>) -> (r: Vec<Vec<u8>>)
    ensures
        r@.len() == v@.len(),
        forall|j: int| 0 <= j < v@.len() ==> #[trigger] r@[j] == v@[v@.len() - 1 - j],
{
    let mut v = v;
    let ghost v0 = v@;
    let mut r: Vec<Vec<u8>> = Vec::new();
    while v.len() > 0
        invariant
            v@ == v0.take(v@.len() as int),
            v@.len() <= v0.len(),
            r@.len() == v0.len() - v@.len(),
            forall|j: int| 0 <= j < r@.len() ==> #[trigger] r@[j] == v0[v0.len() - 1 - j],
        decreases v@.len(),
    {
        let ghost k = v@.len() - 1;
        let x = v.pop().unwrap();
        r.push(x);
        proof {
            assert(x == v0[k]);
            assert(v@ =~= v0.take(v@.len() as int));
        }
    }
    r
}

/// Combines two vectors of the same length into one, alternating their elements.
pub fn zip_vectors(first_vec: Vec<Vec<u8>>, second_vec: Vec<Vec<u8>>) -> (r: Vec<Vec<u8>>)
    requires
        first_vec@.len() == second_vec@.len(),
    ensures
        r@ == zipped(first_vec@, second_vec@),
{
    let ghost f0 = first_vec@;
    let ghost s0 = second_vec@;
    let ghost len = f0.len();
    let mut rf = reversed(first_vec);
    let mut rs = reversed(second_vec);
    let mut r: Vec<Vec<u8>> = Vec::new();
    let ghost mut k: int = 0;
    while rf.len() > 0
        invariant
            f0.len() == s0.len(),
            len == f0.len(),
            0 <= k <= len,
            rf@.len() == len - k,
            rs@.len() == len - k,
            forall|j: int| 0 <= j < rf@.len() ==> #[trigger] rf@[j] == f0[len - 1 - j],
            forall|j: int| 0 <= j < rs@.len() ==> #[trigger] rs@[j] == s0[len - 1 - j],
            r@.len() == 2 * k,
            forall|j: int| 0 <= j < r@.len() ==> #[trigger] r@[j] == zipped(f0, s0)[j],
        decreases rf@.len(),
    {
        let ghost old_r = r@;
        let a = rf.pop().unwrap();
        let b = rs.pop().unwrap();
        r.push(a);
        r.push(b);
        proof {
            assert(a == f0[k]);
            assert(b == s0[k]);
            assert forall|j: int| 0 <= j < r@.len() implies #[trigger] r@[j] == zipped(f0, s0)[j] by {
                if j < old_r.len() {
                    assert(r@[j] == old_r[j]);
                } else if j == 2 * k {
                    assert(j % 2 == 0 && j / 2 == k);
                } else {
                    assert(j == 2 * k + 1);
                    assert(j % 2 == 1 && j / 2 == k);
                }
            }
            k = k + 1;
        }
    }
    assert(r@ =~= zipped(f0, s0));
    r
}

/// The bytes of a list of keys: their 96 bytes one after the other.
pub open spec fn keys_bytes(keys: Seq<Seq<u8>>) -> Seq<u8>
    decreases keys.len(),
{
    if keys.len() == 0 {
        Seq::empty()
    } else {
        keys_bytes(keys.drop_last()) + keys.last()
    }
}

/// The `j`-th block of 96 bytes of `input`.
pub open spec fn key_chunk(input: Seq<u8>, j: int) -> Seq<u8> {
    input.subrange(j * 96, j * 96 + 96)
}

/// Keys of 96 bytes each give 96 bytes each, and each can be read back from its block.
pub proof fn lemma_keys_bytes(keys: Seq<Seq<u8>>)
    requires
        forall|j: int| 0 <= j < keys.len() ==> (#[trigger] keys[j]).len() == BLS_KEY_BYTE_LENGTH,
    ensures
        keys_bytes(keys).len() == keys.len() * 96,
        forall|j: int| 0 <= j < keys.len() ==> #[trigger] key_chunk(keys_bytes(keys), j) == keys[j],
    decreases keys.len(),
{
    if keys.len() > 0 {
        let init = keys.drop_last();
        lemma_keys_bytes(init);
        let b = keys_bytes(keys);
        assert(b == keys_bytes(init) + keys.last());
        assert forall|j: int| 0 <= j < keys.len() implies #[trigger] key_chunk(b, j) == keys[j] by {
            if j < init.len() {
                assert(key_chunk(keys_bytes(init), j) == init[j]);
                assert(key_chunk(b, j) =~= key_chunk(keys_bytes(init), j));
            } else {
                assert(j == init.len());
                assert(key_chunk(b, j) =~= keys.last());
            }
        }
    }
}

impl BLSKey {
    /// Appends the 96 bytes of the key.
    pub fn dep_encode_to(&self, dest: &mut Vec<u8>)
        ensures
            final(dest)@ == old(dest)@ + self.view(),
    {
        proof {
            use_type_invariant(self);
        }
        let mut i: usize = 0;
        while i < self.bytes.len()
            invariant
                i <= self.bytes@.len(),
                dest@ == old(dest)@ + self.bytes@.subrange(0, i as int),
            decreases self.bytes@.len() - i,
        {
            dest.push(self.bytes[i]);
            i = i + 1;
            assert(dest@ =~= old(dest)@ + self.bytes@.subrange(0, i as int));
        }
        assert(self.bytes@.subrange(0, i as int) =~= self.bytes@);
    }

    /// Reads a key at `pos`: the 96 bytes there.
    pub fn dep_decode(input: &Vec<u8>, pos: usize) -> (r: Result<(BLSKey, usize), DecodeError>)
        requires
            pos <= input@.len(),
        ensures
            pos + 96 <= input@.len() ==> (r matches Ok((k, p)) && k.view() == input@.subrange(pos as int, pos + 96) && p == pos + 96),
            pos + 96 > input@.len() ==> r == Err::<(BLSKey, usize), DecodeError>(DecodeError::InputTooShort),
    {
        if input.len() - pos < BLS_KEY_BYTE_LENGTH {
            return Err(DecodeError::InputTooShort);
        }
        let n = input.len();
        let mut bytes: Vec<u8> = Vec::new();
        let mut i: usize = 0;
        while i < BLS_KEY_BYTE_LENGTH
            invariant
                i <= 96,
                n == input@.len(),
                pos + 96 <= input@.len(),
                bytes@ == input@.subrange(pos as int, pos + i),
            decreases 96 - i,
        {
            bytes.push(input[pos + i]);
            i = i + 1;
            assert(bytes@ =~= input@.subrange(pos as int, pos + i));
        }
        Ok((BLSKey { bytes }, pos + BLS_KEY_BYTE_LENGTH))
    }
}

/// The bytes of a list of keys.
pub fn top_encode_keys(keys: &Vec<BLSKey>) -> (r: Vec<u8>)
    ensures
        r@ == keys_bytes(keys@.map_values(|k: BLSKey| k.view())),
{
    let ghost ks = keys@.map_values(|k: BLSKey| k.view());
    let mut out: Vec<u8> = Vec::new();
    let mut i: usize = 0;
    while i < keys.len()
        invariant
            i <= keys@.len(),
            ks == keys@.map_values(|k: BLSKey| k.view()),
            out@ == keys_bytes(ks.subrange(0, i as int)),
        decreases keys@.len() - i,
    {
        keys[i].dep_encode_to(&mut out);
        proof {
            let sub = ks.subrange(0, i + 1);
            assert(sub.drop_last() =~= ks.subrange(0, i as int));
        }
        i = i + 1;
    }
    assert(ks.subrange(0, i as int) =~= ks);
    out
}

/// Reads a list of keys: the input must be made of whole blocks of 96 bytes.
pub fn top_decode_keys(input: &Vec<u8>) -> (r: Result<Vec<BLSKey>, DecodeError>)
    ensures
        input@.len() % 96 == 0 ==> (r matches Ok(ks) && ks@.len() == input@.len() / 96 && forall|j: int|
            0 <= j < ks@.len() ==> (#[trigger] ks@[j]).view() == key_chunk(input@, j)),
        input@.len() % 96 != 0 ==> r == Err::<Vec<BLSKey>, DecodeError>(DecodeError::InputTooShort),
{
    let mut keys: Vec<BLSKey> = Vec::new();
    let mut pos: usize = 0;
    while pos < input.len()
        invariant
            pos <= input@.len(),
            pos == keys@.len() * 96,
            forall|j: int| 0 <= j < keys@.len() ==> (#[trigger] keys@[j]).view() == key_chunk(input@, j),
        decreases input@.len() - pos,
    {
        match BLSKey::dep_decode(input, pos) {
            Ok((k, p)) => {
                keys.push(k);
                pos = p;
            },
            Err(e) => {
                proof {
                    assert(input@.len() % 96 != 0) by (nonlinear_arith)
                        requires
                            pos == keys@.len() * 96,
                            pos < input@.len() < pos + 96,
                    ;
                }
                return Err(e);
            },
        }
    }
    proof {
        assert(input@.len() % 96 == 0 && input@.len() / 96 == keys@.len()) by (nonlinear_arith)
            requires
                input@.len() == keys@.len() * 96,
        ;
    }
    Ok(keys)
}

/// What the bytes of a list of keys read back as is that list.
pub proof fn law_keys_roundtrip(keys: Seq<Seq<u8>>)
    requires
        forall|j: int| 0 <= j < keys.len() ==> (#[trigger] keys[j]).len() == BLS_KEY_BYTE_LENGTH,
    ensures
        keys_bytes(keys).len() % 96 == 0,
        keys_bytes(keys).len() / 96 == keys.len(),
        forall|j: int| 0 <= j < keys.len() ==> #[trigger] key_chunk(keys_bytes(keys), j) == keys[j],
{
    lemma_keys_bytes(keys);
    let n = keys.len() as int;
    assert((n * 96) % 96 == 0 && (n * 96) / 96 == n) by (nonlinear_arith);
}

} // verus!
