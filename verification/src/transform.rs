//! The repeated-key XOR transform: each data byte is XOR-ed with the key byte
//! at the same position, the key repeating as often as the data needs.

use vstd::prelude::*;

verus! {

/// Why a transform could not be carried out.
#[derive(Clone, Copy, Debug, PartialEq, Eq, Structural)]
pub enum XorError {
    /// The key holds no bytes, so there is nothing to repeat.
    InvalidKey,
}

/// The transform of `data` when its first byte stands at position `start` of
/// the stream: byte `i` meets key byte `(start + i) mod key.len()`.
pub open spec fn xor_from(data: Seq<u8>, key: Seq<u8>, start: nat) -> Seq<u8>
    recommends
        key.len() > 0,
{
    Seq::new(data.len(), |i: int| data[i] ^ key[(start + i) % (key.len() as int)])
}

/// The transform of a whole stream: `out[i] = data[i] ^ key[i mod key.len()]`.
pub open spec fn xor_bytes(data: Seq<u8>, key: Seq<u8>) -> Seq<u8>
    recommends
        key.len() > 0,
{
    xor_from(data, key, 0)
}

/// How a position in the key moves on by one byte when the key repeats.
proof fn lemma_next_key_index(pos: nat, len: nat)
    requires
        len > 0,
    ensures
        (pos + 1) % len == if pos % len + 1 == len { 0 } else { pos % len + 1 },
        pos < len ==> pos % len == pos,
{
    let q = pos as int / len as int;
    let r = pos as int % len as int;
    vstd::arithmetic::div_mod::lemma_fundamental_div_mod(pos as int, len as int);
    vstd::arithmetic::div_mod::lemma_mod_pos_bound(pos as int, len as int);
    if r + 1 == len {
        assert(pos + 1 == (q + 1) * len + 0) by (nonlinear_arith)
            requires
                pos == len * q + r,
                r + 1 == len,
        ;
        vstd::arithmetic::div_mod::lemma_fundamental_div_mod_converse(
            pos as int + 1,
            len as int,
            q + 1,
            0,
        );
    } else {
        assert(pos + 1 == q * len + (r + 1)) by (nonlinear_arith)
            requires
                pos == len * q + r,
        ;
        vstd::arithmetic::div_mod::lemma_fundamental_div_mod_converse(
            pos as int + 1,
            len as int,
            q,
            r + 1,
        );
    }
    if pos < len {
        vstd::arithmetic::div_mod::lemma_small_mod(pos, len);
    }
}

/// A transform in progress. It remembers where in the key the stream stands,
/// so a long input can be fed chunk by chunk with bounded working memory.
pub struct XorStream {
    key: Vec<u8>,
    at: Progress,
}

/// Where a stream stands in its key.
struct Progress {
    /// Index of the key byte that meets the next data byte.
    key_idx: usize,
    /// Whether the whole key has been used once.
    wrapped: bool,
    /// Whether some key byte has met a second data byte.
    reused: bool,
    /// How many data bytes have gone through.
    consumed: Ghost<nat>,
}

impl XorStream {
    #[verifier::type_invariant]
    spec fn well_formed(&self) -> bool {
        &&& self.key@.len() > 0
        &&& self.at.key_idx as nat == self.at.consumed@ % self.key@.len()
        &&& self.at.wrapped == (self.at.consumed@ >= self.key@.len())
        &&& self.at.reused == (self.at.consumed@ > self.key@.len())
    }

    /// The key of this stream; never empty.
    pub closed spec fn key(&self) -> Seq<u8> {
        self.key@
    }

    /// How many data bytes the stream has transformed so far.
    pub closed spec fn consumed(&self) -> nat {
        self.at.consumed@
    }

    /// Starts a transform under `key_bytes`. An empty key is refused.
    pub fn new(key_bytes: &[u8]) -> (r: Result<XorStream, XorError>)
        ensures
            key_bytes@.len() == 0 ==> r == Err::<XorStream, XorError>(XorError::InvalidKey),
            key_bytes@.len() > 0 ==> r is Ok,
            r matches Ok(stream) ==> stream.key() == key_bytes@ && stream.consumed() == 0,
    {
        if key_bytes.len() == 0 {
            return Err(XorError::InvalidKey);
        }
        let key = vstd::slice::slice_to_vec(key_bytes);
        proof {
            lemma_next_key_index(0, key@.len());
        }
        let at = Progress { key_idx: 0, wrapped: false, reused: false, consumed: Ghost(0) };
        Ok(XorStream { key, at })
    }

    /// Transforms the next `chunk` of the stream and appends the result to `out`.
    pub fn update(&mut self, chunk: &[u8], out: &mut Vec<u8>)
        ensures
            final(self).key() == old(self).key(),
            final(self).consumed() == old(self).consumed() + chunk@.len(),
            final(out)@ == old(out)@ + xor_from(chunk@, old(self).key(), old(self).consumed()),
    {
        proof {
            use_type_invariant(&*self);
        }
        let ghost start = self.at.consumed@;
        let ghost before = out@;
        let key_len = self.key.len();
        let mut key_idx = self.at.key_idx;
        let mut wrapped = self.at.wrapped;
        let mut reused = self.at.reused;
        let mut i: usize = 0;
        while i < chunk.len()
            invariant
                i <= chunk@.len(),
                key_len == self.key@.len(),
                key_len > 0,
                key_idx as nat == (start + i) % (key_len as int),
                wrapped == (start + i >= key_len),
                reused == (start + i > key_len),
                out@.len() == before.len() + i,
                out@ == before + xor_from(chunk@, self.key@, start).take(i as int),
            decreases chunk@.len() - i,
        {
            if wrapped {
                reused = true;
            }
            let e = chunk[i] ^ self.key[key_idx];
            out.push(e);
            proof {
                lemma_next_key_index((start + i) as nat, key_len as nat);
                let whole = xor_from(chunk@, self.key@, start);
                assert(whole.take(i + 1) == whole.take(i as int).push(whole[i as int]));
            }
            key_idx += 1;
            if key_idx >= key_len {
                key_idx = 0;
                wrapped = true;
            }
            i += 1;
        }
        proof {
            let whole = xor_from(chunk@, self.key@, start);
            assert(whole.take(i as int) == whole);
        }
        self.at = Progress {
            key_idx,
            wrapped,
            reused,
            consumed: Ghost((start + chunk@.len()) as nat),
        };
    }

    /// Whether the stream has outgrown its key, so that the key had to start
    /// over on fresh data. Once true it stays true.
    pub fn key_reused(&self) -> (reused: bool)
        ensures
            reused == (self.consumed() > self.key().len()),
    {
        proof {
            use_type_invariant(self);
        }
        self.at.reused
    }
}

/// Encrypts or decrypts `data` under the repeating key `key_bytes`; the same
/// call does both. An empty key is refused.
pub fn xor(data: &[u8], key_bytes: &[u8]) -> (r: Result<Vec<u8>, XorError>)
    ensures
        key_bytes@.len() == 0 ==> r == Err::<Vec<u8>, XorError>(XorError::InvalidKey),
        key_bytes@.len() > 0 ==> r is Ok,
        r matches Ok(out) ==> out@ == xor_bytes(data@, key_bytes@) && out@.len() == data@.len(),
{
    match XorStream::new(key_bytes) {
        Err(e) => Err(e),
        Ok(mut stream) => {
            let mut out: Vec<u8> = Vec::new();
            stream.update(data, &mut out);
            Ok(out)
        },
    }
}

/// Like [`xor`], and tells besides whether the key was shorter than the data
/// and so had to be used again: a key that is reused is weak, and a caller
/// may want to warn of it.
pub fn xor_noting_reuse(data: &[u8], key_bytes: &[u8]) -> (r: Result<(Vec<u8>, bool), XorError>)
    ensures
        key_bytes@.len() == 0 ==> r == Err::<(Vec<u8>, bool), XorError>(XorError::InvalidKey),
        key_bytes@.len() > 0 ==> r is Ok,
        r matches Ok((out, reused)) ==> out@ == xor_bytes(data@, key_bytes@) && out@.len()
            == data@.len() && reused == (data@.len() > key_bytes@.len()),
{
    match XorStream::new(key_bytes) {
        Err(e) => Err(e),
        Ok(mut stream) => {
            let mut out: Vec<u8> = Vec::new();
            stream.update(data, &mut out);
            let reused = stream.key_reused();
            Ok((out, reused))
        },
    }
}

/// The transform undoes itself: applied twice under the same key, at the same
/// place in the stream, it gives the input back.
pub proof fn lemma_xor_round_trip(data: Seq<u8>, key: Seq<u8>)
    requires
        key.len() > 0,
    ensures
        xor_bytes(xor_bytes(data, key), key) == data,
        forall|start: nat| #[trigger] xor_from(xor_from(data, key, start), key, start) == data,
{
    assert forall|start: nat| #[trigger] xor_from(xor_from(data, key, start), key, start)
        == data by {
        let once = xor_from(data, key, start);
        let twice = xor_from(once, key, start);
        assert forall|i: int| 0 <= i < data.len() implies twice[i] == data[i] by {
            let d = data[i];
            let k = key[(start + i) % (key.len() as int)];
            assert((d ^ k) ^ k == d) by (bit_vector);
        }
        assert(twice =~= data);
    }
}

/// Feeding a stream in two pieces gives the same bytes as feeding it whole:
/// the second piece takes up the key where the first one left it.
pub proof fn lemma_xor_in_pieces(head: Seq<u8>, tail: Seq<u8>, key: Seq<u8>, start: nat)
    requires
        key.len() > 0,
    ensures
        xor_from(head + tail, key, start) == xor_from(head, key, start) + xor_from(
            tail,
            key,
            start + head.len(),
        ),
{
    let whole = xor_from(head + tail, key, start);
    let pieces = xor_from(head, key, start) + xor_from(tail, key, start + head.len());
    assert forall|i: int| 0 <= i < whole.len() implies whole[i] == pieces[i] by {
        if i >= head.len() {
            assert(start + head.len() + (i - head.len()) == start + i);
        }
    }
    assert(whole =~= pieces);
}

/// Byte sequences that can be put through the transform.
pub trait Xor {
    /// The bytes that the transform reads.
    spec fn source(&self) -> Seq<u8>;

    /// Creates an XOR-encrypted copy of the data under the given key.
    fn xor(&self, key_bytes: &[u8]) -> (r: Result<Vec<u8>, XorError>)
        ensures
            key_bytes@.len() == 0 ==> r == Err::<Vec<u8>, XorError>(XorError::InvalidKey),
            key_bytes@.len() > 0 ==> r is Ok,
            r matches Ok(out) ==> out@ == xor_bytes(self.source(), key_bytes@) && out@.len()
                == self.source().len(),
    ;
}

impl Xor for [u8] {
    open spec fn source(&self) -> Seq<u8> {
        self@
    }

    fn xor(&self, key_bytes: &[u8]) -> (r: Result<Vec<u8>, XorError>) {
        self::xor(self, key_bytes)
    }
}

impl Xor for Vec<u8> {
    open spec fn source(&self) -> Seq<u8> {
        self@
    }

    fn xor(&self, key_bytes: &[u8]) -> (r: Result<Vec<u8>, XorError>) {
        self::xor(self.as_slice(), key_bytes)
    }
}

} // verus!
