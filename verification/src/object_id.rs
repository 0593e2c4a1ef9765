//! Identifiers of stored objects and their text form.
use vstd::prelude::*;
use vstd::string::StringExecFns;

verus! {

/// The SHA-256 digest of a byte sequence: the 32 bytes that
/// `sha2::Sha256::digest` returns for it.
pub uninterp spec fn sha256(data: Seq<u8>) -> Seq<u8>;

/// The key under which an object is stored: the digest of its bytes.
#[derive(Clone, Copy, Debug, Hash)]
pub struct ObjectId {
    digest: [u8; 32],
}

impl View for ObjectId {
    type V = Seq<u8>;

    /// The digest, byte by byte.
    closed spec fn view(&self) -> Seq<u8> {
        self.digest@
    }
}

impl PartialEq for ObjectId {
    fn eq(&self, other: &ObjectId) -> (r: bool) {
        let mut i: usize = 0;
        while i < 32
            invariant
                i <= 32,
                forall|j: int| 0 <= j < i ==> self.digest@[j] == other.digest@[j],
            decreases 32 - i,
        {
            if self.digest[i] != other.digest[i] {
                return false;
            }
            i += 1;
        }
        proof {
            assert(self.digest@ =~= other.digest@);
            assert(self.digest =~= other.digest);
        }
        true
    }
}

impl Eq for ObjectId {

}

impl vstd::std_specs::cmp::PartialEqSpecImpl for ObjectId {
    open spec fn obeys_eq_spec() -> bool {
        true
    }

    open spec fn eq_spec(&self, other: &ObjectId) -> bool {
        *self == *other
    }
}

/// The sixteen digits of the text form, by value.
pub open spec fn hex_digits() -> Seq<char> {
    seq!['0', '1', '2', '3', '4', '5', '6', '7', '8', '9', 'a', 'b', 'c', 'd', 'e', 'f']
}

/// The digit at position `i` of the text form of `bytes`: the high half of a
/// byte comes before its low half.
pub open spec fn hex_digit_at(bytes: Seq<u8>, i: int) -> char {
    if i % 2 == 0 {
        hex_digits()[bytes[i / 2] as int / 16]
    } else {
        hex_digits()[bytes[i / 2] as int % 16]
    }
}

/// Lower-case hexadecimal text of `bytes`, two digits per byte.
pub open spec fn hex_of(bytes: Seq<u8>) -> Seq<char> {
    Seq::new(2 * bytes.len(), |i: int| hex_digit_at(bytes, i))
}

/// The text form has two digits for each byte, and nothing but the sixteen
/// digits in it: no character that a path could not hold.
pub proof fn lemma_hex_of(bytes: Seq<u8>)
    ensures
        hex_of(bytes).len() == 2 * bytes.len(),
        forall|i: int|
            0 <= i < hex_of(bytes).len() ==> hex_digits().contains(#[trigger] hex_of(bytes)[i]),
{
    assert forall|i: int| 0 <= i < hex_of(bytes).len() implies hex_digits().contains(
        #[trigger] hex_of(bytes)[i],
    ) by {
        let b = bytes[i / 2] as int;
        let n = if i % 2 == 0 {
            b / 16
        } else {
            b % 16
        };
        assert(0 <= n < 16);
        assert(hex_digits()[n] == hex_of(bytes)[i]);
    }
}

/// Calls `sha2::Sha256::digest` (the one-shot function of the `Digest` trait,
/// here for `Sha256`) and copies the 32 bytes that it returns into an array.
/// The contract gives that result its name, [`sha256`], and claims no more:
/// the same bytes have the same digest.
#[verifier::external_body]
fn sha256_digest(data: &[u8]) -> (out: [u8; 32])
    ensures
        out@ == sha256(data@),
{
    <sha2::Sha256 as sha2::Digest>::digest(data).into()
}

/// The identifier of an object: computed from its bytes and from nothing else.
pub fn identifier_of(data: &[u8]) -> (id: ObjectId)
    ensures
        id@ == sha256(data@),
        id@.len() == 32,
{
    ObjectId { digest: sha256_digest(data) }
}

/// Equal bytes have equal identifiers.
pub proof fn lemma_identifier_deterministic(a: ObjectId, b: ObjectId, x: Seq<u8>, y: Seq<u8>)
    requires
        a@ == sha256(x),
        b@ == sha256(y),
        x == y,
    ensures
        a == b,
{
    ObjectId::lemma_equal_by_view(a, b);
}

/// One digit as text.
fn digit_text(n: u8) -> (r: &'static str)
    requires
        n < 16,
    ensures
        r@ == seq![hex_digits()[n as int]],
{
    proof {
        reveal_strlit("0");
        reveal_strlit("1");
        reveal_strlit("2");
        reveal_strlit("3");
        reveal_strlit("4");
        reveal_strlit("5");
        reveal_strlit("6");
        reveal_strlit("7");
        reveal_strlit("8");
        reveal_strlit("9");
        reveal_strlit("a");
        reveal_strlit("b");
        reveal_strlit("c");
        reveal_strlit("d");
        reveal_strlit("e");
        reveal_strlit("f");
    }
    let r = match n {
        0 => "0",
        1 => "1",
        2 => "2",
        3 => "3",
        4 => "4",
        5 => "5",
        6 => "6",
        7 => "7",
        8 => "8",
        9 => "9",
        10 => "a",
        11 => "b",
        12 => "c",
        13 => "d",
        14 => "e",
        _ => "f",
    };
    assert(r@ =~= seq![hex_digits()[n as int]]);
    r
}

impl<'a> From<&'a [u8]> for ObjectId {
    fn from(data: &'a [u8]) -> (id: ObjectId) {
        let id = identifier_of(data);
        proof {
            ObjectId::lemma_equal_by_view(id, ObjectId::of(data@));
        }
        id
    }
}

impl<'a> vstd::std_specs::convert::FromSpecImpl<&'a [u8]> for ObjectId {
    open spec fn obeys_from_spec() -> bool {
        true
    }

    open spec fn from_spec(data: &'a [u8]) -> ObjectId {
        ObjectId::of(data@)
    }
}

impl ObjectId {
    /// The identifier whose digest is the SHA-256 digest of `data`.
    pub closed spec fn of(data: Seq<u8>) -> ObjectId {
        choose|id: ObjectId| id@ == sha256(data)
    }

    /// An identifier with the digest of `data` is the identifier of `data`.
    pub proof fn lemma_of(data: Seq<u8>, id: ObjectId)
        requires
            id@ == sha256(data),
        ensures
            ObjectId::of(data) == id,
    {
        ObjectId::lemma_equal_by_view(ObjectId::of(data), id);
    }

    /// An identifier is its digest: two with the same bytes are the same.
    pub proof fn lemma_equal_by_view(a: ObjectId, b: ObjectId)
        ensures
            a@.len() == 32,
            a@ == b@ <==> a == b,
    {
        if a@ == b@ {
            assert(a.digest@ =~= b.digest@);
            assert(a.digest =~= b.digest);
        }
    }

    /// The identifier with the given digest.
    pub fn from_digest(digest: [u8; 32]) -> (id: ObjectId)
        ensures
            id@ == digest@,
    {
        ObjectId { digest }
    }

    /// The digest.
    pub fn digest(&self) -> (digest: [u8; 32])
        ensures
            digest@ == self@,
    {
        self.digest
    }

    /// Text of the bytes from `from` up to `to`.
    fn hex_range(&self, from: usize, to: usize) -> (text: String)
        requires
            from <= to <= 32,
        ensures
            text@ == hex_of(self@).subrange(2 * from, 2 * to),
    {
        let mut text = String::new();
        let mut i: usize = from;
        while i < to
            invariant
                from <= i <= to <= 32,
                text@ == hex_of(self@).subrange(2 * from, 2 * i),
            decreases to - i,
        {
            let b: u8 = self.digest[i];
            text.append(digit_text(b / 16));
            text.append(digit_text(b % 16));
            proof {
                let all = hex_of(self@);
                assert(all[2 * i] == hex_digits()[b as int / 16]);
                assert(all[2 * i + 1] == hex_digits()[b as int % 16]);
                assert(text@ =~= all.subrange(2 * from, 2 * (i + 1)));
            }
            i += 1;
        }
        text
    }

    /// The canonical text form: 64 lower-case hexadecimal digits.
    pub fn to_hex(&self) -> (text: String)
        ensures
            text@ == hex_of(self@),
            text@.len() == 64,
    {
        let text = self.hex_range(0, 32);
        proof {
            assert(hex_of(self@).subrange(0, 64) =~= hex_of(self@));
        }
        text
    }

    /// The first two digits of the text form: the name of the shard that
    /// holds the object.
    pub fn shard(&self) -> (text: String)
        ensures
            text@ == hex_of(self@).subrange(0, 2),
            text@.len() == 2,
    {
        self.hex_range(0, 1)
    }

    /// The text form without its first two digits: the object's name within
    /// its shard.
    pub fn leaf(&self) -> (text: String)
        ensures
            text@ == hex_of(self@).subrange(2, 64),
            text@.len() == 62,
    {
        self.hex_range(1, 32)
    }
}

} // verus!
