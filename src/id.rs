//! Fixed-width identifiers and the XOR metric on them.

use vstd::prelude::*;
use vstd::std_specs::bits::u8_leading_zeros;

verus! {

/// Number of bytes in an identifier.
pub const ID_BYTES: usize = 20;

/// Number of bits in an identifier.
pub const ID_BITS: usize = 160;

/// A 160-bit identifier of a peer, stored most significant byte first.
#[derive(Clone, Copy, Debug, Eq, Hash, PartialOrd, Ord)]
pub struct Id(pub [u8; 20]);

/// A decoding error of the hex crate.
#[verifier::external_type_specification]
#[verifier::external_body]
pub struct ExFromHexError(hex::FromHexError);

/// Relies on rand::random: a value drawn from the thread-local generator.
/// Nothing is known of the value.
pub assume_specification<T>[ rand::random::<T> ]() -> (r: T)
    where
        rand::distributions::Standard: rand::distributions::Distribution<T>,
;

/// The text of an identifier is malformed: not 40 hexadecimal digits.
#[derive(Debug, Clone, Copy, PartialEq, Eq, Structural)]
pub enum ParseIdError {
    Malformed,
}

/// The lowercase hexadecimal digits, by value.
pub open spec fn hex_digits() -> Seq<char> {
    seq!['0', '1', '2', '3', '4', '5', '6', '7', '8', '9', 'a', 'b', 'c', 'd', 'e', 'f']
}

/// Two lowercase hexadecimal digits per byte, the high half first.
pub open spec fn hex_of(b: Seq<u8>) -> Seq<char> {
    Seq::new(
        2 * b.len(),
        |i: int|
            if i % 2 == 0 {
                hex_digits()[(b[i / 2] / 16) as int]
            } else {
                hex_digits()[(b[i / 2] % 16) as int]
            },
    )
}

/// `c` is a hexadecimal digit, in either case.
pub open spec fn is_hex_digit(c: char) -> bool {
    let v = c as u32;
    (48 <= v <= 57) || (97 <= v <= 102) || (65 <= v <= 70)
}

/// The value of a hexadecimal digit.
pub open spec fn hex_value(c: char) -> int {
    let v = c as u32;
    if 48 <= v <= 57 {
        v - 48
    } else if 97 <= v <= 102 {
        v - 87
    } else {
        v - 55
    }
}

/// `s` is the text of an identifier: 40 hexadecimal digits.
pub open spec fn is_id_text(s: Seq<char>) -> bool {
    s.len() == 2 * ID_BYTES && forall|i: int| 0 <= i < s.len() ==> is_hex_digit(#[trigger] s[i])
}

/// The byte that digits `2k` and `2k + 1` of `s` spell.
pub open spec fn hex_byte(s: Seq<char>, k: int) -> int {
    16 * hex_value(s[2 * k]) + hex_value(s[2 * k + 1])
}

/// Relies on hex::decode_to_slice: it succeeds exactly on 40 hexadecimal
/// digits (either case) and then writes one byte per pair of digits.
#[verifier::external_body]
fn decode_hex(s: &str) -> (r: Result<[u8; 20], hex::FromHexError>)
    ensures
        r is Ok <==> is_id_text(s@),
        r matches Ok(b) ==> forall|k: int| 0 <= k < ID_BYTES ==> b@[k] as int == hex_byte(s@, k),
{
    let mut out = [0u8; 20];
    match hex::decode_to_slice(s, &mut out) {
        Ok(()) => Ok(out),
        Err(e) => Err(e),
    }
}

/// Relies on hex::encode: two lowercase digits per byte, the high half first.
#[verifier::external_body]
fn encode_hex(bytes: &[u8; 20]) -> (r: String)
    ensures
        r@ == hex_of(bytes@),
{
    hex::encode(bytes)
}

/// Byte-wise exclusive or of two byte strings of equal length.
pub open spec fn xor_bytes(a: Seq<u8>, b: Seq<u8>) -> Seq<u8> {
    Seq::new(a.len(), |i: int| a[i] ^ b[i])
}

/// Number of zero bits before the first set bit, reading the bytes most
/// significant first; the full width when every byte is zero.
pub open spec fn zero_prefix_bits(s: Seq<u8>) -> nat
    decreases s.len(),
{
    if s.len() == 0 {
        0
    } else if s[0] != 0 {
        u8_leading_zeros(s[0]) as nat
    } else {
        8 + zero_prefix_bits(s.drop_first())
    }
}

/// Byte-lexicographic order: `a` is smaller at the first byte where they differ.
pub open spec fn lex_lt(a: Seq<u8>, b: Seq<u8>) -> bool {
    exists|i: int|
        0 <= i < a.len() && i < b.len() && #[trigger] a[i] < b[i] && forall|j: int|
            0 <= j < i ==> a[j] == b[j]
}

impl Id {
    /// The identifier as a sequence of bytes.
    pub open spec fn bytes(self) -> Seq<u8> {
        self.0@
    }

    /// An identifier drawn at random.
    pub fn random() -> Id {
        Id(rand::random())
    }

    /// Parses 40 hexadecimal digits, in either case.
    pub fn from_hex(s: &str) -> (r: Result<Id, ParseIdError>)
        ensures
            r is Ok <==> is_id_text(s@),
            r matches Ok(id) ==> forall|k: int|
                0 <= k < ID_BYTES ==> id.bytes()[k] as int == hex_byte(s@, k),
    {
        match decode_hex(s) {
            Ok(bytes) => Ok(Id(bytes)),
            Err(_) => Err(ParseIdError::Malformed),
        }
    }

    /// The identifier as 40 lowercase hexadecimal digits.
    pub fn to_hex(&self) -> (r: String)
        ensures
            r@ == hex_of(self.bytes()),
    {
        encode_hex(&self.0)
    }

    /// The XOR distance between two identifiers.
    pub fn xor(self, rhs: Id) -> (r: Id)
        ensures
            r.bytes() == xor_bytes(self.bytes(), rhs.bytes()),
    {
        let mut out: [u8; 20] = [0u8; 20];
        let mut i: usize = 0;
        while i < ID_BYTES
            invariant
                i <= ID_BYTES,
                forall|j: int| 0 <= j < i ==> out@[j] == self.0@[j] ^ rhs.0@[j],
            decreases ID_BYTES - i,
        {
            out[i] = self.0[i] ^ rhs.0[i];
            i = i + 1;
        }
        assert(out@ =~= xor_bytes(self.bytes(), rhs.bytes()));
        Id(out)
    }

    /// Number of leading zero bits, reading the bytes most significant first;
    /// 160 for the all-zero identifier.
    pub fn leading_zeros(&self) -> (r: u32)
        ensures
            r as nat == zero_prefix_bits(self.bytes()),
            r <= 160,
    {
        let mut idx: usize = 0;
        assert(self.bytes().subrange(0, 20) =~= self.bytes());
        while idx < ID_BYTES
            invariant
                idx <= ID_BYTES,
                forall|j: int| 0 <= j < idx ==> self.0@[j] == 0,
                zero_prefix_bits(self.bytes()) == 8 * idx + zero_prefix_bits(
                    self.bytes().subrange(idx as int, 20),
                ),
            decreases ID_BYTES - idx,
        {
            let byte = self.0[idx];
            assert(self.bytes().subrange(idx as int, 20).drop_first() =~= self.bytes().subrange(
                idx + 1,
                20,
            ));
            if byte != 0 {
                let lz = byte.leading_zeros();
                proof {
                    vstd::std_specs::bits::axiom_u8_leading_zeros(byte);
                }
                return idx as u32 * 8 + lz;
            }
            idx = idx + 1;
        }
        assert(self.bytes().subrange(20, 20).len() == 0);
        160
    }

    /// Whether `self` comes before `other` in byte-lexicographic order.
    pub fn less_than(&self, other: &Id) -> (r: bool)
        ensures
            r == lex_lt(self.bytes(), other.bytes()),
    {
        let mut i: usize = 0;
        while i < ID_BYTES
            invariant
                i <= ID_BYTES,
                forall|j: int| 0 <= j < i ==> self.0@[j] == other.0@[j],
            decreases ID_BYTES - i,
        {
            if self.0[i] != other.0[i] {
                if self.0[i] < other.0[i] {
                    return true;
                }
                proof {
                    lemma_lex_lt_asymmetric(other.bytes(), self.bytes());
                }
                return false;
            }
            i = i + 1;
        }
        assert(self.bytes() =~= other.bytes());
        false
    }
}

impl std::ops::BitXor for Id {
    type Output = Id;

    fn bitxor(self, rhs: Id) -> Id {
        let r = self.xor(rhs);
        proof {
            let c = choose|c: Id| c.bytes() == xor_bytes(self.bytes(), rhs.bytes());
            lemma_bytes_eq(c, r);
        }
        r
    }
}

impl vstd::std_specs::ops::BitXorSpecImpl for Id {
    open spec fn obeys_bitxor_spec() -> bool {
        true
    }

    open spec fn bitxor_req(self, rhs: Id) -> bool {
        true
    }

    /// The identifier whose bytes are the byte-wise XOR of the two.
    open spec fn bitxor_spec(self, rhs: Id) -> Id {
        choose|c: Id| c.bytes() == xor_bytes(self.bytes(), rhs.bytes())
    }
}

impl std::str::FromStr for Id {
    type Err = ParseIdError;

    fn from_str(s: &str) -> (r: Result<Id, ParseIdError>)
        ensures
            r is Ok <==> is_id_text(s@),
            r matches Ok(id) ==> forall|k: int|
                0 <= k < ID_BYTES ==> id.bytes()[k] as int == hex_byte(s@, k),
    {
        Id::from_hex(s)
    }
}

impl PartialEq for Id {
    fn eq(&self, other: &Id) -> (r: bool) {
        let mut i: usize = 0;
        while i < ID_BYTES
            invariant
                i <= ID_BYTES,
                forall|j: int| 0 <= j < i ==> self.0@[j] == other.0@[j],
            decreases ID_BYTES - i,
        {
            if self.0[i] != other.0[i] {
                return false;
            }
            i = i + 1;
        }
        assert(self.0@ =~= other.0@);
        true
    }
}

impl vstd::std_specs::cmp::PartialEqSpecImpl for Id {
    open spec fn obeys_eq_spec() -> bool {
        true
    }

    open spec fn eq_spec(&self, other: &Id) -> bool {
        self.0@ == other.0@
    }
}

/// No byte string comes before itself, and the order never runs both ways.
pub proof fn lemma_lex_lt_asymmetric(a: Seq<u8>, b: Seq<u8>)
    ensures
        !(lex_lt(a, b) && lex_lt(b, a)),
        !lex_lt(a, a),
{
    if lex_lt(a, b) && lex_lt(b, a) {
        let i = choose|i: int|
            0 <= i < a.len() && i < b.len() && #[trigger] a[i] < b[i] && forall|j: int|
                0 <= j < i ==> a[j] == b[j];
        let k = choose|k: int|
            0 <= k < b.len() && k < a.len() && #[trigger] b[k] < a[k] && forall|j: int|
                0 <= j < k ==> b[j] == a[j];
        if i < k {
            assert(b[i] == a[i]);
        } else if k < i {
            assert(a[k] == b[k]);
        }
    }
}

/// Byte-lexicographic order is transitive.
pub proof fn lemma_lex_lt_transitive(a: Seq<u8>, b: Seq<u8>, c: Seq<u8>)
    requires
        lex_lt(a, b),
        lex_lt(b, c),
    ensures
        lex_lt(a, c),
{
    let i = choose|i: int|
        0 <= i < a.len() && i < b.len() && #[trigger] a[i] < b[i] && forall|j: int|
            0 <= j < i ==> a[j] == b[j];
    let k = choose|k: int|
        0 <= k < b.len() && k < c.len() && #[trigger] b[k] < c[k] && forall|j: int|
            0 <= j < k ==> b[j] == c[j];
    if i <= k {
        assert(a[i] < c[i]);
    } else {
        assert(a[k] < c[k]);
    }
}

/// Two different byte strings of one length are ordered one way or the other.
pub proof fn lemma_lex_lt_total(a: Seq<u8>, b: Seq<u8>)
    requires
        a.len() == b.len(),
        a != b,
    ensures
        lex_lt(a, b) || lex_lt(b, a),
{
    lemma_first_difference(a, b, 0);
}

proof fn lemma_first_difference(a: Seq<u8>, b: Seq<u8>, k: int)
    requires
        a.len() == b.len(),
        a != b,
        0 <= k <= a.len(),
        forall|j: int| 0 <= j < k ==> a[j] == b[j],
    ensures
        lex_lt(a, b) || lex_lt(b, a),
    decreases a.len() - k,
{
    if k == a.len() {
        assert(a =~= b);
    } else if a[k] == b[k] {
        lemma_first_difference(a, b, k + 1);
    } else if a[k] < b[k] {
        assert(lex_lt(a, b));
    } else {
        assert(lex_lt(b, a));
    }
}

proof fn lemma_byte_xor(x: u8, y: u8)
    ensures
        x ^ x == 0,
        x ^ y == y ^ x,
        (x ^ y) ^ y == x,
        x ^ y == 0 ==> x == y,
{
    assert(x ^ y == 0 ==> x == y) by (bit_vector);
    assert(x ^ x == 0) by (bit_vector);
    assert(x ^ y == y ^ x) by (bit_vector);
    assert((x ^ y) ^ y == x) by (bit_vector);
}

proof fn lemma_zero_prefix_of_zeros(s: Seq<u8>)
    requires
        forall|i: int| 0 <= i < s.len() ==> s[i] == 0,
    ensures
        zero_prefix_bits(s) == 8 * s.len(),
    decreases s.len(),
{
    if s.len() > 0 {
        lemma_zero_prefix_of_zeros(s.drop_first());
    }
}

/// An identifier is at distance zero from itself: every byte of `a XOR a` is
/// zero, and its leading zero count is the full bit width.
pub proof fn lemma_xor_self(a: Id)
    ensures
        xor_bytes(a.bytes(), a.bytes()) == Seq::new(20, |i: int| 0u8),
        zero_prefix_bits(xor_bytes(a.bytes(), a.bytes())) == ID_BITS,
{
    assert forall|i: int| 0 <= i < 20 implies xor_bytes(a.bytes(), a.bytes())[i] == 0u8 by {
        lemma_byte_xor(a.bytes()[i], a.bytes()[i]);
    }
    assert(xor_bytes(a.bytes(), a.bytes()) =~= Seq::new(20, |i: int| 0u8));
    lemma_zero_prefix_of_zeros(xor_bytes(a.bytes(), a.bytes()));
}

/// XOR distance is symmetric, and applying the same identifier twice undoes it.
pub proof fn lemma_xor_symmetric_and_self_inverse(a: Id, b: Id)
    ensures
        xor_bytes(a.bytes(), b.bytes()) == xor_bytes(b.bytes(), a.bytes()),
        xor_bytes(xor_bytes(a.bytes(), b.bytes()), b.bytes()) == a.bytes(),
{
    assert forall|i: int| 0 <= i < 20 implies xor_bytes(a.bytes(), b.bytes())[i] == xor_bytes(
        b.bytes(),
        a.bytes(),
    )[i] && xor_bytes(xor_bytes(a.bytes(), b.bytes()), b.bytes())[i] == a.bytes()[i] by {
        lemma_byte_xor(a.bytes()[i], b.bytes()[i]);
    }
    assert(xor_bytes(a.bytes(), b.bytes()) =~= xor_bytes(b.bytes(), a.bytes()));
    assert(xor_bytes(xor_bytes(a.bytes(), b.bytes()), b.bytes()) =~= a.bytes());
}

/// Distinct identifiers are never at the same distance from a target.
pub proof fn lemma_xor_injective(a: Id, b: Id, t: Id)
    requires
        a != b,
    ensures
        xor_bytes(a.bytes(), t.bytes()) != xor_bytes(b.bytes(), t.bytes()),
{
    lemma_xor_symmetric_and_self_inverse(a, t);
    lemma_xor_symmetric_and_self_inverse(b, t);
    if a.bytes() == b.bytes() {
        assert(a.0 =~= b.0);
    }
}

proof fn lemma_zero_prefix_bound(s: Seq<u8>)
    ensures
        zero_prefix_bits(s) <= 8 * s.len(),
        zero_prefix_bits(s) == 8 * s.len() ==> forall|i: int| 0 <= i < s.len() ==> s[i] == 0,
    decreases s.len(),
{
    if s.len() > 0 {
        vstd::std_specs::bits::axiom_u8_leading_zeros(s[0]);
        lemma_zero_prefix_bound(s.drop_first());
        if zero_prefix_bits(s) == 8 * s.len() {
            assert forall|i: int| 0 <= i < s.len() implies s[i] == 0 by {
                if i > 0 {
                    assert(s[i] == s.drop_first()[i - 1]);
                }
            }
        }
    }
}

/// The leading zero count of a distance never exceeds the bit width, and
/// reaches it exactly when the two identifiers are equal.
pub proof fn lemma_full_width_iff_equal(a: Id, b: Id)
    ensures
        zero_prefix_bits(xor_bytes(a.bytes(), b.bytes())) <= ID_BITS,
        (zero_prefix_bits(xor_bytes(a.bytes(), b.bytes())) == ID_BITS) == (a == b),
{
    let d = xor_bytes(a.bytes(), b.bytes());
    lemma_zero_prefix_bound(d);
    assert(d.len() == 20);
    if zero_prefix_bits(d) == ID_BITS {
        assert forall|i: int| 0 <= i < 20 implies a.bytes()[i] == b.bytes()[i] by {
            assert(d[i] == 0);
            lemma_byte_xor(a.bytes()[i], b.bytes()[i]);
        }
        assert(a.0 =~= b.0);
    }
    if a == b {
        lemma_xor_self(a);
    }
}

/// Identifiers are equal exactly when their bytes are.
pub proof fn lemma_bytes_eq(a: Id, b: Id)
    ensures
        (a.bytes() == b.bytes()) == (a == b),
{
    if a.bytes() == b.bytes() {
        assert(a.0 =~= b.0);
    }
}

proof fn lemma_hex_digit(d: int)
    requires
        0 <= d < 16,
    ensures
        is_hex_digit(hex_digits()[d]),
        hex_value(hex_digits()[d]) == d,
{
    if d == 0 {
        assert(hex_digits()[d] == '0');
    } else if d == 1 {
        assert(hex_digits()[d] == '1');
    } else if d == 2 {
        assert(hex_digits()[d] == '2');
    } else if d == 3 {
        assert(hex_digits()[d] == '3');
    } else if d == 4 {
        assert(hex_digits()[d] == '4');
    } else if d == 5 {
        assert(hex_digits()[d] == '5');
    } else if d == 6 {
        assert(hex_digits()[d] == '6');
    } else if d == 7 {
        assert(hex_digits()[d] == '7');
    } else if d == 8 {
        assert(hex_digits()[d] == '8');
    } else if d == 9 {
        assert(hex_digits()[d] == '9');
    } else if d == 10 {
        assert(hex_digits()[d] == 'a');
    } else if d == 11 {
        assert(hex_digits()[d] == 'b');
    } else if d == 12 {
        assert(hex_digits()[d] == 'c');
    } else if d == 13 {
        assert(hex_digits()[d] == 'd');
    } else if d == 14 {
        assert(hex_digits()[d] == 'e');
    } else if d == 15 {
        assert(hex_digits()[d] == 'f');
    }
}

/// Formatting then parsing gives back the identifier: the text of any
/// identifier is well formed and its digit pairs spell its bytes.
pub proof fn lemma_hex_round_trip(id: Id)
    ensures
        is_id_text(hex_of(id.bytes())),
        forall|k: int| 0 <= k < ID_BYTES ==> hex_byte(hex_of(id.bytes()), k) == id.bytes()[k] as int,
{
    let s = hex_of(id.bytes());
    assert forall|i: int| 0 <= i < s.len() implies is_hex_digit(#[trigger] s[i]) by {
        lemma_hex_digit((id.bytes()[i / 2] / 16) as int);
        lemma_hex_digit((id.bytes()[i / 2] % 16) as int);
    }
    assert forall|k: int| 0 <= k < ID_BYTES implies hex_byte(s, k) == id.bytes()[k] as int by {
        lemma_hex_digit((id.bytes()[k] / 16) as int);
        lemma_hex_digit((id.bytes()[k] % 16) as int);
        assert((2 * k) / 2 == k && (2 * k) % 2 == 0 && (2 * k + 1) / 2 == k && (2 * k + 1) % 2 == 1);
    }
}

} // verus!
