use vstd::prelude::*;
use vstd::utf8::{
    decode_utf8, decode_utf8_encode_utf8, encode_utf8_valid_utf8, encode_utf8_decode_utf8,
    is_leading_byte_width_1, partial_valid_utf8, partial_valid_utf8_extend_ascii_block, valid_utf8,
};
use crate::types::{bytes_of, UserStoreError};

verus! {

/// Version tag of the only token layout this library reads and writes.
pub const TOKEN_VERSION: u8 = 1;

/// Lower-case hexadecimal digit of a value below sixteen.
pub open spec fn hex_digit(n: int) -> u8 {
    if n < 10 {
        (48 + n) as u8
    } else {
        (87 + n) as u8
    }
}

/// Two lower-case hexadecimal digits per byte, high nibble first.
pub open spec fn hex_of(b: Seq<u8>) -> Seq<u8> {
    Seq::new(
        2 * b.len(),
        |i: int|
            if i % 2 == 0 {
                hex_digit(b[i / 2] as int / 16)
            } else {
                hex_digit(b[i / 2] as int % 16)
            },
    )
}

/// Big-endian bytes of a 64-bit word.
pub open spec fn be_bytes(x: u64) -> Seq<u8> {
    seq![
        (x >> 56u64) as u8,
        (x >> 48u64) as u8,
        (x >> 40u64) as u8,
        (x >> 32u64) as u8,
        (x >> 24u64) as u8,
        (x >> 16u64) as u8,
        (x >> 8u64) as u8,
        x as u8,
    ]
}

/// What a token carries: the version tag, the creation time and the UTF-8 id.
pub open spec fn token_payload(created_at: i64, id: Seq<char>) -> Seq<u8> {
    seq![TOKEN_VERSION] + be_bytes(created_at as u64) + bytes_of(id)
}

/// The UTF-8 form of the token for the row `(created_at, id)`.
pub open spec fn token_bytes(created_at: i64, id: Seq<char>) -> Seq<u8> {
    hex_of(token_payload(created_at, id))
}

/// Relies on `String::from_utf8`: it succeeds exactly on valid UTF-8 and keeps the characters.
#[verifier::external_body]
fn string_from_utf8(b: Vec<u8>) -> (r: Option<String>)
    ensures
        match r {
            Some(s) => valid_utf8(b@) && s@ == decode_utf8(b@),
            None => !valid_utf8(b@),
        },
{
    String::from_utf8(b).ok()
}

fn hex_digit_of(n: u8) -> (r: u8)
    requires
        n < 16,
    ensures
        r == hex_digit(n as int),
{
    if n < 10 {
        48 + n
    } else {
        87 + n
    }
}

/// Value of a lower-case hexadecimal digit, or `None` for any other byte.
pub open spec fn hex_value(d: u8) -> Option<u8> {
    if 48 <= d <= 57 {
        Some((d - 48) as u8)
    } else if 97 <= d <= 102 {
        Some((d - 87) as u8)
    } else {
        None
    }
}

fn hex_value_of(d: u8) -> (r: Option<u8>)
    ensures
        r == hex_value(d),
        r matches Some(v) ==> v < 16 && hex_digit(v as int) == d,
{
    if 48 <= d && d <= 57 {
        Some(d - 48)
    } else if 97 <= d && d <= 102 {
        Some(d - 87)
    } else {
        None
    }
}

proof fn lemma_hex_digit_value(n: int)
    requires
        0 <= n < 16,
    ensures
        hex_value(hex_digit(n)) == Some(n as u8),
{
}

proof fn lemma_be_bytes_round_trip(x: u64)
    ensures
        ((((x >> 56u64) as u8) as u64) << 56u64) | ((((x >> 48u64) as u8) as u64) << 48u64) | ((((x
            >> 40u64) as u8) as u64) << 40u64) | ((((x >> 32u64) as u8) as u64) << 32u64) | ((((x
            >> 24u64) as u8) as u64) << 24u64) | ((((x >> 16u64) as u8) as u64) << 16u64) | ((((x
            >> 8u64) as u8) as u64) << 8u64) | ((x as u8) as u64) == x,
{
    assert(((((x >> 56u64) as u8) as u64) << 56u64) | ((((x >> 48u64) as u8) as u64) << 48u64)
        | ((((x >> 40u64) as u8) as u64) << 40u64) | ((((x >> 32u64) as u8) as u64) << 32u64)
        | ((((x >> 24u64) as u8) as u64) << 24u64) | ((((x >> 16u64) as u8) as u64) << 16u64)
        | ((((x >> 8u64) as u8) as u64) << 8u64) | ((x as u8) as u64) == x) by (bit_vector);
}

proof fn lemma_be_bytes_split(b1: u8, b2: u8, b3: u8, b4: u8, b5: u8, b6: u8, b7: u8, b8: u8, x: u64)
    requires
        x == ((b1 as u64) << 56u64) | ((b2 as u64) << 48u64) | ((b3 as u64) << 40u64) | ((
        b4 as u64) << 32u64) | ((b5 as u64) << 24u64) | ((b6 as u64) << 16u64) | ((b7 as u64)
            << 8u64) | (b8 as u64),
    ensures
        be_bytes(x) == seq![b1, b2, b3, b4, b5, b6, b7, b8],
{
    assert((x >> 56u64) as u8 == b1 && (x >> 48u64) as u8 == b2 && (x >> 40u64) as u8 == b3
        && (x >> 32u64) as u8 == b4 && (x >> 24u64) as u8 == b5 && (x >> 16u64) as u8 == b6
        && (x >> 8u64) as u8 == b7 && x as u8 == b8) by (bit_vector)
        requires
            x == ((b1 as u64) << 56u64) | ((b2 as u64) << 48u64) | ((b3 as u64) << 40u64) | ((
            b4 as u64) << 32u64) | ((b5 as u64) << 24u64) | ((b6 as u64) << 16u64) | ((
            b7 as u64) << 8u64) | (b8 as u64),
    ;
    assert(be_bytes(x) =~= seq![b1, b2, b3, b4, b5, b6, b7, b8]);
}

proof fn lemma_hex_of_injective(a: Seq<u8>, b: Seq<u8>)
    requires
        hex_of(a) == hex_of(b),
    ensures
        a == b,
{
    assert(hex_of(a).len() == 2 * a.len());
    assert forall|i: int| 0 <= i < a.len() implies a[i] == b[i] by {
        let x = a[i] as int;
        let y = b[i] as int;
        assert(hex_of(a)[2 * i] == hex_of(b)[2 * i]);
        assert(hex_of(a)[2 * i + 1] == hex_of(b)[2 * i + 1]);
        assert((2 * i) / 2 == i && (2 * i) % 2 == 0);
        assert((2 * i + 1) / 2 == i && (2 * i + 1) % 2 == 1);
        assert(0 <= x / 16 < 16 && 0 <= x % 16 < 16 && x == 16 * (x / 16) + x % 16) by (nonlinear_arith)
            requires
                0 <= x < 256,
        ;
        assert(0 <= y / 16 < 16 && 0 <= y % 16 < 16 && y == 16 * (y / 16) + y % 16) by (nonlinear_arith)
            requires
                0 <= y < 256,
        ;
        lemma_hex_digit_value(x / 16);
        lemma_hex_digit_value(y / 16);
        lemma_hex_digit_value(x % 16);
        lemma_hex_digit_value(y % 16);
        assert(hex_of(a)[2 * i] == hex_digit(x / 16));
        assert(hex_of(b)[2 * i] == hex_digit(y / 16));
        assert(hex_of(a)[2 * i + 1] == hex_digit(x % 16));
        assert(hex_of(b)[2 * i + 1] == hex_digit(y % 16));
        assert(((x / 16) as u8) as int == x / 16);
        assert(((y / 16) as u8) as int == y / 16);
        assert(((x % 16) as u8) as int == x % 16);
        assert(((y % 16) as u8) as int == y % 16);
        assert(x / 16 == y / 16);
        assert(x % 16 == y % 16);
    }
    assert(a =~= b);
}

proof fn lemma_i64_u64_round_trip(x: i64)
    ensures
        (x as u64) as i64 == x,
{
    assert((x as u64) as i64 == x) by (bit_vector);
}

/// Different rows give different tokens: a token determines the row it was made from.
pub proof fn lemma_token_bytes_injective(c1: i64, id1: Seq<char>, c2: i64, id2: Seq<char>)
    requires
        token_bytes(c1, id1) == token_bytes(c2, id2),
    ensures
        c1 == c2,
        id1 == id2,
{
    let p1 = token_payload(c1, id1);
    let p2 = token_payload(c2, id2);
    lemma_hex_of_injective(p1, p2);
    let x = c1 as u64;
    let y = c2 as u64;
    assert(p1.subrange(1, 9) =~= be_bytes(x));
    assert(p2.subrange(1, 9) =~= be_bytes(y));
    lemma_be_bytes_round_trip(x);
    lemma_be_bytes_round_trip(y);
    assert(be_bytes(x)[0] == be_bytes(y)[0]);
    assert(be_bytes(x)[1] == be_bytes(y)[1]);
    assert(be_bytes(x)[2] == be_bytes(y)[2]);
    assert(be_bytes(x)[3] == be_bytes(y)[3]);
    assert(be_bytes(x)[4] == be_bytes(y)[4]);
    assert(be_bytes(x)[5] == be_bytes(y)[5]);
    assert(be_bytes(x)[6] == be_bytes(y)[6]);
    assert(be_bytes(x)[7] == be_bytes(y)[7]);
    assert(x == y);
    lemma_i64_u64_round_trip(c1);
    lemma_i64_u64_round_trip(c2);
    assert(p1.subrange(9, p1.len() as int) =~= bytes_of(id1));
    assert(p2.subrange(9, p2.len() as int) =~= bytes_of(id2));
    encode_utf8_decode_utf8(id1);
    encode_utf8_decode_utf8(id2);
}

/// Encodes the cursor for the row `(created_at, id)` as an opaque, URL-safe string.
pub fn encode_token(created_at: i64, id: &String) -> (r: String)
    ensures
        bytes_of(r@) == token_bytes(created_at, id@),
{
    let mut payload: Vec<u8> = Vec::new();
    payload.push(TOKEN_VERSION);
    let u = created_at as u64;
    payload.push((u >> 56u64) as u8);
    payload.push((u >> 48u64) as u8);
    payload.push((u >> 40u64) as u8);
    payload.push((u >> 32u64) as u8);
    payload.push((u >> 24u64) as u8);
    payload.push((u >> 16u64) as u8);
    payload.push((u >> 8u64) as u8);
    payload.push(u as u8);
    assert(payload@ =~= seq![TOKEN_VERSION] + be_bytes(created_at as u64));
    let idb = id.as_str().as_bytes();
    let ghost head = payload@;
    let mut i: usize = 0;
    while i < idb.len()
        invariant
            0 <= i <= idb@.len(),
            idb@ == bytes_of(id@),
            payload@ == head + idb@.subrange(0, i as int),
        decreases idb.len() - i,
    {
        payload.push(idb[i]);
        i = i + 1;
        assert(payload@ =~= head + idb@.subrange(0, i as int));
    }
    assert(idb@.subrange(0, idb@.len() as int) =~= idb@);
    assert(payload@ =~= token_payload(created_at, id@));
    let mut hex: Vec<u8> = Vec::new();
    let mut j: usize = 0;
    while j < payload.len()
        invariant
            0 <= j <= payload@.len(),
            payload@ == token_payload(created_at, id@),
            hex@.len() == 2 * j,
            forall|k: int| 0 <= k < 2 * j ==> hex@[k] == hex_of(payload@)[k],
            forall|k: int| 0 <= k < 2 * j ==> is_leading_byte_width_1(#[trigger] hex@[k]),
        decreases payload.len() - j,
    {
        let b = payload[j];
        hex.push(hex_digit_of(b / 16));
        hex.push(hex_digit_of(b % 16));
        j = j + 1;
    }
    assert(hex@ =~= hex_of(payload@));
    proof {
        assert(hex@.subrange(0, 0) =~= Seq::<u8>::empty());
        partial_valid_utf8_extend_ascii_block(hex@, 0, hex@.len() as int);
        assert(hex@.subrange(0, hex@.len() as int) =~= hex@);
        decode_utf8_encode_utf8(hex@);
    }
    match string_from_utf8(hex) {
        Some(s) => s,
        None => String::new(),
    }
}

/// Decodes a cursor back into the row `(created_at, id)` it was made from; fails with
/// `InvalidToken` on any string that `encode_token` does not produce.
pub fn decode_token(token: &str) -> (r: Result<(i64, String), UserStoreError>)
    ensures
        r matches Ok((created_at, id)) ==> bytes_of(token@) == token_bytes(created_at, id@),
        (exists|created_at: i64, id: Seq<char>| bytes_of(token@) == token_bytes(created_at, id))
            ==> r is Ok,
        r matches Err(e) ==> e is InvalidToken,
{
    let t = token.as_bytes();
    if t.len() % 2 != 0 {
        return Err(UserStoreError::InvalidToken);
    }
    let mut payload: Vec<u8> = Vec::new();
    let mut j: usize = 0;
    while j < t.len() / 2
        invariant
            t@ == bytes_of(token@),
            t@.len() % 2 == 0,
            0 <= j <= t@.len() / 2,
            payload@.len() == j,
            hex_of(payload@) =~= t@.subrange(0, 2 * j),
        decreases t.len() / 2 - j,
    {
        let hi = hex_value_of(t[2 * j]);
        let lo = hex_value_of(t[2 * j + 1]);
        match (hi, lo) {
            (Some(h), Some(l)) => {
                payload.push(h * 16 + l);
                proof {
                    lemma_hex_digit_value(h as int);
                }
                j = j + 1;
            },
            _ => {
                return Err(UserStoreError::InvalidToken);
            },
        }
    }
    assert(t@.subrange(0, t@.len() as int) =~= t@);
    if payload.len() < 9 || payload[0] != TOKEN_VERSION {
        proof {
            if exists|c: i64, id: Seq<char>| bytes_of(token@) == token_bytes(c, id) {
                let (c, id) = choose|c: i64, id: Seq<char>| bytes_of(token@) == token_bytes(c, id);
                lemma_hex_of_injective(payload@, token_payload(c, id));
            }
        }
        return Err(UserStoreError::InvalidToken);
    }
    let u: u64 = ((payload[1] as u64) << 56u64) | ((payload[2] as u64) << 48u64) | ((
    payload[3] as u64) << 40u64) | ((payload[4] as u64) << 32u64) | ((payload[5] as u64)
        << 24u64) | ((payload[6] as u64) << 16u64) | ((payload[7] as u64) << 8u64) | (
    payload[8] as u64);
    let created_at = u as i64;
    proof {
        lemma_be_bytes_split(payload[1], payload[2], payload[3], payload[4], payload[5], payload[6], payload[7], payload[8], u);
        assert((u as i64) as u64 == u) by (bit_vector);
    }
    let mut idb: Vec<u8> = Vec::new();
    let mut k: usize = 9;
    while k < payload.len()
        invariant
            9 <= k <= payload@.len(),
            idb@ == payload@.subrange(9, k as int),
        decreases payload.len() - k,
    {
        idb.push(payload[k]);
        k = k + 1;
        assert(idb@ =~= payload@.subrange(9, k as int));
    }
    let ghost idv = idb@;
    match string_from_utf8(idb) {
        Some(id) => {
            proof {
                decode_utf8_encode_utf8(idv);
                assert(payload@ =~= token_payload(created_at, id@));
            }
            Ok((created_at, id))
        },
        None => {
            proof {
                if exists|c: i64, i: Seq<char>| bytes_of(token@) == token_bytes(c, i) {
                    let (c, i) = choose|c: i64, i: Seq<char>| bytes_of(token@) == token_bytes(c, i);
                    lemma_hex_of_injective(payload@, token_payload(c, i));
                    assert(idv =~= token_payload(c, i).subrange(9, payload@.len() as int));
                    assert(idv =~= bytes_of(i));
                    encode_utf8_valid_utf8(i);
                }
            }
            Err(UserStoreError::InvalidToken)
        },
    }
}

} // verus!
