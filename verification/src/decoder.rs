//! Deserialization: reconstructs text from a binary artifact.
//!
//! The header is validated and parsed back into the code table; the payload
//! bits are then walked one at a time, emitting a symbol whenever the
//! accumulated bits equal a table entry's code.  Every malformed input is
//! rejected with a typed error.

use vstd::prelude::*;
use vstd::utf8::is_scalar;

use crate::HuffError;
use crate::sig_bytes;
use crate::bits::byte_bit;
use crate::bits::get_le16;
use crate::bits::get_le32;
use crate::bits::num_bytes_for;
use crate::bits::parse_le16;
use crate::bits::parse_le32;
use crate::huffman_tree::table_view;

verus! {

/// Parses `n` header entries starting at `pos`: for each, a codepoint, a
/// code bit length and the packed code bits.
pub open spec fn parse_entries(bytes: Seq<u8>, pos: int, n: int) -> Result<
    (Seq<(char, Seq<bool>)>, int),
    HuffError,
>
    decreases n,
{
    if n <= 0 {
        Result::Ok((Seq::empty(), pos))
    } else if pos + 4 > bytes.len() {
        Result::Err(HuffError::UnexpectedEndOfInput)
    } else {
        let cp = parse_le32(bytes[pos], bytes[pos + 1], bytes[pos + 2], bytes[pos + 3]);
        if !is_scalar(cp) {
            Result::Err(HuffError::InvalidCodepoint)
        } else if pos + 6 > bytes.len() {
            Result::Err(HuffError::UnexpectedEndOfInput)
        } else {
            let bl = parse_le16(bytes[pos + 4], bytes[pos + 5]) as int;
            let nb = num_bytes_for(bl);
            if pos + 6 + nb > bytes.len() {
                Result::Err(HuffError::UnexpectedEndOfInput)
            } else {
                let code = Seq::new(bl as nat, |k: int| byte_bit(bytes[pos + 6 + k / 8], k % 8));
                match parse_entries(bytes, pos + 6 + nb, n - 1) {
                    Result::Ok((rest, end)) => Result::Ok(
                        (seq![(cp as char, code)] + rest, end),
                    ),
                    Result::Err(e) => Result::Err(e),
                }
            }
        }
    }
}

/// Parses the header: signature, version, symbol count and entries.
pub open spec fn parse_header(bytes: Seq<u8>) -> Result<(Seq<(char, Seq<bool>)>, int), HuffError> {
    if bytes.len() < 4 {
        Result::Err(HuffError::UnexpectedEndOfInput)
    } else if bytes.subrange(0, 4) != sig_bytes() {
        Result::Err(HuffError::InvalidSignature)
    } else if bytes.len() < 5 {
        Result::Err(HuffError::UnexpectedEndOfInput)
    } else if bytes[4] != 1 {
        Result::Err(HuffError::InvalidSignature)
    } else if bytes.len() < 7 {
        Result::Err(HuffError::UnexpectedEndOfInput)
    } else {
        parse_entries(bytes, 7, parse_le16(bytes[5], bytes[6]) as int)
    }
}

/// The first table entry whose code equals `code`, if any.
pub open spec fn tbl_find(table: Seq<(char, Seq<bool>)>, code: Seq<bool>) -> Option<char>
    decreases table.len(),
{
    if table.len() == 0 {
        Option::None
    } else if table[0].1 == code {
        Option::Some(table[0].0)
    } else {
        tbl_find(table.drop_first(), code)
    }
}

/// Walks the payload bits: each bit extends the accumulated code, a full
/// match emits its symbol and resets; leftover bits are an incomplete code.
pub open spec fn walk_bits(
    table: Seq<(char, Seq<bool>)>,
    bits: Seq<bool>,
    acc: Seq<bool>,
) -> Result<Seq<char>, HuffError>
    decreases bits.len(),
{
    if bits.len() == 0 {
        if acc.len() == 0 {
            Result::Ok(Seq::empty())
        } else {
            Result::Err(HuffError::IncompleteCode)
        }
    } else {
        let acc1 = acc.push(bits[0]);
        match tbl_find(table, acc1) {
            Option::Some(c) => match walk_bits(table, bits.drop_first(), Seq::empty()) {
                Result::Ok(rest) => Result::Ok(seq![c] + rest),
                Result::Err(e) => Result::Err(e),
            },
            Option::None => walk_bits(table, bits.drop_first(), acc1),
        }
    }
}

/// The `vbc` payload bits packed at `pos`.
pub open spec fn payload_region_bits(bytes: Seq<u8>, pos: int, vbc: int) -> Seq<bool> {
    Seq::new(vbc as nat, |k: int| byte_bit(bytes[pos + k / 8], k % 8))
}

/// Parses the payload at `pos`: the count of meaningful bits, then the
/// packed bits, walked against the table.
pub open spec fn parse_payload(bytes: Seq<u8>, pos: int, table: Seq<(char, Seq<bool>)>) -> Result<
    Seq<char>,
    HuffError,
> {
    if pos + 4 > bytes.len() {
        Result::Err(HuffError::UnexpectedEndOfInput)
    } else {
        let vbc = parse_le32(bytes[pos], bytes[pos + 1], bytes[pos + 2], bytes[pos + 3]) as int;
        if pos + 4 + num_bytes_for(vbc) > bytes.len() {
            Result::Err(HuffError::UnexpectedEndOfInput)
        } else {
            walk_bits(table, payload_region_bits(bytes, pos + 4, vbc), Seq::empty())
        }
    }
}

/// What decoding yields for any byte sequence.
pub open spec fn spec_decode(bytes: Seq<u8>) -> Result<Seq<char>, HuffError> {
    match parse_header(bytes) {
        Result::Ok((table, pos)) => parse_payload(bytes, pos, table),
        Result::Err(e) => Result::Err(e),
    }
}

/// Relies on char::from_u32: `Some` exactly on unicode scalar values, and
/// the returned char casts back to the given value.
#[verifier::external_body]
fn char_from_u32(v: u32) -> (r: Option<char>)
    ensures
        r is Some <==> is_scalar(v),
        r matches Some(c) ==> c as u32 == v,
{
    char::from_u32(v)
}

/// Relies on Iterator::collect: a String collected from chars holds exactly
/// those chars in order.
#[verifier::external_body]
fn chars_to_string(v: &Vec<char>) -> (r: String)
    ensures
        r@ == v@,
{
    v.iter().collect()
}

/// Where a scan finds `code` first at `i`, the find returns that symbol.
pub proof fn lemma_tbl_find_at(table: Seq<(char, Seq<bool>)>, code: Seq<bool>, i: int)
    requires
        0 <= i < table.len(),
        table[i].1 == code,
        forall|m: int| 0 <= m < i ==> (#[trigger] table[m]).1 != code,
    ensures
        tbl_find(table, code) == Option::Some(table[i].0),
    decreases i,
{
    if i > 0 {
        assert(forall|m: int|
            0 <= m < i - 1 ==> (#[trigger] table.drop_first()[m]).1 != code);
        assert(table.drop_first()[i - 1] == table[i]);
        lemma_tbl_find_at(table.drop_first(), code, i - 1);
    }
}

/// Where no entry's code equals `code`, the find fails.
pub proof fn lemma_tbl_find_absent(table: Seq<(char, Seq<bool>)>, code: Seq<bool>)
    requires
        forall|m: int| 0 <= m < table.len() ==> (#[trigger] table[m]).1 != code,
    ensures
        tbl_find(table, code) is None,
    decreases table.len(),
{
    if table.len() > 0 {
        assert(forall|m: int|
            0 <= m < table.drop_first().len() ==> (#[trigger] table.drop_first()[m]).1 != code);
        lemma_tbl_find_absent(table.drop_first(), code);
    }
}

/// Bitwise equality of two bit strings.
fn bits_eq(a: &Vec<bool>, b: &Vec<bool>) -> (r: bool)
    ensures
        r <==> a@ == b@,
{
    if a.len() != b.len() {
        proof {
            assert(a@ != b@);
        }
        return false;
    }
    let mut i: usize = 0;
    while i < a.len()
        invariant
            a@.len() == b@.len(),
            i <= a@.len(),
            forall|m: int| 0 <= m < i ==> a@[m] == b@[m],
        decreases a@.len() - i,
    {
        if a[i] != b[i] {
            proof {
                assert(a@[i as int] != b@[i as int]);
            }
            return false;
        }
        i = i + 1;
    }
    proof {
        assert(a@ =~= b@);
    }
    true
}

/// The first table entry whose code equals `acc`, if any.
fn match_code(map: &Vec<(char, Vec<bool>)>, acc: &Vec<bool>) -> (r: Option<char>)
    ensures
        r == tbl_find(table_view(map@), acc@),
{
    let mut j: usize = 0;
    while j < map.len()
        invariant
            j <= map@.len(),
            forall|m: int| 0 <= m < j ==> (#[trigger] map@[m]).1@ != acc@,
        decreases map@.len() - j,
    {
        if bits_eq(&map[j].1, acc) {
            proof {
                assert forall|m: int|
                    0 <= m < j implies (#[trigger] table_view(map@)[m]).1 != acc@ by {
                    assert(table_view(map@)[m].1 == map@[m].1@);
                }
                lemma_tbl_find_at(table_view(map@), acc@, j as int);
            }
            return Some(map[j].0);
        }
        j = j + 1;
    }
    proof {
        assert forall|m: int|
            0 <= m < map@.len() implies (#[trigger] table_view(map@)[m]).1 != acc@ by {
            assert(table_view(map@)[m].1 == map@[m].1@);
        }
        lemma_tbl_find_absent(table_view(map@), acc@);
    }
    None
}

/// Validates signature and version and parses the code table back from the
/// header, returning it with the position just past the header.
pub fn decode_header(input: &Vec<u8>) -> (r: Result<(Vec<(char, Vec<bool>)>, usize), HuffError>)
    ensures
        r matches Ok((m, pos)) ==> parse_header(input@) == Result::<
            (Seq<(char, Seq<bool>)>, int),
            HuffError,
        >::Ok((table_view(m@), pos as int)) && pos <= input@.len(),
        r matches Err(e) ==> parse_header(input@) == Result::<
            (Seq<(char, Seq<bool>)>, int),
            HuffError,
        >::Err(e),
{
    let n: usize = input.len();
    if n < 4 {
        return Err(HuffError::UnexpectedEndOfInput);
    }
    if input[0] != 0x43 || input[1] != 0x43 || input[2] != 0x48 || input[3] != 0x46 {
        proof {
            assert(input@.subrange(0, 4) != sig_bytes()) by {
                if input@.subrange(0, 4) == sig_bytes() {
                    assert(input@[0] == sig_bytes()[0] && input@[1] == sig_bytes()[1] && input@[2]
                        == sig_bytes()[2] && input@[3] == sig_bytes()[3]) by {
                        assert(input@.subrange(0, 4)[0] == input@[0]);
                        assert(input@.subrange(0, 4)[1] == input@[1]);
                        assert(input@.subrange(0, 4)[2] == input@[2]);
                        assert(input@.subrange(0, 4)[3] == input@[3]);
                    }
                }
            }
        }
        return Err(HuffError::InvalidSignature);
    }
    proof {
        assert(input@.subrange(0, 4) =~= sig_bytes());
    }
    if n < 5 {
        return Err(HuffError::UnexpectedEndOfInput);
    }
    if input[4] != 1 {
        return Err(HuffError::InvalidSignature);
    }
    if n < 7 {
        return Err(HuffError::UnexpectedEndOfInput);
    }
    let count = get_le16(input, 5);
    let ghost total: int = count as int;
    let mut m: Vec<(char, Vec<bool>)> = Vec::new();
    let mut pos: usize = 7;
    let mut idx: usize = 0;
    while idx < count as usize
        invariant
            n == input@.len(),
            idx <= count as usize,
            total == count as int,
            pos <= n,
            m@.len() == idx,
            parse_header(input@) == parse_entries(input@, 7, total),
            parse_entries(input@, 7, total) == (match parse_entries(
                input@,
                pos as int,
                total - idx,
            ) {
                Result::Ok((rest, end)) => Result::<
                    (Seq<(char, Seq<bool>)>, int),
                    HuffError,
                >::Ok((table_view(m@) + rest, end)),
                Result::Err(e) => Result::Err(e),
            }),
        decreases count as int - idx,
    {
        let ghost rem = total - idx;
        let ghost pos0 = pos as int;
        let ghost m0 = m@;
        if n - pos < 4 {
            return Err(HuffError::UnexpectedEndOfInput);
        }
        let cp = get_le32(input, pos);
        let c = match char_from_u32(cp) {
            None => {
                return Err(HuffError::InvalidCodepoint);
            },
            Some(c) => c,
        };
        if n - pos < 6 {
            return Err(HuffError::UnexpectedEndOfInput);
        }
        let bl = get_le16(input, pos + 4);
        let nbl: usize = (bl as usize + 7) / 8;
        if n - (pos + 6) < nbl {
            return Err(HuffError::UnexpectedEndOfInput);
        }
        let mut code: Vec<bool> = Vec::new();
        let mut k: usize = 0;
        while k < bl as usize
            invariant
                n == input@.len(),
                pos + 6 + nbl <= n,
                nbl == num_bytes_for(bl as int),
                k <= bl as usize,
                code@.len() == k,
                forall|t: int|
                    0 <= t < k ==> code@[t] == byte_bit(
                        input@[pos + 6 + t / 8],
                        t % 8,
                    ),
            decreases bl as usize - k,
        {
            let byte = input[pos + 6 + k / 8];
            let sh: u8 = (7 - (k % 8)) as u8;
            code.push((byte >> sh) & 1 == 1);
            k = k + 1;
        }
        pos = pos + 6 + nbl;
        m.push((c, code));
        idx = idx + 1;
        proof {
            let bytes = input@;
            let spec_code = Seq::new(
                bl as nat,
                |t: int| byte_bit(bytes[pos0 + 6 + t / 8], t % 8),
            );
            assert(code@ =~= spec_code);
            assert(parse_entries(bytes, pos0, rem) == (match parse_entries(
                bytes,
                pos as int,
                rem - 1,
            ) {
                Result::Ok((rest, end)) => Result::<
                    (Seq<(char, Seq<bool>)>, int),
                    HuffError,
                >::Ok((seq![(c, spec_code)] + rest, end)),
                Result::Err(e) => Result::Err(e),
            })) by {
                assert(cp == parse_le32(
                    bytes[pos0],
                    bytes[pos0 + 1],
                    bytes[pos0 + 2],
                    bytes[pos0 + 3],
                ));
                assert(is_scalar(cp));
                assert((cp as char) == c) by {
                    vstd::utf8::char_u32_cast(c, cp);
                }
            }
            assert(m@.drop_last() =~= m0);
            assert forall|rest: Seq<(char, Seq<bool>)>|
                true implies table_view(m0) + (seq![(c, spec_code)] + rest) == table_view(m@)
                + rest by {
                assert(table_view(m0) + (seq![(c, spec_code)] + rest) =~= table_view(m@) + rest);
            }
            match parse_entries(bytes, pos as int, rem - 1) {
                Result::Ok((rest, end)) => {
                    assert(parse_entries(bytes, pos0, rem) == Result::<
                        (Seq<(char, Seq<bool>)>, int),
                        HuffError,
                    >::Ok((seq![(c, spec_code)] + rest, end)));
                    assert(parse_entries(bytes, 7, total) == Result::<
                        (Seq<(char, Seq<bool>)>, int),
                        HuffError,
                    >::Ok((table_view(m0) + (seq![(c, spec_code)] + rest), end)));
                    assert(table_view(m0) + (seq![(c, spec_code)] + rest) == table_view(m@)
                        + rest);
                },
                Result::Err(e) => {},
            }
        }
    }
    proof {
        assert(parse_entries(input@, pos as int, 0) == Result::<
            (Seq<(char, Seq<bool>)>, int),
            HuffError,
        >::Ok((Seq::empty(), pos as int)));
        assert(table_view(m@) + Seq::<(char, Seq<bool>)>::empty() =~= table_view(m@));
    }
    Ok((m, pos))
}

/// Reads the payload's bit count and walks its packed bits against the
/// table, reconstructing the text's symbols.
pub fn decode_content(input: &Vec<u8>, pos: usize, map: &Vec<(char, Vec<bool>)>) -> (r: Result<
    Vec<char>,
    HuffError,
>)
    requires
        pos <= input@.len(),
    ensures
        r matches Ok(v) ==> parse_payload(input@, pos as int, table_view(map@)) == Result::<
            Seq<char>,
            HuffError,
        >::Ok(v@),
        r matches Err(e) ==> parse_payload(input@, pos as int, table_view(map@)) == Result::<
            Seq<char>,
            HuffError,
        >::Err(e),
{
    let ghost table = table_view(map@);
    let n: usize = input.len();
    if n - pos < 4 {
        return Err(HuffError::UnexpectedEndOfInput);
    }
    let vbc = get_le32(input, pos);
    let nb64: u64 = (vbc as u64 + 7) / 8;
    if ((n - (pos + 4)) as u64) < nb64 {
        proof {
            assert(pos as int + 4 + num_bytes_for(vbc as int) > input@.len());
        }
        return Err(HuffError::UnexpectedEndOfInput);
    }
    let base: usize = pos + 4;
    let ghost all_bits = payload_region_bits(input@, base as int, vbc as int);
    let mut acc: Vec<bool> = Vec::new();
    let mut result: Vec<char> = Vec::new();
    let mut k: u32 = 0;
    proof {
        assert(all_bits.skip(0) =~= all_bits);
        match walk_bits(table, all_bits, Seq::empty()) {
            Result::Ok(rest) => {
                assert(Seq::<char>::empty() + rest =~= rest);
            },
            Result::Err(e) => {},
        }
    }
    while k < vbc
        invariant
            n == input@.len(),
            table == table_view(map@),
            base + nb64 <= n,
            nb64 == num_bytes_for(vbc as int),
            k <= vbc,
            all_bits == payload_region_bits(input@, base as int, vbc as int),
            all_bits.len() == vbc as int,
            walk_bits(table, all_bits, Seq::empty()) == (match walk_bits(
                table,
                all_bits.skip(k as int),
                acc@,
            ) {
                Result::Ok(rest) => Result::<Seq<char>, HuffError>::Ok(result@ + rest),
                Result::Err(e) => Result::Err(e),
            }),
        decreases vbc - k,
    {
        let ghost acc0 = acc@;
        let ghost result0 = result@;
        let ghost rest0 = all_bits.skip(k as int);
        let idx: usize = base + (k / 8) as usize;
        proof {
            assert(k as int / 8 < nb64 as int);
        }
        let byte = input[idx];
        let sh: u8 = (7 - (k % 8)) as u8;
        let bit = (byte >> sh) & 1 == 1;
        proof {
            assert(rest0[0] == all_bits[k as int]);
            assert(all_bits[k as int] == byte_bit(input@[base + k as int / 8], k as int % 8));
            assert(bit == byte_bit(byte, k as int % 8));
        }
        acc.push(bit);
        match match_code(map, &acc) {
            Some(c) => {
                result.push(c);
                acc.clear();
            },
            None => {},
        }
        k = k + 1;
        proof {
            assert(rest0.drop_first() =~= all_bits.skip(k as int));
            assert(rest0.len() > 0);
            match tbl_find(table, acc0.push(bit)) {
                Option::Some(c) => {
                    assert(result@ == result0.push(c));
                    assert(acc@ =~= Seq::<bool>::empty());
                    match walk_bits(table, all_bits.skip(k as int), Seq::empty()) {
                        Result::Ok(rest) => {
                            assert(walk_bits(table, rest0, acc0) == Result::<
                                Seq<char>,
                                HuffError,
                            >::Ok(seq![c] + rest));
                            assert(result0 + (seq![c] + rest) =~= result@ + rest);
                        },
                        Result::Err(e) => {},
                    }
                },
                Option::None => {
                    assert(acc@ == acc0.push(bit));
                    assert(walk_bits(table, rest0, acc0) == walk_bits(
                        table,
                        all_bits.skip(k as int),
                        acc@,
                    ));
                },
            }
        }
    }
    proof {
        assert(all_bits.skip(vbc as int).len() == 0);
    }
    if acc.len() > 0 {
        return Err(HuffError::IncompleteCode);
    }
    proof {
        assert(result@ + Seq::<char>::empty() =~= result@);
    }
    Ok(result)
}

/// Decodes an artifact back into its text.  Fails with a typed error on any
/// structural violation: a wrong signature or version, a truncated input, an
/// invalid codepoint, or payload bits that do not end on a code boundary.
pub fn decode(input: Vec<u8>) -> (r: Result<String, HuffError>)
    ensures
        r matches Ok(s) ==> spec_decode(input@) == Result::<Seq<char>, HuffError>::Ok(s@),
        r matches Err(e) ==> spec_decode(input@) == Result::<Seq<char>, HuffError>::Err(e),
        input@.len() >= 4 && input@.subrange(0, 4) != sig_bytes() ==> r == Result::<
            String,
            HuffError,
        >::Err(HuffError::InvalidSignature),
{
    match decode_header(&input) {
        Err(e) => Err(e),
        Ok((map, pos)) => match decode_content(&input, pos, &map) {
            Err(e) => Err(e),
            Ok(chars) => Ok(chars_to_string(&chars)),
        },
    }
}

} // verus!
