//! The guarantees of the codec, stated and proved over the same spec
//! functions that the executable functions' contracts use: decoding inverts
//! encoding, generated code tables are prefix-free, a wrong signature is
//! rejected, and a truncated artifact never decodes to a wrong text.

use vstd::prelude::*;

use crate::HuffError;
use crate::sig_bytes;
use crate::bits::byte_bit;
use crate::bits::le16_bytes;
use crate::bits::le32_bytes;
use crate::bits::lemma_le16_roundtrip;
use crate::bits::lemma_le32_roundtrip;
use crate::bits::lemma_pack_bits_extract;
use crate::bits::num_bytes_for;
use crate::bits::pack_bits;
use crate::bits::parse_le16;
use crate::bits::parse_le32;
use crate::decoder::parse_entries;
use crate::decoder::parse_header;
use crate::decoder::payload_region_bits;
use crate::decoder::spec_decode;
use crate::decoder::tbl_find;
use crate::decoder::walk_bits;
use crate::decoder::lemma_tbl_find_at;
use crate::decoder::lemma_tbl_find_absent;
use crate::encoder::code_of;
use crate::encoder::encode_fits;
use crate::encoder::payload_bits;
use crate::encoder::serialize_entries;
use crate::encoder::serialize_entry;
use crate::encoder::spec_encode;
use crate::encoder::spec_header;
use crate::encoder::tbl_lookup;
use crate::encoder::lemma_tbl_lookup_exists;
use crate::huffman_tree::freq_seq;
use crate::huffman_tree::lemma_spec_table_props;
use crate::huffman_tree::spec_table;

verus! {

/// A decodable code table: every code is non-empty, and no code is a prefix
/// of another entry's code.
pub open spec fn table_ok(table: Seq<(char, Seq<bool>)>) -> bool {
    &&& forall|i: int| 0 <= i < table.len() ==> (#[trigger] table[i]).1.len() >= 1
    &&& forall|i: int, j: int|
        0 <= i < table.len() && 0 <= j < table.len() && i != j ==> !(
        #[trigger] table[i].1).is_prefix_of(#[trigger] table[j].1)
}

/// The lookup of `c` returns the first entry that carries `c`.
proof fn lemma_tbl_lookup_index(table: Seq<(char, Seq<bool>)>, c: char)
    requires
        tbl_lookup(table, c) is Some,
    ensures
        exists|i: int|
            0 <= i < table.len() && (#[trigger] table[i]).0 == c && table[i].1 == code_of(
                table,
                c,
            ),
    decreases table.len(),
{
    if table.len() > 0 {
        if table[0].0 == c {
            assert(table[0].0 == c && table[0].1 == code_of(table, c));
        } else {
            lemma_tbl_lookup_index(table.drop_first(), c);
            let i = choose|i: int|
                0 <= i < table.drop_first().len() && (#[trigger] table.drop_first()[i]).0 == c
                    && table.drop_first()[i].1 == code_of(table.drop_first(), c);
            assert(table[i + 1].0 == c && table[i + 1].1 == code_of(table, c));
        }
    }
}

/// While walking the bits of entry `i`'s code, no shorter accumulation
/// matches a table entry, and the full code matches exactly entry `i`.
proof fn lemma_walk_code(table: Seq<(char, Seq<bool>)>, i: int, rest: Seq<bool>, j: int)
    requires
        table_ok(table),
        0 <= i < table.len(),
        0 <= j < table[i].1.len(),
    ensures
        walk_bits(table, table[i].1.skip(j) + rest, table[i].1.take(j)) == (match walk_bits(
            table,
            rest,
            Seq::empty(),
        ) {
            Result::Ok(r) => Result::<Seq<char>, HuffError>::Ok(seq![table[i].0] + r),
            Result::Err(e) => Result::Err(e),
        }),
    decreases table[i].1.len() - j,
{
    let code = table[i].1;
    let bits = code.skip(j) + rest;
    assert(bits.len() > 0);
    assert(bits[0] == code[j]) by {
        assert(code.skip(j)[0] == code[j]);
    }
    let acc1 = code.take(j).push(code[j]);
    assert(acc1 =~= code.take(j + 1));
    if j + 1 < code.len() {
        assert(tbl_find(table, acc1) is None) by {
            assert forall|m: int| 0 <= m < table.len() implies (#[trigger] table[m]).1
                != acc1 by {
                if table[m].1 == acc1 {
                    assert(table[m].1.is_prefix_of(code)) by {
                        assert(acc1 =~= code.subrange(0, j + 1));
                    }
                    if m == i {
                        assert(table[m].1.len() == j + 1);
                    }
                }
            }
            lemma_tbl_find_absent(table, acc1);
        }
        assert(bits.drop_first() =~= code.skip(j + 1) + rest);
        lemma_walk_code(table, i, rest, j + 1);
    } else {
        assert(acc1 =~= code);
        assert(tbl_find(table, code) == Option::Some(table[i].0)) by {
            assert forall|m: int| 0 <= m < i implies (#[trigger] table[m]).1 != code by {
                if table[m].1 == code {
                    assert(table[m].1.is_prefix_of(table[i].1)) by {
                        assert(table[m].1 =~= table[i].1.subrange(0, table[m].1.len() as int));
                    }
                }
            }
            lemma_tbl_find_at(table, code, i);
        }
        assert(bits.drop_first() =~= rest) by {
            assert(code.skip(j).len() == 1);
        }
    }
}

/// Walking the concatenated codes of `s` against a decodable table that
/// covers every symbol of `s` recovers `s` exactly.
proof fn lemma_walk_payload(table: Seq<(char, Seq<bool>)>, s: Seq<char>)
    requires
        table_ok(table),
        forall|k: int| 0 <= k < s.len() ==> tbl_lookup(table, #[trigger] s[k]) is Some,
    ensures
        walk_bits(table, payload_bits(s, table), Seq::empty()) == Result::<
            Seq<char>,
            HuffError,
        >::Ok(s),
    decreases s.len(),
{
    if s.len() == 0 {
        assert(payload_bits(s, table).len() == 0);
        assert(walk_bits(table, payload_bits(s, table), Seq::empty()) == Result::<
            Seq<char>,
            HuffError,
        >::Ok(Seq::<char>::empty()));
        assert(Seq::<char>::empty() =~= s);
    } else {
        let c = s[0];
        assert(tbl_lookup(table, c) is Some);
        lemma_tbl_lookup_index(table, c);
        let i = choose|i: int|
            0 <= i < table.len() && (#[trigger] table[i]).0 == c && table[i].1 == code_of(
                table,
                c,
            );
        let code = table[i].1;
        let rest = payload_bits(s.drop_first(), table);
        assert(code.len() >= 1);
        assert(code.skip(0) =~= code);
        assert(code.take(0) =~= Seq::<bool>::empty());
        lemma_walk_code(table, i, rest, 0);
        assert(payload_bits(s, table) == code + rest);
        assert forall|k: int|
            0 <= k < s.drop_first().len() implies tbl_lookup(
            table,
            #[trigger] s.drop_first()[k],
        ) is Some by {
            assert(s.drop_first()[k] == s[k + 1]);
        }
        lemma_walk_payload(table, s.drop_first());
        assert(seq![c] + s.drop_first() =~= s);
    }
}

/// Serialized entries parse back to exactly the table they came from,
/// wherever they sit in a longer byte sequence.
proof fn lemma_parse_entries_roundtrip(table: Seq<(char, Seq<bool>)>, bytes: Seq<u8>, pos: int)
    requires
        0 <= pos,
        pos + serialize_entries(table).len() <= bytes.len(),
        bytes.subrange(pos, pos + serialize_entries(table).len() as int) == serialize_entries(
            table,
        ),
        forall|i: int| 0 <= i < table.len() ==> (#[trigger] table[i]).1.len() <= 0xFFFF,
    ensures
        parse_entries(bytes, pos, table.len() as int) == Result::<
            (Seq<(char, Seq<bool>)>, int),
            HuffError,
        >::Ok((table, pos + serialize_entries(table).len())),
    decreases table.len(),
{
    let ser = serialize_entries(table);
    if table.len() == 0 {
        assert(table =~= Seq::<(char, Seq<bool>)>::empty());
    } else {
        let c = table[0].0;
        let code = table[0].1;
        let e0 = serialize_entry(c, code);
        let tail = serialize_entries(table.drop_first());
        assert(ser == e0 + tail);
        let nb = num_bytes_for(code.len() as int);
        assert(pack_bits(code).len() == nb);
        assert(e0.len() == 6 + nb);
        assert forall|k: int| 0 <= k < e0.len() implies bytes[pos + k] == e0[k] by {
            assert(ser[k] == e0[k]);
            assert(bytes.subrange(pos, pos + ser.len() as int)[k] == bytes[pos + k]);
        }
        assert(bytes[pos] == le32_bytes(c as u32)[0] && bytes[pos + 1] == le32_bytes(c as u32)[1]
            && bytes[pos + 2] == le32_bytes(c as u32)[2] && bytes[pos + 3] == le32_bytes(
            c as u32,
        )[3]) by {
            assert(e0[0] == le32_bytes(c as u32)[0]);
            assert(e0[1] == le32_bytes(c as u32)[1]);
            assert(e0[2] == le32_bytes(c as u32)[2]);
            assert(e0[3] == le32_bytes(c as u32)[3]);
        }
        let cp = parse_le32(bytes[pos], bytes[pos + 1], bytes[pos + 2], bytes[pos + 3]);
        assert(cp == c as u32) by {
            lemma_le32_roundtrip(c as u32);
        }
        assert(vstd::utf8::is_scalar(cp)) by {
            vstd::utf8::char_is_scalar(c);
        }
        assert((cp as char) == c) by {
            vstd::utf8::char_u32_cast(c, cp);
        }
        let bl16 = code.len() as u16;
        assert(bytes[pos + 4] == le16_bytes(bl16)[0] && bytes[pos + 5] == le16_bytes(bl16)[1])
            by {
            assert(e0[4] == le16_bytes(bl16)[0]);
            assert(e0[5] == le16_bytes(bl16)[1]);
        }
        let bl = parse_le16(bytes[pos + 4], bytes[pos + 5]) as int;
        assert(bl == code.len()) by {
            lemma_le16_roundtrip(bl16);
        }
        let spec_code = Seq::new(bl as nat, |k: int| byte_bit(bytes[pos + 6 + k / 8], k % 8));
        assert(spec_code =~= code) by {
            assert forall|k: int| 0 <= k < bl implies byte_bit(bytes[pos + 6 + k / 8], k % 8)
                == code[k] by {
                assert(8 * nb >= bl) by {
                    assert(code.len() as int + 7 == 8 * ((code.len() as int + 7) / 8) + (
                    code.len() as int + 7) % 8);
                }
                assert(k / 8 < nb) by {
                    assert(k == 8 * (k / 8) + k % 8);
                    assert(8 * (k / 8) <= k < 8 * nb);
                }
                assert(bytes[pos + 6 + k / 8] == pack_bits(code)[k / 8]) by {
                    assert(e0[6 + k / 8] == pack_bits(code)[k / 8]);
                }
                lemma_pack_bits_extract(code, k / 8, k % 8);
                assert(8 * (k / 8) + k % 8 == k);
            }
        }
        let pos1 = pos + 6 + nb;
        assert(bytes.subrange(pos1, pos1 + tail.len() as int) == tail) by {
            assert forall|k: int| 0 <= k < tail.len() implies bytes.subrange(
                pos1,
                pos1 + tail.len() as int,
            )[k] == tail[k] by {
                assert(bytes.subrange(pos1, pos1 + tail.len() as int)[k] == bytes[pos1 + k]);
                assert(bytes.subrange(pos, pos + ser.len() as int)[e0.len() + k] == bytes[pos1
                    + k]);
                assert(ser[e0.len() + k] == tail[k]);
            }
            assert(bytes.subrange(pos1, pos1 + tail.len() as int) =~= tail);
        }
        assert forall|i: int|
            0 <= i < table.drop_first().len() implies (#[trigger] table.drop_first()[i]).1.len()
            <= 0xFFFF by {
            assert(table.drop_first()[i] == table[i + 1]);
        }
        lemma_parse_entries_roundtrip(table.drop_first(), bytes, pos1);
        assert(seq![(c, code)] + table.drop_first() =~= table);
    }
}

/// Decoding inverts encoding: for every text within the format limits, the
/// artifact that encoding yields decodes back to exactly that text.
pub proof fn lemma_round_trip(s: Seq<char>)
    requires
        encode_fits(s),
    ensures
        spec_decode(spec_encode(s)) == Result::<Seq<char>, HuffError>::Ok(s),
{
    let table = spec_table(s);
    lemma_spec_table_props(s);
    let payload = payload_bits(s, table);
    let hdr = spec_header(table);
    let bytes = spec_encode(s);
    let pre = sig_bytes() + seq![1u8] + le16_bytes(table.len() as u16);
    let ents = serialize_entries(table);
    assert(hdr == pre + ents);
    assert(pre.len() == 7);
    let hend = hdr.len() as int;
    let lbytes = le32_bytes(payload.len() as u32);
    let pbytes = pack_bits(payload);
    assert(bytes == hdr + lbytes + pbytes);
    assert(bytes.len() == hend + 4 + pbytes.len());

    // Signature, version and symbol count.
    assert forall|k: int| 0 <= k < 7 implies bytes[k] == pre[k] by {
        assert(hdr[k] == pre[k]);
        assert((hdr + lbytes)[k] == hdr[k]);
    }
    assert(bytes.subrange(0, 4) =~= sig_bytes()) by {
        assert(bytes[0] == pre[0] && bytes[1] == pre[1] && bytes[2] == pre[2] && bytes[3]
            == pre[3]);
    }
    assert(bytes[4] == 1) by {
        assert(pre[4] == 1u8);
    }
    assert(parse_le16(bytes[5], bytes[6]) as int == table.len()) by {
        assert(bytes[5] == le16_bytes(table.len() as u16)[0]);
        assert(bytes[6] == le16_bytes(table.len() as u16)[1]);
        lemma_le16_roundtrip(table.len() as u16);
    }

    // The entries parse back to the table.
    assert(bytes.subrange(7, 7 + ents.len() as int) == ents) by {
        assert forall|k: int| 0 <= k < ents.len() implies bytes.subrange(
            7,
            7 + ents.len() as int,
        )[k] == ents[k] by {
            assert(bytes.subrange(7, 7 + ents.len() as int)[k] == bytes[7 + k]);
            assert(hdr[7 + k] == ents[k]);
            assert((hdr + lbytes)[7 + k] == hdr[7 + k]);
        }
        assert(bytes.subrange(7, 7 + ents.len() as int) =~= ents);
    }
    assert forall|i: int| 0 <= i < table.len() implies (#[trigger] table[i]).1.len()
        <= 0xFFFF by {
        assert(table[i].1.len() <= freq_seq(s).len());
    }
    lemma_parse_entries_roundtrip(table, bytes, 7);
    assert(parse_header(bytes) == Result::<(Seq<(char, Seq<bool>)>, int), HuffError>::Ok(
        (table, hend),
    ));

    // The payload's bit count and packed bits.
    assert forall|k: int| 0 <= k < 4 implies bytes[hend + k] == lbytes[k] by {
        assert((hdr + lbytes)[hend + k] == lbytes[k]);
    }
    assert(parse_le32(bytes[hend], bytes[hend + 1], bytes[hend + 2], bytes[hend + 3]) as int
        == payload.len()) by {
        lemma_le32_roundtrip(payload.len() as u32);
    }
    assert(num_bytes_for(payload.len() as int) == pbytes.len());
    assert(payload_region_bits(bytes, hend + 4, payload.len() as int) =~= payload) by {
        assert forall|k: int| 0 <= k < payload.len() implies byte_bit(
            bytes[hend + 4 + k / 8],
            k % 8,
        ) == payload[k] by {
            assert(8 * pbytes.len() >= payload.len()) by {
                assert(payload.len() as int + 7 == 8 * ((payload.len() as int + 7) / 8) + (
                payload.len() as int + 7) % 8);
            }
            assert(k / 8 < pbytes.len()) by {
                assert(k == 8 * (k / 8) + k % 8);
                assert(8 * (k / 8) <= k < 8 * pbytes.len());
            }
            assert(bytes[hend + 4 + k / 8] == pbytes[k / 8]);
            lemma_pack_bits_extract(payload, k / 8, k % 8);
            assert(8 * (k / 8) + k % 8 == k);
        }
    }

    // Walking the payload bits recovers the text.
    assert(table_ok(table));
    assert forall|k: int| 0 <= k < s.len() implies tbl_lookup(table, #[trigger] s[k])
        is Some by {
        assert(s.contains(s[k]));
        lemma_tbl_lookup_exists(table, s[k]);
    }
    lemma_walk_payload(table, s);
}

/// In a generated code table, no entry's code is a prefix of another
/// entry's code.
pub proof fn lemma_prefix_free(s: Seq<char>)
    ensures
        forall|i: int, j: int|
            0 <= i < spec_table(s).len() && 0 <= j < spec_table(s).len() && i != j ==> !(
            #[trigger] spec_table(s)[i].1).is_prefix_of(#[trigger] spec_table(s)[j].1),
{
    lemma_spec_table_props(s);
}

/// Decoding any input whose first four bytes are not the signature fails
/// with `InvalidSignature`.
pub proof fn lemma_invalid_signature_rejected(bytes: Seq<u8>)
    requires
        bytes.len() >= 4,
        bytes.subrange(0, 4) != sig_bytes(),
    ensures
        spec_decode(bytes) == Result::<Seq<char>, HuffError>::Err(HuffError::InvalidSignature),
{
}

/// Decoding an artifact with its final byte removed fails with
/// `UnexpectedEndOfInput`: it never yields a wrong text.
pub proof fn lemma_truncation(s: Seq<char>)
    requires
        encode_fits(s),
    ensures
        spec_decode(spec_encode(s).drop_last()) == Result::<Seq<char>, HuffError>::Err(
            HuffError::UnexpectedEndOfInput,
        ),
{
    let table = spec_table(s);
    lemma_spec_table_props(s);
    let payload = payload_bits(s, table);
    let hdr = spec_header(table);
    let bytes = spec_encode(s);
    let pre = sig_bytes() + seq![1u8] + le16_bytes(table.len() as u16);
    let ents = serialize_entries(table);
    assert(hdr == pre + ents);
    assert(pre.len() == 7);
    let hend = hdr.len() as int;
    let lbytes = le32_bytes(payload.len() as u32);
    let pbytes = pack_bits(payload);
    assert(bytes == hdr + lbytes + pbytes);
    assert(bytes.len() == hend + 4 + pbytes.len());
    let cut = bytes.drop_last();
    assert(cut.len() == bytes.len() - 1);
    assert(forall|k: int| 0 <= k < cut.len() ==> cut[k] == bytes[k]);

    assert forall|k: int| 0 <= k < 7 implies bytes[k] == pre[k] by {
        assert(hdr[k] == pre[k]);
        assert((hdr + lbytes)[k] == hdr[k]);
    }
    assert(cut.subrange(0, 4) =~= sig_bytes());
    assert(cut[4] == 1) by {
        assert(pre[4] == 1u8);
    }
    assert(parse_le16(cut[5], cut[6]) as int == table.len()) by {
        assert(cut[5] == le16_bytes(table.len() as u16)[0]);
        assert(cut[6] == le16_bytes(table.len() as u16)[1]);
        lemma_le16_roundtrip(table.len() as u16);
    }
    assert(cut.subrange(7, 7 + ents.len() as int) == ents) by {
        assert forall|k: int| 0 <= k < ents.len() implies cut.subrange(
            7,
            7 + ents.len() as int,
        )[k] == ents[k] by {
            assert(cut.subrange(7, 7 + ents.len() as int)[k] == cut[7 + k]);
            assert(hdr[7 + k] == ents[k]);
            assert((hdr + lbytes)[7 + k] == hdr[7 + k]);
        }
        assert(cut.subrange(7, 7 + ents.len() as int) =~= ents);
    }
    assert forall|i: int| 0 <= i < table.len() implies (#[trigger] table[i]).1.len()
        <= 0xFFFF by {
        assert(table[i].1.len() <= freq_seq(s).len());
    }
    lemma_parse_entries_roundtrip(table, cut, 7);
    assert(parse_header(cut) == Result::<(Seq<(char, Seq<bool>)>, int), HuffError>::Ok(
        (table, hend),
    ));

    if pbytes.len() == 0 {
        assert(cut.len() == hend + 3);
        assert(hend + 4 > cut.len());
    } else {
        assert(hend + 4 <= cut.len());
        assert forall|k: int| 0 <= k < 4 implies cut[hend + k] == lbytes[k] by {
            assert((hdr + lbytes)[hend + k] == lbytes[k]);
        }
        assert(parse_le32(cut[hend], cut[hend + 1], cut[hend + 2], cut[hend + 3]) as int
            == payload.len()) by {
            lemma_le32_roundtrip(payload.len() as u32);
        }
        assert(num_bytes_for(payload.len() as int) == pbytes.len());
        assert(hend + 4 + pbytes.len() > cut.len());
    }
}

} // verus!
