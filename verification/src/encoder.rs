//! Serialization: turns text and its code table into the binary artifact.
//!
//! The artifact is the header — signature, version, symbol count and one
//! entry per symbol (codepoint, code bit length, packed code bits) — followed
//! by the payload: the count of meaningful bits and the packed code bits of
//! the text's symbols in text order.

use vstd::prelude::*;

use crate::HuffError;
use crate::sig_bytes;
use crate::bits::le16_bytes;
use crate::bits::le32_bytes;
use crate::bits::pack_bits;
use crate::bits::pack_bits_exec;
use crate::bits::push_le16;
use crate::bits::push_le32;
use crate::huffman_tree::build;
use crate::huffman_tree::freq_seq;
use crate::huffman_tree::generate_coding_map;
use crate::huffman_tree::lemma_spec_table_props;
use crate::huffman_tree::spec_table;
use crate::huffman_tree::table_view;

verus! {

/// The code recorded for `c`, if any.
pub open spec fn tbl_lookup(table: Seq<(char, Seq<bool>)>, c: char) -> Option<Seq<bool>>
    decreases table.len(),
{
    if table.len() == 0 {
        Option::None
    } else if table[0].0 == c {
        Option::Some(table[0].1)
    } else {
        tbl_lookup(table.drop_first(), c)
    }
}

/// The code recorded for `c`, or the empty code if `c` has no entry.
pub open spec fn code_of(table: Seq<(char, Seq<bool>)>, c: char) -> Seq<bool> {
    match tbl_lookup(table, c) {
        Option::Some(b) => b,
        Option::None => Seq::empty(),
    }
}

/// The concatenated code bits of the symbols of `s`, in text order.
pub open spec fn payload_bits(s: Seq<char>, table: Seq<(char, Seq<bool>)>) -> Seq<bool>
    decreases s.len(),
{
    if s.len() == 0 {
        Seq::empty()
    } else {
        code_of(table, s[0]) + payload_bits(s.drop_first(), table)
    }
}

/// One header entry: codepoint, code bit length, packed code bits.
pub open spec fn serialize_entry(c: char, code: Seq<bool>) -> Seq<u8> {
    le32_bytes(c as u32) + le16_bytes(code.len() as u16) + pack_bits(code)
}

/// All header entries, in table order.
pub open spec fn serialize_entries(table: Seq<(char, Seq<bool>)>) -> Seq<u8>
    decreases table.len(),
{
    if table.len() == 0 {
        Seq::empty()
    } else {
        serialize_entry(table[0].0, table[0].1) + serialize_entries(table.drop_first())
    }
}

/// The header: signature, version, symbol count and entries.
pub open spec fn spec_header(table: Seq<(char, Seq<bool>)>) -> Seq<u8> {
    sig_bytes() + seq![1u8] + le16_bytes(table.len() as u16) + serialize_entries(table)
}

/// The whole artifact for text `s` under code table `table`.
pub open spec fn spec_encode_with(s: Seq<char>, table: Seq<(char, Seq<bool>)>) -> Seq<u8> {
    spec_header(table) + le32_bytes(payload_bits(s, table).len() as u32) + pack_bits(
        payload_bits(s, table),
    )
}

/// The artifact that encoding yields for `s`.
pub open spec fn spec_encode(s: Seq<char>) -> Seq<u8> {
    spec_encode_with(s, spec_table(s))
}

/// The format limits: at most `u16::MAX` distinct symbols, at most
/// `u32::MAX` payload bits.
pub open spec fn encode_fits(s: Seq<char>) -> bool {
    &&& freq_seq(s).len() <= 0xFFFF
    &&& payload_bits(s, spec_table(s)).len() <= 0xFFFFFFFF
}

pub proof fn lemma_payload_snoc(s: Seq<char>, table: Seq<(char, Seq<bool>)>, c: char)
    ensures
        payload_bits(s.push(c), table) == payload_bits(s, table) + code_of(table, c),
    decreases s.len(),
{
    if s.len() == 0 {
        assert(s.push(c).drop_first() =~= s);
        assert(payload_bits(s.push(c), table) =~= payload_bits(s, table) + code_of(table, c));
    } else {
        assert(s.push(c).drop_first() =~= s.drop_first().push(c));
        lemma_payload_snoc(s.drop_first(), table, c);
        assert(payload_bits(s.push(c), table) =~= payload_bits(s, table) + code_of(table, c));
    }
}

pub proof fn lemma_serialize_entries_snoc(table: Seq<(char, Seq<bool>)>, c: char, code: Seq<bool>)
    ensures
        serialize_entries(table.push((c, code))) == serialize_entries(table) + serialize_entry(
            c,
            code,
        ),
    decreases table.len(),
{
    if table.len() == 0 {
        assert(table.push((c, code)).drop_first() =~= table);
        assert(serialize_entries(table.push((c, code))) =~= serialize_entries(table)
            + serialize_entry(c, code));
    } else {
        assert(table.push((c, code)).drop_first() =~= table.drop_first().push((c, code)));
        lemma_serialize_entries_snoc(table.drop_first(), c, code);
        assert(serialize_entries(table.push((c, code))) =~= serialize_entries(table)
            + serialize_entry(c, code));
    }
}

/// Where a scan finds `c` first at `i`, the lookup returns that entry.
pub proof fn lemma_tbl_lookup_at(table: Seq<(char, Seq<bool>)>, c: char, i: int)
    requires
        0 <= i < table.len(),
        table[i].0 == c,
        forall|m: int| 0 <= m < i ==> (#[trigger] table[m]).0 != c,
    ensures
        tbl_lookup(table, c) == Option::Some(table[i].1),
    decreases i,
{
    if i > 0 {
        lemma_tbl_lookup_at(table.drop_first(), c, i - 1);
        assert(table.drop_first()[i - 1] == table[i]);
        assert(forall|m: int|
            0 <= m < i - 1 ==> (#[trigger] table.drop_first()[m]).0 != c);
    }
}

/// Where no entry carries `c`, the lookup fails.
pub proof fn lemma_tbl_lookup_absent(table: Seq<(char, Seq<bool>)>, c: char)
    requires
        forall|m: int| 0 <= m < table.len() ==> (#[trigger] table[m]).0 != c,
    ensures
        tbl_lookup(table, c) is None,
    decreases table.len(),
{
    if table.len() > 0 {
        assert(forall|m: int|
            0 <= m < table.drop_first().len() ==> (#[trigger] table.drop_first()[m]).0 != c);
        lemma_tbl_lookup_absent(table.drop_first(), c);
    }
}

/// Where some entry carries `c`, the lookup succeeds.
pub proof fn lemma_tbl_lookup_exists(table: Seq<(char, Seq<bool>)>, c: char)
    requires
        exists|k: int| 0 <= k < table.len() && (#[trigger] table[k]).0 == c,
    ensures
        tbl_lookup(table, c) is Some,
    decreases table.len(),
{
    if table.len() > 0 && table[0].0 != c {
        let k = choose|k: int| 0 <= k < table.len() && (#[trigger] table[k]).0 == c;
        assert(table.drop_first()[k - 1] == table[k]);
        lemma_tbl_lookup_exists(table.drop_first(), c);
    }
}

/// Finds the entry for `c` in the executable code table.
fn lookup_code(map: &Vec<(char, Vec<bool>)>, c: char) -> (r: Option<usize>)
    ensures
        match r {
            Option::Some(i) => i < map@.len() && map@[i as int].0 == c && tbl_lookup(
                table_view(map@),
                c,
            ) == Option::Some(map@[i as int].1@),
            Option::None => tbl_lookup(table_view(map@), c) is None,
        },
{
    let mut j: usize = 0;
    while j < map.len()
        invariant
            j <= map@.len(),
            forall|m: int| 0 <= m < j ==> (#[trigger] map@[m]).0 != c,
        decreases map@.len() - j,
    {
        if map[j].0 == c {
            proof {
                lemma_tbl_lookup_at(table_view(map@), c, j as int);
            }
            return Some(j);
        }
        j = j + 1;
    }
    proof {
        lemma_tbl_lookup_absent(table_view(map@), c);
    }
    None
}

/// Serializes the header for a code table.
pub fn write_header(code_map: &Vec<(char, Vec<bool>)>) -> (r: Vec<u8>)
    requires
        code_map@.len() <= 0xFFFF,
        forall|i: int| 0 <= i < code_map@.len() ==> (#[trigger] code_map@[i]).1@.len() <= 0xFFFF,
    ensures
        r@ == spec_header(table_view(code_map@)),
{
    let ghost table = table_view(code_map@);
    let mut out: Vec<u8> = Vec::new();
    out.push(0x43);
    out.push(0x43);
    out.push(0x48);
    out.push(0x46);
    out.push(1);
    push_le16(&mut out, code_map.len() as u16);
    proof {
        assert(out@ =~= sig_bytes() + seq![1u8] + le16_bytes(table.len() as u16));
    }
    let ghost prefix = out@;
    let mut i: usize = 0;
    while i < code_map.len()
        invariant
            i <= code_map@.len(),
            table == table_view(code_map@),
            forall|m: int| 0 <= m < code_map@.len() ==> (#[trigger] code_map@[m]).1@.len()
                <= 0xFFFF,
            prefix == sig_bytes() + seq![1u8] + le16_bytes(table.len() as u16),
            out@ == prefix + serialize_entries(table.take(i as int)),
        decreases code_map@.len() - i,
    {
        let c = code_map[i].0;
        push_le32(&mut out, c as u32);
        let blen = code_map[i].1.len();
        push_le16(&mut out, blen as u16);
        let mut packed = pack_bits_exec(&code_map[i].1);
        out.append(&mut packed);
        i = i + 1;
        proof {
            let k = i as int - 1;
            assert(table.take(k + 1) =~= table.take(k).push(table[k]));
            lemma_serialize_entries_snoc(table.take(k), table[k].0, table[k].1);
            assert(table[k] == (code_map@[k].0, code_map@[k].1@));
            assert(out@ =~= prefix + serialize_entries(table.take(k + 1)));
        }
    }
    proof {
        assert(table.take(code_map@.len() as int) =~= table);
    }
    out
}

/// Packs the payload for `input`: the count of meaningful bits, then the
/// symbols' code bits in text order.  Fails with `UnknownSymbol` exactly
/// when some symbol of the text has no entry in the table.
pub fn write_data(code_map: &Vec<(char, Vec<bool>)>, input: &str) -> (r: Result<
    Vec<u8>,
    HuffError,
>)
    requires
        payload_bits(input@, table_view(code_map@)).len() <= 0xFFFFFFFF,
    ensures
        r is Ok <==> (forall|k: int|
            0 <= k < input@.len() ==> tbl_lookup(table_view(code_map@), #[trigger] input@[k])
                is Some),
        r matches Ok(b) ==> b@ == le32_bytes(
            payload_bits(input@, table_view(code_map@)).len() as u32,
        ) + pack_bits(payload_bits(input@, table_view(code_map@))),
        r is Err ==> r == Result::<Vec<u8>, HuffError>::Err(HuffError::UnknownSymbol),
{
    let ghost table = table_view(code_map@);
    let n: usize = input.unicode_len();
    let mut bitvec: Vec<bool> = Vec::new();
    let mut i: usize = 0;
    while i < n
        invariant
            n == input@.len(),
            i <= n,
            table == table_view(code_map@),
            bitvec@ == payload_bits(input@.take(i as int), table),
            forall|k: int| 0 <= k < i ==> tbl_lookup(table, #[trigger] input@[k]) is Some,
        decreases n - i,
    {
        let c = input.get_char(i);
        match lookup_code(code_map, c) {
            None => {
                return Err(HuffError::UnknownSymbol);
            },
            Some(idx) => {
                let code = &code_map[idx].1;
                let mut j: usize = 0;
                let ghost before = bitvec@;
                while j < code.len()
                    invariant
                        j <= code@.len(),
                        bitvec@ == before + code@.take(j as int),
                    decreases code@.len() - j,
                {
                    bitvec.push(code[j]);
                    j = j + 1;
                    proof {
                        assert(before + code@.take(j as int) =~= (before + code@.take(
                            j as int - 1,
                        )).push(code@[j as int - 1]));
                    }
                }
                proof {
                    assert(code@.take(code@.len() as int) =~= code@);
                    assert(input@.take(i as int + 1) =~= input@.take(i as int).push(
                        input@[i as int],
                    ));
                    lemma_payload_snoc(input@.take(i as int), table, input@[i as int]);
                    assert(code_of(table, c) == code@);
                }
                i = i + 1;
            },
        }
    }
    proof {
        assert(input@.take(n as int) =~= input@);
    }
    let mut out: Vec<u8> = Vec::new();
    push_le32(&mut out, bitvec.len() as u32);
    let mut packed = pack_bits_exec(&bitvec);
    out.append(&mut packed);
    proof {
        assert(out@ =~= le32_bytes(payload_bits(input@, table).len() as u32) + pack_bits(
            payload_bits(input@, table),
        ));
    }
    Ok(out)
}

/// Serializes header and payload for `input` under `code_map`.
pub fn write(input: &str, code_map: &Vec<(char, Vec<bool>)>) -> (r: Result<Vec<u8>, HuffError>)
    requires
        code_map@.len() <= 0xFFFF,
        forall|i: int| 0 <= i < code_map@.len() ==> (#[trigger] code_map@[i]).1@.len() <= 0xFFFF,
        payload_bits(input@, table_view(code_map@)).len() <= 0xFFFFFFFF,
    ensures
        r is Ok <==> (forall|k: int|
            0 <= k < input@.len() ==> tbl_lookup(table_view(code_map@), #[trigger] input@[k])
                is Some),
        r matches Ok(b) ==> b@ == spec_encode_with(input@, table_view(code_map@)),
        r is Err ==> r == Result::<Vec<u8>, HuffError>::Err(HuffError::UnknownSymbol),
{
    let mut out = write_header(code_map);
    match write_data(code_map, input) {
        Ok(mut data) => {
            out.append(&mut data);
            proof {
                assert(out@ =~= spec_encode_with(input@, table_view(code_map@)));
            }
            Ok(out)
        },
        Err(e) => Err(e),
    }
}

/// Encodes `input` into a self-describing artifact: header and packed
/// payload.  Succeeds on every text within the format limits.
pub fn encode(input: &str) -> (r: Result<Vec<u8>, HuffError>)
    requires
        encode_fits(input@),
    ensures
        r matches Ok(b) && b@ == spec_encode(input@),
{
    let code_map: Vec<(char, Vec<bool>)> = match build(input) {
        None => Vec::new(),
        Some(root) => {
            proof {
                crate::huffman_tree::lemma_freq_seq_props(input@);
                crate::huffman_tree::lemma_leaves_of_table_props(freq_seq(input@));
                assert(freq_seq(input@).len() >= 1) by {
                    if freq_seq(input@).len() == 0 {
                        assert(crate::huffman_tree::sum_counts(freq_seq(input@)) == 0);
                    }
                }
                crate::huffman_tree::lemma_build_tree_props(
                    crate::huffman_tree::spec_leaves(input@),
                );
            }
            generate_coding_map(root)
        },
    };
    proof {
        lemma_spec_table_props(input@);
        assert(code_map@.len() == spec_table(input@).len());
        assert forall|i: int|
            0 <= i < code_map@.len() implies (#[trigger] code_map@[i]).1@.len() <= 0xFFFF by {
            assert(table_view(code_map@)[i] == (code_map@[i].0, code_map@[i].1@));
            assert(spec_table(input@)[i].1.len() <= freq_seq(input@).len());
        }
        assert(table_view(code_map@) == spec_table(input@)) by {
            if input@.len() == 0 {
                assert(freq_seq(input@).len() == 0);
                assert(table_view(code_map@) =~= spec_table(input@));
            }
        }
        assert forall|k: int|
            0 <= k < input@.len() implies tbl_lookup(
            table_view(code_map@),
            #[trigger] input@[k],
        ) is Some by {
            assert(input@.contains(input@[k]));
            lemma_tbl_lookup_exists(spec_table(input@), input@[k]);
        }
    }
    let r = write(input, &code_map);
    proof {
        assert(r is Ok);
    }
    r
}


proof fn lemma_payload_take_le(s: Seq<char>, table: Seq<(char, Seq<bool>)>, i: int)
    requires
        0 <= i <= s.len(),
    ensures
        payload_bits(s.take(i), table).len() <= payload_bits(s, table).len(),
    decreases s.len() - i,
{
    if i == s.len() {
        assert(s.take(i) =~= s);
    } else {
        assert(s.take(i + 1) =~= s.take(i).push(s[i]));
        lemma_payload_snoc(s.take(i), table, s[i]);
        lemma_payload_take_le(s, table, i + 1);
    }
}

/// Whether `input` lies within the format limits, so that `encode` accepts
/// it: at most `u16::MAX` distinct symbols and at most `u32::MAX` payload
/// bits.
pub fn encode_fits_exec(input: &str) -> (b: bool)
    ensures
        b == encode_fits(input@),
{
    let code_map: Vec<(char, Vec<bool>)> = match build(input) {
        None => Vec::new(),
        Some(root) => {
            proof {
                crate::huffman_tree::lemma_freq_seq_props(input@);
                crate::huffman_tree::lemma_leaves_of_table_props(freq_seq(input@));
                assert(freq_seq(input@).len() >= 1) by {
                    if freq_seq(input@).len() == 0 {
                        assert(crate::huffman_tree::sum_counts(freq_seq(input@)) == 0);
                    }
                }
                crate::huffman_tree::lemma_build_tree_props(
                    crate::huffman_tree::spec_leaves(input@),
                );
            }
            generate_coding_map(root)
        },
    };
    let ghost table = spec_table(input@);
    proof {
        lemma_spec_table_props(input@);
        assert(table_view(code_map@) == table) by {
            if input@.len() == 0 {
                assert(freq_seq(input@).len() == 0);
                assert(table_view(code_map@) =~= table);
            }
        }
    }
    if code_map.len() > 0xFFFF {
        return false;
    }
    let n: usize = input.unicode_len();
    let mut total: u64 = 0;
    let mut i: usize = 0;
    while i < n
        invariant
            n == input@.len(),
            i <= n,
            table == spec_table(input@),
            table == table_view(code_map@),
            total == payload_bits(input@.take(i as int), table).len(),
            total <= 0xFFFFFFFFu64 + 0xFFFF,
            table.len() <= 0xFFFF,
            forall|m: int| 0 <= m < table.len() ==> (#[trigger] table[m]).1.len() <= table.len(),
        decreases n - i,
    {
        if total > 0xFFFFFFFF {
            proof {
                lemma_payload_take_le(input@, table, i as int);
            }
            return false;
        }
        let c = input.get_char(i);
        proof {
            lemma_spec_table_props(input@);
            assert(input@.contains(input@[i as int]));
            lemma_tbl_lookup_exists(table, input@[i as int]);
        }
        match lookup_code(&code_map, c) {
            None => {
                proof {
                    assert(false);
                }
                return false;
            },
            Some(idx) => {
                let clen = code_map[idx].1.len();
                proof {
                    assert(table[idx as int].1 == code_map@[idx as int].1@);
                    assert(input@.take(i as int + 1) =~= input@.take(i as int).push(
                        input@[i as int],
                    ));
                    lemma_payload_snoc(input@.take(i as int), table, input@[i as int]);
                    assert(code_of(table, c) == code_map@[idx as int].1@);
                }
                total = total + clen as u64;
                i = i + 1;
            },
        }
    }
    proof {
        assert(input@.take(n as int) =~= input@);
    }
    total <= 0xFFFFFFFF
}

} // verus!
