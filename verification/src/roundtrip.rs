//! The round-trip laws: decoding an encoded tree gives the tree back, and
//! re-encoding a decoded tree loses nothing.

use vstd::prelude::*;
use vstd::utf8::decode_utf8;
use vstd::utf8::decode_utf8_encode_utf8;
use vstd::utf8::encode_utf8;
use vstd::utf8::encode_utf8_decode_utf8;
use vstd::utf8::encode_utf8_valid_utf8;
use vstd::utf8::valid_utf8;

use crate::bdecoder::lemma_find_byte_at;
use crate::bdecoder::lemma_find_byte_range;
use crate::bdecoder::lemma_find_non_digit_at;
use crate::bdecoder::lemma_find_non_digit_range;
use crate::bdecoder::spec_insert;
use crate::bdecoder::spec_parse_entries;
use crate::bdecoder::spec_parse_items;
use crate::bdecoder::spec_parse_value;
use crate::bdecoder::ParseFault;
use crate::bencoder::spec_encode;
use crate::bencoder::spec_encode_bytes;
use crate::bencoder::spec_encode_entries;
use crate::bencoder::spec_encode_items;
use crate::bvalue::distinct_keys;
use crate::bvalue::producible;
use crate::bvalue::SpecValue;
use crate::bvalue::TOKEN_COLON;
use crate::bvalue::TOKEN_DICTIONARY;
use crate::bvalue::TOKEN_END;
use crate::bvalue::TOKEN_INTEGER;
use crate::bvalue::TOKEN_LIST;
use crate::decimal::idec;
use crate::decimal::is_digit;
use crate::decimal::lemma_idec;
use crate::decimal::lemma_udec;
use crate::decimal::udec;
use crate::decimal::MINUS;

verus! {

/// The weight of a tree, for induction over parse results.
spec fn sv_size(v: SpecValue) -> nat
    decreases v,
{
    match v {
        SpecValue::Dictionary(entries) => 1 + ents_size(entries),
        SpecValue::List(items) => 1 + items_size(items),
        SpecValue::String(_) => 1,
        SpecValue::Integer(_) => 1,
    }
}

/// The combined weight of list elements.
spec fn items_size(items: Seq<SpecValue>) -> nat
    decreases items,
{
    if items.len() == 0 {
        0
    } else {
        sv_size(items[0]) + items_size(items.drop_first())
    }
}

/// The combined weight of dictionary entries.
spec fn ents_size(entries: Seq<(Seq<char>, SpecValue)>) -> nat
    decreases entries,
{
    if entries.len() == 0 {
        0
    } else {
        1 + sv_size(entries[0].1) + ents_size(entries.drop_first())
    }
}

proof fn lemma_sv_size_pos(v: SpecValue)
    ensures
        sv_size(v) >= 1,
{
    match v {
        SpecValue::Dictionary(_) => {},
        SpecValue::List(_) => {},
        SpecValue::String(_) => {},
        SpecValue::Integer(_) => {},
    }
}

/// Each byte of an embedded encoding can be read off the surrounding input.
proof fn lemma_subrange_index(s: Seq<u8>, pos: int, enc: Seq<u8>)
    requires
        0 <= pos,
        pos + enc.len() <= s.len(),
        s.subrange(pos, pos + enc.len() as int) == enc,
    ensures
        forall|k: int| 0 <= k < enc.len() ==> s[pos + k] == #[trigger] enc[k],
{
    assert forall|k: int| 0 <= k < enc.len() implies s[pos + k] == #[trigger] enc[k] by {
        assert(enc[k] == s.subrange(pos, pos + enc.len() as int)[k]);
    }
}

/// Inserting keeps the keys distinct, and every entry of the result is the
/// inserted pair or one of the old entries.
proof fn lemma_spec_insert_preserves(
    acc: Seq<(Seq<char>, SpecValue)>,
    key: Seq<char>,
    value: SpecValue,
)
    requires
        distinct_keys(acc),
    ensures
        distinct_keys(spec_insert(acc, key, value)),
        forall|i: int|
            0 <= i < spec_insert(acc, key, value).len() ==> ((#[trigger] spec_insert(
                acc,
                key,
                value,
            )[i]) == (key, value) || acc.contains(spec_insert(acc, key, value)[i])),
    decreases acc.len(),
{
    let res = spec_insert(acc, key, value);
    if acc.len() == 0 {
        assert(res[0] == (key, value));
    } else if acc[0].0 == key {
        assert forall|i: int| 0 <= i < res.len() implies ((#[trigger] res[i]) == (key, value)
            || acc.contains(res[i])) by {
            if i > 0 {
                assert(res[i] == acc[i]);
                assert(acc.contains(res[i]));
            }
        }
        assert forall|i: int, j: int| 0 <= i < j < res.len() implies (#[trigger] res[i].0)
            != (#[trigger] res[j].0) by {
            assert(res[j] == acc[j]);
            if i > 0 {
                assert(res[i] == acc[i]);
            } else {
                assert(res[0].0 == acc[0].0);
            }
        }
    } else {
        let drop = acc.drop_first();
        let inner = spec_insert(drop, key, value);
        lemma_spec_insert_preserves(drop, key, value);
        assert(res =~= seq![acc[0]] + inner);
        assert forall|i: int| 0 <= i < res.len() implies ((#[trigger] res[i]) == (key, value)
            || acc.contains(res[i])) by {
            if i == 0 {
                assert(res[0] == acc[0]);
                assert(acc.contains(acc[0]));
            } else {
                assert(res[i] == inner[i - 1]);
                if inner[i - 1] == (key, value) {
                } else {
                    assert(drop.contains(inner[i - 1]));
                    let w = choose|w: int| 0 <= w < drop.len() && drop[w] == inner[i - 1];
                    assert(acc[w + 1] == inner[i - 1]);
                    assert(acc.contains(res[i]));
                }
            }
        }
        assert forall|i: int, j: int| 0 <= i < j < res.len() implies (#[trigger] res[i].0)
            != (#[trigger] res[j].0) by {
            if i == 0 {
                assert(res[j] == inner[j - 1]);
                if inner[j - 1] == (key, value) {
                    assert(res[j].0 == key);
                } else {
                    assert(drop.contains(inner[j - 1]));
                    let w = choose|w: int| 0 <= w < drop.len() && drop[w] == inner[j - 1];
                    assert(acc[w + 1] == inner[j - 1]);
                    assert(acc[0].0 != acc[w + 1].0);
                }
            } else {
                assert(res[i] == inner[i - 1]);
                assert(res[j] == inner[j - 1]);
            }
        }
    }
}

/// Whatever the decoder accepts moves the cursor forward, stays inside the
/// input, and yields a tree the decoder can produce.
pub proof fn lemma_parse_value_props(s: Seq<u8>, pos: int)
    requires
        0 <= pos <= s.len(),
    ensures
        match spec_parse_value(s, pos) {
            Ok((v, end)) => pos < end <= s.len() && producible(v),
            Err(_) => true,
        },
    decreases s.len() - pos, 0int,
{
    if pos < s.len() {
        if s[pos] == TOKEN_DICTIONARY {
            lemma_parse_entries_props(s, pos + 1, Seq::empty());
        } else if s[pos] == TOKEN_INTEGER {
            lemma_find_byte_range(s, pos + 1, TOKEN_END);
        } else if s[pos] == TOKEN_LIST {
            lemma_parse_items_props(s, pos + 1, Seq::empty());
        } else if is_digit(s[pos]) {
            lemma_find_non_digit_range(s, pos);
        }
    }
}

/// The list rule, likewise: every element of an accepted list is producible.
pub proof fn lemma_parse_items_props(s: Seq<u8>, pos: int, acc: Seq<SpecValue>)
    requires
        0 <= pos <= s.len(),
        forall|i: int| 0 <= i < acc.len() ==> producible(#[trigger] acc[i]),
    ensures
        match spec_parse_items(s, pos, acc) {
            Ok((items, end)) => pos < end <= s.len() && forall|i: int|
                0 <= i < items.len() ==> producible(#[trigger] items[i]),
            Err(_) => true,
        },
    decreases s.len() - pos, 1int,
{
    if pos < s.len() && s[pos] != TOKEN_END {
        lemma_parse_value_props(s, pos);
        match spec_parse_value(s, pos) {
            Ok((v, end)) => {
                assert forall|i: int| 0 <= i < acc.push(v).len() implies producible(
                    #[trigger] acc.push(v)[i],
                ) by {
                    if i < acc.len() {
                        assert(acc.push(v)[i] == acc[i]);
                    } else {
                        assert(acc.push(v)[i] == v);
                    }
                }
                lemma_parse_items_props(s, end, acc.push(v));
            },
            Err(_) => {},
        }
    }
}

/// The dictionary rule, likewise: an accepted dictionary has distinct keys,
/// producible values, and keys whose encodings fit the machine.
pub proof fn lemma_parse_entries_props(s: Seq<u8>, pos: int, acc: Seq<(Seq<char>, SpecValue)>)
    requires
        0 <= pos <= s.len(),
        distinct_keys(acc),
        forall|i: int| 0 <= i < acc.len() ==> producible((#[trigger] acc[i]).1),
        forall|i: int| 0 <= i < acc.len() ==> encode_utf8((#[trigger] acc[i]).0).len() <= usize::MAX,
    ensures
        match spec_parse_entries(s, pos, acc) {
            Ok((entries, end)) => {
                &&& pos < end <= s.len()
                &&& distinct_keys(entries)
                &&& forall|i: int| 0 <= i < entries.len() ==> producible((#[trigger] entries[i]).1)
                &&& forall|i: int|
                    0 <= i < entries.len() ==> encode_utf8((#[trigger] entries[i]).0).len()
                        <= usize::MAX
            },
            Err(_) => true,
        },
    decreases s.len() - pos, 1int,
{
    if pos < s.len() && s[pos] != TOKEN_END {
        lemma_parse_value_props(s, pos);
        match spec_parse_value(s, pos) {
            Err(_) => {},
            Ok((k, kend)) => {
                match k {
                    SpecValue::String(kb) => {
                        if valid_utf8(kb) {
                            lemma_parse_value_props(s, kend);
                            match spec_parse_value(s, kend) {
                                Err(_) => {},
                                Ok((v, vend)) => {
                                    let key = decode_utf8(kb);
                                    decode_utf8_encode_utf8(kb);
                                    assert(encode_utf8(key).len() == kb.len());
                                    let newacc = spec_insert(acc, key, v);
                                    lemma_spec_insert_preserves(acc, key, v);
                                    assert forall|i: int| 0 <= i < newacc.len() implies producible(
                                        (#[trigger] newacc[i]).1,
                                    ) by {
                                        if newacc[i] == (key, v) {
                                        } else {
                                            assert(acc.contains(newacc[i]));
                                            let w = choose|w: int|
                                                0 <= w < acc.len() && acc[w] == newacc[i];
                                            assert(producible(acc[w].1));
                                        }
                                    }
                                    assert forall|i: int| 0 <= i < newacc.len() implies encode_utf8(
                                        (#[trigger] newacc[i]).0,
                                    ).len() <= usize::MAX by {
                                        if newacc[i] == (key, v) {
                                        } else {
                                            assert(acc.contains(newacc[i]));
                                            let w = choose|w: int|
                                                0 <= w < acc.len() && acc[w] == newacc[i];
                                            assert(encode_utf8(acc[w].0).len() <= usize::MAX);
                                        }
                                    }
                                    lemma_parse_entries_props(s, vend, newacc);
                                },
                            }
                        }
                    },
                    _ => {},
                }
            },
        }
    }
}

/// Every encoding is at least two bytes long and starts with a byte that
/// dispatch accepts; none starts with the terminator.
proof fn lemma_encode_first(v: SpecValue)
    ensures
        spec_encode(v).len() >= 2,
        spec_encode(v)[0] == TOKEN_DICTIONARY || spec_encode(v)[0] == TOKEN_INTEGER || spec_encode(
            v,
        )[0] == TOKEN_LIST || is_digit(spec_encode(v)[0]),
{
    match v {
        SpecValue::Dictionary(entries) => {
            assert(spec_encode(v)[0] == TOKEN_DICTIONARY);
        },
        SpecValue::List(items) => {
            assert(spec_encode(v)[0] == TOKEN_LIST);
        },
        SpecValue::String(bytes) => {
            lemma_udec(bytes.len());
            assert(spec_encode(v)[0] == udec(bytes.len())[0]);
            assert(is_digit(udec(bytes.len())[0]));
        },
        SpecValue::Integer(i) => {
            assert(spec_encode(v)[0] == TOKEN_INTEGER);
        },
    }
}

/// An encoding embedded in a larger input parses to exactly the encoded
/// tree, consuming exactly the encoding.
proof fn lemma_parse_encoded_value(s: Seq<u8>, pos: int, v: SpecValue)
    requires
        producible(v),
        0 <= pos,
        pos + spec_encode(v).len() <= s.len(),
        s.subrange(pos, pos + spec_encode(v).len() as int) == spec_encode(v),
    ensures
        spec_parse_value(s, pos) == Ok::<(SpecValue, int), (ParseFault, int)>(
            (v, pos + spec_encode(v).len() as int),
        ),
    decreases sv_size(v), 0int,
{
    let enc = spec_encode(v);
    lemma_subrange_index(s, pos, enc);
    lemma_encode_first(v);
    assert(s[pos] == enc[0]);
    match v {
        SpecValue::Integer(i) => {
            lemma_idec(i);
            let body = idec(i);
            assert(enc == seq![TOKEN_INTEGER] + body + seq![TOKEN_END]);
            assert(enc.len() == body.len() + 2);
            assert(enc[0] == TOKEN_INTEGER);
            let j = pos + 1 + body.len() as int;
            assert forall|k: int| pos + 1 <= k < j implies s[k] != TOKEN_END by {
                let m = k - pos - 1;
                assert(enc[m + 1] == body[m]);
                assert(s[k] == enc[m + 1]);
                assert(idec(i)[m] == MINUS || is_digit(idec(i)[m]));
            }
            assert(enc[body.len() as int + 1] == TOKEN_END);
            assert(s[j] == TOKEN_END);
            lemma_find_byte_at(s, pos + 1, TOKEN_END, j);
            assert(s.subrange(pos + 1, j) =~= body) by {
                assert forall|k: int| 0 <= k < body.len() implies s.subrange(pos + 1, j)[k]
                    == body[k] by {
                    assert(enc[k + 1] == body[k]);
                    assert(s[pos + 1 + k] == enc[k + 1]);
                    assert(s.subrange(pos + 1, j)[k] == s[pos + 1 + k]);
                }
            }
            assert(spec_parse_value(s, pos) == Ok::<(SpecValue, int), (ParseFault, int)>(
                (v, pos + enc.len() as int),
            ));
        },
        SpecValue::String(b) => {
            lemma_udec(b.len());
            let lend = udec(b.len());
            assert(enc == lend + seq![TOKEN_COLON] + b);
            assert(enc.len() == lend.len() + 1 + b.len());
            let j = pos + lend.len() as int;
            assert(enc[0] == lend[0]);
            assert(is_digit(s[pos]));
            assert forall|k: int| pos <= k < j implies is_digit(#[trigger] s[k]) by {
                let m = k - pos;
                assert(enc[m] == udec(b.len())[m]);
                assert(s[pos + m] == enc[m]);
                assert(is_digit(udec(b.len())[m]));
            }
            assert(enc[lend.len() as int] == TOKEN_COLON);
            assert(s[j] == TOKEN_COLON);
            assert(!is_digit(TOKEN_COLON));
            lemma_find_non_digit_at(s, pos, j);
            assert(s.subrange(pos, j) =~= lend) by {
                assert forall|k: int| 0 <= k < lend.len() implies s.subrange(pos, j)[k]
                    == lend[k] by {
                    assert(enc[k] == udec(b.len())[k]);
                    assert(s[pos + k] == enc[k]);
                    assert(s.subrange(pos, j)[k] == s[pos + k]);
                }
            }
            assert(s.subrange(j + 1, j + 1 + b.len() as int) =~= b) by {
                assert forall|k: int| 0 <= k < b.len() implies s.subrange(
                    j + 1,
                    j + 1 + b.len() as int,
                )[k] == b[k] by {
                    assert(enc[lend.len() + 1 + k] == b[k]);
                    assert(s[pos + (lend.len() + 1 + k)] == enc[lend.len() + 1 + k]);
                    assert(s.subrange(j + 1, j + 1 + b.len() as int)[k] == s[j + 1 + k]);
                }
            }
            assert(spec_parse_value(s, pos) == Ok::<(SpecValue, int), (ParseFault, int)>(
                (v, pos + enc.len() as int),
            ));
        },
        SpecValue::List(items) => {
            let inner = spec_encode_items(items);
            assert(enc == seq![TOKEN_LIST] + inner + seq![TOKEN_END]);
            assert(enc[0] == TOKEN_LIST);
            assert(s.subrange(pos + 1, pos + 1 + inner.len() as int) =~= inner) by {
                assert forall|k: int| 0 <= k < inner.len() implies s.subrange(
                    pos + 1,
                    pos + 1 + inner.len() as int,
                )[k] == inner[k] by {
                    assert(enc[k + 1] == inner[k]);
                    assert(s[pos + (k + 1)] == enc[k + 1]);
                    assert(s.subrange(pos + 1, pos + 1 + inner.len() as int)[k] == s[pos + 1 + k]);
                }
            }
            assert(enc[inner.len() as int + 1] == TOKEN_END);
            assert(s[pos + 1 + inner.len()] == TOKEN_END);
            lemma_parse_encoded_items(s, pos + 1, items, Seq::empty());
            assert(Seq::empty() + items =~= items);
            assert(spec_parse_value(s, pos) == Ok::<(SpecValue, int), (ParseFault, int)>(
                (v, pos + enc.len() as int),
            ));
        },
        SpecValue::Dictionary(entries) => {
            let inner = spec_encode_entries(entries);
            assert(enc == seq![TOKEN_DICTIONARY] + inner + seq![TOKEN_END]);
            assert(enc[0] == TOKEN_DICTIONARY);
            assert(s.subrange(pos + 1, pos + 1 + inner.len() as int) =~= inner) by {
                assert forall|k: int| 0 <= k < inner.len() implies s.subrange(
                    pos + 1,
                    pos + 1 + inner.len() as int,
                )[k] == inner[k] by {
                    assert(enc[k + 1] == inner[k]);
                    assert(s[pos + (k + 1)] == enc[k + 1]);
                    assert(s.subrange(pos + 1, pos + 1 + inner.len() as int)[k] == s[pos + 1 + k]);
                }
            }
            assert(enc[inner.len() as int + 1] == TOKEN_END);
            assert(s[pos + 1 + inner.len()] == TOKEN_END);
            assert(Seq::<(Seq<char>, SpecValue)>::empty() + entries =~= entries);
            lemma_parse_encoded_entries(s, pos + 1, entries, Seq::empty());
            assert(spec_parse_value(s, pos) == Ok::<(SpecValue, int), (ParseFault, int)>(
                (v, pos + enc.len() as int),
            ));
        },
    }
}

/// Embedded element encodings followed by the terminator parse to the
/// elements appended to the accumulator.
proof fn lemma_parse_encoded_items(s: Seq<u8>, pos: int, vs: Seq<SpecValue>, acc: Seq<SpecValue>)
    requires
        0 <= pos,
        forall|i: int| 0 <= i < vs.len() ==> producible(#[trigger] vs[i]),
        pos + spec_encode_items(vs).len() + 1 <= s.len(),
        s.subrange(pos, pos + spec_encode_items(vs).len() as int) == spec_encode_items(vs),
        s[pos + spec_encode_items(vs).len()] == TOKEN_END,
    ensures
        spec_parse_items(s, pos, acc) == Ok::<(Seq<SpecValue>, int), (ParseFault, int)>(
            (acc + vs, pos + spec_encode_items(vs).len() + 1),
        ),
    decreases items_size(vs), 1int,
{
    let inner = spec_encode_items(vs);
    lemma_subrange_index(s, pos, inner);
    if vs.len() == 0 {
        assert(s[pos] == TOKEN_END);
        assert(acc + vs =~= acc);
    } else {
        let head = spec_encode(vs[0]);
        let tail = spec_encode_items(vs.drop_first());
        assert(inner == head + tail);
        lemma_encode_first(vs[0]);
        assert(inner[0] == head[0]);
        assert(s[pos] == inner[0]);
        assert(s[pos] != TOKEN_END);
        assert(s.subrange(pos, pos + head.len() as int) =~= head) by {
            assert forall|k: int| 0 <= k < head.len() implies s.subrange(
                pos,
                pos + head.len() as int,
            )[k] == head[k] by {
                assert(inner[k] == head[k]);
                assert(s[pos + k] == inner[k]);
                assert(s.subrange(pos, pos + head.len() as int)[k] == s[pos + k]);
            }
        }
        lemma_parse_encoded_value(s, pos, vs[0]);
        let mid = pos + head.len() as int;
        assert(s.subrange(mid, mid + tail.len() as int) =~= tail) by {
            assert forall|k: int| 0 <= k < tail.len() implies s.subrange(
                mid,
                mid + tail.len() as int,
            )[k] == tail[k] by {
                assert(inner[head.len() + k] == tail[k]);
                assert(s[pos + (head.len() + k)] == inner[head.len() + k]);
                assert(s.subrange(mid, mid + tail.len() as int)[k] == s[mid + k]);
            }
        }
        assert(s[mid + tail.len()] == TOKEN_END);
        assert forall|i: int| 0 <= i < vs.drop_first().len() implies producible(
            #[trigger] vs.drop_first()[i],
        ) by {
            assert(vs.drop_first()[i] == vs[i + 1]);
        }
        lemma_sv_size_pos(vs[0]);
        lemma_parse_encoded_items(s, mid, vs.drop_first(), acc.push(vs[0]));
        assert(acc.push(vs[0]) + vs.drop_first() =~= acc + vs);
    }
}

/// Embedded entry encodings followed by the terminator parse to the
/// entries appended to the accumulator.
proof fn lemma_parse_encoded_entries(
    s: Seq<u8>,
    pos: int,
    vs: Seq<(Seq<char>, SpecValue)>,
    acc: Seq<(Seq<char>, SpecValue)>,
)
    requires
        0 <= pos,
        distinct_keys(acc + vs),
        forall|i: int| 0 <= i < vs.len() ==> producible((#[trigger] vs[i]).1),
        forall|i: int| 0 <= i < vs.len() ==> encode_utf8((#[trigger] vs[i]).0).len() <= usize::MAX,
        pos + spec_encode_entries(vs).len() + 1 <= s.len(),
        s.subrange(pos, pos + spec_encode_entries(vs).len() as int) == spec_encode_entries(vs),
        s[pos + spec_encode_entries(vs).len()] == TOKEN_END,
    ensures
        spec_parse_entries(s, pos, acc) == Ok::<(Seq<(Seq<char>, SpecValue)>, int), (
            ParseFault,
            int,
        )>((acc + vs, pos + spec_encode_entries(vs).len() + 1)),
    decreases ents_size(vs), 1int,
{
    let inner = spec_encode_entries(vs);
    lemma_subrange_index(s, pos, inner);
    if vs.len() == 0 {
        assert(s[pos] == TOKEN_END);
        assert(acc + vs =~= acc);
    } else {
        let k0 = vs[0].0;
        let v0 = vs[0].1;
        let kb = encode_utf8(k0);
        let kval = SpecValue::String(kb);
        let head = spec_encode(kval);
        assert(head == spec_encode_bytes(kb));
        let venc = spec_encode(v0);
        let tail = spec_encode_entries(vs.drop_first());
        assert(inner == head + venc + tail);
        lemma_encode_first(kval);
        assert(inner[0] == head[0]) by {
            assert(inner[0] == (head + venc)[0]);
        }
        assert(s[pos] == inner[0]);
        assert(s[pos] != TOKEN_END);
        assert(producible(kval));
        assert(s.subrange(pos, pos + head.len() as int) =~= head) by {
            assert forall|k: int| 0 <= k < head.len() implies s.subrange(
                pos,
                pos + head.len() as int,
            )[k] == head[k] by {
                assert(inner[k] == (head + venc)[k]);
                assert((head + venc)[k] == head[k]);
                assert(s[pos + k] == inner[k]);
                assert(s.subrange(pos, pos + head.len() as int)[k] == s[pos + k]);
            }
        }
        lemma_sv_size_pos(v0);
        lemma_parse_encoded_value(s, pos, kval);
        let kmid = pos + head.len() as int;
        encode_utf8_valid_utf8(k0);
        encode_utf8_decode_utf8(k0);
        assert(valid_utf8(kb));
        assert(decode_utf8(kb) == k0);
        assert(s.subrange(kmid, kmid + venc.len() as int) =~= venc) by {
            assert forall|k: int| 0 <= k < venc.len() implies s.subrange(
                kmid,
                kmid + venc.len() as int,
            )[k] == venc[k] by {
                assert(inner[head.len() + k] == (head + venc)[head.len() + k]);
                assert((head + venc)[head.len() + k] == venc[k]);
                assert(s[pos + (head.len() + k)] == inner[head.len() + k]);
                assert(s.subrange(kmid, kmid + venc.len() as int)[k] == s[kmid + k]);
            }
        }
        lemma_parse_encoded_value(s, kmid, v0);
        let vmid = kmid + venc.len() as int;
        assert(s.subrange(vmid, vmid + tail.len() as int) =~= tail) by {
            assert forall|k: int| 0 <= k < tail.len() implies s.subrange(
                vmid,
                vmid + tail.len() as int,
            )[k] == tail[k] by {
                assert(inner[head.len() + venc.len() + k] == tail[k]);
                assert(s[pos + (head.len() + venc.len() + k)] == inner[head.len() + venc.len()
                    + k]);
                assert(s.subrange(vmid, vmid + tail.len() as int)[k] == s[vmid + k]);
            }
        }
        assert(s[vmid + tail.len()] == TOKEN_END);
        assert forall|w: int| 0 <= w < acc.len() implies (#[trigger] acc[w]).0 != k0 by {
            assert((acc + vs)[w] == acc[w]);
            assert((acc + vs)[acc.len() as int] == vs[0]);
        }
        crate::bdecoder::lemma_spec_insert_missing(acc, k0, v0);
        assert(spec_insert(acc, k0, v0) == acc.push(vs[0])) by {
            assert((k0, v0) == vs[0]);
        }
        assert(acc.push(vs[0]) + vs.drop_first() =~= acc + vs);
        assert forall|i: int| 0 <= i < vs.drop_first().len() implies producible(
            (#[trigger] vs.drop_first()[i]).1,
        ) by {
            assert(vs.drop_first()[i] == vs[i + 1]);
        }
        assert forall|i: int| 0 <= i < vs.drop_first().len() implies encode_utf8(
            (#[trigger] vs.drop_first()[i]).0,
        ).len() <= usize::MAX by {
            assert(vs.drop_first()[i] == vs[i + 1]);
        }
        lemma_parse_encoded_entries(s, vmid, vs.drop_first(), acc.push(vs[0]));
    }
}

/// Round trip: decoding the encoding of any tree the decoder itself could
/// produce gives back exactly that tree, consuming the whole encoding.
pub proof fn lemma_round_trip(v: SpecValue)
    requires
        producible(v),
    ensures
        spec_parse_value(spec_encode(v), 0) == Ok::<(SpecValue, int), (ParseFault, int)>(
            (v, spec_encode(v).len() as int),
        ),
{
    let enc = spec_encode(v);
    assert(enc.subrange(0, enc.len() as int) =~= enc);
    lemma_parse_encoded_value(enc, 0, v);
}

/// Re-encoding a decoded tree and decoding again gives the same tree: the
/// bytes may differ from the original input, the value does not.
pub proof fn lemma_decode_encode_decode(bytes: Seq<u8>)
    ensures
        match spec_parse_value(bytes, 0) {
            Ok((v, end)) => spec_parse_value(spec_encode(v), 0) == Ok::<(SpecValue, int), (
                ParseFault,
                int,
            )>((v, spec_encode(v).len() as int)),
            Err(_) => true,
        },
{
    lemma_parse_value_props(bytes, 0);
    match spec_parse_value(bytes, 0) {
        Ok((v, end)) => {
            lemma_round_trip(v);
        },
        Err(_) => {},
    }
}

} // verus!
