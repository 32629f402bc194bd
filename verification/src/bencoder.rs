//! The encoder: the canonical byte sequence of a value tree.

use vstd::prelude::*;
use vstd::slice::slice_to_vec;
use vstd::utf8::encode_utf8;

use crate::bvalue::entries_view;
use crate::bvalue::seq_view;
use crate::bvalue::BValue;
use crate::bvalue::SpecValue;
use crate::bvalue::TOKEN_COLON;
use crate::bvalue::TOKEN_DICTIONARY;
use crate::bvalue::TOKEN_END;
use crate::bvalue::TOKEN_INTEGER;
use crate::bvalue::TOKEN_LIST;
use crate::decimal::idec;
use crate::decimal::push_udec;
use crate::decimal::udec;
use crate::decimal::MINUS;

verus! {

/// The encoding of a byte string: the decimal length, `:`, the raw bytes.
pub open spec fn spec_encode_bytes(b: Seq<u8>) -> Seq<u8> {
    udec(b.len()) + seq![TOKEN_COLON] + b
}

/// The canonical byte sequence of a value tree.
pub open spec fn spec_encode(v: SpecValue) -> Seq<u8>
    decreases v,
{
    match v {
        SpecValue::Dictionary(entries) => seq![TOKEN_DICTIONARY] + spec_encode_entries(entries)
            + seq![TOKEN_END],
        SpecValue::List(items) => seq![TOKEN_LIST] + spec_encode_items(items) + seq![TOKEN_END],
        SpecValue::String(bytes) => spec_encode_bytes(bytes),
        SpecValue::Integer(i) => seq![TOKEN_INTEGER] + idec(i) + seq![TOKEN_END],
    }
}

/// The concatenated encodings of the elements of a list, in order.
pub open spec fn spec_encode_items(items: Seq<SpecValue>) -> Seq<u8>
    decreases items,
{
    if items.len() == 0 {
        Seq::empty()
    } else {
        spec_encode(items[0]) + spec_encode_items(items.drop_first())
    }
}

/// The concatenated encodings of the entries of a dictionary, in order:
/// each key as a byte string (its UTF-8 bytes), then its value.
pub open spec fn spec_encode_entries(entries: Seq<(Seq<char>, SpecValue)>) -> Seq<u8>
    decreases entries,
{
    if entries.len() == 0 {
        Seq::empty()
    } else {
        spec_encode_bytes(encode_utf8(entries[0].0)) + spec_encode(entries[0].1)
            + spec_encode_entries(entries.drop_first())
    }
}

/// Encoding a list element by element is encoding the whole list.
pub proof fn lemma_encode_items_app(a: Seq<SpecValue>, b: Seq<SpecValue>)
    ensures
        spec_encode_items(a + b) == spec_encode_items(a) + spec_encode_items(b),
    decreases a.len(),
{
    if a.len() == 0 {
        assert(a + b =~= b);
        assert(spec_encode_items(a) + spec_encode_items(b) =~= spec_encode_items(b));
    } else {
        lemma_encode_items_app(a.drop_first(), b);
        assert((a + b).drop_first() =~= a.drop_first() + b);
        assert((a + b)[0] == a[0]);
        assert(spec_encode_items(a) + spec_encode_items(b) =~= spec_encode(a[0])
            + spec_encode_items(a.drop_first()) + spec_encode_items(b));
        assert(spec_encode_items(a + b) =~= spec_encode(a[0]) + spec_encode_items(a.drop_first())
            + spec_encode_items(b));
    }
}

/// Encoding a dictionary entry by entry is encoding the whole dictionary.
pub proof fn lemma_encode_entries_app(
    a: Seq<(Seq<char>, SpecValue)>,
    b: Seq<(Seq<char>, SpecValue)>,
)
    ensures
        spec_encode_entries(a + b) == spec_encode_entries(a) + spec_encode_entries(b),
    decreases a.len(),
{
    if a.len() == 0 {
        assert(a + b =~= b);
        assert(spec_encode_entries(a) + spec_encode_entries(b) =~= spec_encode_entries(b));
    } else {
        lemma_encode_entries_app(a.drop_first(), b);
        assert((a + b).drop_first() =~= a.drop_first() + b);
        assert((a + b)[0] == a[0]);
        assert(spec_encode_entries(a) + spec_encode_entries(b) =~= spec_encode_bytes(
            encode_utf8(a[0].0),
        ) + spec_encode(a[0].1) + spec_encode_entries(a.drop_first()) + spec_encode_entries(b));
        assert(spec_encode_entries(a + b) =~= spec_encode_bytes(encode_utf8(a[0].0)) + spec_encode(
            a[0].1,
        ) + spec_encode_entries(a.drop_first()) + spec_encode_entries(b));
    }
}

/// Serializes a value tree into its canonical byte sequence.  The function
/// is total: every tree has an encoding.
pub fn bencode(to_bencode: BValue) -> (r: Vec<u8>)
    ensures
        r@ == spec_encode(to_bencode@),
{
    let mut res = Vec::<u8>::new();
    bencode_value(&to_bencode, &mut res);
    res
}

/// Appends the encoding of one value.
fn bencode_value(v: &BValue, out: &mut Vec<u8>)
    ensures
        final(out)@ == old(out)@ + spec_encode(v@),
    decreases v,
{
    match v {
        BValue::Dictionary(entries) => bencode_dictionary(entries, out),
        BValue::List(list) => bencode_list(list, out),
        BValue::String(bytes) => bencode_string(bytes, out),
        BValue::Integer(integer) => bencode_integer(*integer, out),
    }
}

/// Appends `i`, the decimal text of the integer, `e`.
fn bencode_integer(integer: i64, out: &mut Vec<u8>)
    ensures
        final(out)@ == old(out)@ + seq![TOKEN_INTEGER] + idec(integer as int) + seq![TOKEN_END],
{
    out.push(TOKEN_INTEGER);
    if integer < 0 {
        out.push(MINUS);
        let mag: u64 = if integer == i64::MIN {
            9223372036854775808
        } else {
            (-integer) as u64
        };
        proof {
            assert(mag as nat == (-(integer as int)) as nat);
        }
        push_udec(mag, out);
    } else {
        push_udec(integer as u64, out);
    }
    out.push(TOKEN_END);
    proof {
        assert(out@ =~= old(out)@ + seq![TOKEN_INTEGER] + idec(integer as int) + seq![TOKEN_END]);
    }
}

/// Appends the decimal length of the bytes, `:`, the bytes themselves.
fn bencode_string(bytes: &Vec<u8>, out: &mut Vec<u8>)
    ensures
        final(out)@ == old(out)@ + spec_encode_bytes(bytes@),
{
    push_udec(bytes.len() as u64, out);
    out.push(TOKEN_COLON);
    let ghost base = out@;
    let mut j: usize = 0;
    while j < bytes.len()
        invariant
            0 <= j <= bytes@.len(),
            out@ == base + bytes@.subrange(0, j as int),
        decreases bytes@.len() - j,
    {
        out.push(bytes[j]);
        j = j + 1;
        proof {
            assert(out@ =~= base + bytes@.subrange(0, j as int));
        }
    }
    proof {
        assert(bytes@.subrange(0, bytes@.len() as int) =~= bytes@);
        assert(out@ =~= old(out)@ + spec_encode_bytes(bytes@));
    }
}

/// Appends `l`, the encodings of the elements in order, `e`.
fn bencode_list(list: &Vec<BValue>, out: &mut Vec<u8>)
    ensures
        final(out)@ == old(out)@ + seq![TOKEN_LIST] + spec_encode_items(seq_view(list@))
            + seq![TOKEN_END],
    decreases list,
{
    let ghost sv = seq_view(list@);
    proof {
        crate::bvalue::lemma_seq_view(list@);
    }
    out.push(TOKEN_LIST);
    let ghost base = out@;
    let mut i: usize = 0;
    while i < list.len()
        invariant
            0 <= i <= list@.len(),
            sv == seq_view(list@),
            sv.len() == list@.len(),
            forall|k: int| 0 <= k < list@.len() ==> #[trigger] sv[k] == list@[k]@,
            out@ == base + spec_encode_items(sv.subrange(0, i as int)),
        decreases list@.len() - i,
    {
        bencode_value(&list[i], out);
        i = i + 1;
        proof {
            let pre = sv.subrange(0, i as int - 1);
            let post = sv.subrange(0, i as int);
            assert(post =~= pre + seq![sv[i as int - 1]]);
            lemma_encode_items_app(pre, seq![sv[i as int - 1]]);
            assert(seq![sv[i as int - 1]].drop_first() =~= Seq::<SpecValue>::empty());
            assert(spec_encode_items(Seq::<SpecValue>::empty()) =~= Seq::<u8>::empty());
            assert(spec_encode_items(seq![sv[i as int - 1]]) =~= spec_encode(sv[i as int - 1]));
            assert(out@ =~= base + spec_encode_items(post));
        }
    }
    out.push(TOKEN_END);
    proof {
        assert(sv.subrange(0, sv.len() as int) =~= sv);
        assert(out@ =~= old(out)@ + seq![TOKEN_LIST] + spec_encode_items(sv) + seq![TOKEN_END]);
    }
}

/// Appends `d`, then for each entry the key as a byte string and the
/// encoding of its value, in insertion order, then `e`.
fn bencode_dictionary(entries: &Vec<(String, BValue)>, out: &mut Vec<u8>)
    ensures
        final(out)@ == old(out)@ + seq![TOKEN_DICTIONARY] + spec_encode_entries(
            entries_view(entries@),
        ) + seq![TOKEN_END],
    decreases entries,
{
    let ghost ev = entries_view(entries@);
    proof {
        crate::bvalue::lemma_entries_view(entries@);
    }
    out.push(TOKEN_DICTIONARY);
    let ghost base = out@;
    let mut i: usize = 0;
    while i < entries.len()
        invariant
            0 <= i <= entries@.len(),
            ev == entries_view(entries@),
            ev.len() == entries@.len(),
            forall|k: int| 0 <= k < entries@.len() ==> #[trigger] ev[k] == (
                entries@[k].0@,
                entries@[k].1@,
            ),
            out@ == base + spec_encode_entries(ev.subrange(0, i as int)),
        decreases entries@.len() - i,
    {
        let key_bytes: Vec<u8> = slice_to_vec(entries[i].0.as_str().as_bytes());
        bencode_string(&key_bytes, out);
        bencode_value(&entries[i].1, out);
        i = i + 1;
        proof {
            let pre = ev.subrange(0, i as int - 1);
            let post = ev.subrange(0, i as int);
            assert(post =~= pre + seq![ev[i as int - 1]]);
            lemma_encode_entries_app(pre, seq![ev[i as int - 1]]);
            assert(seq![ev[i as int - 1]].drop_first() =~= Seq::<(Seq<char>, SpecValue)>::empty());
            assert(spec_encode_entries(Seq::<(Seq<char>, SpecValue)>::empty())
                =~= Seq::<u8>::empty());
            assert(spec_encode_entries(seq![ev[i as int - 1]]) =~= spec_encode_bytes(
                encode_utf8(ev[i as int - 1].0),
            ) + spec_encode(ev[i as int - 1].1));
            assert(out@ =~= base + spec_encode_entries(post));
        }
    }
    out.push(TOKEN_END);
    proof {
        assert(ev.subrange(0, ev.len() as int) =~= ev);
        assert(out@ =~= old(out)@ + seq![TOKEN_DICTIONARY] + spec_encode_entries(ev)
            + seq![TOKEN_END]);
    }
}

} // verus!
