use vstd::prelude::*;
use vstd::string::StringSliceAdditionalSpecFns;

use crate::error::DnsError;
use crate::name::{
    encode_label, encode_labels, is_wire_label, joined, law_walk_reads_encoded_name,
    lemma_encode_labels_push, walk_name, NameWalk,
};

verus! {

/// The transaction ID that `build_packet` writes.
pub const TRANSACTION_ID: u16 = 0x1234;

/// Length of a DNS header.
pub const HEADER_LENGTH: usize = 12;

/// The byte that separates the parts of an address's text.
pub const DOT: u8 = 46;

/// The parts of `text` between dots, in order, as splitting a string on '.'
/// gives them: empty text has one empty part, and each dot starts a new part.
pub open spec fn split_dots(text: Seq<u8>) -> Seq<Seq<u8>>
    decreases text.len(),
{
    if text.len() == 0 {
        seq![Seq::<u8>::empty()]
    } else {
        let before = split_dots(text.drop_last());
        if text.last() == DOT {
            before.push(Seq::<u8>::empty())
        } else {
            before.update(before.len() - 1, before.last().push(text.last()))
        }
    }
}

/// Splitting always yields at least one part.
pub proof fn lemma_split_dots_nonempty(text: Seq<u8>)
    ensures
        split_dots(text).len() >= 1,
    decreases text.len(),
{
    if text.len() > 0 {
        lemma_split_dots_nonempty(text.drop_last());
    }
}

/// A query header: the transaction ID (high byte first), flags 0x0100
/// (recursion desired), one question, and no answer, authority or
/// additional records.
pub open spec fn query_header(id: u16) -> Seq<u8> {
    seq![(id / 256) as u8, (id % 256) as u8, 1u8, 0u8, 0u8, 1u8, 0u8, 0u8, 0u8, 0u8, 0u8, 0u8]
}

/// The labels `in-addr` and `arpa` (as ASCII codes) and the zero byte that
/// ends the name.
pub open spec fn reverse_zone() -> Seq<u8> {
    seq![7u8, 105u8, 110u8, 45u8, 97u8, 100u8, 100u8, 114u8, 4u8, 97u8, 114u8, 112u8, 97u8, 0u8]
}

/// QTYPE PTR (12) and QCLASS IN (1), each as two bytes, high byte first.
pub open spec fn ptr_in_class() -> Seq<u8> {
    seq![0u8, 12u8, 0u8, 1u8]
}

/// The PTR query for the address written as `text`: the header, the parts of
/// the text in reverse order as labels, then `in-addr.arpa` and the question's
/// type and class.
pub open spec fn reverse_query(id: u16, text: Seq<u8>) -> Seq<u8> {
    query_header(id) + encode_labels(split_dots(text).reverse()) + reverse_zone() + ptr_in_class()
}

/// Appends `bytes` to `out`.
fn push_bytes(out: &mut Vec<u8>, bytes: &[u8])
    ensures
        final(out)@ == old(out)@ + bytes@,
{
    let n = bytes.len();
    for i in 0..n
        invariant
            n == bytes@.len(),
            out@ == old(out)@ + bytes@.take(i as int),
    {
        out.push(bytes[i]);
        proof {
            assert(bytes@.take(i + 1) =~= bytes@.take(i as int).push(bytes@[i as int]));
        }
    }
    proof {
        assert(bytes@.take(n as int) =~= bytes@);
    }
}

/// Splits `bytes` on dots (see `split_dots`).
fn split_on_dots(bytes: &[u8]) -> (parts: Vec<Vec<u8>>)
    ensures
        parts@.len() == split_dots(bytes@).len(),
        forall|k: int| 0 <= k < parts@.len() ==> (#[trigger] parts@[k])@ == split_dots(bytes@)[k],
{
    let n = bytes.len();
    let mut parts: Vec<Vec<u8>> = Vec::new();
    let mut current: Vec<u8> = Vec::new();
    proof {
        assert(bytes@.take(0) =~= Seq::<u8>::empty());
    }
    for i in 0..n
        invariant
            n == bytes@.len(),
            parts@.len() + 1 == split_dots(bytes@.take(i as int)).len(),
            forall|k: int|
                0 <= k < parts@.len() ==> (#[trigger] parts@[k])@ == split_dots(bytes@.take(i as int))[k],
            current@ == split_dots(bytes@.take(i as int)).last(),
    {
        let b = bytes[i];
        proof {
            let next = bytes@.take(i + 1);
            assert(next.drop_last() =~= bytes@.take(i as int));
            assert(next.last() == b);
            lemma_split_dots_nonempty(bytes@.take(i as int));
        }
        if b == DOT {
            parts.push(current);
            current = Vec::new();
        } else {
            current.push(b);
        }
    }
    proof {
        assert(bytes@.take(n as int) =~= bytes@);
    }
    parts.push(current);
    parts
}

/// Builds a PTR query with the given transaction ID for the address written
/// as `target`: the text is split on '.', the parts are written in reverse
/// order, each as a length byte (the part's length modulo 256) and its bytes,
/// followed by `in-addr.arpa`, QTYPE PTR and QCLASS IN.
pub fn build_packet_with_id(id: u16, target: &str) -> (packet: Vec<u8>)
    ensures
        packet@ == reverse_query(id, target.spec_bytes()),
{
    let bytes = target.as_bytes();
    let parts = split_on_dots(bytes);
    let ghost text = bytes@;
    let ghost rev = split_dots(text).reverse();
    let mut packet: Vec<u8> = Vec::new();
    packet.push((id / 256) as u8);
    packet.push((id % 256) as u8);
    packet.push(1);
    packet.push(0);
    packet.push(0);
    packet.push(1);
    packet.push(0);
    packet.push(0);
    packet.push(0);
    packet.push(0);
    packet.push(0);
    packet.push(0);
    proof {
        assert(packet@ =~= query_header(id));
        assert(rev.take(0) =~= Seq::<Seq<u8>>::empty());
        assert(encode_labels(rev.take(0)) == Seq::<u8>::empty());
        assert(packet@ =~= query_header(id) + encode_labels(rev.take(0)));
    }
    let count = parts.len();
    let mut k = count;
    while k > 0
        invariant
            count == parts@.len(),
            count == split_dots(text).len(),
            rev == split_dots(text).reverse(),
            forall|j: int| 0 <= j < parts@.len() ==> (#[trigger] parts@[j])@ == split_dots(text)[j],
            k <= count,
            packet@ == query_header(id) + encode_labels(rev.take(count - k)),
        decreases k,
    {
        k -= 1;
        let part = &parts[k];
        let ghost before = packet@;
        packet.push((part.len() % 256) as u8);
        push_bytes(&mut packet, part.as_slice());
        proof {
            let m = count - 1 - k;
            assert(rev[m] == split_dots(text)[k as int]);
            assert(rev.take(m + 1) =~= rev.take(m).push(rev[m]));
            lemma_encode_labels_push(rev.take(m), rev[m]);
            assert(packet@ =~= before + encode_label(rev[m]));
        }
    }
    proof {
        assert(rev.take(count as int) =~= rev);
    }
    packet.push(7);
    packet.push(105);
    packet.push(110);
    packet.push(45);
    packet.push(97);
    packet.push(100);
    packet.push(100);
    packet.push(114);
    packet.push(4);
    packet.push(97);
    packet.push(114);
    packet.push(112);
    packet.push(97);
    packet.push(0);
    packet.push(0);
    packet.push(12);
    packet.push(0);
    packet.push(1);
    proof {
        assert(packet@ =~= reverse_query(id, text));
    }
    packet
}

/// Builds the PTR query for the address written as `target`, with the
/// transaction ID 0x1234 (see `build_packet_with_id`).
pub fn build_packet(target: &str) -> (packet: Vec<u8>)
    ensures
        packet@ == reverse_query(TRANSACTION_ID, target.spec_bytes()),
{
    build_packet_with_id(TRANSACTION_ID, target)
}


/// What `answer_section` returns for a reply to a query of `query_len` bytes:
/// the bytes after the first `query_len + 12`, or an error when the reply is
/// shorter than that.
pub open spec fn spec_answer_section(query_len: int, response: Seq<u8>) -> Result<Seq<u8>, DnsError> {
    if query_len + HEADER_LENGTH <= response.len() {
        Ok(response.subrange(query_len + HEADER_LENGTH, response.len() as int))
    } else {
        Err(DnsError::InvalidPacketSize)
    }
}

/// Cuts the reply to a query of `query_len` bytes after its first
/// `query_len + 12` bytes. The reply echoes the header and the question
/// (`query_len` bytes), and the first answer record, whose name is a two-byte
/// pointer, has 12 bytes before its data; so what is left starts with that
/// record's data. Fails with `InvalidPacketSize` when the reply is shorter.
pub fn answer_section(query_len: usize, response: &[u8]) -> (res: Result<Vec<u8>, DnsError>)
    ensures
        match res {
            Ok(answer) => spec_answer_section(query_len as int, response@) == Ok::<Seq<u8>, DnsError>(answer@),
            Err(e) => spec_answer_section(query_len as int, response@) == Err::<Seq<u8>, DnsError>(e),
        },
{
    let n = response.len();
    if query_len > n || n - query_len < HEADER_LENGTH {
        return Err(DnsError::InvalidPacketSize);
    }
    let start = query_len + HEADER_LENGTH;
    Ok(vstd::slice::slice_to_vec(&response[start..n]))
}

/// The data length of the first answer record in a reply whose header and
/// question take `question_end` bytes: the two bytes, high byte first, 10 bytes
/// into the record (after its name pointer, type, class and TTL).
pub open spec fn first_rdlength(response: Seq<u8>, question_end: int) -> int {
    response[question_end + 10] * 256 + response[question_end + 11]
}

/// Whether the first answer record's data, as `answer_rdata` finds it, lies
/// within `response`.
pub open spec fn rdata_in_bounds(response: Seq<u8>, question_end: int) -> bool {
    &&& question_end + 12 <= response.len()
    &&& question_end + 12 + first_rdlength(response, question_end) <= response.len()
}

/// Tells whether `answer_rdata` may be called: true exactly when the first
/// answer record's data lies within `response`.
pub fn rdata_fits(response: &[u8], question_end: usize) -> (res: bool)
    ensures
        res == rdata_in_bounds(response@, question_end as int),
{
    let n = response.len();
    if question_end > n || n - question_end < 12 {
        return false;
    }
    let rdlength = (response[question_end + 10] as usize) * 256 + (response[question_end + 11] as usize);
    rdlength <= n - question_end - 12
}

/// The data of the first answer record in a reply whose header and question
/// take `question_end` bytes: skips the record's name pointer, type, class and
/// TTL, reads the data length and returns that many bytes after it.
pub fn answer_rdata(response: &[u8], question_end: usize) -> (rdata: &[u8])
    requires
        rdata_in_bounds(response@, question_end as int),
    ensures
        rdata@ == response@.subrange(
            question_end + 12,
            question_end + 12 + first_rdlength(response@, question_end as int),
        ),
{
    let n = response.len();
    assert(question_end + 12 <= n);
    let cursor = question_end + 10;
    let rdlength = (response[cursor] as usize) * 256 + (response[cursor + 1] as usize);
    let start = cursor + 2;
    &response[start..start + rdlength]
}

/// The labels of the question that `build_packet` writes for `text`: the
/// parts of the text in reverse order, then `in-addr` and `arpa`.
pub open spec fn question_labels(text: Seq<u8>) -> Seq<Seq<u8>> {
    split_dots(text).reverse() + seq![
        seq![105u8, 110u8, 45u8, 97u8, 100u8, 100u8, 114u8],
        seq![97u8, 114u8, 112u8, 97u8],
    ]
}

/// Law: when every part of the address text is 1 to 255 bytes long, the name
/// in the query built for it reads back, by `parse_answer`'s walk, as the
/// parts in reverse order followed by `in-addr` and `arpa`.
pub proof fn law_query_name_reads_back(id: u16, text: Seq<u8>)
    requires
        forall|k: int| 0 <= k < split_dots(text).len() ==> is_wire_label(#[trigger] split_dots(text)[k]),
    ensures
        walk_name(reverse_query(id, text).subrange(HEADER_LENGTH as int, reverse_query(id, text).len() as int), 0)
            == NameWalk::Labels(question_labels(text)),
{
    let parts = split_dots(text);
    let rev = parts.reverse();
    let in_addr = seq![105u8, 110u8, 45u8, 97u8, 100u8, 100u8, 114u8];
    let arpa = seq![97u8, 114u8, 112u8, 97u8];
    let labels = question_labels(text);
    assert(labels =~= rev.push(in_addr).push(arpa));
    lemma_encode_labels_push(rev, in_addr);
    lemma_encode_labels_push(rev.push(in_addr), arpa);
    assert(encode_label(in_addr) =~= seq![7u8, 105u8, 110u8, 45u8, 97u8, 100u8, 100u8, 114u8]);
    assert(encode_label(arpa) =~= seq![4u8, 97u8, 114u8, 112u8, 97u8]);
    let q = reverse_query(id, text);
    assert(q.subrange(HEADER_LENGTH as int, q.len() as int)
        =~= encode_labels(labels) + seq![0u8] + ptr_in_class());
    assert forall|k: int| 0 <= k < labels.len() implies is_wire_label(#[trigger] labels[k]) by {
        if k < rev.len() {
            assert(labels[k] == parts[parts.len() - 1 - k]);
        }
    }
    law_walk_reads_encoded_name(labels, ptr_in_class());
}


/// Law: splitting on dots loses nothing. The parts, joined with dots, give
/// back the text, and no part holds a dot; so each part is exactly the bytes
/// between two neighbouring dots (or an end of the text).
pub proof fn law_split_dots_lossless(text: Seq<u8>)
    ensures
        joined(split_dots(text), DOT) == text,
        forall|k: int, j: int|
            0 <= k < split_dots(text).len() && 0 <= j < split_dots(text)[k].len()
                ==> split_dots(text)[k][j] != DOT,
    decreases text.len(),
{
    if text.len() > 0 {
        let init = text.drop_last();
        let c = text.last();
        law_split_dots_lossless(init);
        lemma_split_dots_nonempty(init);
        let before = split_dots(init);
        let parts = split_dots(text);
        if c == DOT {
            assert(parts.drop_last() =~= before);
            assert(joined(before, DOT).push(DOT) + Seq::<u8>::empty() =~= text);
            assert forall|k: int, j: int|
                0 <= k < parts.len() && 0 <= j < parts[k].len() implies parts[k][j] != DOT by {
                assert(k < before.len());
                assert(parts[k] == before[k]);
            }
        } else {
            let n = before.len();
            if n == 1 {
                assert(parts.len() == 1);
                assert(joined(parts, DOT) == parts[0]);
                assert(parts[0] =~= before[0].push(c));
                assert(before[0] == joined(before, DOT));
                assert(text =~= init.push(c));
            } else {
                assert(parts.drop_last() =~= before.drop_last());
                assert(parts.last() == before.last().push(c));
                assert(joined(parts, DOT) =~= (joined(before.drop_last(), DOT).push(DOT) + before.last()).push(c));
                assert(text =~= init.push(c));
            }
            assert forall|k: int, j: int|
                0 <= k < parts.len() && 0 <= j < parts[k].len() implies parts[k][j] != DOT by {
                if k == n - 1 {
                    if j < before[k].len() {
                        assert(parts[k][j] == before[k][j]);
                    } else {
                        assert(parts[k][j] == c);
                    }
                } else {
                    assert(parts[k] == before[k]);
                }
            }
        }
    }
}

/// Law: the name in the query built for an address text, when every part of
/// the text is 1 to 255 bytes, reads back as labels whose first ones, taken in
/// reverse order and joined with dots, spell the text again, followed by
/// `in-addr` and `arpa`.
pub proof fn law_query_name_spells_address(id: u16, text: Seq<u8>)
    requires
        forall|k: int| 0 <= k < split_dots(text).len() ==> is_wire_label(#[trigger] split_dots(text)[k]),
    ensures
        ({
            let q = reverse_query(id, text);
            walk_name(q.subrange(HEADER_LENGTH as int, q.len() as int), 0) matches NameWalk::Labels(labels)
                && labels.len() >= 2
                && joined(labels.take(labels.len() - 2).reverse(), DOT) == text
                && labels[labels.len() - 2] == seq![105u8, 110u8, 45u8, 97u8, 100u8, 100u8, 114u8]
                && labels[labels.len() - 1] == seq![97u8, 114u8, 112u8, 97u8]
        }),
{
    law_query_name_reads_back(id, text);
    law_split_dots_lossless(text);
    let parts = split_dots(text);
    let labels = question_labels(text);
    assert(labels.take(labels.len() - 2) =~= parts.reverse());
    assert(parts.reverse().reverse() =~= parts);
}

/// Law: the query's first two bytes are the transaction ID, high byte first;
/// the rest of its 12-byte header is flags 0x0100 (recursion desired), a
/// question count of 1 and three zero counts; and its last four bytes ask for
/// type PTR (12) in class IN (1).
pub proof fn law_query_starts_with_id(id: u16, text: Seq<u8>)
    ensures
        ({
            let q = reverse_query(id, text);
            &&& q.len() >= HEADER_LENGTH + 4
            &&& q[0] * 256 + q[1] == id
            &&& q[2] == 1 && q[3] == 0
            &&& q[4] == 0 && q[5] == 1
            &&& forall|i: int| 6 <= i < 12 ==> q[i] == 0
            &&& q[q.len() - 4] * 256 + q[q.len() - 3] == 12
            &&& q[q.len() - 2] * 256 + q[q.len() - 1] == 1
        }),
{
    let q = reverse_query(id, text);
    let h = query_header(id);
    assert forall|i: int| 0 <= i < 12 implies q[i] == h[i] by {}
    let n = q.len();
    assert(q[n - 4] == ptr_in_class()[0]);
    assert(q[n - 3] == ptr_in_class()[1]);
    assert(q[n - 2] == ptr_in_class()[2]);
    assert(q[n - 1] == ptr_in_class()[3]);
}

/// Law: for a reply laid out as the echoed query (`query_len` bytes), then a
/// 12-byte stretch (the rest of the header and the answer record's fixed
/// part), then any data, `answer_section` gives exactly that data, whatever
/// the bytes are.
pub proof fn law_answer_section_reads_data(echo: Seq<u8>, fixed: Seq<u8>, data: Seq<u8>)
    requires
        fixed.len() == HEADER_LENGTH,
    ensures
        spec_answer_section(echo.len() as int, echo + fixed + data) == Ok::<Seq<u8>, DnsError>(data),
{
    let r = echo + fixed + data;
    assert(r.subrange(echo.len() + HEADER_LENGTH, r.len() as int) =~= data);
}

/// Law: whenever the reply holds at least `query_len + 12` bytes the cut
/// succeeds, keeps `len - query_len - 12` bytes, and byte `i` of the result is
/// byte `query_len + 12 + i` of the reply; otherwise it fails.
pub proof fn law_answer_section_shape(query_len: int, response: Seq<u8>)
    requires
        0 <= query_len,
    ensures
        query_len + 12 <= response.len() <==> spec_answer_section(query_len, response) is Ok,
        spec_answer_section(query_len, response) matches Ok(a) ==> {
            &&& a.len() == response.len() - query_len - 12
            &&& forall|i: int| 0 <= i < a.len() ==> a[i] == response[query_len + 12 + i]
        },
{
}

/// Law: an answer record written as a 10-byte fixed part, the data's length
/// as two bytes high byte first, and the data, placed after `question_end`
/// bytes and followed by anything, is read back by `answer_rdata` as exactly
/// that data.
pub proof fn law_rdata_reads_back(prefix: Seq<u8>, fixed: Seq<u8>, data: Seq<u8>, tail: Seq<u8>)
    requires
        fixed.len() == 10,
        data.len() < 65536,
    ensures
        ({
            let r = prefix + fixed + seq![(data.len() / 256) as u8, (data.len() % 256) as u8] + data + tail;
            let qe = prefix.len() as int;
            &&& rdata_in_bounds(r, qe)
            &&& first_rdlength(r, qe) == data.len()
            &&& r.subrange(qe + 12, qe + 12 + first_rdlength(r, qe)) == data
        }),
{
    let r = prefix + fixed + seq![(data.len() / 256) as u8, (data.len() % 256) as u8] + data + tail;
    let qe = prefix.len() as int;
    assert(r[qe + 10] == (data.len() / 256) as u8);
    assert(r[qe + 11] == (data.len() % 256) as u8);
    assert(r.subrange(qe + 12, qe + 12 + data.len()) =~= data);
}

/// Law: the data length `answer_rdata` uses is the 16-bit big-endian number
/// at bytes 10 and 11 of the answer record, whatever its value.
pub proof fn law_rdlength_is_big_endian(response: Seq<u8>, question_end: int)
    requires
        0 <= question_end,
        question_end + 12 <= response.len(),
    ensures
        first_rdlength(response, question_end) == response[question_end + 10] * 256 + response[question_end + 11],
        0 <= first_rdlength(response, question_end) < 65536,
{
}

} // verus!
