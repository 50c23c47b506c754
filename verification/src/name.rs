use vstd::prelude::*;
use vstd::utf8::{decode_utf8, valid_utf8};

use crate::error::DnsError;
use crate::text::{str_from_utf8, string_from_utf8_lossy, utf8_lossy};

verus! {

/// Where a walk over a length-prefixed name (as `parse_answer` reads it) ends.
pub enum NameWalk {
    /// A zero byte ended the name; these are its labels, in order.
    Labels(Seq<Seq<u8>>),
    /// A label's length byte points past the last byte.
    Overrun,
    /// The walk has to read a byte at or beyond the end of the input.
    OffEnd,
}

/// The walk that `parse_answer` makes from byte `i`: read a length byte; zero
/// ends the name; otherwise that many bytes form a label, and the byte right
/// after the label is read before the walk goes on from it.
pub open spec fn walk_name(s: Seq<u8>, i: int) -> NameWalk
    decreases s.len() - i,
{
    if i < 0 || i >= s.len() {
        NameWalk::OffEnd
    } else if s[i] == 0 {
        NameWalk::Labels(seq![])
    } else {
        let end = i + 1 + s[i];
        if end > s.len() {
            NameWalk::Overrun
        } else if end == s.len() {
            NameWalk::OffEnd
        } else {
            match walk_name(s, end) {
                NameWalk::Labels(rest) => NameWalk::Labels(seq![s.subrange(i + 1, end)] + rest),
                other => other,
            }
        }
    }
}

/// A walk's outcome with `done` labels read before it.
pub open spec fn after_labels(done: Seq<Seq<u8>>, w: NameWalk) -> NameWalk {
    match w {
        NameWalk::Labels(rest) => NameWalk::Labels(done + rest),
        other => other,
    }
}

/// The text of one label: its UTF-8 decoding, or nothing when it is not
/// valid UTF-8.
pub open spec fn label_text(label: Seq<u8>) -> Seq<char> {
    if valid_utf8(label) {
        decode_utf8(label)
    } else {
        seq![]
    }
}

/// The labels' texts joined by dots.
pub open spec fn dotted(labels: Seq<Seq<u8>>) -> Seq<char>
    decreases labels.len(),
{
    if labels.len() == 0 {
        seq![]
    } else if labels.len() == 1 {
        label_text(labels[0])
    } else {
        dotted(labels.drop_last()) + seq!['.'] + label_text(labels.last())
    }
}

/// Whether `parse_answer` can read `answer` without running off its end.
pub open spec fn answer_readable(answer: Seq<u8>) -> bool {
    !(walk_name(answer, 0) is OffEnd)
}

/// Tells whether `parse_answer` may be called on `answer`: true exactly when
/// its walk over the name never needs a byte past the end.
pub fn answer_is_readable(answer: &[u8]) -> (res: bool)
    ensures
        res == answer_readable(answer@),
{
    let n = answer.len();
    let mut idx: usize = 0;
    loop
        invariant
            n == answer@.len(),
            (walk_name(answer@, 0) is OffEnd) == (walk_name(answer@, idx as int) is OffEnd),
        decreases n - idx,
    {
        if idx >= n {
            return false;
        }
        let len = answer[idx] as usize;
        if len == 0 {
            return true;
        }
        if len > n - idx - 1 {
            return true;
        }
        if len == n - idx - 1 {
            return false;
        }
        idx = idx + 1 + len;
    }
}

/// Decodes a length-prefixed name into a dot-separated host name.
///
/// Walks the labels until a zero length byte; each label's text is its UTF-8
/// decoding (a label that is not valid UTF-8 adds no text), and a dot follows
/// each label that is followed by another one. Fails with
/// `InvalidPacketSize` when a label's length points past the end. The input
/// must be readable in the sense of `answer_is_readable`.
pub fn parse_answer(answer: &[u8]) -> (res: Result<String, DnsError>)
    requires
        answer_readable(answer@),
    ensures
        match walk_name(answer@, 0) {
            NameWalk::Labels(labels) => res matches Ok(host) && host@ == dotted(labels),
            _ => res == Err::<String, DnsError>(DnsError::InvalidPacketSize),
        },
{
    let n = answer.len();
    let mut idx: usize = 0;
    let mut host = String::new();
    let ghost mut done: Seq<Seq<u8>> = seq![];
    while answer[idx] != 0
        invariant
            n == answer@.len(),
            idx < n,
            walk_name(answer@, 0) == after_labels(done, walk_name(answer@, idx as int)),
            !(walk_name(answer@, idx as int) is OffEnd),
            host@ == dotted(done) + (if done.len() > 0 && answer@[idx as int] != 0 {
                seq!['.']
            } else {
                seq![]
            }),
        decreases n - idx,
    {
        let ghost start = idx as int;
        let len = answer[idx] as usize;
        idx += 1;
        if len > n - idx {
            return Err(DnsError::InvalidPacketSize);
        }
        let label = &answer[idx..idx + len];
        let ghost before = host@;
        match str_from_utf8(label) {
            Some(chunk) => host.append(chunk),
            None => {},
        }
        idx += len;
        proof {
            let l = answer@.subrange(start + 1, idx as int);
            assert(label@ == l);
            assert(host@ == before + label_text(l));
            let rest = walk_name(answer@, idx as int);
            if let NameWalk::Labels(r) = rest {
                assert(done + (seq![l] + r) =~= done.push(l) + r);
            }
            assert(done.push(l).drop_last() =~= done);
            done = done.push(l);
            assert(host@ == dotted(done));
        }
        if answer[idx] != 0 {
            proof {
                reveal_strlit(".");
            }
            host.append(".");
        }
        proof {
            assert(host@ =~= dotted(done) + (if done.len() > 0 && answer@[idx as int] != 0 {
                seq!['.']
            } else {
                seq![]
            }));
        }
    }
    proof {
        assert(done + seq![] =~= done);
        assert(host@ =~= dotted(done));
    }
    Ok(host)
}


/// The labels that `parse_dns_name` reads from `s`: it stops at the end of the
/// bytes or at a zero length byte; `None` when a label's length points past
/// the end.
pub open spec fn rdata_walk(s: Seq<u8>) -> Option<Seq<Seq<u8>>>
    decreases s.len(),
{
    if s.len() == 0 || s[0] == 0 {
        Some(seq![])
    } else if 1 + s[0] > s.len() {
        None
    } else {
        match rdata_walk(s.subrange(1 + s[0], s.len() as int)) {
            Some(rest) => Some(seq![s.subrange(1, 1 + s[0])] + rest),
            None => None,
        }
    }
}

/// Tells whether `parse_dns_name` may be called on `rdata`: true exactly when
/// no label's length points past the end of the bytes.
pub fn rdata_is_readable(rdata: &[u8]) -> (res: bool)
    ensures
        res == rdata_walk(rdata@) is Some,
{
    let n = rdata.len();
    let mut pos: usize = 0;
    assert(rdata@.subrange(0, n as int) =~= rdata@);
    loop
        invariant
            n == rdata@.len(),
            pos <= n,
            (rdata_walk(rdata@) is Some) == (rdata_walk(rdata@.subrange(pos as int, n as int)) is Some),
        decreases n - pos,
    {
        if pos == n {
            return true;
        }
        let len = rdata[pos] as usize;
        if len == 0 {
            return true;
        }
        if len > n - pos - 1 {
            return false;
        }
        let ghost rest = rdata@.subrange(pos as int, n as int);
        assert(rest.subrange(1 + len, rest.len() as int) =~= rdata@.subrange(pos + 1 + len, n as int));
        pos = pos + 1 + len;
    }
}

/// Splits a length-prefixed name into its labels, each decoded as UTF-8 with
/// invalid sequences replaced (`String::from_utf8_lossy`). Reading stops at a
/// zero length byte or at the end of the bytes. Every label's length must fit
/// in what follows it (see `rdata_is_readable`).
pub fn parse_dns_name(rdata: &[u8]) -> (labels: Vec<String>)
    requires
        rdata_walk(rdata@) is Some,
    ensures
        labels@.len() == rdata_walk(rdata@).unwrap().len(),
        forall|k: int|
            #![trigger labels@[k]]
            0 <= k < labels@.len() ==> {
                let l = rdata_walk(rdata@).unwrap()[k];
                &&& labels@[k]@ == utf8_lossy(l)
                &&& valid_utf8(l) ==> labels@[k]@ == decode_utf8(l)
            },
{
    let n = rdata.len();
    let mut pos: usize = 0;
    let mut labels: Vec<String> = Vec::new();
    let ghost mut done: Seq<Seq<u8>> = seq![];
    assert(rdata@.subrange(0, n as int) =~= rdata@);
    while pos < n
        invariant_except_break
            n == rdata@.len(),
            pos <= n,
            rdata_walk(rdata@) == (match rdata_walk(rdata@.subrange(pos as int, n as int)) {
                Some(rest) => Some(done + rest),
                None => None::<Seq<Seq<u8>>>,
            }),
            rdata_walk(rdata@.subrange(pos as int, n as int)) is Some,
            labels@.len() == done.len(),
            forall|k: int|
                #![trigger labels@[k]]
                0 <= k < labels@.len() ==> {
                    &&& labels@[k]@ == utf8_lossy(done[k])
                    &&& valid_utf8(done[k]) ==> labels@[k]@ == decode_utf8(done[k])
                },
        ensures
            rdata_walk(rdata@) == Some(done),
            labels@.len() == done.len(),
            forall|k: int|
                #![trigger labels@[k]]
                0 <= k < labels@.len() ==> {
                    &&& labels@[k]@ == utf8_lossy(done[k])
                    &&& valid_utf8(done[k]) ==> labels@[k]@ == decode_utf8(done[k])
                },
        decreases n - pos,
    {
        let len = rdata[pos] as usize;
        let ghost rest = rdata@.subrange(pos as int, n as int);
        if len == 0 {
            assert(done + seq![] =~= done);
            break;
        }
        let label = &rdata[pos + 1..pos + 1 + len];
        let text = string_from_utf8_lossy(label);
        labels.push(text);
        proof {
            let l = rest.subrange(1, 1 + len);
            assert(label@ =~= l);
            assert(rest.subrange(1 + len, rest.len() as int) =~= rdata@.subrange(pos + 1 + len, n as int));
            if let Some(r) = rdata_walk(rdata@.subrange(pos + 1 + len, n as int)) {
                assert(done + (seq![l] + r) =~= done.push(l) + r);
            }
            done = done.push(l);
        }
        pos = pos + 1 + len;
    }
    proof {
        if pos == n {
            assert(rdata@.subrange(n as int, n as int).len() == 0);
            assert(done + seq![] =~= done);
        }
    }
    labels
}


/// One label in wire form: a length byte (the label's length modulo 256,
/// which is what a cast to `u8` keeps) followed by the label's bytes.
pub open spec fn encode_label(label: Seq<u8>) -> Seq<u8> {
    seq![(label.len() % 256) as u8] + label
}

/// A sequence of labels in wire form, without the closing zero byte.
pub open spec fn encode_labels(labels: Seq<Seq<u8>>) -> Seq<u8>
    decreases labels.len(),
{
    if labels.len() == 0 {
        seq![]
    } else {
        encode_label(labels[0]) + encode_labels(labels.drop_first())
    }
}

/// A label that its length byte describes exactly: 1 to 255 bytes long.
pub open spec fn is_wire_label(label: Seq<u8>) -> bool {
    1 <= label.len() <= 255
}

/// Encoding one more label appends its wire form.
pub proof fn lemma_encode_labels_push(labels: Seq<Seq<u8>>, label: Seq<u8>)
    ensures
        encode_labels(labels.push(label)) == encode_labels(labels) + encode_label(label),
    decreases labels.len(),
{
    if labels.len() == 0 {
        let one = labels.push(label);
        assert(one.drop_first() =~= Seq::<Seq<u8>>::empty());
        assert(encode_labels(one.drop_first()) == Seq::<u8>::empty());
        assert(one[0] == label);
        assert(encode_labels(labels) == Seq::<u8>::empty());
        assert(encode_label(label) + Seq::<u8>::empty() =~= encode_label(label));
        assert(Seq::<u8>::empty() + encode_label(label) =~= encode_label(label));
    } else {
        assert(labels.push(label).drop_first() =~= labels.drop_first().push(label));
        assert(labels.push(label)[0] == labels[0]);
        lemma_encode_labels_push(labels.drop_first(), label);
        assert(encode_label(labels[0]) + (encode_labels(labels.drop_first()) + encode_label(label))
            =~= (encode_label(labels[0]) + encode_labels(labels.drop_first())) + encode_label(label));
    }
}

/// A walk is unaffected by bytes placed in front of where it starts.
proof fn lemma_walk_shift(p: Seq<u8>, t: Seq<u8>, i: int)
    requires
        0 <= i,
    ensures
        walk_name(p + t, p.len() + i) == walk_name(t, i),
    decreases t.len() - i,
{
    let s = p + t;
    let j = p.len() + i;
    if i < t.len() {
        assert(s[j] == t[i]);
        if t[i] != 0 {
            let end_t = i + 1 + t[i];
            if end_t < t.len() {
                lemma_walk_shift(p, t, end_t);
                assert(s.subrange(j + 1, p.len() + end_t) =~= t.subrange(i + 1, end_t));
            }
        }
    }
}

/// Law: a name written as length-prefixed labels (each 1 to 255 bytes) and a
/// closing zero byte is read back by `parse_answer`'s walk as exactly those
/// labels, whatever bytes follow it.
pub proof fn law_walk_reads_encoded_name(labels: Seq<Seq<u8>>, rest: Seq<u8>)
    requires
        forall|k: int| 0 <= k < labels.len() ==> is_wire_label(#[trigger] labels[k]),
    ensures
        walk_name(encode_labels(labels) + seq![0u8] + rest, 0) == NameWalk::Labels(labels),
    decreases labels.len(),
{
    if labels.len() == 0 {
        assert(encode_labels(labels) == Seq::<u8>::empty());
        assert((encode_labels(labels) + seq![0u8] + rest)[0] == 0);
        assert(labels =~= Seq::<Seq<u8>>::empty());
    } else {
        let l = labels[0];
        let tail = labels.drop_first();
        assert forall|k: int| 0 <= k < tail.len() implies is_wire_label(#[trigger] tail[k]) by {
            assert(tail[k] == labels[k + 1]);
        }
        law_walk_reads_encoded_name(tail, rest);
        let t = encode_labels(tail) + seq![0u8] + rest;
        let s = encode_labels(labels) + seq![0u8] + rest;
        assert(s =~= encode_label(l) + t);
        lemma_walk_shift(encode_label(l), t, 0);
        assert(s[0] == l.len());
        assert(encode_label(l).len() == 1 + l.len());
        assert(t.len() >= 1);
        assert(s.subrange(1, 1 + l.len() as int) =~= l);
        assert(walk_name(s, 1 + l.len() as int) == NameWalk::Labels(tail));
        assert(seq![l] + tail =~= labels);
    }
}

/// Law: `parse_dns_name` reads length-prefixed labels (each 1 to 255 bytes)
/// back as exactly those labels, whether the bytes end after the last label
/// or a zero byte follows it.
pub proof fn law_rdata_reads_encoded_name(labels: Seq<Seq<u8>>, rest: Seq<u8>)
    requires
        forall|k: int| 0 <= k < labels.len() ==> is_wire_label(#[trigger] labels[k]),
        rest.len() == 0 || rest[0] == 0,
    ensures
        rdata_walk(encode_labels(labels) + rest) == Some(labels),
    decreases labels.len(),
{
    if labels.len() == 0 {
        assert(encode_labels(labels) + rest =~= rest);
    } else {
        let l = labels[0];
        let tail = labels.drop_first();
        assert forall|k: int| 0 <= k < tail.len() implies is_wire_label(#[trigger] tail[k]) by {
            assert(tail[k] == labels[k + 1]);
        }
        law_rdata_reads_encoded_name(tail, rest);
        let t = encode_labels(tail) + rest;
        let s = encode_labels(labels) + rest;
        assert(s =~= encode_label(l) + t);
        assert(s[0] == l.len());
        assert(s.subrange(1, 1 + l.len() as int) =~= l);
        assert(s.subrange(1 + l.len() as int, s.len() as int) =~= t);
        assert(seq![l] + tail =~= labels);
    }
}

proof fn lemma_walks_agree_from(s: Seq<u8>, i: int)
    requires
        0 <= i,
    ensures
        walk_name(s, i) matches NameWalk::Labels(labels) ==> rdata_walk(s.subrange(i, s.len() as int)) == Some(labels),
    decreases s.len() - i,
{
    if i < s.len() && s[i] != 0 {
        let end = i + 1 + s[i];
        if end < s.len() {
            lemma_walks_agree_from(s, end);
            let sub = s.subrange(i, s.len() as int);
            assert(sub[0] == s[i]);
            assert(sub.subrange(1 + s[i], sub.len() as int) =~= s.subrange(end, s.len() as int));
            assert(sub.subrange(1, 1 + s[i]) =~= s.subrange(i + 1, end));
        }
    }
}

/// Law: the two name decoders agree. Wherever `parse_answer`'s walk ends at
/// a zero byte with some labels, `parse_dns_name` reads the same labels.
pub proof fn law_decoders_agree(s: Seq<u8>)
    ensures
        walk_name(s, 0) matches NameWalk::Labels(labels) ==> rdata_walk(s) == Some(labels),
{
    lemma_walks_agree_from(s, 0);
    assert(s.subrange(0, s.len() as int) =~= s);
}


/// The parts laid end to end with `sep` between each two of them.
pub open spec fn joined<A>(parts: Seq<Seq<A>>, sep: A) -> Seq<A>
    decreases parts.len(),
{
    if parts.len() == 0 {
        seq![]
    } else if parts.len() == 1 {
        parts[0]
    } else {
        joined(parts.drop_last(), sep).push(sep) + parts.last()
    }
}

/// The UTF-8 decoding of each label.
pub open spec fn decoded_labels(labels: Seq<Seq<u8>>) -> Seq<Seq<char>> {
    labels.map_values(|l: Seq<u8>| decode_utf8(l))
}

proof fn lemma_dotted_valid(labels: Seq<Seq<u8>>)
    requires
        forall|k: int| 0 <= k < labels.len() ==> valid_utf8(#[trigger] labels[k]),
    ensures
        dotted(labels) == joined(decoded_labels(labels), '.'),
    decreases labels.len(),
{
    if labels.len() >= 2 {
        let init = labels.drop_last();
        assert forall|k: int| 0 <= k < init.len() implies valid_utf8(#[trigger] init[k]) by {
            assert(init[k] == labels[k]);
        }
        lemma_dotted_valid(init);
        assert(decoded_labels(labels).drop_last() =~= decoded_labels(init));
        assert(valid_utf8(labels.last()));
        assert(decoded_labels(labels).last() == decode_utf8(labels.last()));
        assert(dotted(init) + seq!['.'] =~= dotted(init).push('.'));
    } else if labels.len() == 1 {
        assert(valid_utf8(labels[0]));
    }
}

/// Law: for a name written as labels of 1 to 255 bytes of valid UTF-8 each,
/// closed by a zero byte and followed by any bytes, `parse_answer`'s walk
/// reads exactly those labels, and the host name it gives is each label's
/// full UTF-8 decoding, the decodings separated by dots.
pub proof fn law_host_name_of_encoded_name(labels: Seq<Seq<u8>>, rest: Seq<u8>)
    requires
        forall|k: int| 0 <= k < labels.len() ==> is_wire_label(#[trigger] labels[k]),
        forall|k: int| 0 <= k < labels.len() ==> valid_utf8(#[trigger] labels[k]),
    ensures
        walk_name(encode_labels(labels) + seq![0u8] + rest, 0) == NameWalk::Labels(labels),
        dotted(labels) == joined(decoded_labels(labels), '.'),
{
    law_walk_reads_encoded_name(labels, rest);
    lemma_dotted_valid(labels);
}


/// Law: `parse_answer` may be called on every well-formed name (labels of 1
/// to 255 bytes and a closing zero byte, followed by anything), and never on
/// empty input.
pub proof fn law_encoded_names_are_readable(labels: Seq<Seq<u8>>, rest: Seq<u8>)
    requires
        forall|k: int| 0 <= k < labels.len() ==> is_wire_label(#[trigger] labels[k]),
    ensures
        answer_readable(encode_labels(labels) + seq![0u8] + rest),
        !answer_readable(Seq::<u8>::empty()),
{
    law_walk_reads_encoded_name(labels, rest);
}

} // verus!
