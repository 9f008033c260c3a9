//! Domain names: a name is a sequence of labels, written on the wire as
//! length-prefixed labels closed by a zero byte, and possibly cut short by a
//! two-byte compression pointer to an absolute offset of the same message.
use vstd::prelude::*;
use crate::error::{DnsError, EncodingError};
use crate::util::{append_bytes, copy_range};

verus! {

/// The largest length of one label.
pub const MAX_LABEL_LEN: u8 = 63;

/// A length byte at or above this value starts a compression pointer.
pub const POINTER_TAG: u8 = 0xC0;

/// The byte that separates labels in the written form of a name.
pub const DOT: u8 = 0x2E;

/// The byte sequences of a vector of labels.
pub open spec fn label_seqs(v: Seq<Vec<u8>>) -> Seq<Seq<u8>> {
    v.map_values(|l: Vec<u8>| l@)
}

/// Every label is at most 63 bytes long.
pub open spec fn labels_fit(labels: Seq<Seq<u8>>) -> bool {
    forall|i: int| 0 <= i < labels.len() ==> #[trigger] labels[i].len() <= MAX_LABEL_LEN
}

/// Every label has 1 to 63 bytes: the names that survive a round trip.
pub open spec fn labels_valid(labels: Seq<Seq<u8>>) -> bool {
    forall|i: int|
        0 <= i < labels.len() ==> 1 <= #[trigger] labels[i].len() <= MAX_LABEL_LEN
}

/// The wire form of a name: each label after its length byte, then a zero byte.
pub open spec fn name_bytes(labels: Seq<Seq<u8>>) -> Seq<u8>
    decreases labels.len(),
{
    if labels.len() == 0 {
        seq![0u8]
    } else {
        seq![labels[0].len() as u8] + labels[0] + name_bytes(labels.drop_first())
    }
}

/// Labels read from `buf` at `pos` up to the first zero byte or pointer byte,
/// with the position of that byte; `None` where a length byte is missing, is
/// reserved (64 to 191), or announces more bytes than remain.
pub open spec fn read_labels(buf: Seq<u8>, pos: int) -> Option<(Seq<Seq<u8>>, int)>
    decreases buf.len() - pos,
{
    if pos < 0 || pos >= buf.len() {
        None
    } else if buf[pos] == 0 || buf[pos] >= POINTER_TAG {
        Some((Seq::empty(), pos))
    } else if buf[pos] > MAX_LABEL_LEN || pos + 1 + buf[pos] > buf.len() {
        None
    } else {
        let next = pos + 1 + buf[pos];
        match read_labels(buf, next) {
            Some((rest, stop)) => Some((seq![buf.subrange(pos + 1, next)] + rest, stop)),
            None => None,
        }
    }
}

/// The absolute offset that the pointer at `pos` names.
pub open spec fn pointer_target(buf: Seq<u8>, pos: int) -> int {
    (buf[pos] - POINTER_TAG) * 256 + buf[pos + 1]
}

/// The name that starts at `pos` of the message `buf`, with the offset just after
/// it. A pointer is followed once: the labels at its target, up to a zero byte or
/// a further pointer, complete the name, and reading goes on after the pointer.
pub open spec fn name_at(buf: Seq<u8>, pos: int) -> Option<(Seq<Seq<u8>>, int)> {
    match read_labels(buf, pos) {
        None => None,
        Some((first, stop)) => if buf[stop] == 0 {
            Some((first, stop + 1))
        } else if stop + 1 >= buf.len() || pointer_target(buf, stop) >= buf.len() {
            None
        } else {
            match read_labels(buf, pointer_target(buf, stop)) {
                Some((second, _)) => Some((first + second, stop + 2)),
                None => None,
            }
        },
    }
}

/// The labels of a dot-separated name: the runs of bytes between dots.
pub open spec fn split_dots(s: Seq<u8>) -> Seq<Seq<u8>>
    decreases s.len(),
{
    if s.len() == 0 {
        seq![Seq::empty()]
    } else {
        let init = split_dots(s.drop_last());
        if s.last() == DOT {
            init.push(Seq::empty())
        } else {
            init.update(init.len() - 1, init.last().push(s.last()))
        }
    }
}

/// Splitting gives at least one label.
pub proof fn lemma_split_dots_nonempty(s: Seq<u8>)
    ensures
        split_dots(s).len() >= 1,
    decreases s.len(),
{
    if s.len() > 0 {
        lemma_split_dots_nonempty(s.drop_last());
    }
}

/// Splits a dot-separated name into its labels.
pub fn labels_from_dotted(dotted: &[u8]) -> (r: Vec<Vec<u8>>)
    ensures
        label_seqs(r@) == split_dots(dotted@),
{
    let mut labels: Vec<Vec<u8>> = Vec::new();
    let mut cur: Vec<u8> = Vec::new();
    let mut i: usize = 0;
    assert(dotted@.take(0) =~= Seq::<u8>::empty());
    assert(label_seqs(labels@).push(cur@) =~= split_dots(dotted@.take(0)));
    while i < dotted.len()
        invariant
            i <= dotted@.len(),
            label_seqs(labels@).push(cur@) == split_dots(dotted@.take(i as int)),
        decreases dotted@.len() - i,
    {
        let ghost prev = dotted@.take(i as int);
        assert(dotted@.take(i as int + 1).drop_last() =~= prev);
        proof { lemma_split_dots_nonempty(prev); }
        if dotted[i] == DOT {
            labels.push(cur);
            cur = Vec::new();
        } else {
            cur.push(dotted[i]);
        }
        i = i + 1;
        assert(label_seqs(labels@).push(cur@) =~= split_dots(dotted@.take(i as int)));
    }
    assert(dotted@.take(i as int) =~= dotted@);
    labels.push(cur);
    assert(label_seqs(labels@) =~= split_dots(dotted@));
    labels
}

/// Prepends `acc` to the labels of a reading result.
pub open spec fn prepend_labels(acc: Seq<Seq<u8>>, r: Option<(Seq<Seq<u8>>, int)>) -> Option<
    (Seq<Seq<u8>>, int),
> {
    match r {
        Some((ls, stop)) => Some((acc + ls, stop)),
        None => None,
    }
}

/// Writes a name in wire form; fails when a label is longer than 63 bytes.
pub fn encode_name(labels: &Vec<Vec<u8>>) -> (r: Result<Vec<u8>, EncodingError>)
    ensures
        r is Ok <==> labels_fit(label_seqs(labels@)),
        r is Ok ==> r->Ok_0@ == name_bytes(label_seqs(labels@)),
{
    let ghost ls = label_seqs(labels@);
    let mut out: Vec<u8> = Vec::new();
    let mut i: usize = 0;
    assert(ls.skip(0) =~= ls);
    while i < labels.len()
        invariant
            i <= labels@.len(),
            ls == label_seqs(labels@),
            forall|j: int| 0 <= j < i ==> #[trigger] ls[j].len() <= MAX_LABEL_LEN,
            out@ + name_bytes(ls.skip(i as int)) == name_bytes(ls),
        decreases labels@.len() - i,
    {
        let label = &labels[i];
        if label.len() > MAX_LABEL_LEN as usize {
            assert(ls[i as int].len() > MAX_LABEL_LEN);
            return Err(EncodingError::LabelTooLong);
        }
        let ghost before = out@;
        assert(ls.skip(i as int).drop_first() =~= ls.skip(i as int + 1));
        assert(ls.skip(i as int)[0] == label@);
        out.push(label.len() as u8);
        append_bytes(&mut out, label.as_slice());
        assert(out@ + name_bytes(ls.skip(i as int + 1)) =~= before + name_bytes(ls.skip(i as int)));
        i = i + 1;
    }
    assert(ls.skip(i as int) =~= Seq::<Seq<u8>>::empty());
    out.push(0);
    assert(out@ =~= name_bytes(ls));
    Ok(out)
}

/// Reads labels from `start` up to a zero byte or a pointer byte, appending them
/// to `labels`; returns the position of that byte.
fn read_labels_into(buf: &[u8], start: usize, labels: &mut Vec<Vec<u8>>) -> (r: Result<
    usize,
    DnsError,
>)
    ensures
        r is Ok <==> read_labels(buf@, start as int) is Some,
        r is Err ==> r == Err::<usize, DnsError>(DnsError::MalformedName),
        r is Ok ==> r->Ok_0 < buf@.len() && (buf@[r->Ok_0 as int] == 0 || buf@[r->Ok_0 as int]
            >= POINTER_TAG),
        r is Ok ==> r->Ok_0 as int == (read_labels(buf@, start as int)->0).1 && label_seqs(
            final(labels)@,
        ) == label_seqs(old(labels)@) + (read_labels(buf@, start as int)->0).0,
{
    let mut pos: usize = start;
    while pos < buf.len()
        invariant
            prepend_labels(label_seqs(old(labels)@), read_labels(buf@, start as int))
                == prepend_labels(label_seqs(labels@), read_labels(buf@, pos as int)),
        decreases buf@.len() - pos,
    {
        let len = buf[pos];
        if len == 0 || len >= POINTER_TAG {
            assert(label_seqs(labels@) + Seq::<Seq<u8>>::empty() =~= label_seqs(labels@));
            return Ok(pos);
        }
        if len > MAX_LABEL_LEN || len as usize > buf.len() - pos - 1 {
            return Err(DnsError::MalformedName);
        }
        let next = pos + 1 + len as usize;
        let label = copy_range(buf, pos + 1, next);
        let ghost acc = label_seqs(labels@);
        labels.push(label);
        assert(label_seqs(labels@) =~= acc.push(label@));
        assert forall|ls: Seq<Seq<u8>>| #![auto] acc + (seq![label@] + ls) =~= acc.push(label@) + ls by {}
        pos = next;
    }
    Err(DnsError::MalformedName)
}

/// Decodes the name at absolute offset `start` of the message `buf`, following
/// at most one compression pointer; returns its labels and the offset after it.
pub fn decode_name(buf: &[u8], start: usize) -> (r: Result<(Vec<Vec<u8>>, usize), DnsError>)
    ensures
        r is Ok <==> name_at(buf@, start as int) is Some,
        r is Err ==> r == Err::<(Vec<Vec<u8>>, usize), DnsError>(DnsError::MalformedName),
        r is Ok ==> (r->Ok_0).1 <= buf@.len(),
        r is Ok ==> label_seqs((r->Ok_0).0@) == (name_at(buf@, start as int)->0).0
            && (r->Ok_0).1 as int == (name_at(buf@, start as int)->0).1,
{
    let mut labels: Vec<Vec<u8>> = Vec::new();
    assert(label_seqs(labels@) =~= Seq::<Seq<u8>>::empty());
    let stop = read_labels_into(buf, start, &mut labels)?;
    assert(label_seqs(labels@) =~= (read_labels(buf@, start as int)->0).0);
    if buf[stop] == 0 {
        return Ok((labels, stop + 1));
    }
    if stop + 1 >= buf.len() {
        return Err(DnsError::MalformedName);
    }
    let target: usize = ((buf[stop] - POINTER_TAG) as usize) * 256 + buf[stop + 1] as usize;
    if target >= buf.len() {
        return Err(DnsError::MalformedName);
    }
    let _ = read_labels_into(buf, target, &mut labels)?;
    Ok((labels, stop + 2))
}

/// Reading the labels of an encoded name, placed anywhere in a buffer, gives
/// them back and stops at the closing zero byte.
proof fn lemma_read_labels_of_bytes(prefix: Seq<u8>, labels: Seq<Seq<u8>>, suffix: Seq<u8>)
    requires
        labels_valid(labels),
    ensures
        read_labels(prefix + name_bytes(labels) + suffix, prefix.len() as int) == Some(
            (labels, prefix.len() + name_bytes(labels).len() - 1 as int),
        ),
    decreases labels.len(),
{
    let buf = prefix + name_bytes(labels) + suffix;
    let pos = prefix.len() as int;
    if labels.len() == 0 {
        assert(buf[pos] == 0);
    } else {
        let l = labels[0];
        let rest = labels.drop_first();
        assert(labels_valid(rest)) by {
            assert forall|i: int| 0 <= i < rest.len() implies 1 <= #[trigger] rest[i].len()
                <= MAX_LABEL_LEN by {
                assert(rest[i] == labels[i + 1]);
            }
        }
        assert(1 <= l.len() <= MAX_LABEL_LEN);
        let longer_prefix = prefix + seq![l.len() as u8] + l;
        assert(buf =~= longer_prefix + name_bytes(rest) + suffix);
        assert(buf[pos] == l.len() as u8);
        lemma_read_labels_of_bytes(longer_prefix, rest, suffix);
        assert(buf.subrange(pos + 1, pos + 1 + l.len()) =~= l);
        assert(seq![l] + rest =~= labels);
    }
}

/// Decoding the wire form of a name whose labels have 1 to 63 bytes, wherever
/// it stands in a message, gives back the name and the offset just after it.
pub proof fn lemma_name_round_trip(prefix: Seq<u8>, labels: Seq<Seq<u8>>, suffix: Seq<u8>)
    requires
        labels_valid(labels),
    ensures
        name_at(prefix + name_bytes(labels) + suffix, prefix.len() as int) == Some(
            (labels, prefix.len() + name_bytes(labels).len() as int),
        ),
{
    lemma_read_labels_of_bytes(prefix, labels, suffix);
    lemma_name_bytes_ends_in_zero(labels);
    let buf = prefix + name_bytes(labels) + suffix;
    assert(buf[prefix.len() + name_bytes(labels).len() - 1] == 0);
}

/// The wire form of a name is never empty and ends in a zero byte.
pub proof fn lemma_name_bytes_ends_in_zero(labels: Seq<Seq<u8>>)
    ensures
        name_bytes(labels).len() >= 1,
        name_bytes(labels).last() == 0,
    decreases labels.len(),
{
    if labels.len() > 0 {
        lemma_name_bytes_ends_in_zero(labels.drop_first());
    }
}

} // verus!

verus! {

/// A fresh copy of a name's labels.
pub fn copy_name(name: &Vec<Vec<u8>>) -> (r: Vec<Vec<u8>>)
    ensures
        label_seqs(r@) == label_seqs(name@),
{
    let mut r: Vec<Vec<u8>> = Vec::new();
    let mut i: usize = 0;
    while i < name.len()
        invariant
            i <= name@.len(),
            label_seqs(r@) == label_seqs(name@).take(i as int),
        decreases name@.len() - i,
    {
        let label = &name[i];
        let copy = copy_range(label.as_slice(), 0, label.len());
        assert(copy@ =~= label@);
        let ghost prev = r@;
        r.push(copy);
        assert(label_seqs(r@) =~= label_seqs(prev).push(label_seqs(name@)[i as int]));
        i = i + 1;
        assert(label_seqs(r@) =~= label_seqs(name@).take(i as int));
    }
    assert(label_seqs(r@) =~= label_seqs(name@));
    r
}


/// Labels read from a buffer have 1 to 63 bytes.
pub proof fn lemma_read_labels_valid(buf: Seq<u8>, pos: int)
    requires
        read_labels(buf, pos) is Some,
    ensures
        labels_valid((read_labels(buf, pos)->0).0),
        pos <= (read_labels(buf, pos)->0).1 < buf.len(),
    decreases buf.len() - pos,
{
    if buf[pos] != 0 && buf[pos] < POINTER_TAG {
        let next = pos + 1 + buf[pos];
        lemma_read_labels_valid(buf, next);
        let rest = (read_labels(buf, next)->0).0;
        let all = (read_labels(buf, pos)->0).0;
        assert forall|i: int| 0 <= i < all.len() implies 1 <= #[trigger] all[i].len()
            <= MAX_LABEL_LEN by {
            if i > 0 {
                assert(all[i] == rest[i - 1]);
            }
        }
    }
}

/// A decoded name has labels of 1 to 63 bytes, so it can be written again.
pub proof fn lemma_name_at_valid(buf: Seq<u8>, pos: int)
    requires
        name_at(buf, pos) is Some,
    ensures
        labels_valid((name_at(buf, pos)->0).0),
        labels_fit((name_at(buf, pos)->0).0),
        pos < (name_at(buf, pos)->0).1 <= buf.len(),
{
    lemma_read_labels_valid(buf, pos);
    let (first, stop) = read_labels(buf, pos)->0;
    if buf[stop] != 0 {
        let t = pointer_target(buf, stop);
        lemma_read_labels_valid(buf, t);
        let second = (read_labels(buf, t)->0).0;
        let all = first + second;
        assert forall|i: int| 0 <= i < all.len() implies 1 <= #[trigger] all[i].len()
            <= MAX_LABEL_LEN by {
            if i >= first.len() {
                assert(all[i] == second[i - first.len()]);
            }
        }
    }
    let ls = (name_at(buf, pos)->0).0;
    assert forall|i: int| 0 <= i < ls.len() implies #[trigger] ls[i].len() <= MAX_LABEL_LEN by {
        assert(1 <= ls[i].len() <= MAX_LABEL_LEN);
    }
}


/// A name written as a compression pointer to an offset of the message where
/// the wire form of a name stands decodes to that name, and reading goes on
/// just after the two pointer bytes.
pub proof fn lemma_pointer_resolves(buf: Seq<u8>, pos: int, target: int, labels: Seq<Seq<u8>>)
    requires
        labels_valid(labels),
        0 <= target < 0x4000,
        0 <= pos,
        pos + 2 <= buf.len(),
        buf[pos] == POINTER_TAG + target / 256,
        buf[pos + 1] == target % 256,
        target + name_bytes(labels).len() <= buf.len(),
        buf.subrange(target, target + name_bytes(labels).len()) == name_bytes(labels),
    ensures
        name_at(buf, pos) == Some((labels, pos + 2)),
{
    let end = target + name_bytes(labels).len();
    let prefix = buf.take(target);
    let suffix = buf.skip(end);
    assert(buf =~= prefix + name_bytes(labels) + suffix);
    lemma_read_labels_of_bytes(prefix, labels, suffix);
    assert(pointer_target(buf, pos) == target);
    assert(Seq::<Seq<u8>>::empty() + labels =~= labels);
}

} // verus!
