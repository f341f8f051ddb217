//! The checkpoint format: a decision trail serialized to bytes, sufficient to
//! resume a depth-first search exactly where it left off. The format is
//! machine words, little endian: the record count, then per record its kind,
//! its committed choice and its outcome count followed by the outcomes.
//! Decoding an encoded trail provably yields the trail back, so a resumed
//! exploration continues with exactly the trail that was saved.

use vstd::prelude::*;
use vstd::assert_seqs_equal;
use crate::trail::{Decision, DecisionKind, DecisionView, Trail};

verus! {

/// The word a decision kind is stored as.
pub open spec fn kind_code(k: DecisionKind) -> u64 {
    if k == DecisionKind::Schedule {
        0
    } else {
        1
    }
}

/// One record's words: kind, committed choice, outcome count, outcomes.
pub open spec fn enc_record(d: DecisionView) -> Seq<u64> {
    seq![kind_code(d.kind), d.chosen as u64, d.outcomes.len() as u64] + d.outcomes
}

/// All records' words, in order.
pub open spec fn enc_records(t: Seq<DecisionView>) -> Seq<u64>
    decreases t.len(),
{
    if t.len() == 0 {
        Seq::empty()
    } else {
        enc_record(t[0]) + enc_records(t.drop_first())
    }
}

/// A whole trail's words: the record count, then the records.
pub open spec fn enc_words(t: Seq<DecisionView>) -> Seq<u64> {
    seq![t.len() as u64] + enc_records(t)
}

/// A trail the format can hold: every record's committed choice is one of its
/// outcomes (no count can overflow a word, since the trail lives in memory).
pub open spec fn encodable(t: Seq<DecisionView>) -> bool {
    &&& t.len() <= u64::MAX
    &&& forall|i: int|
        0 <= i < t.len() ==> 0 <= #[trigger] t[i].chosen < t[i].outcomes.len() <= u64::MAX
}

/// Parse one record at `pos`; `None` when the words do not hold one.
pub open spec fn dec_record(w: Seq<u64>, pos: int) -> Option<(DecisionView, int)> {
    if pos >= 0 && pos + 3 <= w.len() {
        let kind = w[pos];
        let chosen = w[pos + 1];
        let n = w[pos + 2] as int;
        if (kind == 0 || kind == 1) && pos + 3 + n <= w.len() && chosen < w[pos + 2] {
            Some(
                (
                    DecisionView {
                        kind: if kind == 0 {
                            DecisionKind::Schedule
                        } else {
                            DecisionKind::Read
                        },
                        outcomes: w.subrange(pos + 3, pos + 3 + n),
                        chosen: chosen as int,
                    },
                    pos + 3 + n,
                ),
            )
        } else {
            None
        }
    } else {
        None
    }
}

/// Parse `count` records starting at `pos`.
pub open spec fn dec_records(w: Seq<u64>, pos: int, count: int) -> Option<(Seq<DecisionView>, int)>
    decreases count,
{
    if count <= 0 {
        Some((Seq::empty(), pos))
    } else {
        match dec_record(w, pos) {
            None => None,
            Some((d, p2)) => match dec_records(w, p2, count - 1) {
                None => None,
                Some((s, p3)) => Some((seq![d] + s, p3)),
            },
        }
    }
}

/// Parse a whole trail; `None` unless the words are exactly one encoded trail.
pub open spec fn dec_words(w: Seq<u64>) -> Option<Seq<DecisionView>> {
    if w.len() >= 1 {
        match dec_records(w, 1, w[0] as int) {
            Some((s, p)) => if p == w.len() {
                Some(s)
            } else {
                None
            },
            None => None,
        }
    } else {
        None
    }
}

proof fn lemma_dec_of_enc_records(t: Seq<DecisionView>, w: Seq<u64>, pos: int)
    requires
        forall|i: int|
            0 <= i < t.len() ==> 0 <= #[trigger] t[i].chosen < t[i].outcomes.len() <= u64::MAX,
        0 <= pos,
        pos + enc_records(t).len() <= w.len(),
        w.subrange(pos, pos + enc_records(t).len() as int) == enc_records(t),
    ensures
        dec_records(w, pos, t.len() as int) == Some((t, pos + enc_records(t).len() as int)),
    decreases t.len(),
{
    if t.len() == 0 {
        assert(seq![] + Seq::<DecisionView>::empty() =~= t);
    } else {
        let d = t[0];
        let rec = enc_record(d);
        let rest = enc_records(t.drop_first());
        let whole = w.subrange(pos, pos + enc_records(t).len() as int);
        assert(enc_records(t) == rec + rest);
        let n = d.outcomes.len() as int;
        assert(w[pos] == kind_code(d.kind)) by {
            assert(whole[0] == enc_records(t)[0]);
        }
        assert(w[pos + 1] == d.chosen as u64) by {
            assert(whole[1] == enc_records(t)[1]);
        }
        assert(w[pos + 2] == d.outcomes.len() as u64) by {
            assert(whole[2] == enc_records(t)[2]);
        }
        assert(w.subrange(pos + 3, pos + 3 + n) =~= d.outcomes) by {
            assert forall|k: int| 0 <= k < n implies w.subrange(pos + 3, pos + 3 + n)[k]
                == d.outcomes[k] by {
                assert(whole[3 + k] == enc_records(t)[3 + k]);
                assert(enc_records(t)[3 + k] == rec[3 + k]);
            }
        }
        let d2 = dec_record(w, pos).unwrap().0;
        assert(d2.kind == d.kind && d2.outcomes == d.outcomes && d2.chosen == d.chosen);
        assert(d2 =~= d);
        assert(w.subrange(pos + rec.len() as int, pos + rec.len() + rest.len()) =~= rest) by {
            assert forall|k: int| 0 <= k < rest.len() implies w.subrange(
                pos + rec.len() as int,
                pos + rec.len() + rest.len(),
            )[k] == rest[k] by {
                assert(whole[rec.len() + k] == enc_records(t)[rec.len() + k]);
                assert(enc_records(t)[rec.len() + k] == rest[k]);
            }
        }
        lemma_dec_of_enc_records(t.drop_first(), w, pos + rec.len() as int);
        assert(seq![d] + t.drop_first() =~= t);
    }
}

/// Checkpoint round trip, word level: decoding an encoded trail yields the
/// trail back, exactly.
pub proof fn lemma_words_round_trip(t: Seq<DecisionView>)
    requires
        encodable(t),
    ensures
        dec_words(enc_words(t)) == Some(t),
{
    let w = enc_words(t);
    assert(w[0] == t.len() as u64);
    assert(w.subrange(1, 1 + enc_records(t).len() as int) =~= enc_records(t));
    lemma_dec_of_enc_records(t, w, 1);
}

/// One word as eight little-endian bytes.
pub open spec fn word_bytes(x: u64) -> Seq<u8> {
    seq![
        (x & 0xff) as u8,
        ((x >> 8) & 0xff) as u8,
        ((x >> 16) & 0xff) as u8,
        ((x >> 24) & 0xff) as u8,
        ((x >> 32) & 0xff) as u8,
        ((x >> 40) & 0xff) as u8,
        ((x >> 48) & 0xff) as u8,
        ((x >> 56) & 0xff) as u8,
    ]
}

/// A word sequence as bytes.
pub open spec fn words_bytes(w: Seq<u64>) -> Seq<u8>
    decreases w.len(),
{
    if w.len() == 0 {
        Seq::empty()
    } else {
        word_bytes(w[0]) + words_bytes(w.drop_first())
    }
}

/// Eight little-endian bytes as one word.
pub open spec fn bytes_word(b: Seq<u8>) -> u64 {
    (b[0] as u64) | ((b[1] as u64) << 8) | ((b[2] as u64) << 16) | ((b[3] as u64) << 24) | ((
    b[4] as u64) << 32) | ((b[5] as u64) << 40) | ((b[6] as u64) << 48) | ((b[7] as u64) << 56)
}

/// Bytes as words; `None` unless the length is a multiple of eight.
pub open spec fn bytes_words(b: Seq<u8>) -> Option<Seq<u64>>
    decreases b.len(),
{
    if b.len() == 0 {
        Some(Seq::empty())
    } else if b.len() >= 8 {
        match bytes_words(b.skip(8)) {
            Some(s) => Some(seq![bytes_word(b.subrange(0, 8))] + s),
            None => None,
        }
    } else {
        None
    }
}

proof fn lemma_word_bytes_rt(x: u64)
    ensures
        bytes_word(word_bytes(x)) == x,
        word_bytes(x).len() == 8,
{
    assert(((x & 0xff) as u8) as u64 == (x & 0xff)) by (bit_vector);
    assert((((x >> 8) & 0xff) as u8) as u64 == ((x >> 8) & 0xff)) by (bit_vector);
    assert((((x >> 16) & 0xff) as u8) as u64 == ((x >> 16) & 0xff)) by (bit_vector);
    assert((((x >> 24) & 0xff) as u8) as u64 == ((x >> 24) & 0xff)) by (bit_vector);
    assert((((x >> 32) & 0xff) as u8) as u64 == ((x >> 32) & 0xff)) by (bit_vector);
    assert((((x >> 40) & 0xff) as u8) as u64 == ((x >> 40) & 0xff)) by (bit_vector);
    assert((((x >> 48) & 0xff) as u8) as u64 == ((x >> 48) & 0xff)) by (bit_vector);
    assert((((x >> 56) & 0xff) as u8) as u64 == ((x >> 56) & 0xff)) by (bit_vector);
    assert((x & 0xff) | (((x >> 8) & 0xff) << 8) | (((x >> 16) & 0xff) << 16) | (((x >> 24)
        & 0xff) << 24) | (((x >> 32) & 0xff) << 32) | (((x >> 40) & 0xff) << 40) | (((x >> 48)
        & 0xff) << 48) | (((x >> 56) & 0xff) << 56) == x) by (bit_vector);
}

proof fn lemma_words_bytes_rt(w: Seq<u64>)
    ensures
        bytes_words(words_bytes(w)) == Some(w),
        words_bytes(w).len() == 8 * w.len(),
    decreases w.len(),
{
    if w.len() == 0 {
    } else {
        lemma_word_bytes_rt(w[0]);
        lemma_words_bytes_rt(w.drop_first());
        let b = words_bytes(w);
        assert(b.subrange(0, 8) =~= word_bytes(w[0]));
        assert(b.skip(8) =~= words_bytes(w.drop_first()));
        assert(seq![bytes_word(b.subrange(0, 8))] + w.drop_first() =~= w);
    }
}

/// The checkpoint file's bytes for a trail.
pub open spec fn trail_bytes(t: Seq<DecisionView>) -> Seq<u8> {
    words_bytes(enc_words(t))
}

/// The trail a checkpoint file holds, if it holds one.
pub open spec fn bytes_trail(b: Seq<u8>) -> Option<Seq<DecisionView>> {
    match bytes_words(b) {
        Some(w) => dec_words(w),
        None => None,
    }
}

/// Checkpoint round trip: serialize a decision trail, deserialize it, and the
/// identical trail comes back — so exploration resumed from a checkpoint
/// continues with exactly the trail that was saved, and (runs being pure
/// functions of the trail) visits exactly the leaves an uninterrupted search
/// would have visited from that point.
pub proof fn lemma_checkpoint_round_trip(t: Seq<DecisionView>)
    requires
        encodable(t),
    ensures
        bytes_trail(trail_bytes(t)) == Some(t),
{
    lemma_words_bytes_rt(enc_words(t));
    lemma_words_round_trip(t);
}

proof fn lemma_enc_records_snoc(s: Seq<DecisionView>, d: DecisionView)
    ensures
        enc_records(s.push(d)) == enc_records(s) + enc_record(d),
    decreases s.len(),
{
    if s.len() == 0 {
        assert(s.push(d).drop_first() =~= Seq::<DecisionView>::empty());
        assert(enc_records(s.push(d)) == enc_record(d) + enc_records(
            Seq::<DecisionView>::empty(),
        ));
        assert_seqs_equal!(enc_record(d) + Seq::<u64>::empty() == enc_records(s) + enc_record(d));
    } else {
        assert(s.push(d).drop_first() =~= s.drop_first().push(d));
        lemma_enc_records_snoc(s.drop_first(), d);
        let a = enc_record(s[0]);
        let b = enc_records(s.drop_first());
        let c = enc_record(d);
        assert(s.push(d)[0] == s[0]);
        assert(enc_records(s.push(d)) == a + (b + c));
        assert_seqs_equal!(a + (b + c) == (a + b) + c);
    }
}

proof fn lemma_words_bytes_snoc(s: Seq<u64>, x: u64)
    ensures
        words_bytes(s.push(x)) == words_bytes(s) + word_bytes(x),
    decreases s.len(),
{
    if s.len() == 0 {
        assert(s.push(x).drop_first() =~= Seq::<u64>::empty());
        assert(words_bytes(s.push(x)) == word_bytes(x) + words_bytes(Seq::<u64>::empty()));
        assert_seqs_equal!(word_bytes(x) + Seq::<u8>::empty() == words_bytes(s) + word_bytes(x));
    } else {
        assert(s.push(x).drop_first() =~= s.drop_first().push(x));
        lemma_words_bytes_snoc(s.drop_first(), x);
        let a = word_bytes(s[0]);
        let b = words_bytes(s.drop_first());
        let c = word_bytes(x);
        assert(s.push(x)[0] == s[0]);
        assert(words_bytes(s.push(x)) == a + (b + c));
        assert_seqs_equal!(a + (b + c) == (a + b) + c);
    }
}

/// Append one word's eight little-endian bytes.
fn push_word_bytes(out: &mut Vec<u8>, x: u64)
    ensures
        final(out)@ == old(out)@ + word_bytes(x),
{
    proof {
        assert(x & 0xff <= 0xff) by (bit_vector);
        assert((x >> 8) & 0xff <= 0xff) by (bit_vector);
        assert((x >> 16) & 0xff <= 0xff) by (bit_vector);
        assert((x >> 24) & 0xff <= 0xff) by (bit_vector);
        assert((x >> 32) & 0xff <= 0xff) by (bit_vector);
        assert((x >> 40) & 0xff <= 0xff) by (bit_vector);
        assert((x >> 48) & 0xff <= 0xff) by (bit_vector);
        assert((x >> 56) & 0xff <= 0xff) by (bit_vector);
    }
    out.push((x & 0xff) as u8);
    out.push(((x >> 8) & 0xff) as u8);
    out.push(((x >> 16) & 0xff) as u8);
    out.push(((x >> 24) & 0xff) as u8);
    out.push(((x >> 32) & 0xff) as u8);
    out.push(((x >> 40) & 0xff) as u8);
    out.push(((x >> 48) & 0xff) as u8);
    out.push(((x >> 56) & 0xff) as u8);
    proof {
        assert_seqs_equal!(out@ == old(out)@ + word_bytes(x));
    }
}

/// Serialize a decision trail to checkpoint bytes. Total: every trail
/// encodes; decoding gives the trail back whenever it is `encodable`
/// (`lemma_checkpoint_round_trip`), which every engine-produced trail is.
pub fn encode_trail(t: &Trail) -> (r: Vec<u8>)
    ensures
        r@ == trail_bytes(t@),
{
    let mut out: Vec<u8> = Vec::new();
    push_word_bytes(&mut out, t.records.len() as u64);
    let ghost whole = t@;
    proof {
        assert(whole.subrange(0, 0) =~= Seq::<DecisionView>::empty());
        let hd = seq![whole.len() as u64];
        assert(hd + Seq::<u64>::empty() =~= hd);
        assert(hd.drop_first() =~= Seq::<u64>::empty());
        assert(words_bytes(hd) == word_bytes(whole.len() as u64) + words_bytes(hd.drop_first()));
        assert_seqs_equal!(out@ == words_bytes(hd + enc_records(whole.subrange(0, 0))));
    }
    let mut i: usize = 0;
    while i < t.records.len()
        invariant
            i <= t.records@.len(),
            whole == t@,
            whole.len() == t.records@.len(),
            out@ == words_bytes(seq![whole.len() as u64] + enc_records(whole.subrange(0, i as int))),
        decreases t.records@.len() - i,
    {
        let ghost w_pre = seq![whole.len() as u64] + enc_records(whole.subrange(0, i as int));
        let kind = match t.records[i].kind {
            DecisionKind::Schedule => 0u64,
            DecisionKind::Read => 1u64,
        };
        push_word_bytes(&mut out, kind);
        push_word_bytes(&mut out, t.records[i].chosen as u64);
        push_word_bytes(&mut out, t.records[i].outcomes.len() as u64);
        proof {
            lemma_words_bytes_snoc(w_pre, kind);
            lemma_words_bytes_snoc(w_pre.push(kind), whole[i as int].chosen as u64);
            lemma_words_bytes_snoc(
                w_pre.push(kind).push(whole[i as int].chosen as u64),
                whole[i as int].outcomes.len() as u64,
            );
        }
        let ghost w_mid = w_pre.push(kind).push(whole[i as int].chosen as u64).push(
            whole[i as int].outcomes.len() as u64,
        );
        let outs = &t.records[i].outcomes;
        let mut j: usize = 0;
        while j < outs.len()
            invariant
                j <= outs@.len(),
                outs@ == whole[i as int].outcomes,
                0 <= i < whole.len(),
                out@ == words_bytes(w_mid + outs@.subrange(0, j as int)),
            decreases outs@.len() - j,
        {
            push_word_bytes(&mut out, outs[j]);
            proof {
                lemma_words_bytes_snoc(w_mid + outs@.subrange(0, j as int), outs@[j as int]);
                assert((w_mid + outs@.subrange(0, j as int)).push(outs@[j as int]) =~= w_mid
                    + outs@.subrange(0, j + 1));
            }
            j = j + 1;
        }
        proof {
            lemma_enc_records_snoc(whole.subrange(0, i as int), whole[i as int]);
            assert(whole.subrange(0, i as int).push(whole[i as int]) =~= whole.subrange(0, i + 1));
            assert(outs@.subrange(0, outs@.len() as int) =~= outs@);
            assert(w_mid + whole[i as int].outcomes =~= seq![whole.len() as u64] + enc_records(
                whole.subrange(0, i + 1),
            ));
        }
        i = i + 1;
    }
    proof {
        assert(whole.subrange(0, whole.len() as int) =~= whole);
    }
    out
}

proof fn lemma_bytes_words_structure(b: Seq<u8>)
    ensures
        b.len() % 8 == 0 ==> (bytes_words(b) matches Some(w) && w.len() == b.len() / 8
            && (forall|k: int|
            0 <= k < b.len() / 8 ==> #[trigger] w[k] == bytes_word(b.subrange(8 * k, 8 * k + 8)))),
        b.len() % 8 != 0 ==> bytes_words(b) is None,
    decreases b.len(),
{
    if b.len() == 0 {
    } else if b.len() >= 8 {
        lemma_bytes_words_structure(b.skip(8));
        if b.len() % 8 == 0 {
            let w = bytes_words(b).unwrap();
            let w2 = bytes_words(b.skip(8)).unwrap();
            assert forall|k: int| 0 <= k < b.len() / 8 implies #[trigger] w[k] == bytes_word(
                b.subrange(8 * k, 8 * k + 8),
            ) by {
                if k > 0 {
                    assert(w[k] == w2[k - 1]);
                    assert(b.skip(8).subrange(8 * (k - 1), 8 * (k - 1) + 8) =~= b.subrange(
                        8 * k,
                        8 * k + 8,
                    ));
                }
            }
        }
    }
}

/// Deserialize checkpoint bytes into words; `None` unless the length is a
/// multiple of eight.
fn bytes_to_words(b: &[u8]) -> (r: Option<Vec<u64>>)
    ensures
        match r {
            Some(w) => bytes_words(b@) == Some(w@),
            None => bytes_words(b@) is None,
        },
{
    proof {
        lemma_bytes_words_structure(b@);
    }
    if b.len() % 8 != 0 {
        return None;
    }
    let count = b.len() / 8;
    let mut w: Vec<u64> = Vec::new();
    let mut i: usize = 0;
    while i < count
        invariant
            i <= count,
            count == b@.len() / 8,
            b@.len() % 8 == 0,
            w@.len() == i,
            b@.len() <= usize::MAX,
            forall|k: int| 0 <= k < i ==> #[trigger] w@[k] == bytes_word(b@.subrange(8 * k, 8 * k + 8)),
        decreases count - i,
    {
        proof {
            assert(8 * (i as int) + 8 <= b@.len()) by (nonlinear_arith)
                requires
                    0 <= i < count,
                    count == b@.len() / 8,
                    b@.len() % 8 == 0;
        }
        let base = 8 * i;
        let x = (b[base] as u64) | ((b[base + 1] as u64) << 8u64) | ((b[base + 2] as u64) << 16u64)
            | ((b[base + 3] as u64) << 24u64) | ((b[base + 4] as u64) << 32u64) | ((b[base
            + 5] as u64) << 40u64) | ((b[base + 6] as u64) << 48u64) | ((b[base + 7] as u64)
            << 56u64);
        proof {
            let sub = b@.subrange(8 * i as int, 8 * i + 8);
            assert(sub[0] == b@[8 * i as int] && sub[1] == b@[8 * i + 1] && sub[2] == b@[8 * i + 2]
                && sub[3] == b@[8 * i + 3] && sub[4] == b@[8 * i + 4] && sub[5] == b@[8 * i + 5]
                && sub[6] == b@[8 * i + 6] && sub[7] == b@[8 * i + 7]);
        }
        w.push(x);
        i = i + 1;
    }
    proof {
        let spec_w = bytes_words(b@).unwrap();
        assert_seqs_equal!(w@ == spec_w);
    }
    Some(w)
}

/// Deserialize a checkpoint's bytes back into the decision trail it holds;
/// `None` on anything that is not exactly one encoded trail.
pub fn decode_trail(b: &[u8]) -> (r: Option<Trail>)
    ensures
        match r {
            Some(t) => bytes_trail(b@) == Some(t@),
            None => bytes_trail(b@) is None,
        },
{
    let words = match bytes_to_words(b) {
        Some(w) => w,
        None => {
            return None;
        },
    };
    let w = &words;
    if w.len() == 0 {
        return None;
    }
    let count64 = w[0];
    if count64 > (usize::MAX) as u64 {
        proof {
            lemma_dec_records_len(w@, 1, count64 as int);
            assert(dec_words(w@) is None);
        }
        return None;
    }
    let count = count64 as usize;
    let mut records: Vec<Decision> = Vec::new();
    let mut pos: usize = 1;
    let mut k: usize = 0;
    while k < count
        invariant
            k <= count,
            count == count64 as int,
            count64 == w@[0],
            w@.len() >= 1,
            1 <= pos <= w@.len(),
            records@.len() == k,
            bytes_words(b@) == Some(w@),
            dec_words(w@) == (match dec_records(w@, pos as int, (count - k) as int) {
                Some((s, p)) => if p == w@.len() {
                    Some(records@.map(|x: int, d: Decision| d@) + s)
                } else {
                    None::<Seq<DecisionView>>
                },
                None => None::<Seq<DecisionView>>,
            }),
        decreases count - k,
    {
        // parse one record at pos
        if w.len() - pos < 3 {
            assert(dec_record(w@, pos as int) is None);
            return None;
        }
        let kindw = w[pos];
        let chosenw = w[pos + 1];
        let nw = w[pos + 2];
        let room = w.len() - (pos + 3);
        if !(kindw == 0 || kindw == 1) || nw > room as u64 || chosenw >= nw {
            assert(dec_record(w@, pos as int) is None);
            return None;
        }
        let n = nw as usize;
        let mut outcomes: Vec<u64> = Vec::new();
        proof {
            assert(outcomes@ =~= w@.subrange(pos + 3, pos + 3));
        }
        let mut j: usize = 0;
        while j < n
            invariant
                j <= n,
                pos + 3 + n <= w@.len(),
                w@.len() <= usize::MAX,
                outcomes@ == w@.subrange(pos + 3, pos + 3 + j as int),
            decreases n - j,
        {
            outcomes.push(w[pos + 3 + j]);
            proof {
                assert_seqs_equal!(outcomes@ == w@.subrange(pos + 3, pos + 3 + j + 1));
            }
            j = j + 1;
        }
        let d = Decision {
            kind: if kindw == 0 {
                DecisionKind::Schedule
            } else {
                DecisionKind::Read
            },
            outcomes,
            chosen: chosenw as usize,
        };
        proof {
            assert(dec_record(w@, pos as int) matches Some((dv, p2)) && (dv == d@ && p2 == pos + 3
                + n)) by {
                assert(d@.outcomes =~= w@.subrange(pos + 3, pos + 3 + n as int));
                assert(d@ =~= dec_record(w@, pos as int).unwrap().0);
            }
        }
        let ghost oldrec = records@;
        records.push(d);
        proof {
            let oldmap = oldrec.map(|x: int, dd: Decision| dd@);
            let newmap = records@.map(|x: int, dd: Decision| dd@);
            assert_seqs_equal!(newmap == oldmap.push(d@));
            let rr = dec_records(w@, pos + 3 + n as int, (count - k - 1) as int);
            match rr {
                Some((s2, p2)) => {
                    assert_seqs_equal!(oldmap + (seq![d@] + s2) == newmap + s2);
                },
                None => {},
            }
        }
        pos = pos + 3 + n;
        k = k + 1;
    }
    if pos != w.len() {
        return None;
    }
    let t = Trail { records };
    proof {
        assert(dec_words(w@) == Some(records@.map(|x: int, d: Decision| d@)
            + Seq::<DecisionView>::empty()));
        assert(records@.map(|x: int, d: Decision| d@) + Seq::<DecisionView>::empty() =~= t@);
    }
    Some(t)
}

proof fn lemma_dec_records_len(w: Seq<u64>, pos: int, count: int)
    ensures
        dec_records(w, pos, count) matches Some((s, p)) ==> (s.len() == (if count >= 0 {
            count
        } else {
            0
        }) && (count > 0 ==> p <= w.len()) && p >= pos + 3 * (if count >= 0 { count } else { 0 })),
    decreases count,
{
    if count > 0 {
        match dec_record(w, pos) {
            None => {
                assert(dec_records(w, pos, count) is None);
            },
            Some((d, p2)) => {
                lemma_dec_records_len(w, p2, count - 1);
                assert(p2 >= pos + 3);
                match dec_records(w, p2, count - 1) {
                    None => {
                        assert(dec_records(w, pos, count) is None);
                    },
                    Some((s2, p3)) => {
                        assert(dec_records(w, pos, count) == Some((seq![d] + s2, p3)));
                        assert(p3 >= p2 + 3 * (count - 1));
                        assert(p2 + 3 * (count - 1) >= pos + 3 * count) by (nonlinear_arith)
                            requires
                                p2 >= pos + 3;
                        assert((seq![d] + s2).len() == count);
                    },
                }
            },
        }
    }
}

} // verus!
