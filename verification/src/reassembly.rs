//! Messages reassembled from their fragments, frame after frame: the
//! collector's steps taken in sequence.
use vstd::prelude::*;

use crate::error::WebSocketError;
use vstd::utf8::valid_utf8;

use crate::fragment::{
    accumulate_post, accumulate_step, pending_bytes, Assembly, FrameView, Handed,
};
use crate::frame::OpCode;

verus! {

/// The frames `frames` taken in one after another from message `cur` with
/// opcode `op`: what each one hands back, and the message and opcode at
/// the end.
pub open spec fn feed(cur: Option<Assembly>, op: OpCode, frames: Seq<FrameView>, max: usize) -> (
    Seq<Handed>,
    Option<Assembly>,
    OpCode,
)
    decreases frames.len(),
{
    if frames.len() == 0 {
        (Seq::empty(), cur, op)
    } else {
        let (h, c, o) = accumulate_step(cur, op, frames[0], max);
        let (hs, c2, o2) = feed(c, o, frames.drop_first(), max);
        (seq![h] + hs, c2, o2)
    }
}

/// The pieces `ps` joined in order.
pub open spec fn concat(ps: Seq<Seq<u8>>) -> Seq<u8>
    decreases ps.len(),
{
    if ps.len() == 0 {
        Seq::empty()
    } else {
        ps[0] + concat(ps.drop_first())
    }
}

/// Continuation frames carrying `qs`, unmasked, the last one final.
pub open spec fn continuations(qs: Seq<Seq<u8>>) -> Seq<FrameView> {
    Seq::new(
        qs.len(),
        |i: int| (i == qs.len() - 1, OpCode::Continuation, None::<[u8; 4]>, qs[i]),
    )
}

/// A binary message sent as fragments carrying `ps`: a Binary frame, then
/// Continuation frames, unmasked, the last one final.
pub open spec fn binary_fragments(ps: Seq<Seq<u8>>) -> Seq<FrameView> {
    Seq::new(
        ps.len(),
        |i: int|
            (
                i == ps.len() - 1,
                if i == 0 {
                    OpCode::Binary
                } else {
                    OpCode::Continuation
                },
                None::<[u8; 4]>,
                ps[i],
            ),
    )
}

/// Hands back nothing for all frames but the last, which hands back `last`.
pub open spec fn only_last(hs: Seq<Handed>, n: int, last: Handed) -> bool {
    &&& hs.len() == n
    &&& forall|i: int| 0 <= i < n - 1 ==> hs[i] == Ok::<Option<FrameView>, WebSocketError>(None)
    &&& hs[n - 1] == last
}

proof fn lemma_concat_len(ps: Seq<Seq<u8>>)
    requires
        ps.len() > 0,
    ensures
        concat(ps).len() >= ps[0].len(),
        concat(ps) == ps[0] + concat(ps.drop_first()),
{
}

/// Continuation frames taken in by a binary message with bytes `acc` so
/// far: each hands back nothing but the last, which hands back the whole
/// message.
proof fn lemma_feed_continuations(acc: Seq<u8>, qs: Seq<Seq<u8>>, max: usize)
    requires
        qs.len() >= 1,
        acc.len() + concat(qs).len() <= max,
    ensures
        ({
            let (hs, c, o) = feed(
                Some(Assembly::Binary { bytes: acc }),
                OpCode::Binary,
                continuations(qs),
                max,
            );
            &&& only_last(
                hs,
                qs.len() as int,
                Ok(Some((true, OpCode::Binary, None, acc + concat(qs)))),
            )
            &&& c is None
            &&& o == OpCode::Binary
        }),
    decreases qs.len(),
{
    lemma_concat_len(qs);
    let frames = continuations(qs);
    let rest = qs.drop_first();
    let cur = Some(Assembly::Binary { bytes: acc });
    assert(frames[0] == (qs.len() == 1, OpCode::Continuation, None::<[u8; 4]>, qs[0]));
    let (h0, c0, o0) = accumulate_step(cur, OpCode::Binary, frames[0], max);
    let (hs1, c1, o1) = feed(c0, o0, frames.drop_first(), max);
    assert(feed(cur, OpCode::Binary, frames, max) == (seq![h0] + hs1, c1, o1));
    if qs.len() == 1 {
        assert(frames.drop_first() =~= Seq::<FrameView>::empty());
        assert(rest =~= Seq::<Seq<u8>>::empty());
        assert(concat(rest) == Seq::<u8>::empty());
        assert(acc + concat(qs) =~= acc + qs[0]);
        assert(h0 == Ok::<Option<FrameView>, WebSocketError>(
            Some((true, OpCode::Binary, None::<[u8; 4]>, acc + qs[0])),
        ));
        assert(hs1 =~= Seq::<Handed>::empty());
        assert(seq![h0] + hs1 =~= seq![h0]);
    } else {
        let acc2 = acc + qs[0];
        assert(frames.drop_first() =~= continuations(rest));
        assert(acc2 + concat(rest) =~= acc + concat(qs));
        assert(h0 == Ok::<Option<FrameView>, WebSocketError>(None));
        assert(c0 == Some(Assembly::Binary { bytes: acc2 }));
        lemma_feed_continuations(acc2, rest, max);
        let hs = seq![h0] + hs1;
        assert forall|i: int| 0 <= i < qs.len() - 1 implies hs[i] == Ok::<
            Option<FrameView>,
            WebSocketError,
        >(None) by {
            if i > 0 {
                assert(hs[i] == hs1[i - 1]);
            }
        }
        assert(hs[qs.len() - 1] == hs1[rest.len() - 1]);
    }
}

/// A binary message sent in fragments is handed back whole by a collector
/// that is not reassembling anything: every fragment but the last hands
/// back nothing, the last hands back one final, unmasked Binary frame whose
/// payload is all the fragments' payloads in order, and nothing is left
/// being reassembled. This holds when the message is within the size limit
/// (a message in one frame is not checked against it).
pub proof fn lemma_binary_message_reassembles(op: OpCode, ps: Seq<Seq<u8>>, max: usize)
    requires
        ps.len() >= 1,
        ps.len() >= 2 ==> concat(ps).len() <= max,
    ensures
        ({
            let (hs, c, o) = feed(None, op, binary_fragments(ps), max);
            &&& only_last(hs, ps.len() as int, Ok(Some((true, OpCode::Binary, None, concat(ps)))))
            &&& c is None
        }),
{
    lemma_concat_len(ps);
    let frames = binary_fragments(ps);
    let rest = ps.drop_first();
    assert(frames[0] == (ps.len() == 1, OpCode::Binary, None::<[u8; 4]>, ps[0]));
    let (h0, c0, o0) = accumulate_step(None, op, frames[0], max);
    let (hs1, c1, o1) = feed(c0, o0, frames.drop_first(), max);
    assert(feed(None, op, frames, max) == (seq![h0] + hs1, c1, o1));
    if ps.len() == 1 {
        assert(frames.drop_first() =~= Seq::<FrameView>::empty());
        assert(rest =~= Seq::<Seq<u8>>::empty());
        assert(concat(rest) == Seq::<u8>::empty());
        assert(concat(ps) =~= ps[0]);
        assert(hs1 =~= Seq::<Handed>::empty());
        assert(seq![h0] + hs1 =~= seq![h0]);
    } else {
        assert(frames.drop_first() =~= continuations(rest));
        assert(h0 == Ok::<Option<FrameView>, WebSocketError>(None));
        assert(c0 == Some(Assembly::Binary { bytes: ps[0] }));
        lemma_feed_continuations(ps[0], rest, max);
        let hs = seq![h0] + hs1;
        assert forall|i: int| 0 <= i < ps.len() - 1 implies hs[i] == Ok::<
            Option<FrameView>,
            WebSocketError,
        >(None) by {
            if i > 0 {
                assert(hs[i] == hs1[i - 1]);
            }
        }
        assert(hs[ps.len() - 1] == hs1[rest.len() - 1]);
    }
}

/// A text message sent as fragments carrying `ps`: a Text frame, then
/// Continuation frames, unmasked, the last one final.
pub open spec fn text_fragments(ps: Seq<Seq<u8>>) -> Seq<FrameView> {
    Seq::new(
        ps.len(),
        |i: int|
            (
                i == ps.len() - 1,
                if i == 0 {
                    OpCode::Text
                } else {
                    OpCode::Continuation
                },
                None::<[u8; 4]>,
                ps[i],
            ),
    )
}

/// `states` and `hs` are what a collector goes through when handed
/// `frames` one after another: before each frame its message and opcode,
/// and what each call hands back, each call as
/// [`crate::fragment::Fragments::accumulate`] promises.
pub open spec fn is_run(
    states: Seq<(Option<Assembly>, OpCode)>,
    frames: Seq<FrameView>,
    hs: Seq<Handed>,
    max: usize,
) -> bool {
    &&& states.len() == frames.len() + 1
    &&& hs.len() == frames.len()
    &&& forall|i: int|
        0 <= i < frames.len() ==> #[trigger] accumulate_post(
            states[i].0,
            states[i].1,
            frames[i],
            max,
            hs[i],
            states[i + 1].0,
            states[i + 1].1,
        )
}

proof fn lemma_concat_push(qs: Seq<Seq<u8>>, q: Seq<u8>)
    ensures
        concat(qs.push(q)) == concat(qs) + q,
    decreases qs.len(),
{
    if qs.len() == 0 {
        assert(qs.push(q).drop_first() =~= Seq::<Seq<u8>>::empty());
        assert(concat(qs.push(q).drop_first()) == Seq::<u8>::empty());
        assert(concat(qs.push(q)) =~= concat(qs) + q);
    } else {
        assert(qs.push(q).drop_first() =~= qs.drop_first().push(q));
        lemma_concat_push(qs.drop_first(), q);
        assert(concat(qs.push(q)) =~= concat(qs) + q);
    }
}

proof fn lemma_concat_split(ps: Seq<Seq<u8>>, i: int)
    requires
        0 <= i <= ps.len(),
    ensures
        concat(ps) == concat(ps.take(i)) + concat(ps.skip(i)),
    decreases i,
{
    if i == 0 {
        assert(ps.take(0) =~= Seq::<Seq<u8>>::empty());
        assert(ps.skip(0) =~= ps);
        assert(concat(ps.take(0)) == Seq::<u8>::empty());
        assert(concat(ps) =~= concat(ps.take(i)) + concat(ps.skip(i)));
    } else {
        lemma_concat_split(ps.drop_first(), i - 1);
        assert(ps.drop_first().take(i - 1) =~= ps.take(i).drop_first());
        assert(ps.drop_first().skip(i - 1) =~= ps.skip(i));
        assert(ps.take(i)[0] == ps[0]);
        assert(concat(ps) =~= concat(ps.take(i)) + concat(ps.skip(i)));
    }
}

/// After the first `i` fragments of a UTF-8 text message (not the last),
/// the collector has handed back nothing and holds those fragments' bytes.
proof fn lemma_text_run_prefix(
    states: Seq<(Option<Assembly>, OpCode)>,
    ps: Seq<Seq<u8>>,
    hs: Seq<Handed>,
    max: usize,
    i: int,
)
    requires
        ps.len() >= 2,
        valid_utf8(concat(ps)),
        concat(ps).len() <= max,
        states[0].0 is None,
        is_run(states, text_fragments(ps), hs, max),
        1 <= i < ps.len(),
    ensures
        states[i].1 == OpCode::Text,
        states[i].0 matches Some(Assembly::Text { tail, bytes, len }) && bytes + pending_bytes(tail)
            == concat(ps.take(i)) && len == concat(ps.take(i)).len(),
        forall|j: int| 0 <= j < i ==> hs[j] == Ok::<Option<FrameView>, WebSocketError>(None),
    decreases i,
{
    let frames = text_fragments(ps);
    lemma_concat_split(ps, i);
    if i == 1 {
        let p0 = ps[0];
        assert(frames[0] == (false, OpCode::Text, None::<[u8; 4]>, p0));
        assert(ps.take(1) =~= seq![p0]);
        assert(concat(seq![p0].drop_first()) == Seq::<u8>::empty()) by {
            assert(seq![p0].drop_first() =~= Seq::<Seq<u8>>::empty());
        }
        assert(concat(ps.take(1)) =~= p0);
        assert(p0 + concat(ps.skip(1)) == concat(ps));
        assert(accumulate_post(states[0].0, states[0].1, frames[0], max, hs[0], states[1].0, states[1].1));
    } else {
        lemma_text_run_prefix(states, ps, hs, max, i - 1);
        let k = i - 1;
        let pk = ps[k];
        assert(frames[k] == (false, OpCode::Continuation, None::<[u8; 4]>, pk));
        assert(ps.take(i) =~= ps.take(k).push(pk));
        lemma_concat_push(ps.take(k), pk);
        assert(accumulate_post(states[k].0, states[k].1, frames[k], max, hs[k], states[i].0, states[i].1));
        let whole = concat(ps.take(i));
        assert(whole + concat(ps.skip(i)) == concat(ps));
    }
}

/// A UTF-8 text message sent in fragments is handed back whole by a
/// collector that is not reassembling anything, however the fragments cut
/// its characters: every fragment but the last hands back nothing, the last
/// hands back one final, unmasked Text frame whose payload is all the
/// fragments' payloads in order, and nothing is left being reassembled.
/// This holds when the message is within the size limit (a message in one
/// frame is not checked against it).
pub proof fn lemma_text_message_reassembles(
    states: Seq<(Option<Assembly>, OpCode)>,
    ps: Seq<Seq<u8>>,
    hs: Seq<Handed>,
    max: usize,
)
    requires
        ps.len() >= 1,
        valid_utf8(concat(ps)),
        ps.len() >= 2 ==> concat(ps).len() <= max,
        states[0].0 is None,
        is_run(states, text_fragments(ps), hs, max),
    ensures
        only_last(hs, ps.len() as int, Ok(Some((true, OpCode::Text, None, concat(ps))))),
        states[ps.len() as int].0 is None,
{
    let frames = text_fragments(ps);
    let k = ps.len() - 1;
    assert(frames[k] == (true, if k == 0 { OpCode::Text } else { OpCode::Continuation }, None::<[u8; 4]>, ps[k]));
    assert(accumulate_post(states[k].0, states[k].1, frames[k], max, hs[k], states[k + 1].0, states[k + 1].1));
    if k == 0 {
        assert(ps =~= seq![ps[0]]);
        assert(concat(ps.drop_first()) == Seq::<u8>::empty()) by {
            assert(ps.drop_first() =~= Seq::<Seq<u8>>::empty());
        }
        assert(concat(ps) =~= ps[0]);
    } else {
        lemma_text_run_prefix(states, ps, hs, max, k);
        assert(ps.take(k + 1) =~= ps.take(k).push(ps[k]));
        assert(ps.take(k + 1) =~= ps);
        lemma_concat_push(ps.take(k), ps[k]);
        assert(concat(ps.take(k)) + ps[k] == concat(ps));
    }
}

} // verus!
