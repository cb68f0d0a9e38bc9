//! What a whole session with a streaming decoder comes to, however its input
//! is cut up and its output is taken.

use crate::decompress::{spec_decompress, OptionsView};
use crate::error::Error;
use crate::limit_laws::law_limit_only_refuses;
use crate::stream::{after, decoded, finished, initial_stream, reading, run_stream, DecoderView, Progress, Reading};
use crate::stream_laws::law_stream_agrees_with_one_shot;
use vstd::prelude::*;

verus! {

/// A call of a decoder, with what was handed in or came back.
pub enum Act {
    Feed(Seq<u8>),
    FinishInput,
    DecodeMore(Result<Progress, Error>),
    TakeReady(Seq<u8>),
}

/// The call `a` takes a decoder from `d` to `d1`, as the methods of
/// [`crate::stream::StreamDecoder`] say.
pub open spec fn acted(opts: OptionsView, d: DecoderView, a: Act, d1: DecoderView) -> bool {
    match a {
        Act::Feed(x) => !d.ended && d1 == (DecoderView { buffered: d.buffered + x, ..d }),
        Act::FinishInput => d1 == (DecoderView { ended: true, ..d }),
        Act::DecodeMore(r) => d.ready.len() == 0 && decoded(opts, d, r, d1),
        Act::TakeReady(x) => d.ready == x + d1.ready && d1 == (DecoderView { ready: d1.ready, ..d }),
    }
}

/// The call was the last: the input is finished, or refused.
pub open spec fn is_end(a: Act) -> bool {
    a matches Act::DecodeMore(r) && (r is Err || r == Ok::<Progress, Error>(Progress::Finished))
}

/// How a session ends with its last call.
pub open spec fn end_of(a: Act) -> Option<Error> {
    match a {
        Act::DecodeMore(Err(e)) => Some(e),
        _ => None,
    }
}

/// All that is fed.
pub open spec fn fed(acts: Seq<Act>) -> Seq<u8>
    decreases acts.len(),
{
    if acts.len() == 0 {
        Seq::empty()
    } else {
        fed(acts.drop_last()) + match acts.last() {
            Act::Feed(x) => x,
            _ => Seq::empty(),
        }
    }
}

/// All that is taken.
pub open spec fn taken(acts: Seq<Act>) -> Seq<u8>
    decreases acts.len(),
{
    if acts.len() == 0 {
        Seq::empty()
    } else {
        taken(acts.drop_last()) + match acts.last() {
            Act::TakeReady(x) => x,
            _ => Seq::empty(),
        }
    }
}

/// A decoder before its first call.
pub open spec fn fresh_decoder() -> DecoderView {
    DecoderView {
        state: initial_stream(),
        buffered: Seq::empty(),
        ended: false,
        ready: Seq::empty(),
    }
}

/// Calls of a fresh decoder one after another, with the decoder before and
/// after each; none comes after the last.
pub open spec fn is_session(opts: OptionsView, views: Seq<DecoderView>, acts: Seq<Act>) -> bool {
    &&& views.len() == acts.len() + 1
    &&& views[0] == fresh_decoder()
    &&& forall|i: int|
        #![trigger acts[i]]
        0 <= i < acts.len() ==> acted(opts, views[i], acts[i], views[i + 1])
    &&& forall|i: int| 0 <= i < acts.len() - 1 ==> !is_end(#[trigger] acts[i])
}

/// The input may go on with `later`.
pub open spec fn may_follow(views: Seq<DecoderView>, later: Seq<u8>) -> bool {
    views.last().ended ==> later.len() == 0
}

/// What has been taken and is ready comes first in what is read of the whole.
proof fn lemma_under_way(opts: OptionsView, views: Seq<DecoderView>, acts: Seq<Act>, later: Seq<u8>)
    requires
        is_session(opts, views, acts),
        forall|i: int| 0 <= i < acts.len() ==> !is_end(#[trigger] acts[i]),
        may_follow(views, later),
    ensures
        ({
            let d = views.last();
            reading(opts, initial_stream(), fed(acts) + later) == after(
                taken(acts) + d.ready,
                reading(opts, d.state, d.buffered + later),
            )
        }),
    decreases acts.len(),
{
    let none = Seq::<u8>::empty();
    let d1 = views.last();
    let rest = reading(opts, d1.state, d1.buffered + later);
    if acts.len() == 0 {
        assert(none + later =~= later);
        assert(none + none + rest.out =~= rest.out);
    } else {
        let a = acts.last();
        let pre = acts.drop_last();
        let before = views.drop_last();
        let d = before.last();
        assert(acted(opts, d, a, d1)) by {
            assert(acts[acts.len() - 1] == a);
        }
        assert forall|i: int| 0 <= i < pre.len() implies !is_end(#[trigger] pre[i]) by {
            assert(pre[i] == acts[i]);
        }
        assert forall|i: int|
            #![trigger pre[i]]
            0 <= i < pre.len() implies acted(opts, before[i], pre[i], before[i + 1]) by {
            assert(pre[i] == acts[i]);
        }
        match a {
            Act::Feed(x) => {
                lemma_under_way(opts, before, pre, x + later);
                assert(fed(acts) + later =~= fed(pre) + (x + later));
                assert(d1.buffered + later =~= d.buffered + (x + later));
                assert(taken(acts) =~= taken(pre));
            },
            Act::FinishInput => {
                lemma_under_way(opts, before, pre, later);
                assert(fed(acts) =~= fed(pre));
                assert(taken(acts) =~= taken(pre));
            },
            Act::TakeReady(x) => {
                lemma_under_way(opts, before, pre, later);
                assert(fed(acts) =~= fed(pre));
                assert(taken(acts) + d1.ready =~= taken(pre) + d.ready);
            },
            Act::DecodeMore(r) => {
                lemma_under_way(opts, before, pre, later);
                assert(fed(acts) =~= fed(pre));
                assert(taken(acts) =~= taken(pre));
                let whole = reading(opts, d.state, d.buffered + later);
                assert(whole == after(d1.ready, rest));
                assert((taken(pre) + d.ready) + (d1.ready + rest.out) =~= (taken(acts) + d1.ready)
                    + rest.out);
            },
        }
    }
}

/// A session that came to its end has handed out what is read of its input,
/// however it was cut up, and ended as that does; if it ended before all of
/// the input was fed, what is left makes no difference.
pub proof fn law_session(opts: OptionsView, views: Seq<DecoderView>, acts: Seq<Act>, later: Seq<u8>)
    requires
        is_session(opts, views, acts),
        acts.len() > 0,
        is_end(acts.last()),
        may_follow(views, later),
    ensures
        reading(opts, initial_stream(), fed(acts) + later) == (Reading {
            out: taken(acts),
            error: end_of(acts.last()),
        }),
{
    let a = acts.last();
    let pre = acts.drop_last();
    let before = views.drop_last();
    let d = before.last();
    let d1 = views.last();
    assert(acted(opts, d, a, d1)) by {
        assert(acts[acts.len() - 1] == a);
    }
    assert forall|i: int| 0 <= i < pre.len() implies !is_end(#[trigger] pre[i]) by {
        assert(pre[i] == acts[i]);
    }
    assert forall|i: int|
        #![trigger pre[i]]
        0 <= i < pre.len() implies acted(opts, before[i], pre[i], before[i + 1]) by {
        assert(pre[i] == acts[i]);
    }
    lemma_under_way(opts, before, pre, later);
    assert(fed(acts) =~= fed(pre));
    assert(taken(acts) =~= taken(pre));
    let whole = reading(opts, d.state, d.buffered + later);
    assert(whole.out =~= Seq::<u8>::empty());
    assert((taken(pre) + d.ready) + whole.out =~= taken(acts));
}

/// Two sessions with the same options and the same input hand out the same
/// bytes and end the same way, whatever the pieces in which the input came and
/// the output went.
pub proof fn law_cutting_up_makes_no_difference(
    opts: OptionsView,
    src: Seq<u8>,
    views1: Seq<DecoderView>,
    acts1: Seq<Act>,
    later1: Seq<u8>,
    views2: Seq<DecoderView>,
    acts2: Seq<Act>,
    later2: Seq<u8>,
)
    requires
        is_session(opts, views1, acts1),
        acts1.len() > 0 && is_end(acts1.last()),
        may_follow(views1, later1),
        src == fed(acts1) + later1,
        is_session(opts, views2, acts2),
        acts2.len() > 0 && is_end(acts2.last()),
        may_follow(views2, later2),
        src == fed(acts2) + later2,
    ensures
        taken(acts1) == taken(acts2),
        end_of(acts1.last()) == end_of(acts2.last()),
{
    law_session(opts, views1, acts1, later1);
    law_session(opts, views2, acts2, later2);
}

/// A session that ends without an error has handed out what decompressing its
/// input at once gives, and no more than the limit.
pub proof fn law_sessions_agree_with_one_shot(opts: OptionsView, views: Seq<DecoderView>, acts: Seq<Act>)
    requires
        opts.dictionary matches Some(d) ==> d.ctx.wf(),
        is_session(opts, views, acts),
        acts.len() > 0,
        is_end(acts.last()),
        end_of(acts.last()) is None,
    ensures
        spec_decompress(opts, fed(acts)) == Ok::<Seq<u8>, Error>(taken(acts)),
        taken(acts).len() <= opts.limit,
{
    let none = Seq::<u8>::empty();
    law_session(opts, views, acts, none);
    assert(fed(acts) + none =~= fed(acts));
    reveal(run_stream);
    law_stream_agrees_with_one_shot(opts, fed(acts));
    law_limit_only_refuses(opts, opts.limit, fed(acts));
}

/// Once a call has given an error, every later one gives the same, whatever
/// else is called in between.
pub proof fn law_errors_last(opts: OptionsView, views: Seq<DecoderView>, acts: Seq<Act>, i: int, j: int)
    requires
        views.len() == acts.len() + 1,
        forall|k: int|
            #![trigger acts[k]]
            0 <= k < acts.len() ==> acted(opts, views[k], acts[k], views[k + 1]),
        0 <= i < j < acts.len(),
        acts[i] matches Act::DecodeMore(r) && r is Err,
        acts[j] is DecodeMore,
    ensures
        acts[j] == acts[i],
{
    lemma_stays_failed(opts, views, acts, i, j);
    assert(acted(opts, views[j], acts[j], views[j + 1]));
}

proof fn lemma_stays_failed(opts: OptionsView, views: Seq<DecoderView>, acts: Seq<Act>, i: int, j: int)
    requires
        views.len() == acts.len() + 1,
        forall|k: int|
            #![trigger acts[k]]
            0 <= k < acts.len() ==> acted(opts, views[k], acts[k], views[k + 1]),
        0 <= i < j <= acts.len(),
        acts[i] matches Act::DecodeMore(r) && r is Err,
    ensures
        acts[i] == Act::DecodeMore(Err(views[j].state.phase->Failed_0)),
        views[j].state.phase is Failed,
    decreases j - i,
{
    if j == i + 1 {
        assert(acted(opts, views[i], acts[i], views[i + 1]));
    } else {
        lemma_stays_failed(opts, views, acts, i, j - 1);
        assert(acted(opts, views[j - 1], acts[j - 1], views[j]));
    }
}

} // verus!
