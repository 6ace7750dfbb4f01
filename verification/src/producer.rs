//! The producer's side of the channel: the messages that make the render
//! loop show a given list of effects.

use vstd::prelude::*;
use crate::effect::Effect;
use crate::state::{state_after, CorsairMsg, CorsairStateView};

verus! {

/// The messages that replace the effect stack by `effects`: one that
/// empties the stack, then one `AddEffect` per effect, in order.
pub open spec fn messages_for(effects: Seq<Effect>) -> Seq<CorsairMsg> {
    seq![CorsairMsg::RemoveAllEffects] + effects.map_values(
        |e: Effect| CorsairMsg::AddEffect(Box::new(e)),
    )
}

/// The state after a sequence of messages, applied first to last.
pub open spec fn state_after_all(v: CorsairStateView, msgs: Seq<CorsairMsg>) -> CorsairStateView
    decreases msgs.len(),
{
    if msgs.len() == 0 {
        v
    } else {
        state_after(state_after_all(v, msgs.drop_last()), msgs.last())
    }
}

/// Builds the messages that replace the effect stack by `effects`.
pub fn change_corsair_effects(effects: Vec<Effect>) -> (msgs: Vec<CorsairMsg>)
    ensures
        msgs@ == messages_for(effects@),
{
    let ghost all = effects@;
    let mut msgs: Vec<CorsairMsg> = Vec::new();
    msgs.push(CorsairMsg::RemoveAllEffects);
    for effect in it: effects
        invariant
            it.seq() == all,
            msgs@ == messages_for(all.take(it.index() as int)),
    {
        msgs.push(CorsairMsg::AddEffect(Box::new(effect)));
    }
    msgs
}

/// Applied in order, the messages for `effects` leave the render loop with
/// exactly `effects` as its global stack and with no override, whatever its
/// stack was before. The LEDs are not touched.
pub proof fn lemma_messages_replace_stack(v: CorsairStateView, effects: Seq<Effect>)
    ensures
        state_after_all(v, messages_for(effects)) =~= (CorsairStateView {
            leds: v.leds,
            effects: effects,
            key_effects: Seq::empty(),
        }),
    decreases effects.len(),
{
    let msgs = messages_for(effects);
    if effects.len() == 0 {
        assert(msgs.drop_last() =~= Seq::<CorsairMsg>::empty());
        assert(msgs.last() == CorsairMsg::RemoveAllEffects);
        assert(state_after_all(v, msgs.drop_last()) == v);
    } else {
        let front = effects.drop_last();
        lemma_messages_replace_stack(v, front);
        assert(msgs.drop_last() =~= messages_for(front));
        assert(msgs.last() == CorsairMsg::AddEffect(Box::new(effects.last())));
        assert(front.push(effects.last()) =~= effects);
    }
}

} // verus!
