use crate::context::{Context, ContextView};
use vstd::prelude::*;

verus! {

/// The key that `Increment` counts under.
pub open spec fn counter_key() -> Seq<char> {
    "counter"@
}

/// The key that `Append` extends.
pub open spec fn message_key() -> Seq<char> {
    "message"@
}

/// The text that `Append` adds to the message.
pub open spec fn processed_suffix() -> Seq<char> {
    " -> processed"@
}

/// The events that the pipeline carries natively, by name.
#[derive(Clone, Copy, Debug, PartialEq, Eq, Structural)]
pub enum RegisteredEvent {
    /// `increment`: adds one to the integer under `counter` (zero where absent).
    Increment,
    /// `append`: adds " -> processed" to the text under `message` (empty
    /// where absent).
    Append,
}

/// What running one event on a context gives: the new context, and `None` on
/// success or the reason of the failure.
pub open spec fn apply_event(e: RegisteredEvent, m: ContextView) -> (ContextView, Option<Seq<char>>) {
    match e {
        RegisteredEvent::Increment => {
            let c = m.int_or_zero(counter_key());
            if c == i64::MAX {
                (m, Some(overflow_reason()))
            } else {
                (m.with_int(counter_key(), (c + 1) as i64), None)
            }
        },
        RegisteredEvent::Append => {
            (m.with_text(message_key(), m.text_or_empty(message_key()) + processed_suffix()), None)
        },
    }
}

/// The reason that `Increment` gives when the counter cannot grow.
pub open spec fn overflow_reason() -> Seq<char> {
    "counter overflow"@
}

/// The event registered under `name`: exact and case-sensitive.
pub open spec fn resolve_spec(name: Seq<char>) -> Option<RegisteredEvent> {
    if name == "increment"@ {
        Some(RegisteredEvent::Increment)
    } else if name == "append"@ {
        Some(RegisteredEvent::Append)
    } else {
        None
    }
}

pub open spec fn name_spec(e: RegisteredEvent) -> Seq<char> {
    match e {
        RegisteredEvent::Increment => "increment"@,
        RegisteredEvent::Append => "append"@,
    }
}

/// Looks up a natively registered event by its exact name.
pub fn resolve(name: &String) -> (r: Option<RegisteredEvent>)
    ensures
        r == resolve_spec(name@),
{
    let increment = String::from_str("increment");
    let append = String::from_str("append");
    if name.eq(&increment) {
        Some(RegisteredEvent::Increment)
    } else if name.eq(&append) {
        Some(RegisteredEvent::Append)
    } else {
        None
    }
}

impl RegisteredEvent {
    /// The name under which the event is registered.
    pub fn name(&self) -> (r: String)
        ensures
            r@ == name_spec(*self),
            resolve_spec(r@) == Some(*self),
    {
        proof {
            reveal_strlit("increment");
            reveal_strlit("append");
        }
        match self {
            RegisteredEvent::Increment => String::from_str("increment"),
            RegisteredEvent::Append => String::from_str("append"),
        }
    }

    /// Runs the event on the context. On failure the context is left as it was.
    pub fn execute(&self, ctx: &mut Context) -> (r: Result<(), String>)
        ensures
            final(ctx)@ == apply_event(*self, old(ctx)@).0,
            r is Ok <==> apply_event(*self, old(ctx)@).1 is None,
            r matches Err(e) ==> apply_event(*self, old(ctx)@).1 == Some(e@),
    {
        match self {
            RegisteredEvent::Increment => {
                let c = ctx.int_or_zero("counter");
                match c.checked_add(1) {
                    Some(n) => {
                        ctx.set_int("counter", n);
                        Ok(())
                    },
                    None => Err(String::from_str("counter overflow")),
                }
            },
            RegisteredEvent::Append => {
                let msg = ctx.text_or_empty("message");
                let updated = msg.concat(" -> processed");
                ctx.set_text("message", updated);
                Ok(())
            },
        }
    }
}

} // verus!
