use event_chains::EventContext;
use vstd::prelude::*;

verus! {

#[verifier::external_type_specification]
#[verifier::external_body]
pub struct ExEventContext(EventContext);

/// The integer entries that an `EventContext` holds, by key.
pub uninterp spec fn stored_ints(c: EventContext) -> Map<Seq<char>, i64>;

/// The text entries that an `EventContext` holds, by key.
pub uninterp spec fn stored_texts(c: EventContext) -> Map<Seq<char>, Seq<char>>;

/// Relies on `EventContext::new`: a fresh context holds no entry.
#[verifier::external_body]
fn event_context_new() -> (r: EventContext)
    ensures
        stored_ints(r).dom() == Set::<Seq<char>>::empty(),
        stored_texts(r).dom() == Set::<Seq<char>>::empty(),
{
    EventContext::new()
}

/// Relies on `EventContext::set::<i64>`: the key now holds this integer,
/// whatever it held before.
#[verifier::external_body]
fn event_context_set_int(c: &mut EventContext, key: &str, value: i64)
    ensures
        stored_ints(*final(c)) == stored_ints(*old(c)).insert(key@, value),
        stored_texts(*final(c)) == stored_texts(*old(c)).remove(key@),
{
    c.set(key, value)
}

/// Relies on `EventContext::set::<String>`: the key now holds this text,
/// whatever it held before.
#[verifier::external_body]
fn event_context_set_text(c: &mut EventContext, key: &str, value: String)
    ensures
        stored_texts(*final(c)) == stored_texts(*old(c)).insert(key@, value@),
        stored_ints(*final(c)) == stored_ints(*old(c)).remove(key@),
{
    c.set(key, value)
}

/// Relies on `EventContext::get::<i64>`: the value when the key holds an
/// integer, `None` otherwise.
#[verifier::external_body]
fn event_context_get_int(c: &EventContext, key: &str) -> (r: Option<i64>)
    ensures
        r is Some <==> stored_ints(*c).contains_key(key@),
        r matches Some(v) ==> v == stored_ints(*c)[key@],
{
    c.get::<i64>(key)
}

/// Relies on `EventContext::get::<String>`: a copy of the value when the key
/// holds a text, `None` otherwise.
#[verifier::external_body]
fn event_context_get_text(c: &EventContext, key: &str) -> (r: Option<String>)
    ensures
        r is Some <==> stored_texts(*c).contains_key(key@),
        r matches Some(v) ==> v@ == stored_texts(*c)[key@],
{
    c.get::<String>(key)
}

/// What a context holds, as maps from key to value, one map per kind of value
/// that the pipeline reads.
pub ghost struct ContextView {
    pub ints: Map<Seq<char>, i64>,
    pub texts: Map<Seq<char>, Seq<char>>,
}

impl ContextView {
    /// The integer under `key`, or zero where it holds none.
    pub open spec fn int_or_zero(self, key: Seq<char>) -> i64 {
        if self.ints.contains_key(key) {
            self.ints[key]
        } else {
            0
        }
    }

    /// The text under `key`, or the empty text where it holds none.
    pub open spec fn text_or_empty(self, key: Seq<char>) -> Seq<char> {
        if self.texts.contains_key(key) {
            self.texts[key]
        } else {
            Seq::empty()
        }
    }

    pub open spec fn with_int(self, key: Seq<char>, value: i64) -> ContextView {
        ContextView { ints: self.ints.insert(key, value), texts: self.texts.remove(key) }
    }

    pub open spec fn with_text(self, key: Seq<char>, value: Seq<char>) -> ContextView {
        ContextView { ints: self.ints.remove(key), texts: self.texts.insert(key, value) }
    }
}

/// Reading back what was stored gives it back: an integer under `key` reads as
/// that integer and as no text; a text reads as that text and as no integer;
/// other keys are untouched; and a key that holds nothing reads as zero and as
/// the empty text.
pub proof fn lemma_round_trip(m: ContextView, key: Seq<char>, other: Seq<char>, n: i64, t: Seq<char>)
    requires
        other != key,
    ensures
        m.with_int(key, n).ints.contains_key(key),
        m.with_int(key, n).ints[key] == n,
        m.with_int(key, n).int_or_zero(key) == n,
        !m.with_int(key, n).texts.contains_key(key),
        m.with_text(key, t).texts.contains_key(key),
        m.with_text(key, t).texts[key] == t,
        m.with_text(key, t).text_or_empty(key) == t,
        !m.with_text(key, t).ints.contains_key(key),
        m.with_int(key, n).int_or_zero(other) == m.int_or_zero(other),
        m.with_int(key, n).text_or_empty(other) == m.text_or_empty(other),
        m.with_text(key, t).int_or_zero(other) == m.int_or_zero(other),
        m.with_text(key, t).text_or_empty(other) == m.text_or_empty(other),
        !m.ints.contains_key(key) ==> m.int_or_zero(key) == 0,
        !m.texts.contains_key(key) ==> m.text_or_empty(key) == Seq::<char>::empty(),
{
}

/// The shared state that every event and middleware reads and changes: a
/// mapping from keys to dynamically typed values.
pub struct Context {
    inner: EventContext,
}

impl View for Context {
    type V = ContextView;

    closed spec fn view(&self) -> ContextView {
        ContextView { ints: stored_ints(self.inner), texts: stored_texts(self.inner) }
    }
}

impl Context {
    /// An empty context.
    pub fn new() -> (r: Context)
        ensures
            r@.ints.dom() == Set::<Seq<char>>::empty(),
            r@.texts.dom() == Set::<Seq<char>>::empty(),
    {
        Context { inner: event_context_new() }
    }

    /// A context over the entries of an existing `EventContext`.
    pub fn from_event_context(inner: EventContext) -> (r: Context)
        ensures
            r@ == (ContextView { ints: stored_ints(inner), texts: stored_texts(inner) }),
    {
        Context { inner }
    }

    /// The `EventContext` that holds this context's entries.
    pub fn into_event_context(self) -> (r: EventContext)
        ensures
            self@ == (ContextView { ints: stored_ints(r), texts: stored_texts(r) }),
    {
        self.inner
    }

    /// Stores an integer under `key`; the last write wins.
    pub fn set_int(&mut self, key: &str, value: i64)
        ensures
            final(self)@ == old(self)@.with_int(key@, value),
    {
        event_context_set_int(&mut self.inner, key, value);
    }

    /// Stores a text under `key`; the last write wins.
    pub fn set_text(&mut self, key: &str, value: String)
        ensures
            final(self)@ == old(self)@.with_text(key@, value@),
    {
        event_context_set_text(&mut self.inner, key, value);
    }

    /// The integer under `key`, or `None` where the key is absent or holds
    /// another kind of value.
    pub fn get_int(&self, key: &str) -> (r: Option<i64>)
        ensures
            r is Some <==> self@.ints.contains_key(key@),
            r matches Some(v) ==> v == self@.ints[key@],
    {
        event_context_get_int(&self.inner, key)
    }

    /// The text under `key`, or `None` where the key is absent or holds
    /// another kind of value.
    pub fn get_text(&self, key: &str) -> (r: Option<String>)
        ensures
            r is Some <==> self@.texts.contains_key(key@),
            r matches Some(v) ==> v@ == self@.texts[key@],
    {
        event_context_get_text(&self.inner, key)
    }

    /// The integer under `key`, or zero: reading never fails.
    pub fn int_or_zero(&self, key: &str) -> (r: i64)
        ensures
            r == self@.int_or_zero(key@),
    {
        match self.get_int(key) {
            Some(v) => v,
            None => 0,
        }
    }

    /// The text under `key`, or the empty text: reading never fails.
    pub fn text_or_empty(&self, key: &str) -> (r: String)
        ensures
            r@ == self@.text_or_empty(key@),
    {
        match self.get_text(key) {
            Some(v) => v,
            None => String::new(),
        }
    }
}

} // verus!
