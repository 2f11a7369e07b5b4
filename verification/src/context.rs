//! Context-specific log levels.
//!
//! The logger thread keeps a level per context name.  A message whose
//! context has a level is written only if it passes that level; a message
//! from a context without a level is always written.
use crate::levels::{passes, DEFAULT_LEVEL, LOGGER_QUIT_LEVEL};
use vstd::prelude::*;

verus! {

/// The context the logger thread itself writes under.
pub const LOGGER_CONTEXT: &'static str = "logger";

/// Compares two strings with std's `<str as PartialEq>::eq`, which the
/// documentation defines as equality of their contents; the contract claims
/// exactly that: the result is whether both hold the same characters.
#[verifier::external_body]
fn str_eq(a: &str, b: &str) -> (r: bool)
    ensures
        r == (a@ == b@),
{
    a == b
}

/// A mapping from context names to log levels, each name at most once.
pub struct ContextLevels {
    entries: Vec<(String, u8)>,
}

/// The keys of `entries` are pairwise distinct.
pub open spec fn distinct_keys(entries: Seq<(String, u8)>) -> bool {
    forall|i: int, j: int|
        0 <= i < entries.len() && 0 <= j < entries.len() && i != j ==> #[trigger] entries[i].0@
            != #[trigger] entries[j].0@
}

/// The map that a list of distinct (name, level) pairs stands for.
pub open spec fn entries_map(entries: Seq<(String, u8)>) -> Map<Seq<char>, u8>
    decreases entries.len(),
{
    if entries.len() == 0 {
        Map::empty()
    } else {
        entries_map(entries.drop_last()).insert(entries.last().0@, entries.last().1)
    }
}

/// The logger's own context at the quit level, plus `ctx` (if any) at the default level.
pub open spec fn initial_levels(ctx: Option<Seq<char>>) -> Map<Seq<char>, u8> {
    let base = Map::<Seq<char>, u8>::empty().insert(LOGGER_CONTEXT@, LOGGER_QUIT_LEVEL);
    match ctx {
        Some(c) => base.insert(c, DEFAULT_LEVEL),
        None => base,
    }
}

/// A message at `level` from context `ctx` is written under `levels`.
pub open spec fn context_accepts(levels: Map<Seq<char>, u8>, level: u8, ctx: Seq<char>) -> bool {
    levels.contains_key(ctx) ==> passes(level, levels[ctx])
}

/// The shutdown notice gets past both the logger context's level (if it has
/// one) and the global level.
pub open spec fn exit_announced(levels: Map<Seq<char>, u8>, global_level: u8) -> bool {
    &&& context_accepts(levels, LOGGER_QUIT_LEVEL, LOGGER_CONTEXT@)
    &&& passes(LOGGER_QUIT_LEVEL, global_level)
}

proof fn lemma_entries_map_contains(entries: Seq<(String, u8)>, i: int)
    requires
        0 <= i < entries.len(),
        distinct_keys(entries),
    ensures
        entries_map(entries).contains_key(entries[i].0@),
        entries_map(entries)[entries[i].0@] == entries[i].1,
    decreases entries.len(),
{
    if i < entries.len() - 1 {
        lemma_entries_map_contains(entries.drop_last(), i);
        assert(entries.drop_last()[i] == entries[i]);
        assert(entries.last().0@ != entries[i].0@);
    }
}

proof fn lemma_entries_map_keys(entries: Seq<(String, u8)>, k: Seq<char>)
    requires
        entries_map(entries).contains_key(k),
    ensures
        exists|i: int| 0 <= i < entries.len() && #[trigger] entries[i].0@ == k,
    decreases entries.len(),
{
    if entries.len() > 0 && entries.last().0@ != k {
        lemma_entries_map_keys(entries.drop_last(), k);
        let i = choose|i: int| 0 <= i < entries.len() - 1 && #[trigger] entries.drop_last()[i].0@ == k;
        assert(entries[i].0@ == k);
    }
}

proof fn lemma_entries_map_update(entries: Seq<(String, u8)>, i: int, key: String, level: u8)
    requires
        0 <= i < entries.len(),
        distinct_keys(entries),
        key@ == entries[i].0@,
    ensures
        entries_map(entries.update(i, (key, level))) == entries_map(entries).insert(key@, level),
    decreases entries.len(),
{
    let updated = entries.update(i, (key, level));
    if i == entries.len() - 1 {
        assert(updated.drop_last() =~= entries.drop_last());
        let m = entries_map(entries.drop_last());
        assert(m.insert(entries.last().0@, entries.last().1).insert(key@, level) =~= m.insert(
            key@,
            level,
        ));
    } else {
        assert(updated.drop_last() =~= entries.drop_last().update(i, (key, level)));
        lemma_entries_map_update(entries.drop_last(), i, key, level);
        assert(entries.last().0@ != key@);
        let m = entries_map(entries.drop_last());
        assert(m.insert(key@, level).insert(entries.last().0@, entries.last().1) =~= m.insert(
            entries.last().0@,
            entries.last().1,
        ).insert(key@, level));
    }
}

impl View for ContextLevels {
    type V = Map<Seq<char>, u8>;

    /// The context names and their levels.
    closed spec fn view(&self) -> Map<Seq<char>, u8> {
        entries_map(self.entries@)
    }
}

impl ContextLevels {
    #[verifier::type_invariant]
    spec fn keys_are_distinct(&self) -> bool {
        distinct_keys(self.entries@)
    }

    /// Position of the entry named `ctx`, if there is one.
    fn position(&self, ctx: &str) -> (r: Option<usize>)
        ensures
            match r {
                Some(i) => i < self.entries@.len() && self.entries@[i as int].0@ == ctx@,
                None => !self@.contains_key(ctx@),
            },
    {
        proof {
            use_type_invariant(self);
        }
        let mut i: usize = 0;
        while i < self.entries.len()
            invariant
                i <= self.entries@.len(),
                forall|j: int| 0 <= j < i ==> self.entries@[j].0@ != ctx@,
            decreases self.entries@.len() - i,
        {
            if str_eq(self.entries[i].0.as_str(), ctx) {
                return Some(i);
            }
            i = i + 1;
        }
        proof {
            if self@.contains_key(ctx@) {
                lemma_entries_map_keys(self.entries@, ctx@);
            }
        }
        None
    }

    /// The level stored for `ctx`, if any.
    pub fn get(&self, ctx: &str) -> (r: Option<u8>)
        ensures
            match r {
                Some(level) => self@.contains_key(ctx@) && self@[ctx@] == level,
                None => !self@.contains_key(ctx@),
            },
    {
        proof {
            use_type_invariant(self);
        }
        match self.position(ctx) {
            Some(i) => {
                proof {
                    lemma_entries_map_contains(self.entries@, i as int);
                }
                Some(self.entries[i].1)
            },
            None => None,
        }
    }

    /// Sets `ctx` to `level`, adding it if it is not there yet.
    fn put(&mut self, ctx: &str, level: u8)
        ensures
            final(self)@ == old(self)@.insert(ctx@, level),
    {
        proof {
            use_type_invariant(&*self);
        }
        match self.position(ctx) {
            Some(i) => {
                let key = self.entries[i].0.clone();
                proof {
                    lemma_entries_map_update(self.entries@, i as int, key, level);
                }
                let mut entries = Vec::new();
                std::mem::swap(&mut entries, &mut self.entries);
                entries.set(i, (key, level));
                self.entries = entries;
            },
            None => {
                let key = String::from_str(ctx);
                proof {
                    assert forall|j: int| 0 <= j < self.entries@.len() implies self.entries@[j].0@
                        != key@ by {
                        lemma_entries_map_contains(self.entries@, j);
                    }
                    assert(self.entries@.push((key, level)).drop_last() =~= self.entries@);
                }
                let mut entries = Vec::new();
                std::mem::swap(&mut entries, &mut self.entries);
                entries.push((key, level));
                self.entries = entries;
            },
        }
    }

    /// The table a logger starts with: the logger's own context at the quit
    /// level, and `ctx`, if given, at the default level.
    pub fn create_context_specific_log_level(ctx: Option<&str>) -> (r: Self)
        ensures
            r@ == initial_levels(
                match ctx {
                    Some(c) => Some(c@),
                    None => None,
                },
            ),
    {
        let mut levels = ContextLevels { entries: Vec::new() };
        proof {
            assert(levels@ == Map::<Seq<char>, u8>::empty());
        }
        levels.put(LOGGER_CONTEXT, LOGGER_QUIT_LEVEL);
        match ctx {
            Some(c) => levels.put(c, DEFAULT_LEVEL),
            None => {},
        }
        levels
    }

    /// Gives `ctx` the default level, whether or not it had a level before.
    pub fn register_context(&mut self, ctx: &str)
        ensures
            final(self)@ == old(self)@.insert(ctx@, DEFAULT_LEVEL),
    {
        self.put(ctx, DEFAULT_LEVEL)
    }

    /// Sets the level of a context that already has one; returns whether it had one.
    pub fn set_context_specific_log_level(&mut self, ctx: &str, level: u8) -> (r: bool)
        ensures
            r == old(self)@.contains_key(ctx@),
            r ==> final(self)@ == old(self)@.insert(ctx@, level),
            !r ==> final(self)@ == old(self)@,
    {
        proof {
            use_type_invariant(&*self);
        }
        match self.position(ctx) {
            Some(i) => {
                proof {
                    lemma_entries_map_contains(self.entries@, i as int);
                }
                self.put(ctx, level);
                true
            },
            None => false,
        }
    }

    /// Whether a message at `level` from context `ctx` is to be written.
    pub fn accepts(&self, level: u8, ctx: &str) -> (r: bool)
        ensures
            r == context_accepts(self@, level, ctx@),
            r == (!self@.contains_key(ctx@) || level <= self@[ctx@]),
    {
        match self.get(ctx) {
            Some(limit) => level <= limit,
            None => true,
        }
    }

    /// Whether the logger thread announces its shutdown, given the global level.
    pub fn announces_exit(&self, global_level: u8) -> (r: bool)
        ensures
            r == exit_announced(self@, global_level),
    {
        self.accepts(LOGGER_QUIT_LEVEL, LOGGER_CONTEXT) && LOGGER_QUIT_LEVEL <= global_level
    }
}

} // verus!

verus! {

/// Of a freshly created table, the shutdown notice is written exactly when
/// the global level lets the quit level through — unless the logger's own
/// context was created as the user context (and so got the default level).
pub proof fn lemma_initial_exit_notice(ctx: Option<Seq<char>>, global_level: u8)
    ensures
        ctx != Some(LOGGER_CONTEXT@) ==> (exit_announced(initial_levels(ctx), global_level)
            <==> LOGGER_QUIT_LEVEL <= global_level),
        ctx == Some(LOGGER_CONTEXT@) ==> !exit_announced(initial_levels(ctx), global_level),
{
}

/// Giving the logger's context a level below the quit level silences the
/// shutdown notice; a level at or above it leaves the decision to the global level.
pub proof fn lemma_logger_level_controls_exit_notice(
    levels: Map<Seq<char>, u8>,
    level: u8,
    global_level: u8,
)
    ensures
        exit_announced(levels.insert(LOGGER_CONTEXT@, level), global_level) <==> (
        LOGGER_QUIT_LEVEL <= level && LOGGER_QUIT_LEVEL <= global_level),
{
}

/// The context filter in terms of the table: a message from a context
/// without a level is written, one from a context with a level is written
/// exactly when its level is at most that context's level.
pub proof fn lemma_context_filter_is_level_order(
    levels: Map<Seq<char>, u8>,
    level: u8,
    ctx: Seq<char>,
)
    ensures
        context_accepts(levels, level, ctx) <==> (!levels.contains_key(ctx) || level
            <= levels[ctx]),
        exit_announced(levels, level) <==> (196 <= level && (!levels.contains_key(LOGGER_CONTEXT@)
            || 196 <= levels[LOGGER_CONTEXT@])),
{
}

/// A context without a level never filters: every message from it is written.
pub proof fn lemma_unregistered_context_accepts_all(
    levels: Map<Seq<char>, u8>,
    level: u8,
    ctx: Seq<char>,
)
    requires
        !levels.contains_key(ctx),
    ensures
        context_accepts(levels, level, ctx),
{
}

/// Registering a context makes it settable: a later
/// `set_context_specific_log_level` on it succeeds and its messages are
/// then filtered by the new level, while other contexts are untouched.
pub proof fn lemma_register_then_set(
    levels: Map<Seq<char>, u8>,
    ctx: Seq<char>,
    level: u8,
    other: Seq<char>,
)
    ensures
        levels.insert(ctx, DEFAULT_LEVEL).contains_key(ctx),
        levels.insert(ctx, DEFAULT_LEVEL).insert(ctx, level)[ctx] == level,
        forall|l: u8|
            context_accepts(levels.insert(ctx, DEFAULT_LEVEL).insert(ctx, level), l, ctx)
                <==> passes(l, level),
        other != ctx ==> levels.insert(ctx, DEFAULT_LEVEL).insert(ctx, level).contains_key(other)
            == levels.contains_key(other),
{
}

/// An `error` message passes every context filter.
pub proof fn lemma_error_passes_contexts(levels: Map<Seq<char>, u8>, ctx: Seq<char>)
    ensures
        context_accepts(levels, 0, ctx),
{
}

} // verus!
