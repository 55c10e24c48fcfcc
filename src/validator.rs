//! The pushdown automaton that checks the token stream against the JSON
//! grammar and the configured structural limits, without recursion.
use crate::lexer::{
    copy_of, error_position, lemma_token_error_after, lemma_token_text, token_from, Lexer, LexerError, Token,
};
use crate::grammar::{lemma_ws_end, ws_end};
use crate::read::{lemma_offsets, lemma_pos_monotone, pos_at, pos_le, Position, Read};
use vstd::hash_set::StringHashSet;
use vstd::prelude::*;
use vstd::utf8::{decode_utf8, valid_utf8};

verus! {

/// A frame of the state stack.
#[derive(Debug, Clone, Copy, PartialEq, Eq, Structural)]
pub enum State {
    /// An open object.
    ProcessingObject,
    /// An open array.
    ProcessingArray,
    /// A value must come.
    RequireElement,
    /// A colon must come.
    RequireColon,
    /// An object key must come.
    RequireObjectKey,
    /// A comma, or the closer of the container below.
    OptionalComma,
    /// An object key, or `}`.
    OptionalObjectKey,
    /// A value, or `]`.
    OptionalElement,
}

/// The structural limits a validator enforces; `usize::MAX` turns a limit off.
#[derive(Debug, Clone, Copy, PartialEq, Eq, Structural)]
pub struct Limits {
    /// Maximum nesting of containers.
    pub max_depth: usize,
    /// Maximum decoded length of a string value, in bytes.
    pub max_string_length: usize,
    /// Maximum number of elements of an array.
    pub max_array_entries: usize,
    /// Maximum number of key-value pairs of an object.
    pub max_object_entries: usize,
    /// Maximum decoded length of an object key, in bytes.
    pub max_object_entry_name_length: usize,
    /// Whether a key may occur twice in one object.
    pub allow_duplicate_object_entry_name: bool,
}

/// Why the input was refused; each kind has its variant of `ValidatorError`.
#[derive(Debug, Clone, Copy, PartialEq, Eq, Structural)]
pub enum Fault {
    /// The lexer failed.
    Lexer(LexerError),
    /// The tokens break the grammar, or end early.
    InvalidJson,
    /// Input follows a complete document.
    TrailingData,
    /// A container opens too deep.
    MaxDepth,
    /// A string value is too long.
    MaxString,
    /// An array has too many entries.
    MaxArray,
    /// An object has too many entries.
    MaxObject,
    /// An object key is too long.
    MaxName,
    /// A key occurs twice in one object.
    Duplicate,
}

/// The stacks of a validator: states, entry counts of the open containers,
/// the keys seen in each open object as decoded text (kept only when
/// duplicates are refused), and the depth.
pub struct Frames {
    pub states: Seq<State>,
    pub entries: Seq<usize>,
    pub keys: Seq<Set<Seq<char>>>,
    pub depth: usize,
}

pub open spec fn expects_value(st: State) -> bool {
    st == State::RequireElement || st == State::OptionalElement
}

pub open spec fn push_state(f: Frames, st: State) -> Frames {
    Frames { states: f.states.push(st), ..f }
}

pub open spec fn top_is(f: Frames, st: State) -> bool {
    f.states.len() > 0 && f.states.last() == st
}

/// Opens a container: its frames, and one more level of depth.
pub open spec fn open_container(lim: Limits, f: Frames, object: bool) -> Result<Frames, Fault> {
    if f.depth >= lim.max_depth {
        Err(Fault::MaxDepth)
    } else {
        let c = if object { State::ProcessingObject } else { State::ProcessingArray };
        let inner = if object { State::OptionalObjectKey } else { State::OptionalElement };
        Ok(Frames {
            states: f.states.push(c).push(inner),
            entries: f.entries.push(0),
            keys: if object && !lim.allow_duplicate_object_entry_name {
                f.keys.push(Set::empty())
            } else {
                f.keys
            },
            depth: (f.depth + 1) as usize,
        })
    }
}

/// Closes the frames of a container whose state was popped; also gives its
/// entry count.
pub open spec fn close_container(lim: Limits, f: Frames, object: bool) -> Result<(Frames, usize), Fault> {
    let drop_keys = object && !lim.allow_duplicate_object_entry_name;
    if drop_keys && f.keys.len() == 0 {
        Err(Fault::InvalidJson)
    } else if f.entries.len() == 0 || f.depth == 0 {
        Err(Fault::InvalidJson)
    } else {
        Ok((Frames {
            states: f.states,
            entries: f.entries.drop_last(),
            keys: if drop_keys { f.keys.drop_last() } else { f.keys },
            depth: (f.depth - 1) as usize,
        }, f.entries.last()))
    }
}

/// After a container closes, the container below awaits a comma or its closer.
pub open spec fn after_close(f: Frames) -> Frames {
    if top_is(f, State::ProcessingObject) || top_is(f, State::ProcessingArray) {
        push_state(f, State::OptionalComma)
    } else {
        f
    }
}

/// Counts a value in the container below, if any.
pub open spec fn commit_value(lim: Limits, f: Frames) -> Result<Frames, Fault> {
    if top_is(f, State::ProcessingObject) || top_is(f, State::ProcessingArray) {
        let object = top_is(f, State::ProcessingObject);
        let max = if object { lim.max_object_entries } else { lim.max_array_entries };
        if f.entries.len() == 0 {
            Err(Fault::InvalidJson)
        } else if f.entries.last() >= max {
            Err(if object { Fault::MaxObject } else { Fault::MaxArray })
        } else {
            Ok(push_state(
                Frames {
                    entries: f.entries.update(f.entries.len() - 1, (f.entries.last() + 1) as usize),
                    ..f
                },
                State::OptionalComma,
            ))
        }
    } else {
        Ok(f)
    }
}

/// Records a key of the innermost object.
pub open spec fn commit_key(lim: Limits, f: Frames, key: Seq<u8>) -> Result<Frames, Fault> {
    if key.len() > lim.max_object_entry_name_length {
        Err(Fault::MaxName)
    } else if lim.allow_duplicate_object_entry_name {
        Ok(push_state(f, State::RequireColon))
    } else if f.keys.len() == 0 {
        Err(Fault::InvalidJson)
    } else if f.keys.last().contains(decode_utf8(key)) {
        Err(Fault::Duplicate)
    } else {
        Ok(push_state(
            Frames { keys: f.keys.update(f.keys.len() - 1, f.keys.last().insert(decode_utf8(key))), ..f },
            State::RequireColon,
        ))
    }
}

/// The closer of an object or an array, met in state `st` (already popped).
pub open spec fn close_with(lim: Limits, f: Frames, st: State, object: bool) -> Result<Frames, Fault> {
    let c = if object { State::ProcessingObject } else { State::ProcessingArray };
    let opt = if object { State::OptionalObjectKey } else { State::OptionalElement };
    if st == State::OptionalComma || st == opt {
        if !top_is(f, c) {
            Err(Fault::InvalidJson)
        } else {
            match close_container(lim, Frames { states: f.states.drop_last(), ..f }, object) {
                Err(e) => Err(e),
                Ok((g, n)) => if st == opt && n != 0 {
                    Err(Fault::InvalidJson)
                } else {
                    Ok(after_close(g))
                },
            }
        }
    } else if st == c {
        match close_container(lim, f, object) {
            Err(e) => Err(e),
            Ok((g, n)) => if n != 0 {
                Err(Fault::InvalidJson)
            } else {
                Ok(after_close(g))
            },
        }
    } else {
        Err(Fault::InvalidJson)
    }
}

/// The transition table: token `t` (with decoded bytes `d`) met in state `st`,
/// which was popped from `f`.
pub open spec fn transition(lim: Limits, f: Frames, st: State, t: Token, d: Seq<u8>) -> Result<Frames, Fault> {
    match t {
        Token::LBrace => if expects_value(st) {
            open_container(lim, f, true)
        } else {
            Err(Fault::InvalidJson)
        },
        Token::LBracket => if expects_value(st) {
            open_container(lim, f, false)
        } else {
            Err(Fault::InvalidJson)
        },
        Token::RBrace => close_with(lim, f, st, true),
        Token::RBracket => close_with(lim, f, st, false),
        Token::Colon => if st == State::RequireColon {
            Ok(push_state(f, State::RequireElement))
        } else {
            Err(Fault::InvalidJson)
        },
        Token::Comma => if st != State::OptionalComma {
            Err(Fault::InvalidJson)
        } else if top_is(f, State::ProcessingObject) {
            Ok(push_state(f, State::RequireObjectKey))
        } else if top_is(f, State::ProcessingArray) {
            Ok(push_state(f, State::RequireElement))
        } else {
            Err(Fault::InvalidJson)
        },
        Token::String => if st == State::OptionalObjectKey || st == State::RequireObjectKey {
            commit_key(lim, f, d)
        } else if expects_value(st) {
            if d.len() > lim.max_string_length {
                Err(Fault::MaxString)
            } else {
                commit_value(lim, f)
            }
        } else {
            Err(Fault::InvalidJson)
        },
        _ => if expects_value(st) {
            commit_value(lim, f)
        } else {
            Err(Fault::InvalidJson)
        },
    }
}

/// Why a run stopped: the fault, the position of the reader at that moment
/// and the decoded bytes of the last string token.
pub struct Rejection {
    pub fault: Fault,
    pub position: Position,
    pub text: Seq<u8>,
}

pub open spec fn rejection(fault: Fault, position: Position, text: Seq<u8>) -> Rejection {
    Rejection { fault, position, text }
}

/// A lexer error, which carries its own position.
pub open spec fn lexer_rejection(e: LexerError) -> Rejection {
    rejection(Fault::Lexer(e), Position { line: 1, column: 0, offset: 0 }, Seq::empty())
}

/// The stacks before any token: one value is required.
pub open spec fn initial_frames() -> Frames {
    Frames { states: seq![State::RequireElement], entries: Seq::empty(), keys: Seq::empty(), depth: 0 }
}

/// Every limit off, duplicate keys allowed.
pub open spec fn no_limits() -> Limits {
    Limits {
        max_depth: usize::MAX,
        max_string_length: usize::MAX,
        max_array_entries: usize::MAX,
        max_object_entries: usize::MAX,
        max_object_entry_name_length: usize::MAX,
        allow_duplicate_object_entry_name: true,
    }
}

/// Whether a container or a state is still open.
pub open spec fn is_open(f: Frames) -> bool {
    f.states.len() > 0 || f.depth != 0
}

/// The check after the loop: what comes next in the input, given the stacks.
/// `Ok(true)`: the document is complete; `Ok(false)`: more is to come.
pub open spec fn finish(lim: Limits, s: Seq<u8>, f: Frames, at: int) -> (Result<bool, Rejection>, Frames, int) {
    match token_from(s, at) {
        Err(e) => (Err(lexer_rejection(e)), f, at),
        Ok(None) => if is_open(f) {
            (Err(rejection(Fault::InvalidJson, pos_at(s, s.len() as int), Seq::empty())), f, s.len() as int)
        } else {
            (Ok(true), f, s.len() as int)
        },
        Ok(Some((t, d, e))) => if is_open(f) {
            (Ok(false), f, at)
        } else {
            (Err(rejection(Fault::TrailingData, pos_at(s, e), d)), f, at)
        },
    }
}

/// One token of `s` from index `at`, fed to the automaton with stacks `f`
/// whose top state is popped: the stacks and index after it.
pub open spec fn step(lim: Limits, s: Seq<u8>, f: Frames, at: int) -> Result<(Frames, int), Rejection> {
    let f0 = Frames { states: f.states.drop_last(), ..f };
    match token_from(s, at) {
        Err(e) => Err(lexer_rejection(e)),
        Ok(None) => Err(rejection(Fault::InvalidJson, pos_at(s, s.len() as int), Seq::empty())),
        Ok(Some((t, d, e))) => match transition(lim, f0, f.states.last(), t, d) {
            Err(k) => Err(rejection(k, pos_at(s, e), d)),
            Ok(g) => Ok((g, e)),
        },
    }
}

/// Up to `n` tokens of `s` from index `at`, fed to the automaton with stacks
/// `f`, then the final check: the result, and the stacks and index after.
pub open spec fn run(lim: Limits, s: Seq<u8>, f: Frames, at: int, n: nat) -> (Result<bool, Rejection>, Frames, int)
    decreases n,
{
    if n == 0 || f.states.len() == 0 {
        finish(lim, s, f, at)
    } else {
        match step(lim, s, f, at) {
            Err(rej) => (Err(rej), f, at),
            Ok((g, e)) => run(lim, s, g, e, (n - 1) as nat),
        }
    }
}

/// Runs of `n` tokens repeated for as long as each says that more is to come.
pub open spec fn drive(lim: Limits, s: Seq<u8>, f: Frames, at: int, n: nat) -> Result<bool, Rejection>
    decreases s.len() - at,
{
    let (r, g, a) = run(lim, s, f, at, n);
    if r == Ok::<bool, Rejection>(false) && at < a <= s.len() {
        drive(lim, s, g, a, n)
    } else {
        r
    }
}

pub open spec fn is_container(st: State) -> bool {
    st == State::ProcessingObject || st == State::ProcessingArray
}

/// The container frames among `states`, in order.
pub open spec fn containers(states: Seq<State>) -> Seq<State>
    decreases states.len(),
{
    if states.len() == 0 {
        Seq::empty()
    } else {
        let c = containers(states.drop_last());
        if is_container(states.last()) {
            c.push(states.last())
        } else {
            c
        }
    }
}

/// The entry limit of a container frame.
pub open spec fn entry_limit(lim: Limits, c: State) -> usize {
    if c == State::ProcessingObject {
        lim.max_object_entries
    } else {
        lim.max_array_entries
    }
}

/// The number of object frames among `states`.
pub open spec fn count_objects(states: Seq<State>) -> nat
    decreases states.len(),
{
    if states.len() == 0 {
        0
    } else {
        count_objects(states.drop_last()) + if states.last() == State::ProcessingObject { 1nat } else { 0nat }
    }
}

/// The invariant of the stacks between tokens: the depth counts the container
/// frames and stays within its limit; one entry count per container, within
/// that container's limit; one key set per object when duplicates are refused.
pub open spec fn frames_inv(lim: Limits, f: Frames) -> bool {
    &&& f.depth == containers(f.states).len()
    &&& f.depth <= lim.max_depth
    &&& f.entries.len() == f.depth
    &&& forall|i: int|
        0 <= i < f.entries.len() ==> #[trigger] f.entries[i] <= entry_limit(lim, containers(f.states)[i])
    &&& !lim.allow_duplicate_object_entry_name ==> f.keys.len() == count_objects(f.states)
}

/// How an error value reports a rejection under limits `lim`.
pub open spec fn error_matches(e: ValidatorError, rej: Rejection, lim: Limits) -> bool {
    let p = rej.position;
    match rej.fault {
        Fault::Lexer(le) => e == ValidatorError::LexerError(le),
        Fault::InvalidJson => e == ValidatorError::InvalidJSON(p),
        Fault::TrailingData => e == ValidatorError::TrailingData(p),
        Fault::MaxDepth => e == ValidatorError::MaxDepthExceeded { position: p, limit: lim.max_depth },
        Fault::MaxArray => e == ValidatorError::MaxArrayEntriesExceeded {
            position: p,
            limit: lim.max_array_entries,
        },
        Fault::MaxObject => e == ValidatorError::MaxObjectEntriesExceeded {
            position: p,
            limit: lim.max_object_entries,
        },
        Fault::MaxString => e matches ValidatorError::MaxStringLengthExceeded { position, limit, str }
            && position == p && limit == lim.max_string_length && str@ == decode_utf8(rej.text),
        Fault::MaxName => e matches ValidatorError::MaxObjectEntryNameLengthExceeded {
            position,
            limit,
            name,
        } && position == p && limit == lim.max_object_entry_name_length && name@ == decode_utf8(
            rej.text,
        ),
        Fault::Duplicate => e matches ValidatorError::DuplicateObjectEntryName { position, key }
            && position == p && key@ == decode_utf8(rej.text),
    }
}

/// How a result of the library reports a result of a run.
pub open spec fn result_matches<T>(r: Result<T, ValidatorError>, m: Result<T, Rejection>, lim: Limits) -> bool {
    match m {
        Ok(v) => r == Ok::<T, ValidatorError>(v),
        Err(rej) => r matches Err(e) && error_matches(e, rej, lim),
    }
}

pub proof fn lemma_count_push(x: Seq<State>, y: State)
    ensures
        containers(x.push(y)) == if is_container(y) { containers(x).push(y) } else { containers(x) },
        count_objects(x.push(y)) == count_objects(x) + if y == State::ProcessingObject { 1nat } else { 0nat },
{
    assert(x.push(y).drop_last() =~= x);
}

/// Only a string token can fail a length or a duplicate check.
pub proof fn lemma_string_faults(lim: Limits, f: Frames, st: State, t: Token, d: Seq<u8>)
    ensures
        transition(lim, f, st, t, d) matches Err(k) ==> (k is MaxString || k is MaxName || k is Duplicate ==> t == Token::String),
{
}

/// The transition table keeps the invariant of the stacks.
pub proof fn lemma_transition_inv(lim: Limits, f: Frames, t: Token, d: Seq<u8>)
    requires
        frames_inv(lim, f),
        f.states.len() > 0,
    ensures
        transition(lim, Frames { states: f.states.drop_last(), ..f }, f.states.last(), t, d) matches Ok(g)
            ==> frames_inv(lim, g),
{
    let st = f.states.last();
    let f0 = Frames { states: f.states.drop_last(), ..f };
    let x = f0.states;
    assert(f.states =~= x.push(st));
    lemma_count_push(x, st);
    match t {
        Token::LBrace | Token::LBracket => {
            let object = t == Token::LBrace;
            let c = if object { State::ProcessingObject } else { State::ProcessingArray };
            let inner = if object { State::OptionalObjectKey } else { State::OptionalElement };
            lemma_count_push(x, c);
            lemma_count_push(x.push(c), inner);
        },
        Token::RBrace | Token::RBracket => {
            let object = t == Token::RBrace;
            let c = if object { State::ProcessingObject } else { State::ProcessingArray };
            if x.len() > 0 {
                let y = x.drop_last();
                assert(x =~= y.push(x.last()));
                lemma_count_push(y, x.last());
                lemma_count_push(y, State::OptionalComma);
            }
            lemma_count_push(x, State::OptionalComma);
        },
        Token::Colon => {
            lemma_count_push(x, State::RequireElement);
        },
        Token::Comma => {
            lemma_count_push(x, State::RequireObjectKey);
            lemma_count_push(x, State::RequireElement);
        },
        _ => {
            lemma_count_push(x, State::RequireColon);
            lemma_count_push(x, State::OptionalComma);
        },
    }
}

/// A step consumes a token and keeps the invariant of the stacks.
pub proof fn lemma_step_inv(lim: Limits, s: Seq<u8>, f: Frames, at: int)
    requires
        frames_inv(lim, f),
        f.states.len() > 0,
        0 <= at <= s.len(),
    ensures
        step(lim, s, f, at) matches Ok((g, e)) ==> at < e <= s.len() && frames_inv(lim, g),
{
    lemma_token_text(s, at);
    if let Ok(Some((t, d, e))) = token_from(s, at) {
        lemma_transition_inv(lim, f, t, d);
    }
}

/// A run that says more is to come leaves the stacks sound, and has consumed
/// at least one token when it was allowed one.
pub proof fn lemma_run_progress(lim: Limits, s: Seq<u8>, f: Frames, at: int, n: nat)
    requires
        frames_inv(lim, f),
        0 <= at <= s.len(),
    ensures
        run(lim, s, f, at, n).0 == Ok::<bool, Rejection>(false) ==> {
            let (r, g, a) = run(lim, s, f, at, n);
            &&& at <= a <= s.len()
            &&& frames_inv(lim, g)
            &&& n >= 1 ==> at < a
        },
    decreases n,
{
    lemma_token_text(s, at);
    if n == 0 || f.states.len() == 0 {
    } else {
        lemma_step_inv(lim, s, f, at);
        if let Ok((g, e)) = step(lim, s, f, at) {
            lemma_run_progress(lim, s, g, e, (n - 1) as nat);
        }
    }
}

/// Stopping a run where it says more is to come and resuming it is one
/// longer run.
pub proof fn lemma_run_compose(lim: Limits, s: Seq<u8>, f: Frames, at: int, a: nat, b: nat)
    requires
        run(lim, s, f, at, a).0 == Ok::<bool, Rejection>(false),
    ensures
        ({
            let (r, g, e) = run(lim, s, f, at, a);
            run(lim, s, g, e, b) == run(lim, s, f, at, a + b)
        }),
    decreases a,
{
    if a == 0 || f.states.len() == 0 {
    } else if let Ok((g, e)) = step(lim, s, f, at) {
        lemma_run_compose(lim, s, g, e, (a - 1) as nat, b);
        assert((a - 1) as nat + b == (a + b - 1) as nat);
    }
}

/// Two runs from the same place that both come to an end agree.
pub proof fn lemma_run_agree(lim: Limits, s: Seq<u8>, f: Frames, at: int, n1: nat, n2: nat)
    requires
        run(lim, s, f, at, n1).0 != Ok::<bool, Rejection>(false),
        run(lim, s, f, at, n2).0 != Ok::<bool, Rejection>(false),
    ensures
        run(lim, s, f, at, n1).0 == run(lim, s, f, at, n2).0,
    decreases n1,
{
    if f.states.len() == 0 || (n1 == 0 && n2 == 0) {
    } else if n1 == 0 || n2 == 0 {
    } else if let Ok((g, e)) = step(lim, s, f, at) {
        lemma_run_agree(lim, s, g, e, (n1 - 1) as nat, (n2 - 1) as nat);
    }
}

/// Driving `n` tokens at a time is one run of some length, and comes to an end.
pub proof fn lemma_drive_is_run(lim: Limits, s: Seq<u8>, f: Frames, at: int, n: nat) -> (m: nat)
    requires
        frames_inv(lim, f),
        0 <= at <= s.len(),
        n >= 1,
    ensures
        drive(lim, s, f, at, n) == run(lim, s, f, at, m).0,
        drive(lim, s, f, at, n) != Ok::<bool, Rejection>(false),
    decreases s.len() - at,
{
    let (r, g, a) = run(lim, s, f, at, n);
    lemma_run_progress(lim, s, f, at, n);
    if r == Ok::<bool, Rejection>(false) {
        let m1 = lemma_drive_is_run(lim, s, g, a, n);
        lemma_run_compose(lim, s, f, at, n, m1);
        n + m1
    } else {
        n
    }
}

/// Driving the validator `n1` tokens at a time to completion gives the same
/// result, error kind and position included, as driving it `n2` at a time,
/// for any `n1, n2 >= 1`; so the step-bounded entry point repeated agrees
/// with validating in one call.
pub proof fn lemma_steps_agree(lim: Limits, s: Seq<u8>, f: Frames, at: int, n1: nat, n2: nat)
    requires
        frames_inv(lim, f),
        0 <= at <= s.len(),
        n1 >= 1,
        n2 >= 1,
    ensures
        drive(lim, s, f, at, n1) == drive(lim, s, f, at, n2),
{
    let m1 = lemma_drive_is_run(lim, s, f, at, n1);
    let m2 = lemma_drive_is_run(lim, s, f, at, n2);
    lemma_run_agree(lim, s, f, at, m1, m2);
}

/// The position a rejection reports.
pub open spec fn rejection_position(rej: Rejection) -> Position {
    match rej.fault {
        Fault::Lexer(le) => error_position(le),
        _ => rej.position,
    }
}

/// Where the reader may stand before a run from `at`: at `at`, or just past a
/// token peeked from there.
pub open spec fn cursor_for(s: Seq<u8>, at: int, c: int) -> bool {
    c == at || (token_from(s, at) matches Ok(Some((t, d, e))) && e == c)
}

/// Positions never go back: a run that fails reports a position at or after
/// the reader's position before it, by offset and by line then column.
pub proof fn lemma_rejection_after(lim: Limits, s: Seq<u8>, f: Frames, at: int, c: int, n: nat)
    requires
        0 <= at <= s.len() < usize::MAX,
        cursor_for(s, at, c),
    ensures
        run(lim, s, f, at, n).0 matches Err(rej) ==> pos_le(pos_at(s, c), rejection_position(rej)),
    decreases n,
{
    lemma_offsets(s);
    lemma_token_text(s, at);
    lemma_token_error_after(s, at);
    lemma_pos_monotone(s, at, c);
    if let Err(le) = token_from(s, at) {
        lemma_pos_monotone(s, at, error_position(le).offset as int);
    }
    lemma_pos_monotone(s, c, s.len() as int);
    if let Ok(Some((t, d, e))) = token_from(s, at) {
        lemma_pos_monotone(s, c, e);
        lemma_pos_monotone(s, at, e);
    }
    if n == 0 || f.states.len() == 0 {
    } else if let Ok((g, e)) = step(lim, s, f, at) {
        lemma_rejection_after(lim, s, g, e, e, (n - 1) as nat);
    }
}

/// Across calls too: driving the validator to completion, `n` tokens at a
/// time, reports a failure at or after the reader's position at the start.
pub proof fn lemma_drive_rejection_after(lim: Limits, s: Seq<u8>, f: Frames, at: int, c: int, n: nat)
    requires
        frames_inv(lim, f),
        0 <= at <= s.len() < usize::MAX,
        cursor_for(s, at, c),
        n >= 1,
    ensures
        drive(lim, s, f, at, n) matches Err(rej) ==> pos_le(pos_at(s, c), rejection_position(rej)),
{
    let m = lemma_drive_is_run(lim, s, f, at, n);
    lemma_rejection_after(lim, s, f, at, c, m);
}

/// A container that would open beyond `max_depth` is refused with
/// `MaxDepth`, at the position just past its opening bracket; the invariant of
/// the stacks keeps the depth within the limit otherwise.
pub proof fn lemma_depth_bound(lim: Limits, s: Seq<u8>, f: Frames, at: int, n: nat)
    requires
        f.states.len() > 0,
        expects_value(f.states.last()),
        f.depth >= lim.max_depth,
        0 <= at <= s.len() < usize::MAX,
        n >= 1,
        token_from(s, at) matches Ok(Some((t, d, e))) && (t == Token::LBrace || t == Token::LBracket),
    ensures
        ({
            let (t, d, e) = token_from(s, at)->Ok_0->Some_0;
            &&& run(lim, s, f, at, n).0 == Err::<bool, Rejection>(rejection(Fault::MaxDepth, pos_at(s, e), d))
            &&& e == ws_end(s, at) + 1
            &&& pos_at(s, e).offset == e
        }),
{
    lemma_offsets(s);
    lemma_token_text(s, at);
}

/// Only an opening bracket can be refused for depth.
pub proof fn lemma_depth_faults(lim: Limits, f: Frames, st: State, t: Token, d: Seq<u8>)
    ensures
        transition(lim, f, st, t, d) == Err::<Frames, Fault>(Fault::MaxDepth) ==> t == Token::LBrace
            || t == Token::LBracket,
{
}

/// Over a whole run, a container refused for depth is reported just past its
/// opening bracket: nothing after the first too-deep container is read, and
/// every container before it stayed within the limit (`frames_inv`).
pub proof fn lemma_depth_rejection_at_opener(lim: Limits, s: Seq<u8>, f: Frames, at: int, n: nat)
    requires
        0 <= at <= s.len(),
    ensures
        run(lim, s, f, at, n).0 matches Err(rej) ==> (rej.fault == Fault::MaxDepth ==> exists|e: int|
            0 < e <= s.len() && (s[e - 1] == 0x7Bu8 || s[e - 1] == 0x5Bu8) && rej.position == pos_at(s, e)),
    decreases n,
{
    lemma_token_text(s, at);
    if n == 0 || f.states.len() == 0 {
    } else {
        let f0 = Frames { states: f.states.drop_last(), ..f };
        if let Ok(Some((t, d, e))) = token_from(s, at) {
            lemma_depth_faults(lim, f0, f.states.last(), t, d);
            if transition(lim, f0, f.states.last(), t, d) == Err::<Frames, Fault>(Fault::MaxDepth) {
                lemma_ws_end(s, at);
                assert(e == ws_end(s, at) + 1);
                assert(0 < e <= s.len() && (s[e - 1] == 0x7Bu8 || s[e - 1] == 0x5Bu8));
            }
            if let Ok(g) = transition(lim, f0, f.states.last(), t, d) {
                lemma_depth_rejection_at_opener(lim, s, g, e, (n - 1) as nat);
            }
        }
    }
}

/// The same over whole validations, `n` tokens at a time or in one call.
pub proof fn lemma_drive_depth_rejection_at_opener(lim: Limits, s: Seq<u8>, f: Frames, at: int, n: nat)
    requires
        frames_inv(lim, f),
        0 <= at <= s.len(),
        n >= 1,
    ensures
        drive(lim, s, f, at, n) matches Err(rej) ==> (rej.fault == Fault::MaxDepth ==> exists|e: int|
            0 < e <= s.len() && (s[e - 1] == 0x7Bu8 || s[e - 1] == 0x5Bu8) && rej.position == pos_at(s, e)),
{
    let m = lemma_drive_is_run(lim, s, f, at, n);
    lemma_depth_rejection_at_opener(lim, s, f, at, m);
}

/// An error found while validating.
#[derive(Debug)]
pub enum ValidatorError {
    /// An error of the lexer below.
    LexerError(LexerError),
    /// The token stream breaks the JSON grammar, or ends early.
    InvalidJSON(Position),
    /// Input follows a complete document.
    TrailingData(Position),
    /// A container opens deeper than allowed.
    MaxDepthExceeded { position: Position, limit: usize },
    /// A string value is longer than allowed, in decoded bytes.
    MaxStringLengthExceeded { position: Position, limit: usize, str: String },
    /// An array holds more entries than allowed.
    MaxArrayEntriesExceeded { position: Position, limit: usize },
    /// An object holds more entries than allowed.
    MaxObjectEntriesExceeded { position: Position, limit: usize },
    /// An object key is longer than allowed, in decoded bytes.
    MaxObjectEntryNameLengthExceeded { position: Position, limit: usize, name: String },
    /// A key occurs twice in one object.
    DuplicateObjectEntryName { position: Position, key: String },
    /// Reserved for a state believed unreachable; never produced, as the
    /// invariant of the stacks rules such states out.
    Bug { msg: String, position: Position },
}

/// Relies on `String::from_utf8`: on well-formed UTF-8 it succeeds, and the
/// string holds the characters that the bytes encode.
#[verifier::external_body]
fn string_of(bytes: Vec<u8>) -> (r: String)
    requires
        valid_utf8(bytes@),
    ensures
        r@ == decode_utf8(bytes@),
{
    String::from_utf8(bytes).unwrap()
}

/// A JSON validator: the lexer, the stacks of the automaton, and the limits.
pub struct Validator<R: Read> {
    lexer: Lexer<R>,
    states: Vec<State>,
    entries: Vec<usize>,
    keys: Vec<StringHashSet>,
    depth: usize,
    limits: Limits,
    str_buf: Vec<u8>,
}

impl<R: Read> Validator<R> {
    pub closed spec fn frames(&self) -> Frames {
        Frames {
            states: self.states@,
            entries: self.entries@,
            keys: self.keys@.map_values(|v: StringHashSet| v@),
            depth: self.depth,
        }
    }

    pub closed spec fn limits(&self) -> Limits {
        self.limits
    }

    pub closed spec fn lexer(&self) -> Lexer<R> {
        self.lexer
    }

    pub closed spec fn text(&self) -> Seq<u8> {
        self.str_buf@
    }

    fn open_container_exec(&mut self, object: bool) -> (r: Result<(), Fault>)
        ensures
            final(self).lexer() == old(self).lexer(),
            final(self).limits() == old(self).limits(),
            final(self).text() == old(self).text(),
            match open_container(old(self).limits(), old(self).frames(), object) {
                Ok(g) => r is Ok && final(self).frames() == g,
                Err(e) => r == Err::<(), Fault>(e),
            },
    {
        if self.depth >= self.limits.max_depth {
            return Err(Fault::MaxDepth);
        }
        let ghost k0 = self.frames().keys;
        if object {
            self.states.push(State::ProcessingObject);
            self.states.push(State::OptionalObjectKey);
            if !self.limits.allow_duplicate_object_entry_name {
                self.keys.push(StringHashSet::new());
                proof {
                    assert(self.frames().keys =~= k0.push(Set::empty()));
                }
            }
        } else {
            self.states.push(State::ProcessingArray);
            self.states.push(State::OptionalElement);
        }
        self.entries.push(0);
        self.depth = self.depth + 1;
        Ok(())
    }

    fn close_container_exec(&mut self, object: bool) -> (r: Result<usize, Fault>)
        ensures
            final(self).lexer() == old(self).lexer(),
            final(self).limits() == old(self).limits(),
            final(self).text() == old(self).text(),
            match close_container(old(self).limits(), old(self).frames(), object) {
                Ok((g, n)) => r == Ok::<usize, Fault>(n) && final(self).frames() == g,
                Err(e) => r == Err::<usize, Fault>(e),
            },
    {
        let drop_keys = object && !self.limits.allow_duplicate_object_entry_name;
        if drop_keys && self.keys.len() == 0 {
            return Err(Fault::InvalidJson);
        }
        if self.entries.len() == 0 || self.depth == 0 {
            return Err(Fault::InvalidJson);
        }
        let ghost k0 = self.frames().keys;
        if drop_keys {
            self.keys.pop();
            proof {
                assert(self.frames().keys =~= k0.drop_last());
            }
        }
        let n = self.entries.pop().unwrap();
        self.depth = self.depth - 1;
        proof {
            assert(self.entries@ =~= old(self).entries@.drop_last());
        }
        Ok(n)
    }

    fn after_close_exec(&mut self)
        ensures
            final(self).lexer() == old(self).lexer(),
            final(self).limits() == old(self).limits(),
            final(self).text() == old(self).text(),
            final(self).frames() == after_close(old(self).frames()),
    {
        let n = self.states.len();
        if n > 0 && (self.states[n - 1] == State::ProcessingObject || self.states[n - 1] == State::ProcessingArray) {
            self.states.push(State::OptionalComma);
        }
    }

    fn commit_value_exec(&mut self) -> (r: Result<(), Fault>)
        ensures
            final(self).lexer() == old(self).lexer(),
            final(self).limits() == old(self).limits(),
            final(self).text() == old(self).text(),
            match commit_value(old(self).limits(), old(self).frames()) {
                Ok(g) => r is Ok && final(self).frames() == g,
                Err(e) => r == Err::<(), Fault>(e),
            },
    {
        let n = self.states.len();
        if n > 0 && (self.states[n - 1] == State::ProcessingObject || self.states[n - 1] == State::ProcessingArray) {
            let object = self.states[n - 1] == State::ProcessingObject;
            let max = if object {
                self.limits.max_object_entries
            } else {
                self.limits.max_array_entries
            };
            let m = self.entries.len();
            if m == 0 {
                return Err(Fault::InvalidJson);
            }
            let count = self.entries[m - 1];
            if count >= max {
                return Err(if object { Fault::MaxObject } else { Fault::MaxArray });
            }
            self.entries.set(m - 1, count + 1);
            self.states.push(State::OptionalComma);
        }
        Ok(())
    }

    fn commit_key_exec(&mut self) -> (r: Result<(), Fault>)
        requires
            valid_utf8(old(self).text()),
        ensures
            final(self).lexer() == old(self).lexer(),
            final(self).limits() == old(self).limits(),
            final(self).text() == old(self).text(),
            match commit_key(old(self).limits(), old(self).frames(), old(self).text()) {
                Ok(g) => r is Ok && final(self).frames() == g,
                Err(e) => r == Err::<(), Fault>(e),
            },
    {
        if self.str_buf.len() > self.limits.max_object_entry_name_length {
            return Err(Fault::MaxName);
        }
        if !self.limits.allow_duplicate_object_entry_name {
            if self.keys.len() == 0 {
                return Err(Fault::InvalidJson);
            }
            let ghost k0 = self.frames().keys;
            let key = string_of(copy_of(&self.str_buf));
            let mut set = self.keys.pop().unwrap();
            if !set.insert(key) {
                return Err(Fault::Duplicate);
            }
            self.keys.push(set);
            proof {
                assert(self.frames().keys =~= k0.update(k0.len() - 1, k0.last().insert(decode_utf8(self.str_buf@))));
            }
        }
        self.states.push(State::RequireColon);
        Ok(())
    }

    fn close_with_exec(&mut self, st: State, object: bool) -> (r: Result<(), Fault>)
        ensures
            final(self).lexer() == old(self).lexer(),
            final(self).limits() == old(self).limits(),
            final(self).text() == old(self).text(),
            match close_with(old(self).limits(), old(self).frames(), st, object) {
                Ok(g) => r is Ok && final(self).frames() == g,
                Err(e) => r == Err::<(), Fault>(e),
            },
    {
        let c = if object { State::ProcessingObject } else { State::ProcessingArray };
        let opt = if object { State::OptionalObjectKey } else { State::OptionalElement };
        if st == State::OptionalComma || st == opt {
            let n = self.states.len();
            if !(n > 0 && self.states[n - 1] == c) {
                return Err(Fault::InvalidJson);
            }
            self.states.pop();
            proof {
                assert(self.states@ =~= old(self).states@.drop_last());
            }
            let count = match self.close_container_exec(object) {
                Ok(count) => count,
                Err(e) => return Err(e),
            };
            if st == opt && count != 0 {
                return Err(Fault::InvalidJson);
            }
            self.after_close_exec();
            Ok(())
        } else if st == c {
            let count = match self.close_container_exec(object) {
                Ok(count) => count,
                Err(e) => return Err(e),
            };
            if count != 0 {
                return Err(Fault::InvalidJson);
            }
            self.after_close_exec();
            Ok(())
        } else {
            Err(Fault::InvalidJson)
        }
    }

    /// Applies the transition table to token `t` met in state `st`, which was
    /// popped; a string's bytes are in the text buffer.
    fn apply(&mut self, st: State, t: Token) -> (r: Result<(), Fault>)
        requires
            t == Token::String ==> valid_utf8(old(self).text()),
        ensures
            final(self).lexer() == old(self).lexer(),
            final(self).limits() == old(self).limits(),
            final(self).text() == old(self).text(),
            match transition(old(self).limits(), old(self).frames(), st, t, old(self).text()) {
                Ok(g) => r is Ok && final(self).frames() == g,
                Err(e) => r == Err::<(), Fault>(e),
            },
    {
        let value = st == State::RequireElement || st == State::OptionalElement;
        match t {
            Token::LBrace => if value {
                self.open_container_exec(true)
            } else {
                Err(Fault::InvalidJson)
            },
            Token::LBracket => if value {
                self.open_container_exec(false)
            } else {
                Err(Fault::InvalidJson)
            },
            Token::RBrace => self.close_with_exec(st, true),
            Token::RBracket => self.close_with_exec(st, false),
            Token::Colon => if st == State::RequireColon {
                self.states.push(State::RequireElement);
                Ok(())
            } else {
                Err(Fault::InvalidJson)
            },
            Token::Comma => {
                if st != State::OptionalComma {
                    return Err(Fault::InvalidJson);
                }
                let n = self.states.len();
                if n > 0 && self.states[n - 1] == State::ProcessingObject {
                    self.states.push(State::RequireObjectKey);
                    Ok(())
                } else if n > 0 && self.states[n - 1] == State::ProcessingArray {
                    self.states.push(State::RequireElement);
                    Ok(())
                } else {
                    Err(Fault::InvalidJson)
                }
            },
            Token::String => if st == State::OptionalObjectKey || st == State::RequireObjectKey {
                self.commit_key_exec()
            } else if value {
                if self.str_buf.len() > self.limits.max_string_length {
                    Err(Fault::MaxString)
                } else {
                    self.commit_value_exec()
                }
            } else {
                Err(Fault::InvalidJson)
            },
            _ => if value {
                self.commit_value_exec()
            } else {
                Err(Fault::InvalidJson)
            },
        }
    }

    /// The whole input.
    pub closed spec fn input(&self) -> Seq<u8> {
        self.lexer.input()
    }

    /// Where the next token is scanned from.
    pub closed spec fn at(&self) -> int {
        self.lexer.at()
    }

    pub closed spec fn wf(&self) -> bool {
        &&& self.lexer.wf()
        &&& frames_inv(self.limits, self.frames())
    }

    /// A validator at the current index of `read`, with no limits and
    /// duplicate keys allowed.
    pub fn new(read: R) -> (r: Validator<R>)
        requires
            read.wf(),
        ensures
            r.wf(),
            r.input() == read.input(),
            r.at() == read.index(),
            r.frames() == initial_frames(),
            r.limits() == no_limits(),
    {
        let mut states: Vec<State> = Vec::new();
        states.push(State::RequireElement);
        let keys: Vec<StringHashSet> = Vec::new();
        let r = Validator {
            lexer: Lexer::new(read),
            states,
            entries: Vec::new(),
            keys,
            depth: 0,
            limits: Limits {
                max_depth: usize::MAX,
                max_string_length: usize::MAX,
                max_array_entries: usize::MAX,
                max_object_entries: usize::MAX,
                max_object_entry_name_length: usize::MAX,
                allow_duplicate_object_entry_name: true,
            },
            str_buf: Vec::new(),
        };
        proof {
            assert(r.frames().states =~= seq![State::RequireElement]);
            assert(r.frames().keys =~= Seq::<Set<Seq<char>>>::empty());
            assert(r.frames().entries =~= Seq::<usize>::empty());
            let x = Seq::<State>::empty();
            assert(seq![State::RequireElement] =~= x.push(State::RequireElement));
            lemma_count_push(x, State::RequireElement);
        }
        r
    }

    /// Sets the maximum nesting of containers.
    pub fn with_max_depth(self, max_depth: usize) -> (r: Validator<R>)
        requires
            self.wf(),
            frames_inv(Limits { max_depth, ..self.limits() }, self.frames()),
        ensures
            r.wf(),
            r.input() == self.input(),
            r.at() == self.at(),
            r.frames() == self.frames(),
            r.limits() == (Limits { max_depth, ..self.limits() }),
    {
        let mut v = self;
        v.limits.max_depth = max_depth;
        v
    }

    /// Sets the maximum decoded length of string values.
    pub fn with_max_string_length(self, max_string_length: usize) -> (r: Validator<R>)
        requires
            self.wf(),
            frames_inv(Limits { max_string_length, ..self.limits() }, self.frames()),
        ensures
            r.wf(),
            r.input() == self.input(),
            r.at() == self.at(),
            r.frames() == self.frames(),
            r.limits() == (Limits { max_string_length, ..self.limits() }),
    {
        let mut v = self;
        v.limits.max_string_length = max_string_length;
        v
    }

    /// Sets the maximum number of entries of an array.
    pub fn with_max_array_entries(self, max_array_entries: usize) -> (r: Validator<R>)
        requires
            self.wf(),
            frames_inv(Limits { max_array_entries, ..self.limits() }, self.frames()),
        ensures
            r.wf(),
            r.input() == self.input(),
            r.at() == self.at(),
            r.frames() == self.frames(),
            r.limits() == (Limits { max_array_entries, ..self.limits() }),
    {
        let mut v = self;
        v.limits.max_array_entries = max_array_entries;
        v
    }

    /// Sets the maximum number of entries of an object.
    pub fn with_max_object_entries(self, max_object_entries: usize) -> (r: Validator<R>)
        requires
            self.wf(),
            frames_inv(Limits { max_object_entries, ..self.limits() }, self.frames()),
        ensures
            r.wf(),
            r.input() == self.input(),
            r.at() == self.at(),
            r.frames() == self.frames(),
            r.limits() == (Limits { max_object_entries, ..self.limits() }),
    {
        let mut v = self;
        v.limits.max_object_entries = max_object_entries;
        v
    }

    /// Sets the maximum decoded length of object keys.
    pub fn with_max_object_entry_name_length(self, max_object_entry_name_length: usize) -> (r: Validator<R>)
        requires
            self.wf(),
            frames_inv(Limits { max_object_entry_name_length, ..self.limits() }, self.frames()),
        ensures
            r.wf(),
            r.input() == self.input(),
            r.at() == self.at(),
            r.frames() == self.frames(),
            r.limits() == (Limits { max_object_entry_name_length, ..self.limits() }),
    {
        let mut v = self;
        v.limits.max_object_entry_name_length = max_object_entry_name_length;
        v
    }

    /// Allows a key to occur twice in one object.
    pub fn allow_duplicate_object_entry_name(self) -> (r: Validator<R>)
        requires
            self.wf(),
        ensures
            r.wf(),
            r.input() == self.input(),
            r.at() == self.at(),
            r.frames() == self.frames(),
            r.limits() == (Limits { allow_duplicate_object_entry_name: true, ..self.limits() }),
    {
        let mut v = self;
        v.limits.allow_duplicate_object_entry_name = true;
        v
    }

    /// Refuses a key that occurs twice in one object.
    pub fn disallow_duplicate_object_entry_name(self) -> (r: Validator<R>)
        requires
            self.wf(),
            frames_inv(Limits { allow_duplicate_object_entry_name: false, ..self.limits() }, self.frames()),
        ensures
            r.wf(),
            r.input() == self.input(),
            r.at() == self.at(),
            r.frames() == self.frames(),
            r.limits() == (Limits { allow_duplicate_object_entry_name: false, ..self.limits() }),
    {
        let mut v = self;
        v.limits.allow_duplicate_object_entry_name = false;
        v
    }

    /// What a well-formed validator guarantees of its stacks: the depth
    /// counts the open containers and stays within its limit, one entry count
    /// per container within that container's limit, one key set per object
    /// when duplicates are refused.
    pub proof fn lemma_frames_inv(&self)
        requires
            self.wf(),
        ensures
            frames_inv(self.limits(), self.frames()),
            0 <= self.at() <= self.input().len() < usize::MAX,
    {
        self.lexer.lemma_wf();
    }

    /// The reader stands where the next token starts, or just past a token
    /// peeked from there.
    pub proof fn lemma_cursor(&self)
        requires
            self.wf(),
        ensures
            cursor_for(self.input(), self.at(), self.lexer().cursor()),
    {
        self.lexer.lemma_wf();
        if self.lexer.has_peeked() {
            self.lexer.lemma_peeked();
        }
    }

    /// The error value for `fault`, at the reader's position.
    fn reject(&self, fault: Fault) -> (e: ValidatorError)
        requires
            self.lexer.wf(),
            fault is MaxString || fault is MaxName || fault is Duplicate ==> valid_utf8(self.text()),
        ensures
            error_matches(
                e,
                rejection(fault, pos_at(self.input(), self.lexer().cursor()), self.text()),
                self.limits(),
            ),
    {
        let position = self.lexer.position();
        match fault {
            Fault::Lexer(le) => ValidatorError::LexerError(le),
            Fault::InvalidJson => ValidatorError::InvalidJSON(position),
            Fault::TrailingData => ValidatorError::TrailingData(position),
            Fault::MaxDepth => ValidatorError::MaxDepthExceeded { position, limit: self.limits.max_depth },
            Fault::MaxArray => ValidatorError::MaxArrayEntriesExceeded {
                position,
                limit: self.limits.max_array_entries,
            },
            Fault::MaxObject => ValidatorError::MaxObjectEntriesExceeded {
                position,
                limit: self.limits.max_object_entries,
            },
            Fault::MaxString => ValidatorError::MaxStringLengthExceeded {
                position,
                limit: self.limits.max_string_length,
                str: string_of(copy_of(&self.str_buf)),
            },
            Fault::MaxName => ValidatorError::MaxObjectEntryNameLengthExceeded {
                position,
                limit: self.limits.max_object_entry_name_length,
                name: string_of(copy_of(&self.str_buf)),
            },
            Fault::Duplicate => ValidatorError::DuplicateObjectEntryName {
                position,
                key: string_of(copy_of(&self.str_buf)),
            },
        }
    }

    /// Validates up to `steps` tokens. `Ok(true)`: the document is complete
    /// and valid; `Ok(false)`: more is to come, and a later call resumes here;
    /// `Err`: the first error, after which the validator is spent.
    pub fn validate_with_steps(&mut self, steps: usize) -> (r: Result<bool, ValidatorError>)
        requires
            old(self).wf(),
        ensures
            final(self).input() == old(self).input(),
            final(self).limits() == old(self).limits(),
            ({
                let (m, g, a) = run(old(self).limits(), old(self).input(), old(self).frames(), old(self).at(), steps as nat);
                &&& result_matches(r, m, old(self).limits())
                &&& r is Ok ==> final(self).wf() && final(self).frames() == g && final(self).at() == a
            }),
            r == Ok::<bool, ValidatorError>(true) ==> final(self).frames().states.len() == 0
                && final(self).frames().depth == 0 && final(self).at() == final(self).input().len(),
    {
        let ghost lim = self.limits;
        let ghost s = self.input();
        let ghost f0 = self.frames();
        let ghost a0 = self.at();
        let mut remaining = steps;
        while remaining > 0 && self.states.len() > 0
            invariant
                self.wf(),
                self.limits == lim,
                self.input() == s,
                lim == old(self).limits(),
                s == old(self).input(),
                f0 == old(self).frames(),
                a0 == old(self).at(),
                run(lim, s, f0, a0, steps as nat) == run(lim, s, self.frames(), self.at(), remaining as nat),
            decreases remaining,
        {
            match self.step_once() {
                Err(e) => return Err(e),
                Ok(()) => {},
            }
            remaining = remaining - 1;
        }
        self.finish_exec()
    }

    /// Pops the top state and feeds the next token to the automaton.
    fn step_once(&mut self) -> (r: Result<(), ValidatorError>)
        requires
            old(self).wf(),
            old(self).frames().states.len() > 0,
        ensures
            final(self).input() == old(self).input(),
            final(self).limits() == old(self).limits(),
            match step(old(self).limits(), old(self).input(), old(self).frames(), old(self).at()) {
                Err(rej) => r matches Err(e) && error_matches(e, rej, old(self).limits()),
                Ok((g, a)) => r is Ok && final(self).wf() && final(self).frames() == g && final(self).at() == a,
            },
    {
        let ghost lim = self.limits;
        let ghost s = self.input();
        let ghost f = self.frames();
        let ghost at = self.at();
        proof {
            self.lexer.lemma_wf();
            lemma_token_text(s, at);
            lemma_step_inv(lim, s, f, at);
        }
        let st = self.states.pop().unwrap();
        proof {
            assert(self.states@ =~= f.states.drop_last());
        }
        let tok = match self.lexer.next(&mut self.str_buf) {
            Err(e) => return Err(ValidatorError::LexerError(e)),
            Ok(None) => {
                proof {
                    self.lexer.lemma_wf();
                }
                return Err(ValidatorError::InvalidJSON(self.lexer.position()));
            },
            Ok(Some(t)) => t,
        };
        proof {
            self.lexer.lemma_wf();
            lemma_string_faults(lim, self.frames(), st, tok, self.str_buf@);
        }
        match self.apply(st, tok) {
            Err(fault) => Err(self.reject(fault)),
            Ok(()) => Ok(()),
        }
    }

    /// The check after the loop: peeks at what comes next.
    fn finish_exec(&mut self) -> (r: Result<bool, ValidatorError>)
        requires
            old(self).wf(),
        ensures
            final(self).input() == old(self).input(),
            final(self).limits() == old(self).limits(),
            ({
                let (m, g, a) = finish(old(self).limits(), old(self).input(), old(self).frames(), old(self).at());
                &&& result_matches(r, m, old(self).limits())
                &&& r is Ok ==> final(self).wf() && final(self).frames() == g && final(self).at() == a
            }),
    {
        proof {
            self.lexer.lemma_wf();
            lemma_token_text(self.input(), self.at());
        }
        let open = self.states.len() > 0 || self.depth != 0;
        let more = match self.lexer.peek(&mut self.str_buf) {
            Err(e) => return Err(ValidatorError::LexerError(e)),
            Ok(t) => t.is_some(),
        };
        proof {
            self.lexer.lemma_wf();
        }
        if open {
            if more {
                Ok(false)
            } else {
                Err(ValidatorError::InvalidJSON(self.lexer.position()))
            }
        } else if more {
            Err(ValidatorError::TrailingData(self.lexer.position()))
        } else {
            Ok(true)
        }
    }

    /// Validates the whole input.
    pub fn validate(self) -> (r: Result<(), ValidatorError>)
        requires
            self.wf(),
        ensures
            result_matches(
                match r {
                    Ok(()) => Ok::<bool, ValidatorError>(true),
                    Err(e) => Err(e),
                },
                drive(self.limits(), self.input(), self.frames(), self.at(), usize::MAX as nat),
                self.limits(),
            ),
    {
        let ghost lim = self.limits;
        let ghost s = self.input();
        let ghost n = usize::MAX as nat;
        let mut v = self;
        loop
            invariant
                v.wf(),
                v.limits == lim,
                v.input() == s,
                lim == self.limits(),
                s == self.input(),
                n == usize::MAX as nat,
                drive(lim, s, self.frames(), self.at(), n) == drive(lim, s, v.frames(), v.at(), n),
            decreases s.len() - v.at(),
        {
            proof {
                v.lexer.lemma_wf();
                lemma_run_progress(lim, s, v.frames(), v.at(), n);
            }
            let ghost f = v.frames();
            let ghost at = v.at();
            match v.validate_with_steps(usize::MAX) {
                Ok(true) => return Ok(()),
                Ok(false) => {},
                Err(e) => return Err(e),
            }
        }
    }
}

} // verus!
