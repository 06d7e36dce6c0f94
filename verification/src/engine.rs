//! The storage-engine capability contract shared by every backend, and the
//! dispatcher that evaluates a command against any of them.

use vstd::prelude::*;

use crate::codec::{CommandModel, apply_model};
use crate::err::Error;
use crate::kv_store::{Command, CommandResponse, ResponseModel};

verus! {

/// What every backend must offer: `set`, `get`, `remove` and a name, all
/// specified against one abstract mapping (`kv`). An engine whose
/// `reliable` flag holds can never fail; one backed by outside storage may
/// return an error, and then promises nothing about its state.
pub trait KvsEngine: Sized {
    /// The backend's own well-formedness; every operation keeps it.
    spec fn inv(&self) -> bool;

    /// The abstract mapping the backend holds.
    spec fn kv(&self) -> Map<Seq<char>, Seq<char>>;

    /// Whether operations are guaranteed to succeed.
    spec fn reliable(&self) -> bool;

    /// The backend's name, as a character sequence.
    spec fn spec_name(&self) -> Seq<char>;

    /// Binds the key to the value.
    fn set(&mut self, key: String, value: String) -> (r: Result<(), Error>)
        requires
            old(self).inv(),
        ensures
            final(self).inv(),
            final(self).reliable() == old(self).reliable(),
            r is Ok ==> final(self).kv() == old(self).kv().insert(key@, value@),
            old(self).reliable() ==> r is Ok,
    ;

    /// The value bound to the key, or nothing.
    fn get(&self, key: String) -> (r: Result<Option<String>, Error>)
        requires
            self.inv(),
        ensures
            r matches Ok(v) ==> (v matches Some(s) ==> self.kv().contains_key(key@) && s@
                == self.kv()[key@]) && (v is None ==> !self.kv().contains_key(key@)),
            self.reliable() ==> r is Ok,
    ;

    /// Unbinds the key, returning the value it had; an absent key is a
    /// non-fatal empty result, never an error.
    fn remove(&mut self, key: String) -> (r: Result<Option<String>, Error>)
        requires
            old(self).inv(),
        ensures
            final(self).inv(),
            final(self).reliable() == old(self).reliable(),
            r matches Ok(v) ==> final(self).kv() == old(self).kv().remove(key@) && (
            v matches Some(s) ==> old(self).kv().contains_key(key@) && s@ == old(self).kv()[key@])
                && (v is None ==> !old(self).kv().contains_key(key@)),
            old(self).reliable() ==> r is Ok,
    ;

    /// The backend's name.
    fn name(&self) -> (r: &'static str)
        ensures
            r@ == self.spec_name(),
    ;
}

/// The response a command deserves against a given mapping: the dispatcher
/// returns exactly this, whichever backend it runs on.
pub open spec fn response_model(m: Map<Seq<char>, Seq<char>>, c: CommandModel) -> ResponseModel {
    match c {
        CommandModel::Get { key } => ResponseModel::Get {
            value: if m.contains_key(key) {
                Some(m[key])
            } else {
                None
            },
        },
        CommandModel::Put { key, value } => ResponseModel::Put,
        CommandModel::Rm { key } => ResponseModel::Rm {
            value: if m.contains_key(key) {
                Some(m[key])
            } else {
                None
            },
        },
    }
}

/// The mapping after a whole command sequence.
pub open spec fn run_map(m: Map<Seq<char>, Seq<char>>, ops: Seq<CommandModel>) -> Map<
    Seq<char>,
    Seq<char>,
>
    decreases ops.len(),
{
    if ops.len() == 0 {
        m
    } else {
        run_map(apply_model(m, ops[0]), ops.drop_first())
    }
}

/// The responses a whole command sequence earns, in order.
pub open spec fn run_responses(m: Map<Seq<char>, Seq<char>>, ops: Seq<CommandModel>) -> Seq<
    ResponseModel,
>
    decreases ops.len(),
{
    if ops.len() == 0 {
        Seq::empty()
    } else {
        seq![response_model(m, ops[0])] + run_responses(apply_model(m, ops[0]), ops.drop_first())
    }
}

/// Engine equivalence: the observable outcome of any fixed command sequence
/// is a function of the starting mapping alone. Two backends that hold the
/// same mapping — whatever they are — answer every command of the sequence
/// identically and end holding the same mapping; `evaluate_command` ties
/// each backend's behaviour to `response_model` and `apply_model`, and this
/// law lifts that to whole sequences.
pub proof fn lemma_engine_equivalence(
    m1: Map<Seq<char>, Seq<char>>,
    m2: Map<Seq<char>, Seq<char>>,
    ops: Seq<CommandModel>,
)
    requires
        m1 == m2,
    ensures
        run_map(m1, ops) == run_map(m2, ops),
        run_responses(m1, ops) == run_responses(m2, ops),
{
}

/// Running one more command applies it to the mapping the run built.
proof fn lemma_run_map_push(m: Map<Seq<char>, Seq<char>>, ops: Seq<CommandModel>, c: CommandModel)
    ensures
        run_map(m, ops.push(c)) == apply_model(run_map(m, ops), c),
    decreases ops.len(),
{
    if ops.len() == 0 {
        assert(ops.push(c)[0] == c);
        assert(ops.push(c).drop_first() =~= Seq::<CommandModel>::empty());
        assert(run_map(apply_model(m, c), Seq::<CommandModel>::empty()) == apply_model(m, c));
    } else {
        assert(ops.push(c)[0] == ops[0]);
        assert(ops.push(c).drop_first() =~= ops.drop_first().push(c));
        lemma_run_map_push(apply_model(m, ops[0]), ops.drop_first(), c);
    }
}

/// Dispatching a mutation sequence against an empty store builds exactly
/// the mapping that replaying it as a log would: the dispatcher's model and
/// the log's replay model agree.
pub proof fn lemma_run_map_replay(ops: Seq<CommandModel>)
    ensures
        run_map(Map::empty(), ops) == crate::codec::replay(ops),
    decreases ops.len(),
{
    if ops.len() > 0 {
        lemma_run_map_replay(ops.drop_last());
        assert(ops.drop_last().push(ops.last()) =~= ops);
        lemma_run_map_push(Map::empty(), ops.drop_last(), ops.last());
    }
}

/// Routes a command to the engine: `Get` reads and never mutates, `Set`
/// binds, `Rm` unbinds and reports the removed value (or its absence)
/// through the response shape. On success the response and the engine's new
/// mapping are exactly those of the abstract model; a reliable engine
/// always succeeds.
pub fn evaluate_command<E: KvsEngine>(command: &Command, store: &mut E) -> (r: Result<
    CommandResponse,
    Error,
>)
    requires
        old(store).inv(),
    ensures
        final(store).inv(),
        r matches Ok(resp) ==> final(store).kv() == apply_model(old(store).kv(), command@)
            && resp@ == response_model(old(store).kv(), command@),
        old(store).reliable() ==> r is Ok,
{
    match command {
        Command::Get { key } => {
            match store.get(key.clone()) {
                Ok(value) => Ok(CommandResponse::Get { value }),
                Err(e) => Err(e),
            }
        },
        Command::Put { key, value } => {
            match store.set(key.clone(), value.clone()) {
                Ok(()) => Ok(CommandResponse::Put {}),
                Err(e) => Err(e),
            }
        },
        Command::Rm { key } => {
            match store.remove(key.clone()) {
                Ok(value) => Ok(CommandResponse::Rm { value }),
                Err(e) => Err(e),
            }
        },
    }
}

} // verus!
