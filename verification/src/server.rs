//! One request/response cycle: decode the read text, check the request
//! shape, run the command, encode the reply. The listening socket, the
//! threads and the lock around the store live outside the library; they
//! hand in the text of one read and write back the reply text.

use crate::command::{args_ok, execute_spec, spec_command_of, Command};
use crate::data_type::{
    dt_view, dt_views, encoding, is_textual, lemma_dt_views_index, DataType, ValueView,
};
use crate::deserializer::{spec_decode_all, DeSerializer};
use crate::store::Store;
use vstd::prelude::*;

verus! {

/// The command name and arguments of a well-shaped request: one array
/// whose first element is a bulk string holding the name.
pub open spec fn request_parts(vs: Seq<ValueView>) -> Option<(Seq<char>, Seq<ValueView>)> {
    if vs.len() >= 1 && vs[0] is Array {
        let elems = vs[0]->Array_0;
        if elems.len() >= 1 && elems[0] is BulkString {
            Some((elems[0]->BulkString_0, elems.drop_first()))
        } else {
            None
        }
    } else {
        None
    }
}

/// What one read leads to: the reply text, if one is sent, and the two
/// maps as the request leaves them. Malformed text, an unrecognized
/// top-level shape and arguments the named command cannot read get no
/// reply and change nothing.
pub open spec fn request_outcome(
    input: Seq<char>,
    scalars: Map<Seq<char>, Seq<char>>,
    lists: Map<Seq<char>, Seq<Seq<char>>>,
) -> (Option<Seq<char>>, Map<Seq<char>, Seq<char>>, Map<Seq<char>, Seq<Seq<char>>>) {
    match spec_decode_all(input, 0) {
        Err(_) => (None, scalars, lists),
        Ok(vs) => match request_parts(vs) {
            Option::None => (None, scalars, lists),
            Option::Some((name, args)) => {
                let c = spec_command_of(name);
                if c is Some && !args_ok(c->Some_0, args) {
                    (None, scalars, lists)
                } else {
                    let out = execute_spec(c, args, scalars, lists);
                    (Some(encoding(out.result)), out.scalars, out.lists)
                }
            },
        },
    }
}

/// Whether a value is one of the string-like variants.
fn is_textual_exec(v: &DataType) -> (r: bool)
    ensures
        r == is_textual(dt_view(*v)),
{
    match v {
        DataType::SimpleString(_) => true,
        DataType::Error(_) => true,
        DataType::BulkString(_) => true,
        _ => false,
    }
}

/// Whether every argument is string-like.
fn all_textual(args: &Vec<DataType>) -> (r: bool)
    ensures
        r == forall|i: int| 0 <= i < dt_views(args@).len() ==> is_textual(#[trigger] dt_views(args@)[i]),
{
    proof {
        lemma_dt_views_index(args@);
    }
    let mut i: usize = 0;
    while i < args.len()
        invariant
            i <= args@.len(),
            dt_views(args@).len() == args@.len(),
            forall|j: int|
                0 <= j < args@.len() ==> dt_views(args@)[j] == dt_view(#[trigger] args@[j]),
            forall|j: int| 0 <= j < i ==> is_textual(#[trigger] dt_views(args@)[j]),
        decreases args@.len() - i,
    {
        if !is_textual_exec(&args[i]) {
            return false;
        }
        i += 1;
    }
    true
}

/// Checks that the arguments fit what the named command will read.
fn check_args(cmd: Command, args: &Vec<DataType>) -> (r: bool)
    ensures
        r == args_ok(cmd, dt_views(args@)),
{
    proof {
        lemma_dt_views_index(args@);
    }
    match cmd {
        Command::Ping => true,
        Command::Echo => args.len() >= 1 && is_textual_exec(&args[0]),
        Command::SetValue => args.len() >= 2 && is_textual_exec(&args[0]) && is_textual_exec(
            &args[1],
        ),
        Command::Get => args.len() >= 1 && is_textual_exec(&args[0]),
        Command::Exists => args.len() >= 1 && is_textual_exec(&args[0]),
        Command::Del => all_textual(args),
        Command::Incr => args.len() >= 1 && is_textual_exec(&args[0]),
        Command::Decr => args.len() >= 1 && is_textual_exec(&args[0]),
        Command::Rpush => args.len() >= 1 && all_textual(args),
        Command::Lpush => args.len() >= 1 && all_textual(args),
    }
}

/// Serve one read: decode it, run the command it names against the
/// store, and return the reply text to write back, or nothing when the
/// request gets no reply.
pub fn handle_request(input: &str, store: &mut Store) -> (r: Option<String>)
    requires
        old(store).wf(),
    ensures
        final(store).wf(),
        ({
            let (resp, sc, li) = request_outcome(
                input@,
                old(store).scalar_map(),
                old(store).list_map(),
            );
            final(store).scalar_map() == sc && final(store).list_map() == li && (match r {
                Option::Some(text) => resp == Some(text@),
                Option::None => resp is None,
            })
        }),
{
    let mut deser = DeSerializer::new(input);
    let mut values = match deser.deserialize() {
        Ok(v) => v,
        Err(_) => {
            return None;
        },
    };
    proof {
        lemma_dt_views_index(values@);
    }
    if values.len() == 0 {
        return None;
    }
    let ghost vs = dt_views(values@);
    let first = values.remove(0);
    match first {
        DataType::Array(mut elems) => {
            let ghost elems0 = elems@;
            proof {
                lemma_dt_views_index(elems0);
                assert(vs[0] == dt_view(first));
            }
            if elems.len() == 0 {
                return None;
            }
            let name_val = elems.remove(0);
            proof {
                assert(elems@ =~= elems0.drop_first());
                lemma_dt_views_index(elems@);
                assert(dt_views(elems@) =~= dt_views(elems0).drop_first()) by {
                    lemma_dt_views_index(elems0);
                    assert forall|t: int| 0 <= t < elems@.len() implies dt_views(elems@)[t]
                        == dt_views(elems0).drop_first()[t] by {
                        assert(elems@[t] == elems0[t + 1]);
                    }
                }
            }
            match name_val {
                DataType::BulkString(name) => {
                    proof {
                        assert(dt_views(elems0)[0] == dt_view(name_val));
                        assert(request_parts(vs) == Some((name@, dt_views(elems@))));
                    }
                    match Command::from_name(name.as_str()) {
                        Option::Some(c) => {
                            if !check_args(c, &elems) {
                                return None;
                            }
                        },
                        Option::None => {},
                    }
                    let resp = Command::handle_command(&name, &elems, store);
                    Some(resp.serialize())
                },
                _ => None,
            }
        },
        _ => None,
    }
}

} // verus!
