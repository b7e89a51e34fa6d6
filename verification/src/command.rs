//! The command dispatcher: interprets one decoded request against the
//! store. `execute_spec` is the mathematical meaning of every command;
//! `handle_command` is proved to realize it.

use crate::data_type::{dt_view, dt_views, is_textual, lemma_dt_views_index, text_of, DataType, ValueView};
use crate::num::int_chars;
use crate::store::{incr_ok, list_at, stored_int, Store};
use vstd::prelude::*;
use vstd::string::StrSliceExecFns;

verus! {

/// The commands the server understands.
#[derive(Clone, Copy, Debug, PartialEq, Eq, Structural)]
pub enum Command {
    Ping,
    Echo,
    SetValue,
    Get,
    Exists,
    Del,
    Incr,
    Decr,
    Rpush,
    Lpush,
}

/// Lower case for the basic letters; anything else is left alone.
pub open spec fn lower_char(c: char) -> char {
    if 65 <= c as u32 <= 90 {
        ((c as u32 + 32) as u32) as char
    } else {
        c
    }
}

/// Character-wise lower casing of a name.
pub open spec fn lower(s: Seq<char>) -> Seq<char> {
    s.map_values(|c: char| lower_char(c))
}

/// The command a name denotes, compared without regard to case.
pub open spec fn spec_command_of(name: Seq<char>) -> Option<Command> {
    let l = lower(name);
    if l == "ping"@ {
        Some(Command::Ping)
    } else if l == "echo"@ {
        Some(Command::Echo)
    } else if l == "set"@ {
        Some(Command::SetValue)
    } else if l == "get"@ {
        Some(Command::Get)
    } else if l == "exists"@ {
        Some(Command::Exists)
    } else if l == "del"@ {
        Some(Command::Del)
    } else if l == "incr"@ {
        Some(Command::Incr)
    } else if l == "decr"@ {
        Some(Command::Decr)
    } else if l == "rpush"@ {
        Some(Command::Rpush)
    } else if l == "lpush"@ {
        Some(Command::Lpush)
    } else {
        None
    }
}

/// The text an argument carries.
pub open spec fn arg_text(v: ValueView) -> Seq<char> {
    text_of(v)
}

/// The texts of a run of arguments, in order.
pub open spec fn texts_of(args: Seq<ValueView>) -> Seq<Seq<char>> {
    args.map_values(|a: ValueView| arg_text(a))
}

/// How many of the listed keys are present, counting each removal once:
/// deleting walks the keys left to right and a repeated key is already
/// gone when met again.
pub open spec fn del_count(args: Seq<ValueView>, m: Map<Seq<char>, Seq<char>>) -> int
    decreases args.len(),
{
    if args.len() == 0 {
        0
    } else {
        let k = arg_text(args[0]);
        (if m.contains_key(k) {
            1int
        } else {
            0int
        }) + del_count(args.drop_first(), m.remove(k))
    }
}

/// The scalar map after deleting the listed keys.
pub open spec fn del_map(args: Seq<ValueView>, m: Map<Seq<char>, Seq<char>>) -> Map<
    Seq<char>,
    Seq<char>,
>
    decreases args.len(),
{
    if args.len() == 0 {
        m
    } else {
        del_map(args.drop_first(), m.remove(arg_text(args[0])))
    }
}

/// A count clipped to the signed 64-bit range; real stores never reach
/// the clip.
pub open spec fn clip_i64(n: int) -> int {
    if n <= i64::MAX {
        n
    } else {
        i64::MAX as int
    }
}

/// The arguments each command needs before it can run: the original
/// server indexes them without checking, so the caller establishes this.
pub open spec fn args_ok(cmd: Command, args: Seq<ValueView>) -> bool {
    match cmd {
        Command::Ping => true,
        Command::Echo => args.len() >= 1 && is_textual(args[0]),
        Command::SetValue => args.len() >= 2 && is_textual(args[0]) && is_textual(args[1]),
        Command::Get => args.len() >= 1 && is_textual(args[0]),
        Command::Exists => args.len() >= 1 && is_textual(args[0]),
        Command::Del => forall|i: int| 0 <= i < args.len() ==> is_textual(#[trigger] args[i]),
        Command::Incr => args.len() >= 1 && is_textual(args[0]),
        Command::Decr => args.len() >= 1 && is_textual(args[0]),
        Command::Rpush => args.len() >= 1 && forall|i: int|
            0 <= i < args.len() ==> is_textual(#[trigger] args[i]),
        Command::Lpush => args.len() >= 1 && forall|i: int|
            0 <= i < args.len() ==> is_textual(#[trigger] args[i]),
    }
}

/// What a command returns and leaves behind.
pub struct Outcome {
    pub result: ValueView,
    pub scalars: Map<Seq<char>, Seq<char>>,
    pub lists: Map<Seq<char>, Seq<Seq<char>>>,
}

/// The meaning of one request: the reply sent back and the two maps as
/// the command leaves them. An unrecognized name changes nothing and is
/// answered with an error value.
pub open spec fn execute_spec(
    cmd: Option<Command>,
    args: Seq<ValueView>,
    scalars: Map<Seq<char>, Seq<char>>,
    lists: Map<Seq<char>, Seq<Seq<char>>>,
) -> Outcome {
    match cmd {
        Option::None => Outcome { result: ValueView::Error("ERR unknown command"@), scalars, lists },
        Option::Some(Command::Ping) => Outcome {
            result: ValueView::SimpleString("PONG"@),
            scalars,
            lists,
        },
        Option::Some(Command::Echo) => Outcome {
            result: ValueView::BulkString(arg_text(args[0])),
            scalars,
            lists,
        },
        Option::Some(Command::SetValue) => Outcome {
            result: ValueView::SimpleString("OK"@),
            scalars: scalars.insert(arg_text(args[0]), arg_text(args[1])),
            lists,
        },
        Option::Some(Command::Get) => {
            let k = arg_text(args[0]);
            Outcome {
                result: if scalars.contains_key(k) {
                    ValueView::BulkString(scalars[k])
                } else {
                    ValueView::Null
                },
                scalars,
                lists,
            }
        },
        Option::Some(Command::Exists) => Outcome {
            result: ValueView::Integer(
                if scalars.contains_key(arg_text(args[0])) {
                    1int
                } else {
                    0int
                },
            ),
            scalars,
            lists,
        },
        Option::Some(Command::Del) => Outcome {
            result: ValueView::Integer(clip_i64(del_count(args, scalars))),
            scalars: del_map(args, scalars),
            lists,
        },
        Option::Some(Command::Incr) => incr_outcome(args, scalars, lists, 1),
        Option::Some(Command::Decr) => incr_outcome(args, scalars, lists, -1),
        Option::Some(Command::Rpush) => {
            let k = arg_text(args[0]);
            if scalars.contains_key(k) {
                Outcome { result: ValueView::Error("value is not an array"@), scalars, lists }
            } else {
                let nl = list_at(lists, k) + texts_of(args.drop_first());
                Outcome {
                    result: ValueView::Integer(clip_i64(nl.len() as int)),
                    scalars,
                    lists: lists.insert(k, nl),
                }
            }
        },
        Option::Some(Command::Lpush) => {
            let k = arg_text(args[0]);
            if scalars.contains_key(k) {
                Outcome { result: ValueView::Error("value is not an array"@), scalars, lists }
            } else {
                let nl = texts_of(args.drop_first()).reverse() + list_at(lists, k);
                Outcome {
                    result: ValueView::Integer(clip_i64(nl.len() as int)),
                    scalars,
                    lists: lists.insert(k, nl),
                }
            }
        },
    }
}

/// The meaning of a step by `delta` on a stored integer.
pub open spec fn incr_outcome(
    args: Seq<ValueView>,
    scalars: Map<Seq<char>, Seq<char>>,
    lists: Map<Seq<char>, Seq<Seq<char>>>,
    delta: int,
) -> Outcome {
    let k = arg_text(args[0]);
    if incr_ok(scalars, k, delta) {
        let nv = stored_int(scalars, k)->Some_0 + delta;
        Outcome {
            result: ValueView::Integer(nv),
            scalars: scalars.insert(k, int_chars(nv)),
            lists,
        }
    } else {
        Outcome {
            result: ValueView::Error("value is not an integer or out of range"@),
            scalars,
            lists,
        }
    }
}

impl Command {
    /// Whether lower-casing one name gives the other.
    fn eq_lower(name: &str, target: &str) -> (r: bool)
        ensures
            r == (lower(name@) == target@),
    {
        let n = name.unicode_len();
        let m = target.unicode_len();
        if n != m {
            proof {
                assert(lower(name@).len() == name@.len());
            }
            return false;
        }
        let mut i: usize = 0;
        while i < n
            invariant
                i <= n,
                n == name@.len(),
                n == target@.len(),
                forall|j: int| 0 <= j < i ==> lower(name@)[j] == target@[j],
            decreases n - i,
        {
            let nc = name.get_char(i);
            let tc = target.get_char(i);
            let nu = nc as u32;
            let tu = tc as u32;
            let low: u32 = if 65 <= nu && nu <= 90 {
                nu + 32
            } else {
                nu
            };
            if low != tu {
                proof {
                    vstd::utf8::char_u32_cast(tc, tu);
                    if lower(name@) == target@ {
                        assert(lower(name@)[i as int] == lower_char(nc));
                        if 65 <= nu && nu <= 90 {
                            vstd::utf8::char_u32_cast(lower_char(nc), low);
                        }
                    }
                }
                return false;
            }
            proof {
                vstd::utf8::char_u32_cast(tc, tu);
                assert(lower(name@)[i as int] == lower_char(nc));
                if 65 <= nu && nu <= 90 {
                    assert((low as char) == tc);
                    assert(lower_char(nc) == tc);
                } else {
                    assert(nu == tu);
                    vstd::utf8::char_u32_cast(nc, nu);
                    assert(nc == tc);
                }
            }
            i += 1;
        }
        proof {
            assert(lower(name@) =~= target@);
        }
        true
    }

    /// The command a request names, compared without regard to case.
    pub fn from_name(name: &str) -> (r: Option<Command>)
        ensures
            r == spec_command_of(name@),
    {
        if Self::eq_lower(name, "ping") {
            Some(Command::Ping)
        } else if Self::eq_lower(name, "echo") {
            Some(Command::Echo)
        } else if Self::eq_lower(name, "set") {
            Some(Command::SetValue)
        } else if Self::eq_lower(name, "get") {
            Some(Command::Get)
        } else if Self::eq_lower(name, "exists") {
            Some(Command::Exists)
        } else if Self::eq_lower(name, "del") {
            Some(Command::Del)
        } else if Self::eq_lower(name, "incr") {
            Some(Command::Incr)
        } else if Self::eq_lower(name, "decr") {
            Some(Command::Decr)
        } else if Self::eq_lower(name, "rpush") {
            Some(Command::Rpush)
        } else if Self::eq_lower(name, "lpush") {
            Some(Command::Lpush)
        } else {
            None
        }
    }

    /// Execute one command sent by a client against the store. The reply is
    /// the protocol value to send back; the store is updated as the command
    /// demands. An unknown command name is answered with an error value and
    /// changes nothing.
    pub fn handle_command(command: &String, arguments: &Vec<DataType>, store: &mut Store) -> (r:
        DataType)
        requires
            old(store).wf(),
            match spec_command_of(command@) {
                Option::Some(c) => args_ok(c, dt_views(arguments@)),
                Option::None => true,
            },
        ensures
            final(store).wf(),
            ({
                let out = execute_spec(
                    spec_command_of(command@),
                    dt_views(arguments@),
                    old(store).scalar_map(),
                    old(store).list_map(),
                );
                dt_view(r) == out.result && final(store).scalar_map() == out.scalars
                    && final(store).list_map() == out.lists
            }),
    {
        proof {
            lemma_dt_views_index(arguments@);
        }
        match Command::from_name(command.as_str()) {
            Option::None => DataType::Error("ERR unknown command".to_owned()),
            Option::Some(Command::Ping) => DataType::SimpleString("PONG".to_owned()),
            Option::Some(Command::Echo) => DataType::BulkString(arguments[0].inner().clone()),
            Option::Some(Command::SetValue) => {
                store.set(arguments[0].inner(), arguments[1].inner());
                DataType::SimpleString("OK".to_owned())
            },
            Option::Some(Command::Get) => match store.get(arguments[0].inner()) {
                Option::Some(v) => DataType::BulkString(v),
                Option::None => DataType::Null,
            },
            Option::Some(Command::Exists) => {
                if store.has_key(arguments[0].inner()) {
                    DataType::Integer(1)
                } else {
                    DataType::Integer(0)
                }
            },
            Option::Some(Command::Del) => {
                let ghost all = dt_views(arguments@);
                let mut count: usize = 0;
                let mut i: usize = 0;
                proof {
                    assert(all.subrange(0, all.len() as int) =~= all);
                }
                while i < arguments.len()
                    invariant
                        store.wf(),
                        i <= arguments@.len(),
                        count <= i,
                        all == dt_views(arguments@),
                        all.len() == arguments@.len(),
                        forall|j: int|
                            0 <= j < arguments@.len() ==> all[j] == dt_view(
                                #[trigger] arguments@[j],
                            ),
                        forall|j: int| 0 <= j < all.len() ==> is_textual(#[trigger] all[j]),
                        store.list_map() == old(store).list_map(),
                        del_count(all.subrange(i as int, all.len() as int), store.scalar_map())
                            + count == del_count(all, old(store).scalar_map()),
                        del_map(all.subrange(i as int, all.len() as int), store.scalar_map())
                            == del_map(all, old(store).scalar_map()),
                    decreases arguments@.len() - i,
                {
                    let ghost rest = all.subrange(i as int, all.len() as int);
                    let k = arguments[i].inner();
                    let was_there = store.remove(k);
                    if was_there {
                        count += 1;
                    }
                    proof {
                        assert(rest[0] == all[i as int]);
                        assert(rest.drop_first() =~= all.subrange(i + 1int, all.len() as int));
                    }
                    i += 1;
                }
                proof {
                    assert(all.subrange(all.len() as int, all.len() as int) =~= Seq::<
                        ValueView,
                    >::empty());
                }
                if count as u64 <= i64::MAX as u64 {
                    DataType::Integer(count as i64)
                } else {
                    DataType::Integer(i64::MAX)
                }
            },
            Option::Some(Command::Incr) => match store.incr_by(arguments[0].inner(), 1) {
                Ok(nv) => DataType::Integer(nv),
                Err(_) => DataType::Error("value is not an integer or out of range".to_owned()),
            },
            Option::Some(Command::Decr) => match store.incr_by(arguments[0].inner(), -1) {
                Ok(nv) => DataType::Integer(nv),
                Err(_) => DataType::Error("value is not an integer or out of range".to_owned()),
            },
            Option::Some(Command::Rpush) => {
                if store.has_key(arguments[0].inner()) {
                    DataType::Error("value is not an array".to_owned())
                } else {
                    let vals = argument_texts(arguments);
                    let n = store.push_right(arguments[0].inner(), &vals);
                    if n as u64 <= i64::MAX as u64 {
                        DataType::Integer(n as i64)
                    } else {
                        DataType::Integer(i64::MAX)
                    }
                }
            },
            Option::Some(Command::Lpush) => {
                if store.has_key(arguments[0].inner()) {
                    DataType::Error("value is not an array".to_owned())
                } else {
                    let vals = argument_texts(arguments);
                    let n = store.push_left(arguments[0].inner(), &vals);
                    if n as u64 <= i64::MAX as u64 {
                        DataType::Integer(n as i64)
                    } else {
                        DataType::Integer(i64::MAX)
                    }
                }
            },
        }
    }
}

/// The texts of every argument after the first, cloned into one vector.
fn argument_texts(arguments: &Vec<DataType>) -> (r: Vec<String>)
    requires
        arguments@.len() >= 1,
        forall|j: int| 0 <= j < arguments@.len() ==> is_textual(dt_view(#[trigger] arguments@[j])),
    ensures
        r.deep_view() == texts_of(dt_views(arguments@).drop_first()),
{
    let ghost target = texts_of(dt_views(arguments@).drop_first());
    let mut vals: Vec<String> = Vec::new();
    proof {
        lemma_dt_views_index(arguments@);
        assert(vals.deep_view() =~= target.subrange(0, 0));
    }
    let mut i: usize = 1;
    while i < arguments.len()
        invariant
            1 <= i <= arguments@.len(),
            forall|j: int|
                0 <= j < arguments@.len() ==> is_textual(dt_view(#[trigger] arguments@[j])),
            target == texts_of(dt_views(arguments@).drop_first()),
            target.len() == arguments@.len() - 1,
            forall|j: int|
                0 <= j < target.len() ==> target[j] == text_of(
                    dt_view(#[trigger] arguments@[j + 1]),
                ),
            vals.deep_view() == target.subrange(0, i - 1),
        decreases arguments@.len() - i,
    {
        let ghost prev = vals@;
        let ghost prevdv = vals.deep_view();
        vals.push(arguments[i].inner().clone());
        proof {
            assert(vals@ == prev.push(vals@.last()));
            assert(prevdv.len() == prev.len());
            assert forall|t: int| 0 <= t < vals@.len() implies vals.deep_view()[t]
                == target.subrange(0, i as int)[t] by {
                if t < prev.len() {
                    assert(vals@[t] == prev[t]);
                    assert(prevdv[t] == prev[t].deep_view());
                    assert(prevdv[t] == target.subrange(0, i - 1)[t]);
                } else {
                    assert(vals@[t]@ == text_of(dt_view(arguments@[i as int])));
                    assert(target[t] == text_of(dt_view(arguments@[t + 1])));
                }
            }
            assert(vals.deep_view() =~= target.subrange(0, i as int));
        }
        i += 1;
    }
    proof {
        assert(target.subrange(0, arguments@.len() - 1) =~= target);
    }
    vals
}

} // verus!
