//! Laws of the command semantics, stated over `execute_spec` — the
//! meaning that `handle_command` is proved to realize.

use crate::command::{
    args_ok, arg_text, clip_i64, del_count, del_map, execute_spec, texts_of, Command,
};
use crate::data_type::ValueView;
use crate::num::int_chars;
use crate::store::list_at;
use vstd::prelude::*;

verus! {

/// Whether some argument names the key.
pub open spec fn has_arg_key(args: Seq<ValueView>, k: Seq<char>) -> bool {
    exists|i: int| 0 <= i < args.len() && arg_text(#[trigger] args[i]) == k
}

/// No two arguments name the same key.
pub open spec fn distinct_keys(args: Seq<ValueView>) -> bool {
    forall|i: int, j: int|
        0 <= i < j < args.len() ==> arg_text(#[trigger] args[i]) != arg_text(#[trigger] args[j])
}

/// How many of the listed keys the map holds, each counted once.
pub open spec fn present_count(args: Seq<ValueView>, m: Map<Seq<char>, Seq<char>>) -> int
    decreases args.len(),
{
    if args.len() == 0 {
        0
    } else {
        (if m.contains_key(arg_text(args[0])) {
            1int
        } else {
            0int
        }) + present_count(args.drop_first(), m)
    }
}

/// Getting a key straight after setting it returns exactly the value
/// set, whatever else the store holds.
pub proof fn law_set_then_get(
    set_args: Seq<ValueView>,
    get_args: Seq<ValueView>,
    scalars: Map<Seq<char>, Seq<char>>,
    lists: Map<Seq<char>, Seq<Seq<char>>>,
)
    requires
        args_ok(Command::SetValue, set_args),
        args_ok(Command::Get, get_args),
        arg_text(get_args[0]) == arg_text(set_args[0]),
    ensures
        ({
            let after = execute_spec(Some(Command::SetValue), set_args, scalars, lists);
            let got = execute_spec(Some(Command::Get), get_args, after.scalars, after.lists);
            got.result == ValueView::BulkString(arg_text(set_args[1]))
        }),
{
}

/// A set touches no key but its own: every other key keeps its presence
/// and its value.
pub proof fn law_set_preserves_other_keys(
    set_args: Seq<ValueView>,
    scalars: Map<Seq<char>, Seq<char>>,
    lists: Map<Seq<char>, Seq<Seq<char>>>,
    k: Seq<char>,
)
    requires
        args_ok(Command::SetValue, set_args),
        arg_text(set_args[0]) != k,
    ensures
        ({
            let after = execute_spec(Some(Command::SetValue), set_args, scalars, lists);
            after.scalars.contains_key(k) == scalars.contains_key(k) && (scalars.contains_key(k)
                ==> after.scalars[k] == scalars[k]) && after.lists == lists
        }),
{
}

/// Two sets on distinct keys are both visible afterwards, whichever
/// order they run in, and the stores they leave are the same.
pub proof fn law_set_set_commutes(
    first_args: Seq<ValueView>,
    second_args: Seq<ValueView>,
    scalars: Map<Seq<char>, Seq<char>>,
    lists: Map<Seq<char>, Seq<Seq<char>>>,
)
    requires
        args_ok(Command::SetValue, first_args),
        args_ok(Command::SetValue, second_args),
        arg_text(first_args[0]) != arg_text(second_args[0]),
    ensures
        ({
            let one = execute_spec(Some(Command::SetValue), first_args, scalars, lists);
            let one_two = execute_spec(Some(Command::SetValue), second_args, one.scalars, one.lists);
            let two = execute_spec(Some(Command::SetValue), second_args, scalars, lists);
            let two_one = execute_spec(Some(Command::SetValue), first_args, two.scalars, two.lists);
            one_two.scalars =~= two_one.scalars && one_two.scalars[arg_text(first_args[0])]
                == arg_text(first_args[1]) && one_two.scalars[arg_text(second_args[0])]
                == arg_text(second_args[1]) && one_two.scalars.contains_key(
                arg_text(first_args[0]),
            ) && one_two.scalars.contains_key(arg_text(second_args[0]))
        }),
{
}

/// Deleting keys that a key is not among leaves that key's presence and
/// value alone.
proof fn lemma_del_map_frame(args: Seq<ValueView>, m: Map<Seq<char>, Seq<char>>, k: Seq<char>)
    requires
        !has_arg_key(args, k),
    ensures
        del_map(args, m).contains_key(k) == m.contains_key(k),
        m.contains_key(k) ==> del_map(args, m)[k] == m[k],
    decreases args.len(),
{
    if args.len() > 0 {
        let k0 = arg_text(args[0]);
        assert(arg_text(args[0]) != k);
        assert(!has_arg_key(args.drop_first(), k)) by {
            if has_arg_key(args.drop_first(), k) {
                let i = choose|i: int|
                    0 <= i < args.drop_first().len() && arg_text(
                        #[trigger] args.drop_first()[i],
                    ) == k;
                assert(arg_text(args[i + 1]) == k);
            }
        }
        lemma_del_map_frame(args.drop_first(), m.remove(k0), k);
    }
}

/// No command touches a scalar key that its arguments do not name: the
/// key keeps its presence and its value, whatever else the command does.
pub proof fn law_other_keys_untouched(
    cmd: Option<Command>,
    args: Seq<ValueView>,
    scalars: Map<Seq<char>, Seq<char>>,
    lists: Map<Seq<char>, Seq<Seq<char>>>,
    k: Seq<char>,
)
    requires
        match cmd {
            Option::Some(c) => args_ok(c, args),
            Option::None => true,
        },
        !has_arg_key(args, k),
    ensures
        ({
            let out = execute_spec(cmd, args, scalars, lists);
            out.scalars.contains_key(k) == scalars.contains_key(k) && (scalars.contains_key(k)
                ==> out.scalars[k] == scalars[k])
        }),
{
    match cmd {
        Option::Some(Command::Del) => {
            lemma_del_map_frame(args, scalars, k);
        },
        Option::Some(Command::SetValue) => {
            assert(arg_text(args[0]) != k);
        },
        Option::Some(Command::Incr) => {
            assert(arg_text(args[0]) != k);
        },
        Option::Some(Command::Decr) => {
            assert(arg_text(args[0]) != k);
        },
        _ => {},
    }
}

/// Removing a key that none of the listed arguments name changes neither
/// what a delete counts nor what it leaves, beyond that key.
proof fn lemma_del_ignores_other_key(
    args: Seq<ValueView>,
    m: Map<Seq<char>, Seq<char>>,
    k: Seq<char>,
)
    requires
        !has_arg_key(args, k),
    ensures
        del_count(args, m.remove(k)) == del_count(args, m),
        del_map(args, m.remove(k)) =~= del_map(args, m).remove(k),
    decreases args.len(),
{
    if args.len() > 0 {
        let k0 = arg_text(args[0]);
        assert(k0 != k);
        assert(m.remove(k).remove(k0) =~= m.remove(k0).remove(k));
        assert(!has_arg_key(args.drop_first(), k)) by {
            if has_arg_key(args.drop_first(), k) {
                let i = choose|i: int|
                    0 <= i < args.drop_first().len() && arg_text(
                        #[trigger] args.drop_first()[i],
                    ) == k;
                assert(arg_text(args[i + 1]) == k);
            }
        }
        lemma_del_ignores_other_key(args.drop_first(), m.remove(k0), k);
    }
}

/// With distinct keys, a delete counts exactly the keys that are
/// present, and afterwards none of them is.
pub proof fn law_del_counts_present(args: Seq<ValueView>, m: Map<Seq<char>, Seq<char>>)
    requires
        distinct_keys(args),
    ensures
        del_count(args, m) == present_count(args, m),
        forall|k: Seq<char>|
            #[trigger] del_map(args, m).contains_key(k) <==> (m.contains_key(k) && !has_arg_key(
                args,
                k,
            )),
    decreases args.len(),
{
    if args.len() > 0 {
        let k0 = arg_text(args[0]);
        let rest = args.drop_first();
        assert(distinct_keys(rest)) by {
            assert forall|i: int, j: int| 0 <= i < j < rest.len() implies arg_text(
                #[trigger] rest[i],
            ) != arg_text(#[trigger] rest[j]) by {
                assert(rest[i] == args[i + 1]);
                assert(rest[j] == args[j + 1]);
            }
        }
        assert(!has_arg_key(rest, k0)) by {
            if has_arg_key(rest, k0) {
                let i = choose|i: int|
                    0 <= i < rest.len() && arg_text(#[trigger] rest[i]) == k0;
                assert(arg_text(args[i + 1]) == arg_text(args[0]));
            }
        }
        lemma_del_ignores_other_key(rest, m, k0);
        law_del_counts_present(rest, m);
        assert forall|k: Seq<char>| #[trigger]
            del_map(args, m).contains_key(k) <==> (m.contains_key(k) && !has_arg_key(
                args,
                k,
            )) by {
            assert(del_map(args, m) == del_map(rest, m.remove(k0)));
            assert(del_map(rest, m.remove(k0)) =~= del_map(rest, m).remove(k0));
            if k != k0 {
                if has_arg_key(rest, k) {
                    let i = choose|i: int|
                        0 <= i < rest.len() && arg_text(#[trigger] rest[i]) == k;
                    assert(arg_text(args[i + 1]) == k);
                }
                if has_arg_key(args, k) {
                    let i = choose|i: int|
                        0 <= i < args.len() && arg_text(#[trigger] args[i]) == k;
                    assert(i >= 1);
                    assert(rest[i - 1] == args[i]);
                }
            } else {
                assert(has_arg_key(args, k0)) by {
                    assert(arg_text(args[0]) == k0);
                }
            }
        }
    }
}

/// Deleting distinct keys answers with how many were present; running
/// the same delete again answers with zero, since the first pass removed
/// them all.
pub proof fn law_del_twice(
    args: Seq<ValueView>,
    scalars: Map<Seq<char>, Seq<char>>,
    lists: Map<Seq<char>, Seq<Seq<char>>>,
)
    requires
        args_ok(Command::Del, args),
        distinct_keys(args),
    ensures
        ({
            let first = execute_spec(Some(Command::Del), args, scalars, lists);
            let second = execute_spec(Some(Command::Del), args, first.scalars, first.lists);
            first.result == ValueView::Integer(clip_i64(present_count(args, scalars)))
                && second.result == ValueView::Integer(0)
        }),
{
    law_del_counts_present(args, scalars);
    let m1 = del_map(args, scalars);
    law_del_counts_present(args, m1);
    assert(present_count(args, m1) == 0) by {
        lemma_present_count_none(args, m1);
    }
}

/// A map that holds none of the listed keys gives a present-count of
/// zero.
proof fn lemma_present_count_none(args: Seq<ValueView>, m: Map<Seq<char>, Seq<char>>)
    requires
        forall|i: int| 0 <= i < args.len() ==> !m.contains_key(arg_text(#[trigger] args[i])),
    ensures
        present_count(args, m) == 0,
    decreases args.len(),
{
    if args.len() > 0 {
        assert forall|i: int| 0 <= i < args.drop_first().len() implies !m.contains_key(
            arg_text(#[trigger] args.drop_first()[i]),
        ) by {
            assert(args.drop_first()[i] == args[i + 1]);
        }
        lemma_present_count_none(args.drop_first(), m);
    }
}

/// Stepping an absent key up by one answers with one and stores its
/// text.
pub proof fn law_incr_absent(
    args: Seq<ValueView>,
    scalars: Map<Seq<char>, Seq<char>>,
    lists: Map<Seq<char>, Seq<Seq<char>>>,
)
    requires
        args_ok(Command::Incr, args),
        !scalars.contains_key(arg_text(args[0])),
    ensures
        ({
            let out = execute_spec(Some(Command::Incr), args, scalars, lists);
            out.result == ValueView::Integer(1) && out.scalars == scalars.insert(
                arg_text(args[0]),
                int_chars(1),
            )
        }),
{
}

/// Stepping a key that holds something other than an integer answers
/// with an error and leaves the stored value untouched.
pub proof fn law_incr_non_integer(
    args: Seq<ValueView>,
    scalars: Map<Seq<char>, Seq<char>>,
    lists: Map<Seq<char>, Seq<Seq<char>>>,
)
    requires
        args_ok(Command::Incr, args),
        scalars.contains_key(arg_text(args[0])),
        crate::num::parse_int(scalars[arg_text(args[0])]) is None,
    ensures
        ({
            let out = execute_spec(Some(Command::Incr), args, scalars, lists);
            out.result == ValueView::Error("value is not an integer or out of range"@)
                && out.scalars == scalars && out.scalars[arg_text(args[0])] == scalars[arg_text(
                args[0],
            )]
        }),
{
}

/// Appending on the right adds the arguments after the stored list, in
/// argument order; two appends on one key concatenate.
pub proof fn law_rpush_appends(
    first_args: Seq<ValueView>,
    second_args: Seq<ValueView>,
    scalars: Map<Seq<char>, Seq<char>>,
    lists: Map<Seq<char>, Seq<Seq<char>>>,
)
    requires
        args_ok(Command::Rpush, first_args),
        args_ok(Command::Rpush, second_args),
        arg_text(first_args[0]) == arg_text(second_args[0]),
        !scalars.contains_key(arg_text(first_args[0])),
    ensures
        ({
            let k = arg_text(first_args[0]);
            let one = execute_spec(Some(Command::Rpush), first_args, scalars, lists);
            let two = execute_spec(Some(Command::Rpush), second_args, one.scalars, one.lists);
            one.lists[k] == list_at(lists, k) + texts_of(first_args.drop_first())
                && two.lists[k] == list_at(lists, k) + texts_of(first_args.drop_first())
                + texts_of(second_args.drop_first())
        }),
{
    let k = arg_text(first_args[0]);
    let one = execute_spec(Some(Command::Rpush), first_args, scalars, lists);
    assert(list_at(one.lists, k) == list_at(lists, k) + texts_of(first_args.drop_first()));
    assert((list_at(lists, k) + texts_of(first_args.drop_first())) + texts_of(
        second_args.drop_first(),
    ) =~= list_at(lists, k) + texts_of(first_args.drop_first()) + texts_of(
        second_args.drop_first(),
    ));
}

/// Prepending inserts each argument at the front in argument order, so
/// the arguments end up reversed before what the list already held.
pub proof fn law_lpush_prepends(
    args: Seq<ValueView>,
    scalars: Map<Seq<char>, Seq<char>>,
    lists: Map<Seq<char>, Seq<Seq<char>>>,
)
    requires
        args_ok(Command::Lpush, args),
        !scalars.contains_key(arg_text(args[0])),
    ensures
        ({
            let k = arg_text(args[0]);
            let out = execute_spec(Some(Command::Lpush), args, scalars, lists);
            out.lists[k] == texts_of(args.drop_first()).reverse() + list_at(lists, k)
        }),
{
}

/// A push on a key that holds a scalar answers with an error, creates no
/// list entry, and leaves the whole store as it was.
pub proof fn law_rpush_wrong_type(
    args: Seq<ValueView>,
    scalars: Map<Seq<char>, Seq<char>>,
    lists: Map<Seq<char>, Seq<Seq<char>>>,
)
    requires
        args_ok(Command::Rpush, args),
        scalars.contains_key(arg_text(args[0])),
    ensures
        ({
            let out = execute_spec(Some(Command::Rpush), args, scalars, lists);
            out.result == ValueView::Error("value is not an array"@) && out.lists == lists
                && out.scalars == scalars && out.lists.contains_key(arg_text(args[0]))
                == lists.contains_key(arg_text(args[0]))
        }),
{
}

} // verus!
