//! The built-in operations.
use vstd::prelude::*;
use crate::order::Val;
use crate::value::V;
use crate::encode::{int_val, decode_prim, Primitive};
use crate::text::{chars_of, same_chars, lookup_str};
use crate::interp::{OpStep, AbortV, Abort, Diag, InterpError, lookup_key, op_follows, op_sem, exec, as_i32};

verus! {

/// A built-in operation.
pub enum Op {
    Add,
    Run,
}

/// The name `add`.
pub open spec fn name_add() -> Seq<char> {
    seq!['a', 'd', 'd']
}

/// The name `run`.
pub open spec fn name_run() -> Seq<char> {
    seq!['r', 'u', 'n']
}

/// The name `left`.
pub open spec fn name_left() -> Seq<char> {
    seq!['l', 'e', 'f', 't']
}

/// The name `right`.
pub open spec fn name_right() -> Seq<char> {
    seq!['r', 'i', 'g', 'h', 't']
}

/// The name `program`.
pub open spec fn name_program() -> Seq<char> {
    seq!['p', 'r', 'o', 'g', 'r', 'a', 'm']
}

/// The operation registered under `name`.
pub open spec fn op_named(name: Seq<char>) -> Option<Op> {
    if name == name_add() {
        Some(Op::Add)
    } else if name == name_run() {
        Some(Op::Run)
    } else {
        None
    }
}

/// The bit pattern of a signed 32-bit number.
pub open spec fn pattern32(i: int) -> nat {
    if i >= 0 { i as nat } else { (i + 0x1_0000_0000) as nat }
}

/// `add`: the sum of the signed 32-bit numbers under `left` and `right`; a sum
/// outside the signed 32-bit range stops the run.
pub open spec fn add_sem(root: Val, args: Val) -> OpStep {
    let left = lookup_key(args, name_left());
    let right = lookup_key(args, name_right());
    match decode_prim(left, 32) {
        None => OpStep::Stop(AbortV::AddLeftNotNumber(left)),
        Some(l) => match decode_prim(right, 32) {
            None => OpStep::Stop(AbortV::AddRightNotNumber(right)),
            Some(r) => {
                let sum = as_i32(l) + as_i32(r);
                if sum < -0x8000_0000 || sum > 0x7fff_ffff {
                    OpStep::Stop(AbortV::AddOverflow)
                } else {
                    OpStep::Done(root, Seq::empty(), Ok(int_val(pattern32(sum))))
                }
            },
        },
    }
}

/// The operation registered under a name given as characters.
pub fn op_by_chars(name: &Vec<char>) -> (r: Option<Op>)
    ensures
        r == op_named(name@),
{
    proof {
        reveal_strlit("add");
        reveal_strlit("run");
    }
    if same_chars(name, "add") {
        proof {
            assert("add"@ =~= name_add());
        }
        Some(Op::Add)
    } else if same_chars(name, "run") {
        proof {
            assert("run"@ =~= name_run());
            assert("add"@ =~= name_add());
        }
        Some(Op::Run)
    } else {
        proof {
            assert("run"@ =~= name_run());
            assert("add"@ =~= name_add());
        }
        None
    }
}

/// The operation registered under `name`.
pub fn op_registry(name: &str) -> (r: Option<Op>)
    ensures
        r == op_named(name@),
{
    op_by_chars(&chars_of(name))
}

/// The names of the registered operations.
pub fn registered_op_names() -> (r: Vec<&'static str>)
    ensures
        r@.len() == 2,
        r@[0]@ == name_add(),
        r@[1]@ == name_run(),
{
    proof {
        reveal_strlit("add");
        reveal_strlit("run");
        assert("run"@ =~= name_run());
        assert("add"@ =~= name_add());
    }
    let mut names: Vec<&'static str> = Vec::new();
    names.push("add");
    names.push("run");
    names
}

/// `add`: adds the numbers under `left` and `right` of the arguments.
pub fn op_add(root: &mut V, args: &V) -> (r: Result<Result<V, InterpError>, Abort>)
    ensures
        op_follows(r, final(root)@, Seq::empty(), Seq::empty(), add_sem(old(root)@, args@)),
{
    proof {
        reveal_strlit("left");
        reveal_strlit("right");
        assert("left"@ =~= name_left());
        assert("right"@ =~= name_right());
    }
    let left = lookup_str(args, "left");
    let right = lookup_str(args, "right");
    let l: i32 = match left.try_to_prim::<i32>() {
        Some(l) => l,
        None => return Err(Abort::AddLeftNotNumber(left)),
    };
    let r: i32 = match right.try_to_prim::<i32>() {
        Some(r) => r,
        None => return Err(Abort::AddRightNotNumber(right)),
    };
    proof {
        assert(as_i32(l.unsigned()) == l);
        assert(as_i32(r.unsigned()) == r);
    }
    let sum: i64 = l as i64 + r as i64;
    if sum < -0x8000_0000 || sum > 0x7fff_ffff {
        return Err(Abort::AddOverflow);
    }
    let s32 = sum as i32;
    proof {
        assert(s32 == sum);
        assert(s32.unsigned() == pattern32(sum as int));
    }
    Ok(Ok(V::from_prim(s32)))
}

/// `run`: runs the program under `program` of the arguments against the root; returns the number `0`.
pub fn op_run(root: &mut V, args: &V, fuel: u32, log: &mut Vec<Diag>) -> (r: Result<Result<V, InterpError>, Abort>)
    ensures
        op_follows(r, final(root)@, old(log)@, final(log)@, op_sem(Op::Run, old(root)@, args@, fuel as nat)),
    decreases fuel, 8nat, 0nat,
{
    proof {
        reveal_strlit("program");
        assert("program"@ =~= name_program());
    }
    let program = lookup_str(args, "program");
    match exec(root, &program, fuel, log) {
        Err(a) => Err(a),
        Ok(Err(e)) => Ok(Err(e)),
        Ok(Ok(())) => {
            let zero = V::from_prim(0i32);
            proof {
                assert(zero@ == int_val(0));
            }
            Ok(Ok(zero))
        },
    }
}

/// Runs operation `op` on `args`.
pub fn call_op(op: Op, root: &mut V, args: &V, fuel: u32, log: &mut Vec<Diag>) -> (r: Result<Result<V, InterpError>, Abort>)
    ensures
        op_follows(r, final(root)@, old(log)@, final(log)@, op_sem(op, old(root)@, args@, fuel as nat)),
    decreases fuel, 9nat, 1nat,
{
    match op {
        Op::Add => {
            let r = op_add(root, args);
            proof {
                assert(crate::interp::diag_views(log@) + Seq::empty() =~= crate::interp::diag_views(log@));
                assert(crate::interp::diag_views(Seq::<Diag>::empty()) =~= Seq::empty());
            }
            r
        },
        Op::Run => op_run(root, args, fuel, log),
    }
}

} // verus!
