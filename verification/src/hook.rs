//! The interception decision.
//!
//! Run inside a monitored process, the interceptor sees a program about to
//! be executed.  It captures the call only when the program's name matches
//! the compiler-driver pattern and the arguments carry an exact `-o`
//! token; and even then only a fully transmitted wire record turns into
//! `Success`.  Everything else — and every failure along the way — leaves
//! the host to run the program unmodified.

use crate::pattern::{is_compiler_name, matches_compiler_name};
use vstd::prelude::*;
use vstd::string::StrSliceExecFns;

verus! {

/// Signal returned across the interception boundary.  `Success` means the
/// call was fully handled and the host must suppress the real execution;
/// `CallReal` means the host must execute the program unmodified.
#[derive(Clone, Copy, Debug, PartialEq, Eq, Structural)]
pub enum HookReturn {
    Success,
    CallReal,
}

/// An exact `-o` token — not a prefix such as `-o2` or `-output`.
pub open spec fn is_output_flag(a: Seq<char>) -> bool {
    a == "-o"@
}

/// Some argument is an exact `-o` token.
pub open spec fn has_output_flag(argv: Seq<Seq<char>>) -> bool {
    exists|k: int| 0 <= k < argv.len() && is_output_flag(#[trigger] argv[k])
}

/// The two checks that make an invocation worth capturing: a matching
/// program name in the first argument, and an output flag somewhere.
pub open spec fn spec_should_capture(argv: Seq<Seq<char>>) -> bool {
    argv.len() > 0 && is_compiler_name(argv[0]) && has_output_flag(argv)
}

/// The interceptor's answer, given whether the invocation qualified for
/// capture and whether the wire record was written in full.
pub open spec fn spec_verdict(capture: bool, sent: bool) -> HookReturn {
    if capture && sent {
        HookReturn::Success
    } else {
        HookReturn::CallReal
    }
}

fn is_dash_o(a: &str) -> (b: bool)
    ensures
        b == is_output_flag(a@),
{
    proof {
        reveal_strlit("-o");
    }
    let n = a.unicode_len();
    if n != 2 {
        proof {
            if a@ == "-o"@ {
                assert(a@.len() == 2);
            }
        }
        return false;
    }
    let c0 = a.get_char(0);
    let c1 = a.get_char(1);
    proof {
        if a@ == "-o"@ {
            assert(a@[0] == '-' && a@[1] == 'o');
        }
        if c0 == '-' && c1 == 'o' {
            assert(a@ =~= "-o"@);
        }
    }
    c0 == '-' && c1 == 'o'
}

/// Whether the argument vector holds an exact `-o` token.
pub fn has_output_token(argv: &Vec<String>) -> (b: bool)
    ensures
        b == has_output_flag(argv.deep_view()),
{
    let ghost dv = argv.deep_view();
    proof {
        assert(dv.len() == argv@.len());
    }
    let n = argv.len();
    let mut i: usize = 0;
    while i < n
        invariant
            i <= n,
            n == argv@.len(),
            dv == argv.deep_view(),
            dv.len() == n,
            forall|k: int| 0 <= k < i ==> !is_output_flag(#[trigger] dv[k]),
        decreases n - i,
    {
        proof {
            assert(dv[i as int] == argv@[i as int]@);
        }
        if is_dash_o((&argv[i]).as_str()) {
            return true;
        }
        i += 1;
    }
    false
}

/// Steps one and two of the decision: the invoked program's base name
/// matches the compiler-driver pattern and an exact `-o` token is present.
/// Only then is the invocation worth a wire record; probes and version
/// queries run untouched.
pub fn should_capture(argv: &Vec<String>) -> (b: bool)
    ensures
        b == spec_should_capture(argv.deep_view()),
{
    let ghost dv = argv.deep_view();
    proof {
        assert(dv.len() == argv@.len());
    }
    if argv.len() == 0 {
        return false;
    }
    proof {
        assert(dv[0] == argv@[0]@);
    }
    if !matches_compiler_name((&argv[0]).as_str()) {
        return false;
    }
    has_output_token(argv)
}

/// Final decision of one interception: `Success` only when the invocation
/// qualified for capture and the record went out in full; anything else
/// degrades to `CallReal`, so instrumentation never breaks the real build.
pub fn hook_verdict(capture: bool, sent: bool) -> (r: HookReturn)
    ensures
        r == spec_verdict(capture, sent),
{
    if capture && sent {
        HookReturn::Success
    } else {
        HookReturn::CallReal
    }
}

/// Law: for a program path that does not match the compiler-driver
/// pattern, the interceptor answers `CallReal`, whatever else happened.
pub proof fn lemma_nonmatching_name_calls_real(argv: Seq<Seq<char>>, sent: bool)
    requires
        argv.len() == 0 || !is_compiler_name(argv[0]),
    ensures
        spec_verdict(spec_should_capture(argv), sent) == HookReturn::CallReal,
{
}

/// Law: for an argument vector without an exact `-o` token, the
/// interceptor answers `CallReal`, whatever else happened.
pub proof fn lemma_no_output_flag_calls_real(argv: Seq<Seq<char>>, sent: bool)
    requires
        !has_output_flag(argv),
    ensures
        spec_verdict(spec_should_capture(argv), sent) == HookReturn::CallReal,
{
}

/// Law: a failed or refused transmission never yields `Success`.
pub proof fn lemma_unsent_calls_real(argv: Seq<Seq<char>>)
    ensures
        spec_verdict(spec_should_capture(argv), false) == HookReturn::CallReal,
{
}

} // verus!
