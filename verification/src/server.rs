//! The collecting side: the invocation filter and the per-connection
//! ingestion that turns a connection's bytes into captured commands.
//!
//! A connection carries consecutive wire records.  Each decoded invocation
//! runs through the filter: the first argument bearing a recognized source
//! suffix (`.c` or `.cpp`, case-insensitively) names the compiled file;
//! an invocation without one is a non-compile step and is dropped.  A
//! surviving invocation becomes a captured command whose first argument is
//! replaced by the resolved program name.

use crate::codec::{decode_record, lemma_decode_record_bounds, spec_decode_record, Cmdline};
use vstd::pervasive::VecAdditionalExecFns;
use vstd::prelude::*;
use vstd::string::StrSliceExecFns;

verus! {

/// One recorded compiler invocation tied to exactly one source file,
/// in the shape of a compile-commands entry.
#[derive(Debug)]
pub struct CompilationCommand {
    pub directory: String,
    pub command: Vec<String>,
    pub file: String,
}

impl View for CompilationCommand {
    type V = (Seq<char>, Seq<Seq<char>>, Seq<char>);

    open spec fn view(&self) -> (Seq<char>, Seq<Seq<char>>, Seq<char>) {
        (self.directory@, self.command.deep_view(), self.file@)
    }
}

impl DeepView for CompilationCommand {
    type V = (Seq<char>, Seq<Seq<char>>, Seq<char>);

    open spec fn deep_view(&self) -> (Seq<char>, Seq<Seq<char>>, Seq<char>) {
        self@
    }
}

/// Ends in `.c`, case-insensitively.
pub open spec fn ends_dot_c(s: Seq<char>) -> bool {
    s.len() >= 2 && s[s.len() - 2] == '.' && (s[s.len() - 1] == 'c' || s[s.len() - 1] == 'C')
}

/// Ends in `.cpp`, case-insensitively.
pub open spec fn ends_dot_cpp(s: Seq<char>) -> bool {
    &&& s.len() >= 4
    &&& s[s.len() - 4] == '.'
    &&& (s[s.len() - 3] == 'c' || s[s.len() - 3] == 'C')
    &&& (s[s.len() - 2] == 'p' || s[s.len() - 2] == 'P')
    &&& (s[s.len() - 1] == 'p' || s[s.len() - 1] == 'P')
}

/// An argument that names a source file.
pub open spec fn is_source_file_arg(s: Seq<char>) -> bool {
    ends_dot_c(s) || ends_dot_cpp(s)
}

/// The position of the first source-file argument at or after `k`.
pub open spec fn spec_first_source(argv: Seq<Seq<char>>, k: int) -> Option<int>
    decreases argv.len() - k,
    when 0 <= k <= argv.len()
{
    if k >= argv.len() {
        None
    } else if is_source_file_arg(argv[k]) {
        Some(k)
    } else {
        spec_first_source(argv, k + 1)
    }
}

/// What the filter makes of one invocation: nothing, or the entry
/// `(directory, argv with the program name put first, matched file)`.
pub open spec fn spec_capture(prog: Seq<char>, argv: Seq<Seq<char>>, dir: Seq<char>) -> Option<
    (Seq<char>, Seq<Seq<char>>, Seq<char>),
> {
    match spec_first_source(argv, 0) {
        Some(i) => Some((dir, argv.update(0, prog), argv[i])),
        None => None,
    }
}

/// Law: the filter drops an invocation exactly when no argument bears a
/// recognized source suffix.
pub proof fn lemma_filter_drops_iff_no_source(argv: Seq<Seq<char>>)
    ensures
        spec_first_source(argv, 0) is None <==> (forall|k: int|
            0 <= k < argv.len() ==> !is_source_file_arg(#[trigger] argv[k])),
{
    lemma_first_source_from(argv, 0);
}

/// Law: when the filter keeps an invocation, the file it names is the
/// first source-file argument: a source argument, with none before it.
pub proof fn lemma_filter_file_is_first_source(argv: Seq<Seq<char>>)
    requires
        spec_first_source(argv, 0) is Some,
    ensures
        ({
            let i = spec_first_source(argv, 0)->0;
            &&& 0 <= i < argv.len()
            &&& is_source_file_arg(argv[i])
            &&& forall|k: int| 0 <= k < i ==> !is_source_file_arg(#[trigger] argv[k])
        }),
{
    lemma_first_source_from(argv, 0);
}

proof fn lemma_first_source_from(argv: Seq<Seq<char>>, k: int)
    requires
        0 <= k <= argv.len(),
    ensures
        spec_first_source(argv, k) is None <==> (forall|t: int|
            k <= t < argv.len() ==> !is_source_file_arg(#[trigger] argv[t])),
        spec_first_source(argv, k) matches Some(i) ==> k <= i < argv.len()
            && is_source_file_arg(argv[i]) && (forall|t: int|
            k <= t < i ==> !is_source_file_arg(#[trigger] argv[t])),
    decreases argv.len() - k,
{
    if k < argv.len() && !is_source_file_arg(argv[k]) {
        lemma_first_source_from(argv, k + 1);
    }
}

/// Whether one argument names a source file.
fn arg_is_source(a: &str) -> (b: bool)
    ensures
        b == is_source_file_arg(a@),
{
    let n = a.unicode_len();
    let mut r = false;
    if n >= 2 {
        let c1 = a.get_char(n - 2);
        let c2 = a.get_char(n - 1);
        if c1 == '.' && (c2 == 'c' || c2 == 'C') {
            r = true;
        }
    }
    if !r && n >= 4 {
        let d1 = a.get_char(n - 4);
        let d2 = a.get_char(n - 3);
        let d3 = a.get_char(n - 2);
        let d4 = a.get_char(n - 1);
        if d1 == '.' && (d2 == 'c' || d2 == 'C') && (d3 == 'p' || d3 == 'P') && (d4 == 'p' || d4
            == 'P') {
            r = true;
        }
    }
    r
}

/// The first argument bearing a recognized source suffix, if any.
pub fn filename_from_args(args: &Vec<String>) -> (r: Option<String>)
    ensures
        match spec_first_source(args.deep_view(), 0) {
            Some(i) => r matches Some(f) && f@ == args.deep_view()[i],
            None => r is None,
        },
{
    let ghost dv = args.deep_view();
    let n = args.len();
    let mut k: usize = 0;
    proof {
        assert(dv.len() == args@.len());
    }
    while k < n
        invariant
            k <= n,
            n == args@.len(),
            dv == args.deep_view(),
            dv.len() == n,
            spec_first_source(dv, 0) == spec_first_source(dv, k as int),
        decreases n - k,
    {
        proof {
            assert(dv[k as int] == args@[k as int]@);
        }
        if arg_is_source((&args[k]).as_str()) {
            proof {
                assert(spec_first_source(dv, k as int) == Some(k as int));
            }
            return Some((&args[k]).clone());
        }
        k += 1;
    }
    None
}

/// The invocation filter: drops an invocation with no source-file
/// argument; otherwise puts the resolved program name first and ties the
/// entry to the matched file.
pub fn capture_from_invocation(inv: Cmdline) -> (r: Option<CompilationCommand>)
    ensures
        match spec_capture(inv.prog@, inv.argv.deep_view(), inv.dir@) {
            Some(t) => r matches Some(cc) && cc@ == t,
            None => r is None,
        },
{
    let ghost dv = inv.argv.deep_view();
    let file = match filename_from_args(&inv.argv) {
        Some(f) => f,
        None => {
            return None;
        },
    };
    proof {
        lemma_filter_file_is_first_source(dv);
        assert(dv.len() == inv.argv@.len());
    }
    let mut command = inv.argv;
    command.set(0, inv.prog.clone());
    proof {
        assert(command.deep_view() =~= dv.update(0, inv.prog@));
    }
    Some(CompilationCommand { directory: inv.dir, command, file })
}

/// Every captured command, in the order the records stand in the bytes of
/// one connection, up to the bytes' end or the first malformed record.
pub open spec fn spec_ingest(b: Seq<u8>, pos: int) -> Seq<(Seq<char>, Seq<Seq<char>>, Seq<char>)>
    decreases b.len() - pos,
    when 0 <= pos <= b.len()
{
    match spec_decode_record(b, pos) {
        Some(t) => if pos < t.3 <= b.len() {
            match spec_capture(t.0, t.1, t.2) {
                Some(c) => seq![c] + spec_ingest(b, t.3),
                None => spec_ingest(b, t.3),
            }
        } else {
            Seq::empty()
        },
        None => Seq::empty(),
    }
}

/// The decode loop of one connection: records are decoded in order and
/// filtered until the bytes end or a record fails to parse; survivors
/// come out in arrival order.
pub fn decode_connection(bytes: &Vec<u8>) -> (r: Vec<CompilationCommand>)
    ensures
        r.deep_view() == spec_ingest(bytes@, 0),
{
    let mut out: Vec<CompilationCommand> = Vec::new();
    let mut pos: usize = 0;
    proof {
        assert(out.deep_view() + spec_ingest(bytes@, 0) =~= spec_ingest(bytes@, 0));
    }
    loop
        invariant
            pos <= bytes@.len(),
            spec_ingest(bytes@, 0) == out.deep_view() + spec_ingest(bytes@, pos as int),
        ensures
            spec_ingest(bytes@, pos as int) =~= Seq::<(Seq<char>, Seq<Seq<char>>, Seq<char>)>::empty(),
        decreases bytes@.len() - pos,
    {
        let step = decode_record(bytes, pos);
        match step {
            Some((c, end)) => {
                proof {
                    lemma_decode_record_bounds(bytes@, pos as int);
                }
                let ghost t = spec_decode_record(bytes@, pos as int)->0;
                let ghost old_dv = out.deep_view();
                let captured = capture_from_invocation(c);
                match captured {
                    Some(cc) => {
                        proof {
                            assert(spec_capture(t.0, t.1, t.2) is Some);
                        }
                        out.push(cc);
                        proof {
                            assert(out.deep_view() =~= old_dv.push(cc@));
                            let rest = spec_ingest(bytes@, end as int);
                            assert(old_dv + (seq![cc@] + rest) =~= old_dv.push(cc@) + rest);
                        }
                    },
                    None => {
                        proof {
                            assert(spec_capture(t.0, t.1, t.2) is None);
                        }
                    },
                }
                pos = end;
            },
            None => {
                break ;
            },
        }
    }
    proof {
        assert(out.deep_view() + Seq::<(Seq<char>, Seq<Seq<char>>, Seq<char>)>::empty()
            =~= out.deep_view());
    }
    out
}

} // verus!
