//! The invocation rewriter.
//!
//! A captured command names its original compiler driver first.  To aim
//! the same compile at a different driver, three extra flags are derived
//! per original driver path: a sysroot and a target triple, each read from
//! a probe invocation of the original driver, and a toolchain root taken
//! structurally as the path two directory levels above the driver.  Each
//! is independently optional: a failed probe, or probe text that is empty
//! once trailing whitespace is trimmed, simply omits its flag.  Derived
//! flags are cached per driver path for the process's lifetime and are
//! never invalidated, so the probes behind them run at most once per path.

use crate::codec::string_from_utf8;
use vstd::prelude::*;
use vstd::string::{StrSliceExecFns, StringExecFns};
use vstd::utf8::{decode_utf8, valid_utf8};

verus! {

/// Trailing whitespace that probe-output trimming removes.
pub open spec fn is_trailing_ws(c: char) -> bool {
    c == ' ' || c == '\t' || c == '\n' || c == '\r'
}

/// The length that remains once trailing whitespace is dropped.
pub open spec fn spec_trim_len(s: Seq<char>) -> int
    decreases s.len(),
{
    if s.len() == 0 {
        0
    } else if is_trailing_ws(s[s.len() - 1]) {
        spec_trim_len(s.drop_last())
    } else {
        s.len() as int
    }
}

proof fn lemma_trim_len_bounds(s: Seq<char>)
    ensures
        0 <= spec_trim_len(s) <= s.len(),
    decreases s.len(),
{
    if s.len() > 0 && is_trailing_ws(s[s.len() - 1]) {
        lemma_trim_len_bounds(s.drop_last());
    }
}

/// The text without its trailing whitespace.
pub open spec fn spec_trimmed(s: Seq<char>) -> Seq<char> {
    s.subrange(0, spec_trim_len(s))
}

/// What probe output bytes yield: their decoded text without trailing
/// whitespace, or nothing when they are not UTF-8 or nothing remains.
pub open spec fn spec_trimmed_stdout(bytes: Seq<u8>) -> Option<Seq<char>> {
    if valid_utf8(bytes) {
        if spec_trim_len(decode_utf8(bytes)) == 0 {
            None
        } else {
            Some(spec_trimmed(decode_utf8(bytes)))
        }
    } else {
        None
    }
}

fn ws_before(s: &String, m: usize) -> (b: bool)
    requires
        1 <= m <= s@.len(),
    ensures
        b == is_trailing_ws(s@[m - 1]),
{
    let c = s.as_str().get_char(m - 1);
    c == ' ' || c == '\t' || c == '\n' || c == '\r'
}

/// Decodes captured probe output and trims trailing whitespace; nothing is
/// left of output that is not text or is blank.
pub fn trimmed_stdout(stdout: Vec<u8>) -> (r: Option<String>)
    ensures
        match spec_trimmed_stdout(stdout@) {
            Some(t) => r matches Some(s) && s@ == t,
            None => r is None,
        },
{
    let s = match string_from_utf8(stdout) {
        Some(s) => s,
        None => {
            return None;
        },
    };
    let n = s.as_str().unicode_len();
    proof {
        assert(s@.subrange(0, n as int) =~= s@);
    }
    let mut m = n;
    while m > 0 && ws_before(&s, m)
        invariant
            m <= n,
            n == s@.len(),
            spec_trim_len(s@) == spec_trim_len(s@.subrange(0, m as int)),
        decreases m,
    {
        proof {
            assert(s@.subrange(0, m as int).drop_last() =~= s@.subrange(0, m as int - 1));
        }
        m -= 1;
    }
    proof {
        if m > 0 {
            assert(s@.subrange(0, m as int).len() == m);
            assert(s@.subrange(0, m as int)[m - 1] == s@[m - 1]);
        }
        assert(spec_trim_len(s@) == m);
        lemma_trim_len_bounds(s@);
    }
    if m == 0 {
        return None;
    }
    let t = s.as_str().substring_char(0, m);
    Some(t.to_owned())
}

/// The index just past the last `/` of the text, if any.
pub open spec fn last_slash(s: Seq<char>) -> Option<int>
    decreases s.len(),
{
    if s.len() == 0 {
        None
    } else if s[s.len() - 1] == '/' {
        Some(s.len() - 1)
    } else {
        last_slash(s.drop_last())
    }
}

pub open spec fn strip_slashes(s: Seq<char>) -> Seq<char>
    decreases s.len(),
{
    if s.len() > 0 && s[s.len() - 1] == '/' {
        strip_slashes(s.drop_last())
    } else {
        s
    }
}

/// The path one directory level above: the text before the last separator
/// (trailing separators ignored).  A bare name's parent is empty text, a
/// top-level name's parent is `/`, and the root and empty text have none.
pub open spec fn spec_parent_dir(s0: Seq<char>) -> Option<Seq<char>> {
    let s = strip_slashes(s0);
    if s.len() == 0 {
        None
    } else {
        match last_slash(s) {
            None => Some(Seq::empty()),
            Some(k) => if k == 0 {
                Some(s.subrange(0, 1))
            } else {
                Some(s.subrange(0, k))
            },
        }
    }
}

/// The path two directory levels above the driver's own location.
pub open spec fn spec_toolchain_dir(s: Seq<char>) -> Option<Seq<char>> {
    match spec_parent_dir(s) {
        Some(p) => spec_parent_dir(p),
        None => None,
    }
}

fn slash_before(s: &str, m: usize) -> (b: bool)
    requires
        1 <= m <= s@.len(),
    ensures
        b == (s@[m - 1] == '/'),
{
    let c = s.get_char(m - 1);
    c == '/'
}

/// Where the parent of `s[..e]` ends, if it has one.
fn parent_end(s: &str, e: usize) -> (r: Option<usize>)
    requires
        e <= s@.len(),
    ensures
        match spec_parent_dir(s@.subrange(0, e as int)) {
            Some(p) => r matches Some(e2) && e2 <= e && s@.subrange(0, e2 as int) == p,
            None => r is None,
        },
{
    let ghost s0 = s@.subrange(0, e as int);
    let mut m = e;
    while m > 0 && slash_before(s, m)
        invariant
            m <= e,
            e <= s@.len(),
            strip_slashes(s0) == strip_slashes(s@.subrange(0, m as int)),
        decreases m,
    {
        proof {
            assert(s@.subrange(0, m as int).drop_last() =~= s@.subrange(0, m as int - 1));
        }
        m -= 1;
    }
    proof {
        assert(strip_slashes(s@.subrange(0, m as int)) == s@.subrange(0, m as int));
        assert(strip_slashes(s0) == s@.subrange(0, m as int));
    }
    if m == 0 {
        return None;
    }
    let mut k = m;
    while k > 0 && !slash_before(s, k)
        invariant
            k <= m,
            m <= s@.len(),
            last_slash(s@.subrange(0, m as int)) == last_slash(s@.subrange(0, k as int)),
        decreases k,
    {
        proof {
            assert(s@.subrange(0, k as int).drop_last() =~= s@.subrange(0, k as int - 1));
        }
        k -= 1;
    }
    let ghost stripped = s@.subrange(0, m as int);
    if k == 0 {
        proof {
            assert(last_slash(stripped) is None);
            assert(s@.subrange(0, 0) =~= Seq::<char>::empty());
        }
        Some(0)
    } else {
        proof {
            assert(s@.subrange(0, k as int)[k - 1] == s@[k - 1]);
            assert(last_slash(s@.subrange(0, k as int)) == Some(k as int - 1));
            assert(last_slash(stripped) == Some(k as int - 1));
            if k == 1 {
                assert(stripped.subrange(0, 1) =~= s@.subrange(0, 1));
            } else {
                assert(stripped.subrange(0, k as int - 1) =~= s@.subrange(0, k as int - 1));
            }
        }
        if k == 1 {
            Some(1)
        } else {
            Some(k - 1)
        }
    }
}

/// Derives the toolchain root structurally: the path two directory levels
/// above the original driver's own location, never probed.
pub fn gcc_toolchain_from_prog(prog: &str) -> (r: Option<String>)
    ensures
        match spec_toolchain_dir(prog@) {
            Some(t) => r matches Some(p) && p@ == t,
            None => r is None,
        },
{
    let n = prog.unicode_len();
    proof {
        assert(prog@.subrange(0, n as int) =~= prog@);
    }
    let e1 = match parent_end(prog, n) {
        Some(e) => e,
        None => {
            return None;
        },
    };
    let e2 = match parent_end(prog, e1) {
        Some(e) => e,
        None => {
            return None;
        },
    };
    let t = prog.substring_char(0, e2);
    Some(t.to_owned())
}

/// The flags derived from the two probe texts and the toolchain path, in
/// the order they are appended: sysroot, target, toolchain.
pub open spec fn opt_seq(sys: Option<Seq<char>>, tgt: Option<Seq<char>>, tc: Option<Seq<char>>) -> Seq<
    Seq<char>,
> {
    (match sys {
        Some(s) => seq!["--sysroot="@ + s],
        None => Seq::empty(),
    }) + (match tgt {
        Some(t) => seq!["-target"@, t],
        None => Seq::empty(),
    }) + (match tc {
        Some(c) => seq!["--gcc-toolchain="@ + c],
        None => Seq::empty(),
    })
}

/// What probe output stands for: the trimmed text of the probe's captured
/// bytes, or nothing when the probe invocation itself failed.
pub open spec fn spec_probe_text(out: Option<Seq<u8>>) -> Option<Seq<char>> {
    match out {
        Some(b) => spec_trimmed_stdout(b),
        None => None,
    }
}

/// Assembles the derived flags for one driver from its raw probe outputs
/// (`None` where the probe invocation failed): `--sysroot=<text>`,
/// `-target <text>`, `--gcc-toolchain=<path>`, each omitted when its
/// source yields nothing.
pub fn gcc_clangized_options(
    prog: &str,
    sysroot_out: Option<Vec<u8>>,
    target_out: Option<Vec<u8>>,
) -> (r: Vec<String>)
    ensures
        r.deep_view() == opt_seq(
            spec_probe_text(
                match sysroot_out {
                    Some(b) => Some(b@),
                    None => None,
                },
            ),
            spec_probe_text(
                match target_out {
                    Some(b) => Some(b@),
                    None => None,
                },
            ),
            spec_toolchain_dir(prog@),
        ),
{
    let ghost gs = spec_probe_text(
        match &sysroot_out {
            Some(b) => Some(b@),
            None => None,
        },
    );
    let ghost gt = spec_probe_text(
        match &target_out {
            Some(b) => Some(b@),
            None => None,
        },
    );
    let ghost gc = spec_toolchain_dir(prog@);
    let mut ret: Vec<String> = Vec::new();
    match sysroot_out {
        Some(b) => match trimmed_stdout(b) {
            Some(sysroot) => {
                ret.push(String::from_str("--sysroot=").concat(sysroot.as_str()));
            },
            None => {},
        },
        None => {},
    }
    match target_out {
        Some(b) => match trimmed_stdout(b) {
            Some(target) => {
                ret.push(String::from_str("-target"));
                ret.push(target);
            },
            None => {},
        },
        None => {},
    }
    match gcc_toolchain_from_prog(prog) {
        Some(toolchain) => {
            ret.push(String::from_str("--gcc-toolchain=").concat(toolchain.as_str()));
        },
        None => {},
    }
    proof {
        assert(ret.deep_view() =~= opt_seq(gs, gt, gc));
    }
    ret
}

/// Text that begins with the given prefix.
pub open spec fn starts_with(s: Seq<char>, pre: Seq<char>) -> bool {
    s.len() >= pre.len() && s.subrange(0, pre.len() as int) == pre
}

/// Law: when the sysroot probe yields nothing but the multiarch probe
/// yields a target, the derived flags carry `-target` and its value, and
/// none of the added flags is a sysroot flag (granted the probed target
/// text is not itself one).
pub proof fn lemma_target_without_sysroot(tgt: Seq<char>, tc: Option<Seq<char>>)
    requires
        !starts_with(tgt, "--sysroot="@),
    ensures
        opt_seq(None, Some(tgt), tc)[0] == "-target"@,
        opt_seq(None, Some(tgt), tc)[1] == tgt,
        forall|k: int|
            0 <= k < opt_seq(None, Some(tgt), tc).len() ==> !starts_with(
                #[trigger] opt_seq(None, Some(tgt), tc)[k],
                "--sysroot="@,
            ),
{
    reveal_strlit("--sysroot=");
    reveal_strlit("-target");
    reveal_strlit("--gcc-toolchain=");
    let o = opt_seq(None, Some(tgt), tc);
    assert forall|k: int| 0 <= k < o.len() implies !starts_with(o[k], "--sysroot="@) by {
        if k == 0 {
            if starts_with(o[0], "--sysroot="@) {
                assert(o[0].len() >= 10);
                assert(false);
            }
        } else if k == 1 {
        } else {
            let c = tc->0;
            assert(o[2] == "--gcc-toolchain="@ + c);
            if starts_with(o[2], "--sysroot="@) {
                assert(o[2].subrange(0, 10)[2] == "--sysroot="@[2]);
                assert(o[2][2] == 'g');
                assert(false);
            }
        }
    }
}

/// Per-driver-path cache of derived flags.  An entry is computed at most
/// once per distinct path for the process's lifetime and never evicted.
pub struct Clangizer {
    progs: Vec<String>,
    opts: Vec<Vec<String>>,
}

impl Clangizer {
    /// One options row per known driver path; paths pairwise distinct.
    pub closed spec fn wf(self) -> bool {
        self.progs@.len() == self.opts@.len() && (forall|a: int, b: int|
            0 <= a < b < self.progs@.len() ==> self.progs@[a]@ != self.progs@[b]@)
    }

    /// The cached flags for a driver path, if any were recorded.
    pub closed spec fn cached(self, p: Seq<char>) -> Option<Seq<Seq<char>>> {
        if exists|i: int| 0 <= i < self.progs@.len() && self.progs@[i]@ == p {
            let i = choose|i: int| 0 <= i < self.progs@.len() && self.progs@[i]@ == p;
            Some(self.opts@[i].deep_view())
        } else {
            None
        }
    }

    /// An empty cache.
    pub fn new() -> (c: Clangizer)
        ensures
            c.wf(),
            forall|p: Seq<char>| c.cached(p) is None,
    {
        Clangizer { progs: Vec::new(), opts: Vec::new() }
    }

    fn find(&self, prog: &str) -> (r: Option<usize>)
        requires
            self.wf(),
        ensures
            match r {
                Some(i) => i < self.progs@.len() && self.progs@[i as int]@ == prog@
                    && self.cached(prog@) == Some(self.opts@[i as int].deep_view()),
                None => self.cached(prog@) is None,
            },
    {
        let key = prog.to_owned();
        let n = self.progs.len();
        let mut i: usize = 0;
        while i < n
            invariant
                self.wf(),
                i <= n,
                n == self.progs@.len(),
                key@ == prog@,
                forall|k: int| 0 <= k < i ==> self.progs@[k]@ != prog@,
            decreases n - i,
        {
            if self.progs[i] == key {
                proof {
                    assert(self.progs@[i as int]@ == prog@);
                    let w = choose|w: int| 0 <= w < self.progs@.len() && self.progs@[w]@ == prog@;
                    if w != i {
                        assert(self.progs@[w]@ == self.progs@[i as int]@);
                        assert(false);
                    }
                }
                return Some(i);
            }
            i += 1;
        }
        None
    }

    /// Whether flags for this driver path still have to be derived; `false`
    /// as soon as a probe outcome for the path has been recorded.
    pub fn needs_probe(&self, prog: &str) -> (b: bool)
        requires
            self.wf(),
        ensures
            b == (self.cached(prog@) is None),
    {
        match self.find(prog) {
            Some(_) => false,
            None => true,
        }
    }

    /// Records one probe outcome for a driver path.  A path already cached
    /// keeps its first outcome untouched — so each probe runs at most once
    /// per path — and any other path's entry is unaffected.
    pub fn record_probe(
        &mut self,
        prog: &str,
        sysroot_out: Option<Vec<u8>>,
        target_out: Option<Vec<u8>>,
    )
        requires
            old(self).wf(),
        ensures
            final(self).wf(),
            final(self).cached(prog@) is Some,
            old(self).cached(prog@) is Some ==> *final(self) == *old(self),
            old(self).cached(prog@) is None ==> final(self).cached(prog@) == Some(
                opt_seq(
                    spec_probe_text(
                        match sysroot_out {
                            Some(b) => Some(b@),
                            None => None,
                        },
                    ),
                    spec_probe_text(
                        match target_out {
                            Some(b) => Some(b@),
                            None => None,
                        },
                    ),
                    spec_toolchain_dir(prog@),
                ),
            ),
            forall|q: Seq<char>| q != prog@ ==> final(self).cached(q) == old(self).cached(q),
    {
        match self.find(prog) {
            Some(_) => {
            },
            None => {
                let row = gcc_clangized_options(prog, sysroot_out, target_out);
                let ghost oldp = self.progs@;
                let ghost oldo = self.opts@;
                self.progs.push(prog.to_owned());
                self.opts.push(row);
                proof {
                    let n = oldp.len() as int;
                    assert(self.progs@[n]@ == prog@);
                    assert forall|a: int, b: int|
                        0 <= a < b < self.progs@.len() implies self.progs@[a]@
                        != self.progs@[b]@ by {
                        if b < n {
                        } else {
                            assert(b == n);
                            if self.progs@[a]@ == prog@ {
                                assert(oldp[a]@ == prog@);
                                assert(false);
                            }
                        }
                    }
                    let w = choose|w: int|
                        0 <= w < self.progs@.len() && self.progs@[w]@ == prog@;
                    if w != n {
                        assert(oldp[w]@ == prog@);
                        assert(false);
                    }
                    assert(self.cached(prog@) == Some(self.opts@[n].deep_view()));
                    assert forall|q: Seq<char>| q != prog@ implies #[trigger] self.cached(q)
                        == old(self).cached(q) by {
                        if exists|t: int| 0 <= t < oldp.len() && oldp[t]@ == q {
                            let t1 = choose|t: int| 0 <= t < oldp.len() && oldp[t]@ == q;
                            assert(self.progs@[t1]@ == q);
                            let t2 = choose|t: int|
                                0 <= t < self.progs@.len() && self.progs@[t]@ == q;
                            if t2 == n {
                                assert(false);
                            }
                            if t1 != t2 {
                                assert(self.progs@[t1]@ == self.progs@[t2]@);
                                assert(false);
                            }
                        } else {
                            if exists|t: int|
                                0 <= t < self.progs@.len() && self.progs@[t]@ == q {
                                let t2 = choose|t: int|
                                    0 <= t < self.progs@.len() && self.progs@[t]@ == q;
                                if t2 == n {
                                    assert(false);
                                } else {
                                    assert(oldp[t2]@ == q);
                                    assert(false);
                                }
                            }
                        }
                    }
                }
            },
        }
    }

    /// Rewrites a captured command for the other driver: `clang` replaces
    /// the original driver name and the flags cached for that driver are
    /// appended after the arguments, which stay in place and in order.
    /// The cache itself does not change — a second rewrite of the same
    /// path is served from it.
    pub fn clangize(&mut self, argv: Vec<String>) -> (r: Vec<String>)
        requires
            old(self).wf(),
            argv@.len() > 0,
            old(self).cached(argv.deep_view()[0]) is Some,
        ensures
            *final(self) == *old(self),
            r.deep_view() == argv.deep_view().update(0, "clang"@)
                + (old(self).cached(argv.deep_view()[0])->0),
    {
        let ghost dv = argv.deep_view();
        proof {
            assert(dv.len() == argv@.len());
            assert(dv[0] == argv@[0]@);
        }
        let i = match self.find((&argv[0]).as_str()) {
            Some(i) => i,
            None => {
                proof {
                    assert(false);
                }
                return argv;
            },
        };
        let row = &self.opts[i];
        let m = row.len();
        let mut out = argv;
        out.set(0, String::from_str("clang"));
        let ghost base = dv.update(0, "clang"@);
        proof {
            assert(out.deep_view() =~= base);
            assert(base + row.deep_view().take(0) =~= base);
        }
        let mut j: usize = 0;
        while j < m
            invariant
                j <= m,
                m == row@.len(),
                out.deep_view() == base + row.deep_view().take(j as int),
            decreases m - j,
        {
            let ghost before = out.deep_view();
            out.push((&row[j]).clone());
            proof {
                assert(row.deep_view()[j as int] == row@[j as int]@);
                assert(out.deep_view() =~= before.push(row@[j as int]@));
                assert(base + row.deep_view().take(j as int + 1) =~= (base + row.deep_view().take(
                    j as int,
                )).push(row.deep_view()[j as int]));
            }
            j += 1;
        }
        proof {
            assert(row.deep_view().take(m as int) =~= row.deep_view());
        }
        out
    }
}

} // verus!
