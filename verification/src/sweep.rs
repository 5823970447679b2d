//! The sweep's plan: which sizes to measure, how long each sample runs, and
//! how many bytes a size in MiB is.

use vstd::prelude::*;
use crate::text::{chars_of, parse_usize_in, parse_usize_spec};

verus! {

broadcast use vstd::string::group_string_axioms;

/// Bytes in a MiB.
pub const MIB: usize = 1024 * 1024;

/// Repeats per size. Three is enough to see whether the box is quiet.
pub const REPEATS: usize = 3;

/// Minimum wall time per timed sample, in nanoseconds (50 ms). Below this
/// the number describes the scheduler rather than the memory.
pub const MIN_SAMPLE_NANOS: u128 = 50_000_000;

/// The sizes swept when none are given, in MiB: chosen to straddle a
/// last-level cache in both directions.
pub open spec fn default_sizes_spec() -> Seq<usize> {
    seq![2usize, 4, 16, 64, 256, 512, 1024, 2048]
}

/// The sizes swept when none are given, in MiB.
pub fn default_sizes_mib() -> (v: Vec<usize>)
    ensures
        v@ == default_sizes_spec(),
{
    let v: Vec<usize> = vec![2, 4, 16, 64, 256, 512, 1024, 2048];
    assert(v@ =~= default_sizes_spec());
    v
}

/// The arguments that parse as a `usize`, in order, parsed.
pub open spec fn parsed_args(args: Seq<Seq<char>>) -> Seq<usize>
    decreases args.len(),
{
    if args.len() == 0 {
        Seq::empty()
    } else {
        let rest = parsed_args(args.drop_first());
        match parse_usize_spec(args[0]) {
            Some(n) => seq![n] + rest,
            None => rest,
        }
    }
}

/// The sizes to sweep, in MiB: those of the arguments that parse as a
/// `usize`, or the default sweep when none does.
pub open spec fn sizes_spec(args: Seq<Seq<char>>) -> Seq<usize> {
    if parsed_args(args).len() == 0 {
        default_sizes_spec()
    } else {
        parsed_args(args)
    }
}

/// `idx` lists, in increasing order and each once, exactly the positions of
/// the arguments that parse as a `usize`, and `sizes[k]` is the value of the
/// argument at `idx[k]`.
pub open spec fn lists_parsed_arguments(args: Seq<Seq<char>>, sizes: Seq<usize>, idx: Seq<int>) -> bool {
    &&& idx.len() == sizes.len()
    &&& forall|k: int|
        0 <= k < idx.len() ==> 0 <= #[trigger] idx[k] < args.len() && parse_usize_spec(args[idx[k]])
            == Some(sizes[k])
    &&& forall|k1: int, k2: int| 0 <= k1 < k2 < idx.len() ==> #[trigger] idx[k1] < #[trigger] idx[k2]
    &&& forall|i: int|
        0 <= i < args.len() && (#[trigger] parse_usize_spec(args[i])) is Some ==> idx.contains(i)
}

/// The positions of the arguments that parse, in order.
proof fn parsed_positions(args: Seq<Seq<char>>) -> (idx: Seq<int>)
    ensures
        lists_parsed_arguments(args, parsed_args(args), idx),
    decreases args.len(),
{
    if args.len() == 0 {
        Seq::empty()
    } else {
        let rest = args.drop_first();
        let ridx = parsed_positions(rest);
        let shifted = ridx.map_values(|j: int| j + 1);
        let r = parsed_args(args);
        let rr = parsed_args(rest);
        let idx = if parse_usize_spec(args[0]) is Some {
            seq![0int] + shifted
        } else {
            shifted
        };
        assert forall|i: int|
            0 <= i < args.len() && (#[trigger] parse_usize_spec(args[i])) is Some implies idx.contains(
                i,
            ) by {
            if i == 0 {
                assert(idx[0] == 0);
            } else {
                assert(rest[i - 1] == args[i]);
                assert(parse_usize_spec(rest[i - 1]) is Some);
                assert(ridx.contains(i - 1));
                let k = choose|k: int| 0 <= k < ridx.len() && ridx[k] == i - 1;
                if parse_usize_spec(args[0]) is Some {
                    assert(idx[k + 1] == i);
                } else {
                    assert(idx[k] == i);
                }
            }
        }
        assert forall|k: int|
            0 <= k < idx.len() implies 0 <= #[trigger] idx[k] < args.len() && parse_usize_spec(
                args[idx[k]],
            ) == Some(r[k]) by {
            if parse_usize_spec(args[0]) is Some {
                if k > 0 {
                    assert(idx[k] == ridx[k - 1] + 1);
                    assert(rest[ridx[k - 1]] == args[idx[k]]);
                    assert(r[k] == rr[k - 1]);
                }
            } else {
                assert(idx[k] == ridx[k] + 1);
                assert(rest[ridx[k]] == args[idx[k]]);
            }
        }
        assert forall|k1: int, k2: int| 0 <= k1 < k2 < idx.len() implies #[trigger] idx[k1]
            < #[trigger] idx[k2] by {
            if parse_usize_spec(args[0]) is Some {
                if k1 > 0 {
                    assert(ridx[k1 - 1] < ridx[k2 - 1]);
                } else {
                    assert(0 <= ridx[k2 - 1]);
                }
            } else {
                assert(ridx[k1] < ridx[k2]);
            }
        }
        idx
    }
}

/// The sweep keeps every argument that parses, once each and in argument
/// order, with its value; when no argument parses it is the default sweep
/// 2, 4, 16, 64, 256, 512, 1024, 2048 MiB.
pub proof fn lemma_sizes_are_the_parsed_arguments(args: Seq<Seq<char>>)
    ensures
        (exists|i: int| 0 <= i < args.len() && (#[trigger] parse_usize_spec(args[i])) is Some)
            ==> exists|idx: Seq<int>| lists_parsed_arguments(args, sizes_spec(args), idx),
        (forall|i: int| 0 <= i < args.len() ==> (#[trigger] parse_usize_spec(args[i])) is None)
            ==> sizes_spec(args) == seq![2usize, 4, 16, 64, 256, 512, 1024, 2048],
{
    let idx = parsed_positions(args);
    if exists|i: int| 0 <= i < args.len() && (#[trigger] parse_usize_spec(args[i])) is Some {
        let i = choose|i: int| 0 <= i < args.len() && (#[trigger] parse_usize_spec(args[i])) is Some;
        assert(idx.contains(i));
        assert(parsed_args(args).len() > 0);
        assert(lists_parsed_arguments(args, sizes_spec(args), idx));
    }
    if forall|i: int| 0 <= i < args.len() ==> (#[trigger] parse_usize_spec(args[i])) is None {
        if idx.len() > 0 {
            assert(parse_usize_spec(args[idx[0]]) is Some);
        }
        assert(sizes_spec(args) =~= seq![2usize, 4, 16, 64, 256, 512, 1024, 2048]);
    }
}

/// The text of each argument.
pub open spec fn arg_texts(args: Seq<String>) -> Seq<Seq<char>> {
    args.map_values(|a: String| a@)
}

/// Parses a whole string as `str::parse::<usize>` does.
pub fn parse_usize(s: &str) -> (r: Option<usize>)
    ensures
        r == parse_usize_spec(s@),
{
    let v = chars_of(s);
    assert(v@.subrange(0, v@.len() as int) =~= s@);
    parse_usize_in(v.as_slice(), 0, v.len())
}

/// The sizes to sweep, in MiB, from the command-line arguments: each argument
/// that parses as a number, skipping the rest; the default sweep when none
/// parses.
pub fn parse_sizes(args: &[String]) -> (sizes: Vec<usize>)
    ensures
        sizes@ == sizes_spec(arg_texts(args@)),
        (exists|i: int|
            0 <= i < args@.len() && (#[trigger] parse_usize_spec(args@[i]@)) is Some) ==> exists|
            idx: Seq<int>,
        | lists_parsed_arguments(arg_texts(args@), sizes@, idx),
        (forall|i: int| 0 <= i < args@.len() ==> (#[trigger] parse_usize_spec(args@[i]@)) is None)
            ==> sizes@ == seq![2usize, 4, 16, 64, 256, 512, 1024, 2048],
{
    let ghost texts = arg_texts(args@);
    let mut parsed: Vec<usize> = Vec::new();
    let mut i = args.len();
    while i > 0
        invariant
            i <= args@.len(),
            texts == arg_texts(args@),
            parsed@ == parsed_args(texts.skip(i as int)),
        decreases i,
    {
        i = i - 1;
        let ghost rest = texts.skip(i + 1);
        assert(texts.skip(i as int).drop_first() =~= rest);
        assert(texts.skip(i as int)[0] == args@[i as int]@);
        match parse_usize(args[i].as_str()) {
            Some(n) => {
                parsed.insert(0, n);
                assert(parsed@ =~= seq![n] + parsed_args(rest));
            },
            None => {},
        }
    }
    assert(texts.skip(0) =~= texts);
    proof {
        lemma_sizes_are_the_parsed_arguments(texts);
        if exists|i: int| 0 <= i < args@.len() && (#[trigger] parse_usize_spec(args@[i]@)) is Some {
            let i = choose|i: int|
                0 <= i < args@.len() && (#[trigger] parse_usize_spec(args@[i]@)) is Some;
            assert(texts[i] == args@[i]@);
        }
        if forall|i: int| 0 <= i < args@.len() ==> (#[trigger] parse_usize_spec(args@[i]@)) is None {
            assert forall|i: int| 0 <= i < texts.len() implies (#[trigger] parse_usize_spec(
                texts[i],
            )) is None by {
                assert(texts[i] == args@[i]@);
            }
        }
    }
    if parsed.len() == 0 {
        default_sizes_mib()
    } else {
        parsed
    }
}

/// A probe pass's duration as the sample counts it: under 1 ns counts as 1 ns.
pub open spec fn probe_duration(probe_nanos: u128) -> nat {
    if probe_nanos < 1 {
        1
    } else {
        probe_nanos as nat
    }
}

/// How many times a sample repeats a pass that took `probe_nanos` once: the
/// fewest passes that together run for at least `MIN_SAMPLE_NANOS`, and at
/// least one.
pub open spec fn sample_iterations_spec(probe_nanos: u128) -> u32 {
    let one = probe_duration(probe_nanos);
    let q = (MIN_SAMPLE_NANOS + one - 1) / (one as int);
    if q < 1 {
        1
    } else {
        q as u32
    }
}

/// The number of passes in one timed sample, from one probe pass: enough that
/// the sample runs for at least the minimum sample, and one fewer would not.
pub fn sample_iterations(probe_nanos: u128) -> (iters: u32)
    ensures
        iters == sample_iterations_spec(probe_nanos),
        iters >= 1,
        iters * probe_duration(probe_nanos) >= MIN_SAMPLE_NANOS,
        (iters - 1) * probe_duration(probe_nanos) < MIN_SAMPLE_NANOS,
{
    let one: u128 = if probe_nanos < 1 {
        1
    } else {
        probe_nanos
    };
    let ghost m = MIN_SAMPLE_NANOS as int;
    let ghost o = one as int;
    let q: u128 = if one >= MIN_SAMPLE_NANOS {
        1
    } else {
        (MIN_SAMPLE_NANOS + one - 1) / one
    };
    proof {
        let n = m + o - 1;
        vstd::arithmetic::div_mod::lemma_fundamental_div_mod(n, o);
        vstd::arithmetic::div_mod::lemma_mod_bound(n, o);
        if o >= m {
            assert(n / o == 1) by {
                vstd::arithmetic::div_mod::lemma_fundamental_div_mod_converse(n, o, 1, n - o);
            }
        } else {
            assert(n / o <= n) by {
                vstd::arithmetic::div_mod::lemma_div_is_ordered_by_denominator(n, 1, o);
            }
        }
        let k = n / o;
        assert(k * o >= m && (k - 1) * o < m) by (nonlinear_arith)
            requires
                n == o * k + n % o,
                0 <= n % o < o,
                n == m + o - 1,
                o >= 1,
        ;
        assert(k >= 1) by (nonlinear_arith)
            requires
                k * o >= m,
                m > 0,
                o >= 1,
        ;
        assert(k <= m) by (nonlinear_arith)
            requires
                (k - 1) * o < m,
                o >= 1,
                k >= 1,
        ;
    }
    q as u32
}

/// The size in bytes of a buffer of `mib` MiB.
pub fn sweep_bytes(mib: usize) -> (bytes: usize)
    requires
        mib * MIB <= usize::MAX,
    ensures
        bytes == mib * MIB,
{
    mib * MIB
}

} // verus!
